//! The tape positioning state machine, verified over an in-memory
//! medium.
//!
//! A tape is a sequence of recorded objects — data blocks and filemarks
//! — closed by end-of-data, plus one implicit drive-held position. The
//! operations here implement the same positioning discipline the SCSI
//! driver issues over the wire: a locate lands on the BOT side of a
//! filemark and must step across it, reads consume the object they
//! report, and writes truncate the recording at the current position.

use vstd::prelude::*;

use crate::tape::{ReadPositionLongPage, ScsiError, SenseInfo, TapeError};

verus! {

/// One recorded object on the medium.
#[derive(Clone, Debug, PartialEq)]
pub enum TapeEntry {
    Block(Vec<u8>),
    Filemark,
}

/// Number of filemarks among the first `k` recorded objects.
pub open spec fn marks_before(entries: Seq<TapeEntry>, k: int) -> int
    decreases k,
{
    if k <= 0 {
        0
    } else {
        marks_before(entries, k - 1) + (if entries[k - 1] is Filemark {
            1int
        } else {
            0int
        })
    }
}

pub proof fn lemma_marks_before_le(entries: Seq<TapeEntry>, k: int)
    requires
        k >= 0,
    ensures
        0 <= marks_before(entries, k) <= k,
    decreases k,
{
    if k > 0 {
        lemma_marks_before_le(entries, k - 1);
    }
}

pub proof fn lemma_marks_before_mono(entries: Seq<TapeEntry>, a: int, b: int)
    requires
        0 <= a <= b,
    ensures
        marks_before(entries, a) <= marks_before(entries, b),
    decreases b,
{
    if a < b {
        lemma_marks_before_mono(entries, a, b - 1);
    }
}

/// Consecutive data blocks from position `p` to the next filemark or
/// end-of-data.
pub open spec fn blocks_ahead(entries: Seq<TapeEntry>, p: int) -> int
    decreases entries.len() - p,
{
    if p < 0 || p >= entries.len() || entries[p] is Filemark {
        0
    } else {
        1 + blocks_ahead(entries, p + 1)
    }
}

/// Consecutive data blocks directly behind position `p`, back to the
/// previous filemark or beginning of tape.
pub open spec fn blocks_behind(entries: Seq<TapeEntry>, p: int) -> int
    decreases p,
{
    if p <= 0 || p > entries.len() || entries[p - 1] is Filemark {
        0
    } else {
        1 + blocks_behind(entries, p - 1)
    }
}

proof fn lemma_blocks_ahead_exact(entries: Seq<TapeEntry>, p: int, k: int)
    requires
        0 <= p,
        0 <= k,
        p + k <= entries.len(),
        forall|q: int| p <= q < p + k ==> !((#[trigger] entries[q]) is Filemark),
        p + k == entries.len() || entries[p + k] is Filemark,
    ensures
        blocks_ahead(entries, p) == k,
    decreases k,
{
    if k > 0 {
        assert(!(entries[p] is Filemark));
        lemma_blocks_ahead_exact(entries, p + 1, k - 1);
    }
}

proof fn lemma_blocks_ahead_lower(entries: Seq<TapeEntry>, p: int, k: int)
    requires
        0 <= p,
        0 <= k,
        p + k <= entries.len(),
        forall|q: int| p <= q < p + k ==> !((#[trigger] entries[q]) is Filemark),
    ensures
        blocks_ahead(entries, p) >= k,
    decreases k,
{
    if k == 0 {
        lemma_blocks_ahead_nonneg(entries, p);
    } else {
        assert(!(entries[p] is Filemark));
        lemma_blocks_ahead_lower(entries, p + 1, k - 1);
    }
}

proof fn lemma_blocks_behind_exact(entries: Seq<TapeEntry>, p: int, k: int)
    requires
        0 <= k <= p,
        p <= entries.len(),
        forall|q: int| p - k <= q < p ==> !((#[trigger] entries[q]) is Filemark),
        p - k == 0 || entries[p - k - 1] is Filemark,
    ensures
        blocks_behind(entries, p) == k,
    decreases k,
{
    if k > 0 {
        assert(!(entries[p - 1] is Filemark));
        lemma_blocks_behind_exact(entries, p - 1, k - 1);
    }
}

proof fn lemma_blocks_behind_lower(entries: Seq<TapeEntry>, p: int, k: int)
    requires
        0 <= k <= p,
        p <= entries.len(),
        forall|q: int| p - k <= q < p ==> !((#[trigger] entries[q]) is Filemark),
    ensures
        blocks_behind(entries, p) >= k,
    decreases k,
{
    if k == 0 {
        lemma_blocks_behind_nonneg(entries, p);
    } else {
        assert(!(entries[p - 1] is Filemark));
        lemma_blocks_behind_lower(entries, p - 1, k - 1);
    }
}

proof fn lemma_blocks_ahead_nonneg(entries: Seq<TapeEntry>, p: int)
    ensures
        blocks_ahead(entries, p) >= 0,
    decreases entries.len() - p,
{
    if !(p < 0 || p >= entries.len() || entries[p] is Filemark) {
        lemma_blocks_ahead_nonneg(entries, p + 1);
    }
}

proof fn lemma_blocks_behind_nonneg(entries: Seq<TapeEntry>, p: int)
    ensures
        blocks_behind(entries, p) >= 0,
    decreases p,
{
    if !(p <= 0 || p > entries.len() || entries[p - 1] is Filemark) {
        lemma_blocks_behind_nonneg(entries, p - 1);
    }
}

proof fn lemma_blocks_behind_front(entries: Seq<TapeEntry>, p: int)
    requires
        0 <= p <= entries.len(),
        blocks_behind(entries, p) >= 1,
    ensures
        0 < p,
        !(entries[p - 1] is Filemark),
        blocks_ahead(entries, p - 1) >= 1,
{
    lemma_blocks_ahead_nonneg(entries, p);
}

/// Two filemarks with the same number of filemarks before them are the
/// same filemark.
proof fn lemma_mark_position_unique(entries: Seq<TapeEntry>, q1: int, q2: int)
    requires
        0 <= q1 < entries.len(),
        0 <= q2 < entries.len(),
        entries[q1] is Filemark,
        entries[q2] is Filemark,
        marks_before(entries, q1) == marks_before(entries, q2),
    ensures
        q1 == q2,
{
    if q1 < q2 {
        assert(marks_before(entries, q1 + 1) == marks_before(entries, q1) + 1);
        lemma_marks_before_mono(entries, q1 + 1, q2);
        assert(false);
    } else if q2 < q1 {
        assert(marks_before(entries, q2 + 1) == marks_before(entries, q2) + 1);
        lemma_marks_before_mono(entries, q2 + 1, q1);
        assert(false);
    }
}

/// What reading one object returns.
#[derive(Clone, Debug, PartialEq)]
pub enum TapeReadOutcome {
    Data(Vec<u8>),
    EndOfFile,
    EndOfStream,
}

fn copy_bytes(src: &Vec<u8>) -> (r: Vec<u8>)
    ensures
        r@ == src@,
{
    let mut r: Vec<u8> = Vec::new();
    let mut i: usize = 0;
    while i < src.len()
        invariant
            i <= src@.len(),
            r@ == src@.take(i as int),
        decreases src@.len() - i,
    {
        r.push(src[i]);
        assert(src@.take(i + 1) =~= src@.take(i as int).push(src@[i as int]));
        i += 1;
    }
    assert(src@.take(src@.len() as int) =~= src@);
    r
}

/// An LTO medium with its drive-held position, in memory.
pub struct VirtualTape {
    entries: Vec<TapeEntry>,
    pos: usize,
}

impl VirtualTape {
    /// The recorded objects up to end-of-data.
    pub closed spec fn spec_entries(&self) -> Seq<TapeEntry> {
        self.entries@
    }

    /// The implicit position: recorded objects behind the head.
    pub closed spec fn spec_pos(&self) -> int {
        self.pos as int
    }

    pub open spec fn wf(&self) -> bool {
        self.spec_pos() <= self.spec_entries().len()
    }

    /// The logical file id: filemarks behind the head.
    pub open spec fn file_number(&self) -> int {
        marks_before(self.spec_entries(), self.spec_pos())
    }

    /// All filemarks on the medium.
    pub open spec fn total_marks(&self) -> int {
        marks_before(self.spec_entries(), self.spec_entries().len() as int)
    }

    /// A blank tape at beginning of tape.
    pub fn new() -> (t: Self)
        ensures
            t.wf(),
            t.spec_entries() == Seq::<TapeEntry>::empty(),
            t.spec_pos() == 0,
    {
        VirtualTape { entries: Vec::new(), pos: 0 }
    }

    /// Record a medium: used to set up a tape with given content.
    pub fn with_entries(entries: Vec<TapeEntry>) -> (t: Self)
        ensures
            t.wf(),
            t.spec_entries() == entries@,
            t.spec_pos() == 0,
    {
        VirtualTape { entries, pos: 0 }
    }

    /// Move to beginning of tape.
    pub fn rewind(&mut self)
        requires
            old(self).wf(),
        ensures
            final(self).wf(),
            final(self).spec_entries() == old(self).spec_entries(),
            final(self).spec_pos() == 0,
    {
        self.pos = 0;
    }

    /// Erase from the current position: end-of-data moves here.
    pub fn erase_media(&mut self, fast: bool)
        requires
            old(self).wf(),
        ensures
            final(self).wf(),
            final(self).spec_entries() == old(self).spec_entries().take(old(self).spec_pos()),
            final(self).spec_pos() == old(self).spec_pos(),
    {
        let _ = fast;
        self.entries.truncate(self.pos);
        proof {
            assert(self.entries@ =~= old(self).spec_entries().take(old(self).spec_pos()));
        }
    }

    /// Re-initialize the medium as a single empty partition.
    pub fn format_media(&mut self, fast: bool)
        requires
            old(self).wf(),
        ensures
            final(self).wf(),
            final(self).spec_entries() == Seq::<TapeEntry>::empty(),
            final(self).spec_pos() == 0,
    {
        let _ = fast;
        self.rewind();
        self.entries.clear();
        proof {
            assert(self.entries@ =~= Seq::<TapeEntry>::empty());
        }
    }

    /// Write one variable-size block at the position, truncating the
    /// recording behind it. The unbounded virtual medium never raises
    /// the early warning, so the flag comes back `false`.
    pub fn write_block(&mut self, data: &[u8]) -> (r: Result<bool, TapeError>)
        requires
            old(self).wf(),
        ensures
            final(self).wf(),
            r is Ok <==> data@.len() <= 0x800000,
            match r {
                Ok(leom) => {
                    &&& !leom
                    &&& final(self).spec_entries().len() == old(self).spec_pos() + 1
                    &&& final(self).spec_entries().take(old(self).spec_pos()) == old(
                        self,
                    ).spec_entries().take(old(self).spec_pos())
                    &&& final(self).spec_entries().last() is Block
                    &&& final(self).spec_entries().last()->Block_0@ == data@
                    &&& final(self).spec_pos() == old(self).spec_pos() + 1
                },
                Err(e) => {
                    &&& e == TapeError::BlockTooLarge
                    &&& *final(self) == *old(self)
                },
            },
    {
        if data.len() > 0x800000 {
            return Err(TapeError::BlockTooLarge);
        }
        self.entries.truncate(self.pos);
        let mut block: Vec<u8> = Vec::new();
        let mut i: usize = 0;
        while i < data.len()
            invariant
                i <= data@.len(),
                block@ == data@.take(i as int),
            decreases data@.len() - i,
        {
            block.push(data[i]);
            assert(data@.take(i + 1) =~= data@.take(i as int).push(data@[i as int]));
            i += 1;
        }
        assert(data@.take(data@.len() as int) =~= data@);
        self.entries.push(TapeEntry::Block(block));
        self.pos = self.entries.len();
        proof {
            assert(self.entries@.take(old(self).spec_pos()) =~= old(self).spec_entries().take(
                old(self).spec_pos(),
            ));
        }
        Ok(false)
    }

    /// Write filemarks at the position, truncating the recording behind
    /// them. A count of zero only flushes and moves nothing. At most
    /// 255 filemarks fit one command.
    pub fn write_filemarks(&mut self, count: usize, immediate: bool) -> (r: Result<
        (),
        TapeError,
    >)
        requires
            old(self).wf(),
        ensures
            final(self).wf(),
            r is Ok <==> count <= 255,
            match r {
                Ok(()) => {
                    &&& (count == 0 ==> *final(self) == *old(self))
                    &&& (count > 0 ==> final(self).spec_entries() == old(
                        self,
                    ).spec_entries().take(old(self).spec_pos()) + Seq::new(
                        count as nat,
                        |k: int| TapeEntry::Filemark,
                    ) && final(self).spec_pos() == old(self).spec_pos() + count)
                },
                Err(e) => {
                    &&& e == TapeError::TooManyFilemarks
                    &&& *final(self) == *old(self)
                },
            },
    {
        let _ = immediate;
        if count > 255 {
            return Err(TapeError::TooManyFilemarks);
        }
        if count == 0 {
            return Ok(());
        }
        self.entries.truncate(self.pos);
        let mut k: usize = 0;
        while k < count
            invariant
                k <= count,
                self.entries@ == old(self).spec_entries().take(old(self).spec_pos())
                    + Seq::new(k as nat, |j: int| TapeEntry::Filemark),
            decreases count - k,
        {
            self.entries.push(TapeEntry::Filemark);
            proof {
                assert(old(self).spec_entries().take(old(self).spec_pos()) + Seq::new(
                    (k + 1) as nat,
                    |j: int| TapeEntry::Filemark,
                ) =~= (old(self).spec_entries().take(old(self).spec_pos()) + Seq::new(
                    k as nat,
                    |j: int| TapeEntry::Filemark,
                )).push(TapeEntry::Filemark));
            }
            k += 1;
        }
        self.pos = self.entries.len();
        Ok(())
    }

    /// Flush the drive's buffers: a zero-count filemark write.
    pub fn sync(&mut self) -> (r: Result<(), TapeError>)
        requires
            old(self).wf(),
        ensures
            final(self).wf(),
            r is Ok,
            *final(self) == *old(self),
    {
        self.write_filemarks(0, false)
    }

    /// Read one object. A data block comes back with its bytes, a
    /// filemark as end-of-file, end-of-data as end-of-stream; the
    /// object read is consumed.
    pub fn read_block(&mut self) -> (r: TapeReadOutcome)
        requires
            old(self).wf(),
        ensures
            final(self).wf(),
            final(self).spec_entries() == old(self).spec_entries(),
            ({
                let entries = old(self).spec_entries();
                let p = old(self).spec_pos();
                if p == entries.len() {
                    r == TapeReadOutcome::EndOfStream && final(self).spec_pos() == p
                } else if entries[p] is Filemark {
                    r == TapeReadOutcome::EndOfFile && final(self).spec_pos() == p + 1
                } else {
                    (r matches TapeReadOutcome::Data(b) && b@ == entries[p]->Block_0@)
                        && final(self).spec_pos() == p + 1
                }
            }),
    {
        if self.pos == self.entries.len() {
            return TapeReadOutcome::EndOfStream;
        }
        let out = match &self.entries[self.pos] {
            TapeEntry::Filemark => TapeReadOutcome::EndOfFile,
            TapeEntry::Block(d) => TapeReadOutcome::Data(copy_bytes(d)),
        };
        self.pos = self.pos + 1;
        out
    }

    /// The long-form position page: logical object number and logical
    /// file id of the current position.
    pub fn position(&self) -> (page: ReadPositionLongPage)
        requires
            self.wf(),
            self.spec_pos() <= u64::MAX,
        ensures
            page.flags == 0,
            page.partition_number == 0,
            page.logical_object_number == self.spec_pos(),
            page.logical_file_id == self.file_number(),
    {
        let mut count: u64 = 0;
        let mut i: usize = 0;
        proof {
            lemma_marks_before_le(self.spec_entries(), self.spec_pos());
        }
        while i < self.pos
            invariant
                i <= self.pos,
                self.wf(),
                self.spec_pos() <= u64::MAX,
                count == marks_before(self.spec_entries(), i as int),
                count <= i,
            decreases self.pos - i,
        {
            if matches!(&self.entries[i], TapeEntry::Filemark) {
                count = count + 1;
            }
            i += 1;
        }
        ReadPositionLongPage {
            flags: 0,
            partition_number: 0,
            logical_object_number: self.pos as u64,
            logical_file_id: count,
        }
    }

    /// The logical file id of the current position.
    pub fn current_file_number(&self) -> (n: u64)
        requires
            self.wf(),
            self.spec_pos() <= u64::MAX,
        ensures
            n == self.file_number(),
    {
        let page = self.position();
        page.logical_file_id
    }

    /// The state `locate_file` leaves the drive in when it succeeds:
    /// same recording, positioned directly on the EOT side of the
    /// `n`-th filemark.
    pub open spec fn locate_file_post(before: &Self, after: &Self, n: u64) -> bool {
        &&& after.spec_entries() == before.spec_entries()
        &&& 0 < after.spec_pos() <= after.spec_entries().len()
        &&& after.spec_entries()[after.spec_pos() - 1] is Filemark
        &&& marks_before(after.spec_entries(), after.spec_pos()) == n
    }

    /// Seek to the start of file `n`: a locate to the BOT side of
    /// filemark `n`, then one filemark space forward across it. The
    /// double step is what the SCSI locate semantics require to land on
    /// the side the caller expects.
    pub fn locate_file(&mut self, position: u64) -> (r: Result<(), TapeError>)
        requires
            old(self).wf(),
        ensures
            final(self).wf(),
            final(self).spec_entries() == old(self).spec_entries(),
            r is Ok <==> 1 <= position <= old(self).total_marks(),
            match r {
                Ok(()) => {
                    &&& Self::locate_file_post(old(self), final(self), position)
                    &&& final(self).file_number() == position
                },
                Err(e) => {
                    &&& e == TapeError::NoSuchFile
                    &&& final(self).spec_pos() == old(self).spec_pos()
                },
            },
    {
        if position == 0 {
            proof {
                lemma_marks_before_le(self.spec_entries(), self.spec_entries().len() as int);
            }
            return Err(TapeError::NoSuchFile);
        }
        let n = self.entries.len();
        let mut count: u64 = 0;
        let mut i: usize = 0;
        while i < n
            invariant
                i <= n,
                n == self.spec_entries().len(),
                self.wf(),
                count == marks_before(self.spec_entries(), i as int),
                count < position,
                *self == *old(self),
            decreases n - i,
        {
            proof {
                lemma_marks_before_le(self.spec_entries(), i as int);
            }
            let is_mark = matches!(&self.entries[i], TapeEntry::Filemark);
            if is_mark {
                count = count + 1;
                if count == position {
                    self.pos = i + 1;
                    proof {
                        lemma_marks_before_mono(
                            self.spec_entries(),
                            i + 1,
                            self.spec_entries().len() as int,
                        );
                    }
                    return Ok(());
                }
            }
            i += 1;
        }
        proof {
            assert(count == old(self).total_marks());
        }
        Err(TapeError::NoSuchFile)
    }

    /// Space over recorded blocks. A filemark in the way is crossed and
    /// reported with the filemark-encountered sense; running into
    /// end-of-data or beginning of tape reports the matching sense.
    #[verifier::loop_isolation(false)]
    pub fn space_blocks(&mut self, count: i64) -> (r: Result<(), ScsiError>)
        requires
            old(self).wf(),
            count > i64::MIN,
        ensures
            final(self).wf(),
            final(self).spec_entries() == old(self).spec_entries(),
            ({
                let e = old(self).spec_entries();
                let p = old(self).spec_pos();
                if count >= 0 {
                    let ba = blocks_ahead(e, p);
                    if count <= ba {
                        r is Ok && final(self).spec_pos() == p + count
                    } else if p + ba == e.len() {
                        r == Err::<(), ScsiError>(
                            ScsiError::Sense(SenseInfo { sense_key: 8, asc: 0, ascq: 5 }),
                        ) && final(self).spec_pos() == e.len()
                    } else {
                        r == Err::<(), ScsiError>(
                            ScsiError::Sense(SenseInfo { sense_key: 0, asc: 0, ascq: 1 }),
                        ) && final(self).spec_pos() == p + ba + 1
                    }
                } else {
                    let bb = blocks_behind(e, p);
                    if -count <= bb {
                        r is Ok && final(self).spec_pos() == p + count
                    } else if p - bb == 0 {
                        r == Err::<(), ScsiError>(
                            ScsiError::Sense(SenseInfo { sense_key: 0, asc: 0, ascq: 4 }),
                        ) && final(self).spec_pos() == 0
                    } else {
                        r == Err::<(), ScsiError>(
                            ScsiError::Sense(SenseInfo { sense_key: 0, asc: 0, ascq: 1 }),
                        ) && final(self).spec_pos() == p - bb - 1
                    }
                }
            }),
    {
        let ghost e = self.spec_entries();
        let ghost p0 = self.spec_pos();
        if count >= 0 {
            let mut moved: i64 = 0;
            while moved < count
                invariant
                    0 <= moved <= count,
                    self.wf(),
                    self.spec_entries() == e,
                    self.spec_pos() == p0 + moved,
                    forall|q: int| p0 <= q < p0 + moved ==> !((#[trigger] e[q]) is Filemark),
                decreases count - moved,
            {
                if self.pos == self.entries.len() {
                    proof {
                        lemma_blocks_ahead_exact(e, p0, (self.spec_pos() - p0) as int);
                        assert(blocks_ahead(e, p0) == moved);
                    }
                    return Err(ScsiError::Sense(SenseInfo { sense_key: 8, asc: 0, ascq: 5 }));
                }
                let is_mark = matches!(&self.entries[self.pos], TapeEntry::Filemark);
                if is_mark {
                    proof {
                        lemma_blocks_ahead_exact(e, p0, (self.spec_pos() - p0) as int);
                        assert(blocks_ahead(e, p0) == moved);
                    }
                    self.pos = self.pos + 1;
                    return Err(ScsiError::Sense(SenseInfo { sense_key: 0, asc: 0, ascq: 1 }));
                }
                self.pos = self.pos + 1;
                moved = moved + 1;
            }
            proof {
                lemma_blocks_ahead_lower(e, p0, count as int);
            }
            Ok(())
        } else {
            let mut moved: i64 = 0;
            while moved < -count
                invariant
                    count < 0,
                    0 <= moved <= -count,
                    self.wf(),
                    self.spec_entries() == e,
                    self.spec_pos() == p0 - moved,
                    p0 <= e.len(),
                    forall|q: int| p0 - moved <= q < p0 ==> !((#[trigger] e[q]) is Filemark),
                decreases -count - moved,
            {
                if self.pos == 0 {
                    proof {
                        lemma_blocks_behind_exact(e, p0, (p0 - self.spec_pos()) as int);
                        assert(blocks_behind(e, p0) == moved);
                    }
                    return Err(ScsiError::Sense(SenseInfo { sense_key: 0, asc: 0, ascq: 4 }));
                }
                let is_mark = matches!(&self.entries[self.pos - 1], TapeEntry::Filemark);
                if is_mark {
                    proof {
                        lemma_blocks_behind_exact(e, p0, (p0 - self.spec_pos()) as int);
                        assert(blocks_behind(e, p0) == moved);
                    }
                    self.pos = self.pos - 1;
                    return Err(ScsiError::Sense(SenseInfo { sense_key: 0, asc: 0, ascq: 1 }));
                }
                self.pos = self.pos - 1;
                moved = moved + 1;
            }
            proof {
                lemma_blocks_behind_lower(e, p0, -count as int);
            }
            Ok(())
        }
    }

    /// Space over filemarks. Forward spacing ends on the EOT side of the
    /// last mark crossed; backward spacing on the BOT side. Running out
    /// of marks reports the matching boundary sense.
    #[verifier::loop_isolation(false)]
    pub fn space_filemarks(&mut self, count: i64) -> (r: Result<(), ScsiError>)
        requires
            old(self).wf(),
            count > i64::MIN,
        ensures
            final(self).wf(),
            final(self).spec_entries() == old(self).spec_entries(),
            ({
                let e = old(self).spec_entries();
                let p = old(self).spec_pos();
                let fnum = old(self).file_number();
                if count == 0 {
                    r is Ok && final(self).spec_pos() == p
                } else if count > 0 {
                    if fnum + count <= old(self).total_marks() {
                        &&& r is Ok
                        &&& 0 < final(self).spec_pos() <= e.len()
                        &&& e[final(self).spec_pos() - 1] is Filemark
                        &&& final(self).file_number() == fnum + count
                    } else {
                        r == Err::<(), ScsiError>(
                            ScsiError::Sense(SenseInfo { sense_key: 8, asc: 0, ascq: 5 }),
                        ) && final(self).spec_pos() == e.len()
                    }
                } else {
                    if fnum + count >= 0 {
                        &&& r is Ok
                        &&& final(self).spec_pos() < e.len()
                        &&& e[final(self).spec_pos()] is Filemark
                        &&& final(self).file_number() == fnum + count
                    } else {
                        r == Err::<(), ScsiError>(
                            ScsiError::Sense(SenseInfo { sense_key: 0, asc: 0, ascq: 4 }),
                        ) && final(self).spec_pos() == 0
                    }
                }
            }),
    {
        let ghost e = self.spec_entries();
        let ghost p0 = self.spec_pos();
        let ghost fnum = marks_before(e, p0);
        if count == 0 {
            return Ok(());
        }
        if count > 0 {
            let mut crossed: i64 = 0;
            while crossed < count
                invariant
                    count > 0,
                    0 <= crossed <= count,
                    self.wf(),
                    self.spec_entries() == e,
                    marks_before(e, self.spec_pos()) == fnum + crossed,
                    self.spec_pos() >= p0,
                    crossed == count ==> 0 < self.spec_pos() && e[self.spec_pos() - 1]
                        is Filemark,
                decreases count - crossed, e.len() - self.spec_pos(),
            {
                if self.pos == self.entries.len() {
                    proof {
                        lemma_marks_before_le(e, e.len() as int);
                    }
                    return Err(ScsiError::Sense(SenseInfo { sense_key: 8, asc: 0, ascq: 5 }));
                }
                let is_mark = matches!(&self.entries[self.pos], TapeEntry::Filemark);
                self.pos = self.pos + 1;
                if is_mark {
                    crossed = crossed + 1;
                }
            }
            proof {
                lemma_marks_before_mono(e, self.spec_pos(), e.len() as int);
            }
            Ok(())
        } else {
            let mut crossed: i64 = 0;
            while crossed < -count && self.pos > 0
                invariant
                    0 <= crossed <= -count,
                    self.wf(),
                    self.spec_entries() == e,
                    marks_before(e, self.spec_pos()) == fnum - crossed,
                    crossed == -count ==> self.spec_pos() < e.len() && e[self.spec_pos()]
                        is Filemark,
                decreases self.spec_pos(),
            {
                let is_mark = matches!(&self.entries[self.pos - 1], TapeEntry::Filemark);
                self.pos = self.pos - 1;
                if is_mark {
                    crossed = crossed + 1;
                }
            }
            if crossed == -(count) {
                proof {
                    lemma_marks_before_le(e, self.spec_pos());
                }
                Ok(())
            } else {
                proof {
                    assert(self.spec_pos() == 0);
                    assert(fnum == crossed);
                    assert(fnum + count < 0);
                }
                Err(ScsiError::Sense(SenseInfo { sense_key: 0, asc: 0, ascq: 4 }))
            }
        }
    }

    /// Whether the head sits directly after a filemark (or at beginning
    /// of tape). The driver decides this by spacing one block backwards
    /// and interpreting the outcome: at beginning of tape no filemark is
    /// required; the filemark-encountered sense means one is there, and
    /// a forward filemark space restores the position; a clean move
    /// means a data block is behind, and a forward block space restores
    /// the position.
    pub fn check_filemark(&mut self) -> (r: Result<bool, ScsiError>)
        requires
            old(self).wf(),
        ensures
            final(self).wf(),
            final(self).spec_entries() == old(self).spec_entries(),
            final(self).spec_pos() == old(self).spec_pos(),
            r matches Ok(b) && b == (old(self).spec_pos() == 0 || old(
                self,
            ).spec_entries()[old(self).spec_pos() - 1] is Filemark),
    {
        let ghost e = self.spec_entries();
        let ghost p0 = self.spec_pos();
        let pos = self.position();
        if pos.logical_object_number == 0 {
            // at beginning of tape: no filemark required
            return Ok(true);
        }
        match self.space_blocks(-1) {
            Ok(()) => {
                // a data block is behind; move back to where we were
                proof {
                    assert(blocks_behind(e, p0) >= 1);
                    lemma_blocks_behind_front(e, p0);
                    assert(blocks_ahead(e, p0 - 1) >= 1);
                }
                let fwd = self.space_blocks(1);
                proof {
                    assert(fwd is Ok);
                }
                Ok(false)
            },
            Err(ScsiError::Sense(SenseInfo { sense_key: 0, asc: 0, ascq: 1 })) => {
                // filemark detected; move back to its EOT side
                proof {
                    lemma_blocks_behind_nonneg(e, p0);
                    assert(blocks_behind(e, p0) == 0);
                    if !(e[p0 - 1] is Filemark) {
                        lemma_blocks_behind_nonneg(e, p0 - 1);
                        assert(blocks_behind(e, p0) >= 1);
                    }
                    assert(e[p0 - 1] is Filemark);
                    assert(marks_before(e, p0) == marks_before(e, p0 - 1) + 1);
                }
                let fwd = self.space_filemarks(1);
                proof {
                    assert(marks_before(e, p0) <= marks_before(e, e.len() as int)) by {
                        lemma_marks_before_mono(e, p0, e.len() as int);
                    }
                    assert(fwd is Ok);
                    lemma_mark_position_unique(
                        e,
                        self.spec_pos() - 1,
                        p0 - 1,
                    );
                }
                Ok(true)
            },
            Err(err) => {
                proof {
                    assert(false);
                }
                Err(err)
            },
        }
    }

    /// Probe for loaded media; the virtual medium is always ready.
    pub fn test_unit_ready(&mut self) -> (r: Result<bool, ScsiError>)
        requires
            old(self).wf(),
        ensures
            final(self).wf(),
            *final(self) == *old(self),
            r == Ok::<bool, ScsiError>(true),
    {
        Ok(true)
    }

    /// Space to end-of-data; when asked, make sure the recording ends
    /// with a filemark, writing the missing one.
    pub fn move_to_eom(&mut self, write_missing_eof: bool) -> (r: Result<(), TapeError>)
        requires
            old(self).wf(),
        ensures
            final(self).wf(),
            r is Ok,
            final(self).spec_pos() == final(self).spec_entries().len(),
            !write_missing_eof ==> final(self).spec_entries() == old(self).spec_entries(),
            write_missing_eof ==> ({
                let entries = old(self).spec_entries();
                if entries.len() == 0 || entries.last() is Filemark {
                    final(self).spec_entries() == entries
                } else {
                    final(self).spec_entries() == entries.push(TapeEntry::Filemark)
                }
            }),
            (write_missing_eof && final(self).spec_entries().len() > 0) ==> final(self).spec_entries().last() is Filemark,
    {
        self.pos = self.entries.len();
        if write_missing_eof {
            let at_mark = match self.check_filemark() {
                Ok(b) => b,
                Err(_) => {
                    proof {
                        assert(false);
                    }
                    false
                },
            };
            if !at_mark {
                let ghost before = self.entries@;
                let wr = self.write_filemarks(1, false);
                proof {
                    assert(wr is Ok);
                    assert(before.take(before.len() as int) =~= before);
                    assert(Seq::new(1nat, |k: int| TapeEntry::Filemark) =~= seq![
                        TapeEntry::Filemark,
                    ]);
                    assert(self.entries@ =~= before.push(TapeEntry::Filemark));
                }
            }
        }
        Ok(())
    }
}

/// SCSI positioning round trip: after a successful two-step
/// `locate_file(n)`, `current_file_number` reports exactly `n` — the
/// drive sits with `n` filemarks behind the head.
pub proof fn lemma_scsi_positioning_roundtrip(
    before: VirtualTape,
    after: VirtualTape,
    n: u64,
)
    requires
        before.wf(),
        after.wf(),
        VirtualTape::locate_file_post(&before, &after, n),
    ensures
        after.file_number() == n,
{
}

} // verus!
