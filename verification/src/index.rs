//! In-memory index writers for backup archives.
//!
//! A *dynamic* index accumulates `(end_offset, digest)` records whose end
//! offsets must strictly increase; a *fixed* index has a declared total
//! size and chunk size, and each chunk lands at the slot its offset
//! determines. Closing a writer yields the SHA-256 checksum over the
//! accumulated digest records, the serialization point where the index
//! content commits.

use vstd::prelude::*;

use crate::digest::{sha256, sha256_of};

verus! {

#[derive(Clone, Copy, Debug, PartialEq, Eq, Structural)]
pub enum IndexError {
    /// A dynamic record's end offset did not strictly increase.
    NonMonotonicOffset,
    /// A fixed chunk's offset, size or end does not fit the declared layout.
    UnalignedChunk,
    /// A fixed slot was written twice.
    DuplicateSlot,
    /// A fixed index was closed with unwritten slots.
    IncompleteIndex,
}

/// Big-endian bytes of a 64-bit value.
pub open spec fn u64_be_bytes(v: u64) -> Seq<u8> {
    seq![
        ((v >> 56) & 0xff) as u8,
        ((v >> 48) & 0xff) as u8,
        ((v >> 40) & 0xff) as u8,
        ((v >> 32) & 0xff) as u8,
        ((v >> 24) & 0xff) as u8,
        ((v >> 16) & 0xff) as u8,
        ((v >> 8) & 0xff) as u8,
        (v & 0xff) as u8,
    ]
}

/// Append the big-endian bytes of `v`.
pub fn push_u64_be(out: &mut Vec<u8>, v: u64)
    ensures
        final(out)@ == old(out)@ + u64_be_bytes(v),
{
    out.push(((v >> 56) & 0xff) as u8);
    out.push(((v >> 48) & 0xff) as u8);
    out.push(((v >> 40) & 0xff) as u8);
    out.push(((v >> 32) & 0xff) as u8);
    out.push(((v >> 24) & 0xff) as u8);
    out.push(((v >> 16) & 0xff) as u8);
    out.push(((v >> 8) & 0xff) as u8);
    out.push((v & 0xff) as u8);
    assert(out@ =~= old(out)@ + u64_be_bytes(v));
}

/// The byte stream a dynamic index commits: one `(end_offset, digest)`
/// record after another, offsets big-endian.
pub open spec fn dynamic_index_payload(entries: Seq<(u64, Seq<u8>)>) -> Seq<u8>
    decreases entries.len(),
{
    if entries.len() == 0 {
        Seq::empty()
    } else {
        dynamic_index_payload(entries.drop_last()) + u64_be_bytes(entries.last().0)
            + entries.last().1
    }
}

/// End offsets strictly increase from record to record, starting above 0.
pub open spec fn ends_strictly_increasing(entries: Seq<(u64, Seq<u8>)>) -> bool {
    &&& forall|i: int| 0 <= i < entries.len() ==> (#[trigger] entries[i]).0 > 0
    &&& forall|i: int, j: int|
        0 <= i < j < entries.len() ==> (#[trigger] entries[i]).0 < (#[trigger] entries[j]).0
}

/// With strictly increasing end offsets, an index of `n` records ends at
/// offset `n` or beyond.
pub proof fn lemma_entry_count_le_end(entries: Seq<(u64, Seq<u8>)>)
    requires
        ends_strictly_increasing(entries),
    ensures
        entries.len() == 0 || entries.len() <= entries.last().0,
    decreases entries.len(),
{
    if entries.len() > 1 {
        let pre = entries.drop_last();
        assert(ends_strictly_increasing(pre)) by {
            assert(forall|i: int| 0 <= i < pre.len() ==> pre[i] == #[trigger] entries[i]);
        }
        lemma_entry_count_le_end(pre);
        assert(pre.last() == entries[entries.len() - 2]);
        assert(entries[entries.len() - 2].0 < entries[entries.len() - 1].0);
    }
}

/// Writer for a dynamic (content-defined chunking) index.
pub struct DynamicIndexWriter {
    uuid: [u8; 16],
    records: Vec<(u64, [u8; 32])>,
}

impl DynamicIndexWriter {
    pub closed spec fn spec_uuid(self) -> Seq<u8> {
        self.uuid@
    }

    /// The UUID the index was created with.
    pub fn uuid(&self) -> (u: [u8; 16])
        ensures
            u@ == self.spec_uuid(),
    {
        self.uuid
    }

    /// The accumulated `(end_offset, digest)` records.
    pub closed spec fn entries(self) -> Seq<(u64, Seq<u8>)> {
        self.records@.map_values(|e: (u64, [u8; 32])| (e.0, e.1@))
    }

    /// End offset of the last record, 0 for an empty index.
    pub open spec fn end_offset(self) -> int {
        if self.entries().len() == 0 {
            0
        } else {
            self.entries().last().0 as int
        }
    }

    /// End offsets strictly increase from record to record, starting above 0.
    pub open spec fn wf(self) -> bool {
        ends_strictly_increasing(self.entries())
    }

    pub fn new(uuid: [u8; 16]) -> (w: Self)
        ensures
            w.spec_uuid() == uuid@,
            w.entries() == Seq::<(u64, Seq<u8>)>::empty(),
            w.wf(),
    {
        let w = DynamicIndexWriter { uuid, records: Vec::new() };
        assert(w.entries() =~= Seq::<(u64, Seq<u8>)>::empty());
        w
    }

    /// Append one record; fails unless `end_offset` strictly increases.
    pub fn add_chunk(&mut self, end_offset: u64, digest: &[u8; 32]) -> (r: Result<
        (),
        IndexError,
    >)
        ensures
            final(self).spec_uuid() == old(self).spec_uuid(),
            match r {
                Ok(()) => {
                    &&& old(self).end_offset() < end_offset
                    &&& final(self).entries() == old(self).entries().push(
                        (end_offset, digest@),
                    )
                },
                Err(e) => {
                    &&& e == IndexError::NonMonotonicOffset
                    &&& end_offset <= old(self).end_offset()
                    &&& *final(self) == *old(self)
                },
            },
            old(self).wf() ==> final(self).wf(),
    {
        let n = self.records.len();
        let last: u64 = if n == 0 {
            0
        } else {
            self.records[n - 1].0
        };
        assert(last as int == self.end_offset());
        if end_offset <= last {
            return Err(IndexError::NonMonotonicOffset);
        }
        self.records.push((end_offset, *digest));
        proof {
            assert(self.entries() =~= old(self).entries().push((end_offset, digest@)));
            if old(self).wf() {
                let e0 = old(self).entries();
                let e1 = self.entries();
                assert(forall|i: int| 0 <= i < e0.len() ==> e1[i] == #[trigger] e0[i]);
                assert(forall|i: int| 0 <= i < e0.len() ==> (#[trigger] e0[i]).0 <= last) by {
                    if e0.len() > 0 {
                        assert(e0[e0.len() - 1].0 == last);
                        assert(forall|i: int|
                            0 <= i < e0.len() - 1 ==> (#[trigger] e0[i]).0 < e0[e0.len()
                                - 1].0);
                    }
                }
                assert(ends_strictly_increasing(e1));
            }
        }
        Ok(())
    }

    /// Number of records so far.
    pub fn chunk_count(&self) -> (n: usize)
        ensures
            n == self.entries().len(),
    {
        self.records.len()
    }

    /// Current end offset (sum of the appended chunk sizes).
    pub fn current_end(&self) -> (e: u64)
        ensures
            e as int == self.end_offset(),
    {
        let n = self.records.len();
        if n == 0 {
            0
        } else {
            self.records[n - 1].0
        }
    }

    /// Write the trailer: the serialized records and the checksum over
    /// them. Consumes the writer; the caller persists the bytes.
    pub fn close(self) -> (r: ([u8; 32], Vec<u8>))
        ensures
            r.0@ == sha256_of(dynamic_index_payload(self.entries())),
            r.1@ == dynamic_index_payload(self.entries()),
    {
        let mut bytes: Vec<u8> = Vec::new();
        let mut i: usize = 0;
        while i < self.records.len()
            invariant
                i <= self.records@.len(),
                self.entries().len() == self.records@.len(),
                forall|j: int|
                    0 <= j < self.records@.len() ==> #[trigger] self.entries()[j] == (
                    self.records@[j].0,
                    self.records@[j].1@,
                ),
                bytes@ == dynamic_index_payload(self.entries().take(i as int)),
            decreases self.records@.len() - i,
        {
            let (end, dig) = &self.records[i];
            push_u64_be(&mut bytes, *end);
            let mut k: usize = 0;
            let ghost mid = bytes@;
            while k < 32
                invariant
                    k <= 32,
                    dig@.len() == 32,
                    bytes@ == mid + dig@.take(k as int),
                decreases 32 - k,
            {
                bytes.push(dig[k]);
                assert(mid + dig@.take((k + 1) as int) =~= (mid + dig@.take(k as int)).push(
                    dig@[k as int],
                ));
                k += 1;
            }
            proof {
                let t = self.entries().take(i + 1);
                assert(t.drop_last() =~= self.entries().take(i as int));
                assert(t.last() == self.entries()[i as int]);
                assert(dig@.take(32) =~= dig@);
                assert(bytes@ =~= dynamic_index_payload(self.entries().take(i + 1)));
            }
            i += 1;
        }
        assert(self.entries().take(self.entries().len() as int) =~= self.entries());
        let csum = sha256(bytes.as_slice());
        (csum, bytes)
    }
}

/// The byte stream a fixed index commits: the digest slots in order.
pub open spec fn fixed_index_payload(slots: Seq<Seq<u8>>) -> Seq<u8>
    decreases slots.len(),
{
    if slots.len() == 0 {
        Seq::empty()
    } else {
        fixed_index_payload(slots.drop_last()) + slots.last()
    }
}

pub open spec fn count_written(slots: Seq<Option<Seq<u8>>>) -> nat
    decreases slots.len(),
{
    if slots.len() == 0 {
        0
    } else {
        count_written(slots.drop_last()) + (if slots.last() is Some {
            1nat
        } else {
            0nat
        })
    }
}

/// Writer for a fixed (block device) index: a declared number of
/// equal-size chunks whose digests may arrive in any order, each slot
/// written exactly once.
pub struct FixedIndexWriter {
    uuid: [u8; 16],
    size: usize,
    chunk_size: usize,
    slots: Vec<Option<[u8; 32]>>,
}

impl FixedIndexWriter {
    pub closed spec fn spec_uuid(self) -> Seq<u8> {
        self.uuid@
    }

    /// The UUID the index was created with.
    pub fn uuid(&self) -> (u: [u8; 16])
        ensures
            u@ == self.spec_uuid(),
    {
        self.uuid
    }

    pub closed spec fn spec_size(self) -> int {
        self.size as int
    }

    pub closed spec fn spec_chunk_size(self) -> int {
        self.chunk_size as int
    }

    /// The digest slots: `None` until written.
    pub closed spec fn slot_view(self) -> Seq<Option<Seq<u8>>> {
        self.slots@.map_values(
            |s: Option<[u8; 32]>|
                match s {
                    Some(d) => Some(d@),
                    None => None,
                },
        )
    }

    pub open spec fn wf(self) -> bool {
        &&& self.spec_chunk_size() > 0
        &&& self.slot_view().len() * self.spec_chunk_size() >= self.spec_size()
        &&& (self.slot_view().len() - 1) * self.spec_chunk_size() < self.spec_size()
    }

    /// Declared number of chunks: `size / chunk_size` rounded up.
    pub fn new(uuid: [u8; 16], size: usize, chunk_size: usize) -> (w: Self)
        requires
            chunk_size > 0,
            size <= usize::MAX - chunk_size,
        ensures
            w.spec_uuid() == uuid@,
            w.spec_size() == size,
            w.spec_chunk_size() == chunk_size,
            w.slot_view().len() == ((size + chunk_size - 1) / (chunk_size as int)),
            forall|i: int| 0 <= i < w.slot_view().len() ==> #[trigger] w.slot_view()[i] is None,
            count_written(w.slot_view()) == 0,
            w.wf(),
    {
        let index_length = (size + chunk_size - 1) / chunk_size;
        let mut slots: Vec<Option<[u8; 32]>> = Vec::new();
        let mut i: usize = 0;
        while i < index_length
            invariant
                i <= index_length,
                slots@.len() == i,
                forall|j: int| 0 <= j < i ==> #[trigger] slots@[j] is None,
            decreases index_length - i,
        {
            slots.push(None);
            i += 1;
        }
        let w = FixedIndexWriter { uuid, size, chunk_size, slots };
        proof {
            assert(forall|j: int|
                0 <= j < w.slot_view().len() ==> #[trigger] w.slot_view()[j] is None);
            lemma_count_written_all_none(w.slot_view());
            let len = w.slot_view().len() as int;
            let cs = chunk_size as int;
            let sz = size as int;
            assert(len == (sz + cs - 1) / cs);
            assert(len * cs >= sz && (len - 1) * cs < sz) by (nonlinear_arith)
                requires
                    cs > 0,
                    sz >= 0,
                    len == (sz + cs - 1) / cs,
            ;
        }
        w
    }

    /// Number of digest slots of the index.
    pub fn index_length(&self) -> (n: usize)
        ensures
            n == self.slot_view().len(),
    {
        self.slots.len()
    }

    /// Whether a chunk ending at `end` with length `size` lands on the
    /// declared layout: its start is chunk-aligned, it stays inside the
    /// declared size, and only the terminal chunk may be short.
    pub open spec fn chunk_aligned(self, end: int, size: int) -> bool {
        &&& 0 < size <= self.spec_chunk_size()
        &&& size <= end <= self.spec_size()
        &&& (end - size) % self.spec_chunk_size() == 0
        &&& (size == self.spec_chunk_size() || end == self.spec_size())
    }

    /// The slot a chunk ending at `end` with length `size` belongs to.
    pub open spec fn slot_of(self, end: int, size: int) -> int {
        (end - size) / self.spec_chunk_size()
    }

    /// Validate a chunk's position and return its slot index.
    pub fn check_chunk_alignment(&self, end: usize, size: usize) -> (r: Result<
        usize,
        IndexError,
    >)
        requires
            self.wf(),
        ensures
            match r {
                Ok(idx) => {
                    &&& self.chunk_aligned(end as int, size as int)
                    &&& idx == self.slot_of(end as int, size as int)
                    &&& idx < self.slot_view().len()
                },
                Err(e) => {
                    &&& e == IndexError::UnalignedChunk
                    &&& !self.chunk_aligned(end as int, size as int)
                },
            },
    {
        if size == 0 || size > self.chunk_size || end < size || end > self.size {
            return Err(IndexError::UnalignedChunk);
        }
        let offset = end - size;
        if offset % self.chunk_size != 0 {
            return Err(IndexError::UnalignedChunk);
        }
        if size != self.chunk_size && end != self.size {
            return Err(IndexError::UnalignedChunk);
        }
        let idx = offset / self.chunk_size;
        proof {
            let cs = self.spec_chunk_size();
            let len = self.slot_view().len() as int;
            assert(idx * cs <= offset as int) by (nonlinear_arith)
                requires
                    cs > 0,
                    idx == (offset as int) / cs,
                    (offset as int) % cs == 0,
                    offset >= 0,
                ;
            assert(offset < self.spec_size());
            assert(idx < len) by (nonlinear_arith)
                requires
                    cs > 0,
                    idx * cs < len * cs,
                    idx == (offset as int) / cs,
                    (offset as int) % cs == 0,
                    offset as int >= 0,
                ;
        }
        Ok(idx)
    }

    /// Whether the slot already holds a digest.
    pub fn slot_is_written(&self, idx: usize) -> (r: bool)
        requires
            idx < self.slot_view().len(),
        ensures
            r == (self.slot_view()[idx as int] is Some),
    {
        self.slots[idx].is_some()
    }

    /// Write a digest into a slot; each slot may be written only once.
    pub fn add_digest(&mut self, idx: usize, digest: &[u8; 32]) -> (r: Result<(), IndexError>)
        ensures
            final(self).spec_uuid() == old(self).spec_uuid(),
            r is Ok <==> (idx < old(self).slot_view().len() && old(self).slot_view()[idx as int]
                is None),
            final(self).spec_size() == old(self).spec_size(),
            final(self).spec_chunk_size() == old(self).spec_chunk_size(),
            old(self).wf() ==> final(self).wf(),
            match r {
                Ok(()) => {
                    &&& idx < old(self).slot_view().len()
                    &&& old(self).slot_view()[idx as int] is None
                    &&& final(self).slot_view() == old(self).slot_view().update(
                        idx as int,
                        Some(digest@),
                    )
                    &&& count_written(final(self).slot_view()) == count_written(
                        old(self).slot_view(),
                    ) + 1
                },
                Err(e) => {
                    &&& *final(self) == *old(self)
                    &&& (e == IndexError::DuplicateSlot || e == IndexError::UnalignedChunk)
                    &&& (e == IndexError::UnalignedChunk <==> idx >= old(
                        self,
                    ).slot_view().len())
                },
            },
            count_written(final(self).slot_view()) <= final(self).slot_view().len(),
    {
        proof {
            lemma_count_written_le(self.slot_view());
        }
        if idx >= self.slots.len() {
            return Err(IndexError::UnalignedChunk);
        }
        if self.slots[idx].is_some() {
            assert(self.slot_view()[idx as int] is Some);
            return Err(IndexError::DuplicateSlot);
        }
        assert(self.slot_view()[idx as int] is None);
        proof {
            lemma_count_written_le(self.slot_view());
            lemma_count_written_update(self.slot_view(), idx as int, digest@);
        }
        self.slots.set(idx, Some(*digest));
        proof {
            assert(self.slot_view() =~= old(self).slot_view().update(
                idx as int,
                Some(digest@),
            ));
            lemma_count_written_le(self.slot_view());
        }
        Ok(())
    }

    /// Write the trailer: the serialized digest array and the checksum
    /// over it. Fails while any slot is unwritten. Consumes the writer;
    /// the caller persists the bytes.
    pub fn close(self) -> (r: Result<([u8; 32], Vec<u8>), IndexError>)
        ensures
            match r {
                Ok((csum, payload)) => {
                    &&& forall|i: int|
                        0 <= i < self.slot_view().len() ==> #[trigger] self.slot_view()[i]
                            is Some
                    &&& csum@ == sha256_of(
                        fixed_index_payload(
                            Seq::new(
                                self.slot_view().len(),
                                |i: int| self.slot_view()[i]->Some_0,
                            ),
                        ),
                    )
                    &&& payload@ == fixed_index_payload(
                        Seq::new(
                            self.slot_view().len(),
                            |i: int| self.slot_view()[i]->Some_0,
                        ),
                    )
                },
                Err(e) => {
                    &&& e == IndexError::IncompleteIndex
                    &&& exists|i: int|
                        0 <= i < self.slot_view().len() && #[trigger] self.slot_view()[i]
                            is None
                },
            },
    {
        let ghost digests = Seq::new(self.slot_view().len(), |i: int| self.slot_view()[i]->Some_0);
        let mut bytes: Vec<u8> = Vec::new();
        let mut i: usize = 0;
        while i < self.slots.len()
            invariant
                i <= self.slots@.len(),
                digests == Seq::new(
                    self.slot_view().len(),
                    |j: int| self.slot_view()[j]->Some_0,
                ),
                self.slot_view().len() == self.slots@.len(),
                forall|j: int|
                    0 <= j < self.slots@.len() ==> #[trigger] self.slot_view()[j] == (
                    match self.slots@[j] {
                        Some(d) => Some(d@),
                        None => None,
                    }),
                forall|j: int| 0 <= j < i ==> #[trigger] self.slot_view()[j] is Some,
                bytes@ == fixed_index_payload(digests.take(i as int)),
            decreases self.slots@.len() - i,
        {
            let slot = &self.slots[i];
            match slot {
                Some(dig) => {
                    let ghost mid = bytes@;
                    let mut k: usize = 0;
                    while k < 32
                        invariant
                            k <= 32,
                            dig@.len() == 32,
                            bytes@ == mid + dig@.take(k as int),
                        decreases 32 - k,
                    {
                        bytes.push(dig[k]);
                        assert(mid + dig@.take((k + 1) as int) =~= (mid + dig@.take(
                            k as int,
                        )).push(dig@[k as int]));
                        k += 1;
                    }
                    proof {
                        let t = digests.take(i + 1);
                        assert(t.drop_last() =~= digests.take(i as int));
                        assert(t.last() == digests[i as int]);
                        assert(dig@.take(32) =~= dig@);
                        assert(digests[i as int] == dig@);
                        assert(bytes@ =~= fixed_index_payload(digests.take(i + 1)));
                    }
                },
                None => {
                    assert(self.slot_view()[i as int] is None);
                    return Err(IndexError::IncompleteIndex);
                },
            }
            i += 1;
        }
        assert(digests.take(digests.len() as int) =~= digests);
        let csum = sha256(bytes.as_slice());
        Ok((csum, bytes))
    }
}

/// When every slot counts as written, every slot is written.
pub proof fn lemma_count_written_full(slots: Seq<Option<Seq<u8>>>)
    requires
        count_written(slots) == slots.len(),
    ensures
        forall|i: int| 0 <= i < slots.len() ==> #[trigger] slots[i] is Some,
    decreases slots.len(),
{
    if slots.len() > 0 {
        lemma_count_written_le(slots.drop_last());
        if slots.last() is None {
            assert(count_written(slots) <= slots.len() - 1);
        }
        lemma_count_written_full(slots.drop_last());
        assert forall|i: int| 0 <= i < slots.len() implies #[trigger] slots[i] is Some by {
            if i < slots.len() - 1 {
                assert(slots[i] == slots.drop_last()[i]);
                assert(slots.drop_last()[i] is Some);
            } else {
                assert(slots[i] == slots.last());
            }
        }
    }
}

proof fn lemma_count_written_all_none(slots: Seq<Option<Seq<u8>>>)
    requires
        forall|i: int| 0 <= i < slots.len() ==> #[trigger] slots[i] is None,
    ensures
        count_written(slots) == 0,
    decreases slots.len(),
{
    if slots.len() > 0 {
        lemma_count_written_all_none(slots.drop_last());
    }
}

proof fn lemma_count_written_le(slots: Seq<Option<Seq<u8>>>)
    ensures
        count_written(slots) <= slots.len(),
    decreases slots.len(),
{
    if slots.len() > 0 {
        lemma_count_written_le(slots.drop_last());
    }
}

proof fn lemma_count_written_update(slots: Seq<Option<Seq<u8>>>, i: int, d: Seq<u8>)
    requires
        0 <= i < slots.len(),
        slots[i] is None,
    ensures
        count_written(slots.update(i, Some(d))) == count_written(slots) + 1,
    decreases slots.len(),
{
    let updated = slots.update(i, Some(d));
    if i == slots.len() - 1 {
        assert(updated.drop_last() =~= slots.drop_last());
        assert(updated.last() == Some(d));
        assert(slots.last() is None);
    } else {
        assert(updated.drop_last() =~= slots.drop_last().update(i, Some(d)));
        assert(updated.last() == slots.last());
        lemma_count_written_update(slots.drop_last(), i, d);
    }
}

} // verus!
