//! The backup session environment: the per-connection state machine that
//! accepts chunk-based backups and materializes them as snapshots.
//!
//! The session holds the set of known chunks, the table of live index
//! writers (fixed and dynamic), an id counter, a file counter and a
//! `finished` latch. In the server every operation runs under one mutex;
//! the state machine itself is sequential and is what this module
//! verifies, while the surrounding process supplies the locking and I/O.

use vstd::prelude::*;

use crate::index::{
    count_written, lemma_entry_count_le_end, DynamicIndexWriter, FixedIndexWriter,
    dynamic_index_payload, fixed_index_payload,
};
use crate::digest::sha256_of;

verus! {

/// Everything a session operation can reject, per protocol rule.
#[derive(Clone, Copy, Debug, PartialEq, Eq, Structural)]
pub enum BackupError {
    /// The `finished` latch is set; no mutation may succeed any more.
    AlreadyFinished,
    /// Session teardown found the `finished` latch unset.
    NotFinished,
    /// No live writer carries the given id.
    UnknownWriter,
    /// A fixed chunk is larger than the writer's declared chunk size.
    ChunkTooLarge,
    /// A second short chunk was registered for one fixed writer.
    MultipleSmallChunks,
    /// A dynamic append did not continue at the writer's current offset.
    UnexpectedOffset,
    /// A dynamic append would not advance the offset (empty chunk).
    NonMonotonicOffset,
    /// A fixed chunk does not land on the declared chunk layout.
    UnalignedChunk,
    /// A fixed slot was written twice.
    DuplicateSlot,
    /// A close named a chunk count other than the writer observed.
    UnexpectedChunkCount,
    /// A close named a size other than the writer observed.
    UnexpectedFileSize,
    /// Finalization was attempted while an index writer is still open.
    OpenIndexWriter,
    /// Finalization was attempted before any file was uploaded.
    NoFilesUploaded,
    /// A counter or offset would exceed its machine range.
    CounterOverflow,
}

/// Per-writer upload counters; monotonic while the writer lives.
#[derive(Clone, Copy, Debug, PartialEq, Eq, Structural)]
pub struct UploadStatistic {
    pub count: u64,
    pub size: u64,
    pub compressed_size: u64,
    pub duplicates: u64,
}

impl UploadStatistic {
    pub fn new() -> (s: Self)
        ensures
            s == (UploadStatistic { count: 0, size: 0, compressed_size: 0, duplicates: 0 }),
    {
        UploadStatistic { count: 0, size: 0, compressed_size: 0, duplicates: 0 }
    }
}

/// State of one live dynamic-index writer.
pub struct DynamicWriterState {
    pub wid: usize,
    pub name: String,
    pub index: DynamicIndexWriter,
    pub offset: u64,
    pub chunk_count: u64,
    pub upload_stat: UploadStatistic,
}

/// The writer's running offset and count agree with its index.
pub open spec fn dynamic_writer_wf(w: DynamicWriterState) -> bool {
    &&& w.index.wf()
    &&& w.offset as int == w.index.end_offset()
    &&& w.chunk_count as int == w.index.entries().len()
}

/// State of one live fixed-index writer.
pub struct FixedWriterState {
    pub wid: usize,
    pub name: String,
    pub index: FixedIndexWriter,
    pub size: usize,
    pub chunk_size: u32,
    pub chunk_count: u64,
    pub small_chunk_count: usize,
    pub upload_stat: UploadStatistic,
}

/// The writer's declared geometry agrees with its index, at most one
/// short chunk was accepted, and the count matches the written slots.
pub open spec fn fixed_writer_wf(w: FixedWriterState) -> bool {
    &&& w.index.wf()
    &&& w.index.spec_size() == w.size as int
    &&& w.index.spec_chunk_size() == w.chunk_size as int
    &&& w.chunk_count as int == count_written(w.index.slot_view())
    &&& w.small_chunk_count <= 1
}

/// The session state guarded by the session mutex.
pub struct SharedBackupState {
    pub finished: bool,
    pub uid_counter: usize,
    pub file_counter: usize,
    pub dynamic_writers: Vec<DynamicWriterState>,
    pub fixed_writers: Vec<FixedWriterState>,
    pub known_chunks: Vec<([u8; 32], u32)>,
}

/// The known-chunk table as a map from digest to uncompressed size.
pub open spec fn known_map(s: Seq<([u8; 32], u32)>) -> Map<Seq<u8>, u32>
    decreases s.len(),
{
    if s.len() == 0 {
        Map::empty()
    } else {
        known_map(s.drop_last()).insert(s.last().0@, s.last().1)
    }
}

/// The live writers of one flavor as a map from writer id to state.
pub open spec fn dyn_writer_map(s: Seq<DynamicWriterState>) -> Map<int, DynamicWriterState>
    decreases s.len(),
{
    if s.len() == 0 {
        Map::empty()
    } else {
        dyn_writer_map(s.drop_last()).insert(s.last().wid as int, s.last())
    }
}

pub open spec fn fixed_writer_map(s: Seq<FixedWriterState>) -> Map<int, FixedWriterState>
    decreases s.len(),
{
    if s.len() == 0 {
        Map::empty()
    } else {
        fixed_writer_map(s.drop_last()).insert(s.last().wid as int, s.last())
    }
}

/// The operator-visible report written to the task log when a writer
/// closes: name, UUID, checksum, declared size and count, and — when
/// meaningful — upload share, deduplication counts and compression ratio.
pub open spec fn upload_stat_lines(
    name: Seq<char>,
    uuid: Seq<u8>,
    csum: Seq<u8>,
    size: u64,
    chunk_count: u64,
    st: UploadStatistic,
) -> Seq<Seq<char>> {
    let base = seq![
        "Upload statistics for '"@ + name + "'"@,
        "UUID: "@ + crate::textenc::bytes_to_hex(uuid),
        "Checksum: "@ + crate::textenc::bytes_to_hex(csum),
        "Size: "@ + crate::textenc::dec_min(size as nat),
        "Chunk count: "@ + crate::textenc::dec_min(chunk_count as nat),
    ];
    if size == 0 || chunk_count == 0 {
        base
    } else {
        let with_upload = base.push(
            "Upload size: "@ + crate::textenc::dec_min(st.size as nat) + " ("@
                + crate::textenc::dec_min((st.size * 100 / (size as int)) as nat) + "%)"@,
        );
        let client_dup: int = if chunk_count >= st.count {
            chunk_count - st.count
        } else {
            0
        };
        let with_dup = if client_dup + st.duplicates > 0 {
            with_upload.push(
                "Duplicates: "@ + crate::textenc::dec_min(client_dup as nat) + "+"@
                    + crate::textenc::dec_min(st.duplicates as nat) + " ("@
                    + crate::textenc::dec_min(
                    ((client_dup + st.duplicates) * 100 / (chunk_count as int)) as nat,
                ) + "%)"@,
            )
        } else {
            with_upload
        };
        if st.size > 0 {
            with_dup.push(
                "Compression: "@ + crate::textenc::dec_min(
                    (st.compressed_size * 100 / (st.size as int)) as nat,
                ) + "%"@,
            )
        } else {
            with_dup
        }
    }
}

/// The log line recording a stored blob.
pub open spec fn blob_log_line(name: Seq<char>, len: nat) -> Seq<char> {
    "add blob '"@ + name + "' ("@ + crate::textenc::dec_min(len) + " bytes)"@
}

pub open spec fn known_keys_unique(s: Seq<([u8; 32], u32)>) -> bool {
    forall|i: int, j: int| 0 <= i < j < s.len() ==> s[i].0@ != s[j].0@
}

pub open spec fn dyn_wids_unique(s: Seq<DynamicWriterState>) -> bool {
    forall|i: int, j: int| 0 <= i < j < s.len() ==> s[i].wid != s[j].wid
}

pub open spec fn fixed_wids_unique(s: Seq<FixedWriterState>) -> bool {
    forall|i: int, j: int| 0 <= i < j < s.len() ==> s[i].wid != s[j].wid
}

impl SharedBackupState {
    pub open spec fn inv(&self) -> bool {
        &&& known_keys_unique(self.known_chunks@)
        &&& dyn_wids_unique(self.dynamic_writers@)
        &&& fixed_wids_unique(self.fixed_writers@)
        &&& forall|i: int|
            0 <= i < self.dynamic_writers@.len() ==> dynamic_writer_wf(
                #[trigger] self.dynamic_writers@[i],
            ) && self.dynamic_writers@[i].wid <= self.uid_counter
        &&& forall|i: int|
            0 <= i < self.fixed_writers@.len() ==> fixed_writer_wf(
                #[trigger] self.fixed_writers@[i],
            ) && self.fixed_writers@[i].wid <= self.uid_counter
    }

    /// Get a unique integer id, counting up from one.
    pub fn next_uid(&mut self) -> (uid: usize)
        requires
            old(self).uid_counter < usize::MAX,
        ensures
            uid == old(self).uid_counter + 1,
            *final(self) == (SharedBackupState { uid_counter: uid, ..*old(self) }),
    {
        self.uid_counter += 1;
        self.uid_counter
    }
}

// ---------------------------------------------------------------------
// lemmas connecting the vector representation to the map views
// ---------------------------------------------------------------------
pub proof fn lemma_known_map_contains(s: Seq<([u8; 32], u32)>, i: int)
    requires
        0 <= i < s.len(),
        known_keys_unique(s),
    ensures
        known_map(s).dom().contains(s[i].0@),
        known_map(s)[s[i].0@] == s[i].1,
    decreases s.len(),
{
    if i < s.len() - 1 {
        assert(s.drop_last()[i] == s[i]);
        assert(known_keys_unique(s.drop_last())) by {
            assert(forall|a: int, b: int|
                0 <= a < b < s.len() - 1 ==> s.drop_last()[a] == s[a] && s.drop_last()[b]
                    == s[b]);
        }
        lemma_known_map_contains(s.drop_last(), i);
        assert(s[i].0@ != s.last().0@);
    }
}

pub proof fn lemma_known_map_absent(s: Seq<([u8; 32], u32)>, d: Seq<u8>)
    requires
        forall|i: int| 0 <= i < s.len() ==> (#[trigger] s[i]).0@ != d,
    ensures
        !known_map(s).dom().contains(d),
    decreases s.len(),
{
    if s.len() > 0 {
        assert(forall|i: int|
            0 <= i < s.len() - 1 ==> (#[trigger] s.drop_last()[i]).0@ != d);
        lemma_known_map_absent(s.drop_last(), d);
    }
}

/// Updating the value at one key's slot is `insert` on the map view.
pub proof fn lemma_known_map_update(s: Seq<([u8; 32], u32)>, i: int, v: u32)
    requires
        0 <= i < s.len(),
        known_keys_unique(s),
    ensures
        known_map(s.update(i, (s[i].0, v))) =~= known_map(s).insert(s[i].0@, v),
        known_keys_unique(s.update(i, (s[i].0, v))),
    decreases s.len(),
{
    let t = s.update(i, (s[i].0, v));
    assert(known_keys_unique(t)) by {
        assert(forall|a: int| 0 <= a < t.len() ==> (#[trigger] t[a]).0 == s[a].0);
    }
    if i == s.len() - 1 {
        assert(t.drop_last() =~= s.drop_last());
        assert(t.last() == (s[i].0, v));
    } else {
        assert(known_keys_unique(s.drop_last())) by {
            assert(forall|a: int, b: int|
                0 <= a < b < s.len() - 1 ==> s.drop_last()[a] == s[a] && s.drop_last()[b]
                    == s[b]);
        }
        assert(t.drop_last() =~= s.drop_last().update(i, (s[i].0, v)));
        assert(s.drop_last()[i] == s[i]);
        lemma_known_map_update(s.drop_last(), i, v);
        assert(t.last() == s.last());
        assert(s[i].0@ != s.last().0@);
    }
}

/// Appending a fresh key is `insert` on the map view.
pub proof fn lemma_known_map_push(s: Seq<([u8; 32], u32)>, d: [u8; 32], v: u32)
    requires
        known_keys_unique(s),
        forall|i: int| 0 <= i < s.len() ==> (#[trigger] s[i]).0@ != d@,
    ensures
        known_map(s.push((d, v))) =~= known_map(s).insert(d@, v),
        known_keys_unique(s.push((d, v))),
{
    let t = s.push((d, v));
    assert(t.drop_last() =~= s);
    assert(t.last() == (d, v));
    assert(known_keys_unique(t)) by {
        assert(forall|a: int| 0 <= a < s.len() ==> t[a] == #[trigger] s[a]);
    }
}

pub proof fn lemma_dyn_map_contains(s: Seq<DynamicWriterState>, i: int)
    requires
        0 <= i < s.len(),
        dyn_wids_unique(s),
    ensures
        dyn_writer_map(s).dom().contains(s[i].wid as int),
        dyn_writer_map(s)[s[i].wid as int] == s[i],
    decreases s.len(),
{
    if i < s.len() - 1 {
        assert(s.drop_last()[i] == s[i]);
        assert(dyn_wids_unique(s.drop_last())) by {
            assert(forall|a: int, b: int|
                0 <= a < b < s.len() - 1 ==> s.drop_last()[a] == s[a] && s.drop_last()[b]
                    == s[b]);
        }
        lemma_dyn_map_contains(s.drop_last(), i);
        assert(s[i].wid != s.last().wid);
    }
}

pub proof fn lemma_dyn_map_absent(s: Seq<DynamicWriterState>, wid: int)
    requires
        forall|i: int| 0 <= i < s.len() ==> (#[trigger] s[i]).wid != wid,
    ensures
        !dyn_writer_map(s).dom().contains(wid),
    decreases s.len(),
{
    if s.len() > 0 {
        assert(forall|i: int|
            0 <= i < s.len() - 1 ==> (#[trigger] s.drop_last()[i]).wid != wid);
        lemma_dyn_map_absent(s.drop_last(), wid);
    }
}

pub proof fn lemma_dyn_map_push(s: Seq<DynamicWriterState>, w: DynamicWriterState)
    requires
        dyn_wids_unique(s),
        forall|i: int| 0 <= i < s.len() ==> (#[trigger] s[i]).wid != w.wid,
    ensures
        dyn_writer_map(s.push(w)) =~= dyn_writer_map(s).insert(w.wid as int, w),
        dyn_wids_unique(s.push(w)),
{
    let t = s.push(w);
    assert(t.drop_last() =~= s);
    assert(t.last() == w);
    assert(dyn_wids_unique(t)) by {
        assert(forall|a: int| 0 <= a < s.len() ==> t[a] == #[trigger] s[a]);
    }
}

/// Removing the entry that holds a writer id is `remove` on the map view.
pub proof fn lemma_dyn_map_remove(s: Seq<DynamicWriterState>, i: int)
    requires
        0 <= i < s.len(),
        dyn_wids_unique(s),
    ensures
        dyn_writer_map(s.remove(i)) =~= dyn_writer_map(s).remove(s[i].wid as int),
        dyn_wids_unique(s.remove(i)),
    decreases s.len(),
{
    let t = s.remove(i);
    assert(dyn_wids_unique(t)) by {
        assert(forall|a: int|
            0 <= a < t.len() ==> #[trigger] t[a] == (if a < i {
                s[a]
            } else {
                s[a + 1]
            }));
    }
    if i == s.len() - 1 {
        assert(t =~= s.drop_last());
        assert(dyn_wids_unique(s.drop_last())) by {
            assert(forall|a: int, b: int|
                0 <= a < b < s.len() - 1 ==> s.drop_last()[a] == s[a] && s.drop_last()[b]
                    == s[b]);
        }
        lemma_dyn_map_absent(s.drop_last(), s[i].wid as int);
    } else {
        assert(dyn_wids_unique(s.drop_last())) by {
            assert(forall|a: int, b: int|
                0 <= a < b < s.len() - 1 ==> s.drop_last()[a] == s[a] && s.drop_last()[b]
                    == s[b]);
        }
        assert(s.drop_last()[i] == s[i]);
        lemma_dyn_map_remove(s.drop_last(), i);
        assert(t.drop_last() =~= s.drop_last().remove(i));
        assert(t.last() == s.last());
        assert(s[i].wid != s.last().wid);
    }
}

pub proof fn lemma_fixed_map_contains(s: Seq<FixedWriterState>, i: int)
    requires
        0 <= i < s.len(),
        fixed_wids_unique(s),
    ensures
        fixed_writer_map(s).dom().contains(s[i].wid as int),
        fixed_writer_map(s)[s[i].wid as int] == s[i],
    decreases s.len(),
{
    if i < s.len() - 1 {
        assert(s.drop_last()[i] == s[i]);
        assert(fixed_wids_unique(s.drop_last())) by {
            assert(forall|a: int, b: int|
                0 <= a < b < s.len() - 1 ==> s.drop_last()[a] == s[a] && s.drop_last()[b]
                    == s[b]);
        }
        lemma_fixed_map_contains(s.drop_last(), i);
        assert(s[i].wid != s.last().wid);
    }
}

pub proof fn lemma_fixed_map_absent(s: Seq<FixedWriterState>, wid: int)
    requires
        forall|i: int| 0 <= i < s.len() ==> (#[trigger] s[i]).wid != wid,
    ensures
        !fixed_writer_map(s).dom().contains(wid),
    decreases s.len(),
{
    if s.len() > 0 {
        assert(forall|i: int|
            0 <= i < s.len() - 1 ==> (#[trigger] s.drop_last()[i]).wid != wid);
        lemma_fixed_map_absent(s.drop_last(), wid);
    }
}

pub proof fn lemma_fixed_map_push(s: Seq<FixedWriterState>, w: FixedWriterState)
    requires
        fixed_wids_unique(s),
        forall|i: int| 0 <= i < s.len() ==> (#[trigger] s[i]).wid != w.wid,
    ensures
        fixed_writer_map(s.push(w)) =~= fixed_writer_map(s).insert(w.wid as int, w),
        fixed_wids_unique(s.push(w)),
{
    let t = s.push(w);
    assert(t.drop_last() =~= s);
    assert(t.last() == w);
    assert(fixed_wids_unique(t)) by {
        assert(forall|a: int| 0 <= a < s.len() ==> t[a] == #[trigger] s[a]);
    }
}

/// The per-session operation surface.
///
/// In the server each session is shared by the request handlers of one
/// connection and every operation takes the session mutex; here the
/// operations take `&mut self` and the caller supplies the exclusion.
pub struct BackupEnvironment {
    pub user: String,
    pub debug: bool,
    log_lines: Vec<String>,
    state: SharedBackupState,
}

impl BackupEnvironment {
    pub closed spec fn spec_user(&self) -> Seq<char> {
        self.user@
    }

    pub closed spec fn spec_debug(&self) -> bool {
        self.debug
    }

    pub closed spec fn finished(&self) -> bool {
        self.state.finished
    }

    pub closed spec fn uid_counter(&self) -> int {
        self.state.uid_counter as int
    }

    pub closed spec fn file_counter(&self) -> int {
        self.state.file_counter as int
    }

    /// Digest-to-size map of the chunks the session accepts references to.
    pub closed spec fn known(&self) -> Map<Seq<u8>, u32> {
        known_map(self.state.known_chunks@)
    }

    /// The live dynamic writers, by writer id.
    pub closed spec fn dyn_writers(&self) -> Map<int, DynamicWriterState> {
        dyn_writer_map(self.state.dynamic_writers@)
    }

    /// The live fixed writers, by writer id.
    pub closed spec fn fixed_writers(&self) -> Map<int, FixedWriterState> {
        fixed_writer_map(self.state.fixed_writers@)
    }

    pub closed spec fn spec_fixed_writer_seq(&self) -> Seq<FixedWriterState> {
        self.state.fixed_writers@
    }

    /// The task-log lines the session has emitted.
    pub closed spec fn log_view(&self) -> Seq<Seq<char>> {
        self.log_lines.deep_view()
    }

    pub closed spec fn inv(&self) -> bool {
        self.state.inv()
    }

    /// All maps, counters and the latch unchanged.
    pub open spec fn state_unchanged(pre: &Self, post: &Self) -> bool {
        &&& post.finished() == pre.finished()
        &&& post.uid_counter() == pre.uid_counter()
        &&& post.file_counter() == pre.file_counter()
        &&& post.known() == pre.known()
        &&& post.dyn_writers() == pre.dyn_writers()
        &&& post.fixed_writers() == pre.fixed_writers()
        &&& post.log_view() == pre.log_view()
        &&& post.spec_user() == pre.spec_user()
        &&& post.spec_debug() == pre.spec_debug()
    }

    pub fn new(user: String) -> (env: Self)
        ensures
            env.inv(),
            !env.finished(),
            env.uid_counter() == 0,
            env.file_counter() == 0,
            env.known() == Map::<Seq<u8>, u32>::empty(),
            env.dyn_writers() == Map::<int, DynamicWriterState>::empty(),
            env.fixed_writers() == Map::<int, FixedWriterState>::empty(),
            env.log_view() == Seq::<Seq<char>>::empty(),
            env.spec_user() == user@,
            !env.spec_debug(),
    {
        let env = BackupEnvironment {
            user,
            debug: false,
            log_lines: Vec::new(),
            state: SharedBackupState {
                finished: false,
                uid_counter: 0,
                file_counter: 0,
                dynamic_writers: Vec::new(),
                fixed_writers: Vec::new(),
                known_chunks: Vec::new(),
            },
        };
        proof {
            assert(env.log_view() =~= Seq::<Seq<char>>::empty());
        }
        env
    }

    /// Append a line to the session's task log.
    pub fn log(&mut self, msg: String)
        ensures
            final(self).log_view() == old(self).log_view().push(msg@),
            final(self).inv() == old(self).inv(),
            final(self).finished() == old(self).finished(),
            final(self).uid_counter() == old(self).uid_counter(),
            final(self).file_counter() == old(self).file_counter(),
            final(self).known() == old(self).known(),
            final(self).dyn_writers() == old(self).dyn_writers(),
            final(self).fixed_writers() == old(self).fixed_writers(),
            final(self).spec_user() == old(self).spec_user(),
            final(self).spec_debug() == old(self).spec_debug(),
    {
        self.log_lines.push(msg);
        proof {
            assert(self.log_view() =~= old(self).log_view().push(self.log_lines@.last()@));
        }
    }

    /// Take the accumulated task-log lines out of the session; the
    /// caller appends them to the worker's log file.
    pub fn take_log_lines(&mut self) -> (r: Vec<String>)
        ensures
            r.deep_view() == old(self).log_view(),
            final(self).log_view() == Seq::<Seq<char>>::empty(),
            final(self).inv() == old(self).inv(),
            final(self).finished() == old(self).finished(),
            final(self).uid_counter() == old(self).uid_counter(),
            final(self).file_counter() == old(self).file_counter(),
            final(self).known() == old(self).known(),
            final(self).dyn_writers() == old(self).dyn_writers(),
            final(self).fixed_writers() == old(self).fixed_writers(),
            final(self).spec_user() == old(self).spec_user(),
            final(self).spec_debug() == old(self).spec_debug(),
    {
        let mut drained: Vec<String> = Vec::new();
        core::mem::swap(&mut drained, &mut self.log_lines);
        proof {
            assert(self.log_view() =~= Seq::<Seq<char>>::empty());
        }
        drained
    }

    /// Append a line only when the session's debug flag is set.
    pub fn debug(&mut self, msg: String)
        ensures
            final(self).log_view() == (if old(self).spec_debug() {
                old(self).log_view().push(msg@)
            } else {
                old(self).log_view()
            }),
            final(self).inv() == old(self).inv(),
            final(self).finished() == old(self).finished(),
            final(self).uid_counter() == old(self).uid_counter(),
            final(self).file_counter() == old(self).file_counter(),
            final(self).known() == old(self).known(),
            final(self).dyn_writers() == old(self).dyn_writers(),
            final(self).fixed_writers() == old(self).fixed_writers(),
            final(self).spec_user() == old(self).spec_user(),
            final(self).spec_debug() == old(self).spec_debug(),
    {
        if self.debug {
            self.log(msg);
        }
    }

    /// Find the position of a dynamic writer by id.
    fn find_dynamic(&self, wid: usize) -> (r: Option<usize>)
        ensures
            match r {
                Some(i) => {
                    &&& i < self.state.dynamic_writers@.len()
                    &&& self.state.dynamic_writers@[i as int].wid == wid
                },
                None => forall|i: int|
                    0 <= i < self.state.dynamic_writers@.len() ==> (
                    #[trigger] self.state.dynamic_writers@[i]).wid != wid,
            },
    {
        let mut i: usize = 0;
        while i < self.state.dynamic_writers.len()
            invariant
                i <= self.state.dynamic_writers@.len(),
                forall|j: int|
                    0 <= j < i ==> (#[trigger] self.state.dynamic_writers@[j]).wid != wid,
            decreases self.state.dynamic_writers@.len() - i,
        {
            if self.state.dynamic_writers[i].wid == wid {
                return Some(i);
            }
            i += 1;
        }
        None
    }

    /// Find the position of a fixed writer by id.
    fn find_fixed(&self, wid: usize) -> (r: Option<usize>)
        ensures
            match r {
                Some(i) => {
                    &&& i < self.state.fixed_writers@.len()
                    &&& self.state.fixed_writers@[i as int].wid == wid
                },
                None => forall|i: int|
                    0 <= i < self.state.fixed_writers@.len() ==> (
                    #[trigger] self.state.fixed_writers@[i]).wid != wid,
            },
    {
        let mut i: usize = 0;
        while i < self.state.fixed_writers.len()
            invariant
                i <= self.state.fixed_writers@.len(),
                forall|j: int|
                    0 <= j < i ==> (#[trigger] self.state.fixed_writers@[j]).wid != wid,
            decreases self.state.fixed_writers@.len() - i,
        {
            if self.state.fixed_writers[i].wid == wid {
                return Some(i);
            }
            i += 1;
        }
        None
    }

    /// Find the position of a known chunk by digest.
    fn find_known(&self, digest: &[u8; 32]) -> (r: Option<usize>)
        ensures
            match r {
                Some(i) => {
                    &&& i < self.state.known_chunks@.len()
                    &&& self.state.known_chunks@[i as int].0@ == digest@
                },
                None => forall|i: int|
                    0 <= i < self.state.known_chunks@.len() ==> (
                    #[trigger] self.state.known_chunks@[i]).0@ != digest@,
            },
    {
        let mut i: usize = 0;
        while i < self.state.known_chunks.len()
            invariant
                i <= self.state.known_chunks@.len(),
                forall|j: int|
                    0 <= j < i ==> (#[trigger] self.state.known_chunks@[j]).0@ != digest@,
            decreases self.state.known_chunks@.len() - i,
        {
            if crate::digests_equal(&self.state.known_chunks[i].0, digest) {
                return Some(i);
            }
            i += 1;
        }
        None
    }

    /// Put `digest -> length` into the known-chunk table, overwriting.
    fn insert_known(&mut self, digest: &[u8; 32], length: u32)
        requires
            old(self).inv(),
        ensures
            final(self).inv(),
            final(self).known() == old(self).known().insert(digest@, length),
            final(self).finished() == old(self).finished(),
            final(self).uid_counter() == old(self).uid_counter(),
            final(self).file_counter() == old(self).file_counter(),
            final(self).dyn_writers() == old(self).dyn_writers(),
            final(self).fixed_writers() == old(self).fixed_writers(),
            final(self).log_view() == old(self).log_view(),
            final(self).spec_user() == old(self).spec_user(),
            final(self).spec_debug() == old(self).spec_debug(),
    {
        match self.find_known(digest) {
            Some(i) => {
                let ghost s = self.state.known_chunks@;
                proof {
                    lemma_known_map_update(s, i as int, length);
                    assert(s[i as int].0@ == digest@);
                }
                let key = self.state.known_chunks[i].0;
                self.state.known_chunks.set(i, (key, length));
                proof {
                    assert(self.state.known_chunks@ =~= s.update(
                        i as int,
                        (s[i as int].0, length),
                    ));
                    assert(self.known() =~= old(self).known().insert(digest@, length));
                }
            },
            None => {
                proof {
                    lemma_known_map_push(self.state.known_chunks@, *digest, length);
                }
                self.state.known_chunks.push((*digest, length));
            },
        }
    }

    /// Register a chunk with its uncompressed length.
    ///
    /// A client may only reference registered chunks; chunks carried over
    /// from the previous snapshot are registered through this call.
    /// Idempotent: registering a digest again overwrites its length.
    pub fn register_chunk(&mut self, digest: [u8; 32], length: u32) -> (r: Result<
        (),
        BackupError,
    >)
        requires
            old(self).inv(),
        ensures
            final(self).inv(),
            match r {
                Ok(()) => {
                    &&& !old(self).finished()
                    &&& final(self).known() == old(self).known().insert(digest@, length)
                    &&& final(self).finished() == old(self).finished()
                    &&& final(self).uid_counter() == old(self).uid_counter()
                    &&& final(self).file_counter() == old(self).file_counter()
                    &&& final(self).dyn_writers() == old(self).dyn_writers()
                    &&& final(self).fixed_writers() == old(self).fixed_writers()
                    &&& final(self).log_view() == old(self).log_view()
                },
                Err(e) => {
                    &&& e == BackupError::AlreadyFinished
                    &&& old(self).finished()
                    &&& Self::state_unchanged(old(self), final(self))
                },
            },
            r is Ok <==> !old(self).finished(),
    {
        if self.state.finished {
            return Err(BackupError::AlreadyFinished);
        }
        self.insert_known(&digest, length);
        Ok(())
    }

    /// Look a digest up in the known-chunk table.
    pub fn lookup_chunk(&self, digest: &[u8; 32]) -> (r: Option<u32>)
        requires
            self.inv(),
        ensures
            match r {
                Some(len) => self.known().dom().contains(digest@) && self.known()[digest@]
                    == len,
                None => !self.known().dom().contains(digest@),
            },
    {
        match self.find_known(digest) {
            Some(i) => {
                proof {
                    lemma_known_map_contains(self.state.known_chunks@, i as int);
                }
                Some(self.state.known_chunks[i].1)
            },
            None => {
                proof {
                    lemma_known_map_absent(self.state.known_chunks@, digest@);
                }
                None
            },
        }
    }

    /// Store a dynamic writer under a fresh id.
    pub fn register_dynamic_writer(&mut self, index: DynamicIndexWriter, name: String) -> (r:
        Result<usize, BackupError>)
        requires
            old(self).inv(),
            index.wf(),
            index.entries().len() == 0,
            old(self).uid_counter() < usize::MAX,
        ensures
            final(self).inv(),
            match r {
                Ok(wid) => {
                    &&& !old(self).finished()
                    &&& wid == old(self).uid_counter() + 1
                    &&& final(self).uid_counter() == old(self).uid_counter() + 1
                    &&& !old(self).dyn_writers().dom().contains(wid as int)
                    &&& final(self).dyn_writers() == old(self).dyn_writers().insert(
                        wid as int,
                        DynamicWriterState {
                            wid,
                            name,
                            index,
                            offset: 0,
                            chunk_count: 0,
                            upload_stat: UploadStatistic {
                                count: 0,
                                size: 0,
                                compressed_size: 0,
                                duplicates: 0,
                            },
                        },
                    )
                    &&& final(self).finished() == old(self).finished()
                    &&& final(self).file_counter() == old(self).file_counter()
                    &&& final(self).known() == old(self).known()
                    &&& final(self).fixed_writers() == old(self).fixed_writers()
                    &&& final(self).log_view() == old(self).log_view()
                },
                Err(e) => {
                    &&& e == BackupError::AlreadyFinished
                    &&& old(self).finished()
                    &&& Self::state_unchanged(old(self), final(self))
                },
            },
            r is Ok <==> !old(self).finished(),
    {
        if self.state.finished {
            return Err(BackupError::AlreadyFinished);
        }
        let uid = self.state.next_uid();
        let w = DynamicWriterState {
            wid: uid,
            name,
            index,
            offset: 0,
            chunk_count: 0,
            upload_stat: UploadStatistic::new(),
        };
        proof {
            assert(forall|i: int|
                0 <= i < self.state.dynamic_writers@.len() ==> (
                #[trigger] self.state.dynamic_writers@[i]).wid != uid);
            lemma_dyn_map_absent(self.state.dynamic_writers@, uid as int);
            lemma_dyn_map_push(self.state.dynamic_writers@, w);
        }
        self.state.dynamic_writers.push(w);
        Ok(uid)
    }

    /// Store a fixed writer under a fresh id.
    pub fn register_fixed_writer(
        &mut self,
        index: FixedIndexWriter,
        name: String,
        size: usize,
        chunk_size: u32,
    ) -> (r: Result<usize, BackupError>)
        requires
            old(self).inv(),
            index.wf(),
            count_written(index.slot_view()) == 0,
            index.spec_size() == size as int,
            index.spec_chunk_size() == chunk_size as int,
            old(self).uid_counter() < usize::MAX,
        ensures
            final(self).inv(),
            match r {
                Ok(wid) => {
                    &&& !old(self).finished()
                    &&& wid == old(self).uid_counter() + 1
                    &&& final(self).uid_counter() == old(self).uid_counter() + 1
                    &&& !old(self).fixed_writers().dom().contains(wid as int)
                    &&& final(self).fixed_writers() == old(self).fixed_writers().insert(
                        wid as int,
                        FixedWriterState {
                            wid,
                            name,
                            index,
                            size,
                            chunk_size,
                            chunk_count: 0,
                            small_chunk_count: 0,
                            upload_stat: UploadStatistic {
                                count: 0,
                                size: 0,
                                compressed_size: 0,
                                duplicates: 0,
                            },
                        },
                    )
                    &&& final(self).finished() == old(self).finished()
                    &&& final(self).file_counter() == old(self).file_counter()
                    &&& final(self).known() == old(self).known()
                    &&& final(self).dyn_writers() == old(self).dyn_writers()
                    &&& final(self).log_view() == old(self).log_view()
                },
                Err(e) => {
                    &&& e == BackupError::AlreadyFinished
                    &&& old(self).finished()
                    &&& Self::state_unchanged(old(self), final(self))
                },
            },
            r is Ok <==> !old(self).finished(),
    {
        if self.state.finished {
            return Err(BackupError::AlreadyFinished);
        }
        let uid = self.state.next_uid();
        let w = FixedWriterState {
            wid: uid,
            name,
            index,
            size,
            chunk_size,
            chunk_count: 0,
            small_chunk_count: 0,
            upload_stat: UploadStatistic::new(),
        };
        proof {
            assert(forall|i: int|
                0 <= i < self.state.fixed_writers@.len() ==> (
                #[trigger] self.state.fixed_writers@[i]).wid != uid);
            lemma_fixed_map_absent(self.state.fixed_writers@, uid as int);
            lemma_fixed_map_push(self.state.fixed_writers@, w);
        }
        self.state.fixed_writers.push(w);
        Ok(uid)
    }

    /// The statistics counters can take one more chunk of these sizes.
    pub open spec fn stat_fits(st: UploadStatistic, size: u32, compressed_size: u32) -> bool {
        &&& st.count < u64::MAX
        &&& st.size + size <= u64::MAX
        &&& st.compressed_size + compressed_size <= u64::MAX
        &&& st.duplicates < u64::MAX
    }

    /// The statistics counters after one more chunk of these sizes.
    pub open spec fn stat_bumped(
        st: UploadStatistic,
        size: u32,
        compressed_size: u32,
        is_duplicate: bool,
    ) -> UploadStatistic {
        UploadStatistic {
            count: (st.count + 1) as u64,
            size: (st.size + size) as u64,
            compressed_size: (st.compressed_size + compressed_size) as u64,
            duplicates: if is_duplicate {
                (st.duplicates + 1) as u64
            } else {
                st.duplicates
            },
        }
    }

    /// When `register_fixed_chunk` succeeds: the session is live, the
    /// writer exists, the chunk is no larger than the declared chunk size,
    /// and at most one short (terminal) chunk is ever accepted.
    pub open spec fn register_fixed_ok(
        &self,
        wid: int,
        size: u32,
        compressed_size: u32,
    ) -> bool {
        &&& !self.finished()
        &&& self.fixed_writers().dom().contains(wid)
        &&& size <= self.fixed_writers()[wid].chunk_size
        &&& (size == self.fixed_writers()[wid].chunk_size || self.fixed_writers()[wid].small_chunk_count == 0)
        &&& Self::stat_fits(self.fixed_writers()[wid].upload_stat, size, compressed_size)
    }

    pub open spec fn register_fixed_err(
        &self,
        wid: int,
        size: u32,
        compressed_size: u32,
    ) -> BackupError {
        if self.finished() {
            BackupError::AlreadyFinished
        } else if !self.fixed_writers().dom().contains(wid) {
            BackupError::UnknownWriter
        } else if size > self.fixed_writers()[wid].chunk_size {
            BackupError::ChunkTooLarge
        } else if size < self.fixed_writers()[wid].chunk_size && self.fixed_writers()[wid].small_chunk_count
            >= 1 {
            BackupError::MultipleSmallChunks
        } else {
            BackupError::CounterOverflow
        }
    }

    /// Register a fixed chunk after upload: record statistics for the
    /// writer and add the chunk to the known table.
    pub fn register_fixed_chunk(
        &mut self,
        wid: usize,
        digest: [u8; 32],
        size: u32,
        compressed_size: u32,
        is_duplicate: bool,
    ) -> (r: Result<(), BackupError>)
        requires
            old(self).inv(),
        ensures
            final(self).inv(),
            r is Ok <==> old(self).register_fixed_ok(wid as int, size, compressed_size),
            match r {
                Ok(()) => {
                    &&& final(self).fixed_writers() == old(self).fixed_writers().insert(
                        wid as int,
                        final(self).fixed_writers()[wid as int],
                    )
                    &&& final(self).fixed_writers()[wid as int] == (FixedWriterState {
                        small_chunk_count: (old(self).fixed_writers()[wid as int].small_chunk_count
                            + (if size < old(self).fixed_writers()[wid as int].chunk_size {
                            1int
                        } else {
                            0int
                        })) as usize,
                        upload_stat: Self::stat_bumped(
                            old(self).fixed_writers()[wid as int].upload_stat,
                            size,
                            compressed_size,
                            is_duplicate,
                        ),
                        ..old(self).fixed_writers()[wid as int]
                    })
                    &&& final(self).known() == old(self).known().insert(digest@, size)
                    &&& final(self).finished() == old(self).finished()
                    &&& final(self).uid_counter() == old(self).uid_counter()
                    &&& final(self).file_counter() == old(self).file_counter()
                    &&& final(self).dyn_writers() == old(self).dyn_writers()
                    &&& final(self).log_view() == old(self).log_view()
                },
                Err(e) => {
                    &&& e == old(self).register_fixed_err(wid as int, size, compressed_size)
                    &&& Self::state_unchanged(old(self), final(self))
                },
            },
    {
        if self.state.finished {
            return Err(BackupError::AlreadyFinished);
        }
        let i = match self.find_fixed(wid) {
            Some(i) => {
                proof {
                    lemma_fixed_map_contains(self.state.fixed_writers@, i as int);
                }
                i
            },
            None => {
                proof {
                    lemma_fixed_map_absent(self.state.fixed_writers@, wid as int);
                }
                return Err(BackupError::UnknownWriter);
            },
        };
        let ghost s = self.state.fixed_writers@;
        let ghost w0 = s[i as int];
        if size > self.state.fixed_writers[i].chunk_size {
            return Err(BackupError::ChunkTooLarge);
        }
        if size < self.state.fixed_writers[i].chunk_size
            && self.state.fixed_writers[i].small_chunk_count >= 1 {
            return Err(BackupError::MultipleSmallChunks);
        }
        let st = self.state.fixed_writers[i].upload_stat;
        if st.count == u64::MAX || size as u64 > u64::MAX - st.size || compressed_size as u64
            > u64::MAX - st.compressed_size || st.duplicates == u64::MAX {
            return Err(BackupError::CounterOverflow);
        }
        let mut w = self.state.fixed_writers.remove(i);
        if size < w.chunk_size {
            w.small_chunk_count = w.small_chunk_count + 1;
        }
        w.upload_stat.count = w.upload_stat.count + 1;
        w.upload_stat.size = w.upload_stat.size + size as u64;
        w.upload_stat.compressed_size = w.upload_stat.compressed_size + compressed_size as u64;
        if is_duplicate {
            w.upload_stat.duplicates = w.upload_stat.duplicates + 1;
        }
        proof {
            lemma_fixed_map_remove(s, i as int);
            assert(forall|j: int|
                0 <= j < s.remove(i as int).len() ==> (#[trigger] s.remove(i as int)[j]).wid
                    != w0.wid) by {
                assert(forall|j: int|
                    0 <= j < s.remove(i as int).len() ==> s.remove(i as int)[j] == (if j < i {
                        s[j]
                    } else {
                        s[j + 1]
                    }));
            }
            lemma_fixed_map_push(s.remove(i as int), w);
        }
        self.state.fixed_writers.push(w);
        proof {
            assert(self.fixed_writers() =~= old(self).fixed_writers().insert(
                wid as int,
                w,
            ));
            assert(forall|j: int|
                0 <= j < self.state.fixed_writers@.len()
                    ==> #[trigger] self.state.fixed_writers@[j] == (if j
                    < self.state.fixed_writers@.len() - 1 {
                    s.remove(i as int)[j]
                } else {
                    w
                }));
        }
        self.insert_known(&digest, size);
        Ok(())
    }

    /// When `register_dynamic_chunk` succeeds: the session is live and the
    /// writer exists.
    pub open spec fn register_dynamic_ok(
        &self,
        wid: int,
        size: u32,
        compressed_size: u32,
    ) -> bool {
        &&& !self.finished()
        &&& self.dyn_writers().dom().contains(wid)
        &&& Self::stat_fits(self.dyn_writers()[wid].upload_stat, size, compressed_size)
    }

    pub open spec fn register_dynamic_err(
        &self,
        wid: int,
        size: u32,
        compressed_size: u32,
    ) -> BackupError {
        if self.finished() {
            BackupError::AlreadyFinished
        } else if !self.dyn_writers().dom().contains(wid) {
            BackupError::UnknownWriter
        } else {
            BackupError::CounterOverflow
        }
    }

    /// Register a dynamic chunk after upload: record statistics for the
    /// writer and add the chunk to the known table.
    pub fn register_dynamic_chunk(
        &mut self,
        wid: usize,
        digest: [u8; 32],
        size: u32,
        compressed_size: u32,
        is_duplicate: bool,
    ) -> (r: Result<(), BackupError>)
        requires
            old(self).inv(),
        ensures
            final(self).inv(),
            r is Ok <==> old(self).register_dynamic_ok(wid as int, size, compressed_size),
            match r {
                Ok(()) => {
                    &&& final(self).dyn_writers() == old(self).dyn_writers().insert(
                        wid as int,
                        final(self).dyn_writers()[wid as int],
                    )
                    &&& final(self).dyn_writers()[wid as int] == (DynamicWriterState {
                        upload_stat: Self::stat_bumped(
                            old(self).dyn_writers()[wid as int].upload_stat,
                            size,
                            compressed_size,
                            is_duplicate,
                        ),
                        ..old(self).dyn_writers()[wid as int]
                    })
                    &&& final(self).known() == old(self).known().insert(digest@, size)
                    &&& final(self).finished() == old(self).finished()
                    &&& final(self).uid_counter() == old(self).uid_counter()
                    &&& final(self).file_counter() == old(self).file_counter()
                    &&& final(self).fixed_writers() == old(self).fixed_writers()
                    &&& final(self).log_view() == old(self).log_view()
                },
                Err(e) => {
                    &&& e == old(self).register_dynamic_err(
                        wid as int,
                        size,
                        compressed_size,
                    )
                    &&& Self::state_unchanged(old(self), final(self))
                },
            },
    {
        if self.state.finished {
            return Err(BackupError::AlreadyFinished);
        }
        let i = match self.find_dynamic(wid) {
            Some(i) => {
                proof {
                    lemma_dyn_map_contains(self.state.dynamic_writers@, i as int);
                }
                i
            },
            None => {
                proof {
                    lemma_dyn_map_absent(self.state.dynamic_writers@, wid as int);
                }
                return Err(BackupError::UnknownWriter);
            },
        };
        let ghost s = self.state.dynamic_writers@;
        let st = self.state.dynamic_writers[i].upload_stat;
        if st.count == u64::MAX || size as u64 > u64::MAX - st.size || compressed_size as u64
            > u64::MAX - st.compressed_size || st.duplicates == u64::MAX {
            return Err(BackupError::CounterOverflow);
        }
        let mut w = self.state.dynamic_writers.remove(i);
        w.upload_stat.count = w.upload_stat.count + 1;
        w.upload_stat.size = w.upload_stat.size + size as u64;
        w.upload_stat.compressed_size = w.upload_stat.compressed_size + compressed_size as u64;
        if is_duplicate {
            w.upload_stat.duplicates = w.upload_stat.duplicates + 1;
        }
        proof {
            lemma_dyn_map_remove(s, i as int);
            assert(forall|j: int|
                0 <= j < s.remove(i as int).len() ==> (#[trigger] s.remove(i as int)[j]).wid
                    != w.wid) by {
                assert(forall|j: int|
                    0 <= j < s.remove(i as int).len() ==> s.remove(i as int)[j] == (if j < i {
                        s[j]
                    } else {
                        s[j + 1]
                    }));
            }
            lemma_dyn_map_push(s.remove(i as int), w);
        }
        self.state.dynamic_writers.push(w);
        proof {
            assert(self.dyn_writers() =~= old(self).dyn_writers().insert(wid as int, w));
            assert(forall|j: int|
                0 <= j < self.state.dynamic_writers@.len()
                    ==> #[trigger] self.state.dynamic_writers@[j] == (if j
                    < self.state.dynamic_writers@.len() - 1 {
                    s.remove(i as int)[j]
                } else {
                    w
                }));
        }
        self.insert_known(&digest, size);
        Ok(())
    }

    /// When `dynamic_writer_append_chunk` succeeds: the session is live,
    /// the writer exists, the append continues exactly at the writer's
    /// running offset with a non-empty chunk, and the offset stays in range.
    pub open spec fn dynamic_append_ok(&self, wid: int, offset: u64, size: u32) -> bool {
        &&& !self.finished()
        &&& self.dyn_writers().dom().contains(wid)
        &&& offset == self.dyn_writers()[wid].offset
        &&& size > 0
        &&& offset + size <= u64::MAX
    }

    pub open spec fn dynamic_append_err(&self, wid: int, offset: u64, size: u32) -> BackupError {
        if self.finished() {
            BackupError::AlreadyFinished
        } else if !self.dyn_writers().dom().contains(wid) {
            BackupError::UnknownWriter
        } else if offset != self.dyn_writers()[wid].offset {
            BackupError::UnexpectedOffset
        } else if size == 0 {
            BackupError::NonMonotonicOffset
        } else {
            BackupError::CounterOverflow
        }
    }

    /// Append a chunk to a dynamic writer. Appends must arrive strictly
    /// in offset order: the chunk must start at the writer's running
    /// offset, which then advances by the chunk size.
    pub fn dynamic_writer_append_chunk(
        &mut self,
        wid: usize,
        offset: u64,
        size: u32,
        digest: &[u8; 32],
    ) -> (r: Result<(), BackupError>)
        requires
            old(self).inv(),
        ensures
            final(self).inv(),
            r is Ok <==> old(self).dynamic_append_ok(wid as int, offset, size),
            match r {
                Ok(()) => {
                    &&& final(self).dyn_writers() == old(self).dyn_writers().insert(
                        wid as int,
                        final(self).dyn_writers()[wid as int],
                    )
                    &&& {
                        let w0 = old(self).dyn_writers()[wid as int];
                        let w1 = final(self).dyn_writers()[wid as int];
                        &&& w1.wid == w0.wid
                        &&& w1.name == w0.name
                        &&& w1.offset == offset + size
                        &&& w1.chunk_count == w0.chunk_count + 1
                        &&& w1.upload_stat == w0.upload_stat
                        &&& w1.index.spec_uuid() == w0.index.spec_uuid()
                        &&& w1.index.entries() == w0.index.entries().push(
                            ((offset + size) as u64, digest@),
                        )
                    }
                    &&& final(self).finished() == old(self).finished()
                    &&& final(self).uid_counter() == old(self).uid_counter()
                    &&& final(self).file_counter() == old(self).file_counter()
                    &&& final(self).known() == old(self).known()
                    &&& final(self).fixed_writers() == old(self).fixed_writers()
                    &&& final(self).log_view() == old(self).log_view()
                },
                Err(e) => {
                    &&& e == old(self).dynamic_append_err(wid as int, offset, size)
                    &&& Self::state_unchanged(old(self), final(self))
                },
            },
    {
        if self.state.finished {
            return Err(BackupError::AlreadyFinished);
        }
        let i = match self.find_dynamic(wid) {
            Some(i) => {
                proof {
                    lemma_dyn_map_contains(self.state.dynamic_writers@, i as int);
                }
                i
            },
            None => {
                proof {
                    lemma_dyn_map_absent(self.state.dynamic_writers@, wid as int);
                }
                return Err(BackupError::UnknownWriter);
            },
        };
        let ghost s = self.state.dynamic_writers@;
        if self.state.dynamic_writers[i].offset != offset {
            return Err(BackupError::UnexpectedOffset);
        }
        if size == 0 {
            return Err(BackupError::NonMonotonicOffset);
        }
        if size as u64 > u64::MAX - offset {
            return Err(BackupError::CounterOverflow);
        }
        let mut w = self.state.dynamic_writers.remove(i);
        proof {
            lemma_entry_count_le_end(w.index.entries());
        }
        w.offset = w.offset + size as u64;
        w.chunk_count = w.chunk_count + 1;
        let add_result = w.index.add_chunk(w.offset, digest);
        proof {
            assert(add_result is Ok);
        }
        proof {
            lemma_dyn_map_remove(s, i as int);
            assert(forall|j: int|
                0 <= j < s.remove(i as int).len() ==> (#[trigger] s.remove(i as int)[j]).wid
                    != w.wid) by {
                assert(forall|j: int|
                    0 <= j < s.remove(i as int).len() ==> s.remove(i as int)[j] == (if j < i {
                        s[j]
                    } else {
                        s[j + 1]
                    }));
            }
            lemma_dyn_map_push(s.remove(i as int), w);
        }
        self.state.dynamic_writers.push(w);
        proof {
            assert(self.dyn_writers() =~= old(self).dyn_writers().insert(wid as int, w));
            assert(forall|j: int|
                0 <= j < self.state.dynamic_writers@.len()
                    ==> #[trigger] self.state.dynamic_writers@[j] == (if j
                    < self.state.dynamic_writers@.len() - 1 {
                    s.remove(i as int)[j]
                } else {
                    w
                }));
        }
        Ok(())
    }

    /// When `fixed_writer_append_chunk` succeeds: the session is live, the
    /// writer exists, the chunk lands on the declared layout and its slot
    /// was not written before.
    pub open spec fn fixed_append_ok(&self, wid: int, offset: u64, size: u32) -> bool {
        &&& !self.finished()
        &&& self.fixed_writers().dom().contains(wid)
        &&& self.fixed_writers()[wid].index.chunk_aligned(offset + size, size as int)
        &&& self.fixed_writers()[wid].index.slot_view()[self.fixed_writers()[wid].index.slot_of(
            offset + size,
            size as int,
        )] is None
        &&& self.fixed_writers()[wid].chunk_count < u64::MAX
    }

    pub open spec fn fixed_append_err(&self, wid: int, offset: u64, size: u32) -> BackupError {
        if self.finished() {
            BackupError::AlreadyFinished
        } else if !self.fixed_writers().dom().contains(wid) {
            BackupError::UnknownWriter
        } else if !self.fixed_writers()[wid].index.chunk_aligned(offset + size, size as int) {
            BackupError::UnalignedChunk
        } else if self.fixed_writers()[wid].index.slot_view()[self.fixed_writers()[wid].index.slot_of(
            offset + size,
            size as int,
        )] is Some {
            BackupError::DuplicateSlot
        } else {
            BackupError::CounterOverflow
        }
    }

    /// Append a chunk to a fixed writer. The chunk's offset determines its
    /// slot, so chunks may arrive in any order; each slot is written once.
    pub fn fixed_writer_append_chunk(
        &mut self,
        wid: usize,
        offset: u64,
        size: u32,
        digest: &[u8; 32],
    ) -> (r: Result<(), BackupError>)
        requires
            old(self).inv(),
        ensures
            final(self).inv(),
            r is Ok <==> old(self).fixed_append_ok(wid as int, offset, size),
            match r {
                Ok(()) => {
                    &&& final(self).fixed_writers() == old(self).fixed_writers().insert(
                        wid as int,
                        final(self).fixed_writers()[wid as int],
                    )
                    &&& {
                        let w0 = old(self).fixed_writers()[wid as int];
                        let w1 = final(self).fixed_writers()[wid as int];
                        &&& w1.wid == w0.wid
                        &&& w1.name == w0.name
                        &&& w1.size == w0.size
                        &&& w1.chunk_size == w0.chunk_size
                        &&& w1.chunk_count == w0.chunk_count + 1
                        &&& w1.small_chunk_count == w0.small_chunk_count
                        &&& w1.upload_stat == w0.upload_stat
                        &&& w1.index.spec_uuid() == w0.index.spec_uuid()
                        &&& w1.index.slot_view() == w0.index.slot_view().update(
                            w0.index.slot_of(offset + size, size as int),
                            Some(digest@),
                        )
                    }
                    &&& final(self).finished() == old(self).finished()
                    &&& final(self).uid_counter() == old(self).uid_counter()
                    &&& final(self).file_counter() == old(self).file_counter()
                    &&& final(self).known() == old(self).known()
                    &&& final(self).dyn_writers() == old(self).dyn_writers()
                    &&& final(self).log_view() == old(self).log_view()
                },
                Err(e) => {
                    &&& e == old(self).fixed_append_err(wid as int, offset, size)
                    &&& Self::state_unchanged(old(self), final(self))
                },
            },
    {
        if self.state.finished {
            return Err(BackupError::AlreadyFinished);
        }
        let i = match self.find_fixed(wid) {
            Some(i) => {
                proof {
                    lemma_fixed_map_contains(self.state.fixed_writers@, i as int);
                }
                i
            },
            None => {
                proof {
                    lemma_fixed_map_absent(self.state.fixed_writers@, wid as int);
                }
                return Err(BackupError::UnknownWriter);
            },
        };
        let ghost s = self.state.fixed_writers@;
        let ghost w0 = s[i as int];
        let total = self.state.fixed_writers[i].size;
        if offset >= total as u64 || size as u64 > total as u64 - offset {
            assert(!w0.index.chunk_aligned(offset + size, size as int));
            return Err(BackupError::UnalignedChunk);
        }
        let end: usize = (offset + size as u64) as usize;
        assert(end as int == offset + size);
        let idx = match self.state.fixed_writers[i].index.check_chunk_alignment(
            end,
            size as usize,
        ) {
            Ok(idx) => idx,
            Err(_) => {
                return Err(BackupError::UnalignedChunk);
            },
        };
        if self.state.fixed_writers[i].index.slot_is_written(idx) {
            return Err(BackupError::DuplicateSlot);
        }
        if self.state.fixed_writers[i].chunk_count == u64::MAX {
            return Err(BackupError::CounterOverflow);
        }
        let mut w = self.state.fixed_writers.remove(i);
        assert(w == s[i as int]);
        assert(idx < w.index.slot_view().len());
        assert(w.index.slot_view()[idx as int] is None);
        let add_result = w.index.add_digest(idx, digest);
        proof {
            assert(add_result is Ok);
        }
        w.chunk_count = w.chunk_count + 1;
        proof {
            lemma_fixed_map_remove(s, i as int);
            assert(forall|j: int|
                0 <= j < s.remove(i as int).len() ==> (#[trigger] s.remove(i as int)[j]).wid
                    != w.wid) by {
                assert(forall|j: int|
                    0 <= j < s.remove(i as int).len() ==> s.remove(i as int)[j] == (if j < i {
                        s[j]
                    } else {
                        s[j + 1]
                    }));
            }
            lemma_fixed_map_push(s.remove(i as int), w);
        }
        self.state.fixed_writers.push(w);
        proof {
            assert(self.fixed_writers() =~= old(self).fixed_writers().insert(
                wid as int,
                w,
            ));
            assert(forall|j: int|
                0 <= j < self.state.fixed_writers@.len()
                    ==> #[trigger] self.state.fixed_writers@[j] == (if j
                    < self.state.fixed_writers@.len() - 1 {
                    s.remove(i as int)[j]
                } else {
                    w
                }));
        }
        Ok(())
    }

    /// Append one piece of a log line under construction.
    fn push_line_str(line: &mut Vec<char>, piece: &str)
        ensures
            final(line)@ == old(line)@ + piece@,
    {
        crate::strutil::push_chars(line, piece);
    }

    /// Write the upload-statistics report for a closed writer to the log.
    fn log_upload_stat(
        &mut self,
        archive_name: &str,
        csum: &[u8; 32],
        uuid: &[u8; 16],
        size: u64,
        chunk_count: u64,
        upload_stat: &UploadStatistic,
    )
        ensures
            final(self).log_view() == old(self).log_view() + upload_stat_lines(
                archive_name@,
                uuid@,
                csum@,
                size,
                chunk_count,
                *upload_stat,
            ),
            final(self).inv() == old(self).inv(),
            final(self).finished() == old(self).finished(),
            final(self).uid_counter() == old(self).uid_counter(),
            final(self).file_counter() == old(self).file_counter(),
            final(self).known() == old(self).known(),
            final(self).dyn_writers() == old(self).dyn_writers(),
            final(self).fixed_writers() == old(self).fixed_writers(),
            final(self).spec_user() == old(self).spec_user(),
            final(self).spec_debug() == old(self).spec_debug(),
    {
        let ghost lines = upload_stat_lines(
            archive_name@,
            uuid@,
            csum@,
            size,
            chunk_count,
            *upload_stat,
        );
        let ghost log0 = self.log_view();
        let mut line: Vec<char> = Vec::new();
        Self::push_line_str(&mut line, "Upload statistics for '");
        Self::push_line_str(&mut line, archive_name);
        Self::push_line_str(&mut line, "'");
        self.log(crate::strutil::chars_to_string(&line));

        let mut line: Vec<char> = Vec::new();
        Self::push_line_str(&mut line, "UUID: ");
        let uuid_hex = crate::textenc::digest_to_hex(uuid.as_slice());
        Self::push_line_str(&mut line, uuid_hex.as_str());
        self.log(crate::strutil::chars_to_string(&line));

        let mut line: Vec<char> = Vec::new();
        Self::push_line_str(&mut line, "Checksum: ");
        let csum_hex = crate::textenc::digest_to_hex(csum.as_slice());
        Self::push_line_str(&mut line, csum_hex.as_str());
        self.log(crate::strutil::chars_to_string(&line));

        let mut line: Vec<char> = Vec::new();
        Self::push_line_str(&mut line, "Size: ");
        crate::textenc::push_dec_u128(&mut line, size as u128);
        self.log(crate::strutil::chars_to_string(&line));

        let mut line: Vec<char> = Vec::new();
        Self::push_line_str(&mut line, "Chunk count: ");
        crate::textenc::push_dec_u128(&mut line, chunk_count as u128);
        self.log(crate::strutil::chars_to_string(&line));

        if size == 0 || chunk_count == 0 {
            proof {
                assert(self.log_view() =~= log0 + lines);
            }
            return ;
        }
        let mut line: Vec<char> = Vec::new();
        Self::push_line_str(&mut line, "Upload size: ");
        crate::textenc::push_dec_u128(&mut line, upload_stat.size as u128);
        Self::push_line_str(&mut line, " (");
        let upload_pct: u128 = (upload_stat.size as u128) * 100 / (size as u128);
        crate::textenc::push_dec_u128(&mut line, upload_pct);
        Self::push_line_str(&mut line, "%)");
        self.log(crate::strutil::chars_to_string(&line));

        let client_side_duplicates: u64 = if chunk_count >= upload_stat.count {
            chunk_count - upload_stat.count
        } else {
            0
        };
        let server_side_duplicates = upload_stat.duplicates;
        if client_side_duplicates as u128 + server_side_duplicates as u128 > 0 {
            let total: u128 = client_side_duplicates as u128 + server_side_duplicates as u128;
            let per: u128 = total * 100 / (chunk_count as u128);
            let mut line: Vec<char> = Vec::new();
            Self::push_line_str(&mut line, "Duplicates: ");
            crate::textenc::push_dec_u128(&mut line, client_side_duplicates as u128);
            Self::push_line_str(&mut line, "+");
            crate::textenc::push_dec_u128(&mut line, server_side_duplicates as u128);
            Self::push_line_str(&mut line, " (");
            crate::textenc::push_dec_u128(&mut line, per);
            Self::push_line_str(&mut line, "%)");
            self.log(crate::strutil::chars_to_string(&line));
        }
        if upload_stat.size > 0 {
            let ratio: u128 = (upload_stat.compressed_size as u128) * 100 / (
            upload_stat.size as u128);
            let mut line: Vec<char> = Vec::new();
            Self::push_line_str(&mut line, "Compression: ");
            crate::textenc::push_dec_u128(&mut line, ratio);
            Self::push_line_str(&mut line, "%");
            self.log(crate::strutil::chars_to_string(&line));
        }
        proof {
            assert(self.log_view() =~= log0 + lines);
        }
    }

    /// When a dynamic close succeeds: the session is live, the writer
    /// exists, and the named count and size match what it observed.
    pub open spec fn dynamic_close_ok(&self, wid: int, chunk_count: u64, size: u64) -> bool {
        &&& !self.finished()
        &&& self.dyn_writers().dom().contains(wid)
        &&& chunk_count == self.dyn_writers()[wid].chunk_count
        &&& size == self.dyn_writers()[wid].offset
        &&& self.file_counter() < usize::MAX
    }

    pub open spec fn dynamic_close_err(&self, wid: int, chunk_count: u64, size: u64) -> BackupError {
        if self.finished() {
            BackupError::AlreadyFinished
        } else if !self.dyn_writers().dom().contains(wid) {
            BackupError::UnknownWriter
        } else if chunk_count != self.dyn_writers()[wid].chunk_count {
            BackupError::UnexpectedChunkCount
        } else if size != self.dyn_writers()[wid].offset {
            BackupError::UnexpectedFileSize
        } else {
            BackupError::CounterOverflow
        }
    }

    /// Close a dynamic writer: take the writer out of the session, verify
    /// the client's view of the upload, commit the index trailer, log the
    /// upload statistics, and count the finished file. The writer is
    /// deregistered before the checks, so a close with a wrong count or
    /// size loses the writer; per-operation errors are not rolled back.
    /// Returns the index checksum with the serialized records for the
    /// caller to persist.
    pub fn dynamic_writer_close(&mut self, wid: usize, chunk_count: u64, size: u64) -> (r:
        Result<([u8; 32], Vec<u8>), BackupError>)
        requires
            old(self).inv(),
        ensures
            final(self).inv(),
            r is Ok <==> old(self).dynamic_close_ok(wid as int, chunk_count, size),
            match r {
                Ok((csum, payload)) => {
                    let w = old(self).dyn_writers()[wid as int];
                    &&& csum@ == sha256_of(dynamic_index_payload(w.index.entries()))
                    &&& payload@ == dynamic_index_payload(w.index.entries())
                    &&& final(self).dyn_writers() == old(self).dyn_writers().remove(
                        wid as int,
                    )
                    &&& final(self).file_counter() == old(self).file_counter() + 1
                    &&& final(self).log_view() == old(self).log_view() + upload_stat_lines(
                        w.name@,
                        w.index.spec_uuid(),
                        csum@,
                        size,
                        chunk_count,
                        w.upload_stat,
                    )
                    &&& final(self).finished() == old(self).finished()
                    &&& final(self).uid_counter() == old(self).uid_counter()
                    &&& final(self).known() == old(self).known()
                    &&& final(self).fixed_writers() == old(self).fixed_writers()
                },
                Err(e) => {
                    &&& e == old(self).dynamic_close_err(wid as int, chunk_count, size)
                    &&& final(self).dyn_writers() == (if e == BackupError::AlreadyFinished
                        || e == BackupError::UnknownWriter {
                        old(self).dyn_writers()
                    } else {
                        old(self).dyn_writers().remove(wid as int)
                    })
                    &&& final(self).finished() == old(self).finished()
                    &&& final(self).uid_counter() == old(self).uid_counter()
                    &&& final(self).file_counter() == old(self).file_counter()
                    &&& final(self).known() == old(self).known()
                    &&& final(self).fixed_writers() == old(self).fixed_writers()
                    &&& final(self).log_view() == old(self).log_view()
                    &&& final(self).spec_user() == old(self).spec_user()
                    &&& final(self).spec_debug() == old(self).spec_debug()
                },
            },
    {
        if self.state.finished {
            return Err(BackupError::AlreadyFinished);
        }
        let i = match self.find_dynamic(wid) {
            Some(i) => {
                proof {
                    lemma_dyn_map_contains(self.state.dynamic_writers@, i as int);
                }
                i
            },
            None => {
                proof {
                    lemma_dyn_map_absent(self.state.dynamic_writers@, wid as int);
                }
                return Err(BackupError::UnknownWriter);
            },
        };
        let ghost s = self.state.dynamic_writers@;
        let w = self.state.dynamic_writers.remove(i);
        proof {
            lemma_dyn_map_remove(s, i as int);
            assert(forall|j: int|
                0 <= j < s.remove(i as int).len() ==> #[trigger] s.remove(i as int)[j] == (
                if j < i {
                    s[j]
                } else {
                    s[j + 1]
                }));
        }
        if w.chunk_count != chunk_count {
            return Err(BackupError::UnexpectedChunkCount);
        }
        if w.offset != size {
            return Err(BackupError::UnexpectedFileSize);
        }
        if self.state.file_counter == usize::MAX {
            return Err(BackupError::CounterOverflow);
        }
        let uuid = w.index.uuid();
        let name = w.name;
        let upload_stat = w.upload_stat;
        let (csum, payload) = w.index.close();
        self.log_upload_stat(name.as_str(), &csum, &uuid, size, chunk_count, &upload_stat);
        self.state.file_counter += 1;
        Ok((csum, payload))
    }

    /// When a fixed close succeeds: the session is live, the writer
    /// exists, the named count matches both the writer's count and the
    /// declared index length, and the named size matches the declared one.
    pub open spec fn fixed_close_ok(&self, wid: int, chunk_count: u64, size: u64) -> bool {
        &&& !self.finished()
        &&& self.fixed_writers().dom().contains(wid)
        &&& chunk_count == self.fixed_writers()[wid].chunk_count
        &&& chunk_count == self.fixed_writers()[wid].index.slot_view().len()
        &&& size == self.fixed_writers()[wid].size
        &&& self.file_counter() < usize::MAX
    }

    pub open spec fn fixed_close_err(&self, wid: int, chunk_count: u64, size: u64) -> BackupError {
        if self.finished() {
            BackupError::AlreadyFinished
        } else if !self.fixed_writers().dom().contains(wid) {
            BackupError::UnknownWriter
        } else if chunk_count != self.fixed_writers()[wid].chunk_count || chunk_count
            != self.fixed_writers()[wid].index.slot_view().len() {
            BackupError::UnexpectedChunkCount
        } else if size != self.fixed_writers()[wid].size {
            BackupError::UnexpectedFileSize
        } else {
            BackupError::CounterOverflow
        }
    }

    /// Close a fixed writer: take the writer out of the session, verify
    /// the client's view of the upload, check that every slot was
    /// written, commit the index trailer, log the upload statistics, and
    /// count the finished file. The writer is deregistered before the
    /// checks, so a close with a wrong count or size loses the writer;
    /// per-operation errors are not rolled back. Returns the index
    /// checksum with the serialized digest array.
    pub fn fixed_writer_close(&mut self, wid: usize, chunk_count: u64, size: u64) -> (r: Result<
        ([u8; 32], Vec<u8>),
        BackupError,
    >)
        requires
            old(self).inv(),
        ensures
            final(self).inv(),
            r is Ok <==> old(self).fixed_close_ok(wid as int, chunk_count, size),
            match r {
                Ok((csum, payload)) => {
                    let w = old(self).fixed_writers()[wid as int];
                    let digests = Seq::new(
                        w.index.slot_view().len(),
                        |i: int| w.index.slot_view()[i]->Some_0,
                    );
                    &&& csum@ == sha256_of(fixed_index_payload(digests))
                    &&& payload@ == fixed_index_payload(digests)
                    &&& final(self).fixed_writers() == old(self).fixed_writers().remove(
                        wid as int,
                    )
                    &&& final(self).file_counter() == old(self).file_counter() + 1
                    &&& final(self).log_view() == old(self).log_view() + upload_stat_lines(
                        w.name@,
                        w.index.spec_uuid(),
                        csum@,
                        size,
                        chunk_count,
                        w.upload_stat,
                    )
                    &&& final(self).finished() == old(self).finished()
                    &&& final(self).uid_counter() == old(self).uid_counter()
                    &&& final(self).known() == old(self).known()
                    &&& final(self).dyn_writers() == old(self).dyn_writers()
                },
                Err(e) => {
                    &&& e == old(self).fixed_close_err(wid as int, chunk_count, size)
                    &&& final(self).fixed_writers() == (if e == BackupError::AlreadyFinished
                        || e == BackupError::UnknownWriter {
                        old(self).fixed_writers()
                    } else {
                        old(self).fixed_writers().remove(wid as int)
                    })
                    &&& final(self).finished() == old(self).finished()
                    &&& final(self).uid_counter() == old(self).uid_counter()
                    &&& final(self).file_counter() == old(self).file_counter()
                    &&& final(self).known() == old(self).known()
                    &&& final(self).dyn_writers() == old(self).dyn_writers()
                    &&& final(self).log_view() == old(self).log_view()
                    &&& final(self).spec_user() == old(self).spec_user()
                    &&& final(self).spec_debug() == old(self).spec_debug()
                },
            },
    {
        if self.state.finished {
            return Err(BackupError::AlreadyFinished);
        }
        let i = match self.find_fixed(wid) {
            Some(i) => {
                proof {
                    lemma_fixed_map_contains(self.state.fixed_writers@, i as int);
                }
                i
            },
            None => {
                proof {
                    lemma_fixed_map_absent(self.state.fixed_writers@, wid as int);
                }
                return Err(BackupError::UnknownWriter);
            },
        };
        let ghost s = self.state.fixed_writers@;
        let w = self.state.fixed_writers.remove(i);
        proof {
            lemma_fixed_map_remove(s, i as int);
            assert(forall|j: int|
                0 <= j < s.remove(i as int).len() ==> #[trigger] s.remove(i as int)[j] == (
                if j < i {
                    s[j]
                } else {
                    s[j + 1]
                }));
        }
        if w.chunk_count != chunk_count {
            return Err(BackupError::UnexpectedChunkCount);
        }
        let expected_count = w.index.index_length();
        if chunk_count != expected_count as u64 {
            return Err(BackupError::UnexpectedChunkCount);
        }
        if size != w.size as u64 {
            return Err(BackupError::UnexpectedFileSize);
        }
        if self.state.file_counter == usize::MAX {
            return Err(BackupError::CounterOverflow);
        }
        proof {
            crate::index::lemma_count_written_full(w.index.slot_view());
        }
        let uuid = w.index.uuid();
        let name = w.name;
        let upload_stat = w.upload_stat;
        let close_result = w.index.close();
        let (csum, payload) = match close_result {
            Ok(p) => p,
            Err(_) => {
                proof {
                    assert(false);
                }
                return Err(BackupError::CounterOverflow);
            },
        };
        self.log_upload_stat(name.as_str(), &csum, &uuid, size, chunk_count, &upload_stat);
        self.state.file_counter += 1;
        Ok((csum, payload))
    }

    /// Store an ancillary file (manifest, signature, key) as a blob.
    ///
    /// The data is taken as already prepared; the server computes its own
    /// checksum over the raw bytes and returns it for the caller to frame
    /// and persist. Counts one finished file.
    pub fn add_blob(&mut self, file_name: &str, data: &[u8]) -> (r: Result<u32, BackupError>)
        requires
            old(self).inv(),
        ensures
            final(self).inv(),
            r is Ok <==> (!old(self).finished() && old(self).file_counter() < usize::MAX),
            match r {
                Ok(crc) => {
                    &&& crc == crate::crc32::crc32_spec(data@)
                    &&& final(self).file_counter() == old(self).file_counter() + 1
                    &&& final(self).log_view() == old(self).log_view().push(
                        blob_log_line(file_name@, data@.len() as nat),
                    )
                    &&& final(self).finished() == old(self).finished()
                    &&& final(self).uid_counter() == old(self).uid_counter()
                    &&& final(self).known() == old(self).known()
                    &&& final(self).dyn_writers() == old(self).dyn_writers()
                    &&& final(self).fixed_writers() == old(self).fixed_writers()
                },
                Err(e) => {
                    &&& e == (if old(self).finished() {
                        BackupError::AlreadyFinished
                    } else {
                        BackupError::CounterOverflow
                    })
                    &&& Self::state_unchanged(old(self), final(self))
                },
            },
    {
        if self.state.finished {
            return Err(BackupError::AlreadyFinished);
        }
        if self.state.file_counter == usize::MAX {
            return Err(BackupError::CounterOverflow);
        }
        let crc = crate::crc32::crc32(data);
        let mut line: Vec<char> = Vec::new();
        Self::push_line_str(&mut line, "add blob '");
        Self::push_line_str(&mut line, file_name);
        Self::push_line_str(&mut line, "' (");
        crate::textenc::push_dec_u128(&mut line, data.len() as u128);
        Self::push_line_str(&mut line, " bytes)");
        self.log(crate::strutil::chars_to_string(&line));
        self.state.file_counter += 1;
        Ok(crc)
    }

    /// Mark the backup as finished.
    ///
    /// Requires every writer closed and at least one uploaded file; after
    /// success the snapshot is committed and every further mutation fails.
    pub fn finish_backup(&mut self) -> (r: Result<(), BackupError>)
        requires
            old(self).inv(),
        ensures
            final(self).inv(),
            match r {
                Ok(()) => {
                    &&& !old(self).finished()
                    &&& old(self).dyn_writers() =~= Map::<int, DynamicWriterState>::empty()
                    &&& old(self).fixed_writers() =~= Map::<int, FixedWriterState>::empty()
                    &&& old(self).file_counter() > 0
                    &&& final(self).finished()
                    &&& final(self).uid_counter() == old(self).uid_counter()
                    &&& final(self).file_counter() == old(self).file_counter()
                    &&& final(self).known() == old(self).known()
                    &&& final(self).dyn_writers() == old(self).dyn_writers()
                    &&& final(self).fixed_writers() == old(self).fixed_writers()
                    &&& final(self).log_view() == old(self).log_view()
                },
                Err(e) => {
                    &&& Self::state_unchanged(old(self), final(self))
                    &&& e == (if old(self).finished() {
                        BackupError::AlreadyFinished
                    } else if old(self).dyn_writers().dom() != Set::<int>::empty()
                        || old(self).fixed_writers().dom() != Set::<int>::empty() {
                        BackupError::OpenIndexWriter
                    } else {
                        BackupError::NoFilesUploaded
                    })
                },
            },
            r is Ok <==> (!old(self).finished() && old(self).dyn_writers().dom()
                =~= Set::<int>::empty() && old(self).fixed_writers().dom()
                =~= Set::<int>::empty() && old(self).file_counter() > 0),
    {
        if self.state.finished {
            return Err(BackupError::AlreadyFinished);
        }
        if self.state.dynamic_writers.len() != 0 {
            proof {
                let s = self.state.dynamic_writers@;
                lemma_dyn_map_contains(s, 0);
                assert(self.dyn_writers().dom().contains(s[0].wid as int));
            }
            return Err(BackupError::OpenIndexWriter);
        }
        if self.state.fixed_writers.len() != 0 {
            proof {
                let s = self.state.fixed_writers@;
                lemma_fixed_map_contains(s, 0);
                assert(self.fixed_writers().dom().contains(s[0].wid as int));
                assert(self.dyn_writers() =~= Map::<int, DynamicWriterState>::empty());
            }
            return Err(BackupError::OpenIndexWriter);
        }
        proof {
            assert(self.dyn_writers() =~= Map::<int, DynamicWriterState>::empty());
            assert(self.fixed_writers() =~= Map::<int, FixedWriterState>::empty());
        }
        if self.state.file_counter == 0 {
            return Err(BackupError::NoFilesUploaded);
        }
        self.state.finished = true;
        Ok(())
    }

    /// Fail unless the finished flag is set; called at session teardown to
    /// detect a client that disconnected without finalizing.
    pub fn ensure_finished(&self) -> (r: Result<(), BackupError>)
        ensures
            r is Ok <==> self.finished(),
            r is Err ==> r->Err_0 == BackupError::NotFinished,
    {
        if !self.state.finished {
            return Err(BackupError::NotFinished);
        }
        Ok(())
    }

    /// Abort the backup: latch `finished` so no further mutation succeeds.
    /// The caller then deletes the snapshot directory.
    pub fn remove_backup(&mut self)
        requires
            old(self).inv(),
        ensures
            final(self).inv(),
            final(self).finished(),
            final(self).uid_counter() == old(self).uid_counter(),
            final(self).file_counter() == old(self).file_counter(),
            final(self).known() == old(self).known(),
            final(self).dyn_writers() == old(self).dyn_writers(),
            final(self).fixed_writers() == old(self).fixed_writers(),
            final(self).log_view() == old(self).log_view(),
    {
        self.state.finished = true;
    }
}

/// A writer id present in the map view comes from some vector position.
pub proof fn lemma_fixed_map_elem(s: Seq<FixedWriterState>, wid: int)
    requires
        fixed_writer_map(s).dom().contains(wid),
    ensures
        exists|i: int|
            0 <= i < s.len() && (#[trigger] s[i]).wid == wid && fixed_writer_map(s)[wid] == s[i],
    decreases s.len(),
{
    if s.len() > 0 {
        if s.last().wid == wid {
            assert(s[s.len() - 1].wid == wid && fixed_writer_map(s)[wid] == s[s.len() - 1]);
        } else {
            lemma_fixed_map_elem(s.drop_last(), wid);
            let i = choose|i: int|
                0 <= i < s.drop_last().len() && (#[trigger] s.drop_last()[i]).wid == wid
                    && fixed_writer_map(s.drop_last())[wid] == s.drop_last()[i];
            assert(s[i].wid == wid && fixed_writer_map(s)[wid] == s[i]);
        }
    }
}

// ---------------------------------------------------------------------
// session-level laws
// ---------------------------------------------------------------------
/// A whole sequence of dynamic appends, each accepted under the offset
/// discipline of `dynamic_writer_append_chunk`: every append starts at
/// the running offset, carries a non-empty chunk, and stays in range.
pub open spec fn dynamic_append_sequence_ok(start: u64, appends: Seq<(u64, u32)>) -> bool
    decreases appends.len(),
{
    if appends.len() == 0 {
        true
    } else {
        &&& appends.first().0 == start
        &&& appends.first().1 > 0
        &&& start + appends.first().1 <= u64::MAX
        &&& dynamic_append_sequence_ok(
            (start + appends.first().1) as u64,
            appends.drop_first(),
        )
    }
}

/// Sum of the sizes of a sequence of appends.
pub open spec fn sum_sizes(appends: Seq<(u64, u32)>) -> int
    decreases appends.len(),
{
    if appends.len() == 0 {
        0
    } else {
        appends.first().1 + sum_sizes(appends.drop_first())
    }
}

/// Dynamic monotonicity: a sequence of appends to one dynamic writer is
/// accepted as a whole exactly when each offset is the sum of the sizes
/// before it, every size is positive, and the total stays in range — and
/// then the writer's final offset is the sum of all sizes.
pub proof fn lemma_dynamic_monotonicity(start: u64, appends: Seq<(u64, u32)>)
    ensures
        dynamic_append_sequence_ok(start, appends) <==> ({
            &&& forall|k: int|
                0 <= k < appends.len() ==> (#[trigger] appends[k]).0 == start + sum_sizes(
                    appends.take(k),
                )
            &&& forall|k: int| 0 <= k < appends.len() ==> (#[trigger] appends[k]).1 > 0
            &&& start + sum_sizes(appends) <= u64::MAX
        }),
        sum_sizes(appends) >= 0,
    decreases appends.len(),
{
    assert(sum_sizes(appends.take(0)) == 0);
    if appends.len() == 0 {
    } else {
        let head = appends.first();
        let tail = appends.drop_first();
        let start1 = start + head.1;
        lemma_dynamic_monotonicity((if start1 <= u64::MAX {
            start1 as u64
        } else {
            0u64
        }), tail);
        if start1 <= u64::MAX {
            lemma_dynamic_monotonicity(start1 as u64, tail);
            assert forall|k: int| 0 <= k < tail.len() implies sum_sizes(tail.take(k)) + head.1
                == sum_sizes(appends.take(k + 1)) by {
                lemma_sum_sizes_cons(appends, k + 1);
            }
            lemma_sum_sizes_cons(appends, appends.len() as int);
            assert(appends.take(appends.len() as int) =~= appends);
            if dynamic_append_sequence_ok(start, appends) {
                assert forall|k: int| 0 <= k < appends.len() implies (
                #[trigger] appends[k]).0 == start + sum_sizes(appends.take(k)) by {
                    if k > 0 {
                        assert(appends[k] == tail[k - 1]);
                        assert(tail[k - 1].0 == start1 + sum_sizes(tail.take(k - 1)));
                    }
                }
                assert forall|k: int| 0 <= k < appends.len() implies (
                #[trigger] appends[k]).1 > 0 by {
                    if k == 0 {
                        assert(appends[0] == head);
                    } else {
                        assert(appends[k] == tail[k - 1]);
                        assert(tail[k - 1].1 > 0);
                    }
                }
            }
            if ({
                &&& forall|k: int|
                    0 <= k < appends.len() ==> (#[trigger] appends[k]).0 == start + sum_sizes(
                        appends.take(k),
                    )
                &&& forall|k: int| 0 <= k < appends.len() ==> (#[trigger] appends[k]).1 > 0
                &&& start + sum_sizes(appends) <= u64::MAX
            }) {
                assert(appends[0] == head);
                assert forall|k: int| 0 <= k < tail.len() implies (#[trigger] tail[k]).0
                    == start1 + sum_sizes(tail.take(k)) && tail[k].1 > 0 by {
                    assert(tail[k] == appends[k + 1]);
                }
                lemma_sum_sizes_nonneg(tail);
                assert(start1 + sum_sizes(tail) <= u64::MAX);
                assert(dynamic_append_sequence_ok(start1 as u64, tail));
            }
        } else {
            // the very first append already leaves the 64-bit range
            lemma_sum_sizes_nonneg(tail);
            lemma_sum_sizes_cons(appends, appends.len() as int);
            assert(appends.take(appends.len() as int) =~= appends);
            assert(!dynamic_append_sequence_ok(start, appends));
            assert(start + sum_sizes(appends) > u64::MAX);
        }
        lemma_sum_sizes_nonneg(appends);
    }
}

pub proof fn lemma_sum_sizes_nonneg(appends: Seq<(u64, u32)>)
    ensures
        sum_sizes(appends) >= 0,
    decreases appends.len(),
{
    if appends.len() > 0 {
        lemma_sum_sizes_nonneg(appends.drop_first());
    }
}

/// Splitting the first append off a prefix sum.
proof fn lemma_sum_sizes_cons(appends: Seq<(u64, u32)>, k: int)
    requires
        1 <= k <= appends.len(),
    ensures
        sum_sizes(appends.take(k)) == appends.first().1 + sum_sizes(
            appends.drop_first().take(k - 1),
        ),
    decreases appends.len(),
{
    let t = appends.take(k);
    assert(t.first() == appends.first());
    assert(t.drop_first() =~= appends.drop_first().take(k - 1));
}

/// Fixed alignment: a fixed append is accepted exactly when the chunk
/// starts on a chunk-size boundary inside the declared size and is
/// full-size, except that the terminal chunk may be short. The companion
/// rule — at most one short chunk per writer — is enforced when the
/// chunk is registered, and `lemma_one_small_chunk` states it as an
/// invariant of every live writer.
pub proof fn lemma_fixed_alignment(w: FixedWriterState, offset: u64, size: u32)
    requires
        fixed_writer_wf(w),
    ensures
        w.index.chunk_aligned(offset + size, size as int) <==> ({
            &&& 0 < size
            &&& size <= w.chunk_size
            &&& offset % (w.chunk_size as u64) == 0
            &&& offset + size <= w.size
            &&& (size == w.chunk_size || offset + size == w.size)
        }),
{
    assert(offset + size - size == offset);
    if w.index.chunk_aligned(offset + size, size as int) {
        assert((offset + size - size) % w.index.spec_chunk_size() == 0);
        assert(offset % (w.chunk_size as u64) == (offset as int) % (w.chunk_size as int))
            by (nonlinear_arith)
            requires
                w.chunk_size > 0,
        ;
    } else {
        assert(offset % (w.chunk_size as u64) == (offset as int) % (w.chunk_size as int))
            by (nonlinear_arith)
            requires
                w.chunk_size > 0,
        ;
    }
}

/// Every live fixed writer has accepted at most one short chunk.
pub proof fn lemma_one_small_chunk(env: BackupEnvironment, wid: int)
    requires
        env.inv(),
        env.fixed_writers().dom().contains(wid),
    ensures
        env.fixed_writers()[wid].small_chunk_count <= 1,
{
    lemma_fixed_map_elem(env.spec_fixed_writer_seq(), wid);
}

/// Finalization gate: once `finish_backup` has latched the session, no
/// chunk or writer operation can meet its success condition any more.
pub proof fn lemma_finalization_gate(
    env: BackupEnvironment,
    wid: int,
    offset: u64,
    size: u32,
    compressed_size: u32,
    chunk_count: u64,
    file_size: u64,
)
    requires
        env.finished(),
    ensures
        !env.register_fixed_ok(wid, size, compressed_size),
        !env.register_dynamic_ok(wid, size, compressed_size),
        !env.dynamic_append_ok(wid, offset, size),
        !env.fixed_append_ok(wid, offset, size),
        !env.dynamic_close_ok(wid, chunk_count, file_size),
        !env.fixed_close_ok(wid, chunk_count, file_size),
{
}

/// An index whose digests are all known chunks.
pub open spec fn writer_digests_known(
    entries: Seq<(u64, Seq<u8>)>,
    known: Map<Seq<u8>, u32>,
) -> bool {
    forall|i: int| 0 <= i < entries.len() ==> known.dom().contains((#[trigger] entries[i]).1)
}

/// Known-chunk closure: if every digest of an index was known when it
/// was appended, and the known-chunk table only ever grows — as every
/// session operation guarantees — then at close time every digest the
/// index references is in the known table.
pub proof fn lemma_known_chunk_closure(
    entries: Seq<(u64, Seq<u8>)>,
    entry: (u64, Seq<u8>),
    known0: Map<Seq<u8>, u32>,
    known1: Map<Seq<u8>, u32>,
)
    requires
        writer_digests_known(entries, known0),
        known0.dom().subset_of(known1.dom()),
        known1.dom().contains(entry.1),
    ensures
        writer_digests_known(entries.push(entry), known1),
{
    let e = entries.push(entry);
    assert forall|i: int| 0 <= i < e.len() implies known1.dom().contains(
        (#[trigger] e[i]).1,
    ) by {
        if i < entries.len() {
            assert(e[i] == entries[i]);
            assert(known0.dom().contains(entries[i].1));
        } else {
            assert(e[i] == entry);
        }
    }
}

pub proof fn lemma_fixed_map_remove(s: Seq<FixedWriterState>, i: int)
    requires
        0 <= i < s.len(),
        fixed_wids_unique(s),
    ensures
        fixed_writer_map(s.remove(i)) =~= fixed_writer_map(s).remove(s[i].wid as int),
        fixed_wids_unique(s.remove(i)),
    decreases s.len(),
{
    let t = s.remove(i);
    assert(fixed_wids_unique(t)) by {
        assert(forall|a: int|
            0 <= a < t.len() ==> #[trigger] t[a] == (if a < i {
                s[a]
            } else {
                s[a + 1]
            }));
    }
    if i == s.len() - 1 {
        assert(t =~= s.drop_last());
        assert(fixed_wids_unique(s.drop_last())) by {
            assert(forall|a: int, b: int|
                0 <= a < b < s.len() - 1 ==> s.drop_last()[a] == s[a] && s.drop_last()[b]
                    == s[b]);
        }
        lemma_fixed_map_absent(s.drop_last(), s[i].wid as int);
    } else {
        assert(fixed_wids_unique(s.drop_last())) by {
            assert(forall|a: int, b: int|
                0 <= a < b < s.len() - 1 ==> s.drop_last()[a] == s[a] && s.drop_last()[b]
                    == s[b]);
        }
        assert(s.drop_last()[i] == s[i]);
        lemma_fixed_map_remove(s.drop_last(), i);
        assert(t.drop_last() =~= s.drop_last().remove(i));
        assert(t.last() == s.last());
        assert(s[i].wid != s.last().wid);
    }
}

} // verus!
