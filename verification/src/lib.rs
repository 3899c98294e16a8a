//! Core logic of a content-addressed, deduplicating backup server: the
//! per-connection backup session state machine with its fixed and dynamic
//! index writers, the worker-task registry with its UPID tags, and the
//! SCSI tape transport layer (command blocks, sense decoding, positioning).

use vstd::prelude::*;

pub mod crc32;
pub mod digest;
pub mod environment;
pub mod index;
pub mod notify;
pub mod strutil;
pub mod tape;
pub mod tape_drive;
pub mod textenc;
pub mod tools;
pub mod upid;
pub mod worker;

verus! {

/// Compare two 32-byte digests for byte equality.
pub fn digests_equal(a: &[u8; 32], b: &[u8; 32]) -> (r: bool)
    ensures
        r <==> a@ == b@,
{
    let mut i: usize = 0;
    while i < 32
        invariant
            i <= 32,
            forall|j: int| 0 <= j < i ==> a@[j] == b@[j],
        decreases 32 - i,
    {
        if a[i] != b[i] {
            assert(a@[i as int] != b@[i as int]);
            return false;
        }
        i += 1;
    }
    assert(a@ =~= b@);
    true
}

} // verus!
