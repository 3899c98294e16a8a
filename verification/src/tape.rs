//! The SCSI tape wire surface: command descriptor blocks for the LTO
//! command set, sense-code classification, and decoding of the long-form
//! read-position page. Every builder is bit-exact against the command
//! set; the device pass-through only carries these bytes.

use vstd::prelude::*;

verus! {

/// The sense triple a failed SCSI command reports.
#[derive(Clone, Copy, Debug, PartialEq, Eq, Structural)]
pub struct SenseInfo {
    pub sense_key: u8,
    pub asc: u8,
    pub ascq: u8,
}

/// A failed SCSI command: either structured sense data or another
/// transport failure.
#[derive(Clone, Copy, Debug, PartialEq, Eq, Structural)]
pub enum ScsiError {
    Sense(SenseInfo),
    Transport,
}

#[derive(Clone, Copy, Debug, PartialEq, Eq, Structural)]
pub enum TapeError {
    /// The device returned a page of unexpected length.
    UnexpectedPageSize,
    /// The tape is partitioned, which the driver does not support.
    PartitionedTape,
    /// A block larger than the transfer limit was requested.
    BlockTooLarge,
    /// More filemarks at once than the command can carry.
    TooManyFilemarks,
    /// A position beyond the recorded filemarks was requested.
    NoSuchFile,
    /// The opened device is not a sequential-access (tape) device.
    NotSequentialAccess,
}

/// Filemark encountered: end of a tape file while reading.
pub open spec fn is_eof_sense(s: SenseInfo) -> bool {
    s.sense_key == 0 && s.asc == 0 && s.ascq == 1
}

/// Logical end of medium: the early warning near the end of tape.
pub open spec fn is_leom_sense(s: SenseInfo) -> bool {
    s.sense_key == 0 && s.asc == 0 && s.ascq == 2
}

/// End of data: no further recorded object.
pub open spec fn is_eos_sense(s: SenseInfo) -> bool {
    s.sense_key == 8 && s.asc == 0 && s.ascq == 5
}

/// What a raw variable-block read reported.
#[derive(Clone, Copy, Debug, PartialEq, Eq, Structural)]
pub enum BlockReadStatus {
    Data(usize),
    EndOfFile,
    EndOfStream,
}

/// Reclassify the outcome of a WRITE or WRITE FILEMARKS command: the
/// early-warning sense means the operation succeeded with the drive
/// near the end of the tape, reported as `Ok(true)`; every other sense
/// stays an error.
pub fn classify_write_result(r: Result<(), ScsiError>) -> (out: Result<bool, ScsiError>)
    ensures
        out == (match r {
            Ok(()) => Ok::<bool, ScsiError>(false),
            Err(ScsiError::Sense(s)) => if is_leom_sense(s) {
                Ok::<bool, ScsiError>(true)
            } else {
                Err::<bool, ScsiError>(ScsiError::Sense(s))
            },
            Err(e) => Err::<bool, ScsiError>(e),
        }),
{
    match r {
        Ok(()) => Ok(false),
        Err(ScsiError::Sense(s)) => {
            if s.sense_key == 0 && s.asc == 0 && s.ascq == 2 {
                Ok(true)
            } else {
                Err(ScsiError::Sense(s))
            }
        },
        Err(e) => Err(e),
    }
}

/// Reclassify the outcome of a READ command: the filemark sense is the
/// normal end of a tape file, the end-of-data sense the normal end of
/// the recorded stream; every other sense stays an error.
pub fn classify_read_result(r: Result<usize, ScsiError>) -> (out: Result<
    BlockReadStatus,
    ScsiError,
>)
    ensures
        out == (match r {
            Ok(n) => Ok::<BlockReadStatus, ScsiError>(BlockReadStatus::Data(n)),
            Err(ScsiError::Sense(s)) => if is_eof_sense(s) {
                Ok::<BlockReadStatus, ScsiError>(BlockReadStatus::EndOfFile)
            } else if is_eos_sense(s) {
                Ok::<BlockReadStatus, ScsiError>(BlockReadStatus::EndOfStream)
            } else {
                Err::<BlockReadStatus, ScsiError>(ScsiError::Sense(s))
            },
            Err(e) => Err::<BlockReadStatus, ScsiError>(e),
        }),
{
    match r {
        Ok(n) => Ok(BlockReadStatus::Data(n)),
        Err(ScsiError::Sense(s)) => {
            if s.sense_key == 0 && s.asc == 0 && s.ascq == 1 {
                Ok(BlockReadStatus::EndOfFile)
            } else if s.sense_key == 8 && s.asc == 0 && s.ascq == 5 {
                Ok(BlockReadStatus::EndOfStream)
            } else {
                Err(ScsiError::Sense(s))
            }
        },
        Err(e) => Err(e),
    }
}

/// What a raw variable-block READ can fail with at the driver's level:
/// a buffer over the transfer limit, a clean transfer of the wrong
/// length, or an unclassified command failure.
#[derive(Clone, Copy, Debug, PartialEq, Eq, Structural)]
pub enum BlockReadError {
    BufferTooLarge,
    UnexpectedBlockLength,
    Command(ScsiError),
}

/// Decide the outcome of one variable-block READ, as the driver does:
/// a buffer over the transfer limit is rejected before any command is
/// issued; the filemark and end-of-data senses are the normal ends of
/// file and stream; a clean transfer must return exactly the requested
/// length, and any other length is an error.
pub fn read_block_outcome(buffer_len: usize, r: Result<usize, ScsiError>) -> (out: Result<
    BlockReadStatus,
    BlockReadError,
>)
    ensures
        out == (if buffer_len > 0xFFFFFF {
            Err::<BlockReadStatus, BlockReadError>(BlockReadError::BufferTooLarge)
        } else {
            match r {
                Ok(n) => if n == buffer_len {
                    Ok::<BlockReadStatus, BlockReadError>(BlockReadStatus::Data(n))
                } else {
                    Err::<BlockReadStatus, BlockReadError>(
                        BlockReadError::UnexpectedBlockLength,
                    )
                },
                Err(ScsiError::Sense(s)) => if is_eof_sense(s) {
                    Ok::<BlockReadStatus, BlockReadError>(BlockReadStatus::EndOfFile)
                } else if is_eos_sense(s) {
                    Ok::<BlockReadStatus, BlockReadError>(BlockReadStatus::EndOfStream)
                } else {
                    Err::<BlockReadStatus, BlockReadError>(
                        BlockReadError::Command(ScsiError::Sense(s)),
                    )
                },
                Err(e) => Err::<BlockReadStatus, BlockReadError>(BlockReadError::Command(e)),
            }
        }),
{
    if buffer_len > 0xFFFFFF {
        return Err(BlockReadError::BufferTooLarge);
    }
    match classify_read_result(r) {
        Ok(BlockReadStatus::Data(n)) => {
            if n == buffer_len {
                Ok(BlockReadStatus::Data(n))
            } else {
                Err(BlockReadError::UnexpectedBlockLength)
            }
        },
        Ok(status) => Ok(status),
        Err(e) => Err(BlockReadError::Command(e)),
    }
}

/// The peripheral device type an INQUIRY response carries: the low
/// five bits of its first byte.
pub fn inquiry_peripheral_type(data: &[u8]) -> (r: Result<u8, TapeError>)
    ensures
        match r {
            Ok(t) => data@.len() >= 1 && t == data@[0] & 0x1F,
            Err(e) => e == TapeError::UnexpectedPageSize && data@.len() == 0,
        },
{
    if data.len() == 0 {
        return Err(TapeError::UnexpectedPageSize);
    }
    Ok(data[0] & 0x1F)
}

/// The check made at device open: only a sequential-access device —
/// peripheral type 1, a tape — is accepted.
pub fn check_sequential_access(peripheral_type: u8) -> (r: Result<(), TapeError>)
    ensures
        r is Ok <==> peripheral_type == 1,
        r is Err ==> r->Err_0 == TapeError::NotSequentialAccess,
{
    if peripheral_type != 1 {
        return Err(TapeError::NotSequentialAccess);
    }
    Ok(())
}

// ---------------------------------------------------------------------
// command descriptor blocks
// ---------------------------------------------------------------------
/// TEST UNIT READY.
pub fn test_unit_ready_cdb() -> (r: Vec<u8>)
    ensures
        r@ == seq![0x00u8, 0, 0, 0, 0, 0],
{
    let mut cmd: Vec<u8> = Vec::new();
    cmd.push(0x00);
    cmd.push(0);
    cmd.push(0);
    cmd.push(0);
    cmd.push(0);
    cmd.push(0);
    assert(cmd@ =~= seq![0x00u8, 0, 0, 0, 0, 0]);
    cmd
}

/// REWIND.
pub fn rewind_cdb() -> (r: Vec<u8>)
    ensures
        r@ == seq![0x01u8, 0, 0, 0, 0, 0],
{
    let mut cmd: Vec<u8> = Vec::new();
    cmd.push(0x01);
    cmd.push(0);
    cmd.push(0);
    cmd.push(0);
    cmd.push(0);
    cmd.push(0);
    assert(cmd@ =~= seq![0x01u8, 0, 0, 0, 0, 0]);
    cmd
}

/// ERASE; the LONG bit distinguishes a fast erase from overwriting.
pub fn erase_cdb(fast: bool) -> (r: Vec<u8>)
    ensures
        r@ == seq![
            0x19u8,
            (if fast {
                0u8
            } else {
                1u8
            }),
            0,
            0,
            0,
            0,
        ],
{
    let mut cmd: Vec<u8> = Vec::new();
    cmd.push(0x19);
    if fast {
        cmd.push(0);
    } else {
        cmd.push(1);
    }
    cmd.push(0);
    cmd.push(0);
    cmd.push(0);
    cmd.push(0);
    assert(cmd@ =~= seq![
        0x19u8,
        (if fast {
            0u8
        } else {
            1u8
        }),
        0,
        0,
        0,
        0,
    ]);
    cmd
}

/// FORMAT, single partition.
pub fn format_cdb() -> (r: Vec<u8>)
    ensures
        r@ == seq![0x04u8, 0, 0, 0, 0, 0],
{
    let mut cmd: Vec<u8> = Vec::new();
    cmd.push(0x04);
    cmd.push(0);
    cmd.push(0);
    cmd.push(0);
    cmd.push(0);
    cmd.push(0);
    assert(cmd@ =~= seq![0x04u8, 0, 0, 0, 0, 0]);
    cmd
}

/// LOAD/UNLOAD; the load bit controls the direction.
pub fn load_unload_cdb(load: bool) -> (r: Vec<u8>)
    ensures
        r@ == seq![
            0x1Bu8,
            0,
            0,
            0,
            (if load {
                1u8
            } else {
                0u8
            }),
            0,
        ],
{
    let mut cmd: Vec<u8> = Vec::new();
    cmd.push(0x1B);
    cmd.push(0);
    cmd.push(0);
    cmd.push(0);
    if load {
        cmd.push(1);
    } else {
        cmd.push(0);
    }
    cmd.push(0);
    assert(cmd@ =~= seq![
        0x1Bu8,
        0,
        0,
        0,
        (if load {
            1u8
        } else {
            0u8
        }),
        0,
    ]);
    cmd
}

/// READ POSITION, long form (service action 0x06).
pub fn read_position_cdb() -> (r: Vec<u8>)
    ensures
        r@ == seq![0x34u8, 0x06, 0, 0, 0, 0, 0, 0, 0, 0],
{
    let mut cmd: Vec<u8> = Vec::new();
    cmd.push(0x34);
    cmd.push(0x06);
    let mut i: usize = 0;
    while i < 8
        invariant
            i <= 8,
            cmd@ == seq![0x34u8, 0x06] + Seq::new(i as nat, |k: int| 0u8),
        decreases 8 - i,
    {
        cmd.push(0);
        assert(seq![0x34u8, 0x06] + Seq::new((i + 1) as nat, |k: int| 0u8) =~= (seq![
            0x34u8,
            0x06,
        ] + Seq::new(i as nat, |k: int| 0u8)).push(0u8));
        i += 1;
    }
    assert(cmd@ =~= seq![0x34u8, 0x06, 0, 0, 0, 0, 0, 0, 0, 0]);
    cmd
}

/// LOCATE(16) with the filemark bit: seek to a logical file id.
pub fn locate_cdb(position: u64) -> (r: Vec<u8>)
    ensures
        r@ == seq![0x92u8, 0b000_01_000u8, 0, 0] + crate::index::u64_be_bytes(position) + seq![
            0u8,
            0,
            0,
            0,
        ],
{
    let mut cmd: Vec<u8> = Vec::new();
    cmd.push(0x92);
    cmd.push(0b000_01_000);
    cmd.push(0);
    cmd.push(0);
    assert(cmd@ =~= seq![0x92u8, 0b000_01_000u8, 0, 0]);
    crate::index::push_u64_be(&mut cmd, position);
    cmd.push(0);
    cmd.push(0);
    cmd.push(0);
    cmd.push(0);
    assert(cmd@ =~= seq![0x92u8, 0b000_01_000u8, 0, 0] + crate::index::u64_be_bytes(position)
        + seq![0u8, 0, 0, 0]);
    cmd
}

/// SPACE: the six-byte form with a signed 24-bit count where it fits,
/// the sixteen-byte form with a signed 64-bit count beyond that.
/// The type is blocks (0) or filemarks (1).
pub fn space_cdb(count: i64, blocks: bool) -> (r: Vec<u8>)
    ensures
        r@ == (if -0x7fffff < count <= 0x7fffff {
            seq![
                0x11u8,
                (if blocks {
                    0u8
                } else {
                    1u8
                }),
                ((count >> 16) & 0xff) as u8,
                ((count >> 8) & 0xff) as u8,
                (count & 0xff) as u8,
                0u8,
            ]
        } else {
            seq![
                0x91u8,
                (if blocks {
                    0u8
                } else {
                    1u8
                }),
                0u8,
                0u8,
            ] + seq![
                ((count >> 56) & 0xff) as u8,
                ((count >> 48) & 0xff) as u8,
                ((count >> 40) & 0xff) as u8,
                ((count >> 32) & 0xff) as u8,
                ((count >> 24) & 0xff) as u8,
                ((count >> 16) & 0xff) as u8,
                ((count >> 8) & 0xff) as u8,
                (count & 0xff) as u8,
            ] + seq![0u8, 0, 0, 0]
        }),
{
    let mut cmd: Vec<u8> = Vec::new();
    if count <= 0x7fffff && count > -0x7fffff {
        cmd.push(0x11);
        if blocks {
            cmd.push(0);
        } else {
            cmd.push(1);
        }
        cmd.push(((count >> 16) & 0xff) as u8);
        cmd.push(((count >> 8) & 0xff) as u8);
        cmd.push((count & 0xff) as u8);
        cmd.push(0);
        assert(cmd@ =~= seq![
            0x11u8,
            (if blocks {
                0u8
            } else {
                1u8
            }),
            ((count >> 16) & 0xff) as u8,
            ((count >> 8) & 0xff) as u8,
            (count & 0xff) as u8,
            0u8,
        ]);
    } else {
        cmd.push(0x91);
        if blocks {
            cmd.push(0);
        } else {
            cmd.push(1);
        }
        cmd.push(0);
        cmd.push(0);
        cmd.push(((count >> 56) & 0xff) as u8);
        cmd.push(((count >> 48) & 0xff) as u8);
        cmd.push(((count >> 40) & 0xff) as u8);
        cmd.push(((count >> 32) & 0xff) as u8);
        cmd.push(((count >> 24) & 0xff) as u8);
        cmd.push(((count >> 16) & 0xff) as u8);
        cmd.push(((count >> 8) & 0xff) as u8);
        cmd.push((count & 0xff) as u8);
        cmd.push(0);
        cmd.push(0);
        cmd.push(0);
        cmd.push(0);
        assert(cmd@ =~= seq![
            0x91u8,
            (if blocks {
                0u8
            } else {
                1u8
            }),
            0u8,
            0u8,
        ] + seq![
            ((count >> 56) & 0xff) as u8,
            ((count >> 48) & 0xff) as u8,
            ((count >> 40) & 0xff) as u8,
            ((count >> 32) & 0xff) as u8,
            ((count >> 24) & 0xff) as u8,
            ((count >> 16) & 0xff) as u8,
            ((count >> 8) & 0xff) as u8,
            (count & 0xff) as u8,
        ] + seq![0u8, 0, 0, 0]);
    }
    cmd
}

/// SPACE(6) to end-of-data (type 3): seek past everything recorded.
pub fn space_eod_cdb() -> (r: Vec<u8>)
    ensures
        r@ == seq![0x11u8, 0x03, 0, 0, 0, 0],
{
    let mut cmd: Vec<u8> = Vec::new();
    cmd.push(0x11);
    cmd.push(0x03);
    cmd.push(0);
    cmd.push(0);
    cmd.push(0);
    cmd.push(0);
    assert(cmd@ =~= seq![0x11u8, 0x03, 0, 0, 0, 0]);
    cmd
}

/// WRITE FILEMARKS; the count rides in byte four, the IMMED bit in
/// byte one. A count of zero is the vendor convention for a buffer
/// flush.
pub fn write_filemarks_cdb(count: u8, immediate: bool) -> (r: Vec<u8>)
    ensures
        r@ == seq![
            0x10u8,
            (if immediate {
                1u8
            } else {
                0u8
            }),
            0,
            0,
            count,
            0,
        ],
{
    let mut cmd: Vec<u8> = Vec::new();
    cmd.push(0x10);
    if immediate {
        cmd.push(1);
    } else {
        cmd.push(0);
    }
    cmd.push(0);
    cmd.push(0);
    cmd.push(count);
    cmd.push(0);
    assert(cmd@ =~= seq![
        0x10u8,
        (if immediate {
            1u8
        } else {
            0u8
        }),
        0,
        0,
        count,
        0,
    ]);
    cmd
}

/// WRITE, variable block size; the transfer length is capped at
/// `0x800000` bytes.
pub fn write_cdb(transfer_len: usize) -> (r: Vec<u8>)
    requires
        transfer_len <= 0x800000,
    ensures
        r@ == seq![
            0x0Au8,
            0x00,
            ((transfer_len >> 16) & 0xff) as u8,
            ((transfer_len >> 8) & 0xff) as u8,
            (transfer_len & 0xff) as u8,
            0u8,
        ],
{
    let mut cmd: Vec<u8> = Vec::new();
    cmd.push(0x0A);
    cmd.push(0x00);
    cmd.push(((transfer_len >> 16) & 0xff) as u8);
    cmd.push(((transfer_len >> 8) & 0xff) as u8);
    cmd.push((transfer_len & 0xff) as u8);
    cmd.push(0);
    assert(cmd@ =~= seq![
        0x0Au8,
        0x00,
        ((transfer_len >> 16) & 0xff) as u8,
        ((transfer_len >> 8) & 0xff) as u8,
        (transfer_len & 0xff) as u8,
        0u8,
    ]);
    cmd
}

/// READ, variable block size with SILI set; short blocks come back via
/// sense data.
pub fn read_cdb(transfer_len: usize) -> (r: Vec<u8>)
    requires
        transfer_len <= 0xFFFFFF,
    ensures
        r@ == seq![
            0x08u8,
            0x02,
            ((transfer_len >> 16) & 0xff) as u8,
            ((transfer_len >> 8) & 0xff) as u8,
            (transfer_len & 0xff) as u8,
            0u8,
        ],
{
    let mut cmd: Vec<u8> = Vec::new();
    cmd.push(0x08);
    cmd.push(0x02);
    cmd.push(((transfer_len >> 16) & 0xff) as u8);
    cmd.push(((transfer_len >> 8) & 0xff) as u8);
    cmd.push((transfer_len & 0xff) as u8);
    cmd.push(0);
    assert(cmd@ =~= seq![
        0x08u8,
        0x02,
        ((transfer_len >> 16) & 0xff) as u8,
        ((transfer_len >> 8) & 0xff) as u8,
        (transfer_len & 0xff) as u8,
        0u8,
    ]);
    cmd
}

// ---------------------------------------------------------------------
// read-position page
// ---------------------------------------------------------------------
/// Big-endian value of a byte range.
pub open spec fn be_value(s: Seq<u8>) -> int
    decreases s.len(),
{
    if s.len() == 0 {
        0
    } else {
        be_value(s.drop_last()) * 256 + s.last()
    }
}

pub open spec fn byte_pow(k: nat) -> int
    decreases k,
{
    if k == 0 {
        1
    } else {
        256 * byte_pow((k - 1) as nat)
    }
}

proof fn lemma_be_value_bound(s: Seq<u8>)
    ensures
        0 <= be_value(s) < byte_pow(s.len()),
    decreases s.len(),
{
    if s.len() > 0 {
        lemma_be_value_bound(s.drop_last());
        assert(be_value(s.drop_last()) * 256 + 256 <= byte_pow((s.len() - 1) as nat) * 256)
            by (nonlinear_arith)
            requires
                be_value(s.drop_last()) < byte_pow((s.len() - 1) as nat),
        ;
        assert(be_value(s.drop_last()) * 256 >= 0) by (nonlinear_arith)
            requires
                be_value(s.drop_last()) >= 0,
        ;
    }
}

/// Read a big-endian value out of `data[start..start + count]`.
#[verifier::loop_isolation(false)]
fn be_u64_field(data: &[u8], start: usize, count: usize) -> (v: u64)
    requires
        start + count <= data@.len(),
        count <= 8,
    ensures
        v == be_value(data@.subrange(start as int, (start + count) as int)),
{
    proof {
        assert(byte_pow(0) == 1);
        assert(byte_pow(1) == 0x100);
        assert(byte_pow(2) == 0x10000);
        assert(byte_pow(3) == 0x1000000);
        assert(byte_pow(4) == 0x100000000);
        assert(byte_pow(5) == 0x10000000000);
        assert(byte_pow(6) == 0x1000000000000);
        assert(byte_pow(7) == 0x100000000000000);
        assert(byte_pow(8) == 0x10000000000000000);
    }
    let n = data.len();
    let mut v: u64 = 0;
    let mut i: usize = 0;
    while i < count
        invariant
            i <= count,
            count <= 8,
            n == data@.len(),
            start + count <= n,
            v == be_value(data@.subrange(start as int, (start + i) as int)),
            v < 0x10000000000000000,
        decreases count - i,
    {
        proof {
            let pre = data@.subrange(start as int, (start + i) as int);
            lemma_be_value_bound(pre);
            assert(byte_pow(pre.len()) <= byte_pow(7)) by {
                lemma_byte_pow_mono(pre.len(), 7);
            }
            assert(v < 0x100000000000000);
        }
        let b = data[start + i];
        v = v * 256 + b as u64;
        proof {
            let ext = data@.subrange(start as int, (start + i + 1) as int);
            assert(ext.drop_last() =~= data@.subrange(start as int, (start + i) as int));
            assert(ext.last() == data@[start + i]);
        }
        i += 1;
    }
    v
}

proof fn lemma_byte_pow_mono(a: nat, b: nat)
    requires
        a <= b,
    ensures
        byte_pow(a) <= byte_pow(b),
    decreases b,
{
    if a < b {
        lemma_byte_pow_mono(a, (b - 1) as nat);
        assert(byte_pow(b) == 256 * byte_pow((b - 1) as nat));
        assert(byte_pow((b - 1) as nat) >= 1) by {
            lemma_byte_pow_pos((b - 1) as nat);
        }
    }
}

proof fn lemma_byte_pow_pos(k: nat)
    ensures
        byte_pow(k) >= 1,
    decreases k,
{
    if k > 0 {
        lemma_byte_pow_pos((k - 1) as nat);
    }
}

/// The long-form read-position page: flags, partition, the logical
/// object number (blocks and filemarks passed) and the logical file id
/// (filemarks passed).
#[derive(Clone, Copy, Debug, PartialEq, Eq, Structural)]
pub struct ReadPositionLongPage {
    pub flags: u8,
    pub partition_number: u32,
    pub logical_object_number: u64,
    pub logical_file_id: u64,
}

/// Decode the 32-byte long-form read-position page, as the drive
/// returns it: flags, three reserved bytes, the partition number, the
/// logical object number, the logical file id, eight obsolete bytes —
/// all fields big-endian. A partitioned tape is rejected.
pub fn decode_read_position_page(data: &[u8]) -> (r: Result<ReadPositionLongPage, TapeError>)
    ensures
        match r {
            Ok(page) => {
                &&& data@.len() == 32
                &&& page.flags == data@[0]
                &&& page.partition_number == be_value(data@.subrange(4, 8))
                &&& page.partition_number == 0
                &&& page.logical_object_number == be_value(data@.subrange(8, 16))
                &&& page.logical_file_id == be_value(data@.subrange(16, 24))
            },
            Err(e) => {
                ||| (e == TapeError::UnexpectedPageSize && data@.len() != 32)
                ||| (e == TapeError::PartitionedTape && data@.len() == 32 && be_value(
                    data@.subrange(4, 8),
                ) != 0)
            },
        },
{
    if data.len() != 32 {
        return Err(TapeError::UnexpectedPageSize);
    }
    let partition = be_u64_field(data, 4, 4);
    proof {
        lemma_be_value_bound(data@.subrange(4, 8));
        assert(byte_pow(4) == 0x100000000) by {
            assert(byte_pow(0) == 1);
            assert(byte_pow(1) == 0x100);
            assert(byte_pow(2) == 0x10000);
            assert(byte_pow(3) == 0x1000000);
            assert(byte_pow(4) == 0x100000000);
        }
    }
    if partition != 0 {
        return Err(TapeError::PartitionedTape);
    }
    let obj = be_u64_field(data, 8, 8);
    let file_id = be_u64_field(data, 16, 8);
    Ok(
        ReadPositionLongPage {
            flags: data[0],
            partition_number: partition as u32,
            logical_object_number: obj,
            logical_file_id: file_id,
        },
    )
}

} // verus!
