use backup_core::tape::{
    check_sequential_access, classify_read_result, classify_write_result,
    decode_read_position_page, erase_cdb, format_cdb, inquiry_peripheral_type, load_unload_cdb,
    locate_cdb, read_block_outcome, read_cdb, read_position_cdb, rewind_cdb, space_cdb,
    space_eod_cdb, test_unit_ready_cdb, write_cdb, write_filemarks_cdb, BlockReadError,
    BlockReadStatus, ScsiError, SenseInfo, TapeError,
};
use backup_core::tape_drive::{TapeEntry, TapeReadOutcome, VirtualTape};

#[test]
fn cdb_bytes_exact() {
    assert_eq!(test_unit_ready_cdb(), vec![0x00, 0, 0, 0, 0, 0]);
    assert_eq!(rewind_cdb(), vec![0x01, 0, 0, 0, 0, 0]);
    assert_eq!(erase_cdb(true), vec![0x19, 0, 0, 0, 0, 0]);
    assert_eq!(erase_cdb(false), vec![0x19, 1, 0, 0, 0, 0]);
    assert_eq!(format_cdb(), vec![0x04, 0, 0, 0, 0, 0]);
    assert_eq!(load_unload_cdb(true), vec![0x1B, 0, 0, 0, 1, 0]);
    assert_eq!(load_unload_cdb(false), vec![0x1B, 0, 0, 0, 0, 0]);
    assert_eq!(read_position_cdb(), vec![0x34, 0x06, 0, 0, 0, 0, 0, 0, 0, 0]);
    assert_eq!(space_eod_cdb(), vec![0x11, 0x03, 0, 0, 0, 0]);
    assert_eq!(
        locate_cdb(3),
        vec![0x92, 0b000_01_000, 0, 0, 0, 0, 0, 0, 0, 0, 0, 3, 0, 0, 0, 0]
    );
    assert_eq!(write_filemarks_cdb(2, false), vec![0x10, 0, 0, 0, 2, 0]);
    assert_eq!(write_filemarks_cdb(1, true), vec![0x10, 1, 0, 0, 1, 0]);
    assert_eq!(write_cdb(0x123456), vec![0x0A, 0x00, 0x12, 0x34, 0x56, 0]);
    assert_eq!(read_cdb(0x00FF00), vec![0x08, 0x02, 0x00, 0xFF, 0x00, 0]);
}

#[test]
fn space_cdb_forms() {
    // short form, positive and negative 24-bit counts
    assert_eq!(space_cdb(1, false), vec![0x11, 1, 0x00, 0x00, 0x01, 0]);
    assert_eq!(space_cdb(-1, true), vec![0x11, 0, 0xFF, 0xFF, 0xFF, 0]);
    assert_eq!(space_cdb(0x7fffff, false), vec![0x11, 1, 0x7F, 0xFF, 0xFF, 0]);
    // long form beyond the 24-bit range
    assert_eq!(
        space_cdb(0x800000, false),
        vec![0x91, 1, 0, 0, 0, 0, 0, 0, 0, 0x80, 0, 0, 0, 0, 0, 0]
    );
    assert_eq!(
        space_cdb(-0x7fffff, true),
        vec![0x91, 0, 0, 0, 0xFF, 0xFF, 0xFF, 0xFF, 0xFF, 0x80, 0, 0x01, 0, 0, 0, 0]
    );
}

fn sense(k: u8, asc: u8, ascq: u8) -> ScsiError {
    ScsiError::Sense(SenseInfo { sense_key: k, asc, ascq })
}

/// The early-warning sense is success with the end-of-medium flag; the
/// caller then writes a trailing filemark and stops.
#[test]
fn leom_is_not_an_error() {
    assert_eq!(classify_write_result(Ok(())), Ok(false));
    assert_eq!(classify_write_result(Err(sense(0, 0, 2))), Ok(true));
    assert_eq!(
        classify_write_result(Err(sense(3, 0, 0))),
        Err(sense(3, 0, 0))
    );
}

#[test]
fn read_sense_classification() {
    assert_eq!(classify_read_result(Ok(512)), Ok(BlockReadStatus::Data(512)));
    assert_eq!(
        classify_read_result(Err(sense(0, 0, 1))),
        Ok(BlockReadStatus::EndOfFile)
    );
    assert_eq!(
        classify_read_result(Err(sense(8, 0, 5))),
        Ok(BlockReadStatus::EndOfStream)
    );
    assert_eq!(classify_read_result(Err(sense(4, 1, 2))), Err(sense(4, 1, 2)));
}

#[test]
fn position_page_decoding() {
    let mut page = [0u8; 32];
    page[0] = 0xB4; // flags
    page[8..16].copy_from_slice(&[0, 0, 0, 0, 0, 0, 1, 5]); // logical object number
    page[16..24].copy_from_slice(&[0, 0, 0, 0, 0, 0, 0, 2]); // logical file id
    let decoded = decode_read_position_page(&page).unwrap();
    assert_eq!(decoded.flags, 0xB4);
    assert_eq!(decoded.partition_number, 0);
    assert_eq!(decoded.logical_object_number, 261);
    assert_eq!(decoded.logical_file_id, 2);

    // wrong length
    assert_eq!(
        decode_read_position_page(&page[..31]),
        Err(TapeError::UnexpectedPageSize)
    );
    // partitioned tape
    let mut partitioned = page;
    partitioned[7] = 1;
    assert_eq!(
        decode_read_position_page(&partitioned),
        Err(TapeError::PartitionedTape)
    );
}

fn three_file_tape() -> VirtualTape {
    // three files of one block each, each closed by a filemark
    VirtualTape::with_entries(vec![
        TapeEntry::Block(vec![1, 1]),
        TapeEntry::Filemark,
        TapeEntry::Block(vec![2, 2]),
        TapeEntry::Filemark,
        TapeEntry::Block(vec![3, 3]),
        TapeEntry::Filemark,
    ])
}

/// The SCSI positioning round trip: locate a file, read the position
/// back, and see exactly that file number.
#[test]
fn locate_then_current_file_number() {
    let mut tape = three_file_tape();
    tape.locate_file(2).unwrap();
    assert_eq!(tape.current_file_number(), 2);
    // the next object is the first block of file 2, not a filemark
    match tape.read_block() {
        TapeReadOutcome::Data(d) => assert_eq!(d, vec![3, 3]),
        other => panic!("expected data, got {:?}", other),
    }
}

#[test]
fn locate_first_and_last_file() {
    let mut tape = three_file_tape();
    tape.locate_file(1).unwrap();
    assert_eq!(tape.current_file_number(), 1);
    tape.locate_file(3).unwrap();
    assert_eq!(tape.current_file_number(), 3);
    // beyond the recorded filemarks
    assert_eq!(tape.locate_file(4), Err(TapeError::NoSuchFile));
    assert_eq!(tape.locate_file(0), Err(TapeError::NoSuchFile));
}

/// Writing a block, a filemark and flushing; reading it all back.
#[test]
fn write_then_read_back() {
    let mut tape = VirtualTape::new();
    let leom = tape.write_block(b"hello tape").unwrap();
    assert!(!leom);
    tape.write_filemarks(1, false).unwrap();
    tape.sync().unwrap();

    tape.rewind();
    assert_eq!(tape.current_file_number(), 0);
    match tape.read_block() {
        TapeReadOutcome::Data(d) => assert_eq!(d, b"hello tape".to_vec()),
        other => panic!("expected data, got {:?}", other),
    }
    assert_eq!(tape.read_block(), TapeReadOutcome::EndOfFile);
    assert_eq!(tape.read_block(), TapeReadOutcome::EndOfStream);
}

/// An oversize block is rejected, leaving the medium unchanged.
#[test]
fn oversize_block_rejected() {
    let mut tape = VirtualTape::new();
    let data = vec![0u8; 0x800001];
    assert_eq!(tape.write_block(&data), Err(TapeError::BlockTooLarge));
    assert_eq!(tape.read_block(), TapeReadOutcome::EndOfStream);
}

/// check_filemark distinguishes beginning of tape, a filemark behind
/// the head, and a data block behind the head.
#[test]
fn check_filemark_cases() {
    let mut tape = VirtualTape::new();
    assert!(tape.check_filemark().unwrap()); // at BOT

    tape.write_block(b"data").unwrap();
    assert!(!tape.check_filemark().unwrap()); // block behind us

    tape.write_filemarks(1, false).unwrap();
    assert!(tape.check_filemark().unwrap()); // filemark behind us
}

/// SPACE over blocks stops at a filemark with the filemark sense, and
/// at end-of-data with the end-of-data sense.
#[test]
fn space_blocks_semantics() {
    let mut tape = three_file_tape();
    // one block forward lands before the first filemark
    tape.space_blocks(1).unwrap();
    assert_eq!(tape.current_file_number(), 0);
    // the next block space runs into the filemark and crosses it
    assert_eq!(tape.space_blocks(1), Err(sense(0, 0, 1)));
    assert_eq!(tape.current_file_number(), 1);
    // backwards over the filemark: same sense, back on its BOT side
    assert_eq!(tape.space_blocks(-1), Err(sense(0, 0, 1)));
    assert_eq!(tape.current_file_number(), 0);
    // backwards over the block, then beginning of tape
    tape.space_blocks(-1).unwrap();
    assert_eq!(tape.space_blocks(-1), Err(sense(0, 0, 4)));
    // forward beyond end of data
    tape.move_to_eom(false).unwrap();
    assert_eq!(tape.space_blocks(1), Err(sense(8, 0, 5)));
}

/// SPACE over filemarks crosses the asked number of marks and reports
/// the boundary senses when the tape runs out.
#[test]
fn space_filemarks_semantics() {
    let mut tape = three_file_tape();
    tape.space_filemarks(2).unwrap();
    assert_eq!(tape.current_file_number(), 2);
    tape.space_filemarks(-1).unwrap();
    // backward spacing ends on the BOT side of the mark
    assert_eq!(tape.current_file_number(), 1);
    assert_eq!(tape.space_filemarks(-2), Err(sense(0, 0, 4)));
    assert_eq!(tape.current_file_number(), 0);
    tape.rewind();
    assert_eq!(tape.space_filemarks(4), Err(sense(8, 0, 5)));
}

/// move_to_eom positions after everything recorded and, if asked,
/// supplies the missing trailing filemark.
#[test]
fn move_to_eom_writes_missing_filemark() {
    let mut tape = VirtualTape::new();
    tape.write_block(b"a").unwrap();
    tape.rewind();

    tape.move_to_eom(true).unwrap();
    assert!(tape.check_filemark().unwrap());
    assert_eq!(tape.current_file_number(), 1);

    // a second pass finds the filemark already present and adds nothing
    tape.rewind();
    tape.move_to_eom(true).unwrap();
    assert_eq!(tape.current_file_number(), 1);
}

/// Writing in the middle truncates the recording behind the head.
#[test]
fn write_truncates_tail() {
    let mut tape = three_file_tape();
    tape.locate_file(1).unwrap();
    tape.write_block(b"new").unwrap();
    tape.write_filemarks(1, false).unwrap();
    // files 2 and 3 are gone; the tape now holds two files
    tape.rewind();
    tape.move_to_eom(false).unwrap();
    assert_eq!(tape.current_file_number(), 2);
}

#[test]
fn erase_and_format() {
    let mut tape = three_file_tape();
    tape.locate_file(1).unwrap();
    tape.erase_media(true);
    tape.rewind();
    tape.move_to_eom(false).unwrap();
    assert_eq!(tape.current_file_number(), 1);

    tape.format_media(true);
    assert_eq!(tape.current_file_number(), 0);
    assert_eq!(tape.read_block(), TapeReadOutcome::EndOfStream);
}

#[test]
fn too_many_filemarks_rejected() {
    let mut tape = VirtualTape::new();
    assert_eq!(tape.write_filemarks(256, false), Err(TapeError::TooManyFilemarks));
    assert!(tape.write_filemarks(255, false).is_ok());
}

/// The full read decision: the reclassified senses, the transfer-length
/// guard on clean reads, and the oversize-buffer rejection.
#[test]
fn read_outcome_guards_transfer_length() {
    // a clean read must return exactly the requested length
    assert_eq!(read_block_outcome(512, Ok(512)), Ok(BlockReadStatus::Data(512)));
    assert_eq!(
        read_block_outcome(512, Ok(511)),
        Err(BlockReadError::UnexpectedBlockLength)
    );
    assert_eq!(
        read_block_outcome(512, Ok(513)),
        Err(BlockReadError::UnexpectedBlockLength)
    );
    // the normal-termination senses are never surfaced as errors
    assert_eq!(
        read_block_outcome(512, Err(sense(0, 0, 1))),
        Ok(BlockReadStatus::EndOfFile)
    );
    assert_eq!(
        read_block_outcome(512, Err(sense(8, 0, 5))),
        Ok(BlockReadStatus::EndOfStream)
    );
    assert_eq!(
        read_block_outcome(512, Err(sense(3, 0, 0))),
        Err(BlockReadError::Command(sense(3, 0, 0)))
    );
    // a buffer beyond the transfer limit is rejected before the command
    assert_eq!(
        read_block_outcome(0x1000000, Ok(0x1000000)),
        Err(BlockReadError::BufferTooLarge)
    );
    assert_eq!(read_block_outcome(0xFFFFFF, Ok(0xFFFFFF)), Ok(BlockReadStatus::Data(0xFFFFFF)));
}

/// The device-open check: only a sequential-access peripheral is a tape.
#[test]
fn inquiry_peripheral_check() {
    // peripheral type is the low five bits of the first inquiry byte
    assert_eq!(inquiry_peripheral_type(&[0x01, 0x80, 0x05]), Ok(1));
    assert_eq!(inquiry_peripheral_type(&[0xE1]), Ok(1)); // qualifier bits masked off
    assert_eq!(inquiry_peripheral_type(&[0x00]), Ok(0));
    assert_eq!(inquiry_peripheral_type(&[]), Err(TapeError::UnexpectedPageSize));

    assert!(check_sequential_access(1).is_ok());
    assert_eq!(check_sequential_access(0), Err(TapeError::NotSequentialAccess));
    assert_eq!(check_sequential_access(5), Err(TapeError::NotSequentialAccess));
}
