use backup_core::environment::{BackupEnvironment, BackupError};
use backup_core::index::{DynamicIndexWriter, FixedIndexWriter};

fn digest(tag: u8) -> [u8; 32] {
    let mut d = [0u8; 32];
    d[0] = tag;
    d[31] = tag ^ 0xFF;
    d
}

fn env() -> BackupEnvironment {
    BackupEnvironment::new(String::from("backup@pam"))
}

fn open_dynamic(env: &mut BackupEnvironment, name: &str) -> usize {
    let index = DynamicIndexWriter::new([7u8; 16]);
    env.register_dynamic_writer(index, String::from(name)).unwrap()
}

fn open_fixed(env: &mut BackupEnvironment, name: &str, size: usize, chunk_size: u32) -> usize {
    let index = FixedIndexWriter::new([9u8; 16], size, chunk_size as usize);
    env.register_fixed_writer(index, String::from(name), size, chunk_size).unwrap()
}

/// Happy path over a dynamic writer: two chunks streamed in order, the
/// writer closed with matching count and size, a blob added, the backup
/// finished. Two files were uploaded.
#[test]
fn dynamic_happy_path() {
    let mut env = env();
    let wid = open_dynamic(&mut env, "root.pxar.didx");
    assert_eq!(wid, 1);

    env.register_dynamic_chunk(wid, digest(1), 100, 30, false).unwrap();
    env.dynamic_writer_append_chunk(wid, 0, 100, &digest(1)).unwrap();
    env.register_dynamic_chunk(wid, digest(2), 200, 60, false).unwrap();
    env.dynamic_writer_append_chunk(wid, 100, 200, &digest(2)).unwrap();

    let (_csum, _payload) = env.dynamic_writer_close(wid, 2, 300).unwrap();
    env.add_blob("index.json.blob", b"{}").unwrap();
    env.finish_backup().unwrap();
    env.ensure_finished().unwrap();
}

/// A misordered dynamic append is rejected with the offset error.
#[test]
fn dynamic_misordered_append() {
    let mut env = env();
    let wid = open_dynamic(&mut env, "root.pxar.didx");
    env.register_dynamic_chunk(wid, digest(1), 100, 30, false).unwrap();
    env.dynamic_writer_append_chunk(wid, 0, 100, &digest(1)).unwrap();
    let err = env.dynamic_writer_append_chunk(wid, 50, 200, &digest(2)).unwrap_err();
    assert_eq!(err, BackupError::UnexpectedOffset);
    // the writer still continues at the right offset
    env.dynamic_writer_append_chunk(wid, 100, 200, &digest(2)).unwrap();
}

/// An empty dynamic chunk cannot advance the offset.
#[test]
fn dynamic_empty_chunk_rejected() {
    let mut env = env();
    let wid = open_dynamic(&mut env, "a.didx");
    let err = env.dynamic_writer_append_chunk(wid, 0, 0, &digest(1)).unwrap_err();
    assert_eq!(err, BackupError::NonMonotonicOffset);
}

/// A second small chunk on one fixed writer is rejected.
#[test]
fn fixed_two_small_chunks() {
    let mut env = env();
    let wid = open_fixed(&mut env, "img.fidx", 1_048_576, 524_288);
    assert_eq!(wid, 1);

    env.register_fixed_chunk(wid, digest(1), 524_288, 1000, false).unwrap();
    env.fixed_writer_append_chunk(wid, 0, 524_288, &digest(1)).unwrap();

    env.register_fixed_chunk(wid, digest(2), 262_144, 500, false).unwrap();
    let err = env
        .register_fixed_chunk(wid, digest(3), 262_144, 500, false)
        .unwrap_err();
    assert_eq!(err, BackupError::MultipleSmallChunks);
}

/// A fixed chunk larger than the declared chunk size is rejected.
#[test]
fn fixed_chunk_too_large() {
    let mut env = env();
    let wid = open_fixed(&mut env, "img.fidx", 1_048_576, 524_288);
    let err = env
        .register_fixed_chunk(wid, digest(1), 524_289, 1000, false)
        .unwrap_err();
    assert_eq!(err, BackupError::ChunkTooLarge);
}

/// Fixed chunks may arrive out of order, but each slot only once, and
/// every chunk must land on the declared layout.
#[test]
fn fixed_out_of_order_appends() {
    let mut env = env();
    let wid = open_fixed(&mut env, "img.fidx", 1_048_576, 262_144);

    // slots 3, 0, 2, 1 in that order
    env.fixed_writer_append_chunk(wid, 786_432, 262_144, &digest(4)).unwrap();
    env.fixed_writer_append_chunk(wid, 0, 262_144, &digest(1)).unwrap();
    env.fixed_writer_append_chunk(wid, 524_288, 262_144, &digest(3)).unwrap();

    // same slot twice
    let err = env.fixed_writer_append_chunk(wid, 0, 262_144, &digest(5)).unwrap_err();
    assert_eq!(err, BackupError::DuplicateSlot);

    // unaligned offset
    let err = env.fixed_writer_append_chunk(wid, 100, 262_144, &digest(6)).unwrap_err();
    assert_eq!(err, BackupError::UnalignedChunk);

    // a short chunk may only close the image
    let err = env.fixed_writer_append_chunk(wid, 262_144, 1000, &digest(7)).unwrap_err();
    assert_eq!(err, BackupError::UnalignedChunk);

    env.fixed_writer_append_chunk(wid, 262_144, 262_144, &digest(2)).unwrap();
    let (_csum, payload) = env.fixed_writer_close(wid, 4, 1_048_576).unwrap();
    assert_eq!(payload.len(), 4 * 32);
    assert_eq!(&payload[0..32], &digest(1));
    assert_eq!(&payload[32..64], &digest(2));
    assert_eq!(&payload[64..96], &digest(3));
    assert_eq!(&payload[96..128], &digest(4));
}

/// Premature finish fails while an index writer is open; after the
/// writer closes, it succeeds.
#[test]
fn premature_finish() {
    let mut env = env();
    let wid = open_dynamic(&mut env, "root.pxar.didx");
    env.dynamic_writer_append_chunk(wid, 0, 10, &digest(1)).unwrap();

    let err = env.finish_backup().unwrap_err();
    assert_eq!(err, BackupError::OpenIndexWriter);
    assert!(env.ensure_finished().is_err());

    env.dynamic_writer_close(wid, 1, 10).unwrap();
    env.finish_backup().unwrap();
    env.ensure_finished().unwrap();
}

/// A backup without any uploaded file cannot finish.
#[test]
fn finish_without_files() {
    let mut env = env();
    let err = env.finish_backup().unwrap_err();
    assert_eq!(err, BackupError::NoFilesUploaded);
}

/// After finalization every writer and chunk operation fails.
#[test]
fn finalization_gate() {
    let mut env = env();
    env.add_blob("index.json.blob", b"x").unwrap();
    env.finish_backup().unwrap();

    let index = DynamicIndexWriter::new([1u8; 16]);
    assert_eq!(
        env.register_dynamic_writer(index, String::from("late.didx")).unwrap_err(),
        BackupError::AlreadyFinished
    );
    assert_eq!(
        env.register_chunk(digest(1), 10).unwrap_err(),
        BackupError::AlreadyFinished
    );
    assert_eq!(
        env.register_dynamic_chunk(1, digest(1), 10, 5, false).unwrap_err(),
        BackupError::AlreadyFinished
    );
    assert_eq!(
        env.dynamic_writer_append_chunk(1, 0, 10, &digest(1)).unwrap_err(),
        BackupError::AlreadyFinished
    );
    assert_eq!(
        env.fixed_writer_append_chunk(1, 0, 10, &digest(1)).unwrap_err(),
        BackupError::AlreadyFinished
    );
    assert_eq!(
        env.dynamic_writer_close(1, 0, 0).unwrap_err(),
        BackupError::AlreadyFinished
    );
    assert_eq!(env.add_blob("b", b"y").unwrap_err(), BackupError::AlreadyFinished);
    assert_eq!(env.finish_backup().unwrap_err(), BackupError::AlreadyFinished);
}

/// Chunk registration feeds the known-chunk table, idempotently.
#[test]
fn known_chunk_lookup() {
    let mut env = env();
    assert_eq!(env.lookup_chunk(&digest(1)), None);
    env.register_chunk(digest(1), 4096).unwrap();
    assert_eq!(env.lookup_chunk(&digest(1)), Some(4096));
    // overwriting updates the length
    env.register_chunk(digest(1), 8192).unwrap();
    assert_eq!(env.lookup_chunk(&digest(1)), Some(8192));

    // register_dynamic_chunk also feeds the table
    let wid = open_dynamic(&mut env, "a.didx");
    env.register_dynamic_chunk(wid, digest(2), 777, 100, true).unwrap();
    assert_eq!(env.lookup_chunk(&digest(2)), Some(777));
}

/// A writer id that was never allocated, or was already closed, is
/// unknown.
#[test]
fn unknown_writer() {
    let mut env = env();
    assert_eq!(
        env.dynamic_writer_append_chunk(9, 0, 10, &digest(1)).unwrap_err(),
        BackupError::UnknownWriter
    );
    let wid = open_dynamic(&mut env, "a.didx");
    env.dynamic_writer_append_chunk(wid, 0, 10, &digest(1)).unwrap();
    env.dynamic_writer_close(wid, 1, 10).unwrap();
    assert_eq!(
        env.dynamic_writer_append_chunk(wid, 10, 10, &digest(2)).unwrap_err(),
        BackupError::UnknownWriter
    );
}

/// A close must name the count and size the writer observed; the
/// writer is deregistered before the checks, so a failed close loses it.
#[test]
fn close_mismatch() {
    let mut env = env();
    let wid = open_dynamic(&mut env, "a.didx");
    env.dynamic_writer_append_chunk(wid, 0, 10, &digest(1)).unwrap();
    assert_eq!(
        env.dynamic_writer_close(wid, 2, 10).unwrap_err(),
        BackupError::UnexpectedChunkCount
    );
    // the failed close removed the writer
    assert_eq!(
        env.dynamic_writer_close(wid, 1, 10).unwrap_err(),
        BackupError::UnknownWriter
    );

    let wid = open_dynamic(&mut env, "b.didx");
    env.dynamic_writer_append_chunk(wid, 0, 10, &digest(1)).unwrap();
    assert_eq!(
        env.dynamic_writer_close(wid, 1, 11).unwrap_err(),
        BackupError::UnexpectedFileSize
    );
    assert_eq!(
        env.dynamic_writer_close(wid, 1, 10).unwrap_err(),
        BackupError::UnknownWriter
    );

    let wid = open_dynamic(&mut env, "c.didx");
    env.dynamic_writer_append_chunk(wid, 0, 10, &digest(1)).unwrap();
    env.dynamic_writer_close(wid, 1, 10).unwrap();
}

/// A fixed close checks the declared index length too; a failed close
/// deregisters the writer.
#[test]
fn fixed_close_checks_index_length() {
    let mut env = env();
    let wid = open_fixed(&mut env, "img.fidx", 524_288, 262_144);
    env.fixed_writer_append_chunk(wid, 0, 262_144, &digest(1)).unwrap();
    // one of two slots written: count 1 differs from the index length
    assert_eq!(
        env.fixed_writer_close(wid, 1, 524_288).unwrap_err(),
        BackupError::UnexpectedChunkCount
    );
    // the failed close removed the writer
    assert_eq!(
        env.fixed_writer_append_chunk(wid, 262_144, 262_144, &digest(2)).unwrap_err(),
        BackupError::UnknownWriter
    );

    let wid = open_fixed(&mut env, "img2.fidx", 524_288, 262_144);
    env.fixed_writer_append_chunk(wid, 0, 262_144, &digest(1)).unwrap();
    env.fixed_writer_append_chunk(wid, 262_144, 262_144, &digest(2)).unwrap();
    env.fixed_writer_close(wid, 2, 524_288).unwrap();
}

/// The index checksum really is the SHA-256 digest of the serialized
/// records the close hands back.
#[test]
fn close_checksum_matches_payload() {
    let mut env = env();
    let wid = open_dynamic(&mut env, "a.didx");
    env.dynamic_writer_append_chunk(wid, 0, 100, &digest(1)).unwrap();
    env.dynamic_writer_append_chunk(wid, 100, 50, &digest(2)).unwrap();
    let (csum, payload) = env.dynamic_writer_close(wid, 2, 150).unwrap();

    // one record: 8 bytes big-endian end offset, 32 bytes digest
    assert_eq!(payload.len(), 2 * 40);
    assert_eq!(&payload[0..8], &[0, 0, 0, 0, 0, 0, 0, 100]);
    assert_eq!(&payload[8..40], &digest(1));
    assert_eq!(&payload[40..48], &[0, 0, 0, 0, 0, 0, 0, 150]);
    assert_eq!(&payload[48..80], &digest(2));

    let expected = openssl::sha::sha256(&payload);
    assert_eq!(csum, expected);
}

/// The server-side checksum of a blob is the CRC-32 of its raw bytes.
#[test]
fn blob_crc() {
    let mut env = env();
    let crc = env.add_blob("check.blob", b"123456789").unwrap();
    assert_eq!(crc, 0xCBF43926);
    let crc_empty = env.add_blob("empty.blob", b"").unwrap();
    assert_eq!(crc_empty, 0);
}

/// The upload statistics report lands in the task log.
#[test]
fn upload_statistics_logged() {
    let mut env = env();
    let wid = open_dynamic(&mut env, "root.pxar.didx");
    env.register_dynamic_chunk(wid, digest(1), 100, 40, false).unwrap();
    env.dynamic_writer_append_chunk(wid, 0, 100, &digest(1)).unwrap();
    env.dynamic_writer_close(wid, 1, 100).unwrap();

    let lines = env.take_log_lines();
    assert_eq!(lines[0], "Upload statistics for 'root.pxar.didx'");
    assert_eq!(lines[1], "UUID: 07070707070707070707070707070707");
    assert!(lines[2].starts_with("Checksum: "));
    assert_eq!(lines[3], "Size: 100");
    assert_eq!(lines[4], "Chunk count: 1");
    assert_eq!(lines[5], "Upload size: 100 (100%)");
    assert_eq!(lines[6], "Compression: 40%");
}

/// Known-chunk closure on concrete values: every digest an index
/// references at close time was registered earlier and is still known.
#[test]
fn known_chunk_closure() {
    let mut env = env();
    let wid = open_dynamic(&mut env, "a.didx");
    env.register_chunk(digest(9), 50).unwrap(); // carried over from the previous snapshot
    env.register_dynamic_chunk(wid, digest(1), 100, 30, false).unwrap();
    env.dynamic_writer_append_chunk(wid, 0, 100, &digest(1)).unwrap();
    env.dynamic_writer_append_chunk(wid, 100, 50, &digest(9)).unwrap();
    let (_csum, payload) = env.dynamic_writer_close(wid, 2, 150).unwrap();

    // both digests referenced by the closed index are in the known table
    assert_eq!(&payload[8..40], &digest(1));
    assert_eq!(&payload[48..80], &digest(9));
    assert_eq!(env.lookup_chunk(&digest(1)), Some(100));
    assert_eq!(env.lookup_chunk(&digest(9)), Some(50));
}

/// Aborting latches the finished flag; the caller then removes the
/// snapshot directory.
#[test]
fn remove_backup_latches() {
    let mut env = env();
    let wid = open_dynamic(&mut env, "a.didx");
    env.remove_backup();
    env.ensure_finished().unwrap();
    assert_eq!(
        env.dynamic_writer_append_chunk(wid, 0, 10, &digest(1)).unwrap_err(),
        BackupError::AlreadyFinished
    );
}

/// The debug channel only logs when the session's debug flag is set.
#[test]
fn debug_logging_is_conditional() {
    let mut env = env();
    env.debug(String::from("quiet"));
    assert!(env.take_log_lines().is_empty());
    env.debug = true;
    env.debug(String::from("loud"));
    assert_eq!(env.take_log_lines(), vec![String::from("loud")]);
}

/// The dynamic index writer tracks its record count and end offset.
#[test]
fn dynamic_index_writer_counters() {
    let mut index = DynamicIndexWriter::new([3u8; 16]);
    assert_eq!(index.chunk_count(), 0);
    assert_eq!(index.current_end(), 0);
    index.add_chunk(100, &digest(1)).unwrap();
    index.add_chunk(250, &digest(2)).unwrap();
    assert_eq!(index.chunk_count(), 2);
    assert_eq!(index.current_end(), 250);
    assert_eq!(index.uuid(), [3u8; 16]);
    // a non-increasing end offset is rejected
    assert!(index.add_chunk(250, &digest(3)).is_err());
}

/// A zero-length fixed index has no slots and closes empty.
#[test]
fn zero_length_fixed_index() {
    let mut env = env();
    let index = FixedIndexWriter::new([2u8; 16], 0, 4096);
    assert_eq!(index.index_length(), 0);
    let wid = env
        .register_fixed_writer(index, String::from("empty.fidx"), 0, 4096)
        .unwrap();
    let (_csum, payload) = env.fixed_writer_close(wid, 0, 0).unwrap();
    assert!(payload.is_empty());
}
