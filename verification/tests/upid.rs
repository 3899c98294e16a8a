use backup_core::digest::md5sum;
use backup_core::textenc::{digest_to_hex, to_hex_padded_upper};
use backup_core::upid::UPID;

fn sample() -> UPID {
    UPID {
        pid: 0x1234,
        pstart: 0xABCDEF,
        starttime: 0x5F000001,
        task_id: 0x2A,
        worker_type: String::from("backup"),
        worker_id: Some(String::from("store1")),
        username: String::from("root@pam"),
        node: String::from("node-1"),
    }
}

/// The rendered tag text, field by field.
#[test]
fn upid_text_exact() {
    let text = sample().to_text();
    assert_eq!(
        text,
        "UPID:node-1:00001234:00ABCDEF:0000002A:5F000001:backup:store1:root@pam:"
    );
}

/// An empty worker id renders as an empty field.
#[test]
fn upid_text_without_worker_id() {
    let mut u = sample();
    u.worker_id = None;
    let text = u.to_text();
    assert_eq!(
        text,
        "UPID:node-1:00001234:00ABCDEF:0000002A:5F000001:backup::root@pam:"
    );
}

/// For all valid descriptors, parsing the rendered text gives the
/// descriptor back; here checked on concrete values.
#[test]
fn upid_round_trip() {
    for u in [
        sample(),
        UPID {
            pid: 0,
            pstart: 0xF_FFFF_FFFF, // nine hex digits
            starttime: 0,
            task_id: 0xFFFF_FFFF_FFFF_FFFF,
            worker_type: String::from("garbage_collection"),
            worker_id: None,
            username: String::from("user@pbs!token"),
            node: String::from("a"),
        },
    ] {
        let text = u.to_text();
        let parsed = UPID::parse(&text).expect("round trip failed");
        assert_eq!(parsed.pid, u.pid);
        assert_eq!(parsed.pstart, u.pstart);
        assert_eq!(parsed.starttime, u.starttime);
        assert_eq!(parsed.task_id, u.task_id);
        assert_eq!(parsed.worker_type, u.worker_type);
        assert_eq!(parsed.worker_id, u.worker_id);
        assert_eq!(parsed.username, u.username);
        assert_eq!(parsed.node, u.node);
    }
}

#[test]
fn upid_parse_known_text() {
    let u = UPID::parse("UPID:pve:00001A2B:0003E8F0:00000001:5E0C30A1:backup:ds1:admin@pbs:")
        .unwrap();
    assert_eq!(u.node, "pve");
    assert_eq!(u.pid, 0x1A2B);
    assert_eq!(u.pstart, 0x3E8F0);
    assert_eq!(u.task_id, 1);
    assert_eq!(u.starttime, 0x5E0C30A1);
    assert_eq!(u.worker_type, "backup");
    assert_eq!(u.worker_id, Some(String::from("ds1")));
    assert_eq!(u.username, "admin@pbs");
}

#[test]
fn upid_parse_rejects_malformed() {
    // no tag prefix
    assert!(UPID::parse("XPID:n:00000001:00000001:00000001:00000001:t:i:u:").is_err());
    // missing trailing colon
    assert!(UPID::parse("UPID:n:00000001:00000001:00000001:00000001:t:i:u").is_err());
    // pid not hexadecimal
    assert!(UPID::parse("UPID:n:0000zzzz:00000001:00000001:00000001:t:i:u:").is_err());
    // pid too short
    assert!(UPID::parse("UPID:n:0001:00000001:00000001:00000001:t:i:u:").is_err());
    // pid beyond the 31-bit range
    assert!(UPID::parse("UPID:n:FFFFFFFF:00000001:00000001:00000001:t:i:u:").is_err());
    // node may not start with a hyphen
    assert!(UPID::parse("UPID:-n:00000001:00000001:00000001:00000001:t:i:u:").is_err());
    // whitespace in a field
    assert!(UPID::parse("UPID:n:00000001:00000001:00000001:00000001:t t:i:u:").is_err());
    // empty worker type
    assert!(UPID::parse("UPID:n:00000001:00000001:00000001:00000001::i:u:").is_err());
    assert!(UPID::parse("").is_err());
}

#[test]
fn digest_to_hex_lower_case() {
    assert_eq!(digest_to_hex(&[]), "");
    assert_eq!(digest_to_hex(&[0x00, 0xAB, 0xFF, 0x10]), "00abff10");
}

/// The MD5 helper really digests its input: the well-known digests of
/// the empty input and of "abc".
#[test]
fn md5sum_known_values() {
    let d = md5sum(b"").unwrap();
    assert_eq!(digest_to_hex(&d), "d41d8cd98f00b204e9800998ecf8427e");
    let d = md5sum(b"abc").unwrap();
    assert_eq!(digest_to_hex(&d), "900150983cd24fb0d6963f7d28e17f72");
}

#[test]
fn hex_padded_rendering() {
    assert_eq!(to_hex_padded_upper(2, 0x0A), "0A");
    assert_eq!(to_hex_padded_upper(2, 0xFF), "FF");
    assert_eq!(to_hex_padded_upper(8, 0x1234), "00001234");
    // wider values keep all their digits
    assert_eq!(to_hex_padded_upper(2, 0x1234), "1234");
    assert_eq!(to_hex_padded_upper(4, 0), "0000");
}
