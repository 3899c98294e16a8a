use backup_core::digests_equal;
use backup_core::tools::{
    assert_if_modified, detect_modified_configuration_file, extract_cookie, fail_on_shutdown,
    non_comment_line, normalize_uri_path, percent_encode_component, query_from_pairs,
    strip_ascii_whitespace, ToolError,
};

#[test]
fn digests_equal_compares_bytes() {
    let a = [7u8; 32];
    let mut b = [7u8; 32];
    assert!(digests_equal(&a, &b));
    b[31] = 8;
    assert!(!digests_equal(&a, &b));
}

#[test]
fn modified_configuration_detection() {
    assert!(assert_if_modified("aabb", "aabb").is_ok());
    assert_eq!(
        assert_if_modified("aabb", "aacc").unwrap_err(),
        ToolError::ModifiedConfiguration
    );

    let a = [1u8; 32];
    let mut b = [1u8; 32];
    assert!(detect_modified_configuration_file(&a, &b).is_ok());
    b[0] = 2;
    assert_eq!(
        detect_modified_configuration_file(&a, &b).unwrap_err(),
        ToolError::ModifiedConfiguration
    );
}

#[test]
fn shutdown_check() {
    assert!(fail_on_shutdown(false).is_ok());
    assert_eq!(fail_on_shutdown(true).unwrap_err(), ToolError::ShutdownRequested);
}

#[test]
fn normalize_uri_path_cases() {
    let (path, components) = normalize_uri_path("/api2//json/admin/").unwrap();
    assert_eq!(path, "/api2/json/admin");
    assert_eq!(components, vec!["api2", "json", "admin"]);

    let (path, components) = normalize_uri_path("").unwrap();
    assert_eq!(path, "");
    assert!(components.is_empty());

    // relative steps and hidden names are rejected
    assert_eq!(
        normalize_uri_path("/a/../b").unwrap_err(),
        ToolError::IllegalPathComponent
    );
    assert_eq!(
        normalize_uri_path("/a/.hidden").unwrap_err(),
        ToolError::IllegalPathComponent
    );
    assert_eq!(normalize_uri_path(".").unwrap_err(), ToolError::IllegalPathComponent);
}

#[test]
fn strip_ascii_whitespace_cases() {
    assert_eq!(strip_ascii_whitespace(b"  hello \t"), b"hello");
    assert_eq!(strip_ascii_whitespace(b"\r\nline\n"), b"line");
    assert_eq!(strip_ascii_whitespace(b"untouched"), b"untouched");
    assert_eq!(strip_ascii_whitespace(b" \t\r\n "), b"");
    assert_eq!(strip_ascii_whitespace(b""), b"");
    // inner whitespace stays
    assert_eq!(strip_ascii_whitespace(b" a b "), b"a b");
}

#[test]
fn percent_encoding_component() {
    assert_eq!(percent_encode_component("abcXYZ019"), "abcXYZ019");
    assert_eq!(percent_encode_component("a b"), "a%20b");
    assert_eq!(percent_encode_component("x/y:z"), "x%2Fy%3Az");
    assert_eq!(percent_encode_component(""), "");
}

#[test]
fn query_serialization() {
    let pairs = vec![
        (String::from("store"), String::from("tank one")),
        (String::from("limit"), String::from("10")),
        (String::from("path"), String::from("a/b&c")),
    ];
    assert_eq!(query_from_pairs(&pairs), "store=tank+one&limit=10&path=a%2Fb%26c");
    assert_eq!(query_from_pairs(&Vec::new()), "");
}

#[test]
fn non_comment_line_filtering() {
    assert_eq!(non_comment_line("  keep me  "), Some(String::from("keep me")));
    assert_eq!(non_comment_line("plain"), Some(String::from("plain")));
    assert_eq!(non_comment_line("   "), None);
    assert_eq!(non_comment_line(""), None);
    assert_eq!(non_comment_line("# a comment"), None);
    assert_eq!(non_comment_line("  \t# indented comment"), None);
}

#[test]
fn cookie_extraction() {
    assert_eq!(
        extract_cookie("PBSAuthCookie=abc%20def", "PBSAuthCookie"),
        Some(String::from("abc def"))
    );
    assert_eq!(
        extract_cookie("a=1; PBSAuthCookie=x%3Dy; b=2", "PBSAuthCookie"),
        Some(String::from("x=y"))
    );
    // names and values are trimmed
    assert_eq!(
        extract_cookie("  PBSAuthCookie =  v ", "PBSAuthCookie"),
        Some(String::from("v"))
    );
    // lower-case escapes decode too; a malformed escape passes through
    assert_eq!(extract_cookie("c=%2f%zz", "c"), Some(String::from("/%zz")));
    // a pair without '=' is a format error
    assert_eq!(extract_cookie("junk; c=1", "c"), None);
    // no matching pair
    assert_eq!(extract_cookie("a=1; b=2", "c"), None);
    assert_eq!(extract_cookie("", "c"), None);
    // bytes that do not decode as UTF-8 give nothing
    assert_eq!(extract_cookie("c=%FF", "c"), None);
}
