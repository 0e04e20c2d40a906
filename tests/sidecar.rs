use github_rust_actions::error::Error;
use github_rust_actions::sidecar::{decode_record, encode_record, CachedFolderInfo};

#[test]
fn record_text_is_exact() {
    let info = CachedFolderInfo { path: "/root/.cargo/registry/index".to_string(), fingerprint: 42 };
    assert_eq!(encode_record(&info), "path = \"/root/.cargo/registry/index\"\nfingerprint = 42\n");
}

#[test]
fn record_round_trips() {
    for (p, f) in [
        ("/root/.cargo/registry/index", 0u64),
        ("C:\\Users\\me\\.cargo\\git\\db", u64::MAX),
        ("/tmp/\"quoted\"/é/ü", 1234567890123456789),
        ("", 7),
    ] {
        let info = CachedFolderInfo { path: p.to_string(), fingerprint: f };
        let back = decode_record(&encode_record(&info)).unwrap();
        assert_eq!(back.path, p);
        assert_eq!(back.fingerprint, f);
    }
}

#[test]
fn escapes_backslash_and_quote() {
    let info = CachedFolderInfo { path: "a\\b\"c".to_string(), fingerprint: 5 };
    assert_eq!(encode_record(&info), "path = \"a\\\\b\\\"c\"\nfingerprint = 5\n");
}

fn is_serialization(r: Result<CachedFolderInfo, Error>) -> bool {
    matches!(r, Err(Error::Serialization(_)))
}

#[test]
fn malformed_records_are_rejected() {
    assert!(is_serialization(decode_record("")));
    assert!(is_serialization(decode_record("path = \"/x")));
    assert!(is_serialization(decode_record("path = \"/x\"\nfingerprint = \n")));
    assert!(is_serialization(decode_record("path = \"/x\"\nfingerprint = 12")));
    assert!(is_serialization(decode_record("path = \"/x\"\nfingerprint = 1a\n")));
    assert!(is_serialization(decode_record("path = \"/x\\n\"\nfingerprint = 1\n")));
    assert!(is_serialization(decode_record("path = \"/x\"\nfingerprint = 18446744073709551616\n")));
    assert!(is_serialization(decode_record("path = \"/x\"\nprint = 1\n")));
}

#[test]
fn largest_fingerprint_reads_back() {
    let r = decode_record("path = \"/x\"\nfingerprint = 18446744073709551615\n").unwrap();
    assert_eq!(r.fingerprint, u64::MAX);
    assert_eq!(r.path, "/x");
}
