use rtk::utils::{ok_confirmation, truncate};

#[test]
fn test_truncate_short_string() {
    assert_eq!(truncate("hello", 10), "hello");
}

#[test]
fn test_truncate_long_string() {
    let result = truncate("hello world", 8);
    assert_eq!(result, "hello...");
}

#[test]
fn test_truncate_exact_length() {
    assert_eq!(truncate("hello", 5), "hello");
}

#[test]
fn test_truncate_edge_case() {
    assert_eq!(truncate("hello", 2), "...");
    assert_eq!(truncate("abc", 3), "abc");
    assert_eq!(truncate("hello world", 3), "...");
}

#[test]
fn truncate_counts_bytes_of_multibyte_text() {
    // "é" takes two bytes: five of "héllo!" end after "hél".
    assert_eq!(truncate("h\u{e9}llo!", 7), "h\u{e9}llo!");
    assert_eq!(truncate("h\u{e9}llo!", 6), "h\u{e9}...");
}

#[test]
fn test_ok_confirmation_pr_create() {
    let result = ok_confirmation("created", "#42 https://github.com/foo/bar/pull/42");
    assert!(result.contains("ok created"));
    assert!(result.contains("#42"));
}

#[test]
fn test_ok_confirmation_pr_merge() {
    let result = ok_confirmation("merged", "#42");
    assert_eq!(result, "ok merged #42");
}

#[test]
fn test_ok_confirmation_pr_comment() {
    let result = ok_confirmation("commented", "#42");
    assert_eq!(result, "ok commented #42");
}

#[test]
fn test_ok_confirmation_pr_edit() {
    let result = ok_confirmation("edited", "#42");
    assert_eq!(result, "ok edited #42");
}

#[test]
fn truncate_never_splits_a_character() {
    // two bytes are left for text; "é" would need bytes 2 and 3
    assert_eq!(truncate("h\u{e9}llo!", 5), "h...");
}
