use rtk::lint_cmd::{compact_path, filter_generic_lint};
use rtk::playwright_cmd::extract_spec_dir;

#[test]
fn test_compact_path() {
    assert_eq!(compact_path("/Users/foo/project/src/utils.ts"), "src/utils.ts");
    assert_eq!(compact_path("C:\\Users\\project\\src\\api.ts"), "src/api.ts");
    assert_eq!(compact_path("simple.ts"), "simple.ts");
}

#[test]
fn compact_path_prefers_last_src_then_lib() {
    assert_eq!(compact_path("/a/src/b/src/c.ts"), "src/c.ts");
    assert_eq!(compact_path("/home/x/lib/util.py"), "lib/util.py");
    assert_eq!(compact_path("/home/x/other/util.py"), "util.py");
}

#[test]
fn test_extract_spec_dir() {
    assert_eq!(extract_spec_dir("auth/login.spec.ts"), "auth");
    assert_eq!(extract_spec_dir("features/dashboard/home.spec.ts"), "features/dashboard");
    assert_eq!(extract_spec_dir("simple.spec.ts"), "root");
}

#[test]
fn filter_generic_lint_counts_issues() {
    let out = filter_generic_lint("a.py:1: Warning: unused\nb.py:2: error: bad\nfound 0 errors\nok\n");
    let rule = "\u{2550}".repeat(39);
    assert_eq!(
        out,
        format!("Lint: 1 errors, 1 warnings\n{}\na.py:1: Warning: unused\nb.py:2: error: bad", rule)
    );
    assert_eq!(filter_generic_lint("all good\n"), "\u{2713} Lint: No issues found");
}
