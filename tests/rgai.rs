use rtk::rgai_cmd::{
    analyze_file, build_query_model, compact_path, is_comment_line, is_supported_text_file,
    is_symbol_definition, json_report, looks_binary, matches_file_type, max_file_bytes,
    prepare_query, render_text, score_file, score_line, score_path, search_settings, stem_token,
    truncate_chars, QueryModel, SearchError, SearchOutcome,
};

fn chars(s: &str) -> Vec<char> {
    s.chars().collect()
}

fn text(v: &[char]) -> String {
    v.iter().collect()
}

/// ln(1 + n) in hundred-thousandths, as the command computes it.
fn log_bonus(n: usize) -> u128 {
    ((n as f64).ln_1p() * 100000.0).round() as u128
}

/// Runs the scan over in-memory files, as the command does over a tree.
fn search(
    query: &QueryModel,
    files: &[(&str, &str)],
    context: usize,
    per_file: usize,
    max_bytes: usize,
) -> SearchOutcome {
    let mut outcome = SearchOutcome::new();
    for (path, content) in files {
        if !is_supported_text_file(path) {
            continue;
        }
        if outcome.scanned_files == usize::MAX {
            break;
        }
        if !outcome.note_scanned(content.len() as u64, max_bytes) {
            continue;
        }
        if !outcome.note_content(content.as_bytes()) {
            continue;
        }
        if let Some(a) = analyze_file(path, content, query, context, per_file) {
            let bonus = log_bonus(a.matched_lines);
            if let Some(hit) = score_file(a, bonus) {
                outcome.add_hit(hit);
            }
        }
    }
    outcome.finish()
}

#[test]
fn build_query_model_removes_stop_words() {
    let model = build_query_model("how to find auth token refresh");
    assert!(model.terms.contains(&"auth".to_string()));
    assert!(model.terms.contains(&"token".to_string()));
    assert!(model.terms.contains(&"refresh".to_string()));
    assert!(!model.terms.contains(&"how".to_string()));
    assert!(!model.terms.contains(&"find".to_string()));
}

#[test]
fn build_query_model_adds_stems_in_order() {
    let model = build_query_model("  Parsing Tokens  ");
    assert_eq!(model.phrase, "parsing tokens");
    assert_eq!(model.terms, vec!["parsing", "tokens", "token"]);
}

#[test]
fn stop_word_query_falls_back_to_phrase() {
    let model = build_query_model("How to, the?");
    assert_eq!(model.phrase, "how to, the?");
    assert_eq!(model.terms, vec!["how to, the?"]);
}

#[test]
fn stem_is_idempotent_on_stems() {
    for word in ["running", "tokens", "refreshed", "quickly", "matchingly", "a", "go"] {
        let once = stem_token(&chars(word));
        let twice = stem_token(&once);
        assert_eq!(once, twice, "{}", word);
    }
    assert_eq!(text(&stem_token(&chars("classes"))), "class");
    assert_eq!(text(&stem_token(&chars("class"))), "clas");
    assert_eq!(text(&stem_token(&chars("bus"))), "bus");
    assert_eq!(text(&stem_token(&chars("makes"))), "make");
    assert_eq!(text(&stem_token(&chars("parsing"))), "parsing");
    assert_eq!(text(&stem_token(&chars("reading"))), "reading");
    assert_eq!(text(&stem_token(&chars("fetching"))), "fetch");
}

#[test]
fn score_line_prefers_symbol_definitions() {
    let query = build_query_model("refresh token");
    let line = "pub fn refresh_token(session: &Session) -> Result<String> {";
    let cand = score_line(10, &chars(line), &query).expect("line should match");
    // thousandths of a point
    assert!(cand.score > 3000);
    assert!(cand.matched_terms.contains(&"refresh".to_string()));
    assert!(cand.matched_terms.contains(&"token".to_string()));
}

#[test]
fn score_line_exact_values() {
    let query = build_query_model("refresh token");
    // phrase 6.0 + 1.7 + 1.7 + 1.2 = 10.6
    let c = score_line(0, &chars("let refresh token = 1;"), &query).unwrap();
    assert_eq!(c.score, 10600);
    // one term of five letters: 1.7
    let c = score_line(3, &chars("    token"), &query).unwrap();
    assert_eq!(c.score, 1700);
    assert_eq!(c.line_idx, 3);
    // comment: 1.7 * 0.7 = 1.19 < 1.2
    assert!(score_line(0, &chars("// token"), &query).is_none());
    assert!(score_line(0, &chars("   "), &query).is_none());
    assert!(score_line(0, &chars("nothing"), &query).is_none());
}

#[test]
fn two_terms_score_higher_than_one() {
    let query = build_query_model("alpha beta");
    let two = score_line(0, &chars("x alpha y beta"), &query).unwrap();
    let one = score_line(0, &chars("x alpha y gamma"), &query).unwrap();
    assert!(two.score > one.score);
}

#[test]
fn definition_adds_two_and_a_half_points() {
    let query = build_query_model("widget");
    let def = score_line(0, &chars("fn widget() {"), &query).unwrap();
    let plain = score_line(0, &chars("do widget() {"), &query).unwrap();
    assert_eq!(def.score, plain.score + 2500);
}

#[test]
fn comment_scales_by_seven_tenths() {
    let query = build_query_model("refresh token");
    let plain = score_line(0, &chars("refresh token here"), &query).unwrap();
    let comment = score_line(0, &chars("# refresh token here"), &query).unwrap();
    assert_eq!(comment.score * 10, plain.score * 7);
}

#[test]
fn long_line_scales_by_nine_tenths() {
    let query = build_query_model("widget");
    let long = format!("widget {}", "x".repeat(230));
    let c = score_line(0, &chars(&long), &query).unwrap();
    assert_eq!(c.score, 6930);
}

#[test]
fn definition_and_comment_detectors() {
    assert!(is_symbol_definition(&chars("  pub async fn go()")));
    assert!(is_symbol_definition(&chars("class Foo:")));
    assert!(is_symbol_definition(&chars("interface _Bar")));
    assert!(!is_symbol_definition(&chars("fnord x")));
    assert!(!is_symbol_definition(&chars("fn 9x")));
    assert!(!is_symbol_definition(&chars("pub x")));
    assert!(is_comment_line(&chars("   // note")));
    assert!(is_comment_line(&chars("-- sql")));
    assert!(is_comment_line(&chars("* item")));
    assert!(!is_comment_line(&chars("/ x")));
}

#[test]
fn score_path_exact_values() {
    let query = build_query_model("auth token");
    // phrase absent, both terms: 2.4
    assert_eq!(score_path(&chars("src/Auth/Token.rs"), &query), 24);
    assert_eq!(score_path(&chars("docs/auth token.md"), &query), 59);
    assert_eq!(score_path(&chars("src/main.rs"), &query), 0);
}

#[test]
fn search_project_finds_most_relevant_file() {
    let auth = "\npub struct Session {}\n\npub fn refresh_token(session: &Session) -> String {\n    format!(\"new-token-{}\", 1)\n}\n";
    let logger = "\npub fn log_info(msg: &str) {\n    println!(\"{}\", msg);\n}\n";
    let query = build_query_model("refresh token session");
    let outcome = search(&query, &[("src/auth.rs", auth), ("src/logger.rs", logger)], 0, 2, 256 * 1024);
    assert!(!outcome.hits.is_empty());
    assert_eq!(outcome.hits[0].path, "src/auth.rs");
    assert_eq!(outcome.hits.len(), 1);
    assert_eq!(outcome.scanned_files, 2);
}

#[test]
fn path_with_phrase_ranks_first() {
    let content = "fn main() { let widget = 1; }\n";
    let query = build_query_model("widget");
    let outcome = search(&query, &[("a/other.rs", content), ("b/widget.rs", content)], 0, 2, 1 << 20);
    assert_eq!(outcome.hits.len(), 2);
    assert_eq!(outcome.hits[0].path, "b/widget.rs");
    assert!(outcome.hits[0].score > outcome.hits[1].score);
}

#[test]
fn equal_scores_order_by_lowercase_path() {
    let content = "fn widget()\n";
    let query = build_query_model("gadget widget");
    let outcome = search(&query, &[("b.txt", content), ("A.txt", content)], 0, 2, 1 << 20);
    assert_eq!(outcome.hits.len(), 2);
    assert_eq!(outcome.hits[0].path, "A.txt");
}

#[test]
fn snippet_anchors_stay_apart() {
    let mut content = String::new();
    for i in 0..20 {
        content.push_str(&format!("widget line {}\n", i));
    }
    let query = build_query_model("widget");
    let a = analyze_file("w.txt", &content, &query, 1, 2).unwrap();
    assert_eq!(a.matched_lines, 20);
    assert_eq!(a.snippets.len(), 2);
    let first = a.snippets[0].lines.iter().map(|l| l.line).collect::<Vec<_>>();
    let second = a.snippets[1].lines.iter().map(|l| l.line).collect::<Vec<_>>();
    assert_eq!(first, vec![1, 2]);
    assert_eq!(second, vec![4, 5, 6]);
}

#[test]
fn snippet_rows_are_trimmed_and_cut() {
    let long = format!("   widget {}   ", "y".repeat(200));
    let content = format!("\n{}\n\n", long);
    let query = build_query_model("widget");
    let a = analyze_file("w.txt", &content, &query, 1, 1).unwrap();
    assert_eq!(a.snippets.len(), 1);
    let rows = &a.snippets[0].lines;
    assert_eq!(rows.len(), 1);
    assert_eq!(rows[0].line, 2);
    assert_eq!(rows[0].text.chars().count(), 140);
    assert!(rows[0].text.ends_with("..."));
    assert_eq!(a.snippets[0].matched_terms, vec!["widget"]);
}

#[test]
fn large_file_is_skipped_and_not_a_hit() {
    let query = build_query_model("needle");
    let big = format!("needle\n{}", "x".repeat(4000));
    let outcome = search(&query, &[("big.txt", &big)], 0, 2, max_file_bytes(1));
    assert_eq!(outcome.skipped_large, 1);
    assert_eq!(outcome.scanned_files, 1);
    assert!(outcome.hits.is_empty());
}

#[test]
fn binary_file_is_skipped() {
    let query = build_query_model("needle");
    let outcome = search(&query, &[("b.txt", "needle\0")], 0, 2, 1 << 20);
    assert_eq!(outcome.skipped_binary, 1);
    assert!(outcome.hits.is_empty());
    assert!(looks_binary(&[1, 2, 0]));
    let mut late = vec![1u8; 5000];
    late[4500] = 0;
    assert!(!looks_binary(&late));
}

#[test]
fn empty_query_is_refused() {
    assert_eq!(prepare_query("   ").unwrap_err(), SearchError::EmptyQuery);
    assert_eq!(prepare_query("").unwrap_err(), SearchError::EmptyQuery);
    assert!(prepare_query(" x ").is_ok());
}

#[test]
fn settings_and_byte_ceiling() {
    assert_eq!(search_settings(true, 3), (0, 1));
    assert_eq!(search_settings(false, 3), (3, 2));
    assert_eq!(max_file_bytes(0), 1024);
    assert_eq!(max_file_bytes(256), 262144);
    assert_eq!(max_file_bytes(usize::MAX), usize::MAX);
}

#[test]
fn matches_file_type_aliases() {
    assert!(matches_file_type("src/app.tsx", "ts"));
    assert!(matches_file_type("src/app.tsx", "typescript"));
    assert!(!matches_file_type("src/app.tsx", "rust"));
}

#[test]
fn matches_file_type_other_forms() {
    assert!(matches_file_type("x/y.PY", ".Python"));
    assert!(matches_file_type("a.toml", "toml"));
    assert!(matches_file_type("a.toml", ""));
    assert!(!matches_file_type("Makefile", "make"));
    assert!(matches_file_type("a.h", "c"));
}

#[test]
fn supported_text_files() {
    assert!(is_supported_text_file("src/main.rs"));
    assert!(!is_supported_text_file("img/logo.PNG"));
    assert!(!is_supported_text_file("Cargo.lock"));
    assert!(is_supported_text_file(".gitignore"));
    assert!(is_supported_text_file("dir.png/readme"));
}

#[test]
fn truncate_chars_handles_unicode() {
    let s = "Привет это длинная строка для теста";
    let truncated = truncate_chars(&chars(s), 10);
    assert!(truncated.len() <= 10);
    assert_eq!(text(&truncated), "Привет ...");
}

#[test]
fn compact_path_shortens_long_paths() {
    let long = "very/long/directory/structure/that/goes/on/and/on/forever/file.rs";
    assert_eq!(compact_path(long), "very/.../forever/file.rs");
    assert_eq!(compact_path("short/path.rs"), "short/path.rs");
    let three = format!("{}/b/c", "a".repeat(60));
    assert_eq!(compact_path(&three), three);
}

#[test]
fn text_and_json_reports_agree() {
    let query = build_query_model("widget");
    let files = [("a.rs", "widget\n"), ("b.rs", "fn widget()\n"), ("c.rs", "widget widget\n")];
    let outcome = search(&query, &files, 0, 2, 1 << 20);
    let text = render_text("widget", &outcome, 2, false);
    let order: Vec<String> = outcome.hits.iter().map(|h| h.path.clone()).collect();
    let report = json_report(outcome, 2);
    assert_eq!(report.total_hits, 3);
    assert_eq!(report.shown_hits, 2);
    assert!(text.starts_with("\u{1F9E0} 3F for 'widget' (scan 3F)\n\n"));
    let p0 = text.find(&report.hits[0].path).unwrap();
    let p1 = text.find(&report.hits[1].path).unwrap();
    assert!(p0 < p1);
    assert_eq!(report.hits[0].path, order[0]);
    assert_eq!(report.hits[1].path, order[1]);
    assert!(text.ends_with("... +1F\n"));
}

#[test]
fn render_text_exact() {
    let query = build_query_model("widget");
    let outcome = search(&query, &[("w.rs", "fn widget()\nwidget\n")], 0, 1, 1 << 20);
    let text = render_text("widget", &outcome, 10, true);
    assert_eq!(
        text,
        "\u{1F9E0} 1F for 'widget' (scan 1F)\n\n\u{1F4C4} w.rs [11.3]\n     1: fn widget()\n\n  +1 more lines\n\n"
    );
    let empty = SearchOutcome::new();
    assert_eq!(render_text("zz", &empty, 10, false), "\u{1F9E0} 0 for 'zz'\n");
}

#[test]
fn transcript_lists_snippet_rows() {
    let query = build_query_model("widget");
    let outcome = search(&query, &[("w.rs", "a\nwidget\n")], 0, 2, 1 << 20);
    assert_eq!(outcome.raw_output, "w.rs:2:widget\n");
}

#[test]
fn compact_path_counts_characters() {
    let seg = "\u{416}".repeat(10);
    let path = format!("{}/{}/{}/{}/{}", seg, seg, seg, seg, seg);
    assert_eq!(path.chars().count(), 54);
    assert_eq!(compact_path(&path), path);
}

#[test]
fn term_length_counts_characters() {
    // "café" has four characters (five bytes): 6.0 for the phrase, 1.4 for the term
    let query = build_query_model("caf\u{e9}");
    let c = score_line(0, &chars("caf\u{e9} au lait"), &query).unwrap();
    assert_eq!(c.score, 7400);
}
