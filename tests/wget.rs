use rtk::wget_cmd::{compact_url, extract_filename_from_output, parse_error, truncate_line};

#[test]
fn compact_url_drops_scheme() {
    assert_eq!(compact_url("https://example.com/file.zip"), "example.com/file.zip");
    assert_eq!(compact_url("http://example.com/a"), "example.com/a");
    assert_eq!(compact_url("ftp://example.com/a"), "ftp://example.com/a");
}

#[test]
fn compact_url_shortens_long_urls() {
    let url = "https://downloads.example.com/releases/v1.2.3/archive-linux-x86_64.tar.gz";
    assert_eq!(compact_url(url), "downloads.example.com/rel...-linux-x86_64.tar.gz");
}

#[test]
fn parse_error_known_failures() {
    assert_eq!(parse_error("HTTP request sent, awaiting response... 404 Not Found", ""), "404 Not Found");
    assert_eq!(parse_error("", "ERROR 403: Forbidden"), "403 Forbidden");
    assert_eq!(parse_error("failed: Connection refused.", ""), "Connection refused");
    assert_eq!(parse_error("wget: unable to resolve host address", ""), "DNS lookup failed");
    assert_eq!(parse_error("SSL handshake failed", ""), "SSL/TLS error");
}

#[test]
fn parse_error_first_meaningful_line() {
    assert_eq!(parse_error("--2024-01-01--  http://x\n\n  disk full  \n", ""), "disk full");
    let long = format!("{}\n", "e".repeat(70));
    assert_eq!(parse_error(&long, ""), format!("{}...", "e".repeat(60)));
    assert_eq!(parse_error("", ""), "Unknown error");
}

#[test]
fn truncate_line_cuts_at_byte_limit() {
    assert_eq!(truncate_line("short", 10), "short");
    assert_eq!(truncate_line("abcdefghij", 8), "abcde...");
}

fn strings(items: &[&str]) -> Vec<String> {
    items.iter().map(|s| s.to_string()).collect()
}

#[test]
fn filename_from_arguments() {
    let url = "https://x.org/a.tar.gz";
    assert_eq!(extract_filename_from_output("", url, &strings(&["-O", "out.bin"])), "out.bin");
    assert_eq!(extract_filename_from_output("", url, &strings(&["-Oout.bin"])), "out.bin");
    assert_eq!(
        extract_filename_from_output("", url, &strings(&["--output-document", "o.txt"])),
        "o.txt"
    );
}

#[test]
fn filename_from_messages() {
    let en = "Saving to: 'report.pdf'\n";
    assert_eq!(extract_filename_from_output(en, "https://x.org/", &Vec::new()), "report.pdf");
    let fr = "Sauvegarde en : \u{ab} donn\u{e9}es.csv \u{bb}\n";
    assert_eq!(extract_filename_from_output(fr, "https://x.org/", &Vec::new()), "donn\u{e9}es.csv");
}

#[test]
fn filename_from_url() {
    assert_eq!(extract_filename_from_output("", "https://x.org/dl/file.zip?x=1", &Vec::new()), "file.zip");
    assert_eq!(extract_filename_from_output("", "https://x.org/dl/", &Vec::new()), "index.html");
    assert_eq!(extract_filename_from_output("", "https://x.org/readme", &Vec::new()), "index.html");
}

#[test]
fn parse_error_cuts_on_character_boundary() {
    let line = format!("{}\u{e9}tail more text\n", "a".repeat(59));
    assert_eq!(parse_error(&line, ""), format!("{}...", "a".repeat(59)));
}
