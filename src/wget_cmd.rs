//! Condensed reporting of `wget` downloads: URLs, errors and output lines.
use crate::text::{
    append_chars, append_str, byte_cut, byte_len, byte_len_exceeds, byte_prefix, chars_of,
    contains, contains_chars, lines_of, slice_chars, split_lines, starts_with, starts_with_str,
    string_of, trim, trim_chars, copy_chars, rfind, rfind_chars, split_on, split_on_char, equals_str,
};
use crate::rgai_cmd::{strs, views};
use vstd::prelude::*;

verus! {

/// A URL without its `https://` or `http://` scheme.
pub open spec fn without_scheme(url: Seq<char>) -> Seq<char> {
    if starts_with(url, "https://"@) {
        url.skip(8)
    } else if starts_with(url, "http://"@) {
        url.skip(7)
    } else {
        url
    }
}

/// A URL shortened for a status line: without its scheme, and where that is
/// over fifty bytes, its first 25 bytes, `...`, and its last 20 bytes.
pub fn compact_url(url: &str) -> (r: String)
    requires
        byte_len(url@) <= usize::MAX,
    ensures
        ({
            let w = without_scheme(url@);
            r@ == (if byte_len(w) <= 50 {
                w
            } else {
                byte_cut(w, 25) + "..."@ + w.skip(byte_cut(w, (byte_len(w) - 20) as nat).len() as int)
            })
        }),
{
    let u = chars_of(url);
    proof {
        reveal_strlit("https://");
        reveal_strlit("http://");
    }
    let w = if starts_with_str(&u, "https://") {
        slice_chars(&u, 8, u.len())
    } else if starts_with_str(&u, "http://") {
        slice_chars(&u, 7, u.len())
    } else {
        slice_chars(&u, 0, u.len())
    };
    assert(w@ =~= without_scheme(url@));
    if !byte_len_exceeds(&w, 50) {
        return string_of(&w);
    }
    let ghost total = byte_len(w@);
    let head = byte_prefix(&w, 25);
    let mut out = head;
    append_str(&mut out, "...");
    proof {
        crate::text::lemma_byte_len_concat(u@.take(u@.len() - w@.len()), w@);
        assert(u@.take(u@.len() - w@.len()) + w@ =~= u@);
    }
    let b = crate::text::byte_len_min(&w, usize::MAX);
    let front = byte_prefix(&w, b - 20);
    proof {
        crate::text::lemma_fit_count_bound(w@, (total - 20) as nat);
    }
    let tail = slice_chars(&w, front.len(), w.len());
    append_chars(&mut out, &tail);
    proof {
        assert(tail@ =~= w@.skip(front@.len() as int));
        assert(out@ == byte_cut(w@, 25) + "..."@ + w@.skip(byte_cut(w@, (total - 20) as nat).len() as int));
    }
    string_of(&out)
}

/// Cuts a line to at most `max` bytes, the last three of a cut being `...`.
pub fn truncate_line(line: &str, max: usize) -> (r: String)
    requires
        byte_len(line@) <= max || max >= 3,
    ensures
        r@ == (if byte_len(line@) <= max {
            line@
        } else {
            byte_cut(line@, (max - 3) as nat) + "..."@
        }),
{
    let c = chars_of(line);
    if !byte_len_exceeds(&c, max) {
        return string_of(&c);
    }
    let mut out = byte_prefix(&c, max - 3);
    append_str(&mut out, "...");
    string_of(&out)
}

/// The first line from `i` on that is not blank and does not open with
/// `--`, trimmed.
pub open spec fn first_meaningful(lines: Seq<Seq<char>>, i: int) -> Option<Seq<char>>
    decreases lines.len() - i,
{
    if i < 0 || i >= lines.len() {
        None
    } else {
        let t = trim(lines[i]);
        if t.len() > 0 && !starts_with(t, "--"@) {
            Some(t)
        } else {
            first_meaningful(lines, i + 1)
        }
    }
}

/// A known failure found in the combined output, if any.
pub open spec fn known_error(combined: Seq<char>) -> Option<Seq<char>> {
    if contains(combined, "404"@) {
        Some("404 Not Found"@)
    } else if contains(combined, "403"@) {
        Some("403 Forbidden"@)
    } else if contains(combined, "401"@) {
        Some("401 Unauthorized"@)
    } else if contains(combined, "500"@) {
        Some("500 Server Error"@)
    } else if contains(combined, "Connection refused"@) {
        Some("Connection refused"@)
    } else if contains(combined, "unable to resolve"@) || contains(
        combined,
        "Name or service not known"@,
    ) {
        Some("DNS lookup failed"@)
    } else if contains(combined, "timed out"@) {
        Some("Connection timed out"@)
    } else if contains(combined, "SSL"@) || contains(combined, "certificate"@) {
        Some("SSL/TLS error"@)
    } else {
        None
    }
}

fn known_error_exec(combined: &Vec<char>) -> (r: Option<Vec<char>>)
    ensures
        match r {
            Some(v) => known_error(combined@) == Some(v@),
            None => known_error(combined@) is None,
        },
{
    let mut out: Vec<char> = Vec::new();
    if contains_chars(combined, &chars_of("404")) {
        append_str(&mut out, "404 Not Found");
    } else if contains_chars(combined, &chars_of("403")) {
        append_str(&mut out, "403 Forbidden");
    } else if contains_chars(combined, &chars_of("401")) {
        append_str(&mut out, "401 Unauthorized");
    } else if contains_chars(combined, &chars_of("500")) {
        append_str(&mut out, "500 Server Error");
    } else if contains_chars(combined, &chars_of("Connection refused")) {
        append_str(&mut out, "Connection refused");
    } else if contains_chars(combined, &chars_of("unable to resolve")) || contains_chars(
        combined,
        &chars_of("Name or service not known"),
    ) {
        append_str(&mut out, "DNS lookup failed");
    } else if contains_chars(combined, &chars_of("timed out")) {
        append_str(&mut out, "Connection timed out");
    } else if contains_chars(combined, &chars_of("SSL")) || contains_chars(
        combined,
        &chars_of("certificate"),
    ) {
        append_str(&mut out, "SSL/TLS error");
    } else {
        return None;
    }
    Some(out)
}

/// A one-line reason for a failed download: a known failure found in the
/// error or normal output, else the first meaningful error line (cut at
/// sixty bytes), else `Unknown error`.
pub fn parse_error(stderr: &str, stdout: &str) -> (r: String)
    ensures
        ({
            let combined = stderr@ + "\n"@ + stdout@;
            match known_error(combined) {
                Some(k) => r@ == k,
                None => match first_meaningful(lines_of(stderr@), 0) {
                    Some(t) => r@ == (if byte_len(t) <= 60 {
                        t
                    } else {
                        byte_cut(t, 60) + "..."@
                    }),
                    None => r@ == "Unknown error"@,
                },
            }
        }),
{
    let mut combined = chars_of(stderr);
    append_str(&mut combined, "\n");
    let so = chars_of(stdout);
    append_chars(&mut combined, &so);
    assert(combined@ =~= stderr@ + "\n"@ + stdout@);
    match known_error_exec(&combined) {
        Some(k) => {
            return string_of(&k);
        },
        None => {},
    }
    let text = chars_of(stderr);
    let lines = split_lines(&text);
    let ghost lv = lines_of(stderr@);
    assert(crate::rgai_cmd::views(lines@) =~= lv);
    let mut i: usize = 0;
    while i < lines.len()
        invariant
            i <= lines@.len(),
            lv == crate::rgai_cmd::views(lines@),
            lv == lines_of(stderr@),
            known_error(stderr@ + "\n"@ + stdout@) is None,
            first_meaningful(lv, 0) == first_meaningful(lv, i as int),
        decreases lines.len() - i,
    {
        assert(lines@[i as int]@ == lv[i as int]);
        let t = trim_chars(&lines[i]);
        if t.len() > 0 && !starts_with_str(&t, "--") {
            if byte_len_exceeds(&t, 60) {
                let mut out = byte_prefix(&t, 60);
                append_str(&mut out, "...");
                return string_of(&out);
            }
            return string_of(&t);
        }
        i += 1;
    }
    let mut out: Vec<char> = Vec::new();
    append_str(&mut out, "Unknown error");
    string_of(&out)
}

/// The output file named by the arguments from `i` on: the argument after
/// `-O` or `--output-document`, or the rest of an argument that begins
/// with `-O`.
pub open spec fn arg_filename(args: Seq<Seq<char>>, i: int) -> Option<Seq<char>>
    decreases args.len() - i,
{
    if i < 0 || i >= args.len() {
        None
    } else {
        let a = args[i];
        if (a == "-O"@ || a == "--output-document"@) && i + 1 < args.len() {
            Some(args[i + 1])
        } else if starts_with(a, "-O"@) {
            Some(a.skip(2))
        } else {
            arg_filename(args, i + 1)
        }
    }
}

/// Positions of the opening and closing quote marks after the first `k`
/// characters of a line: an opening `«`, or the first `'`; a closing `»`,
/// or a `'` once an opening mark is seen.
pub open spec fn quote_scan(chars: Seq<char>, k: int) -> (Option<int>, Option<int>)
    decreases k,
{
    if k <= 0 {
        (None, None)
    } else {
        let (st, en) = quote_scan(chars, k - 1);
        let c = chars[k - 1];
        let st2 = if c == '\u{ab}' || (c == '\'' && st is None) {
            Some(k - 1)
        } else {
            st
        };
        let en2 = if c == '\u{bb}' || (c == '\'' && st2 is Some) {
            Some(k - 1)
        } else {
            en
        };
        (st2, en2)
    }
}

/// The quoted file name of a `Saving to` (or `Sauvegarde en`) line, trimmed.
pub open spec fn saved_name(line: Seq<char>) -> Option<Seq<char>> {
    if contains(line, "Sauvegarde en"@) || contains(line, "Saving to"@) {
        match quote_scan(line, line.len() as int) {
            (Some(st), Some(en)) => if en > st + 1 {
                Some(trim(line.subrange(st + 1, en)))
            } else {
                None
            },
            _ => None,
        }
    } else {
        None
    }
}

pub open spec fn saved_name_from(lines: Seq<Seq<char>>, i: int) -> Option<Seq<char>>
    decreases lines.len() - i,
{
    if i < 0 || i >= lines.len() {
        None
    } else {
        match saved_name(lines[i]) {
            Some(n) => Some(n),
            None => saved_name_from(lines, i + 1),
        }
    }
}

/// The file name a URL would be saved under: its last path segment without
/// the query, or `index.html` where that is empty or has no dot.
pub open spec fn url_filename(url: Seq<char>) -> Seq<char> {
    let p = match rfind(url, "://"@) {
        Some(i) => url.skip(i + 3),
        None => url,
    };
    let segs = split_on(p, '/');
    let name = split_on(segs[segs.len() - 1], '?')[0];
    if name.len() == 0 || !contains(name, "."@) {
        "index.html"@
    } else {
        name
    }
}

/// The name of the downloaded file.
pub open spec fn download_name(stderr: Seq<char>, url: Seq<char>, args: Seq<Seq<char>>) -> Seq<char> {
    match arg_filename(args, 0) {
        Some(n) => n,
        None => match saved_name_from(lines_of(stderr), 0) {
            Some(n) => n,
            None => url_filename(url),
        },
    }
}

proof fn lemma_quote_scan_bounds(chars: Seq<char>, k: int)
    requires
        0 <= k <= chars.len(),
    ensures
        quote_scan(chars, k).0 matches Some(st) ==> 0 <= st < k,
        quote_scan(chars, k).1 matches Some(en) ==> 0 <= en < k,
    decreases k,
{
    if k > 0 {
        lemma_quote_scan_bounds(chars, k - 1);
    }
}

fn saved_name_exec(line: &Vec<char>) -> (r: Option<Vec<char>>)
    ensures
        match r {
            Some(v) => saved_name(line@) == Some(v@),
            None => saved_name(line@) is None,
        },
{
    if !(contains_chars(line, &chars_of("Sauvegarde en")) || contains_chars(line, &chars_of("Saving to"))) {
        return None;
    }
    let mut st: Option<usize> = None;
    let mut en: Option<usize> = None;
    let mut i: usize = 0;
    while i < line.len()
        invariant
            i <= line@.len(),
            quote_scan(line@, i as int) == (
                match st {
                    Some(x) => Some(x as int),
                    None => None,
                },
                match en {
                    Some(x) => Some(x as int),
                    None => None,
                },
            ),
        decreases line.len() - i,
    {
        let c = line[i];
        if c == '\u{ab}' || (c == '\'' && st.is_none()) {
            st = Some(i);
        }
        if c == '\u{bb}' || (c == '\'' && st.is_some()) {
            en = Some(i);
        }
        i += 1;
    }
    proof {
        lemma_quote_scan_bounds(line@, line@.len() as int);
    }
    match (st, en) {
        (Some(s0), Some(e0)) => {
            if e0 > s0 + 1 {
                let inner = slice_chars(line, s0 + 1, e0);
                Some(trim_chars(&inner))
            } else {
                None
            }
        },
        _ => None,
    }
}

fn url_filename_exec(url: &Vec<char>) -> (r: Vec<char>)
    ensures
        r@ == url_filename(url@),
{
    let sep = chars_of("://");
    proof {
        crate::text::lemma_rfind_before(url@, sep@, (url@.len() + 1) as int);
        reveal_strlit("://");
    }
    assert(sep@.len() == 3);
    let p = match rfind_chars(url, &sep) {
        Some(i) => {
            assert(i + 3 <= url@.len());
            assert(url@.len() == url.len());
            slice_chars(url, i + 3, url.len())
        },
        None => copy_chars(url),
    };
    proof {
        match rfind(url@, "://"@) {
            Some(i) => assert(p@ =~= url@.skip(i + 3)),
            None => {},
        }
    }
    let segs = split_on_char(&p, '/');
    proof {
        crate::text::lemma_split_on_len(p@, '/');
    }
    let last = &segs[segs.len() - 1];
    let qs = split_on_char(last, '?');
    proof {
        crate::text::lemma_split_on_len(last@, '?');
    }
    let name = copy_chars(&qs[0]);
    if name.len() == 0 || !contains_chars(&name, &chars_of(".")) {
        let mut out: Vec<char> = Vec::new();
        append_str(&mut out, "index.html");
        return out;
    }
    name
}

/// The name of the file a download was saved to: from the `-O` arguments,
/// else from the `Saving to` line of wget's messages, else from the URL.
pub fn extract_filename_from_output(stderr: &str, url: &str, args: &Vec<String>) -> (r: String)
    ensures
        r@ == download_name(stderr@, url@, strs(args@)),
{
    let ghost av = strs(args@);
    let mut i: usize = 0;
    while i < args.len()
        invariant
            i <= args@.len(),
            av == strs(args@),
            arg_filename(av, 0) == arg_filename(av, i as int),
        decreases args.len() - i,
    {
        let a = chars_of(args[i].as_str());
        assert(a@ == av[i as int]);
        if (equals_str(&a, "-O") || equals_str(&a, "--output-document")) && i + 1 < args.len() {
            assert(args@[i + 1]@ == av[i + 1]);
            return args[i + 1].clone();
        }
        let dash_o = chars_of("-O");
        if crate::text::starts_with_chars(&a, &dash_o) {
            proof {
                reveal_strlit("-O");
            }
            let rest = slice_chars(&a, 2, a.len());
            assert(rest@ =~= a@.skip(2));
            return string_of(&rest);
        }
        i += 1;
    }
    assert(arg_filename(av, 0) is None);
    let text = chars_of(stderr);
    let lines = split_lines(&text);
    let ghost lv = lines_of(stderr@);
    assert(views(lines@) =~= lv);
    let mut j: usize = 0;
    while j < lines.len()
        invariant
            j <= lines@.len(),
            lv == views(lines@),
            lv == lines_of(stderr@),
            av == strs(args@),
            arg_filename(av, 0) is None,
            saved_name_from(lv, 0) == saved_name_from(lv, j as int),
        decreases lines.len() - j,
    {
        assert(lines@[j as int]@ == lv[j as int]);
        match saved_name_exec(&lines[j]) {
            Some(n) => {
                return string_of(&n);
            },
            None => {},
        }
        j += 1;
    }
    let u = chars_of(url);
    let n = url_filename_exec(&u);
    string_of(&n)
}

} // verus!
