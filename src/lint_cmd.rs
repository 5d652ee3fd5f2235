//! Path shortening for linter reports.
use crate::rgai_cmd::{lower_of, to_lowercase, views};
use crate::text::{
    append_chars, append_str, chars_of, contains, contains_chars, decimal, decimal_chars, lines_of,
    rfind, rfind_chars, slice_chars, split_lines, string_of, trim, trim_chars,
};
use crate::utils::{truncate, truncate_spec};
use vstd::prelude::*;

verus! {

/// `s` with each `'\\'` turned into `'/'`.
pub open spec fn forward_slashes(s: Seq<char>) -> Seq<char> {
    s.map_values(|c: char| if c == '\\' {
        '/'
    } else {
        c
    })
}

/// A path from the last `/src/` or, failing that, the last `/lib/` on;
/// else its last segment.
pub open spec fn compact_path_spec(path: Seq<char>) -> Seq<char> {
    let p = forward_slashes(path);
    match rfind(p, "/src/"@) {
        Some(pos) => "src/"@ + p.subrange(pos + 5, p.len() as int),
        None => match rfind(p, "/lib/"@) {
            Some(pos) => "lib/"@ + p.subrange(pos + 5, p.len() as int),
            None => match rfind(p, "/"@) {
                Some(pos) => p.subrange(pos + 1, p.len() as int),
                None => p,
            },
        },
    }
}

/// Shortens a file path of a linter message to its project-relative part.
pub fn compact_path(path: &str) -> (r: String)
    ensures
        r@ == compact_path_spec(path@),
{
    let raw = chars_of(path);
    let mut p: Vec<char> = Vec::new();
    let mut i: usize = 0;
    while i < raw.len()
        invariant
            i <= raw@.len(),
            p@ == forward_slashes(raw@.take(i as int)),
        decreases raw.len() - i,
    {
        let c = raw[i];
        p.push(if c == '\\' {
            '/'
        } else {
            c
        });
        i += 1;
        assert(p@ =~= forward_slashes(raw@.take(i as int)));
    }
    assert(raw@.take(raw@.len() as int) =~= raw@);
    let src = chars_of("/src/");
    let lib = chars_of("/lib/");
    let slash = chars_of("/");
    proof {
        crate::text::lemma_rfind_before(p@, src@, (p@.len() + 1) as int);
        crate::text::lemma_rfind_before(p@, lib@, (p@.len() + 1) as int);
        crate::text::lemma_rfind_before(p@, slash@, (p@.len() + 1) as int);
        reveal_strlit("/src/");
        reveal_strlit("/lib/");
        reveal_strlit("/");
    }
    match rfind_chars(&p, &src) {
        Some(pos) => {
            let mut out: Vec<char> = Vec::new();
            append_str(&mut out, "src/");
            let rest = slice_chars(&p, pos + 5, p.len());
            append_chars(&mut out, &rest);
            string_of(&out)
        },
        None => match rfind_chars(&p, &lib) {
            Some(pos) => {
                let mut out: Vec<char> = Vec::new();
                append_str(&mut out, "lib/");
                let rest = slice_chars(&p, pos + 5, p.len());
                append_chars(&mut out, &rest);
                string_of(&out)
            },
            None => match rfind_chars(&p, &slash) {
                Some(pos) => {
                    let rest = slice_chars(&p, pos + 1, p.len());
                    string_of(&rest)
                },
                None => string_of(&p),
            },
        },
    }
}

/// Errors, warnings, and the issue lines in order, after the first `j` lines:
/// a line whose lowercase form mentions `warning` is a warning, one that
/// mentions `error` but not `0 error` an error; a line may be both.
pub open spec fn lint_tally(lines: Seq<Seq<char>>, j: int) -> (nat, nat, Seq<Seq<char>>)
    decreases j,
{
    if j <= 0 {
        (0, 0, seq![])
    } else {
        let (e, w, issues) = lint_tally(lines, j - 1);
        let line = lines[j - 1];
        let lower = lower_of(line);
        let (w2, i2) = if contains(lower, "warning"@) {
            (w + 1, issues.push(line))
        } else {
            (w, issues)
        };
        if contains(lower, "error"@) && !contains(lower, "0 error"@) {
            (e + 1, w2, i2.push(line))
        } else {
            (e, w2, i2)
        }
    }
}

pub open spec fn rule_line() -> Seq<char> {
    Seq::new(39, |i: int| '\u{2550}')
}

/// The issue lines shown, each cut to a hundred bytes.
pub open spec fn issue_rows(issues: Seq<Seq<char>>) -> Seq<char>
    decreases issues.len(),
{
    if issues.len() == 0 {
        seq![]
    } else {
        issue_rows(issues.drop_last()) + truncate_spec(issues.last(), 100) + "\n"@
    }
}

pub open spec fn shown_issues(issues: Seq<Seq<char>>) -> Seq<Seq<char>> {
    issues.take(if issues.len() < 20 {
        issues.len() as int
    } else {
        20
    })
}

/// The summary of a linter's plain output.
pub open spec fn generic_lint_spec(output: Seq<char>) -> Seq<char> {
    let lines = lines_of(output);
    let (e, w, issues) = lint_tally(lines, lines.len() as int);
    if e == 0 && w == 0 {
        "\u{2713} Lint: No issues found"@
    } else {
        trim(
            "Lint: "@ + decimal(e) + " errors, "@ + decimal(w) + " warnings\n"@ + rule_line() + "\n"@
                + issue_rows(shown_issues(issues)) + (if issues.len() > 20 {
                "\n... +"@ + decimal((issues.len() - 20) as nat) + " more issues\n"@
            } else {
                seq![]
            }),
        )
    }
}

/// Summarizes linter output that has no structured form: the error and
/// warning counts and the first twenty issue lines.
pub fn filter_generic_lint(output: &str) -> (r: String)
    ensures
        r@ == generic_lint_spec(output@),
{
    let text = chars_of(output);
    let lines = split_lines(&text);
    let ghost lv = lines_of(output@);
    assert(views(lines@) =~= lv);
    let warning = chars_of("warning");
    let error = chars_of("error");
    let zero_error = chars_of("0 error");
    let mut errors: usize = 0;
    let mut warnings: usize = 0;
    let mut issues: Vec<Vec<char>> = Vec::new();
    let mut j: usize = 0;
    while j < lines.len()
        invariant
            j <= lines@.len(),
            lv == views(lines@),
            warning@ == "warning"@,
            error@ == "error"@,
            zero_error@ == "0 error"@,
            (errors as nat, warnings as nat, views(issues@)) == lint_tally(lv, j as int),
            errors <= j,
            warnings <= j,
        decreases lines.len() - j,
    {
        assert(lines@[j as int]@ == lv[j as int]);
        let lower = to_lowercase(&lines[j]);
        if contains_chars(&lower, &warning) {
            warnings = warnings + 1;
            let ghost before = issues@;
            let l = crate::text::copy_chars(&lines[j]);
            issues.push(l);
            assert(views(issues@) =~= views(before).push(l@));
        }
        if contains_chars(&lower, &error) && !contains_chars(&lower, &zero_error) {
            errors = errors + 1;
            let ghost before = issues@;
            let l = crate::text::copy_chars(&lines[j]);
            issues.push(l);
            assert(views(issues@) =~= views(before).push(l@));
        }
        j += 1;
    }
    let mut out: Vec<char> = Vec::new();
    if errors == 0 && warnings == 0 {
        append_str(&mut out, "\u{2713} Lint: No issues found");
        return string_of(&out);
    }
    let ghost iv = views(issues@);
    assert(iv == lint_tally(lv, lv.len() as int).2);
    append_str(&mut out, "Lint: ");
    append_chars(&mut out, &decimal_chars(errors));
    append_str(&mut out, " errors, ");
    append_chars(&mut out, &decimal_chars(warnings));
    append_str(&mut out, " warnings\n");
    let mut r: usize = 0;
    let ghost before_rule = out@;
    while r < 39
        invariant
            r <= 39,
            out@ == before_rule + Seq::new(r as nat, |i: int| '\u{2550}'),
        decreases 39 - r,
    {
        out.push('\u{2550}');
        r += 1;
        assert(out@ =~= before_rule + Seq::new(r as nat, |i: int| '\u{2550}'));
    }
    append_str(&mut out, "\n");
    let ghost head = out@;
    let shown: usize = if issues.len() < 20 {
        issues.len()
    } else {
        20
    };
    let ghost sv = shown_issues(iv);
    let mut k: usize = 0;
    assert(sv.take(0) =~= Seq::<Seq<char>>::empty());
    while k < shown
        invariant
            k <= shown,
            shown == sv.len(),
            sv == shown_issues(iv),
            iv == views(issues@),
            shown <= issues@.len(),
            out@ == head + issue_rows(sv.take(k as int)),
        decreases shown - k,
    {
        assert(sv.take(k + 1).drop_last() =~= sv.take(k as int));
        assert(sv[k as int] == issues@[k as int]@);
        let s = string_of(&issues[k]);
        let t = truncate(s.as_str(), 100);
        let tc = chars_of(t.as_str());
        append_chars(&mut out, &tc);
        append_str(&mut out, "\n");
        assert(out@ =~= head + issue_rows(sv.take(k + 1)));
        k += 1;
    }
    assert(sv.take(shown as int) =~= sv);
    if issues.len() > 20 {
        append_str(&mut out, "\n... +");
        append_chars(&mut out, &decimal_chars(issues.len() - 20));
        append_str(&mut out, " more issues\n");
    }
    let trimmed = trim_chars(&out);
    proof {
        assert(out@ =~= "Lint: "@ + decimal(errors as nat) + " errors, "@ + decimal(warnings as nat)
            + " warnings\n"@ + rule_line() + "\n"@ + issue_rows(sv) + (if iv.len() > 20 {
            "\n... +"@ + decimal((iv.len() - 20) as nat) + " more issues\n"@
        } else {
            seq![]
        }));
    }
    string_of(&trimmed)
}

} // verus!
