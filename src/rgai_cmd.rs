//! Heuristic code search: a query model, line and path scoring, snippet
//! selection, ranking and rendering.
//!
//! Scores are exact integers. A line score is kept in thousandths of a point,
//! a path score in tenths, and a file score in hundred-thousandths, so that
//! the bonuses (6.0, 1.7, 1.4, 1.2, 2.5, 3.5), the factors (0.7, 0.9) and the
//! rank weights (1.0, 0.45, 0.25) are applied without rounding. The one real
//! number of a file score, `ln(1 + matched lines)`, is supplied by the caller
//! in hundred-thousandths.
use crate::text::{
    all_ascii, append_chars, ascii_lower, byte_len, byte_len_at_least, chars_of, contains,
    contains_chars, copy_chars, equals_str, is_ascii_char, is_whitespace, is_ws, occurs_at,
    seq_equal, slice_chars, starts_with, starts_with_chars, starts_with_str, string_of, trim,
    trim_chars, trim_start, trim_start_chars, lines_of, split_lines, split_on, split_on_char,
    lemma_split_on_len, ascii_lowercase, to_ascii_lowercase, decimal, decimal_chars, append_str,
};
use vstd::prelude::*;

verus! {

// ---------------------------------------------------------------------------
// Outside behaviour that the scoring relies on
// ---------------------------------------------------------------------------
/// What `str::to_lowercase` returns for a string.
pub uninterp spec fn lower_of(s: Seq<char>) -> Seq<char>;

/// What `char::to_lowercase` yields for a character.
pub uninterp spec fn char_lower_of(c: char) -> Seq<char>;

/// What `char::is_alphanumeric` answers for a character.
pub uninterp spec fn alnum_of(c: char) -> bool;

/// Relies on `str::to_lowercase`: the Unicode lowercase mapping of the whole
/// string, which maps each ASCII character by its ASCII lowercase and each
/// character to at least one character.
#[verifier::external_body]
pub(crate) fn to_lowercase(s: &Vec<char>) -> (r: Vec<char>)
    ensures
        r@ == lower_of(s@),
        s@.len() > 0 ==> r@.len() > 0,
        all_ascii(s@) ==> r@ == s@.map_values(|c: char| ascii_lower(c)),
{
    let s: String = s.iter().collect();
    s.to_lowercase().chars().collect()
}

/// Relies on `char::to_lowercase`: the lowercase mapping of one character,
/// which is the ASCII lowercase for an ASCII character.
#[verifier::external_body]
fn char_to_lowercase(c: char) -> (r: Vec<char>)
    ensures
        r@ == char_lower_of(c),
        is_ascii_char(c) ==> r@ == seq![ascii_lower(c)],
{
    c.to_lowercase().collect()
}

/// Relies on `char::is_alphanumeric`: alphabetic or numeric in Unicode's
/// sense, which among ASCII characters are the letters and the digits.
#[verifier::external_body]
fn char_is_alphanumeric(c: char) -> (r: bool)
    ensures
        r == alnum_of(c),
        is_ascii_char(c) ==> r == (('a' <= c && c <= 'z') || ('A' <= c && c <= 'Z') || ('0' <= c
            && c <= '9')),
{
    c.is_alphanumeric()
}

// ---------------------------------------------------------------------------
// Query model
// ---------------------------------------------------------------------------
/// The normalized query: the lowercase phrase and the ordered, unique terms
/// derived from it.
#[derive(Debug)]
pub struct QueryModel {
    pub phrase: String,
    pub terms: Vec<String>,
}

pub open spec fn views(v: Seq<Vec<char>>) -> Seq<Seq<char>> {
    v.map_values(|x: Vec<char>| x@)
}

pub open spec fn strs(v: Seq<String>) -> Seq<Seq<char>> {
    v.map_values(|x: String| x@)
}

/// `s` is ASCII and already lowercase.
pub open spec fn is_lower_ascii(s: Seq<char>) -> bool {
    all_ascii(s) && forall|i: int| 0 <= i < s.len() ==> ascii_lower(#[trigger] s[i]) == s[i]
}

/// Every term occurs in the phrase.
pub open spec fn terms_within(phrase: Seq<char>, terms: Seq<Seq<char>>) -> bool {
    forall|k: int| 0 <= k < terms.len() ==> contains(phrase, #[trigger] terms[k])
}

impl QueryModel {
    pub open spec fn terms_view(&self) -> Seq<Seq<char>> {
        strs(self.terms@)
    }

    /// The phrase is nonempty, and the terms are exactly those derived from it.
    pub open spec fn wf(&self) -> bool {
        &&& self.phrase@.len() > 0
        &&& self.terms_view() == query_terms(self.phrase@)
    }
}

pub open spec fn is_word_char(c: char) -> bool {
    alnum_of(c) || c == '_'
}

/// Tokens completed, and the token being read, after the first `i`
/// characters of `s`.
pub open spec fn split_state(s: Seq<char>, i: int) -> (Seq<Seq<char>>, Seq<char>)
    decreases i,
{
    if i <= 0 {
        (seq![], seq![])
    } else {
        let prev = split_state(s, i - 1);
        let c = s[i - 1];
        if is_word_char(c) {
            (prev.0, prev.1 + char_lower_of(c))
        } else if prev.1.len() > 0 {
            (prev.0.push(prev.1), seq![])
        } else {
            prev
        }
    }
}

/// The lowercased runs of alphanumeric or underscore characters of `s`.
pub open spec fn split_terms_spec(s: Seq<char>) -> Seq<Seq<char>> {
    let st = split_state(s, s.len() as int);
    if st.1.len() > 0 {
        st.0.push(st.1)
    } else {
        st.0
    }
}

pub open spec fn ends_with(s: Seq<char>, suf: Seq<char>) -> bool {
    suf.len() <= s.len() && s.subrange(s.len() - suf.len(), s.len() as int) == suf
}

/// `suf` can be stripped from `t`: `t` ends with it, and the stem left is at
/// least two characters longer than `suf`.
pub open spec fn strippable(t: Seq<char>, suf: Seq<char>) -> bool {
    t.len() >= 2 * suf.len() + 2 && ends_with(t, suf)
}

pub open spec fn suffix_ingly() -> Seq<char> {
    seq!['i', 'n', 'g', 'l', 'y']
}

pub open spec fn suffix_edly() -> Seq<char> {
    seq!['e', 'd', 'l', 'y']
}

pub open spec fn suffix_ing() -> Seq<char> {
    seq!['i', 'n', 'g']
}

pub open spec fn suffix_ed() -> Seq<char> {
    seq!['e', 'd']
}

pub open spec fn suffix_es() -> Seq<char> {
    seq!['e', 's']
}

pub open spec fn suffix_s() -> Seq<char> {
    seq!['s']
}

pub open spec fn cut(t: Seq<char>, n: nat) -> Seq<char> {
    t.subrange(0, t.len() - n)
}

/// Whether some suffix of the stemming list can be stripped from `t`.
pub open spec fn has_strippable_suffix(t: Seq<char>) -> bool {
    strippable(t, suffix_ingly()) || strippable(t, suffix_edly()) || strippable(t, suffix_ing())
        || strippable(t, suffix_ed()) || strippable(t, suffix_es()) || strippable(t, suffix_s())
}

/// The stem of an ASCII token: the first suffix of the list, longest first,
/// that can be stripped is removed. Other tokens are their own stem.
pub open spec fn stem(t: Seq<char>) -> Seq<char> {
    if !all_ascii(t) {
        t
    } else if strippable(t, suffix_ingly()) {
        cut(t, 5)
    } else if strippable(t, suffix_edly()) {
        cut(t, 4)
    } else if strippable(t, suffix_ing()) {
        cut(t, 3)
    } else if strippable(t, suffix_ed()) {
        cut(t, 2)
    } else if strippable(t, suffix_es()) {
        cut(t, 2)
    } else if strippable(t, suffix_s()) {
        cut(t, 1)
    } else {
        t
    }
}

/// The words that never become terms.
pub open spec fn is_stop_word(t: Seq<char>) -> bool {
    t == "a"@ || t == "an"@ || t == "and"@ || t == "are"@ || t == "as"@ || t == "at"@ || t
        == "be"@ || t == "by"@ || t == "code"@ || t == "file"@ || t == "find"@ || t == "for"@
        || t == "from"@ || t == "how"@ || t == "in"@ || t == "is"@ || t == "it"@ || t == "of"@
        || t == "on"@ || t == "or"@ || t == "search"@ || t == "show"@ || t == "that"@ || t
        == "the"@ || t == "this"@ || t == "to"@ || t == "use"@ || t == "using"@ || t == "what"@
        || t == "when"@ || t == "where"@ || t == "with"@ || t == "why"@
}

/// A token that is dropped: shorter than two characters, or a stop word.
pub open spec fn is_dropped(t: Seq<char>) -> bool {
    t.len() < 2 || is_stop_word(t)
}

pub open spec fn push_unique_spec(ts: Seq<Seq<char>>, x: Seq<char>) -> Seq<Seq<char>> {
    if ts.contains(x) {
        ts
    } else {
        ts.push(x)
    }
}

/// `s` with each item after its first occurrence removed.
pub open spec fn dedup_spec(s: Seq<Seq<char>>) -> Seq<Seq<char>>
    decreases s.len(),
{
    if s.len() == 0 {
        seq![]
    } else {
        push_unique_spec(dedup_spec(s.drop_last()), s.last())
    }
}

/// The terms after one more token: the token, then its stem where that
/// differs and has at least two bytes, each added where not yet present.
pub open spec fn add_token(ts: Seq<Seq<char>>, t: Seq<char>) -> Seq<Seq<char>> {
    if is_dropped(t) {
        ts
    } else {
        let ts1 = push_unique_spec(ts, t);
        let st = stem(t);
        if st != t && st.len() >= 2 {
            push_unique_spec(ts1, st)
        } else {
            ts1
        }
    }
}

pub open spec fn collect_terms(toks: Seq<Seq<char>>) -> Seq<Seq<char>>
    decreases toks.len(),
{
    if toks.len() == 0 {
        seq![]
    } else {
        add_token(collect_terms(toks.drop_last()), toks.last())
    }
}

/// The terms of a phrase; the phrase itself where no token survives.
pub open spec fn query_terms(phrase: Seq<char>) -> Seq<Seq<char>> {
    let ts = collect_terms(split_terms_spec(phrase));
    if ts.len() == 0 && phrase.len() > 0 {
        seq![phrase]
    } else {
        ts
    }
}

/// The phrase of a query: trimmed, then lowercased.
pub open spec fn phrase_of(query: Seq<char>) -> Seq<char> {
    lower_of(trim(query))
}

proof fn lemma_views_push(v: Seq<Vec<char>>, x: Vec<char>)
    ensures
        views(v.push(x)) == views(v).push(x@),
{
    assert(views(v.push(x)) =~= views(v).push(x@));
}

/// Whether `x` is among the items of `v`.
pub(crate) fn contains_item(v: &Vec<Vec<char>>, x: &Vec<char>) -> (r: bool)
    ensures
        r == views(v@).contains(x@),
{
    let mut i: usize = 0;
    while i < v.len()
        invariant
            i <= v.len(),
            forall|k: int| 0 <= k < i ==> views(v@)[k] != x@,
        decreases v.len() - i,
    {
        if seq_equal(&v[i], x) {
            assert(views(v@)[i as int] == x@);
            return true;
        }
        i += 1;
    }
    false
}

/// A deduplicated sequence holds each item once.
pub proof fn lemma_dedup_unique(s: Seq<Seq<char>>)
    ensures
        dedup_spec(s).no_duplicates(),
    decreases s.len(),
{
    if s.len() > 0 {
        lemma_dedup_unique(s.drop_last());
        let d = dedup_spec(s.drop_last());
        if !d.contains(s.last()) {
            let d2 = d.push(s.last());
            assert forall|i: int, j: int| 0 <= i < d2.len() && 0 <= j < d2.len() && i != j implies d2[i] != d2[j] by {
                if i == d.len() as int {
                    assert(d2[j] == d[j]);
                } else if j == d.len() as int {
                    assert(d2[i] == d[i]);
                }
            }
        }
    }
}

/// Appends `item` to `out` unless it is already there.
fn push_unique(out: &mut Vec<Vec<char>>, item: &Vec<char>)
    ensures
        views(final(out)@) == push_unique_spec(views(old(out)@), item@),
{
    if !contains_item(out, item) {
        let c = copy_chars(item);
        proof {
            lemma_views_push(out@, c);
        }
        out.push(c);
    }
}

/// The items of `input`, each first occurrence kept in order.
pub fn dedup_terms(input: &Vec<Vec<char>>) -> (r: Vec<Vec<char>>)
    ensures
        views(r@) == dedup_spec(views(input@)),
{
    let mut out: Vec<Vec<char>> = Vec::new();
    let mut i: usize = 0;
    while i < input.len()
        invariant
            i <= input.len(),
            views(out@) == dedup_spec(views(input@).take(i as int)),
        decreases input.len() - i,
    {
        proof {
            assert(views(input@).take(i + 1).drop_last() =~= views(input@).take(i as int));
        }
        push_unique(&mut out, &input[i]);
        i += 1;
    }
    assert(views(input@).take(input.len() as int) =~= views(input@));
    out
}

/// The lowercased runs of alphanumeric or underscore characters of `input`.
pub fn split_terms(input: &Vec<char>) -> (r: Vec<Vec<char>>)
    ensures
        views(r@) == split_terms_spec(input@),
        is_lower_ascii(input@) ==> terms_within(input@, views(r@)),
{
    let mut tokens: Vec<Vec<char>> = Vec::new();
    let mut current: Vec<char> = Vec::new();
    let mut i: usize = 0;
    let ghost mut cs: int = 0;
    let ghost asc = is_lower_ascii(input@);
    while i < input.len()
        invariant
            i <= input.len(),
            (views(tokens@), current@) == split_state(input@, i as int),
            asc == is_lower_ascii(input@),
            asc ==> 0 <= cs <= i && current@ == input@.subrange(cs, i as int),
            asc ==> terms_within(input@, views(tokens@)),
        decreases input.len() - i,
    {
        let ch = input[i];
        if char_is_alphanumeric(ch) || ch == '_' {
            let low = char_to_lowercase(ch);
            append_chars(&mut current, &low);
            proof {
                if asc {
                    assert(is_ascii_char(input@[i as int]));
                    assert(current@ =~= input@.subrange(cs, i + 1));
                }
            }
        } else {
            if current.len() > 0 {
                proof {
                    lemma_views_push(tokens@, current);
                    if asc {
                        assert(input@.subrange(cs, cs + current@.len()) == current@);
                        assert(contains(input@, current@));
                    }
                }
                tokens.push(current);
                current = Vec::new();
            }
            proof {
                cs = i + 1;
                assert(current@ =~= input@.subrange(cs, i + 1));
            }
        }
        i += 1;
    }
    if current.len() > 0 {
        proof {
            lemma_views_push(tokens@, current);
            if asc {
                assert(input@.subrange(cs, cs + current@.len()) == current@);
                assert(contains(input@, current@));
            }
        }
        tokens.push(current);
    }
    tokens
}

/// Whether `t` ends with `suf` and keeps more than two characters beyond it.
fn strippable_exec(t: &Vec<char>, suf: &Vec<char>) -> (r: bool)
    ensures
        r == strippable(t@, suf@),
{
    if t.len() < 2 || (t.len() - 2) / 2 < suf.len() {
        return false;
    }
    occurs_at(t, suf, t.len() - suf.len())
}

fn all_ascii_exec(t: &Vec<char>) -> (r: bool)
    ensures
        r == all_ascii(t@),
{
    let mut i: usize = 0;
    while i < t.len()
        invariant
            i <= t.len(),
            forall|k: int| 0 <= k < i ==> is_ascii_char(#[trigger] t@[k]),
        decreases t.len() - i,
    {
        if (t[i] as u32) >= 0x80 {
            return false;
        }
        i += 1;
    }
    true
}

fn cut_exec(t: &Vec<char>, n: usize) -> (r: Vec<char>)
    requires
        n <= t.len(),
    ensures
        r@ == cut(t@, n as nat),
{
    slice_chars(t, 0, t.len() - n)
}

/// The stem of a token.
pub fn stem_token(t: &Vec<char>) -> (r: Vec<char>)
    ensures
        r@ == stem(t@),
{
    if !all_ascii_exec(t) {
        return copy_chars(t);
    }
    let ingly = vec!['i', 'n', 'g', 'l', 'y'];
    let edly = vec!['e', 'd', 'l', 'y'];
    let ing = vec!['i', 'n', 'g'];
    let ed = vec!['e', 'd'];
    let es = vec!['e', 's'];
    let s = vec!['s'];
    assert(ingly@ =~= suffix_ingly());
    assert(edly@ =~= suffix_edly());
    assert(ing@ =~= suffix_ing());
    assert(ed@ =~= suffix_ed());
    assert(es@ =~= suffix_es());
    assert(s@ =~= suffix_s());
    if strippable_exec(t, &ingly) {
        cut_exec(t, 5)
    } else if strippable_exec(t, &edly) {
        cut_exec(t, 4)
    } else if strippable_exec(t, &ing) {
        cut_exec(t, 3)
    } else if strippable_exec(t, &ed) {
        cut_exec(t, 2)
    } else if strippable_exec(t, &es) {
        cut_exec(t, 2)
    } else if strippable_exec(t, &s) {
        cut_exec(t, 1)
    } else {
        copy_chars(t)
    }
}

/// Whether `t` is one of the stop words.
pub fn is_stop_word_exec(t: &Vec<char>) -> (r: bool)
    ensures
        r == is_stop_word(t@),
{
    equals_str(t, "a") || equals_str(t, "an") || equals_str(t, "and") || equals_str(t, "are")
        || equals_str(t, "as") || equals_str(t, "at") || equals_str(t, "be") || equals_str(t, "by")
        || equals_str(t, "code") || equals_str(t, "file") || equals_str(t, "find") || equals_str(
        t,
        "for",
    ) || equals_str(t, "from") || equals_str(t, "how") || equals_str(t, "in") || equals_str(
        t,
        "is",
    ) || equals_str(t, "it") || equals_str(t, "of") || equals_str(t, "on") || equals_str(t, "or")
        || equals_str(t, "search") || equals_str(t, "show") || equals_str(t, "that") || equals_str(
        t,
        "the",
    ) || equals_str(t, "this") || equals_str(t, "to") || equals_str(t, "use") || equals_str(
        t,
        "using",
    ) || equals_str(t, "what") || equals_str(t, "when") || equals_str(t, "where") || equals_str(
        t,
        "with",
    ) || equals_str(t, "why")
}

fn strings_of(v: &Vec<Vec<char>>) -> (r: Vec<String>)
    ensures
        strs(r@) == views(v@),
{
    let mut out: Vec<String> = Vec::new();
    let mut i: usize = 0;
    while i < v.len()
        invariant
            i <= v.len(),
            strs(out@) == views(v@).take(i as int),
        decreases v.len() - i,
    {
        let s = string_of(&v[i]);
        let ghost before = out@;
        out.push(s);
        i += 1;
        assert(strs(out@) =~= strs(before).push(s@));
        assert(strs(out@) =~= views(v@).take(i as int));
    }
    assert(views(v@).take(v.len() as int) =~= views(v@));
    out
}

proof fn lemma_push_unique_within(phrase: Seq<char>, ts: Seq<Seq<char>>, x: Seq<char>)
    requires
        terms_within(phrase, ts),
        contains(phrase, x),
    ensures
        terms_within(phrase, push_unique_spec(ts, x)),
{
    if !ts.contains(x) {
        let t2 = ts.push(x);
        assert forall|k: int| 0 <= k < t2.len() implies contains(phrase, #[trigger] t2[k]) by {
            if k < ts.len() {
                assert(t2[k] == ts[k]);
            }
        }
    }
}

proof fn lemma_contains_prefix(hay: Seq<char>, t: Seq<char>, m: int)
    requires
        contains(hay, t),
        0 <= m <= t.len(),
    ensures
        contains(hay, t.take(m)),
{
    let i = choose|i: int| 0 <= i && i + t.len() <= hay.len() && #[trigger] hay.subrange(i, i + t.len()) == t;
    assert(hay.subrange(i, i + m) =~= t.take(m)) by {
        assert forall|k: int| 0 <= k < m implies hay.subrange(i, i + m)[k] == t.take(m)[k] by {
            assert(hay.subrange(i, i + t.len())[k] == t[k]);
        }
    }
}

proof fn lemma_stem_within(phrase: Seq<char>, t: Seq<char>)
    requires
        contains(phrase, t),
    ensures
        contains(phrase, stem(t)),
{
    let st = stem(t);
    if st != t {
        lemma_contains_prefix(phrase, t, st.len() as int);
        assert(st =~= t.take(st.len() as int));
    }
}

fn collect_query_terms(phrase: &Vec<char>, tokens: &Vec<Vec<char>>) -> (terms: Vec<Vec<char>>)
    ensures
        views(terms@) == collect_terms(views(tokens@)),
        terms_within(phrase@, views(tokens@)) ==> terms_within(phrase@, views(terms@)),
{
    let ghost within = terms_within(phrase@, views(tokens@));
    let mut terms: Vec<Vec<char>> = Vec::new();
    let mut i: usize = 0;
    while i < tokens.len()
        invariant
            i <= tokens.len(),
            views(terms@) == collect_terms(views(tokens@).take(i as int)),
            within == terms_within(phrase@, views(tokens@)),
            within ==> terms_within(phrase@, views(terms@)),
        decreases tokens.len() - i,
    {
        proof {
            assert(views(tokens@).take(i + 1).drop_last() =~= views(tokens@).take(i as int));
        }
        let token = &tokens[i];
        proof {
            if within {
                assert(contains(phrase@, views(tokens@)[i as int]));
                lemma_stem_within(phrase@, token@);
            }
        }
        if !(token.len() < 2 || is_stop_word_exec(token)) {
            let ghost t0 = views(terms@);
            push_unique(&mut terms, token);
            proof {
                if within {
                    lemma_push_unique_within(phrase@, t0, token@);
                }
            }
            let stemmed = stem_token(token);
            if !seq_equal(&stemmed, token) && stemmed.len() >= 2 {
                let ghost t1 = views(terms@);
                push_unique(&mut terms, &stemmed);
                proof {
                    if within {
                        lemma_push_unique_within(phrase@, t1, stemmed@);
                    }
                }
            }
        }
        i += 1;
    }
    assert(views(tokens@).take(tokens.len() as int) =~= views(tokens@));
    terms
}

proof fn lemma_lowercase_ascii(s: Seq<char>, low: Seq<char>)
    requires
        all_ascii(s),
        low == s.map_values(|c: char| ascii_lower(c)),
    ensures
        is_lower_ascii(low),
{
    assert forall|k: int| 0 <= k < low.len() implies is_ascii_char(#[trigger] low[k])
        && ascii_lower(low[k]) == low[k] by {
        assert(is_ascii_char(s[k]));
    }
}

/// Builds the query model of a query: the phrase is the trimmed, lowercased
/// query; the terms are its surviving tokens and their stems, or the phrase
/// alone where no token survives. For an ASCII query every term occurs in
/// the phrase.
pub fn build_query_model(query: &str) -> (r: QueryModel)
    ensures
        r.phrase@ == phrase_of(query@),
        r.terms_view() == query_terms(r.phrase@),
        all_ascii(trim(query@)) ==> terms_within(r.phrase@, r.terms_view()),
        trim(query@).len() > 0 ==> r.phrase@.len() > 0,
        trim(query@).len() > 0 && (forall|i: int|
            0 <= i < split_terms_spec(r.phrase@).len() ==> is_stop_word(
                #[trigger] split_terms_spec(r.phrase@)[i],
            )) ==> r.terms_view() == seq![r.phrase@],
{
    let q = chars_of(query);
    let trimmed = trim_chars(&q);
    let phrase = to_lowercase(&trimmed);
    proof {
        if all_ascii(trim(query@)) {
            lemma_lowercase_ascii(trimmed@, phrase@);
        }
    }
    proof {
        if trim(query@).len() > 0 && (forall|i: int|
            0 <= i < split_terms_spec(phrase@).len() ==> is_stop_word(
                #[trigger] split_terms_spec(phrase@)[i],
            )) {
            lemma_stop_word_query_uses_phrase(query@);
        }
    }
    let tokens = split_terms(&phrase);
    let mut terms = collect_query_terms(&phrase, &tokens);
    if terms.len() == 0 && phrase.len() > 0 {
        let p = copy_chars(&phrase);
        proof {
            lemma_views_push(terms@, p);
            assert(views(terms@.push(p)) =~= seq![phrase@]);
            assert(phrase@.subrange(0int, 0int + phrase@.len()) =~= phrase@);
            assert(contains(phrase@, phrase@));
        }
        terms.push(p);
    }
    let terms_s = strings_of(&terms);
    QueryModel { phrase: string_of(&phrase), terms: terms_s }
}

proof fn lemma_collect_terms_dropped(toks: Seq<Seq<char>>)
    requires
        forall|i: int| 0 <= i < toks.len() ==> is_dropped(#[trigger] toks[i]),
    ensures
        collect_terms(toks) == Seq::<Seq<char>>::empty(),
    decreases toks.len(),
{
    if toks.len() > 0 {
        assert(is_dropped(toks[toks.len() - 1]));
        lemma_collect_terms_dropped(toks.drop_last());
    }
}

/// A query whose tokens are all stop words, and whose phrase is not empty,
/// has its whole lowercase phrase as its one term.
pub proof fn lemma_stop_word_query_uses_phrase(query: Seq<char>)
    requires
        phrase_of(query).len() > 0,
        forall|i: int|
            0 <= i < split_terms_spec(phrase_of(query)).len() ==> is_stop_word(
                #[trigger] split_terms_spec(phrase_of(query))[i],
            ),
    ensures
        query_terms(phrase_of(query)) == seq![phrase_of(query)],
{
    let toks = split_terms_spec(phrase_of(query));
    assert forall|i: int| 0 <= i < toks.len() implies is_dropped(#[trigger] toks[i]) by {
        assert(is_stop_word(toks[i]));
    }
    lemma_collect_terms_dropped(toks);
}

/// Stemming a stem gives it back, for every token whose stem is not ASCII
/// or does not itself end in a strippable suffix. (`classes` stems to
/// `class`, which stems on to `clas`: such tokens are the exceptions, so
/// stemming is not idempotent in general.)
pub proof fn lemma_stem_idempotent(t: Seq<char>)
    requires
        all_ascii(stem(t)) ==> !has_strippable_suffix(stem(t)),
    ensures
        stem(stem(t)) == stem(t),
{
}

// ---------------------------------------------------------------------------
// Line scoring
// ---------------------------------------------------------------------------
/// A line that scored at or above the acceptance floor.
#[derive(Debug)]
pub struct LineCandidate {
    pub line_idx: usize,
    /// Thousandths of a point.
    pub score: u128,
    pub matched_terms: Vec<String>,
}

impl LineCandidate {
    pub open spec fn view_tuple(&self) -> (nat, nat, Seq<Seq<char>>) {
        (self.line_idx as nat, self.score as nat, strs(self.matched_terms@))
    }
}

/// Lowest line score, in thousandths, that yields a candidate.
pub const MIN_LINE_SCORE: u128 = 1200;

/// Lines longer than this many characters have their score reduced.
pub const LONG_LINE_CHARS: usize = 220;

pub open spec fn is_ident_start(c: char) -> bool {
    ('A' <= c && c <= 'Z') || ('a' <= c && c <= 'z') || c == '_'
}

/// What follows `w` and the whitespace after it, where `s` begins with `w`
/// and at least one whitespace character.
pub open spec fn after_word(s: Seq<char>, w: Seq<char>) -> Option<Seq<char>> {
    if starts_with(s, w) && s.len() > w.len() && is_ws(s[w.len() as int]) {
        Some(trim_start(s.subrange(w.len() as int, s.len() as int)))
    } else {
        None
    }
}

pub open spec fn skip_optional(s: Seq<char>, w: Seq<char>) -> Seq<char> {
    match after_word(s, w) {
        Some(r) => r,
        None => s,
    }
}

pub open spec fn keyword_then_name(s: Seq<char>, kw: Seq<char>) -> bool {
    match after_word(s, kw) {
        Some(r) => r.len() > 0 && is_ident_start(r[0]),
        None => false,
    }
}

/// The definition heuristic: optional whitespace, an optional `pub` and an
/// optional `async` (each followed by whitespace), a declaration keyword,
/// whitespace, and the first character of an identifier.
pub open spec fn is_definition(line: Seq<char>) -> bool {
    let s = skip_optional(skip_optional(trim_start(line), "pub"@), "async"@);
    keyword_then_name(s, "fn"@) || keyword_then_name(s, "def"@) || keyword_then_name(s, "class"@)
        || keyword_then_name(s, "struct"@) || keyword_then_name(s, "enum"@) || keyword_then_name(
        s,
        "trait"@,
    ) || keyword_then_name(s, "interface"@) || keyword_then_name(s, "impl"@) || keyword_then_name(
        s,
        "type"@,
    )
}

/// A line that, after leading whitespace, opens with a comment marker.
pub open spec fn is_comment(line: Seq<char>) -> bool {
    let t = trim_start(line);
    starts_with(t, "//"@) || starts_with(t, "#"@) || starts_with(t, "*"@) || starts_with(t, "/*"@)
        || starts_with(t, "--"@)
}

/// Points, in tenths, that a matched term brings: more for a term of five
/// characters or more.
pub open spec fn term_points(t: Seq<char>) -> nat {
    if t.len() >= 5 {
        17
    } else {
        14
    }
}

pub open spec fn sum_points(ms: Seq<Seq<char>>) -> nat
    decreases ms.len(),
{
    if ms.len() == 0 {
        0
    } else {
        sum_points(ms.drop_last()) + term_points(ms.last())
    }
}

/// The terms, in order, that occur in `lower`.
pub open spec fn matched_in(lower: Seq<char>, terms: Seq<Seq<char>>) -> Seq<Seq<char>>
    decreases terms.len(),
{
    if terms.len() == 0 {
        seq![]
    } else {
        let m = matched_in(lower, terms.drop_last());
        if contains(lower, terms.last()) {
            m.push(terms.last())
        } else {
            m
        }
    }
}

/// The phrase bonus applies: the phrase has at least three bytes and occurs.
pub open spec fn phrase_hit(lower: Seq<char>, phrase: Seq<char>) -> bool {
    phrase.len() >= 3 && contains(lower, phrase)
}

/// A line's score in thousandths, from what it matched and what it is.
pub open spec fn line_score(
    phrase_bonus: bool,
    matched: Seq<Seq<char>>,
    definition: bool,
    comment: bool,
    long: bool,
) -> nat {
    let base = (if phrase_bonus {
        60nat
    } else {
        0nat
    }) + sum_points(matched) + (if dedup_spec(matched).len() > 1 {
        12nat
    } else {
        0nat
    }) + (if definition {
        25nat
    } else {
        0nat
    });
    base * (if comment {
        7nat
    } else {
        10nat
    }) * (if long {
        9nat
    } else {
        10nat
    })
}

/// The candidate that line `idx` yields for a query, if any.
pub open spec fn score_line_spec(
    idx: nat,
    line: Seq<char>,
    phrase: Seq<char>,
    terms: Seq<Seq<char>>,
) -> Option<(nat, nat, Seq<Seq<char>>)> {
    let t = trim(line);
    let lower = lower_of(t);
    let matched = matched_in(lower, terms);
    let unique = dedup_spec(matched);
    let score = line_score(
        phrase_hit(lower, phrase),
        matched,
        is_definition(t),
        is_comment(t),
        t.len() > LONG_LINE_CHARS,
    );
    if t.len() == 0 || unique.len() == 0 || score < MIN_LINE_SCORE {
        None
    } else {
        Some((idx, score, unique))
    }
}

/// Whether `s` begins with `w` followed by whitespace; if so, what follows
/// that whitespace.
fn after_word_exec(s: &Vec<char>, w: &str) -> (r: Option<Vec<char>>)
    ensures
        match r {
            Some(v) => after_word(s@, w@) == Some(v@),
            None => after_word(s@, w@) is None,
        },
{
    let wc = chars_of(w);
    if starts_with_chars(s, &wc) && s.len() > wc.len() && is_whitespace(s[wc.len()]) {
        let rest = slice_chars(s, wc.len(), s.len());
        Some(trim_start_chars(&rest))
    } else {
        None
    }
}

fn skip_optional_exec(s: Vec<char>, w: &str) -> (r: Vec<char>)
    ensures
        r@ == skip_optional(s@, w@),
{
    match after_word_exec(&s, w) {
        Some(v) => v,
        None => s,
    }
}

fn keyword_then_name_exec(s: &Vec<char>, kw: &str) -> (r: bool)
    ensures
        r == keyword_then_name(s@, kw@),
{
    match after_word_exec(s, kw) {
        Some(v) => v.len() > 0 && (('A' <= v[0] && v[0] <= 'Z') || ('a' <= v[0] && v[0] <= 'z')
            || v[0] == '_'),
        None => false,
    }
}

/// Whether a line looks like a definition.
pub fn is_symbol_definition(line: &Vec<char>) -> (r: bool)
    ensures
        r == is_definition(line@),
{
    let s = trim_start_chars(line);
    let s = skip_optional_exec(s, "pub");
    let s = skip_optional_exec(s, "async");
    keyword_then_name_exec(&s, "fn") || keyword_then_name_exec(&s, "def")
        || keyword_then_name_exec(&s, "class") || keyword_then_name_exec(&s, "struct")
        || keyword_then_name_exec(&s, "enum") || keyword_then_name_exec(&s, "trait")
        || keyword_then_name_exec(&s, "interface") || keyword_then_name_exec(&s, "impl")
        || keyword_then_name_exec(&s, "type")
}

/// Whether a line opens with a comment marker.
pub fn is_comment_line(line: &Vec<char>) -> (r: bool)
    ensures
        r == is_comment(line@),
{
    let t = trim_start_chars(line);
    starts_with_str(&t, "//") || starts_with_str(&t, "#") || starts_with_str(&t, "*")
        || starts_with_str(&t, "/*") || starts_with_str(&t, "--")
}

proof fn lemma_sum_points_bound(ms: Seq<Seq<char>>)
    ensures
        sum_points(ms) <= 17 * ms.len(),
    decreases ms.len(),
{
    if ms.len() > 0 {
        lemma_sum_points_bound(ms.drop_last());
    }
}

proof fn lemma_matched_len(lower: Seq<char>, terms: Seq<Seq<char>>)
    ensures
        matched_in(lower, terms).len() <= terms.len(),
    decreases terms.len(),
{
    if terms.len() > 0 {
        lemma_matched_len(lower, terms.drop_last());
    }
}

/// Scores one line against the query.
pub fn score_line(line_idx: usize, line: &Vec<char>, query: &QueryModel) -> (r: Option<
    LineCandidate,
>)
    ensures
        match r {
            Some(c) => score_line_spec(
                line_idx as nat,
                line@,
                query.phrase@,
                query.terms_view(),
            ) == Some(c.view_tuple()) && c.score <= 100 * (97 + 17 * query.terms@.len())
                && strs(c.matched_terms@).no_duplicates(),
            None => score_line_spec(
                line_idx as nat,
                line@,
                query.phrase@,
                query.terms_view(),
            ) is None,
        },
{
    let trimmed = trim_chars(line);
    if trimmed.len() == 0 {
        return None;
    }
    let lower = to_lowercase(&trimmed);
    let phrase = chars_of(query.phrase.as_str());
    let mut base: u128 = 0;
    if phrase.len() >= 3 && contains_chars(&lower, &phrase) {
        base = 60;
    }
    let mut matched: Vec<Vec<char>> = Vec::new();
    let mut points: u128 = 0;
    let mut i: usize = 0;
    let ghost terms = query.terms_view();
    while i < query.terms.len()
        invariant
            i <= query.terms.len(),
            terms == query.terms_view(),
            terms.len() == query.terms.len(),
            views(matched@) == matched_in(lower@, terms.take(i as int)),
            points == sum_points(views(matched@)),
            matched@.len() <= i,
        decreases query.terms.len() - i,
    {
        proof {
            assert(terms.take(i + 1).drop_last() =~= terms.take(i as int));
            lemma_sum_points_bound(views(matched@));
        }
        let term = chars_of(query.terms[i].as_str());
        assert(term@ == terms[i as int]);
        if contains_chars(&lower, &term) {
            let w: u128 = if term.len() >= 5 {
                17
            } else {
                14
            };
            points = points + w;
            proof {
                lemma_views_push(matched@, term);
                assert(views(matched@.push(term)).drop_last() =~= views(matched@));
            }
            matched.push(term);
        }
        i += 1;
    }
    proof {
        assert(terms.take(query.terms.len() as int) =~= terms);
        lemma_sum_points_bound(views(matched@));
    }
    let unique = dedup_terms(&matched);
    if unique.len() == 0 {
        return None;
    }
    base = base + points;
    if unique.len() > 1 {
        base = base + 12;
    }
    if is_symbol_definition(&trimmed) {
        base = base + 25;
    }
    assert(base <= 97 + 17 * query.terms@.len());
    let comment = is_comment_line(&trimmed);
    let long = trimmed.len() > LONG_LINE_CHARS;
    assert(base * (if comment {
        7u128
    } else {
        10u128
    }) * (if long {
        9u128
    } else {
        10u128
    }) <= base * 100) by (nonlinear_arith);
    let score: u128 = base * (if comment {
        7
    } else {
        10
    }) * (if long {
        9
    } else {
        10
    });
    if score < MIN_LINE_SCORE {
        return None;
    }
    proof {
        lemma_dedup_unique(views(matched@));
    }
    Some(LineCandidate { line_idx, score, matched_terms: strings_of(&unique) })
}

/// Holding all else equal, a line that matched two distinct terms scores
/// strictly higher than one that matched only one of them.
pub proof fn lemma_two_terms_outscore_one(
    phrase_bonus: bool,
    a: Seq<char>,
    b: Seq<char>,
    definition: bool,
    comment: bool,
    long: bool,
)
    requires
        a != b,
    ensures
        line_score(phrase_bonus, seq![a, b], definition, comment, long) > line_score(
            phrase_bonus,
            seq![a],
            definition,
            comment,
            long,
        ),
        line_score(phrase_bonus, seq![a, b], definition, comment, long) > line_score(
            phrase_bonus,
            seq![b],
            definition,
            comment,
            long,
        ),
{
    let ab = seq![a, b];
    assert(ab.drop_last() =~= seq![a]);
    assert(seq![a].drop_last() =~= Seq::<Seq<char>>::empty());
    assert(seq![b].drop_last() =~= Seq::<Seq<char>>::empty());
    assert(dedup_spec(Seq::<Seq<char>>::empty()) == Seq::<Seq<char>>::empty());
    assert(!Seq::<Seq<char>>::empty().contains(a));
    assert(!Seq::<Seq<char>>::empty().contains(b));
    assert(dedup_spec(seq![a]) == push_unique_spec(Seq::<Seq<char>>::empty(), a));
    assert(dedup_spec(seq![a]) =~= seq![a]);
    assert(dedup_spec(seq![b]) == push_unique_spec(Seq::<Seq<char>>::empty(), b));
    assert(dedup_spec(seq![b]) =~= seq![b]);
    assert(!seq![a].contains(b)) by {
        assert(seq![a][0] == a);
    }
    assert(dedup_spec(ab) =~= seq![a, b]);
}

/// A definition line scores at least 2.5 points more than the same line
/// without the definition, where neither the comment nor the length factor
/// applies. (With the comment factor the difference is 1.75 points.)
pub proof fn lemma_definition_bonus(
    phrase_bonus: bool,
    matched: Seq<Seq<char>>,
    comment: bool,
    long: bool,
)
    requires
        !comment,
        !long,
    ensures
        line_score(phrase_bonus, matched, true, comment, long) >= line_score(
            phrase_bonus,
            matched,
            false,
            comment,
            long,
        ) + 2500,
{
}

/// A comment line scores exactly 0.7 times the same line without the comment
/// marker.
pub proof fn lemma_comment_factor(
    phrase_bonus: bool,
    matched: Seq<Seq<char>>,
    definition: bool,
    long: bool,
)
    ensures
        line_score(phrase_bonus, matched, definition, true, long) * 10 == line_score(
            phrase_bonus,
            matched,
            definition,
            false,
            long,
        ) * 7,
{
    let base = (if phrase_bonus {
        60nat
    } else {
        0nat
    }) + sum_points(matched) + (if dedup_spec(matched).len() > 1 {
        12nat
    } else {
        0nat
    }) + (if definition {
        25nat
    } else {
        0nat
    });
    let lf: nat = if long {
        9
    } else {
        10
    };
    assert(base * 7 * lf * 10 == base * 10 * lf * 7) by (nonlinear_arith);
}

// ---------------------------------------------------------------------------
// Path scoring
// ---------------------------------------------------------------------------
/// The score of a displayed path, in tenths: 3.5 for the phrase, 1.2 for
/// each term that occurs in the lowercased path.
pub open spec fn score_path_spec(path: Seq<char>, phrase: Seq<char>, terms: Seq<Seq<char>>) -> nat {
    let lower = lower_of(path);
    (if phrase_hit(lower, phrase) {
        35nat
    } else {
        0nat
    }) + 12 * matched_in(lower, terms).len()
}

/// Scores a displayed path against the query, in tenths.
pub fn score_path(path: &Vec<char>, query: &QueryModel) -> (r: u128)
    ensures
        r == score_path_spec(path@, query.phrase@, query.terms_view()),
        r <= 35 + 12 * query.terms@.len(),
{
    let lower = to_lowercase(path);
    let phrase = chars_of(query.phrase.as_str());
    let mut score: u128 = 0;
    if phrase.len() >= 3 && contains_chars(&lower, &phrase) {
        score = 35;
    }
    let ghost terms = query.terms_view();
    let mut count: u128 = 0;
    let mut i: usize = 0;
    while i < query.terms.len()
        invariant
            i <= query.terms.len(),
            terms == query.terms_view(),
            terms.len() == query.terms.len(),
            count == matched_in(lower@, terms.take(i as int)).len(),
            count <= i,
        decreases query.terms.len() - i,
    {
        proof {
            assert(terms.take(i + 1).drop_last() =~= terms.take(i as int));
        }
        let term = chars_of(query.terms[i].as_str());
        if contains_chars(&lower, &term) {
            count = count + 1;
        }
        i += 1;
    }
    proof {
        assert(terms.take(query.terms.len() as int) =~= terms);
    }
    score + 12 * count
}

// ---------------------------------------------------------------------------
// Snippets
// ---------------------------------------------------------------------------
/// A row of a snippet: a 1-based line number and the row's text.
#[derive(Debug)]
pub struct SnippetLine {
    pub line: usize,
    pub text: String,
}

/// An excerpt around one anchor line, with the terms that the anchor matched.
#[derive(Debug)]
pub struct Snippet {
    pub lines: Vec<SnippetLine>,
    pub matched_terms: Vec<String>,
}

pub open spec fn rows_view(rows: Seq<SnippetLine>) -> Seq<(nat, Seq<char>)> {
    rows.map_values(|r: SnippetLine| (r.line as nat, r.text@))
}

impl Snippet {
    pub open spec fn rows(&self) -> Seq<(nat, Seq<char>)> {
        rows_view(self.lines@)
    }
}

/// Widest snippet row, in characters.
pub const MAX_SNIPPET_LINE_LEN: usize = 140;

/// `input` cut to at most `max_len` characters, an ellipsis marking a cut.
pub open spec fn truncate_chars_spec(input: Seq<char>, max_len: nat) -> Seq<char> {
    if input.len() <= max_len {
        input
    } else if max_len <= 3 {
        seq!['.', '.', '.']
    } else {
        input.take(max_len - 3) + seq!['.', '.', '.']
    }
}

/// Cuts `input` to at most `max_len` characters, ending a cut with `...`.
pub fn truncate_chars(input: &Vec<char>, max_len: usize) -> (r: Vec<char>)
    ensures
        r@ == truncate_chars_spec(input@, max_len as nat),
{
    if input.len() <= max_len {
        return copy_chars(input);
    }
    let mut out: Vec<char> = if max_len <= 3 {
        Vec::new()
    } else {
        slice_chars(input, 0, max_len - 3)
    };
    out.push('.');
    out.push('.');
    out.push('.');
    assert(out@ =~= truncate_chars_spec(input@, max_len as nat));
    out
}

/// The rows of lines `start..j` (0-based) that are not blank, trimmed and cut.
pub open spec fn snippet_rows(lines: Seq<Seq<char>>, start: int, j: int) -> Seq<(nat, Seq<char>)>
    decreases j - start,
{
    if j <= start {
        seq![]
    } else {
        let r = snippet_rows(lines, start, j - 1);
        let c = trim(lines[j - 1]);
        if c.len() == 0 {
            r
        } else {
            r.push((j as nat, truncate_chars_spec(c, MAX_SNIPPET_LINE_LEN as nat)))
        }
    }
}

/// The rows of the snippet around `anchor`: the non-blank lines within
/// `context` lines of it, or one empty row at the anchor where all are blank.
pub open spec fn snippet_spec(lines: Seq<Seq<char>>, anchor: nat, context: nat) -> Seq<(nat, Seq<char>)> {
    let start: int = if anchor >= context {
        anchor - context
    } else {
        0
    };
    let end: int = if anchor + context + 1 <= lines.len() {
        (anchor + context + 1) as int
    } else {
        lines.len() as int
    };
    let rows = snippet_rows(lines, start, end);
    if rows.len() == 0 {
        seq![(anchor + 1, Seq::<char>::empty())]
    } else {
        rows
    }
}

proof fn lemma_rows_push(rows: Seq<SnippetLine>, x: SnippetLine)
    ensures
        rows_view(rows.push(x)) == rows_view(rows).push((x.line as nat, x.text@)),
{
    assert(rows_view(rows.push(x)) =~= rows_view(rows).push((x.line as nat, x.text@)));
}

/// Builds the rows of the snippet around `anchor`.
pub fn build_snippet_rows(lines: &Vec<Vec<char>>, anchor: usize, context: usize) -> (r: Vec<
    SnippetLine,
>)
    requires
        anchor < lines.len(),
    ensures
        rows_view(r@) == snippet_spec(views(lines@), anchor as nat, context as nat),
{
    let ghost lv = views(lines@);
    let start: usize = if anchor >= context {
        anchor - context
    } else {
        0
    };
    let end: usize = if (anchor as u128) + (context as u128) + 1 <= lines.len() as u128 {
        anchor + context + 1
    } else {
        lines.len()
    };
    let mut rows: Vec<SnippetLine> = Vec::new();
    let mut j: usize = start;
    while j < end
        invariant
            start <= j <= end || (end < start && j == start),
            end <= lines.len(),
            lv == views(lines@),
            rows_view(rows@) == snippet_rows(lv, start as int, j as int),
        decreases end - j,
    {
        let cleaned = trim_chars(&lines[j]);
        assert(lv[j as int] == lines@[j as int]@);
        if cleaned.len() > 0 {
            let text = truncate_chars(&cleaned, MAX_SNIPPET_LINE_LEN);
            let row = SnippetLine { line: j + 1, text: string_of(&text) };
            proof {
                lemma_rows_push(rows@, row);
            }
            rows.push(row);
        }
        j += 1;
    }
    if rows.len() == 0 {
        let row = SnippetLine { line: anchor + 1, text: String::new() };
        proof {
            lemma_rows_push(rows@, row);
            assert(rows_view(rows@.push(row)) =~= seq![(anchor as nat + 1, Seq::<char>::empty())]);
        }
        rows.push(row);
    }
    rows
}

// ---------------------------------------------------------------------------
// File aggregation
// ---------------------------------------------------------------------------
/// A candidate as the specifications see it: line index, score, matched terms.
pub type Cand = (nat, nat, Seq<Seq<char>>);

pub open spec fn cands_view(v: Seq<LineCandidate>) -> Seq<Cand> {
    v.map_values(|c: LineCandidate| c.view_tuple())
}

/// The candidates of the first `j` lines, in line order.
pub open spec fn candidates_upto(
    lines: Seq<Seq<char>>,
    phrase: Seq<char>,
    terms: Seq<Seq<char>>,
    j: int,
) -> Seq<Cand>
    decreases j,
{
    if j <= 0 {
        seq![]
    } else {
        let c = candidates_upto(lines, phrase, terms, j - 1);
        match score_line_spec((j - 1) as nat, lines[j - 1], phrase, terms) {
            Some(x) => c.push(x),
            None => c,
        }
    }
}

pub open spec fn candidates_spec(
    lines: Seq<Seq<char>>,
    phrase: Seq<char>,
    terms: Seq<Seq<char>>,
) -> Seq<Cand> {
    candidates_upto(lines, phrase, terms, lines.len() as int)
}

/// `a` comes before `b`: a higher score, or an equal score and an earlier line.
pub open spec fn ranks_before(a: Cand, b: Cand) -> bool {
    a.1 > b.1 || (a.1 == b.1 && a.0 < b.0)
}

pub open spec fn insert_ranked(s: Seq<Cand>, c: Cand) -> Seq<Cand>
    decreases s.len(),
{
    if s.len() == 0 {
        seq![c]
    } else if ranks_before(c, s[0]) {
        seq![c] + s
    } else {
        seq![s[0]] + insert_ranked(s.drop_first(), c)
    }
}

/// The candidates by score descending, ties by ascending line.
pub open spec fn rank_sort(s: Seq<Cand>) -> Seq<Cand>
    decreases s.len(),
{
    if s.len() == 0 {
        seq![]
    } else {
        insert_ranked(rank_sort(s.drop_last()), s.last())
    }
}

pub open spec fn dist(a: nat, b: nat) -> nat {
    if a >= b {
        (a - b) as nat
    } else {
        (b - a) as nat
    }
}

/// Some selected anchor lies within `window` lines of `c`.
pub open spec fn overlaps(sel: Seq<Cand>, c: Cand, window: nat) -> bool {
    exists|k: int| 0 <= k < sel.len() && dist(#[trigger] sel[k].0, c.0) <= window
}

/// Greedy selection over the first `i` ranked candidates: each is taken
/// unless `limit` are taken or it lies within `window` lines of a taken one.
pub open spec fn select_upto(ranked: Seq<Cand>, window: nat, limit: nat, i: int) -> Seq<Cand>
    decreases i,
{
    if i <= 0 {
        seq![]
    } else {
        let sel = select_upto(ranked, window, limit, i - 1);
        if sel.len() >= limit || overlaps(sel, ranked[i - 1], window) {
            sel
        } else {
            sel.push(ranked[i - 1])
        }
    }
}

pub open spec fn select_spec(ranked: Seq<Cand>, window: nat, limit: nat) -> Seq<Cand> {
    select_upto(ranked, window, limit, ranked.len() as int)
}

/// Rank weight, in hundredths, of the selected candidate at `rank`.
pub open spec fn weight(rank: nat) -> nat {
    if rank == 0 {
        100
    } else if rank == 1 {
        45
    } else {
        25
    }
}

pub open spec fn weighted_sum(sel: Seq<Cand>) -> nat
    decreases sel.len(),
{
    if sel.len() == 0 {
        0
    } else {
        weighted_sum(sel.drop_last()) + sel.last().1 * weight((sel.len() - 1) as nat)
    }
}

/// Lowest file score, in hundred-thousandths, that makes a hit.
pub const MIN_FILE_SCORE: u128 = 240000;

/// Greatest number of snippets a file shows.
pub const MAX_SNIPPETS_PER_FILE: usize = 2;

proof fn lemma_insert_ranked_at(s: Seq<Cand>, c: Cand, p: int)
    requires
        0 <= p <= s.len(),
        forall|k: int| 0 <= k < p ==> !ranks_before(c, #[trigger] s[k]),
        p == s.len() || ranks_before(c, s[p]),
    ensures
        insert_ranked(s, c) == s.take(p).push(c) + s.skip(p),
    decreases s.len(),
{
    if s.len() == 0 {
        assert(s.take(p).push(c) + s.skip(p) =~= seq![c]);
    } else if p == 0 {
        assert(s.take(p).push(c) + s.skip(p) =~= seq![c] + s);
    } else {
        assert(!ranks_before(c, s[0]));
        let t = s.drop_first();
        assert forall|k: int| 0 <= k < p - 1 implies !ranks_before(c, #[trigger] t[k]) by {
            assert(t[k] == s[k + 1]);
        }
        if p < s.len() {
            assert(t[p - 1] == s[p]);
        }
        lemma_insert_ranked_at(t, c, p - 1);
        assert(seq![s[0]] + (t.take(p - 1).push(c) + t.skip(p - 1)) =~= s.take(p).push(c)
            + s.skip(p));
    }
}

pub open spec fn picked(cv: Seq<Cand>, order: Seq<usize>) -> Seq<Cand> {
    order.map_values(|k: usize| cv[k as int])
}

/// Positions of the candidates in rank order.
pub fn rank_order(cands: &Vec<LineCandidate>) -> (order: Vec<usize>)
    ensures
        forall|i: int| 0 <= i < order@.len() ==> #[trigger] order@[i] < cands@.len(),
        picked(cands_view(cands@), order@) == rank_sort(cands_view(cands@)),
{
    let ghost cv = cands_view(cands@);
    let mut order: Vec<usize> = Vec::new();
    let mut i: usize = 0;
    while i < cands.len()
        invariant
            i <= cands.len(),
            cv == cands_view(cands@),
            forall|m: int| 0 <= m < order@.len() ==> #[trigger] order@[m] < i,
            picked(cv, order@) == rank_sort(cv.take(i as int)),
            order@.len() == i,
        decreases cands.len() - i,
    {
        let c = &cands[i];
        assert(cv[i as int] == c.view_tuple());
        let mut p: usize = 0;
        while p < order.len()
            invariant
                i < cands.len(),
                cv[i as int] == c.view_tuple(),
                p <= order@.len(),
                cv == cands_view(cands@),
                forall|m: int| 0 <= m < order@.len() ==> #[trigger] order@[m] < i,
                forall|k: int|
                    0 <= k < p ==> !ranks_before(cv[i as int], #[trigger] picked(cv, order@)[k]),
            ensures
                p <= order@.len(),
                forall|k: int|
                    0 <= k < p ==> !ranks_before(cv[i as int], #[trigger] picked(cv, order@)[k]),
                p == order@.len() || ranks_before(cv[i as int], picked(cv, order@)[p as int]),
            decreases order.len() - p,
        {
            let o = &cands[order[p]];
            assert(picked(cv, order@)[p as int] == cv[order@[p as int] as int]);
            assert(cv[i as int] == c.view_tuple());
            assert(cv[order@[p as int] as int] == o.view_tuple());
            if c.score > o.score || (c.score == o.score && c.line_idx < o.line_idx) {
                break;
            }
            p += 1;
        }
        proof {
            assert(cv.take(i + 1).drop_last() =~= cv.take(i as int));
            assert(cv.take(i + 1).last() == cv[i as int]);
            lemma_insert_ranked_at(picked(cv, order@), cv[i as int], p as int);
        }
        let ghost before = order@;
        order.insert(p, i);
        proof {
            assert(picked(cv, order@) =~= picked(cv, before).take(p as int).push(cv[i as int])
                + picked(cv, before).skip(p as int));
        }
        i += 1;
    }
    proof {
        assert(cv.take(cands.len() as int) =~= cv);
    }
    order
}

/// Whether a taken anchor lies within `window` lines of line `line`.
fn overlaps_exec(cands: &Vec<LineCandidate>, sel: &Vec<usize>, line: usize, window: u128) -> (r: bool)
    requires
        forall|i: int| 0 <= i < sel@.len() ==> #[trigger] sel@[i] < cands@.len(),
    ensures
        r == overlaps(picked(cands_view(cands@), sel@), (line as nat, 0nat, seq![]), window as nat),
{
    let ghost ps = picked(cands_view(cands@), sel@);
    let mut k: usize = 0;
    while k < sel.len()
        invariant
            k <= sel@.len(),
            ps == picked(cands_view(cands@), sel@),
            forall|i: int| 0 <= i < sel@.len() ==> #[trigger] sel@[i] < cands@.len(),
            forall|m: int| 0 <= m < k ==> dist(#[trigger] ps[m].0, line as nat) > window,
        decreases sel.len() - k,
    {
        let a = cands[sel[k]].line_idx;
        let d: usize = if a >= line {
            a - line
        } else {
            line - a
        };
        assert(ps[k as int].0 == a as nat);
        if (d as u128) <= window {
            return true;
        }
        k += 1;
    }
    false
}

/// Greedily picks up to `limit` anchors in rank order, none within `window`
/// lines of another.
pub fn select_anchors(cands: &Vec<LineCandidate>, order: &Vec<usize>, window: u128, limit: usize) -> (sel: Vec<usize>)
    requires
        forall|i: int| 0 <= i < order@.len() ==> #[trigger] order@[i] < cands@.len(),
    ensures
        forall|i: int| 0 <= i < sel@.len() ==> #[trigger] sel@[i] < cands@.len(),
        picked(cands_view(cands@), sel@) == select_spec(
            picked(cands_view(cands@), order@),
            window as nat,
            limit as nat,
        ),
{
    let ghost cv = cands_view(cands@);
    let ghost ranked = picked(cv, order@);
    let mut sel: Vec<usize> = Vec::new();
    let mut i: usize = 0;
    while i < order.len()
        invariant
            i <= order@.len(),
            cv == cands_view(cands@),
            ranked == picked(cv, order@),
            forall|m: int| 0 <= m < order@.len() ==> #[trigger] order@[m] < cands@.len(),
            forall|m: int| 0 <= m < sel@.len() ==> #[trigger] sel@[m] < cands@.len(),
            picked(cv, sel@) == select_upto(ranked, window as nat, limit as nat, i as int),
        decreases order.len() - i,
    {
        let pos = order[i];
        let line = cands[pos].line_idx;
        assert(ranked[i as int] == cv[pos as int]);
        let ov = overlaps_exec(cands, &sel, line, window);
        proof {
            let ps = picked(cv, sel@);
            if ov {
                let k = choose|k: int| 0 <= k < ps.len() && dist(#[trigger] ps[k].0, line as nat) <= window;
                assert(dist(ps[k].0, ranked[i as int].0) <= window);
            } else {
                assert forall|k: int| 0 <= k < ps.len() implies dist(#[trigger] ps[k].0, ranked[i as int].0) > window by {
                    if dist(ps[k].0, ranked[i as int].0) <= window {
                        assert(dist(ps[k].0, line as nat) <= window);
                    }
                }
            }
        }
        if sel.len() < limit && !ov {
            let ghost before = sel@;
            sel.push(pos);
            assert(picked(cv, sel@) =~= picked(cv, before).push(cv[pos as int]));
        }
        i += 1;
    }
    sel
}

/// No two anchors of a selection lie within `window` lines of each other.
pub proof fn lemma_selected_anchors_apart(ranked: Seq<Cand>, window: nat, limit: nat)
    ensures
        forall|i: int, j: int|
            0 <= i < j < select_spec(ranked, window, limit).len() ==> dist(
                #[trigger] select_spec(ranked, window, limit)[i].0,
                #[trigger] select_spec(ranked, window, limit)[j].0,
            ) > window,
{
    lemma_select_upto_apart(ranked, window, limit, ranked.len() as int);
}

proof fn lemma_select_upto_apart(ranked: Seq<Cand>, window: nat, limit: nat, n: int)
    ensures
        forall|i: int, j: int|
            0 <= i < j < select_upto(ranked, window, limit, n).len() ==> dist(
                #[trigger] select_upto(ranked, window, limit, n)[i].0,
                #[trigger] select_upto(ranked, window, limit, n)[j].0,
            ) > window,
        select_upto(ranked, window, limit, n).len() <= limit,
    decreases n,
{
    if n > 0 {
        lemma_select_upto_apart(ranked, window, limit, n - 1);
        let sel = select_upto(ranked, window, limit, n - 1);
        let c = ranked[n - 1];
        if !(sel.len() >= limit || overlaps(sel, c, window)) {
            let s2 = sel.push(c);
            assert forall|i: int, j: int| 0 <= i < j < s2.len() implies dist(#[trigger] s2[i].0, #[trigger] s2[j].0) > window by {
                if j == s2.len() - 1 {
                    assert(s2[i] == sel[i]);
                    if dist(sel[i].0, c.0) <= window {
                        assert(overlaps(sel, c, window));
                    }
                } else {
                    assert(s2[i] == sel[i] && s2[j] == sel[j]);
                }
            }
        }
    }
}

/// What a file contributes before the length bonus: its snippets, the count
/// of its matched lines, and its path and snippet score.
#[derive(Debug)]
pub struct FileAnalysis {
    pub path: String,
    /// Path score plus weighted snippet scores, in hundred-thousandths.
    pub base_score: u128,
    pub matched_lines: usize,
    pub snippets: Vec<Snippet>,
}

/// A file that cleared the score floor.
#[derive(Debug)]
pub struct SearchHit {
    pub path: String,
    /// Hundred-thousandths of a point.
    pub score: u128,
    pub matched_lines: usize,
    pub snippets: Vec<Snippet>,
}

fn clone_strings(v: &Vec<String>) -> (r: Vec<String>)
    ensures
        strs(r@) == strs(v@),
{
    let mut out: Vec<String> = Vec::new();
    let mut i: usize = 0;
    while i < v.len()
        invariant
            i <= v.len(),
            strs(out@) == strs(v@).take(i as int),
        decreases v.len() - i,
    {
        let s = v[i].clone();
        let ghost before = out@;
        out.push(s);
        i += 1;
        assert(strs(out@) =~= strs(before).push(s@));
        assert(strs(out@) =~= strs(v@).take(i as int));
    }
    assert(strs(v@).take(v.len() as int) =~= strs(v@));
    out
}

/// The snippets, rows and matched terms, that a selection yields.
pub open spec fn snippets_match(
    snippets: Seq<Snippet>,
    lines: Seq<Seq<char>>,
    sel: Seq<Cand>,
    context: nat,
) -> bool {
    &&& snippets.len() == sel.len()
    &&& forall|i: int|
        0 <= i < sel.len() ==> (#[trigger] snippets[i]).rows() == snippet_spec(
            lines,
            sel[i].0,
            context,
        ) && strs(snippets[i].matched_terms@) == sel[i].2
}

/// The selection of a file's candidates, for a context and a snippet limit.
pub open spec fn selection_of(
    lines: Seq<Seq<char>>,
    phrase: Seq<char>,
    terms: Seq<Seq<char>>,
    context: nat,
    limit: nat,
) -> Seq<Cand> {
    select_spec(rank_sort(candidates_spec(lines, phrase, terms)), 2 * context + 1, limit)
}

/// Scores the lines of a file and its path, and builds the snippets of the
/// selected candidates. `None` where no line is a candidate.
pub fn analyze_file(
    path: &str,
    content: &str,
    query: &QueryModel,
    context_lines: usize,
    snippets_per_file: usize,
) -> (r: Option<FileAnalysis>)
    requires
        1 <= snippets_per_file <= MAX_SNIPPETS_PER_FILE,
    ensures
        ({
            let lines = lines_of(content@);
            let cands = candidates_spec(lines, query.phrase@, query.terms_view());
            let sel = selection_of(
                lines,
                query.phrase@,
                query.terms_view(),
                context_lines as nat,
                snippets_per_file as nat,
            );
            match r {
                None => cands.len() == 0,
                Some(a) => {
                    &&& cands.len() > 0
                    &&& a.path@ == path@
                    &&& a.matched_lines == cands.len()
                    &&& a.base_score == score_path_spec(path@, query.phrase@, query.terms_view())
                        * 10000 + weighted_sum(sel)
                    &&& snippets_match(a.snippets@, lines, sel, context_lines as nat)
                    &&& a.snippets@.len() <= snippets_per_file
                },
            }
        }),
{
    let ghost terms = query.terms_view();
    let text = chars_of(content);
    let lines = split_lines(&text);
    let ghost lv = lines_of(content@);
    assert(views(lines@) =~= lv);
    let ghost bound = 100 * (97 + 17 * query.terms@.len());
    assert(query.terms@.len() == query.terms.len());
    assert(bound <= 100_000_000_000_000_000_000_000);
    let mut cands: Vec<LineCandidate> = Vec::new();
    let mut j: usize = 0;
    while j < lines.len()
        invariant
            j <= lines.len(),
            lv == views(lines@),
            terms == query.terms_view(),
            bound == 100 * (97 + 17 * query.terms@.len()),
            cands_view(cands@) == candidates_upto(lv, query.phrase@, terms, j as int),
            forall|k: int| 0 <= k < cands@.len() ==> (#[trigger] cands@[k]).line_idx < j,
            forall|k: int| 0 <= k < cands@.len() ==> (#[trigger] cands@[k]).score <= bound,
        decreases lines.len() - j,
    {
        assert(lv[j as int] == lines@[j as int]@);
        match score_line(j, &lines[j], query) {
            Some(c) => {
                let ghost before = cands@;
                cands.push(c);
                assert(cands_view(cands@) =~= cands_view(before).push(c.view_tuple()));
            },
            None => {},
        }
        j += 1;
    }
    if cands.len() == 0 {
        return None;
    }
    let ghost cv = cands_view(cands@);
    let window: u128 = 2 * (context_lines as u128) + 1;
    let order = rank_order(&cands);
    let sel = select_anchors(&cands, &order, window, snippets_per_file);
    let ghost ps = picked(cv, sel@);
    proof {
        lemma_select_upto_apart(picked(cv, order@), window as nat, snippets_per_file as nat, order@.len() as int);
        assert(cv.len() == cands@.len());
    }
    let mut snippets: Vec<Snippet> = Vec::new();
    let mut weighted: u128 = 0;
    let mut k: usize = 0;
    while k < sel.len()
        invariant
            k <= sel@.len(),
            sel@.len() <= 2,
            lv == views(lines@),
            cv == cands_view(cands@),
            ps == picked(cv, sel@),
            bound == 100 * (97 + 17 * query.terms@.len()),
            bound <= 100_000_000_000_000_000_000_000,
            forall|m: int| 0 <= m < sel@.len() ==> #[trigger] sel@[m] < cands@.len(),
            forall|m: int| 0 <= m < cands@.len() ==> (#[trigger] cands@[m]).line_idx < lines@.len(),
            forall|m: int| 0 <= m < cands@.len() ==> (#[trigger] cands@[m]).score <= bound,
            weighted == weighted_sum(ps.take(k as int)),
            weighted <= k * bound * 100,
            snippets_match(snippets@, lv, ps.take(k as int), context_lines as nat),
        decreases sel.len() - k,
    {
        let c = &cands[sel[k]];
        assert(ps[k as int] == c.view_tuple());
        let rows = build_snippet_rows(&lines, c.line_idx, context_lines);
        let terms_copy = clone_strings(&c.matched_terms);
        let w: u128 = if k == 0 {
            100
        } else if k == 1 {
            45
        } else {
            25
        };
        assert(c.score * w <= bound * 100) by (nonlinear_arith)
            requires
                c.score <= bound,
                w <= 100,
        ;
        assert(weighted + c.score * w <= (k + 1) * bound * 100) by (nonlinear_arith)
            requires
                weighted <= k * bound * 100,
                c.score * w <= bound * 100,
        ;
        assert((k + 1) * bound * 100 <= 3 * bound * 100) by (nonlinear_arith)
            requires
                k + 1 <= 3,
        ;
        weighted = weighted + c.score * w;
        let ghost before = snippets@;
        snippets.push(Snippet { lines: rows, matched_terms: terms_copy });
        proof {
            assert(ps.take(k + 1).drop_last() =~= ps.take(k as int));
            assert(ps.take(k + 1).last() == ps[k as int]);
            assert(snippets_match(snippets@, lv, ps.take(k + 1), context_lines as nat)) by {
                assert forall|i: int| 0 <= i < k + 1 implies (#[trigger] snippets@[i]).rows()
                    == snippet_spec(lv, ps.take(k + 1)[i].0, context_lines as nat) && strs(
                    snippets@[i].matched_terms@,
                ) == ps.take(k + 1)[i].2 by {
                    if i < k {
                        assert(snippets@[i] == before[i]);
                        assert(ps.take(k + 1)[i] == ps.take(k as int)[i]);
                    }
                }
            }
        }
        k += 1;
    }
    proof {
        assert(ps.take(sel@.len() as int) =~= ps);
        assert(picked(cv, order@) == rank_sort(cv));
    }
    let pchars = chars_of(path);
    let path_score = score_path(&pchars, query);
    assert(weighted <= 2 * bound * 100) by (nonlinear_arith)
        requires
            weighted <= sel@.len() * bound * 100,
            sel@.len() <= 2,
    ;
    Some(FileAnalysis {
        path: string_of(&pchars),
        base_score: path_score * 10000 + weighted,
        matched_lines: cands.len(),
        snippets,
    })
}

/// Completes a file's score with the length bonus, `ln(1 + matched lines)`
/// in hundred-thousandths, and keeps the file where the total reaches the
/// floor.
pub fn score_file(analysis: FileAnalysis, log_bonus: u128) -> (r: Option<SearchHit>)
    requires
        analysis.base_score + log_bonus <= u128::MAX,
    ensures
        (analysis.base_score + log_bonus >= MIN_FILE_SCORE) == r is Some,
        r matches Some(h) ==> h.path == analysis.path && h.score == analysis.base_score + log_bonus
            && h.matched_lines == analysis.matched_lines && h.snippets == analysis.snippets,
{
    let score = analysis.base_score + log_bonus;
    if score < MIN_FILE_SCORE {
        return None;
    }
    Some(
        SearchHit {
            path: analysis.path,
            score,
            matched_lines: analysis.matched_lines,
            snippets: analysis.snippets,
        },
    )
}

// ---------------------------------------------------------------------------
// Ranking
// ---------------------------------------------------------------------------
/// `a` precedes `b` in code-point order.
pub open spec fn lex_lt(a: Seq<char>, b: Seq<char>) -> bool
    decreases a.len(),
{
    if b.len() == 0 {
        false
    } else if a.len() == 0 {
        true
    } else if a[0] != b[0] {
        (a[0] as u32) < (b[0] as u32)
    } else {
        lex_lt(a.drop_first(), b.drop_first())
    }
}

/// Whether `a` precedes `b` in code-point order.
pub fn lex_less(a: &Vec<char>, b: &Vec<char>) -> (r: bool)
    ensures
        r == lex_lt(a@, b@),
{
    let mut i: usize = 0;
    assert(a@.skip(0) =~= a@);
    assert(b@.skip(0) =~= b@);
    while i < a.len() && i < b.len() && a[i] == b[i]
        invariant
            i <= a.len(),
            i <= b.len(),
            lex_lt(a@, b@) == lex_lt(a@.skip(i as int), b@.skip(i as int)),
        decreases a.len() - i,
    {
        proof {
            assert(a@.skip(i as int).drop_first() =~= a@.skip(i + 1));
            assert(b@.skip(i as int).drop_first() =~= b@.skip(i + 1));
        }
        i += 1;
    }
    if i == b.len() {
        assert(b@.skip(i as int).len() == 0);
        false
    } else if i == a.len() {
        assert(a@.skip(i as int).len() == 0);
        true
    } else {
        assert(a@.skip(i as int)[0] == a@[i as int]);
        assert(b@.skip(i as int)[0] == b@[i as int]);
        (a[i] as u32) < (b[i] as u32)
    }
}

/// `a` ranks strictly before `b`: a higher score, or an equal score and a
/// lowercased path earlier in code-point order.
pub open spec fn hit_precedes(a: SearchHit, b: SearchHit) -> bool {
    a.score > b.score || (a.score == b.score && lex_lt(lower_of(a.path@), lower_of(b.path@)))
}

pub open spec fn insert_hit(s: Seq<SearchHit>, h: SearchHit) -> Seq<SearchHit>
    decreases s.len(),
{
    if s.len() == 0 {
        seq![h]
    } else if hit_precedes(h, s[0]) {
        seq![h] + s
    } else {
        seq![s[0]] + insert_hit(s.drop_first(), h)
    }
}

/// The hits by score descending, ties by case-insensitive path; hits equal
/// on both keep their order.
pub open spec fn sort_hits(s: Seq<SearchHit>) -> Seq<SearchHit>
    decreases s.len(),
{
    if s.len() == 0 {
        seq![]
    } else {
        insert_hit(sort_hits(s.drop_last()), s.last())
    }
}

proof fn lemma_insert_hit_at(s: Seq<SearchHit>, h: SearchHit, p: int)
    requires
        0 <= p <= s.len(),
        forall|k: int| 0 <= k < p ==> !hit_precedes(h, #[trigger] s[k]),
        p == s.len() || hit_precedes(h, s[p]),
    ensures
        insert_hit(s, h) == s.take(p).push(h) + s.skip(p),
    decreases s.len(),
{
    if s.len() == 0 {
        assert(s.take(p).push(h) + s.skip(p) =~= seq![h]);
    } else if p == 0 {
        assert(s.take(p).push(h) + s.skip(p) =~= seq![h] + s);
    } else {
        assert(!hit_precedes(h, s[0]));
        let t = s.drop_first();
        assert forall|k: int| 0 <= k < p - 1 implies !hit_precedes(h, #[trigger] t[k]) by {
            assert(t[k] == s[k + 1]);
        }
        if p < s.len() {
            assert(t[p - 1] == s[p]);
        }
        lemma_insert_hit_at(t, h, p - 1);
        assert(seq![s[0]] + (t.take(p - 1).push(h) + t.skip(p - 1)) =~= s.take(p).push(h)
            + s.skip(p));
    }
}

/// Sorts hits by score descending, ties broken by case-insensitive path
/// ascending, stably.
pub fn rank_hits(hits: Vec<SearchHit>) -> (r: Vec<SearchHit>)
    ensures
        r@ == sort_hits(hits@),
{
    let mut input = hits;
    let ghost all = input@;
    assert(all.len() == input.len());
    assert(all.skip(0) =~= all);
    assert(all.take(0) =~= Seq::<SearchHit>::empty());
    let mut out: Vec<SearchHit> = Vec::new();
    let mut keys: Vec<Vec<char>> = Vec::new();
    let mut taken: usize = 0;
    while input.len() > 0
        invariant
            taken + input@.len() == all.len(),
            all.len() <= usize::MAX,
            input@ == all.skip(taken as int),
            out@ == sort_hits(all.take(taken as int)),
            keys@.len() == out@.len(),
            forall|k: int| 0 <= k < keys@.len() ==> #[trigger] keys@[k]@ == lower_of(out@[k].path@),
        decreases input@.len(),
    {
        let h = input.remove(0);
        assert(h == all[taken as int]);
        let hp = chars_of(h.path.as_str());
        let key = to_lowercase(&hp);
        let mut p: usize = 0;
        while p < out.len()
            invariant
                p <= out@.len(),
                keys@.len() == out@.len(),
                forall|k: int| 0 <= k < keys@.len() ==> #[trigger] keys@[k]@ == lower_of(out@[k].path@),
                key@ == lower_of(h.path@),
                forall|k: int| 0 <= k < p ==> !hit_precedes(h, #[trigger] out@[k]),
            ensures
                p <= out@.len(),
                forall|k: int| 0 <= k < p ==> !hit_precedes(h, #[trigger] out@[k]),
                p == out@.len() || hit_precedes(h, out@[p as int]),
            decreases out.len() - p,
        {
            let o = &out[p];
            assert(keys@[p as int]@ == lower_of(o.path@));
            if h.score > o.score || (h.score == o.score && lex_less(&key, &keys[p])) {
                break;
            }
            p += 1;
        }
        proof {
            assert(all.take(taken + 1).drop_last() =~= all.take(taken as int));
            lemma_insert_hit_at(out@, h, p as int);
        }
        let ghost kb = keys@;
        let ghost ob = out@;
        keys.insert(p, key);
        out.insert(p, h);
        proof {
            assert forall|k: int| 0 <= k < keys@.len() implies #[trigger] keys@[k]@ == lower_of(out@[k].path@) by {
                if k < p {
                    assert(keys@[k] == kb[k] && out@[k] == ob[k]);
                } else if k > p {
                    assert(keys@[k] == kb[k - 1] && out@[k] == ob[k - 1]);
                }
            }
            assert(out@ =~= ob.take(p as int).push(h) + ob.skip(p as int));
            assert(input@ =~= all.skip(taken + 1));
        }
        taken += 1;
    }
    proof {
        assert(all.take(all.len() as int) =~= all);
    }
    out
}

// ---------------------------------------------------------------------------
// Transcript for usage accounting
// ---------------------------------------------------------------------------
/// `path:line:text` and a newline.
pub open spec fn row_line(path: Seq<char>, row: (nat, Seq<char>)) -> Seq<char> {
    path + ":"@ + decimal(row.0) + ":"@ + row.1 + "\n"@
}

pub open spec fn rows_text(path: Seq<char>, rows: Seq<(nat, Seq<char>)>) -> Seq<char>
    decreases rows.len(),
{
    if rows.len() == 0 {
        seq![]
    } else {
        rows_text(path, rows.drop_last()) + row_line(path, rows.last())
    }
}

pub open spec fn snippets_text(path: Seq<char>, snips: Seq<Snippet>) -> Seq<char>
    decreases snips.len(),
{
    if snips.len() == 0 {
        seq![]
    } else {
        snippets_text(path, snips.drop_last()) + rows_text(path, snips.last().rows())
    }
}

pub open spec fn raw_text(hits: Seq<SearchHit>) -> Seq<char>
    decreases hits.len(),
{
    if hits.len() == 0 {
        seq![]
    } else {
        raw_text(hits.drop_last()) + snippets_text(hits.last().path@, hits.last().snippets@)
    }
}

/// Most hits whose rows enter the transcript.
pub const RAW_OUTPUT_HITS: usize = 60;

fn append_rows(out: &mut Vec<char>, path: &Vec<char>, rows: &Vec<SnippetLine>)
    ensures
        final(out)@ == old(out)@ + rows_text(path@, rows_view(rows@)),
{
    let ghost rv = rows_view(rows@);
    let mut i: usize = 0;
    assert(rv.take(0) =~= Seq::<(nat, Seq<char>)>::empty());
    assert(out@ =~= old(out)@ + rows_text(path@, rv.take(0)));
    while i < rows.len()
        invariant
            i <= rows@.len(),
            rv == rows_view(rows@),
            out@ == old(out)@ + rows_text(path@, rv.take(i as int)),
        decreases rows.len() - i,
    {
        assert(rv.take(i + 1).drop_last() =~= rv.take(i as int));
        assert(rv.take(i + 1).last() == (rows@[i as int].line as nat, rows@[i as int].text@));
        append_chars(out, path);
        out.push(':');
        let d = decimal_chars(rows[i].line);
        append_chars(out, &d);
        out.push(':');
        let t = chars_of(rows[i].text.as_str());
        append_chars(out, &t);
        out.push('\n');
        proof {
            reveal_strlit(":");
            reveal_strlit("\n");
            assert(out@ =~= old(out)@ + rows_text(path@, rv.take(i + 1)));
        }
        i += 1;
    }
    assert(rv.take(rows@.len() as int) =~= rv);
}

/// The flat `path:line:text` transcript of the first sixty hits' snippets.
pub fn build_raw_output(hits: &Vec<SearchHit>) -> (r: String)
    ensures
        r@ == raw_text(hits@.take(if hits@.len() < 60 {
            hits@.len() as int
        } else {
            60
        })),
{
    let n: usize = if hits.len() < RAW_OUTPUT_HITS {
        hits.len()
    } else {
        RAW_OUTPUT_HITS
    };
    let mut out: Vec<char> = Vec::new();
    let mut h: usize = 0;
    assert(hits@.take(0) =~= Seq::<SearchHit>::empty());
    while h < n
        invariant
            h <= n <= hits@.len(),
            out@ == raw_text(hits@.take(h as int)),
        decreases n - h,
    {
        let hit = &hits[h];
        let path = chars_of(hit.path.as_str());
        let ghost before = out@;
        let mut k: usize = 0;
        assert(hit.snippets@.take(0) =~= Seq::<Snippet>::empty());
        while k < hit.snippets.len()
            invariant
                k <= hit.snippets@.len(),
                hit == hits@[h as int],
                path@ == hit.path@,
                out@ == before + snippets_text(path@, hit.snippets@.take(k as int)),
            decreases hit.snippets.len() - k,
        {
            assert(hit.snippets@.take(k + 1).drop_last() =~= hit.snippets@.take(k as int));
            append_rows(&mut out, &path, &hit.snippets[k].lines);
            k += 1;
        }
        assert(hit.snippets@.take(hit.snippets@.len() as int) =~= hit.snippets@);
        assert(hits@.take(h + 1).drop_last() =~= hits@.take(h as int));
        h += 1;
    }
    string_of(&out)
}

// ---------------------------------------------------------------------------
// File filter
// ---------------------------------------------------------------------------
/// The text after the last `'/'` of a path.
pub open spec fn file_name_of(path: Seq<char>) -> Seq<char> {
    let parts = split_on(path, '/');
    parts[parts.len() - 1]
}

pub open spec fn last_dot(name: Seq<char>, i: int) -> int
    decreases i,
{
    if i <= 0 {
        -1
    } else if name[i - 1] == '.' {
        i - 1
    } else {
        last_dot(name, i - 1)
    }
}

/// The extension of a path, as `Path::extension` gives it for a path whose
/// file name is the text after its last `'/'`: what follows the last `'.'`
/// of the name, where that dot is not its first character.
pub open spec fn extension_of(path: Seq<char>) -> Option<Seq<char>> {
    let name = file_name_of(path);
    let d = last_dot(name, name.len() as int);
    if name == ".."@ || d <= 0 {
        None
    } else {
        Some(name.subrange(d + 1, name.len() as int))
    }
}

/// The lowercased extension, empty where there is none.
pub open spec fn ext_lower(path: Seq<char>) -> Seq<char> {
    match extension_of(path) {
        Some(e) => ascii_lowercase(e),
        None => seq![],
    }
}

proof fn lemma_last_dot(name: Seq<char>, i: int)
    requires
        0 <= i <= name.len(),
    ensures
        -1 <= last_dot(name, i) < i,
        last_dot(name, i) >= 0 ==> name[last_dot(name, i)] == '.',
        forall|k: int| last_dot(name, i) < k < i ==> name[k] != '.',
    decreases i,
{
    if i > 0 && name[i - 1] != '.' {
        lemma_last_dot(name, i - 1);
    }
}

/// The lowercased extension of a path, empty where there is none.
pub fn extension_lower(path: &Vec<char>) -> (r: Vec<char>)
    ensures
        r@ == ext_lower(path@),
{
    let parts = split_on_char(path, '/');
    proof {
        lemma_split_on_len(path@, '/');
    }
    let name = &parts[parts.len() - 1];
    assert(name@ == file_name_of(path@));
    let mut i: usize = name.len();
    while i > 0 && name[i - 1] != '.'
        invariant
            i <= name@.len(),
            last_dot(name@, name@.len() as int) == last_dot(name@, i as int),
        decreases i,
    {
        i -= 1;
    }
    proof {
        if i > 0 {
            assert(last_dot(name@, i as int) == i - 1);
        }
    }
    if equals_str(name, "..") || i <= 1 {
        return Vec::new();
    }
    let e = slice_chars(name, i, name.len());
    to_ascii_lowercase(&e)
}

/// The extensions of files that are never text.
pub open spec fn is_blocked_ext(e: Seq<char>) -> bool {
    e == "png"@ || e == "jpg"@ || e == "jpeg"@ || e == "gif"@ || e == "webp"@ || e == "ico"@ || e
        == "pdf"@ || e == "zip"@ || e == "gz"@ || e == "tar"@ || e == "7z"@ || e == "mp3"@ || e
        == "mp4"@ || e == "mov"@ || e == "db"@ || e == "sqlite"@ || e == "woff"@ || e == "woff2"@
        || e == "ttf"@ || e == "otf"@ || e == "lock"@ || e == "jar"@ || e == "class"@ || e
        == "wasm"@
}

/// Whether a path names a file that may hold text: its extension is not
/// one of an image, archive, media, font, database, lock or compiled file.
pub fn is_supported_text_file(path: &str) -> (r: bool)
    ensures
        r == !is_blocked_ext(ext_lower(path@)),
{
    let p = chars_of(path);
    let e = extension_lower(&p);
    !(equals_str(&e, "png") || equals_str(&e, "jpg") || equals_str(&e, "jpeg") || equals_str(
        &e,
        "gif",
    ) || equals_str(&e, "webp") || equals_str(&e, "ico") || equals_str(&e, "pdf") || equals_str(
        &e,
        "zip",
    ) || equals_str(&e, "gz") || equals_str(&e, "tar") || equals_str(&e, "7z") || equals_str(
        &e,
        "mp3",
    ) || equals_str(&e, "mp4") || equals_str(&e, "mov") || equals_str(&e, "db") || equals_str(
        &e,
        "sqlite",
    ) || equals_str(&e, "woff") || equals_str(&e, "woff2") || equals_str(&e, "ttf")
        || equals_str(&e, "otf") || equals_str(&e, "lock") || equals_str(&e, "jar") || equals_str(
        &e,
        "class",
    ) || equals_str(&e, "wasm"))
}

/// `s` without its leading dots.
pub open spec fn strip_leading_dots(s: Seq<char>) -> Seq<char>
    decreases s.len(),
{
    if s.len() > 0 && s[0] == '.' {
        strip_leading_dots(s.drop_first())
    } else {
        s
    }
}

/// Whether extension `ext` (lowercased) belongs to file type `wanted`
/// (lowercased, without leading dots), by the alias table, else by equality.
pub open spec fn type_matches(wanted: Seq<char>, ext: Seq<char>) -> bool {
    if wanted.len() == 0 {
        true
    } else if wanted == "rust"@ || wanted == "rs"@ {
        ext == "rs"@
    } else if wanted == "python"@ || wanted == "py"@ {
        ext == "py"@
    } else if wanted == "javascript"@ || wanted == "js"@ {
        ext == "js"@ || ext == "jsx"@ || ext == "mjs"@ || ext == "cjs"@
    } else if wanted == "typescript"@ || wanted == "ts"@ {
        ext == "ts"@ || ext == "tsx"@
    } else if wanted == "go"@ {
        ext == "go"@
    } else if wanted == "java"@ {
        ext == "java"@
    } else if wanted == "c"@ {
        ext == "c"@ || ext == "h"@
    } else if wanted == "cpp"@ || wanted == "c++"@ {
        ext == "cc"@ || ext == "cpp"@ || ext == "cxx"@ || ext == "hpp"@ || ext == "hh"@ || ext
            == "hxx"@
    } else if wanted == "markdown"@ || wanted == "md"@ {
        ext == "md"@ || ext == "mdx"@
    } else if wanted == "json"@ {
        ext == "json"@
    } else {
        ext == wanted
    }
}

/// Whether a path matches a file-type filter such as `ts`, `typescript` or `.py`.
pub fn matches_file_type(path: &str, file_type: &str) -> (r: bool)
    ensures
        r == type_matches(
            ascii_lowercase(strip_leading_dots(file_type@)),
            ext_lower(path@),
        ),
{
    let ft = chars_of(file_type);
    let mut i: usize = 0;
    assert(ft@.skip(0) =~= ft@);
    while i < ft.len() && ft[i] == '.'
        invariant
            i <= ft@.len(),
            strip_leading_dots(ft@) == strip_leading_dots(ft@.skip(i as int)),
        decreases ft.len() - i,
    {
        assert(ft@.skip(i as int).drop_first() =~= ft@.skip(i + 1));
        assert(ft@.skip(i as int)[0] == ft@[i as int]);
        i += 1;
    }
    let rest = slice_chars(&ft, i, ft.len());
    assert(rest@ =~= ft@.skip(i as int));
    let w = to_ascii_lowercase(&rest);
    if w.len() == 0 {
        return true;
    }
    let p = chars_of(path);
    let e = extension_lower(&p);
    if equals_str(&w, "rust") || equals_str(&w, "rs") {
        equals_str(&e, "rs")
    } else if equals_str(&w, "python") || equals_str(&w, "py") {
        equals_str(&e, "py")
    } else if equals_str(&w, "javascript") || equals_str(&w, "js") {
        equals_str(&e, "js") || equals_str(&e, "jsx") || equals_str(&e, "mjs") || equals_str(
            &e,
            "cjs",
        )
    } else if equals_str(&w, "typescript") || equals_str(&w, "ts") {
        equals_str(&e, "ts") || equals_str(&e, "tsx")
    } else if equals_str(&w, "go") {
        equals_str(&e, "go")
    } else if equals_str(&w, "java") {
        equals_str(&e, "java")
    } else if equals_str(&w, "c") {
        equals_str(&e, "c") || equals_str(&e, "h")
    } else if equals_str(&w, "cpp") || equals_str(&w, "c++") {
        equals_str(&e, "cc") || equals_str(&e, "cpp") || equals_str(&e, "cxx") || equals_str(
            &e,
            "hpp",
        ) || equals_str(&e, "hh") || equals_str(&e, "hxx")
    } else if equals_str(&w, "markdown") || equals_str(&w, "md") {
        equals_str(&e, "md") || equals_str(&e, "mdx")
    } else if equals_str(&w, "json") {
        equals_str(&e, "json")
    } else {
        seq_equal(&e, &w)
    }
}

/// Bytes of a file's head that are inspected for a NUL.
pub const BINARY_PROBE_BYTES: usize = 4096;

/// Whether a NUL byte occurs within the first 4096 bytes.
pub fn looks_binary(bytes: &[u8]) -> (r: bool)
    ensures
        r == exists|i: int| 0 <= i < bytes@.len() && i < 4096 && #[trigger] bytes@[i] == 0,
{
    let n: usize = if bytes.len() < BINARY_PROBE_BYTES {
        bytes.len()
    } else {
        BINARY_PROBE_BYTES
    };
    let mut i: usize = 0;
    while i < n
        invariant
            i <= n,
            n <= bytes@.len(),
            n == bytes@.len() || n == 4096,
            n <= 4096,
            forall|k: int| 0 <= k < i ==> bytes@[k] != 0,
        decreases n - i,
    {
        if bytes[i] == 0 {
            assert(bytes@[i as int] == 0);
            return true;
        }
        i += 1;
    }
    false
}

// ---------------------------------------------------------------------------
// Search session
// ---------------------------------------------------------------------------
/// Why a search does not start.
#[derive(Debug, PartialEq, Eq)]
pub enum SearchError {
    /// The query is empty once trimmed.
    EmptyQuery,
}

/// Checks the query and builds its model; an empty query is refused before
/// anything else is done.
pub fn prepare_query(query: &str) -> (r: Result<QueryModel, SearchError>)
    ensures
        trim(query@).len() == 0 <==> r is Err,
        r matches Err(e) ==> e == SearchError::EmptyQuery,
        r matches Ok(m) ==> m.phrase@ == phrase_of(query@) && m.terms_view() == query_terms(
            m.phrase@,
        ) && m.wf(),
{
    let q = chars_of(query);
    let t = trim_chars(&q);
    if t.len() == 0 {
        return Err(SearchError::EmptyQuery);
    }
    Ok(build_query_model(query))
}

/// The byte ceiling for a file: `max_file_kb` kibibytes, saturating, and
/// never under one kibibyte.
pub fn max_file_bytes(max_file_kb: usize) -> (r: usize)
    ensures
        r == (if max_file_kb as int * 1024 > usize::MAX as int {
            usize::MAX as int
        } else if max_file_kb < 1 {
            1024
        } else {
            max_file_kb * 1024
        }),
{
    if max_file_kb > usize::MAX / 1024 {
        usize::MAX
    } else if max_file_kb < 1 {
        1024
    } else {
        max_file_kb * 1024
    }
}

/// Context lines and snippets per file: none and one in compact mode, the
/// requested context and two otherwise.
pub fn search_settings(compact: bool, context_lines: usize) -> (r: (usize, usize))
    ensures
        r.0 == (if compact {
            0
        } else {
            context_lines
        }),
        r.1 == (if compact {
            1
        } else {
            MAX_SNIPPETS_PER_FILE
        }),
{
    if compact {
        (0, 1)
    } else {
        (context_lines, MAX_SNIPPETS_PER_FILE)
    }
}

/// The tallies and hits of one scan.
#[derive(Debug)]
pub struct SearchOutcome {
    pub scanned_files: usize,
    pub skipped_large: usize,
    pub skipped_binary: usize,
    pub hits: Vec<SearchHit>,
    pub raw_output: String,
}

impl SearchOutcome {
    /// Every skipped file was first counted as scanned.
    pub open spec fn wf(&self) -> bool {
        self.skipped_large + self.skipped_binary <= self.scanned_files
    }

    /// A file has been counted as scanned and not yet skipped or scored.
    pub open spec fn file_pending(&self) -> bool {
        self.skipped_large + self.skipped_binary < self.scanned_files
    }

    /// An outcome before any file.
    pub fn new() -> (r: SearchOutcome)
        ensures
            r.scanned_files == 0 && r.skipped_large == 0 && r.skipped_binary == 0,
            r.hits@.len() == 0 && r.raw_output@.len() == 0,
            r.wf(),
    {
        SearchOutcome {
            scanned_files: 0,
            skipped_large: 0,
            skipped_binary: 0,
            hits: Vec::new(),
            raw_output: String::new(),
        }
    }

    /// Counts a file that passed the path filters and whose size is known;
    /// one over the ceiling is counted as skipped and is not to be read.
    /// Whether to read it.
    pub fn note_scanned(&mut self, size: u64, max_file_bytes: usize) -> (read: bool)
        requires
            old(self).wf(),
            old(self).scanned_files < usize::MAX,
        ensures
            read == (size <= max_file_bytes as u64),
            final(self).wf(),
            read ==> final(self).file_pending(),
            final(self).scanned_files == old(self).scanned_files + 1,
            final(self).skipped_large == (if read {
                old(self).skipped_large as int
            } else {
                old(self).skipped_large + 1
            }),
            final(self).skipped_binary == old(self).skipped_binary,
            final(self).hits == old(self).hits,
            final(self).raw_output == old(self).raw_output,
    {
        self.scanned_files = self.scanned_files + 1;
        if size > max_file_bytes as u64 {
            self.skipped_large = self.skipped_large + 1;
            return false;
        }
        true
    }

    /// Looks at the bytes of the file just counted; a binary one is counted
    /// as skipped. Whether to score it.
    pub fn note_content(&mut self, bytes: &[u8]) -> (score: bool)
        requires
            old(self).file_pending(),
        ensures
            score == !exists|i: int| 0 <= i < bytes@.len() && i < 4096 && #[trigger] bytes@[i] == 0,
            final(self).wf(),
            final(self).scanned_files == old(self).scanned_files,
            final(self).skipped_large == old(self).skipped_large,
            final(self).skipped_binary == (if score {
                old(self).skipped_binary as int
            } else {
                old(self).skipped_binary + 1
            }),
            final(self).hits == old(self).hits,
            final(self).raw_output == old(self).raw_output,
    {
        if looks_binary(bytes) {
            self.skipped_binary = self.skipped_binary + 1;
            return false;
        }
        true
    }

    /// Adds a hit.
    pub fn add_hit(&mut self, hit: SearchHit)
        ensures
            final(self).hits@ == old(self).hits@.push(hit),
            final(self).scanned_files == old(self).scanned_files,
            final(self).skipped_large == old(self).skipped_large,
            final(self).skipped_binary == old(self).skipped_binary,
            final(self).raw_output == old(self).raw_output,
    {
        self.hits.push(hit);
    }

    /// Ranks the hits and builds the transcript.
    pub fn finish(self) -> (r: SearchOutcome)
        ensures
            r.hits@ == sort_hits(self.hits@),
            r.raw_output@ == raw_text(r.hits@.take(if r.hits@.len() < 60 {
                r.hits@.len() as int
            } else {
                60
            })),
            r.scanned_files == self.scanned_files,
            r.skipped_large == self.skipped_large,
            r.skipped_binary == self.skipped_binary,
            self.wf() ==> r.wf(),
    {
        let hits = rank_hits(self.hits);
        let raw_output = build_raw_output(&hits);
        SearchOutcome {
            scanned_files: self.scanned_files,
            skipped_large: self.skipped_large,
            skipped_binary: self.skipped_binary,
            hits,
            raw_output,
        }
    }
}

// ---------------------------------------------------------------------------
// Text report
// ---------------------------------------------------------------------------
/// Paths longer than this many characters are shortened in the text report.
pub const COMPACT_PATH_CHARS: usize = 58;

/// A long path with more than three segments shortened to its first
/// segment, `...`, and its last two segments.
pub open spec fn compact_path_spec(path: Seq<char>) -> Seq<char> {
    let parts = split_on(path, '/');
    let n = parts.len();
    if path.len() <= COMPACT_PATH_CHARS || n <= 3 {
        path
    } else {
        parts[0] + "/.../"@ + parts[n - 2] + "/"@ + parts[n - 1]
    }
}

/// Shortens a long path for display.
pub fn compact_path(path: &str) -> (r: String)
    ensures
        r@ == compact_path_spec(path@),
{
    let p = chars_of(path);
    if p.len() <= COMPACT_PATH_CHARS {
        return string_of(&p);
    }
    let parts = split_on_char(&p, '/');
    let n = parts.len();
    if n <= 3 {
        return string_of(&p);
    }
    let mut out = copy_chars(&parts[0]);
    append_str(&mut out, "/.../");
    append_chars(&mut out, &parts[n - 2]);
    append_str(&mut out, "/");
    append_chars(&mut out, &parts[n - 1]);
    string_of(&out)
}

/// A score in hundred-thousandths, rounded to one decimal place.
pub open spec fn fmt_score(score: nat) -> Seq<char> {
    let t = (score + 5000) / 10000;
    decimal(t / 10) + "."@ + seq![digit_of(t % 10)]
}

pub open spec fn digit_of(d: nat) -> char {
    crate::text::digit_char(d)
}

pub open spec fn spaces(n: nat) -> Seq<char>
    decreases n,
{
    if n == 0 {
        seq![]
    } else {
        spaces((n - 1) as nat).push(' ')
    }
}

/// `s` right-aligned in a field of four characters.
pub open spec fn pad4(s: Seq<char>) -> Seq<char> {
    if s.len() >= 4 {
        s
    } else {
        spaces((4 - s.len()) as nat) + s
    }
}

/// The items of `ts` separated by `, `.
pub open spec fn join_comma(ts: Seq<Seq<char>>) -> Seq<char>
    decreases ts.len(),
{
    if ts.len() == 0 {
        seq![]
    } else if ts.len() == 1 {
        ts[0]
    } else {
        join_comma(ts.drop_last()) + ", "@ + ts.last()
    }
}

pub open spec fn row_text(row: (nat, Seq<char>)) -> Seq<char> {
    "  "@ + pad4(decimal(row.0)) + ": "@ + row.1 + "\n"@
}

pub open spec fn rows_block(rows: Seq<(nat, Seq<char>)>) -> Seq<char>
    decreases rows.len(),
{
    if rows.len() == 0 {
        seq![]
    } else {
        rows_block(rows.drop_last()) + row_text(rows.last())
    }
}

/// A snippet's rows, its matched terms unless compact, and a blank line.
pub open spec fn snippet_block(sn: Snippet, compact: bool) -> Seq<char> {
    let terms = strs(sn.matched_terms@);
    rows_block(sn.rows()) + (if !compact && terms.len() > 0 {
        "       ~ "@ + join_comma(terms) + "\n"@
    } else {
        seq![]
    }) + "\n"@
}

pub open spec fn snippet_blocks(snips: Seq<Snippet>, compact: bool) -> Seq<char>
    decreases snips.len(),
{
    if snips.len() == 0 {
        seq![]
    } else {
        snippet_blocks(snips.drop_last(), compact) + snippet_block(snips.last(), compact)
    }
}

/// A hit's path line, its snippets, and the count of matched lines not shown.
pub open spec fn hit_block(h: SearchHit, compact: bool) -> Seq<char> {
    "\u{1F4C4} "@ + compact_path_spec(h.path@) + " ["@ + fmt_score(h.score as nat) + "]\n"@
        + snippet_blocks(h.snippets@, compact) + (if h.matched_lines > h.snippets@.len() {
        "  +"@ + decimal((h.matched_lines - h.snippets@.len()) as nat) + " more lines\n\n"@
    } else {
        seq![]
    })
}

pub open spec fn hit_blocks(hits: Seq<SearchHit>, compact: bool) -> Seq<char>
    decreases hits.len(),
{
    if hits.len() == 0 {
        seq![]
    } else {
        hit_blocks(hits.drop_last(), compact) + hit_block(hits.last(), compact)
    }
}

/// Number of hits that a report shows.
pub open spec fn shown_count(total: nat, max_results: nat) -> nat {
    if total < max_results {
        total
    } else {
        max_results
    }
}

/// The header of a report with hits.
pub open spec fn text_header(query: Seq<char>, total: nat, scanned: nat) -> Seq<char> {
    "\u{1F9E0} "@ + decimal(total) + "F for '"@ + query + "' (scan "@ + decimal(scanned) + "F)\n"@
        + "\n"@
}

/// The line that counts the hits beyond the cutoff.
pub open spec fn text_more(total: nat, max_results: nat) -> Seq<char> {
    if total > max_results {
        "... +"@ + decimal((total - max_results) as nat) + "F\n"@
    } else {
        seq![]
    }
}

/// The text report of an outcome.
pub open spec fn render_text_spec(
    query: Seq<char>,
    o: SearchOutcome,
    max_results: nat,
    compact: bool,
) -> Seq<char> {
    let total = o.hits@.len();
    if total == 0 {
        "\u{1F9E0} 0 for '"@ + query + "'\n"@
    } else {
        text_header(query, total, o.scanned_files as nat) + hit_blocks(
            shown_hits_of(o, max_results),
            compact,
        ) + text_more(total, max_results)
    }
}

fn append_header(out: &mut Vec<char>, query: &Vec<char>, total: usize, scanned: usize)
    ensures
        final(out)@ == old(out)@ + text_header(query@, total as nat, scanned as nat),
{
    append_str(out, "\u{1F9E0} ");
    let d = decimal_chars(total);
    append_chars(out, &d);
    append_str(out, "F for '");
    append_chars(out, query);
    append_str(out, "' (scan ");
    let d = decimal_chars(scanned);
    append_chars(out, &d);
    append_str(out, "F)\n");
    append_str(out, "\n");
    assert(final(out)@ =~= old(out)@ + text_header(query@, total as nat, scanned as nat));
}

fn append_more(out: &mut Vec<char>, total: usize, max_results: usize)
    ensures
        final(out)@ == old(out)@ + text_more(total as nat, max_results as nat),
{
    if total > max_results {
        append_str(out, "... +");
        let d = decimal_chars(total - max_results);
        append_chars(out, &d);
        append_str(out, "F\n");
    }
    assert(final(out)@ =~= old(out)@ + text_more(total as nat, max_results as nat));
}

fn append_score(out: &mut Vec<char>, score: u128)
    ensures
        final(out)@ == old(out)@ + fmt_score(score as nat),
{
    let q = score / 10000;
    let m = score % 10000;
    let t: u128 = if m >= 5000 {
        q + 1
    } else {
        q
    };
    assert(t == (score + 5000) / 10000) by (nonlinear_arith)
        requires
            score == q * 10000 + m,
            0 <= m < 10000,
            m >= 5000 ==> t == q + 1,
            m < 5000 ==> t == q,
    ;
    let whole = t / 10;
    let tenth = t % 10;
    let d = decimal_u128(whole);
    append_chars(out, &d);
    out.push('.');
    out.push(tenth_digit(tenth));
    proof {
        reveal_strlit(".");
    }
    assert(out@ =~= old(out)@ + fmt_score(score as nat));
}

fn tenth_digit(d: u128) -> (c: char)
    requires
        d < 10,
    ensures
        c == digit_of(d as nat),
{
    crate::text::digit_char_exec(d as usize)
}

/// The decimal digits of `n`.
fn decimal_u128(n: u128) -> (r: Vec<char>)
    ensures
        r@ == decimal(n as nat),
    decreases n,
{
    if n < 10 {
        let mut r: Vec<char> = Vec::new();
        r.push(crate::text::digit_char_exec(n as usize));
        r
    } else {
        let mut r = decimal_u128(n / 10);
        r.push(crate::text::digit_char_exec((n % 10) as usize));
        r
    }
}

fn append_pad4(out: &mut Vec<char>, n: usize)
    ensures
        final(out)@ == old(out)@ + pad4(decimal(n as nat)),
{
    let d = decimal_chars(n);
    let mut k: usize = d.len();
    let ghost start = out@;
    while k < 4
        invariant
            d.len() <= k <= 4 || (d.len() > 4 && k == d.len()),
            out@ == start + spaces((k - d.len()) as nat),
        decreases 4 - k,
    {
        out.push(' ');
        k += 1;
    }
    append_chars(out, &d);
    proof {
        if d.len() >= 4 {
            assert(spaces(0) =~= Seq::<char>::empty());
        }
    }
    assert(out@ =~= old(out)@ + pad4(decimal(n as nat)));
}

fn append_join(out: &mut Vec<char>, ts: &Vec<String>)
    ensures
        final(out)@ == old(out)@ + join_comma(strs(ts@)),
{
    let ghost tv = strs(ts@);
    let ghost start = out@;
    let mut i: usize = 0;
    assert(tv.take(0) =~= Seq::<Seq<char>>::empty());
    while i < ts.len()
        invariant
            i <= ts@.len(),
            tv == strs(ts@),
            out@ == start + join_comma(tv.take(i as int)),
        decreases ts.len() - i,
    {
        assert(tv.take(i + 1).drop_last() =~= tv.take(i as int));
        if i > 0 {
            append_str(out, ", ");
        }
        let t = chars_of(ts[i].as_str());
        append_chars(out, &t);
        proof {
            if i == 0 {
                assert(tv.take(1) =~= seq![tv[0]]);
            }
        }
        assert(out@ =~= start + join_comma(tv.take(i + 1)));
        i += 1;
    }
    assert(tv.take(ts@.len() as int) =~= tv);
}

fn append_snippet(out: &mut Vec<char>, sn: &Snippet, compact: bool)
    ensures
        final(out)@ == old(out)@ + snippet_block(*sn, compact),
{
    let ghost rv = sn.rows();
    let ghost start = out@;
    let mut i: usize = 0;
    assert(rv.take(0) =~= Seq::<(nat, Seq<char>)>::empty());
    while i < sn.lines.len()
        invariant
            i <= sn.lines@.len(),
            rv == sn.rows(),
            out@ == start + rows_block(rv.take(i as int)),
        decreases sn.lines.len() - i,
    {
        assert(rv.take(i + 1).drop_last() =~= rv.take(i as int));
        assert(rv.take(i + 1).last() == (sn.lines@[i as int].line as nat, sn.lines@[i as int].text@));
        append_str(out, "  ");
        append_pad4(out, sn.lines[i].line);
        append_str(out, ": ");
        let t = chars_of(sn.lines[i].text.as_str());
        append_chars(out, &t);
        append_str(out, "\n");
        assert(out@ =~= start + rows_block(rv.take(i + 1)));
        i += 1;
    }
    assert(rv.take(sn.lines@.len() as int) =~= rv);
    if !compact && sn.matched_terms.len() > 0 {
        append_str(out, "       ~ ");
        append_join(out, &sn.matched_terms);
        append_str(out, "\n");
    }
    append_str(out, "\n");
    assert(out@ =~= old(out)@ + snippet_block(*sn, compact));
}

fn append_hit(out: &mut Vec<char>, h: &SearchHit, compact: bool)
    ensures
        final(out)@ == old(out)@ + hit_block(*h, compact),
{
    let ghost start = out@;
    append_str(out, "\u{1F4C4} ");
    let cp = compact_path(h.path.as_str());
    let cpc = chars_of(cp.as_str());
    append_chars(out, &cpc);
    append_str(out, " [");
    append_score(out, h.score);
    append_str(out, "]\n");
    let ghost head = out@;
    let mut k: usize = 0;
    assert(h.snippets@.take(0) =~= Seq::<Snippet>::empty());
    while k < h.snippets.len()
        invariant
            k <= h.snippets@.len(),
            out@ == head + snippet_blocks(h.snippets@.take(k as int), compact),
        decreases h.snippets.len() - k,
    {
        assert(h.snippets@.take(k + 1).drop_last() =~= h.snippets@.take(k as int));
        append_snippet(out, &h.snippets[k], compact);
        assert(out@ =~= head + snippet_blocks(h.snippets@.take(k + 1), compact));
        k += 1;
    }
    assert(h.snippets@.take(h.snippets@.len() as int) =~= h.snippets@);
    if h.matched_lines > h.snippets.len() {
        append_str(out, "  +");
        let d = decimal_chars(h.matched_lines - h.snippets.len());
        append_chars(out, &d);
        append_str(out, " more lines\n\n");
    }
    assert(out@ =~= old(out)@ + hit_block(*h, compact));
}

/// Renders the text report of an outcome: a header with the hit and scanned
/// counts, the first `max_results` hits with their snippets, and the count of
/// hits left out. Scan statistics are not part of the report.
pub fn render_text(
    query: &str,
    outcome: &SearchOutcome,
    max_results: usize,
    compact: bool,
) -> (r: String)
    ensures
        r@ == render_text_spec(query@, *outcome, max_results as nat, compact),
{
    let q = chars_of(query);
    let mut out: Vec<char> = Vec::new();
    let total = outcome.hits.len();
    if total == 0 {
        append_str(&mut out, "\u{1F9E0} 0 for '");
        append_chars(&mut out, &q);
        append_str(&mut out, "'\n");
        assert(out@ =~= render_text_spec(query@, *outcome, max_results as nat, compact));
        return string_of(&out);
    }
    append_header(&mut out, &q, total, outcome.scanned_files);
    let shown: usize = if total < max_results {
        total
    } else {
        max_results
    };
    let ghost head = out@;
    let ghost hv = outcome.hits@;
    let mut i: usize = 0;
    assert(hv.take(0) =~= Seq::<SearchHit>::empty());
    while i < shown
        invariant
            i <= shown <= outcome.hits@.len(),
            hv == outcome.hits@,
            out@ == head + hit_blocks(hv.take(i as int), compact),
        decreases shown - i,
    {
        assert(hv.take(i + 1).drop_last() =~= hv.take(i as int));
        append_hit(&mut out, &outcome.hits[i], compact);
        assert(out@ =~= head + hit_blocks(hv.take(i + 1), compact));
        i += 1;
    }
    append_more(&mut out, total, max_results);
    assert(out@ =~= render_text_spec(query@, *outcome, max_results as nat, compact));
    string_of(&out)
}

// ---------------------------------------------------------------------------
// JSON report
// ---------------------------------------------------------------------------
/// The fields of the JSON document of a search; `shown_hits` is absent from
/// the document of a search without hits.
#[derive(Debug)]
pub struct JsonReport {
    pub total_hits: usize,
    pub shown_hits: usize,
    pub scanned_files: usize,
    pub skipped_large: usize,
    pub skipped_binary: usize,
    /// The hits the document lists, in order.
    pub hits: Vec<SearchHit>,
}

/// The hits that a report shows: the first `max_results` in rank order.
pub open spec fn shown_hits_of(o: SearchOutcome, max_results: nat) -> Seq<SearchHit> {
    o.hits@.take(shown_count(o.hits@.len(), max_results) as int)
}

/// Gathers the JSON document's fields from an outcome.
pub fn json_report(outcome: SearchOutcome, max_results: usize) -> (r: JsonReport)
    ensures
        r.total_hits == outcome.hits@.len(),
        r.shown_hits == shown_count(outcome.hits@.len(), max_results as nat),
        r.hits@ == shown_hits_of(outcome, max_results as nat),
        r.scanned_files == outcome.scanned_files,
        r.skipped_large == outcome.skipped_large,
        r.skipped_binary == outcome.skipped_binary,
{
    let total = outcome.hits.len();
    let shown: usize = if total < max_results {
        total
    } else {
        max_results
    };
    let mut hits = outcome.hits;
    hits.truncate(shown);
    assert(hits@ =~= shown_hits_of(outcome, max_results as nat));
    JsonReport {
        total_hits: total,
        shown_hits: shown,
        scanned_files: outcome.scanned_files,
        skipped_large: outcome.skipped_large,
        skipped_binary: outcome.skipped_binary,
        hits,
    }
}

/// The text and JSON reports of one outcome agree: the text header counts
/// the JSON document's `total_hits`, and the text lists, block by block, the
/// very hits that the JSON document lists, in the same order.
pub proof fn lemma_reports_agree(
    query: Seq<char>,
    o: SearchOutcome,
    max_results: nat,
    compact: bool,
)
    requires
        o.hits@.len() > 0,
    ensures
        ({
            let text = render_text_spec(query, o, max_results, compact);
            let head = text_header(query, o.hits@.len(), o.scanned_files as nat);
            let listed = shown_hits_of(o, max_results);
            &&& text.subrange(0, head.len() as int) == head
            &&& text.subrange(head.len() as int, (head.len() + hit_blocks(listed, compact).len()) as int)
                == hit_blocks(listed, compact)
        }),
{
    let text = render_text_spec(query, o, max_results, compact);
    let head = text_header(query, o.hits@.len(), o.scanned_files as nat);
    let listed = shown_hits_of(o, max_results);
    let blocks = hit_blocks(listed, compact);
    let rest = text.subrange((head.len() + blocks.len()) as int, text.len() as int);
    assert(text =~= head + blocks + rest);
    assert(text.subrange(0, head.len() as int) =~= head);
    assert(text.subrange(head.len() as int, (head.len() + blocks.len()) as int) =~= blocks);
}

// ---------------------------------------------------------------------------
// Path relevance and rank
// ---------------------------------------------------------------------------
pub open spec fn scores_sorted(s: Seq<SearchHit>) -> bool {
    forall|a: int, b: int| 0 <= a < b < s.len() ==> (#[trigger] s[a]).score >= (#[trigger] s[b]).score
}

proof fn lemma_insert_hit_bound(s: Seq<SearchHit>, h: SearchHit, bound: u128)
    requires
        forall|m: int| 0 <= m < s.len() ==> (#[trigger] s[m]).score <= bound,
        h.score <= bound,
    ensures
        insert_hit(s, h).len() == s.len() + 1,
        forall|k: int| 0 <= k < insert_hit(s, h).len() ==> (#[trigger] insert_hit(s, h)[k]).score <= bound,
    decreases s.len(),
{
    if s.len() > 0 && !hit_precedes(h, s[0]) {
        let t = s.drop_first();
        assert forall|m: int| 0 <= m < t.len() implies (#[trigger] t[m]).score <= bound by {
            assert(t[m] == s[m + 1]);
        }
        lemma_insert_hit_bound(t, h, bound);
        let r = seq![s[0]] + insert_hit(t, h);
        assert forall|k: int| 0 <= k < r.len() implies (#[trigger] r[k]).score <= bound by {
            if k > 0 {
                assert(r[k] == insert_hit(t, h)[k - 1]);
            }
        }
    } else if s.len() > 0 {
        let r = seq![h] + s;
        assert forall|k: int| 0 <= k < r.len() implies (#[trigger] r[k]).score <= bound by {
            if k > 0 {
                assert(r[k] == s[k - 1]);
            }
        }
    }
}

proof fn lemma_insert_hit_sorted(s: Seq<SearchHit>, h: SearchHit)
    requires
        scores_sorted(s),
    ensures
        scores_sorted(insert_hit(s, h)),
    decreases s.len(),
{
    if s.len() == 0 {
    } else if hit_precedes(h, s[0]) {
        let r = seq![h] + s;
        assert forall|a: int, b: int| 0 <= a < b < r.len() implies (#[trigger] r[a]).score >= (
        #[trigger] r[b]).score by {
            if a == 0 {
                assert(r[b] == s[b - 1]);
                if b > 1 {
                    assert(s[0].score >= s[b - 1].score);
                }
            } else {
                assert(r[a] == s[a - 1] && r[b] == s[b - 1]);
            }
        }
    } else {
        let t = s.drop_first();
        assert forall|a: int, b: int| 0 <= a < b < t.len() implies (#[trigger] t[a]).score >= (
        #[trigger] t[b]).score by {
            assert(t[a] == s[a + 1] && t[b] == s[b + 1]);
        }
        lemma_insert_hit_sorted(t, h);
        assert forall|m: int| 0 <= m < t.len() implies (#[trigger] t[m]).score <= s[0].score by {
            assert(t[m] == s[m + 1]);
        }
        lemma_insert_hit_bound(t, h, s[0].score);
        let it = insert_hit(t, h);
        let r = seq![s[0]] + it;
        assert forall|a: int, b: int| 0 <= a < b < r.len() implies (#[trigger] r[a]).score >= (
        #[trigger] r[b]).score by {
            assert(r[b] == it[b - 1]);
            if a > 0 {
                assert(r[a] == it[a - 1]);
            }
        }
    }
}

proof fn lemma_sort_hits_sorted(s: Seq<SearchHit>)
    ensures
        scores_sorted(sort_hits(s)),
    decreases s.len(),
{
    if s.len() > 0 {
        lemma_sort_hits_sorted(s.drop_last());
        lemma_insert_hit_sorted(sort_hits(s.drop_last()), s.last());
    }
}

/// After ranking, a hit with a higher score stands ahead of one with a
/// lower score.
pub proof fn lemma_higher_score_ranks_ahead(hits: Seq<SearchHit>, i: int, j: int)
    requires
        0 <= i < sort_hits(hits).len(),
        0 <= j < sort_hits(hits).len(),
        sort_hits(hits)[i].score > sort_hits(hits)[j].score,
    ensures
        i < j,
{
    lemma_sort_hits_sorted(hits);
    if j < i {
        assert(sort_hits(hits)[j].score >= sort_hits(hits)[i].score);
    }
}

proof fn lemma_contains_trans(hay: Seq<char>, mid: Seq<char>, t: Seq<char>)
    requires
        contains(hay, mid),
        contains(mid, t),
    ensures
        contains(hay, t),
{
    let i = choose|i: int| 0 <= i && i + mid.len() <= hay.len() && #[trigger] hay.subrange(i, i + mid.len()) == mid;
    let j = choose|j: int| 0 <= j && j + t.len() <= mid.len() && #[trigger] mid.subrange(j, j + t.len()) == t;
    assert(hay.subrange(i + j, i + j + t.len()) =~= t) by {
        assert forall|k: int| 0 <= k < t.len() implies hay.subrange(i + j, i + j + t.len())[k] == t[k] by {
            assert(mid.subrange(j, j + t.len())[k] == mid[j + k]);
            assert(hay.subrange(i, i + mid.len())[j + k] == hay[i + j + k]);
        }
    }
}

proof fn lemma_matched_all(lower: Seq<char>, terms: Seq<Seq<char>>)
    requires
        forall|k: int| 0 <= k < terms.len() ==> contains(lower, #[trigger] terms[k]),
    ensures
        matched_in(lower, terms).len() == terms.len(),
    decreases terms.len(),
{
    if terms.len() > 0 {
        let t = terms.drop_last();
        assert forall|k: int| 0 <= k < t.len() implies contains(lower, #[trigger] t[k]) by {
            assert(t[k] == terms[k]);
        }
        lemma_matched_all(lower, t);
        assert(contains(lower, terms[terms.len() - 1]));
    }
}

/// Of two displayed paths, the one whose lowercased form holds the query
/// phrase (of three bytes or more) scores strictly higher than one whose
/// lowercased form does not, when every term occurs in the phrase (as the
/// terms of an ASCII query do). With equal content the two files share
/// every other part of their score, so the first ranks ahead.
pub proof fn lemma_phrase_in_path_scores_higher(
    phrase: Seq<char>,
    terms: Seq<Seq<char>>,
    p1: Seq<char>,
    p2: Seq<char>,
    rest: nat,
)
    requires
        terms_within(phrase, terms),
        phrase.len() >= 3,
        contains(lower_of(p1), phrase),
        !contains(lower_of(p2), phrase),
    ensures
        score_path_spec(p1, phrase, terms) * 10000 + rest > score_path_spec(p2, phrase, terms)
            * 10000 + rest,
{
    let l1 = lower_of(p1);
    assert forall|k: int| 0 <= k < terms.len() implies contains(l1, #[trigger] terms[k]) by {
        lemma_contains_trans(l1, phrase, terms[k]);
    }
    lemma_matched_all(l1, terms);
    lemma_matched_len(lower_of(p2), terms);
}

// ---------------------------------------------------------------------------
// Scoring laws carried to whole lines
// ---------------------------------------------------------------------------
/// The score of a candidate, zero where there is none.
pub open spec fn cand_score(o: Option<(nat, nat, Seq<Seq<char>>)>) -> nat {
    match o {
        Some(c) => c.1,
        None => 0,
    }
}

/// Two lines that match the same terms, agree on the phrase bonus, and have
/// the same definition and length factors.
pub open spec fn same_terms_and_size(a: Seq<char>, b: Seq<char>, phrase: Seq<char>, terms: Seq<Seq<char>>) -> bool {
    let ta = trim(a);
    let tb = trim(b);
    &&& matched_in(lower_of(ta), terms) == matched_in(lower_of(tb), terms)
    &&& phrase_hit(lower_of(ta), phrase) == phrase_hit(lower_of(tb), phrase)
    &&& (ta.len() > LONG_LINE_CHARS) == (tb.len() > LONG_LINE_CHARS)
}

proof fn lemma_dedup_nonempty(s: Seq<Seq<char>>)
    requires
        s.len() > 0,
    ensures
        dedup_spec(s).len() > 0,
{
    let d = dedup_spec(s.drop_last());
    if d.contains(s.last()) {
        assert(d.len() > 0);
    }
}

proof fn lemma_sum_points_nonempty(ms: Seq<Seq<char>>)
    requires
        ms.len() > 0,
    ensures
        sum_points(ms) >= 14,
{
}

/// Of two lines that differ only in that the first opens with a comment
/// marker, the first scores exactly 0.7 times the second, wherever both
/// are candidates.
pub proof fn lemma_comment_line_scores_seven_tenths(
    idx: nat,
    c: Seq<char>,
    n: Seq<char>,
    phrase: Seq<char>,
    terms: Seq<Seq<char>>,
)
    requires
        same_terms_and_size(c, n, phrase, terms),
        is_definition(trim(c)) == is_definition(trim(n)),
        is_comment(trim(c)),
        !is_comment(trim(n)),
        score_line_spec(idx, c, phrase, terms) is Some,
        score_line_spec(idx, n, phrase, terms) is Some,
    ensures
        cand_score(score_line_spec(idx, c, phrase, terms)) * 10 == cand_score(
            score_line_spec(idx, n, phrase, terms),
        ) * 7,
{
    let tn = trim(n);
    lemma_comment_factor(
        phrase_hit(lower_of(tn), phrase),
        matched_in(lower_of(tn), terms),
        is_definition(tn),
        tn.len() > LONG_LINE_CHARS,
    );
}

/// Of two lines that match the same terms and differ only in that the
/// first is a definition, neither being a comment nor longer than 220
/// characters, the first is a candidate and scores at least 2.5 points more
/// than the second wherever that is a candidate too.
pub proof fn lemma_definition_line_scores_higher(
    idx: nat,
    d: Seq<char>,
    n: Seq<char>,
    phrase: Seq<char>,
    terms: Seq<Seq<char>>,
)
    requires
        same_terms_and_size(d, n, phrase, terms),
        matched_in(lower_of(trim(d)), terms).len() > 0,
        is_definition(trim(d)),
        !is_definition(trim(n)),
        !is_comment(trim(d)),
        !is_comment(trim(n)),
        trim(d).len() <= LONG_LINE_CHARS,
    ensures
        score_line_spec(idx, d, phrase, terms) is Some,
        score_line_spec(idx, n, phrase, terms) is Some ==> cand_score(
            score_line_spec(idx, d, phrase, terms),
        ) >= cand_score(score_line_spec(idx, n, phrase, terms)) + 2500,
{
    let td = trim(d);
    let m = matched_in(lower_of(td), terms);
    let ph = phrase_hit(lower_of(td), phrase);
    lemma_dedup_nonempty(m);
    lemma_sum_points_nonempty(m);
    lemma_definition_bonus(ph, m, false, false);
    assert(td.len() > 0) by {
        if td.len() == 0 {
            assert(skip_optional(skip_optional(trim_start(td), "pub"@), "async"@) =~= td) by {
                assert(trim_start(td) == td);
            }
        }
    }
}

/// Of two lines alike but that the first matches two distinct terms and
/// the second only one of them, the first is a candidate wherever the
/// second is, and scores strictly higher.
pub proof fn lemma_two_term_line_scores_higher(
    idx: nat,
    a: Seq<char>,
    b: Seq<char>,
    phrase: Seq<char>,
    terms: Seq<Seq<char>>,
    x: Seq<char>,
    y: Seq<char>,
)
    requires
        trim(a).len() > 0,
        x != y,
        matched_in(lower_of(trim(a)), terms) == seq![x, y] || matched_in(lower_of(trim(a)), terms)
            == seq![y, x],
        matched_in(lower_of(trim(b)), terms) == seq![x],
        phrase_hit(lower_of(trim(a)), phrase) == phrase_hit(lower_of(trim(b)), phrase),
        is_definition(trim(a)) == is_definition(trim(b)),
        is_comment(trim(a)) == is_comment(trim(b)),
        (trim(a).len() > LONG_LINE_CHARS) == (trim(b).len() > LONG_LINE_CHARS),
        score_line_spec(idx, b, phrase, terms) is Some,
    ensures
        score_line_spec(idx, a, phrase, terms) is Some,
        cand_score(score_line_spec(idx, a, phrase, terms)) > cand_score(
            score_line_spec(idx, b, phrase, terms),
        ),
{
    let ta = trim(a);
    let ph = phrase_hit(lower_of(ta), phrase);
    let df = is_definition(ta);
    let cm = is_comment(ta);
    let lg = ta.len() > LONG_LINE_CHARS;
    lemma_two_terms_outscore_one(ph, x, y, df, cm, lg);
    lemma_two_terms_outscore_one(ph, y, x, df, cm, lg);
    lemma_dedup_nonempty(matched_in(lower_of(ta), terms));
}

} // verus!
