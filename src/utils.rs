//! Text helpers shared by the command modules.
use crate::text::{
    append_chars, append_str, byte_cut, byte_len, byte_len_exceeds, byte_prefix, chars_of,
    string_of,
};
use vstd::prelude::*;

verus! {

/// `s` cut to at most `max_len` bytes, a cut ending with `...`; the cut
/// never splits a character.
pub open spec fn truncate_spec(s: Seq<char>, max_len: nat) -> Seq<char> {
    if byte_len(s) <= max_len {
        s
    } else if max_len < 3 {
        "..."@
    } else {
        byte_cut(s, (max_len - 3) as nat) + "..."@
    }
}

/// Cuts `s` to at most `max_len` bytes, ending a cut with `...`; where
/// `max_len` is under three the result is `...` alone.
pub fn truncate(s: &str, max_len: usize) -> (r: String)
    ensures
        r@ == truncate_spec(s@, max_len as nat),
{
    let c = chars_of(s);
    if !byte_len_exceeds(&c, max_len) {
        return string_of(&c);
    }
    if max_len < 3 {
        let mut out: Vec<char> = Vec::new();
        append_str(&mut out, "...");
        return string_of(&out);
    }
    let mut out = byte_prefix(&c, max_len - 3);
    append_str(&mut out, "...");
    string_of(&out)
}

/// The confirmation line of a completed action: `ok <action> <detail>`.
pub fn ok_confirmation(action: &str, detail: &str) -> (r: String)
    ensures
        r@ == "ok "@ + action@ + " "@ + detail@,
{
    let mut out: Vec<char> = Vec::new();
    append_str(&mut out, "ok ");
    append_str(&mut out, action);
    append_str(&mut out, " ");
    append_str(&mut out, detail);
    string_of(&out)
}

} // verus!
