//! Grouping of Playwright specs by directory.
use crate::text::{append_str, chars_of, rfind, rfind_chars, slice_chars, string_of};
use vstd::prelude::*;

verus! {

/// The directory of a spec path: what precedes its last `/`, or `root`.
pub open spec fn spec_dir(spec: Seq<char>) -> Seq<char> {
    match rfind(spec, "/"@) {
        Some(pos) => spec.subrange(0, pos),
        None => "root"@,
    }
}

/// The directory that a spec file lies in, `root` for a bare file name.
pub fn extract_spec_dir(spec: &str) -> (r: String)
    ensures
        r@ == spec_dir(spec@),
{
    let s = chars_of(spec);
    let slash = chars_of("/");
    proof {
        crate::text::lemma_rfind_before(s@, slash@, (s@.len() + 1) as int);
    }
    match rfind_chars(&s, &slash) {
        Some(pos) => {
            let d = slice_chars(&s, 0, pos);
            string_of(&d)
        },
        None => {
            let mut out: Vec<char> = Vec::new();
            append_str(&mut out, "root");
            string_of(&out)
        },
    }
}

} // verus!
