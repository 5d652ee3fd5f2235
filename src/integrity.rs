//! Integrity of the installed hook script: its SHA-256 digest against the
//! one stored beside it at install time, in `sha256sum` format.
use crate::text::{append_str, chars_of, first_word, first_word_chars, string_of};
use vstd::prelude::*;

verus! {

/// The outcome of checking the hook against its stored digest.
#[derive(Debug, PartialEq, Eq)]
pub enum IntegrityStatus {
    /// The digests agree: the hook is as installed.
    Verified,
    /// The digests differ: the hook was changed after installation.
    Tampered { expected: String, actual: String },
    /// The hook exists but no digest was stored.
    NoBaseline,
    /// Neither the hook nor a stored digest exists.
    NotInstalled,
    /// A digest is stored but the hook is gone.
    OrphanedHash,
}

/// Why a check could not be made.
#[derive(Debug, PartialEq, Eq)]
pub enum IntegrityError {
    /// The stored digest is not 64 hexadecimal digits.
    InvalidHashFormat,
}

/// The lowercase hexadecimal SHA-256 digest of some bytes.
pub uninterp spec fn sha256_hex_of(content: Seq<u8>) -> Seq<char>;

/// Relies on `sha2::Sha256`: the SHA-256 digest of `content`, written as
/// 64 lowercase hexadecimal digits by the digest's `LowerHex` formatting.
#[verifier::external_body]
fn sha256_hex(content: &[u8]) -> (r: String)
    ensures
        r@ == sha256_hex_of(content@),
        r@.len() == 64,
{
    format!("{:x}", <sha2::Sha256 as sha2::Digest>::digest(content))
}

/// The digest of the hook's bytes, in lowercase hexadecimal.
pub fn compute_hash(content: &[u8]) -> (r: String)
    ensures
        r@ == sha256_hex_of(content@),
        r@.len() == 64,
{
    sha256_hex(content)
}

pub open spec fn is_hex_digit(c: char) -> bool {
    ('0' <= c && c <= '9') || ('a' <= c && c <= 'f') || ('A' <= c && c <= 'F')
}

/// The digest that a hash file stores: its first word, where that is 64
/// hexadecimal digits.
pub open spec fn stored_hash_of(content: Seq<char>) -> Option<Seq<char>> {
    let w = first_word(content);
    if w.len() == 64 && forall|i: int| 0 <= i < w.len() ==> is_hex_digit(#[trigger] w[i]) {
        Some(w)
    } else {
        None
    }
}

/// Reads the digest from the content of a hash file.
pub fn read_stored_hash(content: &str) -> (r: Option<String>)
    ensures
        match r {
            Some(h) => stored_hash_of(content@) == Some(h@),
            None => stored_hash_of(content@) is None,
        },
{
    let c = chars_of(content);
    let w = first_word_chars(&c);
    if w.len() != 64 {
        return None;
    }
    let mut i: usize = 0;
    while i < w.len()
        invariant
            i <= w@.len(),
            w@.len() == 64,
            w@ == first_word(content@),
            forall|k: int| 0 <= k < i ==> is_hex_digit(#[trigger] w@[k]),
        decreases w.len() - i,
    {
        let ch = w[i];
        if !(('0' <= ch && ch <= '9') || ('a' <= ch && ch <= 'f') || ('A' <= ch && ch <= 'F')) {
            assert(!is_hex_digit(w@[i as int]));
            return None;
        }
        i += 1;
    }
    Some(string_of(&w))
}

/// The line a hash file holds: the digest, two spaces, the hook's file name.
pub fn hash_file_line(hash: &str, file_name: &str) -> (r: String)
    ensures
        r@ == hash@ + "  "@ + file_name@ + "\n"@,
{
    let mut out: Vec<char> = Vec::new();
    append_str(&mut out, hash);
    append_str(&mut out, "  ");
    append_str(&mut out, file_name);
    append_str(&mut out, "\n");
    string_of(&out)
}

/// Checks a hook against its stored digest, given the hook's bytes and the
/// hash file's text, each `None` where the file does not exist.
pub fn verify_hook_at(hook: Option<&[u8]>, hash_file: Option<&str>) -> (r: Result<
    IntegrityStatus,
    IntegrityError,
>)
    ensures
        match (hook, hash_file) {
            (None, None) => r == Ok::<IntegrityStatus, IntegrityError>(IntegrityStatus::NotInstalled),
            (None, Some(_)) => r == Ok::<IntegrityStatus, IntegrityError>(IntegrityStatus::OrphanedHash),
            (Some(_), None) => r == Ok::<IntegrityStatus, IntegrityError>(IntegrityStatus::NoBaseline),
            (Some(h), Some(c)) => match stored_hash_of(c@) {
                None => r == Err::<IntegrityStatus, IntegrityError>(IntegrityError::InvalidHashFormat),
                Some(stored) => if stored == sha256_hex_of(h@) {
                    r == Ok::<IntegrityStatus, IntegrityError>(IntegrityStatus::Verified)
                } else {
                    r matches Ok(IntegrityStatus::Tampered { expected, actual }) && expected@ == stored
                        && actual@ == sha256_hex_of(h@)
                },
            },
        },
{
    match (hook, hash_file) {
        (None, None) => Ok(IntegrityStatus::NotInstalled),
        (None, Some(_)) => Ok(IntegrityStatus::OrphanedHash),
        (Some(_), None) => Ok(IntegrityStatus::NoBaseline),
        (Some(h), Some(c)) => match read_stored_hash(c) {
            None => Err(IntegrityError::InvalidHashFormat),
            Some(stored) => {
                let actual = compute_hash(h);
                let sc = chars_of(stored.as_str());
                let ac = chars_of(actual.as_str());
                if crate::text::seq_equal(&sc, &ac) {
                    Ok(IntegrityStatus::Verified)
                } else {
                    Ok(IntegrityStatus::Tampered { expected: stored, actual })
                }
            },
        },
    }
}

} // verus!
