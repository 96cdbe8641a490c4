//! Key normalization and the trusted bridges to std's Unicode handling.
//!
//! A normalized key is the source name trimmed of leading and trailing
//! whitespace and lowercased with the platform's default case fold.  The
//! trim, the case fold and UTF-8 validation come from std; everything else
//! here is verified against vstd's UTF-8 model.

use vstd::prelude::*;

verus! {

use vstd::utf8::decode_utf8;
use vstd::utf8::encode_utf8;
use vstd::utf8::valid_utf8;
use vstd::string::StrSliceExecFns;

/// What `str::trim` returns, as a sequence of characters.
pub uninterp spec fn trimmed_of(s: Seq<char>) -> Seq<char>;

/// Whether `char::is_whitespace` holds of `c`.
pub uninterp spec fn char_is_ws(c: char) -> bool;

/// What `str::to_lowercase` returns, as a sequence of characters.
pub uninterp spec fn lower_of(s: Seq<char>) -> Seq<char>;

/// Relies on `str::from_utf8`: it succeeds exactly on valid UTF-8 input and
/// decodes the bytes to the characters they encode.
#[verifier::external_body]
pub fn str_from_utf8(b: &[u8]) -> (r: Option<&str>)
    ensures
        r is Some <==> valid_utf8(b@),
        r matches Some(s) ==> s@ == decode_utf8(b@),
{
    core::str::from_utf8(b).ok()
}

/// Whether `b` is a valid UTF-8 encoding.
pub fn check_utf8(b: &[u8]) -> (r: bool)
    ensures
        r == valid_utf8(b@),
{
    str_from_utf8(b).is_some()
}

/// Relies on `str::trim`: it removes exactly the leading and trailing
/// whitespace characters (`char::is_whitespace`), so the result is shorter
/// and is empty exactly when every character is whitespace.
#[verifier::external_body]
pub fn str_trim(s: &str) -> (r: &str)
    ensures
        r@ == trimmed_of(s@),
        r@.len() <= s@.len(),
        (r@.len() == 0) <==> (forall|i: int| 0 <= i < s@.len() ==> char_is_ws(s@[i])),
{
    s.trim()
}

/// Relies on `str::to_lowercase`: the result is a function of the characters
/// alone, and is empty exactly when the input is empty.
#[verifier::external_body]
pub fn str_lower(s: &str) -> (r: String)
    ensures
        r@ == lower_of(s@),
        (r@.len() == 0) <==> (s@.len() == 0),
{
    s.to_lowercase()
}

/// The normalized key seeded by the UTF-8 bytes `b`: the decoded text,
/// trimmed and lowercased, as UTF-8 bytes again — or nothing, when the bytes
/// are not UTF-8 or nothing but whitespace remains.
pub open spec fn norm_of(b: Seq<u8>) -> Option<Seq<u8>> {
    if !valid_utf8(b) {
        None
    } else {
        let t = trimmed_of(decode_utf8(b));
        if t.len() == 0 {
            None
        } else {
            Some(encode_utf8(lower_of(t)))
        }
    }
}

/// Normalizes a name to its index key: trim whitespace, lowercase, and keep
/// the result only when something is left.
pub fn norm_key(s: &[u8]) -> (r: Option<Vec<u8>>)
    ensures
        match norm_of(s@) {
            None => r is None,
            Some(k) => r matches Some(v) && v@ == k,
        },
        (valid_utf8(s@) && forall|i: int|
            0 <= i < decode_utf8(s@).len() ==> char_is_ws(decode_utf8(s@)[i])) ==> r is None,
{
    match str_from_utf8(s) {
        None => None,
        Some(st) => {
            let t = str_trim(st);
            if t.is_empty() {
                None
            } else {
                let l = str_lower(t);
                Some(l.as_str().as_bytes_vec())
            }
        },
    }
}

} // verus!
