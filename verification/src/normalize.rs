//! Name normalization.
//!
//! Lookup keys use the NFKD form of each path component, encoded as UTF-8;
//! records keep the display form (the component as presented, trimmed). The
//! three results below are pure functions of the characters alone, so each
//! gets a name that contracts can share.

use vstd::prelude::*;
use unicode_normalization::UnicodeNormalization;

verus! {

/// The NFKD (compatibility decomposition) form of a character sequence.
pub uninterp spec fn nfkd_of(s: Seq<char>) -> Seq<char>;

/// The UTF-8 encoding of a character sequence.
pub open spec fn utf8_of(s: Seq<char>) -> Seq<u8> {
    vstd::utf8::encode_utf8(s)
}

/// The character sequence with surrounding whitespace removed.
pub uninterp spec fn trim_of(s: Seq<char>) -> Seq<char>;

/// A UTF-8 encoding is empty exactly when its characters are.
pub proof fn lemma_utf8_empty(s: Seq<char>)
    ensures
        utf8_of(s).len() == 0 <==> s.len() == 0,
{
    if s.len() > 0 {
        assert(vstd::utf8::encode_scalar(s[0] as u32).len() >= 1);
    }
}

/// Relies on unicode_normalization's `nfkd()`: the compatibility
/// decomposition of the characters, a pure function of them; it is empty
/// exactly when the input is empty.
#[verifier::external_body]
pub fn nfkd(s: &str) -> (r: String)
    ensures
        r@ == nfkd_of(s@),
        r@.len() == 0 <==> s@.len() == 0,
{
    s.nfkd().collect::<String>()
}

/// The UTF-8 bytes of a string: empty exactly when the string is.
pub fn utf8_bytes(s: &str) -> (r: Vec<u8>)
    ensures
        r@ == utf8_of(s@),
        r@.len() == 0 <==> s@.len() == 0,
{
    let r = vstd::slice::slice_to_vec(s.as_bytes());
    proof {
        lemma_utf8_empty(s@);
    }
    r
}

/// Relies on str::trim: the characters with leading and trailing
/// whitespace removed, a pure function of them.
#[verifier::external_body]
pub fn trim(s: &str) -> (r: String)
    ensures
        r@ == trim_of(s@),
{
    s.trim().to_string()
}

} // verus!
