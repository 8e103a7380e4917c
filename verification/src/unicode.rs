//! What the tokenizer takes from outside about UTF-8 and Unicode.
//!
//! Nothing in this file is proved: each item states what a function of the
//! standard library or of the byte-string library is taken to do.

use vstd::prelude::*;
use vstd::string::StringSliceAdditionalSpecFns;
use vstd::utf8::valid_utf8;

verus! {

/// What `bstr::decode_last_utf8` returns on `bytes`: the last character,
/// if the bytes end with a well-formed one, and the number of bytes that
/// it read.
pub uninterp spec fn last_scalar(bytes: Seq<u8>) -> (Option<char>, usize);

/// The characters with the Unicode property `White_Space`: the controls
/// from tab to carriage return, the space, next line, the no-break space,
/// the Ogham space mark, the spaces from en quad to hair space, the line
/// and paragraph separators, the narrow no-break space, the medium
/// mathematical space and the ideographic space.
pub open spec fn is_whitespace_char(c: char) -> bool {
    ('\u{9}' <= c && c <= '\u{d}') || c == ' ' || c == '\u{85}' || c == '\u{a0}' || c
        == '\u{1680}' || ('\u{2000}' <= c && c <= '\u{200a}') || c == '\u{2028}' || c
        == '\u{2029}' || c == '\u{202f}' || c == '\u{205f}' || c == '\u{3000}'
}

/// `k` is the length of the longest prefix of `bytes` that is well-formed
/// UTF-8.
pub open spec fn is_valid_prefix_len(bytes: Seq<u8>, k: int) -> bool {
    &&& 0 <= k <= bytes.len()
    &&& valid_utf8(bytes.subrange(0, k))
    &&& forall|j: int| k < j <= bytes.len() ==> !valid_utf8(#[trigger] bytes.subrange(0, j))
}

/// `bstr::decode_last_utf8`: decodes the last character of `bytes`. The
/// result depends on `bytes` alone.
#[verifier::external_body]
pub(crate) fn decode_last_utf8(bytes: &[u8]) -> (r: (Option<char>, usize))
    ensures
        r == last_scalar(bytes@),
{
    bstr::decode_last_utf8(bytes)
}

/// `char::is_whitespace`: whether `c` has the Unicode property
/// `White_Space`.
#[verifier::external_body]
pub(crate) fn is_whitespace(c: char) -> (b: bool)
    ensures
        b == is_whitespace_char(c),
{
    c.is_whitespace()
}

/// `std::str::from_utf8`: `bytes` as text where they are well-formed UTF-8;
/// else the error's `valid_up_to`, the length of the longest prefix that
/// is well-formed.
#[verifier::external_body]
pub(crate) fn from_utf8(bytes: &[u8]) -> (r: Result<&str, usize>)
    ensures
        match r {
            Ok(text) => valid_utf8(bytes@) && text.spec_bytes() == bytes@,
            Err(k) => !valid_utf8(bytes@) && is_valid_prefix_len(bytes@, k as int),
        },
{
    std::str::from_utf8(bytes).map_err(|e| e.valid_up_to())
}

} // verus!
