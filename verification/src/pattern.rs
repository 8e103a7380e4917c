//! The regular-expression engine, as far as the tokenizer relies on it.
//!
//! Nothing in this file is proved: each item states what the engine is
//! taken to do. What a search returns is not written out here; it is given
//! a name, as a function of the pattern, the text and the start position,
//! and the tokenizer's contracts speak of that name.
//!
//! A search depends on these alone because every compiled expression of
//! this library comes from `Regex::new`, which sets the engine's limits to
//! their defaults. An expression made by the engine's builder with another
//! limit on backtracking could give up where these give a match: the
//! searches below are not meant for one.

use crate::syntax::{is_literal_alternation, safe_pattern};
use fancy_regex::Regex;
use vstd::prelude::*;
use vstd::string::StringSliceAdditionalSpecFns;
use vstd::utf8::is_char_boundary;

verus! {

/// A compiled regular expression of the engine. Opaque to the proofs.
#[verifier::external_type_specification]
#[verifier::external_body]
pub struct ExRegex(fancy_regex::Regex);

/// The engine's error, at compile time or during a search. Opaque to the
/// proofs.
#[verifier::external_type_specification]
#[verifier::external_body]
pub struct ExRegexError(fancy_regex::Error);

/// The pattern that a compiled expression was made from: what
/// `Regex::as_str` returns.
pub uninterp spec fn regex_source(re: Regex) -> Seq<char>;

/// Whether `Regex::new` accepts the pattern.
pub uninterp spec fn regex_compiles(pattern: Seq<char>) -> bool;

/// What `Regex::find_iter` yields for the pattern on `text`: the byte
/// ranges of all matches, in the order found, or `None` if the engine gave
/// up during the search.
pub uninterp spec fn regex_find_iter(pattern: Seq<char>, text: Seq<char>) -> Option<
    Seq<(usize, usize)>,
>;

/// What `Regex::find_from_pos` returns for the pattern on `text` from byte
/// position `pos`: the byte range of the first match if there is one, or
/// the outer `None` if the engine gave up during the search.
pub uninterp spec fn regex_find_from_pos(pattern: Seq<char>, text: Seq<char>, pos: usize) -> Option<
    Option<(usize, usize)>,
>;

/// The characters that the engine's `escape` puts a backslash before.
pub open spec fn is_special_char(c: char) -> bool {
    c == '\\' || c == '.' || c == '+' || c == '*' || c == '?' || c == '(' || c == ')' || c == '|'
        || c == '[' || c == ']' || c == '{' || c == '}' || c == '^' || c == '$' || c == '#'
}

/// `text` with a backslash before each special character.
pub open spec fn escaped(text: Seq<char>) -> Seq<char>
    decreases text.len(),
{
    if text.len() == 0 {
        Seq::empty()
    } else if is_special_char(text.last()) {
        escaped(text.drop_last()).push('\\').push(text.last())
    } else {
        escaped(text.drop_last()).push(text.last())
    }
}

/// `Regex::new`: compiles a pattern. It succeeds on the patterns that the
/// engine accepts, always the same ones, and the compiled expression
/// remembers the pattern it was made from. The pattern must be one that
/// the engine reads to its end without a back-reference, a condition on a
/// group or a keep-out and with least sizes that fit, or an alternation of
/// escaped literals: reading an unfinished condition, the engine looks
/// past the end of the pattern, and it multiplies least sizes unchecked.
pub assume_specification[ Regex::new ](re: &str) -> (r: fancy_regex::Result<Regex>)
    requires
        safe_pattern(re@) || is_literal_alternation(re@),
    ensures
        r is Ok <==> regex_compiles(re@),
        r matches Ok(compiled) ==> regex_source(compiled) == re@,
;

/// `Regex::find_iter`, run to its end: the byte ranges of all matches of
/// `re` in `text`, or the engine's error. The result depends on the
/// pattern of `re` and on `text` alone. The pattern must hold no
/// back-reference, no condition on a group and no keep-out. Matching a
/// back-reference, the engine cuts the text by the bounds of the group,
/// which may be out of order while the group is being matched again; and
/// a keep-out can make a match end where it began looking, so that the
/// same match is found again without end.
#[verifier::external_body]
pub(crate) fn find_all(re: &Regex, text: &str) -> (r: Result<Vec<(usize, usize)>, fancy_regex::Error>)
    requires
        safe_pattern(regex_source(*re)),
    ensures
        match r {
            Ok(spans) => regex_find_iter(regex_source(*re), text@) == Some(spans@),
            Err(_) => regex_find_iter(regex_source(*re), text@) is None,
        },
{
    re.find_iter(text).map(|found| found.map(|m| (m.start(), m.end()))).collect()
}

/// `Regex::find_from_pos`: the byte range of the first match of `re` in
/// `text` at or after `pos`, if any, or the engine's error. The result
/// depends on the pattern of `re`, on `text` and on `pos` alone. The
/// search is started only from a character boundary within `text`, and
/// only for an alternation of escaped literals, which the engine hands
/// whole to its automaton.
#[verifier::external_body]
pub(crate) fn find_from(re: &Regex, text: &str, pos: usize) -> (r: Result<
    Option<(usize, usize)>,
    fancy_regex::Error,
>)
    requires
        is_literal_alternation(regex_source(*re)),
        pos <= text.spec_bytes().len(),
        is_char_boundary(text.spec_bytes(), pos as int),
    ensures
        match r {
            Ok(found) => regex_find_from_pos(regex_source(*re), text@, pos) == Some(found),
            Err(_) => regex_find_from_pos(regex_source(*re), text@, pos) is None,
        },
{
    re.find_from_pos(text, pos).map(|found| found.map(|m| (m.start(), m.end())))
}

/// The engine's `escape`: `text` with a backslash before each character
/// that has a meaning in a pattern, so that the result matches `text`
/// itself.
#[verifier::external_body]
pub(crate) fn escape(text: &str) -> (r: String)
    ensures
        r@ == escaped(text@),
{
    fancy_regex::escape(text).into_owned()
}

} // verus!
