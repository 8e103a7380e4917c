//! Encoding with special tokens: the text is searched for the literals of
//! the special tokens, those that the caller allows become single tokens,
//! and the text between them is encoded as ordinary text.

use crate::bytes::bytes_eq;
use crate::error::BpeError;
use crate::merge::lookup;
use crate::table::Rank;
use crate::tokenizer::{encode_text, special_search, tokens_only, CoreBPE};
use vstd::prelude::*;
use vstd::slice::slice_subrange;
use vstd::string::StringSliceAdditionalSpecFns;
use vstd::utf8::{
    decode_utf8, encode_utf8_valid_utf8, is_char_boundary,
    is_char_boundary_iff_not_is_continuation_byte, is_char_boundary_start_end_of_seq, valid_utf8,
    valid_utf8_split,
};

verus! {

/// The byte strings of the special tokens that a caller allows.
pub open spec fn allowed_set(allowed: Seq<&str>) -> Set<Seq<u8>> {
    Set::new(
        |b: Seq<u8>| exists|i: int| 0 <= i < allowed.len() && (#[trigger] allowed[i]).spec_bytes() == b,
    )
}

/// The first character boundary of `text` at or after `i`; the length of
/// `text` if there is none before it.
pub open spec fn next_boundary(text: Seq<u8>, i: int) -> int
    decreases text.len() - i,
{
    if i >= text.len() {
        text.len() as int
    } else if is_char_boundary(text, i) {
        i
    } else {
        next_boundary(text, i + 1)
    }
}

/// A match that a search from `from` may report: a range of `text` at or
/// after `from`, between character boundaries.
pub open spec fn usable_match(text: Seq<u8>, from: usize, m: (usize, usize)) -> bool {
    &&& from <= m.0 <= m.1 <= text.len()
    &&& is_char_boundary(text, m.0 as int)
    &&& is_char_boundary(text, m.1 as int)
}

/// The next special token at or after `from` that the caller allows, if
/// any. A match that is not allowed is passed over: the search goes on
/// from the first character boundary after its start.
pub open spec fn next_allowed_special(
    special_pattern: Option<Seq<char>>,
    text: Seq<u8>,
    allowed: Set<Seq<u8>>,
    from: usize,
) -> Result<Option<(usize, usize)>, BpeError>
    decreases text.len() - from,
{
    match special_search(special_pattern, decode_utf8(text), from) {
        Err(e) => Err(e),
        Ok(None) => Ok(None),
        Ok(Some(m)) => {
            if !usable_match(text, from, m) {
                Err(BpeError::MatchFailed)
            } else if allowed.contains(text.subrange(m.0 as int, m.1 as int)) {
                if m.0 == m.1 {
                    Err(BpeError::MatchFailed)
                } else {
                    Ok(Some(m))
                }
            } else {
                let next = next_boundary(text, m.0 + 1);
                if m.0 >= text.len() || !(from < next <= text.len()) || next > usize::MAX {
                    Ok(None)
                } else {
                    next_allowed_special(special_pattern, text, allowed, next as usize)
                }
            }
        },
    }
}

/// A result of encoding with `head` put before its tokens.
pub open spec fn prepend(head: Seq<Rank>, r: Result<(Seq<Rank>, nat), BpeError>) -> Result<
    (Seq<Rank>, nat),
    BpeError,
> {
    match r {
        Ok(t) => Ok((head + t.0, t.1)),
        Err(e) => Err(e),
    }
}

/// The tokens of `text` from byte `start` on, with the number of tokens
/// that the last piece gave, 0 where the text ends with a special token.
/// Up to the next allowed special token the text is encoded as ordinary
/// text; then comes the rank of the special token, and so on after it.
pub open spec fn encode_from(
    ranks: Map<Seq<u8>, Rank>,
    specials: Map<Seq<u8>, Rank>,
    pattern: Seq<char>,
    special_pattern: Option<Seq<char>>,
    text: Seq<u8>,
    allowed: Set<Seq<u8>>,
    start: usize,
) -> Result<(Seq<Rank>, nat), BpeError>
    decreases text.len() - start,
{
    match next_allowed_special(special_pattern, text, allowed, start) {
        Err(e) => Err(e),
        Ok(None) => encode_text(ranks, pattern, text.subrange(start as int, text.len() as int)),
        Ok(Some(m)) => {
            if !(start <= m.0 < m.1 <= text.len()) {
                Err(BpeError::MatchFailed)
            } else {
                match encode_text(ranks, pattern, text.subrange(start as int, m.0 as int)) {
                    Err(e) => Err(e),
                    Ok(head) => match lookup(specials, text.subrange(m.0 as int, m.1 as int)) {
                        None => Err(BpeError::MatchFailed),
                        Some(rank) => prepend(
                            head.0.push(rank),
                            encode_from(ranks, specials, pattern, special_pattern, text, allowed, m.1),
                        ),
                    },
                }
            }
        },
    }
}

/// A character boundary of a text is one of each part of the text that
/// starts at the beginning and reaches it.
pub proof fn lemma_boundary_of_head(text: Seq<u8>, start: int, end: int)
    requires
        valid_utf8(text),
        0 <= start <= end <= text.len(),
        is_char_boundary(text, start),
        is_char_boundary(text, end),
    ensures
        valid_utf8(text.subrange(0, end)),
        is_char_boundary(text.subrange(0, end), start),
{
    let head = text.subrange(0, end);
    valid_utf8_split(text, end);
    if start == end {
        is_char_boundary_start_end_of_seq(head);
    } else {
        is_char_boundary_iff_not_is_continuation_byte(text, start);
        is_char_boundary_iff_not_is_continuation_byte(head, start);
    }
}

/// The length of `text` in bytes.
pub fn byte_len(text: &str) -> (n: usize)
    ensures
        n == text.spec_bytes().len(),
{
    text.as_bytes().len()
}

/// The first character boundary of `text` at or after `i`.
pub fn next_char_boundary(text: &str, i: usize) -> (j: usize)
    requires
        i <= text.spec_bytes().len(),
    ensures
        j == next_boundary(text.spec_bytes(), i as int),
        i <= j <= text.spec_bytes().len(),
        is_char_boundary(text.spec_bytes(), j as int),
{
    let mut j = i;
    let n = byte_len(text);
    while j < n && !text.is_char_boundary(j)
        invariant
            n == text.spec_bytes().len(),
            i <= j <= text.spec_bytes().len(),
            next_boundary(text.spec_bytes(), i as int) == next_boundary(text.spec_bytes(), j as int),
        decreases text.spec_bytes().len() - j,
    {
        j += 1;
    }
    proof {
        encode_utf8_valid_utf8(text@);
        is_char_boundary_start_end_of_seq(text.spec_bytes());
    }
    j
}

/// Tells whether `piece` is the literal of a special token that the caller
/// allows.
pub fn is_allowed(allowed_special: &Vec<&str>, piece: &[u8]) -> (b: bool)
    ensures
        b == allowed_set(allowed_special@).contains(piece@),
{
    let mut i: usize = 0;
    while i < allowed_special.len()
        invariant
            i <= allowed_special.len(),
            forall|j: int| 0 <= j < i ==> (#[trigger] allowed_special@[j]).spec_bytes() != piece@,
        decreases allowed_special.len() - i,
    {
        if bytes_eq(allowed_special[i].as_bytes(), piece) {
            return true;
        }
        i += 1;
    }
    false
}

impl CoreBPE {
    /// The tokens of `text` with the special tokens of `allowed`, and the
    /// number of tokens that the last piece gave.
    pub open spec fn spec_encode_native(&self, text: Seq<u8>, allowed: Set<Seq<u8>>) -> Result<
        (Seq<Rank>, nat),
        BpeError,
    > {
        encode_from(
            self.encoder(),
            self.special_encoder(),
            self.pattern(),
            self.special_pattern(),
            text,
            allowed,
            0,
        )
    }

    /// The tokens of `text` with the special tokens of `allowed`.
    pub open spec fn spec_encode(&self, text: Seq<u8>, allowed: Set<Seq<u8>>) -> Result<
        Seq<Rank>,
        BpeError,
    > {
        tokens_only(self.spec_encode_native(text, allowed))
    }

    /// The next special token in `text` at or after byte `from` whose
    /// literal is in `allowed_special`, as a byte range.
    pub fn next_special(&self, text: &str, allowed_special: &Vec<&str>, from: usize) -> (r: Result<
        Option<(usize, usize)>,
        BpeError,
    >)
        requires
            self.wf(),
            from <= text.spec_bytes().len(),
            is_char_boundary(text.spec_bytes(), from as int),
        ensures
            r == next_allowed_special(
                self.special_pattern(),
                text.spec_bytes(),
                allowed_set(allowed_special@),
                from,
            ),
            r matches Ok(Some(m)) ==> usable_match(text.spec_bytes(), from, m) && m.0 < m.1,
    {
        let ghost bytes = text.spec_bytes();
        let ghost allowed = allowed_set(allowed_special@);
        let mut pos = from;
        let n = byte_len(text);
        proof {
            vstd::utf8::encode_utf8_decode_utf8(text@);
            encode_utf8_valid_utf8(text@);
        }
        loop
            invariant
                self.wf(),
                bytes == text.spec_bytes(),
                allowed == allowed_set(allowed_special@),
                valid_utf8(bytes),
                n == bytes.len(),
                decode_utf8(bytes) == text@,
                from <= pos <= bytes.len(),
                is_char_boundary(bytes, pos as int),
                next_allowed_special(self.special_pattern(), bytes, allowed, from)
                    == next_allowed_special(self.special_pattern(), bytes, allowed, pos),
            decreases bytes.len() - pos,
        {
            match self.search_special(text, pos) {
                Err(e) => {
                    return Err(e);
                },
                Ok(None) => {
                    return Ok(None);
                },
                Ok(Some(m)) => {
                    let (s, e) = m;
                    if !(pos <= s && s <= e && e <= n && text.is_char_boundary(s)
                        && text.is_char_boundary(e)) {
                        return Err(BpeError::MatchFailed);
                    }
                    if is_allowed(allowed_special, slice_subrange(text.as_bytes(), s, e)) {
                        if s == e {
                            return Err(BpeError::MatchFailed);
                        }
                        return Ok(Some(m));
                    }
                    if s >= n {
                        return Ok(None);
                    }
                    pos = next_char_boundary(text, s + 1);
                },
            }
        }
    }

    /// The tokens of `text` with the special tokens of `allowed_special`,
    /// and the number of tokens that the last piece gave: 0 where the text
    /// ends with a special token.
    pub fn _encode_native(&self, text: &str, allowed_special: &Vec<&str>) -> (r: Result<
        (Vec<Rank>, usize),
        BpeError,
    >)
        requires
            self.wf(),
        ensures
            match r {
                Ok(done) => self.spec_encode_native(text.spec_bytes(), allowed_set(allowed_special@))
                    == Ok::<(Seq<Rank>, nat), BpeError>((done.0@, done.1 as nat)),
                Err(e) => self.spec_encode_native(text.spec_bytes(), allowed_set(allowed_special@))
                    == Err::<(Seq<Rank>, nat), BpeError>(e),
            },
    {
        let ghost bytes = text.spec_bytes();
        let ghost allowed = allowed_set(allowed_special@);
        let mut ret: Vec<Rank> = Vec::new();
        let mut start: usize = 0;
        let n = byte_len(text);
        proof {
            encode_utf8_valid_utf8(text@);
            is_char_boundary_start_end_of_seq(bytes);
            let whole = self.spec_encode_native(bytes, allowed);
            match whole {
                Ok(t) => {
                    assert(ret@ + t.0 =~= t.0);
                },
                Err(_) => {},
            }
        }
        loop
            invariant
                self.wf(),
                bytes == text.spec_bytes(),
                valid_utf8(bytes),
                n == bytes.len(),
                allowed == allowed_set(allowed_special@),
                start <= bytes.len(),
                is_char_boundary(bytes, start as int),
                self.spec_encode_native(bytes, allowed) == prepend(
                    ret@,
                    encode_from(
                        self.encoder(),
                        self.special_encoder(),
                        self.pattern(),
                        self.special_pattern(),
                        bytes,
                        allowed,
                        start,
                    ),
                ),
            decreases bytes.len() - start,
        {
            let next = match self.next_special(text, allowed_special, start) {
                Ok(next) => next,
                Err(e) => {
                    return Err(e);
                },
            };
            let end = match next {
                Some(m) => m.0,
                None => n,
            };
            proof {
                is_char_boundary_start_end_of_seq(bytes);
                lemma_boundary_of_head(bytes, start as int, end as int);
            }
            let head = text.split_at(end).0;
            let between = head.split_at(start).1;
            assert(between.spec_bytes() =~= bytes.subrange(start as int, end as int));
            let ghost before = ret@;
            let (mut tokens, last) = match self._encode_ordinary_native(between) {
                Ok(done) => done,
                Err(e) => {
                    return Err(e);
                },
            };
            let ghost head_tokens = tokens@;
            ret.append(&mut tokens);
            match next {
                None => {
                    return Ok((ret, last));
                },
                Some(m) => {
                    let (s, e) = m;
                    match self.special_rank(slice_subrange(text.as_bytes(), s, e)) {
                        None => {
                            return Err(BpeError::MatchFailed);
                        },
                        Some(rank) => {
                            ret.push(rank);
                            proof {
                                let rest = encode_from(
                                    self.encoder(),
                                    self.special_encoder(),
                                    self.pattern(),
                                    self.special_pattern(),
                                    bytes,
                                    allowed,
                                    e,
                                );
                                match rest {
                                    Ok(t) => {
                                        assert(before + (head_tokens.push(rank) + t.0) =~= ret@
                                            + t.0);
                                    },
                                    Err(_) => {},
                                }
                            }
                            start = e;
                        },
                    }
                },
            }
        }
    }

    /// The tokens of `text`. A special token becomes its own rank where
    /// its literal is in `allowed_special`; elsewhere its literal is
    /// encoded as ordinary text.
    pub fn encode(&self, text: &str, allowed_special: &Vec<&str>) -> (r: Result<Vec<Rank>, BpeError>)
        requires
            self.wf(),
        ensures
            match r {
                Ok(tokens) => self.spec_encode(text.spec_bytes(), allowed_set(allowed_special@))
                    == Ok::<Seq<Rank>, BpeError>(tokens@),
                Err(e) => self.spec_encode(text.spec_bytes(), allowed_set(allowed_special@)) == Err::<
                    Seq<Rank>,
                    BpeError,
                >(e),
            },
    {
        match self._encode_native(text, allowed_special) {
            Ok(done) => Ok(done.0),
            Err(e) => Err(e),
        }
    }
}

} // verus!
