//! Encoding of text that may go on: byte strings that end in the middle of
//! a character, and the token sequences that the last piece of a text may
//! turn into when more text follows.

use crate::bytes::append_bytes;
use crate::error::BpeError;
use crate::laws::{
    all_known, lemma_encode_from_known, lemma_merge_round_trip, lemma_spans_last_piece,
};
use crate::pattern::regex_find_iter;
use crate::special::{allowed_set, encode_from};
use crate::table::Rank;
use crate::tokenizer::{decode_tokens, piece_tokens, tokenisable, CoreBPE};
use crate::bytes::{
    bytes_start_with, lemma_prefix_not_above, lemma_prefix_range_closed, lex_lt, starts_with,
    strictly_sorted,
};
use crate::merge::{byte_pair_encode, bytes_covered, spec_byte_pair_encode};
use crate::unicode::{
    decode_last_utf8, from_utf8, is_valid_prefix_len, is_whitespace, is_whitespace_char, last_scalar,
};
use vstd::pervasive::unreached;
use vstd::prelude::*;
use vstd::slice::slice_subrange;
use vstd::string::StringSliceAdditionalSpecFns;
use vstd::utf8::{decode_utf8, valid_utf8};

verus! {

/// Space, newline or tab.
pub open spec fn is_space_byte(b: u8) -> bool {
    b == 32 || b == 10 || b == 9
}

/// Every byte of `bytes` is a space, a newline or a tab.
pub open spec fn all_space(bytes: Seq<u8>) -> bool {
    forall|i: int| 0 <= i < bytes.len() ==> is_space_byte(#[trigger] bytes[i])
}

/// `token` is a token of the vocabulary whose bytes are all spaces,
/// newlines or tabs.
pub open spec fn is_space_token(decoder: Map<Rank, Seq<u8>>, token: Rank) -> bool {
    decoder.contains_key(token) && all_space(decoder[token])
}

/// `len` grown to the left over the tokens that are all space: the number
/// of last tokens that are taken as unstable, once the `len` last ones
/// are.
pub open spec fn grow_over_space(decoder: Map<Rank, Seq<u8>>, tokens: Seq<Rank>, len: nat) -> nat
    decreases tokens.len() - len,
{
    if len < tokens.len() && is_space_token(decoder, tokens[tokens.len() - len - 1]) {
        grow_over_space(decoder, tokens, len + 1)
    } else {
        len
    }
}

/// The number of last tokens that are taken as unstable where the last
/// piece gave `len` tokens: more than `len` where the first of them is all
/// space and tokens of that kind stand before it.
pub open spec fn increased_last_piece_len(
    decoder: Map<Rank, Seq<u8>>,
    tokens: Seq<Rank>,
    len: nat,
) -> nat {
    if 0 < len <= tokens.len() && is_space_token(decoder, tokens[tokens.len() - len]) {
        grow_over_space(decoder, tokens, len)
    } else {
        len
    }
}

/// The length of the longest prefix of `bytes` that is well-formed UTF-8.
pub open spec fn valid_prefix_len(bytes: Seq<u8>) -> int {
    choose|k: int| is_valid_prefix_len(bytes, k)
}

/// The last `n` of `tokens`.
pub open spec fn last_tokens(tokens: Seq<Rank>, n: nat) -> Seq<Rank> {
    tokens.subrange(tokens.len() - n, tokens.len() as int)
}

/// There is one longest well-formed prefix.
pub proof fn lemma_valid_prefix_unique(bytes: Seq<u8>, k: int)
    requires
        is_valid_prefix_len(bytes, k),
    ensures
        valid_prefix_len(bytes) == k,
{
    let c = valid_prefix_len(bytes);
    if c < k {
        assert(!valid_utf8(bytes.subrange(0, k)));
    } else if k < c {
        assert(!valid_utf8(bytes.subrange(0, c)));
    }
}

/// Every byte string has a longest well-formed prefix.
pub proof fn lemma_valid_prefix_exists(bytes: Seq<u8>)
    ensures
        is_valid_prefix_len(bytes, valid_prefix_len(bytes)),
{
    let k = lemma_valid_prefix_below(bytes, bytes.len() as int);
}

/// A longest well-formed prefix, where no prefix longer than `n` bytes is
/// well-formed.
pub proof fn lemma_valid_prefix_below(bytes: Seq<u8>, n: int) -> (k: int)
    requires
        0 <= n <= bytes.len(),
        forall|j: int| n < j <= bytes.len() ==> !valid_utf8(#[trigger] bytes.subrange(0, j)),
    ensures
        is_valid_prefix_len(bytes, k),
    decreases n,
{
    if valid_utf8(bytes.subrange(0, n)) {
        n
    } else {
        assert(n > 0) by {
            if n == 0 {
                assert(bytes.subrange(0, 0) =~= Seq::<u8>::empty());
            }
        }
        lemma_valid_prefix_below(bytes, n - 1)
    }
}

/// Growing over space keeps the unstable tokens within the tokens, and
/// within the vocabulary if they were.
pub proof fn lemma_grow_over_space(decoder: Map<Rank, Seq<u8>>, tokens: Seq<Rank>, len: nat)
    requires
        len <= tokens.len(),
    ensures
        len <= grow_over_space(decoder, tokens, len) <= tokens.len(),
        all_known(decoder, last_tokens(tokens, len)) ==> all_known(
            decoder,
            last_tokens(tokens, grow_over_space(decoder, tokens, len)),
        ),
    decreases tokens.len() - len,
{
    if len < tokens.len() && is_space_token(decoder, tokens[tokens.len() - len - 1]) {
        lemma_grow_over_space(decoder, tokens, len + 1);
        if all_known(decoder, last_tokens(tokens, len)) {
            let more = last_tokens(tokens, len + 1);
            assert forall|i: int| 0 <= i < more.len() implies decoder.contains_key(
                #[trigger] more[i],
            ) by {
                if i > 0 {
                    assert(more[i] == last_tokens(tokens, len)[i - 1]);
                }
            }
        }
    }
}

/// Tells whether every byte of `bytes` is a space, a newline or a tab.
pub fn is_all_space(bytes: &[u8]) -> (b: bool)
    ensures
        b == all_space(bytes@),
{
    let mut i: usize = 0;
    while i < bytes.len()
        invariant
            i <= bytes.len(),
            forall|j: int| 0 <= j < i ==> is_space_byte(#[trigger] bytes@[j]),
        decreases bytes.len() - i,
    {
        let b = bytes[i];
        if !(b == 32 || b == 10 || b == 9) {
            return false;
        }
        i += 1;
    }
    true
}

impl CoreBPE {
    /// The tokens of `bytes`, which need not be well-formed UTF-8. The
    /// longest well-formed prefix is encoded as text without special
    /// tokens; the bytes of its last piece, taken back, and the bytes
    /// after the prefix are then cut into tokens as one piece. Where the
    /// prefix has no last piece (it is empty, or the pattern finds no
    /// piece in it), the tokens are those of the prefix alone: the bytes
    /// after the prefix are left out.
    pub open spec fn spec_encode_bytes(&self, bytes: Seq<u8>) -> Result<Seq<Rank>, BpeError> {
        if valid_utf8(bytes) {
            self.spec_encode_ordinary(bytes)
        } else {
            let k = valid_prefix_len(bytes);
            match self.spec_encode_native(bytes.subrange(0, k), Set::empty()) {
                Err(e) => Err(e),
                Ok(done) => {
                    let unstable = increased_last_piece_len(self.decoder(), done.0, done.1);
                    if unstable == 0 {
                        Ok(done.0)
                    } else {
                        let tail = self.spec_decode(last_tokens(done.0, unstable)) + bytes.subrange(
                            k,
                            bytes.len() as int,
                        );
                        if tokenisable(self.encoder(), tail) {
                            Ok(
                                done.0.take(done.0.len() - unstable) + piece_tokens(
                                    self.encoder(),
                                    tail,
                                ),
                            )
                        } else {
                            Err(BpeError::TokenNotFound)
                        }
                    }
                },
            }
        }
    }

    /// Tells whether `token` is a token of the vocabulary whose bytes are
    /// all spaces, newlines or tabs.
    pub fn token_is_all_space(&self, token: Rank) -> (b: bool)
        requires
            self.wf(),
        ensures
            b == is_space_token(self.decoder(), token),
    {
        match self.vocabulary_bytes(token) {
            Some(bytes) => is_all_space(bytes),
            None => false,
        }
    }

    /// Grows the number of last tokens that are taken as unstable: where
    /// the first token of the last piece is all space, the tokens of that
    /// kind before it are unstable too.
    pub fn _increase_last_piece_token_len(
        &self,
        tokens: Vec<Rank>,
        last_piece_token_len: usize,
    ) -> (r: (Vec<Rank>, usize))
        requires
            self.wf(),
            last_piece_token_len <= tokens.len(),
        ensures
            r.0@ == tokens@,
            r.1 == increased_last_piece_len(self.decoder(), tokens@, last_piece_token_len as nat),
            last_piece_token_len <= r.1 <= tokens.len(),
    {
        let mut len = last_piece_token_len;
        proof {
            lemma_grow_over_space(self.decoder(), tokens@, len as nat);
        }
        if len > 0 && self.token_is_all_space(tokens[tokens.len() - len]) {
            while len < tokens.len() && self.token_is_all_space(tokens[tokens.len() - len - 1])
                invariant
                    self.wf(),
                    last_piece_token_len <= len <= tokens.len(),
                    grow_over_space(self.decoder(), tokens@, len as nat) == grow_over_space(
                        self.decoder(),
                        tokens@,
                        last_piece_token_len as nat,
                    ),
                decreases tokens.len() - len,
            {
                len += 1;
            }
        }
        (tokens, len)
    }

    /// The tokens of `bytes`, which need not be well-formed UTF-8: those
    /// of the text, where the bytes are text. Where they are not, the
    /// bytes after the longest well-formed prefix are cut into tokens
    /// together with the last piece of the prefix; where the prefix has no
    /// last piece, they are left out.
    pub fn encode_bytes(&self, bytes: &[u8]) -> (r: Result<Vec<Rank>, BpeError>)
        requires
            self.wf(),
        ensures
            match r {
                Ok(tokens) => self.spec_encode_bytes(bytes@) == Ok::<Seq<Rank>, BpeError>(tokens@),
                Err(e) => self.spec_encode_bytes(bytes@) == Err::<Seq<Rank>, BpeError>(e),
            },
    {
        match from_utf8(bytes) {
            Ok(text) => self.encode_ordinary(text),
            Err(k) => {
                proof {
                    lemma_valid_prefix_unique(bytes@, k as int);
                }
                let text = match from_utf8(slice_subrange(bytes, 0, k)) {
                    Ok(text) => text,
                    Err(_) => unreached(),
                };
                let none: Vec<&str> = Vec::new();
                assert(allowed_set(none@) =~= Set::<Seq<u8>>::empty());
                let (tokens, last) = match self._encode_native(text, &none) {
                    Ok(done) => done,
                    Err(e) => {
                        return Err(e);
                    },
                };
                let ghost encoded = tokens@;
                proof {
                    self.lemma_wf();
                    lemma_encode_from_known(
                        self.encoder(),
                        self.special_encoder(),
                        self.decoder(),
                        self.special_decoder(),
                        self.pattern(),
                        self.special_pattern(),
                        text.spec_bytes(),
                        Set::empty(),
                        0,
                    );
                    lemma_grow_over_space(self.decoder(), encoded, last as nat);
                }
                let (mut tokens, unstable) = self._increase_last_piece_token_len(tokens, last);
                if unstable > 0 {
                    let n = tokens.len();
                    let ghost taken = last_tokens(encoded, unstable as nat);
                    assert forall|i: int| 0 <= i < taken.len() implies self.knows(
                        #[trigger] taken[i],
                    ) by {
                        assert(self.decoder().contains_key(taken[i]));
                    }
                    let mut tail = self._decode_native(
                        slice_subrange(tokens.as_slice(), n - unstable, n),
                    );
                    append_bytes(&mut tail, slice_subrange(bytes, k, bytes.len()));
                    tokens.truncate(n - unstable);
                    match self.encode_piece(tail.as_slice()) {
                        Some(mut more) => {
                            tokens.append(&mut more);
                        },
                        None => {
                            return Err(BpeError::TokenNotFound);
                        },
                    }
                }
                Ok(tokens)
            },
        }
    }
}

/// How many of `tokens`, from the first on, it takes until their bytes
/// number `need` or more: all of them if they never do.
pub open spec fn cover_count(decoder: Map<Rank, Seq<u8>>, tokens: Seq<Rank>, need: int) -> nat
    decreases tokens.len(),
{
    if tokens.len() == 0 {
        0
    } else if decoder[tokens[0]].len() >= need {
        1
    } else {
        1 + cover_count(decoder, tokens.drop_first(), need - decoder[tokens[0]].len())
    }
}

/// The tokens of `piece` by the merge engine alone; a piece of one byte is
/// looked up.
pub open spec fn merged_piece(ranks: Map<Seq<u8>, Rank>, piece: Seq<u8>) -> Result<
    Seq<Rank>,
    BpeError,
> {
    if piece.len() == 1 && ranks.contains_key(piece) {
        Ok(seq![ranks[piece]])
    } else if piece.len() > 1 && bytes_covered(ranks, piece) {
        Ok(spec_byte_pair_encode(ranks, piece))
    } else {
        Err(BpeError::TokenNotFound)
    }
}

/// `list` holds `s`.
pub open spec fn holds(list: Seq<Seq<Rank>>, s: Seq<Rank>) -> bool {
    exists|i: int| 0 <= i < list.len() && #[trigger] list[i] == s
}

/// One of the vectors of `v` has the elements of `s`.
pub open spec fn has_view(v: Seq<Vec<Rank>>, s: Seq<Rank>) -> bool {
    exists|i: int| 0 <= i < v.len() && (#[trigger] v[i])@ == s
}

/// No two vectors of `v` have the same elements.
pub open spec fn distinct_views(v: Seq<Vec<Rank>>) -> bool {
    forall|i: int, j: int| 0 <= i < j < v.len() ==> (#[trigger] v[i])@ != (#[trigger] v[j])@
}

/// The sequences that `list` holds, as a set.
pub open spec fn list_set(list: Seq<Seq<Rank>>) -> Set<Seq<Rank>> {
    Set::new(|s: Seq<Rank>| holds(list, s))
}

/// The sequences whose elements the vectors of `v` have, as a set.
pub open spec fn views_set(v: Seq<Vec<Rank>>) -> Set<Seq<Rank>> {
    Set::new(|s: Seq<Rank>| has_view(v, s))
}

impl CoreBPE {
    /// The tokens of a candidate for what the unstable bytes may turn
    /// into: encoded as text where the candidate is well-formed UTF-8, by
    /// the merge engine where it is not.
    pub open spec fn spec_reencode(&self, possibility: Seq<u8>) -> Result<Seq<Rank>, BpeError> {
        if valid_utf8(possibility) {
            self.spec_encode_ordinary(possibility)
        } else if possibility.len() > 1 && bytes_covered(self.encoder(), possibility) {
            Ok(spec_byte_pair_encode(self.encoder(), possibility))
        } else {
            Err(BpeError::TokenNotFound)
        }
    }

    /// The completion that a candidate gives: as many of its first tokens
    /// as it takes to cover `need` bytes.
    pub open spec fn spec_completion(&self, possibility: Seq<u8>, need: int) -> Result<
        Seq<Rank>,
        BpeError,
    > {
        match self.spec_reencode(possibility) {
            Err(e) => Err(e),
            Ok(tokens) => Ok(tokens.take(cover_count(self.decoder(), tokens, need) as int)),
        }
    }

    /// The completions for the split of `unstable` at byte `i`, from the
    /// first `n` byte strings of the vocabulary: for each of them that
    /// starts with the bytes after the split, the bytes before the split
    /// followed by it are a candidate.
    pub open spec fn completions_at(&self, unstable: Seq<u8>, i: int, n: int) -> Result<
        Seq<Seq<Rank>>,
        BpeError,
    >
        decreases n,
    {
        if n <= 0 {
            Ok(Seq::empty())
        } else {
            match self.completions_at(unstable, i, n - 1) {
                Err(e) => Err(e),
                Ok(before) => {
                    let key = self.sorted_token_bytes()[n - 1];
                    if !starts_with(key, unstable.skip(i)) {
                        Ok(before)
                    } else {
                        match self.spec_completion(unstable.take(i) + key, unstable.len() as int) {
                            Err(e) => Err(e),
                            Ok(c) => Ok(before.push(c)),
                        }
                    }
                },
            }
        }
    }

    /// The completions for the splits of `unstable` at the bytes from 1 up
    /// to `end`, `end` left out.
    pub open spec fn split_completions(&self, unstable: Seq<u8>, end: int) -> Result<
        Seq<Seq<Rank>>,
        BpeError,
    >
        decreases end,
    {
        if end <= 1 {
            Ok(Seq::empty())
        } else {
            match self.split_completions(unstable, end - 1) {
                Err(e) => Err(e),
                Ok(before) => match self.completions_at(
                    unstable,
                    end - 1,
                    self.sorted_token_bytes().len() as int,
                ) {
                    Err(e) => Err(e),
                    Ok(these) => Ok(before + these),
                },
            }
        }
    }

    /// The single tokens that start with `unstable`, among the first `n`
    /// byte strings of the vocabulary.
    pub open spec fn whole_completions(&self, unstable: Seq<u8>, n: int) -> Seq<Seq<Rank>>
        decreases n,
    {
        if n <= 0 {
            Seq::empty()
        } else {
            let before = self.whole_completions(unstable, n - 1);
            let key = self.sorted_token_bytes()[n - 1];
            if starts_with(key, unstable) {
                before.push(seq![self.encoder()[key]])
            } else {
                before
            }
        }
    }

    /// The completion for text that goes on after a white-space character
    /// at the end of `unstable`: the bytes before that character and its
    /// own bytes, each cut into tokens by the merge engine.
    pub open spec fn space_completion(&self, unstable: Seq<u8>) -> Result<
        Option<Seq<Rank>>,
        BpeError,
    > {
        let last = last_scalar(unstable);
        if unstable.len() > 1 && last.1 < unstable.len() && (match last.0 {
            Some(c) => is_whitespace_char(c),
            None => false,
        }) {
            let cut = unstable.len() - last.1;
            match merged_piece(self.encoder(), unstable.take(cut)) {
                Err(e) => Err(e),
                Ok(front) => match merged_piece(self.encoder(), unstable.skip(cut)) {
                    Err(e) => Err(e),
                    Ok(back) => Ok(Some(front + back)),
                },
            }
        } else {
            Ok(None)
        }
    }

    /// All completions of `unstable`, in the order in which they are
    /// found.
    pub open spec fn unstable_completions(&self, unstable: Seq<u8>) -> Result<
        Seq<Seq<Rank>>,
        BpeError,
    > {
        match self.split_completions(unstable, unstable.len() as int) {
            Err(e) => Err(e),
            Ok(splits) => match self.space_completion(unstable) {
                Err(e) => Err(e),
                Ok(fix) => Ok(
                    self.whole_completions(unstable, self.sorted_token_bytes().len() as int)
                        + splits + (match fix {
                        Some(c) => seq![c],
                        None => Seq::empty(),
                    }),
                ),
            },
        }
    }

    /// The tokens of `text` that stay as they are when more text follows,
    /// and the set of token sequences that the rest, the unstable bytes,
    /// may turn into.
    pub open spec fn spec_encode_with_unstable(&self, text: Seq<u8>, allowed: Set<Seq<u8>>) -> Result<
        (Seq<Rank>, Set<Seq<Rank>>),
        BpeError,
    > {
        match self.spec_encode_native(text, allowed) {
            Err(e) => Err(e),
            Ok(done) => {
                if done.1 == 0 {
                    Ok((done.0, Set::empty()))
                } else {
                    let n = increased_last_piece_len(self.decoder(), done.0, done.1);
                    let unstable = self.spec_decode(last_tokens(done.0, n));
                    let stable = done.0.take(done.0.len() - n);
                    if unstable.len() == 0 {
                        Ok((stable, Set::empty()))
                    } else {
                        match self.unstable_completions(unstable) {
                            Err(e) => Err(e),
                            Ok(list) => Ok((stable, list_set(list))),
                        }
                    }
                }
            },
        }
    }
}

/// Tells whether two sequences of tokens are equal.
pub fn tokens_eq(a: &[Rank], b: &[Rank]) -> (r: bool)
    ensures
        r == (a@ == b@),
{
    if a.len() != b.len() {
        return false;
    }
    let mut i: usize = 0;
    while i < a.len()
        invariant
            i <= a.len(),
            a.len() == b.len(),
            forall|j: int| 0 <= j < i ==> a@[j] == b@[j],
        decreases a.len() - i,
    {
        if a[i] != b[i] {
            return false;
        }
        i += 1;
    }
    assert(a@ =~= b@);
    true
}

/// Adds `seq` to `completions` unless it is there already.
pub fn insert_completion(completions: &mut Vec<Vec<Rank>>, seq: Vec<Rank>)
    requires
        distinct_views(old(completions)@),
    ensures
        distinct_views(final(completions)@),
        forall|s: Seq<Rank>|
            has_view(final(completions)@, s) <==> has_view(old(completions)@, s) || s == seq@,
{
    let mut i: usize = 0;
    while i < completions.len()
        invariant
            i <= completions.len(),
            *completions == *old(completions),
            distinct_views(completions@),
            forall|j: int| 0 <= j < i ==> (#[trigger] completions@[j])@ != seq@,
        decreases completions.len() - i,
    {
        if tokens_eq(completions[i].as_slice(), seq.as_slice()) {
            assert(has_view(completions@, seq@));
            return ;
        }
        i += 1;
    }
    let ghost before = completions@;
    let ghost added = seq@;
    completions.push(seq);
    proof {
        let after = completions@;
        assert forall|s: Seq<Rank>| has_view(after, s) <==> has_view(before, s) || s == added by {
            if has_view(before, s) {
                let j = choose|j: int| 0 <= j < before.len() && (#[trigger] before[j])@ == s;
                assert(after[j]@ == s);
            }
            if s == added {
                assert(after[before.len() as int]@ == s);
            }
            if has_view(after, s) {
                let j = choose|j: int| 0 <= j < after.len() && (#[trigger] after[j])@ == s;
                if j < before.len() {
                    assert(before[j]@ == s);
                }
            }
        }
        assert forall|a: int, b: int| 0 <= a < b < after.len() implies (#[trigger] after[a])@ != (
        #[trigger] after[b])@ by {
            if b < before.len() {
                assert(before[a]@ != before[b]@);
            } else {
                assert(before[a]@ != added);
            }
        }
    }
}

/// A sequence is held by two lists put together where one of them holds
/// it, and by a list with one more sequence where the list holds it or it
/// is that sequence.
pub proof fn lemma_holds(a: Seq<Seq<Rank>>, b: Seq<Seq<Rank>>, c: Seq<Rank>)
    ensures
        forall|s: Seq<Rank>| holds(a + b, s) <==> holds(a, s) || holds(b, s),
        forall|s: Seq<Rank>| holds(a.push(c), s) <==> holds(a, s) || s == c,
        forall|s: Seq<Rank>| !holds(Seq::<Seq<Rank>>::empty(), s),
{
    assert forall|s: Seq<Rank>| holds(a + b, s) <==> holds(a, s) || holds(b, s) by {
        if holds(a, s) {
            let i = choose|i: int| 0 <= i < a.len() && #[trigger] a[i] == s;
            assert((a + b)[i] == s);
        }
        if holds(b, s) {
            let i = choose|i: int| 0 <= i < b.len() && #[trigger] b[i] == s;
            assert((a + b)[a.len() + i] == s);
        }
        if holds(a + b, s) {
            let i = choose|i: int| 0 <= i < (a + b).len() && #[trigger] (a + b)[i] == s;
            if i < a.len() {
                assert(a[i] == s);
            } else {
                assert(b[i - a.len()] == s);
            }
        }
    }
    assert forall|s: Seq<Rank>| holds(a.push(c), s) <==> holds(a, s) || s == c by {
        let p = a.push(c);
        if holds(a, s) {
            let i = choose|i: int| 0 <= i < a.len() && #[trigger] a[i] == s;
            assert(p[i] == s);
        }
        if s == c {
            assert(p[a.len() as int] == s);
        }
        if holds(p, s) {
            let i = choose|i: int| 0 <= i < p.len() && #[trigger] p[i] == s;
            if i < a.len() {
                assert(a[i] == s);
            }
        }
    }
}

impl CoreBPE {
    /// Completions found among the first `n` byte strings stay found, and
    /// an error stays, when more byte strings are looked at; byte strings
    /// that do not start with the bytes after the split add nothing.
    pub proof fn lemma_completions_at_more(&self, unstable: Seq<u8>, i: int, p: int, n: int)
        requires
            0 <= p <= n <= self.sorted_token_bytes().len(),
        ensures
            self.completions_at(unstable, i, p) matches Err(e) ==> self.completions_at(
                unstable,
                i,
                n,
            ) == Err::<Seq<Seq<Rank>>, BpeError>(e),
            (forall|j: int|
                p <= j < n ==> !starts_with(
                    #[trigger] self.sorted_token_bytes()[j],
                    unstable.skip(i),
                )) ==> self.completions_at(unstable, i, n) == self.completions_at(unstable, i, p),
        decreases n - p,
    {
        if p < n {
            self.lemma_completions_at_more(unstable, i, p, n - 1);
        }
    }

    /// An error at one split stays when more splits are looked at.
    pub proof fn lemma_split_completions_more(&self, unstable: Seq<u8>, from: int, end: int)
        requires
            from <= end,
        ensures
            self.split_completions(unstable, from) matches Err(e) ==> self.split_completions(
                unstable,
                end,
            ) == Err::<Seq<Seq<Rank>>, BpeError>(e),
        decreases end - from,
    {
        if from < end {
            self.lemma_split_completions_more(unstable, from, end - 1);
        }
    }

    /// Byte strings that do not start with `unstable` add no single-token
    /// completion.
    pub proof fn lemma_whole_completions_more(&self, unstable: Seq<u8>, p: int, n: int)
        requires
            0 <= p <= n <= self.sorted_token_bytes().len(),
            forall|j: int|
                p <= j < n ==> !starts_with(#[trigger] self.sorted_token_bytes()[j], unstable),
        ensures
            self.whole_completions(unstable, n) == self.whole_completions(unstable, p),
        decreases n - p,
    {
        if p < n {
            self.lemma_whole_completions_more(unstable, p, n - 1);
        }
    }

    /// As many of the first tokens of `tokens` as it takes to cover `need`
    /// bytes.
    pub fn covered_prefix(&self, tokens: Vec<Rank>, need: usize) -> (r: Vec<Rank>)
        requires
            self.wf(),
            all_known(self.decoder(), tokens@),
        ensures
            r@ == tokens@.take(cover_count(self.decoder(), tokens@, need as int) as int),
    {
        let ghost all = tokens@;
        let mut kept = tokens;
        let mut i: usize = 0;
        let mut seen: usize = 0;
        assert(all.skip(0) =~= all);
        while i < kept.len()
            invariant
                self.wf(),
                kept@ == all,
                all == tokens@,
                all_known(self.decoder(), all),
                i <= kept.len(),
                seen < need || i == 0,
                seen <= need,
                cover_count(self.decoder(), all, need as int) == i + cover_count(
                    self.decoder(),
                    all.skip(i as int),
                    need - seen,
                ),
            decreases kept.len() - i,
        {
            let token = kept[i];
            assert(self.decoder().contains_key(all[i as int]));
            assert(all.skip(i as int)[0] == token);
            assert(all.skip(i as int).drop_first() =~= all.skip(i + 1));
            let len = match self.vocabulary_bytes(token) {
                Some(bytes) => bytes.len(),
                None => unreached(),
            };
            if len >= need - seen {
                assert(cover_count(self.decoder(), all.skip(i as int), need - seen) == 1);
                kept.truncate(i + 1);
                assert(kept@ =~= all.take(i + 1));
                return kept;
            }
            assert(cover_count(self.decoder(), all.skip(i as int), need - seen) == 1 + cover_count(
                self.decoder(),
                all.skip(i + 1),
                need - seen - len,
            ));
            seen += len;
            i += 1;
        }
        assert(kept@ =~= all.take(all.len() as int));
        kept
    }

    /// The tokens of a candidate for what the unstable bytes may turn
    /// into.
    pub fn reencode(&self, possibility: &[u8]) -> (r: Result<Vec<Rank>, BpeError>)
        requires
            self.wf(),
        ensures
            match r {
                Ok(tokens) => self.spec_reencode(possibility@) == Ok::<Seq<Rank>, BpeError>(tokens@)
                    && all_known(self.decoder(), tokens@),
                Err(e) => self.spec_reencode(possibility@) == Err::<Seq<Rank>, BpeError>(e),
            },
    {
        proof {
            self.lemma_wf();
        }
        match from_utf8(possibility) {
            Ok(text) => {
                let r = self.encode_ordinary(text);
                proof {
                    if r is Ok {
                        let spans = regex_find_iter(self.pattern(), decode_utf8(possibility@))->0;
                        lemma_spans_last_piece(
                            self.encoder(),
                            self.decoder(),
                            self.special_decoder(),
                            possibility@,
                            spans,
                        );
                    }
                }
                r
            },
            Err(_) => {
                if possibility.len() > 1 && self.covers(possibility) {
                    proof {
                        lemma_merge_round_trip(
                            self.encoder(),
                            self.decoder(),
                            self.special_decoder(),
                            possibility@,
                        );
                    }
                    Ok(byte_pair_encode(possibility, self.vocabulary()))
                } else {
                    Err(BpeError::TokenNotFound)
                }
            },
        }
    }

    /// The tokens of `piece` by the merge engine alone; a piece of one
    /// byte is looked up.
    pub fn merged(&self, piece: &[u8]) -> (r: Result<Vec<Rank>, BpeError>)
        requires
            self.wf(),
        ensures
            match r {
                Ok(tokens) => merged_piece(self.encoder(), piece@) == Ok::<Seq<Rank>, BpeError>(
                    tokens@,
                ),
                Err(e) => merged_piece(self.encoder(), piece@) == Err::<Seq<Rank>, BpeError>(e),
            },
    {
        if piece.len() == 1 {
            match self.vocabulary().get(piece) {
                Some(rank) => {
                    let mut tokens: Vec<Rank> = Vec::new();
                    tokens.push(rank);
                    assert(tokens@ =~= seq![rank]);
                    Ok(tokens)
                },
                None => Err(BpeError::TokenNotFound),
            }
        } else if piece.len() > 1 && self.covers(piece) {
            Ok(byte_pair_encode(piece, self.vocabulary()))
        } else {
            Err(BpeError::TokenNotFound)
        }
    }
}

/// In a strictly sorted table, the byte strings before the lower bound of
/// `p` do not start with `p`.
pub proof fn lemma_before_lower_bound(keys: Seq<Seq<u8>>, p: Seq<u8>, bound: int)
    requires
        0 <= bound <= keys.len(),
        forall|j: int| 0 <= j < bound ==> lex_lt(#[trigger] keys[j], p),
    ensures
        forall|j: int| 0 <= j < bound ==> !starts_with(#[trigger] keys[j], p),
{
    assert forall|j: int| 0 <= j < bound implies !starts_with(#[trigger] keys[j], p) by {
        if starts_with(keys[j], p) {
            lemma_prefix_not_above(keys[j], p);
        }
    }
}

/// In a strictly sorted table, after a byte string at or above `p` that
/// does not start with `p`, none starts with `p`.
pub proof fn lemma_after_prefix_range(keys: Seq<Seq<u8>>, p: Seq<u8>, point: int)
    requires
        strictly_sorted(keys),
        0 <= point <= keys.len(),
        point < keys.len() ==> !lex_lt(keys[point], p) && !starts_with(keys[point], p),
    ensures
        forall|j: int| point <= j < keys.len() ==> !starts_with(#[trigger] keys[j], p),
{
    assert forall|j: int| point <= j < keys.len() implies !starts_with(#[trigger] keys[j], p) by {
        if j > point {
            lemma_prefix_range_closed(p, keys[point], keys[j]);
        }
    }
}

impl CoreBPE {
    /// Adds to `completions` each single token that starts with
    /// `unstable`.
    pub fn collect_whole(&self, unstable: &[u8], completions: &mut Vec<Vec<Rank>>)
        requires
            self.wf(),
            distinct_views(old(completions)@),
        ensures
            distinct_views(final(completions)@),
            forall|s: Seq<Rank>|
                has_view(final(completions)@, s) <==> has_view(old(completions)@, s) || holds(
                    self.whole_completions(unstable@, self.sorted_token_bytes().len() as int),
                    s,
                ),
    {
        let table = self.vocabulary();
        let n = table.len();
        let ghost keys = self.sorted_token_bytes();
        let mut point = table.lower_bound(unstable);
        let ghost bound = point;
        proof {
            lemma_before_lower_bound(keys, unstable@, point as int);
            self.lemma_whole_completions_more(unstable@, 0, point as int);
            lemma_holds(Seq::empty(), Seq::empty(), Seq::empty());
        }
        while point < n && bytes_start_with(table.key_at(point), unstable)
            invariant
                self.wf(),
                table.wf(),
                table@ == self.encoder(),
                table.keys() == keys,
                keys == self.sorted_token_bytes(),
                n == keys.len(),
                bound <= point <= n,
                forall|j: int| bound <= j < n ==> !lex_lt(#[trigger] keys[j], unstable@),
                distinct_views(completions@),
                forall|s: Seq<Rank>|
                    has_view(completions@, s) <==> has_view(old(completions)@, s) || holds(
                        self.whole_completions(unstable@, point as int),
                        s,
                    ),
            decreases n - point,
        {
            let mut seq: Vec<Rank> = Vec::new();
            seq.push(table.rank_at(point));
            proof {
                assert(seq@ =~= seq![self.encoder()[keys[point as int]]]);
                lemma_holds(self.whole_completions(unstable@, point as int), Seq::empty(), seq@);
            }
            insert_completion(completions, seq);
            point += 1;
        }
        proof {
            if point < n {
                assert(!lex_lt(keys[point as int], unstable@));
            }
            lemma_after_prefix_range(keys, unstable@, point as int);
            self.lemma_whole_completions_more(unstable@, point as int, n as int);
        }
    }

    /// Adds to `completions` the completions for the split of `unstable`
    /// at byte `i`.
    pub fn collect_split(&self, unstable: &[u8], i: usize, completions: &mut Vec<Vec<Rank>>) -> (r:
        Result<(), BpeError>)
        requires
            self.wf(),
            0 < i < unstable.len(),
            distinct_views(old(completions)@),
        ensures
            distinct_views(final(completions)@),
            match self.completions_at(unstable@, i as int, self.sorted_token_bytes().len() as int) {
                Ok(list) => r is Ok && (forall|s: Seq<Rank>|
                    #![trigger has_view(final(completions)@, s)]
                    has_view(final(completions)@, s) <==> (has_view(old(completions)@, s) || holds(
                        list,
                        s,
                    ))),
                Err(e) => r == Err::<(), BpeError>(e),
            },
    {
        let table = self.vocabulary();
        let n = table.len();
        let ghost keys = self.sorted_token_bytes();
        let prefix = slice_subrange(unstable, 0, i);
        let suffix = slice_subrange(unstable, i, unstable.len());
        assert(prefix@ =~= unstable@.take(i as int));
        assert(suffix@ =~= unstable@.skip(i as int));
        let mut point = table.lower_bound(suffix);
        let ghost bound = point;
        proof {
            lemma_before_lower_bound(keys, suffix@, point as int);
            self.lemma_completions_at_more(unstable@, i as int, 0, point as int);
            lemma_holds(Seq::empty(), Seq::empty(), Seq::empty());
        }
        while point < n && bytes_start_with(table.key_at(point), suffix)
            invariant
                self.wf(),
                table.wf(),
                table@ == self.encoder(),
                table.keys() == keys,
                keys == self.sorted_token_bytes(),
                n == keys.len(),
                prefix@ == unstable@.take(i as int),
                suffix@ == unstable@.skip(i as int),
                bound <= point <= n,
                forall|j: int| bound <= j < n ==> !lex_lt(#[trigger] keys[j], suffix@),
                distinct_views(completions@),
                self.completions_at(unstable@, i as int, point as int) is Ok,
                forall|s: Seq<Rank>|
                    has_view(completions@, s) <==> has_view(old(completions)@, s) || holds(
                        self.completions_at(unstable@, i as int, point as int)->Ok_0,
                        s,
                    ),
            decreases n - point,
        {
            let mut possibility: Vec<u8> = Vec::new();
            append_bytes(&mut possibility, prefix);
            append_bytes(&mut possibility, table.key_at(point));
            assert(possibility@ =~= unstable@.take(i as int) + keys[point as int]);
            let encoded = match self.reencode(possibility.as_slice()) {
                Ok(encoded) => encoded,
                Err(e) => {
                    proof {
                        self.lemma_completions_at_more(
                            unstable@,
                            i as int,
                            point + 1,
                            n as int,
                        );
                    }
                    return Err(e);
                },
            };
            let seq = self.covered_prefix(encoded, unstable.len());
            proof {
                lemma_holds(
                    self.completions_at(unstable@, i as int, point as int)->Ok_0,
                    Seq::empty(),
                    seq@,
                );
            }
            insert_completion(completions, seq);
            point += 1;
        }
        proof {
            if point < n {
                assert(!lex_lt(keys[point as int], suffix@));
            }
            lemma_after_prefix_range(keys, suffix@, point as int);
            self.lemma_completions_at_more(unstable@, i as int, point as int, n as int);
        }
        Ok(())
    }

    /// Adds to `completions` the completion for text that goes on after a
    /// white-space character at the end of `unstable`, if it ends with
    /// one.
    pub fn collect_space(&self, unstable: &[u8], completions: &mut Vec<Vec<Rank>>) -> (r: Result<
        (),
        BpeError,
    >)
        requires
            self.wf(),
            distinct_views(old(completions)@),
        ensures
            distinct_views(final(completions)@),
            match self.space_completion(unstable@) {
                Ok(Some(c)) => r is Ok && (forall|s: Seq<Rank>|
                    #![trigger has_view(final(completions)@, s)]
                    has_view(final(completions)@, s) <==> (has_view(old(completions)@, s) || s
                        == c)),
                Ok(None) => r is Ok && *final(completions) == *old(completions),
                Err(e) => r == Err::<(), BpeError>(e),
            },
    {
        if unstable.len() > 1 {
            let last = decode_last_utf8(unstable);
            let space = match last.0 {
                Some(c) => is_whitespace(c),
                None => false,
            };
            if last.1 < unstable.len() && space {
                let cut = unstable.len() - last.1;
                let front = slice_subrange(unstable, 0, cut);
                let back = slice_subrange(unstable, cut, unstable.len());
                assert(front@ =~= unstable@.take(cut as int));
                assert(back@ =~= unstable@.skip(cut as int));
                let mut reencoded = match self.merged(front) {
                    Ok(tokens) => tokens,
                    Err(e) => {
                        return Err(e);
                    },
                };
                let mut more = match self.merged(back) {
                    Ok(tokens) => tokens,
                    Err(e) => {
                        return Err(e);
                    },
                };
                reencoded.append(&mut more);
                insert_completion(completions, reencoded);
            }
        }
        Ok(())
    }

    /// The token sequences that `unstable` may turn into when more text
    /// follows it, each once.
    pub fn completions_of(&self, unstable: &[u8]) -> (r: Result<Vec<Vec<Rank>>, BpeError>)
        requires
            self.wf(),
            unstable.len() > 0,
        ensures
            match self.unstable_completions(unstable@) {
                Ok(list) => r is Ok && distinct_views(r->Ok_0@) && views_set(r->Ok_0@) == list_set(
                    list,
                ),
                Err(e) => r == Err::<Vec<Vec<Rank>>, BpeError>(e),
            },
    {
        let mut completions: Vec<Vec<Rank>> = Vec::new();
        let ghost whole = self.whole_completions(
            unstable@,
            self.sorted_token_bytes().len() as int,
        );
        self.collect_whole(unstable, &mut completions);
        let mut i: usize = 1;
        proof {
            lemma_holds(whole, Seq::empty(), Seq::empty());
            assert(whole + Seq::<Seq<Rank>>::empty() =~= whole);
        }
        while i < unstable.len()
            invariant
                self.wf(),
                1 <= i <= unstable.len(),
                whole == self.whole_completions(unstable@, self.sorted_token_bytes().len() as int),
                distinct_views(completions@),
                self.split_completions(unstable@, i as int) is Ok,
                forall|s: Seq<Rank>|
                    has_view(completions@, s) <==> holds(
                        whole + self.split_completions(unstable@, i as int)->Ok_0,
                        s,
                    ),
            decreases unstable.len() - i,
        {
            let ghost before = self.split_completions(unstable@, i as int)->Ok_0;
            let ghost prior = completions@;
            match self.collect_split(unstable, i, &mut completions) {
                Ok(_) => {},
                Err(e) => {
                    proof {
                        self.lemma_split_completions_more(
                            unstable@,
                            i + 1,
                            unstable@.len() as int,
                        );
                    }
                    return Err(e);
                },
            }
            proof {
                let these = self.completions_at(
                    unstable@,
                    i as int,
                    self.sorted_token_bytes().len() as int,
                )->Ok_0;
                lemma_holds(whole + before, these, Seq::empty());
                assert(whole + (before + these) =~= (whole + before) + these);
                assert forall|s: Seq<Rank>| has_view(completions@, s) <==> holds(
                    whole + (before + these),
                    s,
                ) by {
                    assert(has_view(prior, s) <==> holds(whole + before, s));
                    assert(has_view(completions@, s) <==> has_view(prior, s) || holds(these, s));
                    assert(holds((whole + before) + these, s) <==> holds(whole + before, s)
                        || holds(these, s));
                }
            }
            i += 1;
        }
        let ghost splits = self.split_completions(unstable@, unstable@.len() as int)->Ok_0;
        match self.collect_space(unstable, &mut completions) {
            Ok(()) => {},
            Err(e) => {
                return Err(e);
            },
        }
        proof {
            let list = self.unstable_completions(unstable@)->Ok_0;
            match self.space_completion(unstable@)->Ok_0 {
                Some(c) => {
                    lemma_holds(whole + splits, Seq::empty(), c);
                    assert(list =~= (whole + splits).push(c));
                },
                None => {
                    assert(list =~= whole + splits);
                },
            }
            assert(views_set(completions@) =~= list_set(list));
        }
        Ok(completions)
    }

    /// The tokens of `text` that stay as they are when more text follows,
    /// and the token sequences that the unstable bytes at its end may turn
    /// into, each once.
    pub fn _encode_unstable_native(&self, text: &str, allowed_special: &Vec<&str>) -> (r: Result<
        (Vec<Rank>, Vec<Vec<Rank>>),
        BpeError,
    >)
        requires
            self.wf(),
        ensures
            match self.spec_encode_with_unstable(text.spec_bytes(), allowed_set(allowed_special@)) {
                Ok(s) => r is Ok && r->Ok_0.0@ == s.0 && views_set(r->Ok_0.1@) == s.1
                    && distinct_views(r->Ok_0.1@),
                Err(e) => r == Err::<(Vec<Rank>, Vec<Vec<Rank>>), BpeError>(e),
            },
    {
        let (tokens, last) = match self._encode_native(text, allowed_special) {
            Ok(done) => done,
            Err(e) => {
                return Err(e);
            },
        };
        let none: Vec<Vec<Rank>> = Vec::new();
        assert(views_set(none@) =~= Set::<Seq<Rank>>::empty());
        if last == 0 {
            return Ok((tokens, none));
        }
        let ghost encoded = tokens@;
        proof {
            self.lemma_wf();
            lemma_encode_from_known(
                self.encoder(),
                self.special_encoder(),
                self.decoder(),
                self.special_decoder(),
                self.pattern(),
                self.special_pattern(),
                text.spec_bytes(),
                allowed_set(allowed_special@),
                0,
            );
            lemma_grow_over_space(self.decoder(), encoded, last as nat);
        }
        let (mut tokens, unstable_len) = self._increase_last_piece_token_len(tokens, last);
        let n = tokens.len();
        let ghost taken = last_tokens(encoded, unstable_len as nat);
        assert forall|i: int| 0 <= i < taken.len() implies self.knows(#[trigger] taken[i]) by {
            assert(self.decoder().contains_key(taken[i]));
        }
        let unstable = self._decode_native(slice_subrange(tokens.as_slice(), n - unstable_len, n));
        tokens.truncate(n - unstable_len);
        if unstable.len() == 0 {
            return Ok((tokens, none));
        }
        match self.completions_of(unstable.as_slice()) {
            Ok(completions) => Ok((tokens, completions)),
            Err(e) => Err(e),
        }
    }

    /// The tokens of `text` that stay as they are when more text follows,
    /// and the token sequences that the unstable bytes at its end may turn
    /// into, each once.
    pub fn encode_with_unstable(&self, text: &str, allowed_special: &Vec<&str>) -> (r: Result<
        (Vec<Rank>, Vec<Vec<Rank>>),
        BpeError,
    >)
        requires
            self.wf(),
        ensures
            match self.spec_encode_with_unstable(text.spec_bytes(), allowed_set(allowed_special@)) {
                Ok(s) => r is Ok && r->Ok_0.0@ == s.0 && views_set(r->Ok_0.1@) == s.1
                    && distinct_views(r->Ok_0.1@),
                Err(e) => r == Err::<(Vec<Rank>, Vec<Vec<Rank>>), BpeError>(e),
            },
    {
        self._encode_unstable_native(text, allowed_special)
    }
}

} // verus!
