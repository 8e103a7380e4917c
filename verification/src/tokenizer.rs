//! The tokenizer: a vocabulary, a table of special tokens and the pattern
//! that cuts text into pieces, with ordinary encoding, decoding and the
//! queries on single tokens.

use crate::bytes::{append_bytes, strictly_sorted};
use crate::error::BpeError;
use crate::merge::{byte_pair_encode, bytes_covered, lookup, spec_byte_pair_encode};
use crate::pattern::{
    escape, find_all, find_from, regex_compiles, regex_find_from_pos, regex_find_iter,
    regex_source,
};
use crate::syntax::{alternation, is_literal_alternation, is_safe_pattern, safe_pattern};
use crate::table::{lemma_table_map_at, Rank, RankTable};
use crate::vocab::{
    build_tables, decoder_view, decodes_all, distinct_keys, distinct_ranks, inverse_maps,
    lemma_pairs_decode, pairs_decoder, pairs_map, vocabulary_view,
};
use fancy_regex::Regex;
use std::collections::HashMap;
use vstd::pervasive::unreached;
use vstd::prelude::*;
use vstd::slice::{slice_subrange, slice_to_vec};
use vstd::string::{StringExecFns, StringSliceAdditionalSpecFns};
use vstd::utf8::{decode_utf8, encode_utf8, encode_utf8_decode_utf8, is_char_boundary};

verus! {

/// A byte-pair-encoding tokenizer. It does not change once it is built.
pub struct CoreBPE {
    encoder: RankTable,
    special_tokens_encoder: RankTable,
    decoder: HashMap<Rank, Vec<u8>>,
    special_tokens_decoder: HashMap<Rank, Vec<u8>>,
    regex: Regex,
    special_regex: Option<Regex>,
}

/// A list of special tokens as pairs of the literal's bytes and its rank.
pub open spec fn specials_view(v: Seq<(String, Rank)>) -> Seq<(Seq<u8>, Rank)> {
    Seq::new(v.len(), |i: int| (encode_utf8(v[i].0@), v[i].1))
}

/// The literals of a list of special tokens.
pub open spec fn literals_of(v: Seq<(String, Rank)>) -> Seq<Seq<char>> {
    Seq::new(v.len(), |i: int| v[i].0@)
}

/// The pattern of the special tokens; none for an empty list.
pub open spec fn special_pattern_of(literals: Seq<Seq<char>>) -> Option<Seq<char>> {
    if literals.len() == 0 {
        None
    } else {
        Some(alternation(literals))
    }
}

/// Why no tokenizer can be built from these parts, if so: the pattern
/// holds a back-reference, a condition on a group or a keep-out, or a
/// least size that does not fit, or it does not compile; the pattern of
/// the special tokens does not compile; or a vocabulary holds a key or a
/// rank twice.
pub open spec fn construction_error(
    encoder: Seq<(Seq<u8>, Rank)>,
    specials: Seq<(Seq<u8>, Rank)>,
    literals: Seq<Seq<char>>,
    pattern: Seq<char>,
) -> Option<BpeError> {
    if !safe_pattern(pattern) || !regex_compiles(pattern) {
        Some(BpeError::InvalidPattern)
    } else if literals.len() > 0 && !regex_compiles(alternation(literals)) {
        Some(BpeError::InvalidPattern)
    } else if !distinct_keys(encoder) || !distinct_ranks(encoder) || !distinct_keys(specials) {
        Some(BpeError::InvalidVocabulary)
    } else {
        None
    }
}

/// What a search for the next special token gives: nothing where there is
/// no special pattern, else what the engine finds, or `MatchFailed` where
/// it gives up.
pub open spec fn special_search(pattern: Option<Seq<char>>, text: Seq<char>, pos: usize) -> Result<
    Option<(usize, usize)>,
    BpeError,
> {
    match pattern {
        None => Ok(None),
        Some(p) => match regex_find_from_pos(p, text, pos) {
            None => Err(BpeError::MatchFailed),
            Some(found) => Ok(found),
        },
    }
}

/// `piece` can be cut into tokens: it is a token, or has two bytes or
/// more, each of them a token.
pub open spec fn tokenisable(ranks: Map<Seq<u8>, Rank>, piece: Seq<u8>) -> bool {
    ranks.contains_key(piece) || (piece.len() > 1 && bytes_covered(ranks, piece))
}

/// The tokens of `piece`: its own rank if it is a token, else what the
/// merge engine makes of it.
pub open spec fn piece_tokens(ranks: Map<Seq<u8>, Rank>, piece: Seq<u8>) -> Seq<Rank> {
    if ranks.contains_key(piece) {
        seq![ranks[piece]]
    } else {
        spec_byte_pair_encode(ranks, piece)
    }
}

/// The tokens of the pieces that `spans` cuts out of `text`, in order,
/// with the number of tokens of the last piece; or the error of the first
/// span that is no part of `text` or cannot be cut into tokens.
pub open spec fn encode_spans(
    ranks: Map<Seq<u8>, Rank>,
    text: Seq<u8>,
    spans: Seq<(usize, usize)>,
) -> Result<(Seq<Rank>, nat), BpeError>
    decreases spans.len(),
{
    if spans.len() == 0 {
        Ok((Seq::empty(), 0))
    } else {
        match encode_spans(ranks, text, spans.drop_last()) {
            Err(e) => Err(e),
            Ok(before) => {
                let span = spans.last();
                if !(span.0 <= span.1 <= text.len()) {
                    Err(BpeError::MatchFailed)
                } else if !tokenisable(ranks, text.subrange(span.0 as int, span.1 as int)) {
                    Err(BpeError::TokenNotFound)
                } else {
                    let tokens = piece_tokens(ranks, text.subrange(span.0 as int, span.1 as int));
                    Ok((before.0 + tokens, tokens.len()))
                }
            },
        }
    }
}

/// The tokens of `text` without regard to special tokens, with the number
/// of tokens of its last piece: the pattern cuts the text into pieces and
/// each piece is cut into tokens.
pub open spec fn encode_text(ranks: Map<Seq<u8>, Rank>, pattern: Seq<char>, text: Seq<u8>) -> Result<
    (Seq<Rank>, nat),
    BpeError,
> {
    match regex_find_iter(pattern, decode_utf8(text)) {
        None => Err(BpeError::MatchFailed),
        Some(spans) => encode_spans(ranks, text, spans),
    }
}

/// The bytes of one token: those of the vocabulary first, else those of
/// the special tokens.
pub open spec fn token_bytes(
    decoder: Map<Rank, Seq<u8>>,
    special_decoder: Map<Rank, Seq<u8>>,
    token: Rank,
) -> Seq<u8> {
    if decoder.contains_key(token) {
        decoder[token]
    } else {
        special_decoder[token]
    }
}

/// The bytes of a sequence of tokens, one after the other.
pub open spec fn decode_tokens(
    decoder: Map<Rank, Seq<u8>>,
    special_decoder: Map<Rank, Seq<u8>>,
    tokens: Seq<Rank>,
) -> Seq<u8>
    decreases tokens.len(),
{
    if tokens.len() == 0 {
        Seq::empty()
    } else {
        decode_tokens(decoder, special_decoder, tokens.drop_last()) + token_bytes(
            decoder,
            special_decoder,
            tokens.last(),
        )
    }
}

/// The first components of a result of encoding, if it is one.
pub open spec fn tokens_only(r: Result<(Seq<Rank>, nat), BpeError>) -> Result<Seq<Rank>, BpeError> {
    match r {
        Ok(t) => Ok(t.0),
        Err(e) => Err(e),
    }
}

/// The byte strings that the vectors of `keys` hold.
pub open spec fn keys_view(keys: Seq<Vec<u8>>) -> Seq<Seq<u8>> {
    Seq::new(keys.len(), |i: int| keys[i]@)
}

impl CoreBPE {
    /// The vocabulary: byte string to rank.
    pub closed spec fn encoder(&self) -> Map<Seq<u8>, Rank> {
        self.encoder@
    }

    /// The vocabulary turned round: rank to byte string.
    pub closed spec fn decoder(&self) -> Map<Rank, Seq<u8>> {
        decoder_view(self.decoder@)
    }

    /// The special tokens: the bytes of the literal to rank.
    pub closed spec fn special_encoder(&self) -> Map<Seq<u8>, Rank> {
        self.special_tokens_encoder@
    }

    /// The special tokens turned round: rank to the bytes of the literal.
    pub closed spec fn special_decoder(&self) -> Map<Rank, Seq<u8>> {
        decoder_view(self.special_tokens_decoder@)
    }

    /// The pattern that cuts text into pieces.
    pub closed spec fn pattern(&self) -> Seq<char> {
        regex_source(self.regex)
    }

    /// The pattern that finds special tokens; none if there are no special
    /// tokens.
    pub closed spec fn special_pattern(&self) -> Option<Seq<char>> {
        match self.special_regex {
            Some(re) => Some(regex_source(re)),
            None => None,
        }
    }

    /// The byte strings of the vocabulary in lexicographic order.
    pub closed spec fn sorted_token_bytes(&self) -> Seq<Seq<u8>> {
        self.encoder.keys()
    }

    /// The tokenizer's parts fit together.
    pub closed spec fn wf(&self) -> bool {
        &&& self.encoder.wf()
        &&& self.special_tokens_encoder.wf()
        &&& inverse_maps(self.encoder@, decoder_view(self.decoder@))
        &&& decodes_all(self.special_tokens_encoder@, decoder_view(self.special_tokens_decoder@))
        &&& safe_pattern(regex_source(self.regex))
        &&& match self.special_regex {
            Some(re) => is_literal_alternation(regex_source(re)),
            None => true,
        }
    }

    /// `token` is in the vocabulary or is a special token.
    pub open spec fn knows(&self, token: Rank) -> bool {
        self.decoder().contains_key(token) || self.special_decoder().contains_key(token)
    }

    /// The bytes that `tokens` stand for.
    pub open spec fn spec_decode(&self, tokens: Seq<Rank>) -> Seq<u8> {
        decode_tokens(self.decoder(), self.special_decoder(), tokens)
    }

    /// The tokens of `text`, special tokens taken as ordinary text.
    pub open spec fn spec_encode_ordinary(&self, text: Seq<u8>) -> Result<Seq<Rank>, BpeError> {
        tokens_only(encode_text(self.encoder(), self.pattern(), text))
    }

    /// What holds of every tokenizer: the decoder is the vocabulary turned
    /// round, each special rank decodes to a literal of that rank, the
    /// sorted byte strings are the keys of the vocabulary in strictly
    /// increasing order, the pattern is one that the engine reads without
    /// a back-reference, a condition on a group or a keep-out, and the
    /// pattern of the special tokens is an alternation of literals.
    pub proof fn lemma_wf(&self)
        requires
            self.wf(),
        ensures
            safe_pattern(self.pattern()),
            self.special_pattern() matches Some(p) ==> is_literal_alternation(p),
            inverse_maps(self.encoder(), self.decoder()),
            decodes_all(self.special_encoder(), self.special_decoder()),
            strictly_sorted(self.sorted_token_bytes()),
            forall|i: int|
                0 <= i < self.sorted_token_bytes().len() ==> self.encoder().contains_key(
                    #[trigger] self.sorted_token_bytes()[i],
                ),
            forall|k: Seq<u8>|
                self.encoder().contains_key(k) ==> exists|i: int|
                    0 <= i < self.sorted_token_bytes().len() && #[trigger] self.sorted_token_bytes()[i]
                        == k,
    {
        assert forall|k: Seq<u8>| self.encoder().contains_key(k) implies exists|i: int|
            0 <= i < self.sorted_token_bytes().len() && #[trigger] self.sorted_token_bytes()[i]
                == k by {
            let i = choose|i: int| 0 <= i < self.encoder.keys().len() && self.encoder.keys()[i] == k;
            assert(self.sorted_token_bytes()[i] == k);
        }
        assert forall|i: int| 0 <= i < self.sorted_token_bytes().len() implies self.encoder().contains_key(
            #[trigger] self.sorted_token_bytes()[i],
        ) by {
            lemma_table_map_at(self.encoder.keys(), self.encoder.ranks(), i);
        }
    }

    /// Builds a tokenizer from a vocabulary, a list of special tokens and
    /// the pattern that cuts text into pieces. A pattern with a
    /// back-reference, a condition on a group or a keep-out is refused
    /// like one that does not compile.
    pub fn new(
        encoder: Vec<(Vec<u8>, Rank)>,
        special_tokens_encoder: Vec<(String, Rank)>,
        pattern: &str,
    ) -> (r: Result<CoreBPE, BpeError>)
        ensures
            match r {
                Ok(t) => {
                    &&& construction_error(
                        vocabulary_view(encoder@),
                        specials_view(special_tokens_encoder@),
                        literals_of(special_tokens_encoder@),
                        pattern@,
                    ) is None
                    &&& t.wf()
                    &&& t.encoder() == pairs_map(vocabulary_view(encoder@))
                    &&& t.decoder() == pairs_decoder(vocabulary_view(encoder@))
                    &&& t.special_encoder() == pairs_map(specials_view(special_tokens_encoder@))
                    &&& t.special_decoder() == pairs_decoder(
                        specials_view(special_tokens_encoder@),
                    )
                    &&& t.pattern() == pattern@
                    &&& t.special_pattern() == special_pattern_of(
                        literals_of(special_tokens_encoder@),
                    )
                },
                Err(e) => construction_error(
                    vocabulary_view(encoder@),
                    specials_view(special_tokens_encoder@),
                    literals_of(special_tokens_encoder@),
                    pattern@,
                ) == Some(e),
            },
    {
        if !is_safe_pattern(pattern) {
            return Err(BpeError::InvalidPattern);
        }
        let regex = match Regex::new(pattern) {
            Ok(re) => re,
            Err(_) => {
                return Err(BpeError::InvalidPattern);
            },
        };
        let ghost literals = literals_of(special_tokens_encoder@);
        let ghost specials = specials_view(special_tokens_encoder@);
        let mut alt = String::new();
        let mut special_bytes: Vec<(Vec<u8>, Rank)> = Vec::new();
        let mut i: usize = 0;
        assert(literals.take(0) =~= Seq::<Seq<char>>::empty());
        assert(vocabulary_view(special_bytes@) =~= specials.take(0));
        while i < special_tokens_encoder.len()
            invariant
                i <= special_tokens_encoder.len(),
                literals == literals_of(special_tokens_encoder@),
                specials == specials_view(special_tokens_encoder@),
                alt@ == alternation(literals.take(i as int)),
                vocabulary_view(special_bytes@) == specials.take(i as int),
            decreases special_tokens_encoder.len() - i,
        {
            let literal = special_tokens_encoder[i].0.as_str();
            let rank = special_tokens_encoder[i].1;
            if i > 0 {
                proof {
                    reveal_strlit("|");
                }
                alt.append("|");
                assert(alt@ =~= alternation(literals.take(i as int)) + seq!['|']);
            }
            let quoted = escape(literal);
            alt.append(quoted.as_str());
            let ghost before = special_bytes@;
            let bytes = slice_to_vec(literal.as_bytes());
            assert(bytes@ == encode_utf8(special_tokens_encoder@[i as int].0@));
            assert(before.len() == i) by {
                assert(vocabulary_view(before).len() == specials.take(i as int).len());
            }
            special_bytes.push((bytes, rank));
            proof {
                assert(special_bytes@.len() == i + 1);
                assert(special_bytes@[i as int] == (bytes, rank));
                assert(specials[i as int] == (bytes@, rank));
                let next = literals.take(i + 1);
                assert(next.drop_last() =~= literals.take(i as int));
                assert(next.last() == literal@);
                assert forall|j: int| 0 <= j < i + 1 implies vocabulary_view(special_bytes@)[j]
                    == specials.take(i + 1)[j] by {
                    if j < i {
                        assert(vocabulary_view(before)[j] == specials.take(i as int)[j]);
                    }
                }
                assert(vocabulary_view(special_bytes@) =~= specials.take(i + 1));
            }
            i += 1;
        }
        proof {
            assert(literals.take(i as int) =~= literals);
            assert(specials.take(i as int) =~= specials);
        }
        let special_regex = if special_tokens_encoder.len() > 0 {
            match Regex::new(alt.as_str()) {
                Ok(re) => Some(re),
                Err(_) => {
                    return Err(BpeError::InvalidPattern);
                },
            }
        } else {
            None
        };
        let (table, decoder) = match build_tables(&encoder, true) {
            Some(built) => built,
            None => {
                return Err(BpeError::InvalidVocabulary);
            },
        };
        let (special_table, special_decoder) = match build_tables(&special_bytes, false) {
            Some(built) => built,
            None => {
                return Err(BpeError::InvalidVocabulary);
            },
        };
        proof {
            lemma_pairs_decode(vocabulary_view(encoder@));
            lemma_pairs_decode(specials);
        }
        Ok(
            CoreBPE {
                encoder: table,
                special_tokens_encoder: special_table,
                decoder,
                special_tokens_decoder: special_decoder,
                regex,
                special_regex,
            },
        )
    }

    /// The vocabulary as a sorted table.
    pub fn vocabulary(&self) -> (t: &RankTable)
        requires
            self.wf(),
        ensures
            t.wf(),
            t@ == self.encoder(),
            t.keys() == self.sorted_token_bytes(),
    {
        &self.encoder
    }

    /// The bytes of `token`, if it is a token of the vocabulary.
    pub fn vocabulary_bytes(&self, token: Rank) -> (r: Option<&[u8]>)
        requires
            self.wf(),
        ensures
            match r {
                Some(bytes) => self.decoder().contains_key(token) && bytes@ == self.decoder()[token],
                None => !self.decoder().contains_key(token),
            },
    {
        match self.decoder.get(&token) {
            Some(bytes) => Some(bytes.as_slice()),
            None => None,
        }
    }

    /// The rank of the special token whose literal has the bytes `piece`.
    pub fn special_rank(&self, piece: &[u8]) -> (r: Option<Rank>)
        requires
            self.wf(),
        ensures
            r == lookup(self.special_encoder(), piece@),
    {
        self.special_tokens_encoder.get(piece)
    }

    /// The first special token in `text` at or after byte position `pos`,
    /// allowed or not: `None` in the middle if there is none, or if the
    /// tokenizer has no special tokens at all.
    pub fn search_special(&self, text: &str, pos: usize) -> (r: Result<
        Option<(usize, usize)>,
        BpeError,
    >)
        requires
            self.wf(),
            pos <= text.spec_bytes().len(),
            is_char_boundary(text.spec_bytes(), pos as int),
        ensures
            r == special_search(self.special_pattern(), text@, pos),
    {
        match &self.special_regex {
            None => Ok(None),
            Some(re) => match find_from(re, text, pos) {
                Ok(found) => Ok(found),
                Err(_) => Err(BpeError::MatchFailed),
            },
        }
    }

    /// Tells whether each byte of `piece` is a token by itself.
    pub fn covers(&self, piece: &[u8]) -> (b: bool)
        requires
            self.wf(),
        ensures
            b == bytes_covered(self.encoder(), piece@),
    {
        let mut i: usize = 0;
        while i < piece.len()
            invariant
                self.wf(),
                i <= piece.len(),
                forall|j: int|
                    0 <= j < i ==> self.encoder().contains_key(#[trigger] piece@.subrange(j, j + 1)),
            decreases piece.len() - i,
        {
            if !self.encoder.contains(slice_subrange(piece, i, i + 1)) {
                return false;
            }
            i += 1;
        }
        true
    }

    /// The tokens of `piece`, if it can be cut into tokens.
    pub fn encode_piece(&self, piece: &[u8]) -> (r: Option<Vec<Rank>>)
        requires
            self.wf(),
        ensures
            match r {
                Some(tokens) => tokenisable(self.encoder(), piece@) && tokens@ == piece_tokens(
                    self.encoder(),
                    piece@,
                ),
                None => !tokenisable(self.encoder(), piece@),
            },
    {
        match self.encoder.get(piece) {
            Some(rank) => {
                let mut tokens: Vec<Rank> = Vec::new();
                tokens.push(rank);
                assert(tokens@ =~= seq![rank]);
                Some(tokens)
            },
            None => {
                if piece.len() > 1 && self.covers(piece) {
                    Some(byte_pair_encode(piece, &self.encoder))
                } else {
                    None
                }
            },
        }
    }

    /// The tokens of `piece`: its rank if it is in the vocabulary, else
    /// what the merge engine makes of it. Special tokens play no part.
    pub fn encode_single_piece(&self, piece: &[u8]) -> (tokens: Vec<Rank>)
        requires
            self.wf(),
            tokenisable(self.encoder(), piece@),
        ensures
            tokens@ == piece_tokens(self.encoder(), piece@),
    {
        match self.encoder.get(piece) {
            Some(rank) => {
                let mut tokens: Vec<Rank> = Vec::new();
                tokens.push(rank);
                assert(tokens@ =~= seq![rank]);
                tokens
            },
            None => byte_pair_encode(piece, &self.encoder),
        }
    }

    /// The tokens of the pieces that `spans` cuts out of `text`, with the
    /// number of tokens of the last piece.
    pub fn encode_pieces(&self, text: &[u8], spans: &Vec<(usize, usize)>) -> (r: Result<
        (Vec<Rank>, usize),
        BpeError,
    >)
        requires
            self.wf(),
        ensures
            match r {
                Ok(done) => encode_spans(self.encoder(), text@, spans@) == Ok::<
                    (Seq<Rank>, nat),
                    BpeError,
                >((done.0@, done.1 as nat)),
                Err(e) => encode_spans(self.encoder(), text@, spans@) == Err::<
                    (Seq<Rank>, nat),
                    BpeError,
                >(e),
            },
    {
        let mut tokens: Vec<Rank> = Vec::new();
        let mut last: usize = 0;
        let mut i: usize = 0;
        assert(spans@.take(0) =~= Seq::<(usize, usize)>::empty());
        while i < spans.len()
            invariant
                self.wf(),
                i <= spans.len(),
                encode_spans(self.encoder(), text@, spans@.take(i as int)) == Ok::<
                    (Seq<Rank>, nat),
                    BpeError,
                >((tokens@, last as nat)),
            decreases spans.len() - i,
        {
            let (start, end) = spans[i];
            proof {
                assert(spans@.take(i + 1).drop_last() =~= spans@.take(i as int));
                assert(spans@.take(i + 1).last() == spans@[i as int]);
                lemma_encode_spans_error(self.encoder(), text@, spans@, i + 1);
            }
            if !(start <= end && end <= text.len()) {
                return Err(BpeError::MatchFailed);
            }
            match self.encode_piece(slice_subrange(text, start, end)) {
                None => {
                    return Err(BpeError::TokenNotFound);
                },
                Some(mut piece) => {
                    last = piece.len();
                    tokens.append(&mut piece);
                },
            }
            i += 1;
        }
        assert(spans@.take(i as int) =~= spans@);
        Ok((tokens, last))
    }

    /// The tokens of `text` without regard to special tokens, with the
    /// number of tokens of its last piece.
    pub fn _encode_ordinary_native(&self, text: &str) -> (r: Result<(Vec<Rank>, usize), BpeError>)
        requires
            self.wf(),
        ensures
            match r {
                Ok(done) => encode_text(self.encoder(), self.pattern(), text.spec_bytes()) == Ok::<
                    (Seq<Rank>, nat),
                    BpeError,
                >((done.0@, done.1 as nat)),
                Err(e) => encode_text(self.encoder(), self.pattern(), text.spec_bytes()) == Err::<
                    (Seq<Rank>, nat),
                    BpeError,
                >(e),
            },
    {
        proof {
            encode_utf8_decode_utf8(text@);
        }
        match find_all(&self.regex, text) {
            Err(_) => Err(BpeError::MatchFailed),
            Ok(spans) => self.encode_pieces(text.as_bytes(), &spans),
        }
    }

    /// The tokens of `text`, special tokens taken as ordinary text.
    pub fn encode_ordinary(&self, text: &str) -> (r: Result<Vec<Rank>, BpeError>)
        requires
            self.wf(),
        ensures
            match r {
                Ok(tokens) => self.spec_encode_ordinary(text.spec_bytes()) == Ok::<
                    Seq<Rank>,
                    BpeError,
                >(tokens@),
                Err(e) => self.spec_encode_ordinary(text.spec_bytes()) == Err::<Seq<Rank>, BpeError>(
                    e,
                ),
            },
    {
        match self._encode_ordinary_native(text) {
            Ok(done) => Ok(done.0),
            Err(e) => Err(e),
        }
    }

    /// The bytes of one token, if the tokenizer knows it.
    pub fn decode_single_token_bytes(&self, token: Rank) -> (r: Result<Vec<u8>, BpeError>)
        requires
            self.wf(),
        ensures
            match r {
                Ok(bytes) => self.knows(token) && bytes@ == token_bytes(
                    self.decoder(),
                    self.special_decoder(),
                    token,
                ),
                Err(e) => !self.knows(token) && e == BpeError::TokenNotFound,
            },
    {
        if let Some(bytes) = self.decoder.get(&token) {
            return Ok(slice_to_vec(bytes.as_slice()));
        }
        if let Some(bytes) = self.special_tokens_decoder.get(&token) {
            return Ok(slice_to_vec(bytes.as_slice()));
        }
        Err(BpeError::TokenNotFound)
    }

    /// The bytes that `tokens` stand for, one token after the other.
    pub fn _decode_native(&self, tokens: &[Rank]) -> (bytes: Vec<u8>)
        requires
            self.wf(),
            forall|i: int| 0 <= i < tokens@.len() ==> self.knows(#[trigger] tokens@[i]),
        ensures
            bytes@ == self.spec_decode(tokens@),
    {
        let mut ret: Vec<u8> = Vec::new();
        let mut i: usize = 0;
        assert(tokens@.take(0) =~= Seq::<Rank>::empty());
        while i < tokens.len()
            invariant
                self.wf(),
                i <= tokens.len(),
                forall|i: int| 0 <= i < tokens@.len() ==> self.knows(#[trigger] tokens@[i]),
                ret@ == self.spec_decode(tokens@.take(i as int)),
            decreases tokens.len() - i,
        {
            let token = tokens[i];
            assert(self.knows(tokens@[i as int]));
            proof {
                assert(tokens@.take(i + 1).drop_last() =~= tokens@.take(i as int));
                assert(tokens@.take(i + 1).last() == token);
            }
            match self.decoder.get(&token) {
                Some(bytes) => append_bytes(&mut ret, bytes.as_slice()),
                None => match self.special_tokens_decoder.get(&token) {
                    Some(bytes) => append_bytes(&mut ret, bytes.as_slice()),
                    None => unreached(),
                },
            }
            i += 1;
        }
        assert(tokens@.take(i as int) =~= tokens@);
        ret
    }

    /// The bytes that `tokens` stand for. Each token must be one that the
    /// tokenizer knows.
    pub fn decode_bytes(&self, tokens: Vec<Rank>) -> (bytes: Vec<u8>)
        requires
            self.wf(),
            forall|i: int| 0 <= i < tokens@.len() ==> self.knows(#[trigger] tokens@[i]),
        ensures
            bytes@ == self.spec_decode(tokens@),
    {
        self._decode_native(tokens.as_slice())
    }

    /// The rank of `piece` as a single token: that of the vocabulary, else
    /// that of the special token with these bytes.
    pub fn encode_single_token(&self, piece: &[u8]) -> (r: Result<Rank, BpeError>)
        requires
            self.wf(),
        ensures
            r == (if self.encoder().contains_key(piece@) {
                Ok::<Rank, BpeError>(self.encoder()[piece@])
            } else if self.special_encoder().contains_key(piece@) {
                Ok::<Rank, BpeError>(self.special_encoder()[piece@])
            } else {
                Err::<Rank, BpeError>(BpeError::TokenNotFound)
            }),
    {
        if let Some(rank) = self.encoder.get(piece) {
            return Ok(rank);
        }
        if let Some(rank) = self.special_tokens_encoder.get(piece) {
            return Ok(rank);
        }
        Err(BpeError::TokenNotFound)
    }

    /// The byte strings of the vocabulary, in strictly increasing
    /// lexicographic order.
    pub fn token_byte_values(&self) -> (values: Vec<Vec<u8>>)
        requires
            self.wf(),
        ensures
            keys_view(values@) == self.sorted_token_bytes(),
            strictly_sorted(keys_view(values@)),
    {
        let mut values: Vec<Vec<u8>> = Vec::new();
        let n = self.encoder.len();
        let mut i: usize = 0;
        while i < n
            invariant
                self.wf(),
                n == self.encoder.keys().len(),
                i <= n,
                values.len() == i,
                forall|j: int| 0 <= j < i ==> (#[trigger] values@[j])@ == self.encoder.keys()[j],
            decreases n - i,
        {
            values.push(slice_to_vec(self.encoder.key_at(i)));
            i += 1;
        }
        assert(keys_view(values@) =~= self.sorted_token_bytes());
        values
    }
}

/// Encoding a list of spans fails where encoding its first `n` spans
/// fails, with the same error.
pub proof fn lemma_encode_spans_error(
    ranks: Map<Seq<u8>, Rank>,
    text: Seq<u8>,
    spans: Seq<(usize, usize)>,
    n: int,
)
    requires
        0 <= n <= spans.len(),
    ensures
        encode_spans(ranks, text, spans.take(n)) matches Err(e) ==> encode_spans(ranks, text, spans)
            == Err::<(Seq<Rank>, nat), BpeError>(e),
    decreases spans.len(),
{
    if n < spans.len() {
        assert(spans.drop_last().take(n) =~= spans.take(n));
        lemma_encode_spans_error(ranks, text, spans.drop_last(), n);
    } else {
        assert(spans.take(n) =~= spans);
    }
}

} // verus!
