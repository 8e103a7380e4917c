//! What holds of every tokenizer: encoding yields tokens that the
//! tokenizer knows, and decoding them gives the text back.

use crate::error::BpeError;
use crate::merge::{
    bytes_covered, lemma_merge_offsets_ok, merge_offsets, offsets_ok, parts_known,
    ranks_at_offsets, spec_byte_pair_encode, spec_byte_pair_split, split_at_offsets,
};
use crate::table::Rank;
use crate::pattern::regex_find_iter;
use crate::special::{encode_from, next_allowed_special, next_boundary, usable_match};
use crate::tokenizer::{
    decode_tokens, encode_spans, encode_text, piece_tokens, special_search, token_bytes,
    tokenisable, CoreBPE,
};
use crate::vocab::{decodes_all, inverse_maps};
use vstd::prelude::*;
use crate::unstable::{
    increased_last_piece_len, last_tokens, lemma_grow_over_space, lemma_valid_prefix_exists,
    lemma_valid_prefix_unique, valid_prefix_len,
};
use vstd::utf8::{decode_utf8, valid_utf8};

verus! {

/// The byte strings of `parts`, one after the other.
pub open spec fn concat(parts: Seq<Seq<u8>>) -> Seq<u8>
    decreases parts.len(),
{
    if parts.len() == 0 {
        Seq::empty()
    } else {
        concat(parts.drop_last()) + parts.last()
    }
}

/// Every token of `tokens` is in the decoder of the vocabulary.
pub open spec fn all_known(decoder: Map<Rank, Seq<u8>>, tokens: Seq<Rank>) -> bool {
    forall|i: int| 0 <= i < tokens.len() ==> decoder.contains_key(#[trigger] tokens[i])
}

/// Decoding goes token by token: the bytes of two sequences of tokens put
/// together are the bytes of the one followed by the bytes of the other.
pub proof fn lemma_decode_concat(
    decoder: Map<Rank, Seq<u8>>,
    special_decoder: Map<Rank, Seq<u8>>,
    a: Seq<Rank>,
    b: Seq<Rank>,
)
    ensures
        decode_tokens(decoder, special_decoder, a + b) == decode_tokens(decoder, special_decoder, a)
            + decode_tokens(decoder, special_decoder, b),
    decreases b.len(),
{
    if b.len() == 0 {
        assert(a + b =~= a);
        assert(decode_tokens(decoder, special_decoder, a) + Seq::<u8>::empty() =~= decode_tokens(
            decoder,
            special_decoder,
            a,
        ));
    } else {
        lemma_decode_concat(decoder, special_decoder, a, b.drop_last());
        assert((a + b).drop_last() =~= a + b.drop_last());
        assert((a + b).last() == b.last());
        assert(decode_tokens(decoder, special_decoder, a + b) =~= decode_tokens(
            decoder,
            special_decoder,
            a,
        ) + decode_tokens(decoder, special_decoder, b));
    }
}

/// The parts that rising boundaries cut out of a piece, put together up to
/// the `n`-th boundary, are the piece up to there; and where each part is
/// a token of a vocabulary with its decoder, the ranks of the first `n`
/// parts decode to the same bytes.
pub proof fn lemma_parts_upto(
    ranks: Map<Seq<u8>, Rank>,
    decoder: Map<Rank, Seq<u8>>,
    special_decoder: Map<Rank, Seq<u8>>,
    piece: Seq<u8>,
    bounds: Seq<int>,
    n: int,
)
    requires
        offsets_ok(bounds, piece.len() as int),
        0 <= n <= bounds.len() - 1,
    ensures
        concat(split_at_offsets(piece, bounds).take(n)) == piece.subrange(0, bounds[n]),
        inverse_maps(ranks, decoder) && parts_known(ranks, piece, bounds) ==> {
            &&& all_known(decoder, ranks_at_offsets(ranks, piece, bounds).take(n))
            &&& decode_tokens(
                decoder,
                special_decoder,
                ranks_at_offsets(ranks, piece, bounds).take(n),
            ) == piece.subrange(0, bounds[n])
        },
    decreases n,
{
    let parts = split_at_offsets(piece, bounds);
    let tokens = ranks_at_offsets(ranks, piece, bounds);
    if n == 0 {
        assert(parts.take(0) =~= Seq::<Seq<u8>>::empty());
        assert(tokens.take(0) =~= Seq::<Rank>::empty());
        assert(piece.subrange(0, 0) =~= Seq::<u8>::empty());
    } else {
        lemma_parts_upto(ranks, decoder, special_decoder, piece, bounds, n - 1);
        let m = n - 1;
        assert(bounds[m] < bounds[n]);
        assert(0 <= bounds[m]) by {
            if m > 0 {
                assert(bounds[0] < bounds[m]);
            }
        }
        assert(bounds[n] <= piece.len()) by {
            if n < bounds.len() - 1 {
                assert(bounds[n] < bounds[bounds.len() - 1]);
            }
        }
        let part = piece.subrange(bounds[m], bounds[n]);
        assert(parts.take(n).drop_last() =~= parts.take(m));
        assert(parts.take(n).last() == part);
        assert(piece.subrange(0, bounds[m]) + part =~= piece.subrange(0, bounds[n]));
        if inverse_maps(ranks, decoder) && parts_known(ranks, piece, bounds) {
            assert(ranks.contains_key(piece.subrange(bounds[m], bounds[m + 1])));
            assert(tokens.take(n).drop_last() =~= tokens.take(m));
            assert(tokens.take(n).last() == ranks[part]);
            assert(decoder.contains_key(ranks[part]) && decoder[ranks[part]] == part);
            assert forall|i: int| 0 <= i < tokens.take(n).len() implies decoder.contains_key(
                #[trigger] tokens.take(n)[i],
            ) by {
                if i < m {
                    assert(tokens.take(n)[i] == tokens.take(m)[i]);
                }
            }
        }
    }
}

/// The parts that the merge engine cuts a piece into, put together, are
/// the piece.
pub proof fn lemma_split_concat(ranks: Map<Seq<u8>, Rank>, piece: Seq<u8>)
    requires
        piece.len() >= 1,
    ensures
        concat(spec_byte_pair_split(ranks, piece)) == piece,
{
    let bounds = merge_offsets(ranks, piece);
    lemma_merge_offsets_ok(ranks, piece);
    let parts = split_at_offsets(piece, bounds);
    lemma_parts_upto(ranks, Map::empty(), Map::empty(), piece, bounds, bounds.len() - 1);
    assert(parts.take(bounds.len() - 1) =~= parts);
    assert(piece.subrange(0, piece.len() as int) =~= piece);
}

/// The tokens of a piece that can be cut into tokens: there is at least
/// one, the decoder knows each, and they decode to the piece.
pub proof fn lemma_piece_round_trip(
    ranks: Map<Seq<u8>, Rank>,
    decoder: Map<Rank, Seq<u8>>,
    special_decoder: Map<Rank, Seq<u8>>,
    piece: Seq<u8>,
)
    requires
        inverse_maps(ranks, decoder),
        tokenisable(ranks, piece),
    ensures
        piece_tokens(ranks, piece).len() >= 1,
        all_known(decoder, piece_tokens(ranks, piece)),
        decode_tokens(decoder, special_decoder, piece_tokens(ranks, piece)) == piece,
{
    let tokens = piece_tokens(ranks, piece);
    if ranks.contains_key(piece) {
        assert(decoder.contains_key(ranks[piece]) && decoder[ranks[piece]] == piece);
        assert(tokens.drop_last() =~= Seq::<Rank>::empty());
        assert(decode_tokens(decoder, special_decoder, tokens.drop_last()) == Seq::<u8>::empty());
        assert(tokens.last() == ranks[piece]);
        assert(token_bytes(decoder, special_decoder, tokens.last()) == piece);
        assert(Seq::<u8>::empty() + piece =~= piece);
    } else {
        let bounds = merge_offsets(ranks, piece);
        lemma_merge_offsets_ok(ranks, piece);
        lemma_parts_upto(ranks, decoder, special_decoder, piece, bounds, bounds.len() - 1);
        assert(tokens == ranks_at_offsets(ranks, piece, bounds));
        assert(tokens.take(bounds.len() - 1) =~= tokens);
        assert(bounds[bounds.len() - 1] == piece.len());
        assert(piece.subrange(0, piece.len() as int) =~= piece);
    }
}

/// The tokens that the merge engine makes of a piece whose bytes are all
/// tokens are tokens of the vocabulary, and decode to the piece.
pub proof fn lemma_merge_round_trip(
    ranks: Map<Seq<u8>, Rank>,
    decoder: Map<Rank, Seq<u8>>,
    special_decoder: Map<Rank, Seq<u8>>,
    piece: Seq<u8>,
)
    requires
        inverse_maps(ranks, decoder),
        piece.len() >= 1,
        bytes_covered(ranks, piece),
    ensures
        all_known(decoder, spec_byte_pair_encode(ranks, piece)),
        decode_tokens(decoder, special_decoder, spec_byte_pair_encode(ranks, piece)) == piece,
{
    let tokens = spec_byte_pair_encode(ranks, piece);
    let bounds = merge_offsets(ranks, piece);
    lemma_merge_offsets_ok(ranks, piece);
    lemma_parts_upto(ranks, decoder, special_decoder, piece, bounds, bounds.len() - 1);
    assert(tokens == ranks_at_offsets(ranks, piece, bounds));
    assert(tokens.take(bounds.len() - 1) =~= tokens);
    assert(bounds[bounds.len() - 1] == piece.len());
    assert(piece.subrange(0, piece.len() as int) =~= piece);
}

/// The bytes of the pieces that `spans` cuts out of `text`, one after the
/// other.
pub open spec fn spans_bytes(text: Seq<u8>, spans: Seq<(usize, usize)>) -> Seq<u8>
    decreases spans.len(),
{
    if spans.len() == 0 {
        Seq::empty()
    } else {
        spans_bytes(text, spans.drop_last()) + text.subrange(
            spans.last().0 as int,
            spans.last().1 as int,
        )
    }
}

/// Where a list of spans can be encoded, the decoder knows each token, the
/// last piece gave no more tokens than there are, and the tokens decode to
/// the bytes of the pieces.
pub proof fn lemma_spans_round_trip(
    ranks: Map<Seq<u8>, Rank>,
    decoder: Map<Rank, Seq<u8>>,
    special_decoder: Map<Rank, Seq<u8>>,
    text: Seq<u8>,
    spans: Seq<(usize, usize)>,
)
    requires
        inverse_maps(ranks, decoder),
        encode_spans(ranks, text, spans) is Ok,
    ensures
        all_known(decoder, encode_spans(ranks, text, spans)->Ok_0.0),
        encode_spans(ranks, text, spans)->Ok_0.1 <= encode_spans(ranks, text, spans)->Ok_0.0.len(),
        decode_tokens(decoder, special_decoder, encode_spans(ranks, text, spans)->Ok_0.0)
            == spans_bytes(text, spans),
    decreases spans.len(),
{
    if spans.len() > 0 {
        let front = spans.drop_last();
        let span = spans.last();
        lemma_spans_round_trip(ranks, decoder, special_decoder, text, front);
        let before = encode_spans(ranks, text, front)->Ok_0;
        let piece = text.subrange(span.0 as int, span.1 as int);
        let tokens = piece_tokens(ranks, piece);
        lemma_piece_round_trip(ranks, decoder, special_decoder, piece);
        lemma_decode_concat(decoder, special_decoder, before.0, tokens);
        assert forall|i: int| 0 <= i < (before.0 + tokens).len() implies decoder.contains_key(
            #[trigger] (before.0 + tokens)[i],
        ) by {
            if i < before.0.len() {
                assert((before.0 + tokens)[i] == before.0[i]);
            } else {
                assert((before.0 + tokens)[i] == tokens[i - before.0.len()]);
            }
        }
    }
}

/// The pattern cuts `text` into pieces that leave nothing out: the pieces
/// it finds, one after the other, are the text.
pub open spec fn pattern_covers(pattern: Seq<char>, text: Seq<u8>) -> bool {
    regex_find_iter(pattern, decode_utf8(text)) matches Some(spans) ==> spans_bytes(text, spans)
        == text
}

/// The pattern leaves nothing out of the part of `text` from `a` to `b`.
pub open spec fn pattern_covers_part(pattern: Seq<char>, text: Seq<u8>, a: int, b: int) -> bool {
    pattern_covers(pattern, text.subrange(a, b))
}

/// The pattern leaves nothing out of any part of `text`.
pub open spec fn pattern_covers_parts(pattern: Seq<char>, text: Seq<u8>) -> bool {
    forall|a: int, b: int|
        0 <= a <= b <= text.len() ==> #[trigger] pattern_covers_part(pattern, text, a, b)
}

/// No two keys of `m` share a rank.
pub open spec fn injective(m: Map<Seq<u8>, Rank>) -> bool {
    forall|j: Seq<u8>, k: Seq<u8>|
        m.contains_key(j) && m.contains_key(k) && #[trigger] m[j] == #[trigger] m[k] ==> j == k
}

/// No rank of a special token is a rank of the vocabulary.
pub open spec fn ranks_apart(specials: Map<Seq<u8>, Rank>, decoder: Map<Rank, Seq<u8>>) -> bool {
    forall|k: Seq<u8>| specials.contains_key(k) ==> !decoder.contains_key(#[trigger] specials[k])
}

/// Every token of `tokens` is in one of the two decoders.
pub open spec fn all_decodable(
    decoder: Map<Rank, Seq<u8>>,
    special_decoder: Map<Rank, Seq<u8>>,
    tokens: Seq<Rank>,
) -> bool {
    forall|i: int|
        0 <= i < tokens.len() ==> decoder.contains_key(#[trigger] tokens[i])
            || special_decoder.contains_key(tokens[i])
}

/// Where text can be encoded from byte `start` on, each token is one that
/// a decoder knows, and the tokens that the last piece gave are the last
/// of them and are tokens of the vocabulary.
pub proof fn lemma_encode_from_known(
    ranks: Map<Seq<u8>, Rank>,
    specials: Map<Seq<u8>, Rank>,
    decoder: Map<Rank, Seq<u8>>,
    special_decoder: Map<Rank, Seq<u8>>,
    pattern: Seq<char>,
    special_pattern: Option<Seq<char>>,
    text: Seq<u8>,
    allowed: Set<Seq<u8>>,
    start: usize,
)
    requires
        inverse_maps(ranks, decoder),
        decodes_all(specials, special_decoder),
        encode_from(ranks, specials, pattern, special_pattern, text, allowed, start) is Ok,
    ensures
        ({
            let done = encode_from(ranks, specials, pattern, special_pattern, text, allowed, start)->Ok_0;
            &&& all_decodable(decoder, special_decoder, done.0)
            &&& done.1 <= done.0.len()
            &&& all_known(decoder, done.0.subrange(done.0.len() - done.1, done.0.len() as int))
        }),
    decreases text.len() - start,
{
    let done = encode_from(ranks, specials, pattern, special_pattern, text, allowed, start)->Ok_0;
    match next_allowed_special(special_pattern, text, allowed, start) {
        Err(_) => {},
        Ok(None) => {
            let tail = text.subrange(start as int, text.len() as int);
            let spans = regex_find_iter(pattern, decode_utf8(tail))->0;
            lemma_spans_last_piece(ranks, decoder, special_decoder, tail, spans);
        },
        Ok(Some(m)) => {
            let between = text.subrange(start as int, m.0 as int);
            let spans = regex_find_iter(pattern, decode_utf8(between))->0;
            lemma_spans_round_trip(ranks, decoder, special_decoder, between, spans);
            let head = encode_text(ranks, pattern, between)->Ok_0;
            let rank = specials[text.subrange(m.0 as int, m.1 as int)];
            lemma_encode_from_known(
                ranks,
                specials,
                decoder,
                special_decoder,
                pattern,
                special_pattern,
                text,
                allowed,
                m.1,
            );
            let rest = encode_from(ranks, specials, pattern, special_pattern, text, allowed, m.1)->Ok_0;
            let front = head.0.push(rank);
            assert(done.0 == front + rest.0);
            assert(special_decoder.contains_key(rank));
            assert forall|i: int| 0 <= i < done.0.len() implies decoder.contains_key(
                #[trigger] done.0[i],
            ) || special_decoder.contains_key(done.0[i]) by {
                if i < head.0.len() {
                    assert(done.0[i] == head.0[i]);
                } else if i == head.0.len() {
                    assert(done.0[i] == rank);
                } else {
                    assert(done.0[i] == rest.0[i - front.len()]);
                }
            }
            assert(done.0.subrange(done.0.len() - done.1, done.0.len() as int) =~= rest.0.subrange(
                rest.0.len() - rest.1,
                rest.0.len() as int,
            ));
        },
    }
}

/// Where a list of spans can be encoded, the tokens that the last piece
/// gave are the last of all, and the decoder knows every token.
pub proof fn lemma_spans_last_piece(
    ranks: Map<Seq<u8>, Rank>,
    decoder: Map<Rank, Seq<u8>>,
    special_decoder: Map<Rank, Seq<u8>>,
    text: Seq<u8>,
    spans: Seq<(usize, usize)>,
)
    requires
        inverse_maps(ranks, decoder),
        encode_spans(ranks, text, spans) is Ok,
    ensures
        ({
            let done = encode_spans(ranks, text, spans)->Ok_0;
            &&& all_decodable(decoder, special_decoder, done.0)
            &&& all_known(decoder, done.0)
            &&& done.1 <= done.0.len()
            &&& all_known(decoder, done.0.subrange(done.0.len() - done.1, done.0.len() as int))
        }),
{
    lemma_spans_round_trip(ranks, decoder, special_decoder, text, spans);
    let done = encode_spans(ranks, text, spans)->Ok_0;
    let last = done.0.subrange(done.0.len() - done.1, done.0.len() as int);
    assert forall|i: int| 0 <= i < last.len() implies decoder.contains_key(#[trigger] last[i]) by {
        assert(last[i] == done.0[done.0.len() - done.1 + i]);
    }
}

/// Each special token decodes to its own literal.
pub open spec fn specials_decode_back(
    specials: Map<Seq<u8>, Rank>,
    decoder: Map<Rank, Seq<u8>>,
    special_decoder: Map<Rank, Seq<u8>>,
) -> bool {
    forall|k: Seq<u8>|
        specials.contains_key(k) ==> token_bytes(decoder, special_decoder, #[trigger] specials[k])
            == k
}

/// Special tokens decode to their own literals where no two of them share
/// a rank and none has a rank of the vocabulary.
pub proof fn lemma_specials_decode_back(
    specials: Map<Seq<u8>, Rank>,
    decoder: Map<Rank, Seq<u8>>,
    special_decoder: Map<Rank, Seq<u8>>,
)
    requires
        decodes_all(specials, special_decoder),
        injective(specials),
        ranks_apart(specials, decoder),
    ensures
        specials_decode_back(specials, decoder, special_decoder),
{
    assert forall|k: Seq<u8>| specials.contains_key(k) implies token_bytes(
        decoder,
        special_decoder,
        #[trigger] specials[k],
    ) == k by {
        let rank = specials[k];
        assert(special_decoder.contains_key(rank));
        let back = special_decoder[rank];
        assert(specials.contains_key(back) && specials[back] == rank);
        assert(back == k);
        assert(!decoder.contains_key(rank));
    }
}

/// Round trip of encoding from byte `start` on: the tokens decode to the
/// text from there, where the pattern leaves nothing out and each special
/// token decodes to its own literal.
pub proof fn lemma_encode_from_round_trip(
    ranks: Map<Seq<u8>, Rank>,
    specials: Map<Seq<u8>, Rank>,
    decoder: Map<Rank, Seq<u8>>,
    special_decoder: Map<Rank, Seq<u8>>,
    pattern: Seq<char>,
    special_pattern: Option<Seq<char>>,
    text: Seq<u8>,
    allowed: Set<Seq<u8>>,
    start: usize,
)
    requires
        inverse_maps(ranks, decoder),
        specials_decode_back(specials, decoder, special_decoder),
        pattern_covers_parts(pattern, text),
        start <= text.len(),
        encode_from(ranks, specials, pattern, special_pattern, text, allowed, start) is Ok,
    ensures
        decode_tokens(
            decoder,
            special_decoder,
            encode_from(ranks, specials, pattern, special_pattern, text, allowed, start)->Ok_0.0,
        ) == text.subrange(start as int, text.len() as int),
    decreases text.len() - start,
{
    let done = encode_from(ranks, specials, pattern, special_pattern, text, allowed, start)->Ok_0;
    match next_allowed_special(special_pattern, text, allowed, start) {
        Err(_) => {},
        Ok(None) => {
            let tail = text.subrange(start as int, text.len() as int);
            let spans = regex_find_iter(pattern, decode_utf8(tail))->0;
            assert(pattern_covers_part(pattern, text, start as int, text.len() as int));
            lemma_spans_round_trip(ranks, decoder, special_decoder, tail, spans);
        },
        Ok(Some(m)) => {
            let between = text.subrange(start as int, m.0 as int);
            let literal = text.subrange(m.0 as int, m.1 as int);
            let spans = regex_find_iter(pattern, decode_utf8(between))->0;
            assert(pattern_covers_part(pattern, text, start as int, m.0 as int));
            lemma_spans_round_trip(ranks, decoder, special_decoder, between, spans);
            let head = encode_text(ranks, pattern, between)->Ok_0;
            let rank = specials[literal];
            lemma_encode_from_round_trip(
                ranks,
                specials,
                decoder,
                special_decoder,
                pattern,
                special_pattern,
                text,
                allowed,
                m.1,
            );
            let rest = encode_from(ranks, specials, pattern, special_pattern, text, allowed, m.1)->Ok_0;
            assert(token_bytes(decoder, special_decoder, rank) == literal);
            lemma_decode_around(decoder, special_decoder, head.0, rank, rest.0);
            assert(between + literal + text.subrange(m.1 as int, text.len() as int)
                =~= text.subrange(start as int, text.len() as int));
        },
    }
}

/// The bytes of tokens, then one token, then more tokens are the bytes of
/// the three in that order.
pub proof fn lemma_decode_around(
    decoder: Map<Rank, Seq<u8>>,
    special_decoder: Map<Rank, Seq<u8>>,
    head: Seq<Rank>,
    rank: Rank,
    rest: Seq<Rank>,
)
    ensures
        decode_tokens(decoder, special_decoder, head.push(rank) + rest) == decode_tokens(
            decoder,
            special_decoder,
            head,
        ) + token_bytes(decoder, special_decoder, rank) + decode_tokens(
            decoder,
            special_decoder,
            rest,
        ),
{
    let front = head.push(rank);
    assert(front.drop_last() =~= head);
    assert(front.last() == rank);
    lemma_decode_concat(decoder, special_decoder, front, rest);
}

/// Round trip of ordinary encoding: where the pattern leaves nothing out
/// of `text`, the tokens of `text` decode to `text`.
pub proof fn law_ordinary_round_trip(t: CoreBPE, text: Seq<u8>)
    requires
        t.wf(),
        pattern_covers(t.pattern(), text),
        t.spec_encode_ordinary(text) is Ok,
    ensures
        t.spec_decode(t.spec_encode_ordinary(text)->Ok_0) == text,
{
    t.lemma_wf();
    let spans = regex_find_iter(t.pattern(), decode_utf8(text))->0;
    lemma_spans_round_trip(t.encoder(), t.decoder(), t.special_decoder(), text, spans);
}

/// Round trip of encoding with special tokens, whatever `allowed` holds:
/// the tokens of `text` decode to `text`, where the pattern leaves nothing
/// out of any part of `text`, no two special tokens share a rank and no
/// special token has a rank of the vocabulary.
pub proof fn law_encode_round_trip(t: CoreBPE, text: Seq<u8>, allowed: Set<Seq<u8>>)
    requires
        t.wf(),
        pattern_covers_parts(t.pattern(), text),
        injective(t.special_encoder()),
        ranks_apart(t.special_encoder(), t.decoder()),
        t.spec_encode(text, allowed) is Ok,
    ensures
        t.spec_decode(t.spec_encode(text, allowed)->Ok_0) == text,
{
    t.lemma_wf();
    lemma_specials_decode_back(t.special_encoder(), t.decoder(), t.special_decoder());
    lemma_encode_from_round_trip(
        t.encoder(),
        t.special_encoder(),
        t.decoder(),
        t.special_decoder(),
        t.pattern(),
        t.special_pattern(),
        text,
        allowed,
        0,
    );
    assert(text.subrange(0, text.len() as int) =~= text);
}

/// Every token that encoding yields is one that the tokenizer knows.
pub proof fn law_encoded_tokens_known(t: CoreBPE, text: Seq<u8>, allowed: Set<Seq<u8>>)
    requires
        t.wf(),
    ensures
        forall|tokens: Seq<Rank>, i: int|
            t.spec_encode(text, allowed) == Ok::<Seq<Rank>, BpeError>(tokens) && 0 <= i
                < tokens.len() ==> t.knows(#[trigger] tokens[i]),
        forall|tokens: Seq<Rank>, i: int|
            t.spec_encode_ordinary(text) == Ok::<Seq<Rank>, BpeError>(tokens) && 0 <= i
                < tokens.len() ==> t.knows(#[trigger] tokens[i]),
{
    t.lemma_wf();
    if t.spec_encode(text, allowed) is Ok {
        lemma_encode_from_known(
            t.encoder(),
            t.special_encoder(),
            t.decoder(),
            t.special_decoder(),
            t.pattern(),
            t.special_pattern(),
            text,
            allowed,
            0,
        );
    }
    if t.spec_encode_ordinary(text) is Ok {
        let spans = regex_find_iter(t.pattern(), decode_utf8(text))->0;
        lemma_spans_last_piece(t.encoder(), t.decoder(), t.special_decoder(), text, spans);
    }
}

/// A piece of one byte that is a token is encoded as that token.
pub proof fn law_single_byte(t: CoreBPE, text: Seq<u8>, span: (usize, usize))
    requires
        t.wf(),
        span.0 + 1 == span.1,
        span.1 <= text.len(),
        t.encoder().contains_key(text.subrange(span.0 as int, span.1 as int)),
    ensures
        encode_spans(t.encoder(), text, seq![span]) == Ok::<(Seq<Rank>, nat), BpeError>(
            (seq![t.encoder()[text.subrange(span.0 as int, span.1 as int)]], 1),
        ),
{
    let spans = seq![span];
    assert(spans.drop_last() =~= Seq::<(usize, usize)>::empty());
    assert(encode_spans(t.encoder(), text, spans.drop_last()) == Ok::<(Seq<Rank>, nat), BpeError>(
        (Seq::empty(), 0),
    ));
    let piece = text.subrange(span.0 as int, span.1 as int);
    assert(Seq::<Rank>::empty() + piece_tokens(t.encoder(), piece) =~= seq![t.encoder()[piece]]);
}

/// The merge engine and the vocabulary agree: the ranks that
/// `byte_pair_encode` gives are those of the parts that `byte_pair_split`
/// gives, part by part.
pub proof fn law_encode_is_split_ranked(ranks: Map<Seq<u8>, Rank>, piece: Seq<u8>)
    ensures
        spec_byte_pair_encode(ranks, piece).len() == spec_byte_pair_split(ranks, piece).len(),
        forall|i: int|
            0 <= i < spec_byte_pair_split(ranks, piece).len() ==> spec_byte_pair_encode(
                ranks,
                piece,
            )[i] == ranks[#[trigger] spec_byte_pair_split(ranks, piece)[i]],
{
}

/// What the merge engine makes of a piece depends on the piece and the
/// ranks alone: equal pieces with equal ranks give equal boundaries, equal
/// parts and equal tokens.
pub proof fn law_merge_is_a_function(
    ranks: Map<Seq<u8>, Rank>,
    other_ranks: Map<Seq<u8>, Rank>,
    piece: Seq<u8>,
    other_piece: Seq<u8>,
)
    requires
        ranks =~= other_ranks,
        piece =~= other_piece,
    ensures
        merge_offsets(ranks, piece) == merge_offsets(other_ranks, other_piece),
        spec_byte_pair_split(ranks, piece) == spec_byte_pair_split(other_ranks, other_piece),
        spec_byte_pair_encode(ranks, piece) == spec_byte_pair_encode(other_ranks, other_piece),
{
}

/// Where nothing is allowed, the search for an allowed special token
/// finds none.
pub proof fn lemma_nothing_allowed(special_pattern: Option<Seq<char>>, text: Seq<u8>, from: usize)
    ensures
        !(next_allowed_special(special_pattern, text, Set::empty(), from) matches Ok(Some(_))),
    decreases text.len() - from,
{
    match special_search(special_pattern, decode_utf8(text), from) {
        Ok(Some(m)) => {
            let next = next_boundary(text, m.0 + 1);
            if usable_match(text, from, m) && !(m.0 >= text.len() || !(from < next <= text.len())
                || next > usize::MAX) {
                lemma_nothing_allowed(special_pattern, text, next as usize);
            }
        },
        _ => {},
    }
}

/// A special token that is not allowed is ordinary text: where the search
/// finds no allowed special token in `text`, encoding with special tokens
/// is ordinary encoding; and it finds none where nothing is allowed.
pub proof fn law_disallowed_specials_are_text(t: CoreBPE, text: Seq<u8>, allowed: Set<Seq<u8>>)
    requires
        t.wf(),
    ensures
        next_allowed_special(t.special_pattern(), text, allowed, 0) == Ok::<
            Option<(usize, usize)>,
            BpeError,
        >(None) ==> t.spec_encode(text, allowed) == t.spec_encode_ordinary(text),
        allowed == Set::<Seq<u8>>::empty() ==> !(next_allowed_special(
            t.special_pattern(),
            text,
            allowed,
            0,
        ) matches Ok(Some(_))),
{
    assert(text.subrange(0, text.len() as int) =~= text);
    lemma_nothing_allowed(t.special_pattern(), text, 0);
}

/// An allowed special token at the start of the text gives the first
/// token: where the search finds it at byte 0 and the pattern finds no
/// piece in empty text, the tokens begin with the rank of the special
/// token, and the tokens after it are those of the text from the end of
/// the literal on.
pub proof fn law_special_at_start_comes_first(
    t: CoreBPE,
    text: Seq<u8>,
    allowed: Set<Seq<u8>>,
    end: usize,
)
    requires
        t.wf(),
        next_allowed_special(t.special_pattern(), text, allowed, 0) == Ok::<
            Option<(usize, usize)>,
            BpeError,
        >(Some((0, end))),
        regex_find_iter(t.pattern(), Seq::<char>::empty()) == Some(Seq::<(usize, usize)>::empty()),
        t.spec_encode(text, allowed) is Ok,
    ensures
        t.special_encoder().contains_key(text.subrange(0, end as int)),
        t.spec_encode(text, allowed)->Ok_0.len() > 0,
        t.spec_encode(text, allowed)->Ok_0[0] == t.special_encoder()[text.subrange(0, end as int)],
        encode_from(
            t.encoder(),
            t.special_encoder(),
            t.pattern(),
            t.special_pattern(),
            text,
            allowed,
            end,
        ) is Ok,
        t.spec_encode(text, allowed)->Ok_0.skip(1) == encode_from(
            t.encoder(),
            t.special_encoder(),
            t.pattern(),
            t.special_pattern(),
            text,
            allowed,
            end,
        )->Ok_0.0,
{
    let before = text.subrange(0, 0);
    assert(before =~= Seq::<u8>::empty());
    assert(decode_utf8(before) =~= Seq::<char>::empty());
    let rank = t.special_encoder()[text.subrange(0, end as int)];
    let rest = encode_from(
        t.encoder(),
        t.special_encoder(),
        t.pattern(),
        t.special_pattern(),
        text,
        allowed,
        end,
    );
    let head = Seq::<Rank>::empty().push(rank);
    assert((head + rest->Ok_0.0)[0] == rank);
    assert((head + rest->Ok_0.0).skip(1) =~= rest->Ok_0.0);
}

/// Empty text has no tokens, where the pattern finds no piece in it.
pub proof fn law_empty_text(t: CoreBPE)
    requires
        t.wf(),
        regex_find_iter(t.pattern(), Seq::<char>::empty()) == Some(Seq::<(usize, usize)>::empty()),
    ensures
        t.spec_encode_ordinary(Seq::<u8>::empty()) == Ok::<Seq<Rank>, BpeError>(Seq::empty()),
{
    assert(decode_utf8(Seq::<u8>::empty()) =~= Seq::<char>::empty());
}

/// Round trip of byte encoding: the tokens of `bytes` decode to `bytes`,
/// where the pattern leaves nothing out of the text that is encoded and,
/// for bytes that are no text, the longest well-formed prefix has a last
/// piece for the bytes after it to join.
pub proof fn law_bytes_round_trip(t: CoreBPE, bytes: Seq<u8>)
    requires
        t.wf(),
        t.spec_encode_bytes(bytes) is Ok,
        pattern_covers(t.pattern(), bytes.subrange(0, valid_prefix_len(bytes))),
        !valid_utf8(bytes) ==> increased_last_piece_len(
            t.decoder(),
            t.spec_encode_native(bytes.subrange(0, valid_prefix_len(bytes)), Set::empty())->Ok_0.0,
            t.spec_encode_native(bytes.subrange(0, valid_prefix_len(bytes)), Set::empty())->Ok_0.1,
        ) > 0,
    ensures
        t.spec_decode(t.spec_encode_bytes(bytes)->Ok_0) == bytes,
{
    let k = valid_prefix_len(bytes);
    assert(0 <= k <= bytes.len()) by {
        lemma_valid_prefix_exists(bytes);
    }
    if valid_utf8(bytes) {
        assert(k == bytes.len()) by {
            assert(bytes.subrange(0, bytes.len() as int) =~= bytes);
            lemma_valid_prefix_unique(bytes, bytes.len() as int);
        }
        assert(bytes.subrange(0, k) =~= bytes);
        law_ordinary_round_trip(t, bytes);
    } else {
        lemma_prefix_and_tail_round_trip(t, bytes.subrange(0, k), bytes.subrange(k, bytes.len() as int));
        assert(bytes.subrange(0, k) + bytes.subrange(k, bytes.len() as int) =~= bytes);
    }
}

/// Round trip of text encoded without special tokens, its last `n` tokens
/// taken back and cut into tokens afresh together with the bytes `after`.
pub proof fn lemma_prefix_and_tail_round_trip(t: CoreBPE, prefix: Seq<u8>, after: Seq<u8>)
    requires
        t.wf(),
        pattern_covers(t.pattern(), prefix),
        t.spec_encode_native(prefix, Set::empty()) is Ok,
        tokenisable(
            t.encoder(),
            t.spec_decode(
                last_tokens(
                    t.spec_encode_native(prefix, Set::empty())->Ok_0.0,
                    increased_last_piece_len(
                        t.decoder(),
                        t.spec_encode_native(prefix, Set::empty())->Ok_0.0,
                        t.spec_encode_native(prefix, Set::empty())->Ok_0.1,
                    ),
                ),
            ) + after,
        ),
    ensures
        ({
            let done = t.spec_encode_native(prefix, Set::empty())->Ok_0;
            let n = increased_last_piece_len(t.decoder(), done.0, done.1);
            t.spec_decode(
                done.0.take(done.0.len() - n) + piece_tokens(
                    t.encoder(),
                    t.spec_decode(last_tokens(done.0, n)) + after,
                ),
            ) == prefix + after
        }),
{
    t.lemma_wf();
    let done = t.spec_encode_native(prefix, Set::empty())->Ok_0;
    let spans = regex_find_iter(t.pattern(), decode_utf8(prefix))->0;
    assert(encode_text(t.encoder(), t.pattern(), prefix) == Ok::<(Seq<Rank>, nat), BpeError>(
        done,
    )) by {
        lemma_nothing_allowed(t.special_pattern(), prefix, 0);
        assert(prefix.subrange(0, prefix.len() as int) =~= prefix);
    }
    lemma_spans_round_trip(t.encoder(), t.decoder(), t.special_decoder(), prefix, spans);
    lemma_grow_over_space(t.decoder(), done.0, done.1);
    let n = increased_last_piece_len(t.decoder(), done.0, done.1);
    lemma_tail_round_trip(t.encoder(), t.decoder(), t.special_decoder(), done.0, n, after);
}

/// Where the last `n` tokens are taken back and their bytes, with more
/// bytes after them, are cut into tokens afresh, the tokens decode to what
/// they decoded to before, followed by the bytes that were added.
pub proof fn lemma_tail_round_trip(
    ranks: Map<Seq<u8>, Rank>,
    decoder: Map<Rank, Seq<u8>>,
    special_decoder: Map<Rank, Seq<u8>>,
    tokens: Seq<Rank>,
    n: nat,
    after: Seq<u8>,
)
    requires
        inverse_maps(ranks, decoder),
        n <= tokens.len(),
        tokenisable(
            ranks,
            decode_tokens(decoder, special_decoder, last_tokens(tokens, n)) + after,
        ),
    ensures
        decode_tokens(
            decoder,
            special_decoder,
            tokens.take(tokens.len() - n) + piece_tokens(
                ranks,
                decode_tokens(decoder, special_decoder, last_tokens(tokens, n)) + after,
            ),
        ) == decode_tokens(decoder, special_decoder, tokens) + after,
{
    let keep = tokens.take(tokens.len() - n);
    let last = last_tokens(tokens, n);
    let tail = decode_tokens(decoder, special_decoder, last) + after;
    assert(keep + last =~= tokens);
    lemma_decode_concat(decoder, special_decoder, keep, last);
    lemma_piece_round_trip(ranks, decoder, special_decoder, tail);
    lemma_decode_concat(decoder, special_decoder, keep, piece_tokens(ranks, tail));
    assert(decode_tokens(decoder, special_decoder, keep) + (decode_tokens(
        decoder,
        special_decoder,
        last,
    ) + after) =~= (decode_tokens(decoder, special_decoder, keep) + decode_tokens(
        decoder,
        special_decoder,
        last,
    )) + after);
}

} // verus!
