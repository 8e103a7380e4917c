//! Vocabularies as they are handed in: lists of pairs of a key and a rank,
//! and the two mappings that such a list stands for.

use crate::table::{Rank, RankTable};
use std::collections::HashMap;
use vstd::prelude::*;
use vstd::slice::slice_to_vec;

verus! {

/// The mapping from key to rank that a list of pairs stands for. Of two
/// pairs with one key the later one counts.
pub open spec fn pairs_map(pairs: Seq<(Seq<u8>, Rank)>) -> Map<Seq<u8>, Rank>
    decreases pairs.len(),
{
    if pairs.len() == 0 {
        Map::empty()
    } else {
        pairs_map(pairs.drop_last()).insert(pairs.last().0, pairs.last().1)
    }
}

/// The mapping from rank back to key that a list of pairs stands for. Of
/// two pairs with one rank the later one counts.
pub open spec fn pairs_decoder(pairs: Seq<(Seq<u8>, Rank)>) -> Map<Rank, Seq<u8>>
    decreases pairs.len(),
{
    if pairs.len() == 0 {
        Map::empty()
    } else {
        pairs_decoder(pairs.drop_last()).insert(pairs.last().1, pairs.last().0)
    }
}

/// No key stands in two pairs.
pub open spec fn distinct_keys(pairs: Seq<(Seq<u8>, Rank)>) -> bool {
    forall|i: int, j: int|
        0 <= i < j < pairs.len() ==> (#[trigger] pairs[i]).0 != (#[trigger] pairs[j]).0
}

/// No rank stands in two pairs.
pub open spec fn distinct_ranks(pairs: Seq<(Seq<u8>, Rank)>) -> bool {
    forall|i: int, j: int|
        0 <= i < j < pairs.len() ==> (#[trigger] pairs[i]).1 != (#[trigger] pairs[j]).1
}

/// Some pair holds the key `k`.
pub open spec fn has_key(pairs: Seq<(Seq<u8>, Rank)>, k: Seq<u8>) -> bool {
    exists|i: int| 0 <= i < pairs.len() && (#[trigger] pairs[i]).0 == k
}

/// Some pair holds the rank `r`.
pub open spec fn has_rank(pairs: Seq<(Seq<u8>, Rank)>, r: Rank) -> bool {
    exists|i: int| 0 <= i < pairs.len() && (#[trigger] pairs[i]).1 == r
}

/// Each mapping is the other one turned round.
pub open spec fn inverse_maps(enc: Map<Seq<u8>, Rank>, dec: Map<Rank, Seq<u8>>) -> bool {
    &&& forall|k: Seq<u8>|
        enc.contains_key(k) ==> dec.contains_key(#[trigger] enc[k]) && dec[enc[k]] == k
    &&& forall|r: Rank|
        dec.contains_key(r) ==> enc.contains_key(#[trigger] dec[r]) && enc[dec[r]] == r
}

/// `dec` knows every rank of `enc` and sends each rank that it knows to a
/// key of that rank.
pub open spec fn decodes_all(enc: Map<Seq<u8>, Rank>, dec: Map<Rank, Seq<u8>>) -> bool {
    &&& forall|k: Seq<u8>| enc.contains_key(k) ==> dec.contains_key(#[trigger] enc[k])
    &&& forall|r: Rank|
        dec.contains_key(r) ==> enc.contains_key(#[trigger] dec[r]) && enc[dec[r]] == r
}

/// A vocabulary of byte strings as a list of plain pairs.
pub open spec fn vocabulary_view(v: Seq<(Vec<u8>, Rank)>) -> Seq<(Seq<u8>, Rank)> {
    Seq::new(v.len(), |i: int| (v[i].0@, v[i].1))
}

/// A decoder with its byte strings as plain sequences.
pub open spec fn decoder_view(m: Map<Rank, Vec<u8>>) -> Map<Rank, Seq<u8>> {
    Map::new(|r: Rank| m.contains_key(r), |r: Rank| m[r]@)
}

/// What the two mappings of a list of pairs hold.
pub proof fn lemma_pairs_maps(pairs: Seq<(Seq<u8>, Rank)>)
    ensures
        forall|k: Seq<u8>|
            #![trigger pairs_map(pairs).contains_key(k)]
            #![trigger has_key(pairs, k)]
            pairs_map(pairs).contains_key(k) <==> has_key(pairs, k),
        forall|r: Rank|
            #![trigger pairs_decoder(pairs).contains_key(r)]
            #![trigger has_rank(pairs, r)]
            pairs_decoder(pairs).contains_key(r) <==> has_rank(pairs, r),
        distinct_keys(pairs) ==> forall|i: int|
            0 <= i < pairs.len() ==> pairs_map(pairs)[(#[trigger] pairs[i]).0] == pairs[i].1,
        distinct_ranks(pairs) ==> forall|i: int|
            0 <= i < pairs.len() ==> pairs_decoder(pairs)[(#[trigger] pairs[i]).1] == pairs[i].0,
        forall|r: Rank|
            pairs_decoder(pairs).contains_key(r) ==> exists|i: int|
                0 <= i < pairs.len() && (#[trigger] pairs[i]).1 == r && pairs_decoder(pairs)[r]
                    == pairs[i].0,
    decreases pairs.len(),
{
    if pairs.len() > 0 {
        let front = pairs.drop_last();
        let last = pairs.last();
        let n = pairs.len() - 1;
        lemma_pairs_maps(front);
        assert forall|k: Seq<u8>|
            #![trigger pairs_map(pairs).contains_key(k)]
            #![trigger has_key(pairs, k)]
            pairs_map(pairs).contains_key(k) <==> has_key(pairs, k) by {
            assert(pairs_map(front).contains_key(k) <==> has_key(front, k));
            if has_key(front, k) {
                let i = choose|i: int| 0 <= i < front.len() && (#[trigger] front[i]).0 == k;
                assert(pairs[i].0 == k);
            }
            if k == last.0 {
                assert(pairs[n].0 == k);
            }
            if has_key(pairs, k) {
                let i = choose|i: int| 0 <= i < pairs.len() && (#[trigger] pairs[i]).0 == k;
                if i < n {
                    assert(front[i].0 == k);
                }
            }
        }
        assert forall|r: Rank|
            #![trigger pairs_decoder(pairs).contains_key(r)]
            #![trigger has_rank(pairs, r)]
            pairs_decoder(pairs).contains_key(r) <==> has_rank(pairs, r) by {
            assert(pairs_decoder(front).contains_key(r) <==> has_rank(front, r));
            if has_rank(front, r) {
                let i = choose|i: int| 0 <= i < front.len() && (#[trigger] front[i]).1 == r;
                assert(pairs[i].1 == r);
            }
            if r == last.1 {
                assert(pairs[n].1 == r);
            }
            if has_rank(pairs, r) {
                let i = choose|i: int| 0 <= i < pairs.len() && (#[trigger] pairs[i]).1 == r;
                if i < n {
                    assert(front[i].1 == r);
                }
            }
        }
        if distinct_keys(pairs) {
            assert(distinct_keys(front)) by {
                assert forall|i: int, j: int| 0 <= i < j < front.len() implies (#[trigger] front[i]).0
                    != (#[trigger] front[j]).0 by {
                    assert(pairs[i].0 != pairs[j].0);
                }
            }
            assert forall|i: int| 0 <= i < pairs.len() implies pairs_map(pairs)[(
                #[trigger] pairs[i]).0] == pairs[i].1 by {
                if i < n {
                    assert(front[i] == pairs[i]);
                    assert(pairs[i].0 != pairs[n].0);
                }
            }
        }
        if distinct_ranks(pairs) {
            assert(distinct_ranks(front)) by {
                assert forall|i: int, j: int| 0 <= i < j < front.len() implies (#[trigger] front[i]).1
                    != (#[trigger] front[j]).1 by {
                    assert(pairs[i].1 != pairs[j].1);
                }
            }
            assert forall|i: int| 0 <= i < pairs.len() implies pairs_decoder(pairs)[(
                #[trigger] pairs[i]).1] == pairs[i].0 by {
                if i < n {
                    assert(front[i] == pairs[i]);
                    assert(pairs[i].1 != pairs[n].1);
                }
            }
        }
        assert forall|r: Rank| pairs_decoder(pairs).contains_key(r) implies exists|i: int|
            0 <= i < pairs.len() && (#[trigger] pairs[i]).1 == r && pairs_decoder(pairs)[r]
                == pairs[i].0 by {
            if r == last.1 {
                assert(pairs[n].1 == r);
            } else {
                let i = choose|i: int|
                    0 <= i < front.len() && (#[trigger] front[i]).1 == r && pairs_decoder(front)[r]
                        == front[i].0;
                assert(pairs[i] == front[i]);
            }
        }
    }
}

/// The decoder of a list with distinct keys sends each rank to a key of
/// that rank; with distinct ranks too, the two mappings are inverses.
pub proof fn lemma_pairs_decode(pairs: Seq<(Seq<u8>, Rank)>)
    requires
        distinct_keys(pairs),
    ensures
        decodes_all(pairs_map(pairs), pairs_decoder(pairs)),
        distinct_ranks(pairs) ==> inverse_maps(pairs_map(pairs), pairs_decoder(pairs)),
{
    lemma_pairs_maps(pairs);
    let enc = pairs_map(pairs);
    let dec = pairs_decoder(pairs);
    assert forall|k: Seq<u8>| enc.contains_key(k) implies dec.contains_key(#[trigger] enc[k]) && (
    distinct_ranks(pairs) ==> dec[enc[k]] == k) by {
        let i = choose|i: int| 0 <= i < pairs.len() && (#[trigger] pairs[i]).0 == k;
        assert(enc[pairs[i].0] == pairs[i].1);
        assert(has_rank(pairs, pairs[i].1));
    }
    assert forall|r: Rank| dec.contains_key(r) implies enc.contains_key(#[trigger] dec[r])
        && enc[dec[r]] == r by {
        let i = choose|i: int|
            0 <= i < pairs.len() && (#[trigger] pairs[i]).1 == r && dec[r] == pairs[i].0;
        assert(has_key(pairs, pairs[i].0));
        assert(enc[pairs[i].0] == pairs[i].1);
    }
}

/// Builds the sorted table and the decoder of a list of pairs. There is
/// none if a key stands in two pairs, or, where `unique_ranks` is set, a
/// rank does.
pub fn build_tables(pairs: &Vec<(Vec<u8>, Rank)>, unique_ranks: bool) -> (r: Option<
    (RankTable, HashMap<Rank, Vec<u8>>),
>)
    ensures
        r is Some <==> distinct_keys(vocabulary_view(pairs@)) && (unique_ranks ==> distinct_ranks(
            vocabulary_view(pairs@),
        )),
        r matches Some(built) ==> {
            &&& built.0.wf()
            &&& built.0@ == pairs_map(vocabulary_view(pairs@))
            &&& decoder_view(built.1@) == pairs_decoder(vocabulary_view(pairs@))
        },
{
    let ghost all = vocabulary_view(pairs@);
    let mut table = RankTable::new();
    let mut decoder: HashMap<Rank, Vec<u8>> = HashMap::new();
    let mut i: usize = 0;
    assert(all.take(0) =~= Seq::<(Seq<u8>, Rank)>::empty());
    assert(decoder_view(decoder@) =~= Map::<Rank, Seq<u8>>::empty());
    while i < pairs.len()
        invariant
            i <= pairs.len(),
            all == vocabulary_view(pairs@),
            table.wf(),
            table.keys().len() == i,
            table@ == pairs_map(all.take(i as int)),
            decoder_view(decoder@) == pairs_decoder(all.take(i as int)),
            distinct_keys(all.take(i as int)),
            unique_ranks ==> distinct_ranks(all.take(i as int)),
        decreases pairs.len() - i,
    {
        let ghost seen = all.take(i as int);
        let ghost next = all.take(i + 1);
        let rank = pairs[i].1;
        let key = slice_to_vec(pairs[i].0.as_slice());
        let entry = slice_to_vec(pairs[i].0.as_slice());
        proof {
            lemma_pairs_maps(seen);
            assert(next.drop_last() =~= seen);
            assert(next.last() == all[i as int]);
            assert(all[i as int] == (key@, rank));
        }
        if unique_ranks && decoder.contains_key(&rank) {
            proof {
                assert(pairs_decoder(seen).contains_key(rank));
                let j = choose|j: int| 0 <= j < seen.len() && (#[trigger] seen[j]).1 == rank;
                assert(all[j].1 == all[i as int].1);
            }
            return None;
        }
        assert(unique_ranks ==> !has_rank(seen, rank));
        let added = table.insert(key, rank);
        if !added {
            proof {
                let j = choose|j: int| 0 <= j < seen.len() && (#[trigger] seen[j]).0 == key@;
                assert(all[j].0 == all[i as int].0);
            }
            return None;
        }
        assert(!has_key(seen, all[i as int].0));
        let ghost before = decoder@;
        decoder.insert(rank, entry);
        proof {
            assert(decoder_view(decoder@) =~= decoder_view(before).insert(rank, entry@));
            assert forall|a: int, b: int| 0 <= a < b < next.len() implies (#[trigger] next[a]).0 != (
            #[trigger] next[b]).0 by {
                if b < i {
                    assert(seen[a].0 != seen[b].0);
                } else {
                    assert(seen[a].0 == next[a].0);
                    assert(has_key(seen, next[a].0));
                }
            }
            if unique_ranks {
                assert forall|a: int, b: int| 0 <= a < b < next.len() implies (
                #[trigger] next[a]).1 != (#[trigger] next[b]).1 by {
                    if b < i {
                        assert(seen[a].1 != seen[b].1);
                    } else {
                        assert(seen[a].1 == next[a].1);
                        assert(has_rank(seen, next[a].1));
                    }
                }
            }
        }
        i += 1;
    }
    proof {
        assert(all.take(i as int) =~= all);
    }
    Some((table, decoder))
}

} // verus!
