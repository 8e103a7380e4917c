//! The merge engine: a byte string is cut into tokens by merging, again and
//! again, the adjacent pair of parts whose joined bytes have the lowest
//! rank, the leftmost such pair first.

use crate::table::{Rank, RankTable};
use vstd::pervasive::unreached;
use vstd::prelude::*;
use vstd::slice::slice_subrange;

verus! {

/// Stands in a cached rank for "these bytes are no token". It lies above
/// every rank.
pub const NO_RANK: u64 = 0x1_0000_0000;

/// The rank of `key`, if `ranks` holds it.
pub open spec fn lookup(ranks: Map<Seq<u8>, Rank>, key: Seq<u8>) -> Option<Rank> {
    if ranks.contains_key(key) {
        Some(ranks[key])
    } else {
        None
    }
}

/// A rank as the merge loop caches it.
pub open spec fn cached(r: Option<Rank>) -> u64 {
    match r {
        Some(r) => r as u64,
        None => NO_RANK,
    }
}

/// `bounds` cuts a string of `len` bytes into non-empty parts: it rises
/// strictly from 0 to `len`.
pub open spec fn offsets_ok(bounds: Seq<int>, len: int) -> bool {
    &&& bounds.len() >= 2
    &&& bounds[0] == 0
    &&& bounds[bounds.len() - 1] == len
    &&& forall|i: int, j: int| 0 <= i < j < bounds.len() ==> bounds[i] < bounds[j]
}

/// The rank of the bytes of parts `i` and `i + 1` joined, if there are two
/// such parts and their bytes are a token.
pub open spec fn pair_rank(
    ranks: Map<Seq<u8>, Rank>,
    piece: Seq<u8>,
    bounds: Seq<int>,
    i: int,
) -> Option<Rank> {
    if 0 <= i && i + 2 < bounds.len() {
        lookup(ranks, piece.subrange(bounds[i], bounds[i + 2]))
    } else {
        None
    }
}

/// Pair `i` can be merged and no pair has a lower rank, nor one to its
/// left the same rank.
pub open spec fn is_best_pair(
    ranks: Map<Seq<u8>, Rank>,
    piece: Seq<u8>,
    bounds: Seq<int>,
    i: int,
) -> bool {
    &&& pair_rank(ranks, piece, bounds, i) is Some
    &&& forall|j: int|
        (#[trigger] pair_rank(ranks, piece, bounds, j)) is Some ==> {
            let ri = pair_rank(ranks, piece, bounds, i)->0;
            let rj = pair_rank(ranks, piece, bounds, j)->0;
            ri < rj || (ri == rj && i <= j)
        }
}

/// The boundaries that are left when no pair can be merged any more.
pub open spec fn merge_bounds(ranks: Map<Seq<u8>, Rank>, piece: Seq<u8>, bounds: Seq<int>) -> Seq<
    int,
>
    decreases bounds.len(),
{
    if exists|i: int| is_best_pair(ranks, piece, bounds, i) {
        let i = choose|i: int| is_best_pair(ranks, piece, bounds, i);
        merge_bounds(ranks, piece, bounds.remove(i + 1))
    } else {
        bounds
    }
}

/// The boundaries of the tokens of `piece`: the merge started from one
/// part for each byte.
pub open spec fn merge_offsets(ranks: Map<Seq<u8>, Rank>, piece: Seq<u8>) -> Seq<int> {
    merge_bounds(ranks, piece, Seq::new(piece.len() + 1, |i: int| i))
}

/// Every byte of `piece` is a token by itself.
pub open spec fn bytes_covered(ranks: Map<Seq<u8>, Rank>, piece: Seq<u8>) -> bool {
    forall|i: int| 0 <= i < piece.len() ==> ranks.contains_key(#[trigger] piece.subrange(i, i + 1))
}

/// Every part that `bounds` cuts out of `piece` is a token.
pub open spec fn parts_known(ranks: Map<Seq<u8>, Rank>, piece: Seq<u8>, bounds: Seq<int>) -> bool {
    forall|i: int|
        0 <= i < bounds.len() - 1 ==> ranks.contains_key(
            #[trigger] piece.subrange(bounds[i], bounds[i + 1]),
        )
}

/// The parts that `bounds` cuts out of `piece`.
pub open spec fn split_at_offsets(piece: Seq<u8>, bounds: Seq<int>) -> Seq<Seq<u8>> {
    Seq::new((bounds.len() - 1) as nat, |i: int| piece.subrange(bounds[i], bounds[i + 1]))
}

/// The ranks of the parts that `bounds` cuts out of `piece`.
pub open spec fn ranks_at_offsets(ranks: Map<Seq<u8>, Rank>, piece: Seq<u8>, bounds: Seq<int>) -> Seq<
    Rank,
> {
    Seq::new((bounds.len() - 1) as nat, |i: int| ranks[piece.subrange(bounds[i], bounds[i + 1])])
}

/// The tokens of `piece`, as byte strings.
pub open spec fn spec_byte_pair_split(ranks: Map<Seq<u8>, Rank>, piece: Seq<u8>) -> Seq<Seq<u8>> {
    split_at_offsets(piece, merge_offsets(ranks, piece))
}

/// The tokens of `piece`, as ranks.
pub open spec fn spec_byte_pair_encode(ranks: Map<Seq<u8>, Rank>, piece: Seq<u8>) -> Seq<Rank> {
    ranks_at_offsets(ranks, piece, merge_offsets(ranks, piece))
}

/// The boundaries held in the first fields of `parts`.
pub open spec fn bounds_of(parts: Seq<(usize, u64)>) -> Seq<int> {
    Seq::new(parts.len(), |i: int| parts[i].0 as int)
}

/// The second field of each part is the cached rank of the pair that
/// starts there.
pub open spec fn cache_ok(ranks: Map<Seq<u8>, Rank>, piece: Seq<u8>, parts: Seq<(usize, u64)>) -> bool {
    forall|j: int|
        0 <= j < parts.len() ==> (#[trigger] parts[j]).1 == cached(
            pair_rank(ranks, piece, bounds_of(parts), j),
        )
}

/// `offsets` as mathematical integers.
pub open spec fn offsets_view(offsets: Seq<usize>) -> Seq<int> {
    Seq::new(offsets.len(), |i: int| offsets[i] as int)
}

/// At most one pair is the best.
pub proof fn lemma_best_pair_unique(
    ranks: Map<Seq<u8>, Rank>,
    piece: Seq<u8>,
    bounds: Seq<int>,
    i: int,
    j: int,
)
    requires
        is_best_pair(ranks, piece, bounds, i),
        is_best_pair(ranks, piece, bounds, j),
    ensures
        i == j,
{
}

/// Merging keeps the boundaries rising from 0 to the length, and keeps
/// every part a token if every part was one.
pub proof fn lemma_merge_bounds_ok(ranks: Map<Seq<u8>, Rank>, piece: Seq<u8>, bounds: Seq<int>)
    requires
        offsets_ok(bounds, piece.len() as int),
    ensures
        offsets_ok(merge_bounds(ranks, piece, bounds), piece.len() as int),
        merge_bounds(ranks, piece, bounds).len() <= bounds.len(),
        parts_known(ranks, piece, bounds) ==> parts_known(
            ranks,
            piece,
            merge_bounds(ranks, piece, bounds),
        ),
        forall|i: int| !is_best_pair(ranks, piece, merge_bounds(ranks, piece, bounds), i),
    decreases bounds.len(),
{
    if exists|i: int| is_best_pair(ranks, piece, bounds, i) {
        let i = choose|i: int| is_best_pair(ranks, piece, bounds, i);
        let next = bounds.remove(i + 1);
        lemma_remove_keeps_ok(ranks, piece, bounds, i);
        lemma_merge_bounds_ok(ranks, piece, next);
    }
}

/// Taking out the boundary between the parts of a pair that can be merged
/// keeps the boundaries in order and the parts tokens.
pub proof fn lemma_remove_keeps_ok(
    ranks: Map<Seq<u8>, Rank>,
    piece: Seq<u8>,
    bounds: Seq<int>,
    i: int,
)
    requires
        offsets_ok(bounds, piece.len() as int),
        pair_rank(ranks, piece, bounds, i) is Some,
    ensures
        offsets_ok(bounds.remove(i + 1), piece.len() as int),
        parts_known(ranks, piece, bounds) ==> parts_known(ranks, piece, bounds.remove(i + 1)),
{
    let next = bounds.remove(i + 1);
    assert forall|a: int, b: int| 0 <= a < b < next.len() implies next[a] < next[b] by {
        let a0 = if a <= i { a } else { a + 1 };
        let b0 = if b <= i { b } else { b + 1 };
        assert(next[a] == bounds[a0] && next[b] == bounds[b0]);
    }
    if parts_known(ranks, piece, bounds) {
        assert forall|a: int| 0 <= a < next.len() - 1 implies ranks.contains_key(
            #[trigger] piece.subrange(next[a], next[a + 1]),
        ) by {
            if a < i {
                assert(next[a] == bounds[a] && next[a + 1] == bounds[a + 1]);
                assert(ranks.contains_key(piece.subrange(bounds[a], bounds[a + 1])));
            } else if a == i {
                assert(next[a] == bounds[i] && next[a + 1] == bounds[i + 2]);
            } else {
                let c = a + 1;
                assert(next[a] == bounds[c] && next[a + 1] == bounds[c + 1]);
                assert(ranks.contains_key(piece.subrange(bounds[c], bounds[c + 1])));
            }
        }
    }
}

/// The tokens of a piece whose bytes are all tokens: their boundaries rise
/// from 0 to the length of the piece, and each part is in the table.
pub proof fn lemma_merge_offsets_ok(ranks: Map<Seq<u8>, Rank>, piece: Seq<u8>)
    requires
        piece.len() >= 1,
    ensures
        offsets_ok(merge_offsets(ranks, piece), piece.len() as int),
        merge_offsets(ranks, piece).len() <= piece.len() + 1,
        bytes_covered(ranks, piece) ==> parts_known(ranks, piece, merge_offsets(ranks, piece)),
{
    let start = Seq::new(piece.len() + 1, |i: int| i);
    if bytes_covered(ranks, piece) {
        assert forall|i: int| 0 <= i < start.len() - 1 implies ranks.contains_key(
            #[trigger] piece.subrange(start[i], start[i + 1]),
        ) by {
            assert(ranks.contains_key(piece.subrange(i, i + 1)));
        }
    }
    lemma_merge_bounds_ok(ranks, piece, start);
}

/// The cached rank of the bytes `piece[start..end]`.
fn rank_of_span(ranks: &RankTable, piece: &[u8], start: usize, end: usize) -> (r: u64)
    requires
        ranks.wf(),
        start <= end <= piece.len(),
    ensures
        r == cached(lookup(ranks@, piece@.subrange(start as int, end as int))),
{
    match ranks.get(slice_subrange(piece, start, end)) {
        Some(rank) => rank as u64,
        None => NO_RANK,
    }
}

/// The cached rank that part `i` takes when part `i + 1` is merged into
/// the part before it: that of the bytes from part `i` up to part `i + 3`.
fn rank_after_merge(ranks: &RankTable, piece: &[u8], parts: &Vec<(usize, u64)>, i: usize) -> (r:
    u64)
    requires
        ranks.wf(),
        offsets_ok(bounds_of(parts@), piece.len() as int),
        i < parts.len(),
    ensures
        r == (if i + 3 < parts.len() {
            cached(
                lookup(
                    ranks@,
                    piece@.subrange(bounds_of(parts@)[i as int], bounds_of(parts@)[i + 3]),
                ),
            )
        } else {
            NO_RANK
        }),
{
    if parts.len() >= 3 && i < parts.len() - 3 {
        proof {
            let b = bounds_of(parts@);
            assert(b[i as int] < b[i + 3]);
            assert(b[i + 3] <= b[b.len() - 1]);
        }
        rank_of_span(ranks, piece, parts[i].0, parts[i + 3].0)
    } else {
        NO_RANK
    }
}

/// The place of the lowest cached rank among all parts but the last, the
/// leftmost if several share it, with that rank; `NO_RANK` if no pair can
/// be merged.
fn lowest_pair(parts: &Vec<(usize, u64)>, Ghost(ranks): Ghost<Map<Seq<u8>, Rank>>, Ghost(piece): Ghost<
    Seq<u8>,
>) -> (m: (u64, usize))
    requires
        parts.len() >= 2,
        cache_ok(ranks, piece, parts@),
    ensures
        m.0 == NO_RANK ==> forall|i: int| !is_best_pair(ranks, piece, bounds_of(parts@), i),
        m.0 != NO_RANK ==> is_best_pair(ranks, piece, bounds_of(parts@), m.1 as int),
{
    let mut low: (u64, usize) = (NO_RANK, usize::MAX);
    let mut j: usize = 0;
    let ghost b = bounds_of(parts@);
    while j < parts.len() - 1
        invariant
            parts.len() >= 2,
            j <= parts.len() - 1,
            b == bounds_of(parts@),
            cache_ok(ranks, piece, parts@),
            low.0 <= NO_RANK,
            low.0 == NO_RANK ==> forall|i: int|
                0 <= i < j ==> (#[trigger] pair_rank(ranks, piece, b, i)) is None,
            low.0 != NO_RANK ==> {
                &&& low.1 < j
                &&& pair_rank(ranks, piece, b, low.1 as int) == Some(low.0 as Rank)
                &&& forall|i: int|
                    0 <= i < j && (#[trigger] pair_rank(ranks, piece, b, i)) is Some ==> {
                        let ri = pair_rank(ranks, piece, b, i)->0;
                        low.0 < ri || (low.0 == ri && low.1 <= i)
                    }
            },
        decreases parts.len() - j,
    {
        let rank = parts[j].1;
        assert(parts@[j as int].1 == cached(pair_rank(ranks, piece, b, j as int)));
        if rank < low.0 {
            low = (rank, j);
        }
        j += 1;
    }
    proof {
        if low.0 == NO_RANK {
            assert forall|i: int| !is_best_pair(ranks, piece, b, i) by {
                if pair_rank(ranks, piece, b, i) is Some {
                    assert(0 <= i < j);
                }
            }
        } else {
            assert forall|i: int| (#[trigger] pair_rank(ranks, piece, b, i)) is Some implies {
                let rl = pair_rank(ranks, piece, b, low.1 as int)->0;
                let ri = pair_rank(ranks, piece, b, i)->0;
                rl < ri || (rl == ri && low.1 <= i)
            } by {
                assert(0 <= i < j);
            }
        }
    }
    low
}

/// One step of the merge loop: with the two cached ranks next to the merged
/// pair recomputed and the boundary inside the pair taken out, the cache is
/// again right, and the merge ends where it would have ended before.
proof fn lemma_merge_step(
    ranks: Map<Seq<u8>, Rank>,
    piece: Seq<u8>,
    before: Seq<(usize, u64)>,
    after: Seq<(usize, u64)>,
    i: int,
)
    requires
        offsets_ok(bounds_of(before), piece.len() as int),
        cache_ok(ranks, piece, before),
        is_best_pair(ranks, piece, bounds_of(before), i),
        after.len() == before.len() - 1,
        forall|j: int| 0 <= j <= i ==> (#[trigger] after[j]).0 == before[j].0,
        forall|j: int| i < j < after.len() ==> #[trigger] after[j] == before[j + 1],
        forall|j: int| 0 <= j < i - 1 ==> #[trigger] after[j] == before[j],
        i > 0 ==> after[i - 1].1 == cached(
            lookup(ranks, piece.subrange(bounds_of(before)[i - 1], bounds_of(before)[i + 2])),
        ),
        after[i].1 == (if i + 3 < before.len() {
            cached(lookup(ranks, piece.subrange(bounds_of(before)[i], bounds_of(before)[i + 3])))
        } else {
            NO_RANK
        }),
    ensures
        bounds_of(after) == bounds_of(before).remove(i + 1),
        offsets_ok(bounds_of(after), piece.len() as int),
        cache_ok(ranks, piece, after),
        merge_bounds(ranks, piece, bounds_of(after)) == merge_bounds(
            ranks,
            piece,
            bounds_of(before),
        ),
{
    let b = bounds_of(before);
    let next = b.remove(i + 1);
    assert(bounds_of(after) =~= next) by {
        assert forall|j: int| 0 <= j < after.len() implies bounds_of(after)[j] == next[j] by {
            if j <= i {
                assert(after[j].0 == before[j].0);
            } else {
                assert(after[j] == before[j + 1]);
            }
        }
    }
    lemma_remove_keeps_ok(ranks, piece, b, i);
    let c = choose|c: int| is_best_pair(ranks, piece, b, c);
    lemma_best_pair_unique(ranks, piece, b, c, i);
    assert forall|j: int| 0 <= j < after.len() implies (#[trigger] after[j]).1 == cached(
        pair_rank(ranks, piece, next, j),
    ) by {
        if j < i - 1 {
            assert(after[j] == before[j]);
            assert(before[j].1 == cached(pair_rank(ranks, piece, b, j)));
            assert(next[j] == b[j] && next[j + 2] == b[j + 2]);
        } else if j == i - 1 {
            assert(next[j] == b[j] && next[j + 2] == b[j + 3]);
        } else if j == i {
            assert(next[j] == b[j]);
            if j + 2 < next.len() {
                assert(next[j + 2] == b[j + 3]);
            }
        } else {
            let k = j + 1;
            assert(after[j] == before[k]);
            assert(before[k].1 == cached(pair_rank(ranks, piece, b, k)));
            assert(next[j] == b[k]);
            if j + 2 < next.len() {
                assert(next[j + 2] == b[k + 2]);
            }
        }
    }
}

/// Merges parts `i` and `i + 1`: recomputes the cached ranks of parts
/// `i - 1` and `i`, then takes part `i + 1` out.
#[verifier::rlimit(50)]
fn merge_pair(ranks: &RankTable, piece: &[u8], parts: &mut Vec<(usize, u64)>, i: usize)
    requires
        ranks.wf(),
        offsets_ok(bounds_of(old(parts)@), piece.len() as int),
        cache_ok(ranks@, piece@, old(parts)@),
        is_best_pair(ranks@, piece@, bounds_of(old(parts)@), i as int),
    ensures
        final(parts).len() == old(parts).len() - 1,
        offsets_ok(bounds_of(final(parts)@), piece.len() as int),
        cache_ok(ranks@, piece@, final(parts)@),
        merge_bounds(ranks@, piece@, bounds_of(final(parts)@)) == merge_bounds(
            ranks@,
            piece@,
            bounds_of(old(parts)@),
        ),
{
    let ghost before = parts@;
    let prev: u64 = if i > 0 {
        rank_after_merge(ranks, piece, parts, i - 1)
    } else {
        NO_RANK
    };
    let here: u64 = rank_after_merge(ranks, piece, parts, i);
    if i > 0 {
        let start = parts[i - 1].0;
        parts.set(i - 1, (start, prev));
    }
    let start = parts[i].0;
    parts.set(i, (start, here));
    parts.remove(i + 1);
    proof {
        lemma_merge_step(ranks@, piece@, before, parts@, i as int);
    }
}

/// Cuts `piece` into tokens and returns their boundaries, from 0 to the
/// length of `piece`.
pub fn _byte_pair_merge(ranks: &RankTable, piece: &[u8]) -> (offsets: Vec<usize>)
    requires
        ranks.wf(),
        piece.len() > 1,
    ensures
        offsets_view(offsets@) == merge_offsets(ranks@, piece@),
        offsets_ok(offsets_view(offsets@), piece.len() as int),
        bytes_covered(ranks@, piece@) ==> parts_known(ranks@, piece@, offsets_view(offsets@)),
{
    let n = piece.len();
    let mut parts: Vec<(usize, u64)> = Vec::with_capacity(n);
    let mut i: usize = 0;
    while i < n - 1
        invariant
            ranks.wf(),
            n == piece.len(),
            1 < n,
            i <= n - 1,
            parts.len() == i,
            forall|j: int|
                0 <= j < i ==> (#[trigger] parts@[j]) == (
                    j as usize,
                    cached(lookup(ranks@, piece@.subrange(j, j + 2))),
                ),
        decreases n - i,
    {
        let rank = rank_of_span(ranks, piece, i, i + 2);
        parts.push((i, rank));
        i += 1;
    }
    parts.push((n - 1, NO_RANK));
    parts.push((n, NO_RANK));
    let ghost start = Seq::new(piece@.len() + 1, |i: int| i);
    proof {
        assert(bounds_of(parts@) =~= start);
    }
    let mut low = lowest_pair(&parts, Ghost(ranks@), Ghost(piece@));
    while low.0 != NO_RANK
        invariant
            ranks.wf(),
            n == piece.len(),
            parts.len() >= 2,
            offsets_ok(bounds_of(parts@), n as int),
            cache_ok(ranks@, piece@, parts@),
            merge_bounds(ranks@, piece@, bounds_of(parts@)) == merge_offsets(ranks@, piece@),
            low.0 == NO_RANK ==> forall|i: int|
                !is_best_pair(ranks@, piece@, bounds_of(parts@), i),
            low.0 != NO_RANK ==> is_best_pair(ranks@, piece@, bounds_of(parts@), low.1 as int),
        decreases parts.len(),
    {
        merge_pair(ranks, piece, &mut parts, low.1);
        low = lowest_pair(&parts, Ghost(ranks@), Ghost(piece@));
    }
    let mut offsets: Vec<usize> = Vec::with_capacity(parts.len());
    let mut k: usize = 0;
    while k < parts.len()
        invariant
            k <= parts.len(),
            offsets.len() == k,
            forall|j: int| 0 <= j < k ==> offsets@[j] == parts@[j].0,
        decreases parts.len() - k,
    {
        offsets.push(parts[k].0);
        k += 1;
    }
    proof {
        assert(offsets_view(offsets@) =~= bounds_of(parts@));
        lemma_merge_offsets_ok(ranks@, piece@);
    }
    offsets
}

/// The tokens of `piece` as ranks. Every byte of `piece` must be a token
/// by itself, so that each part the merge leaves is one.
pub fn byte_pair_encode(piece: &[u8], ranks: &RankTable) -> (tokens: Vec<Rank>)
    requires
        ranks.wf(),
        piece.len() > 1,
        bytes_covered(ranks@, piece@),
    ensures
        tokens@ == spec_byte_pair_encode(ranks@, piece@),
{
    let offsets = _byte_pair_merge(ranks, piece);
    let ghost b = offsets_view(offsets@);
    let mut tokens: Vec<Rank> = Vec::with_capacity(offsets.len() - 1);
    let mut i: usize = 0;
    while i < offsets.len() - 1
        invariant
            ranks.wf(),
            b == offsets_view(offsets@),
            offsets_ok(b, piece.len() as int),
            parts_known(ranks@, piece@, b),
            i <= offsets.len() - 1,
            tokens.len() == i,
            forall|j: int|
                0 <= j < i ==> tokens@[j] == ranks@[piece@.subrange(b[j], b[j + 1])],
        decreases offsets.len() - i,
    {
        proof {
            assert(b[i as int] < b[i + 1]);
            assert(b[i + 1] <= b[b.len() - 1]);
            assert(ranks@.contains_key(piece@.subrange(b[i as int], b[i + 1])));
        }
        let part = slice_subrange(piece, offsets[i], offsets[i + 1]);
        match ranks.get(part) {
            Some(rank) => tokens.push(rank),
            None => unreached(),
        }
        i += 1;
    }
    assert(tokens@ =~= spec_byte_pair_encode(ranks@, piece@));
    tokens
}

/// The tokens of `piece` as byte strings.
pub fn byte_pair_split<'a>(piece: &'a [u8], ranks: &RankTable) -> (parts: Vec<&'a [u8]>)
    requires
        ranks.wf(),
        piece.len() > 1,
    ensures
        parts@.len() == spec_byte_pair_split(ranks@, piece@).len(),
        forall|i: int|
            0 <= i < parts@.len() ==> (#[trigger] parts@[i])@ == spec_byte_pair_split(
                ranks@,
                piece@,
            )[i],
{
    let offsets = _byte_pair_merge(ranks, piece);
    let ghost b = offsets_view(offsets@);
    let mut parts: Vec<&'a [u8]> = Vec::with_capacity(offsets.len() - 1);
    let mut i: usize = 0;
    while i < offsets.len() - 1
        invariant
            b == offsets_view(offsets@),
            offsets_ok(b, piece.len() as int),
            i <= offsets.len() - 1,
            parts.len() == i,
            forall|j: int|
                0 <= j < i ==> (#[trigger] parts@[j])@ == piece@.subrange(b[j], b[j + 1]),
        decreases offsets.len() - i,
    {
        proof {
            assert(b[i as int] < b[i + 1]);
            assert(b[i + 1] <= b[b.len() - 1]);
        }
        parts.push(slice_subrange(piece, offsets[i], offsets[i + 1]));
        i += 1;
    }
    parts
}

} // verus!
