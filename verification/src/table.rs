//! A rank table: byte strings mapped to token ranks, kept in lexicographic
//! order of the byte strings so that lookups can halve the range.

use crate::bytes::{
    bytes_eq, bytes_lt, lemma_lex_irreflexive, lemma_lex_total, lemma_lex_transitive, lex_lt,
    strictly_sorted,
};
use vstd::prelude::*;

verus! {

/// The integer that names a token. A lower rank merges earlier.
pub type Rank = u32;

/// Byte strings with their ranks, in strictly increasing order of the byte
/// strings.
pub struct RankTable {
    keys: Vec<Vec<u8>>,
    ranks: Vec<Rank>,
}

/// Some place of `keys` that holds `k`.
pub open spec fn index_of(keys: Seq<Seq<u8>>, k: Seq<u8>) -> int {
    choose|i: int| 0 <= i < keys.len() && keys[i] == k
}

/// The mapping that sends each of `keys` to the rank at its place.
pub open spec fn table_map(keys: Seq<Seq<u8>>, ranks: Seq<Rank>) -> Map<Seq<u8>, Rank> {
    Map::new(
        |k: Seq<u8>| exists|i: int| 0 <= i < keys.len() && keys[i] == k,
        |k: Seq<u8>| ranks[index_of(keys, k)],
    )
}

/// In a strictly sorted sequence, a place is known by what it holds.
pub proof fn lemma_sorted_distinct(keys: Seq<Seq<u8>>, i: int, j: int)
    requires
        strictly_sorted(keys),
        0 <= i < keys.len(),
        0 <= j < keys.len(),
        keys[i] == keys[j],
    ensures
        i == j,
{
    lemma_lex_irreflexive(keys[i]);
}

/// Each key of a strictly sorted table maps to the rank at its own place.
pub proof fn lemma_table_map_at(keys: Seq<Seq<u8>>, ranks: Seq<Rank>, i: int)
    requires
        strictly_sorted(keys),
        0 <= i < keys.len(),
    ensures
        table_map(keys, ranks).contains_key(keys[i]),
        table_map(keys, ranks)[keys[i]] == ranks[i],
{
    lemma_sorted_distinct(keys, i, index_of(keys, keys[i]));
}

impl RankTable {
    /// The byte strings of the table, in table order.
    pub closed spec fn keys(&self) -> Seq<Seq<u8>> {
        Seq::new(self.keys@.len(), |i: int| self.keys@[i]@)
    }

    /// The ranks of the table, each at the place of its byte string.
    pub closed spec fn ranks(&self) -> Seq<Rank> {
        self.ranks@
    }

    /// The table holds one rank for each byte string and is strictly sorted.
    pub open spec fn wf(&self) -> bool {
        &&& self.keys().len() == self.ranks().len()
        &&& strictly_sorted(self.keys())
    }

    /// The table as a mapping from byte string to rank.
    pub open spec fn view(&self) -> Map<Seq<u8>, Rank> {
        table_map(self.keys(), self.ranks())
    }

    /// An empty table.
    pub fn new() -> (t: RankTable)
        ensures
            t.wf(),
            t.keys() == Seq::<Seq<u8>>::empty(),
            t.ranks() == Seq::<Rank>::empty(),
            t.view() == Map::<Seq<u8>, Rank>::empty(),
    {
        let t = RankTable { keys: Vec::new(), ranks: Vec::new() };
        assert(t.keys() =~= Seq::<Seq<u8>>::empty());
        assert(t.view() =~= Map::<Seq<u8>, Rank>::empty());
        t
    }

    /// The number of entries.
    pub fn len(&self) -> (n: usize)
        requires
            self.wf(),
        ensures
            n == self.keys().len(),
    {
        self.keys.len()
    }

    /// The byte string at place `i`.
    pub fn key_at(&self, i: usize) -> (k: &[u8])
        requires
            self.wf(),
            i < self.keys().len(),
        ensures
            k@ == self.keys()[i as int],
    {
        self.keys[i].as_slice()
    }

    /// The rank at place `i`.
    pub fn rank_at(&self, i: usize) -> (r: Rank)
        requires
            self.wf(),
            i < self.keys().len(),
        ensures
            r == self.ranks()[i as int],
            self.view().contains_key(self.keys()[i as int]),
            r == self.view()[self.keys()[i as int]],
    {
        proof {
            lemma_table_map_at(self.keys(), self.ranks(), i as int);
        }
        self.ranks[i]
    }

    /// The first place whose byte string is not below `key`; the number of
    /// entries if there is none.
    pub fn lower_bound(&self, key: &[u8]) -> (p: usize)
        requires
            self.wf(),
        ensures
            p <= self.keys().len(),
            forall|i: int| 0 <= i < p ==> lex_lt(#[trigger] self.keys()[i], key@),
            forall|i: int| p <= i < self.keys().len() ==> !lex_lt(#[trigger] self.keys()[i], key@),
    {
        let mut lo: usize = 0;
        let mut hi: usize = self.keys.len();
        while lo < hi
            invariant
                self.wf(),
                lo <= hi <= self.keys().len(),
                self.keys().len() == self.keys@.len(),
                forall|i: int| 0 <= i < lo ==> lex_lt(#[trigger] self.keys()[i], key@),
                forall|i: int| hi <= i < self.keys().len() ==> !lex_lt(#[trigger] self.keys()[i], key@),
            decreases hi - lo,
        {
            let mid = lo + (hi - lo) / 2;
            if bytes_lt(self.keys[mid].as_slice(), key) {
                proof {
                    let km = self.keys()[mid as int];
                    assert forall|i: int| 0 <= i < mid + 1 implies lex_lt(
                        #[trigger] self.keys()[i],
                        key@,
                    ) by {
                        if i < mid {
                            lemma_lex_transitive(self.keys()[i], km, key@);
                        }
                    }
                }
                lo = mid + 1;
            } else {
                proof {
                    let km = self.keys()[mid as int];
                    assert forall|i: int| mid <= i < self.keys().len() implies !lex_lt(
                        #[trigger] self.keys()[i],
                        key@,
                    ) by {
                        if i > mid && lex_lt(self.keys()[i], key@) {
                            lemma_lex_transitive(km, self.keys()[i], key@);
                        }
                    }
                }
                hi = mid;
            }
        }
        lo
    }

    /// The rank of `key`, if the table holds it.
    pub fn get(&self, key: &[u8]) -> (r: Option<Rank>)
        requires
            self.wf(),
        ensures
            r == (if self.view().contains_key(key@) {
                Some(self.view()[key@])
            } else {
                None
            }),
    {
        let p = self.lower_bound(key);
        if p < self.keys.len() && bytes_eq(self.keys[p].as_slice(), key) {
            proof {
                lemma_table_map_at(self.keys(), self.ranks(), p as int);
            }
            Some(self.ranks[p])
        } else {
            proof {
                self.lemma_absent(key@, p as int);
            }
            None
        }
    }

    /// Tells whether the table holds `key`.
    pub fn contains(&self, key: &[u8]) -> (b: bool)
        requires
            self.wf(),
        ensures
            b == self.view().contains_key(key@),
    {
        self.get(key).is_some()
    }

    /// A key that is not at its lower bound is nowhere in the table.
    proof fn lemma_absent(&self, key: Seq<u8>, p: int)
        requires
            self.wf(),
            0 <= p <= self.keys().len(),
            forall|i: int| 0 <= i < p ==> lex_lt(#[trigger] self.keys()[i], key),
            forall|i: int| p <= i < self.keys().len() ==> !lex_lt(#[trigger] self.keys()[i], key),
            p < self.keys().len() ==> self.keys()[p] != key,
        ensures
            forall|i: int| 0 <= i < self.keys().len() ==> self.keys()[i] != key,
            !self.view().contains_key(key),
    {
        assert forall|i: int| 0 <= i < self.keys().len() implies self.keys()[i] != key by {
            if self.keys()[i] == key {
                if i < p {
                    assert(lex_lt(self.keys()[i], key));
                    lemma_lex_irreflexive(key);
                } else if i > p {
                    let kp = self.keys()[p];
                    assert(lex_lt(kp, self.keys()[i]));
                    assert(!lex_lt(kp, key));
                }
            }
        }
    }

    /// Adds `key` with `rank` unless the table holds `key` already, and
    /// tells whether it was added.
    pub fn insert(&mut self, key: Vec<u8>, rank: Rank) -> (added: bool)
        requires
            old(self).wf(),
        ensures
            final(self).wf(),
            added == !old(self).view().contains_key(key@),
            added ==> final(self).view() == old(self).view().insert(key@, rank),
            added ==> exists|p: int|
                0 <= p <= old(self).keys().len() && final(self).keys() == old(self).keys().insert(
                    p,
                    key@,
                ) && final(self).ranks() == old(self).ranks().insert(p, rank),
            !added ==> *final(self) == *old(self),
    {
        let p = self.lower_bound(key.as_slice());
        if p < self.keys.len() && bytes_eq(self.keys[p].as_slice(), key.as_slice()) {
            proof {
                lemma_table_map_at(self.keys(), self.ranks(), p as int);
            }
            return false;
        }
        proof {
            self.lemma_absent(key@, p as int);
        }
        let ghost old_keys = self.keys();
        let ghost old_ranks = self.ranks();
        let ghost k = key@;
        self.keys.insert(p, key);
        self.ranks.insert(p, rank);
        proof {
            let new_keys = self.keys();
            let new_ranks = self.ranks();
            assert(new_keys =~= old_keys.insert(p as int, k));
            assert(new_ranks =~= old_ranks.insert(p as int, rank));
            lemma_insert_sorted(old_keys, old_ranks, p as int, k, rank);
        }
        true
    }
}

/// Putting an absent key at its lower bound keeps the table sorted and adds
/// one pair to its mapping.
pub proof fn lemma_insert_sorted(
    keys: Seq<Seq<u8>>,
    ranks: Seq<Rank>,
    p: int,
    k: Seq<u8>,
    rank: Rank,
)
    requires
        strictly_sorted(keys),
        keys.len() == ranks.len(),
        0 <= p <= keys.len(),
        forall|i: int| 0 <= i < p ==> lex_lt(#[trigger] keys[i], k),
        forall|i: int| p <= i < keys.len() ==> !lex_lt(#[trigger] keys[i], k),
        forall|i: int| 0 <= i < keys.len() ==> keys[i] != k,
    ensures
        strictly_sorted(keys.insert(p, k)),
        table_map(keys.insert(p, k), ranks.insert(p, rank)) == table_map(keys, ranks).insert(
            k,
            rank,
        ),
{
    let nk = keys.insert(p, k);
    let nr = ranks.insert(p, rank);
    assert forall|i: int, j: int| 0 <= i < j < nk.len() implies lex_lt(
        #[trigger] nk[i],
        #[trigger] nk[j],
    ) by {
        if j < p {
            assert(nk[i] == keys[i] && nk[j] == keys[j]);
        } else if j == p {
            assert(nk[i] == keys[i]);
        } else if i < p {
            assert(nk[i] == keys[i] && nk[j] == keys[j - 1]);
            lemma_lex_total(keys[j - 1], k);
            lemma_lex_transitive(keys[i], k, keys[j - 1]);
        } else if i == p {
            assert(nk[j] == keys[j - 1]);
            lemma_lex_total(keys[j - 1], k);
        } else {
            assert(nk[i] == keys[i - 1] && nk[j] == keys[j - 1]);
        }
    }
    let a = table_map(nk, nr);
    let b = table_map(keys, ranks).insert(k, rank);
    assert forall|x: Seq<u8>| a.contains_key(x) <==> b.contains_key(x) by {
        if a.contains_key(x) {
            let i = choose|i: int| 0 <= i < nk.len() && nk[i] == x;
            if i < p {
                assert(keys[i] == x);
            } else if i > p {
                assert(keys[i - 1] == x);
            }
        }
        if b.contains_key(x) {
            if x == k {
                assert(nk[p] == x);
            } else {
                let i = choose|i: int| 0 <= i < keys.len() && keys[i] == x;
                if i < p {
                    assert(nk[i] == x);
                } else {
                    assert(nk[i + 1] == x);
                }
            }
        }
    }
    assert forall|x: Seq<u8>| a.contains_key(x) implies a[x] == b[x] by {
        let i = choose|i: int| 0 <= i < nk.len() && nk[i] == x;
        lemma_table_map_at(nk, nr, i);
        if i < p {
            lemma_table_map_at(keys, ranks, i);
        } else if i > p {
            lemma_table_map_at(keys, ranks, i - 1);
        }
    }
    assert(a =~= b);
}

} // verus!
