//! Lexicographic order and prefix tests on byte strings.

use vstd::prelude::*;

verus! {

/// `k` is the place where `a` runs out or first falls below `b`, with the
/// two strings equal before it.
pub open spec fn lex_lt_at(a: Seq<u8>, b: Seq<u8>, k: int) -> bool {
    &&& 0 <= k <= a.len()
    &&& k < b.len()
    &&& forall|j: int| 0 <= j < k ==> a[j] == b[j]
    &&& (k == a.len() || a[k] < b[k])
}

/// Strict lexicographic order on byte strings: `a` is a proper prefix of
/// `b`, or holds the smaller byte at the first place where they differ.
pub open spec fn lex_lt(a: Seq<u8>, b: Seq<u8>) -> bool {
    exists|k: int| lex_lt_at(a, b, k)
}

/// `a` and `b` are equal on their first `n` bytes.
pub open spec fn agree_upto(a: Seq<u8>, b: Seq<u8>, n: int) -> bool {
    forall|j: int| 0 <= j < n ==> a[j] == b[j]
}

/// `p` is a prefix of `s`.
pub open spec fn starts_with(s: Seq<u8>, p: Seq<u8>) -> bool {
    p.len() <= s.len() && agree_upto(s, p, p.len() as int)
}

/// The strings in `keys` are in strictly increasing lexicographic order.
pub open spec fn strictly_sorted(keys: Seq<Seq<u8>>) -> bool {
    forall|i: int, j: int| 0 <= i < j < keys.len() ==> lex_lt(#[trigger] keys[i], #[trigger] keys[j])
}

pub proof fn lemma_lex_irreflexive(a: Seq<u8>)
    ensures
        !lex_lt(a, a),
{
}

pub proof fn lemma_lex_transitive(a: Seq<u8>, b: Seq<u8>, c: Seq<u8>)
    requires
        lex_lt(a, b),
        lex_lt(b, c),
    ensures
        lex_lt(a, c),
{
    let k = choose|k: int| lex_lt_at(a, b, k);
    let m = choose|m: int| lex_lt_at(b, c, m);
    let n = if k <= m { k } else { m };
    assert forall|j: int| 0 <= j < n implies a[j] == c[j] by {
        assert(a[j] == b[j]);
        assert(b[j] == c[j]);
    }
    if k < m {
        assert(b[k] == c[k]);
    } else if m < k {
        assert(a[m] == b[m]);
    }
    assert(lex_lt_at(a, c, n));
}

/// Two byte strings that agree on their first `n` bytes, where `n` is the
/// length of the shorter, are ordered by length.
pub proof fn lemma_lex_by_length(a: Seq<u8>, b: Seq<u8>)
    requires
        a.len() <= b.len(),
        agree_upto(a, b, a.len() as int),
    ensures
        lex_lt(a, b) <==> a.len() < b.len(),
        !lex_lt(b, a),
        a.len() == b.len() ==> a == b,
{
    let n = a.len() as int;
    if a.len() < b.len() {
        assert(lex_lt_at(a, b, n));
    } else {
        assert(a =~= b);
    }
    if lex_lt(b, a) {
        let m = choose|m: int| lex_lt_at(b, a, m);
        assert(a[m] == b[m]);
    }
    if lex_lt(a, b) && a.len() == b.len() {
        let k = choose|k: int| lex_lt_at(a, b, k);
        assert(a[k] == b[k]);
    }
}

/// Two byte strings that first differ at place `i` are ordered by the
/// bytes at that place.
pub proof fn lemma_lex_by_first_difference(a: Seq<u8>, b: Seq<u8>, i: int)
    requires
        0 <= i < a.len(),
        i < b.len(),
        agree_upto(a, b, i),
        a[i] != b[i],
    ensures
        lex_lt(a, b) <==> a[i] < b[i],
        lex_lt(b, a) <==> b[i] < a[i],
{
    if a[i] < b[i] {
        assert(lex_lt_at(a, b, i));
    } else {
        assert(lex_lt_at(b, a, i));
    }
    if lex_lt(a, b) {
        let k = choose|k: int| lex_lt_at(a, b, k);
        if k < i {
            assert(a[k] == b[k]);
        } else if i < k {
            assert(a[i] == b[i]);
        }
    }
    if lex_lt(b, a) {
        let k = choose|k: int| lex_lt_at(b, a, k);
        if k < i {
            assert(a[k] == b[k]);
        } else if i < k {
            assert(b[i] == a[i]);
        }
    }
}

/// Of two byte strings, one is below the other or they are equal.
pub proof fn lemma_lex_total(a: Seq<u8>, b: Seq<u8>)
    ensures
        lex_lt(a, b) || lex_lt(b, a) || a == b,
{
    let n = if a.len() <= b.len() { a.len() as int } else { b.len() as int };
    if agree_upto(a, b, n) {
        if a.len() <= b.len() {
            lemma_lex_by_length(a, b);
        } else {
            assert(agree_upto(b, a, n));
            lemma_lex_by_length(b, a);
        }
    } else {
        let i = first_difference(a, b, n);
        lemma_first_difference(a, b, n);
        lemma_lex_by_first_difference(a, b, i);
    }
}

/// The first place below `n` where `a` and `b` differ, or `n` if there is
/// none.
pub open spec fn first_difference(a: Seq<u8>, b: Seq<u8>, n: int) -> int
    decreases n,
{
    if n <= 0 {
        0
    } else {
        let i = first_difference(a, b, n - 1);
        if i < n - 1 {
            i
        } else if a[n - 1] != b[n - 1] {
            n - 1
        } else {
            n
        }
    }
}

pub proof fn lemma_first_difference(a: Seq<u8>, b: Seq<u8>, n: int)
    requires
        0 <= n,
    ensures
        0 <= first_difference(a, b, n) <= n,
        agree_upto(a, b, first_difference(a, b, n)),
        first_difference(a, b, n) < n ==> a[first_difference(a, b, n)] != b[first_difference(
            a,
            b,
            n,
        )],
    decreases n,
{
    if n > 0 {
        lemma_first_difference(a, b, n - 1);
    }
}

/// A string is never below one of its prefixes.
pub proof fn lemma_prefix_not_above(s: Seq<u8>, p: Seq<u8>)
    requires
        starts_with(s, p),
    ensures
        !lex_lt(s, p),
{
    assert(agree_upto(p, s, p.len() as int));
    lemma_lex_by_length(p, s);
}

/// Once a string at or above `p` fails to start with `p`, no string above
/// it starts with `p` either.
pub proof fn lemma_prefix_range_closed(p: Seq<u8>, s: Seq<u8>, t: Seq<u8>)
    requires
        !lex_lt(s, p),
        !starts_with(s, p),
        lex_lt(s, t),
    ensures
        !starts_with(t, p),
{
    let n = if s.len() <= p.len() { s.len() as int } else { p.len() as int };
    lemma_first_difference(s, p, n);
    let i = first_difference(s, p, n);
    if i == n {
        if s.len() <= p.len() {
            lemma_lex_by_length(s, p);
            assert(s == p);
            assert(starts_with(s, p));
        } else {
            assert(starts_with(s, p));
        }
    } else {
        lemma_lex_by_first_difference(s, p, i);
        assert(p[i] < s[i]);
        let k = choose|k: int| lex_lt_at(s, t, k);
        if starts_with(t, p) {
            if k < i {
                assert(s[k] == p[k]);
                assert(t[k] == p[k]);
            } else if k == i {
                assert(t[i] == p[i]);
            } else {
                assert(s[i] == t[i]);
                assert(t[i] == p[i]);
            }
        }
    }
}

/// Tells whether `a` is below `b` in lexicographic order.
pub fn bytes_lt(a: &[u8], b: &[u8]) -> (r: bool)
    ensures
        r == lex_lt(a@, b@),
{
    let mut i: usize = 0;
    while i < a.len() && i < b.len()
        invariant
            i <= a.len(),
            i <= b.len(),
            agree_upto(a@, b@, i as int),
        decreases a.len() - i,
    {
        if a[i] != b[i] {
            proof {
                lemma_lex_by_first_difference(a@, b@, i as int);
            }
            return a[i] < b[i];
        }
        i += 1;
    }
    proof {
        if a.len() <= b.len() {
            lemma_lex_by_length(a@, b@);
        } else {
            assert(agree_upto(b@, a@, b.len() as int));
            lemma_lex_by_length(b@, a@);
        }
    }
    a.len() < b.len()
}

/// Tells whether two byte strings are equal.
pub fn bytes_eq(a: &[u8], b: &[u8]) -> (r: bool)
    ensures
        r == (a@ == b@),
{
    if a.len() != b.len() {
        return false;
    }
    let mut i: usize = 0;
    while i < a.len()
        invariant
            i <= a.len(),
            a.len() == b.len(),
            agree_upto(a@, b@, i as int),
        decreases a.len() - i,
    {
        if a[i] != b[i] {
            return false;
        }
        i += 1;
    }
    assert(a@ =~= b@);
    true
}

/// Tells whether `s` begins with `p`.
pub fn bytes_start_with(s: &[u8], p: &[u8]) -> (r: bool)
    ensures
        r == starts_with(s@, p@),
{
    if p.len() > s.len() {
        return false;
    }
    let mut i: usize = 0;
    while i < p.len()
        invariant
            i <= p.len(),
            p.len() <= s.len(),
            agree_upto(s@, p@, i as int),
        decreases p.len() - i,
    {
        if s[i] != p[i] {
            return false;
        }
        i += 1;
    }
    true
}

/// Appends the bytes of `src` to `out`.
pub fn append_bytes(out: &mut Vec<u8>, src: &[u8])
    ensures
        final(out)@ == old(out)@ + src@,
{
    let mut i: usize = 0;
    while i < src.len()
        invariant
            i <= src.len(),
            out@ == old(out)@ + src@.take(i as int),
        decreases src.len() - i,
    {
        out.push(src[i]);
        i += 1;
        assert(src@.take(i as int) =~= src@.take(i - 1).push(src@[i - 1]));
    }
    assert(src@.take(i as int) =~= src@);
}

} // verus!
