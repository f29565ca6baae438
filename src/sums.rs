//! Finite sums over integer ranges and over sequences of indices.

use vstd::prelude::*;

verus! {

/// `w(0) + w(1) + ... + w(k - 1)`.
pub open spec fn range_sum(k: int, w: spec_fn(int) -> int) -> int
    decreases k,
{
    if k <= 0 {
        0
    } else {
        range_sum(k - 1, w) + w(k - 1)
    }
}

/// The sum of `w` over the entries of `s`.
pub open spec fn seq_sum(s: Seq<usize>, w: spec_fn(int) -> int) -> int
    decreases s.len(),
{
    if s.len() == 0 {
        0
    } else {
        seq_sum(s.drop_last(), w) + w(s.last() as int)
    }
}

pub proof fn lemma_range_sum_ext(k: int, f: spec_fn(int) -> int, g: spec_fn(int) -> int)
    requires
        forall|x: int| 0 <= x < k ==> #[trigger] f(x) == g(x),
    ensures
        range_sum(k, f) == range_sum(k, g),
    decreases k,
{
    if k > 0 {
        lemma_range_sum_ext(k - 1, f, g);
    }
}

pub proof fn lemma_range_sum_mono(k: int, f: spec_fn(int) -> int, g: spec_fn(int) -> int)
    requires
        forall|x: int| 0 <= x < k ==> #[trigger] f(x) <= g(x),
    ensures
        range_sum(k, f) <= range_sum(k, g),
    decreases k,
{
    if k > 0 {
        lemma_range_sum_mono(k - 1, f, g);
    }
}

/// A sum of non-negative terms grows with its range.
pub proof fn lemma_range_sum_prefix(j: int, k: int, f: spec_fn(int) -> int)
    requires
        0 <= j <= k,
        forall|x: int| 0 <= x < k ==> #[trigger] f(x) >= 0,
    ensures
        0 <= range_sum(j, f) <= range_sum(k, f),
    decreases k,
{
    if j < k {
        lemma_range_sum_prefix(j, k - 1, f);
    } else if k > 0 {
        lemma_range_sum_prefix(j - 1, k - 1, f);
    }
}

/// Raising one term by `d` raises the sum by `d`, if the term is in range.
pub proof fn lemma_range_sum_bump(
    k: int,
    f: spec_fn(int) -> int,
    g: spec_fn(int) -> int,
    y: int,
    d: int,
)
    requires
        forall|x: int| 0 <= x < k ==> #[trigger] f(x) == g(x) + if x == y { d } else { 0 },
    ensures
        range_sum(k, f) == range_sum(k, g) + if 0 <= y < k { d } else { 0 },
    decreases k,
{
    if k > 0 {
        lemma_range_sum_bump(k - 1, f, g, y, d);
    }
}

pub proof fn lemma_range_sum_ones(k: int)
    requires
        0 <= k,
    ensures
        range_sum(k, |x: int| 1int) == k,
    decreases k,
{
    if k > 0 {
        lemma_range_sum_ones(k - 1);
    }
}

pub proof fn lemma_seq_sum_ones(s: Seq<usize>)
    ensures
        seq_sum(s, |x: int| 1int) == s.len(),
    decreases s.len(),
{
    if s.len() > 0 {
        lemma_seq_sum_ones(s.drop_last());
    }
}

/// Over a sequence of distinct indices below `n`, a sum equals the sum over
/// the range `0..n` restricted to the sequence's members.
pub proof fn lemma_seq_sum_as_range(s: Seq<usize>, n: int, w: spec_fn(int) -> int)
    requires
        n <= usize::MAX,
        s.no_duplicates(),
        forall|j: int| 0 <= j < s.len() ==> #[trigger] s[j] < n,
    ensures
        seq_sum(s, w) == range_sum(
            n,
            |x: int|
                if 0 <= x && s.contains(x as usize) {
                    w(x)
                } else {
                    0
                },
        ),
    decreases s.len(),
{
    let f = |x: int|
        if 0 <= x && s.contains(x as usize) {
            w(x)
        } else {
            0
        };
    if s.len() == 0 {
        lemma_range_sum_ext(n, f, |x: int| 0int);
        lemma_range_sum_zero(n);
    } else {
        let p = s.drop_last();
        let y = s.last();
        assert forall|j: int| 0 <= j < p.len() implies #[trigger] p[j] < n by {
            assert(p[j] == s[j]);
        }
        lemma_seq_sum_as_range(p, n, w);
        let g = |x: int|
            if 0 <= x && p.contains(x as usize) {
                w(x)
            } else {
                0
            };
        assert(!p.contains(y)) by {
            if p.contains(y) {
                let j = choose|j: int| 0 <= j < p.len() && p[j] == y;
                assert(s[j] == s[s.len() - 1]);
            }
        }
        assert(s[s.len() - 1] < n);
        assert forall|x: int| 0 <= x < n implies #[trigger] f(x) == g(x) + if x == y as int {
            w(y as int)
        } else {
            0
        } by {
            if x == y as int {
                assert(s[s.len() - 1] == y);
                assert(s.contains(y));
            } else {
                if s.contains(x as usize) {
                    let j = choose|j: int| 0 <= j < s.len() && s[j] == x as usize;
                    assert(j != s.len() - 1);
                    assert(p[j] == x as usize);
                }
                if p.contains(x as usize) {
                    let j = choose|j: int| 0 <= j < p.len() && p[j] == x as usize;
                    assert(s[j] == x as usize);
                }
            }
        }
        lemma_range_sum_bump(n, f, g, y as int, w(y as int));
    }
}

pub proof fn lemma_range_sum_zero(k: int)
    ensures
        range_sum(k, |x: int| 0int) == 0,
    decreases k,
{
    if k > 0 {
        lemma_range_sum_zero(k - 1);
    }
}

} // verus!

verus! {

/// A constant summed over `0..k`.
pub proof fn lemma_range_sum_const(k: int, f: spec_fn(int) -> int, c: int)
    requires
        0 <= k,
        forall|x: int| 0 <= x < k ==> #[trigger] f(x) == c,
    ensures
        range_sum(k, f) == k * c,
    decreases k,
{
    if k > 0 {
        lemma_range_sum_const(k - 1, f, c);
        assert(f(k - 1) == c);
        assert(range_sum(k, f) == range_sum(k - 1, f) + f(k - 1));
        assert((k - 1) * c + c == k * c) by (nonlinear_arith);
    } else {
        assert(k * c == 0) by (nonlinear_arith)
            requires
                k == 0,
        ;
    }
}

} // verus!
