//! Triangle counting by neighbour-set intersection.

use crate::degree::{degree, lemma_degree_sum};
use crate::graph::{lemma_nbrs_within, nbrs, Graph, MAX_EDGES};
use crate::sums::{
    lemma_range_sum_ext, lemma_range_sum_mono, lemma_range_sum_prefix, lemma_seq_sum_as_range,
    lemma_seq_sum_ones, range_sum, seq_sum,
};
use vstd::prelude::*;

verus! {

/// `x` is a neighbour of `a`.
pub open spec fn in_nbrs(edges: Seq<(usize, usize)>, a: int, x: int) -> bool {
    0 <= x && nbrs(edges, a).contains(x as usize)
}

/// Nodes `a < b < c` are pairwise adjacent.
pub open spec fn is_triangle(edges: Seq<(usize, usize)>, a: int, b: int, c: int) -> bool {
    &&& a < b < c
    &&& in_nbrs(edges, a, b)
    &&& in_nbrs(edges, b, c)
    &&& in_nbrs(edges, a, c)
}

/// The number of nodes `c < n` that close a triangle `a < b < c`.
pub open spec fn triangles_on(edges: Seq<(usize, usize)>, n: int, a: int, b: int) -> int {
    range_sum(n, |c: int| if is_triangle(edges, a, b, c) { 1int } else { 0 })
}

/// The number of triangles whose least node is `a`.
pub open spec fn triangles_from(edges: Seq<(usize, usize)>, n: int, a: int) -> int {
    range_sum(n, |b: int| triangles_on(edges, n, a, b))
}

/// The number of triangles among the nodes `0..n`: triples `a < b < c` of
/// pairwise adjacent nodes, each counted once.
pub open spec fn triangle_count(edges: Seq<(usize, usize)>, n: int) -> int {
    range_sum(n, |a: int| triangles_from(edges, n, a))
}

/// `d` lists the neighbours of `a` once each.
pub open spec fn lists_nbrs_once(edges: Seq<(usize, usize)>, n: int, a: int, d: Seq<usize>) -> bool {
    &&& d.no_duplicates()
    &&& d.len() <= degree(edges, a)
    &&& forall|j: int| 0 <= j < d.len() ==> #[trigger] d[j] < n
    &&& forall|x: usize| d.contains(x) <==> #[trigger] nbrs(edges, a).contains(x)
}

/// Summing over a list of `a`'s neighbours, once each, is summing over the
/// neighbours of `a` in `0..n`.
proof fn lemma_sum_over_nbrs(
    edges: Seq<(usize, usize)>,
    n: int,
    a: int,
    d: Seq<usize>,
    w: spec_fn(int) -> int,
)
    requires
        n <= usize::MAX,
        lists_nbrs_once(edges, n, a, d),
    ensures
        seq_sum(d, w) == range_sum(n, |x: int| if in_nbrs(edges, a, x) { w(x) } else { 0 }),
{
    lemma_seq_sum_as_range(d, n, w);
    lemma_range_sum_ext(
        n,
        |x: int|
            if 0 <= x && d.contains(x as usize) {
                w(x)
            } else {
                0
            },
        |x: int| if in_nbrs(edges, a, x) { w(x) } else { 0 },
    );
}

/// The triangles on `a` and `b` number at most the distinct neighbours of `a`.
proof fn lemma_triangles_on_le(edges: Seq<(usize, usize)>, n: int, a: int, b: int, d: Seq<usize>)
    requires
        n <= usize::MAX,
        lists_nbrs_once(edges, n, a, d),
    ensures
        0 <= triangles_on(edges, n, a, b) <= d.len(),
{
    let one = |x: int| 1int;
    lemma_seq_sum_ones(d);
    lemma_sum_over_nbrs(edges, n, a, d, one);
    lemma_range_sum_mono(
        n,
        |c: int| if is_triangle(edges, a, b, c) { 1int } else { 0 },
        |x: int| if in_nbrs(edges, a, x) { one(x) } else { 0 },
    );
    lemma_range_sum_mono(
        n,
        |x: int| 0int,
        |c: int| if is_triangle(edges, a, b, c) { 1int } else { 0 },
    );
    crate::sums::lemma_range_sum_zero(n);
}

proof fn lemma_push_contains(s: Seq<usize>, v: usize)
    ensures
        forall|y: usize| #[trigger] s.push(v).contains(y) <==> s.contains(y) || y == v,
{
    assert forall|y: usize| #[trigger] s.push(v).contains(y) <==> s.contains(y) || y == v by {
        if s.contains(y) {
            let k = choose|k: int| 0 <= k < s.len() && s[k] == y;
            assert(s.push(v)[k] == y);
        }
        if y == v {
            assert(s.push(v)[s.len() as int] == y);
        }
        if s.push(v).contains(y) && y != v {
            let k = choose|k: int| 0 <= k < s.len() + 1 && s.push(v)[k] == y;
            assert(s[k] == y);
        }
    }
}

/// Sets `mark` to `true` exactly at the entries of `l`.
fn set_marks(mark: &mut Vec<bool>, l: &Vec<usize>)
    requires
        old(mark)@.len() <= usize::MAX,
        forall|x: int| 0 <= x < old(mark)@.len() ==> !#[trigger] old(mark)@[x],
        forall|t: int| 0 <= t < l@.len() ==> #[trigger] l@[t] < old(mark)@.len(),
    ensures
        final(mark)@.len() == old(mark)@.len(),
        forall|x: int|
            0 <= x < final(mark)@.len() ==> (#[trigger] final(mark)@[x] <==> l@.contains(x as usize)),
{
    let ghost n = mark@.len();
    let mut k: usize = 0;
    while k < l.len()
        invariant
            n <= usize::MAX,
            mark@.len() == n,
            k <= l@.len(),
            forall|t: int| 0 <= t < l@.len() ==> #[trigger] l@[t] < n,
            forall|x: int|
                0 <= x < n ==> (#[trigger] mark@[x] <==> l@.subrange(0, k as int).contains(
                    x as usize,
                )),
        decreases l@.len() - k,
    {
        let ghost m0 = mark@;
        let x = l[k];
        mark.set(x, true);
        assert(l@.subrange(0, k + 1) == l@.subrange(0, k as int).push(x));
        proof {
            lemma_push_contains(l@.subrange(0, k as int), x);
        }
        assert forall|y: int| 0 <= y < n implies (#[trigger] mark@[y] <==> l@.subrange(
            0,
            k + 1,
        ).contains(y as usize)) by {
            assert(m0[y] <==> l@.subrange(0, k as int).contains(y as usize));
        }
        k = k + 1;
    }
    assert(l@.subrange(0, l@.len() as int) == l@);
}

/// Sets `mark` back to all `false`, given that it is `true` exactly at the
/// entries of `l`.
fn clear_marks(mark: &mut Vec<bool>, l: &Vec<usize>)
    requires
        old(mark)@.len() <= usize::MAX,
        l@.no_duplicates(),
        forall|t: int| 0 <= t < l@.len() ==> #[trigger] l@[t] < old(mark)@.len(),
        forall|x: int|
            0 <= x < old(mark)@.len() ==> (#[trigger] old(mark)@[x] <==> l@.contains(x as usize)),
    ensures
        final(mark)@.len() == old(mark)@.len(),
        forall|x: int| 0 <= x < final(mark)@.len() ==> !#[trigger] final(mark)@[x],
{
    let ghost n = mark@.len();
    assert(l@.subrange(0, l@.len() as int) == l@);
    let mut k: usize = 0;
    while k < l.len()
        invariant
            n <= usize::MAX,
            mark@.len() == n,
            l@.no_duplicates(),
            forall|t: int| 0 <= t < l@.len() ==> #[trigger] l@[t] < n,
            k <= l@.len(),
            forall|x: int|
                0 <= x < n ==> (#[trigger] mark@[x] <==> l@.subrange(k as int, l@.len() as int).contains(
                    x as usize,
                )),
        decreases l@.len() - k,
    {
        let x = l[k];
        let ghost m0 = mark@;
        mark.set(x, false);
        assert forall|y: int| 0 <= y < n implies (#[trigger] mark@[y] <==> l@.subrange(
            k + 1,
            l@.len() as int,
        ).contains(y as usize)) by {
            let tail = l@.subrange(k as int, l@.len() as int);
            let rest = l@.subrange(k + 1, l@.len() as int);
            assert(m0[y] <==> tail.contains(y as usize));
            if rest.contains(y as usize) {
                let t = choose|t: int| 0 <= t < rest.len() && rest[t] == y as usize;
                assert(tail[t + 1] == y as usize);
                assert(l@[k + 1 + t] == y as usize);
            }
            if y as usize != x && tail.contains(y as usize) {
                let t = choose|t: int| 0 <= t < tail.len() && tail[t] == y as usize;
                assert(t != 0);
                assert(rest[t - 1] == y as usize);
            }
        }
        k = k + 1;
    }
    assert forall|x: int| 0 <= x < n implies !#[trigger] mark@[x] by {
        let e = l@.subrange(l@.len() as int, l@.len() as int);
        assert(!e.contains(x as usize));
    }
}

/// The distinct neighbours of `i`; `mark` is scratch space, all `false`
/// before and after.
fn distinct_neighbors(graph: &Graph, i: usize, mark: &mut Vec<bool>) -> (r: Vec<usize>)
    requires
        graph.wf(),
        i < graph.spec_node_count(),
        old(mark)@.len() == graph.spec_node_count(),
        forall|x: int| 0 <= x < old(mark)@.len() ==> !#[trigger] old(mark)@[x],
    ensures
        final(mark)@ == old(mark)@,
        lists_nbrs_once(graph.spec_edges(), graph.spec_node_count(), i as int, r@),
{
    let ghost n = graph.spec_node_count();
    let adj = graph.neighbors(i);
    proof {
        graph.lemma_wf();
        lemma_nbrs_within(graph.spec_edges(), n, i as int);
    }
    let mut r: Vec<usize> = Vec::new();
    let mut j: usize = 0;
    while j < adj.len()
        invariant
            n <= usize::MAX,
            adj@ == nbrs(graph.spec_edges(), i as int),
            forall|k: int| 0 <= k < adj@.len() ==> #[trigger] adj@[k] < n,
            mark@.len() == n,
            j <= adj@.len(),
            r@.no_duplicates(),
            r@.len() <= j,
            forall|k: int| 0 <= k < r@.len() ==> #[trigger] r@[k] < n,
            forall|x: int| 0 <= x < n ==> (#[trigger] mark@[x] <==> r@.contains(x as usize)),
            forall|x: usize| r@.contains(x) <==> #[trigger] adj@.subrange(0, j as int).contains(x),
        decreases adj@.len() - j,
    {
        let x = adj[j];
        let ghost r0 = r@;
        let ghost m0 = mark@;
        let ghost p = adj@.subrange(0, j as int);
        assert(adj@.subrange(0, j + 1) == p.push(x));
        proof {
            lemma_push_contains(p, x);
        }
        if !mark[x] {
            mark.set(x, true);
            r.push(x);
            proof {
                lemma_push_contains(r0, x);
            }
            assert forall|y: int| 0 <= y < n implies (#[trigger] mark@[y] <==> r@.contains(
                y as usize,
            )) by {
                assert(m0[y] <==> r0.contains(y as usize));
            }
        }
        j = j + 1;
    }
    assert(adj@.subrange(0, adj@.len() as int) == adj@);
    clear_marks(mark, &r);
    assert(mark@ =~= old(mark)@);
    r
}

/// The number of triangles: for every node `a` and every distinct neighbour
/// `m > a`, the neighbours of `m` above `m` that are also neighbours of `a`
/// are counted, so each triangle is found once, from its least node.
pub fn count_triangles(graph: &Graph) -> (r: u64)
    requires
        graph.wf(),
    ensures
        r == triangle_count(graph.spec_edges(), graph.spec_node_count()),
{
    let n = graph.node_count();
    let ghost edges = graph.spec_edges();
    let ghost deg = |x: int| degree(edges, x);
    let ghost tri = |x: int| triangles_from(edges, n as int, x);
    proof {
        graph.lemma_wf();
        lemma_degree_sum(edges, n as int);
    }
    let mut mark: Vec<bool> = Vec::new();
    let mut i: usize = 0;
    while i < n
        invariant
            mark@.len() == i,
            i <= n,
            forall|x: int| 0 <= x < i ==> !#[trigger] mark@[x],
        decreases n - i,
    {
        mark.push(false);
        i = i + 1;
    }
    let mut d: Vec<Vec<usize>> = Vec::new();
    i = 0;
    while i < n
        invariant
            graph.wf(),
            n == graph.spec_node_count(),
            edges == graph.spec_edges(),
            mark@.len() == n,
            forall|x: int| 0 <= x < n ==> !#[trigger] mark@[x],
            i <= n,
            d@.len() == i,
            forall|k: int| 0 <= k < i ==> lists_nbrs_once(edges, n as int, k, #[trigger] d@[k]@),
        decreases n - i,
    {
        let l = distinct_neighbors(graph, i, &mut mark);
        d.push(l);
        i = i + 1;
    }
    let mut total: u64 = 0;
    let mut a: usize = 0;
    while a < n
        invariant
            n == graph.spec_node_count(),
            edges == graph.spec_edges(),
            n <= usize::MAX,
            edges.len() <= MAX_EDGES,
            mark@.len() == n,
            forall|x: int| 0 <= x < n ==> !#[trigger] mark@[x],
            d@.len() == n,
            forall|k: int| 0 <= k < n ==> lists_nbrs_once(edges, n as int, k, #[trigger] d@[k]@),
            a <= n,
            forall|x: int| #[trigger] deg(x) == degree(edges, x),
            forall|x: int| #[trigger] tri(x) == triangles_from(edges, n as int, x),
            range_sum(n as int, deg) == 2 * edges.len(),
            total == range_sum(a as int, tri),
            total <= range_sum(a as int, deg) * range_sum(a as int, deg),
        decreases n - a,
    {
        let da = &d[a];
        assert(lists_nbrs_once(edges, n as int, a as int, da@));
        proof {
            lemma_range_sum_prefix(a + 1, n as int, deg);
            lemma_range_sum_prefix(a as int, a as int, deg);
        }
        set_marks(&mut mark, da);
        let ghost wc = |m: int| triangles_on(edges, n as int, a as int, m);
        let mut s: u64 = 0;
        let mut j: usize = 0;
        while j < da.len()
            invariant
                n <= usize::MAX,
                mark@.len() == n,
                forall|x: int| 0 <= x < n ==> (#[trigger] mark@[x] <==> da@.contains(x as usize)),
                d@.len() == n,
                forall|k: int| 0 <= k < n ==> lists_nbrs_once(edges, n as int, k, #[trigger] d@[k]@),
                lists_nbrs_once(edges, n as int, a as int, da@),
                j <= da@.len(),
                da@.len() <= 2 * MAX_EDGES,
                forall|x: int| #[trigger] wc(x) == triangles_on(edges, n as int, a as int, x),
                s == seq_sum(da@.subrange(0, j as int), wc),
                s <= j * da@.len(),
            decreases da@.len() - j,
        {
            let m = da[j];
            let dm = &d[m];
            assert(lists_nbrs_once(edges, n as int, m as int, dm@));
            assert(da@[j as int] == m && da@.contains(m));
            assert(in_nbrs(edges, a as int, m as int));
            let ghost wa = |x: int|
                if a < m && m < x && in_nbrs(edges, a as int, x) {
                    1int
                } else {
                    0
                };
            let mut c: u64 = 0;
            let mut t: usize = 0;
            while t < dm.len()
                invariant
                    n <= usize::MAX,
                    mark@.len() == n,
                    forall|x: int| 0 <= x < n ==> (#[trigger] mark@[x] <==> da@.contains(x as usize)),
                    lists_nbrs_once(edges, n as int, a as int, da@),
                    lists_nbrs_once(edges, n as int, m as int, dm@),
                    t <= dm@.len(),
                    forall|x: int| #[trigger]
                        wa(x) == if a < m && m < x && in_nbrs(edges, a as int, x) {
                            1int
                        } else {
                            0
                        },
                    c == seq_sum(dm@.subrange(0, t as int), wa),
                    c <= t,
                decreases dm@.len() - t,
            {
                let x = dm[t];
                assert(dm@.subrange(0, t + 1).drop_last() == dm@.subrange(0, t as int));
                assert(dm@.subrange(0, t + 1).last() == x);
                assert(mark@[x as int] <==> nbrs(edges, a as int).contains(x));
                if a < m && m < x && mark[x] {
                    c = c + 1;
                }
                t = t + 1;
            }
            proof {
                assert(dm@.subrange(0, dm@.len() as int) == dm@);
                lemma_sum_over_nbrs(edges, n as int, m as int, dm@, wa);
                assert forall|x: int| 0 <= x < n implies (if in_nbrs(
                    edges,
                    m as int,
                    x,
                ) {
                    wa(x)
                } else {
                    0
                }) == (if is_triangle(edges, a as int, m as int, x) {
                    1int
                } else {
                    0
                }) by {
                    assert(wa(x) == if a < m && m < x && in_nbrs(edges, a as int, x) {
                        1int
                    } else {
                        0
                    });
                }
                lemma_range_sum_ext(
                    n as int,
                    |x: int| if in_nbrs(edges, m as int, x) { wa(x) } else { 0 },
                    |c: int| if is_triangle(edges, a as int, m as int, c) { 1int } else { 0 },
                );
                lemma_triangles_on_le(edges, n as int, a as int, m as int, da@);
                assert(da@.subrange(0, j + 1).drop_last() == da@.subrange(0, j as int));
                assert(da@.subrange(0, j + 1).last() == m);
                assert(wc(m as int) == triangles_on(edges, n as int, a as int, m as int));
                assert(s + c <= (j + 1) * da@.len()) by (nonlinear_arith)
                    requires
                        s <= j * da@.len(),
                        c <= da@.len(),
                ;
                assert((j + 1) * da@.len() <= da@.len() * da@.len()) by (nonlinear_arith)
                    requires
                        j < da@.len(),
                ;
                assert(da@.len() * da@.len() <= 0x4000_0000_0000_0000) by (nonlinear_arith)
                    requires
                        da@.len() <= 2 * MAX_EDGES,
                ;
            }
            s = s + c;
            j = j + 1;
        }
        clear_marks(&mut mark, da);
        proof {
            assert(da@.subrange(0, da@.len() as int) == da@);
            lemma_sum_over_nbrs(edges, n as int, a as int, da@, wc);
            assert forall|b: int| 0 <= b < n implies (if in_nbrs(edges, a as int, b) {
                wc(b)
            } else {
                0
            }) == triangles_on(edges, n as int, a as int, b) by {
                if !in_nbrs(edges, a as int, b) {
                    lemma_range_sum_ext(
                        n as int,
                        |c: int| if is_triangle(edges, a as int, b, c) { 1int } else { 0 },
                        |x: int| 0int,
                    );
                    crate::sums::lemma_range_sum_zero(n as int);
                }
            }
            lemma_range_sum_ext(
                n as int,
                |x: int| if in_nbrs(edges, a as int, x) { wc(x) } else { 0 },
                |b: int| triangles_on(edges, n as int, a as int, b),
            );
            let sa = range_sum(a as int, deg);
            let da_len = da@.len() as int;
            let dg = degree(edges, a as int);
            assert(deg(a as int) == dg);
            lemma_range_sum_prefix(a + 1, n as int, deg);
            assert(s <= dg * dg) by (nonlinear_arith)
                requires
                    s <= da_len * da_len,
                    0 <= da_len <= dg,
            ;
            assert(total + s <= (sa + dg) * (sa + dg)) by (nonlinear_arith)
                requires
                    total <= sa * sa,
                    s <= dg * dg,
                    0 <= sa,
                    0 <= dg,
            ;
            assert((sa + dg) * (sa + dg) <= 0x4000_0000_0000_0000) by (nonlinear_arith)
                requires
                    0 <= sa + dg <= 2 * MAX_EDGES,
            ;
        }
        total = total + s;
        a = a + 1;
    }
    total
}

} // verus!
