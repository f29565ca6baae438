//! Connected components by depth-first traversal.

use crate::graph::{
    adjacent, lemma_adjacent_symmetric, lemma_nbrs_within, nbrs, Graph,
};
use crate::sums::{lemma_range_sum_bump, lemma_range_sum_prefix, range_sum};
use vstd::prelude::*;
use vstd::relations::injective_on;
use vstd::set_lib::{lemma_int_range, lemma_map_size, set_int_range};

verus! {

/// The label of a node that no traversal has reached yet.
const UNSET: usize = usize::MAX;

/// `p` is a walk: each node after the first is a neighbour of the one before.
pub open spec fn is_path(edges: Seq<(usize, usize)>, p: Seq<int>) -> bool {
    &&& p.len() >= 1
    &&& forall|k: int| 0 <= k < p.len() - 1 ==> adjacent(edges, #[trigger] p[k], p[k + 1])
}

/// Some walk leads from `u` to `v`.
pub open spec fn connected(edges: Seq<(usize, usize)>, u: int, v: int) -> bool {
    exists|p: Seq<int>| is_path(edges, p) && p[0] == u && p.last() == v
}

/// Some node carries label `l`.
pub open spec fn label_in_use(labels: Seq<usize>, l: int) -> bool {
    exists|u: int| 0 <= u < labels.len() && labels[u] == l
}

/// `labels` gives each of the `n` nodes a label below `count`, uses every
/// such label, and gives two nodes the same label exactly when a walk joins
/// them.
pub open spec fn is_component_labelling(
    edges: Seq<(usize, usize)>,
    n: int,
    labels: Seq<usize>,
    count: int,
) -> bool {
    &&& labels.len() == n
    &&& 0 <= count <= n
    &&& forall|u: int| 0 <= u < n ==> #[trigger] labels[u] < count
    &&& forall|l: int| 0 <= l < count ==> #[trigger] label_in_use(labels, l)
    &&& forall|u: int, v: int|
        0 <= u < n && 0 <= v < n ==> (#[trigger] labels[u] == #[trigger] labels[v] <==> connected(
            edges,
            u,
            v,
        ))
}

spec fn walk_from_to(edges: Seq<(usize, usize)>, p: Seq<int>, a: int, b: int) -> bool {
    is_path(edges, p) && p[0] == a && p.last() == b
}

/// Every labelled node off `stack`, other than `ex`, shares its label with
/// all of its neighbours.
spec fn closed_except(edges: Seq<(usize, usize)>, labels: Seq<usize>, stack: Seq<usize>, ex: int) -> bool {
    forall|w: int, x: usize|
        0 <= w < labels.len() && labels[w] != UNSET && !stack.contains(w as usize) && w != ex
            && #[trigger] nbrs(edges, w).contains(x) ==> labels[x as int] == labels[w]
}

spec fn unset_count(labels: Seq<usize>) -> int {
    range_sum(labels.len() as int, |x: int| if labels[x] == UNSET { 1int } else { 0 })
}

proof fn lemma_unset_count_set(labels: Seq<usize>, v: int, c: usize)
    requires
        0 <= v < labels.len(),
        labels[v] == UNSET,
        c != UNSET,
    ensures
        unset_count(labels.update(v, c)) == unset_count(labels) - 1,
        unset_count(labels.update(v, c)) >= 0,
{
    let l2 = labels.update(v, c);
    let f = |x: int| if labels[x] == UNSET { 1int } else { 0 };
    let g = |x: int| if l2[x] == UNSET { 1int } else { 0 };
    lemma_range_sum_bump(labels.len() as int, f, g, v, 1);
    lemma_range_sum_prefix(0, labels.len() as int, g);
}

proof fn lemma_reverse_path(edges: Seq<(usize, usize)>, p: Seq<int>)
    requires
        is_path(edges, p),
        0 <= p[0] <= usize::MAX,
    ensures
        is_path(edges, p.reverse()),
        p.reverse()[0] == p.last(),
        p.reverse().last() == p[0],
{
    let q = p.reverse();
    let n = p.len();
    assert forall|k: int| 0 <= k < q.len() - 1 implies adjacent(edges, #[trigger] q[k], q[k + 1]) by {
        let i = n - 2 - k;
        assert(adjacent(edges, p[i], p[i + 1]));
        if i > 0 {
            assert(adjacent(edges, p[i - 1], p[i]));
        }
        lemma_adjacent_symmetric(edges, p[i], p[i + 1]);
    }
}

proof fn lemma_join_paths(edges: Seq<(usize, usize)>, p: Seq<int>, q: Seq<int>)
    requires
        is_path(edges, p),
        is_path(edges, q),
        p.last() == q[0],
    ensures
        is_path(edges, p + q.drop_first()),
        (p + q.drop_first())[0] == p[0],
        (p + q.drop_first()).last() == q.last(),
{
    let r = p + q.drop_first();
    assert forall|k: int| 0 <= k < r.len() - 1 implies adjacent(edges, #[trigger] r[k], r[k + 1]) by {
        if k < p.len() - 1 {
            assert(adjacent(edges, p[k], p[k + 1]));
        } else if k == p.len() - 1 {
            assert(adjacent(edges, q[0], q[1]));
        } else {
            let j = k - p.len() + 1;
            assert(adjacent(edges, q[j], q[j + 1]));
        }
    }
}

/// Along a walk from a node below `n`, labels closed under adjacency stay
/// the same.
proof fn lemma_walk_keeps_label(edges: Seq<(usize, usize)>, labels: Seq<usize>, p: Seq<int>, k: int)
    requires
        crate::graph::edges_within(edges, labels.len() as int),
        labels.len() <= usize::MAX,
        is_path(edges, p),
        0 <= p[0] < labels.len(),
        forall|u: int| 0 <= u < labels.len() ==> labels[u] != UNSET,
        closed_except(edges, labels, Seq::empty(), -1),
        0 <= k < p.len(),
    ensures
        0 <= p[k] < labels.len(),
        labels[p[k]] == labels[p[0]],
    decreases k,
{
    if k > 0 {
        lemma_walk_keeps_label(edges, labels, p, k - 1);
        assert(adjacent(edges, p[k - 1], p[k]));
        lemma_nbrs_within(edges, labels.len() as int, p[k - 1]);
        let s = nbrs(edges, p[k - 1]);
        let j = choose|j: int| 0 <= j < s.len() && s[j] == p[k] as usize;
        assert(!Seq::<usize>::empty().contains(p[k - 1] as usize));
    }
}

/// Two labellings that use every label below their counts and put the same
/// pairs together have equal counts: the map from a label of the first to the
/// second's label of any node carrying it is a bijection.
pub proof fn lemma_same_partition_same_count(n: int, u: Seq<usize>, k1: int, w: Seq<usize>, k2: int)
    requires
        0 <= k1,
        0 <= k2,
        u.len() == n,
        w.len() == n,
        forall|x: int| 0 <= x < n ==> #[trigger] u[x] < k1,
        forall|x: int| 0 <= x < n ==> #[trigger] w[x] < k2,
        forall|l: int| 0 <= l < k1 ==> #[trigger] label_in_use(u, l),
        forall|l: int| 0 <= l < k2 ==> #[trigger] label_in_use(w, l),
        forall|x: int, y: int|
            0 <= x < n && 0 <= y < n ==> (#[trigger] u[x] == #[trigger] u[y] <==> w[x] == w[y]),
    ensures
        k1 == k2,
{
    let f = |l: int| w[choose|x: int| 0 <= x < u.len() && u[x] == l] as int;
    let xs = set_int_range(0, k1);
    let ys = set_int_range(0, k2);
    lemma_int_range(0, k1);
    lemma_int_range(0, k2);
    assert forall|a: int, b: int| xs.contains(a) && xs.contains(b) && #[trigger] f(a) == #[trigger] f(
        b,
    ) implies a == b by {
        assert(label_in_use(u, a));
        assert(label_in_use(u, b));
        let xa = choose|x: int| 0 <= x < u.len() && u[x] == a;
        let xb = choose|x: int| 0 <= x < u.len() && u[x] == b;
        assert(u[xa] == u[xb] <==> w[xa] == w[xb]);
    }
    assert(injective_on(f, xs));
    assert(xs.map(f) =~= ys) by {
        assert forall|m: int| #[trigger] ys.contains(m) implies xs.map(f).contains(m) by {
            assert(label_in_use(w, m));
            let y = choose|y: int| 0 <= y < w.len() && w[y] == m;
            let l = u[y] as int;
            assert(label_in_use(u, l));
            let xl = choose|x: int| 0 <= x < u.len() && u[x] == l;
            assert(u[xl] == u[y] <==> w[xl] == w[y]);
            assert(xs.contains(l) && f(l) == m);
        }
        assert forall|m: int| #[trigger] xs.map(f).contains(m) implies ys.contains(m) by {
            let l = choose|l: int| xs.contains(l) && f(l) == m;
            assert(label_in_use(u, l));
            let xl = choose|x: int| 0 <= x < u.len() && u[x] == l;
            assert(w[xl] < k2);
        }
    }
    lemma_map_size(xs, ys, f);
}

/// Labels every node with its connected component. Returns the labels, by
/// internal index, and the number of components; labels run from zero to that
/// number, each one in use, and two nodes share a label exactly when a walk
/// joins them.
pub fn connected_components(graph: &Graph) -> (r: (Vec<usize>, usize))
    requires
        graph.wf(),
    ensures
        is_component_labelling(graph.spec_edges(), graph.spec_node_count(), r.0@, r.1 as int),
{
    let n = graph.node_count();
    let ghost edges = graph.spec_edges();
    proof {
        graph.lemma_wf();
    }
    let mut labels: Vec<usize> = Vec::new();
    let mut i: usize = 0;
    while i < n
        invariant
            labels@.len() == i,
            i <= n,
            forall|x: int| 0 <= x < i ==> #[trigger] labels@[x] == UNSET,
        decreases n - i,
    {
        labels.push(UNSET);
        i = i + 1;
    }
    let ghost mut roots: Seq<int> = Seq::empty();
    let ghost mut paths: Seq<Seq<int>> = Seq::new(n as nat, |x: int| seq![x]);
    let mut c: usize = 0;
    let mut s: usize = 0;
    while s < n
        invariant
            graph.wf(),
            n == graph.spec_node_count(),
            edges == graph.spec_edges(),
            crate::graph::edges_within(edges, n as int),
            n <= usize::MAX,
            labels@.len() == n,
            paths.len() == n,
            s <= n,
            c <= s,
            roots.len() == c,
            forall|u: int| 0 <= u < s ==> #[trigger] labels@[u] != UNSET,
            forall|u: int|
                0 <= u < n && #[trigger] labels@[u] != UNSET ==> labels@[u] < c && walk_from_to(
                    edges,
                    paths[u],
                    roots[labels@[u] as int],
                    u,
                ),
            forall|l: int| 0 <= l < c ==> 0 <= #[trigger] roots[l] < n && labels@[roots[l]] == l,
            closed_except(edges, labels@, Seq::empty(), -1),
        decreases n - s,
    {
        if labels[s] == UNSET {
            proof {
                lemma_unset_count_set(labels@, s as int, c);
            }
            labels.set(s, c);
            proof {
                roots = roots.push(s as int);
                paths = paths.update(s as int, seq![s as int]);
            }
            let mut stack: Vec<usize> = Vec::new();
            stack.push(s);
            proof {
                assert(stack@ == seq![s]);
                assert forall|w: int, x: usize|
                    0 <= w < labels@.len() && labels@[w] != UNSET && !stack@.contains(w as usize)
                        && w != -1 && #[trigger] nbrs(edges, w).contains(x) implies labels@[x as int]
                    == labels@[w] by {
                    if w == s as int {
                        assert(stack@[0] == s);
                    }
                    lemma_nbrs_within(edges, n as int, w);
                    let j = choose|j: int| 0 <= j < nbrs(edges, w).len() && nbrs(edges, w)[j] == x;
                    assert(!Seq::<usize>::empty().contains(w as usize));
                }
            }
            while stack.len() > 0
                invariant
                    graph.wf(),
                    n == graph.spec_node_count(),
                    edges == graph.spec_edges(),
                    crate::graph::edges_within(edges, n as int),
                    n <= usize::MAX,
                    labels@.len() == n,
                    paths.len() == n,
                    s < n,
                    c <= s,
                    roots.len() == c + 1,
                    roots[c as int] == s,
                    forall|u: int| 0 <= u <= s ==> #[trigger] labels@[u] != UNSET,
                    forall|u: int|
                        0 <= u < n && #[trigger] labels@[u] != UNSET ==> labels@[u] <= c
                            && walk_from_to(edges, paths[u], roots[labels@[u] as int], u),
                    forall|l: int|
                        0 <= l <= c ==> 0 <= #[trigger] roots[l] < n && labels@[roots[l]] == l,
                    forall|t: int| 0 <= t < stack@.len() ==> #[trigger] stack@[t] < n && labels@[stack@[t] as int] == c,
                    closed_except(edges, labels@, stack@, -1),
                    unset_count(labels@) >= 0,
                decreases 2 * unset_count(labels@) + stack@.len(),
            {
                let ghost measure = 2 * unset_count(labels@) + stack@.len();
                let ghost st0 = stack@;
                let u = stack.pop().unwrap();
                proof {
                    assert(st0 == stack@.push(u));
                    assert(st0[st0.len() - 1] == u);
                    assert forall|t: int| 0 <= t < stack@.len() implies #[trigger] stack@[t] < n
                        && labels@[stack@[t] as int] == c by {
                        assert(st0[t] == stack@[t]);
                    }
                    assert forall|w: int, x: usize|
                        0 <= w < labels@.len() && labels@[w] != UNSET && !stack@.contains(
                            w as usize,
                        ) && w != u as int && #[trigger] nbrs(edges, w).contains(x) implies labels@[x as int]
                        == labels@[w] by {
                        if st0.contains(w as usize) {
                            let t = choose|t: int| 0 <= t < st0.len() && st0[t] == w as usize;
                            if t < stack@.len() {
                                assert(stack@[t] == w as usize);
                            }
                        }
                    }
                }
                let adj = graph.neighbors(u);
                proof {
                    lemma_nbrs_within(edges, n as int, u as int);
                }
                let mut k: usize = 0;
                while k < adj.len()
                    invariant
                        n == graph.spec_node_count(),
                        edges == graph.spec_edges(),
                        crate::graph::edges_within(edges, n as int),
                        n <= usize::MAX,
                        adj@ == nbrs(edges, u as int),
                        forall|j: int| 0 <= j < adj@.len() ==> #[trigger] adj@[j] < n,
                        u < n,
                        labels@[u as int] == c,
                        labels@.len() == n,
                        paths.len() == n,
                        s < n,
                        c <= s,
                        roots.len() == c + 1,
                        roots[c as int] == s,
                        forall|x: int| 0 <= x <= s ==> #[trigger] labels@[x] != UNSET,
                        forall|x: int|
                            0 <= x < n && #[trigger] labels@[x] != UNSET ==> labels@[x] <= c
                                && walk_from_to(edges, paths[x], roots[labels@[x] as int], x),
                        forall|l: int|
                            0 <= l <= c ==> 0 <= #[trigger] roots[l] < n && labels@[roots[l]] == l,
                        forall|t: int| 0 <= t < stack@.len() ==> #[trigger] stack@[t] < n && labels@[stack@[t] as int] == c,
                        closed_except(edges, labels@, stack@, u as int),
                        k <= adj@.len(),
                        forall|j: int| 0 <= j < k ==> labels@[#[trigger] adj@[j] as int] == c,
                        unset_count(labels@) >= 0,
                        2 * unset_count(labels@) + stack@.len() < measure,
                    decreases adj@.len() - k,
                {
                    let v = adj[k];
                    if labels[v] == UNSET {
                        proof {
                            lemma_unset_count_set(labels@, v as int, c);
                            assert(adj@[k as int] == v);
                            assert(adjacent(edges, u as int, v as int));
                            let pu = paths[u as int];
                            assert(is_path(edges, pu.push(v as int))) by {
                                assert forall|t: int| 0 <= t < pu.len() implies adjacent(
                                    edges,
                                    #[trigger] pu.push(v as int)[t],
                                    pu.push(v as int)[t + 1],
                                ) by {
                                    if t < pu.len() - 1 {
                                        assert(adjacent(edges, pu[t], pu[t + 1]));
                                    }
                                }
                            }
                        }
                        let ghost l0 = labels@;
                        labels.set(v, c);
                        proof {
                            paths = paths.update(v as int, paths[u as int].push(v as int));
                            assert forall|w: int, x: usize|
                                0 <= w < labels@.len() && labels@[w] != UNSET && !stack@.push(
                                    v,
                                ).contains(w as usize) && w != u as int && #[trigger] nbrs(
                                    edges,
                                    w,
                                ).contains(x) implies labels@[x as int] == labels@[w] by {
                                lemma_nbrs_within(edges, n as int, w);
                                let j = choose|j: int|
                                    0 <= j < nbrs(edges, w).len() && nbrs(edges, w)[j] == x;
                                if w != v as int {
                                    assert(!stack@.contains(w as usize)) by {
                                        if stack@.contains(w as usize) {
                                            let t = choose|t: int|
                                                0 <= t < stack@.len() && stack@[t] == w as usize;
                                            assert(stack@.push(v)[t] == w as usize);
                                        }
                                    }
                                    assert(l0[x as int] == l0[w]);
                                } else {
                                    assert(stack@.push(v)[stack@.len() as int] == v);
                                }
                            }
                        }
                        stack.push(v);
                    } else {
                        proof {
                            assert(adj@[k as int] == v);
                            lemma_adjacent_symmetric(edges, u as int, v as int);
                            assert(nbrs(edges, v as int).contains(u));
                            if labels@[v as int] != c {
                                assert(!stack@.contains(v)) by {
                                    if stack@.contains(v) {
                                        let t = choose|t: int| 0 <= t < stack@.len() && stack@[t] == v;
                                    }
                                }
                                assert(labels@[u as int] == labels@[v as int]);
                            }
                        }
                    }
                    k = k + 1;
                }
                proof {
                    assert forall|w: int, x: usize|
                        0 <= w < labels@.len() && labels@[w] != UNSET && !stack@.contains(w as usize)
                            && w != -1 && #[trigger] nbrs(edges, w).contains(x) implies labels@[x as int]
                        == labels@[w] by {
                        lemma_nbrs_within(edges, n as int, w);
                        if w == u as int {
                            let j = choose|j: int| 0 <= j < adj@.len() && adj@[j] == x;
                            assert(labels@[adj@[j] as int] == c);
                        }
                    }
                }
            }
            c = c + 1;
        }
        s = s + 1;
    }
    proof {
        assert forall|l: int| 0 <= l < c implies #[trigger] label_in_use(labels@, l) by {
            assert(labels@[roots[l]] == l);
        }
        assert forall|u: int, v: int|
            0 <= u < labels@.len() && 0 <= v < labels@.len() implies (#[trigger] labels@[u]
            == #[trigger] labels@[v] <==> connected(edges, u, v)) by {
            if labels@[u] == labels@[v] {
                let r = roots[labels@[u] as int];
                let pu = paths[u];
                let pv = paths[v];
                lemma_reverse_path(edges, pu);
                lemma_join_paths(edges, pu.reverse(), pv);
                assert(walk_from_to(edges, pu.reverse() + pv.drop_first(), u, v));
            }
            if connected(edges, u, v) {
                let p = choose|p: Seq<int>| is_path(edges, p) && p[0] == u && p.last() == v;
                lemma_walk_keeps_label(edges, labels@, p, p.len() - 1);
            }
        }
    }
    (labels, c)
}

} // verus!
