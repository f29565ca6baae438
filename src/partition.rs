//! The sequential partition labeller. It reads no adjacency: every node gets
//! a fresh label, in internal-index order, so the labelling is the finest
//! partition rather than a community structure.

use crate::components::{
    connected, is_component_labelling, is_path, label_in_use, lemma_same_partition_same_count,
};
use crate::graph::{adjacent, lemma_nbrs_contains, links, Graph};
use vstd::set_lib::{lemma_int_range, lemma_map_size_bound, set_int_range};
use vstd::prelude::*;

verus! {

/// `r` gives every node of an `n`-node graph its own label, in index order.
pub open spec fn is_sequential_labelling(n: int, r: Seq<usize>) -> bool {
    &&& r.len() == n
    &&& forall|i: int| 0 <= i < n ==> #[trigger] r[i] == i
}

/// Assigns each node, in internal-index order, the next unused label.
pub fn detect_communities(graph: &Graph) -> (r: Vec<usize>)
    requires
        graph.wf(),
    ensures
        is_sequential_labelling(graph.spec_node_count(), r@),
{
    let n = graph.node_count();
    let mut r: Vec<usize> = Vec::new();
    let mut next: usize = 0;
    while next < n
        invariant
            next <= n,
            r@.len() == next,
            forall|i: int| 0 <= i < next ==> #[trigger] r@[i] == i,
        decreases n - next,
    {
        r.push(next);
        next = next + 1;
    }
    r
}

/// A graph of `k` nodes gets `k` distinct labels, one per node, whatever its
/// edges.
pub proof fn lemma_labels_distinct(n: int, r: Seq<usize>)
    requires
        is_sequential_labelling(n, r),
    ensures
        forall|u: int, v: int| 0 <= u < n && 0 <= v < n ==> (#[trigger] r[u] == #[trigger] r[v] <==> u == v),
{
}

/// A walk whose steps all stay put never leaves its first node.
proof fn lemma_walk_stays(p: Seq<int>, k: int)
    requires
        forall|t: int| 0 <= t < p.len() - 1 ==> #[trigger] p[t] == p[t + 1],
        0 <= k < p.len(),
    ensures
        p[k] == p[0],
    decreases k,
{
    if k > 0 {
        lemma_walk_stays(p, k - 1);
        assert(p[k - 1] == p[k]);
    }
}

/// The sequential labelling uses at least as many labels as the graph has
/// connected components, and exactly as many when, and only when, no edge
/// joins two distinct nodes.
pub proof fn lemma_labels_versus_components(
    graph: &Graph,
    r: Seq<usize>,
    labels: Seq<usize>,
    count: int,
)
    requires
        graph.wf(),
        is_sequential_labelling(graph.spec_node_count(), r),
        is_component_labelling(graph.spec_edges(), graph.spec_node_count(), labels, count),
    ensures
        count <= r.len(),
        count == r.len() <==> forall|k: int|
            0 <= k < graph.spec_edges().len() ==> (#[trigger] graph.spec_edges()[k]).0
                == graph.spec_edges()[k].1,
{
    let n = graph.spec_node_count();
    let edges = graph.spec_edges();
    graph.lemma_wf();
    if forall|k: int| 0 <= k < edges.len() ==> (#[trigger] edges[k]).0 == edges[k].1 {
        assert forall|l: int| 0 <= l < n implies #[trigger] label_in_use(r, l) by {
            assert(r[l] == l);
        }
        assert forall|x: int, y: int| 0 <= x < n && 0 <= y < n implies (#[trigger] r[x]
            == #[trigger] r[y] <==> labels[x] == labels[y]) by {
            assert(labels[x] == labels[y] <==> connected(edges, x, y));
            if x == y {
                assert(is_path(edges, seq![x]));
                assert(seq![x][0] == x && seq![x].last() == x);
            }
            if connected(edges, x, y) && x != y {
                let p = choose|p: Seq<int>| is_path(edges, p) && p[0] == x && p.last() == y;
                if forall|t: int| 0 <= t < p.len() - 1 ==> #[trigger] p[t] == p[t + 1] {
                    lemma_walk_stays(p, p.len() - 1);
                } else {
                    let t = choose|t: int| 0 <= t < p.len() - 1 && #[trigger] p[t] != p[t + 1];
                    assert(adjacent(edges, p[t], p[t + 1]));
                    lemma_nbrs_contains(edges, p[t], p[t + 1] as usize);
                    let k = choose|k: int|
                        0 <= k < edges.len() && links(#[trigger] edges[k], p[t], p[t + 1] as usize);
                    assert(edges[k].0 == edges[k].1);
                }
            }
        }
        lemma_same_partition_same_count(n, r, n, labels, count);
    } else {
        let k = choose|k: int| 0 <= k < edges.len() && (#[trigger] edges[k]).0 != edges[k].1;
        let a = edges[k].0 as int;
        let b = edges[k].1 as int;
        lemma_nbrs_contains(edges, a, b as usize);
        assert(links(edges[k], a, b as usize));
        let p = seq![a, b];
        assert(is_path(edges, p)) by {
            assert(adjacent(edges, p[0], p[1]));
        }
        assert(p[0] == a && p.last() == b);
        assert(connected(edges, a, b));
        assert(labels[a] == labels[b]);
        let xs = set_int_range(0, n).remove(b);
        let f = |u: int| labels[u] as int;
        lemma_int_range(0, n);
        assert(set_int_range(0, n).contains(b));
        assert(xs.map(f) =~= set_int_range(0, count)) by {
            assert forall|l: int| #[trigger] set_int_range(0, count).contains(l) implies xs.map(
                f,
            ).contains(l) by {
                assert(label_in_use(labels, l));
                let u = choose|u: int| 0 <= u < labels.len() && labels[u] == l;
                if u == b {
                    assert(xs.contains(a) && f(a) == l);
                } else {
                    assert(xs.contains(u) && f(u) == l);
                }
            }
            assert forall|l: int| #[trigger] xs.map(f).contains(l) implies set_int_range(
                0,
                count,
            ).contains(l) by {
                let u = choose|u: int| xs.contains(u) && f(u) == l;
                assert(labels[u] < count);
            }
        }
        lemma_map_size_bound(xs, set_int_range(0, count), f);
        lemma_int_range(0, count);
    }
}

} // verus!
