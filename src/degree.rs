//! Degrees, density and degree centrality. Density and centrality are exact
//! fractions; a caller that wants a floating-point value divides.

use crate::graph::{edges_within, lemma_nbrs_within, nbrs, Graph};
use crate::sums::{
    lemma_range_sum_bump, lemma_range_sum_mono, lemma_range_sum_ones, lemma_seq_sum_as_range,
    lemma_range_sum_const, lemma_seq_sum_ones, range_sum,
};
use vstd::prelude::*;

verus! {

/// The degree of node `i`: the number of edge endpoints at it.
pub open spec fn degree(edges: Seq<(usize, usize)>, i: int) -> int {
    nbrs(edges, i).len() as int
}

/// The graph has neither parallel edges nor self-loops: no neighbour list
/// repeats an entry or holds its own node.
pub open spec fn is_simple(edges: Seq<(usize, usize)>, n: int) -> bool {
    forall|i: int|
        0 <= i < n ==> (#[trigger] nbrs(edges, i)).no_duplicates() && !nbrs(edges, i).contains(
            i as usize,
        )
}

/// Density as numerator and denominator: `2e / (n (n - 1))`, and `0 / 1`
/// below two nodes.
pub open spec fn density_ratio(n: int, e: int) -> (int, int) {
    if n <= 1 {
        (0, 1)
    } else {
        (2 * e, n * (n - 1))
    }
}

/// Degree centrality as numerator and denominator: `d / (n - 1)`, and `0 / 1`
/// below two nodes.
pub open spec fn centrality_ratio(n: int, d: int) -> (int, int) {
    if n <= 1 {
        (0, 1)
    } else {
        (d, n - 1)
    }
}

/// `r` lists the degree of each of the `n` nodes, by internal index.
pub open spec fn is_degree_list(edges: Seq<(usize, usize)>, n: int, r: Seq<usize>) -> bool {
    &&& r.len() == n
    &&& forall|i: int| 0 <= i < n ==> #[trigger] r[i] == degree(edges, i)
}

/// `r` lists the degree centrality of each of the `n` nodes, by internal index.
pub open spec fn is_centrality_list(edges: Seq<(usize, usize)>, n: int, r: Seq<Ratio>) -> bool {
    &&& r.len() == n
    &&& forall|i: int|
        0 <= i < n ==> (#[trigger] r[i].num as int, r[i].den as int) == centrality_ratio(
            n,
            degree(edges, i),
        )
}

/// The fraction `num / den`; the analyzers return it with `den > 0`.
#[derive(Clone, Copy, Debug, PartialEq, Eq, Structural)]
pub struct Ratio {
    pub num: u128,
    pub den: u128,
}

/// The degrees sum to twice the edge count: each edge adds one to the degree
/// of each endpoint, two to a node with a self-loop.
pub proof fn lemma_degree_sum(edges: Seq<(usize, usize)>, n: int)
    requires
        0 <= n,
        edges_within(edges, n),
    ensures
        range_sum(n, |i: int| degree(edges, i)) == 2 * edges.len(),
    decreases edges.len(),
{
    let f = |i: int| degree(edges, i);
    if edges.len() == 0 {
        crate::sums::lemma_range_sum_ext(n, f, |x: int| 0int);
        crate::sums::lemma_range_sum_zero(n);
    } else {
        let p = edges.drop_last();
        let e = edges.last();
        assert(edges[edges.len() - 1] == e);
        assert forall|k: int| 0 <= k < p.len() implies (#[trigger] p[k]).0 < n && p[k].1 < n by {
            assert(p[k] == edges[k]);
        }
        lemma_degree_sum(p, n);
        let g = |i: int| degree(p, i);
        let h = |i: int| degree(p, i) + if i == e.0 as int { 1int } else { 0 };
        lemma_range_sum_bump(n, h, g, e.0 as int, 1);
        lemma_range_sum_bump(n, f, h, e.1 as int, 1);
    }
}

/// A node of a simple graph has at most `n - 1` neighbours.
pub proof fn lemma_simple_degree(edges: Seq<(usize, usize)>, n: int, i: int)
    requires
        0 <= i < n <= usize::MAX,
        edges_within(edges, n),
        is_simple(edges, n),
    ensures
        degree(edges, i) <= n - 1,
{
    let s = nbrs(edges, i);
    let one = |x: int| 1int;
    lemma_nbrs_within(edges, n, i);
    lemma_seq_sum_ones(s);
    lemma_seq_sum_as_range(s, n, one);
    let g = |x: int| if x != i { 1int } else { 0 };
    lemma_range_sum_mono(
        n,
        |x: int|
            if 0 <= x && s.contains(x as usize) {
                one(x)
            } else {
                0
            },
        g,
    );
    lemma_range_sum_ones(n);
    lemma_range_sum_bump(n, one, g, i, 1);
}

/// The degree of every node, by internal index.
pub fn calculate_node_degrees(graph: &Graph) -> (r: Vec<usize>)
    requires
        graph.wf(),
    ensures
        is_degree_list(graph.spec_edges(), graph.spec_node_count(), r@),
{
    let n = graph.node_count();
    let mut r: Vec<usize> = Vec::new();
    let mut i: usize = 0;
    while i < n
        invariant
            graph.wf(),
            n == graph.spec_node_count(),
            i <= n,
            r@.len() == i,
            forall|j: int| 0 <= j < i ==> r@[j] == degree(graph.spec_edges(), j),
        decreases n - i,
    {
        r.push(graph.neighbors(i).len());
        i = i + 1;
    }
    r
}

/// The graph's density, `2 * edge_count / (node_count * (node_count - 1))`,
/// or zero below two nodes.
pub fn calculate_graph_density(graph: &Graph) -> (r: Ratio)
    requires
        graph.wf(),
    ensures
        (r.num as int, r.den as int) == density_ratio(
            graph.spec_node_count(),
            graph.spec_edges().len() as int,
        ),
{
    let n = graph.node_count() as u128;
    let e = graph.edge_count() as u128;
    if n <= 1 {
        Ratio { num: 0, den: 1 }
    } else {
        proof {
            graph.lemma_wf();
        }
        assert(n * (n - 1) <= u128::MAX) by (nonlinear_arith)
            requires
                n <= u64::MAX,
        ;
        Ratio { num: 2 * e, den: n * (n - 1) }
    }
}

/// The degree centrality of every node, `degree / (node_count - 1)`, by
/// internal index; zero for the single node of a one-node graph.
pub fn calculate_degree_centrality(graph: &Graph) -> (r: Vec<Ratio>)
    requires
        graph.wf(),
    ensures
        is_centrality_list(graph.spec_edges(), graph.spec_node_count(), r@),
{
    let n = graph.node_count();
    let mut r: Vec<Ratio> = Vec::new();
    let mut i: usize = 0;
    while i < n
        invariant
            graph.wf(),
            n == graph.spec_node_count(),
            i <= n,
            r@.len() == i,
            forall|j: int|
                0 <= j < i ==> (r@[j].num as int, r@[j].den as int) == centrality_ratio(
                    n as int,
                    degree(graph.spec_edges(), j),
                ),
        decreases n - i,
    {
        let d = graph.neighbors(i).len();
        if n <= 1 {
            r.push(Ratio { num: 0, den: 1 });
        } else {
            r.push(Ratio { num: d as u128, den: (n - 1) as u128 });
        }
        i = i + 1;
    }
    r
}

/// Handshake law: the degrees of a graph sum to twice its edge count,
/// self-loops and parallel edges counted as inserted.
pub proof fn lemma_handshake(graph: &Graph)
    requires
        graph.wf(),
    ensures
        range_sum(graph.spec_node_count(), |i: int| degree(graph.spec_edges(), i)) == 2
            * graph.spec_edges().len(),
{
    graph.lemma_wf();
    lemma_degree_sum(graph.spec_edges(), graph.spec_node_count());
}

/// Density is a fraction with a positive denominator; it lies in `[0, 1]` for
/// a simple graph of two or more nodes; and, for a graph with an edge or with
/// fewer than two nodes, it is zero exactly when there are fewer than two nodes.
pub proof fn lemma_density_bounds(graph: &Graph)
    requires
        graph.wf(),
    ensures
        ({
            let (num, den) = density_ratio(
                graph.spec_node_count(),
                graph.spec_edges().len() as int,
            );
            &&& 0 <= num
            &&& 0 < den
            &&& (is_simple(graph.spec_edges(), graph.spec_node_count())
                && graph.spec_node_count() >= 2 ==> num <= den)
            &&& (graph.spec_edges().len() > 0 || graph.spec_node_count() <= 1 ==> (num == 0
                <==> graph.spec_node_count() <= 1))
        }),
{
    let n = graph.spec_node_count();
    let edges = graph.spec_edges();
    if n >= 2 {
        assert(n * (n - 1) > 0) by (nonlinear_arith)
            requires
                n >= 2,
        ;
        if is_simple(edges, n) {
            lemma_handshake(graph);
            graph.lemma_wf();
            assert forall|i: int| 0 <= i < n implies #[trigger] degree(edges, i) <= n - 1 by {
                lemma_simple_degree(edges, n, i);
            }
            lemma_range_sum_mono(n, |i: int| degree(edges, i), |i: int| n - 1);
            lemma_range_sum_const(n, |i: int| n - 1, n - 1);
        }
    }
}

/// Degree centrality is a fraction with a positive denominator, and lies in
/// `[0, 1]` for every node of a simple graph of two or more nodes.
pub proof fn lemma_centrality_bounds(graph: &Graph, i: int)
    requires
        graph.wf(),
        0 <= i < graph.spec_node_count(),
    ensures
        ({
            let (num, den) = centrality_ratio(
                graph.spec_node_count(),
                degree(graph.spec_edges(), i),
            );
            &&& 0 <= num
            &&& 0 < den
            &&& (is_simple(graph.spec_edges(), graph.spec_node_count())
                && graph.spec_node_count() >= 2 ==> num <= den)
        }),
{
    if is_simple(graph.spec_edges(), graph.spec_node_count()) {
        graph.lemma_wf();
        lemma_simple_degree(graph.spec_edges(), graph.spec_node_count(), i);
    }
}

} // verus!
