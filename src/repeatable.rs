//! Analyzers read the graph and nothing else, so their results are fixed by it.

use crate::components::{is_component_labelling, lemma_same_partition_same_count};
use crate::degree::{density_ratio, is_centrality_list, is_degree_list, Ratio};
use crate::graph::Graph;
use crate::partition::is_sequential_labelling;
use crate::triangles::triangle_count;
use vstd::prelude::*;

verus! {

/// Two runs of every analyzer on one graph agree: the degree lists, the
/// centrality lists, the triangle counts, the densities and the sequential
/// labellings are equal, and the two component labellings put the same pairs
/// of nodes together and count the same number of components.
pub proof fn lemma_analyses_repeatable(
    graph: &Graph,
    degrees: (Seq<usize>, Seq<usize>),
    centralities: (Seq<Ratio>, Seq<Ratio>),
    triangles: (u64, u64),
    densities: (Ratio, Ratio),
    partitions: (Seq<usize>, Seq<usize>),
    components: ((Seq<usize>, int), (Seq<usize>, int)),
)
    requires
        graph.wf(),
        is_degree_list(graph.spec_edges(), graph.spec_node_count(), degrees.0),
        is_degree_list(graph.spec_edges(), graph.spec_node_count(), degrees.1),
        is_centrality_list(graph.spec_edges(), graph.spec_node_count(), centralities.0),
        is_centrality_list(graph.spec_edges(), graph.spec_node_count(), centralities.1),
        triangles.0 == triangle_count(graph.spec_edges(), graph.spec_node_count()),
        triangles.1 == triangle_count(graph.spec_edges(), graph.spec_node_count()),
        (densities.0.num as int, densities.0.den as int) == density_ratio(
            graph.spec_node_count(),
            graph.spec_edges().len() as int,
        ),
        (densities.1.num as int, densities.1.den as int) == density_ratio(
            graph.spec_node_count(),
            graph.spec_edges().len() as int,
        ),
        is_sequential_labelling(graph.spec_node_count(), partitions.0),
        is_sequential_labelling(graph.spec_node_count(), partitions.1),
        is_component_labelling(
            graph.spec_edges(),
            graph.spec_node_count(),
            components.0.0,
            components.0.1,
        ),
        is_component_labelling(
            graph.spec_edges(),
            graph.spec_node_count(),
            components.1.0,
            components.1.1,
        ),
    ensures
        degrees.0 == degrees.1,
        centralities.0 == centralities.1,
        triangles.0 == triangles.1,
        densities.0 == densities.1,
        partitions.0 == partitions.1,
        forall|u: int, v: int|
            0 <= u < graph.spec_node_count() && 0 <= v < graph.spec_node_count() ==> (
            #[trigger] components.0.0[u] == #[trigger] components.0.0[v] <==> components.1.0[u]
                == components.1.0[v]),
        components.0.1 == components.1.1,
{
    assert(degrees.0 =~= degrees.1);
    assert(partitions.0 =~= partitions.1);
    assert(centralities.0 =~= centralities.1) by {
        assert forall|i: int| 0 <= i < centralities.0.len() implies centralities.0[i]
            == centralities.1[i] by {
            let a = centralities.0[i];
            let b = centralities.1[i];
            assert((a.num as int, a.den as int) == (b.num as int, b.den as int));
        }
    }
    let u = components.0.0;
    let w = components.1.0;
    assert forall|x: int, y: int|
        0 <= x < graph.spec_node_count() && 0 <= y < graph.spec_node_count() implies (
        #[trigger] u[x] == #[trigger] u[y] <==> w[x] == w[y]) by {
        assert(u[x] == u[y] <==> crate::components::connected(graph.spec_edges(), x, y));
        assert(w[x] == w[y] <==> crate::components::connected(graph.spec_edges(), x, y));
    }
    lemma_same_partition_same_count(graph.spec_node_count(), u, components.0.1, w, components.1.1);
}

} // verus!
