//! The graph store: nodes with external identifiers, dense internal indices
//! assigned in first-seen order, and an adjacency list per node.

use std::collections::HashMap;
use vstd::prelude::*;

verus! {

broadcast use vstd::std_specs::hash::group_hash_axioms;

/// The most edges a graph holds; it keeps every count the analyzers build
/// within 64 bits.
pub const MAX_EDGES: usize = 0x4000_0000;

/// The neighbour list of node `i` under the edge list `edges`: every edge
/// appends its second endpoint to the list of its first endpoint, then its
/// first endpoint to the list of its second. A self-loop thus puts `i` twice
/// in its own list, and parallel edges repeat entries.
pub open spec fn nbrs(edges: Seq<(usize, usize)>, i: int) -> Seq<usize>
    decreases edges.len(),
{
    if edges.len() == 0 {
        Seq::empty()
    } else {
        let e = edges.last();
        let prev = nbrs(edges.drop_last(), i);
        let with_second = if e.0 as int == i {
            prev.push(e.1)
        } else {
            prev
        };
        if e.1 as int == i {
            with_second.push(e.0)
        } else {
            with_second
        }
    }
}

/// `b` is a neighbour of `a`.
pub open spec fn adjacent(edges: Seq<(usize, usize)>, a: int, b: int) -> bool {
    0 <= b <= usize::MAX && nbrs(edges, a).contains(b as usize)
}

/// Every endpoint of every edge is below `n`.
pub open spec fn edges_within(edges: Seq<(usize, usize)>, n: int) -> bool {
    forall|k: int| 0 <= k < edges.len() ==> (#[trigger] edges[k]).0 < n && edges[k].1 < n
}

/// A node that no edge touches has no neighbours.
pub proof fn lemma_nbrs_untouched(edges: Seq<(usize, usize)>, i: int)
    requires
        forall|k: int| 0 <= k < edges.len() ==> (#[trigger] edges[k]).0 != i && edges[k].1 != i,
    ensures
        nbrs(edges, i) == Seq::<usize>::empty(),
    decreases edges.len(),
{
    if edges.len() > 0 {
        let p = edges.drop_last();
        assert forall|k: int| 0 <= k < p.len() implies (#[trigger] p[k]).0 != i && p[k].1 != i by {
            assert(p[k] == edges[k]);
        }
        lemma_nbrs_untouched(p, i);
    }
}

/// Edge `e` joins `i` to `x`, in either direction.
pub open spec fn links(e: (usize, usize), i: int, x: usize) -> bool {
    (e.0 as int == i && e.1 == x) || (e.1 as int == i && e.0 == x)
}

/// `x` is a neighbour of `i` exactly when some edge joins them.
pub proof fn lemma_nbrs_contains(edges: Seq<(usize, usize)>, i: int, x: usize)
    ensures
        nbrs(edges, i).contains(x) <==> exists|k: int|
            0 <= k < edges.len() && links(#[trigger] edges[k], i, x),
    decreases edges.len(),
{
    if edges.len() > 0 {
        let p = edges.drop_last();
        let e = edges.last();
        lemma_nbrs_contains(p, i, x);
        let prev = nbrs(p, i);
        let mid = if e.0 as int == i { prev.push(e.1) } else { prev };
        let s = nbrs(edges, i);
        assert(prev.is_prefix_of(mid) && mid.is_prefix_of(s));
        if prev.contains(x) {
            let j = choose|j: int| 0 <= j < prev.len() && prev[j] == x;
            assert(s[j] == x);
            let k = choose|k: int| 0 <= k < p.len() && links(#[trigger] p[k], i, x);
            assert(edges[k] == p[k]);
        } else if links(e, i, x) {
            assert(edges[edges.len() - 1] == e);
            if e.0 as int == i && e.1 == x {
                assert(s[prev.len() as int] == x);
            } else {
                assert(s[mid.len() as int] == x);
            }
        } else {
            assert forall|k: int| 0 <= k < edges.len() implies !links(#[trigger] edges[k], i, x) by {
                if k < p.len() {
                    assert(edges[k] == p[k]);
                }
            }
            if s.contains(x) {
                let j = choose|j: int| 0 <= j < s.len() && s[j] == x;
                if j < prev.len() {
                    assert(prev[j] == x);
                }
            }
        }
    }
}

/// Every neighbour is an endpoint of some edge, hence below the node count.
pub proof fn lemma_nbrs_within(edges: Seq<(usize, usize)>, n: int, i: int)
    requires
        edges_within(edges, n),
    ensures
        forall|j: int| 0 <= j < nbrs(edges, i).len() ==> #[trigger] nbrs(edges, i)[j] < n,
{
    let s = nbrs(edges, i);
    assert forall|j: int| 0 <= j < s.len() implies #[trigger] s[j] < n by {
        assert(s.contains(s[j]));
        lemma_nbrs_contains(edges, i, s[j]);
        let k = choose|k: int| 0 <= k < edges.len() && links(#[trigger] edges[k], i, s[j]);
    }
}

/// Adjacency is symmetric.
pub proof fn lemma_adjacent_symmetric(edges: Seq<(usize, usize)>, a: int, b: int)
    requires
        0 <= a <= usize::MAX,
        adjacent(edges, a, b),
    ensures
        adjacent(edges, b, a),
{
    lemma_nbrs_contains(edges, a, b as usize);
    let k = choose|k: int| 0 <= k < edges.len() && links(#[trigger] edges[k], a, b as usize);
    lemma_nbrs_contains(edges, b, a as usize);
    assert(links(edges[k], b, a as usize));
}

/// An undirected multigraph over nodes with `u64` identifiers.
pub struct Graph {
    ids: Vec<u64>,
    index: HashMap<u64, usize>,
    adj: Vec<Vec<usize>>,
    edges: Vec<(usize, usize)>,
}

impl Graph {
    /// The identifier of each node, by internal index.
    pub closed spec fn spec_ids(&self) -> Seq<u64> {
        self.ids@
    }

    /// The edges, as pairs of internal indices, in insertion order.
    pub closed spec fn spec_edges(&self) -> Seq<(usize, usize)> {
        self.edges@
    }

    pub open spec fn spec_node_count(&self) -> int {
        self.spec_ids().len() as int
    }

    /// The store's invariant.
    pub closed spec fn wf(&self) -> bool {
        &&& self.adj@.len() == self.ids@.len()
        &&& self.edges@.len() <= MAX_EDGES
        &&& edges_within(self.edges@, self.ids@.len() as int)
        &&& forall|i: int|
            0 <= i < self.adj@.len() ==> (#[trigger] self.adj@[i])@ == nbrs(self.edges@, i)
        &&& self.ids@.no_duplicates()
        &&& forall|id: u64| self.index@.contains_key(id) <==> self.ids@.contains(id)
        &&& forall|id: u64| #[trigger]
            self.index@.contains_key(id) ==> self.index@[id] < self.ids@.len()
                && self.ids@[self.index@[id] as int] == id
    }

    /// What every well-formed graph satisfies, for use outside this module.
    pub proof fn lemma_wf(&self)
        requires
            self.wf(),
        ensures
            self.spec_ids().no_duplicates(),
            self.spec_edges().len() <= MAX_EDGES,
            edges_within(self.spec_edges(), self.spec_node_count()),
            self.spec_node_count() <= usize::MAX,
    {
        assert(self.ids.len() as int == self.ids@.len());
    }

    /// An empty graph.
    pub fn new() -> (r: Graph)
        ensures
            r.wf(),
            r.spec_ids() == Seq::<u64>::empty(),
            r.spec_edges() == Seq::<(usize, usize)>::empty(),
    {
        Graph { ids: Vec::new(), index: HashMap::new(), adj: Vec::new(), edges: Vec::new() }
    }

    /// The index of node `id`, added as the next index if it is new.
    pub fn add_node(&mut self, id: u64) -> (r: usize)
        requires
            old(self).wf(),
        ensures
            final(self).wf(),
            final(self).spec_edges() == old(self).spec_edges(),
            old(self).spec_ids().contains(id) ==> final(self).spec_ids() == old(self).spec_ids()
                && r < old(self).spec_node_count() && old(self).spec_ids()[r as int] == id,
            !old(self).spec_ids().contains(id) ==> final(self).spec_ids() == old(
                self,
            ).spec_ids().push(id) && r == old(self).spec_node_count(),
    {
        match self.index.get(&id) {
            Some(i) => *i,
            None => {
                let n = self.ids.len();
                proof {
                    lemma_nbrs_untouched(self.edges@, n as int);
                }
                self.ids.push(id);
                self.adj.push(Vec::new());
                self.index.insert(id, n);
                assert forall|x: u64| self.index@.contains_key(x) <==> self.ids@.contains(x) by {
                    if x != id && old(self).ids@.contains(x) {
                        let j = choose|j: int| 0 <= j < old(self).ids@.len() && old(self).ids@[j] == x;
                        assert(self.ids@[j] == x);
                    }
                    if self.ids@.contains(x) && x != id {
                        let j = choose|j: int| 0 <= j < self.ids@.len() && self.ids@[j] == x;
                        assert(old(self).ids@[j] == x);
                    }
                    assert(self.ids@[n as int] == id);
                }
                assert forall|x: u64| #[trigger]
                    self.index@.contains_key(x) implies self.index@[x] < self.ids@.len()
                    && self.ids@[self.index@[x] as int] == x by {
                    if x != id {
                        assert(old(self).index@.contains_key(x));
                    }
                }
                assert(self.ids@.no_duplicates()) by {
                    assert forall|j: int| 0 <= j < n implies old(self).ids@[j] != id by {
                        assert(old(self).ids@.contains(old(self).ids@[j]));
                    }
                }
                assert forall|i: int| 0 <= i < self.adj@.len() implies (#[trigger] self.adj@[i])@
                    == nbrs(self.edges@, i) by {
                    if i < n {
                        assert(self.adj@[i] == old(self).adj@[i]);
                    }
                }
                n
            },
        }
    }

    /// Appends the undirected edge between `a` and `b`; self-loops and
    /// parallel edges are kept as given.
    pub fn add_edge(&mut self, a: usize, b: usize)
        requires
            old(self).wf(),
            a < old(self).spec_node_count(),
            b < old(self).spec_node_count(),
            old(self).spec_edges().len() < MAX_EDGES,
        ensures
            final(self).wf(),
            final(self).spec_ids() == old(self).spec_ids(),
            final(self).spec_edges() == old(self).spec_edges().push((a, b)),
    {
        self.edges.push((a, b));
        self.adj[a].push(b);
        self.adj[b].push(a);
        assert(self.edges@.drop_last() == old(self).edges@);
        assert forall|i: int|
            0 <= i < self.adj@.len() implies (#[trigger] self.adj@[i])@ == nbrs(self.edges@, i) by {
            assert(old(self).adj@[i]@ == nbrs(old(self).edges@, i));
        }
        assert forall|k: int| 0 <= k < self.edges@.len() implies (#[trigger] self.edges@[k]).0
            < self.ids@.len() && self.edges@[k].1 < self.ids@.len() by {
            if k < old(self).edges@.len() {
                assert(self.edges@[k] == old(self).edges@[k]);
            }
        }
    }

    /// The number of nodes.
    pub fn node_count(&self) -> (r: usize)
        requires
            self.wf(),
        ensures
            r == self.spec_node_count(),
    {
        self.ids.len()
    }

    /// The number of edges, each counted once.
    pub fn edge_count(&self) -> (r: usize)
        requires
            self.wf(),
        ensures
            r == self.spec_edges().len(),
    {
        self.edges.len()
    }

    /// The neighbours of node `i`, one entry per edge endpoint occurrence.
    pub fn neighbors(&self, i: usize) -> (r: &Vec<usize>)
        requires
            self.wf(),
            i < self.spec_node_count(),
        ensures
            r@ == nbrs(self.spec_edges(), i as int),
    {
        &self.adj[i]
    }

    /// The external identifier of node `i`.
    pub fn node_id(&self, i: usize) -> (r: u64)
        requires
            self.wf(),
            i < self.spec_node_count(),
        ensures
            r == self.spec_ids()[i as int],
    {
        self.ids[i]
    }

    /// The internal index of the node with identifier `id`, if there is one.
    pub fn index_of(&self, id: u64) -> (r: Option<usize>)
        requires
            self.wf(),
        ensures
            r matches Some(i) ==> i < self.spec_node_count() && self.spec_ids()[i as int] == id,
            r is None <==> !self.spec_ids().contains(id),
    {
        match self.index.get(&id) {
            Some(i) => Some(*i),
            None => None,
        }
    }

    /// The `k`-th edge, as it was added.
    pub fn edge(&self, k: usize) -> (r: (usize, usize))
        requires
            self.wf(),
            k < self.spec_edges().len(),
        ensures
            r == self.spec_edges()[k as int],
    {
        self.edges[k]
    }
}

} // verus!
