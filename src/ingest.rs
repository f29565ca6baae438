//! Building a graph store from a stream of identifier pairs.

use crate::graph::{Graph, MAX_EDGES};
use vstd::prelude::*;

verus! {

/// The identifiers of `pairs`, in order: both of the first pair, then both of
/// the second, and so on.
pub open spec fn endpoints(pairs: Seq<(u64, u64)>) -> Seq<u64>
    decreases pairs.len(),
{
    if pairs.len() == 0 {
        Seq::empty()
    } else {
        endpoints(pairs.drop_last()).push(pairs.last().0).push(pairs.last().1)
    }
}

/// `s` with every repeat of an earlier entry left out.
pub open spec fn first_seen(s: Seq<u64>) -> Seq<u64>
    decreases s.len(),
{
    if s.len() == 0 {
        Seq::empty()
    } else {
        let d = first_seen(s.drop_last());
        if d.contains(s.last()) {
            d
        } else {
            d.push(s.last())
        }
    }
}

/// The graph with one edge per pair: nodes are indexed in the order their
/// identifiers first occur, and edge `k` joins the nodes of pair `k`.
pub fn build_graph(pairs: &Vec<(u64, u64)>) -> (g: Graph)
    requires
        pairs@.len() <= MAX_EDGES,
    ensures
        g.wf(),
        g.spec_ids() == first_seen(endpoints(pairs@)),
        g.spec_edges().len() == pairs@.len(),
        forall|k: int|
            0 <= k < pairs@.len() ==> g.spec_ids()[(#[trigger] g.spec_edges()[k]).0 as int]
                == pairs@[k].0 && g.spec_ids()[g.spec_edges()[k].1 as int] == pairs@[k].1,
{
    let mut g = Graph::new();
    let mut k: usize = 0;
    while k < pairs.len()
        invariant
            g.wf(),
            k <= pairs@.len(),
            pairs@.len() <= MAX_EDGES,
            g.spec_ids() == first_seen(endpoints(pairs@.subrange(0, k as int))),
            g.spec_edges().len() == k,
            forall|j: int|
                0 <= j < k ==> g.spec_ids()[(#[trigger] g.spec_edges()[j]).0 as int]
                    == pairs@[j].0 && g.spec_ids()[g.spec_edges()[j].1 as int] == pairs@[j].1,
        decreases pairs@.len() - k,
    {
        let (x, y) = pairs[k];
        let ghost before = endpoints(pairs@.subrange(0, k as int));
        assert(pairs@.subrange(0, k + 1).drop_last() == pairs@.subrange(0, k as int));
        assert(endpoints(pairs@.subrange(0, k + 1)) == before.push(x).push(y));
        assert(before.push(x).push(y).drop_last() == before.push(x));
        assert(before.push(x).drop_last() == before);
        assert(before.push(x).last() == x);
        assert(before.push(x).push(y).last() == y);
        let ghost d0 = first_seen(before);
        let ghost d1 = first_seen(before.push(x));
        assert(d1 == if d0.contains(x) {
            d0
        } else {
            d0.push(x)
        });
        assert(first_seen(before.push(x).push(y)) == if d1.contains(y) {
            d1
        } else {
            d1.push(y)
        });
        let ghost g0 = g;
        proof {
            g0.lemma_wf();
        }
        let a = g.add_node(x);
        let ghost g1 = g;
        let b = g.add_node(y);
        assert(g.spec_ids()[a as int] == x) by {
            if g1.spec_ids() != g.spec_ids() {
                assert(g.spec_ids() == g1.spec_ids().push(y));
            }
        }
        g.add_edge(a, b);
        assert forall|j: int|
            0 <= j < k + 1 implies g.spec_ids()[(#[trigger] g.spec_edges()[j]).0 as int]
            == pairs@[j].0 && g.spec_ids()[g.spec_edges()[j].1 as int] == pairs@[j].1 by {
            if j < k {
                assert(g.spec_edges()[j] == g0.spec_edges()[j]);
                g0.lemma_wf();
                assert(g0.spec_edges()[j].0 < g0.spec_ids().len());
                assert(g0.spec_edges()[j].1 < g0.spec_ids().len());
                assert(g1.spec_ids().subrange(0, g0.spec_ids().len() as int) == g0.spec_ids()) by {
                    if g1.spec_ids() != g0.spec_ids() {
                        assert(g1.spec_ids() == g0.spec_ids().push(x));
                    }
                }
                assert(g.spec_ids().subrange(0, g1.spec_ids().len() as int) == g1.spec_ids()) by {
                    if g1.spec_ids() != g.spec_ids() {
                        assert(g.spec_ids() == g1.spec_ids().push(y));
                    }
                }
                assert(g.spec_ids()[g0.spec_edges()[j].0 as int] == g0.spec_ids()[g0.spec_edges()[j].0 as int]);
                assert(g.spec_ids()[g0.spec_edges()[j].1 as int] == g0.spec_ids()[g0.spec_edges()[j].1 as int]);
            }
        }
        k = k + 1;
    }
    assert(pairs@.subrange(0, pairs@.len() as int) == pairs@);
    g
}

} // verus!
