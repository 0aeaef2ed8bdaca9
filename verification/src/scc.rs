//! Strongly connected components, condensed by petgraph.
use crate::reach::{edges_below, reaches_along, single};
use vstd::prelude::*;

verus! {

/// What `petgraph::algo::condensation` returns, with `make_acyclic` set, for
/// the graph with nodes `0..n` added in order and the given edges added in
/// order: the members of each component (by node index), and the edges
/// between components.
pub uninterp spec fn condensation_of(n: nat, edges: Seq<(usize, usize)>) -> (Seq<Seq<usize>>, Seq<(usize, usize)>);

/// Whether node `x` stands in one of the component lists.
pub open spec fn in_some_comp(comps: Seq<Seq<usize>>, x: usize) -> bool {
    exists|c: int, k: int| 0 <= c < comps.len() && 0 <= k < comps[c].len() && #[trigger] comps[c][k] == x
}

/// Whether every node below `n` stands exactly once in exactly one of the
/// component lists, and the lists hold nothing else.
pub open spec fn partitions(comps: Seq<Seq<usize>>, n: nat) -> bool {
    &&& forall|c: int, k: int| 0 <= c < comps.len() && 0 <= k < comps[c].len() ==> #[trigger] comps[c][k] < n
    &&& forall|x: usize| x < n ==> #[trigger] in_some_comp(comps, x)
    &&& forall|c1: int, k1: int, c2: int, k2: int|
        0 <= c1 < comps.len() && 0 <= k1 < comps[c1].len() && 0 <= c2 < comps.len() && 0 <= k2 < comps[c2].len()
            && #[trigger] comps[c1][k1] == #[trigger] comps[c2][k2] ==> c1 == c2 && k1 == k2
}

/// Whether component `c` holds node `x`.
pub open spec fn in_comp(comps: Seq<Seq<usize>>, c: int, x: usize) -> bool {
    0 <= c < comps.len() && exists|k: int| 0 <= k < comps[c].len() && #[trigger] comps[c][k] == x
}

/// Whether nodes `x` and `y` reach each other along the edges.
pub open spec fn mutually_reachable(edges: Seq<(usize, usize)>, n: nat, x: usize, y: usize) -> bool {
    reaches_along(edges, single(n, x), y) && reaches_along(edges, single(n, y), x)
}

/// Condenses the graph with nodes `0..n` and the given edges with
/// `petgraph::algo::condensation`, removing self-loops and parallel edges.
///
/// Trusted: the result is `condensation_of` the arguments; as petgraph's
/// documentation and source show, every node lies in exactly one component,
/// once; two nodes share a component exactly when they reach each other (the
/// components are the strongly connected ones, found by Kosaraju's
/// algorithm); and the edges are the pairs of distinct components that an
/// edge of the graph joins, each once (`update_edge` adds no parallel edge and
/// self-loops are skipped).
#[verifier::external_body]
pub(crate) fn condense(n: usize, edges: &Vec<(usize, usize)>) -> (r: (Vec<Vec<usize>>, Vec<(usize, usize)>))
    requires
        n < u32::MAX,
        edges@.len() < u32::MAX,
        edges_below(edges@, n as nat),
    ensures
        (r.0.deep_view(), r.1@) == condensation_of(n as nat, edges@),
        partitions(r.0.deep_view(), n as nat),
        edges_below(r.1@, r.0@.len() as nat),
        forall|c1: int, k1: int, c2: int, k2: int|
            0 <= c1 < r.0@.len() && 0 <= k1 < r.0@[c1]@.len() && 0 <= c2 < r.0@.len() && 0 <= k2 < r.0@[c2]@.len()
                ==> (c1 == c2 <==> mutually_reachable(edges@, n as nat, #[trigger] r.0@[c1]@[k1], #[trigger] r.0@[c2]@[k2])),
        r.1@.no_duplicates(),
        forall|k: int| 0 <= k < r.1@.len() ==> (#[trigger] r.1@[k]).0 != r.1@[k].1 && exists|e: int|
            0 <= e < edges@.len() && in_comp(r.0.deep_view(), r.1@[k].0 as int, #[trigger] edges@[e].0) && in_comp(r.0.deep_view(), r.1@[k].1 as int, edges@[e].1),
        forall|e: int, c1: int, c2: int|
            0 <= e < edges@.len() && #[trigger] in_comp(r.0.deep_view(), c1, edges@[e].0) && #[trigger] in_comp(r.0.deep_view(), c2, edges@[e].1) && c1 != c2
                ==> r.1@.contains((c1 as usize, c2 as usize)),
{
    let mut g = petgraph::graph::Graph::<usize, ()>::with_capacity(n, edges.len());
    for i in 0..n {
        g.add_node(i);
    }
    for &(a, b) in edges.iter() {
        g.add_edge(petgraph::graph::NodeIndex::new(a), petgraph::graph::NodeIndex::new(b), ());
    }
    let c = petgraph::algo::condensation(g, true);
    let out = c.raw_edges().iter().map(|e| (e.source().index(), e.target().index())).collect();
    (c.into_nodes_edges().0.into_iter().map(|node| node.weight).collect(), out)
}

} // verus!
