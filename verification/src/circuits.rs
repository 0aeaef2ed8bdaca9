//! Elementary circuits of a net, found by graph-cycles on a petgraph graph.

use crate::cycles::next_index;
use crate::net::{Net, Node};
use crate::path::{alternates, kinds_differ, lemma_parity, Circuit, Path};
use crate::reach::edges_below;
use graph_cycles::Cycles;
use vstd::prelude::*;

verus! {

/// What `graph_cycles::Cycles::cycles` returns for the petgraph graph with
/// nodes `0..n` added in order and the given edges added in order: the node
/// indices of each elementary cycle.
pub uninterp spec fn cycles_of(n: nat, edges: Seq<(usize, usize)>) -> Seq<Seq<usize>>;

/// Whether `c` is a nonempty list of nodes, each joined by an edge to the
/// next and the last to the first.
pub open spec fn is_edge_cycle(edges: Seq<(usize, usize)>, c: Seq<usize>) -> bool {
    &&& c.len() > 0
    &&& forall|i: int| 0 <= i < c.len() ==> edges.contains((c[i], #[trigger] c[next_index(i, c.len() as int)]))
}

/// Finds the elementary cycles of the graph with nodes `0..n` and the given
/// edges with `graph_cycles::Cycles::cycles` (Johnson's algorithm).
///
/// Trusted: the result is `cycles_of` the arguments; as the crate's source
/// shows (each cycle is the search stack of Johnson's algorithm when an edge
/// leads back to its start, and a node is blocked from the moment it is
/// pushed until it is popped), each listed cycle follows edges of the graph
/// and visits no node twice. That every elementary cycle is listed, once, is
/// left unsaid.
#[verifier::external_body]
pub(crate) fn find_cycles(n: usize, edges: &Vec<(usize, usize)>) -> (r: Vec<Vec<usize>>)
    requires
        n < u32::MAX,
        edges@.len() < u32::MAX,
        edges_below(edges@, n as nat),
    ensures
        r.deep_view() == cycles_of(n as nat, edges@),
        forall|i: int| 0 <= i < r@.len() ==> is_edge_cycle(edges@, #[trigger] r.deep_view()[i]),
        forall|i: int| 0 <= i < r@.len() ==> (#[trigger] r.deep_view()[i]).no_duplicates(),
{
    let mut g = petgraph::graph::Graph::<(), ()>::with_capacity(n, edges.len());
    for _ in 0..n {
        g.add_node(());
    }
    for &(a, b) in edges.iter() {
        g.add_edge(petgraph::graph::NodeIndex::new(a), petgraph::graph::NodeIndex::new(b), ());
    }
    g.cycles().into_iter().map(|c| c.into_iter().map(|v| v.index()).collect()).collect()
}

impl Net {
    /// The nodes at the unified indices of `c`.
    pub open spec fn nodes_at(&self, c: Seq<usize>) -> Seq<Node> {
        c.map_values(|x: usize| self.node_at(x as int))
    }

    /// The elementary circuits that graph-cycles finds in the net.
    pub open spec fn circuit_indices(&self) -> Seq<Seq<usize>> {
        cycles_of(self.np() + self.nt(), self.flow_edges())
    }

    /// The elementary circuits of the net, as found by graph-cycles.
    pub fn circuits(&self) -> (r: Vec<Circuit>)
        requires
            self.wf(),
            self.np() + self.nt() < u32::MAX,
            self.arc_set().len() < u32::MAX,
        ensures
            r@.len() == self.circuit_indices().len(),
            forall|i: int| 0 <= i < r@.len() ==> is_edge_cycle(self.flow_edges(), #[trigger] self.circuit_indices()[i]),
            forall|i: int| 0 <= i < r@.len() ==> (#[trigger] self.circuit_indices()[i]).no_duplicates(),
            forall|i: int| 0 <= i < r@.len() ==> (#[trigger] r@[i]).node_seq() == self.nodes_at(self.circuit_indices()[i]),
    {
        proof {
            self.lemma_wf();
            self.lemma_flow_edges();
        }
        let np = self.num_places();
        let n = np + self.num_transitions();
        let edges = self.flow_edge_list();
        let found = find_cycles(n, &edges);
        let ghost cs = found.deep_view();
        let mut out: Vec<Circuit> = Vec::new();
        let mut i: usize = 0;
        while i < found.len()
            invariant
                self.wf(),
                np == self.np(),
                n == self.np() + self.nt(),
                edges@ == self.flow_edges(),
                forall|e: (usize, usize)| #[trigger] self.flow_edges().contains(e) <==> self.is_flow_pair(e),
                cs == found.deep_view(),
                cs == self.circuit_indices(),
                forall|k: int| 0 <= k < found@.len() ==> is_edge_cycle(edges@, #[trigger] cs[k]),
                found@.len() == cs.len(),
                0 <= i <= found@.len(),
                out@.len() == i,
                forall|k: int| 0 <= k < i ==> (#[trigger] out@[k]).node_seq() == self.nodes_at(cs[k]),
            decreases found@.len() - i,
        {
            let c = &found[i];
            assert(c@ == cs[i as int]);
            assert(is_edge_cycle(edges@, c@));
            let mut nodes: Vec<Node> = Vec::new();
            let mut k: usize = 0;
            while k < c.len()
                invariant
                    self.wf(),
                    np == self.np(),
                    n == self.np() + self.nt(),
                    edges@ == self.flow_edges(),
                    forall|e: (usize, usize)| #[trigger] self.flow_edges().contains(e) <==> self.is_flow_pair(e),
                    is_edge_cycle(edges@, c@),
                    0 <= k <= c@.len(),
                    nodes@.len() == k,
                    forall|m: int| 0 <= m < k ==> #[trigger] nodes@[m] == self.node_at(c@[m] as int),
                decreases c@.len() - k,
            {
                let x = c[k];
                proof {
                    assert(edges@.contains((c@[k as int], c@[next_index(k as int, c@.len() as int)])));
                    assert(self.is_flow_pair((c@[k as int], c@[next_index(k as int, c@.len() as int)])));
                }
                let node = if x < np {
                    Node::Place(self.place_at(x))
                } else {
                    Node::Transition(self.transition_at(x - np))
                };
                nodes.push(node);
                k = k + 1;
            }
            proof {
                assert(nodes@ == self.nodes_at(c@));
                let len = c@.len() as int;
                assert forall|m: int| 0 <= m < nodes@.len() - 1 implies #[trigger] kinds_differ(nodes@[m], nodes@[m + 1]) by {
                    assert(next_index(m, len) == m + 1);
                    assert(edges@.contains((c@[m], c@[next_index(m, len)])));
                    assert(self.is_flow_pair((c@[m], c@[m + 1])));
                }
                assert(edges@.contains((c@[len - 1], c@[next_index(len - 1, len)])));
                assert(self.is_flow_pair((c@[len - 1], c@[0])));
                assert(kinds_differ(nodes@[len - 1], nodes@[0]));
                lemma_parity(nodes@, len - 1);
            }
            let path = match Path::try_from_nodes(nodes) {
                Ok(p) => p,
                Err(_) => {
                    proof {
                        assert(false);
                    }
                    return out;
                },
            };
            let circuit = match Circuit::try_from_path(path) {
                Ok(ci) => ci,
                Err(_) => {
                    proof {
                        assert(false);
                    }
                    return out;
                },
            };
            out.push(circuit);
            i = i + 1;
        }
        out
    }
}


impl Net {
    /// The elementary circuits as lists of unified node indices.
    pub(crate) fn circuit_index_lists(&self) -> (r: Vec<Vec<usize>>)
        requires
            self.wf(),
            self.np() + self.nt() < u32::MAX,
            self.arc_set().len() < u32::MAX,
        ensures
            r.deep_view() == self.circuit_indices(),
            forall|i: int| 0 <= i < r@.len() ==> is_edge_cycle(self.flow_edges(), #[trigger] r.deep_view()[i]),
            forall|i: int| 0 <= i < r@.len() ==> (#[trigger] r.deep_view()[i]).no_duplicates(),
    {
        proof {
            self.lemma_wf();
            self.lemma_flow_edges();
        }
        let n = self.num_places() + self.num_transitions();
        let edges = self.flow_edge_list();
        find_cycles(n, &edges)
    }
}

} // verus!
