//! Structural checks on marked graphs, and the evidence types of analyses.
use crate::marking::{Marking, OmegaMarking};
use crate::net::{Net, Place, Transition};
use vstd::prelude::*;

verus! {

/// Whether every place of `places` belongs to the net and is consumed by
/// exactly one transition, as in a marked graph.
pub open spec fn single_output_places(net: Net, places: Seq<Place>) -> bool {
    forall|k: int| 0 <= k < places.len() ==> {
        let p = #[trigger] net.place_seq().index_of(places[k]);
        &&& net.place_set().contains(places[k])
        &&& exists|t: int| 0 <= t < net.nt() && net.consumes(t, p)
        &&& forall|t: int, u: int| 0 <= t < net.nt() && 0 <= u < net.nt() && #[trigger] net.consumes(t, p) && #[trigger] net.consumes(u, p) ==> t == u
    }
}

/// The transition that consumes from the place at dense index `p`.
pub open spec fn sole_output(net: Net, p: int) -> int {
    choose|t: int| 0 <= t < net.nt() && net.consumes(t, p)
}

/// The places a cycle may run through: unmarked places of `internal_places`
/// whose consuming transition lies in component `scc_idx`.
pub open spec fn zero_cycle_mask(
    net: Net,
    marking: Marking<u32>,
    internal_places: Seq<Place>,
    trans_to_scc: Seq<usize>,
    scc_idx: usize,
) -> Seq<bool> {
    Seq::new(
        net.np(),
        |k: int|
            internal_places.contains(net.place_seq()[k]) && marking.count(net.place_seq()[k]) == 0
                && trans_to_scc[sole_output(net, k)] == scc_idx,
    )
}

/// Whether a directed cycle of unmarked places of `internal_places` runs
/// within component `scc_idx` of a marked graph's transition graph, where
/// `trans_to_scc` gives the component of each transition by dense index.
///
/// Such a cycle is an unmarked circuit: not every circuit of the component
/// is marked.
pub fn has_zero_token_cycle(
    net: &Net,
    marking: &Marking<u32>,
    internal_places: &Vec<Place>,
    trans_to_scc: &Vec<usize>,
    scc_idx: usize,
) -> (r: bool)
    requires
        net.wf(),
        marking.wf(),
        trans_to_scc@.len() >= net.nt(),
        single_output_places(*net, internal_places@),
    ensures
        r == net.has_place_circuit(zero_cycle_mask(*net, *marking, internal_places@, trans_to_scc@, scc_idx)),
{
    proof {
        net.lemma_wf();
    }
    let ghost mask = zero_cycle_mask(*net, *marking, internal_places@, trans_to_scc@, scc_idx);
    let np = net.num_places();
    let mut alive: Vec<bool> = Vec::new();
    let mut i: usize = 0;
    while i < np
        invariant
            np == net.np(),
            0 <= i <= np,
            alive@.len() == i,
            forall|k: int| 0 <= k < i ==> !alive@[k],
        decreases np - i,
    {
        alive.push(false);
        i = i + 1;
    }
    let mut j: usize = 0;
    while j < internal_places.len()
        invariant
            net.wf(),
            marking.wf(),
            np == net.np(),
            trans_to_scc@.len() >= net.nt(),
            single_output_places(*net, internal_places@),
            mask == zero_cycle_mask(*net, *marking, internal_places@, trans_to_scc@, scc_idx),
            net.place_seq().no_duplicates(),
            alive@.len() == np,
            0 <= j <= internal_places@.len(),
            forall|k: int| 0 <= k < np && #[trigger] alive@[k] ==> mask[k],
            forall|jj: int| 0 <= jj < j ==> alive@[#[trigger] net.place_seq().index_of(internal_places@[jj])] == mask[net.place_seq().index_of(internal_places@[jj])],
            forall|k: int| 0 <= k < np && !internal_places@.subrange(0, j as int).contains(net.place_seq()[k]) ==> !#[trigger] alive@[k],
        decreases internal_places@.len() - j,
    {
        let p = internal_places[j];
        proof {
            assert(net.place_seq().index_of(internal_places@[j as int]) == net.place_seq().index_of(p));
        }
        match net.place_index(p) {
            Some(idx) => {
                proof {
                    net.place_seq().index_of_first(p);
                    assert(net.place_seq().index_of(p) == idx as int) by {
                        let f = net.place_seq().index_of(p);
                        assert(net.place_seq()[f] == p);
                        assert(net.place_seq().contains(p));
                    }
                }
                let ts = net.step_list(true, idx);
                let ghost t0 = sole_output(*net, idx as int);
                proof {
                    assert(exists|t: int| 0 <= t < net.nt() && net.consumes(t, idx as int));
                    net.lemma_wf();
                    assert(0 <= t0 < net.nt() && net.consumes(t0, idx as int));
                    assert(((t0 as usize) as int) == t0);
                    assert(ts@.contains(t0 as usize));
                }
                let t = ts[0];
                proof {
                    assert(ts@.contains(t));
                    assert(net.consumes(t as int, idx as int));
                    assert(t as int == t0);
                }
                let flag = marking.get(p) == 0 && trans_to_scc[t] == scc_idx;
                let ghost a0 = alive@;
                alive.set(idx, flag);
                proof {
                    assert(internal_places@.contains(p)) by {
                        assert(internal_places@[j as int] == p);
                    }
                    assert(flag == mask[idx as int]);
                    assert forall|jj: int| 0 <= jj < j + 1 implies alive@[#[trigger] net.place_seq().index_of(internal_places@[jj])] == mask[net.place_seq().index_of(internal_places@[jj])] by {
                        if jj < j {
                            let f = net.place_seq().index_of(internal_places@[jj]);
                            if f != idx as int {
                                assert(alive@[f] == a0[f]);
                            }
                        }
                    }
                    assert forall|k: int| 0 <= k < np && !internal_places@.subrange(0, j + 1).contains(net.place_seq()[k]) implies !#[trigger] alive@[k] by {
                        assert(internal_places@.subrange(0, j + 1)[j as int] == p);
                        if k == idx as int {
                            assert(internal_places@.subrange(0, j + 1).contains(net.place_seq()[k]));
                        } else {
                            assert(alive@[k] == a0[k]);
                            if internal_places@.subrange(0, j as int).contains(net.place_seq()[k]) {
                                let x = choose|x: int| 0 <= x < j && internal_places@.subrange(0, j as int)[x] == net.place_seq()[k];
                                assert(internal_places@.subrange(0, j + 1)[x] == net.place_seq()[k]);
                            }
                        }
                    }
                }
            },
            None => {
                proof {
                    assert(net.place_set().contains(internal_places@[j as int]));
                }
            },
        }
        j = j + 1;
    }
    proof {
        assert(internal_places@.subrange(0, internal_places@.len() as int) == internal_places@);
        assert forall|k: int| 0 <= k < np implies alive@[k] == mask[k] by {
            if mask[k] {
                let p = net.place_seq()[k];
                assert(internal_places@.contains(p));
                let jj = choose|jj: int| 0 <= jj < internal_places@.len() && internal_places@[jj] == p;
                net.place_seq().index_of_first(p);
                assert(net.place_seq().contains(p));
                let f = net.place_seq().index_of(p);
                assert(net.place_seq()[f] == p);
                assert(f == k);
                assert(alive@[net.place_seq().index_of(internal_places@[jj])] == mask[net.place_seq().index_of(internal_places@[jj])]);
            }
        }
        assert(alive@ == mask);
    }
    let g = net.place_successors();
    let r = crate::cycles::has_cycle(&g, &alive);
    proof {
        net.lemma_place_graph_cycles(g.deep_view(), alive@);
    }
    r
}


/// A strongly connected component of the place graph of a state machine.
#[derive(Debug, Clone)]
pub struct SNetComponent {
    /// The places of the component.
    pub places: Vec<Place>,
    /// The transitions with both endpoints in the component.
    pub transitions: Vec<Transition>,
    /// The tokens on the component's places initially.
    pub token_sum: u32,
    /// Whether no transition leads out of the component.
    pub is_sink: bool,
}

/// The components of a state machine's place graph, sources first: the
/// evidence behind its liveness levels.
#[derive(Debug, Clone)]
pub struct SNetLivenessEvidence {
    /// The components, in topological order.
    pub components: Vec<SNetComponent>,
}

/// A strongly connected component of the transition graph of a marked graph.
#[derive(Debug, Clone)]
pub struct TNetComponent {
    /// The transitions of the component.
    pub transitions: Vec<Transition>,
    /// The places with both endpoint transitions in the component.
    pub places: Vec<Place>,
    /// Whether every circuit within the component carries a token.
    pub all_circuits_marked: bool,
    /// Whether every predecessor component is live.
    pub predecessors_live: bool,
}

/// The components of a marked graph's transition graph, sources first: the
/// evidence behind its liveness levels.
#[derive(Debug, Clone)]
pub struct TNetLivenessEvidence {
    /// The components, in topological order.
    pub components: Vec<TNetComponent>,
}

/// Why a marking is reachable.
#[derive(Debug, Clone)]
pub enum ReachabilityProof {
    /// A firing sequence from the current marking to the target.
    FiringSequence(Vec<Transition>),
    /// The net is a strongly connected state machine and the target holds the
    /// same number of tokens.
    StronglyConnectedSNetTokenConservation { marking_sum: u64 },
    /// The net is a state machine and its marking equation has a rational solution.
    SNetMarkingEquationRationalSolution,
    /// The net is a marked graph and its marking equation has an integer solution.
    TNetMarkingEquationIntegerSolution,
}

/// The answer to a reachability question, with its evidence.
#[derive(Debug, Clone)]
pub enum ReachabilityResult {
    Reachable(ReachabilityProof),
    Unreachable(UnreachabilityProof),
    /// The state space holds an `ω` marking, or outgrew what can be explored.
    Inconclusive,
}

/// Why a marking is unreachable.
#[derive(Debug, Clone, Copy, PartialEq, Eq, Structural)]
pub enum UnreachabilityProof {
    /// The net is a state machine and the target holds a different number of tokens.
    SNetTokenConservationViolation,
    /// The marking equation has no rational solution.
    MarkingEquationNoRationalSolution,
    /// The marking equation has no integer solution.
    MarkingEquationNoIntegerSolution,
    /// The whole state space was explored without meeting the target.
    ExhaustiveSearch,
}

/// A node of the coverability graph that covers the target, with the firing
/// sequence that reaches it.
#[derive(Debug, Clone)]
pub struct CoverabilityProof {
    /// The firing sequence from the initial marking to the covering node.
    pub firing_sequence: Vec<Transition>,
    /// The covering node's marking (it may hold `ω`).
    pub covering_marking: OmegaMarking,
}

/// Why a marking is not coverable.
#[derive(Debug, Clone, Copy, PartialEq, Eq, Structural)]
pub enum NonCoverabilityProof {
    /// The marking equation has no rational solution.
    MarkingEquationNoRationalSolution,
    /// The marking equation has no integer solution.
    MarkingEquationNoIntegerSolution,
    /// The whole coverability graph was explored without covering the target.
    ExhaustiveSearch,
}

} // verus!
