//! Reachability and coverability of target markings.

use crate::analysis::{CoverabilityProof, NonCoverabilityProof, ReachabilityProof, ReachabilityResult, UnreachabilityProof};
use crate::class::{is_marked_graph_spec, is_state_machine_spec, NetClass};
use crate::net::is_strongly_connected_spec;
use crate::state_space::lemma_reachability_graph_exact;
use crate::state_space::lemma_node_reached_by_path;
use crate::system::boundedness::token_total;
use crate::marking::{sum_counts, Marking, OmegaMarking, TokenOps};
use crate::state_space::{le_all, lift, CoverabilityExplorer, CoverabilityGraph, ReachabilityGraph};
use crate::system::PetriNet;
use vstd::prelude::*;

verus! {

impl<'a> PetriNet<'a> {
    /// Whether a polynomial procedure decides if `target` is reachable, and
    /// its answer: a circuit, or a live state machine, reaches exactly the
    /// markings with as many tokens as the current one.
    pub fn is_efficiently_reachable(&self, target: &Marking<u32>) -> (r: Option<bool>)
        requires
            self.wf(),
            target.wf(),
            self.total_tokens() <= usize::MAX,
            sum_counts(target.support_seq()) <= u32::MAX,
        ensures
            self.class_spec() is Circuit ==> r == Some(self.total_tokens() == sum_counts(target.support_seq())),
            self.class_spec() is StateMachine && self.strongly_connected() && self.has_token()
                ==> r == Some(self.total_tokens() == sum_counts(target.support_seq())),
            !(self.class_spec() is Circuit || (self.class_spec() is StateMachine && self.strongly_connected() && self.has_token())) ==> r is None,
    {
        let net = self.net_ref();
        let applies = match net.class() {
            NetClass::Circuit => true,
            NetClass::StateMachine => self.is_live(),
            _ => false,
        };
        if applies {
            let total = self.total_tokens_exec();
            let wanted = target.total_tokens();
            Some(total == wanted as usize)
        } else {
            None
        }
    }

    /// Whether `target` is coverable: whether some node of the coverability
    /// graph explored from the current marking holds at least as many tokens
    /// on every place (`ω` counting as more than any number).
    pub fn is_coverable(&self, target: Marking<u32>) -> (r: bool)
        requires
            self.wf(),
            target.wf(),
        ensures
            exists|g: CoverabilityGraph<'a>| #[trigger] self.covered_from_here(g) && (r <==> exists|i: int| 0 <= i < g.nodes().len()
                && le_all(lift(self.structure().dense_of(target)), #[trigger] g.nodes()[i]))
                && (g.is_complete() || usize::MAX <= (g.structure().nt() + 2) * (g.nodes().len() + 1)),
            (exists|m: Seq<u32>| #[trigger] self.structure().reachable(self.current(), m)
                && le_all(self.structure().dense_of(target), m)) ==> r || exists|g: CoverabilityGraph<'a>|
                #[trigger] self.covered_from_here(g) && usize::MAX <= (g.structure().nt() + 2) * (g.nodes().len() + 1),
    {
        let g = self.build_coverability_graph();
        let t = OmegaMarking::from_marking(&target);
        let found = g.cover(t);
        proof {
            assert(self.covered_from_here(g));
            assert(self.structure().dense_of(t) =~= lift(self.structure().dense_of(target)));
            if g.is_complete() {
                if exists|m: Seq<u32>| #[trigger] self.structure().reachable(self.current(), m)
                    && le_all(self.structure().dense_of(target), m) {
                    let m = choose|m: Seq<u32>| #[trigger] self.structure().reachable(self.current(), m)
                        && le_all(self.structure().dense_of(target), m);
                    crate::state_space::lemma_reachable_is_covered(g, m);
                    let i = choose|i: int| 0 <= i < g.nodes().len() && crate::state_space::omega_le(lift(m), #[trigger] g.nodes()[i]);
                    let dt = lift(self.structure().dense_of(target));
                    assert forall|p: int| 0 <= p < dt.len() implies (#[trigger] dt[p]).leq(g.nodes()[i][p]) by {
                        assert(self.structure().dense_of(target)[p] <= m[p]);
                        assert(lift(m)[p].leq(g.nodes()[i][p]));
                    }
                    assert(le_all(dt, g.nodes()[i]));
                }
            }
        }
        found.is_some()
    }
}


/// Whether some place holds more than one token in `m`.
pub open spec fn unsafe_marking(m: Seq<u32>) -> bool {
    exists|p: int| 0 <= p < m.len() && m[p] > 1
}

impl<'a> PetriNet<'a> {
    /// Whether some reachable marking puts more than one token on a place:
    /// read off the reachability graph of a bounded system; an unbounded
    /// system (one whose exploration meets `ω`) has such markings.
    pub fn has_reachable_unsafe_marking(&self) -> (r: bool)
        requires
            self.wf(),
        ensures
            (exists|g: ReachabilityGraph<'a>| #[trigger] self.explored_from_here(g)
                && (r <==> exists|i: int| 0 <= i < g.nodes().len() && #[trigger] unsafe_marking(g.nodes()[i])))
            || (r && exists|ex: CoverabilityExplorer<'a>| #[trigger] self.found_unbounded(ex)),
    {
        match self.try_build_reachability_graph() {
            Ok(rg) => {
                let r = rg.has_unsafe_node();
                proof {
                    assert(self.explored_from_here(rg));
                }
                r
            },
            Err(ex) => {
                proof {
                    assert(self.found_unbounded(ex));
                }
                true
            },
        }
    }
}

impl<'a> ReachabilityGraph<'a> {
    /// Whether some marking of the graph puts more than one token on a place.
    pub fn has_unsafe_node(&self) -> (r: bool)
        ensures
            r == exists|i: int| 0 <= i < self.nodes().len() && #[trigger] unsafe_marking(self.nodes()[i]),
    {
        let n = self.marking_count();
        let mut i: usize = 0;
        while i < n
            invariant
                n == self.nodes().len(),
                0 <= i <= n,
                forall|k: int| 0 <= k < i ==> !#[trigger] unsafe_marking(self.nodes()[k]),
            decreases n - i,
        {
            let m = self.node_marking(i);
            let mut p: usize = 0;
            while p < m.len()
                invariant
                    n == self.nodes().len(),
                    0 <= i < n,
                    m@ == self.nodes()[i as int],
                    0 <= p <= m@.len(),
                    forall|q: int| 0 <= q < p ==> m@[q] <= 1,
                decreases m@.len() - p,
            {
                if m[p] > 1 {
                    proof {
                        assert(unsafe_marking(self.nodes()[i as int]));
                    }
                    return true;
                }
                p = p + 1;
            }
            i = i + 1;
        }
        false
    }
}

/// A dense marking's token total is at most `u32::MAX` per place.
proof fn lemma_token_total_bound(s: Seq<u32>)
    ensures
        token_total(s) <= s.len() * 4294967295,
    decreases s.len(),
{
    if s.len() > 0 {
        lemma_token_total_bound(s.drop_last());
    }
}

/// The token total of a dense marking with at most `u32::MAX` places.
fn dense_total(v: &Vec<u32>) -> (r: u64)
    requires
        v@.len() <= u32::MAX,
    ensures
        r == token_total(v@),
{
    let mut total: u64 = 0;
    let mut i: usize = 0;
    while i < v.len()
        invariant
            0 <= i <= v@.len(),
            v@.len() <= u32::MAX,
            total == token_total(v@.take(i as int)),
        decreases v@.len() - i,
    {
        proof {
            assert(v@.take(i + 1).drop_last() == v@.take(i as int));
            lemma_token_total_bound(v@.take(i + 1));
            assert((i + 1) * 4294967295 <= 4294967295 * 4294967295) by (nonlinear_arith)
                requires i + 1 <= 4294967295;
        }
        total = total + v[i] as u64;
        i = i + 1;
    }
    proof {
        assert(v@.take(v@.len() as int) == v@);
    }
    total
}

impl<'a> PetriNet<'a> {
    /// Whether `target` is reachable from the current marking, with evidence,
    /// the outcomes of the marking-equation filters given: `lp_feasible` whether
    /// the equation has a rational solution, `ilp_feasible` whether it has an
    /// integer one, `None` where that was not decided.
    ///
    /// In order: the current marking itself is reached by the empty sequence; a
    /// strongly connected state machine reaches exactly the markings with as
    /// many tokens; another state machine is answered by the rational filter
    /// and a marked graph by the integer one; otherwise a filter that fails
    /// refutes the target, and else the reachability graph decides, when it is
    /// finite and was explored to the end.
    pub fn reachability_verdict(&self, target: &Marking<u32>, lp_feasible: Option<bool>, ilp_feasible: Option<bool>) -> (r: ReachabilityResult)
        requires
            self.wf(),
            target.wf(),
        ensures
            ({
                let net = self.structure();
                let cur = self.current();
                let tgt = net.dense_of(*target);
                let sm = is_state_machine_spec(net.transition_set(), net.arc_set());
                let sc = is_strongly_connected_spec(net.place_set(), net.transition_set(), net.arc_set());
                let mg = is_marked_graph_spec(net.place_set(), net.arc_set());
                &&& cur == tgt ==> (r matches ReachabilityResult::Reachable(ReachabilityProof::FiringSequence(v)) && v@.len() == 0)
                &&& cur != tgt && sm && sc ==> if token_total(cur) == token_total(tgt) {
                    r matches ReachabilityResult::Reachable(ReachabilityProof::StronglyConnectedSNetTokenConservation { marking_sum })
                        && marking_sum == token_total(cur)
                } else {
                    r matches ReachabilityResult::Unreachable(UnreachabilityProof::SNetTokenConservationViolation)
                }
                &&& cur != tgt && sm && !sc ==> match lp_feasible {
                    Some(true) => r matches ReachabilityResult::Reachable(ReachabilityProof::SNetMarkingEquationRationalSolution),
                    Some(false) => r matches ReachabilityResult::Unreachable(UnreachabilityProof::MarkingEquationNoRationalSolution),
                    None => r is Inconclusive,
                }
                &&& cur != tgt && !sm && mg ==> match ilp_feasible {
                    Some(true) => r matches ReachabilityResult::Reachable(ReachabilityProof::TNetMarkingEquationIntegerSolution),
                    Some(false) => r matches ReachabilityResult::Unreachable(UnreachabilityProof::MarkingEquationNoIntegerSolution),
                    None => r is Inconclusive,
                }
                &&& cur != tgt && !sm && !mg && lp_feasible == Some(false) ==> (r matches ReachabilityResult::Unreachable(
                    UnreachabilityProof::MarkingEquationNoRationalSolution))
                &&& cur != tgt && !sm && !mg && lp_feasible != Some(false) && ilp_feasible == Some(false) ==> (r matches ReachabilityResult::Unreachable(
                    UnreachabilityProof::MarkingEquationNoIntegerSolution))
                &&& cur != tgt && !sm && !mg && lp_feasible != Some(false) && ilp_feasible != Some(false) ==> {
                    &&& (r matches ReachabilityResult::Reachable(ReachabilityProof::FiringSequence(v)) ==> exists|w: Seq<int>|
                        #[trigger] net.run(cur, w) == Some(tgt) && w.len() == v@.len()
                            && forall|k: int| 0 <= k < w.len() ==> v@[k] == net.transition_seq()[#[trigger] w[k]])
                    &&& (r matches ReachabilityResult::Unreachable(u) ==> u == UnreachabilityProof::ExhaustiveSearch && !net.reachable(cur, tgt))
                    &&& r is Inconclusive ==> self.exploration_meets_omega() || self.exploration_outgrows_memory()
                    &&& (r matches ReachabilityResult::Reachable(p) ==> p is FiringSequence)
                }
            }),
    {
        let net = self.net_ref();
        let tgt = net.dense_marking(target);
        let cur = self.current_dense();
        let mut same = cur.len() == tgt.len();
        let mut i: usize = 0;
        while same && i < cur.len()
            invariant
                0 <= i <= cur@.len(),
                same ==> cur@.len() == tgt@.len(),
                same ==> forall|k: int| 0 <= k < i ==> cur@[k] == tgt@[k],
                !same ==> cur@ != tgt@,
            decreases cur@.len() - i,
        {
            if cur[i] != tgt[i] {
                same = false;
                proof {
                    assert(cur@[i as int] != tgt@[i as int]);
                }
            }
            i = i + 1;
        }
        if same {
            proof {
                assert(cur@ =~= tgt@);
            }
            return ReachabilityResult::Reachable(ReachabilityProof::FiringSequence(Vec::new()));
        }
        if net.is_state_machine() {
            if net.is_strongly_connected() {
                let np = net.place_count();
                let initial_sum = dense_total(&cur);
                let target_sum = dense_total(&tgt);
                if initial_sum == target_sum {
                    return ReachabilityResult::Reachable(ReachabilityProof::StronglyConnectedSNetTokenConservation { marking_sum: initial_sum });
                } else {
                    return ReachabilityResult::Unreachable(UnreachabilityProof::SNetTokenConservationViolation);
                }
            }
            return match lp_feasible {
                Some(true) => ReachabilityResult::Reachable(ReachabilityProof::SNetMarkingEquationRationalSolution),
                Some(false) => ReachabilityResult::Unreachable(UnreachabilityProof::MarkingEquationNoRationalSolution),
                None => ReachabilityResult::Inconclusive,
            };
        }
        if net.is_marked_graph() {
            return match ilp_feasible {
                Some(true) => ReachabilityResult::Reachable(ReachabilityProof::TNetMarkingEquationIntegerSolution),
                Some(false) => ReachabilityResult::Unreachable(UnreachabilityProof::MarkingEquationNoIntegerSolution),
                None => ReachabilityResult::Inconclusive,
            };
        }
        if lp_feasible == Some(false) {
            return ReachabilityResult::Unreachable(UnreachabilityProof::MarkingEquationNoRationalSolution);
        }
        if ilp_feasible == Some(false) {
            return ReachabilityResult::Unreachable(UnreachabilityProof::MarkingEquationNoIntegerSolution);
        }
        match self.try_build_reachability_graph() {
            Ok(rg) => {
                if !rg.is_finished() {
                    proof {
                        assert(rg.reach_wf());
                    }
                    return ReachabilityResult::Inconclusive;
                }
                let target_copy = target.duplicate();
                proof {
                    assert(rg.structure().dense_of(target_copy) =~= tgt@);
                }
                match rg.find_path_from_initial(target_copy) {
                    Some(v) => {
                        proof {
                            let i = choose|i: int| 0 <= i < rg.nodes().len() && #[trigger] rg.nodes()[i] == rg.structure().dense_of(target_copy)
                                && v@.len() == rg.path_to(i).len()
                                && forall|k: int| 0 <= k < v@.len() ==> v@[k] == rg.structure().transition_seq()[#[trigger] rg.path_to(i)[k]];
                            lemma_node_reached_by_path(rg, i);
                            let w = rg.path_to(i);
                            assert(self.structure().run(self.current(), w) == Some(tgt@));
                        }
                        ReachabilityResult::Reachable(ReachabilityProof::FiringSequence(v))
                    },
                    None => {
                        proof {
                            lemma_reachability_graph_exact(rg, tgt@);
                        }
                        ReachabilityResult::Unreachable(UnreachabilityProof::ExhaustiveSearch)
                    },
                }
            },
            Err(ex) => {
                proof {
                    assert(ex.wf());
                }
                ReachabilityResult::Inconclusive
            },
        }
    }
}

impl<'a> PetriNet<'a> {
    /// Whether `target` is coverable from the current marking, with evidence,
    /// the outcomes of the covering-equation filters given: `lp_feasible`
    /// whether it has a rational solution, `ilp_feasible` whether it has an
    /// integer one, `None` where that was not decided.
    ///
    /// In order: the current marking covers the target by the empty sequence;
    /// a filter that fails refutes the target; else the coverability graph
    /// decides, giving the discovery sequence of a covering node.
    pub fn coverability_verdict(&self, target: &Marking<u32>, lp_feasible: Option<bool>, ilp_feasible: Option<bool>) -> (r: Result<CoverabilityProof, NonCoverabilityProof>)
        requires
            self.wf(),
            target.wf(),
        ensures
            ({
                let net = self.structure();
                let cur = self.current();
                let tgt = net.dense_of(*target);
                &&& le_all(tgt, cur) ==> (r matches Ok(p) && p.firing_sequence@.len() == 0
                    && net.dense_of(p.covering_marking) == lift(cur))
                &&& !le_all(tgt, cur) && lp_feasible == Some(false) ==> r == Err::<CoverabilityProof, NonCoverabilityProof>(
                    NonCoverabilityProof::MarkingEquationNoRationalSolution)
                &&& !le_all(tgt, cur) && lp_feasible != Some(false) && ilp_feasible == Some(false) ==> r == Err::<CoverabilityProof, NonCoverabilityProof>(
                    NonCoverabilityProof::MarkingEquationNoIntegerSolution)
                &&& !le_all(tgt, cur) && lp_feasible != Some(false) && ilp_feasible != Some(false) ==> exists|g: CoverabilityGraph<'a>| {
                    &&& #[trigger] self.covered_from_here(g)
                    &&& (g.is_complete() || usize::MAX <= (g.structure().nt() + 2) * (g.nodes().len() + 1))
                    &&& (r is Ok <==> exists|i: int| 0 <= i < g.nodes().len() && le_all(lift(tgt), #[trigger] g.nodes()[i]))
                    &&& (r matches Ok(p) ==> exists|i: int| 0 <= i < g.nodes().len() && #[trigger] g.nodes()[i] == net.dense_of(p.covering_marking)
                        && le_all(lift(tgt), g.nodes()[i]) && p.firing_sequence@.len() == g.path_to(i).len()
                        && forall|k: int| 0 <= k < p.firing_sequence@.len() ==> p.firing_sequence@[k] == net.transition_seq()[#[trigger] g.path_to(i)[k]])
                    &&& (r matches Err(e) ==> e == NonCoverabilityProof::ExhaustiveSearch)
                }
            }),
    {
        let net = self.net_ref();
        let tgt = net.dense_marking(target);
        let cur = self.current_dense();
        let mut covers = true;
        let mut i: usize = 0;
        while i < cur.len()
            invariant
                0 <= i <= cur@.len(),
                cur@.len() == tgt@.len(),
                covers == forall|k: int| 0 <= k < i ==> tgt@[k] <= cur@[k],
            decreases cur@.len() - i,
        {
            if tgt[i] > cur[i] {
                covers = false;
            }
            i = i + 1;
        }
        if covers {
            let m = net.sparse_marking(cur);
            let om = OmegaMarking::from_marking(&m);
            proof {
                assert forall|j: int| 0 <= j < net.np() implies #[trigger] net.dense_of(om)[j] == lift(cur@)[j] by {
                    net.lemma_sparse_count_at(cur@, j);
                }
                assert(net.dense_of(om) =~= lift(cur@));
            }
            return Ok(CoverabilityProof { firing_sequence: Vec::new(), covering_marking: om });
        }
        if lp_feasible == Some(false) {
            return Err(NonCoverabilityProof::MarkingEquationNoRationalSolution);
        }
        if ilp_feasible == Some(false) {
            return Err(NonCoverabilityProof::MarkingEquationNoIntegerSolution);
        }
        let g = self.build_coverability_graph();
        let t = OmegaMarking::from_marking(target);
        let found = g.cover(t);
        proof {
            assert(self.covered_from_here(g));
            assert(self.structure().dense_of(t) =~= lift(tgt@));
        }
        match found {
            Some(node) => {
                let dup = node.duplicate();
                proof {
                    let i = choose|i: int| 0 <= i < g.nodes().len()
                        && le_all(self.structure().dense_of(t), #[trigger] g.nodes()[i])
                        && forall|p: crate::net::Place| #[trigger] node.count(p) == self.structure().sparse_count(g.nodes()[i], p);
                    g.lemma_node_len(i);
                    assert forall|j: int| 0 <= j < self.structure().np() implies #[trigger] self.structure().dense_of(dup)[j] == g.nodes()[i][j] by {
                        let p = self.structure().place_seq()[j];
                        assert(dup.count(p) == node.count(p));
                        self.structure().lemma_sparse_count_at(g.nodes()[i], j);
                    }
                    assert(self.structure().dense_of(dup) =~= g.nodes()[i]);
                    assert(self.structure().dense_of(node) =~= g.nodes()[i]);
                    assert(g.nodes().contains(g.nodes()[i]));
                }
                match g.find_path_from_initial(dup) {
                    Some(path) => Ok(CoverabilityProof { firing_sequence: path, covering_marking: node }),
                    None => {
                        proof {
                            assert(false);
                        }
                        Err(NonCoverabilityProof::ExhaustiveSearch)
                    },
                }
            },
            None => Err(NonCoverabilityProof::ExhaustiveSearch),
        }
    }
}

} // verus!
