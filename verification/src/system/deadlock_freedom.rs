//! Deadlocks: reachable markings that enable no transition.

use crate::marking::Marking;
use crate::net::Net;
use crate::state_space::{
    is_dead, is_finite_seq, lemma_reachability_graph_exact, shown_in, shows, shows_reachable_deadlock, CoverabilityExplorer,
    ReachabilityGraph,
};
use crate::system::PetriNet;
use vstd::prelude::*;

verus! {

/// A marking that enables no transition.
pub type Deadlock = Marking<u32>;

/// The reachable deadlocks of a system, handed out one at a time by `next`.
pub enum Deadlocks {
    /// The system is certified deadlock-free: no reachable marking is a deadlock.
    DeadlockFree,
    /// The initial marking is itself a deadlock; it is handed out once.
    InitialDeadlock(Option<Deadlock>),
    /// Reachable deadlocks found by exploring the state space, handed out in order.
    Listed(Vec<Deadlock>),
}

impl Deadlocks {
    /// The deadlocks still to be handed out, in order.
    pub open spec fn remaining(&self) -> Seq<Deadlock> {
        match self {
            Deadlocks::DeadlockFree => seq![],
            Deadlocks::InitialDeadlock(d) => match d {
                Some(m) => seq![*m],
                None => seq![],
            },
            Deadlocks::Listed(v) => v@,
        }
    }

    /// Hands out the next deadlock, if any is left.
    pub fn next(&mut self) -> (r: Option<Deadlock>)
        ensures
            old(self).remaining().len() == 0 ==> r is None && final(self).remaining() == old(self).remaining(),
            old(self).remaining().len() > 0 ==> r == Some(old(self).remaining()[0]) && final(self).remaining() == old(self).remaining().drop_first(),
    {
        match self {
            Deadlocks::DeadlockFree => None,
            Deadlocks::InitialDeadlock(d) => {
                let r = d.take();
                proof {
                    assert(seq![r.unwrap()].drop_first() == Seq::<Deadlock>::empty()) by {
                    }
                }
                r
            },
            Deadlocks::Listed(v) => {
                if v.len() == 0 {
                    None
                } else {
                    let m = v.remove(0);
                    Some(m)
                }
            },
        }
    }
}

/// A copy of a dense marking.
fn copy_counts(m: &Vec<u32>) -> (r: Vec<u32>)
    ensures
        r@ == m@,
{
    let mut r: Vec<u32> = Vec::new();
    let mut i: usize = 0;
    while i < m.len()
        invariant
            0 <= i <= m@.len(),
            r@ == m@.take(i as int),
        decreases m@.len() - i,
    {
        r.push(m[i]);
        proof {
            assert(m@.take(i + 1) == m@.take(i as int).push(m@[i as int]));
        }
        i = i + 1;
    }
    proof {
        assert(m@.take(m@.len() as int) == m@);
    }
    r
}

/// Whether two dense markings are equal.
fn same_dense(a: &Vec<u32>, b: &Vec<u32>) -> (r: bool)
    ensures
        r == (a@ == b@),
{
    if a.len() != b.len() {
        return false;
    }
    let mut i: usize = 0;
    while i < a.len()
        invariant
            0 <= i <= a@.len(),
            a@.len() == b@.len(),
            forall|k: int| 0 <= k < i ==> a@[k] == b@[k],
        decreases a@.len() - i,
    {
        if a[i] != b[i] {
            return false;
        }
        i = i + 1;
    }
    proof {
        assert(a@ =~= b@);
    }
    true
}

/// Whether `m` is among the markings of `seen`.
fn holds_marking(seen: &Vec<Vec<u32>>, m: &Vec<u32>) -> (r: bool)
    ensures
        r == exists|i: int| 0 <= i < seen@.len() && (#[trigger] seen@[i])@ == m@,
{
    let mut i: usize = 0;
    while i < seen.len()
        invariant
            0 <= i <= seen@.len(),
            forall|k: int| 0 <= k < i ==> (#[trigger] seen@[k])@ != m@,
        decreases seen@.len() - i,
    {
        if same_dense(&seen[i], m) {
            return true;
        }
        i = i + 1;
    }
    false
}

/// A set of markings that holds `m0` and every successor of its members
/// holds every marking reachable from `m0`.
proof fn lemma_closed_holds_reachable(net: Net, m0: Seq<u32>, s: Seq<Seq<u32>>, w: Seq<int>)
    requires
        s.contains(m0),
        forall|i: int, t: int| 0 <= i < s.len() && #[trigger] net.fires(s[i], t) ==> s.contains(net.fire_spec(s[i], t)),
        net.run(m0, w) is Some,
    ensures
        s.contains(net.run(m0, w).unwrap()),
    decreases w.len(),
{
    if w.len() > 0 {
        lemma_closed_holds_reachable(net, m0, s, w.drop_last());
        let m1 = net.run(m0, w.drop_last()).unwrap();
        let i = choose|i: int| 0 <= i < s.len() && s[i] == m1;
        assert(net.fires(s[i], w.last()));
    }
}

impl<'a> PetriNet<'a> {
    /// A reachable deadlock found by a breadth-first search of the markings
    /// reachable from the current one, or none when the search has met every
    /// reachable marking. On an infinite state space without a deadlock the
    /// search does not end.
    fn search_deadlock(&self) -> (r: Option<Vec<u32>>)
        requires
            self.wf(),
        ensures
            match r {
                Some(d) => d@.len() == self.structure().np() && is_dead(self.structure(), d@)
                    && self.structure().reachable(self.current(), d@),
                None => self.no_reachable_deadlock(),
            },
    {
        let net = self.net_ref();
        proof {
            net.lemma_wf();
        }
        let nt = net.transition_count() as usize;
        let start = copy_counts(self.current_dense());
        let mut seen: Vec<Vec<u32>> = Vec::new();
        seen.push(start);
        let ghost cur = self.current();
        let ghost mut sv: Seq<Seq<u32>> = seq![cur];
        let ghost mut words: Seq<Seq<int>> = seq![Seq::<int>::empty()];
        let mut head: usize = 0;
        proof {
            assert(net.run(cur, Seq::<int>::empty()) == Some(cur));
        }
        while head < seen.len()
            invariant
                net.wf(),
                *net == self.structure(),
                nt == net.nt(),
                cur == self.current(),
                cur.len() == net.np(),
                0 <= head <= seen@.len(),
                sv.len() == seen@.len(),
                forall|i: int| 0 <= i < sv.len() ==> #[trigger] seen@[i]@ == sv[i],
                sv.len() >= 1,
                sv[0] == cur,
                words.len() == sv.len(),
                forall|i: int| 0 <= i < sv.len() ==> (#[trigger] sv[i]).len() == net.np() && net.run(cur, words[i]) == Some(sv[i]),
                forall|i: int| 0 <= i < head ==> !is_dead(*net, #[trigger] sv[i]),
                forall|i: int, t: int| 0 <= i < head && #[trigger] net.fires(sv[i], t) ==> sv.contains(net.fire_spec(sv[i], t)),
            decreases usize::MAX - head,
        {
            let m = copy_counts(&seen[head]);
            proof {
                assert(m@ == sv[head as int]);
            }
            let mut any = false;
            let mut t: usize = 0;
            while t < nt
                invariant
                    net.wf(),
                    nt == net.nt(),
                    m@.len() == net.np(),
                    0 <= t <= nt,
                    any == exists|u: int| 0 <= u < t && #[trigger] crate::state_space::token_enabled(*net, m@, u),
                decreases nt - t,
            {
                if crate::state_space::token_enabled_exec(net, &m, t) {
                    any = true;
                }
                t = t + 1;
            }
            if !any {
                proof {
                    assert(is_dead(*net, m@));
                    assert(net.reachable(cur, m@)) by {
                        assert(net.run(cur, words[head as int]) == Some(m@));
                    }
                }
                return Some(m);
            }
            let ghost sv0 = sv;
            let mut t: usize = 0;
            while t < nt
                invariant
                    net.wf(),
                    *net == self.structure(),
                    nt == net.nt(),
                    cur == self.current(),
                    m@.len() == net.np(),
                    m@ == sv0[head as int],
                    0 <= t <= nt,
                    0 <= head < sv0.len(),
                    sv0.len() <= sv.len(),
                    forall|i: int| 0 <= i < sv0.len() ==> #[trigger] sv[i] == sv0[i],
                    sv.len() == seen@.len(),
                    forall|i: int| 0 <= i < sv.len() ==> #[trigger] seen@[i]@ == sv[i],
                    words.len() == sv.len(),
                    forall|i: int| 0 <= i < sv.len() ==> (#[trigger] sv[i]).len() == net.np() && net.run(cur, words[i]) == Some(sv[i]),
                    forall|u: int| 0 <= u < t && #[trigger] net.fires(m@, u) ==> sv.contains(net.fire_spec(m@, u)),
                decreases nt - t,
            {
                if crate::state_space::token_enabled_exec(net, &m, t) {
                    if net.fire_fits_in(t, &m) {
                        let mut m2 = copy_counts(&m);
                        net.fire_in(t, &mut m2);
                        if !holds_marking(&seen, &m2) {
                            let ghost old_sv = sv;
                            seen.push(m2);
                            proof {
                                assert(sv[head as int] == sv0[head as int]);
                                assert(net.run(cur, words[head as int]) == Some(m@));
                                assert(net.fires(m@, t as int));
                                net.lemma_run_push(cur, words[head as int], t as int);
                                sv = sv.push(net.fire_spec(m@, t as int));
                                words = words.push(words[head as int].push(t as int));
                                net.lemma_fire_len(m@, t as int);
                                assert forall|u: int| 0 <= u < t + 1 && #[trigger] net.fires(m@, u) implies sv.contains(net.fire_spec(m@, u)) by {
                                    if u < t {
                                        let k = choose|k: int| 0 <= k < old_sv.len() && old_sv[k] == net.fire_spec(m@, u);
                                        assert(sv[k] == old_sv[k]);
                                    } else {
                                        assert(sv[sv.len() - 1] == net.fire_spec(m@, u));
                                    }
                                }
                            }
                        } else {
                            proof {
                                let k = choose|k: int| 0 <= k < seen@.len() && (#[trigger] seen@[k])@ == m2@;
                                assert(sv[k] == m2@);
                            }
                        }
                    }
                }
                t = t + 1;
            }
            proof {
                assert(!is_dead(*net, sv[head as int])) by {
                    let u = choose|u: int| 0 <= u < nt && #[trigger] crate::state_space::token_enabled(*net, m@, u);
                }
                assert forall|i: int, u: int| 0 <= i < head + 1 && #[trigger] net.fires(sv[i], u) implies sv.contains(net.fire_spec(sv[i], u)) by {
                    assert(sv[i] == sv0[i]);
                    if i < head {
                        let k = choose|k: int| 0 <= k < sv0.len() && sv0[k] == net.fire_spec(sv0[i], u);
                        assert(sv[k] == sv0[k]);
                    }
                }
                assert forall|i: int| 0 <= i < head + 1 implies !is_dead(*net, #[trigger] sv[i]) by {
                    assert(sv[i] == sv0[i]);
                }
            }
            head = head + 1;
        }
        proof {
            assert(sv.contains(cur)) by {
                assert(sv[0] == cur);
            }
            assert forall|d: Seq<u32>| d.len() == self.structure().np() && #[trigger] self.structure().reachable(self.current(), d)
                implies !is_dead(self.structure(), d) by {
                let w = choose|w: Seq<int>| #[trigger] net.run(cur, w) == Some(d);
                lemma_closed_holds_reachable(*net, cur, sv, w);
                let i = choose|i: int| 0 <= i < sv.len() && sv[i] == d;
            }
        }
        None
    }

    /// Whether a polynomial procedure certifies deadlock-freedom: it does so
    /// exactly when it certifies liveness (a live system never deadlocks).
    pub fn is_efficiently_deadlock_free(&self) -> (r: Option<bool>)
        requires
            self.wf(),
        ensures
            r == (if self.efficiently_live_spec() == Some(true) {
                Some(true)
            } else {
                None::<bool>
            }),
    {
        match self.is_efficiently_live() {
            Some(true) => Some(true),
            _ => None,
        }
    }

    /// The verdict of the polynomial liveness procedures, where one applies.
    pub open spec fn efficiently_live_spec(&self) -> Option<bool> {
        match self.class_spec() {
            crate::class::NetClass::Circuit => Some(self.has_token()),
            crate::class::NetClass::StateMachine => Some(self.strongly_connected() && self.has_token()),
            crate::class::NetClass::MarkedGraph => Some(!self.structure().has_place_circuit(self.unmarked_mask())),
            _ => None::<bool>,
        }
    }

    /// A transition of the net is enabled exactly when its dense index is.
    proof fn lemma_enabled_by_index(&self, t: int)
        requires
            self.wf(),
            0 <= t < self.structure().nt(),
        ensures
            self.is_enabled_spec(self.structure().transition_seq()[t]) == crate::state_space::token_enabled(self.structure(), self.current(), t),
    {
        let net = self.structure();
        net.lemma_wf();
        let tr = net.transition_seq()[t];
        assert(net.transition_seq().contains(tr));
        let j = net.t_index(tr);
        assert(net.transition_seq()[j] == tr);
        assert(j == t);
    }

    /// Whether no marking reachable from the current one is a deadlock.
    pub open spec fn no_reachable_deadlock(&self) -> bool {
        forall|d: Seq<u32>| d.len() == self.structure().np() && #[trigger] self.structure().reachable(self.current(), d)
            ==> !is_dead(self.structure(), d)
    }

    /// Whether a Karp–Miller exploration from the current marking meets a
    /// marking with `ω`.
    pub open spec fn exploration_meets_omega(&self) -> bool {
        exists|ex: CoverabilityExplorer<'a>| #[trigger] ex.wf() && ex.graph_spec().structure() == self.structure()
            && ex.graph_spec().initial_spec() == self.current()
            && exists|i: int| 0 <= i < ex.graph_spec().nodes().len() && !is_finite_seq(#[trigger] ex.graph_spec().nodes()[i])
    }

    /// Whether a reachability graph explored from the current marking stopped
    /// unfinished with more nodes than a machine word can count expansion steps for.
    pub open spec fn exploration_outgrows_memory(&self) -> bool {
        exists|g: ReachabilityGraph<'a>| #[trigger] g.reach_wf() && g.structure() == self.structure()
            && g.initial_spec() == self.current() && !g.is_complete()
            && usize::MAX <= (g.structure().nt() + 2) * (g.nodes().len() + 1)
    }

    /// Whether the current marking enables no transition.
    pub open spec fn is_stuck(&self) -> bool {
        forall|t: crate::net::Transition| !self.is_enabled_spec(t)
    }

    /// The reachable deadlocks of the system: none when a polynomial
    /// procedure certifies it live; the current marking alone when that is a
    /// deadlock; otherwise the deadlocks found by exploring the state space
    /// (all deadlocks of the reachability graph of a bounded system; for an
    /// unbounded one, the first deadlock a breadth-first search of the
    /// reachable markings meets, a search that ends without one only when it
    /// has met every reachable marking), each reachable.
    pub fn deadlocks(&self) -> (r: Deadlocks)
        requires
            self.wf(),
        ensures
            self.efficiently_live_spec() == Some(true) <==> r is DeadlockFree,
            self.efficiently_live_spec() != Some(true) && self.is_stuck() ==> r is InitialDeadlock && r.remaining().len() == 1
                && shows(self.structure(), r.remaining()[0], self.current()),
            self.efficiently_live_spec() != Some(true) && !self.is_stuck() ==> r is Listed,
            forall|k: int| 0 <= k < r.remaining().len() ==> (#[trigger] r.remaining()[k]).wf()
                && shows_reachable_deadlock(self.structure(), self.current(), r.remaining()[k]),
            self.efficiently_live_spec() != Some(true) && r.remaining().len() == 0 ==> self.no_reachable_deadlock()
                || self.exploration_outgrows_memory(),
    {
        if self.is_efficiently_deadlock_free() == Some(true) {
            return Deadlocks::DeadlockFree;
        }
        if self.is_deadlocked() {
            let m = self.marking();
            let r = Deadlocks::InitialDeadlock(Some(m));
            proof {
                let net = self.structure();
                let d = self.current();
                assert(shows(net, m, d));
                assert(net.run(d, Seq::<int>::empty()) == Some(d));
                assert(net.reachable(d, d));
                assert(crate::state_space::is_dead(net, d)) by {
                    assert forall|t: int| 0 <= t < net.nt() implies !#[trigger] crate::state_space::token_enabled(net, d, t) by {
                        let tr = net.transition_seq()[t];
                        assert(!self.is_enabled_spec(tr));
                        self.lemma_enabled_by_index(t);
                    }
                }
                assert(r.remaining()[0] == m);
            }
            return r;
        }
        match self.try_build_reachability_graph() {
            Ok(rg) => {
                let v = rg.reachable_deadlocks();
                proof {
                    if v@.len() == 0 {
                        if rg.is_complete() {
                            assert forall|d: Seq<u32>| d.len() == self.structure().np() && #[trigger] self.structure().reachable(self.current(), d)
                                implies !is_dead(self.structure(), d) by {
                                lemma_reachability_graph_exact(rg, d);
                                let i = choose|i: int| 0 <= i < rg.nodes().len() && rg.nodes()[i] == d;
                                if is_dead(self.structure(), d) {
                                    assert(is_dead(rg.structure(), rg.nodes()[i]));
                                    assert(shown_in(rg.structure(), v@, rg.nodes()[i]));
                                }
                            }
                        } else {
                            assert(rg.reach_wf());
                        }
                    }
                }
                Deadlocks::Listed(v)
            },
            Err(_) => {
                let mut v: Vec<Deadlock> = Vec::new();
                match self.search_deadlock() {
                    Some(d) => {
                        let net = self.net_ref();
                        let m = net.sparse_marking(&d);
                        v.push(m);
                        proof {
                            assert(shows(self.structure(), m, d@));
                            assert(shows_reachable_deadlock(self.structure(), self.current(), v@[0]));
                        }
                    },
                    None => {},
                }
                Deadlocks::Listed(v)
            },
        }
    }

    /// Whether the system is deadlock-free: no deadlock turns up.
    ///
    /// Certain when a polynomial procedure certifies liveness, or when the
    /// current marking is a deadlock; otherwise the reachable markings are
    /// explored, and a `true` answer means that none of them is a deadlock
    /// (unless the reachability graph grew beyond what a machine word counts).
    pub fn is_deadlock_free(&self) -> (r: bool)
        requires
            self.wf(),
        ensures
            self.efficiently_live_spec() == Some(true) ==> r,
            self.efficiently_live_spec() != Some(true) && self.is_stuck() ==> !r,
            !r ==> exists|m: Deadlock| m.wf() && #[trigger] shows_reachable_deadlock(self.structure(), self.current(), m),
            r ==> self.efficiently_live_spec() == Some(true) || self.no_reachable_deadlock() || self.exploration_outgrows_memory(),
    {
        let mut d = self.deadlocks();
        let first = d.next();
        proof {
            if first is Some {
                assert(d.remaining() == d.remaining());
            }
        }
        first.is_none()
    }
}

} // verus!
