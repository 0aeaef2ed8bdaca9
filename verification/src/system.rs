//! A Petri net system: a net with a marking, and simulation by firing transitions.

pub mod boundedness;
pub mod deadlock_freedom;
pub mod implicit;
pub mod liveness;
pub mod reachability;
pub mod siphon_trap;

use vstd::prelude::*;
use crate::marking::Marking;
use crate::net::{Net, Place, Transition};

verus! {

/// A Petri net system `(N, M₀)`: a [`Net`] `N` and a current marking, which
/// changes as transitions fire, together with the marking the system started
/// from, to which [`reset`](Self::reset) returns.
pub struct PetriNet<'a> {
    /// The net structure, shared and never changed.
    pub net: &'a Net,
    /// The current marking, by dense place index.
    pub(crate) marking: Vec<u32>,
    /// The marking the system was created with.
    reset_marking: Vec<u32>,
}

/// Error returned when a transition that is not enabled is asked to fire.
#[derive(Debug, Clone, Copy, PartialEq, Eq, Structural)]
pub struct NotEnabled(Transition);

impl NotEnabled {
    /// The transition that could not fire.
    pub closed spec fn transition_spec(&self) -> Transition {
        self.0
    }

    /// A human-readable description of the error.
    pub fn message(&self) -> (r: &'static str)
        ensures
            r@ == "transition is not enabled"@,
    {
        "transition is not enabled"
    }
}

impl<'a> PetriNet<'a> {
    /// The current marking, by dense place index.
    pub closed spec fn current(&self) -> Seq<u32> {
        self.marking@
    }

    /// The marking the system was created with, by dense place index.
    pub closed spec fn initial(&self) -> Seq<u32> {
        self.reset_marking@
    }

    /// The net of the system.
    pub closed spec fn structure(&self) -> Net {
        *self.net
    }

    /// The system's invariant.
    pub open spec fn wf(&self) -> bool {
        &&& self.structure().wf()
        &&& self.current().len() == self.structure().np()
        &&& self.initial().len() == self.structure().np()
    }

    /// Whether `t` is a transition of the net enabled in the current marking.
    pub open spec fn is_enabled_spec(&self, t: Transition) -> bool {
        self.structure().transition_set().contains(t) && self.structure().enabled_spec(self.current(), self.structure().t_index(t))
    }

    /// The shared net of the system.
    pub(crate) fn net_ref(&self) -> (r: &'a Net)
        ensures
            *r == self.structure(),
    {
        self.net
    }

    /// The current marking in dense form.
    pub(crate) fn current_dense(&self) -> (r: &Vec<u32>)
        ensures
            r@ == self.current(),
    {
        &self.marking
    }

    /// Creates a system from a net and its initial marking.
    ///
    /// Tokens on places that are not in the net are ignored.
    pub fn new(net: &'a Net, initial_marking: Marking<u32>) -> (r: Self)
        requires
            net.wf(),
            initial_marking.wf(),
        ensures
            r.wf(),
            r.structure() == *net,
            r.current() == net.dense_of(initial_marking),
            r.initial() == net.dense_of(initial_marking),
    {
        let marking = net.dense_marking(&initial_marking);
        let reset_marking = net.dense_marking(&initial_marking);
        PetriNet { net, marking, reset_marking }
    }

    /// Consumes the system and returns the net, the current marking and the
    /// marking it was created with.
    pub fn into_parts(self) -> (r: (&'a Net, Marking<u32>, Marking<u32>))
        requires
            self.wf(),
        ensures
            *r.0 == self.structure(),
            r.1.wf(),
            r.2.wf(),
            forall|p: Place| #[trigger] r.1.count(p) == self.structure().sparse_count(self.current(), p),
            forall|p: Place| #[trigger] r.2.count(p) == self.structure().sparse_count(self.initial(), p),
    {
        let current = self.net.sparse_marking(&self.marking);
        let reset = self.net.sparse_marking(&self.reset_marking);
        (self.net, current, reset)
    }

    /// The current marking.
    pub fn marking(&self) -> (r: Marking<u32>)
        requires
            self.wf(),
        ensures
            r.wf(),
            forall|p: Place| #[trigger] r.count(p) == self.structure().sparse_count(self.current(), p),
    {
        self.net.sparse_marking(&self.marking)
    }

    /// The number of tokens on `p` in the current marking (zero for a place not in the net).
    pub fn tokens_in(&self, p: Place) -> (r: u32)
        requires
            self.wf(),
        ensures
            r == self.structure().sparse_count(self.current(), p),
    {
        match self.net.place_index(p) {
            Some(i) => {
                proof {
                    let j = choose|j: int| 0 <= j < self.net.np() && self.net.place_seq()[j] == p;
                    self.net.lemma_wf();
                    if j != i {
                        assert(self.net.place_seq()[j] != self.net.place_seq()[i as int]);
                    }
                }
                self.marking[i]
            },
            None => 0,
        }
    }

    /// Returns the system to the marking it was created with, and returns the
    /// marking it held before.
    pub fn reset(&mut self) -> (r: Marking<u32>)
        requires
            old(self).wf(),
        ensures
            final(self).wf(),
            final(self).structure() == old(self).structure(),
            final(self).current() == old(self).initial(),
            final(self).initial() == old(self).initial(),
            r.wf(),
            forall|p: Place| #[trigger] r.count(p) == old(self).structure().sparse_count(old(self).current(), p),
    {
        let previous = self.net.sparse_marking(&self.marking);
        let mut fresh: Vec<u32> = Vec::new();
        let mut i: usize = 0;
        while i < self.reset_marking.len()
            invariant
                0 <= i <= self.reset_marking@.len(),
                fresh@ == self.reset_marking@.subrange(0, i as int),
            decreases self.reset_marking@.len() - i,
        {
            fresh.push(self.reset_marking[i]);
            proof {
                assert(self.reset_marking@.subrange(0, i + 1) =~= self.reset_marking@.subrange(0, i as int).push(self.reset_marking@[i as int]));
            }
            i = i + 1;
        }
        proof {
            assert(self.reset_marking@.subrange(0, i as int) =~= self.reset_marking@);
        }
        self.marking = fresh;
        previous
    }

    /// Whether `t` is a transition of the net enabled in the current marking:
    /// every input place holds a token.
    pub fn is_enabled(&self, t: Transition) -> (r: bool)
        requires
            self.wf(),
        ensures
            r == self.is_enabled_spec(t),
    {
        match self.net.transition_index(t) {
            Some(i) => {
                proof {
                    self.net.lemma_wf();
                    let j = self.net.t_index(t);
                    if j != i {
                        assert(self.net.transition_seq()[j] != self.net.transition_seq()[i as int]);
                    }
                }
                self.net.is_enabled_in(i, &self.marking)
            },
            None => false,
        }
    }

    /// The transitions enabled in the current marking, in dense order.
    pub fn enabled_transitions(&self) -> (r: Vec<Transition>)
        requires
            self.wf(),
        ensures
            r@.no_duplicates(),
            forall|t: Transition| #[trigger] r@.contains(t) <==> self.is_enabled_spec(t),
    {
        proof {
            self.net.lemma_wf();
        }
        let mut r: Vec<Transition> = Vec::new();
        let mut i: usize = 0;
        while i < self.net.num_transitions()
            invariant
                self.wf(),
                self.net.transition_seq().no_duplicates(),
                0 <= i <= self.net.nt(),
                r@.no_duplicates(),
                forall|t: Transition| #[trigger] r@.contains(t) <==> exists|k: int| 0 <= k < i && self.net.transition_seq()[k] == t
                    && self.net.enabled_spec(self.current(), k),
            decreases self.net.nt() - i,
        {
            let t = self.net.transition_at(i);
            if self.net.is_enabled_in(i, &self.marking) {
                let ghost r0 = r@;
                proof {
                    assert(!r0.contains(t)) by {
                        if r0.contains(t) {
                            let k = choose|k: int| 0 <= k < i && self.net.transition_seq()[k] == t && self.net.enabled_spec(self.current(), k);
                            assert(self.net.transition_seq()[k] != self.net.transition_seq()[i as int]);
                        }
                    }
                }
                r.push(t);
                proof {
                    assert forall|a: int, b: int| 0 <= a < b < r@.len() implies r@[a] != r@[b] by {
                        if b == r@.len() - 1 {
                            assert(r0.contains(r@[a]));
                        }
                    }
                    assert forall|u: Transition| #[trigger] r@.contains(u) <==> exists|k: int| 0 <= k < i + 1 && self.net.transition_seq()[k] == u
                        && self.net.enabled_spec(self.current(), k) by {
                        crate::seq_facts::lemma_seq_push_contains(r0, t, u);
                        if u == t {
                            assert(self.net.transition_seq()[i as int] == u);
                        }
                        if exists|k: int| 0 <= k < i + 1 && self.net.transition_seq()[k] == u && self.net.enabled_spec(self.current(), k) {
                            let k = choose|k: int| 0 <= k < i + 1 && self.net.transition_seq()[k] == u && self.net.enabled_spec(self.current(), k);
                            if k < i {
                                assert(r0.contains(u));
                            }
                        }
                    }
                }
            } else {
                proof {
                    assert forall|u: Transition| #[trigger] r@.contains(u) <==> exists|k: int| 0 <= k < i + 1 && self.net.transition_seq()[k] == u
                        && self.net.enabled_spec(self.current(), k) by {
                        if exists|k: int| 0 <= k < i + 1 && self.net.transition_seq()[k] == u && self.net.enabled_spec(self.current(), k) {
                            let k = choose|k: int| 0 <= k < i + 1 && self.net.transition_seq()[k] == u && self.net.enabled_spec(self.current(), k);
                            assert(k != i);
                        }
                    }
                }
            }
            i = i + 1;
        }
        proof {
            assert forall|t: Transition| #[trigger] r@.contains(t) <==> self.is_enabled_spec(t) by {
                if r@.contains(t) {
                    let k = choose|k: int| 0 <= k < i && self.net.transition_seq()[k] == t && self.net.enabled_spec(self.current(), k);
                    let j = self.net.t_index(t);
                    assert(self.net.transition_seq().contains(t));
                    if j != k {
                        assert(self.net.transition_seq()[j] != self.net.transition_seq()[k]);
                    }
                }
                if self.is_enabled_spec(t) {
                    let j = self.net.t_index(t);
                    assert(self.net.transition_seq().contains(t));
                }
            }
        }
        r
    }

    /// Whether no transition is enabled in the current marking.
    pub fn is_deadlocked(&self) -> (r: bool)
        requires
            self.wf(),
        ensures
            r == forall|t: Transition| !self.is_enabled_spec(t),
    {
        let enabled = self.enabled_transitions();
        proof {
            if enabled@.len() > 0 {
                assert(enabled@.contains(enabled@[0]));
            }
            if exists|t: Transition| self.is_enabled_spec(t) {
                let t = choose|t: Transition| self.is_enabled_spec(t);
                assert(enabled@.contains(t));
            }
        }
        enabled.len() == 0
    }

    /// Fires `t` if it is enabled; otherwise leaves the marking unchanged.
    ///
    /// Fails with [`NotEnabled`] when `t` is not enabled or not a transition of the net.
    pub fn try_fire(&mut self, t: Transition) -> (r: Result<Transition, NotEnabled>)
        requires
            old(self).wf(),
            old(self).is_enabled_spec(t) ==> old(self).structure().fire_fits(old(self).current(), old(self).structure().t_index(t)),
        ensures
            final(self).wf(),
            final(self).structure() == old(self).structure(),
            final(self).initial() == old(self).initial(),
            r is Ok <==> old(self).is_enabled_spec(t),
            r matches Ok(u) ==> u == t && final(self).current() == old(self).structure().fire_spec(old(self).current(), old(self).structure().t_index(t)),
            r matches Err(e) ==> e.transition_spec() == t && final(self).current() == old(self).current(),
    {
        match self.net.transition_index(t) {
            Some(i) => {
                proof {
                    self.net.lemma_wf();
                    let j = self.net.t_index(t);
                    if j != i {
                        assert(self.net.transition_seq()[j] != self.net.transition_seq()[i as int]);
                    }
                }
                if self.net.is_enabled_in(i, &self.marking) {
                    let net = self.net;
                    net.fire_in(i, &mut self.marking);
                    Ok(t)
                } else {
                    Err(NotEnabled(t))
                }
            },
            None => Err(NotEnabled(t)),
        }
    }

    /// Fires the first enabled transition in dense order, if any, and returns it.
    pub fn fire_any(&mut self) -> (r: Option<Transition>)
        requires
            old(self).wf(),
            forall|i: int| 0 <= i < old(self).structure().nt() && old(self).structure().enabled_spec(old(self).current(), i)
                ==> old(self).structure().fire_fits(old(self).current(), i),
        ensures
            final(self).wf(),
            final(self).structure() == old(self).structure(),
            final(self).initial() == old(self).initial(),
            r is None <==> forall|i: int| 0 <= i < old(self).structure().nt() ==> !old(self).structure().enabled_spec(old(self).current(), i),
            r is None ==> final(self).current() == old(self).current(),
            r matches Some(t) ==> exists|i: int| 0 <= i < old(self).structure().nt() && old(self).structure().transition_seq()[i] == t
                && old(self).structure().enabled_spec(old(self).current(), i)
                && (forall|j: int| 0 <= j < i ==> !old(self).structure().enabled_spec(old(self).current(), j))
                && final(self).current() == old(self).structure().fire_spec(old(self).current(), i),
    {
        let mut i: usize = 0;
        while i < self.net.num_transitions()
            invariant
                self.wf(),
                self.structure() == old(self).structure(),
                self.initial() == old(self).initial(),
                self.current() == old(self).current(),
                forall|i: int| 0 <= i < old(self).structure().nt() && old(self).structure().enabled_spec(old(self).current(), i)
                    ==> old(self).structure().fire_fits(old(self).current(), i),
                0 <= i <= self.net.nt(),
                forall|j: int| 0 <= j < i ==> !self.net.enabled_spec(self.current(), j),
            decreases self.net.nt() - i,
        {
            if self.net.is_enabled_in(i, &self.marking) {
                let t = self.net.transition_at(i);
                let net = self.net;
                net.fire_in(i, &mut self.marking);
                return Some(t);
            }
            i = i + 1;
        }
        None
    }

    /// Fires `t`, which must be enabled; does nothing for a transition not in the net.
    pub fn fire_unchecked(&mut self, t: Transition)
        requires
            old(self).wf(),
            old(self).structure().transition_set().contains(t) ==> old(self).structure().fires(old(self).current(), old(self).structure().t_index(t)),
        ensures
            final(self).wf(),
            final(self).structure() == old(self).structure(),
            final(self).initial() == old(self).initial(),
            old(self).structure().transition_set().contains(t) ==> final(self).current() == old(self).structure().fire_spec(old(self).current(), old(self).structure().t_index(t)),
            !old(self).structure().transition_set().contains(t) ==> final(self).current() == old(self).current(),
    {
        match self.net.transition_index(t) {
            Some(i) => {
                proof {
                    self.net.lemma_wf();
                    let j = self.net.t_index(t);
                    if j != i {
                        assert(self.net.transition_seq()[j] != self.net.transition_seq()[i as int]);
                    }
                }
                let net = self.net;
                net.fire_in(i, &mut self.marking);
            },
            None => {},
        }
    }
}


impl<'a> PetriNet<'a> {
    /// Which places hold no token in the current marking, by dense index.
    pub open spec fn unmarked_mask(&self) -> Seq<bool> {
        Seq::new(self.structure().np(), |p: int| self.current()[p] == 0)
    }

    /// Whether there exists a directed circuit in which every place has zero tokens.
    ///
    /// In a strongly connected marked graph such a circuit means that the
    /// system is not live: no transition on it can ever fire.
    pub fn has_unmarked_circuit(&self) -> (r: bool)
        requires
            self.wf(),
        ensures
            r == self.structure().has_place_circuit(self.unmarked_mask()),
    {
        let net = self.net;
        let g = net.place_successors();
        let np = net.num_places();
        let mut alive: Vec<bool> = Vec::new();
        let mut p: usize = 0;
        while p < np
            invariant
                self.wf(),
                np == self.structure().np(),
                0 <= p <= np,
                alive@.len() == p,
                forall|k: int| 0 <= k < p ==> alive@[k] == (self.current()[k] == 0),
            decreases np - p,
        {
            alive.push(self.marking[p] == 0);
            p = p + 1;
        }
        let r = crate::cycles::has_cycle(&g, &alive);
        proof {
            assert(alive@ == self.unmarked_mask());
            net.lemma_place_graph_cycles(g.deep_view(), alive@);
        }
        r
    }
}

impl<'a> PetriNet<'a> {
    /// Exports this system as a single-net PNML document, its current marking
    /// written as the places' initial markings.
    pub fn to_pnml(&self) -> (r: crate::pnml::PnmlDocument)
        requires
            self.wf(),
        ensures
            r.nets@.len() == 1,
            crate::pnml::export::exports(self.structure(), self.current(), r.nets@[0]),
    {
        let m = self.marking();
        let n = crate::pnml::export::export_net(self.net, Some(&m));
        proof {
            assert forall|k: int| 0 <= k < self.structure().np() implies
                #[trigger] crate::pnml::export::marking_tokens(*self.net, Some(m))[k] == self.current()[k] by {
                self.structure().lemma_sparse_count_at(self.current(), k);
            }
            assert(crate::pnml::export::marking_tokens(*self.net, Some(m)) =~= self.current());
        }
        let mut nets: Vec<crate::pnml::net::PnmlNet> = Vec::new();
        nets.push(n);
        crate::pnml::PnmlDocument { nets }
    }
}

} // verus!
