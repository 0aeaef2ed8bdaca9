//! Siphons and traps: sets of places whose markedness firing cannot undo
//! (for a trap) or cannot restore (for a siphon).

use vstd::prelude::*;
use crate::cycles::{count_true, lemma_count_clear};
use crate::net::{Net, Place};

verus! {

/// A siphon: a set of places D with •D ⊆ D•, so that every transition that
/// produces into D also consumes from D. Its order carries no meaning.
pub type Siphon = Vec<Place>;

/// A trap: a set of places Q with Q• ⊆ •Q, so that every transition that
/// consumes from Q also produces into Q. Its order carries no meaning.
pub type Trap = Vec<Place>;

impl Net {
    /// Whether the place at dense index `p` belongs to `d`.
    pub open spec fn holds_place(&self, d: Set<Place>, p: int) -> bool {
        0 <= p < self.np() && d.contains(self.place_seq()[p])
    }

    /// Whether the transition at dense index `t` produces into some place of `d`.
    pub open spec fn produces_into(&self, t: int, d: Set<Place>) -> bool {
        exists|p: int| self.holds_place(d, p) && #[trigger] self.produces(t, p)
    }

    /// Whether the transition at dense index `t` consumes from some place of `d`.
    pub open spec fn consumes_from(&self, t: int, d: Set<Place>) -> bool {
        exists|p: int| self.holds_place(d, p) && #[trigger] self.consumes(t, p)
    }

    /// Whether `d` is a siphon: •D ⊆ D•.
    pub open spec fn is_siphon(&self, d: Set<Place>) -> bool {
        forall|t: int| 0 <= t < self.nt() && #[trigger] self.produces_into(t, d) ==> self.consumes_from(t, d)
    }

    /// Whether `q` is a trap: Q• ⊆ •Q.
    pub open spec fn is_trap(&self, q: Set<Place>) -> bool {
        forall|t: int| 0 <= t < self.nt() && #[trigger] self.consumes_from(t, q) ==> self.produces_into(t, q)
    }

    /// Whether the dense marking `m` puts a token on some place of `d`.
    pub open spec fn marks(&self, m: Seq<u32>, d: Set<Place>) -> bool {
        exists|p: int| self.holds_place(d, p) && #[trigger] m[p] > 0
    }

    /// Firing one transition never marks an unmarked siphon.
    pub proof fn lemma_siphon_step(&self, m: Seq<u32>, t: int, d: Set<Place>)
        requires
            self.fires(m, t),
            self.is_siphon(d),
            !self.marks(m, d),
        ensures
            !self.marks(self.fire_spec(m, t), d),
    {
        let m1 = self.fire_spec(m, t);
        if self.marks(m1, d) {
            let p = choose|p: int| self.holds_place(d, p) && #[trigger] m1[p] > 0;
            assert(self.fired_count(m, t, p) <= u32::MAX);
            assert(!(m[p] > 0));
            if self.consumes(t, p) {
                assert(m[p] > 0);
            }
            assert(self.produces(t, p));
            assert(self.produces_into(t, d));
            let q = choose|q: int| self.holds_place(d, q) && #[trigger] self.consumes(t, q);
            assert(m[q] > 0);
            assert(self.marks(m, d));
        }
    }

    /// Once a siphon is unmarked it stays unmarked: no firing sequence marks it again.
    pub proof fn lemma_unmarked_siphon_stays_unmarked(&self, m0: Seq<u32>, seq: Seq<int>, d: Set<Place>)
        requires
            m0.len() == self.np(),
            self.is_siphon(d),
            !self.marks(m0, d),
            self.run(m0, seq) is Some,
        ensures
            !self.marks(self.run(m0, seq).unwrap(), d),
        decreases seq.len(),
    {
        if seq.len() > 0 {
            self.lemma_unmarked_siphon_stays_unmarked(m0, seq.drop_last(), d);
            let m1 = self.run(m0, seq.drop_last()).unwrap();
            self.lemma_siphon_step(m1, seq.last(), d);
        }
    }

    /// A transition that consumes from an unmarked siphon is dead: no marking
    /// reached by a firing sequence enables it.
    pub proof fn law_unmarked_siphon_is_dead(&self, m0: Seq<u32>, seq: Seq<int>, d: Set<Place>, t: int)
        requires
            m0.len() == self.np(),
            self.is_siphon(d),
            !self.marks(m0, d),
            self.run(m0, seq) is Some,
            self.consumes_from(t, d),
        ensures
            !self.enabled_spec(self.run(m0, seq).unwrap(), t),
    {
        self.lemma_unmarked_siphon_stays_unmarked(m0, seq, d);
        let m = self.run(m0, seq).unwrap();
        let p = choose|p: int| self.holds_place(d, p) && #[trigger] self.consumes(t, p);
        if self.enabled_spec(m, t) {
            assert(m[p] > 0);
            assert(self.marks(m, d));
        }
    }

    /// Firing one transition never unmarks a marked trap.
    pub proof fn lemma_trap_step(&self, m: Seq<u32>, t: int, q: Set<Place>)
        requires
            self.fires(m, t),
            self.is_trap(q),
            self.marks(m, q),
        ensures
            self.marks(self.fire_spec(m, t), q),
    {
        let m1 = self.fire_spec(m, t);
        let p = choose|p: int| self.holds_place(q, p) && #[trigger] m[p] > 0;
        assert(self.fired_count(m, t, p) <= u32::MAX);
        if self.consumes(t, p) {
            assert(self.consumes_from(t, q));
            let r = choose|r: int| self.holds_place(q, r) && #[trigger] self.produces(t, r);
            assert(self.fired_count(m, t, r) <= u32::MAX);
            if self.consumes(t, r) {
                assert(m[r] > 0);
            }
            assert(m1[r] > 0);
        } else {
            assert(m1[p] > 0);
        }
    }

    /// Once a trap is marked it stays marked: no firing sequence unmarks it.
    pub proof fn lemma_marked_trap_stays_marked(&self, m0: Seq<u32>, seq: Seq<int>, q: Set<Place>)
        requires
            m0.len() == self.np(),
            self.is_trap(q),
            self.marks(m0, q),
            self.run(m0, seq) is Some,
        ensures
            self.marks(self.run(m0, seq).unwrap(), q),
        decreases seq.len(),
    {
        if seq.len() > 0 {
            self.lemma_marked_trap_stays_marked(m0, seq.drop_last(), q);
            let m1 = self.run(m0, seq.drop_last()).unwrap();
            self.lemma_trap_step(m1, seq.last(), q);
        }
    }
}

impl Net {
    /// The places whose dense index is set in `mask`.
    pub open spec fn mask_set(&self, mask: Seq<bool>) -> Set<Place> {
        Set::new(|x: Place| exists|i: int| 0 <= i < self.np() && mask[i] && self.place_seq()[i] == x)
    }

    /// Whether every place of the net in `d` has its dense index set in `mask`.
    pub open spec fn within(&self, d: Set<Place>, mask: Seq<bool>) -> bool {
        forall|p: int| #[trigger] self.holds_place(d, p) ==> mask[p]
    }

    /// A place of the net is in `mask_set(mask)` exactly when its index is set.
    pub proof fn lemma_mask_set(&self, mask: Seq<bool>)
        requires
            self.wf(),
            mask.len() == self.np(),
        ensures
            forall|p: int| #[trigger] self.holds_place(self.mask_set(mask), p) <==> 0 <= p < self.np() && mask[p],
    {
        self.lemma_wf();
        assert forall|p: int| #[trigger] self.holds_place(self.mask_set(mask), p) <==> 0 <= p < self.np() && mask[p] by {
            if self.holds_place(self.mask_set(mask), p) {
                let i = choose|i: int| 0 <= i < self.np() && mask[i] && self.place_seq()[i] == self.place_seq()[p];
                assert(self.place_seq()[i] == self.place_seq()[p]);
            }
            if 0 <= p < self.np() && mask[p] {
                assert(self.mask_set(mask).contains(self.place_seq()[p]));
            }
        }
    }

    /// For a siphon, a transition's guard places are its inputs and its target
    /// places its outputs; for a trap, the other way round.
    pub open spec fn guard(&self, siphon: bool, t: int, p: int) -> bool {
        if siphon { self.consumes(t, p) } else { self.produces(t, p) }
    }

    /// See [`Self::guard`].
    pub open spec fn target(&self, siphon: bool, t: int, p: int) -> bool {
        if siphon { self.produces(t, p) } else { self.consumes(t, p) }
    }

    /// Whether some guard place of `t` is set in `mask`.
    pub open spec fn guarded(&self, siphon: bool, t: int, mask: Seq<bool>) -> bool {
        exists|p: int| 0 <= p < self.np() && mask[p] && #[trigger] self.guard(siphon, t, p)
    }

    /// Whether some target place of `t` is set in `mask`.
    pub open spec fn targeted(&self, siphon: bool, t: int, mask: Seq<bool>) -> bool {
        exists|p: int| 0 <= p < self.np() && mask[p] && #[trigger] self.target(siphon, t, p)
    }

    /// Whether every transition with a target place in `mask` has a guard place in it.
    pub open spec fn closed_mask(&self, siphon: bool, mask: Seq<bool>) -> bool {
        forall|t: int| 0 <= t < self.nt() && #[trigger] self.targeted(siphon, t, mask) ==> self.guarded(siphon, t, mask)
    }

    /// A siphon (`siphon`) or a trap (`!siphon`).
    pub open spec fn closed_set(&self, siphon: bool, d: Set<Place>) -> bool {
        if siphon { self.is_siphon(d) } else { self.is_trap(d) }
    }

    proof fn lemma_closed_mask(&self, siphon: bool, mask: Seq<bool>)
        requires
            self.wf(),
            mask.len() == self.np(),
            self.closed_mask(siphon, mask),
        ensures
            self.closed_set(siphon, self.mask_set(mask)),
    {
        let d = self.mask_set(mask);
        self.lemma_mask_set(mask);
        if siphon {
            assert forall|t: int| 0 <= t < self.nt() && #[trigger] self.produces_into(t, d) implies self.consumes_from(t, d) by {
                let p = choose|p: int| self.holds_place(d, p) && #[trigger] self.produces(t, p);
                assert(self.target(siphon, t, p));
                assert(self.targeted(siphon, t, mask));
                let q = choose|q: int| 0 <= q < self.np() && mask[q] && #[trigger] self.guard(siphon, t, q);
                assert(self.holds_place(d, q));
            }
        } else {
            assert forall|t: int| 0 <= t < self.nt() && #[trigger] self.consumes_from(t, d) implies self.produces_into(t, d) by {
                let p = choose|p: int| self.holds_place(d, p) && #[trigger] self.consumes(t, p);
                assert(self.target(siphon, t, p));
                assert(self.targeted(siphon, t, mask));
                let q = choose|q: int| 0 <= q < self.np() && mask[q] && #[trigger] self.guard(siphon, t, q);
                assert(self.holds_place(d, q));
            }
        }
    }

    /// Clearing a target place of a transition with no guard place in `cur`
    /// keeps every siphon (trap) inside `cur` inside the smaller set.
    proof fn lemma_prune_keeps(&self, siphon: bool, cur: Seq<bool>, t: int, p: int, d: Set<Place>)
        requires
            0 <= t < self.nt(),
            0 <= p < self.np(),
            cur.len() == self.np(),
            self.target(siphon, t, p),
            !self.guarded(siphon, t, cur),
            self.within(d, cur),
            self.closed_set(siphon, d),
        ensures
            self.within(d, cur.update(p, false)),
    {
        if self.holds_place(d, p) {
            if siphon {
                assert(self.produces_into(t, d));
                let q = choose|q: int| self.holds_place(d, q) && #[trigger] self.consumes(t, q);
                assert(self.guard(siphon, t, q));
            } else {
                assert(self.consumes_from(t, d));
                let q = choose|q: int| self.holds_place(d, q) && #[trigger] self.produces(t, q);
                assert(self.guard(siphon, t, q));
            }
        }
    }

    /// Whether some guard place of transition `t` is set in `cur`.
    fn has_guard(&self, siphon: bool, t: usize, cur: &Vec<bool>) -> (r: bool)
        requires
            self.wf(),
            t < self.nt(),
            cur@.len() == self.np(),
        ensures
            r == self.guarded(siphon, t as int, cur@),
    {
        proof {
            self.lemma_wf();
        }
        let guards = if siphon { self.input_places(t) } else { self.output_places(t) };
        let mut k: usize = 0;
        while k < guards.len()
            invariant
                self.wf(),
                t < self.nt(),
                self.np() <= usize::MAX,
                cur@.len() == self.np(),
                0 <= k <= guards@.len(),
                forall|j: int| 0 <= j < guards@.len() ==> #[trigger] guards@[j] < self.np(),
                forall|p: usize| #[trigger] guards@.contains(p) <==> p < self.np() && self.guard(siphon, t as int, p as int),
                forall|j: int| 0 <= j < k ==> !cur@[#[trigger] guards@[j] as int],
            decreases guards@.len() - k,
        {
            let p = guards[k];
            if cur[p] {
                proof {
                    assert(guards@.contains(p));
                    assert(self.guard(siphon, t as int, p as int));
                }
                return true;
            }
            k = k + 1;
        }
        proof {
            if self.guarded(siphon, t as int, cur@) {
                let p = choose|p: int| 0 <= p < self.np() && cur@[p] && #[trigger] self.guard(siphon, t as int, p);
                let pu = p as usize;
                assert(self.guard(siphon, t as int, pu as int));
                assert(guards@.contains(pu));
                let j = choose|j: int| 0 <= j < guards@.len() && guards@[j] == pu;
                assert(!cur@[guards@[j] as int]);
            }
        }
        false
    }

    /// One pass over the transitions: each transition with no guard place in
    /// `cur` has its target places cleared.
    fn prune_pass(&self, siphon: bool, cur: &mut Vec<bool>) -> (changed: bool)
        requires
            self.wf(),
            old(cur)@.len() == self.np(),
        ensures
            final(cur)@.len() == self.np(),
            forall|i: int| 0 <= i < self.np() && #[trigger] final(cur)@[i] ==> old(cur)@[i],
            forall|d: Set<Place>| #[trigger] self.within(d, old(cur)@) && self.closed_set(siphon, d) ==> self.within(d, final(cur)@),
            changed ==> count_true(final(cur)@) < count_true(old(cur)@),
            !changed ==> final(cur)@ == old(cur)@ && self.closed_mask(siphon, final(cur)@),
    {
        proof {
            self.lemma_wf();
        }
        let ghost before = cur@;
        let mut changed = false;
        let nt = self.num_transitions();
        let mut t: usize = 0;
        while t < nt
            invariant
                self.wf(),
                nt == self.nt(),
                self.np() <= usize::MAX,
                cur@.len() == self.np(),
                0 <= t <= nt,
                forall|i: int| 0 <= i < self.np() && #[trigger] cur@[i] ==> before[i],
                forall|d: Set<Place>| #[trigger] self.within(d, before) && self.closed_set(siphon, d) ==> self.within(d, cur@),
                changed ==> count_true(cur@) < count_true(before),
                !changed ==> cur@ == before,
                !changed ==> forall|u: int| 0 <= u < t && #[trigger] self.targeted(siphon, u, cur@) ==> self.guarded(siphon, u, cur@),
            decreases nt - t,
        {
            if !self.has_guard(siphon, t, cur) {
                let targets = if siphon { self.output_places(t) } else { self.input_places(t) };
                let ghost start = cur@;
                let mut k: usize = 0;
                while k < targets.len()
                    invariant
                        self.wf(),
                        nt == self.nt(),
                        t < nt,
                        self.np() <= usize::MAX,
                        cur@.len() == self.np(),
                        0 <= k <= targets@.len(),
                        forall|j: int| 0 <= j < targets@.len() ==> #[trigger] targets@[j] < self.np(),
                        forall|p: usize| #[trigger] targets@.contains(p) <==> p < self.np() && self.target(siphon, t as int, p as int),
                        forall|i: int| 0 <= i < self.np() && #[trigger] cur@[i] ==> start[i],
                        forall|i: int| 0 <= i < self.np() && #[trigger] start[i] ==> before[i],
                        !self.guarded(siphon, t as int, start),
                        forall|d: Set<Place>| #[trigger] self.within(d, before) && self.closed_set(siphon, d) ==> self.within(d, cur@),
                        changed ==> count_true(cur@) < count_true(before),
                        !changed ==> cur@ == before,
                        !changed ==> forall|u: int| 0 <= u < t && #[trigger] self.targeted(siphon, u, cur@) ==> self.guarded(siphon, u, cur@),
                        forall|j: int| 0 <= j < k ==> !cur@[#[trigger] targets@[j] as int],
                    decreases targets@.len() - k,
                {
                    let p = targets[k];
                    if cur[p] {
                        let ghost prev = cur@;
                        proof {
                            assert(targets@.contains(p));
                            assert(!self.guarded(siphon, t as int, prev)) by {
                                if self.guarded(siphon, t as int, prev) {
                                    let q = choose|q: int| 0 <= q < self.np() && prev[q] && #[trigger] self.guard(siphon, t as int, q);
                                    assert(self.guard(siphon, t as int, q) && start[q]);
                                }
                            }
                            lemma_count_clear(prev, p as int);
                        }
                        cur.set(p, false);
                        proof {
                            assert forall|d: Set<Place>| #[trigger] self.within(d, before) && self.closed_set(siphon, d) implies self.within(d, cur@) by {
                                assert(self.within(d, prev));
                                self.lemma_prune_keeps(siphon, prev, t as int, p as int, d);
                            }
                        }
                        changed = true;
                    }
                    k = k + 1;
                }
                proof {
                    if !changed {
                        if self.targeted(siphon, t as int, cur@) {
                            let p = choose|p: int| 0 <= p < self.np() && cur@[p] && #[trigger] self.target(siphon, t as int, p);
                            let pu = p as usize;
                            assert(self.target(siphon, t as int, pu as int));
                            assert(targets@.contains(pu));
                            let j = choose|j: int| 0 <= j < targets@.len() && targets@[j] == pu;
                            assert(!cur@[targets@[j] as int]);
                        }
                    }
                }
            }
            t = t + 1;
        }
        changed
    }

    /// The greatest siphon (`siphon`) or trap (`!siphon`) inside `mask`, as a mask.
    pub(crate) fn prune(&self, siphon: bool, mask: Vec<bool>) -> (r: Vec<bool>)
        requires
            self.wf(),
            mask@.len() == self.np(),
        ensures
            r@.len() == self.np(),
            forall|i: int| 0 <= i < self.np() && #[trigger] r@[i] ==> mask@[i],
            self.closed_set(siphon, self.mask_set(r@)),
            forall|d: Set<Place>| #[trigger] self.within(d, mask@) && self.closed_set(siphon, d) ==> self.within(d, r@),
    {
        let mut cur = mask;
        loop
            invariant
                self.wf(),
                cur@.len() == self.np(),
                forall|i: int| 0 <= i < self.np() && #[trigger] cur@[i] ==> mask@[i],
                forall|d: Set<Place>| #[trigger] self.within(d, mask@) && self.closed_set(siphon, d) ==> self.within(d, cur@),
            ensures
                self.closed_mask(siphon, cur@),
            decreases count_true(cur@),
        {
            let ghost prev = cur@;
            let changed = self.prune_pass(siphon, &mut cur);
            proof {
                assert forall|d: Set<Place>| #[trigger] self.within(d, mask@) && self.closed_set(siphon, d) implies self.within(d, cur@) by {
                    assert(self.within(d, prev));
                }
            }
            if !changed {
                break;
            }
        }
        proof {
            self.lemma_closed_mask(siphon, cur@);
        }
        cur
    }
}

impl Net {
    /// The mask of the places of the net that `places` lists.
    pub(crate) fn mask_of(&self, places: &[Place]) -> (r: Vec<bool>)
        requires
            self.wf(),
        ensures
            r@.len() == self.np(),
            forall|i: int| 0 <= i < self.np() ==> #[trigger] r@[i] == places@.contains(self.place_seq()[i]),
    {
        let n = self.num_places();
        let mut r: Vec<bool> = Vec::new();
        let mut i: usize = 0;
        while i < n
            invariant
                n == self.np(),
                0 <= i <= n,
                r@.len() == i,
                forall|j: int| 0 <= j < i ==> #[trigger] r@[j] == places@.contains(self.place_seq()[j]),
            decreases n - i,
        {
            let x = self.place_at(i);
            let mut found = false;
            let mut k: usize = 0;
            while k < places.len()
                invariant
                    0 <= k <= places@.len(),
                    found <==> exists|j: int| 0 <= j < k && places@[j] == x,
                decreases places@.len() - k,
            {
                if places[k] == x {
                    found = true;
                }
                k = k + 1;
            }
            proof {
                if places@.contains(x) {
                    let j = choose|j: int| 0 <= j < places@.len() && places@[j] == x;
                }
            }
            r.push(found);
            i = i + 1;
        }
        r
    }

    /// The places of the net whose dense index is set in `mask`, in dense order.
    pub(crate) fn places_of_mask(&self, mask: &Vec<bool>) -> (r: Vec<Place>)
        requires
            self.wf(),
            mask@.len() == self.np(),
        ensures
            r@.no_duplicates(),
            r@.to_set() == self.mask_set(mask@),
    {
        proof {
            self.lemma_wf();
        }
        let n = self.num_places();
        let mut r: Vec<Place> = Vec::new();
        let mut i: usize = 0;
        while i < n
            invariant
                n == self.np(),
                0 <= i <= n,
                mask@.len() == n,
                self.place_seq().no_duplicates(),
                r@.no_duplicates(),
                forall|x: Place| #[trigger] r@.contains(x) <==> exists|j: int| 0 <= j < i && mask@[j] && self.place_seq()[j] == x,
            decreases n - i,
        {
            if mask[i] {
                let x = self.place_at(i);
                proof {
                    if r@.contains(x) {
                        let j = choose|j: int| 0 <= j < i && mask@[j] && self.place_seq()[j] == x;
                        assert(self.place_seq()[j] == self.place_seq()[i as int]);
                    }
                }
                let ghost old_r = r@;
                r.push(x);
                proof {
                    assert forall|y: Place| #[trigger] r@.contains(y) <==> exists|j: int| 0 <= j < i + 1 && mask@[j] && self.place_seq()[j] == y by {
                        assert(r@ == old_r.push(x));
                        if r@.contains(y) && y != x {
                            let k = choose|k: int| 0 <= k < r@.len() && r@[k] == y;
                            assert(old_r[k] == y);
                            assert(old_r.contains(y));
                        }
                        if exists|j: int| 0 <= j < i + 1 && mask@[j] && self.place_seq()[j] == y {
                            let j = choose|j: int| 0 <= j < i + 1 && mask@[j] && self.place_seq()[j] == y;
                            if j < i {
                                assert(old_r.contains(y));
                                let k = choose|k: int| 0 <= k < old_r.len() && old_r[k] == y;
                                assert(r@[k] == y);
                            } else {
                                assert(r@[r@.len() - 1] == y);
                            }
                        }
                    }
                }
            }
            i = i + 1;
        }
        proof {
            assert(r@.to_set() =~= self.mask_set(mask@));
        }
        r
    }
}

} // verus!
