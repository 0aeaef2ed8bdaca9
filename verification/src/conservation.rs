//! Token conservation: in a state machine every firing keeps the total number
//! of tokens, so every reachable marking holds as many tokens as the initial one.

use vstd::prelude::*;
use crate::circuits::is_edge_cycle;
use crate::class::{
    is_marked_graph_spec, is_state_machine_spec, postset_of_place, postset_of_transition, preset_of_place, preset_of_transition,
};
use crate::cycles::next_index;
use crate::net::{Arc, Net};
use crate::system::boundedness::{circuit_tokens, token_total};

verus! {

proof fn lemma_total_update(s: Seq<u32>, i: int, v: u32)
    requires
        0 <= i < s.len(),
    ensures
        token_total(s.update(i, v)) + s[i] == token_total(s) + v,
    decreases s.len(),
{
    let u = s.update(i, v);
    if i < s.len() - 1 {
        assert(u.drop_last() == s.drop_last().update(i, v));
        lemma_total_update(s.drop_last(), i, v);
    } else {
        assert(u.drop_last() == s.drop_last());
    }
}

impl Net {
    /// In a state machine, transition `t` has exactly one input place and one
    /// output place; their dense indices.
    proof fn lemma_unit_transition(&self, t: int) -> (pq: (int, int))
        requires
            self.wf(),
            0 <= t < self.nt(),
            is_state_machine_spec(self.transition_set(), self.arc_set()),
        ensures
            0 <= pq.0 < self.np(),
            0 <= pq.1 < self.np(),
            forall|r: int| 0 <= r < self.np() ==> (#[trigger] self.consumes(t, r) <==> r == pq.0),
            forall|r: int| 0 <= r < self.np() ==> (#[trigger] self.produces(t, r) <==> r == pq.1),
    {
        self.lemma_wf();
        let tt = self.transition_seq()[t];
        assert(self.transition_set().contains(tt));
        let pre = preset_of_transition(self.arc_set(), tt);
        let post = postset_of_transition(self.arc_set(), tt);
        let x = choose|x| pre.contains(x) && forall|y| pre.contains(y) ==> y == x;
        let z = choose|z| post.contains(z) && forall|y| post.contains(y) ==> y == z;
        assert(self.arc_set().contains(Arc::PlaceToTransition(x, tt)));
        assert(self.arc_set().contains(Arc::TransitionToPlace(tt, z)));
        assert(Arc::PlaceToTransition(x, tt).place_of() == x);
        assert(Arc::TransitionToPlace(tt, z).place_of() == z);
        let p = choose|p: int| 0 <= p < self.np() && self.place_seq()[p] == x;
        let q = choose|q: int| 0 <= q < self.np() && self.place_seq()[q] == z;
        assert forall|r: int| 0 <= r < self.np() implies (#[trigger] self.consumes(t, r) <==> r == p) by {
            if self.consumes(t, r) {
                assert(pre.contains(self.place_seq()[r]));
                assert(self.place_seq()[r] == self.place_seq()[p]);
            }
        }
        assert forall|r: int| 0 <= r < self.np() implies (#[trigger] self.produces(t, r) <==> r == q) by {
            if self.produces(t, r) {
                assert(post.contains(self.place_seq()[r]));
                assert(self.place_seq()[r] == self.place_seq()[q]);
            }
        }
        (p, q)
    }

    /// In a state machine, firing a transition keeps the total number of tokens.
    pub proof fn lemma_state_machine_fire_conserves(&self, m: Seq<u32>, t: int)
        requires
            self.wf(),
            is_state_machine_spec(self.transition_set(), self.arc_set()),
            self.fires(m, t),
        ensures
            token_total(self.fire_spec(m, t)) == token_total(m),
    {
        let (p, q) = self.lemma_unit_transition(t);
        let m1 = self.fire_spec(m, t);
        assert(self.consumes(t, p) && self.produces(t, q));
        assert(m[p] > 0);
        if p == q {
            assert forall|r: int| 0 <= r < m.len() implies m1[r] == m[r] by {
                assert(self.consumes(t, r) == (r == p));
                assert(self.produces(t, r) == (r == q));
            }
            assert(m1 =~= m);
        } else {
            assert(self.fired_count(m, t, q) <= u32::MAX);
            let a = m.update(p, (m[p] - 1) as u32);
            let b = a.update(q, (m[q] + 1) as u32);
            assert forall|r: int| 0 <= r < m.len() implies m1[r] == b[r] by {
                assert(self.consumes(t, r) == (r == p));
                assert(self.produces(t, r) == (r == q));
            }
            assert(m1 =~= b);
            lemma_total_update(m, p, (m[p] - 1) as u32);
            lemma_total_update(a, q, (m[q] + 1) as u32);
        }
    }

    /// In a state machine, every marking reached by a firing sequence holds as
    /// many tokens as the marking the sequence started from.
    pub proof fn lemma_state_machine_conserves_tokens(&self, m0: Seq<u32>, seq: Seq<int>)
        requires
            self.wf(),
            is_state_machine_spec(self.transition_set(), self.arc_set()),
            m0.len() == self.np(),
            self.run(m0, seq) is Some,
        ensures
            token_total(self.run(m0, seq).unwrap()) == token_total(m0),
        decreases seq.len(),
    {
        if seq.len() > 0 {
            self.lemma_state_machine_conserves_tokens(m0, seq.drop_last());
            let m1 = self.run(m0, seq.drop_last()).unwrap();
            self.lemma_state_machine_fire_conserves(m1, seq.last());
        }
    }
}

/// The sum of `f(i)` for `0 <= i < n`.
pub open spec fn sum_to(n: int, f: spec_fn(int) -> int) -> int
    decreases n,
{
    if n <= 0 {
        0
    } else {
        sum_to(n - 1, f) + f(n - 1)
    }
}

pub(crate) proof fn lemma_sum_ext(n: int, f: spec_fn(int) -> int, g: spec_fn(int) -> int)
    requires
        forall|i: int| #![trigger f(i)] 0 <= i < n ==> f(i) == g(i),
    ensures
        sum_to(n, f) == sum_to(n, g),
    decreases n,
{
    if n > 0 {
        lemma_sum_ext(n - 1, f, g);
    }
}

pub(crate) proof fn lemma_sum_sub(n: int, f: spec_fn(int) -> int, g: spec_fn(int) -> int, h: spec_fn(int) -> int)
    requires
        forall|i: int| #![trigger h(i)] 0 <= i < n ==> h(i) == f(i) - g(i),
    ensures
        sum_to(n, h) == sum_to(n, f) - sum_to(n, g),
    decreases n,
{
    if n > 0 {
        lemma_sum_sub(n - 1, f, g, h);
    }
}

proof fn lemma_sum_shift(n: int, f: spec_fn(int) -> int)
    requires
        n >= 0,
    ensures
        sum_to(n + 1, f) == f(0) + sum_to(n, |i: int| f(i + 1)),
    decreases n,
{
    let g = |i: int| f(i + 1);
    if n > 0 {
        lemma_sum_shift(n - 1, f);
        assert(sum_to(n, g) == sum_to(n - 1, g) + g(n - 1));
        assert(sum_to(n + 1, f) == sum_to(n, f) + f(n));
    } else {
        assert(sum_to(1, f) == sum_to(0, f) + f(0));
    }
}

/// A sum over a cycle of positions does not change when every position is
/// replaced by the next one.
proof fn lemma_sum_rotate(n: int, f: spec_fn(int) -> int)
    requires
        n > 0,
    ensures
        sum_to(n, |i: int| f(next_index(i, n))) == sum_to(n, f),
{
    let h = |i: int| f(next_index(i, n));
    lemma_sum_ext(n - 1, h, |i: int| f(i + 1));
    lemma_sum_shift(n - 1, f);
}

impl Net {
    /// The change that firing transition `t` makes on the node at unified index `x`
    /// (zero on transitions).
    pub open spec fn fire_delta(&self, t: int, x: usize) -> int {
        if x < self.np() {
            (if self.produces(t, x as int) { 1int } else { 0int }) - (if self.consumes(t, x as int) { 1int } else { 0int })
        } else {
            0
        }
    }

    proof fn lemma_circuit_tokens_fire(&self, m: Seq<u32>, t: int, c: Seq<usize>, k: int)
        requires
            self.fires(m, t),
            0 <= k <= c.len(),
        ensures
            circuit_tokens(self.fire_spec(m, t), self.np(), c.take(k)) == circuit_tokens(m, self.np(), c.take(k))
                + sum_to(k, |i: int| self.fire_delta(t, c[i])),
        decreases k,
    {
        if k > 0 {
            self.lemma_circuit_tokens_fire(m, t, c, k - 1);
            assert(c.take(k).drop_last() == c.take(k - 1));
            let x = c[k - 1];
            if x < self.np() {
                assert(self.fired_count(m, t, x as int) <= u32::MAX);
            }
        }
    }

    /// In a marked graph, firing a transition keeps the number of tokens on
    /// every circuit: a transition on the circuit takes a token from the place
    /// before it and puts one on the place after it, and no other transition
    /// touches the circuit's places.
    pub proof fn lemma_marked_graph_fire_keeps_circuit_tokens(&self, m: Seq<u32>, t: int, c: Seq<usize>)
        requires
            self.wf(),
            is_marked_graph_spec(self.place_set(), self.arc_set()),
            self.fires(m, t),
            is_edge_cycle(self.flow_edges(), c),
        ensures
            circuit_tokens(self.fire_spec(m, t), self.np(), c) == circuit_tokens(m, self.np(), c),
    {
        self.lemma_wf();
        self.lemma_flow_edges();
        let n = c.len() as int;
        let np = self.np();
        let big_t = np + t;
        let d = |i: int| self.fire_delta(t, c[i]);
        let a = |i: int| if c[i] < np && self.produces(t, c[i] as int) { 1int } else { 0int };
        let b = |i: int| if c[i] < np && self.consumes(t, c[i] as int) { 1int } else { 0int };
        let is_t = |i: int| if c[i] == big_t { 1int } else { 0int };
        self.lemma_circuit_tokens_fire(m, t, c, n);
        assert(c.take(n) == c);
        lemma_sum_sub(n, a, b, d);
        assert forall|j: int| 0 <= j < n implies #[trigger] a(next_index(j, n)) == is_t(j) && b(j) == is_t(next_index(j, n)) by {
            let i = next_index(j, n);
            assert(self.flow_edges().contains((c[j], c[i])));
            assert(self.is_flow_pair((c[j], c[i])));
            if c[j] >= np {
                let u = c[j] - np;
                let pl = self.place_seq()[c[i] as int];
                assert(self.transition_set().contains(self.transition_seq()[u]));
                assert(self.place_set().contains(pl));
                if self.produces(t, c[i] as int) && c[j] != big_t {
                    let pre = preset_of_place(self.arc_set(), pl);
                    assert(pre.contains(self.transition_seq()[t]));
                    assert(pre.contains(self.transition_seq()[u]));
                    assert(self.transition_seq()[t] == self.transition_seq()[u]);
                }
            } else {
                let u = c[i] - np;
                let pl = self.place_seq()[c[j] as int];
                assert(self.place_set().contains(pl));
                if self.consumes(t, c[j] as int) && c[i] != big_t {
                    let post = postset_of_place(self.arc_set(), pl);
                    assert(post.contains(self.transition_seq()[t]));
                    assert(post.contains(self.transition_seq()[u]));
                    assert(self.transition_seq()[t] == self.transition_seq()[u]);
                }
            }
        }
        lemma_sum_rotate(n, a);
        lemma_sum_ext(n, |i: int| a(next_index(i, n)), is_t);
        lemma_sum_rotate(n, is_t);
        assert forall|j: int| 0 <= j < n implies #[trigger] b(j) == is_t(next_index(j, n)) by {
            assert(a(next_index(j, n)) == is_t(j));
        }
        lemma_sum_ext(n, b, |i: int| is_t(next_index(i, n)));
    }

    /// In a marked graph, every marking reached by a firing sequence puts as
    /// many tokens on each circuit as the marking the sequence started from.
    pub proof fn lemma_marked_graph_circuit_tokens_invariant(&self, m0: Seq<u32>, seq: Seq<int>, c: Seq<usize>)
        requires
            self.wf(),
            is_marked_graph_spec(self.place_set(), self.arc_set()),
            m0.len() == self.np(),
            self.run(m0, seq) is Some,
            is_edge_cycle(self.flow_edges(), c),
        ensures
            circuit_tokens(self.run(m0, seq).unwrap(), self.np(), c) == circuit_tokens(m0, self.np(), c),
        decreases seq.len(),
    {
        if seq.len() > 0 {
            self.lemma_marked_graph_circuit_tokens_invariant(m0, seq.drop_last(), c);
            let m1 = self.run(m0, seq.drop_last()).unwrap();
            self.lemma_marked_graph_fire_keeps_circuit_tokens(m1, seq.last(), c);
        }
    }
}

/// A circuit without tokens has no marked place.
proof fn lemma_zero_circuit_tokens(m: Seq<u32>, np: nat, c: Seq<usize>, i: int)
    requires
        circuit_tokens(m, np, c) == 0,
        0 <= i < c.len(),
        c[i] < np,
    ensures
        m[c[i] as int] == 0,
    decreases c.len(),
{
    if i < c.len() - 1 {
        assert(c.drop_last()[i] == c[i]);
        lemma_zero_circuit_tokens(m, np, c.drop_last(), i);
    }
}

impl Net {
    /// In a marked graph, a circuit that carries no token never carries one
    /// again, so no transition on it is ever enabled again: every marking
    /// reached by a firing sequence leaves each transition of the circuit
    /// disabled.
    pub proof fn law_unmarked_circuit_is_dead(&self, m0: Seq<u32>, seq: Seq<int>, c: Seq<usize>, j: int)
        requires
            self.wf(),
            is_marked_graph_spec(self.place_set(), self.arc_set()),
            m0.len() == self.np(),
            is_edge_cycle(self.flow_edges(), c),
            circuit_tokens(m0, self.np(), c) == 0,
            self.run(m0, seq) is Some,
            0 <= j < c.len(),
            c[j] >= self.np(),
        ensures
            !self.enabled_spec(self.run(m0, seq).unwrap(), c[j] - self.np()),
    {
        self.lemma_marked_graph_circuit_tokens_invariant(m0, seq, c);
        self.lemma_flow_edges();
        let m = self.run(m0, seq).unwrap();
        let n = c.len() as int;
        let prev = if j == 0 { n - 1 } else { j - 1 };
        assert(next_index(prev, n) == j);
        assert(self.flow_edges().contains((c[prev], c[next_index(prev, n)])));
        assert(self.is_flow_pair((c[prev], c[j])));
        lemma_zero_circuit_tokens(m, self.np(), c, prev);
        assert(self.consumes(c[j] - self.np(), c[prev] as int));
    }
}

} // verus!
