//! Incremental construction of nets.
//!
//! The builder mints [`Place`] and [`Transition`] handles. Identifiers are
//! monotonic and never reused: a handle always denotes the same conceptual node,
//! even after that node has been removed. Membership in the builder's live
//! structure is a separate matter: a removed node keeps its identity but is no
//! longer part of the net being built.

use vstd::prelude::*;
use crate::class::{classify_result_spec, NetClass};
use crate::net::{vec_position_place, vec_position_transition, Arc, Net, Place, Transition};

verus! {

broadcast use crate::net::group_handle_ids;

use crate::seq_facts::{
    lemma_filter_no_duplicates, lemma_filter_to_set, lemma_seq_concat_to_set,
    lemma_seq_remove_to_set,
};

/// Builder for an ordinary Petri net.
#[derive(Debug)]
pub struct NetBuilder {
    /// Next unused place identifier; strictly greater than every identifier minted so far.
    next_place_id: u64,
    /// Next unused transition identifier.
    next_transition_id: u64,
    /// Live places, in increasing identifier order.
    places: Vec<Place>,
    /// Live transitions, in increasing identifier order.
    transitions: Vec<Transition>,
    /// The flow relation: distinct arcs between live nodes.
    arcs: Vec<Arc>,
}

/// Errors that can occur during net construction.
#[derive(Debug, Clone, Copy, PartialEq, Eq, Structural)]
pub enum NetError {
    /// The net does not have at least one place and at least one transition.
    Degenerate,
    /// The net consists of two or more disconnected components.
    NotConnected,
}

impl NetError {
    /// A human-readable description of the error.
    pub fn message(&self) -> (r: &'static str)
        ensures
            r@ == (match self {
                NetError::Degenerate => "the net must have at least one place and at least one transition"@,
                NetError::NotConnected => "the net must be connected (every node reachable from every other node ignoring arc directions)"@,
            }),
    {
        match self {
            NetError::Degenerate => "the net must have at least one place and at least one transition",
            NetError::NotConnected => "the net must be connected (every node reachable from every other node ignoring arc directions)",
        }
    }
}

/// Identifiers strictly increase along the sequence and lie in `[1, bound)`.
pub open spec fn increasing_place_ids(s: Seq<Place>, bound: u64) -> bool {
    &&& forall|i: int, j: int| 0 <= i < j < s.len() ==> #[trigger] s[i].id() < #[trigger] s[j].id()
    &&& forall|i: int| 0 <= i < s.len() ==> 1 <= #[trigger] s[i].id() < bound
}

/// Identifiers strictly increase along the sequence and lie in `[1, bound)`.
pub open spec fn increasing_transition_ids(s: Seq<Transition>, bound: u64) -> bool {
    &&& forall|i: int, j: int| 0 <= i < j < s.len() ==> #[trigger] s[i].id() < #[trigger] s[j].id()
    &&& forall|i: int| 0 <= i < s.len() ==> 1 <= #[trigger] s[i].id() < bound
}

/// Something that converts into a single [`Arc`]: an arc, or a `(place, transition)`
/// / `(transition, place)` pair.
pub trait IntoArc {
    /// The arc this value denotes.
    spec fn arc_spec(&self) -> Arc;

    fn into_arc(self) -> (r: Arc)
        ensures
            r == self.arc_spec(),
    ;
}

impl IntoArc for Arc {
    open spec fn arc_spec(&self) -> Arc {
        *self
    }

    fn into_arc(self) -> (r: Arc) {
        self
    }
}

impl IntoArc for (Place, Transition) {
    open spec fn arc_spec(&self) -> Arc {
        Arc::PlaceToTransition(self.0, self.1)
    }

    fn into_arc(self) -> (r: Arc) {
        Arc::PlaceToTransition(self.0, self.1)
    }
}

impl IntoArc for (Transition, Place) {
    open spec fn arc_spec(&self) -> Arc {
        Arc::TransitionToPlace(self.0, self.1)
    }

    fn into_arc(self) -> (r: Arc) {
        Arc::TransitionToPlace(self.0, self.1)
    }
}

/// A chain of alternating places and transitions, denoting an arc between each
/// successive pair: tuples of length 2 to 12.
pub trait IntoArcs {
    /// The arcs this chain denotes, in order.
    spec fn arcs_spec(&self) -> Seq<Arc>;

    fn into_arcs(self) -> (r: Vec<Arc>)
        ensures
            r@ == self.arcs_spec(),
    ;
}

impl IntoArcs for (Place, Transition) {
    open spec fn arcs_spec(&self) -> Seq<Arc> {
        seq![Arc::PlaceToTransition(self.0, self.1)]
    }

    fn into_arcs(self) -> (r: Vec<Arc>) {
        let r = vec![Arc::PlaceToTransition(self.0, self.1)];
        proof {
            assert(r@ =~= self.arcs_spec());
        }
        r
    }
}

impl IntoArcs for (Transition, Place) {
    open spec fn arcs_spec(&self) -> Seq<Arc> {
        seq![Arc::TransitionToPlace(self.0, self.1)]
    }

    fn into_arcs(self) -> (r: Vec<Arc>) {
        let r = vec![Arc::TransitionToPlace(self.0, self.1)];
        proof {
            assert(r@ =~= self.arcs_spec());
        }
        r
    }
}

impl IntoArcs for (Place, Transition, Place) {
    open spec fn arcs_spec(&self) -> Seq<Arc> {
        seq![Arc::PlaceToTransition(self.0, self.1), Arc::TransitionToPlace(self.1, self.2)]
    }

    fn into_arcs(self) -> (r: Vec<Arc>) {
        let r = vec![Arc::PlaceToTransition(self.0, self.1), Arc::TransitionToPlace(self.1, self.2)];
        proof {
            assert(r@ =~= self.arcs_spec());
        }
        r
    }
}

impl IntoArcs for (Transition, Place, Transition) {
    open spec fn arcs_spec(&self) -> Seq<Arc> {
        seq![Arc::TransitionToPlace(self.0, self.1), Arc::PlaceToTransition(self.1, self.2)]
    }

    fn into_arcs(self) -> (r: Vec<Arc>) {
        let r = vec![Arc::TransitionToPlace(self.0, self.1), Arc::PlaceToTransition(self.1, self.2)];
        proof {
            assert(r@ =~= self.arcs_spec());
        }
        r
    }
}

impl IntoArcs for (Place, Transition, Place, Transition) {
    open spec fn arcs_spec(&self) -> Seq<Arc> {
        seq![Arc::PlaceToTransition(self.0, self.1), Arc::TransitionToPlace(self.1, self.2), Arc::PlaceToTransition(self.2, self.3)]
    }

    fn into_arcs(self) -> (r: Vec<Arc>) {
        let r = vec![Arc::PlaceToTransition(self.0, self.1), Arc::TransitionToPlace(self.1, self.2), Arc::PlaceToTransition(self.2, self.3)];
        proof {
            assert(r@ =~= self.arcs_spec());
        }
        r
    }
}

impl IntoArcs for (Transition, Place, Transition, Place) {
    open spec fn arcs_spec(&self) -> Seq<Arc> {
        seq![Arc::TransitionToPlace(self.0, self.1), Arc::PlaceToTransition(self.1, self.2), Arc::TransitionToPlace(self.2, self.3)]
    }

    fn into_arcs(self) -> (r: Vec<Arc>) {
        let r = vec![Arc::TransitionToPlace(self.0, self.1), Arc::PlaceToTransition(self.1, self.2), Arc::TransitionToPlace(self.2, self.3)];
        proof {
            assert(r@ =~= self.arcs_spec());
        }
        r
    }
}

impl IntoArcs for (Place, Transition, Place, Transition, Place) {
    open spec fn arcs_spec(&self) -> Seq<Arc> {
        seq![Arc::PlaceToTransition(self.0, self.1), Arc::TransitionToPlace(self.1, self.2), Arc::PlaceToTransition(self.2, self.3), Arc::TransitionToPlace(self.3, self.4)]
    }

    fn into_arcs(self) -> (r: Vec<Arc>) {
        let r = vec![Arc::PlaceToTransition(self.0, self.1), Arc::TransitionToPlace(self.1, self.2), Arc::PlaceToTransition(self.2, self.3), Arc::TransitionToPlace(self.3, self.4)];
        proof {
            assert(r@ =~= self.arcs_spec());
        }
        r
    }
}

impl IntoArcs for (Transition, Place, Transition, Place, Transition) {
    open spec fn arcs_spec(&self) -> Seq<Arc> {
        seq![Arc::TransitionToPlace(self.0, self.1), Arc::PlaceToTransition(self.1, self.2), Arc::TransitionToPlace(self.2, self.3), Arc::PlaceToTransition(self.3, self.4)]
    }

    fn into_arcs(self) -> (r: Vec<Arc>) {
        let r = vec![Arc::TransitionToPlace(self.0, self.1), Arc::PlaceToTransition(self.1, self.2), Arc::TransitionToPlace(self.2, self.3), Arc::PlaceToTransition(self.3, self.4)];
        proof {
            assert(r@ =~= self.arcs_spec());
        }
        r
    }
}

impl IntoArcs for (Place, Transition, Place, Transition, Place, Transition) {
    open spec fn arcs_spec(&self) -> Seq<Arc> {
        seq![Arc::PlaceToTransition(self.0, self.1), Arc::TransitionToPlace(self.1, self.2), Arc::PlaceToTransition(self.2, self.3), Arc::TransitionToPlace(self.3, self.4), Arc::PlaceToTransition(self.4, self.5)]
    }

    fn into_arcs(self) -> (r: Vec<Arc>) {
        let r = vec![Arc::PlaceToTransition(self.0, self.1), Arc::TransitionToPlace(self.1, self.2), Arc::PlaceToTransition(self.2, self.3), Arc::TransitionToPlace(self.3, self.4), Arc::PlaceToTransition(self.4, self.5)];
        proof {
            assert(r@ =~= self.arcs_spec());
        }
        r
    }
}

impl IntoArcs for (Transition, Place, Transition, Place, Transition, Place) {
    open spec fn arcs_spec(&self) -> Seq<Arc> {
        seq![Arc::TransitionToPlace(self.0, self.1), Arc::PlaceToTransition(self.1, self.2), Arc::TransitionToPlace(self.2, self.3), Arc::PlaceToTransition(self.3, self.4), Arc::TransitionToPlace(self.4, self.5)]
    }

    fn into_arcs(self) -> (r: Vec<Arc>) {
        let r = vec![Arc::TransitionToPlace(self.0, self.1), Arc::PlaceToTransition(self.1, self.2), Arc::TransitionToPlace(self.2, self.3), Arc::PlaceToTransition(self.3, self.4), Arc::TransitionToPlace(self.4, self.5)];
        proof {
            assert(r@ =~= self.arcs_spec());
        }
        r
    }
}

impl IntoArcs for (Place, Transition, Place, Transition, Place, Transition, Place) {
    open spec fn arcs_spec(&self) -> Seq<Arc> {
        seq![Arc::PlaceToTransition(self.0, self.1), Arc::TransitionToPlace(self.1, self.2), Arc::PlaceToTransition(self.2, self.3), Arc::TransitionToPlace(self.3, self.4), Arc::PlaceToTransition(self.4, self.5), Arc::TransitionToPlace(self.5, self.6)]
    }

    fn into_arcs(self) -> (r: Vec<Arc>) {
        let r = vec![Arc::PlaceToTransition(self.0, self.1), Arc::TransitionToPlace(self.1, self.2), Arc::PlaceToTransition(self.2, self.3), Arc::TransitionToPlace(self.3, self.4), Arc::PlaceToTransition(self.4, self.5), Arc::TransitionToPlace(self.5, self.6)];
        proof {
            assert(r@ =~= self.arcs_spec());
        }
        r
    }
}

impl IntoArcs for (Transition, Place, Transition, Place, Transition, Place, Transition) {
    open spec fn arcs_spec(&self) -> Seq<Arc> {
        seq![Arc::TransitionToPlace(self.0, self.1), Arc::PlaceToTransition(self.1, self.2), Arc::TransitionToPlace(self.2, self.3), Arc::PlaceToTransition(self.3, self.4), Arc::TransitionToPlace(self.4, self.5), Arc::PlaceToTransition(self.5, self.6)]
    }

    fn into_arcs(self) -> (r: Vec<Arc>) {
        let r = vec![Arc::TransitionToPlace(self.0, self.1), Arc::PlaceToTransition(self.1, self.2), Arc::TransitionToPlace(self.2, self.3), Arc::PlaceToTransition(self.3, self.4), Arc::TransitionToPlace(self.4, self.5), Arc::PlaceToTransition(self.5, self.6)];
        proof {
            assert(r@ =~= self.arcs_spec());
        }
        r
    }
}

impl IntoArcs for (Place, Transition, Place, Transition, Place, Transition, Place, Transition) {
    open spec fn arcs_spec(&self) -> Seq<Arc> {
        seq![Arc::PlaceToTransition(self.0, self.1), Arc::TransitionToPlace(self.1, self.2), Arc::PlaceToTransition(self.2, self.3), Arc::TransitionToPlace(self.3, self.4), Arc::PlaceToTransition(self.4, self.5), Arc::TransitionToPlace(self.5, self.6), Arc::PlaceToTransition(self.6, self.7)]
    }

    fn into_arcs(self) -> (r: Vec<Arc>) {
        let r = vec![Arc::PlaceToTransition(self.0, self.1), Arc::TransitionToPlace(self.1, self.2), Arc::PlaceToTransition(self.2, self.3), Arc::TransitionToPlace(self.3, self.4), Arc::PlaceToTransition(self.4, self.5), Arc::TransitionToPlace(self.5, self.6), Arc::PlaceToTransition(self.6, self.7)];
        proof {
            assert(r@ =~= self.arcs_spec());
        }
        r
    }
}

impl IntoArcs for (Transition, Place, Transition, Place, Transition, Place, Transition, Place) {
    open spec fn arcs_spec(&self) -> Seq<Arc> {
        seq![Arc::TransitionToPlace(self.0, self.1), Arc::PlaceToTransition(self.1, self.2), Arc::TransitionToPlace(self.2, self.3), Arc::PlaceToTransition(self.3, self.4), Arc::TransitionToPlace(self.4, self.5), Arc::PlaceToTransition(self.5, self.6), Arc::TransitionToPlace(self.6, self.7)]
    }

    fn into_arcs(self) -> (r: Vec<Arc>) {
        let r = vec![Arc::TransitionToPlace(self.0, self.1), Arc::PlaceToTransition(self.1, self.2), Arc::TransitionToPlace(self.2, self.3), Arc::PlaceToTransition(self.3, self.4), Arc::TransitionToPlace(self.4, self.5), Arc::PlaceToTransition(self.5, self.6), Arc::TransitionToPlace(self.6, self.7)];
        proof {
            assert(r@ =~= self.arcs_spec());
        }
        r
    }
}

impl IntoArcs for (Place, Transition, Place, Transition, Place, Transition, Place, Transition, Place) {
    open spec fn arcs_spec(&self) -> Seq<Arc> {
        seq![Arc::PlaceToTransition(self.0, self.1), Arc::TransitionToPlace(self.1, self.2), Arc::PlaceToTransition(self.2, self.3), Arc::TransitionToPlace(self.3, self.4), Arc::PlaceToTransition(self.4, self.5), Arc::TransitionToPlace(self.5, self.6), Arc::PlaceToTransition(self.6, self.7), Arc::TransitionToPlace(self.7, self.8)]
    }

    fn into_arcs(self) -> (r: Vec<Arc>) {
        let r = vec![Arc::PlaceToTransition(self.0, self.1), Arc::TransitionToPlace(self.1, self.2), Arc::PlaceToTransition(self.2, self.3), Arc::TransitionToPlace(self.3, self.4), Arc::PlaceToTransition(self.4, self.5), Arc::TransitionToPlace(self.5, self.6), Arc::PlaceToTransition(self.6, self.7), Arc::TransitionToPlace(self.7, self.8)];
        proof {
            assert(r@ =~= self.arcs_spec());
        }
        r
    }
}

impl IntoArcs for (Transition, Place, Transition, Place, Transition, Place, Transition, Place, Transition) {
    open spec fn arcs_spec(&self) -> Seq<Arc> {
        seq![Arc::TransitionToPlace(self.0, self.1), Arc::PlaceToTransition(self.1, self.2), Arc::TransitionToPlace(self.2, self.3), Arc::PlaceToTransition(self.3, self.4), Arc::TransitionToPlace(self.4, self.5), Arc::PlaceToTransition(self.5, self.6), Arc::TransitionToPlace(self.6, self.7), Arc::PlaceToTransition(self.7, self.8)]
    }

    fn into_arcs(self) -> (r: Vec<Arc>) {
        let r = vec![Arc::TransitionToPlace(self.0, self.1), Arc::PlaceToTransition(self.1, self.2), Arc::TransitionToPlace(self.2, self.3), Arc::PlaceToTransition(self.3, self.4), Arc::TransitionToPlace(self.4, self.5), Arc::PlaceToTransition(self.5, self.6), Arc::TransitionToPlace(self.6, self.7), Arc::PlaceToTransition(self.7, self.8)];
        proof {
            assert(r@ =~= self.arcs_spec());
        }
        r
    }
}

impl IntoArcs for (Place, Transition, Place, Transition, Place, Transition, Place, Transition, Place, Transition) {
    open spec fn arcs_spec(&self) -> Seq<Arc> {
        seq![Arc::PlaceToTransition(self.0, self.1), Arc::TransitionToPlace(self.1, self.2), Arc::PlaceToTransition(self.2, self.3), Arc::TransitionToPlace(self.3, self.4), Arc::PlaceToTransition(self.4, self.5), Arc::TransitionToPlace(self.5, self.6), Arc::PlaceToTransition(self.6, self.7), Arc::TransitionToPlace(self.7, self.8), Arc::PlaceToTransition(self.8, self.9)]
    }

    fn into_arcs(self) -> (r: Vec<Arc>) {
        let r = vec![Arc::PlaceToTransition(self.0, self.1), Arc::TransitionToPlace(self.1, self.2), Arc::PlaceToTransition(self.2, self.3), Arc::TransitionToPlace(self.3, self.4), Arc::PlaceToTransition(self.4, self.5), Arc::TransitionToPlace(self.5, self.6), Arc::PlaceToTransition(self.6, self.7), Arc::TransitionToPlace(self.7, self.8), Arc::PlaceToTransition(self.8, self.9)];
        proof {
            assert(r@ =~= self.arcs_spec());
        }
        r
    }
}

impl IntoArcs for (Transition, Place, Transition, Place, Transition, Place, Transition, Place, Transition, Place) {
    open spec fn arcs_spec(&self) -> Seq<Arc> {
        seq![Arc::TransitionToPlace(self.0, self.1), Arc::PlaceToTransition(self.1, self.2), Arc::TransitionToPlace(self.2, self.3), Arc::PlaceToTransition(self.3, self.4), Arc::TransitionToPlace(self.4, self.5), Arc::PlaceToTransition(self.5, self.6), Arc::TransitionToPlace(self.6, self.7), Arc::PlaceToTransition(self.7, self.8), Arc::TransitionToPlace(self.8, self.9)]
    }

    fn into_arcs(self) -> (r: Vec<Arc>) {
        let r = vec![Arc::TransitionToPlace(self.0, self.1), Arc::PlaceToTransition(self.1, self.2), Arc::TransitionToPlace(self.2, self.3), Arc::PlaceToTransition(self.3, self.4), Arc::TransitionToPlace(self.4, self.5), Arc::PlaceToTransition(self.5, self.6), Arc::TransitionToPlace(self.6, self.7), Arc::PlaceToTransition(self.7, self.8), Arc::TransitionToPlace(self.8, self.9)];
        proof {
            assert(r@ =~= self.arcs_spec());
        }
        r
    }
}

impl IntoArcs for (Place, Transition, Place, Transition, Place, Transition, Place, Transition, Place, Transition, Place) {
    open spec fn arcs_spec(&self) -> Seq<Arc> {
        seq![Arc::PlaceToTransition(self.0, self.1), Arc::TransitionToPlace(self.1, self.2), Arc::PlaceToTransition(self.2, self.3), Arc::TransitionToPlace(self.3, self.4), Arc::PlaceToTransition(self.4, self.5), Arc::TransitionToPlace(self.5, self.6), Arc::PlaceToTransition(self.6, self.7), Arc::TransitionToPlace(self.7, self.8), Arc::PlaceToTransition(self.8, self.9), Arc::TransitionToPlace(self.9, self.10)]
    }

    fn into_arcs(self) -> (r: Vec<Arc>) {
        let r = vec![Arc::PlaceToTransition(self.0, self.1), Arc::TransitionToPlace(self.1, self.2), Arc::PlaceToTransition(self.2, self.3), Arc::TransitionToPlace(self.3, self.4), Arc::PlaceToTransition(self.4, self.5), Arc::TransitionToPlace(self.5, self.6), Arc::PlaceToTransition(self.6, self.7), Arc::TransitionToPlace(self.7, self.8), Arc::PlaceToTransition(self.8, self.9), Arc::TransitionToPlace(self.9, self.10)];
        proof {
            assert(r@ =~= self.arcs_spec());
        }
        r
    }
}

impl IntoArcs for (Transition, Place, Transition, Place, Transition, Place, Transition, Place, Transition, Place, Transition) {
    open spec fn arcs_spec(&self) -> Seq<Arc> {
        seq![Arc::TransitionToPlace(self.0, self.1), Arc::PlaceToTransition(self.1, self.2), Arc::TransitionToPlace(self.2, self.3), Arc::PlaceToTransition(self.3, self.4), Arc::TransitionToPlace(self.4, self.5), Arc::PlaceToTransition(self.5, self.6), Arc::TransitionToPlace(self.6, self.7), Arc::PlaceToTransition(self.7, self.8), Arc::TransitionToPlace(self.8, self.9), Arc::PlaceToTransition(self.9, self.10)]
    }

    fn into_arcs(self) -> (r: Vec<Arc>) {
        let r = vec![Arc::TransitionToPlace(self.0, self.1), Arc::PlaceToTransition(self.1, self.2), Arc::TransitionToPlace(self.2, self.3), Arc::PlaceToTransition(self.3, self.4), Arc::TransitionToPlace(self.4, self.5), Arc::PlaceToTransition(self.5, self.6), Arc::TransitionToPlace(self.6, self.7), Arc::PlaceToTransition(self.7, self.8), Arc::TransitionToPlace(self.8, self.9), Arc::PlaceToTransition(self.9, self.10)];
        proof {
            assert(r@ =~= self.arcs_spec());
        }
        r
    }
}

impl IntoArcs for (Place, Transition, Place, Transition, Place, Transition, Place, Transition, Place, Transition, Place, Transition) {
    open spec fn arcs_spec(&self) -> Seq<Arc> {
        seq![Arc::PlaceToTransition(self.0, self.1), Arc::TransitionToPlace(self.1, self.2), Arc::PlaceToTransition(self.2, self.3), Arc::TransitionToPlace(self.3, self.4), Arc::PlaceToTransition(self.4, self.5), Arc::TransitionToPlace(self.5, self.6), Arc::PlaceToTransition(self.6, self.7), Arc::TransitionToPlace(self.7, self.8), Arc::PlaceToTransition(self.8, self.9), Arc::TransitionToPlace(self.9, self.10), Arc::PlaceToTransition(self.10, self.11)]
    }

    fn into_arcs(self) -> (r: Vec<Arc>) {
        let r = vec![Arc::PlaceToTransition(self.0, self.1), Arc::TransitionToPlace(self.1, self.2), Arc::PlaceToTransition(self.2, self.3), Arc::TransitionToPlace(self.3, self.4), Arc::PlaceToTransition(self.4, self.5), Arc::TransitionToPlace(self.5, self.6), Arc::PlaceToTransition(self.6, self.7), Arc::TransitionToPlace(self.7, self.8), Arc::PlaceToTransition(self.8, self.9), Arc::TransitionToPlace(self.9, self.10), Arc::PlaceToTransition(self.10, self.11)];
        proof {
            assert(r@ =~= self.arcs_spec());
        }
        r
    }
}

impl IntoArcs for (Transition, Place, Transition, Place, Transition, Place, Transition, Place, Transition, Place, Transition, Place) {
    open spec fn arcs_spec(&self) -> Seq<Arc> {
        seq![Arc::TransitionToPlace(self.0, self.1), Arc::PlaceToTransition(self.1, self.2), Arc::TransitionToPlace(self.2, self.3), Arc::PlaceToTransition(self.3, self.4), Arc::TransitionToPlace(self.4, self.5), Arc::PlaceToTransition(self.5, self.6), Arc::TransitionToPlace(self.6, self.7), Arc::PlaceToTransition(self.7, self.8), Arc::TransitionToPlace(self.8, self.9), Arc::PlaceToTransition(self.9, self.10), Arc::TransitionToPlace(self.10, self.11)]
    }

    fn into_arcs(self) -> (r: Vec<Arc>) {
        let r = vec![Arc::TransitionToPlace(self.0, self.1), Arc::PlaceToTransition(self.1, self.2), Arc::TransitionToPlace(self.2, self.3), Arc::PlaceToTransition(self.3, self.4), Arc::TransitionToPlace(self.4, self.5), Arc::PlaceToTransition(self.5, self.6), Arc::TransitionToPlace(self.6, self.7), Arc::PlaceToTransition(self.7, self.8), Arc::TransitionToPlace(self.8, self.9), Arc::PlaceToTransition(self.9, self.10), Arc::TransitionToPlace(self.10, self.11)];
        proof {
            assert(r@ =~= self.arcs_spec());
        }
        r
    }
}







proof fn lemma_remove_keeps_place_order(s: Seq<Place>, i: int, bound: u64)
    requires
        0 <= i < s.len(),
        increasing_place_ids(s, bound),
    ensures
        increasing_place_ids(s.remove(i), bound),
{
    let r = s.remove(i);
    assert forall|a: int, b: int| 0 <= a < b < r.len() implies #[trigger] r[a].id() < #[trigger] r[b].id() by {
        let a2 = if a < i { a } else { a + 1 };
        let b2 = if b < i { b } else { b + 1 };
        assert(r[a] == s[a2]);
        assert(r[b] == s[b2]);
    }
    assert forall|a: int| 0 <= a < r.len() implies 1 <= #[trigger] r[a].id() < bound by {
        let a2 = if a < i { a } else { a + 1 };
        assert(r[a] == s[a2]);
    }
}

proof fn lemma_remove_keeps_transition_order(s: Seq<Transition>, i: int, bound: u64)
    requires
        0 <= i < s.len(),
        increasing_transition_ids(s, bound),
    ensures
        increasing_transition_ids(s.remove(i), bound),
{
    let r = s.remove(i);
    assert forall|a: int, b: int| 0 <= a < b < r.len() implies #[trigger] r[a].id() < #[trigger] r[b].id() by {
        let a2 = if a < i { a } else { a + 1 };
        let b2 = if b < i { b } else { b + 1 };
        assert(r[a] == s[a2]);
        assert(r[b] == s[b2]);
    }
    assert forall|a: int| 0 <= a < r.len() implies 1 <= #[trigger] r[a].id() < bound by {
        let a2 = if a < i { a } else { a + 1 };
        assert(r[a] == s[a2]);
    }
}

impl NetBuilder {
    /// The live places, in increasing identifier order.
    pub closed spec fn place_seq(&self) -> Seq<Place> {
        self.places@
    }

    /// The live transitions, in increasing identifier order.
    pub closed spec fn transition_seq(&self) -> Seq<Transition> {
        self.transitions@
    }

    /// The arcs, in insertion order.
    pub closed spec fn arc_seq(&self) -> Seq<Arc> {
        self.arcs@
    }

    /// The identifier the next [`add_place`](Self::add_place) will mint.
    pub closed spec fn next_place_id(&self) -> u64 {
        self.next_place_id
    }

    /// The identifier the next [`add_transition`](Self::add_transition) will mint.
    pub closed spec fn next_transition_id(&self) -> u64 {
        self.next_transition_id
    }

    /// The set of live places.
    pub open spec fn place_set(&self) -> Set<Place> {
        self.place_seq().to_set()
    }

    /// The set of live transitions.
    pub open spec fn transition_set(&self) -> Set<Transition> {
        self.transition_seq().to_set()
    }

    /// The flow relation.
    pub open spec fn arc_set(&self) -> Set<Arc> {
        self.arc_seq().to_set()
    }

    /// Whether `a` joins two live nodes.
    pub open spec fn joins_live_nodes(&self, a: Arc) -> bool {
        self.place_set().contains(a.place_of()) && self.transition_set().contains(
            a.transition_of(),
        )
    }

    /// The builder's invariant: identifiers are ordered and below the next fresh
    /// identifier, and the arcs are distinct and join live nodes.
    pub closed spec fn wf(&self) -> bool {
        &&& 1 <= self.next_place_id <= u32::MAX + 1
        &&& 1 <= self.next_transition_id <= u32::MAX + 1
        &&& increasing_place_ids(self.places@, self.next_place_id)
        &&& increasing_transition_ids(self.transitions@, self.next_transition_id)
        &&& self.arcs@.no_duplicates()
        &&& forall|i: int|
            0 <= i < self.arcs@.len() ==> self.places@.contains(#[trigger] self.arcs@[i].place_of())
                && self.transitions@.contains(self.arcs@[i].transition_of())
    }

    /// Consequences of the invariant that callers may rely on.
    pub proof fn lemma_wf(&self)
        requires
            self.wf(),
        ensures
            self.place_seq().no_duplicates(),
            self.transition_seq().no_duplicates(),
            self.arc_seq().no_duplicates(),
            1 <= self.next_place_id(),
            1 <= self.next_transition_id(),
            forall|p: Place| #[trigger] self.place_set().contains(p) ==> 1 <= p.id() < self.next_place_id(),
            forall|t: Transition| #[trigger] self.transition_set().contains(t) ==> 1 <= t.id() < self.next_transition_id(),
            forall|a: Arc| #[trigger] self.arc_set().contains(a) ==> self.joins_live_nodes(a),
            forall|i: int, j: int|
                0 <= i < j < self.place_seq().len() ==> self.place_seq()[i].id() < self.place_seq()[j].id(),
            forall|i: int, j: int|
                0 <= i < j < self.transition_seq().len() ==> self.transition_seq()[i].id()
                    < self.transition_seq()[j].id(),
    {
        assert forall|i: int, j: int| 0 <= i < j < self.places@.len() implies self.places@[i] != self.places@[j] by {
            assert(self.places@[i].id() < self.places@[j].id());
        }
        assert forall|i: int, j: int| 0 <= i < j < self.transitions@.len() implies self.transitions@[i] != self.transitions@[j] by {
            assert(self.transitions@[i].id() < self.transitions@[j].id());
        }
        assert forall|a: Arc| #[trigger] self.arc_set().contains(a) implies self.joins_live_nodes(a) by {
            let i = choose|i: int| 0 <= i < self.arcs@.len() && self.arcs@[i] == a;
            assert(self.places@.contains(self.arcs@[i].place_of()));
        }
    }

    /// Creates a new, empty builder.
    pub fn new() -> (r: NetBuilder)
        ensures
            r.wf(),
            r.place_seq() == Seq::<Place>::empty(),
            r.transition_seq() == Seq::<Transition>::empty(),
            r.arc_seq() == Seq::<Arc>::empty(),
            r.next_place_id() == 1,
            r.next_transition_id() == 1,
    {
        NetBuilder {
            next_place_id: 1,
            next_transition_id: 1,
            places: Vec::new(),
            transitions: Vec::new(),
            arcs: Vec::new(),
        }
    }

    /// Adds one place and returns its handle, a fresh identity that is never reused.
    ///
    /// Identities are `u32`s: at most `u32::MAX` places can ever be minted.
    pub fn add_place(&mut self) -> (p: Place)
        requires
            old(self).wf(),
            old(self).next_place_id() <= u32::MAX,
        ensures
            final(self).wf(),
            p.id() == old(self).next_place_id(),
            !old(self).place_set().contains(p),
            final(self).place_seq() == old(self).place_seq().push(p),
            final(self).next_place_id() == old(self).next_place_id() + 1,
            final(self).transition_seq() == old(self).transition_seq(),
            final(self).next_transition_id() == old(self).next_transition_id(),
            final(self).arc_seq() == old(self).arc_seq(),
    {
        let id = self.next_place_id;
        self.next_place_id = id + 1;
        let id = id as u32;
        let p = Place(id);
        self.places.push(p);
        proof {
            let s = self.places@;
            assert(s[s.len() - 1] == p);
            assert forall|i: int| 0 <= i < s.len() implies s.contains(#[trigger] s[i]) by {}
            assert(forall|i: int| 0 <= i < old(self).places@.len() ==> s[i] == old(self).places@[i]);
            assert forall|i: int| 0 <= i < self.arcs@.len() implies self.places@.contains(#[trigger] self.arcs@[i].place_of()) by {
                let q = self.arcs@[i].place_of();
                let k = choose|k: int| 0 <= k < old(self).places@.len() && old(self).places@[k] == q;
                assert(s[k] == q);
            }
            if old(self).place_set().contains(p) {
                let k = choose|k: int| 0 <= k < old(self).places@.len() && old(self).places@[k] == p;
                assert(old(self).places@[k].id() < old(self).next_place_id);
            }
        }
        p
    }

    /// Adds `N` places and returns their handles, in order.
    pub fn add_places<const N: usize>(&mut self) -> (r: [Place; N])
        requires
            old(self).wf(),
            old(self).next_place_id() + N <= u32::MAX + 1,
        ensures
            final(self).wf(),
            r@.len() == N,
            forall|i: int| 0 <= i < N ==> #[trigger] r@[i].id() == old(self).next_place_id() + i,
            final(self).place_seq() == old(self).place_seq() + r@,
            final(self).next_place_id() == old(self).next_place_id() + N,
            final(self).transition_seq() == old(self).transition_seq(),
            final(self).next_transition_id() == old(self).next_transition_id(),
            final(self).arc_seq() == old(self).arc_seq(),
    {
        let mut r: [Place; N] = [Place(0); N];
        let mut i: usize = 0;
        while i < N
            invariant
                0 <= i <= N,
                self.wf(),
                self.next_place_id() == old(self).next_place_id() + i,
                old(self).next_place_id() + N <= u32::MAX + 1,
                r@.len() == N,
                forall|k: int| 0 <= k < i ==> #[trigger] r@[k].id() == old(self).next_place_id() + k,
                self.place_seq() == old(self).place_seq() + r@.subrange(0, i as int),
                self.transition_seq() == old(self).transition_seq(),
                self.next_transition_id() == old(self).next_transition_id(),
                self.arc_seq() == old(self).arc_seq(),
            decreases N - i,
        {
            let p = self.add_place();
            r[i] = p;
            proof {
                assert(r@.subrange(0, i + 1) =~= r@.subrange(0, i as int).push(p));
            }
            i = i + 1;
        }
        proof {
            assert(r@.subrange(0, N as int) =~= r@);
        }
        r
    }

    /// Adds one transition and returns its handle, a fresh identity that is never reused.
    ///
    /// Identities are `u32`s: at most `u32::MAX` transitions can ever be minted.
    pub fn add_transition(&mut self) -> (t: Transition)
        requires
            old(self).wf(),
            old(self).next_transition_id() <= u32::MAX,
        ensures
            final(self).wf(),
            t.id() == old(self).next_transition_id(),
            !old(self).transition_set().contains(t),
            final(self).transition_seq() == old(self).transition_seq().push(t),
            final(self).next_transition_id() == old(self).next_transition_id() + 1,
            final(self).place_seq() == old(self).place_seq(),
            final(self).next_place_id() == old(self).next_place_id(),
            final(self).arc_seq() == old(self).arc_seq(),
    {
        let id = self.next_transition_id;
        self.next_transition_id = id + 1;
        let id = id as u32;
        let t = Transition(id);
        self.transitions.push(t);
        proof {
            let s = self.transitions@;
            assert(forall|i: int| 0 <= i < old(self).transitions@.len() ==> s[i] == old(self).transitions@[i]);
            assert forall|i: int| 0 <= i < self.arcs@.len() implies self.transitions@.contains(#[trigger] self.arcs@[i].transition_of()) by {
                let q = self.arcs@[i].transition_of();
                assert(old(self).places@.contains(old(self).arcs@[i].place_of()));
                let k = choose|k: int| 0 <= k < old(self).transitions@.len() && old(self).transitions@[k] == q;
                assert(s[k] == q);
            }
            if old(self).transition_set().contains(t) {
                let k = choose|k: int| 0 <= k < old(self).transitions@.len() && old(self).transitions@[k] == t;
                assert(old(self).transitions@[k].id() < old(self).next_transition_id);
            }
        }
        t
    }

    /// Adds `N` transitions and returns their handles, in order.
    pub fn add_transitions<const N: usize>(&mut self) -> (r: [Transition; N])
        requires
            old(self).wf(),
            old(self).next_transition_id() + N <= u32::MAX + 1,
        ensures
            final(self).wf(),
            r@.len() == N,
            forall|i: int| 0 <= i < N ==> #[trigger] r@[i].id() == old(self).next_transition_id() + i,
            final(self).transition_seq() == old(self).transition_seq() + r@,
            final(self).next_transition_id() == old(self).next_transition_id() + N,
            final(self).place_seq() == old(self).place_seq(),
            final(self).next_place_id() == old(self).next_place_id(),
            final(self).arc_seq() == old(self).arc_seq(),
    {
        let mut r: [Transition; N] = [Transition(0); N];
        let mut i: usize = 0;
        while i < N
            invariant
                0 <= i <= N,
                self.wf(),
                self.next_transition_id() == old(self).next_transition_id() + i,
                old(self).next_transition_id() + N <= u32::MAX + 1,
                r@.len() == N,
                forall|k: int| 0 <= k < i ==> #[trigger] r@[k].id() == old(self).next_transition_id() + k,
                self.transition_seq() == old(self).transition_seq() + r@.subrange(0, i as int),
                self.place_seq() == old(self).place_seq(),
                self.next_place_id() == old(self).next_place_id(),
                self.arc_seq() == old(self).arc_seq(),
            decreases N - i,
        {
            let t = self.add_transition();
            r[i] = t;
            proof {
                assert(r@.subrange(0, i + 1) =~= r@.subrange(0, i as int).push(t));
            }
            i = i + 1;
        }
        proof {
            assert(r@.subrange(0, N as int) =~= r@);
        }
        r
    }

    /// The arc list after offering the first `k` arcs of `arcs` one by one:
    /// each is appended when it joins two live nodes and is not yet present.
    pub open spec fn chain_arcs(&self, arcs: Seq<Arc>, k: nat) -> Seq<Arc>
        decreases k,
    {
        if k == 0 {
            self.arc_seq()
        } else {
            let s = self.chain_arcs(arcs, (k - 1) as nat);
            let a = arcs[k - 1];
            if self.joins_live_nodes(a) && !s.contains(a) {
                s.push(a)
            } else {
                s
            }
        }
    }

    /// Whether the `i`-th arc of `arcs` is newly added when the chain is offered.
    pub open spec fn chain_accepts(&self, arcs: Seq<Arc>, i: int) -> bool {
        self.joins_live_nodes(arcs[i]) && !self.chain_arcs(arcs, i as nat).contains(arcs[i])
    }

    /// Adds a directed arc. Returns `true` when it was newly inserted; `false`
    /// when it is already present or when its place or transition is not in the net.
    pub fn add_arc<A: IntoArc>(&mut self, arc: A) -> (r: bool)
        requires
            old(self).wf(),
        ensures
            final(self).wf(),
            r == (old(self).joins_live_nodes(arc.arc_spec()) && !old(self).arc_set().contains(
                arc.arc_spec(),
            )),
            r ==> final(self).arc_seq() == old(self).arc_seq().push(arc.arc_spec()),
            !r ==> final(self).arc_seq() == old(self).arc_seq(),
            final(self).place_seq() == old(self).place_seq(),
            final(self).transition_seq() == old(self).transition_seq(),
            final(self).next_place_id() == old(self).next_place_id(),
            final(self).next_transition_id() == old(self).next_transition_id(),
    {
        let a = arc.into_arc();
        let (p, t) = match a {
            Arc::PlaceToTransition(p, t) => (p, t),
            Arc::TransitionToPlace(t, p) => (p, t),
        };
        if !crate::net::vec_contains_place(&self.places, p) {
            return false;
        }
        if !crate::net::vec_contains_transition(&self.transitions, t) {
            return false;
        }
        if crate::net::vec_position_arc(&self.arcs, a).is_some() {
            return false;
        }
        self.arcs.push(a);
        proof {
            let s = self.arcs@;
            assert(forall|i: int| 0 <= i < old(self).arcs@.len() ==> s[i] == old(self).arcs@[i]);
            assert forall|i: int, j: int| 0 <= i < j < s.len() implies s[i] != s[j] by {
                if j == s.len() - 1 {
                    assert(old(self).arcs@.contains(s[i]));
                }
            }
            assert forall|i: int| 0 <= i < s.len() implies self.places@.contains(#[trigger] s[i].place_of())
                && self.transitions@.contains(s[i].transition_of()) by {
                if i < old(self).arcs@.len() {
                    assert(s[i] == old(self).arcs@[i]);
                }
            }
        }
        true
    }

    /// Adds the arcs of a chain of alternating places and transitions, in order:
    /// an arc for every successive pair, skipping those already present (or
    /// joining a node that is not in the net).
    ///
    /// Returns `true` iff every arc of the chain was newly added.
    pub fn add_arcs<A: IntoArcs>(&mut self, arcs: A) -> (r: bool)
        requires
            old(self).wf(),
        ensures
            final(self).wf(),
            final(self).arc_seq() == old(self).chain_arcs(arcs.arcs_spec(), arcs.arcs_spec().len()),
            r == forall|i: int| 0 <= i < arcs.arcs_spec().len() ==> #[trigger] old(self).chain_accepts(arcs.arcs_spec(), i),
            final(self).place_seq() == old(self).place_seq(),
            final(self).transition_seq() == old(self).transition_seq(),
            final(self).next_place_id() == old(self).next_place_id(),
            final(self).next_transition_id() == old(self).next_transition_id(),
    {
        let ghost spec_arcs = arcs.arcs_spec();
        let v = arcs.into_arcs();
        let mut all = true;
        let mut i: usize = 0;
        while i < v.len()
            invariant
                0 <= i <= v.len(),
                v@ == spec_arcs,
                spec_arcs == arcs.arcs_spec(),
                self.wf(),
                self.arc_seq() == old(self).chain_arcs(spec_arcs, i as nat),
                all == forall|j: int| 0 <= j < i ==> #[trigger] old(self).chain_accepts(spec_arcs, j),
                self.place_seq() == old(self).place_seq(),
                self.transition_seq() == old(self).transition_seq(),
                self.next_place_id() == old(self).next_place_id(),
                self.next_transition_id() == old(self).next_transition_id(),
            decreases v.len() - i,
        {
            let a = v[i];
            let ghost before = *self;
            let added = self.add_arc(a);
            proof {
                assert(before.joins_live_nodes(a) == old(self).joins_live_nodes(a));
                assert(added == old(self).chain_accepts(spec_arcs, i as int));
                assert(self.arc_seq() == old(self).chain_arcs(spec_arcs, (i + 1) as nat));
                if !added {
                    assert(!old(self).chain_accepts(spec_arcs, i as int));
                }
            }
            if !added {
                all = false;
            }
            i = i + 1;
        }
        all
    }

    /// Removes a place and every arc incident on it. The handle keeps its identity
    /// but no longer denotes a node of this builder.
    ///
    /// Returns `true` iff the place was present.
    pub fn remove_place(&mut self, place: Place) -> (r: bool)
        requires
            old(self).wf(),
        ensures
            final(self).wf(),
            r == old(self).place_set().contains(place),
            final(self).place_set() == old(self).place_set().remove(place),
            final(self).arc_set() == old(self).arc_set().filter(|a: Arc| a.place_of() != place),
            !r ==> final(self).place_seq() == old(self).place_seq() && final(self).arc_seq()
                == old(self).arc_seq(),
            final(self).transition_seq() == old(self).transition_seq(),
            final(self).next_place_id() == old(self).next_place_id(),
            final(self).next_transition_id() == old(self).next_transition_id(),
    {
        proof {
            self.lemma_wf();
        }
        let pos = match crate::net::vec_position_place(&self.places, place) {
            Some(pos) => pos,
            None => {
                proof {
                    assert(old(self).place_set().remove(place) =~= old(self).place_set());
                    assert(old(self).arc_set().filter(|a: Arc| a.place_of() != place) =~= old(self).arc_set());
                }
                return false;
            },
        };
        let ghost pred = |a: Arc| a.place_of() != place;
        let mut kept: Vec<Arc> = Vec::new();
        let mut i: usize = 0;
        while i < self.arcs.len()
            invariant
                0 <= i <= self.arcs@.len(),
                self.arcs@ == old(self).arcs@,
                pred == (|a: Arc| a.place_of() != place),
                kept@ == self.arcs@.subrange(0, i as int).filter(pred),
            decreases self.arcs@.len() - i,
        {
            let a = self.arcs[i];
            proof {
                assert(self.arcs@.subrange(0, i + 1) =~= self.arcs@.subrange(0, i as int).push(a));
                self.arcs@.subrange(0, i as int).lemma_filter_push(a, pred);
            }
            let keep = match a {
                Arc::PlaceToTransition(p, _) => p != place,
                Arc::TransitionToPlace(_, p) => p != place,
            };
            if keep {
                kept.push(a);
            }
            i = i + 1;
        }
        proof {
            assert(self.arcs@.subrange(0, i as int) =~= self.arcs@);
            lemma_filter_to_set(old(self).arcs@, pred);
            lemma_filter_no_duplicates(old(self).arcs@, pred);
        }
        self.arcs = kept;
        self.places.remove(pos);
        proof {
            lemma_seq_remove_to_set(old(self).places@, pos as int);
            lemma_remove_keeps_place_order(old(self).places@, pos as int, old(self).next_place_id);
            broadcast use vstd::seq_lib::group_filter_ensures;
            let s = self.arcs@;
            assert forall|k: int| 0 <= k < s.len() implies self.places@.contains(#[trigger] s[k].place_of())
                && self.transitions@.contains(s[k].transition_of()) by {
                assert(s.contains(s[k]));
                old(self).arcs@.lemma_filter_contains_rev(pred, s[k]);
                assert(pred(s[k]));
                let j = choose|j: int| 0 <= j < old(self).arcs@.len() && old(self).arcs@[j] == s[k];
                assert(old(self).places@.contains(old(self).arcs@[j].place_of()));
                assert(self.places@.to_set().contains(s[k].place_of()));
            }
        }
        true
    }

    /// Removes a transition and every arc incident on it. The handle keeps its
    /// identity but no longer denotes a node of this builder.
    ///
    /// Returns `true` iff the transition was present.
    pub fn remove_transition(&mut self, transition: Transition) -> (r: bool)
        requires
            old(self).wf(),
        ensures
            final(self).wf(),
            r == old(self).transition_set().contains(transition),
            final(self).transition_set() == old(self).transition_set().remove(transition),
            final(self).arc_set() == old(self).arc_set().filter(
                |a: Arc| a.transition_of() != transition,
            ),
            !r ==> final(self).transition_seq() == old(self).transition_seq()
                && final(self).arc_seq() == old(self).arc_seq(),
            final(self).place_seq() == old(self).place_seq(),
            final(self).next_place_id() == old(self).next_place_id(),
            final(self).next_transition_id() == old(self).next_transition_id(),
    {
        proof {
            self.lemma_wf();
        }
        let pos = match crate::net::vec_position_transition(&self.transitions, transition) {
            Some(pos) => pos,
            None => {
                proof {
                    assert(old(self).transition_set().remove(transition) =~= old(self).transition_set());
                    assert(old(self).arc_set().filter(|a: Arc| a.transition_of() != transition)
                        =~= old(self).arc_set());
                }
                return false;
            },
        };
        let ghost pred = |a: Arc| a.transition_of() != transition;
        let mut kept: Vec<Arc> = Vec::new();
        let mut i: usize = 0;
        while i < self.arcs.len()
            invariant
                0 <= i <= self.arcs@.len(),
                self.arcs@ == old(self).arcs@,
                pred == (|a: Arc| a.transition_of() != transition),
                kept@ == self.arcs@.subrange(0, i as int).filter(pred),
            decreases self.arcs@.len() - i,
        {
            let a = self.arcs[i];
            proof {
                assert(self.arcs@.subrange(0, i + 1) =~= self.arcs@.subrange(0, i as int).push(a));
                self.arcs@.subrange(0, i as int).lemma_filter_push(a, pred);
            }
            let keep = match a {
                Arc::PlaceToTransition(_, t) => t != transition,
                Arc::TransitionToPlace(t, _) => t != transition,
            };
            if keep {
                kept.push(a);
            }
            i = i + 1;
        }
        proof {
            assert(self.arcs@.subrange(0, i as int) =~= self.arcs@);
            lemma_filter_to_set(old(self).arcs@, pred);
            lemma_filter_no_duplicates(old(self).arcs@, pred);
        }
        self.arcs = kept;
        self.transitions.remove(pos);
        proof {
            lemma_seq_remove_to_set(old(self).transitions@, pos as int);
            lemma_remove_keeps_transition_order(old(self).transitions@, pos as int, old(self).next_transition_id);
            broadcast use vstd::seq_lib::group_filter_ensures;
            let s = self.arcs@;
            assert forall|k: int| 0 <= k < s.len() implies self.places@.contains(#[trigger] s[k].place_of())
                && self.transitions@.contains(s[k].transition_of()) by {
                assert(s.contains(s[k]));
                old(self).arcs@.lemma_filter_contains_rev(pred, s[k]);
                assert(pred(s[k]));
                let j = choose|j: int| 0 <= j < old(self).arcs@.len() && old(self).arcs@[j] == s[k];
                assert(old(self).places@.contains(old(self).arcs@[j].place_of()));
                assert(self.transitions@.to_set().contains(s[k].transition_of()));
            }
        }
        true
    }

    /// Removes a directed arc. Returns `true` iff the arc was present.
    pub fn remove_arc<A: IntoArc>(&mut self, arc: A) -> (r: bool)
        requires
            old(self).wf(),
        ensures
            final(self).wf(),
            r == old(self).arc_set().contains(arc.arc_spec()),
            final(self).arc_set() == old(self).arc_set().remove(arc.arc_spec()),
            !r ==> final(self).arc_seq() == old(self).arc_seq(),
            final(self).place_seq() == old(self).place_seq(),
            final(self).transition_seq() == old(self).transition_seq(),
            final(self).next_place_id() == old(self).next_place_id(),
            final(self).next_transition_id() == old(self).next_transition_id(),
    {
        let a = arc.into_arc();
        match crate::net::vec_position_arc(&self.arcs, a) {
            None => {
                proof {
                    assert(old(self).arc_set().remove(a) =~= old(self).arc_set());
                }
                false
            },
            Some(pos) => {
                self.arcs.remove(pos);
                proof {
                    lemma_seq_remove_to_set(old(self).arcs@, pos as int);
                    let s = self.arcs@;
                    assert forall|k: int| 0 <= k < s.len() implies self.places@.contains(#[trigger] s[k].place_of())
                        && self.transitions@.contains(s[k].transition_of()) by {
                        let j = if k < pos { k } else { k + 1 };
                        assert(s[k] == old(self).arcs@[j]);
                        assert(old(self).places@.contains(old(self).arcs@[j].place_of()));
                    }
                }
                true
            },
        }
    }

    /// Classifies the net in its current state.
    ///
    /// Fails with [`NetError::Degenerate`] when there is no place or no transition,
    /// and with [`NetError::NotConnected`] when the net is not weakly connected.
    pub fn classify(&self) -> (r: Result<NetClass, NetError>)
        requires
            self.wf(),
        ensures
            r == classify_result_spec(self.place_set(), self.transition_set(), self.arc_set()),
    {
        proof {
            self.lemma_wf();
        }
        crate::topology::classify(&self.places, &self.transitions, &self.arcs)
    }

    /// The number of places currently in the builder.
    pub fn place_count(&self) -> (r: usize)
        requires
            self.wf(),
        ensures
            r == self.place_seq().len(),
            r == self.place_set().len(),
    {
        proof {
            self.lemma_wf();
            self.places@.unique_seq_to_set();
        }
        self.places.len()
    }

    /// The number of transitions currently in the builder.
    pub fn transition_count(&self) -> (r: usize)
        requires
            self.wf(),
        ensures
            r == self.transition_seq().len(),
            r == self.transition_set().len(),
    {
        proof {
            self.lemma_wf();
            self.transitions@.unique_seq_to_set();
        }
        self.transitions.len()
    }

    /// The number of arcs currently in the builder.
    pub fn arc_count(&self) -> (r: usize)
        requires
            self.wf(),
        ensures
            r == self.arc_seq().len(),
            r == self.arc_set().len(),
    {
        proof {
            self.arcs@.unique_seq_to_set();
        }
        self.arcs.len()
    }

    /// The places currently in the net, in increasing identifier order.
    pub fn places(&self) -> (r: Vec<Place>)
        ensures
            r@ == self.place_seq(),
    {
        let mut r: Vec<Place> = Vec::new();
        let mut i: usize = 0;
        while i < self.places.len()
            invariant
                0 <= i <= self.places@.len(),
                r@ == self.places@.subrange(0, i as int),
            decreases self.places@.len() - i,
        {
            r.push(self.places[i]);
            proof {
                assert(self.places@.subrange(0, i + 1) =~= self.places@.subrange(0, i as int).push(self.places@[i as int]));
            }
            i = i + 1;
        }
        proof {
            assert(self.places@.subrange(0, i as int) =~= self.places@);
        }
        r
    }

    /// The transitions currently in the net, in increasing identifier order.
    pub fn transitions(&self) -> (r: Vec<Transition>)
        ensures
            r@ == self.transition_seq(),
    {
        let mut r: Vec<Transition> = Vec::new();
        let mut i: usize = 0;
        while i < self.transitions.len()
            invariant
                0 <= i <= self.transitions@.len(),
                r@ == self.transitions@.subrange(0, i as int),
            decreases self.transitions@.len() - i,
        {
            r.push(self.transitions[i]);
            proof {
                assert(self.transitions@.subrange(0, i + 1) =~= self.transitions@.subrange(0, i as int).push(self.transitions@[i as int]));
            }
            i = i + 1;
        }
        proof {
            assert(self.transitions@.subrange(0, i as int) =~= self.transitions@);
        }
        r
    }

    /// The arcs currently in the net.
    pub fn arcs(&self) -> (r: Vec<Arc>)
        ensures
            r@ == self.arc_seq(),
    {
        let mut r: Vec<Arc> = Vec::new();
        let mut i: usize = 0;
        while i < self.arcs.len()
            invariant
                0 <= i <= self.arcs@.len(),
                r@ == self.arcs@.subrange(0, i as int),
            decreases self.arcs@.len() - i,
        {
            r.push(self.arcs[i]);
            proof {
                assert(self.arcs@.subrange(0, i + 1) =~= self.arcs@.subrange(0, i as int).push(self.arcs@[i as int]));
            }
            i = i + 1;
        }
        proof {
            assert(self.arcs@.subrange(0, i as int) =~= self.arcs@);
        }
        r
    }
}


/// The arc between the `j`-th place and the `i`-th transition, in the given direction.
pub open spec fn dense_arc(places: Seq<Place>, transitions: Seq<Transition>, i: int, j: int, input: bool) -> Arc {
    if input {
        Arc::PlaceToTransition(places[j], transitions[i])
    } else {
        Arc::TransitionToPlace(transitions[i], places[j])
    }
}

/// For each transition (in the given order), the dense indices of its input
/// places (`input`) or of its output places.
fn map_neighbors(places: &Vec<Place>, transitions: &Vec<Transition>, arcs: &Vec<Arc>, input: bool) -> (r: Vec<Vec<usize>>)
    requires
        crate::topology::topology_wf(places@, transitions@, arcs@),
    ensures
        crate::net::adjacency_ok(r@, transitions@.len(), places@.len()),
        forall|i: int, j: usize| 0 <= i < transitions@.len() ==> (#[trigger] r@[i]@.contains(j) <==> j < places@.len()
            && arcs@.to_set().contains(dense_arc(places@, transitions@, i, j as int, input))),
{
    let mut r: Vec<Vec<usize>> = Vec::new();
    let mut i: usize = 0;
    while i < transitions.len()
        invariant
            crate::topology::topology_wf(places@, transitions@, arcs@),
            0 <= i <= transitions@.len(),
            r@.len() == i,
            forall|a: int| 0 <= a < i ==> (#[trigger] r@[a])@.no_duplicates(),
            forall|a: int, k: int| 0 <= a < i && 0 <= k < r@[a]@.len() ==> #[trigger] r@[a]@[k] < places@.len(),
            forall|a: int, j: usize| 0 <= a < i ==> (#[trigger] r@[a]@.contains(j) <==> j < places@.len()
                && arcs@.to_set().contains(dense_arc(places@, transitions@, a, j as int, input))),
        decreases transitions@.len() - i,
    {
        let t = transitions[i];
        let mut list: Vec<usize> = Vec::new();
        let mut k: usize = 0;
        while k < arcs.len()
            invariant
                crate::topology::topology_wf(places@, transitions@, arcs@),
                0 <= i < transitions@.len(),
                t == transitions@[i as int],
                0 <= k <= arcs@.len(),
                list@.no_duplicates(),
                forall|m: int| 0 <= m < list@.len() ==> #[trigger] list@[m] < places@.len(),
                forall|j: usize| #[trigger] list@.contains(j) <==> j < places@.len()
                    && arcs@.subrange(0, k as int).contains(dense_arc(places@, transitions@, i as int, j as int, input)),
            decreases arcs@.len() - k,
        {
            let a = arcs[k];
            let ghost l0 = list@;
            let hit: Option<Place> = match a {
                Arc::PlaceToTransition(p, tt) => if input && tt == t { Some(p) } else { None },
                Arc::TransitionToPlace(tt, p) => if !input && tt == t { Some(p) } else { None },
            };
            proof {
                assert(arcs@.subrange(0, k + 1) =~= arcs@.subrange(0, k as int).push(a));
            }
            match hit {
                Some(p) => {
                    proof {
                        assert(places@.contains(arcs@[k as int].place_of()));
                    }
                    let pos = vec_position_place(places, p);
                    let j = pos.unwrap();
                    proof {
                        assert(a == dense_arc(places@, transitions@, i as int, j as int, input));
                        assert(!l0.contains(j)) by {
                            if l0.contains(j) {
                                let m = choose|m: int| 0 <= m < k && arcs@.subrange(0, k as int)[m] == dense_arc(places@, transitions@, i as int, j as int, input);
                                assert(arcs@[m] == arcs@[k as int]);
                            }
                        }
                    }
                    list.push(j);
                    proof {
                        assert forall|a1: int, b1: int| 0 <= a1 < b1 < list@.len() implies list@[a1] != list@[b1] by {
                            if b1 == list@.len() - 1 {
                                assert(l0.contains(list@[a1]));
                            }
                        }
                        assert forall|jj: usize| #[trigger] list@.contains(jj) <==> jj < places@.len()
                            && arcs@.subrange(0, k + 1).contains(dense_arc(places@, transitions@, i as int, jj as int, input)) by {
                            crate::seq_facts::lemma_seq_push_contains(l0, j, jj);
                            crate::seq_facts::lemma_seq_push_contains(arcs@.subrange(0, k as int), a, dense_arc(places@, transitions@, i as int, jj as int, input));
                            if jj < places@.len() && dense_arc(places@, transitions@, i as int, jj as int, input) == a {
                                assert(places@[jj as int] == places@[j as int]);
                            }
                        }
                    }
                },
                None => {
                    proof {
                        assert forall|jj: usize| #[trigger] list@.contains(jj) <==> jj < places@.len()
                            && arcs@.subrange(0, k + 1).contains(dense_arc(places@, transitions@, i as int, jj as int, input)) by {
                            crate::seq_facts::lemma_seq_push_contains(arcs@.subrange(0, k as int), a, dense_arc(places@, transitions@, i as int, jj as int, input));
                        }
                    }
                },
            }
            k = k + 1;
        }
        proof {
            assert(arcs@.subrange(0, k as int) =~= arcs@);
        }
        r.push(list);
        i = i + 1;
    }
    r
}

/// For each place (in the given order), the dense indices of its input
/// transitions (`input`) or of its output transitions.
fn map_neighbors_of_places(places: &Vec<Place>, transitions: &Vec<Transition>, arcs: &Vec<Arc>, input: bool) -> (r: Vec<Vec<usize>>)
    requires
        crate::topology::topology_wf(places@, transitions@, arcs@),
    ensures
        crate::net::adjacency_ok(r@, places@.len(), transitions@.len()),
        forall|j: int, i: usize| 0 <= j < places@.len() ==> (#[trigger] r@[j]@.contains(i) <==> i < transitions@.len()
            && arcs@.to_set().contains(dense_arc(places@, transitions@, i as int, j, !input))),
{
    let mut r: Vec<Vec<usize>> = Vec::new();
    let mut j: usize = 0;
    while j < places.len()
        invariant
            crate::topology::topology_wf(places@, transitions@, arcs@),
            0 <= j <= places@.len(),
            r@.len() == j,
            forall|a: int| 0 <= a < j ==> (#[trigger] r@[a])@.no_duplicates(),
            forall|a: int, k: int| 0 <= a < j && 0 <= k < r@[a]@.len() ==> #[trigger] r@[a]@[k] < transitions@.len(),
            forall|a: int, i: usize| 0 <= a < j ==> (#[trigger] r@[a]@.contains(i) <==> i < transitions@.len()
                && arcs@.to_set().contains(dense_arc(places@, transitions@, i as int, a, !input))),
        decreases places@.len() - j,
    {
        let p = places[j];
        let mut list: Vec<usize> = Vec::new();
        let mut k: usize = 0;
        while k < arcs.len()
            invariant
                crate::topology::topology_wf(places@, transitions@, arcs@),
                0 <= j < places@.len(),
                p == places@[j as int],
                0 <= k <= arcs@.len(),
                list@.no_duplicates(),
                forall|m: int| 0 <= m < list@.len() ==> #[trigger] list@[m] < transitions@.len(),
                forall|i: usize| #[trigger] list@.contains(i) <==> i < transitions@.len()
                    && arcs@.subrange(0, k as int).contains(dense_arc(places@, transitions@, i as int, j as int, !input)),
            decreases arcs@.len() - k,
        {
            let a = arcs[k];
            let ghost l0 = list@;
            let hit: Option<Transition> = match a {
                Arc::PlaceToTransition(pp, t) => if !input && pp == p { Some(t) } else { None },
                Arc::TransitionToPlace(t, pp) => if input && pp == p { Some(t) } else { None },
            };
            proof {
                assert(arcs@.subrange(0, k + 1) =~= arcs@.subrange(0, k as int).push(a));
            }
            match hit {
                Some(t) => {
                    proof {
                        assert(transitions@.contains(arcs@[k as int].transition_of()));
                    }
                    let pos = vec_position_transition(transitions, t);
                    let i = pos.unwrap();
                    proof {
                        assert(a == dense_arc(places@, transitions@, i as int, j as int, !input));
                        assert(!l0.contains(i)) by {
                            if l0.contains(i) {
                                let m = choose|m: int| 0 <= m < k && arcs@.subrange(0, k as int)[m] == dense_arc(places@, transitions@, i as int, j as int, !input);
                                assert(arcs@[m] == arcs@[k as int]);
                            }
                        }
                    }
                    list.push(i);
                    proof {
                        assert forall|a1: int, b1: int| 0 <= a1 < b1 < list@.len() implies list@[a1] != list@[b1] by {
                            if b1 == list@.len() - 1 {
                                assert(l0.contains(list@[a1]));
                            }
                        }
                        assert forall|ii: usize| #[trigger] list@.contains(ii) <==> ii < transitions@.len()
                            && arcs@.subrange(0, k + 1).contains(dense_arc(places@, transitions@, ii as int, j as int, !input)) by {
                            crate::seq_facts::lemma_seq_push_contains(l0, i, ii);
                            crate::seq_facts::lemma_seq_push_contains(arcs@.subrange(0, k as int), a, dense_arc(places@, transitions@, ii as int, j as int, !input));
                            if ii < transitions@.len() && dense_arc(places@, transitions@, ii as int, j as int, !input) == a {
                                assert(transitions@[ii as int] == transitions@[i as int]);
                            }
                        }
                    }
                },
                None => {
                    proof {
                        assert forall|ii: usize| #[trigger] list@.contains(ii) <==> ii < transitions@.len()
                            && arcs@.subrange(0, k + 1).contains(dense_arc(places@, transitions@, ii as int, j as int, !input)) by {
                            crate::seq_facts::lemma_seq_push_contains(arcs@.subrange(0, k as int), a, dense_arc(places@, transitions@, ii as int, j as int, !input));
                        }
                    }
                },
            }
            k = k + 1;
        }
        proof {
            assert(arcs@.subrange(0, k as int) =~= arcs@);
        }
        r.push(list);
        j = j + 1;
    }
    r
}


impl NetBuilder {
    /// Consumes the builder and returns the validated [`Net`], its nodes
    /// renumbered densely in a bandwidth-reducing order.
    ///
    /// Fails exactly when [`classify`](Self::classify) fails: with
    /// [`NetError::Degenerate`] when there is no place or no transition, and with
    /// [`NetError::NotConnected`] when the net is not weakly connected.
    pub fn build(self) -> (r: Result<Net, NetError>)
        requires
            self.wf(),
            self.place_seq().len() + self.transition_seq().len() <= usize::MAX,
        ensures
            match r {
                Ok(net) => {
                    &&& classify_result_spec(self.place_set(), self.transition_set(), self.arc_set()) is Ok
                    &&& net.wf()
                    &&& net.place_set() == self.place_set()
                    &&& net.transition_set() == self.transition_set()
                    &&& net.arc_set() == self.arc_set()
                    &&& net.next_place_id_spec() == self.next_place_id()
                    &&& net.next_transition_id_spec() == self.next_transition_id()
                    &&& exists|q: Seq<usize>, m: int| #[trigger] crate::ordering::rcm_layout(self.place_seq(), self.transition_seq(), self.arc_seq(), q, m)
                        && net.place_seq() == crate::ordering::rev_places(self.place_seq(), q)
                        && net.transition_seq() == crate::ordering::rev_transitions(self.place_seq().len(), self.transition_seq(), q)
                },
                Err(e) => classify_result_spec(self.place_set(), self.transition_set(), self.arc_set()) == Err::<NetClass, NetError>(e),
            },
    {
        let class = match self.classify() {
            Ok(c) => c,
            Err(e) => {
                return Err(e);
            },
        };
        proof {
            self.lemma_wf();
        }
        let (ordered_places, ordered_transitions) = crate::ordering::compute_rcm_ordering(&self.places, &self.transitions, &self.arcs);
        proof {
            ordered_places@.unique_seq_to_set();
            ordered_transitions@.unique_seq_to_set();
            self.places@.unique_seq_to_set();
            self.transitions@.unique_seq_to_set();
            assert forall|i: int| #![trigger self.arcs@[i]] 0 <= i < self.arcs@.len() implies ordered_places@.contains(self.arcs@[i].place_of())
                && ordered_transitions@.contains(self.arcs@[i].transition_of()) by {
                assert(ordered_places@.to_set().contains(self.arcs@[i].place_of()));
                assert(ordered_transitions@.to_set().contains(self.arcs@[i].transition_of()));
            }
        }
        let preset_t = map_neighbors(&ordered_places, &ordered_transitions, &self.arcs, true);
        let postset_t = map_neighbors(&ordered_places, &ordered_transitions, &self.arcs, false);
        let preset_p = map_neighbors_of_places(&ordered_places, &ordered_transitions, &self.arcs, true);
        let postset_p = map_neighbors_of_places(&ordered_places, &ordered_transitions, &self.arcs, false);
        let ghost arcset = self.arcs@.to_set();
        proof {
            let np = ordered_places@.len();
            let nt = ordered_transitions@.len();
            assert(ordered_places@.to_set() == self.place_set());
            assert(ordered_transitions@.to_set() == self.transition_set());
            assert forall|i: int| 0 <= i < np implies 1 <= (#[trigger] ordered_places@[i]).id() < self.next_place_id by {
                assert(self.place_set().contains(ordered_places@[i]));
            }
            assert forall|i: int| 0 <= i < nt implies 1 <= (#[trigger] ordered_transitions@[i]).id() < self.next_transition_id by {
                assert(self.transition_set().contains(ordered_transitions@[i]));
            }
            assert forall|a: Arc| #[trigger] arcset.contains(a) implies ordered_places@.contains(a.place_of()) && ordered_transitions@.contains(a.transition_of()) by {
                assert(self.joins_live_nodes(a));
                assert(ordered_places@.to_set().contains(a.place_of()));
                assert(ordered_transitions@.to_set().contains(a.transition_of()));
            }
            assert(np > 0) by {
                if np == 0 {
                    assert(self.place_set() =~= Set::empty());
                }
            }
            assert(nt > 0) by {
                if nt == 0 {
                    assert(self.transition_set() =~= Set::empty());
                }
            }
        }
        let net = Net::from_parts(
            class,
            ordered_places,
            ordered_transitions,
            preset_t,
            postset_t,
            preset_p,
            postset_p,
            self.next_place_id,
            self.next_transition_id,
            Ghost(arcset),
        );
        Ok(net)
    }
}


/// Sorts places by identifier (insertion sort).
fn sort_places_by_id(v: &Vec<Place>) -> (r: Vec<Place>)
    requires
        v@.no_duplicates(),
    ensures
        r@.len() == v@.len(),
        r@.to_set() == v@.to_set(),
        forall|i: int, j: int| 0 <= i < j < r@.len() ==> #[trigger] r@[i].id() < #[trigger] r@[j].id(),
{
    let mut r: Vec<Place> = Vec::new();
    let mut i: usize = 0;
    while i < v.len()
        invariant
            0 <= i <= v@.len(),
            v@.no_duplicates(),
            r@.len() == i,
            r@.to_set() == v@.subrange(0, i as int).to_set(),
            forall|a: int, b: int| 0 <= a < b < r@.len() ==> #[trigger] r@[a].id() < #[trigger] r@[b].id(),
        decreases v@.len() - i,
    {
        let x = v[i];
        let mut pos: usize = 0;
        while pos < r.len() && r[pos].0 < x.0
            invariant
                0 <= pos <= r@.len(),
                forall|k: int| 0 <= k < pos ==> (#[trigger] r@[k]).id() < x.id(),
            decreases r@.len() - pos,
        {
            pos = pos + 1;
        }
        let ghost r0 = r@;
        proof {
            assert(!v@.subrange(0, i as int).contains(x)) by {
                if v@.subrange(0, i as int).contains(x) {
                    let k = choose|k: int| 0 <= k < i && v@.subrange(0, i as int)[k] == x;
                    assert(v@[k] != v@[i as int]);
                }
            }
            assert(!r0.to_set().contains(x));
            assert forall|k: int| pos <= k < r0.len() implies x.id() < (#[trigger] r0[k]).id() by {
                if pos < r0.len() {
                    assert(r0[pos as int].id() >= x.id());
                    if r0[pos as int].id() == x.id() {
                        assert(r0[pos as int] == x);
                        assert(r0.contains(x));
                    }
                    if k > pos {
                        assert(r0[pos as int].id() < r0[k].id());
                    }
                }
            }
        }
        r.insert(pos, x);
        proof {
            let r1 = r@;
            assert(r1 =~= r0.insert(pos as int, x));
            assert forall|a: int, b: int| 0 <= a < b < r1.len() implies #[trigger] r1[a].id() < #[trigger] r1[b].id() by {
                if b < pos {
                    assert(r1[a] == r0[a] && r1[b] == r0[b]);
                } else if b == pos {
                    assert(r1[a] == r0[a]);
                } else if a == pos {
                    assert(r1[b] == r0[b - 1]);
                } else if a < pos {
                    assert(r1[a] == r0[a] && r1[b] == r0[b - 1]);
                } else {
                    assert(r1[a] == r0[a - 1] && r1[b] == r0[b - 1]);
                }
            }
            assert(v@.subrange(0, i + 1) =~= v@.subrange(0, i as int).push(x));
            crate::seq_facts::lemma_seq_push_to_set(v@.subrange(0, i as int), x);
            assert forall|y: Place| r1.to_set().contains(y) <==> r0.to_set().insert(x).contains(y) by {
                if r1.contains(y) {
                    let k = choose|k: int| 0 <= k < r1.len() && r1[k] == y;
                    if k < pos {
                        assert(r0[k] == y);
                    } else if k > pos {
                        assert(r0[k - 1] == y);
                    }
                }
                if r0.contains(y) {
                    let k = choose|k: int| 0 <= k < r0.len() && r0[k] == y;
                    if k < pos {
                        assert(r1[k] == y);
                    } else {
                        assert(r1[k + 1] == y);
                    }
                }
                if y == x {
                    assert(r1[pos as int] == x);
                }
            }
            assert(r1.to_set() =~= r0.to_set().insert(x));
        }
        i = i + 1;
    }
    proof {
        assert(v@.subrange(0, i as int) =~= v@);
    }
    r
}

/// Sorts transitions by identifier (insertion sort).
fn sort_transitions_by_id(v: &Vec<Transition>) -> (r: Vec<Transition>)
    requires
        v@.no_duplicates(),
    ensures
        r@.len() == v@.len(),
        r@.to_set() == v@.to_set(),
        forall|i: int, j: int| 0 <= i < j < r@.len() ==> #[trigger] r@[i].id() < #[trigger] r@[j].id(),
{
    let mut r: Vec<Transition> = Vec::new();
    let mut i: usize = 0;
    while i < v.len()
        invariant
            0 <= i <= v@.len(),
            v@.no_duplicates(),
            r@.len() == i,
            r@.to_set() == v@.subrange(0, i as int).to_set(),
            forall|a: int, b: int| 0 <= a < b < r@.len() ==> #[trigger] r@[a].id() < #[trigger] r@[b].id(),
        decreases v@.len() - i,
    {
        let x = v[i];
        let mut pos: usize = 0;
        while pos < r.len() && r[pos].0 < x.0
            invariant
                0 <= pos <= r@.len(),
                forall|k: int| 0 <= k < pos ==> (#[trigger] r@[k]).id() < x.id(),
            decreases r@.len() - pos,
        {
            pos = pos + 1;
        }
        let ghost r0 = r@;
        proof {
            assert(!v@.subrange(0, i as int).contains(x)) by {
                if v@.subrange(0, i as int).contains(x) {
                    let k = choose|k: int| 0 <= k < i && v@.subrange(0, i as int)[k] == x;
                    assert(v@[k] != v@[i as int]);
                }
            }
            assert(!r0.to_set().contains(x));
            assert forall|k: int| pos <= k < r0.len() implies x.id() < (#[trigger] r0[k]).id() by {
                if pos < r0.len() {
                    assert(r0[pos as int].id() >= x.id());
                    if r0[pos as int].id() == x.id() {
                        assert(r0[pos as int] == x);
                        assert(r0.contains(x));
                    }
                    if k > pos {
                        assert(r0[pos as int].id() < r0[k].id());
                    }
                }
            }
        }
        r.insert(pos, x);
        proof {
            let r1 = r@;
            assert(r1 =~= r0.insert(pos as int, x));
            assert forall|a: int, b: int| 0 <= a < b < r1.len() implies #[trigger] r1[a].id() < #[trigger] r1[b].id() by {
                if b < pos {
                    assert(r1[a] == r0[a] && r1[b] == r0[b]);
                } else if b == pos {
                    assert(r1[a] == r0[a]);
                } else if a == pos {
                    assert(r1[b] == r0[b - 1]);
                } else if a < pos {
                    assert(r1[a] == r0[a] && r1[b] == r0[b - 1]);
                } else {
                    assert(r1[a] == r0[a - 1] && r1[b] == r0[b - 1]);
                }
            }
            assert(v@.subrange(0, i + 1) =~= v@.subrange(0, i as int).push(x));
            crate::seq_facts::lemma_seq_push_to_set(v@.subrange(0, i as int), x);
            assert forall|y: Transition| r1.to_set().contains(y) <==> r0.to_set().insert(x).contains(y) by {
                if r1.contains(y) {
                    let k = choose|k: int| 0 <= k < r1.len() && r1[k] == y;
                    if k < pos {
                        assert(r0[k] == y);
                    } else if k > pos {
                        assert(r0[k - 1] == y);
                    }
                }
                if r0.contains(y) {
                    let k = choose|k: int| 0 <= k < r0.len() && r0[k] == y;
                    if k < pos {
                        assert(r1[k] == y);
                    } else {
                        assert(r1[k + 1] == y);
                    }
                }
                if y == x {
                    assert(r1[pos as int] == x);
                }
            }
            assert(r1.to_set() =~= r0.to_set().insert(x));
        }
        i = i + 1;
    }
    proof {
        assert(v@.subrange(0, i as int) =~= v@);
    }
    r
}

/// Two sequences with strictly increasing identifiers and the same elements are equal.
proof fn lemma_increasing_places_equal(s: Seq<Place>, t: Seq<Place>)
    requires
        forall|i: int, j: int| 0 <= i < j < s.len() ==> #[trigger] s[i].id() < #[trigger] s[j].id(),
        forall|i: int, j: int| 0 <= i < j < t.len() ==> #[trigger] t[i].id() < #[trigger] t[j].id(),
        s.to_set() == t.to_set(),
    ensures
        s == t,
    decreases s.len() + t.len(),
{
    assert forall|x: Place| s.contains(x) <==> t.contains(x) by {
        assert(s.to_set().contains(x) == s.contains(x));
        assert(t.to_set().contains(x) == t.contains(x));
    }
    if s.len() == 0 {
        if t.len() > 0 {
            assert(t.contains(t[0]));
        }
        assert(s =~= t);
    } else if t.len() == 0 {
        assert(s.contains(s[0]));
    } else {
        assert(s.contains(s[0]));
        let j = choose|j: int| 0 <= j < t.len() && t[j] == s[0];
        assert(t.contains(t[0]));
        let i = choose|i: int| 0 <= i < s.len() && s[i] == t[0];
        if i > 0 {
            assert(s[0].id() < s[i].id());
            if j > 0 {
                assert(t[0].id() < t[j].id());
            }
        }
        if j > 0 {
            assert(t[0].id() < t[j].id());
        }
        let s1 = s.subrange(1, s.len() as int);
        let t1 = t.subrange(1, t.len() as int);
        assert forall|x: Place| s1.to_set().contains(x) <==> t1.to_set().contains(x) by {
            if s1.contains(x) {
                let a = choose|a: int| 0 <= a < s1.len() && s1[a] == x;
                assert(s[a + 1] == x);
                assert(s.contains(x));
                let b = choose|b: int| 0 <= b < t.len() && t[b] == x;
                if b == 0 {
                    assert(s[0].id() < s[a + 1].id());
                }
                assert(t1[b - 1] == x);
            }
            if t1.contains(x) {
                let a = choose|a: int| 0 <= a < t1.len() && t1[a] == x;
                assert(t[a + 1] == x);
                assert(t.contains(x));
                let b = choose|b: int| 0 <= b < s.len() && s[b] == x;
                if b == 0 {
                    assert(t[0].id() < t[a + 1].id());
                }
                assert(s1[b - 1] == x);
            }
        }
        assert(s1.to_set() =~= t1.to_set());
        lemma_increasing_places_equal(s1, t1);
        assert(s =~= seq![s[0]] + s1);
        assert(t =~= seq![t[0]] + t1);
    }
}

/// Two sequences with strictly increasing identifiers and the same elements are equal.
proof fn lemma_increasing_transitions_equal(s: Seq<Transition>, t: Seq<Transition>)
    requires
        forall|i: int, j: int| 0 <= i < j < s.len() ==> #[trigger] s[i].id() < #[trigger] s[j].id(),
        forall|i: int, j: int| 0 <= i < j < t.len() ==> #[trigger] t[i].id() < #[trigger] t[j].id(),
        s.to_set() == t.to_set(),
    ensures
        s == t,
    decreases s.len() + t.len(),
{
    assert forall|x: Transition| s.contains(x) <==> t.contains(x) by {
        assert(s.to_set().contains(x) == s.contains(x));
        assert(t.to_set().contains(x) == t.contains(x));
    }
    if s.len() == 0 {
        if t.len() > 0 {
            assert(t.contains(t[0]));
        }
        assert(s =~= t);
    } else if t.len() == 0 {
        assert(s.contains(s[0]));
    } else {
        assert(s.contains(s[0]));
        let j = choose|j: int| 0 <= j < t.len() && t[j] == s[0];
        assert(t.contains(t[0]));
        let i = choose|i: int| 0 <= i < s.len() && s[i] == t[0];
        if i > 0 {
            assert(s[0].id() < s[i].id());
            if j > 0 {
                assert(t[0].id() < t[j].id());
            }
        }
        if j > 0 {
            assert(t[0].id() < t[j].id());
        }
        let s1 = s.subrange(1, s.len() as int);
        let t1 = t.subrange(1, t.len() as int);
        assert forall|x: Transition| s1.to_set().contains(x) <==> t1.to_set().contains(x) by {
            if s1.contains(x) {
                let a = choose|a: int| 0 <= a < s1.len() && s1[a] == x;
                assert(s[a + 1] == x);
                assert(s.contains(x));
                let b = choose|b: int| 0 <= b < t.len() && t[b] == x;
                if b == 0 {
                    assert(s[0].id() < s[a + 1].id());
                }
                assert(t1[b - 1] == x);
            }
            if t1.contains(x) {
                let a = choose|a: int| 0 <= a < t1.len() && t1[a] == x;
                assert(t[a + 1] == x);
                assert(t.contains(x));
                let b = choose|b: int| 0 <= b < s.len() && s[b] == x;
                if b == 0 {
                    assert(t[0].id() < t[a + 1].id());
                }
                assert(s1[b - 1] == x);
            }
        }
        assert(s1.to_set() =~= t1.to_set());
        lemma_increasing_transitions_equal(s1, t1);
        assert(s =~= seq![s[0]] + s1);
        assert(t =~= seq![t[0]] + t1);
    }
}

impl NetBuilder {
    /// A builder holding the nodes and arcs of `net`, for editing. Identifiers
    /// continue where the net's builder left off, so handles stay valid and
    /// fresh ones never collide with old ones.
    pub fn from_net(net: Net) -> (r: NetBuilder)
        requires
            net.wf(),
        ensures
            r.wf(),
            r.place_set() == net.place_set(),
            r.transition_set() == net.transition_set(),
            r.arc_set() == net.arc_set(),
            r.next_place_id() == net.next_place_id_spec(),
            r.next_transition_id() == net.next_transition_id_spec(),
    {
        proof {
            net.lemma_wf();
        }
        let places = sort_places_by_id(&net.places());
        let transitions = sort_transitions_by_id(&net.transitions());
        let arcs = net.arcs();
        let next_place_id = net.next_place_id_exec();
        let next_transition_id = net.next_transition_id_exec();
        let r = NetBuilder { next_place_id, next_transition_id, places, transitions, arcs };
        proof {
            assert forall|i: int| 0 <= i < r.places@.len() implies 1 <= #[trigger] r.places@[i].id() < next_place_id by {
                assert(r.places@.to_set().contains(r.places@[i]));
                assert(net.place_set().contains(r.places@[i]));
            }
            assert forall|i: int| 0 <= i < r.transitions@.len() implies 1 <= #[trigger] r.transitions@[i].id() < next_transition_id by {
                assert(r.transitions@.to_set().contains(r.transitions@[i]));
                assert(net.transition_set().contains(r.transitions@[i]));
            }
            assert forall|i: int| 0 <= i < r.arcs@.len() implies r.places@.contains(#[trigger] r.arcs@[i].place_of())
                && r.transitions@.contains(r.arcs@[i].transition_of()) by {
                assert(r.arcs@.to_set().contains(r.arcs@[i]));
                assert(net.arc_set().contains(r.arcs@[i]));
                assert(net.place_seq().contains(r.arcs@[i].place_of()));
                assert(r.places@.to_set().contains(r.arcs@[i].place_of()));
                assert(net.transition_seq().contains(r.arcs@[i].transition_of()));
                assert(r.transitions@.to_set().contains(r.arcs@[i].transition_of()));
            }
        }
        r
    }
}

/// Building a net and turning it back into a builder gives back the same live
/// places and transitions, in the same order, the same flow relation, and the
/// same fresh identifiers: handles minted before the round trip stay valid and
/// new ones never collide with them.
pub proof fn lemma_build_round_trip(b: NetBuilder, net: Net, r: NetBuilder)
    requires
        b.wf(),
        net.wf(),
        r.wf(),
        net.place_set() == b.place_set(),
        net.transition_set() == b.transition_set(),
        net.arc_set() == b.arc_set(),
        net.next_place_id_spec() == b.next_place_id(),
        net.next_transition_id_spec() == b.next_transition_id(),
        r.place_set() == net.place_set(),
        r.transition_set() == net.transition_set(),
        r.arc_set() == net.arc_set(),
        r.next_place_id() == net.next_place_id_spec(),
        r.next_transition_id() == net.next_transition_id_spec(),
    ensures
        r.place_seq() == b.place_seq(),
        r.transition_seq() == b.transition_seq(),
        r.arc_set() == b.arc_set(),
        r.next_place_id() == b.next_place_id(),
        r.next_transition_id() == b.next_transition_id(),
{
    b.lemma_wf();
    r.lemma_wf();
    lemma_increasing_places_equal(r.place_seq(), b.place_seq());
    lemma_increasing_transitions_equal(r.transition_seq(), b.transition_seq());
}

/// One call on a builder, as far as its places are concerned.
pub enum PlaceStep {
    /// `add_place` (or one place of `add_places`) returned this handle.
    Add(Place),
    /// `remove_place` was called with this handle and returned the flag.
    Remove(Place, bool),
    /// Any other call: it leaves the places and the next place identifier alone.
    Other,
}

/// Whether the step adds `p`.
pub open spec fn adds(step: PlaceStep, p: Place) -> bool {
    step == PlaceStep::Add(p)
}

/// Whether the step removes `p`: `remove_place(p)` returned `true`.
pub open spec fn removes(step: PlaceStep, p: Place) -> bool {
    step == PlaceStep::Remove(p, true)
}

/// Whether `after` is what the step makes of `before`, by the contracts of
/// `add_place`, `remove_place` and the calls that leave places alone.
pub open spec fn place_step_holds(before: NetBuilder, step: PlaceStep, after: NetBuilder) -> bool {
    match step {
        PlaceStep::Add(p) => p.id() == before.next_place_id() && after.place_seq() == before.place_seq().push(p)
            && after.next_place_id() == before.next_place_id() + 1,
        PlaceStep::Remove(p, r) => r == before.place_set().contains(p) && after.place_set() == before.place_set().remove(p)
            && after.next_place_id() == before.next_place_id(),
        PlaceStep::Other => after.place_seq() == before.place_seq() && after.next_place_id() == before.next_place_id(),
    }
}

/// Whether, among the first `k` steps, `p` was added and not removed afterwards.
pub open spec fn added_and_kept(steps: Seq<PlaceStep>, k: int, p: Place) -> bool {
    exists|i: int| 0 <= i < k && #[trigger] adds(steps[i], p)
        && forall|j: int| i < j < k ==> !#[trigger] removes(steps[j], p)
}

proof fn lemma_place_history(bs: Seq<NetBuilder>, steps: Seq<PlaceStep>, k: int)
    requires
        bs.len() == steps.len() + 1,
        bs[0].place_seq() == Seq::<Place>::empty(),
        bs[0].next_place_id() == 1,
        forall|i: int| 0 <= i < bs.len() ==> (#[trigger] bs[i]).wf(),
        forall|i: int| 0 <= i < steps.len() ==> place_step_holds(bs[i], #[trigger] steps[i], bs[i + 1]),
        0 <= k <= steps.len(),
    ensures
        forall|p: Place| #[trigger] bs[k].place_set().contains(p) <==> added_and_kept(steps, k, p),
        forall|i: int, p: Place| 0 <= i < k && #[trigger] adds(steps[i], p) ==> p.id() < bs[k].next_place_id(),
        1 <= bs[k].next_place_id(),
    decreases k,
{
    if k > 0 {
        lemma_place_history(bs, steps, k - 1);
        let before = bs[k - 1];
        let after = bs[k];
        assert(place_step_holds(before, steps[k - 1], after));
        match steps[k - 1] {
            PlaceStep::Add(q) => {
                assert forall|p: Place| #[trigger] after.place_set().contains(p) <==> added_and_kept(steps, k, p) by {
                    assert(after.place_seq() == before.place_seq().push(q));
                    crate::seq_facts::lemma_seq_push_contains(before.place_seq(), q, p);
                    assert(after.place_set().contains(p) == (before.place_set().contains(p) || p == q));
                    assert(before.place_set().contains(p) == added_and_kept(steps, k - 1, p));
                    assert(!removes(steps[k - 1], p));
                    assert(adds(steps[k - 1], p) == (p == q));
                    if added_and_kept(steps, k - 1, p) {
                        let i = choose|i: int| 0 <= i < k - 1 && #[trigger] adds(steps[i], p)
                            && forall|j: int| i < j < k - 1 ==> !#[trigger] removes(steps[j], p);
                        assert(forall|j: int| i < j < k ==> !#[trigger] removes(steps[j], p));
                        assert(added_and_kept(steps, k, p));
                    }
                    if p == q {
                        assert(adds(steps[k - 1], p));
                        assert(added_and_kept(steps, k, p));
                    }
                    if added_and_kept(steps, k, p) && p != q {
                        let i = choose|i: int| 0 <= i < k && #[trigger] adds(steps[i], p)
                            && forall|j: int| i < j < k ==> !#[trigger] removes(steps[j], p);
                        assert(i < k - 1);
                        assert(forall|j: int| i < j < k - 1 ==> !#[trigger] removes(steps[j], p));
                        assert(added_and_kept(steps, k - 1, p));
                    }
                }
            },
            PlaceStep::Remove(q, flag) => {
                assert forall|p: Place| #[trigger] after.place_set().contains(p) <==> added_and_kept(steps, k, p) by {
                    assert(before.place_set().contains(p) == added_and_kept(steps, k - 1, p));
                    if added_and_kept(steps, k - 1, p) && (p != q || !flag) {
                        let i = choose|i: int| 0 <= i < k - 1 && #[trigger] adds(steps[i], p)
                            && forall|j: int| i < j < k - 1 ==> !#[trigger] removes(steps[j], p);
                        assert(forall|j: int| i < j < k ==> !#[trigger] removes(steps[j], p));
                        assert(added_and_kept(steps, k, p));
                    }
                    if added_and_kept(steps, k, p) {
                        let i = choose|i: int| 0 <= i < k && #[trigger] adds(steps[i], p)
                            && forall|j: int| i < j < k ==> !#[trigger] removes(steps[j], p);
                        assert(i < k - 1);
                        if p == q && flag {
                            assert(!removes(steps[k - 1], p));
                        }
                        assert(forall|j: int| i < j < k - 1 ==> !#[trigger] removes(steps[j], p));
                        assert(added_and_kept(steps, k - 1, p));
                    }
                }
            },
            PlaceStep::Other => {
                assert forall|p: Place| #[trigger] after.place_set().contains(p) <==> added_and_kept(steps, k, p) by {
                    assert(after.place_set() == before.place_set());
                    assert(before.place_set().contains(p) == added_and_kept(steps, k - 1, p));
                    assert(!adds(steps[k - 1], p));
                    assert(!removes(steps[k - 1], p));
                    if added_and_kept(steps, k - 1, p) {
                        let i = choose|i: int| 0 <= i < k - 1 && #[trigger] adds(steps[i], p)
                            && forall|j: int| i < j < k - 1 ==> !#[trigger] removes(steps[j], p);
                        assert(forall|j: int| i < j < k ==> !#[trigger] removes(steps[j], p));
                        assert(added_and_kept(steps, k, p));
                    }
                    if added_and_kept(steps, k, p) {
                        let i = choose|i: int| 0 <= i < k && #[trigger] adds(steps[i], p)
                            && forall|j: int| i < j < k ==> !#[trigger] removes(steps[j], p);
                        assert(i < k - 1);
                        assert(forall|j: int| i < j < k - 1 ==> !#[trigger] removes(steps[j], p));
                        assert(added_and_kept(steps, k - 1, p));
                    }
                }
            },
        }
    } else {
        assert forall|p: Place| #[trigger] bs[k].place_set().contains(p) <==> added_and_kept(steps, k, p) by {
            assert(!bs[0].place_seq().contains(p));
        }
    }
}

/// Over any sequence of calls on a builder fresh from `new`, each described by
/// what its contract guarantees (`add_place` and each place of `add_places`
/// as an add of the handle returned, `remove_place` with the flag it
/// returned, every other call as leaving the places alone), the builder's
/// places are pairwise distinct, and a handle is one of them exactly when some
/// add returned it and no later `remove_place` of it returned `true`. A handle
/// is minted once: no two adds return the same one, so a removed handle keeps
/// its identity but never becomes a member again.
pub proof fn law_builder_place_history(bs: Seq<NetBuilder>, steps: Seq<PlaceStep>)
    requires
        bs.len() == steps.len() + 1,
        bs[0].place_seq() == Seq::<Place>::empty(),
        bs[0].next_place_id() == 1,
        forall|i: int| 0 <= i < bs.len() ==> (#[trigger] bs[i]).wf(),
        forall|i: int| 0 <= i < steps.len() ==> place_step_holds(bs[i], #[trigger] steps[i], bs[i + 1]),
    ensures
        bs.last().place_seq().no_duplicates(),
        forall|p: Place| #[trigger] bs.last().place_set().contains(p) <==> added_and_kept(steps, steps.len() as int, p),
        forall|i: int, j: int, p: Place| 0 <= i < j < steps.len() && #[trigger] adds(steps[i], p) ==> !#[trigger] adds(steps[j], p),
{
    let n = steps.len() as int;
    lemma_place_history(bs, steps, n);
    bs.last().lemma_wf();
    assert forall|i: int, j: int, p: Place| 0 <= i < j < n && #[trigger] adds(steps[i], p) implies !#[trigger] adds(steps[j], p) by {
        lemma_place_history(bs, steps, j);
        assert(p.id() < bs[j].next_place_id());
        assert(place_step_holds(bs[j], steps[j], bs[j + 1]));
    }
}

} // verus!
