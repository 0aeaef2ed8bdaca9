//! Structural classes of nets and their defining predicates.

use vstd::prelude::*;
use crate::net::{Arc, Node, Place, Transition};

verus! {

/// The structural class of a net, from the most specific to the most general.
///
/// The classes nest: a circuit is both a state machine and a marked graph; state
/// machines and marked graphs are free-choice; free-choice nets are
/// asymmetric-choice. A net is tagged with the most specific class it belongs to.
#[derive(Debug, Clone, Copy, PartialEq, Eq, Hash, Structural)]
pub enum NetClass {
    /// Every transition has exactly one input and one output place, and every
    /// place has exactly one input and one output transition.
    Circuit,
    /// Every transition has exactly one input and one output place (an S-net).
    StateMachine,
    /// Every place has exactly one input and one output transition (a T-net).
    MarkedGraph,
    /// Places sharing an output transition have the same postset.
    FreeChoice,
    /// Any two places sharing an output transition have nested postsets.
    AsymmetricChoice,
    /// No structural restriction.
    General,
}

impl NetClass {
    /// Whether the class is a circuit.
    pub fn is_circuit(&self) -> (r: bool)
        ensures
            r == (*self == NetClass::Circuit),
    {
        matches!(self, NetClass::Circuit)
    }

    /// Whether every net of this class is a state machine.
    pub fn is_state_machine(&self) -> (r: bool)
        ensures
            r == (*self == NetClass::Circuit || *self == NetClass::StateMachine),
    {
        matches!(self, NetClass::Circuit | NetClass::StateMachine)
    }

    /// Whether every net of this class is a marked graph.
    pub fn is_marked_graph(&self) -> (r: bool)
        ensures
            r == (*self == NetClass::Circuit || *self == NetClass::MarkedGraph),
    {
        matches!(self, NetClass::Circuit | NetClass::MarkedGraph)
    }

    /// Whether every net of this class is free-choice.
    pub fn is_free_choice(&self) -> (r: bool)
        ensures
            r == !(*self == NetClass::AsymmetricChoice || *self == NetClass::General),
    {
        !matches!(self, NetClass::AsymmetricChoice | NetClass::General)
    }

    /// Whether every net of this class is asymmetric-choice.
    pub fn is_asymmetric_choice(&self) -> (r: bool)
        ensures
            r == (*self != NetClass::General),
    {
        !matches!(self, NetClass::General)
    }
}

/// Whether a set holds exactly one element.
pub open spec fn singleton<A>(s: Set<A>) -> bool {
    exists|x: A| s.contains(x) && forall|y: A| s.contains(y) ==> y == x
}

/// `•t`: the input places of `t`.
pub open spec fn preset_of_transition(arcs: Set<Arc>, t: Transition) -> Set<Place> {
    Set::new(|p: Place| arcs.contains(Arc::PlaceToTransition(p, t)))
}

/// `t•`: the output places of `t`.
pub open spec fn postset_of_transition(arcs: Set<Arc>, t: Transition) -> Set<Place> {
    Set::new(|p: Place| arcs.contains(Arc::TransitionToPlace(t, p)))
}

/// `•p`: the input transitions of `p`.
pub open spec fn preset_of_place(arcs: Set<Arc>, p: Place) -> Set<Transition> {
    Set::new(|t: Transition| arcs.contains(Arc::TransitionToPlace(t, p)))
}

/// `p•`: the output transitions of `p`.
pub open spec fn postset_of_place(arcs: Set<Arc>, p: Place) -> Set<Transition> {
    Set::new(|t: Transition| arcs.contains(Arc::PlaceToTransition(p, t)))
}

/// S-net condition: `|•t| = |t•| = 1` for every transition.
pub open spec fn is_state_machine_spec(transitions: Set<Transition>, arcs: Set<Arc>) -> bool {
    forall|t: Transition|
        transitions.contains(t) ==> singleton(preset_of_transition(arcs, t)) && singleton(
            postset_of_transition(arcs, t),
        )
}

/// T-net condition: `|•p| = |p•| = 1` for every place.
pub open spec fn is_marked_graph_spec(places: Set<Place>, arcs: Set<Arc>) -> bool {
    forall|p: Place|
        places.contains(p) ==> singleton(preset_of_place(arcs, p)) && singleton(
            postset_of_place(arcs, p),
        )
}

/// Free choice: places sharing an output transition have the same postset
/// (equivalently, transitions sharing an input place have the same preset).
pub open spec fn is_free_choice_spec(places: Set<Place>, arcs: Set<Arc>) -> bool {
    forall|p1: Place, p2: Place|
        places.contains(p1) && places.contains(p2) && (exists|t: Transition|
            postset_of_place(arcs, p1).contains(t) && postset_of_place(arcs, p2).contains(t))
            ==> postset_of_place(arcs, p1) == postset_of_place(arcs, p2)
}

/// Asymmetric choice: places sharing an output transition have nested postsets.
pub open spec fn is_asymmetric_choice_spec(places: Set<Place>, arcs: Set<Arc>) -> bool {
    forall|p1: Place, p2: Place|
        places.contains(p1) && places.contains(p2) && (exists|t: Transition|
            postset_of_place(arcs, p1).contains(t) && postset_of_place(arcs, p2).contains(t))
            ==> postset_of_place(arcs, p1).subset_of(postset_of_place(arcs, p2))
            || postset_of_place(arcs, p2).subset_of(postset_of_place(arcs, p1))
}

/// The most specific class of the net `(places, transitions, arcs)`.
pub open spec fn classify_spec(
    places: Set<Place>,
    transitions: Set<Transition>,
    arcs: Set<Arc>,
) -> NetClass {
    let sm = is_state_machine_spec(transitions, arcs);
    let mg = is_marked_graph_spec(places, arcs);
    if sm && mg {
        NetClass::Circuit
    } else if sm {
        NetClass::StateMachine
    } else if mg {
        NetClass::MarkedGraph
    } else if is_free_choice_spec(places, arcs) {
        NetClass::FreeChoice
    } else if is_asymmetric_choice_spec(places, arcs) {
        NetClass::AsymmetricChoice
    } else {
        NetClass::General
    }
}


/// Whether `n` is a node of the net with the given places and transitions.
pub open spec fn is_node_of(places: Set<Place>, transitions: Set<Transition>, n: Node) -> bool {
    match n {
        Node::Place(p) => places.contains(p),
        Node::Transition(t) => transitions.contains(t),
    }
}

/// A set of nodes is closed under the arcs if, for every arc, it holds both
/// endpoints or neither.
pub open spec fn closed_under(arcs: Set<Arc>, s: Set<Node>) -> bool {
    forall|a: Arc|
        #[trigger] arcs.contains(a) ==> (s.contains(Node::Place(a.place_of())) <==> s.contains(
            Node::Transition(a.transition_of()),
        ))
}

/// Two nodes are linked if every set closed under the arcs holds both or neither;
/// equivalently, an undirected path joins them.
pub open spec fn linked(arcs: Set<Arc>, x: Node, y: Node) -> bool {
    forall|s: Set<Node>| #[trigger] closed_under(arcs, s) ==> (s.contains(x) <==> s.contains(y))
}

/// Weak connectivity: all nodes are pairwise linked.
pub open spec fn is_connected_spec(
    places: Set<Place>,
    transitions: Set<Transition>,
    arcs: Set<Arc>,
) -> bool {
    forall|x: Node, y: Node|
        is_node_of(places, transitions, x) && is_node_of(places, transitions, y) ==> #[trigger] linked(
            arcs,
            x,
            y,
        )
}

/// The outcome of classifying a net under construction.
pub open spec fn classify_result_spec(
    places: Set<Place>,
    transitions: Set<Transition>,
    arcs: Set<Arc>,
) -> Result<NetClass, crate::builder::NetError> {
    if places.is_empty() || transitions.is_empty() {
        Err(crate::builder::NetError::Degenerate)
    } else if !is_connected_spec(places, transitions, arcs) {
        Err(crate::builder::NetError::NotConnected)
    } else {
        Ok(classify_spec(places, transitions, arcs))
    }
}

} // verus!
