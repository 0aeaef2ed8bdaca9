//! Node handles and arcs: the vocabulary of a net's topology.

use vstd::prelude::*;
use crate::class::{classify_spec, is_connected_spec, NetClass};
use crate::marking::{canonical, token_count, Marking, TokenOps};
use crate::pnml::labels::NetLabels;

verus! {

/// A *place* is one of the two kinds of nodes of a Petri net.
///
/// Places hold tokens; the distribution of tokens over places is a marking.
/// A handle is a stable identity minted by a [`NetBuilder`](crate::builder::NetBuilder):
/// identifiers are positive and never reused.
#[derive(Debug, Clone, Copy, PartialEq, Eq, Hash, Structural)]
pub struct Place(pub(crate) u32);

/// A *transition* is the other kind of node of a Petri net.
///
/// A transition is enabled in a marking if each of its input places holds a token;
/// firing it consumes one token from every input place and produces one token on
/// every output place.
#[derive(Debug, Clone, Copy, PartialEq, Eq, Hash, Structural)]
pub struct Transition(pub(crate) u32);

/// A directed edge from a [`Place`] to a [`Transition`] or vice versa.
#[derive(Debug, Clone, Copy, PartialEq, Eq, Hash, Structural)]
pub enum Arc {
    PlaceToTransition(Place, Transition),
    TransitionToPlace(Transition, Place),
}

/// A node of a net: either a [`Place`] or a [`Transition`].
#[derive(Debug, Clone, Copy, PartialEq, Eq, Hash, Structural)]
pub enum Node {
    Place(Place),
    Transition(Transition),
}

impl Place {
    /// The identifier of this handle.
    pub closed spec fn id(self) -> u32 {
        self.0
    }

    /// The handle with identifier `id`.
    pub closed spec fn with_id(id: u32) -> Place {
        Place(id)
    }
}

impl Transition {
    /// The identifier of this handle.
    pub closed spec fn id(self) -> u32 {
        self.0
    }

    /// The handle with identifier `id`.
    pub closed spec fn with_id(id: u32) -> Transition {
        Transition(id)
    }
}

/// A handle is the one with its identifier.
pub broadcast proof fn lemma_place_with_id(x: u32)
    ensures
        #[trigger] Place::with_id(x).id() == x,
{
}

/// A handle is the one with its identifier.
pub broadcast proof fn lemma_place_with_id_inj(p: Place)
    ensures
        Place::with_id(#[trigger] p.id()) == p,
{
}

/// A handle is the one with its identifier.
pub broadcast proof fn lemma_transition_with_id(x: u32)
    ensures
        #[trigger] Transition::with_id(x).id() == x,
{
}

/// A handle is the one with its identifier.
pub broadcast proof fn lemma_transition_with_id_inj(t: Transition)
    ensures
        Transition::with_id(#[trigger] t.id()) == t,
{
}

/// Handles are determined by their identifiers.
pub(crate) broadcast proof fn lemma_place_id(x: u32)
    ensures
        #[trigger] Place(x).id() == x,
{
}

/// Handles are determined by their identifiers.
pub(crate) broadcast proof fn lemma_place_id_inj(p: Place)
    ensures
        Place(#[trigger] p.id()) == p,
{
}

/// Handles are determined by their identifiers.
pub(crate) broadcast proof fn lemma_transition_id(x: u32)
    ensures
        #[trigger] Transition(x).id() == x,
{
}

/// Handles are determined by their identifiers.
pub(crate) broadcast proof fn lemma_transition_id_inj(t: Transition)
    ensures
        Transition(#[trigger] t.id()) == t,
{
}

pub(crate) broadcast group group_handle_ids {
    lemma_place_id,
    lemma_place_id_inj,
    lemma_transition_id,
    lemma_transition_id_inj,
}

impl Arc {
    /// The place this arc touches.
    pub open spec fn place_of(self) -> Place {
        match self {
            Arc::PlaceToTransition(p, _) => p,
            Arc::TransitionToPlace(_, p) => p,
        }
    }

    /// The transition this arc touches.
    pub open spec fn transition_of(self) -> Transition {
        match self {
            Arc::PlaceToTransition(_, t) => t,
            Arc::TransitionToPlace(t, _) => t,
        }
    }
}

impl From<Place> for Node {
    fn from(p: Place) -> (r: Node)
        ensures
            r == Node::Place(p),
    {
        Node::Place(p)
    }
}

impl vstd::std_specs::convert::FromSpecImpl<Place> for Node {
    open spec fn obeys_from_spec() -> bool {
        true
    }

    open spec fn from_spec(v: Place) -> Node {
        Node::Place(v)
    }
}

impl From<Transition> for Node {
    fn from(t: Transition) -> (r: Node)
        ensures
            r == Node::Transition(t),
    {
        Node::Transition(t)
    }
}

impl vstd::std_specs::convert::FromSpecImpl<Transition> for Node {
    open spec fn obeys_from_spec() -> bool {
        true
    }

    open spec fn from_spec(v: Transition) -> Node {
        Node::Transition(v)
    }
}

impl From<(Place, Transition)> for Arc {
    fn from(pt: (Place, Transition)) -> (r: Arc)
        ensures
            r == Arc::PlaceToTransition(pt.0, pt.1),
    {
        Arc::PlaceToTransition(pt.0, pt.1)
    }
}

impl vstd::std_specs::convert::FromSpecImpl<(Place, Transition)> for Arc {
    open spec fn obeys_from_spec() -> bool {
        true
    }

    open spec fn from_spec(v: (Place, Transition)) -> Arc {
        Arc::PlaceToTransition(v.0, v.1)
    }
}

impl From<(Transition, Place)> for Arc {
    fn from(tp: (Transition, Place)) -> (r: Arc)
        ensures
            r == Arc::TransitionToPlace(tp.0, tp.1),
    {
        Arc::TransitionToPlace(tp.0, tp.1)
    }
}

impl vstd::std_specs::convert::FromSpecImpl<(Transition, Place)> for Arc {
    open spec fn obeys_from_spec() -> bool {
        true
    }

    open spec fn from_spec(v: (Transition, Place)) -> Arc {
        Arc::TransitionToPlace(v.0, v.1)
    }
}

/// Whether `v` holds `p`.
pub(crate) fn vec_contains_place(v: &Vec<Place>, p: Place) -> (r: bool)
    ensures
        r == v@.contains(p),
{
    let mut i: usize = 0;
    while i < v.len()
        invariant
            0 <= i <= v.len(),
            forall|k: int| 0 <= k < i ==> v@[k] != p,
        decreases v.len() - i,
    {
        if v[i] == p {
            return true;
        }
        i = i + 1;
    }
    false
}

/// The position of `p` in `v`, if any.
pub(crate) fn vec_position_place(v: &Vec<Place>, p: Place) -> (r: Option<usize>)
    ensures
        r.is_none() <==> !v@.contains(p),
        r matches Some(i) ==> i < v.len() && v@[i as int] == p,
{
    let mut i: usize = 0;
    while i < v.len()
        invariant
            0 <= i <= v.len(),
            forall|k: int| 0 <= k < i ==> v@[k] != p,
        decreases v.len() - i,
    {
        if v[i] == p {
            return Some(i);
        }
        i = i + 1;
    }
    None
}

/// Whether `v` holds `t`.
pub(crate) fn vec_contains_transition(v: &Vec<Transition>, t: Transition) -> (r: bool)
    ensures
        r == v@.contains(t),
{
    let mut i: usize = 0;
    while i < v.len()
        invariant
            0 <= i <= v.len(),
            forall|k: int| 0 <= k < i ==> v@[k] != t,
        decreases v.len() - i,
    {
        if v[i] == t {
            return true;
        }
        i = i + 1;
    }
    false
}

/// The position of `t` in `v`, if any.
pub(crate) fn vec_position_transition(v: &Vec<Transition>, t: Transition) -> (r: Option<usize>)
    ensures
        r.is_none() <==> !v@.contains(t),
        r matches Some(i) ==> i < v.len() && v@[i as int] == t,
{
    let mut i: usize = 0;
    while i < v.len()
        invariant
            0 <= i <= v.len(),
            forall|k: int| 0 <= k < i ==> v@[k] != t,
        decreases v.len() - i,
    {
        if v[i] == t {
            return Some(i);
        }
        i = i + 1;
    }
    None
}

/// The position of `a` in `v`, if any.
pub(crate) fn vec_position_arc(v: &Vec<Arc>, a: Arc) -> (r: Option<usize>)
    ensures
        r.is_none() <==> !v@.contains(a),
        r matches Some(i) ==> i < v.len() && v@[i as int] == a,
{
    let mut i: usize = 0;
    while i < v.len()
        invariant
            0 <= i <= v.len(),
            forall|k: int| 0 <= k < i ==> v@[k] != a,
        decreases v.len() - i,
    {
        if v[i] == a {
            return Some(i);
        }
        i = i + 1;
    }
    None
}


/// Whether the node sequences and the arc set form a well-formed flow relation:
/// nodes distinct, and every arc joining two of them.
pub open spec fn arcs_join(places: Seq<Place>, transitions: Seq<Transition>, arcs: Set<Arc>) -> bool {
    &&& arcs.finite()
    &&& forall|a: Arc| #[trigger] arcs.contains(a) ==> places.contains(a.place_of()) && transitions.contains(a.transition_of())
}

/// A set of nodes is forward-closed if it holds the target of every arc whose source it holds.
pub open spec fn forward_closed(arcs: Set<Arc>, s: Set<Node>) -> bool {
    forall|a: Arc| #[trigger] arcs.contains(a) ==> match a {
        Arc::PlaceToTransition(p, t) => s.contains(Node::Place(p)) ==> s.contains(Node::Transition(t)),
        Arc::TransitionToPlace(t, p) => s.contains(Node::Transition(t)) ==> s.contains(Node::Place(p)),
    }
}

/// Strong connectivity: every set of nodes that holds some node and is closed
/// under following arcs holds every node; equivalently, a directed path leads
/// from every node to every other.
pub open spec fn is_strongly_connected_spec(places: Set<Place>, transitions: Set<Transition>, arcs: Set<Arc>) -> bool {
    forall|s: Set<Node>, x: Node| #[trigger] forward_closed(arcs, s) && crate::class::is_node_of(places, transitions, x) && #[trigger] s.contains(x) ==> (
        forall|y: Node| crate::class::is_node_of(places, transitions, y) ==> s.contains(y))
}

/// A set of nodes is backward-closed if it holds the source of every arc whose target it holds.
pub open spec fn backward_closed(arcs: Set<Arc>, s: Set<Node>) -> bool {
    forall|a: Arc| #[trigger] arcs.contains(a) ==> match a {
        Arc::PlaceToTransition(p, t) => s.contains(Node::Transition(t)) ==> s.contains(Node::Place(p)),
        Arc::TransitionToPlace(t, p) => s.contains(Node::Place(p)) ==> s.contains(Node::Transition(t)),
    }
}

/// Closure along arcs (`forward`) or against them.
pub open spec fn dir_closed(forward: bool, arcs: Set<Arc>, s: Set<Node>) -> bool {
    if forward {
        forward_closed(arcs, s)
    } else {
        backward_closed(arcs, s)
    }
}

/// Adjacency lists by dense index: `lists[i]` holds distinct indices below `bound`.
pub open spec fn adjacency_ok(lists: Seq<Vec<usize>>, len: nat, bound: nat) -> bool {
    &&& lists.len() == len
    &&& forall|i: int| 0 <= i < lists.len() ==> (#[trigger] lists[i])@.no_duplicates()
    &&& forall|i: int, k: int| 0 <= i < lists.len() && 0 <= k < lists[i]@.len() ==> #[trigger] lists[i]@[k] < bound
}

/// The invariant of a net's dense parts.
pub open spec fn dense_wf(
    class: NetClass,
    places: Seq<Place>,
    transitions: Seq<Transition>,
    preset_t: Seq<Vec<usize>>,
    postset_t: Seq<Vec<usize>>,
    preset_p: Seq<Vec<usize>>,
    postset_p: Seq<Vec<usize>>,
    next_place_id: u64,
    next_transition_id: u64,
    arcs: Set<Arc>,
) -> bool {
        let np = places.len();
        let nt = transitions.len();
        &&& np > 0
        &&& nt > 0
        &&& np + nt <= usize::MAX
        &&& 1 <= next_place_id <= u32::MAX + 1
        &&& 1 <= next_transition_id <= u32::MAX + 1
        &&& places.no_duplicates()
        &&& transitions.no_duplicates()
        &&& forall|i: int| 0 <= i < np ==> 1 <= (#[trigger] places[i]).id() < next_place_id
        &&& forall|i: int| 0 <= i < nt ==> 1 <= (#[trigger] transitions[i]).id() < next_transition_id
        &&& arcs_join(places, transitions, arcs)
        &&& adjacency_ok(preset_t, nt, np)
        &&& adjacency_ok(postset_t, nt, np)
        &&& adjacency_ok(preset_p, np, nt)
        &&& adjacency_ok(postset_p, np, nt)
        &&& forall|t: int, p: usize| 0 <= t < nt ==> ((#[trigger] preset_t[t]@.contains(p)) <==> p < np && arcs.contains(Arc::PlaceToTransition(places[p as int], transitions[t])))
        &&& forall|t: int, p: usize| 0 <= t < nt ==> ((#[trigger] postset_t[t]@.contains(p)) <==> p < np && arcs.contains(Arc::TransitionToPlace(transitions[t], places[p as int])))
        &&& forall|p: int, t: usize| 0 <= p < np ==> ((#[trigger] preset_p[p]@.contains(t)) <==> t < nt && arcs.contains(Arc::TransitionToPlace(transitions[t as int], places[p])))
        &&& forall|p: int, t: usize| 0 <= p < np ==> ((#[trigger] postset_p[p]@.contains(t)) <==> t < nt && arcs.contains(Arc::PlaceToTransition(places[p], transitions[t as int])))
        &&& class == classify_spec(places.to_set(), transitions.to_set(), arcs)
        &&& is_connected_spec(places.to_set(), transitions.to_set(), arcs)
    }

/// An ordinary Petri net `N = (S, T, F)`: a non-empty, connected bipartite graph of
/// places and transitions.
///
/// Nodes are stored densely: the `i`-th place and the `j`-th transition are the
/// net's dense indices, in an order chosen to keep arcs between nearby indices.
pub struct Net {
    pub(crate) class: NetClass,
    pub(crate) places: Vec<Place>,
    pub(crate) transitions: Vec<Transition>,
    /// For each transition, the dense indices of its input places.
    pub(crate) preset_t: Vec<Vec<usize>>,
    /// For each transition, the dense indices of its output places.
    pub(crate) postset_t: Vec<Vec<usize>>,
    /// For each place, the dense indices of its input transitions.
    pub(crate) preset_p: Vec<Vec<usize>>,
    /// For each place, the dense indices of its output transitions.
    pub(crate) postset_p: Vec<Vec<usize>>,
    pub(crate) next_place_id: u64,
    pub(crate) next_transition_id: u64,
    pub(crate) arcs: Ghost<Set<Arc>>,
    /// Names and document identifiers of the net and its elements.
    pub(crate) labels: NetLabels,
}

impl Net {
    /// The places, by dense index.
    pub closed spec fn place_seq(&self) -> Seq<Place> {
        self.places@
    }

    /// The transitions, by dense index.
    pub closed spec fn transition_seq(&self) -> Seq<Transition> {
        self.transitions@
    }

    /// The flow relation.
    pub closed spec fn arc_set(&self) -> Set<Arc> {
        self.arcs@
    }

    /// The identifier a builder made from this net mints for its next place.
    pub closed spec fn next_place_id_spec(&self) -> u64 {
        self.next_place_id
    }

    /// The identifier a builder made from this net mints for its next transition.
    pub closed spec fn next_transition_id_spec(&self) -> u64 {
        self.next_transition_id
    }

    /// The set of places.
    pub open spec fn place_set(&self) -> Set<Place> {
        self.place_seq().to_set()
    }

    /// The set of transitions.
    pub open spec fn transition_set(&self) -> Set<Transition> {
        self.transition_seq().to_set()
    }

    /// The number of places.
    pub open spec fn np(&self) -> nat {
        self.place_seq().len()
    }

    /// The number of transitions.
    pub open spec fn nt(&self) -> nat {
        self.transition_seq().len()
    }

    /// Whether the transition at dense index `t` consumes from the place at dense index `p`.
    pub open spec fn consumes(&self, t: int, p: int) -> bool {
        self.arc_set().contains(Arc::PlaceToTransition(self.place_seq()[p], self.transition_seq()[t]))
    }

    /// Whether the transition at dense index `t` produces onto the place at dense index `p`.
    pub open spec fn produces(&self, t: int, p: int) -> bool {
        self.arc_set().contains(Arc::TransitionToPlace(self.transition_seq()[t], self.place_seq()[p]))
    }

    /// The net's invariant.
    pub closed spec fn wf(&self) -> bool {
        dense_wf(self.class, self.places@, self.transitions@, self.preset_t@, self.postset_t@, self.preset_p@,
            self.postset_p@, self.next_place_id, self.next_transition_id, self.arcs@)
    }

    /// The net's labels.
    pub closed spec fn labels_spec(&self) -> NetLabels {
        self.labels
    }

    /// The net's labels: names and document identifiers.
    pub fn labels(&self) -> (r: &NetLabels)
        ensures
            *r == self.labels_spec(),
    {
        &self.labels
    }

    /// Replaces the net's labels; its structure stays as it is.
    pub fn set_labels(&mut self, labels: NetLabels)
        ensures
            final(self).labels_spec() == labels,
            final(self).wf() == old(self).wf(),
            final(self).place_seq() == old(self).place_seq(),
            final(self).transition_seq() == old(self).transition_seq(),
            final(self).arc_set() == old(self).arc_set(),
            final(self).next_place_id_spec() == old(self).next_place_id_spec(),
            final(self).next_transition_id_spec() == old(self).next_transition_id_spec(),
    {
        self.labels = labels;
    }

    /// Assembles a net from its dense parts.
    pub(crate) fn from_parts(
        class: NetClass,
        places: Vec<Place>,
        transitions: Vec<Transition>,
        preset_t: Vec<Vec<usize>>,
        postset_t: Vec<Vec<usize>>,
        preset_p: Vec<Vec<usize>>,
        postset_p: Vec<Vec<usize>>,
        next_place_id: u64,
        next_transition_id: u64,
        arcs: Ghost<Set<Arc>>,
    ) -> (r: Net)
        requires
            dense_wf(class, places@, transitions@, preset_t@, postset_t@, preset_p@, postset_p@, next_place_id,
                next_transition_id, arcs@),
        ensures
            r.wf(),
            r.place_seq() == places@,
            r.transition_seq() == transitions@,
            r.arc_set() == arcs@,
            r.next_place_id_spec() == next_place_id,
            r.next_transition_id_spec() == next_transition_id,
    {
        Net { class, places, transitions, preset_t, postset_t, preset_p, postset_p, next_place_id, next_transition_id, arcs, labels: NetLabels::new() }
    }

    /// Consequences of the invariant that callers may rely on.
    pub proof fn lemma_wf(&self)
        requires
            self.wf(),
        ensures
            self.np() > 0,
            self.nt() > 0,
            self.np() + self.nt() <= usize::MAX,
            1 <= self.next_place_id_spec() <= u32::MAX + 1,
            1 <= self.next_transition_id_spec() <= u32::MAX + 1,
            self.place_seq().no_duplicates(),
            self.transition_seq().no_duplicates(),
            arcs_join(self.place_seq(), self.transition_seq(), self.arc_set()),
            forall|p: Place| #[trigger] self.place_set().contains(p) ==> 1 <= p.id() < self.next_place_id_spec(),
            forall|t: Transition| #[trigger] self.transition_set().contains(t) ==> 1 <= t.id() < self.next_transition_id_spec(),
            is_connected_spec(self.place_set(), self.transition_set(), self.arc_set()),
    {
        assert forall|p: Place| #[trigger] self.place_set().contains(p) implies 1 <= p.id() < self.next_place_id_spec() by {
            let i = choose|i: int| 0 <= i < self.places@.len() && self.places@[i] == p;
        }
        assert forall|t: Transition| #[trigger] self.transition_set().contains(t) implies 1 <= t.id() < self.next_transition_id_spec() by {
            let i = choose|i: int| 0 <= i < self.transitions@.len() && self.transitions@[i] == t;
        }
    }

    /// The structural class of this net.
    pub fn class(&self) -> (r: NetClass)
        requires
            self.wf(),
        ensures
            r == classify_spec(self.place_set(), self.transition_set(), self.arc_set()),
    {
        self.class
    }

    /// Whether this net is a circuit.
    pub fn is_circuit(&self) -> (r: bool)
        requires
            self.wf(),
        ensures
            r == (classify_spec(self.place_set(), self.transition_set(), self.arc_set()) == NetClass::Circuit),
    {
        self.class.is_circuit()
    }

    /// Whether this net is a state machine (every transition has one input and one output place).
    pub fn is_state_machine(&self) -> (r: bool)
        requires
            self.wf(),
        ensures
            r == crate::class::is_state_machine_spec(self.transition_set(), self.arc_set()),
    {
        self.class.is_state_machine()
    }

    /// Whether this net is a marked graph (every place has one input and one output transition).
    pub fn is_marked_graph(&self) -> (r: bool)
        requires
            self.wf(),
        ensures
            r == crate::class::is_marked_graph_spec(self.place_set(), self.arc_set()),
    {
        self.class.is_marked_graph()
    }

    /// Whether this net is free-choice.
    pub fn is_free_choice(&self) -> (r: bool)
        requires
            self.wf(),
        ensures
            r == (classify_spec(self.place_set(), self.transition_set(), self.arc_set()) != NetClass::AsymmetricChoice
                && classify_spec(self.place_set(), self.transition_set(), self.arc_set()) != NetClass::General),
    {
        self.class.is_free_choice()
    }

    /// Whether this net is asymmetric-choice.
    pub fn is_asymmetric_choice(&self) -> (r: bool)
        requires
            self.wf(),
        ensures
            r == (classify_spec(self.place_set(), self.transition_set(), self.arc_set()) != NetClass::General),
    {
        self.class.is_asymmetric_choice()
    }
}


impl Net {
    /// The number of places.
    pub fn place_count(&self) -> (r: u32)
        requires
            self.wf(),
        ensures
            r == self.np(),
    {
        proof {
            crate::seq_facts::lemma_places_below(self.places@, self.next_place_id);
        }
        self.places.len() as u32
    }

    /// The number of transitions.
    pub fn transition_count(&self) -> (r: u32)
        requires
            self.wf(),
        ensures
            r == self.nt(),
    {
        proof {
            crate::seq_facts::lemma_transitions_below(self.transitions@, self.next_transition_id);
        }
        self.transitions.len() as u32
    }

    /// The identifier a builder made from this net mints for its next place.
    pub(crate) fn next_place_id_exec(&self) -> (r: u64)
        ensures
            r == self.next_place_id_spec(),
    {
        self.next_place_id
    }

    /// The identifier a builder made from this net mints for its next transition.
    pub(crate) fn next_transition_id_exec(&self) -> (r: u64)
        ensures
            r == self.next_transition_id_spec(),
    {
        self.next_transition_id
    }

    /// The number of places, as an index bound.
    pub(crate) fn num_places(&self) -> (r: usize)
        ensures
            r == self.np(),
    {
        self.places.len()
    }

    /// The number of transitions, as an index bound.
    pub(crate) fn num_transitions(&self) -> (r: usize)
        ensures
            r == self.nt(),
    {
        self.transitions.len()
    }

    /// The place at dense index `i`.
    pub(crate) fn place_at(&self, i: usize) -> (r: Place)
        requires
            i < self.np(),
        ensures
            r == self.place_seq()[i as int],
    {
        self.places[i]
    }

    /// The transition at dense index `i`.
    pub(crate) fn transition_at(&self, i: usize) -> (r: Transition)
        requires
            i < self.nt(),
        ensures
            r == self.transition_seq()[i as int],
    {
        self.transitions[i]
    }

    /// The dense indices of the input places of transition `t`.
    pub(crate) fn input_places(&self, t: usize) -> (r: &Vec<usize>)
        requires
            self.wf(),
            t < self.nt(),
        ensures
            r@.no_duplicates(),
            forall|k: int| 0 <= k < r@.len() ==> #[trigger] r@[k] < self.np(),
            forall|p: usize| #[trigger] r@.contains(p) <==> p < self.np() && self.consumes(t as int, p as int),
    {
        &self.preset_t[t]
    }

    /// The dense indices of the output places of transition `t`.
    pub(crate) fn output_places(&self, t: usize) -> (r: &Vec<usize>)
        requires
            self.wf(),
            t < self.nt(),
        ensures
            r@.no_duplicates(),
            forall|k: int| 0 <= k < r@.len() ==> #[trigger] r@[k] < self.np(),
            forall|p: usize| #[trigger] r@.contains(p) <==> p < self.np() && self.produces(t as int, p as int),
    {
        &self.postset_t[t]
    }

    /// The number of nodes (places and transitions).
    pub fn node_count(&self) -> (r: usize)
        requires
            self.wf(),
        ensures
            r == self.np() + self.nt(),
    {
        self.places.len() + self.transitions.len()
    }

    /// The places, by dense index.
    pub fn places(&self) -> (r: Vec<Place>)
        ensures
            r@ == self.place_seq(),
    {
        let mut r: Vec<Place> = Vec::new();
        let mut i: usize = 0;
        while i < self.places.len()
            invariant
                0 <= i <= self.places@.len(),
                r@ == self.places@.subrange(0, i as int),
            decreases self.places@.len() - i,
        {
            r.push(self.places[i]);
            proof {
                assert(self.places@.subrange(0, i + 1) =~= self.places@.subrange(0, i as int).push(self.places@[i as int]));
            }
            i = i + 1;
        }
        proof {
            assert(self.places@.subrange(0, i as int) =~= self.places@);
        }
        r
    }

    /// The transitions, by dense index.
    pub fn transitions(&self) -> (r: Vec<Transition>)
        ensures
            r@ == self.transition_seq(),
    {
        let mut r: Vec<Transition> = Vec::new();
        let mut i: usize = 0;
        while i < self.transitions.len()
            invariant
                0 <= i <= self.transitions@.len(),
                r@ == self.transitions@.subrange(0, i as int),
            decreases self.transitions@.len() - i,
        {
            r.push(self.transitions[i]);
            proof {
                assert(self.transitions@.subrange(0, i + 1) =~= self.transitions@.subrange(0, i as int).push(self.transitions@[i as int]));
            }
            i = i + 1;
        }
        proof {
            assert(self.transitions@.subrange(0, i as int) =~= self.transitions@);
        }
        r
    }

    /// All nodes: the places, then the transitions.
    pub fn nodes(&self) -> (r: Vec<Node>)
        requires
            self.wf(),
        ensures
            r@.len() == self.np() + self.nt(),
            forall|i: int| 0 <= i < self.np() ==> r@[i] == Node::Place(self.place_seq()[i]),
            forall|j: int| 0 <= j < self.nt() ==> r@[self.np() + j] == Node::Transition(self.transition_seq()[j]),
    {
        let mut r: Vec<Node> = Vec::new();
        let mut i: usize = 0;
        while i < self.places.len()
            invariant
                0 <= i <= self.places@.len(),
                r@.len() == i,
                forall|k: int| 0 <= k < i ==> r@[k] == Node::Place(self.places@[k]),
            decreases self.places@.len() - i,
        {
            r.push(Node::Place(self.places[i]));
            i = i + 1;
        }
        let mut j: usize = 0;
        while j < self.transitions.len()
            invariant
                0 <= j <= self.transitions@.len(),
                self.places@.len() + self.transitions@.len() <= usize::MAX,
                r@.len() == self.places@.len() + j,
                forall|k: int| 0 <= k < self.places@.len() ==> r@[k] == Node::Place(self.places@[k]),
                forall|k: int| 0 <= k < j ==> r@[self.places@.len() + k] == Node::Transition(self.transitions@[k]),
            decreases self.transitions@.len() - j,
        {
            r.push(Node::Transition(self.transitions[j]));
            j = j + 1;
        }
        r
    }

    /// The dense index of `p`, if it is a place of this net.
    pub(crate) fn place_index(&self, p: Place) -> (r: Option<usize>)
        ensures
            r.is_none() <==> !self.place_set().contains(p),
            r matches Some(i) ==> i < self.np() && self.place_seq()[i as int] == p,
    {
        vec_position_place(&self.places, p)
    }

    /// The dense index of `t`, if it is a transition of this net.
    pub(crate) fn transition_index(&self, t: Transition) -> (r: Option<usize>)
        ensures
            r.is_none() <==> !self.transition_set().contains(t),
            r matches Some(i) ==> i < self.nt() && self.transition_seq()[i as int] == t,
    {
        vec_position_transition(&self.transitions, t)
    }

    /// The transitions at the given dense indices.
    fn transitions_at(&self, idx: &Vec<usize>) -> (r: Vec<Transition>)
        requires
            forall|k: int| 0 <= k < idx@.len() ==> #[trigger] idx@[k] < self.nt(),
        ensures
            r@.len() == idx@.len(),
            forall|k: int| 0 <= k < idx@.len() ==> r@[k] == self.transition_seq()[#[trigger] idx@[k] as int],
    {
        let mut r: Vec<Transition> = Vec::new();
        let mut k: usize = 0;
        while k < idx.len()
            invariant
                0 <= k <= idx@.len(),
                forall|m: int| 0 <= m < idx@.len() ==> #[trigger] idx@[m] < self.transitions@.len(),
                r@.len() == k,
                forall|m: int| 0 <= m < k ==> r@[m] == self.transitions@[#[trigger] idx@[m] as int],
            decreases idx@.len() - k,
        {
            r.push(self.transitions[idx[k]]);
            k = k + 1;
        }
        r
    }

    /// The places at the given dense indices.
    fn places_at(&self, idx: &Vec<usize>) -> (r: Vec<Place>)
        requires
            forall|k: int| 0 <= k < idx@.len() ==> #[trigger] idx@[k] < self.np(),
        ensures
            r@.len() == idx@.len(),
            forall|k: int| 0 <= k < idx@.len() ==> r@[k] == self.place_seq()[#[trigger] idx@[k] as int],
    {
        let mut r: Vec<Place> = Vec::new();
        let mut k: usize = 0;
        while k < idx.len()
            invariant
                0 <= k <= idx@.len(),
                forall|m: int| 0 <= m < idx@.len() ==> #[trigger] idx@[m] < self.places@.len(),
                r@.len() == k,
                forall|m: int| 0 <= m < k ==> r@[m] == self.places@[#[trigger] idx@[m] as int],
            decreases idx@.len() - k,
        {
            r.push(self.places[idx[k]]);
            k = k + 1;
        }
        r
    }

    /// `•p`: the transitions with an arc into `place` (empty if `place` is not in the net).
    pub fn place_preset(&self, place: &Place) -> (r: Vec<Transition>)
        requires
            self.wf(),
        ensures
            r@.no_duplicates(),
            r@.to_set() == crate::class::preset_of_place(self.arc_set(), *place),
    {
        let p = *place;
        match self.place_index(p) {
            None => {
                let r: Vec<Transition> = Vec::new();
                proof {
                    assert(r@.to_set() =~= crate::class::preset_of_place(self.arc_set(), p)) by {
                        assert forall|t: Transition| !crate::class::preset_of_place(self.arc_set(), p).contains(t) by {
                            if self.arcs@.contains(Arc::TransitionToPlace(t, p)) {
                                assert(self.places@.contains(Arc::TransitionToPlace(t, p).place_of()));
                            }
                        }
                    }
                }
                r
            },
            Some(i) => {
                let list = &self.preset_p[i];
                let r = self.transitions_at(list);
                proof {
                    let l = self.preset_p@[i as int]@;
                    assert forall|a: int, b: int| 0 <= a < b < r@.len() implies r@[a] != r@[b] by {
                        assert(l[a] != l[b]);
                        assert(r@[a] == self.transitions@[l[a] as int]);
                        assert(r@[b] == self.transitions@[l[b] as int]);
                    }
                    assert forall|t: Transition| r@.to_set().contains(t) <==> crate::class::preset_of_place(self.arc_set(), p).contains(t) by {
                        if r@.contains(t) {
                            let k = choose|k: int| 0 <= k < r@.len() && r@[k] == t;
                            assert(l.contains(l[k]));
                        }
                        if self.arcs@.contains(Arc::TransitionToPlace(t, p)) {
                            assert(self.transitions@.contains(Arc::TransitionToPlace(t, p).transition_of()));
                            let j = choose|j: int| 0 <= j < self.transitions@.len() && self.transitions@[j] == t;
                            assert(self.produces(j, i as int));
                            assert(l.contains(j as usize));
                            let k = choose|k: int| 0 <= k < l.len() && l[k] == j as usize;
                            assert(r@[k] == t);
                        }
                    }
                    assert(r@.to_set() =~= crate::class::preset_of_place(self.arc_set(), p));
                }
                r
            },
        }
    }

    /// `p•`: the transitions with an arc from `place` (empty if `place` is not in the net).
    pub fn place_postset(&self, place: &Place) -> (r: Vec<Transition>)
        requires
            self.wf(),
        ensures
            r@.no_duplicates(),
            r@.to_set() == crate::class::postset_of_place(self.arc_set(), *place),
    {
        let p = *place;
        match self.place_index(p) {
            None => {
                let r: Vec<Transition> = Vec::new();
                proof {
                    assert(r@.to_set() =~= crate::class::postset_of_place(self.arc_set(), p)) by {
                        assert forall|t: Transition| !crate::class::postset_of_place(self.arc_set(), p).contains(t) by {
                            if self.arcs@.contains(Arc::PlaceToTransition(p, t)) {
                                assert(self.places@.contains(Arc::PlaceToTransition(p, t).place_of()));
                            }
                        }
                    }
                }
                r
            },
            Some(i) => {
                let list = &self.postset_p[i];
                let r = self.transitions_at(list);
                proof {
                    let l = self.postset_p@[i as int]@;
                    assert forall|a: int, b: int| 0 <= a < b < r@.len() implies r@[a] != r@[b] by {
                        assert(l[a] != l[b]);
                        assert(r@[a] == self.transitions@[l[a] as int]);
                        assert(r@[b] == self.transitions@[l[b] as int]);
                    }
                    assert forall|t: Transition| r@.to_set().contains(t) <==> crate::class::postset_of_place(self.arc_set(), p).contains(t) by {
                        if r@.contains(t) {
                            let k = choose|k: int| 0 <= k < r@.len() && r@[k] == t;
                            assert(l.contains(l[k]));
                        }
                        if self.arcs@.contains(Arc::PlaceToTransition(p, t)) {
                            assert(self.transitions@.contains(Arc::PlaceToTransition(p, t).transition_of()));
                            let j = choose|j: int| 0 <= j < self.transitions@.len() && self.transitions@[j] == t;
                            assert(self.consumes(j, i as int));
                            assert(l.contains(j as usize));
                            let k = choose|k: int| 0 <= k < l.len() && l[k] == j as usize;
                            assert(r@[k] == t);
                        }
                    }
                    assert(r@.to_set() =~= crate::class::postset_of_place(self.arc_set(), p));
                }
                r
            },
        }
    }

    /// `•t`: the places with an arc into `transition` (empty if `transition` is not in the net).
    pub fn transition_preset(&self, transition: &Transition) -> (r: Vec<Place>)
        requires
            self.wf(),
        ensures
            r@.no_duplicates(),
            r@.to_set() == crate::class::preset_of_transition(self.arc_set(), *transition),
    {
        let t = *transition;
        match self.transition_index(t) {
            None => {
                let r: Vec<Place> = Vec::new();
                proof {
                    assert(r@.to_set() =~= crate::class::preset_of_transition(self.arc_set(), t)) by {
                        assert forall|p: Place| !crate::class::preset_of_transition(self.arc_set(), t).contains(p) by {
                            if self.arcs@.contains(Arc::PlaceToTransition(p, t)) {
                                assert(self.transitions@.contains(Arc::PlaceToTransition(p, t).transition_of()));
                            }
                        }
                    }
                }
                r
            },
            Some(i) => {
                let list = &self.preset_t[i];
                let r = self.places_at(list);
                proof {
                    let l = self.preset_t@[i as int]@;
                    assert forall|a: int, b: int| 0 <= a < b < r@.len() implies r@[a] != r@[b] by {
                        assert(l[a] != l[b]);
                        assert(r@[a] == self.places@[l[a] as int]);
                        assert(r@[b] == self.places@[l[b] as int]);
                    }
                    assert forall|p: Place| r@.to_set().contains(p) <==> crate::class::preset_of_transition(self.arc_set(), t).contains(p) by {
                        if r@.contains(p) {
                            let k = choose|k: int| 0 <= k < r@.len() && r@[k] == p;
                            assert(l.contains(l[k]));
                        }
                        if self.arcs@.contains(Arc::PlaceToTransition(p, t)) {
                            assert(self.places@.contains(Arc::PlaceToTransition(p, t).place_of()));
                            let j = choose|j: int| 0 <= j < self.places@.len() && self.places@[j] == p;
                            assert(self.consumes(i as int, j));
                            assert(l.contains(j as usize));
                            let k = choose|k: int| 0 <= k < l.len() && l[k] == j as usize;
                            assert(r@[k] == p);
                        }
                    }
                    assert(r@.to_set() =~= crate::class::preset_of_transition(self.arc_set(), t));
                }
                r
            },
        }
    }

    /// `t•`: the places with an arc from `transition` (empty if `transition` is not in the net).
    pub fn transition_postset(&self, transition: &Transition) -> (r: Vec<Place>)
        requires
            self.wf(),
        ensures
            r@.no_duplicates(),
            r@.to_set() == crate::class::postset_of_transition(self.arc_set(), *transition),
    {
        let t = *transition;
        match self.transition_index(t) {
            None => {
                let r: Vec<Place> = Vec::new();
                proof {
                    assert(r@.to_set() =~= crate::class::postset_of_transition(self.arc_set(), t)) by {
                        assert forall|p: Place| !crate::class::postset_of_transition(self.arc_set(), t).contains(p) by {
                            if self.arcs@.contains(Arc::TransitionToPlace(t, p)) {
                                assert(self.transitions@.contains(Arc::TransitionToPlace(t, p).transition_of()));
                            }
                        }
                    }
                }
                r
            },
            Some(i) => {
                let list = &self.postset_t[i];
                let r = self.places_at(list);
                proof {
                    let l = self.postset_t@[i as int]@;
                    assert forall|a: int, b: int| 0 <= a < b < r@.len() implies r@[a] != r@[b] by {
                        assert(l[a] != l[b]);
                        assert(r@[a] == self.places@[l[a] as int]);
                        assert(r@[b] == self.places@[l[b] as int]);
                    }
                    assert forall|p: Place| r@.to_set().contains(p) <==> crate::class::postset_of_transition(self.arc_set(), t).contains(p) by {
                        if r@.contains(p) {
                            let k = choose|k: int| 0 <= k < r@.len() && r@[k] == p;
                            assert(l.contains(l[k]));
                        }
                        if self.arcs@.contains(Arc::TransitionToPlace(t, p)) {
                            assert(self.places@.contains(Arc::TransitionToPlace(t, p).place_of()));
                            let j = choose|j: int| 0 <= j < self.places@.len() && self.places@[j] == p;
                            assert(self.produces(i as int, j));
                            assert(l.contains(j as usize));
                            let k = choose|k: int| 0 <= k < l.len() && l[k] == j as usize;
                            assert(r@[k] == p);
                        }
                    }
                    assert(r@.to_set() =~= crate::class::postset_of_transition(self.arc_set(), t));
                }
                r
            },
        }
    }
}


impl Net {
    /// Whether the arc's transition lies among the first `t` transitions.
    pub closed spec fn before(&self, a: Arc, t: int) -> bool {
        exists|i: int| 0 <= i < t && self.transitions@[i] == a.transition_of()
    }

    /// Every arc of the net, each once, grouped by transition.
    pub fn arcs(&self) -> (r: Vec<Arc>)
        requires
            self.wf(),
        ensures
            r@.no_duplicates(),
            r@.to_set() == self.arc_set(),
    {
        let nt = self.transitions.len();
        let np = self.places.len();
        let mut r: Vec<Arc> = Vec::new();
        let mut t: usize = 0;
        while t < nt
            invariant
                self.wf(),
                nt == self.transitions@.len(),
                np == self.places@.len(),
                0 <= t <= nt,
                r@.no_duplicates(),
                forall|k: int| 0 <= k < r@.len() ==> self.arcs@.contains(#[trigger] r@[k]),
                forall|k: int| 0 <= k < r@.len() ==> self.before(#[trigger] r@[k], t as int),
                forall|a: Arc| #[trigger] self.arcs@.contains(a) && self.before(a, t as int) ==> r@.contains(a),
            decreases nt - t,
        {
            let tr = self.transitions[t];
            let pre = &self.preset_t[t];
            let ghost r0 = r@;
            let mut m: usize = 0;
            while m < pre.len()
                invariant
                    self.wf(),
                    nt == self.transitions@.len(),
                    np == self.places@.len(),
                    0 <= t < nt,
                    tr == self.transitions@[t as int],
                    *pre == self.preset_t@[t as int],
                    0 <= m <= pre@.len(),
                    r@.no_duplicates(),
                    r@.len() == r0.len() + m,
                    forall|k: int| 0 <= k < r0.len() ==> r@[k] == r0[k],
                    forall|k: int| 0 <= k < r0.len() ==> self.before(#[trigger] r0[k], t as int),
                    forall|k: int| 0 <= k < m ==> r@[r0.len() + k] == Arc::PlaceToTransition(self.places@[pre@[k] as int], tr),
                    forall|k: int| 0 <= k < r@.len() ==> self.arcs@.contains(#[trigger] r@[k]),
                decreases pre@.len() - m,
            {
                let pi = pre[m];
                let a = Arc::PlaceToTransition(self.places[pi], tr);
                proof {
                    assert(pre@.contains(pi));
                    assert(self.consumes(t as int, pi as int));
                    assert forall|k: int| 0 <= k < r@.len() implies r@[k] != a by {
                        if k < r0.len() {
                            assert(self.before(r0[k], t as int));
                            if r0[k] == a {
                                let i = choose|i: int| 0 <= i < t && self.transitions@[i] == r0[k].transition_of();
                                assert(self.transitions@[i] == self.transitions@[t as int]);
                            }
                        } else {
                            let kk = k - r0.len();
                            assert(pre@[kk] != pre@[m as int]);
                            assert(self.places@[pre@[kk] as int] != self.places@[pi as int]);
                        }
                    }
                }
                r.push(a);
                m = m + 1;
            }
            let post = &self.postset_t[t];
            let ghost r1 = r@;
            proof {
                assert forall|k: int| 0 <= k < r1.len() implies self.before(#[trigger] r1[k], t as int) || r1[k] is PlaceToTransition by {
                    if k < r0.len() {
                        assert(r1[k] == r0[k]);
                    } else {
                        assert(r1[r0.len() + (k - r0.len())] == Arc::PlaceToTransition(self.places@[pre@[k - r0.len()] as int], tr));
                    }
                }
            }
            let mut m: usize = 0;
            while m < post.len()
                invariant
                    self.wf(),
                    nt == self.transitions@.len(),
                    np == self.places@.len(),
                    0 <= t < nt,
                    tr == self.transitions@[t as int],
                    *post == self.postset_t@[t as int],
                    0 <= m <= post@.len(),
                    r@.no_duplicates(),
                    r@.len() == r1.len() + m,
                    forall|k: int| 0 <= k < r1.len() ==> r@[k] == r1[k],
                    forall|k: int| 0 <= k < r1.len() ==> self.before(#[trigger] r1[k], t as int) || r1[k] is PlaceToTransition,
                    forall|k: int| 0 <= k < m ==> r@[r1.len() + k] == Arc::TransitionToPlace(tr, self.places@[post@[k] as int]),
                    forall|k: int| 0 <= k < r@.len() ==> self.arcs@.contains(#[trigger] r@[k]),
                decreases post@.len() - m,
            {
                let pi = post[m];
                let a = Arc::TransitionToPlace(tr, self.places[pi]);
                proof {
                    assert(post@.contains(pi));
                    assert(self.produces(t as int, pi as int));
                    assert forall|k: int| 0 <= k < r@.len() implies r@[k] != a by {
                        if k < r1.len() {
                            if r1[k] == a && self.before(r1[k], t as int) {
                                let i = choose|i: int| 0 <= i < t && self.transitions@[i] == r1[k].transition_of();
                                assert(self.transitions@[i] == self.transitions@[t as int]);
                            }
                        } else {
                            let kk = k - r1.len();
                            assert(post@[kk] != post@[m as int]);
                            assert(self.places@[post@[kk] as int] != self.places@[pi as int]);
                        }
                    }
                }
                r.push(a);
                m = m + 1;
            }
            proof {
                assert forall|k: int| 0 <= k < r@.len() implies self.before(#[trigger] r@[k], t + 1) by {
                    if k < r0.len() {
                        let i = choose|i: int| 0 <= i < t && self.transitions@[i] == r0[k].transition_of();
                        assert(r@[k] == r0[k]);
                    } else if k < r1.len() {
                        assert(r1[r0.len() + (k - r0.len())] == Arc::PlaceToTransition(self.places@[pre@[k - r0.len()] as int], tr));
                        assert(r@[k] == r1[k]);
                        assert(r@[k].transition_of() == self.transitions@[t as int]);
                    } else {
                        assert(r@[r1.len() + (k - r1.len())] == Arc::TransitionToPlace(tr, self.places@[post@[k - r1.len()] as int]));
                        assert(r@[k].transition_of() == self.transitions@[t as int]);
                    }
                }
                assert forall|a: Arc| #[trigger] self.arcs@.contains(a) && self.before(a, t + 1) implies r@.contains(a) by {
                    let i = choose|i: int| 0 <= i < t + 1 && self.transitions@[i] == a.transition_of();
                    if i < t {
                        assert(self.before(a, t as int));
                        let k = choose|k: int| 0 <= k < r0.len() && r0[k] == a;
                        assert(r@[k] == a);
                    } else {
                        assert(self.places@.contains(a.place_of()));
                        let j = choose|j: int| 0 <= j < self.places@.len() && self.places@[j] == a.place_of();
                        match a {
                            Arc::PlaceToTransition(p, tt) => {
                                assert(a == Arc::PlaceToTransition(self.places@[j], self.transitions@[t as int]));
                                assert(self.consumes(t as int, j));
                                assert(pre@.contains(j as usize));
                                let k = choose|k: int| 0 <= k < pre@.len() && pre@[k] == j as usize;
                                assert(r@[r0.len() + k] == a);
                            },
                            Arc::TransitionToPlace(tt, p) => {
                                assert(a == Arc::TransitionToPlace(self.transitions@[t as int], self.places@[j]));
                                assert(self.produces(t as int, j));
                                assert(post@.contains(j as usize));
                                let k = choose|k: int| 0 <= k < post@.len() && post@[k] == j as usize;
                                assert(r@[r1.len() + k] == a);
                            },
                        }
                    }
                }
            }
            t = t + 1;
        }
        proof {
            assert forall|a: Arc| r@.to_set().contains(a) <==> self.arcs@.contains(a) by {
                if self.arcs@.contains(a) {
                    assert(self.transitions@.contains(a.transition_of()));
                    let i = choose|i: int| 0 <= i < self.transitions@.len() && self.transitions@[i] == a.transition_of();
                    assert(self.before(a, nt as int));
                }
            }
            assert(r@.to_set() =~= self.arcs@);
        }
        r
    }

    /// The number of arcs.
    pub fn arc_count(&self) -> (r: usize)
        requires
            self.wf(),
        ensures
            r == self.arc_set().len(),
    {
        let all = self.arcs();
        proof {
            all@.unique_seq_to_set();
        }
        all.len()
    }
}


impl Net {
    /// The dense form of a marking: the count of each place, by dense index.
    pub open spec fn dense_of<T: TokenOps>(&self, m: Marking<T>) -> Seq<T> {
        Seq::new(self.np(), |j: int| m.count(self.place_seq()[j]))
    }

    /// The count a dense marking `d` assigns to `p`: zero for a place outside the net.
    pub open spec fn sparse_count<T: TokenOps>(&self, d: Seq<T>, p: Place) -> T {
        if self.place_set().contains(p) {
            d[choose|j: int| 0 <= j < self.np() && self.place_seq()[j] == p]
        } else {
            T::zero_spec()
        }
    }

    /// The count of the `j`-th place in a dense marking.
    pub proof fn lemma_sparse_count_at<T: TokenOps>(&self, d: Seq<T>, j: int)
        requires
            self.wf(),
            0 <= j < self.np(),
        ensures
            self.sparse_count(d, self.place_seq()[j]) == d[j],
    {
        let p = self.place_seq()[j];
        assert(self.place_set().contains(p));
        let k = choose|k: int| 0 <= k < self.np() && self.place_seq()[k] == p;
        if k != j {
            assert(self.places@[k] != self.places@[j]);
        }
    }

    /// Whether the transition at dense index `t` is enabled in the dense marking `m`:
    /// each of its input places holds a token.
    pub open spec fn enabled_spec(&self, m: Seq<u32>, t: int) -> bool {
        forall|p: int| 0 <= p < self.np() && #[trigger] self.consumes(t, p) ==> m[p] > 0
    }

    /// The count of place `p` after firing transition `t` in `m`.
    pub open spec fn fired_count(&self, m: Seq<u32>, t: int, p: int) -> int {
        m[p] - (if self.consumes(t, p) { 1int } else { 0int }) + (if self.produces(t, p) { 1int } else { 0int })
    }

    /// Whether firing `t` in `m` keeps every count within `u32`.
    pub open spec fn fire_fits(&self, m: Seq<u32>, t: int) -> bool {
        forall|p: int| 0 <= p < self.np() ==> #[trigger] self.fired_count(m, t, p) <= u32::MAX
    }

    /// The marking reached by firing `t` in `m`.
    pub open spec fn fire_spec(&self, m: Seq<u32>, t: int) -> Seq<u32> {
        Seq::new(self.np(), |p: int| self.fired_count(m, t, p) as u32)
    }

    /// Whether `t` can fire in `m` without a count leaving `u32`.
    pub open spec fn fires(&self, m: Seq<u32>, t: int) -> bool {
        0 <= t < self.nt() && m.len() == self.np() && self.enabled_spec(m, t) && self.fire_fits(m, t)
    }

    /// The dense form of `m`.
    pub(crate) fn dense_marking<T: TokenOps>(&self, m: &Marking<T>) -> (r: Vec<T>)
        requires
            m.wf(),
        ensures
            r@ == self.dense_of(*m),
    {
        let mut r: Vec<T> = Vec::new();
        let mut j: usize = 0;
        while j < self.places.len()
            invariant
                m.wf(),
                0 <= j <= self.places@.len(),
                r@.len() == j,
                forall|k: int| 0 <= k < j ==> r@[k] == m.count(self.places@[k]),
            decreases self.places@.len() - j,
        {
            r.push(m.get(self.places[j]));
            j = j + 1;
        }
        proof {
            assert(r@ =~= self.dense_of(*m));
        }
        r
    }

    /// The marking whose counts the dense marking `d` lists.
    pub(crate) fn sparse_marking<T: TokenOps>(&self, d: &Vec<T>) -> (r: Marking<T>)
        requires
            self.wf(),
            d@.len() == self.np(),
        ensures
            r.wf(),
            forall|p: Place| #[trigger] r.count(p) == self.sparse_count(d@, p),
    {
        let mut entries: Vec<(Place, T)> = Vec::new();
        let mut j: usize = 0;
        while j < self.places.len()
            invariant
                self.wf(),
                d@.len() == self.places@.len(),
                0 <= j <= self.places@.len(),
                entries@.len() == j,
                forall|p: Place| #[trigger] crate::marking::first_nonzero(entries@, p) == (
                    if exists|k: int| 0 <= k < j && self.places@[k] == p {
                        d@[choose|k: int| 0 <= k < j && self.places@[k] == p]
                    } else {
                        T::zero_spec()
                    }),
            decreases self.places@.len() - j,
        {
            let ghost e0 = entries@;
            entries.push((self.places[j], d[j]));
            proof {
                crate::marking::lemma_first_nonzero_push(e0, (self.places@[j as int], d@[j as int]));
                assert forall|p: Place| #[trigger] crate::marking::first_nonzero(entries@, p) == (
                    if exists|k: int| 0 <= k < j + 1 && self.places@[k] == p {
                        d@[choose|k: int| 0 <= k < j + 1 && self.places@[k] == p]
                    } else {
                        T::zero_spec()
                    }) by {
                    if p == self.places@[j as int] {
                        assert(!exists|k: int| 0 <= k < j && self.places@[k] == p) by {
                            if exists|k: int| 0 <= k < j && self.places@[k] == p {
                                let k = choose|k: int| 0 <= k < j && self.places@[k] == p;
                                assert(self.places@[k] != self.places@[j as int]);
                            }
                        }
                        let k = choose|k: int| 0 <= k < j + 1 && self.places@[k] == p;
                        if k != j {
                            assert(self.places@[k] != self.places@[j as int]);
                        }
                    } else if exists|k: int| 0 <= k < j && self.places@[k] == p {
                        let k1 = choose|k: int| 0 <= k < j && self.places@[k] == p;
                        let k2 = choose|k: int| 0 <= k < j + 1 && self.places@[k] == p;
                        if k1 != k2 {
                            if k1 < k2 {
                                assert(self.places@[k1] != self.places@[k2]);
                            } else {
                                assert(self.places@[k2] != self.places@[k1]);
                            }
                        }
                    }
                }
            }
            j = j + 1;
        }
        let r = Marking::from_entries(entries);
        proof {
            assert forall|p: Place| #[trigger] r.count(p) == self.sparse_count(d@, p) by {
                if self.place_set().contains(p) {
                    let k1 = choose|k: int| 0 <= k < self.places@.len() && self.places@[k] == p;
                    assert(exists|k: int| 0 <= k < j && self.places@[k] == p);
                } else {
                    assert(!exists|k: int| 0 <= k < j && self.places@[k] == p) by {
                        if exists|k: int| 0 <= k < j && self.places@[k] == p {
                            let k = choose|k: int| 0 <= k < j && self.places@[k] == p;
                            assert(self.places@.contains(self.places@[k]));
                        }
                    }
                }
            }
        }
        r
    }

    /// Whether transition `t` is enabled in the dense marking `m`.
    pub(crate) fn is_enabled_in(&self, t: usize, m: &Vec<u32>) -> (r: bool)
        requires
            self.wf(),
            t < self.nt(),
            m@.len() == self.np(),
        ensures
            r == self.enabled_spec(m@, t as int),
    {
        let pre = &self.preset_t[t];
        let mut k: usize = 0;
        while k < pre.len()
            invariant
                self.wf(),
                t < self.transitions@.len(),
                m@.len() == self.places@.len(),
                *pre == self.preset_t@[t as int],
                0 <= k <= pre@.len(),
                forall|i: int| 0 <= i < k ==> m@[#[trigger] pre@[i] as int] > 0,
            decreases pre@.len() - k,
        {
            if m[pre[k]] == 0 {
                proof {
                    assert(pre@.contains(pre@[k as int]));
                    assert(self.consumes(t as int, pre@[k as int] as int));
                }
                return false;
            }
            k = k + 1;
        }
        proof {
            assert forall|p: int| 0 <= p < self.np() && #[trigger] self.consumes(t as int, p) implies m@[p] > 0 by {
                assert(pre@.contains(p as usize));
                let i = choose|i: int| 0 <= i < pre@.len() && pre@[i] == p as usize;
            }
        }
        true
    }

    /// Whether firing `t` in the enabled dense marking `m` keeps every count within `u32`.
    pub(crate) fn fire_fits_in(&self, t: usize, m: &Vec<u32>) -> (r: bool)
        requires
            self.wf(),
            t < self.nt(),
            m@.len() == self.np(),
            self.enabled_spec(m@, t as int),
        ensures
            r == self.fire_fits(m@, t as int),
    {
        let post = &self.postset_t[t];
        let pre = &self.preset_t[t];
        let mut k: usize = 0;
        while k < post.len()
            invariant
                self.wf(),
                t < self.transitions@.len(),
                m@.len() == self.places@.len(),
                *post == self.postset_t@[t as int],
                *pre == self.preset_t@[t as int],
                self.enabled_spec(m@, t as int),
                0 <= k <= post@.len(),
                forall|i: int| 0 <= i < k ==> #[trigger] self.fired_count(m@, t as int, post@[i] as int) <= u32::MAX,
            decreases post@.len() - k,
        {
            let p = post[k];
            proof {
                assert(post@.contains(p));
            }
            if m[p] == u32::MAX && !vec_contains_index(pre, p) {
                proof {
                    assert(!pre@.contains(p));
                    assert(self.fired_count(m@, t as int, p as int) > u32::MAX);
                }
                return false;
            }
            k = k + 1;
        }
        proof {
            assert forall|p: int| 0 <= p < self.np() implies #[trigger] self.fired_count(m@, t as int, p) <= u32::MAX by {
                if self.produces(t as int, p) {
                    assert(post@.contains(p as usize));
                    let i = choose|i: int| 0 <= i < post@.len() && post@[i] == p as usize;
                }
            }
        }
        true
    }

    /// Fires `t` in the dense marking `m`.
    pub(crate) fn fire_in(&self, t: usize, m: &mut Vec<u32>)
        requires
            self.wf(),
            self.fires(old(m)@, t as int),
        ensures
            final(m)@ == self.fire_spec(old(m)@, t as int),
    {
        let ghost m0 = m@;
        let pre = &self.preset_t[t];
        let mut k: usize = 0;
        while k < pre.len()
            invariant
                self.wf(),
                t < self.transitions@.len(),
                m0.len() == self.places@.len(),
                self.fires(m0, t as int),
                *pre == self.preset_t@[t as int],
                0 <= k <= pre@.len(),
                m@.len() == m0.len(),
                forall|p: int| 0 <= p < m0.len() ==> #[trigger] m@[p] == m0[p] - (if pre@.subrange(0, k as int).contains(p as usize) { 1int } else { 0int }),
            decreases pre@.len() - k,
        {
            let p = pre[k];
            proof {
                assert(pre@.contains(p));
                assert(self.consumes(t as int, p as int));
                assert(!pre@.subrange(0, k as int).contains(p)) by {
                    if pre@.subrange(0, k as int).contains(p) {
                        let i = choose|i: int| 0 <= i < k && pre@.subrange(0, k as int)[i] == p;
                        assert(pre@[i] != pre@[k as int]);
                    }
                }
            }
            let v = m[p];
            let ghost mp = m@;
            m.set(p, v - 1);
            proof {
                assert(pre@.subrange(0, k + 1) =~= pre@.subrange(0, k as int).push(p));
                assert forall|q: int| 0 <= q < m0.len() implies #[trigger] m@[q] == m0[q] - (if pre@.subrange(0, k + 1).contains(q as usize) { 1int } else { 0int }) by {
                    crate::seq_facts::lemma_seq_push_contains(pre@.subrange(0, k as int), p, q as usize);
                    if q != p as int {
                        assert(m@[q] == mp[q]);
                    }
                }
            }
            k = k + 1;
        }
        proof {
            assert(pre@.subrange(0, k as int) =~= pre@);
        }
        let post = &self.postset_t[t];
        let mut k: usize = 0;
        while k < post.len()
            invariant
                self.wf(),
                t < self.transitions@.len(),
                m0.len() == self.places@.len(),
                self.fires(m0, t as int),
                *pre == self.preset_t@[t as int],
                *post == self.postset_t@[t as int],
                0 <= k <= post@.len(),
                m@.len() == m0.len(),
                forall|p: int| 0 <= p < m0.len() ==> #[trigger] m@[p] == m0[p] - (if pre@.contains(p as usize) { 1int } else { 0int })
                    + (if post@.subrange(0, k as int).contains(p as usize) { 1int } else { 0int }),
            decreases post@.len() - k,
        {
            let p = post[k];
            proof {
                assert(post@.contains(p));
                assert(self.produces(t as int, p as int));
                assert(!post@.subrange(0, k as int).contains(p)) by {
                    if post@.subrange(0, k as int).contains(p) {
                        let i = choose|i: int| 0 <= i < k && post@.subrange(0, k as int)[i] == p;
                        assert(post@[i] != post@[k as int]);
                    }
                }
                assert(self.fired_count(m0, t as int, p as int) <= u32::MAX);
            }
            let v = m[p];
            let ghost mp = m@;
            m.set(p, v + 1);
            proof {
                assert(post@.subrange(0, k + 1) =~= post@.subrange(0, k as int).push(p));
                assert forall|q: int| 0 <= q < m0.len() implies #[trigger] m@[q] == m0[q] - (if pre@.contains(q as usize) { 1int } else { 0int })
                    + (if post@.subrange(0, k + 1).contains(q as usize) { 1int } else { 0int }) by {
                    crate::seq_facts::lemma_seq_push_contains(post@.subrange(0, k as int), p, q as usize);
                    if q != p as int {
                        assert(m@[q] == mp[q]);
                    }
                }
            }
            k = k + 1;
        }
        proof {
            assert(post@.subrange(0, k as int) =~= post@);
            assert(m@ =~= self.fire_spec(m0, t as int));
        }
    }

    /// Whether no transition is enabled in `marking`.
    pub fn is_deadlock(&self, marking: Marking<u32>) -> (r: bool)
        requires
            self.wf(),
            marking.wf(),
        ensures
            r == forall|t: int| 0 <= t < self.nt() ==> !self.enabled_spec(self.dense_of(marking), t),
    {
        let d = self.dense_marking(&marking);
        let mut t: usize = 0;
        while t < self.transitions.len()
            invariant
                self.wf(),
                d@ == self.dense_of(marking),
                0 <= t <= self.transitions@.len(),
                forall|i: int| 0 <= i < t ==> !self.enabled_spec(d@, i),
            decreases self.transitions@.len() - t,
        {
            if self.is_enabled_in(t, &d) {
                return false;
            }
            t = t + 1;
        }
        true
    }
}

/// Whether `v` holds `x`.
pub(crate) fn vec_contains_index(v: &Vec<usize>, x: usize) -> (r: bool)
    ensures
        r == v@.contains(x),
{
    let mut i: usize = 0;
    while i < v.len()
        invariant
            0 <= i <= v.len(),
            forall|k: int| 0 <= k < i ==> v@[k] != x,
        decreases v.len() - i,
    {
        if v[i] == x {
            return true;
        }
        i = i + 1;
    }
    false
}


impl Net {
    /// The dense index of transition `t` (meaningful when `t` is in the net).
    pub open spec fn t_index(&self, t: Transition) -> int {
        choose|i: int| 0 <= i < self.nt() && self.transition_seq()[i] == t
    }

    /// The marking reached by firing the dense transitions of `seq` in order from `m`,
    /// or `None` if one of them cannot fire.
    pub open spec fn run(&self, m: Seq<u32>, seq: Seq<int>) -> Option<Seq<u32>>
        decreases seq.len(),
    {
        if seq.len() == 0 {
            Some(m)
        } else {
            match self.run(m, seq.drop_last()) {
                Some(m1) => if self.fires(m1, seq.last()) {
                    Some(self.fire_spec(m1, seq.last()))
                } else {
                    None
                },
                None => None,
            }
        }
    }

    /// Whether `m` is reachable from `m0` by some firing sequence.
    pub open spec fn reachable(&self, m0: Seq<u32>, m: Seq<u32>) -> bool {
        exists|seq: Seq<int>| #[trigger] self.run(m0, seq) == Some(m)
    }

    /// Firing preserves the number of places.
    pub proof fn lemma_fire_len(&self, m: Seq<u32>, t: int)
        ensures
            self.fire_spec(m, t).len() == self.np(),
    {
    }

    /// A run followed by one more firing is a run.
    pub proof fn lemma_run_push(&self, m0: Seq<u32>, seq: Seq<int>, t: int)
        requires
            self.run(m0, seq) is Some,
            self.fires(self.run(m0, seq).unwrap(), t),
        ensures
            self.run(m0, seq.push(t)) == Some(self.fire_spec(self.run(m0, seq).unwrap(), t)),
    {
        assert(seq.push(t).drop_last() =~= seq);
    }

    /// Every marking a run passes through has one count per place.
    pub proof fn lemma_run_len(&self, m0: Seq<u32>, seq: Seq<int>)
        requires
            m0.len() == self.np(),
            self.run(m0, seq) is Some,
        ensures
            self.run(m0, seq).unwrap().len() == self.np(),
        decreases seq.len(),
    {
        if seq.len() > 0 {
            self.lemma_run_len(m0, seq.drop_last());
        }
    }
}


impl Net {
    /// The node at unified index `k`: places first, then transitions.
    pub open spec fn node_at(&self, k: int) -> Node {
        if k < self.np() {
            Node::Place(self.place_seq()[k])
        } else {
            Node::Transition(self.transition_seq()[k - self.np()])
        }
    }

    /// Whether every set closed in the given direction that holds the first
    /// node also holds `v`: a directed path leads from the first node to `v`
    /// (`forward`), or from `v` to the first node.
    pub open spec fn linked_to_first(&self, forward: bool, v: Node) -> bool {
        forall|s: Set<Node>| #[trigger] dir_closed(forward, self.arc_set(), s) && s.contains(self.node_at(0)) ==> s.contains(v)
    }

    /// The nodes one step from unified index `k`, along arcs or against them.
    pub(crate) fn step_list(&self, forward: bool, k: usize) -> (r: &Vec<usize>)
        requires
            self.wf(),
            k < self.np() + self.nt(),
        ensures
            r@.no_duplicates(),
            forall|m: int| 0 <= m < r@.len() ==> #[trigger] r@[m] < (if k < self.np() { self.nt() } else { self.np() }),
            k < self.np() ==> forall|i: usize| #[trigger] r@.contains(i) <==> i < self.nt() && (if forward {
                self.consumes(i as int, k as int)
            } else {
                self.produces(i as int, k as int)
            }),
            k >= self.np() ==> forall|j: usize| #[trigger] r@.contains(j) <==> j < self.np() && (if forward {
                self.produces(k - self.np(), j as int)
            } else {
                self.consumes(k - self.np(), j as int)
            }),
    {
        let np = self.places.len();
        if k < np {
            if forward {
                &self.postset_p[k]
            } else {
                &self.preset_p[k]
            }
        } else {
            if forward {
                &self.postset_t[k - np]
            } else {
                &self.preset_t[k - np]
            }
        }
    }

    /// One step along (or against) an arc keeps a node linked to the first place.
    proof fn lemma_linked_step(&self, forward: bool, k: int, m: int)
        requires
            self.wf(),
            0 <= k < self.np() + self.nt(),
            0 <= m < self.np() + self.nt(),
            self.linked_to_first(forward, self.node_at(k)),
            k < self.np() ==> m >= self.np() && (if forward {
                self.consumes(m - self.np(), k)
            } else {
                self.produces(m - self.np(), k)
            }),
            k >= self.np() ==> m < self.np() && (if forward {
                self.produces(k - self.np(), m)
            } else {
                self.consumes(k - self.np(), m)
            }),
        ensures
            self.linked_to_first(forward, self.node_at(m)),
    {
        assert forall|s: Set<Node>| #[trigger] dir_closed(forward, self.arc_set(), s) && s.contains(self.node_at(0)) implies s.contains(self.node_at(m)) by {
            assert(s.contains(self.node_at(k)));
            if k < self.np() {
                let a = if forward {
                    Arc::PlaceToTransition(self.place_seq()[k], self.transition_seq()[m - self.np()])
                } else {
                    Arc::TransitionToPlace(self.transition_seq()[m - self.np()], self.place_seq()[k])
                };
                assert(self.arc_set().contains(a));
            } else {
                let a = if forward {
                    Arc::TransitionToPlace(self.transition_seq()[k - self.np()], self.place_seq()[m])
                } else {
                    Arc::PlaceToTransition(self.place_seq()[m], self.transition_seq()[k - self.np()])
                };
                assert(self.arc_set().contains(a));
            }
        }
    }

    /// Breadth-first sweep from the first node, along arcs or against them.
    /// Returns, by unified index, which nodes were reached.
    fn sweep(&self, forward: bool) -> (r: Vec<bool>)
        requires
            self.wf(),
            self.np() + self.nt() >= 1,
        ensures
            r@.len() == self.np() + self.nt(),
            r@[0],
            forall|k: int| 0 <= k < r@.len() && #[trigger] r@[k] ==> self.linked_to_first(forward, self.node_at(k)),
            forall|k: int, m: int| 0 <= k < r@.len() && 0 <= m < r@.len() && #[trigger] r@[k] && !#[trigger] r@[m] ==> !(
                if k < self.np() {
                    m >= self.np() && (if forward { self.consumes(m - self.np(), k) } else { self.produces(m - self.np(), k) })
                } else {
                    m < self.np() && (if forward { self.produces(k - self.np(), m) } else { self.consumes(k - self.np(), m) })
                }),
    {
        proof {
            self.lemma_wf();
        }
        let np = self.places.len();
        let n = np + self.transitions.len();
        let mut visited: Vec<bool> = Vec::new();
        let mut i: usize = 0;
        while i < n
            invariant
                0 <= i <= n,
                visited@.len() == i,
                forall|k: int| 0 <= k < i ==> !visited@[k],
            decreases n - i,
        {
            visited.push(false);
            i = i + 1;
        }
        let ghost falses = visited@;
        visited.set(0, true);
        let mut queue: Vec<usize> = Vec::new();
        queue.push(0);
        proof {
            assert forall|s: Set<Node>| #[trigger] dir_closed(forward, self.arc_set(), s) && s.contains(self.node_at(0)) implies s.contains(self.node_at(0)) by {}
            assert(queue@ == seq![0usize]);
            assert forall|x: usize| x < n implies (visited@[x as int] <==> queue@.contains(x)) by {
                if x == 0 {
                    assert(queue@[0] == x);
                } else {
                    assert(!falses[x as int]);
                }
            }
        }
        let mut head: usize = 0;
        while head < queue.len()
            invariant
                self.wf(),
                np == self.np(),
                n == self.np() + self.nt(),
                visited@.len() == n,
                visited@[0],
                0 <= head <= queue@.len(),
                queue@.len() <= n,
                queue@.no_duplicates(),
                forall|k: int| 0 <= k < queue@.len() ==> #[trigger] queue@[k] < n,
                forall|x: usize| x < n ==> (visited@[x as int] <==> queue@.contains(x)),
                forall|k: int| 0 <= k < n && #[trigger] visited@[k] ==> self.linked_to_first(forward, self.node_at(k)),
                forall|q: int, m: int| 0 <= q < head && 0 <= m < n && !#[trigger] visited@[m] ==> !(
                    if (#[trigger] queue@[q]) < np {
                        m >= np && (if forward { self.consumes(m - np, queue@[q] as int) } else { self.produces(m - np, queue@[q] as int) })
                    } else {
                        m < np && (if forward { self.produces(queue@[q] - np, m) } else { self.consumes(queue@[q] - np, m) })
                    }),
            decreases n - head,
        {
            let k = queue[head];
            let list = self.step_list(forward, k);
            let mut idx: usize = 0;
            while idx < list.len()
                invariant
                    self.wf(),
                    np == self.np(),
                    n == self.np() + self.nt(),
                    k == queue@[head as int],
                    k < n,
                    visited@[k as int],
                    visited@.len() == n,
                    visited@[0],
                    0 <= head < queue@.len(),
                    queue@.len() <= n,
                    queue@.no_duplicates(),
                    forall|kk: int| 0 <= kk < queue@.len() ==> #[trigger] queue@[kk] < n,
                    forall|x: usize| x < n ==> (visited@[x as int] <==> queue@.contains(x)),
                    forall|kk: int| 0 <= kk < n && #[trigger] visited@[kk] ==> self.linked_to_first(forward, self.node_at(kk)),
                    forall|q: int, m: int| 0 <= q < head && 0 <= m < n && !#[trigger] visited@[m] ==> !(
                        if (#[trigger] queue@[q]) < np {
                            m >= np && (if forward { self.consumes(m - np, queue@[q] as int) } else { self.produces(m - np, queue@[q] as int) })
                        } else {
                            m < np && (if forward { self.produces(queue@[q] - np, m) } else { self.consumes(queue@[q] - np, m) })
                        }),
                    list@.no_duplicates(),
                    forall|m: int| 0 <= m < list@.len() ==> #[trigger] list@[m] < (if k < np { self.nt() } else { self.np() }),
                    k < np ==> forall|i: usize| #[trigger] list@.contains(i) <==> i < self.nt() && (if forward {
                        self.consumes(i as int, k as int)
                    } else {
                        self.produces(i as int, k as int)
                    }),
                    k >= np ==> forall|j: usize| #[trigger] list@.contains(j) <==> j < np && (if forward {
                        self.produces(k - np, j as int)
                    } else {
                        self.consumes(k - np, j as int)
                    }),
                    0 <= idx <= list@.len(),
                    forall|e: int| 0 <= e < idx ==> visited@[(if k < np { np + list@[e] } else { list@[e] as int })],
                decreases list@.len() - idx,
            {
                let e = list[idx];
                let m: usize = if k < np { np + e } else { e };
                proof {
                    assert(list@.contains(e));
                }
                if !visited[m] {
                    proof {
                        self.lemma_linked_step(forward, k as int, m as int);
                        assert(!queue@.contains(m));
                        crate::seq_facts::lemma_distinct_below(queue@, n);
                        assert(queue@.len() < n);
                    }
                    let ghost q0 = queue@;
                    let ghost v0 = visited@;
                    visited.set(m, true);
                    queue.push(m);
                    proof {
                        assert forall|a: int, b: int| 0 <= a < b < queue@.len() implies queue@[a] != queue@[b] by {
                            if b == queue@.len() - 1 {
                                assert(q0.contains(queue@[a]));
                            }
                        }
                        assert forall|x: usize| x < n implies (visited@[x as int] <==> queue@.contains(x)) by {
                            crate::seq_facts::lemma_seq_push_contains(q0, m, x);
                        }
                        assert forall|q: int, mm: int| 0 <= q < head && 0 <= mm < n && !#[trigger] visited@[mm] implies !(
                            if (#[trigger] queue@[q]) < np {
                                mm >= np && (if forward { self.consumes(mm - np, queue@[q] as int) } else { self.produces(mm - np, queue@[q] as int) })
                            } else {
                                mm < np && (if forward { self.produces(queue@[q] - np, mm) } else { self.consumes(queue@[q] - np, mm) })
                            }) by {
                            assert(queue@[q] == q0[q]);
                            assert(!v0[mm]);
                        }
                    }
                }
                idx = idx + 1;
            }
            proof {
                assert forall|q: int, m: int| 0 <= q < head + 1 && 0 <= m < n && !#[trigger] visited@[m] implies !(
                    if (#[trigger] queue@[q]) < np {
                        m >= np && (if forward { self.consumes(m - np, queue@[q] as int) } else { self.produces(m - np, queue@[q] as int) })
                    } else {
                        m < np && (if forward { self.produces(queue@[q] - np, m) } else { self.consumes(queue@[q] - np, m) })
                    }) by {
                    if q == head {
                        if k < np {
                            if m >= np && (if forward { self.consumes(m - np, k as int) } else { self.produces(m - np, k as int) }) {
                                let e = (m - np) as usize;
                                assert(list@.contains(e));
                                let ee = choose|ee: int| 0 <= ee < list@.len() && list@[ee] == e;
                            }
                        } else {
                            if m < np && (if forward { self.produces(k - np, m) } else { self.consumes(k - np, m) }) {
                                let e = m as usize;
                                assert(list@.contains(e));
                                let ee = choose|ee: int| 0 <= ee < list@.len() && list@[ee] == e;
                            }
                        }
                    }
                }
            }
            head = head + 1;
        }
        proof {
            assert forall|k: int, m: int| 0 <= k < visited@.len() && 0 <= m < visited@.len() && #[trigger] visited@[k] && !#[trigger] visited@[m] implies !(
                if k < self.np() {
                    m >= self.np() && (if forward { self.consumes(m - self.np(), k) } else { self.produces(m - self.np(), k) })
                } else {
                    m < self.np() && (if forward { self.produces(k - self.np(), m) } else { self.consumes(k - self.np(), m) })
                }) by {
                assert(queue@.contains(k as usize));
                let q = choose|q: int| 0 <= q < queue@.len() && queue@[q] == k as usize;
            }
        }
        visited
    }
}


impl Net {
    /// What a sweep reports: the first node reached, every reached node linked
    /// to the first one, and no step from a reached node to an unreached one.
    pub open spec fn sweep_ok(&self, forward: bool, v: Seq<bool>) -> bool {
        &&& v.len() == self.np() + self.nt()
        &&& v[0]
        &&& forall|k: int| 0 <= k < v.len() && #[trigger] v[k] ==> self.linked_to_first(forward, self.node_at(k))
        &&& forall|k: int, m: int| 0 <= k < v.len() && 0 <= m < v.len() && #[trigger] v[k] && !#[trigger] v[m] ==> !(
            if k < self.np() {
                m >= self.np() && (if forward { self.consumes(m - self.np(), k) } else { self.produces(m - self.np(), k) })
            } else {
                m < self.np() && (if forward { self.produces(k - self.np(), m) } else { self.consumes(k - self.np(), m) })
            })
    }

    /// The nodes at the indices that `v` marks.
    pub open spec fn marked_nodes(&self, v: Seq<bool>) -> Set<Node> {
        Set::new(|x: Node| exists|k: int| 0 <= k < v.len() && v[k] && #[trigger] self.node_at(k) == x)
    }

    /// Every node of the net stands at exactly one unified index.
    proof fn lemma_node_index(&self, x: Node) -> (k: int)
        requires
            self.wf(),
            crate::class::is_node_of(self.place_set(), self.transition_set(), x),
        ensures
            0 <= k < self.np() + self.nt(),
            self.node_at(k) == x,
    {
        match x {
            Node::Place(p) => {
                choose|i: int| 0 <= i < self.np() && self.place_seq()[i] == p
            },
            Node::Transition(t) => {
                let j = choose|j: int| 0 <= j < self.nt() && self.transition_seq()[j] == t;
                self.np() + j
            },
        }
    }

    /// Distinct unified indices name distinct nodes.
    proof fn lemma_node_at_injective(&self, k: int, m: int)
        requires
            self.wf(),
            0 <= k < self.np() + self.nt(),
            0 <= m < self.np() + self.nt(),
            self.node_at(k) == self.node_at(m),
        ensures
            k == m,
    {
        self.lemma_wf();
    }

    /// Membership of a node in the marked set, by its index.
    proof fn lemma_marked_at(&self, v: Seq<bool>, m: int)
        requires
            self.wf(),
            v.len() == self.np() + self.nt(),
            0 <= m < v.len(),
        ensures
            self.marked_nodes(v).contains(self.node_at(m)) <==> v[m],
    {
        if self.marked_nodes(v).contains(self.node_at(m)) {
            let k = choose|k: int| 0 <= k < v.len() && v[k] && #[trigger] self.node_at(k) == self.node_at(m);
            self.lemma_node_at_injective(k, m);
        }
    }

    /// A forward sweep that misses a node shows that the net is not strongly connected.
    proof fn lemma_forward_miss(&self, v: Seq<bool>, m: int)
        requires
            self.wf(),
            self.sweep_ok(true, v),
            0 <= m < v.len(),
            !v[m],
        ensures
            !is_strongly_connected_spec(self.place_set(), self.transition_set(), self.arc_set()),
    {
        self.lemma_wf();
        let np = self.np();
        let s = self.marked_nodes(v);
        assert forall|a: Arc| #[trigger] self.arc_set().contains(a) implies match a {
            Arc::PlaceToTransition(p, t) => s.contains(Node::Place(p)) ==> s.contains(Node::Transition(t)),
            Arc::TransitionToPlace(t, p) => s.contains(Node::Transition(t)) ==> s.contains(Node::Place(p)),
        } by {
            assert(self.place_seq().contains(a.place_of()) && self.transition_seq().contains(a.transition_of()));
            let i = choose|i: int| 0 <= i < np && self.place_seq()[i] == a.place_of();
            let j = choose|j: int| 0 <= j < self.nt() && self.transition_seq()[j] == a.transition_of();
            assert(self.node_at(i) == Node::Place(a.place_of()));
            assert(self.node_at(np + j) == Node::Transition(a.transition_of()));
            self.lemma_marked_at(v, i);
            self.lemma_marked_at(v, np + j);
            match a {
                Arc::PlaceToTransition(p, t) => {
                    if v[i] && !v[np + j] {
                        assert(self.consumes(j, i));
                    }
                },
                Arc::TransitionToPlace(t, p) => {
                    if v[np + j] && !v[i] {
                        assert(self.produces(j, i));
                    }
                },
            }
        }
        assert(forward_closed(self.arc_set(), s));
        let x = self.node_at(0);
        let y = self.node_at(m);
        self.lemma_marked_at(v, 0);
        self.lemma_marked_at(v, m);
        assert(crate::class::is_node_of(self.place_set(), self.transition_set(), x));
        assert(crate::class::is_node_of(self.place_set(), self.transition_set(), y)) by {
            if m >= np {
                assert(self.transition_seq().contains(self.transition_seq()[m - np]));
            } else {
                assert(self.place_seq().contains(self.place_seq()[m]));
            }
        }
        assert(self.place_seq().contains(self.place_seq()[0]));
        assert(!s.contains(y));
    }

    /// A backward sweep that misses a node shows that the net is not strongly connected:
    /// the nodes it did not reach form a forward-closed set without the first node.
    proof fn lemma_backward_miss(&self, v: Seq<bool>, m: int)
        requires
            self.wf(),
            self.sweep_ok(false, v),
            0 <= m < v.len(),
            !v[m],
        ensures
            !is_strongly_connected_spec(self.place_set(), self.transition_set(), self.arc_set()),
    {
        self.lemma_wf();
        let np = self.np();
        let b = self.marked_nodes(v);
        let c = Set::new(|x: Node| !b.contains(x));
        assert forall|a: Arc| #[trigger] self.arc_set().contains(a) implies match a {
            Arc::PlaceToTransition(p, t) => c.contains(Node::Place(p)) ==> c.contains(Node::Transition(t)),
            Arc::TransitionToPlace(t, p) => c.contains(Node::Transition(t)) ==> c.contains(Node::Place(p)),
        } by {
            assert(self.place_seq().contains(a.place_of()) && self.transition_seq().contains(a.transition_of()));
            let i = choose|i: int| 0 <= i < np && self.place_seq()[i] == a.place_of();
            let j = choose|j: int| 0 <= j < self.nt() && self.transition_seq()[j] == a.transition_of();
            assert(self.node_at(i) == Node::Place(a.place_of()));
            assert(self.node_at(np + j) == Node::Transition(a.transition_of()));
            self.lemma_marked_at(v, i);
            self.lemma_marked_at(v, np + j);
            match a {
                Arc::PlaceToTransition(p, t) => {
                    if v[np + j] && !v[i] {
                        assert(self.consumes(j, i));
                    }
                },
                Arc::TransitionToPlace(t, p) => {
                    if v[i] && !v[np + j] {
                        assert(self.produces(j, i));
                    }
                },
            }
        }
        assert(forward_closed(self.arc_set(), c));
        let x = self.node_at(m);
        let y = self.node_at(0);
        self.lemma_marked_at(v, 0);
        self.lemma_marked_at(v, m);
        assert(crate::class::is_node_of(self.place_set(), self.transition_set(), x)) by {
            if m >= np {
                assert(self.transition_seq().contains(self.transition_seq()[m - np]));
            } else {
                assert(self.place_seq().contains(self.place_seq()[m]));
            }
        }
        assert(self.place_seq().contains(self.place_seq()[0]));
        assert(crate::class::is_node_of(self.place_set(), self.transition_set(), y));
        assert(c.contains(x));
        assert(!c.contains(y));
    }

    /// Sweeps that reach every node both ways show strong connectivity.
    proof fn lemma_all_reached(&self, f: Seq<bool>, b: Seq<bool>)
        requires
            self.wf(),
            self.sweep_ok(true, f),
            self.sweep_ok(false, b),
            forall|k: int| 0 <= k < f.len() ==> f[k] && b[k],
        ensures
            is_strongly_connected_spec(self.place_set(), self.transition_set(), self.arc_set()),
    {
        let arcs = self.arc_set();
        assert forall|s: Set<Node>, x: Node| #[trigger] forward_closed(arcs, s) && crate::class::is_node_of(self.place_set(), self.transition_set(), x)
            && #[trigger] s.contains(x) implies (forall|y: Node| crate::class::is_node_of(self.place_set(), self.transition_set(), y) ==> s.contains(y)) by {
            let c = Set::new(|z: Node| !s.contains(z));
            assert forall|a: Arc| #[trigger] arcs.contains(a) implies match a {
                Arc::PlaceToTransition(p, t) => c.contains(Node::Transition(t)) ==> c.contains(Node::Place(p)),
                Arc::TransitionToPlace(t, p) => c.contains(Node::Place(p)) ==> c.contains(Node::Transition(t)),
            } by {}
            assert(dir_closed(false, arcs, c));
            let kx = self.lemma_node_index(x);
            assert(b[kx]);
            assert(self.linked_to_first(false, self.node_at(kx)));
            assert(s.contains(self.node_at(0)));
            assert forall|y: Node| crate::class::is_node_of(self.place_set(), self.transition_set(), y) implies s.contains(y) by {
                let ky = self.lemma_node_index(y);
                assert(f[ky]);
                assert(self.linked_to_first(true, self.node_at(ky)));
                assert(dir_closed(true, arcs, s));
            }
        }
    }

    /// Whether a directed path leads from every node to every other node.
    pub fn is_strongly_connected(&self) -> (r: bool)
        requires
            self.wf(),
        ensures
            r == is_strongly_connected_spec(self.place_set(), self.transition_set(), self.arc_set()),
    {
        proof {
            self.lemma_wf();
        }
        let fwd = self.sweep(true);
        let bwd = self.sweep(false);
        let n = fwd.len();
        let mut k: usize = 0;
        while k < n
            invariant
                self.wf(),
                n == fwd@.len(),
                n == bwd@.len(),
                self.sweep_ok(true, fwd@),
                self.sweep_ok(false, bwd@),
                0 <= k <= n,
                forall|j: int| 0 <= j < k ==> fwd@[j] && bwd@[j],
            decreases n - k,
        {
            if !fwd[k] {
                proof {
                    self.lemma_forward_miss(fwd@, k as int);
                }
                return false;
            }
            if !bwd[k] {
                proof {
                    self.lemma_backward_miss(bwd@, k as int);
                }
                return false;
            }
            k = k + 1;
        }
        proof {
            self.lemma_all_reached(fwd@, bwd@);
        }
        true
    }
}


impl Net {
    /// Whether, among the `alive` places, transition `t` leads from place `p`
    /// to place `q`: it consumes from `p` and produces onto `q`.
    pub open spec fn place_step(&self, alive: Seq<bool>, p: usize, q: usize) -> bool {
        &&& p < self.np()
        &&& q < self.np()
        &&& alive[p as int]
        &&& alive[q as int]
        &&& exists|t: int| 0 <= t < self.nt() && #[trigger] self.consumes(t, p as int) && #[trigger] self.produces(t, q as int)
    }

    /// Whether `c` (dense place indices) is a circuit through alive places:
    /// nonempty, each place leading through a transition to the next, the
    /// last to the first.
    pub open spec fn is_place_circuit(&self, alive: Seq<bool>, c: Seq<usize>) -> bool {
        &&& c.len() > 0
        &&& forall|i: int| 0 <= i < c.len() ==> #[trigger] self.place_step(alive, c[i], c[crate::cycles::next_index(i, c.len() as int)])
    }

    /// Whether some circuit runs through alive places only.
    pub open spec fn has_place_circuit(&self, alive: Seq<bool>) -> bool {
        exists|c: Seq<usize>| #[trigger] self.is_place_circuit(alive, c)
    }

    /// Successor lists of the place graph: `q` follows `p` when some
    /// transition consumes from `p` and produces onto `q`.
    pub(crate) fn place_successors(&self) -> (r: Vec<Vec<usize>>)
        requires
            self.wf(),
        ensures
            r@.len() == self.np(),
            crate::cycles::lists_in_range(r.deep_view()),
            forall|p: usize, q: usize| p < self.np() ==> (#[trigger] r.deep_view()[p as int].contains(q) <==> q < self.np()
                && exists|t: int| 0 <= t < self.nt() && #[trigger] self.consumes(t, p as int) && #[trigger] self.produces(t, q as int)),
    {
        proof {
            self.lemma_wf();
        }
        let np = self.places.len();
        let mut r: Vec<Vec<usize>> = Vec::new();
        let mut p: usize = 0;
        while p < np
            invariant
                self.wf(),
                np == self.np(),
                0 <= p <= np,
                r@.len() == p,
                forall|a: int, k: int| 0 <= a < p && 0 <= k < r@[a]@.len() ==> #[trigger] r@[a]@[k] < np,
                forall|a: usize, q: usize| a < p ==> (#[trigger] r@[a as int]@.contains(q) <==> q < np
                    && exists|t: int| 0 <= t < self.nt() && #[trigger] self.consumes(t, a as int) && #[trigger] self.produces(t, q as int)),
            decreases np - p,
        {
            let ts = self.step_list(true, p);
            let mut list: Vec<usize> = Vec::new();
            let mut j: usize = 0;
            while j < ts.len()
                invariant
                    self.wf(),
                    np == self.np(),
                    p < np,
                    ts@.no_duplicates(),
                    forall|m: int| 0 <= m < ts@.len() ==> #[trigger] ts@[m] < self.nt(),
                    forall|i: usize| #[trigger] ts@.contains(i) <==> i < self.nt() && self.consumes(i as int, p as int),
                    0 <= j <= ts@.len(),
                    forall|k: int| 0 <= k < list@.len() ==> #[trigger] list@[k] < np && exists|t: int| 0 <= t < self.nt() && #[trigger] self.consumes(t, p as int) && #[trigger] self.produces(t, list@[k] as int),
                    forall|jj: int, q: usize| 0 <= jj < j && q < np && #[trigger] self.produces(ts@[jj] as int, q as int) ==> #[trigger] list@.contains(q),
                decreases ts@.len() - j,
            {
                let t = ts[j];
                proof {
                    assert(ts@.contains(t));
                }
                let qs = self.output_places(t);
                let mut k: usize = 0;
                while k < qs.len()
                    invariant
                        self.wf(),
                        np == self.np(),
                        p < np,
                        t < self.nt(),
                        self.consumes(t as int, p as int),
                        forall|i: usize| #[trigger] ts@.contains(i) <==> i < self.nt() && self.consumes(i as int, p as int),
                        t == ts@[j as int],
                        0 <= j < ts@.len(),
                        qs@.no_duplicates(),
                        forall|m: int| 0 <= m < qs@.len() ==> #[trigger] qs@[m] < np,
                        forall|q: usize| #[trigger] qs@.contains(q) <==> q < np && self.produces(t as int, q as int),
                        0 <= k <= qs@.len(),
                        forall|kk: int| 0 <= kk < list@.len() ==> #[trigger] list@[kk] < np && exists|tt: int| 0 <= tt < self.nt() && #[trigger] self.consumes(tt, p as int) && #[trigger] self.produces(tt, list@[kk] as int),
                        forall|jj: int, q: usize| 0 <= jj < j && q < np && #[trigger] self.produces(ts@[jj] as int, q as int) ==> #[trigger] list@.contains(q),
                        forall|kk: int| 0 <= kk < k ==> #[trigger] list@.contains(qs@[kk]),
                    decreases qs@.len() - k,
                {
                    let q = qs[k];
                    proof {
                        assert(qs@.contains(q));
                    }
                    let ghost before = list@;
                    list.push(q);
                    proof {
                        assert forall|x: usize| before.contains(x) implies list@.contains(x) by {
                            crate::seq_facts::lemma_seq_push_contains(before, q, x);
                        }
                        assert(list@[before.len() as int] == q);
                        assert forall|jj: int, qq: usize| 0 <= jj < j && qq < np && #[trigger] self.produces(ts@[jj] as int, qq as int) implies #[trigger] list@.contains(qq) by {
                            assert(before.contains(qq));
                        }
                        assert forall|kk: int| 0 <= kk < k + 1 implies #[trigger] list@.contains(qs@[kk]) by {
                            if kk < k {
                                assert(before.contains(qs@[kk]));
                            } else {
                                assert(list@.contains(q));
                            }
                        }
                        assert forall|kk: int| 0 <= kk < list@.len() implies #[trigger] list@[kk] < np && exists|tt: int| 0 <= tt < self.nt() && #[trigger] self.consumes(tt, p as int) && #[trigger] self.produces(tt, list@[kk] as int) by {
                            if kk < before.len() {
                                assert(list@[kk] == before[kk]);
                            } else {
                                assert(self.consumes(t as int, p as int) && self.produces(t as int, q as int));
                            }
                        }
                    }
                    k = k + 1;
                }
                proof {
                    assert forall|jj: int, q: usize| 0 <= jj < j + 1 && q < np && #[trigger] self.produces(ts@[jj] as int, q as int) implies #[trigger] list@.contains(q) by {
                        if jj == j {
                            assert(qs@.contains(q));
                            let kk = choose|kk: int| 0 <= kk < qs@.len() && qs@[kk] == q;
                            assert(list@.contains(qs@[kk]));
                        }
                    }
                }
                j = j + 1;
            }
            proof {
                assert forall|q: usize| #[trigger] list@.contains(q) <==> q < np
                    && exists|t: int| 0 <= t < self.nt() && #[trigger] self.consumes(t, p as int) && #[trigger] self.produces(t, q as int) by {
                    if list@.contains(q) {
                        let kk = choose|kk: int| 0 <= kk < list@.len() && list@[kk] == q;
                        assert(list@[kk] < np);
                    }
                    if q < np && exists|t: int| 0 <= t < self.nt() && #[trigger] self.consumes(t, p as int) && #[trigger] self.produces(t, q as int) {
                        let t = choose|t: int| 0 <= t < self.nt() && #[trigger] self.consumes(t, p as int) && #[trigger] self.produces(t, q as int);
                        assert(ts@.contains(t as usize));
                        let jj = choose|jj: int| 0 <= jj < ts@.len() && ts@[jj] == t as usize;
                        assert(self.produces(ts@[jj] as int, q as int));
                    }
                }
            }
            let ghost r0 = r@;
            r.push(list);
            proof {
                assert forall|a: usize, q: usize| a < p + 1 implies (#[trigger] r@[a as int]@.contains(q) <==> q < np
                    && exists|t: int| 0 <= t < self.nt() && #[trigger] self.consumes(t, a as int) && #[trigger] self.produces(t, q as int)) by {
                    if a < p {
                        assert(r@[a as int] == r0[a as int]);
                    }
                }
            }
            p = p + 1;
        }
        proof {
            assert(r.deep_view().len() == r@.len());
            assert forall|a: int| 0 <= a < r@.len() implies #[trigger] r.deep_view()[a] == r@[a]@ by {}
        }
        r
    }

    /// Over the place graph, cycles through alive nodes are exactly the
    /// circuits through alive places.
    pub(crate) proof fn lemma_place_graph_cycles(&self, g: Seq<Seq<usize>>, alive: Seq<bool>)
        requires
            g.len() == self.np(),
            alive.len() == self.np(),
            forall|p: usize, q: usize| p < self.np() ==> (#[trigger] g[p as int].contains(q) <==> q < self.np()
                && exists|t: int| 0 <= t < self.nt() && #[trigger] self.consumes(t, p as int) && #[trigger] self.produces(t, q as int)),
        ensures
            crate::cycles::has_live_cycle(g, alive) == self.has_place_circuit(alive),
    {
        assert forall|a: usize, b: usize| #[trigger] crate::cycles::live_edge(g, alive, a, b) <==> #[trigger] self.place_step(alive, a, b) by {
            if a < self.np() {
                assert(g[a as int].contains(b) <==> b < self.np()
                    && exists|t: int| 0 <= t < self.nt() && #[trigger] self.consumes(t, a as int) && #[trigger] self.produces(t, b as int));
            }
        }
        if crate::cycles::has_live_cycle(g, alive) {
            let c = choose|c: Seq<usize>| #[trigger] crate::cycles::is_live_cycle(g, alive, c);
            assert forall|i: int| 0 <= i < c.len() implies #[trigger] self.place_step(alive, c[i], c[crate::cycles::next_index(i, c.len() as int)]) by {
                assert(crate::cycles::live_edge(g, alive, c[i], c[crate::cycles::next_index(i, c.len() as int)]));
            }
            assert(self.is_place_circuit(alive, c));
        }
        if self.has_place_circuit(alive) {
            let c = choose|c: Seq<usize>| #[trigger] self.is_place_circuit(alive, c);
            assert forall|i: int| 0 <= i < c.len() implies #[trigger] crate::cycles::live_edge(g, alive, c[i], c[crate::cycles::next_index(i, c.len() as int)]) by {
                assert(self.place_step(alive, c[i], c[crate::cycles::next_index(i, c.len() as int)]));
            }
            assert(crate::cycles::is_live_cycle(g, alive, c));
        }
    }
}


impl Net {
    /// The arcs leaving unified node `k`, as pairs of unified indices, in stored order.
    pub closed spec fn out_row(&self, k: int) -> Seq<(usize, usize)> {
        if k < self.np() {
            self.postset_p@[k]@.map_values(|e: usize| (k as usize, (self.np() + e) as usize))
        } else {
            self.postset_t@[k - self.np()]@.map_values(|e: usize| (k as usize, e))
        }
    }

    /// The arcs leaving the unified nodes below `k`.
    pub closed spec fn flow_edges_upto(&self, k: nat) -> Seq<(usize, usize)>
        decreases k,
    {
        if k == 0 {
            seq![]
        } else {
            self.flow_edges_upto((k - 1) as nat) + self.out_row(k - 1)
        }
    }

    /// Every arc once, as a pair of unified node indices (places first, then
    /// transitions), grouped by source node.
    pub closed spec fn flow_edges(&self) -> Seq<(usize, usize)> {
        self.flow_edges_upto(self.np() + self.nt())
    }

    /// The arcs as pairs of unified node indices.
    pub(crate) fn flow_edge_list(&self) -> (r: Vec<(usize, usize)>)
        requires
            self.wf(),
        ensures
            r@ == self.flow_edges(),
            crate::reach::edges_below(r@, self.np() + self.nt()),
    {
        proof {
            self.lemma_wf();
        }
        let np = self.places.len();
        let n = np + self.transitions.len();
        let mut r: Vec<(usize, usize)> = Vec::new();
        let mut k: usize = 0;
        while k < n
            invariant
                self.wf(),
                np == self.np(),
                n == self.np() + self.nt(),
                0 <= k <= n,
                r@ == self.flow_edges_upto(k as nat),
                crate::reach::edges_below(r@, n as nat),
            decreases n - k,
        {
            let list = if k < np {
                &self.postset_p[k]
            } else {
                &self.postset_t[k - np]
            };
            let ghost base = r@;
            let mut j: usize = 0;
            while j < list.len()
                invariant
                    self.wf(),
                    np == self.np(),
                    n == self.np() + self.nt(),
                    k < n,
                    list@ == (if k < np { self.postset_p@[k as int]@ } else { self.postset_t@[k - np]@ }),
                    0 <= j <= list@.len(),
                    r@ == base + self.out_row(k as int).take(j as int),
                    crate::reach::edges_below(r@, n as nat),
                decreases list@.len() - j,
            {
                let e = list[j];
                let pair = if k < np {
                    assert(e < self.nt());
                    (k, np + e)
                } else {
                    assert(e < np);
                    (k, e)
                };
                let ghost r0 = r@;
                r.push(pair);
                proof {
                    assert(self.out_row(k as int)[j as int] == pair);
                    assert(self.out_row(k as int).take(j + 1) == self.out_row(k as int).take(j as int).push(pair));
                    assert forall|q: int| 0 <= q < r@.len() implies (#[trigger] r@[q]).0 < n && r@[q].1 < n by {
                        if q < r0.len() {
                            assert(r@[q] == r0[q]);
                        }
                    }
                }
                j = j + 1;
            }
            proof {
                assert(self.out_row(k as int).take(j as int) == self.out_row(k as int));
                assert(self.flow_edges_upto((k + 1) as nat) == self.flow_edges_upto(k as nat) + self.out_row(k as int));
            }
            k = k + 1;
        }
        r
    }
}


impl Net {
    /// Whether transition `t` feeds transition `u` through an alive place:
    /// it produces onto a place that `u` consumes from.
    pub open spec fn feeds(&self, alive: Seq<bool>, t: usize, u: usize) -> bool {
        &&& t < self.nt()
        &&& u < self.nt()
        &&& exists|p: int| 0 <= p < self.np() && alive[p] && #[trigger] self.produces(t as int, p) && #[trigger] self.consumes(u as int, p)
    }

    /// The pairs of alive places that `place_step` joins, as an edge list.
    pub(crate) fn alive_place_edges(&self, alive: &Vec<bool>) -> (r: Vec<(usize, usize)>)
        requires
            self.wf(),
            alive@.len() == self.np(),
        ensures
            crate::reach::edges_below(r@, self.np()),
            forall|a: usize, b: usize| #[trigger] self.place_step(alive@, a, b) <==> exists|k: int| 0 <= k < r@.len() && #[trigger] r@[k] == (a, b),
    {
        let g = self.place_successors();
        let ghost gv = g.deep_view();
        let np = self.places.len();
        let mut r: Vec<(usize, usize)> = Vec::new();
        let mut p: usize = 0;
        while p < np
            invariant
                self.wf(),
                np == self.np(),
                alive@.len() == np,
                gv == g.deep_view(),
                g@.len() == np,
                forall|a: usize, q: usize| a < np ==> (#[trigger] gv[a as int].contains(q) <==> q < np
                    && exists|t: int| 0 <= t < self.nt() && #[trigger] self.consumes(t, a as int) && #[trigger] self.produces(t, q as int)),
                0 <= p <= np,
                crate::reach::edges_below(r@, np as nat),
                forall|k: int| 0 <= k < r@.len() ==> (#[trigger] r@[k]).0 < p && self.place_step(alive@, r@[k].0, r@[k].1),
                forall|a: usize, b: usize| a < p && #[trigger] self.place_step(alive@, a, b) ==> exists|k: int| 0 <= k < r@.len() && #[trigger] r@[k] == (a, b),
            decreases np - p,
        {
            if alive[p] {
                let list = &g[p];
                assert(list@ == gv[p as int]);
                assert forall|m: int| 0 <= m < list@.len() implies #[trigger] list@[m] < np by {
                    assert(list@.contains(list@[m]));
                }
                let ghost base = r@;
                let mut j: usize = 0;
                while j < list.len()
                    invariant
                        self.wf(),
                        np == self.np(),
                        alive@.len() == np,
                        p < np,
                        alive@[p as int],
                        list@ == gv[p as int],
                        forall|q: usize| #[trigger] list@.contains(q) <==> q < np
                            && exists|t: int| 0 <= t < self.nt() && #[trigger] self.consumes(t, p as int) && #[trigger] self.produces(t, q as int),
                        0 <= j <= list@.len(),
                        crate::reach::edges_below(r@, np as nat),
                        forall|a: usize, b: usize| a < p && #[trigger] self.place_step(alive@, a, b) ==> exists|k: int| 0 <= k < base.len() && #[trigger] base[k] == (a, b),
                        r@.len() >= base.len(),
                        forall|k: int| 0 <= k < base.len() ==> r@[k] == base[k],
                        forall|k: int| 0 <= k < base.len() ==> (#[trigger] base[k]).0 < p && self.place_step(alive@, base[k].0, base[k].1),
                        forall|k: int| base.len() <= k < r@.len() ==> (#[trigger] r@[k]).0 == p && self.place_step(alive@, p, r@[k].1),
                        forall|jj: int| 0 <= jj < j && alive@[list@[jj] as int] ==> exists|k: int| 0 <= k < r@.len() && #[trigger] r@[k] == (p, #[trigger] list@[jj]),
                        forall|m: int| 0 <= m < list@.len() ==> #[trigger] list@[m] < np,
                    decreases list@.len() - j,
                {
                    let q = list[j];
                    proof {
                        assert(list@.contains(q));
                    }
                    if alive[q] {
                        let ghost r0 = r@;
                        r.push((p, q));
                        proof {
                            assert(r@[r0.len() as int] == (p, q));
                            assert forall|jj: int| 0 <= jj < j + 1 && alive@[list@[jj] as int] implies exists|k: int| 0 <= k < r@.len() && #[trigger] r@[k] == (p, #[trigger] list@[jj]) by {
                                if jj < j {
                                    let k = choose|k: int| 0 <= k < r0.len() && #[trigger] r0[k] == (p, list@[jj]);
                                    assert(r@[k] == r0[k]);
                                } else {
                                    assert(r@[r0.len() as int] == (p, list@[jj]));
                                }
                            }
                        }
                    }
                    j = j + 1;
                }
                proof {
                    assert forall|a: usize, b: usize| a < p + 1 && #[trigger] self.place_step(alive@, a, b) implies exists|k: int| 0 <= k < r@.len() && #[trigger] r@[k] == (a, b) by {
                        if a < p {
                            let k = choose|k: int| 0 <= k < base.len() && #[trigger] base[k] == (a, b);
                            assert(r@[k] == base[k]);
                        } else {
                            assert(list@.contains(b));
                            let jj = choose|jj: int| 0 <= jj < list@.len() && list@[jj] == b;
                            assert(alive@[list@[jj] as int]);
                        }
                    }
                    assert forall|k: int| 0 <= k < r@.len() implies (#[trigger] r@[k]).0 < p + 1 && self.place_step(alive@, r@[k].0, r@[k].1) by {
                        if k < base.len() {
                            assert(r@[k] == base[k]);
                        }
                    }
                }
            } else {
                proof {
                    assert forall|a: usize, b: usize| a < p + 1 && #[trigger] self.place_step(alive@, a, b) implies exists|k: int| 0 <= k < r@.len() && #[trigger] r@[k] == (a, b) by {
                        assert(a != p);
                    }
                }
            }
            p = p + 1;
        }
        proof {
            assert forall|a: usize, b: usize| #[trigger] self.place_step(alive@, a, b) <==> exists|k: int| 0 <= k < r@.len() && #[trigger] r@[k] == (a, b) by {
                if self.place_step(alive@, a, b) {
                    assert(a < np);
                }
                if exists|k: int| 0 <= k < r@.len() && #[trigger] r@[k] == (a, b) {
                    let k = choose|k: int| 0 <= k < r@.len() && #[trigger] r@[k] == (a, b);
                    assert(self.place_step(alive@, r@[k].0, r@[k].1));
                }
            }
        }
        r
    }
}


impl Net {
    /// The pairs of transitions that `feeds` joins through alive places, as an edge list.
    pub(crate) fn feed_edges(&self, alive: &Vec<bool>) -> (r: Vec<(usize, usize)>)
        requires
            self.wf(),
            alive@.len() == self.np(),
        ensures
            crate::reach::edges_below(r@, self.nt()),
            forall|a: usize, b: usize| #[trigger] self.feeds(alive@, a, b) <==> exists|k: int| 0 <= k < r@.len() && #[trigger] r@[k] == (a, b),
    {
        let nt = self.transitions.len();
        let np = self.places.len();
        let mut r: Vec<(usize, usize)> = Vec::new();
        let mut t: usize = 0;
        while t < nt
            invariant
                self.wf(),
                np == self.np(),
                nt == self.nt(),
                alive@.len() == np,
                0 <= t <= nt,
                crate::reach::edges_below(r@, nt as nat),
                forall|k: int| 0 <= k < r@.len() ==> (#[trigger] r@[k]).0 < t && self.feeds(alive@, r@[k].0, r@[k].1),
                forall|a: usize, b: usize| a < t && #[trigger] self.feeds(alive@, a, b) ==> exists|k: int| 0 <= k < r@.len() && #[trigger] r@[k] == (a, b),
            decreases nt - t,
        {
            let ps = self.output_places(t);
            let ghost base = r@;
            let mut j: usize = 0;
            while j < ps.len()
                invariant
                    self.wf(),
                    np == self.np(),
                    nt == self.nt(),
                    alive@.len() == np,
                    t < nt,
                    forall|m: int| 0 <= m < ps@.len() ==> #[trigger] ps@[m] < np,
                    forall|p: usize| #[trigger] ps@.contains(p) <==> p < np && self.produces(t as int, p as int),
                    0 <= j <= ps@.len(),
                    crate::reach::edges_below(r@, nt as nat),
                    r@.len() >= base.len(),
                    forall|k: int| 0 <= k < base.len() ==> r@[k] == base[k],
                    forall|a: usize, b: usize| a < t && #[trigger] self.feeds(alive@, a, b) ==> exists|k: int| 0 <= k < base.len() && #[trigger] base[k] == (a, b),
                    forall|k: int| 0 <= k < base.len() ==> (#[trigger] base[k]).0 < t && self.feeds(alive@, base[k].0, base[k].1),
                    forall|k: int| base.len() <= k < r@.len() ==> (#[trigger] r@[k]).0 == t && self.feeds(alive@, t, r@[k].1),
                    forall|jj: int, u: usize| 0 <= jj < j && alive@[ps@[jj] as int] && u < nt && #[trigger] self.consumes(u as int, ps@[jj] as int)
                        ==> exists|k: int| 0 <= k < r@.len() && #[trigger] r@[k] == (t, u),
                decreases ps@.len() - j,
            {
                let p = ps[j];
                proof {
                    assert(ps@.contains(p));
                }
                if alive[p] {
                    let us = self.step_list(true, p);
                    let mut k: usize = 0;
                    while k < us.len()
                        invariant
                            self.wf(),
                            np == self.np(),
                            nt == self.nt(),
                            alive@.len() == np,
                            t < nt,
                            p < np,
                            alive@[p as int],
                            self.produces(t as int, p as int),
                            p == ps@[j as int],
                            0 <= j < ps@.len(),
                            forall|m: int| 0 <= m < us@.len() ==> #[trigger] us@[m] < nt,
                            forall|u: usize| #[trigger] us@.contains(u) <==> u < nt && self.consumes(u as int, p as int),
                            0 <= k <= us@.len(),
                            crate::reach::edges_below(r@, nt as nat),
                            r@.len() >= base.len(),
                            forall|kk: int| 0 <= kk < base.len() ==> r@[kk] == base[kk],
                            forall|kk: int| base.len() <= kk < r@.len() ==> (#[trigger] r@[kk]).0 == t && self.feeds(alive@, t, r@[kk].1),
                            forall|jj: int, u: usize| 0 <= jj < j && alive@[ps@[jj] as int] && u < nt && #[trigger] self.consumes(u as int, ps@[jj] as int)
                                ==> exists|kk: int| 0 <= kk < r@.len() && #[trigger] r@[kk] == (t, u),
                            forall|m: int| 0 <= m < k ==> exists|kk: int| 0 <= kk < r@.len() && #[trigger] r@[kk] == (t, #[trigger] us@[m]),
                        decreases us@.len() - k,
                    {
                        let u = us[k];
                        proof {
                            assert(us@.contains(u));
                            assert(self.feeds(alive@, t, u));
                        }
                        let ghost r0 = r@;
                        r.push((t, u));
                        proof {
                            assert(r@[r0.len() as int] == (t, u));
                            assert forall|jj: int, uu: usize| 0 <= jj < j && alive@[ps@[jj] as int] && uu < nt && #[trigger] self.consumes(uu as int, ps@[jj] as int)
                                implies exists|kk: int| 0 <= kk < r@.len() && #[trigger] r@[kk] == (t, uu) by {
                                let kk = choose|kk: int| 0 <= kk < r0.len() && #[trigger] r0[kk] == (t, uu);
                                assert(r@[kk] == r0[kk]);
                            }
                            assert forall|m: int| 0 <= m < k + 1 implies exists|kk: int| 0 <= kk < r@.len() && #[trigger] r@[kk] == (t, #[trigger] us@[m]) by {
                                if m < k {
                                    let kk = choose|kk: int| 0 <= kk < r0.len() && #[trigger] r0[kk] == (t, us@[m]);
                                    assert(r@[kk] == r0[kk]);
                                }
                            }
                        }
                        k = k + 1;
                    }
                    proof {
                        assert forall|jj: int, u: usize| 0 <= jj < j + 1 && alive@[ps@[jj] as int] && u < nt && #[trigger] self.consumes(u as int, ps@[jj] as int)
                            implies exists|kk: int| 0 <= kk < r@.len() && #[trigger] r@[kk] == (t, u) by {
                            if jj == j {
                                assert(us@.contains(u));
                                let m = choose|m: int| 0 <= m < us@.len() && us@[m] == u;
                                assert(exists|kk: int| 0 <= kk < r@.len() && #[trigger] r@[kk] == (t, #[trigger] us@[m]));
                            }
                        }
                    }
                }
                j = j + 1;
            }
            proof {
                assert forall|a: usize, b: usize| a < t + 1 && #[trigger] self.feeds(alive@, a, b) implies exists|k: int| 0 <= k < r@.len() && #[trigger] r@[k] == (a, b) by {
                    if a < t {
                        let k = choose|k: int| 0 <= k < base.len() && #[trigger] base[k] == (a, b);
                        assert(r@[k] == base[k]);
                    } else {
                        let p = choose|p: int| 0 <= p < self.np() && alive@[p] && #[trigger] self.produces(a as int, p) && #[trigger] self.consumes(b as int, p);
                        assert(ps@.contains(p as usize));
                        let jj = choose|jj: int| 0 <= jj < ps@.len() && ps@[jj] == p as usize;
                        assert(self.consumes(b as int, ps@[jj] as int));
                    }
                }
                assert forall|k: int| 0 <= k < r@.len() implies (#[trigger] r@[k]).0 < t + 1 && self.feeds(alive@, r@[k].0, r@[k].1) by {
                    if k < base.len() {
                        assert(r@[k] == base[k]);
                    }
                }
            }
            t = t + 1;
        }
        proof {
            assert forall|a: usize, b: usize| #[trigger] self.feeds(alive@, a, b) <==> exists|k: int| 0 <= k < r@.len() && #[trigger] r@[k] == (a, b) by {
                if exists|k: int| 0 <= k < r@.len() && #[trigger] r@[k] == (a, b) {
                    let k = choose|k: int| 0 <= k < r@.len() && #[trigger] r@[k] == (a, b);
                    assert(self.feeds(alive@, r@[k].0, r@[k].1));
                }
            }
        }
        r
    }
}


impl Net {
    /// Whether the pair of unified indices `e` stands for an arc of the net:
    /// from a place to a transition that consumes from it, or from a
    /// transition to a place it produces onto.
    pub open spec fn is_flow_pair(&self, e: (usize, usize)) -> bool {
        ||| e.0 < self.np() && self.np() <= e.1 < self.np() + self.nt() && self.consumes(e.1 - self.np(), e.0 as int)
        ||| self.np() <= e.0 < self.np() + self.nt() && e.1 < self.np() && self.produces(e.0 - self.np(), e.1 as int)
    }

    /// The arc that a flow pair stands for.
    pub open spec fn arc_of_pair(&self, e: (usize, usize)) -> Arc {
        if e.0 < self.np() {
            Arc::PlaceToTransition(self.place_seq()[e.0 as int], self.transition_seq()[e.1 - self.np()])
        } else {
            Arc::TransitionToPlace(self.transition_seq()[e.0 - self.np()], self.place_seq()[e.1 as int])
        }
    }

    proof fn lemma_flow_edges_upto(&self, k: nat)
        requires
            self.wf(),
            k <= self.np() + self.nt(),
        ensures
            self.flow_edges_upto(k).no_duplicates(),
            forall|e: (usize, usize)| #[trigger] self.flow_edges_upto(k).contains(e) <==> self.is_flow_pair(e) && e.0 < k,
        decreases k,
    {
        if k > 0 {
            let j = (k - 1) as nat;
            self.lemma_flow_edges_upto(j);
            let prev = self.flow_edges_upto(j);
            let row = self.out_row(j as int);
            let np = self.np();
            assert forall|x: int| 0 <= x < row.len() implies (#[trigger] row[x]).0 == j by {}
            assert(row.no_duplicates()) by {
                assert forall|a: int, b: int| 0 <= a < b < row.len() implies row[a] != row[b] by {
                    if j < np {
                        assert(self.postset_p@[j as int]@[a] != self.postset_p@[j as int]@[b]);
                    } else {
                        assert(self.postset_t@[j - np]@[a] != self.postset_t@[j - np]@[b]);
                    }
                }
            }
            assert forall|e: (usize, usize)| #[trigger] row.contains(e) <==> self.is_flow_pair(e) && e.0 == j by {
                if row.contains(e) {
                    let x = choose|x: int| 0 <= x < row.len() && row[x] == e;
                    if j < np {
                        let t = self.postset_p@[j as int]@[x];
                        assert(self.postset_p@[j as int]@.contains(t));
                    } else {
                        let q = self.postset_t@[j - np]@[x];
                        assert(self.postset_t@[j - np]@.contains(q));
                    }
                }
                if self.is_flow_pair(e) && e.0 == j {
                    if j < np {
                        let t = (e.1 - np) as usize;
                        assert(self.postset_p@[j as int]@.contains(t));
                        let lst = self.postset_p@[j as int]@;
                        let x = choose|x: int| 0 <= x < lst.len() && #[trigger] lst[x] == t;
                        assert(row[x] == e);
                    } else {
                        assert(self.postset_t@[j - np]@.contains(e.1));
                        let lst = self.postset_t@[j - np]@;
                        let x = choose|x: int| 0 <= x < lst.len() && #[trigger] lst[x] == e.1;
                        assert(row[x] == e);
                    }
                }
            }
            assert(self.flow_edges_upto(k) == prev + row);
            assert forall|e: (usize, usize)| #[trigger] self.flow_edges_upto(k).contains(e) <==> self.is_flow_pair(e) && e.0 < k by {
                if (prev + row).contains(e) {
                    let x = choose|x: int| 0 <= x < (prev + row).len() && (prev + row)[x] == e;
                    if x < prev.len() {
                        assert(prev.contains(e));
                    } else {
                        assert(row.contains(e));
                    }
                }
                if self.is_flow_pair(e) && e.0 < k {
                    if e.0 < j {
                        assert(prev.contains(e));
                        let x = choose|x: int| 0 <= x < prev.len() && prev[x] == e;
                        assert((prev + row)[x] == e);
                    } else {
                        assert(row.contains(e));
                        let x = choose|x: int| 0 <= x < row.len() && row[x] == e;
                        assert((prev + row)[prev.len() + x] == e);
                    }
                }
            }
            assert((prev + row).no_duplicates()) by {
                assert forall|a: int, b: int| 0 <= a < b < (prev + row).len() implies (prev + row)[a] != (prev + row)[b] by {
                    if b >= prev.len() && a < prev.len() {
                        assert(prev.contains(prev[a]));
                        assert(row[b - prev.len()].0 == j);
                    }
                }
            }
        }
    }

    /// The flow edges list every arc of the net once.
    pub proof fn lemma_flow_edges(&self)
        requires
            self.wf(),
        ensures
            self.flow_edges().no_duplicates(),
            forall|e: (usize, usize)| #[trigger] self.flow_edges().contains(e) <==> self.is_flow_pair(e),
            self.flow_edges().len() == self.arc_set().len(),
    {
        self.lemma_wf();
        let n = self.np() + self.nt();
        self.lemma_flow_edges_upto(n);
        let fe = self.flow_edges();
        assert forall|e: (usize, usize)| #[trigger] fe.contains(e) <==> self.is_flow_pair(e) by {
            assert(self.flow_edges_upto(n).contains(e) <==> self.is_flow_pair(e) && e.0 < n);
        }
        let arcs = fe.map_values(|e: (usize, usize)| self.arc_of_pair(e));
        assert forall|x: int| 0 <= x < fe.len() implies self.is_flow_pair(#[trigger] fe[x]) by {
            assert(fe.contains(fe[x]));
        }
        assert(arcs.no_duplicates()) by {
            assert forall|a: int, b: int| 0 <= a < b < arcs.len() implies arcs[a] != arcs[b] by {
                let ea = fe[a];
                let eb = fe[b];
                assert(self.is_flow_pair(ea) && self.is_flow_pair(eb));
                assert(ea != eb);
                if ea.0 < self.np() && eb.0 < self.np() {
                    if arcs[a] == arcs[b] {
                        assert(self.place_seq()[ea.0 as int] == self.place_seq()[eb.0 as int]);
                        assert(self.transition_seq()[ea.1 - self.np()] == self.transition_seq()[eb.1 - self.np()]);
                    }
                } else if ea.0 >= self.np() && eb.0 >= self.np() {
                    if arcs[a] == arcs[b] {
                        assert(self.transition_seq()[ea.0 - self.np()] == self.transition_seq()[eb.0 - self.np()]);
                        assert(self.place_seq()[ea.1 as int] == self.place_seq()[eb.1 as int]);
                    }
                }
            }
        }
        assert(arcs.to_set() =~= self.arc_set()) by {
            assert forall|a: Arc| #[trigger] arcs.to_set().contains(a) implies self.arc_set().contains(a) by {
                let x = choose|x: int| 0 <= x < arcs.len() && arcs[x] == a;
                assert(self.is_flow_pair(fe[x]));
            }
            assert forall|a: Arc| #[trigger] self.arc_set().contains(a) implies arcs.to_set().contains(a) by {
                assert(self.place_seq().contains(a.place_of()) && self.transition_seq().contains(a.transition_of()));
                let i = choose|i: int| 0 <= i < self.np() && self.place_seq()[i] == a.place_of();
                let j = choose|j: int| 0 <= j < self.nt() && self.transition_seq()[j] == a.transition_of();
                let e: (usize, usize) = match a {
                    Arc::PlaceToTransition(_, _) => (i as usize, (self.np() + j) as usize),
                    Arc::TransitionToPlace(_, _) => ((self.np() + j) as usize, i as usize),
                };
                assert(self.is_flow_pair(e));
                assert(fe.contains(e));
                let x = choose|x: int| 0 <= x < fe.len() && fe[x] == e;
                assert(arcs[x] == a);
            }
        }
        arcs.unique_seq_to_set();
    }
}

} // verus!
