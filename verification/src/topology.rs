//! Structural queries over a net given as lists of places, transitions and arcs.

use vstd::prelude::*;
use crate::builder::NetError;
use crate::class::{
    classify_result_spec, NetClass,
    closed_under, is_connected_spec, is_node_of, linked, is_asymmetric_choice_spec, is_free_choice_spec, is_marked_graph_spec, is_state_machine_spec,
    postset_of_place, postset_of_transition, preset_of_place, preset_of_transition, singleton,
};
use crate::net::{Arc, Node, Place, Transition};

verus! {

broadcast use crate::seq_facts::lemma_seq_push_contains;

/// The lists describe a net: no repetitions, and every arc joins listed nodes.
pub open spec fn topology_wf(places: Seq<Place>, transitions: Seq<Transition>, arcs: Seq<Arc>) -> bool {
    &&& places.no_duplicates()
    &&& transitions.no_duplicates()
    &&& arcs.no_duplicates()
    &&& forall|i: int|
        #![trigger arcs[i]]
        0 <= i < arcs.len() ==> places.contains(arcs[i].place_of()) && transitions.contains(
            arcs[i].transition_of(),
        )
}

/// A repetition-free sequence has one element iff its set is a singleton.
pub proof fn lemma_singleton_len<A>(s: Seq<A>)
    requires
        s.no_duplicates(),
    ensures
        (s.len() == 1) == singleton(s.to_set()),
{
    s.unique_seq_to_set();
    if s.len() == 1 {
        assert(s.to_set().contains(s[0]));
        assert forall|y: A| s.to_set().contains(y) implies y == s[0] by {}
    }
    if singleton(s.to_set()) {
        let x = choose|x: A| s.to_set().contains(x) && forall|y: A| s.to_set().contains(y) ==> y == x;
        assert(s.to_set() =~= Set::empty().insert(x));
    }
}

/// `•t` as a list.
pub fn preset_places(arcs: &Vec<Arc>, t: Transition) -> (r: Vec<Place>)
    requires
        arcs@.no_duplicates(),
    ensures
        r@.no_duplicates(),
        r@.to_set() == preset_of_transition(arcs@.to_set(), t),
{
    let mut r: Vec<Place> = Vec::new();
    let mut i: usize = 0;
    while i < arcs.len()
        invariant
            0 <= i <= arcs@.len(),
            arcs@.no_duplicates(),
            r@.no_duplicates(),
            forall|p: Place| r@.contains(p) <==> arcs@.subrange(0, i as int).contains(Arc::PlaceToTransition(p, t)),
        decreases arcs@.len() - i,
    {
        let a = arcs[i];
        proof {
            assert(arcs@.subrange(0, i + 1) =~= arcs@.subrange(0, i as int).push(a));
        }
        match a {
            Arc::PlaceToTransition(p, t2) => {
                if t2 == t {
                    proof {
                        if r@.contains(p) {
                            let k = choose|k: int| 0 <= k < i && arcs@.subrange(0, i as int)[k] == a;
                            assert(arcs@[k] == arcs@[i as int]);
                        }
                    }
                    r.push(p);
                }
            },
            _ => {},
        }
        i = i + 1;
    }
    proof {
        assert(arcs@.subrange(0, i as int) =~= arcs@);
        assert(r@.to_set() =~= preset_of_transition(arcs@.to_set(), t));
    }
    r
}

/// `t•` as a list.
pub fn postset_places(arcs: &Vec<Arc>, t: Transition) -> (r: Vec<Place>)
    requires
        arcs@.no_duplicates(),
    ensures
        r@.no_duplicates(),
        r@.to_set() == postset_of_transition(arcs@.to_set(), t),
{
    let mut r: Vec<Place> = Vec::new();
    let mut i: usize = 0;
    while i < arcs.len()
        invariant
            0 <= i <= arcs@.len(),
            arcs@.no_duplicates(),
            r@.no_duplicates(),
            forall|p: Place| r@.contains(p) <==> arcs@.subrange(0, i as int).contains(Arc::TransitionToPlace(t, p)),
        decreases arcs@.len() - i,
    {
        let a = arcs[i];
        proof {
            assert(arcs@.subrange(0, i + 1) =~= arcs@.subrange(0, i as int).push(a));
        }
        match a {
            Arc::TransitionToPlace(t2, p) => {
                if t2 == t {
                    proof {
                        if r@.contains(p) {
                            let k = choose|k: int| 0 <= k < i && arcs@.subrange(0, i as int)[k] == a;
                            assert(arcs@[k] == arcs@[i as int]);
                        }
                    }
                    r.push(p);
                }
            },
            _ => {},
        }
        i = i + 1;
    }
    proof {
        assert(arcs@.subrange(0, i as int) =~= arcs@);
        assert(r@.to_set() =~= postset_of_transition(arcs@.to_set(), t));
    }
    r
}

/// `•p` as a list.
pub fn preset_transitions(arcs: &Vec<Arc>, p: Place) -> (r: Vec<Transition>)
    requires
        arcs@.no_duplicates(),
    ensures
        r@.no_duplicates(),
        r@.to_set() == preset_of_place(arcs@.to_set(), p),
{
    let mut r: Vec<Transition> = Vec::new();
    let mut i: usize = 0;
    while i < arcs.len()
        invariant
            0 <= i <= arcs@.len(),
            arcs@.no_duplicates(),
            r@.no_duplicates(),
            forall|t: Transition| r@.contains(t) <==> arcs@.subrange(0, i as int).contains(Arc::TransitionToPlace(t, p)),
        decreases arcs@.len() - i,
    {
        let a = arcs[i];
        proof {
            assert(arcs@.subrange(0, i + 1) =~= arcs@.subrange(0, i as int).push(a));
        }
        match a {
            Arc::TransitionToPlace(t, p2) => {
                if p2 == p {
                    proof {
                        if r@.contains(t) {
                            let k = choose|k: int| 0 <= k < i && arcs@.subrange(0, i as int)[k] == a;
                            assert(arcs@[k] == arcs@[i as int]);
                        }
                    }
                    r.push(t);
                }
            },
            _ => {},
        }
        i = i + 1;
    }
    proof {
        assert(arcs@.subrange(0, i as int) =~= arcs@);
        assert(r@.to_set() =~= preset_of_place(arcs@.to_set(), p));
    }
    r
}

/// `p•` as a list.
pub fn postset_transitions(arcs: &Vec<Arc>, p: Place) -> (r: Vec<Transition>)
    requires
        arcs@.no_duplicates(),
    ensures
        r@.no_duplicates(),
        r@.to_set() == postset_of_place(arcs@.to_set(), p),
{
    let mut r: Vec<Transition> = Vec::new();
    let mut i: usize = 0;
    while i < arcs.len()
        invariant
            0 <= i <= arcs@.len(),
            arcs@.no_duplicates(),
            r@.no_duplicates(),
            forall|t: Transition| r@.contains(t) <==> arcs@.subrange(0, i as int).contains(Arc::PlaceToTransition(p, t)),
        decreases arcs@.len() - i,
    {
        let a = arcs[i];
        proof {
            assert(arcs@.subrange(0, i + 1) =~= arcs@.subrange(0, i as int).push(a));
        }
        match a {
            Arc::PlaceToTransition(p2, t) => {
                if p2 == p {
                    proof {
                        if r@.contains(t) {
                            let k = choose|k: int| 0 <= k < i && arcs@.subrange(0, i as int)[k] == a;
                            assert(arcs@[k] == arcs@[i as int]);
                        }
                    }
                    r.push(t);
                }
            },
            _ => {},
        }
        i = i + 1;
    }
    proof {
        assert(arcs@.subrange(0, i as int) =~= arcs@);
        assert(r@.to_set() =~= postset_of_place(arcs@.to_set(), p));
    }
    r
}

/// Whether every transition has exactly one input and one output place.
pub fn is_state_machine(transitions: &Vec<Transition>, arcs: &Vec<Arc>) -> (r: bool)
    requires
        arcs@.no_duplicates(),
    ensures
        r == is_state_machine_spec(transitions@.to_set(), arcs@.to_set()),
{
    let mut i: usize = 0;
    while i < transitions.len()
        invariant
            0 <= i <= transitions@.len(),
            arcs@.no_duplicates(),
            forall|k: int|
                0 <= k < i ==> singleton(preset_of_transition(arcs@.to_set(), #[trigger] transitions@[k]))
                    && singleton(postset_of_transition(arcs@.to_set(), transitions@[k])),
        decreases transitions@.len() - i,
    {
        let t = transitions[i];
        let pre = preset_places(arcs, t);
        let post = postset_places(arcs, t);
        proof {
            lemma_singleton_len(pre@);
            lemma_singleton_len(post@);
        }
        if pre.len() != 1 || post.len() != 1 {
            proof {
                assert(transitions@.to_set().contains(t));
            }
            return false;
        }
        i = i + 1;
    }
    proof {
        assert forall|t: Transition| transitions@.to_set().contains(t) implies singleton(
            preset_of_transition(arcs@.to_set(), t),
        ) && singleton(postset_of_transition(arcs@.to_set(), t)) by {
            let k = choose|k: int| 0 <= k < transitions@.len() && transitions@[k] == t;
        }
    }
    true
}

/// Whether every place has exactly one input and one output transition.
pub fn is_marked_graph(places: &Vec<Place>, arcs: &Vec<Arc>) -> (r: bool)
    requires
        arcs@.no_duplicates(),
    ensures
        r == is_marked_graph_spec(places@.to_set(), arcs@.to_set()),
{
    let mut i: usize = 0;
    while i < places.len()
        invariant
            0 <= i <= places@.len(),
            arcs@.no_duplicates(),
            forall|k: int|
                0 <= k < i ==> singleton(preset_of_place(arcs@.to_set(), #[trigger] places@[k]))
                    && singleton(postset_of_place(arcs@.to_set(), places@[k])),
        decreases places@.len() - i,
    {
        let p = places[i];
        let pre = preset_transitions(arcs, p);
        let post = postset_transitions(arcs, p);
        proof {
            lemma_singleton_len(pre@);
            lemma_singleton_len(post@);
        }
        if pre.len() != 1 || post.len() != 1 {
            proof {
                assert(places@.to_set().contains(p));
            }
            return false;
        }
        i = i + 1;
    }
    proof {
        assert forall|p: Place| places@.to_set().contains(p) implies singleton(
            preset_of_place(arcs@.to_set(), p),
        ) && singleton(postset_of_place(arcs@.to_set(), p)) by {
            let k = choose|k: int| 0 <= k < places@.len() && places@[k] == p;
        }
    }
    true
}

/// Whether two lists share an element.
fn transitions_intersect(a: &Vec<Transition>, b: &Vec<Transition>) -> (r: bool)
    ensures
        r == exists|t: Transition| a@.contains(t) && b@.contains(t),
{
    let mut i: usize = 0;
    while i < a.len()
        invariant
            0 <= i <= a@.len(),
            forall|k: int| 0 <= k < i ==> !b@.contains(#[trigger] a@[k]),
        decreases a@.len() - i,
    {
        if crate::net::vec_contains_transition(b, a[i]) {
            return true;
        }
        i = i + 1;
    }
    proof {
        assert forall|t: Transition| !(a@.contains(t) && b@.contains(t)) by {
            if a@.contains(t) {
                let k = choose|k: int| 0 <= k < a@.len() && a@[k] == t;
            }
        }
    }
    false
}

/// Whether every element of `a` is in `b`.
fn transitions_subset(a: &Vec<Transition>, b: &Vec<Transition>) -> (r: bool)
    ensures
        r == a@.to_set().subset_of(b@.to_set()),
{
    let mut i: usize = 0;
    while i < a.len()
        invariant
            0 <= i <= a@.len(),
            forall|k: int| 0 <= k < i ==> b@.contains(#[trigger] a@[k]),
        decreases a@.len() - i,
    {
        if !crate::net::vec_contains_transition(b, a[i]) {
            proof {
                assert(a@.to_set().contains(a@[i as int]));
            }
            return false;
        }
        i = i + 1;
    }
    proof {
        assert forall|t: Transition| a@.to_set().contains(t) implies b@.to_set().contains(t) by {
            let k = choose|k: int| 0 <= k < a@.len() && a@[k] == t;
        }
    }
    true
}

/// Whether places sharing an output transition always have the same postset.
pub fn is_free_choice(places: &Vec<Place>, arcs: &Vec<Arc>) -> (r: bool)
    requires
        arcs@.no_duplicates(),
    ensures
        r == is_free_choice_spec(places@.to_set(), arcs@.to_set()),
{
    let ghost arcset = arcs@.to_set();
    let mut i: usize = 0;
    while i < places.len()
        invariant
            0 <= i <= places@.len(),
            arcs@.no_duplicates(),
            arcset == arcs@.to_set(),
            forall|k: int, l: int|
                0 <= k < i && 0 <= l < places@.len() && (exists|t: Transition|
                    postset_of_place(arcset, #[trigger] places@[k]).contains(t) && postset_of_place(
                        arcset,
                        #[trigger] places@[l],
                    ).contains(t)) ==> postset_of_place(arcset, places@[k]) == postset_of_place(arcset, places@[l]),
        decreases places@.len() - i,
    {
        let post_i = postset_transitions(arcs, places[i]);
        let mut j: usize = 0;
        while j < places.len()
            invariant
                0 <= i < places@.len(),
                0 <= j <= places@.len(),
                arcs@.no_duplicates(),
                arcset == arcs@.to_set(),
                post_i@.to_set() == postset_of_place(arcset, places@[i as int]),
                forall|k: int, l: int|
                    0 <= k < i && 0 <= l < places@.len() && (exists|t: Transition|
                        postset_of_place(arcset, #[trigger] places@[k]).contains(t)
                            && postset_of_place(arcset, #[trigger] places@[l]).contains(t))
                        ==> postset_of_place(arcset, places@[k]) == postset_of_place(arcset, places@[l]),
                forall|l: int|
                    0 <= l < j && (exists|t: Transition|
                        postset_of_place(arcset, places@[i as int]).contains(t)
                            && postset_of_place(arcset, #[trigger] places@[l]).contains(t))
                        ==> postset_of_place(arcset, places@[i as int]) == postset_of_place(arcset, places@[l]),
            decreases places@.len() - j,
        {
            let post_j = postset_transitions(arcs, places[j]);
            if transitions_intersect(&post_i, &post_j) {
                if !transitions_subset(&post_i, &post_j) || !transitions_subset(&post_j, &post_i) {
                    proof {
                        let t = choose|t: Transition| post_i@.contains(t) && post_j@.contains(t);
                        assert(post_i@.to_set().contains(t));
                        assert(post_j@.to_set().contains(t));
                        assert(places@.to_set().contains(places@[i as int]));
                        assert(places@.to_set().contains(places@[j as int]));
                    }
                    return false;
                }
                proof {
                    assert(postset_of_place(arcset, places@[i as int]) =~= postset_of_place(arcset, places@[j as int]));
                }
            } else {
                proof {
                    assert forall|t: Transition|
                        !(postset_of_place(arcset, places@[i as int]).contains(t)
                            && postset_of_place(arcset, places@[j as int]).contains(t)) by {
                        if postset_of_place(arcset, places@[i as int]).contains(t)
                            && postset_of_place(arcset, places@[j as int]).contains(t) {
                            assert(post_i@.to_set().contains(t));
                            assert(post_j@.to_set().contains(t));
                        }
                    }
                }
            }
            j = j + 1;
        }
        i = i + 1;
    }
    proof {
        assert forall|p1: Place, p2: Place|
            places@.to_set().contains(p1) && places@.to_set().contains(p2) && (exists|t: Transition|
                postset_of_place(arcset, p1).contains(t) && postset_of_place(arcset, p2).contains(t))
                implies postset_of_place(arcset, p1) == postset_of_place(arcset, p2) by {
            let k = choose|k: int| 0 <= k < places@.len() && places@[k] == p1;
            let l = choose|l: int| 0 <= l < places@.len() && places@[l] == p2;
            let t = choose|t: Transition|
                postset_of_place(arcset, p1).contains(t) && postset_of_place(arcset, p2).contains(t);
            assert(postset_of_place(arcset, places@[k]).contains(t) && postset_of_place(arcset, places@[l]).contains(t));
        }
    }
    true
}

/// Whether places sharing an output transition always have nested postsets.
pub fn is_asymmetric_choice(places: &Vec<Place>, arcs: &Vec<Arc>) -> (r: bool)
    requires
        arcs@.no_duplicates(),
    ensures
        r == is_asymmetric_choice_spec(places@.to_set(), arcs@.to_set()),
{
    let ghost arcset = arcs@.to_set();
    let mut i: usize = 0;
    while i < places.len()
        invariant
            0 <= i <= places@.len(),
            arcs@.no_duplicates(),
            arcset == arcs@.to_set(),
            forall|k: int, l: int|
                0 <= k < i && 0 <= l < places@.len() && (exists|t: Transition|
                    postset_of_place(arcset, #[trigger] places@[k]).contains(t) && postset_of_place(
                        arcset,
                        #[trigger] places@[l],
                    ).contains(t)) ==> postset_of_place(arcset, places@[k]).subset_of(
                    postset_of_place(arcset, places@[l]),
                ) || postset_of_place(arcset, places@[l]).subset_of(
                    postset_of_place(arcset, places@[k]),
                ),
        decreases places@.len() - i,
    {
        let post_i = postset_transitions(arcs, places[i]);
        let mut j: usize = 0;
        while j < places.len()
            invariant
                0 <= i < places@.len(),
                0 <= j <= places@.len(),
                arcs@.no_duplicates(),
                arcset == arcs@.to_set(),
                post_i@.to_set() == postset_of_place(arcset, places@[i as int]),
                forall|k: int, l: int|
                    0 <= k < i && 0 <= l < places@.len() && (exists|t: Transition|
                        postset_of_place(arcset, #[trigger] places@[k]).contains(t)
                            && postset_of_place(arcset, #[trigger] places@[l]).contains(t))
                        ==> postset_of_place(arcset, places@[k]).subset_of(
                        postset_of_place(arcset, places@[l]),
                    ) || postset_of_place(arcset, places@[l]).subset_of(
                        postset_of_place(arcset, places@[k]),
                    ),
                forall|l: int|
                    0 <= l < j && (exists|t: Transition|
                        postset_of_place(arcset, places@[i as int]).contains(t)
                            && postset_of_place(arcset, #[trigger] places@[l]).contains(t))
                        ==> postset_of_place(arcset, places@[i as int]).subset_of(
                        postset_of_place(arcset, places@[l]),
                    ) || postset_of_place(arcset, places@[l]).subset_of(
                        postset_of_place(arcset, places@[i as int]),
                    ),
            decreases places@.len() - j,
        {
            let post_j = postset_transitions(arcs, places[j]);
            if transitions_intersect(&post_i, &post_j) {
                if !transitions_subset(&post_i, &post_j) && !transitions_subset(&post_j, &post_i) {
                    proof {
                        let t = choose|t: Transition| post_i@.contains(t) && post_j@.contains(t);
                        assert(post_i@.to_set().contains(t));
                        assert(post_j@.to_set().contains(t));
                        assert(places@.to_set().contains(places@[i as int]));
                        assert(places@.to_set().contains(places@[j as int]));
                    }
                    return false;
                }
            } else {
                proof {
                    assert forall|t: Transition|
                        !(postset_of_place(arcset, places@[i as int]).contains(t)
                            && postset_of_place(arcset, places@[j as int]).contains(t)) by {
                        if postset_of_place(arcset, places@[i as int]).contains(t)
                            && postset_of_place(arcset, places@[j as int]).contains(t) {
                            assert(post_i@.to_set().contains(t));
                            assert(post_j@.to_set().contains(t));
                        }
                    }
                }
            }
            j = j + 1;
        }
        i = i + 1;
    }
    proof {
        assert forall|p1: Place, p2: Place|
            places@.to_set().contains(p1) && places@.to_set().contains(p2) && (exists|t: Transition|
                postset_of_place(arcset, p1).contains(t) && postset_of_place(arcset, p2).contains(t))
                implies postset_of_place(arcset, p1).subset_of(postset_of_place(arcset, p2))
            || postset_of_place(arcset, p2).subset_of(postset_of_place(arcset, p1)) by {
            let k = choose|k: int| 0 <= k < places@.len() && places@[k] == p1;
            let l = choose|l: int| 0 <= l < places@.len() && places@[l] == p2;
            let t = choose|t: Transition|
                postset_of_place(arcset, p1).contains(t) && postset_of_place(arcset, p2).contains(t);
            assert(postset_of_place(arcset, places@[k]).contains(t) && postset_of_place(arcset, places@[l]).contains(t));
        }
    }
    true
}


/// Whether an arc joins `p` and `t`, in either direction.
pub open spec fn arc_between(arcs: Set<Arc>, p: Place, t: Transition) -> bool {
    exists|a: Arc| arcs.contains(a) && a.place_of() == p && a.transition_of() == t
}

/// Whether an arc touches place `p`.
pub open spec fn arc_at_place(p: Place) -> spec_fn(Arc) -> bool {
    |a: Arc| a.place_of() == p
}

/// Whether an arc touches transition `t`.
pub open spec fn arc_at_transition(t: Transition) -> spec_fn(Arc) -> bool {
    |a: Arc| a.transition_of() == t
}

/// The positions in `transitions` of the transitions joined to `p` by an arc,
/// one entry per arc.
pub(crate) fn place_neighbors(transitions: &Vec<Transition>, arcs: &Vec<Arc>, p: Place) -> (r: Vec<usize>)
    requires
        transitions@.no_duplicates(),
        forall|i: int| #![trigger arcs@[i]] 0 <= i < arcs@.len() ==> transitions@.contains(arcs@[i].transition_of()),
    ensures
        forall|k: int| 0 <= k < r@.len() ==> #[trigger] r@[k] < transitions@.len(),
        forall|j: usize| #[trigger] r@.contains(j) <==> j < transitions@.len() && arc_between(
            arcs@.to_set(),
            p,
            transitions@[j as int],
        ),
        r@.len() == arcs@.filter(arc_at_place(p)).len(),
{
    let mut r: Vec<usize> = Vec::new();
    let mut i: usize = 0;
    while i < arcs.len()
        invariant
            0 <= i <= arcs@.len(),
            transitions@.no_duplicates(),
            forall|i: int| #![trigger arcs@[i]] 0 <= i < arcs@.len() ==> transitions@.contains(arcs@[i].transition_of()),
            forall|k: int| 0 <= k < r@.len() ==> #[trigger] r@[k] < transitions@.len(),
            forall|j: usize| #[trigger] r@.contains(j) <==> j < transitions@.len() && exists|k: int|
                0 <= k < i && (#[trigger] arcs@[k]).place_of() == p && arcs@[k].transition_of()
                    == transitions@[j as int],
            r@.len() == arcs@.take(i as int).filter(arc_at_place(p)).len(),
        decreases arcs@.len() - i,
    {
        let a = arcs[i];
        proof {
            reveal(Seq::filter);
            assert(arcs@.take(i + 1).drop_last() == arcs@.take(i as int));
            assert(arcs@.take(i + 1).last() == arcs@[i as int]);
        }
        let (ap, at) = match a {
            Arc::PlaceToTransition(ap, at) => (ap, at),
            Arc::TransitionToPlace(at, ap) => (ap, at),
        };
        if ap == p {
            match crate::net::vec_position_transition(transitions, at) {
                Some(j) => {
                    proof {
                        assert forall|j2: usize| #[trigger] r@.push(j).contains(j2) <==> j2 < transitions@.len() && exists|k: int|
                            0 <= k < i + 1 && (#[trigger] arcs@[k]).place_of() == p && arcs@[k].transition_of()
                                == transitions@[j2 as int] by {
                            if j2 < transitions@.len() && j2 != j && transitions@[j2 as int] == at {
                                assert(transitions@[j as int] == transitions@[j2 as int]);
                            }
                            if j2 == j {
                                assert(arcs@[i as int].place_of() == p);
                            }
                        }
                    }
                    r.push(j);
                },
                None => {
                    proof {
                        assert(transitions@.contains(arcs@[i as int].transition_of()));
                    }
                },
            }
        } else {
            proof {
                assert forall|j2: usize| #[trigger] r@.contains(j2) <==> j2 < transitions@.len() && exists|k: int|
                    0 <= k < i + 1 && (#[trigger] arcs@[k]).place_of() == p && arcs@[k].transition_of()
                        == transitions@[j2 as int] by {
                    if j2 < transitions@.len() && exists|k: int|
                        0 <= k < i + 1 && (#[trigger] arcs@[k]).place_of() == p && arcs@[k].transition_of()
                            == transitions@[j2 as int] {
                        let k = choose|k: int|
                            0 <= k < i + 1 && (#[trigger] arcs@[k]).place_of() == p && arcs@[k].transition_of()
                                == transitions@[j2 as int];
                        assert(k != i);
                    }
                }
            }
        }
        i = i + 1;
    }
    proof {
        assert(arcs@.take(arcs@.len() as int) == arcs@);
        assert forall|j: usize| #[trigger] r@.contains(j) <==> j < transitions@.len() && arc_between(
            arcs@.to_set(),
            p,
            transitions@[j as int],
        ) by {
            if j < transitions@.len() && arc_between(arcs@.to_set(), p, transitions@[j as int]) {
                let a = choose|a: Arc| arcs@.to_set().contains(a) && a.place_of() == p && a.transition_of() == transitions@[j as int];
                let k = choose|k: int| 0 <= k < arcs@.len() && arcs@[k] == a;
                assert(arcs@[k].place_of() == p);
            }
            if r@.contains(j) {
                let k = choose|k: int|
                    0 <= k < i && (#[trigger] arcs@[k]).place_of() == p && arcs@[k].transition_of()
                        == transitions@[j as int];
                assert(arcs@.to_set().contains(arcs@[k]));
            }
        }
    }
    r
}

/// The positions in `places` of the places joined to `t` by an arc, one entry
/// per arc.
pub(crate) fn transition_neighbors(places: &Vec<Place>, arcs: &Vec<Arc>, t: Transition) -> (r: Vec<usize>)
    requires
        places@.no_duplicates(),
        forall|i: int| #![trigger arcs@[i]] 0 <= i < arcs@.len() ==> places@.contains(arcs@[i].place_of()),
    ensures
        forall|k: int| 0 <= k < r@.len() ==> #[trigger] r@[k] < places@.len(),
        forall|j: usize| #[trigger] r@.contains(j) <==> j < places@.len() && arc_between(
            arcs@.to_set(),
            places@[j as int],
            t,
        ),
        r@.len() == arcs@.filter(arc_at_transition(t)).len(),
{
    let mut r: Vec<usize> = Vec::new();
    let mut i: usize = 0;
    while i < arcs.len()
        invariant
            0 <= i <= arcs@.len(),
            places@.no_duplicates(),
            forall|i: int| #![trigger arcs@[i]] 0 <= i < arcs@.len() ==> places@.contains(arcs@[i].place_of()),
            forall|k: int| 0 <= k < r@.len() ==> #[trigger] r@[k] < places@.len(),
            forall|j: usize| #[trigger] r@.contains(j) <==> j < places@.len() && exists|k: int|
                0 <= k < i && (#[trigger] arcs@[k]).transition_of() == t && arcs@[k].place_of()
                    == places@[j as int],
            r@.len() == arcs@.take(i as int).filter(arc_at_transition(t)).len(),
        decreases arcs@.len() - i,
    {
        let a = arcs[i];
        proof {
            reveal(Seq::filter);
            assert(arcs@.take(i + 1).drop_last() == arcs@.take(i as int));
            assert(arcs@.take(i + 1).last() == arcs@[i as int]);
        }
        let (ap, at) = match a {
            Arc::PlaceToTransition(ap, at) => (ap, at),
            Arc::TransitionToPlace(at, ap) => (ap, at),
        };
        if at == t {
            match crate::net::vec_position_place(places, ap) {
                Some(j) => {
                    proof {
                        assert forall|j2: usize| #[trigger] r@.push(j).contains(j2) <==> j2 < places@.len() && exists|k: int|
                            0 <= k < i + 1 && (#[trigger] arcs@[k]).transition_of() == t && arcs@[k].place_of()
                                == places@[j2 as int] by {
                            if j2 < places@.len() && j2 != j && places@[j2 as int] == ap {
                                assert(places@[j as int] == places@[j2 as int]);
                            }
                            if j2 == j {
                                assert(arcs@[i as int].transition_of() == t);
                            }
                        }
                    }
                    r.push(j);
                },
                None => {
                    proof {
                        assert(places@.contains(arcs@[i as int].place_of()));
                    }
                },
            }
        } else {
            proof {
                assert forall|j2: usize| #[trigger] r@.contains(j2) <==> j2 < places@.len() && exists|k: int|
                    0 <= k < i + 1 && (#[trigger] arcs@[k]).transition_of() == t && arcs@[k].place_of()
                        == places@[j2 as int] by {
                    if j2 < places@.len() && exists|k: int|
                        0 <= k < i + 1 && (#[trigger] arcs@[k]).transition_of() == t && arcs@[k].place_of()
                            == places@[j2 as int] {
                        let k = choose|k: int|
                            0 <= k < i + 1 && (#[trigger] arcs@[k]).transition_of() == t && arcs@[k].place_of()
                                == places@[j2 as int];
                        assert(k != i);
                    }
                }
            }
        }
        i = i + 1;
    }
    proof {
        assert(arcs@.take(arcs@.len() as int) == arcs@);
        assert forall|j: usize| #[trigger] r@.contains(j) <==> j < places@.len() && arc_between(
            arcs@.to_set(),
            places@[j as int],
            t,
        ) by {
            if j < places@.len() && arc_between(arcs@.to_set(), places@[j as int], t) {
                let a = choose|a: Arc| arcs@.to_set().contains(a) && a.place_of() == places@[j as int] && a.transition_of() == t;
                let k = choose|k: int| 0 <= k < arcs@.len() && arcs@[k] == a;
                assert(arcs@[k].transition_of() == t);
            }
            if r@.contains(j) {
                let k = choose|k: int|
                    0 <= k < i && (#[trigger] arcs@[k]).transition_of() == t && arcs@[k].place_of()
                        == places@[j as int];
                assert(arcs@.to_set().contains(arcs@[k]));
            }
        }
    }
    r
}


/// The node a queue entry denotes: `(true, i)` is the `i`-th place, `(false, j)`
/// the `j`-th transition.
pub open spec fn entry_node(places: Seq<Place>, transitions: Seq<Transition>, q: (bool, usize)) -> Node {
    if q.0 {
        Node::Place(places[q.1 as int])
    } else {
        Node::Transition(transitions[q.1 as int])
    }
}

/// Whether a queue entry is in range.
pub open spec fn entry_in_range(np: nat, nt: nat, q: (bool, usize)) -> bool {
    if q.0 {
        q.1 < np
    } else {
        q.1 < nt
    }
}

spec fn entry_key(np: nat, q: (bool, usize)) -> int {
    if q.0 {
        q.1 as int
    } else {
        np + q.1
    }
}

/// Linking one node to a place extends along an arc to the arc's transition, and back.
proof fn lemma_linked_along_arc(arcs: Set<Arc>, x: Node, a: Arc)
    requires
        arcs.contains(a),
    ensures
        linked(arcs, x, Node::Place(a.place_of())) <==> linked(arcs, x, Node::Transition(a.transition_of())),
{
    assert forall|s: Set<Node>| #[trigger] closed_under(arcs, s) implies (s.contains(Node::Place(a.place_of()))
        <==> s.contains(Node::Transition(a.transition_of()))) by {}
}

/// A repetition-free queue of in-range entries missing some in-range entry is
/// shorter than the number of nodes.
proof fn lemma_queue_bound(q: Seq<(bool, usize)>, np: nat, nt: nat, x: (bool, usize))
    requires
        q.no_duplicates(),
        forall|k: int| 0 <= k < q.len() ==> entry_in_range(np, nt, #[trigger] q[k]),
        entry_in_range(np, nt, x),
        !q.contains(x),
    ensures
        q.len() < np + nt,
{
    let f = |e: (bool, usize)| entry_key(np, e);
    let m = q.map_values(f);
    assert forall|a: int, b: int| 0 <= a < b < m.len() implies m[a] != m[b] by {
        assert(q[a] != q[b]);
    }
    m.unique_seq_to_set();
    let range = vstd::set_lib::set_int_range(0, (np + nt) as int);
    vstd::set_lib::lemma_int_range(0, (np + nt) as int);
    assert forall|v: int| m.to_set().contains(v) implies range.remove(f(x)).contains(v) by {
        let k = choose|k: int| 0 <= k < m.len() && m[k] == v;
        assert(q[k] != x);
    }
    vstd::set_lib::lemma_len_subset(m.to_set(), range.remove(f(x)));
}

/// Whether every node of the net is linked to every other (weak connectivity).
pub fn is_connected(places: &Vec<Place>, transitions: &Vec<Transition>, arcs: &Vec<Arc>) -> (r: bool)
    requires
        topology_wf(places@, transitions@, arcs@),
        places@.len() > 0,
    ensures
        r == is_connected_spec(places@.to_set(), transitions@.to_set(), arcs@.to_set()),
{
    let ghost arcset = arcs@.to_set();
    let ghost ps = places@;
    let ghost ts = transitions@;
    let np = places.len();
    let nt = transitions.len();
    // Adjacency lists by position.
    let mut adj_p: Vec<Vec<usize>> = Vec::new();
    let mut i: usize = 0;
    while i < np
        invariant
            0 <= i <= np,
            np == ps.len(),
            ps == places@,
            ts == transitions@,
            arcset == arcs@.to_set(),
            topology_wf(places@, transitions@, arcs@),
            adj_p@.len() == i,
            forall|a: int, k: int| 0 <= a < i && 0 <= k < adj_p@[a]@.len() ==> #[trigger] adj_p@[a]@[k] < ts.len(),
            forall|a: int, j: usize| 0 <= a < i ==> (#[trigger] adj_p@[a]@.contains(j) <==> j < ts.len() && arc_between(arcset, ps[a], ts[j as int])),
        decreases np - i,
    {
        let nb = place_neighbors(transitions, arcs, places[i]);
        adj_p.push(nb);
        i = i + 1;
    }
    let mut adj_t: Vec<Vec<usize>> = Vec::new();
    let mut i: usize = 0;
    while i < nt
        invariant
            0 <= i <= nt,
            nt == ts.len(),
            ps == places@,
            ts == transitions@,
            arcset == arcs@.to_set(),
            topology_wf(places@, transitions@, arcs@),
            adj_t@.len() == i,
            forall|a: int, k: int| 0 <= a < i && 0 <= k < adj_t@[a]@.len() ==> #[trigger] adj_t@[a]@[k] < ps.len(),
            forall|a: int, j: usize| 0 <= a < i ==> (#[trigger] adj_t@[a]@.contains(j) <==> j < ps.len() && arc_between(arcset, ps[j as int], ts[a])),
        decreases nt - i,
    {
        let nb = transition_neighbors(places, arcs, transitions[i]);
        adj_t.push(nb);
        i = i + 1;
    }
    // Breadth-first search from the first place.
    let ghost start = Node::Place(ps[0]);
    let mut vis_p: Vec<bool> = Vec::new();
    let mut i: usize = 0;
    while i < np
        invariant
            0 <= i <= np,
            vis_p@.len() == i,
            forall|k: int| 0 <= k < i ==> !vis_p@[k],
        decreases np - i,
    {
        vis_p.push(false);
        i = i + 1;
    }
    let mut vis_t: Vec<bool> = Vec::new();
    let mut i: usize = 0;
    while i < nt
        invariant
            0 <= i <= nt,
            vis_t@.len() == i,
            forall|k: int| 0 <= k < i ==> !vis_t@[k],
        decreases nt - i,
    {
        vis_t.push(false);
        i = i + 1;
    }
    vis_p.set(0, true);
    let mut queue: Vec<(bool, usize)> = Vec::new();
    queue.push((true, 0));
    proof {
        assert forall|s: Set<Node>| #[trigger] closed_under(arcset, s) implies (s.contains(start) <==> s.contains(start)) by {}
        assert(queue@[0] == (true, 0usize));
    }
    let mut head: usize = 0;
    while head < queue.len()
        invariant
            np == ps.len(),
            nt == ts.len(),
            np > 0,
            ps == places@,
            ts == transitions@,
            arcset == arcs@.to_set(),
            start == Node::Place(ps[0]),
            topology_wf(places@, transitions@, arcs@),
            adj_p@.len() == np,
            adj_t@.len() == nt,
            forall|a: int, k: int| 0 <= a < np && 0 <= k < adj_p@[a]@.len() ==> #[trigger] adj_p@[a]@[k] < nt,
            forall|a: int, j: usize| 0 <= a < np ==> (#[trigger] adj_p@[a]@.contains(j) <==> j < nt && arc_between(arcset, ps[a], ts[j as int])),
            forall|a: int, k: int| 0 <= a < nt && 0 <= k < adj_t@[a]@.len() ==> #[trigger] adj_t@[a]@[k] < np,
            forall|a: int, j: usize| 0 <= a < nt ==> (#[trigger] adj_t@[a]@.contains(j) <==> j < np && arc_between(arcset, ps[j as int], ts[a])),
            vis_p@.len() == np,
            vis_t@.len() == nt,
            vis_p@[0],
            0 <= head <= queue@.len(),
            queue@.len() <= np + nt,
            queue@.no_duplicates(),
            forall|k: int| 0 <= k < queue@.len() ==> entry_in_range(np as nat, nt as nat, #[trigger] queue@[k]),
            forall|k: int| 0 <= k < queue@.len() ==> (if (#[trigger] queue@[k]).0 { vis_p@[queue@[k].1 as int] } else { vis_t@[queue@[k].1 as int] }),
            forall|a: int| 0 <= a < np && #[trigger] vis_p@[a] ==> queue@.contains((true, a as usize)),
            forall|a: int| 0 <= a < nt && #[trigger] vis_t@[a] ==> queue@.contains((false, a as usize)),
            forall|k: int, m: int| 0 <= k < head && (#[trigger] queue@[k]).0 && 0 <= m < adj_p@[queue@[k].1 as int]@.len() ==> vis_t@[#[trigger] adj_p@[queue@[k].1 as int]@[m] as int],
            forall|k: int, m: int| 0 <= k < head && !(#[trigger] queue@[k]).0 && 0 <= m < adj_t@[queue@[k].1 as int]@.len() ==> vis_p@[#[trigger] adj_t@[queue@[k].1 as int]@[m] as int],
            forall|a: int| 0 <= a < np && #[trigger] vis_p@[a] ==> linked(arcset, start, Node::Place(ps[a])),
            forall|a: int| 0 <= a < nt && #[trigger] vis_t@[a] ==> linked(arcset, start, Node::Transition(ts[a])),
        decreases np + nt - head,
    {
        let q = queue[head];
        if q.0 {
            let nb = &adj_p[q.1];
            let mut m: usize = 0;
            while m < nb.len()
                invariant
                    np == ps.len(),
                    nt == ts.len(),
                    np > 0,
                    ps == places@,
                    ts == transitions@,
                    arcset == arcs@.to_set(),
                    start == Node::Place(ps[0]),
                    q == queue@[head as int],
                    q.0,
                    q.1 < np,
                    vis_p@[q.1 as int],
                    *nb == adj_p@[q.1 as int],
                    adj_p@.len() == np,
                    adj_t@.len() == nt,
                    forall|a: int, k: int| 0 <= a < np && 0 <= k < adj_p@[a]@.len() ==> #[trigger] adj_p@[a]@[k] < nt,
                    forall|a: int, j: usize| 0 <= a < np ==> (#[trigger] adj_p@[a]@.contains(j) <==> j < nt && arc_between(arcset, ps[a], ts[j as int])),
                    forall|a: int, k: int| 0 <= a < nt && 0 <= k < adj_t@[a]@.len() ==> #[trigger] adj_t@[a]@[k] < np,
                    forall|a: int, j: usize| 0 <= a < nt ==> (#[trigger] adj_t@[a]@.contains(j) <==> j < np && arc_between(arcset, ps[j as int], ts[a])),
                    topology_wf(places@, transitions@, arcs@),
                    forall|k: int| 0 <= k < nb@.len() ==> #[trigger] nb@[k] < nt,
                    forall|j: usize| #[trigger] nb@.contains(j) <==> j < nt && arc_between(arcset, ps[q.1 as int], ts[j as int]),
                    vis_p@.len() == np,
                    vis_t@.len() == nt,
                    vis_p@[0],
                    0 <= head < queue@.len(),
                    queue@.len() <= np + nt,
                    queue@.no_duplicates(),
                    forall|k: int| 0 <= k < queue@.len() ==> entry_in_range(np as nat, nt as nat, #[trigger] queue@[k]),
                    forall|k: int| 0 <= k < queue@.len() ==> (if (#[trigger] queue@[k]).0 { vis_p@[queue@[k].1 as int] } else { vis_t@[queue@[k].1 as int] }),
                    forall|a: int| 0 <= a < np && #[trigger] vis_p@[a] ==> queue@.contains((true, a as usize)),
                    forall|a: int| 0 <= a < nt && #[trigger] vis_t@[a] ==> queue@.contains((false, a as usize)),
                    forall|k: int, m: int| 0 <= k < head && (#[trigger] queue@[k]).0 && 0 <= m < adj_p@[queue@[k].1 as int]@.len() ==> vis_t@[#[trigger] adj_p@[queue@[k].1 as int]@[m] as int],
                    forall|k: int, m: int| 0 <= k < head && !(#[trigger] queue@[k]).0 && 0 <= m < adj_t@[queue@[k].1 as int]@.len() ==> vis_p@[#[trigger] adj_t@[queue@[k].1 as int]@[m] as int],
                    forall|k: int| 0 <= k < m ==> vis_t@[#[trigger] nb@[k] as int],
                    forall|a: int| 0 <= a < np && #[trigger] vis_p@[a] ==> linked(arcset, start, Node::Place(ps[a])),
                    forall|a: int| 0 <= a < nt && #[trigger] vis_t@[a] ==> linked(arcset, start, Node::Transition(ts[a])),
                    0 <= m <= nb@.len(),
                decreases nb@.len() - m,
            {
                let j = nb[m];
                if !vis_t[j] {
                    proof {
                        assert(nb@.contains(j));
                        let a = choose|a: Arc| arcset.contains(a) && a.place_of() == ps[q.1 as int] && a.transition_of() == ts[j as int];
                        assert(linked(arcset, start, Node::Place(ps[q.1 as int])));
                        lemma_linked_along_arc(arcset, start, a);
                        if queue@.contains((false, j)) {
                            let k = choose|k: int| 0 <= k < queue@.len() && queue@[k] == (false, j);
                            assert(!queue@[k].0);
                        }
                        lemma_queue_bound(queue@, np as nat, nt as nat, (false, j));
                    }
                    let ghost old_vis = vis_t@;
                    let ghost old_queue = queue@;
                    vis_t.set(j, true);
                    queue.push((false, j));
                    proof {
                        assert forall|x: int| 0 <= x < old_vis.len() && old_vis[x] implies #[trigger] vis_t@[x] by {}
                        assert forall|k: int| 0 <= k < old_queue.len() implies #[trigger] queue@[k] == old_queue[k] by {}
                        assert forall|k: int, m: int| 0 <= k < head && (#[trigger] queue@[k]).0 && 0 <= m < adj_p@[queue@[k].1 as int]@.len() implies vis_t@[#[trigger] adj_p@[queue@[k].1 as int]@[m] as int] by {
                            assert(queue@[k] == old_queue[k]);
                            assert(entry_in_range(np as nat, nt as nat, old_queue[k]));
                            let x = adj_p@[old_queue[k].1 as int]@[m] as int;
                            assert(x < nt);
                            assert(old_vis[x]);
                            assert(vis_t@[x]);
                        }
                        assert(queue@[queue@.len() - 1] == (false, j));
                        assert forall|a: int, b: int| 0 <= a < b < queue@.len() implies queue@[a] != queue@[b] by {
                            if b == queue@.len() - 1 && queue@[a] == queue@[b] {
                                assert(old_queue_contains(queue@.drop_last(), (false, j)));
                            }
                        }
                    }
                }
                m = m + 1;
            }
        } else {
            let nb = &adj_t[q.1];
            let mut m: usize = 0;
            while m < nb.len()
                invariant
                    np == ps.len(),
                    nt == ts.len(),
                    np > 0,
                    ps == places@,
                    ts == transitions@,
                    arcset == arcs@.to_set(),
                    start == Node::Place(ps[0]),
                    q == queue@[head as int],
                    !q.0,
                    q.1 < nt,
                    vis_t@[q.1 as int],
                    *nb == adj_t@[q.1 as int],
                    adj_p@.len() == np,
                    adj_t@.len() == nt,
                    forall|a: int, k: int| 0 <= a < np && 0 <= k < adj_p@[a]@.len() ==> #[trigger] adj_p@[a]@[k] < nt,
                    forall|a: int, j: usize| 0 <= a < np ==> (#[trigger] adj_p@[a]@.contains(j) <==> j < nt && arc_between(arcset, ps[a], ts[j as int])),
                    forall|a: int, k: int| 0 <= a < nt && 0 <= k < adj_t@[a]@.len() ==> #[trigger] adj_t@[a]@[k] < np,
                    forall|a: int, j: usize| 0 <= a < nt ==> (#[trigger] adj_t@[a]@.contains(j) <==> j < np && arc_between(arcset, ps[j as int], ts[a])),
                    topology_wf(places@, transitions@, arcs@),
                    forall|k: int| 0 <= k < nb@.len() ==> #[trigger] nb@[k] < np,
                    forall|j: usize| #[trigger] nb@.contains(j) <==> j < np && arc_between(arcset, ps[j as int], ts[q.1 as int]),
                    vis_p@.len() == np,
                    vis_t@.len() == nt,
                    vis_p@[0],
                    0 <= head < queue@.len(),
                    queue@.len() <= np + nt,
                    queue@.no_duplicates(),
                    forall|k: int| 0 <= k < queue@.len() ==> entry_in_range(np as nat, nt as nat, #[trigger] queue@[k]),
                    forall|k: int| 0 <= k < queue@.len() ==> (if (#[trigger] queue@[k]).0 { vis_p@[queue@[k].1 as int] } else { vis_t@[queue@[k].1 as int] }),
                    forall|a: int| 0 <= a < np && #[trigger] vis_p@[a] ==> queue@.contains((true, a as usize)),
                    forall|a: int| 0 <= a < nt && #[trigger] vis_t@[a] ==> queue@.contains((false, a as usize)),
                    forall|k: int, m: int| 0 <= k < head && (#[trigger] queue@[k]).0 && 0 <= m < adj_p@[queue@[k].1 as int]@.len() ==> vis_t@[#[trigger] adj_p@[queue@[k].1 as int]@[m] as int],
                    forall|k: int, m: int| 0 <= k < head && !(#[trigger] queue@[k]).0 && 0 <= m < adj_t@[queue@[k].1 as int]@.len() ==> vis_p@[#[trigger] adj_t@[queue@[k].1 as int]@[m] as int],
                    forall|k: int| 0 <= k < m ==> vis_p@[#[trigger] nb@[k] as int],
                    forall|a: int| 0 <= a < np && #[trigger] vis_p@[a] ==> linked(arcset, start, Node::Place(ps[a])),
                    forall|a: int| 0 <= a < nt && #[trigger] vis_t@[a] ==> linked(arcset, start, Node::Transition(ts[a])),
                    0 <= m <= nb@.len(),
                decreases nb@.len() - m,
            {
                let j = nb[m];
                if !vis_p[j] {
                    proof {
                        assert(nb@.contains(j));
                        let a = choose|a: Arc| arcset.contains(a) && a.place_of() == ps[j as int] && a.transition_of() == ts[q.1 as int];
                        assert(linked(arcset, start, Node::Transition(ts[q.1 as int])));
                        lemma_linked_along_arc(arcset, start, a);
                        if queue@.contains((true, j)) {
                            let k = choose|k: int| 0 <= k < queue@.len() && queue@[k] == (true, j);
                            assert(queue@[k].0);
                        }
                        lemma_queue_bound(queue@, np as nat, nt as nat, (true, j));
                    }
                    let ghost old_vis = vis_p@;
                    let ghost old_queue = queue@;
                    vis_p.set(j, true);
                    queue.push((true, j));
                    proof {
                        assert forall|x: int| 0 <= x < old_vis.len() && old_vis[x] implies #[trigger] vis_p@[x] by {}
                        assert forall|k: int| 0 <= k < old_queue.len() implies #[trigger] queue@[k] == old_queue[k] by {}
                        assert forall|k: int, m: int| 0 <= k < head && !(#[trigger] queue@[k]).0 && 0 <= m < adj_t@[queue@[k].1 as int]@.len() implies vis_p@[#[trigger] adj_t@[queue@[k].1 as int]@[m] as int] by {
                            assert(queue@[k] == old_queue[k]);
                            assert(entry_in_range(np as nat, nt as nat, old_queue[k]));
                            let x = adj_t@[old_queue[k].1 as int]@[m] as int;
                            assert(x < np);
                            assert(old_vis[x]);
                            assert(vis_p@[x]);
                        }
                        assert(queue@[queue@.len() - 1] == (true, j));
                        assert forall|a: int, b: int| 0 <= a < b < queue@.len() implies queue@[a] != queue@[b] by {
                            if b == queue@.len() - 1 && queue@[a] == queue@[b] {
                                assert(old_queue_contains(queue@.drop_last(), (true, j)));
                            }
                        }
                    }
                }
                m = m + 1;
            }
        }
        head = head + 1;
    }
    // Every node visited?
    let mut all = true;
    let mut i: usize = 0;
    while i < np
        invariant
            0 <= i <= np,
            vis_p@.len() == np,
            all == forall|k: int| 0 <= k < i ==> vis_p@[k],
        decreases np - i,
    {
        if !vis_p[i] {
            all = false;
        }
        i = i + 1;
    }
    let mut i: usize = 0;
    while i < nt
        invariant
            0 <= i <= nt,
            vis_t@.len() == nt,
            vis_p@.len() == np,
            all == ((forall|k: int| 0 <= k < np ==> vis_p@[k]) && forall|k: int| 0 <= k < i ==> vis_t@[k]),
        decreases nt - i,
    {
        if !vis_t[i] {
            all = false;
        }
        i = i + 1;
    }
    proof {
        if all {
            assert forall|x: Node, y: Node|
                is_node_of(ps.to_set(), ts.to_set(), x) && is_node_of(ps.to_set(), ts.to_set(), y) implies #[trigger] linked(arcset, x, y) by {
                assert(linked(arcset, start, x)) by {
                    match x {
                        Node::Place(p) => {
                            let k = choose|k: int| 0 <= k < ps.len() && ps[k] == p;
                            assert(vis_p@[k]);
                        },
                        Node::Transition(t) => {
                            let k = choose|k: int| 0 <= k < ts.len() && ts[k] == t;
                            assert(vis_t@[k]);
                        },
                    }
                }
                assert(linked(arcset, start, y)) by {
                    match y {
                        Node::Place(p) => {
                            let k = choose|k: int| 0 <= k < ps.len() && ps[k] == p;
                            assert(vis_p@[k]);
                        },
                        Node::Transition(t) => {
                            let k = choose|k: int| 0 <= k < ts.len() && ts[k] == t;
                            assert(vis_t@[k]);
                        },
                    }
                }
                assert forall|s: Set<Node>| #[trigger] closed_under(arcset, s) implies (s.contains(x) <==> s.contains(y)) by {
                    assert(s.contains(start) <==> s.contains(x));
                    assert(s.contains(start) <==> s.contains(y));
                }
            }
        } else {
            let vs = Set::new(|n: Node|
                (exists|a: int| 0 <= a < np && vis_p@[a] && n == Node::Place(ps[a]))
                || (exists|a: int| 0 <= a < nt && vis_t@[a] && n == Node::Transition(ts[a])));
            assert forall|arc: Arc| #[trigger] arcset.contains(arc) implies (vs.contains(Node::Place(arc.place_of()))
                <==> vs.contains(Node::Transition(arc.transition_of()))) by {
                let k = choose|k: int| 0 <= k < arcs@.len() && arcs@[k] == arc;
                assert(ps.contains(arcs@[k].place_of()));
                let pi = choose|pi: int| 0 <= pi < ps.len() && ps[pi] == arc.place_of();
                let ti = choose|ti: int| 0 <= ti < ts.len() && ts[ti] == arc.transition_of();
                assert(arc_between(arcset, ps[pi], ts[ti]));
                assert(adj_p@[pi]@.contains(ti as usize));
                assert(adj_t@[ti]@.contains(pi as usize));
                if vs.contains(Node::Place(arc.place_of())) {
                    let a = choose|a: int| 0 <= a < np && vis_p@[a] && Node::Place(arc.place_of()) == Node::Place(ps[a]);
                    assert(a == pi);
                    assert(queue@.contains((true, pi as usize)));
                    let kq = choose|kq: int| 0 <= kq < queue@.len() && queue@[kq] == (true, pi as usize);
                    let mi = choose|mi: int| 0 <= mi < adj_p@[pi]@.len() && adj_p@[pi]@[mi] == ti as usize;
                    assert(vis_t@[adj_p@[queue@[kq].1 as int]@[mi] as int]);
                }
                if vs.contains(Node::Transition(arc.transition_of())) {
                    let a = choose|a: int| 0 <= a < nt && vis_t@[a] && Node::Transition(arc.transition_of()) == Node::Transition(ts[a]);
                    assert(a == ti);
                    assert(queue@.contains((false, ti as usize)));
                    let kq = choose|kq: int| 0 <= kq < queue@.len() && queue@[kq] == (false, ti as usize);
                    let mi = choose|mi: int| 0 <= mi < adj_t@[ti]@.len() && adj_t@[ti]@[mi] == pi as usize;
                    assert(vis_p@[adj_t@[queue@[kq].1 as int]@[mi] as int]);
                }
            }
            assert(closed_under(arcset, vs));
            assert(vs.contains(start));
            if exists|k: int| 0 <= k < np && !vis_p@[k] {
                let k = choose|k: int| 0 <= k < np && !vis_p@[k];
                let u = Node::Place(ps[k]);
                assert(!vs.contains(u));
                assert(ps.to_set().contains(ps[k]));
                assert(ps.to_set().contains(ps[0]));
                assert(!linked(arcset, start, u));
            } else {
                let k = choose|k: int| 0 <= k < nt && !vis_t@[k];
                let u = Node::Transition(ts[k]);
                assert(!vs.contains(u));
                assert(ts.to_set().contains(ts[k]));
                assert(ps.to_set().contains(ps[0]));
                assert(!linked(arcset, start, u));
            }
        }
    }
    all
}

spec fn old_queue_contains(q: Seq<(bool, usize)>, x: (bool, usize)) -> bool {
    q.contains(x)
}


/// Classifies a net given by its lists of nodes and arcs.
pub fn classify(places: &Vec<Place>, transitions: &Vec<Transition>, arcs: &Vec<Arc>) -> (r: Result<
    NetClass,
    NetError,
>)
    requires
        topology_wf(places@, transitions@, arcs@),
    ensures
        r == classify_result_spec(places@.to_set(), transitions@.to_set(), arcs@.to_set()),
{
    if places.len() == 0 || transitions.len() == 0 {
        proof {
            if places@.len() == 0 {
                assert(places@.to_set() =~= Set::empty());
            } else {
                assert(transitions@.to_set() =~= Set::empty());
            }
        }
        return Err(NetError::Degenerate);
    }
    proof {
        assert(places@.to_set().contains(places@[0]));
        assert(transitions@.to_set().contains(transitions@[0]));
    }
    if !is_connected(places, transitions, arcs) {
        return Err(NetError::NotConnected);
    }
    let sm = is_state_machine(transitions, arcs);
    let mg = is_marked_graph(places, arcs);
    if sm && mg {
        Ok(NetClass::Circuit)
    } else if sm {
        Ok(NetClass::StateMachine)
    } else if mg {
        Ok(NetClass::MarkedGraph)
    } else if is_free_choice(places, arcs) {
        Ok(NetClass::FreeChoice)
    } else if is_asymmetric_choice(places, arcs) {
        Ok(NetClass::AsymmetricChoice)
    } else {
        Ok(NetClass::General)
    }
}

} // verus!
