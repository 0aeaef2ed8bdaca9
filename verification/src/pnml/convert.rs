//! Conversion from the PNML data model to a native net and its initial
//! marking.
//!
//! Pages are flattened in document order. Reference nodes are resolved to the
//! place or transition they stand for, following chains of references; a
//! chain longer than the number of reference nodes must contain a cycle and
//! resolves to nothing.

use vstd::prelude::*;
use crate::builder::{NetBuilder, NetError};
use crate::class::classify_result_spec;
use crate::marking::{first_nonzero, Marking};
use crate::net::{Arc, Net, Place, Transition};
use crate::pnml::net::PnmlNet;
use crate::pnml::labels::{opt_view, LabelField, NetLabels};
use crate::pnml::{collect_net_entries, net_entries, pt_net_type, pt_net_uri, NodeEntry};

verus! {

broadcast use crate::net::lemma_place_with_id, crate::net::lemma_transition_with_id, crate::net::lemma_place_with_id_inj,
    crate::net::lemma_transition_with_id_inj;

/// Why a PNML net could not be converted.
#[derive(Debug, Clone, PartialEq, Eq)]
pub enum PnmlConversionError {
    /// The net's type URI is not that of place/transition nets.
    WrongNetType(String),
    /// An arc's endpoint resolves to no place or transition, or both endpoints
    /// are of the same kind.
    UnresolvedArcEndpoint { arc_id: String, endpoint_id: String },
    /// A reference node's target cannot be resolved.
    UnresolvedReference(String),
    /// Two places or transitions share an identifier.
    DuplicateId(String),
    /// The net is empty or not connected.
    InvalidTopology(NetError),
}

/// The text of each string.
pub open spec fn views(v: Seq<String>) -> Seq<Seq<char>> {
    v.map_values(|s: String| s@)
}

/// The identifiers of the place entries, in order.
pub open spec fn place_ids(es: Seq<NodeEntry>) -> Seq<Seq<char>>
    decreases es.len(),
{
    if es.len() == 0 {
        seq![]
    } else {
        let r = place_ids(es.drop_last());
        match es.last() {
            NodeEntry::Place(id, _, _) => r.push(id@),
            _ => r,
        }
    }
}

/// The initial token counts written on the place entries, in order.
pub open spec fn place_counts(es: Seq<NodeEntry>) -> Seq<Option<u64>>
    decreases es.len(),
{
    if es.len() == 0 {
        seq![]
    } else {
        let r = place_counts(es.drop_last());
        match es.last() {
            NodeEntry::Place(_, c, _) => r.push(c),
            _ => r,
        }
    }
}

/// The names of the place entries, in order.
pub open spec fn place_names(es: Seq<NodeEntry>) -> Seq<Option<String>>
    decreases es.len(),
{
    if es.len() == 0 {
        seq![]
    } else {
        let r = place_names(es.drop_last());
        match es.last() {
            NodeEntry::Place(_, _, n) => r.push(n),
            _ => r,
        }
    }
}

/// The names of the transition entries, in order.
pub open spec fn transition_names(es: Seq<NodeEntry>) -> Seq<Option<String>>
    decreases es.len(),
{
    if es.len() == 0 {
        seq![]
    } else {
        let r = transition_names(es.drop_last());
        match es.last() {
            NodeEntry::Transition(_, n) => r.push(n),
            _ => r,
        }
    }
}

/// The identifiers of the transition entries, in order.
pub open spec fn transition_ids(es: Seq<NodeEntry>) -> Seq<Seq<char>>
    decreases es.len(),
{
    if es.len() == 0 {
        seq![]
    } else {
        let r = transition_ids(es.drop_last());
        match es.last() {
            NodeEntry::Transition(id, _) => r.push(id@),
            _ => r,
        }
    }
}

/// The identifiers of the place and transition entries, in order.
pub open spec fn node_ids(es: Seq<NodeEntry>) -> Seq<Seq<char>>
    decreases es.len(),
{
    if es.len() == 0 {
        seq![]
    } else {
        let r = node_ids(es.drop_last());
        match es.last() {
            NodeEntry::Place(id, _, _) => r.push(id@),
            NodeEntry::Transition(id, _) => r.push(id@),
            _ => r,
        }
    }
}

/// The reference entries as (identifier, target) pairs, in order.
pub open spec fn references(es: Seq<NodeEntry>) -> Seq<(Seq<char>, Seq<char>)>
    decreases es.len(),
{
    if es.len() == 0 {
        seq![]
    } else {
        let r = references(es.drop_last());
        match es.last() {
            NodeEntry::Reference(id, to) => r.push((id@, to@)),
            _ => r,
        }
    }
}

/// The identifier of the first place or transition entry that repeats the
/// identifier of an earlier one.
pub open spec fn first_duplicate(es: Seq<NodeEntry>) -> Option<Seq<char>>
    decreases es.len(),
{
    if es.len() == 0 {
        None
    } else {
        let r = first_duplicate(es.drop_last());
        if r is Some {
            r
        } else {
            match es.last() {
                NodeEntry::Place(id, _, _) => if node_ids(es.drop_last()).contains(id@) { Some(id@) } else { None },
                NodeEntry::Transition(id, _) => if node_ids(es.drop_last()).contains(id@) { Some(id@) } else { None },
                _ => None,
            }
        }
    }
}

/// The target of the last reference entry with identifier `id`.
pub open spec fn reference_target(refs: Seq<(Seq<char>, Seq<char>)>, id: Seq<char>) -> Option<Seq<char>>
    decreases refs.len(),
{
    if refs.len() == 0 {
        None
    } else if refs.last().0 == id {
        Some(refs.last().1)
    } else {
        reference_target(refs.drop_last(), id)
    }
}

/// The place or transition identifier that `id` stands for, following at most
/// `fuel - 1` reference steps.
pub open spec fn resolve(es: Seq<NodeEntry>, id: Seq<char>, fuel: nat) -> Option<Seq<char>>
    decreases fuel,
{
    if fuel == 0 {
        None
    } else if node_ids(es).contains(id) {
        Some(id)
    } else {
        match reference_target(references(es), id) {
            Some(next) => resolve(es, next, (fuel - 1) as nat),
            None => None,
        }
    }
}

/// The place or transition identifier that `id` stands for.
pub open spec fn resolved(es: Seq<NodeEntry>, id: Seq<char>) -> Option<Seq<char>> {
    resolve(es, id, references(es).len() + 1)
}

/// The place handle given to the place entry with identifier `id`: places get
/// identifiers 1, 2, ... in document order.
pub open spec fn place_handle(es: Seq<NodeEntry>, id: Seq<char>) -> Place {
    Place::with_id((place_ids(es).index_of(id) + 1) as u32)
}

/// The transition handle given to the transition entry with identifier `id`.
pub open spec fn transition_handle(es: Seq<NodeEntry>, id: Seq<char>) -> Transition {
    Transition::with_id((transition_ids(es).index_of(id) + 1) as u32)
}

/// The arc that an arc entry denotes, or its identifier and the endpoint that
/// fails: the source if it resolves to nothing, else the target.
pub open spec fn arc_outcome(es: Seq<NodeEntry>, arc_id: Seq<char>, source: Seq<char>, target: Seq<char>) -> Result<Arc, (Seq<char>, Seq<char>)> {
    match resolved(es, source) {
        None => Err((arc_id, source)),
        Some(s) => match resolved(es, target) {
            None => Err((arc_id, target)),
            Some(t) => if place_ids(es).contains(s) && transition_ids(es).contains(t) {
                Ok(Arc::PlaceToTransition(place_handle(es, s), transition_handle(es, t)))
            } else if transition_ids(es).contains(s) && place_ids(es).contains(t) {
                Ok(Arc::TransitionToPlace(transition_handle(es, s), place_handle(es, t)))
            } else {
                Err((arc_id, target))
            },
        },
    }
}

/// The first arc entry of `prefix` that fails, with the failing endpoint.
pub open spec fn arc_failure(es: Seq<NodeEntry>, prefix: Seq<NodeEntry>) -> Option<(Seq<char>, Seq<char>)>
    decreases prefix.len(),
{
    if prefix.len() == 0 {
        None
    } else {
        let r = arc_failure(es, prefix.drop_last());
        if r is Some {
            r
        } else {
            match prefix.last() {
                NodeEntry::Arc(a, s, t, _) => match arc_outcome(es, a@, s@, t@) {
                    Err(e) => Some(e),
                    Ok(_) => None,
                },
                _ => None,
            }
        }
    }
}

/// The arcs that the arc entries of `prefix` denote.
pub open spec fn arcs_of(es: Seq<NodeEntry>, prefix: Seq<NodeEntry>) -> Set<Arc>
    decreases prefix.len(),
{
    if prefix.len() == 0 {
        Set::empty()
    } else {
        let r = arcs_of(es, prefix.drop_last());
        match prefix.last() {
            NodeEntry::Arc(a, s, t, _) => match arc_outcome(es, a@, s@, t@) {
                Ok(arc) => r.insert(arc),
                Err(_) => r,
            },
            _ => r,
        }
    }
}

/// The identifier of the last arc entry of `prefix` that denotes `a`.
pub open spec fn arc_id_label(es: Seq<NodeEntry>, prefix: Seq<NodeEntry>, a: Arc) -> Option<Seq<char>>
    decreases prefix.len(),
{
    if prefix.len() == 0 {
        None
    } else {
        match prefix.last() {
            NodeEntry::Arc(i, s, t, _) => if arc_outcome(es, i@, s@, t@) == Ok::<Arc, (Seq<char>, Seq<char>)>(a) {
                Some(i@)
            } else {
                arc_id_label(es, prefix.drop_last(), a)
            },
            _ => arc_id_label(es, prefix.drop_last(), a),
        }
    }
}

/// The name of the last named arc entry of `prefix` that denotes `a`.
pub open spec fn arc_name_label(es: Seq<NodeEntry>, prefix: Seq<NodeEntry>, a: Arc) -> Option<Seq<char>>
    decreases prefix.len(),
{
    if prefix.len() == 0 {
        None
    } else {
        match prefix.last() {
            NodeEntry::Arc(i, s, t, n) => if arc_outcome(es, i@, s@, t@) == Ok::<Arc, (Seq<char>, Seq<char>)>(a) && n is Some {
                opt_view(n)
            } else {
                arc_name_label(es, prefix.drop_last(), a)
            },
            _ => arc_name_label(es, prefix.drop_last(), a),
        }
    }
}

/// The places of the converted net: one per place entry.
pub open spec fn converted_places(es: Seq<NodeEntry>) -> Set<Place> {
    Set::new(|p: Place| 1 <= p.id() <= place_ids(es).len())
}

/// The transitions of the converted net: one per transition entry.
pub open spec fn converted_transitions(es: Seq<NodeEntry>) -> Set<Transition> {
    Set::new(|t: Transition| 1 <= t.id() <= transition_ids(es).len())
}

/// The tokens an initial count puts on a place: the count, capped at
/// `u32::MAX`, or none when no count is written.
pub open spec fn initial_tokens(c: Option<u64>) -> u32 {
    match c {
        Some(v) => if v > u32::MAX { u32::MAX } else { v as u32 },
        None => 0,
    }
}

/// The text of each pair of strings.
pub open spec fn pair_views(v: Seq<(String, String)>) -> Seq<(Seq<char>, Seq<char>)> {
    v.map_values(|p: (String, String)| (p.0@, p.1@))
}

/// Without a repeated identifier, places and transitions have distinct
/// identifiers, and the node identifiers are those of both.
pub(crate) proof fn lemma_ids_distinct(es: Seq<NodeEntry>)
    requires
        first_duplicate(es) is None,
    ensures
        node_ids(es).no_duplicates(),
        place_ids(es).no_duplicates(),
        transition_ids(es).no_duplicates(),
        forall|id: Seq<char>| #[trigger] node_ids(es).contains(id) <==> place_ids(es).contains(id) || transition_ids(es).contains(id),
        forall|id: Seq<char>| !(#[trigger] place_ids(es).contains(id) && transition_ids(es).contains(id)),
    decreases es.len(),
{
    if es.len() > 0 {
        let d = es.drop_last();
        lemma_ids_distinct(d);
        assert forall|id: Seq<char>| #[trigger] node_ids(es).contains(id) <==> place_ids(es).contains(id) || transition_ids(es).contains(id) by {
            match es.last() {
                NodeEntry::Place(x, _, _) => {
                    if id == x@ {
                        assert(node_ids(es).last() == id);
                        assert(place_ids(es).last() == id);
                    }
                    if node_ids(es).contains(id) && id != x@ {
                        let k = choose|k: int| 0 <= k < node_ids(es).len() && node_ids(es)[k] == id;
                        assert(node_ids(d).contains(id)) by { assert(node_ids(d)[k] == id); }
                    }
                    if place_ids(es).contains(id) && id != x@ {
                        let k = choose|k: int| 0 <= k < place_ids(es).len() && place_ids(es)[k] == id;
                        assert(place_ids(d).contains(id)) by { assert(place_ids(d)[k] == id); }
                    }
                    if node_ids(d).contains(id) {
                        let k = choose|k: int| 0 <= k < node_ids(d).len() && node_ids(d)[k] == id;
                        assert(node_ids(es)[k] == id);
                    }
                    if place_ids(d).contains(id) {
                        let k = choose|k: int| 0 <= k < place_ids(d).len() && place_ids(d)[k] == id;
                        assert(place_ids(es)[k] == id);
                    }
                },
                NodeEntry::Transition(x, _) => {
                    if id == x@ {
                        assert(node_ids(es).last() == id);
                        assert(transition_ids(es).last() == id);
                    }
                    if node_ids(es).contains(id) && id != x@ {
                        let k = choose|k: int| 0 <= k < node_ids(es).len() && node_ids(es)[k] == id;
                        assert(node_ids(d).contains(id)) by { assert(node_ids(d)[k] == id); }
                    }
                    if transition_ids(es).contains(id) && id != x@ {
                        let k = choose|k: int| 0 <= k < transition_ids(es).len() && transition_ids(es)[k] == id;
                        assert(transition_ids(d).contains(id)) by { assert(transition_ids(d)[k] == id); }
                    }
                    if node_ids(d).contains(id) {
                        let k = choose|k: int| 0 <= k < node_ids(d).len() && node_ids(d)[k] == id;
                        assert(node_ids(es)[k] == id);
                    }
                    if transition_ids(d).contains(id) {
                        let k = choose|k: int| 0 <= k < transition_ids(d).len() && transition_ids(d)[k] == id;
                        assert(transition_ids(es)[k] == id);
                    }
                },
                _ => {},
            }
        }
        assert forall|id: Seq<char>| !(#[trigger] place_ids(es).contains(id) && transition_ids(es).contains(id)) by {
            match es.last() {
                NodeEntry::Place(x, _, _) => {
                    assert(transition_ids(es) == transition_ids(d));
                    if place_ids(es).contains(id) && id != x@ {
                        let k = choose|k: int| 0 <= k < place_ids(es).len() && place_ids(es)[k] == id;
                        assert(place_ids(d)[k] == id);
                        assert(place_ids(d).contains(id));
                    }
                    if id == x@ {
                        assert(!node_ids(d).contains(x@));
                    }
                },
                NodeEntry::Transition(x, _) => {
                    assert(place_ids(es) == place_ids(d));
                    if transition_ids(es).contains(id) && id != x@ {
                        let k = choose|k: int| 0 <= k < transition_ids(es).len() && transition_ids(es)[k] == id;
                        assert(transition_ids(d)[k] == id);
                        assert(transition_ids(d).contains(id));
                    }
                    if id == x@ {
                        assert(!node_ids(d).contains(x@));
                    }
                },
                _ => {
                    assert(place_ids(es) == place_ids(d));
                    assert(transition_ids(es) == transition_ids(d));
                },
            }
        }
        match es.last() {
            NodeEntry::Place(x, _, _) => {
                assert(!node_ids(d).contains(x@));
                assert(!place_ids(d).contains(x@));
                assert(!transition_ids(d).contains(x@));
                assert forall|a: int, b: int| 0 <= a < b < node_ids(es).len() implies node_ids(es)[a] != node_ids(es)[b] by {
                    if b == node_ids(es).len() - 1 {
                        assert(node_ids(d).contains(node_ids(es)[a]));
                    }
                }
                assert forall|a: int, b: int| 0 <= a < b < place_ids(es).len() implies place_ids(es)[a] != place_ids(es)[b] by {
                    if b == place_ids(es).len() - 1 {
                        assert(place_ids(d).contains(place_ids(es)[a]));
                    }
                }
            },
            NodeEntry::Transition(x, _) => {
                assert(!node_ids(d).contains(x@));
                assert(!place_ids(d).contains(x@));
                assert(!transition_ids(d).contains(x@));
                assert forall|a: int, b: int| 0 <= a < b < node_ids(es).len() implies node_ids(es)[a] != node_ids(es)[b] by {
                    if b == node_ids(es).len() - 1 {
                        assert(node_ids(d).contains(node_ids(es)[a]));
                    }
                }
                assert forall|a: int, b: int| 0 <= a < b < transition_ids(es).len() implies transition_ids(es)[a] != transition_ids(es)[b] by {
                    if b == transition_ids(es).len() - 1 {
                        assert(transition_ids(d).contains(transition_ids(es)[a]));
                    }
                }
            },
            _ => {},
        }
    }
}

/// The counts of entries of each kind are bounded by the number of entries.
proof fn lemma_entry_counts(es: Seq<NodeEntry>)
    ensures
        place_ids(es).len() + transition_ids(es).len() + references(es).len() <= es.len(),
        place_counts(es).len() == place_ids(es).len(),
        place_names(es).len() == place_ids(es).len(),
        transition_names(es).len() == transition_ids(es).len(),
    decreases es.len(),
{
    if es.len() > 0 {
        lemma_entry_counts(es.drop_last());
    }
}

/// A repeated identifier found in a prefix is the first one of every longer prefix.
proof fn lemma_duplicate_stays(es: Seq<NodeEntry>, i: int, j: int)
    requires
        0 <= i <= j <= es.len(),
        first_duplicate(es.take(i)) is Some,
    ensures
        first_duplicate(es.take(j)) == first_duplicate(es.take(i)),
    decreases j - i,
{
    if j > i {
        lemma_duplicate_stays(es, i, j - 1);
        assert(es.take(j).drop_last() == es.take(j - 1));
    }
}

/// A failing arc found in a prefix is the first one of every longer prefix.
proof fn lemma_failure_stays(es: Seq<NodeEntry>, i: int, j: int)
    requires
        0 <= i <= j <= es.len(),
        arc_failure(es, es.take(i)) is Some,
    ensures
        arc_failure(es, es.take(j)) == arc_failure(es, es.take(i)),
    decreases j - i,
{
    if j > i {
        lemma_failure_stays(es, i, j - 1);
        assert(es.take(j).drop_last() == es.take(j - 1));
    }
}

/// On pairs with distinct places, a place's first non-zero count is its count.
proof fn lemma_first_nonzero_distinct(s: Seq<(Place, u32)>)
    requires
        forall|a: int, b: int| 0 <= a < b < s.len() ==> (#[trigger] s[a]).0 != (#[trigger] s[b]).0,
    ensures
        forall|k: int| 0 <= k < s.len() ==> first_nonzero(s, (#[trigger] s[k]).0) == s[k].1,
        forall|p: Place| (forall|k: int| 0 <= k < s.len() ==> (#[trigger] s[k]).0 != p) ==> first_nonzero(s, p) == 0,
    decreases s.len(),
{
    if s.len() > 0 {
        let d = s.drop_last();
        lemma_first_nonzero_distinct(d);
        assert forall|k: int| 0 <= k < s.len() implies first_nonzero(s, (#[trigger] s[k]).0) == s[k].1 by {
            let p = s[k].0;
            assert(first_nonzero(s, p) == (if first_nonzero(d, p) == 0u32 && s.last().0 == p { s.last().1 } else { first_nonzero(d, p) }));
            if k < s.len() - 1 {
                assert(d[k] == s[k]);
                assert(s.last().0 != s[k].0);
            } else {
                assert forall|j: int| 0 <= j < d.len() implies (#[trigger] d[j]).0 != s[k].0 by {
                    assert(d[j] == s[j]);
                }
            }
        }
        assert forall|p: Place| (forall|k: int| 0 <= k < s.len() ==> (#[trigger] s[k]).0 != p) implies first_nonzero(s, p) == 0 by {
            assert forall|j: int| 0 <= j < d.len() implies (#[trigger] d[j]).0 != p by {
                assert(d[j] == s[j]);
            }
            assert(s[s.len() - 1].0 != p);
            assert(first_nonzero(s, p) == (if first_nonzero(d, p) == 0u32 && s.last().0 == p { s.last().1 } else { first_nonzero(d, p) }));
        }
    }
}

/// The position of the first string of `v` with the text of `id`.
fn find_string(v: &Vec<String>, id: &String) -> (r: Option<usize>)
    ensures
        match r {
            Some(k) => k < v@.len() && v@[k as int]@ == id@ && forall|j: int| 0 <= j < k ==> (#[trigger] v@[j])@ != id@,
            None => forall|j: int| 0 <= j < v@.len() ==> (#[trigger] v@[j])@ != id@,
        },
{
    let mut k: usize = 0;
    while k < v.len()
        invariant
            0 <= k <= v@.len(),
            forall|j: int| 0 <= j < k ==> (#[trigger] v@[j])@ != id@,
        decreases v@.len() - k,
    {
        if v[k] == *id {
            return Some(k);
        }
        k = k + 1;
    }
    None
}

/// The position of the last pair of `refs` whose first string has the text of `id`.
fn last_reference(refs: &Vec<(String, String)>, id: &String) -> (r: Option<usize>)
    ensures
        match r {
            Some(k) => k < refs@.len() && reference_target(pair_views(refs@), id@) == Some(refs@[k as int].1@),
            None => reference_target(pair_views(refs@), id@) is None,
        },
{
    let ghost rv = pair_views(refs@);
    let mut j: usize = refs.len();
    proof {
        assert(rv.take(j as int) == rv);
    }
    while j > 0
        invariant
            0 <= j <= refs@.len(),
            rv == pair_views(refs@),
            reference_target(rv, id@) == reference_target(rv.take(j as int), id@),
        decreases j,
    {
        let k = j - 1;
        proof {
            assert(rv.take(j as int).drop_last() == rv.take(k as int));
            assert(rv.take(j as int).last() == rv[k as int]);
        }
        if refs[k].0 == *id {
            return Some(k);
        }
        j = k;
    }
    None
}

/// The place or transition identifier that `id` stands for, following at most
/// `fuel - 1` reference steps.
fn resolve_exec(nodes: &Vec<String>, refs: &Vec<(String, String)>, id: &String, fuel: usize, Ghost(es): Ghost<Seq<NodeEntry>>) -> (r: Option<String>)
    requires
        views(nodes@) == node_ids(es),
        pair_views(refs@) == references(es),
    ensures
        match r {
            Some(s) => resolve(es, id@, fuel as nat) == Some(s@),
            None => resolve(es, id@, fuel as nat) is None,
        },
{
    let mut cur: String = id.clone();
    let mut k: usize = fuel;
    while k > 0
        invariant
            views(nodes@) == node_ids(es),
            pair_views(refs@) == references(es),
            resolve(es, id@, fuel as nat) == resolve(es, cur@, k as nat),
        decreases k,
    {
        match find_string(nodes, &cur) {
            Some(i) => {
                proof {
                    assert(views(nodes@)[i as int] == cur@);
                }
                return Some(cur);
            },
            None => {
                proof {
                    assert(!node_ids(es).contains(cur@)) by {
                        if node_ids(es).contains(cur@) {
                            let i = choose|i: int| 0 <= i < node_ids(es).len() && node_ids(es)[i] == cur@;
                            assert(nodes@[i]@ == cur@);
                        }
                    }
                }
                match last_reference(refs, &cur) {
                    Some(j) => {
                        cur = refs[j].1.clone();
                        k = k - 1;
                    },
                    None => {
                        return None;
                    },
                }
            },
        }
    }
    None
}

/// The tokens an initial count puts on a place.
fn initial_tokens_exec(c: Option<u64>) -> (r: u32)
    ensures
        r == initial_tokens(c),
{
    match c {
        Some(v) => if v > 4294967295u64 { 4294967295u32 } else { v as u32 },
        None => 0,
    }
}

/// Whether `(net, m0)` is what converting `pnml` yields: its place and
/// transition entries become places and transitions numbered in document
/// order, its arc entries the arcs they denote, its initial markings the
/// tokens (capped), and its identifiers and names the net's labels.
pub open spec fn converts_to(pnml: PnmlNet, net: Net, m0: Marking<u32>) -> bool {
    let es = net_entries(pnml.pages@);
    &&& first_duplicate(es) is None
    &&& arc_failure(es, es) is None
    &&& classify_result_spec(converted_places(es), converted_transitions(es), arcs_of(es, es)) is Ok
    &&& net.wf()
    &&& net.place_set() == converted_places(es)
    &&& net.transition_set() == converted_transitions(es)
    &&& net.arc_set() == arcs_of(es, es)
    &&& m0.wf()
    &&& forall|k: int| 0 <= k < place_ids(es).len() ==> #[trigger] m0.count(Place::with_id((k + 1) as u32))
        == initial_tokens(place_counts(es)[k])
    &&& forall|p: Place| !converted_places(es).contains(p) ==> #[trigger] m0.count(p) == 0
    &&& net.labels_spec().net_id_spec() == Some(pnml.id@)
    &&& net.labels_spec().net_name_spec() == opt_view(pnml.name)
    &&& net.labels_spec().net_description_spec() is None
    &&& forall|k: int| 0 <= k < place_ids(es).len() ==> {
        &&& #[trigger] net.labels_spec().place_id_of(Place::with_id((k + 1) as u32)) == Some(place_ids(es)[k])
        &&& net.labels_spec().place_name_of(Place::with_id((k + 1) as u32)) == opt_view(place_names(es)[k])
    }
    &&& forall|p: Place| !converted_places(es).contains(p) ==> #[trigger] net.labels_spec().place_id_of(p) is None
        && net.labels_spec().place_name_of(p) is None
    &&& forall|k: int| 0 <= k < transition_ids(es).len() ==> {
        &&& #[trigger] net.labels_spec().transition_id_of(Transition::with_id((k + 1) as u32)) == Some(transition_ids(es)[k])
        &&& net.labels_spec().transition_name_of(Transition::with_id((k + 1) as u32)) == opt_view(transition_names(es)[k])
    }
    &&& forall|t: Transition| !converted_transitions(es).contains(t) ==> #[trigger] net.labels_spec().transition_id_of(t) is None
        && net.labels_spec().transition_name_of(t) is None
    &&& forall|a: Arc| #[trigger] net.labels_spec().arc_id_of(a) == arc_id_label(es, es, a)
        && net.labels_spec().arc_name_of(a) == arc_name_label(es, es, a)
}

/// Whether `r` is what converting `pnml` gives: the first duplicate place or
/// transition identifier, else the first failing arc, else the topology
/// error, else the converted net and marking.
pub open spec fn conversion_outcome(pnml: PnmlNet, r: Result<(Net, Marking<u32>), PnmlConversionError>) -> bool {
    let es = net_entries(pnml.pages@);
    match r {
        Err(PnmlConversionError::DuplicateId(id)) => first_duplicate(es) == Some(id@),
        Err(PnmlConversionError::UnresolvedArcEndpoint { arc_id, endpoint_id }) => first_duplicate(es) is None
            && arc_failure(es, es) == Some((arc_id@, endpoint_id@)),
        Err(PnmlConversionError::InvalidTopology(e)) => first_duplicate(es) is None && arc_failure(es, es) is None
            && classify_result_spec(converted_places(es), converted_transitions(es), arcs_of(es, es)) == Err::<crate::class::NetClass, NetError>(e),
        Err(_) => false,
        Ok((net, m0)) => converts_to(pnml, net, m0),
    }
}

/// Converts a place/transition net from the PNML data model into a native
/// net and its initial marking.
///
/// Fails with [`PnmlConversionError::DuplicateId`] on the first place or
/// transition (in document order) whose identifier an earlier one has; else
/// with [`PnmlConversionError::UnresolvedArcEndpoint`] on the first arc whose
/// source or target resolves to nothing, or that joins two nodes of one kind;
/// else with [`PnmlConversionError::InvalidTopology`] when the net is empty or
/// disconnected. Places and transitions get identifiers 1, 2, ... in document
/// order; a place's initial count is capped at `u32::MAX`.
pub fn convert_pt_net(pnml: &PnmlNet) -> (r: Result<(Net, Marking<u32>), PnmlConversionError>)
    requires
        net_entries(pnml.pages@).len() < u32::MAX,
    ensures
        conversion_outcome(*pnml, r),
{
    let es = collect_net_entries(&pnml.pages);
    let ghost e = es@;
    proof {
        lemma_entry_counts(e);
    }
    let mut nodes: Vec<String> = Vec::new();
    let mut pids: Vec<String> = Vec::new();
    let mut counts: Vec<Option<u64>> = Vec::new();
    let mut pnames: Vec<Option<String>> = Vec::new();
    let mut tnames: Vec<Option<String>> = Vec::new();
    let mut tids: Vec<String> = Vec::new();
    let mut refs: Vec<(String, String)> = Vec::new();
    let mut i: usize = 0;
    while i < es.len()
        invariant
            0 <= i <= es@.len(),
            e == es@,
            views(nodes@) == node_ids(e.take(i as int)),
            views(pids@) == place_ids(e.take(i as int)),
            counts@ == place_counts(e.take(i as int)),
            pnames@ == place_names(e.take(i as int)),
            tnames@ == transition_names(e.take(i as int)),
            views(tids@) == transition_ids(e.take(i as int)),
            pair_views(refs@) == references(e.take(i as int)),
            first_duplicate(e.take(i as int)) is None,
            e == net_entries(pnml.pages@),
        decreases es@.len() - i,
    {
        let ghost t = e.take(i + 1);
        proof {
            assert(t.drop_last() == e.take(i as int));
            assert(t.last() == e[i as int]);
        }
        match &es[i] {
            NodeEntry::Place(id, c, name) => {
                match find_string(&nodes, id) {
                    Some(k) => {
                        proof {
                            assert(views(nodes@)[k as int] == id@);
                            assert(first_duplicate(t) == Some(id@));
                            lemma_duplicate_stays(e, i + 1, e.len() as int);
                            assert(e.take(e.len() as int) == e);
                        }
                        return Err(PnmlConversionError::DuplicateId(id.clone()));
                    },
                    None => {
                        proof {
                            assert(!node_ids(e.take(i as int)).contains(id@)) by {
                                if node_ids(e.take(i as int)).contains(id@) {
                                    let k = choose|k: int| 0 <= k < views(nodes@).len() && views(nodes@)[k] == id@;
                                    assert(nodes@[k]@ == id@);
                                }
                            }
                        }
                        nodes.push(id.clone());
                        pids.push(id.clone());
                        counts.push(*c);
                        pnames.push(crate::pnml::copy_text(name));
                    },
                }
            },
            NodeEntry::Transition(id, name) => {
                match find_string(&nodes, id) {
                    Some(k) => {
                        proof {
                            assert(views(nodes@)[k as int] == id@);
                            assert(first_duplicate(t) == Some(id@));
                            lemma_duplicate_stays(e, i + 1, e.len() as int);
                            assert(e.take(e.len() as int) == e);
                        }
                        return Err(PnmlConversionError::DuplicateId(id.clone()));
                    },
                    None => {
                        proof {
                            assert(!node_ids(e.take(i as int)).contains(id@)) by {
                                if node_ids(e.take(i as int)).contains(id@) {
                                    let k = choose|k: int| 0 <= k < views(nodes@).len() && views(nodes@)[k] == id@;
                                    assert(nodes@[k]@ == id@);
                                }
                            }
                        }
                        nodes.push(id.clone());
                        tids.push(id.clone());
                        tnames.push(crate::pnml::copy_text(name));
                    },
                }
            },
            NodeEntry::Arc(_, _, _, _) => {},
            NodeEntry::Reference(id, to) => {
                refs.push((id.clone(), to.clone()));
            },
        }
        proof {
            assert(views(nodes@) =~= node_ids(t));
            assert(views(pids@) =~= place_ids(t));
            assert(counts@ =~= place_counts(t));
            assert(pnames@ =~= place_names(t));
            assert(tnames@ =~= transition_names(t));
            assert(views(tids@) =~= transition_ids(t));
            assert(pair_views(refs@) =~= references(t));
        }
        i = i + 1;
    }
    proof {
        assert(e.take(e.len() as int) == e);
        lemma_ids_distinct(e);
        lemma_entry_counts(e);
    }
    let np = pids.len();
    let nt = tids.len();
    let fuel = refs.len() + 1;
    let mut b = NetBuilder::new();
    let mut place_handles: Vec<Place> = Vec::new();
    let mut k: usize = 0;
    while k < np
        invariant
            0 <= k <= np,
            np == place_ids(e).len(),
            np < u32::MAX,
            b.wf(),
            place_handles@.len() == k,
            b.place_seq() == place_handles@,
            forall|x: int| 0 <= x < k ==> (#[trigger] place_handles@[x]).id() == x + 1,
            b.next_place_id() == k + 1,
            b.next_transition_id() == 1,
            b.transition_seq() == Seq::<Transition>::empty(),
            b.arc_seq() == Seq::<Arc>::empty(),
        decreases np - k,
    {
        let p = b.add_place();
        place_handles.push(p);
        k = k + 1;
    }
    let mut transition_handles: Vec<Transition> = Vec::new();
    let mut k: usize = 0;
    while k < nt
        invariant
            0 <= k <= nt,
            nt == transition_ids(e).len(),
            nt < u32::MAX,
            b.wf(),
            transition_handles@.len() == k,
            b.transition_seq() == transition_handles@,
            forall|x: int| 0 <= x < k ==> (#[trigger] transition_handles@[x]).id() == x + 1,
            b.next_transition_id() == k + 1,
            b.place_seq() == place_handles@,
            b.arc_seq() == Seq::<Arc>::empty(),
        decreases nt - k,
    {
        let t = b.add_transition();
        transition_handles.push(t);
        k = k + 1;
    }
    proof {
        assert forall|p: Place| b.place_set().contains(p) <==> #[trigger] converted_places(e).contains(p) by {
            if converted_places(e).contains(p) {
                let x = p.id() - 1;
                assert(place_handles@[x as int].id() == p.id());
                assert(place_handles@[x as int] == Place::with_id(p.id()));
                assert(b.place_seq().contains(p));
            }
            if b.place_set().contains(p) {
                let x = choose|x: int| 0 <= x < place_handles@.len() && place_handles@[x] == p;
            }
        }
        assert(b.place_set() =~= converted_places(e));
        assert forall|t: Transition| b.transition_set().contains(t) <==> #[trigger] converted_transitions(e).contains(t) by {
            if converted_transitions(e).contains(t) {
                let x = t.id() - 1;
                assert(transition_handles@[x as int].id() == t.id());
                assert(transition_handles@[x as int] == Transition::with_id(t.id()));
                assert(b.transition_seq().contains(t));
            }
            if b.transition_set().contains(t) {
                let x = choose|x: int| 0 <= x < transition_handles@.len() && transition_handles@[x] == t;
            }
        }
        assert(b.transition_set() =~= converted_transitions(e));
    }
    let mut labels = NetLabels::new();
    let mut i: usize = 0;
    while i < es.len()
        invariant
            0 <= i <= es@.len(),
            e == es@,
            views(nodes@) == node_ids(e),
            views(pids@) == place_ids(e),
            views(tids@) == transition_ids(e),
            pair_views(refs@) == references(e),
            fuel == references(e).len() + 1,
            first_duplicate(e) is None,
            node_ids(e).no_duplicates(),
            place_ids(e).no_duplicates(),
            transition_ids(e).no_duplicates(),
            forall|id: Seq<char>| #[trigger] node_ids(e).contains(id) <==> place_ids(e).contains(id) || transition_ids(e).contains(id),
            forall|id: Seq<char>| !(#[trigger] place_ids(e).contains(id) && transition_ids(e).contains(id)),
            b.wf(),
            b.place_set() == converted_places(e),
            b.transition_set() == converted_transitions(e),
            b.place_seq() == place_handles@,
            b.transition_seq() == transition_handles@,
            place_handles@.len() == place_ids(e).len(),
            transition_handles@.len() == transition_ids(e).len(),
            forall|x: int| 0 <= x < place_handles@.len() ==> (#[trigger] place_handles@[x]).id() == x + 1,
            forall|x: int| 0 <= x < transition_handles@.len() ==> (#[trigger] transition_handles@[x]).id() == x + 1,
            arc_failure(e, e.take(i as int)) is None,
            b.arc_set() == arcs_of(e, e.take(i as int)),
            forall|a: Arc| #[trigger] labels.arc_id_of(a) == arc_id_label(e, e.take(i as int), a)
                && labels.arc_name_of(a) == arc_name_label(e, e.take(i as int), a),
            forall|p: Place| #[trigger] labels.place_id_of(p) is None && labels.place_name_of(p) is None,
            forall|t: Transition| #[trigger] labels.transition_id_of(t) is None && labels.transition_name_of(t) is None,
            labels.net_id_spec() is None,
            labels.net_name_spec() is None,
            labels.net_description_spec() is None,
            e == net_entries(pnml.pages@),
        decreases es@.len() - i,
    {
        let ghost t = e.take(i + 1);
        proof {
            assert(t.drop_last() == e.take(i as int));
            assert(t.last() == e[i as int]);
        }
        match &es[i] {
            NodeEntry::Arc(aid, src, tgt, aname) => {
                let rs = resolve_exec(&nodes, &refs, src, fuel, Ghost(e));
                match rs {
                    None => {
                        proof {
                            assert(arc_failure(e, t) == Some((aid@, src@)));
                            lemma_failure_stays(e, i + 1, e.len() as int);
                            assert(e.take(e.len() as int) == e);
                        }
                        return Err(PnmlConversionError::UnresolvedArcEndpoint { arc_id: aid.clone(), endpoint_id: src.clone() });
                    },
                    Some(s) => {
                        let rt = resolve_exec(&nodes, &refs, tgt, fuel, Ghost(e));
                        match rt {
                            None => {
                                proof {
                                    assert(arc_failure(e, t) == Some((aid@, tgt@)));
                                    lemma_failure_stays(e, i + 1, e.len() as int);
                                    assert(e.take(e.len() as int) == e);
                                }
                                return Err(PnmlConversionError::UnresolvedArcEndpoint { arc_id: aid.clone(), endpoint_id: tgt.clone() });
                            },
                            Some(tg) => {
                                let sp = find_string(&pids, &s);
                                let st = find_string(&tids, &s);
                                let tp = find_string(&pids, &tg);
                                let tt = find_string(&tids, &tg);
                                proof {
                                    assert(sp is Some <==> place_ids(e).contains(s@)) by {
                                        if place_ids(e).contains(s@) {
                                            let x = choose|x: int| 0 <= x < place_ids(e).len() && place_ids(e)[x] == s@;
                                            assert(pids@[x]@ == s@);
                                        }
                                        if let Some(x) = sp {
                                            assert(place_ids(e)[x as int] == s@);
                                        }
                                    }
                                    assert(st is Some <==> transition_ids(e).contains(s@)) by {
                                        if transition_ids(e).contains(s@) {
                                            let x = choose|x: int| 0 <= x < transition_ids(e).len() && transition_ids(e)[x] == s@;
                                            assert(tids@[x]@ == s@);
                                        }
                                        if let Some(x) = st {
                                            assert(transition_ids(e)[x as int] == s@);
                                        }
                                    }
                                    assert(tp is Some <==> place_ids(e).contains(tg@)) by {
                                        if place_ids(e).contains(tg@) {
                                            let x = choose|x: int| 0 <= x < place_ids(e).len() && place_ids(e)[x] == tg@;
                                            assert(pids@[x]@ == tg@);
                                        }
                                        if let Some(x) = tp {
                                            assert(place_ids(e)[x as int] == tg@);
                                        }
                                    }
                                    assert(tt is Some <==> transition_ids(e).contains(tg@)) by {
                                        if transition_ids(e).contains(tg@) {
                                            let x = choose|x: int| 0 <= x < transition_ids(e).len() && transition_ids(e)[x] == tg@;
                                            assert(tids@[x]@ == tg@);
                                        }
                                        if let Some(x) = tt {
                                            assert(transition_ids(e)[x as int] == tg@);
                                        }
                                    }
                                }
                                let arc = if sp.is_some() && tt.is_some() {
                                    let x = sp.unwrap();
                                    let y = tt.unwrap();
                                    proof {
                                        assert(place_ids(e)[x as int] == s@);
                                        assert(place_ids(e).index_of(s@) == x);
                                        assert(transition_ids(e)[y as int] == tg@);
                                        assert(transition_ids(e).index_of(tg@) == y);
                                        assert(place_handles@[x as int] == Place::with_id((x + 1) as u32));
                                        assert(transition_handles@[y as int] == Transition::with_id((y + 1) as u32));
                                    }
                                    Arc::PlaceToTransition(place_handles[x], transition_handles[y])
                                } else if st.is_some() && tp.is_some() {
                                    let x = tp.unwrap();
                                    let y = st.unwrap();
                                    proof {
                                        assert(place_ids(e)[x as int] == tg@);
                                        assert(place_ids(e).index_of(tg@) == x);
                                        assert(transition_ids(e)[y as int] == s@);
                                        assert(transition_ids(e).index_of(s@) == y);
                                        assert(place_handles@[x as int] == Place::with_id((x + 1) as u32));
                                        assert(transition_handles@[y as int] == Transition::with_id((y + 1) as u32));
                                    }
                                    Arc::TransitionToPlace(transition_handles[y], place_handles[x])
                                } else {
                                    proof {
                                        assert(arc_failure(e, t) == Some((aid@, tgt@)));
                                        lemma_failure_stays(e, i + 1, e.len() as int);
                                        assert(e.take(e.len() as int) == e);
                                    }
                                    return Err(PnmlConversionError::UnresolvedArcEndpoint { arc_id: aid.clone(), endpoint_id: tgt.clone() });
                                };
                                proof {
                                    assert(arc_outcome(e, aid@, src@, tgt@) == Ok::<Arc, (Seq<char>, Seq<char>)>(arc));
                                    assert(b.place_set().contains(arc.place_of()));
                                    assert(b.transition_set().contains(arc.transition_of()));
                                }
                                let ghost old_arcs = b.arc_set();
                                let ghost old_seq = b.arc_seq();
                                let added = b.add_arc(arc);
                                proof {
                                    assert forall|x: Arc| b.arc_set().contains(x) <==> #[trigger] old_arcs.insert(arc).contains(x) by {
                                        if added {
                                            if b.arc_seq().contains(x) {
                                                let j = choose|j: int| 0 <= j < b.arc_seq().len() && b.arc_seq()[j] == x;
                                                if j < old_seq.len() {
                                                    assert(old_seq[j] == x);
                                                }
                                            }
                                            if old_seq.contains(x) {
                                                let j = choose|j: int| 0 <= j < old_seq.len() && old_seq[j] == x;
                                                assert(b.arc_seq()[j] == x);
                                            }
                                            if x == arc {
                                                assert(b.arc_seq()[old_seq.len() as int] == arc);
                                            }
                                        }
                                    }
                                    assert(b.arc_set() =~= old_arcs.insert(arc));
                                }
                                let ghost l0 = labels;
                                labels.set_arc_id(arc, aid.as_str());
                                let ghost l1 = labels;
                                match aname {
                                    Some(n) => {
                                        labels.set_arc_name(arc, n.as_str());
                                    },
                                    None => {},
                                }
                                proof {
                                    assert forall|a: Arc| #[trigger] labels.arc_id_of(a) == arc_id_label(e, t, a)
                                        && labels.arc_name_of(a) == arc_name_label(e, t, a) by {
                                        assert(l1.arc_name_of(a) == l0.arc_name_of(a));
                                        assert(labels.arc_id_of(a) == l1.arc_id_of(a));
                                    }
                                }
                            },
                        }
                    },
                }
            },
            _ => {},
        }
        proof {
            assert(arcs_of(e, t) == b.arc_set());
            assert forall|a: Arc| #[trigger] labels.arc_id_of(a) == arc_id_label(e, t, a)
                && labels.arc_name_of(a) == arc_name_label(e, t, a) by {
            }
        }
        i = i + 1;
    }
    proof {
        assert(e.take(e.len() as int) == e);
    }
    let mut net = match b.build() {
        Ok(net) => net,
        Err(err) => {
            return Err(PnmlConversionError::InvalidTopology(err));
        },
    };
    proof {
        lemma_entry_counts(e);
    }
    let mut k: usize = 0;
    while k < np
        invariant
            0 <= k <= np,
            np == place_handles@.len(),
            place_handles@.len() == place_ids(e).len(),
            pnames@ == place_names(e),
            place_names(e).len() == place_ids(e).len(),
            views(pids@) == place_ids(e),
            forall|x: int| 0 <= x < place_handles@.len() ==> (#[trigger] place_handles@[x]).id() == x + 1,
            forall|x: int| 0 <= x < k ==> {
                &&& #[trigger] labels.place_id_of(Place::with_id((x + 1) as u32)) == Some(place_ids(e)[x])
                &&& labels.place_name_of(Place::with_id((x + 1) as u32)) == opt_view(place_names(e)[x])
            },
            forall|p: Place| !(1 <= p.id() <= k) ==> #[trigger] labels.place_id_of(p) is None && labels.place_name_of(p) is None,
            forall|a: Arc| #[trigger] labels.arc_id_of(a) == arc_id_label(e, e, a) && labels.arc_name_of(a) == arc_name_label(e, e, a),
            forall|t: Transition| #[trigger] labels.transition_id_of(t) is None && labels.transition_name_of(t) is None,
            labels.net_id_spec() is None,
            labels.net_name_spec() is None,
            labels.net_description_spec() is None,
        decreases np - k,
    {
        let h = place_handles[k];
        proof {
            assert(h == Place::with_id((k + 1) as u32));
            assert(pids@[k as int]@ == place_ids(e)[k as int]);
        }
        let ghost l0 = labels;
        proof {
            assert(l0.place_id_of(h) is None);
        }
        labels.set_place_id(&h, pids[k].as_str());
        let ghost l1 = labels;
        proof {
            assert(l1.place_name_of(h) == l0.place_name_of(h));
        }
        match &pnames[k] {
            Some(n) => {
                labels.set_place_name(h, n.as_str());
            },
            None => {},
        }
        proof {
            assert forall|x: int| 0 <= x < k + 1 implies {
                &&& #[trigger] labels.place_id_of(Place::with_id((x + 1) as u32)) == Some(place_ids(e)[x])
                &&& labels.place_name_of(Place::with_id((x + 1) as u32)) == opt_view(place_names(e)[x])
            } by {
                let q = Place::with_id((x + 1) as u32);
                assert(labels.place_id_of(q) == l1.place_id_of(q));
                if x < k {
                    assert(q != h);
                    assert(l1.place_id_of(q) == l0.place_id_of(q));
                    assert(l1.place_name_of(q) == l0.place_name_of(q));
                    assert(labels.place_name_of(q) == l1.place_name_of(q));
                } else {
                    assert(pnames@[k as int] == place_names(e)[k as int]);
                }
            }
        }
        k = k + 1;
    }
    let mut k: usize = 0;
    while k < nt
        invariant
            0 <= k <= nt,
            nt == transition_handles@.len(),
            transition_handles@.len() == transition_ids(e).len(),
            tnames@ == transition_names(e),
            transition_names(e).len() == transition_ids(e).len(),
            views(tids@) == transition_ids(e),
            forall|x: int| 0 <= x < transition_handles@.len() ==> (#[trigger] transition_handles@[x]).id() == x + 1,
            forall|x: int| 0 <= x < k ==> {
                &&& #[trigger] labels.transition_id_of(Transition::with_id((x + 1) as u32)) == Some(transition_ids(e)[x])
                &&& labels.transition_name_of(Transition::with_id((x + 1) as u32)) == opt_view(transition_names(e)[x])
            },
            forall|t: Transition| !(1 <= t.id() <= k) ==> #[trigger] labels.transition_id_of(t) is None && labels.transition_name_of(t) is None,
            forall|x: int| 0 <= x < place_ids(e).len() ==> {
                &&& #[trigger] labels.place_id_of(Place::with_id((x + 1) as u32)) == Some(place_ids(e)[x])
                &&& labels.place_name_of(Place::with_id((x + 1) as u32)) == opt_view(place_names(e)[x])
            },
            forall|p: Place| !(1 <= p.id() <= place_ids(e).len()) ==> #[trigger] labels.place_id_of(p) is None && labels.place_name_of(p) is None,
            forall|a: Arc| #[trigger] labels.arc_id_of(a) == arc_id_label(e, e, a) && labels.arc_name_of(a) == arc_name_label(e, e, a),
            labels.net_id_spec() is None,
            labels.net_name_spec() is None,
            labels.net_description_spec() is None,
        decreases nt - k,
    {
        let h = transition_handles[k];
        proof {
            assert(h == Transition::with_id((k + 1) as u32));
            assert(tids@[k as int]@ == transition_ids(e)[k as int]);
        }
        let ghost l0 = labels;
        proof {
            assert(l0.transition_id_of(h) is None);
        }
        labels.set_transition_id(h, tids[k].as_str());
        let ghost l1 = labels;
        proof {
            assert(l1.transition_name_of(h) == l0.transition_name_of(h));
        }
        match &tnames[k] {
            Some(n) => {
                labels.set_transition_name(h, n.as_str());
            },
            None => {},
        }
        proof {
            assert forall|x: int| 0 <= x < k + 1 implies {
                &&& #[trigger] labels.transition_id_of(Transition::with_id((x + 1) as u32)) == Some(transition_ids(e)[x])
                &&& labels.transition_name_of(Transition::with_id((x + 1) as u32)) == opt_view(transition_names(e)[x])
            } by {
                let q = Transition::with_id((x + 1) as u32);
                assert(labels.transition_id_of(q) == l1.transition_id_of(q));
                if x < k {
                    assert(q != h);
                    assert(l1.transition_id_of(q) == l0.transition_id_of(q));
                    assert(l1.transition_name_of(q) == l0.transition_name_of(q));
                    assert(labels.transition_name_of(q) == l1.transition_name_of(q));
                } else {
                    assert(tnames@[k as int] == transition_names(e)[k as int]);
                }
            }
        }
        k = k + 1;
    }
    labels.set_net_id(pnml.id.as_str());
    match &pnml.name {
        Some(n) => {
            labels.set_net_name(n.as_str());
        },
        None => {},
    }
    net.set_labels(labels);
    let mut entries: Vec<(Place, u32)> = Vec::new();
    let mut k: usize = 0;
    while k < np
        invariant
            0 <= k <= np,
            np == place_handles@.len(),
            counts@ == place_counts(e),
            place_counts(e).len() == place_ids(e).len(),
            place_handles@.len() == place_ids(e).len(),
            forall|x: int| 0 <= x < place_handles@.len() ==> (#[trigger] place_handles@[x]).id() == x + 1,
            entries@.len() == k,
            forall|x: int| 0 <= x < k ==> (#[trigger] entries@[x]) == (place_handles@[x], initial_tokens(counts@[x])),
        decreases np - k,
    {
        let c = initial_tokens_exec(counts[k]);
        entries.push((place_handles[k], c));
        k = k + 1;
    }
    let ghost ent = entries@;
    let m0 = Marking::from_entries(entries);
    proof {
        assert forall|a: int, b2: int| 0 <= a < b2 < ent.len() implies (#[trigger] ent[a]).0 != (#[trigger] ent[b2]).0 by {
            assert(ent[a].0.id() != ent[b2].0.id());
        }
        lemma_first_nonzero_distinct(ent);
        assert forall|x: int| 0 <= x < place_ids(e).len() implies #[trigger] m0.count(Place::with_id((x + 1) as u32))
            == initial_tokens(place_counts(e)[x]) by {
            assert(ent[x].0 == Place::with_id((x + 1) as u32));
        }
        assert forall|p: Place| !converted_places(e).contains(p) implies #[trigger] m0.count(p) == 0 by {
            assert forall|x: int| 0 <= x < ent.len() implies (#[trigger] ent[x]).0 != p by {
                assert(ent[x].0.id() == x + 1);
            }
        }
    }
    Ok((net, m0))
}

impl PnmlNet {
    /// Converts this net into a native net and its initial marking, provided
    /// its type URI is that of place/transition nets.
    ///
    /// Fails with [`PnmlConversionError::WrongNetType`] otherwise, and as
    /// [`convert_pt_net`] does on a place/transition net.
    pub fn to_pt_system(&self) -> (r: Result<(Net, Marking<u32>), PnmlConversionError>)
        requires
            net_entries(self.pages@).len() < u32::MAX,
        ensures
            self.net_type@ != pt_net_type() <==> r == Err::<(Net, Marking<u32>), PnmlConversionError>(PnmlConversionError::WrongNetType(self.net_type)),
            self.net_type@ == pt_net_type() ==> conversion_outcome(*self, r),
    {
        let uri = pt_net_uri();
        if self.net_type != uri {
            return Err(PnmlConversionError::WrongNetType(self.net_type.clone()));
        }
        convert_pt_net(self)
    }
}

} // verus!
