//! Human-readable labels of a net's elements: names and document identifiers
//! of places, transitions and arcs, and the net's own name, identifier and
//! description. They carry a PNML document's identifiers and names through
//! conversion and export.

use vstd::prelude::*;
use crate::net::{Arc, Place, Transition};

verus! {

/// The text of an optional string.
pub open spec fn opt_view(o: Option<String>) -> Option<Seq<char>> {
    match o {
        Some(s) => Some(s@),
        None => None,
    }
}

/// The label most recently recorded for key `k` in a log of
/// (key, label-or-cleared) entries.
pub open spec fn latest<K>(entries: Seq<(K, Option<String>)>, k: K) -> Option<Seq<char>>
    decreases entries.len(),
{
    if entries.len() == 0 {
        None
    } else if entries.last().0 == k {
        opt_view(entries.last().1)
    } else {
        latest(entries.drop_last(), k)
    }
}

/// The kinds of label a net carries.
#[derive(Debug, Clone, Copy, PartialEq, Eq, Structural)]
pub enum LabelField {
    PlaceName,
    PlaceId,
    TransitionName,
    TransitionId,
    ArcName,
    ArcId,
    NetName,
    NetId,
    NetDescription,
}

/// Names, identifiers and a description for a net and its elements. Each
/// keyed label is kept as a log; a key's label is its latest entry.
#[derive(Debug, Clone)]
pub struct NetLabels {
    place_names: Vec<(Place, Option<String>)>,
    place_ids: Vec<(Place, Option<String>)>,
    transition_names: Vec<(Transition, Option<String>)>,
    transition_ids: Vec<(Transition, Option<String>)>,
    arc_names: Vec<(Arc, Option<String>)>,
    arc_ids: Vec<(Arc, Option<String>)>,
    net_name: Option<String>,
    net_id: Option<String>,
    net_description: Option<String>,
}

/// The position of the latest entry for `k`.
fn find_place(entries: &Vec<(Place, Option<String>)>, k: Place) -> (r: Option<usize>)
    ensures
        match r {
            Some(i) => i < entries@.len() && latest(entries@, k) == opt_view(entries@[i as int].1)
                && entries@[i as int].0 == k && forall|j: int| i < j < entries@.len() ==> (#[trigger] entries@[j]).0 != k,
            None => latest(entries@, k) is None && forall|j: int| 0 <= j < entries@.len() ==> (#[trigger] entries@[j]).0 != k,
        },
{
    let mut j: usize = entries.len();
    proof {
        assert(entries@.take(j as int) == entries@);
    }
    while j > 0
        invariant
            0 <= j <= entries@.len(),
            latest(entries@, k) == latest(entries@.take(j as int), k),
            forall|i: int| j <= i < entries@.len() ==> (#[trigger] entries@[i]).0 != k,
        decreases j,
    {
        proof {
            assert(entries@.take(j as int).drop_last() == entries@.take(j - 1));
            assert(entries@.take(j as int).last() == entries@[j - 1]);
        }
        if entries[j - 1].0 == k {
            return Some(j - 1);
        }
        j = j - 1;
    }
    None
}

/// The position of the latest entry for `k`.
fn find_transition(entries: &Vec<(Transition, Option<String>)>, k: Transition) -> (r: Option<usize>)
    ensures
        match r {
            Some(i) => i < entries@.len() && latest(entries@, k) == opt_view(entries@[i as int].1)
                && entries@[i as int].0 == k && forall|j: int| i < j < entries@.len() ==> (#[trigger] entries@[j]).0 != k,
            None => latest(entries@, k) is None && forall|j: int| 0 <= j < entries@.len() ==> (#[trigger] entries@[j]).0 != k,
        },
{
    let mut j: usize = entries.len();
    proof {
        assert(entries@.take(j as int) == entries@);
    }
    while j > 0
        invariant
            0 <= j <= entries@.len(),
            latest(entries@, k) == latest(entries@.take(j as int), k),
            forall|i: int| j <= i < entries@.len() ==> (#[trigger] entries@[i]).0 != k,
        decreases j,
    {
        proof {
            assert(entries@.take(j as int).drop_last() == entries@.take(j - 1));
            assert(entries@.take(j as int).last() == entries@[j - 1]);
        }
        if entries[j - 1].0 == k {
            return Some(j - 1);
        }
        j = j - 1;
    }
    None
}

/// The position of the latest entry for `k`.
fn find_arc(entries: &Vec<(Arc, Option<String>)>, k: Arc) -> (r: Option<usize>)
    ensures
        match r {
            Some(i) => i < entries@.len() && latest(entries@, k) == opt_view(entries@[i as int].1)
                && entries@[i as int].0 == k && forall|j: int| i < j < entries@.len() ==> (#[trigger] entries@[j]).0 != k,
            None => latest(entries@, k) is None && forall|j: int| 0 <= j < entries@.len() ==> (#[trigger] entries@[j]).0 != k,
        },
{
    let mut j: usize = entries.len();
    proof {
        assert(entries@.take(j as int) == entries@);
    }
    while j > 0
        invariant
            0 <= j <= entries@.len(),
            latest(entries@, k) == latest(entries@.take(j as int), k),
            forall|i: int| j <= i < entries@.len() ==> (#[trigger] entries@[i]).0 != k,
        decreases j,
    {
        proof {
            assert(entries@.take(j as int).drop_last() == entries@.take(j - 1));
            assert(entries@.take(j as int).last() == entries@[j - 1]);
        }
        if entries[j - 1].0 == k {
            return Some(j - 1);
        }
        j = j - 1;
    }
    None
}

/// The text held at an entry, as a borrowed string.
fn entry_text<K>(entries: &Vec<(K, Option<String>)>, i: Option<usize>) -> (r: Option<&str>)
    requires
        i matches Some(k) ==> k < entries@.len(),
    ensures
        match i {
            Some(k) => match entries@[k as int].1 {
                Some(s) => r matches Some(x) && x@ == s@,
                None => r is None,
            },
            None => r is None,
        },
{
    match i {
        Some(k) => match &entries[k].1 {
            Some(s) => Some(s.as_str()),
            None => None,
        },
        None => None,
    }
}

/// The text of a borrowed optional string.
pub open spec fn opt_str_view(o: Option<&str>) -> Option<Seq<char>> {
    match o {
        Some(s) => Some(s@),
        None => None,
    }
}

impl NetLabels {
    /// The name of place `p`.
    pub closed spec fn place_name_of(&self, p: Place) -> Option<Seq<char>> {
        latest(self.place_names@, p)
    }

    /// The document identifier of place `p`.
    pub closed spec fn place_id_of(&self, p: Place) -> Option<Seq<char>> {
        latest(self.place_ids@, p)
    }

    /// The name of transition `t`.
    pub closed spec fn transition_name_of(&self, t: Transition) -> Option<Seq<char>> {
        latest(self.transition_names@, t)
    }

    /// The document identifier of transition `t`.
    pub closed spec fn transition_id_of(&self, t: Transition) -> Option<Seq<char>> {
        latest(self.transition_ids@, t)
    }

    /// The name of arc `a`.
    pub closed spec fn arc_name_of(&self, a: Arc) -> Option<Seq<char>> {
        latest(self.arc_names@, a)
    }

    /// The document identifier of arc `a`.
    pub closed spec fn arc_id_of(&self, a: Arc) -> Option<Seq<char>> {
        latest(self.arc_ids@, a)
    }

    /// The net's name.
    pub closed spec fn net_name_spec(&self) -> Option<Seq<char>> {
        opt_view(self.net_name)
    }

    /// The net's document identifier.
    pub closed spec fn net_id_spec(&self) -> Option<Seq<char>> {
        opt_view(self.net_id)
    }

    /// The net's description.
    pub closed spec fn net_description_spec(&self) -> Option<Seq<char>> {
        opt_view(self.net_description)
    }

    /// Whether `a` and `b` carry the same labels, except perhaps those of kind `f`.
    pub open spec fn same_except(a: NetLabels, b: NetLabels, f: LabelField) -> bool {
        &&& f != LabelField::PlaceName ==> forall|p: Place| a.place_name_of(p) == b.place_name_of(p)
        &&& f != LabelField::PlaceId ==> forall|p: Place| a.place_id_of(p) == b.place_id_of(p)
        &&& f != LabelField::TransitionName ==> forall|t: Transition| a.transition_name_of(t) == b.transition_name_of(t)
        &&& f != LabelField::TransitionId ==> forall|t: Transition| a.transition_id_of(t) == b.transition_id_of(t)
        &&& f != LabelField::ArcName ==> forall|x: Arc| a.arc_name_of(x) == b.arc_name_of(x)
        &&& f != LabelField::ArcId ==> forall|x: Arc| a.arc_id_of(x) == b.arc_id_of(x)
        &&& f != LabelField::NetName ==> a.net_name_spec() == b.net_name_spec()
        &&& f != LabelField::NetId ==> a.net_id_spec() == b.net_id_spec()
        &&& f != LabelField::NetDescription ==> a.net_description_spec() == b.net_description_spec()
    }

    /// No labels at all.
    pub fn new() -> (r: Self)
        ensures
            forall|p: Place| r.place_name_of(p) is None && r.place_id_of(p) is None,
            forall|t: Transition| r.transition_name_of(t) is None && r.transition_id_of(t) is None,
            forall|x: Arc| r.arc_name_of(x) is None && r.arc_id_of(x) is None,
            r.net_name_spec() is None,
            r.net_id_spec() is None,
            r.net_description_spec() is None,
    {
        NetLabels {
            place_names: Vec::new(),
            place_ids: Vec::new(),
            transition_names: Vec::new(),
            transition_ids: Vec::new(),
            arc_names: Vec::new(),
            arc_ids: Vec::new(),
            net_name: None,
            net_id: None,
            net_description: None,
        }
    }

    /// The name of place `p`.
    pub fn place_name(&self, p: Place) -> (r: Option<&str>)
        ensures
            opt_str_view(r) == self.place_name_of(p),
    {
        let i = find_place(&self.place_names, p);
        entry_text(&self.place_names, i)
    }

    /// The document identifier of place `p`.
    pub fn place_id(&self, p: Place) -> (r: Option<&str>)
        ensures
            opt_str_view(r) == self.place_id_of(p),
    {
        let i = find_place(&self.place_ids, p);
        entry_text(&self.place_ids, i)
    }

    /// The name of transition `t`.
    pub fn transition_name(&self, t: Transition) -> (r: Option<&str>)
        ensures
            opt_str_view(r) == self.transition_name_of(t),
    {
        let i = find_transition(&self.transition_names, t);
        entry_text(&self.transition_names, i)
    }

    /// The document identifier of transition `t`.
    pub fn transition_id(&self, t: Transition) -> (r: Option<&str>)
        ensures
            opt_str_view(r) == self.transition_id_of(t),
    {
        let i = find_transition(&self.transition_ids, t);
        entry_text(&self.transition_ids, i)
    }

    /// The name of arc `a`.
    pub fn arc_name(&self, a: Arc) -> (r: Option<&str>)
        ensures
            opt_str_view(r) == self.arc_name_of(a),
    {
        let i = find_arc(&self.arc_names, a);
        entry_text(&self.arc_names, i)
    }

    /// The document identifier of arc `a`.
    pub fn arc_id(&self, a: Arc) -> (r: Option<&str>)
        ensures
            opt_str_view(r) == self.arc_id_of(a),
    {
        let i = find_arc(&self.arc_ids, a);
        entry_text(&self.arc_ids, i)
    }

    /// The net's name.
    pub fn net_name(&self) -> (r: Option<&str>)
        ensures
            opt_str_view(r) == self.net_name_spec(),
    {
        match &self.net_name {
            Some(s) => Some(s.as_str()),
            None => None,
        }
    }

    /// The net's document identifier.
    pub fn net_id(&self) -> (r: Option<&str>)
        ensures
            opt_str_view(r) == self.net_id_spec(),
    {
        match &self.net_id {
            Some(s) => Some(s.as_str()),
            None => None,
        }
    }

    /// The net's description.
    pub fn net_description(&self) -> (r: Option<&str>)
        ensures
            opt_str_view(r) == self.net_description_spec(),
    {
        match &self.net_description {
            Some(s) => Some(s.as_str()),
            None => None,
        }
    }
}

/// The latest label after one more entry.
proof fn lemma_latest_push<K>(entries: Seq<(K, Option<String>)>, e: (K, Option<String>), k: K)
    ensures
        latest(entries.push(e), k) == (if e.0 == k { opt_view(e.1) } else { latest(entries, k) }),
{
    assert(entries.push(e).drop_last() == entries);
}

impl NetLabels {
    /// Sets the name of place `p`.
    pub fn set_place_name(&mut self, p: Place, name: &str) -> (r: &mut Self)
        ensures
            r.place_name_of(p) == Some(name@),
            forall|x: Place| x != p ==> r.place_name_of(x) == old(self).place_name_of(x),
            NetLabels::same_except(*r, *old(self), LabelField::PlaceName),
            *final(self) == *final(r),
    {
        let ghost before = self.place_names@;
        let text = name.to_owned();
        let ghost e: (Place, Option<String>) = (p, Some(text));
        self.place_names.push((p, Some(text)));
        proof {
            assert forall|x: Place| #[trigger] self.place_name_of(x) == (if x == p { Some(name@) } else { old(self).place_name_of(x) }) by {
                lemma_latest_push(before, e, x);
            }
        }
        self
    }

    /// Removes the name of place `p`.
    pub fn clear_place_name(&mut self, p: Place) -> (r: &mut Self)
        ensures
            r.place_name_of(p) is None,
            forall|x: Place| x != p ==> r.place_name_of(x) == old(self).place_name_of(x),
            NetLabels::same_except(*r, *old(self), LabelField::PlaceName),
            *final(self) == *final(r),
    {
        let ghost before = self.place_names@;
        self.place_names.push((p, None));
        proof {
            assert forall|x: Place| #[trigger] self.place_name_of(x) == (if x == p { None } else { old(self).place_name_of(x) }) by {
                lemma_latest_push(before, (p, None), x);
            }
        }
        self
    }

    /// Sets the document identifier of place `p`.
    pub fn set_place_id(&mut self, p: &Place, id: &str) -> (r: &mut Self)
        ensures
            r.place_id_of(*p) == Some(id@),
            forall|x: Place| x != *p ==> r.place_id_of(x) == old(self).place_id_of(x),
            NetLabels::same_except(*r, *old(self), LabelField::PlaceId),
            *final(self) == *final(r),
    {
        let p = *p;
        let ghost before = self.place_ids@;
        let text = id.to_owned();
        let ghost e: (Place, Option<String>) = (p, Some(text));
        self.place_ids.push((p, Some(text)));
        proof {
            assert forall|x: Place| #[trigger] self.place_id_of(x) == (if x == p { Some(id@) } else { old(self).place_id_of(x) }) by {
                lemma_latest_push(before, e, x);
            }
        }
        self
    }

    /// Sets the name of transition `t`.
    pub fn set_transition_name(&mut self, t: Transition, name: &str) -> (r: &mut Self)
        ensures
            r.transition_name_of(t) == Some(name@),
            forall|x: Transition| x != t ==> r.transition_name_of(x) == old(self).transition_name_of(x),
            NetLabels::same_except(*r, *old(self), LabelField::TransitionName),
            *final(self) == *final(r),
    {
        let ghost before = self.transition_names@;
        let text = name.to_owned();
        let ghost e: (Transition, Option<String>) = (t, Some(text));
        self.transition_names.push((t, Some(text)));
        proof {
            assert forall|x: Transition| #[trigger] self.transition_name_of(x) == (if x == t { Some(name@) } else { old(self).transition_name_of(x) }) by {
                lemma_latest_push(before, e, x);
            }
        }
        self
    }

    /// Removes the name of transition `t`.
    pub fn clear_transition_name(&mut self, t: Transition) -> (r: &mut Self)
        ensures
            r.transition_name_of(t) is None,
            forall|x: Transition| x != t ==> r.transition_name_of(x) == old(self).transition_name_of(x),
            NetLabels::same_except(*r, *old(self), LabelField::TransitionName),
            *final(self) == *final(r),
    {
        let ghost before = self.transition_names@;
        self.transition_names.push((t, None));
        proof {
            assert forall|x: Transition| #[trigger] self.transition_name_of(x) == (if x == t { None } else { old(self).transition_name_of(x) }) by {
                lemma_latest_push(before, (t, None), x);
            }
        }
        self
    }

    /// Sets the document identifier of transition `t`.
    pub fn set_transition_id(&mut self, t: Transition, id: &str) -> (r: &mut Self)
        ensures
            r.transition_id_of(t) == Some(id@),
            forall|x: Transition| x != t ==> r.transition_id_of(x) == old(self).transition_id_of(x),
            NetLabels::same_except(*r, *old(self), LabelField::TransitionId),
            *final(self) == *final(r),
    {
        let ghost before = self.transition_ids@;
        let text = id.to_owned();
        let ghost e: (Transition, Option<String>) = (t, Some(text));
        self.transition_ids.push((t, Some(text)));
        proof {
            assert forall|x: Transition| #[trigger] self.transition_id_of(x) == (if x == t { Some(id@) } else { old(self).transition_id_of(x) }) by {
                lemma_latest_push(before, e, x);
            }
        }
        self
    }

    /// Sets the name of arc `a`.
    pub fn set_arc_name(&mut self, a: Arc, name: &str) -> (r: &mut Self)
        ensures
            r.arc_name_of(a) == Some(name@),
            forall|x: Arc| x != a ==> r.arc_name_of(x) == old(self).arc_name_of(x),
            NetLabels::same_except(*r, *old(self), LabelField::ArcName),
            *final(self) == *final(r),
    {
        let ghost before = self.arc_names@;
        let text = name.to_owned();
        let ghost e: (Arc, Option<String>) = (a, Some(text));
        self.arc_names.push((a, Some(text)));
        proof {
            assert forall|x: Arc| #[trigger] self.arc_name_of(x) == (if x == a { Some(name@) } else { old(self).arc_name_of(x) }) by {
                lemma_latest_push(before, e, x);
            }
        }
        self
    }

    /// Removes the name of arc `a`.
    pub fn clear_arc_name(&mut self, a: Arc) -> (r: &mut Self)
        ensures
            r.arc_name_of(a) is None,
            forall|x: Arc| x != a ==> r.arc_name_of(x) == old(self).arc_name_of(x),
            NetLabels::same_except(*r, *old(self), LabelField::ArcName),
            *final(self) == *final(r),
    {
        let ghost before = self.arc_names@;
        self.arc_names.push((a, None));
        proof {
            assert forall|x: Arc| #[trigger] self.arc_name_of(x) == (if x == a { None } else { old(self).arc_name_of(x) }) by {
                lemma_latest_push(before, (a, None), x);
            }
        }
        self
    }

    /// Sets the document identifier of arc `a`.
    pub fn set_arc_id(&mut self, a: Arc, id: &str) -> (r: &mut Self)
        ensures
            r.arc_id_of(a) == Some(id@),
            forall|x: Arc| x != a ==> r.arc_id_of(x) == old(self).arc_id_of(x),
            NetLabels::same_except(*r, *old(self), LabelField::ArcId),
            *final(self) == *final(r),
    {
        let ghost before = self.arc_ids@;
        let text = id.to_owned();
        let ghost e: (Arc, Option<String>) = (a, Some(text));
        self.arc_ids.push((a, Some(text)));
        proof {
            assert forall|x: Arc| #[trigger] self.arc_id_of(x) == (if x == a { Some(id@) } else { old(self).arc_id_of(x) }) by {
                lemma_latest_push(before, e, x);
            }
        }
        self
    }

    /// Sets the net's name.
    pub fn set_net_name(&mut self, name: &str) -> (r: &mut Self)
        ensures
            r.net_name_spec() == Some(name@),
            NetLabels::same_except(*r, *old(self), LabelField::NetName),
            *final(self) == *final(r),
    {
        self.net_name = Some(name.to_owned());
        self
    }

    /// Sets the net's document identifier.
    pub fn set_net_id(&mut self, id: &str) -> (r: &mut Self)
        ensures
            r.net_id_spec() == Some(id@),
            NetLabels::same_except(*r, *old(self), LabelField::NetId),
            *final(self) == *final(r),
    {
        self.net_id = Some(id.to_owned());
        self
    }

    /// Sets the net's description.
    pub fn set_net_description(&mut self, description: &str) -> (r: &mut Self)
        ensures
            r.net_description_spec() == Some(description@),
            NetLabels::same_except(*r, *old(self), LabelField::NetDescription),
            *final(self) == *final(r),
    {
        self.net_description = Some(description.to_owned());
        self
    }

}

/// A key whose latest label is present has a last entry, holding that label.
proof fn lemma_latest_has_last<K>(entries: Seq<(K, Option<String>)>, k: K)
    requires
        latest(entries, k) is Some,
    ensures
        exists|i: int| 0 <= i < entries.len() && (#[trigger] entries[i]).0 == k && entries[i].1 is Some
            && forall|j: int| i < j < entries.len() ==> (#[trigger] entries[j]).0 != k,
    decreases entries.len(),
{
    let d = entries.drop_last();
    if entries.last().0 == k {
        assert(entries[entries.len() - 1].0 == k);
    } else {
        lemma_latest_has_last(d, k);
        let i = choose|i: int| 0 <= i < d.len() && (#[trigger] d[i]).0 == k && d[i].1 is Some
            && forall|j: int| i < j < d.len() ==> (#[trigger] d[j]).0 != k;
        assert(entries[i] == d[i]);
        assert forall|j: int| i < j < entries.len() implies (#[trigger] entries[j]).0 != k by {
            if j < d.len() {
                assert(entries[j] == d[j]);
            }
        }
    }
}

impl NetLabels {
    /// The named places, each once, with its name.
    pub fn named_places(&self) -> (r: Vec<(Place, &str)>)
        ensures
            forall|a: int, b: int| 0 <= a < b < r@.len() ==> (#[trigger] r@[a]).0 != (#[trigger] r@[b]).0,
            forall|a: int| 0 <= a < r@.len() ==> self.place_name_of((#[trigger] r@[a]).0) == Some(r@[a].1@),
            forall|x: Place| #[trigger] self.place_name_of(x) is Some ==> exists|a: int| 0 <= a < r@.len() && (#[trigger] r@[a]).0 == x,
    {
        let entries = &self.place_names;
        let mut r: Vec<(Place, &str)> = Vec::new();
        let mut i: usize = 0;
        while i < entries.len()
            invariant
                0 <= i <= entries@.len(),
                *entries == self.place_names,
                forall|a: int| 0 <= a < r@.len() ==> exists|j: int| 0 <= j < i && (#[trigger] r@[a]).0 == entries@[j].0
                    && forall|l: int| j < l < entries@.len() ==> (#[trigger] entries@[l]).0 != entries@[j].0,
                forall|a: int, b: int| 0 <= a < b < r@.len() ==> (#[trigger] r@[a]).0 != (#[trigger] r@[b]).0,
                forall|a: int| 0 <= a < r@.len() ==> self.place_name_of((#[trigger] r@[a]).0) == Some(r@[a].1@),
                forall|j: int| 0 <= j < i && (#[trigger] entries@[j]).1 is Some
                    && (forall|l: int| j < l < entries@.len() ==> (#[trigger] entries@[l]).0 != entries@[j].0)
                    ==> exists|a: int| 0 <= a < r@.len() && (#[trigger] r@[a]).0 == entries@[j].0,
            decreases entries@.len() - i,
        {
            let k = entries[i].0;
            let last = find_place(entries, k);
            if last == Some(i) {
                match &entries[i].1 {
                    Some(text) => {
                        let ghost old_r = r@;
                        r.push((k, text.as_str()));
                        proof {
                            assert forall|a: int, b: int| 0 <= a < b < r@.len() implies (#[trigger] r@[a]).0 != (#[trigger] r@[b]).0 by {
                                if b == r@.len() - 1 {
                                    assert(r@[a] == old_r[a]);
                                    let j = choose|j: int| 0 <= j < i && (#[trigger] old_r[a]).0 == entries@[j].0
                                        && forall|l: int| j < l < entries@.len() ==> (#[trigger] entries@[l]).0 != entries@[j].0;
                                    assert(entries@[i as int].0 == k);
                                } else {
                                    assert(r@[a] == old_r[a] && r@[b] == old_r[b]);
                                }
                            }
                            assert forall|a: int| 0 <= a < r@.len() implies exists|j: int| 0 <= j < i + 1 && (#[trigger] r@[a]).0 == entries@[j].0
                                && forall|l: int| j < l < entries@.len() ==> (#[trigger] entries@[l]).0 != entries@[j].0 by {
                                if a < old_r.len() {
                                    assert(r@[a] == old_r[a]);
                                } else {
                                    assert(r@[a].0 == entries@[i as int].0);
                                }
                            }
                            assert forall|a: int| 0 <= a < r@.len() implies self.place_name_of((#[trigger] r@[a]).0) == Some(r@[a].1@) by {
                                if a < old_r.len() {
                                    assert(r@[a] == old_r[a]);
                                }
                            }
                            assert forall|j: int| 0 <= j < i + 1 && (#[trigger] entries@[j]).1 is Some
                                && (forall|l: int| j < l < entries@.len() ==> (#[trigger] entries@[l]).0 != entries@[j].0)
                                implies exists|a: int| 0 <= a < r@.len() && (#[trigger] r@[a]).0 == entries@[j].0 by {
                                if j < i {
                                    let a = choose|a: int| 0 <= a < old_r.len() && (#[trigger] old_r[a]).0 == entries@[j].0;
                                    assert(r@[a] == old_r[a]);
                                } else {
                                    assert(r@[r@.len() - 1].0 == entries@[j].0);
                                }
                            }
                        }
                    },
                    None => {},
                }
            } else {
                proof {
                    assert forall|j: int| 0 <= j < i + 1 && (#[trigger] entries@[j]).1 is Some
                        && (forall|l: int| j < l < entries@.len() ==> (#[trigger] entries@[l]).0 != entries@[j].0)
                        implies exists|a: int| 0 <= a < r@.len() && (#[trigger] r@[a]).0 == entries@[j].0 by {
                        if j == i {
                            match last {
                                Some(x) => {
                                    assert(entries@[x as int].0 == k);
                                    assert(entries@[i as int].0 == k);
                                    if x > i {
                                        assert(entries@[x as int].0 == entries@[j].0);
                                    }
                                },
                                None => {
                                    assert(entries@[i as int].0 == k);
                                },
                            }
                        }
                    }
                }
            }
            i = i + 1;
        }
        proof {
            assert forall|x: Place| #[trigger] self.place_name_of(x) is Some implies exists|a: int| 0 <= a < r@.len() && (#[trigger] r@[a]).0 == x by {
                lemma_latest_has_last(entries@, x);
                let j = choose|j: int| 0 <= j < entries@.len() && (#[trigger] entries@[j]).0 == x && entries@[j].1 is Some
                    && forall|l: int| j < l < entries@.len() ==> (#[trigger] entries@[l]).0 != x;
            }
        }
        r
    }
}

impl NetLabels {
    /// The named transitions, each once, with its name.
    pub fn named_transitions(&self) -> (r: Vec<(Transition, &str)>)
        ensures
            forall|a: int, b: int| 0 <= a < b < r@.len() ==> (#[trigger] r@[a]).0 != (#[trigger] r@[b]).0,
            forall|a: int| 0 <= a < r@.len() ==> self.transition_name_of((#[trigger] r@[a]).0) == Some(r@[a].1@),
            forall|x: Transition| #[trigger] self.transition_name_of(x) is Some ==> exists|a: int| 0 <= a < r@.len() && (#[trigger] r@[a]).0 == x,
    {
        let entries = &self.transition_names;
        let mut r: Vec<(Transition, &str)> = Vec::new();
        let mut i: usize = 0;
        while i < entries.len()
            invariant
                0 <= i <= entries@.len(),
                *entries == self.transition_names,
                forall|a: int| 0 <= a < r@.len() ==> exists|j: int| 0 <= j < i && (#[trigger] r@[a]).0 == entries@[j].0
                    && forall|l: int| j < l < entries@.len() ==> (#[trigger] entries@[l]).0 != entries@[j].0,
                forall|a: int, b: int| 0 <= a < b < r@.len() ==> (#[trigger] r@[a]).0 != (#[trigger] r@[b]).0,
                forall|a: int| 0 <= a < r@.len() ==> self.transition_name_of((#[trigger] r@[a]).0) == Some(r@[a].1@),
                forall|j: int| 0 <= j < i && (#[trigger] entries@[j]).1 is Some
                    && (forall|l: int| j < l < entries@.len() ==> (#[trigger] entries@[l]).0 != entries@[j].0)
                    ==> exists|a: int| 0 <= a < r@.len() && (#[trigger] r@[a]).0 == entries@[j].0,
            decreases entries@.len() - i,
        {
            let k = entries[i].0;
            let last = find_transition(entries, k);
            if last == Some(i) {
                match &entries[i].1 {
                    Some(text) => {
                        let ghost old_r = r@;
                        r.push((k, text.as_str()));
                        proof {
                            assert forall|a: int, b: int| 0 <= a < b < r@.len() implies (#[trigger] r@[a]).0 != (#[trigger] r@[b]).0 by {
                                if b == r@.len() - 1 {
                                    assert(r@[a] == old_r[a]);
                                    let j = choose|j: int| 0 <= j < i && (#[trigger] old_r[a]).0 == entries@[j].0
                                        && forall|l: int| j < l < entries@.len() ==> (#[trigger] entries@[l]).0 != entries@[j].0;
                                    assert(entries@[i as int].0 == k);
                                } else {
                                    assert(r@[a] == old_r[a] && r@[b] == old_r[b]);
                                }
                            }
                            assert forall|a: int| 0 <= a < r@.len() implies exists|j: int| 0 <= j < i + 1 && (#[trigger] r@[a]).0 == entries@[j].0
                                && forall|l: int| j < l < entries@.len() ==> (#[trigger] entries@[l]).0 != entries@[j].0 by {
                                if a < old_r.len() {
                                    assert(r@[a] == old_r[a]);
                                } else {
                                    assert(r@[a].0 == entries@[i as int].0);
                                }
                            }
                            assert forall|a: int| 0 <= a < r@.len() implies self.transition_name_of((#[trigger] r@[a]).0) == Some(r@[a].1@) by {
                                if a < old_r.len() {
                                    assert(r@[a] == old_r[a]);
                                }
                            }
                            assert forall|j: int| 0 <= j < i + 1 && (#[trigger] entries@[j]).1 is Some
                                && (forall|l: int| j < l < entries@.len() ==> (#[trigger] entries@[l]).0 != entries@[j].0)
                                implies exists|a: int| 0 <= a < r@.len() && (#[trigger] r@[a]).0 == entries@[j].0 by {
                                if j < i {
                                    let a = choose|a: int| 0 <= a < old_r.len() && (#[trigger] old_r[a]).0 == entries@[j].0;
                                    assert(r@[a] == old_r[a]);
                                } else {
                                    assert(r@[r@.len() - 1].0 == entries@[j].0);
                                }
                            }
                        }
                    },
                    None => {},
                }
            } else {
                proof {
                    assert forall|j: int| 0 <= j < i + 1 && (#[trigger] entries@[j]).1 is Some
                        && (forall|l: int| j < l < entries@.len() ==> (#[trigger] entries@[l]).0 != entries@[j].0)
                        implies exists|a: int| 0 <= a < r@.len() && (#[trigger] r@[a]).0 == entries@[j].0 by {
                        if j == i {
                            match last {
                                Some(x) => {
                                    assert(entries@[x as int].0 == k);
                                    assert(entries@[i as int].0 == k);
                                    if x > i {
                                        assert(entries@[x as int].0 == entries@[j].0);
                                    }
                                },
                                None => {
                                    assert(entries@[i as int].0 == k);
                                },
                            }
                        }
                    }
                }
            }
            i = i + 1;
        }
        proof {
            assert forall|x: Transition| #[trigger] self.transition_name_of(x) is Some implies exists|a: int| 0 <= a < r@.len() && (#[trigger] r@[a]).0 == x by {
                lemma_latest_has_last(entries@, x);
                let j = choose|j: int| 0 <= j < entries@.len() && (#[trigger] entries@[j]).0 == x && entries@[j].1 is Some
                    && forall|l: int| j < l < entries@.len() ==> (#[trigger] entries@[l]).0 != x;
            }
        }
        r
    }
}

} // verus!
