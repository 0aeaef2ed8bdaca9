//! What a PNML document keeps through conversion and export.

use vstd::prelude::*;
use crate::marking::Marking;
use crate::net::{lemma_place_with_id, lemma_place_with_id_inj, lemma_transition_with_id, lemma_transition_with_id_inj};
use crate::net::{Arc, Net, Place, Transition};
use crate::pnml::convert::{
    arc_id_label, arc_name_label, arc_outcome, arcs_of, converts_to, lemma_ids_distinct, node_ids, place_ids, place_names,
    transition_ids, transition_names,
};
use crate::pnml::labels::opt_view;
use crate::pnml::export::{
    all_labels, arc_labels, claim, claim_state, exports_arc, exports_place, exports_transition, exports_with, label_ids,
    law_export_keeps_distinct_labels, object_id, place_labels, source_ref, target_ref, transition_labels,
};
use crate::pnml::net::PnmlNet;
use crate::pnml::{net_entries, NodeEntry, PageObject};

verus! {

/// The identifiers of the arc entries, in order.
pub open spec fn arc_entry_ids(es: Seq<NodeEntry>) -> Seq<Seq<char>>
    decreases es.len(),
{
    if es.len() == 0 {
        seq![]
    } else {
        let r = arc_entry_ids(es.drop_last());
        match es.last() {
            NodeEntry::Arc(id, _, _, _) => r.push(id@),
            _ => r,
        }
    }
}

/// The name written on a place, transition or arc.
pub open spec fn object_name(o: PageObject) -> Option<Seq<char>> {
    match o {
        PageObject::Place(p) => opt_view(p.name),
        PageObject::Transition(t) => opt_view(t.name),
        PageObject::Arc(a) => opt_view(a.name),
        _ => None,
    }
}

/// Whether the document's arc identifiers are unique: no two arc entries
/// share one, none is that of a place or transition entry, and the net's own
/// identifier is none of them. (Conversion itself rejects repeated place and
/// transition identifiers.)
pub open spec fn unique_ids(pnml: PnmlNet) -> bool {
    let es = net_entries(pnml.pages@);
    &&& arc_entry_ids(es).no_duplicates()
    &&& forall|x: Seq<char>| #[trigger] arc_entry_ids(es).contains(x) ==> !node_ids(es).contains(x)
    &&& !node_ids(es).contains(pnml.id@)
    &&& !arc_entry_ids(es).contains(pnml.id@)
}

/// An arc's identifier label is that of one of the arc entries.
proof fn lemma_arc_label_is_entry_id(es: Seq<NodeEntry>, prefix: Seq<NodeEntry>, a: Arc)
    ensures
        arc_id_label(es, prefix, a) matches Some(x) ==> arc_entry_ids(prefix).contains(x),
    decreases prefix.len(),
{
    if prefix.len() > 0 {
        lemma_arc_label_is_entry_id(es, prefix.drop_last(), a);
        broadcast use vstd::seq_lib::group_seq_properties;
        match prefix.last() {
            NodeEntry::Arc(i, s, t, _) => {
                let r = arc_entry_ids(prefix.drop_last());
                assert(arc_entry_ids(prefix) == r.push(i@));
                if arc_outcome(es, i@, s@, t@) == Ok::<Arc, (Seq<char>, Seq<char>)>(a) {
                    assert(r.push(i@)[r.len() as int] == i@);
                }
            },
            _ => {},
        }
    }
}

/// Every arc the arc entries denote has an identifier label.
proof fn lemma_arc_label_present(es: Seq<NodeEntry>, prefix: Seq<NodeEntry>, a: Arc)
    requires
        arcs_of(es, prefix).contains(a),
    ensures
        arc_id_label(es, prefix, a) is Some,
    decreases prefix.len(),
{
    if prefix.len() > 0 {
        match prefix.last() {
            NodeEntry::Arc(i, s, t, _) => {
                if arc_outcome(es, i@, s@, t@) != Ok::<Arc, (Seq<char>, Seq<char>)>(a) {
                    lemma_arc_label_present(es, prefix.drop_last(), a);
                }
            },
            _ => {
                lemma_arc_label_present(es, prefix.drop_last(), a);
            },
        }
    }
}

/// With unique arc entry identifiers, two arcs with one identifier label are
/// the same arc.
proof fn lemma_arc_label_injective(es: Seq<NodeEntry>, prefix: Seq<NodeEntry>, a: Arc, b: Arc)
    requires
        arc_entry_ids(prefix).no_duplicates(),
        arc_id_label(es, prefix, a) is Some,
        arc_id_label(es, prefix, a) == arc_id_label(es, prefix, b),
    ensures
        a == b,
    decreases prefix.len(),
{
    let d = prefix.drop_last();
    match prefix.last() {
        NodeEntry::Arc(i, s, t, _) => {
            let r = arc_entry_ids(d);
            assert(arc_entry_ids(prefix) == r.push(i@));
            assert forall|x: int, y: int| 0 <= x < y < r.len() implies r[x] != r[y] by {
                assert(r.push(i@)[x] == r[x]);
                assert(r.push(i@)[y] == r[y]);
            }
            let oa = arc_outcome(es, i@, s@, t@) == Ok::<Arc, (Seq<char>, Seq<char>)>(a);
            let ob = arc_outcome(es, i@, s@, t@) == Ok::<Arc, (Seq<char>, Seq<char>)>(b);
            if oa && ob {
            } else if oa {
                lemma_arc_label_is_entry_id(es, d, b);
                let k = choose|k: int| 0 <= k < r.len() && r[k] == i@;
                assert(r.push(i@)[k] == r.push(i@)[r.len() as int]);
            } else if ob {
                lemma_arc_label_is_entry_id(es, d, a);
                let k = choose|k: int| 0 <= k < r.len() && r[k] == i@;
                assert(r.push(i@)[k] == r.push(i@)[r.len() as int]);
            } else {
                lemma_arc_label_injective(es, d, a, b);
            }
        },
        _ => {
            assert(arc_entry_ids(prefix) == arc_entry_ids(d));
            lemma_arc_label_injective(es, d, a, b);
        },
    }
}

/// A document with unique identifiers, converted and exported again, keeps
/// them: the exported net has the document's net identifier, each exported
/// place and transition the identifier of the entry it was made from (the
/// entry numbered by its handle), and each exported arc that of the last arc
/// entry denoting it.
pub proof fn law_import_export_keeps_ids(pnml: PnmlNet, net: Net, m0: Marking<u32>, tokens: Seq<u32>, arcs: Seq<Arc>, r: PnmlNet)
    requires
        converts_to(pnml, net, m0),
        unique_ids(pnml),
        arcs.no_duplicates(),
        arcs.to_set() == net.arc_set(),
        exports_with(net, tokens, arcs, r),
    ensures
        r.id@ == pnml.id@,
        forall|k: int| 0 <= k < net.np() ==> object_id(#[trigger] r.pages@[0].objects@[k])
            == place_ids(net_entries(pnml.pages@))[net.place_seq()[k].id() - 1],
        forall|k: int| 0 <= k < net.nt() ==> object_id(#[trigger] r.pages@[0].objects@[net.np() + k])
            == transition_ids(net_entries(pnml.pages@))[net.transition_seq()[k].id() - 1],
        forall|k: int| 0 <= k < arcs.len() ==> Some(object_id(#[trigger] r.pages@[0].objects@[net.np() + net.nt() + k]))
            == arc_id_label(net_entries(pnml.pages@), net_entries(pnml.pages@), arcs[k]),
        opt_view(r.name) == opt_view(pnml.name),
        forall|k: int| 0 <= k < net.np() ==> object_name(#[trigger] r.pages@[0].objects@[k])
            == opt_view(place_names(net_entries(pnml.pages@))[net.place_seq()[k].id() - 1]),
        forall|k: int| 0 <= k < net.nt() ==> object_name(#[trigger] r.pages@[0].objects@[net.np() + k])
            == opt_view(transition_names(net_entries(pnml.pages@))[net.transition_seq()[k].id() - 1]),
        forall|k: int| 0 <= k < arcs.len() ==> object_name(#[trigger] r.pages@[0].objects@[net.np() + net.nt() + k])
            == arc_name_label(net_entries(pnml.pages@), net_entries(pnml.pages@), arcs[k]),
{
    broadcast use {lemma_place_with_id, lemma_place_with_id_inj, lemma_transition_with_id, lemma_transition_with_id_inj};
    let es = net_entries(pnml.pages@);
    let lab = net.labels_spec();
    let np = net.np() as int;
    let nt = net.nt() as int;
    let na = arcs.len() as int;
    let al = all_labels(net, arcs);
    let pl = place_labels(net);
    let tl = transition_labels(net);
    let xl = arc_labels(net, arcs);
    let pids = place_ids(es);
    let tids = transition_ids(es);
    let aids = arc_entry_ids(es);
    net.lemma_wf();
    lemma_ids_distinct(es);
    // Which entry each element comes from, and its label.
    let pj = |k: int| (net.place_seq()[k].id() - 1) as int;
    let tj = |k: int| (net.transition_seq()[k].id() - 1) as int;
    assert forall|k: int| 0 <= k < np implies 0 <= #[trigger] pj(k) < pids.len() && net.place_seq()[k] == Place::with_id((pj(k) + 1) as u32)
        && pl[k] == Some(pids[pj(k)]) by {
        assert(net.place_set().contains(net.place_seq()[k]));
        assert(lab.place_id_of(Place::with_id((pj(k) + 1) as u32)) == Some(pids[pj(k)]));
    }
    assert forall|k: int| 0 <= k < nt implies 0 <= #[trigger] tj(k) < tids.len() && net.transition_seq()[k] == Transition::with_id((tj(k) + 1) as u32)
        && tl[k] == Some(tids[tj(k)]) by {
        assert(net.transition_set().contains(net.transition_seq()[k]));
        assert(lab.transition_id_of(Transition::with_id((tj(k) + 1) as u32)) == Some(tids[tj(k)]));
    }
    assert forall|k: int| 0 <= k < na implies (#[trigger] xl[k]) is Some && aids.contains(xl[k].unwrap()) by {
        assert(arcs.to_set().contains(arcs[k]));
        lemma_arc_label_present(es, es, arcs[k]);
        lemma_arc_label_is_entry_id(es, es, arcs[k]);
    }
    // Every label is present.
    assert forall|i: int| 0 <= i < al.len() implies (#[trigger] al[i]) is Some by {
        if i == 0 {
        } else if i < 1 + np {
            assert(al[i] == pl[i - 1]);
            assert(0 <= pj(i - 1));
        } else if i < 1 + np + nt {
            assert(al[i] == tl[i - 1 - np]);
            assert(0 <= tj(i - 1 - np));
        } else {
            assert(al[i] == xl[i - 1 - np - nt]);
        }
    }
    // The labels are pairwise distinct.
    assert forall|i: int, j: int| 0 <= i < j < al.len() implies #[trigger] al[i] != #[trigger] al[j] by {
        if al[i] == al[j] {
            let x = al[i].unwrap();
            if i == 0 {
                assert(x == pnml.id@);
                if j < 1 + np {
                    assert(al[j] == pl[j - 1]);
                    assert(0 <= pj(j - 1));
                    assert(pids[pj(j - 1)] == x);
                    assert(node_ids(es).contains(x));
                } else if j < 1 + np + nt {
                    assert(al[j] == tl[j - 1 - np]);
                    assert(0 <= tj(j - 1 - np));
                    assert(tids[tj(j - 1 - np)] == x);
                    assert(node_ids(es).contains(x));
                } else {
                    assert(al[j] == xl[j - 1 - np - nt]);
                    assert(aids.contains(xl[j - 1 - np - nt].unwrap()));
                }
            } else if i < 1 + np {
                assert(al[i] == pl[i - 1]);
                assert(0 <= pj(i - 1));
                assert(pids[pj(i - 1)] == x);
                assert(pids.contains(x));
                assert(node_ids(es).contains(x));
                if j < 1 + np {
                    assert(al[j] == pl[j - 1]);
                    assert(0 <= pj(j - 1));
                    assert(net.place_seq()[i - 1] != net.place_seq()[j - 1]);
                    assert(pj(i - 1) != pj(j - 1));
                } else if j < 1 + np + nt {
                    assert(al[j] == tl[j - 1 - np]);
                    assert(0 <= tj(j - 1 - np));
                    assert(tids.contains(x));
                } else {
                    assert(al[j] == xl[j - 1 - np - nt]);
                    assert(aids.contains(x));
                }
            } else if i < 1 + np + nt {
                assert(al[i] == tl[i - 1 - np]);
                assert(0 <= tj(i - 1 - np));
                assert(tids[tj(i - 1 - np)] == x);
                assert(tids.contains(x));
                assert(node_ids(es).contains(x));
                if j < 1 + np + nt {
                    assert(al[j] == tl[j - 1 - np]);
                    assert(0 <= tj(j - 1 - np));
                    assert(net.transition_seq()[i - 1 - np] != net.transition_seq()[j - 1 - np]);
                    assert(tj(i - 1 - np) != tj(j - 1 - np));
                } else {
                    assert(al[j] == xl[j - 1 - np - nt]);
                    assert(aids.contains(x));
                }
            } else {
                assert(al[i] == xl[i - 1 - np - nt]);
                assert(al[j] == xl[j - 1 - np - nt]);
                assert(arcs.to_set().contains(arcs[i - 1 - np - nt]));
                lemma_arc_label_present(es, es, arcs[i - 1 - np - nt]);
                lemma_arc_label_injective(es, es, arcs[i - 1 - np - nt], arcs[j - 1 - np - nt]);
            }
        }
    }
    law_export_keeps_distinct_labels(net, tokens, arcs, r);
    let objects = r.pages@[0].objects@;
    let rs = label_ids(net, arcs);
    let nc = claim(rs, seq![], lab.net_id_spec(), seq!['n', 'e', 't'], 0);
    let ps = claim_state(rs, seq![nc.0], pl, seq!['p'], np as nat);
    let ts = claim_state(rs, ps.0, tl, seq!['t'], nt as nat);
    let xs = claim_state(rs, ts.0, xl, seq!['a'], na as nat);
    assert forall|k: int| 0 <= k < np implies object_name(#[trigger] objects[k]) == opt_view(place_names(es)[net.place_seq()[k].id() - 1]) by {
        assert(0 <= pj(k));
        assert(exports_place(tokens, k, xs.0[1 + k], lab.place_name_of(net.place_seq()[k]), objects[k]));
        assert(lab.place_name_of(Place::with_id((pj(k) + 1) as u32)) == opt_view(place_names(es)[pj(k)]));
    }
    assert forall|k: int| 0 <= k < nt implies object_name(#[trigger] objects[np + k]) == opt_view(transition_names(es)[net.transition_seq()[k].id() - 1]) by {
        assert(0 <= tj(k));
        assert(exports_transition(xs.0[1 + np + k], lab.transition_name_of(net.transition_seq()[k]), objects[np + k]));
        assert(lab.transition_name_of(Transition::with_id((tj(k) + 1) as u32)) == opt_view(transition_names(es)[tj(k)]));
    }
    assert forall|k: int| 0 <= k < na implies object_name(#[trigger] objects[np + nt + k]) == arc_name_label(es, es, arcs[k]) by {
        assert(exports_arc(xs.0[1 + np + nt + k], source_ref(net, xs.0, arcs[k]), target_ref(net, xs.0, arcs[k]), lab.arc_name_of(arcs[k]), objects[np + nt + k]));
    }
    assert forall|k: int| 0 <= k < np implies object_id(#[trigger] objects[k]) == pids[net.place_seq()[k].id() - 1] by {
        assert(0 <= pj(k));
        assert(Some(object_id(objects[k])) == pl[k]);
    }
    assert forall|k: int| 0 <= k < nt implies object_id(#[trigger] objects[np + k]) == tids[net.transition_seq()[k].id() - 1] by {
        assert(0 <= tj(k));
        assert(Some(object_id(objects[np + k])) == tl[k]);
    }
}

} // verus!
