//! Conversion from a native net to the PNML data model.
//!
//! Every place, transition and arc of the net is written onto a single page,
//! in the net's order. An element keeps the document identifier its labels
//! record, unless an earlier element has claimed it; otherwise it gets a
//! generated identifier, `p0`, `p1`, ... for places, `t0`, ... for
//! transitions, `a0`, ... for arcs, `net0` for the net and `page0` for the
//! page, skipping every identifier the labels record. Names are taken from
//! the labels. An `<initialMarking>` is written only for places with a
//! positive token count; the native model is unweighted, so no arc carries
//! an inscription.

use vstd::prelude::*;
use vstd::string::StringExecFns;
use vstd::relations::injective_on;
use vstd::set_lib::{lemma_int_range, lemma_len_subset, lemma_map_size, set_int_range};
use crate::marking::Marking;
use crate::net::{Arc, Net, Place, Transition};
use crate::pnml::convert::views;
use crate::pnml::labels::{opt_str_view, opt_view};
use crate::pnml::net::PnmlNet;
use crate::pnml::{pt_net_type, pt_net_uri, NaturalNumberLabel, Page, PageObject, PnmlDocument};

verus! {

/// The character of decimal digit `d`.
pub open spec fn digit_char(d: int) -> char {
    if d == 0 { '0' } else if d == 1 { '1' } else if d == 2 { '2' } else if d == 3 { '3' } else if d == 4 { '4' }
    else if d == 5 { '5' } else if d == 6 { '6' } else if d == 7 { '7' } else if d == 8 { '8' } else { '9' }
}

/// The decimal digits of `n`, most significant first, without leading zeros.
pub open spec fn decimal(n: nat) -> Seq<char>
    decreases n,
{
    if n < 10 {
        seq![digit_char(n as int)]
    } else {
        decimal(n / 10).push(digit_char((n % 10) as int))
    }
}

/// An identifier made of a prefix and a number.
pub open spec fn indexed_id(prefix: Seq<char>, k: int) -> Seq<char> {
    prefix + decimal(k as nat)
}

/// The identifier of a page object.
pub open spec fn object_id(o: PageObject) -> Seq<char> {
    match o {
        PageObject::Place(p) => p.id@,
        PageObject::Transition(t) => t.id@,
        PageObject::Arc(a) => a.id@,
        PageObject::ReferencePlace(r) => r.id@,
        PageObject::ReferenceTransition(r) => r.id@,
        PageObject::Page(pg) => pg.id@,
    }
}

/// The tokens written for place `p`.
pub open spec fn exported_tokens(marking: Option<Marking<u32>>, p: Place) -> u32 {
    match marking {
        Some(m) => m.count(p),
        None => 0,
    }
}

/// The marking behind an optional reference.
pub open spec fn deref_marking(marking: Option<&Marking<u32>>) -> Option<Marking<u32>> {
    match marking {
        Some(m) => Some(*m),
        None => None,
    }
}

/// The tokens written for each place of `net`, by dense index.
pub open spec fn marking_tokens(net: Net, marking: Option<Marking<u32>>) -> Seq<u32> {
    Seq::new(net.np(), |k: int| exported_tokens(marking, net.place_seq()[k]))
}

/// The identifiers the labels give the net's places, by dense index.
pub open spec fn place_labels(net: Net) -> Seq<Option<Seq<char>>> {
    Seq::new(net.np(), |k: int| net.labels_spec().place_id_of(net.place_seq()[k]))
}

/// The identifiers the labels give the net's transitions, by dense index.
pub open spec fn transition_labels(net: Net) -> Seq<Option<Seq<char>>> {
    Seq::new(net.nt(), |k: int| net.labels_spec().transition_id_of(net.transition_seq()[k]))
}

/// The identifiers the labels give the arcs listed in `arcs`.
pub open spec fn arc_labels(net: Net, arcs: Seq<Arc>) -> Seq<Option<Seq<char>>> {
    Seq::new(arcs.len(), |k: int| net.labels_spec().arc_id_of(arcs[k]))
}

/// The texts among optional labels that are present.
pub open spec fn present(ls: Seq<Option<Seq<char>>>) -> Set<Seq<char>> {
    Set::new(|s: Seq<char>| ls.contains(Some(s)))
}

/// The net's own identifier, if its labels record one.
pub open spec fn net_label_ids(net: Net) -> Set<Seq<char>> {
    Set::new(|s: Seq<char>| net.labels_spec().net_id_spec() == Some(s))
}

/// Every identifier the labels record for the net or one of its elements,
/// the arcs being those listed in `arcs`.
pub open spec fn label_ids(net: Net, arcs: Seq<Arc>) -> Set<Seq<char>> {
    net_label_ids(net) + present(place_labels(net)) + present(transition_labels(net)) + present(arc_labels(net, arcs))
}

/// The least number `n` from `c` on such that `prefix` followed by the
/// digits of `n` is not in `taken`.
pub open spec fn first_free(taken: Set<Seq<char>>, prefix: Seq<char>, c: nat) -> nat {
    choose|n: nat| c <= n && !taken.contains(indexed_id(prefix, n as int))
        && forall|m: nat| c <= m < n ==> taken.contains(indexed_id(prefix, m as int))
}

/// The identifier an element gets, and the next counter: its label, when it
/// has one that is not yet assigned; else the first generated identifier from
/// the counter on that is neither reserved nor assigned.
pub open spec fn claim(reserved: Set<Seq<char>>, assigned: Seq<Seq<char>>, label: Option<Seq<char>>, prefix: Seq<char>, c: nat) -> (Seq<char>, nat) {
    if label is Some && !assigned.contains(label.unwrap()) {
        (label.unwrap(), c)
    } else {
        let n = first_free(reserved + assigned.to_set(), prefix, c);
        (indexed_id(prefix, n as int), n + 1)
    }
}

/// The identifiers assigned, and the counter, after the first `k` elements
/// with the given labels claim identifiers with `prefix`, starting from
/// `assigned` and counter 0.
pub open spec fn claim_state(reserved: Set<Seq<char>>, assigned: Seq<Seq<char>>, labels: Seq<Option<Seq<char>>>, prefix: Seq<char>, k: nat) -> (Seq<Seq<char>>, nat)
    decreases k,
{
    if k == 0 {
        (assigned, 0)
    } else {
        let prev = claim_state(reserved, assigned, labels, prefix, (k - 1) as nat);
        let next = claim(reserved, prev.0, labels[k - 1], prefix, prev.1);
        (prev.0.push(next.0), next.1)
    }
}

/// Whether `o` is an exported place with identifier `id`, name `name` and
/// `tokens[k]` tokens.
pub open spec fn exports_place(tokens: Seq<u32>, k: int, id: Seq<char>, name: Option<Seq<char>>, o: PageObject) -> bool {
    &&& o matches PageObject::Place(p)
    &&& p.id@ == id
    &&& opt_view(p.name) == name
    &&& p.initial_marking == (if tokens[k] > 0 { Some(NaturalNumberLabel { text: Some(tokens[k] as u64) }) } else { None })
}

/// Whether `o` is an exported transition with identifier `id` and name `name`.
pub open spec fn exports_transition(id: Seq<char>, name: Option<Seq<char>>, o: PageObject) -> bool {
    &&& o matches PageObject::Transition(t)
    &&& t.id@ == id
    &&& opt_view(t.name) == name
}

/// Whether `o` is an exported arc with identifier `id`, endpoints `source`
/// and `target`, and name `name`.
pub open spec fn exports_arc(id: Seq<char>, source: Seq<char>, target: Seq<char>, name: Option<Seq<char>>, o: PageObject) -> bool {
    &&& o matches PageObject::Arc(x)
    &&& x.id@ == id
    &&& x.source@ == source
    &&& x.target@ == target
    &&& opt_view(x.name) == name
    &&& x.inscription is None
    &&& x.arc_type is None
}

/// The identifier of a place, given the identifiers assigned so far (the
/// net's first, then the places' in dense order).
pub open spec fn place_ref(net: Net, ids: Seq<Seq<char>>, p: Place) -> Seq<char> {
    ids[1 + net.place_seq().index_of(p)]
}

/// The identifier of a transition, given the identifiers assigned so far (the
/// net's, the places', then the transitions' in dense order).
pub open spec fn transition_ref(net: Net, ids: Seq<Seq<char>>, t: Transition) -> Seq<char> {
    ids[1 + net.np() + net.transition_seq().index_of(t)]
}

/// The identifier of the node an arc leaves.
pub open spec fn source_ref(net: Net, ids: Seq<Seq<char>>, a: Arc) -> Seq<char> {
    match a {
        Arc::PlaceToTransition(p, _) => place_ref(net, ids, p),
        Arc::TransitionToPlace(t, _) => transition_ref(net, ids, t),
    }
}

/// The identifier of the node an arc enters.
pub open spec fn target_ref(net: Net, ids: Seq<Seq<char>>, a: Arc) -> Seq<char> {
    match a {
        Arc::PlaceToTransition(_, t) => transition_ref(net, ids, t),
        Arc::TransitionToPlace(_, p) => place_ref(net, ids, p),
    }
}

/// Whether `r` is the PNML representation of `net`, its arcs written in the
/// order of `arcs`, with `tokens[k]` tokens on its `k`-th place: a
/// place/transition net on one page listing every place, then every
/// transition, then every arc; identifiers claimed in that order (the net's
/// first, the page's last) and pairwise distinct; names from the labels;
/// each arc naming its endpoints by their identifiers.
pub open spec fn exports_with(net: Net, tokens: Seq<u32>, arcs: Seq<Arc>, r: PnmlNet) -> bool {
    let lab = net.labels_spec();
    let np = net.np();
    let nt = net.nt();
    let rs = label_ids(net, arcs);
    let nc = claim(rs, seq![], lab.net_id_spec(), seq!['n', 'e', 't'], 0);
    let ps = claim_state(rs, seq![nc.0], place_labels(net), seq!['p'], np);
    let ts = claim_state(rs, ps.0, transition_labels(net), seq!['t'], nt);
    let xs = claim_state(rs, ts.0, arc_labels(net, arcs), seq!['a'], arcs.len());
    let pg = claim(rs, xs.0, None, seq!['p', 'a', 'g', 'e'], 0);
    let objects = r.pages@[0].objects@;
    &&& r.id@ == nc.0
    &&& r.net_type@ == pt_net_type()
    &&& opt_view(r.name) == lab.net_name_spec()
    &&& r.tool_specific@.len() == 0
    &&& r.pages@.len() == 1
    &&& r.pages@[0].id@ == pg.0
    &&& objects.len() == np + nt + arcs.len()
    &&& forall|k: int| 0 <= k < np ==> #[trigger] exports_place(tokens, k, xs.0[1 + k], lab.place_name_of(net.place_seq()[k]), objects[k])
    &&& forall|k: int| 0 <= k < nt ==> #[trigger] exports_transition(xs.0[1 + np + k], lab.transition_name_of(net.transition_seq()[k]), objects[np + k])
    &&& forall|k: int| 0 <= k < arcs.len() ==> #[trigger] exports_arc(xs.0[1 + np + nt + k], source_ref(net, xs.0, arcs[k]),
        target_ref(net, xs.0, arcs[k]), lab.arc_name_of(arcs[k]), objects[np + nt + k])
    &&& xs.0.len() == 1 + np + nt + arcs.len()
    &&& xs.0.push(pg.0).no_duplicates()
    &&& forall|i: int, j: int| 0 <= i < j < objects.len() ==> object_id(#[trigger] objects[i]) != object_id(#[trigger] objects[j])
}

/// Whether `r` is the PNML representation of `net`, with `tokens[k]` tokens
/// on its `k`-th place, its arcs written in some order that lists each once.
pub open spec fn exports(net: Net, tokens: Seq<u32>, r: PnmlNet) -> bool {
    exists|arcs: Seq<Arc>| {
        &&& arcs.no_duplicates()
        &&& arcs.to_set() == net.arc_set()
        &&& arcs.len() == net.arc_set().len()
        &&& #[trigger] exports_with(net, tokens, arcs, r)
    }
}

/// A digit's character determines it.
proof fn lemma_digit_injective(x: int, y: int)
    requires
        0 <= x < 10,
        0 <= y < 10,
        digit_char(x) == digit_char(y),
    ensures
        x == y,
{
    if x == 0 {
    } else if x == 1 {
    } else if x == 2 {
    } else if x == 3 {
    } else if x == 4 {
    } else if x == 5 {
    } else if x == 6 {
    } else if x == 7 {
    } else if x == 8 {
    } else {
    }
}

/// A number's decimal digits determine it.
proof fn lemma_decimal_injective(a: nat, b: nat)
    requires
        decimal(a) == decimal(b),
    ensures
        a == b,
    decreases a,
{
    lemma_decimal_len(a);
    lemma_decimal_len(b);
    if a < 10 && b < 10 {
        assert(decimal(a) == seq![digit_char(a as int)]);
        assert(decimal(b) == seq![digit_char(b as int)]);
        assert(decimal(a)[0] == decimal(b)[0]);
        assert(seq![digit_char(a as int)][0] == digit_char(a as int));
        assert(seq![digit_char(b as int)][0] == digit_char(b as int));
        assert(digit_char(a as int) == digit_char(b as int));
        lemma_digit_injective(a as int, b as int);
    } else if a >= 10 && b >= 10 {
        assert(decimal(a).drop_last() == decimal(a / 10));
        assert(decimal(b).drop_last() == decimal(b / 10));
        assert(decimal(a) == decimal(a / 10).push(digit_char((a % 10) as int)));
        assert(decimal(b) == decimal(b / 10).push(digit_char((b % 10) as int)));
        assert(decimal(a).last() == decimal(b).last());
        assert(decimal(a).last() == digit_char((a % 10) as int));
        assert(decimal(b).last() == digit_char((b % 10) as int));
        lemma_digit_injective((a % 10) as int, (b % 10) as int);
        lemma_decimal_injective(a / 10, b / 10);
    }
}

/// Every number has at least one digit, and two or more from ten on.
proof fn lemma_decimal_len(n: nat)
    ensures
        decimal(n).len() >= 1,
        n >= 10 ==> decimal(n).len() >= 2,
        forall|i: int| 0 <= i < decimal(n).len() ==> #[trigger] decimal(n)[i] != 'a' && decimal(n)[i] != 'e',
    decreases n,
{
    if n >= 10 {
        lemma_decimal_len(n / 10);
        assert forall|i: int| 0 <= i < decimal(n).len() implies #[trigger] decimal(n)[i] != 'a' && decimal(n)[i] != 'e' by {
            if i < decimal(n).len() - 1 {
                assert(decimal(n)[i] == decimal(n / 10)[i]);
            }
        }
    }
}

/// Identifiers with one prefix are equal only for equal numbers.
proof fn lemma_indexed_id_injective(prefix: Seq<char>, a: int, b: int)
    requires
        a >= 0,
        b >= 0,
        indexed_id(prefix, a) == indexed_id(prefix, b),
    ensures
        a == b,
{
    assert(decimal(a as nat) == indexed_id(prefix, a).skip(prefix.len() as int));
    assert(decimal(b as nat) == indexed_id(prefix, b).skip(prefix.len() as int));
    lemma_decimal_injective(a as nat, b as nat);
}

/// Appends the decimal digits of `n` to `s`.
fn append_decimal(s: &mut String, n: u64)
    ensures
        final(s)@ == old(s)@ + decimal(n as nat),
    decreases n,
{
    if n >= 10 {
        append_decimal(s, n / 10);
    }
    let d = n % 10;
    let digit: &str = if d == 0 {
        proof { reveal_strlit("0"); }
        "0"
    } else if d == 1 {
        proof { reveal_strlit("1"); }
        "1"
    } else if d == 2 {
        proof { reveal_strlit("2"); }
        "2"
    } else if d == 3 {
        proof { reveal_strlit("3"); }
        "3"
    } else if d == 4 {
        proof { reveal_strlit("4"); }
        "4"
    } else if d == 5 {
        proof { reveal_strlit("5"); }
        "5"
    } else if d == 6 {
        proof { reveal_strlit("6"); }
        "6"
    } else if d == 7 {
        proof { reveal_strlit("7"); }
        "7"
    } else if d == 8 {
        proof { reveal_strlit("8"); }
        "8"
    } else {
        proof { reveal_strlit("9"); }
        "9"
    };
    assert(digit@ == seq![digit_char(d as int)]);
    let ghost before = s@;
    s.append(digit);
    proof {
        if n < 10 {
            assert(s@ =~= old(s)@ + decimal(n as nat));
        } else {
            assert(decimal(n as nat) == decimal((n / 10) as nat).push(digit_char((n % 10) as int)));
            assert(s@ =~= old(s)@ + decimal(n as nat));
        }
    }
}

/// The identifier made of `prefix` and the decimal digits of `k`.
fn make_id(prefix: &str, k: u64) -> (r: String)
    ensures
        r@ == indexed_id(prefix@, k as int),
{
    let mut s = prefix.to_owned();
    append_decimal(&mut s, k);
    s
}

/// Whether some string of `v` has the text of `s`.
fn contains_text(v: &Vec<String>, s: &String) -> (r: bool)
    ensures
        r == views(v@).contains(s@),
{
    let mut k: usize = 0;
    while k < v.len()
        invariant
            0 <= k <= v@.len(),
            forall|j: int| 0 <= j < k ==> (#[trigger] v@[j])@ != s@,
        decreases v@.len() - k,
    {
        if v[k] == *s {
            proof {
                assert(views(v@)[k as int] == s@);
            }
            return true;
        }
        k = k + 1;
    }
    proof {
        assert forall|j: int| 0 <= j < views(v@).len() implies views(v@)[j] != s@ by {
            assert(views(v@)[j] == v@[j]@);
        }
    }
    false
}

/// An owned copy of a borrowed optional text.
fn owned_text(o: Option<&str>) -> (r: Option<String>)
    ensures
        opt_view(r) == opt_str_view(o),
{
    match o {
        Some(s) => Some(s.to_owned()),
        None => None,
    }
}

/// The texts of strings after one more.
proof fn lemma_views_push(v: Seq<String>, s: String)
    ensures
        views(v.push(s)) == views(v).push(s@),
        views(v.push(s)).to_set() == views(v).to_set().insert(s@),
{
    broadcast use vstd::seq_lib::group_seq_properties;
    assert(views(v.push(s)) =~= views(v).push(s@));
    assert(views(v.push(s)).to_set() =~= views(v).to_set().insert(s@));
}

/// A sequence without repetitions stays so when a new text is added.
proof fn lemma_push_fresh(s: Seq<Seq<char>>, x: Seq<char>)
    requires
        s.no_duplicates(),
        !s.contains(x),
    ensures
        s.push(x).no_duplicates(),
{
    assert forall|i: int, j: int| 0 <= i < s.push(x).len() && 0 <= j < s.push(x).len() && i != j implies s.push(x)[i] != s.push(x)[j] by {
        if i < s.len() && j < s.len() {
        } else if i < s.len() {
            assert(s[i] == s.push(x)[i]);
        } else {
            assert(s[j] == s.push(x)[j]);
        }
    }
}

/// The present texts of the first `k + 1` labels: those of the first `k`,
/// and the `k`-th label's text when it has one.
proof fn lemma_reserve_step(before: Seq<String>, after: Seq<String>, base: Set<Seq<char>>, ls: Seq<Option<Seq<char>>>, k: int)
    requires
        0 <= k < ls.len(),
        views(before).to_set() == base + present(ls.take(k)),
        match ls[k] {
            Some(s) => views(after) == views(before).push(s),
            None => after == before,
        },
    ensures
        views(after).to_set() == base + present(ls.take(k + 1)),
{
    broadcast use vstd::seq_lib::group_seq_properties;
    let pre = ls.take(k);
    assert(ls.take(k + 1) =~= pre.push(ls[k]));
    assert forall|s: Seq<char>| present(ls.take(k + 1)).contains(s) <==> present(pre).contains(s) || ls[k] == Some(s) by {
        if pre.push(ls[k]).contains(Some(s)) {
            let i = choose|i: int| 0 <= i < pre.push(ls[k]).len() && pre.push(ls[k])[i] == Some(s);
            if i < pre.len() {
                assert(pre[i] == Some(s));
            }
        }
        if pre.contains(Some(s)) {
            let i = choose|i: int| 0 <= i < pre.len() && pre[i] == Some(s);
            assert(pre.push(ls[k])[i] == Some(s));
        }
        if ls[k] == Some(s) {
            assert(pre.push(ls[k])[pre.len() as int] == Some(s));
        }
    }
    match ls[k] {
        Some(v) => {
            assert(views(after).to_set() =~= views(before).to_set().insert(v));
        },
        None => {},
    }
    assert(views(after).to_set() =~= base + present(ls.take(k + 1)));
}

/// Numbered identifiers of one prefix below `n` that all lie in a finite set
/// are no more than its size.
proof fn lemma_numbered_bound(taken: Set<Seq<char>>, prefix: Seq<char>, n: nat)
    requires
        taken.finite(),
        forall|m: nat| m < n ==> taken.contains(#[trigger] indexed_id(prefix, m as int)),
    ensures
        n <= taken.len(),
{
    let dom = set_int_range(0, n as int);
    let f = |m: int| indexed_id(prefix, m);
    lemma_int_range(0, n as int);
    assert(injective_on(f, dom)) by {
        assert forall|a: int, b: int| dom.contains(a) && dom.contains(b) && #[trigger] f(a) == #[trigger] f(b) implies a == b by {
            lemma_indexed_id_injective(prefix, a, b);
        }
    }
    lemma_map_size(dom, dom.map(f), f);
    assert(dom.map(f).subset_of(taken)) by {
        assert forall|x: Seq<char>| dom.map(f).contains(x) implies taken.contains(x) by {
            let m = choose|m: int| dom.contains(m) && x == f(m);
            assert(taken.contains(indexed_id(prefix, (m as nat) as int)));
        }
    }
    lemma_len_subset(dom.map(f), taken);
}

/// The first free number is the one from `c` on whose identifier is not
/// taken while those before it are.
proof fn lemma_first_free(taken: Set<Seq<char>>, prefix: Seq<char>, c: nat, n: nat)
    requires
        c <= n,
        !taken.contains(indexed_id(prefix, n as int)),
        forall|m: nat| c <= m < n ==> taken.contains(#[trigger] indexed_id(prefix, m as int)),
    ensures
        first_free(taken, prefix, c) == n,
{
    let f = first_free(taken, prefix, c);
    assert(c <= n && !taken.contains(indexed_id(prefix, n as int)) && forall|m: nat| c <= m < n ==> taken.contains(#[trigger] indexed_id(prefix, m as int)));
    if f < n {
        assert(taken.contains(indexed_id(prefix, f as int)));
    }
    if f > n {
        assert(taken.contains(indexed_id(prefix, n as int)));
    }
}

/// Claiming only appends: the identifiers assigned before stay in place, and
/// each claim adds one.
proof fn lemma_claim_state_extends(reserved: Set<Seq<char>>, assigned: Seq<Seq<char>>, labels: Seq<Option<Seq<char>>>, prefix: Seq<char>, k: nat)
    ensures
        claim_state(reserved, assigned, labels, prefix, k).0.len() == assigned.len() + k,
        forall|i: int| 0 <= i < assigned.len() ==> #[trigger] claim_state(reserved, assigned, labels, prefix, k).0[i] == assigned[i],
    decreases k,
{
    if k > 0 {
        lemma_claim_state_extends(reserved, assigned, labels, prefix, (k - 1) as nat);
    }
}

/// The identifiers the labels give the net, its places, its transitions and
/// the arcs listed in `arcs`, in the order in which they are claimed.
pub open spec fn all_labels(net: Net, arcs: Seq<Arc>) -> Seq<Option<Seq<char>>> {
    seq![net.labels_spec().net_id_spec()] + place_labels(net) + transition_labels(net) + arc_labels(net, arcs)
}

/// When every element claiming identifiers has a label, and the labels are
/// pairwise distinct and not yet assigned, each element gets its label.
proof fn lemma_claim_state_labels(reserved: Set<Seq<char>>, assigned: Seq<Seq<char>>, labels: Seq<Option<Seq<char>>>, prefix: Seq<char>, k: nat)
    requires
        k <= labels.len(),
        forall|j: int| 0 <= j < k ==> (#[trigger] labels[j]) is Some,
        forall|j: int| 0 <= j < k ==> !assigned.contains((#[trigger] labels[j]).unwrap()),
        forall|i: int, j: int| 0 <= i < j < k ==> #[trigger] labels[i] != #[trigger] labels[j],
    ensures
        claim_state(reserved, assigned, labels, prefix, k).0.len() == assigned.len() + k,
        forall|j: int| 0 <= j < k ==> #[trigger] claim_state(reserved, assigned, labels, prefix, k).0[assigned.len() + j] == labels[j].unwrap(),
    decreases k,
{
    lemma_claim_state_extends(reserved, assigned, labels, prefix, k);
    if k > 0 {
        let k1 = (k - 1) as nat;
        lemma_claim_state_labels(reserved, assigned, labels, prefix, k1);
        lemma_claim_state_extends(reserved, assigned, labels, prefix, k1);
        let prev = claim_state(reserved, assigned, labels, prefix, k1);
        let x = labels[k - 1].unwrap();
        assert(labels[k - 1] is Some);
        if prev.0.contains(x) {
            let i = choose|i: int| 0 <= i < prev.0.len() && prev.0[i] == x;
            if i < assigned.len() {
                assert(prev.0[i] == assigned[i]);
                assert(assigned.contains(x));
            } else {
                let j = i - assigned.len();
                assert(prev.0[assigned.len() + j] == labels[j].unwrap());
                assert(labels[j] is Some);
                assert(labels[j] == labels[k - 1]);
            }
        }
    }
}

/// When the labels give the net and each of its places, transitions and
/// arcs an identifier, all pairwise distinct, the export writes every one of
/// them unchanged: the net's and each element's identifier is its label.
pub proof fn law_export_keeps_distinct_labels(net: Net, tokens: Seq<u32>, arcs: Seq<Arc>, r: PnmlNet)
    requires
        exports_with(net, tokens, arcs, r),
        forall|i: int| 0 <= i < all_labels(net, arcs).len() ==> (#[trigger] all_labels(net, arcs)[i]) is Some,
        forall|i: int, j: int| 0 <= i < j < all_labels(net, arcs).len() ==> #[trigger] all_labels(net, arcs)[i] != #[trigger] all_labels(
            net,
            arcs,
        )[j],
    ensures
        Some(r.id@) == net.labels_spec().net_id_spec(),
        forall|k: int| 0 <= k < net.np() ==> Some(object_id(#[trigger] r.pages@[0].objects@[k])) == place_labels(net)[k],
        forall|k: int| 0 <= k < net.nt() ==> Some(object_id(#[trigger] r.pages@[0].objects@[net.np() + k])) == transition_labels(net)[k],
        forall|k: int| 0 <= k < arcs.len() ==> Some(object_id(#[trigger] r.pages@[0].objects@[net.np() + net.nt() + k])) == arc_labels(
            net,
            arcs,
        )[k],
{
    let lab = net.labels_spec();
    let np = net.np() as int;
    let nt = net.nt() as int;
    let al = all_labels(net, arcs);
    let pl = place_labels(net);
    let tl = transition_labels(net);
    let xl = arc_labels(net, arcs);
    let rs = label_ids(net, arcs);
    let objects = r.pages@[0].objects@;
    assert(al[0] == lab.net_id_spec());
    assert forall|k: int| 0 <= k < np implies #[trigger] al[1 + k] == pl[k] by {}
    assert forall|k: int| 0 <= k < nt implies #[trigger] al[1 + np + k] == tl[k] by {}
    assert forall|k: int| 0 <= k < arcs.len() implies #[trigger] al[1 + np + nt + k] == xl[k] by {}
    assert(al[0] is Some);
    let nid = lab.net_id_spec().unwrap();
    let nc = claim(rs, seq![], lab.net_id_spec(), seq!['n', 'e', 't'], 0);
    assert(nc.0 == nid);
    // the places
    assert forall|j: int| 0 <= j < np implies (#[trigger] pl[j]) is Some by {
        assert(al[1 + j] is Some);
    }
    assert forall|j: int| 0 <= j < np implies !seq![nid].contains((#[trigger] pl[j]).unwrap()) by {
        assert(al[1 + j] is Some);
        assert(al[0] != al[1 + j]);
    }
    assert forall|i: int, j: int| 0 <= i < j < np implies #[trigger] pl[i] != #[trigger] pl[j] by {
        assert(al[1 + i] != al[1 + j]);
    }
    lemma_claim_state_labels(rs, seq![nid], pl, seq!['p'], np as nat);
    let ps = claim_state(rs, seq![nid], pl, seq!['p'], np as nat);
    lemma_claim_state_extends(rs, seq![nid], pl, seq!['p'], np as nat);
    // the transitions
    assert forall|j: int| 0 <= j < nt implies (#[trigger] tl[j]) is Some by {
        assert(al[1 + np + j] is Some);
    }
    assert forall|j: int| 0 <= j < nt implies !ps.0.contains((#[trigger] tl[j]).unwrap()) by {
        assert(al[1 + np + j] is Some);
        if ps.0.contains(tl[j].unwrap()) {
            let i = choose|i: int| 0 <= i < ps.0.len() && ps.0[i] == tl[j].unwrap();
            if i == 0 {
                assert(ps.0[0] == nid);
                assert(al[0] != al[1 + np + j]);
            } else {
                assert(ps.0[1 + (i - 1)] == pl[i - 1].unwrap());
                assert(al[1 + (i - 1)] is Some);
                assert(al[1 + (i - 1)] != al[1 + np + j]);
            }
        }
    }
    assert forall|i: int, j: int| 0 <= i < j < nt implies #[trigger] tl[i] != #[trigger] tl[j] by {
        assert(al[1 + np + i] != al[1 + np + j]);
    }
    lemma_claim_state_labels(rs, ps.0, tl, seq!['t'], nt as nat);
    let ts = claim_state(rs, ps.0, tl, seq!['t'], nt as nat);
    lemma_claim_state_extends(rs, ps.0, tl, seq!['t'], nt as nat);
    // the arcs
    let na = arcs.len() as int;
    assert forall|j: int| 0 <= j < na implies (#[trigger] xl[j]) is Some by {
        assert(al[1 + np + nt + j] is Some);
    }
    assert forall|j: int| 0 <= j < na implies !ts.0.contains((#[trigger] xl[j]).unwrap()) by {
        assert(al[1 + np + nt + j] is Some);
        if ts.0.contains(xl[j].unwrap()) {
            let i = choose|i: int| 0 <= i < ts.0.len() && ts.0[i] == xl[j].unwrap();
            if i == 0 {
                assert(ts.0[0] == ps.0[0]);
                assert(ps.0[0] == nid);
                assert(al[0] != al[1 + np + nt + j]);
            } else if i < 1 + np {
                assert(ts.0[i] == ps.0[i]);
                assert(ps.0[1 + (i - 1)] == pl[i - 1].unwrap());
                assert(al[1 + (i - 1)] is Some);
                assert(al[1 + (i - 1)] != al[1 + np + nt + j]);
            } else {
                assert(ts.0[(1 + np) + (i - 1 - np)] == tl[i - 1 - np].unwrap());
                assert(al[1 + np + (i - 1 - np)] is Some);
                assert(al[1 + np + (i - 1 - np)] != al[1 + np + nt + j]);
            }
        }
    }
    assert forall|i: int, j: int| 0 <= i < j < na implies #[trigger] xl[i] != #[trigger] xl[j] by {
        assert(al[1 + np + nt + i] != al[1 + np + nt + j]);
    }
    lemma_claim_state_labels(rs, ts.0, xl, seq!['a'], na as nat);
    let xs = claim_state(rs, ts.0, xl, seq!['a'], na as nat);
    lemma_claim_state_extends(rs, ts.0, xl, seq!['a'], na as nat);
    assert forall|k: int| 0 <= k < np implies Some(object_id(#[trigger] objects[k])) == pl[k] by {
        assert(exports_place(tokens, k, xs.0[1 + k], lab.place_name_of(net.place_seq()[k]), objects[k]));
        assert(xs.0[1 + k] == ts.0[1 + k]);
        assert(ts.0[1 + k] == ps.0[1 + k]);
        assert(ps.0[1 + k] == pl[k].unwrap());
    }
    assert forall|k: int| 0 <= k < nt implies Some(object_id(#[trigger] objects[np + k])) == tl[k] by {
        assert(exports_transition(xs.0[1 + np + k], lab.transition_name_of(net.transition_seq()[k]), objects[np + k]));
        assert(xs.0[1 + np + k] == ts.0[1 + np + k]);
        assert(ts.0[(1 + np) + k] == tl[k].unwrap());
    }
    assert forall|k: int| 0 <= k < na implies Some(object_id(#[trigger] objects[np + nt + k])) == xl[k] by {
        assert(exports_arc(xs.0[1 + np + nt + k], source_ref(net, xs.0, arcs[k]), target_ref(net, xs.0, arcs[k]), lab.arc_name_of(arcs[k]), objects[np + nt + k]));
        assert(xs.0[(1 + np + nt) + k] == xl[k].unwrap());
    }
}

/// Gives the next element its identifier: its label, when it has one that no
/// element holds yet, else the first identifier made of `prefix` and a number
/// from `counter` on that is neither reserved nor assigned. `taken` holds the
/// reserved and the assigned identifiers.
fn claim_id(
    taken: &mut Vec<String>,
    assigned: &mut Vec<String>,
    label: Option<&str>,
    prefix: &str,
    counter: &mut usize,
    Ghost(reserved): Ghost<Set<Seq<char>>>,
) -> (r: String)
    requires
        views(old(taken)@).to_set() == reserved + views(old(assigned)@).to_set(),
        label matches Some(l) ==> reserved.contains(l@),
        forall|m: nat| m < *old(counter) ==> views(old(taken)@).contains(#[trigger] indexed_id(prefix@, m as int)),
    ensures
        (r@, *final(counter) as nat) == claim(reserved, views(old(assigned)@), opt_str_view(label), prefix@, *old(counter) as nat),
        !views(old(assigned)@).contains(r@),
        views(final(assigned)@) == views(old(assigned)@).push(r@),
        views(final(taken)@).to_set() == reserved + views(final(assigned)@).to_set(),
        forall|m: nat| m < *final(counter) ==> views(final(taken)@).contains(#[trigger] indexed_id(prefix@, m as int)),
{
    if let Some(l) = label {
        let owned = l.to_owned();
        if !contains_text(assigned, &owned) {
            let ghost before = assigned@;
            let copy = owned.clone();
            assigned.push(copy);
            proof {
                lemma_views_push(before, copy);
                assert(reserved + views(assigned@).to_set() =~= reserved + views(before).to_set());
            }
            return owned;
        }
    }
    let ghost c0 = *counter as nat;
    let ghost tk = views(taken@).to_set();
    let mut candidate = make_id(prefix, *counter as u64);
    while contains_text(taken, &candidate)
        invariant
            c0 <= *counter,
            taken@ == old(taken)@,
            candidate@ == indexed_id(prefix@, *counter as int),
            forall|m: nat| m < *counter ==> views(taken@).contains(#[trigger] indexed_id(prefix@, m as int)),
        decreases taken@.len() - *counter,
    {
        let len = taken.len();
        proof {
            assert forall|m: nat| m < *counter + 1 implies views(taken@).to_set().contains(#[trigger] indexed_id(prefix@, m as int)) by {
                if m < *counter {
                    assert(views(taken@).contains(indexed_id(prefix@, m as int)));
                }
            }
            lemma_numbered_bound(views(taken@).to_set(), prefix@, (*counter + 1) as nat);
            views(taken@).lemma_cardinality_of_set();
        }
        *counter = *counter + 1;
        candidate = make_id(prefix, *counter as u64);
    }
    let ghost n = *counter as nat;
    proof {
        assert forall|m: nat| c0 <= m < n implies tk.contains(#[trigger] indexed_id(prefix@, m as int)) by {
            assert(views(taken@).contains(indexed_id(prefix@, m as int)));
        }
        lemma_first_free(tk, prefix@, c0, n);
        match label {
            Some(l) => {
                assert(views(old(assigned)@).contains(l@));
            },
            None => {},
        }
    }
    let ghost before_taken = taken@;
    let ghost before_assigned = assigned@;
    let copy1 = candidate.clone();
    let copy2 = candidate.clone();
    taken.push(copy1);
    assigned.push(copy2);
    let len = taken.len();
    proof {
        lemma_views_push(before_taken, copy1);
        lemma_views_push(before_assigned, copy2);
        assert(views(taken@).to_set() =~= reserved + views(assigned@).to_set());
        assert forall|m: nat| m < n + 1 implies views(taken@).to_set().contains(#[trigger] indexed_id(prefix@, m as int)) by {
            if m < n {
                assert(views(before_taken).contains(indexed_id(prefix@, m as int)));
            } else {
                assert(views(taken@)[views(before_taken).len() as int] == candidate@);
            }
        }
        lemma_numbered_bound(views(taken@).to_set(), prefix@, n + 1);
        views(taken@).lemma_cardinality_of_set();
    }
    *counter = *counter + 1;
    candidate
}

/// Collects every identifier the labels record for the net, its places, its
/// transitions and the arcs listed in `arcs`.
fn reserve_label_ids(net: &Net, places: &Vec<Place>, transitions: &Vec<Transition>, arcs: &Vec<Arc>) -> (r: Vec<String>)
    requires
        places@ == net.place_seq(),
        transitions@ == net.transition_seq(),
    ensures
        views(r@).to_set() == label_ids(*net, arcs@),
{
    broadcast use vstd::seq_lib::group_seq_properties;
    let labels = net.labels();
    let mut taken: Vec<String> = Vec::new();
    match labels.net_id() {
        Some(s) => {
            let owned = s.to_owned();
            taken.push(owned);
            proof {
                assert(views(taken@) =~= seq![s@]);
            }
        },
        None => {},
    }
    let ghost base = net_label_ids(*net);
    proof {
        assert(views(taken@).to_set() =~= base + present(place_labels(*net).take(0)));
    }
    let mut k: usize = 0;
    while k < places.len()
        invariant
            0 <= k <= places@.len(),
            places@ == net.place_seq(),
            *labels == net.labels_spec(),
            views(taken@).to_set() == base + present(place_labels(*net).take(k as int)),
        decreases places@.len() - k,
    {
        let ghost before = taken@;
        match labels.place_id(places[k]) {
            Some(s) => {
                let owned = s.to_owned();
                taken.push(owned);
                proof {
                    lemma_views_push(before, owned);
                }
            },
            None => {},
        }
        proof {
            lemma_reserve_step(before, taken@, base, place_labels(*net), k as int);
        }
        k = k + 1;
    }
    let ghost base = base + present(place_labels(*net));
    proof {
        assert(place_labels(*net).take(k as int) =~= place_labels(*net));
        assert(views(taken@).to_set() =~= base + present(transition_labels(*net).take(0)));
    }
    let mut k: usize = 0;
    while k < transitions.len()
        invariant
            0 <= k <= transitions@.len(),
            transitions@ == net.transition_seq(),
            *labels == net.labels_spec(),
            views(taken@).to_set() == base + present(transition_labels(*net).take(k as int)),
        decreases transitions@.len() - k,
    {
        let ghost before = taken@;
        match labels.transition_id(transitions[k]) {
            Some(s) => {
                let owned = s.to_owned();
                taken.push(owned);
                proof {
                    lemma_views_push(before, owned);
                }
            },
            None => {},
        }
        proof {
            lemma_reserve_step(before, taken@, base, transition_labels(*net), k as int);
        }
        k = k + 1;
    }
    let ghost base = base + present(transition_labels(*net));
    proof {
        assert(transition_labels(*net).take(k as int) =~= transition_labels(*net));
        assert(views(taken@).to_set() =~= base + present(arc_labels(*net, arcs@).take(0)));
    }
    let mut k: usize = 0;
    while k < arcs.len()
        invariant
            0 <= k <= arcs@.len(),
            *labels == net.labels_spec(),
            views(taken@).to_set() == base + present(arc_labels(*net, arcs@).take(k as int)),
        decreases arcs@.len() - k,
    {
        let ghost before = taken@;
        match labels.arc_id(arcs[k]) {
            Some(s) => {
                let owned = s.to_owned();
                taken.push(owned);
                proof {
                    lemma_views_push(before, owned);
                }
            },
            None => {},
        }
        proof {
            lemma_reserve_step(before, taken@, base, arc_labels(*net, arcs@), k as int);
        }
        k = k + 1;
    }
    proof {
        assert(arc_labels(*net, arcs@).take(k as int) =~= arc_labels(*net, arcs@));
    }
    taken
}

/// The position of place `p` in the net's order, given as a position in a
/// list of the net's places.
proof fn lemma_index_of_place(net: Net, i: int, p: Place)
    requires
        net.place_seq().no_duplicates(),
        0 <= i < net.place_seq().len(),
        net.place_seq()[i] == p,
    ensures
        net.place_seq().index_of(p) == i,
{
    let j = net.place_seq().index_of(p);
    assert(net.place_seq().contains(p));
}

/// The position of transition `t` in the net's order, given as a position in
/// a list of the net's transitions.
proof fn lemma_index_of_transition(net: Net, i: int, t: Transition)
    requires
        net.transition_seq().no_duplicates(),
        0 <= i < net.transition_seq().len(),
        net.transition_seq()[i] == t,
    ensures
        net.transition_seq().index_of(t) == i,
{
    let j = net.transition_seq().index_of(t);
    assert(net.transition_seq().contains(t));
}

/// The endpoints' identifiers of an arc of the net do not change when more
/// identifiers are assigned after those of the net's nodes.
proof fn lemma_refs_stable(net: Net, ids: Seq<Seq<char>>, more: Seq<char>, a: Arc)
    requires
        crate::net::arcs_join(net.place_seq(), net.transition_seq(), net.arc_set()),
        net.arc_set().contains(a),
        ids.len() >= 1 + net.np() + net.nt(),
    ensures
        source_ref(net, ids.push(more), a) == source_ref(net, ids, a),
        target_ref(net, ids.push(more), a) == target_ref(net, ids, a),
{
    let p = a.place_of();
    let t = a.transition_of();
    assert(net.place_seq().contains(p));
    assert(net.transition_seq().contains(t));
    let i = net.place_seq().index_of(p);
    let j = net.transition_seq().index_of(t);
    assert(0 <= i < net.np());
    assert(0 <= j < net.nt());
}

/// Builds the PNML representation of a net, with `marking` written as the
/// places' initial markings when given.
#[verifier::rlimit(50)]
pub fn export_net(net: &Net, marking: Option<&Marking<u32>>) -> (r: PnmlNet)
    requires
        net.wf(),
        marking matches Some(m) ==> m.wf(),
    ensures
        exports(*net, marking_tokens(*net, deref_marking(marking)), r),
{
    proof {
        net.lemma_wf();
        reveal_strlit("p");
        reveal_strlit("t");
        reveal_strlit("a");
        reveal_strlit("net");
        reveal_strlit("page");
    }
    let labels = net.labels();
    let places = net.places();
    let transitions = net.transitions();
    let arcs = net.arcs();
    proof {
        arcs@.unique_seq_to_set();
    }
    let np = places.len();
    let nt = transitions.len();
    let ghost lab = net.labels_spec();
    let ghost mk = marking_tokens(*net, deref_marking(marking));
    let ghost rs = label_ids(*net, arcs@);
    let mut taken = reserve_label_ids(net, &places, &transitions, &arcs);
    let mut assigned: Vec<String> = Vec::new();

    // The net's identifier.
    let net_label = labels.net_id();
    let mut counter: usize = 0;
    proof {
        assert(views(assigned@).to_set() =~= Set::empty());
        assert(views(taken@).to_set() =~= rs + views(assigned@).to_set());
        match net_label {
            Some(l) => {
                assert(net_label_ids(*net).contains(l@));
            },
            None => {},
        }
    }
    let net_id = claim_id(&mut taken, &mut assigned, net_label, "net", &mut counter, Ghost(rs));
    let ghost nc = claim(rs, seq![], lab.net_id_spec(), seq!['n', 'e', 't'], 0);
    proof {
        assert(views(Seq::<String>::empty()) =~= seq![]);
        assert("net"@ == seq!['n', 'e', 't']);
        assert(opt_str_view(net_label) == lab.net_id_spec());
        assert(net_id@ == nc.0);
        assert(views(assigned@) =~= seq![nc.0]);
        assert(views(assigned@).no_duplicates());
    }

    // The places, each with its identifier, name and tokens.
    let ghost a0 = views(assigned@);
    let pp: &str = "p";
    let mut counter: usize = 0;
    let mut objects: Vec<PageObject> = Vec::new();
    let mut k: usize = 0;
    while k < np
        invariant
            0 <= k <= np,
            np == net.np(),
            places@ == net.place_seq(),
            *labels == lab,
            lab == net.labels_spec(),
            pp@ == seq!['p'],
            mk == marking_tokens(*net, deref_marking(marking)),
            marking matches Some(m) ==> m.wf(),
            rs == label_ids(*net, arcs@),
            a0.len() == 1,
            views(taken@).to_set() == rs + views(assigned@).to_set(),
            views(assigned@).no_duplicates(),
            (views(assigned@), counter as nat) == claim_state(rs, a0, place_labels(*net), seq!['p'], k as nat),
            views(assigned@).len() == 1 + k,
            forall|m: nat| m < counter ==> views(taken@).contains(#[trigger] indexed_id(seq!['p'], m as int)),
            objects@.len() == k,
            forall|x: int| 0 <= x < k ==> #[trigger] exports_place(mk, x, views(assigned@)[1 + x], lab.place_name_of(net.place_seq()[x]), objects@[x]),
        decreases np - k,
    {
        let p = places[k];
        let label = labels.place_id(p);
        proof {
            match label {
                Some(l) => {
                    assert(place_labels(*net)[k as int] == Some(l@));
                    assert(present(place_labels(*net)).contains(l@));
                },
                None => {},
            }
        }
        let ghost before = views(assigned@);
        let id = claim_id(&mut taken, &mut assigned, label, pp, &mut counter, Ghost(rs));
        proof {
            lemma_push_fresh(before, id@);
        }
        let tokens: u32 = match marking {
            Some(m) => m.get(p),
            None => 0,
        };
        let initial_marking = if tokens > 0 {
            Some(NaturalNumberLabel { text: Some(tokens as u64) })
        } else {
            None
        };
        let name = owned_text(labels.place_name(p));
        let ghost objs = objects@;
        objects.push(PageObject::Place(crate::pnml::net::Place { id, name, initial_marking }));
        proof {
            assert forall|x: int| 0 <= x < k + 1 implies #[trigger] exports_place(mk, x, views(assigned@)[1 + x], lab.place_name_of(net.place_seq()[x]), objects@[x]) by {
                if x < k {
                    assert(objects@[x] == objs[x]);
                    assert(views(assigned@)[1 + x] == before[1 + x]);
                }
            }
        }
        k = k + 1;
    }
    let ghost ps = claim_state(rs, a0, place_labels(*net), seq!['p'], np as nat);

    // The transitions, each with its identifier and name.
    let ghost a1 = views(assigned@);
    let tp: &str = "t";
    let mut counter: usize = 0;
    let mut k: usize = 0;
    while k < nt
        invariant
            0 <= k <= nt,
            np == net.np(),
            nt == net.nt(),
            transitions@ == net.transition_seq(),
            *labels == lab,
            lab == net.labels_spec(),
            tp@ == seq!['t'],
            mk == marking_tokens(*net, deref_marking(marking)),
            rs == label_ids(*net, arcs@),
            a1.len() == 1 + np,
            views(taken@).to_set() == rs + views(assigned@).to_set(),
            views(assigned@).no_duplicates(),
            (views(assigned@), counter as nat) == claim_state(rs, a1, transition_labels(*net), seq!['t'], k as nat),
            views(assigned@).len() == 1 + np + k,
            forall|m: nat| m < counter ==> views(taken@).contains(#[trigger] indexed_id(seq!['t'], m as int)),
            objects@.len() == np + k,
            forall|x: int| 0 <= x < np ==> #[trigger] exports_place(mk, x, views(assigned@)[1 + x], lab.place_name_of(net.place_seq()[x]), objects@[x]),
            forall|x: int| 0 <= x < k ==> #[trigger] exports_transition(views(assigned@)[1 + np + x], lab.transition_name_of(net.transition_seq()[x]), objects@[np + x]),
        decreases nt - k,
    {
        let t = transitions[k];
        let label = labels.transition_id(t);
        proof {
            match label {
                Some(l) => {
                    assert(transition_labels(*net)[k as int] == Some(l@));
                    assert(present(transition_labels(*net)).contains(l@));
                },
                None => {},
            }
        }
        let ghost before = views(assigned@);
        let id = claim_id(&mut taken, &mut assigned, label, tp, &mut counter, Ghost(rs));
        proof {
            lemma_push_fresh(before, id@);
        }
        let name = owned_text(labels.transition_name(t));
        let ghost objs = objects@;
        objects.push(PageObject::Transition(crate::pnml::net::Transition { id, name }));
        proof {
            assert forall|x: int| 0 <= x < np implies #[trigger] exports_place(mk, x, views(assigned@)[1 + x], lab.place_name_of(net.place_seq()[x]), objects@[x]) by {
                assert(objects@[x] == objs[x]);
                assert(views(assigned@)[1 + x] == before[1 + x]);
            }
            assert forall|x: int| 0 <= x < k + 1 implies #[trigger] exports_transition(views(assigned@)[1 + np + x], lab.transition_name_of(net.transition_seq()[x]), objects@[np + x]) by {
                if x < k {
                    assert(objects@[np + x] == objs[np + x]);
                    assert(views(assigned@)[1 + np + x] == before[1 + np + x]);
                }
            }
        }
        k = k + 1;
    }
    let ghost ts = claim_state(rs, a1, transition_labels(*net), seq!['t'], nt as nat);

    // The arcs, each with its identifier, endpoints and name.
    let ghost a2 = views(assigned@);
    let ap: &str = "a";
    let mut counter: usize = 0;
    let mut k: usize = 0;
    while k < arcs.len()
        invariant
            0 <= k <= arcs@.len(),
            np == net.np(),
            nt == net.nt(),
            places@ == net.place_seq(),
            transitions@ == net.transition_seq(),
            net.place_seq().no_duplicates(),
            net.transition_seq().no_duplicates(),
            arcs@.to_set() == net.arc_set(),
            crate::net::arcs_join(net.place_seq(), net.transition_seq(), net.arc_set()),
            *labels == lab,
            lab == net.labels_spec(),
            ap@ == seq!['a'],
            net.np() + net.nt() <= usize::MAX,
            mk == marking_tokens(*net, deref_marking(marking)),
            rs == label_ids(*net, arcs@),
            a2.len() == 1 + np + nt,
            views(taken@).to_set() == rs + views(assigned@).to_set(),
            views(assigned@).no_duplicates(),
            (views(assigned@), counter as nat) == claim_state(rs, a2, arc_labels(*net, arcs@), seq!['a'], k as nat),
            views(assigned@).len() == 1 + np + nt + k,
            forall|m: nat| m < counter ==> views(taken@).contains(#[trigger] indexed_id(seq!['a'], m as int)),
            objects@.len() == np + nt + k,
            forall|x: int| 0 <= x < np ==> #[trigger] exports_place(mk, x, views(assigned@)[1 + x], lab.place_name_of(net.place_seq()[x]), objects@[x]),
            forall|x: int| 0 <= x < nt ==> #[trigger] exports_transition(views(assigned@)[1 + np + x], lab.transition_name_of(net.transition_seq()[x]), objects@[np + x]),
            forall|x: int| 0 <= x < k ==> #[trigger] exports_arc(views(assigned@)[1 + np + nt + x], source_ref(*net, views(assigned@), arcs@[x]),
                target_ref(*net, views(assigned@), arcs@[x]), lab.arc_name_of(arcs@[x]), objects@[np + nt + x]),
        decreases arcs@.len() - k,
    {
        let a = arcs[k];
        proof {
            assert(arcs@.to_set().contains(a));
        }
        let (source, target) = match a {
            Arc::PlaceToTransition(p, t) => {
                let i = crate::net::vec_position_place(&places, p).unwrap();
                let j = crate::net::vec_position_transition(&transitions, t).unwrap();
                proof {
                    lemma_index_of_place(*net, i as int, p);
                    lemma_index_of_transition(*net, j as int, t);
                }
                (assigned[1 + i].clone(), assigned[1 + np + j].clone())
            },
            Arc::TransitionToPlace(t, p) => {
                let i = crate::net::vec_position_place(&places, p).unwrap();
                let j = crate::net::vec_position_transition(&transitions, t).unwrap();
                proof {
                    lemma_index_of_place(*net, i as int, p);
                    lemma_index_of_transition(*net, j as int, t);
                }
                (assigned[1 + np + j].clone(), assigned[1 + i].clone())
            },
        };
        proof {
            assert(source@ == source_ref(*net, views(assigned@), a));
            assert(target@ == target_ref(*net, views(assigned@), a));
        }
        let label = labels.arc_id(a);
        proof {
            match label {
                Some(l) => {
                    assert(arc_labels(*net, arcs@)[k as int] == Some(l@));
                    assert(present(arc_labels(*net, arcs@)).contains(l@));
                },
                None => {},
            }
        }
        let ghost before = views(assigned@);
        let id = claim_id(&mut taken, &mut assigned, label, ap, &mut counter, Ghost(rs));
        proof {
            lemma_push_fresh(before, id@);
            lemma_refs_stable(*net, before, id@, a);
        }
        let name = owned_text(labels.arc_name(a));
        let ghost objs = objects@;
        objects.push(PageObject::Arc(crate::pnml::net::Arc { id, source, target, name, inscription: None, arc_type: None }));
        proof {
            assert forall|x: int| 0 <= x < np implies #[trigger] exports_place(mk, x, views(assigned@)[1 + x], lab.place_name_of(net.place_seq()[x]), objects@[x]) by {
                assert(objects@[x] == objs[x]);
                assert(views(assigned@)[1 + x] == before[1 + x]);
            }
            assert forall|x: int| 0 <= x < nt implies #[trigger] exports_transition(views(assigned@)[1 + np + x], lab.transition_name_of(net.transition_seq()[x]), objects@[np + x]) by {
                assert(objects@[np + x] == objs[np + x]);
                assert(views(assigned@)[1 + np + x] == before[1 + np + x]);
            }
            assert forall|x: int| 0 <= x < k + 1 implies #[trigger] exports_arc(views(assigned@)[1 + np + nt + x], source_ref(*net, views(assigned@), arcs@[x]),
                target_ref(*net, views(assigned@), arcs@[x]), lab.arc_name_of(arcs@[x]), objects@[np + nt + x]) by {
                assert(arcs@.to_set().contains(arcs@[x]));
                lemma_refs_stable(*net, before, id@, arcs@[x]);
                if x < k {
                    assert(objects@[np + nt + x] == objs[np + nt + x]);
                    assert(views(assigned@)[1 + np + nt + x] == before[1 + np + nt + x]);
                }
            }
        }
        k = k + 1;
    }
    let ghost xs = claim_state(rs, a2, arc_labels(*net, arcs@), seq!['a'], arcs@.len() as nat);
    let ghost ids = views(assigned@);

    // The page.
    let mut counter: usize = 0;
    let page_id = claim_id(&mut taken, &mut assigned, None, "page", &mut counter, Ghost(rs));
    let ghost pg = claim(rs, ids, None, seq!['p', 'a', 'g', 'e'], 0);
    proof {
        lemma_push_fresh(ids, page_id@);
        assert("page"@ == seq!['p', 'a', 'g', 'e']);
        assert(page_id@ == pg.0);
    }
    let ghost objs = objects@;
    let page = Page { id: page_id, objects };
    let mut pages: Vec<Page> = Vec::new();
    pages.push(page);
    let name = owned_text(labels.net_name());
    let r = PnmlNet { id: net_id, net_type: pt_net_uri(), name, pages, tool_specific: Vec::new() };
    proof {
        lemma_claim_state_extends(rs, a0, place_labels(*net), seq!['p'], np as nat);
        lemma_claim_state_extends(rs, a1, transition_labels(*net), seq!['t'], nt as nat);
        lemma_claim_state_extends(rs, a2, arc_labels(*net, arcs@), seq!['a'], arcs@.len() as nat);
        assert(r.pages@[0].objects@ == objs);
        assert forall|i: int| 0 <= i < objs.len() implies object_id(#[trigger] objs[i]) == ids[1 + i] by {
            if i < np {
                assert(exports_place(mk, i, ids[1 + i], lab.place_name_of(net.place_seq()[i]), objs[i]));
            } else if i < np + nt {
                assert(exports_transition(ids[1 + np + (i - np)], lab.transition_name_of(net.transition_seq()[i - np]), objs[np + (i - np)]));
            } else {
                let x = i - np - nt;
                assert(exports_arc(ids[1 + np + nt + x], source_ref(*net, ids, arcs@[x]), target_ref(*net, ids, arcs@[x]), lab.arc_name_of(arcs@[x]), objs[np + nt + x]));
            }
        }
        assert forall|i: int, j: int| 0 <= i < j < objs.len() implies object_id(#[trigger] objs[i]) != object_id(#[trigger] objs[j]) by {
            assert(ids[1 + i] != ids[1 + j]);
        }
        let nc2 = claim(rs, seq![], lab.net_id_spec(), seq!['n', 'e', 't'], 0);
        assert(nc2 == nc);
        assert(ps.0 == a1);
        assert(ts.0 == a2);
        assert(xs.0 == ids);
        assert(r.id@ == nc.0);
        assert(r.net_type@ == pt_net_type());
        assert(opt_view(r.name) == lab.net_name_spec());
        assert(r.pages@.len() == 1);
        assert(r.pages@[0].id@ == pg.0);
        assert(objs.len() == np + nt + arcs@.len());
        assert(xs.0.push(pg.0).no_duplicates());
        assert(exports_with(*net, mk, arcs@, r));
    }
    r
}

impl Net {
    /// Exports this net as a single-net PNML document, without initial
    /// markings.
    pub fn to_pnml(&self) -> (r: PnmlDocument)
        requires
            self.wf(),
        ensures
            r.nets@.len() == 1,
            exports(*self, Seq::new(self.np(), |k: int| 0u32), r.nets@[0]),
    {
        let mut nets: Vec<PnmlNet> = Vec::new();
        let n = export_net(self, None);
        proof {
            assert(marking_tokens(*self, deref_marking(None)) =~= Seq::new(self.np(), |k: int| 0u32));
        }
        nets.push(n);
        PnmlDocument { nets }
    }
}

} // verus!
