//! General facts about sequences and the sets they denote.

use vstd::prelude::*;

verus! {

/// Membership in a sequence extended by one element.
pub(crate) broadcast proof fn lemma_seq_push_contains<A>(s: Seq<A>, a: A, x: A)
    ensures
        #[trigger] s.push(a).contains(x) <==> s.contains(x) || x == a,
{
    if s.push(a).contains(x) {
        let k = choose|k: int| 0 <= k < s.push(a).len() && s.push(a)[k] == x;
        if k < s.len() {
            assert(s[k] == x);
        }
    }
    if s.contains(x) {
        let k = choose|k: int| 0 <= k < s.len() && s[k] == x;
        assert(s.push(a)[k] == x);
    }
    if x == a {
        assert(s.push(a)[s.len() as int] == x);
    }
}

pub(crate) proof fn lemma_seq_push_to_set<A>(s: Seq<A>, x: A)
    ensures
        s.push(x).to_set() == s.to_set().insert(x),
{
    assert(s.push(x).to_set() =~= s.to_set().insert(x)) by {
        assert forall|y: A| s.push(x).to_set().contains(y) implies s.to_set().insert(x).contains(y) by {
            let i = choose|i: int| 0 <= i < s.push(x).len() && s.push(x)[i] == y;
            if i < s.len() {
                assert(s[i] == y);
            }
        }
        assert forall|y: A| s.to_set().insert(x).contains(y) implies s.push(x).to_set().contains(y) by {
            if y == x {
                assert(s.push(x)[s.len() as int] == x);
            } else {
                let i = choose|i: int| 0 <= i < s.len() && s[i] == y;
                assert(s.push(x)[i] == y);
            }
        }
    }
}

pub(crate) proof fn lemma_seq_concat_to_set<A>(s: Seq<A>, t: Seq<A>)
    ensures
        (s + t).to_set() == s.to_set().union(t.to_set()),
{
    assert forall|y: A| (s + t).to_set().contains(y) implies s.to_set().union(t.to_set()).contains(y) by {
        let i = choose|i: int| 0 <= i < (s + t).len() && (s + t)[i] == y;
        if i < s.len() {
            assert(s[i] == y);
        } else {
            assert(t[i - s.len()] == y);
        }
    }
    assert forall|y: A| s.to_set().union(t.to_set()).contains(y) implies (s + t).to_set().contains(y) by {
        if s.to_set().contains(y) {
            let i = choose|i: int| 0 <= i < s.len() && s[i] == y;
            assert((s + t)[i] == y);
        } else {
            let i = choose|i: int| 0 <= i < t.len() && t[i] == y;
            assert((s + t)[s.len() + i] == y);
        }
    }
    assert((s + t).to_set() =~= s.to_set().union(t.to_set()));
}

pub(crate) proof fn lemma_seq_remove_to_set<A>(s: Seq<A>, i: int)
    requires
        0 <= i < s.len(),
        s.no_duplicates(),
    ensures
        s.remove(i).to_set() == s.to_set().remove(s[i]),
        s.remove(i).no_duplicates(),
{
    let r = s.remove(i);
    assert(r =~= s.subrange(0, i) + s.subrange(i + 1, s.len() as int));
    assert forall|y: A| r.to_set().contains(y) implies s.to_set().remove(s[i]).contains(y) by {
        let k = choose|k: int| 0 <= k < r.len() && r[k] == y;
        if k < i {
            assert(s[k] == y);
        } else {
            assert(s[k + 1] == y);
        }
    }
    assert forall|y: A| s.to_set().remove(s[i]).contains(y) implies r.to_set().contains(y) by {
        let k = choose|k: int| 0 <= k < s.len() && s[k] == y;
        if k < i {
            assert(r[k] == y);
        } else {
            assert(k != i);
            assert(r[k - 1] == y);
        }
    }
    assert(r.to_set() =~= s.to_set().remove(s[i]));
    assert forall|a: int, b: int| 0 <= a < b < r.len() implies r[a] != r[b] by {
        let a2 = if a < i { a } else { a + 1 };
        let b2 = if b < i { b } else { b + 1 };
        assert(r[a] == s[a2]);
        assert(r[b] == s[b2]);
    }
}

pub(crate) proof fn lemma_filter_to_set<A>(s: Seq<A>, pred: spec_fn(A) -> bool)
    ensures
        s.filter(pred).to_set() == s.to_set().filter(pred),
{
    broadcast use vstd::seq_lib::group_filter_ensures;
    assert forall|y: A| s.filter(pred).to_set().contains(y) implies s.to_set().filter(pred).contains(y) by {
        let k = choose|k: int| 0 <= k < s.filter(pred).len() && s.filter(pred)[k] == y;
        s.lemma_filter_contains_rev(pred, y);
        assert(pred(s.filter(pred)[k]));
    }
    assert forall|y: A| s.to_set().filter(pred).contains(y) implies s.filter(pred).to_set().contains(y) by {
        let k = choose|k: int| 0 <= k < s.len() && s[k] == y;
        assert(s.filter(pred).contains(s[k]));
    }
    assert(s.filter(pred).to_set() =~= s.to_set().filter(pred));
}

pub(crate) proof fn lemma_filter_no_duplicates<A>(s: Seq<A>, pred: spec_fn(A) -> bool)
    requires
        s.no_duplicates(),
    ensures
        s.filter(pred).no_duplicates(),
    decreases s.len(),
{
    reveal(Seq::filter);
    if s.len() > 0 {
        let rest = s.drop_last();
        assert(rest.no_duplicates());
        lemma_filter_no_duplicates(rest, pred);
        if pred(s.last()) {
            let f = rest.filter(pred);
            assert(!rest.contains(s.last()));
            if f.contains(s.last()) {
                rest.lemma_filter_contains_rev(pred, s.last());
            }
            assert forall|i: int, j: int| 0 <= i < j < f.push(s.last()).len() implies f.push(s.last())[i] != f.push(s.last())[j] by {
                if j == f.len() {
                    assert(f.contains(f[i]));
                }
            }
        }
    }
}


/// A repetition-free sequence of indices below `n` has at most `n` elements,
/// and fewer when some index below `n` is missing.
pub(crate) proof fn lemma_distinct_below(s: Seq<usize>, n: usize)
    requires
        s.no_duplicates(),
        forall|k: int| 0 <= k < s.len() ==> #[trigger] s[k] < n,
    ensures
        s.len() <= n,
        (exists|x: usize| x < n && !s.contains(x)) ==> s.len() < n,
{
    <usize as vstd::set_lib::FiniteRange>::range_properties(0, n);
    let range = Set::<usize>::range(0, n);
    s.unique_seq_to_set();
    assert(s.to_set().subset_of(range));
    vstd::set_lib::lemma_len_subset(s.to_set(), range);
    if exists|x: usize| x < n && !s.contains(x) {
        let x = choose|x: usize| x < n && !s.contains(x);
        assert(s.to_set().subset_of(range.remove(x)));
        vstd::set_lib::lemma_len_subset(s.to_set(), range.remove(x));
    }
}

/// A repetition-free sequence of indices below `n` that holds every index below
/// `n` has exactly `n` elements.
pub(crate) proof fn lemma_distinct_covering(s: Seq<usize>, n: usize)
    requires
        s.no_duplicates(),
        forall|k: int| 0 <= k < s.len() ==> #[trigger] s[k] < n,
        forall|x: usize| x < n ==> s.contains(x),
    ensures
        s.len() == n,
{
    <usize as vstd::set_lib::FiniteRange>::range_properties(0, n);
    let range = Set::<usize>::range(0, n);
    s.unique_seq_to_set();
    assert(s.to_set() =~= range);
}


/// Places with distinct identifiers in `[1, bound)` number fewer than `bound`.
pub(crate) proof fn lemma_places_below(s: Seq<crate::net::Place>, bound: u64)
    requires
        1 <= bound,
        s.no_duplicates(),
        forall|i: int| 0 <= i < s.len() ==> 1 <= (#[trigger] s[i]).id() < bound,
    ensures
        s.len() < bound,
{
    broadcast use crate::net::group_handle_ids;
    let ids = s.map_values(|p: crate::net::Place| p.id() as int);
    vstd::set_lib::lemma_int_range(1, bound as int);
    let range = vstd::set_lib::set_int_range(1, bound as int);
    assert forall|a: int, b: int| 0 <= a < b < ids.len() implies ids[a] != ids[b] by {
        assert(s[a] != s[b]);
    }
    ids.unique_seq_to_set();
    assert(ids.to_set().subset_of(range));
    vstd::set_lib::lemma_len_subset(ids.to_set(), range);
    assert(ids.len() == s.len());
}

pub(crate) proof fn lemma_transitions_below(s: Seq<crate::net::Transition>, bound: u64)
    requires
        1 <= bound,
        s.no_duplicates(),
        forall|i: int| 0 <= i < s.len() ==> 1 <= (#[trigger] s[i]).id() < bound,
    ensures
        s.len() < bound,
{
    broadcast use crate::net::group_handle_ids;
    let ids = s.map_values(|p: crate::net::Transition| p.id() as int);
    vstd::set_lib::lemma_int_range(1, bound as int);
    let range = vstd::set_lib::set_int_range(1, bound as int);
    assert forall|a: int, b: int| 0 <= a < b < ids.len() implies ids[a] != ids[b] by {
        assert(s[a] != s[b]);
    }
    ids.unique_seq_to_set();
    assert(ids.to_set().subset_of(range));
    vstd::set_lib::lemma_len_subset(ids.to_set(), range);
    assert(ids.len() == s.len());
}

} // verus!
