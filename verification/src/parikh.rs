//! Parikh vectors: how often each transition fires, regardless of order.

use crate::marking::TokenOps;
use crate::net::Transition;
use vstd::prelude::*;

verus! {

broadcast use crate::net::group_handle_ids;

/// The count a firing sequence of pairs assigns to `p`: the value paired with `p`, or zero.
pub open spec fn firing_count<T: TokenOps>(s: Seq<(Transition, T)>, p: Transition) -> T {
    if exists|i: int| 0 <= i < s.len() && (#[trigger] s[i]).0 == p {
        s[choose|i: int| 0 <= i < s.len() && (#[trigger] s[i]).0 == p].1
    } else {
        T::zero_spec()
    }
}

/// A firing sequence of pairs is canonical_firings if its transitions have strictly increasing
/// identifiers and none of its counts is zero.
pub open spec fn canonical_firings<T: TokenOps>(s: Seq<(Transition, T)>) -> bool {
    &&& forall|i: int, j: int| 0 <= i < j < s.len() ==> (#[trigger] s[i]).0.id() < (#[trigger] s[j]).0.id()
    &&& forall|i: int| 0 <= i < s.len() ==> (#[trigger] s[i]).1 != T::zero_spec()
}

/// The transitions of a firing sequence of pairs are pairwise distinct.
pub open spec fn unique_transitions<T>(s: Seq<(Transition, T)>) -> bool {
    forall|i: int, j: int| 0 <= i < j < s.len() ==> (#[trigger] s[i]).0 != (#[trigger] s[j]).0
}

/// With distinct transitions, the count of `p` is the value at any position holding `p`.
pub proof fn lemma_firing_count_at<T: TokenOps>(s: Seq<(Transition, T)>, i: int)
    requires
        unique_transitions(s),
        0 <= i < s.len(),
    ensures
        firing_count(s, s[i].0) == s[i].1,
{
    let p = s[i].0;
    let k = choose|k: int| 0 <= k < s.len() && (#[trigger] s[k]).0 == p;
    assert(k == i) by {
        if k < i {
            assert(s[k].0 != s[i].0);
        } else if k > i {
            assert(s[i].0 != s[k].0);
        }
    }
}

/// With distinct transitions and no pair for `p`, the count of `p` is zero.
pub proof fn lemma_firing_count_absent<T: TokenOps>(s: Seq<(Transition, T)>, p: Transition)
    requires
        forall|i: int| 0 <= i < s.len() ==> (#[trigger] s[i]).0 != p,
    ensures
        firing_count(s, p) == T::zero_spec(),
{
}

/// Canonical sequences have distinct transitions.
pub proof fn lemma_canonical_firings_unique<T: TokenOps>(s: Seq<(Transition, T)>)
    requires
        canonical_firings(s),
    ensures
        unique_transitions(s),
{
    assert forall|i: int, j: int| 0 <= i < j < s.len() implies (#[trigger] s[i]).0 != (#[trigger] s[j]).0 by {
        assert(s[i].0.id() < s[j].0.id());
    }
}

/// The value of the first pair for `p` with a non-zero count, or zero.
pub open spec fn first_nonzero_firing<T: TokenOps>(s: Seq<(Transition, T)>, p: Transition) -> T
    decreases s.len(),
{
    if s.len() == 0 {
        T::zero_spec()
    } else {
        let rest = first_nonzero_firing(s.drop_last(), p);
        if rest == T::zero_spec() && s.last().0 == p {
            s.last().1
        } else {
            rest
        }
    }
}

proof fn lemma_first_nonzero_firing_push<T: TokenOps>(s: Seq<(Transition, T)>, x: (Transition, T))
    ensures
        forall|p: Transition| #[trigger] first_nonzero_firing(s.push(x), p) == (if first_nonzero_firing(s, p) == T::zero_spec() && x.0 == p {
            x.1
        } else {
            first_nonzero_firing(s, p)
        }),
{
    assert(s.push(x).drop_last() =~= s);
}

/// Inserts `(p, v)` at its transition in a canonical_firings sequence, unless `p` is already there.
fn insert_firing_if_absent<T: TokenOps>(support: &mut Vec<(Transition, T)>, p: Transition, v: T)
    requires
        canonical_firings(old(support)@),
        v != T::zero_spec(),
    ensures
        canonical_firings(final(support)@),
        forall|q: Transition| #[trigger] firing_count(final(support)@, q) == (if firing_count(old(support)@, q) == T::zero_spec() && q == p {
            v
        } else {
            firing_count(old(support)@, q)
        }),
{
    let ghost s0 = support@;
    proof {
        lemma_canonical_firings_unique(s0);
    }
    let mut pos: usize = 0;
    while pos < support.len() && support[pos].0.0 < p.0
        invariant
            0 <= pos <= support@.len(),
            support@ == s0,
            forall|k: int| 0 <= k < pos ==> (#[trigger] s0[k]).0.id() < p.id(),
        decreases support@.len() - pos,
    {
        pos = pos + 1;
    }
    if pos < support.len() && support[pos].0.0 == p.0 {
        proof {
            assert(support@[pos as int].0 == p);
            lemma_firing_count_at(s0, pos as int);
            assert forall|q: Transition| #[trigger] firing_count(support@, q) == (if firing_count(s0, q) == T::zero_spec() && q == p {
                v
            } else {
                firing_count(s0, q)
            }) by {
                if q == p {
                    assert(s0[pos as int].1 != T::zero_spec());
                }
            }
        }
        return;
    }
    proof {
        assert forall|k: int| pos <= k < s0.len() implies p.id() < (#[trigger] s0[k]).0.id() by {
            if k > pos {
                assert(s0[pos as int].0.id() < s0[k].0.id());
            }
        }
        assert forall|k: int| 0 <= k < s0.len() implies (#[trigger] s0[k]).0 != p by {
            if k < pos {
                assert(s0[k].0.id() < p.id());
            } else {
                assert(p.id() < s0[k].0.id());
            }
        }
        lemma_firing_count_absent(s0, p);
    }
    support.insert(pos, (p, v));
    proof {
        let s1 = support@;
        assert(s1 =~= s0.insert(pos as int, (p, v)));
        assert forall|i: int, j: int| 0 <= i < j < s1.len() implies (#[trigger] s1[i]).0.id() < (#[trigger] s1[j]).0.id() by {
            if j < pos {
                assert(s1[i] == s0[i] && s1[j] == s0[j]);
            } else if j == pos {
                assert(s1[i] == s0[i]);
            } else if i == pos {
                assert(s1[j] == s0[j - 1]);
            } else if i < pos {
                assert(s1[i] == s0[i] && s1[j] == s0[j - 1]);
            } else {
                assert(s1[i] == s0[i - 1] && s1[j] == s0[j - 1]);
            }
        }
        assert forall|i: int| 0 <= i < s1.len() implies (#[trigger] s1[i]).1 != T::zero_spec() by {
            if i < pos {
                assert(s1[i] == s0[i]);
            } else if i > pos {
                assert(s1[i] == s0[i - 1]);
            }
        }
        lemma_canonical_firings_unique(s1);
        assert forall|q: Transition| #[trigger] firing_count(s1, q) == (if firing_count(s0, q) == T::zero_spec() && q == p {
            v
        } else {
            firing_count(s0, q)
        }) by {
            if q == p {
                lemma_firing_count_at(s1, pos as int);
            } else if exists|k: int| 0 <= k < s0.len() && (#[trigger] s0[k]).0 == q {
                let k = choose|k: int| 0 <= k < s0.len() && (#[trigger] s0[k]).0 == q;
                lemma_firing_count_at(s0, k);
                let k1 = if k < pos { k } else { k + 1 };
                assert(s1[k1] == s0[k]);
                lemma_firing_count_at(s1, k1);
            } else {
                assert forall|k: int| 0 <= k < s1.len() implies (#[trigger] s1[k]).0 != q by {
                    if k < pos {
                        assert(s1[k] == s0[k]);
                    } else if k > pos {
                        assert(s1[k] == s0[k - 1]);
                    }
                }
            }
        }
    }
}


/// A mapping from transitions to firing counts: how many times each
/// transition fires in a firing sequence, but nothing of the order.
///
/// Only transitions with a non-zero count are stored, in increasing
/// identifier order; every other transition implicitly fires zero times.
#[derive(Debug, Clone, PartialEq, Eq, Hash)]
pub struct ParikhVector<T> {
    pub(crate) support: Vec<(Transition, T)>,
}

impl<T: TokenOps> ParikhVector<T> {
    /// The stored pairs, in increasing transition identifier order.
    pub closed spec fn support_seq(&self) -> Seq<(Transition, T)> {
        self.support@
    }

    /// The vector's invariant: the stored pairs are canonical.
    pub open spec fn wf(&self) -> bool {
        canonical_firings(self.support_seq())
    }

    /// The firing count of `t`.
    pub open spec fn count(&self, t: Transition) -> T {
        firing_count(self.support_seq(), t)
    }

    /// The vector in which no transition fires.
    pub fn empty() -> (r: Self)
        ensures
            r.wf(),
            r.support_seq() == Seq::<(Transition, T)>::empty(),
            forall|t: Transition| #[trigger] r.count(t) == T::zero_spec(),
    {
        ParikhVector { support: Vec::new() }
    }

    /// Builds a vector from `(transition, count)` pairs.
    ///
    /// Zero counts are dropped; where a transition is listed more than once
    /// with a non-zero count, the first such pair counts.
    pub fn from_entries(entries: Vec<(Transition, T)>) -> (r: Self)
        ensures
            r.wf(),
            forall|t: Transition| #[trigger] r.count(t) == first_nonzero_firing(entries@, t),
    {
        let mut support: Vec<(Transition, T)> = Vec::new();
        let mut i: usize = 0;
        while i < entries.len()
            invariant
                0 <= i <= entries@.len(),
                canonical_firings(support@),
                forall|t: Transition| #[trigger] firing_count(support@, t) == first_nonzero_firing(entries@.subrange(0, i as int), t),
            decreases entries@.len() - i,
        {
            let (t, v) = entries[i];
            let ghost prefix = entries@.subrange(0, i as int);
            proof {
                assert(entries@.subrange(0, i + 1) =~= prefix.push((t, v)));
                lemma_first_nonzero_firing_push(prefix, (t, v));
            }
            if !v.is_zero() {
                insert_firing_if_absent(&mut support, t, v);
            } else {
                proof {
                    assert forall|q: Transition| #[trigger] firing_count(support@, q) == first_nonzero_firing(entries@.subrange(0, i + 1), q) by {
                        assert(entries@.subrange(0, i + 1) =~= prefix.push((t, v)));
                    }
                }
            }
            i = i + 1;
        }
        proof {
            assert(entries@.subrange(0, entries@.len() as int) =~= entries@);
        }
        ParikhVector { support }
    }

    /// The transitions with a non-zero firing count, in increasing identifier order.
    pub fn support(&self) -> (r: Vec<Transition>)
        ensures
            r@ == self.support_seq().map_values(|e: (Transition, T)| e.0),
    {
        let mut r: Vec<Transition> = Vec::new();
        let mut i: usize = 0;
        while i < self.support.len()
            invariant
                0 <= i <= self.support@.len(),
                r@ == self.support@.subrange(0, i as int).map_values(|e: (Transition, T)| e.0),
            decreases self.support@.len() - i,
        {
            r.push(self.support[i].0);
            proof {
                assert(self.support@.subrange(0, i + 1).map_values(|e: (Transition, T)| e.0) =~= self.support@.subrange(0, i as int).map_values(
                    |e: (Transition, T)| e.0,
                ).push(self.support@[i as int].0));
            }
            i = i + 1;
        }
        proof {
            assert(self.support@.subrange(0, i as int) =~= self.support@);
        }
        r
    }

    /// The firing count of `transition`.
    pub fn get(&self, transition: Transition) -> (r: T)
        requires
            self.wf(),
        ensures
            r == self.count(transition),
    {
        proof {
            lemma_canonical_firings_unique(self.support@);
        }
        let mut i: usize = 0;
        while i < self.support.len()
            invariant
                0 <= i <= self.support@.len(),
                unique_transitions(self.support@),
                forall|k: int| 0 <= k < i ==> (#[trigger] self.support@[k]).0 != transition,
            decreases self.support@.len() - i,
        {
            if self.support[i].0 == transition {
                proof {
                    lemma_firing_count_at(self.support@, i as int);
                }
                return self.support[i].1;
            }
            i = i + 1;
        }
        T::zero()
    }
}

/// The sum of the counts of a sequence of pairs.
pub open spec fn sum_firings(s: Seq<(Transition, u32)>) -> int
    decreases s.len(),
{
    if s.len() == 0 {
        0
    } else {
        sum_firings(s.drop_last()) + s.last().1
    }
}

proof fn lemma_sum_firings_prefix(s: Seq<(Transition, u32)>, k: int)
    requires
        0 <= k <= s.len(),
    ensures
        sum_firings(s.subrange(0, k)) <= sum_firings(s),
    decreases s.len() - k,
{
    if k < s.len() {
        lemma_sum_firings_prefix(s, k + 1);
        assert(s.subrange(0, k + 1).drop_last() =~= s.subrange(0, k));
    } else {
        assert(s.subrange(0, k) =~= s);
    }
}

impl ParikhVector<u32> {
    /// The total number of firings: the sum of all counts, which must fit in a `u32`.
    pub fn total_firings(&self) -> (r: u32)
        requires
            sum_firings(self.support_seq()) <= u32::MAX,
        ensures
            r == sum_firings(self.support_seq()),
    {
        let mut total: u32 = 0;
        let mut i: usize = 0;
        while i < self.support.len()
            invariant
                0 <= i <= self.support@.len(),
                sum_firings(self.support@) <= u32::MAX,
                total == sum_firings(self.support@.subrange(0, i as int)),
            decreases self.support@.len() - i,
        {
            proof {
                assert(self.support@.subrange(0, i + 1).drop_last() =~= self.support@.subrange(0, i as int));
                lemma_sum_firings_prefix(self.support@, i + 1);
            }
            total = total + self.support[i].1;
            i = i + 1;
        }
        proof {
            assert(self.support@.subrange(0, i as int) =~= self.support@);
        }
        total
    }
}

} // verus!
