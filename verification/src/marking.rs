//! Markings: the state of a Petri net.
//!
//! A marking assigns a token count to each place. Token counts are `u32`, or
//! [`Omega`] for coverability analysis, where `ω` stands for an unbounded count.

use vstd::prelude::*;
use crate::net::Place;

verus! {

broadcast use crate::net::group_handle_ids;

/// The operations a token count needs: a zero, a total order, and equality.
pub trait TokenOps: Copy + Sized {
    /// The empty token count.
    spec fn zero_spec() -> Self;

    /// A single token.
    spec fn one_spec() -> Self;

    /// The order on token counts.
    spec fn leq(self, other: Self) -> bool;

    /// A single token.
    fn one() -> (r: Self)
        ensures
            r == Self::one_spec(),
    ;

    /// The empty token count.
    fn zero() -> (r: Self)
        ensures
            r == Self::zero_spec(),
    ;

    /// Whether this count is the empty one.
    fn is_zero(&self) -> (r: bool)
        ensures
            r == (*self == Self::zero_spec()),
    ;

    /// Whether this count is at most `other`.
    fn less_eq(&self, other: &Self) -> (r: bool)
        ensures
            r == self.leq(*other),
    ;

    /// Whether the two counts are equal.
    fn same(&self, other: &Self) -> (r: bool)
        ensures
            r == (*self == *other),
    ;

    /// `leq` is a total order with the zero at the bottom.
    proof fn lemma_total_order(a: Self, b: Self, c: Self)
        ensures
            a.leq(a),
            a.leq(b) && b.leq(c) ==> a.leq(c),
            a.leq(b) || b.leq(a),
            a.leq(b) && b.leq(a) ==> a == b,
            Self::zero_spec().leq(a),
    ;
}

impl TokenOps for u32 {
    open spec fn zero_spec() -> u32 {
        0
    }

    open spec fn one_spec() -> u32 {
        1
    }

    fn one() -> (r: u32) {
        1
    }

    open spec fn leq(self, other: u32) -> bool {
        self <= other
    }

    fn zero() -> (r: u32) {
        0
    }

    fn is_zero(&self) -> (r: bool) {
        *self == 0
    }

    fn less_eq(&self, other: &u32) -> (r: bool) {
        *self <= *other
    }

    fn same(&self, other: &u32) -> (r: bool) {
        *self == *other
    }

    proof fn lemma_total_order(a: u32, b: u32, c: u32) {
    }
}

/// A token count that is either finite or `ω`, an unbounded count.
///
/// `ω` is greater than every finite count.
#[derive(Debug, Clone, Copy, PartialEq, Eq, Hash, Structural)]
pub enum Omega {
    /// A finite number of tokens.
    Finite(u32),
    /// Arbitrarily many tokens.
    Unbounded,
}

impl Omega {
    /// Whether this count is `ω`.
    pub fn is_omega(&self) -> (r: bool)
        ensures
            r == (*self is Unbounded),
    {
        matches!(self, Omega::Unbounded)
    }

    /// The finite count, if any.
    pub fn finite(&self) -> (r: Option<u32>)
        ensures
            r == (match *self {
                Omega::Finite(k) => Some(k),
                Omega::Unbounded => None,
            }),
    {
        match self {
            Omega::Finite(k) => Some(*k),
            Omega::Unbounded => None,
        }
    }
}

impl TokenOps for Omega {
    open spec fn zero_spec() -> Omega {
        Omega::Finite(0)
    }

    open spec fn one_spec() -> Omega {
        Omega::Finite(1)
    }

    fn one() -> (r: Omega) {
        Omega::Finite(1)
    }

    open spec fn leq(self, other: Omega) -> bool {
        match (self, other) {
            (_, Omega::Unbounded) => true,
            (Omega::Unbounded, Omega::Finite(_)) => false,
            (Omega::Finite(a), Omega::Finite(b)) => a <= b,
        }
    }

    fn zero() -> (r: Omega) {
        Omega::Finite(0)
    }

    fn is_zero(&self) -> (r: bool) {
        match self {
            Omega::Finite(k) => *k == 0,
            Omega::Unbounded => false,
        }
    }

    fn less_eq(&self, other: &Omega) -> (r: bool) {
        match (self, other) {
            (_, Omega::Unbounded) => true,
            (Omega::Unbounded, Omega::Finite(_)) => false,
            (Omega::Finite(a), Omega::Finite(b)) => *a <= *b,
        }
    }

    fn same(&self, other: &Omega) -> (r: bool) {
        match (self, other) {
            (Omega::Unbounded, Omega::Unbounded) => true,
            (Omega::Finite(a), Omega::Finite(b)) => *a == *b,
            _ => false,
        }
    }

    proof fn lemma_total_order(a: Omega, b: Omega, c: Omega) {
    }
}

/// The count a support sequence assigns to `p`: the value paired with `p`, or zero.
pub open spec fn token_count<T: TokenOps>(s: Seq<(Place, T)>, p: Place) -> T {
    if exists|i: int| 0 <= i < s.len() && (#[trigger] s[i]).0 == p {
        s[choose|i: int| 0 <= i < s.len() && (#[trigger] s[i]).0 == p].1
    } else {
        T::zero_spec()
    }
}

/// A support sequence is canonical if its places have strictly increasing
/// identifiers and none of its counts is zero.
pub open spec fn canonical<T: TokenOps>(s: Seq<(Place, T)>) -> bool {
    &&& forall|i: int, j: int| 0 <= i < j < s.len() ==> (#[trigger] s[i]).0.id() < (#[trigger] s[j]).0.id()
    &&& forall|i: int| 0 <= i < s.len() ==> (#[trigger] s[i]).1 != T::zero_spec()
}

/// The places of a support sequence are pairwise distinct.
pub open spec fn unique_places<T>(s: Seq<(Place, T)>) -> bool {
    forall|i: int, j: int| 0 <= i < j < s.len() ==> (#[trigger] s[i]).0 != (#[trigger] s[j]).0
}

/// With distinct places, the count of `p` is the value at any position holding `p`.
pub proof fn lemma_token_count_at<T: TokenOps>(s: Seq<(Place, T)>, i: int)
    requires
        unique_places(s),
        0 <= i < s.len(),
    ensures
        token_count(s, s[i].0) == s[i].1,
{
    let p = s[i].0;
    let k = choose|k: int| 0 <= k < s.len() && (#[trigger] s[k]).0 == p;
    assert(k == i) by {
        if k < i {
            assert(s[k].0 != s[i].0);
        } else if k > i {
            assert(s[i].0 != s[k].0);
        }
    }
}

/// With distinct places and no pair for `p`, the count of `p` is zero.
pub proof fn lemma_token_count_absent<T: TokenOps>(s: Seq<(Place, T)>, p: Place)
    requires
        forall|i: int| 0 <= i < s.len() ==> (#[trigger] s[i]).0 != p,
    ensures
        token_count(s, p) == T::zero_spec(),
{
}

/// Canonical sequences have distinct places.
pub proof fn lemma_canonical_unique<T: TokenOps>(s: Seq<(Place, T)>)
    requires
        canonical(s),
    ensures
        unique_places(s),
{
    assert forall|i: int, j: int| 0 <= i < j < s.len() implies (#[trigger] s[i]).0 != (#[trigger] s[j]).0 by {
        assert(s[i].0.id() < s[j].0.id());
    }
}

/// Two sequences with distinct places holding the same pairs assign the same counts.
pub proof fn lemma_token_count_same_pairs<T: TokenOps>(s: Seq<(Place, T)>, t: Seq<(Place, T)>, p: Place)
    requires
        unique_places(s),
        unique_places(t),
        forall|x: (Place, T)| s.contains(x) <==> t.contains(x),
    ensures
        token_count(s, p) == token_count(t, p),
{
    if exists|i: int| 0 <= i < s.len() && (#[trigger] s[i]).0 == p {
        let i = choose|i: int| 0 <= i < s.len() && (#[trigger] s[i]).0 == p;
        lemma_token_count_at(s, i);
        assert(s.contains(s[i]));
        let j = choose|j: int| 0 <= j < t.len() && t[j] == s[i];
        lemma_token_count_at(t, j);
    } else if exists|j: int| 0 <= j < t.len() && (#[trigger] t[j]).0 == p {
        let j = choose|j: int| 0 <= j < t.len() && (#[trigger] t[j]).0 == p;
        assert(t.contains(t[j]));
        let i = choose|i: int| 0 <= i < s.len() && s[i] == t[j];
        assert(s[i].0 == p);
    }
}

/// A mapping from [`Place`] to token counts of type `T`.
///
/// Only places with a non-zero count are stored, in increasing identifier
/// order; every other place implicitly holds zero tokens.
#[derive(Debug, Clone, PartialEq, Eq, Hash)]
pub struct Marking<T> {
    pub(crate) support: Vec<(Place, T)>,
}

impl<T: TokenOps> Marking<T> {
    /// The stored pairs, in increasing place identifier order.
    pub closed spec fn support_seq(&self) -> Seq<(Place, T)> {
        self.support@
    }

    /// The marking's invariant: its support is canonical.
    pub open spec fn wf(&self) -> bool {
        canonical(self.support_seq())
    }

    /// The number of tokens on `p`.
    pub open spec fn count(&self, p: Place) -> T {
        token_count(self.support_seq(), p)
    }

    /// The empty marking: zero tokens on every place.
    pub fn empty() -> (r: Self)
        ensures
            r.wf(),
            r.support_seq() == Seq::<(Place, T)>::empty(),
            forall|p: Place| r.count(p) == T::zero_spec(),
    {
        Marking { support: Vec::new() }
    }

    /// Builds a marking from `(place, count)` pairs.
    ///
    /// Zero counts are dropped; where a place is listed more than once with a
    /// non-zero count, the first such pair counts.
    pub fn from_entries(entries: Vec<(Place, T)>) -> (r: Self)
        ensures
            r.wf(),
            forall|p: Place| #[trigger] r.count(p) == first_nonzero(entries@, p),
    {
        let mut support: Vec<(Place, T)> = Vec::new();
        let mut i: usize = 0;
        while i < entries.len()
            invariant
                0 <= i <= entries@.len(),
                canonical(support@),
                forall|p: Place| #[trigger] token_count(support@, p) == first_nonzero(entries@.subrange(0, i as int), p),
            decreases entries@.len() - i,
        {
            let (p, v) = entries[i];
            let ghost prefix = entries@.subrange(0, i as int);
            proof {
                assert(entries@.subrange(0, i + 1) =~= prefix.push((p, v)));
                lemma_first_nonzero_push(prefix, (p, v));
            }
            if !v.is_zero() {
                insert_if_absent(&mut support, p, v);
            } else {
                proof {
                    assert forall|q: Place| #[trigger] token_count(support@, q) == first_nonzero(entries@.subrange(0, i + 1), q) by {
                        assert(entries@.subrange(0, i + 1) =~= prefix.push((p, v)));
                    }
                }
            }
            i = i + 1;
        }
        proof {
            assert(entries@.subrange(0, entries@.len() as int) =~= entries@);
        }
        Marking { support }
    }

    /// The `(place, count)` pairs with a non-zero count, in increasing place identifier order.
    pub fn support(&self) -> (r: Vec<(Place, T)>)
        ensures
            r@ == self.support_seq(),
    {
        let mut r: Vec<(Place, T)> = Vec::new();
        let mut i: usize = 0;
        while i < self.support.len()
            invariant
                0 <= i <= self.support@.len(),
                r@ == self.support@.subrange(0, i as int),
            decreases self.support@.len() - i,
        {
            r.push(self.support[i]);
            proof {
                assert(self.support@.subrange(0, i + 1) =~= self.support@.subrange(0, i as int).push(self.support@[i as int]));
            }
            i = i + 1;
        }
        proof {
            assert(self.support@.subrange(0, i as int) =~= self.support@);
        }
        r
    }

    /// A copy of this marking.
    pub fn duplicate(&self) -> (r: Self)
        ensures
            r.support_seq() == self.support_seq(),
    {
        Marking { support: self.support() }
    }

    /// The number of tokens this marking assigns to `place`.
    pub fn get(&self, place: Place) -> (r: T)
        requires
            self.wf(),
        ensures
            r == self.count(place),
    {
        proof {
            lemma_canonical_unique(self.support@);
        }
        let mut i: usize = 0;
        while i < self.support.len()
            invariant
                0 <= i <= self.support@.len(),
                unique_places(self.support@),
                forall|k: int| 0 <= k < i ==> (#[trigger] self.support@[k]).0 != place,
            decreases self.support@.len() - i,
        {
            if self.support[i].0 == place {
                proof {
                    lemma_token_count_at(self.support@, i as int);
                }
                return self.support[i].1;
            }
            i = i + 1;
        }
        T::zero()
    }

    /// The largest count this marking assigns to any place (zero for the empty marking).
    pub fn max_token_count(&self) -> (r: T)
        requires
            self.wf(),
        ensures
            forall|p: Place| #[trigger] self.count(p).leq(r),
            r == T::zero_spec() || exists|p: Place| self.count(p) == r,
    {
        proof {
            lemma_canonical_unique(self.support@);
        }
        let mut best = T::zero();
        proof {
            T::lemma_total_order(best, best, best);
        }
        let mut i: usize = 0;
        while i < self.support.len()
            invariant
                0 <= i <= self.support@.len(),
                unique_places(self.support@),
                forall|k: int| 0 <= k < i ==> (#[trigger] self.support@[k]).1.leq(best),
                T::zero_spec().leq(best),
                best == T::zero_spec() || exists|k: int| 0 <= k < i && (#[trigger] self.support@[k]).1 == best,
            decreases self.support@.len() - i,
        {
            let v = self.support[i].1;
            if !v.less_eq(&best) {
                proof {
                    T::lemma_total_order(v, best, v);
                    assert forall|k: int| 0 <= k < i + 1 implies (#[trigger] self.support@[k]).1.leq(v) by {
                        if k < i {
                            T::lemma_total_order(self.support@[k].1, best, v);
                        } else {
                            T::lemma_total_order(v, v, v);
                        }
                    }
                    assert(self.support@[i as int].1 == v);
                }
                best = v;
            }
            i = i + 1;
        }
        proof {
            assert forall|p: Place| #[trigger] self.count(p).leq(best) by {
                if exists|k: int| 0 <= k < self.support@.len() && (#[trigger] self.support@[k]).0 == p {
                    let k = choose|k: int| 0 <= k < self.support@.len() && (#[trigger] self.support@[k]).0 == p;
                    lemma_token_count_at(self.support@, k);
                }
            }
            if best != T::zero_spec() {
                let k = choose|k: int| 0 <= k < self.support@.len() && (#[trigger] self.support@[k]).1 == best;
                lemma_token_count_at(self.support@, k);
                assert(self.count(self.support@[k].0) == best);
            }
        }
        best
    }
}

/// The value of the first pair for `p` with a non-zero count, or zero.
pub open spec fn first_nonzero<T: TokenOps>(s: Seq<(Place, T)>, p: Place) -> T
    decreases s.len(),
{
    if s.len() == 0 {
        T::zero_spec()
    } else {
        let rest = first_nonzero(s.drop_last(), p);
        if rest == T::zero_spec() && s.last().0 == p {
            s.last().1
        } else {
            rest
        }
    }
}

/// A non-zero first count of `p` comes from a pair of `s`.
proof fn lemma_first_nonzero_found<T: TokenOps>(s: Seq<(Place, T)>, p: Place)
    requires
        first_nonzero(s, p) != T::zero_spec(),
    ensures
        s.contains((p, first_nonzero(s, p))),
    decreases s.len(),
{
    let rest = first_nonzero(s.drop_last(), p);
    if rest == T::zero_spec() && s.last().0 == p {
        assert(s[s.len() - 1] == (p, first_nonzero(s, p)));
    } else {
        lemma_first_nonzero_found(s.drop_last(), p);
        let k = choose|k: int| 0 <= k < s.drop_last().len() && s.drop_last()[k] == (p, rest);
        assert(s[k] == (p, rest));
    }
}

/// With distinct places, the first non-zero count of a listed place is its listed count.
proof fn lemma_first_nonzero_listed<T: TokenOps>(s: Seq<(Place, T)>, i: int)
    requires
        unique_places(s),
        0 <= i < s.len(),
        s[i].1 != T::zero_spec(),
    ensures
        first_nonzero(s, s[i].0) == s[i].1,
    decreases s.len(),
{
    let t = s.drop_last();
    assert(unique_places(t)) by {
        assert forall|a: int, b: int| 0 <= a < b < t.len() implies (#[trigger] t[a]).0 != (#[trigger] t[b]).0 by {
            assert(t[a] == s[a] && t[b] == s[b]);
        }
    }
    if i < s.len() - 1 {
        lemma_first_nonzero_listed(t, i);
        assert(t[i] == s[i]);
    } else {
        if first_nonzero(t, s[i].0) != T::zero_spec() {
            lemma_first_nonzero_found(t, s[i].0);
            let k = choose|k: int| 0 <= k < t.len() && t[k] == (s[i].0, first_nonzero(t, s[i].0));
            assert(s[k].0 == s[i].0);
        }
    }
}

/// The support of a marking built from pairs on distinct places: it lists
/// places in strictly increasing identifier order, never with a zero count,
/// and holds exactly the given pairs whose count is not zero.
pub proof fn lemma_support_from_entries<T: TokenOps>(m: Marking<T>, entries: Seq<(Place, T)>)
    requires
        m.wf(),
        forall|p: Place| #[trigger] m.count(p) == first_nonzero(entries, p),
        unique_places(entries),
    ensures
        forall|i: int, j: int| 0 <= i < j < m.support_seq().len() ==> (#[trigger] m.support_seq()[i]).0.id()
            < (#[trigger] m.support_seq()[j]).0.id(),
        forall|i: int| 0 <= i < m.support_seq().len() ==> (#[trigger] m.support_seq()[i]).1 != T::zero_spec(),
        forall|x: (Place, T)| #[trigger] m.support_seq().contains(x) <==> entries.contains(x) && x.1 != T::zero_spec(),
{
    let s = m.support_seq();
    lemma_canonical_unique(s);
    assert forall|x: (Place, T)| #[trigger] s.contains(x) <==> entries.contains(x) && x.1 != T::zero_spec() by {
        if s.contains(x) {
            let i = choose|i: int| 0 <= i < s.len() && s[i] == x;
            lemma_token_count_at(s, i);
            assert(m.count(x.0) == token_count(s, x.0));
            assert(first_nonzero(entries, x.0) == x.1);
            lemma_first_nonzero_found(entries, x.0);
        }
        if entries.contains(x) && x.1 != T::zero_spec() {
            let i = choose|i: int| 0 <= i < entries.len() && entries[i] == x;
            lemma_first_nonzero_listed(entries, i);
            assert(m.count(x.0) == x.1);
            assert(token_count(s, x.0) == x.1);
            if !(exists|k: int| 0 <= k < s.len() && (#[trigger] s[k]).0 == x.0) {
                lemma_token_count_absent(s, x.0);
            }
            let k = choose|k: int| 0 <= k < s.len() && (#[trigger] s[k]).0 == x.0;
            lemma_token_count_at(s, k);
            assert(s[k] == x);
        }
    }
}

pub(crate) proof fn lemma_first_nonzero_push<T: TokenOps>(s: Seq<(Place, T)>, x: (Place, T))
    ensures
        forall|p: Place| #[trigger] first_nonzero(s.push(x), p) == (if first_nonzero(s, p) == T::zero_spec() && x.0 == p {
            x.1
        } else {
            first_nonzero(s, p)
        }),
{
    assert(s.push(x).drop_last() =~= s);
}

/// Inserts `(p, v)` at its place in a canonical sequence, unless `p` is already there.
fn insert_if_absent<T: TokenOps>(support: &mut Vec<(Place, T)>, p: Place, v: T)
    requires
        canonical(old(support)@),
        v != T::zero_spec(),
    ensures
        canonical(final(support)@),
        forall|q: Place| #[trigger] token_count(final(support)@, q) == (if token_count(old(support)@, q) == T::zero_spec() && q == p {
            v
        } else {
            token_count(old(support)@, q)
        }),
{
    let ghost s0 = support@;
    proof {
        lemma_canonical_unique(s0);
    }
    let mut pos: usize = 0;
    while pos < support.len() && support[pos].0.0 < p.0
        invariant
            0 <= pos <= support@.len(),
            support@ == s0,
            forall|k: int| 0 <= k < pos ==> (#[trigger] s0[k]).0.id() < p.id(),
        decreases support@.len() - pos,
    {
        pos = pos + 1;
    }
    if pos < support.len() && support[pos].0.0 == p.0 {
        proof {
            assert(support@[pos as int].0 == p);
            lemma_token_count_at(s0, pos as int);
            assert forall|q: Place| #[trigger] token_count(support@, q) == (if token_count(s0, q) == T::zero_spec() && q == p {
                v
            } else {
                token_count(s0, q)
            }) by {
                if q == p {
                    assert(s0[pos as int].1 != T::zero_spec());
                }
            }
        }
        return;
    }
    proof {
        assert forall|k: int| pos <= k < s0.len() implies p.id() < (#[trigger] s0[k]).0.id() by {
            if k > pos {
                assert(s0[pos as int].0.id() < s0[k].0.id());
            }
        }
        assert forall|k: int| 0 <= k < s0.len() implies (#[trigger] s0[k]).0 != p by {
            if k < pos {
                assert(s0[k].0.id() < p.id());
            } else {
                assert(p.id() < s0[k].0.id());
            }
        }
        lemma_token_count_absent(s0, p);
    }
    support.insert(pos, (p, v));
    proof {
        let s1 = support@;
        assert(s1 =~= s0.insert(pos as int, (p, v)));
        assert forall|i: int, j: int| 0 <= i < j < s1.len() implies (#[trigger] s1[i]).0.id() < (#[trigger] s1[j]).0.id() by {
            if j < pos {
                assert(s1[i] == s0[i] && s1[j] == s0[j]);
            } else if j == pos {
                assert(s1[i] == s0[i]);
            } else if i == pos {
                assert(s1[j] == s0[j - 1]);
            } else if i < pos {
                assert(s1[i] == s0[i] && s1[j] == s0[j - 1]);
            } else {
                assert(s1[i] == s0[i - 1] && s1[j] == s0[j - 1]);
            }
        }
        assert forall|i: int| 0 <= i < s1.len() implies (#[trigger] s1[i]).1 != T::zero_spec() by {
            if i < pos {
                assert(s1[i] == s0[i]);
            } else if i > pos {
                assert(s1[i] == s0[i - 1]);
            }
        }
        lemma_canonical_unique(s1);
        assert forall|q: Place| #[trigger] token_count(s1, q) == (if token_count(s0, q) == T::zero_spec() && q == p {
            v
        } else {
            token_count(s0, q)
        }) by {
            if q == p {
                lemma_token_count_at(s1, pos as int);
            } else if exists|k: int| 0 <= k < s0.len() && (#[trigger] s0[k]).0 == q {
                let k = choose|k: int| 0 <= k < s0.len() && (#[trigger] s0[k]).0 == q;
                lemma_token_count_at(s0, k);
                let k1 = if k < pos { k } else { k + 1 };
                assert(s1[k1] == s0[k]);
                lemma_token_count_at(s1, k1);
            } else {
                assert forall|k: int| 0 <= k < s1.len() implies (#[trigger] s1[k]).0 != q by {
                    if k < pos {
                        assert(s1[k] == s0[k]);
                    } else if k > pos {
                        assert(s1[k] == s0[k - 1]);
                    }
                }
            }
        }
    }
}

impl Marking<u32> {
    /// The total number of tokens across all places.
    ///
    /// The sum must fit in a `u32`.
    pub fn total_tokens(&self) -> (r: u32)
        requires
            sum_counts(self.support_seq()) <= u32::MAX,
        ensures
            r == sum_counts(self.support_seq()),
    {
        let mut total: u32 = 0;
        let mut i: usize = 0;
        while i < self.support.len()
            invariant
                0 <= i <= self.support@.len(),
                total == sum_counts(self.support@.subrange(0, i as int)),
                sum_counts(self.support@) <= u32::MAX,
            decreases self.support@.len() - i,
        {
            proof {
                assert(self.support@.subrange(0, i + 1).drop_last() =~= self.support@.subrange(0, i as int));
                lemma_sum_counts_prefix(self.support@, i + 1);
            }
            total = total + self.support[i].1;
            i = i + 1;
        }
        proof {
            assert(self.support@.subrange(0, i as int) =~= self.support@);
        }
        total
    }
}

/// The sum of the counts of a support sequence.
pub open spec fn sum_counts(s: Seq<(Place, u32)>) -> int
    decreases s.len(),
{
    if s.len() == 0 {
        0
    } else {
        sum_counts(s.drop_last()) + s.last().1
    }
}

/// Sums of prefixes never exceed the whole sum.
pub proof fn lemma_sum_counts_prefix(s: Seq<(Place, u32)>, k: int)
    requires
        0 <= k <= s.len(),
    ensures
        sum_counts(s.subrange(0, k)) <= sum_counts(s),
    decreases s.len() - k,
{
    if k < s.len() {
        lemma_sum_counts_prefix(s, k + 1);
        assert(s.subrange(0, k + 1).drop_last() =~= s.subrange(0, k));
    } else {
        assert(s.subrange(0, k) =~= s);
    }
}

/// A marking whose counts may be `ω`.
pub type OmegaMarking = Marking<Omega>;

impl Marking<Omega> {
    /// Whether some place holds `ω` tokens.
    pub fn has_omega(&self) -> (r: bool)
        ensures
            r == exists|i: int| 0 <= i < self.support_seq().len() && (#[trigger] self.support_seq()[i]).1 is Unbounded,
    {
        let mut i: usize = 0;
        while i < self.support.len()
            invariant
                0 <= i <= self.support@.len(),
                forall|k: int| 0 <= k < i ==> !((#[trigger] self.support@[k]).1 is Unbounded),
            decreases self.support@.len() - i,
        {
            if self.support[i].1.is_omega() {
                return true;
            }
            i = i + 1;
        }
        false
    }

    /// Whether every count is finite.
    pub fn is_finite(&self) -> (r: bool)
        ensures
            r == !exists|i: int| 0 <= i < self.support_seq().len() && (#[trigger] self.support_seq()[i]).1 is Unbounded,
    {
        !self.has_omega()
    }

    /// The same marking with every count made an `ω`-count.
    pub fn from_marking(m: &Marking<u32>) -> (r: Self)
        requires
            m.wf(),
        ensures
            r.wf(),
            forall|p: Place| #[trigger] r.count(p) == Omega::Finite(m.count(p)),
    {
        let mut support: Vec<(Place, Omega)> = Vec::new();
        let mut i: usize = 0;
        proof {
            lemma_canonical_unique(m.support@);
        }
        while i < m.support.len()
            invariant
                0 <= i <= m.support@.len(),
                canonical(m.support@),
                unique_places(m.support@),
                support@.len() == i,
                forall|k: int| 0 <= k < i ==> (#[trigger] support@[k]) == (m.support@[k].0, Omega::Finite(m.support@[k].1)),
            decreases m.support@.len() - i,
        {
            let (p, v) = m.support[i];
            support.push((p, Omega::Finite(v)));
            i = i + 1;
        }
        proof {
            let s = support@;
            let t = m.support@;
            assert forall|a: int, b: int| 0 <= a < b < s.len() implies (#[trigger] s[a]).0.id() < (#[trigger] s[b]).0.id() by {
                assert(t[a].0.id() < t[b].0.id());
            }
            assert forall|a: int| 0 <= a < s.len() implies (#[trigger] s[a]).1 != Omega::zero_spec() by {
                assert(t[a].1 != 0);
            }
            lemma_canonical_unique(s);
            assert forall|p: Place| #[trigger] token_count(s, p) == Omega::Finite(token_count(t, p)) by {
                if exists|k: int| 0 <= k < t.len() && (#[trigger] t[k]).0 == p {
                    let k = choose|k: int| 0 <= k < t.len() && (#[trigger] t[k]).0 == p;
                    lemma_token_count_at(t, k);
                    lemma_token_count_at(s, k);
                } else {
                    assert forall|k: int| 0 <= k < s.len() implies (#[trigger] s[k]).0 != p by {
                        assert(s[k].0 == t[k].0);
                    }
                }
            }
        }
        Marking { support }
    }
}


/// Two sequences ordered by strictly increasing place identifier that hold the
/// same pairs are equal.
proof fn lemma_sorted_same_elements<T: TokenOps>(s: Seq<(Place, T)>, t: Seq<(Place, T)>)
    requires
        forall|i: int, j: int| 0 <= i < j < s.len() ==> (#[trigger] s[i]).0.id() < (#[trigger] s[j]).0.id(),
        forall|i: int, j: int| 0 <= i < j < t.len() ==> (#[trigger] t[i]).0.id() < (#[trigger] t[j]).0.id(),
        forall|x: (Place, T)| s.contains(x) <==> t.contains(x),
    ensures
        s == t,
    decreases s.len() + t.len(),
{
    if s.len() == 0 {
        if t.len() > 0 {
            assert(t.contains(t[0]));
        }
        assert(s =~= t);
    } else if t.len() == 0 {
        assert(s.contains(s[0]));
    } else {
        assert(s.contains(s[0]));
        let j = choose|j: int| 0 <= j < t.len() && t[j] == s[0];
        assert(t.contains(t[0]));
        let i = choose|i: int| 0 <= i < s.len() && s[i] == t[0];
        if i > 0 {
            assert(s[0].0.id() < s[i].0.id());
            if j > 0 {
                assert(t[0].0.id() < t[j].0.id());
            }
        }
        if j > 0 {
            assert(t[0].0.id() < t[j].0.id());
        }
        assert(s[0] == t[0]);
        let s1 = s.subrange(1, s.len() as int);
        let t1 = t.subrange(1, t.len() as int);
        assert forall|x: (Place, T)| s1.contains(x) <==> t1.contains(x) by {
            if s1.contains(x) {
                let a = choose|a: int| 0 <= a < s1.len() && s1[a] == x;
                assert(s[a + 1] == x);
                assert(s.contains(x));
                let b = choose|b: int| 0 <= b < t.len() && t[b] == x;
                if b == 0 {
                    assert(s[0].0.id() < s[a + 1].0.id());
                }
                assert(t1[b - 1] == x);
            }
            if t1.contains(x) {
                let a = choose|a: int| 0 <= a < t1.len() && t1[a] == x;
                assert(t[a + 1] == x);
                assert(t.contains(x));
                let b = choose|b: int| 0 <= b < s.len() && s[b] == x;
                if b == 0 {
                    assert(t[0].0.id() < t[a + 1].0.id());
                }
                assert(s1[b - 1] == x);
            }
        }
        lemma_sorted_same_elements(s1, t1);
        assert(s =~= seq![s[0]] + s1);
        assert(t =~= seq![t[0]] + t1);
    }
}

/// A canonical support is determined by the counts it assigns.
pub proof fn lemma_canonical_determined<T: TokenOps>(s: Seq<(Place, T)>, t: Seq<(Place, T)>)
    requires
        canonical(s),
        canonical(t),
        forall|p: Place| #[trigger] token_count(s, p) == token_count(t, p),
    ensures
        s == t,
{
    lemma_canonical_unique(s);
    lemma_canonical_unique(t);
    assert forall|x: (Place, T)| s.contains(x) <==> t.contains(x) by {
        if s.contains(x) {
            let i = choose|i: int| 0 <= i < s.len() && s[i] == x;
            lemma_token_count_at(s, i);
            assert(token_count(t, x.0) == x.1);
            assert(x.1 != T::zero_spec());
            if exists|j: int| 0 <= j < t.len() && (#[trigger] t[j]).0 == x.0 {
                let j = choose|j: int| 0 <= j < t.len() && (#[trigger] t[j]).0 == x.0;
                lemma_token_count_at(t, j);
                assert(t[j] == x);
            }
        }
        if t.contains(x) {
            let i = choose|i: int| 0 <= i < t.len() && t[i] == x;
            lemma_token_count_at(t, i);
            assert(token_count(s, x.0) == x.1);
            assert(x.1 != T::zero_spec());
            if exists|j: int| 0 <= j < s.len() && (#[trigger] s[j]).0 == x.0 {
                let j = choose|j: int| 0 <= j < s.len() && (#[trigger] s[j]).0 == x.0;
                lemma_token_count_at(s, j);
                assert(s[j] == x);
            }
        }
    }
    lemma_sorted_same_elements(s, t);
}

impl<T: TokenOps> Marking<T> {
    /// Whether the two markings assign every place the same count.
    pub fn same_counts(&self, other: &Marking<T>) -> (r: bool)
        requires
            self.wf(),
            other.wf(),
        ensures
            r == forall|p: Place| #[trigger] self.count(p) == other.count(p),
    {
        proof {
            if forall|p: Place| #[trigger] self.count(p) == other.count(p) {
                assert forall|p: Place| #[trigger] token_count(self.support@, p) == token_count(other.support@, p) by {
                    assert(self.count(p) == other.count(p));
                }
                lemma_canonical_determined(self.support@, other.support@);
            }
        }
        if self.support.len() != other.support.len() {
            return false;
        }
        let mut i: usize = 0;
        while i < self.support.len()
            invariant
                0 <= i <= self.support@.len(),
                self.support@.len() == other.support@.len(),
                (forall|p: Place| #[trigger] self.count(p) == other.count(p)) ==> self.support@ == other.support@,
                forall|k: int| 0 <= k < i ==> self.support@[k] == other.support@[k],
            decreases self.support@.len() - i,
        {
            let (p, v) = self.support[i];
            let (q, w) = other.support[i];
            if p != q || !v.same(&w) {
                return false;
            }
            i = i + 1;
        }
        proof {
            assert(self.support@ =~= other.support@);
        }
        true
    }

    /// Whether this marking holds at least the count of `target` on every place.
    pub fn covers(&self, target: &Marking<T>) -> (r: bool)
        requires
            self.wf(),
            target.wf(),
        ensures
            r == forall|p: Place| (#[trigger] target.count(p)).leq(self.count(p)),
    {
        proof {
            lemma_canonical_unique(target.support@);
        }
        let mut i: usize = 0;
        while i < target.support.len()
            invariant
                self.wf(),
                target.wf(),
                unique_places(target.support@),
                0 <= i <= target.support@.len(),
                forall|k: int| 0 <= k < i ==> (#[trigger] target.support@[k]).1.leq(self.count(target.support@[k].0)),
            decreases target.support@.len() - i,
        {
            let (p, v) = target.support[i];
            if !v.less_eq(&self.get(p)) {
                proof {
                    lemma_token_count_at(target.support@, i as int);
                    assert(!(target.count(p).leq(self.count(p))));
                }
                return false;
            }
            i = i + 1;
        }
        proof {
            assert forall|p: Place| (#[trigger] target.count(p)).leq(self.count(p)) by {
                if exists|k: int| 0 <= k < target.support@.len() && (#[trigger] target.support@[k]).0 == p {
                    let k = choose|k: int| 0 <= k < target.support@.len() && (#[trigger] target.support@[k]).0 == p;
                    lemma_token_count_at(target.support@, k);
                } else {
                    T::lemma_total_order(self.count(p), self.count(p), self.count(p));
                }
            }
        }
        true
    }
}

} // verus!
