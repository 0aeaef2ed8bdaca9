//! Boundedness: how many tokens a place, or a system, can ever hold.

use crate::class::NetClass;
use crate::marking::Omega;
use crate::net::Place;
use crate::state_space::{is_bound_of, is_finite_seq, CoverabilityGraph};
use crate::system::PetriNet;
use vstd::prelude::*;

verus! {

/// The largest number of tokens a place (or every place of a system) holds in
/// any reachable marking, or unboundedness when there is no such number.
///
/// `Bounded(k)` may be a loose bound, depending on how it was obtained.
/// Bounds are ordered by `k`, and every bound lies below `Unbounded`.
#[derive(Debug, Clone, Copy, PartialEq, Eq, PartialOrd, Ord, Hash, Structural)]
pub enum Boundedness {
    /// At most `k` tokens in any reachable marking.
    Bounded(usize),
    /// Arbitrarily many tokens in reachable markings.
    Unbounded,
}

impl Boundedness {
    /// Whether this is a finite bound.
    pub fn is_bounded(&self) -> (r: bool)
        ensures
            r == (*self is Bounded),
    {
        matches!(self, Boundedness::Bounded(_))
    }

    /// Whether the bound is known to be at most `k`.
    pub fn is_k_bounded(&self, k: usize) -> (r: bool)
        ensures
            r == (match *self {
                Boundedness::Bounded(b) => b <= k,
                Boundedness::Unbounded => false,
            }),
    {
        match self {
            Boundedness::Bounded(b) => *b <= k,
            Boundedness::Unbounded => false,
        }
    }

    /// Whether the bound is known to be at most one token (safety).
    pub fn is_safe(&self) -> (r: bool)
        ensures
            r == (match *self {
                Boundedness::Bounded(b) => b <= 1,
                Boundedness::Unbounded => false,
            }),
    {
        self.is_k_bounded(1)
    }

    /// Whether this is unboundedness.
    pub fn is_unbounded(&self) -> (r: bool)
        ensures
            r == (*self is Unbounded),
    {
        matches!(self, Boundedness::Unbounded)
    }
}


/// Whether some node occurs twice in `c`.
fn has_repeat(c: &Vec<usize>) -> (r: bool)
    ensures
        r == !c@.no_duplicates(),
{
    let mut a: usize = 0;
    while a < c.len()
        invariant
            0 <= a <= c@.len(),
            forall|x: int, y: int| 0 <= x < a && x < y < c@.len() ==> c@[x] != c@[y],
        decreases c@.len() - a,
    {
        let mut b: usize = a + 1;
        while b < c.len()
            invariant
                a < c@.len(),
                a + 1 <= b <= c@.len(),
                forall|x: int, y: int| 0 <= x < a && x < y < c@.len() ==> c@[x] != c@[y],
                forall|y: int| a < y < b ==> c@[a as int] != c@[y],
            decreases c@.len() - b,
        {
            if c[a] == c[b] {
                return true;
            }
            b = b + 1;
        }
        a = a + 1;
    }
    false
}

/// The number of tokens in a dense marking.
pub open spec fn token_total(s: Seq<u32>) -> nat
    decreases s.len(),
{
    if s.len() == 0 {
        0
    } else {
        token_total(s.drop_last()) + s.last() as nat
    }
}

/// The tokens on the places (indices below `np`) among the unified node
/// indices `c`, counted once per occurrence.
pub open spec fn circuit_tokens(m: Seq<u32>, np: nat, c: Seq<usize>) -> nat
    decreases c.len(),
{
    if c.len() == 0 {
        0
    } else {
        circuit_tokens(m, np, c.drop_last()) + (if c.last() < np {
            m[c.last() as int] as nat
        } else {
            0nat
        })
    }
}

proof fn lemma_total_clear(s: Seq<u32>, i: int)
    requires
        0 <= i < s.len(),
    ensures
        token_total(s.update(i, 0)) + s[i] == token_total(s),
    decreases s.len(),
{
    let u = s.update(i, 0);
    if i < s.len() - 1 {
        assert(u.drop_last() == s.drop_last().update(i, 0));
        lemma_total_clear(s.drop_last(), i);
    } else {
        assert(u.drop_last() == s.drop_last());
    }
}

proof fn lemma_circuit_tokens_other(m: Seq<u32>, np: nat, c: Seq<usize>, x: usize)
    requires
        !c.contains(x),
        x < m.len(),
        m.len() == np,
    ensures
        circuit_tokens(m.update(x as int, 0), np, c) == circuit_tokens(m, np, c),
    decreases c.len(),
{
    if c.len() > 0 {
        assert(!c.drop_last().contains(x)) by {
            if c.drop_last().contains(x) {
                let k = choose|k: int| 0 <= k < c.drop_last().len() && c.drop_last()[k] == x;
                assert(c[k] == x);
            }
        }
        lemma_circuit_tokens_other(m, np, c.drop_last(), x);
        assert(c.last() != x) by {
            assert(c[c.len() - 1] == c.last());
        }
    }
}

/// The tokens on a circuit that visits no node twice are at most all tokens.
proof fn lemma_circuit_tokens_le(m: Seq<u32>, np: nat, c: Seq<usize>)
    requires
        c.no_duplicates(),
        m.len() == np,
    ensures
        circuit_tokens(m, np, c) <= token_total(m),
    decreases c.len(),
{
    if c.len() > 0 {
        let x = c.last();
        let rest = c.drop_last();
        assert(rest.no_duplicates()) by {
            assert forall|a: int, b: int| 0 <= a < b < rest.len() implies rest[a] != rest[b] by {
                assert(c[a] != c[b]);
            }
        }
        if x < np {
            let m2 = m.update(x as int, 0);
            assert(!rest.contains(x)) by {
                if rest.contains(x) {
                    let k = choose|k: int| 0 <= k < rest.len() && rest[k] == x;
                    assert(c[k] == c[c.len() - 1]);
                }
            }
            lemma_circuit_tokens_other(m, np, rest, x);
            lemma_circuit_tokens_le(m2, np, rest);
            lemma_total_clear(m, x as int);
        } else {
            lemma_circuit_tokens_le(m, np, rest);
        }
    }
}

impl<'a> PetriNet<'a> {
    /// The total number of tokens in the current marking.
    pub open spec fn total_tokens(&self) -> nat {
        token_total(self.current())
    }

    /// The dense index of `place`, for a place of the net.
    pub open spec fn place_idx(&self, place: Place) -> int {
        self.structure().place_seq().index_of(place)
    }

    /// Whether some elementary circuit that graph-cycles finds passes through `place`.
    pub open spec fn place_on_circuit(&self, place: Place) -> bool {
        exists|i: int| 0 <= i < self.structure().circuit_indices().len()
            && #[trigger] self.structure().circuit_indices()[i].contains(self.place_idx(place) as usize)
    }

    /// Whether some elementary circuit that graph-cycles finds, one that visits
    /// no node twice, passes through `place`.
    pub open spec fn place_on_simple_circuit(&self, place: Place) -> bool {
        exists|i: int| 0 <= i < self.structure().circuit_indices().len()
            && (#[trigger] self.structure().circuit_indices()[i]).no_duplicates()
            && self.structure().circuit_indices()[i].contains(self.place_idx(place) as usize)
    }

    /// Whether the net fits petgraph's `u32` node and edge indices.
    pub open spec fn fits_u32_graph(&self) -> bool {
        self.structure().np() + self.structure().nt() < u32::MAX && self.structure().arc_set().len() < u32::MAX
    }

    /// The total number of tokens, which must fit in a `usize`.
    pub(crate) fn total_tokens_exec(&self) -> (r: usize)
        requires
            self.wf(),
            self.total_tokens() <= usize::MAX,
        ensures
            r == self.total_tokens(),
    {
        let m = self.current_dense();
        let mut sum: usize = 0;
        let mut i: usize = 0;
        while i < m.len()
            invariant
                m@ == self.current(),
                token_total(m@) <= usize::MAX,
                0 <= i <= m@.len(),
                sum == token_total(m@.take(i as int)),
            decreases m@.len() - i,
        {
            proof {
                assert(m@.take(i + 1).drop_last() == m@.take(i as int));
                lemma_total_prefix(m@, i + 1);
            }
            sum = sum + m[i] as usize;
            i = i + 1;
        }
        proof {
            assert(m@.take(i as int) == m@);
        }
        sum
    }

    /// Whether a polynomial procedure shows the system bounded, if one
    /// applies: circuits and state machines conserve their tokens; a marked
    /// graph is bounded exactly when it is strongly connected.
    pub fn is_efficiently_bounded(&self) -> (r: Option<bool>)
        requires
            self.wf(),
        ensures
            r == (match self.class_spec() {
                NetClass::Circuit | NetClass::StateMachine => Some(true),
                NetClass::MarkedGraph => Some(self.strongly_connected()),
                _ => None::<bool>,
            }),
    {
        let net = self.net_ref();
        match net.class() {
            NetClass::Circuit | NetClass::StateMachine => Some(true),
            NetClass::MarkedGraph => Some(net.is_strongly_connected()),
            _ => None,
        }
    }

    /// Whether a polynomial procedure shows `place` bounded, if one applies:
    /// in a circuit or state machine every place is; in a marked graph a
    /// place is bounded exactly when it lies on a circuit (a place not in the
    /// net counts as bounded).
    pub fn is_place_efficiently_bounded(&self, place: Place) -> (r: Option<bool>)
        requires
            self.wf(),
            self.class_spec() is MarkedGraph ==> self.fits_u32_graph(),
        ensures
            r == (match self.class_spec() {
                NetClass::Circuit | NetClass::StateMachine => Some(true),
                NetClass::MarkedGraph => Some(!self.structure().place_set().contains(place) || self.place_on_circuit(place)),
                _ => None::<bool>,
            }),
    {
        let net = self.net_ref();
        match net.class() {
            NetClass::Circuit | NetClass::StateMachine => Some(true),
            NetClass::MarkedGraph => {
                match net.place_index(place) {
                    None => Some(true),
                    Some(pi) => {
                        proof {
                            self.lemma_place_idx(place, pi);
                        }
                        let cycles = net.circuit_index_lists();
                        let found = any_list_contains(&cycles, pi);
                        proof {
                            assert(self.place_idx(place) as usize == pi);
                            assert(self.structure().place_set().contains(place)) by {
                                assert(self.structure().place_seq()[pi as int] == place);
                            }
                        }
                        Some(found)
                    },
                }
            },
            _ => None,
        }
    }

    /// The dense index that `place_index` finds is `place_idx`.
    proof fn lemma_place_idx(&self, place: Place, pi: usize)
        requires
            self.wf(),
            pi < self.structure().np(),
            self.structure().place_seq()[pi as int] == place,
        ensures
            self.place_idx(place) == pi as int,
    {
        self.structure().lemma_wf();
        let s = self.structure().place_seq();
        assert(s.contains(place));
        s.index_of_first(place);
        let f = s.index_of(place);
        assert(s[f] == place);
    }

    /// The bound on all places that a polynomial procedure gives, if one
    /// applies: the token count of a circuit or of a strongly connected state
    /// machine (whose tokens never change in number); unboundedness for a
    /// marked graph that is not strongly connected.
    pub fn efficient_boundedness(&self) -> (r: Option<Boundedness>)
        requires
            self.wf(),
            self.total_tokens() <= usize::MAX,
        ensures
            r == (match self.class_spec() {
                NetClass::Circuit => Some(Boundedness::Bounded(self.total_tokens() as usize)),
                NetClass::StateMachine => if self.strongly_connected() {
                    Some(Boundedness::Bounded(self.total_tokens() as usize))
                } else {
                    None::<Boundedness>
                },
                NetClass::MarkedGraph => if self.strongly_connected() {
                    None::<Boundedness>
                } else {
                    Some(Boundedness::Unbounded)
                },
                _ => None::<Boundedness>,
            }),
    {
        let net = self.net_ref();
        match net.class() {
            NetClass::Circuit => Some(Boundedness::Bounded(self.total_tokens_exec())),
            NetClass::StateMachine => {
                if net.is_strongly_connected() {
                    Some(Boundedness::Bounded(self.total_tokens_exec()))
                } else {
                    None
                }
            },
            NetClass::MarkedGraph => {
                if net.is_strongly_connected() {
                    None
                } else {
                    Some(Boundedness::Unbounded)
                }
            },
            _ => None,
        }
    }

    /// The tokens on the places of the circuit with node indices `c`.
    pub open spec fn tokens_on(&self, c: Seq<usize>) -> nat {
        circuit_tokens(self.current(), self.structure().np(), c)
    }

    /// The bound on `place` that a polynomial procedure gives, if one
    /// applies: the token count of a circuit or of a strongly connected
    /// state machine; in a marked graph, the fewest tokens on any circuit
    /// through the place (the tokens of a circuit never change in number),
    /// or unboundedness when no circuit passes through it. A place not in
    /// the net of a marked graph is bounded by zero.
    pub fn efficient_place_boundedness(&self, place: Place) -> (r: Option<Boundedness>)
        requires
            self.wf(),
            self.total_tokens() <= usize::MAX,
            self.class_spec() is MarkedGraph ==> self.fits_u32_graph(),
        ensures
            self.class_spec() is Circuit ==> r == Some(Boundedness::Bounded(self.total_tokens() as usize)),
            self.class_spec() is StateMachine ==> r == (if self.strongly_connected() {
                Some(Boundedness::Bounded(self.total_tokens() as usize))
            } else {
                None::<Boundedness>
            }),
            self.class_spec() is MarkedGraph && !self.structure().place_set().contains(place) ==> r == Some(Boundedness::Bounded(0)),
            self.class_spec() is MarkedGraph && self.structure().place_set().contains(place) ==> {
                let cs = self.structure().circuit_indices();
                let pi = self.place_idx(place) as usize;
                &&& !self.place_on_simple_circuit(place) ==> r == Some(Boundedness::Unbounded)
                &&& self.place_on_simple_circuit(place) ==> exists|i: int| 0 <= i < cs.len() && cs[i].no_duplicates() && #[trigger] cs[i].contains(pi)
                    && r == Some(Boundedness::Bounded(self.tokens_on(cs[i]) as usize))
                    && forall|k: int| 0 <= k < cs.len() && cs[k].no_duplicates() && #[trigger] cs[k].contains(pi) ==> self.tokens_on(cs[i]) <= self.tokens_on(cs[k])
            },
            !(self.class_spec() is Circuit || self.class_spec() is StateMachine || self.class_spec() is MarkedGraph) ==> r is None,
    {
        let net = self.net_ref();
        match net.class() {
            NetClass::Circuit => Some(Boundedness::Bounded(self.total_tokens_exec())),
            NetClass::StateMachine => {
                if net.is_strongly_connected() {
                    Some(Boundedness::Bounded(self.total_tokens_exec()))
                } else {
                    None
                }
            },
            NetClass::MarkedGraph => {
                match net.place_index(place) {
                    None => Some(Boundedness::Bounded(0)),
                    Some(pi) => {
                        proof {
                            self.lemma_place_idx(place, pi);
                            net.lemma_wf();
                        }
                        let cycles = net.circuit_index_lists();
                        let ghost cs = cycles.deep_view();
                        let np = net.num_places();
                        let m = self.current_dense();
                        let mut best: Option<usize> = None;
                        let ghost mut best_i: int = 0;
                        let mut i: usize = 0;
                        while i < cycles.len()
                            invariant
                                self.wf(),
                                *net == self.structure(),
                                np == net.np(),
                                m@ == self.current(),
                                m@.len() == np,
                                token_total(m@) <= usize::MAX,
                                cs == cycles.deep_view(),
                                cs == net.circuit_indices(),
                                cycles@.len() == cs.len(),
                                0 <= i <= cycles@.len(),
                                best is None ==> forall|k: int| 0 <= k < i ==> !((#[trigger] cs[k]).no_duplicates() && cs[k].contains(pi)),
                                best matches Some(b) ==> 0 <= best_i < i && cs[best_i].no_duplicates() && cs[best_i].contains(pi) && b == self.tokens_on(cs[best_i])
                                    && forall|k: int| 0 <= k < i && cs[k].no_duplicates() && #[trigger] cs[k].contains(pi) ==> self.tokens_on(cs[best_i]) <= self.tokens_on(cs[k]),
                            decreases cycles@.len() - i,
                        {
                            let c = &cycles[i];
                            assert(c@ == cs[i as int]);
                            if has_repeat(c) {
                                i = i + 1;
                                continue;
                            }
                            let mut on = false;
                            let mut sum: usize = 0;
                            let mut k: usize = 0;
                            proof {
                                lemma_circuit_tokens_le(m@, np as nat, c@);
                            }
                            while k < c.len()
                                invariant
                                    m@.len() == np,
                                    token_total(m@) <= usize::MAX,
                                    circuit_tokens(m@, np as nat, c@) <= token_total(m@),
                                    0 <= k <= c@.len(),
                                    sum == circuit_tokens(m@, np as nat, c@.take(k as int)),
                                    on <==> c@.take(k as int).contains(pi),
                                decreases c@.len() - k,
                            {
                                proof {
                                    assert(c@.take(k + 1).drop_last() == c@.take(k as int));
                                    lemma_circuit_tokens_prefix(m@, np as nat, c@, k + 1);
                                    crate::seq_facts::lemma_seq_push_contains(c@.take(k as int), c@[k as int], pi);
                                    assert(c@.take(k + 1) == c@.take(k as int).push(c@[k as int]));
                                }
                                let x = c[k];
                                if x == pi {
                                    on = true;
                                }
                                if x < np {
                                    sum = sum + m[x] as usize;
                                }
                                k = k + 1;
                            }
                            proof {
                                assert(c@.take(k as int) == c@);
                            }
                            if on {
                                let better = match best {
                                    None => true,
                                    Some(b) => sum < b,
                                };
                                if better {
                                    best = Some(sum);
                                    proof {
                                        best_i = i as int;
                                    }
                                }
                            }
                            i = i + 1;
                        }
                        match best {
                            None => {
                                proof {
                                    if self.place_on_simple_circuit(place) {
                                        let k = choose|k: int| 0 <= k < net.circuit_indices().len()
                                            && (#[trigger] net.circuit_indices()[k]).no_duplicates()
                                            && net.circuit_indices()[k].contains(self.place_idx(place) as usize);
                                        assert(!(cs[k].no_duplicates() && cs[k].contains(pi)));
                                    }
                                }
                                Some(Boundedness::Unbounded)
                            },
                            Some(b) => {
                                proof {
                                    assert(cs[best_i].contains(pi));
                                    assert(self.place_idx(place) as usize == pi);
                                    assert(self.place_on_simple_circuit(place));
                                    assert(b == self.tokens_on(cs[best_i]));
                                }
                                Some(Boundedness::Bounded(b))
                            },
                        }
                    },
                }
            },
            _ => None,
        }
    }
}

proof fn lemma_total_prefix(s: Seq<u32>, k: int)
    requires
        0 < k <= s.len(),
    ensures
        token_total(s.take(k)) == token_total(s.take(k - 1)) + s[k - 1],
        token_total(s.take(k)) <= token_total(s),
    decreases s.len() - k,
{
    assert(s.take(k).drop_last() == s.take(k - 1));
    if k < s.len() {
        lemma_total_prefix(s, k + 1);
    } else {
        assert(s.take(k) == s);
    }
}

proof fn lemma_circuit_tokens_prefix(m: Seq<u32>, np: nat, c: Seq<usize>, k: int)
    requires
        0 < k <= c.len(),
    ensures
        circuit_tokens(m, np, c.take(k)) <= circuit_tokens(m, np, c),
    decreases c.len() - k,
{
    assert(c.take(k).drop_last() == c.take(k - 1));
    if k < c.len() {
        lemma_circuit_tokens_prefix(m, np, c, k + 1);
        assert(c.take(k + 1).drop_last() == c.take(k));
    } else {
        assert(c.take(k) == c);
    }
}

/// Whether one of the lists holds `x`.
fn any_list_contains(lists: &Vec<Vec<usize>>, x: usize) -> (r: bool)
    ensures
        r == exists|i: int| 0 <= i < lists@.len() && #[trigger] lists.deep_view()[i].contains(x),
{
    let ghost d = lists.deep_view();
    let mut i: usize = 0;
    while i < lists.len()
        invariant
            d == lists.deep_view(),
            0 <= i <= lists@.len(),
            forall|k: int| 0 <= k < i ==> !(#[trigger] d[k]).contains(x),
        decreases lists@.len() - i,
    {
        let l = &lists[i];
        proof {
            assert(d.len() == lists@.len());
        }
        assert(l@ == d[i as int]);
        let mut j: usize = 0;
        while j < l.len()
            invariant
                d == lists.deep_view(),
                0 <= i < lists@.len(),
                l@ == d[i as int],
                0 <= j <= l@.len(),
                forall|k: int| 0 <= k < j ==> l@[k] != x,
            decreases l@.len() - j,
        {
            if l[j] == x {
                proof {
                    assert(l@[j as int] == x);
                    assert(d[i as int].contains(x));
                }
                return true;
            }
            j = j + 1;
        }
        i = i + 1;
    }
    false
}


/// The bound that a largest count gives: a finite count bounds the place,
/// `ω` does not.
pub open spec fn bound_of(v: Omega) -> Boundedness {
    match v {
        Omega::Finite(k) => Boundedness::Bounded(k as usize),
        Omega::Unbounded => Boundedness::Unbounded,
    }
}

/// The order of bounds: by `k`, with every bound below `Unbounded`.
pub open spec fn bound_le(a: Boundedness, b: Boundedness) -> bool {
    match (a, b) {
        (Boundedness::Bounded(x), Boundedness::Bounded(y)) => x <= y,
        (_, Boundedness::Unbounded) => true,
        (Boundedness::Unbounded, Boundedness::Bounded(_)) => false,
    }
}

/// Bounds are ordered by their count, and `Unbounded` lies above every
/// finite bound: `Bounded(x)` is at most `Bounded(y)` exactly when
/// `x <= y`, every bound is at most `Unbounded`, and `Unbounded` is at most no
/// finite bound.
pub proof fn law_bound_order()
    ensures
        forall|x: usize, y: usize| #[trigger] bound_le(Boundedness::Bounded(x), Boundedness::Bounded(y)) <==> x <= y,
        forall|b: Boundedness| #[trigger] bound_le(b, Boundedness::Unbounded),
        forall|x: usize| !#[trigger] bound_le(Boundedness::Unbounded, Boundedness::Bounded(x)),
{
}

/// The bound recorded for `p`, or zero when none is.
pub open spec fn bound_in(bounds: Seq<(Place, Boundedness)>, p: Place) -> Boundedness {
    if exists|i: int| 0 <= i < bounds.len() && (#[trigger] bounds[i]).0 == p {
        bounds[choose|i: int| 0 <= i < bounds.len() && (#[trigger] bounds[i]).0 == p].1
    } else {
        Boundedness::Bounded(0)
    }
}

fn bound_le_exec(a: Boundedness, b: Boundedness) -> (r: bool)
    ensures
        r == bound_le(a, b),
{
    match (a, b) {
        (Boundedness::Bounded(x), Boundedness::Bounded(y)) => x <= y,
        (_, Boundedness::Unbounded) => true,
        (Boundedness::Unbounded, Boundedness::Bounded(_)) => false,
    }
}

/// The bound of every place of a system.
pub struct BoundednessAnalysis {
    bounds: Vec<(Place, Boundedness)>,
}

impl BoundednessAnalysis {
    /// The recorded places with their bounds.
    pub closed spec fn entries(&self) -> Seq<(Place, Boundedness)> {
        self.bounds@
    }

    /// The recorded places with their bounds.
    pub fn bounds(&self) -> (r: &Vec<(Place, Boundedness)>)
        ensures
            r@ == self.entries(),
    {
        &self.bounds
    }

    /// The bound of the system as a whole: the largest bound of any place,
    /// or zero when no place is recorded.
    pub fn global_bound(&self) -> (r: Boundedness)
        ensures
            self.entries().len() == 0 ==> r == Boundedness::Bounded(0),
            self.entries().len() > 0 ==> exists|i: int| 0 <= i < self.entries().len() && r == (#[trigger] self.entries()[i]).1,
            forall|i: int| 0 <= i < self.entries().len() ==> bound_le(#[trigger] self.entries()[i].1, r),
            forall|i: int| 0 <= i < self.entries().len() ==> match #[trigger] self.entries()[i].1 {
                Boundedness::Bounded(k) => r is Unbounded || (r matches Boundedness::Bounded(m) && k <= m),
                Boundedness::Unbounded => r is Unbounded,
            },
    {
        proof {
            law_bound_order();
        }
        if self.bounds.len() == 0 {
            return Boundedness::Bounded(0);
        }
        let mut best = self.bounds[0].1;
        let mut i: usize = 1;
        while i < self.bounds.len()
            invariant
                1 <= i <= self.bounds@.len(),
                exists|j: int| 0 <= j < i && best == (#[trigger] self.bounds@[j]).1,
                forall|j: int| 0 <= j < i ==> bound_le(#[trigger] self.bounds@[j].1, best),
            decreases self.bounds@.len() - i,
        {
            let b = self.bounds[i].1;
            if !bound_le_exec(b, best) {
                best = b;
            }
            i = i + 1;
        }
        best
    }

    /// The bound of `place`, or zero when it is not recorded.
    pub fn place_bound(&self, place: Place) -> (r: Boundedness)
        requires
            forall|i: int, j: int| 0 <= i < j < self.entries().len() ==> (#[trigger] self.entries()[i]).0 != (#[trigger] self.entries()[j]).0,
        ensures
            r == bound_in(self.entries(), place),
    {
        let mut i: usize = 0;
        while i < self.bounds.len()
            invariant
                forall|a: int, b: int| 0 <= a < b < self.bounds@.len() ==> (#[trigger] self.bounds@[a]).0 != (#[trigger] self.bounds@[b]).0,
                0 <= i <= self.bounds@.len(),
                forall|j: int| 0 <= j < i ==> (#[trigger] self.bounds@[j]).0 != place,
            decreases self.bounds@.len() - i,
        {
            if self.bounds[i].0 == place {
                proof {
                    let c = choose|j: int| 0 <= j < self.bounds@.len() && (#[trigger] self.bounds@[j]).0 == place;
                    if c != i as int && c > i {
                        assert((self.bounds@[i as int]).0 != (self.bounds@[c]).0);
                    }
                }
                return self.bounds[i].1;
            }
            i = i + 1;
        }
        Boundedness::Bounded(0)
    }
}

impl<'a> PetriNet<'a> {
    /// Whether `g` is a coverability graph explored from the current marking.
    pub open spec fn covered_from_here(&self, g: CoverabilityGraph<'a>) -> bool {
        g.cover_wf() && g.structure() == self.structure() && g.initial_spec() == self.current()
    }

    /// Whether the entries list every place in dense order, each with the
    /// bound that its largest count in `g` gives.
    pub open spec fn bounds_from(&self, g: CoverabilityGraph<'a>, entries: Seq<(Place, Boundedness)>) -> bool {
        &&& entries.len() == self.structure().np()
        &&& forall|j: int| 0 <= j < entries.len() ==> #[trigger] entries[j].0 == self.structure().place_seq()[j]
            && exists|v: Omega| #[trigger] is_bound_of(self.structure(), g.nodes(), self.structure().place_seq()[j], v) && entries[j].1 == bound_of(v)
    }

    /// The bound of every place, read off the coverability graph.
    pub fn boundedness_via_coverability_graph(&self) -> (r: BoundednessAnalysis)
        requires
            self.wf(),
        ensures
            exists|g: CoverabilityGraph<'a>| #[trigger] self.covered_from_here(g) && self.bounds_from(g, r.entries()),
            forall|i: int, j: int| 0 <= i < j < r.entries().len() ==> (#[trigger] r.entries()[i]).0 != (#[trigger] r.entries()[j]).0,
    {
        let net = self.net_ref();
        proof {
            net.lemma_wf();
        }
        let g = self.build_coverability_graph();
        let maxes = g.place_bounds();
        let np = net.num_places();
        let mut bounds: Vec<(Place, Boundedness)> = Vec::new();
        let mut j: usize = 0;
        while j < np
            invariant
                self.wf(),
                *net == self.structure(),
                np == net.np(),
                self.covered_from_here(g),
                maxes.wf(),
                forall|p: Place| #[trigger] is_bound_of(g.structure(), g.nodes(), p, maxes.count(p)),
                0 <= j <= np,
                bounds@.len() == j,
                forall|k: int| 0 <= k < j ==> #[trigger] bounds@[k].0 == net.place_seq()[k]
                    && exists|v: Omega| #[trigger] is_bound_of(*net, g.nodes(), net.place_seq()[k], v) && bounds@[k].1 == bound_of(v),
            decreases np - j,
        {
            let p = net.place_at(j);
            let v = maxes.get(p);
            let b = match v {
                Omega::Finite(k) => Boundedness::Bounded(k as usize),
                Omega::Unbounded => Boundedness::Unbounded,
            };
            proof {
                assert(is_bound_of(*net, g.nodes(), p, v));
            }
            let ghost b0 = bounds@;
            bounds.push((p, b));
            proof {
                assert(b == bound_of(v));
                assert forall|k: int| 0 <= k < j + 1 implies #[trigger] bounds@[k].0 == net.place_seq()[k]
                    && exists|w: Omega| #[trigger] is_bound_of(*net, g.nodes(), net.place_seq()[k], w) && bounds@[k].1 == bound_of(w) by {
                    if k < j {
                        assert(bounds@[k] == b0[k]);
                    } else {
                        assert(is_bound_of(*net, g.nodes(), net.place_seq()[k], v));
                    }
                }
                assert(bounds@.len() == j + 1);
            }
            j = j + 1;
            proof {
                assert(forall|k: int| 0 <= k < j ==> #[trigger] bounds@[k].0 == net.place_seq()[k]
                    && exists|v: Omega| #[trigger] is_bound_of(*net, g.nodes(), net.place_seq()[k], v) && bounds@[k].1 == bound_of(v));
            }
        }
        let r = BoundednessAnalysis { bounds };
        proof {
            assert(self.bounds_from(g, r.entries()));
            assert forall|i: int, k: int| 0 <= i < k < r.entries().len() implies (#[trigger] r.entries()[i]).0 != (#[trigger] r.entries()[k]).0 by {
                assert(net.place_seq()[i] != net.place_seq()[k]);
            }
        }
        r
    }

    /// Whether the system is bounded: by a polynomial procedure where one
    /// applies, otherwise by the coverability graph (no `ω` anywhere).
    pub fn is_bounded(&self) -> (r: bool)
        requires
            self.wf(),
        ensures
            (self.class_spec() is Circuit || self.class_spec() is StateMachine) ==> r,
            self.class_spec() is MarkedGraph ==> r == self.strongly_connected(),
            !(self.class_spec() is Circuit || self.class_spec() is StateMachine || self.class_spec() is MarkedGraph) ==> exists|g: CoverabilityGraph<'a>|
                #[trigger] self.covered_from_here(g) && (r <==> forall|i: int| 0 <= i < g.nodes().len() ==> is_finite_seq(#[trigger] g.nodes()[i]))
                && (g.is_complete() || usize::MAX <= (g.structure().nt() + 2) * (g.nodes().len() + 1)),
    {
        match self.is_efficiently_bounded() {
            Some(b) => b,
            None => {
                let g = self.build_coverability_graph();
                let r = g.is_bounded();
                proof {
                    assert(self.covered_from_here(g));
                }
                r
            },
        }
    }

    /// Whether `place` is bounded: by a polynomial procedure where one
    /// applies, otherwise by its largest count in the coverability graph.
    pub fn is_place_bounded(&self, place: Place) -> (r: bool)
        requires
            self.wf(),
            self.class_spec() is MarkedGraph ==> self.fits_u32_graph(),
        ensures
            (self.class_spec() is Circuit || self.class_spec() is StateMachine) ==> r,
            self.class_spec() is MarkedGraph ==> r == (!self.structure().place_set().contains(place) || self.place_on_circuit(place)),
            !(self.class_spec() is Circuit || self.class_spec() is StateMachine || self.class_spec() is MarkedGraph) ==> exists|g: CoverabilityGraph<'a>, a: BoundednessAnalysis|
                #[trigger] self.covered_from_here(g) && #[trigger] self.bounds_from(g, a.entries()) && r == (bound_in(a.entries(), place) is Bounded),
    {
        match self.is_place_efficiently_bounded(place) {
            Some(b) => b,
            None => {
                let a = self.boundedness_via_coverability_graph();
                let r = a.place_bound(place).is_bounded();
                r
            },
        }
    }

    /// The bound of the whole system: by a polynomial procedure where one
    /// applies, otherwise the largest bound the coverability graph gives.
    pub fn boundedness(&self) -> (r: Boundedness)
        requires
            self.wf(),
            self.total_tokens() <= usize::MAX,
        ensures
            self.class_spec() is Circuit ==> r == Boundedness::Bounded(self.total_tokens() as usize),
            self.class_spec() is StateMachine && self.strongly_connected() ==> r == Boundedness::Bounded(self.total_tokens() as usize),
            self.class_spec() is MarkedGraph && !self.strongly_connected() ==> r == Boundedness::Unbounded,
            !(self.class_spec() is Circuit || (self.class_spec() is StateMachine && self.strongly_connected())
                || (self.class_spec() is MarkedGraph && !self.strongly_connected())) ==> exists|g: CoverabilityGraph<'a>, a: BoundednessAnalysis|
                #[trigger] self.covered_from_here(g) && #[trigger] self.bounds_from(g, a.entries())
                && (forall|i: int| 0 <= i < a.entries().len() ==> bound_le(#[trigger] a.entries()[i].1, r))
                && (forall|i: int| 0 <= i < a.entries().len() ==> match #[trigger] a.entries()[i].1 {
                    Boundedness::Bounded(k) => r is Unbounded || (r matches Boundedness::Bounded(m) && k <= m),
                    Boundedness::Unbounded => r is Unbounded,
                })
                && (a.entries().len() > 0 ==> exists|i: int| 0 <= i < a.entries().len() && r == (#[trigger] a.entries()[i]).1),
    {
        match self.efficient_boundedness() {
            Some(b) => b,
            None => {
                let a = self.boundedness_via_coverability_graph();
                a.global_bound()
            },
        }
    }

    /// The bound of `place`: by a polynomial procedure where one applies,
    /// otherwise its largest count in the coverability graph.
    pub fn place_boundedness(&self, place: Place) -> (r: Boundedness)
        requires
            self.wf(),
            self.total_tokens() <= usize::MAX,
            self.class_spec() is MarkedGraph ==> self.fits_u32_graph(),
        ensures
            self.class_spec() is Circuit ==> r == Boundedness::Bounded(self.total_tokens() as usize),
            self.class_spec() is StateMachine && self.strongly_connected() ==> r == Boundedness::Bounded(self.total_tokens() as usize),
            self.class_spec() is MarkedGraph && !self.structure().place_set().contains(place) ==> r == Boundedness::Bounded(0),
            !(self.class_spec() is Circuit || self.class_spec() is StateMachine || self.class_spec() is MarkedGraph)
                || (self.class_spec() is StateMachine && !self.strongly_connected()) ==> exists|g: CoverabilityGraph<'a>, a: BoundednessAnalysis|
                #[trigger] self.covered_from_here(g) && #[trigger] self.bounds_from(g, a.entries()) && r == bound_in(a.entries(), place),
    {
        match self.efficient_place_boundedness(place) {
            Some(b) => b,
            None => {
                let a = self.boundedness_via_coverability_graph();
                a.place_bound(place)
            },
        }
    }
}

} // verus!
