//! Certificates that a place is implicit.
//!
//! A place `p` is implicit in a system `(N, M₀)` when a non-negative weighting
//! `y` of the other places satisfies, with every arc of weight one:
//!
//! - (C1) for every transition `t`: `N[p][t] ≥ Σ_{q≠p} y_q · N[q][t]`;
//! - (C2) for every `t ∈ p•`: `M₀[p] − Σ_{q≠p} y_q · M₀[q] + Σ_{q ∈ •t, q≠p} y_q ≥ 1`.
//!
//! Then `M[p] − Σ_{q≠p} y_q · M[q]` never decreases along a run, and with
//! (C2) this forces a token onto `p` whenever the other input places of an
//! output transition of `p` are marked: `p` is never the only place that
//! disables a transition. The weights are rationals with a common
//! denominator: `y_q = w_q / scale`.

use vstd::prelude::*;
use crate::conservation::{lemma_sum_ext, lemma_sum_sub, sum_to};
use crate::net::{vec_contains_index, Net, Place};
use crate::system::PetriNet;

verus! {

/// A certificate that a place is implicit: the weight `w_q / scale` of each
/// other place `q` listed, every place not listed weighing zero.
#[derive(Debug, Clone, PartialEq, Eq)]
pub struct ImplicitPlaceWitness {
    place: Place,
    weights: Vec<(Place, u32)>,
    scale: u32,
}

/// The change that firing transition `t` makes on the place at dense index `q`.
pub open spec fn incidence(net: Net, t: int, q: int) -> int {
    (if net.produces(t, q) { 1int } else { 0int }) - (if net.consumes(t, q) { 1int } else { 0int })
}

/// The terms `w_q · N[q][t]` for `q ≠ p`, zero at `p`.
pub open spec fn change_terms(net: Net, w: Seq<int>, p: int, t: int) -> spec_fn(int) -> int {
    |q: int| if q == p { 0 } else { w[q] * incidence(net, t, q) }
}

/// `Σ_{q≠p} w_q · N[q][t]`.
pub open spec fn weighted_change(net: Net, w: Seq<int>, p: int, t: int) -> int {
    sum_to(net.np() as int, change_terms(net, w, p, t))
}

/// The terms `w_q · m[q]` for `q ≠ p`, zero at `p`.
pub open spec fn token_terms(w: Seq<int>, p: int, m: Seq<u32>) -> spec_fn(int) -> int {
    |q: int| if q == p { 0 } else { w[q] * m[q] }
}

/// `Σ_{q≠p} w_q · m[q]`.
pub open spec fn weighted_tokens(net: Net, w: Seq<int>, p: int, m: Seq<u32>) -> int {
    sum_to(net.np() as int, token_terms(w, p, m))
}

/// The terms `w_q` for the input places `q ≠ p` of `t`, zero elsewhere.
pub open spec fn input_terms(net: Net, w: Seq<int>, p: int, t: int) -> spec_fn(int) -> int {
    |q: int| if q != p && net.consumes(t, q) { w[q] } else { 0 }
}

/// `Σ_{q ∈ •t, q≠p} w_q`.
pub open spec fn weighted_inputs(net: Net, w: Seq<int>, p: int, t: int) -> int {
    sum_to(net.np() as int, input_terms(net, w, p, t))
}

/// Whether the weights `w[q] / scale` certify that the place at dense index
/// `p` is implicit in `net` from the marking `m0`: conditions (C1) and (C2),
/// multiplied through by `scale`.
pub open spec fn implicit_certificate(net: Net, m0: Seq<u32>, p: int, w: Seq<int>, scale: int) -> bool {
    &&& 0 <= p < net.np()
    &&& scale > 0
    &&& w.len() == net.np()
    &&& forall|q: int| 0 <= q < w.len() ==> #[trigger] w[q] >= 0
    &&& forall|t: int| 0 <= t < net.nt() ==> scale * incidence(net, t, p) >= #[trigger] weighted_change(net, w, p, t)
    &&& forall|t: int| 0 <= t < net.nt() && #[trigger] net.consumes(t, p) ==> scale * m0[p] - weighted_tokens(net, w, p, m0)
        + weighted_inputs(net, w, p, t) >= scale
}

/// The weight that `weights` gives the place at dense index `q`: that of its
/// last entry for the place, zero when it has none.
pub open spec fn weight_of(net: Net, weights: Seq<(Place, u32)>, q: int) -> int
    decreases weights.len(),
{
    if weights.len() == 0 {
        0
    } else if weights.last().0 == net.place_seq()[q] {
        weights.last().1 as int
    } else {
        weight_of(net, weights.drop_last(), q)
    }
}

/// The weights of the net's places, by dense index.
pub open spec fn dense_weights(net: Net, weights: Seq<(Place, u32)>) -> Seq<int> {
    Seq::new(net.np(), |q: int| weight_of(net, weights, q))
}

/// A sum of terms each at least the matching term of another is at least
/// that other sum.
proof fn lemma_sum_le(n: int, f: spec_fn(int) -> int, g: spec_fn(int) -> int)
    requires
        forall|i: int| #![trigger f(i)] 0 <= i < n ==> f(i) >= g(i),
    ensures
        sum_to(n, f) >= sum_to(n, g),
    decreases n,
{
    if n > 0 {
        lemma_sum_le(n - 1, f, g);
    }
}

/// `scale · m[p] − Σ_{q≠p} w_q · m[q]`, the quantity that never decreases.
pub open spec fn slack(net: Net, w: Seq<int>, p: int, scale: int, m: Seq<u32>) -> int {
    scale * m[p] - weighted_tokens(net, w, p, m)
}

/// Firing a transition does not decrease the slack.
proof fn lemma_slack_fire(net: Net, m0: Seq<u32>, p: int, w: Seq<int>, scale: int, m: Seq<u32>, t: int)
    requires
        implicit_certificate(net, m0, p, w, scale),
        net.fires(m, t),
    ensures
        slack(net, w, p, scale, net.fire_spec(m, t)) >= slack(net, w, p, scale, m),
{
    let m1 = net.fire_spec(m, t);
    let np = net.np() as int;
    let f = token_terms(w, p, m);
    let f1 = token_terms(w, p, m1);
    let c = change_terms(net, w, p, t);
    assert forall|q: int| #![trigger c(q)] 0 <= q < np implies c(q) == f1(q) - f(q) by {
        assert(net.fired_count(m, t, q) <= u32::MAX);
        assert(m1[q] == m[q] + incidence(net, t, q));
        if q != p {
            let a = w[q];
            let x = m[q] as int;
            let d = incidence(net, t, q);
            assert(a * (x + d) == a * x + a * d) by (nonlinear_arith);
        }
    }
    lemma_sum_sub(np, f1, f, c);
    assert(weighted_tokens(net, w, p, m1) == sum_to(np, f1));
    assert(weighted_tokens(net, w, p, m) == sum_to(np, f));
    assert(weighted_change(net, w, p, t) == sum_to(np, c));
    assert(net.fired_count(m, t, p) <= u32::MAX);
    assert(m1[p] == m[p] + incidence(net, t, p));
    assert(scale * m1[p] == scale * m[p] + scale * incidence(net, t, p)) by (nonlinear_arith)
        requires
            m1[p] == m[p] + incidence(net, t, p),
    ;
    assert(scale * incidence(net, t, p) >= weighted_change(net, w, p, t));
}

/// Along every run the slack stays at least its initial value.
proof fn lemma_slack_run(net: Net, m0: Seq<u32>, p: int, w: Seq<int>, scale: int, seq: Seq<int>)
    requires
        implicit_certificate(net, m0, p, w, scale),
        net.run(m0, seq) is Some,
    ensures
        slack(net, w, p, scale, net.run(m0, seq).unwrap()) >= slack(net, w, p, scale, m0),
    decreases seq.len(),
{
    if seq.len() > 0 {
        lemma_slack_run(net, m0, p, w, scale, seq.drop_last());
        let m1 = net.run(m0, seq.drop_last()).unwrap();
        lemma_slack_fire(net, m0, p, w, scale, m1, seq.last());
    }
}

/// A place with an implicit-place certificate is never the only place that
/// disables one of its output transitions: in every marking reached from the
/// certified marking, whenever the other input places of such a transition
/// hold a token, the place holds one too.
pub proof fn law_implicit_place_never_sole_disabler(net: Net, m0: Seq<u32>, p: int, w: Seq<int>, scale: int, seq: Seq<int>, t: int)
    requires
        m0.len() == net.np(),
        implicit_certificate(net, m0, p, w, scale),
        net.run(m0, seq) is Some,
        0 <= t < net.nt(),
        net.consumes(t, p),
        forall|q: int| 0 <= q < net.np() && q != p && #[trigger] net.consumes(t, q) ==> net.run(m0, seq).unwrap()[q] > 0,
    ensures
        net.run(m0, seq).unwrap()[p] > 0,
{
    let m = net.run(m0, seq).unwrap();
    lemma_slack_run(net, m0, p, w, scale, seq);
    let np = net.np() as int;
    let f = token_terms(w, p, m);
    let g = input_terms(net, w, p, t);
    assert forall|q: int| #![trigger f(q)] 0 <= q < np implies f(q) >= g(q) by {
        if q != p {
            assert(w[q] >= 0);
            if net.consumes(t, q) {
                let a = w[q];
                let x = m[q] as int;
                assert(a * x >= a) by (nonlinear_arith)
                    requires
                        a >= 0,
                        x >= 1,
                ;
            } else {
                let a = w[q];
                let x = m[q] as int;
                assert(a * x >= 0) by (nonlinear_arith)
                    requires
                        a >= 0,
                        x >= 0,
                ;
            }
        }
    }
    lemma_sum_le(np, f, g);
    assert(weighted_tokens(net, w, p, m) == sum_to(np, f));
    assert(weighted_inputs(net, w, p, t) == sum_to(np, g));
    assert(scale * m0[p] - weighted_tokens(net, w, p, m0) + weighted_inputs(net, w, p, t) >= scale);
    assert(scale * m[p] >= scale);
    if m[p] == 0 {
        assert(scale * m[p] == 0) by (nonlinear_arith)
            requires
                m[p] == 0,
        ;
    }
}


/// Whether `wit` certifies its place implicit in `net` from the marking `m`:
/// its place and every place it weighs belong to the net, and its weights
/// satisfy (C1) and (C2).
pub open spec fn certifies(net: Net, m: Seq<u32>, wit: ImplicitPlaceWitness) -> bool {
    &&& net.place_set().contains(wit.place_spec())
    &&& forall|i: int| 0 <= i < wit.weights_spec().len() ==> net.place_set().contains(#[trigger] wit.weights_spec()[i].0)
    &&& implicit_certificate(net, m, net.place_seq().index_of(wit.place_spec()), dense_weights(net, wit.weights_spec()), wit.scale_spec() as int)
}

/// A place whose witness [`PetriNet::verify_implicit_place`] accepts for the
/// marking `m0` is never the only place that disables one of its output
/// transitions in a marking reached from `m0`.
pub proof fn law_certified_place_never_sole_disabler(net: Net, m0: Seq<u32>, wit: ImplicitPlaceWitness, seq: Seq<int>, t: int)
    requires
        m0.len() == net.np(),
        certifies(net, m0, wit),
        net.run(m0, seq) is Some,
        0 <= t < net.nt(),
        net.consumes(t, net.place_seq().index_of(wit.place_spec())),
        forall|q: int| 0 <= q < net.np() && q != net.place_seq().index_of(wit.place_spec()) && #[trigger] net.consumes(t, q)
            ==> net.run(m0, seq).unwrap()[q] > 0,
    ensures
        net.run(m0, seq).unwrap()[net.place_seq().index_of(wit.place_spec())] > 0,
{
    law_implicit_place_never_sole_disabler(
        net,
        m0,
        net.place_seq().index_of(wit.place_spec()),
        dense_weights(net, wit.weights_spec()),
        wit.scale_spec() as int,
        seq,
        t,
    );
}

impl ImplicitPlaceWitness {
    /// The place the witness is about.
    pub closed spec fn place_spec(&self) -> Place {
        self.place
    }

    /// The listed places with their weights, before division by the scale.
    pub closed spec fn weights_spec(&self) -> Seq<(Place, u32)> {
        self.weights@
    }

    /// The common denominator of the weights.
    pub closed spec fn scale_spec(&self) -> u32 {
        self.scale
    }

    /// A witness that `place` is implicit, weighing each listed place `q` by
    /// `w / scale`; a place listed twice takes its last weight.
    pub fn new(place: Place, weights: Vec<(Place, u32)>, scale: u32) -> (r: Self)
        ensures
            r.place_spec() == place,
            r.weights_spec() == weights@,
            r.scale_spec() == scale,
    {
        ImplicitPlaceWitness { place, weights, scale }
    }

    /// The place this witness proves implicit.
    pub fn place(&self) -> (r: Place)
        ensures
            r == self.place_spec(),
    {
        self.place
    }

    /// The weights on the other places, before division by [`scale`](Self::scale).
    pub fn weights(&self) -> (r: &[(Place, u32)])
        ensures
            r@ == self.weights_spec(),
    {
        self.weights.as_slice()
    }

    /// The common denominator of the weights.
    pub fn scale(&self) -> (r: u32)
        ensures
            r == self.scale_spec(),
    {
        self.scale
    }
}

/// The terms `w_q` for the places `q ≠ p` listed in `s`, zero elsewhere.
pub open spec fn listed_terms(w: Seq<int>, p: int, s: Seq<usize>) -> spec_fn(int) -> int {
    |q: int| if q != p && s.contains(q as usize) { w[q] } else { 0 }
}

/// The integer values of `u32` weights.
pub open spec fn int_weights(w: Seq<u32>) -> Seq<int> {
    Seq::new(w.len(), |q: int| w[q] as int)
}

/// `Σ_{q≠p, q ∈ s} w_q` over the first `n` places.
fn listed_sum(w: &Vec<u32>, p: usize, s: &Vec<usize>) -> (r: u128)
    requires
        w@.len() <= usize::MAX,
    ensures
        r == sum_to(w@.len() as int, listed_terms(int_weights(w@), p as int, s@)),
        r <= w@.len() * 0xFFFF_FFFF,
{
    let n = w.len();
    let ghost f = listed_terms(int_weights(w@), p as int, s@);
    let mut r: u128 = 0;
    let mut q: usize = 0;
    while q < n
        invariant
            0 <= q <= n,
            n == w@.len(),
            f == listed_terms(int_weights(w@), p as int, s@),
            r == sum_to(q as int, f),
            r <= q * 0xFFFF_FFFF,
        decreases n - q,
    {
        if q != p && vec_contains_index(s, q) {
            r = r + w[q] as u128;
        }
        proof {
            assert(sum_to(q + 1, f) == sum_to(q as int, f) + f(q as int));
        }
        q = q + 1;
    }
    r
}

/// `Σ_{q≠p} w_q · m[q]`.
fn token_sum(w: &Vec<u32>, p: usize, m: &Vec<u32>) -> (r: u128)
    requires
        m@.len() == w@.len(),
        w@.len() <= usize::MAX,
    ensures
        r == sum_to(w@.len() as int, token_terms(int_weights(w@), p as int, m@)),
        r <= w@.len() * 0xFFFF_FFFE_0000_0001,
{
    let n = w.len();
    let ghost f = token_terms(int_weights(w@), p as int, m@);
    let mut r: u128 = 0;
    let mut q: usize = 0;
    while q < n
        invariant
            0 <= q <= n,
            n == w@.len(),
            m@.len() == n,
            f == token_terms(int_weights(w@), p as int, m@),
            r == sum_to(q as int, f),
            r <= q * 0xFFFF_FFFE_0000_0001,
        decreases n - q,
    {
        if q != p {
            let a = w[q] as u128;
            let b = m[q] as u128;
            proof {
                assert(a * b <= 0xFFFF_FFFE_0000_0001) by (nonlinear_arith)
                    requires
                        a <= 0xFFFF_FFFF,
                        b <= 0xFFFF_FFFF,
                ;
                assert(q + 1 <= 0xFFFF_FFFF_FFFF_FFFF);
                assert(r + a * b <= (q + 1) * 0xFFFF_FFFE_0000_0001);
            }
            r = r + a * b;
        }
        proof {
            assert(sum_to(q + 1, f) == sum_to(q as int, f) + f(q as int));
        }
        q = q + 1;
    }
    r
}

impl<'a> PetriNet<'a> {
    /// Re-checks `witness` exactly against this system's current marking:
    /// `true` iff its place and the places it weighs belong to the net and its
    /// weights satisfy both conditions of an implicit-place certificate.
    pub fn verify_implicit_place(&self, witness: &ImplicitPlaceWitness) -> (r: bool)
        requires
            self.wf(),
        ensures
            r == certifies(self.structure(), self.current(), *witness),
    {
        let net = self.net_ref();
        let m = self.current_dense();
        let ghost gnet = self.structure();
        proof {
            gnet.lemma_wf();
        }
        let p = match net.place_index(witness.place) {
            Some(i) => i,
            None => {
                return false;
            },
        };
        proof {
            assert(gnet.place_seq().contains(witness.place));
            assert(gnet.place_seq().index_of(witness.place) == p);
        }
        let np = net.num_places();
        let nt = net.num_transitions();
        let mut w: Vec<u32> = Vec::new();
        let mut q: usize = 0;
        while q < np
            invariant
                0 <= q <= np,
                w@.len() == q,
                forall|x: int| 0 <= x < q ==> w@[x] == 0,
            decreases np - q,
        {
            w.push(0);
            q = q + 1;
        }
        let ghost ws = witness.weights@;
        let mut k: usize = 0;
        while k < witness.weights.len()
            invariant
                0 <= k <= ws.len(),
                ws == witness.weights@,
                gnet == self.structure(),
                np == gnet.np(),
                *net == gnet,
                gnet.place_seq().no_duplicates(),
                w@.len() == np,
                forall|x: int| 0 <= x < np ==> #[trigger] w@[x] as int == weight_of(gnet, ws.take(k as int), x),
                forall|i: int| 0 <= i < k ==> gnet.place_set().contains(#[trigger] ws[i].0),
            decreases ws.len() - k,
        {
            let (q, wq) = witness.weights[k];
            match net.place_index(q) {
                Some(i) => {
                    w.set(i, wq);
                    proof {
                        assert(ws.take(k + 1).drop_last() =~= ws.take(k as int));
                        assert(ws.take(k + 1).last() == ws[k as int]);
                        assert forall|x: int| 0 <= x < np implies #[trigger] w@[x] as int == weight_of(gnet, ws.take(k + 1), x) by {
                            if x != i {
                                assert(gnet.place_seq()[x] != gnet.place_seq()[i as int]);
                            }
                        }
                    }
                },
                None => {
                    proof {
                        assert(witness.weights_spec()[k as int].0 == q);
                        assert(!gnet.place_set().contains(q));
                        assert(!gnet.place_set().contains(witness.weights_spec()[k as int].0));
                        assert(!certifies(self.structure(), self.current(), *witness));
                    }
                    return false;
                },
            }
            k = k + 1;
        }
        let ghost dw = dense_weights(gnet, ws);
        proof {
            assert(ws.take(ws.len() as int) =~= ws);
            assert(int_weights(w@) =~= dw);
        }
        if witness.scale == 0 {
            return false;
        }
        let scale = witness.scale as u128;
        let total = token_sum(&w, p, m);
        proof {
            assert(np <= 0xFFFF_FFFF_FFFF_FFFF);
            assert(total + 0xFFFF_FFFF <= u128::MAX);
            assert(weighted_tokens(gnet, dw, p as int, m@) == total);
        }
        let mut t: usize = 0;
        while t < nt
            invariant
                0 <= t <= nt,
                gnet == self.structure(),
                gnet.place_set().contains(witness.place_spec()),
                gnet.place_seq().index_of(witness.place_spec()) == p,
                forall|i: int| 0 <= i < witness.weights_spec().len() ==> gnet.place_set().contains(#[trigger] witness.weights_spec()[i].0),
                dw == dense_weights(gnet, witness.weights_spec()),
                scale == witness.scale_spec(),
                np == gnet.np(),
                nt == gnet.nt(),
                *net == gnet,
                gnet.wf(),
                p < np,
                m@ == self.current(),
                m@.len() == np,
                w@.len() == np,
                int_weights(w@) == dw,
                dw.len() == np,
                scale == witness.scale,
                scale > 0,
                total == weighted_tokens(gnet, dw, p as int, m@),
                total + 0xFFFF_FFFF <= u128::MAX,
                forall|x: int| 0 <= x < t ==> scale * incidence(gnet, x, p as int) >= #[trigger] weighted_change(gnet, dw, p as int, x),
                forall|x: int| 0 <= x < t && #[trigger] gnet.consumes(x, p as int) ==> scale * m@[p as int] - weighted_tokens(gnet, dw, p as int, m@)
                    + weighted_inputs(gnet, dw, p as int, x) >= scale,
            decreases nt - t,
        {
            let inputs = net.input_places(t);
            let outputs = net.output_places(t);
            let produced = listed_sum(&w, p, outputs);
            let consumed = listed_sum(&w, p, inputs);
            let p_in = vec_contains_index(inputs, p);
            let p_out = vec_contains_index(outputs, p);
            proof {
                let pt = listed_terms(dw, p as int, outputs@);
                let ct = listed_terms(dw, p as int, inputs@);
                let c = change_terms(gnet, dw, p as int, t as int);
                assert forall|x: int| #![trigger c(x)] 0 <= x < np implies c(x) == pt(x) - ct(x) by {
                    if x != p {
                        let a = dw[x];
                        let pr = gnet.produces(t as int, x);
                        let co = gnet.consumes(t as int, x);
                        assert(outputs@.contains(x as usize) == pr);
                        assert(inputs@.contains(x as usize) == co);
                        let d = incidence(gnet, t as int, x);
                        assert(c(x) == a * d);
                        if pr && !co {
                            assert(d == 1);
                            assert(a * d == a) by (nonlinear_arith) requires d == 1;
                        } else if co && !pr {
                            assert(d == -1);
                            assert(a * d == -a) by (nonlinear_arith) requires d == -1;
                        } else {
                            assert(d == 0);
                            assert(a * d == 0) by (nonlinear_arith) requires d == 0;
                        }
                    }
                }
                lemma_sum_sub(np as int, pt, ct, c);
                assert(weighted_change(gnet, dw, p as int, t as int) == produced - consumed);
                assert(p_in == gnet.consumes(t as int, p as int));
                assert(p_out == gnet.produces(t as int, p as int));
                let it = input_terms(gnet, dw, p as int, t as int);
                assert forall|x: int| #![trigger it(x)] 0 <= x < np implies it(x) == ct(x) by {
                    if x != p {
                        assert(inputs@.contains(x as usize) == gnet.consumes(t as int, x));
                    }
                }
                lemma_sum_ext(np as int, it, ct);
                assert(weighted_inputs(gnet, dw, p as int, t as int) == consumed);
            }
            let lhs: u128 = (if p_out { scale } else { 0 }) + consumed;
            let rhs: u128 = (if p_in { scale } else { 0 }) + produced;
            proof {
                let sc = scale as int;
                let d = incidence(gnet, t as int, p as int);
                if p_out && !p_in {
                    assert(d == 1);
                    assert(sc * d == sc) by (nonlinear_arith) requires d == 1;
                } else if p_in && !p_out {
                    assert(d == -1);
                    assert(sc * d == -sc) by (nonlinear_arith) requires d == -1;
                } else {
                    assert(d == 0);
                    assert(sc * d == 0) by (nonlinear_arith) requires d == 0;
                }
            }
            if lhs < rhs {
                proof {
                    assert(!(scale * incidence(gnet, t as int, p as int) >= weighted_change(gnet, dw, p as int, t as int)));
                }
                return false;
            }
            if p_in {
                let mp = m[p] as u128;
                proof {
                    assert(scale * mp <= 0xFFFF_FFFE_0000_0001) by (nonlinear_arith)
                        requires
                            scale <= 0xFFFF_FFFF,
                            mp <= 0xFFFF_FFFF,
                    ;
                }
                let tokens = scale * mp;
                if tokens + consumed < scale + total {
                    return false;
                }
            }
            t = t + 1;
        }
        true
    }
}

} // verus!
