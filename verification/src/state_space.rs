//! State-space exploration: coverability graphs (Karp–Miller) and, for bounded
//! systems, reachability graphs.
//!
//! Nodes are markings and edges are transition firings. The coverability
//! explorer marks places that can grow without bound with `ω`; when no `ω`
//! ever appears, the fully explored graph is exactly the reachability graph.

use vstd::prelude::*;
use vstd::set_lib::{lemma_len_subset, lemma_map_size_bound, lemma_int_range, lemma_subset_equality, set_int_range};
use crate::marking::{Marking, Omega, TokenOps};
use crate::net::{Net, Place, Transition};
use crate::system::PetriNet;
use crate::system::liveness::{level_rank, LivenessAnalysis, LivenessLevel};
use crate::reach::{edges_below, lemma_reaches_rel, marked_set, reach_along, rel_closed, rel_reaches};

verus! {

// ---------------------------------------------------------------------------
// ω-markings as dense sequences
// ---------------------------------------------------------------------------

/// One token fewer; `ω` stays `ω`.
pub open spec fn omega_dec(x: Omega) -> Omega {
    match x {
        Omega::Finite(k) => Omega::Finite((k - 1) as u32),
        Omega::Unbounded => Omega::Unbounded,
    }
}

/// One token more; a count that would exceed `u32::MAX` becomes `ω`.
pub open spec fn omega_inc(x: Omega) -> Omega {
    match x {
        Omega::Finite(k) => if k < u32::MAX {
            Omega::Finite((k + 1) as u32)
        } else {
            Omega::Unbounded
        },
        Omega::Unbounded => Omega::Unbounded,
    }
}

/// Whether transition `t` is enabled in the ω-marking `m`: no input place is empty.
pub open spec fn omega_enabled(net: Net, m: Seq<Omega>, t: int) -> bool {
    forall|p: int| 0 <= p < net.np() && #[trigger] net.consumes(t, p) ==> m[p] != Omega::Finite(0)
}

/// The count of `p` after firing `t` in the ω-marking `m`.
pub open spec fn omega_fired(net: Net, m: Seq<Omega>, t: int, p: int) -> Omega {
    let after_input = if net.consumes(t, p) {
        omega_dec(m[p])
    } else {
        m[p]
    };
    if net.produces(t, p) {
        omega_inc(after_input)
    } else {
        after_input
    }
}

/// The ω-marking reached by firing `t` in `m`.
pub open spec fn omega_fire(net: Net, m: Seq<Omega>, t: int) -> Seq<Omega> {
    Seq::new(net.np(), |p: int| omega_fired(net, m, t, p))
}

/// `a ≤ b` componentwise (`ω` above every finite count).
pub open spec fn omega_le(a: Seq<Omega>, b: Seq<Omega>) -> bool {
    a.len() == b.len() && forall|p: int| 0 <= p < a.len() ==> (#[trigger] a[p]).leq(b[p])
}

/// Karp–Miller acceleration against one ancestor `a`: if `a` lies strictly
/// below `f`, every place where `a` has fewer tokens than `f` becomes `ω`.
pub open spec fn accel_step(a: Seq<Omega>, f: Seq<Omega>) -> Seq<Omega> {
    if omega_le(a, f) && a != f {
        Seq::new(f.len(), |p: int| if a[p] != f[p] {
            Omega::Unbounded
        } else {
            f[p]
        })
    } else {
        f
    }
}

/// Acceleration of `f` against the ancestors `anc`, nearest first.
pub open spec fn accelerate(anc: Seq<Seq<Omega>>, f: Seq<Omega>) -> Seq<Omega>
    decreases anc.len(),
{
    if anc.len() == 0 {
        f
    } else {
        accelerate(anc.subrange(1, anc.len() as int), accel_step(anc[0], f))
    }
}

/// The markings on the parent chain from node `i` up to the root, `i` first.
pub open spec fn ancestors(parents: Seq<(usize, usize)>, markings: Seq<Vec<Omega>>, i: int) -> Seq<Seq<Omega>>
    decreases i,
{
    if i <= 0 || parents[i].0 >= i {
        seq![markings[i]@]
    } else {
        seq![markings[i]@] + ancestors(parents, markings, parents[i].0 as int)
    }
}

/// The ω-marking with the same finite counts as `m`.
pub open spec fn lift(m: Seq<u32>) -> Seq<Omega> {
    Seq::new(m.len(), |p: int| Omega::Finite(m[p]))
}

/// Whether no count of `m` is `ω`.
pub open spec fn is_finite_seq(m: Seq<Omega>) -> bool {
    forall|p: int| 0 <= p < m.len() ==> (#[trigger] m[p]) is Finite
}

/// The finite counts of `m` (`ω` read as zero).
pub open spec fn unlift(m: Seq<Omega>) -> Seq<u32> {
    Seq::new(m.len(), |p: int| match m[p] {
        Omega::Finite(k) => k,
        Omega::Unbounded => 0,
    })
}

/// Acceleration only turns counts into `ω`.
pub proof fn lemma_accel_step_raises(a: Seq<Omega>, f: Seq<Omega>)
    ensures
        accel_step(a, f).len() == f.len(),
        forall|p: int| 0 <= p < f.len() ==> #[trigger] accel_step(a, f)[p] == f[p] || accel_step(a, f)[p] is Unbounded,
{
}

/// Acceleration only turns counts into `ω`.
pub proof fn lemma_accelerate_raises(anc: Seq<Seq<Omega>>, f: Seq<Omega>)
    ensures
        accelerate(anc, f).len() == f.len(),
        forall|p: int| 0 <= p < f.len() ==> #[trigger] accelerate(anc, f)[p] == f[p] || accelerate(anc, f)[p] is Unbounded,
    decreases anc.len(),
{
    if anc.len() > 0 {
        lemma_accel_step_raises(anc[0], f);
        lemma_accelerate_raises(anc.subrange(1, anc.len() as int), accel_step(anc[0], f));
    }
}

/// Firing keeps `ω` counts `ω`.
pub proof fn lemma_omega_fire_keeps_omega(net: Net, m: Seq<Omega>, t: int, p: int)
    requires
        0 <= p < net.np(),
        m[p] is Unbounded,
    ensures
        omega_fire(net, m, t)[p] is Unbounded,
{
}

/// Firing in ω-markings is monotone: a marking covering `m` still covers `m`'s
/// successor after the same firing.
pub proof fn lemma_omega_fire_monotone(net: Net, n: Seq<Omega>, m: Seq<u32>, t: int)
    requires
        m.len() == net.np(),
        omega_le(lift(m), n),
        net.fires(m, t),
    ensures
        omega_enabled(net, n, t),
        omega_le(lift(net.fire_spec(m, t)), omega_fire(net, n, t)),
{
    assert forall|p: int| 0 <= p < net.np() && #[trigger] net.consumes(t, p) implies n[p] != Omega::Finite(0) by {
        assert(lift(m)[p].leq(n[p]));
    }
    assert forall|p: int| 0 <= p < net.np() implies (#[trigger] lift(net.fire_spec(m, t))[p]).leq(omega_fire(net, n, t)[p]) by {
        assert(lift(m)[p].leq(n[p]));
        assert(net.fired_count(m, t, p) <= u32::MAX);
    }
}

/// On a finite marking that `t` can fire in, ω-firing is ordinary firing.
pub proof fn lemma_omega_fire_finite(net: Net, m: Seq<u32>, t: int)
    requires
        m.len() == net.np(),
        net.fires(m, t),
    ensures
        omega_enabled(net, lift(m), t),
        omega_fire(net, lift(m), t) == lift(net.fire_spec(m, t)),
{
    assert forall|p: int| 0 <= p < net.np() && #[trigger] net.consumes(t, p) implies lift(m)[p] != Omega::Finite(0) by {}
    assert forall|p: int| 0 <= p < net.np() implies omega_fire(net, lift(m), t)[p] == lift(net.fire_spec(m, t))[p] by {
        assert(net.fired_count(m, t, p) <= u32::MAX);
    }
    assert(omega_fire(net, lift(m), t) =~= lift(net.fire_spec(m, t)));
}

/// A finite ω-firing result comes from a finite marking in which the ordinary
/// firing is possible and gives the same counts.
pub proof fn lemma_omega_fire_finite_back(net: Net, n: Seq<Omega>, t: int)
    requires
        0 <= t < net.nt(),
        n.len() == net.np(),
        omega_enabled(net, n, t),
        is_finite_seq(omega_fire(net, n, t)),
    ensures
        is_finite_seq(n),
        n == lift(unlift(n)),
        net.fires(unlift(n), t),
        omega_fire(net, n, t) == lift(net.fire_spec(unlift(n), t)),
{
    assert forall|p: int| 0 <= p < n.len() implies (#[trigger] n[p]) is Finite by {
        if n[p] is Unbounded {
            lemma_omega_fire_keeps_omega(net, n, t, p);
            assert(omega_fire(net, n, t)[p] is Finite);
        }
    }
    assert(n =~= lift(unlift(n)));
    let m = unlift(n);
    assert forall|p: int| 0 <= p < net.np() && #[trigger] net.consumes(t, p) implies m[p] > 0 by {
        assert(n[p] != Omega::Finite(0));
    }
    assert forall|p: int| 0 <= p < net.np() implies #[trigger] net.fired_count(m, t, p) <= u32::MAX by {
        assert(omega_fire(net, n, t)[p] is Finite);
    }
    lemma_omega_fire_finite(net, m, t);
}

/// Ancestor chains only depend on the prefix of the node arrays they read.
pub proof fn lemma_ancestors_prefix(
    parents: Seq<(usize, usize)>,
    markings: Seq<Vec<Omega>>,
    parents2: Seq<(usize, usize)>,
    markings2: Seq<Vec<Omega>>,
    i: int,
)
    requires
        0 <= i < parents.len(),
        parents.len() <= parents2.len(),
        parents.len() <= markings.len(),
        parents.len() <= markings2.len(),
        forall|k: int| 0 <= k < parents.len() ==> parents2[k] == parents[k],
        forall|k: int| 0 <= k < parents.len() ==> markings2[k]@ == markings[k]@,
        forall|k: int| 0 < k < parents.len() ==> parents[k].0 < k,
    ensures
        ancestors(parents2, markings2, i) == ancestors(parents, markings, i),
    decreases i,
{
    if i > 0 {
        lemma_ancestors_prefix(parents, markings, parents2, markings2, parents[i].0 as int);
    }
}


// ---------------------------------------------------------------------------
// Executable ω-marking operations
// ---------------------------------------------------------------------------

/// Whether `t` is enabled in the ω-marking `m`.
fn omega_enabled_exec(net: &Net, m: &Vec<Omega>, t: usize) -> (r: bool)
    requires
        net.wf(),
        t < net.nt(),
        m@.len() == net.np(),
    ensures
        r == omega_enabled(*net, m@, t as int),
{
    let pre = net.input_places(t);
    proof {
        net.lemma_wf();
    }
    let mut k: usize = 0;
    while k < pre.len()
        invariant
            0 <= k <= pre@.len(),
            m@.len() == net.np(),
            net.np() <= usize::MAX,
            forall|i: int| 0 <= i < pre@.len() ==> #[trigger] pre@[i] < net.np(),
            forall|p: usize| #[trigger] pre@.contains(p) <==> p < net.np() && net.consumes(t as int, p as int),
            forall|i: int| 0 <= i < k ==> m@[#[trigger] pre@[i] as int] != Omega::Finite(0),
        decreases pre@.len() - k,
    {
        let p = pre[k];
        if m[p].is_zero() {
            proof {
                assert(pre@.contains(p));
            }
            return false;
        }
        k = k + 1;
    }
    proof {
        assert forall|p: int| 0 <= p < net.np() && #[trigger] net.consumes(t as int, p) implies m@[p] != Omega::Finite(0) by {
            assert(pre@.contains(p as usize));
            let i = choose|i: int| 0 <= i < pre@.len() && pre@[i] == p as usize;
        }
    }
    true
}

fn omega_dec_exec(x: Omega) -> (r: Omega)
    requires
        x != Omega::Finite(0),
    ensures
        r == omega_dec(x),
{
    match x {
        Omega::Finite(k) => Omega::Finite(k - 1),
        Omega::Unbounded => Omega::Unbounded,
    }
}

fn omega_inc_exec(x: Omega) -> (r: Omega)
    ensures
        r == omega_inc(x),
{
    match x {
        Omega::Finite(k) => if k < u32::MAX {
            Omega::Finite(k + 1)
        } else {
            Omega::Unbounded
        },
        Omega::Unbounded => Omega::Unbounded,
    }
}

/// The ω-marking reached by firing the enabled transition `t` in `m`.
fn omega_fire_exec(net: &Net, m: &Vec<Omega>, t: usize) -> (r: Vec<Omega>)
    requires
        net.wf(),
        t < net.nt(),
        m@.len() == net.np(),
        omega_enabled(*net, m@, t as int),
    ensures
        r@ == omega_fire(*net, m@, t as int),
{
    let mut r: Vec<Omega> = Vec::new();
    let mut i: usize = 0;
    while i < m.len()
        invariant
            0 <= i <= m@.len(),
            r@ == m@.subrange(0, i as int),
        decreases m@.len() - i,
    {
        r.push(m[i]);
        proof {
            assert(m@.subrange(0, i + 1) =~= m@.subrange(0, i as int).push(m@[i as int]));
        }
        i = i + 1;
    }
    proof {
        assert(m@.subrange(0, i as int) =~= m@);
    }
    let pre = net.input_places(t);
    proof {
        net.lemma_wf();
    }
    let mut k: usize = 0;
    while k < pre.len()
        invariant
            0 <= k <= pre@.len(),
            m@.len() == net.np(),
            net.np() <= usize::MAX,
            r@.len() == m@.len(),
            omega_enabled(*net, m@, t as int),
            pre@.no_duplicates(),
            forall|j: int| 0 <= j < pre@.len() ==> #[trigger] pre@[j] < net.np(),
            forall|p: usize| #[trigger] pre@.contains(p) <==> p < net.np() && net.consumes(t as int, p as int),
            forall|p: int| 0 <= p < m@.len() ==> #[trigger] r@[p] == (if pre@.subrange(0, k as int).contains(p as usize) {
                omega_dec(m@[p])
            } else {
                m@[p]
            }),
        decreases pre@.len() - k,
    {
        let p = pre[k];
        proof {
            assert(pre@.contains(p));
            assert(!pre@.subrange(0, k as int).contains(p)) by {
                if pre@.subrange(0, k as int).contains(p) {
                    let j = choose|j: int| 0 <= j < k && pre@.subrange(0, k as int)[j] == p;
                    assert(pre@[j] != pre@[k as int]);
                }
            }
        }
        let v = r[p];
        let ghost rp = r@;
        r.set(p, omega_dec_exec(v));
        proof {
            assert(pre@.subrange(0, k + 1) =~= pre@.subrange(0, k as int).push(p));
            assert forall|q: int| 0 <= q < m@.len() implies #[trigger] r@[q] == (if pre@.subrange(0, k + 1).contains(q as usize) {
                omega_dec(m@[q])
            } else {
                m@[q]
            }) by {
                crate::seq_facts::lemma_seq_push_contains(pre@.subrange(0, k as int), p, q as usize);
                if q != p as int {
                    assert(r@[q] == rp[q]);
                }
            }
        }
        k = k + 1;
    }
    proof {
        assert(pre@.subrange(0, k as int) =~= pre@);
    }
    let post = net.output_places(t);
    let mut k: usize = 0;
    while k < post.len()
        invariant
            0 <= k <= post@.len(),
            m@.len() == net.np(),
            net.np() <= usize::MAX,
            r@.len() == m@.len(),
            post@.no_duplicates(),
            forall|j: int| 0 <= j < post@.len() ==> #[trigger] post@[j] < net.np(),
            forall|p: usize| #[trigger] pre@.contains(p) <==> p < net.np() && net.consumes(t as int, p as int),
            forall|p: usize| #[trigger] post@.contains(p) <==> p < net.np() && net.produces(t as int, p as int),
            forall|p: int| 0 <= p < m@.len() ==> #[trigger] r@[p] == (if post@.subrange(0, k as int).contains(p as usize) {
                omega_inc(if pre@.contains(p as usize) { omega_dec(m@[p]) } else { m@[p] })
            } else {
                if pre@.contains(p as usize) { omega_dec(m@[p]) } else { m@[p] }
            }),
        decreases post@.len() - k,
    {
        let p = post[k];
        proof {
            assert(post@.contains(p));
            assert(!post@.subrange(0, k as int).contains(p)) by {
                if post@.subrange(0, k as int).contains(p) {
                    let j = choose|j: int| 0 <= j < k && post@.subrange(0, k as int)[j] == p;
                    assert(post@[j] != post@[k as int]);
                }
            }
        }
        let v = r[p];
        let ghost rp = r@;
        r.set(p, omega_inc_exec(v));
        proof {
            assert(post@.subrange(0, k + 1) =~= post@.subrange(0, k as int).push(p));
            assert forall|q: int| 0 <= q < m@.len() implies #[trigger] r@[q] == (if post@.subrange(0, k + 1).contains(q as usize) {
                omega_inc(if pre@.contains(q as usize) { omega_dec(m@[q]) } else { m@[q] })
            } else {
                if pre@.contains(q as usize) { omega_dec(m@[q]) } else { m@[q] }
            }) by {
                crate::seq_facts::lemma_seq_push_contains(post@.subrange(0, k as int), p, q as usize);
                if q != p as int {
                    assert(r@[q] == rp[q]);
                }
            }
        }
        k = k + 1;
    }
    proof {
        assert(post@.subrange(0, k as int) =~= post@);
        assert forall|q: int| 0 <= q < m@.len() implies #[trigger] r@[q] == omega_fired(*net, m@, t as int, q) by {
            assert(pre@.contains(q as usize) == net.consumes(t as int, q));
            assert(post@.contains(q as usize) == net.produces(t as int, q));
        }
        assert(r@ =~= omega_fire(*net, m@, t as int));
    }
    r
}

/// Whether two dense markings are equal.
fn same_marking<T: TokenOps>(a: &Vec<T>, b: &Vec<T>) -> (r: bool)
    ensures
        r == (a@ == b@),
{
    if a.len() != b.len() {
        return false;
    }
    let mut i: usize = 0;
    while i < a.len()
        invariant
            0 <= i <= a@.len(),
            a@.len() == b@.len(),
            forall|k: int| 0 <= k < i ==> a@[k] == b@[k],
        decreases a@.len() - i,
    {
        if !a[i].same(&b[i]) {
            return false;
        }
        i = i + 1;
    }
    proof {
        assert(a@ =~= b@);
    }
    true
}

/// Whether `a ≤ b` componentwise.
fn le_marking<T: TokenOps>(a: &Vec<T>, b: &Vec<T>) -> (r: bool)
    requires
        a@.len() == b@.len(),
    ensures
        r == forall|p: int| 0 <= p < a@.len() ==> (#[trigger] a@[p]).leq(b@[p]),
{
    let mut i: usize = 0;
    while i < a.len()
        invariant
            0 <= i <= a@.len(),
            a@.len() == b@.len(),
            forall|k: int| 0 <= k < i ==> (#[trigger] a@[k]).leq(b@[k]),
        decreases a@.len() - i,
    {
        if !a[i].less_eq(&b[i]) {
            return false;
        }
        i = i + 1;
    }
    true
}

/// Karp–Miller acceleration of `f` against one ancestor `a`.
fn accel_step_exec(a: &Vec<Omega>, f: Vec<Omega>) -> (r: Vec<Omega>)
    requires
        a@.len() == f@.len(),
    ensures
        r@ == accel_step(a@, f@),
{
    if le_marking(a, &f) && !same_marking(a, &f) {
        let mut r: Vec<Omega> = Vec::new();
        let mut i: usize = 0;
        while i < f.len()
            invariant
                0 <= i <= f@.len(),
                a@.len() == f@.len(),
                r@.len() == i,
                forall|k: int| 0 <= k < i ==> #[trigger] r@[k] == (if a@[k] != f@[k] { Omega::Unbounded } else { f@[k] }),
            decreases f@.len() - i,
        {
            if a[i].same(&f[i]) {
                r.push(f[i]);
            } else {
                r.push(Omega::Unbounded);
            }
            i = i + 1;
        }
        proof {
            assert(r@ =~= accel_step(a@, f@));
        }
        r
    } else {
        f
    }
}


// ---------------------------------------------------------------------------
// State graphs
// ---------------------------------------------------------------------------

/// The firing sequence along the parent chain from the root to node `i`.
pub open spec fn parent_path(parents: Seq<(usize, usize)>, i: int) -> Seq<int>
    decreases i,
{
    if i <= 0 || parents[i].0 >= i {
        Seq::empty()
    } else {
        parent_path(parents, parents[i].0 as int).push(parents[i].1 as int)
    }
}

/// Parent paths only depend on the prefix of the parent array they read.
pub proof fn lemma_parent_path_prefix(parents: Seq<(usize, usize)>, parents2: Seq<(usize, usize)>, i: int)
    requires
        0 <= i < parents.len(),
        parents.len() <= parents2.len(),
        forall|k: int| 0 <= k < parents.len() ==> parents2[k] == parents[k],
        forall|k: int| 0 < k < parents.len() ==> parents[k].0 < k,
    ensures
        parent_path(parents2, i) == parent_path(parents, i),
    decreases i,
{
    if i > 0 {
        lemma_parent_path_prefix(parents, parents2, parents[i].0 as int);
    }
}

/// The order in which an explorer expands the markings it has discovered.
#[derive(Debug, Clone, Copy, PartialEq, Eq, Hash, Structural)]
pub enum ExplorationOrder {
    /// Oldest discovered marking first.
    BreadthFirst,
    /// Most recently discovered marking first.
    DepthFirst,
}

/// One step of state-space exploration.
#[derive(Debug)]
pub struct ExplorationStep<T> {
    /// The transition that fired.
    pub transition: Transition,
    /// The marking it led to.
    pub marking: Marking<T>,
    /// Whether that marking was discovered by this step.
    pub is_new: bool,
}

/// A state graph: markings as nodes and transition firings as edges.
///
/// Node `0` is the initial marking; every other node records the node and
/// transition it was first discovered from.
pub struct StateGraph<'a, T> {
    net: &'a Net,
    markings: Vec<Vec<T>>,
    parents: Vec<(usize, usize)>,
    edges: Vec<(usize, usize, usize)>,
    complete: bool,
    initial: Ghost<Seq<u32>>,
}

/// A reachability graph: the state graph of a bounded system, with plain token counts.
pub type ReachabilityGraph<'a> = StateGraph<'a, u32>;

/// A Karp–Miller coverability graph, with `ω` for unbounded counts.
pub type CoverabilityGraph<'a> = StateGraph<'a, Omega>;

impl<'a, T: TokenOps> StateGraph<'a, T> {
    /// The net the graph was explored on.
    pub closed spec fn structure(&self) -> Net {
        *self.net
    }

    /// The markings, by node index, in dense form.
    pub closed spec fn nodes(&self) -> Seq<Seq<T>> {
        self.markings@.map_values(|v: Vec<T>| v@)
    }

    /// The edges `(source node, dense transition, target node)`.
    pub closed spec fn edge_seq(&self) -> Seq<(usize, usize, usize)> {
        self.edges@
    }

    /// For each node, the node and transition it was discovered from.
    pub closed spec fn parent_seq(&self) -> Seq<(usize, usize)> {
        self.parents@
    }

    /// The dense initial marking of the explored system.
    pub closed spec fn initial_spec(&self) -> Seq<u32> {
        self.initial@
    }

    /// Whether exploration ran to the end.
    pub closed spec fn is_complete(&self) -> bool {
        self.complete
    }

    /// Every node holds one count per place.
    pub proof fn lemma_node_len(&self, i: int)
        requires
            self.shape_wf(),
            0 <= i < self.nodes().len(),
        ensures
            self.nodes()[i].len() == self.structure().np(),
    {
        assert(self.nodes()[i] == self.markings@[i]@);
    }

    /// Whether exploration ran to the end.
    pub fn is_finished(&self) -> (r: bool)
        ensures
            r == self.is_complete(),
    {
        self.complete
    }

    /// The firing sequence along the discovery chain from the initial marking to node `i`.
    pub open spec fn path_to(&self, i: int) -> Seq<int> {
        parent_path(self.parent_seq(), i)
    }

    /// The graph's structural invariant.
    pub closed spec fn shape_wf(&self) -> bool {
        let len = self.markings@.len();
        let net = *self.net;
        &&& net.wf()
        &&& len >= 1
        &&& self.initial@.len() == net.np()
        &&& forall|i: int| 0 <= i < len ==> (#[trigger] self.markings@[i])@.len() == net.np()
        &&& forall|i: int, j: int| 0 <= i < j < len ==> (#[trigger] self.markings@[i])@ != (#[trigger] self.markings@[j])@
        &&& self.parents@.len() == len
        &&& forall|i: int| 0 < i < len ==> (#[trigger] self.parents@[i]).0 < i && self.parents@[i].1 < net.nt()
        &&& forall|k: int| 0 <= k < self.edges@.len() ==> (#[trigger] self.edges@[k]).0 < len && self.edges@[k].1 < net.nt()
            && self.edges@[k].2 < len
    }
}

impl<'a> StateGraph<'a, Omega> {
    /// The markings on the discovery chain from node `i` up to the initial one.
    pub closed spec fn anc(&self, i: int) -> Seq<Seq<Omega>> {
        ancestors(self.parents@, self.markings@, i)
    }

    /// The node that firing `t` in node `i` leads to: the ω-firing, accelerated
    /// against the ancestors of `i`.
    pub closed spec fn succ(&self, i: int, t: int) -> Seq<Omega> {
        accelerate(self.anc(i), omega_fire(*self.net, self.markings@[i]@, t))
    }

    /// Whether the graph holds the node that firing `t` in node `i` leads to.
    pub closed spec fn has_successor(&self, i: int, t: int) -> bool {
        exists|e: int| 0 <= e < self.edges@.len() && (#[trigger] self.edges@[e]).0 as int == i && self.edges@[e].1 as int == t
    }

    /// The coverability graph's invariant.
    pub closed spec fn cover_wf(&self) -> bool {
        let len = self.markings@.len();
        let net = *self.net;
        &&& self.shape_wf()
        &&& self.markings@[0]@ == lift(self.initial@)
        &&& forall|i: int| 0 < i < len ==> omega_enabled(net, self.markings@[(#[trigger] self.parents@[i]).0 as int]@, self.parents@[i].1 as int)
            && self.markings@[i]@ == self.succ(self.parents@[i].0 as int, self.parents@[i].1 as int)
        &&& forall|k: int| 0 <= k < self.edges@.len() ==> omega_enabled(net, self.markings@[(#[trigger] self.edges@[k]).0 as int]@, self.edges@[k].1 as int)
            && self.markings@[self.edges@[k].2 as int]@ == self.succ(self.edges@[k].0 as int, self.edges@[k].1 as int)
        &&& forall|i: int| 0 <= i < len && is_finite_seq((#[trigger] self.markings@[i])@) ==> net.run(self.initial@, parent_path(self.parents@, i))
            == Some(unlift(self.markings@[i]@))
        &&& self.complete ==> self.closed()
    }

    /// Every enabled firing of every node leads to a node of the graph.
    pub closed spec fn closed(&self) -> bool {
        forall|i: int, t: int| 0 <= i < self.markings@.len() && 0 <= t < self.structure().nt() && omega_enabled(
            self.structure(),
            (#[trigger] self.markings@[i])@,
            t,
        ) ==> #[trigger] self.has_successor(i, t)
    }

    /// The accelerated successor of node `i` under the ω-firing result `f`.
    fn accelerate_from(&self, i: usize, f: Vec<Omega>) -> (r: Vec<Omega>)
        requires
            self.shape_wf(),
            i < self.markings@.len(),
            f@.len() == self.structure().np(),
        ensures
            r@ == accelerate(self.anc(i as int), f@),
    {
        let mut cur = i;
        let mut acc = f;
        loop
            invariant
                self.shape_wf(),
                cur < self.markings@.len(),
                acc@.len() == self.structure().np(),
                accelerate(self.anc(i as int), f@) == accelerate(self.anc(cur as int), acc@),
            decreases cur,
        {
            let ghost acc0 = acc@;
            acc = accel_step_exec(&self.markings[cur], acc);
            proof {
                lemma_accel_step_raises(self.markings@[cur as int]@, acc0);
            }
            if cur == 0 {
                proof {
                    let a = self.anc(0);
                    assert(a == seq![self.markings@[0]@]);
                    assert(a.subrange(1, 1) =~= Seq::<Seq<Omega>>::empty());
                    assert(accelerate(a, acc0) == accelerate(a.subrange(1, 1), accel_step(a[0], acc0)));
                    assert(accelerate(Seq::<Seq<Omega>>::empty(), acc@) == acc@);
                }
                return acc;
            }
            let next = self.parents[cur].0;
            proof {
                let a = self.anc(cur as int);
                assert(a == seq![self.markings@[cur as int]@] + self.anc(next as int));
                assert(a.subrange(1, a.len() as int) =~= self.anc(next as int));
            }
            cur = next;
        }
    }

    /// The index of the node holding `m`, if any.
    fn find_node(&self, m: &Vec<Omega>) -> (r: Option<usize>)
        requires
            self.shape_wf(),
        ensures
            r is None <==> forall|d: int| 0 <= d < self.markings@.len() ==> (#[trigger] self.markings@[d])@ != m@,
            r matches Some(d) ==> d < self.markings@.len() && self.markings@[d as int]@ == m@,
    {
        let mut d: usize = 0;
        while d < self.markings.len()
            invariant
                0 <= d <= self.markings@.len(),
                forall|k: int| 0 <= k < d ==> (#[trigger] self.markings@[k])@ != m@,
            decreases self.markings@.len() - d,
        {
            if same_marking(&self.markings[d], m) {
                proof {
                    assert(self.nodes()[d as int] == self.markings@[d as int]@);
                }
                return Some(d);
            }
            d = d + 1;
        }
        None
    }

    /// Records the firing of `t` in node `i`: adds the edge, and the target node
    /// if it is new. Returns the target node and whether it is new.
    fn insert_successor(&mut self, i: usize, t: usize) -> (r: (usize, bool))
        requires
            old(self).cover_wf(),
            !old(self).complete,
            i < old(self).markings@.len(),
            t < old(self).structure().nt(),
            omega_enabled(old(self).structure(), old(self).markings@[i as int]@, t as int),
        ensures
            final(self).cover_wf(),
            !final(self).complete,
            final(self).net == old(self).net,
            final(self).initial == old(self).initial,
            final(self).markings@.len() == old(self).markings@.len() + (if r.1 { 1int } else { 0int }),
            forall|k: int| 0 <= k < old(self).markings@.len() ==> (#[trigger] final(self).markings@[k])@ == old(self).markings@[k]@,
            forall|k: int| 0 <= k < old(self).markings@.len() ==> (#[trigger] final(self).anc(k)) == old(self).anc(k),
            forall|k: int| 0 <= k < old(self).parents@.len() ==> (#[trigger] final(self).parents@[k]) == old(self).parents@[k],
            r.0 < final(self).markings@.len(),
            r.1 ==> r.0 == old(self).markings@.len(),
            final(self).markings@[r.0 as int]@ == old(self).succ(i as int, t as int),
            final(self).edges@ == old(self).edges@.push((i, t, r.0)),
    {
        let ghost old_self = *self;
        let net = self.net;
        let f = omega_fire_exec(net, &self.markings[i], t);
        let acc = self.accelerate_from(i, f);
        let ghost g = omega_fire(*net, self.markings@[i as int]@, t as int);
        proof {
            lemma_accelerate_raises(self.anc(i as int), g);
        }
        match self.find_node(&acc) {
            Some(d) => {
                self.edges.push((i, t, d));
                proof {
                    assert forall|k: int| 0 <= k < self.edges@.len() implies omega_enabled(*net, self.markings@[(#[trigger] self.edges@[k]).0 as int]@, self.edges@[k].1 as int)
                        && self.markings@[self.edges@[k].2 as int]@ == self.succ(self.edges@[k].0 as int, self.edges@[k].1 as int) by {
                        if k < old_self.edges@.len() {
                            assert(self.edges@[k] == old_self.edges@[k]);
                        }
                    }
                }
                (d, false)
            },
            None => {
                let len = self.markings.len();
                self.markings.push(acc);
                self.parents.push((i, t));
                self.edges.push((i, t, len));
                proof {
                    let om = old_self.markings@;
                    let op = old_self.parents@;
                    assert forall|k: int| 0 <= k < op.len() implies (#[trigger] self.parents@[k]) == op[k] by {}
                    assert forall|k: int| 0 <= k < om.len() implies (#[trigger] self.markings@[k])@ == om[k]@ by {}
                    assert forall|k: int| 0 <= k < om.len() implies (#[trigger] self.anc(k)) == old_self.anc(k) by {
                        lemma_ancestors_prefix(op, om, self.parents@, self.markings@, k);
                    }
                    assert forall|k: int| 0 <= k < om.len() implies (#[trigger] parent_path(self.parents@, k)) == parent_path(op, k) by {
                        lemma_parent_path_prefix(op, self.parents@, k);
                    }
                    // shape
                    assert forall|a: int, b: int| 0 <= a < b < self.markings@.len() implies (#[trigger] self.markings@[a])@ != (#[trigger] self.markings@[b])@ by {
                        if b == len {
                            assert(om[a]@ != acc@);
                        } else {
                            assert(om[a]@ != om[b]@);
                        }
                    }
                    assert(self.shape_wf());
                    // parents
                    assert forall|k: int| 0 < k < self.markings@.len() implies omega_enabled(*net, self.markings@[(#[trigger] self.parents@[k]).0 as int]@, self.parents@[k].1 as int)
                        && self.markings@[k]@ == self.succ(self.parents@[k].0 as int, self.parents@[k].1 as int) by {
                        if k < len {
                            assert(self.parents@[k] == op[k]);
                            assert(op[k].0 < k);
                        }
                    }
                    // edges
                    assert forall|k: int| 0 <= k < self.edges@.len() implies omega_enabled(*net, self.markings@[(#[trigger] self.edges@[k]).0 as int]@, self.edges@[k].1 as int)
                        && self.markings@[self.edges@[k].2 as int]@ == self.succ(self.edges@[k].0 as int, self.edges@[k].1 as int) by {
                        if k < old_self.edges@.len() {
                            assert(self.edges@[k] == old_self.edges@[k]);
                        }
                    }
                    // finite nodes are reachable
                    assert forall|k: int| 0 <= k < self.markings@.len() && is_finite_seq((#[trigger] self.markings@[k])@) implies net.run(self.initial@, parent_path(self.parents@, k))
                        == Some(unlift(self.markings@[k]@)) by {
                        if k == len {
                            assert forall|p: int| 0 <= p < g.len() implies (#[trigger] g[p]) is Finite by {
                                assert(acc@[p] is Finite);
                                assert(acc@[p] == g[p] || acc@[p] is Unbounded);
                            }
                            assert(acc@ =~= g);
                            lemma_omega_fire_finite_back(*net, om[i as int]@, t as int);
                            let m = unlift(om[i as int]@);
                            assert(net.run(self.initial@, parent_path(op, i as int)) == Some(m));
                            net.lemma_run_push(self.initial@, parent_path(op, i as int), t as int);
                            assert(parent_path(self.parents@, k) == parent_path(self.parents@, i as int).push(t as int));
                            assert(unlift(lift(net.fire_spec(m, t as int))) =~= net.fire_spec(m, t as int));
                        }
                    }
                }
                (len, true)
            },
        }
    }
}


/// An incremental exploration of the state graph of a Petri net system.
pub struct StateGraphExplorer<'a, T> {
    graph: StateGraph<'a, T>,
    order: ExplorationOrder,
    /// Discovered nodes not yet expanded.
    frontier: Vec<usize>,
    /// The node being expanded and the next transition to try in it.
    cursor: Option<(usize, usize)>,
}

/// An incremental Karp–Miller exploration; it always terminates.
pub type CoverabilityExplorer<'a> = StateGraphExplorer<'a, Omega>;

impl<'a, T: TokenOps> StateGraphExplorer<'a, T> {
    /// The graph discovered so far.
    pub closed spec fn graph_spec(&self) -> StateGraph<'a, T> {
        self.graph
    }

    /// The exploration order.
    pub closed spec fn order_spec(&self) -> ExplorationOrder {
        self.order
    }

    /// The nodes left to expand and the expansion in progress.
    pub closed spec fn pending(&self) -> (Seq<usize>, Option<(usize, usize)>) {
        (self.frontier@, self.cursor)
    }

    /// Whether every transition of node `i` below `t` has been tried.
    pub closed spec fn processed(&self, i: int, t: int) -> bool {
        match self.cursor {
            Some((c, k)) => if c == i {
                t < k
            } else {
                !self.frontier@.contains(i as usize)
            },
            None => !self.frontier@.contains(i as usize),
        }
    }

    /// Whether exploration is over: nothing left to expand.
    pub closed spec fn done(&self) -> bool {
        self.frontier@.len() == 0 && self.cursor is None
    }

    /// The current exploration order.
    pub fn exploration_order(&self) -> (r: ExplorationOrder)
        ensures
            r == self.order_spec(),
    {
        self.order
    }

    /// Changes the exploration order for the steps to come.
    pub fn set_exploration_order(&mut self, order: ExplorationOrder)
        ensures
            final(self).order_spec() == order,
            final(self).graph_spec() == old(self).graph_spec(),
            final(self).done() == old(self).done(),
            final(self).pending() == old(self).pending(),
    {
        self.order = order;
    }

    /// Whether exploration has completed.
    pub fn is_fully_explored(&self) -> (r: bool)
        ensures
            r == self.done(),
    {
        self.frontier.len() == 0 && self.cursor.is_none()
    }
}

proof fn lemma_mul_distrib(w: int, a: int, b: int)
    ensures
        w * a + w * b == w * (a + b),
{
    assert(w * a + w * b == w * (a + b)) by (nonlinear_arith);
}

proof fn lemma_mul_step(f: int, w: int)
    ensures
        (f - 1) * w == f * w - w,
        (f + 1) * w == f * w + w,
{
    assert((f - 1) * w == f * w - w) by (nonlinear_arith);
    assert((f + 1) * w == f * w + w) by (nonlinear_arith);
}

impl<'a> StateGraphExplorer<'a, Omega> {
    /// The expansion work still pending: every frontier node is worth one more
    /// step than it has transitions, and the node under the cursor one per
    /// transition left to try plus one to leave it.
    pub closed spec fn work(&self) -> int {
        let nt = self.graph.structure().nt();
        self.frontier@.len() * (nt + 2) + match self.cursor {
            Some((_, k)) => nt + 1 - k,
            None => 0,
        }
    }

    /// The pending work is at most one expansion per node, and never negative.
    pub proof fn lemma_work_bound(&self)
        requires
            self.wf(),
        ensures
            0 <= self.work() <= (self.graph_spec().structure().nt() + 2) * (self.graph_spec().nodes().len() + 1),
    {
        let nt = self.graph.structure().nt();
        let len = self.graph.markings.len();
        crate::seq_facts::lemma_distinct_below(self.frontier@, len);
        let f = self.frontier@.len();
        assert(f <= len);
        assert(f * (nt + 2) <= len * (nt + 2)) by (nonlinear_arith)
            requires
                f <= len,
        ;
        assert((nt + 2) * (len + 1) == len * (nt + 2) + nt + 2) by (nonlinear_arith);
        assert(f * (nt + 2) >= 0) by (nonlinear_arith);
        assert(self.graph_spec().nodes().len() == len);
    }

    /// The explorer's invariant.
    pub closed spec fn wf(&self) -> bool {
        let len = self.graph.markings@.len();
        let nt = self.graph.structure().nt();
        &&& self.graph.cover_wf()
        &&& !self.graph.complete
        &&& self.frontier@.no_duplicates()
        &&& forall|k: int| 0 <= k < self.frontier@.len() ==> #[trigger] self.frontier@[k] < len
        &&& match self.cursor {
            Some((c, k)) => c < len && k <= nt && !self.frontier@.contains(c),
            None => true,
        }
        &&& forall|i: int, t: int| 0 <= i < len && 0 <= t < nt && #[trigger] self.processed(i, t)
            && omega_enabled(self.graph.structure(), self.graph.markings@[i]@, t) ==> #[trigger] self.graph.has_successor(i, t)
    }

    /// Starts a Karp–Miller exploration from the current marking of `sys`.
    pub fn new(sys: &PetriNet<'a>, order: ExplorationOrder) -> (r: Self)
        requires
            sys.wf(),
        ensures
            r.wf(),
            r.order_spec() == order,
            r.graph_spec().structure() == sys.structure(),
            r.graph_spec().initial_spec() == sys.current(),
            r.graph_spec().nodes() == seq![lift(sys.current())],
    {
        let net = sys.net_ref();
        let current = sys.current_dense();
        let mut m0: Vec<Omega> = Vec::new();
        let mut i: usize = 0;
        while i < current.len()
            invariant
                0 <= i <= current@.len(),
                m0@.len() == i,
                forall|k: int| 0 <= k < i ==> m0@[k] == Omega::Finite(current@[k]),
            decreases current@.len() - i,
        {
            m0.push(Omega::Finite(current[i]));
            i = i + 1;
        }
        let mut markings: Vec<Vec<Omega>> = Vec::new();
        markings.push(m0);
        let mut parents: Vec<(usize, usize)> = Vec::new();
        parents.push((0, 0));
        let mut frontier: Vec<usize> = Vec::new();
        frontier.push(0);
        let graph = StateGraph {
            net,
            markings,
            parents,
            edges: Vec::new(),
            complete: false,
            initial: Ghost(current@),
        };
        let r = StateGraphExplorer { graph, order, frontier, cursor: None };
        proof {
            assert(r.graph.markings@[0]@ =~= lift(current@));
            assert(parent_path(r.graph.parents@, 0) == Seq::<int>::empty());
            assert(unlift(lift(current@)) =~= current@);
            assert(net.run(current@, Seq::<int>::empty()) == Some(current@));
            assert(r.graph.nodes() =~= seq![lift(sys.current())]);
            assert forall|i: int, t: int| 0 <= i < 1 && 0 <= t < net.nt() && #[trigger] r.processed(i, t)
                && omega_enabled(*net, r.graph.markings@[i]@, t) implies #[trigger] r.graph.has_successor(i, t) by {
                assert(r.frontier@[0] == 0usize);
                assert(r.frontier@.contains(i as usize));
            }
        }
        r
    }

    /// Explores one more edge: fires the next enabled transition of the node
    /// being expanded (taking the next node from the frontier when needed).
    ///
    /// Returns `None` once every discovered marking has been expanded.
    pub fn explore_next(&mut self) -> (r: Option<ExplorationStep<Omega>>)
        requires
            old(self).wf(),
        ensures
            final(self).wf(),
            final(self).graph_spec().structure() == old(self).graph_spec().structure(),
            final(self).graph_spec().initial_spec() == old(self).graph_spec().initial_spec(),
            final(self).order_spec() == old(self).order_spec(),
            r is None <==> final(self).done(),
            r is None ==> final(self).graph_spec().nodes() == old(self).graph_spec().nodes(),
            old(self).graph_spec().nodes().len() <= final(self).graph_spec().nodes().len(),
            forall|k: int| 0 <= k < old(self).graph_spec().nodes().len() ==> #[trigger] final(self).graph_spec().nodes()[k]
                == old(self).graph_spec().nodes()[k],
            r matches Some(step) ==> step.marking.wf() && (step.is_new <==> final(self).graph_spec().nodes().len()
                == old(self).graph_spec().nodes().len() + 1),
            final(self).graph_spec().nodes().len() <= old(self).graph_spec().nodes().len() + 1,
            r matches Some(step) && step.is_new ==> !final(self).done(),
            r is None ==> final(self).graph_spec().edge_seq() == old(self).graph_spec().edge_seq(),
            r matches Some(step) ==> exists|i: int, k: int, d: int| {
                &&& 0 <= i < old(self).graph_spec().nodes().len()
                &&& 0 <= k < old(self).graph_spec().structure().nt()
                &&& 0 <= d < final(self).graph_spec().nodes().len()
                &&& omega_enabled(old(self).graph_spec().structure(), old(self).graph_spec().nodes()[i], k)
                &&& step.transition == old(self).graph_spec().structure().transition_seq()[k]
                &&& #[trigger] final(self).graph_spec().edge_seq() == old(self).graph_spec().edge_seq().push((i as usize, k as usize, d as usize))
                &&& final(self).graph_spec().nodes()[d] == old(self).graph_spec().structure().dense_of(step.marking)
                &&& final(self).graph_spec().nodes()[d] == old(self).graph_spec().succ(i, k)
            },
            !old(self).done() ==> final(self).work() + 1 <= old(self).work() + (old(self).graph_spec().structure().nt() + 2) * (
                final(self).graph_spec().nodes().len() - old(self).graph_spec().nodes().len()),
    {
        let net = self.graph.net;
        let nt = net.num_transitions();
        let ghost old_nodes = self.graph.nodes();
        let count = self.graph.markings.len();
        loop
            invariant
                self.wf(),
                count == self.graph.markings@.len(),
                net == self.graph.net,
                nt == net.nt(),
                self.graph.net == old(self).graph.net,
                self.graph.initial == old(self).graph.initial,
                self.order == old(self).order,
                self.graph.nodes() == old_nodes,
                old_nodes == old(self).graph.nodes(),
                self.graph.edges@ == old(self).graph.edges@,
                self.graph == old(self).graph,
                self.work() < old(self).work() || (self.cursor == old(self).cursor && self.frontier@ == old(self).frontier@),
                self.work() <= old(self).work(),
            decreases self.frontier@.len(), (if self.cursor is Some { 1int } else { 0int }), (match self.cursor {
                Some((_, k)) => nt - k,
                None => 0,
            }),
        {
            match self.cursor {
                None => {
                    if self.frontier.len() == 0 {
                        return None;
                    }
                    let ghost f0 = self.frontier@;
                    let ghost e0 = *self;
                    let i = match self.order {
                        ExplorationOrder::BreadthFirst => self.frontier.remove(0),
                        ExplorationOrder::DepthFirst => {
                            let last = self.frontier.len() - 1;
                            self.frontier.remove(last)
                        },
                    };
                    self.cursor = Some((i, 0));
                    proof {
                        lemma_mul_step(f0.len() as int, nt + 2);
                        assert(self.graph.structure().nt() == nt);
                        assert(self.work() + 1 == e0.work());
                        let j: int = if self.order == ExplorationOrder::BreadthFirst { 0 } else { f0.len() - 1 };
                        assert(f0[j] == i);
                        assert(self.frontier@ == f0.remove(j));
                        crate::seq_facts::lemma_seq_remove_to_set(f0, j);
                        assert(!self.frontier@.to_set().contains(i));
                        assert forall|x: usize| self.frontier@.contains(x) implies f0.contains(x) && x != i by {
                            assert(self.frontier@.to_set().contains(x));
                        }
                        assert forall|k: int| 0 <= k < self.frontier@.len() implies #[trigger] self.frontier@[k] < self.graph.markings@.len() by {
                            assert(self.frontier@.contains(self.frontier@[k]));
                            assert(f0.contains(self.frontier@[k]));
                        }
                        assert forall|ii: int, t: int| 0 <= ii < self.graph.markings@.len() && 0 <= t < nt && #[trigger] self.processed(ii, t)
                            && omega_enabled(*net, self.graph.markings@[ii]@, t) implies #[trigger] self.graph.has_successor(ii, t) by {
                            if ii != i {
                                if f0.contains(ii as usize) {
                                    assert(f0.to_set().contains(ii as usize));
                                    assert(f0.to_set().remove(i).contains(ii as usize));
                                    assert(self.frontier@.to_set().contains(ii as usize));
                                }
                                assert(e0.processed(ii, t));
                            }
                        }
                    }
                },
                Some((i, k)) => {
                    let ghost e0 = *self;
                    if k >= nt {
                        self.cursor = None;
                        proof {
                            assert(self.graph.structure().nt() == nt);
                            assert(self.work() < e0.work());
                            assert forall|ii: int, t: int| 0 <= ii < self.graph.markings@.len() && 0 <= t < nt && #[trigger] self.processed(ii, t)
                                && omega_enabled(*net, self.graph.markings@[ii]@, t) implies #[trigger] self.graph.has_successor(ii, t) by {
                                assert(e0.processed(ii, t));
                            }
                        }
                    } else {
                        self.cursor = Some((i, k + 1));
                        let enabled = omega_enabled_exec(net, &self.graph.markings[i], k);
                        if !enabled {
                            proof {
                                assert(self.graph.structure().nt() == nt);
                                assert(self.work() + 1 == e0.work());
                                assert forall|ii: int, t: int| 0 <= ii < self.graph.markings@.len() && 0 <= t < nt && #[trigger] self.processed(ii, t)
                                    && omega_enabled(*net, self.graph.markings@[ii]@, t) implies #[trigger] self.graph.has_successor(ii, t) by {
                                    if !(ii == i && t == k) {
                                        assert(e0.processed(ii, t));
                                    }
                                }
                            }
                        } else {
                            let (d, is_new) = self.graph.insert_successor(i, k);
                            let ghost f1 = self.frontier@;
                            if is_new {
                                self.frontier.push(d);
                            }
                            proof {
                                let g0 = e0.graph;
                                assert forall|x: int| 0 <= x < g0.markings@.len() implies #[trigger] self.graph.nodes()[x] == old_nodes[x] by {
                                    assert(self.graph.markings@[x]@ == g0.markings@[x]@);
                                }
                                assert forall|x: usize| #[trigger] self.frontier@.contains(x) <==> f1.contains(x) || (is_new && x == d) by {
                                    if is_new {
                                        crate::seq_facts::lemma_seq_push_contains(f1, d, x);
                                    }
                                }
                                assert forall|kk: int| 0 <= kk < self.frontier@.len() implies #[trigger] self.frontier@[kk] < self.graph.markings@.len() by {
                                    if kk < f1.len() {
                                        assert(self.frontier@[kk] == f1[kk]);
                                    }
                                }
                                if is_new {
                                    assert forall|a: int, b: int| 0 <= a < b < self.frontier@.len() implies self.frontier@[a] != self.frontier@[b] by {
                                        if b == self.frontier@.len() - 1 {
                                            assert(self.frontier@[a] == f1[a]);
                                            assert(f1[a] < g0.markings@.len());
                                        } else {
                                            assert(self.frontier@[a] == f1[a] && self.frontier@[b] == f1[b]);
                                        }
                                    }
                                    assert(i < g0.markings@.len());
                                }
                                assert forall|ii: int, t: int| 0 <= ii < self.graph.markings@.len() && 0 <= t < nt && #[trigger] self.processed(ii, t)
                                    && omega_enabled(*net, self.graph.markings@[ii]@, t) implies #[trigger] self.graph.has_successor(ii, t) by {
                                    if ii < g0.markings@.len() {
                                        assert(self.graph.anc(ii) == g0.anc(ii));
                                        assert(self.graph.markings@[ii]@ == g0.markings@[ii]@);
                                        assert(self.graph.succ(ii, t) == g0.succ(ii, t));
                                        if ii == i && t == k {
                                            assert(self.graph.edges@[g0.edges@.len() as int] == (i, k, d));
                                        } else {
                                            assert(e0.processed(ii, t));
                                            assert(g0.has_successor(ii, t));
                                            let ee = choose|ee: int| 0 <= ee < g0.edges@.len() && (#[trigger] g0.edges@[ee]).0 as int == ii
                                                && g0.edges@[ee].1 as int == t;
                                            assert(self.graph.edges@[ee] == g0.edges@[ee]);
                                        }
                                    } else {
                                        assert(is_new && ii == d);
                                        assert(self.frontier@.contains(ii as usize));
                                    }
                                }
                            }
                            proof {
                                let w = nt + 2;
                                lemma_mul_step(f1.len() as int, w);
                                assert(self.graph.structure().nt() == nt);
                                assert(e0.work() == f1.len() * w + nt + 1 - k);
                                if is_new {
                                    assert(self.frontier@.len() == f1.len() + 1);
                                    assert(self.work() == e0.work() - 1 + w);
                                    assert(self.graph_spec().nodes().len() == old(self).graph_spec().nodes().len() + 1);
                                } else {
                                    assert(self.frontier@ == f1);
                                    assert(self.work() == e0.work() - 1);
                                }
                                assert(self.graph_spec().nodes().len() - old(self).graph_spec().nodes().len() == (if is_new { 1int } else { 0int }));
                            }
                            let t = net.transition_at(k);
                            let marking = net.sparse_marking(&self.graph.markings[d]);
                            proof {
                                let g = self.graph;
                                assert(g.shape_wf());
                                g.lemma_node_len(d as int);
                                assert(g.nodes()[d as int] == g.markings@[d as int]@);
                                assert forall|j: int| 0 <= j < net.np() implies #[trigger] net.dense_of(marking)[j] == g.nodes()[d as int][j] by {
                                    net.lemma_sparse_count_at(g.markings@[d as int]@, j);
                                }
                                assert(net.dense_of(marking) =~= g.nodes()[d as int]);
                                assert(old_nodes[i as int] == e0.graph.markings@[i as int]@);
                                assert(self.graph_spec().edge_seq() == old(self).graph_spec().edge_seq().push((i, k, d)));
                                assert(g.nodes()[d as int] == e0.graph.succ(i as int, k as int));
                            }
                            return Some(ExplorationStep { transition: t, marking, is_new });
                        }
                    }
                },
            }
        }
    }
}


impl<'a> StateGraphExplorer<'a, Omega> {
    /// Ends exploration and returns the graph discovered, complete if exploration had finished.
    fn into_graph(self) -> (r: CoverabilityGraph<'a>)
        requires
            self.wf(),
        ensures
            r.cover_wf(),
            r.structure() == self.graph_spec().structure(),
            r.initial_spec() == self.graph_spec().initial_spec(),
            r.nodes() == self.graph_spec().nodes(),
            r.is_complete() == self.done(),
    {
        let done = self.is_fully_explored();
        let ghost e = self;
        let mut g = self.graph;
        g.complete = done;
        proof {
            if done {
                assert forall|i: int, t: int| 0 <= i < g.markings@.len() && 0 <= t < g.structure().nt() && omega_enabled(
                    g.structure(),
                    (#[trigger] g.markings@[i])@,
                    t,
                ) implies #[trigger] g.has_successor(i, t) by {
                    assert(e.processed(i, t));
                    assert(e.graph.has_successor(i, t));
                    let ee = choose|ee: int| 0 <= ee < e.graph.edges@.len() && (#[trigger] e.graph.edges@[ee]).0 as int == i
                        && e.graph.edges@[ee].1 as int == t;
                    assert(g.edges@[ee] == e.graph.edges@[ee]);
                }
            }
        }
        g
    }

    /// Explores until nothing is left to expand and returns the coverability graph.
    ///
    /// Exploration stops after `usize::MAX` steps at the latest; the graph
    /// reports whether it ran to the end.
    pub fn build_graph(self) -> (r: CoverabilityGraph<'a>)
        requires
            self.wf(),
        ensures
            r.cover_wf(),
            r.shape_wf(),
            r.structure() == self.graph_spec().structure(),
            r.initial_spec() == self.graph_spec().initial_spec(),
            r.is_complete() || usize::MAX <= (r.structure().nt() + 2) * (r.nodes().len() + 1),
    {
        let ghost w0 = self.work();
        let ghost len0 = self.graph_spec().nodes().len();
        let ghost w = self.graph_spec().structure().nt() + 2;
        proof {
            self.lemma_work_bound();
        }
        let mut ex = self;
        let mut steps: usize = 0;
        while steps < usize::MAX && !ex.is_fully_explored()
            invariant
                ex.wf(),
                ex.graph_spec().structure() == self.graph_spec().structure(),
                ex.graph_spec().initial_spec() == self.graph_spec().initial_spec(),
                w == ex.graph_spec().structure().nt() + 2,
                len0 <= ex.graph_spec().nodes().len(),
                steps + ex.work() <= w0 + w * (ex.graph_spec().nodes().len() - len0),
                w0 <= w * (len0 + 1),
            decreases usize::MAX - steps,
        {
            let ghost before = ex;
            let _ = ex.explore_next();
            proof {
                lemma_mul_distrib(w as int, before.graph_spec().nodes().len() - len0, ex.graph_spec().nodes().len() - before.graph_spec().nodes().len());
            }
            steps = steps + 1;
        }
        proof {
            ex.lemma_work_bound();
            if !ex.done() {
                lemma_mul_distrib(w as int, (len0 + 1) as int, ex.graph_spec().nodes().len() - len0);
            }
        }
        ex.into_graph()
    }

    /// Explores until done, giving up as soon as a marking with `ω` is
    /// discovered; on success the system is bounded and the result is its
    /// reachability graph. On failure the partially explored coverability
    /// explorer is returned, its frontier kept.
    pub fn try_build_reachability_graph(self) -> (r: Result<ReachabilityGraph<'a>, Self>)
        requires
            self.wf(),
        ensures
            match r {
                Ok(rg) => rg.reach_wf() && rg.shape_wf() && rg.structure() == self.graph_spec().structure()
                    && rg.initial_spec() == self.graph_spec().initial_spec()
                    && (rg.is_complete() || usize::MAX <= (rg.structure().nt() + 2) * (rg.nodes().len() + 1)),
                Err(ex) => ex.wf() && ex.graph_spec().structure() == self.graph_spec().structure()
                    && ex.graph_spec().initial_spec() == self.graph_spec().initial_spec()
                    && (!ex.done() || exists|i: int| 0 <= i < self.graph_spec().nodes().len() && !is_finite_seq(#[trigger] self.graph_spec().nodes()[i]))
                    && exists|i: int| 0 <= i < ex.graph_spec().nodes().len() && !is_finite_seq(#[trigger] ex.graph_spec().nodes()[i]),
            },
    {
        let ghost w0 = self.work();
        let ghost len0 = self.graph_spec().nodes().len();
        let ghost w = self.graph_spec().structure().nt() + 2;
        proof {
            self.lemma_work_bound();
        }
        let mut ex = self;
        let mut steps: usize = 0;
        while steps < usize::MAX && !ex.is_fully_explored()
            invariant
                ex.wf(),
                ex.graph_spec().structure() == self.graph_spec().structure(),
                ex.graph_spec().initial_spec() == self.graph_spec().initial_spec(),
                w == ex.graph_spec().structure().nt() + 2,
                len0 <= ex.graph_spec().nodes().len(),
                steps + ex.work() <= w0 + w * (ex.graph_spec().nodes().len() - len0),
                w0 <= w * (len0 + 1),
                forall|k: int| 0 <= k < len0 ==> #[trigger] ex.graph_spec().nodes()[k] == self.graph_spec().nodes()[k],
                forall|k: int| len0 <= k < ex.graph_spec().nodes().len() ==> is_finite_seq(#[trigger] ex.graph_spec().nodes()[k]),
            decreases usize::MAX - steps,
        {
            let ghost before = ex;
            let step = ex.explore_next();
            proof {
                lemma_mul_distrib(w as int, before.graph_spec().nodes().len() - len0, ex.graph_spec().nodes().len() - before.graph_spec().nodes().len());
            }
            match step {
                Some(st) => {
                    if st.is_new {
                        let last = ex.graph.markings.len() - 1;
                        if dense_has_omega(&ex.graph.markings[last]) {
                            proof {
                                assert(ex.graph_spec().nodes()[last as int] == ex.graph.markings@[last as int]@);
                            }
                            return Err(ex);
                        }
                        proof {
                            assert(ex.graph_spec().nodes()[last as int] == ex.graph.markings@[last as int]@);
                            assert(ex.graph_spec().nodes().len() == before.graph_spec().nodes().len() + 1);
                            assert forall|k: int| len0 <= k < ex.graph_spec().nodes().len() implies is_finite_seq(#[trigger] ex.graph_spec().nodes()[k]) by {
                                if k < before.graph_spec().nodes().len() {
                                    assert(ex.graph_spec().nodes()[k] == before.graph_spec().nodes()[k]);
                                }
                            }
                        }
                    } else {
                        proof {
                            assert(ex.graph_spec().nodes().len() == before.graph_spec().nodes().len());
                            assert forall|k: int| len0 <= k < ex.graph_spec().nodes().len() implies is_finite_seq(#[trigger] ex.graph_spec().nodes()[k]) by {
                                assert(ex.graph_spec().nodes()[k] == before.graph_spec().nodes()[k]);
                            }
                        }
                    }
                },
                None => {},
            }
            proof {
                assert forall|k: int| 0 <= k < len0 implies #[trigger] ex.graph_spec().nodes()[k] == self.graph_spec().nodes()[k] by {
                    assert(ex.graph_spec().nodes()[k] == before.graph_spec().nodes()[k]);
                }
            }
            steps = steps + 1;
        }
        let done = ex.is_fully_explored();
        proof {
            ex.lemma_work_bound();
            if !done {
                lemma_mul_distrib(w as int, (len0 + 1) as int, ex.graph_spec().nodes().len() - len0);
                assert(steps == usize::MAX);
                assert(usize::MAX <= w * (ex.graph_spec().nodes().len() + 1));
            }
            if done {
                assert forall|i: int, t: int| 0 <= i < ex.graph.markings@.len() && 0 <= t < ex.graph.structure().nt() && omega_enabled(
                    ex.graph.structure(),
                    (#[trigger] ex.graph.markings@[i])@,
                    t,
                ) implies #[trigger] ex.graph.has_successor(i, t) by {
                    assert(ex.processed(i, t));
                }
            }
        }
        match ex.graph.promote(done) {
            Some(rg) => {
                proof {
                    assert(rg.nodes().len() == ex.graph.nodes().len());
                    assert(ex.graph_spec() == ex.graph);
                    assert(rg.structure().nt() + 2 == w);
                    assert(rg.reach_wf());
                    assert(rg.shape_wf());
                    assert(rg.is_complete() || usize::MAX <= (rg.structure().nt() + 2) * (rg.nodes().len() + 1));
                }
                Ok(rg)
            },
            None => {
                proof {
                    let k = choose|k: int| 0 <= k < ex.graph.nodes().len() && !is_finite_seq(#[trigger] ex.graph.nodes()[k]);
                    assert(ex.graph_spec() == ex.graph);
                    assert(k < len0);
                    assert(self.graph_spec().nodes()[k] == ex.graph_spec().nodes()[k]);
                }
                Err(ex)
            },
        }
    }
}


/// Whether some count of `v` is `ω`.
fn dense_has_omega(v: &Vec<Omega>) -> (r: bool)
    ensures
        r == !is_finite_seq(v@),
{
    let mut i: usize = 0;
    while i < v.len()
        invariant
            0 <= i <= v@.len(),
            forall|k: int| 0 <= k < i ==> (#[trigger] v@[k]) is Finite,
        decreases v@.len() - i,
    {
        if v[i].is_omega() {
            return true;
        }
        i = i + 1;
    }
    false
}

impl<'a> StateGraph<'a, u32> {
    /// The reachability graph's invariant: the initial marking is node `0`,
    /// every node is reached by its discovery path, every edge is a firing,
    /// and a complete graph holds every firing of every node.
    pub closed spec fn reach_wf(&self) -> bool {
        let len = self.markings@.len();
        let net = *self.net;
        &&& self.shape_wf()
        &&& self.markings@[0]@ == self.initial@
        &&& forall|i: int| 0 <= i < len ==> net.run(self.initial@, parent_path(self.parents@, i)) == Some((#[trigger] self.markings@[i])@)
        &&& forall|k: int| 0 <= k < self.edges@.len() ==> net.fires(self.markings@[(#[trigger] self.edges@[k]).0 as int]@, self.edges@[k].1 as int)
            && self.markings@[self.edges@[k].2 as int]@ == net.fire_spec(self.markings@[self.edges@[k].0 as int]@, self.edges@[k].1 as int)
        &&& self.complete ==> forall|i: int, t: int| 0 <= i < len && #[trigger] net.fires((#[trigger] self.markings@[i])@, t)
            ==> exists|d: int| 0 <= d < len && (#[trigger] self.markings@[d])@ == net.fire_spec(self.markings@[i]@, t)
        &&& self.complete ==> forall|i: int, t: int| 0 <= i < len && #[trigger] net.fires(self.markings@[i]@, t)
            ==> exists|e: int| 0 <= e < self.edges@.len() && (#[trigger] self.edges@[e]).0 as int == i && self.edges@[e].1 as int == t
    }
}

impl<'a> StateGraph<'a, Omega> {
    /// The same graph with plain counts, if no count is `ω`.
    fn promote(&self, complete: bool) -> (r: Option<ReachabilityGraph<'a>>)
        requires
            self.cover_wf(),
            complete ==> self.closed(),
        ensures
            r is Some <==> forall|i: int| 0 <= i < self.nodes().len() ==> is_finite_seq(#[trigger] self.nodes()[i]),
            r matches Some(rg) ==> rg.reach_wf() && rg.structure() == self.structure() && rg.initial_spec() == self.initial_spec()
                && rg.is_complete() == complete && rg.edge_seq() == self.edge_seq()
                && rg.nodes() == self.nodes().map_values(|n: Seq<Omega>| unlift(n)),
    {
        let net = self.net;
        let mut out: Vec<Vec<u32>> = Vec::new();
        let mut i: usize = 0;
        while i < self.markings.len()
            invariant
                self.cover_wf(),
                0 <= i <= self.markings@.len(),
                out@.len() == i,
                forall|k: int| 0 <= k < i ==> is_finite_seq((#[trigger] self.markings@[k])@),
                forall|k: int| 0 <= k < i ==> (#[trigger] out@[k])@ == unlift(self.markings@[k]@),
            decreases self.markings@.len() - i,
        {
            let m = &self.markings[i];
            let mut v: Vec<u32> = Vec::new();
            let mut p: usize = 0;
            while p < m.len()
                invariant
                    0 <= p <= m@.len(),
                    i < self.markings@.len(),
                    *m == self.markings@[i as int],
                    v@.len() == p,
                    forall|q: int| 0 <= q < p ==> (#[trigger] m@[q]) is Finite,
                    forall|q: int| 0 <= q < p ==> #[trigger] v@[q] == unlift(m@)[q],
                decreases m@.len() - p,
            {
                match m[p] {
                    Omega::Finite(k) => v.push(k),
                    Omega::Unbounded => {
                        proof {
                            assert(self.nodes()[i as int] == self.markings@[i as int]@);
                            assert(!is_finite_seq(self.nodes()[i as int]));
                        }
                        return None;
                    },
                }
                p = p + 1;
            }
            proof {
                assert(v@ =~= unlift(m@));
            }
            out.push(v);
            i = i + 1;
        }
        let mut parents: Vec<(usize, usize)> = Vec::new();
        let mut k: usize = 0;
        while k < self.parents.len()
            invariant
                0 <= k <= self.parents@.len(),
                parents@ == self.parents@.subrange(0, k as int),
            decreases self.parents@.len() - k,
        {
            parents.push(self.parents[k]);
            proof {
                assert(self.parents@.subrange(0, k + 1) =~= self.parents@.subrange(0, k as int).push(self.parents@[k as int]));
            }
            k = k + 1;
        }
        let mut edges: Vec<(usize, usize, usize)> = Vec::new();
        let mut k: usize = 0;
        while k < self.edges.len()
            invariant
                0 <= k <= self.edges@.len(),
                edges@ == self.edges@.subrange(0, k as int),
            decreases self.edges@.len() - k,
        {
            edges.push(self.edges[k]);
            proof {
                assert(self.edges@.subrange(0, k + 1) =~= self.edges@.subrange(0, k as int).push(self.edges@[k as int]));
            }
            k = k + 1;
        }
        proof {
            assert(parents@ =~= self.parents@);
            assert(edges@ =~= self.edges@);
        }
        let rg = StateGraph { net, markings: out, parents, edges, complete, initial: self.initial };
        proof {
            let len = self.markings@.len();
            let netv = *net;
            assert forall|a: int| 0 <= a < len implies (#[trigger] self.markings@[a])@ == lift(rg.markings@[a]@) by {
                assert(self.markings@[a]@ =~= lift(unlift(self.markings@[a]@)));
            }
            assert forall|a: int, b: int| 0 <= a < b < len implies (#[trigger] rg.markings@[a])@ != (#[trigger] rg.markings@[b])@ by {
                assert(self.markings@[a]@ == lift(rg.markings@[a]@));
                assert(self.markings@[b]@ == lift(rg.markings@[b]@));
            }
            assert(rg.markings@[0]@ == self.initial@) by {
                assert(unlift(lift(self.initial@)) =~= self.initial@);
            }
            assert forall|kk: int| 0 <= kk < rg.edges@.len() implies netv.fires(rg.markings@[(#[trigger] rg.edges@[kk]).0 as int]@, rg.edges@[kk].1 as int)
                && rg.markings@[rg.edges@[kk].2 as int]@ == netv.fire_spec(rg.markings@[rg.edges@[kk].0 as int]@, rg.edges@[kk].1 as int) by {
                let (s0, t0, d0) = self.edges@[kk];
                let f = omega_fire(netv, self.markings@[s0 as int]@, t0 as int);
                lemma_accelerate_raises(self.anc(s0 as int), f);
                assert forall|p: int| 0 <= p < f.len() implies (#[trigger] f[p]) is Finite by {
                    assert(self.markings@[d0 as int]@[p] is Finite);
                }
                assert(self.markings@[d0 as int]@ =~= f);
                lemma_omega_fire_finite_back(netv, self.markings@[s0 as int]@, t0 as int);
                assert(unlift(lift(netv.fire_spec(rg.markings@[s0 as int]@, t0 as int))) =~= netv.fire_spec(rg.markings@[s0 as int]@, t0 as int));
            }
            if complete {
                assert forall|a: int, t: int| 0 <= a < len && #[trigger] netv.fires((#[trigger] rg.markings@[a])@, t)
                    implies exists|d: int| 0 <= d < len && (#[trigger] rg.markings@[d])@ == netv.fire_spec(rg.markings@[a]@, t) by {
                    let m = rg.markings@[a]@;
                    lemma_omega_fire_finite(netv, m, t);
                    assert(self.markings@[a]@ == lift(m));
                    assert(self.has_successor(a, t));
                    let ee = choose|ee: int| 0 <= ee < self.edges@.len() && (#[trigger] self.edges@[ee]).0 as int == a && self.edges@[ee].1 as int == t;
                    let d = self.edges@[ee].2 as int;
                    assert(self.markings@[d]@ == self.succ(a, t));
                    let f = omega_fire(netv, self.markings@[a]@, t);
                    lemma_accelerate_raises(self.anc(a), f);
                    assert forall|p: int| 0 <= p < f.len() implies (#[trigger] self.markings@[d]@[p]) == f[p] by {
                        assert(self.markings@[d]@[p] is Finite);
                    }
                    assert(self.markings@[d]@ =~= f);
                    assert(unlift(lift(netv.fire_spec(m, t))) =~= netv.fire_spec(m, t));
                    assert(rg.markings@[d]@ == netv.fire_spec(m, t));
                }
                assert forall|a: int, t: int| 0 <= a < len && #[trigger] netv.fires(rg.markings@[a]@, t)
                    implies exists|e: int| 0 <= e < rg.edges@.len() && (#[trigger] rg.edges@[e]).0 as int == a && rg.edges@[e].1 as int == t by {
                    let m = rg.markings@[a]@;
                    lemma_omega_fire_finite(netv, m, t);
                    assert(self.markings@[a]@ == lift(m));
                    assert(self.has_successor(a, t));
                }
            }
            assert(rg.nodes() =~= self.nodes().map_values(|n: Seq<Omega>| unlift(n)));
        }
        Some(rg)
    }

    /// Converts to the reachability graph if no marking holds `ω`; otherwise
    /// returns the coverability graph unchanged.
    pub fn try_into_reachability_graph(self) -> (r: Result<ReachabilityGraph<'a>, Self>)
        requires
            self.cover_wf(),
        ensures
            r is Ok <==> forall|i: int| 0 <= i < self.nodes().len() ==> is_finite_seq(#[trigger] self.nodes()[i]),
            r matches Ok(rg) ==> rg.reach_wf() && rg.shape_wf() && rg.structure() == self.structure() && rg.initial_spec() == self.initial_spec()
                && rg.is_complete() == self.is_complete() && rg.edge_seq() == self.edge_seq()
                && rg.nodes() == self.nodes().map_values(|n: Seq<Omega>| unlift(n)),
            r matches Err(cg) ==> cg == self,
    {
        let complete = self.complete;
        match self.promote(complete) {
            Some(rg) => Ok(rg),
            None => Err(self),
        }
    }
}


// ---------------------------------------------------------------------------
// What the graphs guarantee
// ---------------------------------------------------------------------------

/// Every marking that a run from the initial marking reaches is covered by
/// some node of a complete coverability graph.
pub proof fn lemma_run_is_covered(g: CoverabilityGraph, seq: Seq<int>)
    requires
        g.cover_wf(),
        g.is_complete(),
        g.structure().run(g.initial_spec(), seq) is Some,
    ensures
        exists|i: int| 0 <= i < g.nodes().len() && omega_le(lift(g.structure().run(g.initial_spec(), seq).unwrap()), #[trigger] g.nodes()[i]),
    decreases seq.len(),
{
    let net = g.structure();
    if seq.len() == 0 {
        assert(g.nodes()[0] == lift(g.initial_spec()));
        assert(omega_le(lift(g.initial_spec()), g.nodes()[0]));
    } else {
        let prefix = seq.drop_last();
        let t = seq.last();
        lemma_run_is_covered(g, prefix);
        let m1 = net.run(g.initial_spec(), prefix).unwrap();
        net.lemma_run_len(g.initial_spec(), prefix);
        let i = choose|i: int| 0 <= i < g.nodes().len() && omega_le(lift(m1), #[trigger] g.nodes()[i]);
        assert(g.nodes()[i] == g.markings@[i]@);
        lemma_omega_fire_monotone(net, g.markings@[i]@, m1, t);
        assert(g.has_successor(i, t));
        let ee = choose|ee: int| 0 <= ee < g.edges@.len() && (#[trigger] g.edges@[ee]).0 as int == i && g.edges@[ee].1 as int == t;
        let d = g.edges@[ee].2 as int;
        assert(g.markings@[d]@ == g.succ(i, t));
        let f = omega_fire(net, g.markings@[i]@, t);
        lemma_accelerate_raises(g.anc(i), f);
        let m = net.fire_spec(m1, t);
        assert(g.nodes()[d] == g.markings@[d]@);
        assert forall|p: int| 0 <= p < lift(m).len() implies (#[trigger] lift(m)[p]).leq(g.nodes()[d][p]) by {
            assert(lift(m)[p].leq(f[p]));
        }
    }
}

/// Completeness of a coverability graph: every reachable marking is covered by
/// one of its nodes.
pub proof fn lemma_reachable_is_covered(g: CoverabilityGraph, m: Seq<u32>)
    requires
        g.cover_wf(),
        g.is_complete(),
        g.structure().reachable(g.initial_spec(), m),
    ensures
        exists|i: int| 0 <= i < g.nodes().len() && omega_le(lift(m), #[trigger] g.nodes()[i]),
{
    let seq = choose|seq: Seq<int>| #[trigger] g.structure().run(g.initial_spec(), seq) == Some(m);
    lemma_run_is_covered(g, seq);
}

/// Soundness of a coverability graph: a node without `ω` is a reachable
/// marking, reached by firing its discovery path.
pub proof fn lemma_finite_node_reachable(g: CoverabilityGraph, i: int)
    requires
        g.cover_wf(),
        0 <= i < g.nodes().len(),
        is_finite_seq(g.nodes()[i]),
    ensures
        g.structure().run(g.initial_spec(), g.path_to(i)) == Some(unlift(g.nodes()[i])),
        g.structure().reachable(g.initial_spec(), unlift(g.nodes()[i])),
{
    assert(g.nodes()[i] == g.markings@[i]@);
    assert(g.structure().run(g.initial_spec(), g.path_to(i)) == Some(unlift(g.nodes()[i])));
}

/// A reachability graph: each node is reached from the initial marking by its
/// discovery path.
pub proof fn lemma_node_reached_by_path(g: ReachabilityGraph, i: int)
    requires
        g.reach_wf(),
        0 <= i < g.nodes().len(),
    ensures
        g.structure().run(g.initial_spec(), g.path_to(i)) == Some(g.nodes()[i]),
{
    assert(g.nodes()[i] == g.markings@[i]@);
}

proof fn lemma_run_in_graph(g: ReachabilityGraph, seq: Seq<int>)
    requires
        g.reach_wf(),
        g.is_complete(),
        g.structure().run(g.initial_spec(), seq) is Some,
    ensures
        g.nodes().contains(g.structure().run(g.initial_spec(), seq).unwrap()),
    decreases seq.len(),
{
    let net = g.structure();
    if seq.len() == 0 {
        assert(g.nodes()[0] == g.markings@[0]@);
    } else {
        let prefix = seq.drop_last();
        lemma_run_in_graph(g, prefix);
        let m1 = net.run(g.initial_spec(), prefix).unwrap();
        let i = choose|i: int| 0 <= i < g.nodes().len() && g.nodes()[i] == m1;
        assert(g.nodes()[i] == g.markings@[i]@);
        assert(net.fires(g.markings@[i]@, seq.last()));
        let d = choose|d: int| 0 <= d < g.markings@.len() && (#[trigger] g.markings@[d])@ == net.fire_spec(g.markings@[i]@, seq.last());
        assert(g.nodes()[d] == g.markings@[d]@);
    }
}

/// A complete reachability graph holds exactly the reachable markings.
pub proof fn lemma_reachability_graph_exact(g: ReachabilityGraph, m: Seq<u32>)
    requires
        g.reach_wf(),
        g.is_complete(),
    ensures
        g.nodes().contains(m) <==> g.structure().reachable(g.initial_spec(), m),
{
    if g.nodes().contains(m) {
        let i = choose|i: int| 0 <= i < g.nodes().len() && g.nodes()[i] == m;
        lemma_node_reached_by_path(g, i);
    }
    if g.structure().reachable(g.initial_spec(), m) {
        let seq = choose|seq: Seq<int>| #[trigger] g.structure().run(g.initial_spec(), seq) == Some(m);
        lemma_run_in_graph(g, seq);
    }
}

impl<'a> PetriNet<'a> {
    /// Starts a Karp–Miller exploration from the current marking.
    pub fn explore_coverability(&self, order: ExplorationOrder) -> (r: CoverabilityExplorer<'a>)
        requires
            self.wf(),
        ensures
            r.wf(),
            r.order_spec() == order,
            r.graph_spec().structure() == self.structure(),
            r.graph_spec().initial_spec() == self.current(),
    {
        StateGraphExplorer::new(self, order)
    }

    /// Builds the coverability graph of the system from its current marking,
    /// expanding breadth-first.
    pub fn build_coverability_graph(&self) -> (r: CoverabilityGraph<'a>)
        requires
            self.wf(),
        ensures
            r.cover_wf(),
            r.shape_wf(),
            r.structure() == self.structure(),
            r.initial_spec() == self.current(),
            r.is_complete() || usize::MAX <= (r.structure().nt() + 2) * (r.nodes().len() + 1),
    {
        StateGraphExplorer::new(self, ExplorationOrder::BreadthFirst).build_graph()
    }

    /// Builds the reachability graph of the system from its current marking if
    /// the system is bounded; otherwise returns the coverability explorer as it
    /// stood when the first `ω` appeared.
    pub fn try_build_reachability_graph(&self) -> (r: Result<ReachabilityGraph<'a>, CoverabilityExplorer<'a>>)
        requires
            self.wf(),
        ensures
            match r {
                Ok(rg) => rg.reach_wf() && rg.shape_wf() && rg.structure() == self.structure() && rg.initial_spec() == self.current()
                    && (rg.is_complete() || usize::MAX <= (rg.structure().nt() + 2) * (rg.nodes().len() + 1)),
                Err(ex) => ex.wf() && ex.graph_spec().structure() == self.structure() && ex.graph_spec().initial_spec() == self.current()
                    && !ex.done()
                    && exists|i: int| 0 <= i < ex.graph_spec().nodes().len() && !is_finite_seq(#[trigger] ex.graph_spec().nodes()[i]),
            },
    {
        let ex = StateGraphExplorer::new(self, ExplorationOrder::BreadthFirst);
        proof {
            assert forall|p: int| 0 <= p < lift(self.current()).len() implies (#[trigger] lift(self.current())[p]) is Finite by {}
            assert(is_finite_seq(ex.graph_spec().nodes()[0]));
        }
        ex.try_build_reachability_graph()
    }
}


// ---------------------------------------------------------------------------
// Queries on state graphs
// ---------------------------------------------------------------------------

/// Whether `t` is enabled in the dense marking `m`: no input place is empty.
pub open spec fn token_enabled<T: TokenOps>(net: Net, m: Seq<T>, t: int) -> bool {
    forall|p: int| 0 <= p < net.np() && #[trigger] net.consumes(t, p) ==> m[p] != T::zero_spec()
}

/// Whether `m` enables no transition.
pub open spec fn is_dead<T: TokenOps>(net: Net, m: Seq<T>) -> bool {
    forall|t: int| 0 <= t < net.nt() ==> !#[trigger] token_enabled(net, m, t)
}

/// Whether `v` is the largest count `p` holds in the given nodes.
pub open spec fn is_bound_of<T: TokenOps>(net: Net, nodes: Seq<Seq<T>>, p: Place, v: T) -> bool {
    &&& forall|i: int| 0 <= i < nodes.len() ==> (#[trigger] net.sparse_count(nodes[i], p)).leq(v)
    &&& exists|i: int| 0 <= i < nodes.len() && v == #[trigger] net.sparse_count(nodes[i], p)
}

/// Whether the `j`-th place holds the same count in every node.
pub open spec fn stable_column<T>(nodes: Seq<Seq<T>>, j: int) -> bool {
    forall|i: int| 0 <= i < nodes.len() ==> (#[trigger] nodes[i])[j] == nodes[0][j]
}

/// Whether the marking `m` assigns each place the count the dense marking `d` gives it.
pub open spec fn shows<T: TokenOps>(net: Net, m: Marking<T>, d: Seq<T>) -> bool {
    forall|p: Place| #[trigger] m.count(p) == net.sparse_count(d, p)
}

/// Whether `m` shows a dead node of `nodes`.
pub open spec fn shows_dead_node<T: TokenOps>(net: Net, nodes: Seq<Seq<T>>, m: Marking<T>) -> bool {
    exists|i: int| 0 <= i < nodes.len() && is_dead(net, #[trigger] nodes[i]) && shows(net, m, nodes[i])
}

/// Whether some marking of `ms` shows the dense marking `d`.
pub open spec fn shown_in<T: TokenOps>(net: Net, ms: Seq<Marking<T>>, d: Seq<T>) -> bool {
    exists|k: int| 0 <= k < ms.len() && shows(net, #[trigger] ms[k], d)
}

/// `a ≤ b` componentwise.
pub open spec fn le_all<T: TokenOps>(a: Seq<T>, b: Seq<T>) -> bool {
    forall|p: int| 0 <= p < a.len() ==> (#[trigger] a[p]).leq(b[p])
}

pub(crate) fn token_enabled_exec<T: TokenOps>(net: &Net, m: &Vec<T>, t: usize) -> (r: bool)
    requires
        net.wf(),
        t < net.nt(),
        m@.len() == net.np(),
    ensures
        r == token_enabled(*net, m@, t as int),
{
    let pre = net.input_places(t);
    proof {
        net.lemma_wf();
    }
    let mut k: usize = 0;
    while k < pre.len()
        invariant
            0 <= k <= pre@.len(),
            m@.len() == net.np(),
            net.np() <= usize::MAX,
            forall|i: int| 0 <= i < pre@.len() ==> #[trigger] pre@[i] < net.np(),
            forall|p: usize| #[trigger] pre@.contains(p) <==> p < net.np() && net.consumes(t as int, p as int),
            forall|i: int| 0 <= i < k ==> m@[#[trigger] pre@[i] as int] != T::zero_spec(),
        decreases pre@.len() - k,
    {
        let p = pre[k];
        if m[p].is_zero() {
            proof {
                assert(pre@.contains(p));
            }
            return false;
        }
        k = k + 1;
    }
    proof {
        assert forall|p: int| 0 <= p < net.np() && #[trigger] net.consumes(t as int, p) implies m@[p] != T::zero_spec() by {
            assert(pre@.contains(p as usize));
            let i = choose|i: int| 0 <= i < pre@.len() && pre@[i] == p as usize;
        }
    }
    true
}

fn is_dead_exec<T: TokenOps>(net: &Net, m: &Vec<T>) -> (r: bool)
    requires
        net.wf(),
        m@.len() == net.np(),
    ensures
        r == is_dead(*net, m@),
{
    let nt = net.num_transitions();
    let mut t: usize = 0;
    while t < nt
        invariant
            net.wf(),
            nt == net.nt(),
            m@.len() == net.np(),
            0 <= t <= nt,
            forall|i: int| 0 <= i < t ==> !#[trigger] token_enabled(*net, m@, i),
        decreases nt - t,
    {
        if token_enabled_exec(net, m, t) {
            return false;
        }
        t = t + 1;
    }
    true
}

impl<'a, T: TokenOps> StateGraph<'a, T> {
    /// The number of distinct markings in the graph.
    pub fn marking_count(&self) -> (r: usize)
        ensures
            r == self.nodes().len(),
    {
        self.markings.len()
    }

    /// The number of edges (transition firings) in the graph.
    pub fn transition_count(&self) -> (r: usize)
        ensures
            r == self.edge_seq().len(),
    {
        self.edges.len()
    }

    /// The marking of node `i`.
    /// The dense marking of node `i`.
    pub(crate) fn node_marking(&self, i: usize) -> (r: &Vec<T>)
        requires
            i < self.nodes().len(),
        ensures
            r@ == self.nodes()[i as int],
    {
        &self.markings[i]
    }

    fn marking_at(&self, i: usize) -> (r: Marking<T>)
        requires
            self.shape_wf(),
            i < self.nodes().len(),
        ensures
            r.wf(),
            forall|p: Place| #[trigger] r.count(p) == self.structure().sparse_count(self.nodes()[i as int], p),
    {
        self.net.sparse_marking(&self.markings[i])
    }

    /// All markings of the graph, in node order.
    pub fn markings(&self) -> (r: Vec<Marking<T>>)
        requires
            self.shape_wf(),
        ensures
            r@.len() == self.nodes().len(),
            forall|i: int| 0 <= i < r@.len() ==> (#[trigger] r@[i]).wf(),
            forall|i: int, p: Place| 0 <= i < r@.len() ==> #[trigger] r@[i].count(p) == self.structure().sparse_count(self.nodes()[i], p),
    {
        let mut r: Vec<Marking<T>> = Vec::new();
        let mut i: usize = 0;
        while i < self.markings.len()
            invariant
                self.shape_wf(),
                0 <= i <= self.nodes().len(),
                r@.len() == i,
                forall|k: int| 0 <= k < i ==> (#[trigger] r@[k]).wf(),
                forall|k: int, p: Place| 0 <= k < i ==> #[trigger] r@[k].count(p) == self.structure().sparse_count(self.nodes()[k], p),
            decreases self.nodes().len() - i,
        {
            r.push(self.marking_at(i));
            i = i + 1;
        }
        r
    }

    /// The index of the node holding the dense marking `m`, if any.
    fn index_of(&self, m: &Vec<T>) -> (r: Option<usize>)
        requires
            self.shape_wf(),
        ensures
            r is None <==> !self.nodes().contains(m@),
            r matches Some(d) ==> d < self.nodes().len() && self.nodes()[d as int] == m@,
    {
        let mut d: usize = 0;
        while d < self.markings.len()
            invariant
                0 <= d <= self.markings@.len(),
                forall|k: int| 0 <= k < d ==> (#[trigger] self.markings@[k])@ != m@,
            decreases self.markings@.len() - d,
        {
            if same_marking(&self.markings[d], m) {
                proof {
                    assert(self.nodes()[d as int] == self.markings@[d as int]@);
                }
                return Some(d);
            }
            d = d + 1;
        }
        proof {
            if self.nodes().contains(m@) {
                let k = choose|k: int| 0 <= k < self.nodes().len() && self.nodes()[k] == m@;
                assert(self.nodes()[k] == self.markings@[k]@);
            }
        }
        None
    }

    /// Whether `marking` is a node of the graph (exact presence, not coverage).
    pub fn contains_marking(&self, marking: Marking<T>) -> (r: bool)
        requires
            self.shape_wf(),
            marking.wf(),
        ensures
            r == self.nodes().contains(self.structure().dense_of(marking)),
    {
        let d = self.net.dense_marking(&marking);
        self.index_of(&d).is_some()
    }

    /// The initial marking.
    pub fn initial_marking(&self) -> (r: Marking<T>)
        requires
            self.shape_wf(),
        ensures
            r.wf(),
            forall|p: Place| #[trigger] r.count(p) == self.structure().sparse_count(self.nodes()[0], p),
    {
        self.marking_at(0)
    }

    /// The largest count of the `j`-th place over all nodes.
    fn column_max(&self, j: usize) -> (r: T)
        requires
            self.shape_wf(),
            j < self.structure().np(),
        ensures
            forall|i: int| 0 <= i < self.nodes().len() ==> (#[trigger] self.nodes()[i])[j as int].leq(r),
            exists|i: int| 0 <= i < self.nodes().len() && (#[trigger] self.nodes()[i])[j as int] == r,
    {
        let mut best = self.markings[0][j];
        proof {
            assert(self.nodes()[0] == self.markings@[0]@);
            T::lemma_total_order(best, best, best);
        }
        let mut i: usize = 1;
        while i < self.markings.len()
            invariant
                self.shape_wf(),
                j < self.structure().np(),
                1 <= i <= self.nodes().len(),
                forall|k: int| 0 <= k < i ==> (#[trigger] self.nodes()[k])[j as int].leq(best),
                exists|k: int| 0 <= k < i && (#[trigger] self.nodes()[k])[j as int] == best,
            decreases self.nodes().len() - i,
        {
            let v = self.markings[i][j];
            proof {
                assert(self.nodes()[i as int] == self.markings@[i as int]@);
            }
            if !v.less_eq(&best) {
                proof {
                    T::lemma_total_order(v, best, v);
                    assert forall|k: int| 0 <= k < i + 1 implies (#[trigger] self.nodes()[k])[j as int].leq(v) by {
                        if k < i {
                            T::lemma_total_order(self.nodes()[k][j as int], best, v);
                        } else {
                            T::lemma_total_order(v, v, v);
                        }
                    }
                }
                best = v;
            }
            i = i + 1;
        }
        best
    }

    /// For each place, the largest count it holds in any node.
    pub fn place_bounds(&self) -> (r: Marking<T>)
        requires
            self.shape_wf(),
        ensures
            r.wf(),
            forall|p: Place| #[trigger] is_bound_of(self.structure(), self.nodes(), p, r.count(p)),
    {
        let np = self.net.num_places();
        let mut b: Vec<T> = Vec::new();
        let mut j: usize = 0;
        while j < np
            invariant
                self.shape_wf(),
                np == self.structure().np(),
                0 <= j <= np,
                b@.len() == j,
                forall|k: int, i: int| 0 <= k < j && 0 <= i < self.nodes().len() ==> (#[trigger] self.nodes()[i])[k].leq(#[trigger] b@[k]),
                forall|k: int| 0 <= k < j ==> exists|i: int| 0 <= i < self.nodes().len() && (#[trigger] self.nodes()[i])[k] == #[trigger] b@[k],
            decreases np - j,
        {
            b.push(self.column_max(j));
            j = j + 1;
        }
        let r = self.net.sparse_marking(&b);
        proof {
            let net = self.structure();
            assert forall|p: Place| #[trigger] is_bound_of(net, self.nodes(), p, r.count(p)) by {
                if net.place_set().contains(p) {
                    let k = choose|k: int| 0 <= k < net.np() && net.place_seq()[k] == p;
                    net.lemma_sparse_count_at(b@, k);
                    assert forall|i: int| 0 <= i < self.nodes().len() implies (#[trigger] net.sparse_count(self.nodes()[i], p)).leq(r.count(p)) by {
                        net.lemma_sparse_count_at(self.nodes()[i], k);
                    }
                    let i = choose|i: int| 0 <= i < self.nodes().len() && (#[trigger] self.nodes()[i])[k] == b@[k];
                    net.lemma_sparse_count_at(self.nodes()[i], k);
                } else {
                    T::lemma_total_order(T::zero_spec(), T::zero_spec(), T::zero_spec());
                    assert(r.count(p) == net.sparse_count(self.nodes()[0], p));
                }
            }
        }
        r
    }

    /// The largest count `p` holds in any node (zero for a place not in the net).
    pub fn place_bound(&self, p: Place) -> (r: T)
        requires
            self.shape_wf(),
        ensures
            is_bound_of(self.structure(), self.nodes(), p, r),
    {
        let net = self.net;
        match net.place_index(p) {
            Some(j) => {
                let r = self.column_max(j);
                proof {
                    assert forall|i: int| 0 <= i < self.nodes().len() implies (#[trigger] net.sparse_count(self.nodes()[i], p)).leq(r) by {
                        net.lemma_sparse_count_at(self.nodes()[i], j as int);
                    }
                    let i = choose|i: int| 0 <= i < self.nodes().len() && (#[trigger] self.nodes()[i])[j as int] == r;
                    net.lemma_sparse_count_at(self.nodes()[i], j as int);
                    assert(r == net.sparse_count(self.nodes()[i], p));
                }
                r
            },
            None => {
                proof {
                    T::lemma_total_order(T::zero_spec(), T::zero_spec(), T::zero_spec());
                    assert(T::zero_spec() == net.sparse_count(self.nodes()[0], p));
                }
                T::zero()
            },
        }
    }

    /// The first node that covers `target` (holds at least as many tokens on every place), if any.
    pub fn cover(&self, target: Marking<T>) -> (r: Option<Marking<T>>)
        requires
            self.shape_wf(),
            target.wf(),
        ensures
            r is Some <==> exists|i: int| 0 <= i < self.nodes().len() && le_all(self.structure().dense_of(target), #[trigger] self.nodes()[i]),
            r matches Some(m) ==> m.wf() && exists|i: int| 0 <= i < self.nodes().len()
                && le_all(self.structure().dense_of(target), #[trigger] self.nodes()[i])
                && forall|p: Place| #[trigger] m.count(p) == self.structure().sparse_count(self.nodes()[i], p),
    {
        let d = self.net.dense_marking(&target);
        let mut i: usize = 0;
        while i < self.markings.len()
            invariant
                self.shape_wf(),
                d@ == self.structure().dense_of(target),
                0 <= i <= self.nodes().len(),
                forall|k: int| 0 <= k < i ==> !le_all(d@, #[trigger] self.nodes()[k]),
            decreases self.nodes().len() - i,
        {
            proof {
                assert(self.nodes()[i as int] == self.markings@[i as int]@);
            }
            if le_marking(&d, &self.markings[i]) {
                return Some(self.marking_at(i));
            }
            i = i + 1;
        }
        None
    }

    /// The markings of the graph that enable no transition, in node order.
    pub fn deadlocks(&self) -> (r: Vec<Marking<T>>)
        requires
            self.shape_wf(),
        ensures
            forall|k: int| 0 <= k < r@.len() ==> (#[trigger] r@[k]).wf() && shows_dead_node(self.structure(), self.nodes(), r@[k]),
            forall|i: int| 0 <= i < self.nodes().len() && is_dead(self.structure(), #[trigger] self.nodes()[i]) ==> shown_in(self.structure(), r@, self.nodes()[i]),
    {
        let mut r: Vec<Marking<T>> = Vec::new();
        let mut i: usize = 0;
        while i < self.markings.len()
            invariant
                self.shape_wf(),
                0 <= i <= self.nodes().len(),
                forall|k: int| 0 <= k < r@.len() ==> (#[trigger] r@[k]).wf() && exists|j: int| 0 <= j < self.nodes().len()
                    && is_dead(self.structure(), #[trigger] self.nodes()[j]) && shows(self.structure(), r@[k], self.nodes()[j]),
                forall|j: int| 0 <= j < i && is_dead(self.structure(), #[trigger] self.nodes()[j]) ==> exists|k: int|
                    0 <= k < r@.len() && shows(self.structure(), #[trigger] r@[k], self.nodes()[j]),
            decreases self.nodes().len() - i,
        {
            proof {
                assert(self.nodes()[i as int] == self.markings@[i as int]@);
            }
            if is_dead_exec(self.net, &self.markings[i]) {
                let m = self.marking_at(i);
                let ghost r0 = r@;
                r.push(m);
                proof {
                    assert forall|k: int| 0 <= k < r@.len() implies (#[trigger] r@[k]).wf() && exists|j: int| 0 <= j < self.nodes().len()
                        && is_dead(self.structure(), #[trigger] self.nodes()[j]) && shows(self.structure(), r@[k], self.nodes()[j]) by {
                        if k < r0.len() {
                            assert(r@[k] == r0[k]);
                        } else {
                            assert(is_dead(self.structure(), self.nodes()[i as int]));
                            assert(shows(self.structure(), r@[k], self.nodes()[i as int]));
                        }
                    }
                    assert forall|j: int| 0 <= j < i + 1 && is_dead(self.structure(), #[trigger] self.nodes()[j]) implies exists|k: int|
                        0 <= k < r@.len() && shows(self.structure(), #[trigger] r@[k], self.nodes()[j]) by {
                        if j < i {
                            let k = choose|k: int| 0 <= k < r0.len() && shows(self.structure(), #[trigger] r0[k], self.nodes()[j]);
                            assert(r@[k] == r0[k]);
                        } else {
                            assert(r@[r0.len() as int] == m);
                            assert(shows(self.structure(), r@[r0.len() as int], self.nodes()[j]));
                        }
                    }
                }
            }
            i = i + 1;
        }
        r
    }

    /// Whether every marking of the graph enables some transition.
    pub fn is_deadlock_free(&self) -> (r: bool)
        requires
            self.shape_wf(),
        ensures
            r == forall|i: int| 0 <= i < self.nodes().len() ==> !is_dead(self.structure(), #[trigger] self.nodes()[i]),
    {
        let mut i: usize = 0;
        while i < self.markings.len()
            invariant
                self.shape_wf(),
                0 <= i <= self.nodes().len(),
                forall|k: int| 0 <= k < i ==> !is_dead(self.structure(), #[trigger] self.nodes()[k]),
            decreases self.nodes().len() - i,
        {
            proof {
                assert(self.nodes()[i as int] == self.markings@[i as int]@);
            }
            if is_dead_exec(self.net, &self.markings[i]) {
                return false;
            }
            i = i + 1;
        }
        true
    }

    /// Whether some marking of the graph enables no transition.
    pub fn has_reachable_deadlock(&self) -> (r: bool)
        requires
            self.shape_wf(),
        ensures
            r == exists|i: int| 0 <= i < self.nodes().len() && is_dead(self.structure(), #[trigger] self.nodes()[i]),
    {
        !self.is_deadlock_free()
    }

    /// The largest count any place holds in any marking of the graph.
    pub fn max_token_in_any_place(&self) -> (r: T)
        requires
            self.shape_wf(),
        ensures
            forall|i: int, j: int| 0 <= i < self.nodes().len() && 0 <= j < self.structure().np() ==> (#[trigger] self.nodes()[i][j]).leq(r),
            exists|i: int, j: int| 0 <= i < self.nodes().len() && 0 <= j < self.structure().np() && (#[trigger] self.nodes()[i][j]) == r,
    {
        proof {
            self.structure().lemma_wf();
        }
        let np = self.net.num_places();
        let mut best = self.column_max(0);
        let mut j: usize = 1;
        while j < np
            invariant
                self.shape_wf(),
                np == self.structure().np(),
                1 <= j <= np,
                forall|i: int, k: int| 0 <= i < self.nodes().len() && 0 <= k < j ==> (#[trigger] self.nodes()[i][k]).leq(best),
                exists|i: int, k: int| 0 <= i < self.nodes().len() && 0 <= k < j && (#[trigger] self.nodes()[i][k]) == best,
            decreases np - j,
        {
            let v = self.column_max(j);
            if !v.less_eq(&best) {
                proof {
                    T::lemma_total_order(v, best, v);
                    assert forall|i: int, k: int| 0 <= i < self.nodes().len() && 0 <= k < j + 1 implies (#[trigger] self.nodes()[i][k]).leq(v) by {
                        if k < j {
                            T::lemma_total_order(self.nodes()[i][k], best, v);
                        }
                    }
                }
                best = v;
            } else {
                proof {
                    assert forall|i: int, k: int| 0 <= i < self.nodes().len() && 0 <= k < j + 1 implies (#[trigger] self.nodes()[i][k]).leq(best) by {
                        if k == j {
                            T::lemma_total_order(self.nodes()[i][k], v, best);
                        }
                    }
                }
            }
            j = j + 1;
        }
        best
    }

    /// Whether no marking of the graph puts more than one token on any place.
    pub fn is_one_safe(&self) -> (r: bool)
        requires
            self.shape_wf(),
        ensures
            r == forall|i: int, j: int| 0 <= i < self.nodes().len() && 0 <= j < self.structure().np() ==> (#[trigger] self.nodes()[i][j]).leq(T::one_spec()),
    {
        let m = self.max_token_in_any_place();
        let one = T::one();
        let r = m.less_eq(&one);
        proof {
            if r {
                assert forall|i: int, j: int| 0 <= i < self.nodes().len() && 0 <= j < self.structure().np() implies (#[trigger] self.nodes()[i][j]).leq(T::one_spec()) by {
                    T::lemma_total_order(self.nodes()[i][j], m, one);
                }
            } else {
                let (i, j) = choose|i: int, j: int| 0 <= i < self.nodes().len() && 0 <= j < self.structure().np() && (#[trigger] self.nodes()[i][j]) == m;
            }
        }
        r
    }

    /// Whether some place holds the same count in every marking of the graph.
    pub fn has_stable_place(&self) -> (r: bool)
        requires
            self.shape_wf(),
        ensures
            r == exists|j: int| 0 <= j < self.structure().np() && #[trigger] stable_column(self.nodes(), j),
    {
        let np = self.net.num_places();
        let mut j: usize = 0;
        while j < np
            invariant
                self.shape_wf(),
                np == self.structure().np(),
                0 <= j <= np,
                forall|k: int| 0 <= k < j ==> !#[trigger] stable_column(self.nodes(), k),
            decreases np - j,
        {
            let base = self.markings[0][j];
            proof {
                assert(self.nodes()[0] == self.markings@[0]@);
            }
            let mut i: usize = 1;
            let mut stable = true;
            while i < self.markings.len()
                invariant
                    self.shape_wf(),
                    j < np,
                    np == self.structure().np(),
                    base == self.nodes()[0][j as int],
                    1 <= i <= self.nodes().len(),
                    stable == forall|k: int| 0 <= k < i ==> (#[trigger] self.nodes()[k])[j as int] == base,
                decreases self.nodes().len() - i,
            {
                proof {
                    assert(self.nodes()[i as int] == self.markings@[i as int]@);
                }
                if !self.markings[i][j].same(&base) {
                    stable = false;
                }
                i = i + 1;
            }
            if stable {
                proof {
                    assert(stable_column(self.nodes(), j as int));
                }
                return true;
            }
            j = j + 1;
        }
        false
    }

    /// The firing sequence that discovered the node holding `target`, if `target`
    /// is a node; for a reachability graph it leads from the initial marking to `target`.
    pub fn find_path_from_initial(&self, target: Marking<T>) -> (r: Option<Vec<Transition>>)
        requires
            self.shape_wf(),
            target.wf(),
        ensures
            r is Some <==> self.nodes().contains(self.structure().dense_of(target)),
            r matches Some(v) ==> exists|i: int| 0 <= i < self.nodes().len() && #[trigger] self.nodes()[i] == self.structure().dense_of(target)
                && v@.len() == self.path_to(i).len()
                && forall|k: int| 0 <= k < v@.len() ==> v@[k] == self.structure().transition_seq()[#[trigger] self.path_to(i)[k]],
    {
        let d = self.net.dense_marking(&target);
        let found = self.index_of(&d);
        match found {
            None => None,
            Some(target_idx) => {
                let mut rev: Vec<usize> = Vec::new();
                let mut cur = target_idx;
                while cur != 0
                    invariant
                        self.shape_wf(),
                        cur < self.nodes().len(),
                        target_idx < self.nodes().len(),
                        forall|k: int| 0 <= k < rev@.len() ==> #[trigger] rev@[k] < self.structure().nt(),
                        self.path_to(target_idx as int) == self.path_to(cur as int) + Seq::new(rev@.len(), |k: int| rev@[rev@.len() - 1 - k] as int),
                    decreases cur,
                {
                    let (src, t) = self.parents[cur];
                    let ghost rv0 = rev@;
                    rev.push(t);
                    proof {
                        assert(self.path_to(cur as int) == self.path_to(src as int).push(t as int));
                        assert(self.path_to(src as int).push(t as int) + Seq::new(rv0.len(), |k: int| rv0[rv0.len() - 1 - k] as int)
                            =~= self.path_to(src as int) + Seq::new(rev@.len(), |k: int| rev@[rev@.len() - 1 - k] as int));
                    }
                    cur = src;
                }
                proof {
                    assert(self.path_to(0) == Seq::<int>::empty());
                    assert(Seq::<int>::empty() + Seq::new(rev@.len(), |k: int| rev@[rev@.len() - 1 - k] as int)
                        =~= Seq::new(rev@.len(), |k: int| rev@[rev@.len() - 1 - k] as int));
                }
                let mut v: Vec<Transition> = Vec::new();
                let mut k: usize = rev.len();
                while k > 0
                    invariant
                        self.shape_wf(),
                        0 <= k <= rev@.len(),
                        forall|m: int| 0 <= m < rev@.len() ==> #[trigger] rev@[m] < self.structure().nt(),
                        v@.len() == rev@.len() - k,
                        forall|m: int| 0 <= m < v@.len() ==> v@[m] == self.structure().transition_seq()[rev@[rev@.len() - 1 - m] as int],
                    decreases k,
                {
                    k = k - 1;
                    v.push(self.net.transition_at(rev[k]));
                }
                Some(v)
            },
        }
    }
}

impl<'a> StateGraph<'a, u32> {
    /// The largest total number of tokens in any marking of the graph.
    ///
    /// Every total must fit in a `u32`.
    pub fn max_token_per_marking(&self) -> (r: u32)
        requires
            self.shape_wf(),
            forall|i: int| 0 <= i < self.nodes().len() ==> dense_sum(#[trigger] self.nodes()[i]) <= u32::MAX,
        ensures
            forall|i: int| 0 <= i < self.nodes().len() ==> dense_sum(#[trigger] self.nodes()[i]) <= r,
            exists|i: int| 0 <= i < self.nodes().len() && dense_sum(#[trigger] self.nodes()[i]) == r,
    {
        let mut best: u32 = 0;
        let mut i: usize = 0;
        while i < self.markings.len()
            invariant
                self.shape_wf(),
                forall|k: int| 0 <= k < self.nodes().len() ==> dense_sum(#[trigger] self.nodes()[k]) <= u32::MAX,
                0 <= i <= self.nodes().len(),
                forall|k: int| 0 <= k < i ==> dense_sum(#[trigger] self.nodes()[k]) <= best,
                i == 0 ==> best == 0,
                i > 0 ==> exists|k: int| 0 <= k < i && dense_sum(#[trigger] self.nodes()[k]) == best,
            decreases self.nodes().len() - i,
        {
            proof {
                assert(self.nodes()[i as int] == self.markings@[i as int]@);
            }
            let s = sum_dense(&self.markings[i]);
            if i == 0 || s > best {
                best = s;
            }
            i = i + 1;
        }
        best
    }
}

/// The sum of a dense marking's counts.
pub open spec fn dense_sum(m: Seq<u32>) -> int
    decreases m.len(),
{
    if m.len() == 0 {
        0
    } else {
        dense_sum(m.drop_last()) + m.last()
    }
}

proof fn lemma_dense_sum_prefix(m: Seq<u32>, k: int)
    requires
        0 <= k <= m.len(),
    ensures
        dense_sum(m.subrange(0, k)) <= dense_sum(m),
    decreases m.len() - k,
{
    if k < m.len() {
        lemma_dense_sum_prefix(m, k + 1);
        assert(m.subrange(0, k + 1).drop_last() =~= m.subrange(0, k));
    } else {
        assert(m.subrange(0, k) =~= m);
    }
}

fn sum_dense(m: &Vec<u32>) -> (r: u32)
    requires
        dense_sum(m@) <= u32::MAX,
    ensures
        r == dense_sum(m@),
{
    let mut total: u32 = 0;
    let mut i: usize = 0;
    while i < m.len()
        invariant
            0 <= i <= m@.len(),
            dense_sum(m@) <= u32::MAX,
            total == dense_sum(m@.subrange(0, i as int)),
        decreases m@.len() - i,
    {
        proof {
            assert(m@.subrange(0, i + 1).drop_last() =~= m@.subrange(0, i as int));
            lemma_dense_sum_prefix(m@, i + 1);
        }
        total = total + m[i];
        i = i + 1;
    }
    proof {
        assert(m@.subrange(0, i as int) =~= m@);
    }
    total
}


impl<'a> StateGraphExplorer<'a, Omega> {
    /// The number of distinct markings discovered so far.
    pub fn marking_count(&self) -> (r: usize)
        ensures
            r == self.graph_spec().nodes().len(),
    {
        self.graph.marking_count()
    }

    /// The number of edges discovered so far.
    pub fn transition_count(&self) -> (r: usize)
        ensures
            r == self.graph_spec().edge_seq().len(),
    {
        self.graph.transition_count()
    }

    /// The initial marking.
    pub fn initial_marking(&self) -> (r: Marking<Omega>)
        requires
            self.wf(),
        ensures
            r.wf(),
            shows(self.graph_spec().structure(), r, self.graph_spec().nodes()[0]),
    {
        self.graph.initial_marking()
    }

    /// Whether `marking` has been discovered so far.
    pub fn contains_marking(&self, marking: Marking<Omega>) -> (r: bool)
        requires
            self.wf(),
            marking.wf(),
        ensures
            r == self.graph_spec().nodes().contains(self.graph_spec().structure().dense_of(marking)),
    {
        self.graph.contains_marking(marking)
    }

    /// The markings discovered so far that enable no transition.
    pub fn deadlocks(&self) -> (r: Vec<Marking<Omega>>)
        requires
            self.wf(),
        ensures
            forall|k: int| 0 <= k < r@.len() ==> (#[trigger] r@[k]).wf() && shows_dead_node(self.graph_spec().structure(), self.graph_spec().nodes(), r@[k]),
            forall|i: int| 0 <= i < self.graph_spec().nodes().len() && is_dead(self.graph_spec().structure(), #[trigger] self.graph_spec().nodes()[i])
                ==> shown_in(self.graph_spec().structure(), r@, self.graph_spec().nodes()[i]),
    {
        self.graph.deadlocks()
    }

    /// The firing sequence that discovered `target`, if it has been discovered.
    pub fn find_path_from_initial(&self, target: Marking<Omega>) -> (r: Option<Vec<Transition>>)
        requires
            self.wf(),
            target.wf(),
        ensures
            r is Some <==> self.graph_spec().nodes().contains(self.graph_spec().structure().dense_of(target)),
            r matches Some(v) ==> exists|i: int| 0 <= i < self.graph_spec().nodes().len()
                && #[trigger] self.graph_spec().nodes()[i] == self.graph_spec().structure().dense_of(target)
                && v@.len() == self.graph_spec().path_to(i).len()
                && forall|k: int| 0 <= k < v@.len() ==> v@[k] == self.graph_spec().structure().transition_seq()[#[trigger] self.graph_spec().path_to(i)[k]],
    {
        self.graph.find_path_from_initial(target)
    }
}

impl<'a> StateGraph<'a, Omega> {
    /// Whether some marking of the graph holds `ω`.
    pub fn has_omega_marking(&self) -> (r: bool)
        ensures
            r == exists|i: int| 0 <= i < self.nodes().len() && !is_finite_seq(#[trigger] self.nodes()[i]),
    {
        let mut i: usize = 0;
        while i < self.markings.len()
            invariant
                0 <= i <= self.markings@.len(),
                forall|k: int| 0 <= k < i ==> is_finite_seq(#[trigger] self.nodes()[k]),
            decreases self.markings@.len() - i,
        {
            proof {
                assert(self.nodes()[i as int] == self.markings@[i as int]@);
            }
            if dense_has_omega(&self.markings[i]) {
                return true;
            }
            i = i + 1;
        }
        false
    }

    /// Whether every marking of the graph is finite; for a complete graph,
    /// whether the system is bounded.
    pub fn is_bounded(&self) -> (r: bool)
        ensures
            r == forall|i: int| 0 <= i < self.nodes().len() ==> is_finite_seq(#[trigger] self.nodes()[i]),
    {
        !self.has_omega_marking()
    }
}


/// Whether `t` fires on a cycle of markings reached from `m0`: some firing
/// sequence `s` leads from `m0` to a marking `m`, and a sequence `c` that
/// fires `t` leads from `m` back to `m`. Repeating `c` forever is then an
/// infinite firing sequence from `m0` that fires `t` infinitely often.
pub open spec fn fires_on_cycle(net: Net, m0: Seq<u32>, t: int) -> bool {
    exists|s: Seq<int>, c: Seq<int>, j: int| 0 <= j < c.len() && #[trigger] c[j] == t && net.run(m0, s) is Some
        && #[trigger] net.run(net.run(m0, s).unwrap(), c) == Some(net.run(m0, s).unwrap())
}

/// Whether `t` fires in some marking reached from `m0`.
pub open spec fn fires_somewhere(net: Net, m0: Seq<u32>, t: int) -> bool {
    exists|s: Seq<int>| #[trigger] net.run(m0, s) is Some && net.fires(net.run(m0, s).unwrap(), t)
}

/// Whether `t` can still be made to fire from every marking reached from
/// `m0`: after some continuation of any run, `t` fires.
pub open spec fn fires_from_everywhere(net: Net, m0: Seq<u32>, t: int) -> bool {
    forall|s: Seq<int>| #[trigger] net.run(m0, s) is Some ==> exists|c: Seq<int>|
        #[trigger] net.run(net.run(m0, s).unwrap(), c) is Some && net.fires(net.run(net.run(m0, s).unwrap(), c).unwrap(), t)
}

/// Firing `t` and then `c` runs as `c` does from the marking `t` leads to.
proof fn lemma_run_prepend(net: Net, m: Seq<u32>, t: int, c: Seq<int>)
    requires
        net.fires(m, t),
    ensures
        net.run(m, seq![t] + c) == net.run(net.fire_spec(m, t), c),
    decreases c.len(),
{
    let x = seq![t] + c;
    if c.len() == 0 {
        assert(x =~= seq![t]);
        assert(x.drop_last() =~= Seq::<int>::empty());
        assert(x.last() == t);
        assert(net.run(m, x.drop_last()) == Some(m));
        assert(net.run(m, x) == Some(net.fire_spec(m, t)));
        assert(net.run(net.fire_spec(m, t), c) == Some(net.fire_spec(m, t)));
    } else {
        lemma_run_prepend(net, m, t, c.drop_last());
        assert(x.drop_last() =~= seq![t] + c.drop_last());
        assert(x.last() == c.last());
        assert(net.run(m, x.drop_last()) == net.run(net.fire_spec(m, t), c.drop_last()));
    }
}

/// A node reaches itself.
proof fn lemma_rel_refl(rel: spec_fn(usize, usize) -> bool, x: usize)
    ensures
        rel_reaches(rel, set![x], x),
{
}

/// A node reaches the target of one step.
proof fn lemma_rel_step(rel: spec_fn(usize, usize) -> bool, x: usize, y: usize)
    requires
        rel(x, y),
    ensures
        rel_reaches(rel, set![x], y),
{
    assert forall|s: Set<usize>| #[trigger] rel_closed(rel, s) && set![x].subset_of(s) implies s.contains(y) by {
        assert(s.contains(x));
    }
}

/// Reaching is transitive.
proof fn lemma_rel_trans(rel: spec_fn(usize, usize) -> bool, x: usize, y: usize, z: usize)
    requires
        rel_reaches(rel, set![x], y),
        rel_reaches(rel, set![y], z),
    ensures
        rel_reaches(rel, set![x], z),
{
    assert forall|s: Set<usize>| #[trigger] rel_closed(rel, s) && set![x].subset_of(s) implies s.contains(z) by {
        assert(s.contains(y));
        assert(set![y].subset_of(s));
    }
}

impl<'a> StateGraph<'a, u32> {
    /// One edge of the graph, from node `a` to node `b`.
    pub open spec fn graph_step(&self) -> spec_fn(usize, usize) -> bool {
        |a: usize, b: usize| exists|k: int| 0 <= k < self.edge_seq().len() && #[trigger] self.edge_seq()[k] == (a, self.edge_seq()[k].1, b)
    }

    /// One edge of the graph taken backwards, from node `a` to node `b`.
    pub open spec fn back_step(&self) -> spec_fn(usize, usize) -> bool {
        |a: usize, b: usize| (self.graph_step())(b, a)
    }

    /// The nodes in which an edge labelled with the transition at dense index `t` starts.
    pub open spec fn sources_of(&self, t: usize) -> Set<usize> {
        Set::new(|a: usize| exists|k: int| 0 <= k < self.edge_seq().len() && (#[trigger] self.edge_seq()[k]).1 == t && self.edge_seq()[k].0 == a)
    }

    /// The liveness level of the transition at dense index `t`, read off the
    /// graph: L0 if no edge carries it; L4 if from every node some path leads
    /// to an edge carrying it; L3 if an edge carrying it lies on a cycle; L1
    /// otherwise.
    pub open spec fn graph_level(&self, t: usize) -> LivenessLevel {
        if !(exists|k: int| 0 <= k < self.edge_seq().len() && (#[trigger] self.edge_seq()[k]).1 == t) {
            LivenessLevel::L0
        } else if forall|i: usize| i < self.nodes().len() ==> #[trigger] rel_reaches(self.back_step(), self.sources_of(t), i) {
            LivenessLevel::L4
        } else if exists|k: int| 0 <= k < self.edge_seq().len() && (#[trigger] self.edge_seq()[k]).1 == t
            && rel_reaches(self.graph_step(), set![self.edge_seq()[k].2], self.edge_seq()[k].0) {
            LivenessLevel::L3
        } else {
            LivenessLevel::L1
        }
    }

    /// On a bounded system, whose levels are read off its reachability graph,
    /// every L2-live transition is L3-live: no transition is strictly L2-live.
    pub proof fn lemma_bounded_l2_is_l3(&self, t: usize)
        ensures
            level_rank(self.graph_level(t)) >= 2 ==> level_rank(self.graph_level(t)) >= 3,
            !(self.graph_level(t) is L2),
    {
    }

    /// Firing a sequence from a node of a complete reachability graph follows
    /// its edges: the nodes passed, from `i` to the node of the marking reached,
    /// with an edge carrying each transition fired.
    #[verifier::rlimit(40)]
    proof fn lemma_run_follows_edges(&self, i: int, c: Seq<int>) -> (path: Seq<usize>)
        requires
            self.reach_wf(),
            self.complete,
            0 <= i < self.markings@.len(),
            self.structure().run(self.markings@[i]@, c) is Some,
        ensures
            path.len() == c.len() + 1,
            path[0] == i,
            forall|k: int| 0 <= k < path.len() ==> (#[trigger] path[k]) < self.markings@.len(),
            self.markings@[path.last() as int]@ == self.structure().run(self.markings@[i]@, c).unwrap(),
            forall|k: int| #![trigger c[k]] 0 <= k < c.len() ==> exists|e: int| 0 <= e < self.edges@.len() && #[trigger] self.edges@[e] == (path[k], c[k] as usize, path[k + 1]),
        decreases c.len(),
    {
        let net = self.structure();
        if c.len() == 0 {
            assert(self.markings.len() == self.markings@.len());
            let path = seq![i as usize];
            assert(path[0] as int == i);
            assert(path.last() == path[0]);
            path
        } else {
            let pre = c.drop_last();
            let p0 = self.lemma_run_follows_edges(i, pre);
            let n = p0.last() as int;
            let t = c.last();
            assert(net.run(self.markings@[i]@, pre) == Some(self.markings@[n]@));
            assert(net.fires(self.markings@[n]@, t));
            assert(net.run(self.markings@[i]@, c) == Some(net.fire_spec(self.markings@[n]@, t)));
            let e = choose|e: int| 0 <= e < self.edges@.len() && (#[trigger] self.edges@[e]).0 as int == n && self.edges@[e].1 as int == t;
            let d = self.edges@[e].2;
            assert(self.markings@[d as int]@ == net.fire_spec(self.markings@[n]@, t));
            let path = p0.push(d);
            assert(path[0] == p0[0]);
            assert(path.last() == d);
            assert forall|k: int| #![trigger c[k]] 0 <= k < c.len() implies exists|e2: int| 0 <= e2 < self.edges@.len() && #[trigger] self.edges@[e2] == (path[k], c[k] as usize, path[k + 1]) by {
                if k < pre.len() {
                    assert(c[k] == pre[k]);
                    assert(path[k] == p0[k] && path[k + 1] == p0[k + 1]);
                } else {
                    assert(self.edges@[e] == (path[k], c[k] as usize, path[k + 1]));
                }
            }
            path
        }
    }

    /// A closed set that holds a node of a walk holds every later node of it.
    proof fn lemma_walk_closed(&self, path: Seq<usize>, a: int, b: int, s: Set<usize>)
        requires
            rel_closed(self.graph_step(), s),
            0 <= a <= b < path.len(),
            s.contains(path[a]),
            forall|k: int| a <= k < b ==> #[trigger] (self.graph_step())(path[k], path[k + 1]),
        ensures
            s.contains(path[b]),
        decreases b - a,
    {
        if a < b {
            assert((self.graph_step())(path[a], path[a + 1]));
            self.lemma_walk_closed(path, a + 1, b, s);
        }
    }

    /// The nodes reachable from node `x` along edges.
    pub open spec fn reach_set(&self, x: usize) -> Set<usize> {
        Set::new(|y: usize| rel_reaches(self.graph_step(), set![x], y))
    }

    /// The nodes reachable from `x` are finitely many nodes of the graph.
    proof fn lemma_reach_set_finite(&self, x: usize)
        requires
            self.shape_wf(),
            x < self.markings@.len(),
        ensures
            self.reach_set(x).finite(),
            forall|y: usize| #[trigger] self.reach_set(x).contains(y) ==> y < self.markings@.len(),
    {
        let len = self.markings@.len();
        assert(self.markings.len() == self.markings@.len());
        let nodes = Set::new(|y: usize| y < len);
        assert(rel_closed(self.graph_step(), nodes)) by {
            assert forall|a: usize, b: usize| #[trigger] nodes.contains(a) && #[trigger] (self.graph_step())(a, b) implies nodes.contains(b) by {
                let k = choose|k: int| 0 <= k < self.edge_seq().len() && #[trigger] self.edge_seq()[k] == (a, self.edge_seq()[k].1, b);
                assert(self.edges@[k].2 < len);
            }
        }
        assert forall|y: usize| #[trigger] self.reach_set(x).contains(y) implies y < len by {
            assert(set![x].subset_of(nodes));
        }
        let f = |i: int| i as usize;
        lemma_int_range(0, len as int);
        assert(set_int_range(0, len as int).map(f) =~= nodes) by {
            assert forall|y: usize| nodes.contains(y) implies set_int_range(0, len as int).map(f).contains(y) by {
                assert(set_int_range(0, len as int).contains(y as int) && y == f(y as int));
            }
        }
        lemma_map_size_bound(set_int_range(0, len as int), nodes, f);
        lemma_len_subset(self.reach_set(x), nodes);
    }

    /// A node whose reachable set is smallest among the first `n` nodes.
    proof fn lemma_min_reach(&self, n: int) -> (x: usize)
        requires
            self.shape_wf(),
            1 <= n <= self.markings@.len(),
        ensures
            x < n,
            forall|y: usize| y < n ==> self.reach_set(x).len() <= #[trigger] self.reach_set(y).len(),
        decreases n,
    {
        assert(self.markings.len() == self.markings@.len());
        if n == 1 {
            0
        } else {
            let x0 = self.lemma_min_reach(n - 1);
            let last = (n - 1) as usize;
            if self.reach_set(last).len() < self.reach_set(x0).len() {
                last
            } else {
                x0
            }
        }
    }

    /// When an edge carries `t` out of a node from which the edge's target is
    /// reached again, `t` fires on a cycle of markings reached from the
    /// initial one.
    proof fn lemma_cycle_edge_fires_on_cycle(&self, k: int)
        requires
            self.reach_wf(),
            0 <= k < self.edges@.len(),
            rel_reaches(self.graph_step(), set![self.edges@[k].2], self.edges@[k].0),
        ensures
            fires_on_cycle(self.structure(), self.initial_spec(), self.edges@[k].1 as int),
    {
        let net = self.structure();
        let (a, t, b) = self.edges@[k];
        let ma = self.markings@[a as int]@;
        let back = Set::new(|y: usize| y < self.markings@.len() && exists|c: Seq<int>| c.len() > 0 && c[0] == t as int
            && #[trigger] net.run(ma, c) == Some(self.markings@[y as int]@));
        assert(net.fires(ma, t as int));
        net.lemma_run_push(ma, Seq::<int>::empty(), t as int);
        assert(Seq::<int>::empty().push(t as int) =~= seq![t as int]);
        assert(net.run(ma, seq![t as int]) == Some(self.markings@[b as int]@));
        assert(back.contains(b));
        assert(rel_closed(self.graph_step(), back)) by {
            assert forall|x: usize, y: usize| #[trigger] back.contains(x) && #[trigger] (self.graph_step())(x, y) implies back.contains(y) by {
                let e = choose|e: int| 0 <= e < self.edge_seq().len() && #[trigger] self.edge_seq()[e] == (x, self.edge_seq()[e].1, y);
                let c = choose|c: Seq<int>| c.len() > 0 && c[0] == t as int && #[trigger] net.run(ma, c) == Some(self.markings@[x as int]@);
                let t2 = self.edges@[e].1 as int;
                assert(net.fires(self.markings@[x as int]@, t2));
                net.lemma_run_push(ma, c, t2);
                assert(c.push(t2)[0] == t as int);
                assert(net.run(ma, c.push(t2)) == Some(self.markings@[y as int]@));
            }
        }
        assert(set![b].subset_of(back));
        assert(back.contains(a));
        let c = choose|c: Seq<int>| c.len() > 0 && c[0] == t as int && #[trigger] net.run(ma, c) == Some(self.markings@[a as int]@);
        lemma_node_reached_by_path(*self, a as int);
        assert(self.nodes()[a as int] == ma);
        let s = self.path_to(a as int);
        assert(net.run(self.initial_spec(), s) == Some(ma));
        assert(c[0] == t as int && net.run(net.run(self.initial_spec(), s).unwrap(), c) == Some(net.run(self.initial_spec(), s).unwrap()));
    }

    /// When every node reaches an edge carrying `t`, some edge carrying `t`
    /// lies on a cycle of the graph.
    proof fn lemma_everywhere_reaching_gives_cycle_edge(&self, t: usize)
        requires
            self.shape_wf(),
            forall|i: usize| i < self.nodes().len() ==> #[trigger] rel_reaches(self.back_step(), self.sources_of(t), i),
        ensures
            exists|k: int| 0 <= k < self.edge_seq().len() && (#[trigger] self.edge_seq()[k]).1 == t
                && rel_reaches(self.graph_step(), set![self.edge_seq()[k].2], self.edge_seq()[k].0),
    {
        let len = self.markings@.len();
        let step = self.graph_step();
        assert(self.nodes().len() == len);
        let x = self.lemma_min_reach(len as int);
        // The nodes from which an edge carrying `t` is reached.
        let to_src = Set::new(|y: usize| exists|a: usize| #[trigger] self.sources_of(t).contains(a) && rel_reaches(step, set![y], a));
        assert(rel_closed(self.back_step(), to_src)) by {
            assert forall|y: usize, z: usize| #[trigger] to_src.contains(y) && #[trigger] (self.back_step())(y, z) implies to_src.contains(z) by {
                let a = choose|a: usize| #[trigger] self.sources_of(t).contains(a) && rel_reaches(step, set![y], a);
                lemma_rel_step(step, z, y);
                lemma_rel_trans(step, z, y, a);
            }
        }
        assert(self.sources_of(t).subset_of(to_src)) by {
            assert forall|a: usize| self.sources_of(t).contains(a) implies to_src.contains(a) by {
                lemma_rel_refl(step, a);
            }
        }
        assert(rel_reaches(self.back_step(), self.sources_of(t), x));
        assert(to_src.contains(x));
        let a = choose|a: usize| #[trigger] self.sources_of(t).contains(a) && rel_reaches(step, set![x], a);
        let k = choose|k: int| 0 <= k < self.edge_seq().len() && (#[trigger] self.edge_seq()[k]).1 == t && self.edge_seq()[k].0 == a;
        let b = self.edge_seq()[k].2;
        assert(step(a, b));
        lemma_rel_step(step, a, b);
        lemma_rel_trans(step, x, a, b);
        assert(b < len);
        self.lemma_reach_set_finite(x);
        self.lemma_reach_set_finite(b);
        assert(self.reach_set(b).subset_of(self.reach_set(x))) by {
            assert forall|y: usize| self.reach_set(b).contains(y) implies self.reach_set(x).contains(y) by {
                lemma_rel_trans(step, x, b, y);
            }
        }
        assert(self.reach_set(x).len() <= self.reach_set(b).len());
        lemma_len_subset(self.reach_set(b), self.reach_set(x));
        lemma_subset_equality(self.reach_set(b), self.reach_set(x));
        lemma_rel_refl(step, x);
        assert(self.reach_set(x).contains(x));
        assert(self.reach_set(b).contains(x));
        lemma_rel_trans(step, b, x, a);
    }

    /// On a complete reachability graph, a transition gets level L3 or L4
    /// exactly when it fires on a cycle of markings reached from the initial
    /// marking, that is, when some infinite firing sequence from the initial
    /// marking fires it infinitely often.
    pub proof fn law_l3_live_iff_fires_on_cycle(&self, t: usize)
        requires
            self.reach_wf(),
            self.is_complete(),
            t < self.structure().nt(),
        ensures
            (self.graph_level(t) is L3 || self.graph_level(t) is L4) <==> fires_on_cycle(self.structure(), self.initial_spec(), t as int),
    {
        let net = self.structure();
        let m0 = self.initial_spec();
        if fires_on_cycle(net, m0, t as int) {
            let (s, c, j) = choose|s: Seq<int>, c: Seq<int>, j: int| 0 <= j < c.len() && #[trigger] c[j] == t as int
                && net.run(m0, s) is Some && #[trigger] net.run(net.run(m0, s).unwrap(), c) == Some(net.run(m0, s).unwrap());
            self.law_cycle_transition_is_l3(s, c, j);
        }
        if self.graph_level(t) is L4 {
            self.lemma_everywhere_reaching_gives_cycle_edge(t);
        }
        if self.graph_level(t) is L3 || self.graph_level(t) is L4 {
            let k = choose|k: int| 0 <= k < self.edge_seq().len() && (#[trigger] self.edge_seq()[k]).1 == t
                && rel_reaches(self.graph_step(), set![self.edge_seq()[k].2], self.edge_seq()[k].0);
            self.lemma_cycle_edge_fires_on_cycle(k);
        }
    }

    /// A closed set of backward steps that holds a node of a walk holds every
    /// earlier node of it.
    proof fn lemma_back_walk_closed(&self, path: Seq<usize>, a: int, b: int, s: Set<usize>)
        requires
            rel_closed(self.back_step(), s),
            0 <= a <= b < path.len(),
            s.contains(path[b]),
            forall|k: int| a <= k < b ==> #[trigger] (self.graph_step())(path[k], path[k + 1]),
        ensures
            s.contains(path[a]),
        decreases b - a,
    {
        if a < b {
            let k = b - 1;
            assert((self.graph_step())(path[k], path[k + 1]));
            assert(k + 1 == b);
            assert((self.back_step())(path[b], path[b - 1]));
            self.lemma_back_walk_closed(path, a, b - 1, s);
        }
    }

    /// On a complete reachability graph, a transition is dead (L0) exactly
    /// when it fires in no marking reached from the initial marking.
    pub proof fn law_l0_iff_never_fires(&self, t: usize)
        requires
            self.reach_wf(),
            self.is_complete(),
            t < self.structure().nt(),
        ensures
            self.graph_level(t) is L0 <==> !fires_somewhere(self.structure(), self.initial_spec(), t as int),
    {
        let net = self.structure();
        let m0 = self.initial_spec();
        if fires_somewhere(net, m0, t as int) {
            let s = choose|s: Seq<int>| #[trigger] net.run(m0, s) is Some && net.fires(net.run(m0, s).unwrap(), t as int);
            lemma_run_in_graph(*self, s);
            let i = choose|i: int| 0 <= i < self.nodes().len() && self.nodes()[i] == net.run(m0, s).unwrap();
            assert(self.nodes()[i] == self.markings@[i]@);
            assert(net.fires(self.markings@[i]@, t as int));
            let e = choose|e: int| 0 <= e < self.edges@.len() && (#[trigger] self.edges@[e]).0 as int == i && self.edges@[e].1 as int == t as int;
            assert(self.edge_seq()[e].1 == t);
        }
        if exists|k: int| 0 <= k < self.edge_seq().len() && (#[trigger] self.edge_seq()[k]).1 == t {
            let k = choose|k: int| 0 <= k < self.edge_seq().len() && (#[trigger] self.edge_seq()[k]).1 == t;
            let a = self.edges@[k].0 as int;
            lemma_node_reached_by_path(*self, a);
            assert(self.nodes()[a] == self.markings@[a]@);
            assert(net.fires(self.markings@[a]@, t as int));
            let s = self.path_to(a);
            assert(net.run(m0, s) is Some && net.fires(net.run(m0, s).unwrap(), t as int));
        }
    }

    /// On a complete reachability graph, a transition is live (L4) exactly
    /// when it can be made to fire again from every marking reached from the
    /// initial marking.
    pub proof fn law_l4_iff_fires_from_everywhere(&self, t: usize)
        requires
            self.reach_wf(),
            self.is_complete(),
            t < self.structure().nt(),
        ensures
            self.graph_level(t) is L4 <==> fires_from_everywhere(self.structure(), self.initial_spec(), t as int),
    {
        let net = self.structure();
        let m0 = self.initial_spec();
        let len = self.markings@.len();
        assert(self.nodes().len() == len);
        if self.graph_level(t) is L4 {
            assert forall|s: Seq<int>| #[trigger] net.run(m0, s) is Some implies exists|c: Seq<int>|
                #[trigger] net.run(net.run(m0, s).unwrap(), c) is Some && net.fires(net.run(net.run(m0, s).unwrap(), c).unwrap(), t as int) by {
                let m = net.run(m0, s).unwrap();
                lemma_run_in_graph(*self, s);
                let i = choose|i: int| 0 <= i < self.nodes().len() && self.nodes()[i] == m;
                assert(self.nodes()[i] == self.markings@[i]@);
                assert(self.markings.len() == self.markings@.len());
                let iu = i as usize;
                assert(rel_reaches(self.back_step(), self.sources_of(t), iu));
                let good = Set::new(|y: usize| y < len && exists|c: Seq<int>| #[trigger] net.run(self.markings@[y as int]@, c) is Some
                    && net.fires(net.run(self.markings@[y as int]@, c).unwrap(), t as int));
                assert(self.sources_of(t).subset_of(good)) by {
                    assert forall|a: usize| self.sources_of(t).contains(a) implies good.contains(a) by {
                        let k = choose|k: int| 0 <= k < self.edge_seq().len() && (#[trigger] self.edge_seq()[k]).1 == t && self.edge_seq()[k].0 == a;
                        assert(net.fires(self.markings@[a as int]@, t as int));
                        assert(net.run(self.markings@[a as int]@, Seq::<int>::empty()) == Some(self.markings@[a as int]@));
                    }
                }
                assert(rel_closed(self.back_step(), good)) by {
                    assert forall|y: usize, z: usize| #[trigger] good.contains(y) && #[trigger] (self.back_step())(y, z) implies good.contains(z) by {
                        let e = choose|e: int| 0 <= e < self.edge_seq().len() && #[trigger] self.edge_seq()[e] == (z, self.edge_seq()[e].1, y);
                        let t2 = self.edges@[e].1 as int;
                        let c = choose|c: Seq<int>| #[trigger] net.run(self.markings@[y as int]@, c) is Some
                            && net.fires(net.run(self.markings@[y as int]@, c).unwrap(), t as int);
                        assert(net.fires(self.markings@[z as int]@, t2));
                        lemma_run_prepend(net, self.markings@[z as int]@, t2, c);
                        assert(net.run(self.markings@[z as int]@, seq![t2] + c) == net.run(self.markings@[y as int]@, c));
                    }
                }
                assert(good.contains(iu));
                let c = choose|c: Seq<int>| #[trigger] net.run(self.markings@[iu as int]@, c) is Some
                    && net.fires(net.run(self.markings@[iu as int]@, c).unwrap(), t as int);
                assert(net.run(m, c) is Some && net.fires(net.run(m, c).unwrap(), t as int));
            }
        }
        if fires_from_everywhere(net, m0, t as int) {
            assert(net.run(m0, Seq::<int>::empty()) == Some(m0));
            let c0 = choose|c: Seq<int>| #[trigger] net.run(net.run(m0, Seq::<int>::empty()).unwrap(), c) is Some
                && net.fires(net.run(net.run(m0, Seq::<int>::empty()).unwrap(), c).unwrap(), t as int);
            assert forall|i: usize| i < self.nodes().len() implies #[trigger] rel_reaches(self.back_step(), self.sources_of(t), i) by {
                lemma_node_reached_by_path(*self, i as int);
                assert(self.nodes()[i as int] == self.markings@[i as int]@);
                let s = self.path_to(i as int);
                let c = choose|c: Seq<int>| #[trigger] net.run(net.run(m0, s).unwrap(), c) is Some
                    && net.fires(net.run(net.run(m0, s).unwrap(), c).unwrap(), t as int);
                let path = self.lemma_run_follows_edges(i as int, c);
                let n = c.len() as int;
                let a = path[n];
                assert(net.fires(self.markings@[a as int]@, t as int));
                let e = choose|e: int| 0 <= e < self.edges@.len() && (#[trigger] self.edges@[e]).0 as int == a as int && self.edges@[e].1 as int == t as int;
                assert(self.edge_seq()[e].1 == t && self.edge_seq()[e].0 == a);
                assert(self.sources_of(t).contains(a));
                assert forall|k: int| 0 <= k < n implies #[trigger] (self.graph_step())(path[k], path[k + 1]) by {
                    let e2 = choose|e2: int| 0 <= e2 < self.edges@.len() && #[trigger] self.edges@[e2] == (path[k], c[k] as usize, path[k + 1]);
                    assert(self.edge_seq()[e2] == (path[k], self.edge_seq()[e2].1, path[k + 1]));
                }
                assert forall|x: Set<usize>| #[trigger] rel_closed(self.back_step(), x) && self.sources_of(t).subset_of(x) implies x.contains(i) by {
                    assert(x.contains(a));
                    self.lemma_back_walk_closed(path, 0, n, x);
                }
            }
            // t fires from the initial node, so some edge carries it.
            self.law_l0_iff_never_fires(t);
            assert(net.run(m0, c0) is Some && net.fires(net.run(m0, c0).unwrap(), t as int));
            assert(fires_somewhere(net, m0, t as int));
        }
    }

    /// A transition fired on a cycle of reachable markings is L3-live or
    /// L4-live: when a firing sequence `s` leads from the initial marking to
    /// a marking `m`, and a nonempty sequence `c` leads from `m` back to `m`,
    /// every transition in `c` can fire infinitely often, and a complete
    /// reachability graph gives it level L3 or L4.
    pub proof fn law_cycle_transition_is_l3(&self, s: Seq<int>, c: Seq<int>, j: int)
        requires
            self.reach_wf(),
            self.is_complete(),
            self.structure().run(self.initial_spec(), s) is Some,
            self.structure().run(self.structure().run(self.initial_spec(), s).unwrap(), c) == Some(
                self.structure().run(self.initial_spec(), s).unwrap(),
            ),
            0 <= j < c.len(),
        ensures
            self.graph_level(c[j] as usize) is L3 || self.graph_level(c[j] as usize) is L4,
    {
        let net = self.structure();
        let m = net.run(self.initial_spec(), s).unwrap();
        lemma_run_in_graph(*self, s);
        let i = choose|i: int| 0 <= i < self.nodes().len() && self.nodes()[i] == m;
        assert(self.nodes()[i] == self.markings@[i]@);
        let path = self.lemma_run_follows_edges(i, c);
        let n = c.len() as int;
        let last = path[n];
        assert(self.markings@[last as int]@ == self.markings@[i]@);
        assert(last as int == i);
        let t = c[j] as usize;
        let step = self.graph_step();
        assert forall|k: int| 0 <= k < n implies #[trigger] step(path[k], path[k + 1]) by {
            let e = choose|e: int| 0 <= e < self.edges@.len() && #[trigger] self.edges@[e] == (path[k], c[k] as usize, path[k + 1]);
            assert(self.edge_seq()[e] == (path[k], self.edge_seq()[e].1, path[k + 1]));
        }
        let e = choose|e: int| 0 <= e < self.edges@.len() && #[trigger] self.edges@[e] == (path[j], c[j] as usize, path[j + 1]);
        assert(self.edge_seq()[e].1 == t);
        assert forall|x: Set<usize>| #[trigger] rel_closed(step, x) && set![path[j + 1]].subset_of(x) implies x.contains(path[j]) by {
            assert(x.contains(path[j + 1]));
            self.lemma_walk_closed(path, j + 1, n, x);
            assert(path[0] == path[n]);
            self.lemma_walk_closed(path, 0, j, x);
        }
        assert(rel_reaches(step, set![self.edge_seq()[e].2], self.edge_seq()[e].0));
    }

    /// The liveness level of every transition of the net, read off the graph.
    pub fn transition_liveness(&self) -> (r: LivenessAnalysis)
        requires
            self.reach_wf(),
        ensures
            r.wf(),
            r.entries().len() == self.structure().nt(),
            forall|j: int| 0 <= j < r.entries().len() ==> #[trigger] r.entries()[j] == (self.structure().transition_seq()[j], self.graph_level(j as usize)),
    {
        let net = self.net;
        proof {
            net.lemma_wf();
        }
        let n = self.markings.len();
        let nt = net.num_transitions();
        let mut fwd: Vec<(usize, usize)> = Vec::new();
        let mut back: Vec<(usize, usize)> = Vec::new();
        let mut k: usize = 0;
        while k < self.edges.len()
            invariant
                self.reach_wf(),
                n == self.markings@.len(),
                0 <= k <= self.edges@.len(),
                fwd@.len() == k,
                back@.len() == k,
                forall|x: int| 0 <= x < k ==> #[trigger] fwd@[x] == (self.edges@[x].0, self.edges@[x].2),
                forall|x: int| 0 <= x < k ==> #[trigger] back@[x] == (self.edges@[x].2, self.edges@[x].0),
            decreases self.edges@.len() - k,
        {
            let e = self.edges[k];
            fwd.push((e.0, e.2));
            back.push((e.2, e.0));
            k = k + 1;
        }
        assert(edges_below(fwd@, n as nat));
        assert(edges_below(back@, n as nat));
        assert forall|a: usize, b: usize| #[trigger] (self.graph_step())(a, b) <==> exists|x: int| 0 <= x < fwd@.len() && #[trigger] fwd@[x] == (a, b) by {
            if (self.graph_step())(a, b) {
                let x = choose|x: int| 0 <= x < self.edge_seq().len() && #[trigger] self.edge_seq()[x] == (a, self.edge_seq()[x].1, b);
                assert(fwd@[x] == (a, b));
            }
            if exists|x: int| 0 <= x < fwd@.len() && #[trigger] fwd@[x] == (a, b) {
                let x = choose|x: int| 0 <= x < fwd@.len() && #[trigger] fwd@[x] == (a, b);
                assert(self.edge_seq()[x] == (a, self.edge_seq()[x].1, b));
            }
        }
        assert forall|a: usize, b: usize| #[trigger] (self.back_step())(a, b) <==> exists|x: int| 0 <= x < back@.len() && #[trigger] back@[x] == (a, b) by {
            if (self.back_step())(a, b) {
                assert((self.graph_step())(b, a));
                let x = choose|x: int| 0 <= x < self.edge_seq().len() && #[trigger] self.edge_seq()[x] == (b, self.edge_seq()[x].1, a);
                assert(back@[x] == (a, b));
            }
            if exists|x: int| 0 <= x < back@.len() && #[trigger] back@[x] == (a, b) {
                let x = choose|x: int| 0 <= x < back@.len() && #[trigger] back@[x] == (a, b);
                assert(self.edge_seq()[x] == (b, self.edge_seq()[x].1, a));
            }
        }
        let mut out: Vec<(Transition, LivenessLevel)> = Vec::new();
        let mut t: usize = 0;
        while t < nt
            invariant
                self.reach_wf(),
                *net == self.structure(),
                n == self.markings@.len(),
                n == self.nodes().len(),
                nt == net.nt(),
                edges_below(fwd@, n as nat),
                edges_below(back@, n as nat),
                fwd@.len() == self.edges@.len(),
                back@.len() == self.edges@.len(),
                forall|x: int| 0 <= x < fwd@.len() ==> #[trigger] fwd@[x] == (self.edges@[x].0, self.edges@[x].2),
                forall|a: usize, b: usize| #[trigger] (self.graph_step())(a, b) <==> exists|x: int| 0 <= x < fwd@.len() && #[trigger] fwd@[x] == (a, b),
                forall|a: usize, b: usize| #[trigger] (self.back_step())(a, b) <==> exists|x: int| 0 <= x < back@.len() && #[trigger] back@[x] == (a, b),
                0 <= t <= nt,
                out@.len() == t,
                forall|j: int| 0 <= j < t ==> #[trigger] out@[j] == (net.transition_seq()[j], self.graph_level(j as usize)),
            decreases nt - t,
        {
            let mut srcs: Vec<bool> = Vec::new();
            let mut i: usize = 0;
            while i < n
                invariant
                    0 <= i <= n,
                    srcs@.len() == i,
                    forall|x: int| 0 <= x < i ==> !srcs@[x],
                decreases n - i,
            {
                srcs.push(false);
                i = i + 1;
            }
            let mut any = false;
            let mut k: usize = 0;
            while k < self.edges.len()
                invariant
                    self.reach_wf(),
                    n == self.markings@.len(),
                    srcs@.len() == n,
                    0 <= k <= self.edges@.len(),
                    any <==> exists|x: int| 0 <= x < k && (#[trigger] self.edges@[x]).1 == t,
                    forall|a: usize| a < n ==> (#[trigger] srcs@[a as int] <==> exists|x: int| 0 <= x < k && (#[trigger] self.edges@[x]).1 == t && self.edges@[x].0 == a),
                decreases self.edges@.len() - k,
            {
                let e = self.edges[k];
                if e.1 == t {
                    let ghost s0 = srcs@;
                    srcs.set(e.0, true);
                    any = true;
                    proof {
                        assert forall|a: usize| a < n implies (#[trigger] srcs@[a as int] <==> exists|x: int| 0 <= x < k + 1 && (#[trigger] self.edges@[x]).1 == t && self.edges@[x].0 == a) by {
                            if a != e.0 {
                                assert(srcs@[a as int] == s0[a as int]);
                                if exists|x: int| 0 <= x < k + 1 && (#[trigger] self.edges@[x]).1 == t && self.edges@[x].0 == a {
                                    let x = choose|x: int| 0 <= x < k + 1 && (#[trigger] self.edges@[x]).1 == t && self.edges@[x].0 == a;
                                    assert(x != k);
                                }
                            } else {
                                assert(self.edges@[k as int].1 == t && self.edges@[k as int].0 == a);
                            }
                        }
                    }
                } else {
                    proof {
                        assert forall|a: usize| a < n implies (#[trigger] srcs@[a as int] <==> exists|x: int| 0 <= x < k + 1 && (#[trigger] self.edges@[x]).1 == t && self.edges@[x].0 == a) by {
                            if exists|x: int| 0 <= x < k + 1 && (#[trigger] self.edges@[x]).1 == t && self.edges@[x].0 == a {
                                let x = choose|x: int| 0 <= x < k + 1 && (#[trigger] self.edges@[x]).1 == t && self.edges@[x].0 == a;
                                assert(x != k);
                            }
                        }
                    }
                }
                k = k + 1;
            }
            proof {
                assert(marked_set(srcs@) =~= self.sources_of(t)) by {
                    assert forall|a: usize| #[trigger] self.sources_of(t).contains(a) implies marked_set(srcs@).contains(a) by {
                        let x = choose|x: int| 0 <= x < self.edge_seq().len() && (#[trigger] self.edge_seq()[x]).1 == t && self.edge_seq()[x].0 == a;
                        assert(a < n);
                    }
                }
            }
            let level = if !any {
                proof {
                    assert(self.edge_seq() == self.edges@);
                }
                LivenessLevel::L0
            } else {
                let b = reach_along(n, &back, &srcs);
                let mut all_lead = true;
                let mut i: usize = 0;
                while i < n
                    invariant
                        b@.len() == n,
                        0 <= i <= n,
                        all_lead <==> forall|x: int| 0 <= x < i ==> b@[x],
                    decreases n - i,
                {
                    if !b[i] {
                        all_lead = false;
                    }
                    i = i + 1;
                }
                proof {
                    assert forall|x: usize| x < n implies (#[trigger] b@[x as int] <==> rel_reaches(self.back_step(), self.sources_of(t), x)) by {
                        lemma_reaches_rel(back@, self.back_step(), srcs@, x);
                    }
                    if !all_lead {
                        let x = choose|x: int| 0 <= x < n && !b@[x];
                        assert(!rel_reaches(self.back_step(), self.sources_of(t), x as usize));
                    }
                }
                if all_lead {
                    proof {
                        assert forall|x: usize| x < self.nodes().len() implies #[trigger] rel_reaches(self.back_step(), self.sources_of(t), x) by {
                            assert(b@[x as int]);
                        }
                        assert(self.edge_seq() == self.edges@);
                        assert(exists|k: int| 0 <= k < self.edge_seq().len() && (#[trigger] self.edge_seq()[k]).1 == t);
                    }
                    LivenessLevel::L4
                } else {
                    let mut on_cycle = false;
                    let mut k: usize = 0;
                    while k < self.edges.len()
                        invariant
                            self.reach_wf(),
                            n == self.markings@.len(),
                            edges_below(fwd@, n as nat),
                            forall|a: usize, b: usize| #[trigger] (self.graph_step())(a, b) <==> exists|x: int| 0 <= x < fwd@.len() && #[trigger] fwd@[x] == (a, b),
                            0 <= k <= self.edges@.len(),
                            on_cycle <==> exists|x: int| 0 <= x < k && (#[trigger] self.edges@[x]).1 == t
                                && rel_reaches(self.graph_step(), set![self.edges@[x].2], self.edges@[x].0),
                        decreases self.edges@.len() - k,
                    {
                        let e = self.edges[k];
                        if e.1 == t {
                            let mut start: Vec<bool> = Vec::new();
                            let mut i: usize = 0;
                            while i < n
                                invariant
                                    0 <= i <= n,
                                    start@.len() == i,
                                    forall|x: int| 0 <= x < i ==> start@[x] == (x == e.2 as int),
                                decreases n - i,
                            {
                                start.push(i == e.2);
                                i = i + 1;
                            }
                            let r = reach_along(n, &fwd, &start);
                            proof {
                                assert(marked_set(start@) =~= set![e.2]);
                                lemma_reaches_rel(fwd@, self.graph_step(), start@, e.0);
                            }
                            if r[e.0] {
                                on_cycle = true;
                            }
                        }
                        proof {
                            assert(self.edges@[k as int] == e);
                            if on_cycle {
                                if !(exists|x: int| 0 <= x < k && (#[trigger] self.edges@[x]).1 == t
                                    && rel_reaches(self.graph_step(), set![self.edges@[x].2], self.edges@[x].0)) {
                                    assert(self.edges@[k as int].1 == t && rel_reaches(self.graph_step(), set![self.edges@[k as int].2], self.edges@[k as int].0));
                                }
                            } else {
                                if exists|x: int| 0 <= x < k + 1 && (#[trigger] self.edges@[x]).1 == t
                                    && rel_reaches(self.graph_step(), set![self.edges@[x].2], self.edges@[x].0) {
                                    let x = choose|x: int| 0 <= x < k + 1 && (#[trigger] self.edges@[x]).1 == t
                                        && rel_reaches(self.graph_step(), set![self.edges@[x].2], self.edges@[x].0);
                                    assert(x != k);
                                }
                            }
                        }
                        k = k + 1;
                    }
                    proof {
                        assert(self.edge_seq() == self.edges@);
                        assert(exists|k: int| 0 <= k < self.edge_seq().len() && (#[trigger] self.edge_seq()[k]).1 == t);
                        assert(!(forall|x: usize| x < self.nodes().len() ==> #[trigger] rel_reaches(self.back_step(), self.sources_of(t), x)));
                    }
                    if on_cycle {
                        LivenessLevel::L3
                    } else {
                        LivenessLevel::L1
                    }
                }
            };
            proof {
                assert(self.edge_seq() == self.edges@);
                assert(level == self.graph_level(t));
            }
            let tr = net.transition_at(t);
            out.push((tr, level));
            t = t + 1;
        }
        let r = LivenessAnalysis::from_levels(out);
        proof {
            assert forall|i: int, j: int| 0 <= i < j < r.entries().len() implies (#[trigger] r.entries()[i]).0 != (#[trigger] r.entries()[j]).0 by {
                assert(net.transition_seq()[i] != net.transition_seq()[j]);
            }
        }
        r
    }
}


/// Whether `m` shows a dead marking reachable from `m0`.
pub open spec fn shows_reachable_deadlock(net: Net, m0: Seq<u32>, m: Marking<u32>) -> bool {
    exists|d: Seq<u32>| #[trigger] shows(net, m, d) && d.len() == net.np() && is_dead(net, d) && net.reachable(m0, d)
}

impl<'a> StateGraph<'a, u32> {
    /// The deadlocks among the graph's markings, each reachable from the initial marking.
    pub fn reachable_deadlocks(&self) -> (r: Vec<Marking<u32>>)
        requires
            self.reach_wf(),
        ensures
            forall|k: int| 0 <= k < r@.len() ==> (#[trigger] r@[k]).wf() && shows_reachable_deadlock(self.structure(), self.initial_spec(), r@[k]),
            forall|i: int| 0 <= i < self.nodes().len() && is_dead(self.structure(), #[trigger] self.nodes()[i]) ==> shown_in(self.structure(), r@, self.nodes()[i]),
    {
        let r = self.deadlocks();
        proof {
            assert forall|k: int| 0 <= k < r@.len() implies (#[trigger] r@[k]).wf() && shows_reachable_deadlock(self.structure(), self.initial_spec(), r@[k]) by {
                assert(shows_dead_node(self.structure(), self.nodes(), r@[k]));
                let i = choose|i: int| 0 <= i < self.nodes().len() && is_dead(self.structure(), #[trigger] self.nodes()[i]) && shows(self.structure(), r@[k], self.nodes()[i]);
                lemma_node_reached_by_path(*self, i);
                assert(self.nodes()[i] == self.markings@[i]@);
            }
        }
        r
    }
}

impl<'a> StateGraph<'a, Omega> {
    /// The deadlocks among the graph's markings without `ω`, each reachable
    /// from the initial marking.
    pub fn finite_deadlocks(&self) -> (r: Vec<Marking<u32>>)
        requires
            self.cover_wf(),
        ensures
            forall|k: int| 0 <= k < r@.len() ==> (#[trigger] r@[k]).wf() && shows_reachable_deadlock(self.structure(), self.initial_spec(), r@[k]),
            forall|i: int| 0 <= i < self.nodes().len() && is_finite_seq(#[trigger] self.nodes()[i])
                && is_dead(self.structure(), unlift(self.nodes()[i])) ==> shown_in(self.structure(), r@, unlift(self.nodes()[i])),
    {
        let net = self.net;
        let np = net.num_places();
        let mut r: Vec<Marking<u32>> = Vec::new();
        let mut i: usize = 0;
        while i < self.markings.len()
            invariant
                self.cover_wf(),
                net == self.net,
                np == net.np(),
                0 <= i <= self.markings@.len(),
                forall|k: int| 0 <= k < r@.len() ==> (#[trigger] r@[k]).wf() && shows_reachable_deadlock(self.structure(), self.initial_spec(), r@[k]),
                forall|j: int| 0 <= j < i && is_finite_seq(#[trigger] self.nodes()[j])
                    && is_dead(self.structure(), unlift(self.nodes()[j])) ==> shown_in(self.structure(), r@, unlift(self.nodes()[j])),
            decreases self.markings@.len() - i,
        {
            let node = &self.markings[i];
            proof {
                assert(self.nodes()[i as int] == node@);
            }
            let mut plain: Vec<u32> = Vec::new();
            let mut finite = true;
            let mut p: usize = 0;
            while p < node.len()
                invariant
                    0 <= p <= node@.len(),
                    plain@.len() == p,
                    forall|q: int| 0 <= q < p ==> plain@[q] == unlift(node@)[q],
                    finite <==> forall|q: int| 0 <= q < p ==> (#[trigger] node@[q]) is Finite,
                decreases node@.len() - p,
            {
                match node[p] {
                    Omega::Finite(v) => plain.push(v),
                    Omega::Unbounded => {
                        plain.push(0);
                        finite = false;
                    },
                }
                p = p + 1;
            }
            proof {
                assert(plain@ == unlift(node@));
                assert(node@.len() == np);
            }
            if finite && is_dead_exec(net, &plain) {
                let m = net.sparse_marking(&plain);
                proof {
                    assert(is_finite_seq(self.nodes()[i as int]));
                    lemma_finite_node_reachable(*self, i as int);
                    assert(shows(self.structure(), m, plain@));
                }
                let ghost r0 = r@;
                r.push(m);
                proof {
                    assert forall|k: int| 0 <= k < r@.len() implies (#[trigger] r@[k]).wf() && shows_reachable_deadlock(self.structure(), self.initial_spec(), r@[k]) by {
                        if k < r0.len() {
                            assert(r@[k] == r0[k]);
                        }
                    }
                    assert forall|j: int| 0 <= j <= i && is_finite_seq(#[trigger] self.nodes()[j])
                        && is_dead(self.structure(), unlift(self.nodes()[j])) implies shown_in(self.structure(), r@, unlift(self.nodes()[j])) by {
                        if j < i {
                            let k = choose|k: int| 0 <= k < r0.len() && shows(self.structure(), #[trigger] r0[k], unlift(self.nodes()[j]));
                            assert(r@[k] == r0[k]);
                        } else {
                            assert(r@[r0.len() as int] == m);
                        }
                    }
                }
            } else {
                proof {
                    if is_finite_seq(self.nodes()[i as int]) && is_dead(self.structure(), unlift(self.nodes()[i as int])) {
                        assert forall|q: int| 0 <= q < node@.len() implies (#[trigger] node@[q]) is Finite by {
                            assert(self.nodes()[i as int][q] is Finite);
                        }
                        assert(finite);
                    }
                }
            }
            i = i + 1;
        }
        r
    }
}

} // verus!
