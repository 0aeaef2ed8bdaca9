//! Certificate checkers: each re-establishes its property against the net
//! itself from primitive net access alone.

use vstd::prelude::*;
use crate::class::is_state_machine_spec;
use crate::marking::{sum_counts, Marking, TokenOps};
use crate::model::certificate::Certificate;
use crate::model::frontier::Polarity;
use crate::model::query::Query;
use crate::net::{Net, Place, Transition};

verus! {

/// The dense marking reached by firing the transitions of `seq` in order from
/// `m`, or `None` if one of them is not a transition of the net or cannot fire.
pub open spec fn replay_spec(net: Net, m: Seq<u32>, seq: Seq<Transition>) -> Option<Seq<u32>>
    decreases seq.len(),
{
    if seq.len() == 0 {
        Some(m)
    } else {
        match replay_spec(net, m, seq.drop_last()) {
            Some(m1) => {
                let t = seq.last();
                if net.transition_set().contains(t) && net.fires(m1, net.t_index(t)) {
                    Some(net.fire_spec(m1, net.t_index(t)))
                } else {
                    None
                }
            },
            None => None,
        }
    }
}

/// Replays `sequence` from `m0` and returns the marking reached, or `None` if
/// some transition is not in the net or cannot fire when its turn comes.
fn replay(net: &Net, m0: &Marking<u32>, sequence: &Vec<Transition>) -> (r: Option<Marking<u32>>)
    requires
        net.wf(),
        m0.wf(),
    ensures
        r is Some <==> replay_spec(*net, net.dense_of(*m0), sequence@) is Some,
        r matches Some(m) ==> m.wf() && forall|p: Place| #[trigger] m.count(p) == net.sparse_count(
            replay_spec(*net, net.dense_of(*m0), sequence@).unwrap(),
            p,
        ),
{
    let mut d = net.dense_marking(m0);
    let ghost d0 = d@;
    let mut i: usize = 0;
    proof {
        assert(sequence@.subrange(0, 0) =~= Seq::<Transition>::empty());
    }
    while i < sequence.len()
        invariant
            net.wf(),
            0 <= i <= sequence@.len(),
            d0 == net.dense_of(*m0),
            d@.len() == net.np(),
            replay_spec(*net, d0, sequence@.subrange(0, i as int)) == Some(d@),
        decreases sequence@.len() - i,
    {
        let t = sequence[i];
        proof {
            assert(sequence@.subrange(0, i + 1).drop_last() =~= sequence@.subrange(0, i as int));
            assert(sequence@.subrange(0, i + 1).last() == t);
        }
        match net.transition_index(t) {
            None => {
                proof {
                    lemma_replay_stuck(*net, d0, sequence@, i as int);
                }
                return None;
            },
            Some(k) => {
                proof {
                    net.lemma_wf();
                    let j = net.t_index(t);
                    if j != k {
                        assert(net.transition_seq()[j] != net.transition_seq()[k as int]);
                    }
                }
                if !net.is_enabled_in(k, &d) || !net.fire_fits_in(k, &d) {
                    proof {
                        lemma_replay_stuck(*net, d0, sequence@, i as int);
                    }
                    return None;
                }
                net.fire_in(k, &mut d);
            },
        }
        i = i + 1;
    }
    proof {
        assert(sequence@.subrange(0, i as int) =~= sequence@);
    }
    Some(net.sparse_marking(&d))
}

/// Once a replay is stuck, every longer prefix is stuck too.
proof fn lemma_replay_stuck(net: Net, d0: Seq<u32>, seq: Seq<Transition>, i: int)
    requires
        0 <= i < seq.len(),
        replay_spec(net, d0, seq.subrange(0, i + 1)) is None,
    ensures
        replay_spec(net, d0, seq) is None,
    decreases seq.len() - i,
{
    if i + 1 < seq.len() {
        assert(seq.subrange(0, i + 2).drop_last() =~= seq.subrange(0, i + 1));
        lemma_replay_stuck(net, d0, seq, i + 1);
    } else {
        assert(seq.subrange(0, i + 1) =~= seq);
    }
}

/// A positive reachability or coverability witness: a transition firing sequence.
///
/// The check replays the sequence from `M₀` against the net itself and
/// accepts a reachability query when the reached marking equals the target, a
/// coverability query when it covers the target, and rejects the query-free one.
#[derive(Debug, Clone)]
pub struct FiringSequenceCert {
    /// The sequence claimed to reach (or cover) the target from `M₀`.
    pub sequence: Vec<Transition>,
}

impl Certificate for FiringSequenceCert {
    open spec fn check_spec(&self, net: Net, m0: Marking<u32>, query: Query) -> bool {
        match replay_spec(net, net.dense_of(m0), self.sequence@) {
            None => false,
            Some(reached) => match query {
                Query::Reachable(target) => forall|p: Place| #[trigger] target.count(p) == net.sparse_count(reached, p),
                Query::Coverable(target) => forall|p: Place| #[trigger] target.count(p) <= net.sparse_count(reached, p),
                Query::Trivial => false,
            },
        }
    }

    open spec fn polarity_spec(&self) -> Polarity {
        Polarity::ProveYes
    }

    fn check(&self, net: &Net, m0: &Marking<u32>, query: &Query) -> (r: bool) {
        let reached = match replay(net, m0, &self.sequence) {
            None => {
                return false;
            },
            Some(m) => m,
        };
        let ghost d = replay_spec(*net, net.dense_of(*m0), self.sequence@).unwrap();
        match query {
            Query::Reachable(target) => {
                let r = reached.same_counts(target);
                proof {
                    assert(r == forall|p: Place| #[trigger] target.count(p) == net.sparse_count(d, p)) by {
                        if r {
                            assert forall|p: Place| #[trigger] target.count(p) == net.sparse_count(d, p) by {
                                assert(reached.count(p) == target.count(p));
                            }
                        } else {
                            let p = choose|p: Place| !(#[trigger] reached.count(p) == target.count(p));
                            assert(reached.count(p) == net.sparse_count(d, p));
                        }
                    }
                }
                r
            },
            Query::Coverable(target) => {
                let r = reached.covers(target);
                proof {
                    assert(r == forall|p: Place| #[trigger] target.count(p) <= net.sparse_count(d, p)) by {
                        if r {
                            assert forall|p: Place| #[trigger] target.count(p) <= net.sparse_count(d, p) by {
                                assert(target.count(p).leq(reached.count(p)));
                                assert(reached.count(p) == net.sparse_count(d, p));
                            }
                        } else {
                            let p = choose|p: Place| !(#[trigger] target.count(p)).leq(reached.count(p));
                            assert(reached.count(p) == net.sparse_count(d, p));
                        }
                    }
                }
                r
            },
            Query::Trivial => false,
        }
    }

    fn polarity(&self) -> (r: Polarity) {
        Polarity::ProveYes
    }
}

/// The total number of tokens of `m`, in a wide accumulator that cannot overflow.
fn total_tokens_wide(m: &Marking<u32>) -> (r: u128)
    ensures
        r == sum_counts(m.support_seq()),
{
    let s = m.support();
    let mut total: u128 = 0;
    let mut i: usize = 0;
    while i < s.len()
        invariant
            0 <= i <= s@.len(),
            total == sum_counts(s@.subrange(0, i as int)),
            total <= i * 0xFFFF_FFFFu128,
        decreases s@.len() - i,
    {
        proof {
            assert(s@.subrange(0, i + 1).drop_last() =~= s@.subrange(0, i as int));
        }
        total = total + s[i].1 as u128;
        i = i + 1;
    }
    proof {
        assert(s@.subrange(0, i as int) =~= s@);
    }
    total
}

/// The total of the counts of `rem`.
pub open spec fn counts_total(rem: Seq<(Transition, u32)>) -> nat
    decreases rem.len(),
{
    if rem.len() == 0 {
        0
    } else {
        counts_total(rem.drop_last()) + rem.last().1 as nat
    }
}

/// Whether entry `i` of `rem` still needs firing and its transition is a
/// transition of the net enabled in `m`.
pub open spec fn ready_at(net: Net, m: Seq<u32>, rem: Seq<(Transition, u32)>, i: int) -> bool {
    &&& rem[i].1 > 0
    &&& net.transition_set().contains(rem[i].0)
    &&& net.enabled_spec(m, net.t_index(rem[i].0))
}

/// The first entry of `rem` at or after `i` that is ready, or `rem.len()`.
pub open spec fn first_ready(net: Net, m: Seq<u32>, rem: Seq<(Transition, u32)>, i: int) -> int
    decreases rem.len() - i,
{
    if i >= rem.len() {
        rem.len() as int
    } else if ready_at(net, m, rem, i) {
        i
    } else {
        first_ready(net, m, rem, i + 1)
    }
}

/// The marking reached by firing, again and again, the first listed transition
/// that is still needed and enabled, until every count is used up; `None` when
/// no needed transition is enabled (or a count would leave `u32`) before then.
pub open spec fn realize_spec(net: Net, m: Seq<u32>, rem: Seq<(Transition, u32)>, fuel: nat) -> Option<Seq<u32>>
    decreases fuel,
{
    if counts_total(rem) == 0 {
        Some(m)
    } else if fuel == 0 {
        None
    } else {
        let i = first_ready(net, m, rem, 0);
        if i >= rem.len() {
            None
        } else {
            let t = net.t_index(rem[i].0);
            if !net.fire_fits(m, t) {
                None
            } else {
                realize_spec(net, net.fire_spec(m, t), rem.update(i, (rem[i].0, (rem[i].1 - 1) as u32)), (fuel - 1) as nat)
            }
        }
    }
}

proof fn lemma_counts_total_dec(rem: Seq<(Transition, u32)>, i: int)
    requires
        0 <= i < rem.len(),
        rem[i].1 > 0,
    ensures
        counts_total(rem.update(i, (rem[i].0, (rem[i].1 - 1) as u32))) + 1 == counts_total(rem),
    decreases rem.len(),
{
    let u = rem.update(i, (rem[i].0, (rem[i].1 - 1) as u32));
    if i < rem.len() - 1 {
        assert(u.drop_last() == rem.drop_last().update(i, (rem[i].0, (rem[i].1 - 1) as u32)));
        lemma_counts_total_dec(rem.drop_last(), i);
    } else {
        assert(u.drop_last() == rem.drop_last());
    }
}

proof fn lemma_counts_total_zero(rem: Seq<(Transition, u32)>)
    ensures
        counts_total(rem) == 0 <==> forall|i: int| 0 <= i < rem.len() ==> #[trigger] rem[i].1 == 0,
    decreases rem.len(),
{
    if rem.len() > 0 {
        let l = rem.drop_last();
        lemma_counts_total_zero(l);
        if counts_total(rem) == 0 {
            assert forall|i: int| 0 <= i < rem.len() implies #[trigger] rem[i].1 == 0 by {
                if i < rem.len() - 1 {
                    assert(l[i] == rem[i]);
                }
            }
        }
        if forall|i: int| 0 <= i < rem.len() ==> #[trigger] rem[i].1 == 0 {
            assert forall|i: int| 0 <= i < l.len() implies #[trigger] l[i].1 == 0 by {
                assert(l[i] == rem[i]);
            }
            assert(rem[rem.len() - 1].1 == 0);
        }
    }
}

/// A positive reachability witness: a Parikh vector, the number of times each
/// transition fires.
///
/// The check realizes the vector greedily, firing from `M₀` the first listed
/// transition that is still needed and enabled until every count is used up,
/// and accepts a reachability query when the marking reached is the target.
/// A transition listed twice counts with both of its entries.
#[derive(Debug, Clone)]
pub struct ParikhVectorCert {
    /// The firing count of each transition.
    pub firing_counts: Vec<(Transition, u32)>,
}

impl ParikhVectorCert {
    /// The first entry at or after `i` that is still needed and enabled in `m`.
    fn find_ready(net: &Net, m: &Vec<u32>, rem: &Vec<(Transition, u32)>, i: usize) -> (r: usize)
        requires
            net.wf(),
            m@.len() == net.np(),
            i <= rem@.len(),
        ensures
            r == first_ready(*net, m@, rem@, i as int),
        decreases rem@.len() - i,
    {
        if i >= rem.len() {
            return rem.len();
        }
        let (t, c) = rem[i];
        let ready = if c > 0 {
            match net.transition_index(t) {
                Some(ti) => {
                    proof {
                        net.lemma_wf();
                        assert(net.transition_seq().contains(t));
                        let j = net.t_index(t);
                        assert(net.transition_seq()[j] == t);
                        assert(j == ti);
                    }
                    net.is_enabled_in(ti, m)
                },
                None => false,
            }
        } else {
            false
        };
        if ready {
            i
        } else {
            Self::find_ready(net, m, rem, i + 1)
        }
    }

    /// The marking reached by realizing the vector greedily from `m0`, if it is realized.
    fn realize(&self, net: &Net, m0: &Marking<u32>) -> (r: Option<Marking<u32>>)
        requires
            net.wf(),
            m0.wf(),
        ensures
            match realize_spec(*net, net.dense_of(*m0), self.firing_counts@, counts_total(self.firing_counts@)) {
                None => r is None,
                Some(d) => r matches Some(m) && m.wf() && forall|p: Place| #[trigger] m.count(p) == net.sparse_count(d, p),
            },
    {
        let ghost target = realize_spec(*net, net.dense_of(*m0), self.firing_counts@, counts_total(self.firing_counts@));
        let mut m = net.dense_marking(m0);
        let mut rem: Vec<(Transition, u32)> = Vec::new();
        let mut j: usize = 0;
        while j < self.firing_counts.len()
            invariant
                0 <= j <= self.firing_counts@.len(),
                rem@ == self.firing_counts@.subrange(0, j as int),
            decreases self.firing_counts@.len() - j,
        {
            rem.push(self.firing_counts[j]);
            proof {
                assert(self.firing_counts@.subrange(0, j + 1) =~= self.firing_counts@.subrange(0, j as int).push(self.firing_counts@[j as int]));
            }
            j = j + 1;
        }
        proof {
            assert(rem@ =~= self.firing_counts@);
        }
        loop
            invariant
                net.wf(),
                m@.len() == net.np(),
                realize_spec(*net, m@, rem@, counts_total(rem@)) == target,
                target == realize_spec(*net, net.dense_of(*m0), self.firing_counts@, counts_total(self.firing_counts@)),
            decreases counts_total(rem@),
        {
            proof {
                lemma_counts_total_zero(rem@);
            }
            let mut done = true;
            let mut k: usize = 0;
            while k < rem.len()
                invariant
                    0 <= k <= rem@.len(),
                    done <==> forall|j: int| 0 <= j < k ==> #[trigger] rem@[j].1 == 0,
                decreases rem@.len() - k,
            {
                if rem[k].1 != 0 {
                    done = false;
                }
                k = k + 1;
            }
            if done {
                let r = net.sparse_marking(&m);
                return Some(r);
            }
            let i = Self::find_ready(net, &m, &rem, 0);
            if i >= rem.len() {
                return None;
            }
            let (t, c) = rem[i];
            proof {
                if !ready_at(*net, m@, rem@, i as int) {
                    lemma_first_ready_is_ready(*net, m@, rem@, 0);
                }
            }
            let ti = match net.transition_index(t) {
                Some(ti) => ti,
                None => {
                    proof {
                        lemma_first_ready_is_ready(*net, m@, rem@, 0);
                    }
                    return None;
                },
            };
            proof {
                lemma_first_ready_is_ready(*net, m@, rem@, 0);
                net.lemma_wf();
                let j = net.t_index(t);
                assert(net.transition_seq()[j] == t);
                assert(j == ti);
            }
            if !net.fire_fits_in(ti, &m) {
                return None;
            }
            net.fire_in(ti, &mut m);
            let ghost old_rem = rem@;
            rem.set(i, (t, c - 1));
            proof {
                lemma_counts_total_dec(old_rem, i as int);
                assert(rem@ == old_rem.update(i as int, (old_rem[i as int].0, (old_rem[i as int].1 - 1) as u32)));
            }
        }
    }
}

proof fn lemma_first_ready_is_ready(net: Net, m: Seq<u32>, rem: Seq<(Transition, u32)>, i: int)
    requires
        0 <= i <= rem.len(),
        first_ready(net, m, rem, i) < rem.len(),
    ensures
        ready_at(net, m, rem, first_ready(net, m, rem, i)),
        i <= first_ready(net, m, rem, i),
    decreases rem.len() - i,
{
    if i < rem.len() && !ready_at(net, m, rem, i) {
        lemma_first_ready_is_ready(net, m, rem, i + 1);
    }
}

impl Certificate for ParikhVectorCert {
    open spec fn check_spec(&self, net: Net, m0: Marking<u32>, query: Query) -> bool {
        match query {
            Query::Reachable(target) => match realize_spec(net, net.dense_of(m0), self.firing_counts@, counts_total(self.firing_counts@)) {
                Some(d) => forall|p: Place| #[trigger] target.count(p) == net.sparse_count(d, p),
                None => false,
            },
            _ => false,
        }
    }

    open spec fn polarity_spec(&self) -> Polarity {
        Polarity::ProveYes
    }

    fn check(&self, net: &Net, m0: &Marking<u32>, query: &Query) -> (r: bool) {
        let target = match query {
            Query::Reachable(target) => target,
            _ => {
                return false;
            },
        };
        match self.realize(net, m0) {
            None => false,
            Some(reached) => {
                let r = reached.same_counts(target);
                proof {
                    let d = realize_spec(*net, net.dense_of(*m0), self.firing_counts@, counts_total(self.firing_counts@)).unwrap();
                    if r {
                        assert forall|p: Place| #[trigger] target.count(p) == net.sparse_count(d, p) by {
                            assert(reached.count(p) == target.count(p));
                        }
                    } else {
                        let p = choose|p: Place| !(#[trigger] reached.count(p) == target.count(p));
                        assert(reached.count(p) == net.sparse_count(d, p));
                    }
                }
                r
            },
        }
    }

    fn polarity(&self) -> (r: Polarity) {
        Polarity::ProveYes
    }
}

/// A negative reachability witness for state machines: token conservation.
///
/// In a state machine every transition has exactly one input and one output
/// place, so firing preserves the total token count, and a target whose total
/// differs from `M₀`'s is unreachable. The check re-derives both halves from
/// the net's pre- and postsets and the two markings.
#[derive(Debug, Clone, Copy)]
pub struct TokenConservationCert;

impl Certificate for TokenConservationCert {
    open spec fn check_spec(&self, net: Net, m0: Marking<u32>, query: Query) -> bool {
        match query {
            Query::Reachable(target) => is_state_machine_spec(net.transition_set(), net.arc_set()) && sum_counts(
                m0.support_seq(),
            ) != sum_counts(target.support_seq()),
            _ => false,
        }
    }

    open spec fn polarity_spec(&self) -> Polarity {
        Polarity::ProveNo
    }

    fn check(&self, net: &Net, m0: &Marking<u32>, query: &Query) -> (r: bool) {
        let target = match query {
            Query::Reachable(target) => target,
            _ => {
                return false;
            },
        };
        let ts = net.transitions();
        let mut i: usize = 0;
        while i < ts.len()
            invariant
                net.wf(),
                ts@ == net.transition_seq(),
                0 <= i <= ts@.len(),
                forall|k: int| 0 <= k < i ==> crate::class::singleton(crate::class::preset_of_transition(net.arc_set(), #[trigger] ts@[k]))
                    && crate::class::singleton(crate::class::postset_of_transition(net.arc_set(), ts@[k])),
            decreases ts@.len() - i,
        {
            let t = ts[i];
            let pre = net.transition_preset(&t);
            let post = net.transition_postset(&t);
            proof {
                crate::topology::lemma_singleton_len(pre@);
                crate::topology::lemma_singleton_len(post@);
            }
            if pre.len() != 1 || post.len() != 1 {
                proof {
                    assert(ts@[i as int] == t);
                    assert(net.transition_seq().contains(t));
                    assert(net.transition_set().contains(t));
                    assert(!(crate::class::singleton(crate::class::preset_of_transition(net.arc_set(), t))
                        && crate::class::singleton(crate::class::postset_of_transition(net.arc_set(), t))));
                    assert(!is_state_machine_spec(net.transition_set(), net.arc_set()));
                }
                return false;
            }
            i = i + 1;
        }
        proof {
            assert forall|t: crate::net::Transition| net.transition_set().contains(t) implies crate::class::singleton(
                crate::class::preset_of_transition(net.arc_set(), t),
            ) && crate::class::singleton(crate::class::postset_of_transition(net.arc_set(), t)) by {
                let k = choose|k: int| 0 <= k < ts@.len() && ts@[k] == t;
            }
        }
        total_tokens_wide(m0) != total_tokens_wide(target)
    }

    fn polarity(&self) -> (r: Polarity) {
        Polarity::ProveNo
    }
}

/// Which property a siphon/trap cover certificate claims.
#[derive(Debug, Clone, Copy, PartialEq, Eq, Hash, Structural)]
pub enum SiphonTrapClaim {
    /// Every minimal siphon holds a marked trap, read as liveness of a free-choice net.
    Live,
    /// Every minimal siphon holds a marked trap, read as deadlock-freedom.
    DeadlockFree,
}

} // verus!
