//! Liveness levels of transitions (Murata's L0 to L4) and their analysis.

use crate::class::{classify_spec, NetClass};
use crate::net::{is_strongly_connected_spec, Transition};
use crate::state_space::{is_finite_seq, CoverabilityExplorer, ReachabilityGraph};
use crate::scc::{condensation_of, condense, partitions};
use crate::system::PetriNet;
use crate::reach::{edges_below, lemma_reaches_rel, marked_set, reach_along, reaches_along, rel_reaches, single};
use vstd::prelude::*;

verus! {

/// How often a transition can fire in a system `(N, M0)`.
///
/// The levels form a strict hierarchy: L4 implies L3 implies L2 implies L1,
/// and L0 means that the transition is dead (not even L1). The level of a
/// system is that of its least live transition.
#[derive(Debug, Clone, Copy, PartialEq, Eq, PartialOrd, Ord, Hash, Structural)]
pub enum LivenessLevel {
    /// Dead: no firing sequence from `M0` enables the transition.
    L0,
    /// Some firing sequence from `M0` enables the transition.
    L1,
    /// For every `k`, some firing sequence from `M0` fires the transition `k` times.
    L2,
    /// Some infinite firing sequence from `M0` fires the transition infinitely often.
    L3,
    /// Live: the transition is L1-live from every marking reachable from `M0`.
    L4,
}

/// The position of a level in the hierarchy, from 0 (dead) to 4 (live).
pub open spec fn level_rank(l: LivenessLevel) -> nat {
    match l {
        LivenessLevel::L0 => 0,
        LivenessLevel::L1 => 1,
        LivenessLevel::L2 => 2,
        LivenessLevel::L3 => 3,
        LivenessLevel::L4 => 4,
    }
}

/// The levels form a strict hierarchy: an L4-live transition is L3-live, an
/// L3-live one is L2-live, an L2-live one is L1-live, and a transition is dead
/// (L0) exactly when it is not L1-live. Each level is reached by exactly the
/// transitions strictly at it or at a higher level.
pub proof fn lemma_liveness_hierarchy(l: LivenessLevel)
    ensures
        l is L4 ==> level_rank(l) >= 3,
        level_rank(l) >= 3 ==> level_rank(l) >= 2,
        level_rank(l) >= 2 ==> level_rank(l) >= 1,
        (l is L0) <==> !(level_rank(l) >= 1),
        (level_rank(l) >= 1) <==> (l is L1 || level_rank(l) >= 2),
        (level_rank(l) >= 2) <==> (l is L2 || level_rank(l) >= 3),
        (level_rank(l) >= 3) <==> (l is L3 || l is L4),
{
}

/// The ranks follow the hierarchy strictly: L0 below L1 below L2 below L3
/// below L4, dead at zero and live at four.
pub proof fn law_liveness_order()
    ensures
        level_rank(LivenessLevel::L0) == 0,
        level_rank(LivenessLevel::L0) < level_rank(LivenessLevel::L1),
        level_rank(LivenessLevel::L1) < level_rank(LivenessLevel::L2),
        level_rank(LivenessLevel::L2) < level_rank(LivenessLevel::L3),
        level_rank(LivenessLevel::L3) < level_rank(LivenessLevel::L4),
        level_rank(LivenessLevel::L4) == 4,
{
}

impl LivenessLevel {
    /// The position of this level in the hierarchy.
    pub fn rank(&self) -> (r: u8)
        ensures
            r == level_rank(*self),
    {
        match self {
            LivenessLevel::L0 => 0,
            LivenessLevel::L1 => 1,
            LivenessLevel::L2 => 2,
            LivenessLevel::L3 => 3,
            LivenessLevel::L4 => 4,
        }
    }

    /// Whether the transition is dead (L0).
    pub fn is_l0_live(&self) -> (r: bool)
        ensures
            r == (*self is L0),
    {
        matches!(self, LivenessLevel::L0)
    }

    /// Whether the transition is dead; the same as `is_l0_live`.
    pub fn is_dead(&self) -> (r: bool)
        ensures
            r == (*self is L0),
    {
        self.is_l0_live()
    }

    /// Whether the transition is L1-live or higher.
    pub fn is_l1_live(&self) -> (r: bool)
        ensures
            r == (level_rank(*self) >= 1),
    {
        matches!(self, LivenessLevel::L1 | LivenessLevel::L2 | LivenessLevel::L3 | LivenessLevel::L4)
    }

    /// Whether the transition is L1-live but not L2-live.
    pub fn is_strictly_l1_live(&self) -> (r: bool)
        ensures
            r == (*self is L1),
    {
        matches!(self, LivenessLevel::L1)
    }

    /// Whether the transition is L2-live or higher.
    pub fn is_l2_live(&self) -> (r: bool)
        ensures
            r == (level_rank(*self) >= 2),
    {
        matches!(self, LivenessLevel::L2 | LivenessLevel::L3 | LivenessLevel::L4)
    }

    /// Whether the transition is L2-live but not L3-live.
    pub fn is_strictly_l2_live(&self) -> (r: bool)
        ensures
            r == (*self is L2),
    {
        matches!(self, LivenessLevel::L2)
    }

    /// Whether the transition is L3-live or higher.
    pub fn is_l3_live(&self) -> (r: bool)
        ensures
            r == (level_rank(*self) >= 3),
    {
        matches!(self, LivenessLevel::L3 | LivenessLevel::L4)
    }

    /// Whether the transition is L3-live but not L4-live.
    pub fn is_strictly_l3_live(&self) -> (r: bool)
        ensures
            r == (*self is L3),
    {
        matches!(self, LivenessLevel::L3)
    }

    /// Whether the transition is L4-live.
    pub fn is_l4_live(&self) -> (r: bool)
        ensures
            r == (*self is L4),
    {
        matches!(self, LivenessLevel::L4)
    }

    /// Whether the transition is live (L4); the same as `is_l4_live`.
    pub fn is_live(&self) -> (r: bool)
        ensures
            r == (*self is L4),
    {
        self.is_l4_live()
    }

    /// The level's name, such as `L3-live`.
    pub fn label(&self) -> (r: &'static str)
        ensures
            r@ == (match *self {
                LivenessLevel::L0 => "L0-live"@,
                LivenessLevel::L1 => "L1-live"@,
                LivenessLevel::L2 => "L2-live"@,
                LivenessLevel::L3 => "L3-live"@,
                LivenessLevel::L4 => "L4-live"@,
            }),
    {
        match self {
            LivenessLevel::L0 => "L0-live",
            LivenessLevel::L1 => "L1-live",
            LivenessLevel::L2 => "L2-live",
            LivenessLevel::L3 => "L3-live",
            LivenessLevel::L4 => "L4-live",
        }
    }
}

/// The level recorded for `t` in `levels`, or L0 when none is.
pub open spec fn level_in(levels: Seq<(Transition, LivenessLevel)>, t: Transition) -> LivenessLevel {
    if exists|i: int| 0 <= i < levels.len() && (#[trigger] levels[i]).0 == t {
        levels[choose|i: int| 0 <= i < levels.len() && (#[trigger] levels[i]).0 == t].1
    } else {
        LivenessLevel::L0
    }
}

/// The liveness level of every transition of a system.
pub struct LivenessAnalysis {
    levels: Vec<(Transition, LivenessLevel)>,
}

impl LivenessAnalysis {
    /// The recorded transitions with their levels.
    pub closed spec fn entries(&self) -> Seq<(Transition, LivenessLevel)> {
        self.levels@
    }

    /// Each transition is recorded at most once.
    pub open spec fn wf(&self) -> bool {
        forall|i: int, j: int| 0 <= i < j < self.entries().len() ==> (#[trigger] self.entries()[i]).0 != (#[trigger] self.entries()[j]).0
    }

    /// The level of `t`, or L0 when `t` is not recorded.
    pub open spec fn level_spec(&self, t: Transition) -> LivenessLevel {
        level_in(self.entries(), t)
    }

    /// An analysis with the given levels.
    pub fn from_levels(levels: Vec<(Transition, LivenessLevel)>) -> (r: LivenessAnalysis)
        ensures
            r.entries() == levels@,
    {
        LivenessAnalysis { levels }
    }

    /// The recorded transitions with their levels.
    pub fn levels(&self) -> (r: &Vec<(Transition, LivenessLevel)>)
        ensures
            r@ == self.entries(),
    {
        &self.levels
    }

    /// The level of the system as a whole: the least level of any transition,
    /// or L0 when no transition is recorded.
    pub fn global_level(&self) -> (r: LivenessLevel)
        ensures
            self.entries().len() == 0 ==> r == LivenessLevel::L0,
            self.entries().len() > 0 ==> (exists|i: int| 0 <= i < self.entries().len() && r == (#[trigger] self.entries()[i]).1),
            forall|i: int| 0 <= i < self.entries().len() ==> level_rank(r) <= level_rank(#[trigger] self.entries()[i].1),
            r is L4 ==> forall|i: int| 0 <= i < self.entries().len() ==> (#[trigger] self.entries()[i]).1 is L4,
            r is L3 ==> forall|i: int| 0 <= i < self.entries().len() ==> (#[trigger] self.entries()[i]).1 is L3 || self.entries()[i].1 is L4,
            r is L2 ==> forall|i: int| 0 <= i < self.entries().len() ==> !((#[trigger] self.entries()[i]).1 is L0 || self.entries()[i].1 is L1),
            r is L1 ==> forall|i: int| 0 <= i < self.entries().len() ==> !((#[trigger] self.entries()[i]).1 is L0),
    {
        proof {
            law_liveness_order();
        }
        if self.levels.len() == 0 {
            return LivenessLevel::L0;
        }
        let mut best = self.levels[0].1;
        let mut i: usize = 1;
        while i < self.levels.len()
            invariant
                1 <= i <= self.levels@.len(),
                exists|j: int| 0 <= j < i && best == (#[trigger] self.levels@[j]).1,
                forall|j: int| 0 <= j < i ==> level_rank(best) <= level_rank(#[trigger] self.levels@[j].1),
            decreases self.levels@.len() - i,
        {
            let l = self.levels[i].1;
            if l.rank() < best.rank() {
                best = l;
            }
            i = i + 1;
        }
        best
    }

    /// The level of `transition`, or L0 when it is not recorded.
    pub fn level(&self, transition: Transition) -> (r: LivenessLevel)
        requires
            self.wf(),
        ensures
            r == self.level_spec(transition),
    {
        let mut i: usize = 0;
        while i < self.levels.len()
            invariant
                self.wf(),
                0 <= i <= self.levels@.len(),
                forall|j: int| 0 <= j < i ==> (#[trigger] self.levels@[j]).0 != transition,
            decreases self.levels@.len() - i,
        {
            if self.levels[i].0 == transition {
                proof {
                    let c = choose|j: int| 0 <= j < self.levels@.len() && (#[trigger] self.levels@[j]).0 == transition;
                    if c != i as int {
                        if c < i {
                        } else {
                            assert((self.levels@[i as int]).0 != (self.levels@[c]).0);
                        }
                    }
                }
                return self.levels[i].1;
            }
            i = i + 1;
        }
        LivenessLevel::L0
    }

    /// Whether every recorded transition is live (L4).
    pub fn is_live(&self) -> (r: bool)
        ensures
            r == forall|i: int| 0 <= i < self.entries().len() ==> (#[trigger] self.entries()[i]).1 is L4,
    {
        let mut i: usize = 0;
        while i < self.levels.len()
            invariant
                0 <= i <= self.levels@.len(),
                forall|j: int| 0 <= j < i ==> (#[trigger] self.levels@[j]).1 is L4,
            decreases self.levels@.len() - i,
        {
            if !self.levels[i].1.is_l4_live() {
                return false;
            }
            i = i + 1;
        }
        true
    }

    /// Whether no recorded transition is dead.
    pub fn is_quasi_live(&self) -> (r: bool)
        ensures
            r == forall|i: int| 0 <= i < self.entries().len() ==> level_rank((#[trigger] self.entries()[i]).1) >= 1,
    {
        let mut i: usize = 0;
        while i < self.levels.len()
            invariant
                0 <= i <= self.levels@.len(),
                forall|j: int| 0 <= j < i ==> level_rank((#[trigger] self.levels@[j]).1) >= 1,
            decreases self.levels@.len() - i,
        {
            if !self.levels[i].1.is_l1_live() {
                proof {
                    assert(!(level_rank((self.entries()[i as int]).1) >= 1));
                }
                return false;
            }
            i = i + 1;
        }
        true
    }
}


/// Whether component `c` holds a marked node.
pub open spec fn comp_marked(comps: Seq<Seq<usize>>, node_marked: Seq<bool>, c: int) -> bool {
    exists|k: int| 0 <= k < comps[c].len() && node_marked[#[trigger] comps[c][k] as int]
}

/// Whether component `c` has no outgoing edge in the condensed graph.
pub open spec fn is_sink(cedges: Seq<(usize, usize)>, c: usize) -> bool {
    forall|k: int| 0 <= k < cedges.len() ==> (#[trigger] cedges[k]).0 != c
}

/// Whether `c` is reachable from the marked component `m`.
pub open spec fn reached_from(comps: Seq<Seq<usize>>, cedges: Seq<(usize, usize)>, node_marked: Seq<bool>, m: usize, c: usize) -> bool {
    &&& m < comps.len()
    &&& comp_marked(comps, node_marked, m as int)
    &&& reaches_along(cedges, single(comps.len(), m), c)
}

/// Whether `c` is the only sink reachable from the marked component `m`:
/// every token that starts in `m` ends up in `c`.
pub open spec fn sole_sink_of(comps: Seq<Seq<usize>>, cedges: Seq<(usize, usize)>, node_marked: Seq<bool>, m: usize, c: usize) -> bool {
    &&& reached_from(comps, cedges, node_marked, m, c)
    &&& is_sink(cedges, c)
    &&& forall|d: usize| d < comps.len() && #[trigger] reached_from(comps, cedges, node_marked, m, d) && is_sink(cedges, d) ==> d == c
}

/// The level of component `c` considering reachability from the marked
/// components below `kr` and sole sinks of the marked components below `ks`.
pub open spec fn level_with(comps: Seq<Seq<usize>>, cedges: Seq<(usize, usize)>, node_marked: Seq<bool>, kr: nat, ks: nat, c: usize) -> LivenessLevel {
    if !(exists|m: usize| m < kr && #[trigger] reached_from(comps, cedges, node_marked, m, c)) {
        LivenessLevel::L0
    } else if comps[c as int].len() == 1 {
        LivenessLevel::L1
    } else if exists|m: usize| m < ks && #[trigger] sole_sink_of(comps, cedges, node_marked, m, c) {
        LivenessLevel::L4
    } else {
        LivenessLevel::L3
    }
}

/// The liveness level of the transitions of component `c` of a state
/// machine's condensed graph: L0 if no marked component reaches it; L1 for a
/// single node; L4 if it is the only sink some marked component reaches;
/// L3 otherwise.
pub open spec fn component_level(comps: Seq<Seq<usize>>, cedges: Seq<(usize, usize)>, node_marked: Seq<bool>, c: usize) -> LivenessLevel {
    level_with(comps, cedges, node_marked, comps.len(), comps.len(), c)
}

/// The liveness level of each component of a condensed state machine,
/// from the components, the edges between them and which nodes hold tokens.
pub fn levels_from_condensation(comps: &Vec<Vec<usize>>, cedges: &Vec<(usize, usize)>, node_marked: &Vec<bool>) -> (r: Vec<LivenessLevel>)
    requires
        forall|c: int, k: int| 0 <= c < comps@.len() && 0 <= k < comps@[c]@.len() ==> #[trigger] comps@[c]@[k] < node_marked@.len(),
        edges_below(cedges@, comps@.len() as nat),
    ensures
        r@.len() == comps@.len(),
        forall|c: usize| c < comps@.len() ==> #[trigger] r@[c as int] == component_level(comps.deep_view(), cedges@, node_marked@, c),
{
    let ghost cs = comps.deep_view();
    let nc = comps.len();
    assert forall|c: int| 0 <= c < nc implies #[trigger] cs[c] == comps@[c]@ by {}
    let mut has_out: Vec<bool> = Vec::new();
    let mut i: usize = 0;
    while i < nc
        invariant
            0 <= i <= nc,
            has_out@.len() == i,
            forall|c: int| 0 <= c < i ==> !has_out@[c],
        decreases nc - i,
    {
        has_out.push(false);
        i = i + 1;
    }
    let mut e: usize = 0;
    while e < cedges.len()
        invariant
            nc == comps@.len(),
            edges_below(cedges@, nc as nat),
            has_out@.len() == nc,
            0 <= e <= cedges@.len(),
            forall|c: usize| c < nc ==> (#[trigger] has_out@[c as int] <==> exists|k: int| 0 <= k < e && (#[trigger] cedges@[k]).0 == c),
        decreases cedges@.len() - e,
    {
        let src = cedges[e].0;
        let ghost h0 = has_out@;
        has_out.set(src, true);
        proof {
            assert forall|c: usize| c < nc implies (#[trigger] has_out@[c as int] <==> exists|k: int| 0 <= k < e + 1 && (#[trigger] cedges@[k]).0 == c) by {
                if c == src {
                    assert(cedges@[e as int].0 == c);
                } else {
                    assert(has_out@[c as int] == h0[c as int]);
                    if exists|k: int| 0 <= k < e + 1 && (#[trigger] cedges@[k]).0 == c {
                        let k = choose|k: int| 0 <= k < e + 1 && (#[trigger] cedges@[k]).0 == c;
                        assert(k != e);
                    }
                }
            }
        }
        e = e + 1;
    }
    assert forall|c: usize| c < nc implies (#[trigger] has_out@[c as int] <==> !is_sink(cedges@, c)) by {
        if !is_sink(cedges@, c) {
            let k = choose|k: int| 0 <= k < cedges@.len() && !((#[trigger] cedges@[k]).0 != c);
        }
    }
    let mut lv: Vec<LivenessLevel> = Vec::new();
    let mut i: usize = 0;
    while i < nc
        invariant
            0 <= i <= nc,
            lv@.len() == i,
            forall|c: int| 0 <= c < i ==> lv@[c] == LivenessLevel::L0,
        decreases nc - i,
    {
        lv.push(LivenessLevel::L0);
        i = i + 1;
    }
    assert forall|c: usize| c < nc implies #[trigger] lv@[c as int] == level_with(cs, cedges@, node_marked@, 0, 0, c) by {}
    let mut m: usize = 0;
    while m < nc
        invariant
            nc == comps@.len(),
            cs == comps.deep_view(),
            forall|c: int| 0 <= c < nc ==> #[trigger] cs[c] == comps@[c]@,
            forall|c: int, k: int| 0 <= c < comps@.len() && 0 <= k < comps@[c]@.len() ==> #[trigger] comps@[c]@[k] < node_marked@.len(),
            edges_below(cedges@, nc as nat),
            has_out@.len() == nc,
            forall|c: usize| c < nc ==> (#[trigger] has_out@[c as int] <==> !is_sink(cedges@, c)),
            lv@.len() == nc,
            0 <= m <= nc,
            forall|c: usize| c < nc ==> #[trigger] lv@[c as int] == level_with(cs, cedges@, node_marked@, m as nat, m as nat, c),
        decreases nc - m,
    {
        let members = &comps[m];
        let mut marked = false;
        let mut k: usize = 0;
        while k < members.len()
            invariant
                members@ == cs[m as int],
                forall|kk: int| 0 <= kk < members@.len() ==> #[trigger] members@[kk] < node_marked@.len(),
                0 <= k <= members@.len(),
                marked <==> exists|kk: int| 0 <= kk < k && node_marked@[#[trigger] members@[kk] as int],
            decreases members@.len() - k,
        {
            if node_marked[members[k]] {
                marked = true;
            }
            k = k + 1;
        }
        assert(marked == comp_marked(cs, node_marked@, m as int));
        if marked {
            let mut starts: Vec<bool> = Vec::new();
            let mut j: usize = 0;
            while j < nc
                invariant
                    0 <= j <= nc,
                    starts@.len() == j,
                    forall|x: int| 0 <= x < j ==> starts@[x] == (x == m as int),
                decreases nc - j,
            {
                starts.push(j == m);
                j = j + 1;
            }
            assert(starts@ == single(nc as nat, m));
            let reached = reach_along(nc, cedges, &starts);
            assert forall|c: usize| c < nc implies (#[trigger] reached@[c as int] <==> reached_from(cs, cedges@, node_marked@, m, c)) by {}
            let mut nsinks: u8 = 0;
            let mut last_sink: usize = 0;
            let mut c: usize = 0;
            while c < nc
                invariant
                    nc == comps@.len(),
                    cs == comps.deep_view(),
                    forall|x: int| 0 <= x < nc ==> #[trigger] cs[x] == comps@[x]@,
                    0 <= m < nc,
                    comp_marked(cs, node_marked@, m as int),
                    has_out@.len() == nc,
                    forall|x: usize| x < nc ==> (#[trigger] has_out@[x as int] <==> !is_sink(cedges@, x)),
                    reached@.len() == nc,
                    forall|x: usize| x < nc ==> (#[trigger] reached@[x as int] <==> reached_from(cs, cedges@, node_marked@, m, x)),
                    lv@.len() == nc,
                    0 <= c <= nc,
                    forall|x: usize| c <= x < nc ==> #[trigger] lv@[x as int] == level_with(cs, cedges@, node_marked@, m as nat, m as nat, x),
                    forall|x: usize| x < c ==> #[trigger] lv@[x as int] == level_with(cs, cedges@, node_marked@, (m + 1) as nat, m as nat, x),
                    nsinks <= 2,
                    nsinks == 0 <==> forall|x: usize| x < c ==> !(#[trigger] reached_from(cs, cedges@, node_marked@, m, x) && is_sink(cedges@, x)),
                    nsinks >= 1 ==> last_sink < c && reached_from(cs, cedges@, node_marked@, m, last_sink) && is_sink(cedges@, last_sink),
                    nsinks == 1 ==> forall|x: usize| x < c && #[trigger] reached_from(cs, cedges@, node_marked@, m, x) && is_sink(cedges@, x) ==> x == last_sink,
                    nsinks == 2 ==> exists|x: usize, y: usize| x < c && y < c && x != y && #[trigger] reached_from(cs, cedges@, node_marked@, m, x) && is_sink(cedges@, x)
                        && #[trigger] reached_from(cs, cedges@, node_marked@, m, y) && is_sink(cedges@, y),
                decreases nc - c,
            {
                let ghost old_level = lv@[c as int];
                proof {
                    assert(old_level == level_with(cs, cedges@, node_marked@, m as nat, m as nat, c));
                }
                if reached[c] {
                    if comps[c].len() == 1 {
                        lv.set(c, LivenessLevel::L1);
                    } else if lv[c].rank() < 3 {
                        lv.set(c, LivenessLevel::L3);
                    }
                    proof {
                        assert(exists|mm: usize| mm < m + 1 && #[trigger] reached_from(cs, cedges@, node_marked@, mm, c));
                        if old_level is L0 {
                            assert forall|mm: usize| mm < m implies !#[trigger] sole_sink_of(cs, cedges@, node_marked@, mm, c) by {
                                assert(!reached_from(cs, cedges@, node_marked@, mm, c));
                            }
                        }
                    }
                    if !has_out[c] {
                        if nsinks == 0 {
                            nsinks = 1;
                            last_sink = c;
                        } else if nsinks == 1 {
                            nsinks = 2;
                            proof {
                                assert(reached_from(cs, cedges@, node_marked@, m, last_sink) && is_sink(cedges@, last_sink));
                            }
                        }
                    }
                } else {
                    proof {
                        if exists|mm: usize| mm < m + 1 && #[trigger] reached_from(cs, cedges@, node_marked@, mm, c) {
                            let mm = choose|mm: usize| mm < m + 1 && #[trigger] reached_from(cs, cedges@, node_marked@, mm, c);
                            assert(mm != m);
                        }
                    }
                }
                proof {
                    assert(lv@[c as int] == level_with(cs, cedges@, node_marked@, (m + 1) as nat, m as nat, c));
                }
                c = c + 1;
            }
            let ghost before = lv@;
            let set_top = nsinks == 1 && comps[last_sink].len() != 1;
            if set_top {
                lv.set(last_sink, LivenessLevel::L4);
            }
            proof {
                assert forall|x: usize| x < nc implies #[trigger] lv@[x as int] == level_with(cs, cedges@, node_marked@, (m + 1) as nat, (m + 1) as nat, x) by {
                    assert(before[x as int] == level_with(cs, cedges@, node_marked@, (m + 1) as nat, m as nat, x));
                    if sole_sink_of(cs, cedges@, node_marked@, m, x) {
                        assert(reached_from(cs, cedges@, node_marked@, m, x) && is_sink(cedges@, x));
                        if nsinks == 2 {
                            let (a, b) = choose|a: usize, b: usize| a < nc && b < nc && a != b && #[trigger] reached_from(cs, cedges@, node_marked@, m, a) && is_sink(cedges@, a)
                                && #[trigger] reached_from(cs, cedges@, node_marked@, m, b) && is_sink(cedges@, b);
                            assert(a == x && b == x);
                        }
                        assert(nsinks == 1);
                        assert(x == last_sink);
                        assert(exists|mm: usize| mm < m + 1 && #[trigger] reached_from(cs, cedges@, node_marked@, mm, x));
                        assert(exists|mm: usize| mm < m + 1 && #[trigger] sole_sink_of(cs, cedges@, node_marked@, mm, x));
                        if comps@[x as int]@.len() == 1 {
                            assert(before[x as int] == LivenessLevel::L1);
                            assert(lv@[x as int] == LivenessLevel::L1);
                        } else {
                            assert(lv@[x as int] == LivenessLevel::L4);
                        }
                    } else {
                        if set_top {
                            assert(sole_sink_of(cs, cedges@, node_marked@, m, last_sink));
                            assert(x != last_sink);
                            assert(lv@[x as int] == before[x as int]);
                        }
                        if exists|mm: usize| mm < m + 1 && #[trigger] sole_sink_of(cs, cedges@, node_marked@, mm, x) {
                            let mm = choose|mm: usize| mm < m + 1 && #[trigger] sole_sink_of(cs, cedges@, node_marked@, mm, x);
                            assert(mm != m);
                        }
                        assert(lv@[x as int] == before[x as int]);
                    }
                }
            }
        } else {
            proof {
                assert forall|x: usize| x < nc implies #[trigger] lv@[x as int] == level_with(cs, cedges@, node_marked@, (m + 1) as nat, (m + 1) as nat, x) by {
                    if exists|mm: usize| mm < m + 1 && #[trigger] reached_from(cs, cedges@, node_marked@, mm, x) {
                        let mm = choose|mm: usize| mm < m + 1 && #[trigger] reached_from(cs, cedges@, node_marked@, mm, x);
                        assert(mm != m);
                    }
                    if exists|mm: usize| mm < m + 1 && #[trigger] sole_sink_of(cs, cedges@, node_marked@, mm, x) {
                        let mm = choose|mm: usize| mm < m + 1 && #[trigger] sole_sink_of(cs, cedges@, node_marked@, mm, x);
                        assert(reached_from(cs, cedges@, node_marked@, mm, x));
                        assert(mm != m);
                    }
                }
            }
        }
        m = m + 1;
    }
    lv
}


/// Whether component `c` holds node `x`.
pub open spec fn comp_holds(comps: Seq<Seq<usize>>, c: int, x: usize) -> bool {
    exists|k: int| 0 <= k < comps[c].len() && #[trigger] comps[c][k] == x
}

/// The component that holds node `x`.
pub open spec fn comp_of(comps: Seq<Seq<usize>>, x: usize) -> int {
    choose|c: int| 0 <= c < comps.len() && #[trigger] comp_holds(comps, c, x)
}

impl<'a> PetriNet<'a> {
    /// Which unified nodes (places first, then transitions) hold tokens:
    /// the places marked in the current marking.
    pub open spec fn marked_node_mask(&self) -> Seq<bool> {
        Seq::new(self.structure().np() + self.structure().nt(), |x: int| x < self.structure().np() && self.current()[x] > 0)
    }

    /// The level that the analysis of the marked components of the net's
    /// condensed graph gives the transition at dense index `j`.
    pub open spec fn marked_scc_level(&self, j: int) -> LivenessLevel {
        let net = self.structure();
        let cond = condensation_of(net.np() + net.nt(), net.flow_edges());
        component_level(cond.0, cond.1, self.marked_node_mask(), comp_of(cond.0, (net.np() + j) as usize) as usize)
    }

    /// Liveness levels of a state machine from its strongly connected
    /// components: a token in a marked component can move into every
    /// component it reaches, and stays for good in a sink component.
    ///
    /// `None` when the net has too many nodes or arcs for a petgraph graph.
    pub(crate) fn liveness_via_state_machine_marked_sccs(&self) -> (r: Option<Vec<(Transition, LivenessLevel)>>)
        requires
            self.wf(),
        ensures
            r is None <==> self.structure().np() + self.structure().nt() >= u32::MAX || self.structure().flow_edges().len() >= u32::MAX,
            r matches Some(v) ==> {
                &&& forall|j: int| 0 <= j < self.structure().nt() ==> v@.contains((self.structure().transition_seq()[j], #[trigger] self.marked_scc_level(j)))
                &&& forall|i: int| 0 <= i < v@.len() ==> self.structure().transition_set().contains(#[trigger] v@[i].0)
                &&& forall|i: int, k: int| 0 <= i < k < v@.len() ==> (#[trigger] v@[i]).0 != (#[trigger] v@[k]).0
            },
    {
        let net = self.net_ref();
        proof {
            net.lemma_wf();
        }
        let np = net.num_places();
        let n = np + net.num_transitions();
        let edges = net.flow_edge_list();
        if n >= 4294967295 || edges.len() >= 4294967295 {
            return None;
        }
        let mut node_marked: Vec<bool> = Vec::new();
        let mut x: usize = 0;
        while x < n
            invariant
                self.wf(),
                *net == self.structure(),
                np == net.np(),
                n == net.np() + net.nt(),
                0 <= x <= n,
                node_marked@.len() == x,
                forall|y: int| 0 <= y < x ==> node_marked@[y] == self.marked_node_mask()[y],
            decreases n - x,
        {
            let m = if x < np {
                self.current_dense()[x] > 0
            } else {
                false
            };
            node_marked.push(m);
            x = x + 1;
        }
        assert(node_marked@ == self.marked_node_mask());
        let (comps, cedges) = condense(n, &edges);
        let ghost cs = comps.deep_view();
        proof {
            assert forall|c: int, k: int| 0 <= c < comps@.len() && 0 <= k < comps@[c]@.len() implies #[trigger] comps@[c]@[k] < node_marked@.len() by {
                assert(cs[c] == comps@[c]@);
                assert(cs[c][k] < n);
            }
        }
        let lv = levels_from_condensation(&comps, &cedges, &node_marked);
        let mut out: Vec<(Transition, LivenessLevel)> = Vec::new();
        let ghost mut src: Seq<(int, int)> = seq![];
        let mut c: usize = 0;
        while c < comps.len()
            invariant
                self.wf(),
                *net == self.structure(),
                np == net.np(),
                n == net.np() + net.nt(),
                cs == comps.deep_view(),
                (cs, cedges@) == condensation_of(n as nat, net.flow_edges()),
                partitions(cs, n as nat),
                node_marked@ == self.marked_node_mask(),
                lv@.len() == comps@.len(),
                forall|d: usize| d < comps@.len() ==> #[trigger] lv@[d as int] == component_level(cs, cedges@, node_marked@, d),
                0 <= c <= comps@.len(),
                src.len() == out@.len(),
                forall|i: int| 0 <= i < src.len() ==> 0 <= (#[trigger] src[i]).0 < c && 0 <= src[i].1 < cs[src[i].0].len() && cs[src[i].0][src[i].1] >= np
                    && out@[i] == (net.transition_seq()[cs[src[i].0][src[i].1] - np], lv@[src[i].0]),
                forall|i: int, j: int| 0 <= i < j < src.len() ==> (#[trigger] src[i]).0 < (#[trigger] src[j]).0 || (src[i].0 == src[j].0 && src[i].1 < src[j].1),
                forall|d: int, k: int| 0 <= d < c && 0 <= k < cs[d].len() && cs[d][k] >= np ==> out@.contains((net.transition_seq()[#[trigger] cs[d][k] - np], lv@[d])),
            decreases comps@.len() - c,
        {
            let members = &comps[c];
            assert(members@ == cs[c as int]);
            let mut k: usize = 0;
            while k < members.len()
                invariant
                    self.wf(),
                    *net == self.structure(),
                    np == net.np(),
                    n == net.np() + net.nt(),
                    cs == comps.deep_view(),
                    partitions(cs, n as nat),
                    lv@.len() == comps@.len(),
                    0 <= c < comps@.len(),
                    members@ == cs[c as int],
                    0 <= k <= members@.len(),
                    src.len() == out@.len(),
                    forall|i: int| 0 <= i < src.len() ==> 0 <= (#[trigger] src[i]).0 <= c && 0 <= src[i].1 < cs[src[i].0].len() && cs[src[i].0][src[i].1] >= np
                        && (src[i].0 == c ==> src[i].1 < k)
                        && out@[i] == (net.transition_seq()[cs[src[i].0][src[i].1] - np], lv@[src[i].0]),
                    forall|i: int, j: int| 0 <= i < j < src.len() ==> (#[trigger] src[i]).0 < (#[trigger] src[j]).0 || (src[i].0 == src[j].0 && src[i].1 < src[j].1),
                    forall|d: int, kk: int| 0 <= d < c && 0 <= kk < cs[d].len() && cs[d][kk] >= np ==> out@.contains((net.transition_seq()[#[trigger] cs[d][kk] - np], lv@[d])),
                    forall|kk: int| 0 <= kk < k && cs[c as int][kk] >= np ==> out@.contains((net.transition_seq()[#[trigger] cs[c as int][kk] - np], lv@[c as int])),
                decreases members@.len() - k,
            {
                let x = members[k];
                if x >= np {
                    proof {
                        assert(cs[c as int][k as int] == x);
                        assert(x < n);
                    }
                    let t = net.transition_at(x - np);
                    let ghost o0 = out@;
                    let pair = (t, lv[c]);
                    out.push(pair);
                    proof {
                        src = src.push((c as int, k as int));
                        assert forall|v: (Transition, LivenessLevel)| o0.contains(v) implies out@.contains(v) by {
                            crate::seq_facts::lemma_seq_push_contains(o0, pair, v);
                        }
                        assert(out@.contains(pair)) by {
                            crate::seq_facts::lemma_seq_push_contains(o0, pair, pair);
                        }
                        assert forall|i: int| 0 <= i < src.len() implies 0 <= (#[trigger] src[i]).0 <= c && 0 <= src[i].1 < cs[src[i].0].len() && cs[src[i].0][src[i].1] >= np
                            && (src[i].0 == c ==> src[i].1 < k + 1)
                            && out@[i] == (net.transition_seq()[cs[src[i].0][src[i].1] - np], lv@[src[i].0]) by {
                            if i < src.len() - 1 {
                                assert(out@[i] == o0[i]);
                            }
                        }
                    }
                }
                k = k + 1;
            }
            c = c + 1;
        }
        proof {
            net.lemma_wf();
            let net_s = self.structure();
            assert forall|i: int, j: int| 0 <= i < j < out@.len() implies (#[trigger] out@[i]).0 != (#[trigger] out@[j]).0 by {
                let (di, ki) = src[i];
                let (dj, kj) = src[j];
                assert(src[i].0 < src[j].0 || (src[i].0 == src[j].0 && src[i].1 < src[j].1));
                if out@[i].0 == out@[j].0 {
                    assert(cs[di][ki] < n && cs[dj][kj] < n);
                    assert(net.transition_seq()[cs[di][ki] - np] == net.transition_seq()[cs[dj][kj] - np]);
                    assert(cs[di][ki] == cs[dj][kj]);
                }
            }
            assert forall|j: int| 0 <= j < net_s.nt() implies out@.contains((net_s.transition_seq()[j], #[trigger] self.marked_scc_level(j))) by {
                let x = (np + j) as usize;
                assert(crate::scc::in_some_comp(cs, x));
                let (d, kk) = choose|d: int, kk: int| 0 <= d < cs.len() && 0 <= kk < cs[d].len() && #[trigger] cs[d][kk] == x;
                assert(comp_holds(cs, d, x));
                let dd = comp_of(cs, x);
                assert(0 <= dd < cs.len() && comp_holds(cs, dd, x));
                let k2 = choose|k: int| 0 <= k < cs[dd].len() && #[trigger] cs[dd][k] == x;
                assert(dd == d);
                assert(out@.contains((net.transition_seq()[cs[d][kk] - np], lv@[d])));
                assert(lv@[d] == component_level(cs, cedges@, node_marked@, d as usize));
            }
            assert forall|i: int| 0 <= i < out@.len() implies net_s.transition_set().contains(#[trigger] out@[i].0) by {
                let (d, kk) = src[i];
                assert(cs[d][kk] < n);
                assert(net_s.transition_seq().contains(net_s.transition_seq()[cs[d][kk] - np]));
            }
        }
        Some(out)
    }
}


/// Every one of `n` places.
pub open spec fn all_places(n: nat) -> Seq<bool> {
    Seq::new(n, |p: int| true)
}

impl<'a> PetriNet<'a> {
    /// A step between two unmarked places through a transition.
    pub open spec fn unmarked_step(&self) -> spec_fn(usize, usize) -> bool {
        |a: usize, b: usize| self.structure().place_step(self.unmarked_mask(), a, b)
    }

    /// The unmarked output places of the transition at dense index `j`.
    pub open spec fn unmarked_outputs(&self, j: usize) -> Set<usize> {
        Set::new(|q: usize| q < self.structure().np() && self.structure().produces(j as int, q as int) && self.unmarked_mask()[q as int])
    }

    /// Whether the transition at dense index `j` lies on a circuit of
    /// unmarked places: from its unmarked output places one reaches, through
    /// unmarked places, one of its unmarked input places.
    pub open spec fn on_unmarked_circuit(&self, j: usize) -> bool {
        exists|p: usize| p < self.structure().np() && #[trigger] self.structure().consumes(j as int, p as int) && self.unmarked_mask()[p as int]
            && rel_reaches(self.unmarked_step(), self.unmarked_outputs(j), p)
    }

    /// The transitions on unmarked circuits, by dense index.
    pub open spec fn circuit_dead(&self) -> Set<usize> {
        Set::new(|j: usize| j < self.structure().nt() && self.on_unmarked_circuit(j))
    }

    /// One transition feeding another through a place of `alive`.
    pub open spec fn feed_step(&self, alive: Seq<bool>) -> spec_fn(usize, usize) -> bool {
        |a: usize, b: usize| self.structure().feeds(alive, a, b)
    }

    /// The level of the transition at dense index `j` in a marked graph:
    /// L0 if a transition on an unmarked circuit feeds it through unmarked
    /// places only (or it lies on one itself); L1 if one feeds it otherwise;
    /// L4 if none does.
    pub open spec fn marked_graph_level(&self, j: usize) -> LivenessLevel {
        if rel_reaches(self.feed_step(self.unmarked_mask()), self.circuit_dead(), j) {
            LivenessLevel::L0
        } else if rel_reaches(self.feed_step(all_places(self.structure().np())), self.circuit_dead(), j) {
            LivenessLevel::L1
        } else {
            LivenessLevel::L4
        }
    }

    /// Liveness levels of a marked graph: transitions on unmarked circuits
    /// can never fire, and neither can any transition downstream of them
    /// through unmarked places only; transitions downstream through some
    /// marked place can fire finitely often; all others are live.
    pub(crate) fn liveness_via_marked_graph_unmarked_circuits(&self) -> (r: Vec<(Transition, LivenessLevel)>)
        requires
            self.wf(),
        ensures
            r@.len() == self.structure().nt(),
            forall|j: int| 0 <= j < r@.len() ==> #[trigger] r@[j] == (self.structure().transition_seq()[j], self.marked_graph_level(j as usize)),
    {
        let net = self.net_ref();
        proof {
            net.lemma_wf();
        }
        let np = net.num_places();
        let nt = net.num_transitions();
        let mut unmarked: Vec<bool> = Vec::new();
        let mut all: Vec<bool> = Vec::new();
        let mut p: usize = 0;
        while p < np
            invariant
                self.wf(),
                np == self.structure().np(),
                0 <= p <= np,
                unmarked@.len() == p,
                all@.len() == p,
                forall|k: int| 0 <= k < p ==> unmarked@[k] == self.unmarked_mask()[k],
                forall|k: int| 0 <= k < p ==> all@[k],
            decreases np - p,
        {
            unmarked.push(self.current_dense()[p] == 0);
            all.push(true);
            p = p + 1;
        }
        assert(unmarked@ == self.unmarked_mask());
        assert(all@ == all_places(np as nat));
        let pedges = net.alive_place_edges(&unmarked);
        proof {
            assert forall|a: usize, b: usize| #[trigger] (self.unmarked_step())(a, b) <==> exists|k: int| 0 <= k < pedges@.len() && #[trigger] pedges@[k] == (a, b) by {
                assert((self.unmarked_step())(a, b) == net.place_step(unmarked@, a, b));
            }
        }
        let mut dead: Vec<bool> = Vec::new();
        let mut j: usize = 0;
        while j < nt
            invariant
                self.wf(),
                *net == self.structure(),
                np == net.np(),
                nt == net.nt(),
                unmarked@ == self.unmarked_mask(),
                crate::reach::edges_below(pedges@, np as nat),
                forall|a: usize, b: usize| #[trigger] (self.unmarked_step())(a, b) <==> exists|k: int| 0 <= k < pedges@.len() && #[trigger] pedges@[k] == (a, b),
                0 <= j <= nt,
                dead@.len() == j,
                forall|k: int| 0 <= k < j ==> dead@[k] == self.circuit_dead().contains(k as usize),
            decreases nt - j,
        {
            let outs = net.output_places(j);
            let mut starts: Vec<bool> = Vec::new();
            let mut q: usize = 0;
            while q < np
                invariant
                    self.wf(),
                    *net == self.structure(),
                    np == net.np(),
                    j < nt,
                    unmarked@ == self.unmarked_mask(),
                    forall|x: usize| #[trigger] outs@.contains(x) <==> x < np && net.produces(j as int, x as int),
                    0 <= q <= np,
                    starts@.len() == q,
                    forall|k: int| 0 <= k < q ==> starts@[k] == (net.produces(j as int, k) && unmarked@[k]),
                decreases np - q,
            {
                let mut is_out = false;
                let mut i: usize = 0;
                while i < outs.len()
                    invariant
                        0 <= i <= outs@.len(),
                        is_out <==> exists|m: int| 0 <= m < i && outs@[m] == q,
                    decreases outs@.len() - i,
                {
                    if outs[i] == q {
                        is_out = true;
                    }
                    i = i + 1;
                }
                proof {
                    assert(is_out == outs@.contains(q));
                }
                starts.push(is_out && unmarked[q]);
                q = q + 1;
            }
            proof {
                assert(marked_set(starts@) =~= self.unmarked_outputs(j));
            }
            let reached = reach_along(np, &pedges, &starts);
            let ins = net.input_places(j);
            let mut found = false;
            let mut i: usize = 0;
            while i < ins.len()
                invariant
                    self.wf(),
                    *net == self.structure(),
                    np == net.np(),
                    j < nt,
                    unmarked@ == self.unmarked_mask(),
                    forall|m: int| 0 <= m < ins@.len() ==> #[trigger] ins@[m] < np,
                    forall|x: usize| #[trigger] ins@.contains(x) <==> x < np && net.consumes(j as int, x as int),
                    reached@.len() == np,
                    0 <= i <= ins@.len(),
                    found <==> exists|m: int| 0 <= m < i && unmarked@[ins@[m] as int] && reached@[#[trigger] ins@[m] as int],
                decreases ins@.len() - i,
            {
                let x = ins[i];
                if unmarked[x] && reached[x] {
                    found = true;
                }
                i = i + 1;
            }
            proof {
                assert forall|x: usize| x < np implies (#[trigger] reached@[x as int] <==> rel_reaches(self.unmarked_step(), self.unmarked_outputs(j), x)) by {
                    lemma_reaches_rel(pedges@, self.unmarked_step(), starts@, x);
                }
                if found {
                    let m = choose|m: int| 0 <= m < ins@.len() && unmarked@[ins@[m] as int] && reached@[#[trigger] ins@[m] as int];
                    let x = ins@[m];
                    assert(ins@.contains(x));
                    assert(net.consumes(j as int, x as int));
                    assert(self.on_unmarked_circuit(j));
                }
                if self.on_unmarked_circuit(j) {
                    let x = choose|x: usize| x < np && #[trigger] net.consumes(j as int, x as int) && self.unmarked_mask()[x as int]
                        && rel_reaches(self.unmarked_step(), self.unmarked_outputs(j), x);
                    assert(ins@.contains(x));
                    let m = choose|m: int| 0 <= m < ins@.len() && ins@[m] == x;
                    assert(reached@[ins@[m] as int]);
                }
                assert(found == self.circuit_dead().contains(j));
            }
            dead.push(found);
            j = j + 1;
        }
        assert(marked_set(dead@) =~= self.circuit_dead());
        let zero_edges = net.feed_edges(&unmarked);
        let all_edges = net.feed_edges(&all);
        let z = reach_along(nt, &zero_edges, &dead);
        let rr = reach_along(nt, &all_edges, &dead);
        let mut out: Vec<(Transition, LivenessLevel)> = Vec::new();
        let mut j: usize = 0;
        while j < nt
            invariant
                self.wf(),
                *net == self.structure(),
                np == net.np(),
                nt == net.nt(),
                unmarked@ == self.unmarked_mask(),
                all@ == all_places(np as nat),
                marked_set(dead@) == self.circuit_dead(),
                dead@.len() == nt,
                z@.len() == nt,
                rr@.len() == nt,
                forall|x: usize| x < nt ==> (#[trigger] z@[x as int] <==> reaches_along(zero_edges@, dead@, x)),
                forall|x: usize| x < nt ==> (#[trigger] rr@[x as int] <==> reaches_along(all_edges@, dead@, x)),
                forall|a: usize, b: usize| #[trigger] net.feeds(unmarked@, a, b) <==> exists|k: int| 0 <= k < zero_edges@.len() && #[trigger] zero_edges@[k] == (a, b),
                forall|a: usize, b: usize| #[trigger] net.feeds(all@, a, b) <==> exists|k: int| 0 <= k < all_edges@.len() && #[trigger] all_edges@[k] == (a, b),
                0 <= j <= nt,
                out@.len() == j,
                forall|k: int| 0 <= k < j ==> #[trigger] out@[k] == (net.transition_seq()[k], self.marked_graph_level(k as usize)),
            decreases nt - j,
        {
            proof {
                assert forall|a: usize, b: usize| #[trigger] (self.feed_step(unmarked@))(a, b) <==> exists|k: int| 0 <= k < zero_edges@.len() && #[trigger] zero_edges@[k] == (a, b) by {
                    assert((self.feed_step(unmarked@))(a, b) == net.feeds(unmarked@, a, b));
                }
                assert forall|a: usize, b: usize| #[trigger] (self.feed_step(all@))(a, b) <==> exists|k: int| 0 <= k < all_edges@.len() && #[trigger] all_edges@[k] == (a, b) by {
                    assert((self.feed_step(all@))(a, b) == net.feeds(all@, a, b));
                }
                lemma_reaches_rel(zero_edges@, self.feed_step(unmarked@), dead@, j);
                lemma_reaches_rel(all_edges@, self.feed_step(all@), dead@, j);
            }
            let level = if z[j] {
                LivenessLevel::L0
            } else if rr[j] {
                LivenessLevel::L1
            } else {
                LivenessLevel::L4
            };
            let t = net.transition_at(j);
            out.push((t, level));
            j = j + 1;
        }
        out
    }
}


/// Whether the entries hold exactly the transitions of `ts`, in order, each
/// with level `l`.
pub open spec fn uniform_levels(entries: Seq<(Transition, LivenessLevel)>, ts: Seq<Transition>, l: LivenessLevel) -> bool {
    &&& entries.len() == ts.len()
    &&& forall|j: int| 0 <= j < ts.len() ==> #[trigger] entries[j] == (ts[j], l)
}

impl<'a> PetriNet<'a> {
    /// The structural class of the net.
    pub open spec fn class_spec(&self) -> NetClass {
        classify_spec(self.structure().place_set(), self.structure().transition_set(), self.structure().arc_set())
    }

    /// Whether some place holds a token in the current marking.
    pub open spec fn has_token(&self) -> bool {
        exists|p: int| 0 <= p < self.structure().np() && self.current()[p] > 0
    }

    /// Whether the net is strongly connected.
    pub open spec fn strongly_connected(&self) -> bool {
        is_strongly_connected_spec(self.structure().place_set(), self.structure().transition_set(), self.structure().arc_set())
    }

    /// Whether the net is small enough for a petgraph graph (node and edge
    /// indices below `u32::MAX`).
    pub open spec fn fits_graph_index(&self) -> bool {
        &&& self.structure().np() + self.structure().nt() < u32::MAX
        &&& self.structure().flow_edges().len() < u32::MAX
    }

    /// Whether a polynomial procedure decides liveness levels for this system.
    pub open spec fn has_efficient_liveness(&self) -> bool {
        match self.class_spec() {
            NetClass::Circuit => true,
            NetClass::StateMachine => !self.has_token() || self.strongly_connected() || self.fits_graph_index(),
            NetClass::MarkedGraph => true,
            _ => false,
        }
    }

    /// The level that the polynomial procedure gives the transition at dense index `j`.
    pub open spec fn efficient_level(&self, j: int) -> LivenessLevel {
        match self.class_spec() {
            NetClass::Circuit => if self.has_token() { LivenessLevel::L4 } else { LivenessLevel::L0 },
            NetClass::StateMachine => if !self.has_token() {
                LivenessLevel::L0
            } else if self.strongly_connected() {
                LivenessLevel::L4
            } else {
                self.marked_scc_level(j)
            },
            NetClass::MarkedGraph => self.marked_graph_level(j as usize),
            _ => LivenessLevel::L0,
        }
    }

    /// Whether some place holds a token.
    fn any_token(&self) -> (r: bool)
        requires
            self.wf(),
        ensures
            r == self.has_token(),
    {
        let m = self.current_dense();
        let mut i: usize = 0;
        while i < m.len()
            invariant
                m@ == self.current(),
                m@.len() == self.structure().np(),
                0 <= i <= m@.len(),
                forall|k: int| 0 <= k < i ==> m@[k] == 0,
            decreases m@.len() - i,
        {
            if m[i] > 0 {
                proof {
                    assert(self.current()[i as int] > 0);
                }
                return true;
            }
            i = i + 1;
        }
        false
    }

    /// Every transition of the net with the same level.
    fn uniform(&self, l: LivenessLevel) -> (r: Vec<(Transition, LivenessLevel)>)
        requires
            self.wf(),
        ensures
            uniform_levels(r@, self.structure().transition_seq(), l),
    {
        let net = self.net_ref();
        let nt = net.num_transitions();
        let mut out: Vec<(Transition, LivenessLevel)> = Vec::new();
        let mut j: usize = 0;
        while j < nt
            invariant
                *net == self.structure(),
                nt == net.nt(),
                0 <= j <= nt,
                out@.len() == j,
                forall|k: int| 0 <= k < j ==> #[trigger] out@[k] == (net.transition_seq()[k], l),
            decreases nt - j,
        {
            out.push((net.transition_at(j), l));
            j = j + 1;
        }
        out
    }

    /// Levels listed in transition order are recorded once each and read back.
    proof fn lemma_ordered_levels(&self, a: LivenessAnalysis)
        requires
            self.wf(),
            a.entries().len() == self.structure().nt(),
            forall|j: int| 0 <= j < a.entries().len() ==> (#[trigger] a.entries()[j]).0 == self.structure().transition_seq()[j],
        ensures
            a.wf(),
            forall|j: int| 0 <= j < self.structure().nt() ==> a.level_spec(#[trigger] self.structure().transition_seq()[j]) == a.entries()[j].1,
    {
        self.structure().lemma_wf();
        let ts = self.structure().transition_seq();
        assert forall|i: int, k: int| 0 <= i < k < a.entries().len() implies (#[trigger] a.entries()[i]).0 != (#[trigger] a.entries()[k]).0 by {
            assert(ts[i] != ts[k]);
        }
        assert forall|j: int| 0 <= j < self.structure().nt() implies a.level_spec(#[trigger] ts[j]) == a.entries()[j].1 by {
            assert(a.entries()[j].0 == ts[j]);
            let c = choose|i: int| 0 <= i < a.entries().len() && (#[trigger] a.entries()[i]).0 == ts[j];
            if c != j {
                assert(ts[c] != ts[j]);
            }
        }
    }

    /// Levels recorded once each (in any order) are read back by transition.
    proof fn lemma_listed_levels(&self, a: LivenessAnalysis, j: int, l: LivenessLevel)
        requires
            a.wf(),
            a.entries().contains((self.structure().transition_seq()[j], l)),
        ensures
            a.level_spec(self.structure().transition_seq()[j]) == l,
    {
        let t = self.structure().transition_seq()[j];
        let i = choose|i: int| 0 <= i < a.entries().len() && a.entries()[i] == (t, l);
        assert(a.entries()[i].0 == t);
        let c = choose|i: int| 0 <= i < a.entries().len() && (#[trigger] a.entries()[i]).0 == t;
        if c != i {
            if c < i {
            } else {
            }
        }
    }

    /// The liveness levels of all transitions, when a polynomial procedure
    /// applies to the net's class: circuits and state machines (by their
    /// tokens and components) and marked graphs (by their unmarked circuits).
    pub fn efficient_liveness(&self) -> (r: Option<LivenessAnalysis>)
        requires
            self.wf(),
        ensures
            r is Some <==> self.has_efficient_liveness(),
            r matches Some(a) ==> a.wf() && (forall|i: int| 0 <= i < a.entries().len() ==> self.structure().transition_set().contains(#[trigger] a.entries()[i].0))
                && forall|j: int| 0 <= j < self.structure().nt() ==> a.level_spec(#[trigger] self.structure().transition_seq()[j]) == self.efficient_level(j),
    {
        let net = self.net_ref();
        proof {
            net.lemma_wf();
        }
        let class = net.class();
        let ghost ts = net.transition_seq();
        match class {
            NetClass::Circuit | NetClass::StateMachine => {
                let marked = self.any_token();
                if !marked {
                    let a = LivenessAnalysis::from_levels(self.uniform(LivenessLevel::L0));
                    proof {
                        self.lemma_ordered_levels(a);
                        assert forall|i: int| 0 <= i < a.entries().len() implies self.structure().transition_set().contains(#[trigger] a.entries()[i].0) by {
                            assert(ts.contains(ts[i]));
                        }
                    }
                    return Some(a);
                }
                let sc = match class {
                    NetClass::Circuit => true,
                    _ => net.is_strongly_connected(),
                };
                let is_circuit = match class {
                    NetClass::Circuit => true,
                    _ => false,
                };
                if is_circuit || sc {
                    let a = LivenessAnalysis::from_levels(self.uniform(LivenessLevel::L4));
                    proof {
                        self.lemma_ordered_levels(a);
                        assert forall|i: int| 0 <= i < a.entries().len() implies self.structure().transition_set().contains(#[trigger] a.entries()[i].0) by {
                            assert(ts.contains(ts[i]));
                        }
                    }
                    return Some(a);
                }
                match self.liveness_via_state_machine_marked_sccs() {
                    Some(v) => {
                        let a = LivenessAnalysis::from_levels(v);
                        proof {
                            assert forall|j: int| 0 <= j < self.structure().nt() implies a.level_spec(#[trigger] self.structure().transition_seq()[j]) == self.efficient_level(j) by {
                                assert(a.entries().contains((ts[j], self.marked_scc_level(j))));
                                self.lemma_listed_levels(a, j, self.marked_scc_level(j));
                            }
                        }
                        Some(a)
                    },
                    None => None,
                }
            },
            NetClass::MarkedGraph => {
                let a = LivenessAnalysis::from_levels(self.liveness_via_marked_graph_unmarked_circuits());
                proof {
                    self.lemma_ordered_levels(a);
                    assert forall|i: int| 0 <= i < a.entries().len() implies self.structure().transition_set().contains(#[trigger] a.entries()[i].0) by {
                        assert(ts.contains(ts[i]));
                    }
                }
                Some(a)
            },
            _ => None,
        }
    }

    /// Whether a polynomial procedure shows the system live, if one applies:
    /// a circuit is live when it holds a token, a state machine when it is
    /// also strongly connected, a marked graph when no circuit is unmarked.
    pub fn is_efficiently_live(&self) -> (r: Option<bool>)
        requires
            self.wf(),
        ensures
            r == (match self.class_spec() {
                NetClass::Circuit => Some(self.has_token()),
                NetClass::StateMachine => Some(self.strongly_connected() && self.has_token()),
                NetClass::MarkedGraph => Some(!self.structure().has_place_circuit(self.unmarked_mask())),
                _ => None::<bool>,
            }),
    {
        let net = self.net_ref();
        match net.class() {
            NetClass::Circuit => Some(self.any_token()),
            NetClass::StateMachine => Some(net.is_strongly_connected() && self.any_token()),
            NetClass::MarkedGraph => Some(!self.has_unmarked_circuit()),
            _ => None,
        }
    }

    /// Whether `g` is a reachability graph explored from the current marking,
    /// complete unless it outgrew what a machine word can count expansion steps for.
    pub open spec fn explored_from_here(&self, g: ReachabilityGraph<'a>) -> bool {
        &&& g.reach_wf()
        &&& g.structure() == self.structure()
        &&& g.initial_spec() == self.current()
        &&& g.is_complete() || usize::MAX <= (g.structure().nt() + 2) * (g.nodes().len() + 1)
    }

    /// Whether `ex` is a coverability exploration from the current marking
    /// that met an unbounded (`ω`) count.
    pub open spec fn found_unbounded(&self, ex: CoverabilityExplorer<'a>) -> bool {
        &&& ex.wf()
        &&& ex.graph_spec().structure() == self.structure()
        &&& ex.graph_spec().initial_spec() == self.current()
        &&& exists|i: int| 0 <= i < ex.graph_spec().nodes().len() && !is_finite_seq(#[trigger] ex.graph_spec().nodes()[i])
    }

    /// Whether the levels of `a` are those read off a reachability graph
    /// explored from the current marking, or all L0 after the exploration met
    /// an unbounded count.
    pub open spec fn graph_levels(&self, a: LivenessAnalysis) -> bool {
        ||| exists|g: ReachabilityGraph<'a>| #[trigger] self.explored_from_here(g)
            && forall|j: int| 0 <= j < self.structure().nt() ==> a.level_spec(#[trigger] self.structure().transition_seq()[j]) == g.graph_level(j as usize)
        ||| (exists|ex: CoverabilityExplorer<'a>| #[trigger] self.found_unbounded(ex))
            && forall|j: int| 0 <= j < self.structure().nt() ==> a.level_spec(#[trigger] self.structure().transition_seq()[j]) == LivenessLevel::L0
    }

    /// The liveness levels read off the reachability graph, or every
    /// transition dead when the system turns out to be unbounded.
    fn liveness_via_reachability_graph(&self) -> (r: LivenessAnalysis)
        requires
            self.wf(),
        ensures
            r.wf(),
            self.graph_levels(r),
            r.entries().len() == self.structure().nt(),
            forall|j: int| 0 <= j < r.entries().len() ==> (#[trigger] r.entries()[j]).0 == self.structure().transition_seq()[j],
    {
        match self.try_build_reachability_graph() {
            Ok(rg) => {
                let a = rg.transition_liveness();
                proof {
                    self.lemma_ordered_levels(a);
                    assert(self.explored_from_here(rg));
                }
                a
            },
            Err(ex) => {
                let a = LivenessAnalysis::from_levels(self.uniform(LivenessLevel::L0));
                proof {
                    self.lemma_ordered_levels(a);
                    assert(self.found_unbounded(ex));
                }
                a
            },
        }
    }

    /// The liveness level of every transition, by the cheapest procedure
    /// that applies: a polynomial one for circuits, state machines and
    /// marked graphs, otherwise the reachability graph (every transition
    /// counted dead when the system is unbounded).
    pub fn liveness(&self) -> (r: LivenessAnalysis)
        requires
            self.wf(),
        ensures
            r.wf(),
            self.has_efficient_liveness() ==> forall|j: int| 0 <= j < self.structure().nt() ==> r.level_spec(#[trigger] self.structure().transition_seq()[j]) == self.efficient_level(j),
            !self.has_efficient_liveness() ==> self.graph_levels(r),
    {
        match self.efficient_liveness() {
            Some(a) => a,
            None => self.liveness_via_reachability_graph(),
        }
    }

    /// Whether the system is live: every transition is L4-live.
    pub fn is_live(&self) -> (r: bool)
        requires
            self.wf(),
        ensures
            self.class_spec() is Circuit ==> r == self.has_token(),
            self.class_spec() is StateMachine ==> r == (self.strongly_connected() && self.has_token()),
            self.class_spec() is MarkedGraph ==> r == !self.structure().has_place_circuit(self.unmarked_mask()),
            !(self.class_spec() is Circuit || self.class_spec() is StateMachine || self.class_spec() is MarkedGraph) ==> {
                ||| exists|g: ReachabilityGraph<'a>| #[trigger] self.explored_from_here(g)
                    && (r <==> forall|j: int| 0 <= j < self.structure().nt() ==> #[trigger] g.graph_level(j as usize) is L4)
                ||| !r && exists|ex: CoverabilityExplorer<'a>| #[trigger] self.found_unbounded(ex)
            },
    {
        match self.is_efficiently_live() {
            Some(b) => b,
            None => {
                let a = self.liveness_via_reachability_graph();
                let r = a.is_live();
                proof {
                    let net = self.structure();
                    self.lemma_ordered_levels(a);
                    if exists|g: ReachabilityGraph<'a>| #[trigger] self.explored_from_here(g)
                        && forall|j: int| 0 <= j < self.structure().nt() ==> a.level_spec(#[trigger] self.structure().transition_seq()[j]) == g.graph_level(j as usize) {
                        let g = choose|g: ReachabilityGraph<'a>| #[trigger] self.explored_from_here(g)
                            && forall|j: int| 0 <= j < self.structure().nt() ==> a.level_spec(#[trigger] self.structure().transition_seq()[j]) == g.graph_level(j as usize);
                        if r {
                            assert forall|j: int| 0 <= j < self.structure().nt() implies #[trigger] g.graph_level(j as usize) is L4 by {
                                assert(a.level_spec(net.transition_seq()[j]) == a.entries()[j].1);
                            }
                        } else {
                            let i = choose|i: int| 0 <= i < a.entries().len() && !((#[trigger] a.entries()[i]).1 is L4);
                            assert(a.level_spec(net.transition_seq()[i]) == a.entries()[i].1);
                            assert(!(g.graph_level(i as usize) is L4));
                        }
                    }
                }
                r
            },
        }
    }
}

} // verus!
