//! Directed cycles among a subset of the nodes of a finite graph given by
//! successor lists.
use vstd::prelude::*;

verus! {

/// Whether `b` follows `a` in the graph restricted to the `alive` nodes.
pub open spec fn live_edge(succ: Seq<Seq<usize>>, alive: Seq<bool>, a: usize, b: usize) -> bool {
    &&& a < succ.len()
    &&& b < succ.len()
    &&& alive[a as int]
    &&& alive[b as int]
    &&& succ[a as int].contains(b)
}

/// The index after `i` in a cyclic sequence of length `len`.
pub open spec fn next_index(i: int, len: int) -> int {
    if i + 1 < len {
        i + 1
    } else {
        0
    }
}

/// Whether `c` is a directed cycle through alive nodes: nonempty, and each
/// node followed by the next, the last by the first.
pub open spec fn is_live_cycle(succ: Seq<Seq<usize>>, alive: Seq<bool>, c: Seq<usize>) -> bool {
    &&& c.len() > 0
    &&& forall|i: int| 0 <= i < c.len() ==> #[trigger] live_edge(succ, alive, c[i], c[next_index(i, c.len() as int)])
}

/// Whether some directed cycle runs through alive nodes only.
pub open spec fn has_live_cycle(succ: Seq<Seq<usize>>, alive: Seq<bool>) -> bool {
    exists|c: Seq<usize>| #[trigger] is_live_cycle(succ, alive, c)
}

/// Successor lists over the nodes below their own count.
pub open spec fn lists_in_range(succ: Seq<Seq<usize>>) -> bool {
    forall|a: int, k: int| 0 <= a < succ.len() && 0 <= k < succ[a].len() ==> #[trigger] succ[a][k] < succ.len()
}

/// The number of `true` entries.
pub open spec fn count_true(s: Seq<bool>) -> nat
    decreases s.len(),
{
    if s.len() == 0 {
        0
    } else {
        count_true(s.drop_last()) + (if s.last() {
            1nat
        } else {
            0nat
        })
    }
}

pub(crate) proof fn lemma_count_clear(s: Seq<bool>, i: int)
    requires
        0 <= i < s.len(),
        s[i],
    ensures
        count_true(s.update(i, false)) + 1 == count_true(s),
    decreases s.len(),
{
    let u = s.update(i, false);
    if i < s.len() - 1 {
        assert(u.drop_last() == s.drop_last().update(i, false));
        lemma_count_clear(s.drop_last(), i);
    } else {
        assert(u.drop_last() == s.drop_last());
    }
}

/// Some successor of `a` among the `alive` nodes.
pub open spec fn pick_successor(succ: Seq<Seq<usize>>, alive: Seq<bool>, a: usize) -> usize {
    choose|b: usize| #[trigger] live_edge(succ, alive, a, b)
}

/// The walk that starts at `start` and always moves to the picked successor.
pub open spec fn walk(succ: Seq<Seq<usize>>, alive: Seq<bool>, start: usize, k: nat) -> usize
    decreases k,
{
    if k == 0 {
        start
    } else {
        pick_successor(succ, alive, walk(succ, alive, start, (k - 1) as nat))
    }
}

/// Whether every alive node has an alive successor.
pub open spec fn closed_alive(succ: Seq<Seq<usize>>, alive: Seq<bool>) -> bool {
    forall|a: usize| a < succ.len() && #[trigger] alive[a as int] ==> exists|b: usize| #[trigger] live_edge(succ, alive, a, b)
}

proof fn lemma_walk_alive(succ: Seq<Seq<usize>>, alive: Seq<bool>, start: usize, k: nat)
    requires
        alive.len() == succ.len(),
        closed_alive(succ, alive),
        start < succ.len(),
        alive[start as int],
    ensures
        walk(succ, alive, start, k) < succ.len(),
        alive[walk(succ, alive, start, k) as int],
        live_edge(succ, alive, walk(succ, alive, start, k), walk(succ, alive, start, k + 1)),
    decreases k,
{
    if k > 0 {
        lemma_walk_alive(succ, alive, start, (k - 1) as nat);
    }
    let a = walk(succ, alive, start, k);
    assert(exists|b: usize| #[trigger] live_edge(succ, alive, a, b));
    assert(walk(succ, alive, start, k + 1) == pick_successor(succ, alive, a));
}

/// In a finite graph where every alive node has an alive successor, some
/// alive node lies on a cycle: a walk longer than the node count repeats a node.
proof fn lemma_closed_has_cycle(succ: Seq<Seq<usize>>, alive: Seq<bool>, start: usize)
    requires
        alive.len() == succ.len(),
        succ.len() <= usize::MAX,
        closed_alive(succ, alive),
        start < succ.len(),
        alive[start as int],
    ensures
        has_live_cycle(succ, alive),
{
    let n = succ.len();
    let w = Seq::new(n + 1, |k: int| walk(succ, alive, start, k as nat));
    assert forall|k: int| 0 <= k < w.len() implies #[trigger] w[k] < n by {
        lemma_walk_alive(succ, alive, start, k as nat);
    }
    if w.no_duplicates() {
        crate::seq_facts::lemma_distinct_below(w, n as usize);
    }
    let (i, j) = choose|i: int, j: int| 0 <= i < w.len() && 0 <= j < w.len() && i != j && w[i] == w[j];
    let (lo, hi) = if i < j {
        (i, j)
    } else {
        (j, i)
    };
    let c = w.subrange(lo, hi);
    assert forall|x: int| 0 <= x < c.len() implies #[trigger] live_edge(succ, alive, c[x], c[next_index(x, c.len() as int)]) by {
        lemma_walk_alive(succ, alive, start, (lo + x) as nat);
        assert(c[x] == walk(succ, alive, start, (lo + x) as nat));
        if x + 1 < c.len() {
            assert(c[x + 1] == walk(succ, alive, start, (lo + x + 1) as nat));
        } else {
            assert(c[0] == w[lo]);
            assert(w[hi] == walk(succ, alive, start, (lo + x + 1) as nat));
        }
    }
    assert(is_live_cycle(succ, alive, c));
}

/// Whether some directed cycle of the graph runs through alive nodes only.
///
/// Nodes without an alive successor are struck out until none is left to
/// strike; a cycle exists exactly when some node survives.
pub fn has_cycle(succ: &Vec<Vec<usize>>, alive: &Vec<bool>) -> (r: bool)
    requires
        alive@.len() == succ@.len(),
        lists_in_range(succ.deep_view()),
    ensures
        r == has_live_cycle(succ.deep_view(), alive@),
{
    let ghost g = succ.deep_view();
    let n = succ.len();
    let mut remaining = alive.clone();
    assert(remaining@ == alive@);
    assert forall|c: Seq<usize>, i: int| #[trigger] is_live_cycle(g, alive@, c) && 0 <= i < c.len() implies remaining@[#[trigger] c[i] as int] by {
        assert(live_edge(g, alive@, c[i], c[next_index(i, c.len() as int)]));
    }
    let mut changed = true;
    while changed
        invariant
            g == succ.deep_view(),
            n == g.len(),
            alive@.len() == n,
            remaining@.len() == n,
            lists_in_range(g),
            forall|a: int| 0 <= a < n && #[trigger] remaining@[a] ==> alive@[a],
            forall|c: Seq<usize>, i: int| #[trigger] is_live_cycle(g, alive@, c) && 0 <= i < c.len() ==> remaining@[#[trigger] c[i] as int],
            !changed ==> closed_alive(g, remaining@),
        decreases count_true(remaining@) + (if changed { 1nat } else { 0nat }),
    {
        let ghost before = remaining@;
        changed = false;
        let mut a: usize = 0;
        while a < n
            invariant
                g == succ.deep_view(),
                n == g.len(),
                alive@.len() == n,
                remaining@.len() == n,
                lists_in_range(g),
                0 <= a <= n,
                forall|x: int| 0 <= x < n && #[trigger] remaining@[x] ==> alive@[x],
                forall|c: Seq<usize>, i: int| #[trigger] is_live_cycle(g, alive@, c) && 0 <= i < c.len() ==> remaining@[#[trigger] c[i] as int],
                !changed ==> remaining@ == before,
                changed ==> count_true(remaining@) < count_true(before),
                !changed ==> forall|x: usize| x < a && #[trigger] remaining@[x as int] ==> exists|b: usize| #[trigger] live_edge(g, remaining@, x, b),
            decreases n - a,
        {
            if remaining[a] {
                let list = &succ[a];
                assert(list@ == g[a as int]);
                let mut found = false;
                let mut k: usize = 0;
                while k < list.len()
                    invariant
                        g == succ.deep_view(),
                        n == g.len(),
                        remaining@.len() == n,
                        lists_in_range(g),
                        0 <= a < n,
                        list@ == g[a as int],
                        0 <= k <= list@.len(),
                        remaining@[a as int],
                        found ==> exists|b: usize| #[trigger] live_edge(g, remaining@, a, b),
                        !found ==> forall|j: int| 0 <= j < k ==> !remaining@[#[trigger] list@[j] as int],
                    decreases list@.len() - k,
                {
                    let b = list[k];
                    assert(b < n);
                    if remaining[b] {
                        found = true;
                        assert(live_edge(g, remaining@, a, b));
                    }
                    k = k + 1;
                }
                if !found {
                    proof {
                        assert forall|c: Seq<usize>, i: int| #![trigger is_live_cycle(g, alive@, c), c[i]] is_live_cycle(g, alive@, c) && 0 <= i < c.len() implies c[i] != a && remaining@[c[i] as int] by {
                            if c[i] == a {
                                let nx = next_index(i, c.len() as int);
                                assert(live_edge(g, alive@, c[i], c[nx]));
                                let b = c[nx];
                                let j = choose|j: int| 0 <= j < list@.len() && list@[j] == b;
                                assert(remaining@[b as int]);
                            }
                        }
                        lemma_count_clear(remaining@, a as int);
                    }
                    let ghost prev = remaining@;
                    remaining.set(a, false);
                    proof {
                        assert(count_true(remaining@) < count_true(prev));
                        assert forall|c: Seq<usize>, i: int| #![trigger is_live_cycle(g, alive@, c), c[i]] is_live_cycle(g, alive@, c) && 0 <= i < c.len() implies remaining@[c[i] as int] by {
                            assert(live_edge(g, alive@, c[i], c[next_index(i, c.len() as int)]));
                            assert(c[i] != a && prev[c[i] as int]);
                        }
                    }
                    changed = true;
                }
            }
            a = a + 1;
        }
    }
    let mut a: usize = 0;
    while a < n
        invariant
            g == succ.deep_view(),
            n == g.len(),
            alive@.len() == n,
            remaining@.len() == n,
            lists_in_range(g),
            0 <= a <= n,
            forall|x: int| 0 <= x < n && #[trigger] remaining@[x] ==> alive@[x],
            forall|c: Seq<usize>, i: int| #[trigger] is_live_cycle(g, alive@, c) && 0 <= i < c.len() ==> remaining@[#[trigger] c[i] as int],
            closed_alive(g, remaining@),
            forall|x: int| 0 <= x < a ==> !remaining@[x],
        decreases n - a,
    {
        if remaining[a] {
            proof {
                lemma_closed_has_cycle(g, remaining@, a);
                let c = choose|c: Seq<usize>| #[trigger] is_live_cycle(g, remaining@, c);
                assert forall|i: int| 0 <= i < c.len() implies #[trigger] live_edge(g, alive@, c[i], c[next_index(i, c.len() as int)]) by {
                    assert(live_edge(g, remaining@, c[i], c[next_index(i, c.len() as int)]));
                }
                assert(is_live_cycle(g, alive@, c));
            }
            return true;
        }
        a = a + 1;
    }
    proof {
        if has_live_cycle(g, alive@) {
            let c = choose|c: Seq<usize>| #[trigger] is_live_cycle(g, alive@, c);
            assert(remaining@[c[0] as int]);
            assert(live_edge(g, alive@, c[0], c[next_index(0, c.len() as int)]));
        }
    }
    false
}

} // verus!
