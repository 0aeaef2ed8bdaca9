//! Bandwidth-reducing node ordering (Reverse Cuthill–McKee) for a net's dense indices.

use vstd::prelude::*;
use crate::net::{Arc, Place, Transition};
use crate::seq_facts::{lemma_distinct_below, lemma_distinct_covering};
use crate::topology::{arc_at_place, arc_at_transition, arc_between, place_neighbors, topology_wf, transition_neighbors};

verus! {

broadcast use crate::seq_facts::lemma_seq_push_contains;

/// Every entry of every list is below `n`.
pub open spec fn lists_below(adj: Seq<Vec<usize>>, n: usize) -> bool {
    forall|i: int, k: int| 0 <= i < adj.len() && 0 <= k < adj[i]@.len() ==> #[trigger] adj[i]@[k] < n
}

/// A vector of `n` copies of `false`.
fn falses(n: usize) -> (r: Vec<bool>)
    ensures
        r@.len() == n,
        forall|k: int| 0 <= k < n ==> !r@[k],
{
    let mut r: Vec<bool> = Vec::new();
    let mut i: usize = 0;
    while i < n
        invariant
            0 <= i <= n,
            r@.len() == i,
            forall|k: int| 0 <= k < i ==> !r@[k],
        decreases n - i,
    {
        r.push(false);
        i = i + 1;
    }
    r
}

/// Whether unified nodes `x` and `y` (places in `[0, P)`, transitions in
/// `[P, P + T)`) are joined by an arc, in either direction.
pub open spec fn unified_adjacent(places: Seq<Place>, transitions: Seq<Transition>, arcs: Seq<Arc>, x: int, y: int) -> bool {
    let np = places.len() as int;
    let nt = transitions.len() as int;
    ||| 0 <= x < np && np <= y < np + nt && arc_between(arcs.to_set(), places[x], transitions[y - np])
    ||| np <= x < np + nt && 0 <= y < np && arc_between(arcs.to_set(), places[y], transitions[x - np])
}

/// The degree of unified node `x` in the undirected net: the number of arcs at
/// it, so that arcs in both directions between one place and one transition
/// count twice.
pub open spec fn unified_degree(places: Seq<Place>, transitions: Seq<Transition>, arcs: Seq<Arc>, x: int) -> nat {
    if x < places.len() {
        arcs.filter(arc_at_place(places[x])).len()
    } else {
        arcs.filter(arc_at_transition(transitions[x - places.len()])).len()
    }
}

/// Undirected adjacency over the unified index space: places occupy `[0, P)` and
/// transitions `[P, P + T)`. Arcs in both directions between a place and a
/// transition contribute two entries.
fn unified_adjacency(places: &Vec<Place>, transitions: &Vec<Transition>, arcs: &Vec<Arc>) -> (r: Vec<Vec<usize>>)
    requires
        topology_wf(places@, transitions@, arcs@),
        places@.len() + transitions@.len() <= usize::MAX,
    ensures
        r@.len() == places@.len() + transitions@.len(),
        lists_below(r@, (places@.len() + transitions@.len()) as usize),
        forall|i: int, y: usize| 0 <= i < r@.len() ==> (#[trigger] r@[i]@.contains(y) <==> unified_adjacent(places@, transitions@, arcs@, i, y as int)),
        forall|i: int| 0 <= i < r@.len() ==> #[trigger] r@[i]@.len() == unified_degree(places@, transitions@, arcs@, i),
{
    let np = places.len();
    let nt = transitions.len();
    let n = np + nt;
    let mut adj: Vec<Vec<usize>> = Vec::new();
    let mut i: usize = 0;
    while i < np
        invariant
            0 <= i <= np,
            np == places@.len(),
            nt == transitions@.len(),
            n == np + nt,
            topology_wf(places@, transitions@, arcs@),
            adj@.len() == i,
            lists_below(adj@, n),
            forall|ii: int, y: usize| 0 <= ii < adj@.len() ==> (#[trigger] adj@[ii]@.contains(y) <==> unified_adjacent(places@, transitions@, arcs@, ii, y as int)),
            forall|ii: int| 0 <= ii < adj@.len() ==> #[trigger] adj@[ii]@.len() == unified_degree(places@, transitions@, arcs@, ii),
        decreases np - i,
    {
        let nb = place_neighbors(transitions, arcs, places[i]);
        let mut shifted: Vec<usize> = Vec::new();
        let mut k: usize = 0;
        while k < nb.len()
            invariant
                0 <= k <= nb@.len(),
                n == np + nt,
                forall|m: int| 0 <= m < nb@.len() ==> #[trigger] nb@[m] < nt,
                forall|m: int| 0 <= m < shifted@.len() ==> #[trigger] shifted@[m] < n,
                shifted@.len() == k,
                forall|m: int| 0 <= m < k ==> #[trigger] shifted@[m] == np + nb@[m],
            decreases nb@.len() - k,
        {
            shifted.push(np + nb[k]);
            k = k + 1;
        }
        proof {
            assert forall|y: usize| #[trigger] shifted@.contains(y) <==> unified_adjacent(places@, transitions@, arcs@, i as int, y as int) by {
                if shifted@.contains(y) {
                    let m = choose|m: int| 0 <= m < shifted@.len() && shifted@[m] == y;
                    assert(nb@.contains(nb@[m]));
                }
                if unified_adjacent(places@, transitions@, arcs@, i as int, y as int) {
                    let j = (y - np) as usize;
                    assert(nb@.contains(j));
                    let m = choose|m: int| 0 <= m < nb@.len() && nb@[m] == j;
                    assert(shifted@[m] == y);
                }
            }
        }
        let ghost old_adj = adj@;
        adj.push(shifted);
        proof {
            assert forall|ii: int| 0 <= ii < adj@.len() implies #[trigger] adj@[ii]@.len() == unified_degree(places@, transitions@, arcs@, ii) by {
                if ii < old_adj.len() {
                    assert(adj@[ii] == old_adj[ii]);
                }
            }
            assert forall|ii: int, y: usize| 0 <= ii < adj@.len() implies (#[trigger] adj@[ii]@.contains(y) <==> unified_adjacent(places@, transitions@, arcs@, ii, y as int)) by {
                if ii < old_adj.len() {
                    assert(adj@[ii] == old_adj[ii]);
                }
            }
        }
        i = i + 1;
    }
    let mut j: usize = 0;
    while j < nt
        invariant
            0 <= j <= nt,
            np == places@.len(),
            nt == transitions@.len(),
            n == np + nt,
            topology_wf(places@, transitions@, arcs@),
            adj@.len() == np + j,
            lists_below(adj@, n),
            forall|ii: int, y: usize| 0 <= ii < adj@.len() ==> (#[trigger] adj@[ii]@.contains(y) <==> unified_adjacent(places@, transitions@, arcs@, ii, y as int)),
            forall|ii: int| 0 <= ii < adj@.len() ==> #[trigger] adj@[ii]@.len() == unified_degree(places@, transitions@, arcs@, ii),
        decreases nt - j,
    {
        let nb = transition_neighbors(places, arcs, transitions[j]);
        let ghost old_adj = adj@;
        adj.push(nb);
        proof {
            assert forall|ii: int| 0 <= ii < adj@.len() implies #[trigger] adj@[ii]@.len() == unified_degree(places@, transitions@, arcs@, ii) by {
                if ii < old_adj.len() {
                    assert(adj@[ii] == old_adj[ii]);
                } else {
                    assert(ii - np == j);
                }
            }
            assert forall|ii: int, y: usize| 0 <= ii < adj@.len() implies (#[trigger] adj@[ii]@.contains(y) <==> unified_adjacent(places@, transitions@, arcs@, ii, y as int)) by {
                if ii < old_adj.len() {
                    assert(adj@[ii] == old_adj[ii]);
                } else {
                    assert(adj@[ii] == nb);
                    assert(ii - np == j);
                }
            }
        }
        j = j + 1;
    }
    adj
}

/// The entries of `s` in order, each kept at its first occurrence only.
pub open spec fn first_occurrences(s: Seq<usize>) -> Seq<usize>
    decreases s.len(),
{
    if s.len() == 0 {
        seq![]
    } else {
        let r = first_occurrences(s.drop_last());
        if r.contains(s.last()) {
            r
        } else {
            r.push(s.last())
        }
    }
}

/// The entries of `v`, first occurrences only.
fn dedup_indices(v: &Vec<usize>, n: usize) -> (r: Vec<usize>)
    requires
        forall|k: int| 0 <= k < v@.len() ==> #[trigger] v@[k] < n,
    ensures
        r@ == first_occurrences(v@),
        forall|k: int| 0 <= k < r@.len() ==> #[trigger] r@[k] < n,
        r@.no_duplicates(),
        forall|x: usize| #[trigger] r@.contains(x) <==> v@.contains(x),
{
    let mut r: Vec<usize> = Vec::new();
    let mut i: usize = 0;
    while i < v.len()
        invariant
            0 <= i <= v@.len(),
            forall|k: int| 0 <= k < v@.len() ==> #[trigger] v@[k] < n,
            forall|k: int| 0 <= k < r@.len() ==> #[trigger] r@[k] < n,
            r@.no_duplicates(),
            r@ == first_occurrences(v@.take(i as int)),
            forall|x: usize| #[trigger] r@.contains(x) <==> v@.take(i as int).contains(x),
        decreases v@.len() - i,
    {
        let x = v[i];
        proof {
            assert(v@.take(i + 1).drop_last() == v@.take(i as int));
            assert(v@.take(i + 1).last() == x);
        }
        let mut found = false;
        let mut k: usize = 0;
        while k < r.len()
            invariant
                0 <= k <= r@.len(),
                found == exists|m: int| 0 <= m < k && r@[m] == x,
            decreases r@.len() - k,
        {
            if r[k] == x {
                found = true;
            }
            k = k + 1;
        }
        if !found {
            let ghost old_r = r@;
            proof {
                assert(!old_r.contains(x));
            }
            r.push(x);
            proof {
                assert forall|a: int, b: int| 0 <= a < b < r@.len() implies r@[a] != r@[b] by {
                    if b == r@.len() - 1 {
                        assert(old_r[a] == r@[a]);
                        assert(old_r.contains(r@[a]));
                    }
                }
            }
        }
        proof {
            if found {
                let m = choose|m: int| 0 <= m < r@.len() && r@[m] == x;
                assert(r@.contains(x));
            }
            assert(v@.take(i + 1) == v@.take(i as int).push(x));
        }
        i = i + 1;
    }
    proof {
        assert(v@.take(v@.len() as int) == v@);
    }
    r
}

/// `v` ordered by increasing `degrees`, ties kept in input order.
fn sort_by_degree(v: &Vec<usize>, degrees: &Vec<usize>, n: usize) -> (r: Vec<usize>)
    requires
        degrees@.len() == n,
        forall|k: int| 0 <= k < v@.len() ==> #[trigger] v@[k] < n,
    ensures
        forall|k: int| 0 <= k < r@.len() ==> #[trigger] r@[k] < n,
        r@.len() == v@.len(),
        forall|x: usize| #[trigger] r@.contains(x) <==> v@.contains(x),
        forall|a: int, b: int| 0 <= a < b < r@.len() ==> degrees@[#[trigger] r@[a] as int] <= degrees@[#[trigger] r@[b] as int],
{
    let mut r: Vec<usize> = Vec::new();
    let mut i: usize = 0;
    while i < v.len()
        invariant
            0 <= i <= v@.len(),
            degrees@.len() == n,
            r@.len() == i,
            forall|k: int| 0 <= k < v@.len() ==> #[trigger] v@[k] < n,
            forall|k: int| 0 <= k < r@.len() ==> #[trigger] r@[k] < n,
            forall|y: usize| #[trigger] r@.contains(y) <==> v@.take(i as int).contains(y),
            forall|a: int, b: int| 0 <= a < b < r@.len() ==> degrees@[#[trigger] r@[a] as int] <= degrees@[#[trigger] r@[b] as int],
        decreases v@.len() - i,
    {
        let x = v[i];
        let dx = degrees[x];
        let mut pos: usize = 0;
        while pos < r.len() && degrees[r[pos]] <= dx
            invariant
                0 <= pos <= r@.len(),
                degrees@.len() == n,
                dx == degrees@[x as int],
                forall|k: int| 0 <= k < r@.len() ==> #[trigger] r@[k] < n,
                forall|k: int| 0 <= k < pos ==> degrees@[#[trigger] r@[k] as int] <= dx,
            decreases r@.len() - pos,
        {
            pos = pos + 1;
        }
        let ghost old_r = r@;
        r.insert(pos, x);
        proof {
            assert forall|k: int| 0 <= k < r@.len() implies #[trigger] r@[k] < n by {
                if k < pos {
                    assert(r@[k] == old_r[k]);
                } else if k > pos {
                    assert(r@[k] == old_r[k - 1]);
                }
            }
            assert(r@ == old_r.insert(pos as int, x));
            assert(pos < old_r.len() ==> dx < degrees@[old_r[pos as int] as int]);
            assert forall|a: int, b: int| 0 <= a < b < r@.len() implies degrees@[#[trigger] r@[a] as int] <= degrees@[#[trigger] r@[b] as int] by {
                if b < pos {
                    assert(r@[a] == old_r[a] && r@[b] == old_r[b]);
                } else if b == pos {
                    assert(r@[a] == old_r[a]);
                } else if a < pos {
                    assert(r@[a] == old_r[a] && r@[b] == old_r[b - 1]);
                } else if a == pos {
                    assert(r@[b] == old_r[b - 1]);
                    if b - 1 > pos {
                        assert(degrees@[old_r[pos as int] as int] <= degrees@[old_r[b - 1] as int]);
                    }
                } else {
                    assert(r@[a] == old_r[a - 1] && r@[b] == old_r[b - 1]);
                }
            }
            assert(v@.take(i + 1) == v@.take(i as int).push(x));
            assert forall|y: usize| #[trigger] r@.contains(y) <==> v@.take(i + 1).contains(y) by {
                if r@.contains(y) {
                    let k = choose|k: int| 0 <= k < r@.len() && r@[k] == y;
                    if k < pos {
                        assert(old_r[k] == y);
                        assert(old_r.contains(y));
                    } else if k > pos {
                        assert(old_r[k - 1] == y);
                        assert(old_r.contains(y));
                    }
                }
                if old_r.contains(y) {
                    let k = choose|k: int| 0 <= k < old_r.len() && old_r[k] == y;
                    if k < pos {
                        assert(r@[k] == y);
                    } else {
                        assert(r@[k + 1] == y);
                    }
                }
                if y == x {
                    assert(r@[pos as int] == x);
                }
            }
        }
        i = i + 1;
    }
    proof {
        assert(v@.take(v@.len() as int) == v@);
    }
    r
}

/// The nodes that some node of `s` lists as a neighbour.
pub open spec fn neighbors_of(adj: Seq<Vec<usize>>, s: Set<usize>) -> Set<usize> {
    Set::new(|w: usize| exists|v: usize| s.contains(v) && #[trigger] adj[v as int]@.contains(w))
}

/// The nodes that some entry of `s` lists as a neighbour.
pub open spec fn neighbors_of_seq(adj: Seq<Vec<usize>>, s: Seq<usize>) -> Set<usize> {
    Set::new(|w: usize| exists|j: int| 0 <= j < s.len() && #[trigger] adj[s[j] as int]@.contains(w))
}

/// The nodes at most `d` steps from `start`.
pub open spec fn within_levels(adj: Seq<Vec<usize>>, start: usize, d: nat) -> Set<usize>
    decreases d,
{
    if d == 0 {
        set![start]
    } else {
        let prev = within_levels(adj, start, (d - 1) as nat);
        prev.union(neighbors_of(adj, prev))
    }
}

/// The nodes exactly `d` steps from `start`: the `d`-th breadth-first level.
pub open spec fn bfs_level(adj: Seq<Vec<usize>>, start: usize, d: nat) -> Set<usize> {
    if d == 0 {
        set![start]
    } else {
        within_levels(adj, start, d).difference(within_levels(adj, start, (d - 1) as nat))
    }
}

/// One more level is reached from the nodes of the last level alone.
proof fn lemma_level_step(adj: Seq<Vec<usize>>, start: usize, d: nat)
    ensures
        forall|x: usize| #[trigger] within_levels(adj, start, d + 1).contains(x)
            <==> within_levels(adj, start, d).contains(x) || neighbors_of(adj, bfs_level(adj, start, d)).contains(x),
{
    let w = within_levels(adj, start, d);
    let l = bfs_level(adj, start, d);
    assert(within_levels(adj, start, d + 1) == w.union(neighbors_of(adj, w)));
    assert forall|x: usize| #[trigger] within_levels(adj, start, d + 1).contains(x)
        implies w.contains(x) || neighbors_of(adj, l).contains(x) by {
        if !w.contains(x) {
            let v = choose|v: usize| w.contains(v) && #[trigger] adj[v as int]@.contains(x);
            if !l.contains(v) {
                assert(d > 0);
                let wp = within_levels(adj, start, (d - 1) as nat);
                assert(wp.contains(v));
                assert(neighbors_of(adj, wp).contains(x));
            } else {
                assert(neighbors_of(adj, l).contains(x));
            }
        }
    }
    assert forall|x: usize| neighbors_of(adj, l).contains(x) implies #[trigger] within_levels(adj, start, d + 1).contains(x) by {
        let v = choose|v: usize| l.contains(v) && #[trigger] adj[v as int]@.contains(x);
        assert(w.contains(v));
        assert(neighbors_of(adj, w).contains(x));
    }
}

/// Neighbours of a sequence extended by one node.
proof fn lemma_neighbors_push(adj: Seq<Vec<usize>>, s: Seq<usize>, node: usize)
    ensures
        forall|w: usize| #[trigger] neighbors_of_seq(adj, s.push(node)).contains(w)
            <==> neighbors_of_seq(adj, s).contains(w) || adj[node as int]@.contains(w),
{
    let t = s.push(node);
    assert forall|w: usize| #[trigger] neighbors_of_seq(adj, t).contains(w)
        implies neighbors_of_seq(adj, s).contains(w) || adj[node as int]@.contains(w) by {
        let j = choose|j: int| 0 <= j < t.len() && #[trigger] adj[t[j] as int]@.contains(w);
        if j < s.len() {
            assert(adj[s[j] as int]@.contains(w));
        }
    }
    assert forall|w: usize| neighbors_of_seq(adj, s).contains(w) implies #[trigger] neighbors_of_seq(adj, t).contains(w) by {
        let j = choose|j: int| 0 <= j < s.len() && #[trigger] adj[s[j] as int]@.contains(w);
        assert(t[j] == s[j]);
        assert(adj[t[j] as int]@.contains(w));
    }
    assert forall|w: usize| adj[node as int]@.contains(w) implies #[trigger] neighbors_of_seq(adj, t).contains(w) by {
        assert(t[s.len() as int] == node);
        assert(adj[t[s.len() as int] as int]@.contains(w));
    }
}

/// A sequence and a set with the same members have the same neighbours.
proof fn lemma_neighbors_seq_set(adj: Seq<Vec<usize>>, s: Seq<usize>, set: Set<usize>)
    requires
        forall|x: usize| s.contains(x) <==> #[trigger] set.contains(x),
    ensures
        forall|w: usize| #[trigger] neighbors_of_seq(adj, s).contains(w) <==> neighbors_of(adj, set).contains(w),
{
    assert forall|w: usize| #[trigger] neighbors_of_seq(adj, s).contains(w) implies neighbors_of(adj, set).contains(w) by {
        let j = choose|j: int| 0 <= j < s.len() && #[trigger] adj[s[j] as int]@.contains(w);
        assert(s.contains(s[j]));
        assert(set.contains(s[j]));
    }
    assert forall|w: usize| neighbors_of(adj, set).contains(w) implies #[trigger] neighbors_of_seq(adj, s).contains(w) by {
        let v = choose|v: usize| set.contains(v) && #[trigger] adj[v as int]@.contains(w);
        assert(s.contains(v));
        let j = choose|j: int| 0 <= j < s.len() && s[j] == v;
        assert(adj[s[j] as int]@.contains(w));
    }
}

/// A breadth-first sweep from `start`: a node of least degree on the last level
/// reached, and the number of levels below the first.
fn find_furthest(adj: &Vec<Vec<usize>>, degrees: &Vec<usize>, n: usize, start: usize) -> (r: (usize, usize))
    requires
        start < n,
        adj@.len() == n,
        degrees@.len() == n,
        lists_below(adj@, n),
    ensures
        r.0 < n,
        r.1 < n,
        bfs_level(adj@, start, r.1 as nat).contains(r.0),
        bfs_level(adj@, start, (r.1 + 1) as nat).is_empty(),
        forall|x: usize| #[trigger] bfs_level(adj@, start, r.1 as nat).contains(x) ==> degrees@[r.0 as int] <= degrees@[x as int],
{
    let mut visited = falses(n);
    visited.set(start, true);
    let mut current: Vec<usize> = Vec::new();
    current.push(start);
    let ghost mut seen: Seq<usize> = seq![start];
    let mut depth: usize = 0;
    proof {
        assert forall|x: usize| seen.contains(x) <==> #[trigger] within_levels(adj@, start, 0).contains(x) by {
            if x == start {
                assert(seen[0] == start);
            }
        }
        assert forall|x: usize| current@.contains(x) <==> #[trigger] bfs_level(adj@, start, 0).contains(x) by {
            if x == start {
                assert(current@[0] == start);
            }
        }
    }
    loop
        invariant_except_break
            forall|x: usize| seen.contains(x) <==> #[trigger] within_levels(adj@, start, depth as nat).contains(x),
        invariant
            start < n,
            adj@.len() == n,
            degrees@.len() == n,
            lists_below(adj@, n),
            visited@.len() == n,
            seen.no_duplicates(),
            forall|k: int| 0 <= k < seen.len() ==> #[trigger] seen[k] < n,
            forall|x: usize| x < n ==> (visited@[x as int] <==> seen.contains(x)),
            current@.len() > 0,
            forall|k: int| 0 <= k < current@.len() ==> #[trigger] current@[k] < n,
            depth < seen.len(),
            seen.len() <= n,
            forall|x: usize| current@.contains(x) <==> #[trigger] bfs_level(adj@, start, depth as nat).contains(x),
        ensures
            current@.len() > 0,
            forall|k: int| 0 <= k < current@.len() ==> #[trigger] current@[k] < n,
            depth < n,
            degrees@.len() == n,
            forall|x: usize| current@.contains(x) <==> #[trigger] bfs_level(adj@, start, depth as nat).contains(x),
            bfs_level(adj@, start, (depth + 1) as nat).is_empty(),
        decreases n - seen.len(),
    {
        let ghost len0 = seen.len();
        let ghost within = within_levels(adj@, start, depth as nat);
        let mut next: Vec<usize> = Vec::new();
        let mut c: usize = 0;
        while c < current.len()
            invariant
                0 <= c <= current@.len(),
                adj@.len() == n,
                lists_below(adj@, n),
                visited@.len() == n,
                seen.no_duplicates(),
                forall|k: int| 0 <= k < seen.len() ==> #[trigger] seen[k] < n,
                forall|x: usize| x < n ==> (visited@[x as int] <==> seen.contains(x)),
                forall|k: int| 0 <= k < current@.len() ==> #[trigger] current@[k] < n,
                forall|k: int| 0 <= k < next@.len() ==> #[trigger] next@[k] < n,
                seen.len() == len0 + next@.len(),
                seen.len() <= n,
                forall|x: usize| #[trigger] seen.contains(x) <==> within.contains(x) || neighbors_of_seq(adj@, current@.take(c as int)).contains(x),
                forall|x: usize| #[trigger] next@.contains(x) <==> neighbors_of_seq(adj@, current@.take(c as int)).contains(x) && !within.contains(x),
            decreases current@.len() - c,
        {
            let node = current[c];
            let nb = &adj[node];
            let ghost pre = current@.take(c as int);
            let mut m: usize = 0;
            while m < nb.len()
                invariant
                    0 <= m <= nb@.len(),
                    node < n,
                    *nb == adj@[node as int],
                    adj@.len() == n,
                    lists_below(adj@, n),
                    visited@.len() == n,
                    seen.no_duplicates(),
                    forall|k: int| 0 <= k < seen.len() ==> #[trigger] seen[k] < n,
                    forall|x: usize| x < n ==> (visited@[x as int] <==> seen.contains(x)),
                    forall|k: int| 0 <= k < next@.len() ==> #[trigger] next@[k] < n,
                    seen.len() == len0 + next@.len(),
                    seen.len() <= n,
                    forall|x: usize| #[trigger] seen.contains(x) <==> within.contains(x) || neighbors_of_seq(adj@, pre).contains(x)
                        || nb@.take(m as int).contains(x),
                    forall|x: usize| #[trigger] next@.contains(x) <==> (neighbors_of_seq(adj@, pre).contains(x)
                        || nb@.take(m as int).contains(x)) && !within.contains(x),
                decreases nb@.len() - m,
            {
                let w = nb[m];
                proof {
                    assert(adj@[node as int]@[m as int] < n);
                    assert(nb@.take(m + 1) == nb@.take(m as int).push(w));
                }
                if !visited[w] {
                    proof {
                        assert(!seen.contains(w));
                        lemma_distinct_below(seen, n);
                        assert(seen.len() < n);
                    }
                    visited.set(w, true);
                    let ghost old_next = next@;
                    next.push(w);
                    proof {
                        let old_seen = seen;
                        seen = seen.push(w);
                        assert forall|a: int, b: int| 0 <= a < b < seen.len() implies seen[a] != seen[b] by {
                            if b == seen.len() - 1 {
                                assert(old_seen.contains(seen[a]));
                            }
                        }
                        assert(next@ == old_next.push(w));
                    }
                } else {
                    proof {
                        assert(seen.contains(w));
                        if !within.contains(w) {
                            assert(neighbors_of_seq(adj@, pre).contains(w) || nb@.take(m as int).contains(w));
                            assert(next@.contains(w));
                        }
                    }
                }
                m = m + 1;
            }
            proof {
                assert(nb@.take(nb@.len() as int) == nb@);
                assert(current@.take(c + 1) == pre.push(node));
                lemma_neighbors_push(adj@, pre, node);
            }
            c = c + 1;
        }
        proof {
            assert(current@.take(current@.len() as int) == current@);
            lemma_neighbors_seq_set(adj@, current@, bfs_level(adj@, start, depth as nat));
            lemma_level_step(adj@, start, depth as nat);
            assert forall|x: usize| next@.contains(x) <==> #[trigger] bfs_level(adj@, start, (depth + 1) as nat).contains(x) by {
                assert(next@.contains(x) == (neighbors_of_seq(adj@, current@).contains(x) && !within.contains(x)));
            }
            assert forall|x: usize| seen.contains(x) <==> #[trigger] within_levels(adj@, start, (depth + 1) as nat).contains(x) by {
                assert(seen.contains(x) == (within.contains(x) || neighbors_of_seq(adj@, current@).contains(x)));
            }
        }
        if next.len() == 0 {
            proof {
                assert forall|x: usize| !#[trigger] bfs_level(adj@, start, (depth + 1) as nat).contains(x) by {
                    if bfs_level(adj@, start, (depth + 1) as nat).contains(x) {
                        assert(next@.contains(x));
                    }
                }
                assert(bfs_level(adj@, start, (depth + 1) as nat) =~= Set::<usize>::empty());
            }
            break;
        }
        proof {
            assert(next@.contains(next@[0]));
        }
        current = next;
        depth = depth + 1;
    }
    // The first node of least degree on the last level.
    let mut best = current[0];
    proof {
        assert(current@.contains(current@[0]));
    }
    let mut c: usize = 1;
    while c < current.len()
        invariant
            1 <= c <= current@.len(),
            degrees@.len() == n,
            best < n,
            current@.contains(best),
            forall|k: int| 0 <= k < current@.len() ==> #[trigger] current@[k] < n,
            forall|k: int| 0 <= k < c ==> degrees@[best as int] <= degrees@[#[trigger] current@[k] as int],
        decreases current@.len() - c,
    {
        if degrees[current[c]] < degrees[best] {
            best = current[c];
            proof {
                assert(current@.contains(current@[c as int]));
            }
        }
        c = c + 1;
    }
    proof {
        assert forall|x: usize| #[trigger] bfs_level(adj@, start, depth as nat).contains(x) implies degrees@[best as int] <= degrees@[x as int] by {
            assert(current@.contains(x));
            let k = choose|k: int| 0 <= k < current@.len() && current@[k] == x;
        }
    }
    (best, depth)
}

/// The nodes that a node of `s` is joined to by an arc.
pub open spec fn unified_neighbors(places: Seq<Place>, transitions: Seq<Transition>, arcs: Seq<Arc>, s: Set<usize>) -> Set<usize> {
    Set::new(|w: usize| exists|v: usize| s.contains(v) && #[trigger] unified_adjacent(places, transitions, arcs, v as int, w as int))
}

/// The unified nodes at most `d` arcs from `start` in the undirected net.
pub open spec fn unified_within(places: Seq<Place>, transitions: Seq<Transition>, arcs: Seq<Arc>, start: usize, d: nat) -> Set<usize>
    decreases d,
{
    if d == 0 {
        set![start]
    } else {
        let prev = unified_within(places, transitions, arcs, start, (d - 1) as nat);
        prev.union(unified_neighbors(places, transitions, arcs, prev))
    }
}

/// The unified nodes exactly `d` arcs from `start` in the undirected net.
pub open spec fn unified_level(places: Seq<Place>, transitions: Seq<Transition>, arcs: Seq<Arc>, start: usize, d: nat) -> Set<usize> {
    if d == 0 {
        set![start]
    } else {
        unified_within(places, transitions, arcs, start, d).difference(unified_within(places, transitions, arcs, start, (d - 1) as nat))
    }
}

/// The George–Liu search for a pseudo-peripheral node, as the sequence of its
/// candidates `chain` with their eccentricities `eccs`: it starts at unified
/// node 0; each next candidate lies on the last breadth-first level of the
/// previous one and has least degree there; it moves on while the
/// eccentricity grows, and its last candidate is no more eccentric than the
/// one before it (or has no neighbour, when it is the only one).
pub open spec fn george_liu_chain(places: Seq<Place>, transitions: Seq<Transition>, arcs: Seq<Arc>, chain: Seq<usize>, eccs: Seq<nat>) -> bool {
    let k = chain.len() - 1;
    &&& chain.len() == eccs.len()
    &&& chain.len() >= 1
    &&& chain[0] == 0
    &&& forall|i: int| 0 <= i < chain.len() ==> (#[trigger] chain[i]) < places.len() + transitions.len()
    &&& forall|i: int| #![trigger eccs[i]] 0 <= i < chain.len() ==> unified_level(places, transitions, arcs, chain[i], eccs[i] + 1).is_empty()
    &&& forall|i: int| #![trigger chain[i + 1]] 0 <= i < k ==> {
        &&& unified_level(places, transitions, arcs, chain[i], eccs[i]).contains(chain[i + 1])
        &&& forall|x: usize| #[trigger] unified_level(places, transitions, arcs, chain[i], eccs[i]).contains(x)
            ==> unified_degree(places, transitions, arcs, chain[i + 1] as int) <= unified_degree(places, transitions, arcs, x as int)
        &&& (if i == 0 { 0 } else { eccs[i - 1] }) < eccs[i]
    }
    &&& eccs[k] <= (if k == 0 { 0 } else { eccs[k - 1] })
}

/// Whether `q[j]` is the first entry of `q` before `q[k]` joined to it by an arc.
pub open spec fn first_earlier_neighbor(places: Seq<Place>, transitions: Seq<Transition>, arcs: Seq<Arc>, q: Seq<usize>, k: int, j: int) -> bool {
    &&& 0 <= j < k
    &&& unified_adjacent(places, transitions, arcs, q[j] as int, q[k] as int)
    &&& forall|i: int| 0 <= i < j ==> !#[trigger] unified_adjacent(places, transitions, arcs, q[i] as int, q[k] as int)
}

/// The Cuthill–McKee order: a breadth-first order (see `bfs_layout`) that
/// starts at the node the George–Liu search ends at, and that enqueues the
/// neighbours of each node in order of nondecreasing degree: of two entries
/// first reached from the same earlier entry, the earlier has no greater
/// degree.
pub open spec fn rcm_layout(places: Seq<Place>, transitions: Seq<Transition>, arcs: Seq<Arc>, q: Seq<usize>, m: int) -> bool {
    &&& bfs_layout(places, transitions, arcs, q, m)
    &&& exists|chain: Seq<usize>, eccs: Seq<nat>| #[trigger] george_liu_chain(places, transitions, arcs, chain, eccs)
        && chain.last() == q[0]
    &&& forall|k: int, k2: int, j: int|
        0 < k < k2 < m && #[trigger] first_earlier_neighbor(places, transitions, arcs, q, k, j)
            && #[trigger] first_earlier_neighbor(places, transitions, arcs, q, k2, j)
            ==> unified_degree(places, transitions, arcs, q[k] as int) <= unified_degree(places, transitions, arcs, q[k2] as int)
}

/// Breadth-first levels over an adjacency list that matches the net's arcs
/// are those of the net.
proof fn lemma_levels_agree(places: Seq<Place>, transitions: Seq<Transition>, arcs: Seq<Arc>, adj: Seq<Vec<usize>>, start: usize, d: nat)
    requires
        adj.len() == places.len() + transitions.len(),
        start < adj.len(),
        lists_below(adj, adj.len() as usize),
        forall|ii: int, y: usize| 0 <= ii < adj.len() ==> (#[trigger] adj[ii]@.contains(y) <==> unified_adjacent(places, transitions, arcs, ii, y as int)),
    ensures
        within_levels(adj, start, d) == unified_within(places, transitions, arcs, start, d),
        forall|x: usize| #[trigger] within_levels(adj, start, d).contains(x) ==> x < adj.len(),
        bfs_level(adj, start, d) == unified_level(places, transitions, arcs, start, d),
    decreases d,
{
    if d > 0 {
        lemma_levels_agree(places, transitions, arcs, adj, start, (d - 1) as nat);
        let prev = within_levels(adj, start, (d - 1) as nat);
        assert forall|w: usize| #[trigger] neighbors_of(adj, prev).contains(w) <==> unified_neighbors(places, transitions, arcs, prev).contains(w) by {
            if neighbors_of(adj, prev).contains(w) {
                let v = choose|v: usize| prev.contains(v) && #[trigger] adj[v as int]@.contains(w);
                assert(unified_adjacent(places, transitions, arcs, v as int, w as int));
            }
            if unified_neighbors(places, transitions, arcs, prev).contains(w) {
                let v = choose|v: usize| prev.contains(v) && #[trigger] unified_adjacent(places, transitions, arcs, v as int, w as int);
                assert(adj[v as int]@.contains(w));
            }
        }
        assert(neighbors_of(adj, prev) =~= unified_neighbors(places, transitions, arcs, prev));
        assert forall|x: usize| #[trigger] within_levels(adj, start, d).contains(x) implies x < adj.len() by {
            if !prev.contains(x) {
                let v = choose|v: usize| prev.contains(v) && #[trigger] adj[v as int]@.contains(x);
                let k = choose|k: int| 0 <= k < adj[v as int]@.len() && adj[v as int]@[k] == x;
            }
        }
    }
}

/// Whether `q` lists the unified nodes `0..P+T` once each, its first `m`
/// entries in breadth-first order over the undirected net and the rest, which
/// that sweep does not reach, in increasing position order. Breadth-first
/// order: every entry after the first has an earlier neighbour; the first
/// earlier neighbour of an entry never comes after that of a later entry; and
/// every neighbour of the first `m` entries is among them.
pub open spec fn bfs_layout(places: Seq<Place>, transitions: Seq<Transition>, arcs: Seq<Arc>, q: Seq<usize>, m: int) -> bool {
    let n = places.len() + transitions.len();
    &&& q.len() == n
    &&& q.no_duplicates()
    &&& forall|k: int| 0 <= k < q.len() ==> #[trigger] q[k] < n
    &&& 0 < m <= q.len()
    &&& forall|k: int| #![trigger q[k]] 0 < k < m ==> exists|j: int| #![trigger q[j]] 0 <= j < k && unified_adjacent(places, transitions, arcs, q[j] as int, q[k] as int)
    &&& forall|k: int, k2: int, j2: int|
        #![trigger unified_adjacent(places, transitions, arcs, q[j2] as int, q[k2] as int), q[k]]
        0 < k < k2 < m && 0 <= j2 < k2 && unified_adjacent(places, transitions, arcs, q[j2] as int, q[k2] as int)
            ==> exists|j: int| #![trigger q[j]] 0 <= j <= j2 && j < k && unified_adjacent(places, transitions, arcs, q[j] as int, q[k] as int)
    &&& forall|j: int, y: usize| 0 <= j < m && #[trigger] unified_adjacent(places, transitions, arcs, q[j] as int, y as int)
        ==> q.subrange(0, m).contains(y)
    &&& forall|a: int, b: int| m <= a < b < q.len() ==> #[trigger] q[a] < #[trigger] q[b]
}

/// The places among the unified nodes of `q`, last entry first.
pub open spec fn rev_places(places: Seq<Place>, q: Seq<usize>) -> Seq<Place>
    decreases q.len(),
{
    if q.len() == 0 {
        seq![]
    } else {
        let rest = rev_places(places, q.drop_first());
        if q[0] < places.len() { rest.push(places[q[0] as int]) } else { rest }
    }
}

/// The transitions among the unified nodes of `q`, last entry first.
pub open spec fn rev_transitions(np: nat, transitions: Seq<Transition>, q: Seq<usize>) -> Seq<Transition>
    decreases q.len(),
{
    if q.len() == 0 {
        seq![]
    } else {
        let rest = rev_transitions(np, transitions, q.drop_first());
        if q[0] >= np { rest.push(transitions[q[0] - np]) } else { rest }
    }
}

/// The node the George–Liu search for a pseudo-peripheral node ends at, over
/// the sorted adjacency lists of the net.
fn pseudo_peripheral(places: &Vec<Place>, transitions: &Vec<Transition>, arcs: &Vec<Arc>, adj: &Vec<Vec<usize>>, degrees: &Vec<usize>) -> (r: usize)
    requires
        adj@.len() == places@.len() + transitions@.len(),
        adj@.len() > 0,
        degrees@.len() == adj@.len(),
        lists_below(adj@, adj@.len() as usize),
        forall|ii: int, y: usize| 0 <= ii < adj@.len() ==> (#[trigger] adj@[ii]@.contains(y) <==> unified_adjacent(places@, transitions@, arcs@, ii, y as int)),
        forall|x: int| 0 <= x < adj@.len() ==> #[trigger] degrees@[x] == unified_degree(places@, transitions@, arcs@, x),
    ensures
        r < adj@.len(),
        exists|chain: Seq<usize>, eccs: Seq<nat>| #[trigger] george_liu_chain(places@, transitions@, arcs@, chain, eccs) && chain.last() == r,
{
    let n = adj.len();
    let mut start_node: usize = 0;
    let mut max_dist: usize = 0;
    let ghost mut chain: Seq<usize> = seq![0usize];
    let ghost mut eccs: Seq<nat> = seq![];
    let ghost mut fin_eccs: Seq<nat> = seq![];
    loop
        invariant
            start_node < n,
            max_dist < n,
            adj@.len() == n,
            degrees@.len() == n,
            n == places@.len() + transitions@.len(),
            lists_below(adj@, n),
            forall|ii: int, y: usize| 0 <= ii < adj@.len() ==> (#[trigger] adj@[ii]@.contains(y) <==> unified_adjacent(places@, transitions@, arcs@, ii, y as int)),
            forall|x: int| 0 <= x < n ==> #[trigger] degrees@[x] == unified_degree(places@, transitions@, arcs@, x),
            chain.len() == eccs.len() + 1,
            chain[0] == 0,
            chain.last() == start_node,
            forall|i: int| 0 <= i < chain.len() ==> (#[trigger] chain[i]) < n,
            forall|i: int| #![trigger eccs[i]] 0 <= i < eccs.len() ==> unified_level(places@, transitions@, arcs@, chain[i], eccs[i] + 1).is_empty(),
            forall|i: int| #![trigger chain[i + 1]] 0 <= i < eccs.len() ==> {
                &&& unified_level(places@, transitions@, arcs@, chain[i], eccs[i]).contains(chain[i + 1])
                &&& forall|x: usize| #[trigger] unified_level(places@, transitions@, arcs@, chain[i], eccs[i]).contains(x)
                    ==> unified_degree(places@, transitions@, arcs@, chain[i + 1] as int) <= unified_degree(places@, transitions@, arcs@, x as int)
                &&& (if i == 0 { 0 } else { eccs[i - 1] }) < eccs[i]
            },
            max_dist == (if eccs.len() == 0 { 0 } else { eccs.last() }),
        ensures
            start_node < n,
            george_liu_chain(places@, transitions@, arcs@, chain, fin_eccs),
            chain.last() == start_node,
        decreases n - max_dist,
    {
        let (furthest, dist) = find_furthest(&adj, &degrees, n, start_node);
        proof {
            lemma_levels_agree(places@, transitions@, arcs@, adj@, start_node, dist as nat);
            lemma_levels_agree(places@, transitions@, arcs@, adj@, start_node, (dist + 1) as nat);
            assert forall|x: usize| #[trigger] unified_level(places@, transitions@, arcs@, start_node, dist as nat).contains(x)
                implies unified_degree(places@, transitions@, arcs@, furthest as int) <= unified_degree(places@, transitions@, arcs@, x as int) by {
                assert(bfs_level(adj@, start_node, dist as nat).contains(x));
                assert(within_levels(adj@, start_node, dist as nat).contains(x));
            }
        }
        if dist > max_dist {
            proof {
                let old_chain = chain;
                let old_eccs = eccs;
                chain = chain.push(furthest);
                eccs = eccs.push(dist as nat);
                assert forall|i: int| #![trigger eccs[i]] 0 <= i < eccs.len() implies unified_level(places@, transitions@, arcs@, chain[i], eccs[i] + 1).is_empty() by {
                    if i < old_eccs.len() {
                        assert(chain[i] == old_chain[i] && eccs[i] == old_eccs[i]);
                    }
                }
                assert forall|i: int| #![trigger chain[i + 1]] 0 <= i < eccs.len() implies {
                    &&& unified_level(places@, transitions@, arcs@, chain[i], eccs[i]).contains(chain[i + 1])
                    &&& forall|x: usize| #[trigger] unified_level(places@, transitions@, arcs@, chain[i], eccs[i]).contains(x)
                        ==> unified_degree(places@, transitions@, arcs@, chain[i + 1] as int) <= unified_degree(places@, transitions@, arcs@, x as int)
                    &&& (if i == 0 { 0 } else { eccs[i - 1] }) < eccs[i]
                } by {
                    if i < old_eccs.len() {
                        assert(chain[i] == old_chain[i] && eccs[i] == old_eccs[i] && chain[i + 1] == old_chain[i + 1]);
                        if i > 0 {
                            assert(eccs[i - 1] == old_eccs[i - 1]);
                        }
                    } else {
                        assert(chain[i] == start_node && chain[i + 1] == furthest);
                        if i > 0 {
                            assert(eccs[i - 1] == old_eccs.last());
                        }
                    }
                }
                assert forall|i: int| 0 <= i < chain.len() implies (#[trigger] chain[i]) < n by {
                    if i < old_chain.len() {
                        assert(chain[i] == old_chain[i]);
                    }
                }
            }
            max_dist = dist;
            start_node = furthest;
        } else {
            proof {
                fin_eccs = eccs.push(dist as nat);
                let k = chain.len() - 1;
                assert(fin_eccs[k] == dist);
                assert forall|i: int| #![trigger fin_eccs[i]] 0 <= i < chain.len() implies unified_level(places@, transitions@, arcs@, chain[i], fin_eccs[i] + 1).is_empty() by {
                    if i < eccs.len() {
                        assert(fin_eccs[i] == eccs[i]);
                        assert(unified_level(places@, transitions@, arcs@, chain[i], eccs[i] + 1).is_empty());
                    }
                }
                assert forall|i: int| #![trigger chain[i + 1]] 0 <= i < k implies {
                    &&& unified_level(places@, transitions@, arcs@, chain[i], fin_eccs[i]).contains(chain[i + 1])
                    &&& forall|x: usize| #[trigger] unified_level(places@, transitions@, arcs@, chain[i], fin_eccs[i]).contains(x)
                        ==> unified_degree(places@, transitions@, arcs@, chain[i + 1] as int) <= unified_degree(places@, transitions@, arcs@, x as int)
                    &&& (if i == 0 { 0 } else { fin_eccs[i - 1] }) < fin_eccs[i]
                } by {
                    let e = eccs[i];
                    assert(fin_eccs[i] == e);
                    assert(unified_level(places@, transitions@, arcs@, chain[i], e).contains(chain[i + 1]));
                    assert forall|x: usize| #[trigger] unified_level(places@, transitions@, arcs@, chain[i], fin_eccs[i]).contains(x)
                        implies unified_degree(places@, transitions@, arcs@, chain[i + 1] as int) <= unified_degree(places@, transitions@, arcs@, x as int) by {
                        assert(unified_level(places@, transitions@, arcs@, chain[i], e).contains(x));
                    }
                    if i > 0 {
                        assert(fin_eccs[i - 1] == eccs[i - 1]);
                    }
                }
                if k > 0 {
                    assert(fin_eccs[k - 1] == eccs.last());
                }
                assert(unified_level(places@, transitions@, arcs@, chain[k], fin_eccs[k] + 1).is_empty());
                assert(george_liu_chain(places@, transitions@, arcs@, chain, fin_eccs));
            }
            break;
        }
    }
    proof {
        assert(george_liu_chain(places@, transitions@, arcs@, chain, fin_eccs) && chain.last() == start_node);
    }
    start_node
}

/// Entries first reached from the same entry come in the order of the sorted
/// adjacency list that reached them, hence by nondecreasing degree.
proof fn lemma_sibling_degrees(
    places: Seq<Place>,
    transitions: Seq<Transition>,
    arcs: Seq<Arc>,
    adj: Seq<Vec<usize>>,
    degrees: Seq<usize>,
    q: Seq<usize>,
    m: int,
    reached: Seq<usize>,
    par: Seq<int>,
    pos: Seq<int>,
)
    requires
        adj.len() == places.len() + transitions.len(),
        degrees.len() == adj.len(),
        0 < m <= q.len(),
        reached.len() == m,
        forall|k: int| 0 <= k < m ==> #[trigger] q[k] == reached[k],
        forall|k: int| 0 <= k < reached.len() ==> #[trigger] reached[k] < adj.len(),
        par.len() == m,
        pos.len() == m,
        forall|k: int| 1 <= k < m ==> 0 <= #[trigger] par[k] < k
            && unified_adjacent(places, transitions, arcs, reached[par[k]] as int, reached[k] as int),
        forall|k: int, j: int| 1 <= k < m && 0 <= j < par[k] ==> !#[trigger] unified_adjacent(places, transitions, arcs, reached[j] as int, reached[k] as int),
        forall|k: int| 1 <= k < m ==> 0 <= #[trigger] pos[k] < adj[reached[par[k]] as int]@.len()
            && adj[reached[par[k]] as int]@[pos[k]] == reached[k],
        forall|k: int, k2: int| 1 <= k < k2 < m && par[k] == par[k2] ==> #[trigger] pos[k] < #[trigger] pos[k2],
        forall|ii: int, a: int, b: int| 0 <= ii < adj.len() && 0 <= a < b < adj[ii]@.len()
            ==> degrees[#[trigger] adj[ii]@[a] as int] <= degrees[#[trigger] adj[ii]@[b] as int],
        forall|x: int| 0 <= x < adj.len() ==> #[trigger] degrees[x] == unified_degree(places, transitions, arcs, x),
    ensures
        forall|k: int, k2: int, j: int|
            0 < k < k2 < m && #[trigger] first_earlier_neighbor(places, transitions, arcs, q, k, j)
                && #[trigger] first_earlier_neighbor(places, transitions, arcs, q, k2, j)
            ==> unified_degree(places, transitions, arcs, q[k] as int) <= unified_degree(places, transitions, arcs, q[k2] as int),
{
    assert forall|k: int, k2: int, j: int|
            0 < k < k2 < m && #[trigger] first_earlier_neighbor(places, transitions, arcs, q, k, j)
                && #[trigger] first_earlier_neighbor(places, transitions, arcs, q, k2, j)
            implies unified_degree(places, transitions, arcs, q[k] as int) <= unified_degree(places, transitions, arcs, q[k2] as int) by {
            assert(q[k] == reached[k] && q[k2] == reached[k2] && q[j] == reached[j]);
            assert(q[par[k]] == reached[par[k]] && q[par[k2]] == reached[par[k2]]);
            if j < par[k] {
                assert(!unified_adjacent(places, transitions, arcs, reached[j] as int, reached[k] as int));
            }
            if j > par[k] {
                assert(!unified_adjacent(places, transitions, arcs, q[par[k]] as int, q[k] as int));
            }
            if j < par[k2] {
                assert(!unified_adjacent(places, transitions, arcs, reached[j] as int, reached[k2] as int));
            }
            if j > par[k2] {
                assert(!unified_adjacent(places, transitions, arcs, q[par[k2]] as int, q[k2] as int));
            }
            assert(j == par[k] && j == par[k2]);
            assert(pos[k] < pos[k2]);
            let x = reached[j];
            assert(adj[x as int]@[pos[k]] == reached[k]);
            assert(adj[x as int]@[pos[k2]] == reached[k2]);
            assert(degrees[reached[k] as int] <= degrees[reached[k2] as int]);
        }
}

/// Computes the Reverse Cuthill–McKee ordering of a net's nodes.
///
/// Returns the places and the transitions, each permuted. Nodes that the
/// breadth-first sweep does not reach (only possible in a disconnected net) are
/// appended after the reached ones, in position order, before the reversal.
#[verifier::rlimit(60)]
pub fn compute_rcm_ordering(places: &Vec<Place>, transitions: &Vec<Transition>, arcs: &Vec<Arc>) -> (r: (Vec<Place>, Vec<Transition>))
    requires
        topology_wf(places@, transitions@, arcs@),
        places@.len() + transitions@.len() <= usize::MAX,
        places@.len() + transitions@.len() > 0,
    ensures
        r.0@.no_duplicates(),
        r.0@.to_set() == places@.to_set(),
        r.0@.len() == places@.len(),
        r.1@.no_duplicates(),
        r.1@.to_set() == transitions@.to_set(),
        r.1@.len() == transitions@.len(),
        exists|q: Seq<usize>, m: int| #[trigger] rcm_layout(places@, transitions@, arcs@, q, m)
            && r.0@ == rev_places(places@, q) && r.1@ == rev_transitions(places@.len(), transitions@, q),
{
    let p_count = places.len();
    let t_count = transitions.len();
    let n = p_count + t_count;
    let raw = unified_adjacency(places, transitions, arcs);
    let mut degrees: Vec<usize> = Vec::new();
    let mut i: usize = 0;
    while i < n
        invariant
            0 <= i <= n,
            raw@.len() == n,
            degrees@.len() == i,
            forall|ii: int| 0 <= ii < raw@.len() ==> #[trigger] raw@[ii]@.len() == unified_degree(places@, transitions@, arcs@, ii),
            forall|x: int| 0 <= x < i ==> #[trigger] degrees@[x] == unified_degree(places@, transitions@, arcs@, x),
        decreases n - i,
    {
        degrees.push(raw[i].len());
        i = i + 1;
    }
    let mut adj: Vec<Vec<usize>> = Vec::new();
    let mut i: usize = 0;
    while i < n
        invariant
            0 <= i <= n,
            raw@.len() == n,
            degrees@.len() == n,
            lists_below(raw@, n),
            adj@.len() == i,
            lists_below(adj@, n),
            n == places@.len() + transitions@.len(),
            forall|ii: int, y: usize| 0 <= ii < raw@.len() ==> (#[trigger] raw@[ii]@.contains(y) <==> unified_adjacent(places@, transitions@, arcs@, ii, y as int)),
            forall|ii: int, y: usize| 0 <= ii < adj@.len() ==> (#[trigger] adj@[ii]@.contains(y) <==> unified_adjacent(places@, transitions@, arcs@, ii, y as int)),
            forall|ii: int, a: int, b: int| 0 <= ii < adj@.len() && 0 <= a < b < adj@[ii]@.len()
                ==> degrees@[#[trigger] adj@[ii]@[a] as int] <= degrees@[#[trigger] adj@[ii]@[b] as int],
        decreases n - i,
    {
        proof {
            assert forall|k: int| 0 <= k < raw@[i as int]@.len() implies #[trigger] raw@[i as int]@[k] < n by {}
        }
        let unique = dedup_indices(&raw[i], n);
        let sorted = sort_by_degree(&unique, &degrees, n);
        let ghost old_adj = adj@;
        adj.push(sorted);
        proof {
            assert forall|ii: int, y: usize| 0 <= ii < adj@.len() implies (#[trigger] adj@[ii]@.contains(y) <==> unified_adjacent(places@, transitions@, arcs@, ii, y as int)) by {
                if ii < old_adj.len() {
                    assert(adj@[ii] == old_adj[ii]);
                } else {
                    assert(adj@[ii] == sorted);
                    assert(sorted@.contains(y) == unique@.contains(y));
                    assert(unique@.contains(y) == raw@[i as int]@.contains(y));
                }
            }
            assert forall|ii: int, a: int, b: int| 0 <= ii < adj@.len() && 0 <= a < b < adj@[ii]@.len()
                implies degrees@[#[trigger] adj@[ii]@[a] as int] <= degrees@[#[trigger] adj@[ii]@[b] as int] by {
                if ii < old_adj.len() {
                    assert(adj@[ii] == old_adj[ii]);
                } else {
                    assert(adj@[ii] == sorted);
                }
            }
        }
        i = i + 1;
    }
    // George–Liu: find a pseudo-peripheral start node.
    let start_node = pseudo_peripheral(places, transitions, arcs, &adj, &degrees);
    let ghost (chain, fin_eccs) = choose|chain: Seq<usize>, eccs: Seq<nat>| george_liu_chain(places@, transitions@, arcs@, chain, eccs) && chain.last() == start_node;
    // Breadth-first order from the start node.
    let mut visited = falses(n);
    visited.set(start_node, true);
    let mut queue: Vec<usize> = Vec::new();
    queue.push(start_node);
    let mut head: usize = 0;
    let ghost mut par: Seq<int> = seq![0int];
    let ghost mut pos: Seq<int> = seq![0int];
    proof {
        assert(queue@[0] == start_node);
    }
    while head < queue.len()
        invariant
            adj@.len() == n,
            lists_below(adj@, n),
            visited@.len() == n,
            0 <= head <= queue@.len(),
            queue@.no_duplicates(),
            queue@.len() <= n,
            queue@.len() >= 1,
            forall|k: int| 0 <= k < queue@.len() ==> #[trigger] queue@[k] < n,
            forall|x: usize| x < n ==> (visited@[x as int] <==> queue@.contains(x)),
            forall|ii: int, y: usize| 0 <= ii < adj@.len() ==> (#[trigger] adj@[ii]@.contains(y) <==> unified_adjacent(places@, transitions@, arcs@, ii, y as int)),
            par.len() == queue@.len(),
            forall|k: int| 1 <= k < queue@.len() ==> 0 <= #[trigger] par[k] < head && par[k] < k
                && unified_adjacent(places@, transitions@, arcs@, queue@[par[k]] as int, queue@[k] as int),
            forall|k: int, k2: int| 1 <= k < k2 < queue@.len() ==> #[trigger] par[k] <= #[trigger] par[k2],
            forall|k: int, j: int| 1 <= k < queue@.len() && 0 <= j < par[k] ==> !#[trigger] unified_adjacent(places@, transitions@, arcs@, queue@[j] as int, queue@[k] as int),
            forall|j: int, y: usize| 0 <= j < head && #[trigger] unified_adjacent(places@, transitions@, arcs@, queue@[j] as int, y as int) ==> queue@.contains(y),
            queue@[0] == start_node,
            degrees@.len() == n,
            forall|ii: int, a: int, b: int| 0 <= ii < adj@.len() && 0 <= a < b < adj@[ii]@.len()
                ==> degrees@[#[trigger] adj@[ii]@[a] as int] <= degrees@[#[trigger] adj@[ii]@[b] as int],
            pos.len() == queue@.len(),
            forall|k: int| 1 <= k < queue@.len() ==> 0 <= #[trigger] pos[k] < adj@[queue@[par[k]] as int]@.len()
                && adj@[queue@[par[k]] as int]@[pos[k]] == queue@[k],
            forall|k: int, k2: int| 1 <= k < k2 < queue@.len() && par[k] == par[k2] ==> #[trigger] pos[k] < #[trigger] pos[k2],
        decreases n - head,
    {
        let node = queue[head];
        let nb = &adj[node];
        let mut m: usize = 0;
        while m < nb.len()
            invariant
                0 <= m <= nb@.len(),
                node < n,
                node == queue@[head as int],
                *nb == adj@[node as int],
                adj@.len() == n,
                lists_below(adj@, n),
                visited@.len() == n,
                0 <= head < queue@.len(),
                queue@.no_duplicates(),
                queue@.len() <= n,
                forall|k: int| 0 <= k < queue@.len() ==> #[trigger] queue@[k] < n,
                forall|x: usize| x < n ==> (visited@[x as int] <==> queue@.contains(x)),
                forall|ii: int, y: usize| 0 <= ii < adj@.len() ==> (#[trigger] adj@[ii]@.contains(y) <==> unified_adjacent(places@, transitions@, arcs@, ii, y as int)),
                par.len() == queue@.len(),
                forall|k: int| 1 <= k < queue@.len() ==> 0 <= #[trigger] par[k] <= head && par[k] < k
                    && unified_adjacent(places@, transitions@, arcs@, queue@[par[k]] as int, queue@[k] as int),
                forall|k: int, k2: int| 1 <= k < k2 < queue@.len() ==> #[trigger] par[k] <= #[trigger] par[k2],
                forall|k: int, j: int| 1 <= k < queue@.len() && 0 <= j < par[k] ==> !#[trigger] unified_adjacent(places@, transitions@, arcs@, queue@[j] as int, queue@[k] as int),
                forall|j: int, y: usize| 0 <= j < head && #[trigger] unified_adjacent(places@, transitions@, arcs@, queue@[j] as int, y as int) ==> queue@.contains(y),
                forall|mm: int| 0 <= mm < m ==> queue@.contains(#[trigger] nb@[mm]),
                queue@[0] == start_node,
                degrees@.len() == n,
                forall|ii: int, a: int, b: int| 0 <= ii < adj@.len() && 0 <= a < b < adj@[ii]@.len()
                ==> degrees@[#[trigger] adj@[ii]@[a] as int] <= degrees@[#[trigger] adj@[ii]@[b] as int],
                pos.len() == queue@.len(),
                forall|k: int| 1 <= k < queue@.len() ==> 0 <= #[trigger] pos[k] < adj@[queue@[par[k]] as int]@.len()
                    && adj@[queue@[par[k]] as int]@[pos[k]] == queue@[k],
                forall|k: int, k2: int| 1 <= k < k2 < queue@.len() && par[k] == par[k2] ==> #[trigger] pos[k] < #[trigger] pos[k2],
                forall|k: int| 1 <= k < queue@.len() && par[k] == head ==> #[trigger] pos[k] < m,
            decreases nb@.len() - m,
        {
            let w = nb[m];
            proof {
                assert(adj@[node as int]@[m as int] < n);
            }
            if !visited[w] {
                proof {
                    lemma_distinct_below(queue@, n);
                    assert(!queue@.contains(w));
                    assert(nb@.contains(w));
                }
                let ghost old_q = queue@;
                let ghost old_par = par;
                let ghost old_pos = pos;
                visited.set(w, true);
                queue.push(w);
                proof {
                    par = par.push(head as int);
                    pos = pos.push(m as int);
                    assert forall|k: int| 1 <= k < queue@.len() implies 0 <= #[trigger] pos[k] < adj@[queue@[par[k]] as int]@.len()
                        && adj@[queue@[par[k]] as int]@[pos[k]] == queue@[k] by {
                        if k < old_q.len() {
                            assert(pos[k] == old_pos[k] && par[k] == old_par[k] && queue@[k] == old_q[k]);
                            assert(queue@[par[k]] == old_q[old_par[k]]);
                        } else {
                            assert(queue@[par[k]] == node);
                        }
                    }
                    assert forall|k: int, k2: int| 1 <= k < k2 < queue@.len() && par[k] == par[k2] implies #[trigger] pos[k] < #[trigger] pos[k2] by {
                        assert(pos[k] == old_pos[k] && par[k] == old_par[k]);
                        if k2 < old_q.len() {
                            assert(pos[k2] == old_pos[k2] && par[k2] == old_par[k2]);
                        }
                    }
                    assert forall|k: int| 1 <= k < queue@.len() && par[k] == head implies #[trigger] pos[k] < m + 1 by {
                        if k < old_q.len() {
                            assert(pos[k] == old_pos[k] && par[k] == old_par[k]);
                        }
                    }
                    assert forall|a: int, b: int| 0 <= a < b < queue@.len() implies queue@[a] != queue@[b] by {
                        if b == queue@.len() - 1 {
                            assert(old_q.contains(queue@[a]));
                        }
                    }
                    assert forall|k: int| 1 <= k < queue@.len() implies 0 <= #[trigger] par[k] <= head && par[k] < k
                        && unified_adjacent(places@, transitions@, arcs@, queue@[par[k]] as int, queue@[k] as int) by {
                        if k < old_q.len() {
                            assert(par[k] == old_par[k]);
                            assert(queue@[k] == old_q[k]);
                            assert(queue@[par[k]] == old_q[old_par[k]]);
                        } else {
                            assert(queue@[par[k]] == node);
                        }
                    }
                    assert forall|k: int, k2: int| 1 <= k < k2 < queue@.len() implies #[trigger] par[k] <= #[trigger] par[k2] by {
                        if k2 < old_q.len() {
                            assert(par[k] == old_par[k] && par[k2] == old_par[k2]);
                        } else {
                            assert(par[k] == old_par[k]);
                        }
                    }
                    assert forall|k: int, j: int| 1 <= k < queue@.len() && 0 <= j < par[k] implies !#[trigger] unified_adjacent(places@, transitions@, arcs@, queue@[j] as int, queue@[k] as int) by {
                        if k < old_q.len() {
                            assert(par[k] == old_par[k]);
                            assert(queue@[k] == old_q[k] && queue@[j] == old_q[j]);
                        } else {
                            assert(queue@[j] == old_q[j]);
                            if unified_adjacent(places@, transitions@, arcs@, queue@[j] as int, queue@[k] as int) {
                                assert(old_q.contains(w));
                            }
                        }
                    }
                    assert forall|j: int, y: usize| 0 <= j < head && #[trigger] unified_adjacent(places@, transitions@, arcs@, queue@[j] as int, y as int) implies queue@.contains(y) by {
                        assert(queue@[j] == old_q[j]);
                        assert(old_q.contains(y));
                    }
                    assert forall|mm: int| 0 <= mm < m + 1 implies queue@.contains(#[trigger] nb@[mm]) by {
                        if mm < m {
                            assert(old_q.contains(nb@[mm]));
                        }
                    }
                }
            } else {
                proof {
                    assert(queue@.contains(w));
                }
            }
            m = m + 1;
        }
        proof {
            assert forall|j: int, y: usize| 0 <= j < head + 1 && #[trigger] unified_adjacent(places@, transitions@, arcs@, queue@[j] as int, y as int) implies queue@.contains(y) by {
                if j == head {
                    assert(adj@[node as int]@.contains(y));
                    let mm = choose|mm: int| 0 <= mm < nb@.len() && nb@[mm] == y;
                    assert(queue@.contains(nb@[mm]));
                }
            }
        }
        head = head + 1;
    }
    let ghost reached = queue@;
    let ghost m_reached = queue@.len() as int;
    // Nodes the sweep did not reach, in position order.
    let mut order = queue;
    let mut i: usize = 0;
    while i < n
        invariant
            0 <= i <= n,
            visited@.len() == n,
            order@.no_duplicates(),
            forall|k: int| 0 <= k < order@.len() ==> #[trigger] order@[k] < n,
            forall|x: usize| x < n ==> (visited@[x as int] || x < i <==> order@.contains(x)),
            0 < m_reached <= order@.len(),
            order@.subrange(0, m_reached) == reached,
            forall|a: int| m_reached <= a < order@.len() ==> #[trigger] order@[a] < i,
            forall|a: int, b: int| m_reached <= a < b < order@.len() ==> #[trigger] order@[a] < #[trigger] order@[b],
        decreases n - i,
    {
        if !visited[i] {
            let ghost old_o = order@;
            order.push(i);
            proof {
                assert forall|a: int, b: int| 0 <= a < b < order@.len() implies order@[a] != order@[b] by {
                    if b == order@.len() - 1 {
                        assert(old_o.contains(order@[a]));
                    }
                }
                assert(order@ == old_o.push(i));
                assert(order@.subrange(0, m_reached) =~= old_o.subrange(0, m_reached));
                assert forall|a: int, b: int| m_reached <= a < b < order@.len() implies #[trigger] order@[a] < #[trigger] order@[b] by {
                    if b == order@.len() - 1 {
                        assert(order@[a] == old_o[a]);
                    } else {
                        assert(order@[a] == old_o[a] && order@[b] == old_o[b]);
                    }
                }
                assert forall|a: int| m_reached <= a < order@.len() implies #[trigger] order@[a] < i + 1 by {
                    if a < old_o.len() {
                        assert(order@[a] == old_o[a]);
                    }
                }
            }
        }
        i = i + 1;
    }
    proof {
        lemma_distinct_covering(order@, n);
    }
    // Reverse, then split into places and transitions.
    let mut ordered_places: Vec<Place> = Vec::new();
    let mut ordered_transitions: Vec<Transition> = Vec::new();
    let mut k: usize = order.len();
    while k > 0
        invariant
            0 <= k <= order@.len(),
            order@.len() == n,
            n == p_count + t_count,
            p_count == places@.len(),
            t_count == transitions@.len(),
            places@.no_duplicates(),
            transitions@.no_duplicates(),
            order@.no_duplicates(),
            forall|m: int| 0 <= m < order@.len() ==> #[trigger] order@[m] < n,
            ordered_places@.no_duplicates(),
            ordered_transitions@.no_duplicates(),
            forall|p: Place| ordered_places@.contains(p) <==> exists|m: int|
                k <= m < order@.len() && #[trigger] order@[m] < p_count && places@[order@[m] as int] == p,
            forall|t: Transition| ordered_transitions@.contains(t) <==> exists|m: int|
                k <= m < order@.len() && #[trigger] order@[m] >= p_count && transitions@[order@[m] - p_count] == t,
            ordered_places@ == rev_places(places@, order@.subrange(k as int, order@.len() as int)),
            ordered_transitions@ == rev_transitions(places@.len(), transitions@, order@.subrange(k as int, order@.len() as int)),
        decreases k,
    {
        proof {
            let s1 = order@.subrange(k - 1, order@.len() as int);
            assert(s1.drop_first() =~= order@.subrange(k as int, order@.len() as int));
            assert(s1[0] == order@[k - 1]);
        }
        k = k - 1;
        let idx = order[k];
        if idx < p_count {
            let p = places[idx];
            proof {
                if ordered_places@.contains(p) {
                    let m = choose|m: int|
                        k < m < order@.len() && #[trigger] order@[m] < p_count && places@[order@[m] as int] == p;
                    assert(order@[m] != order@[k as int]);
                }
            }
            let ghost old_op = ordered_places@;
            ordered_places.push(p);
            proof {
                assert forall|a: int, b: int| 0 <= a < b < ordered_places@.len() implies ordered_places@[a] != ordered_places@[b] by {
                    if b == ordered_places@.len() - 1 {
                        assert(old_op.contains(ordered_places@[a]));
                    }
                }
                assert forall|t: Transition| ordered_transitions@.contains(t) <==> exists|m: int|
                    k <= m < order@.len() && #[trigger] order@[m] >= p_count && transitions@[order@[m] - p_count] == t by {
                    if exists|m: int| k <= m < order@.len() && #[trigger] order@[m] >= p_count && transitions@[order@[m] - p_count] == t {
                        let m = choose|m: int| k <= m < order@.len() && #[trigger] order@[m] >= p_count && transitions@[order@[m] - p_count] == t;
                        assert(m != k);
                    }
                }
            }
        } else {
            let t = transitions[idx - p_count];
            proof {
                if ordered_transitions@.contains(t) {
                    let m = choose|m: int|
                        k < m < order@.len() && #[trigger] order@[m] >= p_count && transitions@[order@[m] - p_count] == t;
                    assert(order@[m] != order@[k as int]);
                }
            }
            let ghost old_ot = ordered_transitions@;
            ordered_transitions.push(t);
            proof {
                assert forall|a: int, b: int| 0 <= a < b < ordered_transitions@.len() implies ordered_transitions@[a] != ordered_transitions@[b] by {
                    if b == ordered_transitions@.len() - 1 {
                        assert(old_ot.contains(ordered_transitions@[a]));
                    }
                }
                assert forall|p: Place| ordered_places@.contains(p) <==> exists|m: int|
                    k <= m < order@.len() && #[trigger] order@[m] < p_count && places@[order@[m] as int] == p by {
                    if exists|m: int| k <= m < order@.len() && #[trigger] order@[m] < p_count && places@[order@[m] as int] == p {
                        let m = choose|m: int| k <= m < order@.len() && #[trigger] order@[m] < p_count && places@[order@[m] as int] == p;
                        assert(m != k);
                    }
                }
            }
        }
    }
    proof {
        assert forall|p: Place| ordered_places@.to_set().contains(p) <==> places@.to_set().contains(p) by {
            if places@.contains(p) {
                let j = choose|j: int| 0 <= j < places@.len() && places@[j] == p;
                assert(order@.contains(j as usize));
                let m = choose|m: int| 0 <= m < order@.len() && order@[m] == j as usize;
                assert(ordered_places@.contains(p));
            }
        }
        assert(ordered_places@.to_set() =~= places@.to_set());
        assert forall|t: Transition| ordered_transitions@.to_set().contains(t) <==> transitions@.to_set().contains(t) by {
            if transitions@.contains(t) {
                let j = choose|j: int| 0 <= j < transitions@.len() && transitions@[j] == t;
                assert(order@.contains((p_count + j) as usize));
                let m = choose|m: int| 0 <= m < order@.len() && order@[m] == (p_count + j) as usize;
                assert(ordered_transitions@.contains(t));
            }
        }
        assert(ordered_transitions@.to_set() =~= transitions@.to_set());
        ordered_places@.unique_seq_to_set();
        places@.unique_seq_to_set();
        ordered_transitions@.unique_seq_to_set();
        transitions@.unique_seq_to_set();
    }
    proof {
        let q = order@;
        let m = m_reached;
        assert forall|k: int| #![trigger q[k]] 0 < k < m implies exists|j: int| #![trigger q[j]] 0 <= j < k && unified_adjacent(places@, transitions@, arcs@, q[j] as int, q[k] as int) by {
            assert(q[k] == reached[k] && q[par[k]] == reached[par[k]]);
        }
        assert forall|k: int, k2: int, j2: int|
            #![trigger unified_adjacent(places@, transitions@, arcs@, q[j2] as int, q[k2] as int), q[k]]
            0 < k < k2 < m && 0 <= j2 < k2 && unified_adjacent(places@, transitions@, arcs@, q[j2] as int, q[k2] as int)
            implies exists|j: int| #![trigger q[j]] 0 <= j <= j2 && j < k && unified_adjacent(places@, transitions@, arcs@, q[j] as int, q[k] as int) by {
            assert(q[k] == reached[k] && q[k2] == reached[k2] && q[j2] == reached[j2]);
            assert(q[par[k]] == reached[par[k]]);
            assert(par[k] <= par[k2]);
            if j2 < par[k2] {
                assert(!unified_adjacent(places@, transitions@, arcs@, reached[j2] as int, reached[k2] as int));
            }
        }
        assert forall|j: int, y: usize| 0 <= j < m && #[trigger] unified_adjacent(places@, transitions@, arcs@, q[j] as int, y as int)
            implies q.subrange(0, m).contains(y) by {
            assert(q[j] == reached[j]);
            assert(reached.contains(y));
        }
        assert(order@.subrange(0, order@.len() as int) =~= order@);
        assert(order@.len() == n);
        assert(forall|a: int, b: int| m_reached <= a < b < order@.len() ==> #[trigger] order@[a] < #[trigger] order@[b]);
        assert(bfs_layout(places@, transitions@, arcs@, order@, m_reached));
        assert(q[0] == start_node);
        assert(george_liu_chain(places@, transitions@, arcs@, chain, fin_eccs) && chain.last() == q[0]);
        lemma_sibling_degrees(places@, transitions@, arcs@, adj@, degrees@, q, m, reached, par, pos);
        assert(rcm_layout(places@, transitions@, arcs@, order@, m_reached));
    }
    (ordered_places, ordered_transitions)
}

} // verus!
