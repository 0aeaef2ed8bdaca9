//! Reachability in a finite directed graph given by successor lists.
use vstd::prelude::*;

verus! {

/// Whether the set `s` holds every successor of each of its members.
pub open spec fn succ_closed(adj: Seq<Seq<usize>>, s: Set<usize>) -> bool {
    forall|a: usize, k: int| #[trigger] s.contains(a) && a < adj.len() && 0 <= k < adj[a as int].len() ==> s.contains(#[trigger] adj[a as int][k])
}

/// Whether `x` is reachable (in zero or more steps) from one of the nodes
/// that `starts` marks: every successor-closed set holding those nodes holds `x`.
pub open spec fn reaches(adj: Seq<Seq<usize>>, starts: Seq<bool>, x: usize) -> bool {
    forall|s: Set<usize>| #[trigger] succ_closed(adj, s) && (forall|j: usize| j < starts.len() && #[trigger] starts[j as int] ==> s.contains(j)) ==> s.contains(x)
}

/// Successor lists over the nodes below their own count.
pub open spec fn adj_in_range(adj: Seq<Seq<usize>>) -> bool {
    forall|a: int, k: int| 0 <= a < adj.len() && 0 <= k < adj[a].len() ==> #[trigger] adj[a][k] < adj.len()
}

/// The nodes that `v` marks, as a set.
pub open spec fn marked_set(v: Seq<bool>) -> Set<usize> {
    Set::new(|x: usize| x < v.len() && v[x as int])
}

/// One step keeps reachability.
pub proof fn lemma_reaches_step(adj: Seq<Seq<usize>>, starts: Seq<bool>, a: usize, k: int)
    requires
        reaches(adj, starts, a),
        a < adj.len(),
        0 <= k < adj[a as int].len(),
    ensures
        reaches(adj, starts, adj[a as int][k]),
{
    assert forall|s: Set<usize>| #[trigger] succ_closed(adj, s) && (forall|j: usize| j < starts.len() && #[trigger] starts[j as int] ==> s.contains(j)) implies s.contains(adj[a as int][k]) by {
        assert(s.contains(a));
    }
}

/// A node that reaches `x` in one step from a reachable node: reachability is transitive.
pub proof fn lemma_reaches_trans(adj: Seq<Seq<usize>>, starts: Seq<bool>, mid: Seq<bool>, x: usize)
    requires
        forall|j: usize| j < mid.len() && #[trigger] mid[j as int] ==> reaches(adj, starts, j),
        reaches(adj, mid, x),
    ensures
        reaches(adj, starts, x),
{
    assert forall|s: Set<usize>| #[trigger] succ_closed(adj, s) && (forall|j: usize| j < starts.len() && #[trigger] starts[j as int] ==> s.contains(j)) implies s.contains(x) by {
        assert forall|j: usize| j < mid.len() && #[trigger] mid[j as int] implies s.contains(j) by {
            assert(reaches(adj, starts, j));
        }
    }
}

/// The nodes reachable from the marked start nodes, by index.
pub fn reach_from(adj: &Vec<Vec<usize>>, starts: &Vec<bool>) -> (r: Vec<bool>)
    requires
        adj_in_range(adj.deep_view()),
        starts@.len() == adj@.len(),
    ensures
        r@.len() == adj@.len(),
        forall|x: usize| x < adj@.len() ==> (#[trigger] r@[x as int] <==> reaches(adj.deep_view(), starts@, x)),
{
    let ghost g = adj.deep_view();
    let n = adj.len();
    let mut visited: Vec<bool> = Vec::new();
    let mut queue: Vec<usize> = Vec::new();
    let mut i: usize = 0;
    while i < n
        invariant
            n == adj@.len(),
            g == adj.deep_view(),
            starts@.len() == n,
            0 <= i <= n,
            visited@.len() == i,
            queue@.no_duplicates(),
            forall|k: int| 0 <= k < queue@.len() ==> #[trigger] queue@[k] < i,
            forall|x: usize| x < i ==> (#[trigger] visited@[x as int] <==> queue@.contains(x)),
            forall|x: usize| x < i ==> (visited@[x as int] <==> starts@[x as int]),
        decreases n - i,
    {
        let s = starts[i];
        let ghost q0 = queue@;
        visited.push(s);
        if s {
            queue.push(i);
        }
        proof {
            assert forall|a: int, b: int| 0 <= a < b < queue@.len() implies queue@[a] != queue@[b] by {
                if s && b == queue@.len() - 1 {
                    assert(q0[a] < i);
                }
            }
            assert forall|x: usize| x < i + 1 implies (#[trigger] visited@[x as int] <==> queue@.contains(x)) by {
                crate::seq_facts::lemma_seq_push_contains(q0, i, x);
                if x < i && queue@.contains(x) && !q0.contains(x) {
                    assert(s && x == i);
                }
                if x == i && !s && queue@.contains(x) {
                    let k = choose|k: int| 0 <= k < q0.len() && q0[k] == x;
                }
            }
        }
        i = i + 1;
    }
    assert forall|x: usize| x < n && #[trigger] visited@[x as int] implies reaches(g, starts@, x) by {
        assert forall|s: Set<usize>| #[trigger] succ_closed(g, s) && (forall|j: usize| j < starts@.len() && #[trigger] starts@[j as int] ==> s.contains(j)) implies s.contains(x) by {
            assert(starts@[x as int]);
        }
    }
    proof {
        crate::seq_facts::lemma_distinct_below(queue@, n);
    }
    let mut head: usize = 0;
    while head < queue.len()
        invariant
            n == adj@.len(),
            g == adj.deep_view(),
            adj_in_range(g),
            starts@.len() == n,
            visited@.len() == n,
            0 <= head <= queue@.len(),
            queue@.len() <= n,
            queue@.no_duplicates(),
            forall|k: int| 0 <= k < queue@.len() ==> #[trigger] queue@[k] < n,
            forall|x: usize| x < n ==> (#[trigger] visited@[x as int] <==> queue@.contains(x)),
            forall|x: usize| x < n && #[trigger] starts@[x as int] ==> visited@[x as int],
            forall|x: usize| x < n && #[trigger] visited@[x as int] ==> reaches(g, starts@, x),
            forall|q: int, k: int| 0 <= q < head && 0 <= k < g[queue@[q] as int].len() ==> visited@[#[trigger] g[#[trigger] queue@[q] as int][k] as int],
        decreases n - head,
    {
        proof {
            crate::seq_facts::lemma_distinct_below(queue@, n);
        }
        let a = queue[head];
        let list = &adj[a];
        assert(list@ == g[a as int]);
        assert(queue@.contains(a));
        assert(visited@[a as int]);
        let mut k: usize = 0;
        while k < list.len()
            invariant
                n == adj@.len(),
                g == adj.deep_view(),
                adj_in_range(g),
                starts@.len() == n,
                visited@.len() == n,
                a == queue@[head as int],
                a < n,
                list@ == g[a as int],
                reaches(g, starts@, a),
                0 <= head < queue@.len(),
                queue@.len() <= n,
                queue@.no_duplicates(),
                forall|kk: int| 0 <= kk < queue@.len() ==> #[trigger] queue@[kk] < n,
                forall|x: usize| x < n ==> (#[trigger] visited@[x as int] <==> queue@.contains(x)),
                forall|x: usize| x < n && #[trigger] starts@[x as int] ==> visited@[x as int],
                forall|x: usize| x < n && #[trigger] visited@[x as int] ==> reaches(g, starts@, x),
                forall|q: int, kk: int| 0 <= q < head && 0 <= kk < g[queue@[q] as int].len() ==> visited@[#[trigger] g[#[trigger] queue@[q] as int][kk] as int],
                0 <= k <= list@.len(),
                forall|kk: int| 0 <= kk < k ==> visited@[#[trigger] list@[kk] as int],
            decreases list@.len() - k,
        {
            let b = list[k];
            assert(b < n);
            if !visited[b] {
                proof {
                    lemma_reaches_step(g, starts@, a, k as int);
                    assert(!queue@.contains(b));
                    crate::seq_facts::lemma_distinct_below(queue@, n);
                }
                let ghost q0 = queue@;
                let ghost v0 = visited@;
                visited.set(b, true);
                queue.push(b);
                proof {
                    assert forall|x: int, y: int| 0 <= x < y < queue@.len() implies queue@[x] != queue@[y] by {
                        if y == queue@.len() - 1 {
                            assert(q0.contains(queue@[x]));
                        }
                    }
                    assert forall|x: usize| x < n implies (#[trigger] visited@[x as int] <==> queue@.contains(x)) by {
                        crate::seq_facts::lemma_seq_push_contains(q0, b, x);
                    }
                    assert forall|q: int, kk: int| 0 <= q < head && 0 <= kk < g[queue@[q] as int].len() implies visited@[#[trigger] g[#[trigger] queue@[q] as int][kk] as int] by {
                        assert(queue@[q] == q0[q]);
                        assert(v0[g[q0[q] as int][kk] as int]);
                    }
                    assert forall|kk: int| 0 <= kk < k + 1 implies visited@[#[trigger] list@[kk] as int] by {
                        if kk < k {
                            assert(v0[list@[kk] as int]);
                        }
                    }
                }
            }
            k = k + 1;
        }
        head = head + 1;
    }
    proof {
        let s = marked_set(visited@);
        assert forall|a: usize, k: int| #[trigger] s.contains(a) && a < g.len() && 0 <= k < g[a as int].len() implies s.contains(#[trigger] g[a as int][k]) by {
            assert(queue@.contains(a));
            let q = choose|q: int| 0 <= q < queue@.len() && queue@[q] == a;
            assert(visited@[g[queue@[q] as int][k] as int]);
        }
        assert forall|x: usize| x < n implies (#[trigger] visited@[x as int] <==> reaches(g, starts@, x)) by {
            if reaches(g, starts@, x) {
                assert(succ_closed(g, s));
                assert forall|j: usize| j < starts@.len() && #[trigger] starts@[j as int] implies s.contains(j) by {}
                assert(s.contains(x));
            }
        }
    }
    visited
}


/// Whether the set `s` holds the target of every edge whose source it holds.
pub open spec fn edge_closed(edges: Seq<(usize, usize)>, s: Set<usize>) -> bool {
    forall|k: int| 0 <= k < edges.len() && #[trigger] s.contains(edges[k].0) ==> s.contains(edges[k].1)
}

/// Whether `x` is reachable along the edges from one of the marked start nodes.
pub open spec fn reaches_along(edges: Seq<(usize, usize)>, starts: Seq<bool>, x: usize) -> bool {
    forall|s: Set<usize>| #[trigger] edge_closed(edges, s) && (forall|j: usize| j < starts.len() && #[trigger] starts[j as int] ==> s.contains(j)) ==> s.contains(x)
}

/// Whether every edge joins two nodes below `n`.
pub open spec fn edges_below(edges: Seq<(usize, usize)>, n: nat) -> bool {
    forall|k: int| 0 <= k < edges.len() ==> (#[trigger] edges[k]).0 < n && edges[k].1 < n
}

/// The mask that marks node `m` alone among `n` nodes.
pub open spec fn single(n: nat, m: usize) -> Seq<bool> {
    Seq::new(n, |j: int| j == m as int)
}

/// Successor lists of the graph with `n` nodes and the given edges.
pub fn adjacency(n: usize, edges: &Vec<(usize, usize)>) -> (r: Vec<Vec<usize>>)
    requires
        edges_below(edges@, n as nat),
    ensures
        r@.len() == n,
        adj_in_range(r.deep_view()),
        forall|a: usize, b: usize| a < n ==> (#[trigger] r.deep_view()[a as int].contains(b) <==> exists|k: int| 0 <= k < edges@.len() && #[trigger] edges@[k] == (a, b)),
{
    let mut r: Vec<Vec<usize>> = Vec::new();
    let mut i: usize = 0;
    while i < n
        invariant
            0 <= i <= n,
            r@.len() == i,
            forall|a: int| 0 <= a < i ==> (#[trigger] r@[a])@.len() == 0,
        decreases n - i,
    {
        r.push(Vec::new());
        i = i + 1;
    }
    let mut k: usize = 0;
    while k < edges.len()
        invariant
            edges_below(edges@, n as nat),
            r@.len() == n,
            0 <= k <= edges@.len(),
            forall|a: int, j: int| 0 <= a < n && 0 <= j < r@[a]@.len() ==> #[trigger] r@[a]@[j] < n,
            forall|a: usize, b: usize| a < n ==> (#[trigger] r@[a as int]@.contains(b) <==> exists|kk: int| 0 <= kk < k && #[trigger] edges@[kk] == (a, b)),
        decreases edges@.len() - k,
    {
        let (a, b) = edges[k];
        let ghost r0 = r@;
        let mut row = r[a].clone();
        assert(row@ == r0[a as int]@);
        let ghost row0 = row@;
        row.push(b);
        r.set(a, row);
        proof {
            assert forall|x: int, j: int| 0 <= x < n && 0 <= j < r@[x]@.len() implies #[trigger] r@[x]@[j] < n by {
                if x != a as int {
                    assert(r@[x] == r0[x]);
                } else if j < row0.len() {
                    assert(r@[x]@[j] == row0[j]);
                }
            }
            assert forall|x: usize, y: usize| x < n implies (#[trigger] r@[x as int]@.contains(y) <==> exists|kk: int| 0 <= kk < k + 1 && #[trigger] edges@[kk] == (x, y)) by {
                if x != a {
                    assert(r@[x as int] == r0[x as int]);
                    if exists|kk: int| 0 <= kk < k + 1 && #[trigger] edges@[kk] == (x, y) {
                        let kk = choose|kk: int| 0 <= kk < k + 1 && #[trigger] edges@[kk] == (x, y);
                        assert(kk != k);
                    }
                } else {
                    crate::seq_facts::lemma_seq_push_contains(row0, b, y);
                    if y == b {
                        assert(edges@[k as int] == (x, y));
                    }
                    if exists|kk: int| 0 <= kk < k + 1 && #[trigger] edges@[kk] == (x, y) {
                        let kk = choose|kk: int| 0 <= kk < k + 1 && #[trigger] edges@[kk] == (x, y);
                        if kk < k {
                            assert(row0.contains(y));
                        }
                    }
                }
            }
        }
        k = k + 1;
    }
    proof {
        assert forall|a: int| 0 <= a < r@.len() implies #[trigger] r.deep_view()[a] == r@[a]@ by {}
    }
    r
}

/// Over successor lists built from an edge list, both notions of reachability agree.
pub proof fn lemma_reaches_adjacency(adj: Seq<Seq<usize>>, edges: Seq<(usize, usize)>, starts: Seq<bool>, x: usize)
    requires
        edges_below(edges, adj.len()),
        forall|a: usize, b: usize| a < adj.len() ==> (#[trigger] adj[a as int].contains(b) <==> exists|k: int| 0 <= k < edges.len() && #[trigger] edges[k] == (a, b)),
    ensures
        reaches(adj, starts, x) == reaches_along(edges, starts, x),
{
    assert forall|s: Set<usize>| #[trigger] succ_closed(adj, s) <==> #[trigger] edge_closed(edges, s) by {
        if succ_closed(adj, s) {
            assert forall|k: int| 0 <= k < edges.len() && #[trigger] s.contains(edges[k].0) implies s.contains(edges[k].1) by {
                let (a, b) = edges[k];
                assert(adj[a as int].contains(b));
                let j = choose|j: int| 0 <= j < adj[a as int].len() && adj[a as int][j] == b;
                assert(s.contains(adj[a as int][j]));
            }
        }
        if edge_closed(edges, s) {
            assert forall|a: usize, j: int| #[trigger] s.contains(a) && a < adj.len() && 0 <= j < adj[a as int].len() implies s.contains(#[trigger] adj[a as int][j]) by {
                let b = adj[a as int][j];
                assert(adj[a as int].contains(b));
                let k = choose|k: int| 0 <= k < edges.len() && #[trigger] edges[k] == (a, b);
                assert(s.contains(edges[k].0));
            }
        }
    }
    if reaches(adj, starts, x) {
        assert forall|s: Set<usize>| #[trigger] edge_closed(edges, s) && (forall|j: usize| j < starts.len() && #[trigger] starts[j as int] ==> s.contains(j)) implies s.contains(x) by {
            assert(succ_closed(adj, s));
        }
    }
    if reaches_along(edges, starts, x) {
        assert forall|s: Set<usize>| #[trigger] succ_closed(adj, s) && (forall|j: usize| j < starts.len() && #[trigger] starts[j as int] ==> s.contains(j)) implies s.contains(x) by {
            assert(edge_closed(edges, s));
        }
    }
}

/// The nodes reachable along the edges from the marked start nodes, by index.
pub fn reach_along(n: usize, edges: &Vec<(usize, usize)>, starts: &Vec<bool>) -> (r: Vec<bool>)
    requires
        edges_below(edges@, n as nat),
        starts@.len() == n,
    ensures
        r@.len() == n,
        forall|x: usize| x < n ==> (#[trigger] r@[x as int] <==> reaches_along(edges@, starts@, x)),
{
    let adj = adjacency(n, edges);
    let r = reach_from(&adj, starts);
    proof {
        assert forall|x: usize| x < n implies (#[trigger] r@[x as int] <==> reaches_along(edges@, starts@, x)) by {
            lemma_reaches_adjacency(adj.deep_view(), edges@, starts@, x);
        }
    }
    r
}


/// Whether the set `s` holds every `b` related to one of its members `a`.
pub open spec fn rel_closed(rel: spec_fn(usize, usize) -> bool, s: Set<usize>) -> bool {
    forall|a: usize, b: usize| #[trigger] s.contains(a) && #[trigger] rel(a, b) ==> s.contains(b)
}

/// Whether `x` is reachable from a member of `starts` by steps of `rel`.
pub open spec fn rel_reaches(rel: spec_fn(usize, usize) -> bool, starts: Set<usize>, x: usize) -> bool {
    forall|s: Set<usize>| #[trigger] rel_closed(rel, s) && starts.subset_of(s) ==> s.contains(x)
}

/// Over an edge list that lists exactly the pairs of a relation, reachability
/// along the edges is reachability by steps of the relation.
pub proof fn lemma_reaches_rel(edges: Seq<(usize, usize)>, rel: spec_fn(usize, usize) -> bool, starts: Seq<bool>, x: usize)
    requires
        forall|a: usize, b: usize| #[trigger] rel(a, b) <==> exists|k: int| 0 <= k < edges.len() && #[trigger] edges[k] == (a, b),
    ensures
        reaches_along(edges, starts, x) == rel_reaches(rel, marked_set(starts), x),
{
    assert forall|s: Set<usize>| #[trigger] edge_closed(edges, s) <==> #[trigger] rel_closed(rel, s) by {
        if edge_closed(edges, s) {
            assert forall|a: usize, b: usize| #[trigger] s.contains(a) && #[trigger] rel(a, b) implies s.contains(b) by {
                let k = choose|k: int| 0 <= k < edges.len() && #[trigger] edges[k] == (a, b);
                assert(s.contains(edges[k].0));
            }
        }
        if rel_closed(rel, s) {
            assert forall|k: int| 0 <= k < edges.len() && #[trigger] s.contains(edges[k].0) implies s.contains(edges[k].1) by {
                assert(rel(edges[k].0, edges[k].1));
            }
        }
    }
    if reaches_along(edges, starts, x) {
        assert forall|s: Set<usize>| #[trigger] rel_closed(rel, s) && marked_set(starts).subset_of(s) implies s.contains(x) by {
            assert(edge_closed(edges, s));
            assert forall|j: usize| j < starts.len() && #[trigger] starts[j as int] implies s.contains(j) by {
                assert(marked_set(starts).contains(j));
            }
        }
    }
    if rel_reaches(rel, marked_set(starts), x) {
        assert forall|s: Set<usize>| #[trigger] edge_closed(edges, s) && (forall|j: usize| j < starts.len() && #[trigger] starts[j as int] ==> s.contains(j)) implies s.contains(x) by {
            assert(rel_closed(rel, s));
            assert forall|j: usize| marked_set(starts).contains(j) implies s.contains(j) by {}
        }
    }
}

} // verus!
