//! Cycle detection in the dependency graph between named layers.

use vstd::prelude::*;

use vstd::pervasive::VecAdditionalExecFns;

use crate::contract::{edge_pairs, DependencyEdge};
use crate::text::texts;

verus! {

/// There is an edge `u -> v` in the list of edges.
pub open spec fn has_edge(edges: Seq<(Seq<char>, Seq<char>)>, u: Seq<char>, v: Seq<char>) -> bool {
    exists|k: int| 0 <= k < edges.len() && edges[k] == (u, v)
}

/// Each node of `p` has an edge to the next.
pub open spec fn is_walk(edges: Seq<(Seq<char>, Seq<char>)>, p: Seq<Seq<char>>) -> bool {
    forall|i: int| 0 <= i < p.len() - 1 ==> has_edge(edges, #[trigger] p[i], p[i + 1])
}

/// The graph has a closed walk: a cycle.
pub open spec fn has_cycle(edges: Seq<(Seq<char>, Seq<char>)>) -> bool {
    exists|p: Seq<Seq<char>>| p.len() >= 2 && p[0] == p.last() && #[trigger] is_walk(edges, p)
}

/// `p` is a walk whose nodes before the last are distinct, and whose last
/// node occurs earlier on it: a simple path that ends by closing a cycle.
pub open spec fn cycle_witness(edges: Seq<(Seq<char>, Seq<char>)>, p: Seq<Seq<char>>) -> bool {
    &&& p.len() >= 2
    &&& is_walk(edges, p)
    &&& forall|i: int, j: int| 0 <= i < j < p.len() - 1 ==> #[trigger] p[i] != #[trigger] p[j]
    &&& exists|j: int| 0 <= j < p.len() - 1 && p[j] == p.last()
}

/// What a cycle search may answer: a walk that ends on a cycle, or nothing
/// when the graph has no cycle.
pub open spec fn cycle_report(edges: Seq<(Seq<char>, Seq<char>)>, c: Option<Seq<Seq<char>>>) -> bool {
    match c {
        Some(p) => cycle_witness(edges, p),
        None => !has_cycle(edges),
    }
}

/// A walk that ends on a cycle shows that the graph has a cycle.
pub proof fn lemma_witness_has_cycle(edges: Seq<(Seq<char>, Seq<char>)>, p: Seq<Seq<char>>)
    requires
        cycle_witness(edges, p),
    ensures
        has_cycle(edges),
{
    let j = choose|j: int| 0 <= j < p.len() - 1 && p[j] == p.last();
    let q = p.subrange(j, p.len() as int);
    assert forall|i: int| 0 <= i < q.len() - 1 implies has_edge(edges, #[trigger] q[i], q[i + 1]) by {
        assert(q[i] == p[i + j]);
        assert(q[i + 1] == p[i + j + 1]);
    }
    assert(q.len() >= 2 && q[0] == q.last() && is_walk(edges, q));
}

// ---------------------------------------------------------------------------
// The same notions on a graph whose nodes are indices, given by adjacency lists.

pub open spec fn iedge(adj: Seq<Seq<usize>>, u: int, v: int) -> bool {
    0 <= u < adj.len() && exists|k: int| 0 <= k < adj[u].len() && #[trigger] adj[u][k] as int == v
}

/// Node `v` occurs on `path`.
pub open spec fn on_path(path: Seq<usize>, v: int) -> bool {
    exists|i: int| 0 <= i < path.len() && #[trigger] path[i] as int == v
}

pub open spec fn iwalk(adj: Seq<Seq<usize>>, p: Seq<usize>) -> bool {
    forall|i: int| 0 <= i < p.len() - 1 ==> iedge(adj, #[trigger] p[i] as int, p[i + 1] as int)
}

/// The number of `false` entries.
pub open spec fn unvisited(s: Seq<bool>) -> nat
    decreases s.len(),
{
    if s.len() == 0 {
        0
    } else {
        unvisited(s.drop_last()) + (if s.last() { 0nat } else { 1nat })
    }
}

proof fn lemma_unvisited_set(s: Seq<bool>, i: int)
    requires
        0 <= i < s.len(),
        !s[i],
    ensures
        unvisited(s.update(i, true)) + 1 == unvisited(s),
    decreases s.len(),
{
    let t = s.update(i, true);
    if i < s.len() - 1 {
        assert(t.drop_last() =~= s.drop_last().update(i, true));
        lemma_unvisited_set(s.drop_last(), i);
    } else {
        assert(t.drop_last() =~= s.drop_last());
    }
}

proof fn lemma_unvisited_monotone(s1: Seq<bool>, s2: Seq<bool>)
    requires
        s1.len() == s2.len(),
        forall|i: int| 0 <= i < s1.len() && #[trigger] s1[i] ==> s2[i],
    ensures
        unvisited(s2) <= unvisited(s1),
    decreases s1.len(),
{
    if s1.len() > 0 {
        lemma_unvisited_monotone(s1.drop_last(), s2.drop_last());
    }
}


/// The adjacency lists as sequences.
pub open spec fn lists(adj: Seq<Vec<usize>>) -> Seq<Seq<usize>> {
    adj.map_values(|l: Vec<usize>| l@)
}

/// Node `v` is finished: visited, and no longer on the search path.
pub open spec fn finished(visiting: Seq<bool>, visited: Seq<bool>, v: int) -> bool {
    visited[v] && !visiting[v]
}

/// Every adjacency list names nodes of the graph.
pub open spec fn adj_closed(adj: Seq<Seq<usize>>) -> bool {
    forall|u: int, k: int| 0 <= u < adj.len() && 0 <= k < adj[u].len() ==> #[trigger] adj[u][k] < adj.len()
}

/// The state of the depth-first search: the nodes being visited are exactly
/// those on the path, which is a walk; every finished node has a rank below
/// `counter`, and its successors are finished with lower ranks.
pub open spec fn dfs_inv(
    adj: Seq<Seq<usize>>,
    visiting: Seq<bool>,
    visited: Seq<bool>,
    path: Seq<usize>,
    rank: Seq<int>,
    counter: int,
) -> bool {
    let n = adj.len();
    &&& visiting.len() == n
    &&& visited.len() == n
    &&& rank.len() == n
    &&& adj_closed(adj)
    &&& forall|v: int| 0 <= v < n && #[trigger] visiting[v] ==> visited[v]
    &&& forall|v: int| 0 <= v < n ==> (#[trigger] visiting[v] <==> on_path(path, v))
    &&& forall|i: int| 0 <= i < path.len() ==> #[trigger] path[i] < n
    &&& forall|i: int, j: int| 0 <= i < j < path.len() ==> #[trigger] path[i] != #[trigger] path[j]
    &&& iwalk(adj, path)
    &&& forall|v: int| 0 <= v < n && #[trigger] finished(visiting, visited, v) ==> rank[v] < counter
    &&& forall|u: int, v: int|
        0 <= u < n && #[trigger] finished(visiting, visited, u) && #[trigger] iedge(adj, u, v)
            ==> finished(visiting, visited, v) && rank[v] < rank[u]
}

/// Everything reachable from a finished node is finished: along any walk that
/// starts at a finished node, every node is finished.
pub proof fn law_finished_closed_under_reachability(
    adj: Seq<Seq<usize>>,
    visiting: Seq<bool>,
    visited: Seq<bool>,
    path: Seq<usize>,
    rank: Seq<int>,
    counter: int,
    q: Seq<usize>,
)
    requires
        dfs_inv(adj, visiting, visited, path, rank, counter),
        q.len() >= 1,
        q[0] < adj.len(),
        finished(visiting, visited, q[0] as int),
        iwalk(adj, q),
    ensures
        forall|i: int| 0 <= i < q.len() ==> #[trigger] finished(visiting, visited, q[i] as int),
    decreases q.len(),
{
    if q.len() > 1 {
        let p = q.drop_last();
        assert forall|i: int| 0 <= i < p.len() - 1 implies iedge(adj, #[trigger] p[i] as int, p[i + 1] as int) by {
            assert(p[i] == q[i] && p[i + 1] == q[i + 1]);
        }
        law_finished_closed_under_reachability(adj, visiting, visited, path, rank, counter, p);
        let k = q.len() - 2;
        assert(p[k] == q[k]);
        assert(finished(visiting, visited, q[k] as int));
        assert(iedge(adj, q[k] as int, q[k + 1] as int));
        assert forall|i: int| 0 <= i < q.len() implies #[trigger] finished(visiting, visited, q[i] as int) by {
            if i < q.len() - 1 {
                assert(p[i] == q[i]);
            }
        }
    }
}

/// Depth-first search from `u`. Returns a walk that ends on a cycle, or
/// nothing, once `u` and all it reaches are finished.
fn visit(
    adj: &Vec<Vec<usize>>,
    u: usize,
    visiting: &mut Vec<bool>,
    visited: &mut Vec<bool>,
    path: &mut Vec<usize>,
    Ghost(rank): Ghost<Seq<int>>,
    Ghost(counter): Ghost<int>,
) -> (res: (Option<Vec<usize>>, Ghost<(Seq<int>, int)>))
    requires
        u < adj@.len(),
        dfs_inv(lists(adj@), old(visiting)@, old(visited)@, old(path)@, rank, counter),
        old(path)@.len() > 0 ==> iedge(lists(adj@), old(path)@.last() as int, u as int),
    ensures
        match res.0 {
            Some(c) => {
                &&& c@.len() >= 2
                &&& iwalk(lists(adj@), c@)
                &&& forall|i: int, j: int| 0 <= i < j < c@.len() - 1 ==> #[trigger] c@[i] != #[trigger] c@[j]
                &&& exists|j: int| 0 <= j < c@.len() - 1 && c@[j] == c@.last()
                &&& forall|i: int| 0 <= i < c@.len() ==> #[trigger] c@[i] < adj@.len()
                &&& final(path)@ == c@
                &&& old(path)@.len() < c@.len()
                &&& c@.subrange(0, old(path)@.len() as int) == old(path)@
            },
            None => {
                let (rank2, counter2) = res.1@;
                &&& dfs_inv(lists(adj@), final(visiting)@, final(visited)@, final(path)@, rank2, counter2)
                &&& final(path)@ == old(path)@
                &&& final(visiting)@ == old(visiting)@
                &&& finished(final(visiting)@, final(visited)@, u as int)
                &&& forall|q: Seq<usize>| q.len() >= 1 && q[0] == u && #[trigger] iwalk(lists(adj@), q)
                    ==> forall|i: int| 0 <= i < q.len() ==> #[trigger] finished(final(visiting)@, final(visited)@, q[i] as int)
                &&& forall|v: int| 0 <= v < adj@.len() && #[trigger] old(visited)@[v] ==> final(visited)@[v]
                &&& forall|v: int| 0 <= v < adj@.len() && finished(old(visiting)@, old(visited)@, v)
                    ==> #[trigger] rank2[v] == rank[v]
            },
        },
        old(visiting)@[u as int] ==> {
            &&& res.0 matches Some(c) && c@ == old(path)@.push(u)
            &&& final(visiting)@ == old(visiting)@
            &&& final(visited)@ == old(visited)@
        },
        finished(old(visiting)@, old(visited)@, u as int) ==> {
            &&& res.0 is None
            &&& res.1@ == (rank, counter)
            &&& final(path)@ == old(path)@
            &&& final(visiting)@ == old(visiting)@
            &&& final(visited)@ == old(visited)@
        },
    decreases unvisited(old(visited)@),
{
    let ghost g = lists(adj@);
    if visiting[u] {
        let ghost before = path@;
        path.push(u);
        let c = path.clone();
        assert(c@ =~= path@);
        proof {
            assert(on_path(before, u as int));
            let j = choose|j: int| 0 <= j < before.len() && #[trigger] before[j] as int == u;
            assert(c@[j] == c@.last());
            assert forall|a: int, b: int| 0 <= a < b < c@.len() - 1 implies #[trigger] c@[a] != #[trigger] c@[b] by {
                assert(c@[a] == before[a] && c@[b] == before[b]);
            }
            assert(c@.subrange(0, before.len() as int) =~= before);
            assert(c@[j] == c@.last());
            assert forall|i: int| 0 <= i < c@.len() - 1 implies iedge(g, #[trigger] c@[i] as int, c@[i + 1] as int) by {
                if i < c@.len() - 2 {
                    assert(c@[i] == before[i] && c@[i + 1] == before[i + 1]);
                }
            }
        }
        assert(forall|i: int| 0 <= i < c@.len() ==> #[trigger] c@[i] < adj@.len());
        assert(c@.len() >= 2);
        assert(iwalk(g, c@));
        assert(exists|j: int| 0 <= j < c@.len() - 1 && c@[j] == c@.last());
        return (Some(c), Ghost((rank, counter)));
    }
    if visited[u] {
        proof {
        assert forall|q: Seq<usize>| q.len() >= 1 && q[0] == u && #[trigger] iwalk(g, q)
            implies forall|i: int| 0 <= i < q.len() ==> #[trigger] finished(visiting@, visited@, q[i] as int) by {
            law_finished_closed_under_reachability(g, visiting@, visited@, path@, rank, counter, q);
        }
        }
        return (None, Ghost((rank, counter)));
    }
    proof { lemma_unvisited_set(visited@, u as int); }
    visited.set(u, true);
    visiting.set(u, true);
    path.push(u);
    let ghost mut rk = rank;
    let ghost mut ct = counter;
    let ghost entry_visited = old(visited)@;
    let ghost entry_visiting = old(visiting)@;
    let ghost entry_path = old(path)@;
    assert(path@ == entry_path.push(u));
    assert(visiting@ == entry_visiting.update(u as int, true));
    assert(visited@ == entry_visited.update(u as int, true));
    proof {
        assert forall|v: int| 0 <= v < g.len() implies (#[trigger] visiting@[v] <==> on_path(path@, v)) by {
            if v == u {
                assert(path@[path@.len() - 1] == u);
            } else {
                if on_path(path@, v) {
                    let j = choose|j: int| 0 <= j < path@.len() && #[trigger] path@[j] as int == v;
                    assert(path@[path@.len() - 1] == u);
                    assert(j < entry_path.len());
                    assert(entry_path[j] as int == v);
                }
                if on_path(entry_path, v) {
                    let j = choose|j: int| 0 <= j < entry_path.len() && #[trigger] entry_path[j] as int == v;
                    assert(path@[j] as int == v);
                }
            }
        }
        assert forall|i: int| 0 <= i < path@.len() - 1 implies iedge(g, #[trigger] path@[i] as int, path@[i + 1] as int) by {
            if i < path@.len() - 2 {
                assert(path@[i] == entry_path[i] && path@[i + 1] == entry_path[i + 1]);
            }
        }
        assert forall|v: int| 0 <= v < g.len() && #[trigger] finished(visiting@, visited@, v) implies finished(entry_visiting, entry_visited, v) by {}
    }
    let succs = &adj[u];
    let mut k: usize = 0;
    while k < succs.len()
        invariant
            g == lists(adj@),
            u < g.len(),
            succs@ == g[u as int],
            k <= succs@.len(),
            dfs_inv(g, visiting@, visited@, path@, rk, ct),
            path@ == entry_path.push(u),
            visiting@ == entry_visiting.update(u as int, true),
            !entry_visiting[u as int],
            !entry_visited[u as int],
            visited@[u as int],
            forall|v: int| 0 <= v < g.len() && #[trigger] entry_visited[v] ==> visited@[v],
            forall|v: int| 0 <= v < g.len() && finished(entry_visiting, entry_visited, v) ==> #[trigger] rk[v] == rank[v],
            forall|j: int| 0 <= j < k ==> finished(visiting@, visited@, #[trigger] succs@[j] as int),
            unvisited(visited@) < unvisited(entry_visited),
            entry_visited == old(visited)@,
            entry_visiting == old(visiting)@,
            entry_path == old(path)@,
            entry_visiting.len() == g.len(),
            entry_visited.len() == g.len(),
            visiting@.len() == g.len(),
            visited@.len() == g.len(),
        decreases succs@.len() - k,
    {
        let v = succs[k];
        assert(g[u as int][k as int] == v);
        assert(iedge(g, u as int, v as int));
        let ghost before = visited@;
        let ghost before_visiting = visiting@;
        let (r, Ghost(next)) = visit(adj, v, visiting, visited, path, Ghost(rk), Ghost(ct));
        if r.is_some() {
            proof {
                let c = r->0;
                let inner = entry_path.push(u);
                assert(c@.subrange(0, inner.len() as int) == inner);
                assert forall|i: int| 0 <= i < entry_path.len() implies c@[i] == entry_path[i] by {
                    assert(c@.subrange(0, inner.len() as int)[i] == c@[i]);
                    assert(inner[i] == entry_path[i]);
                }
                assert(c@.subrange(0, entry_path.len() as int) =~= entry_path);
            }
            return (r, Ghost(next));
        }
        proof {
            lemma_unvisited_monotone(before, visited@);
            assert forall|w: int| 0 <= w < g.len() && finished(entry_visiting, entry_visited, w)
                implies #[trigger] next.0[w] == rank[w] by {
                assert(w != u);
                assert(before[w]);
                assert(!before_visiting[w]);
                assert(finished(before_visiting, before, w));
            }
            rk = next.0;
            ct = next.1;
        }
        k = k + 1;
    }
    let ghost loop_visiting = visiting@;
    let ghost rk0 = rk;
    let ghost ct0 = ct;
    path.pop();
    visiting.set(u, false);
    proof {
        assert(path@ =~= entry_path);
        assert(visiting@ =~= entry_visiting);
        assert(loop_visiting[u as int]);
        rk = rk0.update(u as int, ct0);
        ct = ct0 + 1;
        assert forall|v: int| 0 <= v < g.len() && v != u && #[trigger] finished(visiting@, visited@, v)
            implies finished(loop_visiting, visited@, v) by {}
        assert forall|v: int| 0 <= v < g.len() && #[trigger] finished(visiting@, visited@, v) implies rk[v] < ct by {
            if v != u {
                assert(finished(loop_visiting, visited@, v));
            }
        }
        assert forall|a: int, b: int|
            0 <= a < g.len() && #[trigger] finished(visiting@, visited@, a) && #[trigger] iedge(g, a, b)
            implies finished(visiting@, visited@, b) && rk[b] < rk[a] by {
            if a == u {
                let j = choose|j: int| 0 <= j < succs@.len() && #[trigger] succs@[j] as int == b;
                assert(finished(loop_visiting, visited@, succs@[j] as int));
                assert(b != u);
            } else {
                assert(finished(loop_visiting, visited@, a));
                assert(finished(loop_visiting, visited@, b));
                assert(b != u);
            }
        }
    }
    proof {
        assert forall|q: Seq<usize>| q.len() >= 1 && q[0] == u && #[trigger] iwalk(g, q)
            implies forall|i: int| 0 <= i < q.len() ==> #[trigger] finished(visiting@, visited@, q[i] as int) by {
            law_finished_closed_under_reachability(g, visiting@, visited@, path@, rk, ct, q);
        }
    }
    (None, Ghost((rk, ct)))
}


/// No text occurs twice.
pub open spec fn distinct(s: Seq<Seq<char>>) -> bool {
    forall|i: int, j: int| 0 <= i < j < s.len() ==> #[trigger] s[i] != #[trigger] s[j]
}

/// The index of `x` in the node table, which is added at the end if absent.
fn node_index(names: &mut Vec<String>, x: &String) -> (i: usize)
    requires
        distinct(texts(old(names)@)),
    ensures
        distinct(texts(final(names)@)),
        i < final(names)@.len(),
        texts(final(names)@)[i as int] == x@,
        old(names)@.len() <= final(names)@.len(),
        forall|j: int| 0 <= j < old(names)@.len() ==> #[trigger] texts(final(names)@)[j] == texts(old(names)@)[j],
{
    let mut k: usize = 0;
    while k < names.len()
        invariant
            k <= names@.len(),
            names@ == old(names)@,
            distinct(texts(names@)),
            forall|j: int| 0 <= j < k ==> texts(names@)[j] != x@,
        decreases names@.len() - k,
    {
        if names[k] == *x {
            return k;
        }
        k = k + 1;
    }
    let ghost before = texts(names@);
    names.push(x.clone());
    assert(texts(names@) =~= before.push(x@));
    k
}

/// `x` occurs in the list.
pub open spec fn in_list(l: Seq<usize>, x: int) -> bool {
    exists|t: int| 0 <= t < l.len() && #[trigger] l[t] as int == x
}

/// An edge `a -> x` is among the first `j` index pairs.
pub open spec fn listed_upto(iedges: Seq<(usize, usize)>, j: int, a: int, x: int) -> bool {
    exists|i: int| 0 <= i < j && #[trigger] iedges[i].0 as int == a && iedges[i].1 as int == x
}

/// An edge `a -> v` is listed among the index pairs.
pub open spec fn listed(iedges: Seq<(usize, usize)>, a: int, v: int) -> bool {
    exists|j: int| 0 <= j < iedges.len() && #[trigger] iedges[j].0 as int == a && iedges[j].1 as int == v
}

/// Counting along a walk, ranks strictly fall; so no walk closes on itself
/// among finished nodes.
proof fn lemma_ranks_fall(
    adj: Seq<Seq<usize>>,
    visiting: Seq<bool>,
    visited: Seq<bool>,
    path: Seq<usize>,
    rank: Seq<int>,
    counter: int,
    q: Seq<usize>,
    i: int,
)
    requires
        dfs_inv(adj, visiting, visited, path, rank, counter),
        forall|v: int| 0 <= v < adj.len() ==> #[trigger] finished(visiting, visited, v),
        iwalk(adj, q),
        forall|t: int| 0 <= t < q.len() ==> #[trigger] q[t] < adj.len(),
        0 <= i < q.len(),
    ensures
        rank[q[i] as int] + i <= rank[q[0] as int],
    decreases i,
{
    if i > 0 {
        lemma_ranks_fall(adj, visiting, visited, path, rank, counter, q, i - 1);
        assert(iedge(adj, q[i - 1] as int, q[i] as int));
        assert(finished(visiting, visited, q[i - 1] as int));
    }
}

/// A search for a dependency cycle. Returns a walk that ends by going round a
/// cycle (its last node occurs earlier on it), or nothing when there is no cycle.
pub fn find_cycle(edges: &Vec<DependencyEdge>) -> (cycle: Option<Vec<String>>)
    ensures
        cycle_report(
            edge_pairs(edges@),
            match cycle {
                Some(c) => Some(texts(c@)),
                None => None,
            },
        ),
{
    let ghost e = edge_pairs(edges@);
    let m = edges.len();
    let mut names: Vec<String> = Vec::new();
    let mut iedges: Vec<(usize, usize)> = Vec::new();
    let mut k: usize = 0;
    while k < m
        invariant
            m == edges@.len(),
            e == edge_pairs(edges@),
            k <= m,
            distinct(texts(names@)),
            iedges@.len() == k,
            forall|j: int| 0 <= j < k ==> {
                &&& (#[trigger] iedges@[j]).0 < names@.len()
                &&& iedges@[j].1 < names@.len()
                &&& texts(names@)[iedges@[j].0 as int] == e[j].0
                &&& texts(names@)[iedges@[j].1 as int] == e[j].1
            },
        decreases m - k,
    {
        let ghost before = names@;
        let a = node_index(&mut names, &edges[k].source);
        let b = node_index(&mut names, &edges[k].target);
        iedges.push((a, b));
        assert forall|j: int| 0 <= j < k + 1 implies {
            &&& (#[trigger] iedges@[j]).0 < names@.len()
            &&& iedges@[j].1 < names@.len()
            &&& texts(names@)[iedges@[j].0 as int] == e[j].0
            &&& texts(names@)[iedges@[j].1 as int] == e[j].1
        } by {
            if j < k {
                assert(iedges@[j].0 < before.len());
                assert(iedges@[j].1 < before.len());
            }
        }
        k = k + 1;
    }
    let n = names.len();
    let mut adj: Vec<Vec<usize>> = Vec::new();
    let mut u: usize = 0;
    while u < n
        invariant
            n == names@.len(),
            m == iedges@.len(),
            u <= n,
            adj@.len() == u,
            forall|j: int| 0 <= j < m ==> (#[trigger] iedges@[j]).0 < n && iedges@[j].1 < n,
            forall|a: int, x: int| 0 <= a < u ==> (iedge(lists(adj@), a, x) <==> listed(iedges@, a, x)),
            forall|a: int, t: int| 0 <= a < u && 0 <= t < adj@[a]@.len() ==> #[trigger] adj@[a]@[t] < n,
        decreases n - u,
    {
        let mut list: Vec<usize> = Vec::new();
        let mut j: usize = 0;
        while j < m
            invariant
                m == iedges@.len(),
                j <= m,
                forall|i: int| 0 <= i < m ==> (#[trigger] iedges@[i]).0 < n && iedges@[i].1 < n,
                forall|t: int| 0 <= t < list@.len() ==> #[trigger] list@[t] < n,
                forall|x: int| #[trigger] in_list(list@, x) <==> listed_upto(iedges@, j as int, u as int, x),
            decreases m - j,
        {
            let (a, b) = iedges[j];
            let ghost before = list@;
            if a == u {
                list.push(b);
            }
            assert forall|x: int| #[trigger] in_list(list@, x) <==> listed_upto(iedges@, j + 1, u as int, x) by {
                if listed_upto(iedges@, j + 1, u as int, x) {
                    let i = choose|i: int| 0 <= i < j + 1 && #[trigger] iedges@[i].0 as int == u && iedges@[i].1 as int == x;
                    if i < j {
                        assert(listed_upto(iedges@, j as int, u as int, x));
                        assert(in_list(before, x));
                        let t = choose|t: int| 0 <= t < before.len() && #[trigger] before[t] as int == x;
                        assert(list@[t] == before[t]);
                    } else {
                        assert(list@[list@.len() - 1] as int == x);
                    }
                }
                if in_list(list@, x) {
                    let t = choose|t: int| 0 <= t < list@.len() && #[trigger] list@[t] as int == x;
                    if t < before.len() {
                        assert(before[t] == list@[t]);
                        assert(in_list(before, x));
                    } else {
                        assert(iedges@[j as int].0 as int == u && iedges@[j as int].1 as int == x);
                    }
                }
            }
            j = j + 1;
        }
        let ghost before_adj = adj@;
        adj.push(list);
        assert forall|a: int, x: int| 0 <= a < u + 1 implies (iedge(lists(adj@), a, x) <==> listed(iedges@, a, x)) by {
            assert(lists(adj@)[a] == adj@[a]@);
            if a < u {
                assert(adj@[a] == before_adj[a]);
                assert(lists(before_adj)[a] == before_adj[a]@);
                assert(iedge(lists(before_adj), a, x) <==> listed(iedges@, a, x));
            } else {
                assert(adj@[a] == list);
                if listed(iedges@, a, x) {
                    let i = choose|i: int| 0 <= i < iedges@.len() && #[trigger] iedges@[i].0 as int == a && iedges@[i].1 as int == x;
                    assert(listed_upto(iedges@, m as int, u as int, x));
                    assert(in_list(list@, x));
                    let t = choose|t: int| 0 <= t < list@.len() && #[trigger] list@[t] as int == x;
                    assert(lists(adj@)[a][t] as int == x);
                }
                if iedge(lists(adj@), a, x) {
                    let t = choose|t: int| 0 <= t < lists(adj@)[a].len() && #[trigger] lists(adj@)[a][t] as int == x;
                    assert(list@[t] as int == x);
                    assert(in_list(list@, x));
                    assert(listed_upto(iedges@, m as int, u as int, x));
                }
            }
        }
        assert forall|a: int, t: int| 0 <= a < u + 1 && 0 <= t < adj@[a]@.len() implies #[trigger] adj@[a]@[t] < n by {
            if a < u {
                assert(adj@[a] == before_adj[a]);
            }
        }
        u = u + 1;
    }
    let ghost g = lists(adj@);
    let mut visiting: Vec<bool> = Vec::new();
    let mut visited: Vec<bool> = Vec::new();
    let mut i: usize = 0;
    while i < n
        invariant
            i <= n,
            visiting@.len() == i,
            visited@.len() == i,
            forall|v: int| 0 <= v < i ==> !(#[trigger] visiting@[v]) && !visited@[v],
        decreases n - i,
    {
        visiting.push(false);
        visited.push(false);
        i = i + 1;
    }
    let mut path: Vec<usize> = Vec::new();
    let ghost mut rank: Seq<int> = Seq::new(n as nat, |v: int| 0int);
    let ghost mut counter: int = 0;
    proof {
        assert(adj_closed(g)) by {
            assert forall|a: int, t: int| 0 <= a < g.len() && 0 <= t < g[a].len() implies #[trigger] g[a][t] < g.len() by {
                assert(g[a] == adj@[a]@);
            }
        }
        assert(path@ =~= Seq::<usize>::empty());
    }
    let mut node: usize = 0;
    while node < n
        invariant
            n == adj@.len(),
            g == lists(adj@),
            node <= n,
            path@ == Seq::<usize>::empty(),
            dfs_inv(g, visiting@, visited@, path@, rank, counter),
            forall|v: int| 0 <= v < node ==> #[trigger] finished(visiting@, visited@, v),
            n == names@.len(),
            distinct(texts(names@)),
            e == edge_pairs(edges@),
            m == iedges@.len(),
            m == e.len(),
            forall|j: int| 0 <= j < m ==> {
                &&& (#[trigger] iedges@[j]).0 < n
                &&& iedges@[j].1 < n
                &&& texts(names@)[iedges@[j].0 as int] == e[j].0
                &&& texts(names@)[iedges@[j].1 as int] == e[j].1
            },
            forall|a: int, x: int| 0 <= a < n ==> (iedge(g, a, x) <==> listed(iedges@, a, x)),
        decreases n - node,
    {
        let ghost pre_visited = visited@;
        let ghost pre_visiting = visiting@;
        let (r, Ghost(next)) = visit(&adj, node, &mut visiting, &mut visited, &mut path, Ghost(rank), Ghost(counter));
        match r {
            Some(c) => {
                let mut out: Vec<String> = Vec::new();
                let mut t: usize = 0;
                while t < c.len()
                    invariant
                        t <= c@.len(),
                        out@.len() == t,
                        n == names@.len(),
                        forall|x: int| 0 <= x < c@.len() ==> #[trigger] c@[x] < n,
                        forall|x: int| 0 <= x < t ==> #[trigger] out@[x]@ == names@[c@[x] as int]@,
                    decreases c@.len() - t,
                {
                    out.push(names[c[t]].clone());
                    t = t + 1;
                }
                proof {
                    let p = texts(out@);
                    assert forall|x: int| 0 <= x < p.len() - 1 implies has_edge(e, #[trigger] p[x], p[x + 1]) by {
                        assert(iedge(g, c@[x] as int, c@[x + 1] as int));
                        assert(listed(iedges@, c@[x] as int, c@[x + 1] as int));
                        let jj = choose|jj: int| 0 <= jj < iedges@.len() && #[trigger] iedges@[jj].0 as int == c@[x] as int && iedges@[jj].1 as int == c@[x + 1] as int;
                        assert(e[jj] == (p[x], p[x + 1]));
                    }
                    let jw = choose|jw: int| 0 <= jw < c@.len() - 1 && c@[jw] == c@.last();
                    assert(p[jw] == p.last());
                }
                return Some(out);
            },
            None => {
                proof {
                    rank = next.0;
                    counter = next.1;
                    assert forall|v: int| 0 <= v < node + 1 implies #[trigger] finished(visiting@, visited@, v) by {
                        if v < node {
                            assert(finished(pre_visiting, pre_visited, v));
                            assert(pre_visited[v]);
                        }
                    }
                }
            },
        }
        node = node + 1;
    }
    proof {
        if has_cycle(e) {
            let p = choose|p: Seq<Seq<char>>| p.len() >= 2 && p[0] == p.last() && #[trigger] is_walk(e, p);
            assert forall|x: int| #![trigger p[x]] 0 <= x < p.len() implies exists|a: int| 0 <= a < n && #[trigger] texts(names@)[a] == p[x] by {
                if x < p.len() - 1 {
                    assert(has_edge(e, p[x], p[x + 1]));
                    let jj = choose|jj: int| 0 <= jj < e.len() && e[jj] == (p[x], p[x + 1]);
                    assert(texts(names@)[iedges@[jj].0 as int] == p[x]);
                } else {
                    assert(has_edge(e, p[x - 1], p[x]));
                    let jj = choose|jj: int| 0 <= jj < e.len() && e[jj] == (p[x - 1], p[x]);
                    assert(texts(names@)[iedges@[jj].1 as int] == p[x]);
                }
            }
            let q = Seq::new(p.len(), |x: int| (choose|a: int| 0 <= a < n && #[trigger] texts(names@)[a] == p[x]) as usize);
            assert forall|x: int| 0 <= x < q.len() implies #[trigger] q[x] < n && texts(names@)[q[x] as int] == p[x] by {
                assert(p[x] == p[x]);
            }
            assert forall|x: int| 0 <= x < q.len() - 1 implies iedge(g, #[trigger] q[x] as int, q[x + 1] as int) by {
                assert(q[x] < n && texts(names@)[q[x] as int] == p[x]);
                assert(q[x + 1] < n && texts(names@)[q[x + 1] as int] == p[x + 1]);
                assert(has_edge(e, p[x], p[x + 1]));
                let jj = choose|jj: int| 0 <= jj < e.len() && e[jj] == (p[x], p[x + 1]);
                assert(iedges@[jj].0 == q[x]);
                assert(iedges@[jj].1 == q[x + 1]);
                assert(listed(iedges@, q[x] as int, q[x + 1] as int));
            }
            assert(q[0] == q[q.len() - 1]);
            lemma_ranks_fall(g, visiting@, visited@, path@, rank, counter, q, q.len() - 1);
        }
    }
    None
}

} // verus!
