use vstd::prelude::*;

pub use crate::text::extract_refs;
use crate::text::{references, same_text, strings_view};

verus! {

// ---------------------------------------------------------------------------
// Graphs over node indices
// ---------------------------------------------------------------------------

/// The adjacency lists of an index graph, as sequences.
pub open spec fn adj_view(adj: Seq<Vec<usize>>) -> Seq<Seq<usize>> {
    adj.map_values(|v: Vec<usize>| v@)
}

/// Every neighbour names a node of the graph.
pub open spec fn adj_wf(g: Seq<Seq<usize>>) -> bool {
    forall|u: int, k: int| 0 <= u < g.len() && 0 <= k < g[u].len() ==> #[trigger] g[u][k] < g.len()
}

/// `u -> v` is an edge of the index graph.
pub open spec fn idx_edge(g: Seq<Seq<usize>>, u: usize, v: usize) -> bool {
    u < g.len() && g[u as int].contains(v)
}

/// `p` is a closed walk of the index graph: consecutive nodes are joined by
/// edges, and so are the last node and the first.
pub open spec fn idx_cycle(g: Seq<Seq<usize>>, p: Seq<usize>) -> bool {
    &&& p.len() > 0
    &&& forall|k: int| 0 <= k < p.len() - 1 ==> idx_edge(g, #[trigger] p[k], p[k + 1])
    &&& idx_edge(g, p.last(), p[0])
}

/// Node `x` lies on a closed walk.
pub open spec fn on_cycle(g: Seq<Seq<usize>>, x: usize) -> bool {
    exists|p: Seq<usize>| idx_cycle(g, p) && #[trigger] p.contains(x)
}

/// The index graph has a closed walk.
pub open spec fn idx_has_cycle(g: Seq<Seq<usize>>) -> bool {
    exists|p: Seq<usize>| idx_cycle(g, p)
}

/// `p` is a walk of the index graph: consecutive nodes are joined by edges.
pub open spec fn is_walk(g: Seq<Seq<usize>>, p: Seq<usize>) -> bool {
    &&& p.len() > 0
    &&& forall|k: int| 0 <= k < p.len() - 1 ==> idx_edge(g, #[trigger] p[k], p[k + 1])
}

/// `v` can be reached from `u` by following edges (`u` itself included).
pub open spec fn reachable(g: Seq<Seq<usize>>, u: usize, v: usize) -> bool {
    exists|p: Seq<usize>| #![trigger is_walk(g, p)] is_walk(g, p) && p[0] == u && p.last() == v
}

/// A node on a cycle can be reached from `u`.
pub open spec fn cycle_reachable(g: Seq<Seq<usize>>, u: usize) -> bool {
    exists|v: usize| #[trigger] reachable(g, u, v) && on_cycle(g, v)
}

/// Every node reaches itself.
proof fn lemma_reach_refl(g: Seq<Seq<usize>>, u: usize)
    ensures
        reachable(g, u, u),
{
    let p = seq![u];
    assert(is_walk(g, p));
}

/// A walk can start with one more edge.
proof fn lemma_reach_prepend(g: Seq<Seq<usize>>, u: usize, v: usize, w: usize)
    requires
        idx_edge(g, u, v),
        reachable(g, v, w),
    ensures
        reachable(g, u, w),
{
    let p = choose|p: Seq<usize>| #![trigger is_walk(g, p)] is_walk(g, p) && p[0] == v && p.last() == w;
    let q = seq![u] + p;
    assert forall|k: int| 0 <= k < q.len() - 1 implies idx_edge(g, #[trigger] q[k], q[k + 1]) by {
        if k > 0 {
            assert(q[k] == p[k - 1] && q[k + 1] == p[k]);
        }
    }
    assert(is_walk(g, q));
    assert(q.last() == p.last());
}

/// A cycle reachable from a successor is reachable from `u`.
proof fn lemma_cycle_reach_prepend(g: Seq<Seq<usize>>, u: usize, v: usize)
    requires
        idx_edge(g, u, v),
        cycle_reachable(g, v),
    ensures
        cycle_reachable(g, u),
{
    let w = choose|w: usize| #[trigger] reachable(g, v, w) && on_cycle(g, w);
    lemma_reach_prepend(g, u, v, w);
}

/// Number of nodes not yet visited.
pub open spec fn unvisited(s: Seq<bool>) -> nat
    decreases s.len(),
{
    if s.len() == 0 {
        0
    } else {
        unvisited(s.drop_last()) + if s.last() {
            0nat
        } else {
            1nat
        }
    }
}

proof fn lemma_unvisited_mark(s: Seq<bool>, i: int)
    requires
        0 <= i < s.len(),
        !s[i],
    ensures
        unvisited(s.update(i, true)) + 1 == unvisited(s),
    decreases s.len(),
{
    let t = s.update(i, true);
    if i < s.len() - 1 {
        assert(t.drop_last() =~= s.drop_last().update(i, true));
        lemma_unvisited_mark(s.drop_last(), i);
    } else {
        assert(t.drop_last() =~= s.drop_last());
    }
}

proof fn lemma_unvisited_mono(a: Seq<bool>, b: Seq<bool>)
    requires
        a.len() == b.len(),
        forall|i: int| 0 <= i < a.len() && #[trigger] a[i] ==> b[i],
    ensures
        unvisited(b) <= unvisited(a),
    decreases a.len(),
{
    if a.len() > 0 {
        lemma_unvisited_mono(a.drop_last(), b.drop_last());
    }
}

/// The state the depth-first search keeps between calls: `path` is the chain
/// of nodes currently being explored (the nodes marked `on_stack`), each one
/// joined to the next by an edge; every node on it is visited; and no node
/// whose exploration has finished (visited, off the stack) lies on a cycle.
pub open spec fn search_state(
    g: Seq<Seq<usize>>,
    visited: Seq<bool>,
    on_stack: Seq<bool>,
    path: Seq<usize>,
) -> bool {
    &&& visited.len() == g.len()
    &&& on_stack.len() == g.len()
    &&& path.no_duplicates()
    &&& forall|k: int| 0 <= k < path.len() ==> #[trigger] path[k] < g.len()
    &&& forall|i: int| 0 <= i < g.len() ==> (#[trigger] on_stack[i] <==> path.contains(i as usize))
    &&& forall|i: int| 0 <= i < g.len() && #[trigger] on_stack[i] ==> visited[i]
    &&& forall|k: int| 0 <= k < path.len() - 1 ==> idx_edge(g, #[trigger] path[k], path[k + 1])
    &&& forall|i: int|
        0 <= i < g.len() && #[trigger] visited[i] && !on_stack[i] ==> !on_cycle(g, i as usize)
    &&& forall|i: int, k: int|
        0 <= i < g.len() && visited[i] && !on_stack[i] && 0 <= k < g[i].len() ==> visited[#[trigger] g[i][k] as int]
            && !on_stack[g[i][k] as int]
}

/// From a finished node only finished nodes are reachable, so no cycle is.
proof fn lemma_finished_closed(g: Seq<Seq<usize>>, visited: Seq<bool>, on_stack: Seq<bool>, path: Seq<usize>, u: usize)
    requires
        adj_wf(g),
        search_state(g, visited, on_stack, path),
        u < g.len(),
        visited[u as int] && !on_stack[u as int],
    ensures
        forall|w: usize| #[trigger] reachable(g, u, w) ==> w < g.len() && visited[w as int] && !on_stack[w as int],
        !cycle_reachable(g, u),
{
    assert forall|w: usize| #[trigger] reachable(g, u, w) implies w < g.len() && visited[w as int] && !on_stack[w as int] by {
        let p = choose|p: Seq<usize>| #![trigger is_walk(g, p)] is_walk(g, p) && p[0] == u && p.last() == w;
        lemma_walk_finished(g, visited, on_stack, path, p, p.len() - 1);
    }
    if cycle_reachable(g, u) {
        let w = choose|w: usize| #[trigger] reachable(g, u, w) && on_cycle(g, w);
        assert(visited[w as int] && !on_stack[w as int]);
    }
}

proof fn lemma_walk_finished(g: Seq<Seq<usize>>, visited: Seq<bool>, on_stack: Seq<bool>, path: Seq<usize>, p: Seq<usize>, j: int)
    requires
        adj_wf(g),
        search_state(g, visited, on_stack, path),
        is_walk(g, p),
        0 <= j < p.len(),
        p[0] < g.len(),
        visited[p[0] as int] && !on_stack[p[0] as int],
    ensures
        p[j] < g.len() && visited[p[j] as int] && !on_stack[p[j] as int],
    decreases j,
{
    if j > 0 {
        lemma_walk_finished(g, visited, on_stack, path, p, j - 1);
        let a = p[j - 1];
        assert(idx_edge(g, p[j - 1], p[j]));
        let k = choose|k: int| 0 <= k < g[a as int].len() && g[a as int][k] == p[j];
        assert(visited[g[a as int][k] as int] && !on_stack[g[a as int][k] as int]);
    }
}

/// A node whose successors have all finished lies on no cycle.
proof fn lemma_finished_not_on_cycle(g: Seq<Seq<usize>>, visited: Seq<bool>, on_stack: Seq<bool>, x: usize)
    requires
        x < g.len(),
        visited.len() == g.len(),
        on_stack.len() == g.len(),
        forall|k: int|
            0 <= k < g[x as int].len() ==> visited[#[trigger] g[x as int][k] as int] && !on_stack[g[x as int][k] as int],
        forall|i: int|
            0 <= i < g.len() && #[trigger] visited[i] && !on_stack[i] ==> !on_cycle(g, i as usize),
        adj_wf(g),
    ensures
        !on_cycle(g, x),
{
    if on_cycle(g, x) {
        let p = choose|p: Seq<usize>| idx_cycle(g, p) && #[trigger] p.contains(x);
        let t = choose|t: int| 0 <= t < p.len() && p[t] == x;
        let s = if t < p.len() - 1 {
            p[t + 1]
        } else {
            p[0]
        };
        assert(idx_edge(g, x, s));
        let k = choose|k: int| 0 <= k < g[x as int].len() && g[x as int][k] == s;
        assert(visited[g[x as int][k] as int] && !on_stack[g[x as int][k] as int]);
        assert(p.contains(s));
        assert(on_cycle(g, s));
    }
}

/// A node met again while still on the path closes a cycle.
proof fn lemma_back_edge_cycle(g: Seq<Seq<usize>>, path: Seq<usize>, node: usize)
    requires
        path.contains(node),
        forall|k: int| 0 <= k < path.len() - 1 ==> idx_edge(g, #[trigger] path[k], path[k + 1]),
        idx_edge(g, path.last(), node),
    ensures
        idx_has_cycle(g),
        on_cycle(g, node),
{
    let j = choose|j: int| 0 <= j < path.len() && path[j] == node;
    let c = path.subrange(j, path.len() as int);
    assert(c[0] == node);
    assert(c.last() == path.last());
    assert forall|k: int| 0 <= k < c.len() - 1 implies idx_edge(g, #[trigger] c[k], c[k + 1]) by {
        assert(c[k] == path[j + k]);
        assert(c[k + 1] == path[j + k + 1]);
    }
    assert(idx_cycle(g, c));
    assert(c.contains(node));
}

/// Entering a fresh node extends the path by it.
proof fn lemma_enter(
    g: Seq<Seq<usize>>,
    v0: Seq<bool>,
    s0: Seq<bool>,
    path: Seq<usize>,
    node: usize,
)
    requires
        search_state(g, v0, s0, path),
        adj_wf(g),
        node < g.len(),
        g.len() <= usize::MAX,
        !v0[node as int],
        path.len() > 0 ==> idx_edge(g, path.last(), node),
    ensures
        search_state(g, v0.update(node as int, true), s0.update(node as int, true), path.push(node)),
{
    let v1 = v0.update(node as int, true);
    let s1 = s0.update(node as int, true);
    let path2 = path.push(node);
    assert(!s0[node as int]);
    assert(!path.contains(node));
    assert forall|i: int| 0 <= i < g.len() implies (#[trigger] s1[i] <==> path2.contains(i as usize)) by {
        if i == node {
            assert(path2[path.len() as int] == node);
        } else {
            if path2.contains(i as usize) {
                let k = choose|k: int| 0 <= k < path2.len() && path2[k] == i as usize;
                assert(path2[path.len() as int] == node);
                assert(k < path.len());
                assert(path[k] == i as usize);
            }
            if path.contains(i as usize) {
                let k = choose|k: int| 0 <= k < path.len() && path[k] == i as usize;
                assert(path2[k] == i as usize);
            }
        }
    }
    assert forall|k: int| 0 <= k < path2.len() - 1 implies idx_edge(g, #[trigger] path2[k], path2[k + 1]) by {
        if k < path.len() - 1 {
            assert(path2[k] == path[k] && path2[k + 1] == path[k + 1]);
        }
    }
    assert forall|k: int| 0 <= k < path2.len() implies #[trigger] path2[k] < g.len() by {
        if k < path.len() {
            assert(path2[k] == path[k]);
        }
    }
    assert(path2.no_duplicates());
    assert forall|i: int| 0 <= i < g.len() && #[trigger] v1[i] && !s1[i] implies !on_cycle(g, i as usize) by {
        assert(i != node);
        assert(v0[i] && !s0[i]);
    }
    assert forall|i: int, k: int|
        0 <= i < g.len() && v1[i] && !s1[i] && 0 <= k < g[i].len() implies v1[#[trigger] g[i][k] as int]
            && !s1[g[i][k] as int] by {
        assert(i != node);
        assert(v0[i] && !s0[i]);
        let j = g[i][k];
        assert(j < g.len());
        assert(v0[j as int] && !s0[j as int]);
        assert(j != node);
    }
}

/// Leaving a node whose successors have all finished restores the path.
proof fn lemma_leave(
    g: Seq<Seq<usize>>,
    v: Seq<bool>,
    s0: Seq<bool>,
    path: Seq<usize>,
    node: usize,
)
    requires
        adj_wf(g),
        node < g.len(),
        search_state(g, v, s0.update(node as int, true), path.push(node)),
        s0.len() == g.len(),
        !s0[node as int],
        forall|i: int| 0 <= i < g.len() ==> (#[trigger] s0[i] <==> path.contains(i as usize)),
        forall|k: int|
            0 <= k < g[node as int].len() ==> v[#[trigger] g[node as int][k] as int] && !s0.update(node as int, true)[g[node as int][k] as int],
    ensures
        search_state(g, v, s0, path),
        v[node as int],
{
    let s1 = s0.update(node as int, true);
    let path2 = path.push(node);
    assert(path2[path.len() as int] == node);
    assert(path2.contains(node));
    assert(s1[node as int]);
    lemma_finished_not_on_cycle(g, v, s1, node);
    assert forall|k: int| 0 <= k < path.len() - 1 implies idx_edge(g, #[trigger] path[k], path[k + 1]) by {
        assert(path2[k] == path[k] && path2[k + 1] == path[k + 1]);
    }
    assert forall|k: int| 0 <= k < path.len() implies #[trigger] path[k] < g.len() by {
        assert(path2[k] == path[k]);
    }
    assert forall|a: int, b: int| 0 <= a < path.len() && 0 <= b < path.len() && a != b implies path[a] != path[b] by {
        assert(path2[a] == path[a] && path2[b] == path[b]);
    }
    assert forall|i: int| 0 <= i < g.len() && #[trigger] s0[i] implies v[i] by {
        assert(s1[i]);
    }
    assert forall|i: int| 0 <= i < g.len() && #[trigger] v[i] && !s0[i] implies !on_cycle(g, i as usize) by {
        if i != node {
            assert(!s1[i]);
        }
    }
    assert forall|i: int, k: int|
        0 <= i < g.len() && v[i] && !s0[i] && 0 <= k < g[i].len() implies v[#[trigger] g[i][k] as int]
            && !s0[g[i][k] as int] by {
        if i != node {
            assert(!s1[i]);
            assert(v[g[i][k] as int] && !s1[g[i][k] as int]);
        } else {
            assert(v[g[node as int][k] as int] && !s1[g[node as int][k] as int]);
        }
    }
}

/// Depth-first search from `node`. Returns `true` as soon as it meets a node
/// that is still being explored, which closes a cycle; otherwise it finishes
/// `node` and everything reachable from it and returns `false`. The result is
/// whether a cycle can be reached from `node`; the nodes it newly visits are
/// reachable from `node`; a node already finished is left as it is.
pub fn dfs(
    node: usize,
    adj: &Vec<Vec<usize>>,
    visited: &mut Vec<bool>,
    on_stack: &mut Vec<bool>,
    Ghost(path): Ghost<Seq<usize>>,
) -> (found: bool)
    requires
        adj_wf(adj_view(adj@)),
        node < adj.len(),
        search_state(adj_view(adj@), old(visited)@, old(on_stack)@, path),
        path.len() > 0 ==> idx_edge(adj_view(adj@), path.last(), node),
    ensures
        final(visited)@.len() == adj.len(),
        final(on_stack)@.len() == adj.len(),
        found == cycle_reachable(adj_view(adj@), node),
        final(visited)@[node as int],
        forall|i: int| 0 <= i < adj.len() && #[trigger] old(visited)@[i] ==> final(visited)@[i],
        forall|i: int|
            0 <= i < adj.len() && #[trigger] final(visited)@[i] && !old(visited)@[i] ==> reachable(
                adj_view(adj@),
                node,
                i as usize,
            ),
        forall|i: int| 0 <= i < adj.len() && #[trigger] final(on_stack)@[i] ==> final(visited)@[i],
        old(visited)@[node as int] ==> {
            &&& found == old(on_stack)@[node as int]
            &&& final(visited)@ == old(visited)@
            &&& final(on_stack)@ == old(on_stack)@
        },
        !found ==> {
            &&& search_state(adj_view(adj@), final(visited)@, final(on_stack)@, path)
            &&& final(on_stack)@ == old(on_stack)@
            &&& !final(on_stack)@[node as int]
            &&& forall|i: int|
                0 <= i < adj.len() && reachable(adj_view(adj@), node, i as usize) ==> #[trigger] final(visited)@[i]
        },
    decreases unvisited(old(visited)@),
{
    let ghost g = adj_view(adj@);
    if on_stack[node] {
        proof {
            lemma_back_edge_cycle(g, path, node);
            lemma_reach_refl(g, node);
        }
        return true;
    }
    if visited[node] {
        proof {
            lemma_finished_closed(g, visited@, on_stack@, path, node);
        }
        return false;
    }
    let ghost v0 = visited@;
    let ghost s0 = on_stack@;
    proof {
        lemma_unvisited_mark(v0, node as int);
        lemma_enter(g, v0, s0, path, node);
    }
    visited.set(node, true);
    on_stack.set(node, true);
    let ghost v1 = visited@;
    let ghost s1 = on_stack@;
    let ghost path2 = path.push(node);
    proof {
        lemma_reach_refl(g, node);
        assert forall|i: int| 0 <= i < adj.len() && #[trigger] visited@[i] && !v0[i] implies reachable(g, node, i as usize) by {
            assert(i == node);
        }
    }
    let nbrs = &adj[node];
    let mut k: usize = 0;
    while k < nbrs.len()
        invariant
            g == adj_view(adj@),
            adj_wf(g),
            node < adj.len(),
            nbrs@ == g[node as int],
            k <= nbrs.len(),
            path2 == path.push(node),
            v0 == old(visited)@,
            search_state(g, v0, s0, path),
            search_state(g, visited@, on_stack@, path2),
            on_stack@ == s1,
            s1 == s0.update(node as int, true),
            visited@[node as int],
            forall|i: int| 0 <= i < adj.len() && #[trigger] v1[i] ==> visited@[i],
            forall|m: int| 0 <= m < k ==> visited@[#[trigger] nbrs@[m] as int] && !on_stack@[nbrs@[m] as int],
            forall|i: int|
                0 <= i < adj.len() && #[trigger] visited@[i] && !v0[i] ==> reachable(g, node, i as usize),
            forall|i: int| 0 <= i < adj.len() && #[trigger] v0[i] ==> v1[i],
            !v0[node as int],
            unvisited(v1) < unvisited(v0),
            v1.len() == adj.len(),
        decreases nbrs.len() - k,
    {
        let next = nbrs[k];
        proof {
            assert(g[node as int][k as int] == next);
            assert(next < adj.len());
            assert(path2[path.len() as int] == node);
            lemma_unvisited_mono(v1, visited@);
        }
        let ghost vb = visited@;
        let found_next = dfs(next, adj, visited, on_stack, Ghost(path2));
        proof {
            assert(idx_edge(g, node, next));
            assert forall|i: int| 0 <= i < adj.len() && #[trigger] visited@[i] && !v0[i] implies reachable(g, node, i as usize) by {
                if !vb[i] {
                    lemma_reach_prepend(g, node, next, i as usize);
                }
            }
            assert forall|i: int| 0 <= i < adj.len() && #[trigger] v0[i] implies visited@[i] by {
                assert(v1[i]);
                assert(vb[i]);
            }
            assert(vb[node as int]);
        }
        if found_next {
            proof {
                lemma_cycle_reach_prepend(g, node, next);
            }
            return true;
        }
        proof {
            assert forall|m: int| 0 <= m < k + 1 implies visited@[#[trigger] nbrs@[m] as int] && !on_stack@[nbrs@[m] as int] by {
                if m < k {
                    assert(nbrs@[m] < adj.len());
                    assert(vb[nbrs@[m] as int]);
                }
            }
            assert forall|i: int| 0 <= i < adj.len() && #[trigger] v1[i] implies visited@[i] by {
                assert(vb[i]);
            }
        }
        k = k + 1;
    }
    proof {
        assert(s0.len() == g.len());
        lemma_leave(g, visited@, s0, path, node);
    }
    on_stack.set(node, false);
    proof {
        assert(on_stack@ =~= s0);
        assert forall|i: int| 0 <= i < adj.len() && #[trigger] v0[i] implies visited@[i] by {
            assert(v1[i]);
        }
        lemma_finished_closed(g, visited@, on_stack@, path, node);
        assert forall|i: int| 0 <= i < adj.len() && #[trigger] on_stack@[i] implies visited@[i] by {
            assert(s0[i]);
        }
    }
    false
}

/// Whether the index graph has a cycle: a depth-first search is started from
/// every node in turn.
pub fn has_cycle_indexed(adj: &Vec<Vec<usize>>) -> (r: bool)
    requires
        adj_wf(adj_view(adj@)),
    ensures
        r == idx_has_cycle(adj_view(adj@)),
{
    let ghost g = adj_view(adj@);
    let n = adj.len();
    let mut visited: Vec<bool> = vec![false; n];
    let mut on_stack: Vec<bool> = vec![false; n];
    let mut i: usize = 0;
    while i < n
        invariant
            g == adj_view(adj@),
            adj_wf(g),
            n == adj.len(),
            i <= n,
            search_state(g, visited@, on_stack@, Seq::<usize>::empty()),
            forall|j: int| 0 <= j < n ==> !(#[trigger] on_stack@[j]),
            forall|j: int| 0 <= j < i ==> #[trigger] visited@[j],
        decreases n - i,
    {
        let ghost vb = visited@;
        if dfs(i, adj, &mut visited, &mut on_stack, Ghost(Seq::<usize>::empty())) {
            return true;
        }
        proof {
            assert forall|j: int| 0 <= j < i + 1 implies #[trigger] visited@[j] by {
                if j < i {
                    assert(vb[j]);
                }
            }
        }
        i = i + 1;
    }
    proof {
        if idx_has_cycle(g) {
            let p = choose|p: Seq<usize>| idx_cycle(g, p);
            let x = p[0];
            assert(idx_edge(g, p.last(), x));
            let k = choose|k: int| 0 <= k < g[p.last() as int].len() && g[p.last() as int][k] == x;
            assert(x < n);
            assert(visited@[x as int]);
            assert(p.contains(x));
            assert(on_cycle(g, x));
        }
    }
    false
}

// ---------------------------------------------------------------------------
// Graphs over names
// ---------------------------------------------------------------------------

/// `u -> v` is an edge: `u` is a node with `v` among its references.
pub open spec fn edge(g: Map<Seq<char>, Seq<Seq<char>>>, u: Seq<char>, v: Seq<char>) -> bool {
    g.dom().contains(u) && g[u].contains(v)
}

/// `p` is a closed walk of the dependency graph.
pub open spec fn is_cycle(g: Map<Seq<char>, Seq<Seq<char>>>, p: Seq<Seq<char>>) -> bool {
    &&& p.len() > 0
    &&& forall|k: int| 0 <= k < p.len() - 1 ==> edge(g, #[trigger] p[k], p[k + 1])
    &&& edge(g, p.last(), p[0])
}

/// The dependency graph has a cycle.
pub open spec fn has_cycle(g: Map<Seq<char>, Seq<Seq<char>>>) -> bool {
    exists|p: Seq<Seq<char>>| is_cycle(g, p)
}

/// Where `k` stands among `keys`.
pub open spec fn key_index(keys: Seq<Seq<char>>, k: Seq<char>) -> int {
    choose|i: int| 0 <= i < keys.len() && keys[i] == k
}

/// The map with the given keys and, at each, the value at the same position.
pub open spec fn assoc_map(keys: Seq<Seq<char>>, vals: Seq<Seq<Seq<char>>>) -> Map<
    Seq<char>,
    Seq<Seq<char>>,
> {
    Map::new(|k: Seq<char>| keys.contains(k), |k: Seq<char>| vals[key_index(keys, k)])
}

/// The names of a list of entries.
pub open spec fn entry_keys(e: Seq<(String, Vec<String>)>) -> Seq<Seq<char>> {
    e.map_values(|p: (String, Vec<String>)| p.0@)
}

/// The reference lists of a list of entries.
pub open spec fn entry_values(e: Seq<(String, Vec<String>)>) -> Seq<Seq<Seq<char>>> {
    e.map_values(|p: (String, Vec<String>)| strings_view(p.1@))
}

proof fn lemma_key_index(keys: Seq<Seq<char>>, i: int)
    requires
        keys.no_duplicates(),
        0 <= i < keys.len(),
    ensures
        key_index(keys, keys[i]) == i,
{
    assert(keys.contains(keys[i]));
    let j = key_index(keys, keys[i]);
    assert(0 <= j < keys.len() && keys[j] == keys[i]);
}

proof fn lemma_assoc_at(keys: Seq<Seq<char>>, vals: Seq<Seq<Seq<char>>>, i: int)
    requires
        keys.no_duplicates(),
        0 <= i < keys.len(),
    ensures
        assoc_map(keys, vals).dom().contains(keys[i]),
        assoc_map(keys, vals)[keys[i]] == vals[i],
{
    lemma_key_index(keys, i);
    assert(keys.contains(keys[i]));
}

/// Position of the entry named `key`, if any.
fn find_name(entries: &Vec<(String, Vec<String>)>, key: &String) -> (r: Option<usize>)
    ensures
        r matches Some(i) ==> i < entries@.len() && entry_keys(entries@)[i as int] == key@,
        r is None ==> !entry_keys(entries@).contains(key@),
{
    let n = entries.len();
    let mut i: usize = 0;
    while i < n
        invariant
            n == entries@.len(),
            i <= n,
            forall|j: int| 0 <= j < i ==> entry_keys(entries@)[j] != key@,
        decreases n - i,
    {
        if entries[i].0 == *key {
            return Some(i);
        }
        i = i + 1;
    }
    None
}

/// The index graph of a list of entries: node `i` is entry `i`, with an edge
/// `i -> j` for each reference of entry `i` that names entry `j`.
fn index_graph(entries: &Vec<(String, Vec<String>)>) -> (adj: Vec<Vec<usize>>)
    requires
        entry_keys(entries@).no_duplicates(),
    ensures
        adj.len() == entries.len(),
        adj_wf(adj_view(adj@)),
        forall|i: int, v: usize|
            0 <= i < adj.len() ==> (#[trigger] adj@[i]@.contains(v) <==> (v < entries.len()
                && entry_values(entries@)[i].contains(entry_keys(entries@)[v as int]))),
{
    let ghost keys = entry_keys(entries@);
    let ghost vals = entry_values(entries@);
    let n = entries.len();
    let mut adj: Vec<Vec<usize>> = Vec::new();
    let mut i: usize = 0;
    while i < n
        invariant
            n == entries.len(),
            keys == entry_keys(entries@),
            vals == entry_values(entries@),
            keys.no_duplicates(),
            i <= n,
            adj.len() == i,
            forall|u: int, k: int| 0 <= u < i && 0 <= k < adj@[u]@.len() ==> #[trigger] adj@[u]@[k] < n,
            forall|u: int, v: usize|
                0 <= u < i ==> (#[trigger] adj@[u]@.contains(v) <==> (v < n && vals[u].contains(keys[v as int]))),
        decreases n - i,
    {
        let names = &entries[i].1;
        let ghost ns = strings_view(names@);
        assert(ns == vals[i as int]);
        let mut nb: Vec<usize> = Vec::new();
        let mut m: usize = 0;
        while m < names.len()
            invariant
                n == entries.len(),
                keys == entry_keys(entries@),
                keys.no_duplicates(),
                ns == strings_view(names@),
                m <= names.len(),
                forall|k: int| 0 <= k < nb@.len() ==> #[trigger] nb@[k] < n,
                forall|v: usize| #[trigger] nb@.contains(v) <==> (v < n && ns.take(m as int).contains(keys[v as int])),
            decreases names.len() - m,
        {
            let ghost before = nb@;
            match find_name(entries, &names[m]) {
                Some(j) => {
                    nb.push(j);
                    proof {
                        assert forall|v: usize| #[trigger] nb@.contains(v) <==> (v < n && ns.take(m + 1).contains(keys[v as int])) by {
                            assert(ns.take(m + 1) =~= ns.take(m as int).push(ns[m as int]));
                            if nb@.contains(v) {
                                let k = choose|k: int| 0 <= k < nb@.len() && nb@[k] == v;
                                if k < before.len() {
                                    assert(before[k] == v);
                                    assert(before.contains(v));
                                } else {
                                    assert(ns.take(m + 1)[m as int] == keys[v as int]);
                                }
                            }
                            if v < n && ns.take(m + 1).contains(keys[v as int]) {
                                let k = choose|k: int| 0 <= k < m + 1 && #[trigger] ns.take(m + 1)[k] == keys[v as int];
                                if k < m {
                                    assert(ns.take(m as int)[k] == keys[v as int]);
                                    assert(before.contains(v));
                                    let kk = choose|kk: int| 0 <= kk < before.len() && before[kk] == v;
                                    assert(nb@[kk] == v);
                                } else {
                                    assert(keys[j as int] == keys[v as int]);
                                    assert(nb@[before.len() as int] == j);
                                }
                            }
                        }
                        assert forall|k: int| 0 <= k < nb@.len() implies #[trigger] nb@[k] < n by {
                            if k < before.len() {
                                assert(before[k] < n);
                            }
                        }
                    }
                },
                None => {
                    proof {
                        assert forall|v: usize| #[trigger] nb@.contains(v) <==> (v < n && ns.take(m + 1).contains(keys[v as int])) by {
                            assert(ns.take(m + 1) =~= ns.take(m as int).push(ns[m as int]));
                            if v < n && ns.take(m + 1).contains(keys[v as int]) {
                                let k = choose|k: int| 0 <= k < m + 1 && #[trigger] ns.take(m + 1)[k] == keys[v as int];
                                if k == m {
                                    assert(keys.contains(ns[m as int]));
                                } else {
                                    assert(ns.take(m as int)[k] == keys[v as int]);
                                }
                            }
                        }
                    }
                },
            }
            m = m + 1;
        }
        proof {
            assert(ns.take(names.len() as int) =~= ns);
        }
        let ghost prev = adj@;
        adj.push(nb);
        proof {
            assert forall|u: int, v: usize| 0 <= u < i + 1 implies (#[trigger] adj@[u]@.contains(v) <==> (v < n && vals[u].contains(keys[v as int]))) by {
                if u < i {
                    assert(adj@[u] == prev[u]);
                }
            }
            assert forall|u: int, k: int| 0 <= u < i + 1 && 0 <= k < adj@[u]@.len() implies #[trigger] adj@[u]@[k] < n by {
                if u < i {
                    assert(adj@[u] == prev[u]);
                }
            }
        }
        i = i + 1;
    }
    proof {
        let g = adj_view(adj@);
        assert forall|u: int, k: int| 0 <= u < g.len() && 0 <= k < g[u].len() implies #[trigger] g[u][k] < g.len() by {
            assert(g[u] == adj@[u]@);
        }
    }
    adj
}

/// Cycles of the index graph are cycles of the named graph, and back.
proof fn lemma_cycles_agree(keys: Seq<Seq<char>>, vals: Seq<Seq<Seq<char>>>, g: Seq<Seq<usize>>)
    requires
        keys.no_duplicates(),
        keys.len() == vals.len(),
        g.len() == keys.len(),
        g.len() <= usize::MAX,
        forall|i: int, v: usize|
            0 <= i < g.len() ==> (#[trigger] g[i].contains(v) <==> (v < keys.len() && vals[i].contains(keys[v as int]))),
    ensures
        idx_has_cycle(g) == has_cycle(assoc_map(keys, vals)),
{
    let m = assoc_map(keys, vals);
    if idx_has_cycle(g) {
        let p = choose|p: Seq<usize>| idx_cycle(g, p);
        let q = p.map_values(|x: usize| keys[x as int]);
        assert forall|k: int| 0 <= k < q.len() - 1 implies edge(m, #[trigger] q[k], q[k + 1]) by {
            assert(idx_edge(g, p[k], p[k + 1]));
            lemma_assoc_at(keys, vals, p[k] as int);
        }
        assert(idx_edge(g, p.last(), p[0]));
        lemma_assoc_at(keys, vals, p.last() as int);
        assert(is_cycle(m, q));
    }
    if has_cycle(m) {
        let q = choose|q: Seq<Seq<char>>| is_cycle(m, q);
        assert forall|k: int| 0 <= k < q.len() implies keys.contains(#[trigger] q[k]) by {
            if k < q.len() - 1 {
                assert(edge(m, q[k], q[k + 1]));
            } else {
                assert(edge(m, q.last(), q[0]));
            }
        }
        let p = Seq::new(q.len(), |k: int| key_index(keys, q[k]) as usize);
        assert forall|k: int| 0 <= k < q.len() implies keys[#[trigger] p[k] as int] == q[k] && p[k] < keys.len() by {
            assert(keys.contains(q[k]));
        }
        assert forall|k: int| 0 <= k < p.len() - 1 implies idx_edge(g, #[trigger] p[k], p[k + 1]) by {
            assert(edge(m, q[k], q[k + 1]));
            lemma_assoc_at(keys, vals, p[k] as int);
            assert(keys[p[k + 1] as int] == q[k + 1]);
        }
        assert(edge(m, q.last(), q[0]));
        lemma_assoc_at(keys, vals, p.last() as int);
        assert(keys[p[0] as int] == q[0]);
        assert(idx_cycle(g, p));
    }
}

/// Whether the dependency graph has a cycle, by depth-first search from each
/// node in turn.
pub fn detect_cycle(edges: &EdgeMap) -> (r: bool)
    ensures
        r == has_cycle(edges@),
{
    let entries = edges.entries();
    let adj = index_graph(entries);
    proof {
        let g = adj_view(adj@);
        assert forall|i: int, v: usize| 0 <= i < g.len() implies (#[trigger] g[i].contains(v) <==> (v < entries.len()
            && entry_values(entries@)[i].contains(entry_keys(entries@)[v as int]))) by {
            assert(g[i] == adj@[i]@);
        }
        lemma_cycles_agree(entry_keys(entries@), entry_values(entries@), g);
    }
    has_cycle_indexed(&adj)
}

/// A map from node names to their reference lists, kept as entries in the
/// order in which their names were first inserted; no name occurs twice.
#[derive(Debug)]
pub struct EdgeMap {
    entries: Vec<(String, Vec<String>)>,
}

impl EdgeMap {
    /// The entries, in order.
    pub closed spec fn entry_seq(self) -> Seq<(String, Vec<String>)> {
        self.entries@
    }

    #[verifier::type_invariant]
    closed spec fn distinct_names(self) -> bool {
        entry_keys(self.entries@).no_duplicates()
    }
}

impl View for EdgeMap {
    type V = Map<Seq<char>, Seq<Seq<char>>>;

    open spec fn view(&self) -> Map<Seq<char>, Seq<Seq<char>>> {
        assoc_map(entry_keys(self.entry_seq()), entry_values(self.entry_seq()))
    }
}

impl EdgeMap {
    /// An empty map.
    pub fn new() -> (m: EdgeMap)
        ensures
            m@ == Map::<Seq<char>, Seq<Seq<char>>>::empty(),
            m.entry_seq().len() == 0,
    {
        let m = EdgeMap { entries: Vec::new() };
        assert(m@ =~= Map::<Seq<char>, Seq<Seq<char>>>::empty());
        m
    }

    /// Number of nodes.
    pub fn len(&self) -> (n: usize)
        ensures
            n == self@.dom().len(),
            n == self.entry_seq().len(),
    {
        proof {
            use_type_invariant(self);
            let keys = entry_keys(self.entries@);
            keys.unique_seq_to_set();
            assert(self@.dom() =~= keys.to_set());
        }
        self.entries.len()
    }

    /// The entries, in order.
    pub fn entries(&self) -> (r: &Vec<(String, Vec<String>)>)
        ensures
            r@ == self.entry_seq(),
            entry_keys(r@).no_duplicates(),
    {
        proof {
            use_type_invariant(self);
        }
        &self.entries
    }

    /// Whether `key` names a node.
    pub fn contains_key(&self, key: &str) -> (r: bool)
        ensures
            r == self@.dom().contains(key@),
    {
        let k = key.to_owned();
        find_name(&self.entries, &k).is_some()
    }

    /// The references of the node named `key`.
    pub fn get(&self, key: &str) -> (r: Option<&Vec<String>>)
        ensures
            r is None <==> !self@.dom().contains(key@),
            r matches Some(v) ==> self@[key@] == strings_view(v@),
    {
        proof {
            use_type_invariant(self);
        }
        let k = key.to_owned();
        match find_name(&self.entries, &k) {
            Some(i) => {
                proof {
                    lemma_assoc_at(entry_keys(self.entries@), entry_values(self.entries@), i as int);
                }
                Some(&self.entries[i].1)
            },
            None => None,
        }
    }

    /// Sets the references of `key`, replacing those it had; a new name is
    /// placed after all others.
    pub fn insert(&mut self, key: String, value: Vec<String>)
        ensures
            final(self)@ == old(self)@.insert(key@, strings_view(value@)),
            entry_keys(final(self).entry_seq()) == if entry_keys(old(self).entry_seq()).contains(key@) {
                entry_keys(old(self).entry_seq())
            } else {
                entry_keys(old(self).entry_seq()).push(key@)
            },
    {
        proof {
            use_type_invariant(&*self);
        }
        let ghost keys = entry_keys(self.entries@);
        let ghost vals = entry_values(self.entries@);
        let ghost kv = key@;
        let ghost vv = strings_view(value@);
        let pos = find_name(&self.entries, &key);
        let mut entries: Vec<(String, Vec<String>)> = Vec::new();
        std::mem::swap(&mut entries, &mut self.entries);
        match pos {
            Some(i) => {
                entries.set(i, (key, value));
                proof {
                    let keys2 = entry_keys(entries@);
                    let vals2 = entry_values(entries@);
                    assert(keys2 =~= keys);
                    assert(vals2 =~= vals.update(i as int, vv));
                    assert forall|k: Seq<char>| keys.contains(k) implies assoc_map(keys2, vals2)[k]
                        == assoc_map(keys, vals).insert(kv, vv)[k] by {
                        let j = key_index(keys, k);
                        lemma_key_index(keys, j);
                        lemma_key_index(keys, i as int);
                    }
                    assert(assoc_map(keys2, vals2) =~= assoc_map(keys, vals).insert(kv, vv));
                }
            },
            None => {
                entries.push((key, value));
                proof {
                    let keys2 = entry_keys(entries@);
                    let vals2 = entry_values(entries@);
                    assert(keys2 =~= keys.push(kv));
                    assert(vals2 =~= vals.push(vv));
                    assert forall|k: Seq<char>| keys2.contains(k) implies assoc_map(keys2, vals2)[k]
                        == assoc_map(keys, vals).insert(kv, vv)[k] by {
                        let j = key_index(keys2, k);
                        lemma_key_index(keys2, j);
                        if k != kv {
                            let jj = key_index(keys, k);
                            assert(keys.contains(k)) by {
                                assert(keys[j] == k);
                            }
                            lemma_key_index(keys, jj);
                            assert(keys2[jj] == k);
                            lemma_key_index(keys2, jj);
                        } else {
                            lemma_key_index(keys2, keys.len() as int);
                        }
                    }
                    assert forall|k: Seq<char>| keys2.contains(k) <==> (keys.contains(k) || k == kv) by {
                        if keys.contains(k) {
                            let j = choose|j: int| 0 <= j < keys.len() && keys[j] == k;
                            assert(keys2[j] == k);
                        }
                        if k == kv {
                            assert(keys2[keys.len() as int] == k);
                        }
                    }
                    assert(assoc_map(keys2, vals2) =~= assoc_map(keys, vals).insert(kv, vv));
                    assert forall|a: int, b: int| 0 <= a < keys2.len() && 0 <= b < keys2.len() && a != b implies keys2[a] != keys2[b] by {
                        if a < keys.len() && b < keys.len() {
                            assert(keys2[a] == keys[a] && keys2[b] == keys[b]);
                        } else if a < keys.len() {
                            assert(keys2[a] == keys[a]);
                            assert(keys.contains(keys[a]));
                        } else if b < keys.len() {
                            assert(keys2[b] == keys[b]);
                            assert(keys.contains(keys[b]));
                        }
                    }
                }
            },
        }
        self.entries = entries;
    }
}

// ---------------------------------------------------------------------------
// The dependency graph of a set of USD files
// ---------------------------------------------------------------------------

/// Dependency graph with adjacency edges and cycle flag.
#[derive(Debug)]
pub struct DepGraph {
    pub edges: EdgeMap,
    pub has_cycle: bool,
}

impl Default for DepGraph {
    fn default() -> (g: DepGraph)
        ensures
            g.edges@ == Map::<Seq<char>, Seq<Seq<char>>>::empty(),
            !g.has_cycle,
    {
        DepGraph { edges: EdgeMap::new(), has_cycle: false }
    }
}

/// The graph of a list of scanned files, each given by its name and its
/// text: the name maps to the references found in the text; a name met again
/// replaces what it mapped to before.
pub open spec fn graph_of(files: Seq<(String, String)>) -> Map<Seq<char>, Seq<Seq<char>>>
    decreases files.len(),
{
    if files.len() == 0 {
        Map::empty()
    } else {
        graph_of(files.drop_last()).insert(files.last().0@, references(files.last().1@))
    }
}

/// Builds the dependency graph of the given files (name and text of each),
/// scanning each text for `@...@` asset references, and flags whether the
/// graph has a cycle.
pub fn build_graph(files: &Vec<(String, String)>) -> (g: DepGraph)
    ensures
        g.edges@ == graph_of(files@),
        g.has_cycle == has_cycle(g.edges@),
{
    let mut edges = EdgeMap::new();
    let mut i: usize = 0;
    while i < files.len()
        invariant
            i <= files.len(),
            edges@ == graph_of(files@.take(i as int)),
        decreases files.len() - i,
    {
        let refs = extract_refs(files[i].1.as_str());
        edges.insert(files[i].0.clone(), refs);
        proof {
            let t = files@.take(i + 1);
            assert(t.drop_last() =~= files@.take(i as int));
            assert(t.last() == files@[i as int]);
        }
        i = i + 1;
    }
    proof {
        assert(files@.take(files@.len() as int) =~= files@);
    }
    let has_cycle = detect_cycle(&edges);
    DepGraph { edges, has_cycle }
}

/// Whether a file extension marks a USD text layer (`usda`, exactly).
pub fn is_usda_extension(extension: Option<&str>) -> (r: bool)
    ensures
        r == (extension matches Some(e) && e@ == "usda"@),
{
    match extension {
        Some(e) => same_text(e, "usda"),
        None => false,
    }
}

/// Every scanned file is a node of its graph, mapped to the references of the
/// last text given for it.
pub proof fn lemma_graph_has_every_file(files: Seq<(String, String)>, i: int)
    requires
        0 <= i < files.len(),
        forall|j: int| i < j < files.len() ==> files[j].0@ != files[i].0@,
    ensures
        graph_of(files).dom().contains(files[i].0@),
        graph_of(files)[files[i].0@] == references(files[i].1@),
    decreases files.len(),
{
    if i < files.len() - 1 {
        lemma_graph_has_every_file(files.drop_last(), i);
        assert(files.drop_last()[i] == files[i]);
        assert(files.last().0@ != files[i].0@);
    }
}

} // verus!
