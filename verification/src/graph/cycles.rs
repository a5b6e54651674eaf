//! Cycles among `depends_on` edges, found by depth-first search.

use vstd::prelude::*;
use crate::graph::index::IdIndex;
use crate::graph::schema::rel;
use crate::graph::types::EdgeRecord;
use crate::text::str_eq;

verus! {

/// The successor lists of `adj` as sequences.
pub open spec fn lists(adj: Seq<Vec<usize>>) -> Seq<Seq<usize>> {
    adj.map_values(|s: Vec<usize>| s@)
}

/// `b` is a successor of `a` in the adjacency lists `adj`.
pub open spec fn arc(adj: Seq<Seq<usize>>, a: int, b: int) -> bool {
    0 <= a < adj.len() && adj[a].contains(b as usize)
}

/// Consecutive entries of `p` are joined by arcs of `adj`.
pub open spec fn is_walk(adj: Seq<Seq<usize>>, p: Seq<usize>) -> bool {
    forall|i: int| 0 <= i < p.len() - 1 ==> #[trigger] arc(adj, p[i] as int, p[i + 1] as int)
}

/// A closed walk of at least one arc.
pub open spec fn is_index_cycle(adj: Seq<Seq<usize>>, c: Seq<usize>) -> bool {
    c.len() >= 2 && c[0] == c.last() && is_walk(adj, c)
}

/// Every successor named in `adj` is one of its `adj.len()` vertices.
pub open spec fn closed_graph(adj: Seq<Seq<usize>>) -> bool {
    forall|a: int, j: int| 0 <= a < adj.len() && 0 <= j < adj[a].len() ==> #[trigger] adj[a][j] < adj.len()
}

/// `b` can be reached from `a` along at most `n` arcs of `adj`.
pub open spec fn reach(adj: Seq<Seq<usize>>, a: int, b: int, n: nat) -> bool
    decreases n,
{
    a == b || (n > 0 && exists|w: int| 0 <= w < adj.len() && #[trigger] arc(adj, a, w) && reach(adj, w, b, (n - 1) as nat))
}

/// `b` can be reached from `a` along arcs of `adj`.
pub open spec fn reaches(adj: Seq<Seq<usize>>, a: int, b: int) -> bool {
    exists|n: nat| #[trigger] reach(adj, a, b, n)
}

proof fn lemma_reaches_self(adj: Seq<Seq<usize>>, a: int)
    ensures
        reaches(adj, a, a),
{
    assert(reach(adj, a, a, 0));
}

proof fn lemma_reaches_step(adj: Seq<Seq<usize>>, a: int, w: int, b: int)
    requires
        0 <= w < adj.len(),
        arc(adj, a, w),
        reaches(adj, w, b),
    ensures
        reaches(adj, a, b),
{
    let n = choose|n: nat| #[trigger] reach(adj, w, b, n);
    assert(reach(adj, a, b, n + 1));
}

/// Number of `false` entries.
pub open spec fn unvisited(v: Seq<bool>) -> nat
    decreases v.len(),
{
    if v.len() == 0 {
        0
    } else {
        unvisited(v.drop_last()) + if v.last() { 0nat } else { 1nat }
    }
}

proof fn lemma_unvisited_mark(v: Seq<bool>, i: int)
    requires
        0 <= i < v.len(),
        !v[i],
    ensures
        unvisited(v.update(i, true)) + 1 == unvisited(v),
    decreases v.len(),
{
    if i < v.len() - 1 {
        lemma_unvisited_mark(v.drop_last(), i);
        assert(v.update(i, true).drop_last() =~= v.drop_last().update(i, true));
    } else {
        assert(v.update(i, true).drop_last() =~= v.drop_last());
    }
}

proof fn lemma_unvisited_grow(a: Seq<bool>, b: Seq<bool>)
    requires
        a.len() == b.len(),
        forall|i: int| 0 <= i < a.len() && #[trigger] a[i] ==> b[i],
    ensures
        unvisited(b) <= unvisited(a),
    decreases a.len(),
{
    if a.len() > 0 {
        lemma_unvisited_grow(a.drop_last(), b.drop_last());
    }
}

/// The search state: visited vertices, the vertices on the current path and
/// that path, and (ghost) the finishing number of each finished vertex
/// (`-1` while unfinished) with the next number to hand out.
struct DfsState {
    visited: Vec<bool>,
    on_stack: Vec<bool>,
    path: Vec<usize>,
    fin: Ghost<Seq<int>>,
    clock: Ghost<int>,
    keep: Ghost<Seq<bool>>,
}

/// Shape of the search state: the path is a walk whose vertices are
/// exactly those marked on the stack, all of them visited.
spec fn stack_ok(adj: Seq<Seq<usize>>, st: DfsState) -> bool {
    let n = adj.len();
    &&& st.visited@.len() == n
    &&& st.on_stack@.len() == n
    &&& st.fin@.len() == n
    &&& forall|i: int| 0 <= i < st.path@.len() ==> #[trigger] st.path@[i] < n
    &&& forall|v: usize| v < n ==> (#[trigger] st.on_stack@[v as int] <==> st.path@.contains(v))
    &&& forall|v: int| 0 <= v < n && #[trigger] st.on_stack@[v] ==> st.visited@[v]
    &&& is_walk(adj, st.path@)
}

/// Among the vertices kept in view (`st.keep`): the vertices visited and
/// off the stack are the finished ones, and every arc out of a finished
/// vertex leads to a vertex finished earlier.
spec fn finish_ok(adj: Seq<Seq<usize>>, st: DfsState) -> bool {
    let n = adj.len();
    &&& st.keep@.len() == n
    &&& forall|v: int| 0 <= v < n && st.keep@[v] ==> ((st.visited@[v] && !st.on_stack@[v]) <==> #[trigger] st.fin@[v] >= 0)
    &&& st.clock@ >= 0
    &&& forall|v: int| 0 <= v < n ==> #[trigger] st.fin@[v] < st.clock@
    &&& forall|v: int, j: int| 0 <= v < n && st.keep@[v] && st.fin@[v] >= 0 && 0 <= j < adj[v].len()
        ==> 0 <= #[trigger] st.fin@[adj[v][j] as int] < st.fin@[v]
}

/// The kept vertices are closed under arcs.
spec fn keep_closed(adj: Seq<Seq<usize>>, keep: Seq<bool>) -> bool {
    forall|v: int, j: int| 0 <= v < adj.len() && keep[v] && 0 <= j < adj[v].len() ==> #[trigger] keep[adj[v][j] as int]
}

/// Position of the first `x` in `p` (`p.len()` when there is none).
pub open spec fn first_pos(p: Seq<usize>, x: usize) -> int
    decreases p.len(),
{
    if p.len() == 0 {
        0
    } else if p[0] == x {
        0
    } else {
        1 + first_pos(p.drop_first(), x)
    }
}

proof fn lemma_first_pos(p: Seq<usize>, x: usize, pos: int)
    requires
        0 <= pos < p.len(),
        p[pos] == x,
        forall|k: int| 0 <= k < pos ==> p[k] != x,
    ensures
        first_pos(p, x) == pos,
    decreases pos,
{
    if pos > 0 {
        let q = p.drop_first();
        assert forall|k: int| 0 <= k < pos - 1 implies q[k] != x by {
            assert(q[k] == p[k + 1]);
        }
        lemma_first_pos(q, x, pos - 1);
    }
}

/// An optional cycle as a sequence.
pub open spec fn opt_view(r: Option<Vec<usize>>) -> Option<Seq<usize>> {
    match r {
        Some(c) => Some(c@),
        None => None,
    }
}

/// The search from `node` with the state `(vis, stk, path)`: what it
/// reports and the state it leaves, given enough `fuel` (one unit per
/// vertex it may still enter). It marks `node` visited and on the path,
/// tries the successors of `node` in order, and on finding none leaves
/// `node` visited but off the path.
pub open spec fn dfs_run(g: Seq<Seq<usize>>, fuel: nat, node: usize, vis: Seq<bool>, stk: Seq<bool>, path: Seq<usize>)
    -> (Option<Seq<usize>>, Seq<bool>, Seq<bool>, Seq<usize>)
    decreases fuel, 1nat, 0nat,
{
    if fuel == 0 {
        (None, vis, stk, path)
    } else {
        let out = dfs_loop(g, fuel, node, 0, vis.update(node as int, true), stk.update(node as int, true), path.push(node));
        if out.0 is Some {
            out
        } else {
            (None, out.1, out.2.update(node as int, false), out.3.drop_last())
        }
    }
}

/// The successors of `node` from the `j`-th on: a successor on the path
/// closes the cycle from its first place on the path; an unvisited one is
/// searched in turn; a visited one off the path is passed over.
pub open spec fn dfs_loop(g: Seq<Seq<usize>>, fuel: nat, node: usize, j: nat, vis: Seq<bool>, stk: Seq<bool>, path: Seq<usize>)
    -> (Option<Seq<usize>>, Seq<bool>, Seq<bool>, Seq<usize>)
    decreases fuel, 0nat, if j < g[node as int].len() { (g[node as int].len() - j) as nat } else { 0nat },
{
    if j >= g[node as int].len() {
        (None, vis, stk, path)
    } else {
        let next = g[node as int][j as int];
        if stk[next as int] {
            (Some(path.subrange(first_pos(path, next), path.len() as int).push(next)), vis, stk, path)
        } else if !vis[next as int] {
            if fuel == 0 {
                (None, vis, stk, path)
            } else {
                let sub = dfs_run(g, (fuel - 1) as nat, next, vis, stk, path);
                if sub.0 is Some {
                    sub
                } else {
                    dfs_loop(g, fuel, node, j + 1, sub.1, sub.2, sub.3)
                }
            }
        } else {
            dfs_loop(g, fuel, node, j + 1, vis, stk, path)
        }
    }
}

/// The part of `path` from the first occurrence of `next` on, followed by
/// `next` again.
fn close_cycle(path: &Vec<usize>, next: usize) -> (c: Vec<usize>)
    requires
        path@.contains(next),
    ensures
        exists|pos: int| 0 <= pos < path@.len() && path@[pos] == next
            && c@ == path@.subrange(pos, path@.len() as int).push(next),
        c@ == path@.subrange(first_pos(path@, next), path@.len() as int).push(next),
{
    let mut pos: usize = 0;
    while pos < path.len() && path[pos] != next
        invariant
            pos <= path@.len(),
            path@.contains(next),
            forall|k: int| 0 <= k < pos ==> path@[k] != next,
        decreases path@.len() - pos,
    {
        pos += 1;
    }
    if pos == path.len() {
        proof {
            let k = choose|k: int| 0 <= k < path@.len() && path@[k] == next;
            assert(false);
        }
    }
    proof {
        lemma_first_pos(path@, next, pos as int);
    }
    let mut cycle: Vec<usize> = Vec::new();
    let mut k: usize = pos;
    while k < path.len()
        invariant
            pos <= k <= path@.len(),
            cycle@ == path@.subrange(pos as int, k as int),
        decreases path@.len() - k,
    {
        cycle.push(path[k]);
        k += 1;
        assert(cycle@ =~= path@.subrange(pos as int, k as int));
    }
    cycle.push(next);
    cycle
}

/// Depth-first search from the unvisited vertex `node`: returns the first
/// cycle closed by an arc back onto the current path, as a walk from the
/// vertex it closes on back to itself; that cycle and the state left are
/// those of `dfs_run`.
fn dfs_cycle(node: usize, adj: &Vec<Vec<usize>>, st: &mut DfsState, Ghost(fuel): Ghost<nat>) -> (r: Option<Vec<usize>>)
    requires
        closed_graph(lists(adj@)),
        fuel >= unvisited(old(st).visited@),
        node < adj@.len(),
        stack_ok(lists(adj@), *old(st)),
        !old(st).visited@[node as int],
        old(st).path@.len() > 0 ==> arc(lists(adj@), old(st).path@.last() as int, node as int),
        keep_closed(lists(adj@), old(st).keep@),
        old(st).clock@ >= 0,
        forall|v: int| 0 <= v < adj@.len() ==> #[trigger] old(st).fin@[v] < old(st).clock@,
    ensures
        final(st).keep == old(st).keep,
        final(st).on_stack@.len() == old(st).on_stack@.len(),
        final(st).clock@ >= old(st).clock@,
        forall|v: int| 0 <= v < adj@.len() ==> #[trigger] final(st).fin@[v] < final(st).clock@,
        forall|v: int| #![trigger final(st).visited@[v]] #![trigger final(st).on_stack@[v]] #![trigger final(st).fin@[v]]
            0 <= v < adj@.len() && !reaches(lists(adj@), node as int, v) ==> {
            &&& final(st).visited@[v] == old(st).visited@[v]
            &&& final(st).on_stack@[v] == old(st).on_stack@[v]
            &&& final(st).fin@[v] == old(st).fin@[v]
        },
        r matches Some(c) ==> c@.len() > 0
            && (old(st).path@.contains(c@[0]) || reaches(lists(adj@), node as int, c@[0] as int)),
        final(st).visited@.len() == old(st).visited@.len(),
        final(st).fin@.len() == old(st).fin@.len(),
        final(st).visited@[node as int],
        forall|v: int| 0 <= v < old(st).visited@.len() && #[trigger] old(st).visited@[v] ==> final(st).visited@[v],
        ({
            let res = dfs_run(lists(adj@), fuel, node, old(st).visited@, old(st).on_stack@, old(st).path@);
            &&& res.0 == opt_view(r)
            &&& res.1 == final(st).visited@
            &&& res.2 == final(st).on_stack@
            &&& res.3 == final(st).path@
        }),
        match r {
            Some(c) => is_index_cycle(lists(adj@), c@),
            None => {
                &&& stack_ok(lists(adj@), *final(st))
                &&& final(st).path@ == old(st).path@
                &&& final(st).on_stack@ == old(st).on_stack@
                &&& (finish_ok(lists(adj@), *old(st)) && old(st).keep@[node as int] ==> {
                    &&& finish_ok(lists(adj@), *final(st))
                    &&& final(st).clock@ >= old(st).clock@
                })
            },
        },
    decreases unvisited(old(st).visited@),
{
    let ghost g = lists(adj@);
    let ghost n = adj@.len();
    let ghost start = *st;
    let ghost clean = finish_ok(g, *st) && st.keep@[node as int];
    proof {
        lemma_unvisited_mark(st.visited@, node as int);
    }
    st.visited[node] = true;
    st.on_stack[node] = true;
    st.path.push(node);
    let ghost full = dfs_loop(g, fuel, node, 0, st.visited@, st.on_stack@, st.path@);
    proof {
        lemma_reaches_self(g, node as int);
        assert(fuel > 0);
        assert(st.visited@ == start.visited@.update(node as int, true));
        assert(st.on_stack@ == start.on_stack@.update(node as int, true));
        assert(st.path@ == start.path@.push(node));
    }
    proof {
        assert forall|v: usize| v < n implies (#[trigger] st.on_stack@[v as int] <==> st.path@.contains(v)) by {
            if v == node {
                assert(st.path@[st.path@.len() - 1] == node);
            } else if start.path@.contains(v) {
                let k = choose|k: int| 0 <= k < start.path@.len() && start.path@[k] == v;
                assert(st.path@[k] == v);
            } else if st.path@.contains(v) {
                let k = choose|k: int| 0 <= k < st.path@.len() && st.path@[k] == v;
                assert(st.path@[st.path@.len() - 1] == node);
                assert(k < start.path@.len());
                assert(start.path@[k] == v as usize);
            }
        }
        assert forall|i: int| 0 <= i < st.path@.len() - 1 implies #[trigger] arc(g, st.path@[i] as int, st.path@[i + 1] as int) by {
            if i < st.path@.len() - 2 {
                assert(arc(g, start.path@[i] as int, start.path@[i + 1] as int));
            }
        }
    }
    let succ = &adj[node];
    proof {
        assert(succ@ == g[node as int]);
        if clean {
            assert(st.fin@ == start.fin@);
            assert forall|v: int| 0 <= v < n && st.keep@[v] implies ((st.visited@[v] && !st.on_stack@[v]) <==> #[trigger] st.fin@[v] >= 0) by {
                if v != node as int {
                    assert(st.visited@[v] == start.visited@[v]);
                    assert(st.on_stack@[v] == start.on_stack@[v]);
                }
            }
        }
    }
    let mut j: usize = 0;
    while j < succ.len()
        invariant
            g == lists(adj@),
            n == adj@.len(),
            g.len() == n,
            start == *old(st),
            stack_ok(g, start),
            closed_graph(g),
            node < n,
            *succ == adj@[node as int],
            succ@ == g[node as int],
            st.fin@.len() == n,
            j <= succ.len(),
            stack_ok(g, *st),
            st.path@ == start.path@.push(node),
            st.on_stack@ == start.on_stack@.update(node as int, true),
            st.visited@[node as int],
            forall|v: int| 0 <= v < n && #[trigger] start.visited@[v] ==> st.visited@[v],
            unvisited(st.visited@) + 1 <= unvisited(start.visited@),
            clean == (finish_ok(g, start) && start.keep@[node as int]),
            st.keep == start.keep,
            keep_closed(g, start.keep@),
            start.clock@ >= 0,
            st.clock@ >= start.clock@,
            forall|v: int| 0 <= v < n ==> #[trigger] st.fin@[v] < st.clock@,
            forall|v: int| #![trigger st.visited@[v]] #![trigger st.on_stack@[v]] #![trigger st.fin@[v]]
                0 <= v < n && !reaches(g, node as int, v) ==> {
                &&& st.visited@[v] == start.visited@[v]
                &&& st.on_stack@[v] == start.on_stack@[v]
                &&& st.fin@[v] == start.fin@[v]
            },
            fuel >= unvisited(start.visited@),
            fuel > 0,
            full == dfs_loop(g, fuel, node, j as nat, st.visited@, st.on_stack@, st.path@),
            full == dfs_loop(g, fuel, node, 0, start.visited@.update(node as int, true),
                start.on_stack@.update(node as int, true), start.path@.push(node)),
            clean ==> {
                &&& finish_ok(g, *st)
                &&& forall|k: int| 0 <= k < j ==> #[trigger] st.fin@[succ@[k] as int] >= 0
                &&& st.clock@ >= start.clock@
            },
        decreases succ.len() - j,
    {
        let next = succ[j];
        let ghost entry = *st;
        proof {
            assert(g[node as int] == succ@);
            assert(next < n);
            if clean {
                assert(start.keep@[g[node as int][j as int] as int]);
                assert(st.keep@[next as int]);
            }
        }
        if st.on_stack[next] {
            proof {
                assert(st.on_stack@[next as int]);
            }
            let cycle = close_cycle(&st.path, next);
            proof {
                let p = st.path@;
                let pos = choose|pos: int| 0 <= pos < p.len() && p[pos] == next && cycle@ == p.subrange(pos, p.len() as int).push(next);
                assert(cycle@.len() >= 2);
                assert(cycle@[0] == next);
                assert(cycle@.last() == next);
                assert forall|i: int| 0 <= i < cycle@.len() - 1 implies #[trigger] arc(g, cycle@[i] as int, cycle@[i + 1] as int) by {
                    if i < cycle@.len() - 2 {
                        assert(cycle@[i] == p[pos + i]);
                        assert(cycle@[i + 1] == p[pos + i + 1]);
                        assert(arc(g, p[pos + i] as int, p[pos + i + 1] as int));
                    } else {
                        assert(cycle@[i] == p.last());
                        assert(p.last() == node);
                        assert(succ@[j as int] == next);
                        assert(g[node as int].contains(next));
                    }
                }
            }
            proof {
                assert(is_index_cycle(g, cycle@));
                assert(g[node as int][j as int] == next);
                assert(full == (Some(cycle@), st.visited@, st.on_stack@, st.path@));
                assert(dfs_run(g, fuel, node, start.visited@, start.on_stack@, start.path@) == full);
                let p = st.path@;
                let pos = choose|pos: int| 0 <= pos < p.len() && p[pos] == next && cycle@ == p.subrange(pos, p.len() as int).push(next);
                assert(cycle@[0] == next);
                assert(p.contains(next));
                if next != node {
                    let q = choose|q: int| 0 <= q < p.len() && p[q] == next;
                    assert(q < start.path@.len());
                    assert(start.path@[q] == next);
                    assert(start.path@.contains(next));
                }
            }
            return Some(cycle);
        }
        if !st.visited[next] {
            let ghost before = *st;
            proof {
                assert(st.path@.last() == node);
                assert(g[node as int][j as int] == next);
            }
            match dfs_cycle(next, adj, st, Ghost((fuel - 1) as nat)) {
                Some(c) => {
                    proof {
                        assert(g[node as int][j as int] == next);
                        assert(full == (Some(c@), st.visited@, st.on_stack@, st.path@));
                        assert(dfs_run(g, fuel, node, start.visited@, start.on_stack@, start.path@) == full);
                        assert(arc(g, node as int, next as int));
                        if before.path@.contains(c@[0]) {
                            let q = choose|q: int| 0 <= q < before.path@.len() && before.path@[q] == c@[0];
                            if q < start.path@.len() {
                                assert(start.path@[q] == c@[0]);
                                assert(start.path@.contains(c@[0]));
                            } else {
                                assert(c@[0] == node);
                            }
                        } else {
                            lemma_reaches_step(g, node as int, next as int, c@[0] as int);
                        }
                        assert forall|v: int| #![trigger st.visited@[v]] #![trigger st.on_stack@[v]] #![trigger st.fin@[v]]
                            0 <= v < n && !reaches(g, node as int, v) implies {
                            &&& st.visited@[v] == start.visited@[v]
                            &&& st.on_stack@[v] == start.on_stack@[v]
                            &&& st.fin@[v] == start.fin@[v]
                        } by {
                            if reaches(g, next as int, v) {
                                lemma_reaches_step(g, node as int, next as int, v);
                            }
                            assert(st.fin@[v] == before.fin@[v]);
                        }
                    }
                    return Some(c);
                },
                None => {},
            }
            proof {
                lemma_unvisited_grow(before.visited@, st.visited@);
                assert(arc(g, node as int, next as int));
                assert forall|v: int| #![trigger st.visited@[v]] #![trigger st.on_stack@[v]] #![trigger st.fin@[v]]
                    0 <= v < n && !reaches(g, node as int, v) implies {
                    &&& st.visited@[v] == start.visited@[v]
                    &&& st.on_stack@[v] == start.on_stack@[v]
                    &&& st.fin@[v] == start.fin@[v]
                } by {
                    if reaches(g, next as int, v) {
                        lemma_reaches_step(g, node as int, next as int, v);
                    }
                    assert(st.fin@[v] == before.fin@[v]);
                }
                if clean {
                    assert(st.visited@[next as int] && !st.on_stack@[next as int]);
                    assert(st.fin@[next as int] >= 0);
                    assert forall|k: int| 0 <= k < j implies #[trigger] st.fin@[succ@[k] as int] >= 0 by {
                        let w = succ@[k] as int;
                        assert(before.fin@[w] >= 0);
                        assert(before.visited@[w] && !before.on_stack@[w]);
                    }
                }
            }
        }
        proof {
            if clean {
                assert(st.visited@[next as int] && !st.on_stack@[next as int]);
                assert(st.fin@[next as int] >= 0);
            }
        }
        j += 1;
    }
    let ghost mid = *st;
    st.on_stack[node] = false;
    st.path.pop();
    proof {
        assert(st.path@ =~= start.path@);
        assert(st.on_stack@ =~= start.on_stack@);
    }
    st.fin = Ghost(st.fin@.update(node as int, st.clock@));
    st.clock = Ghost(st.clock@ + 1);
    proof {
        assert forall|v: int| 0 <= v < n && #[trigger] st.on_stack@[v] implies st.visited@[v] by {
            assert(start.on_stack@[v]);
            assert(start.visited@[v]);
        }
        assert(stack_ok(g, *st));
        if clean {
            assert forall|v: int| 0 <= v < n && st.keep@[v] implies ((st.visited@[v] && !st.on_stack@[v]) <==> #[trigger] st.fin@[v] >= 0) by {
                if v != node as int {
                    assert(st.fin@[v] == mid.fin@[v]);
                    assert(st.on_stack@[v] == mid.on_stack@[v]);
                } else {
                    assert(!start.on_stack@[v]);
                }
            }
            assert forall|v: int, k: int| 0 <= v < n && st.keep@[v] && st.fin@[v] >= 0 && 0 <= k < g[v].len()
                implies 0 <= #[trigger] st.fin@[g[v][k] as int] < st.fin@[v] by {
                if v == node as int {
                    assert(g[v][k] == succ@[k]);
                    assert(mid.fin@[succ@[k] as int] >= 0);
                    assert(g[v][k] != node) by {
                        if g[v][k] == node {
                            assert(mid.fin@[node as int] >= 0);
                            assert(mid.on_stack@[node as int]);
                        }
                    }
                } else {
                    assert(mid.fin@[v] >= 0);
                    assert(0 <= mid.fin@[g[v][k] as int] < mid.fin@[v]);
                    assert(g[v][k] != node) by {
                        if g[v][k] == node {
                            assert(mid.on_stack@[node as int]);
                        }
                    }
                }
            }
            assert(finish_ok(g, *st));
        }
    }
    None
}

/// Every arc leads from a higher to a lower non-negative rank.
spec fn ranked(adj: Seq<Seq<usize>>, fin: Seq<int>) -> bool {
    forall|a: int, j: int| 0 <= a < adj.len() && 0 <= j < adj[a].len()
        ==> 0 <= #[trigger] fin[adj[a][j] as int] < fin[a]
}

proof fn lemma_walk_descends(adj: Seq<Seq<usize>>, fin: Seq<int>, c: Seq<usize>)
    requires
        ranked(adj, fin),
        is_walk(adj, c),
        c.len() >= 2,
    ensures
        fin[c.last() as int] < fin[c[0] as int],
    decreases c.len(),
{
    let m = c.len() - 1;
    let a = c[m - 1] as int;
    let row = adj[a];
    assert(arc(adj, c[m - 1] as int, c[(m - 1) + 1] as int));
    assert(row.contains(c[m]));
    let j = choose|j: int| 0 <= j < row.len() && #[trigger] row[j] == c[m];
    assert(fin[adj[a][j] as int] < fin[a]);
    if c.len() > 2 {
        let d = c.drop_last();
        assert forall|i: int| 0 <= i < d.len() - 1 implies #[trigger] arc(adj, d[i] as int, d[i + 1] as int) by {
            assert(arc(adj, c[i] as int, c[i + 1] as int));
        }
        lemma_walk_descends(adj, fin, d);
    }
}

/// `n` copies of `false`.
fn all_false(n: usize) -> (v: Vec<bool>)
    ensures
        v@ == Seq::new(n as nat, |i: int| false),
{
    let mut v: Vec<bool> = Vec::with_capacity(n);
    let mut i: usize = 0;
    while i < n
        invariant
            i <= n,
            v@ == Seq::new(i as nat, |k: int| false),
        decreases n - i,
    {
        v.push(false);
        i += 1;
        assert(v@ =~= Seq::new(i as nat, |k: int| false));
    }
    v
}

/// The cycles reported by searching from each vertex `s` on that has
/// successors and is not yet visited, in index order, each search starting
/// with an empty path and carrying the visited marks over.
pub open spec fn scan(g: Seq<Seq<usize>>, s: nat, vis: Seq<bool>) -> Seq<Seq<usize>>
    decreases if s < g.len() { (g.len() - s) as nat } else { 0nat },
{
    if s >= g.len() {
        Seq::empty()
    } else if g[s as int].len() > 0 && !vis[s as int] {
        let res = dfs_run(g, unvisited(vis), s as usize, vis, Seq::new(g.len(), |i: int| false), Seq::empty());
        let here = if res.0 is Some { seq![res.0->0] } else { Seq::<Seq<usize>>::empty() };
        here + scan(g, s + 1, res.1)
    } else {
        scan(g, s + 1, vis)
    }
}

/// The cycles of `cycles` as sequences.
pub open spec fn cycle_views(cycles: Seq<Vec<usize>>) -> Seq<Seq<usize>> {
    cycles.map_values(|c: Vec<usize>| c@)
}

/// `a` and `b` are joined by at most `n` arcs of `adj` taken either way.
pub open spec fn link(adj: Seq<Seq<usize>>, a: int, b: int, n: nat) -> bool
    decreases n,
{
    a == b || (n > 0 && exists|w: int| #![trigger arc(adj, a, w)] #![trigger arc(adj, w, a)]
        0 <= w < adj.len() && (arc(adj, a, w) || arc(adj, w, a)) && link(adj, w, b, (n - 1) as nat))
}

/// `a` and `b` lie in one connected part of `adj`, arcs taken either way.
pub open spec fn connected(adj: Seq<Seq<usize>>, a: int, b: int) -> bool {
    exists|n: nat| #[trigger] link(adj, a, b, n)
}

proof fn lemma_connected_step(adj: Seq<Seq<usize>>, a: int, w: int, b: int)
    requires
        0 <= w < adj.len(),
        arc(adj, a, w) || arc(adj, w, a),
        connected(adj, w, b),
    ensures
        connected(adj, a, b),
{
    let n = choose|n: nat| #[trigger] link(adj, w, b, n);
    assert(link(adj, a, b, n + 1));
}

proof fn lemma_reach_connected(adj: Seq<Seq<usize>>, s: int, x: int, q: int, n: nat)
    requires
        reach(adj, s, x, n),
        connected(adj, s, q),
    ensures
        connected(adj, x, q),
    decreases n,
{
    if s != x {
        let w = choose|w: int| 0 <= w < adj.len() && #[trigger] arc(adj, s, w) && reach(adj, w, x, (n - 1) as nat);
        lemma_connected_step(adj, w, s, q);
        lemma_reach_connected(adj, w, x, q, (n - 1) as nat);
    }
}

proof fn lemma_reach_is_connected(adj: Seq<Seq<usize>>, s: int, x: int, n: nat)
    requires
        reach(adj, s, x, n),
    ensures
        connected(adj, s, x),
    decreases n,
{
    if s == x {
        assert(link(adj, s, x, 0));
    } else {
        let w = choose|w: int| 0 <= w < adj.len() && #[trigger] arc(adj, s, w) && reach(adj, w, x, (n - 1) as nat);
        lemma_reach_is_connected(adj, w, x, (n - 1) as nat);
        lemma_connected_step(adj, s, w, x);
    }
}

/// Vertex `v` is in no connected part holding the first vertex of one of
/// the cycles `cs`.
pub open spec fn apart(adj: Seq<Seq<usize>>, cs: Seq<Vec<usize>>, v: int) -> bool {
    forall|q: int| 0 <= q < cs.len() ==> !#[trigger] connected(adj, v, cs[q]@[0] as int)
}

/// The vertices apart from the cycles `cs`.
spec fn apart_mask(adj: Seq<Seq<usize>>, cs: Seq<Vec<usize>>) -> Seq<bool> {
    Seq::new(adj.len(), |v: int| apart(adj, cs, v))
}

proof fn lemma_apart_closed(adj: Seq<Seq<usize>>, cs: Seq<Vec<usize>>)
    requires
        closed_graph(adj),
    ensures
        keep_closed(adj, apart_mask(adj, cs)),
{
    let k = apart_mask(adj, cs);
    assert forall|v: int, j: int| 0 <= v < adj.len() && k[v] && 0 <= j < adj[v].len()
        implies #[trigger] k[adj[v][j] as int] by {
        let w = adj[v][j] as int;
        assert(adj[v].contains(adj[v][j]));
        assert(arc(adj, v, w));
        assert forall|q: int| 0 <= q < cs.len() implies !#[trigger] connected(adj, w, cs[q]@[0] as int) by {
            if connected(adj, w, cs[q]@[0] as int) {
                lemma_connected_step(adj, v, w, cs[q]@[0] as int);
                assert(!connected(adj, v, cs[q]@[0] as int));
            }
        }
        assert(adj[v][j] < adj.len());
    }
}

proof fn lemma_descends(c: Seq<usize>, fin: Seq<int>, k: int)
    requires
        1 <= k < c.len(),
        forall|i: int| 0 <= i < k ==> #[trigger] fin[c[i + 1] as int] < fin[c[i] as int],
    ensures
        fin[c[k] as int] < fin[c[0] as int],
    decreases k,
{
    if k > 1 {
        lemma_descends(c, fin, k - 1);
        assert(fin[c[(k - 1) + 1] as int] < fin[c[k - 1] as int]);
    } else {
        assert(fin[c[0int + 1] as int] < fin[c[0] as int]);
    }
}

/// A cycle cannot lie among kept vertices that are all finished with
/// ranks falling along every arc.
proof fn lemma_cycle_not_kept(adj: Seq<Seq<usize>>, keep: Seq<bool>, fin: Seq<int>, c: Seq<usize>)
    requires
        closed_graph(adj),
        is_index_cycle(adj, c),
        keep_closed(adj, keep),
        keep.len() == adj.len(),
        fin.len() == adj.len(),
        forall|v: int| 0 <= v < adj.len() && keep[v] && adj[v].len() > 0 ==> #[trigger] fin[v] >= 0,
        forall|v: int, j: int| 0 <= v < adj.len() && keep[v] && fin[v] >= 0 && 0 <= j < adj[v].len()
            ==> 0 <= #[trigger] fin[adj[v][j] as int] < fin[v],
    ensures
        !keep[c[0] as int],
{
    if keep[c[0] as int] {
        let m = c.len() - 1;
        assert forall|i: int| 0 <= i <= m implies #[trigger] keep[c[i] as int] by {
            lemma_kept_along(adj, keep, c, i);
        }
        assert forall|i: int| 0 <= i < m implies #[trigger] fin[c[i + 1] as int] < fin[c[i] as int] by {
            assert(arc(adj, c[i] as int, c[i + 1] as int));
            let row = adj[c[i] as int];
            let j = choose|j: int| 0 <= j < row.len() && #[trigger] row[j] == c[i + 1];
            assert(keep[c[i] as int]);
            assert(fin[c[i] as int] >= 0);
            assert(adj[c[i] as int][j] == c[i + 1]);
        }
        lemma_descends(c, fin, m);
    }
}

proof fn lemma_kept_along(adj: Seq<Seq<usize>>, keep: Seq<bool>, c: Seq<usize>, i: int)
    requires
        is_walk(adj, c),
        keep_closed(adj, keep),
        keep[c[0] as int],
        0 <= i < c.len(),
    ensures
        keep[c[i] as int],
    decreases i,
{
    if i > 0 {
        lemma_kept_along(adj, keep, c, i - 1);
        assert(arc(adj, c[i - 1] as int, c[(i - 1) + 1] as int));
        let row = adj[c[i - 1] as int];
        let j = choose|j: int| 0 <= j < row.len() && #[trigger] row[j] == c[i];
        assert(adj[c[i - 1] as int][j] == c[i]);
    }
}

/// Searches from each vertex that has successors, in index order, skipping
/// those already visited; collects the cycle each search reports. Every
/// cycle of the graph lies in a connected part with a reported cycle, so
/// the result is empty exactly when the graph has no cycle.
fn index_cycles(adj: &Vec<Vec<usize>>) -> (r: Vec<Vec<usize>>)
    requires
        closed_graph(lists(adj@)),
    ensures
        forall|k: int| 0 <= k < r@.len() ==> is_index_cycle(lists(adj@), #[trigger] r@[k]@),
        r@.len() == 0 ==> forall|c: Seq<usize>| !is_index_cycle(lists(adj@), c),
        forall|c: Seq<usize>| #[trigger] is_index_cycle(lists(adj@), c) ==> exists|q: int|
            0 <= q < r@.len() && #[trigger] connected(lists(adj@), c[0] as int, r@[q]@[0] as int),
        cycle_views(r@) == scan(lists(adj@), 0, Seq::new(adj@.len() as nat, |i: int| false)),
{
    let ghost g = lists(adj@);
    let n = adj.len();
    let mut cycles: Vec<Vec<usize>> = Vec::new();
    let mut st = DfsState {
        visited: all_false(n),
        on_stack: all_false(n),
        path: Vec::new(),
        fin: Ghost(Seq::new(n as nat, |i: int| -1int)),
        clock: Ghost(0int),
        keep: Ghost(apart_mask(g, Seq::empty())),
    };
    let mut s: usize = 0;
    let ghost whole = scan(g, 0, Seq::new(n as nat, |i: int| false));
    proof {
        assert(st.visited@ =~= Seq::new(n as nat, |i: int| false));
        assert(cycle_views(cycles@) + scan(g, 0, st.visited@) =~= whole);
        assert(cycles@ =~= Seq::<Vec<usize>>::empty());
    }
    while s < n
        invariant
            whole == scan(g, 0, Seq::new(n as nat, |i: int| false)),
            cycle_views(cycles@) + scan(g, s as nat, st.visited@) == whole,
            g == lists(adj@),
            g.len() == n,
            n == adj@.len(),
            closed_graph(g),
            s <= n,
            st.visited@.len() == n,
            st.on_stack@.len() == n,
            st.fin@.len() == n,
            forall|k: int| 0 <= k < cycles@.len() ==> is_index_cycle(g, #[trigger] cycles@[k]@),
            st.keep@ == apart_mask(g, cycles@),
            finish_ok(g, st),
            forall|v: int| 0 <= v < n && st.keep@[v] ==> !#[trigger] st.on_stack@[v],
            forall|t: int| 0 <= t < s && g[t].len() > 0 ==> #[trigger] st.visited@[t],
        decreases n - s,
    {
        proof {
            assert(g[s as int] == adj@[s as int]@);
        }
        if adj[s].len() > 0 && !st.visited[s] {
            let ghost before = st;
            st.path.clear();
            st.on_stack = all_false(n);
            let ghost reset = st;
            proof {
                assert(finish_ok(g, st));
                assert(stack_ok(g, st));
                lemma_apart_closed(g, cycles@);
            }
            let ghost fuel = unvisited(st.visited@);
            let ghost prior = cycle_views(cycles@);
            proof {
                assert(reset.on_stack@ =~= Seq::new(n as nat, |i: int| false));
                assert(reset.path@ =~= Seq::<usize>::empty());
                assert(reset.visited@ == before.visited@);
            }
            match dfs_cycle(s, adj, &mut st, Ghost(fuel)) {
                Some(c) => {
                    let ghost old_cycles = cycles@;
                    cycles.push(c);
                    proof {
                        assert(cycle_views(cycles@) =~= prior.push(c@));
                        assert(!reset.path@.contains(c@[0]));
                        let c0 = c@[0] as int;
                        let m = choose|m: nat| #[trigger] reach(g, s as int, c0, m);
                        lemma_reach_is_connected(g, s as int, c0, m);
                        let mask = apart_mask(g, cycles@);
                        assert forall|v: int| 0 <= v < n && mask[v] implies !reaches(g, s as int, v) && reset.keep@[v] by {
                            assert(cycles@[old_cycles.len() as int] == c);
                            if reaches(g, s as int, v) {
                                let mv = choose|mv: nat| #[trigger] reach(g, s as int, v, mv);
                                assert(connected(g, s as int, c0));
                                lemma_reach_connected(g, s as int, v, c0, mv);
                                assert(!connected(g, v, cycles@[old_cycles.len() as int]@[0] as int));
                            }
                            assert forall|q: int| 0 <= q < old_cycles.len() implies !#[trigger] connected(g, v, old_cycles[q]@[0] as int) by {
                                assert(cycles@[q] == old_cycles[q]);
                            }
                        }
                    }
                    st.keep = Ghost(apart_mask(g, cycles@));
                    proof {
                        let mask = apart_mask(g, cycles@);
                        assert forall|v: int| 0 <= v < n && st.keep@[v] implies
                            ((st.visited@[v] && !st.on_stack@[v]) <==> #[trigger] st.fin@[v] >= 0) by {
                            assert(!reaches(g, s as int, v));
                            assert(st.visited@[v] == reset.visited@[v]);
                            assert(st.on_stack@[v] == reset.on_stack@[v]);
                            assert(st.fin@[v] == reset.fin@[v]);
                        }
                        lemma_apart_closed(g, cycles@);
                        assert forall|v: int, j: int| 0 <= v < n && st.keep@[v] && st.fin@[v] >= 0 && 0 <= j < g[v].len()
                            implies 0 <= #[trigger] st.fin@[g[v][j] as int] < st.fin@[v] by {
                            assert(!reaches(g, s as int, v));
                            assert(st.fin@[v] == reset.fin@[v]);
                            let w = g[v][j] as int;
                            assert(mask[w]);
                            assert(!reaches(g, s as int, w));
                            assert(st.fin@[w] == reset.fin@[w]);
                        }
                        assert(finish_ok(g, st));
                        assert forall|v: int| 0 <= v < n && st.keep@[v] implies !#[trigger] st.on_stack@[v] by {
                            assert(!reaches(g, s as int, v));
                            assert(st.on_stack@[v] == reset.on_stack@[v]);
                        }
                    }
                },
                None => {
                    proof {
                        assert(cycle_views(cycles@) =~= prior);
                        if !reset.keep@[s as int] {
                            assert forall|v: int| 0 <= v < n && st.keep@[v] implies !reaches(g, s as int, v) by {
                                if reaches(g, s as int, v) {
                                    let mv = choose|mv: nat| #[trigger] reach(g, s as int, v, mv);
                                    let q = choose|q: int| 0 <= q < cycles@.len() && #[trigger] connected(g, s as int, cycles@[q]@[0] as int);
                                    lemma_reach_connected(g, s as int, v, cycles@[q]@[0] as int, mv);
                                }
                            }
                            assert forall|v: int| 0 <= v < n && st.keep@[v] implies
                                ((st.visited@[v] && !st.on_stack@[v]) <==> #[trigger] st.fin@[v] >= 0) by {
                                assert(st.visited@[v] == reset.visited@[v]);
                                assert(st.on_stack@[v] == reset.on_stack@[v]);
                                assert(st.fin@[v] == reset.fin@[v]);
                            }
                            lemma_apart_closed(g, cycles@);
                            assert forall|v: int, j: int| 0 <= v < n && st.keep@[v] && st.fin@[v] >= 0 && 0 <= j < g[v].len()
                                implies 0 <= #[trigger] st.fin@[g[v][j] as int] < st.fin@[v] by {
                                assert(st.fin@[v] == reset.fin@[v]);
                                let w = g[v][j] as int;
                                assert(st.keep@[w]);
                                assert(st.fin@[w] == reset.fin@[w]);
                            }
                            assert(finish_ok(g, st));
                        }
                        assert forall|v: int| 0 <= v < n && st.keep@[v] implies !#[trigger] st.on_stack@[v] by {
                            assert(!reset.on_stack@[v]);
                        }
                    }
                },
            }
            proof {
                let res = dfs_run(g, fuel, s, before.visited@, Seq::new(n as nat, |i: int| false), Seq::empty());
                let here = if res.0 is Some { seq![res.0->0] } else { Seq::<Seq<usize>>::empty() };
                assert(scan(g, s as nat, before.visited@) == here + scan(g, (s + 1) as nat, st.visited@));
                assert(cycle_views(cycles@) =~= prior + here);
                assert(cycle_views(cycles@) + scan(g, (s + 1) as nat, st.visited@) =~= prior + scan(g, s as nat, before.visited@));
                assert forall|t: int| 0 <= t < s + 1 && g[t].len() > 0 implies #[trigger] st.visited@[t] by {
                    if t < s {
                        assert(reset.visited@[t]);
                    }
                }
            }
        } else {
            proof {
                assert(scan(g, s as nat, st.visited@) == scan(g, (s + 1) as nat, st.visited@));
            }
        }
        s += 1;
    }
    proof {
        lemma_apart_closed(g, cycles@);
        assert forall|v: int| 0 <= v < n && st.keep@[v] && g[v].len() > 0 implies #[trigger] st.fin@[v] >= 0 by {
            assert(st.visited@[v]);
            assert(!st.on_stack@[v]);
        }
        assert forall|c: Seq<usize>| #[trigger] is_index_cycle(g, c) implies exists|q: int|
            0 <= q < cycles@.len() && #[trigger] connected(g, c[0] as int, cycles@[q]@[0] as int) by {
            lemma_cycle_not_kept(g, st.keep@, st.fin@, c);
            assert(arc(g, c[0] as int, c[0int + 1] as int));
            assert(!apart(g, cycles@, c[0] as int));
        }
        if cycles@.len() == 0 {
            assert forall|c: Seq<usize>| !is_index_cycle(g, c) by {
                if is_index_cycle(g, c) {
                    lemma_cycle_not_kept(g, st.keep@, st.fin@, c);
                }
            }
        }
    }
    cycles
}

/// The `depends_on` arcs between openpfe ids, in edge order: one for each
/// edge named `depends_on` whose two endpoints both carry an id.
pub open spec fn dep_pairs(edges: Seq<EdgeRecord>, uuids: Map<u64, Seq<char>>) -> Seq<(Seq<char>, Seq<char>)>
    decreases edges.len(),
{
    if edges.len() == 0 {
        Seq::empty()
    } else {
        let prev = dep_pairs(edges.drop_last(), uuids);
        let e = edges.last();
        if e.edge_type@ == "depends_on"@ && uuids.contains_key(e.src) && uuids.contains_key(e.dst) {
            prev.push((uuids[e.src], uuids[e.dst]))
        } else {
            prev
        }
    }
}

/// `a` depends on `b`.
pub open spec fn depends(pairs: Seq<(Seq<char>, Seq<char>)>, a: Seq<char>, b: Seq<char>) -> bool {
    exists|k: int| 0 <= k < pairs.len() && #[trigger] pairs[k] == (a, b)
}

/// `c` runs from an id back to itself along dependencies, at least one step.
pub open spec fn is_dependency_cycle(pairs: Seq<(Seq<char>, Seq<char>)>, c: Seq<Seq<char>>) -> bool {
    &&& c.len() >= 2
    &&& c[0] == c.last()
    &&& forall|i: int| 0 <= i < c.len() - 1 ==> #[trigger] depends(pairs, c[i], c[i + 1])
}

/// `a` and `b` are joined by at most `n` dependencies taken either way.
pub open spec fn dep_link(pairs: Seq<(Seq<char>, Seq<char>)>, a: Seq<char>, b: Seq<char>, n: nat) -> bool
    decreases n,
{
    a == b || (n > 0 && exists|w: Seq<char>| #![trigger depends(pairs, a, w)] #![trigger depends(pairs, w, a)]
        (depends(pairs, a, w) || depends(pairs, w, a)) && dep_link(pairs, w, b, (n - 1) as nat))
}

/// `a` and `b` lie in one connected group of ids, dependencies taken
/// either way.
pub open spec fn dep_connected(pairs: Seq<(Seq<char>, Seq<char>)>, a: Seq<char>, b: Seq<char>) -> bool {
    exists|n: nat| #[trigger] dep_link(pairs, a, b, n)
}

/// The texts of a list of strings.
pub open spec fn texts(v: Seq<String>) -> Seq<Seq<char>> {
    v.map_values(|s: String| s@)
}

/// The position of `x` among `names`.
spec fn name_index(names: Seq<String>, x: Seq<char>) -> int {
    choose|a: int| 0 <= a < names.len() && #[trigger] names[a]@ == x
}

/// The `depends_on` arcs between openpfe ids, as id pairs.
fn collect_dep_pairs(index: &IdIndex, edges: &Vec<EdgeRecord>) -> (r: Vec<(String, String)>)
    ensures
        r@.map_values(|p: (String, String)| (p.0@, p.1@)) == dep_pairs(edges@, index.uuids()),
{
    proof {
        reveal_strlit("depends_on");
    }
    let mut out: Vec<(String, String)> = Vec::new();
    let mut i: usize = 0;
    while i < edges.len()
        invariant
            i <= edges@.len(),
            out@.map_values(|p: (String, String)| (p.0@, p.1@)) == dep_pairs(edges@.take(i as int), index.uuids()),
        decreases edges@.len() - i,
    {
        let e = &edges[i];
        proof {
            assert(edges@.take(i as int + 1).drop_last() =~= edges@.take(i as int));
            assert(edges@.take(i as int + 1).last() == edges@[i as int]);
        }
        if str_eq(e.edge_type.as_str(), rel::DEPENDS_ON) {
            match (index.uuid_of(e.src), index.uuid_of(e.dst)) {
                (Some(a), Some(b)) => {
                    let ghost before = out@;
                    out.push((a, b));
                    assert(out@.map_values(|p: (String, String)| (p.0@, p.1@)) =~= before.map_values(|p: (String, String)| (p.0@, p.1@)).push((a@, b@)));
                },
                _ => {},
            }
        }
        i += 1;
    }
    assert(edges@.take(edges@.len() as int) =~= edges@);
    out
}

/// The position of `x` among `names`, adding it (with an empty successor
/// list) when it is not there yet.
fn intern(names: &mut Vec<String>, adj: &mut Vec<Vec<usize>>, x: &String) -> (r: usize)
    requires
        old(names)@.len() == old(adj)@.len(),
    ensures
        texts(final(names)@) == add_name((texts(old(names)@), lists(old(adj)@)), x@).0,
        lists(final(adj)@) == add_name((texts(old(names)@), lists(old(adj)@)), x@).1,
        r < final(names)@.len(),
        final(names)@[r as int]@ == x@,
        old(names)@.len() <= final(names)@.len() <= old(names)@.len() + 1,
        final(names)@.len() == final(adj)@.len(),
        forall|a: int| 0 <= a < old(names)@.len() ==> #[trigger] final(names)@[a] == old(names)@[a],
        forall|a: int| 0 <= a < old(adj)@.len() ==> #[trigger] final(adj)@[a] == old(adj)@[a],
        final(names)@.len() == old(names)@.len() + 1 ==> {
            &&& final(adj)@.last()@.len() == 0
            &&& forall|a: int| 0 <= a < old(names)@.len() ==> #[trigger] old(names)@[a]@ != x@
        },
{
    let mut i: usize = 0;
    while i < names.len()
        invariant
            i <= names@.len(),
            names@ == old(names)@,
            adj@ == old(adj)@,
            names@.len() == adj@.len(),
            forall|a: int| 0 <= a < i ==> #[trigger] names@[a]@ != x@,
        decreases names@.len() - i,
    {
        if str_eq(names[i].as_str(), x.as_str()) {
            proof {
                assert(texts(names@)[i as int] == x@);
            }
            return i;
        }
        i += 1;
    }
    proof {
        assert(!texts(names@).contains(x@)) by {
            if texts(names@).contains(x@) {
                let k = choose|k: int| 0 <= k < texts(names@).len() && texts(names@)[k] == x@;
                assert(names@[k]@ == x@);
            }
        }
    }
    let ghost n0 = names@;
    let ghost a0 = adj@;
    names.push(x.clone());
    adj.push(Vec::new());
    proof {
        assert(texts(names@) =~= texts(n0).push(x@));
        assert(lists(adj@) =~= lists(a0).push(Seq::<usize>::empty()));
    }
    i
}

/// The position of name `x` among `names`.
pub open spec fn pos_of(names: Seq<Seq<char>>, x: Seq<char>) -> int {
    choose|a: int| 0 <= a < names.len() && names[a] == x
}

/// `g` with name `x` added, with no successors, unless it is there already.
pub open spec fn add_name(g: (Seq<Seq<char>>, Seq<Seq<usize>>), x: Seq<char>) -> (Seq<Seq<char>>, Seq<Seq<usize>>) {
    if g.0.contains(x) {
        g
    } else {
        (g.0.push(x), g.1.push(Seq::empty()))
    }
}

/// The dependency graph of `ps` over index numbers: the ids in order of
/// first mention, and for each the positions of the ids it depends on, in
/// the order of the pairs.
pub open spec fn dep_graph(ps: Seq<(Seq<char>, Seq<char>)>) -> (Seq<Seq<char>>, Seq<Seq<usize>>)
    decreases ps.len(),
{
    if ps.len() == 0 {
        (Seq::empty(), Seq::empty())
    } else {
        let p = ps.last();
        let g = add_name(add_name(dep_graph(ps.drop_last()), p.0), p.1);
        let a = pos_of(g.0, p.0);
        (g.0, g.1.update(a, g.1[a].push(pos_of(g.0, p.1) as usize)))
    }
}

/// Index cycles `cs` written with the names of `names`.
pub open spec fn named_cycles(names: Seq<Seq<char>>, cs: Seq<Seq<usize>>) -> Seq<Seq<Seq<char>>> {
    cs.map_values(|c: Seq<usize>| c.map_values(|t: usize| names[t as int]))
}

/// The cycles the searches over the dependency graph of `ps` report: one
/// search from each id with dependencies not yet visited, in order of first
/// mention, each contributing the cycle it finds, if any.
pub open spec fn reported_cycles(ps: Seq<(Seq<char>, Seq<char>)>) -> Seq<Seq<Seq<char>>> {
    let g = dep_graph(ps);
    named_cycles(g.0, scan(g.1, 0, Seq::new(g.1.len(), |i: int| false)))
}

proof fn lemma_pos_of(names: Seq<Seq<char>>, x: Seq<char>, a: int)
    requires
        forall|u: int, v: int| 0 <= u < v < names.len() ==> names[u] != names[v],
        0 <= a < names.len(),
        names[a] == x,
    ensures
        pos_of(names, x) == a,
{
    let b = pos_of(names, x);
    assert(0 <= b < names.len() && names[b] == x);
    if b < a {
        assert(names[b] != names[a]);
    } else if a < b {
        assert(names[a] != names[b]);
    }
}

/// `names` are distinct, `adj` is a graph over them, and its arcs are
/// exactly the dependencies of `pairs`.
spec fn interned(names: Seq<String>, adj: Seq<Vec<usize>>, pairs: Seq<(Seq<char>, Seq<char>)>) -> bool {
    &&& names.len() == adj.len()
    &&& forall|a: int, b: int| 0 <= a < b < names.len() ==> names[a]@ != names[b]@
    &&& closed_graph(lists(adj))
    &&& forall|a: int, j: int| 0 <= a < adj.len() && 0 <= j < adj[a]@.len()
        ==> #[trigger] depends(pairs, names[a]@, names[adj[a]@[j] as int]@)
    &&& forall|k: int| #![trigger pairs[k]] 0 <= k < pairs.len() ==> {
        &&& exists|a: int| 0 <= a < names.len() && #[trigger] names[a]@ == pairs[k].0
        &&& exists|b: int| 0 <= b < names.len() && #[trigger] names[b]@ == pairs[k].1
    }
    &&& forall|a: int, b: int| 0 <= a < names.len() && 0 <= b < names.len()
        && #[trigger] depends(pairs, names[a]@, names[b]@) ==> adj[a]@.contains(b as usize)
}

/// Cycles among `depends_on` edges between openpfe ids. Each reported
/// cycle starts and ends at the same id and follows dependencies; every
/// dependency cycle lies in a connected group of ids (dependencies taken
/// either way) that holds a reported cycle, so none is reported exactly
/// when there is no cycle. The reported cycles are those the searches from
/// each id, in order of first mention, find (`reported_cycles`).
pub fn dependency_cycles(index: &IdIndex, edges: &Vec<EdgeRecord>) -> (r: Vec<Vec<String>>)
    ensures
        forall|k: int| 0 <= k < r@.len()
            ==> is_dependency_cycle(dep_pairs(edges@, index.uuids()), texts(#[trigger] r@[k]@)),
        r@.len() == 0 <==> forall|c: Seq<Seq<char>>| !is_dependency_cycle(dep_pairs(edges@, index.uuids()), c),
        r@.map_values(|c: Vec<String>| texts(c@)) == reported_cycles(dep_pairs(edges@, index.uuids())),
        forall|cy: Seq<Seq<char>>| #[trigger] is_dependency_cycle(dep_pairs(edges@, index.uuids()), cy)
            ==> exists|q: int| 0 <= q < r@.len()
                && #[trigger] dep_connected(dep_pairs(edges@, index.uuids()), cy[0], r@[q]@[0]@),
{
    let pairs = collect_dep_pairs(index, edges);
    let ghost ps = dep_pairs(edges@, index.uuids());
    let mut names: Vec<String> = Vec::new();
    let mut adj: Vec<Vec<usize>> = Vec::new();
    let mut i: usize = 0;
    while i < pairs.len()
        invariant
            i <= pairs@.len(),
            ps == pairs@.map_values(|p: (String, String)| (p.0@, p.1@)),
            interned(names@, adj@, ps.take(i as int)),
            (texts(names@), lists(adj@)) == dep_graph(ps.take(i as int)),
        decreases pairs@.len() - i,
    {
        let ghost pre_names = names@;
        let ghost pre_adj = adj@;
        let ghost p_old = ps.take(i as int);
        let ghost p_new = ps.take(i as int + 1);
        let a = intern(&mut names, &mut adj, &pairs[i].0);
        let b = intern(&mut names, &mut adj, &pairs[i].1);
        let ghost mid_adj = adj@;
        let mut row = adj[a].clone();
        row.push(b);
        adj.set(a, row);
        proof {
            assert(ps[i as int] == (pairs@[i as int].0@, pairs@[i as int].1@));
            assert(p_new =~= p_old.push(ps[i as int]));
            lemma_interned_step(pre_names, pre_adj, p_old, names@, mid_adj, adj@, a, b, ps[i as int]);
            let p = ps[i as int];
            assert(p_new.drop_last() =~= p_old);
            assert(p_new.last() == p);
            let g = add_name(add_name(dep_graph(p_old), p.0), p.1);
            assert(g == (texts(names@), lists(mid_adj)));
            let tn = texts(names@);
            assert forall|u: int, v: int| 0 <= u < v < tn.len() implies tn[u] != tn[v] by {
                assert(names@[u]@ != names@[v]@);
            }
            lemma_pos_of(tn, p.0, a as int);
            lemma_pos_of(tn, p.1, b as int);
            assert(lists(adj@) =~= lists(mid_adj).update(a as int, lists(mid_adj)[a as int].push(b)));
        }
        i += 1;
    }
    proof {
        assert(ps.take(pairs@.len() as int) =~= ps);
    }
    let found = index_cycles(&adj);
    let mut out: Vec<Vec<String>> = Vec::new();
    let mut k: usize = 0;
    while k < found.len()
        invariant
            k <= found@.len(),
            out@.len() == k,
            interned(names@, adj@, ps),
            forall|q: int| 0 <= q < found@.len() ==> is_index_cycle(lists(adj@), #[trigger] found@[q]@),
            forall|q: int| 0 <= q < k ==> is_dependency_cycle(ps, texts(#[trigger] out@[q]@)),
            forall|q: int| 0 <= q < k ==> texts(#[trigger] out@[q]@)
                == found@[q]@.map_values(|t: usize| texts(names@)[t as int]),
        decreases found@.len() - k,
    {
        let c = &found[k];
        let mut named: Vec<String> = Vec::new();
        let mut m: usize = 0;
        while m < c.len()
            invariant
                m <= c@.len(),
                interned(names@, adj@, ps),
                is_index_cycle(lists(adj@), c@),
                named@.len() == m,
                forall|t: int| 0 <= t < m ==> #[trigger] named@[t]@ == names@[c@[t] as int]@,
            decreases c@.len() - m,
        {
            proof {
                if m + 1 < c@.len() {
                    assert(arc(lists(adj@), c@[m as int] as int, c@[m as int + 1] as int));
                } else {
                    assert(arc(lists(adj@), c@[m as int - 1] as int, c@[(m as int - 1) + 1] as int));
                    let row = lists(adj@)[c@[m as int - 1] as int];
                    let j = choose|j: int| 0 <= j < row.len() && #[trigger] row[j] == c@[m as int];
                    assert(lists(adj@)[c@[m as int - 1] as int][j] < adj@.len());
                }
            }
            named.push(names[c[m]].clone());
            m += 1;
        }
        proof {
            lemma_named_cycle(names@, adj@, ps, c@, named@);
            assert forall|t: int| 0 <= t < c@.len() implies #[trigger] texts(named@)[t] == texts(names@)[c@[t] as int] by {
                if t + 1 < c@.len() {
                    assert(arc(lists(adj@), c@[t] as int, c@[t + 1] as int));
                } else {
                    assert(arc(lists(adj@), c@[t - 1] as int, c@[(t - 1) + 1] as int));
                    let row = lists(adj@)[c@[t - 1] as int];
                    let j = choose|j: int| 0 <= j < row.len() && #[trigger] row[j] == c@[t];
                    assert(lists(adj@)[c@[t - 1] as int][j] < adj@.len());
                }
                assert(named@[t]@ == names@[c@[t] as int]@);
            }
            assert(texts(named@) =~= c@.map_values(|t: usize| texts(names@)[t as int]));
        }
        let ghost before_out = out@;
        out.push(named);
        proof {
            assert forall|q: int| 0 <= q < k + 1 implies texts(#[trigger] out@[q]@)
                == found@[q]@.map_values(|t: usize| texts(names@)[t as int]) by {
                if q < k {
                    assert(out@[q] == before_out[q]);
                }
            }
        }
        k += 1;
    }
    let name_count = names.len();
    proof {
        assert(dep_graph(ps) == (texts(names@), lists(adj@)));
        assert(lists(adj@).len() == adj@.len());
        assert(out@.map_values(|c: Vec<String>| texts(c@)) =~= named_cycles(texts(names@), cycle_views(found@)));

        assert forall|cy: Seq<Seq<char>>| #[trigger] is_dependency_cycle(ps, cy) implies exists|q: int| 0 <= q < out@.len()
            && #[trigger] dep_connected(ps, cy[0], out@[q]@[0]@) by {
            lemma_index_cycle_of(names@, adj@, ps, cy);
            let d = cy.map_values(|x: Seq<char>| name_index(names@, x) as usize);
            assert(is_index_cycle(lists(adj@), d));
            let q = choose|q: int| 0 <= q < found@.len() && #[trigger] connected(lists(adj@), d[0] as int, found@[q]@[0] as int);
            let m = choose|m: nat| #[trigger] link(lists(adj@), d[0] as int, found@[q]@[0] as int, m);
            assert(arc(lists(adj@), d[0] as int, d[0int + 1] as int));
            lemma_link_names(names@, adj@, ps, d[0] as int, found@[q]@[0] as int, m);
            assert(names@[d[0] as int]@ == cy[0]);
            assert(is_index_cycle(lists(adj@), found@[q]@));
            assert(texts(out@[q]@) == found@[q]@.map_values(|t: usize| texts(names@)[t as int]));
            assert(texts(out@[q]@)[0] == out@[q]@[0]@);
            assert(dep_connected(ps, cy[0], out@[q]@[0]@));
        }
        if out@.len() == 0 {
            assert forall|cy: Seq<Seq<char>>| !is_dependency_cycle(ps, cy) by {
                if is_dependency_cycle(ps, cy) {
                    lemma_index_cycle_of(names@, adj@, ps, cy);
                }
            }
        } else {
            assert(is_dependency_cycle(ps, texts(out@[0]@)));
        }
    }
    out
}

proof fn lemma_link_names(
    names: Seq<String>,
    adj: Seq<Vec<usize>>,
    ps: Seq<(Seq<char>, Seq<char>)>,
    x: int,
    y: int,
    n: nat,
)
    requires
        interned(names, adj, ps),
        names.len() <= usize::MAX,
        0 <= x < names.len(),
        link(lists(adj), x, y, n),
    ensures
        0 <= y < names.len(),
        dep_link(ps, names[x]@, names[y]@, n),
    decreases n,
{
    let g = lists(adj);
    if x != y {
        let w = choose|w: int| #![trigger arc(g, x, w)] #![trigger arc(g, w, x)]
            0 <= w < g.len() && (arc(g, x, w) || arc(g, w, x)) && link(g, w, y, (n - 1) as nat);
        if arc(g, x, w) {
            let row = g[x];
            let j = choose|j: int| 0 <= j < row.len() && #[trigger] row[j] == w as usize;
            assert(adj[x]@[j] == w as usize);
            assert(g[x][j] < g.len());
            assert((w as usize) as int == w);
            assert(adj[x]@[j] as int == w);
            assert(depends(ps, names[x]@, names[adj[x]@[j] as int]@));
            lemma_link_names(names, adj, ps, w, y, (n - 1) as nat);
            assert(depends(ps, names[x]@, names[w]@));
        } else {
            let row = g[w];
            let j = choose|j: int| 0 <= j < row.len() && #[trigger] row[j] == x as usize;
            assert(adj[w]@[j] == x as usize);
            assert((x as usize) as int == x);
            assert(adj[w]@[j] as int == x);
            assert(depends(ps, names[w]@, names[adj[w]@[j] as int]@));
            lemma_link_names(names, adj, ps, w, y, (n - 1) as nat);
            assert(depends(ps, names[w]@, names[x]@));
        }
        assert(dep_link(ps, names[x]@, names[y]@, n));
    }
}

proof fn lemma_interned_step(
    names0: Seq<String>,
    adj0: Seq<Vec<usize>>,
    p: Seq<(Seq<char>, Seq<char>)>,
    names1: Seq<String>,
    adj1: Seq<Vec<usize>>,
    adj2: Seq<Vec<usize>>,
    a: usize,
    b: usize,
    pair: (Seq<char>, Seq<char>),
)
    requires
        interned(names0, adj0, p),
        names1.len() == adj1.len(),
        names0.len() <= names1.len() <= names0.len() + 2,
        a < names1.len(),
        b < names1.len(),
        names1[a as int]@ == pair.0,
        names1[b as int]@ == pair.1,
        forall|x: int| 0 <= x < names0.len() ==> #[trigger] names1[x] == names0[x],
        forall|x: int| 0 <= x < adj0.len() ==> #[trigger] adj1[x] == adj0[x],
        forall|x: int| adj0.len() <= x < adj1.len() ==> #[trigger] adj1[x]@.len() == 0,
        forall|x: int, y: int| 0 <= x < y < names1.len() ==> names1[x]@ != names1[y]@,
        adj2.len() == adj1.len(),
        forall|x: int| 0 <= x < adj1.len() && x != a ==> #[trigger] adj2[x] == adj1[x],
        adj2[a as int]@ == adj1[a as int]@.push(b),
    ensures
        interned(names1, adj2, p.push(pair)),
{
    let q = p.push(pair);
    assert forall|x: int, j: int| 0 <= x < adj2.len() && 0 <= j < lists(adj2)[x].len()
        implies #[trigger] lists(adj2)[x][j] < lists(adj2).len() by {
        if x == a as int && j == adj1[x]@.len() {
        } else if x < adj0.len() {
            assert(lists(adj0)[x][j] < lists(adj0).len());
        }
    }
    assert forall|x: int, y: int| 0 <= x < names1.len() && 0 <= y < names1.len()
        && #[trigger] depends(q, names1[x]@, names1[y]@) implies adj2[x]@.contains(y as usize) by {
        let k = choose|k: int| 0 <= k < q.len() && #[trigger] q[k] == (names1[x]@, names1[y]@);
        if k == p.len() {
            assert(names1[x]@ == names1[a as int]@);
            assert(x == a as int);
            assert(names1[y]@ == names1[b as int]@);
            assert(y == b as int);
            assert(adj2[x]@[adj1[x]@.len() as int] == b);
        } else {
            assert(p[k] == q[k]);
            let pk = p[k];
            let x0 = choose|x0: int| 0 <= x0 < names0.len() && #[trigger] names0[x0]@ == pk.0;
            let y0 = choose|y0: int| 0 <= y0 < names0.len() && #[trigger] names0[y0]@ == pk.1;
            assert(names1[x0] == names0[x0]);
            assert(names1[y0] == names0[y0]);
            assert(x0 == x);
            assert(y0 == y);
            assert(depends(p, names0[x]@, names0[y]@));
            assert(adj0[x]@.contains(y as usize));
            let j = choose|j: int| 0 <= j < adj0[x]@.len() && adj0[x]@[j] == y as usize;
            assert(adj2[x]@[j] == y as usize);
        }
    }
    assert forall|x: int, j: int| 0 <= x < adj2.len() && 0 <= j < adj2[x]@.len()
        implies #[trigger] depends(q, names1[x]@, names1[adj2[x]@[j] as int]@) by {
        if x == a as int && j == adj1[x]@.len() {
            assert(q[p.len() as int] == (names1[x]@, names1[adj2[x]@[j] as int]@));
        } else {
            assert(x < adj0.len());
            assert(adj2[x]@[j] == adj0[x]@[j]);
            assert(depends(p, names0[x]@, names0[adj0[x]@[j] as int]@));
            let k = choose|k: int| 0 <= k < p.len() && #[trigger] p[k] == (names0[x]@, names0[adj0[x]@[j] as int]@);
            assert(adj0[x]@[j] < adj0.len()) by {
                assert(lists(adj0)[x][j] < lists(adj0).len());
            }
            assert(q[k] == p[k]);
        }
    }
    assert forall|k: int| #![trigger q[k]] 0 <= k < q.len() implies {
        &&& exists|x: int| 0 <= x < names1.len() && #[trigger] names1[x]@ == q[k].0
        &&& exists|y: int| 0 <= y < names1.len() && #[trigger] names1[y]@ == q[k].1
    } by {
        if k == p.len() {
            assert(names1[a as int]@ == q[k].0);
            assert(names1[b as int]@ == q[k].1);
        } else {
            let x0 = choose|x0: int| 0 <= x0 < names0.len() && #[trigger] names0[x0]@ == p[k].0;
            let y0 = choose|y0: int| 0 <= y0 < names0.len() && #[trigger] names0[y0]@ == p[k].1;
            assert(names1[x0] == names0[x0]);
            assert(names1[y0] == names0[y0]);
            assert(q[k] == p[k]);
        }
    }
}

proof fn lemma_named_cycle(
    names: Seq<String>,
    adj: Seq<Vec<usize>>,
    ps: Seq<(Seq<char>, Seq<char>)>,
    c: Seq<usize>,
    named: Seq<String>,
)
    requires
        interned(names, adj, ps),
        is_index_cycle(lists(adj), c),
        named.len() == c.len(),
        forall|t: int| 0 <= t < c.len() ==> #[trigger] named[t]@ == names[c[t] as int]@,
    ensures
        is_dependency_cycle(ps, texts(named)),
{
    let t = texts(named);
    assert forall|i: int| 0 <= i < t.len() - 1 implies #[trigger] depends(ps, t[i], t[i + 1]) by {
        assert(arc(lists(adj), c[i] as int, c[i + 1] as int));
        let row = lists(adj)[c[i] as int];
        let j = choose|j: int| 0 <= j < row.len() && #[trigger] row[j] == c[i + 1];
        assert(adj[c[i] as int]@[j] == c[i + 1]);
        assert(depends(ps, names[c[i] as int]@, names[adj[c[i] as int]@[j] as int]@));
    }
    assert(t[0] == named[0]@);
    assert(t.last() == named[named.len() - 1]@);
}

proof fn lemma_index_cycle_of(
    names: Seq<String>,
    adj: Seq<Vec<usize>>,
    ps: Seq<(Seq<char>, Seq<char>)>,
    cy: Seq<Seq<char>>,
)
    requires
        interned(names, adj, ps),
        is_dependency_cycle(ps, cy),
        names.len() <= usize::MAX,
    ensures
        is_index_cycle(lists(adj), cy.map_values(|x: Seq<char>| name_index(names, x) as usize)),
        forall|i: int| 0 <= i < cy.len() ==> 0 <= #[trigger] name_index(names, cy[i]) < names.len()
            && names[name_index(names, cy[i])]@ == cy[i],
{
    let d = cy.map_values(|x: Seq<char>| name_index(names, x) as usize);
    assert forall|i: int| 0 <= i < cy.len() implies 0 <= #[trigger] name_index(names, cy[i]) < names.len()
        && names[name_index(names, cy[i])]@ == cy[i] by {
        if i < cy.len() - 1 {
            assert(depends(ps, cy[i], cy[i + 1]));
            let k = choose|k: int| 0 <= k < ps.len() && #[trigger] ps[k] == (cy[i], cy[i + 1]);
            let x = choose|x: int| 0 <= x < names.len() && #[trigger] names[x]@ == ps[k].0;
        } else {
            assert(depends(ps, cy[i - 1], cy[(i - 1) + 1]));
            let k = choose|k: int| 0 <= k < ps.len() && #[trigger] ps[k] == (cy[i - 1], cy[i]);
            let y = choose|y: int| 0 <= y < names.len() && #[trigger] names[y]@ == ps[k].1;
        }
    }
    assert forall|i: int| 0 <= i < d.len() - 1 implies #[trigger] arc(lists(adj), d[i] as int, d[i + 1] as int) by {
        let x = name_index(names, cy[i]);
        let y = name_index(names, cy[i + 1]);
        assert(0 <= x < names.len() && names[x]@ == cy[i]);
        assert(0 <= y < names.len() && names[y]@ == cy[i + 1]);
        assert(depends(ps, names[x]@, names[y]@));
        assert(adj[x]@.contains(y as usize));
        assert(d[i] == x as usize);
        assert(d[i + 1] == y as usize);
    }
    assert(d[0] == d.last());
}

} // verus!
