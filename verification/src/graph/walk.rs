//! Neighbours of a node and the bounded subgraph walk around a cluster.

use vstd::prelude::*;
use crate::graph::index::IdIndex;
use crate::graph::schema::{is_subgraph_edge_type, rel, subgraph_edge_type};
use crate::graph::types::{EdgeRecord, GraphError, SubgraphLimits};
use crate::graph::cycles::texts;
use crate::text::{concat, str_eq};

verus! {

/// The other end of `e` seen from store node `nid`: its target when
/// looking `outgoing`, its source otherwise; `None` when `e` does not
/// leave (or enter) `nid`.
pub open spec fn other_end(e: EdgeRecord, nid: u64, outgoing: bool) -> Option<u64> {
    if outgoing && e.src == nid {
        Some(e.dst)
    } else if !outgoing && e.dst == nid {
        Some(e.src)
    } else {
        None
    }
}

/// Whether relationship name `t` passes the optional list of names.
pub open spec fn type_allowed(t: Seq<char>, types: Option<Seq<Seq<char>>>) -> bool {
    match types {
        None => true,
        Some(ts) => ts.contains(t),
    }
}

/// The ids met along the edges at `nid`, in edge order, repeats included:
/// one for each edge whose relationship name passes `types` and whose
/// other end carries an id.
pub open spec fn neighbor_trail(
    edges: Seq<EdgeRecord>,
    nid: u64,
    types: Option<Seq<Seq<char>>>,
    outgoing: bool,
    uuids: Map<u64, Seq<char>>,
) -> Seq<Seq<char>>
    decreases edges.len(),
{
    if edges.len() == 0 {
        Seq::empty()
    } else {
        let prev = neighbor_trail(edges.drop_last(), nid, types, outgoing, uuids);
        let e = edges.last();
        match other_end(e, nid, outgoing) {
            Some(o) => if type_allowed(e.edge_type@, types) && uuids.contains_key(o) {
                prev.push(uuids[o])
            } else {
                prev
            },
            None => prev,
        }
    }
}

/// `s` without repeats, each element where it first occurs.
pub open spec fn first_occurrences(s: Seq<Seq<char>>) -> Seq<Seq<char>>
    decreases s.len(),
{
    if s.len() == 0 {
        Seq::empty()
    } else {
        let d = first_occurrences(s.drop_last());
        if d.contains(s.last()) {
            d
        } else {
            d.push(s.last())
        }
    }
}

/// The texts of a list of names.
pub open spec fn strs(ts: Seq<&str>) -> Seq<Seq<char>> {
    ts.map_values(|t: &str| t@)
}

/// The relationship-name list as texts.
pub open spec fn type_texts(types: Option<&[&str]>) -> Option<Seq<Seq<char>>> {
    match types {
        None => None,
        Some(ts) => Some(strs(ts@)),
    }
}

fn type_passes(t: &str, types: Option<&[&str]>) -> (r: bool)
    ensures
        r == type_allowed(t@, type_texts(types)),
{
    match types {
        None => true,
        Some(ts) => {
            let ghost tv = strs(ts@);
            let mut i: usize = 0;
            while i < ts.len()
                invariant
                    i <= ts@.len(),
                    tv == strs(ts@),
                    type_texts(types) == Some(tv),
                    forall|k: int| 0 <= k < i ==> tv[k] != t@,
                decreases ts@.len() - i,
            {
                if str_eq(ts[i], t) {
                    assert(tv[i as int] == t@);
                    assert(tv.contains(t@));
                    return true;
                }
                i += 1;
            }
            proof {
                if tv.contains(t@) {
                    let k = choose|k: int| 0 <= k < tv.len() && tv[k] == t@;
                    assert(false);
                }
            }
            false
        },
    }
}

fn contains_text(v: &Vec<String>, x: &str) -> (r: bool)
    ensures
        r == texts(v@).contains(x@),
{
    let mut i: usize = 0;
    while i < v.len()
        invariant
            i <= v@.len(),
            forall|k: int| 0 <= k < i ==> v@[k]@ != x@,
        decreases v@.len() - i,
    {
        if str_eq(v[i].as_str(), x) {
            assert(texts(v@)[i as int] == x@);
            return true;
        }
        i += 1;
    }
    proof {
        if texts(v@).contains(x@) {
            let k = choose|k: int| 0 <= k < texts(v@).len() && texts(v@)[k] == x@;
            assert(v@[k]@ == x@);
        }
    }
    false
}

/// The openpfe ids of the nodes joined to node `id` by an edge leaving it
/// (`outgoing`) or entering it, restricted to the relationship names in
/// `edge_types` when given: in edge order, each once.
pub fn neighbors(
    index: &IdIndex,
    edges: &Vec<EdgeRecord>,
    id: &str,
    edge_types: Option<&[&str]>,
    outgoing: bool,
) -> (r: Result<Vec<String>, GraphError>)
    ensures
        r is Ok <==> index.nodes().contains_key(id@),
        r matches Err(GraphError::Message(m)) && m@ == "unknown node "@ + id@ || r is Ok,
        r matches Ok(v) ==> texts(v@) == first_occurrences(
            neighbor_trail(edges@, index.nodes()[id@], type_texts(edge_types), outgoing, index.uuids()),
        ),
{
    let nid = match index.node_of(id) {
        Some(n) => n,
        None => {
            return Err(GraphError::msg(concat("unknown node ", id)));
        },
    };
    let ghost types = type_texts(edge_types);
    let mut out: Vec<String> = Vec::new();
    let mut i: usize = 0;
    while i < edges.len()
        invariant
            i <= edges@.len(),
            nid == index.nodes()[id@],
            types == type_texts(edge_types),
            texts(out@) == first_occurrences(neighbor_trail(edges@.take(i as int), nid, types, outgoing, index.uuids())),
        decreases edges@.len() - i,
    {
        let e = &edges[i];
        proof {
            assert(edges@.take(i as int + 1).drop_last() =~= edges@.take(i as int));
            assert(edges@.take(i as int + 1).last() == edges@[i as int]);
        }
        let other = if outgoing && e.src == nid {
            Some(e.dst)
        } else if !outgoing && e.dst == nid {
            Some(e.src)
        } else {
            None
        };
        if let Some(o) = other {
            if type_passes(e.edge_type.as_str(), edge_types) {
                if let Some(u) = index.uuid_of(o) {
                    let ghost tr = neighbor_trail(edges@.take(i as int), nid, types, outgoing, index.uuids());
                    let ghost tr2 = neighbor_trail(edges@.take(i as int + 1), nid, types, outgoing, index.uuids());
                    proof {
                        assert(tr2 == tr.push(u@));
                        assert(tr2.drop_last() =~= tr);
                        assert(tr2.last() == u@);
                    }
                    if !contains_text(&out, u.as_str()) {
                        let ghost before = out@;
                        out.push(u);
                        assert(texts(out@) =~= texts(before).push(out@.last()@));
                    }
                }
            }
        }
        i += 1;
    }
    assert(edges@.take(edges@.len() as int) =~= edges@);
    Ok(out)
}

/// Store node `n` is `root`, or is joined to a node within `k - 1` steps
/// of `root` by an edge that a subgraph walk follows (in either direction).
pub open spec fn within(edges: Seq<EdgeRecord>, root: u64, n: u64, k: nat) -> bool
    decreases k,
{
    n == root || (k > 0 && exists|i: int| 0 <= i < edges.len()
        && is_subgraph_edge_type(#[trigger] edges[i].edge_type@)
        && ((edges[i].dst == n && within(edges, root, edges[i].src, (k - 1) as nat))
            || (edges[i].src == n && within(edges, root, edges[i].dst, (k - 1) as nat))))
}

proof fn lemma_within_mono(edges: Seq<EdgeRecord>, root: u64, n: u64, k: nat, m: nat)
    requires
        within(edges, root, n, k),
        k <= m,
    ensures
        within(edges, root, n, m),
    decreases k,
{
    if n != root {
        let i = choose|i: int| 0 <= i < edges.len()
            && is_subgraph_edge_type(#[trigger] edges[i].edge_type@)
            && ((edges[i].dst == n && within(edges, root, edges[i].src, (k - 1) as nat))
                || (edges[i].src == n && within(edges, root, edges[i].dst, (k - 1) as nat)));
        if edges[i].dst == n && within(edges, root, edges[i].src, (k - 1) as nat) {
            lemma_within_mono(edges, root, edges[i].src, (k - 1) as nat, (m - 1) as nat);
        } else {
            lemma_within_mono(edges, root, edges[i].dst, (k - 1) as nat, (m - 1) as nat);
        }
    }
}

/// Edge `eid` is one the walk follows, with both ends among `nodes`.
pub open spec fn walked_edge(edges: Seq<EdgeRecord>, eid: u64, nodes: Seq<u64>) -> bool {
    exists|i: int| 0 <= i < edges.len() && #[trigger] edges[i].id == eid
        && is_subgraph_edge_type(edges[i].edge_type@)
        && nodes.contains(edges[i].src) && nodes.contains(edges[i].dst)
}

/// Largest number of nodes a walk returns: `max_nodes`, but never fewer than the root.
pub open spec fn node_cap(limits: SubgraphLimits) -> int {
    if limits.max_nodes == 0 { 1 } else { limits.max_nodes as int }
}

fn contains_u64(v: &Vec<u64>, x: u64) -> (r: bool)
    ensures
        r == v@.contains(x),
{
    let mut i: usize = 0;
    while i < v.len()
        invariant
            i <= v@.len(),
            forall|k: int| 0 <= k < i ==> v@[k] != x,
        decreases v@.len() - i,
    {
        if v[i] == x {
            return true;
        }
        i += 1;
    }
    false
}


/// Node `m` is listed in the queue at depth at most `d + 1`.
pub open spec fn near(queue: Seq<(u64, u32)>, m: u64, d: int) -> bool {
    exists|j: int| 0 <= j < queue.len() && #[trigger] queue[j].0 == m && queue[j].1 <= d + 1
}

/// Every followed edge among the first `upto` that touches `o` is listed
/// in `edge_ids`, and has its other end listed at depth at most `d + 1`.
pub open spec fn expanded(edges: Seq<EdgeRecord>, queue: Seq<(u64, u32)>, edge_ids: Seq<u64>, o: u64, d: int, upto: int) -> bool {
    forall|i: int| 0 <= i < upto && #[trigger] is_subgraph_edge_type(edges[i].edge_type@) ==> {
        &&& edges[i].src == o ==> near(queue, edges[i].dst, d)
        &&& edges[i].dst == o ==> near(queue, edges[i].src, d)
        &&& (edges[i].src == o || edges[i].dst == o) ==> edge_ids.contains(edges[i].id)
    }
}

/// Breadth-first order while no node was refused: the queue lists every
/// node once, in order, with non-decreasing depths starting at the root's
/// 0; the last depth is at most one more than that of the entry at `head`;
/// and each expanded entry (before `head`, under the depth bound) has all
/// its neighbours listed.
spec fn bfs_ok(edges: Seq<EdgeRecord>, root: u64, limits: SubgraphLimits, nodes: Seq<u64>, queue: Seq<(u64, u32)>, edge_ids: Seq<u64>, head: int) -> bool {
    &&& queue.len() == nodes.len()
    &&& queue.len() >= 1
    &&& queue[0] == (root, 0u32)
    &&& forall|k: int| 0 <= k < queue.len() ==> #[trigger] queue[k].0 == nodes[k]
    &&& forall|a: int, b: int| 0 <= a <= b < queue.len() ==> queue[a].1 <= queue[b].1
    &&& 0 <= head <= queue.len()
    &&& head < queue.len() ==> queue.last().1 <= queue[head].1 + 1
    &&& forall|k: int| 0 <= k < head && #[trigger] queue[k].1 < limits.max_depth
        ==> expanded(edges, queue, edge_ids, queue[k].0, queue[k].1 as int, edges.len() as int)
}

proof fn lemma_near_grows(q1: Seq<(u64, u32)>, q2: Seq<(u64, u32)>, m: u64, d: int)
    requires
        near(q1, m, d),
        q1.len() <= q2.len(),
        forall|k: int| 0 <= k < q1.len() ==> #[trigger] q2[k] == q1[k],
    ensures
        near(q2, m, d),
{
    let j = choose|j: int| 0 <= j < q1.len() && #[trigger] q1[j].0 == m && q1[j].1 <= d + 1;
    assert(q2[j] == q1[j]);
}

proof fn lemma_expanded_grows(
    edges: Seq<EdgeRecord>,
    q1: Seq<(u64, u32)>,
    q2: Seq<(u64, u32)>,
    e1: Seq<u64>,
    e2: Seq<u64>,
    o: u64,
    d: int,
    upto: int,
)
    requires
        expanded(edges, q1, e1, o, d, upto),
        q1.len() <= q2.len(),
        forall|k: int| 0 <= k < q1.len() ==> #[trigger] q2[k] == q1[k],
        forall|x: u64| e1.contains(x) ==> e2.contains(x),
    ensures
        expanded(edges, q2, e2, o, d, upto),
{
    assert forall|i: int| 0 <= i < upto && #[trigger] is_subgraph_edge_type(edges[i].edge_type@) implies {
        &&& edges[i].src == o ==> near(q2, edges[i].dst, d)
        &&& edges[i].dst == o ==> near(q2, edges[i].src, d)
        &&& (edges[i].src == o || edges[i].dst == o) ==> e2.contains(edges[i].id)
    } by {
        if edges[i].src == o {
            lemma_near_grows(q1, q2, edges[i].dst, d);
        }
        if edges[i].dst == o {
            lemma_near_grows(q1, q2, edges[i].src, d);
        }
    }
}

/// With every entry expanded, each node within `k <= max_depth` steps of
/// the root is listed at depth at most `k`.
proof fn lemma_bfs_complete(
    edges: Seq<EdgeRecord>,
    root: u64,
    limits: SubgraphLimits,
    nodes: Seq<u64>,
    queue: Seq<(u64, u32)>,
    edge_ids: Seq<u64>,
    m: u64,
    k: nat,
)
    requires
        bfs_ok(edges, root, limits, nodes, queue, edge_ids, queue.len() as int),
        k <= limits.max_depth,
        within(edges, root, m, k),
    ensures
        exists|j: int| 0 <= j < queue.len() && #[trigger] queue[j].0 == m && queue[j].1 <= k,
    decreases k,
{
    if m == root {
        assert(queue[0].0 == m && queue[0].1 <= k);
    } else {
        let i = choose|i: int| 0 <= i < edges.len()
            && is_subgraph_edge_type(#[trigger] edges[i].edge_type@)
            && ((edges[i].dst == m && within(edges, root, edges[i].src, (k - 1) as nat))
                || (edges[i].src == m && within(edges, root, edges[i].dst, (k - 1) as nat)));
        let o = if edges[i].dst == m && within(edges, root, edges[i].src, (k - 1) as nat) { edges[i].src } else { edges[i].dst };
        lemma_bfs_complete(edges, root, limits, nodes, queue, edge_ids, o, (k - 1) as nat);
        let jo = choose|jo: int| 0 <= jo < queue.len() && #[trigger] queue[jo].0 == o && queue[jo].1 <= k - 1;
        assert(queue[jo].1 < limits.max_depth);
        assert(expanded(edges, queue, edge_ids, o, queue[jo].1 as int, edges.len() as int));
        assert(near(queue, m, queue[jo].1 as int));
        let j = choose|j: int| 0 <= j < queue.len() && #[trigger] queue[j].0 == m && queue[j].1 <= queue[jo].1 + 1;
        assert(queue[j].0 == m && queue[j].1 <= k);
    }
}

/// Nearer nodes first: a node is among `nodes` only when every node
/// strictly nearer to the root is too.
#[verifier::opaque]
pub open spec fn nearer_first(edges: Seq<EdgeRecord>, root: u64, nodes: Seq<u64>) -> bool {
    forall|m: u64, x: u64, k: nat| #![trigger nodes.contains(m), within(edges, root, x, k)]
        nodes.contains(m) && !within(edges, root, m, k) && within(edges, root, x, k) ==> nodes.contains(x)
}

/// While the entry at `head - 1` (depth `d`) is expanded, every node within
/// `d` steps of the root is already listed: all shallower entries come
/// before it and were expanded.
proof fn lemma_level_listed(
    edges: Seq<EdgeRecord>,
    root: u64,
    limits: SubgraphLimits,
    nodes: Seq<u64>,
    queue: Seq<(u64, u32)>,
    edge_ids: Seq<u64>,
    head: int,
    d: int,
    m: u64,
    k: nat,
)
    requires
        queue.len() == nodes.len(),
        1 <= head <= queue.len(),
        queue[0] == (root, 0u32),
        forall|j: int| 0 <= j < queue.len() ==> #[trigger] queue[j].0 == nodes[j],
        forall|a: int, b: int| 0 <= a <= b < queue.len() ==> queue[a].1 <= queue[b].1,
        queue[head - 1].1 == d,
        d < limits.max_depth,
        forall|j: int| 0 <= j < head - 1 && #[trigger] queue[j].1 < limits.max_depth
            ==> expanded(edges, queue, edge_ids, queue[j].0, queue[j].1 as int, edges.len() as int),
        k <= d,
        within(edges, root, m, k),
    ensures
        exists|j: int| 0 <= j < queue.len() && #[trigger] queue[j].0 == m && queue[j].1 <= k,
    decreases k,
{
    if m == root {
        assert(queue[0].0 == m && queue[0].1 <= k);
    } else {
        let i = choose|i: int| 0 <= i < edges.len()
            && is_subgraph_edge_type(#[trigger] edges[i].edge_type@)
            && ((edges[i].dst == m && within(edges, root, edges[i].src, (k - 1) as nat))
                || (edges[i].src == m && within(edges, root, edges[i].dst, (k - 1) as nat)));
        let o = if edges[i].dst == m && within(edges, root, edges[i].src, (k - 1) as nat) { edges[i].src } else { edges[i].dst };
        lemma_level_listed(edges, root, limits, nodes, queue, edge_ids, head, d, o, (k - 1) as nat);
        let jo = choose|jo: int| 0 <= jo < queue.len() && #[trigger] queue[jo].0 == o && queue[jo].1 <= k - 1;
        assert(jo < head - 1) by {
            if jo >= head - 1 {
                assert(queue[head - 1].1 <= queue[jo].1);
            }
        }
        assert(queue[jo].1 < limits.max_depth);
        assert(expanded(edges, queue, edge_ids, o, queue[jo].1 as int, edges.len() as int));
        assert(near(queue, m, queue[jo].1 as int));
        let j = choose|j: int| 0 <= j < queue.len() && #[trigger] queue[j].0 == m && queue[j].1 <= queue[jo].1 + 1;
        assert(queue[j].0 == m && queue[j].1 <= k);
    }
}

/// Adding `next`, one step beyond depth `d` when every node within `d`
/// steps is listed, keeps nearer nodes first.
proof fn lemma_nearer_step(edges: Seq<EdgeRecord>, root: u64, n0: Seq<u64>, n1: Seq<u64>, next: u64, d: nat)
    requires
        nearer_first(edges, root, n0),
        n1 == n0 || (n1 == n0.push(next) && within(edges, root, next, d + 1)
            && forall|x: u64| #[trigger] within(edges, root, x, d) ==> n0.contains(x)),
    ensures
        nearer_first(edges, root, n1),
{
    reveal(nearer_first);
    if n1 != n0 {
        assert forall|m: u64, x: u64, k: nat| #![trigger n1.contains(m), within(edges, root, x, k)]
            n1.contains(m) && !within(edges, root, m, k) && within(edges, root, x, k)
            implies n1.contains(x) by {
            if n0.contains(m) {
                assert(n0.contains(x));
            } else {
                assert(m == next) by {
                    let j = choose|j: int| 0 <= j < n1.len() && n1[j] == m;
                    if j < n0.len() {
                        assert(n0[j] == m);
                    }
                }
                if k >= d + 1 {
                    lemma_within_mono(edges, root, next, d + 1, k);
                }
                lemma_within_mono(edges, root, x, k, d);
                assert(n0.contains(x));
            }
            let j = choose|j: int| 0 <= j < n0.len() && n0[j] == x;
            assert(n1[j] == x);
        }
    }
}

/// Node `k` of `nodes` is joined to a node listed before it by a followed
/// edge whose id is in `edge_ids`.
pub open spec fn linked_to_earlier(edges: Seq<EdgeRecord>, nodes: Seq<u64>, edge_ids: Seq<u64>, k: int) -> bool {
    exists|i: int| #![trigger edges[i]]
        0 <= i < edges.len() && is_subgraph_edge_type(edges[i].edge_type@) && edge_ids.contains(edges[i].id)
        && ((edges[i].src == nodes[k] && nodes.take(k).contains(edges[i].dst))
            || (edges[i].dst == nodes[k] && nodes.take(k).contains(edges[i].src)))
}

/// Every node but the first is joined to an earlier one by a listed edge:
/// the listed edges connect all the listed nodes to the first.
pub open spec fn parent_linked(edges: Seq<EdgeRecord>, nodes: Seq<u64>, edge_ids: Seq<u64>) -> bool {
    forall|k: int| 1 <= k < nodes.len() ==> #[trigger] linked_to_earlier(edges, nodes, edge_ids, k)
}

proof fn lemma_linked_grows(edges: Seq<EdgeRecord>, n0: Seq<u64>, e0: Seq<u64>, n1: Seq<u64>, e1: Seq<u64>, k: int)
    requires
        1 <= k < n0.len(),
        linked_to_earlier(edges, n0, e0, k),
        n0.len() <= n1.len(),
        forall|j: int| 0 <= j < n0.len() ==> #[trigger] n1[j] == n0[j],
        forall|x: u64| e0.contains(x) ==> e1.contains(x),
    ensures
        linked_to_earlier(edges, n1, e1, k),
{
    let i = choose|i: int| #![trigger edges[i]]
        0 <= i < edges.len() && is_subgraph_edge_type(edges[i].edge_type@) && e0.contains(edges[i].id)
        && ((edges[i].src == n0[k] && n0.take(k).contains(edges[i].dst))
            || (edges[i].dst == n0[k] && n0.take(k).contains(edges[i].src)));
    assert(n1.take(k) =~= n0.take(k));
    assert(e1.contains(edges[i].id));
    assert(n1[k] == n0[k]);
}

/// Walk state: the nodes reached and the edges followed so far, and the
/// queue of nodes (with their depth) still to expand.
spec fn walk_ok(
    edges: Seq<EdgeRecord>,
    root: u64,
    limits: SubgraphLimits,
    nodes: Seq<u64>,
    edge_ids: Seq<u64>,
    queue: Seq<(u64, u32)>,
) -> bool {
    &&& nodes.len() >= 1
    &&& nodes[0] == root
    &&& nodes.no_duplicates()
    &&& edge_ids.no_duplicates()
    &&& nodes.len() <= node_cap(limits)
    &&& queue.len() <= nodes.len()
    &&& forall|k: int| 0 <= k < nodes.len() ==> within(edges, root, #[trigger] nodes[k], limits.max_depth as nat)
    &&& forall|k: int| 0 <= k < edge_ids.len() ==> walked_edge(edges, #[trigger] edge_ids[k], nodes)
    &&& parent_linked(edges, nodes, edge_ids)
    &&& forall|k: int| 0 <= k < queue.len() ==> #[trigger] queue[k].1 <= limits.max_depth
        && within(edges, root, queue[k].0, queue[k].1 as nat) && nodes.contains(queue[k].0)
}

/// Records that the walk reached `next` from `current` (at `depth`) along
/// edge `eid`, unless the node cap is already reached; returns whether it was.
fn step(
    edges: &Vec<EdgeRecord>,
    root: u64,
    limits: SubgraphLimits,
    nodes: &mut Vec<u64>,
    edge_ids: &mut Vec<u64>,
    queue: &mut Vec<(u64, u32)>,
    current: u64,
    depth: u32,
    next: u64,
    eid: u64,
    i: usize,
) -> (capped: bool)
    requires
        walk_ok(edges@, root, limits, old(nodes)@, old(edge_ids)@, old(queue)@),
        i < edges@.len(),
        edges@[i as int].id == eid,
        is_subgraph_edge_type(edges@[i as int].edge_type@),
        (edges@[i as int].src == current && edges@[i as int].dst == next)
            || (edges@[i as int].dst == current && edges@[i as int].src == next),
        old(nodes)@.contains(current),
        depth < limits.max_depth,
        within(edges@, root, current, depth as nat),
    ensures
        walk_ok(edges@, root, limits, final(nodes)@, final(edge_ids)@, final(queue)@),
        capped == (old(nodes)@.len() >= limits.max_nodes),
        capped ==> final(nodes)@ == old(nodes)@ && final(edge_ids)@ == old(edge_ids)@ && final(queue)@ == old(queue)@,
        forall|k: int| 0 <= k < old(queue)@.len() ==> #[trigger] final(queue)@[k] == old(queue)@[k],
        old(queue)@.len() <= final(queue)@.len(),
        old(nodes)@.len() <= final(nodes)@.len(),
        final(nodes)@.contains(current),
        !capped ==> final(nodes)@.contains(next),
        !capped ==> final(edge_ids)@.contains(eid),
        forall|x: u64| old(edge_ids)@.contains(x) ==> final(edge_ids)@.contains(x),
        !capped && old(nodes)@.contains(next) ==> final(nodes)@ == old(nodes)@ && final(queue)@ == old(queue)@,
        !capped && !old(nodes)@.contains(next) ==> {
            &&& final(nodes)@ == old(nodes)@.push(next)
            &&& final(nodes)@.len() < limits.max_nodes ==> final(queue)@ == old(queue)@.push((next, (depth + 1) as u32))
            &&& final(nodes)@.len() >= limits.max_nodes ==> final(queue)@ == old(queue)@
        },
{
    if nodes.len() >= limits.max_nodes {
        return true;
    }
    let ghost n0 = nodes@;
    let ghost q0 = queue@;
    proof {
        assert(within(edges@, root, next, (depth + 1) as nat)) by {
            assert(is_subgraph_edge_type(edges@[i as int].edge_type@));
        }
        lemma_within_mono(edges@, root, next, (depth + 1) as nat, limits.max_depth as nat);
    }
    let ghost e0 = edge_ids@;
    if !contains_u64(edge_ids, eid) {
        edge_ids.push(eid);
        assert(edge_ids@[edge_ids@.len() - 1] == eid);
    }
    proof {
        assert forall|x: u64| e0.contains(x) implies edge_ids@.contains(x) by {
            let k = choose|k: int| 0 <= k < e0.len() && e0[k] == x;
            assert(edge_ids@[k] == x);
        }
    }
    if !contains_u64(nodes, next) {
        nodes.push(next);
        assert(nodes@[nodes@.len() - 1] == next);
        if nodes.len() < limits.max_nodes {
            queue.push((next, depth + 1));
        }
    }
    proof {
        assert(nodes@.contains(next));
        assert forall|x: u64| n0.contains(x) implies nodes@.contains(x) by {
            let k = choose|k: int| 0 <= k < n0.len() && n0[k] == x;
            assert(nodes@[k] == x);
        }
        assert forall|k: int| 0 <= k < nodes@.len() implies within(edges@, root, #[trigger] nodes@[k], limits.max_depth as nat) by {
            if k < n0.len() {
                assert(nodes@[k] == n0[k]);
            }
        }
        assert forall|k: int| 0 <= k < edge_ids@.len() implies walked_edge(edges@, #[trigger] edge_ids@[k], nodes@) by {
            if k < old(edge_ids)@.len() {
                assert(walked_edge(edges@, old(edge_ids)@[k], n0));
                let w = choose|w: int| 0 <= w < edges@.len() && #[trigger] edges@[w].id == old(edge_ids)@[k]
                    && is_subgraph_edge_type(edges@[w].edge_type@)
                    && n0.contains(edges@[w].src) && n0.contains(edges@[w].dst);
                assert(edges@[w].id == edge_ids@[k]);
            } else {
                assert(edges@[i as int].id == edge_ids@[k]);
            }
        }
        assert forall|k: int| 0 <= k < queue@.len() implies #[trigger] queue@[k].1 <= limits.max_depth
            && within(edges@, root, queue@[k].0, queue@[k].1 as nat) && nodes@.contains(queue@[k].0) by {
            if k < q0.len() {
                assert(queue@[k] == q0[k]);
            }
        }
        assert(edge_ids@.contains(eid));
        assert forall|k: int| 1 <= k < nodes@.len() implies #[trigger] linked_to_earlier(edges@, nodes@, edge_ids@, k) by {
            if k < n0.len() {
                assert(linked_to_earlier(edges@, n0, e0, k));
                lemma_linked_grows(edges@, n0, e0, nodes@, edge_ids@, k);
            } else {
                assert(nodes@ == n0.push(next));
                assert(nodes@.take(k) =~= n0);
                assert(nodes@[k] == next);
                assert(edges@[i as int].id == eid);
                assert(is_subgraph_edge_type(edges@[i as int].edge_type@));
            }
        }
    }
    false
}

/// Breadth-first walk from store node `root` along the edges a subgraph
/// follows (in either direction), at most `max_depth` steps out and
/// stopping once `max_nodes` nodes are reached. Returns the store nodes
/// reached (root first, each once, and none kept while a node nearer to
/// the root is left out) and the ids of the edges followed (each once,
/// both ends among those nodes, and, also when the node cap cuts the walk
/// short, one joining each node but the root to a node reached before it).
pub fn subgraph_walk(edges: &Vec<EdgeRecord>, root: u64, limits: SubgraphLimits) -> (r: (Vec<u64>, Vec<u64>))
    ensures
        r.0@.len() >= 1,
        r.0@[0] == root,
        r.0@.no_duplicates(),
        r.1@.no_duplicates(),
        r.0@.len() <= node_cap(limits),
        forall|k: int| 0 <= k < r.0@.len() ==> within(edges@, root, #[trigger] r.0@[k], limits.max_depth as nat),
        forall|k: int| 0 <= k < r.1@.len() ==> walked_edge(edges@, #[trigger] r.1@[k], r.0@),
        r.0@.len() < limits.max_nodes ==> forall|m: u64|
            #[trigger] within(edges@, root, m, limits.max_depth as nat) ==> r.0@.contains(m),
        nearer_first(edges@, root, r.0@),
        parent_linked(edges@, r.0@, r.1@),
        r.0@.len() < limits.max_nodes && limits.max_depth > 0 ==> forall|i: int|
            0 <= i < edges@.len() && #[trigger] is_subgraph_edge_type(edges@[i].edge_type@)
            && (within(edges@, root, edges@[i].src, (limits.max_depth - 1) as nat)
                || within(edges@, root, edges@[i].dst, (limits.max_depth - 1) as nat))
            ==> r.1@.contains(edges@[i].id),
{
    let mut nodes: Vec<u64> = Vec::new();
    nodes.push(root);
    let mut edge_ids: Vec<u64> = Vec::new();
    let mut queue: Vec<(u64, u32)> = Vec::new();
    queue.push((root, 0));
    proof {
        assert(nodes@.contains(root)) by {
            assert(nodes@[0] == root);
        }
        reveal(nearer_first);
        assert forall|m: u64, x: u64, k: nat| #![trigger nodes@.contains(m), within(edges@, root, x, k)]
            nodes@.contains(m) && !within(edges@, root, m, k) && within(edges@, root, x, k)
            implies nodes@.contains(x) by {
            assert(nodes@ =~= seq![root]);
            assert(m == root);
        }
    }
    let mut head: usize = 0;
    let mut done = false;
    while head < queue.len() && !done
        invariant
            walk_ok(edges@, root, limits, nodes@, edge_ids@, queue@),
            head <= queue@.len(),
            done ==> nodes@.len() >= limits.max_nodes,
            nearer_first(edges@, root, nodes@),
            nodes@.len() < limits.max_nodes ==> bfs_ok(edges@, root, limits, nodes@, queue@, edge_ids@, head as int),
        decreases node_cap(limits) - head,
    {
        let (current, depth) = queue[head];
        head += 1;
        if nodes.len() >= limits.max_nodes {
            done = true;
        } else if depth < limits.max_depth {
            let mut i: usize = 0;
            let mut capped = false;
            while i < edges.len() && !capped
                invariant
                    walk_ok(edges@, root, limits, nodes@, edge_ids@, queue@),
                    1 <= head <= queue@.len(),
                    i <= edges@.len(),
                    nodes@.contains(current),
                    depth < limits.max_depth,
                    within(edges@, root, current, depth as nat),
                    nearer_first(edges@, root, nodes@),
                    capped ==> nodes@.len() >= limits.max_nodes,
                    nodes@.len() < limits.max_nodes ==> {
                        &&& queue@.len() == nodes@.len()
                        &&& queue@[0] == (root, 0u32)
                        &&& forall|k: int| 0 <= k < queue@.len() ==> #[trigger] queue@[k].0 == nodes@[k]
                        &&& forall|a: int, b: int| 0 <= a <= b < queue@.len() ==> queue@[a].1 <= queue@[b].1
                        &&& queue@[head - 1] == (current, depth)
                        &&& queue@.last().1 <= depth + 1
                        &&& forall|k: int| 0 <= k < head - 1 && #[trigger] queue@[k].1 < limits.max_depth
                            ==> expanded(edges@, queue@, edge_ids@, queue@[k].0, queue@[k].1 as int, edges@.len() as int)
                        &&& expanded(edges@, queue@, edge_ids@, current, depth as int, i as int)
                    },
                decreases edges@.len() - i,
            {
                let e = &edges[i];
                let ghost q0 = queue@;
                let ghost n0 = nodes@;
                let ghost e0 = edge_ids@;
                if subgraph_edge_type(e.edge_type.as_str()) {
                    proof {
                        if n0.len() < limits.max_nodes {
                            assert forall|x: u64| #[trigger] within(edges@, root, x, depth as nat) implies n0.contains(x) by {
                                lemma_level_listed(edges@, root, limits, n0, q0, e0, head as int, depth as int, x, depth as nat);
                                let j = choose|j: int| 0 <= j < q0.len() && #[trigger] q0[j].0 == x && q0[j].1 <= depth;
                                assert(n0[j] == x);
                            }
                        }
                        assert(is_subgraph_edge_type(edges@[i as int].edge_type@));
                    }
                    if e.src == current {
                        proof {
                            assert(within(edges@, root, e.dst, (depth + 1) as nat));
                        }
                        capped = step(edges, root, limits, &mut nodes, &mut edge_ids, &mut queue, current, depth, e.dst, e.id, i);
                        proof {
                            lemma_nearer_step(edges@, root, n0, nodes@, e.dst, depth as nat);
                            if nodes@.len() < limits.max_nodes {
                                lemma_step_near(q0, n0, queue@, nodes@, e.dst, depth as int);
                            }
                        }
                    }
                    let ghost q1 = queue@;
                    let ghost n1 = nodes@;
                    let ghost e1 = edge_ids@;
                    proof {
                        if n0.len() < limits.max_nodes {
                            assert forall|x: u64| #[trigger] within(edges@, root, x, depth as nat) implies n1.contains(x) by {
                                let j = choose|j: int| 0 <= j < n0.len() && n0[j] == x;
                                if n1 != n0 {
                                    assert(n1[j] == x);
                                }
                            }
                        }
                    }
                    if !capped && e.dst == current {
                        proof {
                            assert(within(edges@, root, e.src, (depth + 1) as nat));
                        }
                        capped = step(edges, root, limits, &mut nodes, &mut edge_ids, &mut queue, current, depth, e.src, e.id, i);
                        proof {
                            lemma_nearer_step(edges@, root, n1, nodes@, e.src, depth as nat);
                            if nodes@.len() < limits.max_nodes {
                                lemma_step_near(q1, n1, queue@, nodes@, e.src, depth as int);
                                if e.src == current {
                                    lemma_near_grows(q1, queue@, e.dst, depth as int);
                                    assert(e1.contains(e.id));
                                }
                            }
                        }
                    }
                }
                proof {
                    if nodes@.len() < limits.max_nodes {
                        assert forall|k: int| 0 <= k < q0.len() implies #[trigger] queue@[k] == q0[k] by {}
                        assert forall|k: int| 0 <= k < head - 1 && #[trigger] queue@[k].1 < limits.max_depth
                            implies expanded(edges@, queue@, edge_ids@, queue@[k].0, queue@[k].1 as int, edges@.len() as int) by {
                            assert(queue@[k] == q0[k]);
                            lemma_expanded_grows(edges@, q0, queue@, e0, edge_ids@, q0[k].0, q0[k].1 as int, edges@.len() as int);
                        }
                        lemma_expanded_grows(edges@, q0, queue@, e0, edge_ids@, current, depth as int, i as int);
                        assert forall|x: int| 0 <= x < i + 1 && #[trigger] is_subgraph_edge_type(edges@[x].edge_type@) implies {
                            &&& edges@[x].src == current ==> near(queue@, edges@[x].dst, depth as int)
                            &&& edges@[x].dst == current ==> near(queue@, edges@[x].src, depth as int)
                            &&& (edges@[x].src == current || edges@[x].dst == current) ==> edge_ids@.contains(edges@[x].id)
                        } by {
                            if x < i {
                                assert(expanded(edges@, queue@, edge_ids@, current, depth as int, i as int));
                            }
                        }
                    }
                }
                i += 1;
            }
            proof {
                if nodes@.len() < limits.max_nodes {
                    assert(!capped);
                    assert(i == edges@.len());
                }
            }
        }
    }
    proof {
        if nodes@.len() < limits.max_nodes {
            assert(head == queue@.len());
            assert forall|m: u64| #[trigger] within(edges@, root, m, limits.max_depth as nat) implies nodes@.contains(m) by {
                lemma_bfs_complete(edges@, root, limits, nodes@, queue@, edge_ids@, m, limits.max_depth as nat);
                let j = choose|j: int| 0 <= j < queue@.len() && #[trigger] queue@[j].0 == m && queue@[j].1 <= limits.max_depth;
                assert(nodes@[j] == m);
            }
            if limits.max_depth > 0 {
                let dm = (limits.max_depth - 1) as nat;
                assert forall|i: int|
                    0 <= i < edges@.len() && #[trigger] is_subgraph_edge_type(edges@[i].edge_type@)
                    && (within(edges@, root, edges@[i].src, dm) || within(edges@, root, edges@[i].dst, dm))
                    implies edge_ids@.contains(edges@[i].id) by {
                    let m = if within(edges@, root, edges@[i].src, dm) { edges@[i].src } else { edges@[i].dst };
                    lemma_bfs_complete(edges@, root, limits, nodes@, queue@, edge_ids@, m, dm);
                    let j = choose|j: int| 0 <= j < queue@.len() && #[trigger] queue@[j].0 == m && queue@[j].1 <= dm;
                    assert(queue@[j].1 < limits.max_depth);
                    assert(expanded(edges@, queue@, edge_ids@, m, queue@[j].1 as int, edges@.len() as int));
                }
            }
        }
    }
    (nodes, edge_ids)
}

/// After a step towards `next` that refused nothing, `next` is listed at
/// depth at most `d + 1`, and the queue still lines up with the nodes in
/// non-decreasing depth order ending no deeper than `d + 1`.
proof fn lemma_step_near(q0: Seq<(u64, u32)>, n0: Seq<u64>, q1: Seq<(u64, u32)>, n1: Seq<u64>, next: u64, d: int)
    requires
        q0.len() == n0.len(),
        forall|k: int| 0 <= k < q0.len() ==> #[trigger] q0[k].0 == n0[k],
        forall|a: int, b: int| 0 <= a <= b < q0.len() ==> q0[a].1 <= q0[b].1,
        q0.len() >= 1,
        q0.last().1 <= d + 1,
        0 <= d < u32::MAX,
        n1.contains(next),
        (n0.contains(next) && n1 == n0 && q1 == q0)
            || (!n0.contains(next) && n1 == n0.push(next) && q1 == q0.push((next, (d + 1) as u32))),
    ensures
        near(q1, next, d),
        q1.len() == n1.len(),
        q1.len() >= 1,
        q1[0] == q0[0],
        forall|k: int| 0 <= k < q1.len() ==> #[trigger] q1[k].0 == n1[k],
        forall|a: int, b: int| 0 <= a <= b < q1.len() ==> q1[a].1 <= q1[b].1,
        q1.last().1 <= d + 1,
        q0.len() <= q1.len(),
        forall|k: int| 0 <= k < q0.len() ==> #[trigger] q1[k] == q0[k],
{
    if n0.contains(next) {
        let j = choose|j: int| 0 <= j < n0.len() && n0[j] == next;
        assert(q0[j].0 == next);
        assert(q0[j].1 <= q0[q0.len() - 1].1);
    } else {
        assert(q1[q1.len() - 1].0 == next);
        assert forall|k: int| 0 <= k < q1.len() implies #[trigger] q1[k].0 == n1[k] by {
            if k < q0.len() {
                assert(q1[k] == q0[k]);
            }
        }
        assert forall|a: int, b: int| 0 <= a <= b < q1.len() implies q1[a].1 <= q1[b].1 by {
            if b == q1.len() - 1 && a < q0.len() {
                assert(q0[a].1 <= q0[q0.len() - 1].1);
            }
        }
    }
}

proof fn lemma_push_contains(q: Seq<Seq<char>>, a: Seq<char>, x: Seq<char>)
    ensures
        q.push(a).contains(x) <==> (q.contains(x) || x == a),
{
    if q.push(a).contains(x) {
        let k = choose|k: int| 0 <= k < q.push(a).len() && q.push(a)[k] == x;
        if k < q.len() {
            assert(q[k] == x);
        }
    }
    if q.contains(x) {
        let k = choose|k: int| 0 <= k < q.len() && q[k] == x;
        assert(q.push(a)[k] == x);
    }
    if x == a {
        assert(q.push(a)[q.len() as int] == a);
    }
}

proof fn lemma_first_occurrences(s: Seq<Seq<char>>)
    ensures
        forall|x: Seq<char>| first_occurrences(s).contains(x) <==> s.contains(x),
        first_occurrences(s).no_duplicates(),
    decreases s.len(),
{
    if s.len() > 0 {
        let p = s.drop_last();
        let l = s.last();
        let d = first_occurrences(p);
        lemma_first_occurrences(p);
        assert(s =~= p.push(l));
        assert forall|x: Seq<char>| first_occurrences(s).contains(x) <==> s.contains(x) by {
            lemma_push_contains(p, l, x);
            lemma_push_contains(d, l, x);
        }
        if !d.contains(l) {
            lemma_push_no_duplicates(d, l);
        }
    }
}

proof fn lemma_push_no_duplicates(q: Seq<Seq<char>>, a: Seq<char>)
    requires
        q.no_duplicates(),
        !q.contains(a),
    ensures
        q.push(a).no_duplicates(),
{
    assert forall|i: int, j: int| 0 <= i < q.push(a).len() && 0 <= j < q.push(a).len() && i != j
        implies q.push(a)[i] != q.push(a)[j] by {
        if i < q.len() && j < q.len() {
            assert(q.push(a)[i] == q[i] && q.push(a)[j] == q[j]);
        } else if i < q.len() {
            assert(q.push(a)[i] == q[i]);
        } else if j < q.len() {
            assert(q.push(a)[j] == q[j]);
        }
    }
}

/// The openpfe ids joined to node `id` by a `depends_on` edge in either
/// direction: those it depends on first, then those depending on it that
/// are not listed yet; each once.
pub fn dependency_neighbors(index: &IdIndex, edges: &Vec<EdgeRecord>, id: &str) -> (r: Result<Vec<String>, GraphError>)
    ensures
        r is Ok <==> index.nodes().contains_key(id@),
        r matches Err(GraphError::Message(m)) && m@ == "unknown node "@ + id@ || r is Ok,
        r matches Ok(v) ==> forall|x: Seq<char>| texts(v@).contains(x) <==> (
            neighbor_trail(edges@, index.nodes()[id@], Some(seq!["depends_on"@]), true, index.uuids()).contains(x)
            || neighbor_trail(edges@, index.nodes()[id@], Some(seq!["depends_on"@]), false, index.uuids()).contains(x)),
        r matches Ok(v) ==> texts(v@).no_duplicates(),
{
    let kinds: [&str; 1] = [rel::DEPENDS_ON];
    let slice = kinds.as_slice();
    let ghost kt = type_texts(Some(slice));
    proof {
        assert(slice@[0] == rel::DEPENDS_ON);
        assert(strs(slice@) =~= seq!["depends_on"@]);
        assert(kt == Some(seq!["depends_on"@]));
    }
    let mut out = neighbors(index, edges, id, Some(slice), true)?;
    let incoming = neighbors(index, edges, id, Some(slice), false)?;
    let ghost nid = index.nodes()[id@];
    let ghost t_out = neighbor_trail(edges@, nid, kt, true, index.uuids());
    let ghost t_in = neighbor_trail(edges@, nid, kt, false, index.uuids());
    proof {
        lemma_first_occurrences(t_out);
        lemma_first_occurrences(t_in);
    }
    let ghost tin = texts(incoming@);
    let mut i: usize = 0;
    while i < incoming.len()
        invariant
            i <= incoming@.len(),
            tin == texts(incoming@),
            tin == first_occurrences(t_in),
            forall|x: Seq<char>| first_occurrences(t_in).contains(x) <==> t_in.contains(x),
            forall|x: Seq<char>| texts(out@).contains(x) <==> (t_out.contains(x) || tin.take(i as int).contains(x)),
            texts(out@).no_duplicates(),
        decreases incoming@.len() - i,
    {
        let ghost before = out@;
        let item = incoming[i].clone();
        proof {
            assert(tin.take(i + 1) =~= tin.take(i as int).push(item@));
        }
        if !contains_text(&out, item.as_str()) {
            out.push(item);
            proof {
                assert(texts(out@) =~= texts(before).push(incoming@[i as int]@));
                lemma_push_no_duplicates(texts(before), incoming@[i as int]@);
            }
        }
        let ghost iv = i as int;
        i += 1;
        proof {
            assert(i as int == iv + 1);
            assert forall|x: Seq<char>| texts(out@).contains(x) <==> (t_out.contains(x) || tin.take(i as int).contains(x)) by {
                lemma_push_contains(tin.take(iv), incoming@[iv]@, x);
                lemma_push_contains(texts(before), incoming@[iv]@, x);
                assert(texts(before).contains(x) <==> (t_out.contains(x) || tin.take(iv).contains(x)));
                assert(tin.take(i as int) == tin.take(iv).push(incoming@[iv]@));
                if texts(before).contains(incoming@[iv]@) {
                    assert(texts(out@) == texts(before));
                } else {
                    assert(texts(out@) == texts(before).push(incoming@[iv]@));
                }
            }
        }
    }
    proof {
        assert(tin.take(incoming@.len() as int) =~= tin);
        assert forall|x: Seq<char>| texts(out@).contains(x) <==> (t_out.contains(x) || t_in.contains(x)) by {}
    }
    Ok(out)
}

} // verus!
