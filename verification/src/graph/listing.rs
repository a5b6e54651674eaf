//! Node listing and shaping, edge endpoint checks, and match-kind sets.

use vstd::prelude::*;
use crate::graph::cycles::texts;
use crate::graph::index::IdIndex;
use crate::graph::schema::{label, prop, rel};
use crate::graph::types::{EdgeRecord, GraphError, Node, NodeFilter};
use crate::json::{lookup, member, Json};
use crate::text::{concat, str_eq};

verus! {

/// `props` without its members named `id`, in order.
pub open spec fn without_id(props: Seq<(String, Json)>) -> Seq<(String, Json)>
    decreases props.len(),
{
    if props.len() == 0 {
        Seq::empty()
    } else {
        let prev = without_id(props.drop_last());
        if props.last().0@ == "id"@ { prev } else { prev.push(props.last()) }
    }
}

/// A stored node as an openpfe node: its first label is its type, the id
/// held in the index is its id, and its properties are those other than
/// `id`. Nothing when it has no label or no id.
pub fn node_from_parts(labels: &Vec<String>, uuid: Option<String>, props: Vec<(String, Json)>) -> (r: Option<Node>)
    ensures
        r is Some <==> labels@.len() > 0 && uuid is Some,
        r matches Some(n) ==> n.node_type@ == labels@[0]@ && n.id@ == uuid->0@ && n.properties@ == without_id(props@),
{
    if labels.len() == 0 {
        return None;
    }
    let id = match uuid {
        Some(u) => u,
        None => {
            return None;
        },
    };
    proof {
        reveal_strlit("id");
    }
    let node_type = labels[0].clone();
    let mut properties: Vec<(String, Json)> = Vec::new();
    let ghost all = props@;
    for m in it: props.into_iter()
        invariant
            it.seq() == all,
            properties@ == without_id(all.take(it.index() as int)),
    {
        proof {
            assert(all.take(it.index() as int + 1).drop_last() =~= all.take(it.index() as int));
        }
        if !str_eq(m.0.as_str(), prop::ID) {
            properties.push(m);
        }
    }
    proof {
        assert(all.take(all.len() as int) =~= all);
    }
    Some(Node { id, node_type, properties })
}

/// A node passes the cluster part of a filter: no cluster asked, or its
/// `cluster_id` property is that cluster's id as a string.
pub open spec fn cluster_matches(node: Node, cluster: Option<String>) -> bool {
    match cluster {
        None => true,
        Some(c) => match member(node.properties@, "cluster_id"@) {
            Some(Json::String(s)) => s@ == c@,
            _ => false,
        },
    }
}

/// A stored node passes the type part of a filter: no type asked, or one
/// of its labels is that type.
pub open spec fn label_matches(labels: Seq<String>, node_type: Option<String>) -> bool {
    match node_type {
        None => true,
        Some(t) => texts(labels).contains(t@),
    }
}

/// The nodes of `cands` that pass `f`, in order: each candidate is a stored
/// node's labels and, where it has a label and an id, the node itself.
pub open spec fn selected(cands: Seq<(Vec<String>, Option<Node>)>, f: NodeFilter) -> Seq<Node>
    decreases cands.len(),
{
    if cands.len() == 0 {
        Seq::empty()
    } else {
        let prev = selected(cands.drop_last(), f);
        let c = cands.last();
        if label_matches(c.0@, f.node_type) && c.1 is Some && cluster_matches(c.1->0, f.cluster_id) {
            prev.push(c.1->0)
        } else {
            prev
        }
    }
}

/// How many nodes a listing keeps at most: the filter's limit (no limit:
/// `usize::MAX`), and at least the first match even for a limit of 0.
pub open spec fn list_cap(f: NodeFilter) -> int {
    match f.limit {
        None => usize::MAX as int,
        Some(l) => if l == 0 { 1 } else { l as int },
    }
}

fn labels_contain(labels: &Vec<String>, t: &str) -> (r: bool)
    ensures
        r == texts(labels@).contains(t@),
{
    let mut i: usize = 0;
    while i < labels.len()
        invariant
            i <= labels@.len(),
            forall|k: int| 0 <= k < i ==> labels@[k]@ != t@,
        decreases labels@.len() - i,
    {
        if str_eq(labels[i].as_str(), t) {
            assert(texts(labels@)[i as int] == t@);
            return true;
        }
        i += 1;
    }
    proof {
        if texts(labels@).contains(t@) {
            let k = choose|k: int| 0 <= k < texts(labels@).len() && texts(labels@)[k] == t@;
            assert(labels@[k]@ == t@);
        }
    }
    false
}

fn cluster_passes(node: &Node, cluster: &Option<String>) -> (r: bool)
    ensures
        r == cluster_matches(*node, *cluster),
{
    proof {
        reveal_strlit("cluster_id");
    }
    match cluster {
        None => true,
        Some(c) => match lookup(&node.properties, prop::CLUSTER_ID) {
            Some(Json::String(s)) => str_eq(s.as_str(), c.as_str()),
            _ => false,
        },
    }
}

/// The nodes that `filter` selects among `candidates` (stored nodes in
/// store order), keeping at most `list_cap(filter)` of them.
pub fn select_nodes(candidates: Vec<(Vec<String>, Option<Node>)>, filter: &NodeFilter) -> (r: Vec<Node>)
    ensures
        ({
            let s = selected(candidates@, *filter);
            r@ == s.take(if s.len() < list_cap(*filter) { s.len() as int } else { list_cap(*filter) })
        }),
{
    let cap: usize = match filter.limit {
        None => usize::MAX,
        Some(l) => if l == 0 { 1 } else { l },
    };
    let ghost all = candidates@;
    let mut out: Vec<Node> = Vec::new();
    for c in it: candidates.into_iter()
        invariant
            it.seq() == all,
            cap == list_cap(*filter),
            ({
                let s = selected(all.take(it.index() as int), *filter);
                out@ == s.take(if s.len() < cap { s.len() as int } else { cap as int })
            }),
    {
        let ghost s = selected(all.take(it.index() as int), *filter);
        let ghost s2 = selected(all.take(it.index() as int + 1), *filter);
        proof {
            assert(all.take(it.index() as int + 1).drop_last() =~= all.take(it.index() as int));
            assert(all.take(it.index() as int + 1).last() == c);
        }
        let (labels, node) = c;
        let type_ok = match &filter.node_type {
            None => true,
            Some(t) => labels_contain(&labels, t.as_str()),
        };
        let mut kept = false;
        if type_ok {
            if let Some(n) = node {
                if cluster_passes(&n, &filter.cluster_id) {
                    proof {
                        assert(s2 =~= s.push(n));
                    }
                    if out.len() < cap {
                        out.push(n);
                        proof {
                            assert(out@ =~= s2.take(if s2.len() < cap { s2.len() as int } else { cap as int }));
                        }
                    }
                    kept = true;
                }
            }
        }
        proof {
            if !kept {
                assert(s2 == s);
            }
        }
    }
    proof {
        assert(all.take(all.len() as int) =~= all);
    }
    out
}

/// The store nodes of the two ends of a new edge, or `unknown node <id>`
/// for the first end that the index does not know.
pub fn edge_endpoints(index: &IdIndex, src_id: &str, dst_id: &str) -> (r: Result<(u64, u64), GraphError>)
    ensures
        match r {
            Ok((s, d)) => index.nodes().get(src_id@) == Some(s) && index.nodes().get(dst_id@) == Some(d),
            Err(GraphError::Message(m)) => if !index.nodes().contains_key(src_id@) {
                m@ == "unknown node "@ + src_id@
            } else {
                !index.nodes().contains_key(dst_id@) && m@ == "unknown node "@ + dst_id@
            },
            Err(GraphError::Grafeo(_)) => false,
        },
{
    let s = match index.node_of(src_id) {
        Some(n) => n,
        None => {
            return Err(GraphError::msg(concat("unknown node ", src_id)));
        },
    };
    let d = match index.node_of(dst_id) {
        Some(n) => n,
        None => {
            return Err(GraphError::msg(concat("unknown node ", dst_id)));
        },
    };
    Ok((s, d))
}

/// `Debug` text of a list of strings (std's `{:?}` formatting of a `Vec<String>`).
pub uninterp spec fn debug_list(items: Seq<Seq<char>>) -> Seq<char>;

/// std's `{:?}` formatting of `items`; the result is `debug_list` of their texts.
#[verifier::external_body]
fn debug_text(items: &Vec<String>) -> (r: String)
    ensures
        r@ == debug_list(texts(items@)),
{
    format!("{:?}", items)
}

/// The rule on `member_of` edges: their target must be a `cluster` node.
/// `target_labels` are the labels of the target node, if the store has it.
pub fn check_member_target(edge_type: &str, dst_id: &str, target_labels: Option<Vec<String>>) -> (r: Result<(), GraphError>)
    ensures
        edge_type@ != "member_of"@ ==> r is Ok,
        edge_type@ == "member_of"@ ==> match target_labels {
            None => r matches Err(GraphError::Message(m)) && m@ == "unknown node "@ + dst_id@,
            Some(ls) => if texts(ls@).contains("cluster"@) {
                r is Ok
            } else {
                r matches Err(GraphError::Message(m))
                    && m@ == "member_of target must be type cluster, got "@ + debug_list(texts(ls@))
            },
        },
{
    proof {
        reveal_strlit("member_of");
        reveal_strlit("cluster");
    }
    if !str_eq(edge_type, rel::MEMBER_OF) {
        return Ok(());
    }
    match target_labels {
        None => Err(GraphError::msg(concat("unknown node ", dst_id))),
        Some(ls) => {
            if labels_contain(&ls, label::CLUSTER) {
                Ok(())
            } else {
                let shown = debug_text(&ls);
                Err(GraphError::msg(concat("member_of target must be type cluster, got ", shown.as_str())))
            }
        },
    }
}

/// The ids of the edges from `src` to `dst` named `edge_type`, in store
/// order: the candidates that deleting such an edge tries in turn.
pub fn edges_between(edges: &Vec<EdgeRecord>, src: u64, dst: u64, edge_type: &str) -> (r: Vec<u64>)
    ensures
        r@ == edges@.filter(|e: EdgeRecord| e.src == src && e.dst == dst && e.edge_type@ == edge_type@)
            .map_values(|e: EdgeRecord| e.id),
{
    let ghost keep = |e: EdgeRecord| e.src == src && e.dst == dst && e.edge_type@ == edge_type@;
    let mut out: Vec<u64> = Vec::new();
    let mut i: usize = 0;
    while i < edges.len()
        invariant
            i <= edges@.len(),
            keep == (|e: EdgeRecord| e.src == src && e.dst == dst && e.edge_type@ == edge_type@),
            out@ == edges@.take(i as int).filter(keep).map_values(|e: EdgeRecord| e.id),
        decreases edges@.len() - i,
    {
        let e = &edges[i];
        proof {
            let t = edges@.take(i as int + 1);
            assert(t.drop_last() =~= edges@.take(i as int));
            edges@.take(i as int).lemma_filter_push(edges@[i as int], keep);
            assert(t =~= edges@.take(i as int).push(edges@[i as int]));
        }
        if e.src == src && e.dst == dst && str_eq(e.edge_type.as_str(), edge_type) {
            out.push(e.id);
        }
        i += 1;
        proof {
            assert(out@ =~= edges@.take(i as int).filter(keep).map_values(|e: EdgeRecord| e.id));
        }
    }
    assert(edges@.take(edges@.len() as int) =~= edges@);
    out
}

/// Adds `kind` to `kinds` unless it is there already.
pub fn push_kind(kinds: &mut Vec<String>, kind: &str)
    ensures
        texts(old(kinds)@).contains(kind@) ==> final(kinds)@ == old(kinds)@,
        !texts(old(kinds)@).contains(kind@) ==> texts(final(kinds)@) == texts(old(kinds)@).push(kind@),
{
    if !labels_contain(kinds, kind) {
        let ghost before = kinds@;
        kinds.push(kind.to_string());
        assert(texts(kinds@) =~= texts(before).push(kind@));
    }
}

} // verus!
