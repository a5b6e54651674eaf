use openpfe::graph::cycles::dependency_cycles;
use openpfe::graph::index::IdIndex;
use openpfe::graph::listing::{
    check_member_target, edge_endpoints, edges_between, node_from_parts, push_kind, select_nodes,
};
use openpfe::graph::types::{EdgeRecord, GraphError, Node, NodeFilter, SubgraphLimits};
use openpfe::graph::walk::{dependency_neighbors, neighbors, subgraph_walk};
use openpfe::json::Json;

fn edge(id: u64, src: u64, dst: u64, kind: &str) -> EdgeRecord {
    EdgeRecord { id, src, dst, edge_type: kind.to_string() }
}

fn index_of(pairs: &[(&str, u64)]) -> IdIndex {
    let mut index = IdIndex::new();
    for (u, n) in pairs {
        index.insert(u.to_string(), *n);
    }
    index
}

fn node(id: &str, kind: &str, cluster: Option<&str>) -> Node {
    let mut properties = vec![("title".to_string(), Json::String(format!("t-{id}")))];
    if let Some(c) = cluster {
        properties.push(("cluster_id".to_string(), Json::String(c.to_string())));
    }
    Node { id: id.to_string(), node_type: kind.to_string(), properties }
}

#[test]
fn index_reads_back_what_was_written() {
    let mut index = index_of(&[("p1", 10), ("p2", 11)]);
    assert_eq!(index.node_of("p1"), Some(10));
    assert_eq!(index.uuid_of(11), Some("p2".to_string()));
    assert_eq!(index.node_of("p3"), None);
    assert_eq!(index.remove("p1"), Some(10));
    assert_eq!(index.node_of("p1"), None);
    assert_eq!(index.uuid_of(10), None);
    assert_eq!(index.remove("p1"), None);
    index.rebuild(&vec![(1, Some("a".to_string())), (2, None), (3, Some("a".to_string()))]);
    assert_eq!(index.node_of("a"), Some(3));
    assert_eq!(index.uuid_of(1), Some("a".to_string()));
    assert_eq!(index.uuid_of(2), None);
}

#[test]
fn neighbors_outgoing_depends_on() {
    let index = index_of(&[("p1", 1), ("p2", 2), ("p3", 3), ("c", 4)]);
    let edges = vec![
        edge(100, 1, 2, "depends_on"),
        edge(101, 1, 4, "member_of"),
        edge(102, 1, 2, "depends_on"),
        edge(103, 3, 1, "depends_on"),
    ];
    let out = neighbors(&index, &edges, "p1", Some(&["depends_on"]), true).expect("neighbors");
    assert_eq!(out, vec!["p2".to_string()]);
    let all_out = neighbors(&index, &edges, "p1", None, true).expect("all");
    assert_eq!(all_out, vec!["p2".to_string(), "c".to_string()]);
    let incoming = neighbors(&index, &edges, "p1", None, false).expect("in");
    assert_eq!(incoming, vec!["p3".to_string()]);
    assert_eq!(
        neighbors(&index, &edges, "zz", None, true),
        Err(GraphError::Message("unknown node zz".to_string()))
    );
}

#[test]
fn subgraph_respects_caps() {
    // A chain 1 - 2 - 3 - ... - 800 of member_of edges, plus an ignored kind.
    let mut edges = Vec::new();
    for i in 1..800u64 {
        edges.push(edge(1000 + i, i, i + 1, "member_of"));
    }
    edges.push(edge(5000, 1, 900, "relates_to"));
    let (nodes, eids) = subgraph_walk(&edges, 1, SubgraphLimits { max_depth: 1000, max_nodes: 500 });
    assert!(nodes.len() <= 500);
    assert_eq!(nodes[0], 1);
    assert!(!nodes.contains(&900));
    for id in &eids {
        assert!(*id != 5000);
    }
    let (nodes, _) = subgraph_walk(&edges, 1, SubgraphLimits::default());
    assert_eq!(nodes, vec![1, 2, 3, 4]);
    let (nodes, eids) = subgraph_walk(&edges, 1, SubgraphLimits { max_depth: 3, max_nodes: 0 });
    assert_eq!(nodes, vec![1]);
    assert!(eids.is_empty());
}

#[test]
fn subgraph_walks_both_directions() {
    let edges = vec![
        edge(1, 2, 1, "member_of"),
        edge(2, 3, 1, "member_of"),
        edge(3, 2, 4, "interfaces"),
        edge(4, 4, 5, "depends_on"),
    ];
    let (mut nodes, mut eids) = subgraph_walk(&edges, 1, SubgraphLimits { max_depth: 2, max_nodes: 200 });
    nodes.sort();
    eids.sort();
    assert_eq!(nodes, vec![1, 2, 3, 4]);
    assert_eq!(eids, vec![1, 2, 3]);
}

#[test]
fn s5_acyclic_validation() {
    let index = index_of(&[("p1", 1), ("p2", 2), ("p3", 3)]);
    let mut edges = vec![edge(10, 1, 2, "depends_on"), edge(11, 2, 3, "depends_on"), edge(12, 3, 1, "member_of")];
    assert!(dependency_cycles(&index, &edges).is_empty());
    edges.push(edge(13, 3, 1, "depends_on"));
    let cycles = dependency_cycles(&index, &edges);
    assert_eq!(cycles.len(), 1);
    let cycle = &cycles[0];
    assert!(cycle.contains(&"p1".to_string()), "cycle path contains p1: {cycles:?}");
    assert_eq!(cycle.first(), cycle.last());
    assert_eq!(cycle.len(), 4);
}

#[test]
fn self_dependency_is_a_cycle() {
    let index = index_of(&[("p1", 1)]);
    let edges = vec![edge(1, 1, 1, "depends_on")];
    assert_eq!(dependency_cycles(&index, &edges), vec![vec!["p1".to_string(), "p1".to_string()]]);
}

#[test]
fn list_nodes_by_type_and_cluster() {
    let c = |labels: &[&str], n: Option<Node>| (labels.iter().map(|s| s.to_string()).collect::<Vec<_>>(), n);
    let candidates = || {
        vec![
            c(&["problem"], Some(node("p1", "problem", Some("c1")))),
            c(&["cluster"], Some(node("c1", "cluster", None))),
            c(&["problem"], Some(node("p2", "problem", Some("c2")))),
            c(&["problem"], None),
            c(&["problem"], Some(node("p3", "problem", Some("c1")))),
        ]
    };
    let problems = select_nodes(
        candidates(),
        &NodeFilter { node_type: Some("problem".to_string()), cluster_id: None, limit: None },
    );
    assert_eq!(problems.iter().map(|n| n.id.as_str()).collect::<Vec<_>>(), vec!["p1", "p2", "p3"]);
    let in_c1 = select_nodes(
        candidates(),
        &NodeFilter { node_type: Some("problem".to_string()), cluster_id: Some("c1".to_string()), limit: None },
    );
    assert_eq!(in_c1.iter().map(|n| n.id.as_str()).collect::<Vec<_>>(), vec!["p1", "p3"]);
    let limited = select_nodes(candidates(), &NodeFilter { node_type: None, cluster_id: None, limit: Some(2) });
    assert_eq!(limited.len(), 2);
    let zero = select_nodes(candidates(), &NodeFilter { limit: Some(0), ..NodeFilter::default() });
    assert_eq!(zero.len(), 1);
}

#[test]
fn stored_nodes_drop_the_id_property() {
    let props = vec![
        ("id".to_string(), Json::String("p1".to_string())),
        ("title".to_string(), Json::String("Auth gateway".to_string())),
    ];
    let n = node_from_parts(&vec!["problem".to_string()], Some("p1".to_string()), props).expect("node");
    assert_eq!(n.id, "p1");
    assert_eq!(n.node_type, "problem");
    assert_eq!(n.properties, vec![("title".to_string(), Json::String("Auth gateway".to_string()))]);
    assert!(node_from_parts(&vec![], Some("p1".to_string()), vec![]).is_none());
    assert!(node_from_parts(&vec!["problem".to_string()], None, vec![]).is_none());
}

#[test]
fn member_of_rejects_non_cluster_target() {
    let index = index_of(&[("p1", 1), ("p2", 2)]);
    assert_eq!(edge_endpoints(&index, "p1", "p2"), Ok((1, 2)));
    assert_eq!(
        edge_endpoints(&index, "p1", "zz"),
        Err(GraphError::Message("unknown node zz".to_string()))
    );
    let err = check_member_target("member_of", "p2", Some(vec!["problem".to_string()])).unwrap_err();
    assert_eq!(
        err,
        GraphError::Message("member_of target must be type cluster, got [\"problem\"]".to_string())
    );
    assert!(check_member_target("member_of", "c", Some(vec!["cluster".to_string()])).is_ok());
    assert!(check_member_target("depends_on", "p2", Some(vec!["problem".to_string()])).is_ok());
}

#[test]
fn edge_deletion_candidates_in_order() {
    let edges = vec![edge(1, 1, 2, "depends_on"), edge(2, 1, 2, "member_of"), edge(3, 1, 2, "depends_on")];
    assert_eq!(edges_between(&edges, 1, 2, "depends_on"), vec![1, 3]);
    assert!(edges_between(&edges, 2, 1, "depends_on").is_empty());
}

#[test]
fn match_kinds_are_kept_once() {
    let mut kinds = Vec::new();
    push_kind(&mut kinds, "lexical");
    push_kind(&mut kinds, "semantic");
    push_kind(&mut kinds, "lexical");
    assert_eq!(kinds, vec!["lexical".to_string(), "semantic".to_string()]);
}

#[test]
fn default_limits() {
    let l = SubgraphLimits::default();
    assert_eq!((l.max_depth, l.max_nodes), (3, 200));
    let f = NodeFilter::default();
    assert!(f.node_type.is_none() && f.cluster_id.is_none() && f.limit.is_none());
}

#[test]
fn dependency_neighbors_cover_both_directions() {
    let index = index_of(&[("p1", 1), ("p2", 2), ("p3", 3), ("c", 4)]);
    let edges = vec![
        edge(1, 1, 2, "depends_on"),
        edge(2, 3, 1, "depends_on"),
        edge(3, 2, 1, "depends_on"),
        edge(4, 1, 4, "member_of"),
    ];
    let set = dependency_neighbors(&index, &edges, "p1").expect("deps");
    assert_eq!(set, vec!["p2".to_string(), "p3".to_string()]);
    assert!(dependency_neighbors(&index, &edges, "nope").is_err());
}
