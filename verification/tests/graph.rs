use mdbook_doc_graph::graph::{DocGraph, Edge, EdgeType, Node, NodeType};

#[test]
fn test_new_graph() {
    let graph = DocGraph::new();
    assert_eq!(graph.version, "1.0");
    assert!(graph.nodes.is_empty());
    assert!(graph.edges.is_empty());
}

#[test]
fn test_add_node() {
    let mut graph = DocGraph::new();
    let node = Node::new(
        "adr-0042".to_string(),
        "docs/adr/0042.md".to_string(),
        NodeType::Adr,
    );
    graph.add_node(node);
    assert_eq!(graph.nodes.len(), 1);
}

#[test]
fn test_find_node() {
    let mut graph = DocGraph::new();
    let node = Node::new(
        "adr-0042".to_string(),
        "docs/adr/0042.md".to_string(),
        NodeType::Adr,
    );
    graph.add_node(node);

    assert!(graph.find_node("adr-0042").is_some());
    assert!(graph.find_node("nonexistent").is_none());
}

#[test]
fn test_find_orphans() {
    let mut graph = DocGraph::new();

    // Add two nodes
    graph.add_node(Node::new(
        "node1".to_string(),
        "path1.md".to_string(),
        NodeType::Doc,
    ));
    graph.add_node(Node::new(
        "node2".to_string(),
        "path2.md".to_string(),
        NodeType::Doc,
    ));
    graph.add_node(Node::new(
        "orphan".to_string(),
        "orphan.md".to_string(),
        NodeType::Note,
    ));

    // Connect node1 and node2
    graph.add_edge(Edge::new(
        "node1".to_string(),
        "node2".to_string(),
        EdgeType::LinksTo,
    ));

    let orphans = graph.find_orphans();
    assert_eq!(orphans.len(), 1);
    assert_eq!(orphans[0].id, "orphan");
}

#[test]
fn test_node_type_from_str() {
    assert_eq!(NodeType::from("adr"), NodeType::Adr);
    assert_eq!(NodeType::from("doc"), NodeType::Doc);
    assert_eq!(NodeType::from("blog"), NodeType::Blog);
    assert_eq!(NodeType::from("note"), NodeType::Note);
    assert_eq!(NodeType::from("unknown_type"), NodeType::Unknown);
}

#[test]
fn test_edge_type_from_str() {
    assert_eq!(EdgeType::from("supersedes"), EdgeType::Supersedes);
    assert_eq!(EdgeType::from("decision"), EdgeType::Decision);
    assert_eq!(EdgeType::from("see_also"), EdgeType::SeeAlso);
    assert_eq!(
        EdgeType::from("custom_type"),
        EdgeType::Custom("custom_type".to_string())
    );
}

#[test]
fn test_compute_statistics() {
    let mut graph = DocGraph::new();

    graph.add_node(Node::new(
        "n1".to_string(),
        "p1.md".to_string(),
        NodeType::Adr,
    ));
    graph.add_node(Node::new(
        "n2".to_string(),
        "p2.md".to_string(),
        NodeType::Adr,
    ));
    graph.add_node(Node::new(
        "n3".to_string(),
        "p3.md".to_string(),
        NodeType::Doc,
    ));
    graph.add_node(Node::new(
        "n4".to_string(),
        "p4.md".to_string(),
        NodeType::Note,
    ));

    graph.add_edge(Edge::new(
        "n1".to_string(),
        "n2".to_string(),
        EdgeType::Supersedes,
    ));
    graph.add_edge(Edge::new(
        "n3".to_string(),
        "n1".to_string(),
        EdgeType::Decision,
    ));

    let stats = graph.compute_statistics();

    assert_eq!(stats.total_nodes, 4);
    assert_eq!(stats.total_edges, 2);
    assert_eq!(stats.nodes_by_type.get("adr"), Some(&2));
    assert_eq!(stats.nodes_by_type.get("doc"), Some(&1));
    assert_eq!(stats.orphaned_nodes.len(), 1); // n4 is orphaned
}

// ---------------------------------------------------------------------------
// Further cases
// ---------------------------------------------------------------------------

#[test]
fn type_names_read_back() {
    for t in [NodeType::Adr, NodeType::Doc, NodeType::Blog, NodeType::Note, NodeType::Unknown] {
        assert_eq!(NodeType::from(t.to_string().as_str()), t);
    }
    for e in [EdgeType::Supersedes, EdgeType::WatchedBy, EdgeType::LinksTo, EdgeType::CoversPeriod] {
        assert_eq!(EdgeType::from(e.to_string().as_str()), e);
    }
    assert_eq!(EdgeType::Custom("my_link".to_string()).to_string(), "my_link");
}

#[test]
fn type_names_ignore_case_and_aliases() {
    assert_eq!(NodeType::from("Documentation"), NodeType::Doc);
    assert_eq!(NodeType::from("POST"), NodeType::Blog);
    assert_eq!(NodeType::from("scratch"), NodeType::Note);
    assert_eq!(EdgeType::from("Related"), EdgeType::RelatedTo);
    assert_eq!(EdgeType::from("LINK"), EdgeType::LinksTo);
    assert_eq!(EdgeType::from("Mine"), EdgeType::Custom("mine".to_string()));
}

#[test]
fn lookups_take_the_first_match() {
    let mut graph = DocGraph::new();
    graph.add_node(Node::new("a".to_string(), "x.md".to_string(), NodeType::Doc).with_uuid("u1".to_string()));
    graph.add_node(Node::new("b".to_string(), "x.md".to_string(), NodeType::Blog).with_uuid("u1".to_string()));
    assert_eq!(graph.find_node_by_path("x.md").unwrap().id, "a");
    assert_eq!(graph.find_node_by_uuid("u1").unwrap().id, "a");
    assert!(graph.find_node_by_uuid("u2").is_none());
    assert!(graph.find_node_by_path("y.md").is_none());
}

#[test]
fn edges_from_and_to() {
    let mut graph = DocGraph::new();
    graph.add_edge(Edge::new("a".to_string(), "b".to_string(), EdgeType::LinksTo));
    graph.add_edge(Edge::new("b".to_string(), "a".to_string(), EdgeType::SeeAlso));
    graph.add_edge(Edge::new("a".to_string(), "c".to_string(), EdgeType::Decision));
    let from_a = graph.edges_from("a");
    assert_eq!(from_a.len(), 2);
    assert_eq!(from_a[0].target, "b");
    assert_eq!(from_a[1].target, "c");
    let to_a = graph.edges_to("a");
    assert_eq!(to_a.len(), 1);
    assert_eq!(to_a[0].source, "b");
}

#[test]
fn statistics_count_every_type() {
    let mut graph = DocGraph::new();
    graph.add_node(Node::new("n1".to_string(), "p1.md".to_string(), NodeType::Blog));
    graph.add_edge(Edge::new("n1".to_string(), "x".to_string(), EdgeType::Custom("c".to_string())));
    graph.add_edge(Edge::new("x".to_string(), "n1".to_string(), EdgeType::Custom("c".to_string())));
    graph.add_edge(Edge::new("x".to_string(), "y".to_string(), EdgeType::LinksTo));
    let stats = graph.compute_statistics();
    assert_eq!(stats.edges_by_type.get("c"), Some(&2));
    assert_eq!(stats.edges_by_type.get("links_to"), Some(&1));
    assert_eq!(stats.edges_by_type.get("decision"), None);
    assert_eq!(stats.edges_by_type.len(), 2);
    assert_eq!(stats.nodes_by_type.get("blog"), Some(&1));
    assert!(stats.orphaned_nodes.is_empty());
}

#[test]
fn auto_generated_edges_are_marked() {
    let e = Edge::new("a".to_string(), "b".to_string(), EdgeType::Decision).as_auto_generated();
    assert!(e.metadata.auto);
    assert!(e.metadata.generated_at.is_some());
    assert!(e.metadata.note.is_none());
}
