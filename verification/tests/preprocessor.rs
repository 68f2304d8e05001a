use mdbook_doc_graph::config::Config;
use mdbook_doc_graph::extractor::{Frontmatter, RawFrontmatter, RawRelatedRef};
use mdbook_doc_graph::graph::{EdgeType, NodeType};
use mdbook_doc_graph::preprocessor::{ChapterInput, DocGraphPreprocessor, PathIndex};

#[test]
fn preprocessor_test_preprocessor_name() {
    let preprocessor = DocGraphPreprocessor::new();
    assert_eq!(preprocessor.name(), "doc-graph");
}

#[test]
fn preprocessor_test_supports_html_renderer() {
    let preprocessor = DocGraphPreprocessor::new();
    assert!(preprocessor.supports_renderer("html"));
}

#[test]
fn preprocessor_test_supports_epub_renderer() {
    let preprocessor = DocGraphPreprocessor::new();
    assert!(preprocessor.supports_renderer("epub"));
}

#[test]
fn preprocessor_test_does_not_support_not_supported() {
    let preprocessor = DocGraphPreprocessor::new();
    assert!(!preprocessor.supports_renderer("not-supported"));
}

#[test]
fn integration_test_preprocessor_name() {
    let preprocessor = DocGraphPreprocessor::new();
    assert_eq!(preprocessor.name(), "doc-graph");
}

#[test]
fn integration_test_supports_html_renderer() {
    let preprocessor = DocGraphPreprocessor::new();
    assert!(preprocessor.supports_renderer("html"));
}

#[test]
fn integration_test_supports_epub_renderer() {
    let preprocessor = DocGraphPreprocessor::new();
    assert!(preprocessor.supports_renderer("epub"));
}

#[test]
fn integration_test_does_not_support_not_supported() {
    let preprocessor = DocGraphPreprocessor::new();
    assert!(!preprocessor.supports_renderer("not-supported"));
}

// ---------------------------------------------------------------------------
// Building a graph
// ---------------------------------------------------------------------------

fn chapter(path: &str, content: &str, fm: Option<RawFrontmatter>) -> ChapterInput {
    ChapterInput {
        path: Some(path.to_string()),
        content: content.to_string(),
        frontmatter: Ok(fm.map(Frontmatter::from_raw)),
    }
}

fn raw(uuid: Option<&str>, related: Vec<RawRelatedRef>) -> RawFrontmatter {
    RawFrontmatter {
        uuid: uuid.map(|s| s.to_string()),
        title: None,
        doc_type: None,
        status: None,
        created: None,
        tags: vec![],
        related,
        extra: vec![],
    }
}

fn book() -> Vec<ChapterInput> {
    vec![
        chapter(
            "docs/adr/0042-timeout.md",
            "---\ntitle: Timeouts\n---\n# ADR\nSee [the guide](../guide.md) and [myself](./0042-timeout.md).",
            Some(raw(None, vec![])),
        ),
        chapter(
            "docs/guide.md",
            "---\nrelated: x\n---\nBody with [[docs/adr/0042-timeout]] and [ext](https://x.org).",
            Some(raw(
                Some("guide-uuid"),
                vec![
                    RawRelatedRef::Full {
                        target: "adr-0042".to_string(),
                        edge_type: "implements".to_string(),
                        note: Some("why".to_string()),
                    },
                    RawRelatedRef::Simple("missing".to_string()),
                ],
            )),
        ),
        ChapterInput { path: None, content: "draft".to_string(), frontmatter: Ok(None) },
        ChapterInput {
            path: Some("notes/broken.md".to_string()),
            content: "---\n: :\n---\n".to_string(),
            frontmatter: Err("Frontmatter parse error in : bad".to_string()),
        },
    ]
}

#[test]
fn build_graph_from_chapters() {
    let pre = DocGraphPreprocessor::new();
    let (graph, warnings) = pre.build_graph(&book(), &Config::default());

    assert_eq!(graph.version, "1.0");
    assert_eq!(graph.nodes.len(), 3);
    assert_eq!(graph.nodes[0].id, "adr-0042");
    assert_eq!(graph.nodes[0].node_type, NodeType::Adr);
    assert_eq!(graph.nodes[1].id, "guide-uuid");
    assert_eq!(graph.nodes[1].uuid.as_deref(), Some("guide-uuid"));
    // The type is read from "/docs/" or "/notes/" only with the slashes.
    assert_eq!(graph.nodes[1].node_type, NodeType::Unknown);
    assert_eq!(graph.nodes[2].id, "notes-broken");
    assert_eq!(graph.nodes[2].node_type, NodeType::Unknown);

    // Edges: the guide link from the ADR (the self link is skipped), the
    // `implements` reference and the wiki link (its text mentions "adr")
    // from the guide, then the inverses of the last two.
    assert_eq!(graph.edges.len(), 5);
    assert_eq!(graph.edges[0].source, "adr-0042");
    assert_eq!(graph.edges[0].target, "guide-uuid");
    assert_eq!(graph.edges[0].edge_type, EdgeType::LinksTo);
    assert_eq!(graph.edges[1].source, "guide-uuid");
    assert_eq!(graph.edges[1].target, "adr-0042");
    assert_eq!(graph.edges[1].edge_type, EdgeType::Implements);
    assert_eq!(graph.edges[1].metadata.note.as_deref(), Some("why"));
    assert_eq!(graph.edges[2].source, "guide-uuid");
    assert_eq!(graph.edges[2].target, "adr-0042");
    assert_eq!(graph.edges[2].edge_type, EdgeType::Decision);
    assert_eq!(graph.edges[3].source, "adr-0042");
    assert_eq!(graph.edges[3].target, "guide-uuid");
    assert_eq!(graph.edges[3].edge_type, EdgeType::ImplementedBy);
    assert!(graph.edges[3].metadata.auto);
    assert_eq!(graph.edges[4].edge_type, EdgeType::DecidedBy);
    assert!(!graph.edges[0].metadata.auto);

    let stats = graph.statistics.as_ref().unwrap();
    assert_eq!(stats.total_nodes, 3);
    assert_eq!(stats.total_edges, 5);
    assert_eq!(stats.orphaned_nodes, vec!["notes/broken.md"]);
    assert_eq!(stats.edges_by_type.get("links_to"), Some(&1));
    assert_eq!(stats.nodes_by_type.get("unknown"), Some(&2));

    assert_eq!(warnings.len(), 2);
    assert_eq!(warnings[0], "notes/broken.md: Frontmatter parse error in : bad");
    assert_eq!(warnings[1], "docs/guide.md: unresolved reference 'missing'");
}

#[test]
fn build_graph_without_inverse_edges_or_statistics() {
    let pre = DocGraphPreprocessor::new();
    let mut config = Config::default();
    config.inverse_edges.enabled = false;
    config.stats.enabled = false;
    let (graph, _) = pre.build_graph(&book(), &config);
    assert_eq!(graph.edges.len(), 3);
    assert!(graph.statistics.is_none());
}

#[test]
fn resolve_target_by_id_uuid_path_and_suffix() {
    let pre = DocGraphPreprocessor::new();
    let (graph, _) = pre.build_graph(&book(), &Config::default());
    let mut index = PathIndex::new();
    for n in &graph.nodes {
        index.insert(n.path.clone(), n.id.clone());
    }
    let r = |t: &str| DocGraphPreprocessor::resolve_target(t, &index, &graph);
    assert_eq!(r("adr-0042").as_deref(), Some("adr-0042"));
    assert_eq!(r("guide-uuid").as_deref(), Some("guide-uuid"));
    assert_eq!(r("docs/guide.md").as_deref(), Some("guide-uuid"));
    assert_eq!(r("docs/guide").as_deref(), Some("guide-uuid"));
    assert_eq!(r("broken").as_deref(), Some("notes-broken"));
    assert_eq!(r("nothing"), None);
}

#[test]
fn path_index_replaces() {
    let mut index = PathIndex::new();
    index.insert("a.md".to_string(), "one".to_string());
    index.insert("b.md".to_string(), "two".to_string());
    index.insert("a.md".to_string(), "three".to_string());
    assert_eq!(index.len(), 2);
    assert_eq!(index.get("a.md").map(|s| s.as_str()), Some("three"));
    assert_eq!(index.entry(0).path, "a.md");
    assert!(index.get("c.md").is_none());
}

#[test]
fn mermaid_diagram() {
    let pre = DocGraphPreprocessor::new();
    let (graph, _) = pre.build_graph(&book(), &Config::default());
    let text = DocGraphPreprocessor::render_mermaid(&graph);
    let expected = "graph LR\n    subgraph ADR\n        adr_0042[\"adr-0042\"]\n    end\n    subgraph UNKNOWN\n        guide_uuid[\"guide-uuid\"]\n        notes_broken[\"notes-broken\"]\n    end\n    adr_0042 -->|links to| guide_uuid\n    guide_uuid -->|implements| adr_0042\n    guide_uuid -->|decision| adr_0042\n    adr_0042 -->|implemented by| guide_uuid\n    adr_0042 -->|decided by| guide_uuid\n";
    assert_eq!(text, expected);
}

#[test]
fn mermaid_labels_are_sanitised() {
    let mut graph = mdbook_doc_graph::graph::DocGraph::new();
    let mut meta = mdbook_doc_graph::graph::NodeMetadata::default();
    meta.title = Some("Say \"hi\" [now]".to_string());
    graph.add_node(
        mdbook_doc_graph::graph::Node::new("a-b".to_string(), "a.md".to_string(), NodeType::Blog)
            .with_metadata(meta),
    );
    let text = DocGraphPreprocessor::render_mermaid(&graph);
    assert_eq!(text, "graph LR\n    subgraph BLOG\n        a_b[\"Say 'hi' now\"]\n    end\n");
}

#[test]
fn every_edge_connects_nodes() {
    let pre = DocGraphPreprocessor::new();
    let (graph, _) = pre.build_graph(&book(), &Config::default());
    for e in &graph.edges {
        assert!(graph.find_node(&e.source).is_some());
        assert!(graph.find_node(&e.target).is_some());
    }
}

#[test]
fn statistics_add_up() {
    let pre = DocGraphPreprocessor::new();
    let (graph, _) = pre.build_graph(&book(), &Config::default());
    let stats = graph.statistics.as_ref().unwrap();
    let node_sum: usize = stats.nodes_by_type.entries().iter().map(|e| e.count).sum();
    let edge_sum: usize = stats.edges_by_type.entries().iter().map(|e| e.count).sum();
    assert_eq!(node_sum, stats.total_nodes);
    assert_eq!(edge_sum, stats.total_edges);
}

#[test]
fn inverse_edges_reverse_their_edges() {
    let pre = DocGraphPreprocessor::new();
    let config = Config::default();
    let (graph, _) = pre.build_graph(&book(), &config);
    let auto: Vec<_> = graph.edges.iter().filter(|e| e.metadata.auto).collect();
    let plain: Vec<_> = graph.edges.iter().filter(|e| !e.metadata.auto).collect();
    assert_eq!(auto.len(), 2);
    for inv in auto {
        assert!(plain.iter().any(|e| e.source == inv.target
            && e.target == inv.source
            && config.get_inverse_edge_type(&e.edge_type.to_string())
                == Some(inv.edge_type.to_string().as_str())));
    }
}
