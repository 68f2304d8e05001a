use mdbook_doc_graph::config::{Config, InverseEdgeMapping};

#[test]
fn test_default_config() {
    let config = Config::default();
    assert!(config.inverse_edges.enabled);
    assert!(config.validation.orphan_detection);
    assert!(config.stats.enabled);
}

#[test]
fn test_inverse_edge_lookup() {
    let config = Config::default();
    assert_eq!(
        config.get_inverse_edge_type("supersedes"),
        Some("superseded_by")
    );
    assert_eq!(config.get_inverse_edge_type("decision"), Some("decided_by"));
    assert_eq!(config.get_inverse_edge_type("unknown"), None);
}

#[test]
fn default_config_values() {
    let config = Config::default();
    assert_eq!(config.output.graph_file, "target/docs-graph.json");
    assert_eq!(config.output.stats_file.as_deref(), Some("target/docs-stats.json"));
    assert!(config.output.mermaid_file.is_none());
    assert_eq!(config.inverse_edges.types.len(), 7);
    assert_eq!(config.validation.orphan_allowed_types, vec!["scratch", "draft"]);
    assert_eq!(config.validation.circular_supersedes, "warn");
    assert!(!config.validation.require_adr_doc_link);
    assert_eq!(config.get_inverse_edge_type("watches"), Some("watched_by"));
}

#[test]
fn disabled_inverse_edges_have_no_inverse() {
    let mut config = Config::default();
    config.inverse_edges.enabled = false;
    assert_eq!(config.get_inverse_edge_type("supersedes"), None);
}

#[test]
fn first_mapping_wins() {
    let mut config = Config::default();
    config.inverse_edges.types.insert(0, InverseEdgeMapping::new("supersedes", "replaced_by"));
    assert_eq!(config.get_inverse_edge_type("supersedes"), Some("replaced_by"));
}
