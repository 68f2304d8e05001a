use mdbook_doc_graph::extractor::{
    default_edge_type, Frontmatter, RawFrontmatter, RawRelatedRef,
};
use mdbook_doc_graph::graph::{EdgeType, NodeType};

#[test]
fn test_strip_frontmatter() {
    let content = r#"---
title: Test
---

# Heading

Content here."#;

    let stripped = Frontmatter::strip_frontmatter(content);
    assert!(stripped.starts_with("# Heading"));
}

#[test]
fn test_infer_node_type_from_path() {
    let fm = Frontmatter::default();

    assert_eq!(fm.infer_node_type("docs/adr/0042-auth.md"), NodeType::Adr);
    assert_eq!(
        fm.infer_node_type("blog/posts/2024-01-01.md"),
        NodeType::Blog
    );
    assert_eq!(fm.infer_node_type("notes/scratch/idea.md"), NodeType::Note);
    assert_eq!(fm.infer_node_type("docs/src/user/guide.md"), NodeType::Doc);
}

#[test]
fn test_infer_node_type_from_frontmatter() {
    let mut fm = Frontmatter::default();
    fm.doc_type = Some("adr".to_string());

    // Frontmatter type takes precedence over path
    assert_eq!(fm.infer_node_type("random/path.md"), NodeType::Adr);
}

#[test]
fn test_no_frontmatter() {
    let content = "# Just a heading\n\nSome content.";
    let fm = Frontmatter::yaml_block(content);
    assert!(fm.is_none());
}

#[test]
fn test_empty_frontmatter() {
    let content = "---\n---\n# Content";
    let fm = Frontmatter::yaml_block(content);
    assert!(fm.is_none());
}

// ---------------------------------------------------------------------------
// Further cases
// ---------------------------------------------------------------------------

#[test]
fn yaml_block_is_found() {
    let content = "---\ntitle: My Document\nstatus: draft\n---\n\n# Content here\n";
    assert_eq!(
        Frontmatter::yaml_block(content),
        Some("\ntitle: My Document\nstatus: draft")
    );
    assert_eq!(Frontmatter::yaml_block("  \n---\nid: x\n---"), Some("\nid: x"));
}

#[test]
fn yaml_block_is_absent() {
    // No frontmatter
    assert_eq!(Frontmatter::yaml_block("# Just a heading\n\nSome content."), None);
    // Empty frontmatter
    assert_eq!(Frontmatter::yaml_block("---\n---\n# Content"), None);
    // Blank frontmatter
    assert_eq!(Frontmatter::yaml_block("---\n  \t\n---\n# Content"), None);
    // No closing delimiter
    assert_eq!(Frontmatter::yaml_block("---\ntitle: x\n"), None);
}

#[test]
fn strip_handles_crlf_and_missing_blocks() {
    assert_eq!(
        Frontmatter::strip_frontmatter("---\r\ntitle: x\r\n---\r\n\r\nBody"),
        "Body"
    );
    assert_eq!(Frontmatter::strip_frontmatter("No block"), "No block");
    assert_eq!(Frontmatter::strip_frontmatter("---\nunclosed"), "---\nunclosed");
    // The closing delimiter only needs to start a line.
    assert_eq!(Frontmatter::strip_frontmatter("---\na\n----x\ny"), "-x\ny");
}

#[test]
fn frontmatter_from_raw_fields() {
    let raw = RawFrontmatter {
        uuid: Some("550e8400-e29b-41d4-a716-446655440000".to_string()),
        title: Some("Implementation Doc".to_string()),
        doc_type: Some("adr".to_string()),
        status: None,
        created: None,
        tags: vec!["rust".to_string(), "testing".to_string()],
        related: vec![
            RawRelatedRef::Full {
                target: "adr-0042".to_string(),
                edge_type: "Decision".to_string(),
                note: Some("Explains the timeout behavior".to_string()),
            },
            RawRelatedRef::Simple("simple-ref".to_string()),
        ],
        extra: vec![
            ("audience".to_string(), serde_json::Value::String("devs".to_string())),
            ("title".to_string(), serde_json::Value::String("dup".to_string())),
        ],
    };
    let fm = Frontmatter::from_raw(raw);
    assert_eq!(fm.uuid.as_deref(), Some("550e8400-e29b-41d4-a716-446655440000"));
    assert_eq!(fm.tags, vec!["rust", "testing"]);
    assert_eq!(fm.related.len(), 2);
    assert_eq!(fm.related[0].target, "adr-0042");
    assert_eq!(fm.related[0].edge_type, EdgeType::Decision);
    assert_eq!(fm.related[0].note.as_deref(), Some("Explains the timeout behavior"));
    assert_eq!(fm.related[1].target, "simple-ref");
    assert_eq!(fm.related[1].edge_type, EdgeType::RelatedTo);
    assert!(fm.related[1].note.is_none());
    assert_eq!(fm.extra.len(), 1);
    assert_eq!(fm.extra[0].0, "audience");

    let meta = fm.to_node_metadata();
    assert_eq!(meta.title.as_deref(), Some("Implementation Doc"));
    assert_eq!(meta.tags, vec!["rust", "testing"]);
    assert!(meta.audience.is_empty());
    assert!(meta.level.is_none());
    assert_eq!(meta.extra.len(), 1);
}

#[test]
fn default_related_type() {
    assert_eq!(default_edge_type(), "related_to");
    assert_eq!(EdgeType::from(default_edge_type().as_str()), EdgeType::RelatedTo);
}

/// The fields that the YAML parse gives, with nothing else set.
fn raw_with(title: Option<&str>) -> RawFrontmatter {
    RawFrontmatter {
        uuid: None,
        title: title.map(|t| t.to_string()),
        doc_type: None,
        status: None,
        created: None,
        tags: Vec::new(),
        related: Vec::new(),
        extra: Vec::new(),
    }
}

#[test]
fn test_extract_simple_frontmatter() {
    let content = r#"---
title: My Document
status: draft
tags:
  - rust
  - testing
---

# Content here
"#;

    // The library frames the block; the YAML parse (in the application)
    // turns it into these raw fields.
    assert_eq!(
        Frontmatter::yaml_block(content),
        Some("\ntitle: My Document\nstatus: draft\ntags:\n  - rust\n  - testing")
    );
    let mut raw = raw_with(Some("My Document"));
    raw.status = Some("draft".to_string());
    raw.tags = vec!["rust".to_string(), "testing".to_string()];

    let fm = Frontmatter::from_raw(raw);
    assert_eq!(fm.title, Some("My Document".to_string()));
    assert_eq!(fm.status, Some("draft".to_string()));
    assert_eq!(fm.tags, vec!["rust", "testing"]);
}

#[test]
fn test_extract_with_uuid() {
    let content = r#"---
id: 550e8400-e29b-41d4-a716-446655440000
title: ADR-0042
type: adr
---
"#;

    assert_eq!(
        Frontmatter::yaml_block(content),
        Some("\nid: 550e8400-e29b-41d4-a716-446655440000\ntitle: ADR-0042\ntype: adr")
    );
    let mut raw = raw_with(Some("ADR-0042"));
    raw.uuid = Some("550e8400-e29b-41d4-a716-446655440000".to_string());
    raw.doc_type = Some("adr".to_string());

    let fm = Frontmatter::from_raw(raw);
    assert_eq!(
        fm.uuid,
        Some("550e8400-e29b-41d4-a716-446655440000".to_string())
    );
    assert_eq!(fm.doc_type, Some("adr".to_string()));
}

#[test]
fn test_extract_with_related() {
    let content = r#"---
title: Implementation Doc
related:
  - target: adr-0042
    type: decision
    note: Explains the timeout behavior
  - simple-ref
---
"#;

    assert_eq!(
        Frontmatter::yaml_block(content),
        Some(
            "\ntitle: Implementation Doc\nrelated:\n  - target: adr-0042\n    type: decision\n    note: Explains the timeout behavior\n  - simple-ref"
        )
    );
    let mut raw = raw_with(Some("Implementation Doc"));
    raw.related = vec![
        RawRelatedRef::Full {
            target: "adr-0042".to_string(),
            edge_type: "decision".to_string(),
            note: Some("Explains the timeout behavior".to_string()),
        },
        RawRelatedRef::Simple("simple-ref".to_string()),
    ];

    let fm = Frontmatter::from_raw(raw);
    assert_eq!(fm.related.len(), 2);
    assert_eq!(fm.related[0].target, "adr-0042");
    assert_eq!(fm.related[0].edge_type, EdgeType::Decision);
    assert_eq!(
        fm.related[0].note,
        Some("Explains the timeout behavior".to_string())
    );
    assert_eq!(fm.related[1].target, "simple-ref");
    assert_eq!(fm.related[1].edge_type, EdgeType::RelatedTo);
}
