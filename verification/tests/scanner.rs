use mdbook_doc_graph::graph::EdgeType;
use mdbook_doc_graph::scanner::{
    find_links, infer_edge_type_from_context, is_internal_link, normalize_target, path_to_node_id,
};

#[test]
fn test_find_markdown_links() {
    let content = r#"
Check out [the docs](../docs/guide.md) for more info.
Also see [external](https://example.com) resources.
"#;

    let links = find_links(content);
    assert_eq!(links.len(), 2);

    assert_eq!(links[0].text, "the docs");
    assert_eq!(links[0].target, "../docs/guide.md");
    assert!(links[0].is_internal);

    assert_eq!(links[1].text, "external");
    assert_eq!(links[1].target, "https://example.com");
    assert!(!links[1].is_internal);
}

#[test]
fn test_find_wikilinks() {
    let content = r#"
See [[ADR-0042]] for details.
Also check [[some/path/file|the file]].
"#;

    let links = find_links(content);
    assert_eq!(links.len(), 2);

    assert_eq!(links[0].text, "ADR-0042");
    assert_eq!(links[0].target, "ADR-0042");
    assert!(links[0].is_internal);

    assert_eq!(links[1].text, "the file");
    assert_eq!(links[1].target, "some/path/file");
    assert!(links[1].is_internal);
}

#[test]
fn test_is_internal_link() {
    assert!(is_internal_link("./file.md"));
    assert!(is_internal_link("../other/file.md"));
    assert!(is_internal_link("file.md"));
    assert!(is_internal_link("#anchor"));
    assert!(is_internal_link("/absolute/path.md"));

    assert!(!is_internal_link("https://example.com"));
    assert!(!is_internal_link("http://example.com"));
    assert!(!is_internal_link("mailto:test@example.com"));
}

#[test]
fn test_normalize_target() {
    assert_eq!(
        normalize_target("./sibling.md", "docs/current.md"),
        "docs/sibling.md"
    );
    assert_eq!(
        normalize_target("../other/file.md", "docs/sub/current.md"),
        "docs/other/file.md"
    );
    assert_eq!(
        normalize_target("/absolute.md", "any/path.md"),
        "absolute.md"
    );
    assert_eq!(
        normalize_target("file.md#anchor", "dir/current.md"),
        "file.md"
    );
}

#[test]
fn test_path_to_node_id() {
    assert_eq!(path_to_node_id("docs/guide.md"), "docs-guide");
    assert_eq!(path_to_node_id("adr/0042-timeout.md"), "adr-0042");
    assert_eq!(
        path_to_node_id("blog/2024-01-01-post.md"),
        "blog-2024-01-01-post"
    );
}

#[test]
fn test_infer_edge_type() {
    assert_eq!(
        infer_edge_type_from_context("See the decision", "adr-0042"),
        EdgeType::Decision
    );
    assert_eq!(
        infer_edge_type_from_context("This supersedes the old one", "old.md"),
        EdgeType::Supersedes
    );
    assert_eq!(
        infer_edge_type_from_context("See also", "related.md"),
        EdgeType::SeeAlso
    );
    assert_eq!(
        infer_edge_type_from_context("click here", "file.md"),
        EdgeType::LinksTo
    );
}

// ---------------------------------------------------------------------------
// Further cases
// ---------------------------------------------------------------------------

#[test]
fn markdown_link_positions_are_byte_offsets() {
    let content = "é [a](b.md) ü [[x]]";
    let links = find_links(content);
    assert_eq!(links.len(), 2);
    // 'é' takes two bytes, so the link starts at byte 3.
    assert_eq!(links[0].position, (3, 12));
    assert_eq!(&content[3..12], "[a](b.md)");
    assert_eq!(links[1].position, (16, 21));
    assert_eq!(&content[16..21], "[[x]]");
}

#[test]
fn markdown_link_needs_a_target() {
    assert!(find_links("[text]() and [t](u)").len() == 1);
    let links = find_links("[text]() and [t](u)");
    assert_eq!(links[0].text, "t");
    assert_eq!(links[0].target, "u");
}

#[test]
fn markdown_link_text_runs_to_first_bracket() {
    // The text of `[a [b](c)` runs from the first `[` to the first `]`.
    let links = find_links("[a [b](c)");
    assert_eq!(links.len(), 1);
    assert_eq!(links[0].text, "a [b");
    assert_eq!(links[0].target, "c");
    assert_eq!(links[0].position, (0, 9));
}

#[test]
fn markdown_links_come_before_wiki_links() {
    let links = find_links("[[w]] then [m](n)");
    assert_eq!(links.len(), 2);
    assert_eq!(links[0].target, "n");
    assert_eq!(links[1].target, "w");
}

#[test]
fn wiki_link_with_bar_needs_text() {
    assert!(find_links("[[a|]]").is_empty());
    assert!(find_links("[[]]").is_empty());
    let links = find_links("[[a|b|c]]");
    assert_eq!(links.len(), 1);
    assert_eq!(links[0].target, "a");
    assert_eq!(links[0].text, "b|c");
}

#[test]
fn external_targets() {
    assert!(!is_internal_link("tel:+123"));
    assert!(is_internal_link("telephone.md"));
    assert!(!is_internal_link("ftp://host/file"));
}

#[test]
fn normalize_climbs_and_skips_dots() {
    assert_eq!(normalize_target("../../x.md", "a/b/c.md"), "x.md");
    assert_eq!(normalize_target("../../../x.md", "a/b.md"), "x.md");
    assert_eq!(normalize_target("./a/./b//c.md#top", "d/e.md"), "d/a/b/c.md");
    assert_eq!(normalize_target("//double.md", "d/e.md"), "double.md");
    assert_eq!(normalize_target("plain/path.md", "d/e.md"), "plain/path.md");
    assert_eq!(normalize_target("#only", "d/e.md"), "");
    assert_eq!(normalize_target("./x.md", "top.md"), "x.md");
}

#[test]
fn node_ids() {
    assert_eq!(path_to_node_id("notes/idea.markdown"), "notes-idea");
    assert_eq!(path_to_node_id("/lead/x.md"), "lead-x");
    assert_eq!(path_to_node_id("win\\path.md"), "win-path");
    assert_eq!(path_to_node_id("adr_7.md"), "adr-0007");
    assert_eq!(path_to_node_id("decisions/adr12345.md"), "adr-12345");
    // A number beyond u32 parses as zero.
    assert_eq!(path_to_node_id("adr-99999999999.md"), "adr-0000");
    // The pattern is case-sensitive.
    assert_eq!(path_to_node_id("ADR-0042.md"), "ADR-0042");
    // `adr-` followed by no digit does not match.
    assert_eq!(path_to_node_id("adr-x.md"), "adr-x");
}

#[test]
fn edge_type_keywords_in_order() {
    assert_eq!(
        infer_edge_type_from_context("REPLACES the decision", "x"),
        EdgeType::Supersedes
    );
    assert_eq!(infer_edge_type_from_context("Implementing ADR", "x"), EdgeType::Implements);
    assert_eq!(infer_edge_type_from_context("Related work", "x"), EdgeType::SeeAlso);
    assert_eq!(infer_edge_type_from_context("Derived from", "x"), EdgeType::BasedOn);
}

#[test]
fn normalized_targets_are_relative() {
    for (t, src) in [("/a.md", "x.md"), ("///b.md", "x.md"), ("../../c.md", "a/b.md"), ("./d", ""), ("e", "f")] {
        assert!(!normalize_target(t, src).starts_with('/'));
    }
}

#[test]
fn node_ids_have_no_separators() {
    for p in ["a/b/c.md", "a\\b.markdown", "/x/adr-3.md", "docs/adr_0042/guide.md"] {
        let id = path_to_node_id(p);
        assert!(!id.contains('/') && !id.contains('\\'));
    }
    assert_eq!(path_to_node_id("docs/adr_0042/guide.md"), "adr-0042");
}

#[test]
fn link_positions_lie_within_content() {
    let content = "é [a](b.md) ü [[c|d]] [[e]] [](f)";
    for link in find_links(content) {
        let (start, end) = link.position;
        assert!(start < end);
        assert!(end <= content.len());
        assert!(content.is_char_boundary(start));
        assert!(content.is_char_boundary(end));
        assert!(content[start..end].starts_with('['));
    }
    assert_eq!(find_links(content).len(), 4);
}

#[test]
fn normalized_relative_targets_are_normal() {
    let once = normalize_target("../../x.md", "a.md");
    assert_eq!(once, "x.md");
    let r = normalize_target("./a/./b/../c.md#part", "docs/src/guide.md");
    assert_eq!(r, "docs/src/a/c.md");
    for seg in r.split('/') {
        assert!(!seg.is_empty() && seg != "." && seg != "..");
    }
    assert_eq!(normalize_target(&r, "elsewhere/x.md"), r);
    assert_eq!(normalize_target(&once, "y/z.md"), once);
}

#[test]
fn lowercasing_ascii_names() {
    assert_eq!(EdgeType::from("Supersedes"), EdgeType::Supersedes);
    assert_eq!(infer_edge_type_from_context("See Also the guide", "x"), EdgeType::SeeAlso);
}
