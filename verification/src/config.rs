//! Configuration for the doc-graph plugin.
//!
//! Configured in `book.toml` under `[preprocessor.doc-graph]`, with the
//! tables `output`, `inverse_edges`, `validation` and `stats`.

use vstd::prelude::*;
use crate::text::same_text;

verus! {

broadcast use vstd::string::group_string_axioms;

/// Plugin configuration from `book.toml`.
#[derive(Debug, Clone)]
pub struct Config {
    /// Output configuration
    pub output: OutputConfig,
    /// Inverse edge generation settings
    pub inverse_edges: InverseEdgeConfig,
    /// Validation rules
    pub validation: ValidationConfig,
    /// Statistics generation
    pub stats: StatsConfig,
}

/// Output file configuration.
#[derive(Debug, Clone)]
pub struct OutputConfig {
    /// Path to output graph JSON file
    pub graph_file: String,
    /// Path to output statistics JSON file
    pub stats_file: Option<String>,
    /// Path to output Mermaid diagram file
    pub mermaid_file: Option<String>,
}

/// Inverse edge generation configuration.
#[derive(Debug, Clone)]
pub struct InverseEdgeConfig {
    /// Whether to generate inverse edges
    pub enabled: bool,
    /// Custom inverse edge type mappings
    pub types: Vec<InverseEdgeMapping>,
}

/// Mapping from forward edge type to inverse edge type.
#[derive(Debug, Clone)]
pub struct InverseEdgeMapping {
    /// Forward edge type name
    pub forward: String,
    /// Inverse edge type name
    pub inverse: String,
}

/// Validation configuration.
#[derive(Debug, Clone)]
pub struct ValidationConfig {
    /// Enable orphan detection
    pub orphan_detection: bool,
    /// Document types that are allowed to be orphaned
    pub orphan_allowed_types: Vec<String>,
    /// Require ADRs to link to documentation
    pub require_adr_doc_link: bool,
    /// How to handle circular supersedes chains: "error", "warn", or "ignore"
    pub circular_supersedes: String,
}

/// Statistics generation configuration.
#[derive(Debug, Clone)]
pub struct StatsConfig {
    /// Enable statistics generation
    pub enabled: bool,
    /// Include edge type counts
    pub include_edge_counts: bool,
    /// Include orphan list
    pub include_orphan_list: bool,
}

impl InverseEdgeMapping {
    /// Create a new inverse edge mapping.
    pub fn new(forward: &str, inverse: &str) -> (r: Self)
        ensures
            r.forward@ == forward@,
            r.inverse@ == inverse@,
    {
        InverseEdgeMapping { forward: String::from_str(forward), inverse: String::from_str(inverse) }
    }
}

/// The mappings as (forward, inverse) pairs.
pub open spec fn mapping_pairs(types: Seq<InverseEdgeMapping>) -> Seq<(Seq<char>, Seq<char>)> {
    types.map_values(|m: InverseEdgeMapping| (m.forward@, m.inverse@))
}

/// The inverse mappings that a default configuration holds.
pub open spec fn default_inverse_pairs() -> Seq<(Seq<char>, Seq<char>)> {
    seq![
        ("supersedes"@, "superseded_by"@),
        ("decision"@, "decided_by"@),
        ("implements"@, "implemented_by"@),
        ("resulted_in"@, "resulted_from"@),
        ("based_on"@, "contributed_to"@),
        ("became"@, "originated_from"@),
        ("watches"@, "watched_by"@),
    ]
}

/// The inverse of the first mapping at or after `i` whose forward type is
/// `forward`.
pub open spec fn inverse_lookup(
    pairs: Seq<(Seq<char>, Seq<char>)>,
    forward: Seq<char>,
    i: int,
) -> Option<Seq<char>>
    decreases pairs.len() - i,
{
    if i < 0 || i >= pairs.len() {
        None
    } else if pairs[i].0 == forward {
        Some(pairs[i].1)
    } else {
        inverse_lookup(pairs, forward, i + 1)
    }
}

/// The inverse edge type that a configuration gives a forward edge type:
/// none when inverse edges are disabled, else the first matching mapping.
pub open spec fn inverse_of(c: Config, forward: Seq<char>) -> Option<Seq<char>> {
    if !c.inverse_edges.enabled {
        None
    } else {
        inverse_lookup(mapping_pairs(c.inverse_edges.types@), forward, 0)
    }
}

impl Default for OutputConfig {
    fn default() -> (r: Self)
        ensures
            r.graph_file@ == "target/docs-graph.json"@,
            r.stats_file matches Some(f) && f@ == "target/docs-stats.json"@,
            r.mermaid_file is None,
    {
        OutputConfig {
            graph_file: String::from_str("target/docs-graph.json"),
            stats_file: Some(String::from_str("target/docs-stats.json")),
            mermaid_file: None,
        }
    }
}

impl Default for InverseEdgeConfig {
    fn default() -> (r: Self)
        ensures
            r.enabled,
            mapping_pairs(r.types@) == default_inverse_pairs(),
    {
        let types = vec![
            InverseEdgeMapping::new("supersedes", "superseded_by"),
            InverseEdgeMapping::new("decision", "decided_by"),
            InverseEdgeMapping::new("implements", "implemented_by"),
            InverseEdgeMapping::new("resulted_in", "resulted_from"),
            InverseEdgeMapping::new("based_on", "contributed_to"),
            InverseEdgeMapping::new("became", "originated_from"),
            InverseEdgeMapping::new("watches", "watched_by"),
        ];
        assert(mapping_pairs(types@) =~= default_inverse_pairs());
        InverseEdgeConfig { enabled: true, types }
    }
}

impl Default for ValidationConfig {
    fn default() -> (r: Self)
        ensures
            r.orphan_detection,
            r.orphan_allowed_types.deep_view() == seq!["scratch"@, "draft"@],
            !r.require_adr_doc_link,
            r.circular_supersedes@ == "warn"@,
    {
        let allowed = vec![String::from_str("scratch"), String::from_str("draft")];
        assert(allowed.deep_view() =~= seq!["scratch"@, "draft"@]);
        ValidationConfig {
            orphan_detection: true,
            orphan_allowed_types: allowed,
            require_adr_doc_link: false,
            circular_supersedes: String::from_str("warn"),
        }
    }
}

impl Default for StatsConfig {
    fn default() -> (r: Self)
        ensures
            r.enabled,
            r.include_edge_counts,
            r.include_orphan_list,
    {
        StatsConfig { enabled: true, include_edge_counts: true, include_orphan_list: true }
    }
}

impl Default for Config {
    fn default() -> (r: Self)
        ensures
            r.output.graph_file@ == "target/docs-graph.json"@,
            r.output.stats_file matches Some(f) && f@ == "target/docs-stats.json"@,
            r.output.mermaid_file is None,
            r.inverse_edges.enabled,
            mapping_pairs(r.inverse_edges.types@) == default_inverse_pairs(),
            r.validation.orphan_detection,
            r.validation.orphan_allowed_types.deep_view() == seq!["scratch"@, "draft"@],
            !r.validation.require_adr_doc_link,
            r.validation.circular_supersedes@ == "warn"@,
            r.stats.enabled,
            r.stats.include_edge_counts,
            r.stats.include_orphan_list,
    {
        Config {
            output: OutputConfig::default(),
            inverse_edges: InverseEdgeConfig::default(),
            validation: ValidationConfig::default(),
            stats: StatsConfig::default(),
        }
    }
}

impl Config {
    /// Get the inverse edge type for a forward edge type.
    pub fn get_inverse_edge_type(&self, forward: &str) -> (r: Option<&str>)
        ensures
            match r {
                Some(s) => inverse_of(*self, forward@) == Some(s@),
                None => inverse_of(*self, forward@) is None,
            },
    {
        if !self.inverse_edges.enabled {
            return None;
        }
        let ghost pairs = mapping_pairs(self.inverse_edges.types@);
        let mut k: usize = 0;
        while k < self.inverse_edges.types.len()
            invariant
                self.inverse_edges.enabled,
                k <= self.inverse_edges.types@.len(),
                pairs == mapping_pairs(self.inverse_edges.types@),
                inverse_lookup(pairs, forward@, 0) == inverse_lookup(pairs, forward@, k as int),
            decreases self.inverse_edges.types@.len() - k,
        {
            let m = &self.inverse_edges.types[k];
            if same_text(m.forward.as_str(), forward) {
                return Some(m.inverse.as_str());
            }
            k = k + 1;
        }
        None
    }
}

} // verus!
