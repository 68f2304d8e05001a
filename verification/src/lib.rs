//! Doc-graph: builds a relationship graph of all the documents of a book by
//! reading their frontmatter and inline references.
//!
//! Each chapter with a path becomes a node; frontmatter `related` entries and
//! inline markdown or wiki links become edges; configured inverse edges and
//! statistics are added; and the graph can be rendered as a Mermaid diagram.
//!
//! Configuration lives in `book.toml`:
//!
//! ```toml
//! [preprocessor.doc-graph]
//! command = "mdbook-doc-graph"
//!
//! [preprocessor.doc-graph.output]
//! graph_file = "target/docs-graph.json"
//! stats_file = "target/docs-stats.json"
//! mermaid_file = "target/docs-graph.mmd"
//! ```

pub mod config;
pub mod extractor;
pub mod graph;
pub mod preprocessor;
pub mod scanner;
pub mod text;

pub use config::Config;
pub use graph::{DocGraph, Edge, EdgeMetadata, EdgeType, Node, NodeMetadata, NodeType, Statistics};
pub use preprocessor::DocGraphPreprocessor;
