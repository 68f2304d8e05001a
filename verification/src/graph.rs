//! Graph data structures for document relationships.

use vstd::prelude::*;
use crate::text::{
    copy_string, lowercase, all_ascii, ascii_lowercase, same_text, to_lowercase,
};

verus! {

// ---------------------------------------------------------------------------
// Outside types carried through the graph
// ---------------------------------------------------------------------------

/// `serde_json::Value`: an extra frontmatter value, carried through unchanged.
#[verifier::external_type_specification]
#[verifier::external_body]
pub struct ExJsonValue(serde_json::Value);

/// A point in time (UTC), as seconds since the Unix epoch and the
/// nanoseconds within that second.
#[derive(Debug, Clone, Copy, PartialEq, Eq, Structural)]
pub struct Timestamp {
    /// Whole seconds since 1970-01-01T00:00:00Z
    pub secs: i64,
    /// Nanoseconds past `secs`
    pub nanos: u32,
}

/// The current UTC time: `std::time::SystemTime::now`, turned into a
/// `chrono::DateTime<Utc>` by chrono's `From<SystemTime>` and read as seconds
/// and nanoseconds (`DateTime::timestamp` and
/// `DateTime::timestamp_subsec_nanos`). That conversion also takes a clock set
/// before 1970; it fails only for a time too far from the epoch for chrono to
/// hold. The value depends on the clock, so nothing is promised of it.
#[verifier::external_body]
pub(crate) fn now_utc() -> Timestamp {
    let t = chrono::DateTime::<chrono::Utc>::from(std::time::SystemTime::now());
    Timestamp { secs: t.timestamp(), nanos: t.timestamp_subsec_nanos() }
}

/// `<serde_json::Value as Clone>::clone`: the derived clone returns a value
/// equal to its argument.
#[verifier::external_body]
pub(crate) fn copy_json(v: &serde_json::Value) -> (r: serde_json::Value)
    ensures
        r == *v,
{
    v.clone()
}

// ---------------------------------------------------------------------------
// Node types
// ---------------------------------------------------------------------------

/// Document type classification.
#[derive(Debug, Clone, Copy, PartialEq, Eq, Structural)]
pub enum NodeType {
    /// Architecture Decision Record
    Adr,
    /// Documentation
    Doc,
    /// Blog post
    Blog,
    /// Note or scratch file
    Note,
    /// Unknown type
    Unknown,
}

/// The name under which a node type is written.
pub open spec fn node_type_name(t: NodeType) -> Seq<char> {
    match t {
        NodeType::Adr => "adr"@,
        NodeType::Doc => "doc"@,
        NodeType::Blog => "blog"@,
        NodeType::Note => "note"@,
        NodeType::Unknown => "unknown"@,
    }
}

/// The node type that an already lowercased type name denotes.
pub open spec fn node_type_of_lower(s: Seq<char>) -> NodeType {
    if s == "adr"@ {
        NodeType::Adr
    } else if s == "doc"@ || s == "docs"@ || s == "documentation"@ {
        NodeType::Doc
    } else if s == "blog"@ || s == "post"@ {
        NodeType::Blog
    } else if s == "note"@ || s == "notes"@ || s == "scratch"@ {
        NodeType::Note
    } else {
        NodeType::Unknown
    }
}

impl NodeType {
    /// The name of this node type ("adr", "doc", "blog", "note", "unknown").
    pub fn to_string(&self) -> (r: String)
        ensures
            r@ == node_type_name(*self),
    {
        match self {
            NodeType::Adr => String::from_str("adr"),
            NodeType::Doc => String::from_str("doc"),
            NodeType::Blog => String::from_str("blog"),
            NodeType::Note => String::from_str("note"),
            NodeType::Unknown => String::from_str("unknown"),
        }
    }

    /// The node type that an already lowercased name denotes.
    pub fn from_lowercase(s: &str) -> (r: NodeType)
        ensures
            r == node_type_of_lower(s@),
    {
        if same_text(s, "adr") {
            NodeType::Adr
        } else if same_text(s, "doc") || same_text(s, "docs") || same_text(s, "documentation") {
            NodeType::Doc
        } else if same_text(s, "blog") || same_text(s, "post") {
            NodeType::Blog
        } else if same_text(s, "note") || same_text(s, "notes") || same_text(s, "scratch") {
            NodeType::Note
        } else {
            NodeType::Unknown
        }
    }

    /// The node type that a type name denotes, ignoring case.
    pub fn from(s: &str) -> (r: NodeType)
        ensures
            r == node_type_of_lower(lowercase(s@)),
            all_ascii(s@) ==> r == node_type_of_lower(ascii_lowercase(s@)),
    {
        let lower = to_lowercase(s);
        NodeType::from_lowercase(lower.as_str())
    }
}

/// Reading back the name of a node type gives the same node type.
pub proof fn lemma_node_type_name_roundtrip(t: NodeType)
    ensures
        node_type_of_lower(node_type_name(t)) == t,
{
    reveal_strlit("adr");
    reveal_strlit("doc");
    reveal_strlit("docs");
    reveal_strlit("documentation");
    reveal_strlit("blog");
    reveal_strlit("post");
    reveal_strlit("note");
    reveal_strlit("notes");
    reveal_strlit("scratch");
    reveal_strlit("unknown");
    match t {
        NodeType::Adr => {},
        NodeType::Doc => {
            assert("doc"@[0] != "adr"@[0]);
        },
        NodeType::Blog => {
            assert("blog"@[0] != "adr"@[0]);
            assert("blog"@.len() != "doc"@.len());
            assert("blog"@[0] != "docs"@[0]);
            assert("blog"@.len() != "documentation"@.len());
        },
        NodeType::Note => {
            assert("note"@[0] != "adr"@[0]);
            assert("note"@[0] != "doc"@[0]);
            assert("note"@[0] != "docs"@[0]);
            assert("note"@[0] != "documentation"@[0]);
            assert("note"@[0] != "blog"@[0]);
            assert("note"@[0] != "post"@[0]);
        },
        NodeType::Unknown => {
            assert("unknown"@[0] != "adr"@[0]);
            assert("unknown"@[0] != "doc"@[0]);
            assert("unknown"@[0] != "docs"@[0]);
            assert("unknown"@[0] != "documentation"@[0]);
            assert("unknown"@[0] != "blog"@[0]);
            assert("unknown"@[0] != "post"@[0]);
            assert("unknown"@[0] != "note"@[0]);
            assert("unknown"@[0] != "notes"@[0]);
            assert("unknown"@[0] != "scratch"@[0]);
        },
    }
}

// ---------------------------------------------------------------------------
// Edge types
// ---------------------------------------------------------------------------

/// Edge type classification.
#[derive(Debug, Clone, PartialEq, Eq)]
pub enum EdgeType {
    // Hierarchical
    Supersedes,
    SupersededBy,
    ParentOf,
    ChildOf,
    // Semantic
    Decision,
    DecidedBy,
    Implements,
    ImplementedBy,
    SeeAlso,
    RelatedTo,
    // Temporal
    ResultedIn,
    ResultedFrom,
    BasedOn,
    ContributedTo,
    Became,
    OriginatedFrom,
    CoversPeriod,
    // Code watching
    Watches,
    WatchedBy,
    // Generic link (from inline markdown links)
    LinksTo,
    // Custom type
    Custom(String),
}

/// The name under which an edge type is written.
pub open spec fn edge_type_name(e: EdgeType) -> Seq<char> {
    match e {
        EdgeType::Supersedes => "supersedes"@,
        EdgeType::SupersededBy => "superseded_by"@,
        EdgeType::ParentOf => "parent_of"@,
        EdgeType::ChildOf => "child_of"@,
        EdgeType::Decision => "decision"@,
        EdgeType::DecidedBy => "decided_by"@,
        EdgeType::Implements => "implements"@,
        EdgeType::ImplementedBy => "implemented_by"@,
        EdgeType::SeeAlso => "see_also"@,
        EdgeType::RelatedTo => "related_to"@,
        EdgeType::ResultedIn => "resulted_in"@,
        EdgeType::ResultedFrom => "resulted_from"@,
        EdgeType::BasedOn => "based_on"@,
        EdgeType::ContributedTo => "contributed_to"@,
        EdgeType::Became => "became"@,
        EdgeType::OriginatedFrom => "originated_from"@,
        EdgeType::CoversPeriod => "covers_period"@,
        EdgeType::Watches => "watches"@,
        EdgeType::WatchedBy => "watched_by"@,
        EdgeType::LinksTo => "links_to"@,
        EdgeType::Custom(s) => s@,
    }
}

/// The built-in edge type that an already lowercased name denotes, if any.
pub open spec fn keyword_edge_type(s: Seq<char>) -> Option<EdgeType> {
    if s == "supersedes"@ {
        Some(EdgeType::Supersedes)
    } else if s == "superseded_by"@ {
        Some(EdgeType::SupersededBy)
    } else if s == "parent_of"@ {
        Some(EdgeType::ParentOf)
    } else if s == "child_of"@ {
        Some(EdgeType::ChildOf)
    } else if s == "decision"@ {
        Some(EdgeType::Decision)
    } else if s == "decided_by"@ {
        Some(EdgeType::DecidedBy)
    } else if s == "implements"@ {
        Some(EdgeType::Implements)
    } else if s == "implemented_by"@ {
        Some(EdgeType::ImplementedBy)
    } else if s == "see_also"@ {
        Some(EdgeType::SeeAlso)
    } else if s == "related_to"@ || s == "related"@ {
        Some(EdgeType::RelatedTo)
    } else if s == "resulted_in"@ {
        Some(EdgeType::ResultedIn)
    } else if s == "resulted_from"@ {
        Some(EdgeType::ResultedFrom)
    } else if s == "based_on"@ {
        Some(EdgeType::BasedOn)
    } else if s == "contributed_to"@ {
        Some(EdgeType::ContributedTo)
    } else if s == "became"@ {
        Some(EdgeType::Became)
    } else if s == "originated_from"@ {
        Some(EdgeType::OriginatedFrom)
    } else if s == "covers_period"@ {
        Some(EdgeType::CoversPeriod)
    } else if s == "watches"@ {
        Some(EdgeType::Watches)
    } else if s == "watched_by"@ {
        Some(EdgeType::WatchedBy)
    } else if s == "links_to"@ || s == "link"@ {
        Some(EdgeType::LinksTo)
    } else {
        None
    }
}

/// `e` is the edge type that the already lowercased name `s` denotes: the
/// built-in type for a keyword, else a custom type holding `s`.
pub open spec fn denotes_edge_type(e: EdgeType, s: Seq<char>) -> bool {
    match keyword_edge_type(s) {
        Some(k) => e == k,
        None => e matches EdgeType::Custom(t) && t@ == s,
    }
}

/// Two edge types are the same type (custom types by the text they hold).
pub open spec fn same_edge_type(a: EdgeType, b: EdgeType) -> bool {
    match (a, b) {
        (EdgeType::Custom(x), EdgeType::Custom(y)) => x@ == y@,
        (EdgeType::Custom(_), _) => false,
        (_, EdgeType::Custom(_)) => false,
        _ => a == b,
    }
}

impl EdgeType {
    /// The name of this edge type (for a custom type, the text it holds).
    pub fn to_string(&self) -> (r: String)
        ensures
            r@ == edge_type_name(*self),
    {
        match self {
            EdgeType::Supersedes => String::from_str("supersedes"),
            EdgeType::SupersededBy => String::from_str("superseded_by"),
            EdgeType::ParentOf => String::from_str("parent_of"),
            EdgeType::ChildOf => String::from_str("child_of"),
            EdgeType::Decision => String::from_str("decision"),
            EdgeType::DecidedBy => String::from_str("decided_by"),
            EdgeType::Implements => String::from_str("implements"),
            EdgeType::ImplementedBy => String::from_str("implemented_by"),
            EdgeType::SeeAlso => String::from_str("see_also"),
            EdgeType::RelatedTo => String::from_str("related_to"),
            EdgeType::ResultedIn => String::from_str("resulted_in"),
            EdgeType::ResultedFrom => String::from_str("resulted_from"),
            EdgeType::BasedOn => String::from_str("based_on"),
            EdgeType::ContributedTo => String::from_str("contributed_to"),
            EdgeType::Became => String::from_str("became"),
            EdgeType::OriginatedFrom => String::from_str("originated_from"),
            EdgeType::CoversPeriod => String::from_str("covers_period"),
            EdgeType::Watches => String::from_str("watches"),
            EdgeType::WatchedBy => String::from_str("watched_by"),
            EdgeType::LinksTo => String::from_str("links_to"),
            EdgeType::Custom(s) => s.clone(),
        }
    }

    /// The edge type that an already lowercased name denotes.
    pub fn from_lowercase(s: &str) -> (r: EdgeType)
        ensures
            denotes_edge_type(r, s@),
    {
        if same_text(s, "supersedes") {
            EdgeType::Supersedes
        } else if same_text(s, "superseded_by") {
            EdgeType::SupersededBy
        } else if same_text(s, "parent_of") {
            EdgeType::ParentOf
        } else if same_text(s, "child_of") {
            EdgeType::ChildOf
        } else if same_text(s, "decision") {
            EdgeType::Decision
        } else if same_text(s, "decided_by") {
            EdgeType::DecidedBy
        } else if same_text(s, "implements") {
            EdgeType::Implements
        } else if same_text(s, "implemented_by") {
            EdgeType::ImplementedBy
        } else if same_text(s, "see_also") {
            EdgeType::SeeAlso
        } else if same_text(s, "related_to") || same_text(s, "related") {
            EdgeType::RelatedTo
        } else if same_text(s, "resulted_in") {
            EdgeType::ResultedIn
        } else if same_text(s, "resulted_from") {
            EdgeType::ResultedFrom
        } else if same_text(s, "based_on") {
            EdgeType::BasedOn
        } else if same_text(s, "contributed_to") {
            EdgeType::ContributedTo
        } else if same_text(s, "became") {
            EdgeType::Became
        } else if same_text(s, "originated_from") {
            EdgeType::OriginatedFrom
        } else if same_text(s, "covers_period") {
            EdgeType::CoversPeriod
        } else if same_text(s, "watches") {
            EdgeType::Watches
        } else if same_text(s, "watched_by") {
            EdgeType::WatchedBy
        } else if same_text(s, "links_to") || same_text(s, "link") {
            EdgeType::LinksTo
        } else {
            EdgeType::Custom(String::from_str(s))
        }
    }

    /// The edge type that a name denotes, ignoring case.
    pub fn from(s: &str) -> (r: EdgeType)
        ensures
            denotes_edge_type(r, lowercase(s@)),
            all_ascii(s@) ==> denotes_edge_type(r, ascii_lowercase(s@)),
    {
        let lower = to_lowercase(s);
        EdgeType::from_lowercase(lower.as_str())
    }

    /// A copy of this edge type.
    pub fn duplicate(&self) -> (r: EdgeType)
        ensures
            r == *self,
    {
        match self {
            EdgeType::Custom(s) => EdgeType::Custom(s.clone()),
            EdgeType::Supersedes => EdgeType::Supersedes,
            EdgeType::SupersededBy => EdgeType::SupersededBy,
            EdgeType::ParentOf => EdgeType::ParentOf,
            EdgeType::ChildOf => EdgeType::ChildOf,
            EdgeType::Decision => EdgeType::Decision,
            EdgeType::DecidedBy => EdgeType::DecidedBy,
            EdgeType::Implements => EdgeType::Implements,
            EdgeType::ImplementedBy => EdgeType::ImplementedBy,
            EdgeType::SeeAlso => EdgeType::SeeAlso,
            EdgeType::RelatedTo => EdgeType::RelatedTo,
            EdgeType::ResultedIn => EdgeType::ResultedIn,
            EdgeType::ResultedFrom => EdgeType::ResultedFrom,
            EdgeType::BasedOn => EdgeType::BasedOn,
            EdgeType::ContributedTo => EdgeType::ContributedTo,
            EdgeType::Became => EdgeType::Became,
            EdgeType::OriginatedFrom => EdgeType::OriginatedFrom,
            EdgeType::CoversPeriod => EdgeType::CoversPeriod,
            EdgeType::Watches => EdgeType::Watches,
            EdgeType::WatchedBy => EdgeType::WatchedBy,
            EdgeType::LinksTo => EdgeType::LinksTo,
        }
    }
}


/// Reading back the name of a built-in edge type gives the same edge type;
/// reading back the name of a custom edge type gives the same custom edge
/// type unless that name is one of the keywords.
pub proof fn lemma_edge_type_name_roundtrip(e: EdgeType, r: EdgeType)
    requires
        denotes_edge_type(r, edge_type_name(e)),
        e is Custom ==> keyword_edge_type(edge_type_name(e)) is None,
    ensures
        same_edge_type(r, e),
{
    reveal_strlit("supersedes");
    reveal_strlit("superseded_by");
    reveal_strlit("parent_of");
    reveal_strlit("child_of");
    reveal_strlit("decision");
    reveal_strlit("decided_by");
    reveal_strlit("implements");
    reveal_strlit("implemented_by");
    reveal_strlit("see_also");
    reveal_strlit("related_to");
    reveal_strlit("related");
    reveal_strlit("resulted_in");
    reveal_strlit("resulted_from");
    reveal_strlit("based_on");
    reveal_strlit("contributed_to");
    reveal_strlit("became");
    reveal_strlit("originated_from");
    reveal_strlit("covers_period");
    reveal_strlit("watches");
    reveal_strlit("watched_by");
    reveal_strlit("links_to");
    reveal_strlit("link");
    match e {
        EdgeType::Supersedes => {
        },
        EdgeType::SupersededBy => {
            assert("superseded_by"@.len() != "supersedes"@.len());
        },
        EdgeType::ParentOf => {
            assert("parent_of"@.len() != "supersedes"@.len());
            assert("parent_of"@.len() != "superseded_by"@.len());
        },
        EdgeType::ChildOf => {
            assert("child_of"@.len() != "supersedes"@.len());
            assert("child_of"@.len() != "superseded_by"@.len());
            assert("child_of"@.len() != "parent_of"@.len());
        },
        EdgeType::Decision => {
            assert("decision"@.len() != "supersedes"@.len());
            assert("decision"@.len() != "superseded_by"@.len());
            assert("decision"@.len() != "parent_of"@.len());
            assert("decision"@[0] != "child_of"@[0]);
        },
        EdgeType::DecidedBy => {
            assert("decided_by"@[0] != "supersedes"@[0]);
            assert("decided_by"@.len() != "superseded_by"@.len());
            assert("decided_by"@.len() != "parent_of"@.len());
            assert("decided_by"@.len() != "child_of"@.len());
            assert("decided_by"@.len() != "decision"@.len());
        },
        EdgeType::Implements => {
            assert("implements"@[0] != "supersedes"@[0]);
            assert("implements"@.len() != "superseded_by"@.len());
            assert("implements"@.len() != "parent_of"@.len());
            assert("implements"@.len() != "child_of"@.len());
            assert("implements"@.len() != "decision"@.len());
            assert("implements"@[0] != "decided_by"@[0]);
        },
        EdgeType::ImplementedBy => {
            assert("implemented_by"@.len() != "supersedes"@.len());
            assert("implemented_by"@.len() != "superseded_by"@.len());
            assert("implemented_by"@.len() != "parent_of"@.len());
            assert("implemented_by"@.len() != "child_of"@.len());
            assert("implemented_by"@.len() != "decision"@.len());
            assert("implemented_by"@.len() != "decided_by"@.len());
            assert("implemented_by"@.len() != "implements"@.len());
        },
        EdgeType::SeeAlso => {
            assert("see_also"@.len() != "supersedes"@.len());
            assert("see_also"@.len() != "superseded_by"@.len());
            assert("see_also"@.len() != "parent_of"@.len());
            assert("see_also"@[0] != "child_of"@[0]);
            assert("see_also"@[0] != "decision"@[0]);
            assert("see_also"@.len() != "decided_by"@.len());
            assert("see_also"@.len() != "implements"@.len());
            assert("see_also"@.len() != "implemented_by"@.len());
        },
        EdgeType::RelatedTo => {
            assert("related_to"@[0] != "supersedes"@[0]);
            assert("related_to"@.len() != "superseded_by"@.len());
            assert("related_to"@.len() != "parent_of"@.len());
            assert("related_to"@.len() != "child_of"@.len());
            assert("related_to"@.len() != "decision"@.len());
            assert("related_to"@[0] != "decided_by"@[0]);
            assert("related_to"@[0] != "implements"@[0]);
            assert("related_to"@.len() != "implemented_by"@.len());
            assert("related_to"@.len() != "see_also"@.len());
        },
        EdgeType::ResultedIn => {
            assert("resulted_in"@.len() != "supersedes"@.len());
            assert("resulted_in"@.len() != "superseded_by"@.len());
            assert("resulted_in"@.len() != "parent_of"@.len());
            assert("resulted_in"@.len() != "child_of"@.len());
            assert("resulted_in"@.len() != "decision"@.len());
            assert("resulted_in"@.len() != "decided_by"@.len());
            assert("resulted_in"@.len() != "implements"@.len());
            assert("resulted_in"@.len() != "implemented_by"@.len());
            assert("resulted_in"@.len() != "see_also"@.len());
            assert("resulted_in"@.len() != "related_to"@.len());
            assert("resulted_in"@.len() != "related"@.len());
        },
        EdgeType::ResultedFrom => {
            assert("resulted_from"@.len() != "supersedes"@.len());
            assert("resulted_from"@[0] != "superseded_by"@[0]);
            assert("resulted_from"@.len() != "parent_of"@.len());
            assert("resulted_from"@.len() != "child_of"@.len());
            assert("resulted_from"@.len() != "decision"@.len());
            assert("resulted_from"@.len() != "decided_by"@.len());
            assert("resulted_from"@.len() != "implements"@.len());
            assert("resulted_from"@.len() != "implemented_by"@.len());
            assert("resulted_from"@.len() != "see_also"@.len());
            assert("resulted_from"@.len() != "related_to"@.len());
            assert("resulted_from"@.len() != "related"@.len());
            assert("resulted_from"@.len() != "resulted_in"@.len());
        },
        EdgeType::BasedOn => {
            assert("based_on"@.len() != "supersedes"@.len());
            assert("based_on"@.len() != "superseded_by"@.len());
            assert("based_on"@.len() != "parent_of"@.len());
            assert("based_on"@[0] != "child_of"@[0]);
            assert("based_on"@[0] != "decision"@[0]);
            assert("based_on"@.len() != "decided_by"@.len());
            assert("based_on"@.len() != "implements"@.len());
            assert("based_on"@.len() != "implemented_by"@.len());
            assert("based_on"@[0] != "see_also"@[0]);
            assert("based_on"@.len() != "related_to"@.len());
            assert("based_on"@.len() != "related"@.len());
            assert("based_on"@.len() != "resulted_in"@.len());
            assert("based_on"@.len() != "resulted_from"@.len());
        },
        EdgeType::ContributedTo => {
            assert("contributed_to"@.len() != "supersedes"@.len());
            assert("contributed_to"@.len() != "superseded_by"@.len());
            assert("contributed_to"@.len() != "parent_of"@.len());
            assert("contributed_to"@.len() != "child_of"@.len());
            assert("contributed_to"@.len() != "decision"@.len());
            assert("contributed_to"@.len() != "decided_by"@.len());
            assert("contributed_to"@.len() != "implements"@.len());
            assert("contributed_to"@[0] != "implemented_by"@[0]);
            assert("contributed_to"@.len() != "see_also"@.len());
            assert("contributed_to"@.len() != "related_to"@.len());
            assert("contributed_to"@.len() != "related"@.len());
            assert("contributed_to"@.len() != "resulted_in"@.len());
            assert("contributed_to"@.len() != "resulted_from"@.len());
            assert("contributed_to"@.len() != "based_on"@.len());
        },
        EdgeType::Became => {
            assert("became"@.len() != "supersedes"@.len());
            assert("became"@.len() != "superseded_by"@.len());
            assert("became"@.len() != "parent_of"@.len());
            assert("became"@.len() != "child_of"@.len());
            assert("became"@.len() != "decision"@.len());
            assert("became"@.len() != "decided_by"@.len());
            assert("became"@.len() != "implements"@.len());
            assert("became"@.len() != "implemented_by"@.len());
            assert("became"@.len() != "see_also"@.len());
            assert("became"@.len() != "related_to"@.len());
            assert("became"@.len() != "related"@.len());
            assert("became"@.len() != "resulted_in"@.len());
            assert("became"@.len() != "resulted_from"@.len());
            assert("became"@.len() != "based_on"@.len());
            assert("became"@.len() != "contributed_to"@.len());
        },
        EdgeType::OriginatedFrom => {
            assert("originated_from"@.len() != "supersedes"@.len());
            assert("originated_from"@.len() != "superseded_by"@.len());
            assert("originated_from"@.len() != "parent_of"@.len());
            assert("originated_from"@.len() != "child_of"@.len());
            assert("originated_from"@.len() != "decision"@.len());
            assert("originated_from"@.len() != "decided_by"@.len());
            assert("originated_from"@.len() != "implements"@.len());
            assert("originated_from"@.len() != "implemented_by"@.len());
            assert("originated_from"@.len() != "see_also"@.len());
            assert("originated_from"@.len() != "related_to"@.len());
            assert("originated_from"@.len() != "related"@.len());
            assert("originated_from"@.len() != "resulted_in"@.len());
            assert("originated_from"@.len() != "resulted_from"@.len());
            assert("originated_from"@.len() != "based_on"@.len());
            assert("originated_from"@.len() != "contributed_to"@.len());
            assert("originated_from"@.len() != "became"@.len());
        },
        EdgeType::CoversPeriod => {
            assert("covers_period"@.len() != "supersedes"@.len());
            assert("covers_period"@[0] != "superseded_by"@[0]);
            assert("covers_period"@.len() != "parent_of"@.len());
            assert("covers_period"@.len() != "child_of"@.len());
            assert("covers_period"@.len() != "decision"@.len());
            assert("covers_period"@.len() != "decided_by"@.len());
            assert("covers_period"@.len() != "implements"@.len());
            assert("covers_period"@.len() != "implemented_by"@.len());
            assert("covers_period"@.len() != "see_also"@.len());
            assert("covers_period"@.len() != "related_to"@.len());
            assert("covers_period"@.len() != "related"@.len());
            assert("covers_period"@.len() != "resulted_in"@.len());
            assert("covers_period"@[0] != "resulted_from"@[0]);
            assert("covers_period"@.len() != "based_on"@.len());
            assert("covers_period"@.len() != "contributed_to"@.len());
            assert("covers_period"@.len() != "became"@.len());
            assert("covers_period"@.len() != "originated_from"@.len());
        },
        EdgeType::Watches => {
            assert("watches"@.len() != "supersedes"@.len());
            assert("watches"@.len() != "superseded_by"@.len());
            assert("watches"@.len() != "parent_of"@.len());
            assert("watches"@.len() != "child_of"@.len());
            assert("watches"@.len() != "decision"@.len());
            assert("watches"@.len() != "decided_by"@.len());
            assert("watches"@.len() != "implements"@.len());
            assert("watches"@.len() != "implemented_by"@.len());
            assert("watches"@.len() != "see_also"@.len());
            assert("watches"@.len() != "related_to"@.len());
            assert("watches"@[0] != "related"@[0]);
            assert("watches"@.len() != "resulted_in"@.len());
            assert("watches"@.len() != "resulted_from"@.len());
            assert("watches"@.len() != "based_on"@.len());
            assert("watches"@.len() != "contributed_to"@.len());
            assert("watches"@.len() != "became"@.len());
            assert("watches"@.len() != "originated_from"@.len());
            assert("watches"@.len() != "covers_period"@.len());
        },
        EdgeType::WatchedBy => {
            assert("watched_by"@[0] != "supersedes"@[0]);
            assert("watched_by"@.len() != "superseded_by"@.len());
            assert("watched_by"@.len() != "parent_of"@.len());
            assert("watched_by"@.len() != "child_of"@.len());
            assert("watched_by"@.len() != "decision"@.len());
            assert("watched_by"@[0] != "decided_by"@[0]);
            assert("watched_by"@[0] != "implements"@[0]);
            assert("watched_by"@.len() != "implemented_by"@.len());
            assert("watched_by"@.len() != "see_also"@.len());
            assert("watched_by"@[0] != "related_to"@[0]);
            assert("watched_by"@.len() != "related"@.len());
            assert("watched_by"@.len() != "resulted_in"@.len());
            assert("watched_by"@.len() != "resulted_from"@.len());
            assert("watched_by"@.len() != "based_on"@.len());
            assert("watched_by"@.len() != "contributed_to"@.len());
            assert("watched_by"@.len() != "became"@.len());
            assert("watched_by"@.len() != "originated_from"@.len());
            assert("watched_by"@.len() != "covers_period"@.len());
            assert("watched_by"@.len() != "watches"@.len());
        },
        EdgeType::LinksTo => {
            assert("links_to"@.len() != "supersedes"@.len());
            assert("links_to"@.len() != "superseded_by"@.len());
            assert("links_to"@.len() != "parent_of"@.len());
            assert("links_to"@[0] != "child_of"@[0]);
            assert("links_to"@[0] != "decision"@[0]);
            assert("links_to"@.len() != "decided_by"@.len());
            assert("links_to"@.len() != "implements"@.len());
            assert("links_to"@.len() != "implemented_by"@.len());
            assert("links_to"@[0] != "see_also"@[0]);
            assert("links_to"@.len() != "related_to"@.len());
            assert("links_to"@.len() != "related"@.len());
            assert("links_to"@.len() != "resulted_in"@.len());
            assert("links_to"@.len() != "resulted_from"@.len());
            assert("links_to"@[0] != "based_on"@[0]);
            assert("links_to"@.len() != "contributed_to"@.len());
            assert("links_to"@.len() != "became"@.len());
            assert("links_to"@.len() != "originated_from"@.len());
            assert("links_to"@.len() != "covers_period"@.len());
            assert("links_to"@.len() != "watches"@.len());
            assert("links_to"@.len() != "watched_by"@.len());
        },
        EdgeType::Custom(_) => {},
    }
}

// ---------------------------------------------------------------------------
// Nodes and edges
// ---------------------------------------------------------------------------

/// Metadata associated with a node.
#[derive(Debug, Clone)]
pub struct NodeMetadata {
    /// Document title
    pub title: Option<String>,
    /// Document status (e.g., "draft", "accepted", "superseded")
    pub status: Option<String>,
    /// Creation date
    pub created: Option<String>,
    /// Tags associated with the document
    pub tags: Vec<String>,
    /// Target audience
    pub audience: Vec<String>,
    /// Difficulty level
    pub level: Option<String>,
    /// Additional custom metadata, by key
    pub extra: Vec<(String, serde_json::Value)>,
}

/// Metadata with no field set.
pub open spec fn is_empty_metadata(m: NodeMetadata) -> bool {
    &&& m.title is None
    &&& m.status is None
    &&& m.created is None
    &&& m.tags@.len() == 0
    &&& m.audience@.len() == 0
    &&& m.level is None
    &&& m.extra@.len() == 0
}

impl Default for NodeMetadata {
    fn default() -> (r: Self)
        ensures
            is_empty_metadata(r),
    {
        NodeMetadata {
            title: None,
            status: None,
            created: None,
            tags: Vec::new(),
            audience: Vec::new(),
            level: None,
            extra: Vec::new(),
        }
    }
}

/// A document node in the graph.
#[derive(Debug, Clone)]
pub struct Node {
    /// Unique identifier (derived from path or explicit)
    pub id: String,
    /// Optional UUID from frontmatter
    pub uuid: Option<String>,
    /// File path relative to book root
    pub path: String,
    /// Document type
    pub node_type: NodeType,
    /// Document metadata
    pub metadata: NodeMetadata,
}

impl Node {
    /// Create a new node with the given ID and path.
    pub fn new(id: String, path: String, node_type: NodeType) -> (r: Self)
        ensures
            r.id == id,
            r.uuid is None,
            r.path == path,
            r.node_type == node_type,
            is_empty_metadata(r.metadata),
    {
        Node { id, uuid: None, path, node_type, metadata: NodeMetadata::default() }
    }

    /// Set the UUID.
    pub fn with_uuid(self, uuid: String) -> (r: Self)
        ensures
            r == (Node { uuid: Some(uuid), ..self }),
    {
        let mut n = self;
        n.uuid = Some(uuid);
        n
    }

    /// Set the metadata.
    pub fn with_metadata(self, metadata: NodeMetadata) -> (r: Self)
        ensures
            r == (Node { metadata, ..self }),
    {
        let mut n = self;
        n.metadata = metadata;
        n
    }
}

/// Metadata associated with an edge.
#[derive(Debug, Clone)]
pub struct EdgeMetadata {
    /// Optional note describing the relationship
    pub note: Option<String>,
    /// Whether this edge was auto-generated (inverse edge)
    pub auto: bool,
    /// When the edge was generated (for auto-generated edges)
    pub generated_at: Option<Timestamp>,
}

impl Default for EdgeMetadata {
    fn default() -> (r: Self)
        ensures
            r.note is None,
            !r.auto,
            r.generated_at is None,
    {
        EdgeMetadata { note: None, auto: false, generated_at: None }
    }
}

/// A relationship edge between two nodes.
#[derive(Debug, Clone)]
pub struct Edge {
    /// Source node ID
    pub source: String,
    /// Target node ID
    pub target: String,
    /// Edge type
    pub edge_type: EdgeType,
    /// Edge metadata
    pub metadata: EdgeMetadata,
}

impl Edge {
    /// Create a new edge.
    pub fn new(source: String, target: String, edge_type: EdgeType) -> (r: Self)
        ensures
            r.source == source,
            r.target == target,
            r.edge_type == edge_type,
            r.metadata.note is None,
            !r.metadata.auto,
            r.metadata.generated_at is None,
    {
        Edge { source, target, edge_type, metadata: EdgeMetadata::default() }
    }

    /// Set the metadata.
    pub fn with_metadata(self, metadata: EdgeMetadata) -> (r: Self)
        ensures
            r == (Edge { metadata, ..self }),
    {
        let mut e = self;
        e.metadata = metadata;
        e
    }

    /// Mark this edge as auto-generated, stamped with the current time.
    pub fn as_auto_generated(self) -> (r: Self)
        ensures
            r.source == self.source,
            r.target == self.target,
            r.edge_type == self.edge_type,
            r.metadata.note == self.metadata.note,
            r.metadata.auto,
            r.metadata.generated_at is Some,
    {
        let mut e = self;
        e.metadata.auto = true;
        e.metadata.generated_at = Some(now_utc());
        e
    }
}

// ---------------------------------------------------------------------------
// Counting by type
// ---------------------------------------------------------------------------

/// One entry of a count table: a type name and how often it occurs.
#[derive(Debug, Clone)]
pub struct TypeCount {
    /// The type name
    pub name: String,
    /// How many items have that type
    pub count: usize,
}

/// Counts by type name, in the order in which the names first occur.
#[derive(Debug, Clone)]
pub struct CountTable {
    entries: Vec<TypeCount>,
}

/// The index of the first entry at or after `i` whose name is `key`.
pub open spec fn key_index(t: Seq<(Seq<char>, nat)>, key: Seq<char>, i: int) -> Option<int>
    decreases t.len() - i,
{
    if i < 0 || i >= t.len() {
        None
    } else if t[i].0 == key {
        Some(i)
    } else {
        key_index(t, key, i + 1)
    }
}

/// Counts one more occurrence of `name`.
pub open spec fn tally_add(t: Seq<(Seq<char>, nat)>, name: Seq<char>) -> Seq<(Seq<char>, nat)> {
    match key_index(t, name, 0) {
        Some(k) => t.update(k, (name, t[k].1 + 1)),
        None => t.push((name, 1nat)),
    }
}

/// The count table of a sequence of names: each distinct name once, in
/// order of first occurrence, with the number of its occurrences.
pub open spec fn tally(names: Seq<Seq<char>>) -> Seq<(Seq<char>, nat)>
    decreases names.len(),
{
    if names.len() == 0 {
        seq![]
    } else {
        tally_add(tally(names.drop_last()), names.last())
    }
}

/// The count that a table gives for `key` (0 if absent).
pub open spec fn count_in(t: Seq<(Seq<char>, nat)>, key: Seq<char>) -> nat {
    match key_index(t, key, 0) {
        Some(k) => t[k].1,
        None => 0,
    }
}

/// The number of occurrences of `key` in `names`.
pub open spec fn occurrences(names: Seq<Seq<char>>, key: Seq<char>) -> nat
    decreases names.len(),
{
    if names.len() == 0 {
        0
    } else {
        occurrences(names.drop_last(), key) + if names.last() == key {
            1nat
        } else {
            0nat
        }
    }
}

/// Count table entries as (name, count) pairs.
pub open spec fn entries_view(e: Seq<TypeCount>) -> Seq<(Seq<char>, nat)> {
    e.map_values(|x: TypeCount| (x.name@, x.count as nat))
}

/// The index of the entry named `key`, if any.
fn entry_index(entries: &Vec<TypeCount>, key: &str) -> (r: Option<usize>)
    ensures
        match r {
            Some(k) => k < entries@.len() && key_index(entries_view(entries@), key@, 0) == Some(
                k as int,
            ),
            None => key_index(entries_view(entries@), key@, 0) is None,
        },
{
    let ghost t = entries_view(entries@);
    let mut k: usize = 0;
    while k < entries.len()
        invariant
            k <= entries@.len(),
            t == entries_view(entries@),
            key_index(t, key@, 0) == key_index(t, key@, k as int),
        decreases entries@.len() - k,
    {
        if same_text(entries[k].name.as_str(), key) {
            return Some(k);
        }
        k = k + 1;
    }
    None
}

impl CountTable {
    /// The entries as (name, count) pairs.
    pub closed spec fn view(&self) -> Seq<(Seq<char>, nat)> {
        entries_view(self.entries@)
    }

    /// Count how often each name occurs.
    pub fn tally(names: &Vec<String>) -> (r: CountTable)
        ensures
            r.view() == tally(names.deep_view()),
    {
        let ghost all = names.deep_view();
        let mut entries: Vec<TypeCount> = Vec::new();
        let mut i: usize = 0;
        assert(all.take(0) =~= Seq::<Seq<char>>::empty());
        while i < names.len()
            invariant
                i <= names@.len(),
                all == names.deep_view(),
                entries@.map_values(|e: TypeCount| (e.name@, e.count as nat)) == tally(
                    all.take(i as int),
                ),
                forall|k: int| 0 <= k < entries@.len() ==> entries@[k].count <= i,
            decreases names@.len() - i,
        {
            let ghost t = entries@.map_values(|e: TypeCount| (e.name@, e.count as nat));
            let name = &names[i];
            proof {
                assert(all.take(i + 1).drop_last() =~= all.take(i as int));
                assert(all.take(i + 1).last() == name@);
            }
            let found = entry_index(&entries, name.as_str());
            if let Some(k) = found {
                let c = entries[k].count;
                let updated = TypeCount { name: copy_string(name), count: c + 1 };
                entries.set(k, updated);
                assert(entries@.map_values(|e: TypeCount| (e.name@, e.count as nat)) =~= t.update(
                    k as int,
                    (name@, t[k as int].1 + 1),
                ));
            } else {
                entries.push(TypeCount { name: copy_string(name), count: 1 });
                assert(entries@.map_values(|e: TypeCount| (e.name@, e.count as nat)) =~= t.push(
                    (name@, 1nat),
                ));
            }
            i = i + 1;
        }
        assert(all.take(names@.len() as int) =~= all);
        CountTable { entries }
    }

    /// A table holding the given entries, in order.
    pub fn from_entries(entries: Vec<TypeCount>) -> (r: CountTable)
        ensures
            r.view() == entries_view(entries@),
    {
        CountTable { entries }
    }

    /// The count for a type name, if it occurs.
    pub fn get(&self, key: &str) -> (r: Option<&usize>)
        ensures
            match key_index(self.view(), key@, 0) {
                Some(k) => r is Some && *r.unwrap() == self.view()[k].1,
                None => r is None,
            },
    {
        match entry_index(&self.entries, key) {
            Some(k) => Some(&self.entries[k].count),
            None => None,
        }
    }

    /// The number of distinct type names.
    pub fn len(&self) -> (r: usize)
        ensures
            r == self.view().len(),
    {
        self.entries.len()
    }

    /// The entries, in order of first occurrence.
    pub fn entries(&self) -> (r: &Vec<TypeCount>)
        ensures
            r@.map_values(|e: TypeCount| (e.name@, e.count as nat)) == self.view(),
    {
        &self.entries
    }
}


proof fn lemma_key_index_found(t: Seq<(Seq<char>, nat)>, key: Seq<char>, i: int)
    requires
        0 <= i,
    ensures
        match key_index(t, key, i) {
            Some(k) => i <= k < t.len() && t[k].0 == key && forall|j: int|
                i <= j < k ==> t[j].0 != key,
            None => forall|j: int| i <= j < t.len() ==> t[j].0 != key,
        },
    decreases t.len() - i,
{
    if i < t.len() && t[i].0 != key {
        lemma_key_index_found(t, key, i + 1);
    }
}

proof fn lemma_key_index_update(t: Seq<(Seq<char>, nat)>, k: int, c: nat, key: Seq<char>, i: int)
    requires
        0 <= k < t.len(),
    ensures
        key_index(t.update(k, (t[k].0, c)), key, i) == key_index(t, key, i),
    decreases t.len() - i,
{
    let u = t.update(k, (t[k].0, c));
    if 0 <= i < t.len() {
        assert(u[i].0 == t[i].0);
        lemma_key_index_update(t, k, c, key, i + 1);
    }
}

proof fn lemma_key_index_push(t: Seq<(Seq<char>, nat)>, x: Seq<char>, key: Seq<char>, i: int)
    requires
        0 <= i <= t.len(),
    ensures
        key != x ==> key_index(t.push((x, 1nat)), key, i) == key_index(t, key, i),
        key == x && key_index(t, key, i) is None ==> key_index(t.push((x, 1nat)), key, i) == Some(
            t.len() as int,
        ),
    decreases t.len() - i,
{
    let u = t.push((x, 1nat));
    if i < t.len() {
        assert(u[i] == t[i]);
        lemma_key_index_push(t, x, key, i + 1);
    } else {
        assert(u[i] == (x, 1nat));
        assert(key_index(u, key, i + 1) is None);
    }
}

/// Counting by type is exact: the count table of a sequence of names gives
/// each name the number of its occurrences, and 0 to a name that does not
/// occur.
pub proof fn lemma_tally_counts(names: Seq<Seq<char>>, key: Seq<char>)
    ensures
        count_in(tally(names), key) == occurrences(names, key),
        (key_index(tally(names), key, 0) is Some) <==> occurrences(names, key) > 0,
    decreases names.len(),
{
    if names.len() > 0 {
        let pre = names.drop_last();
        let x = names.last();
        let t = tally(pre);
        lemma_tally_counts(pre, key);
        lemma_key_index_found(t, x, 0);
        lemma_key_index_found(t, key, 0);
        match key_index(t, x, 0) {
            Some(k) => {
                lemma_key_index_update(t, k, t[k].1 + 1, key, 0);
                assert(t.update(k, (x, t[k].1 + 1)) == t.update(k, (t[k].0, t[k].1 + 1)));
                if key == x {
                    assert(t.update(k, (x, t[k].1 + 1))[k].1 == t[k].1 + 1);
                }
            },
            None => {
                lemma_key_index_push(t, x, key, 0);
                if key == x {
                    assert(t.push((x, 1nat))[t.len() as int].1 == 1);
                }
            },
        }
    }
}

/// No name appears twice in a count table.
pub proof fn lemma_tally_distinct(names: Seq<Seq<char>>)
    ensures
        forall|i: int, j: int|
            0 <= i < j < tally(names).len() ==> tally(names)[i].0 != tally(names)[j].0,
    decreases names.len(),
{
    if names.len() > 0 {
        let pre = names.drop_last();
        let x = names.last();
        let t = tally(pre);
        lemma_tally_distinct(pre);
        lemma_key_index_found(t, x, 0);
        match key_index(t, x, 0) {
            Some(k) => {
                let u = t.update(k, (x, t[k].1 + 1));
                assert forall|i: int, j: int| 0 <= i < j < u.len() implies u[i].0 != u[j].0 by {
                    assert(u[i].0 == t[i].0);
                    assert(u[j].0 == t[j].0);
                }
            },
            None => {
                let u = t.push((x, 1nat));
                assert forall|i: int, j: int| 0 <= i < j < u.len() implies u[i].0 != u[j].0 by {
                    if j < t.len() {
                        assert(u[i] == t[i] && u[j] == t[j]);
                    } else {
                        assert(u[i] == t[i]);
                    }
                }
            },
        }
    }
}

/// The sum of the counts of a table.
pub open spec fn total_count(t: Seq<(Seq<char>, nat)>) -> nat
    decreases t.len(),
{
    if t.len() == 0 {
        0
    } else {
        total_count(t.drop_last()) + t.last().1
    }
}

proof fn lemma_total_count_update(t: Seq<(Seq<char>, nat)>, k: int, x: Seq<char>)
    requires
        0 <= k < t.len(),
    ensures
        total_count(t.update(k, (x, t[k].1 + 1))) == total_count(t) + 1,
    decreases t.len(),
{
    let u = t.update(k, (x, t[k].1 + 1));
    if k == t.len() - 1 {
        assert(u.drop_last() =~= t.drop_last());
    } else {
        assert(u.drop_last() =~= t.drop_last().update(k, (x, t[k].1 + 1)));
        lemma_total_count_update(t.drop_last(), k, x);
    }
}

/// Counting by type loses nothing: the counts of a count table add up to
/// the number of names counted.
pub proof fn lemma_tally_total(names: Seq<Seq<char>>)
    ensures
        total_count(tally(names)) == names.len(),
    decreases names.len(),
{
    if names.len() > 0 {
        let pre = names.drop_last();
        let x = names.last();
        let t = tally(pre);
        lemma_tally_total(pre);
        lemma_key_index_found(t, x, 0);
        match key_index(t, x, 0) {
            Some(k) => {
                lemma_total_count_update(t, k, x);
            },
            None => {
                assert(t.push((x, 1nat)).drop_last() =~= t);
            },
        }
    }
}

// ---------------------------------------------------------------------------
// The graph
// ---------------------------------------------------------------------------

/// Graph statistics.
#[derive(Debug, Clone)]
pub struct Statistics {
    /// Total number of nodes
    pub total_nodes: usize,
    /// Total number of edges
    pub total_edges: usize,
    /// Node counts by type
    pub nodes_by_type: CountTable,
    /// Edge counts by type
    pub edges_by_type: CountTable,
    /// List of orphaned node paths
    pub orphaned_nodes: Vec<String>,
}

/// The complete document graph.
#[derive(Debug, Clone)]
pub struct DocGraph {
    /// Schema version
    pub version: String,
    /// When the graph was generated
    pub generated_at: Timestamp,
    /// All document nodes
    pub nodes: Vec<Node>,
    /// All relationship edges
    pub edges: Vec<Edge>,
    /// Graph statistics (optional)
    pub statistics: Option<Statistics>,
}

/// The index of the first node at or after `i` whose ID is `id`.
pub open spec fn first_with_id(nodes: Seq<Node>, id: Seq<char>, i: int) -> Option<int>
    decreases nodes.len() - i,
{
    if i < 0 || i >= nodes.len() {
        None
    } else if nodes[i].id@ == id {
        Some(i)
    } else {
        first_with_id(nodes, id, i + 1)
    }
}

/// The index of the first node at or after `i` whose path is `path`.
pub open spec fn first_with_path(nodes: Seq<Node>, path: Seq<char>, i: int) -> Option<int>
    decreases nodes.len() - i,
{
    if i < 0 || i >= nodes.len() {
        None
    } else if nodes[i].path@ == path {
        Some(i)
    } else {
        first_with_path(nodes, path, i + 1)
    }
}

/// The node has the UUID `uuid`.
pub open spec fn has_uuid(n: Node, uuid: Seq<char>) -> bool {
    n.uuid matches Some(u) && u@ == uuid
}

/// The index of the first node at or after `i` whose UUID is `uuid`.
pub open spec fn first_with_uuid(nodes: Seq<Node>, uuid: Seq<char>, i: int) -> Option<int>
    decreases nodes.len() - i,
{
    if i < 0 || i >= nodes.len() {
        None
    } else if has_uuid(nodes[i], uuid) {
        Some(i)
    } else {
        first_with_uuid(nodes, uuid, i + 1)
    }
}

/// The edges leaving the node `id`, in order.
pub open spec fn edges_with_source(edges: Seq<Edge>, id: Seq<char>) -> Seq<Edge>
    decreases edges.len(),
{
    if edges.len() == 0 {
        seq![]
    } else {
        let r = edges_with_source(edges.drop_last(), id);
        if edges.last().source@ == id {
            r.push(edges.last())
        } else {
            r
        }
    }
}

/// The edges reaching the node `id`, in order.
pub open spec fn edges_with_target(edges: Seq<Edge>, id: Seq<char>) -> Seq<Edge>
    decreases edges.len(),
{
    if edges.len() == 0 {
        seq![]
    } else {
        let r = edges_with_target(edges.drop_last(), id);
        if edges.last().target@ == id {
            r.push(edges.last())
        } else {
            r
        }
    }
}

/// Some edge starts or ends at the node `id`.
pub open spec fn touches(edges: Seq<Edge>, id: Seq<char>) -> bool {
    exists|k: int| 0 <= k < edges.len() && (edges[k].source@ == id || edges[k].target@ == id)
}

/// The nodes that no edge starts or ends at, in order.
pub open spec fn orphans(nodes: Seq<Node>, edges: Seq<Edge>) -> Seq<Node>
    decreases nodes.len(),
{
    if nodes.len() == 0 {
        seq![]
    } else {
        let r = orphans(nodes.drop_last(), edges);
        if touches(edges, nodes.last().id@) {
            r
        } else {
            r.push(nodes.last())
        }
    }
}

/// The orphans are exactly the nodes that no edge touches: each orphan is a
/// node of the graph that no edge starts or ends at, and each such node is
/// an orphan.
pub proof fn lemma_orphans_exact(nodes: Seq<Node>, edges: Seq<Edge>)
    ensures
        forall|k: int|
            0 <= k < orphans(nodes, edges).len() ==> nodes.contains(
                #[trigger] orphans(nodes, edges)[k],
            ) && !touches(edges, orphans(nodes, edges)[k].id@),
        forall|i: int|
            0 <= i < nodes.len() && !touches(edges, (#[trigger] nodes[i]).id@) ==> orphans(
                nodes,
                edges,
            ).contains(nodes[i]),
    decreases nodes.len(),
{
    if nodes.len() > 0 {
        let pre = nodes.drop_last();
        let x = nodes.last();
        lemma_orphans_exact(pre, edges);
        let r = orphans(pre, edges);
        let out = orphans(nodes, edges);
        assert forall|k: int| 0 <= k < out.len() implies nodes.contains(#[trigger] out[k])
            && !touches(edges, out[k].id@) by {
            if k < r.len() {
                assert(out[k] == r[k]);
                let j = choose|j: int| 0 <= j < pre.len() && pre[j] == r[k];
                assert(nodes[j] == pre[j]);
            } else {
                assert(out[k] == x);
                assert(nodes[nodes.len() - 1] == x);
            }
        }
        assert forall|i: int| 0 <= i < nodes.len() && !touches(edges, (#[trigger] nodes[i]).id@)
            implies out.contains(nodes[i]) by {
            if i < pre.len() {
                assert(pre[i] == nodes[i]);
                let j = choose|j: int| 0 <= j < r.len() && r[j] == pre[i];
                assert(out[j] == r[j]);
            } else {
                assert(out[out.len() - 1] == x);
            }
        }
    }
}

/// The statistics of a graph add up: the counts by node type sum to the
/// number of nodes and the counts by edge type to the number of edges.
pub proof fn lemma_statistics_add_up(nodes: Seq<Node>, edges: Seq<Edge>, s: Statistics)
    requires
        statistics_of(nodes, edges, s),
    ensures
        total_count(s.nodes_by_type.view()) == s.total_nodes,
        total_count(s.edges_by_type.view()) == s.total_edges,
{
    lemma_tally_total(node_type_names(nodes));
    lemma_tally_total(edge_type_names(edges));
}

/// The type names of the nodes, in order.
pub open spec fn node_type_names(nodes: Seq<Node>) -> Seq<Seq<char>> {
    nodes.map_values(|n: Node| node_type_name(n.node_type))
}

/// The type names of the edges, in order.
pub open spec fn edge_type_names(edges: Seq<Edge>) -> Seq<Seq<char>> {
    edges.map_values(|e: Edge| edge_type_name(e.edge_type))
}

/// `s` holds the statistics of a graph with these nodes and edges.
pub open spec fn statistics_of(nodes: Seq<Node>, edges: Seq<Edge>, s: Statistics) -> bool {
    &&& s.total_nodes == nodes.len()
    &&& s.total_edges == edges.len()
    &&& s.nodes_by_type.view() == tally(node_type_names(nodes))
    &&& s.edges_by_type.view() == tally(edge_type_names(edges))
    &&& s.orphaned_nodes.deep_view() == orphans(nodes, edges).map_values(|n: Node| n.path@)
}

/// Whether some edge starts or ends at the node `id`.
fn touches_exec(edges: &Vec<Edge>, id: &str) -> (r: bool)
    ensures
        r == touches(edges@, id@),
{
    let mut k: usize = 0;
    while k < edges.len()
        invariant
            k <= edges@.len(),
            forall|j: int|
                0 <= j < k ==> !(edges@[j].source@ == id@ || edges@[j].target@ == id@),
        decreases edges@.len() - k,
    {
        if same_text(edges[k].source.as_str(), id) || same_text(edges[k].target.as_str(), id) {
            return true;
        }
        k = k + 1;
    }
    false
}

impl DocGraph {
    /// Create a new empty graph, stamped with the current time.
    pub fn new() -> (g: Self)
        ensures
            g.version@ == "1.0"@,
            g.nodes@.len() == 0,
            g.edges@.len() == 0,
            g.statistics is None,
    {
        DocGraph {
            version: String::from_str("1.0"),
            generated_at: now_utc(),
            nodes: Vec::new(),
            edges: Vec::new(),
            statistics: None,
        }
    }

    /// Add a node to the graph.
    pub fn add_node(&mut self, node: Node)
        ensures
            final(self).nodes@ == old(self).nodes@.push(node),
            final(self).edges@ == old(self).edges@,
            final(self).version == old(self).version,
            final(self).generated_at == old(self).generated_at,
            final(self).statistics == old(self).statistics,
    {
        self.nodes.push(node);
    }

    /// Add an edge to the graph.
    pub fn add_edge(&mut self, edge: Edge)
        ensures
            final(self).edges@ == old(self).edges@.push(edge),
            final(self).nodes@ == old(self).nodes@,
            final(self).version == old(self).version,
            final(self).generated_at == old(self).generated_at,
            final(self).statistics == old(self).statistics,
    {
        self.edges.push(edge);
    }

    /// Find a node by its ID.
    pub fn find_node(&self, id: &str) -> (r: Option<&Node>)
        ensures
            r == (match first_with_id(self.nodes@, id@, 0) {
                Some(k) => Some(&self.nodes@[k]),
                None => None,
            }),
    {
        let mut k: usize = 0;
        while k < self.nodes.len()
            invariant
                k <= self.nodes@.len(),
                first_with_id(self.nodes@, id@, 0) == first_with_id(self.nodes@, id@, k as int),
            decreases self.nodes@.len() - k,
        {
            if same_text(self.nodes[k].id.as_str(), id) {
                return Some(&self.nodes[k]);
            }
            k = k + 1;
        }
        None
    }

    /// Find a node by its path.
    pub fn find_node_by_path(&self, path: &str) -> (r: Option<&Node>)
        ensures
            r == (match first_with_path(self.nodes@, path@, 0) {
                Some(k) => Some(&self.nodes@[k]),
                None => None,
            }),
    {
        let mut k: usize = 0;
        while k < self.nodes.len()
            invariant
                k <= self.nodes@.len(),
                first_with_path(self.nodes@, path@, 0) == first_with_path(
                    self.nodes@,
                    path@,
                    k as int,
                ),
            decreases self.nodes@.len() - k,
        {
            if same_text(self.nodes[k].path.as_str(), path) {
                return Some(&self.nodes[k]);
            }
            k = k + 1;
        }
        None
    }

    /// Find a node by its UUID.
    pub fn find_node_by_uuid(&self, uuid: &str) -> (r: Option<&Node>)
        ensures
            r == (match first_with_uuid(self.nodes@, uuid@, 0) {
                Some(k) => Some(&self.nodes@[k]),
                None => None,
            }),
    {
        let mut k: usize = 0;
        while k < self.nodes.len()
            invariant
                k <= self.nodes@.len(),
                first_with_uuid(self.nodes@, uuid@, 0) == first_with_uuid(
                    self.nodes@,
                    uuid@,
                    k as int,
                ),
            decreases self.nodes@.len() - k,
        {
            let hit = match &self.nodes[k].uuid {
                Some(u) => same_text(u.as_str(), uuid),
                None => false,
            };
            if hit {
                return Some(&self.nodes[k]);
            }
            k = k + 1;
        }
        None
    }

    /// Get all edges originating from a node.
    pub fn edges_from(&self, node_id: &str) -> (r: Vec<&Edge>)
        ensures
            r@.map_values(|e: &Edge| *e) == edges_with_source(self.edges@, node_id@),
    {
        let mut r: Vec<&Edge> = Vec::new();
        let mut k: usize = 0;
        assert(self.edges@.take(0) =~= Seq::<Edge>::empty());
        while k < self.edges.len()
            invariant
                k <= self.edges@.len(),
                r@.map_values(|e: &Edge| *e) == edges_with_source(
                    self.edges@.take(k as int),
                    node_id@,
                ),
            decreases self.edges@.len() - k,
        {
            proof {
                assert(self.edges@.take(k + 1).drop_last() =~= self.edges@.take(k as int));
            }
            let ghost before = r@;
            if same_text(self.edges[k].source.as_str(), node_id) {
                r.push(&self.edges[k]);
                assert(r@.map_values(|e: &Edge| *e) =~= before.map_values(|e: &Edge| *e).push(
                    self.edges@[k as int],
                ));
            }
            k = k + 1;
        }
        assert(self.edges@.take(self.edges@.len() as int) =~= self.edges@);
        r
    }

    /// Get all edges pointing to a node.
    pub fn edges_to(&self, node_id: &str) -> (r: Vec<&Edge>)
        ensures
            r@.map_values(|e: &Edge| *e) == edges_with_target(self.edges@, node_id@),
    {
        let mut r: Vec<&Edge> = Vec::new();
        let mut k: usize = 0;
        assert(self.edges@.take(0) =~= Seq::<Edge>::empty());
        while k < self.edges.len()
            invariant
                k <= self.edges@.len(),
                r@.map_values(|e: &Edge| *e) == edges_with_target(
                    self.edges@.take(k as int),
                    node_id@,
                ),
            decreases self.edges@.len() - k,
        {
            proof {
                assert(self.edges@.take(k + 1).drop_last() =~= self.edges@.take(k as int));
            }
            let ghost before = r@;
            if same_text(self.edges[k].target.as_str(), node_id) {
                r.push(&self.edges[k]);
                assert(r@.map_values(|e: &Edge| *e) =~= before.map_values(|e: &Edge| *e).push(
                    self.edges@[k as int],
                ));
            }
            k = k + 1;
        }
        assert(self.edges@.take(self.edges@.len() as int) =~= self.edges@);
        r
    }

    /// Find orphaned nodes (no incoming or outgoing edges).
    pub fn find_orphans(&self) -> (r: Vec<&Node>)
        ensures
            r@.map_values(|n: &Node| *n) == orphans(self.nodes@, self.edges@),
    {
        let mut r: Vec<&Node> = Vec::new();
        let mut k: usize = 0;
        assert(self.nodes@.take(0) =~= Seq::<Node>::empty());
        while k < self.nodes.len()
            invariant
                k <= self.nodes@.len(),
                r@.map_values(|n: &Node| *n) == orphans(self.nodes@.take(k as int), self.edges@),
            decreases self.nodes@.len() - k,
        {
            proof {
                assert(self.nodes@.take(k + 1).drop_last() =~= self.nodes@.take(k as int));
            }
            let ghost before = r@;
            if !touches_exec(&self.edges, self.nodes[k].id.as_str()) {
                r.push(&self.nodes[k]);
                assert(r@.map_values(|n: &Node| *n) =~= before.map_values(|n: &Node| *n).push(
                    self.nodes@[k as int],
                ));
            }
            k = k + 1;
        }
        assert(self.nodes@.take(self.nodes@.len() as int) =~= self.nodes@);
        r
    }

    /// Compute statistics for the graph.
    pub fn compute_statistics(&self) -> (s: Statistics)
        ensures
            statistics_of(self.nodes@, self.edges@, s),
    {
        let mut node_names: Vec<String> = Vec::new();
        let mut k: usize = 0;
        while k < self.nodes.len()
            invariant
                k <= self.nodes@.len(),
                node_names.deep_view() == node_type_names(self.nodes@.take(k as int)),
            decreases self.nodes@.len() - k,
        {
            let name = self.nodes[k].node_type.to_string();
            let ghost before = node_names.deep_view();
            node_names.push(name);
            assert(node_names.deep_view() =~= before.push(name@));
            assert(node_type_names(self.nodes@.take(k + 1)) =~= node_type_names(
                self.nodes@.take(k as int),
            ).push(node_type_name(self.nodes@[k as int].node_type)));
            k = k + 1;
        }
        assert(self.nodes@.take(self.nodes@.len() as int) =~= self.nodes@);

        let mut edge_names: Vec<String> = Vec::new();
        let mut k: usize = 0;
        while k < self.edges.len()
            invariant
                k <= self.edges@.len(),
                edge_names.deep_view() == edge_type_names(self.edges@.take(k as int)),
            decreases self.edges@.len() - k,
        {
            let name = self.edges[k].edge_type.to_string();
            let ghost before = edge_names.deep_view();
            edge_names.push(name);
            assert(edge_names.deep_view() =~= before.push(name@));
            assert(edge_type_names(self.edges@.take(k + 1)) =~= edge_type_names(
                self.edges@.take(k as int),
            ).push(edge_type_name(self.edges@[k as int].edge_type)));
            k = k + 1;
        }
        assert(self.edges@.take(self.edges@.len() as int) =~= self.edges@);

        let orphan_nodes = self.find_orphans();
        let mut orphaned: Vec<String> = Vec::new();
        let mut k: usize = 0;
        let ghost on = orphans(self.nodes@, self.edges@);
        while k < orphan_nodes.len()
            invariant
                k <= orphan_nodes@.len(),
                orphan_nodes@.map_values(|n: &Node| *n) == on,
                orphaned.deep_view() == on.take(k as int).map_values(|n: Node| n.path@),
            decreases orphan_nodes@.len() - k,
        {
            assert(*orphan_nodes@[k as int] == on[k as int]);
            let p = copy_string(&orphan_nodes[k].path);
            let ghost before = orphaned.deep_view();
            orphaned.push(p);
            assert(orphaned.deep_view() =~= before.push(p@));
            assert(on.take(k + 1).map_values(|n: Node| n.path@) =~= on.take(k as int).map_values(
                |n: Node| n.path@,
            ).push(on[k as int].path@));
            k = k + 1;
        }
        assert(on.take(on.len() as int) =~= on);

        Statistics {
            total_nodes: self.nodes.len(),
            total_edges: self.edges.len(),
            nodes_by_type: CountTable::tally(&node_names),
            edges_by_type: CountTable::tally(&edge_names),
            orphaned_nodes: orphaned,
        }
    }
}

impl Default for DocGraph {
    fn default() -> (g: Self)
        ensures
            g.version@ == "1.0"@,
            g.nodes@.len() == 0,
            g.edges@.len() == 0,
            g.statistics is None,
    {
        Self::new()
    }
}

} // verus!
