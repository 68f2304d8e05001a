//! Frontmatter handling for markdown files.
//!
//! A document may open (after leading whitespace) with a YAML block
//! delimited by `---` lines. This module locates that block, strips it from
//! the content, and turns the parsed fields into a [`Frontmatter`]. Parsing
//! the YAML text itself is left to the caller, which hands the fields over
//! as a [`RawFrontmatter`].

use vstd::prelude::*;
use crate::graph::{
    EdgeType, NodeMetadata, NodeType, copy_json, denotes_edge_type, node_type_of_lower,
};
use crate::text::{
    all_white_space, chars_of, contains, copy_opt_string, copy_strings, find,
    find_from, is_white_space_char, lowercase, matches_at, occurs_at, same_text,
    skip_white_space, skip_white_space_from, text_contains, to_lowercase, all_ascii,
    ascii_lowercase,
};

verus! {

broadcast use vstd::string::group_string_axioms;

/// A reference to a related document from frontmatter.
#[derive(Debug, Clone)]
pub struct RelatedRef {
    /// Target reference (UUID, path, or ID)
    pub target: String,
    /// Relationship type
    pub edge_type: EdgeType,
    /// Optional note about the relationship
    pub note: Option<String>,
}

/// Parsed frontmatter from a markdown document.
#[derive(Debug, Clone)]
pub struct Frontmatter {
    /// Document UUID (optional)
    pub uuid: Option<String>,
    /// Document title
    pub title: Option<String>,
    /// Document type
    pub doc_type: Option<String>,
    /// Document status
    pub status: Option<String>,
    /// Creation date
    pub created: Option<String>,
    /// Tags
    pub tags: Vec<String>,
    /// Related documents
    pub related: Vec<RelatedRef>,
    /// Raw extra fields, by key
    pub extra: Vec<(String, serde_json::Value)>,
}

/// A related reference as written in the frontmatter.
#[derive(Debug, Clone)]
pub enum RawRelatedRef {
    /// Simple string reference (just a target)
    Simple(String),
    /// Full reference with type and note
    Full { target: String, edge_type: String, note: Option<String> },
}

/// The frontmatter fields as parsed from YAML (`id` read as `uuid`, `type`
/// or `doc_type` as `doc_type`, `date` as `created`), with the remaining
/// fields as JSON values.
#[derive(Debug, Clone)]
pub struct RawFrontmatter {
    pub uuid: Option<String>,
    pub title: Option<String>,
    pub doc_type: Option<String>,
    pub status: Option<String>,
    pub created: Option<String>,
    pub tags: Vec<String>,
    pub related: Vec<RawRelatedRef>,
    pub extra: Vec<(String, serde_json::Value)>,
}

/// The edge type that a related reference has when none is given.
pub fn default_edge_type() -> (r: String)
    ensures
        r@ == "related_to"@,
{
    String::from_str("related_to")
}

// ---------------------------------------------------------------------------
// Locating the frontmatter block
// ---------------------------------------------------------------------------

/// The index just past an opening `---` that follows leading whitespace.
pub open spec fn after_opening(c: Seq<char>) -> Option<int> {
    let t = skip_white_space(c, 0);
    if matches_at(c, seq!['-', '-', '-'], t) {
        Some(t + 3)
    } else {
        None
    }
}

/// The closing delimiter at or after `a`: the index where it starts and its
/// length (`\n---`, else `\r\n---`).
pub open spec fn closing_delimiter(c: Seq<char>, a: int) -> Option<(int, int)> {
    match find_from(c, seq!['\n', '-', '-', '-'], a) {
        Some(p) => Some((p, 4)),
        None => match find_from(c, seq!['\r', '\n', '-', '-', '-'], a) {
            Some(p) => Some((p, 5)),
            None => None,
        },
    }
}

/// The bounds of the YAML text of the frontmatter block, if there is a
/// block and its text is not blank.
pub open spec fn frontmatter_yaml(c: Seq<char>) -> Option<(int, int)> {
    match after_opening(c) {
        None => None,
        Some(a) => match closing_delimiter(c, a) {
            None => None,
            Some((p, _)) => if all_white_space(c.subrange(a, p)) {
                None
            } else {
                Some((a, p))
            },
        },
    }
}

/// The index of the first character at or after `i` that is not `\n` or
/// `\r`.
pub open spec fn skip_line_breaks(s: Seq<char>, i: int) -> int
    decreases s.len() - i,
{
    if 0 <= i < s.len() && (s[i] == '\n' || s[i] == '\r') {
        skip_line_breaks(s, i + 1)
    } else {
        i
    }
}

/// The content without its frontmatter block: after the closing delimiter
/// and the line breaks that follow it. Content with no complete block is
/// unchanged.
pub open spec fn without_frontmatter(c: Seq<char>) -> Seq<char> {
    match after_opening(c) {
        None => c,
        Some(a) => match closing_delimiter(c, a) {
            None => c,
            Some((p, len)) => c.skip(skip_line_breaks(c, p + len)),
        },
    }
}

proof fn lemma_find_from_bounds(hay: Seq<char>, pat: Seq<char>, i: int)
    requires
        0 <= i,
    ensures
        find_from(hay, pat, i) matches Some(k) ==> i <= k && k + pat.len() <= hay.len(),
    decreases hay.len() + 1 - i,
{
    if i + pat.len() <= hay.len() && !matches_at(hay, pat, i) {
        lemma_find_from_bounds(hay, pat, i + 1);
    }
}

proof fn lemma_skip_line_breaks(s: Seq<char>, i: int)
    requires
        0 <= i <= s.len(),
    ensures
        i <= skip_line_breaks(s, i) <= s.len(),
    decreases s.len() - i,
{
    if i < s.len() && (s[i] == '\n' || s[i] == '\r') {
        lemma_skip_line_breaks(s, i + 1);
    }
}

/// Where the frontmatter's text starts, and where its closing delimiter
/// starts and how long it is.
fn locate_block(c: &Vec<char>) -> (r: Option<(usize, usize, usize)>)
    ensures
        match r {
            Some((a, p, len)) => after_opening(c@) == Some(a as int) && closing_delimiter(
                c@,
                a as int,
            ) == Some((p as int, len as int)) && a <= p && p + len <= c@.len(),
            None => after_opening(c@) is None || closing_delimiter(
                c@,
                after_opening(c@).unwrap(),
            ) is None,
        },
{
    let n = c.len();
    let t = skip_white_space_from(c, 0);
    let dashes = vec!['-', '-', '-'];
    if !occurs_at(c, &dashes, t) {
        return None;
    }
    let a = t + 3;
    let close = vec!['\n', '-', '-', '-'];
    let close_cr = vec!['\r', '\n', '-', '-', '-'];
    proof {
        lemma_find_from_bounds(c@, close@, a as int);
        lemma_find_from_bounds(c@, close_cr@, a as int);
    }
    match find(c, &close, a) {
        Some(p) => Some((a, p, 4)),
        None => match find(c, &close_cr, a) {
            Some(p) => Some((a, p, 5)),
            None => None,
        },
    }
}

impl Frontmatter {
    /// The YAML text of the frontmatter block: after an opening `---` at the
    /// start of the content (leading whitespace aside), up to the first
    /// closing `\n---`. `None` where there is no such block or its text is
    /// blank.
    pub fn yaml_block(content: &str) -> (r: Option<&str>)
        ensures
            match frontmatter_yaml(content@) {
                Some((a, p)) => r matches Some(y) && y@ == content@.subrange(a, p),
                None => r is None,
            },
    {
        let c = chars_of(content);
        match locate_block(&c) {
            None => None,
            Some((a, p, _)) => {
                let mut i = a;
                while i < p
                    invariant
                        a <= i <= p <= c@.len(),
                        c@ == content@,
                        after_opening(c@) == Some(a as int),
                        closing_delimiter(c@, a as int) matches Some((pp, _)) && pp == p,
                        all_white_space(c@.subrange(a as int, i as int)),
                    decreases p - i,
                {
                    if !is_white_space_char(c[i]) {
                        assert(!all_white_space(c@.subrange(a as int, p as int))) by {
                            assert(c@.subrange(a as int, p as int)[i - a] == c@[i as int]);
                        }
                        return Some(content.substring_char(a, p));
                    }
                    i = i + 1;
                    assert forall|k: int| 0 <= k < i - a implies crate::text::is_white_space(
                        #[trigger] c@.subrange(a as int, i as int)[k],
                    ) by {
                        assert(c@.subrange(a as int, i as int)[k] == c@[a + k]);
                        if k < i - 1 - a {
                            assert(c@.subrange(a as int, i - 1)[k] == c@[a + k]);
                        }
                    }
                }
                assert(c@.subrange(a as int, p as int) == c@.subrange(a as int, i as int));
                None
            },
        }
    }

    /// Get the content without frontmatter.
    pub fn strip_frontmatter(content: &str) -> (r: &str)
        ensures
            r@ == without_frontmatter(content@),
    {
        let c = chars_of(content);
        match locate_block(&c) {
            None => content,
            Some((_, p, len)) => {
                let mut b = p + len;
                proof {
                    lemma_skip_line_breaks(c@, b as int);
                }
                while b < c.len() && (c[b] == '\n' || c[b] == '\r')
                    invariant
                        p + len <= b <= c@.len(),
                        skip_line_breaks(c@, (p + len) as int) == skip_line_breaks(c@, b as int),
                    decreases c@.len() - b,
                {
                    b = b + 1;
                }
                let r = content.substring_char(b, c.len());
                assert(c@.subrange(b as int, c@.len() as int) =~= c@.skip(b as int));
                r
            },
        }
    }
}


// ---------------------------------------------------------------------------
// Building the frontmatter
// ---------------------------------------------------------------------------

/// The keys that have fields of their own and are not kept among the extra
/// fields.
pub open spec fn is_known_key(k: Seq<char>) -> bool {
    ||| k == "uuid"@
    ||| k == "id"@
    ||| k == "title"@
    ||| k == "type"@
    ||| k == "doc_type"@
    ||| k == "status"@
    ||| k == "created"@
    ||| k == "date"@
    ||| k == "tags"@
    ||| k == "related"@
}

/// The extra fields whose keys are not known keys, in order.
pub open spec fn kept_extra(e: Seq<(String, serde_json::Value)>) -> Seq<(String, serde_json::Value)>
    decreases e.len(),
{
    if e.len() == 0 {
        seq![]
    } else {
        let r = kept_extra(e.drop_last());
        if is_known_key(e.last().0@) {
            r
        } else {
            r.push(e.last())
        }
    }
}

/// `r` is the reference that the written reference `raw` stands for: a bare
/// target is `related_to` without a note; a full reference has the edge type
/// that its type name denotes, ignoring case.
pub open spec fn related_from_raw(r: RelatedRef, raw: RawRelatedRef) -> bool {
    match raw {
        RawRelatedRef::Simple(t) => r.target == t && r.edge_type == EdgeType::RelatedTo
            && r.note is None,
        RawRelatedRef::Full { target, edge_type, note } => r.target == target
            && denotes_edge_type(r.edge_type, lowercase(edge_type@)) && r.note == note,
    }
}

/// Whether `k` is one of the known keys.
fn known_key(k: &str) -> (r: bool)
    ensures
        r == is_known_key(k@),
{
    same_text(k, "uuid") || same_text(k, "id") || same_text(k, "title") || same_text(k, "type")
        || same_text(k, "doc_type") || same_text(k, "status") || same_text(k, "created")
        || same_text(k, "date") || same_text(k, "tags") || same_text(k, "related")
}

/// The path-based node type for an already lowercased path.
pub open spec fn node_type_for_path(lower: Seq<char>) -> NodeType {
    if contains(lower, "/adr/"@) || contains(lower, "adr-"@) {
        NodeType::Adr
    } else if contains(lower, "/blog/"@) || contains(lower, "/posts/"@) {
        NodeType::Blog
    } else if contains(lower, "/notes/"@) || contains(lower, "/scratch/"@) {
        NodeType::Note
    } else if contains(lower, "/docs/"@) || contains(lower, "/src/"@) {
        NodeType::Doc
    } else {
        NodeType::Unknown
    }
}

/// A lowercased path decides the node type by its markers, in a fixed order
/// of priority: `/adr/` or `adr-` marks an ADR; then `/blog/` or `/posts/` a
/// blog post; then `/notes/` or `/scratch/` a note; then `/docs/` or `/src/`
/// a document. A path with none of them has an unknown type.
pub proof fn lemma_path_markers(lower: Seq<char>)
    ensures
        contains(lower, "/adr/"@) || contains(lower, "adr-"@) ==> node_type_for_path(lower)
            == NodeType::Adr,
        !contains(lower, "/adr/"@) && !contains(lower, "adr-"@) && (contains(lower, "/blog/"@)
            || contains(lower, "/posts/"@)) ==> node_type_for_path(lower) == NodeType::Blog,
        !contains(lower, "/adr/"@) && !contains(lower, "adr-"@) && !contains(lower, "/blog/"@)
            && !contains(lower, "/posts/"@) && (contains(lower, "/notes/"@) || contains(
            lower,
            "/scratch/"@,
        )) ==> node_type_for_path(lower) == NodeType::Note,
        !contains(lower, "/adr/"@) && !contains(lower, "adr-"@) && !contains(lower, "/blog/"@)
            && !contains(lower, "/posts/"@) && !contains(lower, "/notes/"@) && !contains(
            lower,
            "/scratch/"@,
        ) && (contains(lower, "/docs/"@) || contains(lower, "/src/"@)) ==> node_type_for_path(
            lower,
        ) == NodeType::Doc,
        !contains(lower, "/adr/"@) && !contains(lower, "adr-"@) && !contains(lower, "/blog/"@)
            && !contains(lower, "/posts/"@) && !contains(lower, "/notes/"@) && !contains(
            lower,
            "/scratch/"@,
        ) && !contains(lower, "/docs/"@) && !contains(lower, "/src/"@) ==> node_type_for_path(
            lower,
        ) == NodeType::Unknown,
{
}

/// The node type that the directories of an already lowercased path
/// suggest.
pub fn node_type_for_lowercase_path(lower: &str) -> (r: NodeType)
    ensures
        r == node_type_for_path(lower@),
{
    if text_contains(lower, "/adr/") || text_contains(lower, "adr-") {
        NodeType::Adr
    } else if text_contains(lower, "/blog/") || text_contains(lower, "/posts/") {
        NodeType::Blog
    } else if text_contains(lower, "/notes/") || text_contains(lower, "/scratch/") {
        NodeType::Note
    } else if text_contains(lower, "/docs/") || text_contains(lower, "/src/") {
        NodeType::Doc
    } else {
        NodeType::Unknown
    }
}

/// A copy of a list of extra fields.
fn copy_extra(e: &Vec<(String, serde_json::Value)>) -> (r: Vec<(String, serde_json::Value)>)
    ensures
        r@ == e@,
{
    let mut out: Vec<(String, serde_json::Value)> = Vec::new();
    let mut i: usize = 0;
    while i < e.len()
        invariant
            i <= e@.len(),
            out@ == e@.take(i as int),
        decreases e@.len() - i,
    {
        let k = e[i].0.clone();
        let v = copy_json(&e[i].1);
        out.push((k, v));
        i = i + 1;
        assert(out@ =~= e@.take(i as int));
    }
    assert(e@.take(e@.len() as int) =~= e@);
    out
}

impl Default for Frontmatter {
    fn default() -> (r: Self)
        ensures
            r.uuid is None,
            r.title is None,
            r.doc_type is None,
            r.status is None,
            r.created is None,
            r.tags@.len() == 0,
            r.related@.len() == 0,
            r.extra@.len() == 0,
    {
        Frontmatter {
            uuid: None,
            title: None,
            doc_type: None,
            status: None,
            created: None,
            tags: Vec::new(),
            related: Vec::new(),
            extra: Vec::new(),
        }
    }
}

impl Frontmatter {
    /// The frontmatter that parsed fields describe: the fields as they are,
    /// each related reference converted, and the extra fields without the
    /// known keys.
    pub fn from_raw(raw: RawFrontmatter) -> (f: Frontmatter)
        ensures
            f.uuid == raw.uuid,
            f.title == raw.title,
            f.doc_type == raw.doc_type,
            f.status == raw.status,
            f.created == raw.created,
            f.tags == raw.tags,
            f.related@.len() == raw.related@.len(),
            forall|i: int|
                0 <= i < raw.related@.len() ==> related_from_raw(
                    #[trigger] f.related@[i],
                    raw.related@[i],
                ),
            f.extra@ == kept_extra(raw.extra@),
    {
        let ghost raw0 = raw;
        let RawFrontmatter { uuid, title, doc_type, status, created, tags, related, extra } = raw;

        // Convert related references
        let mut refs: Vec<RelatedRef> = Vec::new();
        let mut i: usize = 0;
        while i < related.len()
            invariant
                i <= related@.len(),
                related == raw0.related,
                refs@.len() == i,
                forall|j: int| 0 <= j < i ==> related_from_raw(#[trigger] refs@[j], related@[j]),
            decreases related@.len() - i,
        {
            let r = match &related[i] {
                RawRelatedRef::Simple(target) => RelatedRef {
                    target: target.clone(),
                    edge_type: EdgeType::RelatedTo,
                    note: None,
                },
                RawRelatedRef::Full { target, edge_type, note } => RelatedRef {
                    target: target.clone(),
                    edge_type: EdgeType::from(edge_type.as_str()),
                    note: copy_opt_string(note),
                },
            };
            refs.push(r);
            i = i + 1;
        }

        // Keep the extra fields that have no field of their own
        let mut kept: Vec<(String, serde_json::Value)> = Vec::new();
        let mut i: usize = 0;
        assert(extra@.take(0) =~= Seq::<(String, serde_json::Value)>::empty());
        while i < extra.len()
            invariant
                i <= extra@.len(),
                extra == raw0.extra,
                kept@ == kept_extra(extra@.take(i as int)),
            decreases extra@.len() - i,
        {
            proof {
                assert(extra@.take(i + 1).drop_last() =~= extra@.take(i as int));
                assert(extra@.take(i + 1).last() == extra@[i as int]);
            }
            if !known_key(extra[i].0.as_str()) {
                let k = extra[i].0.clone();
                let v = copy_json(&extra[i].1);
                kept.push((k, v));
            }
            i = i + 1;
        }
        assert(extra@.take(extra@.len() as int) =~= extra@);

        Frontmatter { uuid, title, doc_type, status, created, tags, related: refs, extra: kept }
    }

    /// Convert to NodeMetadata.
    pub fn to_node_metadata(&self) -> (m: NodeMetadata)
        ensures
            m.title == self.title,
            m.status == self.status,
            m.created == self.created,
            m.tags@ == self.tags@,
            m.audience@.len() == 0,
            m.level is None,
            m.extra@ == self.extra@,
    {
        NodeMetadata {
            title: copy_opt_string(&self.title),
            status: copy_opt_string(&self.status),
            created: copy_opt_string(&self.created),
            tags: copy_strings(&self.tags),
            audience: Vec::new(),
            level: None,
            extra: copy_extra(&self.extra),
        }
    }

    /// Infer node type from frontmatter or path: the declared type if there
    /// is one, else what the path's directories suggest (ignoring case).
    pub fn infer_node_type(&self, path: &str) -> (r: NodeType)
        ensures
            r == (match self.doc_type {
                Some(t) => node_type_of_lower(lowercase(t@)),
                None => node_type_for_path(lowercase(path@)),
            }),
            match self.doc_type {
                Some(t) => all_ascii(t@) ==> r == node_type_of_lower(ascii_lowercase(t@)),
                None => all_ascii(path@) ==> r == node_type_for_path(ascii_lowercase(path@)),
            },
    {
        // First check explicit type in frontmatter
        if let Some(doc_type) = &self.doc_type {
            return NodeType::from(doc_type.as_str());
        }
        // Infer from path
        let lower = to_lowercase(path);
        node_type_for_lowercase_path(lower.as_str())
    }
}

} // verus!
