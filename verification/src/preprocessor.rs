//! Building the document graph of a book.
//!
//! The graph is built in passes over the book's chapters: one node per
//! chapter that has a path, then edges from each chapter's frontmatter
//! references and inline links, then (if configured) the inverse edges and
//! the statistics. Reading the book and writing the output files is left to
//! the caller.

use vstd::prelude::*;
use crate::config::{Config, inverse_of};
use crate::extractor::{Frontmatter, node_type_for_path, without_frontmatter};
use crate::graph::{
    DocGraph, Edge, EdgeType, Node, NodeType, denotes_edge_type, edge_type_name,
    first_with_id, first_with_uuid, has_uuid, node_type_of_lower, statistics_of,
};
use crate::scanner::{
    InlineLink,
    context_edge_type, find_links, infer_edge_type_from_context, link_view, links_of,
    node_id_of_path, normalize_target, normalized_target, path_to_node_id,
};
use crate::extractor::RelatedRef;
use crate::text::{
    chars_of, ends_with, lowercase, push_char, push_str, same_text, };

verus! {

broadcast use vstd::string::group_string_axioms;

/// Doc-graph preprocessor for MDBook.
#[derive(Debug, Clone, Copy)]
pub struct DocGraphPreprocessor;

impl DocGraphPreprocessor {
    /// Create the preprocessor.
    pub fn new() -> Self {
        DocGraphPreprocessor
    }

    /// The preprocessor's name.
    pub fn name(&self) -> (r: &'static str)
        ensures
            r@ == "doc-graph"@,
    {
        "doc-graph"
    }

    /// Whether the preprocessor works with a renderer: every renderer but
    /// one named `not-supported`.
    pub fn supports_renderer(&self, renderer: &str) -> (r: bool)
        ensures
            r == (renderer@ != "not-supported"@),
    {
        !same_text(renderer, "not-supported")
    }
}

impl Default for DocGraphPreprocessor {
    fn default() -> Self {
        Self::new()
    }
}

/// A chapter of the book, as the graph builder reads it.
#[derive(Debug)]
pub struct ChapterInput {
    /// The chapter's path relative to the book's source directory; `None`
    /// for a draft chapter
    pub path: Option<String>,
    /// The chapter's markdown content
    pub content: String,
    /// The chapter's frontmatter: none, parsed, or the text of the error
    /// that parsing it gave
    pub frontmatter: Result<Option<Frontmatter>, String>,
}

// ---------------------------------------------------------------------------
// Path index: chapter path to node ID
// ---------------------------------------------------------------------------

/// One entry of the path index.
#[derive(Debug, Clone)]
pub struct PathEntry {
    /// A chapter path
    pub path: String,
    /// The ID of the node made from that chapter
    pub id: String,
}

/// Node IDs by chapter path: each path once, in order of first insertion;
/// inserting a path again replaces its ID.
#[derive(Debug, Clone)]
pub struct PathIndex {
    entries: Vec<PathEntry>,
}

/// The entries as (path, id) pairs.
pub open spec fn path_entries_view(e: Seq<PathEntry>) -> Seq<(Seq<char>, Seq<char>)> {
    e.map_values(|x: PathEntry| (x.path@, x.id@))
}

/// The index of the first entry at or after `i` for `path`.
pub open spec fn path_position(m: Seq<(Seq<char>, Seq<char>)>, path: Seq<char>, i: int) -> Option<
    int,
>
    decreases m.len() - i,
{
    if i < 0 || i >= m.len() {
        None
    } else if m[i].0 == path {
        Some(i)
    } else {
        path_position(m, path, i + 1)
    }
}

/// The ID recorded for `path`, if any.
pub open spec fn path_lookup(m: Seq<(Seq<char>, Seq<char>)>, path: Seq<char>) -> Option<Seq<char>> {
    match path_position(m, path, 0) {
        Some(k) => Some(m[k].1),
        None => None,
    }
}

/// Records `id` for `path`, replacing an earlier ID for the same path.
pub open spec fn path_insert(m: Seq<(Seq<char>, Seq<char>)>, path: Seq<char>, id: Seq<char>) -> Seq<
    (Seq<char>, Seq<char>),
> {
    match path_position(m, path, 0) {
        Some(k) => m.update(k, (path, id)),
        None => m.push((path, id)),
    }
}

/// The index `m` after recording the pairs in order.
pub open spec fn insert_pairs(
    m: Seq<(Seq<char>, Seq<char>)>,
    pairs: Seq<(Seq<char>, Seq<char>)>,
) -> Seq<(Seq<char>, Seq<char>)>
    decreases pairs.len(),
{
    if pairs.len() == 0 {
        m
    } else {
        let (p, id) = pairs.last();
        path_insert(insert_pairs(m, pairs.drop_last()), p, id)
    }
}

impl PathIndex {
    /// The entries as (path, id) pairs.
    pub closed spec fn view(&self) -> Seq<(Seq<char>, Seq<char>)> {
        path_entries_view(self.entries@)
    }

    /// An empty index.
    pub fn new() -> (r: Self)
        ensures
            r.view() == Seq::<(Seq<char>, Seq<char>)>::empty(),
    {
        let r = PathIndex { entries: Vec::new() };
        assert(r.view() =~= Seq::<(Seq<char>, Seq<char>)>::empty());
        r
    }

    fn position(&self, path: &str) -> (r: Option<usize>)
        ensures
            match r {
                Some(k) => k < self.entries@.len() && path_position(self.view(), path@, 0) == Some(
                    k as int,
                ),
                None => path_position(self.view(), path@, 0) is None,
            },
    {
        let ghost m = self.view();
        let mut k: usize = 0;
        while k < self.entries.len()
            invariant
                k <= self.entries@.len(),
                m == self.view(),
                path_position(m, path@, 0) == path_position(m, path@, k as int),
            decreases self.entries@.len() - k,
        {
            if same_text(self.entries[k].path.as_str(), path) {
                return Some(k);
            }
            k = k + 1;
        }
        None
    }

    /// Record `id` for `path`.
    pub fn insert(&mut self, path: String, id: String)
        ensures
            final(self).view() == path_insert(old(self).view(), path@, id@),
    {
        let ghost m = self.view();
        match self.position(path.as_str()) {
            Some(k) => {
                let ghost pv = path@;
                let ghost iv = id@;
                self.entries.set(k, PathEntry { path, id });
                assert(self.view() =~= m.update(k as int, (pv, iv)));
            },
            None => {
                let ghost pv = path@;
                let ghost iv = id@;
                self.entries.push(PathEntry { path, id });
                assert(self.view() =~= m.push((pv, iv)));
            },
        }
    }

    /// The ID recorded for `path`.
    pub fn get(&self, path: &str) -> (r: Option<&String>)
        ensures
            match path_lookup(self.view(), path@) {
                Some(id) => r matches Some(s) && s@ == id,
                None => r is None,
            },
    {
        match self.position(path) {
            Some(k) => Some(&self.entries[k].id),
            None => None,
        }
    }

    /// The number of paths recorded.
    pub fn len(&self) -> (r: usize)
        ensures
            r == self.view().len(),
    {
        self.entries.len()
    }

    /// The entry at position `k`, in order of first insertion.
    pub fn entry(&self, k: usize) -> (r: &PathEntry)
        requires
            k < self.view().len(),
        ensures
            (r.path@, r.id@) == self.view()[k as int],
    {
        &self.entries[k]
    }
}

// ---------------------------------------------------------------------------
// First pass: nodes
// ---------------------------------------------------------------------------

/// The chapters that have a path (draft chapters are skipped), in order.
pub open spec fn paged_chapters(chs: Seq<ChapterInput>) -> Seq<ChapterInput>
    decreases chs.len(),
{
    if chs.len() == 0 {
        seq![]
    } else {
        let r = paged_chapters(chs.drop_last());
        if chs.last().path is Some {
            r.push(chs.last())
        } else {
            r
        }
    }
}

/// `n` is the node made from a chapter at path `p` whose frontmatter has
/// these fields.
pub open spec fn node_from_fields(
    uuid: Option<String>,
    doc_type: Option<String>,
    title: Option<String>,
    status: Option<String>,
    created: Option<String>,
    tags: Seq<String>,
    extra: Seq<(String, serde_json::Value)>,
    p: Seq<char>,
    n: Node,
) -> bool {
    &&& n.id@ == (match uuid {
        Some(u) => u@,
        None => node_id_of_path(p),
    })
    &&& n.uuid == uuid
    &&& n.path@ == p
    &&& n.node_type == (match doc_type {
        Some(t) => node_type_of_lower(lowercase(t@)),
        None => node_type_for_path(lowercase(p)),
    })
    &&& n.metadata.title == title
    &&& n.metadata.status == status
    &&& n.metadata.created == created
    &&& n.metadata.tags@ == tags
    &&& n.metadata.audience@.len() == 0
    &&& n.metadata.level is None
    &&& n.metadata.extra@ == extra
}

/// `n` is the node made from the chapter `ch`: from its frontmatter if that
/// parsed, else as from an empty frontmatter.
pub open spec fn node_of_chapter(ch: ChapterInput, n: Node) -> bool {
    match ch.path {
        None => false,
        Some(p) => match ch.frontmatter {
            Ok(Some(fm)) => node_from_fields(
                fm.uuid,
                fm.doc_type,
                fm.title,
                fm.status,
                fm.created,
                fm.tags@,
                fm.extra@,
                p@,
                n,
            ),
            _ => node_from_fields(None, None, None, None, None, seq![], seq![], p@, n),
        },
    }
}

/// The warnings that the first pass gives: one for each chapter whose
/// frontmatter failed to parse, `<path>: <error>`.
pub open spec fn node_warnings(chs: Seq<ChapterInput>) -> Seq<Seq<char>>
    decreases chs.len(),
{
    if chs.len() == 0 {
        seq![]
    } else {
        let r = node_warnings(chs.drop_last());
        match (chs.last().path, chs.last().frontmatter) {
            (Some(p), Err(e)) => r.push(p@ + ": "@ + e@),
            _ => r,
        }
    }
}

/// The (path, id) pairs of nodes.
pub open spec fn node_pairs(nodes: Seq<Node>) -> Seq<(Seq<char>, Seq<char>)> {
    nodes.map_values(|n: Node| (n.path@, n.id@))
}

/// The nodes `nodes` are those made from the chapters `chs`, one for each
/// chapter that has a path, in order.
pub open spec fn nodes_of_chapters(chs: Seq<ChapterInput>, nodes: Seq<Node>) -> bool {
    &&& nodes.len() == paged_chapters(chs).len()
    &&& forall|i: int| 0 <= i < nodes.len() ==> node_of_chapter(paged_chapters(chs)[i], #[trigger] nodes[i])
}

/// The node made from a chapter at `path`, with the frontmatter `fm`.
fn make_node(fm: &Frontmatter, path: &String) -> (n: Node)
    ensures
        node_from_fields(
            fm.uuid,
            fm.doc_type,
            fm.title,
            fm.status,
            fm.created,
            fm.tags@,
            fm.extra@,
            path@,
            n,
        ),
{
    // Generate node ID
    let node_id = match &fm.uuid {
        Some(u) => u.clone(),
        None => path_to_node_id(path.as_str()),
    };
    // Determine node type
    let node_type = fm.infer_node_type(path.as_str());
    // Create node
    let mut node = Node::new(node_id, path.clone(), node_type);
    if let Some(uuid) = &fm.uuid {
        node = node.with_uuid(uuid.clone());
    }
    node.with_metadata(fm.to_node_metadata())
}

impl DocGraphPreprocessor {
    /// Extract nodes from all chapters: one node per chapter that has a path,
    /// recorded in the path index.
    pub fn extract_nodes(
        chapters: &Vec<ChapterInput>,
        graph: &mut DocGraph,
        node_by_path: &mut PathIndex,
        warnings: &mut Vec<String>,
    )
        ensures
            final(graph).nodes@.len() == old(graph).nodes@.len() + paged_chapters(chapters@).len(),
            final(graph).nodes@.take(old(graph).nodes@.len() as int) == old(graph).nodes@,
            nodes_of_chapters(chapters@, final(graph).nodes@.skip(old(graph).nodes@.len() as int)),
            final(graph).edges@ == old(graph).edges@,
            final(graph).statistics == old(graph).statistics,
            final(graph).version == old(graph).version,
            final(node_by_path).view() == insert_pairs(
                old(node_by_path).view(),
                node_pairs(final(graph).nodes@.skip(old(graph).nodes@.len() as int)),
            ),
            final(warnings).deep_view() == old(warnings).deep_view() + node_warnings(chapters@),
    {
        let ghost g0 = graph.nodes@;
        let ghost m0 = node_by_path.view();
        let ghost w0 = warnings.deep_view();
        let default_fm = Frontmatter::default();
        assert(default_fm.tags@ =~= Seq::<String>::empty());
        assert(default_fm.extra@ =~= Seq::<(String, serde_json::Value)>::empty());
        let mut i: usize = 0;
        proof {
            assert(chapters@.take(0) =~= Seq::<ChapterInput>::empty());
            assert(graph.nodes@.skip(g0.len() as int) =~= Seq::<Node>::empty());
            assert(node_pairs(Seq::<Node>::empty()) =~= Seq::<(Seq<char>, Seq<char>)>::empty());
        }
        while i < chapters.len()
            invariant
                i <= chapters@.len(),
                default_fm.uuid is None && default_fm.doc_type is None && default_fm.title is None
                    && default_fm.status is None && default_fm.created is None
                    && default_fm.tags@ == Seq::<String>::empty()
                    && default_fm.extra@ == Seq::<(String, serde_json::Value)>::empty(),
                graph.nodes@.len() == g0.len() + paged_chapters(chapters@.take(i as int)).len(),
                graph.nodes@.take(g0.len() as int) == g0,
                nodes_of_chapters(chapters@.take(i as int), graph.nodes@.skip(g0.len() as int)),
                graph.edges@ == old(graph).edges@,
                graph.statistics == old(graph).statistics,
                graph.version == old(graph).version,
                node_by_path.view() == insert_pairs(
                    m0,
                    node_pairs(graph.nodes@.skip(g0.len() as int)),
                ),
                warnings.deep_view() == w0 + node_warnings(chapters@.take(i as int)),
                g0 == old(graph).nodes@,
                m0 == old(node_by_path).view(),
                w0 == old(warnings).deep_view(),
            decreases chapters@.len() - i,
        {
            let ch = &chapters[i];
            let ghost pre = chapters@.take(i as int);
            let ghost nxt = chapters@.take(i + 1);
            proof {
                assert(nxt.drop_last() =~= pre);
                assert(nxt.last() == chapters@[i as int]);
            }
            // Skip draft chapters
            if let Some(path) = &ch.path {
                // Extract frontmatter
                let fm: &Frontmatter = match &ch.frontmatter {
                    Ok(Some(f)) => f,
                    Ok(None) => &default_fm,
                    Err(e) => {
                        let mut w = path.clone();
                        push_str(&mut w, ": ");
                        push_str(&mut w, e.as_str());
                        let ghost before = warnings.deep_view();
                        warnings.push(w);
                        assert(warnings.deep_view() =~= before.push(w@));
                        &default_fm
                    },
                };
                let node = make_node(fm, path);
                assert(node_of_chapter(chapters@[i as int], node));
                // Track path to node ID mapping
                let ghost before_nodes = graph.nodes@;
                let ghost pair = (node.path@, node.id@);
                node_by_path.insert(path.clone(), node.id.clone());
                graph.add_node(node);
                proof {
                    let added = graph.nodes@.skip(g0.len() as int);
                    let prev = before_nodes.skip(g0.len() as int);
                    assert(added =~= prev.push(node));
                    assert(graph.nodes@.take(g0.len() as int) =~= g0);
                    assert(paged_chapters(nxt) == paged_chapters(pre).push(chapters@[i as int]));
                    assert(node_pairs(added) =~= node_pairs(prev).push(pair));
                    assert(node_pairs(added).drop_last() =~= node_pairs(prev));
                    assert forall|k: int| 0 <= k < added.len() implies node_of_chapter(
                        paged_chapters(nxt)[k],
                        #[trigger] added[k],
                    ) by {
                        if k < prev.len() {
                            assert(added[k] == prev[k]);
                            assert(paged_chapters(nxt)[k] == paged_chapters(pre)[k]);
                        }
                    }
                }
            } else {
                proof {
                    assert(paged_chapters(nxt) == paged_chapters(pre));
                }
            }
            i = i + 1;
        }
        proof {
            assert(chapters@.take(chapters@.len() as int) =~= chapters@);
        }
    }
}


// ---------------------------------------------------------------------------
// Second pass: edges
// ---------------------------------------------------------------------------

/// The ID of the first recorded path at or after `i` that ends with
/// `target` or with `target` followed by `.md`.
pub open spec fn suffix_match(m: Seq<(Seq<char>, Seq<char>)>, target: Seq<char>, i: int) -> Option<
    Seq<char>,
>
    decreases m.len() - i,
{
    if i < 0 || i >= m.len() {
        None
    } else if target.is_suffix_of(m[i].0) || (target + ".md"@).is_suffix_of(m[i].0) {
        Some(m[i].1)
    } else {
        suffix_match(m, target, i + 1)
    }
}

/// The node ID that a frontmatter reference resolves to: the reference
/// itself if it is a node ID; else the ID of the node with that UUID; else
/// the node at that path, or at that path with `.md`; else the first
/// recorded path that ends with it (or with it and `.md`).
pub open spec fn resolved_target(
    target: Seq<char>,
    m: Seq<(Seq<char>, Seq<char>)>,
    nodes: Seq<Node>,
) -> Option<Seq<char>> {
    if first_with_id(nodes, target, 0) is Some {
        Some(target)
    } else {
        match first_with_uuid(nodes, target, 0) {
            Some(k) => Some(nodes[k].id@),
            None => match path_lookup(m, target) {
                Some(id) => Some(id),
                None => match path_lookup(m, target + ".md"@) {
                    Some(id) => Some(id),
                    None => suffix_match(m, target, 0),
                },
            },
        }
    }
}

proof fn lemma_suffix_match_finds(
    m: Seq<(Seq<char>, Seq<char>)>,
    target: Seq<char>,
    s: int,
    i: int,
)
    requires
        0 <= s <= i < m.len(),
        target.is_suffix_of(m[i].0),
    ensures
        exists|j: int|
            s <= j <= i && suffix_match(m, target, s) == Some(m[j].1) && (target.is_suffix_of(
                #[trigger] m[j].0,
            ) || (target + ".md"@).is_suffix_of(m[j].0)) && forall|q: int|
                s <= q < j ==> !target.is_suffix_of(#[trigger] m[q].0) && !(target
                    + ".md"@).is_suffix_of(m[q].0),
    decreases i - s,
{
    if target.is_suffix_of(m[s].0) || (target + ".md"@).is_suffix_of(m[s].0) {
        assert(suffix_match(m, target, s) == Some(m[s].1));
    } else {
        lemma_suffix_match_finds(m, target, s + 1, i);
        let j = choose|j: int|
            s + 1 <= j <= i && suffix_match(m, target, s + 1) == Some(m[j].1) && (
            target.is_suffix_of(#[trigger] m[j].0) || (target + ".md"@).is_suffix_of(m[j].0))
                && forall|q: int|
                s + 1 <= q < j ==> !target.is_suffix_of(#[trigger] m[q].0) && !(target
                    + ".md"@).is_suffix_of(m[q].0);
        assert(suffix_match(m, target, s) == suffix_match(m, target, s + 1));
        assert forall|q: int| s <= q < j implies !target.is_suffix_of(#[trigger] m[q].0) && !(
        target + ".md"@).is_suffix_of(m[q].0) by {}
    }
}

/// A reference that names no node by ID or UUID and is no recorded path,
/// with or without `.md`, resolves by path suffix: when some recorded path
/// ends with the reference, it resolves (never to nothing) to the ID of the
/// first recorded path that ends with the reference or with the reference
/// and `.md`.
pub proof fn lemma_resolve_by_suffix(
    target: Seq<char>,
    m: Seq<(Seq<char>, Seq<char>)>,
    nodes: Seq<Node>,
    i: int,
)
    requires
        first_with_id(nodes, target, 0) is None,
        first_with_uuid(nodes, target, 0) is None,
        path_lookup(m, target) is None,
        path_lookup(m, target + ".md"@) is None,
        0 <= i < m.len(),
        target.is_suffix_of(m[i].0),
    ensures
        exists|j: int|
            0 <= j <= i && resolved_target(target, m, nodes) == Some(m[j].1) && (
            target.is_suffix_of(#[trigger] m[j].0) || (target + ".md"@).is_suffix_of(m[j].0))
                && forall|q: int|
                0 <= q < j ==> !target.is_suffix_of(#[trigger] m[q].0) && !(target
                    + ".md"@).is_suffix_of(m[q].0),
{
    lemma_suffix_match_finds(m, target, 0, i);
}

/// The text followed by `.md`.
fn with_md(s: &str) -> (r: String)
    ensures
        r@ == s@ + ".md"@,
{
    let mut r = String::from_str(s);
    push_str(&mut r, ".md");
    r
}

impl DocGraphPreprocessor {
    /// Try to resolve a target reference to a node ID.
    pub fn resolve_target(target: &str, node_by_path: &PathIndex, graph: &DocGraph) -> (r: Option<
        String,
    >)
        ensures
            match resolved_target(target@, node_by_path.view(), graph.nodes@) {
                Some(id) => r matches Some(s) && s@ == id,
                None => r is None,
            },
    {
        // Direct node ID match
        if graph.find_node(target).is_some() {
            return Some(String::from_str(target));
        }
        // UUID match
        if let Some(n) = graph.find_node_by_uuid(target) {
            return Some(n.id.clone());
        }
        // Path match
        if let Some(id) = node_by_path.get(target) {
            return Some(id.clone());
        }
        // Try with .md extension
        let target_md = with_md(target);
        if let Some(id) = node_by_path.get(target_md.as_str()) {
            return Some(id.clone());
        }
        // Try partial path matching
        let ghost m = node_by_path.view();
        assert(resolved_target(target@, m, graph.nodes@) == suffix_match(m, target@, 0));
        let mut k: usize = 0;
        while k < node_by_path.len()
            invariant
                k <= m.len(),
                m == node_by_path.view(),
                resolved_target(target@, m, graph.nodes@) == suffix_match(m, target@, 0),
                target_md@ == target@ + ".md"@,
                suffix_match(m, target@, 0) == suffix_match(m, target@, k as int),
            decreases m.len() - k,
        {
            let e = node_by_path.entry(k);
            if ends_with(e.path.as_str(), target) || ends_with(e.path.as_str(), target_md.as_str()) {
                return Some(e.id.clone());
            }
            k = k + 1;
        }
        None
    }
}

/// What an edge holds, its generation marks aside: source, target, type
/// and note.
pub open spec fn edge_view(e: Edge) -> (Seq<char>, Seq<char>, EdgeType, Option<String>) {
    (e.source@, e.target@, e.edge_type, e.metadata.note)
}

/// The edge was added by the builder itself, not generated as an inverse.
pub open spec fn is_plain(e: Edge) -> bool {
    !e.metadata.auto && e.metadata.generated_at is None
}

/// The edges from `src` that a chapter's frontmatter references give: one
/// for each reference that resolves, with its type and note.
pub open spec fn related_edges(
    src: Seq<char>,
    rel: Seq<RelatedRef>,
    m: Seq<(Seq<char>, Seq<char>)>,
    nodes: Seq<Node>,
) -> Seq<(Seq<char>, Seq<char>, EdgeType, Option<String>)>
    decreases rel.len(),
{
    if rel.len() == 0 {
        seq![]
    } else {
        let r = related_edges(src, rel.drop_last(), m, nodes);
        let x = rel.last();
        match resolved_target(x.target@, m, nodes) {
            Some(t) => r.push((src, t, x.edge_type, x.note)),
            None => r,
        }
    }
}

/// The warnings for the references of a chapter at `p` that do not
/// resolve: `<path>: unresolved reference '<target>'`.
pub open spec fn related_warnings(
    p: Seq<char>,
    rel: Seq<RelatedRef>,
    m: Seq<(Seq<char>, Seq<char>)>,
    nodes: Seq<Node>,
) -> Seq<Seq<char>>
    decreases rel.len(),
{
    if rel.len() == 0 {
        seq![]
    } else {
        let r = related_warnings(p, rel.drop_last(), m, nodes);
        let x = rel.last();
        match resolved_target(x.target@, m, nodes) {
            Some(t) => r,
            None => r.push(p + ": unresolved reference '"@ + x.target@ + "'"@),
        }
    }
}

/// The node that an internal link of a chapter at `p` points to: the node
/// recorded at the normalised target, or at the normalised target with
/// `.md`.
pub open spec fn link_target(
    target: Seq<char>,
    p: Seq<char>,
    m: Seq<(Seq<char>, Seq<char>)>,
) -> Option<Seq<char>> {
    let norm = normalized_target(target, p);
    match path_lookup(m, norm) {
        Some(t) => Some(t),
        None => path_lookup(m, norm + ".md"@),
    }
}

/// The edges from `src` that the links of a chapter at `p` give: one for
/// each internal link to a node other than `src`, typed by its text.
pub open spec fn link_edges(
    src: Seq<char>,
    p: Seq<char>,
    links: Seq<(Seq<char>, Seq<char>, bool, int, int)>,
    m: Seq<(Seq<char>, Seq<char>)>,
) -> Seq<(Seq<char>, Seq<char>, EdgeType, Option<String>)>
    decreases links.len(),
{
    if links.len() == 0 {
        seq![]
    } else {
        let r = link_edges(src, p, links.drop_last(), m);
        let l = links.last();
        if !l.2 {
            r
        } else {
            match link_target(l.1, p, m) {
                Some(t) => if t == src {
                    r
                } else {
                    r.push((src, t, context_edge_type(lowercase(l.0)), None))
                },
                None => r,
            }
        }
    }
}

/// Whether edge `e` comes from one of `links`: an internal link whose target
/// leads to the node `e` ends at, other than `src`, and whose visible text
/// suggests the edge's type.
pub open spec fn edge_of_some_link(
    e: (Seq<char>, Seq<char>, EdgeType, Option<String>),
    src: Seq<char>,
    p: Seq<char>,
    links: Seq<(Seq<char>, Seq<char>, bool, int, int)>,
    m: Seq<(Seq<char>, Seq<char>)>,
) -> bool {
    exists|k: int|
        0 <= k < links.len() && (#[trigger] links[k]).2 && link_target(links[k].1, p, m) == Some(
            e.1,
        ) && e.0 == src && e.1 != src && e.2 == context_edge_type(lowercase(links[k].0))
            && e.3 is None
}

/// Every edge that a chapter's inline links give starts at the chapter's
/// node, ends at another node that an internal link's target leads to, and
/// has the type that the same link's visible text suggests: the type is a
/// function of the link's text, not of its target.
pub proof fn lemma_link_edges_typed_by_text(
    src: Seq<char>,
    p: Seq<char>,
    links: Seq<(Seq<char>, Seq<char>, bool, int, int)>,
    m: Seq<(Seq<char>, Seq<char>)>,
)
    ensures
        forall|x: int|
            0 <= x < link_edges(src, p, links, m).len() ==> edge_of_some_link(
                #[trigger] link_edges(src, p, links, m)[x],
                src,
                p,
                links,
                m,
            ),
    decreases links.len(),
{
    if links.len() > 0 {
        let pre = links.drop_last();
        lemma_link_edges_typed_by_text(src, p, pre, m);
        let r = link_edges(src, p, pre, m);
        let all = link_edges(src, p, links, m);
        let n = links.len() - 1;
        assert forall|x: int| 0 <= x < all.len() implies edge_of_some_link(
            #[trigger] all[x],
            src,
            p,
            links,
            m,
        ) by {
            if x < r.len() {
                assert(all[x] == r[x]);
                assert(edge_of_some_link(r[x], src, p, pre, m));
                let k = choose|k: int|
                    0 <= k < pre.len() && (#[trigger] pre[k]).2 && link_target(pre[k].1, p, m)
                        == Some(r[x].1) && r[x].0 == src && r[x].1 != src && r[x].2
                        == context_edge_type(lowercase(pre[k].0)) && r[x].3 is None;
                assert(links[k] == pre[k]);
            } else {
                assert(links[n] == links.last());
            }
        }
    }
}

/// The edges from `src` that a chapter's frontmatter references give (none
/// if its frontmatter is missing or did not parse).
pub open spec fn frontmatter_edges(
    ch: ChapterInput,
    src: Seq<char>,
    m: Seq<(Seq<char>, Seq<char>)>,
    nodes: Seq<Node>,
) -> Seq<(Seq<char>, Seq<char>, EdgeType, Option<String>)> {
    match ch.frontmatter {
        Ok(Some(fm)) => related_edges(src, fm.related@, m, nodes),
        _ => seq![],
    }
}

/// The edges that a chapter gives, from the node recorded at its path:
/// first from its frontmatter references, then from its inline links.
pub open spec fn chapter_edges(
    ch: ChapterInput,
    m: Seq<(Seq<char>, Seq<char>)>,
    nodes: Seq<Node>,
) -> Seq<(Seq<char>, Seq<char>, EdgeType, Option<String>)> {
    match ch.path {
        None => seq![],
        Some(p) => match path_lookup(m, p@) {
            None => seq![],
            Some(src) => frontmatter_edges(ch, src, m, nodes) + link_edges(src, p@, links_of(without_frontmatter(ch.content@)), m),
        },
    }
}

/// The warnings that a chapter gives in the second pass.
pub open spec fn chapter_edge_warnings(
    ch: ChapterInput,
    m: Seq<(Seq<char>, Seq<char>)>,
    nodes: Seq<Node>,
) -> Seq<Seq<char>> {
    match ch.path {
        None => seq![],
        Some(p) => match path_lookup(m, p@) {
            None => seq![],
            Some(src) => match ch.frontmatter {
                Ok(Some(fm)) => related_warnings(p@, fm.related@, m, nodes),
                _ => seq![],
            },
        },
    }
}

/// The edges that the chapters give, chapter by chapter.
pub open spec fn edges_of_chapters(
    chs: Seq<ChapterInput>,
    m: Seq<(Seq<char>, Seq<char>)>,
    nodes: Seq<Node>,
) -> Seq<(Seq<char>, Seq<char>, EdgeType, Option<String>)>
    decreases chs.len(),
{
    if chs.len() == 0 {
        seq![]
    } else {
        edges_of_chapters(chs.drop_last(), m, nodes) + chapter_edges(chs.last(), m, nodes)
    }
}

/// The warnings that the chapters give in the second pass.
pub open spec fn edge_warnings(
    chs: Seq<ChapterInput>,
    m: Seq<(Seq<char>, Seq<char>)>,
    nodes: Seq<Node>,
) -> Seq<Seq<char>>
    decreases chs.len(),
{
    if chs.len() == 0 {
        seq![]
    } else {
        edge_warnings(chs.drop_last(), m, nodes) + chapter_edge_warnings(chs.last(), m, nodes)
    }
}

/// The edges added after `base` hold `expected` and are plain.
pub open spec fn added_edges(
    edges: Seq<Edge>,
    base: int,
    expected: Seq<(Seq<char>, Seq<char>, EdgeType, Option<String>)>,
) -> bool {
    &&& 0 <= base <= edges.len()
    &&& edges.skip(base).map_values(|e: Edge| edge_view(e)) == expected
    &&& forall|k: int| base <= k < edges.len() ==> is_plain(#[trigger] edges[k])
}

proof fn lemma_added_edges_push(
    edges: Seq<Edge>,
    base: int,
    expected: Seq<(Seq<char>, Seq<char>, EdgeType, Option<String>)>,
    e: Edge,
)
    requires
        added_edges(edges, base, expected),
        is_plain(e),
    ensures
        added_edges(edges.push(e), base, expected.push(edge_view(e))),
{
    let f = |x: Edge| edge_view(x);
    assert(edges.push(e).skip(base) =~= edges.skip(base).push(e));
    assert(edges.push(e).skip(base).map_values(f) =~= edges.skip(base).map_values(f).push(
        edge_view(e),
    ));
    assert forall|k: int| base <= k < edges.push(e).len() implies is_plain(
        #[trigger] edges.push(e)[k],
    ) by {
        if k < edges.len() {
            assert(edges.push(e)[k] == edges[k]);
        }
    }
}

impl DocGraphPreprocessor {
    /// Add the edges of one chapter's frontmatter references.
    fn add_related_edges(
        path: &String,
        source_id: &String,
        related: &Vec<RelatedRef>,
        node_by_path: &PathIndex,
        graph: &mut DocGraph,
        warnings: &mut Vec<String>,
    )
        ensures
            final(graph).nodes@ == old(graph).nodes@,
            final(graph).statistics == old(graph).statistics,
            final(graph).version == old(graph).version,
            final(graph).edges@.take(old(graph).edges@.len() as int) == old(graph).edges@,
            forall|base: int, exp: Seq<(Seq<char>, Seq<char>, EdgeType, Option<String>)>|
                added_edges(old(graph).edges@, base, exp) ==> added_edges(
                    final(graph).edges@,
                    base,
                    exp + related_edges(source_id@, related@, node_by_path.view(), old(graph).nodes@),
                ),
            final(warnings).deep_view() == old(warnings).deep_view() + related_warnings(
                path@,
                related@,
                node_by_path.view(),
                old(graph).nodes@,
            ),
    {
        let ghost nodes = graph.nodes@;
        let ghost m = node_by_path.view();
        let ghost e0 = graph.edges@;
        let ghost w0 = warnings.deep_view();
        let mut j: usize = 0;
        assert(related@.take(0) =~= Seq::<RelatedRef>::empty());
        assert(e0.skip(e0.len() as int) =~= Seq::<Edge>::empty());
        assert(e0.skip(e0.len() as int).map_values(|e: Edge| edge_view(e)) =~= related_edges(
            source_id@,
            related@.take(0),
            m,
            nodes,
        ));
        while j < related.len()
            invariant
                j <= related@.len(),
                graph.nodes@ == nodes,
                nodes == old(graph).nodes@,
                m == node_by_path.view(),
                graph.statistics == old(graph).statistics,
                graph.version == old(graph).version,
                e0 == old(graph).edges@,
                w0 == old(warnings).deep_view(),
                graph.edges@.take(e0.len() as int) == e0,
                added_edges(
                    graph.edges@,
                    e0.len() as int,
                    related_edges(source_id@, related@.take(j as int), m, nodes),
                ),
                warnings.deep_view() == w0 + related_warnings(
                    path@,
                    related@.take(j as int),
                    m,
                    nodes,
                ),
            decreases related@.len() - j,
        {
            let r = &related[j];
            proof {
                assert(related@.take(j + 1).drop_last() =~= related@.take(j as int));
                assert(related@.take(j + 1).last() == related@[j as int]);
            }
            // Try to resolve target
            match Self::resolve_target(r.target.as_str(), node_by_path, graph) {
                Some(target_id) => {
                    let mut edge = Edge::new(source_id.clone(), target_id, r.edge_type.duplicate());
                    if let Some(note) = &r.note {
                        edge.metadata.note = Some(note.clone());
                    }
                    let ghost before = graph.edges@;
                    proof {
                        lemma_added_edges_push(
                            before,
                            e0.len() as int,
                            related_edges(source_id@, related@.take(j as int), m, nodes),
                            edge,
                        );
                    }
                    graph.add_edge(edge);
                    assert(graph.edges@.take(e0.len() as int) =~= e0);
                },
                None => {
                    let mut w = path.clone();
                    push_str(&mut w, ": unresolved reference '");
                    push_str(&mut w, r.target.as_str());
                    push_str(&mut w, "'");
                    let ghost before = warnings.deep_view();
                    warnings.push(w);
                    assert(warnings.deep_view() =~= before.push(w@));
                },
            }
            j = j + 1;
        }
        proof {
            assert(related@.take(related@.len() as int) =~= related@);
            assert forall|base: int, exp: Seq<(Seq<char>, Seq<char>, EdgeType, Option<String>)>|
                added_edges(e0, base, exp) implies added_edges(
                    graph.edges@,
                    base,
                    exp + related_edges(source_id@, related@, m, nodes),
                ) by {
                let f = |x: Edge| edge_view(x);
                let added = graph.edges@.skip(e0.len() as int);
                assert(graph.edges@ =~= e0 + added);
                assert(graph.edges@.skip(base) =~= e0.skip(base) + added);
                assert(graph.edges@.skip(base).map_values(f) =~= e0.skip(base).map_values(f)
                    + added.map_values(f));
                assert forall|k: int| base <= k < graph.edges@.len() implies is_plain(
                    #[trigger] graph.edges@[k],
                ) by {
                    if k < e0.len() {
                        assert(graph.edges@[k] == e0[k]);
                    } else {
                        assert(graph.edges@[k] == added[k - e0.len()]);
                    }
                }
            }
        }
    }
}


proof fn lemma_added_edges_concat(
    e0: Seq<Edge>,
    e1: Seq<Edge>,
    mid: int,
    first: Seq<(Seq<char>, Seq<char>, EdgeType, Option<String>)>,
    second: Seq<(Seq<char>, Seq<char>, EdgeType, Option<String>)>,
    base: int,
    exp: Seq<(Seq<char>, Seq<char>, EdgeType, Option<String>)>,
)
    requires
        added_edges(e0, base, exp),
        mid == e0.len(),
        e1.take(mid) == e0,
        added_edges(e1, mid, second),
    ensures
        added_edges(e1, base, exp + second),
{
    let f = |x: Edge| edge_view(x);
    let added = e1.skip(mid);
    assert(e1 =~= e0 + added);
    assert(e1.skip(base) =~= e0.skip(base) + added);
    assert(e1.skip(base).map_values(f) =~= e0.skip(base).map_values(f) + added.map_values(f));
    assert forall|k: int| base <= k < e1.len() implies is_plain(#[trigger] e1[k]) by {
        if k < e0.len() {
            assert(e1[k] == e0[k]);
        }
    }
}

impl DocGraphPreprocessor {
    /// Add the edges of one chapter's inline links.
    fn add_link_edges(
        path: &String,
        source_id: &String,
        content: &String,
        node_by_path: &PathIndex,
        graph: &mut DocGraph,
    )
        ensures
            final(graph).nodes@ == old(graph).nodes@,
            final(graph).statistics == old(graph).statistics,
            final(graph).version == old(graph).version,
            final(graph).edges@.take(old(graph).edges@.len() as int) == old(graph).edges@,
            added_edges(
                final(graph).edges@,
                old(graph).edges@.len() as int,
                link_edges(
                    source_id@,
                    path@,
                    links_of(without_frontmatter(content@)),
                    node_by_path.view(),
                ),
            ),
    {
        let ghost m = node_by_path.view();
        let ghost e0 = graph.edges@;
        // Extract edges from inline links
        let content_without_fm = Frontmatter::strip_frontmatter(content.as_str());
        let links = find_links(content_without_fm);
        let ghost lv = links@.map_values(|l: InlineLink| link_view(l));
        assert(lv == links_of(without_frontmatter(content@)));
        let mut j: usize = 0;
        assert(lv.take(0) =~= Seq::<(Seq<char>, Seq<char>, bool, int, int)>::empty());
        assert(e0.skip(e0.len() as int) =~= Seq::<Edge>::empty());
        assert(e0.skip(e0.len() as int).map_values(|e: Edge| edge_view(e)) =~= link_edges(
            source_id@,
            path@,
            lv.take(0),
            m,
        ));
        while j < links.len()
            invariant
                j <= links@.len(),
                lv == links@.map_values(|l: InlineLink| link_view(l)),
                m == node_by_path.view(),
                graph.nodes@ == old(graph).nodes@,
                graph.statistics == old(graph).statistics,
                graph.version == old(graph).version,
                e0 == old(graph).edges@,
                graph.edges@.take(e0.len() as int) == e0,
                added_edges(
                    graph.edges@,
                    e0.len() as int,
                    link_edges(source_id@, path@, lv.take(j as int), m),
                ),
            decreases links@.len() - j,
        {
            let link = &links[j];
            proof {
                assert(lv.take(j + 1).drop_last() =~= lv.take(j as int));
                assert(lv.take(j + 1).last() == link_view(*link));
            }
            if link.is_internal {
                // Normalize the target path
                let normalized = normalize_target(link.target.as_str(), path.as_str());
                // Try to find the target node
                let target_id = match node_by_path.get(normalized.as_str()) {
                    Some(t) => Some(t.clone()),
                    None => {
                        let normalized_md = with_md(normalized.as_str());
                        match node_by_path.get(normalized_md.as_str()) {
                            Some(t) => Some(t.clone()),
                            None => None,
                        }
                    },
                };
                if let Some(target_id) = target_id {
                    // Avoid self-links
                    if !same_text(target_id.as_str(), source_id.as_str()) {
                        // Infer edge type from context
                        let edge_type = infer_edge_type_from_context(
                            link.text.as_str(),
                            link.target.as_str(),
                        );
                        let edge = Edge::new(source_id.clone(), target_id, edge_type);
                        let ghost before = graph.edges@;
                        proof {
                            lemma_added_edges_push(
                                before,
                                e0.len() as int,
                                link_edges(source_id@, path@, lv.take(j as int), m),
                                edge,
                            );
                        }
                        graph.add_edge(edge);
                        assert(graph.edges@.take(e0.len() as int) =~= e0);
                    }
                }
            }
            j = j + 1;
        }
        assert(lv.take(links@.len() as int) =~= lv);
    }

    /// Extract edges from frontmatter and inline links.
    pub fn extract_edges(
        chapters: &Vec<ChapterInput>,
        graph: &mut DocGraph,
        node_by_path: &PathIndex,
        warnings: &mut Vec<String>,
    )
        ensures
            final(graph).nodes@ == old(graph).nodes@,
            final(graph).statistics == old(graph).statistics,
            final(graph).version == old(graph).version,
            final(graph).edges@.take(old(graph).edges@.len() as int) == old(graph).edges@,
            added_edges(
                final(graph).edges@,
                old(graph).edges@.len() as int,
                edges_of_chapters(chapters@, node_by_path.view(), old(graph).nodes@),
            ),
            final(warnings).deep_view() == old(warnings).deep_view() + edge_warnings(
                chapters@,
                node_by_path.view(),
                old(graph).nodes@,
            ),
    {
        let ghost m = node_by_path.view();
        let ghost nodes = graph.nodes@;
        let ghost e0 = graph.edges@;
        let ghost w0 = warnings.deep_view();
        let mut i: usize = 0;
        assert(chapters@.take(0) =~= Seq::<ChapterInput>::empty());
        assert(e0.skip(e0.len() as int) =~= Seq::<Edge>::empty());
        assert(e0.skip(e0.len() as int).map_values(|e: Edge| edge_view(e)) =~= edges_of_chapters(
            chapters@.take(0),
            m,
            nodes,
        ));
        assert(w0 + edge_warnings(chapters@.take(0), m, nodes) =~= w0);
        while i < chapters.len()
            invariant
                i <= chapters@.len(),
                m == node_by_path.view(),
                nodes == old(graph).nodes@,
                graph.nodes@ == nodes,
                graph.statistics == old(graph).statistics,
                graph.version == old(graph).version,
                e0 == old(graph).edges@,
                w0 == old(warnings).deep_view(),
                graph.edges@.take(e0.len() as int) == e0,
                added_edges(
                    graph.edges@,
                    e0.len() as int,
                    edges_of_chapters(chapters@.take(i as int), m, nodes),
                ),
                warnings.deep_view() == w0 + edge_warnings(chapters@.take(i as int), m, nodes),
            decreases chapters@.len() - i,
        {
            let ch = &chapters[i];
            let ghost pre = chapters@.take(i as int);
            let ghost nxt = chapters@.take(i + 1);
            proof {
                assert(nxt.drop_last() =~= pre);
                assert(nxt.last() == chapters@[i as int]);
            }
            let ghost ebefore = graph.edges@;
            let ghost wbefore = warnings.deep_view();
            if let Some(path) = &ch.path {
                if let Some(source) = node_by_path.get(path.as_str()) {
                    let source_id = source.clone();
                    // Extract edges from frontmatter
                    if let Ok(Some(fm)) = &ch.frontmatter {
                        Self::add_related_edges(
                            path,
                            &source_id,
                            &fm.related,
                            node_by_path,
                            graph,
                            warnings,
                        );
                    } else {
                        assert(wbefore + chapter_edge_warnings(chapters@[i as int], m, nodes)
                            =~= wbefore);
                    }
                    let ghost emid = graph.edges@;
                    let ghost first = frontmatter_edges(chapters@[i as int], source_id@, m, nodes);
                    proof {
                        if !(ch.frontmatter matches Ok(Some(_))) {
                            assert(edges_of_chapters(pre, m, nodes) + first =~= edges_of_chapters(
                                pre,
                                m,
                                nodes,
                            ));
                        }
                    }
                    // Extract edges from inline links
                    Self::add_link_edges(path, &source_id, &ch.content, node_by_path, graph);
                    proof {
                        let second = link_edges(
                            source_id@,
                            path@,
                            links_of(without_frontmatter(ch.content@)),
                            m,
                        );
                        assert(added_edges(emid, e0.len() as int, edges_of_chapters(pre, m, nodes) + first));
                        lemma_added_edges_concat(
                            emid,
                            graph.edges@,
                            emid.len() as int,
                            first,
                            second,
                            e0.len() as int,
                            edges_of_chapters(pre, m, nodes) + first,
                        );
                        assert(chapter_edges(chapters@[i as int], m, nodes) == first + second);
                        assert(edges_of_chapters(pre, m, nodes) + first + second
                            =~= edges_of_chapters(nxt, m, nodes));
                        assert(emid.take(e0.len() as int) == e0);
                        assert(graph.edges@.take(emid.len() as int) == emid);
                        assert(graph.edges@.take(e0.len() as int) =~= emid.take(e0.len() as int));
                        assert(wbefore + chapter_edge_warnings(chapters@[i as int], m, nodes)
                            == warnings.deep_view());
                        assert(w0 + edge_warnings(nxt, m, nodes) =~= warnings.deep_view());
                    }
                } else {
                    proof {
                        assert(edges_of_chapters(nxt, m, nodes) =~= edges_of_chapters(pre, m, nodes));
                        assert(edge_warnings(nxt, m, nodes) =~= edge_warnings(pre, m, nodes));
                    }
                }
            } else {
                proof {
                    assert(edges_of_chapters(nxt, m, nodes) =~= edges_of_chapters(pre, m, nodes));
                    assert(edge_warnings(nxt, m, nodes) =~= edge_warnings(pre, m, nodes));
                }
            }
            i = i + 1;
        }
        assert(chapters@.take(chapters@.len() as int) =~= chapters@);
    }
}


// ---------------------------------------------------------------------------
// Inverse edges
// ---------------------------------------------------------------------------

/// For each edge whose type has an inverse in the configuration, in order:
/// the reversed endpoints and the inverse type's name.
pub open spec fn inverse_specs(c: Config, edges: Seq<Edge>) -> Seq<(Seq<char>, Seq<char>, Seq<char>)>
    decreases edges.len(),
{
    if edges.len() == 0 {
        seq![]
    } else {
        let r = inverse_specs(c, edges.drop_last());
        let e = edges.last();
        match inverse_of(c, edge_type_name(e.edge_type)) {
            Some(inv) => r.push((e.target@, e.source@, inv)),
            None => r,
        }
    }
}

/// `e` is the auto-generated inverse edge described by `x`: from `x.0` to
/// `x.1`, of the type that `x.2` names (ignoring case), without a note,
/// marked as generated and stamped.
pub open spec fn is_inverse_edge(e: Edge, x: (Seq<char>, Seq<char>, Seq<char>)) -> bool {
    &&& e.source@ == x.0
    &&& e.target@ == x.1
    &&& denotes_edge_type(e.edge_type, lowercase(x.2))
    &&& e.metadata.note is None
    &&& e.metadata.auto
    &&& e.metadata.generated_at is Some
}

/// The edges `edges` are the edges `base` followed by their inverse edges.
pub open spec fn with_inverse_edges(c: Config, base: Seq<Edge>, edges: Seq<Edge>) -> bool {
    let inv = inverse_specs(c, base);
    &&& edges.len() == base.len() + inv.len()
    &&& edges.take(base.len() as int) == base
    &&& forall|i: int|
        0 <= i < inv.len() ==> is_inverse_edge(#[trigger] edges[base.len() + i], inv[i])
}

impl DocGraphPreprocessor {
    /// Generate inverse edges based on configuration: for each edge whose
    /// type has a configured inverse, an auto-generated edge the other way.
    pub fn generate_inverse_edges(config: &Config, graph: &mut DocGraph)
        ensures
            final(graph).nodes@ == old(graph).nodes@,
            final(graph).statistics == old(graph).statistics,
            final(graph).version == old(graph).version,
            with_inverse_edges(*config, old(graph).edges@, final(graph).edges@),
    {
        let ghost e0 = graph.edges@;
        let n = graph.edges.len();
        let mut k: usize = 0;
        assert(e0.take(0) =~= Seq::<Edge>::empty());
        assert(graph.edges@.take(n as int) =~= e0);
        // The inverse of each original edge is appended after all of them.
        while k < n
            invariant
                k <= n == e0.len(),
                graph.edges@.take(n as int) == e0,
                graph.edges@.len() == n + inverse_specs(*config, e0.take(k as int)).len(),
                forall|i: int|
                    0 <= i < inverse_specs(*config, e0.take(k as int)).len() ==> is_inverse_edge(
                        #[trigger] graph.edges@[n + i],
                        inverse_specs(*config, e0.take(k as int))[i],
                    ),
                graph.nodes@ == old(graph).nodes@,
                graph.statistics == old(graph).statistics,
                graph.version == old(graph).version,
                e0 == old(graph).edges@,
            decreases n - k,
        {
            proof {
                assert(e0.take(k + 1).drop_last() =~= e0.take(k as int));
                assert(e0.take(k + 1).last() == e0[k as int]);
                assert(graph.edges@[k as int] == e0[k as int]) by {
                    assert(graph.edges@.take(n as int)[k as int] == graph.edges@[k as int]);
                }
            }
            let kind_name = graph.edges[k].edge_type.to_string();
            if let Some(inverse_type) = config.get_inverse_edge_type(kind_name.as_str()) {
                let inv = Edge::new(
                    graph.edges[k].target.clone(),
                    graph.edges[k].source.clone(),
                    EdgeType::from(inverse_type),
                ).as_auto_generated();
                let ghost before = graph.edges@;
                graph.add_edge(inv);
                proof {
                    assert(graph.edges@.take(n as int) =~= before.take(n as int));
                    let pre = inverse_specs(*config, e0.take(k as int));
                    let post = inverse_specs(*config, e0.take(k + 1));
                    assert forall|i: int| 0 <= i < post.len() implies is_inverse_edge(
                        #[trigger] graph.edges@[n + i],
                        post[i],
                    ) by {
                        if i < pre.len() {
                            assert(graph.edges@[n + i] == before[n + i]);
                        }
                    }
                }
            }
            k = k + 1;
        }
        assert(e0.take(n as int) =~= e0);
    }
}


// ---------------------------------------------------------------------------
// The whole graph
// ---------------------------------------------------------------------------

/// `g` and `warnings` are what building the graph of the chapters `chs`
/// with the configuration `c` gives: the nodes of the chapters; the edges
/// of their references and links; then, if enabled, the inverse edges; then,
/// if enabled, the statistics; and the warnings of both passes.
pub open spec fn built_graph(
    chs: Seq<ChapterInput>,
    c: Config,
    g: DocGraph,
    warnings: Seq<Seq<char>>,
) -> bool {
    let nodes = g.nodes@;
    let m = insert_pairs(seq![], node_pairs(nodes));
    let plain = edges_of_chapters(chs, m, nodes);
    let base = g.edges@.take(plain.len() as int);
    &&& g.version@ == "1.0"@
    &&& nodes_of_chapters(chs, nodes)
    &&& plain.len() <= g.edges@.len()
    &&& added_edges(base, 0, plain)
    &&& if c.inverse_edges.enabled {
        with_inverse_edges(c, base, g.edges@)
    } else {
        g.edges@ == base
    }
    &&& if c.stats.enabled {
        g.statistics matches Some(s) && statistics_of(nodes, g.edges@, s)
    } else {
        g.statistics is None
    }
    &&& warnings == node_warnings(chs) + edge_warnings(chs, m, nodes)
}

impl DocGraphPreprocessor {
    /// Build the graph of a book's chapters, with the warnings to report.
    pub fn build_graph(&self, chapters: &Vec<ChapterInput>, config: &Config) -> (r: (
        DocGraph,
        Vec<String>,
    ))
        ensures
            built_graph(chapters@, *config, r.0, r.1.deep_view()),
    {
        // Build the graph
        let mut graph = DocGraph::new();
        let mut node_by_path = PathIndex::new();
        let mut warnings: Vec<String> = Vec::new();

        // First pass: Extract all nodes from chapters
        Self::extract_nodes(chapters, &mut graph, &mut node_by_path, &mut warnings);
        let ghost nodes = graph.nodes@;
        proof {
            assert(nodes.skip(0) =~= nodes);
            assert(Seq::<Seq<char>>::empty() + node_warnings(chapters@) =~= node_warnings(
                chapters@,
            ));
        }

        // Second pass: Extract edges from frontmatter and inline links
        Self::extract_edges(chapters, &mut graph, &node_by_path, &mut warnings);
        let ghost m = node_by_path.view();
        let ghost base = graph.edges@;
        proof {
            let plain = edges_of_chapters(chapters@, m, nodes);
            assert(base.take(plain.len() as int) =~= base) by {
                assert(base.skip(0) =~= base);
            }
        }

        // Generate inverse edges
        if config.inverse_edges.enabled {
            Self::generate_inverse_edges(config, &mut graph);
        }

        // Compute statistics
        if config.stats.enabled {
            let stats = graph.compute_statistics();
            graph.statistics = Some(stats);
        }
        proof {
            let plain = edges_of_chapters(chapters@, m, nodes);
            if config.inverse_edges.enabled {
                assert(graph.edges@.take(plain.len() as int) == base);
            } else {
                assert(graph.edges@.take(plain.len() as int) =~= base);
            }
            assert(graph.version@ == "1.0"@);
            assert(nodes_of_chapters(chapters@, graph.nodes@));
            assert(m == insert_pairs(seq![], node_pairs(nodes)));
            assert(added_edges(base, 0, plain));
            assert(warnings.deep_view() == node_warnings(chapters@) + edge_warnings(chapters@, m, nodes));
        }
        (graph, warnings)
    }
}


// ---------------------------------------------------------------------------
// Mermaid diagram
// ---------------------------------------------------------------------------

/// The node types of the nodes, each once, in order of first occurrence.
pub open spec fn type_order(nodes: Seq<Node>) -> Seq<NodeType>
    decreases nodes.len(),
{
    if nodes.len() == 0 {
        seq![]
    } else {
        let r = type_order(nodes.drop_last());
        if r.contains(nodes.last().node_type) {
            r
        } else {
            r.push(nodes.last().node_type)
        }
    }
}

/// The uppercase name of a node type (its name is ASCII).
pub open spec fn upper_type_name(t: NodeType) -> Seq<char> {
    match t {
        NodeType::Adr => "ADR"@,
        NodeType::Doc => "DOC"@,
        NodeType::Blog => "BLOG"@,
        NodeType::Note => "NOTE"@,
        NodeType::Unknown => "UNKNOWN"@,
    }
}

/// `-` replaced by `_` (Mermaid node identifiers).
pub open spec fn mermaid_id(s: Seq<char>) -> Seq<char> {
    s.map_values(|c: char| if c == '-' { '_' } else { c })
}

/// `_` replaced by a space (edge labels).
pub open spec fn mermaid_edge_label(s: Seq<char>) -> Seq<char> {
    s.map_values(|c: char| if c == '_' { ' ' } else { c })
}

/// A label made safe for Mermaid: `"` replaced by `'`, `[` and `]` removed.
pub open spec fn sanitize_label(s: Seq<char>) -> Seq<char>
    decreases s.len(),
{
    if s.len() == 0 {
        seq![]
    } else {
        let r = sanitize_label(s.drop_last());
        let c = s.last();
        if c == '[' || c == ']' {
            r
        } else if c == '"' {
            r.push('\'')
        } else {
            r.push(c)
        }
    }
}

/// The label of a node: its title, else its ID.
pub open spec fn node_label(n: Node) -> Seq<char> {
    match n.metadata.title {
        Some(t) => t@,
        None => n.id@,
    }
}

/// The line declaring a node.
pub open spec fn node_line(n: Node) -> Seq<char> {
    "        "@ + mermaid_id(n.id@) + "[\""@ + sanitize_label(node_label(n)) + "\"]\n"@
}

/// The lines declaring the nodes of type `t`, in order.
pub open spec fn group_lines(nodes: Seq<Node>, t: NodeType) -> Seq<char>
    decreases nodes.len(),
{
    if nodes.len() == 0 {
        seq![]
    } else {
        let r = group_lines(nodes.drop_last(), t);
        if nodes.last().node_type == t {
            r + node_line(nodes.last())
        } else {
            r
        }
    }
}

/// The subgraph of the nodes of type `t`.
pub open spec fn subgraph(nodes: Seq<Node>, t: NodeType) -> Seq<char> {
    "    subgraph "@ + upper_type_name(t) + "\n"@ + group_lines(nodes, t) + "    end\n"@
}

/// The subgraphs of the given types, in order.
pub open spec fn subgraphs(nodes: Seq<Node>, order: Seq<NodeType>) -> Seq<char>
    decreases order.len(),
{
    if order.len() == 0 {
        seq![]
    } else {
        subgraphs(nodes, order.drop_last()) + subgraph(nodes, order.last())
    }
}

/// The line of an edge.
pub open spec fn edge_line(e: Edge) -> Seq<char> {
    "    "@ + mermaid_id(e.source@) + " -->|"@ + mermaid_edge_label(edge_type_name(e.edge_type))
        + "| "@ + mermaid_id(e.target@) + "\n"@
}

/// The lines of the edges, in order.
pub open spec fn edge_lines(edges: Seq<Edge>) -> Seq<char>
    decreases edges.len(),
{
    if edges.len() == 0 {
        seq![]
    } else {
        edge_lines(edges.drop_last()) + edge_line(edges.last())
    }
}

/// The Mermaid diagram of a graph: a subgraph per node type (in order of
/// first occurrence) listing its nodes, then a line per edge.
pub open spec fn mermaid_of(nodes: Seq<Node>, edges: Seq<Edge>) -> Seq<char> {
    "graph LR\n"@ + subgraphs(nodes, type_order(nodes)) + edge_lines(edges)
}

/// Appends `s` with `from` replaced by `to`.
fn push_replaced(out: &mut String, s: &str, from: char, to: char)
    ensures
        final(out)@ == old(out)@ + s@.map_values(|c: char| if c == from { to } else { c }),
{
    let v = chars_of(s);
    let mut i: usize = 0;
    while i < v.len()
        invariant
            i <= v@.len(),
            v@ == s@,
            out@ == old(out)@ + v@.take(i as int).map_values(
                |c: char| if c == from { to } else { c },
            ),
        decreases v@.len() - i,
    {
        let c = v[i];
        let d = if c == from {
            to
        } else {
            c
        };
        push_char(out, d);
        i = i + 1;
        assert(v@.take(i as int).map_values(|c: char| if c == from { to } else { c })
            =~= v@.take(i - 1).map_values(|c: char| if c == from { to } else { c }).push(d));
    }
    assert(v@.take(v@.len() as int) =~= v@);
}

/// Appends the sanitised label.
fn push_sanitized(out: &mut String, s: &str)
    ensures
        final(out)@ == old(out)@ + sanitize_label(s@),
{
    let v = chars_of(s);
    let mut i: usize = 0;
    assert(v@.take(0) =~= Seq::<char>::empty());
    while i < v.len()
        invariant
            i <= v@.len(),
            v@ == s@,
            out@ == old(out)@ + sanitize_label(v@.take(i as int)),
        decreases v@.len() - i,
    {
        let c = v[i];
        proof {
            assert(v@.take(i + 1).drop_last() =~= v@.take(i as int));
            assert(v@.take(i + 1).last() == c);
        }
        if c == '[' || c == ']' {
        } else if c == '"' {
            push_char(out, '\'');
        } else {
            push_char(out, c);
        }
        i = i + 1;
    }
    assert(v@.take(v@.len() as int) =~= v@);
}

impl NodeType {
    /// The uppercase name of this node type.
    pub fn upper_name(&self) -> (r: String)
        ensures
            r@ == upper_type_name(*self),
    {
        match self {
            NodeType::Adr => String::from_str("ADR"),
            NodeType::Doc => String::from_str("DOC"),
            NodeType::Blog => String::from_str("BLOG"),
            NodeType::Note => String::from_str("NOTE"),
            NodeType::Unknown => String::from_str("UNKNOWN"),
        }
    }
}

impl DocGraphPreprocessor {
    /// The Mermaid diagram of a graph, grouping the nodes by type.
    pub fn render_mermaid(graph: &DocGraph) -> (r: String)
        ensures
            r@ == mermaid_of(graph.nodes@, graph.edges@),
    {
        let ghost nodes = graph.nodes@;
        let ghost edges = graph.edges@;
        let mut mermaid = String::from_str("graph LR\n");

        // Node types in order of first occurrence
        let mut order: Vec<NodeType> = Vec::new();
        let mut k: usize = 0;
        assert(nodes.take(0) =~= Seq::<Node>::empty());
        while k < graph.nodes.len()
            invariant
                k <= nodes.len(),
                nodes == graph.nodes@,
                order@ == type_order(nodes.take(k as int)),
            decreases nodes.len() - k,
        {
            let t = graph.nodes[k].node_type;
            proof {
                assert(nodes.take(k + 1).drop_last() =~= nodes.take(k as int));
                assert(nodes.take(k + 1).last() == nodes[k as int]);
            }
            let mut seen = false;
            let mut q: usize = 0;
            while q < order.len()
                invariant
                    q <= order@.len(),
                    seen == (exists|x: int| 0 <= x < q && order@[x] == t),
                decreases order@.len() - q,
            {
                if order[q] == t {
                    seen = true;
                }
                q = q + 1;
            }
            proof {
                if seen {
                    let x = choose|x: int| 0 <= x < q && order@[x] == t;
                    assert(order@.contains(t));
                } else {
                    assert(!order@.contains(t));
                }
            }
            if !seen {
                order.push(t);
            }
            k = k + 1;
        }
        assert(nodes.take(nodes.len() as int) =~= nodes);

        // Write subgraphs
        let mut g: usize = 0;
        assert(order@.take(0) =~= Seq::<NodeType>::empty());
        while g < order.len()
            invariant
                g <= order@.len(),
                nodes == graph.nodes@,
                order@ == type_order(nodes),
                mermaid@ == "graph LR\n"@ + subgraphs(nodes, order@.take(g as int)),
            decreases order@.len() - g,
        {
            let t = order[g];
            proof {
                assert(order@.take(g + 1).drop_last() =~= order@.take(g as int));
                assert(order@.take(g + 1).last() == t);
            }
            let ghost start = mermaid@;
            push_str(&mut mermaid, "    subgraph ");
            let upper = t.upper_name();
            push_str(&mut mermaid, upper.as_str());
            push_str(&mut mermaid, "\n");
            let ghost head = mermaid@;
            let mut k: usize = 0;
            assert(nodes.take(0) =~= Seq::<Node>::empty());
            while k < graph.nodes.len()
                invariant
                    k <= nodes.len(),
                    nodes == graph.nodes@,
                    mermaid@ == head + group_lines(nodes.take(k as int), t),
                decreases nodes.len() - k,
            {
                let node = &graph.nodes[k];
                proof {
                    assert(nodes.take(k + 1).drop_last() =~= nodes.take(k as int));
                    assert(nodes.take(k + 1).last() == nodes[k as int]);
                }
                if node.node_type == t {
                    let ghost before = mermaid@;
                    push_str(&mut mermaid, "        ");
                    push_replaced(&mut mermaid, node.id.as_str(), '-', '_');
                    push_str(&mut mermaid, "[\"");
                    match &node.metadata.title {
                        Some(title) => push_sanitized(&mut mermaid, title.as_str()),
                        None => push_sanitized(&mut mermaid, node.id.as_str()),
                    }
                    push_str(&mut mermaid, "\"]\n");
                    assert(mermaid@ =~= before + node_line(*node));
                }
                k = k + 1;
            }
            assert(nodes.take(nodes.len() as int) =~= nodes);
            push_str(&mut mermaid, "    end\n");
            assert(mermaid@ =~= start + subgraph(nodes, t));
            g = g + 1;
        }
        assert(order@.take(order@.len() as int) =~= order@);

        // Write edges
        let ghost mid = mermaid@;
        let mut k: usize = 0;
        assert(edges.take(0) =~= Seq::<Edge>::empty());
        while k < graph.edges.len()
            invariant
                k <= edges.len(),
                edges == graph.edges@,
                mermaid@ == mid + edge_lines(edges.take(k as int)),
            decreases edges.len() - k,
        {
            let edge = &graph.edges[k];
            proof {
                assert(edges.take(k + 1).drop_last() =~= edges.take(k as int));
                assert(edges.take(k + 1).last() == edges[k as int]);
            }
            let ghost before = mermaid@;
            push_str(&mut mermaid, "    ");
            push_replaced(&mut mermaid, edge.source.as_str(), '-', '_');
            push_str(&mut mermaid, " -->|");
            let label = edge.edge_type.to_string();
            push_replaced(&mut mermaid, label.as_str(), '_', ' ');
            push_str(&mut mermaid, "| ");
            push_replaced(&mut mermaid, edge.target.as_str(), '-', '_');
            push_str(&mut mermaid, "\n");
            assert(mermaid@ =~= before + edge_line(*edge));
            k = k + 1;
        }
        assert(edges.take(edges.len() as int) =~= edges);
        mermaid
    }
}


// ---------------------------------------------------------------------------
// Every edge connects two nodes
// ---------------------------------------------------------------------------

/// Some node has the ID `id`.
pub open spec fn is_node_id(nodes: Seq<Node>, id: Seq<char>) -> bool {
    exists|i: int| 0 <= i < nodes.len() && nodes[i].id@ == id
}

/// Every ID recorded in the index is the ID of a node.
pub open spec fn index_ids_are_nodes(m: Seq<(Seq<char>, Seq<char>)>, nodes: Seq<Node>) -> bool {
    forall|k: int| 0 <= k < m.len() ==> is_node_id(nodes, #[trigger] m[k].1)
}

/// Both ends of every described edge are node IDs.
pub open spec fn ends_are_nodes(
    xs: Seq<(Seq<char>, Seq<char>, EdgeType, Option<String>)>,
    nodes: Seq<Node>,
) -> bool {
    forall|k: int|
        0 <= k < xs.len() ==> is_node_id(nodes, (#[trigger] xs[k]).0) && is_node_id(nodes, xs[k].1)
}

proof fn lemma_path_position(m: Seq<(Seq<char>, Seq<char>)>, path: Seq<char>, i: int)
    requires
        0 <= i,
    ensures
        path_position(m, path, i) matches Some(k) ==> i <= k < m.len() && m[k].0 == path,
    decreases m.len() - i,
{
    if i < m.len() && m[i].0 != path {
        lemma_path_position(m, path, i + 1);
    }
}

proof fn lemma_lookup_is_node(m: Seq<(Seq<char>, Seq<char>)>, path: Seq<char>, nodes: Seq<Node>)
    requires
        index_ids_are_nodes(m, nodes),
    ensures
        path_lookup(m, path) matches Some(id) ==> is_node_id(nodes, id),
{
    lemma_path_position(m, path, 0);
    if let Some(k) = path_position(m, path, 0) {
        assert(is_node_id(nodes, m[k].1));
    }
}

proof fn lemma_insert_pairs_ids(pairs: Seq<(Seq<char>, Seq<char>)>, nodes: Seq<Node>)
    requires
        forall|j: int| 0 <= j < pairs.len() ==> is_node_id(nodes, #[trigger] pairs[j].1),
    ensures
        index_ids_are_nodes(insert_pairs(seq![], pairs), nodes),
    decreases pairs.len(),
{
    if pairs.len() > 0 {
        let pre = pairs.drop_last();
        assert forall|j: int| 0 <= j < pre.len() implies is_node_id(nodes, #[trigger] pre[j].1) by {
            assert(pre[j] == pairs[j]);
        }
        lemma_insert_pairs_ids(pre, nodes);
        let m = insert_pairs(seq![], pre);
        let (p, id) = pairs.last();
        assert(is_node_id(nodes, pairs[pairs.len() - 1].1));
        lemma_path_position(m, p, 0);
        let r = path_insert(m, p, id);
        assert forall|k: int| 0 <= k < r.len() implies is_node_id(nodes, #[trigger] r[k].1) by {
            match path_position(m, p, 0) {
                Some(q) => {
                    if k != q {
                        assert(r[k] == m[k]);
                    }
                },
                None => {
                    if k < m.len() {
                        assert(r[k] == m[k]);
                    }
                },
            }
        }
    }
}

proof fn lemma_suffix_match_is_node(
    m: Seq<(Seq<char>, Seq<char>)>,
    target: Seq<char>,
    i: int,
    nodes: Seq<Node>,
)
    requires
        index_ids_are_nodes(m, nodes),
        0 <= i,
    ensures
        suffix_match(m, target, i) matches Some(id) ==> is_node_id(nodes, id),
    decreases m.len() - i,
{
    if i < m.len() {
        if target.is_suffix_of(m[i].0) || (target + ".md"@).is_suffix_of(m[i].0) {
            assert(is_node_id(nodes, m[i].1));
        } else {
            lemma_suffix_match_is_node(m, target, i + 1, nodes);
        }
    }
}

proof fn lemma_first_with_id(nodes: Seq<Node>, id: Seq<char>, i: int)
    requires
        0 <= i,
    ensures
        first_with_id(nodes, id, i) matches Some(k) ==> 0 <= k < nodes.len() && nodes[k].id@ == id,
    decreases nodes.len() - i,
{
    if i < nodes.len() && nodes[i].id@ != id {
        lemma_first_with_id(nodes, id, i + 1);
    }
}

proof fn lemma_first_with_uuid(nodes: Seq<Node>, uuid: Seq<char>, i: int)
    requires
        0 <= i,
    ensures
        first_with_uuid(nodes, uuid, i) matches Some(k) ==> 0 <= k < nodes.len(),
    decreases nodes.len() - i,
{
    if i < nodes.len() && !has_uuid(nodes[i], uuid) {
        lemma_first_with_uuid(nodes, uuid, i + 1);
    }
}

proof fn lemma_resolved_is_node(target: Seq<char>, m: Seq<(Seq<char>, Seq<char>)>, nodes: Seq<Node>)
    requires
        index_ids_are_nodes(m, nodes),
    ensures
        resolved_target(target, m, nodes) matches Some(id) ==> is_node_id(nodes, id),
{
    lemma_first_with_id(nodes, target, 0);
    lemma_first_with_uuid(nodes, target, 0);
    lemma_lookup_is_node(m, target, nodes);
    lemma_lookup_is_node(m, target + ".md"@, nodes);
    lemma_suffix_match_is_node(m, target, 0, nodes);
    if let Some(k) = first_with_id(nodes, target, 0) {
        assert(nodes[k].id@ == target);
    } else if let Some(k) = first_with_uuid(nodes, target, 0) {
        assert(is_node_id(nodes, nodes[k].id@));
    }
}

proof fn lemma_related_edges_nodes(
    src: Seq<char>,
    rel: Seq<RelatedRef>,
    m: Seq<(Seq<char>, Seq<char>)>,
    nodes: Seq<Node>,
)
    requires
        index_ids_are_nodes(m, nodes),
        is_node_id(nodes, src),
    ensures
        ends_are_nodes(related_edges(src, rel, m, nodes), nodes),
    decreases rel.len(),
{
    if rel.len() > 0 {
        lemma_related_edges_nodes(src, rel.drop_last(), m, nodes);
        lemma_resolved_is_node(rel.last().target@, m, nodes);
        let r = related_edges(src, rel.drop_last(), m, nodes);
        let out = related_edges(src, rel, m, nodes);
        assert forall|k: int| 0 <= k < out.len() implies is_node_id(nodes, (#[trigger] out[k]).0)
            && is_node_id(nodes, out[k].1) by {
            if k < r.len() {
                assert(out[k] == r[k]);
            }
        }
    }
}

proof fn lemma_link_edges_nodes(
    src: Seq<char>,
    p: Seq<char>,
    links: Seq<(Seq<char>, Seq<char>, bool, int, int)>,
    m: Seq<(Seq<char>, Seq<char>)>,
    nodes: Seq<Node>,
)
    requires
        index_ids_are_nodes(m, nodes),
        is_node_id(nodes, src),
    ensures
        ends_are_nodes(link_edges(src, p, links, m), nodes),
    decreases links.len(),
{
    if links.len() > 0 {
        lemma_link_edges_nodes(src, p, links.drop_last(), m, nodes);
        let l = links.last();
        let norm = normalized_target(l.1, p);
        lemma_lookup_is_node(m, norm, nodes);
        lemma_lookup_is_node(m, norm + ".md"@, nodes);
        let r = link_edges(src, p, links.drop_last(), m);
        let out = link_edges(src, p, links, m);
        assert forall|k: int| 0 <= k < out.len() implies is_node_id(nodes, (#[trigger] out[k]).0)
            && is_node_id(nodes, out[k].1) by {
            if k < r.len() {
                assert(out[k] == r[k]);
            }
        }
    }
}

proof fn lemma_chapter_edges_nodes(
    chs: Seq<ChapterInput>,
    m: Seq<(Seq<char>, Seq<char>)>,
    nodes: Seq<Node>,
)
    requires
        index_ids_are_nodes(m, nodes),
    ensures
        ends_are_nodes(edges_of_chapters(chs, m, nodes), nodes),
    decreases chs.len(),
{
    if chs.len() > 0 {
        lemma_chapter_edges_nodes(chs.drop_last(), m, nodes);
        let ch = chs.last();
        let r = edges_of_chapters(chs.drop_last(), m, nodes);
        let here = chapter_edges(ch, m, nodes);
        if let Some(p) = ch.path {
            lemma_lookup_is_node(m, p@, nodes);
            if let Some(src) = path_lookup(m, p@) {
                if let Ok(Some(fm)) = ch.frontmatter {
                    lemma_related_edges_nodes(src, fm.related@, m, nodes);
                } else {
                    assert(frontmatter_edges(ch, src, m, nodes) =~= seq![]);
                }
                let links = links_of(without_frontmatter(ch.content@));
                lemma_link_edges_nodes(src, p@, links, m, nodes);
                let a = frontmatter_edges(ch, src, m, nodes);
                let b = link_edges(src, p@, links, m);
                assert forall|k: int| 0 <= k < here.len() implies is_node_id(
                    nodes,
                    (#[trigger] here[k]).0,
                ) && is_node_id(nodes, here[k].1) by {
                    if k < a.len() {
                        assert(here[k] == a[k]);
                    } else {
                        assert(here[k] == b[k - a.len()]);
                    }
                }
            }
        }
        let out = edges_of_chapters(chs, m, nodes);
        assert forall|k: int| 0 <= k < out.len() implies is_node_id(nodes, (#[trigger] out[k]).0)
            && is_node_id(nodes, out[k].1) by {
            if k < r.len() {
                assert(out[k] == r[k]);
            } else {
                assert(out[k] == here[k - r.len()]);
            }
        }
    }
}

proof fn lemma_inverse_specs_from_edges(c: Config, edges: Seq<Edge>)
    ensures
        forall|i: int|
            0 <= i < inverse_specs(c, edges).len() ==> exists|k: int|
                0 <= k < edges.len() && (#[trigger] inverse_specs(c, edges)[i]).0 == edges[k].target@
                    && inverse_specs(c, edges)[i].1 == edges[k].source@,
    decreases edges.len(),
{
    if edges.len() > 0 {
        let pre = edges.drop_last();
        lemma_inverse_specs_from_edges(c, pre);
        let r = inverse_specs(c, pre);
        let out = inverse_specs(c, edges);
        assert forall|i: int| 0 <= i < out.len() implies exists|k: int|
            0 <= k < edges.len() && (#[trigger] out[i]).0 == edges[k].target@ && out[i].1
                == edges[k].source@ by {
            if i < r.len() {
                assert(out[i] == r[i]);
                let k = choose|k: int|
                    0 <= k < pre.len() && r[i].0 == pre[k].target@ && r[i].1 == pre[k].source@;
                assert(pre[k] == edges[k]);
            } else {
                assert(out[i].0 == edges[edges.len() - 1].target@);
            }
        }
    }
}

/// Every edge of a built graph starts and ends at a node of that graph:
/// frontmatter references and links only produce edges to the nodes they
/// resolve to, and inverse edges reverse such edges.
pub proof fn lemma_built_graph_edges_connect_nodes(
    chs: Seq<ChapterInput>,
    c: Config,
    g: DocGraph,
    warnings: Seq<Seq<char>>,
)
    requires
        built_graph(chs, c, g, warnings),
    ensures
        forall|k: int|
            0 <= k < g.edges@.len() ==> is_node_id(g.nodes@, (#[trigger] g.edges@[k]).source@)
                && is_node_id(g.nodes@, g.edges@[k].target@),
{
    let nodes = g.nodes@;
    let pairs = node_pairs(nodes);
    let m = insert_pairs(seq![], pairs);
    let plain = edges_of_chapters(chs, m, nodes);
    let base = g.edges@.take(plain.len() as int);
    assert forall|j: int| 0 <= j < pairs.len() implies is_node_id(nodes, #[trigger] pairs[j].1) by {
        assert(pairs[j].1 == nodes[j].id@);
    }
    lemma_insert_pairs_ids(pairs, nodes);
    lemma_chapter_edges_nodes(chs, m, nodes);
    let f = |e: Edge| edge_view(e);
    assert(base.skip(0) =~= base);
    assert forall|k: int| 0 <= k < base.len() implies is_node_id(nodes, (#[trigger] base[k]).source@)
        && is_node_id(nodes, base[k].target@) by {
        assert(base.map_values(f)[k] == plain[k]);
    }
    if c.inverse_edges.enabled {
        lemma_inverse_specs_from_edges(c, base);
        let inv = inverse_specs(c, base);
        assert forall|k: int| 0 <= k < g.edges@.len() implies is_node_id(
            nodes,
            (#[trigger] g.edges@[k]).source@,
        ) && is_node_id(nodes, g.edges@[k].target@) by {
            if k < base.len() {
                assert(g.edges@[k] == base[k]);
            } else {
                let i = k - base.len();
                assert(is_inverse_edge(g.edges@[base.len() + i], inv[i]));
                let q = choose|q: int|
                    0 <= q < base.len() && inv[i].0 == base[q].target@ && inv[i].1
                        == base[q].source@;
                assert(is_node_id(nodes, base[q].source@));
            }
        }
    } else {
        assert forall|k: int| 0 <= k < g.edges@.len() implies is_node_id(
            nodes,
            (#[trigger] g.edges@[k]).source@,
        ) && is_node_id(nodes, g.edges@[k].target@) by {
            assert(g.edges@[k] == base[k]);
        }
    }
}

} // verus!
