//! Inline link and reference scanning from markdown content.
//!
//! Two link syntaxes are recognised, scanned left to right without overlap:
//! markdown links `[text](target)` (a `[`, any text without `]`, `](`, a
//! non-empty target without `)`, and `)`), and wiki links `[[target]]` or
//! `[[target|text]]` (a non-empty target without `]` or `|`, an optional `|`
//! followed by a non-empty text without `]`, and `]]`).

use vstd::prelude::*;
use crate::graph::EdgeType;
use crate::text::{
    byte_offset, byte_offsets, chars_of, contains, decimal_digit, find_char, find_char_from,
    is_decimal_digit, lemma_find_char, lowercase, occurs_at, push_char, skip_char,
    skip_char_from, starts_with, string_of, string_of_range, text_contains, to_lowercase,
    push_str, lemma_byte_offset_increases, all_ascii, ascii_lowercase,
};

verus! {

broadcast use vstd::string::group_string_axioms;

/// A discovered link from markdown content.
#[derive(Debug, PartialEq)]
pub struct InlineLink {
    /// The link text (what the user sees)
    pub text: String,
    /// The link target (URL or path)
    pub target: String,
    /// Whether this is an internal link (relative path)
    pub is_internal: bool,
    /// Position in the content: byte offsets of the start and of the end
    pub position: (usize, usize),
}

impl Clone for InlineLink {
    fn clone(&self) -> (r: Self)
        ensures
            link_view(r) == link_view(*self),
    {
        InlineLink {
            text: self.text.clone(),
            target: self.target.clone(),
            is_internal: self.is_internal,
            position: (self.position.0, self.position.1),
        }
    }
}

/// What a link holds: its text, its target, whether it is internal, and the
/// byte offsets of its start and end.
pub open spec fn link_view(l: InlineLink) -> (Seq<char>, Seq<char>, bool, int, int) {
    (l.text@, l.target@, l.is_internal, l.position.0 as int, l.position.1 as int)
}

// ---------------------------------------------------------------------------
// Internal links
// ---------------------------------------------------------------------------

/// A link target is internal unless it has a URL scheme (`://`) or is a
/// `mailto:` or `tel:` address.
pub open spec fn is_internal_target(t: Seq<char>) -> bool {
    !contains(t, "://"@) && !"mailto:"@.is_prefix_of(t) && !"tel:"@.is_prefix_of(t)
}

/// Check if a link target is internal (not an external URL).
pub fn is_internal_link(target: &str) -> (r: bool)
    ensures
        r == is_internal_target(target@),
{
    // External URLs have a scheme
    if text_contains(target, "://") {
        return false;
    }
    // mailto: and tel: are external
    if starts_with(target, "mailto:") || starts_with(target, "tel:") {
        return false;
    }
    // Everything else, anchors included, is internal
    true
}

// ---------------------------------------------------------------------------
// Markdown links: [text](target)
// ---------------------------------------------------------------------------

/// The markdown link that starts at index `i`, if any: the indices of its
/// closing `]` and of its closing `)`.
pub open spec fn md_link_at(s: Seq<char>, i: int) -> Option<(int, int)> {
    if 0 <= i < s.len() && s[i] == '[' {
        match find_char(s, i + 1, ']') {
            Some(j) => if j + 1 < s.len() && s[j + 1] == '(' {
                match find_char(s, j + 2, ')') {
                    Some(k) => if k > j + 2 {
                        Some((j, k))
                    } else {
                        None
                    },
                    None => None,
                }
            } else {
                None
            },
            None => None,
        }
    } else {
        None
    }
}

/// The markdown links found scanning from index `i`: for each, its start,
/// its closing `]` and its closing `)`. After a link the scan resumes just
/// past it.
pub open spec fn md_links_from(s: Seq<char>, i: int) -> Seq<(int, int, int)>
    decreases s.len() - i,
{
    if i < 0 || i >= s.len() {
        seq![]
    } else {
        match md_link_at(s, i) {
            Some((j, k)) => if i < k < s.len() {
                seq![(i, j, k)] + md_links_from(s, k + 1)
            } else {
                seq![]
            },
            None => md_links_from(s, i + 1),
        }
    }
}

/// What the markdown link `(i, j, k)` of `s` yields.
pub open spec fn md_link_view(s: Seq<char>, m: (int, int, int)) -> (
    Seq<char>,
    Seq<char>,
    bool,
    int,
    int,
) {
    let (i, j, k) = m;
    (
        s.subrange(i + 1, j),
        s.subrange(j + 2, k),
        is_internal_target(s.subrange(j + 2, k)),
        byte_offset(s, i),
        byte_offset(s, k + 1),
    )
}

proof fn lemma_md_link_at(s: Seq<char>, i: int)
    ensures
        md_link_at(s, i) matches Some((j, k)) ==> i < j && j + 2 < k < s.len(),
{
    if 0 <= i < s.len() && s[i] == '[' {
        lemma_find_char(s, i + 1, ']');
        if let Some(j) = find_char(s, i + 1, ']') {
            if j + 1 < s.len() && s[j + 1] == '(' {
                lemma_find_char(s, j + 2, ')');
            }
        }
    }
}

/// The markdown link starting at index `i`, if any.
fn md_link_at_exec(s: &Vec<char>, i: usize) -> (r: Option<(usize, usize)>)
    requires
        i < s@.len(),
    ensures
        match r {
            Some((j, k)) => md_link_at(s@, i as int) == Some((j as int, k as int)),
            None => md_link_at(s@, i as int) is None,
        },
{
    let n = s.len();
    proof {
        lemma_md_link_at(s@, i as int);
    }
    if s[i] != '[' {
        return None;
    }
    match find_char_from(s, i + 1, ']') {
        Some(j) => {
            proof {
                lemma_find_char(s@, i + 1, ']');
            }
            if j + 1 < s.len() && s[j + 1] == '(' {
                match find_char_from(s, j + 2, ')') {
                    Some(k) => {
                        if k > j + 2 {
                            Some((j, k))
                        } else {
                            None
                        }
                    },
                    None => None,
                }
            } else {
                None
            }
        },
        None => None,
    }
}

// ---------------------------------------------------------------------------
// Wiki links: [[target]] or [[target|text]]
// ---------------------------------------------------------------------------

/// The first index at or after `i` holding `]` or `|`, if any.
pub open spec fn find_target_end(s: Seq<char>, i: int) -> Option<int>
    decreases s.len() - i,
{
    if i < 0 || i >= s.len() {
        None
    } else if s[i] == ']' || s[i] == '|' {
        Some(i)
    } else {
        find_target_end(s, i + 1)
    }
}

proof fn lemma_find_target_end(s: Seq<char>, i: int)
    requires
        0 <= i,
    ensures
        find_target_end(s, i) matches Some(k) ==> i <= k < s.len() && (s[k] == ']' || s[k]
            == '|'),
    decreases s.len() - i,
{
    if i < s.len() && !(s[i] == ']' || s[i] == '|') {
        lemma_find_target_end(s, i + 1);
    }
}

fn find_target_end_from(s: &Vec<char>, from: usize) -> (r: Option<usize>)
    ensures
        match r {
            Some(k) => find_target_end(s@, from as int) == Some(k as int),
            None => find_target_end(s@, from as int) is None,
        },
{
    let mut i = from;
    while i < s.len()
        invariant
            from <= i,
            find_target_end(s@, from as int) == find_target_end(s@, i as int),
        decreases s@.len() - i,
    {
        if s[i] == ']' || s[i] == '|' {
            return Some(i);
        }
        i = i + 1;
    }
    None
}

/// The wiki link that starts at index `i`, if any: the end of its target,
/// the bounds of its text, and the index just past its closing `]]`.
pub open spec fn wiki_link_at(s: Seq<char>, i: int) -> Option<(int, int, int, int)> {
    if 0 <= i && i + 1 < s.len() && s[i] == '[' && s[i + 1] == '[' {
        match find_target_end(s, i + 2) {
            Some(k) => if k <= i + 2 {
                None
            } else if s[k] == '|' {
                match find_char(s, k + 1, ']') {
                    Some(m) => if m > k + 1 && m + 1 < s.len() && s[m + 1] == ']' {
                        Some((k, k + 1, m, m + 2))
                    } else {
                        None
                    },
                    None => None,
                }
            } else if k + 1 < s.len() && s[k + 1] == ']' {
                Some((k, i + 2, k, k + 2))
            } else {
                None
            },
            None => None,
        }
    } else {
        None
    }
}

/// The wiki links found scanning from index `i`: for each, its start and
/// what `wiki_link_at` gives. After a link the scan resumes just past it.
pub open spec fn wiki_links_from(s: Seq<char>, i: int) -> Seq<(int, int, int, int, int)>
    decreases s.len() - i,
{
    if i < 0 || i >= s.len() {
        seq![]
    } else {
        match wiki_link_at(s, i) {
            Some((k, a, b, e)) => if i < e <= s.len() {
                seq![(i, k, a, b, e)] + wiki_links_from(s, e)
            } else {
                seq![]
            },
            None => wiki_links_from(s, i + 1),
        }
    }
}

/// What the wiki link `(i, k, a, b, e)` of `s` yields. Wiki links are
/// always internal.
pub open spec fn wiki_link_view(s: Seq<char>, w: (int, int, int, int, int)) -> (
    Seq<char>,
    Seq<char>,
    bool,
    int,
    int,
) {
    let (i, k, a, b, e) = w;
    (s.subrange(a, b), s.subrange(i + 2, k), true, byte_offset(s, i), byte_offset(s, e))
}

proof fn lemma_wiki_link_at(s: Seq<char>, i: int)
    ensures
        wiki_link_at(s, i) matches Some((k, a, b, e)) ==> i + 2 < k && k < e <= s.len() && i
            + 2 <= a <= b <= e,
{
    if 0 <= i && i + 1 < s.len() && s[i] == '[' && s[i + 1] == '[' {
        lemma_find_target_end(s, i + 2);
        if let Some(k) = find_target_end(s, i + 2) {
            if k > i + 2 && s[k] == '|' {
                lemma_find_char(s, k + 1, ']');
            }
        }
    }
}

/// The wiki link starting at index `i`, if any.
fn wiki_link_at_exec(s: &Vec<char>, i: usize) -> (r: Option<(usize, usize, usize, usize)>)
    requires
        i < s@.len(),
    ensures
        match r {
            Some((k, a, b, e)) => wiki_link_at(s@, i as int) == Some(
                (k as int, a as int, b as int, e as int),
            ),
            None => wiki_link_at(s@, i as int) is None,
        },
{
    let n = s.len();
    proof {
        lemma_wiki_link_at(s@, i as int);
    }
    if !(i + 1 < s.len() && s[i] == '[' && s[i + 1] == '[') {
        return None;
    }
    match find_target_end_from(s, i + 2) {
        Some(k) => {
            proof {
                lemma_find_target_end(s@, i + 2);
            }
            if k <= i + 2 {
                None
            } else if s[k] == '|' {
                match find_char_from(s, k + 1, ']') {
                    Some(m) => {
                        proof {
                            lemma_find_char(s@, k + 1, ']');
                        }
                        if m > k + 1 && m + 1 < s.len() && s[m + 1] == ']' {
                            Some((k, k + 1, m, m + 2))
                        } else {
                            None
                        }
                    },
                    None => None,
                }
            } else if k + 1 < s.len() && s[k + 1] == ']' {
                Some((k, i + 2, k, k + 2))
            } else {
                None
            }
        },
        None => None,
    }
}

// ---------------------------------------------------------------------------
// All links
// ---------------------------------------------------------------------------

/// The links of `s`: the markdown links in order, then the wiki links in
/// order.
pub open spec fn links_of(s: Seq<char>) -> Seq<(Seq<char>, Seq<char>, bool, int, int)> {
    md_links_from(s, 0).map_values(|m: (int, int, int)| md_link_view(s, m)) + wiki_links_from(
        s,
        0,
    ).map_values(|w: (int, int, int, int, int)| wiki_link_view(s, w))
}

proof fn lemma_md_links_bounds(s: Seq<char>, i: int)
    requires
        0 <= i,
    ensures
        forall|x: int|
            0 <= x < md_links_from(s, i).len() ==> i <= (#[trigger] md_links_from(s, i)[x]).0
                < md_links_from(s, i)[x].2 < s.len(),
    decreases s.len() - i,
{
    if i < s.len() {
        match md_link_at(s, i) {
            Some((j, k)) => {
                if i < k < s.len() {
                    lemma_md_links_bounds(s, k + 1);
                    let rest = md_links_from(s, k + 1);
                    assert forall|x: int| 0 <= x < md_links_from(s, i).len() implies i <= (
                    #[trigger] md_links_from(s, i)[x]).0 < md_links_from(s, i)[x].2 < s.len() by {
                        if x > 0 {
                            assert(md_links_from(s, i)[x] == rest[x - 1]);
                        }
                    }
                }
            },
            None => {
                lemma_md_links_bounds(s, i + 1);
                assert(md_links_from(s, i) == md_links_from(s, i + 1));
            },
        }
    }
}

proof fn lemma_wiki_links_bounds(s: Seq<char>, i: int)
    requires
        0 <= i,
    ensures
        forall|x: int|
            0 <= x < wiki_links_from(s, i).len() ==> i <= (#[trigger] wiki_links_from(s, i)[x]).0
                < wiki_links_from(s, i)[x].4 <= s.len(),
    decreases s.len() - i,
{
    if i < s.len() {
        match wiki_link_at(s, i) {
            Some((k, a, b, e)) => {
                if i < e <= s.len() {
                    lemma_wiki_links_bounds(s, e);
                    let rest = wiki_links_from(s, e);
                    assert forall|x: int| 0 <= x < wiki_links_from(s, i).len() implies i <= (
                    #[trigger] wiki_links_from(s, i)[x]).0 < wiki_links_from(s, i)[x].4 <= s.len() by {
                        if x > 0 {
                            assert(wiki_links_from(s, i)[x] == rest[x - 1]);
                        }
                    }
                }
            },
            None => {
                lemma_wiki_links_bounds(s, i + 1);
                assert(wiki_links_from(s, i) == wiki_links_from(s, i + 1));
            },
        }
    }
}

/// Every link found in a text covers a non-empty stretch of it: its start
/// offset comes before its end offset, and its end lies within the text's
/// UTF-8 bytes.
pub proof fn lemma_link_positions_in_content(s: Seq<char>)
    ensures
        forall|x: int|
            0 <= x < links_of(s).len() ==> 0 <= (#[trigger] links_of(s)[x]).3 < links_of(s)[x].4
                <= vstd::utf8::encode_utf8(s).len(),
{
    let md = md_links_from(s, 0);
    let wiki = wiki_links_from(s, 0);
    lemma_md_links_bounds(s, 0);
    lemma_wiki_links_bounds(s, 0);
    let f = |m: (int, int, int)| md_link_view(s, m);
    let g = |w: (int, int, int, int, int)| wiki_link_view(s, w);
    assert forall|x: int| 0 <= x < links_of(s).len() implies 0 <= (
    #[trigger] links_of(s)[x]).3 < links_of(s)[x].4 <= vstd::utf8::encode_utf8(s).len() by {
        if x < md.len() {
            let m = md[x];
            assert(links_of(s)[x] == md_link_view(s, m));
            lemma_byte_offset_increases(s, m.0, m.2 + 1);
        } else {
            let w = wiki[x - md.len()];
            assert(links_of(s)[x] == wiki_link_view(s, w));
            lemma_byte_offset_increases(s, w.0, w.4);
        }
    }
}

/// Find all links in markdown content.
pub fn find_links(content: &str) -> (links: Vec<InlineLink>)
    ensures
        links@.map_values(|l: InlineLink| link_view(l)) == links_of(content@),
{
    let s = chars_of(content);
    let offsets = byte_offsets(content, &s);
    let ghost sv = s@;
    let mut links: Vec<InlineLink> = Vec::new();

    // Standard markdown links: [text](url)
    let ghost md = md_links_from(sv, 0).map_values(|m: (int, int, int)| md_link_view(sv, m));
    let mut i: usize = 0;
    while i < s.len()
        invariant
            sv == s@,
            i <= sv.len(),
            offsets@.len() == sv.len() + 1,
            forall|x: int| 0 <= x <= sv.len() ==> offsets@[x] == byte_offset(sv, x),
            links@.map_values(|l: InlineLink| link_view(l)) + md_links_from(sv, i as int).map_values(
                |m: (int, int, int)| md_link_view(sv, m),
            ) == md,
        decreases sv.len() - i,
    {
        match md_link_at_exec(&s, i) {
            Some((j, k)) => {
                proof {
                    lemma_md_link_at(sv, i as int);
                }
                let text = string_of_range(&s, i + 1, j);
                let target = string_of_range(&s, j + 2, k);
                let is_internal = is_internal_link(target.as_str());
                let link = InlineLink {
                    text,
                    target,
                    is_internal,
                    position: (offsets[i], offsets[k + 1]),
                };
                let ghost before = links@;
                links.push(link);
                proof {
                    let f = |m: (int, int, int)| md_link_view(sv, m);
                    let g = |l: InlineLink| link_view(l);
                    assert(md_links_from(sv, i as int) == seq![(i as int, j as int, k as int)]
                        + md_links_from(sv, k + 1));
                    assert((seq![(i as int, j as int, k as int)] + md_links_from(
                        sv,
                        k + 1,
                    )).map_values(f) =~= seq![link_view(link)] + md_links_from(
                        sv,
                        k + 1,
                    ).map_values(f));
                    assert(links@.map_values(g) =~= before.map_values(g) + seq![link_view(link)]);
                }
                i = k + 1;
            },
            None => {
                i = i + 1;
            },
        }
    }

    // Wiki-style links: [[target]] or [[target|text]]
    let ghost wiki = wiki_links_from(sv, 0).map_values(
        |w: (int, int, int, int, int)| wiki_link_view(sv, w),
    );
    let mut i: usize = 0;
    while i < s.len()
        invariant
            sv == s@,
            i <= sv.len(),
            offsets@.len() == sv.len() + 1,
            forall|x: int| 0 <= x <= sv.len() ==> offsets@[x] == byte_offset(sv, x),
            links@.map_values(|l: InlineLink| link_view(l)) + wiki_links_from(
                sv,
                i as int,
            ).map_values(|w: (int, int, int, int, int)| wiki_link_view(sv, w)) == md + wiki,
        decreases sv.len() - i,
    {
        match wiki_link_at_exec(&s, i) {
            Some((k, a, b, e)) => {
                proof {
                    lemma_wiki_link_at(sv, i as int);
                }
                let text = string_of_range(&s, a, b);
                let target = string_of_range(&s, i + 2, k);
                let link = InlineLink {
                    text,
                    target,
                    is_internal: true,  // Wiki links are always internal
                    position: (offsets[i], offsets[e]),
                };
                let ghost before = links@;
                links.push(link);
                proof {
                    let f = |w: (int, int, int, int, int)| wiki_link_view(sv, w);
                    let g = |l: InlineLink| link_view(l);
                    let t = (i as int, k as int, a as int, b as int, e as int);
                    assert(wiki_links_from(sv, i as int) == seq![t] + wiki_links_from(
                        sv,
                        e as int,
                    ));
                    assert((seq![t] + wiki_links_from(sv, e as int)).map_values(f) =~= seq![
                        link_view(link),
                    ] + wiki_links_from(sv, e as int).map_values(f));
                    assert(links@.map_values(g) =~= before.map_values(g) + seq![link_view(link)]);
                }
                i = e;
            },
            None => {
                i = i + 1;
            },
        }
    }
    proof {
        assert(wiki_links_from(sv, i as int) =~= Seq::<(int, int, int, int, int)>::empty());
        assert(links@.map_values(|l: InlineLink| link_view(l)) =~= md + wiki);
    }
    links
}


// ---------------------------------------------------------------------------
// Normalising link targets
// ---------------------------------------------------------------------------

/// The part of a target before its first `#` (the anchor is dropped).
pub open spec fn before_anchor(t: Seq<char>) -> Seq<char> {
    match find_char(t, 0, '#') {
        Some(k) => t.take(k),
        None => t,
    }
}

/// Adds a path segment to the components found so far, unless it is empty
/// or `.`.
pub open spec fn keep_segment(done: Seq<Seq<char>>, seg: Seq<char>) -> Seq<Seq<char>> {
    if seg.len() == 0 || seg == seq!['.'] {
        done
    } else {
        done.push(seg)
    }
}

/// Splitting `p` at `/`: the components completed so far and the segment in
/// progress.
pub open spec fn path_scan(p: Seq<char>) -> (Seq<Seq<char>>, Seq<char>)
    decreases p.len(),
{
    if p.len() == 0 {
        (seq![], seq![])
    } else {
        let (done, cur) = path_scan(p.drop_last());
        if p.last() == '/' {
            (keep_segment(done, cur), seq![])
        } else {
            (done, cur.push(p.last()))
        }
    }
}

/// The components of a path: its `/`-separated segments, without empty
/// segments and without `.` (as `Path::components` yields them on Unix, the
/// root and a leading `.` aside).
pub open spec fn path_components(p: Seq<char>) -> Seq<Seq<char>> {
    let (done, cur) = path_scan(p);
    keep_segment(done, cur)
}

/// The components of the directory holding `p` (`Path::parent`).
pub open spec fn parent_components(p: Seq<char>) -> Seq<Seq<char>> {
    let c = path_components(p);
    if c.len() > 0 {
        c.drop_last()
    } else {
        c
    }
}

/// One step of resolution: `..` removes the last component (if any), any
/// other component is appended.
pub open spec fn resolve_step(stack: Seq<Seq<char>>, comp: Seq<char>) -> Seq<Seq<char>> {
    if comp == seq!['.', '.'] {
        if stack.len() > 0 {
            stack.drop_last()
        } else {
            stack
        }
    } else {
        stack.push(comp)
    }
}

/// Resolves the components `comps` in order, starting from `stack`.
pub open spec fn resolve_components(stack: Seq<Seq<char>>, comps: Seq<Seq<char>>) -> Seq<
    Seq<char>,
>
    decreases comps.len(),
{
    if comps.len() == 0 {
        stack
    } else {
        resolve_components(resolve_step(stack, comps[0]), comps.drop_first())
    }
}

/// The components joined by `/`.
pub open spec fn join_components(comps: Seq<Seq<char>>) -> Seq<char>
    decreases comps.len(),
{
    if comps.len() == 0 {
        seq![]
    } else if comps.len() == 1 {
        comps[0]
    } else {
        join_components(comps.drop_last()) + seq!['/'] + comps.last()
    }
}

/// What `normalize_target` returns: the target without its anchor; without
/// its leading slashes if it is absolute; resolved against the directory of
/// `source` if it starts with `./` or `../`; otherwise unchanged.
pub open spec fn normalized_target(target: Seq<char>, source: Seq<char>) -> Seq<char> {
    let t = before_anchor(target);
    if seq!['/'].is_prefix_of(t) {
        t.skip(skip_char(t, 0, '/'))
    } else if seq!['.', '/'].is_prefix_of(t) || seq!['.', '.', '/'].is_prefix_of(t) {
        join_components(resolve_components(seq![], parent_components(source) + path_components(t)))
    } else {
        t
    }
}

/// Whether `seg` is empty or `.`.
fn is_skipped_segment(seg: &Vec<char>) -> (r: bool)
    ensures
        r == (seg@.len() == 0 || seg@ == seq!['.']),
{
    if seg.len() == 0 {
        return true;
    }
    if seg.len() == 1 && seg[0] == '.' {
        assert(seg@ =~= seq!['.']);
        return true;
    }
    assert(seg@.len() != 1 ==> seg@ != seq!['.']);
    false
}

/// The components of the path `p`.
fn components_of(p: &Vec<char>) -> (r: Vec<Vec<char>>)
    ensures
        r.deep_view() == path_components(p@),
{
    let mut done: Vec<Vec<char>> = Vec::new();
    let mut cur: Vec<char> = Vec::new();
    let mut i: usize = 0;
    assert(p@.take(0) =~= Seq::<char>::empty());
    while i < p.len()
        invariant
            i <= p@.len(),
            (done.deep_view(), cur@) == path_scan(p@.take(i as int)),
        decreases p@.len() - i,
    {
        let c = p[i];
        proof {
            assert(p@.take(i + 1).drop_last() =~= p@.take(i as int));
            assert(p@.take(i + 1).last() == c);
        }
        if c == '/' {
            if !is_skipped_segment(&cur) {
                let ghost before = done.deep_view();
                assert(cur.deep_view() =~= cur@);
                done.push(cur);
                assert(done.deep_view() =~= before.push(cur@));
            }
            cur = Vec::new();
            assert(cur@ =~= Seq::<char>::empty());
        } else {
            cur.push(c);
        }
        i = i + 1;
    }
    assert(p@.take(p@.len() as int) =~= p@);
    if !is_skipped_segment(&cur) {
        let ghost before = done.deep_view();
        assert(cur.deep_view() =~= cur@);
        done.push(cur);
        assert(done.deep_view() =~= before.push(cur@));
    }
    done
}

/// Whether `comp` is `..`.
fn is_parent_segment(comp: &Vec<char>) -> (r: bool)
    ensures
        r == (comp@ == seq!['.', '.']),
{
    if comp.len() == 2 && comp[0] == '.' && comp[1] == '.' {
        assert(comp@ =~= seq!['.', '.']);
        true
    } else {
        assert(comp@.len() != 2 ==> comp@ != seq!['.', '.']);
        false
    }
}

/// Resolves `comps` in order, starting from no components.
fn resolve_all(comps: &Vec<Vec<char>>) -> (r: Vec<Vec<char>>)
    ensures
        r.deep_view() == resolve_components(seq![], comps.deep_view()),
{
    let ghost all = comps.deep_view();
    let mut stack: Vec<Vec<char>> = Vec::new();
    let mut i: usize = 0;
    assert(all.skip(0) =~= all);
    assert(stack.deep_view() =~= Seq::<Seq<char>>::empty());
    while i < comps.len()
        invariant
            i <= comps@.len(),
            all == comps.deep_view(),
            resolve_components(seq![], all) == resolve_components(
                stack.deep_view(),
                all.skip(i as int),
            ),
        decreases comps@.len() - i,
    {
        let ghost before = stack.deep_view();
        proof {
            assert(all.skip(i as int).drop_first() =~= all.skip(i + 1));
            assert(all.skip(i as int)[0] == comps@[i as int]@);
        }
        if is_parent_segment(&comps[i]) {
            if stack.len() > 0 {
                stack.pop();
                assert(stack.deep_view() =~= before.drop_last());
            }
        } else {
            stack.push(comps[i].clone());
            assert(stack.deep_view() =~= before.push(comps@[i as int]@));
        }
        i = i + 1;
    }
    assert(all.skip(i as int) =~= Seq::<Seq<char>>::empty());
    stack
}

/// The components joined by `/`.
fn join_all(comps: &Vec<Vec<char>>) -> (r: String)
    ensures
        r@ == join_components(comps.deep_view()),
{
    let ghost all = comps.deep_view();
    let mut out = String::new();
    let mut i: usize = 0;
    assert(all.take(0) =~= Seq::<Seq<char>>::empty());
    while i < comps.len()
        invariant
            i <= comps@.len(),
            all == comps.deep_view(),
            out@ == join_components(all.take(i as int)),
        decreases comps@.len() - i,
    {
        proof {
            assert(all.take(i + 1).drop_last() =~= all.take(i as int));
            assert(all.take(i + 1).last() == comps@[i as int]@);
        }
        if i > 0 {
            push_char(&mut out, '/');
        }
        let piece = &comps[i];
        let mut k: usize = 0;
        let ghost start = out@;
        while k < piece.len()
            invariant
                k <= piece@.len(),
                out@ == start + piece@.take(k as int),
            decreases piece@.len() - k,
        {
            push_char(&mut out, piece[k]);
            k = k + 1;
            assert(piece@.take(k as int) =~= piece@.take(k - 1).push(piece@[k - 1]));
        }
        proof {
            assert(piece@.take(piece@.len() as int) =~= piece@);
            if i == 0 {
                assert(all.take(1) =~= seq![piece@]);
                assert(start =~= Seq::<char>::empty());
                assert(out@ =~= piece@);
            }
        }
        i = i + 1;
    }
    assert(all.take(all.len() as int) =~= all);
    out
}

/// Normalize a link target to a consistent path format.
pub fn normalize_target(target: &str, source_path: &str) -> (r: String)
    ensures
        r@ == normalized_target(target@, source_path@),
{
    let full = chars_of(target);
    // Remove anchor
    let t = match find_char_from(&full, 0, '#') {
        Some(k) => {
            proof {
                lemma_find_char(full@, 0, '#');
            }
            let mut v: Vec<char> = Vec::new();
            let mut i: usize = 0;
            while i < k
                invariant
                    i <= k <= full@.len(),
                    v@ == full@.take(i as int),
                decreases k - i,
            {
                v.push(full[i]);
                i = i + 1;
                assert(full@.take(i as int) =~= full@.take(i - 1).push(full@[i - 1]));
            }
            v
        },
        None => full,
    };
    assert(t@ == before_anchor(target@));

    // Handle absolute paths
    if t.len() > 0 && t[0] == '/' {
        assert(seq!['/'].is_prefix_of(t@)) by {
            assert(t@.subrange(0, 1) =~= seq!['/']);
        }
        let k = skip_char_from(&t, 0, '/');
        let r = string_of_range(&t, k, t.len());
        assert(t@.subrange(k as int, t@.len() as int) =~= t@.skip(k as int));
        return r;
    }
    assert(!seq!['/'].is_prefix_of(t@)) by {
        if seq!['/'].is_prefix_of(t@) {
            assert(t@.subrange(0, 1)[0] == '/');
        }
    }

    // Handle relative paths
    let dot_slash = t.len() >= 2 && t[0] == '.' && t[1] == '/';
    let dot_dot_slash = t.len() >= 3 && t[0] == '.' && t[1] == '.' && t[2] == '/';
    proof {
        if dot_slash {
            assert(t@.subrange(0, 2) =~= seq!['.', '/']);
        }
        if seq!['.', '/'].is_prefix_of(t@) {
            assert(t@.subrange(0, 2)[0] == '.' && t@.subrange(0, 2)[1] == '/');
        }
        if dot_dot_slash {
            assert(t@.subrange(0, 3) =~= seq!['.', '.', '/']);
        }
        if seq!['.', '.', '/'].is_prefix_of(t@) {
            assert(t@.subrange(0, 3)[0] == '.' && t@.subrange(0, 3)[1] == '.'
                && t@.subrange(0, 3)[2] == '/');
        }
    }
    if dot_slash || dot_dot_slash {
        let src = chars_of(source_path);
        let mut comps = components_of(&src);
        if comps.len() > 0 {
            let ghost before = comps.deep_view();
            comps.pop();
            assert(comps.deep_view() =~= before.drop_last());
        }
        assert(comps.deep_view() == parent_components(source_path@));
        let rest = components_of(&t);
        let mut i: usize = 0;
        let ghost base = comps.deep_view();
        while i < rest.len()
            invariant
                i <= rest@.len(),
                comps.deep_view() == base + rest.deep_view().take(i as int),
            decreases rest@.len() - i,
        {
            let ghost before = comps.deep_view();
            let piece = copy_chars(&rest[i]);
            assert(piece.deep_view() =~= piece@);
            assert(rest@[i as int].deep_view() =~= rest@[i as int]@);
            comps.push(piece);
            assert(comps.deep_view() =~= before.push(rest@[i as int]@));
            assert(rest.deep_view().take(i + 1) =~= rest.deep_view().take(i as int).push(
                rest@[i as int]@,
            ));
            i = i + 1;
            assert(comps.deep_view() =~= base + rest.deep_view().take(i as int));
        }
        assert(rest.deep_view().take(rest@.len() as int) =~= rest.deep_view());
        let resolved = resolve_all(&comps);
        return join_all(&resolved);
    }

    // Simple filename or relative path
    string_of(&t)
}

/// A path component: not empty, without `/`.
pub open spec fn plain_component(c: Seq<char>) -> bool {
    c.len() > 0 && forall|j: int| 0 <= j < c.len() ==> c[j] != '/'
}

/// Every component of the sequence is a plain component.
pub open spec fn plain_components(cs: Seq<Seq<char>>) -> bool {
    forall|k: int| 0 <= k < cs.len() ==> plain_component(#[trigger] cs[k])
}

proof fn lemma_skip_char_stops(s: Seq<char>, i: int, c: char)
    requires
        0 <= i <= s.len(),
    ensures
        i <= skip_char(s, i, c) <= s.len(),
        skip_char(s, i, c) < s.len() ==> s[skip_char(s, i, c)] != c,
    decreases s.len() - i,
{
    if i < s.len() && s[i] == c {
        lemma_skip_char_stops(s, i + 1, c);
    }
}

proof fn lemma_path_scan(p: Seq<char>)
    ensures
        plain_components(path_scan(p).0),
        forall|j: int| 0 <= j < path_scan(p).1.len() ==> path_scan(p).1[j] != '/',
    decreases p.len(),
{
    if p.len() > 0 {
        lemma_path_scan(p.drop_last());
        let (done, cur) = path_scan(p.drop_last());
        if p.last() == '/' {
            let kept = keep_segment(done, cur);
            assert forall|k: int| 0 <= k < kept.len() implies plain_component(#[trigger] kept[k]) by {
                if k < done.len() {
                    assert(kept[k] == done[k]);
                }
            }
        } else {
            let c2 = cur.push(p.last());
            assert forall|j: int| 0 <= j < c2.len() implies c2[j] != '/' by {
                if j < cur.len() {
                    assert(c2[j] == cur[j]);
                }
            }
        }
    }
}

proof fn lemma_path_components(p: Seq<char>)
    ensures
        plain_components(path_components(p)),
        plain_components(parent_components(p)),
{
    lemma_path_scan(p);
    let (done, cur) = path_scan(p);
    let c = keep_segment(done, cur);
    assert forall|k: int| 0 <= k < c.len() implies plain_component(#[trigger] c[k]) by {
        if k < done.len() {
            assert(c[k] == done[k]);
        }
    }
    if c.len() > 0 {
        assert forall|k: int| 0 <= k < c.drop_last().len() implies plain_component(
            #[trigger] c.drop_last()[k],
        ) by {
            assert(c.drop_last()[k] == c[k]);
        }
    }
}

proof fn lemma_resolve_plain(stack: Seq<Seq<char>>, comps: Seq<Seq<char>>)
    requires
        plain_components(stack),
        plain_components(comps),
    ensures
        plain_components(resolve_components(stack, comps)),
    decreases comps.len(),
{
    if comps.len() > 0 {
        let next = resolve_step(stack, comps[0]);
        assert(plain_component(comps[0]));
        assert forall|k: int| 0 <= k < next.len() implies plain_component(#[trigger] next[k]) by {
            if k < stack.len() {
                if comps[0] == seq!['.', '.'] {
                    assert(next[k] == stack[k]);
                } else {
                    assert(next[k] == stack[k]);
                }
            }
        }
        assert forall|k: int| 0 <= k < comps.drop_first().len() implies plain_component(
            #[trigger] comps.drop_first()[k],
        ) by {
            assert(comps.drop_first()[k] == comps[k + 1]);
        }
        lemma_resolve_plain(next, comps.drop_first());
    }
}

proof fn lemma_join_first(cs: Seq<Seq<char>>)
    requires
        plain_components(cs),
        cs.len() > 0,
    ensures
        join_components(cs).len() > 0,
        join_components(cs)[0] == cs[0][0],
    decreases cs.len(),
{
    assert(plain_component(cs[0]));
    if cs.len() > 1 {
        let pre = cs.drop_last();
        assert forall|k: int| 0 <= k < pre.len() implies plain_component(#[trigger] pre[k]) by {
            assert(pre[k] == cs[k]);
        }
        lemma_join_first(pre);
        assert(pre[0] == cs[0]);
    }
}

/// A normalised target is relative: it never starts with `/`.
pub proof fn lemma_normalized_is_relative(target: Seq<char>, source: Seq<char>)
    ensures
        normalized_target(target, source).len() > 0 ==> normalized_target(target, source)[0]
            != '/',
{
    let t = before_anchor(target);
    if seq!['/'].is_prefix_of(t) {
        lemma_skip_char_stops(t, 0, '/');
        let k = skip_char(t, 0, '/');
        if k < t.len() {
            assert(t.skip(k)[0] == t[k]);
        }
    } else if seq!['.', '/'].is_prefix_of(t) || seq!['.', '.', '/'].is_prefix_of(t) {
        lemma_path_components(source);
        lemma_path_components(t);
        let all = parent_components(source) + path_components(t);
        assert forall|k: int| 0 <= k < all.len() implies plain_component(#[trigger] all[k]) by {
            if k < parent_components(source).len() {
                assert(all[k] == parent_components(source)[k]);
            } else {
                assert(all[k] == path_components(t)[k - parent_components(source).len()]);
            }
        }
        assert(plain_components(Seq::<Seq<char>>::empty()));
        lemma_resolve_plain(seq![], all);
        let r = resolve_components(seq![], all);
        if r.len() > 0 {
            lemma_join_first(r);
            assert(plain_component(r[0]));
        }
    } else {
        if t.len() > 0 {
            assert(t.subrange(0, 1) =~= seq![t[0]]);
        }
    }
}

/// An absolute target without an anchor keeps everything after its leading
/// slashes: the result no longer starts with `/`, and the target is the
/// result preceded by one or more slashes, so no directory is lost.
pub proof fn lemma_absolute_target_keeps_path(target: Seq<char>, source: Seq<char>)
    requires
        target.len() > 0,
        target[0] == '/',
        free_of(target, '#'),
    ensures
        ({
            let r = normalized_target(target, source);
            let k = target.len() - r.len();
            &&& 1 <= k <= target.len()
            &&& target.skip(k) == r
            &&& forall|j: int| 0 <= j < k ==> target[j] == '/'
            &&& r.len() > 0 ==> r[0] != '/'
        }),
{
    lemma_find_char(target, 0, '#');
    assert(before_anchor(target) == target);
    assert(seq!['/'].is_prefix_of(target)) by {
        assert(target.subrange(0, 1) =~= seq!['/']);
    }
    lemma_skip_char_stops(target, 0, '/');
    lemma_skip_char_all(target, 0, '/');
    let k = skip_char(target, 0, '/');
    assert(k >= 1);
    let r = target.skip(k);
    assert(normalized_target(target, source) == r);
    assert(target.len() - r.len() == k);
    if r.len() > 0 {
        assert(r[0] == target[k]);
    }
}

proof fn lemma_skip_char_all(s: Seq<char>, i: int, c: char)
    requires
        0 <= i <= s.len(),
    ensures
        forall|j: int| i <= j < skip_char(s, i, c) ==> s[j] == c,
        i < s.len() && s[i] == c ==> skip_char(s, i, c) > i,
    decreases s.len() - i,
{
    if i < s.len() && s[i] == c {
        lemma_skip_char_all(s, i + 1, c);
        lemma_skip_char_stops(s, i + 1, c);
    }
}

/// Whether `c` does not occur in `s`.
pub open spec fn free_of(s: Seq<char>, c: char) -> bool {
    forall|j: int| 0 <= j < s.len() ==> s[j] != c
}

/// Whether `c` occurs in none of the components.
pub open spec fn all_free_of(cs: Seq<Seq<char>>, c: char) -> bool {
    forall|k: int| 0 <= k < cs.len() ==> free_of(#[trigger] cs[k], c)
}

/// Components that are plain and neither `.` nor `..`.
pub open spec fn clean_components(cs: Seq<Seq<char>>) -> bool {
    &&& plain_components(cs)
    &&& forall|k: int|
        0 <= k < cs.len() ==> #[trigger] cs[k] != seq!['.'] && cs[k] != seq!['.', '.']
}

/// The components that a `./` or `../` target resolves to against `source`.
pub open spec fn resolved_components(target: Seq<char>, source: Seq<char>) -> Seq<Seq<char>> {
    resolve_components(seq![], parent_components(source) + path_components(before_anchor(target)))
}

proof fn lemma_path_scan_more(p: Seq<char>, c: char)
    ensures
        free_of(p, c) ==> all_free_of(path_scan(p).0, c) && free_of(path_scan(p).1, c),
        forall|k: int|
            0 <= k < path_scan(p).0.len() ==> #[trigger] path_scan(p).0[k] != seq!['.'],
    decreases p.len(),
{
    if p.len() > 0 {
        let q = p.drop_last();
        lemma_path_scan_more(q, c);
        let (done, cur) = path_scan(q);
        if free_of(p, c) {
            assert(free_of(q, c)) by {
                assert forall|j: int| 0 <= j < q.len() implies q[j] != c by {
                    assert(q[j] == p[j]);
                }
            }
        }
        if p.last() == '/' {
            let kept = keep_segment(done, cur);
            assert forall|k: int| 0 <= k < kept.len() implies #[trigger] kept[k] != seq!['.'] by {
                if k < done.len() {
                    assert(kept[k] == done[k]);
                }
            }
            if free_of(p, c) {
                assert forall|k: int| 0 <= k < kept.len() implies free_of(#[trigger] kept[k], c) by {
                    if k < done.len() {
                        assert(kept[k] == done[k]);
                    }
                }
                assert(free_of(Seq::<char>::empty(), c));
            }
        } else {
            if free_of(p, c) {
                let c2 = cur.push(p.last());
                assert forall|j: int| 0 <= j < c2.len() implies c2[j] != c by {
                    if j < cur.len() {
                        assert(c2[j] == cur[j]);
                    }
                }
            }
        }
    }
}

proof fn lemma_path_components_more(p: Seq<char>, c: char)
    ensures
        free_of(p, c) ==> all_free_of(path_components(p), c) && all_free_of(
            parent_components(p),
            c,
        ),
        forall|k: int|
            0 <= k < path_components(p).len() ==> #[trigger] path_components(p)[k] != seq!['.'],
        forall|k: int|
            0 <= k < parent_components(p).len() ==> #[trigger] parent_components(p)[k] != seq![
                '.',
            ],
{
    lemma_path_scan_more(p, c);
    lemma_path_components(p);
    let (done, cur) = path_scan(p);
    let cs = keep_segment(done, cur);
    assert forall|k: int| 0 <= k < cs.len() implies #[trigger] cs[k] != seq!['.'] by {
        if k < done.len() {
            assert(cs[k] == done[k]);
        }
    }
    if free_of(p, c) {
        assert forall|k: int| 0 <= k < cs.len() implies free_of(#[trigger] cs[k], c) by {
            if k < done.len() {
                assert(cs[k] == done[k]);
            }
        }
    }
    if cs.len() > 0 {
        assert forall|k: int| 0 <= k < cs.drop_last().len() implies #[trigger] cs.drop_last()[k]
            != seq!['.'] by {
            assert(cs.drop_last()[k] == cs[k]);
        }
        if free_of(p, c) {
            assert forall|k: int| 0 <= k < cs.drop_last().len() implies free_of(
                #[trigger] cs.drop_last()[k],
                c,
            ) by {
                assert(cs.drop_last()[k] == cs[k]);
            }
        }
    }
}

proof fn lemma_resolve_clean(stack: Seq<Seq<char>>, comps: Seq<Seq<char>>, c: char)
    requires
        clean_components(stack),
        plain_components(comps),
        forall|k: int| 0 <= k < comps.len() ==> #[trigger] comps[k] != seq!['.'],
    ensures
        clean_components(resolve_components(stack, comps)),
        all_free_of(stack, c) && all_free_of(comps, c) ==> all_free_of(
            resolve_components(stack, comps),
            c,
        ),
    decreases comps.len(),
{
    if comps.len() > 0 {
        let next = resolve_step(stack, comps[0]);
        assert(plain_component(comps[0]));
        assert forall|k: int| 0 <= k < next.len() implies plain_component(#[trigger] next[k]) && next[k]
            != seq!['.'] && next[k] != seq!['.', '.'] && (all_free_of(stack, c) && all_free_of(
            comps,
            c,
        ) ==> free_of(next[k], c)) by {
            if k < stack.len() {
                assert(next[k] == stack[k]);
            } else {
                assert(next[k] == comps[0]);
            }
        }
        let rest = comps.drop_first();
        assert forall|k: int| 0 <= k < rest.len() implies plain_component(#[trigger] rest[k]) && rest[k]
            != seq!['.'] && (all_free_of(comps, c) ==> free_of(rest[k], c)) by {
            assert(rest[k] == comps[k + 1]);
        }
        lemma_resolve_clean(next, rest, c);
    }
}

proof fn lemma_join_free(cs: Seq<Seq<char>>, c: char)
    requires
        all_free_of(cs, c),
        c != '/',
    ensures
        free_of(join_components(cs), c),
    decreases cs.len(),
{
    if cs.len() == 1 {
        assert(free_of(cs[0], c));
    } else if cs.len() > 1 {
        let pre = cs.drop_last();
        assert forall|k: int| 0 <= k < pre.len() implies free_of(#[trigger] pre[k], c) by {
            assert(pre[k] == cs[k]);
        }
        lemma_join_free(pre, c);
        assert(free_of(cs.last(), c));
        let j = join_components(pre) + seq!['/'] + cs.last();
        assert forall|i: int| 0 <= i < j.len() implies j[i] != c by {
            if i < join_components(pre).len() {
                assert(j[i] == join_components(pre)[i]);
            } else if i > join_components(pre).len() {
                assert(j[i] == cs.last()[i - join_components(pre).len() - 1]);
            }
        }
    }
}

proof fn lemma_join_prefix(cs: Seq<Seq<char>>)
    requires
        plain_components(cs),
        cs.len() > 0,
    ensures
        cs[0].len() <= join_components(cs).len(),
        join_components(cs).take(cs[0].len() as int) == cs[0],
        cs.len() > 1 ==> cs[0].len() < join_components(cs).len() && join_components(cs)[cs[0].len()
            as int] == '/',
    decreases cs.len(),
{
    assert(plain_component(cs[0]));
    if cs.len() == 1 {
        assert(join_components(cs).take(cs[0].len() as int) =~= cs[0]);
    } else {
        let pre = cs.drop_last();
        assert forall|k: int| 0 <= k < pre.len() implies plain_component(#[trigger] pre[k]) by {
            assert(pre[k] == cs[k]);
        }
        lemma_join_prefix(pre);
        assert(pre[0] == cs[0]);
        let jp = join_components(pre);
        let j = jp + seq!['/'] + cs.last();
        assert(j.take(cs[0].len() as int) =~= jp.take(cs[0].len() as int));
        if pre.len() == 1 {
            assert(jp == cs[0]);
            assert(j[cs[0].len() as int] == '/');
        } else {
            assert(j[cs[0].len() as int] == jp[cs[0].len() as int]);
        }
    }
}

/// A target that starts with `./` or `../`, resolved against a source path
/// without `#`, comes out normal: it is the `/`-join of components that are
/// neither empty nor `.` nor `..` (a `..` above the start is dropped), and
/// normalising it again, against any source path, gives it back unchanged.
pub proof fn lemma_normalized_relative_is_normal(
    target: Seq<char>,
    source: Seq<char>,
    other: Seq<char>,
)
    requires
        seq!['.', '/'].is_prefix_of(target) || seq!['.', '.', '/'].is_prefix_of(target),
        free_of(source, '#'),
    ensures
        clean_components(resolved_components(target, source)),
        normalized_target(target, source) == join_components(resolved_components(target, source)),
        normalized_target(normalized_target(target, source), other) == normalized_target(
            target,
            source,
        ),
{
    let t = before_anchor(target);
    lemma_find_char(target, 0, '#');
    assert(free_of(t, '#'));
    assert(seq!['.', '/'].is_prefix_of(t) || seq!['.', '.', '/'].is_prefix_of(t)) by {
        if seq!['.', '/'].is_prefix_of(target) {
            assert(target[0] == '.' && target[1] == '/');
        } else {
            assert(target[0] == '.' && target[1] == '.' && target[2] == '/');
        }
    }
    lemma_path_components_more(source, '#');
    lemma_path_components_more(t, '#');
    lemma_path_components(source);
    lemma_path_components(t);
    let ps = parent_components(source);
    let pt = path_components(t);
    let all = ps + pt;
    assert forall|k: int| 0 <= k < all.len() implies plain_component(#[trigger] all[k]) && all[k]
        != seq!['.'] && free_of(all[k], '#') by {
        if k < ps.len() {
            assert(all[k] == ps[k]);
        } else {
            assert(all[k] == pt[k - ps.len()]);
        }
    }
    assert(clean_components(Seq::<Seq<char>>::empty()));
    assert(all_free_of(Seq::<Seq<char>>::empty(), '#'));
    lemma_resolve_clean(seq![], all, '#');
    let cs = resolved_components(target, source);
    let r = join_components(cs);
    assert(normalized_target(target, source) == r);
    lemma_join_free(cs, '#');
    lemma_find_char(r, 0, '#');
    assert(before_anchor(r) == r);
    if cs.len() > 0 {
        lemma_join_prefix(cs);
        lemma_join_first(cs);
        assert(plain_component(cs[0]));
        let c0 = cs[0];
        assert(!seq!['/'].is_prefix_of(r));
        if seq!['.', '/'].is_prefix_of(r) {
            if c0.len() >= 2 {
                assert(r[1] == c0[1]);
            }
            assert(c0.len() == 1);
            assert(c0 =~= seq!['.']) by {
                assert(c0[0] == r[0]);
            }
        }
        if seq!['.', '.', '/'].is_prefix_of(r) {
            if c0.len() >= 3 {
                assert(r[2] == c0[2]);
            }
            assert(c0.len() == 2);
            assert(c0 =~= seq!['.', '.']) by {
                assert(c0[0] == r[0]);
                assert(c0[1] == r[1]);
            }
        }
    }
}

// ---------------------------------------------------------------------------
// Node identifiers
// ---------------------------------------------------------------------------

/// The path without a `.md` or `.markdown` extension.
pub open spec fn without_extension(p: Seq<char>) -> Seq<char> {
    if seq!['.', 'm', 'd'].is_suffix_of(p) {
        p.take(p.len() - 3)
    } else if seq!['.', 'm', 'a', 'r', 'k', 'd', 'o', 'w', 'n'].is_suffix_of(p) {
        p.take(p.len() - 9)
    } else {
        p
    }
}

/// `/` and `\` replaced by `-`.
pub open spec fn dash_for_separator(c: char) -> char {
    if c == '/' || c == '\\' {
        '-'
    } else {
        c
    }
}

/// The identifier derived from a path before ADR numbers are recognised:
/// extension removed, separators turned into dashes, leading dashes removed.
pub open spec fn path_id_base(p: Seq<char>) -> Seq<char> {
    let d = without_extension(p).map_values(|c: char| dash_for_separator(c));
    d.skip(skip_char(d, 0, '-'))
}

/// The index of the first character at or after `i` that is not a decimal
/// digit (regex `\d`).
pub open spec fn skip_digits(s: Seq<char>, i: int) -> int
    decreases s.len() - i,
{
    if 0 <= i < s.len() && decimal_digit(s[i]) {
        skip_digits(s, i + 1)
    } else {
        i
    }
}

/// The digits that the pattern `adr[-_]?(\d+)` captures when it matches at
/// index `i`, as a range.
pub open spec fn adr_digits_at(s: Seq<char>, i: int) -> Option<(int, int)> {
    if 0 <= i && i + 3 <= s.len() && s.subrange(i, i + 3) == seq!['a', 'd', 'r'] {
        let p = i + 3;
        if p + 1 < s.len() && (s[p] == '-' || s[p] == '_') && decimal_digit(s[p + 1]) {
            Some((p + 1, skip_digits(s, p + 1)))
        } else if p < s.len() && decimal_digit(s[p]) {
            Some((p, skip_digits(s, p)))
        } else {
            None
        }
    } else {
        None
    }
}

/// The digits captured by the leftmost match of `adr[-_]?(\d+)` at or after
/// index `i`.
pub open spec fn first_adr_digits(s: Seq<char>, i: int) -> Option<(int, int)>
    decreases s.len() - i,
{
    if i < 0 || i >= s.len() {
        None
    } else {
        match adr_digits_at(s, i) {
            Some(r) => Some(r),
            None => first_adr_digits(s, i + 1),
        }
    }
}

/// Every character is an ASCII digit.
pub open spec fn all_ascii_digits(d: Seq<char>) -> bool {
    forall|k: int| 0 <= k < d.len() ==> '0' <= #[trigger] d[k] && d[k] <= '9'
}

/// The value of a digit character.
pub open spec fn digit_value(c: char) -> int {
    c as int - '0' as int
}

/// The number written by a string of decimal digits.
pub open spec fn digits_value(d: Seq<char>) -> int
    decreases d.len(),
{
    if d.len() == 0 {
        0
    } else {
        digits_value(d.drop_last()) * 10 + digit_value(d.last())
    }
}

/// `str::parse::<u32>` on a string of digits, with 0 where it fails (a
/// non-ASCII digit, or a value beyond `u32::MAX`).
pub open spec fn parsed_u32_or_zero(d: Seq<char>) -> int {
    if all_ascii_digits(d) && digits_value(d) <= u32::MAX {
        digits_value(d)
    } else {
        0
    }
}

/// The character of a digit value.
pub open spec fn digit_char(d: int) -> char {
    if d == 0 {
        '0'
    } else if d == 1 {
        '1'
    } else if d == 2 {
        '2'
    } else if d == 3 {
        '3'
    } else if d == 4 {
        '4'
    } else if d == 5 {
        '5'
    } else if d == 6 {
        '6'
    } else if d == 7 {
        '7'
    } else if d == 8 {
        '8'
    } else {
        '9'
    }
}

/// The decimal digits of `n`, without leading zeros.
pub open spec fn decimal(n: nat) -> Seq<char>
    decreases n,
{
    if n < 10 {
        seq![digit_char(n as int)]
    } else {
        decimal(n / 10).push(digit_char((n % 10) as int))
    }
}

/// `d` left-padded with zeros to at least four characters (`{:04}`).
pub open spec fn zero_pad4(d: Seq<char>) -> Seq<char> {
    if d.len() >= 4 {
        d
    } else {
        Seq::new((4 - d.len()) as nat, |k: int| '0') + d
    }
}

/// What `path_to_node_id` returns: the base identifier, or, where the ADR
/// pattern matches it, `adr-` followed by the number, padded to four digits.
pub open spec fn node_id_of_path(p: Seq<char>) -> Seq<char> {
    let id = path_id_base(p);
    match adr_number(id) {
        Some(n) => seq!['a', 'd', 'r', '-'] + n,
        None => id,
    }
}

proof fn lemma_decimal_digits(n: nat)
    ensures
        forall|i: int| 0 <= i < decimal(n).len() ==> '0' <= #[trigger] decimal(n)[i] <= '9',
    decreases n,
{
    if n >= 10 {
        lemma_decimal_digits(n / 10);
        let r = decimal(n / 10);
        assert forall|i: int| 0 <= i < decimal(n).len() implies '0' <= #[trigger] decimal(n)[i]
            <= '9' by {
            if i < r.len() {
                assert(decimal(n)[i] == r[i]);
            }
        }
    }
}

/// A node ID made from a path holds no path separator (`/` or `\`).
pub proof fn lemma_node_id_has_no_separators(p: Seq<char>)
    ensures
        forall|i: int|
            0 <= i < node_id_of_path(p).len() ==> #[trigger] node_id_of_path(p)[i] != '/'
                && node_id_of_path(p)[i] != '\\',
{
    let id = path_id_base(p);
    let d = without_extension(p).map_values(|c: char| dash_for_separator(c));
    let k = skip_char(d, 0, '-');
    lemma_skip_char_stops(d, 0, '-');
    assert forall|i: int| 0 <= i < id.len() implies id[i] != '/' && id[i] != '\\' by {
        assert(id[i] == d[i + k]);
    }
    match first_adr_digits(id, 0) {
        Some((a, b)) => {
            let n = parsed_u32_or_zero(id.subrange(a, b)) as nat;
            lemma_decimal_digits(n);
            let dd = decimal(n);
            let z = zero_pad4(dd);
            let r = seq!['a', 'd', 'r', '-'] + z;
            assert forall|i: int| 0 <= i < r.len() implies r[i] != '/' && r[i] != '\\' by {
                if i >= 4 {
                    if dd.len() >= 4 {
                        assert(r[i] == dd[i - 4]);
                    } else {
                        let pad = Seq::new((4 - dd.len()) as nat, |k: int| '0');
                        if i - 4 < pad.len() {
                            assert(r[i] == '0');
                        } else {
                            assert(r[i] == dd[i - 4 - pad.len()]);
                        }
                    }
                }
            }
        },
        None => {},
    }
}

fn digit_char_exec(d: u32) -> (r: char)
    requires
        d < 10,
    ensures
        r == digit_char(d as int),
{
    if d == 0 {
        '0'
    } else if d == 1 {
        '1'
    } else if d == 2 {
        '2'
    } else if d == 3 {
        '3'
    } else if d == 4 {
        '4'
    } else if d == 5 {
        '5'
    } else if d == 6 {
        '6'
    } else if d == 7 {
        '7'
    } else if d == 8 {
        '8'
    } else {
        '9'
    }
}

/// Appends the decimal digits of `n`.
fn push_decimal(out: &mut Vec<char>, n: u32)
    ensures
        final(out)@ == old(out)@ + decimal(n as nat),
    decreases n,
{
    if n < 10 {
        let c = digit_char_exec(n);
        out.push(c);
        assert(decimal(n as nat) =~= seq![c]);
    } else {
        push_decimal(out, n / 10);
        let c = digit_char_exec(n % 10);
        out.push(c);
    }
}

/// The index of the first character at or after `from` that is not a
/// decimal digit.
fn skip_digits_from(s: &Vec<char>, from: usize) -> (r: usize)
    requires
        from <= s@.len(),
    ensures
        r == skip_digits(s@, from as int),
        from <= r <= s@.len(),
{
    let mut i = from;
    while i < s.len() && is_decimal_digit(s[i])
        invariant
            from <= i <= s@.len(),
            skip_digits(s@, from as int) == skip_digits(s@, i as int),
        decreases s@.len() - i,
    {
        i = i + 1;
    }
    i
}

proof fn lemma_skip_digits(s: Seq<char>, i: int)
    requires
        0 <= i <= s.len(),
    ensures
        i <= skip_digits(s, i) <= s.len(),
    decreases s.len() - i,
{
    if i < s.len() && decimal_digit(s[i]) {
        lemma_skip_digits(s, i + 1);
    }
}

fn adr_digits_at_exec(s: &Vec<char>, i: usize) -> (r: Option<(usize, usize)>)
    requires
        i < s@.len(),
    ensures
        match r {
            Some((a, b)) => adr_digits_at(s@, i as int) == Some((a as int, b as int)),
            None => adr_digits_at(s@, i as int) is None,
        },
{
    let n = s.len();
    if !(n - i >= 3 && s[i] == 'a' && s[i + 1] == 'd' && s[i + 2] == 'r') {
        proof {
            if n - i >= 3 && s@.subrange(i as int, i + 3) == seq!['a', 'd', 'r'] {
                assert(s@.subrange(i as int, i + 3)[0] == s@[i as int]);
                assert(s@.subrange(i as int, i + 3)[1] == s@[i + 1]);
                assert(s@.subrange(i as int, i + 3)[2] == s@[i + 2]);
            }
        }
        return None;
    }
    assert(s@.subrange(i as int, i + 3) =~= seq!['a', 'd', 'r']);
    let p = i + 3;
    if p < n && n - p > 1 && (s[p] == '-' || s[p] == '_') && is_decimal_digit(s[p + 1]) {
        let e = skip_digits_from(s, p + 1);
        Some((p + 1, e))
    } else if p < n && is_decimal_digit(s[p]) {
        let e = skip_digits_from(s, p);
        Some((p, e))
    } else {
        None
    }
}

/// `str::parse::<u32>` on digits, 0 where it fails.
fn parse_u32_or_zero(s: &Vec<char>, from: usize, to: usize) -> (r: u32)
    requires
        from <= to <= s@.len(),
    ensures
        r == parsed_u32_or_zero(s@.subrange(from as int, to as int)),
{
    let ghost d = s@.subrange(from as int, to as int);
    let mut ok = true;
    let mut v: u64 = 0;
    let mut i = from;
    assert(d.take(0) =~= Seq::<char>::empty());
    while i < to
        invariant
            from <= i <= to <= s@.len(),
            d == s@.subrange(from as int, to as int),
            ok == (all_ascii_digits(d.take(i - from)) && digits_value(d.take(i - from))
                <= u32::MAX),
            ok ==> v == digits_value(d.take(i - from)),
            v <= u32::MAX,
        decreases to - i,
    {
        let c = s[i];
        let ghost pre = d.take(i - from);
        let ghost nxt = d.take(i + 1 - from);
        proof {
            assert(nxt.drop_last() =~= pre);
            assert(nxt.last() == c);
        }
        if '0' <= c && c <= '9' {
            if ok {
                let dv = (c as u32 - '0' as u32) as u64;
                let w = v * 10 + dv;
                if w > 0xFFFF_FFFF {
                    ok = false;
                } else {
                    v = w;
                }
            } else {
                proof {
                    if all_ascii_digits(nxt) {
                        assert forall|k: int| 0 <= k < pre.len() implies '0' <= #[trigger] pre[k]
                            && pre[k] <= '9' by {
                            assert(pre[k] == nxt[k]);
                        }
                    }
                }
            }
        } else {
            ok = false;
            assert(!all_ascii_digits(nxt)) by {
                assert(nxt[nxt.len() - 1] == c);
            }
        }
        proof {
            if ok {
                assert forall|k: int| 0 <= k < nxt.len() implies '0' <= #[trigger] nxt[k]
                    && nxt[k] <= '9' by {
                    if k < pre.len() {
                        assert(pre[k] == nxt[k]);
                    }
                }
            }
        }
        i = i + 1;
    }
    assert(d.take(to - from) =~= d);
    if ok {
        v as u32
    } else {
        0
    }
}

/// Generate a node ID from a file path.
pub fn path_to_node_id(path: &str) -> (r: String)
    ensures
        r@ == node_id_of_path(path@),
{
    let p = chars_of(path);
    let n = p.len();
    // Remove extension
    let md = vec!['.', 'm', 'd'];
    let markdown = vec!['.', 'm', 'a', 'r', 'k', 'd', 'o', 'w', 'n'];
    let stem_len = if n >= 3 && occurs_at(&p, &md, n - 3) {
        proof {
            assert(md@.is_suffix_of(p@)) by {
                assert(p@.subrange(n - 3, n as int) =~= md@);
            }
        }
        n - 3
    } else if n >= 9 && occurs_at(&p, &markdown, n - 9) {
        proof {
            assert(!md@.is_suffix_of(p@));
            assert(markdown@.is_suffix_of(p@)) by {
                assert(p@.subrange(n - 9, n as int) =~= markdown@);
            }
        }
        n - 9
    } else {
        proof {
            assert(!md@.is_suffix_of(p@)) by {
                if md@.is_suffix_of(p@) {
                    assert(p@.subrange(n - 3, n as int) =~= md@);
                }
            }
            assert(!markdown@.is_suffix_of(p@)) by {
                if markdown@.is_suffix_of(p@) {
                    assert(p@.subrange(n - 9, n as int) =~= markdown@);
                }
            }
        }
        n
    };
    assert(p@.take(stem_len as int) == without_extension(p@)) by {
        if stem_len == n {
            assert(p@.take(n as int) =~= p@);
        }
    }

    // Replace path separators with dashes
    let mut d: Vec<char> = Vec::new();
    let mut i: usize = 0;
    while i < stem_len
        invariant
            i <= stem_len <= p@.len(),
            d@ == p@.take(i as int).map_values(|c: char| dash_for_separator(c)),
        decreases stem_len - i,
    {
        let c = p[i];
        let m = if c == '/' || c == '\\' {
            '-'
        } else {
            c
        };
        d.push(m);
        i = i + 1;
        assert(p@.take(i as int).map_values(|c: char| dash_for_separator(c)) =~= p@.take(
            i - 1,
        ).map_values(|c: char| dash_for_separator(c)).push(m));
    }
    let lead = skip_char_from(&d, 0, '-');
    let id = slice_to_vec(&d, lead);
    assert(id@ == path_id_base(path@));

    let id_text = string_of(&id);
    // Handle ADR patterns: extract number
    match extract_adr_number(id_text.as_str()) {
        Some(num) => {
            let mut out = String::from_str("adr-");
            push_str(&mut out, num.as_str());
            proof {
                reveal_strlit("adr-");
                assert("adr-"@ =~= seq!['a', 'd', 'r', '-']);
            }
            out
        },
        None => id_text,
    }
}

/// The number that the leftmost match of `adr[-_]?(\d+)` captures in `s`,
/// padded to four digits (0 where the digits do not parse as a `u32`).
pub open spec fn adr_number(s: Seq<char>) -> Option<Seq<char>> {
    match first_adr_digits(s, 0) {
        Some((a, b)) => Some(zero_pad4(decimal(parsed_u32_or_zero(s.subrange(a, b)) as nat))),
        None => None,
    }
}

/// Extract ADR number from a path or ID.
pub fn extract_adr_number(s: &str) -> (r: Option<String>)
    ensures
        match adr_number(s@) {
            Some(n) => r matches Some(x) && x@ == n,
            None => r is None,
        },
{
    let id = chars_of(s);
    let mut j: usize = 0;
    while j < id.len()
        invariant
            j <= id@.len(),
            id@ == s@,
            first_adr_digits(id@, 0) == first_adr_digits(id@, j as int),
        decreases id@.len() - j,
    {
        match adr_digits_at_exec(&id, j) {
            Some((a, b)) => {
                proof {
                    lemma_skip_digits(id@, a as int);
                }
                let num = parse_u32_or_zero(&id, a, b);
                let mut digits: Vec<char> = Vec::new();
                push_decimal(&mut digits, num);
                assert(digits@ =~= decimal(num as nat));
                let mut out: Vec<char> = Vec::new();
                if digits.len() < 4 {
                    let pad = 4 - digits.len();
                    let mut k: usize = 0;
                    while k < pad
                        invariant
                            k <= pad,
                            out@ == Seq::new(k as nat, |x: int| '0'),
                        decreases pad - k,
                    {
                        out.push('0');
                        k = k + 1;
                        assert(out@ =~= Seq::new(k as nat, |x: int| '0'));
                    }
                }
                let ghost mid = out@;
                let mut k: usize = 0;
                while k < digits.len()
                    invariant
                        k <= digits@.len(),
                        out@ == mid + digits@.take(k as int),
                    decreases digits@.len() - k,
                {
                    out.push(digits[k]);
                    k = k + 1;
                    assert(digits@.take(k as int) =~= digits@.take(k - 1).push(digits@[k - 1]));
                }
                assert(digits@.take(digits@.len() as int) =~= digits@);
                assert(out@ =~= zero_pad4(decimal(num as nat)));
                return Some(string_of(&out));
            },
            None => {
                j = j + 1;
            },
        }
    }
    None
}

/// A copy of a character vector.
fn copy_chars(v: &Vec<char>) -> (r: Vec<char>)
    ensures
        r@ == v@,
{
    slice_to_vec(v, 0)
}

/// The characters `v[from..]`.
fn slice_to_vec(v: &Vec<char>, from: usize) -> (r: Vec<char>)
    requires
        from <= v@.len(),
    ensures
        r@ == v@.skip(from as int),
{
    let mut r: Vec<char> = Vec::new();
    let mut i = from;
    while i < v.len()
        invariant
            from <= i <= v@.len(),
            r@ == v@.subrange(from as int, i as int),
        decreases v@.len() - i,
    {
        r.push(v[i]);
        i = i + 1;
        assert(v@.subrange(from as int, i as int) =~= v@.subrange(from as int, i - 1).push(
            v@[i - 1],
        ));
    }
    assert(v@.subrange(from as int, v@.len() as int) =~= v@.skip(from as int));
    assert(v@.skip(0) =~= v@);
    r
}

// ---------------------------------------------------------------------------
// Edge types from link text
// ---------------------------------------------------------------------------

/// The edge type suggested by already lowercased link text: the first of
/// these keyword groups that occurs decides.
pub open spec fn context_edge_type(lower: Seq<char>) -> EdgeType {
    if contains(lower, "supersede"@) || contains(lower, "replace"@) {
        EdgeType::Supersedes
    } else if contains(lower, "implement"@) {
        EdgeType::Implements
    } else if contains(lower, "decision"@) || contains(lower, "adr"@) {
        EdgeType::Decision
    } else if contains(lower, "see also"@) || contains(lower, "related"@) {
        EdgeType::SeeAlso
    } else if contains(lower, "based on"@) || contains(lower, "derived from"@) {
        EdgeType::BasedOn
    } else {
        EdgeType::LinksTo
    }
}

/// Link text decides the edge type by its keywords, in a fixed order of
/// priority: `supersede`/`replace`, then `implement`, then `decision`/`adr`,
/// then `see also`/`related`, then `based on`/`derived from`. A keyword wins
/// when no keyword of an earlier group occurs; text with none of them gives a
/// plain link.
pub proof fn lemma_context_keywords(lower: Seq<char>)
    ensures
        contains(lower, "supersede"@) || contains(lower, "replace"@) ==> context_edge_type(lower)
            == EdgeType::Supersedes,
        !contains(lower, "supersede"@) && !contains(lower, "replace"@) && contains(
            lower,
            "implement"@,
        ) ==> context_edge_type(lower) == EdgeType::Implements,
        !contains(lower, "supersede"@) && !contains(lower, "replace"@) && !contains(
            lower,
            "implement"@,
        ) && (contains(lower, "decision"@) || contains(lower, "adr"@)) ==> context_edge_type(lower)
            == EdgeType::Decision,
        !contains(lower, "supersede"@) && !contains(lower, "replace"@) && !contains(
            lower,
            "implement"@,
        ) && !contains(lower, "decision"@) && !contains(lower, "adr"@) && (contains(
            lower,
            "see also"@,
        ) || contains(lower, "related"@)) ==> context_edge_type(lower) == EdgeType::SeeAlso,
        !contains(lower, "supersede"@) && !contains(lower, "replace"@) && !contains(
            lower,
            "implement"@,
        ) && !contains(lower, "decision"@) && !contains(lower, "adr"@) && !contains(
            lower,
            "see also"@,
        ) && !contains(lower, "related"@) && (contains(lower, "based on"@) || contains(
            lower,
            "derived from"@,
        )) ==> context_edge_type(lower) == EdgeType::BasedOn,
        !contains(lower, "supersede"@) && !contains(lower, "replace"@) && !contains(
            lower,
            "implement"@,
        ) && !contains(lower, "decision"@) && !contains(lower, "adr"@) && !contains(
            lower,
            "see also"@,
        ) && !contains(lower, "related"@) && !contains(lower, "based on"@) && !contains(
            lower,
            "derived from"@,
        ) ==> context_edge_type(lower) == EdgeType::LinksTo,
{
}

/// The edge type suggested by already lowercased link text.
pub fn edge_type_for_lowercase_context(lower: &str) -> (r: EdgeType)
    ensures
        r == context_edge_type(lower@),
{
    // Check for explicit relationship keywords
    if text_contains(lower, "supersede") || text_contains(lower, "replace") {
        return EdgeType::Supersedes;
    }
    if text_contains(lower, "implement") {
        return EdgeType::Implements;
    }
    if text_contains(lower, "decision") || text_contains(lower, "adr") {
        return EdgeType::Decision;
    }
    if text_contains(lower, "see also") || text_contains(lower, "related") {
        return EdgeType::SeeAlso;
    }
    if text_contains(lower, "based on") || text_contains(lower, "derived from") {
        return EdgeType::BasedOn;
    }
    // Default to generic link
    EdgeType::LinksTo
}

/// Determine edge type from link context (heuristic).
pub fn infer_edge_type_from_context(text: &str, _target: &str) -> (r: EdgeType)
    ensures
        r == context_edge_type(lowercase(text@)),
        all_ascii(text@) ==> r == context_edge_type(ascii_lowercase(text@)),
{
    let lower = to_lowercase(text);
    edge_type_for_lowercase_context(lower.as_str())
}

} // verus!
