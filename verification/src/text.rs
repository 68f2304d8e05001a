//! Character-level helpers shared by the scanner, the extractor and the graph.
//!
//! Text is inspected as a sequence of `char`s: a `&str` is turned into a
//! `Vec<char>` once, searched by index, and pieces of it are turned back into
//! `String`s.

use vstd::prelude::*;

verus! {

broadcast use vstd::string::group_string_axioms;

// ---------------------------------------------------------------------------
// Trusted items (std and regex)
// ---------------------------------------------------------------------------

/// `String::push` from std: appends one character to the string.
#[verifier::external_body]
pub fn push_char(s: &mut String, c: char)
    ensures
        final(s)@ == old(s)@.push(c),
{
    s.push(c);
}

/// What `str::to_lowercase` returns for a string with these characters (the
/// Unicode lowercase mapping, context-sensitive for the final sigma).
pub uninterp spec fn lowercase(s: Seq<char>) -> Seq<char>;

/// The lowercase of an ASCII character: `A`..`Z` become `a`..`z`, every
/// other character stays.
pub open spec fn ascii_lower(c: char) -> char {
    if 'A' <= c && c <= 'Z' {
        ((c as u32) + 32) as char
    } else {
        c
    }
}

/// Whether every character of `s` is ASCII.
pub open spec fn all_ascii(s: Seq<char>) -> bool {
    forall|i: int| 0 <= i < s.len() ==> (s[i] as u32) < 128
}

/// Each character of `s` lowercased on its own as ASCII.
pub open spec fn ascii_lowercase(s: Seq<char>) -> Seq<char> {
    s.map_values(|c: char| ascii_lower(c))
}

/// `str::to_lowercase` from std. The result depends on the characters alone.
/// On an all-ASCII string it lowercases each character on its own (the
/// Unicode lowercase mapping of `A`..`Z` is `a`..`z`, and every other ASCII
/// character maps to itself); beyond ASCII the mapping (Unicode tables,
/// characters that expand, the final sigma) is not written out here.
#[verifier::external_body]
pub fn to_lowercase(s: &str) -> (r: String)
    ensures
        r@ == lowercase(s@),
        all_ascii(s@) ==> r@ == ascii_lowercase(s@),
{
    s.to_lowercase()
}

/// Whether the regex class `\d` (Unicode general category Nd) holds of `c`.
pub uninterp spec fn decimal_digit(c: char) -> bool;

/// The regex crate's `\d` class, asked of a single character: the pattern
/// `^\d$` is compiled and matched against the character alone. The regex
/// documentation defines `\d` as `\p{Nd}`, which holds of the ASCII digits
/// and of no other ASCII character; beyond ASCII the membership is named by
/// `decimal_digit` and not written out.
#[verifier::external_body]
pub fn is_decimal_digit(c: char) -> (r: bool)
    ensures
        r == decimal_digit(c),
        ('0' <= c && c <= '9') ==> r,
        ((c as u32) < 128 && !('0' <= c && c <= '9')) ==> !r,
{
    let mut buf = [0u8; 4];
    match regex::Regex::new(r"^\d$") {
        Ok(re) => re.is_match(c.encode_utf8(&mut buf)),
        Err(_) => false,
    }
}

// ---------------------------------------------------------------------------
// Conversions between strings and character vectors
// ---------------------------------------------------------------------------

/// The characters of a string slice, in order.
pub fn chars_of(s: &str) -> (r: Vec<char>)
    ensures
        r@ == s@,
{
    let mut out: Vec<char> = Vec::new();
    let mut it = s.chars();
    loop
        invariant
            vstd::std_specs::iter::IteratorSpec::obeys_prophetic_iter_laws(&it),
            s@ == out@ + vstd::std_specs::iter::IteratorSpec::remaining(&it),
            vstd::std_specs::iter::IteratorSpec::decrease(&it) is Some,
        ensures
            s@ == out@,
        decreases vstd::std_specs::iter::IteratorSpec::decrease(&it)->0,
    {
        match it.next() {
            Some(c) => {
                out.push(c);
            },
            None => {
                break ;
            },
        }
    }
    out
}

/// Whether two string slices hold the same characters.
pub fn same_text(a: &str, b: &str) -> (r: bool)
    ensures
        r == (a@ == b@),
{
    let x = chars_of(a);
    let y = chars_of(b);
    if x.len() != y.len() {
        return false;
    }
    let mut i: usize = 0;
    while i < x.len()
        invariant
            x@ == a@,
            y@ == b@,
            x@.len() == y@.len(),
            i <= x@.len(),
            forall|k: int| 0 <= k < i ==> x@[k] == y@[k],
        decreases x@.len() - i,
    {
        if x[i] != y[i] {
            return false;
        }
        i = i + 1;
    }
    assert(x@ =~= y@);
    true
}

/// A string holding the characters `v[from..to]`.
pub fn string_of_range(v: &Vec<char>, from: usize, to: usize) -> (r: String)
    requires
        from <= to <= v@.len(),
    ensures
        r@ == v@.subrange(from as int, to as int),
{
    let mut s = String::new();
    let mut i: usize = from;
    while i < to
        invariant
            from <= i <= to <= v@.len(),
            s@ == v@.subrange(from as int, i as int),
        decreases to - i,
    {
        push_char(&mut s, v[i]);
        i = i + 1;
        assert(v@.subrange(from as int, i as int) == v@.subrange(from as int, i - 1).push(
            v@[i - 1],
        ));
    }
    s
}

/// A string holding exactly the given characters.
pub fn string_of(v: &Vec<char>) -> (r: String)
    ensures
        r@ == v@,
{
    let r = string_of_range(v, 0, v.len());
    assert(v@.subrange(0, v@.len() as int) == v@);
    r
}

/// Appends the characters of `v` to `s`.
pub fn push_all(s: &mut String, v: &Vec<char>)
    ensures
        final(s)@ == old(s)@ + v@,
{
    let mut i: usize = 0;
    while i < v.len()
        invariant
            i <= v@.len(),
            s@ == old(s)@ + v@.take(i as int),
        decreases v@.len() - i,
    {
        push_char(s, v[i]);
        i = i + 1;
        assert(v@.take(i as int) == v@.take(i - 1).push(v@[i - 1]));
    }
    assert(v@.take(v@.len() as int) == v@);
}

/// Appends the characters of `t` to `s`.
pub fn push_str(s: &mut String, t: &str)
    ensures
        final(s)@ == old(s)@ + t@,
{
    let v = chars_of(t);
    push_all(s, &v);
}

/// A copy of a string.
pub fn copy_string(s: &String) -> (r: String)
    ensures
        r@ == s@,
{
    s.clone()
}

/// A copy of an optional string.
pub fn copy_opt_string(s: &Option<String>) -> (r: Option<String>)
    ensures
        r == *s,
{
    match s {
        Some(t) => Some(t.clone()),
        None => None,
    }
}

/// A copy of a list of strings.
pub fn copy_strings(v: &Vec<String>) -> (r: Vec<String>)
    ensures
        r@ == v@,
{
    let mut out: Vec<String> = Vec::new();
    let mut i: usize = 0;
    while i < v.len()
        invariant
            i <= v@.len(),
            out@.len() == i,
            forall|j: int| 0 <= j < i ==> out@[j] == v@[j],
        decreases v@.len() - i,
    {
        out.push(v[i].clone());
        i = i + 1;
    }
    assert(out@ =~= v@);
    out
}

// ---------------------------------------------------------------------------
// Searching
// ---------------------------------------------------------------------------

/// `pat` occurs in `hay` at index `i`.
pub open spec fn matches_at(hay: Seq<char>, pat: Seq<char>, i: int) -> bool {
    0 <= i && i + pat.len() <= hay.len() && hay.subrange(i, i + pat.len()) == pat
}

/// `pat` occurs somewhere in `hay` (`str::contains`).
pub open spec fn contains(hay: Seq<char>, pat: Seq<char>) -> bool {
    exists|i: int| matches_at(hay, pat, i)
}

/// The first index at or after `i` at which `pat` occurs in `hay`
/// (`str::find` when `i` is 0).
pub open spec fn find_from(hay: Seq<char>, pat: Seq<char>, i: int) -> Option<int>
    decreases hay.len() + 1 - i,
{
    if i < 0 || i + pat.len() > hay.len() {
        None
    } else if matches_at(hay, pat, i) {
        Some(i)
    } else {
        find_from(hay, pat, i + 1)
    }
}

/// What `find_from` returns: the first occurrence at or after `i`.
pub proof fn lemma_find_from(hay: Seq<char>, pat: Seq<char>, i: int)
    requires
        0 <= i,
    ensures
        match find_from(hay, pat, i) {
            Some(k) => i <= k && matches_at(hay, pat, k) && forall|j: int|
                i <= j < k ==> !matches_at(hay, pat, j),
            None => forall|j: int| i <= j ==> !matches_at(hay, pat, j),
        },
    decreases hay.len() + 1 - i,
{
    if i + pat.len() > hay.len() {
    } else if matches_at(hay, pat, i) {
    } else {
        lemma_find_from(hay, pat, i + 1);
    }
}

/// `find_from` from 0 is `Some` exactly when `pat` occurs in `hay`.
pub proof fn lemma_find_contains(hay: Seq<char>, pat: Seq<char>)
    ensures
        find_from(hay, pat, 0) is Some <==> contains(hay, pat),
{
    lemma_find_from(hay, pat, 0);
    if let Some(k) = find_from(hay, pat, 0) {
        assert(matches_at(hay, pat, k));
    }
}

/// Whether `pat` occurs in `hay` at index `at`.
pub fn occurs_at(hay: &Vec<char>, pat: &Vec<char>, at: usize) -> (r: bool)
    ensures
        r == matches_at(hay@, pat@, at as int),
{
    if at > hay.len() || pat.len() > hay.len() - at {
        return false;
    }
    let n = hay.len();
    let mut k: usize = 0;
    while k < pat.len()
        invariant
            n == hay@.len(),
            at + pat@.len() <= hay@.len(),
            k <= pat@.len(),
            forall|j: int| 0 <= j < k ==> hay@[at + j] == pat@[j],
        decreases pat@.len() - k,
    {
        assert(at + k < hay@.len());
        if hay[at + k] != pat[k] {
            assert(hay@.subrange(at as int, at + pat@.len())[k as int] != pat@[k as int]);
            return false;
        }
        k = k + 1;
    }
    assert(hay@.subrange(at as int, at + pat@.len()) =~= pat@);
    true
}

/// The first index at or after `from` at which `pat` occurs in `hay`.
pub fn find(hay: &Vec<char>, pat: &Vec<char>, from: usize) -> (r: Option<usize>)
    ensures
        match r {
            Some(k) => find_from(hay@, pat@, from as int) == Some(k as int),
            None => find_from(hay@, pat@, from as int) is None,
        },
{
    if pat.len() == 0 {
        if from <= hay.len() {
            assert(hay@.subrange(from as int, from as int) =~= pat@);
            return Some(from);
        }
        return None;
    }
    let mut i: usize = from;
    while i <= hay.len() && pat.len() <= hay.len() - i
        invariant
            from <= i,
            pat@.len() >= 1,
            find_from(hay@, pat@, from as int) == find_from(hay@, pat@, i as int),
        decreases hay@.len() + 1 - i,
    {
        if occurs_at(hay, pat, i) {
            return Some(i);
        }
        i = i + 1;
    }
    None
}

/// Whether `pat` occurs anywhere in `hay`.
pub fn contains_chars(hay: &Vec<char>, pat: &Vec<char>) -> (r: bool)
    ensures
        r == contains(hay@, pat@),
{
    proof {
        lemma_find_contains(hay@, pat@);
    }
    find(hay, pat, 0).is_some()
}

/// Whether the text `pat` occurs anywhere in the text `hay`.
pub fn text_contains(hay: &str, pat: &str) -> (r: bool)
    ensures
        r == contains(hay@, pat@),
{
    let h = chars_of(hay);
    let p = chars_of(pat);
    contains_chars(&h, &p)
}

// ---------------------------------------------------------------------------
// Whitespace and runs of characters
// ---------------------------------------------------------------------------

/// The Unicode `White_Space` property (`char::is_whitespace`).
pub open spec fn is_white_space(c: char) -> bool {
    ||| ('\u{9}' <= c && c <= '\u{d}')
    ||| c == ' '
    ||| c == '\u{85}'
    ||| c == '\u{a0}'
    ||| c == '\u{1680}'
    ||| ('\u{2000}' <= c && c <= '\u{200a}')
    ||| c == '\u{2028}'
    ||| c == '\u{2029}'
    ||| c == '\u{202f}'
    ||| c == '\u{205f}'
    ||| c == '\u{3000}'
}

/// `char::is_whitespace`.
pub fn is_white_space_char(c: char) -> (r: bool)
    ensures
        r == is_white_space(c),
{
    ('\u{9}' <= c && c <= '\u{d}') || c == ' ' || c == '\u{85}' || c == '\u{a0}' || c
        == '\u{1680}' || ('\u{2000}' <= c && c <= '\u{200a}') || c == '\u{2028}' || c
        == '\u{2029}' || c == '\u{202f}' || c == '\u{205f}' || c == '\u{3000}'
}

/// The index of the first non-whitespace character at or after `i`
/// (the length of `s` if there is none).
pub open spec fn skip_white_space(s: Seq<char>, i: int) -> int
    decreases s.len() - i,
{
    if 0 <= i < s.len() && is_white_space(s[i]) {
        skip_white_space(s, i + 1)
    } else {
        i
    }
}

/// The index of the first non-whitespace character at or after `from`.
pub fn skip_white_space_from(s: &Vec<char>, from: usize) -> (r: usize)
    requires
        from <= s@.len(),
    ensures
        r == skip_white_space(s@, from as int),
        from <= r <= s@.len(),
{
    let mut i = from;
    while i < s.len() && is_white_space_char(s[i])
        invariant
            from <= i <= s@.len(),
            skip_white_space(s@, from as int) == skip_white_space(s@, i as int),
        decreases s@.len() - i,
    {
        i = i + 1;
    }
    i
}

/// Every character of `s` is whitespace (`s.trim().is_empty()`).
pub open spec fn all_white_space(s: Seq<char>) -> bool {
    forall|i: int| 0 <= i < s.len() ==> is_white_space(s[i])
}

/// The index of the first character at or after `i` that is not `c`.
pub open spec fn skip_char(s: Seq<char>, i: int, c: char) -> int
    decreases s.len() - i,
{
    if 0 <= i < s.len() && s[i] == c {
        skip_char(s, i + 1, c)
    } else {
        i
    }
}

/// The index of the first character at or after `from` that is not `c`.
pub fn skip_char_from(s: &Vec<char>, from: usize, c: char) -> (r: usize)
    requires
        from <= s@.len(),
    ensures
        r == skip_char(s@, from as int, c),
        from <= r <= s@.len(),
{
    let mut i = from;
    while i < s.len() && s[i] == c
        invariant
            from <= i <= s@.len(),
            skip_char(s@, from as int, c) == skip_char(s@, i as int, c),
        decreases s@.len() - i,
    {
        i = i + 1;
    }
    i
}

/// The first index at or after `i` holding `c`, if any.
pub open spec fn find_char(s: Seq<char>, i: int, c: char) -> Option<int>
    decreases s.len() - i,
{
    if i < 0 || i >= s.len() {
        None
    } else if s[i] == c {
        Some(i)
    } else {
        find_char(s, i + 1, c)
    }
}

/// What `find_char` returns.
pub proof fn lemma_find_char(s: Seq<char>, i: int, c: char)
    requires
        0 <= i,
    ensures
        match find_char(s, i, c) {
            Some(k) => i <= k < s.len() && s[k] == c && forall|j: int| i <= j < k ==> s[j] != c,
            None => forall|j: int| i <= j < s.len() ==> s[j] != c,
        },
    decreases s.len() - i,
{
    if i < s.len() && s[i] != c {
        lemma_find_char(s, i + 1, c);
    }
}

/// The first index at or after `from` holding `c`, if any.
pub fn find_char_from(s: &Vec<char>, from: usize, c: char) -> (r: Option<usize>)
    ensures
        match r {
            Some(k) => find_char(s@, from as int, c) == Some(k as int),
            None => find_char(s@, from as int, c) is None,
        },
{
    let mut i = from;
    while i < s.len()
        invariant
            from <= i,
            find_char(s@, from as int, c) == find_char(s@, i as int, c),
        decreases s@.len() - i,
    {
        if s[i] == c {
            return Some(i);
        }
        i = i + 1;
    }
    None
}


/// `p` is a prefix of the text `s` (`str::starts_with`).
pub fn starts_with(s: &str, p: &str) -> (r: bool)
    ensures
        r == p@.is_prefix_of(s@),
{
    let sv = chars_of(s);
    let pv = chars_of(p);
    let r = occurs_at(&sv, &pv, 0);
    proof {
        if r {
            assert(pv@ =~= sv@.subrange(0, pv@.len() as int));
        }
        if pv@.is_prefix_of(sv@) {
            assert(sv@.subrange(0, pv@.len() as int) =~= pv@);
        }
    }
    r
}

/// `p` is a suffix of the text `s` (`str::ends_with`).
pub fn ends_with(s: &str, p: &str) -> (r: bool)
    ensures
        r == p@.is_suffix_of(s@),
{
    let sv = chars_of(s);
    let pv = chars_of(p);
    if pv.len() > sv.len() {
        return false;
    }
    let at = sv.len() - pv.len();
    let r = occurs_at(&sv, &pv, at);
    proof {
        if r {
            assert(pv@ =~= sv@.subrange(at as int, sv@.len() as int));
        }
        if pv@.is_suffix_of(sv@) {
            assert(sv@.subrange(at as int, at + pv@.len()) =~= pv@);
        }
    }
    r
}

// ---------------------------------------------------------------------------
// UTF-8 byte offsets
// ---------------------------------------------------------------------------

/// The byte offset at which the character with index `i` starts in the
/// UTF-8 encoding of `s`.
pub open spec fn byte_offset(s: Seq<char>, i: int) -> int {
    vstd::utf8::encode_utf8(s.take(i)).len() as int
}

/// Encoding a concatenation encodes each part.
pub proof fn lemma_encode_concat(a: Seq<char>, b: Seq<char>)
    ensures
        vstd::utf8::encode_utf8(a + b) == vstd::utf8::encode_utf8(a) + vstd::utf8::encode_utf8(b),
    decreases a.len(),
{
    if a.len() == 0 {
        assert(a + b =~= b);
        assert(vstd::utf8::encode_utf8(a) =~= Seq::<u8>::empty());
        assert(vstd::utf8::encode_utf8(a) + vstd::utf8::encode_utf8(b) =~= vstd::utf8::encode_utf8(b));
    } else {
        assert((a + b).drop_first() =~= a.drop_first() + b);
        lemma_encode_concat(a.drop_first(), b);
        assert(vstd::utf8::encode_utf8(a + b) =~= vstd::utf8::encode_scalar(a[0] as u32)
            + vstd::utf8::encode_utf8(a.drop_first() + b));
    }
}

/// Byte offsets grow strictly with the character index, and never pass the
/// length of the whole encoding.
pub proof fn lemma_byte_offset_increases(s: Seq<char>, i: int, j: int)
    requires
        0 <= i < j <= s.len(),
    ensures
        0 <= byte_offset(s, i) < byte_offset(s, j) <= vstd::utf8::encode_utf8(s).len(),
{
    let t = s.subrange(i, j);
    assert(s.take(j) =~= s.take(i) + t);
    lemma_encode_concat(s.take(i), t);
    assert(vstd::utf8::encode_utf8(t).len() >= 1);
    assert(s =~= s.take(j) + s.skip(j));
    lemma_encode_concat(s.take(j), s.skip(j));
}

/// The number of bytes in the UTF-8 encoding of `c`.
pub fn utf8_width(c: char) -> (r: usize)
    ensures
        r == vstd::utf8::encode_scalar(c as u32).len(),
        1 <= r <= 4,
{
    proof {
        vstd::utf8::char_is_scalar(c);
    }
    let u = c as u32;
    if u < 0x80 {
        1
    } else if u < 0x800 {
        2
    } else if u < 0x10000 {
        3
    } else {
        4
    }
}

/// The byte offsets of every character boundary of `text`: entry `i` is the
/// offset of the character with index `i`, and the last entry is the byte
/// length of `text`.
pub fn byte_offsets(text: &str, s: &Vec<char>) -> (r: Vec<usize>)
    requires
        s@ == text@,
    ensures
        r@.len() == s@.len() + 1,
        forall|i: int| 0 <= i <= s@.len() ==> r@[i] == byte_offset(s@, i),
        forall|i: int, j: int| 0 <= i <= j <= s@.len() ==> r@[i] <= r@[j],
{
    let total = text.as_bytes().len();
    let mut r: Vec<usize> = Vec::new();
    r.push(0);
    assert(vstd::utf8::encode_utf8(s@.take(0)) =~= Seq::<u8>::empty());
    let mut i: usize = 0;
    while i < s.len()
        invariant
            i <= s@.len(),
            s@ == text@,
            total == vstd::utf8::encode_utf8(s@).len(),
            r@.len() == i + 1,
            forall|k: int| 0 <= k <= i ==> r@[k] == byte_offset(s@, k),
            forall|k: int, j: int| 0 <= k <= j <= i ==> r@[k] <= r@[j],
        decreases s@.len() - i,
    {
        let w = utf8_width(s[i]);
        proof {
            assert(s@.take(i + 1) =~= s@.take(i as int) + seq![s@[i as int]]);
            lemma_encode_concat(s@.take(i as int), seq![s@[i as int]]);
            assert(seq![s@[i as int]].drop_first() =~= Seq::<char>::empty());
            assert(vstd::utf8::encode_utf8(Seq::<char>::empty()) =~= Seq::<u8>::empty());
            assert(vstd::utf8::encode_utf8(seq![s@[i as int]]) =~= vstd::utf8::encode_scalar(
                s@[i as int] as u32,
            ));
            assert(s@ =~= s@.take(i + 1) + s@.skip(i + 1));
            lemma_encode_concat(s@.take(i + 1), s@.skip(i + 1));
        }
        let next = r[i] + w;
        r.push(next);
        i = i + 1;
    }
    r
}

} // verus!
