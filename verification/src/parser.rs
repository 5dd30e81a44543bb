//! Markdown note parser.
//!
//! Extracts from a `.md` text:
//! - the YAML front matter block (the first `---` fenced block),
//! - wiki links `[[target]]`, `[[target|alias]]`, `[[target#heading]]`,
//!   `[[target#heading|alias]]`, with 1-based line numbers and line context,
//! - inline tags `#tag` / `#nested/tag`, skipping fenced code blocks,
//!   Markdown headings and URL fragments,
//! - the plain text of the body.
//!
//! The wiki-link and tag grammars are the ones the patterns
//! `\[\[([^\[\]\n]+?)\]\]` and `(?:^|[\s(>])#([A-Za-z_][\w/\-]*)` describe,
//! scanned leftmost-first and without overlap, one line at a time.
//! Decoding the YAML itself is the caller's job: [`front_matter_block`] hands
//! out the block, and [`parse`] takes the decoded [`FrontMatter`].

use vstd::prelude::*;
use crate::markdown::{extract_text, markdown_text};
use crate::text::{
    alphanumeric, chars_of, find, find_from, find_in, is_alnum, is_white, lines_of, push_char,
    skip_white, skip_white_back, split_lines, string_of, string_of_range, trim, trim_bounds,
    trim_end, trim_start, trimmed_string, white_space,
};

verus! {

/// Maximum number of characters kept from a line as a link's context.
pub const CONTEXT_MAX: usize = 200;

/// One wiki link found in a note.
#[derive(Debug, Clone)]
pub struct WikiLink {
    /// The whole `[[...]]` text, brackets included.
    pub raw: String,
    /// The link target (title or path).
    pub target: String,
    /// The `|alias` part.
    pub alias: Option<String>,
    /// The `#heading` anchor.
    pub heading: Option<String>,
    /// Line of the link (1-based).
    pub line: usize,
    /// The line's text, trimmed and cut to [`CONTEXT_MAX`] characters (plus `…`).
    pub context: String,
}

/// Mathematical model of a [`WikiLink`].
pub struct WikiLinkView {
    pub raw: Seq<char>,
    pub target: Seq<char>,
    pub alias: Option<Seq<char>>,
    pub heading: Option<Seq<char>>,
    pub line: int,
    pub context: Seq<char>,
}

impl View for WikiLink {
    type V = WikiLinkView;

    open spec fn view(&self) -> WikiLinkView {
        WikiLinkView {
            raw: self.raw@,
            target: self.target@,
            alias: self.alias.deep_view(),
            heading: self.heading.deep_view(),
            line: self.line as int,
            context: self.context@,
        }
    }
}

/// The models of a sequence of links.
pub open spec fn link_views(links: Seq<WikiLink>) -> Seq<WikiLinkView> {
    links.map_values(|l: WikiLink| l@)
}

/// The part of `s` after index `i` (empty when `i` is past the end).
pub open spec fn after(s: Seq<char>, i: int) -> Seq<char> {
    if i < s.len() {
        s.subrange(i + 1, s.len() as int)
    } else {
        Seq::<char>::empty()
    }
}

/// Splits the inside of a wiki link into `(target, heading, alias)`, each trimmed.
///
/// The `#heading` is cut first, at the first `#`; a `|` after it ends the
/// heading and starts the alias. Without such a `|`, an alias is the part of
/// the head after its first `|`.
/// - `note#section|alias` gives `("note", Some("section"), Some("alias"))`
/// - `note#section` gives `("note", Some("section"), None)`
/// - `note|alias` gives `("note", None, Some("alias"))`
/// - `note` gives `("note", None, None)`
pub open spec fn link_parts(inner: Seq<char>) -> (Seq<char>, Option<Seq<char>>, Option<Seq<char>>) {
    let h = find(inner, '#');
    let head = inner.subrange(0, h);
    let rest = after(inner, h);
    let b = find(rest, '|');
    let heading = if b < rest.len() {
        Some(rest.subrange(0, b))
    } else if rest.len() == 0 {
        None
    } else {
        Some(rest)
    };
    let a = find(head, '|');
    let alias = if b < rest.len() {
        Some(after(rest, b))
    } else if a < head.len() {
        Some(after(head, a))
    } else {
        None
    };
    (
        trim(head.subrange(0, a)),
        match heading {
            Some(x) => Some(trim(x)),
            None => None,
        },
        match alias {
            Some(x) => Some(trim(x)),
            None => None,
        },
    )
}

/// `v[lo..hi]` read from offset `a..b` within it is `v[lo+a..lo+b]`.
proof fn lemma_sub_sub(v: Seq<char>, lo: int, hi: int, a: int, b: int)
    requires
        0 <= lo <= hi <= v.len(),
        0 <= a <= b <= hi - lo,
    ensures
        v.subrange(lo, hi).subrange(a, b) == v.subrange(lo + a, lo + b),
{
    assert(v.subrange(lo, hi).subrange(a, b) =~= v.subrange(lo + a, lo + b));
}

/// `Some(trimmed v[lo..hi])` when `present`, else `None`.
fn trimmed_option(v: &Vec<char>, present: bool, lo: usize, hi: usize) -> (r: Option<String>)
    requires
        present ==> lo <= hi <= v.len(),
    ensures
        r.deep_view() == (if present {
            Some(trim(v@.subrange(lo as int, hi as int)))
        } else {
            None
        }),
{
    if present {
        Some(trimmed_string(v, lo, hi))
    } else {
        None
    }
}

/// Splits the inside of a wiki link, `v[lo..hi]`, into `(target, heading, alias)`.
pub fn split_link_target_in(v: &Vec<char>, lo: usize, hi: usize) -> (r: (
    String,
    Option<String>,
    Option<String>,
))
    requires
        lo <= hi <= v.len(),
    ensures
        r.deep_view() == link_parts(v@.subrange(lo as int, hi as int)),
{
    let ghost inner = v@.subrange(lo as int, hi as int);
    let h = find_in(v, '#', lo, hi);
    let rest_lo = if h < hi {
        h + 1
    } else {
        hi
    };
    let b = find_in(v, '|', rest_lo, hi);
    let a = find_in(v, '|', lo, h);
    let target = trimmed_string(v, lo, a);
    let heading = if b < hi {
        trimmed_option(v, true, rest_lo, b)
    } else {
        trimmed_option(v, rest_lo < hi, rest_lo, hi)
    };
    let alias = if b < hi {
        trimmed_option(v, true, b + 1, hi)
    } else {
        let alias_lo = if a < h {
            a + 1
        } else {
            h
        };
        trimmed_option(v, a < h, alias_lo, h)
    };
    proof {
        let hh = h - lo;
        let head = inner.subrange(0, hh);
        let rest = after(inner, hh);
        lemma_sub_sub(v@, lo as int, hi as int, 0, hh);
        lemma_sub_sub(v@, lo as int, hi as int, rest_lo - lo, hi - lo);
        assert(rest == v@.subrange(rest_lo as int, hi as int));
        lemma_sub_sub(v@, lo as int, h as int, 0, a - lo);
        if b < hi {
            lemma_sub_sub(v@, rest_lo as int, hi as int, 0, b - rest_lo);
            lemma_sub_sub(v@, rest_lo as int, hi as int, b + 1 - rest_lo, hi - rest_lo);
        }
        if a < h {
            lemma_sub_sub(v@, lo as int, h as int, a + 1 - lo, h - lo);
        }
    }
    (target, heading, alias)
}

/// `s` with one `[[` `]]` wrapping removed, when it has both.
pub open spec fn unwrap_brackets(s: Seq<char>) -> Seq<char> {
    if s.len() >= 4 && s[0] == '[' && s[1] == '[' && s[s.len() - 2] == ']' && s[s.len() - 1] == ']' {
        s.subrange(2, s.len() - 2)
    } else {
        s
    }
}

/// The target named by a piece of wiki-link text such as `[[note]]`, `note`,
/// `[[note#heading]]`, `[[note|alias]]` or `[[note#heading|alias]]`.
pub open spec fn link_target_of(text: Seq<char>) -> Seq<char> {
    link_parts(unwrap_brackets(trim(text))).0
}

/// Extracts the target from a piece of wiki-link text; see [`link_target_of`].
pub fn extract_link_target(text: &str) -> (r: String)
    ensures
        r@ == link_target_of(text@),
{
    let v = chars_of(text);
    let (a, b) = trim_bounds(&v, 0, v.len());
    let ghost t = v@.subrange(a as int, b as int);
    proof {
        assert(v@.subrange(0, v@.len() as int) =~= v@);
    }
    let (lo, hi) = if b - a >= 4 && v[a] == '[' && v[a + 1] == '[' && v[b - 2] == ']' && v[b - 1]
        == ']' {
        (a + 2, b - 2)
    } else {
        (a, b)
    };
    proof {
        lemma_sub_sub(v@, a as int, b as int, lo - a, hi - a);
    }
    let (target, _heading, _alias) = split_link_target_in(&v, lo, hi);
    target
}

/// A line's context: trimmed, and cut to [`CONTEXT_MAX`] characters plus `…` when longer.
pub open spec fn context_of(line: Seq<char>) -> Seq<char> {
    let t = trim(line);
    if t.len() > CONTEXT_MAX {
        t.take(CONTEXT_MAX as int).push('…')
    } else {
        t
    }
}

/// The context snippet of the line `v[lo..hi]`; see [`context_of`].
pub fn context_in(v: &Vec<char>, lo: usize, hi: usize) -> (r: String)
    requires
        lo <= hi <= v.len(),
    ensures
        r@ == context_of(v@.subrange(lo as int, hi as int)),
{
    let (a, b) = trim_bounds(v, lo, hi);
    if b - a > CONTEXT_MAX {
        let mut s = string_of_range(v, a, a + CONTEXT_MAX);
        push_char(&mut s, '…');
        proof {
            lemma_sub_sub(v@, a as int, b as int, 0, CONTEXT_MAX as int);
        }
        s
    } else {
        string_of_range(v, a, b)
    }
}

} // verus!

verus! {

/// Characters that cannot appear inside `[[...]]`.
pub open spec fn wiki_stop(c: char) -> bool {
    c == '[' || c == ']' || c == '\n'
}

/// Number of consecutive characters from `q` that may appear inside `[[...]]`.
pub open spec fn wiki_inner_len(l: Seq<char>, q: int) -> nat
    decreases l.len() - q,
{
    if 0 <= q < l.len() && !wiki_stop(l[q]) {
        1 + wiki_inner_len(l, q + 1)
    } else {
        0
    }
}

/// End (exclusive) of the wiki link that starts at `p` in line `l`, if one does.
pub open spec fn wiki_match_end(l: Seq<char>, p: int) -> Option<int> {
    if 0 <= p && p + 1 < l.len() && l[p] == '[' && l[p + 1] == '[' {
        let j = p + 2 + wiki_inner_len(l, p + 2);
        if j > p + 2 && j < l.len() && l.len() - j > 1 && l[j] == ']' && l[j + 1] == ']' {
            Some(j + 2)
        } else {
            None
        }
    } else {
        None
    }
}

/// Spans `(start, end)` of the wiki links of line `l` found by scanning from `p`:
/// leftmost first, each search resuming where the previous link ended.
pub open spec fn wiki_spans(l: Seq<char>, p: int) -> Seq<(int, int)>
    decreases l.len() - p,
{
    if p < 0 || p >= l.len() {
        Seq::<(int, int)>::empty()
    } else {
        match wiki_match_end(l, p) {
            Some(e) => seq![(p, e)] + wiki_spans(l, e),
            None => wiki_spans(l, p + 1),
        }
    }
}

/// The link described by span `sp` of line `l`, which is line number `n`.
pub open spec fn link_of_span(l: Seq<char>, sp: (int, int), n: int) -> WikiLinkView {
    let parts = link_parts(l.subrange(sp.0 + 2, sp.1 - 2));
    WikiLinkView {
        raw: l.subrange(sp.0, sp.1),
        target: parts.0,
        heading: parts.1,
        alias: parts.2,
        line: n,
        context: context_of(l),
    }
}

/// The links of the spans `sps` of line `l` (line number `n`).
pub open spec fn links_of_spans(l: Seq<char>, sps: Seq<(int, int)>, n: int) -> Seq<WikiLinkView> {
    sps.map_values(|sp: (int, int)| link_of_span(l, sp, n))
}

/// The links of the first `k` of `lines`, in order.
pub open spec fn links_of_lines(lines: Seq<Seq<char>>, k: int) -> Seq<WikiLinkView>
    decreases k,
{
    if k <= 0 {
        Seq::<WikiLinkView>::empty()
    } else {
        links_of_lines(lines, k - 1) + links_of_spans(lines[k - 1], wiki_spans(lines[k - 1], 0), k)
    }
}

/// All wiki links of `body`, line by line, in order.
pub open spec fn wiki_links(body: Seq<char>) -> Seq<WikiLinkView> {
    links_of_lines(split_lines(body), split_lines(body).len() as int)
}

/// The end of the wiki link starting at `p` in `l`, if one does.
fn wiki_match_at(l: &Vec<char>, p: usize) -> (r: Option<usize>)
    requires
        p < l.len(),
    ensures
        r.is_some() == wiki_match_end(l@, p as int).is_some(),
        r matches Some(e) ==> wiki_match_end(l@, p as int) == Some(e as int) && p + 4 < e <= l.len(),
{
    if p + 1 < l.len() && l[p] == '[' && l[p + 1] == '[' {
        let mut j = p + 2;
        while j < l.len() && !(l[j] == '[' || l[j] == ']' || l[j] == '\n')
            invariant
                p + 2 <= j <= l.len(),
                p + 2 + wiki_inner_len(l@, p + 2) == j + wiki_inner_len(l@, j as int),
            decreases l.len() - j,
        {
            j += 1;
        }
        if j > p + 2 && j < l.len() && l.len() - j > 1 && l[j] == ']' && l[j + 1] == ']' {
            Some(j + 2)
        } else {
            None
        }
    } else {
        None
    }
}

/// [`extract_wiki_links`] on the characters of a text.
pub fn wiki_links_in(content: &Vec<char>) -> (r: Vec<WikiLink>)
    ensures
        link_views(r@) == wiki_links(content@),
{
    let lines = lines_of(content);
    let ghost ls = split_lines(content@);
    let mut out: Vec<WikiLink> = Vec::new();
    let mut i: usize = 0;
    while i < lines.len()
        invariant
            i <= lines.len() == ls.len(),
            forall|k: int| 0 <= k < lines.len() ==> (#[trigger] lines[k])@ == ls[k],
            link_views(out@) == links_of_lines(ls, i as int),
        decreases lines.len() - i,
    {
        let l = &lines[i];
        let ghost target = links_of_lines(ls, i + 1);
        let ghost lv = l@;
        let ghost n = i + 1;
        assert(ls[i as int] == lv);
        let mut p: usize = 0;
        while p < l.len()
            invariant
                p <= l.len(),
                i < lines.len(),
                n == i + 1,
                l@ == lv,
                link_views(out@) + links_of_spans(lv, wiki_spans(lv, p as int), n) == target,
            decreases l.len() - p,
        {
            let ghost before = out@;
            match wiki_match_at(l, p) {
                Some(e) => {
                    let raw = string_of_range(l, p, e);
                    let parts = split_link_target_in(l, p + 2, e - 2);
                    let (target_s, heading, alias) = parts;
                    let context = context_in(l, 0, l.len());
                    proof {
                        assert(lv.subrange(0, lv.len() as int) =~= lv);
                        let lp = link_parts(lv.subrange(p + 2, e - 2));
                        assert(target_s@ == lp.0);
                        assert(heading.deep_view() == lp.1);
                        assert(alias.deep_view() == lp.2);
                    }
                    let link = WikiLink {
                        raw,
                        target: target_s,
                        alias,
                        heading,
                        line: i + 1,
                        context,
                    };
                    out.push(link);
                    proof {
                        let rest = wiki_spans(lv, e as int);
                        assert(wiki_spans(lv, p as int) == seq![(p as int, e as int)] + rest);
                        assert(link@ == link_of_span(lv, (p as int, e as int), n));
                        assert(links_of_spans(lv, seq![(p as int, e as int)] + rest, n) =~= seq![
                            link@,
                        ] + links_of_spans(lv, rest, n));
                        assert(link_views(out@) =~= link_views(before).push(link@));
                        assert(link_views(out@) + links_of_spans(lv, rest, n) =~= link_views(before)
                            + links_of_spans(lv, seq![(p as int, e as int)] + rest, n));
                    }
                    p = e;
                },
                None => {
                    p += 1;
                },
            }
        }
        proof {
            assert(wiki_spans(lv, p as int) == Seq::<(int, int)>::empty());
            assert(links_of_spans(lv, Seq::<(int, int)>::empty(), n) =~= Seq::<WikiLinkView>::empty());
            assert(link_views(out@) =~= link_views(out@) + Seq::<WikiLinkView>::empty());
        }
        i += 1;
    }
    out
}

} // verus!

verus! {

/// Whether `c` is a Unicode word character (the class `\w` of the `regex` crate).
pub uninterp spec fn regex_word_char(c: char) -> bool;

/// Calls `regex_syntax::is_word_character`; the result is the named predicate
/// `regex_word_char(c)`. The function panics only without the crate's
/// `unicode-perl` feature, which its default features (used here) enable.
/// Stated too: a word character is `Alphabetic`, `Join_Control`, a decimal
/// number, a mark or connector punctuation, which among ASCII characters
/// are the letters, the digits and `_`.
#[verifier::external_body]
pub(crate) fn is_word_char(c: char) -> (r: bool)
    ensures
        r == regex_word_char(c),
        (c as u32) < 128 ==> (r <==> (crate::text::ascii_alnum(c) || c == '_')),
{
    regex_syntax::is_word_character(c)
}

/// First character of a tag name: an ASCII letter or `_`.
pub open spec fn tag_head(c: char) -> bool {
    ('A' <= c && c <= 'Z') || ('a' <= c && c <= 'z') || c == '_'
}

/// Further characters of a tag name: word characters (`\\w`; among ASCII
/// characters the letters, the digits and `_`), `/` and `-`.
pub open spec fn tag_body(c: char) -> bool {
    if (c as u32) < 128 {
        crate::text::ascii_alnum(c) || c == '_' || c == '/' || c == '-'
    } else {
        regex_word_char(c)
    }
}

/// Characters that may stand right before a tag's `#`: whitespace, `(` and `>`.
pub open spec fn tag_lead(c: char) -> bool {
    white_space(c) || c == '(' || c == '>'
}

/// Number of consecutive tag-body characters from `q`.
pub open spec fn tag_body_len(l: Seq<char>, q: int) -> nat
    decreases l.len() - q,
{
    if 0 <= q < l.len() && tag_body(l[q]) {
        1 + tag_body_len(l, q + 1)
    } else {
        0
    }
}

/// The tag whose match starts at `p` in line `l`, as `(name start, name end)`.
/// A match is `#name` at the very start of the line, or a lead character followed by `#name`.
pub open spec fn tag_match(l: Seq<char>, p: int) -> Option<(int, int)> {
    if p == 0 && 1 < l.len() && l[0] == '#' && tag_head(l[1]) {
        Some((1, 2 + tag_body_len(l, 2) as int))
    } else if 0 <= p && p + 2 < l.len() && tag_lead(l[p]) && l[p + 1] == '#' && tag_head(l[p + 2]) {
        Some((p + 2, p + 3 + tag_body_len(l, p + 3) as int))
    } else {
        None
    }
}

/// A run of tag-body characters stays within the line.
pub proof fn lemma_tag_body_len_bound(l: Seq<char>, q: int)
    ensures
        0 <= q <= l.len() ==> q + tag_body_len(l, q) <= l.len(),
    decreases l.len() - q,
{
    if 0 <= q < l.len() && tag_body(l[q]) {
        lemma_tag_body_len_bound(l, q + 1);
    }
}

/// The tag matches of line `l` found by scanning from `p`, as
/// `(match start, name start, name end)`: leftmost first, without overlap.
pub open spec fn tag_spans(l: Seq<char>, p: int) -> Seq<(int, int, int)>
    decreases l.len() - p,
{
    if p < 0 || p >= l.len() {
        Seq::<(int, int, int)>::empty()
    } else {
        match tag_match(l, p) {
            Some(t) => {
                proof {
                    lemma_tag_body_len_bound(l, p + 2);
                    lemma_tag_body_len_bound(l, p + 3);
                }
                seq![(p, t.0, t.1)] + tag_spans(l, t.1)
            },
            None => tag_spans(l, p + 1),
        }
    }
}

/// A Markdown heading line: after leading whitespace, `#` followed by the end
/// of the line or by a character that is neither alphanumeric nor `_`.
pub open spec fn is_heading_line(l: Seq<char>) -> bool {
    let t = trim_start(l);
    t.len() > 0 && t[0] == '#' && (t.len() == 1 || (!alphanumeric(t[1]) && t[1] != '_'))
}

/// Whether `://` starts at index `k` of `l`.
pub open spec fn url_at(l: Seq<char>, k: int) -> bool {
    0 <= k && k + 2 < l.len() && l[k] == ':' && l[k + 1] == '/' && l[k + 2] == '/'
}

/// Index of the first `://` in `l` at or after `k`, or `l.len()`.
pub open spec fn find_url_from(l: Seq<char>, k: int) -> int
    decreases l.len() - k,
{
    if k >= l.len() || url_at(l, k) {
        k
    } else {
        find_url_from(l, k + 1)
    }
}

/// Where the URL fragment of line `l` starts: the first `#` at or after the
/// line's first `://`, if the line has both.
pub open spec fn fragment_start(l: Seq<char>) -> Option<int> {
    let u = find_url_from(l, 0);
    if u < l.len() {
        let h = find_from(l, '#', u);
        if h < l.len() {
            Some(h)
        } else {
            None
        }
    } else {
        None
    }
}

/// Whether the tag match `sp` lies in the URL fragment of line `l`.
pub open spec fn in_fragment(l: Seq<char>, sp: (int, int, int)) -> bool {
    match fragment_start(l) {
        Some(h) => sp.0 >= h,
        None => false,
    }
}

/// Names of the matches `sps` of line `l` that are not in a URL fragment.
pub open spec fn kept_tags(l: Seq<char>, sps: Seq<(int, int, int)>) -> Seq<Seq<char>>
    decreases sps.len(),
{
    if sps.len() == 0 {
        Seq::<Seq<char>>::empty()
    } else {
        let sp = sps[0];
        (if in_fragment(l, sp) {
            Seq::<Seq<char>>::empty()
        } else {
            seq![l.subrange(sp.1, sp.2)]
        }) + kept_tags(l, sps.drop_first())
    }
}

/// Tag occurrences of the first `k` of `lines`, in order; line `n` (1-based)
/// contributes nothing when `code` lists it or when it is a heading line.
pub open spec fn tag_candidates(lines: Seq<Seq<char>>, code: Seq<usize>, k: int) -> Seq<Seq<char>>
    decreases k,
{
    if k <= 0 {
        Seq::<Seq<char>>::empty()
    } else {
        let l = lines[k - 1];
        tag_candidates(lines, code, k - 1) + (if code.contains(k as usize) || is_heading_line(l) {
            Seq::<Seq<char>>::empty()
        } else {
            kept_tags(l, tag_spans(l, 0))
        })
    }
}

/// `v` with `s` appended unless `v` already holds it.
pub open spec fn push_unique_spec(v: Seq<Seq<char>>, s: Seq<char>) -> Seq<Seq<char>> {
    if v.contains(s) {
        v
    } else {
        v.push(s)
    }
}

/// `v` extended with each of `items` in turn, skipping those already present.
pub open spec fn push_all_unique(v: Seq<Seq<char>>, items: Seq<Seq<char>>) -> Seq<Seq<char>>
    decreases items.len(),
{
    if items.len() == 0 {
        v
    } else {
        push_unique_spec(push_all_unique(v, items.drop_last()), items.last())
    }
}

/// The first occurrences of the items, in order of first appearance.
pub open spec fn distinct_in_order(items: Seq<Seq<char>>) -> Seq<Seq<char>> {
    push_all_unique(Seq::<Seq<char>>::empty(), items)
}

/// Pushing `a + b` is pushing `a` then `b`.
pub proof fn lemma_push_all_unique_append(v: Seq<Seq<char>>, a: Seq<Seq<char>>, b: Seq<Seq<char>>)
    ensures
        push_all_unique(v, a + b) == push_all_unique(push_all_unique(v, a), b),
    decreases b.len(),
{
    if b.len() == 0 {
        assert(a + b =~= a);
    } else {
        lemma_push_all_unique_append(v, a, b.drop_last());
        assert((a + b).drop_last() =~= a + b.drop_last());
        assert((a + b).last() == b.last());
    }
}

/// Pushing a single item is `push_unique_spec`.
pub proof fn lemma_push_all_unique_one(v: Seq<Seq<char>>, s: Seq<char>)
    ensures
        push_all_unique(v, seq![s]) == push_unique_spec(v, s),
{
    assert(seq![s].drop_last() =~= Seq::<Seq<char>>::empty());
    assert(seq![s].last() == s);
    assert(push_all_unique(v, Seq::<Seq<char>>::empty()) == v);
}

/// Appends `s` to `v` unless `v` already holds an equal string.
pub fn push_unique(v: &mut Vec<String>, s: &str)
    ensures
        final(v).deep_view() == push_unique_spec(old(v).deep_view(), s@),
{
    let owned: String = s.to_owned();
    let ghost start = v.deep_view();
    let mut k: usize = 0;
    while k < v.len()
        invariant
            k <= v.len(),
            v.deep_view() == start,
            start == old(v).deep_view(),
            owned@ == s@,
            forall|j: int| 0 <= j < k ==> (#[trigger] v@[j])@ != s@,
        decreases v.len() - k,
    {
        if v[k] == owned {
            proof {
                assert(start[k as int] == s@);
                assert(start.contains(s@));
            }
            return;
        }
        k += 1;
    }
    proof {
        assert forall|j: int| 0 <= j < start.len() implies start[j] != s@ by {
            assert(start[j] == v@[j]@);
        }
    }
    v.push(owned);
    proof {
        assert(v.deep_view() =~= start.push(s@));
    }
}

/// The start of the URL fragment of line `l`; see [`fragment_start`].
fn find_fragment(l: &Vec<char>) -> (r: Option<usize>)
    ensures
        r matches Some(h) ==> fragment_start(l@) == Some(h as int),
        r is None ==> fragment_start(l@) is None,
{
    let mut u: usize = 0;
    while u < l.len() && !(l.len() - u > 2 && l[u] == ':' && l[u + 1] == '/' && l[u + 2] == '/')
        invariant
            u <= l.len(),
            find_url_from(l@, 0) == find_url_from(l@, u as int),
        decreases l.len() - u,
    {
        u += 1;
    }
    if u < l.len() {
        let mut h = u;
        while h < l.len() && l[h] != '#'
            invariant
                u <= h <= l.len(),
                find_from(l@, '#', u as int) == find_from(l@, '#', h as int),
            decreases l.len() - h,
        {
            h += 1;
        }
        if h < l.len() {
            Some(h)
        } else {
            None
        }
    } else {
        None
    }
}

/// The tag match starting at `p` in `l`; see [`tag_match`].
fn tag_match_at(l: &Vec<char>, p: usize) -> (r: Option<(usize, usize)>)
    requires
        p < l.len(),
    ensures
        r.is_some() == tag_match(l@, p as int).is_some(),
        r matches Some(t) ==> tag_match(l@, p as int) == Some((t.0 as int, t.1 as int)) && p < t.0
            <= t.1 <= l.len(),
{
    let start: usize;
    if p == 0 && 1 < l.len() && l[0] == '#' && is_tag_head(l[1]) {
        start = 1;
    } else if l.len() - p > 2 && (is_white(l[p]) || l[p] == '(' || l[p] == '>') && l[p + 1] == '#'
        && is_tag_head(l[p + 2]) {
        start = p + 2;
    } else {
        return None;
    }
    let mut e = start + 1;
    while e < l.len() && (is_word_char(l[e]) || l[e] == '/' || l[e] == '-')
        invariant
            start + 1 <= e <= l.len(),
            start + 1 + tag_body_len(l@, start + 1) == e + tag_body_len(l@, e as int),
        decreases l.len() - e,
    {
        e += 1;
    }
    Some((start, e))
}

/// A tag name is an ASCII letter or `_`, followed by every ASCII letter,
/// digit, `_`, `/` and `-` (and other word character) that comes next: it
/// ends only at the end of the line or at a character that is none of these.
pub proof fn law_tag_name_extent(l: Seq<char>, p: int)
    ensures
        tag_match(l, p) matches Some(t) ==> {
            &&& 0 < t.0 < t.1 <= l.len()
            &&& l[t.0 - 1] == '#'
            &&& tag_head(l[t.0])
            &&& forall|k: int|
                t.0 < k < t.1 && (#[trigger] l[k] as u32) < 128 ==> (crate::text::ascii_alnum(l[k])
                    || l[k] == '_' || l[k] == '/' || l[k] == '-')
            &&& t.1 == l.len() || !(crate::text::ascii_alnum(l[t.1]) || l[t.1] == '_' || l[t.1] == '/'
                || l[t.1] == '-')
        },
{
    if let Some(t) = tag_match(l, p) {
        lemma_tag_body_run(l, t.0 + 1);
        lemma_tag_body_len_bound(l, t.0 + 1);
    }
}

/// The run of tag-body characters from `q`: each is one, and the next is not.
proof fn lemma_tag_body_run(l: Seq<char>, q: int)
    requires
        0 <= q <= l.len(),
    ensures
        forall|k: int| q <= k < q + tag_body_len(l, q) ==> tag_body(#[trigger] l[k]),
        q + tag_body_len(l, q) == l.len() || !tag_body(l[q + tag_body_len(l, q)]),
    decreases l.len() - q,
{
    if q < l.len() && tag_body(l[q]) {
        lemma_tag_body_run(l, q + 1);
    }
}

/// Whether `c` may start a tag name; see [`tag_head`].
fn is_tag_head(c: char) -> (r: bool)
    ensures
        r == tag_head(c),
{
    ('A' <= c && c <= 'Z') || ('a' <= c && c <= 'z') || c == '_'
}

/// Whether `l` is a heading line; see [`is_heading_line`].
fn heading_line(l: &Vec<char>) -> (r: bool)
    ensures
        r == is_heading_line(l@),
{
    let k = skip_white(l, 0, l.len());
    proof {
        assert(l@.subrange(0, l@.len() as int) =~= l@);
    }
    if k < l.len() && l[k] == '#' {
        if k + 1 == l.len() {
            true
        } else {
            let c = l[k + 1];
            !is_alnum(c) && c != '_'
        }
    } else {
        false
    }
}

/// Whether `v` holds `x`.
fn contains_usize(v: &[usize], x: usize) -> (r: bool)
    ensures
        r == v@.contains(x),
{
    let mut k: usize = 0;
    while k < v.len()
        invariant
            k <= v.len(),
            forall|j: int| 0 <= j < k ==> v@[j] != x,
        decreases v.len() - k,
    {
        if v[k] == x {
            return true;
        }
        k += 1;
    }
    false
}

/// [`extract_tags`] on the characters of a text.
pub fn tags_in(content: &Vec<char>, code_block_lines: &[usize]) -> (r: Vec<String>)
    ensures
        r.deep_view() == distinct_in_order(
            tag_candidates(
                split_lines(content@),
                code_block_lines@,
                split_lines(content@).len() as int,
            ),
        ),
{
    let lines = lines_of(content);
    let ghost ls = split_lines(content@);
    let ghost code = code_block_lines@;
    let mut out: Vec<String> = Vec::new();
    let mut i: usize = 0;
    proof {
        assert(out.deep_view() =~= distinct_in_order(tag_candidates(ls, code, 0)));
    }
    while i < lines.len()
        invariant
            i <= lines.len() == ls.len(),
            code == code_block_lines@,
            forall|k: int| 0 <= k < lines.len() ==> (#[trigger] lines[k])@ == ls[k],
            out.deep_view() == distinct_in_order(tag_candidates(ls, code, i as int)),
        decreases lines.len() - i,
    {
        let l = &lines[i];
        let ghost lv = l@;
        assert(ls[i as int] == lv);
        let ghost prev = tag_candidates(ls, code, i as int);
        let line_no = i + 1;
        if contains_usize(code_block_lines, line_no) || heading_line(l) {
            proof {
                assert(tag_candidates(ls, code, i + 1) =~= prev);
            }
        } else {
            let frag = find_fragment(l);
            let ghost goal = distinct_in_order(tag_candidates(ls, code, i + 1));
            proof {
                assert(tag_candidates(ls, code, i + 1) =~= prev + kept_tags(lv, tag_spans(lv, 0)));
                lemma_push_all_unique_append(Seq::<Seq<char>>::empty(), prev, kept_tags(lv, tag_spans(lv, 0)));
            }
            let mut p: usize = 0;
            while p < l.len()
                invariant
                    p <= l.len(),
                    l@ == lv,
                    frag matches Some(h) ==> fragment_start(lv) == Some(h as int),
                    frag is None ==> fragment_start(lv) is None,
                    push_all_unique(out.deep_view(), kept_tags(lv, tag_spans(lv, p as int))) == goal,
                decreases l.len() - p,
            {
                match tag_match_at(l, p) {
                    Some(t) => {
                        let ghost rest = tag_spans(lv, t.1 as int);
                        let ghost sp = (p as int, t.0 as int, t.1 as int);
                        assert(tag_spans(lv, p as int) == seq![sp] + rest);
                        assert((seq![sp] + rest)[0] == sp);
                        assert((seq![sp] + rest).drop_first() =~= rest);
                        let skip = match frag {
                            Some(h) => p >= h,
                            None => false,
                        };
                        if skip {
                            assert(kept_tags(lv, seq![sp] + rest) =~= kept_tags(lv, rest));
                        } else {
                            let name = string_of_range(l, t.0, t.1);
                            let ghost before = out.deep_view();
                            push_unique(&mut out, name.as_str());
                            proof {
                                let nm = lv.subrange(t.0 as int, t.1 as int);
                                assert(kept_tags(lv, seq![sp] + rest) =~= seq![nm] + kept_tags(lv, rest));
                                lemma_push_all_unique_append(before, seq![nm], kept_tags(lv, rest));
                                lemma_push_all_unique_one(before, nm);
                            }
                        }
                        p = t.1;
                    },
                    None => {
                        p += 1;
                    },
                }
            }
            proof {
                assert(tag_spans(lv, p as int) == Seq::<(int, int, int)>::empty());
                assert(kept_tags(lv, Seq::<(int, int, int)>::empty()) =~= Seq::<Seq<char>>::empty());
            }
        }
        i += 1;
    }
    out
}

} // verus!

verus! {

/// Number of consecutive `c` characters in `t` from index `q`.
pub open spec fn run_len(t: Seq<char>, c: char, q: int) -> nat
    decreases t.len() - q,
{
    if 0 <= q < t.len() && t[q] == c {
        1 + run_len(t, c, q + 1)
    } else {
        0
    }
}

/// The fence character of line `l` when it opens a fenced code block:
/// after leading whitespace, three or more of the same `` ` `` or `~`.
pub open spec fn fence_open_char(l: Seq<char>) -> Option<char> {
    let t = trim_start(l);
    if t.len() > 0 && (t[0] == '`' || t[0] == '~') && run_len(t, t[0], 0) >= 3 {
        Some(t[0])
    } else {
        None
    }
}

/// Whether line `l` closes a code block fenced with `m`: after leading
/// whitespace, three or more `m`.
pub open spec fn closes_fence(l: Seq<char>, m: char) -> bool {
    let t = trim_start(l);
    t.len() > 0 && t[0] == m && run_len(t, t[0], 0) >= 3
}

/// The fence character of the code block open after the first `k` lines, if any.
pub open spec fn fence_state(lines: Seq<Seq<char>>, k: int) -> Option<char>
    decreases k,
{
    if k <= 0 {
        None
    } else {
        let l = lines[k - 1];
        match fence_state(lines, k - 1) {
            None => fence_open_char(l),
            Some(m) => if closes_fence(l, m) {
                None
            } else {
                Some(m)
            },
        }
    }
}

/// Whether line `k` (0-based) belongs to a fenced code block, fences included.
pub open spec fn in_code_block(lines: Seq<Seq<char>>, k: int) -> bool {
    fence_state(lines, k) is Some || fence_open_char(lines[k]) is Some
}

/// The 1-based numbers of the code-block lines among the first `k` lines, ascending.
pub open spec fn code_line_numbers(lines: Seq<Seq<char>>, k: int) -> Seq<usize>
    decreases k,
{
    if k <= 0 {
        Seq::<usize>::empty()
    } else {
        code_line_numbers(lines, k - 1) + (if in_code_block(lines, k - 1) {
            seq![k as usize]
        } else {
            Seq::<usize>::empty()
        })
    }
}

/// After leading whitespace, the first character of `l` and how many times it repeats.
fn leading_run(l: &Vec<char>) -> (r: Option<(char, usize)>)
    ensures
        r is None ==> trim_start(l@).len() == 0,
        r matches Some(x) ==> {
            let t = trim_start(l@);
            t.len() > 0 && t[0] == x.0 && run_len(t, t[0], 0) == x.1
        },
{
    let k = skip_white(l, 0, l.len());
    proof {
        assert(l@.subrange(0, l@.len() as int) =~= l@);
    }
    if k == l.len() {
        return None;
    }
    let c = l[k];
    let ghost t = l@.subrange(k as int, l@.len() as int);
    let mut q = k;
    while q < l.len() && l[q] == c
        invariant
            k <= q <= l.len(),
            t == l@.subrange(k as int, l@.len() as int),
            run_len(t, c, 0) == (q - k) + run_len(t, c, q - k),
        decreases l.len() - q,
    {
        assert(t[q - k] == l@[q as int]);
        q += 1;
    }
    proof {
        if q < l.len() {
            assert(t[q - k] == l@[q as int]);
        }
    }
    Some((c, q - k))
}

/// [`collect_code_block_lines`] on the characters of a text.
pub fn code_block_lines_in(content: &Vec<char>) -> (r: Vec<usize>)
    ensures
        r@ == code_line_numbers(split_lines(content@), split_lines(content@).len() as int),
{
    let lines = lines_of(content);
    let ghost ls = split_lines(content@);
    let mut out: Vec<usize> = Vec::new();
    let mut fence: Option<char> = None;
    let mut i: usize = 0;
    while i < lines.len()
        invariant
            i <= lines.len() == ls.len(),
            forall|k: int| 0 <= k < lines.len() ==> (#[trigger] lines[k])@ == ls[k],
            out@ == code_line_numbers(ls, i as int),
            fence == fence_state(ls, i as int),
        decreases lines.len() - i,
    {
        let l = &lines[i];
        assert(ls[i as int] == l@);
        let line_no = i + 1;
        let lead = leading_run(l);
        match fence {
            None => {
                match lead {
                    Some((c, n)) => {
                        if n >= 3 && (c == '`' || c == '~') {
                            fence = Some(c);
                            out.push(line_no);
                        }
                    },
                    None => {},
                }
            },
            Some(m) => {
                out.push(line_no);
                match lead {
                    Some((c, n)) => {
                        if n >= 3 && c == m {
                            fence = None;
                        }
                    },
                    None => {},
                }
            },
        }
        i += 1;
    }
    out
}

} // verus!

verus! {

/// Length of the piece of `s` starting at `i` that `str::split_inclusive('\n')`
/// yields: up to and including the next `'\n'`, or to the end.
pub open spec fn piece_len(s: Seq<char>, i: int) -> nat
    decreases s.len() - i,
{
    if 0 <= i < s.len() {
        if s[i] == '\n' {
            1
        } else {
            1 + piece_len(s, i + 1)
        }
    } else {
        0
    }
}

/// A piece stays within `s`.
pub proof fn lemma_piece_len_bound(s: Seq<char>, i: int)
    ensures
        0 <= i <= s.len() ==> i + piece_len(s, i) <= s.len(),
        0 <= i < s.len() ==> piece_len(s, i) >= 1,
    decreases s.len() - i,
{
    if 0 <= i < s.len() && s[i] != '\n' {
        lemma_piece_len_bound(s, i + 1);
    }
}

/// A front-matter fence line: `---` followed only by whitespace (its newline included).
pub open spec fn is_dash_line(piece: Seq<char>) -> bool {
    trim_end(piece) == seq!['-', '-', '-']
}

/// Start of the first fence line among the pieces of `s` from index `i`.
pub open spec fn closing_fence_from(s: Seq<char>, i: int) -> Option<int>
    decreases s.len() - i,
{
    if i < 0 || i >= s.len() {
        None
    } else {
        let e = i + piece_len(s, i);
        if is_dash_line(s.subrange(i, e)) {
            Some(i)
        } else {
            proof {
                lemma_piece_len_bound(s, i);
            }
            closing_fence_from(s, e)
        }
    }
}

/// The front matter of `s` and the rest of it, when `s` opens with a fence
/// line and a later line closes it: `(text between the fences, text after the
/// closing fence line)`. `None` when there is no complete front matter.
pub open spec fn front_matter_split(s: Seq<char>) -> Option<(Seq<char>, Seq<char>)> {
    if s.len() == 0 {
        None
    } else {
        let e0 = piece_len(s, 0) as int;
        if !is_dash_line(s.subrange(0, e0)) {
            None
        } else {
            match closing_fence_from(s, e0) {
                Some(i) => Some(
                    (s.subrange(e0, i), s.subrange(i + piece_len(s, i), s.len() as int)),
                ),
                None => None,
            }
        }
    }
}

/// The body of note `s`: what follows its front matter, or all of `s` when it has none.
pub open spec fn note_body(s: Seq<char>) -> Seq<char> {
    match front_matter_split(s) {
        Some(p) => p.1,
        None => s,
    }
}

/// The YAML text to decode for note `s`: its front matter, when present and not blank.
pub open spec fn yaml_source(s: Seq<char>) -> Option<Seq<char>> {
    match front_matter_split(s) {
        Some(p) => if trim(p.0).len() > 0 {
            Some(p.0)
        } else {
            None
        },
        None => None,
    }
}

/// Whether `v[lo..hi]` is a fence line; see [`is_dash_line`].
fn dash_line_at(v: &Vec<char>, lo: usize, hi: usize) -> (r: bool)
    requires
        lo <= hi <= v.len(),
    ensures
        r == is_dash_line(v@.subrange(lo as int, hi as int)),
{
    let b = skip_white_back(v, lo, hi);
    let r = b - lo == 3 && v[lo] == '-' && v[lo + 1] == '-' && v[lo + 2] == '-';
    proof {
        let t = v@.subrange(lo as int, b as int);
        if r {
            assert(t =~= seq!['-', '-', '-']);
        } else if t.len() == 3 {
            assert(t[0] == v@[lo as int] && t[1] == v@[lo + 1] && t[2] == v@[lo + 2]);
        }
    }
    r
}

/// End of the piece of `v` starting at `i`; see [`piece_len`].
fn piece_end(v: &Vec<char>, i: usize) -> (e: usize)
    requires
        i < v.len(),
    ensures
        e == i + piece_len(v@, i as int),
        i < e <= v.len(),
{
    let mut e = i;
    while e < v.len() && v[e] != '\n'
        invariant
            i <= e <= v.len(),
            forall|j: int| i <= j < e ==> v@[j] != '\n',
            i + piece_len(v@, i as int) == e + piece_len(v@, e as int),
        decreases v.len() - e,
    {
        e += 1;
    }
    if e < v.len() {
        e + 1
    } else {
        e
    }
}

/// Bounds `(front matter start, front matter end, body start)` in `v`; see [`front_matter_split`].
fn front_matter_bounds(v: &Vec<char>) -> (r: Option<(usize, usize, usize)>)
    ensures
        r is None ==> front_matter_split(v@) is None,
        r matches Some(b) ==> b.0 <= b.1 <= b.2 <= v.len() && front_matter_split(v@) == Some(
            (
                v@.subrange(b.0 as int, b.1 as int),
                v@.subrange(b.2 as int, v@.len() as int),
            ),
        ),
{
    if v.len() == 0 {
        return None;
    }
    let e0 = piece_end(v, 0);
    if !dash_line_at(v, 0, e0) {
        return None;
    }
    let mut i = e0;
    while i < v.len()
        invariant
            e0 <= i <= v.len(),
            v.len() > 0,
            e0 == piece_len(v@, 0) as int,
            is_dash_line(v@.subrange(0, e0 as int)),
            closing_fence_from(v@, e0 as int) == closing_fence_from(v@, i as int),
        decreases v.len() - i,
    {
        let e = piece_end(v, i);
        if dash_line_at(v, i, e) {
            proof {
                assert(closing_fence_from(v@, i as int) == Some(i as int));
                assert(closing_fence_from(v@, e0 as int) == Some(i as int));
                assert(e0 == piece_len(v@, 0) as int);
                assert(is_dash_line(v@.subrange(0, e0 as int)));
                assert(e == i + piece_len(v@, i as int));
                assert(front_matter_split(v@) == Some(
                    (v@.subrange(e0 as int, i as int), v@.subrange(e as int, v@.len() as int)),
                ));
            }
            return Some((e0, i, e));
        }
        i = e;
    }
    None
}

/// Splits note `content` into its front matter and the rest; see [`front_matter_split`].
pub fn split_front_matter(content: &str) -> (r: Option<(String, String)>)
    ensures
        r.deep_view() == front_matter_split(content@),
{
    let v = chars_of(content);
    match front_matter_bounds(&v) {
        Some((a, b, c)) => Some((string_of_range(&v, a, b), string_of_range(&v, c, v.len()))),
        None => None,
    }
}

/// The YAML text to decode for note `content`; see [`yaml_source`].
pub fn front_matter_block(content: &str) -> (r: Option<String>)
    ensures
        r.deep_view() == yaml_source(content@),
{
    let v = chars_of(content);
    match front_matter_bounds(&v) {
        Some((a, b, _c)) => {
            let (x, y) = trim_bounds(&v, a, b);
            if x < y {
                Some(string_of_range(&v, a, b))
            } else {
                None
            }
        },
        None => None,
    }
}

} // verus!

verus! {

#[verifier::external_type_specification]
#[verifier::external_body]
pub struct ExYamlValue(serde_yaml::Value);

/// Top-level fields of a note's YAML front matter, as the caller decoded them.
#[derive(Debug)]
pub struct FrontMatter {
    /// `title: ...`
    pub title: Option<String>,
    /// `tags: [a, b]` or a block list
    pub tags: Vec<String>,
    /// `aliases: [x, y]` (or `alias`)
    pub aliases: Vec<String>,
    /// The whole YAML tree, kept as decoded
    pub extra: serde_yaml::Value,
}

/// The result of parsing a note.
#[derive(Debug)]
pub struct ParsedNote {
    /// The decoded front matter
    pub front_matter: FrontMatter,
    /// Front-matter tags then inline tags, distinct, in order of first appearance
    pub tags: Vec<String>,
    /// The wiki links of the body
    pub links: Vec<WikiLink>,
    /// Plain text of the body (front matter and code blocks stripped)
    pub body: String,
}

/// The inline tags of a note body: tag occurrences outside fenced code blocks,
/// heading lines and URL fragments, distinct, in order of first appearance.
pub open spec fn inline_tag_candidates(body: Seq<char>) -> Seq<Seq<char>> {
    let ls = split_lines(body);
    tag_candidates(ls, code_line_numbers(ls, ls.len() as int), ls.len() as int)
}

/// The distinct inline tags of a note body, in order of first appearance.
pub open spec fn inline_tags(body: Seq<char>) -> Seq<Seq<char>> {
    distinct_in_order(inline_tag_candidates(body))
}

/// The tags of a note: the front-matter tags, then the inline tags of its
/// body, each kept at its first appearance only.
pub open spec fn note_tags(fm_tags: Seq<Seq<char>>, body: Seq<char>) -> Seq<Seq<char>> {
    push_all_unique(distinct_in_order(fm_tags), inline_tags(body))
}

/// A fresh vector holding `v[lo..hi]`.
fn chars_range(v: &Vec<char>, lo: usize, hi: usize) -> (r: Vec<char>)
    requires
        lo <= hi <= v.len(),
    ensures
        r@ == v@.subrange(lo as int, hi as int),
{
    let mut out: Vec<char> = Vec::new();
    let mut i = lo;
    while i < hi
        invariant
            lo <= i <= hi <= v.len(),
            out@ == v@.subrange(lo as int, i as int),
        decreases hi - i,
    {
        out.push(v[i]);
        i += 1;
        assert(out@ =~= v@.subrange(lo as int, i as int));
    }
    out
}

/// Pushes each of `items` onto `v`, skipping strings already present.
fn push_all(v: &mut Vec<String>, items: &Vec<String>)
    ensures
        final(v).deep_view() == push_all_unique(old(v).deep_view(), items.deep_view()),
{
    let ghost start = v.deep_view();
    let mut k: usize = 0;
    while k < items.len()
        invariant
            k <= items.len(),
            start == old(v).deep_view(),
            v.deep_view() == push_all_unique(start, items.deep_view().take(k as int)),
        decreases items.len() - k,
    {
        proof {
            let t = items.deep_view().take(k + 1);
            assert(t.drop_last() =~= items.deep_view().take(k as int));
            assert(t.last() == items@[k as int]@);
        }
        push_unique(v, items[k].as_str());
        k += 1;
    }
    proof {
        assert(items.deep_view().take(items.len() as int) =~= items.deep_view());
    }
}

/// Parses note `content`, given `front_matter`, the decoding of
/// `front_matter_block(content)` (empty when that is `None`).
///
/// The body is what follows the front matter. Links and tags are read from
/// the body line by line; the plain text comes from its Markdown events.
pub fn parse(content: &str, front_matter: FrontMatter) -> (r: ParsedNote)
    ensures
        r.front_matter == front_matter,
        r.tags.deep_view() == note_tags(front_matter.tags.deep_view(), note_body(content@)),
        link_views(r.links@) == wiki_links(note_body(content@)),
        r.body@ == markdown_text(note_body(content@)),
{
    let v = chars_of(content);
    let body_v = match front_matter_bounds(&v) {
        Some((_a, _b, c)) => chars_range(&v, c, v.len()),
        None => chars_range(&v, 0, v.len()),
    };
    proof {
        assert(v@.subrange(0, v@.len() as int) =~= v@);
    }
    let code_block_lines = code_block_lines_in(&body_v);
    let links = wiki_links_in(&body_v);
    let inline_tags_v = tags_in(&body_v, code_block_lines.as_slice());
    let mut tags: Vec<String> = Vec::new();
    proof {
        assert(tags.deep_view() =~= Seq::<Seq<char>>::empty());
    }
    push_all(&mut tags, &front_matter.tags);
    push_all(&mut tags, &inline_tags_v);
    let body_s = string_of(&body_v);
    let body = extract_text(body_s.as_str());
    ParsedNote { front_matter, tags, links, body }
}

} // verus!

verus! {

/// What `push_all_unique` holds: what `v` held, and the items.
pub proof fn lemma_push_all_unique_contains(v: Seq<Seq<char>>, b: Seq<Seq<char>>, y: Seq<char>)
    ensures
        push_all_unique(v, b).contains(y) <==> (v.contains(y) || b.contains(y)),
    decreases b.len(),
{
    if b.len() > 0 {
        let p = push_all_unique(v, b.drop_last());
        lemma_push_all_unique_contains(v, b.drop_last(), y);
        if b.contains(y) {
            let i = choose|i: int| 0 <= i < b.len() && b[i] == y;
            if i < b.len() - 1 {
                assert(b.drop_last()[i] == y);
            }
        }
        if b.drop_last().contains(y) {
            let i = choose|i: int| 0 <= i < b.drop_last().len() && b.drop_last()[i] == y;
            assert(b[i] == y);
        }
        if p.contains(y) && !p.contains(b.last()) {
            let i = choose|i: int| 0 <= i < p.len() && p[i] == y;
            assert(p.push(b.last())[i] == y);
        }
        if !p.contains(b.last()) {
            assert(p.push(b.last())[p.len() as int] == b.last());
            if p.push(b.last()).contains(y) {
                let i = choose|i: int| 0 <= i < p.len() + 1 && p.push(b.last())[i] == y;
                if i < p.len() {
                    assert(p[i] == y);
                }
            }
        }
        assert(b[b.len() - 1] == b.last());
    }
}

/// `push_all_unique` adds no duplicates.
pub proof fn lemma_push_all_unique_no_duplicates(v: Seq<Seq<char>>, b: Seq<Seq<char>>)
    requires
        v.no_duplicates(),
    ensures
        push_all_unique(v, b).no_duplicates(),
    decreases b.len(),
{
    if b.len() > 0 {
        lemma_push_all_unique_no_duplicates(v, b.drop_last());
        let p = push_all_unique(v, b.drop_last());
        if !p.contains(b.last()) {
            let q = p.push(b.last());
            assert forall|i: int, j: int| 0 <= i < q.len() && 0 <= j < q.len() && i != j implies q[i]
                != q[j] by {
                if i == p.len() {
                    assert(p[j] == q[j]);
                } else if j == p.len() {
                    assert(p[i] == q[i]);
                } else {
                    assert(p[i] == q[i] && p[j] == q[j]);
                }
            }
        }
    }
}

/// Pushing the distinct items of `b` is pushing all of `b`.
pub proof fn lemma_push_all_unique_distinct(v: Seq<Seq<char>>, b: Seq<Seq<char>>)
    ensures
        push_all_unique(v, distinct_in_order(b)) == push_all_unique(v, b),
    decreases b.len(),
{
    if b.len() > 0 {
        let b1 = b.drop_last();
        let x = b.last();
        let d1 = distinct_in_order(b1);
        lemma_push_all_unique_distinct(v, b1);
        lemma_push_all_unique_contains(Seq::<Seq<char>>::empty(), b1, x);
        lemma_push_all_unique_contains(v, b1, x);
        if d1.contains(x) {
            assert(distinct_in_order(b) == d1);
        } else {
            assert(distinct_in_order(b) == d1.push(x));
            assert(d1.push(x).drop_last() =~= d1);
            assert(d1.push(x).last() == x);
        }
    }
}

/// The tags of a note are the front-matter tags followed by the inline tag
/// occurrences of its body, each kept at its first appearance: no tag twice,
/// and every tag of either source present, in order of first appearance.
pub proof fn law_note_tags_first_occurrences(fm_tags: Seq<Seq<char>>, body: Seq<char>)
    ensures
        note_tags(fm_tags, body) == distinct_in_order(fm_tags + inline_tag_candidates(body)),
        note_tags(fm_tags, body).no_duplicates(),
        forall|t: Seq<char>|
            #[trigger] note_tags(fm_tags, body).contains(t) <==> (fm_tags.contains(t)
                || inline_tag_candidates(body).contains(t)),
{
    let c = inline_tag_candidates(body);
    let e = Seq::<Seq<char>>::empty();
    lemma_push_all_unique_distinct(distinct_in_order(fm_tags), c);
    lemma_push_all_unique_append(e, fm_tags, c);
    lemma_push_all_unique_no_duplicates(e, fm_tags + c);
    assert forall|t: Seq<char>| #[trigger] note_tags(fm_tags, body).contains(t) <==> (
    fm_tags.contains(t) || c.contains(t)) by {
        lemma_push_all_unique_contains(e, fm_tags + c, t);
        if (fm_tags + c).contains(t) {
            let i = choose|i: int| 0 <= i < (fm_tags + c).len() && (fm_tags + c)[i] == t;
            if i < fm_tags.len() {
                assert(fm_tags[i] == t);
            } else {
                assert(c[i - fm_tags.len()] == t);
            }
        }
        if fm_tags.contains(t) {
            let i = choose|i: int| 0 <= i < fm_tags.len() && fm_tags[i] == t;
            assert((fm_tags + c)[i] == t);
        }
        if c.contains(t) {
            let i = choose|i: int| 0 <= i < c.len() && c[i] == t;
            assert((fm_tags + c)[fm_tags.len() + i] == t);
        }
    }
}

/// When a note has front matter, the note is its opening fence line, the
/// front matter, the closing fence line and the body, in that order.
pub proof fn law_front_matter_layout(s: Seq<char>)
    ensures
        front_matter_split(s) matches Some(p) ==> exists|open: Seq<char>, close: Seq<char>|
            is_dash_line(open) && is_dash_line(close) && s == open + p.0 + close + p.1,
{
    if let Some(p) = front_matter_split(s) {
        let e0 = piece_len(s, 0) as int;
        lemma_piece_len_bound(s, 0);
        let i = lemma_closing_fence_found(s, e0);
        let e = i + piece_len(s, i);
        lemma_piece_len_bound(s, i);
        let open = s.subrange(0, e0);
        let close = s.subrange(i, e);
        assert(s =~= open + p.0 + close + p.1);
    }
}

/// Whether a line of `s` starts at `i`: at the start, or right after a newline.
pub open spec fn line_start(s: Seq<char>, i: int) -> bool {
    i == 0 || (0 < i <= s.len() && s[i - 1] == '\n')
}

/// The line of `s` that starts at `i`, its newline included.
pub open spec fn line_at(s: Seq<char>, i: int) -> Seq<char> {
    s.subrange(i, i + piece_len(s, i))
}

/// Whether no line of `t` is a fence line.
pub open spec fn has_no_fence_line(t: Seq<char>) -> bool {
    forall|i: int| 0 <= i < t.len() && line_start(t, i) ==> !is_dash_line(#[trigger] line_at(t, i))
}

/// A line runs to its first newline (included), or to the end of the text.
proof fn lemma_piece_shape(s: Seq<char>, i: int)
    requires
        0 <= i < s.len(),
    ensures
        i < i + piece_len(s, i) <= s.len(),
        forall|m: int| i <= m < i + piece_len(s, i) - 1 ==> s[m] != '\n',
        s[i + piece_len(s, i) - 1] == '\n' || i + piece_len(s, i) == s.len(),
    decreases s.len() - i,
{
    if s[i] != '\n' {
        if i + 1 < s.len() {
            lemma_piece_shape(s, i + 1);
            assert(piece_len(s, i) == 1 + piece_len(s, i + 1));
            assert forall|m: int| i <= m < i + piece_len(s, i) - 1 implies s[m] != '\n' by {
                if m > i {
                    assert(i + 1 <= m < i + 1 + piece_len(s, i + 1) - 1);
                }
            }
        } else {
            assert(piece_len(s, i + 1) == 0);
        }
    }
}

/// A line of a slice that ends with a newline is the same line of the whole text.
proof fn lemma_piece_in_slice(s: Seq<char>, a: int, b: int, t: int)
    requires
        0 <= a,
        0 <= t,
        a + t < b <= s.len(),
        s[b - 1] == '\n',
    ensures
        piece_len(s.subrange(a, b), t) == piece_len(s, a + t),
    decreases b - a - t,
{
    let f = s.subrange(a, b);
    assert(f[t] == s[a + t]);
    if s[a + t] != '\n' {
        lemma_piece_in_slice(s, a, b, t + 1);
    }
}

/// Walking the lines of `s` from line start `i` to the first fence line `k`
/// passes no other fence line, and `k` starts a line.
proof fn lemma_fence_walk(s: Seq<char>, i: int, k: int)
    requires
        0 <= i,
        line_start(s, i),
        closing_fence_from(s, i) == Some(k),
    ensures
        line_start(s, k),
        forall|m: int| i <= m < k && line_start(s, m) ==> !is_dash_line(#[trigger] line_at(s, m)),
    decreases s.len() - i,
{
    let e = i + piece_len(s, i);
    lemma_piece_shape(s, i);
    if !is_dash_line(s.subrange(i, e)) {
        let k2 = lemma_closing_fence_found(s, e);
        assert(e < s.len());
        assert(s[e - 1] == '\n');
        lemma_fence_walk(s, e, k);
        assert forall|m: int| i <= m < k && line_start(s, m) implies !is_dash_line(
            #[trigger] line_at(s, m),
        ) by {
            if m < e {
                if m > i {
                    assert(s[m - 1] != '\n');
                }
            }
        }
    }
}

/// From a line start, a later fence line is always found.
proof fn lemma_fence_reached(s: Seq<char>, i: int, j: int)
    requires
        0 <= i <= j < s.len(),
        line_start(s, i),
        line_start(s, j),
        is_dash_line(line_at(s, j)),
    ensures
        closing_fence_from(s, i) is Some,
    decreases s.len() - i,
{
    let e = i + piece_len(s, i);
    lemma_piece_shape(s, i);
    if !is_dash_line(s.subrange(i, e)) {
        assert(j != i);
        assert(s[j - 1] == '\n');
        assert(j >= e);
        assert(s[e - 1] == '\n');
        lemma_fence_reached(s, e, j);
    }
}

/// The front matter is closed by the first fence line after the opening one:
/// a note has front matter exactly when its first line is a fence line and
/// a later line is one too; the note is then its first line, the front
/// matter (whole lines, none of them a fence line), the closing fence line
/// and the body.
pub proof fn law_front_matter_first_closing_fence(s: Seq<char>)
    ensures
        front_matter_split(s) is Some <==> (s.len() > 0 && is_dash_line(line_at(s, 0)) && exists|j: int|
            line_at(s, 0).len() <= j < s.len() && line_start(s, j) && #[trigger] is_dash_line(
                line_at(s, j),
            )),
        front_matter_split(s) matches Some(p) ==> {
            let open = line_at(s, 0);
            let close = line_at(s, (open.len() + p.0.len()) as int);
            &&& s == open + p.0 + close + p.1
            &&& open.last() == '\n'
            &&& is_dash_line(close)
            &&& has_no_fence_line(p.0)
            &&& (p.0.len() == 0 || p.0.last() == '\n')
        },
{
    if s.len() > 0 {
        let e0 = piece_len(s, 0) as int;
        lemma_piece_shape(s, 0);
        if is_dash_line(line_at(s, 0)) {
            if exists|j: int|
                line_at(s, 0).len() <= j < s.len() && line_start(s, j) && #[trigger] is_dash_line(
                    line_at(s, j),
                ) {
                let j = choose|j: int|
                    line_at(s, 0).len() <= j < s.len() && line_start(s, j) && #[trigger] is_dash_line(
                        line_at(s, j),
                    );
                assert(s[e0 - 1] == '\n');
                lemma_fence_reached(s, e0, j);
            }
            if let Some(p) = front_matter_split(s) {
                let k = lemma_closing_fence_found(s, e0);
                assert(e0 < s.len());
                assert(s[e0 - 1] == '\n');
                lemma_fence_walk(s, e0, k);
                let fm = p.0;
                assert(fm == s.subrange(e0, k));
                let open = line_at(s, 0);
                let close = line_at(s, (open.len() + fm.len()) as int);
                assert(open.len() + fm.len() == k);
                lemma_piece_shape(s, k);
                assert(s =~= open + fm + close + p.1);
                if k > e0 {
                    assert(s[k - 1] == '\n');
                    assert(fm.last() == s[k - 1]);
                    assert forall|t: int| 0 <= t < fm.len() && line_start(fm, t) implies !is_dash_line(
                        #[trigger] line_at(fm, t),
                    ) by {
                        if t > 0 {
                            assert(fm[t - 1] == s[e0 + t - 1]);
                            assert(line_start(s, e0 + t));
                        } else {
                            assert(s[e0 + t - 1] == '\n');
                            assert(line_start(s, e0 + t));
                        }
                        lemma_piece_in_slice(s, e0, k, t);
                        lemma_piece_len_bound(fm, t);
                        assert(line_at(fm, t) =~= line_at(s, e0 + t));
                    }
                }
            } else {
                if exists|j: int|
                    line_at(s, 0).len() <= j < s.len() && line_start(s, j) && #[trigger] is_dash_line(
                        line_at(s, j),
                    ) {
                    assert(front_matter_split(s) is Some);
                }
            }
        } else {
            assert(front_matter_split(s) is None);
        }
    }
}

/// A closing fence found from `i` lies at or after `i`, on a fence line.
proof fn lemma_closing_fence_found(s: Seq<char>, i: int) -> (k: int)
    requires
        closing_fence_from(s, i) is Some,
    ensures
        closing_fence_from(s, i) == Some(k),
        i <= k < s.len(),
        is_dash_line(s.subrange(k, k + piece_len(s, k))),
    decreases s.len() - i,
{
    let e = i + piece_len(s, i);
    lemma_piece_len_bound(s, i);
    if is_dash_line(s.subrange(i, e)) {
        i
    } else {
        lemma_closing_fence_found(s, e)
    }
}

} // verus!

verus! {

/// The shape every extracted link has: a line number within the body, raw
/// text `[[` + inside + `]]` with a non-empty inside free of `[`, `]` and
/// newlines, and a context of at most [`CONTEXT_MAX`] characters plus `…`.
pub open spec fn well_shaped_link(w: WikiLinkView, line_count: int) -> bool {
    &&& 1 <= w.line <= line_count
    &&& w.raw.len() >= 5
    &&& w.raw[0] == '[' && w.raw[1] == '['
    &&& w.raw[w.raw.len() - 2] == ']' && w.raw[w.raw.len() - 1] == ']'
    &&& forall|j: int| 2 <= j < w.raw.len() - 2 ==> !wiki_stop(#[trigger] w.raw[j])
    &&& w.context.len() <= CONTEXT_MAX + 1
    &&& link_parts(unwrap_brackets(trim(w.raw))) == (w.target, w.heading, w.alias)
}

proof fn lemma_wiki_inner_len(l: Seq<char>, q: int)
    requires
        0 <= q <= l.len(),
    ensures
        q + wiki_inner_len(l, q) <= l.len(),
        forall|j: int| q <= j < q + wiki_inner_len(l, q) ==> !wiki_stop(#[trigger] l[j]),
    decreases l.len() - q,
{
    if q < l.len() && !wiki_stop(l[q]) {
        lemma_wiki_inner_len(l, q + 1);
    }
}

proof fn lemma_context_len(l: Seq<char>)
    ensures
        context_of(l).len() <= CONTEXT_MAX + 1,
{
}

proof fn lemma_spans_shape(l: Seq<char>, p: int, n: int, line_count: int)
    requires
        1 <= n <= line_count,
    ensures
        forall|i: int| 0 <= i < links_of_spans(l, wiki_spans(l, p), n).len() ==> well_shaped_link(
            #[trigger] links_of_spans(l, wiki_spans(l, p), n)[i],
            line_count,
        ),
    decreases l.len() - p,
{
    if 0 <= p < l.len() {
        match wiki_match_end(l, p) {
            Some(e) => {
                lemma_spans_shape(l, e, n, line_count);
                lemma_wiki_inner_len(l, p + 2);
                let rest = wiki_spans(l, e);
                let all = seq![(p, e)] + rest;
                assert(wiki_spans(l, p) == all);
                let w = link_of_span(l, (p, e), n);
                lemma_context_len(l);
                assert forall|j: int| 2 <= j < w.raw.len() - 2 implies !wiki_stop(#[trigger] w.raw[j]) by {
                    assert(w.raw[j] == l[p + j]);
                }
                let raw = w.raw;
                assert(raw[0] == '[' && raw[raw.len() - 1] == ']');
                assert(trim_start(raw) == raw);
                assert(trim_end(raw) == raw);
                assert(unwrap_brackets(raw) =~= l.subrange(p + 2, e - 2));
                assert(well_shaped_link(w, line_count));
                assert forall|i: int| 0 <= i < links_of_spans(l, all, n).len() implies well_shaped_link(
                    #[trigger] links_of_spans(l, all, n)[i],
                    line_count,
                ) by {
                    if i > 0 {
                        assert(links_of_spans(l, all, n)[i] == links_of_spans(l, rest, n)[i - 1]);
                    } else {
                        assert(links_of_spans(l, all, n)[0] == w);
                    }
                }
            },
            None => {
                lemma_spans_shape(l, p + 1, n, line_count);
                assert(wiki_spans(l, p) == wiki_spans(l, p + 1));
            },
        }
    } else {
        assert(wiki_spans(l, p).len() == 0);
    }
}

proof fn lemma_lines_shape(lines: Seq<Seq<char>>, k: int)
    requires
        0 <= k <= lines.len(),
    ensures
        forall|i: int| 0 <= i < links_of_lines(lines, k).len() ==> well_shaped_link(
            #[trigger] links_of_lines(lines, k)[i],
            lines.len() as int,
        ),
    decreases k,
{
    if k > 0 {
        lemma_lines_shape(lines, k - 1);
        lemma_spans_shape(lines[k - 1], 0, k, lines.len() as int);
        let a = links_of_lines(lines, k - 1);
        let b = links_of_spans(lines[k - 1], wiki_spans(lines[k - 1], 0), k);
        assert forall|i: int| 0 <= i < (a + b).len() implies well_shaped_link(
            #[trigger] (a + b)[i],
            lines.len() as int,
        ) by {
            if i >= a.len() {
                assert((a + b)[i] == b[i - a.len()]);
            } else {
                assert((a + b)[i] == a[i]);
            }
        }
    }
}

/// Every link of a body records a 1-based line number of the body, its raw
/// `[[...]]` text, and a context cut to [`CONTEXT_MAX`] characters (plus `…`);
/// reading its raw text again as link text gives back its target, heading
/// and alias.
pub proof fn law_wiki_link_shape(body: Seq<char>)
    ensures
        forall|i: int| 0 <= i < wiki_links(body).len() ==> well_shaped_link(
            #[trigger] wiki_links(body)[i],
            split_lines(body).len() as int,
        ),
{
    lemma_lines_shape(split_lines(body), split_lines(body).len() as int);
}

} // verus!

verus! {

/// Looking up the raw text of an extracted link (as link resolution does)
/// names the same target the parser recorded for it.
pub proof fn law_link_target_of_raw(body: Seq<char>)
    ensures
        forall|i: int|
            0 <= i < wiki_links(body).len() ==> link_target_of(#[trigger] wiki_links(body)[i].raw)
                == wiki_links(body)[i].target,
{
    law_wiki_link_shape(body);
    assert forall|i: int| 0 <= i < wiki_links(body).len() implies link_target_of(
        #[trigger] wiki_links(body)[i].raw,
    ) == wiki_links(body)[i].target by {
        assert(well_shaped_link(wiki_links(body)[i], split_lines(body).len() as int));
    }
}

} // verus!

verus! {

/// Splits the inside of a wiki link into `(target, heading, alias)`; see [`link_parts`].
pub fn split_link_target(inner: &str) -> (r: (String, Option<String>, Option<String>))
    ensures
        r.deep_view() == link_parts(inner@),
{
    let v = chars_of(inner);
    proof {
        assert(v@.subrange(0, v@.len() as int) =~= v@);
    }
    split_link_target_in(&v, 0, v.len())
}

/// The context snippet of line `s`; see [`context_of`].
pub fn truncate_context(s: &str) -> (r: String)
    ensures
        r@ == context_of(s@),
{
    let v = chars_of(s);
    proof {
        assert(v@.subrange(0, v@.len() as int) =~= v@);
    }
    context_in(&v, 0, v.len())
}

/// Extracts the wiki links of `content`, line by line; see [`wiki_links`].
pub fn extract_wiki_links(content: &str) -> (r: Vec<WikiLink>)
    ensures
        link_views(r@) == wiki_links(content@),
{
    let v = chars_of(content);
    wiki_links_in(&v)
}

/// Extracts the inline tags of `content`, distinct and in order of first
/// appearance, skipping the lines that `code_block_lines` lists (1-based),
/// heading lines and URL fragments.
pub fn extract_tags(content: &str, code_block_lines: &[usize]) -> (r: Vec<String>)
    ensures
        r.deep_view() == distinct_in_order(
            tag_candidates(
                split_lines(content@),
                code_block_lines@,
                split_lines(content@).len() as int,
            ),
        ),
{
    let v = chars_of(content);
    tags_in(&v, code_block_lines)
}

/// The 1-based numbers of the lines of `content` that belong to fenced code
/// blocks (fences included), ascending.
pub fn collect_code_block_lines(content: &str) -> (r: Vec<usize>)
    ensures
        r@ == code_line_numbers(split_lines(content@), split_lines(content@).len() as int),
{
    let v = chars_of(content);
    code_block_lines_in(&v)
}

} // verus!

verus! {

/// The code-block line numbers are exactly the 1-based numbers of the lines
/// inside fenced code blocks (fences included), so no tag is read from them.
pub proof fn law_code_block_lines_exact(lines: Seq<Seq<char>>, n: int)
    requires
        0 <= n <= lines.len(),
        lines.len() <= usize::MAX,
    ensures
        forall|k: int|
            #![trigger code_line_numbers(lines, n).contains(k as usize)]
            1 <= k <= n ==> (code_line_numbers(lines, n).contains(k as usize) <==> in_code_block(
                lines,
                k - 1,
            )),
        forall|i: int|
            0 <= i < code_line_numbers(lines, n).len() ==> 1 <= #[trigger] code_line_numbers(
                lines,
                n,
            )[i] <= n,
    decreases n,
{
    if n > 0 {
        law_code_block_lines_exact(lines, n - 1);
        let prev = code_line_numbers(lines, n - 1);
        let add = if in_code_block(lines, n - 1) {
            seq![n as usize]
        } else {
            Seq::<usize>::empty()
        };
        let all = prev + add;
        assert(code_line_numbers(lines, n) == all);
        assert forall|i: int| 0 <= i < all.len() implies 1 <= #[trigger] all[i] <= n by {
            if i < prev.len() {
                assert(all[i] == prev[i]);
            } else {
                assert(all[i] == add[i - prev.len()]);
            }
        }
        assert forall|k: int|
            #![trigger all.contains(k as usize)]
            1 <= k <= n implies (all.contains(k as usize) <==> in_code_block(lines, k - 1)) by {
            if all.contains(k as usize) {
                let i = choose|i: int| 0 <= i < all.len() && all[i] == k as usize;
                if i < prev.len() {
                    assert(prev[i] == k as usize);
                    assert(prev.contains(k as usize));
                    assert(prev[i] <= n - 1);
                } else {
                    assert(add[i - prev.len()] == k as usize);
                }
            }
            if in_code_block(lines, k - 1) {
                if k < n {
                    assert(prev.contains(k as usize));
                    let i = choose|i: int| 0 <= i < prev.len() && prev[i] == k as usize;
                    assert(all[i] == k as usize);
                } else {
                    assert(all[prev.len() as int] == k as usize);
                }
            }
        }
    }
}

} // verus!

verus! {

/// Link `w` lies on line `w.line` of `lines`, whose context it carries.
pub open spec fn link_on_its_line(w: WikiLinkView, lines: Seq<Seq<char>>) -> bool {
    1 <= w.line <= lines.len() && w.context == context_of(lines[w.line - 1])
}

proof fn lemma_spans_on_line(l: Seq<char>, p: int, n: int, lines: Seq<Seq<char>>)
    requires
        1 <= n <= lines.len(),
        lines[n - 1] == l,
    ensures
        forall|i: int| 0 <= i < links_of_spans(l, wiki_spans(l, p), n).len() ==> link_on_its_line(
            #[trigger] links_of_spans(l, wiki_spans(l, p), n)[i],
            lines,
        ),
    decreases l.len() - p,
{
    if 0 <= p < l.len() {
        match wiki_match_end(l, p) {
            Some(e) => {
                lemma_spans_on_line(l, e, n, lines);
                let rest = wiki_spans(l, e);
                let all = seq![(p, e)] + rest;
                assert(wiki_spans(l, p) == all);
                assert forall|i: int| 0 <= i < links_of_spans(l, all, n).len() implies link_on_its_line(
                    #[trigger] links_of_spans(l, all, n)[i],
                    lines,
                ) by {
                    if i > 0 {
                        assert(links_of_spans(l, all, n)[i] == links_of_spans(l, rest, n)[i - 1]);
                    }
                }
            },
            None => {
                lemma_spans_on_line(l, p + 1, n, lines);
                assert(wiki_spans(l, p) == wiki_spans(l, p + 1));
            },
        }
    } else {
        assert(wiki_spans(l, p).len() == 0);
    }
}

proof fn lemma_lines_on_line(lines: Seq<Seq<char>>, k: int)
    requires
        0 <= k <= lines.len(),
    ensures
        forall|i: int| 0 <= i < links_of_lines(lines, k).len() ==> link_on_its_line(
            #[trigger] links_of_lines(lines, k)[i],
            lines,
        ),
    decreases k,
{
    if k > 0 {
        lemma_lines_on_line(lines, k - 1);
        lemma_spans_on_line(lines[k - 1], 0, k, lines);
        let a = links_of_lines(lines, k - 1);
        let b = links_of_spans(lines[k - 1], wiki_spans(lines[k - 1], 0), k);
        assert forall|i: int| 0 <= i < (a + b).len() implies link_on_its_line(
            #[trigger] (a + b)[i],
            lines,
        ) by {
            if i >= a.len() {
                assert((a + b)[i] == b[i - a.len()]);
            } else {
                assert((a + b)[i] == a[i]);
            }
        }
    }
}

/// Each link carries, as its context, the snippet of the body line it stands on.
pub proof fn law_link_context_is_its_line(body: Seq<char>)
    ensures
        forall|i: int|
            0 <= i < wiki_links(body).len() ==> link_on_its_line(
                #[trigger] wiki_links(body)[i],
                split_lines(body),
            ),
{
    lemma_lines_on_line(split_lines(body), split_lines(body).len() as int);
}

} // verus!
