//! The computations of the note index that do not touch the database:
//! search phrases, `LIKE` patterns, link resolution order, snippets,
//! batching of a rebuild and the text of the tag column.

use vstd::prelude::*;
use vstd::string::StringExecFns;
use crate::parser::{context_of, extract_link_target, link_target_of};
use crate::text::{
    chars_of, control_code, is_control, lines_of, push_char, split_lines, string_of_range, trim,
    trim_bounds,
};

verus! {

/// Number of notes written per transaction during a full rebuild.
pub const BATCH_SIZE: usize = 1000;

/// A backlink: a note that links to the queried note.
#[derive(Debug, Clone)]
pub struct BacklinkRow {
    /// Relative path of the linking note
    pub from_path: String,
    /// Title of the linking note
    pub from_title: String,
    /// Line of the link
    pub line: i64,
    /// That line of the linking note, without the `[[` `]]` wrapping of its
    /// links (see [`extract_line_snippet`])
    pub snippet: String,
}

/// A wiki link whose target path is not a note of the index.
#[derive(Debug, Clone)]
pub struct UnresolvedLinkRow {
    /// Relative path of the linking note
    pub from_path: String,
    /// The raw `[[...]]` text
    pub to_text: String,
    /// Line of the link
    pub line: i64,
}

/// Index (0-based) of the line that [`extract_line_snippet`] reads for `line`:
/// lines below 1 read the first line.
pub open spec fn snippet_line_index(line: i64) -> int {
    let target = (if line <= 0 {
        1i64
    } else {
        line
    }) as usize as int;
    if target > 0 {
        target - 1
    } else {
        0
    }
}

/// Maximum number of characters of a line kept in a backlink snippet.
pub const SNIPPET_MAX: usize = 200;

/// `s` without the `[[` `]]` wrapping of wiki links: reading left to right,
/// each `[[` and each `]]` is dropped.
pub open spec fn unbracketed(s: Seq<char>) -> Seq<char>
    decreases s.len(),
{
    if s.len() == 0 {
        Seq::<char>::empty()
    } else if s.len() >= 2 && ((s[0] == '[' && s[1] == '[') || (s[0] == ']' && s[1] == ']')) {
        unbracketed(s.subrange(2, s.len() as int))
    } else {
        seq![s[0]] + unbracketed(s.subrange(1, s.len() as int))
    }
}

/// The snippet of a note line: the line without its link brackets, trimmed;
/// when that is longer than [`SNIPPET_MAX`] characters, its middle
/// [`SNIPPET_MAX`] characters between two `…`.
pub open spec fn snippet_of_line(line: Seq<char>) -> Seq<char> {
    let u = trim(unbracketed(line));
    if u.len() > SNIPPET_MAX {
        let a = (u.len() - SNIPPET_MAX) / 2;
        seq!['…'] + u.subrange(a, a + SNIPPET_MAX) + seq!['…']
    } else {
        u
    }
}

/// Line `line` (1-based) of `body` as a backlink snippet (see
/// [`snippet_of_line`]); empty when `body` has no such line.
pub open spec fn line_snippet(body: Seq<char>, line: i64) -> Seq<char> {
    let k = snippet_line_index(line);
    if k < split_lines(body).len() {
        snippet_of_line(split_lines(body)[k])
    } else {
        Seq::<char>::empty()
    }
}

/// The characters of `v` without the `[[` `]]` wrapping; see [`unbracketed`].
fn unbracket(v: &Vec<char>) -> (r: Vec<char>)
    ensures
        r@ == unbracketed(v@),
{
    let mut out: Vec<char> = Vec::new();
    let mut i: usize = 0;
    proof {
        assert(v@.subrange(0, v@.len() as int) =~= v@);
    }
    while i < v.len()
        invariant
            i <= v.len(),
            unbracketed(v@) == out@ + unbracketed(v@.subrange(i as int, v@.len() as int)),
        decreases v.len() - i,
    {
        let ghost rest = v@.subrange(i as int, v@.len() as int);
        if i + 1 < v.len() && ((v[i] == '[' && v[i + 1] == '[') || (v[i] == ']' && v[i + 1] == ']')) {
            proof {
                assert(rest.subrange(2, rest.len() as int) =~= v@.subrange(i + 2, v@.len() as int));
            }
            i += 2;
        } else {
            proof {
                assert(rest.subrange(1, rest.len() as int) =~= v@.subrange(i + 1, v@.len() as int));
                assert(out@.push(v@[i as int]) + unbracketed(v@.subrange(i + 1, v@.len() as int))
                    =~= out@ + (seq![v@[i as int]] + unbracketed(v@.subrange(i + 1, v@.len() as int))));
            }
            out.push(v[i]);
            i += 1;
        }
    }
    proof {
        assert(out@ + unbracketed(v@.subrange(i as int, v@.len() as int)) =~= out@);
    }
    out
}

/// The snippet of the line `l`; see [`snippet_of_line`].
fn snippet_in(l: &Vec<char>) -> (r: String)
    ensures
        r@ == snippet_of_line(l@),
{
    let u = unbracket(l);
    let (x, y) = trim_bounds(&u, 0, u.len());
    proof {
        assert(u@.subrange(0, u@.len() as int) =~= u@);
    }
    let ghost t = u@.subrange(x as int, y as int);
    if y - x > SNIPPET_MAX {
        let a = x + (y - x - SNIPPET_MAX) / 2;
        let mut out = String::new();
        push_char(&mut out, '…');
        let mid = string_of_range(&u, a, a + SNIPPET_MAX);
        out.append(mid.as_str());
        push_char(&mut out, '…');
        proof {
            let a0 = (t.len() - SNIPPET_MAX) / 2;
            assert(a == x + a0);
            assert(mid@ =~= t.subrange(a0, a0 + SNIPPET_MAX));
        }
        out
    } else {
        string_of_range(&u, x, y)
    }
}

/// Line `line` (1-based) of `body` as a backlink snippet; see [`line_snippet`].
pub fn extract_line_snippet(body: &str, line: i64) -> (r: String)
    ensures
        r@ == line_snippet(body@, line),
{
    let target: usize = if line <= 0 {
        1
    } else {
        line as usize
    };
    let k: usize = if target > 0 {
        target - 1
    } else {
        0
    };
    let v = chars_of(body);
    let lines = lines_of(&v);
    if k < lines.len() {
        snippet_in(&lines[k])
    } else {
        String::new()
    }
}

/// `s` without its control characters.
pub open spec fn drop_controls(s: Seq<char>) -> Seq<char>
    decreases s.len(),
{
    if s.len() == 0 {
        Seq::<char>::empty()
    } else {
        (if control_code(s[0]) {
            Seq::<char>::empty()
        } else {
            seq![s[0]]
        }) + drop_controls(s.drop_first())
    }
}

/// `s` with each `"` doubled.
pub open spec fn double_quotes(s: Seq<char>) -> Seq<char>
    decreases s.len(),
{
    if s.len() == 0 {
        Seq::<char>::empty()
    } else {
        (if s[0] == '"' {
            seq!['"', '"']
        } else {
            seq![s[0]]
        }) + double_quotes(s.drop_first())
    }
}

/// The FTS5 phrase for query `q`: its characters without control characters,
/// `"` doubled, between double quotes.
pub open spec fn fts5_phrase(q: Seq<char>) -> Seq<char> {
    seq!['"'] + double_quotes(drop_controls(q)) + seq!['"']
}

/// Quotes `q` as an FTS5 phrase, so that FTS5 reads it as literal text; see [`fts5_phrase`].
pub fn safe_fts5_phrase(q: &str) -> (r: String)
    ensures
        r@ == fts5_phrase(q@),
{
    let v = chars_of(q);
    let mut out = String::new();
    push_char(&mut out, '"');
    let mut i: usize = 0;
    proof {
        assert(v@.subrange(0, v@.len() as int) =~= v@);
        assert(out@ == seq!['"']);
    }
    while i < v.len()
        invariant
            i <= v.len(),
            out@ + double_quotes(drop_controls(v@.subrange(i as int, v@.len() as int))) + seq!['"']
                == fts5_phrase(v@),
        decreases v.len() - i,
    {
        let ghost before = out@;
        let ghost rest = v@.subrange(i + 1, v@.len() as int);
        proof {
            assert(v@.subrange(i as int, v@.len() as int).drop_first() =~= rest);
            assert(v@.subrange(i as int, v@.len() as int)[0] == v@[i as int]);
        }
        let c = v[i];
        if !is_control(c) {
            if c == '"' {
                push_char(&mut out, '"');
                push_char(&mut out, '"');
                proof {
                    assert(drop_controls(v@.subrange(i as int, v@.len() as int)) =~= seq![c]
                        + drop_controls(rest));
                    assert((seq![c] + drop_controls(rest)).drop_first() =~= drop_controls(rest));
                    assert(double_quotes(seq![c] + drop_controls(rest)) =~= seq!['"', '"']
                        + double_quotes(drop_controls(rest)));
                    assert(out@ =~= before + seq!['"', '"']);
                }
            } else {
                push_char(&mut out, c);
                proof {
                    assert(drop_controls(v@.subrange(i as int, v@.len() as int)) =~= seq![c]
                        + drop_controls(rest));
                    assert((seq![c] + drop_controls(rest)).drop_first() =~= drop_controls(rest));
                    assert(double_quotes(seq![c] + drop_controls(rest)) =~= seq![c] + double_quotes(
                        drop_controls(rest),
                    ));
                    assert(out@ =~= before + seq![c]);
                }
            }
        } else {
            proof {
                assert(drop_controls(v@.subrange(i as int, v@.len() as int)) =~= drop_controls(
                    rest,
                ));
            }
        }
        i += 1;
        proof {
            assert(out@ + double_quotes(drop_controls(rest)) + seq!['"'] =~= fts5_phrase(v@));
        }
    }
    proof {
        assert(v@.subrange(v@.len() as int, v@.len() as int) =~= Seq::<char>::empty());
    }
    push_char(&mut out, '"');
    proof {
        assert(out@ =~= fts5_phrase(v@));
    }
    out
}

/// The FTS5 query for search text `query`: `None` when it is blank, else the
/// phrase for the trimmed text.
pub open spec fn search_query(query: Seq<char>) -> Option<Seq<char>> {
    if trim(query).len() == 0 {
        None
    } else {
        Some(fts5_phrase(trim(query)))
    }
}

/// The FTS5 query for search text `query`; see [`search_query`].
pub fn fts5_query(query: &str) -> (r: Option<String>)
    ensures
        r.deep_view() == search_query(query@),
{
    let v = chars_of(query);
    let (a, b) = trim_bounds(&v, 0, v.len());
    proof {
        assert(v@.subrange(0, v@.len() as int) =~= v@);
    }
    if a == b {
        None
    } else {
        let q = string_of_range(&v, a, b);
        Some(safe_fts5_phrase(q.as_str()))
    }
}

/// `s` with `\`, `%` and `_` each preceded by `\`.
pub open spec fn like_escaped(s: Seq<char>) -> Seq<char>
    decreases s.len(),
{
    if s.len() == 0 {
        Seq::<char>::empty()
    } else {
        (if s[0] == '\\' || s[0] == '%' || s[0] == '_' {
            seq!['\\', s[0]]
        } else {
            seq![s[0]]
        }) + like_escaped(s.drop_first())
    }
}

/// Escapes `s` for a `LIKE ... ESCAPE '\'` pattern; see [`like_escaped`].
pub fn like_escape(s: &str) -> (r: String)
    ensures
        r@ == like_escaped(s@),
{
    let v = chars_of(s);
    let mut out = String::new();
    let mut i: usize = 0;
    proof {
        assert(v@.subrange(0, v@.len() as int) =~= v@);
        assert(out@ + like_escaped(v@) =~= like_escaped(v@));
    }
    while i < v.len()
        invariant
            i <= v.len(),
            out@ + like_escaped(v@.subrange(i as int, v@.len() as int)) == like_escaped(v@),
        decreases v.len() - i,
    {
        let ghost before = out@;
        let ghost rest = v@.subrange(i + 1, v@.len() as int);
        proof {
            assert(v@.subrange(i as int, v@.len() as int).drop_first() =~= rest);
            assert(v@.subrange(i as int, v@.len() as int)[0] == v@[i as int]);
        }
        let c = v[i];
        if c == '\\' || c == '%' || c == '_' {
            push_char(&mut out, '\\');
        }
        push_char(&mut out, c);
        i += 1;
        proof {
            if c == '\\' || c == '%' || c == '_' {
                assert(out@ =~= before + seq!['\\', c]);
            } else {
                assert(out@ =~= before + seq![c]);
            }
            assert(out@ + like_escaped(rest) =~= before + like_escaped(
                v@.subrange(i - 1, v@.len() as int),
            ));
        }
    }
    proof {
        assert(v@.subrange(v@.len() as int, v@.len() as int) =~= Seq::<char>::empty());
        assert(out@ + Seq::<char>::empty() =~= out@);
    }
    out
}

} // verus!

verus! {

/// One lookup of [`resolve_link_queries`], in the order they are tried.
#[derive(Debug, Clone)]
pub enum LinkQuery {
    /// Notes whose title equals the text
    ExactTitle(String),
    /// Notes whose title equals the text, ignoring case
    TitleIgnoreCase(String),
    /// Notes whose path matches the `LIKE ... ESCAPE '\'` pattern
    PathLike(String),
}

/// Mathematical model of a [`LinkQuery`].
pub enum LinkQueryView {
    ExactTitle(Seq<char>),
    TitleIgnoreCase(Seq<char>),
    PathLike(Seq<char>),
}

impl View for LinkQuery {
    type V = LinkQueryView;

    open spec fn view(&self) -> LinkQueryView {
        match self {
            LinkQuery::ExactTitle(s) => LinkQueryView::ExactTitle(s@),
            LinkQuery::TitleIgnoreCase(s) => LinkQueryView::TitleIgnoreCase(s@),
            LinkQuery::PathLike(s) => LinkQueryView::PathLike(s@),
        }
    }
}

/// The `LIKE` pattern matching paths that contain `t` literally.
pub open spec fn contains_pattern(t: Seq<char>) -> Seq<char> {
    seq!['%'] + like_escaped(t) + seq!['%']
}

/// The lookups that resolve link text `text`, tried in order until one finds
/// a note: the exact title, the title ignoring case, then paths containing
/// the target. None when the text names no target.
pub open spec fn link_queries(text: Seq<char>) -> Seq<LinkQueryView> {
    let t = link_target_of(text);
    if t.len() == 0 {
        Seq::<LinkQueryView>::empty()
    } else {
        seq![
            LinkQueryView::ExactTitle(t),
            LinkQueryView::TitleIgnoreCase(t),
            LinkQueryView::PathLike(contains_pattern(t)),
        ]
    }
}

/// The lookups that resolve link text `text`; see [`link_queries`].
pub fn resolve_link_queries(text: &str) -> (r: Vec<LinkQuery>)
    ensures
        r@.map_values(|q: LinkQuery| q@) == link_queries(text@),
{
    let target = extract_link_target(text);
    let mut out: Vec<LinkQuery> = Vec::new();
    if target.as_str().is_empty() {
        proof {
            assert(out@.map_values(|q: LinkQuery| q@) =~= link_queries(text@));
        }
        return out;
    }
    let mut pattern = String::new();
    push_char(&mut pattern, '%');
    let escaped = like_escape(target.as_str());
    pattern.append(escaped.as_str());
    push_char(&mut pattern, '%');
    out.push(LinkQuery::ExactTitle(target.clone()));
    out.push(LinkQuery::TitleIgnoreCase(target.clone()));
    out.push(LinkQuery::PathLike(pattern));
    proof {
        assert(pattern@ =~= contains_pattern(target@));
        assert(out@.map_values(|q: LinkQuery| q@) =~= link_queries(text@));
    }
    out
}

/// The batches `(start, end)` of a rebuild of `total` notes, from `start`:
/// consecutive ranges of [`BATCH_SIZE`] notes, the last one possibly shorter.
pub open spec fn batches_from(total: usize, start: usize) -> Seq<(usize, usize)>
    decreases total - start,
{
    if start >= total {
        Seq::<(usize, usize)>::empty()
    } else {
        let end = if total - start > BATCH_SIZE {
            (start + BATCH_SIZE) as usize
        } else {
            total
        };
        seq![(start, end)] + batches_from(total, end)
    }
}

/// The batches of a rebuild of `total` notes; see [`batches_from`].
pub fn batch_ranges(total: usize) -> (r: Vec<(usize, usize)>)
    ensures
        r@ == batches_from(total, 0),
{
    let mut out: Vec<(usize, usize)> = Vec::new();
    let mut start: usize = 0;
    proof {
        assert(out@ + batches_from(total, 0) =~= batches_from(total, 0));
    }
    while start < total
        invariant
            start <= total,
            out@ + batches_from(total, start) == batches_from(total, 0),
        decreases total - start,
    {
        let end = if total - start > BATCH_SIZE {
            start + BATCH_SIZE
        } else {
            total
        };
        let ghost before = out@;
        out.push((start, end));
        proof {
            assert(batches_from(total, start) == seq![(start, end)] + batches_from(total, end));
            assert(out@ + batches_from(total, end) =~= before + batches_from(total, start));
        }
        start = end;
    }
    proof {
        assert(out@ + Seq::<(usize, usize)>::empty() =~= out@);
    }
    out
}

/// The words of `s` joined by single spaces.
pub open spec fn join_words(s: Seq<Seq<char>>) -> Seq<char>
    decreases s.len(),
{
    if s.len() == 0 {
        Seq::<char>::empty()
    } else if s.len() == 1 {
        s[0]
    } else {
        join_words(s.drop_last()) + seq![' '] + s.last()
    }
}

/// The tags of a note as one space-separated text (the index's tag column).
pub fn join_tags(tags: &Vec<String>) -> (r: String)
    ensures
        r@ == join_words(tags.deep_view()),
{
    let mut out = String::new();
    let mut i: usize = 0;
    while i < tags.len()
        invariant
            i <= tags.len(),
            out@ == join_words(tags.deep_view().take(i as int)),
        decreases tags.len() - i,
    {
        let ghost before = out@;
        if i > 0 {
            push_char(&mut out, ' ');
        }
        out.append(tags[i].as_str());
        proof {
            let t = tags.deep_view().take(i + 1);
            assert(t.drop_last() =~= tags.deep_view().take(i as int));
            assert(t.last() == tags@[i as int]@);
            if i == 0 {
                assert(out@ =~= t[0]);
            } else {
                assert(out@ =~= before + seq![' '] + t.last());
            }
        }
        i += 1;
    }
    proof {
        assert(tags.deep_view().take(tags.len() as int) =~= tags.deep_view());
    }
    out
}

} // verus!

verus! {

/// The text a `LIKE ... ESCAPE '\'` pattern matches when it has no wildcard:
/// `\c` stands for `c`; `None` when the pattern holds an unescaped `%` or `_`,
/// or ends in a lone `\`.
pub open spec fn like_literal(p: Seq<char>) -> Option<Seq<char>>
    decreases p.len(),
{
    if p.len() == 0 {
        Some(Seq::<char>::empty())
    } else if p[0] == '\\' {
        if p.len() >= 2 {
            match like_literal(p.subrange(2, p.len() as int)) {
                Some(x) => Some(seq![p[1]] + x),
                None => None,
            }
        } else {
            None
        }
    } else if p[0] == '%' || p[0] == '_' {
        None
    } else {
        match like_literal(p.drop_first()) {
            Some(x) => Some(seq![p[0]] + x),
            None => None,
        }
    }
}

/// An escaped text is a wildcard-free `LIKE` pattern that matches exactly the text.
pub proof fn law_like_escape_literal(s: Seq<char>)
    ensures
        like_literal(like_escaped(s)) == Some(s),
    decreases s.len(),
{
    if s.len() > 0 {
        let rest = like_escaped(s.drop_first());
        law_like_escape_literal(s.drop_first());
        let p = like_escaped(s);
        if s[0] == '\\' || s[0] == '%' || s[0] == '_' {
            assert(p == seq!['\\', s[0]] + rest);
            assert(p.subrange(2, p.len() as int) =~= rest);
        } else {
            assert(p == seq![s[0]] + rest);
            assert(p.drop_first() =~= rest);
        }
        assert(seq![s[0]] + s.drop_first() =~= s);
    }
}

/// The text between FTS5 phrase quotes: `""` stands for `"`; `None` when a
/// `"` is not doubled.
pub open spec fn undouble_quotes(p: Seq<char>) -> Option<Seq<char>>
    decreases p.len(),
{
    if p.len() == 0 {
        Some(Seq::<char>::empty())
    } else if p[0] == '"' {
        if p.len() >= 2 && p[1] == '"' {
            match undouble_quotes(p.subrange(2, p.len() as int)) {
                Some(x) => Some(seq!['"'] + x),
                None => None,
            }
        } else {
            None
        }
    } else {
        match undouble_quotes(p.drop_first()) {
            Some(x) => Some(seq![p[0]] + x),
            None => None,
        }
    }
}

/// The literal text of an FTS5 string `"..."`, if `p` is one.
pub open spec fn fts5_literal(p: Seq<char>) -> Option<Seq<char>> {
    if p.len() >= 2 && p[0] == '"' && p.last() == '"' {
        undouble_quotes(p.subrange(1, p.len() - 1))
    } else {
        None
    }
}

proof fn lemma_undouble_quotes(s: Seq<char>)
    ensures
        undouble_quotes(double_quotes(s)) == Some(s),
    decreases s.len(),
{
    if s.len() > 0 {
        let rest = double_quotes(s.drop_first());
        lemma_undouble_quotes(s.drop_first());
        let p = double_quotes(s);
        if s[0] == '"' {
            assert(p == seq!['"', '"'] + rest);
            assert(p.subrange(2, p.len() as int) =~= rest);
        } else {
            assert(p == seq![s[0]] + rest);
            assert(p.drop_first() =~= rest);
        }
        assert(seq![s[0]] + s.drop_first() =~= s);
    }
}

proof fn lemma_drop_controls_clean(s: Seq<char>)
    ensures
        forall|i: int| 0 <= i < drop_controls(s).len() ==> !control_code(#[trigger] drop_controls(s)[i]),
    decreases s.len(),
{
    if s.len() > 0 {
        lemma_drop_controls_clean(s.drop_first());
        let rest = drop_controls(s.drop_first());
        if !control_code(s[0]) {
            assert forall|i: int| 0 <= i < drop_controls(s).len() implies !control_code(
                #[trigger] drop_controls(s)[i],
            ) by {
                if i > 0 {
                    assert(drop_controls(s)[i] == rest[i - 1]);
                }
            }
        }
    }
}

/// The search phrase is a single FTS5 string whose literal text is the query
/// without its control characters, so FTS5 reads no operator, column filter
/// or wildcard from it.
pub proof fn law_fts5_phrase_literal(q: Seq<char>)
    ensures
        fts5_literal(fts5_phrase(q)) == Some(drop_controls(q)),
        forall|i: int| 0 <= i < drop_controls(q).len() ==> !control_code(#[trigger] drop_controls(q)[i]),
{
    let p = fts5_phrase(q);
    let inner = double_quotes(drop_controls(q));
    lemma_undouble_quotes(drop_controls(q));
    assert(p.subrange(1, p.len() - 1) =~= inner);
    assert(p[0] == '"');
    assert(p.last() == '"');
    lemma_drop_controls_clean(q);
}

/// Facts about the batches from `start`.
proof fn lemma_batches_from(total: usize, start: usize)
    requires
        start <= total,
    ensures
        ({
            let b = batches_from(total, start);
            &&& (b.len() == 0 <==> start == total)
            &&& b.len() > 0 ==> b[0].0 == start && b.last().1 == total
            &&& forall|k: int| 0 <= k < b.len() ==> 0 < #[trigger] b[k].1 - b[k].0 <= BATCH_SIZE
            &&& forall|k: int| 0 <= k < b.len() - 1 ==> #[trigger] b[k].1 == b[k + 1].0
        }),
    decreases total - start,
{
    if start < total {
        let end = if total - start > BATCH_SIZE {
            (start + BATCH_SIZE) as usize
        } else {
            total
        };
        lemma_batches_from(total, end);
        let rest = batches_from(total, end);
        let b = batches_from(total, start);
        assert(b == seq![(start, end)] + rest);
        assert forall|k: int| 0 <= k < b.len() implies 0 < #[trigger] b[k].1 - b[k].0 <= BATCH_SIZE by {
            if k > 0 {
                assert(b[k] == rest[k - 1]);
            }
        }
        assert forall|k: int| 0 <= k < b.len() - 1 implies #[trigger] b[k].1 == b[k + 1].0 by {
            if k > 0 {
                assert(b[k] == rest[k - 1]);
                assert(b[k + 1] == rest[k]);
            } else if rest.len() > 0 {
                assert(b[1] == rest[0]);
            }
        }
        if rest.len() > 0 {
            assert(b.last() == rest.last());
        }
    }
}

/// A rebuild's batches cover the notes `0..total` in order, without gap or
/// overlap, each holding between 1 and [`BATCH_SIZE`] notes.
pub proof fn law_batches_partition(total: usize)
    ensures
        ({
            let b = batches_from(total, 0);
            &&& (b.len() == 0 <==> total == 0)
            &&& b.len() > 0 ==> b[0].0 == 0 && b.last().1 == total
            &&& forall|k: int| 0 <= k < b.len() ==> 0 < #[trigger] b[k].1 - b[k].0 <= BATCH_SIZE
            &&& forall|k: int| 0 <= k < b.len() - 1 ==> #[trigger] b[k].1 == b[k + 1].0
        }),
{
    lemma_batches_from(total, 0);
}

} // verus!

verus! {

/// A backlink shows the line that holds the link: the snippet for a link's
/// line number, read from the body the link was extracted from, is the
/// snippet of the very line whose context the link carries.
pub proof fn law_backlink_snippet_is_link_line(body: Seq<char>)
    requires
        body.len() < i64::MAX,
        body.len() < usize::MAX,
    ensures
        forall|i: int|
            0 <= i < crate::parser::wiki_links(body).len() ==> {
                let w = #[trigger] crate::parser::wiki_links(body)[i];
                &&& 1 <= w.line <= split_lines(body).len()
                &&& line_snippet(body, w.line as i64) == snippet_of_line(split_lines(body)[w.line - 1])
                &&& w.context == context_of(split_lines(body)[w.line - 1])
            },
{
    crate::parser::law_link_context_is_its_line(body);
    crate::text::lemma_split_lines_len(body);
    assert forall|i: int| 0 <= i < crate::parser::wiki_links(body).len() implies {
        let w = #[trigger] crate::parser::wiki_links(body)[i];
        &&& 1 <= w.line <= split_lines(body).len()
        &&& line_snippet(body, w.line as i64) == snippet_of_line(split_lines(body)[w.line - 1])
        &&& w.context == context_of(split_lines(body)[w.line - 1])
    } by {
        let w = crate::parser::wiki_links(body)[i];
        assert(crate::parser::link_on_its_line(w, split_lines(body)));
        assert(snippet_line_index(w.line as i64) == w.line - 1);
    }
}

} // verus!
