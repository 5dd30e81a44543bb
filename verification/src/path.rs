//! Text paths: the platform's path functions, and what they give on every
//! platform for the paths whose reading no platform differs on.

use vstd::prelude::*;

verus! {

/// Whether `p` is a bare file name on every platform: no `/`, `\` or `:`
/// (so no separator and no drive or other prefix), and not `..`.
pub open spec fn bare_name(p: Seq<char>) -> bool {
    !p.contains('/') && !p.contains('\\') && !p.contains(':') && p != seq!['.', '.']
}

/// Whether `n` is a bare file name that is a component of its own: not
/// empty and not `.`.
pub open spec fn plain_name(n: Seq<char>) -> bool {
    bare_name(n) && n.len() > 0 && n != seq!['.']
}

/// Whether `r` is a directory path that every platform reads the same way:
/// not empty, no `\` or `:` (so no drive or other prefix), not starting with
/// `//` (a network prefix on some platforms) and not ending with `/`.
pub open spec fn plain_root(r: Seq<char>) -> bool {
    &&& r.len() > 0
    &&& !r.contains('\\')
    &&& !r.contains(':')
    &&& r.last() != '/'
    &&& !(r.len() >= 2 && r[0] == '/' && r[1] == '/')
}

/// Index of the last `c` among the first `n` characters of `p`, or -1.
pub open spec fn last_index_before(p: Seq<char>, c: char, n: int) -> int
    decreases n,
{
    if n <= 0 {
        -1
    } else if p[n - 1] == c {
        n - 1
    } else {
        last_index_before(p, c, n - 1)
    }
}

/// The name `n` when `p` is `base`, `/` and `n`, for a plain directory path
/// `base` and a plain file name `n` (see [`plain_root`] and [`plain_name`]).
pub open spec fn child_name(base: Seq<char>, p: Seq<char>) -> Option<Seq<char>> {
    let b = base.len() as int;
    if plain_root(base) && p.len() > b + 1 && p.subrange(0, b) == base && p[b] == '/'
        && plain_name(p.subrange(b + 1, p.len() as int)) {
        Some(p.subrange(b + 1, p.len() as int))
    } else {
        None
    }
}

/// The file name of `p` where every platform agrees on it: `p` itself when
/// it is a plain file name, or the part after its last `/` when that is a
/// plain file name and the part before it a plain directory path.
pub open spec fn named_file(p: Seq<char>) -> Option<Seq<char>> {
    let j = last_index_before(p, '/', p.len() as int);
    if plain_name(p) {
        Some(p)
    } else if j >= 0 && plain_root(p.subrange(0, j)) && plain_name(p.subrange(j + 1, p.len() as int)) {
        Some(p.subrange(j + 1, p.len() as int))
    } else {
        None
    }
}

/// The extension of file name `n`: what follows its final `.`, unless it has
/// no `.` or its only `.` is its first character.
pub open spec fn dot_extension(n: Seq<char>) -> Option<Seq<char>> {
    let d = last_index_before(n, '.', n.len() as int);
    if d > 0 {
        Some(n.subrange(d + 1, n.len() as int))
    } else {
        None
    }
}

/// The stem of file name `n`: what precedes its final `.`, or all of `n`
/// when it has no `.` or its only `.` is its first character.
pub open spec fn file_stem_of(n: Seq<char>) -> Seq<char> {
    let d = last_index_before(n, '.', n.len() as int);
    if d > 0 {
        n.subrange(0, d)
    } else {
        n
    }
}

/// Whether a component of `s` starts at `i`: at the start, or right after a `/`.
pub open spec fn component_start(s: Seq<char>, i: int) -> bool {
    i == 0 || s[i - 1] == '/'
}

/// Whether the component starting at `i` of `s` is `.` or `..`.
pub open spec fn dot_component(s: Seq<char>, i: int) -> bool {
    s[i] == '.' && (i + 1 == s.len() || s[i + 1] == '/' || (s[i + 1] == '.' && (i + 2 == s.len()
        || s[i + 2] == '/')))
}

/// Whether every platform reads `s` as the same components, its `/`-separated
/// names (after a root when it starts with `/`): `s` is not empty, holds no
/// `\` or `:` (so no drive or other prefix), no empty name (no `//`, no `/`
/// at the end) and no `.` or `..` name.
pub open spec fn clean_path(s: Seq<char>) -> bool {
    &&& s.len() > 0
    &&& !s.contains('\\')
    &&& !s.contains(':')
    &&& s.last() != '/'
    &&& forall|i: int| 0 <= i < s.len() - 1 && #[trigger] s[i] == '/' ==> s[i + 1] != '/'
    &&& forall|i: int| 0 <= i < s.len() && component_start(s, i) ==> !#[trigger] dot_component(s, i)
}

/// What is left of path `p` below `base`, for clean paths (see
/// [`clean_path`]): the empty path when they are equal; the text after
/// `base` and `/` when `p` continues `base` with a `/`; else nothing, as the
/// components of `base` are then no prefix of those of `p`.
pub open spec fn strip_of(base: Seq<char>, p: Seq<char>) -> Option<Seq<char>> {
    let b = base.len() as int;
    if p == base {
        Some(Seq::<char>::empty())
    } else if p.len() > b && p.subrange(0, b) == base && p[b] == '/' {
        Some(p.subrange(b + 1, p.len() as int))
    } else {
        None
    }
}

/// What a vault shows for path `p` under `root`, for clean paths: the part
/// below `root` when there is one, else `p` itself.
pub open spec fn shown_rel(root: Seq<char>, p: Seq<char>) -> Seq<char> {
    match strip_of(root, p) {
        Some(x) => x,
        None => p,
    }
}

/// The part of a clean path below another holds no `\`, nor does the path.
pub proof fn lemma_shown_rel_slash_free(root: Seq<char>, p: Seq<char>)
    requires
        clean_path(p),
    ensures
        !shown_rel(root, p).contains('\\'),
{
    if let Some(x) = strip_of(root, p) {
        if x.contains('\\') {
            let i = choose|i: int| 0 <= i < x.len() && x[i] == '\\';
            if p != root {
                assert(x[i] == p[i + root.len() + 1]);
                assert(p.contains('\\'));
            }
        }
    }
}

/// Whether `s` stands in `p` as a contiguous run of characters.
pub open spec fn part_of(s: Seq<char>, p: Seq<char>) -> bool {
    exists|i: int| 0 <= i && i + s.len() <= p.len() && #[trigger] p.subrange(i, i + s.len()) == s
}

/// The last `c` before `n` is at `j` when `p[j]` is `c` and no `c` follows
/// it before `n`.
proof fn lemma_last_index_at(p: Seq<char>, c: char, j: int, n: int)
    requires
        0 <= j < n <= p.len(),
        p[j] == c,
        forall|k: int| j < k < n ==> p[k] != c,
    ensures
        last_index_before(p, c, n) == j,
    decreases n,
{
    if n - 1 > j {
        lemma_last_index_at(p, c, j, n - 1);
    }
}

/// A path that is a plain directory path, `/` and a plain file name has that
/// name as its file name on every platform.
pub proof fn lemma_child_name_is_named_file(base: Seq<char>, p: Seq<char>)
    requires
        child_name(base, p) is Some,
    ensures
        named_file(p) == child_name(base, p),
{
    let b = base.len() as int;
    let n = p.subrange(b + 1, p.len() as int);
    assert forall|k: int| b < k < p.len() implies p[k] != '/' by {
        assert(p[k] == n[k - b - 1]);
    }
    lemma_last_index_at(p, '/', b, p.len() as int);
    assert(p.contains('/')) by {
        assert(p[b] == '/');
    }
    assert(p.subrange(0, b) == base);
}

/// Calls `std::path::Path::strip_prefix`: the path `p` relative to `base`
/// (lossily converted to text), or `None` when `base` is not a prefix of `p`
/// (compared component by component). Stated: a result is a contiguous part
/// of `p` (the components that follow `base`); when `p` is a plain
/// directory path `base`, `/` and a plain file name (see [`child_name`]),
/// every platform reads `p` as the components of `base` followed by that
/// name, so the result is the name; and when both paths are clean (see
/// [`clean_path`]), every platform reads both as their `/`-separated names,
/// so the result is [`strip_of`] them: what follows `base` when its names
/// begin those of `p`, else none. Which part is left of other paths depends
/// on the platform's path syntax and is not stated.
#[verifier::external_body]
pub(crate) fn path_strip_prefix(p: &str, base: &str) -> (r: Option<String>)
    ensures
        r matches Some(s) ==> part_of(s@, p@),
        child_name(base@, p@) matches Some(n) ==> r.deep_view() == Some(n),
        clean_path(base@) && clean_path(p@) ==> r.deep_view() == strip_of(base@, p@),
{
    std::path::Path::new(p).strip_prefix(base).ok().map(|r| r.to_string_lossy().into_owned())
}

/// Calls `std::path::Path::file_stem`: the file name of `p` without its
/// extension; none when `p` has no file name. Stated: a result is a
/// contiguous part of `p`; and where every platform agrees on the file name
/// (see [`named_file`]), the result is [`file_stem_of`] that name. Which
/// file name other paths have depends on the platform's path syntax and is
/// not stated.
#[verifier::external_body]
pub(crate) fn path_file_stem(p: &str) -> (r: Option<String>)
    ensures
        r matches Some(s) ==> part_of(s@, p@),
        named_file(p@) matches Some(n) ==> r.deep_view() == Some(file_stem_of(n)),
{
    std::path::Path::new(p).file_stem().and_then(|s| s.to_str()).map(|s| s.to_string())
}

/// Calls `std::path::Path::extension`: the part of `p`'s file name after its
/// final `.`; none when there is no file name, when the file name has no `.`,
/// or when its only `.` is its first character. Stated: such a part lies in
/// `p` right after a `.` and holds no `.`; when `p` is a bare file name
/// (see [`bare_name`]), `p` is its own file name on every platform, so the
/// result is [`dot_extension`] of `p`; and likewise where every platform
/// agrees on the file name (see [`named_file`]). Which file name other paths
/// have depends on the platform's path syntax and is not stated.
#[verifier::external_body]
pub(crate) fn path_extension(p: &str) -> (r: Option<String>)
    ensures
        r matches Some(e) ==> !e@.contains('.') && exists|i: int|
            1 <= i && i + e@.len() <= p@.len() && p@[i - 1] == '.' && #[trigger] p@.subrange(
                i,
                i + e@.len(),
            ) == e@,
        bare_name(p@) ==> r.deep_view() == dot_extension(p@),
        named_file(p@) matches Some(n) ==> r.deep_view() == dot_extension(n),
{
    std::path::Path::new(p).extension().and_then(|s| s.to_str()).map(|s| s.to_string())
}

/// Whether a `..` component of `s` (a whole `/`-separated name) is present.
pub open spec fn has_dotdot_component(s: Seq<char>) -> bool {
    exists|i: int|
        0 <= i && i + 1 < s.len() && component_start(s, i) && #[trigger] s[i] == '.' && s[i + 1] == '.'
            && (i + 2 == s.len() || s[i + 2] == '/')
}

/// Whether every platform splits `s` at `/` alone and reads no prefix in
/// it: no `\`, no `:` and no leading `//`.
pub open spec fn slash_only(s: Seq<char>) -> bool {
    !s.contains('\\') && !s.contains(':') && !(s.len() >= 2 && s[0] == '/' && s[1] == '/')
}

/// Calls `std::path::Path::is_absolute`. Stated: a path that every platform
/// reads without prefix or root (see [`slash_only`]; not starting with `/`)
/// is not absolute. Whether others are depends on the platform (`/x` is
/// absolute on Unix, not on Windows) and is not stated.
#[verifier::external_body]
pub(crate) fn path_is_absolute(p: &str) -> (r: bool)
    ensures
        slash_only(p@) && !(p@.len() > 0 && p@[0] == '/') ==> !r,
{
    std::path::Path::new(p).is_absolute()
}

/// Calls `std::path::Path::components` and tells whether one of them is
/// `Component::ParentDir`. Stated: for a path that every platform splits at
/// `/` alone (see [`slash_only`]), that is whether one of its names is `..`.
#[verifier::external_body]
pub(crate) fn path_has_parent_dir(p: &str) -> (r: bool)
    ensures
        slash_only(p@) ==> (r <==> has_dotdot_component(p@)),
{
    std::path::Path::new(p).components().any(|c| matches!(c, std::path::Component::ParentDir))
}

/// Why a note path given relative to the vault is refused.
#[derive(Debug, Clone, Copy, PartialEq, Eq)]
pub enum PathRefusal {
    /// The path is absolute
    Absolute,
    /// The path has a `..` component
    ParentDir,
}

/// The refusal for a note path from whether it is absolute and whether it
/// has a `..` component: absolute first, then `..`, else none.
pub open spec fn refusal_of(absolute: bool, parent: bool) -> Option<PathRefusal> {
    if absolute {
        Some(PathRefusal::Absolute)
    } else if parent {
        Some(PathRefusal::ParentDir)
    } else {
        None
    }
}

/// Why `rel`, a note path given relative to the vault, is refused before it
/// is joined to the vault root: an absolute path, then a path with a `..`
/// component; none when it is neither. Which paths are absolute comes from
/// the platform (see [`path_is_absolute`]); for a path that every platform
/// reads alike (see [`slash_only`]) and that does not start with `/`, the
/// refusal is exactly whether one of its names is `..`.
pub fn relative_path_refusal(rel: &str) -> (r: Option<PathRefusal>)
    ensures
        exists|absolute: bool, parent: bool|
            {
                &&& slash_only(rel@) && !(rel@.len() > 0 && rel@[0] == '/') ==> !absolute
                &&& slash_only(rel@) ==> (parent <==> has_dotdot_component(rel@))
                &&& r == #[trigger] refusal_of(absolute, parent)
            },
        slash_only(rel@) && !(rel@.len() > 0 && rel@[0] == '/') ==> r == refusal_of(
            false,
            has_dotdot_component(rel@),
        ),
{
    let absolute = path_is_absolute(rel);
    let parent = path_has_parent_dir(rel);
    let r = if absolute {
        Some(PathRefusal::Absolute)
    } else if parent {
        Some(PathRefusal::ParentDir)
    } else {
        None
    };
    proof {
        assert(r == refusal_of(absolute, parent));
    }
    r
}

} // verus!
