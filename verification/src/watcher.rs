//! Turning file-system notifications about a vault into note events.
//!
//! The watcher itself (its thread and the `notify` backend) runs outside the
//! library; it hands over each notification as an [`FsEventKind`] and the
//! affected paths, and gets back the [`VaultEvent`] to report, if any.

use vstd::prelude::*;
use crate::path::{
    bare_name, child_name, clean_path, dot_extension, lemma_shown_rel_slash_free, named_file,
    path_extension, path_strip_prefix, shown_rel,
};
use crate::vault::{normalize_separators, slash_form_of_part, shown_path};

verus! {

/// A change to a note of the vault, as reported to the front end.
#[derive(Debug, Clone)]
pub enum VaultEvent {
    Created { path: String },
    Modified { path: String },
    Deleted { path: String },
    Renamed { old_path: String, new_path: String },
}

/// Mathematical model of a [`VaultEvent`].
pub enum VaultEventView {
    Created { path: Seq<char> },
    Modified { path: Seq<char> },
    Deleted { path: Seq<char> },
    Renamed { old_path: Seq<char>, new_path: Seq<char> },
}

impl View for VaultEvent {
    type V = VaultEventView;

    open spec fn view(&self) -> VaultEventView {
        match self {
            VaultEvent::Created { path } => VaultEventView::Created { path: path@ },
            VaultEvent::Modified { path } => VaultEventView::Modified { path: path@ },
            VaultEvent::Deleted { path } => VaultEventView::Deleted { path: path@ },
            VaultEvent::Renamed { old_path, new_path } => VaultEventView::Renamed {
                old_path: old_path@,
                new_path: new_path@,
            },
        }
    }
}

/// The kind of a file-system notification.
#[derive(Debug, Clone, Copy, PartialEq, Eq)]
pub enum FsEventKind {
    /// A file or directory was created
    Create,
    /// A file or directory was renamed or moved
    Rename,
    /// A file's content or metadata changed
    Modify,
    /// A file or directory was removed
    Remove,
    /// Anything else (access, unknown)
    Other,
}

/// Index of the first note path, by the flags `md`, or `md.len()`.
pub open spec fn first_md_index(md: Seq<bool>, i: int) -> int
    decreases md.len() - i,
{
    if i >= md.len() || md[i] {
        i
    } else {
        first_md_index(md, i + 1)
    }
}

/// The event for a notification of kind `kind` about paths whose note flags
/// are `md` and whose vault-relative forms are `rels`: a rename of two paths
/// involving a note is a rename; otherwise the first note path, if any, is
/// created, modified or deleted according to the kind.
pub open spec fn event_of(kind: FsEventKind, md: Seq<bool>, rels: Seq<Seq<char>>) -> Option<
    VaultEventView,
> {
    let f = first_md_index(md, 0);
    match kind {
        FsEventKind::Create => if f < md.len() {
            Some(VaultEventView::Created { path: rels[f] })
        } else {
            None
        },
        FsEventKind::Rename => if md.len() >= 2 {
            if md[0] || md[1] {
                Some(VaultEventView::Renamed { old_path: rels[0], new_path: rels[1] })
            } else {
                None
            }
        } else if f < md.len() {
            Some(VaultEventView::Modified { path: rels[f] })
        } else {
            None
        },
        FsEventKind::Modify => if f < md.len() {
            Some(VaultEventView::Modified { path: rels[f] })
        } else {
            None
        },
        FsEventKind::Remove => if f < md.len() {
            Some(VaultEventView::Deleted { path: rels[f] })
        } else {
            None
        },
        FsEventKind::Other => None,
    }
}

/// The model of an optional event.
pub open spec fn event_view(e: Option<VaultEvent>) -> Option<VaultEventView> {
    match e {
        Some(v) => Some(v@),
        None => None,
    }
}

/// The index of the first path flagged as a note; see [`first_md_index`].
pub fn first_md(md: &Vec<bool>) -> (r: usize)
    ensures
        r == first_md_index(md@, 0),
        r <= md.len(),
{
    let mut i: usize = 0;
    while i < md.len() && !md[i]
        invariant
            i <= md.len(),
            first_md_index(md@, 0) == first_md_index(md@, i as int),
        decreases md.len() - i,
    {
        i += 1;
    }
    i
}

/// Decides the event for a notification; see [`event_of`].
pub fn classify_event(kind: FsEventKind, md: &Vec<bool>, rels: &Vec<String>) -> (r: Option<
    VaultEvent,
>)
    requires
        md.len() == rels.len(),
    ensures
        event_view(r) == event_of(kind, md@, rels.deep_view()),
{
    let f = first_md(md);
    match kind {
        FsEventKind::Create => if f < md.len() {
            Some(VaultEvent::Created { path: rels[f].clone() })
        } else {
            None
        },
        FsEventKind::Rename => if md.len() >= 2 {
            if md[0] || md[1] {
                Some(VaultEvent::Renamed { old_path: rels[0].clone(), new_path: rels[1].clone() })
            } else {
                None
            }
        } else if f < md.len() {
            Some(VaultEvent::Modified { path: rels[f].clone() })
        } else {
            None
        },
        FsEventKind::Modify => if f < md.len() {
            Some(VaultEvent::Modified { path: rels[f].clone() })
        } else {
            None
        },
        FsEventKind::Remove => if f < md.len() {
            Some(VaultEvent::Deleted { path: rels[f].clone() })
        } else {
            None
        },
        FsEventKind::Other => None,
    }
}

/// Whether an extension is that of a Markdown note: exactly `md`.
pub fn is_md_extension(ext: &Option<String>) -> (r: bool)
    ensures
        r == (ext.deep_view() == Some(seq!['m', 'd'])),
{
    match ext {
        Some(e) => {
            let v = crate::text::chars_of(e.as_str());
            let r = v.len() == 2 && v[0] == 'm' && v[1] == 'd';
            proof {
                if r {
                    assert(v@ =~= seq!['m', 'd']);
                } else if v@ == seq!['m', 'd'] {
                    assert(v@[0] == 'm' && v@[1] == 'd');
                }
            }
            r
        },
        None => false,
    }
}

/// Whether `p` holds `.md` somewhere: what every path that names a Markdown
/// note holds, whatever the platform's path syntax.
pub open spec fn md_named(p: Seq<char>) -> bool {
    exists|i: int| 1 <= i && i + 2 <= p.len() && p[i - 1] == '.' && #[trigger] p[i] == 'm' && p[i + 1] == 'd'
}

/// Whether path `p` names a Markdown note, by its extension (see [`path_extension`]).
pub fn is_md(p: &str) -> (r: bool)
    ensures
        r ==> md_named(p@),
        bare_name(p@) ==> (r <==> dot_extension(p@) == Some(seq!['m', 'd'])),
        named_file(p@) matches Some(n) ==> (r <==> dot_extension(n) == Some(seq!['m', 'd'])),
{
    let ext = path_extension(p);
    let r = is_md_extension(&ext);
    proof {
        if r {
            let e = ext.deep_view()->0;
            assert(e == seq!['m', 'd']);
            let i = choose|i: int|
                1 <= i && i + e.len() <= p@.len() && p@[i - 1] == '.' && #[trigger] p@.subrange(
                    i,
                    i + e.len(),
                ) == e;
            assert(p@.subrange(i, i + 2)[0] == p@[i]);
            assert(p@.subrange(i, i + 2)[1] == p@[i + 1]);
        }
    }
    r
}

/// The vault-relative form of `p` for the vault at `root`, with `/`
/// separators; `p` itself when `root` is not a prefix of it. For clean paths
/// (see [`clean_path`]) it is exactly [`shown_rel`] of them.
pub fn rel(root: &str, p: &str) -> (r: String)
    ensures
        slash_form_of_part(r@, p@),
        !r@.contains('\\'),
        child_name(root@, p@) matches Some(n) ==> r@ == n,
        clean_path(root@) && clean_path(p@) ==> r@ == shown_rel(root@, p@),
{
    let stripped = path_strip_prefix(p, root);
    let ghost sv = stripped.deep_view();
    let s = match stripped {
        Some(s) => s,
        None => p.to_owned(),
    };
    let r = normalize_separators(s.as_str());
    proof {
        assert(r@ == shown_path(sv, p@));
        crate::vault::law_shown_path_slashes(sv, p@);
        crate::vault::lemma_shown_path_is_part(sv, p@);
        if let Some(n) = child_name(root@, p@) {
            crate::vault::lemma_slash_free_unchanged(n);
        }
        if clean_path(root@) && clean_path(p@) {
            lemma_shown_rel_slash_free(root@, p@);
            crate::vault::lemma_slash_free_unchanged(shown_rel(root@, p@));
        }
    }
    r
}

/// The event to report for a notification of kind `kind` about `paths` in
/// the vault at `root`. Which paths are notes and how they read relative to
/// the root come from the platform's path functions; given those, the event
/// is [`event_of`] them. Where every platform agrees on a path's file name
/// (see [`named_file`]), it is a note exactly when that name's extension is
/// `md`; for clean paths (see [`clean_path`]) its relative form is exactly
/// [`shown_rel`] of the root and the path.
pub fn map_event(root: &str, kind: FsEventKind, paths: &Vec<String>) -> (r: Option<VaultEvent>)
    ensures
        exists|md: Seq<bool>, rels: Seq<Seq<char>>|
            {
                &&& md.len() == paths.len()
                &&& rels.len() == paths.len()
                &&& forall|k: int| 0 <= k < md.len() && #[trigger] md[k] ==> md_named(paths@[k]@)
                &&& forall|k: int| 0 <= k < rels.len() ==> slash_form_of_part(#[trigger] rels[k], paths@[k]@)
                &&& forall|k: int|
                    0 <= k < md.len() && bare_name(paths@[k]@) ==> (#[trigger] md[k] <==> dot_extension(
                        paths@[k]@,
                    ) == Some(seq!['m', 'd']))
                &&& forall|k: int|
                    0 <= k < md.len() && named_file(paths@[k]@) is Some ==> (#[trigger] md[k]
                        <==> dot_extension(named_file(paths@[k]@)->0) == Some(seq!['m', 'd']))
                &&& forall|k: int|
                    0 <= k < rels.len() && child_name(root@, paths@[k]@) is Some ==> #[trigger] rels[k]
                        == child_name(root@, paths@[k]@)->0
                &&& forall|k: int|
                    0 <= k < rels.len() && clean_path(root@) && clean_path(paths@[k]@) ==> #[trigger] rels[k]
                        == shown_rel(root@, paths@[k]@)
                &&& event_view(r) == #[trigger] event_of(kind, md, rels)
            },
{
    let mut md: Vec<bool> = Vec::new();
    let mut rels: Vec<String> = Vec::new();
    let mut i: usize = 0;
    while i < paths.len()
        invariant
            i <= paths.len(),
            md.len() == i,
            rels.len() == i,
            forall|k: int| 0 <= k < i && #[trigger] md@[k] ==> md_named(paths@[k]@),
            forall|k: int| 0 <= k < i ==> slash_form_of_part(#[trigger] rels@[k]@, paths@[k]@),
            forall|k: int|
                0 <= k < i && bare_name(paths@[k]@) ==> (#[trigger] md@[k] <==> dot_extension(paths@[k]@)
                    == Some(seq!['m', 'd'])),
            forall|k: int|
                0 <= k < i && named_file(paths@[k]@) is Some ==> (#[trigger] md@[k] <==> dot_extension(
                    named_file(paths@[k]@)->0,
                ) == Some(seq!['m', 'd'])),
            forall|k: int|
                0 <= k < i && child_name(root@, paths@[k]@) is Some ==> #[trigger] rels@[k]@ == child_name(
                    root@,
                    paths@[k]@,
                )->0,
            forall|k: int|
                0 <= k < i && clean_path(root@) && clean_path(paths@[k]@) ==> #[trigger] rels@[k]@
                    == shown_rel(root@, paths@[k]@),
        decreases paths.len() - i,
    {
        md.push(is_md(paths[i].as_str()));
        rels.push(rel(root, paths[i].as_str()));
        i += 1;
    }
    let r = classify_event(kind, &md, &rels);
    proof {
        let rv = rels.deep_view();
        assert(rv.len() == paths.len());
        assert forall|k: int| 0 <= k < rv.len() implies slash_form_of_part(#[trigger] rv[k], paths@[k]@) by {
            assert(rv[k] == rels@[k]@);
        }
        assert forall|k: int| 0 <= k < rv.len() && child_name(root@, paths@[k]@) is Some implies #[trigger] rv[k]
            == child_name(root@, paths@[k]@)->0 by {
            assert(rv[k] == rels@[k]@);
        }
        assert forall|k: int| 0 <= k < rv.len() && clean_path(root@) && clean_path(paths@[k]@) implies #[trigger] rv[k]
            == shown_rel(root@, paths@[k]@) by {
            assert(rv[k] == rels@[k]@);
        }
        assert(event_view(r) == event_of(kind, md@, rv));
    }
    r
}


/// A rename notification about two or more paths reports a rename of the
/// first path to the second exactly when either of the two is a note, and
/// nothing otherwise.
pub proof fn law_rename_of_a_note(md: Seq<bool>, rels: Seq<Seq<char>>)
    requires
        md.len() == rels.len(),
        md.len() >= 2,
    ensures
        (md[0] || md[1]) ==> event_of(FsEventKind::Rename, md, rels) == Some(
            VaultEventView::Renamed { old_path: rels[0], new_path: rels[1] },
        ),
        !(md[0] || md[1]) ==> event_of(FsEventKind::Rename, md, rels) is None,
{
}

/// The index of the first note flag is the first `true` at or after `i`.
proof fn lemma_first_md_index(md: Seq<bool>, i: int, f: int)
    requires
        0 <= i <= f < md.len(),
        md[f],
        forall|g: int| i <= g < f ==> !md[g],
    ensures
        first_md_index(md, i) == f,
    decreases f - i,
{
    if i < f {
        lemma_first_md_index(md, i + 1, f);
    }
}

/// No note flag set: the first index found is past the end.
proof fn lemma_first_md_index_none(md: Seq<bool>, i: int)
    requires
        0 <= i <= md.len(),
        forall|g: int| i <= g < md.len() ==> !md[g],
    ensures
        first_md_index(md, i) == md.len(),
    decreases md.len() - i,
{
    if i < md.len() {
        lemma_first_md_index_none(md, i + 1);
    }
}

/// A creation, change or removal (or a rename about fewer than two paths,
/// taken as a change) reports the first note among the paths, as created,
/// modified or deleted according to the kind; nothing when no path is a
/// note, and nothing for other notifications.
pub proof fn law_event_of_first_note(kind: FsEventKind, md: Seq<bool>, rels: Seq<Seq<char>>)
    requires
        md.len() == rels.len(),
        kind !is Rename || md.len() < 2,
    ensures
        (forall|g: int| 0 <= g < md.len() ==> !md[g]) ==> event_of(kind, md, rels) is None,
        kind is Other ==> event_of(kind, md, rels) is None,
        forall|f: int|
            0 <= f < md.len() && #[trigger] md[f] && (forall|g: int| 0 <= g < f ==> !md[g]) ==> {
                &&& kind is Create ==> event_of(kind, md, rels) == Some(
                    VaultEventView::Created { path: rels[f] },
                )
                &&& (kind is Modify || kind is Rename) ==> event_of(kind, md, rels) == Some(
                    VaultEventView::Modified { path: rels[f] },
                )
                &&& kind is Remove ==> event_of(kind, md, rels) == Some(
                    VaultEventView::Deleted { path: rels[f] },
                )
            },
{
    if forall|g: int| 0 <= g < md.len() ==> !md[g] {
        lemma_first_md_index_none(md, 0);
    }
    assert forall|f: int|
        0 <= f < md.len() && #[trigger] md[f] && (forall|g: int| 0 <= g < f ==> !md[g]) implies {
            &&& kind is Create ==> event_of(kind, md, rels) == Some(
                VaultEventView::Created { path: rels[f] },
            )
            &&& (kind is Modify || kind is Rename) ==> event_of(kind, md, rels) == Some(
                VaultEventView::Modified { path: rels[f] },
            )
            &&& kind is Remove ==> event_of(kind, md, rels) == Some(
                VaultEventView::Deleted { path: rels[f] },
            )
        } by {
        lemma_first_md_index(md, 0, f);
    }
}

} // verus!
