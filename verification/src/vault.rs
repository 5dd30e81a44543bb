//! Note records of a vault: identity, content hash and metadata of a note
//! file, the text of a new note, and the rows derived from parsed notes.

use vstd::prelude::*;
use sha2::{Digest, Sha256};
use crate::parser::{link_views, WikiLink};
use crate::path::{
    child_name, clean_path, file_stem_of, lemma_child_name_is_named_file,
    lemma_shown_rel_slash_free, named_file, part_of, path_file_stem, path_strip_prefix, shown_rel,
};
use crate::text::{chars_of, push_char};

verus! {

/// Name of the vault's own directory (index database, caches); never scanned for notes.
pub const NOTEGO_DIR: &'static str = ".notego";

/// Metadata of one note (no body), for note lists and the file tree.
#[derive(Debug)]
pub struct NoteRecord {
    /// Stable id: the first 8 bytes of the content's SHA-256 digest, read as a
    /// big-endian `i64`
    pub id: i64,
    /// Path relative to the vault root, with `/` separators
    pub path: String,
    /// Title (the file name without extension by default)
    pub title: String,
    /// Last modification time (Unix milliseconds)
    pub mtime: i64,
    /// Size in bytes
    pub size: i64,
    /// SHA-256 of the content, lowercase hex
    pub hash: String,
}

/// Mathematical model of a [`NoteRecord`].
pub struct NoteRecordView {
    pub id: i64,
    pub path: Seq<char>,
    pub title: Seq<char>,
    pub mtime: i64,
    pub size: i64,
    pub hash: Seq<char>,
}

impl View for NoteRecord {
    type V = NoteRecordView;

    open spec fn view(&self) -> NoteRecordView {
        NoteRecordView {
            id: self.id,
            path: self.path@,
            title: self.title@,
            mtime: self.mtime,
            size: self.size,
            hash: self.hash@,
        }
    }
}

impl Clone for NoteRecord {
    fn clone(&self) -> (r: Self)
        ensures
            r@ == self@,
    {
        NoteRecord {
            id: self.id,
            path: self.path.clone(),
            title: self.title.clone(),
            mtime: self.mtime,
            size: self.size,
            hash: self.hash.clone(),
        }
    }
}

/// The models of a sequence of records.
pub open spec fn record_views(rs: Seq<NoteRecord>) -> Seq<NoteRecordView> {
    rs.map_values(|r: NoteRecord| r@)
}

/// The SHA-256 digest of `data`.
pub uninterp spec fn sha256_of(data: Seq<u8>) -> Seq<u8>;

/// Calls `sha2::Sha256::digest`; the result is the named digest `sha256_of(data)`,
/// 32 bytes long.
#[verifier::external_body]
fn sha256_digest(data: &[u8]) -> (r: Vec<u8>)
    ensures
        r@ == sha256_of(data@),
        r@.len() == 32,
{
    Sha256::digest(data).to_vec()
}

/// The lowercase hexadecimal digit for `n` (below 16).
pub open spec fn hex_digit(n: int) -> char {
    if n < 10 {
        (n + 48) as char
    } else {
        (n + 87) as char
    }
}

/// `data` in lowercase hexadecimal, two digits per byte, high digit first.
pub open spec fn lower_hex(data: Seq<u8>) -> Seq<char>
    decreases data.len(),
{
    if data.len() == 0 {
        Seq::<char>::empty()
    } else {
        lower_hex(data.drop_last()) + seq![
            hex_digit(data.last() as int / 16),
            hex_digit(data.last() as int % 16),
        ]
    }
}

/// Calls `hex::encode`, which writes each byte as two lowercase hexadecimal digits.
#[verifier::external_body]
fn hex_encode(data: &[u8]) -> (r: String)
    ensures
        r@ == lower_hex(data@),
{
    hex::encode(data)
}

/// The big-endian value of the bytes `d[0..k]`.
pub open spec fn be_bytes_value(d: Seq<u8>, k: int) -> int
    decreases k,
{
    if k <= 0 {
        0
    } else {
        be_bytes_value(d, k - 1) * 256 + d[k - 1]
    }
}

/// The id of a note whose content digest is `digest`: its first 8 bytes read
/// as a big-endian two's-complement 64-bit integer (as `i64::from_be_bytes`).
pub open spec fn id_of_digest(digest: Seq<u8>) -> int {
    let v = be_bytes_value(digest, 8);
    if v >= 0x8000_0000_0000_0000 {
        v - 0x1_0000_0000_0000_0000
    } else {
        v
    }
}

/// `256` to the power `k` (for `k >= 0`).
spec fn byte_bound(k: int) -> int
    decreases k,
{
    if k <= 0 {
        1
    } else {
        byte_bound(k - 1) * 256
    }
}

proof fn lemma_byte_bound_mono(j: int, k: int)
    requires
        0 <= j <= k,
    ensures
        0 < byte_bound(j) <= byte_bound(k),
    decreases k,
{
    if j < k {
        lemma_byte_bound_mono(j, k - 1);
    } else if k > 0 {
        lemma_byte_bound_mono(0, k - 1);
    }
}

/// Reads the first 8 bytes of `digest` as a big-endian `i64`; see [`id_of_digest`].
fn id_from_digest(digest: &Vec<u8>) -> (r: i64)
    requires
        digest.len() >= 8,
    ensures
        r as int == id_of_digest(digest@),
{
    proof {
        reveal_with_fuel(byte_bound, 9);
        assert(byte_bound(8) == 0x1_0000_0000_0000_0000);
    }
    let mut acc: u64 = 0;
    let mut k: usize = 0;
    while k < 8
        invariant
            k <= 8 <= digest.len(),
            acc as int == be_bytes_value(digest@, k as int),
            acc < byte_bound(k as int),
            byte_bound(8) == 0x1_0000_0000_0000_0000,
        decreases 8 - k,
    {
        let c = digest[k] as u64;
        proof {
            lemma_byte_bound_mono(k + 1, 8);
            let b = byte_bound(k as int);
            assert(acc * 256 + c < b * 256) by (nonlinear_arith)
                requires
                    acc < b,
                    c < 256,
            ;
            assert(byte_bound(k + 1) == b * 256);
        }
        acc = acc * 256 + c;
        k += 1;
    }
    if acc >= 0x8000_0000_0000_0000 {
        let m: u64 = u64::MAX - acc;
        -(m as i64) - 1
    } else {
        acc as i64
    }
}

/// `s` with each `\` replaced by `/`.
pub open spec fn slash_separated(s: Seq<char>) -> Seq<char> {
    s.map_values(|c: char| if c == '\\' {
        '/'
    } else {
        c
    })
}

/// A text without `\` is its own slash-separated form.
pub proof fn lemma_slash_free_unchanged(s: Seq<char>)
    requires
        !s.contains('\\'),
    ensures
        slash_separated(s) == s,
{
    assert forall|i: int| 0 <= i < s.len() implies s[i] != '\\' by {
        if s[i] == '\\' {
            assert(s.contains('\\'));
        }
    }
    assert(slash_separated(s) =~= s);
}

/// Replaces each `\` of `s` by `/`; see [`slash_separated`].
pub fn normalize_separators(s: &str) -> (r: String)
    ensures
        r@ == slash_separated(s@),
{
    let v = chars_of(s);
    let mut out = String::new();
    let mut i: usize = 0;
    while i < v.len()
        invariant
            i <= v.len(),
            out@ == slash_separated(v@.take(i as int)),
        decreases v.len() - i,
    {
        let c = v[i];
        push_char(
            &mut out,
            if c == '\\' {
                '/'
            } else {
                c
            },
        );
        i += 1;
        proof {
            assert(out@ =~= slash_separated(v@.take(i as int)));
        }
    }
    proof {
        assert(v@.take(v@.len() as int) =~= v@);
    }
    out
}

/// The record of a note file, from what was read of it: its path relative
/// to the vault root, its file stem, its modification time (or `now_ms` when
/// unknown), its length and its content.
pub open spec fn record_of(
    rel: Seq<char>,
    stem: Option<Seq<char>>,
    modified_ms: Option<i64>,
    now_ms: i64,
    len: u64,
    bytes: Seq<u8>,
) -> NoteRecordView {
    let hash = lower_hex(sha256_of(bytes));
    NoteRecordView {
        id: id_of_digest(sha256_of(bytes)) as i64,
        path: slash_separated(rel),
        title: match stem {
            Some(s) => s,
            None => seq!['U', 'n', 't', 'i', 't', 'l', 'e', 'd'],
        },
        mtime: match modified_ms {
            Some(m) => m,
            None => now_ms,
        },
        size: len as i64,
        hash,
    }
}

/// Builds the record of a note file from its relative path and file stem; see [`record_of`].
pub fn record_from_parts(
    rel: &str,
    stem: Option<String>,
    modified_ms: Option<i64>,
    now_ms: i64,
    len: u64,
    bytes: &[u8],
) -> (r: NoteRecord)
    ensures
        r@ == record_of(rel@, stem.deep_view(), modified_ms, now_ms, len, bytes@),
        r@.id as int == id_of_digest(sha256_of(bytes@)),
{
    let digest = sha256_digest(bytes);
    let hash = hex_encode(digest.as_slice());
    let id = id_from_digest(&digest);
    let title = match stem {
        Some(s) => s,
        None => {
            let t = String::from_str("Untitled");
            proof {
                reveal_strlit("Untitled");
                assert(t@ =~= seq!['U', 'n', 't', 'i', 't', 'l', 'e', 'd']);
            }
            t
        },
    };
    let mtime = match modified_ms {
        Some(m) => m,
        None => now_ms,
    };
    NoteRecord {
        id,
        path: normalize_separators(rel),
        title,
        mtime,
        size: #[verifier::truncate] (len as i64),
        hash,
    }
}

} // verus!

verus! {

/// The path that a note record shows for file `full` of the vault at `root`:
/// the part of `full` below `root` when `root` is a prefix of it (`stripped`),
/// else `full` itself, with `/` separators.
pub open spec fn shown_path(stripped: Option<Seq<char>>, full: Seq<char>) -> Seq<char> {
    slash_separated(
        match stripped {
            Some(s) => s,
            None => full,
        },
    )
}

/// Whether `r` is a contiguous part of `p` (all of `p` included) with `/`
/// for each `\`: what a vault shows of `p` whatever the platform strips.
pub open spec fn slash_form_of_part(r: Seq<char>, p: Seq<char>) -> bool {
    exists|s: Seq<char>| part_of(s, p) && r == #[trigger] slash_separated(s)
}

/// What a vault shows of `p` is a slash form of a part of `p`, for any
/// answer of the platform's prefix stripping that is a part of `p`.
pub proof fn lemma_shown_path_is_part(stripped: Option<Seq<char>>, p: Seq<char>)
    requires
        stripped matches Some(s) ==> part_of(s, p),
    ensures
        slash_form_of_part(shown_path(stripped, p), p),
{
    match stripped {
        Some(s) => {
            assert(slash_separated(s) == shown_path(stripped, p));
        },
        None => {
            assert(p.subrange(0, 0 + p.len() as int) =~= p);
            assert(part_of(p, p));
            assert(slash_separated(p) == shown_path(stripped, p));
        },
    }
}

/// Builds the record of note file `full` in the vault at `root`, from its
/// modification time (when known), the current time, its length and its content.
///
/// The path and the title come from the platform's path functions (see
/// [`path_strip_prefix`] and [`path_file_stem`]); whatever they give, the
/// path has `/` separators and the record is [`record_of`] those values.
/// When `root` and `full` are clean paths (see [`clean_path`]), the path is
/// [`shown_rel`] of them: the part of `full` below `root`, or `full` itself
/// when `full` is not below `root`. Where every platform agrees on the file
/// name of `full` (see [`named_file`]), the title is that name's stem.
pub fn build_record(
    root: &str,
    full: &str,
    modified_ms: Option<i64>,
    now_ms: i64,
    len: u64,
    bytes: &[u8],
) -> (r: NoteRecord)
    ensures
        exists|rel: Seq<char>, stem: Option<Seq<char>>|
            r@ == #[trigger] record_of(rel, stem, modified_ms, now_ms, len, bytes@),
        r@.hash == lower_hex(sha256_of(bytes@)),
        r@.id as int == id_of_digest(sha256_of(bytes@)),
        r@.mtime == (match modified_ms {
            Some(m) => m,
            None => now_ms,
        }),
        r@.size == len as i64,
        slash_form_of_part(r@.path, full@),
        !r@.path.contains('\\'),
        child_name(root@, full@) matches Some(n) ==> r@.path == n && r@.title == file_stem_of(n),
        clean_path(root@) && clean_path(full@) ==> r@.path == shown_rel(root@, full@),
        named_file(full@) matches Some(n) ==> r@.title == file_stem_of(n),
{
    let stripped = path_strip_prefix(full, root);
    let ghost sv = stripped.deep_view();
    let stem = path_file_stem(full);
    let ghost stv = stem.deep_view();
    let rel = match stripped {
        Some(s) => s,
        None => full.to_owned(),
    };
    let r = record_from_parts(rel.as_str(), stem, modified_ms, now_ms, len, bytes);
    proof {
        assert(r@ == record_of(rel@, stv, modified_ms, now_ms, len, bytes@));
        assert(r@.path == shown_path(sv, full@));
        law_shown_path_slashes(None, rel@);
        lemma_shown_path_is_part(sv, full@);
        if let Some(n) = child_name(root@, full@) {
            lemma_child_name_is_named_file(root@, full@);
            lemma_slash_free_unchanged(n);
        }
        if clean_path(root@) && clean_path(full@) {
            lemma_shown_rel_slash_free(root@, full@);
            lemma_slash_free_unchanged(shown_rel(root@, full@));
        }
    }
    r
}

/// The text of a new note titled `title`: a level-one heading and a blank line.
pub open spec fn note_template(title: Seq<char>) -> Seq<char> {
    seq!['#', ' '] + title + seq!['\n', '\n']
}

/// The title of a new note: the one given, else the file stem, else `Untitled`.
pub open spec fn new_note_title(title: Option<Seq<char>>, stem: Option<Seq<char>>) -> Seq<char> {
    match title {
        Some(t) => t,
        None => match stem {
            Some(s) => s,
            None => seq!['U', 'n', 't', 'i', 't', 'l', 'e', 'd'],
        },
    }
}

/// The title and text of a new note; see [`new_note_title`] and [`note_template`].
pub fn new_note(title: Option<&str>, stem: Option<String>) -> (r: (String, String))
    ensures
        r.0@ == new_note_title(
            match title {
                Some(t) => Some(t@),
                None => None,
            },
            stem.deep_view(),
        ),
        r.1@ == note_template(r.0@),
{
    let t = match title {
        Some(t) => t.to_owned(),
        None => match stem {
            Some(s) => s,
            None => {
                let u = String::from_str("Untitled");
                proof {
                    reveal_strlit("Untitled");
                    assert(u@ =~= seq!['U', 'n', 't', 'i', 't', 'l', 'e', 'd']);
                }
                u
            },
        },
    };
    let mut text = String::new();
    push_char(&mut text, '#');
    push_char(&mut text, ' ');
    text.append(t.as_str());
    push_char(&mut text, '\n');
    push_char(&mut text, '\n');
    proof {
        assert(text@ =~= note_template(t@));
    }
    (t, text)
}

/// The title and text of a new note created at path `full`, titled `title`
/// when one is given, else after the file stem of `full` (see
/// [`path_file_stem`]), else `Untitled`; the text is [`note_template`] of the title.
/// Where every platform agrees on the file name of `full` (see
/// [`named_file`]), an untitled note is titled with that name's stem.
pub fn new_note_at(full: &str, title: Option<&str>) -> (r: (String, String))
    ensures
        title is None ==> exists|stem: Option<Seq<char>>|
            r.0@ == #[trigger] new_note_title(None, stem),
        title is None && named_file(full@) is Some ==> r.0@ == file_stem_of(named_file(full@)->0),
        title matches Some(t) ==> r.0@ == t@,
        r.1@ == note_template(r.0@),
{
    let stem = path_file_stem(full);
    let ghost sv = stem.deep_view();
    let r = new_note(title, stem);
    proof {
        if title is None {
            assert(r.0@ == new_note_title(None, sv));
        }
    }
    r
}

/// The row `(target, raw text, line)` stored in the index for a link.
pub open spec fn link_row(l: crate::parser::WikiLinkView) -> (Seq<char>, Seq<char>, i64) {
    (l.target, l.raw, l.line as i64)
}

/// The index rows of the outgoing links of a note, in order.
pub fn link_rows(links: &Vec<WikiLink>) -> (r: Vec<(String, String, i64)>)
    ensures
        r.deep_view() == link_views(links@).map_values(|l: crate::parser::WikiLinkView| link_row(l)),
{
    let mut out: Vec<(String, String, i64)> = Vec::new();
    let mut i: usize = 0;
    while i < links.len()
        invariant
            i <= links.len(),
            out.deep_view() == link_views(links@.take(i as int)).map_values(
                |l: crate::parser::WikiLinkView| link_row(l),
            ),
        decreases links.len() - i,
    {
        let l = &links[i];
        let ghost prev = out.deep_view();
        let row = (l.target.clone(), l.raw.clone(), #[verifier::truncate] (l.line as i64));
        out.push(row);
        i += 1;
        proof {
            assert(out.deep_view() =~= prev.push(row.deep_view()));
            assert(row.deep_view() == link_row(links@[i - 1]@));
            assert(link_views(links@.take(i as int)) =~= link_views(links@.take(i - 1)).push(
                links@[i - 1]@,
            ));
            assert(out.deep_view() =~= link_views(links@.take(i as int)).map_values(
                |l: crate::parser::WikiLinkView| link_row(l),
            ));
        }
    }
    proof {
        assert(links@.take(links@.len() as int) =~= links@);
    }
    out
}

/// Whether a directory entry at `depth` named `name` is skipped when listing
/// notes: below the root, the vault's own directory and hidden entries.
pub open spec fn skipped_entry(depth: usize, name: Seq<char>) -> bool {
    depth > 0 && (name == NOTEGO_DIR@ || (name.len() > 0 && name[0] == '.'))
}

/// Whether the listing skips the entry; see [`skipped_entry`].
pub fn is_skipped_entry(depth: usize, name: &str) -> (r: bool)
    ensures
        r == skipped_entry(depth, name@),
{
    if depth == 0 {
        return false;
    }
    let v = chars_of(name);
    let dir = chars_of(NOTEGO_DIR);
    let mut same = v.len() == dir.len();
    let mut i: usize = 0;
    while same && i < v.len()
        invariant
            i <= v.len(),
            same ==> v.len() == dir.len(),
            same ==> forall|j: int| 0 <= j < i ==> v@[j] == dir@[j],
            !same ==> v@ != dir@,
        decreases v.len() - i,
    {
        if v[i] != dir[i] {
            same = false;
        }
        i += 1;
    }
    proof {
        if same {
            assert(v@ =~= dir@);
        }
    }
    same || (v.len() > 0 && v[0] == '.')
}

/// The record listed for the note at `path` among `all`: the last one with that path.
pub open spec fn last_with_path(all: Seq<NoteRecordView>, path: Seq<char>) -> Option<NoteRecordView>
    decreases all.len(),
{
    if all.len() == 0 {
        None
    } else if all.last().path == path {
        Some(all.last())
    } else {
        last_with_path(all.drop_last(), path)
    }
}

/// The record shown for a note of a tag query: the listed record with that
/// path, else a record with the index's id, path and title and no metadata.
pub open spec fn tagged_record(row: (i64, Seq<char>, Seq<char>), all: Seq<NoteRecordView>) -> NoteRecordView {
    match last_with_path(all, row.1) {
        Some(r) => r,
        None => NoteRecordView {
            id: row.0,
            path: row.1,
            title: row.2,
            mtime: 0,
            size: 0,
            hash: Seq::<char>::empty(),
        },
    }
}

/// The record listed with path `path`, the last such one.
fn find_last_with_path(all: &Vec<NoteRecord>, path: &String) -> (r: Option<usize>)
    ensures
        r is None ==> last_with_path(record_views(all@), path@) is None,
        r matches Some(k) ==> k < all.len() && last_with_path(record_views(all@), path@) == Some(
            all@[k as int]@,
        ),
{
    let mut k = all.len();
    proof {
        assert(all@.take(k as int) =~= all@);
    }
    while k > 0
        invariant
            k <= all.len(),
            last_with_path(record_views(all@), path@) == last_with_path(
                record_views(all@.take(k as int)),
                path@,
            ),
        decreases k,
    {
        let ghost pre = record_views(all@.take(k as int));
        proof {
            assert(pre.drop_last() =~= record_views(all@.take(k - 1)));
            assert(pre.last() == all@[k - 1]@);
        }
        if all[k - 1].path == *path {
            return Some(k - 1);
        }
        k -= 1;
    }
    proof {
        assert(record_views(all@.take(0)) =~= Seq::<NoteRecordView>::empty());
    }
    None
}

/// The records of the notes of a tag query, from the index rows
/// `(id, path, title)` and the records listed from disk; see [`tagged_record`].
pub fn records_for_tag_rows(rows: Vec<(i64, String, String)>, all: &Vec<NoteRecord>) -> (r: Vec<
    NoteRecord,
>)
    ensures
        record_views(r@) == rows.deep_view().map_values(
            |row: (i64, Seq<char>, Seq<char>)| tagged_record(row, record_views(all@)),
        ),
{
    let mut out: Vec<NoteRecord> = Vec::new();
    let mut i: usize = 0;
    while i < rows.len()
        invariant
            i <= rows.len(),
            record_views(out@) == rows.deep_view().take(i as int).map_values(
                |row: (i64, Seq<char>, Seq<char>)| tagged_record(row, record_views(all@)),
            ),
        decreases rows.len() - i,
    {
        let row = &rows[i];
        let rec = match find_last_with_path(all, &row.1) {
            Some(k) => all[k].clone(),
            None => NoteRecord {
                id: row.0,
                path: row.1.clone(),
                title: row.2.clone(),
                mtime: 0,
                size: 0,
                hash: String::new(),
            },
        };
        let ghost before = record_views(out@);
        let ghost rv = rec@;
        out.push(rec);
        i += 1;
        proof {
            assert(rows.deep_view()[i - 1] == (row.0, row.1@, row.2@));
            assert(rv == tagged_record(rows.deep_view()[i - 1], record_views(all@)));
            assert(record_views(out@) =~= before.push(rv));
            assert(rows.deep_view().take(i as int) =~= rows.deep_view().take(i - 1).push(
                rows.deep_view()[i - 1],
            ));
            assert(record_views(out@) =~= rows.deep_view().take(i as int).map_values(
                |row: (i64, Seq<char>, Seq<char>)| tagged_record(row, record_views(all@)),
            ));
        }
    }
    proof {
        assert(rows.deep_view().take(rows.len() as int) =~= rows.deep_view());
    }
    out
}

} // verus!

verus! {

/// A note's id and hash depend on its content alone: renaming or moving a
/// note, or touching it, keeps its id.
pub proof fn law_record_id_from_content(
    rel1: Seq<char>,
    stem1: Option<Seq<char>>,
    modified1: Option<i64>,
    now1: i64,
    len1: u64,
    rel2: Seq<char>,
    stem2: Option<Seq<char>>,
    modified2: Option<i64>,
    now2: i64,
    len2: u64,
    bytes: Seq<u8>,
)
    ensures
        record_of(rel1, stem1, modified1, now1, len1, bytes).id == record_of(
            rel2,
            stem2,
            modified2,
            now2,
            len2,
            bytes,
        ).id,
        record_of(rel1, stem1, modified1, now1, len1, bytes).hash == record_of(
            rel2,
            stem2,
            modified2,
            now2,
            len2,
            bytes,
        ).hash,
{
}

/// Record paths use `/` as their only separator: they hold no `\`.
pub proof fn law_shown_path_slashes(stripped: Option<Seq<char>>, full: Seq<char>)
    ensures
        !shown_path(stripped, full).contains('\\'),
{
    let s = shown_path(stripped, full);
    if s.contains('\\') {
        let i = choose|i: int| 0 <= i < s.len() && s[i] == '\\';
        assert(s[i] == '\\');
    }
}


} // verus!

verus! {

/// Whether text `a` comes no later than `b` in the order of their character
/// codes, compared position by position (a prefix first): the order of
/// `str`'s comparison, as UTF-8 keeps the order of code points.
pub open spec fn text_le(a: Seq<char>, b: Seq<char>) -> bool
    decreases a.len(),
{
    if a.len() == 0 {
        true
    } else if b.len() == 0 {
        false
    } else if a[0] != b[0] {
        a[0] < b[0]
    } else {
        text_le(a.subrange(1, a.len() as int), b.subrange(1, b.len() as int))
    }
}

/// Of two texts, one comes no later than the other.
pub proof fn lemma_text_le_total(a: Seq<char>, b: Seq<char>)
    ensures
        text_le(a, b) || text_le(b, a),
    decreases a.len(),
{
    if a.len() > 0 && b.len() > 0 && a[0] == b[0] {
        lemma_text_le_total(a.subrange(1, a.len() as int), b.subrange(1, b.len() as int));
    }
}

/// The order of texts is transitive.
pub proof fn lemma_text_le_trans(a: Seq<char>, b: Seq<char>, c: Seq<char>)
    requires
        text_le(a, b),
        text_le(b, c),
    ensures
        text_le(a, c),
    decreases a.len(),
{
    if a.len() > 0 && b.len() > 0 && c.len() > 0 && a[0] == b[0] && b[0] == c[0] {
        lemma_text_le_trans(
            a.subrange(1, a.len() as int),
            b.subrange(1, b.len() as int),
            c.subrange(1, c.len() as int),
        );
    }
}

/// Whether `a` comes no later than `b`; see [`text_le`].
pub fn path_le(a: &str, b: &str) -> (r: bool)
    ensures
        r == text_le(a@, b@),
{
    let x = chars_of(a);
    let y = chars_of(b);
    let mut i: usize = 0;
    proof {
        assert(x@.subrange(0, x@.len() as int) =~= x@);
        assert(y@.subrange(0, y@.len() as int) =~= y@);
    }
    while i < x.len() && i < y.len() && x[i] == y[i]
        invariant
            i <= x.len(),
            i <= y.len(),
            text_le(a@, b@) == text_le(
                x@.subrange(i as int, x@.len() as int),
                y@.subrange(i as int, y@.len() as int),
            ),
            x@ == a@,
            y@ == b@,
        decreases x.len() - i,
    {
        proof {
            let xs = x@.subrange(i as int, x@.len() as int);
            let ys = y@.subrange(i as int, y@.len() as int);
            assert(xs.subrange(1, xs.len() as int) =~= x@.subrange(i + 1, x@.len() as int));
            assert(ys.subrange(1, ys.len() as int) =~= y@.subrange(i + 1, y@.len() as int));
        }
        i += 1;
    }
    if i == x.len() {
        true
    } else if i == y.len() {
        false
    } else {
        x[i] < y[i]
    }
}

/// Whether records come in the order of their paths.
pub open spec fn sorted_by_path(s: Seq<NoteRecord>) -> bool {
    forall|i: int, j: int| 0 <= i < j < s.len() ==> text_le(s[i].path@, s[j].path@)
}

/// The records `v`, ordered by path (records with equal paths keep their
/// order): the same records, each path no later than the next.
pub fn sort_by_path(v: Vec<NoteRecord>) -> (r: Vec<NoteRecord>)
    ensures
        sorted_by_path(r@),
        r@.to_multiset() == v@.to_multiset(),
{
    broadcast use vstd::multiset::group_multiset_axioms;
    let ghost orig = v@;
    let mut rest = v;
    let mut out: Vec<NoteRecord> = Vec::new();
    proof {
        out@.to_multiset_ensures();
        vstd::multiset::lemma_multiset_empty_len(out@.to_multiset());
        assert(out@.to_multiset().add(rest@.to_multiset()) =~= orig.to_multiset());
    }
    while rest.len() > 0
        invariant
            sorted_by_path(out@),
            out@.to_multiset().add(rest@.to_multiset()) == orig.to_multiset(),
        decreases rest.len(),
    {
        let ghost before_rest = rest@;
        let ghost before_out = out@;
        let x = rest.remove(0);
        proof {
            vstd::seq_lib::to_multiset_remove(before_rest, 0);
            before_rest.to_multiset_ensures();
            assert(before_rest.contains(x));
        }
        let mut j: usize = 0;
        while j < out.len() && path_le(out[j].path.as_str(), x.path.as_str())
            invariant
                j <= out.len(),
                out@ == before_out,
                forall|i: int| 0 <= i < j ==> text_le(#[trigger] out@[i].path@, x.path@),
            decreases out.len() - j,
        {
            j += 1;
        }
        proof {
            if j < out.len() {
                lemma_text_le_total(out@[j as int].path@, x.path@);
                assert forall|k: int| j <= k < out.len() implies text_le(x.path@, #[trigger] out@[k].path@) by {
                    if k > j {
                        lemma_text_le_trans(x.path@, out@[j as int].path@, out@[k].path@);
                    }
                }
            }
        }
        let ghost xv = x;
        out.insert(j, x);
        proof {
            vstd::seq_lib::to_multiset_insert(before_out, j as int, xv);
            assert forall|a: int, b: int| 0 <= a < b < out@.len() implies text_le(
                out@[a].path@,
                out@[b].path@,
            ) by {
                if b < j {
                } else if a < j && b == j {
                } else if a < j {
                    assert(out@[b] == before_out[b - 1]);
                } else if a == j {
                    assert(out@[b] == before_out[b - 1]);
                } else {
                    assert(out@[a] == before_out[a - 1]);
                    assert(out@[b] == before_out[b - 1]);
                }
            }
            assert(out@.to_multiset().add(rest@.to_multiset()) =~= orig.to_multiset());
        }
    }
    proof {
        rest@.to_multiset_ensures();
        vstd::multiset::lemma_multiset_empty_len(rest@.to_multiset());
        assert(out@.to_multiset() =~= orig.to_multiset());
    }
    out
}


/// The index row of a link stores its target as parsed, whatever its heading
/// and alias, with its raw text and line; for the links of a note body,
/// looking up the stored raw text names the stored target, so a backlink
/// query by the target finds the row.
pub proof fn law_link_rows_keep_target(body: Seq<char>, ls: Seq<crate::parser::WikiLinkView>)
    ensures
        forall|i: int|
            0 <= i < ls.len() ==> {
                let row = ls.map_values(|l: crate::parser::WikiLinkView| link_row(l))[i];
                &&& row.0 == (#[trigger] ls[i]).target
                &&& row.1 == ls[i].raw
                &&& row.2 == ls[i].line as i64
            },
        forall|i: int|
            0 <= i < crate::parser::wiki_links(body).len() ==> {
                let row = crate::parser::wiki_links(body).map_values(
                    |l: crate::parser::WikiLinkView| link_row(l),
                )[i];
                &&& row.0 == (#[trigger] crate::parser::wiki_links(body)[i]).target
                &&& crate::parser::link_target_of(row.1) == row.0
            },
{
    crate::parser::law_link_target_of_raw(body);
}

} // verus!

