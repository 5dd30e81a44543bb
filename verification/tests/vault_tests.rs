use notego::parser::WikiLink;
use notego::vault::{
    build_record, is_skipped_entry, link_rows, new_note, normalize_separators, record_from_parts,
    records_for_tag_rows, path_le, sort_by_path, NoteRecord,
};

const EMPTY_SHA256: &str = "e3b0c44298fc1c149afbf4c8996fb92427ae41e4649b934ca495991b7852b855";

#[test]
fn record_hash_and_id_of_content() {
    let r = record_from_parts("dir\\a.md", Some("a".to_string()), Some(42), 7, 0, b"");
    assert_eq!(r.hash, EMPTY_SHA256);
    assert_eq!(r.id, i64::from_be_bytes([0xe3, 0xb0, 0xc4, 0x42, 0x98, 0xfc, 0x1c, 0x14]));
    assert!(r.id < 0);
    assert_eq!(r.path, "dir/a.md");
    assert_eq!(r.title, "a");
    assert_eq!(r.mtime, 42);
    assert_eq!(r.size, 0);
    let abc = record_from_parts("b.md", None, None, 7, 3, b"abc");
    assert_eq!(abc.hash, "ba7816bf8f01cfea414140de5dae2223b00361a396177a9cb410ff61f20015ad");
    assert_eq!(abc.title, "Untitled");
    assert_eq!(abc.mtime, 7);
    assert_eq!(abc.size, 3);
    assert_eq!(abc.id, -5010229573455851542);
    assert_eq!(abc.id, i64::from_be_bytes([0xba, 0x78, 0x16, 0xbf, 0x8f, 0x01, 0xcf, 0xea]));
}

#[test]
fn record_id_survives_rename() {
    let a = record_from_parts("x.md", None, Some(1), 0, 5, b"hello");
    let b = record_from_parts("moved/y.md", None, Some(9), 0, 5, b"hello");
    assert_eq!(a.id, b.id);
    assert_eq!(a.id, 0x2cf2_4dba_5fb0_a30e);
    assert_ne!(a.path, b.path);
}

#[test]
fn build_record_from_paths() {
    let r = build_record("/vault", "/vault/sub/note.md", Some(5), 1, 3, b"abc");
    assert_eq!(r.path, "sub/note.md");
    assert_eq!(r.title, "note");
    let outside = build_record("/vault", "/other/x.md", None, 1, 0, b"");
    assert_eq!(outside.path, "/other/x.md");
    assert_eq!(outside.mtime, 1);
    let deep = build_record("/vault", "/vault/a/b/c.tar.md", None, 1, 0, b"");
    assert_eq!(deep.path, "a/b/c.tar.md");
    assert_eq!(deep.title, "c.tar");
    let near = build_record("/vault", "/vaultx/a.md", None, 1, 0, b"");
    assert_eq!(near.path, "/vaultx/a.md");
    assert_eq!(near.title, "a");
}

#[test]
fn separators_normalised() {
    assert_eq!(normalize_separators("a\\b\\c.md"), "a/b/c.md");
    assert_eq!(normalize_separators("plain"), "plain");
}

#[test]
fn new_note_titles_and_text() {
    let (t, text) = new_note(Some("Hello"), Some("file".to_string()));
    assert_eq!(t, "Hello");
    assert_eq!(text, "# Hello\n\n");
    let (t, text) = new_note(None, Some("file".to_string()));
    assert_eq!(t, "file");
    assert_eq!(text, "# file\n\n");
    let (t, _) = new_note(None, None);
    assert_eq!(t, "Untitled");
}

#[test]
fn skipped_entries() {
    assert!(!is_skipped_entry(0, ".notego"));
    assert!(is_skipped_entry(1, ".notego"));
    assert!(is_skipped_entry(2, ".git"));
    assert!(!is_skipped_entry(1, "notes"));
    assert!(!is_skipped_entry(1, ""));
}

#[test]
fn link_rows_keep_target_raw_line() {
    let links = vec![WikiLink {
        raw: "[[a|b]]".to_string(),
        target: "a".to_string(),
        alias: Some("b".to_string()),
        heading: None,
        line: 3,
        context: "x".to_string(),
    }];
    assert_eq!(link_rows(&links), vec![("a".to_string(), "[[a|b]]".to_string(), 3i64)]);
}

fn rec(id: i64, path: &str, mtime: i64) -> NoteRecord {
    NoteRecord {
        id,
        path: path.to_string(),
        title: "t".to_string(),
        mtime,
        size: 1,
        hash: "h".to_string(),
    }
}

#[test]
fn tag_rows_prefer_listed_records() {
    let all = vec![rec(1, "a.md", 10), rec(2, "b.md", 20), rec(3, "b.md", 30)];
    let rows = vec![(9, "b.md".to_string(), "B".to_string()), (8, "c.md".to_string(), "C".to_string())];
    let out = records_for_tag_rows(rows, &all);
    assert_eq!(out.len(), 2);
    assert_eq!(out[0].id, 3);
    assert_eq!(out[0].mtime, 30);
    assert_eq!(out[1].id, 8);
    assert_eq!(out[1].path, "c.md");
    assert_eq!(out[1].title, "C");
    assert_eq!(out[1].mtime, 0);
    assert_eq!(out[1].hash, "");
}

#[test]
fn records_sorted_by_path() {
    let names = ["b.md", "a/z.md", "a.md", "\u{e9}.md", "Z.md", "a", "b.md"];
    let recs: Vec<NoteRecord> = names.iter().enumerate().map(|(i, p)| rec(i as i64, p, 0)).collect();
    let sorted = sort_by_path(recs);
    let got: Vec<&str> = sorted.iter().map(|r| r.path.as_str()).collect();
    let mut want: Vec<&str> = names.to_vec();
    want.sort();
    assert_eq!(got, want);
    assert_eq!(got, vec!["Z.md", "a", "a.md", "a/z.md", "b.md", "b.md", "\u{e9}.md"]);
    let ids: Vec<i64> = sorted.iter().filter(|r| r.path == "b.md").map(|r| r.id).collect();
    assert_eq!(ids, vec![0, 6]);
    assert!(path_le("a", "a.md"));
    assert!(!path_le("b", "a.md"));
    assert!(path_le("x", "x"));
}
