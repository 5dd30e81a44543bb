use notego::watcher::{classify_event, is_md, map_event, rel, FsEventKind, VaultEvent};

fn paths(v: &[&str]) -> Vec<String> {
    v.iter().map(|s| s.to_string()).collect()
}

#[test]
fn md_detection() {
    assert!(is_md("/v/a.md"));
    assert!(!is_md("/v/a.txt"));
    assert!(!is_md("/v/.md"));
    assert!(!is_md("/v/amd"));
}

#[test]
fn relative_paths() {
    assert_eq!(rel("/v", "/v/sub/a.md"), "sub/a.md");
    assert_eq!(rel("/v", "/w/a.md"), "/w/a.md");
}

#[test]
fn events_from_notifications() {
    let created = map_event("/v", FsEventKind::Create, &paths(&["/v/x.txt", "/v/n.md"]));
    assert!(matches!(created, Some(VaultEvent::Created { ref path }) if path == "n.md"));
    assert!(map_event("/v", FsEventKind::Create, &paths(&["/v/x.txt"])).is_none());
    let renamed = map_event("/v", FsEventKind::Rename, &paths(&["/v/a.md", "/v/b.txt"]));
    assert!(matches!(renamed, Some(VaultEvent::Renamed { ref old_path, ref new_path })
        if old_path == "a.md" && new_path == "b.txt"));
    let single = map_event("/v", FsEventKind::Rename, &paths(&["/v/a.md"]));
    assert!(matches!(single, Some(VaultEvent::Modified { ref path }) if path == "a.md"));
    let removed = map_event("/v", FsEventKind::Remove, &paths(&["/v/d/r.md"]));
    assert!(matches!(removed, Some(VaultEvent::Deleted { ref path }) if path == "d/r.md"));
    assert!(map_event("/v", FsEventKind::Other, &paths(&["/v/a.md"])).is_none());
}

#[test]
fn classify_from_flags() {
    let rels = paths(&["a", "b"]);
    assert!(classify_event(FsEventKind::Rename, &vec![false, false], &rels).is_none());
    assert!(matches!(
        classify_event(FsEventKind::Modify, &vec![false, true], &rels),
        Some(VaultEvent::Modified { ref path }) if path == "b"
    ));
}

#[test]
fn is_md_on_bare_file_names() {
    assert!(is_md("notes.md"));
    assert!(is_md("a.b.md"));
    assert!(is_md("..md"));
    assert!(!is_md(".md"));
    assert!(!is_md("notes.mdx"));
    assert!(!is_md("md"));
    assert!(!is_md(""));
}

#[test]
fn events_for_notes_in_subfolders() {
    let renamed = map_event("/v", FsEventKind::Rename, &paths(&["/v/a.md", "/v/d/b.md"]));
    assert!(matches!(renamed, Some(VaultEvent::Renamed { ref old_path, ref new_path })
        if old_path == "a.md" && new_path == "d/b.md"));
    assert!(map_event("/v", FsEventKind::Rename, &paths(&["/v/a.txt", "/v/b.txt"])).is_none());
    let created = map_event("/v", FsEventKind::Create, &paths(&["/v/x.txt", "/v/s/n.md"]));
    assert!(matches!(created, Some(VaultEvent::Created { ref path }) if path == "s/n.md"));
    assert!(map_event("/v", FsEventKind::Remove, &paths(&["/v/x.txt"])).is_none());
    assert!(map_event("/v", FsEventKind::Other, &paths(&["/v/n.md"])).is_none());
}

#[test]
fn relative_paths_of_clean_paths() {
    assert_eq!(rel("/v", "/v/d/e/b.md"), "d/e/b.md");
    assert_eq!(rel("/v", "/v"), "");
    assert_eq!(rel("/v", "/vx/a.md"), "/vx/a.md");
    assert_eq!(rel("notes", "notes/a.md"), "a.md");
}
