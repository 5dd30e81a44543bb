use notego::path::{relative_path_refusal, PathRefusal};

#[test]
fn relative_paths_refused_or_kept() {
    assert_eq!(relative_path_refusal("notes/a.md"), None);
    assert_eq!(relative_path_refusal("a.md"), None);
    assert_eq!(relative_path_refusal("../a.md"), Some(PathRefusal::ParentDir));
    assert_eq!(relative_path_refusal("d/../../a.md"), Some(PathRefusal::ParentDir));
    assert_eq!(relative_path_refusal("d/..."), None);
    assert_eq!(relative_path_refusal("d/..x/a.md"), None);
    assert_eq!(relative_path_refusal("/etc/passwd"), Some(PathRefusal::Absolute));
    assert_eq!(relative_path_refusal("/a/../b"), Some(PathRefusal::Absolute));
}
