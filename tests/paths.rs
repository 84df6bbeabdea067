use file_catalog::config::{credentials_match, Auth, AuthConfig};
use file_catalog::path::{join_components, normalize_path, split_components, strip_storage_dir, PathError};

#[test]
fn split_drops_empty_segments() {
    assert_eq!(split_components("/a//b/c.txt/"), vec!["a", "b", "c.txt"]);
    assert!(split_components("/").is_empty());
    assert!(split_components("").is_empty());
}

#[test]
fn join_roots_at_slash() {
    assert_eq!(join_components(&[]), "/");
    assert_eq!(join_components(&["a".to_string(), "b".to_string()]), "/a/b");
}

#[test]
fn strip_storage_dir_reroots() {
    assert_eq!(strip_storage_dir("/srv/files/a/b.txt", "/srv/files"), Ok("/a/b.txt".to_string()));
    assert_eq!(strip_storage_dir("/srv/files", "/srv/files/"), Ok("/".to_string()));
    assert_eq!(strip_storage_dir("/srv/filesx/a", "/srv/files"), Err(PathError::OutsideRoot));
    assert_eq!(strip_storage_dir("/srv", "/srv/files"), Err(PathError::OutsideRoot));
}

#[test]
fn normalize_path_joins_under_storage() {
    assert_eq!(normalize_path("a/b.txt", "./files"), "./files/a/b.txt");
    assert_eq!(normalize_path("", "./files"), "./files/");
}

#[test]
fn credentials_compare_both_fields() {
    let expected = AuthConfig { username: "admin".to_string(), password: "pw".to_string() };
    let ok = Auth { username: "admin".to_string(), password: "pw".to_string() };
    let bad = Auth { username: "admin".to_string(), password: "".to_string() };
    assert!(credentials_match(&expected, &ok));
    assert!(!credentials_match(&expected, &bad));
}

#[test]
fn absolute_path_is_not_under_relative_root() {
    assert_eq!(strip_storage_dir("/a/b", "a"), Err(PathError::OutsideRoot));
    assert_eq!(strip_storage_dir("a/b", "/a"), Err(PathError::OutsideRoot));
    assert_eq!(strip_storage_dir("files/a/b", "files"), Ok("/a/b".to_string()));
}

#[test]
fn current_dir_segments_are_skipped() {
    assert_eq!(strip_storage_dir("/a/./b", "/a/b"), Ok("/".to_string()));
    assert_eq!(strip_storage_dir("/srv/files/./x/./y.txt", "/srv/./files"), Ok("/x/y.txt".to_string()));
    assert_eq!(split_components("./a/./b/."), vec!["a", "b"]);
    assert_eq!(split_components("/a/../b"), vec!["a", "..", "b"]);
}

#[test]
fn sibling_and_unrelated_paths_are_outside() {
    assert_eq!(strip_storage_dir("/srv/files2/a", "/srv/files"), Err(PathError::OutsideRoot));
    assert_eq!(strip_storage_dir("/etc/passwd", "/srv/files"), Err(PathError::OutsideRoot));
}
