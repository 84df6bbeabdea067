use file_catalog::batch::{create_entries, delete_entries, update_entries, BatchError};
use file_catalog::catalog::{
    bytes_to_kb, create_entry, create_root_dir, create_schema,
    delete_entry, get_dir_contents, query, update_entry, Catalog,
    CatalogError, DirEntry, FileEntry, FsObject,
};

fn fresh() -> Catalog {
    let mut c = create_schema();
    create_root_dir(&mut c).unwrap();
    c
}

fn dir<'a>(c: &'a Catalog, path: &str) -> Option<&'a DirEntry> {
    c.dirs().iter().find(|d| d.full_path == path)
}

fn file<'a>(c: &'a Catalog, path: &str) -> Option<&'a FileEntry> {
    c.files().iter().find(|f| f.full_path == path)
}

fn file_of(bytes: u64) -> FsObject {
    FsObject::File { size_bytes: bytes }
}

#[test]
fn create_nested_file_builds_parent_chain() {
    let mut c = fresh();
    create_entry(&mut c, "a/b/c.txt", file_of(2500)).unwrap();
    let root = dir(&c, "/").unwrap();
    assert_eq!(root.dir_id, 1);
    assert_eq!(root.parent_dir_id, 1);
    assert_eq!(root.dir_name, "");
    let a = dir(&c, "/a").unwrap();
    assert_eq!(a.dir_name, "a");
    assert_eq!(a.parent_dir_id, root.dir_id);
    let b = dir(&c, "/a/b").unwrap();
    assert_eq!(b.dir_name, "b");
    assert_eq!(b.parent_dir_id, a.dir_id);
    let f = file(&c, "/a/b/c.txt").unwrap();
    assert_eq!(f.file_name, "c.txt");
    assert_eq!(f.file_size, 2);
    assert_eq!(f.parent_dir_id, b.dir_id);
    assert_eq!(c.dirs().len(), 3);
    assert_eq!(c.files().len(), 1);
}

#[test]
fn recreate_file_updates_size_only() {
    let mut c = fresh();
    create_entry(&mut c, "/a/b/c.txt", file_of(2500)).unwrap();
    let before = file(&c, "/a/b/c.txt").unwrap();
    let (id, parent) = (before.file_id, before.parent_dir_id);
    create_entry(&mut c, "/a/b/c.txt", file_of(5000)).unwrap();
    assert_eq!(c.files().len(), 1);
    assert_eq!(c.dirs().len(), 3);
    let after = file(&c, "/a/b/c.txt").unwrap();
    assert_eq!(after.file_size, 5);
    assert_eq!(after.file_id, id);
    assert_eq!(after.parent_dir_id, parent);
}

#[test]
fn delete_dir_leaves_children_orphaned() {
    let mut c = fresh();
    create_entry(&mut c, "/a/b/c.txt", file_of(2500)).unwrap();
    let b_id = dir(&c, "/a/b").unwrap().dir_id;
    delete_entry(&mut c, "/a/b").unwrap();
    assert!(dir(&c, "/a/b").is_none());
    assert!(dir(&c, "/a").is_some());
    let f = file(&c, "/a/b/c.txt").unwrap();
    assert_eq!(f.parent_dir_id, b_id);
    assert!(c.dirs().iter().all(|d| d.dir_id != b_id));
}

#[test]
fn rename_keeps_parent_id() {
    let mut c = fresh();
    create_entry(&mut c, "/a/b/c.txt", file_of(2500)).unwrap();
    let parent = file(&c, "/a/b/c.txt").unwrap().parent_dir_id;
    update_entry(&mut c, "/a/b/c.txt", "/a/x/c.txt").unwrap();
    assert!(file(&c, "/a/b/c.txt").is_none());
    let f = file(&c, "/a/x/c.txt").unwrap();
    assert_eq!(f.file_name, "c.txt");
    assert_eq!(f.parent_dir_id, parent);
    assert!(dir(&c, "/a/x").is_none());
}

#[test]
fn rename_directory_sets_path_and_name() {
    let mut c = fresh();
    create_entry(&mut c, "/a/b", FsObject::Directory).unwrap();
    let before = dir(&c, "/a/b").unwrap();
    let (id, parent) = (before.dir_id, before.parent_dir_id);
    update_entry(&mut c, "/a/b", "/a/renamed").unwrap();
    let d = dir(&c, "/a/renamed").unwrap();
    assert_eq!(d.dir_name, "renamed");
    assert_eq!(d.dir_id, id);
    assert_eq!(d.parent_dir_id, parent);
}

#[test]
fn missing_path_delete_and_update_are_noops() {
    let mut c = fresh();
    create_entry(&mut c, "/a/b/c.txt", file_of(2500)).unwrap();
    assert_eq!(delete_entry(&mut c, "/nope/none.txt"), Ok(()));
    assert_eq!(update_entry(&mut c, "/nope", "/other"), Ok(()));
    assert_eq!(c.dirs().len(), 3);
    assert_eq!(c.files().len(), 1);
    assert!(file(&c, "/a/b/c.txt").is_some());
    assert!(dir(&c, "/other").is_none());
}

#[test]
fn root_listing_after_bootstrap_is_empty() {
    let c = fresh();
    let (files, dirs) = get_dir_contents(&c, "/");
    assert!(files.is_empty());
    assert!(dirs.is_empty());
}

#[test]
fn batch_create_then_delete() {
    let mut c = fresh();
    let items = vec![
        ("/p/q.txt".to_string(), file_of(100)),
        ("/p/r.txt".to_string(), file_of(100)),
    ];
    create_entries(&mut c, &items).unwrap();
    delete_entries(&mut c, &vec!["/p/q.txt".to_string()]).unwrap();
    assert_eq!(c.files().len(), 1);
    assert_eq!(c.files()[0].full_path, "/p/r.txt");
    assert!(dir(&c, "/p").is_some());
}

#[test]
fn listing_is_one_level() {
    let mut c = fresh();
    create_entry(&mut c, "/a/one.txt", file_of(1000)).unwrap();
    create_entry(&mut c, "/a/sub/two.txt", file_of(1000)).unwrap();
    create_entry(&mut c, "/top.txt", file_of(999)).unwrap();
    let (files, dirs) = get_dir_contents(&c, "/a");
    assert_eq!(files.len(), 1);
    assert_eq!(files[0].full_path, "/a/one.txt");
    assert_eq!(dirs.len(), 1);
    assert_eq!(dirs[0].full_path, "/a/sub");
    let (rfiles, rdirs) = get_dir_contents(&c, "/");
    assert_eq!(rfiles.len(), 1);
    assert_eq!(rfiles[0].file_size, 0);
    assert_eq!(rdirs.len(), 1);
    assert_eq!(rdirs[0].full_path, "/a");
    let (nf, nd) = get_dir_contents(&c, "/missing");
    assert!(nf.is_empty() && nd.is_empty());
}

#[test]
fn create_directory_entry_and_root_path() {
    let mut c = fresh();
    create_entry(&mut c, "/d1/d2", FsObject::Directory).unwrap();
    assert!(dir(&c, "/d1/d2").is_some());
    assert!(c.files().is_empty());
    create_entry(&mut c, "/", file_of(5000)).unwrap();
    create_entry(&mut c, "", FsObject::Directory).unwrap();
    assert_eq!(c.dirs().len(), 3);
    assert!(c.files().is_empty());
}

#[test]
fn repeated_slashes_are_canonicalised() {
    let mut c = fresh();
    create_entry(&mut c, "//x///y.txt/", file_of(3000)).unwrap();
    assert!(dir(&c, "/x").is_some());
    assert_eq!(file(&c, "/x/y.txt").unwrap().file_size, 3);
}

#[test]
fn root_dir_twice_is_duplicate() {
    let mut c = fresh();
    assert_eq!(create_root_dir(&mut c), Err(CatalogError::DuplicatePath));
    assert_eq!(c.dirs().len(), 1);
}

#[test]
fn rename_onto_existing_path_is_duplicate() {
    let mut c = fresh();
    create_entry(&mut c, "/a.txt", file_of(1)).unwrap();
    create_entry(&mut c, "/b.txt", file_of(1)).unwrap();
    assert_eq!(update_entry(&mut c, "/a.txt", "/b.txt"), Err(CatalogError::DuplicatePath));
    assert!(file(&c, "/a.txt").is_some());
}

#[test]
fn rename_to_root_has_no_name() {
    let mut c = fresh();
    create_entry(&mut c, "/a", FsObject::Directory).unwrap();
    assert_eq!(update_entry(&mut c, "/a", "/"), Err(CatalogError::NoName));
}

#[test]
fn batch_update_reports_failing_index() {
    let mut c = fresh();
    create_entry(&mut c, "/a.txt", file_of(1)).unwrap();
    create_entry(&mut c, "/b.txt", file_of(1)).unwrap();
    let olds = vec!["/a.txt".to_string(), "/b.txt".to_string(), "/c.txt".to_string()];
    let news = vec!["/z.txt".to_string(), "/z.txt".to_string()];
    assert_eq!(
        update_entries(&mut c, &olds, &news),
        Err(BatchError { index: 1, error: CatalogError::DuplicatePath })
    );
    assert!(file(&c, "/z.txt").is_some());
    assert!(file(&c, "/b.txt").is_some());
}

#[test]
fn query_returns_all_rows() {
    let mut c = fresh();
    create_entry(&mut c, "/a/b.txt", file_of(1)).unwrap();
    let (files, dirs) = query(&c);
    assert_eq!(files.len(), 1);
    assert_eq!(dirs.len(), 2);
}

#[test]
fn kilobytes_truncate() {
    assert_eq!(bytes_to_kb(0), 0);
    assert_eq!(bytes_to_kb(999), 0);
    assert_eq!(bytes_to_kb(1000), 1);
    assert_eq!(bytes_to_kb(2500), 2);
    assert_eq!(bytes_to_kb(5000), 5);
}

#[test]
fn kilobytes_clamp_at_column_limit() {
    assert_eq!(bytes_to_kb(2_147_483_647_000), 2_147_483_647);
    assert_eq!(bytes_to_kb(2_147_483_648_000), i32::MAX);
    assert_eq!(bytes_to_kb(u64::MAX), i32::MAX);
}
