use file_catalog::catalog::{create_root_dir, create_schema, CatalogError, FsObject};
use file_catalog::sync::{sync_db, ChangeEvent, SyncError};

#[test]
fn events_drive_the_catalog() {
    let mut c = create_schema();
    create_root_dir(&mut c).unwrap();
    let create = ChangeEvent::Create {
        path: "/srv/files/a/b.txt".to_string(),
        target: FsObject::File { size_bytes: 4200 },
    };
    assert_eq!(sync_db(&mut c, &create, "/srv/files"), Ok(()));
    assert!(c.files().iter().any(|f| f.full_path == "/a/b.txt" && f.file_size == 4));
    let rename = ChangeEvent::Rename {
        from: "/srv/files/a/b.txt".to_string(),
        to: "/srv/files/a/c.txt".to_string(),
    };
    assert_eq!(sync_db(&mut c, &rename, "/srv/files"), Ok(()));
    assert!(c.files().iter().any(|f| f.full_path == "/a/c.txt"));
    let remove = ChangeEvent::Remove { path: "/srv/files/a/c.txt".to_string() };
    assert_eq!(sync_db(&mut c, &remove, "/srv/files"), Ok(()));
    assert!(c.files().is_empty());
    assert_eq!(sync_db(&mut c, &ChangeEvent::Other, "/srv/files"), Ok(()));
    assert_eq!(c.dirs().len(), 2);
}

#[test]
fn events_outside_root_are_rejected() {
    let mut c = create_schema();
    create_root_dir(&mut c).unwrap();
    let ev = ChangeEvent::Remove { path: "/elsewhere/x".to_string() };
    assert_eq!(sync_db(&mut c, &ev, "/srv/files"), Err(SyncError::PathOutsideRoot));
}

#[test]
fn rename_conflict_surfaces_as_catalog_error() {
    let mut c = create_schema();
    create_root_dir(&mut c).unwrap();
    for name in ["a.txt", "b.txt"] {
        let ev = ChangeEvent::Create {
            path: format!("/srv/files/{}", name),
            target: FsObject::File { size_bytes: 10 },
        };
        sync_db(&mut c, &ev, "/srv/files").unwrap();
    }
    let rename = ChangeEvent::Rename {
        from: "/srv/files/a.txt".to_string(),
        to: "/srv/files/b.txt".to_string(),
    };
    assert_eq!(
        sync_db(&mut c, &rename, "/srv/files"),
        Err(SyncError::Catalog(CatalogError::DuplicatePath))
    );
    let outside = ChangeEvent::Rename {
        from: "/srv/files/a.txt".to_string(),
        to: "/tmp/b.txt".to_string(),
    };
    assert_eq!(sync_db(&mut c, &outside, "/srv/files"), Err(SyncError::PathOutsideRoot));
    assert_eq!(c.files().len(), 2);
}
