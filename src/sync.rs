use vstd::prelude::*;

use crate::catalog::{
    create_entry, create_spec, delete_entry, delete_spec, update_entry, update_spec, Catalog,
    CatalogError, CatalogView, FsObject,
};
use crate::path::{relative_canonical, strip_storage_dir, under_root, PathError};

verus! {

/// A filesystem change, as reported by the watcher. `Create` carries what a
/// stat of the path found when the event was taken up.
pub enum ChangeEvent {
    Create { path: String, target: FsObject },
    Remove { path: String },
    Rename { from: String, to: String },
    Other,
}

/// The view of an event: its paths as character sequences.
pub enum EventView {
    Create { path: Seq<char>, target: FsObject },
    Remove { path: Seq<char> },
    Rename { from: Seq<char>, to: Seq<char> },
    Other,
}

impl View for ChangeEvent {
    type V = EventView;

    open spec fn view(&self) -> EventView {
        match self {
            ChangeEvent::Create { path, target } => EventView::Create { path: path@, target: *target },
            ChangeEvent::Remove { path } => EventView::Remove { path: path@ },
            ChangeEvent::Rename { from, to } => EventView::Rename { from: from@, to: to@ },
            ChangeEvent::Other => EventView::Other,
        }
    }
}

/// Errors of applying an event to the catalog.
#[derive(Debug, Clone, Copy, PartialEq, Eq, Structural)]
pub enum SyncError {
    /// A path of the event does not lie under the configured prefix.
    PathOutsideRoot,
    Catalog(CatalogError),
}

/// Whether path `p` lies under `prefix` (see `under_root`).
pub open spec fn under(p: Seq<char>, prefix: Seq<char>) -> bool {
    under_root(p, prefix)
}

/// The catalog after applying `ev` with paths under `prefix`, and the outcome.
pub open spec fn sync_spec(c: CatalogView, ev: EventView, prefix: Seq<char>) -> (
    CatalogView,
    Result<(), SyncError>,
) {
    match ev {
        EventView::Create { path, target } => {
            if !under(path, prefix) {
                (c, Err(SyncError::PathOutsideRoot))
            } else {
                let (c1, ok) = create_spec(c, relative_canonical(path, prefix), target);
                (c1, if ok { Ok(()) } else { Err(SyncError::Catalog(CatalogError::IdSpaceExhausted)) })
            }
        },
        EventView::Remove { path } => {
            if !under(path, prefix) {
                (c, Err(SyncError::PathOutsideRoot))
            } else {
                (delete_spec(c, relative_canonical(path, prefix)), Ok(()))
            }
        },
        EventView::Rename { from, to } => {
            if !under(from, prefix) || !under(to, prefix) {
                (c, Err(SyncError::PathOutsideRoot))
            } else {
                let (c1, r) = update_spec(
                    c,
                    relative_canonical(from, prefix),
                    relative_canonical(to, prefix),
                );
                match r {
                    Ok(_) => (c1, Ok(())),
                    Err(e) => (c1, Err(SyncError::Catalog(e))),
                }
            }
        },
        EventView::Other => (c, Ok(())),
    }
}

fn strip(p: &str, prefix: &str) -> (r: Option<String>)
    ensures
        under(p@, prefix@) <==> r is Some,
        r matches Some(s) ==> s@ == relative_canonical(p@, prefix@),
{
    match strip_storage_dir(p, prefix) {
        Ok(s) => Some(s),
        Err(PathError::OutsideRoot) => None,
    }
}

/// Applies one filesystem change to the catalog: a creation creates the entry,
/// a removal deletes it, a rename updates it; other changes are ignored. Paths
/// are first made canonical by stripping `path_prefix`.
pub fn sync_db(catalog: &mut Catalog, event: &ChangeEvent, path_prefix: &str) -> (r: Result<(), SyncError>)
    requires
        old(catalog)@.wf(),
    ensures
        final(catalog)@.wf(),
        (final(catalog)@, r) == sync_spec(old(catalog)@, event@, path_prefix@),
{
    match event {
        ChangeEvent::Create { path, target } => {
            match strip(path.as_str(), path_prefix) {
                None => Err(SyncError::PathOutsideRoot),
                Some(q) => match create_entry(catalog, q.as_str(), *target) {
                    Ok(()) => Ok(()),
                    Err(e) => Err(SyncError::Catalog(e)),
                },
            }
        },
        ChangeEvent::Remove { path } => {
            match strip(path.as_str(), path_prefix) {
                None => Err(SyncError::PathOutsideRoot),
                Some(q) => {
                    let _ = delete_entry(catalog, q.as_str());
                    Ok(())
                },
            }
        },
        ChangeEvent::Rename { from, to } => {
            let a = strip(from.as_str(), path_prefix);
            let b = strip(to.as_str(), path_prefix);
            match (a, b) {
                (Some(qa), Some(qb)) => match update_entry(catalog, qa.as_str(), qb.as_str()) {
                    Ok(()) => Ok(()),
                    Err(e) => Err(SyncError::Catalog(e)),
                },
                _ => Err(SyncError::PathOutsideRoot),
            }
        },
        ChangeEvent::Other => Ok(()),
    }
}

} // verus!
