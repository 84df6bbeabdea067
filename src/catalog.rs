use vstd::prelude::*;

use crate::path::{components, join_components, join_path, split_components, views_of};

verus! {

/// Id of the root directory entry, the first directory row ever inserted.
pub const ROOT_ID: i32 = 1;

/// A row of the `dirs` table.
pub struct DirEntry {
    pub dir_id: i32,
    pub dir_name: String,
    pub full_path: String,
    pub parent_dir_id: i32,
}

/// A row of the `files` table; `file_size` is in kilobytes.
pub struct FileEntry {
    pub file_id: i32,
    pub file_name: String,
    pub full_path: String,
    pub file_size: i32,
    pub parent_dir_id: i32,
}

/// The mathematical content of a directory row.
pub struct DirRow {
    pub id: i32,
    pub name: Seq<char>,
    pub path: Seq<char>,
    pub parent: i32,
}

/// The mathematical content of a file row.
pub struct FileRow {
    pub id: i32,
    pub name: Seq<char>,
    pub path: Seq<char>,
    pub size: i32,
    pub parent: i32,
}

impl View for DirEntry {
    type V = DirRow;

    open spec fn view(&self) -> DirRow {
        DirRow {
            id: self.dir_id,
            name: self.dir_name@,
            path: self.full_path@,
            parent: self.parent_dir_id,
        }
    }
}

impl View for FileEntry {
    type V = FileRow;

    open spec fn view(&self) -> FileRow {
        FileRow {
            id: self.file_id,
            name: self.file_name@,
            path: self.full_path@,
            size: self.file_size,
            parent: self.parent_dir_id,
        }
    }
}

impl DirEntry {
    /// A copy of the row.
    pub fn duplicate(&self) -> (r: DirEntry)
        ensures
            r@ == self@,
    {
        DirEntry {
            dir_id: self.dir_id,
            dir_name: self.dir_name.clone(),
            full_path: self.full_path.clone(),
            parent_dir_id: self.parent_dir_id,
        }
    }
}

impl FileEntry {
    /// A copy of the row.
    pub fn duplicate(&self) -> (r: FileEntry)
        ensures
            r@ == self@,
    {
        FileEntry {
            file_id: self.file_id,
            file_name: self.file_name.clone(),
            full_path: self.full_path.clone(),
            file_size: self.file_size,
            parent_dir_id: self.parent_dir_id,
        }
    }
}

/// The two tables of the catalog and the next id each will assign.
pub struct CatalogView {
    pub dirs: Seq<DirRow>,
    pub files: Seq<FileRow>,
    pub next_dir_id: i32,
    pub next_file_id: i32,
}

/// The catalog: a `dirs` table and a `files` table, each keyed by a unique
/// full path, with ids assigned in increasing order. This is the store the
/// mutations act on; a relational database, where one is used, only mirrors
/// these rows.
pub struct Catalog {
    dirs: Vec<DirEntry>,
    files: Vec<FileEntry>,
    next_dir_id: i32,
    next_file_id: i32,
}

impl View for Catalog {
    type V = CatalogView;

    closed spec fn view(&self) -> CatalogView {
        CatalogView {
            dirs: self.dirs@.map_values(|d: DirEntry| d@),
            files: self.files@.map_values(|f: FileEntry| f@),
            next_dir_id: self.next_dir_id,
            next_file_id: self.next_file_id,
        }
    }
}

/// Whether some directory row has path `p`.
pub open spec fn has_dir(dirs: Seq<DirRow>, p: Seq<char>) -> bool {
    exists|i: int| 0 <= i < dirs.len() && dirs[i].path == p
}

/// Position of the directory row whose path is `p`.
pub open spec fn dir_pos(dirs: Seq<DirRow>, p: Seq<char>) -> int {
    choose|i: int| 0 <= i < dirs.len() && dirs[i].path == p
}

/// Whether some file row has path `p`.
pub open spec fn has_file(files: Seq<FileRow>, p: Seq<char>) -> bool {
    exists|i: int| 0 <= i < files.len() && files[i].path == p
}

/// Position of the file row whose path is `p`.
pub open spec fn file_pos(files: Seq<FileRow>, p: Seq<char>) -> int {
    choose|i: int| 0 <= i < files.len() && files[i].path == p
}

impl CatalogView {
    /// Paths are unique within each table, directory ids are unique, and every
    /// id is below the next one to be assigned.
    pub open spec fn wf(self) -> bool {
        &&& 1 <= self.next_dir_id
        &&& 1 <= self.next_file_id
        &&& forall|i: int, j: int|
            0 <= i < self.dirs.len() && 0 <= j < self.dirs.len() && self.dirs[i].path
                == self.dirs[j].path ==> i == j
        &&& forall|i: int, j: int|
            0 <= i < self.files.len() && 0 <= j < self.files.len() && self.files[i].path
                == self.files[j].path ==> i == j
        &&& forall|i: int| 0 <= i < self.dirs.len() ==> self.dirs[i].id < self.next_dir_id
        &&& forall|i: int, j: int|
            0 <= i < self.dirs.len() && 0 <= j < self.dirs.len() && self.dirs[i].id == self.dirs[j].id
                ==> i == j
        &&& forall|i: int| 0 <= i < self.files.len() ==> self.files[i].id < self.next_file_id
    }
}

/// Errors of catalog mutations.
#[derive(Debug, Clone, Copy, PartialEq, Eq, Structural)]
pub enum CatalogError {
    /// No id is left to assign to a new row.
    IdSpaceExhausted,
    /// Another row of the same table already has the target path.
    DuplicatePath,
    /// The target path has no last component to take a name from.
    NoName,
}

/// What stands on disk at a path when its creation is processed.
#[derive(Debug, Clone, Copy, PartialEq, Eq, Structural)]
pub enum FsObject {
    /// A regular file of this many bytes.
    File { size_bytes: u64 },
    /// A directory, or nothing any more (removed since the event).
    Directory,
}

/// File size in kilobytes: the byte count divided by 1000, truncated, and
/// clamped to `i32::MAX` where it does not fit the size column.
pub open spec fn kb_of(bytes: u64) -> i32 {
    if bytes / 1000 > i32::MAX as u64 {
        i32::MAX
    } else {
        (bytes / 1000) as i32
    }
}

/// A byte count in kilobytes (see `kb_of`).
pub fn bytes_to_kb(bytes: u64) -> (r: i32)
    ensures
        r == kb_of(bytes),
{
    let kb = bytes / 1000;
    if kb > i32::MAX as u64 {
        i32::MAX
    } else {
        kb as i32
    }
}

/// Looks up the directory at `p`, creating it under `parent` if absent; gives
/// the state after and the directory's id, or `None` if no id is left.
pub open spec fn resolve_dir(c: CatalogView, name: Seq<char>, p: Seq<char>, parent: i32) -> (
    CatalogView,
    Option<i32>,
) {
    if has_dir(c.dirs, p) {
        (c, Some(c.dirs[dir_pos(c.dirs, p)].id))
    } else if c.next_dir_id == i32::MAX {
        (c, None)
    } else {
        (
            CatalogView {
                dirs: c.dirs.push(DirRow { id: c.next_dir_id, name, path: p, parent }),
                next_dir_id: (c.next_dir_id + 1) as i32,
                ..c
            },
            Some(c.next_dir_id),
        )
    }
}

/// Resolves, from the root down, the directories of the first `n` components
/// of `cs`: the state after and the id of the last, or `None` on failure.
pub open spec fn walk(c: CatalogView, cs: Seq<Seq<char>>, n: nat) -> (CatalogView, Option<i32>)
    decreases n,
{
    if n == 0 {
        (c, Some(ROOT_ID))
    } else {
        let (c1, p) = walk(c, cs, (n - 1) as nat);
        match p {
            None => (c1, None),
            Some(pid) => resolve_dir(c1, cs[n - 1], join_path(cs.take(n as int)), pid),
        }
    }
}

/// Inserts a file row, or, where one has the path already, sets its size alone.
pub open spec fn upsert_file(c: CatalogView, name: Seq<char>, p: Seq<char>, size: i32, parent: i32) -> (
    CatalogView,
    bool,
) {
    if has_file(c.files, p) {
        let i = file_pos(c.files, p);
        (CatalogView { files: c.files.update(i, FileRow { size, ..c.files[i] }), ..c }, true)
    } else if c.next_file_id == i32::MAX {
        (c, false)
    } else {
        (
            CatalogView {
                files: c.files.push(FileRow { id: c.next_file_id, name, path: p, size, parent }),
                next_file_id: (c.next_file_id + 1) as i32,
                ..c
            },
            true,
        )
    }
}

/// The catalog after creating the entry at path `p`, and whether it succeeded.
pub open spec fn create_spec(c: CatalogView, p: Seq<char>, target: FsObject) -> (CatalogView, bool) {
    let cs = components(p);
    if cs.len() == 0 {
        (c, true)
    } else {
        match target {
            FsObject::Directory => {
                let (c1, r) = walk(c, cs, cs.len());
                (c1, r is Some)
            },
            FsObject::File { size_bytes } => {
                let (c1, r) = walk(c, cs, (cs.len() - 1) as nat);
                match r {
                    None => (c1, false),
                    Some(pid) => upsert_file(c1, cs.last(), join_path(cs), kb_of(size_bytes), pid),
                }
            },
        }
    }
}

/// The catalog after deleting the entry at path `p`: the directory row there if
/// any, else the file row there if any; rows below it are left as they are.
pub open spec fn delete_spec(c: CatalogView, p: Seq<char>) -> CatalogView {
    let q = join_path(components(p));
    if has_dir(c.dirs, q) {
        CatalogView { dirs: c.dirs.remove(dir_pos(c.dirs, q)), ..c }
    } else if has_file(c.files, q) {
        CatalogView { files: c.files.remove(file_pos(c.files, q)), ..c }
    } else {
        c
    }
}

/// The catalog after renaming the entry at `old_p` to `new_p`, and the outcome.
/// Only the path and the name change; the parent id stays.
pub open spec fn update_spec(c: CatalogView, old_p: Seq<char>, new_p: Seq<char>) -> (
    CatalogView,
    Result<(), CatalogError>,
) {
    let q = join_path(components(old_p));
    let ncs = components(new_p);
    let nq = join_path(ncs);
    if has_dir(c.dirs, q) {
        let i = dir_pos(c.dirs, q);
        if ncs.len() == 0 {
            (c, Err(CatalogError::NoName))
        } else if has_dir(c.dirs, nq) && dir_pos(c.dirs, nq) != i {
            (c, Err(CatalogError::DuplicatePath))
        } else {
            (
                CatalogView {
                    dirs: c.dirs.update(i, DirRow { name: ncs.last(), path: nq, ..c.dirs[i] }),
                    ..c
                },
                Ok(()),
            )
        }
    } else if has_file(c.files, q) {
        let i = file_pos(c.files, q);
        if ncs.len() == 0 {
            (c, Err(CatalogError::NoName))
        } else if has_file(c.files, nq) && file_pos(c.files, nq) != i {
            (c, Err(CatalogError::DuplicatePath))
        } else {
            (
                CatalogView {
                    files: c.files.update(i, FileRow { name: ncs.last(), path: nq, ..c.files[i] }),
                    ..c
                },
                Ok(()),
            )
        }
    } else {
        (c, Ok(()))
    }
}

/// The directory rows whose parent is `id`, other than the row `id` itself.
pub open spec fn child_dirs(dirs: Seq<DirRow>, id: i32) -> Seq<DirRow>
    decreases dirs.len(),
{
    if dirs.len() == 0 {
        Seq::empty()
    } else {
        let rest = child_dirs(dirs.drop_last(), id);
        if dirs.last().parent == id && dirs.last().id != id {
            rest.push(dirs.last())
        } else {
            rest
        }
    }
}

/// The file rows whose parent is `id`.
pub open spec fn child_files(files: Seq<FileRow>, id: i32) -> Seq<FileRow>
    decreases files.len(),
{
    if files.len() == 0 {
        Seq::empty()
    } else {
        let rest = child_files(files.drop_last(), id);
        if files.last().parent == id {
            rest.push(files.last())
        } else {
            rest
        }
    }
}

/// The listing of the directory at path `p`: its child files and directories,
/// both empty where no directory row has that path.
pub open spec fn contents_spec(c: CatalogView, p: Seq<char>) -> (Seq<FileRow>, Seq<DirRow>) {
    let q = join_path(components(p));
    if has_dir(c.dirs, q) {
        let id = c.dirs[dir_pos(c.dirs, q)].id;
        (child_files(c.files, id), child_dirs(c.dirs, id))
    } else {
        (Seq::empty(), Seq::empty())
    }
}

/// The contents of a sequence of directory rows.
pub open spec fn dir_views(v: Seq<DirEntry>) -> Seq<DirRow> {
    v.map_values(|d: DirEntry| d@)
}

/// The contents of a sequence of file rows.
pub open spec fn file_views(v: Seq<FileEntry>) -> Seq<FileRow> {
    v.map_values(|f: FileEntry| f@)
}

impl Catalog {
    /// The directory table.
    pub fn dirs(&self) -> (r: &Vec<DirEntry>)
        ensures
            dir_views(r@) == self@.dirs,
    {
        &self.dirs
    }

    /// The file table.
    pub fn files(&self) -> (r: &Vec<FileEntry>)
        ensures
            file_views(r@) == self@.files,
    {
        &self.files
    }

    /// Position of the directory row at path `p`.
    fn find_dir(&self, p: &String) -> (r: Option<usize>)
        requires
            self@.wf(),
        ensures
            r is Some <==> has_dir(self@.dirs, p@),
            r is Some ==> r->Some_0 == dir_pos(self@.dirs, p@) && r->Some_0 < self@.dirs.len(),
    {
        let mut i: usize = 0;
        while i < self.dirs.len()
            invariant
                self@.wf(),
                i <= self@.dirs.len(),
                forall|k: int| 0 <= k < i ==> self@.dirs[k].path != p@,
            decreases self@.dirs.len() - i,
        {
            if self.dirs[i].full_path.eq(p) {
                assert(self@.dirs[i as int].path == p@);
                return Some(i);
            }
            i = i + 1;
        }
        None
    }

    /// Position of the file row at path `p`.
    fn find_file(&self, p: &String) -> (r: Option<usize>)
        requires
            self@.wf(),
        ensures
            r is Some <==> has_file(self@.files, p@),
            r is Some ==> r->Some_0 == file_pos(self@.files, p@) && r->Some_0 < self@.files.len(),
    {
        let mut i: usize = 0;
        while i < self.files.len()
            invariant
                self@.wf(),
                i <= self@.files.len(),
                forall|k: int| 0 <= k < i ==> self@.files[k].path != p@,
            decreases self@.files.len() - i,
        {
            if self.files[i].full_path.eq(p) {
                assert(self@.files[i as int].path == p@);
                return Some(i);
            }
            i = i + 1;
        }
        None
    }
}

/// Once the walk has failed, walking further changes nothing.
proof fn lemma_walk_stuck(c: CatalogView, cs: Seq<Seq<char>>, k: nat, m: nat)
    requires
        k <= m,
        walk(c, cs, k).1 is None,
    ensures
        walk(c, cs, m) == walk(c, cs, k),
    decreases m,
{
    if m > k {
        lemma_walk_stuck(c, cs, k, (m - 1) as nat);
    }
}

/// Every step of a walk keeps the catalog well formed.
pub(crate) proof fn lemma_walk_wf(c: CatalogView, cs: Seq<Seq<char>>, n: nat)
    requires
        c.wf(),
    ensures
        walk(c, cs, n).0.wf(),
    decreases n,
{
    if n > 0 {
        lemma_walk_wf(c, cs, (n - 1) as nat);
        let (c1, p) = walk(c, cs, (n - 1) as nat);
        if let Some(pid) = p {
            let q = join_path(cs.take(n as int));
            if !has_dir(c1.dirs, q) && c1.next_dir_id != i32::MAX {
                let c2 = resolve_dir(c1, cs[n - 1], q, pid).0;
                assert forall|i: int, j: int|
                    0 <= i < c2.dirs.len() && 0 <= j < c2.dirs.len() && c2.dirs[i].path
                        == c2.dirs[j].path implies i == j by {
                    if i < c1.dirs.len() && j == c1.dirs.len() {
                        assert(c1.dirs[i].path == q);
                    }
                    if j < c1.dirs.len() && i == c1.dirs.len() {
                        assert(c1.dirs[j].path == q);
                    }
                }
            }
        }
    }
}

/// An empty catalog: both tables created, no rows yet.
pub fn create_schema() -> (r: Catalog)
    ensures
        r@.wf(),
        r@.dirs.len() == 0,
        r@.files.len() == 0,
        r@.next_dir_id == ROOT_ID,
        r@.next_file_id == 1,
{
    let r = Catalog { dirs: Vec::new(), files: Vec::new(), next_dir_id: ROOT_ID, next_file_id: 1 };
    assert(r@.dirs =~= Seq::<DirRow>::empty());
    assert(r@.files =~= Seq::<FileRow>::empty());
    r
}

/// The catalog after inserting the root row, and the outcome.
pub open spec fn root_spec(c: CatalogView) -> (CatalogView, Result<(), CatalogError>) {
    if has_dir(c.dirs, seq!['/']) {
        (c, Err(CatalogError::DuplicatePath))
    } else if c.next_dir_id == i32::MAX {
        (c, Err(CatalogError::IdSpaceExhausted))
    } else {
        (
            CatalogView {
                dirs: c.dirs.push(
                    DirRow { id: c.next_dir_id, name: Seq::empty(), path: seq!['/'], parent: ROOT_ID },
                ),
                next_dir_id: (c.next_dir_id + 1) as i32,
                ..c
            },
            Ok(()),
        )
    }
}

/// Looks up the directory row at `p`, inserting it under `parent` if absent.
fn insert_dir(catalog: &mut Catalog, name: String, p: String, parent: i32) -> (r: Option<i32>)
    requires
        old(catalog)@.wf(),
    ensures
        final(catalog)@.wf(),
        (final(catalog)@, r) == resolve_dir(old(catalog)@, name@, p@, parent),
{
    match catalog.find_dir(&p) {
        Some(i) => Some(catalog.dirs[i].dir_id),
        None => {
            if catalog.next_dir_id == i32::MAX {
                return None;
            }
            let id = catalog.next_dir_id;
            let ghost before = catalog@;
            let ghost row = DirRow { id, name: name@, path: p@, parent };
            catalog.dirs.push(DirEntry { dir_id: id, dir_name: name, full_path: p, parent_dir_id: parent });
            catalog.next_dir_id = id + 1;
            assert(catalog@.dirs =~= before.dirs.push(row));
            assert(catalog@.files =~= before.files);
            assert forall|i: int, j: int|
                0 <= i < catalog@.dirs.len() && 0 <= j < catalog@.dirs.len() && catalog@.dirs[i].path
                    == catalog@.dirs[j].path implies i == j by {
                if i < before.dirs.len() && j == before.dirs.len() {
                    assert(before.dirs[i].path == row.path);
                }
                if j < before.dirs.len() && i == before.dirs.len() {
                    assert(before.dirs[j].path == row.path);
                }
            }
            Some(id)
        },
    }
}

/// Inserts the file row at `p`, or sets the size of the one already there.
fn upsert_file_row(catalog: &mut Catalog, name: String, p: String, size: i32, parent: i32) -> (r: bool)
    requires
        old(catalog)@.wf(),
    ensures
        final(catalog)@.wf(),
        (final(catalog)@, r) == upsert_file(old(catalog)@, name@, p@, size, parent),
{
    let ghost before = catalog@;
    match catalog.find_file(&p) {
        Some(i) => {
            let mut e = catalog.files[i].duplicate();
            e.file_size = size;
            let ghost row = e@;
            catalog.files.set(i, e);
            assert(catalog@.files =~= before.files.update(i as int, row));
            assert(catalog@.dirs =~= before.dirs);
            assert(row.path == before.files[i as int].path);
            true
        },
        None => {
            if catalog.next_file_id == i32::MAX {
                return false;
            }
            let id = catalog.next_file_id;
            let ghost row = FileRow { id, name: name@, path: p@, size, parent };
            catalog.files.push(
                FileEntry { file_id: id, file_name: name, full_path: p, file_size: size, parent_dir_id: parent },
            );
            catalog.next_file_id = id + 1;
            assert(catalog@.files =~= before.files.push(row));
            assert(catalog@.dirs =~= before.dirs);
            assert forall|i: int, j: int|
                0 <= i < catalog@.files.len() && 0 <= j < catalog@.files.len()
                    && catalog@.files[i].path == catalog@.files[j].path implies i == j by {
                if i < before.files.len() && j == before.files.len() {
                    assert(before.files[i].path == row.path);
                }
                if j < before.files.len() && i == before.files.len() {
                    assert(before.files[j].path == row.path);
                }
            }
            true
        },
    }
}

/// Inserts the root directory row: path `/`, empty name, parent the root id.
/// Fails if a root row exists already.
pub fn create_root_dir(catalog: &mut Catalog) -> (r: Result<(), CatalogError>)
    requires
        old(catalog)@.wf(),
    ensures
        final(catalog)@.wf(),
        (final(catalog)@, r) == root_spec(old(catalog)@),
{
    let p = String::from_str("/");
    proof {
        reveal_strlit("/");
    }
    assert(p@ =~= seq!['/']);
    if catalog.find_dir(&p).is_some() {
        return Err(CatalogError::DuplicatePath);
    }
    if catalog.next_dir_id == i32::MAX {
        return Err(CatalogError::IdSpaceExhausted);
    }
    let name = String::new();
    match insert_dir(catalog, name, p, ROOT_ID) {
        Some(_) => Ok(()),
        None => Err(CatalogError::IdSpaceExhausted),
    }
}

/// Creates the entry at canonical path `path`: every missing ancestor becomes a
/// directory row, then the last component becomes a file row (upserted by
/// path) or a directory row, as `target` says. On failure the rows created so
/// far stay.
pub fn create_entry(catalog: &mut Catalog, path: &str, target: FsObject) -> (r: Result<(), CatalogError>)
    requires
        old(catalog)@.wf(),
    ensures
        final(catalog)@.wf(),
        final(catalog)@ == create_spec(old(catalog)@, path@, target).0,
        r is Ok <==> create_spec(old(catalog)@, path@, target).1,
        r matches Err(e) ==> e == CatalogError::IdSpaceExhausted,
{
    let cs = split_components(path);
    let ghost g = views_of(cs@);
    let ghost c0 = catalog@;
    let n = cs.len();
    if n == 0 {
        return Ok(());
    }
    let dir_count: usize = match target {
        FsObject::File { .. } => n - 1,
        FsObject::Directory => n,
    };
    let mut parent: i32 = ROOT_ID;
    let mut full = String::from_str("/");
    let mut i: usize = 0;
    while i < dir_count
        invariant
            catalog@.wf(),
            c0.wf(),
            dir_count <= n,
            n == cs@.len(),
            n > 0,
            i <= dir_count,
            g == views_of(cs@),
            g == components(path@),
            c0 == old(catalog)@,
            dir_count == (match target {
                FsObject::File { .. } => n - 1,
                FsObject::Directory => n as int,
            }),
            (catalog@, Some(parent)) == walk(c0, g, i as nat),
            i > 0 ==> full@ == join_path(g.take(i as int)),
        decreases dir_count - i,
    {
        if i == 0 {
            full = String::from_str("/").concat(cs[0].as_str());
        } else {
            full.append("/");
            full.append(cs[i].as_str());
        }
        proof {
            reveal_strlit("/");
            let t = g.take(i + 1);
            if i > 0 {
                assert(t.drop_last() =~= g.take(i as int));
            }
            assert(t.last() == cs@[i as int]@);
        }
        assert(full@ == join_path(g.take(i + 1)));
        match insert_dir(catalog, cs[i].clone(), full.clone(), parent) {
            None => {
                proof {
                    lemma_walk_stuck(c0, g, (i + 1) as nat, dir_count as nat);
                }
                return Err(CatalogError::IdSpaceExhausted);
            },
            Some(id) => {
                parent = id;
            },
        }
        i = i + 1;
    }
    match target {
        FsObject::Directory => Ok(()),
        FsObject::File { size_bytes } => {
            let fpath = join_components(cs.as_slice());
            let name = cs[n - 1].clone();
            let size = bytes_to_kb(size_bytes);
            if upsert_file_row(catalog, name, fpath, size, parent) {
                Ok(())
            } else {
                Err(CatalogError::IdSpaceExhausted)
            }
        },
    }
}

/// Removing a row keeps paths unique.
proof fn lemma_remove_unique<T>(rows: Seq<T>, k: int, path_of: spec_fn(T) -> Seq<char>)
    requires
        0 <= k < rows.len(),
        forall|a: int, b: int|
            0 <= a < rows.len() && 0 <= b < rows.len() && path_of(rows[a]) == path_of(rows[b]) ==> a
                == b,
    ensures
        forall|a: int, b: int|
            0 <= a < rows.remove(k).len() && 0 <= b < rows.remove(k).len() && path_of(
                rows.remove(k)[a],
            ) == path_of(rows.remove(k)[b]) ==> a == b,
{
    let r = rows.remove(k);
    assert forall|a: int, b: int|
        0 <= a < r.len() && 0 <= b < r.len() && path_of(r[a]) == path_of(r[b]) implies a == b by {
        let a0 = if a < k { a } else { a + 1 };
        let b0 = if b < k { b } else { b + 1 };
        assert(r[a] == rows[a0]);
        assert(r[b] == rows[b0]);
    }
}

/// Removing a row keeps directory ids unique.
proof fn lemma_remove_unique_id(rows: Seq<DirRow>, k: int)
    requires
        0 <= k < rows.len(),
        forall|a: int, b: int|
            0 <= a < rows.len() && 0 <= b < rows.len() && rows[a].id == rows[b].id ==> a == b,
    ensures
        forall|a: int, b: int|
            0 <= a < rows.remove(k).len() && 0 <= b < rows.remove(k).len() && rows.remove(k)[a].id
                == rows.remove(k)[b].id ==> a == b,
{
    let r = rows.remove(k);
    assert forall|a: int, b: int| 0 <= a < r.len() && 0 <= b < r.len() && r[a].id == r[b].id implies a == b by {
        let a0 = if a < k { a } else { a + 1 };
        let b0 = if b < k { b } else { b + 1 };
        assert(r[a] == rows[a0]);
        assert(r[b] == rows[b0]);
    }
}

/// Deletes the entry at canonical path `path`: the directory row there, else
/// the file row there. Rows below a deleted directory are kept. A path with no
/// row is no error.
pub fn delete_entry(catalog: &mut Catalog, path: &str) -> (r: Result<(), CatalogError>)
    requires
        old(catalog)@.wf(),
    ensures
        final(catalog)@.wf(),
        final(catalog)@ == delete_spec(old(catalog)@, path@),
        r is Ok,
{
    let cs = split_components(path);
    let q = join_components(cs.as_slice());
    let ghost before = catalog@;
    match catalog.find_dir(&q) {
        Some(i) => {
            catalog.dirs.remove(i);
            assert(catalog@.dirs =~= before.dirs.remove(i as int));
            assert(catalog@.files =~= before.files);
            proof {
                lemma_remove_unique(before.dirs, i as int, |d: DirRow| d.path);
                lemma_remove_unique_id(before.dirs, i as int);
            }
        },
        None => {
            match catalog.find_file(&q) {
                Some(i) => {
                    catalog.files.remove(i);
                    assert(catalog@.files =~= before.files.remove(i as int));
                    assert(catalog@.dirs =~= before.dirs);
                    proof {
                        lemma_remove_unique(before.files, i as int, |f: FileRow| f.path);
                    }
                },
                None => {},
            }
        },
    }
    Ok(())
}

/// Renames the entry at canonical path `old_path` to `new_path`: the directory
/// row there, else the file row there, gets the new path and the new last
/// component as its name. Its parent id is left as it was. A path with no row
/// is no error.
pub fn update_entry(catalog: &mut Catalog, old_path: &str, new_path: &str) -> (r: Result<(), CatalogError>)
    requires
        old(catalog)@.wf(),
    ensures
        final(catalog)@.wf(),
        (final(catalog)@, r) == update_spec(old(catalog)@, old_path@, new_path@),
{
    let ocs = split_components(old_path);
    let q = join_components(ocs.as_slice());
    let ncs = split_components(new_path);
    let nq = join_components(ncs.as_slice());
    let ghost before = catalog@;
    match catalog.find_dir(&q) {
        Some(i) => {
            if ncs.len() == 0 {
                return Err(CatalogError::NoName);
            }
            if let Some(j) = catalog.find_dir(&nq) {
                if j != i {
                    return Err(CatalogError::DuplicatePath);
                }
            }
            let mut e = catalog.dirs[i].duplicate();
            e.full_path = nq;
            e.dir_name = ncs[ncs.len() - 1].clone();
            let ghost row = e@;
            catalog.dirs.set(i, e);
            assert(catalog@.dirs =~= before.dirs.update(i as int, row));
            assert(catalog@.files =~= before.files);
            assert forall|a: int, b: int|
                0 <= a < catalog@.dirs.len() && 0 <= b < catalog@.dirs.len() && catalog@.dirs[a].path
                    == catalog@.dirs[b].path implies a == b by {
                if a != i && b == i {
                    assert(before.dirs[a].path == row.path);
                }
                if b != i && a == i {
                    assert(before.dirs[b].path == row.path);
                }
            }
            Ok(())
        },
        None => {
            match catalog.find_file(&q) {
                Some(i) => {
                    if ncs.len() == 0 {
                        return Err(CatalogError::NoName);
                    }
                    if let Some(j) = catalog.find_file(&nq) {
                        if j != i {
                            return Err(CatalogError::DuplicatePath);
                        }
                    }
                    let mut e = catalog.files[i].duplicate();
                    e.full_path = nq;
                    e.file_name = ncs[ncs.len() - 1].clone();
                    let ghost row = e@;
                    catalog.files.set(i, e);
                    assert(catalog@.files =~= before.files.update(i as int, row));
                    assert(catalog@.dirs =~= before.dirs);
                    assert forall|a: int, b: int|
                        0 <= a < catalog@.files.len() && 0 <= b < catalog@.files.len()
                            && catalog@.files[a].path == catalog@.files[b].path implies a == b by {
                        if a != i && b == i {
                            assert(before.files[a].path == row.path);
                        }
                        if b != i && a == i {
                            assert(before.files[b].path == row.path);
                        }
                    }
                    Ok(())
                },
                None => Ok(()),
            }
        },
    }
}

/// Lists the directory at canonical path `path`: the file rows and the
/// directory rows directly under it, in table order.
pub fn get_dir_contents(catalog: &Catalog, path: &str) -> (r: (Vec<FileEntry>, Vec<DirEntry>))
    requires
        catalog@.wf(),
    ensures
        (file_views(r.0@), dir_views(r.1@)) == contents_spec(catalog@, path@),
{
    let cs = split_components(path);
    let q = join_components(cs.as_slice());
    let mut out_files: Vec<FileEntry> = Vec::new();
    let mut out_dirs: Vec<DirEntry> = Vec::new();
    match catalog.find_dir(&q) {
        None => {
            assert(file_views(out_files@) =~= Seq::<FileRow>::empty());
            assert(dir_views(out_dirs@) =~= Seq::<DirRow>::empty());
        },
        Some(d) => {
            let id = catalog.dirs[d].dir_id;
            let ghost fs = catalog@.files;
            let ghost ds = catalog@.dirs;
            let mut i: usize = 0;
            assert(fs.take(0) =~= Seq::<FileRow>::empty());
            assert(file_views(out_files@) =~= Seq::<FileRow>::empty());
            while i < catalog.files.len()
                invariant
                    fs == catalog@.files,
                    i <= fs.len(),
                    file_views(out_files@) == child_files(fs.take(i as int), id),
                decreases fs.len() - i,
            {
                let ghost prev = out_files@;
                assert(fs.take(i + 1).drop_last() =~= fs.take(i as int));
                assert(fs.take(i + 1).last() == fs[i as int]);
                if catalog.files[i].parent_dir_id == id {
                    out_files.push(catalog.files[i].duplicate());
                    assert(file_views(out_files@) =~= file_views(prev).push(fs[i as int]));
                }
                i = i + 1;
            }
            assert(fs.take(fs.len() as int) =~= fs);
            let mut k: usize = 0;
            assert(ds.take(0) =~= Seq::<DirRow>::empty());
            assert(dir_views(out_dirs@) =~= Seq::<DirRow>::empty());
            while k < catalog.dirs.len()
                invariant
                    ds == catalog@.dirs,
                    k <= ds.len(),
                    dir_views(out_dirs@) == child_dirs(ds.take(k as int), id),
                decreases ds.len() - k,
            {
                let ghost prev = out_dirs@;
                assert(ds.take(k + 1).drop_last() =~= ds.take(k as int));
                assert(ds.take(k + 1).last() == ds[k as int]);
                if catalog.dirs[k].parent_dir_id == id && catalog.dirs[k].dir_id != id {
                    out_dirs.push(catalog.dirs[k].duplicate());
                    assert(dir_views(out_dirs@) =~= dir_views(prev).push(ds[k as int]));
                }
                k = k + 1;
            }
            assert(ds.take(ds.len() as int) =~= ds);
        },
    }
    (out_files, out_dirs)
}

/// Copies of every row of both tables.
pub fn query(catalog: &Catalog) -> (r: (Vec<FileEntry>, Vec<DirEntry>))
    ensures
        file_views(r.0@) == catalog@.files,
        dir_views(r.1@) == catalog@.dirs,
{
    let mut fs: Vec<FileEntry> = Vec::new();
    let mut i: usize = 0;
    while i < catalog.files.len()
        invariant
            i <= catalog@.files.len(),
            file_views(fs@) == catalog@.files.take(i as int),
        decreases catalog@.files.len() - i,
    {
        let ghost prev = fs@;
        fs.push(catalog.files[i].duplicate());
        assert(file_views(fs@) =~= file_views(prev).push(catalog@.files[i as int]));
        assert(catalog@.files.take(i + 1) =~= catalog@.files.take(i as int).push(catalog@.files[i as int]));
        i = i + 1;
    }
    let mut ds: Vec<DirEntry> = Vec::new();
    let mut k: usize = 0;
    while k < catalog.dirs.len()
        invariant
            k <= catalog@.dirs.len(),
            file_views(fs@) == catalog@.files,
            dir_views(ds@) == catalog@.dirs.take(k as int),
        decreases catalog@.dirs.len() - k,
    {
        let ghost prev = ds@;
        ds.push(catalog.dirs[k].duplicate());
        assert(dir_views(ds@) =~= dir_views(prev).push(catalog@.dirs[k as int]));
        assert(catalog@.dirs.take(k + 1) =~= catalog@.dirs.take(k as int).push(catalog@.dirs[k as int]));
        k = k + 1;
    }
    (fs, ds)
}

} // verus!
