use vstd::prelude::*;

use crate::catalog::{
    child_dirs, child_files, contents_spec, create_spec, delete_spec, dir_pos, file_pos, has_dir,
    has_file, kb_of, lemma_walk_wf, resolve_dir, root_spec, update_spec, upsert_file, walk,
    CatalogError, CatalogView, DirRow, FileRow, FsObject, ROOT_ID,
};
use crate::path::{canonical, components, join_path, kept, split_state};

verus! {

/// Whether `b` begins with the rows of `a`.
spec fn rows_prefix(a: Seq<DirRow>, b: Seq<DirRow>) -> bool {
    a.len() <= b.len() && forall|i: int| 0 <= i < a.len() ==> b[i] == a[i]
}

/// A walk only appends directory rows, and leaves the file table alone.
proof fn lemma_walk_extends(c: CatalogView, cs: Seq<Seq<char>>, n: nat)
    ensures
        rows_prefix(c.dirs, walk(c, cs, n).0.dirs),
        walk(c, cs, n).0.files == c.files,
        walk(c, cs, n).0.next_file_id == c.next_file_id,
    decreases n,
{
    if n > 0 {
        lemma_walk_extends(c, cs, (n - 1) as nat);
    }
}

/// Repeating a walk that succeeded, on a state whose directory table extends
/// what the walk left, finds every directory again and changes nothing.
proof fn lemma_walk_repeat(c: CatalogView, cs: Seq<Seq<char>>, n: nat, d: CatalogView)
    requires
        walk(c, cs, n).1 is Some,
        rows_prefix(walk(c, cs, n).0.dirs, d.dirs),
        d.wf(),
    ensures
        walk(d, cs, n) == (d, walk(c, cs, n).1),
    decreases n,
{
    if n > 0 {
        let (c1, p1) = walk(c, cs, (n - 1) as nat);
        let q = join_path(cs.take(n as int));
        let pid = p1->Some_0;
        let c2 = resolve_dir(c1, cs[n - 1], q, pid).0;
        assert(rows_prefix(c1.dirs, c2.dirs));
        lemma_walk_repeat(c, cs, (n - 1) as nat, d);
        if has_dir(c1.dirs, q) {
            let i = dir_pos(c1.dirs, q);
            assert(d.dirs[i] == c1.dirs[i]);
            assert(has_dir(d.dirs, q));
            assert(dir_pos(d.dirs, q) == i);
        } else {
            let i = c1.dirs.len() as int;
            assert(d.dirs[i] == c2.dirs[i]);
            assert(has_dir(d.dirs, q));
            assert(dir_pos(d.dirs, q) == i);
        }
    }
}

/// Creating an entry keeps the catalog well formed.
proof fn lemma_create_wf(c: CatalogView, p: Seq<char>, t: FsObject)
    requires
        c.wf(),
    ensures
        create_spec(c, p, t).0.wf(),
{
    let cs = components(p);
    if cs.len() > 0 {
        lemma_walk_wf(c, cs, cs.len());
        lemma_walk_wf(c, cs, (cs.len() - 1) as nat);
        if let FsObject::File { size_bytes } = t {
            let (c1, r) = walk(c, cs, (cs.len() - 1) as nat);
            if let Some(pid) = r {
                let q = join_path(cs);
                let c2 = upsert_file(c1, cs.last(), q, kb_of(size_bytes), pid).0;
                if has_file(c1.files, q) {
                    let i = file_pos(c1.files, q);
                    assert(c2.files[i].path == c1.files[i].path);
                } else if c1.next_file_id != i32::MAX {
                    assert forall|a: int, b: int|
                        0 <= a < c2.files.len() && 0 <= b < c2.files.len() && c2.files[a].path
                            == c2.files[b].path implies a == b by {
                        if a < c1.files.len() && b == c1.files.len() {
                            assert(c1.files[a].path == q);
                        }
                        if b < c1.files.len() && a == c1.files.len() {
                            assert(c1.files[b].path == q);
                        }
                    }
                }
            }
        }
    }
}

/// After a successful walk every prefix of the walked components has a
/// directory row, and the id it gives is that of the row of the last prefix.
proof fn lemma_walk_links(c: CatalogView, cs: Seq<Seq<char>>, m: nat)
    requires
        c.wf(),
        walk(c, cs, m).1 is Some,
    ensures
        forall|k: int| 1 <= k <= m ==> has_dir(walk(c, cs, m).0.dirs, join_path(#[trigger] cs.take(k))),
        m >= 1 ==> walk(c, cs, m).1->Some_0 == walk(c, cs, m).0.dirs[dir_pos(
            walk(c, cs, m).0.dirs,
            join_path(cs.take(m as int)),
        )].id,
    decreases m,
{
    if m > 0 {
        lemma_walk_links(c, cs, (m - 1) as nat);
        lemma_walk_wf(c, cs, m);
        let (c0, p0) = walk(c, cs, (m - 1) as nat);
        let c1 = walk(c, cs, m).0;
        let q = join_path(cs.take(m as int));
        assert(rows_prefix(c0.dirs, c1.dirs));
        assert forall|k: int| 1 <= k <= m implies has_dir(c1.dirs, join_path(#[trigger] cs.take(k))) by {
            if k < m {
                let w = choose|i: int| 0 <= i < c0.dirs.len() && c0.dirs[i].path == join_path(cs.take(k));
                assert(c1.dirs[w] == c0.dirs[w]);
            } else if has_dir(c0.dirs, q) {
                let w = dir_pos(c0.dirs, q);
                assert(c1.dirs[w] == c0.dirs[w]);
            } else {
                assert(c1.dirs[c0.dirs.len() as int].path == q);
            }
        }
        if has_dir(c0.dirs, q) {
            let w = dir_pos(c0.dirs, q);
            assert(c1.dirs[w] == c0.dirs[w]);
            assert(dir_pos(c1.dirs, q) == w);
        } else {
            let w = c0.dirs.len() as int;
            assert(c1.dirs[w].path == q);
            assert(dir_pos(c1.dirs, q) == w);
        }
    }
}

/// Creating a new file gives every directory on its path a row, and gives the
/// file row the id of its parent directory's row as parent id (the root id for
/// a file directly under `/`).
pub proof fn law_create_file_links_parent(c: CatalogView, p: Seq<char>, size_bytes: u64)
    requires
        c.wf(),
        components(p).len() > 0,
        !has_file(c.files, canonical(p)),
        create_spec(c, p, FsObject::File { size_bytes }).1,
    ensures
        ({
            let cs = components(p);
            let n = cs.len() as int;
            let c1 = create_spec(c, p, FsObject::File { size_bytes }).0;
            let f = c1.files[file_pos(c1.files, canonical(p))];
            &&& has_file(c1.files, canonical(p))
            &&& f.size == kb_of(size_bytes)
            &&& f.name == cs.last()
            &&& forall|k: int| 1 <= k < n ==> has_dir(c1.dirs, join_path(#[trigger] cs.take(k)))
            &&& n == 1 ==> f.parent == ROOT_ID
            &&& n > 1 ==> f.parent == c1.dirs[dir_pos(c1.dirs, join_path(cs.take(n - 1)))].id
        }),
{
    let cs = components(p);
    let m = (cs.len() - 1) as nat;
    let q = join_path(cs);
    lemma_walk_links(c, cs, m);
    lemma_walk_extends(c, cs, m);
    lemma_create_wf(c, p, FsObject::File { size_bytes });
    let (cw, r) = walk(c, cs, m);
    let c1 = create_spec(c, p, FsObject::File { size_bytes }).0;
    assert(c1.dirs == cw.dirs);
    let w = cw.files.len() as int;
    assert(c1.files[w].path == q);
    assert(has_file(c1.files, q));
    assert(file_pos(c1.files, q) == w);
    assert forall|k: int| 1 <= k < cs.len() implies has_dir(c1.dirs, join_path(#[trigger] cs.take(k))) by {
        assert(k <= m);
    }
}

/// Whether some directory row has id `id`.
pub open spec fn has_dir_id(dirs: Seq<DirRow>, id: i32) -> bool {
    exists|j: int| 0 <= j < dirs.len() && dirs[j].id == id
}

/// Every row's parent id is the id of some directory row.
pub open spec fn parents_exist(c: CatalogView) -> bool {
    &&& forall|i: int| 0 <= i < c.dirs.len() ==> has_dir_id(c.dirs, #[trigger] c.dirs[i].parent)
    &&& forall|i: int| 0 <= i < c.files.len() ==> has_dir_id(c.dirs, #[trigger] c.files[i].parent)
}

/// Appending directory rows keeps every id that was present.
proof fn lemma_ids_kept(a: Seq<DirRow>, b: Seq<DirRow>, id: i32)
    requires
        rows_prefix(a, b),
        has_dir_id(a, id),
    ensures
        has_dir_id(b, id),
{
    let j = choose|j: int| 0 <= j < a.len() && a[j].id == id;
    assert(b[j] == a[j]);
}

/// A walk keeps parent ids pointing at directory rows, keeps the root row, and
/// gives the id of a directory row.
proof fn lemma_walk_parents(c: CatalogView, cs: Seq<Seq<char>>, n: nat)
    requires
        parents_exist(c),
        has_dir_id(c.dirs, ROOT_ID),
    ensures
        parents_exist(walk(c, cs, n).0),
        has_dir_id(walk(c, cs, n).0.dirs, ROOT_ID),
        walk(c, cs, n).1 matches Some(pid) ==> has_dir_id(walk(c, cs, n).0.dirs, pid),
    decreases n,
{
    if n > 0 {
        lemma_walk_parents(c, cs, (n - 1) as nat);
        let (c0, p0) = walk(c, cs, (n - 1) as nat);
        if let Some(pid0) = p0 {
            let q = join_path(cs.take(n as int));
            let (c1, r) = resolve_dir(c0, cs[n - 1], q, pid0);
            if has_dir(c0.dirs, q) {
                let w = dir_pos(c0.dirs, q);
                assert(c1.dirs[w].id == r->Some_0);
            } else if c0.next_dir_id != i32::MAX {
                let last = c0.dirs.len() as int;
                assert(rows_prefix(c0.dirs, c1.dirs));
                lemma_ids_kept(c0.dirs, c1.dirs, ROOT_ID);
                lemma_ids_kept(c0.dirs, c1.dirs, pid0);
                assert(c1.dirs[last].id == r->Some_0);
                assert forall|i: int| 0 <= i < c1.dirs.len() implies has_dir_id(
                    c1.dirs,
                    #[trigger] c1.dirs[i].parent,
                ) by {
                    if i < last {
                        lemma_ids_kept(c0.dirs, c1.dirs, c0.dirs[i].parent);
                    }
                }
                assert forall|i: int| 0 <= i < c1.files.len() implies has_dir_id(
                    c1.dirs,
                    #[trigger] c1.files[i].parent,
                ) by {
                    lemma_ids_kept(c0.dirs, c1.dirs, c0.files[i].parent);
                }
            }
        }
    }
}

/// Where a directory row with the root id exists and every parent id names a
/// directory row, creating an entry keeps both so: each new row's parent is a
/// directory row found or made on the way down from the root.
pub proof fn law_create_keeps_parents(c: CatalogView, p: Seq<char>, target: FsObject)
    requires
        c.wf(),
        parents_exist(c),
        has_dir_id(c.dirs, ROOT_ID),
    ensures
        parents_exist(create_spec(c, p, target).0),
        has_dir_id(create_spec(c, p, target).0.dirs, ROOT_ID),
{
    let cs = components(p);
    if cs.len() > 0 {
        lemma_walk_parents(c, cs, cs.len());
        lemma_walk_parents(c, cs, (cs.len() - 1) as nat);
        if let FsObject::File { size_bytes } = target {
            let (cw, r) = walk(c, cs, (cs.len() - 1) as nat);
            if let Some(pid) = r {
                let q = join_path(cs);
                let c1 = upsert_file(cw, cs.last(), q, kb_of(size_bytes), pid).0;
                assert(c1.dirs == cw.dirs);
                assert forall|i: int| 0 <= i < c1.files.len() implies has_dir_id(
                    c1.dirs,
                    #[trigger] c1.files[i].parent,
                ) by {
                    if i < cw.files.len() {
                        assert(c1.files[i].parent == cw.files[i].parent);
                    }
                }
            }
        }
    }
}

/// Every component of a path is kept: neither empty nor `.`.
proof fn lemma_components_kept(s: Seq<char>)
    ensures
        forall|i: int| 0 <= i < components(s).len() ==> kept(#[trigger] components(s)[i]),
{
    lemma_split_kept(s);
}

proof fn lemma_split_kept(s: Seq<char>)
    ensures
        forall|i: int| 0 <= i < split_state(s).0.len() ==> kept(#[trigger] split_state(s).0[i]),
    decreases s.len(),
{
    if s.len() > 0 {
        lemma_split_kept(s.drop_last());
        let (done, cur) = split_state(s.drop_last());
        if s.last() == '/' && kept(cur) {
            assert forall|i: int| 0 <= i < done.push(cur).len() implies kept(#[trigger] done.push(cur)[i]) by {
                if i < done.len() {
                    assert(done.push(cur)[i] == done[i]);
                }
            }
        }
    }
}

/// With non-empty components, a longer prefix joins to a longer path.
proof fn lemma_join_len_grows(cs: Seq<Seq<char>>, j: int, k: int)
    requires
        0 <= j < k <= cs.len(),
        forall|i: int| 0 <= i < cs.len() ==> (#[trigger] cs[i]).len() > 0,
    ensures
        join_path(cs.take(j)).len() < join_path(cs.take(k)).len(),
    decreases k,
{
    let t = cs.take(k);
    assert(t.drop_last() =~= cs.take(k - 1));
    assert(t.last() == cs[k - 1]);
    if j < k - 1 {
        lemma_join_len_grows(cs, j, k - 1);
    }
}

/// The directory row that a walk from a catalog holding the root row alone
/// makes for the `k`-th prefix of `cs`, with ids from `first` on.
pub open spec fn fresh_dir_row(cs: Seq<Seq<char>>, first: i32, k: int) -> DirRow {
    DirRow {
        id: (first + k - 1) as i32,
        name: cs[k - 1],
        path: join_path(cs.take(k)),
        parent: if k == 1 { ROOT_ID } else { (first + k - 2) as i32 },
    }
}

/// Whether the catalog holds the root row alone and no file.
pub open spec fn bootstrapped(c: CatalogView) -> bool {
    &&& c.dirs.len() == 1
    &&& c.dirs[0].path == seq!['/']
    &&& c.dirs[0].id == ROOT_ID
    &&& c.files.len() == 0
}

proof fn lemma_fresh_walk(c: CatalogView, cs: Seq<Seq<char>>, m: nat)
    requires
        c.wf(),
        bootstrapped(c),
        m <= cs.len(),
        c.next_dir_id + m < i32::MAX,
        forall|i: int| 0 <= i < cs.len() ==> (#[trigger] cs[i]).len() > 0,
    ensures
        ({
            let (c1, r) = walk(c, cs, m);
            &&& r == Some(if m == 0 { ROOT_ID } else { (c.next_dir_id + m - 1) as i32 })
            &&& c1.dirs.len() == 1 + m
            &&& c1.dirs[0] == c.dirs[0]
            &&& forall|k: int| 1 <= k <= m ==> c1.dirs[k] == fresh_dir_row(cs, c.next_dir_id, k)
            &&& c1.files == c.files
            &&& c1.next_dir_id == c.next_dir_id + m
            &&& c1.next_file_id == c.next_file_id
        }),
    decreases m,
{
    if m > 0 {
        lemma_fresh_walk(c, cs, (m - 1) as nat);
        let (c0, p0) = walk(c, cs, (m - 1) as nat);
        let q = join_path(cs.take(m as int));
        assert(cs.take(m as int).len() >= 1);
        if m == 1 {
            assert(cs.take(1)[0] == cs[0]);
        }
        lemma_join_len_grows(cs, 0, m as int);
        assert forall|i: int| 0 <= i < c0.dirs.len() implies c0.dirs[i].path != q by {
            if i >= 1 {
                lemma_join_len_grows(cs, i, m as int);
            }
        }
        assert(!has_dir(c0.dirs, q));
    }
}

/// Creating a file on a catalog that holds the root row alone succeeds while
/// ids last, and builds the chain down from the root: one new directory row per
/// ancestor, each parented on the one above it (the first on the root), and a
/// single file row parented on the last of them.
pub proof fn law_create_on_fresh_catalog_chains(c: CatalogView, p: Seq<char>, size_bytes: u64)
    requires
        c.wf(),
        bootstrapped(c),
        components(p).len() > 0,
        c.next_dir_id + components(p).len() < i32::MAX,
        c.next_file_id < i32::MAX,
    ensures
        ({
            let cs = components(p);
            let n = cs.len() as int;
            let (c1, ok) = create_spec(c, p, FsObject::File { size_bytes });
            &&& ok
            &&& c1.dirs.len() == n
            &&& c1.dirs[0] == c.dirs[0]
            &&& forall|k: int| 1 <= k < n ==> c1.dirs[k] == fresh_dir_row(cs, c.next_dir_id, k)
            &&& c1.files == seq![
                FileRow {
                    id: c.next_file_id,
                    name: cs.last(),
                    path: canonical(p),
                    size: kb_of(size_bytes),
                    parent: if n == 1 { ROOT_ID } else { (c.next_dir_id + n - 2) as i32 },
                },
            ]
        }),
{
    let cs = components(p);
    lemma_components_kept(p);
    assert forall|i: int| 0 <= i < cs.len() implies (#[trigger] cs[i]).len() > 0 by {
        assert(kept(cs[i]));
    }
    lemma_fresh_walk(c, cs, (cs.len() - 1) as nat);
    let c1 = create_spec(c, p, FsObject::File { size_bytes }).0;
    assert(c1.files =~= seq![
        FileRow {
            id: c.next_file_id,
            name: cs.last(),
            path: canonical(p),
            size: kb_of(size_bytes),
            parent: if cs.len() == 1 { ROOT_ID } else { (c.next_dir_id + cs.len() - 2) as i32 },
        },
    ]);
}

/// Creating a file a second time, once its first creation succeeded, only
/// sets the size of its row: no row is added, and the directory table is
/// unchanged.
pub proof fn law_recreate_file_updates_size(c: CatalogView, p: Seq<char>, first: u64, second: u64)
    requires
        c.wf(),
        components(p).len() > 0,
        create_spec(c, p, FsObject::File { size_bytes: first }).1,
    ensures
        ({
            let c1 = create_spec(c, p, FsObject::File { size_bytes: first }).0;
            let (c2, ok) = create_spec(c1, p, FsObject::File { size_bytes: second });
            let i = file_pos(c1.files, canonical(p));
            &&& ok
            &&& has_file(c1.files, canonical(p))
            &&& c2.dirs == c1.dirs
            &&& c2.files == c1.files.update(i, FileRow { size: kb_of(second), ..c1.files[i] })
        }),
{
    let cs = components(p);
    let n = (cs.len() - 1) as nat;
    let (cw, r) = walk(c, cs, n);
    let pid = r->Some_0;
    let q = join_path(cs);
    let c1 = create_spec(c, p, FsObject::File { size_bytes: first }).0;
    lemma_create_wf(c, p, FsObject::File { size_bytes: first });
    assert(c1 == upsert_file(cw, cs.last(), q, kb_of(first), pid).0);
    assert(c1.dirs == cw.dirs);
    lemma_walk_repeat(c, cs, n, c1);
    if has_file(cw.files, q) {
        let i = file_pos(cw.files, q);
        assert(c1.files[i].path == q);
    } else {
        let i = cw.files.len() as int;
        assert(c1.files[i].path == q);
    }
    assert(has_file(c1.files, q));
}

/// Deleting a directory removes its row alone: the file rows stay as they
/// were, the other directory rows stay, and no directory row keeps its id, so
/// rows that had it as parent are left orphaned.
pub proof fn law_delete_dir_keeps_children(c: CatalogView, p: Seq<char>)
    requires
        c.wf(),
        has_dir(c.dirs, canonical(p)),
    ensures
        ({
            let k = dir_pos(c.dirs, canonical(p));
            let id = c.dirs[k].id;
            let c1 = delete_spec(c, p);
            &&& c1.files == c.files
            &&& !has_dir(c1.dirs, canonical(p))
            &&& forall|i: int| 0 <= i < c1.dirs.len() ==> c1.dirs[i].id != id
            &&& forall|i: int| 0 <= i < c.dirs.len() && i != k ==> c1.dirs.contains(c.dirs[i])
        }),
{
    let q = canonical(p);
    let k = dir_pos(c.dirs, q);
    let c1 = delete_spec(c, p);
    assert(c1.dirs == c.dirs.remove(k));
    assert forall|i: int| 0 <= i < c1.dirs.len() implies c1.dirs[i].id != c.dirs[k].id && c1.dirs[i].path
        != q by {
        let i0 = if i < k { i } else { i + 1 };
        assert(c1.dirs[i] == c.dirs[i0]);
    }
    assert forall|i: int| 0 <= i < c.dirs.len() && i != k implies c1.dirs.contains(c.dirs[i]) by {
        let j = if i < k { i } else { i - 1 };
        assert(c1.dirs[j] == c.dirs[i]);
    }
}

/// Renaming a file sets the path and the name of its row from the new path;
/// its id, size and parent id stay as they were, whatever directory the new
/// path lies in.
pub proof fn law_rename_keeps_parent(c: CatalogView, old_p: Seq<char>, new_p: Seq<char>)
    requires
        c.wf(),
        !has_dir(c.dirs, canonical(old_p)),
        has_file(c.files, canonical(old_p)),
        components(new_p).len() > 0,
        !has_file(c.files, canonical(new_p)),
    ensures
        ({
            let i = file_pos(c.files, canonical(old_p));
            let (c1, r) = update_spec(c, old_p, new_p);
            &&& r is Ok
            &&& c1.dirs == c.dirs
            &&& c1.files.len() == c.files.len()
            &&& c1.files[i] == FileRow {
                path: canonical(new_p),
                name: components(new_p).last(),
                ..c.files[i]
            }
            &&& c1.files[i].parent == c.files[i].parent
            &&& forall|j: int| 0 <= j < c.files.len() && j != i ==> c1.files[j] == c.files[j]
        }),
{
}

/// Renaming a directory sets the path and the name of its row from the new
/// path; its id and parent id stay as they were.
pub proof fn law_rename_dir_keeps_parent(c: CatalogView, old_p: Seq<char>, new_p: Seq<char>)
    requires
        c.wf(),
        has_dir(c.dirs, canonical(old_p)),
        components(new_p).len() > 0,
        !has_dir(c.dirs, canonical(new_p)),
    ensures
        ({
            let i = dir_pos(c.dirs, canonical(old_p));
            let (c1, r) = update_spec(c, old_p, new_p);
            &&& r is Ok
            &&& c1.files == c.files
            &&& c1.dirs.len() == c.dirs.len()
            &&& c1.dirs[i] == DirRow { path: canonical(new_p), name: components(new_p).last(), ..c.dirs[i] }
            &&& c1.dirs[i].parent == c.dirs[i].parent
            &&& forall|j: int| 0 <= j < c.dirs.len() && j != i ==> c1.dirs[j] == c.dirs[j]
        }),
{
}

/// Listing `/` on a catalog that holds the root row alone gives no files and
/// no directories: the root row is not listed as its own child.
pub proof fn law_fresh_root_listing_empty(c: CatalogView)
    requires
        c.wf(),
        c.dirs.len() == 0,
        c.files.len() == 0,
        c.next_dir_id < i32::MAX,
    ensures
        root_spec(c).1 is Ok,
        contents_spec(root_spec(c).0, seq!['/']) == (Seq::<FileRow>::empty(), Seq::<DirRow>::empty()),
{
    let c1 = root_spec(c).0;
    assert(seq!['/'].drop_last() =~= Seq::<char>::empty());
    assert(split_state(Seq::<char>::empty()) == (Seq::<Seq<char>>::empty(), Seq::<char>::empty()));
    assert(split_state(seq!['/']) == (Seq::<Seq<char>>::empty(), Seq::<char>::empty()));
    assert(components(seq!['/']) =~= Seq::<Seq<char>>::empty());
    assert(c1.dirs.len() == 1 && c1.dirs[0].path == seq!['/']);
    assert(has_dir(c1.dirs, seq!['/']));
    assert(dir_pos(c1.dirs, seq!['/']) == 0);
    assert(c1.dirs.drop_last() =~= Seq::<DirRow>::empty());
    assert(c1.files =~= Seq::<FileRow>::empty());
    let id = c1.dirs[0].id;
    assert(child_dirs(c1.dirs.drop_last(), id) == Seq::<DirRow>::empty());
    assert(child_dirs(c1.dirs, id) == Seq::<DirRow>::empty());
    assert(child_files(c1.files, id) == Seq::<FileRow>::empty());
    assert(join_path(components(seq!['/'])) == seq!['/']);
}

/// Deleting or renaming a path that no row has changes nothing and succeeds.
pub proof fn law_missing_path_is_noop(c: CatalogView, p: Seq<char>, new_p: Seq<char>)
    requires
        !has_dir(c.dirs, canonical(p)),
        !has_file(c.files, canonical(p)),
    ensures
        delete_spec(c, p) == c,
        update_spec(c, p, new_p) == (c, Ok::<(), CatalogError>(())),
{
}

} // verus!
