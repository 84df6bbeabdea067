use vstd::prelude::*;

use crate::catalog::{
    create_entry, create_spec, delete_entry, delete_spec, update_entry, update_spec, Catalog,
    CatalogError, CatalogView, FsObject,
};
use crate::path::views_of;

verus! {

/// The element of a batch that failed, and why.
#[derive(Debug, Clone, Copy, PartialEq, Eq, Structural)]
pub struct BatchError {
    pub index: usize,
    pub error: CatalogError,
}

/// The paths of a batch of creations as character sequences.
pub open spec fn item_views(v: Seq<(String, FsObject)>) -> Seq<(Seq<char>, FsObject)> {
    v.map_values(|x: (String, FsObject)| (x.0@, x.1))
}

/// Creating the first `n` items in order, stopping at the first failure: the
/// state after and the position of the failed item, if any.
pub open spec fn create_all(c: CatalogView, items: Seq<(Seq<char>, FsObject)>, n: nat) -> (
    CatalogView,
    Option<int>,
)
    decreases n,
{
    if n == 0 {
        (c, None)
    } else {
        let (c1, f) = create_all(c, items, (n - 1) as nat);
        if f is Some {
            (c1, f)
        } else {
            let (c2, ok) = create_spec(c1, items[n - 1].0, items[n - 1].1);
            (c2, if ok { None } else { Some(n - 1) })
        }
    }
}

/// Deleting the first `n` paths in order.
pub open spec fn delete_all(c: CatalogView, paths: Seq<Seq<char>>, n: nat) -> CatalogView
    decreases n,
{
    if n == 0 {
        c
    } else {
        delete_spec(delete_all(c, paths, (n - 1) as nat), paths[n - 1])
    }
}

/// Renaming the first `n` pairs in order, stopping at the first failure: the
/// state after and the failed position with its error, if any.
pub open spec fn update_all(c: CatalogView, olds: Seq<Seq<char>>, news: Seq<Seq<char>>, n: nat) -> (
    CatalogView,
    Option<(int, CatalogError)>,
)
    decreases n,
{
    if n == 0 {
        (c, None)
    } else {
        let (c1, f) = update_all(c, olds, news, (n - 1) as nat);
        if f is Some {
            (c1, f)
        } else {
            let (c2, r) = update_spec(c1, olds[n - 1], news[n - 1]);
            match r {
                Ok(_) => (c2, None),
                Err(e) => (c2, Some((n - 1, e))),
            }
        }
    }
}

/// The number of pairs that two sequences zip into.
pub open spec fn pair_count(a: nat, b: nat) -> nat {
    if a <= b { a } else { b }
}

/// Once a batch of creations has failed, later items change nothing.
proof fn lemma_create_all_stuck(c: CatalogView, items: Seq<(Seq<char>, FsObject)>, k: nat, m: nat)
    requires
        k <= m,
        create_all(c, items, k).1 is Some,
    ensures
        create_all(c, items, m) == create_all(c, items, k),
    decreases m,
{
    if m > k {
        lemma_create_all_stuck(c, items, k, (m - 1) as nat);
    }
}

/// Once a batch of renames has failed, later pairs change nothing.
proof fn lemma_update_all_stuck(c: CatalogView, olds: Seq<Seq<char>>, news: Seq<Seq<char>>, k: nat, m: nat)
    requires
        k <= m,
        update_all(c, olds, news, k).1 is Some,
    ensures
        update_all(c, olds, news, m) == update_all(c, olds, news, k),
    decreases m,
{
    if m > k {
        lemma_update_all_stuck(c, olds, news, k, (m - 1) as nat);
    }
}

/// Creates each entry in order; stops at the first failure, keeping what the
/// earlier ones did.
pub fn create_entries(catalog: &mut Catalog, items: &Vec<(String, FsObject)>) -> (r: Result<(), BatchError>)
    requires
        old(catalog)@.wf(),
    ensures
        final(catalog)@.wf(),
        final(catalog)@ == create_all(old(catalog)@, item_views(items@), items@.len()).0,
        r is Err <==> create_all(old(catalog)@, item_views(items@), items@.len()).1 is Some,
        r matches Err(e) ==> e.index == create_all(old(catalog)@, item_views(items@), items@.len()).1->Some_0
            && e.error == CatalogError::IdSpaceExhausted,
{
    let ghost c0 = catalog@;
    let ghost g = item_views(items@);
    let mut i: usize = 0;
    while i < items.len()
        invariant
            catalog@.wf(),
            c0 == old(catalog)@,
            g == item_views(items@),
            i <= items@.len(),
            create_all(c0, g, i as nat) == (catalog@, None::<int>),
        decreases items@.len() - i,
    {
        let r = create_entry(catalog, items[i].0.as_str(), items[i].1);
        assert(g[i as int] == (items@[i as int].0@, items@[i as int].1));
        if let Err(e) = r {
            proof {
                lemma_create_all_stuck(c0, g, (i + 1) as nat, items@.len());
            }
            return Err(BatchError { index: i, error: e });
        }
        i = i + 1;
    }
    Ok(())
}

/// Deletes each path in order.
pub fn delete_entries(catalog: &mut Catalog, paths: &Vec<String>) -> (r: Result<(), BatchError>)
    requires
        old(catalog)@.wf(),
    ensures
        final(catalog)@.wf(),
        final(catalog)@ == delete_all(old(catalog)@, views_of(paths@), paths@.len()),
        r is Ok,
{
    let ghost c0 = catalog@;
    let mut i: usize = 0;
    while i < paths.len()
        invariant
            catalog@.wf(),
            c0 == old(catalog)@,
            i <= paths@.len(),
            catalog@ == delete_all(c0, views_of(paths@), i as nat),
        decreases paths@.len() - i,
    {
        let _ = delete_entry(catalog, paths[i].as_str());
        i = i + 1;
    }
    Ok(())
}

/// Renames `old_paths[k]` to `new_paths[k]` in order, over the shorter of the
/// two; stops at the first failure, keeping what the earlier ones did.
pub fn update_entries(catalog: &mut Catalog, old_paths: &Vec<String>, new_paths: &Vec<String>) -> (r: Result<(), BatchError>)
    requires
        old(catalog)@.wf(),
    ensures
        final(catalog)@.wf(),
        final(catalog)@ == update_all(old(catalog)@, views_of(old_paths@), views_of(new_paths@), pair_count(old_paths@.len(), new_paths@.len())).0,
        r is Err <==> update_all(old(catalog)@, views_of(old_paths@), views_of(new_paths@), pair_count(old_paths@.len(), new_paths@.len())).1 is Some,
        r matches Err(e) ==> update_all(old(catalog)@, views_of(old_paths@), views_of(new_paths@), pair_count(old_paths@.len(), new_paths@.len())).1
            == Some((e.index as int, e.error)),
{
    let ghost c0 = catalog@;
    let n = if old_paths.len() <= new_paths.len() { old_paths.len() } else { new_paths.len() };
    let ghost os = views_of(old_paths@);
    let ghost ns = views_of(new_paths@);
    let mut i: usize = 0;
    while i < n
        invariant
            catalog@.wf(),
            c0 == old(catalog)@,
            os == views_of(old_paths@),
            ns == views_of(new_paths@),
            n == pair_count(old_paths@.len(), new_paths@.len()),
            i <= n,
            update_all(c0, os, ns, i as nat) == (catalog@, None::<(int, CatalogError)>),
        decreases n - i,
    {
        let r = update_entry(catalog, old_paths[i].as_str(), new_paths[i].as_str());
        assert(os[i as int] == old_paths@[i as int]@ && ns[i as int] == new_paths@[i as int]@);
        if let Err(e) = r {
            assert(update_all(c0, os, ns, (i + 1) as nat) == (catalog@, Some((i as int, e))));
            proof {
                lemma_update_all_stuck(c0, os, ns, (i + 1) as nat, n as nat);
            }
            assert(update_all(c0, os, ns, n as nat) == (catalog@, Some((i as int, e))));
            return Err(BatchError { index: i, error: e });
        }
        i = i + 1;
    }
    Ok(())
}

} // verus!
