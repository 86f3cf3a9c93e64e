//! The persistent tier: a durable, namespace-partitioned key-value
//! store, modelled as a map of named partitions ("trees") plus a root
//! partition, each a map from key bytes to value bytes.
//!
//! The store engine is `sled`; the small trusted functions here are the
//! only place its calls are made, and their contracts say what each
//! call does to the two map views.  A failed write may or may not have
//! been applied, but never touches any other entry.

use vstd::prelude::*;

use crate::errors::StorageError;

verus! {

#[verifier::external_type_specification]
#[verifier::external_body]
pub struct ExDb(sled::Db);

/// The named partitions of the store: tree name to (key -> value).
pub uninterp spec fn db_trees(db: sled::Db) -> Map<Seq<u8>, Map<Seq<u8>, Seq<u8>>>;

/// The root partition of the store.
pub uninterp spec fn db_root(db: sled::Db) -> Map<Seq<u8>, Seq<u8>>;

/// The partition named `name`, empty when never written.
pub open spec fn subtree(
    trees: Map<Seq<u8>, Map<Seq<u8>, Seq<u8>>>,
    name: Seq<u8>,
) -> Map<Seq<u8>, Seq<u8>> {
    if trees.dom().contains(name) {
        trees[name]
    } else {
        Map::<Seq<u8>, Seq<u8>>::empty()
    }
}

/// The value stored under `key` in the partition named `name`.
pub open spec fn named_lookup(
    trees: Map<Seq<u8>, Map<Seq<u8>, Seq<u8>>>,
    name: Seq<u8>,
    key: Seq<u8>,
) -> Option<Seq<u8>> {
    if subtree(trees, name).dom().contains(key) {
        Some(subtree(trees, name)[key])
    } else {
        None
    }
}

/// The partitions after `value` is stored under `key` in the partition
/// named `name`.
pub open spec fn named_insert(
    trees: Map<Seq<u8>, Map<Seq<u8>, Seq<u8>>>,
    name: Seq<u8>,
    key: Seq<u8>,
    value: Seq<u8>,
) -> Map<Seq<u8>, Map<Seq<u8>, Seq<u8>>> {
    trees.insert(name, subtree(trees, name).insert(key, value))
}

/// The partitions after `key` is deleted from the partition named
/// `name`.
pub open spec fn named_remove(
    trees: Map<Seq<u8>, Map<Seq<u8>, Seq<u8>>>,
    name: Seq<u8>,
    key: Seq<u8>,
) -> Map<Seq<u8>, Map<Seq<u8>, Seq<u8>>> {
    trees.insert(name, subtree(trees, name).remove(key))
}

/// The name the store engine reserves for its own root partition; no
/// named partition may use it, or the two views would alias.
pub open spec fn default_tree_name() -> Seq<u8> {
    seq![95u8, 95u8, 115u8, 108u8, 101u8, 100u8, 95u8, 95u8, 100u8, 101u8, 102u8, 97u8, 117u8, 108u8, 116u8]
}

/// The reserved partition holding sequence counters, named `SEQUENCE`.
pub open spec fn sequence_tree_name() -> Seq<u8> {
    seq![83u8, 69u8, 81u8, 85u8, 69u8, 78u8, 67u8, 69u8]
}

/// The byte spelling of the reserved `SEQUENCE` partition name.
pub fn sequence_tree_bytes() -> (r: Vec<u8>)
    ensures
        r@ == sequence_tree_name(),
{
    let mut r: Vec<u8> = Vec::new();
    r.push(83);
    r.push(69);
    r.push(81);
    r.push(85);
    r.push(69);
    r.push(78);
    r.push(67);
    r.push(69);
    assert(r@ =~= sequence_tree_name());
    r
}

/// The byte spelling of the store engine's reserved root-partition
/// name.
pub fn default_tree_bytes() -> (r: Vec<u8>)
    ensures
        r@ == default_tree_name(),
{
    let mut r: Vec<u8> = Vec::new();
    r.push(95);
    r.push(95);
    r.push(115);
    r.push(108);
    r.push(101);
    r.push(100);
    r.push(95);
    r.push(95);
    r.push(100);
    r.push(101);
    r.push(102);
    r.push(97);
    r.push(117);
    r.push(108);
    r.push(116);
    assert(r@ =~= default_tree_name());
    r
}

/// Relies on sled::Config::open: opens (creating if needed) the store
/// at `path`; a temporary store is deleted when its last handle drops.
/// What the opened store holds is whatever the path held.
#[verifier::external_body]
pub fn db_open(path: &str, temporary: bool) -> (r: Result<sled::Db, StorageError>) {
    sled::Config::new().path(path).temporary(temporary).open().map_err(|_| StorageError::Io)
}

/// Relies on sled::Db::open_tree and sled::Tree::get: returns the value
/// stored under `key` in the partition named `tree`.  The engine's
/// reserved root-partition name is excluded: opening it aliases the
/// root partition, which `db_root` models.
#[verifier::external_body]
pub fn tree_get(db: &sled::Db, tree: &[u8], key: &[u8]) -> (r: Result<Option<Vec<u8>>, StorageError>)
    requires
        tree@ != default_tree_name(),
    ensures
        match r {
            Ok(Some(v)) => named_lookup(db_trees(*db), tree@, key@) == Some(v@),
            Ok(None) => named_lookup(db_trees(*db), tree@, key@) is None,
            Err(e) => e == StorageError::Io,
        },
{
    match db.open_tree(tree) {
        Ok(t) => match t.get(key) {
            Ok(v) => Ok(v.map(|iv| iv.to_vec())),
            Err(_) => Err(StorageError::Io),
        },
        Err(_) => Err(StorageError::Io),
    }
}

/// Relies on sled::Db::open_tree and sled::Tree::contains_key.  The
/// engine's reserved root-partition name is excluded, as in
/// `tree_get`.
#[verifier::external_body]
pub fn tree_contains(db: &sled::Db, tree: &[u8], key: &[u8]) -> (r: Result<bool, StorageError>)
    requires
        tree@ != default_tree_name(),
    ensures
        match r {
            Ok(b) => b == (named_lookup(db_trees(*db), tree@, key@) is Some),
            Err(e) => e == StorageError::Io,
        },
{
    match db.open_tree(tree) {
        Ok(t) => match t.contains_key(key) {
            Ok(b) => Ok(b),
            Err(_) => Err(StorageError::Io),
        },
        Err(_) => Err(StorageError::Io),
    }
}

/// Relies on sled::Db::open_tree and sled::Tree::insert: stores `value`
/// under `key` in the partition named `tree`.  On failure the one
/// update may or may not have been applied; no other entry and no other
/// partition is touched either way.
#[verifier::external_body]
pub fn tree_insert(db: &mut sled::Db, tree: &[u8], key: &[u8], value: &[u8]) -> (r: Result<
    (),
    StorageError,
>)
    requires
        tree@ != default_tree_name(),
    ensures
        db_root(*final(db)) == db_root(*old(db)),
        match r {
            Ok(()) => db_trees(*final(db)) == named_insert(db_trees(*old(db)), tree@, key@, value@),
            Err(e) => e == StorageError::Io && (db_trees(*final(db)) == db_trees(*old(db))
                || db_trees(*final(db)) == named_insert(db_trees(*old(db)), tree@, key@, value@)),
        },
{
    match db.open_tree(tree) {
        Ok(t) => match t.insert(key, value) {
            Ok(_) => Ok(()),
            Err(_) => Err(StorageError::Io),
        },
        Err(_) => Err(StorageError::Io),
    }
}

/// Relies on sled::Db::open_tree and sled::Tree::remove: deletes `key`
/// from the partition named `tree`; deleting an absent key is a no-op.
/// On failure the one deletion may or may not have been applied; no
/// other entry and no other partition is touched either way.
#[verifier::external_body]
pub fn tree_remove(db: &mut sled::Db, tree: &[u8], key: &[u8]) -> (r: Result<(), StorageError>)
    requires
        tree@ != default_tree_name(),
    ensures
        db_root(*final(db)) == db_root(*old(db)),
        match r {
            Ok(()) => db_trees(*final(db)) == named_remove(db_trees(*old(db)), tree@, key@),
            Err(e) => e == StorageError::Io && (db_trees(*final(db)) == db_trees(*old(db))
                || db_trees(*final(db)) == named_remove(db_trees(*old(db)), tree@, key@)),
        },
{
    match db.open_tree(tree) {
        Ok(t) => match t.remove(key) {
            Ok(_) => Ok(()),
            Err(_) => Err(StorageError::Io),
        },
        Err(_) => Err(StorageError::Io),
    }
}

/// Relies on sled::Tree::remove on the store's root partition (reached
/// through sled::Db's Deref).
#[verifier::external_body]
pub fn root_remove(db: &mut sled::Db, key: &[u8]) -> (r: Result<(), StorageError>)
    ensures
        db_trees(*final(db)) == db_trees(*old(db)),
        match r {
            Ok(()) => db_root(*final(db)) == db_root(*old(db)).remove(key@),
            Err(e) => e == StorageError::Io && (db_root(*final(db)) == db_root(*old(db))
                || db_root(*final(db)) == db_root(*old(db)).remove(key@)),
        },
{
    match db.remove(key) {
        Ok(_) => Ok(()),
        Err(_) => Err(StorageError::Io),
    }
}

/// Relies on sled::Db::open_tree and sled::Tree::iter: every (key,
/// value) pair of the partition named `tree`, each key exactly once.
/// The engine's reserved root-partition name is excluded, as in
/// `tree_get`.
#[verifier::external_body]
pub fn tree_entries(db: &sled::Db, tree: &[u8]) -> (r: Result<Vec<(Vec<u8>, Vec<u8>)>, StorageError>)
    requires
        tree@ != default_tree_name(),
    ensures
        match r {
            Ok(es) => {
                &&& forall|i: int|
                    0 <= i < es@.len() ==> #[trigger] subtree(db_trees(*db), tree@).contains_pair(
                        es@[i].0@,
                        es@[i].1@,
                    )
                &&& forall|i: int, j: int|
                    0 <= i < j < es@.len() ==> #[trigger] es@[i].0@ != #[trigger] es@[j].0@
                &&& forall|k: Seq<u8>|
                    #[trigger] subtree(db_trees(*db), tree@).dom().contains(k) ==> exists|i: int|
                        0 <= i < es@.len() && #[trigger] es@[i].0@ == k
            },
            Err(e) => e == StorageError::Io,
        },
{
    let t = match db.open_tree(tree) {
        Ok(t) => t,
        Err(_) => return Err(StorageError::Io),
    };
    let mut out: Vec<(Vec<u8>, Vec<u8>)> = Vec::new();
    for item in t.iter() {
        match item {
            Ok((k, v)) => out.push((k.to_vec(), v.to_vec())),
            Err(_) => return Err(StorageError::Io),
        }
    }
    Ok(out)
}

/// Relies on sled::Tree::iter on the store's root partition (reached
/// through sled::Db's Deref): every (key, value) pair, each key exactly
/// once.
#[verifier::external_body]
pub fn root_entries(db: &sled::Db) -> (r: Result<Vec<(Vec<u8>, Vec<u8>)>, StorageError>)
    ensures
        match r {
            Ok(es) => {
                &&& forall|i: int|
                    0 <= i < es@.len() ==> #[trigger] db_root(*db).contains_pair(es@[i].0@, es@[i].1@)
                &&& forall|i: int, j: int|
                    0 <= i < j < es@.len() ==> #[trigger] es@[i].0@ != #[trigger] es@[j].0@
                &&& forall|k: Seq<u8>|
                    #[trigger] db_root(*db).dom().contains(k) ==> exists|i: int|
                        0 <= i < es@.len() && #[trigger] es@[i].0@ == k
            },
            Err(e) => e == StorageError::Io,
        },
{
    let mut out: Vec<(Vec<u8>, Vec<u8>)> = Vec::new();
    for item in db.iter() {
        match item {
            Ok((k, v)) => out.push((k.to_vec(), v.to_vec())),
            Err(_) => return Err(StorageError::Io),
        }
    }
    Ok(out)
}

/// Relies on sled::Db::flush: forces pending writes down to durable
/// storage; the store's contents are unchanged.
#[verifier::external_body]
pub fn db_flush(db: &sled::Db) -> (r: Result<(), StorageError>)
    ensures
        r matches Err(e) ==> e == StorageError::Io,
{
    match db.flush() {
        Ok(_) => Ok(()),
        Err(_) => Err(StorageError::Io),
    }
}

} // verus!
