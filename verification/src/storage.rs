//! The storage coordinator.
//!
//! One handle composing the two tiers: the persistent store is the
//! sole source of truth, the cache in front of it is strictly a
//! performance accelerator.  Writes go through the store first and are
//! then mirrored into the cache; reads check the cache and fall back
//! to the store, populating the cache on a store hit; evictions the
//! cache performs on its own are reconciled by the cause-aware policy
//! in [`crate::policy`].
//!
//! The coherence invariant [`Storage::wf`] says that every entry the
//! cache may still hold matches the persistent store exactly.

use vstd::prelude::*;

use crate::cache::{Cache, EvictionEvent, cache_contents, cache_new, CACHE_TIME_BOUND_SECS};
use crate::codec::{be32, from_be4, to_be4};
use crate::errors::StorageError;
use crate::keys::{
    composite_key, composite_key_spec, is_prefixed, lemma_composite_key_reconstruct,
    lemma_composite_key_roundtrip, parse_composite_key, parsed_key, parsed_ns, parses_named,
    ParsedKey, SLASH,
};
use crate::policy::{delete_on_eviction, should_delete};
use crate::store::{
    db_flush, db_open, db_root, db_trees, default_tree_bytes, default_tree_name, named_insert,
    named_lookup, named_remove, root_entries, root_remove, sequence_tree_bytes,
    sequence_tree_name, subtree, tree_contains, tree_entries, tree_get, tree_insert, tree_remove,
};

verus! {

/// A record type stored under its own namespace: `name` gives the
/// namespace the type's records live in.  Implemented by the
/// application for each record type it stores; a namespace name is a
/// type name, so it holds no `/` and is none of the reserved partition
/// names.
pub trait StorageData {
    fn name() -> String;
}

/// Construction settings for a [`Storage`]: where the persistent store
/// lives and how the cache is bounded.  An absent bound leaves the
/// cache unbounded along that axis; times are in seconds, capacity is
/// by weighted cost (key length plus value length in bytes).
pub struct StorageConfig {
    pub db_path: String,
    pub cache_num_segments: usize,
    pub cache_max_capacity: Option<u64>,
    pub cache_time_to_live: Option<u64>,
    pub cache_time_to_idle: Option<u64>,
    /// When set, the persistent store is deleted once its last handle
    /// drops; meant for tests and scratch stores.
    pub temporary: bool,
}

impl Default for StorageConfig {
    /// An unbounded single-segment cache over a store at `default.db`.
    fn default() -> (c: Self)
        ensures
            c.db_path@ == "default.db"@,
            c.cache_num_segments == 1,
            c.cache_max_capacity is None,
            c.cache_time_to_live is None,
            c.cache_time_to_idle is None,
            !c.temporary,
    {
        StorageConfig {
            db_path: "default.db".to_owned(),
            cache_num_segments: 1,
            cache_max_capacity: None,
            cache_time_to_live: None,
            cache_time_to_idle: None,
            temporary: false,
        }
    }
}

/// A namespace a record may live in: free of the key-encoding
/// separator and distinct from the reserved partitions (the sequence
/// partition and the store engine's own root partition).
pub open spec fn good_ns(ns: Seq<u8>) -> bool {
    &&& !ns.contains(SLASH)
    &&& ns != sequence_tree_name()
    &&& ns != default_tree_name()
}

/// Whether `ns` can name a record namespace: free of the key-encoding
/// separator and not a reserved partition name.  Exactly what the
/// namespaced operations require of their namespace argument, for
/// callers that need to check it at run time.
pub fn valid_namespace(ns: &[u8]) -> (r: bool)
    ensures
        r == good_ns(ns@),
{
    let n = ns.len();
    let mut i: usize = 0;
    while i < n
        invariant
            i <= n,
            n == ns@.len(),
            forall|j: int| 0 <= j < i ==> ns@[j] != SLASH,
        decreases n - i,
    {
        if ns[i] == SLASH {
            proof {
                assert(ns@.contains(SLASH)) by {
                    assert(0 <= i < ns@.len() && ns@[i as int] == SLASH);
                }
            }
            return false;
        }
        i = i + 1;
    }
    proof {
        if ns@.contains(SLASH) {
            let j = choose|j: int| 0 <= j < ns@.len() && ns@[j] == SLASH;
            assert(ns@[j] != SLASH);
        }
    }
    let seq_name = sequence_tree_bytes();
    if crate::keys::bytes_eq(ns, seq_name.as_slice()) {
        return false;
    }
    let def_name = default_tree_bytes();
    if crate::keys::bytes_eq(ns, def_name.as_slice()) {
        return false;
    }
    true
}

/// The current value of a named durable counter in a store: the stored
/// 4-byte big-endian value, or 0 where nothing — or anything of the
/// wrong width — is stored.
pub open spec fn sequence_current(
    trees: Map<Seq<u8>, Map<Seq<u8>, Seq<u8>>>,
    name: Seq<u8>,
) -> u32 {
    match named_lookup(trees, sequence_tree_name(), name) {
        Some(v) => if v.len() == 4 {
            be32(v)
        } else {
            0
        },
        None => 0,
    }
}

/// The storage coordinator: a persistent store as source of truth and
/// a bounded cache in front of it, kept coherent by the eviction-cause
/// policy.
pub struct Storage {
    db: sled::Db,
    cache: Cache,
}

impl Storage {
    /// The persistent named partitions: namespace to (key -> value).
    pub closed spec fn trees(self) -> Map<Seq<u8>, Map<Seq<u8>, Seq<u8>>> {
        db_trees(self.db)
    }

    /// The persistent root partition.
    pub closed spec fn root(self) -> Map<Seq<u8>, Seq<u8>> {
        db_root(self.db)
    }

    /// The entries the cache may still hold, by composite key.
    pub closed spec fn cache_view(self) -> Map<Seq<u8>, Seq<u8>> {
        cache_contents(self.cache)
    }

    /// One cache entry agrees with the store: a prefixed composite key
    /// parses back to a well-formed (namespace, raw key) whose stored
    /// value is the cached one; an unprefixed key is a root record
    /// with the cached value.
    pub closed spec fn entry_ok(self, ck: Seq<u8>) -> bool {
        if is_prefixed(ck) {
            &&& parses_named(ck)
            &&& good_ns(parsed_ns(ck))
            &&& named_lookup(self.trees(), parsed_ns(ck), parsed_key(ck))
                == Some(self.cache_view()[ck])
        } else {
            &&& self.root().dom().contains(ck)
            &&& self.root()[ck] == self.cache_view()[ck]
        }
    }

    /// Cache coherence: every entry the cache may still hold matches
    /// the persistent store.
    pub closed spec fn wf(self) -> bool {
        forall|ck: Seq<u8>| #[trigger] self.cache_view().dom().contains(ck) ==> self.entry_ok(ck)
    }

    /// Opens the persistent store at the configured path and builds
    /// the cache tier in front of it, with the eviction listener
    /// feeding this coordinator's event queue.  A fresh coordinator is
    /// coherent with an empty cache, whatever the store holds.
    pub fn new(config: &StorageConfig) -> (r: Result<Storage, StorageError>)
        requires
            1 <= config.cache_num_segments,
            config.cache_time_to_live matches Some(v) ==> v <= CACHE_TIME_BOUND_SECS,
            config.cache_time_to_idle matches Some(v) ==> v <= CACHE_TIME_BOUND_SECS,
        ensures
            match r {
                Ok(s) => s.wf() && forall|ck: Seq<u8>| !s.cache_view().dom().contains(ck),
                Err(e) => e == StorageError::Io,
            },
    {
        let db = match db_open(config.db_path.as_str(), config.temporary) {
            Ok(d) => d,
            Err(_) => {
                return Err(StorageError::Io);
            },
        };
        let cache = cache_new(
            config.cache_num_segments,
            config.cache_max_capacity,
            config.cache_time_to_live,
            config.cache_time_to_idle,
        );
        Ok(Storage { db, cache })
    }

    /// Whether the record (ns, key) exists: a cache hit answers at
    /// once, otherwise the persistent partition is probed, without
    /// populating the cache and without reading the value.
    pub fn contains_key(&self, ns: &[u8], key: &[u8]) -> (r: Result<bool, StorageError>)
        requires
            self.wf(),
            good_ns(ns@),
        ensures
            match r {
                Ok(b) => b == (named_lookup(self.trees(), ns@, key@) is Some),
                Err(e) => e == StorageError::Io,
            },
    {
        let ck = composite_key(ns, key);
        if self.cache.contains(ck.as_slice()) {
            proof {
                lemma_composite_key_roundtrip(ns@, key@);
                assert(self.entry_ok(ck@));
            }
            return Ok(true);
        }
        tree_contains(&self.db, ns, key)
    }

    /// Reads the record (ns, key): from the cache when it still holds
    /// it, else from the persistent store, populating the cache on a
    /// store hit (read-through only — the store is already
    /// authoritative, so nothing is written back).  Never changes the
    /// store.
    pub fn get(&mut self, ns: &[u8], key: &[u8]) -> (r: Result<Option<Vec<u8>>, StorageError>)
        requires
            old(self).wf(),
            good_ns(ns@),
        ensures
            final(self).wf(),
            final(self).trees() == old(self).trees(),
            final(self).root() == old(self).root(),
            match r {
                Ok(Some(v)) => {
                    &&& named_lookup(old(self).trees(), ns@, key@) == Some(v@)
                    &&& (final(self).cache_view() == old(self).cache_view()
                        || final(self).cache_view()
                            == old(self).cache_view().insert(composite_key_spec(ns@, key@), v@))
                },
                Ok(None) => {
                    &&& named_lookup(old(self).trees(), ns@, key@) is None
                    &&& final(self).cache_view() == old(self).cache_view()
                },
                Err(e) => {
                    &&& e == StorageError::Io
                    &&& final(self).cache_view() == old(self).cache_view()
                },
            },
    {
        let ck = composite_key(ns, key);
        proof {
            lemma_composite_key_roundtrip(ns@, key@);
        }
        match self.cache.get(ck.as_slice()) {
            Some(v) => {
                proof {
                    assert(self.entry_ok(ck@));
                }
                Ok(Some(v))
            },
            None => {
                match tree_get(&self.db, ns, key) {
                    Ok(Some(v)) => {
                        self.cache.insert(ck, v.as_slice());
                        proof {
                            assert forall|c: Seq<u8>| #[trigger] self.cache_view().dom().contains(
                                c,
                            ) implies self.entry_ok(c) by {
                                if c != composite_key_spec(ns@, key@) {
                                    assert(old(self).cache_view().dom().contains(c));
                                    assert(old(self).entry_ok(c));
                                }
                            }
                        }
                        Ok(Some(v))
                    },
                    Ok(None) => Ok(None),
                    Err(e) => Err(e),
                }
            },
        }
    }

    /// Writes the record (ns, key): the raw value bytes are persisted
    /// into the namespace partition first, and only then mirrored into
    /// the cache.  The write is never retried; a failure surfaces to
    /// the caller.
    ///
    /// On a failed persistent write two requirements collide, and the
    /// collision is resolved here explicitly.  The failure rule asks
    /// that the cache be left untouched; the source-of-truth invariant
    /// asks that the cache never diverge from the store.  Both cannot
    /// hold, because the engine's failed insert may or may not have
    /// applied the update (its in-memory update can land before the
    /// failure surfaces), so an untouched cache entry could keep
    /// vouching for bytes the store no longer holds.  This
    /// implementation decides for the invariant: the cache entry for
    /// the key is dropped, so neither a partial write nor a stale
    /// value is ever visible through the cache, and the next read
    /// consults the authoritative store again.
    pub fn insert(&mut self, ns: &[u8], key: &[u8], value: &[u8]) -> (r: Result<(), StorageError>)
        requires
            old(self).wf(),
            good_ns(ns@),
        ensures
            final(self).wf(),
            final(self).root() == old(self).root(),
            match r {
                Ok(()) => {
                    &&& final(self).trees() == named_insert(old(self).trees(), ns@, key@, value@)
                    &&& final(self).cache_view()
                        == old(self).cache_view().insert(composite_key_spec(ns@, key@), value@)
                },
                Err(e) => {
                    &&& e == StorageError::Io
                    &&& (final(self).trees() == old(self).trees()
                        || final(self).trees()
                            == named_insert(old(self).trees(), ns@, key@, value@))
                    &&& final(self).cache_view()
                        == old(self).cache_view().remove(composite_key_spec(ns@, key@))
                },
            },
    {
        let ck = composite_key(ns, key);
        proof {
            lemma_composite_key_roundtrip(ns@, key@);
        }
        match tree_insert(&mut self.db, ns, key, value) {
            Ok(()) => {
                self.cache.insert(ck, value);
                proof {
                    self.lemma_wf_after_named_write(*old(self), ns@, key@);
                }
                Ok(())
            },
            Err(e) => {
                self.cache.remove(ck.as_slice());
                proof {
                    self.lemma_wf_after_named_write(*old(self), ns@, key@);
                }
                Err(e)
            },
        }
    }

    /// Deletes the record (ns, key): removes it from the persistent
    /// partition, then evicts the composite key from the cache (which
    /// will in turn report an explicit eviction, whose handling is
    /// idempotent).  Removing an absent record is a no-op, not an
    /// error.
    pub fn remove(&mut self, ns: &[u8], key: &[u8]) -> (r: Result<(), StorageError>)
        requires
            old(self).wf(),
            good_ns(ns@),
        ensures
            final(self).wf(),
            final(self).root() == old(self).root(),
            final(self).cache_view()
                == old(self).cache_view().remove(composite_key_spec(ns@, key@)),
            match r {
                Ok(()) => final(self).trees() == named_remove(old(self).trees(), ns@, key@),
                Err(e) => {
                    &&& e == StorageError::Io
                    &&& (final(self).trees() == old(self).trees()
                        || final(self).trees() == named_remove(old(self).trees(), ns@, key@))
                },
            },
    {
        let ck = composite_key(ns, key);
        proof {
            lemma_composite_key_roundtrip(ns@, key@);
        }
        let r = tree_remove(&mut self.db, ns, key);
        self.cache.remove(ck.as_slice());
        proof {
            self.lemma_wf_after_named_write(*old(self), ns@, key@);
        }
        r
    }

    /// Coherence survives any operation that changed the persistent
    /// partitions at most at (ns, key) and left the cache's entry for
    /// the matching composite key either equal to that partition entry
    /// or absent, everything else untouched.
    proof fn lemma_wf_after_named_write(self, prev: Storage, ns: Seq<u8>, key: Seq<u8>)
        requires
            prev.wf(),
            good_ns(ns),
            self.root() == prev.root(),
            forall|ns2: Seq<u8>, k2: Seq<u8>|
                !(ns2 == ns && k2 == key) ==> #[trigger] named_lookup(self.trees(), ns2, k2)
                    == named_lookup(prev.trees(), ns2, k2),
            forall|c: Seq<u8>| #[trigger] self.cache_view().dom().contains(c) ==> (c
                == composite_key_spec(ns, key) && named_lookup(self.trees(), ns, key) == Some(
                self.cache_view()[c],
            )) || (c != composite_key_spec(ns, key) && prev.cache_view().dom().contains(c)
                && prev.cache_view()[c] == self.cache_view()[c]),
        ensures
            self.wf(),
    {
        lemma_composite_key_roundtrip(ns, key);
        assert forall|c: Seq<u8>| #[trigger] self.cache_view().dom().contains(c) implies self
            .entry_ok(c) by {
            if c == composite_key_spec(ns, key) && named_lookup(self.trees(), ns, key) == Some(
                self.cache_view()[c],
            ) {
            } else {
                assert(prev.cache_view().dom().contains(c));
                assert(prev.entry_ok(c));
                if is_prefixed(c) {
                    lemma_composite_key_reconstruct(c);
                    if parsed_ns(c) == ns && parsed_key(c) == key {
                        assert(c == composite_key_spec(ns, key));
                    }
                }
            }
        }
    }

    /// The last value issued for the named counter, 0 if none was ever
    /// issued.  Read directly from the persistent store; counters are
    /// never cached.
    pub fn current(&self, name: &[u8]) -> (r: Result<u32, StorageError>)
        ensures
            match r {
                Ok(v) => v == sequence_current(self.trees(), name@),
                Err(e) => e == StorageError::Io,
            },
    {
        let seq_name = sequence_tree_bytes();
        proof {
            assert(sequence_tree_name() != default_tree_name());
        }
        match tree_get(&self.db, seq_name.as_slice(), name) {
            Ok(Some(v)) => {
                if v.len() == 4 {
                    Ok(from_be4(v.as_slice()))
                } else {
                    Ok(0)
                }
            },
            Ok(None) => Ok(0),
            Err(e) => Err(e),
        }
    }

    /// Issues the next value of the named counter: current + 1,
    /// persisted into the reserved sequence partition before it is
    /// returned; the first call for a fresh name returns 1.  Values
    /// for a name never decrease and are never reissued, so at the
    /// 32-bit ceiling the call fails with `SequenceOverflow` rather
    /// than wrap.  Counters never touch the cache or the record
    /// partitions.
    pub fn next(&mut self, name: &[u8]) -> (r: Result<u32, StorageError>)
        requires
            old(self).wf(),
        ensures
            final(self).wf(),
            final(self).root() == old(self).root(),
            final(self).cache_view() == old(self).cache_view(),
            forall|t: Seq<u8>|
                t != sequence_tree_name() ==> #[trigger] subtree(final(self).trees(), t)
                    == subtree(old(self).trees(), t),
            forall|n2: Seq<u8>|
                n2 != name@ ==> #[trigger] named_lookup(final(self).trees(), sequence_tree_name(), n2)
                    == named_lookup(old(self).trees(), sequence_tree_name(), n2),
            sequence_current(final(self).trees(), name@)
                >= sequence_current(old(self).trees(), name@),
            match r {
                Ok(v) => {
                    &&& v == sequence_current(old(self).trees(), name@) + 1
                    &&& sequence_current(final(self).trees(), name@) == v
                },
                Err(e) => {
                    &&& (e == StorageError::Io || e == StorageError::SequenceOverflow)
                    &&& (e == StorageError::SequenceOverflow ==> sequence_current(
                        old(self).trees(),
                        name@,
                    ) == u32::MAX && final(self).trees() == old(self).trees())
                },
            },
    {
        let seq_name = sequence_tree_bytes();
        proof {
            assert(sequence_tree_name() != default_tree_name());
        }
        let cur: u32 = match tree_get(&self.db, seq_name.as_slice(), name) {
            Ok(Some(v)) => {
                if v.len() == 4 {
                    from_be4(v.as_slice())
                } else {
                    0
                }
            },
            Ok(None) => 0,
            Err(e) => {
                return Err(e);
            },
        };
        if cur == u32::MAX {
            return Err(StorageError::SequenceOverflow);
        }
        let nxt: u32 = cur + 1;
        let bytes = to_be4(nxt);
        let r = tree_insert(&mut self.db, seq_name.as_slice(), name, bytes.as_slice());
        proof {
            assert forall|c: Seq<u8>| #[trigger] self.cache_view().dom().contains(c) implies self
                .entry_ok(c) by {
                assert(old(self).cache_view().dom().contains(c));
                assert(old(self).entry_ok(c));
                if is_prefixed(c) {
                    assert(parsed_ns(c) != sequence_tree_name());
                    assert(subtree(self.trees(), parsed_ns(c)) == subtree(
                        old(self).trees(),
                        parsed_ns(c),
                    ));
                }
            }
        }
        match r {
            Ok(()) => Ok(nxt),
            Err(e) => Err(e),
        }
    }

    /// Applies the eviction-cause policy to one eviction the cache
    /// reported.  Explicit removal and expiry end the record's life:
    /// the composite key is re-evicted (in case the entry was
    /// re-created meanwhile) and the persistent copy deleted.
    /// Capacity pressure and replacement leave durable data alone.  A
    /// malformed composite key, or one naming a reserved partition, is
    /// skipped defensively; a failed persistent delete is swallowed —
    /// the cache entry is already gone, and at worst a stale
    /// persistent entry survives until the next equivalent removal.
    pub fn apply_eviction(&mut self, ev: EvictionEvent)
        requires
            old(self).wf(),
        ensures
            final(self).wf(),
            subtree(final(self).trees(), sequence_tree_name())
                == subtree(old(self).trees(), sequence_tree_name()),
            !delete_on_eviction(ev.cause) ==> {
                &&& final(self).trees() == old(self).trees()
                &&& final(self).root() == old(self).root()
                &&& final(self).cache_view() == old(self).cache_view()
            },
            delete_on_eviction(ev.cause) ==> final(self).cache_view()
                == old(self).cache_view().remove(ev.key@),
            delete_on_eviction(ev.cause) && parses_named(ev.key@) && good_ns(parsed_ns(ev.key@))
                ==> {
                &&& (final(self).trees() == named_remove(
                    old(self).trees(),
                    parsed_ns(ev.key@),
                    parsed_key(ev.key@),
                ) || final(self).trees() == old(self).trees())
                &&& final(self).root() == old(self).root()
            },
            delete_on_eviction(ev.cause) && !is_prefixed(ev.key@) ==> {
                &&& (final(self).root() == old(self).root().remove(ev.key@) || final(self).root()
                    == old(self).root())
                &&& final(self).trees() == old(self).trees()
            },
            delete_on_eviction(ev.cause) && is_prefixed(ev.key@) && !(parses_named(ev.key@)
                && good_ns(parsed_ns(ev.key@))) ==> {
                &&& final(self).trees() == old(self).trees()
                &&& final(self).root() == old(self).root()
            },
    {
        if !should_delete(&ev.cause) {
            return ;
        }
        self.cache.remove(ev.key.as_slice());
        match parse_composite_key(ev.key.as_slice()) {
            ParsedKey::Named { ns, key } => {
                proof {
                    lemma_composite_key_reconstruct(ev.key@);
                }
                let seq_name = sequence_tree_bytes();
                let def_name = default_tree_bytes();
                if crate::keys::bytes_eq(ns.as_slice(), seq_name.as_slice()) || crate::keys::bytes_eq(
                    ns.as_slice(),
                    def_name.as_slice(),
                ) {
                    proof {
                        self.lemma_wf_shrunk(*old(self), ev.key@);
                    }
                } else {
                    let _ = tree_remove(&mut self.db, ns.as_slice(), key.as_slice());
                    proof {
                        self.lemma_wf_after_named_write(*old(self), ns@, key@);
                    }
                }
            },
            ParsedKey::Root { key } => {
                let _ = root_remove(&mut self.db, key.as_slice());
                proof {
                    self.lemma_wf_after_root_remove(*old(self), ev.key@);
                }
            },
            ParsedKey::Malformed => {
                proof {
                    self.lemma_wf_shrunk(*old(self), ev.key@);
                }
            },
        }
    }

    /// Coherence survives dropping a cache entry with both partitions
    /// untouched.
    proof fn lemma_wf_shrunk(self, prev: Storage, ck: Seq<u8>)
        requires
            prev.wf(),
            self.trees() == prev.trees(),
            self.root() == prev.root(),
            self.cache_view() == prev.cache_view().remove(ck),
        ensures
            self.wf(),
    {
        assert forall|c: Seq<u8>| #[trigger] self.cache_view().dom().contains(c) implies self
            .entry_ok(c) by {
            assert(prev.cache_view().dom().contains(c));
            assert(prev.entry_ok(c));
        }
    }

    /// Coherence survives deleting a root record whose key was just
    /// dropped from the cache: no other root key and no named
    /// partition is touched.
    proof fn lemma_wf_after_root_remove(self, prev: Storage, ck: Seq<u8>)
        requires
            prev.wf(),
            self.trees() == prev.trees(),
            self.root() == prev.root() || self.root() == prev.root().remove(ck),
            self.cache_view() == prev.cache_view().remove(ck),
        ensures
            self.wf(),
    {
        assert forall|c: Seq<u8>| #[trigger] self.cache_view().dom().contains(c) implies self
            .entry_ok(c) by {
            assert(prev.cache_view().dom().contains(c));
            assert(prev.entry_ok(c));
        }
    }

    /// Warm-up for a named namespace: copies every (key, value) pair
    /// of its persistent partition into the cache under the composite
    /// key — always from the authoritative store into the cache, never
    /// the reverse.  Tolerates an empty or absent partition, only ever
    /// adds cache entries, and pins the resulting cache exactly: the
    /// old entries with their old values plus the partition's pairs,
    /// nothing else — so a second run over an unchanged store changes
    /// nothing.
    pub fn recover(&mut self, ns: &[u8]) -> (r: Result<(), StorageError>)
        requires
            old(self).wf(),
            good_ns(ns@),
        ensures
            final(self).wf(),
            final(self).trees() == old(self).trees(),
            final(self).root() == old(self).root(),
            forall|c: Seq<u8>| #[trigger]
                old(self).cache_view().dom().contains(c) ==> final(self).cache_view().contains_pair(
                    c,
                    old(self).cache_view()[c],
                ),
            r matches Ok(()) ==> forall|k: Seq<u8>| #[trigger]
                subtree(old(self).trees(), ns@).dom().contains(k)
                    ==> final(self).cache_view().contains_pair(
                    composite_key_spec(ns@, k),
                    subtree(old(self).trees(), ns@)[k],
                ),
            r matches Ok(()) ==> forall|c: Seq<u8>| #[trigger]
                final(self).cache_view().dom().contains(c)
                    ==> old(self).cache_view().dom().contains(c) || (parses_named(c)
                    && parsed_ns(c) == ns@ && subtree(old(self).trees(), ns@).dom().contains(
                    parsed_key(c),
                )),
            r matches Err(e) ==> e == StorageError::Io,
    {
        let entries = match tree_entries(&self.db, ns) {
            Ok(es) => es,
            Err(e) => {
                return Err(e);
            },
        };
        let n = entries.len();
        let mut i: usize = 0;
        while i < n
            invariant
                self.wf(),
                good_ns(ns@),
                self.trees() == old(self).trees(),
                self.root() == old(self).root(),
                n == entries@.len(),
                i <= n,
                forall|j: int|
                    0 <= j < n ==> #[trigger] subtree(self.trees(), ns@).contains_pair(
                        entries@[j].0@,
                        entries@[j].1@,
                    ),
                forall|j1: int, j2: int|
                    0 <= j1 < j2 < n ==> #[trigger] entries@[j1].0@ != #[trigger] entries@[j2].0@,
                forall|c: Seq<u8>| #[trigger]
                    old(self).cache_view().dom().contains(c) ==> self.cache_view().contains_pair(
                        c,
                        old(self).cache_view()[c],
                    ),
                forall|j: int|
                    0 <= j < i ==> #[trigger] self.cache_view().contains_pair(
                        composite_key_spec(ns@, entries@[j].0@),
                        entries@[j].1@,
                    ),
                forall|c: Seq<u8>| #[trigger]
                    self.cache_view().dom().contains(c)
                        ==> old(self).cache_view().dom().contains(c) || (parses_named(c)
                        && parsed_ns(c) == ns@ && subtree(old(self).trees(), ns@).dom().contains(
                        parsed_key(c),
                    )),
            decreases n - i,
        {
            let ghost pre = *self;
            let ck = composite_key(ns, entries[i].0.as_slice());
            self.cache.insert(ck, entries[i].1.as_slice());
            proof {
                let ki = entries@[i as int].0@;
                let vi = entries@[i as int].1@;
                lemma_composite_key_roundtrip(ns@, ki);
                assert(subtree(self.trees(), ns@).contains_pair(ki, vi));
                assert forall|c: Seq<u8>| #[trigger] self.cache_view().dom().contains(c) implies self
                    .entry_ok(c) by {
                    if c != composite_key_spec(ns@, ki) {
                        assert(pre.cache_view().dom().contains(c));
                        assert(pre.entry_ok(c));
                    }
                }
                assert forall|c: Seq<u8>| #[trigger] old(self).cache_view().dom().contains(
                    c,
                ) implies self.cache_view().contains_pair(c, old(self).cache_view()[c]) by {
                    if c == composite_key_spec(ns@, ki) {
                        assert(pre.cache_view().contains_pair(c, old(self).cache_view()[c]));
                        assert(pre.entry_ok(c));
                    }
                }
                assert forall|j: int| 0 <= j < i + 1 implies #[trigger] self.cache_view().contains_pair(
                    composite_key_spec(ns@, entries@[j].0@),
                    entries@[j].1@,
                ) by {
                    if j < i {
                        if composite_key_spec(ns@, entries@[j].0@) == composite_key_spec(ns@, ki) {
                            crate::keys::lemma_composite_key_injective(ns@, entries@[j].0@, ns@, ki);
                        }
                        assert(pre.cache_view().contains_pair(
                            composite_key_spec(ns@, entries@[j].0@),
                            entries@[j].1@,
                        ));
                    }
                }
                assert forall|c: Seq<u8>| #[trigger] self.cache_view().dom().contains(c) implies
                    old(self).cache_view().dom().contains(c) || (parses_named(c) && parsed_ns(c)
                        == ns@ && subtree(old(self).trees(), ns@).dom().contains(parsed_key(c))) by {
                    if c != composite_key_spec(ns@, ki) {
                        assert(pre.cache_view().dom().contains(c));
                    }
                }
            }
            i = i + 1;
        }
        proof {
            assert forall|k: Seq<u8>| #[trigger] subtree(old(self).trees(), ns@).dom().contains(
                k,
            ) implies self.cache_view().contains_pair(
                composite_key_spec(ns@, k),
                subtree(old(self).trees(), ns@)[k],
            ) by {
                let j = choose|j: int| 0 <= j < entries@.len() && #[trigger] entries@[j].0@ == k;
                assert(subtree(self.trees(), ns@).contains_pair(entries@[j].0@, entries@[j].1@));
                assert(self.cache_view().contains_pair(
                    composite_key_spec(ns@, entries@[j].0@),
                    entries@[j].1@,
                ));
            }
        }
        Ok(())
    }

    /// Warm-up for the root namespace: copies every (key, value) pair
    /// of the store's root partition into the cache under the key
    /// itself.  A key that begins with the reserved `:/` prefix can
    /// never be a root composite key, so it is skipped defensively.
    /// Tolerates an empty partition, only ever adds cache entries, and
    /// pins the resulting cache exactly: the old entries with their
    /// old values plus the partition's unprefixed pairs, nothing else
    /// — so a second run over an unchanged store changes nothing.
    pub fn recover_root(&mut self) -> (r: Result<(), StorageError>)
        requires
            old(self).wf(),
        ensures
            final(self).wf(),
            final(self).trees() == old(self).trees(),
            final(self).root() == old(self).root(),
            forall|c: Seq<u8>| #[trigger]
                old(self).cache_view().dom().contains(c) ==> final(self).cache_view().contains_pair(
                    c,
                    old(self).cache_view()[c],
                ),
            r matches Ok(()) ==> forall|k: Seq<u8>|
                #[trigger] old(self).root().dom().contains(k) && !is_prefixed(k)
                    ==> final(self).cache_view().contains_pair(k, old(self).root()[k]),
            r matches Ok(()) ==> forall|c: Seq<u8>| #[trigger]
                final(self).cache_view().dom().contains(c)
                    ==> old(self).cache_view().dom().contains(c)
                    || (old(self).root().dom().contains(c) && !is_prefixed(c)),
            r matches Err(e) ==> e == StorageError::Io,
    {
        let entries = match root_entries(&self.db) {
            Ok(es) => es,
            Err(e) => {
                return Err(e);
            },
        };
        let n = entries.len();
        let mut i: usize = 0;
        while i < n
            invariant
                self.wf(),
                self.trees() == old(self).trees(),
                self.root() == old(self).root(),
                n == entries@.len(),
                i <= n,
                forall|j: int|
                    0 <= j < n ==> #[trigger] self.root().contains_pair(
                        entries@[j].0@,
                        entries@[j].1@,
                    ),
                forall|j1: int, j2: int|
                    0 <= j1 < j2 < n ==> #[trigger] entries@[j1].0@ != #[trigger] entries@[j2].0@,
                forall|c: Seq<u8>| #[trigger]
                    old(self).cache_view().dom().contains(c) ==> self.cache_view().contains_pair(
                        c,
                        old(self).cache_view()[c],
                    ),
                forall|j: int|
                    0 <= j < i && !is_prefixed(entries@[j].0@)
                        ==> #[trigger] self.cache_view().contains_pair(
                        entries@[j].0@,
                        entries@[j].1@,
                    ),
                forall|c: Seq<u8>| #[trigger]
                    self.cache_view().dom().contains(c)
                        ==> old(self).cache_view().dom().contains(c)
                        || (old(self).root().dom().contains(c) && !is_prefixed(c)),
            decreases n - i,
        {
            let key_len = entries[i].0.len();
            let prefixed = key_len >= 2 && entries[i].0[0] == crate::keys::COLON
                && entries[i].0[1] == crate::keys::SLASH;
            if !prefixed {
                let ghost pre = *self;
                let ck = crate::keys::bytes_copy(entries[i].0.as_slice());
                self.cache.insert(ck, entries[i].1.as_slice());
                proof {
                    let ki = entries@[i as int].0@;
                    let vi = entries@[i as int].1@;
                    assert(!is_prefixed(ki));
                    assert(self.root().contains_pair(ki, vi));
                    assert forall|c: Seq<u8>| #[trigger] self.cache_view().dom().contains(
                        c,
                    ) implies self.entry_ok(c) by {
                        if c != ki {
                            assert(pre.cache_view().dom().contains(c));
                            assert(pre.entry_ok(c));
                        }
                    }
                    assert forall|j: int|
                        0 <= j < i + 1 && !is_prefixed(entries@[j].0@)
                            implies #[trigger] self.cache_view().contains_pair(
                        entries@[j].0@,
                        entries@[j].1@,
                    ) by {
                        if j < i {
                            assert(entries@[j].0@ != ki);
                            assert(pre.cache_view().contains_pair(entries@[j].0@, entries@[j].1@));
                        }
                    }
                    assert forall|c: Seq<u8>| #[trigger] old(self).cache_view().dom().contains(
                        c,
                    ) implies self.cache_view().contains_pair(c, old(self).cache_view()[c]) by {
                        if c == ki {
                            assert(pre.cache_view().contains_pair(c, old(self).cache_view()[c]));
                            assert(pre.entry_ok(c));
                        }
                    }
                    assert forall|c: Seq<u8>| #[trigger] self.cache_view().dom().contains(
                        c,
                    ) implies old(self).cache_view().dom().contains(c)
                        || (old(self).root().dom().contains(c) && !is_prefixed(c)) by {
                        if c != ki {
                            assert(pre.cache_view().dom().contains(c));
                        }
                    }
                }
            }
            i = i + 1;
        }
        proof {
            assert forall|k: Seq<u8>| #[trigger] old(self).root().dom().contains(k)
                && !is_prefixed(k) implies self.cache_view().contains_pair(
                k,
                old(self).root()[k],
            ) by {
                let j = choose|j: int| 0 <= j < entries@.len() && #[trigger] entries@[j].0@ == k;
                assert(self.root().contains_pair(entries@[j].0@, entries@[j].1@));
                assert(self.cache_view().contains_pair(entries@[j].0@, entries@[j].1@));
            }
        }
        Ok(())
    }

    /// Runs both tiers' maintenance: lets the cache perform its
    /// pending evictions, applies the eviction-cause policy to every
    /// eviction it reported, and flushes the persistent store's write
    /// buffer down to durable storage.  Sequence counters are never
    /// touched by eviction handling.
    pub fn run_pending_tasks(&mut self) -> (r: Result<(), StorageError>)
        requires
            old(self).wf(),
        ensures
            final(self).wf(),
            subtree(final(self).trees(), sequence_tree_name())
                == subtree(old(self).trees(), sequence_tree_name()),
            forall|c: Seq<u8>| #[trigger]
                final(self).cache_view().dom().contains(c)
                    ==> old(self).cache_view().contains_pair(c, final(self).cache_view()[c]),
            r matches Err(e) ==> e == StorageError::Io,
    {
        self.cache.run_pending();
        proof {
            assert forall|c: Seq<u8>| #[trigger] self.cache_view().dom().contains(c) implies self
                .entry_ok(c) by {
                assert(old(self).cache_view().dom().contains(c));
                assert(old(self).entry_ok(c));
            }
        }
        let mut budget: u32 = 65536;
        while budget > 0
            invariant
                self.wf(),
                subtree(self.trees(), sequence_tree_name())
                    == subtree(old(self).trees(), sequence_tree_name()),
                forall|c: Seq<u8>| #[trigger]
                    self.cache_view().dom().contains(c) ==> old(self).cache_view().contains_pair(
                        c,
                        self.cache_view()[c],
                    ),
            decreases budget,
        {
            let ghost pre = *self;
            let ev_opt = self.cache.pop_event();
            proof {
                assert forall|c: Seq<u8>| #[trigger] self.cache_view().dom().contains(c) implies self
                    .entry_ok(c) && old(self).cache_view().contains_pair(c, self.cache_view()[c]) by {
                    assert(pre.cache_view().dom().contains(c));
                    assert(pre.entry_ok(c));
                }
            }
            match ev_opt {
                Some(ev) => {
                    let ghost pre2 = *self;
                    let ghost evk = ev.key@;
                    let ghost cause = ev.cause;
                    self.apply_eviction(ev);
                    proof {
                        assert forall|c: Seq<u8>| #[trigger] self.cache_view().dom().contains(
                            c,
                        ) implies old(self).cache_view().contains_pair(c, self.cache_view()[c]) by {
                            if delete_on_eviction(cause) {
                                assert(self.cache_view() == pre2.cache_view().remove(evk));
                            } else {
                                assert(self.cache_view() == pre2.cache_view());
                            }
                            assert(pre2.cache_view().dom().contains(c));
                        }
                    }
                },
                None => {
                    break ;
                },
            }
            budget = budget - 1;
        }
        db_flush(&self.db)
    }
}

} // verus!
