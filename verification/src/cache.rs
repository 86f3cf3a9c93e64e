//! The in-memory cache tier.
//!
//! A segmented, capacity- and time-bounded cache of composite keys to
//! raw value bytes, with an eviction listener that records every entry
//! leaving the cache — and the cause — into a queue this crate drains.
//!
//! The cache evicts entries on its own schedule (capacity pressure,
//! expiry), so `cache_contents` tracks an upper bound: every entry the
//! cache still holds is in `cache_contents` with the same value, but an
//! entry in `cache_contents` may already have left the cache.  Only the
//! explicit `insert` and `remove` below change the bound.

use vstd::prelude::*;

use crate::policy::EvictionCause;

verus! {

#[verifier::external_type_specification]
#[verifier::external_body]
#[verifier::reject_recursive_types(K)]
#[verifier::reject_recursive_types(V)]
#[verifier::reject_recursive_types(S)]
pub struct ExSegmentedCache<K, V, S>(moka::sync::SegmentedCache<K, V, S>);

#[verifier::external_type_specification]
#[verifier::external_body]
pub struct ExRemovalCause(moka::notification::RemovalCause);

#[verifier::external_type_specification]
#[verifier::external_body]
#[verifier::reject_recursive_types(T)]
pub struct ExReceiver<T>(std::sync::mpsc::Receiver<T>);

/// What the cache reported when an entry left it: the composite key
/// and the cause the cache gave.
pub struct EvictionEvent {
    pub key: Vec<u8>,
    pub cause: EvictionCause,
}

/// The cache tier: the bounded cache itself plus the queue of eviction
/// notifications its listener has recorded.  The two are built
/// together: the listener registered at construction holds the queue's
/// sending half.
pub struct Cache {
    inner: moka::sync::SegmentedCache<Vec<u8>, Vec<u8>, std::collections::hash_map::RandomState>,
    events: std::sync::mpsc::Receiver<
        (std::sync::Arc<Vec<u8>>, moka::notification::RemovalCause),
    >,
}

/// The entries the cache tier may still hold, by composite key (see
/// the module note).
pub uninterp spec fn cache_contents(c: Cache) -> Map<Seq<u8>, Seq<u8>>;

/// The weight of a cache entry: key length plus value length in bytes,
/// saturating at the largest weight the cache can account.
pub open spec fn entry_cost_spec(kl: nat, vl: nat) -> u32 {
    if kl + vl >= 0x1_0000_0000 {
        0xFFFF_FFFFu32
    } else {
        (kl + vl) as u32
    }
}

/// Computes a cache entry's weight.
pub fn entry_cost(key: &Vec<u8>, value: &Vec<u8>) -> (r: u32)
    ensures
        r == entry_cost_spec(key@.len(), value@.len()),
{
    let kl: u64 = key.len() as u64;
    let vl: u64 = value.len() as u64;
    let total: u64 = if kl <= 0xFFFF_FFFF && vl <= 0xFFFF_FFFF {
        kl + vl
    } else {
        0x1_0000_0000
    };
    if total >= 0x1_0000_0000 {
        0xFFFF_FFFFu32
    } else {
        total as u32
    }
}

/// The ceiling the cache's builder accepts for its time bounds, in
/// seconds (the builder refuses bounds near a thousand years).
pub const CACHE_TIME_BOUND_SECS: u64 = 30_000_000_000;

/// Relies on moka's SegmentedCache builder: builds a cache with the
/// given segment count, optional weighted capacity (weighed by
/// `entry_cost`), optional time-to-live and time-to-idle in seconds,
/// and registers an eviction listener that records each evicted key
/// and cause into the event queue.  A fresh cache holds nothing.
#[verifier::external_body]
pub fn cache_new(
    segments: usize,
    max_capacity: Option<u64>,
    ttl_secs: Option<u64>,
    tti_secs: Option<u64>,
) -> (c: Cache)
    requires
        1 <= segments,
        ttl_secs matches Some(v) ==> v <= CACHE_TIME_BOUND_SECS,
        tti_secs matches Some(v) ==> v <= CACHE_TIME_BOUND_SECS,
    ensures
        forall|k: Seq<u8>| !cache_contents(c).dom().contains(k),
{
    let (tx, rx) = std::sync::mpsc::channel();
    let mut b = moka::sync::SegmentedCache::builder(segments)
        .weigher(|k: &Vec<u8>, v: &Vec<u8>| entry_cost(k, v))
        .eviction_listener(move |k, _v, cause| { let _ = tx.send((k, cause)); });
    if let Some(v) = max_capacity { b = b.max_capacity(v); }
    if let Some(v) = ttl_secs { b = b.time_to_live(std::time::Duration::from_secs(v)); }
    if let Some(v) = tti_secs { b = b.time_to_idle(std::time::Duration::from_secs(v)); }
    Cache { inner: b.build(), events: rx }
}

impl Cache {
    /// Relies on moka's SegmentedCache::get: a hit returns the value
    /// the cache holds for `key`; the cache may have dropped any entry
    /// on its own, so a miss says nothing.
    #[verifier::external_body]
    pub fn get(&self, key: &[u8]) -> (r: Option<Vec<u8>>)
        ensures
            r matches Some(v) ==> cache_contents(*self).contains_pair(key@, v@),
    {
        self.inner.get(key)
    }

    /// Relies on moka's SegmentedCache::contains_key: a hit means the
    /// cache still holds `key`; a miss says nothing.
    #[verifier::external_body]
    pub fn contains(&self, key: &[u8]) -> (r: bool)
        ensures
            r ==> cache_contents(*self).dom().contains(key@),
    {
        self.inner.contains_key(key)
    }

    /// Relies on moka's SegmentedCache::insert.
    #[verifier::external_body]
    pub fn insert(&mut self, key: Vec<u8>, value: &[u8])
        ensures
            cache_contents(*final(self)) == cache_contents(*old(self)).insert(key@, value@),
    {
        self.inner.insert(key, value.to_vec())
    }

    /// Relies on moka's SegmentedCache::invalidate: the cache no longer
    /// holds `key`; invalidating an absent key is a no-op.
    #[verifier::external_body]
    pub fn remove(&mut self, key: &[u8])
        ensures
            cache_contents(*final(self)) == cache_contents(*old(self)).remove(key@),
    {
        self.inner.invalidate(key)
    }

    /// Relies on moka's SegmentedCache::run_pending_tasks: performs the
    /// cache's pending maintenance (evictions, notifications); it adds
    /// nothing to the cache.
    #[verifier::external_body]
    pub fn run_pending(&mut self)
        ensures
            cache_contents(*final(self)) == cache_contents(*old(self)),
    {
        self.inner.run_pending_tasks()
    }

    /// Relies on std::sync::mpsc::Receiver::try_recv: takes the next
    /// recorded eviction, if one is queued.  Which evictions the cache
    /// reports, and when, is the cache's own business, so nothing is
    /// promised of the event.
    #[verifier::external_body]
    pub fn pop_event(&mut self) -> (r: Option<EvictionEvent>)
        ensures
            cache_contents(*final(self)) == cache_contents(*old(self)),
    {
        match self.events.try_recv() {
            Ok((k, cause)) => Some(EvictionEvent {
                key: (*k).clone(),
                cause: match cause {
                    moka::notification::RemovalCause::Explicit => EvictionCause::Explicit,
                    moka::notification::RemovalCause::Expired => EvictionCause::Expired,
                    moka::notification::RemovalCause::Size => EvictionCause::Size,
                    moka::notification::RemovalCause::Replaced => EvictionCause::Replaced,
                },
            }),
            Err(_) => None,
        }
    }
}

} // verus!
