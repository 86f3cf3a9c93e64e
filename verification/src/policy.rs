//! The eviction-cause policy.
//!
//! The cache reports a cause with every entry that leaves it.  Only
//! causes that mean an intentional end of the record's life — explicit
//! removal and time-based expiry — may propagate to the persistent
//! copy; a cause that is a cache-capacity artifact must never destroy
//! durable data.

use vstd::prelude::*;

verus! {

/// Why an entry left the cache.
#[derive(Debug, Clone, Copy, PartialEq, Eq, Structural)]
pub enum EvictionCause {
    /// The caller asked for the entry to go.
    Explicit,
    /// The entry's time-to-live or time-to-idle elapsed.
    Expired,
    /// The cache needed room; the entry is otherwise still valid.
    Size,
    /// The entry's value was overwritten by a newer insert.
    Replaced,
}

/// The causes whose persistent copy is deleted: exactly explicit
/// removal and expiry.
pub open spec fn delete_on_eviction(cause: EvictionCause) -> bool {
    cause == EvictionCause::Explicit || cause == EvictionCause::Expired
}

/// Decides, for one eviction cause, whether the persistent copy's life
/// ends too.  Total over the cause taxonomy; any cause that is not an
/// intentional end of life leaves durable data alone.
pub fn should_delete(cause: &EvictionCause) -> (r: bool)
    ensures
        r == delete_on_eviction(*cause),
{
    match cause {
        EvictionCause::Explicit => true,
        EvictionCause::Expired => true,
        EvictionCause::Size => false,
        EvictionCause::Replaced => false,
    }
}

} // verus!
