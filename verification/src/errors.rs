//! Failures a storage operation can surface.

use vstd::prelude::*;

verus! {

/// Why a storage operation failed.  Durable-I/O failures surface as
/// `Io` from the operation that hit them; a sequence counter that has
/// reached the 32-bit ceiling refuses to wrap with
/// `SequenceOverflow`.
#[derive(Debug, Clone, Copy, PartialEq, Eq, Structural)]
pub enum StorageError {
    Io,
    SequenceOverflow,
}

} // verus!
