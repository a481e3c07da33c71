//! The one error type of the storage engine.

use vstd::prelude::*;

verus! {

/// What went wrong, with a short reason where one helps.
#[derive(Debug, Clone, Copy, PartialEq, Eq)]
pub enum StorageError {
    /// A table or index that does not exist.
    NotFound,
    /// A table name that is already taken.
    AlreadyExists,
    /// A bad argument: wrong arity, wrong size, an id out of range, a null key.
    Invalid(&'static str),
    /// Bytes that do not hold what they should: bad magic, bad checksum, unknown tag.
    CorruptData(&'static str),
    /// A value that cannot be encoded or decoded.
    Serialization(&'static str),
    /// The underlying file: a read past its end, or an offset it cannot hold.
    Io(&'static str),
}

} // verus!
