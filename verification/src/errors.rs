use vstd::prelude::*;

verus! {

/// The closed set of failures the store reports.
///
/// Every operation returns one of these instead of panicking.  Engine
/// failures carry the engine's message; the remaining variants carry the
/// offending key, collection name or a human-readable detail.
#[derive(Debug, PartialEq, Eq)]
pub enum KvStoreError {
    /// Engine-level failure (I/O, corruption, compaction error).
    DbError(String),
    /// Codec encode failure.
    SerializationError(String),
    /// Codec decode failure.
    DeserializationError(String),
    /// Explicit read, or delete, of a key that is not present.
    KeyNotFound(String),
    /// A collection name that does not resolve.
    InvalidColumnFamily(String),
    /// Filesystem failure outside the engine.
    IoError(String),
    /// Invalid UTF-8 at a boundary that requires string form.
    Utf8Error(String),
    /// System time acquisition failure.
    SystemTimeError(String),
    /// The engine refused a property read.
    PropertyAccessError(String),
    /// A path expression that failed to compile or evaluate.
    InvalidQuery(String),
}

} // verus!
