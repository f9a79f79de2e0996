use vstd::prelude::*;

verus! {

/// Why the store refused a write.
#[derive(Debug, Clone, PartialEq, Eq)]
pub enum StoreViolation {
    /// A row with the same path is already recorded; paths are unique keys.
    DuplicatePath,
    /// The parent named for a new directory is not in the catalog.
    MissingParent,
    /// The directory named as a document's owner is not in the catalog.
    MissingDirectory,
    /// The store has run out of identifiers to mint.
    IdSpace,
}

/// The error kinds surfaced by the catalog and its service.
#[derive(Debug, Clone, PartialEq, Eq)]
pub enum KnawledgeError {
    /// No catalog row matches the lookup key; carries the caller's
    /// identifier verbatim.
    NotFound(String),
    /// A failure reported by the catalog store itself.
    Store(StoreViolation),
    /// A filesystem access failure outside the store.
    Io,
}

} // verus!
