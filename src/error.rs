use vstd::prelude::*;

verus! {

/// Failures surfaced to the caller of the catalog and asset operations.
#[derive(Clone, Copy, Debug, PartialEq, Eq, Structural)]
pub enum CatalogError {
    /// A directory or file could not be created, read or written.
    StorageUnavailable,
    /// The catalog file exists but does not hold a valid catalog.
    CorruptCatalog,
    /// An image-type tag other than the two known ones.
    InvalidArgument,
}

} // verus!
