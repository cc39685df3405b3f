use vstd::prelude::*;

verus! {

/// The ways an operation on objects, the store or the index can fail.
#[derive(Debug, Clone, Copy, PartialEq, Eq, Structural)]
pub enum GitError {
    /// A digest or a ref file that is not there.
    NotFound,
    /// A malformed object body or index record.
    FormatError,
    /// Bytes that do not decompress.
    CorruptData,
    /// An object that is already in the store.
    AlreadyExists,
    /// Any other failure of the file system.
    IoError,
}

} // verus!
