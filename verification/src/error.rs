use vstd::prelude::*;

verus! {

/// The error taxonomy of the store.
#[derive(Clone, Copy, Debug, PartialEq, Eq, Structural)]
pub enum Error {
    /// A filesystem read or write failed.
    IoError,
    /// A hash is absent from the store, or a target path is absent from the
    /// filesystem.
    NotFound,
    /// Decompression of stored bytes failed: the object is corrupt.
    CodecError,
    /// A stored tree listing is malformed, or a kind token is unrecognized.
    FormatError,
    /// A structural replace was attempted at a path outside the tree being
    /// replaced into.
    PathMismatch,
}

} // verus!
