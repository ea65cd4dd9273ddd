//! The typed errors that decoding or loading an object can produce.

use vstd::prelude::*;

verus! {

/// Why an object could not be loaded or decoded.
///
/// Loading raises `FileReadError` before decompression is attempted; the
/// grammar errors are raised by the codecs, one kind per object grammar, and
/// never leave a partially built object behind.
#[derive(Clone, Debug, PartialEq, Eq, Structural)]
pub enum GitObjectError {
    /// The object was not present in the store.
    FileReadError,
    /// The bytes are not a valid zlib stream, or do not inflate to text.
    DecompressionError,
    /// The decompressed text violates the commit grammar.
    InvalidCommitFile,
    /// The decompressed text violates the tree grammar.
    InvalidTreeFile,
}

} // verus!
