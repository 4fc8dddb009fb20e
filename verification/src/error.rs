//! The ways an operation on the index can fail.

use vstd::prelude::*;

verus! {

/// Why an operation failed.
#[derive(Clone, Copy, Debug, PartialEq, Eq, Structural)]
pub enum IndexError {
    /// The bytes are not those of an index: a type tag that does not match,
    /// a quantity that runs past the end, a jump table that disagrees with
    /// the children, a root whose recorded length is wrong, an in-memory
    /// offset where an on-disk one belongs.
    CorruptData,
    /// A flush was asked of an index that was opened read-only.
    PermissionDenied,
    /// After a flush the file did not have the length that the flush expected.
    UnexpectedEof,
}

/// `Ok` of what is there, the corrupt-data error where nothing is.
pub open spec fn ok_or_corrupt<T>(v: Option<T>) -> Result<T, IndexError> {
    match v {
        Some(t) => Ok(t),
        None => Err(IndexError::CorruptData),
    }
}

} // verus!
