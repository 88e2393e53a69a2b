//! The error type of the library.

use vstd::prelude::*;

verus! {

/// The conditions under which an operation of this library refuses its input.
#[derive(Debug, Clone, Copy, PartialEq, Eq, Structural)]
pub enum InferError {
    /// A requirement on tensor dimensions does not hold. Nothing was written.
    ShapeMismatch,
    /// The key/value cache has no room for the positions to be appended.
    CacheCapacityExceeded,
}

} // verus!
