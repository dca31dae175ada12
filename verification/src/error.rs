//! The error kinds that store operations surface to callers.

use vstd::prelude::*;

verus! {

/// Why a store operation failed.
#[derive(Clone, Copy, Debug, PartialEq, Eq, Structural)]
pub enum StoreError {
    /// The requested hash is not in the store.
    NotFound,
    /// Verification against the root hash failed, or a hash sequence did not
    /// parse.
    InvalidData,
    /// A size disagrees with an existing partial entry, a tag name is empty
    /// or too long, or a batch item lies outside the declared size.
    InvalidArgument,
    /// A freshly allocated tag name collided with an existing one.
    AlreadyExists,
    /// The underlying storage failed.
    Io,
    /// The receiver of a progress stream is gone.
    Cancelled,
    /// An internal invariant was violated.
    Internal,
}

} // verus!
