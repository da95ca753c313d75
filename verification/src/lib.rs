//! A small content-addressed version-control core: an object store keyed by
//! digest, a staging index, a builder that folds sorted paths into nested tree
//! objects, its inverse walker, and commit assembly over branch refs.
use vstd::prelude::*;

pub mod byteops;
pub mod hashing;
pub mod objects;
pub mod store;
pub mod index;
pub mod tree;
pub mod commit;
pub mod cli;

verus! {

/// The fatal error kinds of the library. Soft conditions (an empty index, a
/// detached head) are reported through outcome types, not through this enum.
#[derive(Clone, Copy, Debug, PartialEq, Eq, Structural)]
pub enum ItError {
    /// A requested object or ref is absent.
    NotFound,
    /// Object framing was violated on decode.
    MalformedObject,
    /// The compressed stream could not be decoded.
    CompressionFailure,
    /// A tree payload has a missing delimiter or a truncated child digest.
    MalformedTree,
    /// A staged path is both a file and a directory under one parent.
    NameConflict,
    /// Two distinct stored payloads met under one digest.
    HashCollision,
    /// A commit was attempted with nothing staged.
    EmptyIndex,
}

} // verus!
