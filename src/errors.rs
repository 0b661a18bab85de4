//! The error type returned by tree operations.
use vstd::prelude::*;

verus! {

/// Errors returned by the tree operations of this crate.
#[derive(Debug, PartialEq, Eq)]
pub enum MannequinError {
    /// An arena position that lies outside the storage: an internal inconsistency.
    ReferenceOutOfBound(usize),
    /// No node carries this identifier.
    UnknownNode(String),
    /// The tree has no root yet.
    RootNotSet,
    /// The identifier is already taken by another node.
    NotUnique(String),
    /// A buffer does not have the length that the model needs.
    DimensionMismatch(usize),
}

} // verus!
