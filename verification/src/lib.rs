//! A mutable, in-memory tree for structured markup documents, together
//! with the adapter surface an external tree-construction algorithm
//! drives, a serializer that renders trees back to markup text, a generic
//! visitor engine for content-rewriting passes, and the passes and record
//! repositories built on top of them.
//!
//! The tree lives in an arena addressed by stable integer handles; every
//! operation keeps parent links and child lists mutually consistent,
//! coalesces adjacent text at insertion time, and refuses edits that would
//! make a node a descendant of itself.

pub mod dom;
pub mod reference;
pub mod search;
pub mod repository;
pub mod rich_text;
pub mod idgen;
pub mod strmap;
pub mod serialize;
pub mod text;
pub mod visitor;

use vstd::prelude::*;

verus! {

/// Structural errors: each one indicates a bug in the calling code
/// (a parser adapter or a pass), not bad input data.
#[derive(Debug, Clone, Copy, PartialEq, Eq, Structural)]
pub enum DomError {
    /// The child already has a parent; detach it first.
    AlreadyParented,
    /// The reference sibling has no parent.
    NoParent,
    /// Template contents were requested from a non-template element.
    NotATemplate,
    /// An element-only operation was applied to a non-element node.
    NotAnElement,
    /// A bare `Document` node cannot be serialized directly.
    NotSerializable,
    /// The operation would make a node a descendant of itself.
    WouldCycle,
    /// A `Document` node can never become a child.
    DocumentAsChild,
    /// The structure is deeper than the node count allows for an acyclic
    /// tree: a corrupt structure, diagnosed rather than looped over.
    TooDeep,
}

} // verus!
