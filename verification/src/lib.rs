//! A concurrent ordered map, implemented as an unbalanced binary search tree
//! behind a reader-writer lock, together with a set facade built on top of it.
//!
//! The tree algorithms themselves live in [`tree`] (with the nearest-key
//! query in [`nearest`] and successor queries in [`succ`]) and carry full
//! functional contracts over a `Map<u64, V>` abstraction; [`laws`] states
//! and proves the guarantees that span several operations.  The concurrent
//! wrappers in [`concurrent`] guard a well-formed tree with a verified
//! reader-writer lock, so the ordering invariant holds at every lock release.
use vstd::prelude::*;

pub mod concurrent;
pub mod laws;
pub mod nearest;
pub mod set;
pub mod succ;
pub mod tree;

verus! {

/// Depth bound used by the insert operations when a caller has no
/// domain-specific bound of its own: enough for one node per bit of the key.
pub const DEFAULT_MAX_DEPTH: u32 = 64;

/// Returned by the insert operations when the search path would need to go
/// deeper than the caller's depth bound before resolving.  The tree is left
/// unchanged by the failing call.
#[derive(Debug, Clone, Copy, PartialEq, Eq, Structural)]
pub struct MaxDepthReachedError;

impl MaxDepthReachedError {
    /// A human-readable description of the error.
    pub fn message(&self) -> &'static str {
        "insert would exceed max depth given"
    }
}

} // verus!
