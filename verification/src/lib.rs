//! An incremental Merkle frontier for a fixed-depth note commitment tree.
//!
//! The frontier keeps the minimal state (rightmost leaf plus one ommer per
//! populated level) needed to extend an append-only binary hash tree and to
//! recompute its root against per-level empty-subtree constants. Batch
//! appends report when a subtree of height [`frontier::TRACKED_SUBTREE_HEIGHT`]
//! has just become fully populated, and the frontier round-trips through two
//! wire encodings.

pub mod hash;
pub mod frontier;
pub mod codec;
