//! The state compressor of a Matrix homeserver: it stores, deduplicates and
//! reconstructs room state snapshots as a tree of diffs bounded to four
//! layers, with a short-ID registry for the identifiers the snapshots are
//! made of, a bounded cache of reconstructed parent stacks, and a committer
//! that turns a room's new full state into a stored diff.

use vstd::prelude::*;

pub mod cache;
pub mod canon;
pub mod codec;
pub mod compressor;
pub mod framing;
pub mod merge;
pub mod registry;
pub mod sets;
pub mod store;

verus! {

/// Failures the compressor can report to its caller.
#[derive(Clone, Copy, PartialEq, Eq, Structural, Debug)]
pub enum CompressorError {
    /// A short ID was looked up but never issued, or a diff record is
    /// missing for a minted short state hash.
    NotFound,
    /// A stored parent link does not point strictly below its child, so
    /// walking it could cycle.
    Corruption,
}

} // verus!
