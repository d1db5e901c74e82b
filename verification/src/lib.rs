//! An in-memory entity database built from a stream of log messages.
//!
//! A stream of immutable data chunks is inserted into an append-oriented
//! chunk store. On every mutation the store reports a diff, which the
//! database fans out to a set of derived views — a per-timeline time index,
//! a per-entity component index, a query cache and ingestion-latency
//! statistics — in a fixed order, so that every view always agrees with the
//! store's content when a mutating call returns.

pub mod ids;
pub mod path;
pub mod sums;
pub mod chunk;
pub mod store;
pub mod times;
pub mod tree;
pub mod query;
pub mod clock;
pub mod stats;
pub mod db;
pub mod colormap;
pub mod laws;

use vstd::prelude::*;

verus! {

/// Why a chunk could not be built from a wire payload; surfaced to the
/// caller of [`db::EntityDb::add`] with no partial mutation.
#[derive(Clone, Copy, PartialEq, Eq, Structural, Debug)]
pub enum ChunkError {
    /// The payload's rows do not line up with its declared timelines and
    /// components, or it has no rows at all.
    MalformedPayload,
}

} // verus!
