//! Statistical windowing and indexing engine for a vehicle-position feed.
//!
//! Samples of per-vehicle update intervals and feed latencies are aggregated
//! into fixed windows; each window yields an immutable chunk holding the
//! window's percentile statistics and per-entity records classified by rank.
//! Chunks are merged idempotently into a live, retention-pruned index that
//! answers history, statistics and anomaly queries.
use vstd::prelude::*;

pub mod aggregator;
pub mod index;
pub mod model;
pub mod percentile;

verus! {

pub use crate::model::ChunkFile;
pub use crate::model::Percentiles;
pub use crate::model::Record;
pub use crate::model::SystemStats;
pub use crate::percentile::calc_percentiles;
pub use crate::aggregator::WindowAggregator;
pub use crate::index::LiveIndex;
pub use crate::index::ScoredBus;

/// Number of seconds a record or window statistic is retained, both in
/// persisted chunks and in the live index.
pub const RETENTION_SECONDS: u64 = 172800;

/// The retention cutoff for a given current time: data with timestamps below
/// this bound may be dropped.
pub fn retention_cutoff(now: u64) -> (cutoff: u64)
    ensures
        cutoff == if now >= RETENTION_SECONDS {
            (now - RETENTION_SECONDS) as u64
        } else {
            0u64
        },
{
    if now >= RETENTION_SECONDS {
        now - RETENTION_SECONDS
    } else {
        0
    }
}

} // verus!
