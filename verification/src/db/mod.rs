//! The database state: log, memtable, flush, segments.
//!
//! A write takes a sequence, goes to the log, passes the durability boundary,
//! is applied to the memtable, and is acknowledged. One frame is one batch is
//! one sequence. A flush makes the memtable immutable and publishes it as a
//! segment; segment files come first, then the directory logs, the manifest,
//! CURRENT, and last the log is emptied, so that every interruption can be
//! recovered. This module decides and computes; files, locks and threads
//! belong to the caller, which hands in what was read and writes what comes
//! out.

use crate::text::{join, join_spec, pad6, Text};
use vstd::prelude::*;

pub mod allocator_laws;
pub mod answer_laws;
pub mod batch_laws;
pub mod cached;
pub mod checkpoint_laws;
pub mod compact;
pub mod compact_laws;
pub mod count_laws;
pub mod directories;
pub mod flush;
pub mod group;
pub mod laws;
pub mod limit_laws;
pub mod many;
pub mod batch;
pub mod open;
pub mod open_laws;
pub mod place_laws;
pub mod plan_laws;
pub mod prune_laws;
pub mod publish_laws;
pub mod reach_laws;
pub mod read;
pub mod recover_laws;
pub mod recovery_laws;
pub mod room;
pub mod scan;
pub mod scan_cost_laws;
pub mod scan_failure;
pub mod scan_pulls;
pub mod scan_laws;
pub mod state;
pub mod write_laws;

pub use state::Db;

pub use crate::wal::Op;
pub use crate::segment::write::segment_path;

verus! {

pub const LOCK_FILE: &'static str = "LOCK";

pub const WAL_FILE: &'static str = "WAL-000001.log";

pub const DEFAULT_MEMTABLE_BYTES: usize = 67108864;

/// Reads decode a part of one block, so their cost grows with the block size.
pub const DEFAULT_BLOCK_TARGET: usize = 16384;

pub const DEFAULT_GROUP_BATCH_OPS: usize = 4096;

pub const DEFAULT_GROUP_BATCH_BYTES: usize = 16777216;

pub const DEFAULT_CACHE_BYTES: usize = 8388608;

pub const DEFAULT_L0_COMPACT_TRIGGER: usize = 4;

pub const DEFAULT_L0_TIER_RATIO: usize = 1;

pub const DEFAULT_MERGE_CHUNK_BYTES: usize = 67108864;

pub fn manifest_path(dir: &str, generation: u64) -> (r: String)
    ensures
        r@ == join_spec(dir@, "MANIFEST-"@ + pad6(generation as nat)),
{
    let name = Text::new("MANIFEST-").pad6(generation).done();
    join(dir, name.as_str())
}

/// When a write is durable. `Sync` syncs every batch, `GroupCommit` every
/// group of batches, `Async` none.
#[derive(Debug, Clone, Copy, PartialEq, Eq, Structural)]
pub enum DurabilityMode {
    Sync,
    GroupCommit,
    Async,
}

impl Default for DurabilityMode {
    fn default() -> (r: Self)
        ensures
            r == DurabilityMode::Sync,
    {
        DurabilityMode::Sync
    }
}

#[derive(Debug, Clone)]
pub struct Config {
    pub dir: String,
    pub memtable_bytes: usize,
    pub block_target: usize,
    pub durability: DurabilityMode,
    /// A group holds at most this many changes; a larger batch goes alone.
    pub max_batch_ops: usize,
    /// A group holds at most this many bytes; a larger batch goes alone.
    pub max_batch_bytes: usize,
    /// How long a group waits for company, in nanoseconds.
    pub max_wait_nanos: u64,
    /// The cap of the block cache; 0 turns it off.
    pub cache_bytes: usize,
    /// How many level-0 segments set off a compaction; 0 turns it off.
    pub l0_compact_trigger: usize,
    /// A compaction waits until level 0 holds this fraction of level 1; 0
    /// counts segments only.
    pub l0_tier_ratio: usize,
    /// The cap of a compaction's chunks; 0 makes one segment.
    pub merge_chunk_bytes: usize,
}

impl Config {
    pub fn new(dir: String) -> (r: Self)
        ensures
            r.dir == dir,
            r.memtable_bytes == DEFAULT_MEMTABLE_BYTES,
            r.block_target == DEFAULT_BLOCK_TARGET,
            r.durability == DurabilityMode::Sync,
            r.max_batch_ops == DEFAULT_GROUP_BATCH_OPS,
            r.max_batch_bytes == DEFAULT_GROUP_BATCH_BYTES,
            r.max_wait_nanos == 0,
            r.cache_bytes == DEFAULT_CACHE_BYTES,
            r.l0_compact_trigger == DEFAULT_L0_COMPACT_TRIGGER,
            r.l0_tier_ratio == DEFAULT_L0_TIER_RATIO,
            r.merge_chunk_bytes == DEFAULT_MERGE_CHUNK_BYTES,
    {
        Config {
            dir,
            memtable_bytes: DEFAULT_MEMTABLE_BYTES,
            block_target: DEFAULT_BLOCK_TARGET,
            durability: DurabilityMode::Sync,
            max_batch_ops: DEFAULT_GROUP_BATCH_OPS,
            max_batch_bytes: DEFAULT_GROUP_BATCH_BYTES,
            max_wait_nanos: 0,
            cache_bytes: DEFAULT_CACHE_BYTES,
            l0_compact_trigger: DEFAULT_L0_COMPACT_TRIGGER,
            l0_tier_ratio: DEFAULT_L0_TIER_RATIO,
            merge_chunk_bytes: DEFAULT_MERGE_CHUNK_BYTES,
        }
    }
}

} // verus!
