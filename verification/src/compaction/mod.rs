//! Compaction: all segments merged into one run of bounded segments.
//!
//! The merge walks every entry of every input by ascending key, newest first
//! within a key. A key is a namespace that any number of replicas may share,
//! so the winner is per key and replica: the newest row of each replica
//! survives, its older rows do not. Rows of no replica form one group. The
//! merged output is the bottom level, so a deletion that wins drops its row,
//! unless an older row of its key survives: nothing below can come back.
//!
//! Retention is an input: the caller classifies each key as kept, dropped or
//! archived. Archived rows leave the live key space with all their versions.
//!
//! The output is cut into chunks of bounded size: live rows between two keys,
//! archived rows between any two. Identifiers come from one counter. A chunk is
//! published when the first row behind it comes, so a failure of it ends the
//! merge before a damaged block that the merge has not reached.

pub mod laws;
pub mod merge;
pub mod plan;
pub mod retention_laws;
pub mod run;

pub use plan::{KeepAll, Retention, RetentionPolicy};
pub use run::CompactStats;
