//! A log-structured storage engine: write-ahead log, immutable segments,
//! manifest, identity and placement directories, compaction, and the
//! decisions of the server in front of it.
//!
//! Everything here works on plain values: bytes in, bytes out. Files, sockets,
//! locks and clocks belong to the program around the library.

pub mod cache;
pub mod cache_laws;
pub mod canonical;
pub mod checkpoint;
pub mod codec;
pub mod compaction;
pub mod db;
pub mod engine;
pub mod format;
pub mod hash;
pub mod identity;
pub mod idmap;
pub mod layout_laws;
pub mod listing;
pub mod listing_laws;
pub mod memtable;
pub mod migration;
pub mod migration_laws;
pub mod placement;
pub mod segment;
pub mod server;
pub mod sort;
pub mod stats;
pub mod table;
pub mod text;
pub mod text_laws;
pub mod wal;
