//! Immutable segments.
//!
//! A segment is `header | data blocks | index block | bloom block | footer`
//! (integers little-endian).
//!
//! Header: `AKSE | version u16 | data_block_count u32 | entry_count u64 |
//! key_min_len u32 | key_min | key_max_len u32 | key_max | seq_lo u64 |
//! seq_hi u64 | sha256-8(everything before)`
//!
//! Block: 28-byte header `AKBL | version u16 | type u8 | compression u8 |
//! entry_count u32 | compressed_size u32 | uncompressed_size u32 |
//! sha256-8(20-byte header + payload)` and the payload. Types: 0 data, 1
//! index, 2 bloom. Data blocks have version 1, 2 or 3, the others version 1.
//!
//! Entry: `shared_prefix_len u16 | key_suffix_len u16 | key_suffix |
//! value_len u32 | value | seq u64 | flags u8`, with `replica_id u64` behind
//! it in version 3. Entries ascend by key and descend by sequence, so that a
//! key's head is its first entry. A data payload of version 2 or 3 starts
//! with a restart table: `restart_interval u16 | restart_count u32 | restart
//! offsets u32`; an entry at a restart carries its full key.
//!
//! Index payload, per data block: `first_key_len u16 | first_key |
//! last_key_len u16 | last_key | block_offset u64 | entry_count u32`.
//!
//! Bloom payload: `m u32 | bits`, four probes by double hashing.
//!
//! Footer: `AKFT | version u16 | entry_count u64 | sha256-8(skeleton)`, where
//! the skeleton is everything but the data payloads. Structural damage fails
//! at open, payload damage at the read that touches the block.

pub mod block;
pub mod block_laws;
pub mod cached;
pub mod cached_many;
pub mod cached_scan;
pub mod cursor;
pub mod cursor_laws;
pub mod entry;
pub mod filter_laws;
pub mod layout_laws;
pub mod lookup;
pub mod open;
pub mod open_laws;
pub mod read;
pub mod read_laws;
pub mod write;

pub use entry::{SegmentEntry, FLAG_DELETE, FLAG_PUT, FLAG_VERSION};
