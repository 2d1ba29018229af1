//! Placement: where a replica's row lies. The identifiers are types of their
//! own, never bare integers; the mutable directory is in [`directory`].

pub mod directory;
pub mod laws;

use crate::codec::{le, le4, le8, lemma_le_un_le, lemma_pow256, read_le, un_le};
use vstd::prelude::*;

pub use crate::identity::topology::{LocalPlacementResolver, PlacementResolver};
pub use directory::{
    merge_placement, orphan_placement_logs, placement_log_path, validate_segment_location,
    ApplyOutcome, PhysicalLocation, Placement, PlacementDirectory, PlacementLog, PlacementRecord,
};

verus! {

#[derive(Clone, Copy, Debug, PartialEq, Eq, Hash, PartialOrd, Ord, Structural)]
pub struct SegmentId(pub u64);

#[derive(Clone, Copy, Debug, PartialEq, Eq, Hash, PartialOrd, Ord, Structural)]
pub struct BlockId(pub u32);

impl SegmentId {
    /// Little-endian wire form.
    pub fn to_bytes(self) -> (r: [u8; 8])
        ensures
            r@ == le(self.0 as nat, 8),
    {
        le8(self.0)
    }

    pub fn from_bytes(bytes: [u8; 8]) -> (r: Self)
        ensures
            r.0 == un_le(bytes@),
    {
        SegmentId(read_le(bytes.as_slice()))
    }
}

impl BlockId {
    /// Little-endian wire form.
    pub fn to_bytes(self) -> (r: [u8; 4])
        ensures
            r@ == le(self.0 as nat, 4),
    {
        le4(self.0)
    }

    pub fn from_bytes(bytes: [u8; 4]) -> (r: Self)
        ensures
            r.0 == un_le(bytes@),
    {
        proof {
            lemma_pow256();
            lemma_le_un_le(bytes@);
        }
        let v: u64 = read_le(bytes.as_slice());
        BlockId(v as u32)
    }
}

} // verus!
