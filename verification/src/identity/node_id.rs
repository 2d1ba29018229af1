//! `NodeId`: a storage node.

use crate::codec::{le, le8, lemma_le_len, lemma_pow256, lemma_un_le_le, read_le, un_le};
use vstd::prelude::*;

verus! {

/// The identity of a storage node.
#[derive(Clone, Copy, Debug, PartialEq, Eq, Hash, PartialOrd, Ord, Structural)]
pub struct NodeId(pub u64);

/// The number of the one storage node of a single-node database.
pub const LOCAL_NODE_ID: u64 = 1;

impl NodeId {
    /// Little-endian wire form.
    pub fn to_bytes(self) -> (r: [u8; 8])
        ensures
            r@ == le(self.0 as nat, 8),
    {
        le8(self.0)
    }

    pub fn from_bytes(bytes: [u8; 8]) -> (r: Self)
        ensures
            r.0 == un_le(bytes@),
    {
        NodeId(read_le(bytes.as_slice()))
    }

    /// The wire form reads back as the identity it was made from.
    pub proof fn wire_round_trip(id: NodeId)
        ensures
            le(id.0 as nat, 8).len() == 8,
            un_le(le(id.0 as nat, 8)) == id.0,
    {
        lemma_pow256();
        lemma_le_len(id.0 as nat, 8);
        lemma_un_le_le(id.0 as nat, 8);
    }
}

} // verus!
