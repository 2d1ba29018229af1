//! `LogicalId`: the internal logical identity of an object, stable for its lifetime and apart from any physical placement.

use crate::codec::{le, le8, lemma_le_len, lemma_pow256, lemma_un_le_le, read_le, un_le};
use vstd::prelude::*;

verus! {

/// The internal logical identity.
#[derive(Clone, Copy, Debug, PartialEq, Eq, Hash, PartialOrd, Ord, Structural)]
pub struct LogicalId(pub u64);

impl LogicalId {
    /// Little-endian wire form.
    pub fn to_bytes(self) -> (r: [u8; 8])
        ensures
            r@ == le(self.0 as nat, 8),
    {
        le8(self.0)
    }

    pub fn from_bytes(bytes: [u8; 8]) -> (r: Self)
        ensures
            r.0 == un_le(bytes@),
    {
        LogicalId(read_le(bytes.as_slice()))
    }

    /// The wire form reads back as the identity it was made from.
    pub proof fn wire_round_trip(id: LogicalId)
        ensures
            le(id.0 as nat, 8).len() == 8,
            un_le(le(id.0 as nat, 8)) == id.0,
    {
        lemma_pow256();
        lemma_le_len(id.0 as nat, 8);
        lemma_un_le_le(id.0 as nat, 8);
    }
}

} // verus!
