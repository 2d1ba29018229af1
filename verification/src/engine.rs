//! The storage contract over the database: batches of puts and deletions.

use crate::codec::to_vec;
use crate::wal::{ops_view, Op, OpV};
use crate::format::{error_text, FormatError};
use crate::text::Text;
use vstd::prelude::*;

verus! {

/// A batch of the storage contract.
pub struct WriteBatch {
    pub puts: Vec<(Vec<u8>, Vec<u8>)>,
    pub dels: Vec<Vec<u8>>,
}

/// The puts as changes.
pub open spec fn put_changes(s: Seq<(Vec<u8>, Vec<u8>)>) -> Seq<OpV> {
    s.map_values(|p: (Vec<u8>, Vec<u8>)| OpV::Put(p.0@, p.1@))
}

/// The deletions as changes.
pub open spec fn del_changes(s: Seq<Vec<u8>>) -> Seq<OpV> {
    s.map_values(|k: Vec<u8>| OpV::Delete(k@))
}

/// A batch as changes: puts before deletions, so that a key in both ends
/// deleted.
pub open spec fn batch_changes(b: WriteBatch) -> Seq<OpV> {
    put_changes(b.puts@) + del_changes(b.dels@)
}

impl WriteBatch {
    pub fn is_empty(&self) -> (r: bool)
        ensures
            r == (batch_changes(*self).len() == 0),
    {
        self.puts.len() == 0 && self.dels.len() == 0
    }

    /// The changes of a batch; none where the batch is empty, which changes
    /// nothing and is never written.
    pub fn to_ops(&self) -> (r: Option<Vec<Op>>)
        ensures
            match r {
                Some(ops) => ops_view(ops@) == batch_changes(*self) && ops@.len() > 0,
                None => batch_changes(*self).len() == 0,
            },
    {
        if self.is_empty() {
            return None;
        }
        let ghost puts = put_changes(self.puts@);
        let ghost dels = del_changes(self.dels@);
        let mut ops: Vec<Op> = Vec::new();
        let mut i: usize = 0;
        assert(ops_view(ops@) =~= puts.take(0));
        while i < self.puts.len()
            invariant
                i <= self.puts@.len(),
                puts == put_changes(self.puts@),
                ops_view(ops@) == puts.take(i as int),
            decreases self.puts@.len() - i,
        {
            let ghost before = ops_view(ops@);
            let m = Op::Put(
                to_vec(self.puts[i].0.as_slice()),
                to_vec(self.puts[i].1.as_slice()),
            );
            let ghost mv = m@;
            ops.push(m);
            assert(ops_view(ops@) =~= before.push(mv));
            assert(puts.take(i + 1) =~= before.push(mv));
            i += 1;
        }
        assert(puts.take(i as int) + dels.take(0) =~= puts);
        assert(puts.take(i as int) =~= puts);
        let mut j: usize = 0;
        while j < self.dels.len()
            invariant
                j <= self.dels@.len(),
                puts == put_changes(self.puts@),
                dels == del_changes(self.dels@),
                ops_view(ops@) == puts + dels.take(j as int),
            decreases self.dels@.len() - j,
        {
            let ghost before = ops_view(ops@);
            let m = Op::Delete(to_vec(self.dels[j].as_slice()));
            let ghost mv = m@;
            ops.push(m);
            assert(ops_view(ops@) =~= before.push(mv));
            assert(puts + dels.take(j + 1) =~= before.push(mv));
            j += 1;
        }
        assert(dels.take(j as int) =~= dels);
        assert(ops_view(ops@).len() == ops@.len());
        Some(ops)
    }
}

/// An error as the storage contract reports it.
pub fn store_error(e: &FormatError) -> (r: String)
    ensures
        r@ == "aikoql-v2: "@ + error_text(e@),
{
    let t = e.to_text();
    Text::new("aikoql-v2: ").lit(t.as_str()).done()
}

} // verus!
