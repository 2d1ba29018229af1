//! The size of a batch, as the caps of a group count it.

use crate::wal::{ops_view, Op, OpV};
use vstd::prelude::*;

verus! {

/// The bytes of a change, as the caps of a group count them: keys and values,
/// 8 for a replica, 40 for the fixed width of a new object.
pub open spec fn op_size(m: OpV) -> nat {
    match m {
        OpV::Put(k, v) => k.len() + v.len(),
        OpV::Delete(k) => k.len(),
        OpV::PutObject(_, k, v) => 8 + k.len() + v.len(),
        OpV::DeleteObject(_, k) => 8 + k.len(),
        OpV::CreateObject { .. } => 40,
    }
}

/// The bytes of a batch.
pub open spec fn batch_size(s: Seq<OpV>) -> nat
    decreases s.len(),
{
    if s.len() == 0 {
        0
    } else {
        batch_size(s.drop_last()) + op_size(s.last())
    }
}

/// The bytes of one change.
pub fn op_size_of(m: &Op) -> (r: u128)
    ensures
        r == op_size(m@),
        r < 0x4_0000_0000_0000_0000,
{
    match m {
        Op::Put(k, v) => k.len() as u128 + v.len() as u128,
        Op::Delete(k) => k.len() as u128,
        Op::PutObject(_, k, v) => 8 + k.len() as u128 + v.len() as u128,
        Op::DeleteObject(_, k) => 8 + k.len() as u128,
        Op::CreateObject { .. } => 40,
    }
}

/// The number of changes in a batch.
pub fn batch_ops_of(batch: &Vec<Op>) -> (r: usize)
    ensures
        r == batch@.len(),
{
    batch.len()
}

proof fn lemma_batch_grows(s: Seq<OpV>, i: nat)
    requires
        i <= s.len(),
    ensures
        batch_size(s.take(i as int)) <= batch_size(s),
    decreases s.len() - i,
{
    if i < s.len() {
        lemma_batch_grows(s, i + 1);
        assert(s.take((i + 1) as int).drop_last() =~= s.take(i as int));
    } else {
        assert(s.take(i as int) =~= s);
    }
}

/// The bytes of a batch, as the caps of a group count them.
pub fn batch_bytes_of(batch: &Vec<Op>) -> (r: usize)
    requires
        batch_size(ops_view(batch@)) <= usize::MAX,
    ensures
        r == batch_size(ops_view(batch@)),
{
    let ghost v = ops_view(batch@);
    let mut total: usize = 0;
    let mut i: usize = 0;
    assert(v.take(0) =~= seq![]);
    while i < batch.len()
        invariant
            i <= batch@.len(),
            v == ops_view(batch@),
            batch_size(v) <= usize::MAX,
            total == batch_size(v.take(i as int)),
        decreases batch@.len() - i,
    {
        proof {
            lemma_batch_grows(v, (i + 1) as nat);
            assert(v.take(i + 1).drop_last() =~= v.take(i as int));
            assert(v.take(i + 1).last() == batch@[i as int]@);
        }
        total = total + op_size_of(&batch[i]) as usize;
        i += 1;
    }
    assert(v.take(i as int) =~= v);
    total
}

} // verus!
