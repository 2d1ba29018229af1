//! Whether the counters of a database have room for an operation.

use crate::compaction::merge::{left_over, readable, readables};
use crate::db::compact::compact_fits;
use crate::db::flush::{flush_fits, mem_rows};
use crate::db::state::{can_reserve, Db, DbV};
use crate::memtable::MemV;
use crate::segment::entry::p_entries;
use crate::segment::open::{total_entries, BlockV, SegV, SegmentReader};
use crate::segment::read::block_at;
use vstd::prelude::*;

verus! {

/// The entries that the first `n` segments state.
pub open spec fn stated_entries(segs: Seq<SegV>, n: nat) -> nat
    decreases n,
{
    if n == 0 {
        0
    } else {
        stated_entries(segs, (n - 1) as nat) + total_entries(segs[n - 1].data)
    }
}

/// The segments' stated entries leave room for a compaction.
pub open spec fn compact_room(s: DbV) -> bool {
    let total = stated_entries(s.segments, s.segments.len());
    &&& 10 * total <= usize::MAX - 7
    &&& s.next_segment_id + total + 2 <= u64::MAX
    &&& s.generation < u64::MAX
    &&& s.next_placement_generation + s.dirs.placements.len() <= u64::MAX
}

proof fn lemma_entries_count(s: Seq<u8>, n: nat, v3: bool)
    ensures
        p_entries(s, n, v3) matches Ok(x) ==> x.0.len() == n,
    decreases n,
{
    if n > 0 {
        lemma_entries_count(s, (n - 1) as nat, v3);
    }
}

proof fn lemma_readable_count(s: SegV, i: int)
    requires
        0 <= i <= s.data.len(),
    ensures
        readable(s, i).len() <= total_entries(s.data) - total_entries(s.data.take(i)),
    decreases s.data.len() - i,
{
    if i < s.data.len() {
        lemma_readable_count(s, i + 1);
        assert(s.data.take(i + 1).drop_last() =~= s.data.take(i));
        assert(s.data.take(i + 1).last() == s.data[i]);
        reveal(block_at);
        if let Ok(p) = crate::segment::read::payload_at(s, i) {
            let n = s.data[i].entries as nat;
            if let Ok(start) = (if s.data[i].v2 {
                crate::segment::entry::p_table_len(p)
            } else {
                Ok(0int)
            }) {
                lemma_entries_count(p.skip(start), n, s.data[i].v3);
            }
        }
    } else {
        assert(s.data.take(i) =~= s.data);
    }
}

proof fn lemma_inputs_count(segs: Seq<SegV>, n: nat)
    requires
        n <= segs.len(),
    ensures
        left_over(readables(segs).take(n as int)) <= stated_entries(segs, n),
    decreases n,
{
    if n > 0 {
        lemma_inputs_count(segs, (n - 1) as nat);
        lemma_readable_count(segs[n - 1], 0);
        assert(segs[n - 1].data.take(0) =~= Seq::<BlockV>::empty());
        assert(readables(segs).take(n as int).drop_last() =~= readables(segs).take(n - 1));
    }
}

/// Where the stated entries leave room, a compaction can count what it reads:
/// a segment gives no more entries than it states.
pub proof fn stated_room_is_enough(s: DbV)
    requires
        compact_room(s),
    ensures
        compact_fits(s),
{
    lemma_inputs_count(s.segments, s.segments.len());
    assert(readables(s.segments).take(s.segments.len() as int) =~= readables(s.segments));
}

/// The sum of the entries that blocks state; more than `u64::MAX` is `None`.
fn sum_entries(seg: &SegmentReader, from: u64) -> (r: Option<u64>)
    ensures
        match r {
            Some(n) => n == from + total_entries(seg@.data),
            None => from + total_entries(seg@.data) > u64::MAX,
        },
{
    let mut sum: u64 = from;
    let mut i: usize = 0;
    assert(seg@.data.take(0) =~= Seq::<BlockV>::empty());
    while i < seg.data.len()
        invariant
            i <= seg.data@.len(),
            seg@.data.len() == seg.data@.len(),
            sum == from + total_entries(seg@.data.take(i as int)),
        decreases seg.data@.len() - i,
    {
        assert(seg@.data.take(i + 1).drop_last() =~= seg@.data.take(i as int));
        assert(seg@.data.take(i + 1).last() == seg.data@[i as int]@);
        let n: u64 = seg.data[i].entries as u64;
        if n > u64::MAX - sum {
            proof {
                lemma_total_grows(seg@.data, i + 1);
            }
            return None;
        }
        sum = sum + n;
        i += 1;
    }
    assert(seg@.data.take(i as int) =~= seg@.data);
    Some(sum)
}

proof fn lemma_total_grows(data: Seq<BlockV>, i: int)
    requires
        0 <= i <= data.len(),
    ensures
        total_entries(data.take(i)) <= total_entries(data),
    decreases data.len() - i,
{
    if i < data.len() {
        lemma_total_grows(data, i + 1);
        assert(data.take(i + 1).drop_last() =~= data.take(i));
    } else {
        assert(data.take(i) =~= data);
    }
}

proof fn lemma_stated_grows(segs: Seq<SegV>, i: nat, n: nat)
    requires
        i <= n,
    ensures
        stated_entries(segs, i) <= stated_entries(segs, n),
    decreases n,
{
    if i < n {
        lemma_stated_grows(segs, i, (n - 1) as nat);
    }
}

proof fn lemma_rows_push(mems: Seq<MemV>, m: MemV)
    ensures
        mem_rows(mems.push(m)) == mem_rows(mems) + m.rows.len(),
{
    assert(mems.push(m).drop_last() =~= mems);
}

impl Db {
    /// Whether the next sequence can be taken.
    pub fn can_write(&self) -> (r: bool)
        ensures
            r == (self@.next_seq < u64::MAX),
    {
        self.next_seq < u64::MAX
    }

    /// Whether an identity can be reserved.
    pub fn can_create(&self) -> (r: bool)
        ensures
            r == can_reserve(self@),
    {
        self.next_logical_id < u64::MAX && self.next_replica_id < u64::MAX
            && self.next_placement_generation < u64::MAX
    }

    /// Whether the counters have room for a flush.
    pub fn can_flush(&self) -> (r: bool)
        ensures
            r == flush_fits(self@),
    {
        let ghost s = self@;
        let mut rows: u128 = 0;
        let mut i: usize = 0;
        assert(s.immutables.take(0) =~= Seq::<MemV>::empty());
        while i < self.immutables.len()
            invariant
                i <= self.immutables@.len(),
                s == self@,
                s.immutables.len() == self.immutables@.len(),
                rows == mem_rows(s.immutables.take(i as int)),
                rows <= i * usize::MAX,
            decreases self.immutables@.len() - i,
        {
            let n: usize = self.immutables[i].entries.len();
            proof {
                assert(s.immutables.take(i + 1) =~= s.immutables.take(i as int).push(
                    s.immutables[i as int],
                ));
                lemma_rows_push(s.immutables.take(i as int), s.immutables[i as int]);
                assert(s.immutables[i as int].rows.len() == n);
                assert((i + 1) * usize::MAX == i * usize::MAX + usize::MAX) by (nonlinear_arith);
                assert(i * usize::MAX + usize::MAX <= u128::MAX) by (nonlinear_arith)
                    requires
                        i < usize::MAX,
                        usize::MAX <= 0xffff_ffff_ffff_ffff,
                ;
            }
            rows = rows + n as u128;
            i += 1;
        }
        assert(s.immutables.take(i as int) =~= s.immutables);
        let last: usize = self.active.entries.len();
        let mems: u128 = self.immutables.len() as u128 + if last > 0 {
            1u128
        } else {
            0u128
        };
        proof {
            lemma_rows_push(s.immutables, s.active);
            assert(s.active.rows.len() == last);
            assert(i * usize::MAX + usize::MAX <= u128::MAX) by (nonlinear_arith)
                requires
                    i <= usize::MAX,
                    usize::MAX <= 0xffff_ffff_ffff_ffff,
            ;
        }
        let all: u128 = rows + last as u128;
        if all > usize::MAX as u128 {
            return false;
        }
        self.generation < u64::MAX && self.next_segment_id as u128 + mems <= u64::MAX as u128
            && self.next_placement_generation as u128 + all <= u64::MAX as u128 && 10 * all
            <= usize::MAX as u128 - 7
    }

    /// Whether the counters have room for a compaction.
    pub fn can_compact(&self) -> (r: bool)
        ensures
            r == compact_room(self@),
            r ==> compact_fits(self@),
    {
        let ghost segs = self@.segments;
        let mut sum: u64 = 0;
        let mut i: usize = 0;
        while i < self.segments.len()
            invariant
                i <= self.segments@.len(),
                segs == self@.segments,
                segs.len() == self.segments@.len(),
                sum == stated_entries(segs, i as nat),
            decreases self.segments@.len() - i,
        {
            assert(segs[i as int] == self.segments@[i as int]@);
            match sum_entries(&self.segments[i], sum) {
                None => {
                    proof {
                        lemma_stated_grows(segs, (i + 1) as nat, segs.len());
                    }
                    return false;
                },
                Some(n) => {
                    sum = n;
                },
            }
            i += 1;
        }
        let total: u128 = sum as u128;
        let r = 10 * total <= usize::MAX as u128 - 7 && self.next_segment_id as u128 + total + 2
            <= u64::MAX as u128 && self.generation < u64::MAX
            && self.next_placement_generation as u128 + self.dirs.placements.len() as u128
            <= u64::MAX as u128;
        proof {
            if r {
                stated_room_is_enough(self@);
            }
        }
        r
    }
}

} // verus!
