//! What the counters count, how large batches and groups are, and when a
//! compaction is due.

use crate::db::batch::batch_size;
use crate::db::compact::{due, ground_count, level_bytes};
use crate::db::group::{group_bytes, group_ops, is_full, takes};
use crate::db::read::{chain_counts, probe_counts, probe_of, seg_answer};
use crate::db::Config;
use crate::format::{ErrV, SegmentRecordV};
use crate::segment::entry::EntryV;
use crate::segment::open::SegV;
use crate::stats::{Counts, ReadPathStats};
use crate::wal::OpV;
use vstd::prelude::*;

verus! {

// ---------------------------------------------------------------------------
// Lookups
/// Every segment that a lookup meets is counted once, under what became of it:
/// passed over for its range, denied by its filter, or searched. Segments are
/// met newest first; the one that answers ends the lookup.
pub proof fn every_segment_is_counted_once(segs: Seq<SegV>, n: nat, key: Seq<u8>)
    requires
        n <= segs.len(),
    ensures
        ({
            let c = chain_counts(segs, n, key);
            &&& c.considered == c.range_skipped + c.bloom_skipped + c.searched
            &&& c.considered <= n
            &&& (forall|m: int|
                0 <= m < n ==> seg_answer(#[trigger] segs[m], key) == Ok::<Option<EntryV>, ErrV>(
                    None,
                )) ==> c.considered == n
            &&& n > 0 && seg_answer(segs[n - 1], key) != Ok::<Option<EntryV>, ErrV>(None)
                ==> c.considered == 1
        }),
    decreases n,
{
    if n > 0 {
        every_segment_is_counted_once(segs, (n - 1) as nat, key);
    }
}

/// One segment: a key outside its bounds is passed over, one that its filter
/// denies is counted apart, and any other is searched.
pub proof fn a_segment_is_counted_by_its_probe(s: SegV, key: Seq<u8>)
    ensures
        ({
            let c = probe_counts(probe_of(s, key));
            &&& c.considered == 1
            &&& (c.range_skipped == 1 <==> crate::codec::lex_lt(key, s.key_min)
                || crate::codec::lex_lt(s.key_max, key))
            &&& c.range_skipped + c.bloom_skipped + c.searched == 1
            &&& c.bloom_skipped == 1 ==> s.bloom_m > 0
        }),
{
    reveal(probe_of);
}

/// The counters of a lookup: each moves by its own count, and no other moves.
pub proof fn each_counter_counts_its_own(st: ReadPathStats, lookups: nat, hits: nat, c: Counts)
    requires
        st.lookups + lookups <= u64::MAX,
        st.memtable_hits + hits <= u64::MAX,
        st.segments_considered + c.considered <= u64::MAX,
        st.segments_range_skipped + c.range_skipped <= u64::MAX,
        st.segments_bloom_skipped + c.bloom_skipped <= u64::MAX,
        st.segments_index_searched + c.searched <= u64::MAX,
    ensures
        st.looked_up(lookups, hits, c) == (ReadPathStats {
            lookups: (st.lookups + lookups) as u64,
            memtable_hits: (st.memtable_hits + hits) as u64,
            segments_considered: (st.segments_considered + c.considered) as u64,
            segments_range_skipped: (st.segments_range_skipped + c.range_skipped) as u64,
            segments_bloom_skipped: (st.segments_bloom_skipped + c.bloom_skipped) as u64,
            segments_index_searched: (st.segments_index_searched + c.searched) as u64,
            ..st
        }),
{
}

/// The counters of a block: a hit or a miss of the cache; a load, with its
/// bytes; the entries that were decoded.
pub proof fn each_load_is_counted(st: ReadPathStats, n: nat)
    requires
        st.block_cache_hits < u64::MAX,
        st.block_cache_misses < u64::MAX,
        st.blocks_read < u64::MAX,
        st.bytes_read + n <= u64::MAX,
        st.entries_decoded + n <= u64::MAX,
    ensures
        st.cache_asked(true) == (ReadPathStats {
            block_cache_hits: (st.block_cache_hits + 1) as u64,
            ..st
        }),
        st.cache_asked(false) == (ReadPathStats {
            block_cache_misses: (st.block_cache_misses + 1) as u64,
            ..st
        }),
        st.block_loaded(n) == (ReadPathStats {
            blocks_read: (st.blocks_read + 1) as u64,
            bytes_read: (st.bytes_read + n) as u64,
            ..st
        }),
        st.entries_read(n) == (ReadPathStats {
            entries_decoded: (st.entries_decoded + n) as u64,
            ..st
        }),
{
}

// ---------------------------------------------------------------------------
// Batches and groups
/// The size of a batch is the sum over its changes: the key and the value, 8
/// more for a replica, 40 for a creation.
pub proof fn batches_are_measured_by_their_changes(s: Seq<OpV>, m: OpV)
    ensures
        batch_size(seq![]) == 0,
        batch_size(s.push(m)) == batch_size(s) + (match m {
            OpV::Put(k, v) => k.len() + v.len(),
            OpV::Delete(k) => k.len(),
            OpV::PutObject(_, k, v) => k.len() + v.len() + 8,
            OpV::DeleteObject(_, k) => k.len() + 8,
            OpV::CreateObject { .. } => 40,
        }),
{
    assert(s.push(m).drop_last() =~= s);
}

/// A group counts every change and every byte of its batches. It takes a batch
/// exactly where neither cap is passed by it, and is full once it has reached
/// one.
pub proof fn groups_are_measured_by_their_batches(
    s: Seq<Seq<OpV>>,
    b: Seq<OpV>,
    config: Config,
)
    ensures
        group_ops(seq![]) == 0,
        group_bytes(seq![]) == 0,
        group_ops(s.push(b)) == group_ops(s) + b.len(),
        group_bytes(s.push(b)) == group_bytes(s) + batch_size(b),
        takes(s, b, config) <==> group_ops(s.push(b)) <= config.max_batch_ops && group_bytes(
            s.push(b),
        ) <= config.max_batch_bytes,
        is_full(s, config) <==> !(group_ops(s) < config.max_batch_ops && group_bytes(s)
            < config.max_batch_bytes),
{
    assert(s.push(b).drop_last() =~= s);
}

// ---------------------------------------------------------------------------
// Compactions
/// The records of the ground level.
pub open spec fn on_ground(records: Seq<SegmentRecordV>) -> Seq<SegmentRecordV> {
    records.filter(|r: SegmentRecordV| r.level == 0)
}

/// The records above it.
pub open spec fn above_ground(records: Seq<SegmentRecordV>) -> Seq<SegmentRecordV> {
    records.filter(|r: SegmentRecordV| r.level != 0)
}

/// The bytes of their files.
pub open spec fn bytes_of(records: Seq<SegmentRecordV>) -> nat
    decreases records.len(),
{
    if records.len() == 0 {
        0
    } else {
        records[0].file_size as nat + bytes_of(records.skip(1))
    }
}

proof fn lemma_bytes_push(records: Seq<SegmentRecordV>, r: SegmentRecordV)
    ensures
        bytes_of(records.push(r)) == bytes_of(records) + r.file_size,
    decreases records.len(),
{
    let all = records.push(r);
    if records.len() == 0 {
        assert(all.skip(1) =~= seq![]);
        assert(bytes_of(all.skip(1)) == 0);
    } else {
        lemma_bytes_push(records.skip(1), r);
        assert(all.skip(1) =~= records.skip(1).push(r));
        assert(all[0] == records[0]);
    }
}

proof fn lemma_levels(records: Seq<SegmentRecordV>)
    ensures
        ground_count(records) == on_ground(records).len(),
        level_bytes(records, true) == bytes_of(on_ground(records)),
        level_bytes(records, false) == bytes_of(above_ground(records)),
    decreases records.len(),
{
    reveal(Seq::filter);
    if records.len() > 0 {
        let front = records.drop_last();
        lemma_levels(front);
        lemma_bytes_push(on_ground(front), records.last());
        lemma_bytes_push(above_ground(front), records.last());
    }
}

/// A write sets a compaction off exactly where there is a trigger, the ground
/// level has that many segments, and its bytes are not too few against those
/// above it: their share by the ratio, unless there is no ratio or nothing
/// above.
pub proof fn compactions_wait_for_the_ground_level(
    records: Seq<SegmentRecordV>,
    trigger: nat,
    ratio: nat,
)
    ensures
        trigger == 0 ==> !due(records, trigger, ratio),
        on_ground(records).len() < trigger ==> !due(records, trigger, ratio),
        0 < trigger <= on_ground(records).len() && (ratio == 0 || bytes_of(above_ground(records))
            == 0) ==> due(records, trigger, ratio),
        0 < trigger <= on_ground(records).len() && ratio > 0 && bytes_of(above_ground(records)) > 0
            ==> (due(records, trigger, ratio) <==> bytes_of(on_ground(records)) >= bytes_of(
            above_ground(records),
        ) / ratio),
{
    lemma_levels(records);
}

} // verus!
