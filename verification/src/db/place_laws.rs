//! Placements lead to rows of their replicas, at every step of a database's
//! life; so a database that was left at any step opens again.

use crate::compaction::laws::{
    every_run_is_kept, holds, keeps_every_key, merge_orders_every_entry, merge_tells_rows_apart,
    merged_chunks_are_apart,
};
use crate::compaction::merge::merged;
use crate::compaction::plan::{cut, judged, live_rows, Retention, RetentionPolicy};
use crate::compaction::run::{
    chunk_is, homes_of, mentions, merge_ok, sticky, Home, LiveChunk, Merged, Relocation,
};
use crate::db::allocator_laws::{fresh_placements_are_let_in, gens_below};
use crate::db::compact::{
    compact_ok, lists_placed, merges, moved_to, moves, plan_moves, stray_replica, CompactPlan,
};
use crate::db::directories::DirV;
use crate::db::flush::{
    chunk_segs, flush_ok, flushed_as, location_of, place_all, records_of, settled,
    FlushPlan,
};
use crate::db::laws::{mems_fit, rows_fit};
use crate::db::open::{
    checkpoint_view, identity_recovered, last_with, named_ids, place_check, placements_recovered,
    places_check, recovers_to, recovery, replay_on, replicas_recovered, sound_places, top_frame,
    top_record_id, Files, Recovered,
};
use crate::db::publish_laws::{
    flushed_replicas_are_found, home_holds, homes_are_of_replicas, moved_replicas_are_found,
    parts_fit,
};
use crate::db::reach_laws::{
    all_kept, compacted, compaction_done, compaction_fits, lemma_inputs, lemma_made_reads, made_rows,
    reached,
};
use crate::db::recovery_laws::{
    committed, holds_segment, reopening_gives_the_database_back, segments_of,
};
use crate::db::scan_laws::{made_ok, MadeV};
use crate::db::state::{change_all, db_apply, rotated, DbV};
use crate::format::{ErrV, FormatError, ManifestV, SegmentRecordV};
use crate::identity::directory::LogFile;
use crate::identity::logical_id::LogicalId;
use crate::identity::replica_id::ReplicaId;
use crate::idmap::{lists_map, lookup, IdKey};
use crate::memtable::{has_replicas, mem_empty, MemV};
use crate::placement::directory::{build, gen_of, placed, Placement};
use crate::segment::entry::p_entries;
use crate::segment::open::SegV;
use crate::segment::read::{all_from, block_at, seg_entry_at};
use crate::segment::write::in_order;
use crate::wal::{frame_of, stream_bytes, stream_fits, OpV, WalFrameV};
use vstd::prelude::*;

verus! {

// ---------------------------------------------------------------------------
// The invariant
/// Records with identifiers of their own, all of them given.
pub open spec fn ids_apart(records: Seq<SegmentRecordV>, next: int) -> bool {
    &&& forall|i: int| 0 <= i < records.len() ==> (#[trigger] records[i]).segment_id < next
    &&& forall|i: int, j: int|
        #![trigger records[i], records[j]]
        0 <= i < j < records.len() ==> records[i].segment_id != records[j].segment_id
}

/// A placement in a segment leads to a row of its replica.
pub open spec fn leads(
    r: u64,
    p: Placement,
    records: Seq<SegmentRecordV>,
    segs: Seq<SegV>,
) -> bool {
    &&& place_check(r, p, records, segs) is Ok
    &&& match p {
        Placement::Segment(loc) => {
            let i = last_with(records, records.len(), loc.segment_id.0)->0;
            r != 0 && match seg_entry_at(segs[i], loc.block_id.0, loc.entry_offset) {
                Ok(Some(row)) => row.replica_id.0 == r,
                _ => false,
            }
        },
        _ => true,
    }
}

/// Every placement in a segment leads to a row of its replica.
pub open spec fn places_hold(
    m: Map<u64, Placement>,
    records: Seq<SegmentRecordV>,
    segs: Seq<SegV>,
) -> bool {
    forall|r: u64| #[trigger] m.contains_key(r) ==> leads(r, m[r], records, segs)
}

/// What holds of the placements at every step.
pub open spec fn placed_well(s: DbV) -> bool {
    ids_apart(s.records, s.next_segment_id as int) && places_hold(
        s.dirs.placements,
        s.records,
        s.segments,
    )
}

proof fn lemma_last_some(records: Seq<SegmentRecordV>, n: nat, id: u64)
    requires
        n <= records.len(),
    ensures
        last_with(records, n, id) matches Some(i) ==> 0 <= i < n && records[i].segment_id == id,
    decreases n,
{
    if n > 0 {
        lemma_last_some(records, (n - 1) as nat, id);
    }
}

proof fn lemma_last_is(records: Seq<SegmentRecordV>, n: nat, i: int, next: int)
    requires
        ids_apart(records, next),
        0 <= i < n <= records.len(),
    ensures
        last_with(records, n, records[i].segment_id) == Some(i),
    decreases n,
{
    if i < n - 1 {
        assert(records[i].segment_id != records[n - 1].segment_id);
        lemma_last_is(records, (n - 1) as nat, i, next);
    }
}

proof fn lemma_last_append(a: Seq<SegmentRecordV>, b: Seq<SegmentRecordV>, k: nat, id: u64)
    requires
        k <= b.len(),
        forall|i: int| 0 <= i < b.len() ==> (#[trigger] b[i]).segment_id != id,
    ensures
        last_with(a + b, a.len() + k, id) == last_with(a, a.len(), id),
    decreases k,
{
    if k > 0 {
        assert((a + b)[a.len() + k - 1] == b[k - 1]);
        lemma_last_append(a, b, (k - 1) as nat, id);
    } else {
        lemma_last_front(a, b, a.len(), id);
    }
}

proof fn lemma_last_front(a: Seq<SegmentRecordV>, b: Seq<SegmentRecordV>, n: nat, id: u64)
    requires
        n <= a.len(),
    ensures
        last_with(a + b, n, id) == last_with(a, n, id),
    decreases n,
{
    if n > 0 {
        lemma_last_front(a, b, (n - 1) as nat, id);
    }
}

/// A block gives as many entries as its header says.
proof fn lemma_entries_len(s: Seq<u8>, n: nat, v3: bool)
    ensures
        p_entries(s, n, v3) matches Ok((es, _)) ==> es.len() == n,
    decreases n,
{
    if n > 0 {
        lemma_entries_len(s, (n - 1) as nat, v3);
    }
}

proof fn lemma_block_len(s: SegV, i: int)
    ensures
        block_at(s, i) matches Ok(es) ==> es.len() == s.data[i].entries,
{
    reveal(block_at);
    if let Ok(es) = block_at(s, i) {
        let h = s.data[i].header;
        let p = s.bytes.subrange(h + 28, h + 28 + s.data[i].payload_len);
        let start = if s.data[i].v2 {
            crate::segment::entry::p_table_len(p)->Ok_0
        } else {
            0
        };
        lemma_entries_len(p.skip(start), s.data[i].entries as nat, s.data[i].v3);
    }
}

/// A home among the last records is a place that is there.
proof fn lemma_home_there(
    base: Seq<SegmentRecordV>,
    segs: Seq<SegV>,
    chunks: Seq<LiveChunk>,
    level: u8,
    next: int,
    r: u64,
    h: Home,
    generation: u64,
)
    requires
        base.len() == segs.len(),
        ids_apart(base + records_of(chunks, level), next),
        home_holds(chunks, chunks.len(), r, h),
        r != 0,
    ensures
        leads(
            r,
            location_of(h, generation),
            base + records_of(chunks, level),
            segs + chunk_segs(chunks),
        ),
{
    let records = base + records_of(chunks, level);
    let all = segs + chunk_segs(chunks);
    let i = choose|i: int|
        #![trigger chunks[i]]
        0 <= i < chunks.len() && chunks[i].segment_id == h.segment_id.0 && (seg_entry_at(
            chunks[i].reader@,
            h.block_id.0,
            h.entry_offset,
        ) matches Ok(Some(row)) && row.replica_id.0 == r && row.seq == h.seq);
    let at = base.len() + i;
    assert(records[at].segment_id == h.segment_id.0);
    lemma_last_is(records, records.len(), at, next);
    assert(all[at] == chunks[i].reader@);
    lemma_block_len(chunks[i].reader@, h.block_id.0 as int);
    assert(named_ids(records).contains(h.segment_id.0));
}

/// A placement that was there stays there when records join behind.
proof fn lemma_place_stays(
    base: Seq<SegmentRecordV>,
    segs: Seq<SegV>,
    chunks: Seq<LiveChunk>,
    level: u8,
    next: int,
    r: u64,
    p: Placement,
)
    requires
        base.len() == segs.len(),
        ids_apart(base + records_of(chunks, level), next),
        leads(r, p, base, segs),
    ensures
        leads(r, p, base + records_of(chunks, level), segs + chunk_segs(chunks)),
{
    let new = records_of(chunks, level);
    let records = base + new;
    if let Placement::Segment(loc) = p {
        let id = loc.segment_id.0;
        lemma_last_some(base, base.len(), id);
        let i = last_with(base, base.len(), id)->0;
        assert forall|k: int| 0 <= k < new.len() implies (#[trigger] new[k]).segment_id != id by {
            assert(records[i] == base[i]);
            assert(records[base.len() + k] == new[k]);
            assert(records[i].segment_id != records[base.len() + k].segment_id);
        }
        lemma_last_append(base, new, new.len(), id);
        assert((segs + chunk_segs(chunks))[i] == segs[i]);
        assert(named_ids(records).contains(id));
    }
}

// ---------------------------------------------------------------------------
// Steps
/// A new database has no placements.
pub proof fn new_database_is_placed_well(s: DbV)
    requires
        s.records.len() == 0,
        s.dirs.placements == Map::<u64, Placement>::empty(),
    ensures
        placed_well(s),
{
}

proof fn lemma_changes_place(m: MemV, d: DirV, seq: u64, ops: Seq<OpV>, n: nat)
    requires
        n <= ops.len(),
    ensures
        forall|r: u64| #[trigger]
            change_all(m, d, seq, ops, n).1.placements.contains_key(r) ==> (d.placements.contains_key(
                r,
            ) && d.placements[r] == change_all(m, d, seq, ops, n).1.placements[r]) || change_all(
                m,
                d,
                seq,
                ops,
                n,
            ).1.placements[r] is Memtable,
    decreases n,
{
    if n > 0 {
        lemma_changes_place(m, d, seq, ops, (n - 1) as nat);
    }
}

/// A batch leaves every placement where something is.
pub proof fn write_stays_placed_well(s: DbV, seq: u64, ops: Seq<OpV>)
    requires
        placed_well(s),
    ensures
        placed_well(db_apply(s, seq, ops).0),
{
    lemma_changes_place(s.active, s.dirs, seq, ops, ops.len());
    let after = db_apply(s, seq, ops).0;
    assert forall|r: u64| #[trigger] after.dirs.placements.contains_key(r) implies leads(
        r,
        after.dirs.placements[r],
        after.records,
        after.segments,
    ) by {
        if s.dirs.placements.contains_key(r) && s.dirs.placements[r] == after.dirs.placements[r] {
            assert(leads(r, s.dirs.placements[r], s.records, s.segments));
        }
    }
}

/// A flush leaves every placement where something is.
pub proof fn flush_stays_placed_well(
    s: DbV,
    made: Seq<MadeV>,
    p: FlushPlan,
    homes: Seq<(u64, Home)>,
    target: nat,
    planned: DbV,
)
    requires
        reached(s, made),
        placed_well(s),
        flush_ok(rotated(s), p, homes, target, planned),
        mems_fit(rotated(s).immutables, target),
        s.next_placement_generation + homes.len() <= u64::MAX,
        s.next_segment_id + rotated(s).immutables.len() <= u64::MAX,
    ensures
        placed_well(DbV { segments: planned.segments + chunk_segs(p.chunks@), ..planned }),
{
    let t = rotated(s);
    let chunks = p.chunks@;
    let new = records_of(chunks, 0);
    let records = s.records + new;
    let segs = s.segments + chunk_segs(chunks);
    let next = planned.next_segment_id as int;
    assert forall|k: int| 0 <= k < chunks.len() implies (#[trigger] new[k]).segment_id
        == s.next_segment_id + k by {
        assert(flushed_as(chunks[k], t.immutables[k], t.next_segment_id + k, target));
    }
    assert(ids_apart(records, next)) by {
        assert forall|i: int| 0 <= i < records.len() implies (#[trigger] records[i]).segment_id < next by {
            if i < s.records.len() {
                assert(records[i] == s.records[i]);
            } else {
                assert(records[i] == new[i - s.records.len()]);
            }
        }
        assert forall|i: int, j: int|
            #![trigger records[i], records[j]]
            0 <= i < j < records.len() implies records[i].segment_id != records[j].segment_id by {
            if i < s.records.len() {
                assert(records[i] == s.records[i]);
            } else {
                assert(records[i] == new[i - s.records.len()]);
            }
            if j < s.records.len() {
                assert(records[j] == s.records[j]);
            } else {
                assert(records[j] == new[j - s.records.len()]);
            }
        }
    }
    assert forall|i: int, j: int|
        #![trigger homes[i], homes[j]]
        0 <= i < j < homes.len() implies homes[i].0 < homes[j].0 by {
        assert(homes[i].0.before(homes[j].0));
    }
    fresh_placements_are_let_in(t.dirs, t.next_placement_generation, homes, homes.len());
    let after = place_all(t.dirs, t.next_placement_generation, homes, homes.len()).0.placements;
    let parts = t.immutables.map_values(|m: MemV| m.rows);
    let v3s = t.immutables.map_values(|m: MemV| has_replicas(m.rows));
    assert forall|i: int| 0 <= i < chunks.len() implies chunk_is(
        #[trigger] chunks[i],
        parts[i],
        target,
        v3s[i],
    ) by {
        assert(flushed_as(chunks[i], t.immutables[i], t.next_segment_id + i, target));
    }
    homes_are_of_replicas(chunks, parts, v3s, target, chunks.len());
    assert forall|r: u64| #[trigger] after.contains_key(r) implies leads(
        r,
        after[r],
        records,
        segs,
    ) by {
        if exists|i: int| 0 <= i < homes.len() && (#[trigger] homes[i]).0 == r {
            let i = choose|i: int| 0 <= i < homes.len() && (#[trigger] homes[i]).0 == r;
            let m = homes_of(chunks, chunks.len());
            assert(m.contains_key(homes[i].0) && m[homes[i].0] == homes[i].1);
            flushed_replicas_are_found(chunks, t.immutables, t.next_segment_id, target, r);
            lemma_home_there(
                s.records,
                s.segments,
                chunks,
                0,
                next,
                r,
                homes[i].1,
                (t.next_placement_generation + i) as u64,
            );
        } else {
            assert(lookup(after, r) == lookup(t.dirs.placements, r));
            assert(s.dirs.placements.contains_key(r));
            lemma_place_stays(
                s.records,
                s.segments,
                chunks,
                0,
                next,
                r,
                s.dirs.placements[r],
            );
        }
    }
}

/// Where the moves of a compaction leave each replica.
proof fn lemma_moves_built(
    places: Map<u64, Placement>,
    list: Seq<u64>,
    m: Map<u64, Relocation>,
    first: u64,
    n: nat,
)
    requires
        n <= list.len(),
        first + list.len() <= u64::MAX,
        gens_below(places, first as int),
        forall|i: int, j: int| #![trigger list[i], list[j]] 0 <= i < j < list.len() ==> list[i]
            < list[j],
        moves(list, m, first, n).2 is Ok,
    ensures
        build(places, moves(list, m, first, n).0) is Ok,
        gens_below(build(places, moves(list, m, first, n).0)->Ok_0, first + n),
        forall|k: int|
            0 <= k < n ==> m.contains_key(#[trigger] list[k]) && build(
                places,
                moves(list, m, first, n).0,
            )->Ok_0.contains_key(list[k]) && build(places, moves(list, m, first, n).0)->Ok_0[list[k]]
                == moved_to(m[list[k]], (first + k) as u64),
        forall|r: u64|
            (forall|k: int| 0 <= k < n ==> #[trigger] list[k] != r) ==> #[trigger] lookup(
                build(places, moves(list, m, first, n).0)->Ok_0,
                r,
            ) == lookup(places, r),
    decreases n,
{
    if n > 0 {
        lemma_moves_built(places, list, m, first, (n - 1) as nat);
        let front = moves(list, m, first, (n - 1) as nat).0;
        let recs = moves(list, m, first, n).0;
        assert(recs.drop_last() =~= front);
        let d = build(places, front)->Ok_0;
        let rec = recs.last();
        assert(gen_of(rec.placement) == first + n - 1);
        let after = placed(d, rec.rid, rec.placement);
        assert(after == d.insert(list[n - 1], rec.placement));
        assert forall|k: int| 0 <= k < n implies m.contains_key(#[trigger] list[k])
            && after.contains_key(list[k]) && after[list[k]] == moved_to(
            m[list[k]],
            (first + k) as u64,
        ) by {
            if k < n - 1 {
                assert(list[k] < list[n - 1]);
            }
        }
        assert forall|r: u64|
            (forall|k: int| 0 <= k < n ==> #[trigger] list[k] != r) implies #[trigger] lookup(
            after,
            r,
        ) == lookup(places, r) by {
            assert(list[n - 1] != r);
            assert(lookup(after, r) == lookup(d, r));
        }
    }
}

/// A compaction that keeps every key leaves every placement where something
/// is.
pub proof fn compaction_stays_placed_well<P: RetentionPolicy>(
    s: DbV,
    made: Seq<MadeV>,
    p: CompactPlan,
    m: Merged,
    list: Seq<u64>,
    planned: DbV,
    target: nat,
    cap: nat,
    policy: &P,
)
    requires
        reached(s, made),
        keeps_every_key(policy),
        placed_well(s),
        merges(s, Ok(m), policy, target, cap),
        compact_ok(s, p, m, list, planned),
        s.next_placement_generation + list.len() <= u64::MAX,
        compaction_fits(made, target, cap),
    ensures
        placed_well(compaction_done(planned, p)),
{
    lemma_inputs(s, made);
    let rows = made_rows(made);
    let es = merged(rows);
    let vs = choose|vs: Seq<Retention>| #[trigger]
        judged(es, vs, policy) && merge_ok(
            m,
            es,
            s.segments.len(),
            vs,
            target,
            cap,
            s.next_segment_id,
        );
    every_run_is_kept(es, vs, policy);
    assert(vs =~= all_kept(es));
    merge_orders_every_entry(rows);
    merge_tells_rows_apart(rows);
    merged_chunks_are_apart(m, es, s.segments.len(), vs, target, cap, s.next_segment_id);
    let chunks = cut(live_rows(es, vs), cap);
    assert(parts_fit(chunks, target)) by {
        assert forall|k: int| 0 <= k < chunks.len() implies in_order(#[trigger] chunks[k])
            && chunks[k].len() > 0 && rows_fit(
            chunks[k],
            target,
            sticky(chunks, (k + 1) as nat),
        ) by {
            assert(rows_fit(compacted(made, cap)[k], target, sticky(chunks, (k + 1) as nat)));
        }
    }
    let records = records_of(m.live@, 1);
    let segs = chunk_segs(m.live@);
    let none = Seq::<SegmentRecordV>::empty();
    let nosegs = Seq::<SegV>::empty();
    assert(none + records =~= records);
    assert(nosegs + segs =~= segs);
    let next = planned.next_segment_id as int;
    assert(ids_apart(records, next)) by {
        assert forall|i: int| 0 <= i < records.len() implies (#[trigger] records[i]).segment_id < next by {
            assert(m.live@[i].segment_id < m.next_id);
        }
        assert forall|i: int, j: int|
            #![trigger records[i], records[j]]
            0 <= i < j < records.len() implies records[i].segment_id != records[j].segment_id by {
            assert(m.live@[i].segment_id < m.live@[j].segment_id);
        }
    }
    let first = s.next_placement_generation;
    lemma_moves_built(s.dirs.placements, list, m.relocations@, first, list.len());
    let recs = moves(list, m.relocations@, first, list.len()).0;
    assert(plan_moves(p) =~= recs) by {
        match p.placements {
            Some(l) => {
                assert(l@.records == l.records@);
            },
            None => {},
        }
    }
    let after = build(s.dirs.placements, recs)->Ok_0;
    assert forall|r: u64| #[trigger] after.contains_key(r) implies leads(
        r,
        after[r],
        records,
        segs,
    ) by {
        if list.contains(r) {
            let k = choose|k: int| 0 <= k < list.len() && list[k] == r;
            assert(m.relocations@.contains_key(list[k]));
            let to = m.relocations@[r];
            assert(lookup(m.relocations@, r) == Some(to));
            moved_replicas_are_found(
                m,
                es,
                s.segments.len(),
                vs,
                target,
                cap,
                s.next_segment_id,
                r,
            );
            if let Some(loc) = to {
                let h = choose|h: Home|
                    h.segment_id == loc.0 && h.block_id == loc.1 && h.entry_offset == loc.2
                        && #[trigger] home_holds(m.live@, m.live@.len(), r, h);
                lemma_home_there(none, nosegs, m.live@, 1, next, r, h, (first + k) as u64);
            }
        } else {
            assert forall|k: int| 0 <= k < list.len() implies #[trigger] list[k] != r by {
                assert(list.contains(list[k]));
            }
            assert(lookup(after, r) == lookup(s.dirs.placements, r));
            assert(s.dirs.placements.contains_key(r));
            assert(!(s.dirs.placements[r] is Segment));
        }
    }
}

proof fn lemma_in_blocks(s: SegV, b: int, at: int, offset: int)
    requires
        0 <= at <= b < s.data.len(),
        all_from(s, at) is Ok,
        block_at(s, b) is Ok,
        0 <= offset < block_at(s, b)->Ok_0.len(),
    ensures
        all_from(s, at)->Ok_0.contains(block_at(s, b)->Ok_0[offset]),
    decreases s.data.len() - at,
{
    let es = block_at(s, at)->Ok_0;
    let rest = all_from(s, at + 1)->Ok_0;
    let x = block_at(s, b)->Ok_0[offset];
    if at == b {
        assert((es + rest)[offset] == x);
    } else {
        lemma_in_blocks(s, b, at + 1, offset);
        let k = choose|k: int| 0 <= k < rest.len() && rest[k] == x;
        assert((es + rest)[es.len() + k] == x);
    }
}

proof fn lemma_moves_known(
    list: Seq<u64>,
    m: Map<u64, Relocation>,
    first: u64,
    n: nat,
)
    requires
        n <= list.len(),
        forall|k: int| 0 <= k < list.len() ==> lookup(m, #[trigger] list[k]) is Some,
    ensures
        moves(list, m, first, n).2 is Ok,
    decreases n,
{
    if n > 0 {
        lemma_moves_known(list, m, first, (n - 1) as nat);
        assert(lookup(m, list[n - 1]) is Some);
    }
}

/// A compaction knows of every replica whose row lies in a segment.
pub proof fn compaction_knows_every_replica<P: RetentionPolicy>(
    s: DbV,
    made: Seq<MadeV>,
    e: FormatError,
    m: Merged,
    list: Seq<u64>,
    target: nat,
    cap: nat,
    after: DbV,
    policy: &P,
)
    requires
        reached(s, made),
        keeps_every_key(policy),
        placed_well(s),
        merges(s, Ok(m), policy, target, cap),
    ensures
        !stray_replica(s, e, m, list, after),
{
    lemma_inputs(s, made);
    let rows = made_rows(made);
    let es = merged(rows);
    merge_orders_every_entry(rows);
    if lists_placed(list, s.dirs.placements) {
        assert forall|k: int| 0 <= k < list.len() implies lookup(
            m.relocations@,
            #[trigger] list[k],
        ) is Some by {
            let r = list[k];
            assert(list.contains(r));
            assert(s.dirs.placements.contains_key(r));
            assert(leads(r, s.dirs.placements[r], s.records, s.segments));
            if let Placement::Segment(loc) = s.dirs.placements[r] {
                lemma_last_some(s.records, s.records.len(), loc.segment_id.0);
                let i = last_with(s.records, s.records.len(), loc.segment_id.0)->0;
                let seg = s.segments[i];
                let b = loc.block_id.0 as int;
                assert(made_ok(made[i]));
                assert(has_replicas(made[i].rows) ==> made[i].v3);
                lemma_made_reads(made[i]);
                lemma_in_blocks(seg, b, 0, loc.entry_offset as int);
                let row = block_at(seg, b)->Ok_0[loc.entry_offset as int];
                assert(rows[i].contains(row));
                assert(holds(rows, row));
                assert(es.contains(row));
                let z = choose|z: int| 0 <= z < es.len() && es[z] == row;
                assert(es[z].replica_id.0 == r);
                assert(mentions(es, r));
            }
        }
        lemma_moves_known(list, m.relocations@, s.next_placement_generation, list.len());
    }
}

// ---------------------------------------------------------------------------
// Opening again
proof fn lemma_checked(
    list: Seq<(u64, Placement)>,
    n: nat,
    m: Map<u64, Placement>,
    records: Seq<SegmentRecordV>,
    segs: Seq<SegV>,
)
    requires
        lists_map(list, m),
        n <= list.len(),
        places_hold(m, records, segs),
    ensures
        places_check(list, n, records, segs) is Ok,
    decreases n,
{
    if n > 0 {
        lemma_checked(list, (n - 1) as nat, m, records, segs);
        assert(m.contains_key(list[n - 1].0));
        assert(leads(list[n - 1].0, m[list[n - 1].0], records, segs));
    }
}

/// A database that was left at any step opens again: what its files hold is
/// accepted, whatever was torn off the log's end, and what comes back is what
/// the acknowledged batches left. `base` is the database as the files without
/// the log hold it.
pub proof fn opening_again_succeeds(
    base: DbV,
    before: DbV,
    current: u64,
    m: ManifestV,
    f: Files,
    made: Seq<MadeV>,
    fs: Seq<WalFrameV>,
    torn: Seq<u8>,
    r: Result<Recovered, FormatError>,
)
    requires
        placed_well(base),
        base.active == mem_empty(),
        base.immutables.len() == 0,
        base.segments == segments_of(made),
        base.dirs == settled(base.dirs),
        committed(base, fs, fs.len()) == Ok::<DbV, ErrV>(before),
        m.generation == current,
        m.segments == base.records,
        identity_recovered(checkpoint_view(f.checkpoint), f.identity@) == Ok::<
            Map<u128, LogicalId>,
            ErrV,
        >(base.dirs.identity),
        replicas_recovered(checkpoint_view(f.checkpoint), f.replicas@) == Ok::<
            Map<u64, ReplicaId>,
            ErrV,
        >(base.dirs.replicas),
        placements_recovered(checkpoint_view(f.checkpoint), f.placements@) == Ok::<
            Map<u64, Placement>,
            ErrV,
        >(base.dirs.placements),
        f.segments@.len() == made.len(),
        forall|i: int|
            0 <= i < made.len() ==> made_ok(#[trigger] made[i]) && holds_segment(
                f.segments@[i],
                made[i],
            ),
        stream_fits(fs, None),
        f.wal@ == stream_bytes(fs) + torn,
        forall|p: int| 0 <= p < torn.len() ==> frame_of(#[trigger] torn.skip(p)) is Err,
        recovery(r, current, m, f),
    ensures
        r is Ok,
        recovers_to(
            r->Ok_0,
            m,
            before.segments,
            (
                before.active,
                before.dirs,
                stream_bytes(fs).len() as int,
                top_frame(fs, fs.len()),
            ),
            f.orphan_placements@,
        ),
{
    reopening_gives_the_database_back(
        base,
        before,
        current,
        m,
        f,
        made,
        fs,
        torn,
        seq![],
        seq![],
    );
    let check = choose|check: Result<(), ErrV>| #[trigger]
        sound_places(check, base.dirs.placements, m.segments, base.segments) && match check {
            Err(e) => r is Err && r->Err_0@ == e,
            Ok(_) => match replay_on(base.dirs, f.wal@) {
                Err(e) => r is Err && r->Err_0@ == e,
                Ok(replay) => r is Ok && recovers_to(
                    r->Ok_0,
                    m,
                    base.segments,
                    replay,
                    f.orphan_placements@,
                ),
            },
        };
    let list = choose|list: Seq<(u64, Placement)>|
        lists_map(list, base.dirs.placements) && check == #[trigger] places_check(
            list,
            list.len(),
            m.segments,
            base.segments,
        );
    lemma_checked(list, list.len(), base.dirs.placements, m.segments, base.segments);
}

proof fn lemma_top_id(records: Seq<SegmentRecordV>, n: nat, i: int)
    requires
        0 <= i < n <= records.len(),
    ensures
        records[i].segment_id <= top_record_id(records, n),
    decreases n,
{
    if i < n - 1 {
        lemma_top_id(records, (n - 1) as nat, i);
    }
}

/// What comes back is placed as it was.
pub proof fn opening_stays_placed_well(
    before: DbV,
    x: Recovered,
    m: ManifestV,
    replay: (MemV, DirV, int, u64),
    orphans: Seq<LogFile>,
    after: DbV,
)
    requires
        placed_well(before),
        m.segments == before.records,
        recovers_to(x, m, before.segments, replay, orphans),
        replay.1 == before.dirs,
        x.room(),
        after.records == before.records,
        after.segments == before.segments,
        after.dirs == before.dirs,
        after.next_segment_id == x.last_segment_id + 1,
    ensures
        placed_well(after),
{
    assert forall|i: int| 0 <= i < after.records.len() implies (
    #[trigger] after.records[i]).segment_id < after.next_segment_id by {
        lemma_top_id(m.segments, m.segments.len(), i);
    }
}

} // verus!
