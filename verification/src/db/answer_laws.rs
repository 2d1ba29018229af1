//! What callers are handed: the bytes of an answer, and no others.

use crate::compaction::merge::merged;
use crate::compaction::plan::{judged, Retention, RetentionPolicy};
use crate::compaction::retention_laws::{retention_places_every_row, rows_judged, rows_staying};
use crate::compaction::run::{inputs_of, merge_ok, Merged};
use crate::db::cached::after_chain;
use crate::db::compact::{compact_ok, compact_outcome, merges, CompactPlan};
use crate::db::flush::{flush_fits, mem_rows};
use crate::db::read::{db_get, db_get_object, probe_of, seg_answer, Probe};
use crate::db::scan::{db_scan, prefix_end, prefix_end_of, ScanRow};
use crate::db::state::{rotated, Db, DbV};
use crate::format::{ErrV, FormatError};
use crate::identity::directory::{
    identity_log_of, load_identity_logs, load_replica_logs, replica_log_of, IdentityLog,
    IdentityLogV, LogFile, ReplicaLog, ReplicaLogV,
};
use crate::identity::logical_id::LogicalId;
use crate::identity::object_id::{oid_number, ObjectId};
use crate::identity::replica_id::ReplicaId;
use crate::migration::MigrationReport;
use crate::placement::directory::{
    load_placement_logs, placement_log_of, Placement, PlacementLog, PlacementLogV,
};
use crate::cache::CacheV;
use crate::segment::entry::{EntryV, SegmentEntry};
use crate::segment::open::{SegV, SegmentReader};
use crate::segment::read::{
    locate_of, payload_at, seg_entry_at, seg_get, seg_get_rid, seg_scan, seg_versions,
};
use crate::placement::BlockId;
use crate::stats::ReadPathStats;
use vstd::prelude::*;

verus! {

// ---------------------------------------------------------------------------
// Reads
/// A value is handed out as it is, an empty one too; what is absent is nothing;
/// a failure is the failure.
pub open spec fn hands_out(
    r: Result<Option<Vec<u8>>, FormatError>,
    answer: Result<Option<Seq<u8>>, ErrV>,
) -> bool {
    &&& answer matches Ok(Some(v)) ==> r is Ok && r->Ok_0 is Some && r->Ok_0->0@ == v
    &&& answer == Ok::<Option<Seq<u8>>, ErrV>(None) ==> r is Ok && r->Ok_0 is None
    &&& answer matches Err(e) ==> r is Err && r->Err_0@ == e
}

/// Reads hand out what the key, or the object's row, holds.
pub proof fn reads_hand_out_the_value(
    db: &Db,
    key: &[u8],
    r: Result<Option<Vec<u8>>, FormatError>,
    oid: ObjectId,
    q: Result<Option<Vec<u8>>, FormatError>,
)
    requires
        call_ensures(Db::get, (db, key), r),
        call_ensures(Db::get_object, (db, oid, key), q),
    ensures
        hands_out(r, db_get(db@, key@)),
        hands_out(q, db_get_object(db@, oid@, key@)),
{
}

/// A batch hands out, for every position, what a read of that key does; and
/// fails only where one of those reads does.
pub proof fn batches_hand_out_every_value(
    db: &Db,
    keys: &Vec<&[u8]>,
    r: Result<Vec<Option<Vec<u8>>>, FormatError>,
    i: int,
)
    requires
        call_ensures(Db::get_many, (db, keys), r),
    ensures
        r matches Ok(v) ==> v@.len() == keys@.len() && (0 <= i < keys@.len() ==> (
        v@[i] is Some ==> db_get(db@, keys@[i]@) == Ok::<Option<Seq<u8>>, ErrV>(
            Some((v@[i]->0)@),
        )) && (v@[i] is None ==> db_get(db@, keys@[i]@) == Ok::<Option<Seq<u8>>, ErrV>(None))),
        r matches Err(e) ==> exists|k: int|
            0 <= k < keys@.len() && db_get(db@, (#[trigger] keys@[k])@) == Err::<
                Option<Seq<u8>>,
                ErrV,
            >(e@),
{
}

/// A scan hands out every row, in order, with its key and its value.
pub proof fn scans_hand_out_every_row(
    db: &Db,
    prefix: &[u8],
    r: Result<Vec<ScanRow>, FormatError>,
    i: int,
)
    requires
        call_ensures(Db::scan, (db, prefix), r),
    ensures
        db_scan(db@, prefix@) matches Ok(rows) ==> r is Ok && r->Ok_0@.len() == rows.len() && (0
            <= i < rows.len() ==> r->Ok_0@[i].0@ == rows[i].0 && r->Ok_0@[i].1@ == rows[i].1),
        db_scan(db@, prefix@) matches Err(e) ==> r is Err && r->Err_0@ == e,
{
    if r is Ok {
        assert(crate::db::scan::scan_rows_view(r->Ok_0@).len() == r->Ok_0@.len());
    }
}

/// The end of a prefix's range is handed out as it is.
pub proof fn range_ends_are_handed_out(prefix: &[u8], r: Option<Vec<u8>>)
    requires
        call_ensures(prefix_end, (prefix,), r),
    ensures
        prefix_end_of(prefix@) is Some <==> r is Some,
        r is Some ==> r->0@ == prefix_end_of(prefix@)->0,
{
}

/// An entry with all its fields.
pub open spec fn same_entry(e: SegmentEntry, v: EntryV) -> bool {
    e.key@ == v.key && e.value@ == v.value && e.seq == v.seq && e.flags == v.flags && e.replica_id
        == v.replica_id
}

/// An entry that may be.
pub open spec fn hands_entry(
    r: Result<Option<SegmentEntry>, FormatError>,
    answer: Result<Option<EntryV>, ErrV>,
) -> bool {
    &&& answer matches Ok(Some(v)) ==> r is Ok && r->Ok_0 is Some && same_entry(r->Ok_0->0, v)
    &&& answer == Ok::<Option<EntryV>, ErrV>(None) ==> r is Ok && r->Ok_0 is None
    &&& answer matches Err(e) ==> r is Err && r->Err_0@ == e
}

/// Entries in their order.
pub open spec fn hands_entries(
    r: Result<Vec<SegmentEntry>, FormatError>,
    answer: Result<Seq<EntryV>, ErrV>,
    i: int,
) -> bool {
    &&& answer matches Ok(v) ==> r is Ok && r->Ok_0@.len() == v.len() && (0 <= i < v.len()
        ==> same_entry(r->Ok_0@[i], v[i]))
    &&& answer matches Err(e) ==> r is Err && r->Err_0@ == e
}

/// A segment hands out whole entries.
pub proof fn segments_hand_out_whole_entries(
    s: &SegmentReader,
    key: &[u8],
    end: &[u8],
    rid: ReplicaId,
    block: BlockId,
    offset: u32,
    got: Result<Option<SegmentEntry>, FormatError>,
    own: Result<Option<SegmentEntry>, FormatError>,
    at: Result<Option<SegmentEntry>, FormatError>,
    versions: Result<Vec<SegmentEntry>, FormatError>,
    range: Result<Vec<SegmentEntry>, FormatError>,
    i: int,
)
    requires
        call_ensures(SegmentReader::get, (s, key), got),
        call_ensures(SegmentReader::get_by_rid, (s, key, rid), own),
        call_ensures(SegmentReader::entry_at, (s, block, offset), at),
        call_ensures(SegmentReader::versions, (s, key), versions),
        call_ensures(SegmentReader::scan, (s, key, end), range),
    ensures
        hands_entry(got, seg_get(s@, key@)),
        hands_entry(own, seg_get_rid(s@, key@, rid)),
        hands_entry(at, seg_entry_at(s@, block.0, offset)),
        hands_entries(versions, seg_versions(s@, key@), i),
        hands_entries(range, seg_scan(s@, key@, end@), i),
{
    if versions is Ok {
        let v = versions->Ok_0@;
        assert(crate::segment::entry::entries_view(v).len() == v.len());
    }
    if range is Ok {
        let v = range->Ok_0@;
        assert(crate::segment::entry::entries_view(v).len() == v.len());
    }
}

/// The directories of a database answer for what they hold.
pub proof fn directories_answer_for_what_they_hold(
    db: &Db,
    oid: ObjectId,
    lid: LogicalId,
    rid: ReplicaId,
    l: Option<LogicalId>,
    r: Option<ReplicaId>,
    p: Option<Placement>,
)
    requires
        call_ensures(Db::resolve_object, (db, oid), l),
        call_ensures(Db::resolve_local, (db, lid), r),
        call_ensures(Db::resolve_placement, (db, rid), p),
    ensures
        l is Some <==> db@.dirs.identity.contains_key(oid_number(oid@)),
        l is Some ==> l->0 == db@.dirs.identity[oid_number(oid@)],
        r is Some <==> db@.dirs.replicas.contains_key(lid.0),
        r is Some ==> r->0 == db@.dirs.replicas[lid.0],
        p is Some <==> db@.dirs.placements.contains_key(rid.0),
        p is Some ==> p->0 == db@.dirs.placements[rid.0],
{
}

// ---------------------------------------------------------------------------
// Logs
/// The identity logs of files: every one, in order, or the first failure.
pub proof fn identity_logs_are_all_loaded(
    files: &Vec<LogFile>,
    r: Result<Vec<IdentityLog>, FormatError>,
    i: int,
)
    requires
        call_ensures(load_identity_logs, (files,), r),
        0 <= i < files@.len(),
    ensures
        r matches Ok(logs) ==> {
            &&& logs@.len() == files@.len()
            &&& files@[i].bytes is Ok
            &&& identity_log_of(files@[i].bytes->Ok_0@) == Ok::<IdentityLogV, ErrV>(logs@[i]@)
            &&& logs@[i].generation == files@[i].generation
        },
        files@[i].bytes is Err ==> r is Err,
{
    if r is Ok {
        let l = r->Ok_0@[i];
        assert(crate::identity::directory::identity_file_log(files@[i]) == Ok::<
            IdentityLogV,
            ErrV,
        >(l@));
    }
}

/// The same of the replica logs.
pub proof fn replica_logs_are_all_loaded(
    files: &Vec<LogFile>,
    r: Result<Vec<ReplicaLog>, FormatError>,
    i: int,
)
    requires
        call_ensures(load_replica_logs, (files,), r),
        0 <= i < files@.len(),
    ensures
        r matches Ok(logs) ==> {
            &&& logs@.len() == files@.len()
            &&& files@[i].bytes is Ok
            &&& replica_log_of(files@[i].bytes->Ok_0@) == Ok::<ReplicaLogV, ErrV>(logs@[i]@)
            &&& logs@[i].generation == files@[i].generation
        },
        files@[i].bytes is Err ==> r is Err,
{
    if r is Ok {
        let l = r->Ok_0@[i];
        assert(crate::identity::directory::replica_file_log(files@[i]) == Ok::<ReplicaLogV, ErrV>(
            l@,
        ));
    }
}

/// The same of the placement logs.
pub proof fn placement_logs_are_all_loaded(
    files: &Vec<LogFile>,
    r: Result<Vec<PlacementLog>, FormatError>,
    i: int,
)
    requires
        call_ensures(load_placement_logs, (files,), r),
        0 <= i < files@.len(),
    ensures
        r matches Ok(logs) ==> {
            &&& logs@.len() == files@.len()
            &&& files@[i].bytes is Ok
            &&& placement_log_of(files@[i].bytes->Ok_0@) == Ok::<PlacementLogV, ErrV>(logs@[i]@)
            &&& logs@[i].generation == files@[i].generation
        },
        files@[i].bytes is Err ==> r is Err,
{
    if r is Ok {
        let l = r->Ok_0@[i];
        assert(crate::placement::directory::placement_file_log(files@[i]) == Ok::<
            PlacementLogV,
            ErrV,
        >(l@));
    }
}

// ---------------------------------------------------------------------------
// Compactions
/// A compaction that gives a plan had segments, all of which decoded; its
/// segments and its archive hold what the verdicts on the merged rows say, and
/// nothing else. Without segments there is no plan.
pub proof fn plans_hold_what_the_policy_says<P: RetentionPolicy>(
    s: DbV,
    r: Result<Option<CompactPlan>, FormatError>,
    policy: &P,
    target: nat,
    cap: nat,
    after: DbV,
) -> (w: (Seq<EntryV>, Seq<Retention>))
    requires
        compact_outcome(s, r, policy, target, cap, after),
    ensures
        s.segments.len() == 0 ==> r is Ok && r->Ok_0 is None && after == s,
        s.segments.len() > 0 && r is Ok ==> {
            let p = r->Ok_0->0;
            let n = w.0.len();
            &&& r->Ok_0 is Some
            &&& inputs_of(s.segments, s.segments.len()) matches Ok(all) && w.0 == merged(all)
            &&& judged(w.0, w.1, policy)
            &&& p.stats.segments_in == s.segments.len() as u64
            &&& p.stats.segments_out == p.chunks@.len() as u64
            &&& p.stats.entries_in == n as u64
            &&& p.stats.entries_out == rows_staying(w.0, w.1, n).len() as u64
            &&& p.stats.entries_archived == rows_judged(
                w.0,
                w.1,
                Retention::Archive,
                n,
            ).len() as u64
            &&& p.archives@.len() == 0 <==> rows_judged(w.0, w.1, Retention::Archive, n).len() == 0
            &&& p.chunks@.len() == 0 <==> rows_staying(w.0, w.1, n).len() == 0
        },
{
    if s.segments.len() > 0 && r is Ok {
        let p = r->Ok_0->0;
        let (m, list) = choose|m: Merged, list: Seq<u64>|
            merges(s, Ok(m), policy, target, cap) && #[trigger] compact_ok(s, p, m, list, after);
        let all = inputs_of(s.segments, s.segments.len())->Ok_0;
        let es = merged(all);
        let vs = choose|vs: Seq<Retention>| #[trigger]
            judged(es, vs, policy) && merge_ok(
                m,
                es,
                s.segments.len(),
                vs,
                target,
                cap,
                s.next_segment_id,
            );
        let parts = retention_places_every_row(
            m,
            es,
            s.segments.len(),
            vs,
            policy,
            target,
            cap,
            s.next_segment_id,
        );
        (es, vs)
    } else {
        (seq![], seq![])
    }
}

// ---------------------------------------------------------------------------
// Costs
/// Segment `m` is searched for the key, and has a block that may hold it.
pub open spec fn block_is_read(s: SegV, key: Seq<u8>) -> bool {
    probe_of(s, key) == Probe::Search && locate_of(s, key) is Some
}

/// The blocks that a lookup reads, newest segment first, until one answers.
pub open spec fn blocks_read_for(segs: Seq<SegV>, n: nat, key: Seq<u8>) -> nat
    decreases n,
{
    if n == 0 {
        0
    } else {
        let here: nat = if block_is_read(segs[n - 1], key) {
            1
        } else {
            0
        };
        if seg_answer(segs[n - 1], key) == Ok::<Option<EntryV>, ErrV>(None) {
            here + blocks_read_for(segs, (n - 1) as nat, key)
        } else {
            here
        }
    }
}

/// The blocks whose fingerprint must hold for that.
pub open spec fn blocks_sound(segs: Seq<SegV>, key: Seq<u8>) -> bool {
    forall|m: int|
        0 <= m < segs.len() && block_is_read(#[trigger] segs[m], key) ==> payload_at(
            segs[m],
            locate_of(segs[m], key)->0,
        ) is Ok
}

/// A lookup without a cache loads one block of each segment that it searches
/// and that may hold the key, and counts neither hits nor misses.
pub proof fn lookups_load_one_block_a_segment(
    c: CacheV,
    st: ReadPathStats,
    ids: Seq<u64>,
    segs: Seq<SegV>,
    n: nat,
    key: Seq<u8>,
)
    requires
        c.cap == 0,
        n <= segs.len(),
        blocks_sound(segs, key),
        st.blocks_read + n <= u64::MAX,
    ensures
        ({
            let (d, t) = after_chain(c, st, ids, segs, n, key);
            &&& d == c
            &&& t.blocks_read == st.blocks_read + blocks_read_for(segs, n, key)
            &&& blocks_read_for(segs, n, key) <= n
            &&& t.block_cache_hits == st.block_cache_hits
            &&& t.block_cache_misses == st.block_cache_misses
            &&& t.lookups == st.lookups
        }),
    decreases n,
{
    if n > 0 {
        let s = segs[n - 1];
        let (c1, st1) = crate::db::cached::after_one(c, st, ids[n - 1], s, key);
        assert(c1 == c);
        if block_is_read(s, key) {
            assert(payload_at(s, locate_of(s, key)->0) is Ok);
            assert(st1.blocks_read == st.blocks_read + 1);
        }
        if seg_answer(s, key) == Ok::<Option<EntryV>, ErrV>(None) {
            lookups_load_one_block_a_segment(c1, st1, ids, segs, (n - 1) as nat, key);
        }
    }
}

// ---------------------------------------------------------------------------
// Room and reports
/// A flush is denied for want of numbers only where the counters are near
/// their end.
pub proof fn flushes_have_room(s: DbV)
    requires
        s.generation < u64::MAX,
        s.next_segment_id <= 0x100_0000_0000_0000,
        rotated(s).immutables.len() <= 0x100_0000_0000_0000,
        s.next_placement_generation <= 0x100_0000_0000_0000,
        mem_rows(rotated(s).immutables) <= 0x100_0000_0000,
        usize::MAX == u64::MAX,
    ensures
        flush_fits(s),
{
}

/// A report begins with nothing counted, and names where the rows come from and
/// where they go; it has room as long as its counters have.
pub proof fn reports_begin_with_nothing(
    source: &str,
    dest_dir: &str,
    r: MigrationReport,
    ops: usize,
    room: bool,
)
    requires
        call_ensures(MigrationReport::begin, (source, dest_dir), r),
        call_ensures(MigrationReport::has_room, (&r, ops), room),
    ensures
        r.batches == 0,
        r.puts == 0,
        r.deletes == 0,
        r.keys == 0,
        !r.torn_tail_dropped,
        r.source@ == source@,
        r.dest_dir@ == dest_dir@,
        room,
{
}

} // verus!
