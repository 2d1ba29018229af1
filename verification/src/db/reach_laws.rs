//! What holds of a database at every step of its life.
//!
//! One invariant holds of a new database and is kept by every write,
//! rotation, flush and compaction, and by opening again. From it follows that
//! none of these steps but a write changes what is read or scanned.

use crate::codec::lemma_lex_total;
use crate::compaction::laws::{
    all_in_order, chunks_do_not_overlap, chunks_keep_rows, chunks_stay_in_order, every_run_is_kept,
    holds, keeps_all, keeps_every_key, layered, live_rows_stay_in_order, live_rows_were_there,
    merge_orders_every_entry, merge_tells_rows_apart, newer_above,
};
use crate::compaction::merge::merged;
use crate::compaction::plan::{
    archived_rows, cut, head_run, judged, lemma_run_len, live_rows, pieces, runs, Retention,
    RetentionPolicy,
};
use crate::compaction::run::{
    archive_slot, inputs_of, live_id, live_ok, merge_fails, merge_ok, sticky, Home, LiveChunk,
    Merged,
};
use crate::db::allocator_laws::{
    ahead, flush_keeps_allocators_ahead, issued, moves_are_let_in, opening_starts_ahead,
    writes_keep_allocators_ahead,
};
use crate::db::compact::{compact_ok, merges, moves, plan_moves, CompactPlan};
use crate::db::compact_laws::{
    answers_plainly, answers_replica, compaction_changes_no_plain_read,
    compaction_changes_no_replica_read,
};
use crate::db::directories::DirV;
use crate::db::flush::{
    chunk_segs, flush_ok, flushed_as, flushes, place_all, record_of, records_of, FlushPlan,
};
use crate::db::laws::{
    chunk_is_what_was_written, flush_changes_no_read, mems_fit, rotation_changes_no_read, rows_fit,
    segment_answers_for_the_replica, segment_answers_with_the_newest,
};
use crate::db::open::{
    larger, opened, recovers_to, replayed, top_frame, top_generation, top_record_seq, Recovered,
};
use crate::db::publish_laws::{merge_of_fitting_rows_succeeds, parts_fit};
use crate::db::read::{db_get, db_get_object, mem_layers};
use crate::db::recovery_laws::{committed, lemma_committed};
use crate::db::scan::db_scan;
use crate::db::scan_laws::{made_ok, made_seg, scans_follow_reads, sound, MadeV};
use crate::db::state::{change_all, db_apply, replica_of, rotated, DbV};
use crate::format::{ErrV, FormatError, ManifestV, SegmentRecordV};
use crate::identity::directory::LogFile;
use crate::identity::logical_id::LogicalId;
use crate::identity::replica_id::ReplicaId;
use crate::memtable::{
    has_replicas, lemma_first_any, lemma_row_value, lemma_with_row, mem_empty, mem_ok, row_of,
    value_of, with_row, write_is_read_back, MemV,
};
use crate::placement::directory::{build, files_max_generation, left_by, Placement};
use crate::segment::block::split;
use crate::segment::block_laws::{first_rid, stored, stored_all};
use crate::segment::entry::EntryV;
use crate::segment::open::SegV;
use crate::segment::read::all_from;
use crate::segment::read_laws::segment_keeps_every_entry;
use crate::segment::write::{in_order, max_seq};
use crate::wal::{OpV, WalFrameV};
use vstd::prelude::*;

verus! {

// ---------------------------------------------------------------------------
// The invariant
/// The rows of written segments.
pub open spec fn made_rows(made: Seq<MadeV>) -> Seq<Seq<EntryV>> {
    made.map_values(|m: MadeV| m.rows)
}

/// Every layer of a database, oldest first: the segments, then memory.
pub open spec fn layers(s: DbV, made: Seq<MadeV>) -> Seq<Seq<EntryV>> {
    made_rows(made) + mem_layers(s)
}

/// Every row is older than the batch that takes `next`.
pub open spec fn rows_below(all: Seq<Seq<EntryV>>, next: int) -> bool {
    forall|i: int, k: int|
        0 <= i < all.len() && 0 <= k < all[i].len() ==> (#[trigger] all[i][k]).seq < next
}

/// Segments with replicas keep them, and each record tells the newest
/// sequence of its segment.
pub open spec fn recorded_as(records: Seq<SegmentRecordV>, made: Seq<MadeV>) -> bool {
    &&& records.len() == made.len()
    &&& forall|i: int|
        0 <= i < made.len() ==> (has_replicas((#[trigger] made[i]).rows) ==> made[i].v3)
            && records[i].seq_hi == max_seq(made[i].rows)
}

/// No replica is number zero.
pub open spec fn replicas_named(d: DirV) -> bool {
    forall|k: u64| #[trigger] d.replicas.contains_key(k) ==> d.replicas[k].0 != 0
}

/// What holds of a database at every step: its layers are in order, newer
/// above older; every row is older than the next batch; and the allocators are
/// ahead of everything in use.
pub open spec fn reached(s: DbV, made: Seq<MadeV>) -> bool {
    &&& sound(s, made)
    &&& recorded_as(s.records, made)
    &&& newer_above(layers(s, made))
    &&& rows_below(layers(s, made), s.next_seq as int)
    &&& ahead(s)
    &&& replicas_named(s.dirs)
    &&& s.next_replica_id > 0
}

proof fn lemma_layer(s: DbV, made: Seq<MadeV>, i: int)
    requires
        0 <= i < layers(s, made).len(),
    ensures
        layers(s, made).len() == made.len() + s.immutables.len() + 1,
        i < made.len() ==> layers(s, made)[i] == made[i].rows,
        made.len() <= i < made.len() + s.immutables.len() ==> layers(s, made)[i]
            == s.immutables[i - made.len()].rows,
        i == made.len() + s.immutables.len() ==> layers(s, made)[i] == s.active.rows,
{
}

// ---------------------------------------------------------------------------
// A new database
/// A new database is a step of its life.
pub proof fn new_database_is_reached(s: DbV)
    requires
        s.active == mem_empty(),
        s.immutables.len() == 0,
        s.segments.len() == 0,
        s.records.len() == 0,
        s.dirs.identity == Map::<u128, LogicalId>::empty(),
        s.dirs.replicas == Map::<u64, ReplicaId>::empty(),
        s.dirs.placements == Map::<u64, Placement>::empty(),
        s.next_replica_id > 0,
    ensures
        reached(s, seq![]),
{
    let l = layers(s, seq![]);
    assert forall|i: int| 0 <= i < l.len() implies (#[trigger] l[i]).len() == 0 by {
        lemma_layer(s, seq![], i);
    }
}

// ---------------------------------------------------------------------------
// Writes
/// What a batch of one sequence does to rows that are not newer.
pub proof fn lemma_batch(m: MemV, d: DirV, seq: u64, ops: Seq<OpV>, n: nat)
    requires
        n <= ops.len(),
        in_order(m.rows),
    ensures
        in_order(change_all(m, d, seq, ops, n).0.rows),
        forall|x: EntryV| #[trigger]
            change_all(m, d, seq, ops, n).0.rows.contains(x) ==> x.seq == seq || m.rows.contains(x),
        forall|x: EntryV| #[trigger]
            m.rows.contains(x) && x.seq != seq ==> change_all(
                m,
                d,
                seq,
                ops,
                n,
            ).0.rows.contains(x),
    decreases n,
{
    if n > 0 {
        lemma_batch(m, d, seq, ops, (n - 1) as nat);
        let (m1, d1, r1) = change_all(m, d, seq, ops, (n - 1) as nat);
        match ops[n - 1] {
            OpV::Put(k, v) => {
                lemma_with_row(m1.rows, row_of(k, seq, Some(v), ReplicaId(0)));
            },
            OpV::Delete(k) => {
                lemma_with_row(m1.rows, row_of(k, seq, None, ReplicaId(0)));
            },
            OpV::PutObject(r, k, v) => {
                lemma_with_row(m1.rows, row_of(k, seq, Some(v), r));
            },
            OpV::DeleteObject(r, k) => {
                lemma_with_row(m1.rows, row_of(k, seq, None, r));
            },
            OpV::CreateObject { .. } => {},
        }
    }
}

proof fn lemma_batch_named(m: MemV, d: DirV, s: DbV, seq: u64, ops: Seq<OpV>, n: nat)
    requires
        n <= ops.len(),
        replicas_named(d),
        issued(s, ops),
    ensures
        replicas_named(change_all(m, d, seq, ops, n).1),
    decreases n,
{
    if n > 0 {
        lemma_batch_named(m, d, s, seq, ops, (n - 1) as nat);
        if let OpV::CreateObject { oid, lid, rid, pgen } = ops[n - 1] {
            assert(rid.0 != 0);
        }
    }
}

/// A batch of issued identities leads to a further step, whether or not it is
/// let in whole.
pub proof fn write_stays_reached(s: DbV, made: Seq<MadeV>, ops: Seq<OpV>)
    requires
        reached(s, made),
        s.next_seq < u64::MAX,
        issued(s, ops),
    ensures
        ({
            let taken = DbV { next_seq: (s.next_seq + 1) as u64, ..s };
            reached(db_apply(taken, s.next_seq, ops).0, made)
        }),
{
    let seq = s.next_seq;
    let taken = DbV { next_seq: (seq + 1) as u64, ..s };
    let after = db_apply(taken, seq, ops).0;
    let la = layers(s, made);
    let lb = layers(after, made);
    let top = made.len() + s.immutables.len();
    lemma_layer(s, made, top as int);
    lemma_layer(after, made, top as int);
    lemma_batch(s.active, s.dirs, seq, ops, ops.len());
    lemma_batch_named(s.active, s.dirs, s, seq, ops, ops.len());
    assert(issued(taken, ops));
    writes_keep_allocators_ahead(taken, seq, ops);
    assert forall|i: int| 0 <= i < top implies la[i] == #[trigger] lb[i] by {
        lemma_layer(s, made, i);
        lemma_layer(after, made, i);
    }
    assert forall|i: int, j: int, x: EntryV, y: EntryV|
        #![trigger lb[i].contains(x), lb[j].contains(y)]
        0 <= i < j < lb.len() && lb[i].contains(x) && lb[j].contains(y) && x.key
            == y.key implies x.seq < y.seq || lb[j].contains(x) by {
        assert(la[i] == lb[i]);
        assert(la[i].contains(x));
        let k = choose|k: int| 0 <= k < la[i].len() && la[i][k] == x;
        assert(la[i][k].seq < seq);
        if j < top {
            assert(la[j] == lb[j]);
            assert(la[j].contains(y));
        } else if y.seq != seq {
            assert(la[j].contains(y));
        }
    }
    assert forall|i: int, k: int| 0 <= i < lb.len() && 0 <= k < lb[i].len() implies (
    #[trigger] lb[i][k]).seq < seq + 1 by {
        let x = lb[i][k];
        assert(lb[i].contains(x));
        if i < top {
            assert(la[i] == lb[i]);
            assert(la[i][k].seq < seq);
        } else if x.seq != seq {
            assert(la[i].contains(x));
            let q = choose|q: int| 0 <= q < la[i].len() && la[i][q] == x;
            assert(la[i][q].seq < seq);
        }
    }
}

// ---------------------------------------------------------------------------
// What was acknowledged
/// What a change leaves at a key: none where it does not touch it.
pub open spec fn left_at(o: OpV, key: Seq<u8>) -> Option<Option<Seq<u8>>> {
    match o {
        OpV::Put(k, v) => if k == key {
            Some(Some(v))
        } else {
            None
        },
        OpV::Delete(k) => if k == key {
            Some(None)
        } else {
            None
        },
        OpV::PutObject(_, k, v) => if k == key {
            Some(Some(v))
        } else {
            None
        },
        OpV::DeleteObject(_, k) => if k == key {
            Some(None)
        } else {
            None
        },
        OpV::CreateObject { .. } => None,
    }
}

/// What the last of the first `n` changes of a key leaves there.
pub open spec fn last_left(ops: Seq<OpV>, n: nat, key: Seq<u8>) -> Option<Option<Seq<u8>>>
    decreases n,
{
    if n == 0 {
        None
    } else {
        match left_at(ops[n - 1], key) {
            Some(v) => Some(v),
            None => last_left(ops, (n - 1) as nat, key),
        }
    }
}

/// What the last acknowledged change of a key leaves there, over the first `n`
/// batches.
pub open spec fn last_acknowledged(fs: Seq<WalFrameV>, n: nat, key: Seq<u8>) -> Option<
    Option<Seq<u8>>,
>
    decreases n,
{
    if n == 0 {
        None
    } else {
        match last_left(fs[n - 1].ops, fs[n - 1].ops.len(), key) {
            Some(v) => Some(v),
            None => last_acknowledged(fs, (n - 1) as nat, key),
        }
    }
}

proof fn lemma_row_read(m: MemV, e: EntryV, key: Seq<u8>)
    requires
        in_order(m.rows),
        forall|x: EntryV| #[trigger] m.rows.contains(x) ==> x.seq <= e.seq,
    ensures
        e.key == key ==> first_rid(with_row(m.rows, e), key, None) == Some(e),
        e.key != key ==> first_rid(with_row(m.rows, e), key, None) == first_rid(m.rows, key, None),
{
    assert forall|i: int| 0 <= i < m.rows.len() && (#[trigger] m.rows[i]).key == e.key implies m.rows[i].seq
        <= e.seq by {
        assert(m.rows.contains(m.rows[i]));
    }
    write_is_read_back(m.rows, e, key);
    lemma_first_any(with_row(m.rows, e), key);
    lemma_first_any(m.rows, key);
}

/// What a key reads as after a batch of one sequence.
pub proof fn lemma_batch_reads(m: MemV, d: DirV, seq: u64, ops: Seq<OpV>, n: nat, key: Seq<u8>)
    requires
        n <= ops.len(),
        in_order(m.rows),
        forall|x: EntryV| #[trigger] m.rows.contains(x) ==> x.seq <= seq,
        change_all(m, d, seq, ops, n).2 is Ok,
    ensures
        ({
            let rows = change_all(m, d, seq, ops, n).0.rows;
            match last_left(ops, n, key) {
                Some(v) => first_rid(rows, key, None) is Some && value_of(
                    first_rid(rows, key, None)->0,
                ) == v,
                None => first_rid(rows, key, None) == first_rid(m.rows, key, None),
            }
        }),
    decreases n,
{
    if n > 0 {
        lemma_batch_reads(m, d, seq, ops, (n - 1) as nat, key);
        lemma_batch(m, d, seq, ops, (n - 1) as nat);
        let m1 = change_all(m, d, seq, ops, (n - 1) as nat).0;
        match ops[n - 1] {
            OpV::Put(k, v) => {
                lemma_row_read(m1, row_of(k, seq, Some(v), ReplicaId(0)), key);
                lemma_row_value(k, seq, Some(v), ReplicaId(0));
            },
            OpV::Delete(k) => {
                lemma_row_read(m1, row_of(k, seq, None, ReplicaId(0)), key);
                lemma_row_value(k, seq, None, ReplicaId(0));
            },
            OpV::PutObject(r, k, v) => {
                lemma_row_read(m1, row_of(k, seq, Some(v), r), key);
                lemma_row_value(k, seq, Some(v), r);
            },
            OpV::DeleteObject(r, k) => {
                lemma_row_read(m1, row_of(k, seq, None, r), key);
                lemma_row_value(k, seq, None, r);
            },
            OpV::CreateObject { .. } => {},
        }
    }
}

proof fn lemma_commits_read(base: DbV, fs: Seq<WalFrameV>, n: nat, key: Seq<u8>)
    requires
        base.active == mem_empty(),
        n <= fs.len(),
        forall|i: int, j: int|
            #![trigger fs[i], fs[j]]
            0 <= i < j < fs.len() ==> fs[i].seq < fs[j].seq,
        committed(base, fs, n) is Ok,
    ensures
        ({
            let s = committed(base, fs, n)->Ok_0;
            let found = first_rid(s.active.rows, key, None);
            &&& s == (DbV { active: s.active, dirs: s.dirs, ..base })
            &&& in_order(s.active.rows)
            &&& forall|x: EntryV| #[trigger]
                s.active.rows.contains(x) ==> n > 0 && x.seq <= fs[n - 1].seq
            &&& match last_acknowledged(fs, n, key) {
                Some(v) => found is Some && value_of(found->0) == v,
                None => found is None,
            }
        }),
    decreases n,
{
    if n > 0 {
        lemma_commits_read(base, fs, (n - 1) as nat, key);
        let s = committed(base, fs, (n - 1) as nat)->Ok_0;
        let f = fs[n - 1];
        assert forall|x: EntryV| #[trigger] s.active.rows.contains(x) implies x.seq <= f.seq by {
            assert(fs[n - 2].seq < fs[n - 1].seq);
        }
        lemma_batch(s.active, s.dirs, f.seq, f.ops, f.ops.len());
        lemma_batch_reads(s.active, s.dirs, f.seq, f.ops, f.ops.len(), key);
    }
}

/// A key reads as its last acknowledged change left it; where none touched it,
/// as it read before the log.
pub proof fn acknowledged_changes_are_read(base: DbV, before: DbV, fs: Seq<WalFrameV>, key: Seq<u8>)
    requires
        base.active == mem_empty(),
        base.immutables.len() == 0,
        forall|i: int, j: int|
            #![trigger fs[i], fs[j]]
            0 <= i < j < fs.len() ==> fs[i].seq < fs[j].seq,
        committed(base, fs, fs.len()) == Ok::<DbV, ErrV>(before),
    ensures
        db_get(before, key) == (match last_acknowledged(fs, fs.len(), key) {
            Some(v) => Ok(v),
            None => db_get(base, key),
        }),
{
    lemma_commits_read(base, fs, fs.len(), key);
    let la = mem_layers(before);
    assert(la.len() == 1 && la[0] == before.active.rows);
    assert(layered(la, 0, key, None) is None);
    let lb = mem_layers(base);
    assert(lb.len() == 1 && lb[0] == base.active.rows);
    assert(layered(lb, 0, key, None) is None);
}

// ---------------------------------------------------------------------------
// Rotation
/// A rotation leads to a further step.
pub proof fn rotation_stays_reached(s: DbV, made: Seq<MadeV>)
    requires
        reached(s, made),
    ensures
        reached(rotated(s), made),
{
    if s.active.rows.len() > 0 {
        let t = rotated(s);
        let la = layers(s, made);
        let lb = layers(t, made);
        assert(lb =~= la.push(seq![])) by {
            assert forall|i: int| 0 <= i < lb.len() implies lb[i] == la.push(seq![])[i] by {
                lemma_layer(t, made, i);
                if i < la.len() {
                    lemma_layer(s, made, i);
                }
            }
        }
        assert forall|i: int| 0 <= i < t.immutables.len() implies mem_ok(
            #[trigger] t.immutables[i],
        ) by {
            if i < s.immutables.len() {
                assert(t.immutables[i] == s.immutables[i]);
            }
        }
        assert forall|i: int, j: int, x: EntryV, y: EntryV|
            #![trigger lb[i].contains(x), lb[j].contains(y)]
            0 <= i < j < lb.len() && lb[i].contains(x) && lb[j].contains(y) && x.key
                == y.key implies x.seq < y.seq || lb[j].contains(x) by {
            assert(la[i] == lb[i] && la[j] == lb[j]);
            assert(la[i].contains(x) && la[j].contains(y));
        }
        assert forall|i: int, k: int| 0 <= i < lb.len() && 0 <= k < lb[i].len() implies (
        #[trigger] lb[i][k]).seq < s.next_seq by {
            assert(la[i][k].seq < s.next_seq);
        }
    }
}

// ---------------------------------------------------------------------------
// Flush
/// The segments that memtables make.
pub open spec fn mems_made(mems: Seq<MemV>, target: nat) -> Seq<MadeV> {
    mems.map_values(|m: MemV| MadeV { rows: m.rows, target, v3: has_replicas(m.rows) })
}

proof fn lemma_flushed_sound(
    s: DbV,
    made: Seq<MadeV>,
    chunks: Seq<LiveChunk>,
    mems: Seq<MemV>,
    first: u64,
    target: nat,
)
    requires
        s.segments.len() == made.len(),
        forall|i: int|
            0 <= i < made.len() ==> made_ok(#[trigger] made[i]) && s.segments[i] == made_seg(
                made[i],
            ),
        recorded_as(s.records, made),
        chunks.len() == mems.len(),
        flushes(chunks, mems, first, target),
        mems_fit(mems, target),
    ensures
        ({
            let all = made + mems_made(mems, target);
            let segs = s.segments + chunk_segs(chunks);
            &&& segs.len() == all.len()
            &&& forall|i: int|
                0 <= i < all.len() ==> made_ok(#[trigger] all[i]) && segs[i] == made_seg(all[i])
            &&& recorded_as(s.records + records_of(chunks, 0), all)
        }),
{
    let all = made + mems_made(mems, target);
    let segs = s.segments + chunk_segs(chunks);
    let records = s.records + records_of(chunks, 0);
    assert forall|i: int| 0 <= i < all.len() implies made_ok(#[trigger] all[i]) && segs[i]
        == made_seg(all[i]) && (has_replicas(all[i].rows) ==> all[i].v3) && records[i].seq_hi
        == max_seq(all[i].rows) by {
        if i < made.len() {
            assert(all[i] == made[i]);
            assert(segs[i] == s.segments[i]);
            assert(records[i] == s.records[i]);
        } else {
            let k = i - made.len();
            let m = mems[k];
            let c = chunks[k];
            assert(flushed_as(chunks[k], m, first + k, target));
            assert(mem_ok(mems[k]));
            chunk_is_what_was_written(c, m.rows, target, has_replicas(m.rows));
            assert(segs[i] == c.reader@);
            assert(records[i] == record_of(c, 0));
        }
    }
}

/// A flush leads to a further step, and changes neither a read nor a scan.
pub proof fn flush_stays_reached(
    s: DbV,
    made: Seq<MadeV>,
    p: FlushPlan,
    homes: Seq<(u64, Home)>,
    target: nat,
    planned: DbV,
    key: Seq<u8>,
    oid: Seq<u8>,
)
    requires
        reached(s, made),
        flush_ok(rotated(s), p, homes, target, planned),
        mems_fit(rotated(s).immutables, target),
        s.next_placement_generation + homes.len() <= u64::MAX,
    ensures
        ({
            let after = DbV { segments: planned.segments + chunk_segs(p.chunks@), ..planned };
            &&& reached(after, made + mems_made(rotated(s).immutables, target))
            &&& db_get(after, key) == db_get(s, key)
            &&& db_get_object(after, oid, key) == db_get_object(s, oid, key)
            &&& db_scan(after, key) == db_scan(s, key)
        }),
{
    let t = rotated(s);
    let after = DbV { segments: planned.segments + chunk_segs(p.chunks@), ..planned };
    let all = made + mems_made(t.immutables, target);
    rotation_stays_reached(s, made);
    flush_keeps_allocators_ahead(t, p, homes, target, planned);
    lemma_flushed_sound(t, made, p.chunks@, t.immutables, t.next_segment_id, target);
    lemma_homes_named(t, homes);
    let la = layers(t, made);
    let lb = layers(after, all);
    assert(lb =~= la) by {
        assert forall|i: int| 0 <= i < lb.len() implies lb[i] == la[i] by {
            lemma_layer(after, all, i);
            lemma_layer(t, made, i);
        }
    }
    assert(reached(after, all));
    assert forall|k: Seq<u8>| #[trigger] db_get(after, k) == db_get(s, k) by {
        flush_changes_no_read(t, after, p.chunks@, target, k, oid);
        rotation_changes_no_read(s, k, oid);
    }
    flush_changes_no_read(t, after, p.chunks@, target, key, oid);
    rotation_changes_no_read(s, key, oid);
    scans_follow_reads(after, all, s, made, key);
}

proof fn lemma_homes_named(t: DbV, homes: Seq<(u64, Home)>)
    ensures
        place_all(t.dirs, t.next_placement_generation, homes, homes.len()).0.identity
            == t.dirs.identity,
        place_all(t.dirs, t.next_placement_generation, homes, homes.len()).0.replicas
            == t.dirs.replicas,
{
    lemma_places_only(t.dirs, t.next_placement_generation, homes, homes.len());
}

proof fn lemma_places_only(d: DirV, first: u64, homes: Seq<(u64, Home)>, n: nat)
    ensures
        place_all(d, first, homes, n).0.identity == d.identity,
        place_all(d, first, homes, n).0.replicas == d.replicas,
    decreases n,
{
    if n > 0 {
        lemma_places_only(d, first, homes, (n - 1) as nat);
    }
}

/// An interruption after a flush took effect and before the log was emptied
/// leads to a further step: the rows that come back into memory lie in the new
/// segment too.
pub proof fn replay_over_a_flush_stays_reached(
    before: DbV,
    made: Seq<MadeV>,
    chunks: Seq<LiveChunk>,
    target: nat,
    after: DbV,
)
    requires
        reached(before, made),
        before.immutables.len() == 0,
        mems_fit(seq![before.active], target),
        chunks.len() == 1,
        flushes(chunks, seq![before.active], before.next_segment_id, target),
        after.active == before.active,
        after.immutables.len() == 0,
        after.segments == before.segments + chunk_segs(chunks),
        after.records == before.records + records_of(chunks, 0),
        after.next_seq == before.next_seq,
        ahead(after),
        replicas_named(after.dirs),
        after.next_replica_id > 0,
    ensures
        reached(after, made + mems_made(seq![before.active], target)),
{
    let mems = seq![before.active];
    let all = made + mems_made(mems, target);
    lemma_flushed_sound(before, made, chunks, mems, before.next_segment_id, target);
    let la = layers(before, made);
    let lb = layers(after, all);
    let top = made.len() as int;
    lemma_layer(before, made, top);
    lemma_layer(after, all, top);
    lemma_layer(after, all, top + 1);
    assert forall|i: int| 0 <= i < lb.len() implies #[trigger] lb[i] == la[if i > top {
        top
    } else {
        i
    }] by {
        lemma_layer(after, all, i);
        if i <= top {
            lemma_layer(before, made, i);
        }
    }
    assert forall|i: int, j: int, x: EntryV, y: EntryV|
        #![trigger lb[i].contains(x), lb[j].contains(y)]
        0 <= i < j < lb.len() && lb[i].contains(x) && lb[j].contains(y) && x.key
            == y.key implies x.seq < y.seq || lb[j].contains(x) by {
        let j0 = if j > top {
            top
        } else {
            j
        };
        assert(lb[j] == la[j0]);
        if i < top {
            assert(lb[i] == la[i]);
            assert(la[i].contains(x) && la[j0].contains(y));
        } else {
            assert(lb[i] == la[top]);
        }
    }
    assert forall|i: int, k: int| 0 <= i < lb.len() && 0 <= k < lb[i].len() implies (
    #[trigger] lb[i][k]).seq < after.next_seq by {
        let i0 = if i > top {
            top
        } else {
            i
        };
        assert(lb[i] == la[i0]);
        assert(la[i0][k].seq < before.next_seq);
    }
}

// ---------------------------------------------------------------------------
// Compaction
/// The verdicts that keep every key.
pub open spec fn all_kept(es: Seq<EntryV>) -> Seq<Retention> {
    Seq::new(runs(es), |i: int| Retention::Keep)
}

/// The rows that a compaction of written segments writes, by chunk.
pub open spec fn compacted(made: Seq<MadeV>, cap: nat) -> Seq<Seq<EntryV>> {
    let es = merged(made_rows(made));
    cut(live_rows(es, all_kept(es)), cap)
}

/// The segments that a compaction of written segments makes.
pub open spec fn compacted_made(made: Seq<MadeV>, target: nat, cap: nat) -> Seq<MadeV> {
    let chunks = compacted(made, cap);
    Seq::new(
        chunks.len(),
        |k: int| MadeV { rows: chunks[k], target, v3: sticky(chunks, (k + 1) as nat) },
    )
}

/// The chunks of a compaction fit their fields.
pub open spec fn compaction_fits(made: Seq<MadeV>, target: nat, cap: nat) -> bool {
    let chunks = compacted(made, cap);
    forall|k: int|
        0 <= k < chunks.len() ==> #[trigger] rows_fit(
            chunks[k],
            target,
            sticky(chunks, (k + 1) as nat),
        )
}

/// A written segment gives its rows back.
pub proof fn lemma_made_reads(m: MadeV)
    requires
        made_ok(m),
        has_replicas(m.rows) ==> m.v3,
    ensures
        all_from(made_seg(m), 0) == Ok::<Seq<EntryV>, ErrV>(m.rows),
{
    reveal(rows_fit);
    segment_keeps_every_entry(m.rows, split(m.rows, m.target, true, m.v3), true, m.v3);
    assert(stored_all(m.rows, m.v3) =~= m.rows) by {
        assert forall|i: int| 0 <= i < m.rows.len() implies stored(m.rows[i], m.v3) == m.rows[i] by {
            if !m.v3 {
                assert(m.rows[i].replica_id.0 == 0);
                assert(m.rows[i].replica_id == ReplicaId(0));
            }
        }
    }
}

proof fn lemma_made_inputs(segs: Seq<SegV>, made: Seq<MadeV>, n: nat)
    requires
        n <= made.len(),
        segs.len() == made.len(),
        forall|i: int|
            0 <= i < made.len() ==> made_ok(#[trigger] made[i]) && segs[i] == made_seg(made[i]) && (
            has_replicas(made[i].rows) ==> made[i].v3),
    ensures
        inputs_of(segs, n) == Ok::<Seq<Seq<EntryV>>, ErrV>(made_rows(made).take(n as int)),
    decreases n,
{
    if n > 0 {
        lemma_made_inputs(segs, made, (n - 1) as nat);
        assert(made_ok(made[n - 1]));
        lemma_made_reads(made[n - 1]);
        assert(made_rows(made).take(n as int) =~= made_rows(made).take(n - 1).push(
            made[n - 1].rows,
        ));
    } else {
        assert(made_rows(made).take(0) =~= Seq::<Seq<EntryV>>::empty());
    }
}

/// A compaction of a database reads the rows that were written.
pub proof fn lemma_inputs(s: DbV, made: Seq<MadeV>)
    requires
        reached(s, made),
    ensures
        inputs_of(s.segments, s.segments.len()) == Ok::<Seq<Seq<EntryV>>, ErrV>(made_rows(made)),
        all_in_order(made_rows(made)),
        newer_above(made_rows(made)),
{
    let rows = made_rows(made);
    let l = layers(s, made);
    assert forall|i: int| 0 <= i < made.len() implies made_ok(#[trigger] made[i]) && s.segments[i]
        == made_seg(made[i]) && (has_replicas(made[i].rows) ==> made[i].v3) by {}
    lemma_made_inputs(s.segments, made, made.len());
    assert(rows.take(made.len() as int) =~= rows);
    assert forall|i: int| 0 <= i < rows.len() implies in_order(#[trigger] rows[i]) by {
        assert(made_ok(made[i]));
    }
    assert forall|i: int, j: int, x: EntryV, y: EntryV|
        #![trigger rows[i].contains(x), rows[j].contains(y)]
        0 <= i < j < rows.len() && rows[i].contains(x) && rows[j].contains(y) && x.key
            == y.key implies x.seq < y.seq || rows[j].contains(x) by {
        assert(l[i] == rows[i] && l[j] == rows[j]);
        assert(l[i].contains(x) && l[j].contains(y));
    }
}

/// What the chunks of a compaction are made of.
proof fn lemma_compacted(s: DbV, made: Seq<MadeV>, cap: nat)
    requires
        reached(s, made),
    ensures
        all_in_order(compacted(made, cap)),
        forall|k: int|
            0 <= k < compacted(made, cap).len() ==> (#[trigger] compacted(made, cap)[k]).len() > 0,
        forall|i: int, j: int, x: int, y: int|
            #![trigger compacted(made, cap)[i][x], compacted(made, cap)[j][y]]
            0 <= i < j < compacted(made, cap).len() && 0 <= x < compacted(made, cap)[i].len() && 0
                <= y < compacted(made, cap)[j].len() ==> compacted(made, cap)[i][x].key
                != compacted(made, cap)[j][y].key,
        forall|k: int, x: int|
            #![trigger compacted(made, cap)[k][x]]
            0 <= k < compacted(made, cap).len() && 0 <= x < compacted(made, cap)[k].len() ==> holds(
                made_rows(made),
                compacted(made, cap)[k][x],
            ),
{
    lemma_inputs(s, made);
    let rows = made_rows(made);
    let es = merged(rows);
    let vs = all_kept(es);
    let live = live_rows(es, vs);
    let chunks = compacted(made, cap);
    merge_orders_every_entry(rows);
    merge_tells_rows_apart(rows);
    live_rows_stay_in_order(es, vs);
    chunks_stay_in_order(live, cap);
    chunks_keep_rows(true, live, cap);
    chunks_do_not_overlap(live, cap);
    assert forall|i: int, j: int, x: int, y: int|
        #![trigger chunks[i][x], chunks[j][y]]
        0 <= i < j < chunks.len() && 0 <= x < chunks[i].len() && 0 <= y
            < chunks[j].len() implies chunks[i][x].key != chunks[j][y].key by {
        lemma_lex_total(chunks[i][x].key, chunks[j][y].key);
    }
    assert forall|k: int, x: int|
        #![trigger chunks[k][x]]
        0 <= k < chunks.len() && 0 <= x < chunks[k].len() implies holds(rows, chunks[k][x]) by {
        assert(live.contains(chunks[k][x]));
        let z = choose|z: int| 0 <= z < live.len() && live[z] == chunks[k][x];
        live_rows_were_there(es, vs, z);
    }
}

/// The merge of a compaction that keeps every key, as it stands in a plan.
#[verifier::spinoff_prover]
#[verifier::rlimit(80)]
proof fn lemma_merge<P: RetentionPolicy>(s: DbV, made: Seq<MadeV>, m: Merged, target: nat, cap: nat, policy: &P)
    requires
        reached(s, made),
        keeps_every_key(policy),
        merges(s, Ok(m), policy, target, cap),
        compaction_fits(made, target, cap),
    ensures
        m.live@.len() == compacted(made, cap).len(),
        chunk_segs(m.live@).len() == m.live@.len(),
        forall|k: int|
            0 <= k < m.live@.len() ==> made_ok(#[trigger] compacted_made(made, target, cap)[k])
                && chunk_segs(m.live@)[k] == made_seg(compacted_made(made, target, cap)[k]),
        recorded_as(records_of(m.live@, 1), compacted_made(made, target, cap)),
{
    lemma_inputs(s, made);
    lemma_compacted(s, made, cap);
    let es = merged(made_rows(made));
    let vs = choose|vs: Seq<Retention>| #[trigger]
        judged(es, vs, policy) && merge_ok(
            m,
            es,
            s.segments.len(),
            vs,
            target,
            cap,
            s.next_segment_id,
        );
    every_run_is_kept(es, vs, policy);
    assert(vs =~= all_kept(es));
    let chunks = compacted(made, cap);
    let made2 = compacted_made(made, target, cap);
    let slot = archive_slot(es, vs, cap) as int;
    let acs = pieces(archived_rows(es, vs), cap);
    let segs = chunk_segs(m.live@);
    let records = records_of(m.live@, 1);
    assert forall|k: int| 0 <= k < m.live@.len() implies made_ok(#[trigger] made2[k]) && segs[k]
        == made_seg(made2[k]) && (has_replicas(made2[k].rows) ==> made2[k].v3) && records[k].seq_hi
        == max_seq(made2[k].rows) by {
        let v3 = sticky(chunks, (k + 1) as nat);
        assert(live_ok(
            m,
            k,
            chunks,
            target,
            live_id(s.next_segment_id as int, k, slot, acs.len() as int),
        ));
        assert(in_order(chunks[k]));
        assert(rows_fit(chunks[k], target, v3));
        chunk_is_what_was_written(m.live@[k], chunks[k], target, v3);
        assert(records[k] == record_of(m.live@[k], 1));
    }
}

/// A written segment answers reads for its rows.
proof fn lemma_made_answers(m: MadeV, key: Seq<u8>)
    requires
        made_ok(m),
    ensures
        answers_plainly(made_seg(m), m.rows, key),
{
    segment_answers_with_the_newest(m.rows, m.target, m.v3, key);
    lemma_first_any(m.rows, key);
}

/// A compaction that keeps every key changes no read: neither of a key nor of
/// an object's row.
pub proof fn compaction_changes_no_read<P: RetentionPolicy>(
    s: DbV,
    made: Seq<MadeV>,
    m: Merged,
    after: DbV,
    target: nat,
    cap: nat,
    key: Seq<u8>,
    oid: Seq<u8>,
    policy: &P,
)
    requires
        reached(s, made),
        keeps_every_key(policy),
        merges(s, Ok(m), policy, target, cap),
        compaction_fits(made, target, cap),
        after.active == s.active,
        after.immutables == s.immutables,
        after.segments == chunk_segs(m.live@),
        after.dirs.identity == s.dirs.identity,
        after.dirs.replicas == s.dirs.replicas,
    ensures
        db_get(after, key) == db_get(s, key),
        db_get_object(after, oid, key) == db_get_object(s, oid, key),
{
    lemma_inputs(s, made);
    lemma_merge(s, made, m, target, cap, policy);
    let rows = made_rows(made);
    let es = merged(rows);
    let vs = all_kept(es);
    let chunks = compacted(made, cap);
    let made2 = compacted_made(made, target, cap);
    assert forall|i: int| 0 <= i < rows.len() implies answers_plainly(
        #[trigger] s.segments[i],
        rows[i],
        key,
    ) by {
        assert(made_ok(made[i]));
        lemma_made_answers(made[i], key);
    }
    assert forall|i: int| 0 <= i < after.segments.len() implies answers_plainly(
        #[trigger] after.segments[i],
        chunks[i],
        key,
    ) by {
        assert(made_ok(made2[i]));
        lemma_made_answers(made2[i], key);
    }
    compaction_changes_no_plain_read(s.segments, after.segments, rows, vs, cap, key);
    assert(mem_layers(after) =~= mem_layers(s));
    if let Ok(Some(rid)) = replica_of(s, oid) {
        assert(rid.0 != 0);
        assert forall|i: int| 0 <= i < rows.len() implies answers_replica(
            #[trigger] s.segments[i],
            rows[i],
            key,
            rid,
        ) by {
            assert(made_ok(made[i]));
            segment_answers_for_the_replica(rows[i], made[i].target, made[i].v3, key, rid);
        }
        assert forall|i: int| 0 <= i < after.segments.len() implies answers_replica(
            #[trigger] after.segments[i],
            chunks[i],
            key,
            rid,
        ) by {
            assert(made_ok(made2[i]));
            segment_answers_for_the_replica(chunks[i], target, made2[i].v3, key, rid);
        }
        compaction_changes_no_replica_read(s.segments, after.segments, rows, vs, cap, key, rid);
    }
}

/// The state once a compaction ended.
pub open spec fn compaction_done(planned: DbV, p: CompactPlan) -> DbV {
    DbV {
        segments: chunk_segs(p.chunks@),
        records: records_of(p.chunks@, 1),
        dirs: (DirV {
            placements: left_by(planned.dirs.placements, plan_moves(p)),
            ..planned.dirs
        }),
        ..planned
    }
}

/// A compaction that keeps every key leads to a further step: no placement is
/// refused, and neither a read nor a scan changes, of whatever owner the rows
/// are.
pub proof fn compaction_stays_reached<P: RetentionPolicy>(
    s: DbV,
    made: Seq<MadeV>,
    p: CompactPlan,
    m: Merged,
    list: Seq<u64>,
    planned: DbV,
    target: nat,
    cap: nat,
    key: Seq<u8>,
    oid: Seq<u8>,
    policy: &P,
)
    requires
        reached(s, made),
        keeps_every_key(policy),
        merges(s, Ok(m), policy, target, cap),
        compact_ok(s, p, m, list, planned),
        s.next_placement_generation + list.len() <= u64::MAX,
        compaction_fits(made, target, cap),
    ensures
        ({
            let after = compaction_done(planned, p);
            &&& build(planned.dirs.placements, plan_moves(p)) is Ok
            &&& reached(after, compacted_made(made, target, cap))
            &&& db_get(after, key) == db_get(s, key)
            &&& db_get_object(after, oid, key) == db_get_object(s, oid, key)
            &&& replica_of(after, oid) == replica_of(s, oid)
            &&& db_scan(after, key) == db_scan(s, key)
        }),
{
    let after = compaction_done(planned, p);
    let made2 = compacted_made(made, target, cap);
    let chunks = compacted(made, cap);
    lemma_merge(s, made, m, target, cap, policy);
    lemma_compacted(s, made, cap);
    moves_are_let_in(
        s.dirs.placements,
        list,
        m.relocations@,
        s.next_placement_generation,
        list.len(),
    );
    let recs = moves(list, m.relocations@, s.next_placement_generation, list.len()).0;
    assert(plan_moves(p) =~= recs) by {
        match p.placements {
            Some(l) => {
                assert(l@.records == l.records@);
            },
            None => {},
        }
    }
    let la = layers(s, made);
    let lb = layers(after, made2);
    let n = made2.len() as int;
    let shift = made.len() - n;
    assert forall|i: int| 0 <= i < lb.len() implies #[trigger] lb[i] == (if i < n {
        chunks[i]
    } else {
        la[i + shift]
    }) by {
        lemma_layer(after, made2, i);
        if i >= n {
            lemma_layer(s, made, i + shift);
        }
    }
    assert forall|i: int, j: int, x: EntryV, y: EntryV|
        #![trigger lb[i].contains(x), lb[j].contains(y)]
        0 <= i < j < lb.len() && lb[i].contains(x) && lb[j].contains(y) && x.key
            == y.key implies x.seq < y.seq || lb[j].contains(x) by {
        if i < n {
            let a = choose|a: int| 0 <= a < chunks[i].len() && chunks[i][a] == x;
            if j < n {
                let b = choose|b: int| 0 <= b < chunks[j].len() && chunks[j][b] == y;
                assert(chunks[i][a].key != chunks[j][b].key);
            } else {
                assert(holds(made_rows(made), chunks[i][a]));
                let q = choose|q: int|
                    0 <= q < made_rows(made).len() && (#[trigger] made_rows(made)[q]).contains(x);
                lemma_layer(s, made, q);
                assert(la[q].contains(x) && la[j + shift].contains(y));
            }
        } else {
            assert(la[i + shift].contains(x) && la[j + shift].contains(y));
        }
    }
    assert forall|i: int, k: int| 0 <= i < lb.len() && 0 <= k < lb[i].len() implies (
    #[trigger] lb[i][k]).seq < after.next_seq by {
        let x = lb[i][k];
        if i < n {
            assert(holds(made_rows(made), chunks[i][k]));
            let q = choose|q: int|
                0 <= q < made_rows(made).len() && (#[trigger] made_rows(made)[q]).contains(x);
            lemma_layer(s, made, q);
            let z = choose|z: int| 0 <= z < la[q].len() && la[q][z] == x;
            assert(la[q][z].seq < s.next_seq);
        } else {
            assert(la[i + shift][k].seq < s.next_seq);
        }
    }
    assert(reached(after, made2));
    assert forall|k: Seq<u8>| #[trigger] db_get(after, k) == db_get(s, k) by {
        compaction_changes_no_read(s, made, m, after, target, cap, k, oid, policy);
    }
    compaction_changes_no_read(s, made, m, after, target, cap, key, oid, policy);
    scans_follow_reads(after, made2, s, made, key);
}

/// The merge of a compaction that keeps every key does not fail while its
/// chunks fit their fields.
pub proof fn compaction_of_fitting_rows_succeeds<P: RetentionPolicy>(
    s: DbV,
    made: Seq<MadeV>,
    e: FormatError,
    target: nat,
    cap: nat,
    policy: &P,
)
    requires
        reached(s, made),
        keeps_every_key(policy),
        target > 0,
        compaction_fits(made, target, cap),
    ensures
        !merges(s, Err(e), policy, target, cap),
{
    lemma_inputs(s, made);
    lemma_compacted(s, made, cap);
    let es = merged(made_rows(made));
    let chunks = compacted(made, cap);
    assert forall|vs: Seq<Retention>| #[trigger] judged(es, vs, policy) implies !merge_fails(
        e,
        es,
        vs,
        target,
        cap,
        false,
    ) by {
        every_run_is_kept(es, vs, policy);
        assert(vs =~= all_kept(es));
        lemma_nothing_archived(es, vs);
        assert(parts_fit(chunks, target)) by {
            assert forall|k: int| 0 <= k < chunks.len() implies in_order(#[trigger] chunks[k])
                && chunks[k].len() > 0 && rows_fit(
                chunks[k],
                target,
                sticky(chunks, (k + 1) as nat),
            ) by {
                assert(rows_fit(chunks[k], target, sticky(chunks, (k + 1) as nat)));
            }
        }
        merge_of_fitting_rows_succeeds(e, es, vs, target, cap);
    }
}

proof fn lemma_nothing_archived(es: Seq<EntryV>, vs: Seq<Retention>)
    requires
        keeps_all(es, vs),
    ensures
        archived_rows(es, vs).len() == 0,
    decreases es.len(),
{
    if es.len() > 0 {
        lemma_run_len(es, es[0].key);
        let n = head_run(es) as int;
        let rest = vs.skip(1);
        assert(vs[0] == Retention::Keep);
        assert forall|i: int| 0 <= i < rest.len() implies #[trigger] rest[i] == Retention::Keep by {
            assert(rest[i] == vs[i + 1]);
        }
        lemma_nothing_archived(es.skip(n), rest);
    }
}

// ---------------------------------------------------------------------------
// Opening again
proof fn lemma_max_seq(es: Seq<EntryV>, i: int)
    requires
        0 <= i < es.len(),
    ensures
        es[i].seq <= max_seq(es),
    decreases es.len(),
{
    if es.len() > 1 && i < es.len() - 1 {
        lemma_max_seq(es.drop_last(), i);
        assert(es.drop_last()[i] == es[i]);
    }
}

proof fn lemma_top_record(records: Seq<SegmentRecordV>, n: nat, i: int)
    requires
        0 <= i < n <= records.len(),
    ensures
        records[i].seq_hi <= top_record_seq(records, n),
    decreases n,
{
    if i < n - 1 {
        lemma_top_record(records, (n - 1) as nat, i);
    }
}

proof fn lemma_replay_below(d: DirV, fs: Seq<WalFrameV>, n: nat)
    requires
        n <= fs.len(),
        replayed(d, fs, n) is Ok,
    ensures
        in_order((replayed(d, fs, n)->Ok_0).0.rows),
        forall|x: EntryV| #[trigger]
            (replayed(d, fs, n)->Ok_0).0.rows.contains(x) ==> x.seq <= top_frame(fs, n),
    decreases n,
{
    if n > 0 {
        lemma_replay_below(d, fs, (n - 1) as nat);
        let (m1, d1) = replayed(d, fs, (n - 1) as nat)->Ok_0;
        let f = fs[n - 1];
        lemma_batch(m1, d1, f.seq, f.ops, f.ops.len());
    }
}

/// Opening again leads to a further step: the database that comes back counts
/// on past every row, identity and generation that it holds.
pub proof fn opening_stays_reached(
    base: DbV,
    before: DbV,
    made: Seq<MadeV>,
    fs: Seq<WalFrameV>,
    x: Recovered,
    m: ManifestV,
    end: int,
    orphans: Seq<LogFile>,
    after: DbV,
)
    requires
        reached(before, made),
        before.immutables.len() == 0,
        base.active == mem_empty(),
        committed(base, fs, fs.len()) == Ok::<DbV, ErrV>(before),
        m.segments == before.records,
        recovers_to(
            x,
            m,
            before.segments,
            (before.active, before.dirs, end, top_frame(fs, fs.len())),
            orphans,
        ),
        x.room(),
        after == opened(x),
    ensures
        reached(after, made),
{
    lemma_committed(base, fs, fs.len());
    lemma_replay_below(base.dirs, fs, fs.len());
    let top = choose|top: u64| #[trigger]
        top_generation(top, x.dirs@.placements) && x.last_placement_generation == larger(
            top,
            files_max_generation(orphans),
        );
    opening_starts_ahead(x, after, top, orphans);
    let la = layers(before, made);
    let lb = layers(after, made);
    assert(after.immutables =~= before.immutables);
    assert(lb =~= la);
    assert forall|i: int, k: int| 0 <= i < lb.len() && 0 <= k < lb[i].len() implies (
    #[trigger] lb[i][k]).seq < after.next_seq by {
        lemma_layer(after, made, i);
        if i < made.len() {
            lemma_max_seq(made[i].rows, k);
            lemma_top_record(m.segments, m.segments.len(), i);
            assert(has_replicas(made[i].rows) ==> made[i].v3);
        } else {
            assert(after.active.rows.contains(lb[i][k]));
        }
    }
}

} // verus!
