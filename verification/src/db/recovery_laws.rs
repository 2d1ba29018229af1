//! What comes back after an interruption.

use crate::db::directories::{
    dir_create, dir_identify, dir_place, dir_replicate, identity_all, replica_all, DirV,
};
use crate::db::flush::{chunk_segs, flushes, settled};
use crate::db::laws::{lemma_flushed_chain, lemma_flushed_rid, mems_fit, rows_fit, rows_of};
use crate::compaction::laws::layered;
use crate::compaction::run::LiveChunk;
use crate::db::open::{
    checkpoint_view, identity_recovered, loaded, placements_recovered, replay_on, replayed, replicas_recovered,
    segment_files, top_frame, Files, SegmentFile,
};
use crate::db::read::{db_get, db_get_object, mem_find, mem_layers};
use crate::db::scan_laws::{made_ok, made_seg, MadeV};
use crate::db::state::{db_apply, replica_of, DbV};
use crate::format::{ErrV, ManifestV};
use crate::identity::directory::IdentityRecordV;
use crate::identity::logical_id::LogicalId;
use crate::identity::replica_id::ReplicaId;
use crate::idmap::lookup;
use crate::memtable::{mem_empty, MemV};
use crate::placement::directory::{build, gate, Placement};
use crate::segment::block::split;
use crate::segment::open::SegV;
use crate::segment::open_laws::open_gives_back_writes;
use crate::segment::write::blocks_bytes;
use crate::wal::{frame_of, replay_gives_back_appends, stream_bytes, stream_fits, WalFrameV};
use vstd::prelude::*;

verus! {

// ---------------------------------------------------------------------------
// The log
/// The state after the first `n` frames were committed one after the other,
/// or the first conflict.
pub open spec fn committed(s: DbV, fs: Seq<WalFrameV>, n: nat) -> Result<DbV, ErrV>
    decreases n,
{
    if n == 0 {
        Ok(s)
    } else {
        match committed(s, fs, (n - 1) as nat) {
            Err(e) => Err(e),
            Ok(s1) => match db_apply(s1, fs[n - 1].seq, fs[n - 1].ops) {
                (s2, Ok(_)) => Ok(s2),
                (_, Err(e)) => Err(e),
            },
        }
    }
}

/// A replay does what the commits did.
pub proof fn lemma_committed(s: DbV, fs: Seq<WalFrameV>, n: nat)
    requires
        s.active == mem_empty(),
        n <= fs.len(),
    ensures
        match committed(s, fs, n) {
            Ok(s2) => replayed(s.dirs, fs, n) == Ok::<(MemV, DirV), ErrV>((s2.active, s2.dirs))
                && s2 == (DbV { active: s2.active, dirs: s2.dirs, ..s }),
            Err(e) => replayed(s.dirs, fs, n) == Err::<(MemV, DirV), ErrV>(e),
        },
    decreases n,
{
    if n > 0 {
        lemma_committed(s, fs, (n - 1) as nat);
    }
}

/// Every batch that was committed comes back from the log as it was: plain
/// rows, rows of objects, and creations with their generations. A torn tail
/// takes nothing with it.
pub proof fn committed_batches_come_back(s: DbV, fs: Seq<WalFrameV>, tail: Seq<u8>)
    requires
        s.active == mem_empty(),
        stream_fits(fs, None),
        forall|p: int| 0 <= p < tail.len() ==> frame_of(#[trigger] tail.skip(p)) is Err,
    ensures
        replay_on(s.dirs, stream_bytes(fs) + tail) == (match committed(s, fs, fs.len()) {
            Err(e) => Err::<(MemV, DirV, int, u64), ErrV>(e),
            Ok(s2) => Ok(
                (
                    s2.active,
                    s2.dirs,
                    stream_bytes(fs).len() as int,
                    top_frame(fs, fs.len()),
                ),
            ),
        }),
{
    reveal(replay_on);
    replay_gives_back_appends(fs, tail);
    lemma_committed(s, fs, fs.len());
}

// ---------------------------------------------------------------------------
// Between the manifest and the log
/// An interruption after a flush took effect and before the log was emptied
/// changes no read: the rows come back into memory, and lie in the new
/// segment too. `m` is the one memtable that was flushed.
pub proof fn replay_after_flush_changes_no_read(
    before: DbV,
    after: DbV,
    m: MemV,
    chunks: Seq<LiveChunk>,
    target: nat,
    key: Seq<u8>,
    oid: Seq<u8>,
)
    requires
        before.active == m,
        before.immutables.len() == 0,
        mems_fit(seq![m], target),
        chunks.len() == 1,
        flushes(chunks, seq![m], before.next_segment_id, target),
        after.active == m,
        after.immutables.len() == 0,
        after.segments == before.segments + chunk_segs(chunks),
        after.dirs.identity == before.dirs.identity,
        after.dirs.replicas == before.dirs.replicas,
        replica_of(before, oid) matches Ok(Some(rid)) ==> rid.0 != 0,
    ensures
        db_get(after, key) == db_get(before, key),
        db_get_object(after, oid, key) == db_get_object(before, oid, key),
{
    let first = before.next_segment_id;
    lemma_flushed_chain(before.segments, chunks, seq![m], first, target, 1, key);
    lemma_one_layer(before, m, key, None);
    lemma_one_layer(after, m, key, None);
    if let Ok(Some(rid)) = replica_of(before, oid) {
        lemma_flushed_rid(before.segments, chunks, seq![m], first, target, 1, key, rid);
        lemma_one_layer(before, m, key, Some(rid));
        lemma_one_layer(after, m, key, Some(rid));
    }
}

proof fn lemma_one_layer(s: DbV, m: MemV, key: Seq<u8>, want: Option<ReplicaId>)
    requires
        s.active == m,
        s.immutables.len() == 0,
    ensures
        mem_find(s, key, want) == layered(rows_of(seq![m]), 1, key, want),
{
    let l = mem_layers(s);
    assert(l.len() == 1 && l[0] == m.rows);
    assert(rows_of(seq![m])[0] == m.rows);
    assert(layered(l, 0, key, want) is None);
    assert(layered(rows_of(seq![m]), 0, key, want) is None);
}

// ---------------------------------------------------------------------------
// Directories
/// The directories are what the published logs hold, with the pending records
/// on top.
pub open spec fn covered(
    d: DirV,
    ids: Map<u128, LogicalId>,
    reps: Map<u64, ReplicaId>,
    places: Map<u64, Placement>,
) -> bool {
    &&& identity_all(ids, d.pending_identity, d.pending_identity.len()) == Ok::<
        Map<u128, LogicalId>,
        ErrV,
    >(d.identity)
    &&& replica_all(reps, d.pending_replicas, d.pending_replicas.len()) == Ok::<
        Map<u64, ReplicaId>,
        ErrV,
    >(d.replicas)
    &&& build(places, d.pending_placements) == Ok::<Map<u64, Placement>, ErrV>(d.placements)
}

proof fn lemma_identity_prefix(
    m: Map<u128, LogicalId>,
    a: Seq<IdentityRecordV>,
    b: Seq<IdentityRecordV>,
    n: nat,
)
    requires
        n <= a.len(),
        n <= b.len(),
        forall|i: int| 0 <= i < n ==> a[i] == b[i],
    ensures
        identity_all(m, a, n) == identity_all(m, b, n),
    decreases n,
{
    if n > 0 {
        lemma_identity_prefix(m, a, b, (n - 1) as nat);
    }
}

proof fn lemma_replica_prefix(
    m: Map<u64, ReplicaId>,
    a: Seq<crate::identity::directory::ReplicaRecord>,
    b: Seq<crate::identity::directory::ReplicaRecord>,
    n: nat,
)
    requires
        n <= a.len(),
        n <= b.len(),
        forall|i: int| 0 <= i < n ==> a[i] == b[i],
    ensures
        replica_all(m, a, n) == replica_all(m, b, n),
    decreases n,
{
    if n > 0 {
        lemma_replica_prefix(m, a, b, (n - 1) as nat);
    }
}

/// A creation leaves directories that logs and pending records cover.
pub proof fn creation_stays_covered(
    d: DirV,
    ids: Map<u128, LogicalId>,
    reps: Map<u64, ReplicaId>,
    places: Map<u64, Placement>,
    oid: Seq<u8>,
    lid: LogicalId,
    rid: ReplicaId,
    pgen: u64,
)
    requires
        covered(d, ids, reps, places),
        dir_create(d, oid, lid, rid, pgen).1 is Ok,
    ensures
        covered(dir_create(d, oid, lid, rid, pgen).0, ids, reps, places),
{
    let d1 = dir_identify(d, oid, lid);
    let d2 = dir_replicate(d1, lid, rid);
    let p = Placement::Memtable { generation: pgen };
    let d3 = dir_place(d2, rid, p);
    let a = d.pending_identity;
    lemma_identity_prefix(ids, d3.pending_identity, a, a.len());
    let b = d.pending_replicas;
    lemma_replica_prefix(reps, d3.pending_replicas, b, b.len());
    assert(d3.pending_placements.drop_last() =~= d.pending_placements);
}

/// A placement leaves directories that logs and pending records cover.
pub proof fn placement_stays_covered(
    d: DirV,
    ids: Map<u128, LogicalId>,
    reps: Map<u64, ReplicaId>,
    places: Map<u64, Placement>,
    rid: ReplicaId,
    p: Placement,
)
    requires
        covered(d, ids, reps, places),
        gate(lookup(d.placements, rid.0), rid, p) is Ok,
    ensures
        covered(dir_place(d, rid, p), ids, reps, places),
{
    assert(dir_place(d, rid, p).pending_placements.drop_last() =~= d.pending_placements);
}

/// Once the pending records are published, the logs alone hold the
/// directories: nothing is lost when the log of frames is emptied.
pub proof fn flush_publishes_the_directories(
    d: DirV,
    ids: Map<u128, LogicalId>,
    reps: Map<u64, ReplicaId>,
    places: Map<u64, Placement>,
)
    requires
        covered(d, ids, reps, places),
    ensures
        ({
            let ids2 = identity_all(ids, d.pending_identity, d.pending_identity.len())->Ok_0;
            let reps2 = replica_all(reps, d.pending_replicas, d.pending_replicas.len())->Ok_0;
            let places2 = build(places, d.pending_placements)->Ok_0;
            &&& ids2 == d.identity
            &&& reps2 == d.replicas
            &&& places2 == d.placements
            &&& covered(settled(d), ids2, reps2, places2)
        }),
{
}

// ---------------------------------------------------------------------------
// Opening again
/// The file of a written segment.
pub open spec fn holds_segment(f: SegmentFile, m: MadeV) -> bool {
    f matches Ok(b) && b@ == blocks_bytes(m.rows, split(m.rows, m.target, true, m.v3), true, m.v3)
}

/// The segments of a database are those that were written.
pub open spec fn segments_of(made: Seq<MadeV>) -> Seq<SegV> {
    made.map_values(|m: MadeV| made_seg(m))
}

proof fn lemma_files_open(files: Seq<SegmentFile>, made: Seq<MadeV>, n: nat)
    requires
        n <= made.len(),
        files.len() == made.len(),
        forall|i: int|
            0 <= i < made.len() ==> made_ok(#[trigger] made[i]) && holds_segment(files[i], made[i]),
    ensures
        segment_files(files, n) == Ok::<Seq<SegV>, ErrV>(segments_of(made.take(n as int))),
    decreases n,
{
    if n > 0 {
        lemma_files_open(files, made, (n - 1) as nat);
        let m = made[n - 1];
        assert(made_ok(made[n - 1]) && holds_segment(files[n - 1], made[n - 1]));
        reveal(rows_fit);
        open_gives_back_writes(m.rows, split(m.rows, m.target, true, m.v3), true, m.v3);
        assert(segments_of(made.take(n as int)) =~= segments_of(made.take(n - 1)).push(
            made_seg(m),
        ));
    } else {
        assert(segments_of(made.take(0)) =~= Seq::<SegV>::empty());
    }
}

/// Opening the files of a database again gives the database back: the same
/// segments, directories, placements and generations, and in memory what the
/// committed batches left; so every read gives what it gave before. What was
/// torn off the log's end takes nothing with it. `base` is the database as the
/// files without the log hold it.
pub proof fn reopening_gives_the_database_back(
    base: DbV,
    before: DbV,
    current: u64,
    m: ManifestV,
    f: Files,
    made: Seq<MadeV>,
    fs: Seq<WalFrameV>,
    torn: Seq<u8>,
    key: Seq<u8>,
    oid: Seq<u8>,
)
    requires
        base.active == mem_empty(),
        base.immutables.len() == 0,
        base.segments == segments_of(made),
        base.dirs == settled(base.dirs),
        committed(base, fs, fs.len()) == Ok::<DbV, ErrV>(before),
        m.generation == current,
        identity_recovered(checkpoint_view(f.checkpoint), f.identity@) == Ok::<Map<u128, LogicalId>, ErrV>(
            base.dirs.identity,
        ),
        replicas_recovered(checkpoint_view(f.checkpoint), f.replicas@) == Ok::<Map<u64, ReplicaId>, ErrV>(
            base.dirs.replicas,
        ),
        placements_recovered(checkpoint_view(f.checkpoint), f.placements@) == Ok::<Map<u64, Placement>, ErrV>(
            base.dirs.placements,
        ),
        f.segments@.len() == made.len(),
        forall|i: int|
            0 <= i < made.len() ==> made_ok(#[trigger] made[i]) && holds_segment(
                f.segments@[i],
                made[i],
            ),
        stream_fits(fs, None),
        f.wal@ == stream_bytes(fs) + torn,
        forall|p: int| 0 <= p < torn.len() ==> frame_of(#[trigger] torn.skip(p)) is Err,
    ensures
        loaded(current, m, f) == Ok::<(DirV, Seq<SegV>), ErrV>((base.dirs, base.segments)),
        replay_on(base.dirs, f.wal@) == Ok::<(MemV, DirV, int, u64), ErrV>(
            (
                before.active,
                before.dirs,
                stream_bytes(fs).len() as int,
                top_frame(fs, fs.len()),
            ),
        ),
        before.segments == base.segments,
        before.immutables.len() == 0,
        forall|after: DbV|
            after.active == before.active && after.dirs == before.dirs && after.segments
                == before.segments && after.immutables.len() == 0 ==> #[trigger] db_get(after, key)
                == db_get(before, key) && db_get_object(after, oid, key) == db_get_object(
                before,
                oid,
                key,
            ),
{
    reveal(loaded);
    lemma_files_open(f.segments@, made, made.len());
    assert(made.take(made.len() as int) =~= made);
    committed_batches_come_back(base, fs, torn);
    lemma_committed(base, fs, fs.len());
    assert forall|after: DbV|
        after.active == before.active && after.dirs == before.dirs && after.segments
            == before.segments && after.immutables.len() == 0 implies #[trigger] db_get(after, key)
        == db_get(before, key) && db_get_object(after, oid, key) == db_get_object(
        before,
        oid,
        key,
    ) by {
        assert(after.immutables =~= before.immutables);
        assert(mem_layers(after) =~= mem_layers(before));
    }
}

} // verus!
