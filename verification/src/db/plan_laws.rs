//! What the plans of flushes and compactions write, and what directories take
//! in.

use crate::compaction::run::{chunk_is, chunk_of_file, file_of, LiveChunk, Merged, Relocation};
use crate::db::compact::{compact_ok, moves, CompactPlan};
use crate::db::directories::{
    dir_create, identified, identity_gate, replica_gate, replicated, DirV,
};
use crate::db::flush::{flush_fails, flush_ok, flushed_as, place_all, FlushPlan};
use crate::db::laws::{chunk_is_what_was_written, rows_fit};
use crate::db::state::{object_of, DbV};
use crate::format::FormatError;
use crate::hash::sha256_of;
use crate::identity::directory::{IdentityRecordV, ReplicaRecord};
use crate::identity::logical_id::LogicalId;
use crate::identity::node_id::NodeId;
use crate::identity::object_id::oid_number;
use crate::identity::replica_id::ReplicaId;
use crate::idmap::lookup;
use crate::layout_laws::{number, numbers_are_little_endian};
use crate::memtable::has_replicas;
use crate::placement::directory::{Placement, PlacementRecord};
use crate::compaction::run::Home;
use crate::segment::open_laws::header_bounds_sequences;
use crate::segment::write::{in_order, max_seq, min_seq, Published};
use vstd::prelude::*;

verus! {

// ---------------------------------------------------------------------------
// Flushes
/// What a flush records of a memtable: a segment on the ground level, under the
/// next identifier, with the bounds of its keys and its sequences, the number
/// of its rows, and the size of its file. The segments before it stay recorded,
/// the generation is the next one, and CURRENT names it.
pub proof fn flushed_rows_are_recorded(
    s: DbV,
    p: FlushPlan,
    homes: Seq<(u64, Home)>,
    target: nat,
    after: DbV,
    i: int,
    k: int,
)
    requires
        flush_ok(s, p, homes, target, after),
        0 <= i < s.immutables.len(),
        in_order(s.immutables[i].rows),
        rows_fit(s.immutables[i].rows, target, has_replicas(s.immutables[i].rows)),
        0 <= k < s.immutables[i].rows.len(),
        s.generation < u64::MAX,
        s.next_segment_id + s.immutables.len() <= u64::MAX,
    ensures
        ({
            let m = p.manifest@;
            let rows = s.immutables[i].rows;
            let r = m.segments[s.records.len() + i];
            &&& m.generation == s.generation + 1
            &&& m.format_version == 1
            &&& m.wal_ids.len() == 0
            &&& m.segments.len() == s.records.len() + s.immutables.len()
            &&& m.segments.take(s.records.len() as int) == s.records
            &&& r.segment_id == s.next_segment_id + i
            &&& r.level == 0
            &&& r.key_min == rows[0].key
            &&& r.key_max == rows[rows.len() - 1].key
            &&& r.seq_lo <= rows[k].seq <= r.seq_hi
            &&& r.seq_lo == min_seq(rows)
            &&& r.seq_hi == max_seq(rows)
            &&& r.record_count == rows.len()
            &&& r.file_size == p.chunks@[i].reader@.bytes.len()
            &&& p.current.manifest_generation == m.generation
            &&& p.current.format_version == 1
            &&& after.generation == m.generation
            &&& after.records == m.segments
            &&& after.immutables.len() == 0
            &&& after.next_segment_id == s.next_segment_id + s.immutables.len()
            &&& after.segments == s.segments
            &&& after.next_seq == s.next_seq
            &&& after.active == s.active
            &&& after.dirs.identity == s.dirs.identity
            &&& after.dirs.replicas == s.dirs.replicas
            &&& after.dirs.pending_identity.len() == 0
            &&& after.dirs.pending_replicas.len() == 0
            &&& after.dirs.pending_placements.len() == 0
        }),
        p.identity is None <==> s.dirs.pending_identity.len() == 0,
        p.identity matches Some(l) ==> l@.records == s.dirs.pending_identity && l.generation
            == s.generation + 1 && l.format_version == 1,
        p.replicas is None <==> s.dirs.pending_replicas.len() == 0,
        p.replicas matches Some(l) ==> l@.records == s.dirs.pending_replicas && l.generation
            == s.generation + 1 && l.format_version == 1,
        p.placements matches Some(l) ==> l.generation == s.generation + 1 && l.format_version == 1
            && l@.records.len() == s.dirs.pending_placements.len() + homes.len()
            && l@.records.take(s.dirs.pending_placements.len() as int)
            == s.dirs.pending_placements,
        p.placements is None <==> s.dirs.pending_placements.len() + homes.len() == 0,
{
    lemma_places_pending(s.dirs, s.next_placement_generation, homes, homes.len());
    let rows = s.immutables[i].rows;
    let c = p.chunks@[i];
    assert(flushed_as(p.chunks@[i], s.immutables[i], s.next_segment_id + i, target));
    chunk_is_what_was_written(c, rows, target, has_replicas(rows));
    assert(c.file_size == c.reader@.bytes.len()) by {
        reveal(chunk_is);
        let q = choose|q: Published| #[trigger]
            file_of(Ok(q), rows, target, has_replicas(rows)) && chunk_of_file(c, q);
        lemma_file_size(q, rows, target, has_replicas(rows));
    }
    header_bounds_sequences(rows, k);
    reveal(rows_fit);
    let n = s.records.len() as int;
    assert(p.manifest@.segments[n + i] == crate::db::flush::record_of(c, 0));
    assert(p.manifest@.segments.take(s.records.len() as int) =~= s.records);
}

/// A flush that fails publishes nothing: no segment is added, the generation,
/// the active memtable and the sequence stay. The chunks that were written are
/// recorded behind the records before, and the identifier of the one that
/// failed is used up; the directories change only once all were written.
pub proof fn failed_flushes_publish_nothing(
    s: DbV,
    e: FormatError,
    chunks: Seq<LiveChunk>,
    homes: Seq<(u64, Home)>,
    target: nat,
    after: DbV,
)
    requires
        flush_fails(s, e, chunks, homes, target, after),
        chunks.len() <= s.immutables.len(),
        s.next_segment_id + s.immutables.len() <= u64::MAX,
    ensures
        after.segments == s.segments,
        after.generation == s.generation,
        after.active == s.active,
        after.next_seq == s.next_seq,
        after.immutables.len() == 0,
        after.records.len() == s.records.len() + chunks.len(),
        after.records.take(s.records.len() as int) == s.records,
        forall|k: int|
            0 <= k < chunks.len() ==> (#[trigger] after.records[s.records.len() + k]).segment_id
                == chunks[k].segment_id && after.records[s.records.len() + k].level == 0,
        chunks.len() < s.immutables.len() ==> {
            &&& after.dirs == s.dirs
            &&& after.next_placement_generation == s.next_placement_generation
            &&& after.next_segment_id == s.next_segment_id + chunks.len() + 1
        },
        chunks.len() == s.immutables.len() ==> after.next_segment_id == s.next_segment_id
            + chunks.len(),
{
    assert(after.records.take(s.records.len() as int) =~= s.records);
}

/// Placing homes leaves identities and replicas as they are, and one record of
/// each home pending.
proof fn lemma_places_pending(d: DirV, first: u64, homes: Seq<(u64, Home)>, n: nat)
    requires
        n <= homes.len(),
        place_all(d, first, homes, n).2 is Ok,
    ensures
        ({
            let a = place_all(d, first, homes, n).0;
            let k = d.pending_placements.len() as int;
            &&& a.identity == d.identity
            &&& a.replicas == d.replicas
            &&& a.pending_identity == d.pending_identity
            &&& a.pending_replicas == d.pending_replicas
            &&& a.pending_placements.len() == k + n
            &&& a.pending_placements.take(k) == d.pending_placements
        }),
    decreases n,
{
    let k = d.pending_placements.len() as int;
    if n > 0 {
        lemma_places_pending(d, first, homes, (n - 1) as nat);
        let b = place_all(d, first, homes, (n - 1) as nat).0;
        let a = place_all(d, first, homes, n).0;
        assert(a.pending_placements.take(k) =~= b.pending_placements.take(k));
    } else {
        assert(d.pending_placements.take(k) =~= d.pending_placements);
    }
}

/// The bounds of the sequences are sequences of rows.
pub proof fn recorded_bounds_are_reached(es: Seq<crate::segment::entry::EntryV>) -> (r: (int, int))
    requires
        es.len() > 0,
    ensures
        0 <= r.0 < es.len(),
        0 <= r.1 < es.len(),
        es[r.0].seq == min_seq(es),
        es[r.1].seq == max_seq(es),
    decreases es.len(),
{
    if es.len() <= 1 {
        (0, 0)
    } else {
        let n = es.len() - 1;
        let (a, b) = recorded_bounds_are_reached(es.drop_last());
        (
            if es.last().seq == min_seq(es) {
                n
            } else {
                a
            },
            if es.last().seq == max_seq(es) {
                n
            } else {
                b
            },
        )
    }
}

proof fn lemma_file_size(
    p: Published,
    es: Seq<crate::segment::entry::EntryV>,
    target: nat,
    v3: bool,
)
    requires
        file_of(Ok(p), es, target, v3),
    ensures
        p.file_size == p.bytes@.len(),
{
    let r: Result<Published, FormatError> = Ok(p);
    let (entries, order) = choose|
        entries: Seq<crate::segment::entry::SegmentEntry>,
        order: Seq<crate::segment::entry::SegmentEntry>,
    |
        crate::segment::entry::entries_view(entries) == es
            && #[trigger] crate::segment::write::publish_outcome(
            r,
            entries,
            order,
            target,
            true,
            v3,
        );
    assert(crate::segment::write::publishes(
        p,
        crate::segment::entry::entries_view(order),
        target,
        true,
        v3,
    ));
}

// ---------------------------------------------------------------------------
// Compactions
proof fn lemma_moves(list: Seq<u64>, m: Map<u64, Relocation>, first: u64, n: nat)
    requires
        n <= list.len(),
        moves(list, m, first, n).2 is Ok,
    ensures
        ({
            let (recs, used, _) = moves(list, m, first, n);
            &&& recs.len() == n
            &&& used == n
            &&& forall|i: int|
                0 <= i < n ==> (#[trigger] recs[i]).rid.0 == list[i] && m.contains_key(list[i])
                    && moved(recs[i].placement, m[list[i]], (first + i) as u64)
        }),
    decreases n,
{
    if n > 0 {
        lemma_moves(list, m, first, (n - 1) as nat);
        let before = moves(list, m, first, (n - 1) as nat).0;
        let recs = moves(list, m, first, n).0;
        assert forall|i: int| 0 <= i < n implies (#[trigger] recs[i]).rid.0 == list[i]
            && m.contains_key(list[i]) && moved(
            recs[i].placement,
            m[list[i]],
            (first + i) as u64,
        ) by {
            if i < n - 1 {
                assert(recs[i] == before[i]);
            }
        }
    }
}

/// Where a replica went: to the place of its row, or nowhere, at a generation.
pub open spec fn moved(p: Placement, to: Relocation, generation: u64) -> bool {
    match to {
        Some((segment, block, entry)) => p matches Placement::Segment(loc) && loc.segment_id
            == segment && loc.block_id == block && loc.entry_offset == entry && loc.generation
            == generation,
        None => p == (Placement::Retired { generation }),
    }
}

/// The plan of a compaction: the manifest names its new segments, all on the
/// level above the ground, and no other; every segment that was recorded is
/// obsolete; and each replica with a row in a segment moves once, each at a
/// generation of its own, to where its row went, or is retired where none did.
pub proof fn compactions_replace_every_segment(
    s: DbV,
    p: CompactPlan,
    m: Merged,
    list: Seq<u64>,
    after: DbV,
    i: int,
)
    requires
        compact_ok(s, p, m, list, after),
        s.generation < u64::MAX,
    ensures
        p.manifest@.generation == s.generation + 1,
        p.current.manifest_generation == s.generation + 1,
        p.current.format_version == 1,
        p.manifest@.segments.len() == m.live@.len(),
        0 <= i < m.live@.len() ==> {
            let r = p.manifest@.segments[i];
            let c = m.live@[i];
            &&& r.level == 1
            &&& r.segment_id == c.segment_id
            &&& r.key_min == c.reader@.key_min
            &&& r.key_max == c.reader@.key_max
            &&& r.seq_lo == c.reader@.seq_lo
            &&& r.seq_hi == c.reader@.seq_hi
            &&& r.record_count == c.reader@.entry_count
            &&& r.file_size == c.file_size
            &&& r.checksum == c.checksum
        },
        p.obsolete@.len() == s.records.len(),
        0 <= i < s.records.len() ==> p.obsolete@[i] == s.records[i].segment_id,
        p.placements is None <==> list.len() == 0,
        p.placements matches Some(l) ==> {
            &&& l.generation == s.generation + 1
            &&& l.records@.len() == list.len()
            &&& 0 <= i < list.len() ==> l.records@[i].rid.0 == list[i] && moved(
                l.records@[i].placement,
                m.relocations@[list[i]],
                (s.next_placement_generation + i) as u64,
            )
        },
        after.dirs == s.dirs,
        after.segments == s.segments,
        after.active == s.active,
        after.immutables == s.immutables,
{
    lemma_moves(list, m.relocations@, s.next_placement_generation, list.len());
}

// ---------------------------------------------------------------------------
// Directories
/// An object has one logical identity: a record of it is let in where the
/// object is unknown or has just that identity, and refused otherwise. No other
/// object changes.
pub proof fn objects_have_one_identity(
    m: Map<u128, LogicalId>,
    oid: Seq<u8>,
    lid: LogicalId,
    other: u128,
)
    ensures
        identity_gate(m, oid, lid) is Ok <==> !m.contains_key(oid_number(oid)) || m[oid_number(oid)]
            == lid,
        identity_gate(m, oid, lid) is Err ==> identity_gate(m, oid, lid)->Err_0 is Corrupt
            && identified(m, oid, lid) == m,
        identity_gate(m, oid, lid) is Ok ==> lookup(identified(m, oid, lid), oid_number(oid))
            == Some(lid),
        other != oid_number(oid) ==> lookup(identified(m, oid, lid), other) == lookup(m, other),
{
}

/// A logical identity has one replica, on this node: a record of another node,
/// or of another replica, is refused.
pub proof fn identities_have_one_replica(m: Map<u64, ReplicaId>, rec: ReplicaRecord, other: u64)
    ensures
        replica_gate(m, rec) is Ok <==> rec.node == NodeId(1)
            && (!m.contains_key(rec.lid.0) || m[rec.lid.0] == rec.rid),
        replica_gate(m, rec) is Err ==> replica_gate(m, rec)->Err_0 is Corrupt && replicated(m, rec)
            == m,
        replica_gate(m, rec) is Ok ==> lookup(replicated(m, rec), rec.lid.0) == Some(rec.rid),
        other != rec.lid.0 ==> lookup(replicated(m, rec), other) == lookup(m, other),
{
}

/// A creation that is let in enters the identity, the replica and the place in
/// memory, and leaves one record of each to be published.
pub proof fn creations_are_entered_and_pending(
    d: DirV,
    oid: Seq<u8>,
    lid: LogicalId,
    rid: ReplicaId,
    pgen: u64,
)
    requires
        dir_create(d, oid, lid, rid, pgen).1 is Ok,
    ensures
        ({
            let a = dir_create(d, oid, lid, rid, pgen).0;
            &&& lookup(a.identity, oid_number(oid)) == Some(lid)
            &&& lookup(a.replicas, lid.0) == Some(rid)
            &&& !d.placements.contains_key(rid.0) ==> lookup(a.placements, rid.0) == Some(
                Placement::Memtable { generation: pgen },
            )
            &&& a.pending_identity == d.pending_identity.push(IdentityRecordV { oid, lid })
            &&& a.pending_replicas == d.pending_replicas.push(
                ReplicaRecord {
                    lid,
                    node: NodeId(1),
                    rid,
                },
            )
            &&& a.pending_placements == d.pending_placements.push(
                PlacementRecord { rid, placement: Placement::Memtable { generation: pgen } },
            )
        }),
{
}

/// A new object's identity is the first half of the digest of its logical one.
pub proof fn objects_are_named_by_a_digest(lid: LogicalId)
    ensures
        object_of(lid) == sha256_of(number(lid.0 as nat, 8)).take(16),
{
    numbers_are_little_endian(lid.0 as nat, 8);
}

} // verus!
