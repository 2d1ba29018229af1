//! Flushing: the memtables become segments.
//!
//! The plan of a flush lists what is to be written, in the order in which it
//! must be written: segment files, directory logs, manifest, CURRENT. Then the
//! log is emptied, and the new segments join the readable ones.

use crate::compaction::laws::{anchor_count, anchors_are_rows, homes_are_anchors};
use crate::compaction::run::{
    all_wf, chunk_fails, chunk_is, find_homes, homes_of, publish_chunk, segs_view, Home, LiveChunk,
};
use crate::db::directories::{dir_place, DirV, Directories};
use crate::db::state::{mems_view, rotated, Db, DbV};
use crate::format::{
    records_view, rv, Current, ErrV, FormatError, Manifest, ManifestV, SegmentRecord,
    SegmentRecordV, FORMAT_VERSION,
};
use crate::identity::directory::{
    identity_view, IdentityLog, IdentityLogV, IdentityRecord, ReplicaLog, ReplicaLogV,
    ReplicaRecord,
};
use crate::identity::replica_id::ReplicaId;
use crate::idmap::{lemma_lists_len, lists_map, lookup};
use crate::memtable::{has_replicas, MemV, Memtable};
use crate::placement::directory::{
    gate, PhysicalLocation, Placement, PlacementLog, PlacementLogV, PlacementRecord,
};
use crate::segment::open::{SegV, SegmentReader};
use vstd::prelude::*;

verus! {

/// The manifest's record of a chunk.
pub open spec fn record_of(c: LiveChunk, level: u8) -> SegmentRecordV {
    SegmentRecordV {
        segment_id: c.segment_id,
        level,
        key_min: c.reader@.key_min,
        key_max: c.reader@.key_max,
        seq_lo: c.reader@.seq_lo,
        seq_hi: c.reader@.seq_hi,
        record_count: c.reader@.entry_count,
        file_size: c.file_size,
        checksum: c.checksum,
    }
}

/// The records of chunks.
pub open spec fn records_of(chunks: Seq<LiveChunk>, level: u8) -> Seq<SegmentRecordV> {
    chunks.map_values(|c: LiveChunk| record_of(c, level))
}

/// The manifest's record of a chunk.
pub fn chunk_record(c: &LiveChunk, level: u8) -> (r: SegmentRecord)
    ensures
        r@ == record_of(*c, level),
{
    SegmentRecord {
        segment_id: c.segment_id,
        level,
        key_min: crate::codec::to_vec(c.reader.key_min()),
        key_max: crate::codec::to_vec(c.reader.key_max()),
        seq_lo: c.reader.seq_lo(),
        seq_hi: c.reader.seq_hi(),
        record_count: c.reader.entry_count(),
        file_size: c.file_size,
        checksum: c.checksum,
    }
}

/// Chunk `i` is the segment of memtable `i`.
pub open spec fn flushed_as(c: LiveChunk, m: MemV, id: int, target: nat) -> bool {
    c.segment_id == id && chunk_is(c, m.rows, target, has_replicas(m.rows))
}

/// The chunks are the segments of the first memtables, oldest first, with
/// identifiers from `first` on.
pub open spec fn flushes(chunks: Seq<LiveChunk>, mems: Seq<MemV>, first: u64, target: nat) -> bool {
    &&& chunks.len() <= mems.len()
    &&& forall|i: int|
        0 <= i < chunks.len() ==> flushed_as(#[trigger] chunks[i], mems[i], first + i, target)
}

/// The state once the chunks are recorded, with `taken` identifiers used.
pub open spec fn recorded(s: DbV, chunks: Seq<LiveChunk>, taken: int) -> DbV {
    DbV {
        immutables: seq![],
        records: s.records + records_of(chunks, 0),
        next_segment_id: (s.next_segment_id + taken) as u64,
        ..s
    }
}

// ---------------------------------------------------------------------------
// Placements
/// The location of a home at a generation.
pub open spec fn location_of(h: Home, generation: u64) -> Placement {
    Placement::Segment(
        PhysicalLocation {
            segment_id: h.segment_id,
            block_id: h.block_id,
            entry_offset: h.entry_offset,
            generation,
        },
    )
}

/// The directories after the first `n` homes were placed, each at a fresh
/// generation, up to the first that is refused; and how many generations were
/// used.
pub open spec fn place_all(d: DirV, first: u64, homes: Seq<(u64, Home)>, n: nat) -> (
    DirV,
    nat,
    Result<(), ErrV>,
)
    decreases n,
{
    if n == 0 {
        (d, 0, Ok(()))
    } else {
        let (d1, used, r) = place_all(d, first, homes, (n - 1) as nat);
        if r is Err {
            (d1, used, r)
        } else {
            let rid = ReplicaId(homes[n - 1].0);
            let p = location_of(homes[n - 1].1, (first + n - 1) as u64);
            match gate(lookup(d1.placements, rid.0), rid, p) {
                Err(e) => (d1, n, Err(e)),
                Ok(_) => (dir_place(d1, rid, p), n, Ok(())),
            }
        }
    }
}

proof fn lemma_place_err(d: DirV, first: u64, homes: Seq<(u64, Home)>, i: nat, n: nat)
    requires
        i <= n,
        place_all(d, first, homes, i).2 is Err,
    ensures
        place_all(d, first, homes, n) == place_all(d, first, homes, i),
    decreases n - i,
{
    if i < n {
        lemma_place_err(d, first, homes, i, (n - 1) as nat);
    }
}

/// Places every home at a fresh generation.
fn place_homes(dirs: &mut Directories, next: &mut u64, homes: &Vec<(u64, Home)>) -> (r: Result<
    (),
    FormatError,
>)
    requires
        *old(next) + homes@.len() <= u64::MAX,
    ensures
        ({
            let (d, used, done) = place_all(old(dirs)@, *old(next), homes@, homes@.len());
            &&& final(dirs)@ == d
            &&& *final(next) == *old(next) + used
            &&& rv(r) == done
        }),
{
    let ghost d0 = dirs@;
    let ghost first = *next;
    let mut i: usize = 0;
    while i < homes.len()
        invariant
            i <= homes@.len(),
            d0 == old(dirs)@,
            first == *old(next),
            first + homes@.len() <= u64::MAX,
            *next == first + i,
            place_all(d0, first, homes@, i as nat) == (dirs@, i as nat, Ok::<(), ErrV>(())),
        decreases homes@.len() - i,
    {
        let (rid, h) = homes[i];
        let pgen = *next;
        *next = pgen + 1;
        let placement = Placement::Segment(
            PhysicalLocation {
                segment_id: h.segment_id,
                block_id: h.block_id,
                entry_offset: h.entry_offset,
                generation: pgen,
            },
        );
        match dirs.place(ReplicaId(rid), placement) {
            Err(e) => {
                proof {
                    lemma_place_err(d0, first, homes@, (i + 1) as nat, homes@.len());
                }
                return Err(e);
            },
            Ok(_) => {},
        }
        i += 1;
    }
    Ok(())
}

// ---------------------------------------------------------------------------
// The plan
/// What a flush writes, in this order; the chunks' bytes are the segment
/// files.
pub struct FlushPlan {
    pub chunks: Vec<LiveChunk>,
    pub identity: Option<IdentityLog>,
    pub replicas: Option<ReplicaLog>,
    pub placements: Option<PlacementLog>,
    pub manifest: Manifest,
    pub current: Current,
}

/// The pending records that a generation publishes; none, where there are
/// none.
pub open spec fn publishes_pending(p: FlushPlan, d: DirV, generation: u64) -> bool {
    &&& match p.identity {
        Some(l) => d.pending_identity.len() > 0 && l@ == (IdentityLogV {
            format_version: FORMAT_VERSION,
            generation,
            records: d.pending_identity,
        }),
        None => d.pending_identity.len() == 0,
    }
    &&& match p.replicas {
        Some(l) => d.pending_replicas.len() > 0 && l@ == (ReplicaLogV {
            format_version: FORMAT_VERSION,
            generation,
            records: d.pending_replicas,
        }),
        None => d.pending_replicas.len() == 0,
    }
    &&& match p.placements {
        Some(l) => d.pending_placements.len() > 0 && l@ == (PlacementLogV {
            format_version: FORMAT_VERSION,
            generation,
            records: d.pending_placements,
        }),
        None => d.pending_placements.len() == 0,
    }
}

/// Directories with nothing pending.
pub open spec fn settled(d: DirV) -> DirV {
    DirV {
        pending_identity: seq![],
        pending_replicas: seq![],
        pending_placements: seq![],
        ..d
    }
}

/// The manifest of a generation.
pub open spec fn manifest_for(records: Seq<SegmentRecordV>, generation: u64) -> ManifestV {
    ManifestV { format_version: FORMAT_VERSION, generation, segments: records, wal_ids: seq![] }
}

/// A flush of the rotated state `s` with the homes `homes`.
pub open spec fn flush_ok(s: DbV, p: FlushPlan, homes: Seq<(u64, Home)>, target: nat, after: DbV) -> bool {
    let n = s.immutables.len();
    let generation = (s.generation + 1) as u64;
    let (d, used, done) = place_all(s.dirs, s.next_placement_generation, homes, homes.len());
    let s1 = recorded(s, p.chunks@, n as int);
    &&& n > 0
    &&& p.chunks@.len() == n
    &&& flushes(p.chunks@, s.immutables, s.next_segment_id, target)
    &&& lists_map(homes, homes_of(p.chunks@, n))
    &&& done is Ok
    &&& publishes_pending(p, d, generation)
    &&& p.manifest@ == manifest_for(s1.records, generation)
    &&& p.current == (Current { format_version: FORMAT_VERSION, manifest_generation: generation })
    &&& after == (DbV {
        generation,
        dirs: settled(d),
        next_placement_generation: (s.next_placement_generation + used) as u64,
        ..s1
    })
}

/// A flush of the rotated state `s` that fails: after some chunks, on one that
/// cannot be published; or on a placement that is refused.
pub open spec fn flush_fails(
    s: DbV,
    e: FormatError,
    chunks: Seq<LiveChunk>,
    homes: Seq<(u64, Home)>,
    target: nat,
    after: DbV,
) -> bool {
    let n = s.immutables.len();
    &&& flushes(chunks, s.immutables, s.next_segment_id, target)
    &&& if chunks.len() < n {
        let rows = s.immutables[chunks.len() as int].rows;
        &&& chunk_fails(e, rows, target, has_replicas(rows))
        &&& after == recorded(s, chunks, chunks.len() as int + 1)
    } else {
        let (d, used, done) = place_all(s.dirs, s.next_placement_generation, homes, homes.len());
        &&& lists_map(homes, homes_of(chunks, n))
        &&& done == Err::<(), ErrV>(e@)
        &&& after == (DbV {
            dirs: d,
            next_placement_generation: (s.next_placement_generation + used) as u64,
            ..recorded(s, chunks, n as int)
        })
    }
}

/// The rows of all memtables.
pub open spec fn mem_rows(mems: Seq<MemV>) -> nat
    decreases mems.len(),
{
    if mems.len() == 0 {
        0
    } else {
        mem_rows(mems.drop_last()) + mems.last().rows.len()
    }
}

/// What a flush needs of the counters: an identifier for each memtable, a
/// generation for each row's replica, and rows that a filter can count.
pub open spec fn flush_fits(s: DbV) -> bool {
    let r = rotated(s);
    &&& s.generation < u64::MAX
    &&& s.next_segment_id + r.immutables.len() <= u64::MAX
    &&& s.next_placement_generation + mem_rows(r.immutables) <= u64::MAX
    &&& 10 * mem_rows(r.immutables) <= usize::MAX - 7
}

proof fn lemma_mem_rows(mems: Seq<MemV>, i: int)
    requires
        0 <= i < mems.len(),
    ensures
        mems[i].rows.len() <= mem_rows(mems),
    decreases mems.len(),
{
    if i < mems.len() - 1 {
        lemma_mem_rows(mems.drop_last(), i);
        assert(mems.drop_last()[i] == mems[i]);
    }
}

proof fn lemma_anchor_rows(chunks: Seq<LiveChunk>, mems: Seq<MemV>, first: u64, target: nat, n: nat)
    requires
        flushes(chunks, mems, first, target),
        n <= chunks.len(),
    ensures
        anchor_count(chunks, n) <= mem_rows(mems.take(n as int)),
    decreases n,
{
    if n > 0 {
        lemma_anchor_rows(chunks, mems, first, target, (n - 1) as nat);
        assert(flushed_as(chunks[n - 1], mems[n - 1], first + n - 1, target));
        anchors_are_rows(chunks[n - 1], mems[n - 1].rows, target, has_replicas(mems[n - 1].rows));
        assert(mems.take(n as int).drop_last() =~= mems.take(n - 1));
        assert(mems.take(n as int).last() == mems[n - 1]);
    }
}

/// Publishes memtables as segments, recording each.
fn publish_mems(
    mems: &Vec<Memtable>,
    target: usize,
    records: &mut Vec<SegmentRecord>,
    next_id: &mut u64,
) -> (r: Result<Vec<LiveChunk>, FormatError>)
    requires
        *old(next_id) + mems@.len() <= u64::MAX,
        10 * mem_rows(mems_view(mems@)) <= usize::MAX - 7,
    ensures
        match r {
            Ok(chunks) => {
                &&& chunks@.len() == mems@.len()
                &&& flushes(chunks@, mems_view(mems@), *old(next_id), target as nat)
                &&& all_open(chunks@)
                &&& records_view(final(records)@) == records_view(old(records)@) + records_of(
                    chunks@,
                    0,
                )
                &&& *final(next_id) == *old(next_id) + mems@.len()
            },
            Err(e) => exists|chunks: Seq<LiveChunk>| #[trigger]
                publish_stops(
                    chunks,
                    e,
                    mems_view(mems@),
                    *old(next_id),
                    target as nat,
                ) && records_view(final(records)@) == records_view(old(records)@) + records_of(
                    chunks,
                    0,
                ) && *final(next_id) == *old(next_id) + chunks.len() + 1,
        },
{
    let ghost v = mems_view(mems@);
    let ghost first = *next_id;
    let ghost rec0 = records_view(records@);
    let mut out: Vec<LiveChunk> = Vec::new();
    let mut i: usize = 0;
    assert(records_view(records@) =~= rec0 + records_of(out@, 0));
    while i < mems.len()
        invariant
            i <= mems@.len(),
            v == mems_view(mems@),
            first == *old(next_id),
            rec0 == records_view(old(records)@),
            first + mems@.len() <= u64::MAX,
            10 * mem_rows(v) <= usize::MAX - 7,
            *next_id == first + i,
            out@.len() == i,
            flushes(out@, v, first, target as nat),
            all_open(out@),
            records_view(records@) == rec0 + records_of(out@, 0),
        decreases mems@.len() - i,
    {
        let id = *next_id;
        *next_id = id + 1;
        let ghost rows = v[i as int].rows;
        proof {
            assert(v[i as int] == mems@[i as int]@);
            lemma_mem_rows(v, i as int);
            assert(rows.subrange(0, rows.len() as int) =~= rows);
        }
        let v3 = mems[i].has_identity();
        let n = mems[i].entries.len();
        match publish_chunk(&mems[i].entries, 0, n, target, v3, id) {
            Err(e) => {
                assert(publish_stops(out@, e, v, first, target as nat));
                return Err(e);
            },
            Ok(c) => {
                let rec = chunk_record(&c, 0);
                let ghost r0 = records_view(records@);
                let ghost o0 = out@;
                records.push(rec);
                out.push(c);
                proof {
                    assert(records_view(records@) =~= r0.push(rec@));
                    assert(records_of(out@, 0) =~= records_of(o0, 0).push(rec@));
                    assert(r0.push(rec@) =~= rec0 + records_of(out@, 0));
                    assert forall|k: int| 0 <= k < out@.len() implies flushed_as(
                        #[trigger] out@[k],
                        v[k],
                        first + k,
                        target as nat,
                    ) by {
                        if k < i {
                            assert(out@[k] == o0[k]);
                        }
                    }
                    lemma_open(out@, v, first, target as nat);
                }
            },
        }
        i += 1;
    }
    Ok(out)
}

/// The readers of the chunks are well formed.
pub open spec fn all_open(chunks: Seq<LiveChunk>) -> bool {
    forall|i: int| 0 <= i < chunks.len() ==> (#[trigger] chunks[i]).reader.wf()
}

proof fn lemma_open(chunks: Seq<LiveChunk>, mems: Seq<MemV>, first: u64, target: nat)
    requires
        flushes(chunks, mems, first, target),
    ensures
        all_open(chunks),
{
    reveal(chunk_is);
    assert forall|i: int| 0 <= i < chunks.len() implies (#[trigger] chunks[i]).reader.wf() by {
        assert(flushed_as(chunks[i], mems[i], first + i, target));
    }
}

/// Publishing stops on the memtable behind the chunks.
pub open spec fn publish_stops(
    chunks: Seq<LiveChunk>,
    e: FormatError,
    mems: Seq<MemV>,
    first: u64,
    target: nat,
) -> bool {
    &&& chunks.len() < mems.len()
    &&& flushes(chunks, mems, first, target)
    &&& chunk_fails(
        e,
        mems[chunks.len() as int].rows,
        target,
        has_replicas(mems[chunks.len() as int].rows),
    )
}

/// Copies of records.
pub fn copy_records(records: &Vec<SegmentRecord>) -> (r: Vec<SegmentRecord>)
    ensures
        records_view(r@) == records_view(records@),
{
    let mut out: Vec<SegmentRecord> = Vec::new();
    let mut i: usize = 0;
    let ghost all = records_view(records@);
    assert(records_view(out@) =~= all.take(0));
    while i < records.len()
        invariant
            i <= records@.len(),
            all == records_view(records@),
            records_view(out@) == all.take(i as int),
        decreases records@.len() - i,
    {
        let ghost before = records_view(out@);
        let c = records[i].duplicate();
        let ghost cv = c@;
        out.push(c);
        assert(records_view(out@) =~= before.push(cv));
        assert(all.take(i + 1) =~= before.push(cv));
        i += 1;
    }
    assert(all.take(i as int) =~= all);
    out
}

/// The manifest of a generation.
pub fn make_manifest(records: &Vec<SegmentRecord>, generation: u64) -> (r: Manifest)
    ensures
        r@ == manifest_for(records_view(records@), generation),
{
    let r = Manifest {
        format_version: FORMAT_VERSION,
        generation,
        segments: copy_records(records),
        wal_ids: Vec::new(),
    };
    assert(r@.wal_ids =~= seq![]);
    r
}

/// Takes the pending records out as the logs of a generation.
fn take_pending(dirs: &mut Directories, generation: u64) -> (r: (
    Option<IdentityLog>,
    Option<ReplicaLog>,
    Option<PlacementLog>,
))
    ensures
        final(dirs)@ == settled(old(dirs)@),
        forall|p: FlushPlan|
            p.identity == r.0 && p.replicas == r.1 && p.placements == r.2
                ==> #[trigger] publishes_pending(p, old(dirs)@, generation),
{
    let ghost d0 = dirs@;
    let mut ids: Vec<IdentityRecord> = Vec::new();
    std::mem::swap(&mut dirs.pending_identity, &mut ids);
    let mut reps: Vec<ReplicaRecord> = Vec::new();
    std::mem::swap(&mut dirs.pending_replicas, &mut reps);
    let mut places: Vec<PlacementRecord> = Vec::new();
    std::mem::swap(&mut dirs.pending_placements, &mut places);
    assert(identity_view(dirs.pending_identity@) =~= seq![]);
    assert(identity_view(ids@) == d0.pending_identity);
    assert(ids@.len() == d0.pending_identity.len());
    let identity = if ids.len() > 0 {
        Some(IdentityLog { format_version: FORMAT_VERSION, generation, records: ids })
    } else {
        None
    };
    let replicas = if reps.len() > 0 {
        Some(ReplicaLog { format_version: FORMAT_VERSION, generation, records: reps })
    } else {
        None
    };
    let placements = if places.len() > 0 {
        Some(PlacementLog { format_version: FORMAT_VERSION, generation, records: places })
    } else {
        None
    };
    (identity, replicas, placements)
}

impl Db {
    /// Begins a flush: rotates, publishes each immutable memtable as a
    /// segment, places every flushed replica at its newest row, and gives out
    /// what is to be written. Nothing to flush is no flush. A failure leaves
    /// the memtables taken: their rows are in the log.
    pub fn flush(&mut self) -> (r: Result<Option<FlushPlan>, FormatError>)
        requires
            old(self).wf(),
            flush_fits(old(self)@),
        ensures
            final(self).wf(),
            final(self).config == old(self).config,
            match r {
                Ok(None) => rotated(old(self)@).immutables.len() == 0 && final(self)@ == old(self)@,
                Ok(Some(p)) => all_open(p.chunks@) && exists|homes: Seq<(u64, Home)>| #[trigger]
                    flush_ok(
                        rotated(old(self)@),
                        p,
                        homes,
                        old(self).config.block_target as nat,
                        final(self)@,
                    ),
                Err(e) => exists|chunks: Seq<LiveChunk>, homes: Seq<(u64, Home)>| #[trigger]
                    flush_fails(
                        rotated(old(self)@),
                        e,
                        chunks,
                        homes,
                        old(self).config.block_target as nat,
                        final(self)@,
                    ),
            },
    {
        self.rotate();
        let ghost s = self@;
        let target = self.config.block_target;
        if self.immutables.len() == 0 {
            return Ok(None);
        }
        let mut mems: Vec<Memtable> = Vec::new();
        std::mem::swap(&mut self.immutables, &mut mems);
        let ghost n = mems@.len();
        assert(mems_view(mems@) == s.immutables);
        assert(mems_view(self.immutables@) =~= seq![]);
        match publish_mems(&mems, target, &mut self.records, &mut self.next_segment_id) {
            Err(e) => {
                proof {
                    let chunks = choose|chunks: Seq<LiveChunk>| #[trigger]
                        publish_stops(
                            chunks,
                            e,
                            s.immutables,
                            s.next_segment_id,
                            target as nat,
                        ) && records_view(self.records@) == s.records + records_of(chunks, 0)
                            && self.next_segment_id == s.next_segment_id + chunks.len() + 1;
                    assert(self@ =~= recorded(s, chunks, chunks.len() as int + 1));
                    assert(flush_fails(s, e, chunks, seq![], target as nat, self@));
                }
                Err(e)
            },
            Ok(chunks) => {
                assert(self@ =~= recorded(s, chunks@, n as int));
                match self.plan_flush(chunks, Ghost(s)) {
                    Err(e) => Err(e),
                    Ok(p) => Ok(Some(p)),
                }
            },
        }
    }

    /// Places the homes of the chunks, and makes the plan of a flush of the
    /// state `s` whose chunks are recorded.
    fn plan_flush(&mut self, chunks: Vec<LiveChunk>, Ghost(s): Ghost<DbV>) -> (r: Result<
        FlushPlan,
        FormatError,
    >)
        requires
            old(self).wf(),
            old(self)@ == recorded(s, chunks@, s.immutables.len() as int),
            chunks@.len() == s.immutables.len() > 0,
            flushes(
                chunks@,
                s.immutables,
                s.next_segment_id,
                old(self).config.block_target as nat,
            ),
            all_open(chunks@),
            s.generation < u64::MAX,
            s.next_placement_generation + mem_rows(s.immutables) <= u64::MAX,
        ensures
            final(self).wf(),
            final(self).config == old(self).config,
            match r {
                Ok(p) => all_open(p.chunks@) && exists|homes: Seq<(u64, Home)>| #[trigger]
                    flush_ok(s, p, homes, old(self).config.block_target as nat, final(self)@),
                Err(e) => exists|homes: Seq<(u64, Home)>| #[trigger]
                    flush_fails(
                        s,
                        e,
                        chunks@,
                        homes,
                        old(self).config.block_target as nat,
                        final(self)@,
                    ),
            },
    {
        let ghost n = chunks@.len();
        let ghost target = self.config.block_target as nat;
        let homes = find_homes(&chunks);
        let list = homes.to_list();
        proof {
            homes_are_anchors(chunks@, n);
            lemma_anchor_rows(chunks@, s.immutables, s.next_segment_id, target, n);
            assert(s.immutables.take(n as int) =~= s.immutables);
            lemma_lists_len(list@, homes@);
        }
        match place_homes(&mut self.dirs, &mut self.next_placement_generation, &list) {
            Err(e) => {
                assert(flush_fails(s, e, chunks@, list@, target, self@));
                Err(e)
            },
            Ok(_) => {
                self.generation = self.generation + 1;
                let generation = self.generation;
                let ghost d = self.dirs@;
                let (identity, replicas, placements) = take_pending(&mut self.dirs, generation);
                let manifest = make_manifest(&self.records, generation);
                let p = FlushPlan {
                    chunks,
                    identity,
                    replicas,
                    placements,
                    manifest,
                    current: Current::new(FORMAT_VERSION, generation),
                };
                proof {
                    assert(publishes_pending(p, d, generation));
                    assert(flush_ok(s, p, list@, target, self@));
                }
                Ok(p)
            },
        }
    }

    /// Ends a flush that was written: its segments join the readable ones, as
    /// the newest.
    pub fn finish_flush(&mut self, chunks: Vec<LiveChunk>)
        requires
            old(self).wf(),
            all_open(chunks@),
        ensures
            final(self).wf(),
            final(self).config == old(self).config,
            final(self)@ == (DbV {
                segments: old(self)@.segments + chunk_segs(chunks@),
                ..old(self)@
            }),
    {
        let ghost segs = self@.segments;
        let ghost more = chunk_segs(chunks@);
        let mut readers = into_readers(chunks);
        self.segments.append(&mut readers);
        assert(segs_view(self.segments@) =~= segs + more);
    }
}

/// The readers of chunks, in order.
pub fn into_readers(chunks: Vec<LiveChunk>) -> (r: Vec<SegmentReader>)
    requires
        all_open(chunks@),
    ensures
        segs_view(r@) == chunk_segs(chunks@),
        all_wf(r@),
{
    let ghost all = chunks@;
    let mut chunks = chunks;
    let mut rest: Vec<LiveChunk> = Vec::new();
    while chunks.len() > 0
        invariant
            chunks@.len() + rest@.len() == all.len(),
            chunks@ == all.take(chunks@.len() as int),
            forall|k: int| 0 <= k < rest@.len() ==> rest@[k] == all[all.len() - 1 - k],
        decreases chunks@.len(),
    {
        match chunks.pop() {
            Some(c) => {
                rest.push(c);
            },
            None => {},
        }
    }
    let mut out: Vec<SegmentReader> = Vec::new();
    let ghost segs = chunk_segs(all);
    assert(segs_view(out@) =~= segs.take(0));
    while rest.len() > 0
        invariant
            rest@.len() + out@.len() == all.len(),
            all_open(all),
            segs == chunk_segs(all),
            forall|k: int| 0 <= k < rest@.len() ==> rest@[k] == all[all.len() - 1 - k],
            segs_view(out@) == segs.take(out@.len() as int),
            all_wf(out@),
        decreases rest@.len(),
    {
        let ghost n = out@.len() as int;
        let ghost before = segs_view(out@);
        match rest.pop() {
            Some(c) => {
                assert(c == all[n]);
                let ghost rv = c.reader@;
                out.push(c.reader);
                assert(segs_view(out@) =~= before.push(rv));
                assert(segs.take(n + 1) =~= before.push(rv));
            },
            None => {},
        }
    }
    assert(segs.take(out@.len() as int) =~= segs);
    out
}

/// The segments of chunks.
pub open spec fn chunk_segs(chunks: Seq<LiveChunk>) -> Seq<SegV> {
    chunks.map_values(|c: LiveChunk| c.reader@)
}

} // verus!
