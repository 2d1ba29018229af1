//! Compacting: all segments become one level.
//!
//! The plan of a compaction lists what is to be written, in order: the chunks
//! and the archive, the log of the moved placements, the manifest, CURRENT.
//! Then the new segments and placements take over, and the obsolete files can
//! go. Memtables are newer than every segment and take no part.

use crate::compaction::merge::{
    begun, best, helds, merge_cost, merge_reads, merged, path_fits, FrontV,
};
use crate::compaction::plan::{
    archived_rows, cut, judged, live_rows, pieces, KeepAll, Retention, RetentionPolicy,
};
use crate::compaction::run::{
    archive_slot, chunk_is, inputs_of, live_id, live_ok, merge, merge_fails, merge_fits, merge_ok,
    segs_view, short_merge, whole_runs, ArchiveChunk, CompactStats, LiveChunk, Merged, Relocation,
};
use crate::db::cached::ReadPath;
use crate::db::directories::DirV;
use crate::db::flush::{
    all_open, chunk_record, chunk_segs, into_readers, make_manifest, manifest_for, records_of,
};
use crate::db::state::{Db, DbV};
use crate::format::{
    records_view, rv, Current, ErrV, FormatError, Manifest, SegmentRecord, SegmentRecordV,
    FORMAT_VERSION,
};
use crate::identity::replica_id::ReplicaId;
use crate::idmap::{lemma_lists_len, lists_map, lookup, IdKey, IdMap};
use crate::placement::directory::{
    apply_records, build, left_by, PhysicalLocation, Placement, PlacementLog, PlacementLogV,
    PlacementRecord,
};
use crate::text::{dec, Text};
use vstd::prelude::*;

verus! {

// ---------------------------------------------------------------------------
// When to compact
/// The bytes of the records on level 0, or of those above it.
pub open spec fn level_bytes(records: Seq<SegmentRecordV>, ground: bool) -> nat
    decreases records.len(),
{
    if records.len() == 0 {
        0
    } else {
        level_bytes(records.drop_last(), ground) + (if (records.last().level == 0) == ground {
            records.last().file_size as nat
        } else {
            0
        })
    }
}

/// How many records are on level 0.
pub open spec fn ground_count(records: Seq<SegmentRecordV>) -> nat
    decreases records.len(),
{
    if records.len() == 0 {
        0
    } else {
        ground_count(records.drop_last()) + (if records.last().level == 0 {
            1nat
        } else {
            0
        })
    }
}

/// A write sets off a compaction when level 0 has enough segments, and enough
/// bytes against level 1.
pub open spec fn due(records: Seq<SegmentRecordV>, trigger: nat, ratio: nat) -> bool {
    let l0 = level_bytes(records, true);
    let l1 = level_bytes(records, false);
    &&& trigger > 0
    &&& ground_count(records) >= trigger
    &&& ratio == 0 || l1 == 0 || l0 >= l1 / ratio
}

impl Db {
    /// Whether a write should set off a compaction.
    pub fn compaction_due(&self) -> (r: bool)
        ensures
            r == due(
                self@.records,
                self.config.l0_compact_trigger as nat,
                self.config.l0_tier_ratio as nat,
            ),
    {
        if self.config.l0_compact_trigger == 0 {
            return false;
        }
        let ghost all = self@.records;
        let mut l0: usize = 0;
        let mut l0_bytes: u128 = 0;
        let mut l1_bytes: u128 = 0;
        let mut i: usize = 0;
        assert(all.take(0) =~= seq![]);
        while i < self.records.len()
            invariant
                i <= self.records@.len(),
                all == records_view(self.records@),
                l0 <= i,
                l0 == ground_count(all.take(i as int)),
                l0_bytes == level_bytes(all.take(i as int), true),
                l1_bytes == level_bytes(all.take(i as int), false),
                l0_bytes <= i * 0x1_0000_0000_0000_0000,
                l1_bytes <= i * 0x1_0000_0000_0000_0000,
            decreases self.records@.len() - i,
        {
            let size: u128 = self.records[i].file_size as u128;
            let n = self.records.len();
            proof {
                assert(all.take(i + 1).drop_last() =~= all.take(i as int));
                assert(all.take(i + 1).last() == self.records@[i as int]@);
                assert(i * 0x1_0000_0000_0000_0000 + 0x1_0000_0000_0000_0000 <= u128::MAX + 1)
                    by (nonlinear_arith)
                    requires
                        i < n,
                        n <= usize::MAX,
                        usize::MAX <= 0xffff_ffff_ffff_ffff,
                ;
                assert((i + 1) * 0x1_0000_0000_0000_0000 == i * 0x1_0000_0000_0000_0000
                    + 0x1_0000_0000_0000_0000) by (nonlinear_arith);
            }
            if self.records[i].level == 0 {
                l0 += 1;
                l0_bytes = l0_bytes + size;
            } else {
                l1_bytes = l1_bytes + size;
            }
            i += 1;
        }
        assert(all.take(i as int) =~= all);
        let ratio = self.config.l0_tier_ratio;
        let tier_ok = ratio == 0 || l1_bytes == 0 || l0_bytes >= l1_bytes / ratio as u128;
        l0 >= self.config.l0_compact_trigger && tier_ok
    }
}

// ---------------------------------------------------------------------------
// Moving placements
/// `s` lists the replicas whose rows lie in segments, in ascending order.
pub open spec fn lists_placed(s: Seq<u64>, m: Map<u64, Placement>) -> bool {
    &&& forall|i: int, j: int| #![trigger s[i], s[j]] 0 <= i < j < s.len() ==> s[i] < s[j]
    &&& forall|r: u64| #[trigger]
        s.contains(r) <==> m.contains_key(r) && m[r] is Segment
}

/// Where a replica goes at a generation.
pub open spec fn moved_to(to: Relocation, generation: u64) -> Placement {
    match to {
        Some(loc) => Placement::Segment(
            PhysicalLocation {
                segment_id: loc.0,
                block_id: loc.1,
                entry_offset: loc.2,
                generation,
            },
        ),
        None => Placement::Retired { generation },
    }
}

/// The records that move the first `n` replicas, each at a fresh generation;
/// how many generations were used; and the first replica of which the
/// compaction knows nothing.
pub open spec fn moves(list: Seq<u64>, m: Map<u64, Relocation>, first: u64, n: nat) -> (
    Seq<PlacementRecord>,
    nat,
    Result<(), ErrV>,
)
    decreases n,
{
    if n == 0 {
        (seq![], 0, Ok(()))
    } else {
        let (recs, used, r) = moves(list, m, first, (n - 1) as nat);
        if r is Err {
            (recs, used, r)
        } else {
            match lookup(m, list[n - 1]) {
                Some(to) => (
                    recs.push(
                        PlacementRecord {
                            rid: ReplicaId(list[n - 1]),
                            placement: moved_to(to, (first + n - 1) as u64),
                        },
                    ),
                    n,
                    Ok(()),
                ),
                None => (
                    recs,
                    n,
                    Err(
                        ErrV::Corrupt(
                            "segment-placed replica ReplicaId("@ + dec(list[n - 1] as nat)
                                + ") absent from the relocation set"@,
                        ),
                    ),
                ),
            }
        }
    }
}

proof fn lemma_moves_err(list: Seq<u64>, m: Map<u64, Relocation>, first: u64, i: nat, n: nat)
    requires
        i <= n,
        moves(list, m, first, i).2 is Err,
    ensures
        moves(list, m, first, n) == moves(list, m, first, i),
    decreases n - i,
{
    if i < n {
        lemma_moves_err(list, m, first, i, (n - 1) as nat);
    }
}

/// Replica `r` is among the first `n` bindings, and its row lies in a segment.
spec fn among(all: Seq<(u64, Placement)>, n: int, r: u64) -> bool {
    exists|k: int| 0 <= k < n && (#[trigger] all[k]).0 == r && all[k].1 is Segment
}

/// The replicas whose rows lie in segments.
fn segment_placed(placements: &IdMap<u64, Placement>) -> (r: Vec<u64>)
    ensures
        lists_placed(r@, placements@),
        r@.len() <= placements@.len(),
{
    let ghost m = placements@;
    let all = placements.to_list();
    proof {
        lemma_lists_len(all@, m);
    }
    let mut out: Vec<u64> = Vec::new();
    let mut i: usize = 0;
    while i < all.len()
        invariant
            i <= all@.len(),
            lists_map(all@, m),
            out@.len() <= i,
            forall|j: int| 0 <= j < out@.len() ==> among(all@, i as int, #[trigger] out@[j]),
            forall|j: int, k: int|
                #![trigger out@[j], out@[k]]
                0 <= j < k < out@.len() ==> out@[j] < out@[k],
            forall|k: int|
                0 <= k < i && (#[trigger] all@[k]).1 is Segment ==> out@.contains(all@[k].0),
        decreases all@.len() - i,
    {
        let ghost before = out@;
        let (rid, p) = all[i];
        let here = match p {
            Placement::Segment(_) => true,
            _ => false,
        };
        if here {
            out.push(rid);
            proof {
                assert forall|j: int, k: int|
                    #![trigger out@[j], out@[k]]
                    0 <= j < k < out@.len() implies out@[j] < out@[k] by {
                    if k == before.len() {
                        assert(before[j] == out@[j]);
                        assert(among(all@, i as int, before[j]));
                        let x = choose|x: int|
                            0 <= x < i && (#[trigger] all@[x]).0 == before[j] && all@[x].1 is Segment;
                        assert(all@[x].0.before(all@[i as int].0));
                    } else {
                        assert(before[j] == out@[j] && before[k] == out@[k]);
                    }
                }
                assert forall|k: int| 0 <= k < i + 1 && (#[trigger] all@[k]).1 is Segment implies out@.contains(
                    all@[k].0,
                ) by {
                    if k < i {
                        let j = choose|j: int| 0 <= j < before.len() && before[j] == all@[k].0;
                        assert(out@[j] == all@[k].0);
                    } else {
                        assert(out@[before.len() as int] == all@[k].0);
                    }
                }
            }
        }
        proof {
            assert forall|j: int| 0 <= j < out@.len() implies among(
                all@,
                i + 1,
                #[trigger] out@[j],
            ) by {
                if j < before.len() {
                    assert(before[j] == out@[j]);
                    assert(among(all@, i as int, before[j]));
                    let x = choose|x: int|
                        0 <= x < i && (#[trigger] all@[x]).0 == before[j] && all@[x].1 is Segment;
                    assert(all@[x].0 == out@[j]);
                } else {
                    assert(all@[i as int].0 == out@[j]);
                }
            }
        }
        i += 1;
    }
    proof {
        assert forall|r: u64| #[trigger] out@.contains(r) <==> m.contains_key(r) && m[r] is Segment by {
            if out@.contains(r) {
                let j = choose|j: int| 0 <= j < out@.len() && out@[j] == r;
                assert(among(all@, i as int, out@[j]));
                let k = choose|k: int|
                    0 <= k < i && (#[trigger] all@[k]).0 == out@[j] && all@[k].1 is Segment;
                assert(m.contains_key(all@[k].0));
            }
            if m.contains_key(r) && m[r] is Segment {
                let k = choose|k: int| 0 <= k < all@.len() && (#[trigger] all@[k]).0 == r;
                assert(m[all@[k].0] == all@[k].1);
            }
        }
    }
    out
}

/// The records that move the replicas.
fn make_moves(list: &Vec<u64>, m: &IdMap<u64, Relocation>, next: &mut u64) -> (r: Result<
    Vec<PlacementRecord>,
    FormatError,
>)
    requires
        *old(next) + list@.len() <= u64::MAX,
    ensures
        ({
            let (recs, used, done) = moves(list@, m@, *old(next), list@.len());
            &&& *final(next) == *old(next) + used
            &&& match done {
                Ok(_) => r is Ok && r->Ok_0@ == recs,
                Err(e) => r is Err && r->Err_0@ == e,
            }
        }),
{
    let ghost first = *next;
    let mut out: Vec<PlacementRecord> = Vec::new();
    let mut i: usize = 0;
    while i < list.len()
        invariant
            i <= list@.len(),
            first == *old(next),
            first + list@.len() <= u64::MAX,
            *next == first + i,
            moves(list@, m@, first, i as nat) == (out@, i as nat, Ok::<(), ErrV>(())),
        decreases list@.len() - i,
    {
        let rid = list[i];
        let pgen = *next;
        *next = pgen + 1;
        match m.get(rid) {
            Some(Some(loc)) => {
                out.push(
                    PlacementRecord {
                        rid: ReplicaId(rid),
                        placement: Placement::Segment(
                            PhysicalLocation {
                                segment_id: loc.0,
                                block_id: loc.1,
                                entry_offset: loc.2,
                                generation: pgen,
                            },
                        ),
                    },
                );
            },
            Some(None) => {
                out.push(
                    PlacementRecord {
                        rid: ReplicaId(rid),
                        placement: Placement::Retired { generation: pgen },
                    },
                );
            },
            None => {
                proof {
                    lemma_moves_err(list@, m@, first, (i + 1) as nat, list@.len());
                }
                return Err(
                    FormatError::Corrupt(
                        Text::new("segment-placed replica ReplicaId(").num(rid).lit(
                            ") absent from the relocation set",
                        ).done(),
                    ),
                );
            },
        }
        i += 1;
    }
    Ok(out)
}

// ---------------------------------------------------------------------------
// The plan
/// What a compaction writes, in this order, and what then takes over.
pub struct CompactPlan {
    pub stats: CompactStats,
    pub chunks: Vec<LiveChunk>,
    pub archives: Vec<ArchiveChunk>,
    /// The log of the moved placements, where any moved.
    pub placements: Option<PlacementLog>,
    pub manifest: Manifest,
    pub current: Current,
    /// The segments that no manifest names any more.
    pub obsolete: Vec<u64>,
}

/// The records of a plan's placement log.
pub open spec fn plan_moves(p: CompactPlan) -> Seq<PlacementRecord> {
    match p.placements {
        Some(l) => l.records@,
        None => seq![],
    }
}

/// The identifiers of records.
pub open spec fn ids_of(records: Seq<SegmentRecordV>) -> Seq<u64> {
    records.map_values(|r: SegmentRecordV| r.segment_id)
}

/// A compaction of the state `s`, by the merge `m` and the moved replicas
/// `list`.
pub open spec fn compact_ok(s: DbV, p: CompactPlan, m: Merged, list: Seq<u64>, after: DbV) -> bool {
    let generation = (s.generation + 1) as u64;
    let (recs, used, done) = moves(list, m.relocations@, s.next_placement_generation, list.len());
    &&& lists_placed(list, s.dirs.placements)
    &&& done is Ok
    &&& p.stats == m.stats
    &&& p.chunks == m.live
    &&& p.archives == m.archives
    &&& match p.placements {
        Some(l) => recs.len() > 0 && l@ == (PlacementLogV {
            format_version: FORMAT_VERSION,
            generation,
            records: recs,
        }),
        None => recs.len() == 0,
    }
    &&& p.manifest@ == manifest_for(records_of(m.live@, 1), generation)
    &&& p.current == (Current { format_version: FORMAT_VERSION, manifest_generation: generation })
    &&& p.obsolete@ == ids_of(s.records)
    &&& after == (DbV {
        generation,
        next_segment_id: m.next_id,
        next_placement_generation: (s.next_placement_generation + used) as u64,
        ..s
    })
}

/// What a compaction needs of the counters.
pub open spec fn compact_fits(s: DbV) -> bool {
    &&& merge_fits(s.segments, s.next_segment_id)
    &&& s.generation < u64::MAX
    &&& s.next_placement_generation + s.dirs.placements.len() <= u64::MAX
}

/// The merge of a state's segments. Where a block of theirs does not decode,
/// it fails: with that, or with what a full chunk before it failed with.
pub open spec fn merges<P: RetentionPolicy>(
    s: DbV,
    r: Result<Merged, FormatError>,
    policy: &P,
    target: nat,
    cap: nat,
) -> bool {
    match inputs_of(s.segments, s.segments.len()) {
        Err(_) => exists|vs: Seq<Retention>| #[trigger]
            judged(whole_runs(merge_reads(s.segments).0), vs, policy) && r is Err && short_merge(
                r->Err_0,
                s.segments,
                vs,
                target,
                cap,
            ),
        Ok(all) => exists|vs: Seq<Retention>| #[trigger]
            judged(merged(all), vs, policy) && match r {
                Ok(m) => merge_ok(
                    m,
                    merged(all),
                    s.segments.len(),
                    vs,
                    target,
                    cap,
                    s.next_segment_id,
                ),
                Err(e) => merge_fails(e, merged(all), vs, target, cap, false),
            },
    }
}

/// How the beginning of a compaction ends: nothing to do; a merge that fails;
/// a replica of which the merge knows nothing; or a plan.
pub open spec fn compact_outcome<P: RetentionPolicy>(
    s: DbV,
    r: Result<Option<CompactPlan>, FormatError>,
    policy: &P,
    target: nat,
    cap: nat,
    after: DbV,
) -> bool {
    if s.segments.len() == 0 {
        r == Ok::<Option<CompactPlan>, FormatError>(None) && after == s
    } else {
        match r {
            Ok(None) => false,
            Ok(Some(p)) => all_open(p.chunks@) && exists|m: Merged, list: Seq<u64>|
                merges(s, Ok(m), policy, target, cap) && #[trigger] compact_ok(
                    s,
                    p,
                    m,
                    list,
                    after,
                ),
            Err(e) => (merges(s, Err(e), policy, target, cap) && after == s) || exists|
                m: Merged,
                list: Seq<u64>,
            | merges(s, Ok(m), policy, target, cap) && #[trigger] stray_replica(s, e, m, list, after),
        }
    }
}

/// The merge knows nothing of a replica whose row lies in a segment.
pub open spec fn stray_replica(s: DbV, e: FormatError, m: Merged, list: Seq<u64>, after: DbV) -> bool {
    let (recs, used, done) = moves(list, m.relocations@, s.next_placement_generation, list.len());
    &&& lists_placed(list, s.dirs.placements)
    &&& done == Err::<(), ErrV>(e@)
    &&& after == (DbV {
        next_placement_generation: (s.next_placement_generation + used) as u64,
        ..s
    })
}

proof fn lemma_merged_open<P: RetentionPolicy>(
    s: DbV,
    m: Merged,
    policy: &P,
    target: nat,
    cap: nat,
)
    requires
        merges(s, Ok(m), policy, target, cap),
    ensures
        all_open(m.live@),
{
    let es = merged(inputs_of(s.segments, s.segments.len())->Ok_0);
    let vs = choose|vs: Seq<Retention>| #[trigger]
        judged(es, vs, policy) && merge_ok(
            m,
            es,
            s.segments.len(),
            vs,
            target,
            cap,
            s.next_segment_id,
        );
    let chunks = cut(live_rows(es, vs), cap);
    let acs = pieces(archived_rows(es, vs), cap);
    let slot = archive_slot(es, vs, cap) as int;
    assert forall|k: int| 0 <= k < m.live@.len() implies (#[trigger] m.live@[k]).reader.wf() by {
        assert(live_ok(
            m,
            k,
            chunks,
            target,
            live_id(s.next_segment_id as int, k, slot, acs.len() as int),
        ));
        reveal(chunk_is);
    }
}

/// The records of chunks.
fn chunk_records(chunks: &Vec<LiveChunk>, level: u8) -> (r: Vec<SegmentRecord>)
    ensures
        records_view(r@) == records_of(chunks@, level),
{
    let mut out: Vec<SegmentRecord> = Vec::new();
    let ghost all = records_of(chunks@, level);
    let mut i: usize = 0;
    assert(records_view(out@) =~= all.take(0));
    while i < chunks.len()
        invariant
            i <= chunks@.len(),
            all == records_of(chunks@, level),
            records_view(out@) == all.take(i as int),
        decreases chunks@.len() - i,
    {
        let ghost before = records_view(out@);
        let rec = chunk_record(&chunks[i], level);
        let ghost rv = rec@;
        out.push(rec);
        assert(records_view(out@) =~= before.push(rv));
        assert(all.take(i + 1) =~= before.push(rv));
        i += 1;
    }
    assert(all.take(i as int) =~= all);
    out
}

/// The identifiers of records.
fn record_ids(records: &Vec<SegmentRecord>) -> (r: Vec<u64>)
    ensures
        r@ == ids_of(records_view(records@)),
{
    let mut out: Vec<u64> = Vec::new();
    let ghost all = ids_of(records_view(records@));
    let mut i: usize = 0;
    assert(out@ =~= all.take(0));
    while i < records.len()
        invariant
            i <= records@.len(),
            all == ids_of(records_view(records@)),
            out@ == all.take(i as int),
        decreases records@.len() - i,
    {
        let ghost before = out@;
        let id = records[i].segment_id;
        out.push(id);
        assert(all.take(i + 1) =~= before.push(id));
        i += 1;
    }
    assert(all.take(i as int) =~= all);
    out
}

impl Db {
    /// Begins a compaction of all segments under a retention policy, with
    /// blocks read through the cache. The placements move only when it ends.
    pub fn compact_through<P: RetentionPolicy>(&mut self, policy: &P, path: &mut ReadPath) -> (r:
        Result<Option<CompactPlan>, FormatError>)
        requires
            old(self).wf(),
            compact_fits(old(self)@),
            path_fits(*old(path), old(self)@.segments),
        ensures
            final(self).wf(),
            final(self).config == old(self).config,
            compact_outcome(
                old(self)@,
                r,
                policy,
                old(self).config.block_target as nat,
                old(self).config.merge_chunk_bytes as nat,
                final(self)@,
            ),
            path_fits(*final(path), old(self)@.segments),
            final(path).ids == old(path).ids,
            (final(path).cache@, final(path).stats@) == merge_cost(
                old(self)@.segments,
                old(path).ids@,
                old(path).cache@,
                old(path).stats@,
            ),
    {
        let ghost s = self@;
        let ghost target = self.config.block_target as nat;
        let ghost cap = self.config.merge_chunk_bytes as nat;
        assert(s.segments.len() == self.segments@.len());
        if self.segments.len() == 0 {
            assert(begun(s.segments, 0) == Ok::<Seq<FrontV>, ErrV>(seq![]));
            assert(best(helds(seq![]), 0) is None);
            return Ok(None);
        }
        assert(s.segments == segs_view(self.segments@));
        let m = match merge(
            &self.segments,
            self.config.block_target,
            self.config.merge_chunk_bytes,
            self.next_segment_id,
            policy,
            path,
        ) {
            Err(e) => {
                assert(merges(s, Err(e), policy, target, cap));
                return Err(e);
            },
            Ok(m) => m,
        };
        proof {
            assert(merges(s, Ok(m), policy, target, cap));
            lemma_merged_open(s, m, policy, target, cap);
        }
        match self.plan_compact(m) {
            Err(e) => Err(e),
            Ok(p) => Ok(Some(p)),
        }
    }

    /// Begins a compaction of all segments under a retention policy. The
    /// placements move only when it ends.
    pub fn compact_with<P: RetentionPolicy>(&mut self, policy: &P) -> (r: Result<
        Option<CompactPlan>,
        FormatError,
    >)
        requires
            old(self).wf(),
            compact_fits(old(self)@),
        ensures
            final(self).wf(),
            final(self).config == old(self).config,
            compact_outcome(
                old(self)@,
                r,
                policy,
                old(self).config.block_target as nat,
                old(self).config.merge_chunk_bytes as nat,
                final(self)@,
            ),
    {
        let mut path = ReadPath::new(0);
        assert(self@.segments.len() == self.segments@.len());
        let n: usize = self.segments.len();
        path.attach(self);
        self.compact_through(policy, &mut path)
    }

    /// The plan of a merge.
    fn plan_compact(&mut self, m: Merged) -> (r: Result<CompactPlan, FormatError>)
        requires
            old(self).wf(),
            old(self)@.generation < u64::MAX,
            old(self)@.next_placement_generation + old(self)@.dirs.placements.len() <= u64::MAX,
            all_open(m.live@),
        ensures
            final(self).wf(),
            final(self).config == old(self).config,
            match r {
                Ok(p) => all_open(p.chunks@) && exists|list: Seq<u64>| #[trigger]
                    compact_ok(old(self)@, p, m, list, final(self)@),
                Err(e) => exists|list: Seq<u64>| #[trigger]
                    stray_replica(old(self)@, e, m, list, final(self)@),
            },
    {
        let ghost s = self@;
        let ghost m0 = m;
        let list = segment_placed(&self.dirs.placements);
        match make_moves(&list, &m.relocations, &mut self.next_placement_generation) {
            Err(e) => {
                assert(stray_replica(s, e, m0, list@, self@));
                Err(e)
            },
            Ok(recs) => {
                let new_records = chunk_records(&m.live, 1);
                let obsolete = record_ids(&self.records);
                self.next_segment_id = m.next_id;
                self.generation = self.generation + 1;
                let generation = self.generation;
                let manifest = make_manifest(&new_records, generation);
                let placements = if recs.len() > 0 {
                    Some(PlacementLog { format_version: FORMAT_VERSION, generation, records: recs })
                } else {
                    None
                };
                let p = CompactPlan {
                    stats: m.stats,
                    chunks: m.live,
                    archives: m.archives,
                    placements,
                    manifest,
                    current: Current::new(FORMAT_VERSION, generation),
                    obsolete,
                };
                assert(compact_ok(s, p, m0, list@, self@));
                Ok(p)
            },
        }
    }

    /// Ends a compaction that was written: its segments replace all others,
    /// and the moved placements enter as every placement does.
    pub fn finish_compact(&mut self, p: CompactPlan) -> (r: Result<CompactStats, FormatError>)
        requires
            old(self).wf(),
            all_open(p.chunks@),
        ensures
            final(self).wf(),
            final(self).config == old(self).config,
            ({
                let s = old(self)@;
                let s1 = DbV {
                    segments: chunk_segs(p.chunks@),
                    records: records_of(p.chunks@, 1),
                    ..s
                };
                &&& match build(s.dirs.placements, plan_moves(p)) {
                    Ok(_) => r == Ok::<CompactStats, FormatError>(p.stats),
                    Err(e) => r is Err && r->Err_0@ == e,
                }
                &&& final(self)@ == (DbV {
                    dirs: (DirV {
                        placements: left_by(s.dirs.placements, plan_moves(p)),
                        ..s.dirs
                    }),
                    ..s1
                })
            }),
    {
        self.records = chunk_records(&p.chunks, 1);
        self.segments = into_readers(p.chunks);
        match &p.placements {
            Some(l) => match apply_records(&mut self.dirs.placements, &l.records) {
                Err(e) => {
                    return Err(e);
                },
                Ok(_) => {},
            },
            None => {},
        }
        Ok(p.stats)
    }

    /// Whether there is anything to compact without a policy: one segment
    /// alone is left as it is.
    pub fn compact_wanted(&self) -> (r: bool)
        ensures
            r == (self@.segments.len() > 1),
    {
        assert(self@.segments.len() == self.segments@.len());
        self.segments.len() > 1
    }

    /// Begins a compaction that keeps every key; with fewer than two segments
    /// there is none.
    pub fn compact(&mut self) -> (r: Result<Option<CompactPlan>, FormatError>)
        requires
            old(self).wf(),
            compact_fits(old(self)@),
        ensures
            final(self).wf(),
            final(self).config == old(self).config,
            if old(self)@.segments.len() <= 1 {
                r == Ok::<Option<CompactPlan>, FormatError>(None) && final(self)@ == old(self)@
            } else {
                compact_outcome(
                    old(self)@,
                    r,
                    &KeepAll,
                    old(self).config.block_target as nat,
                    old(self).config.merge_chunk_bytes as nat,
                    final(self)@,
                )
            },
    {
        if !self.compact_wanted() {
            return Ok(None);
        }
        self.compact_with(&KeepAll)
    }
}

} // verus!
