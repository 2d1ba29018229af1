//! What recovery refuses, and what it counts on from.

use crate::checkpoint::{load_newest, CheckpointV, DirectoryCheckpoint};
use crate::db::open::{
    checkpoint_view, file_segment, identity_files, last_with, later, loaded, orphan_segments,
    place_check, placement_files, places_check, recover, replica_files, segment_files, sound_places,
    strays_in, top_record_id, top_record_seq, Files, Recovered,
};
use crate::format::{Current, ErrV, FormatError, Manifest, SegmentRecordV};
use crate::identity::directory::{
    identity_file_log, identity_log_of, replica_file_log, replica_log_of, LogFile,
};
use crate::idmap::lists_map;
use crate::listing_laws::{name_of, names_carry_their_generation};
use crate::placement::directory::{
    files_max_generation, gate, gen_of, location_check, max_generation, placed, placement_file_log,
    placement_log_of, ApplyOutcome, Placement, PlacementRecord,
};
use crate::placement::PhysicalLocation;
use crate::identity::ReplicaId;
use crate::idmap::lookup;
use crate::segment::open::{segment_of, SegV};
use crate::sort::Ranked;
use crate::text::tagged_number;
use vstd::prelude::*;

verus! {

// ---------------------------------------------------------------------------
// Files
/// A log that recovery reads: one past the checkpoint.
pub open spec fn is_read(f: LogFile, c: Option<DirectoryCheckpoint>) -> bool {
    c is None || f.generation > c->0.generation
}

proof fn lemma_later_has(files: Seq<LogFile>, c: Option<CheckpointV>, i: int)
    requires
        0 <= i < files.len(),
        c is None || files[i].generation > c->0.generation,
    ensures
        later(files, c).contains(files[i]),
    decreases files.len(),
{
    let all = later(files, c);
    let rest = later(files.skip(1), c);
    if i == 0 {
        assert(all[0] == files[0]);
    } else {
        lemma_later_has(files.skip(1), c, i - 1);
        assert(files.skip(1)[i - 1] == files[i]);
        let k = choose|k: int| 0 <= k < rest.len() && rest[k] == files[i];
        if all.len() == rest.len() {
            assert(all[k] == files[i]);
        } else {
            assert(all[k + 1] == files[i]);
        }
    }
}

proof fn lemma_identity_read(files: Seq<LogFile>, n: nat, i: int)
    requires
        0 <= i < n <= files.len(),
        identity_files(files, n) is Ok,
    ensures
        identity_file_log(files[i]) is Ok,
    decreases n,
{
    if i < n - 1 {
        lemma_identity_read(files, (n - 1) as nat, i);
    }
}

proof fn lemma_replica_read(files: Seq<LogFile>, n: nat, i: int)
    requires
        0 <= i < n <= files.len(),
        replica_files(files, n) is Ok,
    ensures
        replica_file_log(files[i]) is Ok,
    decreases n,
{
    if i < n - 1 {
        lemma_replica_read(files, (n - 1) as nat, i);
    }
}

proof fn lemma_placement_read(files: Seq<LogFile>, n: nat, i: int)
    requires
        0 <= i < n <= files.len(),
        placement_files(files, n) is Ok,
    ensures
        placement_file_log(files[i]) is Ok,
    decreases n,
{
    if i < n - 1 {
        lemma_placement_read(files, (n - 1) as nat, i);
    }
}

proof fn lemma_segments_read(files: Seq<crate::db::open::SegmentFile>, n: nat, i: int)
    requires
        0 <= i < n <= files.len(),
        segment_files(files, n) is Ok,
    ensures
        file_segment(files[i]) is Ok,
        segment_files(files, n)->Ok_0.len() == n,
        segment_files(files, n)->Ok_0[i] == file_segment(files[i])->Ok_0,
    decreases n,
{
    if i < n - 1 {
        lemma_segments_read(files, (n - 1) as nat, i);
    } else if n > 1 {
        lemma_segments_read(files, (n - 1) as nat, 0);
    }
}

/// Recovery fails closed. It is refused where CURRENT names another generation
/// than the manifest has; where a segment cannot be read or does not open; and
/// where a log past the checkpoint cannot be read, does not decode, or carries
/// another generation than its name.
pub proof fn recovery_fails_closed(
    current: &Current,
    manifest: Manifest,
    f: Files,
    r: Result<Recovered, FormatError>,
    i: int,
)
    requires
        call_ensures(recover, (current, manifest, f), r),
        r is Ok,
    ensures
        current.manifest_generation == manifest.generation,
        0 <= i < f.segments@.len() ==> f.segments@[i] is Ok && segment_of(f.segments@[i]->Ok_0@)
            is Ok,
        0 <= i < f.identity@.len() && is_read(f.identity@[i], f.checkpoint) ==> {
            &&& f.identity@[i].bytes is Ok
            &&& identity_log_of(f.identity@[i].bytes->Ok_0@) matches Ok(l) && l.generation
                == f.identity@[i].generation
        },
        0 <= i < f.replicas@.len() && is_read(f.replicas@[i], f.checkpoint) ==> {
            &&& f.replicas@[i].bytes is Ok
            &&& replica_log_of(f.replicas@[i].bytes->Ok_0@) matches Ok(l) && l.generation
                == f.replicas@[i].generation
        },
        0 <= i < f.placements@.len() && is_read(f.placements@[i], f.checkpoint) ==> {
            &&& f.placements@[i].bytes is Ok
            &&& placement_log_of(f.placements@[i].bytes->Ok_0@) matches Ok(l) && l.generation
                == f.placements@[i].generation
        },
{
    reveal(loaded);
    let c = checkpoint_view(f.checkpoint);
    if 0 <= i < f.segments@.len() {
        lemma_segments_read(f.segments@, f.segments@.len(), i);
    }
    if 0 <= i < f.identity@.len() && is_read(f.identity@[i], f.checkpoint) {
        lemma_later_has(f.identity@, c, i);
        let rest = later(f.identity@, c);
        let k = choose|k: int| 0 <= k < rest.len() && rest[k] == f.identity@[i];
        lemma_identity_read(rest, rest.len(), k);
    }
    if 0 <= i < f.replicas@.len() && is_read(f.replicas@[i], f.checkpoint) {
        lemma_later_has(f.replicas@, c, i);
        let rest = later(f.replicas@, c);
        let k = choose|k: int| 0 <= k < rest.len() && rest[k] == f.replicas@[i];
        lemma_replica_read(rest, rest.len(), k);
    }
    if 0 <= i < f.placements@.len() && is_read(f.placements@[i], f.checkpoint) {
        lemma_later_has(f.placements@, c, i);
        let rest = later(f.placements@, c);
        let k = choose|k: int| 0 <= k < rest.len() && rest[k] == f.placements@[i];
        lemma_placement_read(rest, rest.len(), k);
    }
}

// ---------------------------------------------------------------------------
// Placements
/// A record of the manifest names the segment, and the segment has the entry.
pub open spec fn place_is_there(
    loc: PhysicalLocation,
    records: Seq<SegmentRecordV>,
    segs: Seq<SegV>,
) -> bool {
    exists|i: int|
        0 <= i < records.len() && (#[trigger] records[i]).segment_id == loc.segment_id.0
            && loc.block_id.0 < segs[i].data.len() && loc.entry_offset
            < segs[i].data[loc.block_id.0 as int].entries
}

proof fn lemma_last_with(records: Seq<SegmentRecordV>, n: nat, id: u64)
    requires
        n <= records.len(),
    ensures
        match last_with(records, n, id) {
            Some(i) => 0 <= i < n && records[i].segment_id == id,
            None => forall|i: int| 0 <= i < n ==> (#[trigger] records[i]).segment_id != id,
        },
    decreases n,
{
    if n > 0 {
        lemma_last_with(records, (n - 1) as nat, id);
    }
}

proof fn lemma_places(
    list: Seq<(u64, Placement)>,
    n: nat,
    records: Seq<SegmentRecordV>,
    segs: Seq<SegV>,
    k: int,
)
    requires
        0 <= k < n <= list.len(),
        places_check(list, n, records, segs) is Ok,
    ensures
        place_check(list[k].0, list[k].1, records, segs) is Ok,
    decreases n,
{
    if k < n - 1 {
        lemma_places(list, (n - 1) as nat, records, segs, k);
    }
}

/// Recovery lets no placement stand that leads nowhere: one in a segment names
/// a segment of the manifest, a block of it and an entry of that.
pub proof fn placements_lead_to_entries(
    check: Result<(), ErrV>,
    m: Map<u64, Placement>,
    records: Seq<SegmentRecordV>,
    segs: Seq<SegV>,
    rid: u64,
)
    requires
        sound_places(check, m, records, segs),
        check is Ok,
        m.contains_key(rid),
    ensures
        m[rid] matches Placement::Segment(loc) ==> place_is_there(loc, records, segs),
{
    let list = choose|list: Seq<(u64, Placement)>|
        lists_map(list, m) && check == #[trigger] places_check(list, list.len(), records, segs);
    let k = choose|k: int| 0 <= k < list.len() && (#[trigger] list[k]).0 == rid;
    lemma_places(list, list.len(), records, segs, k);
    assert(m[list[k].0] == list[k].1);
    if let Placement::Segment(loc) = m[rid] {
        lemma_last_with(records, records.len(), loc.segment_id.0);
        let i = last_with(records, records.len(), loc.segment_id.0)->0;
        assert(records[i].segment_id == loc.segment_id.0);
        assert(place_is_there(loc, records, segs));
    }
}

/// A location is sound exactly where the manifest has its segment, the segment
/// its block, and the block its entry.
pub proof fn sound_locations_are_in_the_manifest(
    loc: PhysicalLocation,
    ids: Set<u64>,
    entries: Option<u32>,
)
    ensures
        location_check(loc, ids, entries) is Ok <==> ids.contains(loc.segment_id.0)
            && entries is Some && loc.entry_offset < entries->0,
        location_check(loc, ids, entries) matches Err(e) ==> e is Corrupt,
{
}

/// The rule of placements: the newer generation wins; an older one and a
/// repetition change nothing; another place at the same generation is damage.
/// No other replica's placement changes.
pub proof fn newer_placements_win(
    m: Map<u64, Placement>,
    rid: ReplicaId,
    p: Placement,
    other: u64,
)
    ensures
        ({
            let after = placed(m, rid, p);
            let r = gate(lookup(m, rid.0), rid, p);
            &&& other != rid.0 ==> lookup(after, other) == lookup(m, other)
            &&& !m.contains_key(rid.0) ==> lookup(after, rid.0) == Some(p) && r == Ok::<
                ApplyOutcome,
                ErrV,
            >(ApplyOutcome::Applied)
            &&& m.contains_key(rid.0) && gen_of(p) > gen_of(m[rid.0]) ==> lookup(after, rid.0)
                == Some(p) && r == Ok::<ApplyOutcome, ErrV>(ApplyOutcome::Applied)
            &&& m.contains_key(rid.0) && gen_of(p) < gen_of(m[rid.0]) ==> after == m && r == Ok::<
                ApplyOutcome,
                ErrV,
            >(ApplyOutcome::Stale)
            &&& m.contains_key(rid.0) && p == m[rid.0] ==> after == m && r == Ok::<
                ApplyOutcome,
                ErrV,
            >(ApplyOutcome::Duplicate)
            &&& m.contains_key(rid.0) && gen_of(p) == gen_of(m[rid.0]) && p != m[rid.0] ==> after
                == m && r is Err && r->Err_0 is Corrupt
        }),
{
}

// ---------------------------------------------------------------------------
// Counting on
proof fn lemma_max(s: Seq<PlacementRecord>, floor: u64)
    ensures
        max_generation(s, floor) >= floor,
        forall|i: int|
            0 <= i < s.len() ==> gen_of((#[trigger] s[i]).placement) <= max_generation(s, floor),
        max_generation(s, floor) == floor || exists|i: int|
            0 <= i < s.len() && gen_of((#[trigger] s[i]).placement) == max_generation(s, floor),
    decreases s.len(),
{
    if s.len() > 0 {
        let front = s.drop_last();
        lemma_max(front, floor);
        let top = max_generation(s, floor);
        assert forall|i: int| 0 <= i < s.len() implies gen_of((#[trigger] s[i]).placement)
            <= top by {
            if i < front.len() {
                assert(front[i] == s[i]);
            }
        }
        if top != floor {
            if gen_of(s.last().placement) == top {
                assert(s[s.len() - 1] == s.last());
            } else {
                let i = choose|i: int|
                    0 <= i < front.len() && gen_of((#[trigger] front[i]).placement)
                        == max_generation(front, floor);
                assert(s[i] == front[i]);
            }
        }
    }
}

/// No generation in a log that an interruption left behind is given again: all
/// of them count, in every such log that can be read.
pub proof fn orphaned_generations_count(files: Seq<LogFile>, i: int, k: int)
    requires
        0 <= i < files.len(),
        files[i].bytes is Ok,
        placement_log_of(files[i].bytes->Ok_0@) is Ok,
        0 <= k < placement_log_of(files[i].bytes->Ok_0@)->Ok_0.records.len(),
    ensures
        gen_of(placement_log_of(files[i].bytes->Ok_0@)->Ok_0.records[k].placement)
            <= files_max_generation(files),
    decreases files.len(),
{
    let front = files.drop_last();
    let rest = files_max_generation(front);
    if let Ok(bytes) = files.last().bytes {
        if let Ok(l) = placement_log_of(bytes@) {
            lemma_max(l.records, rest);
        }
    }
    if i < front.len() {
        assert(front[i] == files[i]);
        orphaned_generations_count(front, i, k);
    }
}

/// What the records of a manifest name is counted on from: no sequence and no
/// identifier of theirs is past the greatest.
pub proof fn recorded_numbers_count(records: Seq<SegmentRecordV>, n: nat, i: int)
    requires
        0 <= i < n <= records.len(),
    ensures
        records[i].seq_hi <= top_record_seq(records, n),
        records[i].segment_id <= top_record_id(records, n),
    decreases n,
{
    if i < n - 1 {
        recorded_numbers_count(records, (n - 1) as nat, i);
    }
}

// ---------------------------------------------------------------------------
// Strays
proof fn lemma_strays(names: Seq<String>, records: Seq<SegmentRecordV>, id: u64)
    ensures
        strays_in(names, records).contains(id) <==> (forall|i: int|
            0 <= i < records.len() ==> (#[trigger] records[i]).segment_id != id) && exists|k: int|
            0 <= k < names.len() && tagged_number((#[trigger] names[k])@, "SEGMENT-"@, ".seg"@)
                == Some(id),
    decreases names.len(),
{
    lemma_last_with(records, records.len(), id);
    let all = strays_in(names, records);
    if names.len() > 0 {
        let front = names.drop_last();
        let before = strays_in(front, records);
        lemma_strays(front, records, id);
        let last = tagged_number(names.last()@, "SEGMENT-"@, ".seg"@);
        if let Some(x) = last {
            lemma_last_with(records, records.len(), x);
        }
        if all.contains(id) {
            let k = choose|k: int| 0 <= k < all.len() && all[k] == id;
            if k < before.len() {
                assert(before[k] == id);
                let q = choose|q: int|
                    0 <= q < front.len() && tagged_number(
                        (#[trigger] front[q])@,
                        "SEGMENT-"@,
                        ".seg"@,
                    ) == Some(id);
                assert(names[q] == front[q]);
            } else {
                assert(names[names.len() - 1] == names.last());
            }
        }
        if (forall|i: int| 0 <= i < records.len() ==> (#[trigger] records[i]).segment_id != id)
            && exists|k: int|
            0 <= k < names.len() && tagged_number((#[trigger] names[k])@, "SEGMENT-"@, ".seg"@)
                == Some(id) {
            let k = choose|k: int|
                0 <= k < names.len() && tagged_number((#[trigger] names[k])@, "SEGMENT-"@, ".seg"@)
                    == Some(id);
            if k < front.len() {
                assert(front[k] == names[k]);
                let q = choose|q: int| 0 <= q < before.len() && before[q] == id;
                assert(all[q] == id);
            } else {
                if let Some(i) = last_with(records, records.len(), id) {
                    assert(records[i].segment_id != id);
                }
                assert(all[before.len() as int] == id);
            }
        }
    } else {
        assert(all =~= seq![]);
    }
}

/// The stray segments of a listing, ascending: those whose name is that of a
/// segment and that the manifest does not name. A segment of the manifest is
/// never among them.
pub proof fn strays_are_not_in_the_manifest(
    names: &Vec<String>,
    manifest: &Manifest,
    r: Vec<u64>,
    id: u64,
    k: int,
)
    requires
        call_ensures(orphan_segments, (names, manifest), r),
        0 <= k < names@.len(),
    ensures
        forall|i: int, j: int|
            #![trigger r@[i], r@[j]]
            0 <= i < j < r@.len() ==> r@[i] <= r@[j],
        r@.contains(id) ==> forall|i: int|
            0 <= i < manifest@.segments.len() ==> (#[trigger] manifest@.segments[i]).segment_id
                != id,
        names@[k]@ == name_of("SEGMENT-"@, id, ".seg"@) && (forall|i: int|
            0 <= i < manifest@.segments.len() ==> (#[trigger] manifest@.segments[i]).segment_id
                != id) ==> r@.contains(id),
{
    broadcast use vstd::seq_lib::group_to_multiset_ensures;

    let all = strays_in(names@, manifest@.segments);
    assert forall|i: int, j: int|
        #![trigger r@[i], r@[j]]
        0 <= i < j < r@.len() implies r@[i] <= r@[j] by {
        assert(r@[i].ranked_le(&r@[j]));
    }
    assert(r@.contains(id) == all.contains(id)) by {
        assert(r@.to_multiset().count(id) == all.to_multiset().count(id));
    }
    lemma_strays(names@, manifest@.segments, id);
    names_carry_their_generation("SEGMENT-"@, id, ".seg"@);
}

// ---------------------------------------------------------------------------
// Checkpoints
/// The checkpoint that recovery starts from: none without a file; else the file
/// must be read, decode, and carry the generation of its name.
pub proof fn checkpoints_fail_closed(
    file: &Option<LogFile>,
    path: &str,
    r: Result<Option<DirectoryCheckpoint>, FormatError>,
)
    requires
        call_ensures(load_newest, (file, path), r),
    ensures
        *file is None ==> r is Ok && r->Ok_0 is None,
        *file matches Some(f) && f.bytes is Err ==> r is Err,
        *file is Some && r is Ok ==> {
            let f = (*file)->0;
            &&& r->Ok_0 is Some
            &&& crate::checkpoint::checkpoint_of(f.bytes->Ok_0@) == Ok::<CheckpointV, ErrV>(
                (r->Ok_0->0)@,
            )
            &&& r->Ok_0->0.generation == f.generation
        },
        *file is Some && (*file)->0.bytes is Ok && (crate::checkpoint::checkpoint_of(
            (*file)->0.bytes->Ok_0@,
        ) matches Ok(c) && c.generation == (*file)->0.generation) ==> r is Ok,
{
}

} // verus!
