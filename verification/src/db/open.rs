//! Opening a database from its files.
//!
//! The directories come from the newest checkpoint and the logs behind it, up
//! to the generation in force, the
//! segments from the manifest, the memtable from the frames of the log.
//! Whatever a manifest or a log names must be there and sound: anything else
//! fails closed. The allocators start past every identifier that ever was.

use crate::checkpoint::{CheckpointV, DirectoryCheckpoint};
use crate::compaction::run::{all_wf, segs_view};
use crate::db::directories::{
    apply_identity_log, apply_replica_log, identity_all, identity_logs_all, identity_logs_view,
    identity_of_logs, replica_all, replica_logs_all, replica_logs_view, replicas_of_logs, DirV,
    Directories,
};
use crate::db::state::{apply_batch, change_all, mems_view, Db, DbV};
use crate::db::Config;
use crate::format::{
    records_view, rv, verify_pair, verify_pair_spec, Current, ErrV, FormatError, Manifest,
    ManifestV, SegmentRecord, SegmentRecordV, FORMAT_VERSION,
};
use crate::identity::directory::{
    identity_file_log, load_identity_logs, load_replica_logs, loads_identity, loads_replica,
    replica_file_log, IdentityLog, IdentityLogV, LogFile, ReplicaLog, ReplicaLogV,
};
use crate::identity::logical_id::LogicalId;
use crate::identity::replica_id::ReplicaId;
use crate::idmap::{lists_map, IdMap};
use crate::memtable::{mem_empty, MemV, Memtable};
use crate::placement::directory::{
    all_records, apply_records, build, files_max_generation, gen_of, lemma_build_append, load_placement_logs,
    loads_placement, location_check, orphan_placement_max_generation, placement_file_log, validate_segment_location, Placement,
    PlacementLog, PlacementLogV, PlacementRecord,
};
use crate::segment::open::{segment_of, SegV, SegmentReader};
use crate::segment::read::block_entry_count_of;
use crate::sort::{merge_sort, sorted};
use crate::text::{dec, parse_tagged, tagged_number, Text};
use crate::wal::{frames_view, replay_frames, replay_of, WalFrame, WalFrameV};
use std::collections::HashSet;
use vstd::prelude::*;
use vstd::std_specs::hash::group_hash_axioms;

verus! {

// ---------------------------------------------------------------------------
// A new database
/// The manifest of a new database.
pub fn fresh_manifest() -> (r: Manifest)
    ensures
        r@ == (ManifestV {
            format_version: FORMAT_VERSION,
            generation: 1,
            segments: seq![],
            wal_ids: seq![],
        }),
{
    let r = Manifest {
        format_version: FORMAT_VERSION,
        generation: 1,
        segments: Vec::new(),
        wal_ids: Vec::new(),
    };
    assert(r@.segments =~= seq![]);
    assert(r@.wal_ids =~= seq![]);
    r
}

/// The pointer of a new database.
pub fn fresh_current() -> (r: Current)
    ensures
        r == (Current { format_version: FORMAT_VERSION, manifest_generation: 1 }),
{
    Current::new(FORMAT_VERSION, 1)
}

// ---------------------------------------------------------------------------
// Logs
/// The identity logs of the first `n` files, or the first failure.
pub open spec fn identity_files(files: Seq<LogFile>, n: nat) -> Result<Seq<IdentityLogV>, ErrV>
    decreases n,
{
    if n == 0 {
        Ok(seq![])
    } else {
        match identity_files(files, (n - 1) as nat) {
            Err(e) => Err(e),
            Ok(v) => match identity_file_log(files[n - 1]) {
                Err(e) => Err(e),
                Ok(l) => Ok(v.push(l)),
            },
        }
    }
}

/// The replica logs of the first `n` files, or the first failure.
pub open spec fn replica_files(files: Seq<LogFile>, n: nat) -> Result<Seq<ReplicaLogV>, ErrV>
    decreases n,
{
    if n == 0 {
        Ok(seq![])
    } else {
        match replica_files(files, (n - 1) as nat) {
            Err(e) => Err(e),
            Ok(v) => match replica_file_log(files[n - 1]) {
                Err(e) => Err(e),
                Ok(l) => Ok(v.push(l)),
            },
        }
    }
}

/// The placement records of the first `n` files, or the first failure.
pub open spec fn placement_files(files: Seq<LogFile>, n: nat) -> Result<Seq<PlacementRecord>, ErrV>
    decreases n,
{
    if n == 0 {
        Ok(seq![])
    } else {
        match placement_files(files, (n - 1) as nat) {
            Err(e) => Err(e),
            Ok(v) => match placement_file_log(files[n - 1]) {
                Err(e) => Err(e),
                Ok(l) => Ok(v + l.records),
            },
        }
    }
}

proof fn lemma_identity_files(r: Result<Vec<IdentityLog>, FormatError>, files: Seq<LogFile>, n: nat)
    requires
        loads_identity(r, files),
        n <= files.len(),
    ensures
        match r {
            Ok(logs) => identity_files(files, n) == Ok::<Seq<IdentityLogV>, ErrV>(
                identity_logs_view(logs@).take(n as int),
            ),
            Err(e) => n == files.len() ==> identity_files(files, n) == Err::<
                Seq<IdentityLogV>,
                ErrV,
            >(e@),
        },
    decreases n,
{
    match r {
        Ok(logs) => {
            let v = identity_logs_view(logs@);
            if n > 0 {
                lemma_identity_files(r, files, (n - 1) as nat);
                assert(identity_file_log(files[n - 1]) == Ok::<IdentityLogV, ErrV>(
                    logs@[n - 1]@,
                ));
                assert(v.take(n as int) =~= v.take(n - 1).push(v[n - 1]));
            } else {
                assert(v.take(0) =~= seq![]);
            }
        },
        Err(e) => {
            let i = choose|i: int|
                0 <= i < files.len() && identity_file_log(#[trigger] files[i]) == Err::<
                    IdentityLogV,
                    ErrV,
                >(e@) && forall|j: int| 0 <= j < i ==> identity_file_log(#[trigger] files[j]) is Ok;
            lemma_identity_stop(files, i, files.len(), e@);
        },
    }
}

proof fn lemma_identity_ok(files: Seq<LogFile>, n: nat)
    requires
        n <= files.len(),
        forall|j: int| 0 <= j < n ==> identity_file_log(#[trigger] files[j]) is Ok,
    ensures
        identity_files(files, n) is Ok,
    decreases n,
{
    if n > 0 {
        lemma_identity_ok(files, (n - 1) as nat);
        assert(identity_file_log(files[n - 1]) is Ok);
    }
}

proof fn lemma_identity_stop(files: Seq<LogFile>, i: int, n: nat, e: ErrV)
    requires
        0 <= i < n <= files.len(),
        identity_file_log(files[i]) == Err::<IdentityLogV, ErrV>(e),
        forall|j: int| 0 <= j < i ==> identity_file_log(#[trigger] files[j]) is Ok,
    ensures
        identity_files(files, n) == Err::<Seq<IdentityLogV>, ErrV>(e),
    decreases n,
{
    if i == n - 1 {
        lemma_identity_ok(files, i as nat);
    } else {
        lemma_identity_stop(files, i, (n - 1) as nat, e);
    }
}

proof fn lemma_replica_files(r: Result<Vec<ReplicaLog>, FormatError>, files: Seq<LogFile>, n: nat)
    requires
        loads_replica(r, files),
        n <= files.len(),
    ensures
        match r {
            Ok(logs) => replica_files(files, n) == Ok::<Seq<ReplicaLogV>, ErrV>(
                replica_logs_view(logs@).take(n as int),
            ),
            Err(e) => n == files.len() ==> replica_files(files, n) == Err::<
                Seq<ReplicaLogV>,
                ErrV,
            >(e@),
        },
    decreases n,
{
    match r {
        Ok(logs) => {
            let v = replica_logs_view(logs@);
            if n > 0 {
                lemma_replica_files(r, files, (n - 1) as nat);
                assert(replica_file_log(files[n - 1]) == Ok::<ReplicaLogV, ErrV>(logs@[n - 1]@));
                assert(v.take(n as int) =~= v.take(n - 1).push(v[n - 1]));
            } else {
                assert(v.take(0) =~= seq![]);
            }
        },
        Err(e) => {
            let i = choose|i: int|
                0 <= i < files.len() && replica_file_log(#[trigger] files[i]) == Err::<
                    ReplicaLogV,
                    ErrV,
                >(e@) && forall|j: int| 0 <= j < i ==> replica_file_log(#[trigger] files[j]) is Ok;
            lemma_replica_stop(files, i, files.len(), e@);
        },
    }
}

proof fn lemma_replica_ok(files: Seq<LogFile>, n: nat)
    requires
        n <= files.len(),
        forall|j: int| 0 <= j < n ==> replica_file_log(#[trigger] files[j]) is Ok,
    ensures
        replica_files(files, n) is Ok,
    decreases n,
{
    if n > 0 {
        lemma_replica_ok(files, (n - 1) as nat);
        assert(replica_file_log(files[n - 1]) is Ok);
    }
}

proof fn lemma_replica_stop(files: Seq<LogFile>, i: int, n: nat, e: ErrV)
    requires
        0 <= i < n <= files.len(),
        replica_file_log(files[i]) == Err::<ReplicaLogV, ErrV>(e),
        forall|j: int| 0 <= j < i ==> replica_file_log(#[trigger] files[j]) is Ok,
    ensures
        replica_files(files, n) == Err::<Seq<ReplicaLogV>, ErrV>(e),
    decreases n,
{
    if i == n - 1 {
        lemma_replica_ok(files, i as nat);
    } else {
        lemma_replica_stop(files, i, (n - 1) as nat, e);
    }
}

proof fn lemma_placement_files(
    r: Result<Vec<PlacementLog>, FormatError>,
    files: Seq<LogFile>,
    n: nat,
)
    requires
        loads_placement(r, files),
        n <= files.len(),
    ensures
        match r {
            Ok(logs) => placement_files(files, n) == Ok::<Seq<PlacementRecord>, ErrV>(
                all_records(logs@.take(n as int)),
            ),
            Err(e) => n == files.len() ==> placement_files(files, n) == Err::<
                Seq<PlacementRecord>,
                ErrV,
            >(e@),
        },
    decreases n,
{
    match r {
        Ok(logs) => {
            if n > 0 {
                lemma_placement_files(r, files, (n - 1) as nat);
                assert(placement_file_log(files[n - 1]) == Ok::<PlacementLogV, ErrV>(
                    logs@[n - 1]@,
                ));
                assert(logs@.take(n as int).drop_last() =~= logs@.take(n - 1));
            } else {
                assert(logs@.take(0) =~= seq![]);
            }
        },
        Err(e) => {
            let i = choose|i: int|
                0 <= i < files.len() && placement_file_log(#[trigger] files[i]) == Err::<
                    PlacementLogV,
                    ErrV,
                >(e@) && forall|j: int|
                    0 <= j < i ==> placement_file_log(#[trigger] files[j]) is Ok;
            lemma_placement_stop(files, i, files.len(), e@);
        },
    }
}

proof fn lemma_placement_ok(files: Seq<LogFile>, n: nat)
    requires
        n <= files.len(),
        forall|j: int| 0 <= j < n ==> placement_file_log(#[trigger] files[j]) is Ok,
    ensures
        placement_files(files, n) is Ok,
    decreases n,
{
    if n > 0 {
        lemma_placement_ok(files, (n - 1) as nat);
        assert(placement_file_log(files[n - 1]) is Ok);
    }
}

proof fn lemma_placement_stop(files: Seq<LogFile>, i: int, n: nat, e: ErrV)
    requires
        0 <= i < n <= files.len(),
        placement_file_log(files[i]) == Err::<PlacementLogV, ErrV>(e),
        forall|j: int| 0 <= j < i ==> placement_file_log(#[trigger] files[j]) is Ok,
    ensures
        placement_files(files, n) == Err::<Seq<PlacementRecord>, ErrV>(e),
    decreases n,
{
    if i == n - 1 {
        lemma_placement_ok(files, i as nat);
    } else {
        lemma_placement_stop(files, i, (n - 1) as nat, e);
    }
}

/// A checkpoint as a value.
pub open spec fn checkpoint_view(c: Option<DirectoryCheckpoint>) -> Option<CheckpointV> {
    match c {
        Some(c) => Some(c@),
        None => None,
    }
}

/// A log that the checkpoint does not cover.
pub open spec fn uncovered(f: LogFile, c: Option<CheckpointV>) -> bool {
    c is None || f.generation > c->0.generation
}

/// The logs that the checkpoint does not cover, in order.
pub open spec fn later(files: Seq<LogFile>, c: Option<CheckpointV>) -> Seq<LogFile>
    decreases files.len(),
{
    if files.len() == 0 {
        seq![]
    } else if uncovered(files[0], c) {
        seq![files[0]] + later(files.skip(1), c)
    } else {
        later(files.skip(1), c)
    }
}

/// Keeps the logs that the checkpoint does not cover.
fn keep_later(files: Vec<LogFile>, after: Option<u64>, Ghost(c): Ghost<Option<CheckpointV>>) -> (r:
    Vec<LogFile>)
    requires
        match after {
            Some(g) => c is Some && c->0.generation == g,
            None => c is None,
        },
    ensures
        r@ == later(files@, c),
{
    let ghost all = files@;
    let mut rest = files;
    let mut out: Vec<LogFile> = Vec::new();
    assert(out@ + later(all, c) =~= later(all, c));
    while rest.len() > 0
        invariant
            match after {
                Some(g) => c is Some && c->0.generation == g,
                None => c is None,
            },
            out@ + later(rest@, c) == later(all, c),
        decreases rest@.len(),
    {
        let ghost r0 = rest@;
        let ghost o0 = out@;
        let f = rest.remove(0);
        assert(rest@ =~= r0.skip(1));
        let keep = match after {
            Some(g) => f.generation > g,
            None => true,
        };
        if keep {
            out.push(f);
            assert(o0 + (seq![r0[0]] + later(rest@, c)) =~= out@ + later(rest@, c));
        }
    }
    assert(out@ + later(rest@, c) =~= out@);
    out
}

/// The identity directory of a checkpoint; without one it is empty.
pub open spec fn identity_base(c: Option<CheckpointV>) -> Result<Map<u128, LogicalId>, ErrV> {
    match c {
        None => Ok(Map::empty()),
        Some(c) => identity_all(Map::empty(), c.identities, c.identities.len()),
    }
}

/// The replica directory of a checkpoint.
pub open spec fn replica_base(c: Option<CheckpointV>) -> Result<Map<u64, ReplicaId>, ErrV> {
    match c {
        None => Ok(Map::empty()),
        Some(c) => replica_all(Map::empty(), c.replicas, c.replicas.len()),
    }
}

/// The placement directory of a checkpoint.
pub open spec fn placement_base(c: Option<CheckpointV>) -> Result<Map<u64, Placement>, ErrV> {
    match c {
        None => Ok(Map::empty()),
        Some(c) => build(Map::empty(), c.placements),
    }
}

/// The identity directory of a checkpoint and the logs behind it.
pub open spec fn identity_recovered(c: Option<CheckpointV>, files: Seq<LogFile>) -> Result<
    Map<u128, LogicalId>,
    ErrV,
> {
    let rest = later(files, c);
    match identity_files(rest, rest.len()) {
        Err(e) => Err(e),
        Ok(logs) => match identity_base(c) {
            Err(e) => Err(e),
            Ok(m) => identity_logs_all(m, logs, logs.len()),
        },
    }
}

/// The replica directory of a checkpoint and the logs behind it.
pub open spec fn replicas_recovered(c: Option<CheckpointV>, files: Seq<LogFile>) -> Result<
    Map<u64, ReplicaId>,
    ErrV,
> {
    let rest = later(files, c);
    match replica_files(rest, rest.len()) {
        Err(e) => Err(e),
        Ok(logs) => match replica_base(c) {
            Err(e) => Err(e),
            Ok(m) => replica_logs_all(m, logs, logs.len()),
        },
    }
}

/// The placement directory of a checkpoint and the logs behind it.
pub open spec fn placements_recovered(c: Option<CheckpointV>, files: Seq<LogFile>) -> Result<
    Map<u64, Placement>,
    ErrV,
> {
    let rest = later(files, c);
    match placement_files(rest, rest.len()) {
        Err(e) => Err(e),
        Ok(recs) => match placement_base(c) {
            Err(e) => Err(e),
            Ok(m) => build(m, recs),
        },
    }
}

/// The generation that a checkpoint covers.
fn covered_up_to(c: &Option<DirectoryCheckpoint>) -> (r: Option<u64>)
    ensures
        match r {
            Some(g) => *c is Some && (*c)->0.generation == g,
            None => *c is None,
        },
{
    match c {
        Some(c) => Some(c.generation),
        None => None,
    }
}

/// Recovers the identity directory: every log decodes before any is merged.
pub fn recover_identity(c: &Option<DirectoryCheckpoint>, files: Vec<LogFile>) -> (r: Result<
    IdMap<u128, LogicalId>,
    FormatError,
>)
    ensures
        rv(r) == identity_recovered(checkpoint_view(*c), files@),
{
    let rest = keep_later(files, covered_up_to(c), Ghost(checkpoint_view(*c)));
    let loaded = load_identity_logs(&rest);
    proof {
        lemma_identity_files(loaded, rest@, rest@.len());
    }
    let logs = match loaded {
        Err(e) => {
            return Err(e);
        },
        Ok(logs) => logs,
    };
    assert(identity_logs_view(logs@).take(rest@.len() as int) =~= identity_logs_view(logs@));
    let mut m: IdMap<u128, LogicalId> = IdMap::new();
    if let Some(c) = c {
        match apply_identity_log(&mut m, &c.identities) {
            Err(e) => {
                return Err(e);
            },
            Ok(_) => {},
        }
    }
    identity_of_logs(m, &logs)
}

/// Recovers the replica directory.
pub fn recover_replicas(c: &Option<DirectoryCheckpoint>, files: Vec<LogFile>) -> (r: Result<
    IdMap<u64, ReplicaId>,
    FormatError,
>)
    ensures
        rv(r) == replicas_recovered(checkpoint_view(*c), files@),
{
    let rest = keep_later(files, covered_up_to(c), Ghost(checkpoint_view(*c)));
    let loaded = load_replica_logs(&rest);
    proof {
        lemma_replica_files(loaded, rest@, rest@.len());
    }
    let logs = match loaded {
        Err(e) => {
            return Err(e);
        },
        Ok(logs) => logs,
    };
    assert(replica_logs_view(logs@).take(rest@.len() as int) =~= replica_logs_view(logs@));
    let mut m: IdMap<u64, ReplicaId> = IdMap::new();
    if let Some(c) = c {
        match apply_replica_log(&mut m, &c.replicas) {
            Err(e) => {
                return Err(e);
            },
            Ok(_) => {},
        }
    }
    replicas_of_logs(m, &logs)
}

/// Recovers the placement directory.
pub fn recover_placements(c: &Option<DirectoryCheckpoint>, files: Vec<LogFile>) -> (r: Result<
    IdMap<u64, Placement>,
    FormatError,
>)
    ensures
        rv(r) == placements_recovered(checkpoint_view(*c), files@),
{
    let rest = keep_later(files, covered_up_to(c), Ghost(checkpoint_view(*c)));
    let loaded = load_placement_logs(&rest);
    proof {
        lemma_placement_files(loaded, rest@, rest@.len());
    }
    let logs = match loaded {
        Err(e) => {
            return Err(e);
        },
        Ok(logs) => logs,
    };
    assert(logs@.take(rest@.len() as int) =~= logs@);
    let mut m: IdMap<u64, Placement> = IdMap::new();
    if let Some(c) = c {
        match apply_records(&mut m, &c.placements) {
            Err(e) => {
                return Err(e);
            },
            Ok(_) => {},
        }
    }
    let ghost base = m@;
    let mut i: usize = 0;
    assert(all_records(logs@.take(0)) =~= seq![]);
    while i < logs.len()
        invariant
            i <= logs@.len(),
            build(base, all_records(logs@.take(i as int))) == Ok::<Map<u64, Placement>, ErrV>(m@),
            placement_base(checkpoint_view(*c)) == Ok::<Map<u64, Placement>, ErrV>(base),
            placement_files(rest@, rest@.len()) == Ok::<Seq<PlacementRecord>, ErrV>(
                all_records(logs@),
            ),
            rest@ == later(files@, checkpoint_view(*c)),
        decreases logs@.len() - i,
    {
        proof {
            assert(logs@.take(i + 1).drop_last() =~= logs@.take(i as int));
            assert(logs@.take(i + 1).last() == logs@[i as int]);
            lemma_build_append(
                base,
                all_records(logs@.take(i as int)),
                logs@[i as int].records@,
            );
        }
        match apply_records(&mut m, &logs[i].records) {
            Err(e) => {
                proof {
                    lemma_records_prefix(base, logs@, i + 1);
                }
                return Err(e);
            },
            Ok(_) => {},
        }
        i += 1;
    }
    assert(logs@.take(i as int) =~= logs@);
    Ok(m)
}

/// A conflict in the first logs is one of all.
proof fn lemma_records_prefix(m: Map<u64, Placement>, logs: Seq<PlacementLog>, i: int)
    requires
        0 <= i <= logs.len(),
        build(m, all_records(logs.take(i))) is Err,
    ensures
        build(m, all_records(logs)) == build(m, all_records(logs.take(i))),
    decreases logs.len() - i,
{
    if i < logs.len() {
        assert(logs.take(i + 1).drop_last() =~= logs.take(i));
        lemma_build_append(m, all_records(logs.take(i)), logs[i].records@);
        lemma_records_prefix(m, logs, i + 1);
    } else {
        assert(logs.take(i) =~= logs);
    }
}

// ---------------------------------------------------------------------------
// Segments
/// One segment file: its bytes, or why they could not be read.
pub type SegmentFile = Result<Vec<u8>, FormatError>;

/// What a segment file holds.
pub open spec fn file_segment(f: SegmentFile) -> Result<SegV, ErrV> {
    match f {
        Err(e) => Err(e@),
        Ok(b) => segment_of(b@),
    }
}

/// The segments of the first `n` files, or the first failure.
pub open spec fn segment_files(files: Seq<SegmentFile>, n: nat) -> Result<Seq<SegV>, ErrV>
    decreases n,
{
    if n == 0 {
        Ok(seq![])
    } else {
        match segment_files(files, (n - 1) as nat) {
            Err(e) => Err(e),
            Ok(v) => match file_segment(files[n - 1]) {
                Err(e) => Err(e),
                Ok(s) => Ok(v.push(s)),
            },
        }
    }
}

proof fn lemma_segments_err(files: Seq<SegmentFile>, i: nat, n: nat)
    requires
        i <= n,
        segment_files(files, i) is Err,
    ensures
        segment_files(files, n) == segment_files(files, i),
    decreases n - i,
{
    if i < n {
        lemma_segments_err(files, i, (n - 1) as nat);
    }
}

/// A copy of an error.
pub fn copy_error(e: &FormatError) -> (r: FormatError)
    ensures
        r@ == e@,
{
    match e {
        FormatError::Io(m) => FormatError::Io(m.as_str().to_string()),
        FormatError::Corrupt(m) => FormatError::Corrupt(m.as_str().to_string()),
        FormatError::Unsupported(m) => FormatError::Unsupported(m.as_str().to_string()),
        FormatError::Invalid(m) => FormatError::Invalid(m.as_str().to_string()),
        FormatError::Locked(m) => FormatError::Locked(m.as_str().to_string()),
    }
}

/// Opens the segments that the manifest names.
pub fn open_segments(files: &Vec<SegmentFile>) -> (r: Result<Vec<SegmentReader>, FormatError>)
    ensures
        match r {
            Ok(v) => all_wf(v@) && segment_files(files@, files@.len()) == Ok::<Seq<SegV>, ErrV>(
                segs_view(v@),
            ),
            Err(e) => segment_files(files@, files@.len()) == Err::<Seq<SegV>, ErrV>(e@),
        },
{
    let mut out: Vec<SegmentReader> = Vec::new();
    let mut i: usize = 0;
    assert(segs_view(out@) =~= seq![]);
    while i < files.len()
        invariant
            i <= files@.len(),
            all_wf(out@),
            segment_files(files@, i as nat) == Ok::<Seq<SegV>, ErrV>(segs_view(out@)),
        decreases files@.len() - i,
    {
        let ghost before = segs_view(out@);
        let opened = match &files[i] {
            Err(e) => Err(copy_error(e)),
            Ok(b) => SegmentReader::open(crate::codec::to_vec(b.as_slice())),
        };
        match opened {
            Err(e) => {
                proof {
                    lemma_segments_err(files@, (i + 1) as nat, files@.len());
                }
                return Err(e);
            },
            Ok(s) => {
                let ghost sv = s@;
                out.push(s);
                assert(segs_view(out@) =~= before.push(sv));
            },
        }
        i += 1;
    }
    Ok(out)
}

// ---------------------------------------------------------------------------
// Orphans
/// The segments that names of a listing name and the manifest does not, in
/// listing order.
pub open spec fn strays_in(names: Seq<String>, records: Seq<SegmentRecordV>) -> Seq<u64>
    decreases names.len(),
{
    if names.len() == 0 {
        seq![]
    } else {
        let front = strays_in(names.drop_last(), records);
        match tagged_number(names.last()@, "SEGMENT-"@, ".seg"@) {
            Some(id) => if last_with(records, records.len(), id) is None {
                front.push(id)
            } else {
                front
            },
            None => front,
        }
    }
}

/// The segment files that the manifest does not name, in ascending order.
/// Nothing refers to them, so they can be ignored.
pub fn orphan_segments(names: &Vec<String>, manifest: &Manifest) -> (r: Vec<u64>)
    ensures
        sorted(r@),
        r@.to_multiset() == strays_in(names@, manifest@.segments).to_multiset(),
{
    let mut out: Vec<u64> = Vec::new();
    let mut i: usize = 0;
    assert(names@.take(0) =~= seq![]);
    while i < names.len()
        invariant
            i <= names@.len(),
            out@ == strays_in(names@.take(i as int), manifest@.segments),
        decreases names@.len() - i,
    {
        assert(names@.take(i + 1).drop_last() =~= names@.take(i as int));
        match parse_tagged(names[i].as_str(), "SEGMENT-", ".seg") {
            Some(id) => match find_segment(&manifest.segments, id) {
                None => {
                    out.push(id);
                },
                Some(_) => {},
            },
            None => {},
        }
        i += 1;
    }
    assert(names@.take(i as int) =~= names@);
    merge_sort(out)
}

// ---------------------------------------------------------------------------
// Placements against segments
/// The last of the first `n` records with the identifier.
pub open spec fn last_with(records: Seq<SegmentRecordV>, n: nat, id: u64) -> Option<int>
    decreases n,
{
    if n == 0 {
        None
    } else if records[n - 1].segment_id == id {
        Some(n - 1)
    } else {
        last_with(records, (n - 1) as nat, id)
    }
}

/// The identifiers that the records name.
pub open spec fn named_ids(records: Seq<SegmentRecordV>) -> Set<u64> {
    Set::new(|id: u64| last_with(records, records.len(), id) is Some)
}

/// A placement in a segment must name a block and an entry that are there.
pub open spec fn place_check(rid: u64, p: Placement, records: Seq<SegmentRecordV>, segs: Seq<SegV>) -> Result<
    (),
    ErrV,
> {
    match p {
        Placement::Segment(loc) => match last_with(records, records.len(), loc.segment_id.0) {
            None => Err(
                ErrV::Corrupt(
                    "placement for replica ReplicaId("@ + dec(rid as nat)
                        + ") references segment "@ + dec(loc.segment_id.0 as nat)
                        + " absent from the manifest"@,
                ),
            ),
            Some(i) => location_check(
                loc,
                named_ids(records),
                block_entry_count_of(segs[i], loc.block_id.0),
            ),
        },
        _ => Ok(()),
    }
}

/// The first of the first `n` placements that fails its check.
pub open spec fn places_check(
    list: Seq<(u64, Placement)>,
    n: nat,
    records: Seq<SegmentRecordV>,
    segs: Seq<SegV>,
) -> Result<(), ErrV>
    decreases n,
{
    if n == 0 {
        Ok(())
    } else {
        match places_check(list, (n - 1) as nat, records, segs) {
            Err(e) => Err(e),
            Ok(_) => place_check(list[n - 1].0, list[n - 1].1, records, segs),
        }
    }
}

proof fn lemma_places_err(
    list: Seq<(u64, Placement)>,
    i: nat,
    n: nat,
    records: Seq<SegmentRecordV>,
    segs: Seq<SegV>,
)
    requires
        i <= n,
        places_check(list, i, records, segs) is Err,
    ensures
        places_check(list, n, records, segs) == places_check(list, i, records, segs),
    decreases n - i,
{
    if i < n {
        lemma_places_err(list, i, (n - 1) as nat, records, segs);
    }
}

/// The directory's placements, checked by ascending replica.
pub open spec fn sound_places(
    r: Result<(), ErrV>,
    m: Map<u64, Placement>,
    records: Seq<SegmentRecordV>,
    segs: Seq<SegV>,
) -> bool {
    exists|list: Seq<(u64, Placement)>|
        lists_map(list, m) && r == #[trigger] places_check(list, list.len(), records, segs)
}

fn find_segment(records: &Vec<SegmentRecord>, id: u64) -> (r: Option<usize>)
    ensures
        match r {
            Some(i) => i < records@.len() && last_with(
                records_view(records@),
                records@.len(),
                id,
            ) == Some(i as int),
            None => last_with(records_view(records@), records@.len(), id) is None,
        },
{
    let ghost v = records_view(records@);
    let mut n: usize = records.len();
    while n > 0
        invariant
            n <= records@.len(),
            v == records_view(records@),
            last_with(v, records@.len(), id) == last_with(v, n as nat, id),
        decreases n,
    {
        n -= 1;
        assert(v[n as int] == records@[n as int]@);
        if records[n].segment_id == id {
            return Some(n);
        }
    }
    None
}

fn collect_ids(records: &Vec<SegmentRecord>) -> (r: HashSet<u64>)
    ensures
        r@ == named_ids(records_view(records@)),
{
    broadcast use group_hash_axioms;

    let ghost v = records_view(records@);
    let mut ids: HashSet<u64> = HashSet::new();
    let mut i: usize = 0;
    while i < records.len()
        invariant
            i <= records@.len(),
            v == records_view(records@),
            forall|id: u64| #[trigger] ids@.contains(id) == (last_with(v, i as nat, id) is Some),
        decreases records@.len() - i,
    {
        assert(v[i as int] == records@[i as int]@);
        ids.insert(records[i].segment_id);
        i += 1;
    }
    assert(ids@ =~= named_ids(v));
    ids
}

/// Checks every placement against the segments.
pub fn check_placements(
    placements: &IdMap<u64, Placement>,
    records: &Vec<SegmentRecord>,
    segments: &Vec<SegmentReader>,
) -> (r: Result<(), FormatError>)
    requires
        segments@.len() == records@.len(),
    ensures
        sound_places(rv(r), placements@, records_view(records@), segs_view(segments@)),
{
    let ghost rv0 = records_view(records@);
    let ghost segs = segs_view(segments@);
    let ids = collect_ids(records);
    let list = placements.to_list();
    let mut i: usize = 0;
    while i < list.len()
        invariant
            i <= list@.len(),
            lists_map(list@, placements@),
            segments@.len() == records@.len(),
            rv0 == records_view(records@),
            segs == segs_view(segments@),
            ids@ == named_ids(rv0),
            places_check(list@, i as nat, rv0, segs) == Ok::<(), ErrV>(()),
        decreases list@.len() - i,
    {
        let (rid, p) = list[i];
        let checked = match p {
            Placement::Segment(loc) => match find_segment(records, loc.segment_id.0) {
                None => Err(
                    FormatError::Corrupt(
                        Text::new("placement for replica ReplicaId(").num(rid).lit(
                            ") references segment ",
                        ).num(loc.segment_id.0).lit(" absent from the manifest").done(),
                    ),
                ),
                Some(k) => {
                    assert(segs[k as int] == segments@[k as int]@);
                    validate_segment_location(
                        &loc,
                        &ids,
                        segments[k].block_entry_count(loc.block_id.0),
                    )
                },
            },
            _ => Ok(()),
        };
        assert(rv(checked) == place_check(rid, p, rv0, segs));
        match checked {
            Err(e) => {
                proof {
                    lemma_places_err(list@, (i + 1) as nat, list@.len(), rv0, segs);
                }
                return Err(e);
            },
            Ok(_) => {},
        }
        i += 1;
    }
    Ok(())
}

// ---------------------------------------------------------------------------
// Replay
/// What the first `n` frames of the log rebuild; the first conflict fails.
pub open spec fn replayed(d: DirV, frames: Seq<WalFrameV>, n: nat) -> Result<(MemV, DirV), ErrV>
    decreases n,
{
    if n == 0 {
        Ok((mem_empty(), d))
    } else {
        match replayed(d, frames, (n - 1) as nat) {
            Err(e) => Err(e),
            Ok((m, d1)) => {
                let ops = frames[n - 1].ops;
                let (m2, d2, r) = change_all(m, d1, frames[n - 1].seq, ops, ops.len());
                match r {
                    Err(e) => Err(e),
                    Ok(_) => Ok((m2, d2)),
                }
            },
        }
    }
}

proof fn lemma_replay_err(d: DirV, frames: Seq<WalFrameV>, i: nat, n: nat)
    requires
        i <= n,
        replayed(d, frames, i) is Err,
    ensures
        replayed(d, frames, n) == replayed(d, frames, i),
    decreases n - i,
{
    if i < n {
        lemma_replay_err(d, frames, i, (n - 1) as nat);
    }
}

/// Applies every frame of the log. Frames keep their sequences; a creation
/// leaves its records pending again.
pub(crate) fn replay_into(dirs: &mut Directories, frames: &Vec<WalFrame>) -> (r: Result<
    Memtable,
    FormatError,
>)
    ensures
        match replayed(old(dirs)@, frames_view(frames@), frames@.len()) {
            Ok((m, d)) => r is Ok && r->Ok_0.wf() && r->Ok_0@ == m && final(dirs)@ == d,
            Err(e) => r is Err && r->Err_0@ == e,
        },
{
    let ghost d0 = dirs@;
    let ghost v = frames_view(frames@);
    let mut mem = Memtable::new();
    let mut i: usize = 0;
    while i < frames.len()
        invariant
            i <= frames@.len(),
            mem.wf(),
            d0 == old(dirs)@,
            v == frames_view(frames@),
            replayed(d0, v, i as nat) == Ok::<(MemV, DirV), ErrV>((mem@, dirs@)),
        decreases frames@.len() - i,
    {
        assert(v[i as int] == frames@[i as int]@);
        assert(v[i as int].ops.len() == frames@[i as int].ops@.len());
        match apply_batch(&mut mem, dirs, frames[i].seq, &frames[i].ops) {
            Err(e) => {
                proof {
                    lemma_replay_err(d0, v, (i + 1) as nat, frames@.len());
                }
                return Err(e);
            },
            Ok(_) => {},
        }
        i += 1;
    }
    Ok(mem)
}

// ---------------------------------------------------------------------------
// Allocators
pub open spec fn larger(a: u64, b: u64) -> u64 {
    if a > b {
        a
    } else {
        b
    }
}

/// The highest sequence of the first `n` frames; 0 where there is none.
pub open spec fn top_frame(frames: Seq<WalFrameV>, n: nat) -> u64
    decreases n,
{
    if n == 0 {
        0
    } else {
        larger(top_frame(frames, (n - 1) as nat), frames[n - 1].seq)
    }
}

/// The highest sequence that the first `n` records name.
pub open spec fn top_record_seq(records: Seq<SegmentRecordV>, n: nat) -> u64
    decreases n,
{
    if n == 0 {
        0
    } else {
        larger(top_record_seq(records, (n - 1) as nat), records[n - 1].seq_hi)
    }
}

/// The highest identifier that the first `n` records name.
pub open spec fn top_record_id(records: Seq<SegmentRecordV>, n: nat) -> u64
    decreases n,
{
    if n == 0 {
        0
    } else {
        larger(top_record_id(records, (n - 1) as nat), records[n - 1].segment_id)
    }
}

/// `x` is the highest logical identity of a directory; 0 where it is empty.
pub open spec fn top_logical(x: u64, m: Map<u128, LogicalId>) -> bool {
    &&& forall|k: u128| #[trigger] m.contains_key(k) ==> m[k].0 <= x
    &&& x == 0 || exists|k: u128| #[trigger] m.contains_key(k) && m[k].0 == x
}

/// `x` is the highest replica of a directory; 0 where it is empty.
pub open spec fn top_replica(x: u64, m: Map<u64, ReplicaId>) -> bool {
    &&& forall|k: u64| #[trigger] m.contains_key(k) ==> m[k].0 <= x
    &&& x == 0 || exists|k: u64| #[trigger] m.contains_key(k) && m[k].0 == x
}

/// `x` is the highest generation of a directory; 0 where it is empty.
pub open spec fn top_generation(x: u64, m: Map<u64, Placement>) -> bool {
    &&& forall|k: u64| #[trigger] m.contains_key(k) ==> gen_of(m[k]) <= x
    &&& x == 0 || exists|k: u64| #[trigger] m.contains_key(k) && gen_of(m[k]) == x
}

fn find_top_frame(frames: &Vec<WalFrame>) -> (r: u64)
    ensures
        r == top_frame(frames_view(frames@), frames@.len()),
{
    let mut top: u64 = 0;
    let mut i: usize = 0;
    while i < frames.len()
        invariant
            i <= frames@.len(),
            top == top_frame(frames_view(frames@), i as nat),
        decreases frames@.len() - i,
    {
        if frames[i].seq > top {
            top = frames[i].seq;
        }
        i += 1;
    }
    top
}

fn find_top_records(records: &Vec<SegmentRecord>) -> (r: (u64, u64))
    ensures
        r.0 == top_record_seq(records_view(records@), records@.len()),
        r.1 == top_record_id(records_view(records@), records@.len()),
{
    let mut seq: u64 = 0;
    let mut id: u64 = 0;
    let mut i: usize = 0;
    while i < records.len()
        invariant
            i <= records@.len(),
            seq == top_record_seq(records_view(records@), i as nat),
            id == top_record_id(records_view(records@), i as nat),
        decreases records@.len() - i,
    {
        if records[i].seq_hi > seq {
            seq = records[i].seq_hi;
        }
        if records[i].segment_id > id {
            id = records[i].segment_id;
        }
        i += 1;
    }
    (seq, id)
}

fn find_top_logical(m: &IdMap<u128, LogicalId>) -> (r: u64)
    ensures
        top_logical(r, m@),
{
    let list = m.to_list();
    let mut top: u64 = 0;
    let mut i: usize = 0;
    while i < list.len()
        invariant
            i <= list@.len(),
            lists_map(list@, m@),
            forall|k: int| 0 <= k < i ==> (#[trigger] list@[k]).1.0 <= top,
            top == 0 || exists|k: u128| #[trigger] m@.contains_key(k) && m@[k].0 == top,
        decreases list@.len() - i,
    {
        let (k, v) = list[i];
        assert(m@.contains_key(list@[i as int].0));
        if v.0 > top {
            top = v.0;
            assert(m@.contains_key(k) && m@[k].0 == top);
        }
        i += 1;
    }
    assert forall|k: u128| #[trigger] m@.contains_key(k) implies m@[k].0 <= top by {
        let j = choose|j: int| 0 <= j < list@.len() && (#[trigger] list@[j]).0 == k;
        assert(list@[j].1.0 <= top);
    }
    top
}

fn find_top_replica(m: &IdMap<u64, ReplicaId>) -> (r: u64)
    ensures
        top_replica(r, m@),
{
    let list = m.to_list();
    let mut top: u64 = 0;
    let mut i: usize = 0;
    while i < list.len()
        invariant
            i <= list@.len(),
            lists_map(list@, m@),
            forall|k: int| 0 <= k < i ==> (#[trigger] list@[k]).1.0 <= top,
            top == 0 || exists|k: u64| #[trigger] m@.contains_key(k) && m@[k].0 == top,
        decreases list@.len() - i,
    {
        let (k, v) = list[i];
        assert(m@.contains_key(list@[i as int].0));
        if v.0 > top {
            top = v.0;
            assert(m@.contains_key(k) && m@[k].0 == top);
        }
        i += 1;
    }
    assert forall|k: u64| #[trigger] m@.contains_key(k) implies m@[k].0 <= top by {
        let j = choose|j: int| 0 <= j < list@.len() && (#[trigger] list@[j]).0 == k;
        assert(list@[j].1.0 <= top);
    }
    top
}

fn find_top_generation(m: &IdMap<u64, Placement>) -> (r: u64)
    ensures
        top_generation(r, m@),
{
    let list = m.to_list();
    let mut top: u64 = 0;
    let mut i: usize = 0;
    while i < list.len()
        invariant
            i <= list@.len(),
            lists_map(list@, m@),
            forall|k: int| 0 <= k < i ==> gen_of((#[trigger] list@[k]).1) <= top,
            top == 0 || exists|k: u64| #[trigger] m@.contains_key(k) && gen_of(m@[k]) == top,
        decreases list@.len() - i,
    {
        let (k, v) = list[i];
        assert(m@.contains_key(list@[i as int].0));
        let g = v.generation();
        if g > top {
            top = g;
            assert(m@.contains_key(k) && gen_of(m@[k]) == top);
        }
        i += 1;
    }
    assert forall|k: u64| #[trigger] m@.contains_key(k) implies gen_of(m@[k]) <= top by {
        let j = choose|j: int| 0 <= j < list@.len() && (#[trigger] list@[j]).0 == k;
        assert(gen_of(list@[j].1) <= top);
    }
    top
}

// ---------------------------------------------------------------------------
// The whole
/// What is read from a database directory: the logs up to the generation in
/// force, oldest first; the segment files in manifest order; the log.
pub struct Files {
    /// The newest checkpoint, where there is one.
    pub checkpoint: Option<DirectoryCheckpoint>,
    pub identity: Vec<LogFile>,
    pub replicas: Vec<LogFile>,
    pub placements: Vec<LogFile>,
    /// Placement logs past the generation in force. Nothing in them counts,
    /// but their generations are not handed out again.
    pub orphan_placements: Vec<LogFile>,
    pub segments: Vec<SegmentFile>,
    pub wal: Vec<u8>,
}

/// A recovered database, before its allocators start.
pub struct Recovered {
    pub records: Vec<SegmentRecord>,
    pub segments: Vec<SegmentReader>,
    pub dirs: Directories,
    pub active: Memtable,
    pub generation: u64,
    /// The length of the log's sound part: what follows was never
    /// acknowledged.
    pub wal_len: usize,
    pub last_seq: u64,
    pub last_segment_id: u64,
    pub last_logical_id: u64,
    pub last_replica_id: u64,
    pub last_placement_generation: u64,
}

/// The directories of the logs, before the replay.
pub open spec fn logged_dirs(
    identity: Map<u128, LogicalId>,
    replicas: Map<u64, ReplicaId>,
    placements: Map<u64, Placement>,
) -> DirV {
    DirV {
        identity,
        replicas,
        placements,
        pending_identity: seq![],
        pending_replicas: seq![],
        pending_placements: seq![],
    }
}

/// The directories and segments of the files, or what fails first: the
/// manifest pair, the identity logs, the replica logs, the segments, the
/// placement logs.
#[verifier::opaque]
pub open spec fn loaded(current: u64, m: ManifestV, f: Files) -> Result<(DirV, Seq<SegV>), ErrV> {
    match verify_pair_spec(current, m.generation) {
        Err(e) => Err(e),
        Ok(_) => match identity_recovered(checkpoint_view(f.checkpoint), f.identity@) {
            Err(e) => Err(e),
            Ok(identity) => match replicas_recovered(
                checkpoint_view(f.checkpoint),
                f.replicas@,
            ) {
                Err(e) => Err(e),
                Ok(replicas) => match segment_files(f.segments@, f.segments@.len()) {
                    Err(e) => Err(e),
                    Ok(segs) => match placements_recovered(
                        checkpoint_view(f.checkpoint),
                        f.placements@,
                    ) {
                        Err(e) => Err(e),
                        Ok(placements) => Ok((logged_dirs(identity, replicas, placements), segs)),
                    },
                },
            },
        },
    }
}

/// What the log adds to loaded directories, the length of its sound part, and
/// its highest sequence.
#[verifier::opaque]
pub open spec fn replay_on(d: DirV, wal: Seq<u8>) -> Result<(MemV, DirV, int, u64), ErrV> {
    match replay_of(wal, 0, None) {
        Err(e) => Err(e),
        Ok((frames, end)) => match replayed(d, frames, frames.len()) {
            Err(e) => Err(e),
            Ok((mem, d2)) => Ok((mem, d2, end, top_frame(frames, frames.len()))),
        },
    }
}

/// `x` is what the files recover to.
pub open spec fn recovers_to(
    x: Recovered,
    m: ManifestV,
    segs: Seq<SegV>,
    replay: (MemV, DirV, int, u64),
    orphans: Seq<LogFile>,
) -> bool {
    &&& records_view(x.records@) == m.segments
    &&& segs_view(x.segments@) == segs
    &&& x.active@ == replay.0
    &&& x.dirs@ == replay.1
    &&& x.wal_len == replay.2
    &&& x.generation == m.generation
    &&& x.last_seq == larger(replay.3, top_record_seq(m.segments, m.segments.len()))
    &&& x.last_segment_id == top_record_id(m.segments, m.segments.len())
    &&& top_logical(x.last_logical_id, x.dirs@.identity)
    &&& top_replica(x.last_replica_id, x.dirs@.replicas)
    &&& exists|top: u64| #[trigger]
        top_generation(top, x.dirs@.placements) && x.last_placement_generation == larger(
            top,
            files_max_generation(orphans),
        )
}

/// How a recovery ends.
pub open spec fn recovery(
    r: Result<Recovered, FormatError>,
    current: u64,
    m: ManifestV,
    f: Files,
) -> bool {
    match loaded(current, m, f) {
        Err(e) => r is Err && r->Err_0@ == e,
        Ok((d, segs)) => exists|check: Result<(), ErrV>| #[trigger]
            sound_places(check, d.placements, m.segments, segs) && match check {
                Err(e) => r is Err && r->Err_0@ == e,
                Ok(_) => match replay_on(d, f.wal@) {
                    Err(e) => r is Err && r->Err_0@ == e,
                    Ok(replay) => r is Ok && recovers_to(
                        r->Ok_0,
                        m,
                        segs,
                        replay,
                        f.orphan_placements@,
                    ),
                },
            },
    }
}

impl Recovered {
    pub open spec fn wf(&self) -> bool {
        self.active.wf() && all_wf(self.segments@)
    }

    /// Every allocator can count on.
    pub open spec fn room(&self) -> bool {
        self.last_seq < u64::MAX && self.last_segment_id < u64::MAX && self.last_logical_id
            < u64::MAX && self.last_replica_id < u64::MAX && self.last_placement_generation
            < u64::MAX
    }

    /// Whether every allocator can count on.
    pub fn has_room(&self) -> (r: bool)
        ensures
            r == self.room(),
    {
        self.last_seq < u64::MAX && self.last_segment_id < u64::MAX && self.last_logical_id
            < u64::MAX && self.last_replica_id < u64::MAX && self.last_placement_generation
            < u64::MAX
    }
}

/// Reads the directories and the segments; gives back the log of frames and
/// the orphans.
fn load(current: &Current, manifest: &Manifest, f: Files) -> (r: Result<
    (Directories, Vec<SegmentReader>, Vec<u8>, Vec<LogFile>),
    FormatError,
>)
    ensures
        match r {
            Ok((d, segs, wal, orphans)) => all_wf(segs@) && loaded(
                current.manifest_generation,
                manifest@,
                f,
            ) == Ok::<(DirV, Seq<SegV>), ErrV>((d@, segs_view(segs@))) && wal == f.wal && orphans
                == f.orphan_placements,
            Err(e) => loaded(current.manifest_generation, manifest@, f) == Err::<
                (DirV, Seq<SegV>),
                ErrV,
            >(e@),
        },
{
    reveal(loaded);
    match verify_pair(current, manifest) {
        Err(e) => {
            return Err(e);
        },
        Ok(_) => {},
    }
    let Files {
        checkpoint,
        identity: identity_files,
        replicas: replica_files,
        placements: placement_files,
        orphan_placements,
        segments: segment_files,
        wal,
    } = f;
    let identity = recover_identity(&checkpoint, identity_files)?;
    let replicas = recover_replicas(&checkpoint, replica_files)?;
    let segments = open_segments(&segment_files)?;
    let placements = recover_placements(&checkpoint, placement_files)?;
    let dirs = Directories {
        identity,
        replicas,
        placements,
        pending_identity: Vec::new(),
        pending_replicas: Vec::new(),
        pending_placements: Vec::new(),
    };
    assert(dirs@.pending_identity =~= seq![]);
    Ok((dirs, segments, wal, orphan_placements))
}

/// Replays the log onto the directories.
fn replay_log(dirs: &mut Directories, wal: &[u8]) -> (r: Result<
    (Memtable, usize, u64),
    FormatError,
>)
    ensures
        match replay_on(old(dirs)@, wal@) {
            Ok((m, d, end, top)) => r is Ok && r->Ok_0.0.wf() && r->Ok_0.0@ == m && final(dirs)@ == d
                && r->Ok_0.1 == end && r->Ok_0.2 == top,
            Err(e) => r is Err && r->Err_0@ == e,
        },
{
    reveal(replay_on);
    let (frames, end) = match replay_frames(wal) {
        Err(e) => {
            return Err(e);
        },
        Ok(x) => x,
    };
    assert(frames_view(frames@).len() == frames@.len());
    let mem = match replay_into(dirs, &frames) {
        Err(e) => {
            return Err(e);
        },
        Ok(m) => m,
    };
    let top = find_top_frame(&frames);
    Ok((mem, end, top))
}

/// Recovers a database from its files.
pub fn recover(current: &Current, manifest: Manifest, f: Files) -> (r: Result<
    Recovered,
    FormatError,
>)
    requires
        f.segments@.len() == manifest.segments@.len(),
    ensures
        recovery(r, current.manifest_generation, manifest@, f),
        r is Ok ==> r->Ok_0.wf(),
{
    let ghost mv = manifest@;
    let (mut dirs, segments, wal, orphans) = load(current, &manifest, f)?;
    proof {
        lemma_loaded_len(current.manifest_generation, mv, f);
        assert(segments@.len() == segs_view(segments@).len());
    }
    let ghost d = dirs@;
    let checked = check_placements(&dirs.placements, &manifest.segments, &segments);
    let ghost check = rv(checked);
    assert(sound_places(check, d.placements, mv.segments, segs_view(segments@)));
    match checked {
        Err(e) => {
            return Err(e);
        },
        Ok(_) => {},
    }
    let (active, wal_len, replay_top) = match replay_log(&mut dirs, wal.as_slice()) {
        Err(e) => {
            return Err(e);
        },
        Ok(x) => x,
    };
    let (seq_top, id_top) = find_top_records(&manifest.segments);
    let last_logical_id = find_top_logical(&dirs.identity);
    let last_replica_id = find_top_replica(&dirs.replicas);
    let placement_top = find_top_generation(&dirs.placements);
    let orphan_top = orphan_placement_max_generation(&orphans);
    let last_placement_generation = if placement_top > orphan_top {
        placement_top
    } else {
        orphan_top
    };
    let x = Recovered {
        records: manifest.segments,
        segments,
        dirs,
        active,
        generation: manifest.generation,
        wal_len,
        last_seq: if replay_top > seq_top {
            replay_top
        } else {
            seq_top
        },
        last_segment_id: id_top,
        last_logical_id,
        last_replica_id,
        last_placement_generation,
    };
    assert(top_generation(placement_top, x.dirs@.placements));
    assert(x.last_placement_generation == larger(placement_top, orphan_top));
    Ok(x)
}

proof fn lemma_loaded_len(current: u64, m: ManifestV, f: Files)
    ensures
        loaded(current, m, f) matches Ok((d, segs)) ==> segs.len() == f.segments@.len(),
{
    reveal(loaded);
    lemma_segments_len(f.segments@, f.segments@.len());
}

proof fn lemma_segments_len(files: Seq<SegmentFile>, n: nat)
    ensures
        segment_files(files, n) matches Ok(v) ==> v.len() == n,
    decreases n,
{
    if n > 0 {
        lemma_segments_len(files, (n - 1) as nat);
    }
}

/// The database that a recovery opens as.
pub open spec fn opened(x: Recovered) -> DbV {
    DbV {
        active: x.active@,
        immutables: seq![],
        segments: segs_view(x.segments@),
        records: records_view(x.records@),
        dirs: x.dirs@,
        next_seq: (x.last_seq + 1) as u64,
        next_segment_id: (x.last_segment_id + 1) as u64,
        generation: x.generation,
        next_logical_id: (x.last_logical_id + 1) as u64,
        next_replica_id: (x.last_replica_id + 1) as u64,
        next_placement_generation: (x.last_placement_generation + 1) as u64,
    }
}

impl Db {
    /// A recovered database, open: each allocator starts past what was
    /// recovered.
    pub fn open(config: Config, x: Recovered) -> (r: Db)
        requires
            x.wf(),
            x.room(),
        ensures
            r.wf(),
            r.config == config,
            r@ == opened(x),
    {
        let db = Db {
            config,
            active: x.active,
            immutables: Vec::new(),
            segments: x.segments,
            records: x.records,
            dirs: x.dirs,
            next_seq: x.last_seq + 1,
            next_segment_id: x.last_segment_id + 1,
            generation: x.generation,
            next_logical_id: x.last_logical_id + 1,
            next_replica_id: x.last_replica_id + 1,
            next_placement_generation: x.last_placement_generation + 1,
        };
        assert(mems_view(db.immutables@) =~= seq![]);
        db
    }
}

} // verus!
