//! The directory checkpoint: one snapshot of the identity, replica and
//! placement directories at one generation, so that recovery needs only the
//! newest checkpoint, the logs published after it, and the active write-ahead
//! log. The three directories are one file with one publication.
//!
//! On disk (little-endian):
//! `AKCK | format_version u16 | generation u64 |
//!  identity_count u32 | records (ObjectId 16 | LogicalId 8) |
//!  replica_count u32 | records (LogicalId 8 | NodeId 8 | ReplicaId 8) |
//!  placement_count u32 | placement records | checksum8`
//!
//! A damaged checkpoint always fails closed: the logs that it replaced may be
//! gone already, so falling back to those that are left would be unsound.

use crate::codec::lex_lt;
use crate::format::{
    ck8, has_at, lemma_has_all, lemma_has_split, lemma_sealed, push_checksum, rv, Cursor, ErrV, FormatError, FORMAT_VERSION,
};
use crate::identity::directory::{
    identities_at, identity_log_generation, identity_table, identity_view, lemma_identity_table,
    lemma_replica_table, oids_fit, push_identities, push_replicas, read_identities, read_replicas,
    replica_log_generation, replica_table, replicas_at, IdentityRecord, IdentityRecordV, LogFile,
    ReplicaRecord,
};
use crate::identity::logical_id::LogicalId;
use crate::identity::node_id::{NodeId, LOCAL_NODE_ID};
use crate::identity::object_id::{
    lemma_oid_number, lemma_oid_of, lemma_oid_order, oid_number, ObjectId,
};
use crate::identity::replica_id::ReplicaId;
use crate::idmap::{lists_map, IdMap};
use crate::listing::{greatest, newest_number, numbers_in};
use crate::placement::directory::{
    lemma_placement_table, placement_log_generation, placement_table, placements_at,
    push_placements, read_placements, Placement, PlacementRecord,
};
use crate::table::{
    file_head, lemma_p_file_end, lemma_p_file_head, p_count, p_file_end, p_file_head,
    push_file_head, read_count, read_file_end, read_file_head, unsupported_version,
};
use crate::text::{dec, join, join_spec, pad6, parse_tagged, tagged_number, Text};
use vstd::prelude::*;

verus! {

pub const CHECKPOINT_MAGIC: [u8; 4] = [0x41, 0x4b, 0x43, 0x4b];

#[derive(Debug, Clone, PartialEq, Eq)]
pub struct DirectoryCheckpoint {
    pub format_version: u16,
    pub generation: u64,
    pub identities: Vec<IdentityRecord>,
    pub replicas: Vec<ReplicaRecord>,
    pub placements: Vec<PlacementRecord>,
}

/// A checkpoint as a value.
#[verifier::ext_equal]
pub struct CheckpointV {
    pub format_version: u16,
    pub generation: u64,
    pub identities: Seq<IdentityRecordV>,
    pub replicas: Seq<ReplicaRecord>,
    pub placements: Seq<PlacementRecord>,
}

impl View for DirectoryCheckpoint {
    type V = CheckpointV;

    open spec fn view(&self) -> CheckpointV {
        CheckpointV {
            format_version: self.format_version,
            generation: self.generation,
            identities: identity_view(self.identities@),
            replicas: self.replicas@,
            placements: self.placements@,
        }
    }
}

pub fn checkpoint_path(dir: &str, generation: u64) -> (r: String)
    ensures
        r@ == join_spec(dir@, "CHECKPOINT-"@ + pad6(generation as nat) + ".log"@),
{
    let name = Text::new("CHECKPOINT-").pad6(generation).lit(".log").done();
    join(dir, name.as_str())
}

/// The generation in a `CHECKPOINT-{generation}.log` name.
pub fn checkpoint_generation(name: &str) -> (r: Option<u64>)
    ensures
        r == tagged_number(name@, "CHECKPOINT-"@, ".log"@),
{
    parse_tagged(name, "CHECKPOINT-", ".log")
}

/// The bindings that identity records stand for.
pub open spec fn identity_pairs(s: Seq<IdentityRecordV>) -> Seq<(u128, LogicalId)> {
    s.map_values(|r: IdentityRecordV| (oid_number(r.oid), r.lid))
}

pub open spec fn replica_pairs(s: Seq<ReplicaRecord>) -> Seq<(u64, ReplicaId)> {
    s.map_values(|r: ReplicaRecord| (r.lid.0, r.rid))
}

pub open spec fn placement_pairs(s: Seq<PlacementRecord>) -> Seq<(u64, Placement)> {
    s.map_values(|r: PlacementRecord| (r.rid.0, r.placement))
}

/// `c` holds the three directories, each sorted by its key.
pub open spec fn snapshots(
    c: CheckpointV,
    identity: Map<u128, LogicalId>,
    replicas: Map<u64, ReplicaId>,
    placements: Map<u64, Placement>,
) -> bool {
    &&& oids_fit(c.identities)
    &&& lists_map(identity_pairs(c.identities), identity)
    &&& lists_map(replica_pairs(c.replicas), replicas)
    &&& forall|i: int|
        0 <= i < c.replicas.len() ==> (#[trigger] c.replicas[i]).node == NodeId(LOCAL_NODE_ID)
    &&& lists_map(placement_pairs(c.placements), placements)
}

pub open spec fn checkpoint_body(c: CheckpointV) -> Seq<u8> {
    file_head(CHECKPOINT_MAGIC@, c.format_version, c.generation) + identity_table(c.identities)
        + replica_table(c.replicas) + placement_table(c.placements)
}

/// The encoded checkpoint.
pub open spec fn checkpoint_bytes(c: CheckpointV) -> Seq<u8> {
    checkpoint_body(c) + ck8(checkpoint_body(c))
}

/// The placement table at `q`, the end of the file, and the whole.
pub open spec fn checkpoint_end(
    b: Seq<u8>,
    q: int,
    generation: u64,
    identities: Seq<IdentityRecordV>,
    replicas: Seq<ReplicaRecord>,
) -> Result<CheckpointV, ErrV> {
    match p_count(b, q, "checkpoint placement_count"@, 33) {
        Err(e) => Err(e),
        Ok(n) => match placements_at(b, q + 4, n as nat, "checkpoint placement"@) {
            Err(e) => Err(e),
            Ok(placements) => match p_file_end(b, q + 4 + 33 * n, "checkpoint"@) {
                Err(e) => Err(e),
                Ok(_) => Ok(
                    CheckpointV {
                        format_version: FORMAT_VERSION,
                        generation,
                        identities,
                        replicas,
                        placements,
                    },
                ),
            },
        },
    }
}

/// What stored checkpoint bytes mean.
pub open spec fn checkpoint_of(b: Seq<u8>) -> Result<CheckpointV, ErrV> {
    match p_file_head(b, "checkpoint"@, CHECKPOINT_MAGIC@) {
        Err(e) => Err(e),
        Ok(generation) => match p_count(b, 14, "checkpoint identity_count"@, 24) {
            Err(e) => Err(e),
            Ok(n1) => {
                let q1 = 18 + 24 * n1;
                match p_count(b, q1, "checkpoint replica_count"@, 24) {
                    Err(e) => Err(e),
                    Ok(n2) => checkpoint_end(
                        b,
                        q1 + 4 + 24 * n2,
                        generation,
                        identities_at(b, 18, n1 as nat),
                        replicas_at(b, q1 + 4, n2 as nat),
                    ),
                }
            },
        },
    }
}

impl DirectoryCheckpoint {
    /// The snapshot of the live directories. Records are sorted by key, so
    /// equal directories give equal bytes.
    pub fn from_state(
        generation: u64,
        identity: &IdMap<u128, LogicalId>,
        replicas: &IdMap<u64, ReplicaId>,
        placements: &IdMap<u64, Placement>,
    ) -> (r: Self)
        ensures
            r.format_version == FORMAT_VERSION,
            r.generation == generation,
            snapshots(r@, identity@, replicas@, placements@),
    {
        let pairs = identity.to_list();
        let mut identities: Vec<IdentityRecord> = Vec::new();
        let mut i: usize = 0;
        while i < pairs.len()
            invariant
                i <= pairs@.len(),
                identities@.len() == i,
                oids_fit(identity_view(identities@)),
                identity_pairs(identity_view(identities@)) == pairs@.take(i as int),
            decreases pairs@.len() - i,
        {
            let (n, lid) = pairs[i];
            let rec = IdentityRecord { oid: ObjectId::from_number(n), lid };
            proof {
                lemma_oid_of(n);
            }
            let ghost before = identities@;
            identities.push(rec);
            proof {
                assert(identity_view(identities@) =~= identity_view(before).push(rec@));
                assert(identity_pairs(identity_view(identities@)) =~= identity_pairs(
                    identity_view(before),
                ).push((n, lid)));
                assert(pairs@.take(i + 1) =~= pairs@.take(i as int).push(pairs@[i as int]));
                assert forall|k: int| 0 <= k < identity_view(identities@).len() implies (
                #[trigger] identity_view(identities@)[k]).oid.len() == 16 by {
                    if k < before.len() {
                        assert(identity_view(identities@)[k] == identity_view(before)[k]);
                    }
                }
            }
            i += 1;
        }
        assert(pairs@.take(i as int) =~= pairs@);
        let rpairs = replicas.to_list();
        let mut reps: Vec<ReplicaRecord> = Vec::new();
        let mut j: usize = 0;
        while j < rpairs.len()
            invariant
                j <= rpairs@.len(),
                reps@.len() == j,
                replica_pairs(reps@) == rpairs@.take(j as int),
                forall|k: int|
                    0 <= k < reps@.len() ==> (#[trigger] reps@[k]).node == NodeId(LOCAL_NODE_ID),
            decreases rpairs@.len() - j,
        {
            let (lid, rid) = rpairs[j];
            let ghost before = reps@;
            let rec = ReplicaRecord { lid: LogicalId(lid), node: NodeId(LOCAL_NODE_ID), rid };
            reps.push(rec);
            assert(replica_pairs(reps@) =~= replica_pairs(before).push((lid, rid)));
            assert(rpairs@.take(j + 1) =~= rpairs@.take(j as int).push(rpairs@[j as int]));
            j += 1;
        }
        assert(rpairs@.take(j as int) =~= rpairs@);
        let ppairs = placements.to_list();
        let mut places: Vec<PlacementRecord> = Vec::new();
        let mut k: usize = 0;
        while k < ppairs.len()
            invariant
                k <= ppairs@.len(),
                places@.len() == k,
                placement_pairs(places@) == ppairs@.take(k as int),
            decreases ppairs@.len() - k,
        {
            let (rid, placement) = ppairs[k];
            let ghost before = places@;
            let rec = PlacementRecord { rid: ReplicaId(rid), placement };
            places.push(rec);
            assert(placement_pairs(places@) =~= placement_pairs(before).push((rid, placement)));
            assert(ppairs@.take(k + 1) =~= ppairs@.take(k as int).push(ppairs@[k as int]));
            k += 1;
        }
        assert(ppairs@.take(k as int) =~= ppairs@);
        DirectoryCheckpoint {
            format_version: FORMAT_VERSION,
            generation,
            identities,
            replicas: reps,
            placements: places,
        }
    }

    pub fn encode(&self) -> (r: Vec<u8>)
        ensures
            r@ == checkpoint_bytes(self@),
    {
        let mut bytes: Vec<u8> = Vec::new();
        push_file_head(
            &mut bytes,
            CHECKPOINT_MAGIC.as_slice(),
            self.format_version,
            self.generation,
        );
        push_identities(&mut bytes, &self.identities);
        push_replicas(&mut bytes, &self.replicas);
        push_placements(&mut bytes, &self.placements);
        assert(bytes@ =~= checkpoint_body(self@));
        push_checksum(&mut bytes);
        bytes
    }

    pub fn decode(bytes: &[u8]) -> (r: Result<Self, FormatError>)
        ensures
            rv(r) == checkpoint_of(bytes@),
    {
        let mut cur = Cursor::new(bytes);
        let generation = read_file_head(&mut cur, "checkpoint", CHECKPOINT_MAGIC.as_slice())?;
        let n1 = read_count(&mut cur, "checkpoint identity_count", 24)?;
        let identities = read_identities(&mut cur, n1);
        let n2 = read_count(&mut cur, "checkpoint replica_count", 24)?;
        let replicas = read_replicas(&mut cur, n2);
        let n3 = read_count(&mut cur, "checkpoint placement_count", 33)?;
        let placements = read_placements(&mut cur, n3, "checkpoint placement")?;
        match read_file_end(&mut cur, "checkpoint") {
            Ok(_) => {},
            Err(e) => {
                return Err(e);
            },
        }
        Ok(
            DirectoryCheckpoint {
                format_version: FORMAT_VERSION,
                generation,
                identities,
                replicas,
                placements,
            },
        )
    }

    /// A checkpoint file that was read back, or why it could not be.
    pub fn read(path: &str, bytes: &Result<Vec<u8>, String>) -> (r: Result<Self, FormatError>)
        ensures
            rv(r) == checkpoint_in(path@, *bytes),
    {
        match bytes {
            Ok(b) => Self::decode(b.as_slice()),
            Err(e) => Err(
                FormatError::Io(
                    Text::new("read checkpoint ").lit(path).lit(": ").lit(e.as_str()).done(),
                ),
            ),
        }
    }
}

/// The checkpoint in a file.
pub open spec fn checkpoint_in(path: Seq<char>, bytes: Result<Vec<u8>, String>) -> Result<
    CheckpointV,
    ErrV,
> {
    match bytes {
        Ok(b) => checkpoint_of(b@),
        Err(e) => Err(ErrV::Io("read checkpoint "@ + path + ": "@ + e@)),
    }
}

/// A checkpoint whose counts fit their fields.
pub open spec fn checkpoint_fits(c: CheckpointV) -> bool {
    &&& c.identities.len() <= u32::MAX
    &&& c.replicas.len() <= u32::MAX
    &&& c.placements.len() <= u32::MAX
    &&& oids_fit(c.identities)
}

proof fn lemma_checkpoint_parts(c: CheckpointV, q1: int, q2: int)
    requires
        checkpoint_fits(c),
        q1 == 18 + 24 * c.identities.len(),
        q2 == q1 + 4 + 24 * c.replicas.len(),
    ensures
        ({
            let b = checkpoint_bytes(c);
            &&& has_at(b, 0, file_head(CHECKPOINT_MAGIC@, c.format_version, c.generation))
            &&& p_count(b, 14, "checkpoint identity_count"@, 24) == Ok::<u32, ErrV>(
                c.identities.len() as u32,
            )
            &&& identities_at(b, 18, c.identities.len()) == c.identities
            &&& p_count(b, q1, "checkpoint replica_count"@, 24) == Ok::<u32, ErrV>(
                c.replicas.len() as u32,
            )
            &&& replicas_at(b, q1 + 4, c.replicas.len()) == c.replicas
            &&& p_count(b, q2, "checkpoint placement_count"@, 33) == Ok::<u32, ErrV>(
                c.placements.len() as u32,
            )
            &&& placements_at(b, q2 + 4, c.placements.len(), "checkpoint placement"@) == Ok::<
                Seq<PlacementRecord>,
                ErrV,
            >(c.placements)
            &&& checkpoint_body(c).len() == q2 + 4 + 33 * c.placements.len()
        }),
{
    let b = checkpoint_bytes(c);
    let body = checkpoint_body(c);
    let head = file_head(CHECKPOINT_MAGIC@, c.format_version, c.generation);
    let w2 = head + identity_table(c.identities);
    let w3 = w2 + replica_table(c.replicas);
    lemma_has_all(b);
    lemma_has_split(b, 0, body, ck8(body));
    lemma_has_split(b, 0, w3, placement_table(c.placements));
    lemma_has_split(b, 0, w2, replica_table(c.replicas));
    lemma_has_split(b, 0, head, identity_table(c.identities));
    assert(head.len() == 14) by {
        lemma_sealed(checkpoint_body(c));
        lemma_p_file_head(b, "checkpoint"@, CHECKPOINT_MAGIC@, c.format_version, c.generation);
    }
    lemma_identity_table(b, 14, "checkpoint identity_count"@, c.identities);
    lemma_replica_table(b, q1, "checkpoint replica_count"@, c.replicas);
    lemma_placement_table(
        b,
        q2,
        "checkpoint placement_count"@,
        "checkpoint placement"@,
        c.placements,
    );
}

/// Reading back a written checkpoint gives the checkpoint; one of another
/// format version is refused as unsupported.
pub proof fn checkpoint_round_trip(c: CheckpointV)
    requires
        checkpoint_fits(c),
    ensures
        c.format_version == FORMAT_VERSION ==> checkpoint_of(checkpoint_bytes(c)) == Ok::<
            CheckpointV,
            ErrV,
        >(c),
        c.format_version != FORMAT_VERSION ==> checkpoint_of(checkpoint_bytes(c)) == Err::<
            CheckpointV,
            ErrV,
        >(unsupported_version("checkpoint"@, c.format_version)),
{
    let b = checkpoint_bytes(c);
    let q1 = 18 + 24 * c.identities.len();
    let q2 = q1 + 4 + 24 * c.replicas.len();
    lemma_checkpoint_parts(c, q1 as int, q2 as int);
    lemma_sealed(checkpoint_body(c));
    lemma_p_file_head(b, "checkpoint"@, CHECKPOINT_MAGIC@, c.format_version, c.generation);
    lemma_p_file_end(checkpoint_body(c), "checkpoint"@);
}

proof fn lemma_lists_same<K: crate::idmap::IdKey, V>(s: Seq<(K, V)>, a: Map<K, V>, b: Map<K, V>)
    requires
        lists_map(s, a),
        lists_map(s, b),
    ensures
        a == b,
{
    assert forall|k: K| #[trigger] a.contains_key(k) implies b.contains_key(k) && a[k]
        == b[k] by {
        let i = choose|i: int| 0 <= i < s.len() && (#[trigger] s[i]).0 == k;
        assert(b.contains_key(s[i].0));
    }
    assert forall|k: K| #[trigger] b.contains_key(k) implies a.contains_key(k) by {
        let i = choose|i: int| 0 <= i < s.len() && (#[trigger] s[i]).0 == k;
        assert(a.contains_key(s[i].0));
    }
    assert(a =~= b);
}

/// A checkpoint determines the directories: no two states share one.
pub proof fn checkpoint_determines_state(
    c: CheckpointV,
    i1: Map<u128, LogicalId>,
    r1: Map<u64, ReplicaId>,
    p1: Map<u64, Placement>,
    i2: Map<u128, LogicalId>,
    r2: Map<u64, ReplicaId>,
    p2: Map<u64, Placement>,
)
    requires
        snapshots(c, i1, r1, p1),
        snapshots(c, i2, r2, p2),
    ensures
        i1 == i2,
        r1 == r2,
        p1 == p2,
{
    lemma_lists_same(identity_pairs(c.identities), i1, i2);
    lemma_lists_same(replica_pairs(c.replicas), r1, r2);
    lemma_lists_same(placement_pairs(c.placements), p1, p2);
}

/// The identities of a snapshot ascend byte by byte.
pub proof fn checkpoint_identities_ascend(
    c: CheckpointV,
    identity: Map<u128, LogicalId>,
    replicas: Map<u64, ReplicaId>,
    placements: Map<u64, Placement>,
    i: int,
    j: int,
)
    requires
        snapshots(c, identity, replicas, placements),
        0 <= i < j < c.identities.len(),
    ensures
        lex_lt(c.identities[i].oid, c.identities[j].oid),
{
    let s = identity_pairs(c.identities);
    let a = c.identities[i].oid;
    let b = c.identities[j].oid;
    assert(s[i].0 == oid_number(a));
    assert(s[j].0 == oid_number(b));
    lemma_oid_number(a);
    lemma_oid_number(b);
    lemma_oid_order(s[i].0, s[j].0);
}

// ---------------------------------------------------------------------------
// Loading and pruning
/// The generation of the newest checkpoint of a listing at or below the
/// current one.
pub fn newest_checkpoint(names: &Vec<String>, current_generation: u64) -> (r: Option<u64>)
    ensures
        greatest(r, numbers_in(names@, "CHECKPOINT-"@, ".log"@, current_generation, false)),
{
    newest_number(names, "CHECKPOINT-", ".log", current_generation)
}

/// The checkpoint that recovery starts from: none where there is no file; a
/// file that cannot be read, does not decode, or carries another generation
/// than its name fails closed.
pub open spec fn newest_of(file: Option<LogFile>, path: Seq<char>) -> Result<
    Option<CheckpointV>,
    ErrV,
> {
    match file {
        None => Ok(None),
        Some(f) => match checkpoint_in(path, f.bytes) {
            Err(e) => Err(e),
            Ok(c) => if c.generation != f.generation {
                Err(
                    ErrV::Corrupt(
                        "CHECKPOINT-"@ + pad6(f.generation as nat) + ".log carries generation "@
                            + dec(c.generation as nat),
                    ),
                )
            } else {
                Ok(Some(c))
            },
        },
    }
}

pub fn load_newest(file: &Option<LogFile>, path: &str) -> (r: Result<
    Option<DirectoryCheckpoint>,
    FormatError,
>)
    ensures
        match (r, newest_of(*file, path@)) {
            (Ok(None), Ok(None)) => true,
            (Ok(Some(c)), Ok(Some(v))) => c@ == v,
            (Err(e), Err(g)) => e@ == g,
            _ => false,
        },
{
    match file {
        None => Ok(None),
        Some(f) => {
            let c = DirectoryCheckpoint::read(path, &f.bytes)?;
            if c.generation != f.generation {
                return Err(
                    FormatError::Corrupt(
                        Text::new("CHECKPOINT-").pad6(f.generation).lit(
                            ".log carries generation ",
                        ).num(c.generation).done(),
                    ),
                );
            }
            Ok(Some(c))
        },
    }
}

/// The generation of a directory log, of whichever family.
pub open spec fn delta_number(name: Seq<char>) -> Option<u64> {
    match tagged_number(name, "IDENTITY-"@, ".log"@) {
        Some(g) => Some(g),
        None => match tagged_number(name, "REPLICA-"@, ".log"@) {
            Some(g) => Some(g),
            None => tagged_number(name, "PLACEMENT-"@, ".log"@),
        },
    }
}

pub fn delta_log_generation(name: &str) -> (r: Option<u64>)
    ensures
        r == delta_number(name@),
{
    match identity_log_generation(name) {
        Some(g) => Some(g),
        None => match replica_log_generation(name) {
            Some(g) => Some(g),
            None => placement_log_generation(name),
        },
    }
}

/// A checkpoint at `generation` makes a file obsolete: a directory log at or
/// below it, or an older checkpoint.
pub open spec fn obsolete(name: Seq<char>, generation: u64) -> bool {
    match delta_number(name) {
        Some(g) => g <= generation,
        None => match tagged_number(name, "CHECKPOINT-"@, ".log"@) {
            Some(g) => g < generation,
            None => false,
        },
    }
}

/// The positions of the obsolete files in a listing.
pub open spec fn obsolete_in(names: Seq<String>, generation: u64) -> Seq<usize>
    decreases names.len(),
{
    if names.len() == 0 {
        seq![]
    } else {
        let front = obsolete_in(names.drop_last(), generation);
        if obsolete(names.last()@, generation) {
            front.push((names.len() - 1) as usize)
        } else {
            front
        }
    }
}

/// Which files of a listing a checkpoint at `generation` makes obsolete, by
/// position.
pub fn prune_deltas_before(names: &Vec<String>, generation: u64) -> (r: Vec<usize>)
    ensures
        r@ == obsolete_in(names@, generation),
{
    let mut out: Vec<usize> = Vec::new();
    let mut i: usize = 0;
    while i < names.len()
        invariant
            i <= names@.len(),
            out@ == obsolete_in(names@.take(i as int), generation),
        decreases names@.len() - i,
    {
        assert(names@.take(i + 1).drop_last() =~= names@.take(i as int));
        let name = names[i].as_str();
        let remove = match delta_log_generation(name) {
            Some(g) => g <= generation,
            None => match checkpoint_generation(name) {
                Some(g) => g < generation,
                None => false,
            },
        };
        if remove {
            out.push(i);
        }
        i += 1;
    }
    assert(names@.take(i as int) =~= names@);
    out
}

/// A file of a listing, with its size where it could be had.
pub struct FileInfo {
    pub name: String,
    pub size: Option<u64>,
}

/// The bytes of the directory logs past a generation.
pub open spec fn log_bytes_after(files: Seq<FileInfo>, after: u64) -> nat
    decreases files.len(),
{
    if files.len() == 0 {
        0
    } else {
        let rest = log_bytes_after(files.drop_last(), after);
        match (delta_number(files.last().name@), files.last().size) {
            (Some(g), Some(n)) => if g > after {
                rest + n as nat
            } else {
                rest
            },
            _ => rest,
        }
    }
}

proof fn lemma_log_bytes_mono(files: Seq<FileInfo>, after: u64, i: int)
    requires
        0 <= i <= files.len(),
    ensures
        log_bytes_after(files.take(i), after) <= log_bytes_after(files, after),
    decreases files.len() - i,
{
    if i < files.len() {
        assert(files.take(i + 1).drop_last() =~= files.take(i));
        lemma_log_bytes_mono(files, after, i + 1);
    } else {
        assert(files.take(i) =~= files);
    }
}

/// The bytes of directory logs published after a generation: what counts
/// toward the next checkpoint.
pub fn directory_log_bytes(files: &Vec<FileInfo>, after_generation: u64) -> (r: u64)
    requires
        log_bytes_after(files@, after_generation) <= u64::MAX,
    ensures
        r == log_bytes_after(files@, after_generation),
{
    let mut bytes: u64 = 0;
    let mut i: usize = 0;
    while i < files.len()
        invariant
            i <= files@.len(),
            log_bytes_after(files@, after_generation) <= u64::MAX,
            bytes == log_bytes_after(files@.take(i as int), after_generation),
        decreases files@.len() - i,
    {
        proof {
            assert(files@.take(i + 1).drop_last() =~= files@.take(i as int));
            lemma_log_bytes_mono(files@, after_generation, i + 1);
        }
        if let Some(g) = delta_log_generation(files[i].name.as_str()) {
            if g > after_generation {
                if let Some(n) = files[i].size {
                    bytes = bytes + n;
                }
            }
        }
        i += 1;
    }
    assert(files@.take(i as int) =~= files@);
    bytes
}

} // verus!
