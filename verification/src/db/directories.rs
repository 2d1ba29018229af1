//! The live directories: from object to logical identity, from logical
//! identity to local replica, from replica to placement; and the records that
//! the next flush publishes.
//!
//! A record may arrive twice, from a log and from the replay of a frame: an
//! identical repeat changes nothing, a conflicting one fails closed.

use crate::format::{rv, ErrV, FormatError};
use crate::identity::directory::{
    identity_view, IdentityLog, IdentityLogV, IdentityRecord, IdentityRecordV, ReplicaLog,
    ReplicaLogV, ReplicaRecord,
};
use crate::identity::logical_id::LogicalId;
use crate::identity::node_id::{NodeId, LOCAL_NODE_ID};
use crate::identity::object_id::{oid_number, ObjectId};
use crate::identity::replica_id::ReplicaId;
use crate::idmap::{lookup, IdMap};
use crate::placement::directory::{gate, merge_placement, placed, Placement, PlacementRecord};
use crate::text::{dec, hex, Text};
use vstd::prelude::*;

verus! {

// ---------------------------------------------------------------------------
// Merging
/// An object has one logical identity.
pub open spec fn identity_gate(m: Map<u128, LogicalId>, oid: Seq<u8>, lid: LogicalId) -> Result<
    (),
    ErrV,
> {
    match lookup(m, oid_number(oid)) {
        None => Ok(()),
        Some(old) => if old == lid {
            Ok(())
        } else {
            Err(
                ErrV::Corrupt(
                    "identity directory: ObjectId "@ + hex(oid) + " maps to both "@ + dec(
                        old.0 as nat,
                    ) + " and "@ + dec(lid.0 as nat),
                ),
            )
        },
    }
}

/// The map after a record that is let in.
pub open spec fn identified(m: Map<u128, LogicalId>, oid: Seq<u8>, lid: LogicalId) -> Map<
    u128,
    LogicalId,
> {
    if identity_gate(m, oid, lid) is Ok {
        m.insert(oid_number(oid), lid)
    } else {
        m
    }
}

/// Merges one identity record.
pub fn merge_identity(identity: &mut IdMap<u128, LogicalId>, oid: ObjectId, lid: LogicalId) -> (r: Result<
    (),
    FormatError,
>)
    ensures
        rv(r) == identity_gate(old(identity)@, oid@, lid),
        final(identity)@ == identified(old(identity)@, oid@, lid),
{
    let n: u128 = oid.number();
    match identity.get(n) {
        None => {
            identity.insert(n, lid);
            Ok(())
        },
        Some(existing) => {
            if existing.0 == lid.0 {
                assert(identity@ =~= identity@.insert(n, lid));
                Ok(())
            } else {
                Err(
                    FormatError::Corrupt(
                        Text::new("identity directory: ObjectId ").hex(oid.0.as_slice()).lit(
                            " maps to both ",
                        ).num(existing.0).lit(" and ").num(lid.0).done(),
                    ),
                )
            }
        },
    }
}

/// A logical identity has one replica, and it is on the local node.
pub open spec fn replica_gate(m: Map<u64, ReplicaId>, rec: ReplicaRecord) -> Result<(), ErrV> {
    if rec.node.0 != LOCAL_NODE_ID {
        Err(
            ErrV::Corrupt(
                "replica directory: record names NodeId("@ + dec(rec.node.0 as nat)
                    + "), this build only knows NodeId("@ + dec(LOCAL_NODE_ID as nat) + ")"@,
            ),
        )
    } else {
        match lookup(m, rec.lid.0) {
            None => Ok(()),
            Some(old) => if old == rec.rid {
                Ok(())
            } else {
                Err(
                    ErrV::Corrupt(
                        "replica directory: LogicalId "@ + dec(rec.lid.0 as nat)
                            + " maps to both "@ + dec(old.0 as nat) + " and "@ + dec(
                            rec.rid.0 as nat,
                        ),
                    ),
                )
            },
        }
    }
}

/// The map after a record that is let in.
pub open spec fn replicated(m: Map<u64, ReplicaId>, rec: ReplicaRecord) -> Map<u64, ReplicaId> {
    if replica_gate(m, rec) is Ok {
        m.insert(rec.lid.0, rec.rid)
    } else {
        m
    }
}

/// Merges one replica record.
pub fn merge_replica(
    replicas: &mut IdMap<u64, ReplicaId>,
    lid: LogicalId,
    node: NodeId,
    rid: ReplicaId,
) -> (r: Result<(), FormatError>)
    ensures
        rv(r) == replica_gate(old(replicas)@, (ReplicaRecord { lid, node, rid })),
        final(replicas)@ == replicated(old(replicas)@, (ReplicaRecord { lid, node, rid })),
{
    if node.0 != LOCAL_NODE_ID {
        return Err(
            FormatError::Corrupt(
                Text::new("replica directory: record names NodeId(").num(node.0).lit(
                    "), this build only knows NodeId(",
                ).num(LOCAL_NODE_ID).lit(")").done(),
            ),
        );
    }
    match replicas.get(lid.0) {
        None => {
            replicas.insert(lid.0, rid);
            Ok(())
        },
        Some(existing) => {
            if existing.0 == rid.0 {
                assert(replicas@ =~= replicas@.insert(lid.0, rid));
                Ok(())
            } else {
                Err(
                    FormatError::Corrupt(
                        Text::new("replica directory: LogicalId ").num(lid.0).lit(
                            " maps to both ",
                        ).num(existing.0).lit(" and ").num(rid.0).done(),
                    ),
                )
            }
        },
    }
}

// ---------------------------------------------------------------------------
// The directories
/// The directories as a value.
#[verifier::ext_equal]
pub struct DirV {
    pub identity: Map<u128, LogicalId>,
    pub replicas: Map<u64, ReplicaId>,
    pub placements: Map<u64, Placement>,
    pub pending_identity: Seq<IdentityRecordV>,
    pub pending_replicas: Seq<ReplicaRecord>,
    pub pending_placements: Seq<PlacementRecord>,
}

pub struct Directories {
    pub identity: IdMap<u128, LogicalId>,
    pub replicas: IdMap<u64, ReplicaId>,
    pub placements: IdMap<u64, Placement>,
    pub pending_identity: Vec<IdentityRecord>,
    pub pending_replicas: Vec<ReplicaRecord>,
    pub pending_placements: Vec<PlacementRecord>,
}

impl View for Directories {
    type V = DirV;

    open spec fn view(&self) -> DirV {
        DirV {
            identity: self.identity@,
            replicas: self.replicas@,
            placements: self.placements@,
            pending_identity: identity_view(self.pending_identity@),
            pending_replicas: self.pending_replicas@,
            pending_placements: self.pending_placements@,
        }
    }
}

/// Directories that know nothing.
pub open spec fn dir_empty() -> DirV {
    DirV {
        identity: Map::empty(),
        replicas: Map::empty(),
        placements: Map::empty(),
        pending_identity: seq![],
        pending_replicas: seq![],
        pending_placements: seq![],
    }
}

/// A new object's identity entered and pending.
pub open spec fn dir_identify(d: DirV, oid: Seq<u8>, lid: LogicalId) -> DirV {
    DirV {
        identity: identified(d.identity, oid, lid),
        pending_identity: d.pending_identity.push(IdentityRecordV { oid, lid }),
        ..d
    }
}

/// The record of a local replica.
pub open spec fn local_replica(lid: LogicalId, rid: ReplicaId) -> ReplicaRecord {
    ReplicaRecord { lid, node: NodeId(LOCAL_NODE_ID), rid }
}

/// A new object's replica entered and pending.
pub open spec fn dir_replicate(d: DirV, lid: LogicalId, rid: ReplicaId) -> DirV {
    DirV {
        replicas: replicated(d.replicas, local_replica(lid, rid)),
        pending_replicas: d.pending_replicas.push(local_replica(lid, rid)),
        ..d
    }
}

/// A placement entered and pending.
pub open spec fn dir_place(d: DirV, rid: ReplicaId, p: Placement) -> DirV {
    DirV {
        placements: placed(d.placements, rid, p),
        pending_placements: d.pending_placements.push(PlacementRecord { rid, placement: p }),
        ..d
    }
}

/// A creation: identity, then replica, then its place in the memtable. The
/// first conflict stops it; what was entered before stays.
pub open spec fn dir_create(d: DirV, oid: Seq<u8>, lid: LogicalId, rid: ReplicaId, pgen: u64) -> (
    DirV,
    Result<(), ErrV>,
) {
    let p = Placement::Memtable { generation: pgen };
    match identity_gate(d.identity, oid, lid) {
        Err(e) => (d, Err(e)),
        Ok(_) => {
            let d1 = dir_identify(d, oid, lid);
            match replica_gate(d1.replicas, local_replica(lid, rid)) {
                Err(e) => (d1, Err(e)),
                Ok(_) => {
                    let d2 = dir_replicate(d1, lid, rid);
                    match gate(lookup(d2.placements, rid.0), rid, p) {
                        Err(e) => (d2, Err(e)),
                        Ok(_) => (dir_place(d2, rid, p), Ok(())),
                    }
                },
            }
        },
    }
}

impl Directories {
    pub fn new() -> (r: Self)
        ensures
            r@ == dir_empty(),
    {
        let r = Directories {
            identity: IdMap::new(),
            replicas: IdMap::new(),
            placements: IdMap::new(),
            pending_identity: Vec::new(),
            pending_replicas: Vec::new(),
            pending_placements: Vec::new(),
        };
        assert(r@.pending_identity =~= seq![]);
        r
    }

    /// Enters a placement and leaves its record for the next flush.
    pub fn place(&mut self, rid: ReplicaId, placement: Placement) -> (r: Result<(), FormatError>)
        ensures
            match gate(lookup(old(self)@.placements, rid.0), rid, placement) {
                Ok(_) => r is Ok && final(self)@ == dir_place(old(self)@, rid, placement),
                Err(e) => r is Err && r->Err_0@ == e && final(self)@ == old(self)@,
            },
    {
        match merge_placement(&mut self.placements, rid, placement) {
            Err(e) => Err(e),
            Ok(_) => {
                self.pending_placements.push(PlacementRecord { rid, placement });
                Ok(())
            },
        }
    }

    /// Enters a new object.
    pub fn create(&mut self, oid: ObjectId, lid: LogicalId, rid: ReplicaId, pgen: u64) -> (r: Result<
        (),
        FormatError,
    >)
        ensures
            (final(self)@, rv(r)) == dir_create(old(self)@, oid@, lid, rid, pgen),
    {
        match merge_identity(&mut self.identity, oid, lid) {
            Err(e) => {
                return Err(e);
            },
            Ok(_) => {},
        }
        let ghost before = identity_view(self.pending_identity@);
        let rec = IdentityRecord { oid, lid };
        self.pending_identity.push(rec);
        assert(identity_view(self.pending_identity@) =~= before.push(rec@));
        let node = NodeId(LOCAL_NODE_ID);
        match merge_replica(&mut self.replicas, lid, node, rid) {
            Err(e) => {
                return Err(e);
            },
            Ok(_) => {},
        }
        self.pending_replicas.push(ReplicaRecord { lid, node, rid });
        self.place(rid, Placement::Memtable { generation: pgen })
    }
}

// ---------------------------------------------------------------------------
// Loading
/// Identity records merged in order, up to the first conflict.
pub open spec fn identity_all(m: Map<u128, LogicalId>, s: Seq<IdentityRecordV>, n: nat) -> Result<
    Map<u128, LogicalId>,
    ErrV,
>
    decreases n,
{
    if n == 0 {
        Ok(m)
    } else {
        match identity_all(m, s, (n - 1) as nat) {
            Err(e) => Err(e),
            Ok(m2) => match identity_gate(m2, s[n - 1].oid, s[n - 1].lid) {
                Err(e) => Err(e),
                Ok(_) => Ok(identified(m2, s[n - 1].oid, s[n - 1].lid)),
            },
        }
    }
}

/// Replica records merged in order, up to the first conflict.
pub open spec fn replica_all(m: Map<u64, ReplicaId>, s: Seq<ReplicaRecord>, n: nat) -> Result<
    Map<u64, ReplicaId>,
    ErrV,
>
    decreases n,
{
    if n == 0 {
        Ok(m)
    } else {
        match replica_all(m, s, (n - 1) as nat) {
            Err(e) => Err(e),
            Ok(m2) => match replica_gate(m2, s[n - 1]) {
                Err(e) => Err(e),
                Ok(_) => Ok(replicated(m2, s[n - 1])),
            },
        }
    }
}

/// Identity logs merged on `m0`, oldest first.
pub open spec fn identity_logs_all(m0: Map<u128, LogicalId>, logs: Seq<IdentityLogV>, n: nat) -> Result<
    Map<u128, LogicalId>,
    ErrV,
>
    decreases n,
{
    if n == 0 {
        Ok(m0)
    } else {
        match identity_logs_all(m0, logs, (n - 1) as nat) {
            Err(e) => Err(e),
            Ok(m) => identity_all(m, logs[n - 1].records, logs[n - 1].records.len()),
        }
    }
}

/// Replica logs merged on `m0`, oldest first.
pub open spec fn replica_logs_all(m0: Map<u64, ReplicaId>, logs: Seq<ReplicaLogV>, n: nat) -> Result<
    Map<u64, ReplicaId>,
    ErrV,
>
    decreases n,
{
    if n == 0 {
        Ok(m0)
    } else {
        match replica_logs_all(m0, logs, (n - 1) as nat) {
            Err(e) => Err(e),
            Ok(m) => replica_all(m, logs[n - 1].records, logs[n - 1].records.len()),
        }
    }
}

proof fn lemma_identity_err(m: Map<u128, LogicalId>, s: Seq<IdentityRecordV>, i: nat, n: nat)
    requires
        i <= n,
        identity_all(m, s, i) is Err,
    ensures
        identity_all(m, s, n) == identity_all(m, s, i),
    decreases n - i,
{
    if i < n {
        lemma_identity_err(m, s, i, (n - 1) as nat);
    }
}

proof fn lemma_replica_err(m: Map<u64, ReplicaId>, s: Seq<ReplicaRecord>, i: nat, n: nat)
    requires
        i <= n,
        replica_all(m, s, i) is Err,
    ensures
        replica_all(m, s, n) == replica_all(m, s, i),
    decreases n - i,
{
    if i < n {
        lemma_replica_err(m, s, i, (n - 1) as nat);
    }
}

proof fn lemma_identity_logs_err(m0: Map<u128, LogicalId>, logs: Seq<IdentityLogV>, i: nat, n: nat)
    requires
        i <= n,
        identity_logs_all(m0, logs, i) is Err,
    ensures
        identity_logs_all(m0, logs, n) == identity_logs_all(m0, logs, i),
    decreases n - i,
{
    if i < n {
        lemma_identity_logs_err(m0, logs, i, (n - 1) as nat);
    }
}

proof fn lemma_replica_logs_err(m0: Map<u64, ReplicaId>, logs: Seq<ReplicaLogV>, i: nat, n: nat)
    requires
        i <= n,
        replica_logs_all(m0, logs, i) is Err,
    ensures
        replica_logs_all(m0, logs, n) == replica_logs_all(m0, logs, i),
    decreases n - i,
{
    if i < n {
        lemma_replica_logs_err(m0, logs, i, (n - 1) as nat);
    }
}

/// Merges one identity log.
pub(crate) fn apply_identity_log(identity: &mut IdMap<u128, LogicalId>, records: &Vec<IdentityRecord>) -> (r:
    Result<(), FormatError>)
    ensures
        match identity_all(old(identity)@, identity_view(records@), records@.len()) {
            Ok(m) => r is Ok && final(identity)@ == m,
            Err(e) => r is Err && r->Err_0@ == e,
        },
{
    let ghost m = identity@;
    let ghost s = identity_view(records@);
    let mut i: usize = 0;
    while i < records.len()
        invariant
            i <= records@.len(),
            s == identity_view(records@),
            m == old(identity)@,
            identity_all(m, s, i as nat) == Ok::<Map<u128, LogicalId>, ErrV>(identity@),
        decreases records@.len() - i,
    {
        let rec = records[i];
        assert(s[i as int] == rec@);
        match merge_identity(identity, rec.oid, rec.lid) {
            Err(e) => {
                proof {
                    lemma_identity_err(m, s, (i + 1) as nat, records@.len());
                }
                return Err(e);
            },
            Ok(_) => {},
        }
        i += 1;
    }
    Ok(())
}

/// Merges one replica log.
pub(crate) fn apply_replica_log(replicas: &mut IdMap<u64, ReplicaId>, records: &Vec<ReplicaRecord>) -> (r: Result<
    (),
    FormatError,
>)
    ensures
        match replica_all(old(replicas)@, records@, records@.len()) {
            Ok(m) => r is Ok && final(replicas)@ == m,
            Err(e) => r is Err && r->Err_0@ == e,
        },
{
    let ghost m = replicas@;
    let mut i: usize = 0;
    while i < records.len()
        invariant
            i <= records@.len(),
            m == old(replicas)@,
            replica_all(m, records@, i as nat) == Ok::<Map<u64, ReplicaId>, ErrV>(replicas@),
        decreases records@.len() - i,
    {
        let rec = records[i];
        match merge_replica(replicas, rec.lid, rec.node, rec.rid) {
            Err(e) => {
                proof {
                    lemma_replica_err(m, records@, (i + 1) as nat, records@.len());
                }
                return Err(e);
            },
            Ok(_) => {},
        }
        i += 1;
    }
    Ok(())
}

/// Identity logs as values.
pub open spec fn identity_logs_view(s: Seq<IdentityLog>) -> Seq<IdentityLogV> {
    s.map_values(|l: IdentityLog| l@)
}

/// Replica logs as values.
pub open spec fn replica_logs_view(s: Seq<ReplicaLog>) -> Seq<ReplicaLogV> {
    s.map_values(|l: ReplicaLog| l@)
}

/// The identity directory of the logs, on top of `base`.
pub fn identity_of_logs(base: IdMap<u128, LogicalId>, logs: &Vec<IdentityLog>) -> (r: Result<
    IdMap<u128, LogicalId>,
    FormatError,
>)
    ensures
        rv(r) == identity_logs_all(base@, identity_logs_view(logs@), logs@.len()),
{
    let ghost v = identity_logs_view(logs@);
    let ghost m0 = base@;
    let mut identity = base;
    let mut i: usize = 0;
    while i < logs.len()
        invariant
            i <= logs@.len(),
            v == identity_logs_view(logs@),
            m0 == base@,
            identity_logs_all(m0, v, i as nat) == Ok::<Map<u128, LogicalId>, ErrV>(identity@),
        decreases logs@.len() - i,
    {
        assert(v[i as int] == logs@[i as int]@);
        match apply_identity_log(&mut identity, &logs[i].records) {
            Err(e) => {
                proof {
                    lemma_identity_logs_err(m0, v, (i + 1) as nat, logs@.len());
                }
                return Err(e);
            },
            Ok(_) => {},
        }
        i += 1;
    }
    Ok(identity)
}

/// The replica directory of the logs, on top of `base`.
pub fn replicas_of_logs(base: IdMap<u64, ReplicaId>, logs: &Vec<ReplicaLog>) -> (r: Result<
    IdMap<u64, ReplicaId>,
    FormatError,
>)
    ensures
        rv(r) == replica_logs_all(base@, replica_logs_view(logs@), logs@.len()),
{
    let ghost v = replica_logs_view(logs@);
    let ghost m0 = base@;
    let mut replicas = base;
    let mut i: usize = 0;
    while i < logs.len()
        invariant
            i <= logs@.len(),
            v == replica_logs_view(logs@),
            m0 == base@,
            replica_logs_all(m0, v, i as nat) == Ok::<Map<u64, ReplicaId>, ErrV>(replicas@),
        decreases logs@.len() - i,
    {
        assert(v[i as int] == logs@[i as int]@);
        match apply_replica_log(&mut replicas, &logs[i].records) {
            Err(e) => {
                proof {
                    lemma_replica_logs_err(m0, v, (i + 1) as nat, logs@.len());
                }
                return Err(e);
            },
            Ok(_) => {},
        }
        i += 1;
    }
    Ok(replicas)
}

// ---------------------------------------------------------------------------
// Laws
/// A record that went in goes in again without effect.
pub proof fn identity_repeat_is_noop(m: Map<u128, LogicalId>, oid: Seq<u8>, lid: LogicalId)
    requires
        identity_gate(m, oid, lid) is Ok,
    ensures
        identity_gate(identified(m, oid, lid), oid, lid) is Ok,
        identified(identified(m, oid, lid), oid, lid) == identified(m, oid, lid),
{
    assert(identified(identified(m, oid, lid), oid, lid) =~= identified(m, oid, lid));
}

/// A replica record that went in goes in again without effect.
pub proof fn replica_repeat_is_noop(m: Map<u64, ReplicaId>, rec: ReplicaRecord)
    requires
        replica_gate(m, rec) is Ok,
    ensures
        replica_gate(replicated(m, rec), rec) is Ok,
        replicated(replicated(m, rec), rec) == replicated(m, rec),
{
    assert(replicated(replicated(m, rec), rec) =~= replicated(m, rec));
}

/// An object never changes its logical identity, whatever records come.
pub proof fn identity_never_changes(
    m: Map<u128, LogicalId>,
    oid: Seq<u8>,
    lid: LogicalId,
    known: u128,
)
    requires
        m.contains_key(known),
    ensures
        lookup(identified(m, oid, lid), known) == lookup(m, known),
{
}

/// A created object resolves at once, to the replica that the memtable holds.
pub proof fn created_object_resolves(
    d: DirV,
    oid: Seq<u8>,
    lid: LogicalId,
    rid: ReplicaId,
    pgen: u64,
)
    requires
        dir_create(d, oid, lid, rid, pgen).1 is Ok,
    ensures
        ({
            let after = dir_create(d, oid, lid, rid, pgen).0;
            &&& lookup(after.identity, oid_number(oid)) == Some(lid)
            &&& lookup(after.replicas, lid.0) == Some(rid)
            &&& after.placements.contains_key(rid.0)
        }),
{
}

} // verus!
