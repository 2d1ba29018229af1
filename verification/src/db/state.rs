//! The state of an open database, and how a batch changes it.

use crate::codec::to_vec;
use crate::compaction::run::{all_wf, segs_view};
use crate::db::directories::{dir_create, DirV, Directories};
use crate::wal::{ops_view, Op, OpV};
use crate::db::Config;
use crate::format::{invalid, records_view, rv, ErrV, FormatError, SegmentRecord, SegmentRecordV};
use crate::hash::{sha256, sha256_of};
use crate::identity::logical_id::LogicalId;
use crate::identity::object_id::{oid_number, ObjectId};
use crate::identity::replica_id::ReplicaId;
use crate::idmap::lookup;
use crate::memtable::{mem_apply, MemV, Memtable};
use crate::placement::directory::Placement;
use crate::segment::open::{SegV, SegmentReader};
use crate::text::{dec, Text};
use vstd::prelude::*;

verus! {

/// The state of a database. Segments are in manifest order, oldest first;
/// identifiers are only ever counted up.
pub struct Db {
    pub config: Config,
    pub active: Memtable,
    pub immutables: Vec<Memtable>,
    pub segments: Vec<SegmentReader>,
    pub records: Vec<SegmentRecord>,
    pub dirs: Directories,
    pub next_seq: u64,
    pub next_segment_id: u64,
    pub generation: u64,
    pub next_logical_id: u64,
    pub next_replica_id: u64,
    pub next_placement_generation: u64,
}

/// The state as a value.
#[verifier::ext_equal]
pub struct DbV {
    pub active: MemV,
    pub immutables: Seq<MemV>,
    pub segments: Seq<SegV>,
    pub records: Seq<SegmentRecordV>,
    pub dirs: DirV,
    pub next_seq: u64,
    pub next_segment_id: u64,
    pub generation: u64,
    pub next_logical_id: u64,
    pub next_replica_id: u64,
    pub next_placement_generation: u64,
}

/// The views of memtables.
pub open spec fn mems_view(s: Seq<Memtable>) -> Seq<MemV> {
    s.map_values(|m: Memtable| m@)
}

impl View for Db {
    type V = DbV;

    open spec fn view(&self) -> DbV {
        DbV {
            active: self.active@,
            immutables: mems_view(self.immutables@),
            segments: segs_view(self.segments@),
            records: records_view(self.records@),
            dirs: self.dirs@,
            next_seq: self.next_seq,
            next_segment_id: self.next_segment_id,
            generation: self.generation,
            next_logical_id: self.next_logical_id,
            next_replica_id: self.next_replica_id,
            next_placement_generation: self.next_placement_generation,
        }
    }
}

// ---------------------------------------------------------------------------
// Applying a batch
/// What one change does to the memtable and the directories.
pub open spec fn change_one(m: MemV, d: DirV, seq: u64, op: OpV) -> (
    MemV,
    DirV,
    Result<(), ErrV>,
) {
    match op {
        OpV::Put(k, v) => (mem_apply(m, k, seq, Some(v), ReplicaId(0)), d, Ok(())),
        OpV::Delete(k) => (mem_apply(m, k, seq, None, ReplicaId(0)), d, Ok(())),
        OpV::PutObject(r, k, v) => (mem_apply(m, k, seq, Some(v), r), d, Ok(())),
        OpV::DeleteObject(r, k) => (mem_apply(m, k, seq, None, r), d, Ok(())),
        OpV::CreateObject { oid, lid, rid, pgen } => {
            let (d2, r) = dir_create(d, oid, lid, rid, pgen);
            (m, d2, r)
        },
    }
}

/// What the first `n` changes of a batch do, up to the first that fails.
pub open spec fn change_all(m: MemV, d: DirV, seq: u64, ops: Seq<OpV>, n: nat) -> (
    MemV,
    DirV,
    Result<(), ErrV>,
)
    decreases n,
{
    if n == 0 {
        (m, d, Ok(()))
    } else {
        let (m1, d1, r1) = change_all(m, d, seq, ops, (n - 1) as nat);
        if r1 is Err {
            (m1, d1, r1)
        } else {
            change_one(m1, d1, seq, ops[n - 1])
        }
    }
}

pub proof fn lemma_change_err(m: MemV, d: DirV, seq: u64, ops: Seq<OpV>, i: nat, n: nat)
    requires
        i <= n,
        change_all(m, d, seq, ops, i).2 is Err,
    ensures
        change_all(m, d, seq, ops, n) == change_all(m, d, seq, ops, i),
    decreases n - i,
{
    if i < n {
        lemma_change_err(m, d, seq, ops, i, (n - 1) as nat);
    }
}

/// Applies a batch to a memtable and the directories; the first change that
/// fails ends it.
pub fn apply_batch(mem: &mut Memtable, dirs: &mut Directories, seq: u64, ops: &Vec<Op>) -> (r:
    Result<(), FormatError>)
    requires
        old(mem).wf(),
    ensures
        final(mem).wf(),
        (final(mem)@, final(dirs)@, rv(r)) == change_all(
            old(mem)@,
            old(dirs)@,
            seq,
            ops_view(ops@),
            ops@.len(),
        ),
{
    let ghost m0 = mem@;
    let ghost d0 = dirs@;
    let ghost v = ops_view(ops@);
    let mut i: usize = 0;
    while i < ops.len()
        invariant
            i <= ops@.len(),
            mem.wf(),
            m0 == old(mem)@,
            d0 == old(dirs)@,
            v == ops_view(ops@),
            change_all(m0, d0, seq, v, i as nat) == (mem@, dirs@, Ok::<(), ErrV>(())),
        decreases ops@.len() - i,
    {
        assert(v[i as int] == ops@[i as int]@);
        match &ops[i] {
            Op::Put(k, value) => {
                mem.apply(to_vec(k.as_slice()), seq, Some(to_vec(value.as_slice())));
            },
            Op::Delete(k) => {
                mem.apply(to_vec(k.as_slice()), seq, None);
            },
            Op::PutObject(rid, k, value) => {
                mem.apply_object(to_vec(k.as_slice()), seq, Some(to_vec(value.as_slice())), *rid);
            },
            Op::DeleteObject(rid, k) => {
                mem.apply_object(to_vec(k.as_slice()), seq, None, *rid);
            },
            Op::CreateObject { oid, lid, rid, pgen } => {
                match dirs.create(*oid, *lid, *rid, *pgen) {
                    Err(e) => {
                        proof {
                            lemma_change_err(m0, d0, seq, v, (i + 1) as nat, ops@.len());
                        }
                        return Err(e);
                    },
                    Ok(_) => {},
                }
            },
        }
        i += 1;
    }
    Ok(())
}

/// The state after a batch was applied.
pub open spec fn db_apply(s: DbV, seq: u64, ops: Seq<OpV>) -> (DbV, Result<(), ErrV>) {
    let (m, d, r) = change_all(s.active, s.dirs, seq, ops, ops.len());
    (DbV { active: m, dirs: d, ..s }, r)
}

/// A resolution of the identity chain: the local replica of an object.
pub open spec fn replica_of(s: DbV, oid: Seq<u8>) -> Result<Option<ReplicaId>, ErrV> {
    match lookup(s.dirs.identity, oid_number(oid)) {
        None => Ok(None),
        Some(lid) => match lookup(s.dirs.replicas, lid.0) {
            Some(rid) => Ok(Some(rid)),
            None => Err(
                ErrV::Corrupt("logical LogicalId("@ + dec(lid.0 as nat) + ") has no local replica"@),
            ),
        },
    }
}

/// Every allocator can count on.
pub open spec fn can_reserve(s: DbV) -> bool {
    s.next_logical_id < u64::MAX && s.next_replica_id < u64::MAX && s.next_placement_generation
        < u64::MAX
}

/// The state after an identity was reserved.
pub open spec fn reserved(s: DbV) -> DbV {
    DbV {
        next_logical_id: (s.next_logical_id + 1) as u64,
        next_replica_id: (s.next_replica_id + 1) as u64,
        next_placement_generation: (s.next_placement_generation + 1) as u64,
        ..s
    }
}

/// The creation of an object under the next free identity.
pub open spec fn creation(s: DbV, oid: Seq<u8>) -> OpV {
    OpV::CreateObject {
        oid,
        lid: LogicalId(s.next_logical_id),
        rid: ReplicaId(s.next_replica_id),
        pgen: s.next_placement_generation,
    }
}

/// The object identity that a logical identity gives: the first half of its
/// digest.
pub open spec fn object_of(lid: LogicalId) -> Seq<u8> {
    sha256_of(crate::codec::le(lid.0 as nat, 8)).take(16)
}

impl Db {
    /// Every layer keeps its order, every segment is well formed.
    pub open spec fn wf(&self) -> bool {
        &&& self.active.wf()
        &&& forall|i: int| 0 <= i < self.immutables@.len() ==> (#[trigger] self.immutables@[i]).wf()
        &&& all_wf(self.segments@)
    }

    /// Takes the sequence of a batch. A batch is never empty.
    pub fn write(&mut self, ops: &Vec<Op>) -> (r: Result<u64, FormatError>)
        requires
            old(self).wf(),
            old(self)@.next_seq < u64::MAX,
        ensures
            final(self).wf(),
            final(self).config == old(self).config,
            if ops@.len() == 0 {
                r is Err && r->Err_0@ == ErrV::Invalid("empty write batch"@) && final(self)@ == old(
                    self,
                )@
            } else {
                r == Ok::<u64, FormatError>(old(self)@.next_seq) && final(self)@ == (DbV {
                    next_seq: (old(self)@.next_seq + 1) as u64,
                    ..old(self)@
                })
            },
    {
        if ops.len() == 0 {
            return Err(invalid("empty write batch"));
        }
        let seq = self.next_seq;
        self.next_seq = seq + 1;
        Ok(seq)
    }

    /// Ends a write: where the batch did not reach the log, its failure;
    /// else the batch is applied, and its sequence is the answer.
    pub fn finish_write(
        &mut self,
        seq: u64,
        ops: &Vec<Op>,
        logged: Result<(), FormatError>,
    ) -> (r: Result<u64, FormatError>)
        requires
            old(self).wf(),
        ensures
            final(self).wf(),
            final(self).config == old(self).config,
            match logged {
                Err(e) => r == Err::<u64, FormatError>(e) && final(self)@ == old(self)@,
                Ok(_) => {
                    let (after, done) = db_apply(old(self)@, seq, ops_view(ops@));
                    &&& final(self)@ == after
                    &&& match done {
                        Ok(_) => r == Ok::<u64, FormatError>(seq),
                        Err(e) => r is Err && r->Err_0@ == e,
                    }
                },
            },
    {
        match logged {
            Err(e) => Err(e),
            Ok(_) => match apply_batch(&mut self.active, &mut self.dirs, seq, ops) {
                Err(e) => Err(e),
                Ok(_) => Ok(seq),
            },
        }
    }

    /// Whether the memtable has reached its limit.
    pub fn flush_due(&self) -> (r: bool)
        ensures
            r == (self@.active.bytes >= self.config.memtable_bytes),
    {
        self.active.bytes() >= self.config.memtable_bytes
    }

    /// Makes the memtable immutable, unless it is empty; reads keep seeing it.
    pub fn rotate(&mut self)
        requires
            old(self).wf(),
        ensures
            final(self).wf(),
            final(self).config == old(self).config,
            final(self)@ == rotated(old(self)@),
    {
        if self.active.is_empty() {
            return;
        }
        let ghost imm = self@.immutables;
        let ghost act = self.active@;
        let mut fresh = Memtable::new();
        std::mem::swap(&mut self.active, &mut fresh);
        self.immutables.push(fresh);
        assert(mems_view(self.immutables@) =~= imm.push(act));
    }

    /// Reserves the next identity: logical, replica, placement generation.
    /// Identifiers are never given twice.
    pub fn reserve_identity(&mut self) -> (r: (LogicalId, ReplicaId, u64))
        requires
            old(self).wf(),
            can_reserve(old(self)@),
        ensures
            final(self).wf(),
            final(self).config == old(self).config,
            final(self)@ == reserved(old(self)@),
            r.0 == LogicalId(old(self)@.next_logical_id),
            r.1 == ReplicaId(old(self)@.next_replica_id),
            r.2 == old(self)@.next_placement_generation,
    {
        let lid = LogicalId(self.next_logical_id);
        self.next_logical_id = self.next_logical_id + 1;
        let rid = ReplicaId(self.next_replica_id);
        self.next_replica_id = self.next_replica_id + 1;
        let pgen = self.next_placement_generation;
        self.next_placement_generation = pgen + 1;
        (lid, rid, pgen)
    }

    /// The logical identity of an object.
    pub fn resolve_object(&self, oid: ObjectId) -> (r: Option<LogicalId>)
        ensures
            r == lookup(self@.dirs.identity, oid_number(oid@)),
    {
        self.dirs.identity.get(oid.number())
    }

    /// The local replica of a logical identity.
    pub fn resolve_local(&self, lid: LogicalId) -> (r: Option<ReplicaId>)
        ensures
            r == lookup(self@.dirs.replicas, lid.0),
    {
        self.dirs.replicas.get(lid.0)
    }

    /// Where a replica's row lies.
    pub fn resolve_placement(&self, rid: ReplicaId) -> (r: Option<Placement>)
        ensures
            r == lookup(self@.dirs.placements, rid.0),
    {
        self.dirs.placements.get(rid.0)
    }

    /// The local replica of an object; none where it was never created.
    pub fn resolve_replica(&self, oid: ObjectId) -> (r: Result<Option<ReplicaId>, FormatError>)
        ensures
            match r {
                Ok(x) => replica_of(self@, oid@) == Ok::<Option<ReplicaId>, ErrV>(x),
                Err(e) => replica_of(self@, oid@) == Err::<Option<ReplicaId>, ErrV>(e@),
            },
    {
        match self.resolve_object(oid) {
            None => Ok(None),
            Some(lid) => match self.resolve_local(lid) {
                Some(rid) => Ok(Some(rid)),
                None => Err(
                    FormatError::Corrupt(
                        Text::new("logical LogicalId(").num(lid.0).lit(
                            ") has no local replica",
                        ).done(),
                    ),
                ),
            },
        }
    }

    /// The batch that puts one row.
    pub fn put(key: &[u8], value: &[u8]) -> (r: Vec<Op>)
        ensures
            ops_view(r@) == seq![OpV::Put(key@, value@)],
    {
        let mut ops: Vec<Op> = Vec::new();
        ops.push(Op::Put(to_vec(key), to_vec(value)));
        assert(ops_view(ops@) =~= seq![OpV::Put(key@, value@)]);
        ops
    }

    /// The batch that deletes one row.
    pub fn delete(key: &[u8]) -> (r: Vec<Op>)
        ensures
            ops_view(r@) == seq![OpV::Delete(key@)],
    {
        let mut ops: Vec<Op> = Vec::new();
        ops.push(Op::Delete(to_vec(key)));
        assert(ops_view(ops@) =~= seq![OpV::Delete(key@)]);
        ops
    }

    /// The batch that creates a new object, under a reserved identity: its
    /// object identity comes from the logical one.
    pub fn create_object(&mut self) -> (r: (ObjectId, Vec<Op>))
        requires
            old(self).wf(),
            can_reserve(old(self)@),
        ensures
            final(self).wf(),
            final(self).config == old(self).config,
            final(self)@ == reserved(old(self)@),
            r.0@ == object_of(LogicalId(old(self)@.next_logical_id)),
            ops_view(r.1@) == seq![creation(old(self)@, r.0@)],
    {
        let ghost s = self@;
        let (lid, rid, pgen) = self.reserve_identity();
        let wire = lid.to_bytes();
        let digest = sha256(wire.as_slice());
        let half: &[u8] = digest.as_slice();
        let oid = ObjectId(crate::codec::array16(&half[0..16]));
        assert(oid@ =~= object_of(lid));
        let mut ops: Vec<Op> = Vec::new();
        ops.push(Op::CreateObject { oid, lid, rid, pgen });
        assert(ops_view(ops@) =~= seq![creation(s, oid@)]);
        (oid, ops)
    }

    /// The batch that writes an object's row. An unknown object is created by
    /// it: creation and row are one batch. A known one is never given a new
    /// identity.
    pub fn put_object(&mut self, oid: ObjectId, key: &[u8], value: &[u8]) -> (r: Result<
        Vec<Op>,
        FormatError,
    >)
        requires
            old(self).wf(),
            replica_of(old(self)@, oid@) == Ok::<Option<ReplicaId>, ErrV>(None) ==> can_reserve(
                old(self)@,
            ),
        ensures
            final(self).wf(),
            final(self).config == old(self).config,
            match replica_of(old(self)@, oid@) {
                Err(e) => r is Err && r->Err_0@ == e && final(self)@ == old(self)@,
                Ok(Some(rid)) => r is Ok && ops_view(r->Ok_0@) == seq![
                    OpV::PutObject(rid, key@, value@),
                ] && final(self)@ == old(self)@,
                Ok(None) => r is Ok && ops_view(r->Ok_0@) == seq![
                    creation(old(self)@, oid@),
                    OpV::PutObject(ReplicaId(old(self)@.next_replica_id), key@, value@),
                ] && final(self)@ == reserved(old(self)@),
            },
    {
        let ghost s = self@;
        let mut ops: Vec<Op> = Vec::new();
        match self.resolve_replica(oid) {
            Err(e) => Err(e),
            Ok(Some(rid)) => {
                ops.push(Op::PutObject(rid, to_vec(key), to_vec(value)));
                assert(ops_view(ops@) =~= seq![OpV::PutObject(rid, key@, value@)]);
                Ok(ops)
            },
            Ok(None) => {
                let (lid, rid, pgen) = self.reserve_identity();
                ops.push(Op::CreateObject { oid, lid, rid, pgen });
                ops.push(Op::PutObject(rid, to_vec(key), to_vec(value)));
                assert(ops_view(ops@) =~= seq![
                    creation(s, oid@),
                    OpV::PutObject(rid, key@, value@),
                ]);
                Ok(ops)
            },
        }
    }

    /// The batch that deletes an object's row: its identity stays. An unknown
    /// object is refused.
    pub fn delete_object(&self, oid: ObjectId, key: &[u8]) -> (r: Result<
        Vec<Op>,
        FormatError,
    >)
        ensures
            match replica_of(self@, oid@) {
                Err(e) => r is Err && r->Err_0@ == e,
                Ok(Some(rid)) => r is Ok && ops_view(r->Ok_0@) == seq![
                    OpV::DeleteObject(rid, key@),
                ],
                Ok(None) => r is Err && r->Err_0@ == ErrV::Invalid(
                    "delete_object on unknown ObjectId ObjectId("@ + crate::text::hex(oid@) + ")"@,
                ),
            },
    {
        match self.resolve_replica(oid) {
            Err(e) => Err(e),
            Ok(Some(rid)) => {
                let mut ops: Vec<Op> = Vec::new();
                ops.push(Op::DeleteObject(rid, to_vec(key)));
                assert(ops_view(ops@) =~= seq![OpV::DeleteObject(rid, key@)]);
                Ok(ops)
            },
            Ok(None) => Err(
                FormatError::Invalid(
                    Text::new("delete_object on unknown ObjectId ObjectId(").hex(
                        oid.0.as_slice(),
                    ).lit(")").done(),
                ),
            ),
        }
    }
}

/// The state after a rotation.
pub open spec fn rotated(s: DbV) -> DbV {
    if s.active.rows.len() == 0 {
        s
    } else {
        DbV {
            active: crate::memtable::mem_empty(),
            immutables: s.immutables.push(s.active),
            ..s
        }
    }
}

} // verus!
