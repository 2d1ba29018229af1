//! Identities and generations are never given twice.

use crate::db::compact::moves;
use crate::db::directories::{dir_create, DirV};
use crate::db::flush::{flush_ok, location_of, place_all, FlushPlan};
use crate::wal::OpV;
use crate::db::open::{larger, top_generation, top_logical, top_replica, Recovered};
use crate::db::state::{can_reserve, change_all, creation, db_apply, reserved, DbV};
use crate::compaction::run::{Home, Relocation};
use crate::identity::logical_id::LogicalId;
use crate::identity::replica_id::ReplicaId;
use crate::idmap::{lookup, IdKey};
use crate::memtable::MemV;
use crate::identity::directory::LogFile;
use crate::placement::directory::{build, files_max_generation, gate, gen_of, placed, Placement};
use vstd::prelude::*;

verus! {

/// Every generation of a placement directory comes before `next`.
pub open spec fn gens_below(m: Map<u64, Placement>, next: int) -> bool {
    forall|k: u64| #[trigger] m.contains_key(k) ==> gen_of(m[k]) < next
}

/// Every identity, replica and generation of the directories comes before the
/// next to be given.
pub open spec fn dirs_below(d: DirV, lid: u64, rid: u64, pgen: u64) -> bool {
    &&& forall|k: u128| #[trigger] d.identity.contains_key(k) ==> d.identity[k].0 < lid
    &&& forall|k: u64| #[trigger] d.replicas.contains_key(k) ==> d.replicas[k].0 < rid
    &&& gens_below(d.placements, pgen as int)
}

/// The allocators are ahead of everything that is in use.
pub open spec fn ahead(s: DbV) -> bool {
    dirs_below(s.dirs, s.next_logical_id, s.next_replica_id, s.next_placement_generation)
}

/// The creations of a batch carry identities that were given.
pub open spec fn issued(s: DbV, ops: Seq<OpV>) -> bool {
    forall|i: int|
        0 <= i < ops.len() ==> match #[trigger] ops[i] {
            OpV::CreateObject { oid, lid, rid, pgen } => lid.0 < s.next_logical_id && 0 < rid.0
                < s.next_replica_id && pgen < s.next_placement_generation,
            _ => true,
        }
}

/// A recovered database gives no identity again: its allocators start ahead of
/// what is in use and of the generations in orphan logs.
pub proof fn opening_starts_ahead(x: Recovered, s: DbV, top: u64, orphans: Seq<LogFile>)
    requires
        x.room(),
        top_logical(x.last_logical_id, x.dirs@.identity),
        top_replica(x.last_replica_id, x.dirs@.replicas),
        top_generation(top, x.dirs@.placements),
        x.last_placement_generation == larger(top, files_max_generation(orphans)),
        s.dirs == x.dirs@,
        s.next_logical_id == x.last_logical_id + 1,
        s.next_replica_id == x.last_replica_id + 1,
        s.next_placement_generation == x.last_placement_generation + 1,
    ensures
        ahead(s),
        files_max_generation(orphans) < s.next_placement_generation,
{
}

/// What is reserved is in use nowhere, and is not reserved again.
pub proof fn reserved_identities_are_new(s: DbV, oid: Seq<u8>)
    requires
        ahead(s),
        can_reserve(s),
        s.next_replica_id > 0,
    ensures
        ahead(reserved(s)),
        issued(reserved(s), seq![creation(s, oid)]),
        !issued(s, seq![creation(s, oid)]),
        forall|k: u128| #[trigger]
            s.dirs.identity.contains_key(k) ==> s.dirs.identity[k].0 != s.next_logical_id,
        forall|k: u64| #[trigger]
            s.dirs.replicas.contains_key(k) ==> s.dirs.replicas[k].0 != s.next_replica_id,
        forall|k: u64| #[trigger]
            s.dirs.placements.contains_key(k) ==> gen_of(s.dirs.placements[k])
                != s.next_placement_generation,
{
    let ops = seq![creation(s, oid)];
    assert(ops[0] == creation(s, oid));
}

proof fn lemma_create_below(
    d: DirV,
    oid: Seq<u8>,
    lid: LogicalId,
    rid: ReplicaId,
    pgen: u64,
    a: u64,
    b: u64,
    c: u64,
)
    requires
        dirs_below(d, a, b, c),
        lid.0 < a,
        rid.0 < b,
        pgen < c,
    ensures
        dirs_below(dir_create(d, oid, lid, rid, pgen).0, a, b, c),
{
}

proof fn lemma_changes_below(m: MemV, s: DbV, seq: u64, ops: Seq<OpV>, n: nat)
    requires
        ahead(s),
        issued(s, ops),
        n <= ops.len(),
    ensures
        dirs_below(
            change_all(m, s.dirs, seq, ops, n).1,
            s.next_logical_id,
            s.next_replica_id,
            s.next_placement_generation,
        ),
    decreases n,
{
    if n > 0 {
        lemma_changes_below(m, s, seq, ops, (n - 1) as nat);
        let d = change_all(m, s.dirs, seq, ops, (n - 1) as nat).1;
        if let OpV::CreateObject { oid, lid, rid, pgen } = ops[n - 1] {
            lemma_create_below(
                d,
                oid,
                lid,
                rid,
                pgen,
                s.next_logical_id,
                s.next_replica_id,
                s.next_placement_generation,
            );
        }
    }
}

/// A write of issued identities keeps the allocators ahead.
pub proof fn writes_keep_allocators_ahead(s: DbV, seq: u64, ops: Seq<OpV>)
    requires
        ahead(s),
        issued(s, ops),
    ensures
        ahead(db_apply(s, seq, ops).0),
{
    lemma_changes_below(s.active, s, seq, ops, ops.len());
}

/// Placements at fresh generations are never refused: each home becomes the
/// placement of its replica.
pub proof fn fresh_placements_are_let_in(d: DirV, first: u64, homes: Seq<(u64, Home)>, n: nat)
    requires
        n <= homes.len(),
        first + homes.len() <= u64::MAX,
        gens_below(d.placements, first as int),
        forall|i: int, j: int|
            #![trigger homes[i], homes[j]]
            0 <= i < j < homes.len() ==> homes[i].0 < homes[j].0,
    ensures
        ({
            let (after, used, done) = place_all(d, first, homes, n);
            &&& done is Ok
            &&& used == n
            &&& gens_below(after.placements, first + n)
            &&& after.identity == d.identity
            &&& after.replicas == d.replicas
            &&& forall|i: int|
                0 <= i < n ==> after.placements.contains_key((#[trigger] homes[i]).0)
                    && after.placements[homes[i].0] == location_of(homes[i].1, (first + i) as u64)
            &&& forall|k: u64|
                (forall|i: int| 0 <= i < n ==> (#[trigger] homes[i]).0 != k)
                    ==> #[trigger] lookup(after.placements, k) == lookup(d.placements, k)
        }),
    decreases n,
{
    if n > 0 {
        fresh_placements_are_let_in(d, first, homes, (n - 1) as nat);
        let (d1, used, done) = place_all(d, first, homes, (n - 1) as nat);
        let rid = ReplicaId(homes[n - 1].0);
        let p = location_of(homes[n - 1].1, (first + n - 1) as u64);
        assert(gen_of(p) == first + n - 1);
        let g = gate(lookup(d1.placements, rid.0), rid, p);
        assert(g is Ok && placed(d1.placements, rid, p) == d1.placements.insert(rid.0, p));
        let after = placed(d1.placements, rid, p);
        assert forall|i: int| 0 <= i < n implies after.contains_key((#[trigger] homes[i]).0)
            && after[homes[i].0] == location_of(homes[i].1, (first + i) as u64) by {
            if i < n - 1 {
                assert(homes[i].0 < homes[n - 1].0);
            }
        }
        assert forall|k: u64|
            (forall|i: int| 0 <= i < n ==> (#[trigger] homes[i]).0 != k) implies #[trigger] lookup(
            after,
            k,
        ) == lookup(d.placements, k) by {
            assert(homes[n - 1].0 != k);
            assert(lookup(after, k) == lookup(d1.placements, k));
        }
    }
}

/// A flush keeps the allocators ahead.
pub proof fn flush_keeps_allocators_ahead(
    s: DbV,
    p: FlushPlan,
    homes: Seq<(u64, Home)>,
    target: nat,
    after: DbV,
)
    requires
        ahead(s),
        flush_ok(s, p, homes, target, after),
        s.next_placement_generation + homes.len() <= u64::MAX,
    ensures
        ahead(after),
{
    assert forall|i: int, j: int|
        #![trigger homes[i], homes[j]]
        0 <= i < j < homes.len() implies homes[i].0 < homes[j].0 by {
        assert(homes[i].0.before(homes[j].0));
    }
    fresh_placements_are_let_in(s.dirs, s.next_placement_generation, homes, homes.len());
}

/// The moves of a compaction are never refused, and keep the generations
/// below the next.
pub proof fn moves_are_let_in(
    places: Map<u64, Placement>,
    list: Seq<u64>,
    m: Map<u64, Relocation>,
    first: u64,
    n: nat,
)
    requires
        n <= list.len(),
        first + list.len() <= u64::MAX,
        gens_below(places, first as int),
        moves(list, m, first, n).2 is Ok,
    ensures
        moves(list, m, first, n).0.len() == n,
        moves(list, m, first, n).1 == n,
        build(places, moves(list, m, first, n).0) matches Ok(after) && gens_below(
            after,
            first + n,
        ),
    decreases n,
{
    if n > 0 {
        moves_are_let_in(places, list, m, first, (n - 1) as nat);
        let front = moves(list, m, first, (n - 1) as nat).0;
        let recs = moves(list, m, first, n).0;
        assert(recs.drop_last() =~= front);
        assert(gen_of(recs.last().placement) == first + n - 1);
    }
}

} // verus!
