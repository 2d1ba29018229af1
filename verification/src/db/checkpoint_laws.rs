//! A checkpoint stands for the logs that it covers.

use crate::checkpoint::{identity_pairs, placement_pairs, replica_pairs, snapshots, CheckpointV};
use crate::db::directories::{
    identity_all, identity_logs_all, replica_all, replica_logs_all,
};
use crate::db::open::{
    identity_base, identity_files, identity_recovered, later, placement_base, placement_files,
    placements_recovered, replica_base, replica_files, replicas_recovered, uncovered,
};
use crate::format::ErrV;
use crate::identity::directory::{
    identity_file_log, replica_file_log, IdentityLogV, LogFile, ReplicaLogV,
};
use crate::identity::logical_id::LogicalId;
use crate::identity::object_id::oid_number;
use crate::identity::replica_id::ReplicaId;
use crate::idmap::{lists_map, lookup, IdKey};
use crate::placement::directory::{
    build, lemma_build_append, placement_file_log, Placement, PlacementRecord,
};
use vstd::prelude::*;

verus! {

// ---------------------------------------------------------------------------
// Which logs are read
proof fn lemma_later_all(files: Seq<LogFile>, c: Option<CheckpointV>)
    requires
        forall|i: int| 0 <= i < files.len() ==> uncovered(#[trigger] files[i], c),
    ensures
        later(files, c) == files,
    decreases files.len(),
{
    if files.len() > 0 {
        let rest = files.skip(1);
        assert forall|i: int| 0 <= i < rest.len() implies uncovered(#[trigger] rest[i], c) by {
            assert(rest[i] == files[i + 1]);
        }
        lemma_later_all(rest, c);
        assert(uncovered(files[0], c));
        assert(seq![files[0]] + rest =~= files);
    } else {
        assert(later(files, c) =~= files);
    }
}

proof fn lemma_later_split(old: Seq<LogFile>, new: Seq<LogFile>, c: Option<CheckpointV>)
    requires
        forall|i: int| 0 <= i < old.len() ==> !uncovered(#[trigger] old[i], c),
    ensures
        later(old + new, c) == later(new, c),
    decreases old.len(),
{
    if old.len() > 0 {
        let rest = old.skip(1);
        assert forall|i: int| 0 <= i < rest.len() implies !uncovered(#[trigger] rest[i], c) by {
            assert(rest[i] == old[i + 1]);
        }
        lemma_later_split(rest, new, c);
        assert(!uncovered(old[0], c));
        assert((old + new).skip(1) =~= rest + new);
    } else {
        assert(old + new =~= new);
    }
}

// ---------------------------------------------------------------------------
// Logs in two parts
proof fn lemma_identity_parts(old: Seq<LogFile>, new: Seq<LogFile>, k: nat)
    requires
        k <= new.len(),
        identity_files(old, old.len()) is Ok,
    ensures
        identity_files(old, old.len())->Ok_0.len() == old.len(),
        identity_files(old + new, old.len() + k) == (match identity_files(new, k) {
            Ok(v) => Ok(identity_files(old, old.len())->Ok_0 + v),
            Err(e) => Err::<Seq<IdentityLogV>, ErrV>(e),
        }),
    decreases k,
{
    let a = identity_files(old, old.len())->Ok_0;
    lemma_identity_front(old, new, old.len());
    if k == 0 {
        assert(a + Seq::<IdentityLogV>::empty() =~= a);
    } else {
        lemma_identity_parts(old, new, (k - 1) as nat);
        assert((old + new)[old.len() + k - 1] == new[k - 1]);
        if identity_files(new, k) is Ok {
            let v = identity_files(new, (k - 1) as nat)->Ok_0;
            let l = identity_file_log(new[k - 1])->Ok_0;
            assert((a + v).push(l) =~= a + v.push(l));
        }
    }
}

proof fn lemma_identity_front(old: Seq<LogFile>, new: Seq<LogFile>, n: nat)
    requires
        n <= old.len(),
    ensures
        identity_files(old + new, n) == identity_files(old, n),
        identity_files(old, n) matches Ok(v) ==> v.len() == n,
    decreases n,
{
    if n > 0 {
        lemma_identity_front(old, new, (n - 1) as nat);
    }
}

proof fn lemma_identity_logs(m0: Map<u128, LogicalId>, a: Seq<IdentityLogV>, b: Seq<IdentityLogV>, k: nat)
    requires
        k <= b.len(),
        identity_logs_all(m0, a, a.len()) is Ok,
    ensures
        identity_logs_all(m0, a + b, a.len() + k) == identity_logs_all(
            identity_logs_all(m0, a, a.len())->Ok_0,
            b,
            k,
        ),
    decreases k,
{
    if k == 0 {
        lemma_identity_logs_front(m0, a, b, a.len());
    } else {
        lemma_identity_logs(m0, a, b, (k - 1) as nat);
        assert((a + b)[a.len() + k - 1] == b[k - 1]);
    }
}

proof fn lemma_identity_logs_front(
    m0: Map<u128, LogicalId>,
    a: Seq<IdentityLogV>,
    b: Seq<IdentityLogV>,
    n: nat,
)
    requires
        n <= a.len(),
    ensures
        identity_logs_all(m0, a + b, n) == identity_logs_all(m0, a, n),
    decreases n,
{
    if n > 0 {
        lemma_identity_logs_front(m0, a, b, (n - 1) as nat);
    }
}

proof fn lemma_replica_parts(old: Seq<LogFile>, new: Seq<LogFile>, k: nat)
    requires
        k <= new.len(),
        replica_files(old, old.len()) is Ok,
    ensures
        replica_files(old, old.len())->Ok_0.len() == old.len(),
        replica_files(old + new, old.len() + k) == (match replica_files(new, k) {
            Ok(v) => Ok(replica_files(old, old.len())->Ok_0 + v),
            Err(e) => Err::<Seq<ReplicaLogV>, ErrV>(e),
        }),
    decreases k,
{
    let a = replica_files(old, old.len())->Ok_0;
    lemma_replica_front(old, new, old.len());
    if k == 0 {
        assert(a + Seq::<ReplicaLogV>::empty() =~= a);
    } else {
        lemma_replica_parts(old, new, (k - 1) as nat);
        assert((old + new)[old.len() + k - 1] == new[k - 1]);
        if replica_files(new, k) is Ok {
            let v = replica_files(new, (k - 1) as nat)->Ok_0;
            let l = replica_file_log(new[k - 1])->Ok_0;
            assert((a + v).push(l) =~= a + v.push(l));
        }
    }
}

proof fn lemma_replica_front(old: Seq<LogFile>, new: Seq<LogFile>, n: nat)
    requires
        n <= old.len(),
    ensures
        replica_files(old + new, n) == replica_files(old, n),
        replica_files(old, n) matches Ok(v) ==> v.len() == n,
    decreases n,
{
    if n > 0 {
        lemma_replica_front(old, new, (n - 1) as nat);
    }
}

proof fn lemma_replica_logs(m0: Map<u64, ReplicaId>, a: Seq<ReplicaLogV>, b: Seq<ReplicaLogV>, k: nat)
    requires
        k <= b.len(),
        replica_logs_all(m0, a, a.len()) is Ok,
    ensures
        replica_logs_all(m0, a + b, a.len() + k) == replica_logs_all(
            replica_logs_all(m0, a, a.len())->Ok_0,
            b,
            k,
        ),
    decreases k,
{
    if k == 0 {
        lemma_replica_logs_front(m0, a, b, a.len());
    } else {
        lemma_replica_logs(m0, a, b, (k - 1) as nat);
        assert((a + b)[a.len() + k - 1] == b[k - 1]);
    }
}

proof fn lemma_replica_logs_front(
    m0: Map<u64, ReplicaId>,
    a: Seq<ReplicaLogV>,
    b: Seq<ReplicaLogV>,
    n: nat,
)
    requires
        n <= a.len(),
    ensures
        replica_logs_all(m0, a + b, n) == replica_logs_all(m0, a, n),
    decreases n,
{
    if n > 0 {
        lemma_replica_logs_front(m0, a, b, (n - 1) as nat);
    }
}

proof fn lemma_placement_parts(old: Seq<LogFile>, new: Seq<LogFile>, k: nat)
    requires
        k <= new.len(),
        placement_files(old, old.len()) is Ok,
    ensures
        placement_files(old + new, old.len() + k) == (match placement_files(new, k) {
            Ok(v) => Ok(placement_files(old, old.len())->Ok_0 + v),
            Err(e) => Err::<Seq<PlacementRecord>, ErrV>(e),
        }),
    decreases k,
{
    let a = placement_files(old, old.len())->Ok_0;
    if k == 0 {
        lemma_placement_front(old, new, old.len());
        assert(a + Seq::<PlacementRecord>::empty() =~= a);
    } else {
        lemma_placement_parts(old, new, (k - 1) as nat);
        assert((old + new)[old.len() + k - 1] == new[k - 1]);
        if placement_files(new, k) is Ok {
            let v = placement_files(new, (k - 1) as nat)->Ok_0;
            let l = placement_file_log(new[k - 1])->Ok_0;
            assert((a + v) + l.records =~= a + (v + l.records));
        }
    }
}

proof fn lemma_placement_front(old: Seq<LogFile>, new: Seq<LogFile>, n: nat)
    requires
        n <= old.len(),
    ensures
        placement_files(old + new, n) == placement_files(old, n),
    decreases n,
{
    if n > 0 {
        lemma_placement_front(old, new, (n - 1) as nat);
    }
}

// ---------------------------------------------------------------------------
// What a checkpoint loads
/// The bindings that are listed first.
spec fn listed<K, V>(s: Seq<(K, V)>, n: nat) -> Map<K, V>
    decreases n,
{
    if n == 0 {
        Map::empty()
    } else {
        listed(s, (n - 1) as nat).insert(s[n - 1].0, s[n - 1].1)
    }
}

proof fn lemma_listed<K: IdKey, V>(s: Seq<(K, V)>, m: Map<K, V>, n: nat)
    requires
        lists_map(s, m),
        n <= s.len(),
    ensures
        forall|k: K| #[trigger]
            listed(s, n).contains_key(k) <==> exists|i: int| 0 <= i < n && (#[trigger] s[i]).0 == k,
        forall|k: K| #[trigger] listed(s, n).contains_key(k) ==> m.contains_key(k) && m[k] == listed(
            s,
            n,
        )[k],
        n < s.len() ==> !listed(s, n).contains_key(s[n as int].0),
        n == s.len() ==> listed(s, n) == m,
    decreases n,
{
    if n > 0 {
        lemma_listed(s, m, (n - 1) as nat);
        let a = listed(s, (n - 1) as nat);
        let b = listed(s, n);
        assert forall|k: K| #[trigger] b.contains_key(k) <==> exists|i: int|
            0 <= i < n && (#[trigger] s[i]).0 == k by {
            if b.contains_key(k) {
                if k == s[n - 1].0 {
                    assert(s[n - 1].0 == k);
                } else {
                    assert(a.contains_key(k));
                    let i = choose|i: int| 0 <= i < n - 1 && (#[trigger] s[i]).0 == k;
                    assert(s[i].0 == k);
                }
            }
            if exists|i: int| 0 <= i < n && (#[trigger] s[i]).0 == k {
                let i = choose|i: int| 0 <= i < n && (#[trigger] s[i]).0 == k;
                if i < n - 1 {
                    assert(a.contains_key(s[i].0));
                }
            }
        }
        assert(m.contains_key(s[n - 1].0) && m[s[n - 1].0] == s[n - 1].1);
    }
    if n < s.len() {
        if listed(s, n).contains_key(s[n as int].0) {
            let i = choose|i: int| 0 <= i < n && (#[trigger] s[i]).0 == s[n as int].0;
            assert(s[i].0.before(s[n as int].0));
            K::lemma_before_irreflexive(s[i].0);
        }
    } else {
        assert forall|k: K| #[trigger] m.contains_key(k) implies listed(s, n).contains_key(k) by {
            let i = choose|i: int| 0 <= i < s.len() && (#[trigger] s[i]).0 == k;
            assert(s[i].0 == k);
        }
        assert(listed(s, n) =~= m);
    }
}

proof fn lemma_identity_loads(
    c: CheckpointV,
    identity: Map<u128, LogicalId>,
    replicas: Map<u64, ReplicaId>,
    placements: Map<u64, Placement>,
    n: nat,
)
    requires
        snapshots(c, identity, replicas, placements),
        n <= c.identities.len(),
    ensures
        identity_all(Map::empty(), c.identities, n) == Ok::<Map<u128, LogicalId>, ErrV>(
            listed(identity_pairs(c.identities), n),
        ),
    decreases n,
{
    if n > 0 {
        let s = identity_pairs(c.identities);
        lemma_identity_loads(c, identity, replicas, placements, (n - 1) as nat);
        lemma_listed(s, identity, (n - 1) as nat);
        assert(s[n - 1] == (oid_number(c.identities[n - 1].oid), c.identities[n - 1].lid));
        assert(lookup(listed(s, (n - 1) as nat), s[n - 1].0) is None);
    }
}

proof fn lemma_replicas_load(
    c: CheckpointV,
    identity: Map<u128, LogicalId>,
    replicas: Map<u64, ReplicaId>,
    placements: Map<u64, Placement>,
    n: nat,
)
    requires
        snapshots(c, identity, replicas, placements),
        n <= c.replicas.len(),
    ensures
        replica_all(Map::empty(), c.replicas, n) == Ok::<Map<u64, ReplicaId>, ErrV>(
            listed(replica_pairs(c.replicas), n),
        ),
    decreases n,
{
    if n > 0 {
        let s = replica_pairs(c.replicas);
        lemma_replicas_load(c, identity, replicas, placements, (n - 1) as nat);
        lemma_listed(s, replicas, (n - 1) as nat);
        assert(s[n - 1] == (c.replicas[n - 1].lid.0, c.replicas[n - 1].rid));
        assert(lookup(listed(s, (n - 1) as nat), s[n - 1].0) is None);
    }
}

proof fn lemma_placements_load(
    c: CheckpointV,
    identity: Map<u128, LogicalId>,
    replicas: Map<u64, ReplicaId>,
    placements: Map<u64, Placement>,
    n: nat,
)
    requires
        snapshots(c, identity, replicas, placements),
        n <= c.placements.len(),
    ensures
        build(Map::empty(), c.placements.take(n as int)) == Ok::<Map<u64, Placement>, ErrV>(
            listed(placement_pairs(c.placements), n),
        ),
    decreases n,
{
    if n > 0 {
        let s = placement_pairs(c.placements);
        lemma_placements_load(c, identity, replicas, placements, (n - 1) as nat);
        lemma_listed(s, placements, (n - 1) as nat);
        assert(s[n - 1] == (c.placements[n - 1].rid.0, c.placements[n - 1].placement));
        assert(c.placements.take(n as int).drop_last() =~= c.placements.take(n - 1));
        assert(lookup(listed(s, (n - 1) as nat), s[n - 1].0) is None);
    }
}

/// Loading a checkpoint gives the directories that it was made of.
pub proof fn checkpoint_gives_the_directories_back(
    c: CheckpointV,
    identity: Map<u128, LogicalId>,
    replicas: Map<u64, ReplicaId>,
    placements: Map<u64, Placement>,
)
    requires
        snapshots(c, identity, replicas, placements),
    ensures
        identity_base(Some(c)) == Ok::<Map<u128, LogicalId>, ErrV>(identity),
        replica_base(Some(c)) == Ok::<Map<u64, ReplicaId>, ErrV>(replicas),
        placement_base(Some(c)) == Ok::<Map<u64, Placement>, ErrV>(placements),
{
    lemma_identity_loads(c, identity, replicas, placements, c.identities.len());
    lemma_listed(identity_pairs(c.identities), identity, c.identities.len());
    lemma_replicas_load(c, identity, replicas, placements, c.replicas.len());
    lemma_listed(replica_pairs(c.replicas), replicas, c.replicas.len());
    lemma_placements_load(c, identity, replicas, placements, c.placements.len());
    lemma_listed(placement_pairs(c.placements), placements, c.placements.len());
    assert(c.placements.take(c.placements.len() as int) =~= c.placements);
}

// ---------------------------------------------------------------------------
// Laws
/// Logs up to a generation, and logs after it.
pub open spec fn parted(old: Seq<LogFile>, new: Seq<LogFile>, generation: u64) -> bool {
    &&& forall|i: int| 0 <= i < old.len() ==> (#[trigger] old[i]).generation <= generation
    &&& forall|i: int| 0 <= i < new.len() ==> (#[trigger] new[i]).generation > generation
}

proof fn lemma_parted(old: Seq<LogFile>, new: Seq<LogFile>, c: CheckpointV)
    requires
        parted(old, new, c.generation),
    ensures
        later(new, Some(c)) == new,
        later(old + new, Some(c)) == new,
        later(old, None) == old,
        later(old + new, None) == old + new,
{
    lemma_later_all(new, Some(c));
    lemma_later_split(old, new, Some(c));
    lemma_later_all(old, None);
    lemma_later_all(old + new, None);
}

/// A checkpoint of the identities up to a generation, with the logs after it,
/// gives what all logs give; whether or not the covered logs are still there.
pub proof fn identities_from_a_checkpoint_are_those_of_all_logs(
    c: CheckpointV,
    old: Seq<LogFile>,
    new: Seq<LogFile>,
    identity: Map<u128, LogicalId>,
    replicas: Map<u64, ReplicaId>,
    placements: Map<u64, Placement>,
)
    requires
        snapshots(c, identity, replicas, placements),
        parted(old, new, c.generation),
        identity_recovered(None, old) == Ok::<Map<u128, LogicalId>, ErrV>(identity),
    ensures
        identity_recovered(Some(c), old + new) == identity_recovered(None, old + new),
        identity_recovered(Some(c), new) == identity_recovered(None, old + new),
{
    lemma_parted(old, new, c);
    checkpoint_gives_the_directories_back(c, identity, replicas, placements);
    lemma_identity_parts(old, new, new.len());
    if identity_files(new, new.len()) is Ok {
        let a = identity_files(old, old.len())->Ok_0;
        let b = identity_files(new, new.len())->Ok_0;
        lemma_identity_logs(Map::empty(), a, b, b.len());
        assert((a + b).len() == a.len() + b.len());
    }
}

/// The same of the replicas.
pub proof fn replicas_from_a_checkpoint_are_those_of_all_logs(
    c: CheckpointV,
    old: Seq<LogFile>,
    new: Seq<LogFile>,
    identity: Map<u128, LogicalId>,
    replicas: Map<u64, ReplicaId>,
    placements: Map<u64, Placement>,
)
    requires
        snapshots(c, identity, replicas, placements),
        parted(old, new, c.generation),
        replicas_recovered(None, old) == Ok::<Map<u64, ReplicaId>, ErrV>(replicas),
    ensures
        replicas_recovered(Some(c), old + new) == replicas_recovered(None, old + new),
        replicas_recovered(Some(c), new) == replicas_recovered(None, old + new),
{
    lemma_parted(old, new, c);
    checkpoint_gives_the_directories_back(c, identity, replicas, placements);
    lemma_replica_parts(old, new, new.len());
    if replica_files(new, new.len()) is Ok {
        let a = replica_files(old, old.len())->Ok_0;
        let b = replica_files(new, new.len())->Ok_0;
        lemma_replica_logs(Map::empty(), a, b, b.len());
        assert((a + b).len() == a.len() + b.len());
    }
}

/// The same of the placements.
pub proof fn placements_from_a_checkpoint_are_those_of_all_logs(
    c: CheckpointV,
    old: Seq<LogFile>,
    new: Seq<LogFile>,
    identity: Map<u128, LogicalId>,
    replicas: Map<u64, ReplicaId>,
    placements: Map<u64, Placement>,
)
    requires
        snapshots(c, identity, replicas, placements),
        parted(old, new, c.generation),
        placements_recovered(None, old) == Ok::<Map<u64, Placement>, ErrV>(placements),
    ensures
        placements_recovered(Some(c), old + new) == placements_recovered(None, old + new),
        placements_recovered(Some(c), new) == placements_recovered(None, old + new),
{
    lemma_parted(old, new, c);
    checkpoint_gives_the_directories_back(c, identity, replicas, placements);
    lemma_placement_parts(old, new, new.len());
    if placement_files(new, new.len()) is Ok {
        let a = placement_files(old, old.len())->Ok_0;
        let b = placement_files(new, new.len())->Ok_0;
        lemma_build_append(Map::empty(), a, b);
    }
}

} // verus!
