//! What reads see of a batch that was committed.

use crate::db::allocator_laws::ahead;
use crate::db::directories::{dir_create, DirV};
use crate::db::laws::{lemma_newest_layer, seqs_below};
use crate::db::group::group_apply;
use crate::db::reach_laws::{last_left, left_at, lemma_batch, lemma_batch_reads};
use crate::db::read::{db_get, db_get_object};
use crate::db::state::{can_reserve, change_all, creation, db_apply, replica_of, reserved, DbV};
use crate::engine::{batch_changes, WriteBatch};
use crate::format::ErrV;
use crate::identity::logical_id::LogicalId;
use crate::identity::object_id::oid_number;
use crate::identity::replica_id::ReplicaId;
use crate::idmap::lookup;
use crate::memtable::{
    lemma_row_value, mem_ok, replica_write_is_read_back, row_of, with_row, MemV,
};
use crate::placement::directory::Placement;
use crate::segment::entry::EntryV;
use crate::wal::{ops_view, Op, OpV};
use vstd::prelude::*;

verus! {

/// A batch that was let in: a key reads as the last change of it left it, and a
/// key that no change touched as before.
pub proof fn batch_is_read_back(s: DbV, ops: Seq<OpV>, key: Seq<u8>)
    requires
        mem_ok(s.active),
        seqs_below(s),
        db_apply(s, s.next_seq, ops).1 is Ok,
    ensures
        db_get(db_apply(s, s.next_seq, ops).0, key) == (match last_left(ops, ops.len(), key) {
            Some(v) => Ok(v),
            None => db_get(s, key),
        }),
{
    let after = db_apply(s, s.next_seq, ops).0;
    assert forall|x: EntryV| #[trigger] s.active.rows.contains(x) implies x.seq <= s.next_seq by {
        let i = choose|i: int| 0 <= i < s.active.rows.len() && s.active.rows[i] == x;
        assert(s.active.rows[i].seq < s.next_seq);
    }
    lemma_batch_reads(s.active, s.dirs, s.next_seq, ops, ops.len(), key);
    lemma_newest_layer(after, s, key, None);
    lemma_newest_layer(s, s, key, None);
}

/// What the last change of a key in the first `n` batches leaves there.
pub open spec fn last_in_group(group: Seq<Seq<OpV>>, n: nat, key: Seq<u8>) -> Option<
    Option<Seq<u8>>,
>
    decreases n,
{
    if n == 0 {
        None
    } else {
        match last_left(group[n - 1], group[n - 1].len(), key) {
            Some(v) => Some(v),
            None => last_in_group(group, (n - 1) as nat, key),
        }
    }
}

/// A group that was let in, under sequences that ascend past those in memory: a
/// key reads as the last change of it, in the last batch that has one, left it;
/// a key that no batch touched reads as before.
pub proof fn group_is_read_back(
    s: DbV,
    group: Seq<Seq<OpV>>,
    seqs: Seq<u64>,
    n: nat,
    key: Seq<u8>,
)
    requires
        n <= group.len() == seqs.len(),
        mem_ok(s.active),
        forall|i: int, j: int|
            0 <= i < s.active.rows.len() && 0 <= j < seqs.len() ==> (
            #[trigger] s.active.rows[i]).seq < #[trigger] seqs[j],
        forall|i: int, j: int|
            #![trigger seqs[i], seqs[j]]
            0 <= i < j < seqs.len() ==> seqs[i] < seqs[j],
        group_apply(s, group, seqs, n).1 is Ok,
    ensures
        ({
            let after = group_apply(s, group, seqs, n).0;
            &&& mem_ok(after.active)
            &&& after == (DbV { active: after.active, dirs: after.dirs, ..s })
            &&& forall|x: EntryV| #[trigger]
                after.active.rows.contains(x) ==> s.active.rows.contains(x) || (n > 0 && x.seq
                    <= seqs[n - 1])
            &&& db_get(after, key) == (match last_in_group(group, n, key) {
                Some(v) => Ok(v),
                None => db_get(s, key),
            })
        }),
    decreases n,
{
    if n > 0 {
        group_is_read_back(s, group, seqs, (n - 1) as nat, key);
        let before = group_apply(s, group, seqs, (n - 1) as nat).0;
        let after = group_apply(s, group, seqs, n).0;
        let seq = seqs[n - 1];
        let ops = group[n - 1];
        assert forall|x: EntryV| #[trigger] before.active.rows.contains(x) implies x.seq <= seq by {
            if s.active.rows.contains(x) {
                let i = choose|i: int| 0 <= i < s.active.rows.len() && s.active.rows[i] == x;
                assert(s.active.rows[i].seq < seqs[n - 1]);
            } else {
                assert(seqs[n - 2] < seqs[n - 1]);
            }
        }
        lemma_batch(before.active, before.dirs, seq, ops, ops.len());
        lemma_batch_reads(before.active, before.dirs, seq, ops, ops.len(), key);
        lemma_newest_layer(after, before, key, None);
        lemma_newest_layer(before, before, key, None);
        assert forall|x: EntryV| #[trigger] after.active.rows.contains(
            x,
        ) implies s.active.rows.contains(x) || x.seq <= seqs[n - 1] by {
            if x.seq != seq {
                assert(before.active.rows.contains(x));
            }
        }
    }
}

/// A batch of plain changes is let in.
proof fn lemma_plain_batch(m: MemV, d: DirV, seq: u64, ops: Seq<OpV>, n: nat)
    requires
        n <= ops.len(),
        forall|i: int| 0 <= i < ops.len() ==> !((#[trigger] ops[i]) is CreateObject),
    ensures
        change_all(m, d, seq, ops, n).2 is Ok,
        change_all(m, d, seq, ops, n).1 == d,
    decreases n,
{
    if n > 0 {
        lemma_plain_batch(m, d, seq, ops, (n - 1) as nat);
        assert(!(ops[n - 1] is CreateObject));
    }
}

/// Some deletion of a batch names the key.
pub open spec fn deletes_key(b: WriteBatch, key: Seq<u8>) -> bool {
    exists|i: int| 0 <= i < b.dels@.len() && (#[trigger] b.dels@[i])@ == key
}

/// Put `i` is the last of its key in a batch.
pub open spec fn puts_last(b: WriteBatch, key: Seq<u8>, i: int) -> bool {
    &&& 0 <= i < b.puts@.len()
    &&& b.puts@[i].0@ == key
    &&& forall|j: int| i < j < b.puts@.len() ==> (#[trigger] b.puts@[j]).0@ != key
}

/// No put of a batch names the key.
pub open spec fn puts_nothing(b: WriteBatch, key: Seq<u8>) -> bool {
    forall|j: int| 0 <= j < b.puts@.len() ==> (#[trigger] b.puts@[j]).0@ != key
}

proof fn lemma_last_is(ops: Seq<OpV>, n: nat, key: Seq<u8>, i: int)
    requires
        0 <= i < n <= ops.len(),
        left_at(ops[i], key) is Some,
        forall|j: int| i < j < n ==> left_at(#[trigger] ops[j], key) is None,
    ensures
        last_left(ops, n, key) == left_at(ops[i], key),
    decreases n,
{
    if i < n - 1 {
        assert(left_at(ops[n - 1], key) is None);
        lemma_last_is(ops, (n - 1) as nat, key, i);
    }
}

proof fn lemma_last_none(ops: Seq<OpV>, n: nat, key: Seq<u8>)
    requires
        n <= ops.len(),
        forall|j: int| 0 <= j < n ==> left_at(#[trigger] ops[j], key) is None,
    ensures
        last_left(ops, n, key) is None,
    decreases n,
{
    if n > 0 {
        assert(left_at(ops[n - 1], key) is None);
        lemma_last_none(ops, (n - 1) as nat, key);
    }
}

/// The last deletion of a key among the first `n`.
proof fn lemma_last_deletion(b: WriteBatch, key: Seq<u8>, n: nat) -> (i: int)
    requires
        n <= b.dels@.len(),
        exists|i: int| 0 <= i < n && (#[trigger] b.dels@[i])@ == key,
    ensures
        0 <= i < n,
        b.dels@[i]@ == key,
        forall|j: int| i < j < n ==> (#[trigger] b.dels@[j])@ != key,
    decreases n,
{
    if b.dels@[n - 1]@ == key {
        n - 1
    } else {
        let k = choose|k: int| 0 <= k < n && (#[trigger] b.dels@[k])@ == key;
        assert(0 <= k < n - 1 && b.dels@[k]@ == key);
        lemma_last_deletion(b, key, (n - 1) as nat)
    }
}

/// A batch of the storage contract that was committed: every key that it
/// deletes reads as absent, every other key that it puts reads as the value of
/// its last put, and no other key reads differently. A batch that gives no
/// changes holds none.
pub proof fn storage_batch_is_read_back(
    b: WriteBatch,
    given: Option<Vec<Op>>,
    s: DbV,
    key: Seq<u8>,
)
    requires
        call_ensures(WriteBatch::to_ops, (&b,), given),
        mem_ok(s.active),
        seqs_below(s),
    ensures
        given is None <==> b.puts@.len() == 0 && b.dels@.len() == 0,
        given matches Some(ops) ==> {
            let (after, r) = db_apply(s, s.next_seq, ops_view(ops@));
            &&& r is Ok
            &&& deletes_key(b, key) ==> db_get(after, key) == Ok::<Option<Seq<u8>>, ErrV>(None)
            &&& forall|i: int|
                !deletes_key(b, key) && #[trigger] puts_last(b, key, i) ==> db_get(after, key)
                    == Ok::<Option<Seq<u8>>, ErrV>(Some(b.puts@[i].1@))
            &&& !deletes_key(b, key) && puts_nothing(b, key) ==> db_get(after, key) == db_get(
                s,
                key,
            )
        },
{
    let all = batch_changes(b);
    let np = b.puts@.len();
    let nd = b.dels@.len();
    assert(all.len() == np + nd);
    assert forall|i: int| 0 <= i < np implies #[trigger] all[i] == OpV::Put(
        b.puts@[i].0@,
        b.puts@[i].1@,
    ) by {}
    assert forall|i: int| np <= i < np + nd implies #[trigger] all[i] == OpV::Delete(
        b.dels@[i - np]@,
    ) by {}
    if given is Some {
        lemma_plain_batch(s.active, s.dirs, s.next_seq, all, all.len());
        batch_is_read_back(s, all, key);
        if deletes_key(b, key) {
            let i = lemma_last_deletion(b, key, nd);
            assert forall|j: int| np + i < j < all.len() implies left_at(
                #[trigger] all[j],
                key,
            ) is None by {
                assert(b.dels@[j - np]@ != key);
            }
            assert(all[np + i] == OpV::Delete(key));
            lemma_last_is(all, all.len(), key, np + i);
        } else {
            assert forall|j: int| np <= j < all.len() implies left_at(
                #[trigger] all[j],
                key,
            ) is None by {
                assert(b.dels@[j - np]@ != key);
            }
            assert forall|i: int| #[trigger] puts_last(b, key, i) implies last_left(
                all,
                all.len(),
                key,
            ) == Some(Some(b.puts@[i].1@)) by {
                assert forall|j: int| i < j < all.len() implies left_at(
                    #[trigger] all[j],
                    key,
                ) is None by {
                    if j < np {
                        assert(b.puts@[j].0@ != key);
                    }
                }
                assert(all[i] == OpV::Put(key, b.puts@[i].1@));
                lemma_last_is(all, all.len(), key, i);
            }
            if puts_nothing(b, key) {
                assert forall|j: int| 0 <= j < all.len() implies left_at(
                    #[trigger] all[j],
                    key,
                ) is None by {
                    if j < np {
                        assert(b.puts@[j].0@ != key);
                    }
                }
                lemma_last_none(all, all.len(), key);
            }
        }
    }
}

// ---------------------------------------------------------------------------
// Objects
/// The first row of a new object: the batch that creates the object under the
/// next free identity and writes the row is let in; the object then has that
/// identity, and reads what was written; and no object that was there reads
/// differently.
pub proof fn new_objects_are_read_back(
    s: DbV,
    oid: Seq<u8>,
    key: Seq<u8>,
    value: Seq<u8>,
    other: Seq<u8>,
)
    requires
        mem_ok(s.active),
        seqs_below(s),
        ahead(s),
        can_reserve(s),
        replica_of(s, oid) == Ok::<Option<ReplicaId>, ErrV>(None),
        !s.dirs.replicas.contains_key(s.next_logical_id),
        !s.dirs.placements.contains_key(s.next_replica_id),
    ensures
        ({
            let t = reserved(s);
            let rid = ReplicaId(s.next_replica_id);
            let ops = seq![creation(s, oid), OpV::PutObject(rid, key, value)];
            let (after, r) = db_apply(t, t.next_seq, ops);
            &&& r is Ok
            &&& replica_of(after, oid) == Ok::<Option<ReplicaId>, ErrV>(Some(rid))
            &&& lookup(after.dirs.placements, rid.0) == Some(
                Placement::Memtable { generation: s.next_placement_generation },
            )
            &&& db_get_object(after, oid, key) == Ok::<Option<Seq<u8>>, ErrV>(Some(value))
            &&& replica_of(s, other) is Ok && replica_of(s, other)->Ok_0 is Some ==> db_get_object(
                after,
                other,
                key,
            ) == db_get_object(s, other, key)
        }),
{
    let t = reserved(s);
    let rid = ReplicaId(s.next_replica_id);
    let lid = LogicalId(s.next_logical_id);
    let ops = seq![creation(s, oid), OpV::PutObject(rid, key, value)];
    let (after, r) = db_apply(t, t.next_seq, ops);
    let (d, made) = dir_create(s.dirs, oid, lid, rid, s.next_placement_generation);
    assert(made is Ok);
    assert(ops[0] == creation(s, oid));
    assert(ops[1] == OpV::PutObject(rid, key, value));
    reveal_with_fuel(change_all, 3);
    assert(change_all(t.active, t.dirs, t.next_seq, ops, 1) == (t.active, d, made));
    let e = row_of(key, t.next_seq, Some(value), rid);
    assert(after.active.rows == with_row(s.active.rows, e));
    assert(after.dirs == d);
    lemma_row_value(key, t.next_seq, Some(value), rid);
    replica_write_is_read_back(s.active.rows, e, key, rid);
    lemma_newest_layer(after, s, key, Some(rid));
    if let Ok(Some(r2)) = replica_of(s, other) {
        assert(oid_number(other) != oid_number(oid));
        assert(s.dirs.identity.contains_key(oid_number(other)));
        let l2 = s.dirs.identity[oid_number(other)];
        assert(s.dirs.replicas.contains_key(l2.0));
        assert(r2 != rid);
        replica_write_is_read_back(s.active.rows, e, key, r2);
        lemma_newest_layer(after, s, key, Some(r2));
        lemma_newest_layer(s, s, key, Some(r2));
    }
}

} // verus!
