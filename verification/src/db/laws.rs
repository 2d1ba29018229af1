//! What reads see through writes, rotations, flushes and compactions.

use crate::codec::lemma_lex_total;
use crate::compaction::laws::layered;
use crate::compaction::run::{chunk_is, chunk_of_file, file_of, LiveChunk};
use crate::db::flush::{chunk_segs, flushed_as, flushes};
use crate::wal::OpV;
use crate::db::read::{
    db_get, db_get_object, mem_find, mem_layers, probe_of, seg_answer, seg_chain, seg_chain_rid,
    shown, Probe,
};
use crate::db::state::{change_all, change_one, db_apply, replica_of, rotated, DbV};
use crate::format::{ErrV, FormatError};
use crate::identity::replica_id::ReplicaId;
use crate::memtable::{
    has_replicas, lemma_first_any, lemma_first_none, lemma_row_value, lemma_with_row, mem_apply,
    mem_ok, replica_write_is_read_back, row_of, value_of, with_row, write_is_read_back, MemV,
};
use crate::segment::block::split;
use crate::segment::block_laws::{
    first_rid, lemma_keys_ascend, stored, stored_all,
};
use crate::segment::entry::{entries_view, EntryV, SegmentEntry};
use crate::segment::lookup::rid_matches;
use crate::segment::open::SegV;
use crate::segment::open_laws::{open_gives_back_writes, seg_fits, written};
use crate::segment::read::{first_of, locate_of, rid_from, seg_get_rid};
use crate::segment::read_laws::{
    bloom_denies_no_written_key, get_by_rid_finds_the_replica, get_finds_what_was_written,
};
use crate::segment::write::{comes_first, in_order, publish_outcome, Published};
use vstd::prelude::*;

verus! {

// ---------------------------------------------------------------------------
// Writes
/// Every row in memory is older than the next batch.
pub open spec fn seqs_below(s: DbV) -> bool {
    forall|i: int| 0 <= i < s.active.rows.len() ==> (#[trigger] s.active.rows[i]).seq < s.next_seq
}

/// Layers that differ in the newest only answer alike where the newest does.
pub proof fn lemma_newest_layer(a: DbV, b: DbV, key: Seq<u8>, want: Option<ReplicaId>)
    requires
        a.immutables == b.immutables,
    ensures
        mem_find(a, key, want) == (match first_rid(a.active.rows, key, want) {
            Some(e) => Some(e),
            None => layered(mem_layers(b), b.immutables.len(), key, want),
        }),
{
    let la = mem_layers(a);
    let lb = mem_layers(b);
    let n = a.immutables.len();
    assert(la.len() == n + 1 && la[n as int] == a.active.rows);
    assert forall|i: int| 0 <= i < n implies la[i] == lb[i] by {}
    lemma_same_layers(la, lb, n, key, want);
}

proof fn lemma_same_layers(
    a: Seq<Seq<EntryV>>,
    b: Seq<Seq<EntryV>>,
    n: nat,
    key: Seq<u8>,
    want: Option<ReplicaId>,
)
    requires
        forall|i: int| 0 <= i < n ==> a[i] == b[i],
    ensures
        layered(a, n, key, want) == layered(b, n, key, want),
    decreases n,
{
    if n > 0 {
        lemma_same_layers(a, b, (n - 1) as nat, key, want);
    }
}

/// A plain change of one key: a value, or a deletion.
pub open spec fn plain_change(key: Seq<u8>, value: Option<Seq<u8>>) -> OpV {
    match value {
        Some(v) => OpV::Put(key, v),
        None => OpV::Delete(key),
    }
}

/// What was written last is what is read: a value, or nothing after a
/// deletion; and no other key reads differently.
pub proof fn write_reads_back(
    s: DbV,
    key: Seq<u8>,
    value: Option<Seq<u8>>,
    other: Seq<u8>,
)
    requires
        mem_ok(s.active),
        seqs_below(s),
    ensures
        ({
            let (after, r) = db_apply(s, s.next_seq, seq![plain_change(key, value)]);
            &&& r is Ok
            &&& db_get(after, key) == Ok::<Option<Seq<u8>>, ErrV>(value)
            &&& other != key ==> db_get(after, other) == db_get(s, other)
        }),
{
    let ops = seq![plain_change(key, value)];
    let e = row_of(key, s.next_seq, value, ReplicaId(0));
    let (after, r) = db_apply(s, s.next_seq, ops);
    assert(change_all(s.active, s.dirs, s.next_seq, ops, 0) == (
        s.active,
        s.dirs,
        Ok::<(), ErrV>(()),
    ));
    assert(after.active == mem_apply(s.active, key, s.next_seq, value, ReplicaId(0)));
    lemma_row_value(key, s.next_seq, value, ReplicaId(0));
    write_is_read_back(s.active.rows, e, other);
    lemma_newest_layer(after, s, key, None);
    lemma_newest_layer(after, s, other, None);
    lemma_newest_layer(s, s, other, None);
    lemma_first_any(after.active.rows, key);
    lemma_first_any(after.active.rows, other);
    lemma_first_any(s.active.rows, other);
}

/// An object's change of one key.
pub open spec fn object_change(rid: ReplicaId, key: Seq<u8>, value: Option<Seq<u8>>) -> OpV {
    match value {
        Some(v) => OpV::PutObject(rid, key, v),
        None => OpV::DeleteObject(rid, key),
    }
}

/// What an object wrote last is what it reads; an object with another replica
/// never sees it, even at the same key.
pub proof fn object_write_reads_back(
    s: DbV,
    oid: Seq<u8>,
    rid: ReplicaId,
    key: Seq<u8>,
    value: Option<Seq<u8>>,
    other: Seq<u8>,
)
    requires
        mem_ok(s.active),
        seqs_below(s),
        replica_of(s, oid) == Ok::<Option<ReplicaId>, ErrV>(Some(rid)),
    ensures
        ({
            let (after, r) = db_apply(s, s.next_seq, seq![object_change(rid, key, value)]);
            &&& r is Ok
            &&& db_get_object(after, oid, key) == Ok::<Option<Seq<u8>>, ErrV>(value)
            &&& replica_of(s, other) != Ok::<Option<ReplicaId>, ErrV>(Some(rid)) ==> db_get_object(
                after,
                other,
                key,
            ) == db_get_object(s, other, key)
        }),
{
    let ops = seq![object_change(rid, key, value)];
    let e = row_of(key, s.next_seq, value, rid);
    let (after, r) = db_apply(s, s.next_seq, ops);
    assert(change_all(s.active, s.dirs, s.next_seq, ops, 0) == (
        s.active,
        s.dirs,
        Ok::<(), ErrV>(()),
    ));
    assert(after.active == mem_apply(s.active, key, s.next_seq, value, rid));
    lemma_row_value(key, s.next_seq, value, rid);
    replica_write_is_read_back(s.active.rows, e, key, rid);
    lemma_newest_layer(after, s, key, Some(rid));
    if let Ok(Some(r2)) = replica_of(s, other) {
        if r2 != rid {
            replica_write_is_read_back(s.active.rows, e, key, r2);
            lemma_newest_layer(after, s, key, Some(r2));
            lemma_newest_layer(s, s, key, Some(r2));
        }
    }
}

/// A write keeps every row older than the batch after it.
pub proof fn write_keeps_seqs_below(s: DbV, op: OpV)
    requires
        mem_ok(s.active),
        seqs_below(s),
        s.next_seq < u64::MAX,
    ensures
        ({
            let taken = DbV { next_seq: (s.next_seq + 1) as u64, ..s };
            let after = db_apply(taken, s.next_seq, seq![op]).0;
            seqs_below(after) && mem_ok(after.active)
        }),
{
    let taken = DbV { next_seq: (s.next_seq + 1) as u64, ..s };
    let ops = seq![op];
    let after = db_apply(taken, s.next_seq, ops).0;
    assert(change_all(s.active, s.dirs, s.next_seq, ops, 0) == (
        s.active,
        s.dirs,
        Ok::<(), ErrV>(()),
    ));
    assert(after.active == change_one(s.active, s.dirs, s.next_seq, op).0);
    match op {
        OpV::Put(k, v) => {
            lemma_row_below(s, row_of(k, s.next_seq, Some(v), ReplicaId(0)));
        },
        OpV::Delete(k) => {
            lemma_row_below(s, row_of(k, s.next_seq, None, ReplicaId(0)));
        },
        OpV::PutObject(r, k, v) => {
            lemma_row_below(s, row_of(k, s.next_seq, Some(v), r));
        },
        OpV::DeleteObject(r, k) => {
            lemma_row_below(s, row_of(k, s.next_seq, None, r));
        },
        OpV::CreateObject { .. } => {},
    }
}

proof fn lemma_row_below(s: DbV, e: EntryV)
    requires
        mem_ok(s.active),
        seqs_below(s),
        e.seq == s.next_seq,
    ensures
        in_order(with_row(s.active.rows, e)),
        forall|i: int|
            0 <= i < with_row(s.active.rows, e).len() ==> (#[trigger] with_row(
                s.active.rows,
                e,
            )[i]).seq < s.next_seq + 1,
{
    lemma_with_row(s.active.rows, e);
    let out = with_row(s.active.rows, e);
    assert forall|i: int| 0 <= i < out.len() implies (#[trigger] out[i]).seq < s.next_seq + 1 by {
        assert(out.contains(out[i]));
        if out[i] != e {
            assert(s.active.rows.contains(out[i]));
            let k = choose|k: int| 0 <= k < s.active.rows.len() && s.active.rows[k] == out[i];
            assert(s.active.rows[k].seq < s.next_seq);
        }
    }
}

// ---------------------------------------------------------------------------
// Rotation
proof fn lemma_rotated_find(s: DbV, key: Seq<u8>, want: Option<ReplicaId>)
    ensures
        mem_find(rotated(s), key, want) == mem_find(s, key, want),
{
    let t = rotated(s);
    if s.active.rows.len() > 0 {
        let ls = mem_layers(s);
        let lt = mem_layers(t);
        let n = s.immutables.len();
        assert(lt.len() == n + 2);
        assert(lt[n as int + 1] == Seq::<EntryV>::empty());
        assert forall|i: int| 0 <= i < n + 1 implies lt[i] == ls[i] by {
            if i < n {
                assert(t.immutables[i] == s.immutables[i]);
            }
        }
        lemma_same_layers(lt, ls, n + 1, key, want);
        assert(first_rid(lt[n as int + 1], key, want) is None);
    }
}

/// Rotating the memtable changes no read.
pub proof fn rotation_changes_no_read(s: DbV, key: Seq<u8>, oid: Seq<u8>)
    ensures
        db_get(rotated(s), key) == db_get(s, key),
        db_get_object(rotated(s), oid, key) == db_get_object(s, oid, key),
{
    lemma_rotated_find(s, key, None);
    if let Ok(Some(rid)) = replica_of(s, oid) {
        lemma_rotated_find(s, key, Some(rid));
    }
}

// ---------------------------------------------------------------------------
// Segments
/// Strictly ordered entries have one order.
pub proof fn lemma_one_order(a: Seq<SegmentEntry>, b: Seq<SegmentEntry>)
    requires
        in_order(entries_view(a)),
        in_order(entries_view(b)),
        a.to_multiset() == b.to_multiset(),
    ensures
        a == b,
    decreases a.len(),
{
    broadcast use vstd::seq_lib::group_to_multiset_ensures;

    a.to_multiset_ensures();
    b.to_multiset_ensures();
    assert(a.len() == b.len());
    if a.len() == 0 {
        assert(a =~= b);
    } else {
        let va = entries_view(a);
        let vb = entries_view(b);
        assert(a.contains(a[0]));
        assert(a.to_multiset().count(a[0]) > 0);
        assert(b.contains(a[0]));
        let j = choose|j: int| 0 <= j < b.len() && b[j] == a[0];
        assert(b.contains(b[0]));
        assert(b.to_multiset().count(b[0]) > 0);
        assert(a.contains(b[0]));
        let i = choose|i: int| 0 <= i < a.len() && a[i] == b[0];
        if j > 0 {
            assert(comes_first(vb[0], vb[j]));
            lemma_lex_total(vb[0].key, vb[j].key);
            if i > 0 {
                assert(comes_first(va[0], va[i]));
                lemma_lex_total(va[0].key, va[i].key);
            }
        }
        assert(a[0] == b[0]);
        let ra = a.skip(1);
        let rb = b.skip(1);
        assert(a =~= seq![a[0]] + ra);
        assert(b =~= seq![a[0]] + rb);
        vstd::seq_lib::lemma_multiset_commutative(seq![a[0]], ra);
        vstd::seq_lib::lemma_multiset_commutative(seq![a[0]], rb);
        assert(ra.to_multiset() =~= rb.to_multiset()) by {
            let one = seq![a[0]].to_multiset();
            assert(one.add(ra.to_multiset()) == one.add(rb.to_multiset()));
            assert forall|x: SegmentEntry| ra.to_multiset().count(x) == rb.to_multiset().count(x) by {
                assert(one.add(ra.to_multiset()).count(x) == one.count(x) + ra.to_multiset().count(
                    x,
                ));
                assert(one.add(rb.to_multiset()).count(x) == one.count(x) + rb.to_multiset().count(
                    x,
                ));
            }
        }
        assert forall|x: int, y: int|
            #![trigger entries_view(ra)[x], entries_view(ra)[y]]
            0 <= x < y < entries_view(ra).len() implies comes_first(
            entries_view(ra)[x],
            entries_view(ra)[y],
        ) by {
            assert(comes_first(va[x + 1], va[y + 1]));
        }
        assert forall|x: int, y: int|
            #![trigger entries_view(rb)[x], entries_view(rb)[y]]
            0 <= x < y < entries_view(rb).len() implies comes_first(
            entries_view(rb)[x],
            entries_view(rb)[y],
        ) by {
            assert(comes_first(vb[x + 1], vb[y + 1]));
        }
        lemma_one_order(ra, rb);
    }
}

/// Rows whose segment fits its fields.
#[verifier::opaque]
pub open spec fn rows_fit(es: Seq<EntryV>, target: nat, v3: bool) -> bool {
    seg_fits(es, split(es, target, true, v3), true, v3)
}

/// A chunk of ordered rows is the segment that was written of them.
pub proof fn chunk_is_what_was_written(c: LiveChunk, es: Seq<EntryV>, target: nat, v3: bool)
    requires
        chunk_is(c, es, target, v3),
        in_order(es),
        rows_fit(es, target, v3),
    ensures
        c.reader@ == written(es, split(es, target, true, v3), true, v3),
{
    reveal(chunk_is);
    reveal(rows_fit);
    let p = choose|p: Published| #[trigger]
        file_of(Ok(p), es, target, v3) && chunk_of_file(c, p);
    let r: Result<Published, FormatError> = Ok(p);
    let (entries, order) = choose|entries: Seq<SegmentEntry>, order: Seq<SegmentEntry>|
        entries_view(entries) == es && #[trigger] publish_outcome(
            r,
            entries,
            order,
            target,
            true,
            v3,
        );
    lemma_one_order(order, entries);
    open_gives_back_writes(es, split(es, target, true, v3), true, v3);
}

pub proof fn lemma_stored_first(es: Seq<EntryV>, v3: bool, key: Seq<u8>)
    ensures
        first_of(stored_all(es, v3), key) == (match first_of(es, key) {
            Some(e) => Some(stored(e, v3)),
            None => None,
        }),
    decreases es.len(),
{
    if es.len() > 0 {
        lemma_stored_first(es.skip(1), v3, key);
        assert(stored_all(es, v3).skip(1) =~= stored_all(es.skip(1), v3));
    }
}

proof fn lemma_no_key(es: Seq<EntryV>, key: Seq<u8>)
    requires
        forall|i: int| 0 <= i < es.len() ==> (#[trigger] es[i]).key != key,
    ensures
        first_of(es, key) is None,
{
    lemma_first_any(es, key);
    lemma_first_none(es, key, None);
}

/// A written segment answers with the newest row of a key, whether or not its
/// bounds and its filter let the search begin.
pub proof fn segment_answers_with_the_newest(es: Seq<EntryV>, target: nat, v3: bool, key: Seq<u8>)
    requires
        in_order(es),
        rows_fit(es, target, v3),
    ensures
        shown(seg_answer(written(es, split(es, target, true, v3), true, v3), key)) == shown(
            Ok(first_of(es, key)),
        ),
        seg_answer(written(es, split(es, target, true, v3), true, v3), key) matches Ok(x)
            && x is Some == first_of(es, key) is Some,
{
    let blocks = split(es, target, true, v3);
    let s = written(es, blocks, true, v3);
    reveal(seg_answer);
    reveal(rows_fit);
    reveal(probe_of);
    lemma_stored_first(es, v3, key);
    if probe_of(s, key) == Probe::Search {
        get_finds_what_was_written(es, blocks, true, v3, key);
    } else {
        assert forall|i: int| 0 <= i < es.len() implies (#[trigger] es[i]).key != key by {
            lemma_keys_ascend(es, 0, i);
            lemma_keys_ascend(es, i, es.len() - 1);
            lemma_lex_total(es[i].key, key);
            lemma_lex_total(es[0].key, key);
            lemma_lex_total(es.last().key, key);
            bloom_denies_no_written_key(es, es.len(), i);
        }
        lemma_no_key(es, key);
    }
}

proof fn lemma_plain_segment(s: SegV, i: int, key: Seq<u8>, rid: ReplicaId)
    requires
        forall|k: int| 0 <= k < s.data.len() ==> !(#[trigger] s.data[k]).v3,
    ensures
        rid_from(s, i, key, rid) == Ok::<Option<EntryV>, ErrV>(None),
    decreases s.data.len() - i,
{
    if 0 <= i < s.data.len() {
        assert(!s.data[i].v3);
        lemma_plain_segment(s, i + 1, key, rid);
    }
}

/// A written segment answers for a replica with its newest row.
pub proof fn segment_answers_for_the_replica(
    es: Seq<EntryV>,
    target: nat,
    v3: bool,
    key: Seq<u8>,
    rid: ReplicaId,
)
    requires
        in_order(es),
        rid.0 != 0,
        has_replicas(es) ==> v3,
        rows_fit(es, target, v3),
    ensures
        seg_get_rid(written(es, split(es, target, true, v3), true, v3), key, rid) == Ok::<
            Option<EntryV>,
            ErrV,
        >(first_rid(es, key, Some(rid))),
{
    let blocks = split(es, target, true, v3);
    let s = written(es, blocks, true, v3);
    reveal(rows_fit);
    if v3 {
        get_by_rid_finds_the_replica(es, blocks, key, rid);
    } else {
        assert forall|i: int| 0 <= i < es.len() implies !((#[trigger] es[i]).key == key
            && rid_matches(Some(rid), es[i].replica_id)) by {
            assert(es[i].replica_id.0 == 0);
        }
        lemma_first_none(es, key, Some(rid));
        match locate_of(s, key) {
            Some(i) => {
                lemma_plain_segment(s, i, key, rid);
            },
            None => {},
        }
    }
}

// ---------------------------------------------------------------------------
// Flush
/// The rows of memtables.
pub open spec fn rows_of(mems: Seq<MemV>) -> Seq<Seq<EntryV>> {
    mems.map_values(|m: MemV| m.rows)
}

/// Every memtable keeps its order and makes a segment that fits.
pub open spec fn mems_fit(mems: Seq<MemV>, target: nat) -> bool {
    forall|i: int|
        0 <= i < mems.len() ==> mem_ok(#[trigger] mems[i]) && rows_fit(
            mems[i].rows,
            target,
            has_replicas(mems[i].rows),
        )
}

/// The segment of a memtable answers as the memtable does.
proof fn lemma_flushed_answer(c: LiveChunk, m: MemV, id: int, target: nat, key: Seq<u8>)
    requires
        flushed_as(c, m, id, target),
        mem_ok(m),
        rows_fit(m.rows, target, has_replicas(m.rows)),
    ensures
        shown(seg_answer(c.reader@, key)) == shown(Ok(first_rid(m.rows, key, None))),
        seg_answer(c.reader@, key) matches Ok(x) && x is Some == first_rid(
            m.rows,
            key,
            None,
        ) is Some,
{
    let v3 = has_replicas(m.rows);
    chunk_is_what_was_written(c, m.rows, target, v3);
    segment_answers_with_the_newest(m.rows, target, v3, key);
    lemma_first_any(m.rows, key);
}

proof fn lemma_flushed_replica(
    c: LiveChunk,
    m: MemV,
    id: int,
    target: nat,
    key: Seq<u8>,
    rid: ReplicaId,
)
    requires
        flushed_as(c, m, id, target),
        mem_ok(m),
        rows_fit(m.rows, target, has_replicas(m.rows)),
        rid.0 != 0,
    ensures
        seg_get_rid(c.reader@, key, rid) == Ok::<Option<EntryV>, ErrV>(
            first_rid(m.rows, key, Some(rid)),
        ),
{
    chunk_is_what_was_written(c, m.rows, target, has_replicas(m.rows));
    segment_answers_for_the_replica(m.rows, target, has_replicas(m.rows), key, rid);
}

pub proof fn lemma_flushed_chain(
    segs: Seq<SegV>,
    chunks: Seq<LiveChunk>,
    mems: Seq<MemV>,
    first: u64,
    target: nat,
    k: nat,
    key: Seq<u8>,
)
    requires
        flushes(chunks, mems, first, target),
        mems_fit(mems, target),
        k <= chunks.len(),
    ensures
        shown(seg_chain(segs + chunk_segs(chunks), segs.len() + k, key)) == (match layered(
            rows_of(mems),
            k,
            key,
            None,
        ) {
            Some(e) => Ok(value_of(e)),
            None => shown(seg_chain(segs, segs.len(), key)),
        }),
    decreases k,
{
    let all = segs + chunk_segs(chunks);
    if k == 0 {
        lemma_chain_prefix(all, segs, segs.len(), key);
    } else {
        lemma_flushed_chain(segs, chunks, mems, first, target, (k - 1) as nat, key);
        let c = chunks[k - 1];
        assert(flushed_as(c, mems[k - 1], first + k - 1, target));
        lemma_flushed_answer(c, mems[k - 1], first + k - 1, target, key);
        assert(all[segs.len() + k - 1] == c.reader@);
        assert(rows_of(mems)[k - 1] == mems[k - 1].rows);
    }
}

proof fn lemma_chain_prefix(a: Seq<SegV>, b: Seq<SegV>, n: nat, key: Seq<u8>)
    requires
        n <= a.len(),
        n <= b.len(),
        forall|i: int| 0 <= i < n ==> a[i] == b[i],
    ensures
        seg_chain(a, n, key) == seg_chain(b, n, key),
    decreases n,
{
    if n > 0 {
        lemma_chain_prefix(a, b, (n - 1) as nat, key);
    }
}

proof fn lemma_rid_prefix(a: Seq<SegV>, b: Seq<SegV>, n: nat, key: Seq<u8>, rid: ReplicaId)
    requires
        n <= a.len(),
        n <= b.len(),
        forall|i: int| 0 <= i < n ==> a[i] == b[i],
    ensures
        seg_chain_rid(a, n, key, rid) == seg_chain_rid(b, n, key, rid),
    decreases n,
{
    if n > 0 {
        lemma_rid_prefix(a, b, (n - 1) as nat, key, rid);
    }
}

pub proof fn lemma_flushed_rid(
    segs: Seq<SegV>,
    chunks: Seq<LiveChunk>,
    mems: Seq<MemV>,
    first: u64,
    target: nat,
    k: nat,
    key: Seq<u8>,
    rid: ReplicaId,
)
    requires
        flushes(chunks, mems, first, target),
        mems_fit(mems, target),
        k <= chunks.len(),
        rid.0 != 0,
    ensures
        seg_chain_rid(segs + chunk_segs(chunks), segs.len() + k, key, rid) == (match layered(
            rows_of(mems),
            k,
            key,
            Some(rid),
        ) {
            Some(e) => Ok(Some(e)),
            None => seg_chain_rid(segs, segs.len(), key, rid),
        }),
    decreases k,
{
    let all = segs + chunk_segs(chunks);
    if k == 0 {
        lemma_rid_prefix(all, segs, segs.len(), key, rid);
    } else {
        lemma_flushed_rid(segs, chunks, mems, first, target, (k - 1) as nat, key, rid);
        let c = chunks[k - 1];
        assert(flushed_as(c, mems[k - 1], first + k - 1, target));
        lemma_flushed_replica(c, mems[k - 1], first + k - 1, target, key, rid);
        assert(all[segs.len() + k - 1] == c.reader@);
        assert(rows_of(mems)[k - 1] == mems[k - 1].rows);
    }
}

/// A flush changes no read. `s` is the rotated state, `after` the state once
/// the chunks are the newest segments and the memtables are gone.
pub proof fn flush_changes_no_read(
    s: DbV,
    after: DbV,
    chunks: Seq<LiveChunk>,
    target: nat,
    key: Seq<u8>,
    oid: Seq<u8>,
)
    requires
        s.active.rows.len() == 0,
        mems_fit(s.immutables, target),
        chunks.len() == s.immutables.len(),
        flushes(chunks, s.immutables, s.next_segment_id, target),
        after.active == s.active,
        after.immutables == Seq::<MemV>::empty(),
        after.segments == s.segments + chunk_segs(chunks),
        after.dirs.identity == s.dirs.identity,
        after.dirs.replicas == s.dirs.replicas,
        replica_of(s, oid) matches Ok(Some(rid)) ==> rid.0 != 0,
    ensures
        db_get(after, key) == db_get(s, key),
        db_get_object(after, oid, key) == db_get_object(s, oid, key),
{
    let n = s.immutables.len();
    lemma_flushed_chain(s.segments, chunks, s.immutables, s.next_segment_id, target, n, key);
    lemma_empty_memory(after, key, None);
    lemma_memory_rows(s, key, None);
    if let Ok(Some(rid)) = replica_of(s, oid) {
        lemma_flushed_rid(
            s.segments,
            chunks,
            s.immutables,
            s.next_segment_id,
            target,
            n,
            key,
            rid,
        );
        lemma_empty_memory(after, key, Some(rid));
        lemma_memory_rows(s, key, Some(rid));
    }
}

proof fn lemma_empty_memory(s: DbV, key: Seq<u8>, want: Option<ReplicaId>)
    requires
        s.active.rows.len() == 0,
        s.immutables.len() == 0,
    ensures
        mem_find(s, key, want) is None,
{
    let l = mem_layers(s);
    assert(l.len() == 1 && l[0] == s.active.rows);
    assert(layered(l, 0, key, want) is None);
}

proof fn lemma_memory_rows(s: DbV, key: Seq<u8>, want: Option<ReplicaId>)
    requires
        s.active.rows.len() == 0,
    ensures
        mem_find(s, key, want) == layered(rows_of(s.immutables), s.immutables.len(), key, want),
{
    let l = mem_layers(s);
    let n = s.immutables.len();
    assert(l.len() == n + 1 && l[n as int] == s.active.rows);
    assert(first_rid(l[n as int], key, want) is None);
    assert forall|i: int| 0 <= i < n implies l[i] == rows_of(s.immutables)[i] by {}
    lemma_same_layers(l, rows_of(s.immutables), n, key, want);
}

} // verus!
