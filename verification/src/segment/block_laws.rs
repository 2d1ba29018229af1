//! A written data block reads back: in full, and by lookup.

use crate::codec::{
    le, lemma_le_len, lemma_lex_irreflexive, lemma_lex_total, lemma_lex_trans, lemma_pow256,
    lemma_un_le_le, lex_le, lex_lt,
};
use crate::format::{
    has_at, lemma_has_all, lemma_has_is, lemma_has_split, lemma_p_u16, lemma_p_u32, lemma_p_u64, lemma_p_u8, lemma_p_vec, p_take,
    ErrV,
};
use crate::identity::replica_id::ReplicaId;
use crate::segment::block::{
    block_payload, body_bytes, due, dues, entry_bytes, entry_size, is_full, lemma_common,
    lemma_dues, lemma_entry_len, lemma_restarts, lemma_run_head, lemma_shared_le, restart_pos,
    restarts, run_head, shared_at, table_bytes, RESTART_INTERVAL,
};
use crate::segment::entry::{
    block_entries_of, entry_of, last_key, p_body, p_entries, p_entry, p_key, p_table_len, BodyV,
    EntryV,
};
use crate::segment::lookup::{
    block_find, count_le, find_from, increasing, lemma_restart_keys, restart_at, restart_keys,
    restart_off, rid_matches, seek_pos, seek_probe,
};
use crate::segment::write::{comes_first, in_order};
use vstd::prelude::*;

verus! {

/// An entry as a block keeps it: only version 3 keeps the replica.
pub open spec fn stored(e: EntryV, v3: bool) -> EntryV {
    if v3 {
        e
    } else {
        EntryV { replica_id: ReplicaId(0), ..e }
    }
}

/// Entries as a block keeps them.
pub open spec fn stored_all(es: Seq<EntryV>, v3: bool) -> Seq<EntryV> {
    es.map_values(|e: EntryV| stored(e, v3))
}

/// An entry whose lengths fit their fields.
pub open spec fn entry_fits(e: EntryV) -> bool {
    e.key.len() <= u16::MAX && e.value.len() <= u32::MAX
}

/// A block whose entries, and whose payload, fit their fields.
pub open spec fn block_fits(bl: Seq<EntryV>, v2: bool, v3: bool) -> bool {
    &&& bl.len() > 0
    &&& forall|i: int| 0 <= i < bl.len() ==> entry_fits(#[trigger] bl[i])
    &&& block_payload(bl, bl.len(), v2, v3).len() <= u32::MAX
}

/// The first entry of `key` (and of the wanted replica).
pub open spec fn first_rid(es: Seq<EntryV>, key: Seq<u8>, want: Option<ReplicaId>) -> Option<EntryV>
    decreases es.len(),
{
    if es.len() == 0 {
        None
    } else if es[0].key == key && rid_matches(want, es[0].replica_id) {
        Some(es[0])
    } else {
        first_rid(es.skip(1), key, want)
    }
}

/// A written key reads back behind a key with the shared prefix.
pub proof fn lemma_p_key(s: Seq<u8>, pos: int, e: EntryV, shared: nat, v3: bool, prev: Seq<u8>)
    requires
        entry_fits(e),
        shared <= e.key.len(),
        shared <= prev.len(),
        prev.take(shared as int) == e.key.take(shared as int),
        has_at(s, pos, entry_bytes(e, shared, v3)),
    ensures
        p_key(s, pos, prev) == Ok::<(Seq<u8>, int), ErrV>((e.key, pos + 4 + e.key.len() - shared)),
{
    reveal(p_key);
    reveal(p_body);
    reveal(entry_bytes);
    let w1 = le((shared as u16) as nat, 2);
    let w2 = w1 + le(((e.key.len() - shared) as u16) as nat, 2);
    let w3 = w2 + e.key.skip(shared as int);
    let w4 = w3 + le((e.value.len() as u32) as nat, 4);
    let w5 = w4 + e.value;
    let w6 = w5 + le(e.seq as nat, 8);
    let w7 = w6 + seq![e.flags];
    lemma_le_len((shared as u16) as nat, 2);
    lemma_le_len(((e.key.len() - shared) as u16) as nat, 2);
    lemma_has_split(
        s,
        pos,
        w7,
        if v3 {
            le(e.replica_id.0 as nat, 8)
        } else {
            seq![]
        },
    );
    lemma_has_split(s, pos, w6, seq![e.flags]);
    lemma_has_split(s, pos, w5, le(e.seq as nat, 8));
    lemma_has_split(s, pos, w4, e.value);
    lemma_has_split(s, pos, w3, le((e.value.len() as u32) as nat, 4));
    lemma_has_split(s, pos, w2, e.key.skip(shared as int));
    lemma_has_split(s, pos, w1, le(((e.key.len() - shared) as u16) as nat, 2));
    lemma_has_is(s, pos + 4, e.key.skip(shared as int));
    lemma_p_u16(s, pos, shared as u16);
    lemma_p_u16(s, pos + 2, (e.key.len() - shared) as u16);
    assert(prev.take(shared as int) + e.key.skip(shared as int) =~= e.key);
}

/// A written body reads back.
pub proof fn lemma_p_body(s: Seq<u8>, pos: int, e: EntryV, shared: nat, v3: bool)
    requires
        entry_fits(e),
        shared <= e.key.len(),
        has_at(s, pos, entry_bytes(e, shared, v3)),
    ensures
        p_body(s, pos + 4 + e.key.len() - shared, v3) == Ok::<(BodyV, int), ErrV>(
            (
                BodyV {
                    value: e.value,
                    seq: e.seq,
                    flags: e.flags,
                    replica_id: stored(e, v3).replica_id,
                },
                pos + entry_size(e, shared, v3),
            ),
        ),
{
    reveal(p_key);
    reveal(p_body);
    reveal(entry_bytes);
    let w1 = le((shared as u16) as nat, 2);
    let w2 = w1 + le(((e.key.len() - shared) as u16) as nat, 2);
    let w3 = w2 + e.key.skip(shared as int);
    let w4 = w3 + le((e.value.len() as u32) as nat, 4);
    let w5 = w4 + e.value;
    let w6 = w5 + le(e.seq as nat, 8);
    let w7 = w6 + seq![e.flags];
    let rid = if v3 {
        le(e.replica_id.0 as nat, 8)
    } else {
        seq![]
    };
    lemma_le_len((shared as u16) as nat, 2);
    lemma_le_len(((e.key.len() - shared) as u16) as nat, 2);
    lemma_le_len((e.value.len() as u32) as nat, 4);
    lemma_le_len(e.seq as nat, 8);
    lemma_has_split(s, pos, w7, rid);
    lemma_has_split(s, pos, w6, seq![e.flags]);
    lemma_has_split(s, pos, w5, le(e.seq as nat, 8));
    lemma_has_split(s, pos, w4, e.value);
    lemma_has_split(s, pos, w3, le((e.value.len() as u32) as nat, 4));
    let p = pos + 4 + e.key.len() - shared;
    assert(w3.len() == 4 + e.key.len() - shared);
    lemma_p_vec(s, p, e.value);
    let q = p + 4 + e.value.len();
    lemma_p_u64(s, q, e.seq);
    lemma_p_u8(s, q + 8, e.flags);
    if v3 {
        lemma_p_u64(s, q + 9, e.replica_id.0);
    }
}

/// A written entry reads back.
pub proof fn lemma_p_entry(s: Seq<u8>, pos: int, e: EntryV, shared: nat, v3: bool, prev: Seq<u8>)
    requires
        entry_fits(e),
        shared <= e.key.len(),
        shared <= prev.len(),
        prev.take(shared as int) == e.key.take(shared as int),
        has_at(s, pos, entry_bytes(e, shared, v3)),
    ensures
        p_entry(s, pos, prev, v3) == Ok::<(EntryV, int), ErrV>(
            (stored(e, v3), pos + entry_size(e, shared, v3)),
        ),
{
    lemma_p_key(s, pos, e, shared, v3, prev);
    lemma_p_body(s, pos, e, shared, v3);
}

/// Entry `j` stands where the first `j` entries end.
pub proof fn lemma_entry_place(es: Seq<EntryV>, n: nat, k: nat, j: int, v2: bool, v3: bool)
    requires
        0 <= j < k,
    ensures
        has_at(
            body_bytes(es, n, k, v2, v3),
            body_bytes(es, n, j as nat, v2, v3).len() as int,
            entry_bytes(es[j], shared_at(es, n, j, v2), v3),
        ),
        body_bytes(es, n, (j + 1) as nat, v2, v3).len() == body_bytes(
            es,
            n,
            j as nat,
            v2,
            v3,
        ).len() + entry_size(es[j], shared_at(es, n, j, v2), v3),
        body_bytes(es, n, (j + 1) as nat, v2, v3).len() <= body_bytes(es, n, k, v2, v3).len(),
    decreases k,
{
    reveal(has_at);
    lemma_shared_le(es, n, j, v2);
    lemma_entry_len(es[j], shared_at(es, n, j, v2), v3);
    let b = body_bytes(es, n, k, v2, v3);
    let pos = body_bytes(es, n, j as nat, v2, v3).len() as int;
    let e = entry_bytes(es[j], shared_at(es, n, j, v2), v3);
    if j == k - 1 {
        assert(b.subrange(pos, pos + e.len()) =~= e);
    } else {
        lemma_entry_place(es, n, (k - 1) as nat, j, v2, v3);
        let f = body_bytes(es, n, (k - 1) as nat, v2, v3);
        assert(b.subrange(pos, pos + e.len()) =~= f.subrange(pos, pos + e.len()));
    }
}

/// The shared prefix of entry `j` is a prefix of the key before it.
pub proof fn lemma_shared_prefix(es: Seq<EntryV>, n: nat, j: int, v2: bool)
    requires
        0 <= j,
    ensures
        shared_at(es, n, j, v2) <= es[j].key.len(),
        j == 0 ==> shared_at(es, n, j, v2) == 0,
        j > 0 ==> shared_at(es, n, j, v2) <= es[j - 1].key.len() && es[j - 1].key.take(
            shared_at(es, n, j, v2) as int,
        ) == es[j].key.take(shared_at(es, n, j, v2) as int),
{
    if j > 0 {
        lemma_common(es[j - 1].key, es[j].key);
        assert(es[j - 1].key.take(0) =~= es[j].key.take(0));
    }
}

proof fn lemma_p_entries(s: Seq<u8>, es: Seq<EntryV>, n: nat, k: nat, v2: bool, v3: bool)
    requires
        k <= n <= es.len(),
        forall|i: int| 0 <= i < es.len() ==> entry_fits(#[trigger] es[i]),
        s == body_bytes(es, n, n, v2, v3),
    ensures
        p_entries(s, k, v3) == Ok::<(Seq<EntryV>, int), ErrV>(
            (stored_all(es.take(k as int), v3), body_bytes(es, n, k, v2, v3).len() as int),
        ),
    decreases k,
{
    if k > 0 {
        let j = k - 1;
        lemma_p_entries(s, es, n, j as nat, v2, v3);
        lemma_entry_place(es, n, n, j, v2, v3);
        lemma_shared_prefix(es, n, j, v2);
        let front = stored_all(es.take(j), v3);
        let prev = last_key(front);
        if j == 0 {
            assert(front =~= seq![]);
            assert(prev.take(0) =~= es[j].key.take(0));
        } else {
            assert(front.last() == stored(es[j - 1], v3));
        }
        lemma_p_entry(
            s,
            body_bytes(es, n, j as nat, v2, v3).len() as int,
            es[j],
            shared_at(es, n, j, v2),
            v3,
            prev,
        );
        assert(front.push(stored(es[j], v3)) =~= stored_all(es.take(k as int), v3));
    } else {
        assert(stored_all(es.take(0), v3) =~= seq![]);
    }
}

proof fn lemma_table_len(es: Seq<EntryV>, n: nat, k: nat, v3: bool)
    ensures
        table_bytes(es, n, k, v3).len() == 4 * k,
    decreases k,
{
    if k > 0 {
        lemma_table_len(es, n, (k - 1) as nat, v3);
        lemma_le_len((restart_pos(es, n, k - 1, v3) as u32) as nat, 4);
    }
}

proof fn lemma_table_place(es: Seq<EntryV>, n: nat, k: nat, j: int, v3: bool)
    requires
        0 <= j < k,
    ensures
        has_at(
            table_bytes(es, n, k, v3),
            4 * j,
            le((restart_pos(es, n, j, v3) as u32) as nat, 4),
        ),
    decreases k,
{
    reveal(has_at);
    lemma_table_len(es, n, k, v3);
    lemma_table_len(es, n, (k - 1) as nat, v3);
    let e = le((restart_pos(es, n, j, v3) as u32) as nat, 4);
    lemma_le_len((restart_pos(es, n, j, v3) as u32) as nat, 4);
    let b = table_bytes(es, n, k, v3);
    if j == k - 1 {
        assert(b.subrange(4 * j, 4 * j + 4) =~= e);
    } else {
        lemma_table_place(es, n, (k - 1) as nat, j, v3);
        let f = table_bytes(es, n, (k - 1) as nat, v3);
        assert(b.subrange(4 * j, 4 * j + 4) =~= f.subrange(4 * j, 4 * j + 4));
    }
}

/// The parts of a payload with a restart table.
proof fn lemma_payload_parts(bl: Seq<EntryV>, v3: bool)
    requires
        block_fits(bl, true, v3),
    ensures
        ({
            let n = bl.len();
            let p = block_payload(bl, n, true, v3);
            let r = restarts(bl, n, true).len();
            let body = body_bytes(bl, n, n, true, v3);
            &&& 0 < r <= n
            &&& p.len() == 6 + 4 * r + body.len()
            &&& p.skip(6 + 4 * r as int) == body
            &&& p_table_len(p) == Ok::<int, ErrV>(6 + 4 * r as int)
            &&& forall|j: int|
                #![trigger restart_pos(bl, n, j, v3)]
                0 <= j < r ==> restart_off(p, j) == restart_pos(bl, n, j, v3)
        }),
{
    let n = bl.len();
    let p = block_payload(bl, n, true, v3);
    let rs = restarts(bl, n, true);
    let r = rs.len();
    let body = body_bytes(bl, n, n, true, v3);
    let w1 = le(RESTART_INTERVAL as nat, 2);
    let w2 = w1 + le((r as u32) as nat, 4);
    let table = table_bytes(bl, n, r, v3);
    lemma_dues(bl, n, true);
    lemma_restarts(bl, n, true);
    lemma_le_len(RESTART_INTERVAL as nat, 2);
    lemma_le_len((r as u32) as nat, 4);
    lemma_table_len(bl, n, r, v3);
    lemma_has_all(p);
    lemma_has_split(p, 0, w2 + table, body);
    lemma_has_split(p, 0, w2, table);
    lemma_has_split(p, 0, w1, le((r as u32) as nat, 4));
    lemma_p_u16(p, 0, RESTART_INTERVAL);
    assert(r <= u32::MAX);
    lemma_p_u32(p, 2, r as u32);
    assert(p.skip(6 + 4 * r as int) =~= body);
    assert forall|j: int| #![trigger restart_pos(bl, n, j, v3)] 0 <= j < r implies restart_off(p, j)
        == restart_pos(bl, n, j, v3) by {
        lemma_table_place(bl, n, r, j, v3);
        lemma_has_is(table, 4 * j, le((restart_pos(bl, n, j, v3) as u32) as nat, 4));
        let x = restart_pos(bl, n, j, v3);
        let e = le((x as u32) as nat, 4);
        lemma_le_len((x as u32) as nat, 4);
        assert(p.subrange(6 + 4 * j, 10 + 4 * j) =~= table.subrange(4 * j, 4 * j + 4));
        let h = rs[j];
        lemma_entry_place(bl, n, n, h, true, v3);
        assert(x <= u32::MAX);
        lemma_pow256();
        lemma_un_le_le((x as u32) as nat, 4);
    }
}

/// A written data block decodes in full to its entries.
pub proof fn block_decodes(bl: Seq<EntryV>, v2: bool, v3: bool, i: nat)
    requires
        block_fits(bl, v2, v3),
        v3 ==> v2,
    ensures
        block_entries_of(block_payload(bl, bl.len(), v2, v3), bl.len(), v2, v3, i) == Ok::<
            Seq<EntryV>,
            ErrV,
        >(stored_all(bl, v3)),
{
    let n = bl.len();
    let p = block_payload(bl, n, v2, v3);
    let body = body_bytes(bl, n, n, v2, v3);
    lemma_p_entries(body, bl, n, n, v2, v3);
    assert(bl.take(n as int) =~= bl);
    if v2 {
        lemma_payload_parts(bl, v3);
    } else {
        assert(p.skip(0) =~= p);
    }
}

// ---------------------------------------------------------------------------
// Lookup
/// Keys of ordered entries never descend.
pub proof fn lemma_keys_ascend(es: Seq<EntryV>, i: int, j: int)
    requires
        in_order(es),
        0 <= i <= j < es.len(),
    ensures
        lex_le(es[i].key, es[j].key),
{
    if i < j {
        assert(comes_first(es[i], es[j]));
    }
}

/// Restarts are due at strictly increasing keys and places.
proof fn lemma_dues_ascend(es: Seq<EntryV>, n: nat, i: int, j: int)
    requires
        0 <= i < j < dues(es, n, true).len(),
    ensures
        dues(es, n, true)[i] < dues(es, n, true)[j],
        lex_lt(es[dues(es, n, true)[i]].key, es[dues(es, n, true)[j]].key),
    decreases n,
{
    let d = dues(es, n, true);
    let front = dues(es, (n - 1) as nat, true);
    lemma_dues(es, (n - 1) as nat, true);
    if j < front.len() {
        lemma_dues_ascend(es, (n - 1) as nat, i, j);
    } else {
        assert(d[j] == n - 1);
        assert(due(es, front, n - 1, true));
        if i < front.len() - 1 {
            lemma_dues_ascend(es, (n - 1) as nat, i, front.len() - 1);
            lemma_lex_trans(es[d[i]].key, es[front.last()].key, es[n - 1].key);
        }
    }
}

/// Restart keys are those of their runs, strictly increasing, and so are their
/// places.
proof fn lemma_restart_order(es: Seq<EntryV>, n: nat, i: int, j: int)
    requires
        in_order(es),
        n <= es.len(),
        0 <= i < j < restarts(es, n, true).len(),
    ensures
        restarts(es, n, true)[i] < restarts(es, n, true)[j],
        lex_lt(es[restarts(es, n, true)[i]].key, es[restarts(es, n, true)[j]].key),
{
    let d = dues(es, n, true);
    let r = restarts(es, n, true);
    lemma_dues(es, n, true);
    lemma_restarts(es, n, true);
    lemma_dues_ascend(es, n, i, j);
    lemma_run_head(es, d[i]);
    lemma_run_head(es, d[j]);
    if r[i] >= r[j] {
        lemma_keys_ascend(es, r[j], r[i]);
        lemma_lex_total(es[r[i]].key, es[r[j]].key);
    }
}

/// The entry at restart `j` carries its full key, so that the key can be read
/// there.
proof fn lemma_restart_at(bl: Seq<EntryV>, v3: bool, j: int)
    requires
        block_fits(bl, true, v3),
        0 <= j < restarts(bl, bl.len(), true).len(),
    ensures
        ({
            let n = bl.len();
            let p = block_payload(bl, n, true, v3);
            let rs = restarts(bl, n, true);
            restart_at(p, 6 + 4 * rs.len() as int, j) == Ok::<Seq<u8>, ErrV>(bl[rs[j]].key)
        }),
{
    let n = bl.len();
    let p = block_payload(bl, n, true, v3);
    let rs = restarts(bl, n, true);
    let t = 6 + 4 * rs.len() as int;
    let body = body_bytes(bl, n, n, true, v3);
    lemma_payload_parts(bl, v3);
    lemma_restarts(bl, n, true);
    let h = rs[j];
    let at = body_bytes(bl, n, h as nat, true, v3).len() as int;
    lemma_entry_place(bl, n, n, h, true, v3);
    assert(rs.contains(h));
    assert(is_full(bl, n, h, true));
    let o = restart_pos(bl, n, j, v3) as int;
    assert(o == t + at);
    assert(restart_off(p, j) == o);
    let e = bl[h];
    let eb = entry_bytes(e, 0, v3);
    lemma_entry_len(e, 0, v3);
    let s = p.skip(o);
    assert(has_at(s, 0, eb)) by {
        reveal(has_at);
        assert(s.subrange(0, eb.len() as int) =~= body.subrange(at, at + eb.len())) by {
            assert forall|x: int| 0 <= x < eb.len() implies s[x] == body[at + x] by {
                assert(p.skip(t)[at + x] == body[at + x]);
            }
        }
    }
    let w1 = le((0 as u16) as nat, 2);
    let none: Seq<u8> = seq![];
    assert(none.take(0) =~= e.key.take(0));
    lemma_p_key(s, 0, e, 0, v3, none);
    assert(none.take(0) + e.key =~= e.key);
    lemma_key_parts(s, e, v3);
}

/// The pieces of a full key at the start of `s`.
proof fn lemma_key_parts(s: Seq<u8>, e: EntryV, v3: bool)
    requires
        entry_fits(e),
        has_at(s, 0, entry_bytes(e, 0, v3)),
    ensures
        crate::format::p_u16(s, 0) == Ok::<u16, ErrV>(0),
        crate::format::p_u16(s, 2) == Ok::<u16, ErrV>(e.key.len() as u16),
        p_take(s, 4, e.key.len() as int) == Ok::<Seq<u8>, ErrV>(e.key),
{
    reveal(entry_bytes);
    let w1 = le((0 as u16) as nat, 2);
    let w2 = w1 + le(((e.key.len() - 0) as u16) as nat, 2);
    let w3 = w2 + e.key.skip(0);
    let w4 = w3 + le((e.value.len() as u32) as nat, 4);
    let w5 = w4 + e.value;
    let w6 = w5 + le(e.seq as nat, 8);
    let w7 = w6 + seq![e.flags];
    lemma_le_len((0 as u16) as nat, 2);
    lemma_le_len(((e.key.len() - 0) as u16) as nat, 2);
    lemma_has_split(
        s,
        0,
        w7,
        if v3 {
            le(e.replica_id.0 as nat, 8)
        } else {
            seq![]
        },
    );
    lemma_has_split(s, 0, w6, seq![e.flags]);
    lemma_has_split(s, 0, w5, le(e.seq as nat, 8));
    lemma_has_split(s, 0, w4, e.value);
    lemma_has_split(s, 0, w3, le((e.value.len() as u32) as nat, 4));
    lemma_has_split(s, 0, w2, e.key.skip(0));
    lemma_has_split(s, 0, w1, le(((e.key.len() - 0) as u16) as nat, 2));
    lemma_has_is(s, 4, e.key.skip(0));
    lemma_p_u16(s, 0, 0);
    lemma_p_u16(s, 2, e.key.len() as u16);
    assert(e.key.skip(0) =~= e.key);
}

/// The keys of the restarts.
spec fn keys_at(bl: Seq<EntryV>, rs: Seq<int>) -> Seq<Seq<u8>> {
    rs.map_values(|h: int| bl[h].key)
}

proof fn lemma_all_restarts(bl: Seq<EntryV>, v3: bool, k: nat)
    requires
        block_fits(bl, true, v3),
        in_order(bl),
        k <= restarts(bl, bl.len(), true).len(),
    ensures
        ({
            let n = bl.len();
            let p = block_payload(bl, n, true, v3);
            let rs = restarts(bl, n, true);
            restart_keys(p, 6 + 4 * rs.len() as int, k) == Ok::<Seq<Seq<u8>>, ErrV>(
                keys_at(bl, rs.take(k as int)),
            )
        }),
    decreases k,
{
    let n = bl.len();
    let rs = restarts(bl, n, true);
    if k > 0 {
        lemma_all_restarts(bl, v3, (k - 1) as nat);
        lemma_restart_at(bl, v3, k - 1);
        let front = keys_at(bl, rs.take(k - 1));
        if k > 1 {
            lemma_restart_order(bl, n, k - 2, k - 1);
            assert(front.last() == bl[rs[k - 2]].key);
            lemma_lex_total(bl[rs[k - 1]].key, front.last());
        }
        assert(keys_at(bl, rs.take(k as int)) =~= front.push(bl[rs[k - 1]].key));
    } else {
        assert(keys_at(bl, rs.take(0)) =~= seq![]);
    }
}

/// A search from entry `j` of an interval that ends before entry `e` finds the
/// first match among them.
proof fn lemma_find(
    s: Seq<u8>,
    bl: Seq<EntryV>,
    base: nat,
    j: int,
    e: int,
    prev: Seq<u8>,
    key: Seq<u8>,
    v3: bool,
    want: Option<ReplicaId>,
)
    requires
        0 <= j <= e <= bl.len(),
        in_order(bl),
        forall|i: int| 0 <= i < bl.len() ==> entry_fits(#[trigger] bl[i]),
        base <= body_bytes(bl, bl.len(), j as nat, true, v3).len(),
        s.len() == body_bytes(bl, bl.len(), e as nat, true, v3).len() - base,
        forall|i: int|
            #![trigger bl[i]]
            j <= i < e ==> has_at(
                s,
                body_bytes(bl, bl.len(), i as nat, true, v3).len() - base,
                entry_bytes(bl[i], shared_at(bl, bl.len(), i, true), v3),
            ),
        is_full(bl, bl.len(), j, true) || (j > 0 && prev == bl[j - 1].key),
    ensures
        find_from(
            s,
            body_bytes(bl, bl.len(), j as nat, true, v3).len() - base,
            prev,
            key,
            v3,
            want,
        ) == Ok::<Option<EntryV>, ErrV>(
            first_rid(stored_all(bl.subrange(j, e), v3), key, want),
        ),
    decreases e - j,
{
    let n = bl.len();
    let pos = body_bytes(bl, n, j as nat, true, v3).len() - base;
    let part = stored_all(bl.subrange(j, e), v3);
    if j < e {
        let x = bl[j];
        let shared = shared_at(bl, n, j, true);
        let p = pos + 4 + x.key.len() - shared;
        let q = pos + entry_size(x, shared, v3);
        let b = BodyV {
            value: x.value,
            seq: x.seq,
            flags: x.flags,
            replica_id: stored(x, v3).replica_id,
        };
        assert(shared <= x.key.len() && shared <= prev.len() && prev.take(shared as int)
            == x.key.take(shared as int)) by {
            lemma_shared_prefix(bl, n, j, true);
            assert(prev.take(0) =~= x.key.take(0));
        }
        assert(has_at(s, pos, entry_bytes(x, shared, v3)));
        assert(p_key(s, pos, prev) == Ok::<(Seq<u8>, int), ErrV>((x.key, p))) by {
            lemma_p_key(s, pos, x, shared, v3, prev);
        }
        assert(p_body(s, p, v3) == Ok::<(BodyV, int), ErrV>((b, q))) by {
            lemma_p_body(s, pos, x, shared, v3);
        }
        assert(0 <= pos < s.len() && q == body_bytes(bl, n, (j + 1) as nat, true, v3).len()
            - base) by {
            lemma_entry_place(bl, n, e as nat, j, true, v3);
        }
        lemma_find_step(s, pos, prev, key, v3, want, x.key, p, b, q);
        assert(part.len() > 0 && part[0] == stored(x, v3));
        assert(part.skip(1) =~= stored_all(bl.subrange(j + 1, e), v3));
        if lex_lt(key, x.key) {
            lemma_order_part(bl, j, e);
            assert(bl.subrange(j, e)[0] == x);
            lemma_none_after(bl.subrange(j, e), key, v3, want);
        } else {
            lemma_find(s, bl, base, j + 1, e, x.key, key, v3, want);
            assert(entry_of(x.key, b) == stored(x, v3));
        }
    } else {
        assert(part =~= seq![]);
    }
}

/// One step of a search.
proof fn lemma_find_step(
    s: Seq<u8>,
    pos: int,
    prev: Seq<u8>,
    key: Seq<u8>,
    v3: bool,
    want: Option<ReplicaId>,
    k: Seq<u8>,
    p: int,
    b: BodyV,
    q: int,
)
    requires
        0 <= pos < s.len(),
        p_key(s, pos, prev) == Ok::<(Seq<u8>, int), ErrV>((k, p)),
        p_body(s, p, v3) == Ok::<(BodyV, int), ErrV>((b, q)),
    ensures
        find_from(s, pos, prev, key, v3, want) == (if lex_lt(key, k) {
            Ok::<Option<EntryV>, ErrV>(None)
        } else if k == key && rid_matches(want, b.replica_id) {
            Ok(Some(entry_of(k, b)))
        } else {
            find_from(s, q, k, key, v3, want)
        }),
{
}

/// Past the key nothing matches.
proof fn lemma_none_after(es: Seq<EntryV>, key: Seq<u8>, v3: bool, want: Option<ReplicaId>)
    requires
        in_order(es),
        es.len() > 0 ==> lex_lt(key, es[0].key),
    ensures
        first_rid(stored_all(es, v3), key, want) is None,
    decreases es.len(),
{
    let st = stored_all(es, v3);
    if es.len() > 0 {
        lemma_lex_irreflexive(key);
        assert(st[0].key == es[0].key);
        if es.len() > 1 {
            assert(comes_first(es[0], es[1]));
            if lex_lt(es[0].key, es[1].key) {
                lemma_lex_trans(key, es[0].key, es[1].key);
            }
        }
        let rest = es.skip(1);
        assert forall|i: int, j: int|
            #![trigger rest[i], rest[j]]
            0 <= i < j < rest.len() implies comes_first(rest[i], rest[j]) by {
            assert(comes_first(es[i + 1], es[j + 1]));
        }
        lemma_none_after(rest, key, v3, want);
        assert(st.skip(1) =~= stored_all(rest, v3));
    }
}

/// Before the key nothing matches.
pub proof fn lemma_none_before(es: Seq<EntryV>, key: Seq<u8>, want: Option<ReplicaId>)
    requires
        forall|i: int| 0 <= i < es.len() ==> (#[trigger] es[i]).key != key,
    ensures
        first_rid(es, key, want) is None,
    decreases es.len(),
{
    if es.len() > 0 {
        assert(es[0].key != key);
        assert forall|i: int| 0 <= i < es.skip(1).len() implies (#[trigger] es.skip(1)[i]).key
            != key by {
            assert(es.skip(1)[i] == es[i + 1]);
        }
        lemma_none_before(es.skip(1), key, want);
    }
}

/// The first match of a whole is that of its first part, or else of the rest.
pub proof fn lemma_first_split(
    a: Seq<EntryV>,
    b: Seq<EntryV>,
    key: Seq<u8>,
    want: Option<ReplicaId>,
)
    ensures
        first_rid(a + b, key, want) == (match first_rid(a, key, want) {
            Some(e) => Some(e),
            None => first_rid(b, key, want),
        }),
    decreases a.len(),
{
    if a.len() == 0 {
        assert(a + b =~= b);
    } else {
        assert((a + b).skip(1) =~= a.skip(1) + b);
        lemma_first_split(a.skip(1), b, key, want);
    }
}

/// A piece of ordered entries is ordered.
pub proof fn lemma_order_part(es: Seq<EntryV>, i: int, j: int)
    requires
        in_order(es),
        0 <= i <= j <= es.len(),
    ensures
        in_order(es.subrange(i, j)),
{
    let p = es.subrange(i, j);
    assert forall|x: int, y: int| #![trigger p[x], p[y]] 0 <= x < y < p.len() implies comes_first(
        p[x],
        p[y],
    ) by {
        assert(comes_first(es[i + x], es[i + y]));
    }
}

/// Where interval `r` (of the restarts before it, `r` of them) ends.
spec fn interval_end(bl: Seq<EntryV>, r: int) -> int {
    let rs = restarts(bl, bl.len(), true);
    if r < rs.len() {
        rs[r]
    } else {
        bl.len() as int
    }
}

/// A search in the interval before restart `r` finds the first match in it.
proof fn lemma_interval(
    bl: Seq<EntryV>,
    v3: bool,
    key: Seq<u8>,
    want: Option<ReplicaId>,
    r: int,
    start: int,
    end: int,
)
    requires
        block_fits(bl, true, v3),
        in_order(bl),
        0 < r <= restarts(bl, bl.len(), true).len(),
        start == restart_off(block_payload(bl, bl.len(), true, v3), r - 1),
        end == (if r < restarts(bl, bl.len(), true).len() {
            restart_off(block_payload(bl, bl.len(), true, v3), r)
        } else {
            block_payload(bl, bl.len(), true, v3).len() as int
        }),
    ensures
        start <= end,
        find_from(
            block_payload(bl, bl.len(), true, v3).subrange(start, end),
            0,
            seq![],
            key,
            v3,
            want,
        ) == Ok::<Option<EntryV>, ErrV>(
            first_rid(
                stored_all(
                    bl.subrange(restarts(bl, bl.len(), true)[r - 1], interval_end(bl, r)),
                    v3,
                ),
                key,
                want,
            ),
        ),
{
    let n = bl.len();
    let p = block_payload(bl, n, true, v3);
    let rs = restarts(bl, n, true);
    let cnt = rs.len() as int;
    let t = 6 + 4 * cnt;
    let body = body_bytes(bl, n, n, true, v3);
    let h = rs[r - 1];
    let e = interval_end(bl, r);
    let off_h = body_bytes(bl, n, h as nat, true, v3).len() as int;
    let off_e = body_bytes(bl, n, e as nat, true, v3).len() as int;
    lemma_payload_parts(bl, v3);
    lemma_restarts(bl, n, true);
    if r < cnt {
        lemma_restart_order(bl, n, r - 1, r);
    }
    assert(start == t + off_h) by {
        assert(restart_pos(bl, n, r - 1, v3) == t + off_h);
    }
    assert(end == t + off_e) by {
        if r < cnt {
            assert(restart_pos(bl, n, r, v3) == t + off_e);
        }
    }
    lemma_body_mono(bl, n, h as nat, e as nat, v3);
    lemma_body_mono(bl, n, e as nat, n, v3);
    let s = p.subrange(start, end);
    assert(s =~= body.subrange(off_h, off_e)) by {
        assert forall|x: int| 0 <= x < s.len() implies s[x] == body[off_h + x] by {
            assert(p.skip(t)[off_h + x] == body[off_h + x]);
        }
    }
    assert forall|i: int| #![trigger bl[i]] h <= i < e implies has_at(
        s,
        body_bytes(bl, n, i as nat, true, v3).len() - off_h,
        entry_bytes(bl[i], shared_at(bl, n, i, true), v3),
    ) by {
        lemma_entry_in_part(bl, n, i, h, e, v3);
    }
    assert(is_full(bl, n, h, true)) by {
        assert(rs.contains(h));
    }
    lemma_find(s, bl, off_h as nat, h, e, seq![], key, v3, want);
}

proof fn lemma_entry_in_part(bl: Seq<EntryV>, n: nat, i: int, h: int, e: int, v3: bool)
    requires
        n == bl.len(),
        0 <= h <= i < e <= n,
    ensures
        has_at(
            body_bytes(bl, n, n, true, v3).subrange(
                body_bytes(bl, n, h as nat, true, v3).len() as int,
                body_bytes(bl, n, e as nat, true, v3).len() as int,
            ),
            body_bytes(bl, n, i as nat, true, v3).len() - body_bytes(bl, n, h as nat, true, v3).len(),
            entry_bytes(bl[i], shared_at(bl, n, i, true), v3),
        ),
{
    let body = body_bytes(bl, n, n, true, v3);
    let off_h = body_bytes(bl, n, h as nat, true, v3).len() as int;
    let off_e = body_bytes(bl, n, e as nat, true, v3).len() as int;
    let at = body_bytes(bl, n, i as nat, true, v3).len() as int;
    let eb = entry_bytes(bl[i], shared_at(bl, n, i, true), v3);
    lemma_entry_place(bl, n, n, i, true, v3);
    lemma_body_mono(bl, n, h as nat, i as nat, v3);
    lemma_body_mono(bl, n, (i + 1) as nat, e as nat, v3);
    lemma_body_mono(bl, n, e as nat, n, v3);
    lemma_shared_le(bl, n, i, true);
    lemma_entry_len(bl[i], shared_at(bl, n, i, true), v3);
    reveal(has_at);
    assert(body.subrange(off_h, off_e).subrange(at - off_h, at - off_h + eb.len())
        =~= body.subrange(at, at + eb.len()));
}

/// Nothing outside the interval matches.
proof fn lemma_outside(
    bl: Seq<EntryV>,
    v3: bool,
    key: Seq<u8>,
    want: Option<ReplicaId>,
    h: int,
    e: int,
)
    requires
        in_order(bl),
        0 <= h <= e <= bl.len(),
        forall|i: int| 0 <= i < h ==> (#[trigger] bl[i]).key != key,
        e < bl.len() ==> lex_lt(key, bl[e].key),
    ensures
        first_rid(stored_all(bl, v3), key, want) == first_rid(
            stored_all(bl.subrange(h, e), v3),
            key,
            want,
        ),
{
    let n = bl.len() as int;
    let pre = stored_all(bl.subrange(0, h), v3);
    let mid = stored_all(bl.subrange(h, e), v3);
    let post = stored_all(bl.subrange(e, n), v3);
    assert forall|i: int| 0 <= i < pre.len() implies (#[trigger] pre[i]).key != key by {
        assert(bl[i].key != key);
    }
    lemma_none_before(pre, key, want);
    lemma_order_part(bl, e, n);
    lemma_none_after(bl.subrange(e, n), key, v3, want);
    assert(stored_all(bl, v3) =~= pre + (mid + post));
    lemma_first_split(pre, mid + post, key, want);
    lemma_first_split(mid, post, key, want);
}

/// A lookup in a written block finds the first entry of the key (and of the
/// wanted replica).
pub proof fn block_lookup_finds(
    bl: Seq<EntryV>,
    v3: bool,
    key: Seq<u8>,
    want: Option<ReplicaId>,
)
    requires
        block_fits(bl, true, v3),
        in_order(bl),
    ensures
        block_find(block_payload(bl, bl.len(), true, v3), key, v3, want) == Ok::<
            Option<EntryV>,
            ErrV,
        >(first_rid(stored_all(bl, v3), key, want)),
{
    let n = bl.len();
    let p = block_payload(bl, n, true, v3);
    let rs = restarts(bl, n, true);
    let cnt = rs.len() as int;
    let t = 6 + 4 * cnt;
    let ks = keys_at(bl, rs);
    assert(p_table_len(p) == Ok::<int, ErrV>(t) && 0 < cnt) by {
        lemma_payload_parts(bl, v3);
    }
    assert(restart_keys(p, t, cnt as nat) == Ok::<Seq<Seq<u8>>, ErrV>(ks)) by {
        lemma_all_restarts(bl, v3, rs.len());
        assert(rs.take(cnt) =~= rs);
    }
    lemma_restart_keys(p, t, rs.len());
    let r = count_le(ks, key) as int;
    lemma_count_bounds(ks, key);
    lemma_restarts(bl, n, true);
    lemma_dues(bl, n, true);
    assert(rs[0] == 0) by {
        assert(run_head(bl, 0) == 0);
    }
    if r == 0 {
        assert(ks[0] == bl[0].key);
        lemma_none_after(bl, key, v3, want);
    } else {
        let h = rs[r - 1];
        let e = interval_end(bl, r);
        let start = restart_off(p, r - 1);
        let end = if r < cnt {
            restart_off(p, r)
        } else {
            p.len() as int
        };
        lemma_interval(bl, v3, key, want, r, start, end);
        assert(ks[r - 1] == bl[h].key);
        if r < cnt {
            lemma_restart_order(bl, n, r - 1, r);
            assert(ks[r] == bl[e].key);
        }
        assert forall|i: int| 0 <= i < h implies (#[trigger] bl[i]).key != key by {
            lemma_dues_head(bl, n, r - 1, i);
            if lex_lt(bl[h].key, key) {
                lemma_lex_trans(bl[i].key, bl[h].key, key);
            }
            lemma_lex_irreflexive(key);
        }
        lemma_outside(bl, v3, key, want, h, e);
    }
}

/// The search among the restarts ends behind restarts that do not come after
/// `start`.
proof fn lemma_seek(bl: Seq<EntryV>, v3: bool, start: Seq<u8>, lo: int, hi: int)
    requires
        block_fits(bl, true, v3),
        0 <= lo <= hi <= restarts(bl, bl.len(), true).len(),
        lo > 0 ==> lex_le(bl[restarts(bl, bl.len(), true)[lo - 1]].key, start),
    ensures
        ({
            let p = block_payload(bl, bl.len(), true, v3);
            let rs = restarts(bl, bl.len(), true);
            match seek_probe(p, 6 + 4 * rs.len() as int, start, lo, hi) {
                Ok(r) => lo <= r <= hi && (r > 0 ==> lex_le(bl[rs[r - 1]].key, start)),
                Err(_) => false,
            }
        }),
    decreases hi - lo,
{
    if lo < hi {
        let mid = (lo + hi) / 2;
        let k = bl[restarts(bl, bl.len(), true)[mid]].key;
        lemma_restart_at(bl, v3, mid);
        if lex_le(k, start) {
            lemma_seek(bl, v3, start, mid + 1, hi);
        } else {
            lemma_seek(bl, v3, start, lo, mid);
        }
    }
}

/// Where the entries of a payload begin.
pub open spec fn body_start(bl: Seq<EntryV>, v2: bool) -> int {
    if v2 {
        6 + 4 * restarts(bl, bl.len(), true).len() as int
    } else {
        0
    }
}

/// Decoding from `start` on begins at an entry with its full key, `h`; the
/// entries before it come before `start`.
pub open spec fn seeks_to(bl: Seq<EntryV>, v2: bool, v3: bool, start: Seq<u8>, h: int) -> bool {
    &&& 0 <= h < bl.len()
    &&& is_full(bl, bl.len(), h, v2)
    &&& seek_pos(block_payload(bl, bl.len(), v2, v3), v2, start) == Ok::<int, ErrV>(
        body_start(bl, v2) + body_bytes(bl, bl.len(), h as nat, v2, v3).len(),
    )
    &&& forall|i: int| 0 <= i < h ==> lex_lt((#[trigger] bl[i]).key, start)
}

/// A seek in a written block passes over entries before `start` only.
pub proof fn lemma_seek_lands(bl: Seq<EntryV>, v2: bool, v3: bool, start: Seq<u8>) -> (h: int)
    requires
        block_fits(bl, v2, v3),
        in_order(bl),
    ensures
        seeks_to(bl, v2, v3, start, h),
{
    let n = bl.len();
    if v2 {
        let p = block_payload(bl, n, true, v3);
        let rs = restarts(bl, n, true);
        let t = 6 + 4 * rs.len() as int;
        lemma_payload_parts(bl, v3);
        lemma_restarts(bl, n, true);
        lemma_dues(bl, n, true);
        assert(rs[0] == 0) by {
            assert(run_head(bl, 0) == 0);
        }
        lemma_seek(bl, v3, start, 0, rs.len() as int);
        let lo = seek_probe(p, t, start, 0, rs.len() as int)->Ok_0;
        let r = if lo == 0 {
            0
        } else {
            lo - 1
        };
        let h = rs[r];
        assert(restart_off(p, r) == restart_pos(bl, n, r, v3));
        assert forall|i: int| 0 <= i < h implies lex_lt((#[trigger] bl[i]).key, start) by {
            lemma_dues_head(bl, n, r, i);
            if bl[h].key != start {
                lemma_lex_trans(bl[i].key, bl[h].key, start);
            }
        }
        h
    } else {
        0
    }
}

/// The entries of a payload end with it.
pub proof fn lemma_payload_len(bl: Seq<EntryV>, v2: bool, v3: bool)
    requires
        block_fits(bl, v2, v3),
    ensures
        block_payload(bl, bl.len(), v2, v3).len() == body_start(bl, v2) + body_bytes(
            bl,
            bl.len(),
            bl.len(),
            v2,
            v3,
        ).len(),
{
    if v2 {
        lemma_payload_parts(bl, v3);
    }
}

/// Entry `j` of a written block reads back at its place in the payload.
pub proof fn lemma_entry_at(
    bl: Seq<EntryV>,
    v2: bool,
    v3: bool,
    j: int,
    prev: Seq<u8>,
)
    requires
        block_fits(bl, v2, v3),
        0 <= j < bl.len(),
        is_full(bl, bl.len(), j, v2) || (j > 0 && prev == bl[j - 1].key),
    ensures
        ({
            let n = bl.len();
            let p = block_payload(bl, n, v2, v3);
            let pos = body_start(bl, v2) + body_bytes(bl, n, j as nat, v2, v3).len();
            let next = body_start(bl, v2) + body_bytes(bl, n, (j + 1) as nat, v2, v3).len();
            let rest = p.skip(pos);
            let x = bl[j];
            let at = 4 + x.key.len() - shared_at(bl, n, j, v2);
            &&& 0 <= pos < next <= p.len()
            &&& p_key(rest, 0, prev) == Ok::<(Seq<u8>, int), ErrV>((x.key, at))
            &&& p_body(rest, at, v3) == Ok::<(BodyV, int), ErrV>(
                (
                    BodyV {
                        value: x.value,
                        seq: x.seq,
                        flags: x.flags,
                        replica_id: stored(x, v3).replica_id,
                    },
                    next - pos,
                ),
            )
        }),
{
    let n = bl.len();
    let p = block_payload(bl, n, v2, v3);
    let body = body_bytes(bl, n, n, v2, v3);
    let before = body_bytes(bl, n, j as nat, v2, v3).len() as int;
    let pos = body_start(bl, v2) + before;
    let rest = p.skip(pos);
    let x = bl[j];
    let shared = shared_at(bl, n, j, v2);
    if v2 {
        lemma_payload_parts(bl, v3);
    } else {
        assert(p.skip(0) =~= p);
    }
    assert(p.skip(body_start(bl, v2)) == body);
    assert(p.len() == body_start(bl, v2) + body.len());
    lemma_entry_place(bl, n, n, j, v2, v3);
    let eb = entry_bytes(x, shared, v3);
    assert(has_at(rest, 0, eb)) by {
        reveal(has_at);
        assert(rest.subrange(0, eb.len() as int) =~= body.subrange(before, before + eb.len()));
    }
    assert(shared <= x.key.len() && shared <= prev.len() && prev.take(shared as int)
        == x.key.take(shared as int)) by {
        lemma_shared_prefix(bl, n, j, v2);
        assert(prev.take(0) =~= x.key.take(0));
    }
    assert(entry_fits(bl[j]));
    lemma_p_key(rest, 0, x, shared, v3, prev);
    lemma_p_body(rest, 0, x, shared, v3);
}

/// Entries before a restart have strictly smaller keys.
proof fn lemma_dues_head(bl: Seq<EntryV>, n: nat, j: int, i: int)
    requires
        in_order(bl),
        n <= bl.len(),
        0 <= j < restarts(bl, n, true).len(),
        0 <= i < restarts(bl, n, true)[j],
    ensures
        lex_lt(bl[i].key, bl[restarts(bl, n, true)[j]].key),
{
    lemma_restarts(bl, n, true);
    lemma_dues(bl, n, true);
    let d = dues(bl, n, true)[j];
    let h = restarts(bl, n, true)[j];
    lemma_run_head(bl, d);
    lemma_keys_ascend(bl, i, h - 1);
    assert(comes_first(bl[h - 1], bl[h]));
    if lex_lt(bl[i].key, bl[h - 1].key) {
        lemma_lex_trans(bl[i].key, bl[h - 1].key, bl[h].key);
    }
}

proof fn lemma_body_mono(es: Seq<EntryV>, n: nat, i: nat, j: nat, v3: bool)
    requires
        i <= j,
    ensures
        body_bytes(es, n, i, true, v3).len() <= body_bytes(es, n, j, true, v3).len(),
    decreases j,
{
    if i < j {
        lemma_body_mono(es, n, i, (j - 1) as nat, v3);
    }
}

/// The count splits increasing keys.
proof fn lemma_count_bounds(keys: Seq<Seq<u8>>, key: Seq<u8>)
    requires
        increasing(keys),
    ensures
        count_le(keys, key) <= keys.len(),
        count_le(keys, key) > 0 ==> lex_le(keys[count_le(keys, key) - 1], key),
        count_le(keys, key) < keys.len() ==> lex_lt(key, keys[count_le(keys, key) as int]),
    decreases keys.len(),
{
    if keys.len() > 0 {
        lemma_lex_total(keys.last(), key);
        if !lex_le(keys.last(), key) {
            lemma_count_bounds(keys.drop_last(), key);
        }
    }
}

} // verus!
