//! What was written to a segment is what is read from it.

use crate::codec::{
    lemma_lex_irreflexive, lemma_lex_total, lemma_lex_trans, lex_le, lex_lt,
};
use crate::format::{ck8, lemma_has_is, lemma_has_split, ErrV};
use crate::identity::replica_id::ReplicaId;
use crate::segment::block::block_payload;
use crate::segment::block_laws::{
    block_decodes, block_fits, block_lookup_finds, first_rid, lemma_first_split, lemma_keys_ascend,
    lemma_none_before, lemma_order_part, stored_all,
};
use crate::segment::entry::EntryV;
use crate::segment::lookup::rid_matches;
use crate::segment::open::{BlockV, BLOCK_DATA};
use crate::segment::open_laws::{flat, lemma_block_place, seg_fits, written};
use crate::segment::block_laws::stored;
use crate::segment::read::{
    all_from, bit_on, block_at, block_entry_count_of, block_head, bloom_has, first_block, first_of,
    hashes_of, in_range, of_key, of_range, part_point, payload_at, probe_bit, rid_from, scan_from,
    seg_entry_at, seg_get, seg_get_rid, seg_scan, seg_versions, versions_from,
};
use crate::segment::write::{
    anchor_add, anchors_in, anchors_of, block_head_bytes, bloom_bits, bloom_size, data_version,
    head_bytes, in_order, lemma_block_bytes_len, with_bit, with_probes, SegmentAnchor,
};
use vstd::prelude::*;

verus! {

/// The entries of the blocks from `i` on.
pub open spec fn tail(blocks: Seq<Seq<EntryV>>, i: int) -> Seq<EntryV>
    decreases blocks.len() - i,
{
    if 0 <= i < blocks.len() {
        blocks[i] + tail(blocks, i + 1)
    } else {
        seq![]
    }
}

pub proof fn lemma_flat_tail(blocks: Seq<Seq<EntryV>>, i: int)
    requires
        0 <= i <= blocks.len(),
    ensures
        flat(blocks, blocks.len()) == flat(blocks, i as nat) + tail(blocks, i),
    decreases blocks.len() - i,
{
    if i < blocks.len() {
        lemma_flat_tail(blocks, i + 1);
        assert(flat(blocks, i as nat) + blocks[i] + tail(blocks, i + 1) =~= flat(blocks, i as nat)
            + (blocks[i] + tail(blocks, i + 1)));
    } else {
        assert(flat(blocks, i as nat) + tail(blocks, i) =~= flat(blocks, i as nat));
    }
}

/// A written segment of ordered entries.
pub open spec fn good(es: Seq<EntryV>, blocks: Seq<Seq<EntryV>>, v2: bool, v3: bool) -> bool {
    seg_fits(es, blocks, v2, v3) && in_order(es)
}

/// The blocks of ordered entries are ordered, and so are they among each
/// other.
pub proof fn lemma_pieces(es: Seq<EntryV>, blocks: Seq<Seq<EntryV>>, v2: bool, v3: bool, i: int)
    requires
        good(es, blocks, v2, v3),
        0 <= i < blocks.len(),
    ensures
        in_order(blocks[i]),
        blocks[i].len() > 0,
        in_order(tail(blocks, i)),
        forall|j: int|
            0 <= j < flat(blocks, i as nat).len() ==> lex_le(
                (#[trigger] flat(blocks, i as nat)[j]).key,
                blocks[i][0].key,
            ),
        forall|j: int|
            0 <= j < tail(blocks, i + 1).len() ==> lex_le(
                blocks[i].last().key,
                (#[trigger] tail(blocks, i + 1)[j]).key,
            ),
{
    lemma_flat_tail(blocks, i);
    lemma_flat_tail(blocks, i + 1);
    let f = flat(blocks, i as nat);
    let bl = blocks[i];
    let t = tail(blocks, i + 1);
    assert(block_fits(blocks[i], v2, v3));
    let a = f.len() as int;
    assert(es =~= f + bl + t);
    assert(bl =~= es.subrange(a, a + bl.len()));
    assert(tail(blocks, i) =~= es.subrange(a, es.len() as int));
    lemma_order_part(es, a, a + bl.len());
    lemma_order_part(es, a, es.len() as int);
    assert forall|j: int| 0 <= j < f.len() implies lex_le((#[trigger] f[j]).key, bl[0].key) by {
        lemma_keys_ascend(es, j, a);
        assert(es[j] == f[j]);
        assert(es[a] == bl[0]);
    }
    assert forall|j: int| 0 <= j < t.len() implies lex_le(
        bl.last().key,
        (#[trigger] t[j]).key,
    ) by {
        lemma_keys_ascend(es, a + bl.len() - 1, a + bl.len() + j);
        assert(es[a + bl.len() - 1] == bl.last());
        assert(es[a + bl.len() + j] == t[j]);
    }
}

/// Block `i` reads as it was written.
pub proof fn lemma_block_reads(es: Seq<EntryV>, blocks: Seq<Seq<EntryV>>, v2: bool, v3: bool, i: int)
    requires
        seg_fits(es, blocks, v2, v3),
        0 <= i < blocks.len(),
    ensures
        payload_at(written(es, blocks, v2, v3), i) == Ok::<Seq<u8>, ErrV>(
            block_payload(blocks[i], blocks[i].len(), v2, v3),
        ),
        block_at(written(es, blocks, v2, v3), i) == Ok::<Seq<EntryV>, ErrV>(
            stored_all(blocks[i], v3),
        ),
{
    let s = written(es, blocks, v2, v3);
    let b = s.bytes;
    let bl = blocks[i];
    let p = block_payload(bl, bl.len(), v2, v3);
    let n = bl.len() as u32;
    let ver = data_version(v2, v3);
    let head = block_head_bytes(BLOCK_DATA, n, p.len(), ver);
    let h = head_bytes(es, blocks.len()).len() as int;
    let at = s.data[i].header;
    assert(block_fits(blocks[i], v2, v3));
    crate::segment::open_laws::lemma_data_place(es, blocks, v2, v3);
    lemma_block_place(b, h, blocks, blocks.len(), i, v2, v3);
    lemma_block_bytes_len(BLOCK_DATA, n, p, ver);
    lemma_has_split(b, at, head + ck8(head + p), p);
    lemma_has_split(b, at, head, ck8(head + p));
    lemma_has_is(b, at, head);
    lemma_has_is(b, at + 20, ck8(head + p));
    lemma_has_is(b, at + 28, p);
    reveal(block_at);
    crate::segment::open_laws::lemma_block_count(bl, v2, v3);
    block_decodes(bl, v2, v3, i as nat);
}

/// The head of `key` in block `i`.
proof fn lemma_block_head(
    es: Seq<EntryV>,
    blocks: Seq<Seq<EntryV>>,
    v2: bool,
    v3: bool,
    i: int,
    key: Seq<u8>,
)
    requires
        good(es, blocks, v2, v3),
        0 <= i < blocks.len(),
    ensures
        block_head(written(es, blocks, v2, v3), i, key) == Ok::<Option<EntryV>, ErrV>(
            first_rid(stored_all(blocks[i], v3), key, None),
        ),
{
    lemma_block_reads(es, blocks, v2, v3, i);
    lemma_pieces(es, blocks, v2, v3, i);
    assert(block_fits(blocks[i], v2, v3));
    if v2 {
        block_lookup_finds(blocks[i], v3, key, None);
    } else {
        lemma_first_same(stored_all(blocks[i], v3), key);
    }
}

pub proof fn lemma_first_same(es: Seq<EntryV>, key: Seq<u8>)
    ensures
        first_of(es, key) == first_rid(es, key, None),
    decreases es.len(),
{
    if es.len() > 0 {
        lemma_first_same(es.skip(1), key);
    }
}

/// The search lands on the first block that does not end before the key.
proof fn lemma_part(data: Seq<BlockV>, key: Seq<u8>, lo: int, hi: int)
    requires
        0 <= lo <= hi <= data.len(),
        forall|i: int, j: int|
            #![trigger data[i], data[j]]
            0 <= i < j < data.len() ==> lex_le(data[i].last, data[j].last),
        forall|i: int| 0 <= i < lo ==> lex_lt((#[trigger] data[i]).last, key),
        hi < data.len() ==> !lex_lt(data[hi].last, key),
    ensures
        ({
            let r = part_point(data, key, lo, hi);
            &&& lo <= r <= hi
            &&& forall|i: int| 0 <= i < r ==> lex_lt((#[trigger] data[i]).last, key)
            &&& (r < data.len() ==> !lex_lt(data[r].last, key))
        }),
    decreases hi - lo,
{
    if lo < hi {
        let mid = lo + (hi - lo) / 2;
        if lex_lt(data[mid].last, key) {
            assert forall|i: int| 0 <= i < mid + 1 implies lex_lt(
                (#[trigger] data[i]).last,
                key,
            ) by {
                if i < mid && data[i].last != data[mid].last {
                    assert(lex_le(data[i].last, data[mid].last));
                    lemma_lex_trans(data[i].last, data[mid].last, key);
                }
            }
            lemma_part(data, key, mid + 1, hi);
        } else {
            lemma_part(data, key, lo, mid);
        }
    }
}

pub proof fn lemma_first_block(
    es: Seq<EntryV>,
    blocks: Seq<Seq<EntryV>>,
    v2: bool,
    v3: bool,
    key: Seq<u8>,
)
    requires
        good(es, blocks, v2, v3),
    ensures
        ({
            let i = first_block(written(es, blocks, v2, v3), key);
            &&& 0 <= i <= blocks.len()
            &&& forall|j: int| 0 <= j < i ==> lex_lt((#[trigger] blocks[j]).last().key, key)
            &&& (i < blocks.len() ==> lex_le(key, blocks[i].last().key))
            &&& forall|j: int|
                0 <= j < flat(blocks, i as nat).len() ==> lex_lt(
                    (#[trigger] flat(blocks, i as nat)[j]).key,
                    key,
                )
        }),
{
    let s = written(es, blocks, v2, v3);
    assert forall|i: int, j: int|
        #![trigger s.data[i], s.data[j]]
        0 <= i < j < s.data.len() implies lex_le(s.data[i].last, s.data[j].last) by {
        lemma_pieces(es, blocks, v2, v3, i);
        lemma_pieces(es, blocks, v2, v3, j);
        lemma_in_tail(blocks, i + 1, j);
    }
    lemma_part(s.data, key, 0, s.data.len() as int);
    let i = first_block(s, key);
    assert forall|j: int| 0 <= j < i implies lex_lt((#[trigger] blocks[j]).last().key, key) by {
        assert(lex_lt(s.data[j].last, key));
    }
    if i < blocks.len() {
        assert(!lex_lt(s.data[i].last, key));
        lemma_lex_total(s.data[i].last, key);
    }
    let f = flat(blocks, i as nat);
    assert forall|j: int| 0 <= j < f.len() implies lex_lt((#[trigger] f[j]).key, key) by {
        lemma_flat_tail(blocks, i);
        assert(i > 0) by {
            if i == 0 {
                assert(f =~= seq![]);
            }
        }
        let last = blocks[i - 1].last();
        lemma_pieces(es, blocks, v2, v3, i - 1);
        assert(f.last() == last);
        assert(es[j] == f[j]);
        assert(es[f.len() - 1] == last);
        lemma_keys_ascend(es, j, f.len() - 1);
        assert(lex_lt(blocks[i - 1].last().key, key));
        if f[j].key != last.key {
            lemma_lex_trans(f[j].key, last.key, key);
        }
    }
}

/// The last entry of a later block is among the entries from an earlier one.
proof fn lemma_in_tail(blocks: Seq<Seq<EntryV>>, i: int, j: int)
    requires
        0 <= i <= j < blocks.len(),
        blocks[j].len() > 0,
    ensures
        exists|x: int|
            0 <= x < tail(blocks, i).len() && #[trigger] tail(blocks, i)[x] == blocks[j].last(),
    decreases j - i,
{
    let t = tail(blocks, i);
    if i == j {
        assert(t[blocks[j].len() - 1] == blocks[j].last());
    } else {
        lemma_in_tail(blocks, i + 1, j);
        let x = choose|x: int|
            0 <= x < tail(blocks, i + 1).len() && #[trigger] tail(blocks, i + 1)[x]
                == blocks[j].last();
        assert(t[blocks[i].len() + x] == blocks[j].last());
    }
}

/// Keys past `key` do not match.
proof fn lemma_none_past(es: Seq<EntryV>, key: Seq<u8>, bound: Seq<u8>, want: Option<ReplicaId>)
    requires
        lex_lt(key, bound),
        forall|j: int| 0 <= j < es.len() ==> lex_le(bound, (#[trigger] es[j]).key),
    ensures
        first_rid(es, key, want) is None,
{
    assert forall|j: int| 0 <= j < es.len() implies (#[trigger] es[j]).key != key by {
        if es[j].key != bound {
            lemma_lex_trans(key, bound, es[j].key);
        }
        lemma_lex_irreflexive(key);
    }
    lemma_none_before(es, key, want);
}

/// Only the blocks from the first that does not end before the key can hold
/// it.
proof fn lemma_skip_front(
    es: Seq<EntryV>,
    blocks: Seq<Seq<EntryV>>,
    v2: bool,
    v3: bool,
    key: Seq<u8>,
    want: Option<ReplicaId>,
)
    requires
        good(es, blocks, v2, v3),
    ensures
        first_rid(stored_all(es, v3), key, want) == first_rid(
            stored_all(tail(blocks, first_block(written(es, blocks, v2, v3), key)), v3),
            key,
            want,
        ),
{
    let i = first_block(written(es, blocks, v2, v3), key);
    lemma_first_block(es, blocks, v2, v3, key);
    lemma_flat_tail(blocks, i);
    let f = stored_all(flat(blocks, i as nat), v3);
    let t = stored_all(tail(blocks, i), v3);
    assert forall|j: int| 0 <= j < f.len() implies (#[trigger] f[j]).key != key by {
        assert(lex_lt(flat(blocks, i as nat)[j].key, key));
        lemma_lex_irreflexive(key);
    }
    lemma_none_before(f, key, want);
    assert(stored_all(es, v3) =~= f + t);
    lemma_first_split(f, t, key, want);
}

/// A segment answers with the newest version of a key: the first that was
/// written for it, in order; and with nothing where none was.
pub proof fn get_finds_what_was_written(
    es: Seq<EntryV>,
    blocks: Seq<Seq<EntryV>>,
    v2: bool,
    v3: bool,
    key: Seq<u8>,
)
    requires
        good(es, blocks, v2, v3),
    ensures
        seg_get(written(es, blocks, v2, v3), key) == Ok::<Option<EntryV>, ErrV>(
            first_of(stored_all(es, v3), key),
        ),
{
    let s = written(es, blocks, v2, v3);
    let i = first_block(s, key);
    lemma_first_block(es, blocks, v2, v3, key);
    lemma_skip_front(es, blocks, v2, v3, key, None);
    lemma_first_same(stored_all(es, v3), key);
    if i < blocks.len() {
        let bl = blocks[i];
        lemma_pieces(es, blocks, v2, v3, i);
        let t = tail(blocks, i + 1);
        assert(stored_all(tail(blocks, i), v3) =~= stored_all(bl, v3) + stored_all(t, v3));
        lemma_first_split(stored_all(bl, v3), stored_all(t, v3), key, None);
        lemma_lex_total(bl[0].key, key);
        if lex_le(bl[0].key, key) {
            lemma_block_head(es, blocks, v2, v3, i, key);
            if bl.last().key == key {
                lemma_has_match(stored_all(bl, v3), bl.len() - 1, key);
            } else {
                lemma_none_past(stored_all(t, v3), key, bl.last().key, None);
            }
        } else {
            assert forall|j: int| 0 <= j < stored_all(bl, v3).len() implies lex_le(
                bl[0].key,
                (#[trigger] stored_all(bl, v3)[j]).key,
            ) by {
                lemma_keys_ascend(bl, 0, j);
            }
            lemma_none_past(stored_all(bl, v3), key, bl[0].key, None);
            lemma_keys_ascend(bl, 0, bl.len() - 1);
            if bl[0].key != bl.last().key {
                lemma_lex_trans(key, bl[0].key, bl.last().key);
            }
            lemma_none_past(stored_all(t, v3), key, bl.last().key, None);
        }
    } else {
        assert(stored_all(tail(blocks, i), v3) =~= seq![]);
    }
}

pub proof fn lemma_has_match(es: Seq<EntryV>, j: int, key: Seq<u8>)
    requires
        0 <= j < es.len(),
        es[j].key == key,
    ensures
        first_rid(es, key, None) is Some,
    decreases es.len(),
{
    if es[0].key != key {
        assert(es.skip(1)[j - 1] == es[j]);
        lemma_has_match(es.skip(1), j - 1, key);
    }
}

proof fn lemma_rid_from(
    es: Seq<EntryV>,
    blocks: Seq<Seq<EntryV>>,
    key: Seq<u8>,
    rid: ReplicaId,
    i: int,
)
    requires
        good(es, blocks, true, true),
        0 <= i < blocks.len(),
    ensures
        lex_le(key, blocks[i].last().key) ==> rid_from(
            written(es, blocks, true, true),
            i,
            key,
            rid,
        ) == Ok::<Option<EntryV>, ErrV>(first_rid(tail(blocks, i), key, Some(rid))),
    decreases blocks.len() - i,
{
    let s = written(es, blocks, true, true);
    let bl = blocks[i];
    let t = tail(blocks, i + 1);
    if lex_le(key, bl.last().key) {
        lemma_block_reads(es, blocks, true, true, i);
        lemma_pieces(es, blocks, true, true, i);
        assert(block_fits(blocks[i], true, true));
        block_lookup_finds(bl, true, key, Some(rid));
        assert(stored_all(bl, true) =~= bl);
        lemma_first_split(bl, t, key, Some(rid));
        if bl.last().key == key {
            if i + 1 < blocks.len() {
                lemma_pieces(es, blocks, true, true, i + 1);
                lemma_rid_from(es, blocks, key, rid, i + 1);
                assert(t[blocks[i + 1].len() - 1] == blocks[i + 1].last());
            } else {
                assert(t =~= seq![]);
            }
        } else {
            lemma_none_past(t, key, bl.last().key, Some(rid));
        }
    }
}

/// A segment that keeps replicas answers for a replica with its newest row of
/// the key, and never with a row of another replica.
pub proof fn get_by_rid_finds_the_replica(
    es: Seq<EntryV>,
    blocks: Seq<Seq<EntryV>>,
    key: Seq<u8>,
    rid: ReplicaId,
)
    requires
        good(es, blocks, true, true),
    ensures
        seg_get_rid(written(es, blocks, true, true), key, rid) == Ok::<Option<EntryV>, ErrV>(
            first_rid(es, key, Some(rid)),
        ),
        first_rid(es, key, Some(rid)) matches Some(e) ==> e.replica_id == rid && e.key == key,
{
    let s = written(es, blocks, true, true);
    let i = first_block(s, key);
    lemma_first_block(es, blocks, true, true, key);
    lemma_skip_front(es, blocks, true, true, key, Some(rid));
    assert(stored_all(es, true) =~= es);
    assert(stored_all(tail(blocks, i), true) =~= tail(blocks, i));
    lemma_first_is(es, key, Some(rid));
    if i < blocks.len() {
        let bl = blocks[i];
        lemma_pieces(es, blocks, true, true, i);
        lemma_lex_total(bl[0].key, key);
        if lex_le(bl[0].key, key) {
            lemma_rid_from(es, blocks, key, rid, i);
        } else {
            let t = tail(blocks, i);
            assert forall|j: int| 0 <= j < t.len() implies lex_le(
                bl[0].key,
                (#[trigger] t[j]).key,
            ) by {
                lemma_keys_ascend(t, 0, j);
                assert(t[0] == bl[0]);
            }
            lemma_none_past(t, key, bl[0].key, Some(rid));
        }
    } else {
        assert(tail(blocks, i) =~= seq![]);
    }
}

proof fn lemma_first_is(es: Seq<EntryV>, key: Seq<u8>, want: Option<ReplicaId>)
    ensures
        first_rid(es, key, want) matches Some(e) ==> rid_matches(want, e.replica_id) && e.key
            == key,
    decreases es.len(),
{
    if es.len() > 0 {
        lemma_first_is(es.skip(1), key, want);
    }
}

// ---------------------------------------------------------------------------
// Versions, ranges, everything
proof fn lemma_of_key_split(a: Seq<EntryV>, b: Seq<EntryV>, key: Seq<u8>)
    ensures
        of_key(a + b, key) == of_key(a, key) + of_key(b, key),
    decreases b.len(),
{
    if b.len() == 0 {
        assert(a + b =~= a);
        assert(of_key(a, key) + of_key(b, key) =~= of_key(a, key));
    } else {
        assert((a + b).drop_last() =~= a + b.drop_last());
        lemma_of_key_split(a, b.drop_last(), key);
        assert(of_key(a + b, key) =~= of_key(a, key) + of_key(b, key));
    }
}

proof fn lemma_of_key_none(es: Seq<EntryV>, key: Seq<u8>)
    requires
        forall|j: int| 0 <= j < es.len() ==> (#[trigger] es[j]).key != key,
    ensures
        of_key(es, key) == Seq::<EntryV>::empty(),
    decreases es.len(),
{
    if es.len() > 0 {
        assert(es[es.len() - 1].key != key);
        assert forall|j: int| 0 <= j < es.drop_last().len() implies (#[trigger] es.drop_last()[j]).key
            != key by {
            assert(es.drop_last()[j] == es[j]);
        }
        lemma_of_key_none(es.drop_last(), key);
    }
}

proof fn lemma_of_range_split(a: Seq<EntryV>, b: Seq<EntryV>, start: Seq<u8>, end: Seq<u8>)
    ensures
        of_range(a + b, start, end) == of_range(a, start, end) + of_range(b, start, end),
    decreases b.len(),
{
    if b.len() == 0 {
        assert(a + b =~= a);
        assert(of_range(a, start, end) + of_range(b, start, end) =~= of_range(a, start, end));
    } else {
        assert((a + b).drop_last() =~= a + b.drop_last());
        lemma_of_range_split(a, b.drop_last(), start, end);
        assert(of_range(a + b, start, end) =~= of_range(a, start, end) + of_range(b, start, end));
    }
}

proof fn lemma_of_range_none(es: Seq<EntryV>, start: Seq<u8>, end: Seq<u8>)
    requires
        forall|j: int| 0 <= j < es.len() ==> !in_range((#[trigger] es[j]).key, start, end),
    ensures
        of_range(es, start, end) == Seq::<EntryV>::empty(),
    decreases es.len(),
{
    if es.len() > 0 {
        assert(!in_range(es[es.len() - 1].key, start, end));
        assert forall|j: int| 0 <= j < es.drop_last().len() implies !in_range(
            (#[trigger] es.drop_last()[j]).key,
            start,
            end,
        ) by {
            assert(es.drop_last()[j] == es[j]);
        }
        lemma_of_range_none(es.drop_last(), start, end);
    }
}

proof fn lemma_versions_from(
    es: Seq<EntryV>,
    blocks: Seq<Seq<EntryV>>,
    v2: bool,
    v3: bool,
    key: Seq<u8>,
    i: int,
)
    requires
        good(es, blocks, v2, v3),
        0 <= i <= blocks.len(),
    ensures
        versions_from(written(es, blocks, v2, v3), i, key) == Ok::<Seq<EntryV>, ErrV>(
            of_key(stored_all(tail(blocks, i), v3), key),
        ),
    decreases blocks.len() - i,
{
    let s = written(es, blocks, v2, v3);
    if i < blocks.len() {
        let bl = blocks[i];
        lemma_pieces(es, blocks, v2, v3, i);
        lemma_lex_total(bl[0].key, key);
        assert(s.data[i].first == bl[0].key);
        let t = tail(blocks, i);
        if lex_le(bl[0].key, key) {
            lemma_versions_from(es, blocks, v2, v3, key, i + 1);
            lemma_block_reads(es, blocks, v2, v3, i);
            let rest = stored_all(tail(blocks, i + 1), v3);
            assert(stored_all(t, v3) =~= stored_all(bl, v3) + rest);
            lemma_of_key_split(stored_all(bl, v3), rest, key);
        } else {
            let st = stored_all(t, v3);
            assert forall|j: int| 0 <= j < st.len() implies (#[trigger] st[j]).key != key by {
                lemma_keys_ascend(t, 0, j);
                assert(t[0] == bl[0]);
                if t[j].key != bl[0].key {
                    lemma_lex_trans(key, bl[0].key, t[j].key);
                }
                lemma_lex_irreflexive(key);
            }
            lemma_of_key_none(st, key);
        }
    } else {
        assert(stored_all(tail(blocks, i), v3) =~= seq![]);
    }
}

/// A segment gives back every version of a key, newest first.
pub proof fn versions_gives_every_version(
    es: Seq<EntryV>,
    blocks: Seq<Seq<EntryV>>,
    v2: bool,
    v3: bool,
    key: Seq<u8>,
)
    requires
        good(es, blocks, v2, v3),
    ensures
        seg_versions(written(es, blocks, v2, v3), key) == Ok::<Seq<EntryV>, ErrV>(
            of_key(stored_all(es, v3), key),
        ),
{
    let s = written(es, blocks, v2, v3);
    let i = first_block(s, key);
    lemma_first_block(es, blocks, v2, v3, key);
    lemma_flat_tail(blocks, i);
    let f = stored_all(flat(blocks, i as nat), v3);
    let t = stored_all(tail(blocks, i), v3);
    assert(stored_all(es, v3) =~= f + t);
    lemma_of_key_split(f, t, key);
    assert forall|j: int| 0 <= j < f.len() implies (#[trigger] f[j]).key != key by {
        assert(lex_lt(flat(blocks, i as nat)[j].key, key));
        lemma_lex_irreflexive(key);
    }
    lemma_of_key_none(f, key);
    assert(of_key(f, key) + of_key(t, key) =~= of_key(t, key));
    lemma_versions_from(es, blocks, v2, v3, key, i);
    if i < blocks.len() {
        lemma_lex_total(blocks[i][0].key, key);
    }
}

proof fn lemma_scan_from(
    es: Seq<EntryV>,
    blocks: Seq<Seq<EntryV>>,
    v2: bool,
    v3: bool,
    start: Seq<u8>,
    end: Seq<u8>,
    i: int,
)
    requires
        good(es, blocks, v2, v3),
        0 <= i <= blocks.len(),
    ensures
        scan_from(written(es, blocks, v2, v3), i, start, end) == Ok::<Seq<EntryV>, ErrV>(
            of_range(stored_all(tail(blocks, i), v3), start, end),
        ),
    decreases blocks.len() - i,
{
    let s = written(es, blocks, v2, v3);
    if i < blocks.len() {
        let bl = blocks[i];
        lemma_pieces(es, blocks, v2, v3, i);
        assert(s.data[i].first == bl[0].key);
        let t = tail(blocks, i);
        if lex_lt(bl[0].key, end) {
            lemma_scan_from(es, blocks, v2, v3, start, end, i + 1);
            lemma_block_reads(es, blocks, v2, v3, i);
            let rest = stored_all(tail(blocks, i + 1), v3);
            assert(stored_all(t, v3) =~= stored_all(bl, v3) + rest);
            lemma_of_range_split(stored_all(bl, v3), rest, start, end);
        } else {
            let st = stored_all(t, v3);
            assert forall|j: int| 0 <= j < st.len() implies !in_range(
                (#[trigger] st[j]).key,
                start,
                end,
            ) by {
                lemma_keys_ascend(t, 0, j);
                assert(t[0] == bl[0]);
                if lex_lt(t[j].key, end) && t[j].key != bl[0].key {
                    lemma_lex_trans(bl[0].key, t[j].key, end);
                }
            }
            lemma_of_range_none(st, start, end);
        }
    } else {
        assert(stored_all(tail(blocks, i), v3) =~= seq![]);
    }
}

/// A segment gives back the entries of a range, in order, and no others.
pub proof fn scan_gives_the_range(
    es: Seq<EntryV>,
    blocks: Seq<Seq<EntryV>>,
    v2: bool,
    v3: bool,
    start: Seq<u8>,
    end: Seq<u8>,
)
    requires
        good(es, blocks, v2, v3),
    ensures
        seg_scan(written(es, blocks, v2, v3), start, end) == Ok::<Seq<EntryV>, ErrV>(
            of_range(stored_all(es, v3), start, end),
        ),
{
    let s = written(es, blocks, v2, v3);
    let i = first_block(s, start);
    lemma_first_block(es, blocks, v2, v3, start);
    lemma_flat_tail(blocks, i);
    let f = stored_all(flat(blocks, i as nat), v3);
    let t = stored_all(tail(blocks, i), v3);
    assert(stored_all(es, v3) =~= f + t);
    lemma_of_range_split(f, t, start, end);
    assert forall|j: int| 0 <= j < f.len() implies !in_range(
        (#[trigger] f[j]).key,
        start,
        end,
    ) by {
        assert(lex_lt(flat(blocks, i as nat)[j].key, start));
        lemma_lex_total(flat(blocks, i as nat)[j].key, start);
    }
    lemma_of_range_none(f, start, end);
    assert(of_range(f, start, end) + of_range(t, start, end) =~= of_range(t, start, end));
    lemma_scan_from(es, blocks, v2, v3, start, end, i);
}

proof fn lemma_all_from(
    es: Seq<EntryV>,
    blocks: Seq<Seq<EntryV>>,
    v2: bool,
    v3: bool,
    i: int,
)
    requires
        seg_fits(es, blocks, v2, v3),
        0 <= i <= blocks.len(),
    ensures
        all_from(written(es, blocks, v2, v3), i) == Ok::<Seq<EntryV>, ErrV>(
            stored_all(tail(blocks, i), v3),
        ),
    decreases blocks.len() - i,
{
    if i < blocks.len() {
        lemma_all_from(es, blocks, v2, v3, i + 1);
        lemma_block_reads(es, blocks, v2, v3, i);
        assert(stored_all(tail(blocks, i), v3) =~= stored_all(blocks[i], v3) + stored_all(
            tail(blocks, i + 1),
            v3,
        ));
    } else {
        assert(stored_all(tail(blocks, i), v3) =~= seq![]);
    }
}

/// A segment gives back every entry that was written, in order.
pub proof fn segment_keeps_every_entry(
    es: Seq<EntryV>,
    blocks: Seq<Seq<EntryV>>,
    v2: bool,
    v3: bool,
)
    requires
        seg_fits(es, blocks, v2, v3),
    ensures
        all_from(written(es, blocks, v2, v3), 0) == Ok::<Seq<EntryV>, ErrV>(stored_all(es, v3)),
{
    lemma_all_from(es, blocks, v2, v3, 0);
    lemma_flat_tail(blocks, 0);
    assert(flat(blocks, 0) + tail(blocks, 0) =~= tail(blocks, 0));
}

// ---------------------------------------------------------------------------
// The filter
proof fn lemma_bit_set(byte: u8, k: u8, j: u8)
    by (bit_vector)
    requires
        k < 8,
        j < 8,
    ensures
        (byte | (1u8 << k)) & (1u8 << k) != 0,
        byte & (1u8 << j) != 0 ==> (byte | (1u8 << k)) & (1u8 << j) != 0,
{
}

/// Setting a bit sets it, and clears none.
proof fn lemma_with_bit(bits: Seq<u8>, k: int, j: int)
    requires
        0 <= k,
        k / 8 < bits.len(),
        0 <= j,
        j / 8 < bits.len(),
    ensures
        bit_on(with_bit(bits, k), k),
        bit_on(bits, j) ==> bit_on(with_bit(bits, k), j),
{
    lemma_bit_set(bits[k / 8], (k % 8) as u8, (j % 8) as u8);
}

proof fn lemma_with_probes(bits: Seq<u8>, h: (u64, u64), i: nat, m: int, j: int)
    requires
        m > 0,
        bits.len() == (m + 7) / 8,
        0 <= j < m,
        bit_on(bits, j) || exists|x: int| 0 <= x < i && probe_bit(h.0, h.1, x, m) == j,
    ensures
        bit_on(with_probes(bits, h, i, m), j),
        with_probes(bits, h, i, m).len() == bits.len(),
    decreases i,
{
    if i > 0 {
        let front = with_probes(bits, h, (i - 1) as nat, m);
        let k = probe_bit(h.0, h.1, i - 1, m);
        assert(0 <= k < m);
        lemma_probes_size(bits, h, (i - 1) as nat, m);
        lemma_with_bit(front, k, j);
        if j != k {
            lemma_with_probes(bits, h, (i - 1) as nat, m, j);
        }
    }
}

proof fn lemma_probes_size(bits: Seq<u8>, h: (u64, u64), i: nat, m: int)
    requires
        m > 0,
        bits.len() == (m + 7) / 8,
    ensures
        with_probes(bits, h, i, m).len() == bits.len(),
    decreases i,
{
    if i > 0 {
        lemma_probes_size(bits, h, (i - 1) as nat, m);
        assert(0 <= probe_bit(h.0, h.1, i - 1, m) < m);
    }
}

/// The filter never denies a key that was written.
pub proof fn bloom_denies_no_written_key(es: Seq<EntryV>, n: nat, j: int)
    requires
        0 <= j < n <= es.len(),
    ensures
        bloom_has(
            bloom_bits(es, n, bloom_size(es)),
            bloom_size(es),
            hashes_of(es[j].key).0,
            hashes_of(es[j].key).1,
        ),
    decreases n,
{
    let m = bloom_size(es);
    let h = hashes_of(es[j].key);
    let front = bloom_bits(es, (n - 1) as nat, m);
    let last = hashes_of(es[n - 1].key);
    crate::segment::open_laws::lemma_bloom_len(es, (n - 1) as nat, m);
    if j < n - 1 {
        bloom_denies_no_written_key(es, (n - 1) as nat, j);
    }
    assert forall|i: int| 0 <= i < 4 implies bit_on(
        bloom_bits(es, n, m),
        #[trigger] probe_bit(h.0, h.1, i, m),
    ) by {
        lemma_with_probes(front, last, 4, m, probe_bit(h.0, h.1, i, m));
    }
}

// ---------------------------------------------------------------------------
// Anchors
/// An anchor of the first `k` blocks, the last of them up to entry `n`.
spec fn anchored(
    blocks: Seq<Seq<EntryV>>,
    m: Map<u64, SegmentAnchor>,
    block: int,
    n: int,
) -> bool {
    &&& forall|r: u64| #[trigger]
        m.contains_key(r) ==> r != 0 && m[r].block_id.0 <= block && points(blocks, m[r], r)
    &&& forall|i: int, j: int|
        #![trigger blocks[i][j]]
        0 <= i <= block && 0 <= j < blocks[i].len() && (i < block || j < n)
            && blocks[i][j].replica_id.0 != 0 ==> m.contains_key(blocks[i][j].replica_id.0)
            && blocks[i][j].seq <= m[blocks[i][j].replica_id.0].seq
}

/// An anchor names a block and an offset at which the replica's row of its
/// sequence stands.
pub open spec fn points(blocks: Seq<Seq<EntryV>>, a: SegmentAnchor, r: u64) -> bool {
    &&& a.replica_id.0 == r
    &&& a.block_id.0 < blocks.len()
    &&& a.entry_offset < blocks[a.block_id.0 as int].len()
    &&& blocks[a.block_id.0 as int][a.entry_offset as int].replica_id.0 == r
    &&& blocks[a.block_id.0 as int][a.entry_offset as int].seq == a.seq
}

proof fn lemma_anchors_in(
    blocks: Seq<Seq<EntryV>>,
    m: Map<u64, SegmentAnchor>,
    block: int,
    n: nat,
)
    requires
        0 <= block < blocks.len() <= u32::MAX,
        blocks[block].len() <= u32::MAX,
        n <= blocks[block].len(),
        anchored(blocks, m, block, 0),
    ensures
        anchored(blocks, anchors_in(m, blocks[block], block, n), block, n as int),
    decreases n,
{
    if n > 0 {
        lemma_anchors_in(blocks, m, block, (n - 1) as nat);
        let a = anchors_in(m, blocks[block], block, (n - 1) as nat);
        let e = blocks[block][n - 1];
        let b = anchor_add(a, e, block, n - 1);
        assert forall|r: u64| #[trigger] b.contains_key(r) implies r != 0 && b[r].block_id.0
            <= block && points(blocks, b[r], r) by {
            if r != e.replica_id.0 {
                assert(a.contains_key(r));
            } else if a.contains_key(r) && e.seq <= a[r].seq {
                assert(b == a);
            }
        }
        assert forall|i: int, j: int|
            #![trigger blocks[i][j]]
            0 <= i <= block && 0 <= j < blocks[i].len() && (i < block || j < n)
                && blocks[i][j].replica_id.0 != 0 implies b.contains_key(
            blocks[i][j].replica_id.0,
        ) && blocks[i][j].seq <= b[blocks[i][j].replica_id.0].seq by {
            let x = blocks[i][j];
            if i == block && j == n - 1 {
            } else {
                assert(a.contains_key(x.replica_id.0) && x.seq <= a[x.replica_id.0].seq);
            }
        }
    }
}

/// Every replica with rows in a segment has one anchor, which points at its
/// row of the highest sequence; rows of no replica have none.
pub proof fn anchors_point_at_newest_rows(blocks: Seq<Seq<EntryV>>, k: nat)
    requires
        k <= blocks.len() <= u32::MAX,
        forall|i: int| 0 <= i < blocks.len() ==> (#[trigger] blocks[i]).len() <= u32::MAX,
    ensures
        forall|r: u64| #[trigger]
            anchors_of(blocks, k).contains_key(r) ==> r != 0 && points(
                blocks,
                anchors_of(blocks, k)[r],
                r,
            ),
        forall|i: int, j: int|
            #![trigger blocks[i][j]]
            0 <= i < k && 0 <= j < blocks[i].len() && blocks[i][j].replica_id.0 != 0
                ==> anchors_of(blocks, k).contains_key(blocks[i][j].replica_id.0)
                && blocks[i][j].seq <= anchors_of(blocks, k)[blocks[i][j].replica_id.0].seq,
    decreases k,
{
    if k > 0 {
        anchors_point_at_newest_rows(blocks, (k - 1) as nat);
        let m = anchors_of(blocks, (k - 1) as nat);
        lemma_anchor_blocks(blocks, (k - 1) as nat);
        assert(anchored(blocks, m, k - 1, 0));
        assert(blocks[k - 1].len() <= u32::MAX);
        lemma_anchors_in(blocks, m, k - 1, blocks[k - 1].len());
    }
}

/// Anchors of the first `k` blocks lie in them.
proof fn lemma_anchor_blocks(blocks: Seq<Seq<EntryV>>, k: nat)
    requires
        k <= blocks.len() <= u32::MAX,
    ensures
        forall|r: u64| #[trigger]
            anchors_of(blocks, k).contains_key(r) ==> anchors_of(blocks, k)[r].block_id.0 < k,
    decreases k,
{
    if k > 0 {
        lemma_anchor_blocks(blocks, (k - 1) as nat);
        lemma_anchor_block_in(
            anchors_of(blocks, (k - 1) as nat),
            blocks[k - 1],
            k - 1,
            blocks[k - 1].len(),
        );
    }
}

proof fn lemma_anchor_block_in(
    m: Map<u64, SegmentAnchor>,
    bl: Seq<EntryV>,
    block: int,
    n: nat,
)
    requires
        0 <= block < u32::MAX,
        forall|r: u64| #[trigger] m.contains_key(r) ==> m[r].block_id.0 <= block,
    ensures
        forall|r: u64| #[trigger]
            anchors_in(m, bl, block, n).contains_key(r) ==> anchors_in(
                m,
                bl,
                block,
                n,
            )[r].block_id.0 <= block,
    decreases n,
{
    if n > 0 {
        lemma_anchor_block_in(m, bl, block, (n - 1) as nat);
        let a = anchors_in(m, bl, block, (n - 1) as nat);
        let e = bl[n - 1];
        let b = anchor_add(a, e, block, n - 1);
        assert forall|r: u64| #[trigger] b.contains_key(r) implies b[r].block_id.0 <= block by {
            if r != e.replica_id.0 {
                assert(a.contains_key(r));
            } else if a.contains_key(r) && e.seq <= a[r].seq {
                assert(b == a);
            }
        }
    }
}

/// A place, a block and an offset in it, holds the entry that was written
/// there; a place past the end of its block, or past the last block, holds
/// none. Each block says how many entries it has.
pub proof fn places_hold_what_was_written(
    es: Seq<EntryV>,
    blocks: Seq<Seq<EntryV>>,
    v2: bool,
    v3: bool,
    block: u32,
    offset: u32,
)
    requires
        seg_fits(es, blocks, v2, v3),
    ensures
        ({
            let s = written(es, blocks, v2, v3);
            let there = block < blocks.len() && offset < blocks[block as int].len();
            &&& there ==> seg_entry_at(s, block, offset) == Ok::<Option<EntryV>, ErrV>(
                Some(stored(blocks[block as int][offset as int], v3)),
            )
            &&& !there ==> seg_entry_at(s, block, offset) == Ok::<Option<EntryV>, ErrV>(None)
            &&& block < blocks.len() ==> block_entry_count_of(s, block) is Some
                && block_entry_count_of(s, block)->0 == blocks[block as int].len()
            &&& block >= blocks.len() ==> block_entry_count_of(s, block) is None
        }),
{
    let s = written(es, blocks, v2, v3);
    assert(s.data.len() == blocks.len());
    if block < blocks.len() {
        lemma_block_reads(es, blocks, v2, v3, block as int);
        assert(block_fits(blocks[block as int], v2, v3));
        crate::segment::open_laws::lemma_block_count(blocks[block as int], v2, v3);
    }
}

} // verus!
