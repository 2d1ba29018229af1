//! A written segment opens as what was written.

use crate::codec::{le, lemma_le_len, lemma_pow256, lemma_un_le_le, un_le};
use crate::format::{
    ck8, has_at, lemma_has_all, lemma_has_is, lemma_has_split, lemma_p_u16, lemma_p_u32,
    lemma_p_u64, ErrV,
};
use crate::segment::block::{block_payload, body_bytes, lemma_block_len, block_len, split};
use crate::segment::block_laws::{block_fits, entry_fits, lemma_entry_place};
use crate::segment::entry::EntryV;
use crate::segment::open::{
    at_footer, known_block, p_bloom, p_head, p_head_end, p_index, p_index_entry, seg_footer,
    seg_rest, segment_of, skeleton, total_entries, walk_add, walk_from, walk_start, walk_step,
    BlockV, HeadV, SegV, WalkV, BLOCK_BLOOM, BLOCK_DATA, BLOCK_INDEX, BLOCK_MAGIC, FOOTER_MAGIC,
    SEGMENT_MAGIC, SEGMENT_VERSION,
};
use crate::segment::write::{
    block_bytes, block_head_bytes, blocks_bytes, bloom_bits, bloom_block, bloom_payload, bloom_size,
    data_block, data_bytes, data_heads, data_version, foot_body, head_body, head_bytes, index_block,
    index_bytes, index_entry, lemma_block_bytes_len, max_seq, min_seq, skeleton_bytes, with_probes,
};
use vstd::prelude::*;

verus! {

/// The entries of the first `k` blocks.
pub open spec fn flat(blocks: Seq<Seq<EntryV>>, k: nat) -> Seq<EntryV>
    decreases k,
{
    if k == 0 {
        seq![]
    } else {
        flat(blocks, (k - 1) as nat) + blocks[k - 1]
    }
}

/// A segment whose counts and lengths fit their fields.
pub open spec fn seg_fits(es: Seq<EntryV>, blocks: Seq<Seq<EntryV>>, v2: bool, v3: bool) -> bool {
    &&& v3 ==> v2
    &&& es.len() > 0
    &&& 10 * es.len() <= u32::MAX
    &&& flat(blocks, blocks.len()) == es
    &&& 0 < blocks.len() <= u32::MAX
    &&& forall|i: int| 0 <= i < blocks.len() ==> block_fits(#[trigger] blocks[i], v2, v3)
    &&& index_bytes(
        blocks,
        blocks.len(),
        head_bytes(es, blocks.len()).len(),
        v2,
        v3,
    ).len() <= u32::MAX
    &&& blocks_bytes(es, blocks, v2, v3).len() <= u64::MAX
}

/// Data block `i` of a written segment.
pub open spec fn written_block(
    es: Seq<EntryV>,
    blocks: Seq<Seq<EntryV>>,
    v2: bool,
    v3: bool,
    i: int,
) -> BlockV {
    BlockV {
        header: (head_bytes(es, blocks.len()).len() + data_bytes(blocks, i as nat, v2, v3).len())
            as int,
        payload_len: block_payload(blocks[i], blocks[i].len(), v2, v3).len() as int,
        entries: blocks[i].len() as u32,
        v2,
        v3,
        first: blocks[i][0].key,
        last: blocks[i].last().key,
    }
}

/// A written segment, open.
pub open spec fn written(
    es: Seq<EntryV>,
    blocks: Seq<Seq<EntryV>>,
    v2: bool,
    v3: bool,
) -> SegV {
    SegV {
        bytes: blocks_bytes(es, blocks, v2, v3),
        block_count: blocks.len() as u32,
        entry_count: es.len() as u64,
        key_min: es[0].key,
        key_max: es.last().key,
        seq_lo: min_seq(es),
        seq_hi: max_seq(es),
        data: Seq::new(blocks.len(), |i: int| written_block(es, blocks, v2, v3, i)),
        bits: bloom_bits(es, es.len(), bloom_size(es)),
        bloom_m: bloom_size(es) as u32,
    }
}

// ---------------------------------------------------------------------------
// Header
proof fn lemma_seq_bounds(es: Seq<EntryV>)
    requires
        es.len() > 0,
    ensures
        min_seq(es) <= max_seq(es),
        forall|i: int| 0 <= i < es.len() ==> min_seq(es) <= (#[trigger] es[i]).seq <= max_seq(es),
    decreases es.len(),
{
    if es.len() > 1 {
        lemma_seq_bounds(es.drop_last());
        assert forall|i: int| 0 <= i < es.len() implies min_seq(es) <= (#[trigger] es[i]).seq
            <= max_seq(es) by {
            if i < es.len() - 1 {
                assert(es.drop_last()[i] == es[i]);
            }
        }
    }
}

/// The sequences of a segment lie between the two that its header states.
pub proof fn header_bounds_sequences(es: Seq<EntryV>, i: int)
    requires
        0 <= i < es.len(),
    ensures
        min_seq(es) <= es[i].seq <= max_seq(es),
{
    lemma_seq_bounds(es);
}

proof fn lemma_u32_at(b: Seq<u8>, pos: int, x: u32)
    requires
        has_at(b, pos, le(x as nat, 4)),
    ensures
        un_le(b.subrange(pos, pos + 4)) == x,
        0 <= pos,
        pos + 4 <= b.len(),
{
    lemma_le_len(x as nat, 4);
    lemma_has_is(b, pos, le(x as nat, 4));
    lemma_pow256();
    lemma_un_le_le(x as nat, 4);
}

proof fn lemma_u16_at(b: Seq<u8>, pos: int, x: u16)
    requires
        has_at(b, pos, le(x as nat, 2)),
    ensures
        un_le(b.subrange(pos, pos + 2)) == x,
        0 <= pos,
        pos + 2 <= b.len(),
{
    lemma_le_len(x as nat, 2);
    lemma_has_is(b, pos, le(x as nat, 2));
    lemma_pow256();
    lemma_un_le_le(x as nat, 2);
}

proof fn lemma_u64_at(b: Seq<u8>, pos: int, x: u64)
    requires
        has_at(b, pos, le(x as nat, 8)),
    ensures
        un_le(b.subrange(pos, pos + 8)) == x,
        0 <= pos,
        pos + 8 <= b.len(),
{
    lemma_le_len(x as nat, 8);
    lemma_has_is(b, pos, le(x as nat, 8));
    lemma_pow256();
    lemma_un_le_le(x as nat, 8);
}

proof fn lemma_head_len(es: Seq<EntryV>, n: nat)
    ensures
        head_body(es, n).len() == 42 + es[0].key.len() + es.last().key.len(),
{
    lemma_le_len(SEGMENT_VERSION as nat, 2);
    lemma_le_len((n as u32) as nat, 4);
    lemma_le_len((es.len() as u64) as nat, 8);
    lemma_le_len((es[0].key.len() as u32) as nat, 4);
    lemma_le_len((es.last().key.len() as u32) as nat, 4);
    lemma_le_len(min_seq(es) as nat, 8);
    lemma_le_len(max_seq(es) as nat, 8);
}

proof fn lemma_head(b: Seq<u8>, es: Seq<EntryV>, n: nat)
    requires
        0 < es.len() <= u32::MAX,
        n <= u32::MAX,
        es[0].key.len() <= u32::MAX,
        es.last().key.len() <= u32::MAX,
        has_at(b, 0, head_bytes(es, n)),
    ensures
        p_head(b) == Ok::<HeadV, ErrV>(
            HeadV {
                block_count: n as u32,
                entry_count: es.len() as u64,
                key_min: es[0].key,
                key_max: es.last().key,
                seq_lo: min_seq(es),
                seq_hi: max_seq(es),
                len: head_bytes(es, n).len() as int,
            },
        ),
{
    let body = head_body(es, n);
    let k1 = es[0].key;
    let k2 = es.last().key;
    let w1 = SEGMENT_MAGIC@;
    let w2 = w1 + le(SEGMENT_VERSION as nat, 2);
    let w3 = w2 + le((n as u32) as nat, 4);
    let w4 = w3 + le((es.len() as u64) as nat, 8);
    let w5 = w4 + le((k1.len() as u32) as nat, 4);
    let w6 = w5 + k1;
    let w7 = w6 + le((k2.len() as u32) as nat, 4);
    let w8 = w7 + k2;
    let w9 = w8 + le(min_seq(es) as nat, 8);
    lemma_head_len(es, n);
    lemma_le_len(SEGMENT_VERSION as nat, 2);
    lemma_le_len((n as u32) as nat, 4);
    lemma_le_len((es.len() as u64) as nat, 8);
    lemma_le_len((k1.len() as u32) as nat, 4);
    lemma_le_len((k2.len() as u32) as nat, 4);
    lemma_le_len(min_seq(es) as nat, 8);
    lemma_has_is(b, 0, head_bytes(es, n));
    lemma_has_split(b, 0, body, ck8(body));
    lemma_has_split(b, 0, w9, le(max_seq(es) as nat, 8));
    lemma_has_split(b, 0, w8, le(min_seq(es) as nat, 8));
    lemma_has_split(b, 0, w7, k2);
    lemma_has_split(b, 0, w6, le((k2.len() as u32) as nat, 4));
    lemma_has_split(b, 0, w5, k1);
    lemma_has_split(b, 0, w4, le((k1.len() as u32) as nat, 4));
    lemma_has_split(b, 0, w3, le((es.len() as u64) as nat, 8));
    lemma_has_split(b, 0, w2, le((n as u32) as nat, 4));
    lemma_has_split(b, 0, w1, le(SEGMENT_VERSION as nat, 2));
    lemma_has_is(b, 0, w1);
    lemma_u16_at(b, 4, SEGMENT_VERSION);
    lemma_u32_at(b, 6, n as u32);
    lemma_u64_at(b, 10, es.len() as u64);
    lemma_u32_at(b, 18, k1.len() as u32);
    lemma_has_is(b, 22, k1);
    let n1 = k1.len() as int;
    let n2 = k2.len() as int;
    lemma_p_u32(b, 22 + n1, k2.len() as u32);
    lemma_has_is(b, 26 + n1, k2);
    let p = 26 + n1 + n2;
    lemma_u64_at(b, p, min_seq(es));
    lemma_u64_at(b, p + 8, max_seq(es));
    lemma_has_is(b, p + 16, ck8(body));
    lemma_has_is(b, 0, body);
    assert(b.take(p + 16) =~= body);
    lemma_seq_bounds(es);
    assert(p_head_end(b, k1, k2) is Ok);
}

// ---------------------------------------------------------------------------
// Blocks
/// A written block is met by the walk as it was written.
proof fn lemma_walk_block(
    b: Seq<u8>,
    pos: int,
    w: WalkV,
    kind: u8,
    entries: u32,
    payload: Seq<u8>,
    version: u16,
)
    requires
        has_at(b, pos, block_bytes(kind, entries, payload, version)),
        payload.len() <= u32::MAX,
        kind <= BLOCK_BLOOM,
        w.last_kind is Some ==> kind >= w.last_kind->0,
        known_block(version, kind),
    ensures
        !at_footer(b, pos),
        walk_step(b, pos, w) == (match walk_add(
            b,
            pos,
            w,
            version,
            kind,
            entries,
            payload.len() as int,
        ) {
            Ok(w2) => Ok::<(WalkV, int), ErrV>((w2, pos + 28 + payload.len())),
            Err(e) => Err(e),
        }),
        pos + 28 + payload.len() <= b.len(),
        0 <= pos,
        b.subrange(pos, pos + 28) == block_bytes(kind, entries, payload, version).take(28),
        b.subrange(pos + 28, pos + 28 + payload.len()) == payload,
        un_le(b.subrange(pos + 8, pos + 12)) == entries,
        b.subrange(pos, pos + 20) == block_head_bytes(kind, entries, payload.len(), version),
        b.subrange(pos + 20, pos + 28) == ck8(
            block_head_bytes(kind, entries, payload.len(), version) + payload,
        ),
{
    let head = block_head_bytes(kind, entries, payload.len(), version);
    let whole = block_bytes(kind, entries, payload, version);
    let c = ck8(head + payload);
    let w1 = BLOCK_MAGIC@;
    let w2 = w1 + le(version as nat, 2);
    let w3 = w2 + seq![kind];
    let w4 = w3 + seq![0u8];
    let w5 = w4 + le(entries as nat, 4);
    let w6 = w5 + le((payload.len() as u32) as nat, 4);
    lemma_block_bytes_len(kind, entries, payload, version);
    lemma_le_len(version as nat, 2);
    lemma_le_len(entries as nat, 4);
    lemma_le_len((payload.len() as u32) as nat, 4);
    lemma_has_is(b, pos, whole);
    lemma_has_split(b, pos, head + c, payload);
    lemma_has_is(b, pos + 28, payload);
    lemma_has_split(b, pos, head, c);
    lemma_has_is(b, pos, head);
    lemma_has_is(b, pos + 20, c);
    lemma_has_split(b, pos, w6, le((payload.len() as u32) as nat, 4));
    lemma_has_split(b, pos, w5, le((payload.len() as u32) as nat, 4));
    lemma_has_split(b, pos, w4, le(entries as nat, 4));
    lemma_has_split(b, pos, w3, seq![0u8]);
    lemma_has_split(b, pos, w2, seq![kind]);
    lemma_has_split(b, pos, w1, le(version as nat, 2));
    lemma_has_is(b, pos, w1);
    lemma_u16_at(b, pos + 4, version);
    lemma_has_is(b, pos + 6, seq![kind]);
    assert(b.subrange(pos + 6, pos + 7)[0] == b[pos + 6]);
    lemma_has_is(b, pos + 7, seq![0u8]);
    assert(b.subrange(pos + 7, pos + 8)[0] == b[pos + 7]);
    lemma_u32_at(b, pos + 8, entries);
    lemma_u32_at(b, pos + 12, payload.len() as u32);
    assert(b.subrange(pos, pos + 28) =~= whole.take(28)) by {
        assert(b.subrange(pos, pos + whole.len()).take(28) =~= b.subrange(pos, pos + 28));
    }
    assert(BLOCK_MAGIC@[2] != FOOTER_MAGIC@[2]);
}

proof fn lemma_block_room(bl: Seq<EntryV>, v2: bool, v3: bool)
    requires
        block_fits(bl, v2, v3),
    ensures
        bl.len() <= block_payload(bl, bl.len(), v2, v3).len() / 17,
        bl.len() <= u32::MAX,
{
    lemma_body_room(bl, bl.len(), bl.len(), v2, v3);
}

proof fn lemma_body_room(es: Seq<EntryV>, n: nat, k: nat, v2: bool, v3: bool)
    requires
        k <= n,
    ensures
        17 * k <= body_bytes(es, n, k, v2, v3).len(),
    decreases k,
{
    if k > 0 {
        lemma_body_room(es, n, (k - 1) as nat, v2, v3);
        lemma_entry_place(es, n, k, k - 1, v2, v3);
        crate::segment::block::lemma_shared_le(es, n, k - 1, v2);
    }
}

/// What the walk has met after `k` data blocks.
spec fn walked(es: Seq<EntryV>, blocks: Seq<Seq<EntryV>>, v2: bool, v3: bool, k: nat) -> WalkV {
    WalkV {
        data: Seq::new(
            k,
            |i: int|
                BlockV {
                    first: seq![],
                    last: seq![],
                    ..written_block(es, blocks, v2, v3, i)
                },
        ),
        headers: data_heads(blocks, k, v2, v3),
        last_kind: if k == 0 {
            None
        } else {
            Some(BLOCK_DATA)
        },
        index: None,
        bloom: None,
    }
}

/// Data block `i` stands where it was written.
pub proof fn lemma_block_place(
    b: Seq<u8>,
    base: int,
    blocks: Seq<Seq<EntryV>>,
    k: nat,
    i: int,
    v2: bool,
    v3: bool,
)
    requires
        0 <= i < k,
        has_at(b, base, data_bytes(blocks, k, v2, v3)),
    ensures
        has_at(
            b,
            base + data_bytes(blocks, i as nat, v2, v3).len(),
            data_block(blocks[i], v2, v3),
        ),
    decreases k,
{
    lemma_has_split(
        b,
        base,
        data_bytes(blocks, (k - 1) as nat, v2, v3),
        data_block(blocks[k - 1], v2, v3),
    );
    if i < k - 1 {
        lemma_block_place(b, base, blocks, (k - 1) as nat, i, v2, v3);
    }
}

#[verifier::spinoff_prover]
#[verifier::rlimit(60)]
proof fn lemma_walk_data(
    b: Seq<u8>,
    es: Seq<EntryV>,
    blocks: Seq<Seq<EntryV>>,
    v2: bool,
    v3: bool,
    k: nat,
)
    requires
        seg_fits(es, blocks, v2, v3),
        k <= blocks.len(),
        has_at(
            b,
            head_bytes(es, blocks.len()).len() as int,
            data_bytes(blocks, blocks.len(), v2, v3),
        ),
    ensures
        walk_from(b, head_bytes(es, blocks.len()).len() as int, walk_start()) == walk_from(
            b,
            (head_bytes(es, blocks.len()).len() + data_bytes(blocks, k, v2, v3).len()) as int,
            walked(es, blocks, v2, v3, k),
        ),
    decreases k,
{
    let base = head_bytes(es, blocks.len()).len() as int;
    if k == 0 {
        assert(walked(es, blocks, v2, v3, 0) =~= walk_start());
    } else {
        let i = k - 1;
        let bl = blocks[i];
        let pos = base + data_bytes(blocks, i as nat, v2, v3).len();
        let w = walked(es, blocks, v2, v3, i as nat);
        let payload = block_payload(bl, bl.len(), v2, v3);
        lemma_walk_data(b, es, blocks, v2, v3, i as nat);
        lemma_block_place(b, base, blocks, blocks.len(), i, v2, v3);
        lemma_walk_block(
            b,
            pos,
            w,
            BLOCK_DATA,
            bl.len() as u32,
            payload,
            data_version(v2, v3),
        );
        lemma_block_room(bl, v2, v3);
        lemma_block_bytes_len(BLOCK_DATA, bl.len() as u32, payload, data_version(v2, v3));
        let w2 = walk_add(
            b,
            pos,
            w,
            data_version(v2, v3),
            BLOCK_DATA,
            bl.len() as u32,
            payload.len() as int,
        )->Ok_0;
        assert(w2.data =~= walked(es, blocks, v2, v3, k).data);
        assert(w2 =~= walked(es, blocks, v2, v3, k));
    }
}

// ---------------------------------------------------------------------------
// Index
proof fn lemma_index_entry(s: Seq<u8>, pos: int, bl: Seq<EntryV>, offset: nat, blk: BlockV)
    requires
        bl.len() > 0,
        bl.len() <= u32::MAX,
        bl[0].key.len() <= u16::MAX,
        bl.last().key.len() <= u16::MAX,
        offset <= u64::MAX,
        has_at(s, pos, index_entry(bl, offset)),
        blk.header == offset,
        blk.entries == bl.len(),
    ensures
        p_index_entry(s, pos, blk) == Ok::<(BlockV, int), ErrV>(
            (
                BlockV { first: bl[0].key, last: bl.last().key, ..blk },
                pos + index_entry(bl, offset).len(),
            ),
        ),
{
    let k1 = bl[0].key;
    let k2 = bl.last().key;
    let w1 = le((k1.len() as u16) as nat, 2);
    let w2 = w1 + k1;
    let w3 = w2 + le((k2.len() as u16) as nat, 2);
    let w4 = w3 + k2;
    let w5 = w4 + le((offset as u64) as nat, 8);
    lemma_le_len((k1.len() as u16) as nat, 2);
    lemma_le_len((k2.len() as u16) as nat, 2);
    lemma_le_len((offset as u64) as nat, 8);
    lemma_le_len((bl.len() as u32) as nat, 4);
    lemma_has_split(s, pos, w5, le((bl.len() as u32) as nat, 4));
    lemma_has_split(s, pos, w4, le((offset as u64) as nat, 8));
    lemma_has_split(s, pos, w3, k2);
    lemma_has_split(s, pos, w2, le((k2.len() as u16) as nat, 2));
    lemma_has_split(s, pos, w1, k1);
    lemma_p_u16(s, pos, k1.len() as u16);
    lemma_has_is(s, pos + 2, k1);
    let q = pos + 2 + k1.len();
    lemma_p_u16(s, q, k2.len() as u16);
    lemma_has_is(s, q + 2, k2);
    let p = q + 2 + k2.len();
    lemma_p_u64(s, p, offset as u64);
    lemma_p_u32(s, p + 8, bl.len() as u32);
}

#[verifier::spinoff_prover]
#[verifier::rlimit(40)]
proof fn lemma_index(
    s: Seq<u8>,
    es: Seq<EntryV>,
    blocks: Seq<Seq<EntryV>>,
    v2: bool,
    v3: bool,
    k: nat,
)
    requires
        seg_fits(es, blocks, v2, v3),
        k <= blocks.len(),
        has_at(s, 0, index_bytes(blocks, k, head_bytes(es, blocks.len()).len(), v2, v3)),
    ensures
        p_index(s, walked(es, blocks, v2, v3, blocks.len()).data, k) == Ok::<
            (Seq<BlockV>, int),
            ErrV,
        >(
            (
                written(es, blocks, v2, v3).data.take(k as int),
                index_bytes(blocks, k, head_bytes(es, blocks.len()).len(), v2, v3).len() as int,
            ),
        ),
    decreases k,
{
    let base = head_bytes(es, blocks.len()).len();
    let all = written(es, blocks, v2, v3).data;
    if k == 0 {
        assert(all.take(0) =~= seq![]);
    } else {
        let i = k - 1;
        let bl = blocks[i];
        let offset = base + data_bytes(blocks, i as nat, v2, v3).len();
        let front = index_bytes(blocks, i as nat, base, v2, v3);
        lemma_has_split(s, 0, front, index_entry(bl, offset));
        lemma_index(s, es, blocks, v2, v3, i as nat);
        lemma_block_room(bl, v2, v3);
        lemma_data_mono(blocks, i as nat, blocks.len(), v2, v3);
        assert(block_fits(blocks[i], v2, v3));
        assert(entry_fits(bl[0]));
        assert(entry_fits(bl[bl.len() - 1]));
        let blk = walked(es, blocks, v2, v3, blocks.len()).data[i];
        assert(offset <= blocks_bytes(es, blocks, v2, v3).len());
        lemma_index_entry(s, front.len() as int, bl, offset, blk);
        assert(BlockV { first: bl[0].key, last: bl.last().key, ..blk } == all[i]);
        assert(all.take(k as int) =~= all.take(i).push(all[i]));
    }
}

proof fn lemma_data_mono(blocks: Seq<Seq<EntryV>>, i: nat, j: nat, v2: bool, v3: bool)
    requires
        i <= j,
    ensures
        data_bytes(blocks, i, v2, v3).len() <= data_bytes(blocks, j, v2, v3).len(),
    decreases j,
{
    if i < j {
        lemma_data_mono(blocks, i, (j - 1) as nat, v2, v3);
    }
}

proof fn lemma_total(
    es: Seq<EntryV>,
    blocks: Seq<Seq<EntryV>>,
    v2: bool,
    v3: bool,
    k: nat,
)
    requires
        seg_fits(es, blocks, v2, v3),
        k <= blocks.len(),
    ensures
        total_entries(written(es, blocks, v2, v3).data.take(k as int)) == flat(blocks, k).len(),
    decreases k,
{
    let all = written(es, blocks, v2, v3).data;
    if k > 0 {
        lemma_total(es, blocks, v2, v3, (k - 1) as nat);
        assert(all.take(k as int).drop_last() =~= all.take(k - 1));
        assert(block_fits(blocks[k - 1], v2, v3));
        lemma_block_room(blocks[k - 1], v2, v3);
    } else {
        assert(all.take(0) =~= seq![]);
    }
}

pub proof fn lemma_bloom_len(es: Seq<EntryV>, n: nat, m: int)
    requires
        m > 0,
    ensures
        bloom_bits(es, n, m).len() == (m + 7) / 8,
    decreases n,
{
    if n > 0 {
        lemma_bloom_len(es, (n - 1) as nat, m);
        lemma_probes_len(
            bloom_bits(es, (n - 1) as nat, m),
            crate::segment::read::hashes_of(es[n - 1].key),
            4,
            m,
        );
    }
}

proof fn lemma_probes_len(bits: Seq<u8>, h: (u64, u64), i: nat, m: int)
    requires
        m > 0,
        bits.len() == (m + 7) / 8,
    ensures
        with_probes(bits, h, i, m).len() == bits.len(),
    decreases i,
{
    if i > 0 {
        lemma_probes_len(bits, h, (i - 1) as nat, m);
        let k = crate::segment::read::probe_bit(h.0, h.1, i - 1, m);
        assert(0 <= k < m);
    }
}

// ---------------------------------------------------------------------------
// The whole
proof fn lemma_places(es: Seq<EntryV>, blocks: Seq<Seq<EntryV>>, v2: bool, v3: bool)
    ensures
        ({
            let b = blocks_bytes(es, blocks, v2, v3);
            let h = head_bytes(es, blocks.len());
            let d = data_bytes(blocks, blocks.len(), v2, v3);
            let x = index_block(es, blocks, v2, v3);
            let m = bloom_block(es);
            let f = foot_body(es);
            let c = ck8(skeleton_bytes(es, blocks, v2, v3));
            &&& has_at(b, 0, h)
            &&& has_at(b, h.len() as int, d)
            &&& has_at(b, (h.len() + d.len()) as int, x)
            &&& has_at(b, (h.len() + d.len() + x.len()) as int, m)
            &&& has_at(b, (h.len() + d.len() + x.len() + m.len()) as int, f)
            &&& has_at(b, (h.len() + d.len() + x.len() + m.len() + f.len()) as int, c)
            &&& b.len() == h.len() + d.len() + x.len() + m.len() + f.len() + 8
            &&& f.len() == 14
        }),
{
    let b = blocks_bytes(es, blocks, v2, v3);
    let h = head_bytes(es, blocks.len());
    let d = data_bytes(blocks, blocks.len(), v2, v3);
    let x = index_block(es, blocks, v2, v3);
    let m = bloom_block(es);
    let f = foot_body(es);
    let c = ck8(skeleton_bytes(es, blocks, v2, v3));
    lemma_has_all(b);
    lemma_has_split(b, 0, h + d + x + m + f, c);
    lemma_has_split(b, 0, h + d + x + m, f);
    lemma_has_split(b, 0, h + d + x, m);
    lemma_has_split(b, 0, h + d, x);
    lemma_has_split(b, 0, h, d);
    lemma_le_len(SEGMENT_VERSION as nat, 2);
    lemma_le_len((es.len() as u64) as nat, 8);
}

/// The data blocks stand behind the header.
pub proof fn lemma_data_place(es: Seq<EntryV>, blocks: Seq<Seq<EntryV>>, v2: bool, v3: bool)
    ensures
        has_at(
            blocks_bytes(es, blocks, v2, v3),
            head_bytes(es, blocks.len()).len() as int,
            data_bytes(blocks, blocks.len(), v2, v3),
        ),
{
    lemma_places(es, blocks, v2, v3);
}

/// A block's count fits its field.
pub proof fn lemma_block_count(bl: Seq<EntryV>, v2: bool, v3: bool)
    requires
        block_fits(bl, v2, v3),
    ensures
        (bl.len() as u32) == bl.len(),
{
    lemma_block_room(bl, v2, v3);
}

/// The first and last entries of the blocks are those of the whole.
proof fn lemma_flat_ends(blocks: Seq<Seq<EntryV>>, k: nat)
    requires
        k > 0,
        forall|i: int| 0 <= i < k ==> (#[trigger] blocks[i]).len() > 0,
    ensures
        flat(blocks, k).len() > 0,
        flat(blocks, k)[0] == blocks[0][0],
        flat(blocks, k).last() == blocks[k - 1].last(),
    decreases k,
{
    if k > 1 {
        lemma_flat_ends(blocks, (k - 1) as nat);
    } else {
        assert(flat(blocks, 0) =~= seq![]);
        assert(flat(blocks, 1) =~= blocks[0]);
    }
}

/// Where the index block of a written segment stands.
spec fn index_at(es: Seq<EntryV>, blocks: Seq<Seq<EntryV>>, v2: bool, v3: bool) -> int {
    (head_bytes(es, blocks.len()).len() + data_bytes(blocks, blocks.len(), v2, v3).len()) as int
}

/// The index of a written segment.
spec fn index_of(es: Seq<EntryV>, blocks: Seq<Seq<EntryV>>, v2: bool, v3: bool) -> Seq<u8> {
    index_bytes(blocks, blocks.len(), head_bytes(es, blocks.len()).len(), v2, v3)
}

/// Where the bloom block stands.
spec fn bloom_at(es: Seq<EntryV>, blocks: Seq<Seq<EntryV>>, v2: bool, v3: bool) -> int {
    index_at(es, blocks, v2, v3) + 28 + index_of(es, blocks, v2, v3).len()
}

/// Where the footer stands.
spec fn foot_at(es: Seq<EntryV>, blocks: Seq<Seq<EntryV>>, v2: bool, v3: bool) -> int {
    bloom_at(es, blocks, v2, v3) + 28 + bloom_payload(es).len()
}

/// The walk over a written segment, at its end.
spec fn walk_done(es: Seq<EntryV>, blocks: Seq<Seq<EntryV>>, v2: bool, v3: bool) -> WalkV {
    WalkV {
        index: Some((index_at(es, blocks, v2, v3), index_of(es, blocks, v2, v3).len() as int)),
        bloom: Some((bloom_at(es, blocks, v2, v3), bloom_payload(es).len() as int)),
        last_kind: Some(BLOCK_BLOOM),
        ..walked(es, blocks, v2, v3, blocks.len())
    }
}

/// The slices of a written segment.
spec fn slices(es: Seq<EntryV>, blocks: Seq<Seq<EntryV>>, v2: bool, v3: bool) -> bool {
    let b = blocks_bytes(es, blocks, v2, v3);
    let ih = index_at(es, blocks, v2, v3);
    let bh = bloom_at(es, blocks, v2, v3);
    let end = foot_at(es, blocks, v2, v3);
    &&& b.len() == end + 22
    &&& b.subrange(ih + 28, bh) == index_of(es, blocks, v2, v3)
    &&& b.subrange(bh + 28, end) == bloom_payload(es)
    &&& un_le(b.subrange(ih + 8, ih + 12)) == blocks.len()
    &&& un_le(b.subrange(bh + 8, bh + 12)) == es.len()
    &&& b.subrange(ih, end) == index_block(es, blocks, v2, v3) + bloom_block(es)
    &&& b.subrange(end, end + 14) == foot_body(es)
    &&& b.subrange(end + 14, end + 22) == ck8(skeleton_bytes(es, blocks, v2, v3))
    &&& b.take(head_bytes(es, blocks.len()).len() as int) == head_bytes(es, blocks.len())
}

proof fn lemma_bloom_payload_len(es: Seq<EntryV>)
    requires
        0 < es.len(),
        10 * es.len() <= u32::MAX,
    ensures
        bloom_payload(es).len() <= u32::MAX,
        (es.len() as u64) as u32 == es.len(),
{
    lemma_bloom_len(es, es.len(), bloom_size(es));
    lemma_le_len((bloom_size(es) as u32) as nat, 4);
}

/// The walk over a written segment meets its blocks and ends at the footer.
proof fn lemma_walk_all(es: Seq<EntryV>, blocks: Seq<Seq<EntryV>>, v2: bool, v3: bool)
    requires
        seg_fits(es, blocks, v2, v3),
        has_at(
            blocks_bytes(es, blocks, v2, v3),
            foot_at(es, blocks, v2, v3),
            foot_body(es),
        ),
    ensures
        walk_from(
            blocks_bytes(es, blocks, v2, v3),
            head_bytes(es, blocks.len()).len() as int,
            walk_start(),
        ) == Ok::<(WalkV, int), ErrV>(
            (walk_done(es, blocks, v2, v3), foot_at(es, blocks, v2, v3)),
        ),
{
    let b = blocks_bytes(es, blocks, v2, v3);
    let index = index_of(es, blocks, v2, v3);
    let ih = index_at(es, blocks, v2, v3);
    let bh = bloom_at(es, blocks, v2, v3);
    let end = foot_at(es, blocks, v2, v3);
    let n = blocks.len();
    let bloom = bloom_payload(es);
    let w0 = walked(es, blocks, v2, v3, n);
    let w1 = WalkV { index: Some((ih, index.len() as int)), last_kind: Some(BLOCK_INDEX), ..w0 };
    let w2 = walk_done(es, blocks, v2, v3);
    lemma_places(es, blocks, v2, v3);
    lemma_walk_data(b, es, blocks, v2, v3, n);
    lemma_bloom_payload_len(es);
    assert(walk_from(b, ih, w0) == walk_from(b, bh, w1)) by {
        lemma_block_bytes_len(BLOCK_INDEX, n as u32, index, SEGMENT_VERSION);
        lemma_walk_block(b, ih, w0, BLOCK_INDEX, n as u32, index, SEGMENT_VERSION);
    }
    assert(walk_from(b, bh, w1) == walk_from(b, end, w2)) by {
        lemma_block_bytes_len(BLOCK_INDEX, n as u32, index, SEGMENT_VERSION);
        lemma_block_bytes_len(BLOCK_BLOOM, es.len() as u32, bloom, SEGMENT_VERSION);
        lemma_walk_block(b, bh, w1, BLOCK_BLOOM, es.len() as u32, bloom, SEGMENT_VERSION);
        assert(w2 =~= WalkV {
            bloom: Some((bh, bloom.len() as int)),
            last_kind: Some(BLOCK_BLOOM),
            ..w1
        });
    }
    assert(at_footer(b, end)) by {
        let f = foot_body(es);
        lemma_has_split(
            b,
            end,
            FOOTER_MAGIC@ + le(SEGMENT_VERSION as nat, 2),
            le((es.len() as u64) as nat, 8),
        );
        lemma_has_split(b, end, FOOTER_MAGIC@, le(SEGMENT_VERSION as nat, 2));
        lemma_has_is(b, end, FOOTER_MAGIC@);
    }
}

proof fn lemma_slices(es: Seq<EntryV>, blocks: Seq<Seq<EntryV>>, v2: bool, v3: bool)
    requires
        seg_fits(es, blocks, v2, v3),
    ensures
        slices(es, blocks, v2, v3),
        has_at(
            blocks_bytes(es, blocks, v2, v3),
            foot_at(es, blocks, v2, v3),
            foot_body(es),
        ),
{
    let b = blocks_bytes(es, blocks, v2, v3);
    let index = index_of(es, blocks, v2, v3);
    let ih = index_at(es, blocks, v2, v3);
    let bh = bloom_at(es, blocks, v2, v3);
    let end = foot_at(es, blocks, v2, v3);
    let n = blocks.len();
    let bloom = bloom_payload(es);
    lemma_places(es, blocks, v2, v3);
    lemma_bloom_payload_len(es);
    lemma_block_bytes_len(BLOCK_INDEX, n as u32, index, SEGMENT_VERSION);
    lemma_block_bytes_len(BLOCK_BLOOM, es.len() as u32, bloom, SEGMENT_VERSION);
    let w = WalkV { last_kind: None, ..walk_start() };
    lemma_walk_block(b, ih, w, BLOCK_INDEX, n as u32, index, SEGMENT_VERSION);
    lemma_walk_block(b, bh, w, BLOCK_BLOOM, es.len() as u32, bloom, SEGMENT_VERSION);
    lemma_has_is(b, end, foot_body(es));
    lemma_has_is(b, end + 14, ck8(skeleton_bytes(es, blocks, v2, v3)));
    lemma_has_is(b, 0, head_bytes(es, n));
    assert(b.take(head_bytes(es, n).len() as int) =~= head_bytes(es, n));
    lemma_has_is(b, ih, index_block(es, blocks, v2, v3));
    lemma_has_is(b, bh, bloom_block(es));
    assert(b.subrange(ih, end) =~= b.subrange(ih, bh) + b.subrange(bh, end));
}

/// The header of a written segment.
spec fn head_value(es: Seq<EntryV>, n: nat) -> HeadV {
    HeadV {
        block_count: n as u32,
        entry_count: es.len() as u64,
        key_min: es[0].key,
        key_max: es.last().key,
        seq_lo: min_seq(es),
        seq_hi: max_seq(es),
        len: head_bytes(es, n).len() as int,
    }
}

proof fn lemma_rest(es: Seq<EntryV>, blocks: Seq<Seq<EntryV>>, v2: bool, v3: bool)
    requires
        seg_fits(es, blocks, v2, v3),
        slices(es, blocks, v2, v3),
    ensures
        seg_rest(
            blocks_bytes(es, blocks, v2, v3),
            head_value(es, blocks.len()),
            walk_done(es, blocks, v2, v3),
            foot_at(es, blocks, v2, v3),
        ) == Ok::<SegV, ErrV>(written(es, blocks, v2, v3)),
{
    let b = blocks_bytes(es, blocks, v2, v3);
    let n = blocks.len();
    let index = index_of(es, blocks, v2, v3);
    let hv = head_value(es, n);
    let w = walk_done(es, blocks, v2, v3);
    let end = foot_at(es, blocks, v2, v3);
    let data = written(es, blocks, v2, v3).data;
    assert(p_index(index, w.data, n) == Ok::<(Seq<BlockV>, int), ErrV>(
        (data, index.len() as int),
    )) by {
        lemma_has_all(index);
        lemma_index(index, es, blocks, v2, v3, n);
        assert(data.take(n as int) =~= data);
    }
    assert(total_entries(data) == es.len()) by {
        lemma_total(es, blocks, v2, v3, n);
        assert(data.take(n as int) =~= data);
    }
    lemma_bloom_parts(es);
    assert(skeleton(b, hv, w, end) == skeleton_bytes(es, blocks, v2, v3)) by {
        let h = head_bytes(es, n);
        let hs = data_heads(blocks, n, v2, v3);
        let x = index_block(es, blocks, v2, v3);
        let m = bloom_block(es);
        assert(h + hs + (x + m) + foot_body(es) =~= h + hs + x + m + foot_body(es));
    }
    assert(w.data.len() == n);
    let r = seg_rest(b, hv, w, end);
    assert(r is Ok);
    assert(r->Ok_0 =~= written(es, blocks, v2, v3));
}

/// Opening a written segment gives back its counts, its key and sequence
/// bounds, its blocks and its filter.
pub proof fn open_gives_back_writes(
    es: Seq<EntryV>,
    blocks: Seq<Seq<EntryV>>,
    v2: bool,
    v3: bool,
)
    requires
        seg_fits(es, blocks, v2, v3),
    ensures
        segment_of(blocks_bytes(es, blocks, v2, v3)) == Ok::<SegV, ErrV>(
            written(es, blocks, v2, v3),
        ),
{
    let b = blocks_bytes(es, blocks, v2, v3);
    let n = blocks.len();
    let end = foot_at(es, blocks, v2, v3);
    let w = walk_done(es, blocks, v2, v3);
    lemma_slices(es, blocks, v2, v3);
    lemma_walk_all(es, blocks, v2, v3);
    assert(p_head(b) == Ok::<HeadV, ErrV>(head_value(es, n))) by {
        assert forall|i: int| 0 <= i < n implies (#[trigger] blocks[i]).len() > 0 by {
            assert(block_fits(blocks[i], v2, v3));
        }
        lemma_flat_ends(blocks, n);
        assert(block_fits(blocks[0], v2, v3));
        assert(block_fits(blocks[n - 1], v2, v3));
        assert(entry_fits(blocks[0][0]));
        assert(entry_fits(blocks[n - 1][blocks[n - 1].len() - 1]));
        lemma_places(es, blocks, v2, v3);
        lemma_head(b, es, n);
    }
    lemma_footer_fields(es, b, end);
    lemma_rest(es, blocks, v2, v3);
    assert(w.data.len() == n);
    assert(seg_footer(b, head_value(es, n), w, end) == seg_rest(b, head_value(es, n), w, end));
}

proof fn lemma_footer_fields(es: Seq<EntryV>, b: Seq<u8>, end: int)
    requires
        0 < es.len() <= u32::MAX,
        0 <= end,
        end + 14 <= b.len(),
        b.subrange(end, end + 14) == foot_body(es),
    ensures
        un_le(b.subrange(end + 4, end + 6)) == SEGMENT_VERSION,
        un_le(b.subrange(end + 6, end + 14)) == es.len(),
{
    let f = foot_body(es);
    lemma_le_len(SEGMENT_VERSION as nat, 2);
    lemma_le_len((es.len() as u64) as nat, 8);
    assert(has_at(b, end, f)) by {
        reveal(has_at);
    }
    lemma_has_split(
        b,
        end,
        FOOTER_MAGIC@ + le(SEGMENT_VERSION as nat, 2),
        le((es.len() as u64) as nat, 8),
    );
    lemma_has_split(b, end, FOOTER_MAGIC@, le(SEGMENT_VERSION as nat, 2));
    lemma_u16_at(b, end + 4, SEGMENT_VERSION);
    lemma_u64_at(b, end + 6, es.len() as u64);
}

proof fn lemma_bloom_parts(es: Seq<EntryV>)
    requires
        0 < es.len(),
        10 * es.len() <= u32::MAX,
    ensures
        p_bloom(bloom_payload(es)) == Ok::<u32, ErrV>(bloom_size(es) as u32),
        bloom_payload(es).skip(4) == bloom_bits(es, es.len(), bloom_size(es)),
{
    let p = bloom_payload(es);
    let m = bloom_size(es) as u32;
    lemma_bloom_len(es, es.len(), bloom_size(es));
    lemma_le_len(m as nat, 4);
    lemma_has_all(p);
    lemma_has_split(p, 0, le(m as nat, 4), bloom_bits(es, es.len(), bloom_size(es)));
    lemma_p_u32(p, 0, m);
    assert(p.skip(4) =~= bloom_bits(es, es.len(), bloom_size(es)));
}

// ---------------------------------------------------------------------------
// Splitting
proof fn lemma_flat_cons(a: Seq<EntryV>, rest: Seq<Seq<EntryV>>, k: nat)
    requires
        k <= rest.len(),
    ensures
        flat(seq![a] + rest, k + 1) == a + flat(rest, k),
    decreases k,
{
    let all = seq![a] + rest;
    if k == 0 {
        assert(flat(all, 0) =~= seq![]);
        assert(flat(all, 1) =~= a);
        assert(a + flat(rest, 0) =~= a);
    } else {
        lemma_flat_cons(a, rest, (k - 1) as nat);
        assert(all[k as int] == rest[k - 1]);
        assert(flat(all, k + 1) =~= a + flat(rest, k));
    }
}

/// Splitting loses nothing and leaves no block empty.
pub proof fn split_keeps_entries(es: Seq<EntryV>, target: nat, v2: bool, v3: bool)
    ensures
        flat(split(es, target, v2, v3), split(es, target, v2, v3).len()) == es,
        forall|i: int|
            0 <= i < split(es, target, v2, v3).len() ==> (#[trigger] split(
                es,
                target,
                v2,
                v3,
            )[i]).len() > 0,
        es.len() > 0 ==> split(es, target, v2, v3).len() > 0,
    decreases es.len(),
{
    let bs = split(es, target, v2, v3);
    if es.len() == 0 {
        assert(es =~= seq![]);
    } else {
        lemma_block_len(es, 1, target, v2, v3);
        let n = block_len(es, 1, target, v2, v3) as int;
        let rest = split(es.skip(n), target, v2, v3);
        split_keeps_entries(es.skip(n), target, v2, v3);
        assert(bs =~= seq![es.take(n)] + rest);
        lemma_flat_cons(es.take(n), rest, rest.len());
        assert(es.take(n) + es.skip(n) =~= es);
        assert forall|i: int| 0 <= i < bs.len() implies (#[trigger] bs[i]).len() > 0 by {
            if i > 0 {
                assert(bs[i] == rest[i - 1]);
            }
        }
    }
}

} // verus!
