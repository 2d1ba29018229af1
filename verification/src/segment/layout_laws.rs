//! The bytes of a segment, field by field; how its blocks are filled; and that
//! nothing is read whose fingerprint does not hold.

use crate::format::ck8;
use crate::hash::sha256_of;
use crate::layout_laws::{counted, fingerprinted, joined, lemma_joined_push, number, numbers_are_little_endian};
use crate::codec::{lemma_le_len, un_le};
use crate::segment::block::{
    block_len, block_payload, body_bytes, common, dues, entry_bytes, expected, restarts, split,
    table_bytes,
};
use crate::segment::entry::EntryV;
use crate::segment::open::{p_head, segment_of, total_entries, SegV};
use crate::segment::read::{block_at, locate_of, payload_at, seg_get};
use crate::segment::write::{
    block_bytes, bloom_bits, bloom_payload, bloom_size, blocks_bytes, data_block, data_bytes,
    data_heads, foot_body, head_bytes, index_bytes, index_entry, max_seq, min_seq, skeleton_bytes,
};
use vstd::prelude::*;

verus! {

// ---------------------------------------------------------------------------
// Layout
/// A block: `AKBL`, its version, its kind, no compression, how many entries,
/// the size of the payload twice, the fingerprint of all of it, the payload.
pub open spec fn block_written(kind: u8, entries: nat, payload: Seq<u8>, version: nat) -> Seq<u8> {
    let head = seq![0x41u8, 0x4b, 0x42, 0x4c] + number(version, 2) + seq![kind, 0u8] + number(
        entries,
        4,
    ) + number(payload.len(), 4) + number(payload.len(), 4);
    head + Seq::new(8, |i: int| sha256_of(head + payload)[i]) + payload
}

proof fn lemma_block(kind: u8, entries: u32, payload: Seq<u8>, version: u16)
    requires
        payload.len() <= u32::MAX,
    ensures
        block_bytes(kind, entries, payload, version) == block_written(
            kind,
            entries as nat,
            payload,
            version as nat,
        ),
{
    numbers_are_little_endian(version as nat, 2);
    numbers_are_little_endian(entries as nat, 4);
    numbers_are_little_endian(payload.len(), 4);
    let head = seq![0x41u8, 0x4b, 0x42, 0x4c] + number(version as nat, 2) + seq![kind, 0u8]
        + number(entries as nat, 4) + number(payload.len(), 4) + number(payload.len(), 4);
    let h = crate::segment::write::block_head_bytes(kind, entries, payload.len(), version);
    assert(crate::segment::open::BLOCK_MAGIC@ =~= seq![0x41u8, 0x4b, 0x42, 0x4c]);
    assert(h =~= head);
    assert(ck8(head + payload) =~= Seq::new(8, |i: int| sha256_of(head + payload)[i]));
}

/// The head of a segment: `AKSE`, version 1, how many blocks and entries, the
/// first and the last key, the lowest and the highest sequence, the
/// fingerprint.
pub open spec fn head_written(es: Seq<EntryV>, blocks: nat) -> Seq<u8> {
    fingerprinted(
        seq![0x41u8, 0x4b, 0x53, 0x45] + number(1, 2) + number(blocks, 4) + number(es.len(), 8)
            + counted(es[0].key) + counted(es[es.len() - 1].key) + number(min_seq(es) as nat, 8)
            + number(max_seq(es) as nat, 8),
    )
}

/// What the index says of a block: its first and its last key, where it
/// stands, how many entries it has.
pub open spec fn index_written(bl: Seq<EntryV>, offset: nat) -> Seq<u8> {
    number(bl[0].key.len(), 2) + bl[0].key + number(bl[bl.len() - 1].key.len(), 2) + bl[bl.len()
        - 1].key + number(offset, 8) + number(bl.len(), 4)
}

/// The foot of a segment before its fingerprint: `AKFT`, version 1, how many
/// entries.
pub open spec fn foot_written(es: Seq<EntryV>) -> Seq<u8> {
    seq![0x41u8, 0x4b, 0x46, 0x54] + number(1, 2) + number(es.len(), 8)
}

/// The version of the data blocks: 1, with restarts 2, with replicas 3.
pub open spec fn version_written(v2: bool, v3: bool) -> nat {
    if v3 && v2 {
        3
    } else if v2 {
        2
    } else {
        1
    }
}

proof fn lemma_head(es: Seq<EntryV>, blocks: Seq<Seq<EntryV>>, v2: bool, v3: bool)
    requires
        crate::segment::open_laws::seg_fits(es, blocks, v2, v3),
    ensures
        head_bytes(es, blocks.len()) == head_written(es, blocks.len()),
{
    let n = blocks.len();
    lemma_first_last(es, blocks, v2, v3);
    numbers_are_little_endian(1, 2);
    numbers_are_little_endian(n, 4);
    numbers_are_little_endian(es.len(), 8);
    numbers_are_little_endian(es[0].key.len(), 4);
    numbers_are_little_endian(es.last().key.len(), 4);
    numbers_are_little_endian(min_seq(es) as nat, 8);
    numbers_are_little_endian(max_seq(es) as nat, 8);
    let hb = crate::segment::write::head_body(es, n);
    assert(crate::segment::open::SEGMENT_MAGIC@ =~= seq![0x41u8, 0x4b, 0x53, 0x45]);
    assert(hb =~= seq![0x41u8, 0x4b, 0x53, 0x45] + number(1, 2) + number(n, 4) + number(
        es.len(),
        8,
    ) + counted(es[0].key) + counted(es[es.len() - 1].key) + number(min_seq(es) as nat, 8)
        + number(max_seq(es) as nat, 8));
    assert(ck8(hb) =~= Seq::new(8, |i: int| sha256_of(hb)[i]));
}

proof fn lemma_heads_joined(blocks: Seq<Seq<EntryV>>, n: nat, v2: bool, v3: bool)
    requires
        n <= blocks.len(),
    ensures
        data_heads(blocks, n, v2, v3) == joined(
            Seq::new(n, |k: int| data_block(blocks[k], v2, v3).take(28)),
        ),
    decreases n,
{
    let all = Seq::new(n, |k: int| data_block(blocks[k], v2, v3).take(28));
    if n > 0 {
        lemma_heads_joined(blocks, (n - 1) as nat, v2, v3);
        let before = Seq::new((n - 1) as nat, |k: int| data_block(blocks[k], v2, v3).take(28));
        lemma_joined_push(before, data_block(blocks[n - 1], v2, v3).take(28));
        assert(all =~= before.push(data_block(blocks[n - 1], v2, v3).take(28)));
    } else {
        assert(all =~= seq![]);
    }
}

proof fn lemma_data_grows(blocks: Seq<Seq<EntryV>>, k: nat, n: nat, v2: bool, v3: bool)
    requires
        k <= n,
    ensures
        data_bytes(blocks, k, v2, v3).len() <= data_bytes(blocks, n, v2, v3).len(),
    decreases n,
{
    if k < n {
        lemma_data_grows(blocks, k, (n - 1) as nat, v2, v3);
    }
}

/// A segment: its head, its data blocks, the index, the filter of ten bits for
/// each entry, the foot with the fingerprint of all but the payloads.
pub proof fn segment_layout(es: Seq<EntryV>, blocks: Seq<Seq<EntryV>>, v2: bool, v3: bool)
    requires
        crate::segment::open_laws::seg_fits(es, blocks, v2, v3),
    ensures
        ({
            let n = blocks.len();
            let head = head_written(es, n);
            let index = index_bytes(blocks, n, head.len(), v2, v3);
            let bloom = number(10 * es.len(), 4) + bloom_bits(es, es.len(), 10 * es.len() as int);
            &&& blocks_bytes(es, blocks, v2, v3) == head + data_bytes(blocks, n, v2, v3)
                + block_written(1, n, index, 1) + block_written(2, es.len(), bloom, 1)
                + foot_written(es) + Seq::new(
                8,
                |i: int| sha256_of(skeleton_bytes(es, blocks, v2, v3))[i],
            )
        }),
        forall|k: int|
            0 <= k < blocks.len() ==> #[trigger] data_bytes(blocks, (k + 1) as nat, v2, v3)
                == data_bytes(blocks, k as nat, v2, v3) + data_block(blocks[k], v2, v3),
        ({
            let n = blocks.len();
            let head = head_written(es, n);
            let index = index_bytes(blocks, n, head.len(), v2, v3);
            let bloom = number(10 * es.len(), 4) + bloom_bits(es, es.len(), 10 * es.len() as int);
            skeleton_bytes(es, blocks, v2, v3) == head + joined(
                Seq::new(n, |k: int| data_block(blocks[k], v2, v3).take(28)),
            ) + block_written(1, n, index, 1) + block_written(2, es.len(), bloom, 1)
                + foot_written(es)
        }),
{
    let n = blocks.len();
    lemma_heads_joined(blocks, n, v2, v3);
    crate::segment::open_laws::lemma_bloom_len(es, es.len(), bloom_size(es));
    assert(crate::segment::block_laws::block_fits(blocks[0], v2, v3));
    assert(crate::segment::block_laws::block_fits(blocks[n - 1], v2, v3));
    lemma_head(es, blocks, v2, v3);
    numbers_are_little_endian(1, 2);
    numbers_are_little_endian(es.len(), 8);
    numbers_are_little_endian(10 * es.len(), 4);
    assert(crate::segment::open::FOOTER_MAGIC@ =~= seq![0x41u8, 0x4b, 0x46, 0x54]);
    let index = index_bytes(blocks, n, head_bytes(es, n).len(), v2, v3);
    lemma_block(1, n as u32, index, 1);
    let bloom = bloom_payload(es);
    assert(bloom == number(10 * es.len(), 4) + bloom_bits(es, es.len(), 10 * es.len() as int));
    lemma_le_len(10 * es.len(), 4);
    lemma_block(2, es.len() as u32, bloom, 1);
    assert(foot_body(es) =~= foot_written(es));
    let sk = skeleton_bytes(es, blocks, v2, v3);
    assert(ck8(sk) =~= Seq::new(8, |i: int| sha256_of(sk)[i]));
}

/// The index has an entry for each block, in their order, with the place of the
/// block in the file.
pub proof fn index_layout(
    es: Seq<EntryV>,
    blocks: Seq<Seq<EntryV>>,
    v2: bool,
    v3: bool,
    k: int,
)
    requires
        crate::segment::open_laws::seg_fits(es, blocks, v2, v3),
        0 <= k < blocks.len(),
    ensures
        ({
            let base = head_written(es, blocks.len()).len();
            let offset = base + data_bytes(blocks, k as nat, v2, v3).len();
            index_bytes(blocks, (k + 1) as nat, base, v2, v3) == index_bytes(
                blocks,
                k as nat,
                base,
                v2,
                v3,
            ) + index_written(blocks[k], offset as nat)
        }),
{
    let bl = blocks[k];
    let base = head_written(es, blocks.len()).len();
    let offset = (base + data_bytes(blocks, k as nat, v2, v3).len()) as nat;
    lemma_head(es, blocks, v2, v3);
    crate::segment::open_laws::lemma_data_place(es, blocks, v2, v3);
    crate::format::lemma_has_is(
        blocks_bytes(es, blocks, v2, v3),
        head_bytes(es, blocks.len()).len() as int,
        data_bytes(blocks, blocks.len(), v2, v3),
    );
    lemma_data_grows(blocks, k as nat, blocks.len(), v2, v3);
    assert(crate::segment::block_laws::block_fits(bl, v2, v3));
    crate::segment::open_laws::lemma_block_count(bl, v2, v3);
    assert(crate::segment::block_laws::entry_fits(bl[0]));
    assert(crate::segment::block_laws::entry_fits(bl[bl.len() - 1]));
    numbers_are_little_endian(bl[0].key.len(), 2);
    numbers_are_little_endian(bl.last().key.len(), 2);
    numbers_are_little_endian(offset, 8);
    numbers_are_little_endian(bl.len(), 4);
    assert(index_entry(bl, offset) =~= index_written(bl, offset));
}

proof fn lemma_first_last(es: Seq<EntryV>, blocks: Seq<Seq<EntryV>>, v2: bool, v3: bool)
    requires
        crate::segment::open_laws::seg_fits(es, blocks, v2, v3),
    ensures
        es[0].key.len() <= u16::MAX,
        es.last().key.len() <= u16::MAX,
{
    let n = blocks.len();
    let (i, j) = crate::db::publish_laws::lemma_in_flat(blocks, n, 0);
    assert(crate::segment::block_laws::block_fits(blocks[i], v2, v3));
    assert(crate::segment::block_laws::entry_fits(blocks[i][j]));
    let (k, l) = crate::db::publish_laws::lemma_in_flat(blocks, n, es.len() - 1);
    assert(crate::segment::block_laws::block_fits(blocks[k], v2, v3));
    assert(crate::segment::block_laws::entry_fits(blocks[k][l]));
}

/// An entry in a block: how much of the key before it it shares, how much
/// follows, that, the value behind its length, the sequence, the flags, and in
/// version 3 the replica.
pub proof fn entry_layout(e: EntryV, shared: nat, v3: bool)
    requires
        shared <= e.key.len() <= u16::MAX,
        e.value.len() <= u32::MAX,
    ensures
        entry_bytes(e, shared, v3) == number(shared, 2) + number(
            (e.key.len() - shared) as nat,
            2,
        ) + e.key.skip(shared as int) + counted(e.value) + number(e.seq as nat, 8) + seq![e.flags]
            + (if v3 {
            number(e.replica_id.0 as nat, 8)
        } else {
            seq![]
        }),
{
    reveal(entry_bytes);
    numbers_are_little_endian(shared, 2);
    numbers_are_little_endian((e.key.len() - shared) as nat, 2);
    numbers_are_little_endian(e.value.len(), 4);
    numbers_are_little_endian(e.seq as nat, 8);
    numbers_are_little_endian(e.replica_id.0 as nat, 8);
    assert(entry_bytes(e, shared, v3) =~= number(shared, 2) + number(
        (e.key.len() - shared) as nat,
        2,
    ) + e.key.skip(shared as int) + counted(e.value) + number(e.seq as nat, 8) + seq![e.flags] + (
    if v3 {
        number(e.replica_id.0 as nat, 8)
    } else {
        seq![]
    }));
}

/// A data block is of kind 0; a block with restarts begins with the interval
/// of sixteen and how many restarts there are, and then says where each
/// stands.
pub proof fn data_block_layout(bl: Seq<EntryV>, v2: bool, v3: bool)
    requires
        crate::segment::block_laws::block_fits(bl, v2, v3),
    ensures
        ({
            let n = bl.len();
            let k = restarts(bl, n, true).len();
            let payload = if v2 {
                number(16, 2) + number(k, 4) + table_bytes(bl, n, k, v3) + body_bytes(
                    bl,
                    n,
                    n,
                    true,
                    v3,
                )
            } else {
                body_bytes(bl, n, n, false, v3)
            };
            data_block(bl, v2, v3) == block_written(0, n, payload, version_written(v2, v3))
        }),
{
    let n = bl.len();
    let k = restarts(bl, n, true).len();
    crate::segment::open_laws::lemma_block_count(bl, v2, v3);
    crate::segment::block::lemma_dues(bl, n, true);
    lemma_due_count(bl, n);
    numbers_are_little_endian(16, 2);
    numbers_are_little_endian(k, 4);
    let payload = block_payload(bl, n, v2, v3);
    lemma_block(0, n as u32, payload, crate::segment::write::data_version(v2, v3));
}

proof fn lemma_due_count(es: Seq<EntryV>, n: nat)
    ensures
        dues(es, n, true).len() <= n,
    decreases n,
{
    if n > 0 {
        lemma_due_count(es, (n - 1) as nat);
    }
}

/// Where restarts are due: at the first entry, and at an entry whose number is
/// a multiple of sixteen and whose key is past that of the one before.
pub proof fn restarts_are_due_at_every_sixteenth(es: Seq<EntryV>, n: nat)
    ensures
        forall|i: int| 0 <= i < dues(es, n, true).len() ==> 0 <= (#[trigger] dues(es, n, true)[i])
            < n && dues(es, n, true)[i] % 16 == 0,
        n > 0 ==> dues(es, n, true).len() > 0 && dues(es, n, true)[0] == 0,
    decreases n,
{
    if n > 0 {
        restarts_are_due_at_every_sixteenth(es, (n - 1) as nat);
        let front = dues(es, (n - 1) as nat, true);
        let all = dues(es, n, true);
        if n == 1 {
            assert(front.len() == 0);
            assert(crate::segment::block::due(es, front, 0, true));
        }
        assert forall|i: int| 0 <= i < all.len() implies 0 <= (#[trigger] all[i]) < n && all[i] % 16
            == 0 by {
            if i < front.len() {
                assert(all[i] == front[i]);
            }
        }
        if front.len() > 0 {
            assert(all[0] == front[0]);
        }
    }
}

// ---------------------------------------------------------------------------
// Filling
proof fn lemma_filled(es: Seq<EntryV>, i: nat, target: nat, v2: bool, v3: bool)
    ensures
        ({
            let n = block_len(es, i, target, v2, v3);
            &&& i <= es.len() ==> i <= n <= es.len()
            &&& i <= n < es.len() ==> body_bytes(es, n, n, v2, v3).len() + expected(
                es,
                n as int,
                v3,
            ) > target
            &&& forall|j: int|
                i <= j < n ==> body_bytes(es, j as nat, j as nat, v2, v3).len()
                    + #[trigger] expected(es, j, v3) <= target
        }),
    decreases es.len() - i,
{
    if i < es.len() && !(body_bytes(es, i, i, v2, v3).len() + expected(es, i as int, v3) > target) {
        lemma_filled(es, i + 1, target, v2, v3);
    }
}

/// A block takes entries as long as the next is expected to leave it within the
/// target, and one at least; the next block begins with the entry that did not
/// fit. An entry is expected to take 17 bytes, 25 with a replica, beside its
/// value and what its key does not share with the one before.
pub proof fn blocks_fill_up_to_the_target(es: Seq<EntryV>, target: nat, v2: bool, v3: bool)
    requires
        es.len() > 0,
    ensures
        ({
            let first = split(es, target, v2, v3)[0];
            let n = first.len();
            &&& split(es, target, v2, v3).len() > 0
            &&& 0 < n <= es.len()
            &&& first == es.take(n as int)
            &&& split(es, target, v2, v3).skip(1) == split(es.skip(n as int), target, v2, v3)
            &&& n < es.len() ==> body_bytes(es, n, n, v2, v3).len() + row_expected(
                es,
                n as int,
                v3,
            ) > target
            &&& forall|j: int|
                1 <= j < n ==> body_bytes(es, j as nat, j as nat, v2, v3).len()
                    + #[trigger] row_expected(es, j, v3) <= target
        }),
{
    lemma_filled(es, 1, target, v2, v3);
    let n = block_len(es, 1, target, v2, v3);
    let all = split(es, target, v2, v3);
    assert(all == seq![es.take(n as int)] + split(es.skip(n as int), target, v2, v3));
    assert(all.skip(1) =~= split(es.skip(n as int), target, v2, v3));
    assert(all[0] == es.take(n as int));
    assert forall|j: int|
        1 <= j < n implies body_bytes(es, j as nat, j as nat, v2, v3).len()
        + #[trigger] row_expected(es, j, v3) <= target by {
        assert(row_expected(es, j, v3) == expected(es, j, v3));
    }
    if n < es.len() {
        assert(row_expected(es, n as int, v3) == expected(es, n as int, v3));
    }
}

/// What entry `j` is expected to take behind the one before it.
pub open spec fn row_expected(es: Seq<EntryV>, j: int, v3: bool) -> int {
    es[j].key.len() - common(es[j - 1].key, es[j].key) + es[j].value.len() + (if v3 {
        25int
    } else {
        17int
    })
}

/// Two keys share a longest common beginning.
pub proof fn common_is_the_longest(a: Seq<u8>, b: Seq<u8>)
    ensures
        common(a, b) <= a.len(),
        common(a, b) <= b.len(),
        a.take(common(a, b) as int) == b.take(common(a, b) as int),
        common(a, b) < a.len() && common(a, b) < b.len() ==> a[common(a, b) as int]
            != b[common(a, b) as int],
    decreases a.len(),
{
    if a.len() == 0 || b.len() == 0 || a[0] != b[0] {
        assert(a.take(0) =~= b.take(0));
    } else {
        common_is_the_longest(a.skip(1), b.skip(1));
        let n = common(a.skip(1), b.skip(1)) as int;
        assert forall|i: int| 0 <= i < n + 1 implies a[i] == b[i] by {
            if i > 0 {
                assert(a.skip(1).take(n)[i - 1] == b.skip(1).take(n)[i - 1]);
            }
        }
        assert(a.take(n + 1) =~= b.take(n + 1));
    }
}

// ---------------------------------------------------------------------------
// Fingerprints
/// The fingerprint of data block `i` holds.
pub open spec fn block_sound(s: SegV, i: int) -> bool {
    let h = s.data[i].header;
    let n = s.data[i].payload_len;
    ck8(s.bytes.subrange(h, h + 20) + s.bytes.subrange(h + 28, h + 28 + n)) == s.bytes.subrange(
        h + 20,
        h + 28,
    )
}

/// No block is read whose fingerprint does not hold: its entries are refused,
/// and a lookup that leads to it fails.
pub proof fn damaged_blocks_are_refused(s: SegV, i: int, key: Seq<u8>)
    requires
        0 <= i < s.data.len(),
        !block_sound(s, i),
    ensures
        payload_at(s, i) is Err,
        payload_at(s, i)->Err_0 is Corrupt,
        block_at(s, i) is Err,
        locate_of(s, key) == Some(i) ==> seg_get(s, key) is Err,
{
    reveal(block_at);
}

/// A segment that opens is whole: its head and its foot are there, of the
/// version that is known; the fingerprint of its head holds; its sequences are
/// in order; and its blocks are as many, and hold as many entries, as its head
/// says.
pub proof fn opened_segments_are_whole(b: Seq<u8>) -> (r: (int, Seq<u8>, int, int, int))
    requires
        segment_of(b) is Ok,
    ensures
        ({
            // The end of the head, the heads of the data blocks, the index, the
            // filter and its length.
            let (head, heads, index, bloom, size) = r;
            let s = segment_of(b)->Ok_0;
            let end = b.len() - 22;
            &&& head == 50 + s.key_min.len() + s.key_max.len()
            &&& heads.len() == 28 * s.data.len()
            &&& ck8(
                b.take(head) + heads + b.subrange(index, bloom + 28 + size) + b.subrange(
                    end,
                    end + 14,
                ),
            ) == b.subrange(end + 14, end + 22)
            &&& un_le(b.subrange(index + 8, index + 12)) == s.block_count
            &&& un_le(b.subrange(bloom + 8, bloom + 12)) == s.entry_count
            &&& un_le(b.subrange(end + 4, end + 6)) == 1
            &&& un_le(b.subrange(end + 6, end + 14)) == s.entry_count
            &&& un_le(b.subrange(4, 6)) == 1
        }),
        ({
            let s = segment_of(b)->Ok_0;
            let p = 42int + s.key_min.len() + s.key_max.len();
            &&& s.bytes == b
            &&& p + 8 <= b.len()
            &&& b.take(4) == seq![0x41u8, 0x4b, 0x53, 0x45]
            &&& ck8(b.take(p)) == b.subrange(p, p + 8)
            &&& s.seq_lo <= s.seq_hi
            &&& 0 < s.data.len() == s.block_count
            &&& total_entries(s.data) == s.entry_count
            &&& b.len() >= 22
            &&& b.subrange(b.len() - 22, b.len() - 18) == seq![0x41u8, 0x4b, 0x46, 0x54]
        }),
{
    let h = p_head(b)->Ok_0;
    let s = segment_of(b)->Ok_0;
    let (w, end) = crate::segment::open::walk_from(
        b,
        h.len,
        crate::segment::open::walk_start(),
    )->Ok_0;
    lemma_walk_end(b, h.len, crate::segment::open::walk_start());
    lemma_index_len(
        b.subrange((w.index->0).0 + 28, (w.index->0).0 + 28 + (w.index->0).1),
        w.data,
        w.data.len(),
    );
    assert(crate::segment::open::SEGMENT_MAGIC@ =~= seq![0x41u8, 0x4b, 0x53, 0x45]);
    assert(crate::segment::open::FOOTER_MAGIC@ =~= seq![0x41u8, 0x4b, 0x46, 0x54]);
    assert(b.take(4) =~= b.subrange(0, 4));
    lemma_walk_heads(b, h.len, crate::segment::open::walk_start());
    crate::codec::lemma_le_un_le(b.subrange(4, 6));
    crate::codec::lemma_pow256();
    (h.len, w.headers, (w.index->0).0, (w.bloom->0).0, (w.bloom->0).1)
}

/// A walk takes the 28 bytes that head each data block.
proof fn lemma_walk_heads(b: Seq<u8>, pos: int, w: crate::segment::open::WalkV)
    requires
        0 <= pos <= b.len(),
        crate::segment::open::walk_from(b, pos, w) is Ok,
        w.headers.len() == 28 * w.data.len(),
    ensures
        ({
            let x = (crate::segment::open::walk_from(b, pos, w)->Ok_0).0;
            x.headers.len() == 28 * x.data.len()
        }),
    decreases b.len() - pos,
{
    if !crate::segment::open::at_footer(b, pos) {
        let (w2, q) = crate::segment::open::walk_step(b, pos, w)->Ok_0;
        if pos < q <= b.len() {
            lemma_walk_heads(b, q, w2);
        }
    }
}

/// A block that is met is known: it has its letters, no compression, a kind
/// that does not come before that of the block before it, and a version that
/// its kind has; and it ends within the file.
pub proof fn blocks_that_are_met_are_known(b: Seq<u8>, pos: int, w: crate::segment::open::WalkV)
    requires
        0 <= pos <= b.len(),
        crate::segment::open::walk_step(b, pos, w) is Ok,
    ensures
        ({
            let (x, q) = crate::segment::open::walk_step(b, pos, w)->Ok_0;
            let kind = b[pos + 6];
            let version = un_le(b.subrange(pos + 4, pos + 6));
            &&& pos + 28 <= q <= b.len()
            &&& q == pos + 28 + un_le(b.subrange(pos + 12, pos + 16))
            &&& b.subrange(pos, pos + 4) == seq![0x41u8, 0x4b, 0x42, 0x4c]
            &&& b[pos + 7] == 0
            &&& kind <= 2
            &&& w.last_kind is Some ==> w.last_kind->0 <= kind
            &&& kind == 0 ==> 1 <= version <= 3
            &&& kind > 0 ==> version == 1
            &&& x.data.len() == w.data.len() + (if kind == 0 {
                1int
            } else {
                0
            })
            &&& kind == 1 ==> w.index is None && x.index is Some
            &&& kind == 2 ==> w.bloom is None && x.bloom is Some
        }),
{
    assert(crate::segment::open::BLOCK_MAGIC@ =~= seq![0x41u8, 0x4b, 0x42, 0x4c]);
    crate::codec::lemma_le_un_le(b.subrange(pos + 4, pos + 6));
    crate::codec::lemma_le_un_le(b.subrange(pos + 12, pos + 16));
    crate::codec::lemma_pow256();
}

proof fn lemma_index_len(s: Seq<u8>, data: Seq<crate::segment::open::BlockV>, n: nat)
    ensures
        crate::segment::open::p_index(s, data, n) matches Ok((front, _)) ==> front.len() == n,
    decreases n,
{
    if n > 0 {
        lemma_index_len(s, data, (n - 1) as nat);
    }
}

/// A walk that ends, ends at a footer.
proof fn lemma_walk_end(b: Seq<u8>, pos: int, w: crate::segment::open::WalkV)
    requires
        0 <= pos <= b.len(),
        crate::segment::open::walk_from(b, pos, w) is Ok,
    ensures
        ({
            let end = (crate::segment::open::walk_from(b, pos, w)->Ok_0).1;
            crate::segment::open::at_footer(b, end)
        }),
    decreases b.len() - pos,
{
    if !crate::segment::open::at_footer(b, pos) {
        let (w2, q) = crate::segment::open::walk_step(b, pos, w)->Ok_0;
        lemma_walk_end(b, q, w2);
    }
}

} // verus!
