//! Writing a segment.

use crate::codec::{
    compare, le, lemma_le_len, lemma_lex_total, lemma_lex_trans, lex_lt, push_bytes, push_u16,
    push_u32, push_u64, read_le, to_vec, un_le, Order,
};
use crate::format::{checksum8, ck8, invalid, push_checksum, ErrV, FormatError};
use crate::identity::replica_id::ReplicaId;
use crate::idmap::{lists_map, IdMap};
use crate::placement::BlockId;
use crate::segment::block::{block_payload, encode_payload, end_of_block, lemma_block_len, split};
use crate::segment::entry::{entries_view, EntryV, SegmentEntry};
use crate::segment::open::{
    BLOCK_BLOOM, BLOCK_DATA, BLOCK_INDEX, BLOCK_MAGIC, FOOTER_MAGIC, SEGMENT_MAGIC,
    SEGMENT_VERSION,
};
use crate::segment::read::{hashes_of, probe, probe_bit};
use crate::segment::open::SegmentReader;
use crate::sort::{merge_sort, sorted, Ranked};
use crate::text::{join, join_spec, pad6, Text};
use vstd::prelude::*;

verus! {

pub fn segment_path(dir: &str, segment_id: u64) -> (r: String)
    ensures
        r@ == join_spec(dir@, "SEGMENT-"@ + pad6(segment_id as nat) + ".seg"@),
{
    let name = Text::new("SEGMENT-").pad6(segment_id).lit(".seg").done();
    join(dir, name.as_str())
}

/// One replica's anchor in a published segment: where its entry of the
/// highest sequence lies.
#[derive(Debug, Clone, Copy, PartialEq, Eq, Structural)]
pub struct SegmentAnchor {
    pub replica_id: ReplicaId,
    pub seq: u64,
    pub block_id: BlockId,
    pub entry_offset: u32,
}

// ---------------------------------------------------------------------------
// Order
/// `a` comes before `b`: by key, and newest first within a key.
pub open spec fn comes_first(a: EntryV, b: EntryV) -> bool {
    lex_lt(a.key, b.key) || (a.key == b.key && a.seq > b.seq)
}

/// Entries in strict order: no key has a sequence twice.
pub open spec fn in_order(es: Seq<EntryV>) -> bool {
    forall|i: int, j: int|
        #![trigger es[i], es[j]]
        0 <= i < j < es.len() ==> comes_first(es[i], es[j])
}

impl Ranked for SegmentEntry {
    open spec fn ranked_le(&self, other: &Self) -> bool {
        lex_lt(self.key@, other.key@) || (self.key@ == other.key@ && self.seq >= other.seq)
    }

    proof fn lemma_total(a: &Self, b: &Self) {
        lemma_lex_total(a.key@, b.key@);
    }

    proof fn lemma_trans(a: &Self, b: &Self, c: &Self) {
        if lex_lt(a.key@, b.key@) && lex_lt(b.key@, c.key@) {
            lemma_lex_trans(a.key@, b.key@, c.key@);
        }
    }

    fn le(&self, other: &Self) -> (r: bool) {
        proof {
            lemma_lex_total(self.key@, other.key@);
        }
        match compare(self.key.as_slice(), other.key.as_slice()) {
            Order::Less => true,
            Order::Equal => self.seq >= other.seq,
            Order::Greater => false,
        }
    }
}

/// Two neighbours have the same key and sequence.
pub open spec fn repeats(es: Seq<EntryV>) -> bool {
    exists|i: int|
        #![trigger es[i]]
        0 <= i && i + 1 < es.len() && es[i].key == es[i + 1].key && es[i].seq == es[i + 1].seq
}

// ---------------------------------------------------------------------------
// Bytes
/// The 20 bytes that head a block, before its fingerprint.
pub open spec fn block_head_bytes(kind: u8, entries: u32, size: nat, version: u16) -> Seq<u8> {
    BLOCK_MAGIC@ + le(version as nat, 2) + seq![kind] + seq![0u8] + le(entries as nat, 4) + le(
        (size as u32) as nat,
        4,
    ) + le((size as u32) as nat, 4)
}

/// A block: its header, whose fingerprint covers the payload, and the
/// payload.
pub open spec fn block_bytes(kind: u8, entries: u32, payload: Seq<u8>, version: u16) -> Seq<u8> {
    let head = block_head_bytes(kind, entries, payload.len(), version);
    head + ck8(head + payload) + payload
}

/// The version of the data blocks.
pub open spec fn data_version(v2: bool, v3: bool) -> u16 {
    if v2 {
        if v3 {
            3
        } else {
            2
        }
    } else {
        SEGMENT_VERSION
    }
}

/// The data block of some entries.
pub open spec fn data_block(bl: Seq<EntryV>, v2: bool, v3: bool) -> Seq<u8> {
    block_bytes(
        BLOCK_DATA,
        bl.len() as u32,
        block_payload(bl, bl.len(), v2, v3),
        data_version(v2, v3),
    )
}

/// The first `k` data blocks.
pub open spec fn data_bytes(blocks: Seq<Seq<EntryV>>, k: nat, v2: bool, v3: bool) -> Seq<u8>
    decreases k,
{
    if k == 0 {
        seq![]
    } else {
        data_bytes(blocks, (k - 1) as nat, v2, v3) + data_block(blocks[k - 1], v2, v3)
    }
}

/// The index entry of a block at `offset`.
pub open spec fn index_entry(bl: Seq<EntryV>, offset: nat) -> Seq<u8> {
    le((bl[0].key.len() as u16) as nat, 2) + bl[0].key + le(
        (bl.last().key.len() as u16) as nat,
        2,
    ) + bl.last().key + le((offset as u64) as nat, 8) + le((bl.len() as u32) as nat, 4)
}

/// The index of the first `k` blocks, which begin at `base`.
pub open spec fn index_bytes(
    blocks: Seq<Seq<EntryV>>,
    k: nat,
    base: nat,
    v2: bool,
    v3: bool,
) -> Seq<u8>
    decreases k,
{
    if k == 0 {
        seq![]
    } else {
        index_bytes(blocks, (k - 1) as nat, base, v2, v3) + index_entry(
            blocks[k - 1],
            base + data_bytes(blocks, (k - 1) as nat, v2, v3).len(),
        )
    }
}

pub open spec fn min_seq(es: Seq<EntryV>) -> u64
    decreases es.len(),
{
    if es.len() <= 1 {
        es[0].seq
    } else {
        let rest = min_seq(es.drop_last());
        if es.last().seq < rest {
            es.last().seq
        } else {
            rest
        }
    }
}

pub open spec fn max_seq(es: Seq<EntryV>) -> u64
    decreases es.len(),
{
    if es.len() <= 1 {
        es[0].seq
    } else {
        let rest = max_seq(es.drop_last());
        if es.last().seq > rest {
            es.last().seq
        } else {
            rest
        }
    }
}

pub open spec fn head_body(es: Seq<EntryV>, blocks: nat) -> Seq<u8> {
    SEGMENT_MAGIC@ + le(SEGMENT_VERSION as nat, 2) + le((blocks as u32) as nat, 4) + le(
        (es.len() as u64) as nat,
        8,
    ) + le((es[0].key.len() as u32) as nat, 4) + es[0].key + le(
        (es.last().key.len() as u32) as nat,
        4,
    ) + es.last().key + le(min_seq(es) as nat, 8) + le(max_seq(es) as nat, 8)
}

/// The segment header.
pub open spec fn head_bytes(es: Seq<EntryV>, blocks: nat) -> Seq<u8> {
    head_body(es, blocks) + ck8(head_body(es, blocks))
}

/// Bit `k` set.
pub open spec fn with_bit(bits: Seq<u8>, k: int) -> Seq<u8> {
    bits.update(k / 8, bits[k / 8] | (1u8 << ((k % 8) as u8)))
}

/// The bits of the first `i` probes of a key set.
pub open spec fn with_probes(bits: Seq<u8>, h: (u64, u64), i: nat, m: int) -> Seq<u8>
    decreases i,
{
    if i == 0 {
        bits
    } else {
        with_bit(with_probes(bits, h, (i - 1) as nat, m), probe_bit(h.0, h.1, i - 1, m))
    }
}

/// The filter of the first `n` entries.
pub open spec fn bloom_bits(es: Seq<EntryV>, n: nat, m: int) -> Seq<u8>
    decreases n,
{
    if n == 0 {
        Seq::new(((m + 7) / 8) as nat, |i: int| 0u8)
    } else {
        with_probes(bloom_bits(es, (n - 1) as nat, m), hashes_of(es[n - 1].key), 4, m)
    }
}

/// Ten bits for each entry.
pub open spec fn bloom_size(es: Seq<EntryV>) -> int {
    10 * es.len() as int
}

pub open spec fn bloom_payload(es: Seq<EntryV>) -> Seq<u8> {
    le((bloom_size(es) as u32) as nat, 4) + bloom_bits(es, es.len(), bloom_size(es))
}

/// The fields of the footer, before its fingerprint.
pub open spec fn foot_body(es: Seq<EntryV>) -> Seq<u8> {
    FOOTER_MAGIC@ + le(SEGMENT_VERSION as nat, 2) + le((es.len() as u64) as nat, 8)
}

/// The headers of the first `k` data blocks.
pub open spec fn data_heads(blocks: Seq<Seq<EntryV>>, k: nat, v2: bool, v3: bool) -> Seq<u8>
    decreases k,
{
    if k == 0 {
        seq![]
    } else {
        data_heads(blocks, (k - 1) as nat, v2, v3) + data_block(blocks[k - 1], v2, v3).take(28)
    }
}

/// The index block.
pub open spec fn index_block(
    es: Seq<EntryV>,
    blocks: Seq<Seq<EntryV>>,
    v2: bool,
    v3: bool,
) -> Seq<u8> {
    block_bytes(
        BLOCK_INDEX,
        blocks.len() as u32,
        index_bytes(blocks, blocks.len(), head_bytes(es, blocks.len()).len(), v2, v3),
        SEGMENT_VERSION,
    )
}

/// The bloom block.
pub open spec fn bloom_block(es: Seq<EntryV>) -> Seq<u8> {
    block_bytes(BLOCK_BLOOM, (es.len() as u64) as u32, bloom_payload(es), SEGMENT_VERSION)
}

/// What the footer's fingerprint covers.
pub open spec fn skeleton_bytes(
    es: Seq<EntryV>,
    blocks: Seq<Seq<EntryV>>,
    v2: bool,
    v3: bool,
) -> Seq<u8> {
    head_bytes(es, blocks.len()) + data_heads(blocks, blocks.len(), v2, v3) + index_block(
        es,
        blocks,
        v2,
        v3,
    ) + bloom_block(es) + foot_body(es)
}

/// The bytes of a segment of ordered entries in the given blocks.
pub open spec fn blocks_bytes(
    es: Seq<EntryV>,
    blocks: Seq<Seq<EntryV>>,
    v2: bool,
    v3: bool,
) -> Seq<u8> {
    head_bytes(es, blocks.len()) + data_bytes(blocks, blocks.len(), v2, v3) + index_block(
        es,
        blocks,
        v2,
        v3,
    ) + bloom_block(es) + foot_body(es) + ck8(skeleton_bytes(es, blocks, v2, v3))
}

/// The bytes of a segment of ordered entries.
pub open spec fn segment_bytes(es: Seq<EntryV>, target: nat, v2: bool, v3: bool) -> Seq<u8> {
    blocks_bytes(es, split(es, target, v2, v3), v2, v3)
}

// ---------------------------------------------------------------------------
// Anchors
/// The anchors after an entry: the first entry of a replica sets its anchor,
/// one of a higher sequence moves it. Rows of no replica anchor nothing.
pub open spec fn anchor_add(
    m: Map<u64, SegmentAnchor>,
    e: EntryV,
    block: int,
    offset: int,
) -> Map<u64, SegmentAnchor> {
    let r = e.replica_id.0;
    if r != 0 && (!m.contains_key(r) || e.seq > m[r].seq) {
        m.insert(
            r,
            SegmentAnchor {
                replica_id: e.replica_id,
                seq: e.seq,
                block_id: BlockId(block as u32),
                entry_offset: offset as u32,
            },
        )
    } else {
        m
    }
}

/// The anchors after the first `n` entries of a block.
pub open spec fn anchors_in(
    m: Map<u64, SegmentAnchor>,
    bl: Seq<EntryV>,
    block: int,
    n: nat,
) -> Map<u64, SegmentAnchor>
    decreases n,
{
    if n == 0 {
        m
    } else {
        anchor_add(anchors_in(m, bl, block, (n - 1) as nat), bl[n - 1], block, n - 1)
    }
}

/// The anchors of the first `k` blocks.
pub open spec fn anchors_of(blocks: Seq<Seq<EntryV>>, k: nat) -> Map<u64, SegmentAnchor>
    decreases k,
{
    if k == 0 {
        Map::empty()
    } else {
        anchors_in(
            anchors_of(blocks, (k - 1) as nat),
            blocks[k - 1],
            k - 1,
            blocks[k - 1].len(),
        )
    }
}

/// Anchors as bindings.
pub open spec fn anchor_pairs(s: Seq<SegmentAnchor>) -> Seq<(u64, SegmentAnchor)> {
    s.map_values(|a: SegmentAnchor| (a.replica_id.0, a))
}

/// A published segment: its bytes, the two fields that the manifest records,
/// and the anchors of its replicas, by ascending replica.
pub struct Published {
    pub bytes: Vec<u8>,
    pub file_size: u64,
    pub checksum: u64,
    pub anchors: Vec<SegmentAnchor>,
}

/// `p` is the published form of ordered entries.
pub open spec fn publishes(p: Published, es: Seq<EntryV>, target: nat, v2: bool, v3: bool) -> bool {
    let blocks = split(es, target, v2, v3);
    &&& p.bytes@ == segment_bytes(es, target, v2, v3)
    &&& p.file_size == p.bytes@.len()
    &&& p.checksum == un_le(ck8(p.bytes@))
    &&& lists_map(
        anchor_pairs(p.anchors@),
        if v3 {
            anchors_of(blocks, blocks.len())
        } else {
            Map::empty()
        },
    )
}

// ---------------------------------------------------------------------------
// Encoding
/// Appends a block.
fn push_block(out: &mut Vec<u8>, kind: u8, entries: u32, payload: &Vec<u8>, version: u16)
    ensures
        final(out)@ == old(out)@ + block_bytes(kind, entries, payload@, version),
{
    let ghost start = out@;
    let mut head: Vec<u8> = Vec::new();
    push_bytes(&mut head, BLOCK_MAGIC.as_slice());
    push_u16(&mut head, version);
    head.push(kind);
    head.push(0);
    push_u32(&mut head, entries);
    push_u32(&mut head, payload.len() as u32);
    push_u32(&mut head, payload.len() as u32);
    assert(head@ =~= block_head_bytes(kind, entries, payload@.len(), version));
    let mut sk = to_vec(head.as_slice());
    push_bytes(&mut sk, payload.as_slice());
    let c = checksum8(sk.as_slice());
    push_bytes(out, head.as_slice());
    push_bytes(out, c.as_slice());
    push_bytes(out, payload.as_slice());
    assert(out@ =~= start + block_bytes(kind, entries, payload@, version));
}

pub proof fn lemma_block_bytes_len(kind: u8, entries: u32, payload: Seq<u8>, version: u16)
    ensures
        block_bytes(kind, entries, payload, version).len() == 28 + payload.len(),
        block_head_bytes(kind, entries, payload.len(), version).len() == 20,
{
    lemma_le_len(version as nat, 2);
    lemma_le_len(entries as nat, 4);
    lemma_le_len((payload.len() as u32) as nat, 4);
}

/// Where each block ends.
fn block_ends(
    entries: &Vec<SegmentEntry>,
    target: usize,
    v2: bool,
    v3: bool,
) -> (r: Vec<usize>)
    ensures
        cut_at(entries_view(entries@), r@, split(entries_view(entries@), target as nat, v2, v3)),
{
    let ghost es = entries_view(entries@);
    let ghost blocks = split(es, target as nat, v2, v3);
    let mut ends: Vec<usize> = Vec::new();
    let mut s: usize = 0;
    let ghost mut done: Seq<Seq<EntryV>> = seq![];
    assert(es.skip(0) =~= es);
    assert(done + blocks =~= blocks);
    while s < entries.len()
        invariant
            s <= entries@.len(),
            es == entries_view(entries@),
            blocks == done + split(es.skip(s as int), target as nat, v2, v3),
            cut_at(es.take(s as int), ends@, done),
        decreases entries@.len() - s,
    {
        let e: usize = end_of_block(entries, s, target, v2, v3);
        let ghost n = (e - s) as nat;
        let ghost rest = es.skip(s as int);
        let ghost before = done;
        let ghost ends0 = ends@;
        proof {
            lemma_block_len(rest, 1, target as nat, v2, v3);
            assert(rest.skip(n as int) =~= es.skip(e as int));
            assert(rest.take(n as int) =~= es.subrange(s as int, e as int));
            done = done.push(es.subrange(s as int, e as int));
            assert(before + (seq![rest.take(n as int)] + split(
                es.skip(e as int),
                target as nat,
                v2,
                v3,
            )) =~= done + split(es.skip(e as int), target as nat, v2, v3));
        }
        ends.push(e);
        proof {
            assert forall|i: int| 0 <= i < done.len() implies #[trigger] block_cut(
                es.take(e as int),
                ends@,
                done,
                i,
            ) by {
                if i < before.len() {
                    assert(done[i] == before[i]);
                    assert(block_cut(es.take(s as int), ends0, before, i));
                    assert(start_of(ends@, i) == start_of(ends0, i));
                    assert(before[i] =~= es.take(e as int).subrange(
                        start_of(ends@, i),
                        ends@[i] as int,
                    ));
                } else {
                    assert(start_of(ends@, i) == s);
                    assert(es.take(e as int).subrange(s as int, e as int) =~= es.subrange(
                        s as int,
                        e as int,
                    ));
                }
            }
        }
        assert(ends@.last() == e);
        assert(es.take(e as int).len() == e);
        assert(cut_at(es.take(e as int), ends@, done));
        s = e;
    }
    proof {
        assert(es.take(s as int) =~= es);
        assert(done + Seq::<Seq<EntryV>>::empty() =~= done);
    }
    ends
}

/// Where block `i` starts.
pub open spec fn start_of(ends: Seq<usize>, i: int) -> int {
    if i == 0 {
        0
    } else {
        ends[i - 1] as int
    }
}

/// The blocks are the entries cut at `ends`.
pub open spec fn cut_at(es: Seq<EntryV>, ends: Seq<usize>, blocks: Seq<Seq<EntryV>>) -> bool {
    &&& ends.len() == blocks.len()
    &&& (ends.len() == 0 ==> es.len() == 0)
    &&& (ends.len() > 0 ==> ends.last() == es.len())
    &&& forall|i: int| 0 <= i < blocks.len() ==> #[trigger] block_cut(es, ends, blocks, i)
}

/// Block `i` is the entries from its start to its end.
pub open spec fn block_cut(
    es: Seq<EntryV>,
    ends: Seq<usize>,
    blocks: Seq<Seq<EntryV>>,
    i: int,
) -> bool {
    &&& 0 <= start_of(ends, i)
    &&& start_of(ends, i) < ends[i]
    &&& ends[i] <= es.len()
    &&& blocks[i] == es.subrange(start_of(ends, i), ends[i] as int)
}

fn encode_head(entries: &Vec<SegmentEntry>, blocks: usize) -> (r: Vec<u8>)
    requires
        entries@.len() > 0,
    ensures
        r@ == head_bytes(entries_view(entries@), blocks as nat),
{
    let ghost es = entries_view(entries@);
    let n: usize = entries.len();
    let mut lo: u64 = entries[0].seq;
    let mut hi: u64 = entries[0].seq;
    let mut i: usize = 1;
    while i < n
        invariant
            1 <= i <= n == entries@.len(),
            es == entries_view(entries@),
            lo == min_seq(es.take(i as int)),
            hi == max_seq(es.take(i as int)),
        decreases n - i,
    {
        assert(es.take(i + 1).drop_last() =~= es.take(i as int));
        assert(es.take(i + 1).last() == entries@[i as int]@);
        if entries[i].seq < lo {
            lo = entries[i].seq;
        }
        if entries[i].seq > hi {
            hi = entries[i].seq;
        }
        i += 1;
    }
    assert(es.take(n as int) =~= es);
    assert(es[0] == entries@[0]@);
    assert(es.last() == entries@[n - 1]@);
    let mut out: Vec<u8> = Vec::new();
    push_bytes(&mut out, SEGMENT_MAGIC.as_slice());
    push_u16(&mut out, SEGMENT_VERSION);
    push_u32(&mut out, blocks as u32);
    push_u64(&mut out, n as u64);
    push_u32(&mut out, entries[0].key.len() as u32);
    push_bytes(&mut out, entries[0].key.as_slice());
    push_u32(&mut out, entries[n - 1].key.len() as u32);
    push_bytes(&mut out, entries[n - 1].key.as_slice());
    push_u64(&mut out, lo);
    push_u64(&mut out, hi);
    assert(out@ =~= head_body(es, blocks as nat));
    push_checksum(&mut out);
    out
}

/// The filter over every entry.
fn encode_bloom(entries: &Vec<SegmentEntry>) -> (r: Vec<u8>)
    requires
        0 < entries@.len(),
        10 * entries@.len() <= usize::MAX - 7,
    ensures
        r@ == bloom_payload(entries_view(entries@)),
{
    let ghost es = entries_view(entries@);
    let n: usize = entries.len();
    let m: usize = 10 * n;
    let size: usize = (m + 7) / 8;
    let mut bits: Vec<u8> = Vec::new();
    let mut z: usize = 0;
    while z < size
        invariant
            z <= size,
            bits@ =~= Seq::new(z as nat, |i: int| 0u8),
        decreases size - z,
    {
        bits.push(0);
        z += 1;
    }
    let mut k: usize = 0;
    while k < n
        invariant
            k <= n == entries@.len(),
            m == 10 * n,
            0 < m,
            size == (m + 7) / 8,
            bits@.len() == size,
            es == entries_view(entries@),
            bits@ == bloom_bits(es, k as nat, m as int),
        decreases n - k,
    {
        assert(es[k as int] == entries@[k as int]@);
        let h = SegmentReader::bloom_hashes(entries[k].key.as_slice());
        let ghost b0 = bits@;
        let mut i: u64 = 0;
        while i < 4
            invariant
                i <= 4,
                0 < m,
                size == (m + 7) / 8,
                bits@.len() == size,
                bits@ == with_probes(b0, h, i as nat, m as int),
            decreases 4 - i,
        {
            let bit: u64 = probe(h.0, h.1, i, m as u64);
            let at: usize = (bit / 8) as usize;
            let off: u8 = (bit % 8) as u8;
            let byte: u8 = bits[at];
            bits.set(at, byte | (1u8 << off));
            i += 1;
            assert(bits@ =~= with_probes(b0, h, i as nat, m as int));
        }
        k += 1;
    }
    let mut out: Vec<u8> = Vec::new();
    push_u32(&mut out, m as u32);
    push_bytes(&mut out, bits.as_slice());
    assert(out@ =~= bloom_payload(es));
    out
}

/// Adds the anchors of one block.
fn add_anchors(
    anchors: &mut IdMap<u64, SegmentAnchor>,
    entries: &Vec<SegmentEntry>,
    s: usize,
    e: usize,
    block: usize,
)
    requires
        s <= e <= entries@.len(),
    ensures
        final(anchors)@ == anchors_in(
            old(anchors)@,
            entries_view(entries@).subrange(s as int, e as int),
            block as int,
            (e - s) as nat,
        ),
{
    let ghost bl = entries_view(entries@).subrange(s as int, e as int);
    let mut i: usize = s;
    while i < e
        invariant
            s <= i <= e <= entries@.len(),
            bl == entries_view(entries@).subrange(s as int, e as int),
            anchors@ == anchors_in(old(anchors)@, bl, block as int, (i - s) as nat),
        decreases e - i,
    {
        let cur = &entries[i];
        assert(bl[i - s] == cur@);
        if cur.replica_id.0 != 0 {
            let better = match anchors.get(cur.replica_id.0) {
                None => true,
                Some(a) => cur.seq > a.seq,
            };
            if better {
                anchors.insert(
                    cur.replica_id.0,
                    SegmentAnchor {
                        replica_id: cur.replica_id,
                        seq: cur.seq,
                        block_id: BlockId(block as u32),
                        entry_offset: (i - s) as u32,
                    },
                );
            }
        }
        i += 1;
    }
}

/// The anchors as a list.
fn list_anchors(anchors: &IdMap<u64, SegmentAnchor>) -> (r: Vec<SegmentAnchor>)
    requires
        forall|k: u64| #[trigger] anchors@.contains_key(k) ==> anchors@[k].replica_id.0 == k,
    ensures
        lists_map(anchor_pairs(r@), anchors@),
{
    let pairs = anchors.to_list();
    let mut out: Vec<SegmentAnchor> = Vec::new();
    let mut i: usize = 0;
    while i < pairs.len()
        invariant
            i <= pairs@.len(),
            out@.len() == i,
            lists_map(pairs@, anchors@),
            forall|k: u64| #[trigger] anchors@.contains_key(k) ==> anchors@[k].replica_id.0 == k,
            anchor_pairs(out@) == pairs@.take(i as int),
        decreases pairs@.len() - i,
    {
        let ghost o0 = out@;
        let p = pairs[i];
        assert(anchors@.contains_key(pairs@[i as int].0));
        out.push(p.1);
        assert(anchor_pairs(out@) =~= anchor_pairs(o0).push(p));
        assert(pairs@.take(i + 1) =~= pairs@.take(i as int).push(p));
        i += 1;
    }
    assert(pairs@.take(i as int) =~= pairs@);
    out
}

proof fn lemma_anchor_keys(m: Map<u64, SegmentAnchor>, bl: Seq<EntryV>, block: int, n: nat)
    requires
        forall|k: u64| #[trigger] m.contains_key(k) ==> m[k].replica_id.0 == k,
    ensures
        forall|k: u64| #[trigger]
            anchors_in(m, bl, block, n).contains_key(k) ==> anchors_in(
                m,
                bl,
                block,
                n,
            )[k].replica_id.0 == k,
    decreases n,
{
    if n > 0 {
        lemma_anchor_keys(m, bl, block, (n - 1) as nat);
        let a = anchors_in(m, bl, block, (n - 1) as nat);
        let b = anchors_in(m, bl, block, n);
        assert forall|k: u64| #[trigger] b.contains_key(k) implies b[k].replica_id.0 == k by {
            if k != bl[n - 1].replica_id.0 {
                assert(a.contains_key(k));
            } else if b == a {
                assert(a.contains_key(k));
            }
        }
    }
}

/// Appends the index entry of the block from `s` to `e`, at `offset`.
fn push_index_entry(
    index: &mut Vec<u8>,
    entries: &Vec<SegmentEntry>,
    s: usize,
    e: usize,
    offset: usize,
)
    requires
        s < e <= entries@.len(),
    ensures
        final(index)@ == old(index)@ + index_entry(
            entries_view(entries@).subrange(s as int, e as int),
            offset as nat,
        ),
{
    let ghost bl = entries_view(entries@).subrange(s as int, e as int);
    assert(bl[0] == entries@[s as int]@);
    assert(bl.last() == entries@[e - 1]@);
    push_u16(index, entries[s].key.len() as u16);
    push_bytes(index, entries[s].key.as_slice());
    push_u16(index, entries[e - 1].key.len() as u16);
    push_bytes(index, entries[e - 1].key.as_slice());
    push_u64(index, offset as u64);
    push_u32(index, (e - s) as u32);
    assert(index@ =~= old(index)@ + index_entry(bl, offset as nat));
}

/// Appends the data block from `s` to `e`, and its header to the skeleton.
fn push_data_block(
    out: &mut Vec<u8>,
    sk: &mut Vec<u8>,
    entries: &Vec<SegmentEntry>,
    s: usize,
    e: usize,
    v2: bool,
    v3: bool,
)
    requires
        s < e <= entries@.len(),
    ensures
        final(out)@ == old(out)@ + data_block(
            entries_view(entries@).subrange(s as int, e as int),
            v2,
            v3,
        ),
        final(sk)@ == old(sk)@ + data_block(
            entries_view(entries@).subrange(s as int, e as int),
            v2,
            v3,
        ).take(28),
{
    let ghost bl = entries_view(entries@).subrange(s as int, e as int);
    let payload = encode_payload(entries, s, e, v2, v3);
    let version: u16 = if v2 {
        if v3 {
            3
        } else {
            2
        }
    } else {
        SEGMENT_VERSION
    };
    let mut block: Vec<u8> = Vec::new();
    push_block(&mut block, BLOCK_DATA, (e - s) as u32, &payload, version);
    proof {
        lemma_block_bytes_len(BLOCK_DATA, (e - s) as u32, payload@, version);
        assert(bl.len() == e - s);
        assert(block@ =~= block_bytes(BLOCK_DATA, (e - s) as u32, payload@, version));
        assert(block@ == data_block(bl, v2, v3));
    }
    push_bytes(out, block.as_slice());
    let bs: &[u8] = block.as_slice();
    assert(bs@.subrange(0, 28) =~= data_block(bl, v2, v3).take(28));
    push_bytes(sk, &bs[0..28]);
}

/// Encodes what follows the data blocks, up to the footer's fingerprint.
fn encode_tail(entries: &Vec<SegmentEntry>, index: &Vec<u8>, blocks: usize) -> (r: Vec<u8>)
    requires
        0 < entries@.len(),
        10 * entries@.len() <= usize::MAX - 7,
    ensures
        r@ == block_bytes(BLOCK_INDEX, blocks as u32, index@, SEGMENT_VERSION) + bloom_block(
            entries_view(entries@),
        ) + foot_body(entries_view(entries@)),
{
    let ghost es = entries_view(entries@);
    let mut tail: Vec<u8> = Vec::new();
    push_block(&mut tail, BLOCK_INDEX, blocks as u32, index, SEGMENT_VERSION);
    let ghost t1 = tail@;
    assert(t1 =~= block_bytes(BLOCK_INDEX, blocks as u32, index@, SEGMENT_VERSION));
    let bloom = encode_bloom(entries);
    push_block(&mut tail, BLOCK_BLOOM, (entries.len() as u64) as u32, &bloom, SEGMENT_VERSION);
    let ghost t2 = tail@;
    assert(t2 == t1 + bloom_block(es));
    push_bytes(&mut tail, FOOTER_MAGIC.as_slice());
    push_u16(&mut tail, SEGMENT_VERSION);
    push_u64(&mut tail, entries.len() as u64);
    assert(tail@ =~= t2 + foot_body(es));
    tail
}

proof fn lemma_tail(h: Seq<u8>, d: Seq<u8>, a: Seq<u8>, b: Seq<u8>, c: Seq<u8>)
    ensures
        h + d + (a + b + c) == h + d + a + b + c,
{
    assert(h + d + (a + b + c) =~= h + d + a + b + c);
}

/// Encodes ordered entries as a segment.
#[verifier::rlimit(40)]
fn encode_segment(entries: &Vec<SegmentEntry>, target: usize, v2: bool, v3: bool) -> (r: Published)
    requires
        0 < entries@.len(),
        10 * entries@.len() <= usize::MAX - 7,
    ensures
        publishes(r, entries_view(entries@), target as nat, v2, v3),
{
    let ghost es = entries_view(entries@);
    let ghost blocks = split(es, target as nat, v2, v3);
    let ends = block_ends(entries, target, v2, v3);
    let n: usize = ends.len();
    let head = encode_head(entries, n);
    let ghost h = head_bytes(es, n as nat);
    let mut out = to_vec(head.as_slice());
    let mut sk = to_vec(head.as_slice());
    let mut index: Vec<u8> = Vec::new();
    let mut anchors: IdMap<u64, SegmentAnchor> = IdMap::new();
    let mut i: usize = 0;
    let mut s: usize = 0;
    assert(h + data_bytes(blocks, 0, v2, v3) =~= h);
    assert(h + data_heads(blocks, 0, v2, v3) =~= h);
    assert(index@ =~= index_bytes(blocks, 0, h.len(), v2, v3));
    while i < n
        invariant
            i <= n,
            n == ends@.len(),
            es == entries_view(entries@),
            cut_at(es, ends@, blocks),
            s == start_of(ends@, i as int),
            out@ == h + data_bytes(blocks, i as nat, v2, v3),
            sk@ == h + data_heads(blocks, i as nat, v2, v3),
            index@ == index_bytes(blocks, i as nat, h.len(), v2, v3),
            v3 ==> anchors@ == anchors_of(blocks, i as nat),
            !v3 ==> anchors@ == Map::<u64, SegmentAnchor>::empty(),
            forall|k: u64| #[trigger] anchors@.contains_key(k) ==> anchors@[k].replica_id.0 == k,
        decreases n - i,
    {
        let e: usize = ends[i];
        let ghost bl = blocks[i as int];
        let ghost d0 = data_bytes(blocks, i as nat, v2, v3);
        let ghost h0 = data_heads(blocks, i as nat, v2, v3);
        assert(block_cut(es, ends@, blocks, i as int));
        push_index_entry(&mut index, entries, s, e, out.len());
        push_data_block(&mut out, &mut sk, entries, s, e, v2, v3);
        if v3 {
            proof {
                lemma_anchor_keys(anchors@, bl, i as int, bl.len());
            }
            add_anchors(&mut anchors, entries, s, e, i);
        }
        s = e;
        i += 1;
        assert(h + d0 + data_block(bl, v2, v3) =~= h + (d0 + data_block(bl, v2, v3)));
        assert(h + h0 + data_block(bl, v2, v3).take(28) =~= h + (h0 + data_block(
            bl,
            v2,
            v3,
        ).take(28)));
    }
    let tail = encode_tail(entries, &index, n);
    let ghost ib = index_block(es, blocks, v2, v3);
    push_bytes(&mut sk, tail.as_slice());
    push_bytes(&mut out, tail.as_slice());
    proof {
        lemma_tail(
            h,
            data_bytes(blocks, n as nat, v2, v3),
            ib,
            bloom_block(es),
            foot_body(es),
        );
        lemma_tail(
            h,
            data_heads(blocks, n as nat, v2, v3),
            ib,
            bloom_block(es),
            foot_body(es),
        );
        assert(sk@ == skeleton_bytes(es, blocks, v2, v3));
    }
    let c = checksum8(sk.as_slice());
    push_bytes(&mut out, c.as_slice());
    let whole = checksum8(out.as_slice());
    let checksum: u64 = read_le(whole.as_slice());
    let file_size: u64 = out.len() as u64;
    let list = list_anchors(&anchors);
    Published { bytes: out, file_size, checksum, anchors: list }
}

// ---------------------------------------------------------------------------
// The writer
/// Gathers entries and writes them as one immutable segment.
pub struct SegmentWriter {
    pub target_block_bytes: usize,
    pub entries: Vec<SegmentEntry>,
    /// Data blocks with restart tables.
    pub v2: bool,
    /// Data blocks whose entries carry a replica; implies `v2`.
    pub v3: bool,
}

/// The outcome of publishing a writer's entries, whose ordered form is
/// `order`.
pub open spec fn publish_outcome(
    r: Result<Published, FormatError>,
    entries: Seq<SegmentEntry>,
    order: Seq<SegmentEntry>,
    target: nat,
    v2: bool,
    v3: bool,
) -> bool {
    if target == 0 {
        r is Err && r->Err_0@ == ErrV::Invalid("target block size must be > 0"@)
    } else if entries.len() == 0 {
        r is Err && r->Err_0@ == ErrV::Invalid("cannot publish an empty segment"@)
    } else {
        &&& order.to_multiset() == entries.to_multiset()
        &&& sorted(order)
        &&& if repeats(entries_view(order)) {
            r is Err && r->Err_0@ == ErrV::Invalid("duplicate (key, seq) pair"@)
        } else {
            &&& in_order(entries_view(order))
            &&& r is Ok
            &&& publishes(r->Ok_0, entries_view(order), target, v2, v3)
        }
    }
}

/// A writer that published is empty: published again without a push, it is
/// refused.
pub proof fn an_emptied_writer_is_refused(
    r: Result<Published, FormatError>,
    order: Seq<SegmentEntry>,
    target: nat,
    v2: bool,
    v3: bool,
)
    requires
        publish_outcome(r, seq![], order, target, v2, v3),
    ensures
        r matches Err(e) && e@ is Invalid,
{
}

proof fn lemma_in_order(order: Seq<SegmentEntry>)
    requires
        sorted(order),
        !repeats(entries_view(order)),
    ensures
        in_order(entries_view(order)),
{
    let es = entries_view(order);
    assert forall|i: int, j: int|
        #![trigger es[i], es[j]]
        0 <= i < j < es.len() implies comes_first(es[i], es[j]) by {
        assert(order[i].ranked_le(&order[j]));
        if es[i].key == es[j].key && es[i].seq == es[j].seq {
            assert(order[i].ranked_le(&order[i + 1]));
            assert(order[i + 1].ranked_le(&order[j]));
            lemma_lex_total(es[i].key, es[i + 1].key);
            assert(es[i] == order[i]@);
            assert(es[i + 1] == order[i + 1]@);
            assert(es[i].key == es[i + 1].key && es[i].seq == es[i + 1].seq);
        }
    }
}

impl SegmentWriter {
    pub fn new(target_block_bytes: usize) -> (r: Self)
        ensures
            r.target_block_bytes == target_block_bytes,
            r.entries@ == Seq::<SegmentEntry>::empty(),
            !r.v2,
            !r.v3,
    {
        SegmentWriter { target_block_bytes, entries: Vec::new(), v2: false, v3: false }
    }

    pub fn new_v2(target_block_bytes: usize) -> (r: Self)
        ensures
            r.target_block_bytes == target_block_bytes,
            r.entries@ == Seq::<SegmentEntry>::empty(),
            r.v2,
            !r.v3,
    {
        SegmentWriter { target_block_bytes, entries: Vec::new(), v2: true, v3: false }
    }

    /// Data blocks that keep the replica of each entry.
    pub fn new_v3(target_block_bytes: usize) -> (r: Self)
        ensures
            r.target_block_bytes == target_block_bytes,
            r.entries@ == Seq::<SegmentEntry>::empty(),
            r.v2,
            r.v3,
    {
        SegmentWriter { target_block_bytes, entries: Vec::new(), v2: true, v3: true }
    }

    pub fn push(&mut self, entry: SegmentEntry)
        ensures
            final(self).entries@ == old(self).entries@.push(entry),
            final(self).target_block_bytes == old(self).target_block_bytes,
            final(self).v2 == old(self).v2,
            final(self).v3 == old(self).v3,
    {
        self.entries.push(entry);
    }

    /// Switches to data blocks that keep replicas: rows of no replica read
    /// back the same.
    pub fn enable_v3(&mut self)
        ensures
            final(self).v2,
            final(self).v3,
            final(self).entries == old(self).entries,
            final(self).target_block_bytes == old(self).target_block_bytes,
    {
        self.v2 = true;
        self.v3 = true;
    }

    /// The manifest's fields of the published segment: file size, checksum.
    pub fn publish(&mut self) -> (r: Result<(Vec<u8>, u64, u64), FormatError>)
        requires
            10 * old(self).entries@.len() <= usize::MAX - 7,
        ensures
            exists|order: Seq<SegmentEntry>, p: Result<Published, FormatError>|
                #![trigger publish_outcome(p, old(self).entries@, order, old(self).target_block_bytes as nat, old(self).v2, old(self).v3)]
                publish_outcome(
                    p,
                    old(self).entries@,
                    order,
                    old(self).target_block_bytes as nat,
                    old(self).v2,
                    old(self).v3,
                ) && match p {
                    Ok(x) => r is Ok && r->Ok_0.0 == x.bytes && r->Ok_0.1 == x.file_size
                        && r->Ok_0.2 == x.checksum,
                    Err(e) => r is Err && r->Err_0 == e,
                },
            final(self).target_block_bytes == old(self).target_block_bytes,
            final(self).v2 == old(self).v2,
            final(self).v3 == old(self).v3,
            old(self).target_block_bytes == 0 || old(self).entries@.len() == 0 ==> final(self).entries@
                == old(self).entries@,
            old(self).target_block_bytes != 0 && old(self).entries@.len() != 0 ==> final(self).entries@
                == Seq::<SegmentEntry>::empty(),
            r matches Ok((bytes, file_size, checksum)) ==> file_size == bytes@.len() && checksum
                == un_le(ck8(bytes@)) && final(self).entries@.len() == 0,
    {
        match self.publish_with_anchors() {
            Ok(p) => Ok((p.bytes, p.file_size, p.checksum)),
            Err(e) => Err(e),
        }
    }

    /// Orders the entries (ascending by key, newest first within a key),
    /// splits them into blocks, and encodes the segment. A misuse is refused:
    /// no entries, a block target of zero, a key with one sequence twice. The
    /// entries are taken, but where the writer is empty or has no target.
    pub fn publish_with_anchors(&mut self) -> (r: Result<Published, FormatError>)
        requires
            10 * old(self).entries@.len() <= usize::MAX - 7,
        ensures
            exists|order: Seq<SegmentEntry>|
                publish_outcome(
                    r,
                    old(self).entries@,
                    order,
                    old(self).target_block_bytes as nat,
                    old(self).v2,
                    old(self).v3,
                ),
            final(self).target_block_bytes == old(self).target_block_bytes,
            final(self).v2 == old(self).v2,
            final(self).v3 == old(self).v3,
            old(self).target_block_bytes == 0 || old(self).entries@.len() == 0 ==> final(self).entries@ == old(self).entries@,
            old(self).target_block_bytes != 0 && old(self).entries@.len() != 0 ==> final(self).entries@ == Seq::<SegmentEntry>::empty(),
    {
        let ghost before = self.entries@;
        if self.target_block_bytes == 0 {
            let e = invalid("target block size must be > 0");
            assert(publish_outcome(Err(e), before, before, 0, self.v2, self.v3));
            return Err(e);
        }
        if self.entries.len() == 0 {
            let e = invalid("cannot publish an empty segment");
            assert(publish_outcome(
                Err(e),
                before,
                before,
                self.target_block_bytes as nat,
                self.v2,
                self.v3,
            ));
            return Err(e);
        }
        let mut taken: Vec<SegmentEntry> = Vec::new();
        std::mem::swap(&mut taken, &mut self.entries);
        let entries = merge_sort(taken);
        proof {
            broadcast use vstd::seq_lib::group_to_multiset_ensures;

            assert(entries@.to_multiset().len() == before.to_multiset().len());
            assert(entries@.len() == before.len());
        }
        let ghost es = entries_view(entries@);
        let mut i: usize = 0;
        while i < entries.len() - 1
            invariant
                es == entries_view(entries@),
                i < entries@.len(),
                before.len() == entries@.len(),
                before == old(self).entries@,
                entries@.to_multiset() == before.to_multiset(),
                sorted(entries@),
                self.target_block_bytes == old(self).target_block_bytes,
                self.target_block_bytes != 0,
                self.v2 == old(self).v2,
                self.v3 == old(self).v3,
                self.entries@ == Seq::<SegmentEntry>::empty(),
                forall|k: int|
                    #![trigger es[k]]
                    0 <= k < i ==> !(es[k].key == es[k + 1].key && es[k].seq == es[k + 1].seq),
            decreases entries@.len() - i,
        {
            assert(es[i as int] == entries@[i as int]@);
            assert(es[i + 1] == entries@[i + 1]@);
            if compare(entries[i].key.as_slice(), entries[i + 1].key.as_slice()) == Order::Equal
                && entries[i].seq == entries[i + 1].seq {
                let e = invalid("duplicate (key, seq) pair");
                assert(publish_outcome(
                    Err(e),
                    before,
                    entries@,
                    self.target_block_bytes as nat,
                    self.v2,
                    self.v3,
                ));
                return Err(e);
            }
            i += 1;
        }
        proof {
            assert(!repeats(es));
            lemma_in_order(entries@);
        }
        let p = encode_segment(&entries, self.target_block_bytes, self.v2, self.v3);
        assert(publish_outcome(
            Ok(p),
            before,
            entries@,
            self.target_block_bytes as nat,
            self.v2,
            self.v3,
        ));
        Ok(p)
    }
}

} // verus!
