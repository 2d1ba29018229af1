//! Opening a segment: the skeleton is read and checked, the data payloads are
//! left for the reads that touch them.

use crate::codec::{bytes_eq, lemma_le_un_le, lemma_pow256, push_bytes, read_le, to_vec, un_le};
use crate::format::{
    checksum8, checksum_matches, ck8, corrupt, p_take, p_u16, p_u32, p_u64, rv, truncated, Cursor,
    ErrV, FormatError,
};
use crate::text::{dec, Text};
use vstd::prelude::*;

verus! {

pub const SEGMENT_VERSION: u16 = 1;

pub const SEGMENT_MAGIC: [u8; 4] = [0x41, 0x4b, 0x53, 0x45];

pub const BLOCK_MAGIC: [u8; 4] = [0x41, 0x4b, 0x42, 0x4c];

pub const FOOTER_MAGIC: [u8; 4] = [0x41, 0x4b, 0x46, 0x54];

pub const BLOCK_HEADER_LEN: usize = 28;

pub const FOOTER_LEN: usize = 22;

pub const BLOCK_DATA: u8 = 0;

pub const BLOCK_INDEX: u8 = 1;

pub const BLOCK_BLOOM: u8 = 2;

/// The smallest entry: prefix and suffix lengths, value length, sequence,
/// flags.
pub const MIN_ENTRY_LEN: usize = 17;

// ---------------------------------------------------------------------------
// Header
/// The segment header as a value; `len` is its length in bytes.
#[verifier::ext_equal]
pub struct HeadV {
    pub block_count: u32,
    pub entry_count: u64,
    pub key_min: Seq<u8>,
    pub key_max: Seq<u8>,
    pub seq_lo: u64,
    pub seq_hi: u64,
    pub len: int,
}

pub struct Head {
    pub block_count: u32,
    pub entry_count: u64,
    pub key_min: Vec<u8>,
    pub key_max: Vec<u8>,
    pub seq_lo: u64,
    pub seq_hi: u64,
    pub len: usize,
}

impl View for Head {
    type V = HeadV;

    open spec fn view(&self) -> HeadV {
        HeadV {
            block_count: self.block_count,
            entry_count: self.entry_count,
            key_min: self.key_min@,
            key_max: self.key_max@,
            seq_lo: self.seq_lo,
            seq_hi: self.seq_hi,
            len: self.len as int,
        }
    }
}

/// A header of another version: unsupported where its checksum holds,
/// damaged where it does not.
pub open spec fn other_version(b: Seq<u8>, version: u16) -> ErrV {
    if b.len() >= 54 && ck8(b.take(46)) == b.subrange(46, 54) {
        ErrV::Unsupported(
            "segment format version "@ + dec(version as nat) + " (this build: 1)"@,
        )
    } else {
        ErrV::Corrupt("segment version "@ + dec(version as nat) + " damaged"@)
    }
}

/// The header that `b` begins with.
pub open spec fn p_head(b: Seq<u8>) -> Result<HeadV, ErrV> {
    match p_take(b, 0, 22) {
        Err(e) => Err(e),
        Ok(prefix) => {
            let version = un_le(b.subrange(4, 6)) as u16;
            if b.subrange(0, 4) != SEGMENT_MAGIC@ {
                Err(ErrV::Corrupt("segment bad magic"@))
            } else if version != SEGMENT_VERSION {
                Err(other_version(b, version))
            } else {
                let n = un_le(b.subrange(18, 22)) as int;
                match p_take(b, 22, n) {
                    Err(e) => Err(e),
                    Ok(key_min) => match p_u32(b, 22 + n) {
                        Err(e) => Err(e),
                        Ok(m) => match p_take(b, 26 + n, m as int) {
                            Err(e) => Err(e),
                            Ok(key_max) => p_head_end(b, key_min, key_max),
                        },
                    },
                }
            }
        },
    }
}

/// The two sequences and the checksum that end the header.
pub open spec fn p_head_end(b: Seq<u8>, key_min: Seq<u8>, key_max: Seq<u8>) -> Result<HeadV, ErrV> {
    let p: int = 26 + key_min.len() as int + key_max.len() as int;
    match p_take(b, p, 24) {
        Err(e) => Err(e),
        Ok(tail) => {
            let seq_lo = un_le(b.subrange(p, p + 8)) as u64;
            let seq_hi = un_le(b.subrange(p + 8, p + 16)) as u64;
            if ck8(b.take(p + 16)) != b.subrange(p + 16, p + 24) {
                Err(ErrV::Corrupt("segment header checksum mismatch"@))
            } else if seq_lo > seq_hi {
                Err(
                    ErrV::Corrupt(
                        "seq_lo "@ + dec(seq_lo as nat) + " > seq_hi "@ + dec(seq_hi as nat),
                    ),
                )
            } else {
                Ok(
                    HeadV {
                        block_count: un_le(b.subrange(6, 10)) as u32,
                        entry_count: un_le(b.subrange(10, 18)) as u64,
                        key_min,
                        key_max,
                        seq_lo,
                        seq_hi,
                        len: p + 24,
                    },
                )
            }
        },
    }
}

/// `n` bytes at `pos`.
pub fn bytes_at(bytes: &[u8], pos: usize, n: usize) -> (r: Result<&[u8], FormatError>)
    requires
        pos <= bytes@.len(),
    ensures
        rv(r) == p_take(bytes@, pos as int, n as int),
{
    let mut cur = Cursor { bytes, pos };
    cur.take(n)
}

fn read_head(bytes: &[u8]) -> (r: Result<Head, FormatError>)
    ensures
        rv(r) == p_head(bytes@),
        r matches Ok(h) ==> 50 <= h.len <= bytes@.len(),
{
    let prefix = bytes_at(bytes, 0, 22)?;
    assert(bytes@.subrange(0, 4) =~= prefix@.subrange(0, 4));
    if !bytes_eq(&bytes[0..4], SEGMENT_MAGIC.as_slice()) {
        return Err(corrupt("segment bad magic"));
    }
    proof {
        lemma_pow256();
        lemma_le_un_le(bytes@.subrange(4, 6));
        lemma_le_un_le(bytes@.subrange(6, 10));
        lemma_le_un_le(bytes@.subrange(18, 22));
    }
    let version: u16 = read_le(&bytes[4..6]) as u16;
    if version != SEGMENT_VERSION {
        if bytes.len() >= 54 && checksum_matches(bytes, 46, &bytes[46..54]) {
            return Err(
                FormatError::Unsupported(
                    Text::new("segment format version ").num(version as u64).lit(
                        " (this build: 1)",
                    ).done(),
                ),
            );
        }
        return Err(
            FormatError::Corrupt(
                Text::new("segment version ").num(version as u64).lit(" damaged").done(),
            ),
        );
    }
    let block_count: u32 = read_le(&bytes[6..10]) as u32;
    let entry_count: u64 = read_le(&bytes[10..18]);
    let n: usize = read_le(&bytes[18..22]) as usize;
    let mut cur = Cursor { bytes, pos: 22 };
    let key_min = to_vec(cur.take(n)?);
    let m: usize = cur.u32()? as usize;
    let key_max = to_vec(cur.take(m)?);
    let p: usize = cur.pos;
    assert(p == 26 + key_min@.len() + key_max@.len());
    let tail = cur.take(24)?;
    let total: usize = bytes.len();
    assert(p + 24 <= total);
    let seq_lo: u64 = read_le(&bytes[p..p + 8]);
    let seq_hi: u64 = read_le(&bytes[p + 8..p + 16]);
    if !checksum_matches(bytes, p + 16, &bytes[p + 16..p + 24]) {
        return Err(corrupt("segment header checksum mismatch"));
    }
    if seq_lo > seq_hi {
        return Err(
            FormatError::Corrupt(
                Text::new("seq_lo ").num(seq_lo).lit(" > seq_hi ").num(seq_hi).done(),
            ),
        );
    }
    Ok(Head { block_count, entry_count, key_min, key_max, seq_lo, seq_hi, len: p + 24 })
}

// ---------------------------------------------------------------------------
// Blocks
/// One data block as a value. The key range comes from the index.
#[verifier::ext_equal]
pub struct BlockV {
    pub header: int,
    pub payload_len: int,
    pub entries: u32,
    pub v2: bool,
    pub v3: bool,
    pub first: Seq<u8>,
    pub last: Seq<u8>,
}

pub struct DataBlock {
    /// Where the 28-byte block header lies; the payload follows.
    pub header: usize,
    pub payload_len: usize,
    pub entries: u32,
    /// The payload begins with a restart table.
    pub v2: bool,
    /// Entries carry a replica.
    pub v3: bool,
    pub first: Vec<u8>,
    pub last: Vec<u8>,
}

impl View for DataBlock {
    type V = BlockV;

    open spec fn view(&self) -> BlockV {
        BlockV {
            header: self.header as int,
            payload_len: self.payload_len as int,
            entries: self.entries,
            v2: self.v2,
            v3: self.v3,
            first: self.first@,
            last: self.last@,
        }
    }
}

/// Blocks as values.
pub open spec fn blocks_view(s: Seq<DataBlock>) -> Seq<BlockV> {
    s.map_values(|b: DataBlock| b@)
}

/// What the walk over the blocks has met so far.
#[verifier::ext_equal]
pub struct WalkV {
    pub data: Seq<BlockV>,
    pub headers: Seq<u8>,
    pub last_kind: Option<u8>,
    pub index: Option<(int, int)>,
    pub bloom: Option<(int, int)>,
}

pub struct Walk {
    pub data: Vec<DataBlock>,
    pub headers: Vec<u8>,
    pub last_kind: Option<u8>,
    pub index: Option<(usize, usize)>,
    pub bloom: Option<(usize, usize)>,
}

pub open spec fn span_view(s: Option<(usize, usize)>) -> Option<(int, int)> {
    match s {
        Some((a, b)) => Some((a as int, b as int)),
        None => None,
    }
}

impl View for Walk {
    type V = WalkV;

    open spec fn view(&self) -> WalkV {
        WalkV {
            data: blocks_view(self.data@),
            headers: self.headers@,
            last_kind: self.last_kind,
            index: span_view(self.index),
            bloom: span_view(self.bloom),
        }
    }
}

pub open spec fn walk_start() -> WalkV {
    WalkV { data: seq![], headers: seq![], last_kind: None, index: None, bloom: None }
}

/// The block versions this build knows: 1 for all, 2 and 3 for data.
pub open spec fn known_block(version: u16, kind: u8) -> bool {
    version == SEGMENT_VERSION || ((version == 2 || version == 3) && kind == BLOCK_DATA)
}

/// The error for a block of an unknown version.
pub open spec fn unknown_block(b: Seq<u8>, pos: int, version: u16, size: int) -> ErrV {
    if version == 0 {
        ErrV::Corrupt("block version 0"@)
    } else {
        match p_take(b, pos + 28, size) {
            Err(e) => e,
            Ok(payload) => if ck8(b.subrange(pos, pos + 20) + payload) != b.subrange(
                pos + 20,
                pos + 28,
            ) {
                ErrV::Corrupt("block version "@ + dec(version as nat) + " damaged"@)
            } else {
                ErrV::Unsupported(
                    "block version "@ + dec(version as nat)
                        + " (this build: data 1|2|3, index/bloom 1)"@,
                )
            },
        }
    }
}

/// The error for a compressed block: a newer format where its checksum holds,
/// damage otherwise.
pub open spec fn compressed_block(b: Seq<u8>, pos: int, compression: u8, size: int) -> ErrV {
    match p_take(b, pos + 28, size) {
        Err(e) => e,
        Ok(payload) => if ck8(b.subrange(pos, pos + 20) + payload) != b.subrange(
            pos + 20,
            pos + 28,
        ) {
            ErrV::Corrupt("block compression "@ + dec(compression as nat) + " damaged"@)
        } else {
            ErrV::Unsupported("block compression "@ + dec(compression as nat))
        },
    }
}

/// The walk after a block of `size` payload bytes at `pos`.
pub open spec fn walk_add(
    b: Seq<u8>,
    pos: int,
    w: WalkV,
    version: u16,
    kind: u8,
    entries: u32,
    size: int,
) -> Result<WalkV, ErrV> {
    if kind == BLOCK_DATA {
        if entries > size / 17 {
            Err(
                ErrV::Corrupt(
                    dec(entries as nat) + " entries cannot fit in "@ + dec(size as nat)
                        + " bytes"@,
                ),
            )
        } else {
            Ok(
                WalkV {
                    data: w.data.push(
                        BlockV {
                            header: pos,
                            payload_len: size,
                            entries,
                            v2: version == 2 || version == 3,
                            v3: version == 3,
                            first: seq![],
                            last: seq![],
                        },
                    ),
                    headers: w.headers + b.subrange(pos, pos + 28),
                    last_kind: Some(kind),
                    ..w
                },
            )
        }
    } else if kind == BLOCK_INDEX {
        if w.index is Some {
            Err(ErrV::Corrupt("two index blocks"@))
        } else {
            Ok(WalkV { index: Some((pos, size)), last_kind: Some(kind), ..w })
        }
    } else {
        if w.bloom is Some {
            Err(ErrV::Corrupt("two bloom blocks"@))
        } else {
            Ok(WalkV { bloom: Some((pos, size)), last_kind: Some(kind), ..w })
        }
    }
}

/// The block at `pos`: the walk after it, and the position behind it.
pub open spec fn walk_step(b: Seq<u8>, pos: int, w: WalkV) -> Result<(WalkV, int), ErrV> {
    let version = un_le(b.subrange(pos + 4, pos + 6)) as u16;
    let kind = b[pos + 6];
    let compression = b[pos + 7];
    let entries = un_le(b.subrange(pos + 8, pos + 12)) as u32;
    let size = un_le(b.subrange(pos + 12, pos + 16)) as int;
    if b.len() - pos < 28 {
        Err(
            ErrV::Corrupt(
                "truncated: need a block or footer at offset "@ + dec(pos as nat) + ", "@ + dec(
                    (b.len() - pos) as nat,
                ) + " bytes remain"@,
            ),
        )
    } else if b.subrange(pos, pos + 4) != BLOCK_MAGIC@ {
        Err(ErrV::Corrupt("block bad magic"@))
    } else if compression != 0 {
        Err(compressed_block(b, pos, compression, size))
    } else if kind > BLOCK_BLOOM || (w.last_kind is Some && kind < w.last_kind->0) {
        Err(ErrV::Corrupt("block types out of order"@))
    } else if !known_block(version, kind) {
        Err(unknown_block(b, pos, version, size))
    } else if b.len() - (pos + 28) < size {
        Err(truncated(size, pos + 28, b.len() - (pos + 28)))
    } else {
        match walk_add(b, pos, w, version, kind, entries, size) {
            Err(e) => Err(e),
            Ok(w2) => Ok((w2, pos + 28 + size)),
        }
    }
}

/// The footer begins at `pos`.
pub open spec fn at_footer(b: Seq<u8>, pos: int) -> bool {
    b.len() - pos >= 4 && b.subrange(pos, pos + 4) == FOOTER_MAGIC@
}

/// The walk from `pos` to the footer, and where that begins. Payloads are
/// skipped by size, so one that looks like a footer is never misread.
pub open spec fn walk_from(b: Seq<u8>, pos: int, w: WalkV) -> Result<(WalkV, int), ErrV>
    decreases b.len() - pos,
{
    if at_footer(b, pos) {
        Ok((w, pos))
    } else {
        match walk_step(b, pos, w) {
            Err(e) => Err(e),
            Ok((w2, q)) => if pos < q <= b.len() {
                walk_from(b, q, w2)
            } else {
                Ok((w2, q))
            },
        }
    }
}

/// The blocks met lie in order within the bytes.
pub open spec fn walk_ok(w: WalkV, pos: int, len: int) -> bool {
    &&& forall|i: int|
        #![trigger w.data[i]]
        0 <= i < w.data.len() ==> 0 <= w.data[i].header && 0 <= w.data[i].payload_len
            && w.data[i].header + 28 + w.data[i].payload_len <= pos
    &&& (w.index matches Some((h, n)) ==> 0 <= h && 0 <= n && h + 28 + n <= pos && w.last_kind is Some
        && w.last_kind->0 >= 1)
    &&& (w.bloom matches Some((h, n)) ==> 0 <= h && 0 <= n && h + 28 + n <= pos && w.last_kind is Some
        && w.last_kind->0 >= 2)
    &&& (w.index matches Some((h, n)) ==> (w.bloom matches Some((g, m)) ==> h + 28 + n <= g))
    &&& pos <= len
}

fn read_block_head(bytes: &[u8], pos: usize, w: &mut Walk) -> (r: Result<usize, FormatError>)
    requires
        walk_ok(old(w)@, pos as int, bytes@.len() as int),
    ensures
        match (r, walk_step(bytes@, pos as int, old(w)@)) {
            (Ok(q), Ok((w2, p))) => final(w)@ == w2 && q == p && pos < q && walk_ok(
                final(w)@,
                q as int,
                bytes@.len() as int,
            ),
            (Err(e), Err(f)) => e@ == f,
            _ => false,
        },
{
    let total: usize = bytes.len();
    if total - pos < BLOCK_HEADER_LEN {
        return Err(
            FormatError::Corrupt(
                Text::new("truncated: need a block or footer at offset ").num(pos as u64).lit(
                    ", ",
                ).num((total - pos) as u64).lit(" bytes remain").done(),
            ),
        );
    }
    if !bytes_eq(&bytes[pos..pos + 4], BLOCK_MAGIC.as_slice()) {
        return Err(corrupt("block bad magic"));
    }
    proof {
        lemma_pow256();
        lemma_le_un_le(bytes@.subrange(pos + 4, pos + 6));
        lemma_le_un_le(bytes@.subrange(pos + 8, pos + 12));
        lemma_le_un_le(bytes@.subrange(pos + 12, pos + 16));
    }
    let version: u16 = read_le(&bytes[pos + 4..pos + 6]) as u16;
    let kind: u8 = bytes[pos + 6];
    let compression: u8 = bytes[pos + 7];
    if compression != 0 {
        let size: usize = read_le(&bytes[pos + 12..pos + 16]) as usize;
        return Err(read_compressed_block(bytes, pos, compression, size));
    }
    let backwards = match w.last_kind {
        Some(k) => kind < k,
        None => false,
    };
    if kind > BLOCK_BLOOM || backwards {
        return Err(corrupt("block types out of order"));
    }
    let entries: u32 = read_le(&bytes[pos + 8..pos + 12]) as u32;
    let size: usize = read_le(&bytes[pos + 12..pos + 16]) as usize;
    let known = version == SEGMENT_VERSION || ((version == 2 || version == 3) && kind
        == BLOCK_DATA);
    if !known {
        return Err(read_unknown_block(bytes, pos, version, size));
    }
    let body: usize = pos + BLOCK_HEADER_LEN;
    if total - body < size {
        return Err(
            FormatError::Corrupt(
                Text::new("truncated: need ").num(size as u64).lit(" bytes at offset ").num(
                    body as u64,
                ).lit(", ").num((total - body) as u64).lit(" remain").done(),
            ),
        );
    }
    if kind == BLOCK_DATA {
        if entries as usize > size / MIN_ENTRY_LEN {
            proof {
                reveal_strlit("");
                assert(""@ + dec(entries as nat) =~= dec(entries as nat));
            }
            return Err(
                FormatError::Corrupt(
                    Text::new("").num(entries as u64).lit(" entries cannot fit in ").num(
                        size as u64,
                    ).lit(" bytes").done(),
                ),
            );
        }
        push_bytes(&mut w.headers, &bytes[pos..body]);
        let ghost before = w.data@;
        let first: Vec<u8> = Vec::new();
        let last: Vec<u8> = Vec::new();
        let blk = DataBlock {
            header: pos,
            payload_len: size,
            entries,
            v2: version == 2 || version == 3,
            v3: version == 3,
            first,
            last,
        };
        w.data.push(blk);
        assert(blk@.first =~= seq![]);
        assert(blk@.last =~= seq![]);
        assert(blocks_view(w.data@) =~= blocks_view(before).push(blk@));
    } else if kind == BLOCK_INDEX {
        if w.index.is_some() {
            return Err(corrupt("two index blocks"));
        }
        w.index = Some((pos, size));
    } else {
        if w.bloom.is_some() {
            return Err(corrupt("two bloom blocks"));
        }
        w.bloom = Some((pos, size));
    }
    w.last_kind = Some(kind);
    let ghost w2 = walk_add(
        bytes@,
        pos as int,
        old(w)@,
        version,
        kind,
        entries,
        size as int,
    )->Ok_0;
    assert(w@ =~= w2);
    Ok(body + size)
}

fn read_compressed_block(bytes: &[u8], pos: usize, compression: u8, size: usize) -> (r: FormatError)
    requires
        pos + 28 <= bytes@.len(),
    ensures
        r@ == compressed_block(bytes@, pos as int, compression, size as int),
{
    let total: usize = bytes.len();
    let payload = match bytes_at(bytes, pos + BLOCK_HEADER_LEN, size) {
        Ok(p) => p,
        Err(e) => {
            return e;
        },
    };
    let mut sk = to_vec(&bytes[pos..pos + 20]);
    push_bytes(&mut sk, payload);
    let c = checksum8(sk.as_slice());
    if !bytes_eq(c.as_slice(), &bytes[pos + 20..pos + 28]) {
        return FormatError::Corrupt(
            Text::new("block compression ").num(compression as u64).lit(" damaged").done(),
        );
    }
    FormatError::Unsupported(Text::new("block compression ").num(compression as u64).done())
}

fn read_unknown_block(bytes: &[u8], pos: usize, version: u16, size: usize) -> (r: FormatError)
    requires
        pos + 28 <= bytes@.len(),
    ensures
        r@ == unknown_block(bytes@, pos as int, version, size as int),
{
    let total: usize = bytes.len();
    if version == 0 {
        return corrupt("block version 0");
    }
    let payload = match bytes_at(bytes, pos + BLOCK_HEADER_LEN, size) {
        Ok(p) => p,
        Err(e) => {
            return e;
        },
    };
    let mut sk = to_vec(&bytes[pos..pos + 20]);
    push_bytes(&mut sk, payload);
    let c = checksum8(sk.as_slice());
    if !bytes_eq(c.as_slice(), &bytes[pos + 20..pos + 28]) {
        return FormatError::Corrupt(
            Text::new("block version ").num(version as u64).lit(" damaged").done(),
        );
    }
    FormatError::Unsupported(
        Text::new("block version ").num(version as u64).lit(
            " (this build: data 1|2|3, index/bloom 1)",
        ).done(),
    )
}

fn walk_blocks(bytes: &[u8], start: usize) -> (r: Result<(Walk, usize), FormatError>)
    requires
        start <= bytes@.len(),
    ensures
        match (r, walk_from(bytes@, start as int, walk_start())) {
            (Ok((w, q)), Ok((v, p))) => w@ == v && q == p && walk_ok(
                w@,
                q as int,
                bytes@.len() as int,
            ) && at_footer(bytes@, q as int),
            (Err(e), Err(f)) => e@ == f,
            _ => false,
        },
{
    let mut w = Walk {
        data: Vec::new(),
        headers: Vec::new(),
        last_kind: None,
        index: None,
        bloom: None,
    };
    assert(w@ =~= walk_start());
    let total: usize = bytes.len();
    let mut pos: usize = start;
    loop
        invariant
            pos <= total == bytes@.len(),
            walk_ok(w@, pos as int, total as int),
            walk_from(bytes@, start as int, walk_start()) == walk_from(bytes@, pos as int, w@),
        decreases total - pos,
    {
        if total - pos >= 4 && bytes_eq(&bytes[pos..pos + 4], FOOTER_MAGIC.as_slice()) {
            return Ok((w, pos));
        }
        match read_block_head(bytes, pos, &mut w) {
            Ok(q) => {
                pos = q;
            },
            Err(e) => {
                return Err(e);
            },
        }
    }
}

// ---------------------------------------------------------------------------
// Index
/// The index entry at `pos` for a block: the block with its key range, and
/// the position behind it.
pub open spec fn p_index_entry(s: Seq<u8>, pos: int, blk: BlockV) -> Result<(BlockV, int), ErrV> {
    match p_u16(s, pos) {
        Err(e) => Err(e),
        Ok(n) => match p_take(s, pos + 2, n as int) {
            Err(e) => Err(e),
            Ok(first) => {
                let q = pos + 2 + n;
                match p_u16(s, q) {
                    Err(e) => Err(e),
                    Ok(m) => match p_take(s, q + 2, m as int) {
                        Err(e) => Err(e),
                        Ok(last) => p_index_tail(s, q + 2 + m, BlockV { first, last, ..blk }),
                    },
                }
            },
        },
    }
}

/// The block's offset and entry count, which must agree with the block.
pub open spec fn p_index_tail(s: Seq<u8>, p: int, blk: BlockV) -> Result<(BlockV, int), ErrV> {
    match p_u64(s, p) {
        Err(e) => Err(e),
        Ok(offset) => match p_u32(s, p + 8) {
            Err(e) => Err(e),
            Ok(count) => if offset != blk.header {
                Err(
                    ErrV::Corrupt(
                        "index says block at "@ + dec(offset as nat) + ", found at "@ + dec(
                            blk.header as nat,
                        ),
                    ),
                )
            } else if count != blk.entries {
                Err(
                    ErrV::Corrupt(
                        "index says "@ + dec(count as nat) + " entries, block header says "@ + dec(
                            blk.entries as nat,
                        ),
                    ),
                )
            } else {
                Ok((blk, p + 12))
            },
        },
    }
}

/// The blocks with their key ranges, from the first `n` index entries.
pub open spec fn p_index(s: Seq<u8>, data: Seq<BlockV>, n: nat) -> Result<(Seq<BlockV>, int), ErrV>
    decreases n,
{
    if n == 0 {
        Ok((seq![], 0))
    } else {
        match p_index(s, data, (n - 1) as nat) {
            Err(e) => Err(e),
            Ok((front, p)) => match p_index_entry(s, p, data[n - 1]) {
                Err(e) => Err(e),
                Ok((blk, q)) => Ok((front.push(blk), q)),
            },
        }
    }
}

/// The entries that the blocks hold.
pub open spec fn total_entries(data: Seq<BlockV>) -> nat
    decreases data.len(),
{
    if data.len() == 0 {
        0
    } else {
        total_entries(data.drop_last()) + data.last().entries as nat
    }
}

fn read_index_entry(cur: &mut Cursor<'_>, blk: &DataBlock) -> (r: Result<DataBlock, FormatError>)
    requires
        old(cur).wf(),
    ensures
        final(cur).wf(),
        final(cur).bytes == old(cur).bytes,
        match (r, p_index_entry(old(cur).bytes@, old(cur).pos as int, blk@)) {
            (Ok(d), Ok((v, q))) => d@ == v && final(cur).pos == q && d.header == blk.header
                && d.payload_len == blk.payload_len && d.entries == blk.entries,
            (Err(e), Err(f)) => e@ == f,
            _ => false,
        },
{
    let n = cur.u16()? as usize;
    let first = to_vec(cur.take(n)?);
    let m = cur.u16()? as usize;
    let last = to_vec(cur.take(m)?);
    let offset = cur.u64()?;
    let count = cur.u32()?;
    if offset != blk.header as u64 {
        return Err(
            FormatError::Corrupt(
                Text::new("index says block at ").num(offset).lit(", found at ").num(
                    blk.header as u64,
                ).done(),
            ),
        );
    }
    if count != blk.entries {
        return Err(
            FormatError::Corrupt(
                Text::new("index says ").num(count as u64).lit(
                    " entries, block header says ",
                ).num(blk.entries as u64).done(),
            ),
        );
    }
    Ok(
        DataBlock {
            header: blk.header,
            payload_len: blk.payload_len,
            entries: blk.entries,
            v2: blk.v2,
            v3: blk.v3,
            first,
            last,
        },
    )
}

proof fn lemma_p_index_err(s: Seq<u8>, data: Seq<BlockV>, i: nat, n: nat)
    requires
        i <= n,
        p_index(s, data, i) is Err,
    ensures
        p_index(s, data, n) == p_index(s, data, i),
    decreases n,
{
    if i < n {
        lemma_p_index_err(s, data, i, (n - 1) as nat);
    }
}

// ---------------------------------------------------------------------------
// The whole
/// An open segment as a value.
#[verifier::ext_equal]
pub struct SegV {
    pub bytes: Seq<u8>,
    pub block_count: u32,
    pub entry_count: u64,
    pub key_min: Seq<u8>,
    pub key_max: Seq<u8>,
    pub seq_lo: u64,
    pub seq_hi: u64,
    pub data: Seq<BlockV>,
    pub bits: Seq<u8>,
    pub bloom_m: u32,
}

/// A read-only handle on a published segment.
pub struct SegmentReader {
    pub bytes: Vec<u8>,
    pub block_count: u32,
    pub entry_count: u64,
    pub key_min: Vec<u8>,
    pub key_max: Vec<u8>,
    pub seq_lo: u64,
    pub seq_hi: u64,
    pub data: Vec<DataBlock>,
    pub bits: Vec<u8>,
    pub bloom_m: u32,
}

impl View for SegmentReader {
    type V = SegV;

    open spec fn view(&self) -> SegV {
        SegV {
            bytes: self.bytes@,
            block_count: self.block_count,
            entry_count: self.entry_count,
            key_min: self.key_min@,
            key_max: self.key_max@,
            seq_lo: self.seq_lo,
            seq_hi: self.seq_hi,
            data: blocks_view(self.data@),
            bits: self.bits@,
            bloom_m: self.bloom_m,
        }
    }
}

/// The data blocks lie within the bytes, and the bloom bits cover `bloom_m`.
pub open spec fn seg_ok(s: SegV) -> bool {
    &&& s.data.len() == s.block_count
    &&& forall|i: int|
        #![trigger s.data[i]]
        0 <= i < s.data.len() ==> 0 <= s.data[i].header && 0 <= s.data[i].payload_len
            && s.data[i].header + 28 + s.data[i].payload_len <= s.bytes.len()
    &&& s.bits.len() == (s.bloom_m + 7) / 8
}

/// The error of a bloom payload, if any.
pub open spec fn p_bloom(s: Seq<u8>) -> Result<u32, ErrV> {
    match p_u32(s, 0) {
        Err(e) => Err(e),
        Ok(m) => if s.len() - 4 != (m + 7) / 8 {
            Err(
                ErrV::Corrupt(
                    "bloom: m = "@ + dec(m as nat) + " needs "@ + dec(((m + 7) / 8) as nat)
                        + " bit-bytes, "@ + dec((s.len() - 4) as nat) + " present"@,
                ),
            )
        } else {
            Ok(m)
        },
    }
}

/// The segment of a header, a walk that ended at `end`, and an index.
pub open spec fn seg_rest(b: Seq<u8>, h: HeadV, w: WalkV, end: int) -> Result<SegV, ErrV> {
    let (ih, il) = w.index->0;
    let (bh, bl) = w.bloom->0;
    let index = b.subrange(ih + 28, ih + 28 + il);
    let bloom = b.subrange(bh + 28, bh + 28 + bl);
    match p_index(index, w.data, w.data.len()) {
        Err(e) => Err(e),
        Ok((data, p)) => if p != index.len() {
            Err(ErrV::Corrupt("index trailing bytes"@))
        } else if total_entries(data) != h.entry_count {
            Err(
                ErrV::Corrupt(
                    "data blocks hold "@ + dec(total_entries(data)) + " entries, header says "@
                        + dec(h.entry_count as nat),
                ),
            )
        } else {
            match p_bloom(bloom) {
                Err(e) => Err(e),
                Ok(m) => if un_le(b.subrange(ih + 8, ih + 12)) != h.block_count {
                    Err(ErrV::Corrupt("index block entry count mismatch"@))
                } else if un_le(b.subrange(bh + 8, bh + 12)) != h.entry_count {
                    Err(ErrV::Corrupt("bloom block entry count mismatch"@))
                } else if ck8(skeleton(b, h, w, end)) != b.subrange(end + 14, end + 22) {
                    Err(ErrV::Corrupt("footer skeleton checksum mismatch"@))
                } else {
                    Ok(
                        SegV {
                            bytes: b,
                            block_count: h.block_count,
                            entry_count: h.entry_count,
                            key_min: h.key_min,
                            key_max: h.key_max,
                            seq_lo: h.seq_lo,
                            seq_hi: h.seq_hi,
                            data,
                            bits: bloom.skip(4),
                            bloom_m: m,
                        },
                    )
                },
            }
        },
    }
}

/// Everything that the footer's checksum covers: the header, the data block
/// headers, the index and bloom blocks, the footer's own fields.
pub open spec fn skeleton(b: Seq<u8>, h: HeadV, w: WalkV, end: int) -> Seq<u8> {
    let ih = (w.index->0).0;
    let (bh, bl) = w.bloom->0;
    b.take(h.len) + w.headers + b.subrange(ih, bh + 28 + bl) + b.subrange(end, end + 14)
}

/// The footer at `end`, and what must have been met before it.
pub open spec fn seg_footer(b: Seq<u8>, h: HeadV, w: WalkV, end: int) -> Result<SegV, ErrV> {
    if b.len() - end != FOOTER_LEN {
        Err(
            ErrV::Corrupt(
                "footer must be exactly 22 bytes at the end, "@ + dec((b.len() - end) as nat)
                    + " remain"@,
            ),
        )
    } else if un_le(b.subrange(end + 4, end + 6)) != SEGMENT_VERSION {
        Err(ErrV::Corrupt("footer version"@))
    } else if un_le(b.subrange(end + 6, end + 14)) != h.entry_count {
        Err(ErrV::Corrupt("footer entry_count mismatch"@))
    } else if w.index is None {
        Err(ErrV::Corrupt("missing index block"@))
    } else if w.bloom is None {
        Err(ErrV::Corrupt("missing bloom block"@))
    } else if w.data.len() == 0 || w.data.len() != h.block_count {
        Err(
            ErrV::Corrupt(
                "header says "@ + dec(h.block_count as nat) + " data blocks, found "@ + dec(
                    w.data.len(),
                ),
            ),
        )
    } else {
        seg_rest(b, h, w, end)
    }
}

/// What the bytes of a segment file mean.
pub open spec fn segment_of(b: Seq<u8>) -> Result<SegV, ErrV> {
    match p_head(b) {
        Err(e) => Err(e),
        Ok(h) => match walk_from(b, h.len, walk_start()) {
            Err(e) => Err(e),
            Ok((w, end)) => seg_footer(b, h, w, end),
        },
    }
}

/// Reads the index: the blocks with their key ranges.
fn read_index(index: &[u8], w: &Walk, entry_count: u64) -> (r: Result<Vec<DataBlock>, FormatError>)
    requires
        w.data@.len() <= u32::MAX,
    ensures
        match p_index(index@, w@.data, w@.data.len()) {
            Err(e) => r is Err && r->Err_0@ == e,
            Ok((data, p)) => if p != index@.len() {
                r is Err && r->Err_0@ == ErrV::Corrupt("index trailing bytes"@)
            } else if total_entries(data) != entry_count {
                r is Err && r->Err_0@ == ErrV::Corrupt(
                    "data blocks hold "@ + dec(total_entries(data)) + " entries, header says "@
                        + dec(entry_count as nat),
                )
            } else {
                r is Ok && blocks_view(r->Ok_0@) == data && data.len() == w.data@.len() && forall|
                    i: int,
                |
                    #![trigger data[i]]
                    0 <= i < data.len() ==> data[i].header == w@.data[i].header
                        && data[i].payload_len == w@.data[i].payload_len
            },
        },
{
    let ghost all = w@.data;
    let mut cur = Cursor::new(index);
    let mut out: Vec<DataBlock> = Vec::new();
    let mut total: u64 = 0;
    let mut i: usize = 0;
    assert(blocks_view(out@) =~= seq![]);
    while i < w.data.len()
        invariant
            i <= w.data@.len() <= u32::MAX,
            all == blocks_view(w.data@),
            cur.wf(),
            cur.bytes == index,
            out@.len() == i,
            p_index(index@, all, i as nat) == Ok::<(Seq<BlockV>, int), ErrV>(
                (blocks_view(out@), cur.pos as int),
            ),
            total == total_entries(blocks_view(out@)),
            total <= i * u32::MAX,
            forall|k: int|
                #![trigger blocks_view(out@)[k]]
                0 <= k < i ==> blocks_view(out@)[k].header == all[k].header && blocks_view(
                    out@,
                )[k].payload_len == all[k].payload_len,
        decreases w.data@.len() - i,
    {
        let d = match read_index_entry(&mut cur, &w.data[i]) {
            Ok(d) => d,
            Err(e) => {
                proof {
                    lemma_p_index_err(index@, all, (i + 1) as nat, all.len());
                }
                return Err(e);
            },
        };
        assert(i * u32::MAX + u32::MAX <= u64::MAX) by (nonlinear_arith)
            requires
                i < u32::MAX,
        ;
        assert((i + 1) * u32::MAX == i * u32::MAX + u32::MAX) by (nonlinear_arith);
        total = total + d.entries as u64;
        let ghost before = out@;
        out.push(d);
        proof {
            assert(blocks_view(out@) =~= blocks_view(before).push(d@));
            assert(blocks_view(out@).drop_last() =~= blocks_view(before));
            assert forall|k: int|
                #![trigger blocks_view(out@)[k]]
                0 <= k < i + 1 implies blocks_view(out@)[k].header == all[k].header && blocks_view(
                out@,
            )[k].payload_len == all[k].payload_len by {
                if k < i {
                    assert(blocks_view(out@)[k] == blocks_view(before)[k]);
                }
            }
        }
        i += 1;
    }
    if !cur.is_empty() {
        return Err(corrupt("index trailing bytes"));
    }
    if total != entry_count {
        return Err(
            FormatError::Corrupt(
                Text::new("data blocks hold ").num(total).lit(" entries, header says ").num(
                    entry_count,
                ).done(),
            ),
        );
    }
    Ok(out)
}

fn read_bloom(bloom: &[u8]) -> (r: Result<u32, FormatError>)
    ensures
        rv(r) == p_bloom(bloom@),
{
    let mut cur = Cursor::new(bloom);
    let m = cur.u32()?;
    let need: u64 = (m as u64 + 7) / 8;
    if cur.remaining() as u64 != need {
        return Err(
            FormatError::Corrupt(
                Text::new("bloom: m = ").num(m as u64).lit(" needs ").num(need).lit(
                    " bit-bytes, ",
                ).num(cur.remaining() as u64).lit(" present").done(),
            ),
        );
    }
    Ok(m)
}

impl SegmentReader {
    pub open spec fn wf(&self) -> bool {
        seg_ok(self@)
    }

    /// Opens a segment from the bytes of its file.
    pub fn open(bytes: Vec<u8>) -> (r: Result<Self, FormatError>)
        ensures
            rv(r) == segment_of(bytes@),
            r matches Ok(s) ==> s.wf(),
    {
        let b: &[u8] = bytes.as_slice();
        let h = read_head(b)?;
        let (w, end) = match walk_blocks(b, h.len) {
            Ok(x) => x,
            Err(e) => {
                return Err(e);
            },
        };
        let total: usize = b.len();
        if total - end != FOOTER_LEN {
            return Err(
                FormatError::Corrupt(
                    Text::new("footer must be exactly 22 bytes at the end, ").num(
                        (total - end) as u64,
                    ).lit(" remain").done(),
                ),
            );
        }
        if read_le(&b[end + 4..end + 6]) != SEGMENT_VERSION as u64 {
            return Err(corrupt("footer version"));
        }
        if read_le(&b[end + 6..end + 14]) != h.entry_count {
            return Err(corrupt("footer entry_count mismatch"));
        }
        let (ih, il) = match w.index {
            Some(x) => x,
            None => {
                return Err(corrupt("missing index block"));
            },
        };
        let (bh, bl) = match w.bloom {
            Some(x) => x,
            None => {
                return Err(corrupt("missing bloom block"));
            },
        };
        if w.data.len() == 0 || w.data.len() as u64 != h.block_count as u64 {
            return Err(
                FormatError::Corrupt(
                    Text::new("header says ").num(h.block_count as u64).lit(
                        " data blocks, found ",
                    ).num(w.data.len() as u64).done(),
                ),
            );
        }
        let ghost hv = h@;
        let ghost wv = w@;
        assert(segment_of(bytes@) == seg_rest(bytes@, hv, wv, end as int));
        let data = read_index(&b[ih + 28..ih + 28 + il], &w, h.entry_count)?;
        let bloom = &b[bh + 28..bh + 28 + bl];
        let bloom_m = read_bloom(bloom)?;
        if read_le(&b[ih + 8..ih + 12]) != h.block_count as u64 {
            return Err(corrupt("index block entry count mismatch"));
        }
        if read_le(&b[bh + 8..bh + 12]) != h.entry_count {
            return Err(corrupt("bloom block entry count mismatch"));
        }
        let mut sk = to_vec(&b[0..h.len]);
        push_bytes(&mut sk, w.headers.as_slice());
        push_bytes(&mut sk, &b[ih..bh + 28 + bl]);
        push_bytes(&mut sk, &b[end..end + 14]);
        assert(sk@ =~= skeleton(bytes@, hv, wv, end as int)) by {
            assert(b@.subrange(0, h.len as int) =~= bytes@.take(hv.len));
        }
        let c = checksum8(sk.as_slice());
        if !bytes_eq(c.as_slice(), &b[end + 14..end + 22]) {
            return Err(corrupt("footer skeleton checksum mismatch"));
        }
        let bits = to_vec(&bloom[4..bl]);
        assert(bits@ =~= bloom@.skip(4));
        let Head { block_count, entry_count, key_min, key_max, seq_lo, seq_hi, len } = h;
        let out = SegmentReader {
            block_count,
            entry_count,
            key_min,
            key_max,
            seq_lo,
            seq_hi,
            data,
            bits,
            bloom_m,
            bytes,
        };
        Ok(out)
    }
}

} // verus!
