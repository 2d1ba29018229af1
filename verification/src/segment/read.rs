//! Reading from an open segment.

use crate::codec::{
    bytes_eq, compare, lemma_lex_total, lex_le, lex_lt, lt, push_bytes, read_le, to_vec, un_le,
    Order,
};
use crate::format::{checksum8, ck8, rv, ErrV, FormatError};
use crate::hash::{sha256, sha256_of};
use crate::identity::replica_id::ReplicaId;
use crate::placement::BlockId;
use crate::segment::entry::{block_entries_of, decode_block, entries_view, EntryV, SegmentEntry};
use crate::segment::lookup::{block_find, block_get_v2, opt_view};
use crate::segment::open::{BlockV, SegV, SegmentReader};
use crate::sort::Ranked;
use crate::text::{dec, Text};
use vstd::prelude::*;

verus! {

pub const BLOOM_PROBES: u64 = 4;

// ---------------------------------------------------------------------------
// The bloom filter
/// The two hashes of a key: the first two words of its digest.
pub open spec fn hashes_of(key: Seq<u8>) -> (u64, u64) {
    (
        un_le(sha256_of(key).subrange(0, 8)) as u64,
        un_le(sha256_of(key).subrange(8, 16)) as u64,
    )
}

/// The bit that probe `i` asks for.
pub open spec fn probe_bit(h1: u64, h2: u64, i: int, m: int) -> int {
    (h1 + i * h2) % m
}

/// Bit `k` of a bit string, lowest first.
pub open spec fn bit_on(bits: Seq<u8>, k: int) -> bool {
    bits[k / 8] & (1u8 << ((k % 8) as u8)) != 0
}

/// Every probe finds its bit set.
pub open spec fn bloom_has(bits: Seq<u8>, m: int, h1: u64, h2: u64) -> bool {
    forall|i: int| 0 <= i < 4 ==> bit_on(bits, #[trigger] probe_bit(h1, h2, i, m))
}

/// The bit that probe `i` asks for.
pub fn probe(h1: u64, h2: u64, i: u64, m: u64) -> (r: u64)
    requires
        0 < m,
        i < 4,
    ensures
        r == probe_bit(h1, h2, i as int, m as int),
        r < m,
{
    assert(i * h2 <= 4 * u64::MAX) by (nonlinear_arith)
        requires
            i < 4,
            h2 <= u64::MAX,
    ;
    let x: u128 = h1 as u128 + i as u128 * h2 as u128;
    (x % (m as u128)) as u64
}

impl SegmentReader {
    pub fn entry_count(&self) -> (r: u64)
        ensures
            r == self@.entry_count,
    {
        self.entry_count
    }

    pub fn block_count(&self) -> (r: u32)
        ensures
            r == self@.block_count,
    {
        self.block_count
    }

    /// The entry count of a block, if there is such a block.
    pub fn block_entry_count(&self, block_id: u32) -> (r: Option<u32>)
        ensures
            r == block_entry_count_of(self@, block_id),
    {
        if (block_id as usize) < self.data.len() {
            Some(self.data[block_id as usize].entries)
        } else {
            None
        }
    }

    pub fn key_min(&self) -> (r: &[u8])
        ensures
            r@ == self@.key_min,
    {
        self.key_min.as_slice()
    }

    pub fn key_max(&self) -> (r: &[u8])
        ensures
            r@ == self@.key_max,
    {
        self.key_max.as_slice()
    }

    pub fn seq_lo(&self) -> (r: u64)
        ensures
            r == self@.seq_lo,
    {
        self.seq_lo
    }

    pub fn seq_hi(&self) -> (r: u64)
        ensures
            r == self@.seq_hi,
    {
        self.seq_hi
    }

    /// The key's hash pair: one digest per lookup, shared by the probes of
    /// every segment.
    pub fn bloom_hashes(key: &[u8]) -> (r: (u64, u64))
        ensures
            r == hashes_of(key@),
    {
        let d = sha256(key);
        let s: &[u8] = d.as_slice();
        (read_le(&s[0..8]), read_le(&s[8..16]))
    }

    /// Whether the segment may hold a key: `false` means it does not.
    pub fn bloom_may_contain(&self, key: &[u8]) -> (r: bool)
        requires
            self.wf(),
            self@.bloom_m > 0,
        ensures
            r == bloom_has(
                self@.bits,
                self@.bloom_m as int,
                hashes_of(key@).0,
                hashes_of(key@).1,
            ),
    {
        let (h1, h2) = Self::bloom_hashes(key);
        self.bloom_may_contain_hashes(h1, h2)
    }

    /// The probe over a hash pair.
    pub fn bloom_may_contain_hashes(&self, h1: u64, h2: u64) -> (r: bool)
        requires
            self.wf(),
            self@.bloom_m > 0,
        ensures
            r == bloom_has(self@.bits, self@.bloom_m as int, h1, h2),
    {
        let m: u64 = self.bloom_m as u64;
        let mut i: u64 = 0;
        while i < BLOOM_PROBES
            invariant
                i <= 4,
                m == self@.bloom_m,
                m > 0,
                self.wf(),
                forall|j: int|
                    0 <= j < i ==> bit_on(self@.bits, #[trigger] probe_bit(h1, h2, j, m as int)),
            decreases 4 - i,
        {
            let bit: u64 = probe(h1, h2, i, m);
            let byte: u8 = self.bits[(bit / 8) as usize];
            let k: u8 = (bit % 8) as u8;
            if byte & (1u8 << k) == 0 {
                assert(!bit_on(self@.bits, probe_bit(h1, h2, i as int, m as int)));
                return false;
            }
            i += 1;
        }
        true
    }
}

/// The entry count of a block.
pub open spec fn block_entry_count_of(s: SegV, block_id: u32) -> Option<u32> {
    if block_id < s.data.len() {
        Some(s.data[block_id as int].entries)
    } else {
        None
    }
}

// ---------------------------------------------------------------------------
// Blocks
/// The payload of data block `i`, whose checksum must hold.
pub open spec fn payload_at(s: SegV, i: int) -> Result<Seq<u8>, ErrV> {
    let h = s.data[i].header;
    let p = s.bytes.subrange(h + 28, h + 28 + s.data[i].payload_len);
    if ck8(s.bytes.subrange(h, h + 20) + p) != s.bytes.subrange(h + 20, h + 28) {
        Err(ErrV::Corrupt("data block "@ + dec(i as nat) + " checksum mismatch"@))
    } else {
        Ok(p)
    }
}

/// Every entry of data block `i`.
#[verifier::opaque]
pub open spec fn block_at(s: SegV, i: int) -> Result<Seq<EntryV>, ErrV> {
    match payload_at(s, i) {
        Err(e) => Err(e),
        Ok(p) => block_entries_of(
            p,
            s.data[i].entries as nat,
            s.data[i].v2,
            s.data[i].v3,
            i as nat,
        ),
    }
}

/// The binary search for the first block whose last key does not come before
/// `key`.
pub open spec fn part_point(data: Seq<BlockV>, key: Seq<u8>, lo: int, hi: int) -> int
    decreases hi - lo,
{
    if lo >= hi {
        lo
    } else {
        let mid = lo + (hi - lo) / 2;
        if lex_lt(data[mid].last, key) {
            part_point(data, key, mid + 1, hi)
        } else {
            part_point(data, key, lo, mid)
        }
    }
}

pub open spec fn first_block(s: SegV, key: Seq<u8>) -> int {
    part_point(s.data, key, 0, s.data.len() as int)
}

/// The first block whose key range covers `key`.
pub open spec fn locate_of(s: SegV, key: Seq<u8>) -> Option<int> {
    let i = first_block(s, key);
    if i < s.data.len() && lex_le(s.data[i].first, key) {
        Some(i)
    } else {
        None
    }
}

/// The first entry of `key`.
pub open spec fn first_of(es: Seq<EntryV>, key: Seq<u8>) -> Option<EntryV>
    decreases es.len(),
{
    if es.len() == 0 {
        None
    } else if es[0].key == key {
        Some(es[0])
    } else {
        first_of(es.skip(1), key)
    }
}

/// The head of `key` in block `i`.
pub open spec fn block_head(s: SegV, i: int, key: Seq<u8>) -> Result<Option<EntryV>, ErrV> {
    if !s.data[i].v2 {
        match block_at(s, i) {
            Err(e) => Err(e),
            Ok(es) => Ok(first_of(es, key)),
        }
    } else {
        match payload_at(s, i) {
            Err(e) => Err(e),
            Ok(p) => block_find(p, key, s.data[i].v3, None),
        }
    }
}

/// The head of `key` in the segment.
pub open spec fn seg_get(s: SegV, key: Seq<u8>) -> Result<Option<EntryV>, ErrV> {
    match locate_of(s, key) {
        None => Ok(None),
        Some(i) => block_head(s, i, key),
    }
}

/// A result of an optional entry, seen as a value.
pub open spec fn opt_rv(r: Result<Option<SegmentEntry>, FormatError>) -> Result<
    Option<EntryV>,
    ErrV,
> {
    match r {
        Ok(v) => Ok(opt_view(v)),
        Err(e) => Err(e@),
    }
}

/// A result of entries, seen as a value.
pub open spec fn list_rv(r: Result<Vec<SegmentEntry>, FormatError>) -> Result<Seq<EntryV>, ErrV> {
    match r {
        Ok(v) => Ok(entries_view(v@)),
        Err(e) => Err(e@),
    }
}

/// The entries of `key`.
pub open spec fn of_key(es: Seq<EntryV>, key: Seq<u8>) -> Seq<EntryV>
    decreases es.len(),
{
    if es.len() == 0 {
        seq![]
    } else if es.last().key == key {
        of_key(es.drop_last(), key).push(es.last())
    } else {
        of_key(es.drop_last(), key)
    }
}

/// A key lies in `[start, end)`.
pub open spec fn in_range(key: Seq<u8>, start: Seq<u8>, end: Seq<u8>) -> bool {
    lex_le(start, key) && lex_lt(key, end)
}

/// The entries whose keys lie in `[start, end)`.
pub open spec fn of_range(es: Seq<EntryV>, start: Seq<u8>, end: Seq<u8>) -> Seq<EntryV>
    decreases es.len(),
{
    if es.len() == 0 {
        seq![]
    } else if in_range(es.last().key, start, end) {
        of_range(es.drop_last(), start, end).push(es.last())
    } else {
        of_range(es.drop_last(), start, end)
    }
}

/// The entries of `key` from block `i` on, while the blocks can hold it.
pub open spec fn versions_from(s: SegV, i: int, key: Seq<u8>) -> Result<Seq<EntryV>, ErrV>
    decreases s.data.len() - i,
{
    if 0 <= i < s.data.len() && lex_le(s.data[i].first, key) {
        match block_at(s, i) {
            Err(e) => Err(e),
            Ok(es) => match versions_from(s, i + 1, key) {
                Err(e) => Err(e),
                Ok(rest) => Ok(of_key(es, key) + rest),
            },
        }
    } else {
        Ok(seq![])
    }
}

/// Every version of `key` in the segment.
pub open spec fn seg_versions(s: SegV, key: Seq<u8>) -> Result<Seq<EntryV>, ErrV> {
    match locate_of(s, key) {
        None => Ok(seq![]),
        Some(i) => versions_from(s, i, key),
    }
}

/// The entries of `[start, end)` from block `i` on, up to the first block
/// past the range.
pub open spec fn scan_from(s: SegV, i: int, start: Seq<u8>, end: Seq<u8>) -> Result<
    Seq<EntryV>,
    ErrV,
>
    decreases s.data.len() - i,
{
    if 0 <= i < s.data.len() && lex_lt(s.data[i].first, end) {
        match block_at(s, i) {
            Err(e) => Err(e),
            Ok(es) => match scan_from(s, i + 1, start, end) {
                Err(e) => Err(e),
                Ok(rest) => Ok(of_range(es, start, end) + rest),
            },
        }
    } else {
        Ok(seq![])
    }
}

/// The entries of `[start, end)` in the segment.
pub open spec fn seg_scan(s: SegV, start: Seq<u8>, end: Seq<u8>) -> Result<Seq<EntryV>, ErrV> {
    scan_from(s, first_block(s, start), start, end)
}

/// The head of `key` for one replica, from block `i` on. A run of one key may
/// straddle blocks; blocks below version 3 hold no replica rows.
pub open spec fn rid_from(s: SegV, i: int, key: Seq<u8>, rid: ReplicaId) -> Result<
    Option<EntryV>,
    ErrV,
>
    decreases s.data.len() - i,
{
    if i < 0 || i >= s.data.len() {
        Ok(None)
    } else {
        let spills = s.data[i].last == key && i + 1 < s.data.len();
        let here = if s.data[i].v3 {
            match payload_at(s, i) {
                Err(e) => Err(e),
                Ok(p) => block_find(p, key, true, Some(rid)),
            }
        } else {
            Ok(None)
        };
        match here {
            Err(e) => Err(e),
            Ok(Some(e)) => Ok(Some(e)),
            Ok(None) => if spills {
                rid_from(s, i + 1, key, rid)
            } else {
                Ok(None)
            },
        }
    }
}

/// The head of `key` for one replica.
pub open spec fn seg_get_rid(s: SegV, key: Seq<u8>, rid: ReplicaId) -> Result<
    Option<EntryV>,
    ErrV,
> {
    match locate_of(s, key) {
        None => Ok(None),
        Some(i) => rid_from(s, i, key, rid),
    }
}

/// The entry at a block and an offset; none where there is no such place.
pub open spec fn seg_entry_at(s: SegV, block: u32, offset: u32) -> Result<Option<EntryV>, ErrV> {
    if block >= s.data.len() {
        Ok(None)
    } else {
        match block_at(s, block as int) {
            Err(e) => Err(e),
            Ok(es) => if offset < es.len() {
                Ok(Some(es[offset as int]))
            } else {
                Ok(None)
            },
        }
    }
}

/// Every entry from block `i` on.
pub open spec fn all_from(s: SegV, i: int) -> Result<Seq<EntryV>, ErrV>
    decreases s.data.len() - i,
{
    if 0 <= i < s.data.len() {
        match block_at(s, i) {
            Err(e) => Err(e),
            Ok(es) => match all_from(s, i + 1) {
                Err(e) => Err(e),
                Ok(rest) => Ok(es + rest),
            },
        }
    } else {
        Ok(seq![])
    }
}

/// One lookup of a batch: a block, and the position of its key.
pub struct Probe {
    pub block: usize,
    pub pos: usize,
}

impl Ranked for Probe {
    open spec fn ranked_le(&self, other: &Self) -> bool {
        self.block < other.block || (self.block == other.block && self.pos <= other.pos)
    }

    proof fn lemma_total(a: &Self, b: &Self) {
    }

    proof fn lemma_trans(a: &Self, b: &Self, c: &Self) {
    }

    fn le(&self, other: &Self) -> (r: bool) {
        self.block < other.block || (self.block == other.block && self.pos <= other.pos)
    }
}

/// The answer of a batch: for each key its own answer; or the failure of the
/// first key, by block and then by position, that has one.
pub open spec fn answers(r: Result<Vec<Option<SegmentEntry>>, FormatError>, s: SegV, keys: Seq<&[u8]>) -> bool {
    match r {
        Ok(v) => v@.len() == keys.len() && forall|i: int|
            #![trigger v@[i]]
            0 <= i < keys.len() ==> seg_get(s, keys[i]@) == Ok::<Option<EntryV>, ErrV>(
                opt_view(v@[i]),
            ),
        Err(e) => exists|i: int|
            #![trigger keys[i]]
            0 <= i < keys.len() && seg_get(s, keys[i]@) == Err::<Option<EntryV>, ErrV>(e@)
                && forall|j: int|
                #![trigger keys[j]]
                0 <= j < keys.len() && comes_before(s, keys, j, i) ==> seg_get(s, keys[j]@) is Ok,
    }
}

/// Key `j` of a batch is looked up before key `i`.
pub open spec fn comes_before(s: SegV, keys: Seq<&[u8]>, j: int, i: int) -> bool {
    match (locate_of(s, keys[j]@), locate_of(s, keys[i]@)) {
        (Some(a), Some(b)) => a < b || (a == b && j < i),
        _ => false,
    }
}

/// Finds the first entry of `key`.
pub(crate) fn find_key(es: &Vec<SegmentEntry>, key: &[u8]) -> (r: Option<SegmentEntry>)
    ensures
        opt_view(r) == first_of(entries_view(es@), key@),
{
    let ghost all = entries_view(es@);
    let mut i: usize = 0;
    assert(all.skip(0) =~= all);
    while i < es.len()
        invariant
            i <= es@.len(),
            all == entries_view(es@),
            first_of(all, key@) == first_of(all.skip(i as int), key@),
        decreases es@.len() - i,
    {
        if bytes_eq(es[i].key.as_slice(), key) {
            return Some(es[i].duplicate());
        }
        assert(all.skip(i as int).skip(1) =~= all.skip(i + 1));
        i += 1;
    }
    None
}

/// Appends the entries of `key`.
fn append_key(out: &mut Vec<SegmentEntry>, es: &Vec<SegmentEntry>, key: &[u8])
    ensures
        entries_view(final(out)@) == entries_view(old(out)@) + of_key(entries_view(es@), key@),
{
    let ghost o0 = entries_view(out@);
    let ghost all = entries_view(es@);
    let mut k: usize = 0;
    assert(o0 + of_key(all.take(0), key@) =~= o0);
    while k < es.len()
        invariant
            k <= es@.len(),
            all == entries_view(es@),
            entries_view(out@) == o0 + of_key(all.take(k as int), key@),
        decreases es@.len() - k,
    {
        assert(all.take(k + 1).drop_last() =~= all.take(k as int));
        if bytes_eq(es[k].key.as_slice(), key) {
            let ghost b = out@;
            let e = es[k].duplicate();
            out.push(e);
            assert(entries_view(out@) =~= entries_view(b).push(e@));
            assert(entries_view(out@) =~= o0 + of_key(all.take(k + 1), key@));
        }
        k += 1;
    }
    assert(all.take(k as int) =~= all);
}

/// Appends the entries of `[start, end)`.
fn append_range(out: &mut Vec<SegmentEntry>, es: &Vec<SegmentEntry>, start: &[u8], end: &[u8])
    ensures
        entries_view(final(out)@) == entries_view(old(out)@) + of_range(
            entries_view(es@),
            start@,
            end@,
        ),
{
    let ghost o0 = entries_view(out@);
    let ghost all = entries_view(es@);
    let mut k: usize = 0;
    assert(o0 + of_range(all.take(0), start@, end@) =~= o0);
    while k < es.len()
        invariant
            k <= es@.len(),
            all == entries_view(es@),
            entries_view(out@) == o0 + of_range(all.take(k as int), start@, end@),
        decreases es@.len() - k,
    {
        proof {
            assert(all.take(k + 1).drop_last() =~= all.take(k as int));
            lemma_lex_total(es@[k as int].key@, start@);
        }
        if !lt(es[k].key.as_slice(), start) && lt(es[k].key.as_slice(), end) {
            let ghost b = out@;
            let e = es[k].duplicate();
            out.push(e);
            assert(entries_view(out@) =~= entries_view(b).push(e@));
            assert(entries_view(out@) =~= o0 + of_range(all.take(k + 1), start@, end@));
        }
        k += 1;
    }
    assert(all.take(k as int) =~= all);
}

pub proof fn lemma_part_point(data: Seq<BlockV>, key: Seq<u8>, lo: int, hi: int)
    requires
        0 <= lo <= hi <= data.len(),
    ensures
        lo <= part_point(data, key, lo, hi) <= hi,
    decreases hi - lo,
{
    if lo < hi {
        let mid = lo + (hi - lo) / 2;
        lemma_part_point(data, key, mid + 1, hi);
        lemma_part_point(data, key, lo, mid);
    }
}

impl SegmentReader {
    /// The first block whose last key does not come before `key`.
    pub(crate) fn seek_block(&self, key: &[u8]) -> (r: usize)
        ensures
            r == first_block(self@, key@),
            r <= self.data@.len(),
    {
        let mut lo: usize = 0;
        let mut hi: usize = self.data.len();
        while lo < hi
            invariant
                lo <= hi <= self.data@.len(),
                part_point(self@.data, key@, 0, self.data@.len() as int) == part_point(
                    self@.data,
                    key@,
                    lo as int,
                    hi as int,
                ),
            decreases hi - lo,
        {
            let mid: usize = lo + (hi - lo) / 2;
            assert(self@.data[mid as int] == self.data@[mid as int]@);
            if lt(self.data[mid].last.as_slice(), key) {
                lo = mid + 1;
            } else {
                hi = mid;
            }
        }
        lo
    }

    /// The first block whose key range covers `key`, if any.
    pub(crate) fn locate(&self, key: &[u8]) -> (r: Option<usize>)
        ensures
            match (r, locate_of(self@, key@)) {
                (Some(i), Some(j)) => i == j && i < self.data@.len(),
                (None, None) => true,
                _ => false,
            },
    {
        let i: usize = self.seek_block(key);
        if i < self.data.len() {
            proof {
                assert(self@.data[i as int] == self.data@[i as int]@);
                lemma_lex_total(self.data@[i as int].first@, key@);
            }
            if compare(self.data[i].first.as_slice(), key) != Order::Greater {
                return Some(i);
            }
        }
        None
    }

    /// The payload of data block `i`, with its checksum verified.
    pub(crate) fn block_raw(&self, i: usize) -> (r: Result<&[u8], FormatError>)
        requires
            self.wf(),
            i < self.data@.len(),
        ensures
            rv(r) == payload_at(self@, i as int),
    {
        let b: &[u8] = self.bytes.as_slice();
        let total: usize = b.len();
        assert(self@.data[i as int] == self.data@[i as int]@);
        let h: usize = self.data[i].header;
        let n: usize = self.data[i].payload_len;
        assert(h + 28 + n <= total);
        let payload = &b[h + 28..h + 28 + n];
        let mut sk = to_vec(&b[h..h + 20]);
        push_bytes(&mut sk, payload);
        let c = checksum8(sk.as_slice());
        if !bytes_eq(c.as_slice(), &b[h + 20..h + 28]) {
            return Err(
                FormatError::Corrupt(
                    Text::new("data block ").num(i as u64).lit(" checksum mismatch").done(),
                ),
            );
        }
        Ok(payload)
    }

    /// Decodes data block `i` in full.
    pub fn block_entries(&self, i: usize) -> (r: Result<Vec<SegmentEntry>, FormatError>)
        requires
            self.wf(),
            i < self.data@.len(),
        ensures
            list_rv(r) == block_at(self@, i as int),
    {
        proof {
            reveal(block_at);
            assert(self@.data[i as int] == self.data@[i as int]@);
        }
        let p = self.block_raw(i)?;
        decode_block(p, self.data[i].entries, self.data[i].v2, self.data[i].v3, i)
    }

    /// The head of `key` in block `i`: a block with a restart table decodes
    /// only one interval, an older one in full.
    fn block_get(&self, i: usize, key: &[u8]) -> (r: Result<Option<SegmentEntry>, FormatError>)
        requires
            self.wf(),
            i < self.data@.len(),
        ensures
            opt_rv(r) == block_head(self@, i as int, key@),
    {
        assert(self@.data[i as int] == self.data@[i as int]@);
        if !self.data[i].v2 {
            let es = self.block_entries(i)?;
            return Ok(find_key(&es, key));
        }
        let p = self.block_raw(i)?;
        match block_get_v2(p, key, self.data[i].v3, None) {
            Err(e) => Err(e),
            Ok((found, _)) => Ok(found),
        }
    }

    /// The head version of `key`: the one of the highest sequence.
    pub fn get(&self, key: &[u8]) -> (r: Result<Option<SegmentEntry>, FormatError>)
        requires
            self.wf(),
        ensures
            opt_rv(r) == seg_get(self@, key@),
    {
        match self.locate(key) {
            None => Ok(None),
            Some(i) => self.block_get(i, key),
        }
    }

    /// The entry at a block and an offset in it.
    pub fn entry_at(&self, block_id: BlockId, entry_offset: u32) -> (r: Result<
        Option<SegmentEntry>,
        FormatError,
    >)
        requires
            self.wf(),
        ensures
            opt_rv(r) == seg_entry_at(self@, block_id.0, entry_offset),
    {
        if block_id.0 as usize >= self.data.len() {
            return Ok(None);
        }
        let es = self.block_entries(block_id.0 as usize)?;
        if (entry_offset as usize) < es.len() {
            assert(entries_view(es@)[entry_offset as int] == es@[entry_offset as int]@);
            Ok(Some(es[entry_offset as usize].duplicate()))
        } else {
            Ok(None)
        }
    }

    /// Every version of `key`, newest first. Versions may straddle blocks.
    pub fn versions(&self, key: &[u8]) -> (r: Result<Vec<SegmentEntry>, FormatError>)
        requires
            self.wf(),
        ensures
            list_rv(r) == seg_versions(self@, key@),
    {
        let mut out: Vec<SegmentEntry> = Vec::new();
        assert(entries_view(out@) =~= seq![]);
        let mut i: usize = match self.locate(key) {
            Some(i) => i,
            None => {
                return Ok(out);
            },
        };
        let ghost i0 = i as int;
        proof {
            if let Ok(rest) = versions_from(self@, i0, key@) {
                assert(entries_view(out@) + rest =~= rest);
            }
        }
        while i < self.data.len()
            invariant_except_break
                i <= self.data@.len(),
                self.wf(),
                locate_of(self@, key@) == Some(i0),
                versions_from(self@, i0, key@) == (match versions_from(self@, i as int, key@) {
                    Err(e) => Err(e),
                    Ok(rest) => Ok(entries_view(out@) + rest),
                }),
            ensures
                versions_from(self@, i0, key@) == Ok::<Seq<EntryV>, ErrV>(entries_view(out@)),
            decreases self.data@.len() - i,
        {
            proof {
                assert(self@.data[i as int] == self.data@[i as int]@);
                lemma_lex_total(self.data@[i as int].first@, key@);
                assert(entries_view(out@) + seq![] =~= entries_view(out@));
            }
            if compare(self.data[i].first.as_slice(), key) == Order::Greater {
                break;
            }
            let es = match self.block_entries(i) {
                Ok(es) => es,
                Err(e) => {
                    return Err(e);
                },
            };
            let ghost o0 = entries_view(out@);
            let ghost all = entries_view(es@);
            append_key(&mut out, &es, key);
            proof {
                if let Ok(rest) = versions_from(self@, i + 1, key@) {
                    assert(entries_view(out@) + rest =~= o0 + (of_key(all, key@) + rest));
                }
            }
            i += 1;
            assert(entries_view(out@) + seq![] =~= entries_view(out@));
        }
        Ok(out)
    }

    /// The entries of `[start, end)` in byte order, newest first within a
    /// key.
    pub fn scan(&self, start: &[u8], end: &[u8]) -> (r: Result<Vec<SegmentEntry>, FormatError>)
        requires
            self.wf(),
        ensures
            list_rv(r) == seg_scan(self@, start@, end@),
    {
        let mut out: Vec<SegmentEntry> = Vec::new();
        assert(entries_view(out@) =~= seq![]);
        let mut i: usize = self.seek_block(start);
        let ghost i0 = i as int;
        proof {
            if let Ok(rest) = scan_from(self@, i0, start@, end@) {
                assert(entries_view(out@) + rest =~= rest);
            }
            assert(entries_view(out@) + seq![] =~= entries_view(out@));
        }
        while i < self.data.len()
            invariant_except_break
                i <= self.data@.len(),
                self.wf(),
                i0 == first_block(self@, start@),
                scan_from(self@, i0, start@, end@) == (match scan_from(
                    self@,
                    i as int,
                    start@,
                    end@,
                ) {
                    Err(e) => Err(e),
                    Ok(rest) => Ok(entries_view(out@) + rest),
                }),
                entries_view(out@) + seq![] == entries_view(out@),
            ensures
                scan_from(self@, i0, start@, end@) == Ok::<Seq<EntryV>, ErrV>(entries_view(out@)),
            decreases self.data@.len() - i,
        {
            assert(self@.data[i as int] == self.data@[i as int]@);
            if !lt(self.data[i].first.as_slice(), end) {
                break;
            }
            let es = match self.block_entries(i) {
                Ok(es) => es,
                Err(e) => {
                    return Err(e);
                },
            };
            let ghost o0 = entries_view(out@);
            let ghost all = entries_view(es@);
            append_range(&mut out, &es, start, end);
            proof {
                if let Ok(rest) = scan_from(self@, i + 1, start@, end@) {
                    assert(entries_view(out@) + rest =~= o0 + (of_range(all, start@, end@)
                        + rest));
                }
                assert(entries_view(out@) + seq![] =~= entries_view(out@));
            }
            i += 1;
        }
        Ok(out)
    }

    /// The head of `key` for one replica. Rows of other replicas never
    /// answer.
    pub fn get_by_rid(&self, key: &[u8], rid: ReplicaId) -> (r: Result<
        Option<SegmentEntry>,
        FormatError,
    >)
        requires
            self.wf(),
        ensures
            opt_rv(r) == seg_get_rid(self@, key@, rid),
    {
        let mut i: usize = match self.locate(key) {
            Some(i) => i,
            None => {
                return Ok(None);
            },
        };
        let ghost i0 = i as int;
        loop
            invariant
                self.wf(),
                i < self.data@.len(),
                rid_from(self@, i0, key@, rid) == rid_from(self@, i as int, key@, rid),
                locate_of(self@, key@) == Some(i0),
            decreases self.data@.len() - i,
        {
            assert(self@.data[i as int] == self.data@[i as int]@);
            let spills = bytes_eq(self.data[i].last.as_slice(), key) && i + 1 < self.data.len();
            if self.data[i].v3 {
                let p = self.block_raw(i)?;
                let out = match block_get_v2(p, key, true, Some(rid)) {
                    Ok((x, _)) => x,
                    Err(e) => {
                        return Err(e);
                    },
                };
                if out.is_some() {
                    return Ok(out);
                }
            }
            if !spills {
                return Ok(None);
            }
            i += 1;
        }
    }
}

} // verus!
