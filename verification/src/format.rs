//! The CURRENT pointer, the manifest, checksums and the decode cursor.
//!
//! On-disk shapes (all integers little-endian):
//!
//! CURRENT, fixed 22 bytes:
//! `AKCV | format_version u16 | manifest_generation u64 | sha256-8(first 14)`
//!
//! MANIFEST:
//! `AKMV | format_version u16 | generation u64 | segment_count u32 |
//!  segment records | wal_count u32 | wal ids u64 | sha256-8(everything before)`
//! Segment record:
//! `segment_id u64 | level u8 | key_min_len u32 | key_min | key_max_len u32 |
//!  key_max | seq_lo u64 | seq_hi u64 | record_count u64 | file_size u64 |
//!  checksum u64`
//!
//! An unknown version is `Unsupported` where the file is whole, which its
//! checksum says (a newer-format file is not damaged); anything else fails
//! closed as `Corrupt`.

use crate::codec::{
    bytes_eq, le, lemma_le_len, lemma_pow256, lemma_un_le_le, push_bytes, push_u16, push_u32,
    push_u64, read_le, to_vec, un_le,
};
use crate::hash::{sha256, sha256_of};
use crate::text::{dec, Text};
use vstd::prelude::*;

verus! {

pub const CURRENT_LEN: usize = 22;

pub const FORMAT_VERSION: u16 = 1;

pub const CURRENT_MAGIC: [u8; 4] = [0x41, 0x4b, 0x43, 0x56];

pub const MANIFEST_MAGIC: [u8; 4] = [0x41, 0x4b, 0x4d, 0x56];

/// Minimum encoded size of one segment record (both keys empty).
pub const MIN_SEGMENT_RECORD: usize = 57;

/// What went wrong with stored bytes, the file system, or a request.
#[derive(Debug, Clone, PartialEq, Eq)]
pub enum FormatError {
    /// Byte-level damage: bad magic, bad checksum, truncation, impossible
    /// structure. The file must not be trusted.
    Corrupt(String),
    /// Integrity-clean but a newer format this build does not know.
    Unsupported(String),
    /// File system condition (missing, permissions, rename failure).
    Io(String),
    /// Caller misuse, rejected before anything touches disk.
    Invalid(String),
    /// The database directory is held by another process.
    Locked(String),
}

/// An error as a value: its class and its message.
pub enum ErrV {
    Corrupt(Seq<char>),
    Unsupported(Seq<char>),
    Io(Seq<char>),
    Invalid(Seq<char>),
    Locked(Seq<char>),
}

impl View for FormatError {
    type V = ErrV;

    open spec fn view(&self) -> ErrV {
        match self {
            FormatError::Corrupt(m) => ErrV::Corrupt(m@),
            FormatError::Unsupported(m) => ErrV::Unsupported(m@),
            FormatError::Io(m) => ErrV::Io(m@),
            FormatError::Invalid(m) => ErrV::Invalid(m@),
            FormatError::Locked(m) => ErrV::Locked(m@),
        }
    }
}

/// An error as one line: its class, a colon, its message.
pub open spec fn error_text(e: ErrV) -> Seq<char> {
    match e {
        ErrV::Corrupt(m) => "corrupt: "@ + m,
        ErrV::Unsupported(m) => "unsupported: "@ + m,
        ErrV::Io(m) => "io: "@ + m,
        ErrV::Invalid(m) => "invalid: "@ + m,
        ErrV::Locked(m) => "locked: "@ + m,
    }
}

impl FormatError {
    /// The error as one line: its class, a colon, its message.
    pub fn to_text(&self) -> (r: String)
        ensures
            r@ == error_text(self@),
    {
        match self {
            FormatError::Corrupt(m) => Text::new("corrupt: ").lit(m.as_str()).done(),
            FormatError::Unsupported(m) => Text::new("unsupported: ").lit(m.as_str()).done(),
            FormatError::Io(m) => Text::new("io: ").lit(m.as_str()).done(),
            FormatError::Invalid(m) => Text::new("invalid: ").lit(m.as_str()).done(),
            FormatError::Locked(m) => Text::new("locked: ").lit(m.as_str()).done(),
        }
    }
}

/// A result seen as a value.
pub open spec fn rv<T: View>(r: Result<T, FormatError>) -> Result<T::V, ErrV> {
    match r {
        Ok(v) => Ok(v@),
        Err(e) => Err(e@),
    }
}

/// A `Corrupt` error with a fixed message.
pub fn corrupt(m: &str) -> (r: FormatError)
    ensures
        r@ == ErrV::Corrupt(m@),
{
    FormatError::Corrupt(m.to_string())
}

/// An `Invalid` error with a fixed message.
pub fn invalid(m: &str) -> (r: FormatError)
    ensures
        r@ == ErrV::Invalid(m@),
{
    FormatError::Invalid(m.to_string())
}

/// The first eight bytes of the SHA-256 digest: the integrity fingerprint
/// that every file carries.
pub open spec fn ck8(bytes: Seq<u8>) -> Seq<u8> {
    Seq::new(8, |i: int| sha256_of(bytes)[i])
}

/// The integrity fingerprint of `bytes`. It detects accidental corruption,
/// truncation and torn tails; it is no authentication.
pub fn checksum8(bytes: &[u8]) -> (r: [u8; 8])
    ensures
        r@ == ck8(bytes@),
{
    let d = sha256(bytes);
    let r = [d[0], d[1], d[2], d[3], d[4], d[5], d[6], d[7]];
    assert(r@ =~= ck8(bytes@));
    r
}

/// Whether `stored` is the fingerprint of the first `n` bytes.
pub fn checksum_matches(bytes: &[u8], n: usize, stored: &[u8]) -> (r: bool)
    requires
        n <= bytes@.len(),
    ensures
        r == (ck8(bytes@.take(n as int)) == stored@),
{
    let part = &bytes[0..n];
    assert(part@ =~= bytes@.take(n as int));
    let c = checksum8(part);
    bytes_eq(c.as_slice(), stored)
}

/// Appends the fingerprint of everything before.
pub fn push_checksum(out: &mut Vec<u8>)
    ensures
        final(out)@ == old(out)@ + ck8(old(out)@),
{
    let c = checksum8(out.as_slice());
    push_bytes(out, c.as_slice());
}

/// The last eight bytes are the fingerprint of all before them.
pub open spec fn sealed(b: Seq<u8>) -> bool {
    b.len() >= 8 && ck8(b.take(b.len() - 8)) == b.skip(b.len() - 8)
}

/// The error for bytes that this build does not know: a newer format where
/// their integrity is clean, damage otherwise.
pub open spec fn unknown(b: Seq<u8>, what: Seq<char>) -> ErrV {
    if sealed(b) {
        ErrV::Unsupported(what)
    } else {
        ErrV::Corrupt(what + ", checksum mismatch"@)
    }
}

/// Whether the last eight bytes are the fingerprint of all before them.
pub fn is_sealed(bytes: &[u8]) -> (r: bool)
    ensures
        r == sealed(bytes@),
{
    let total: usize = bytes.len();
    if total < 8 {
        return false;
    }
    let stored = &bytes[total - 8..total];
    assert(stored@ =~= bytes@.skip(bytes@.len() - 8));
    checksum_matches(bytes, total - 8, stored)
}

/// The error for bytes that this build does not know.
pub fn unknown_error(bytes: &[u8], what: String) -> (r: FormatError)
    ensures
        r@ == unknown(bytes@, what@),
{
    if is_sealed(bytes) {
        FormatError::Unsupported(what)
    } else {
        FormatError::Corrupt(Text::new(what.as_str()).lit(", checksum mismatch").done())
    }
}

/// Bytes with their fingerprint behind them are sealed.
pub proof fn lemma_sealed(body: Seq<u8>)
    ensures
        sealed(body + ck8(body)),
{
    let b = body + ck8(body);
    assert(b.take(b.len() - 8) =~= body);
    assert(b.skip(b.len() - 8) =~= ck8(body));
}

// ---------------------------------------------------------------------------
// The decode cursor
/// The error of a read of `n` bytes at `pos` where only `left` remain.
pub open spec fn truncated(n: int, pos: int, left: int) -> ErrV {
    ErrV::Corrupt(
        "truncated: need "@ + dec(n as nat) + " bytes at offset "@ + dec(pos as nat) + ", "@ + dec(
            left as nat,
        ) + " remain"@,
    )
}

/// The `n` bytes at `pos`.
pub open spec fn p_take(b: Seq<u8>, pos: int, n: int) -> Result<Seq<u8>, ErrV> {
    if b.len() - pos < n {
        Err(truncated(n, pos, b.len() - pos))
    } else {
        Ok(b.subrange(pos, pos + n))
    }
}

pub open spec fn p_u8(b: Seq<u8>, pos: int) -> Result<u8, ErrV> {
    match p_take(b, pos, 1) {
        Ok(s) => Ok(s[0]),
        Err(e) => Err(e),
    }
}

pub open spec fn p_u16(b: Seq<u8>, pos: int) -> Result<u16, ErrV> {
    match p_take(b, pos, 2) {
        Ok(s) => Ok(un_le(s) as u16),
        Err(e) => Err(e),
    }
}

pub open spec fn p_u32(b: Seq<u8>, pos: int) -> Result<u32, ErrV> {
    match p_take(b, pos, 4) {
        Ok(s) => Ok(un_le(s) as u32),
        Err(e) => Err(e),
    }
}

pub open spec fn p_u64(b: Seq<u8>, pos: int) -> Result<u64, ErrV> {
    match p_take(b, pos, 8) {
        Ok(s) => Ok(un_le(s) as u64),
        Err(e) => Err(e),
    }
}

/// A byte string with a 32-bit length before it.
pub open spec fn p_vec(b: Seq<u8>, pos: int) -> Result<Seq<u8>, ErrV> {
    match p_u32(b, pos) {
        Ok(n) => p_take(b, pos + 4, n as int),
        Err(e) => Err(e),
    }
}

/// A reading position in a run of bytes.
pub struct Cursor<'a> {
    pub bytes: &'a [u8],
    pub pos: usize,
}

impl<'a> Cursor<'a> {
    /// The position lies within the bytes.
    pub open spec fn wf(&self) -> bool {
        self.pos <= self.bytes@.len()
    }

    pub fn new(bytes: &'a [u8]) -> (r: Self)
        ensures
            r.wf(),
            r.bytes == bytes,
            r.pos == 0,
    {
        Cursor { bytes, pos: 0 }
    }

    pub fn pos(&self) -> (r: usize)
        ensures
            r == self.pos,
    {
        self.pos
    }

    pub fn remaining(&self) -> (r: usize)
        requires
            self.wf(),
        ensures
            r == self.bytes@.len() - self.pos,
    {
        self.bytes.len() - self.pos
    }

    pub fn is_empty(&self) -> (r: bool)
        requires
            self.wf(),
        ensures
            r == (self.pos == self.bytes@.len()),
    {
        self.remaining() == 0
    }

    pub fn take(&mut self, n: usize) -> (r: Result<&'a [u8], FormatError>)
        requires
            old(self).wf(),
        ensures
            final(self).wf(),
            final(self).bytes == old(self).bytes,
            rv(r) == p_take(old(self).bytes@, old(self).pos as int, n as int),
            final(self).pos == old(self).pos + (if r is Ok {
                n as int
            } else {
                0
            }),
    {
        if self.remaining() < n {
            return Err(
                FormatError::Corrupt(
                    Text::new("truncated: need ").num(n as u64).lit(" bytes at offset ").num(
                        self.pos as u64,
                    ).lit(", ").num(self.remaining() as u64).lit(" remain").done(),
                ),
            );
        }
        let s: &'a [u8] = self.bytes;
        let total: usize = s.len();
        assert(self.pos + n <= total);
        let slice = &s[self.pos..self.pos + n];
        self.pos = self.pos + n;
        Ok(slice)
    }

    pub fn u8(&mut self) -> (r: Result<u8, FormatError>)
        requires
            old(self).wf(),
        ensures
            final(self).wf(),
            final(self).bytes == old(self).bytes,
            rv(r) == p_u8(old(self).bytes@, old(self).pos as int),
            r is Ok ==> final(self).pos == old(self).pos + 1,
    {
        let s = self.take(1)?;
        Ok(s[0])
    }

    pub fn u16(&mut self) -> (r: Result<u16, FormatError>)
        requires
            old(self).wf(),
        ensures
            final(self).wf(),
            final(self).bytes == old(self).bytes,
            rv(r) == p_u16(old(self).bytes@, old(self).pos as int),
            r is Ok ==> final(self).pos == old(self).pos + 2,
    {
        let s = self.take(2)?;
        let v: u64 = read_le(s);
        proof {
            lemma_pow256();
        }
        Ok(v as u16)
    }

    pub fn u32(&mut self) -> (r: Result<u32, FormatError>)
        requires
            old(self).wf(),
        ensures
            final(self).wf(),
            final(self).bytes == old(self).bytes,
            rv(r) == p_u32(old(self).bytes@, old(self).pos as int),
            r is Ok ==> final(self).pos == old(self).pos + 4,
    {
        let s = self.take(4)?;
        let v: u64 = read_le(s);
        proof {
            lemma_pow256();
        }
        Ok(v as u32)
    }

    pub fn u64(&mut self) -> (r: Result<u64, FormatError>)
        requires
            old(self).wf(),
        ensures
            final(self).wf(),
            final(self).bytes == old(self).bytes,
            rv(r) == p_u64(old(self).bytes@, old(self).pos as int),
            r is Ok ==> final(self).pos == old(self).pos + 8,
    {
        let s = self.take(8)?;
        Ok(read_le(s))
    }

    /// A byte string with a 32-bit length before it.
    pub fn vec(&mut self) -> (r: Result<Vec<u8>, FormatError>)
        requires
            old(self).wf(),
        ensures
            final(self).wf(),
            final(self).bytes == old(self).bytes,
            rv(r) == p_vec(old(self).bytes@, old(self).pos as int),
            r matches Ok(v) ==> final(self).pos == old(self).pos + 4 + v@.len(),
    {
        let n = self.u32()? as usize;
        let s = self.take(n)?;
        Ok(to_vec(s))
    }
}

// ---------------------------------------------------------------------------
// CURRENT
/// The pointer to the manifest in force.
#[derive(Debug, Clone, PartialEq, Eq)]
pub struct Current {
    pub format_version: u16,
    pub manifest_generation: u64,
}

impl View for Current {
    type V = Current;

    open spec fn view(&self) -> Current {
        *self
    }
}

/// The encoded pointer without its fingerprint.
pub open spec fn current_body(c: Current) -> Seq<u8> {
    CURRENT_MAGIC@ + le(c.format_version as nat, 2) + le(c.manifest_generation as nat, 8)
}

/// The encoded pointer.
pub open spec fn current_bytes(c: Current) -> Seq<u8> {
    current_body(c) + ck8(current_body(c))
}

/// What stored pointer bytes mean.
pub open spec fn current_of(b: Seq<u8>) -> Result<Current, ErrV> {
    let version = un_le(b.subrange(4, 6)) as u16;
    if b.len() != CURRENT_LEN {
        Err(ErrV::Corrupt("CURRENT must be 22 bytes, got "@ + dec(b.len())))
    } else if b.subrange(0, 4) != CURRENT_MAGIC@ {
        Err(ErrV::Corrupt("CURRENT bad magic"@))
    } else if ck8(b.take(14)) != b.subrange(14, 22) {
        Err(ErrV::Corrupt("CURRENT checksum mismatch"@))
    } else if version != FORMAT_VERSION {
        Err(
            ErrV::Unsupported(
                "CURRENT format version "@ + dec(version as nat) + " (this build: 1)"@,
            ),
        )
    } else {
        Ok(
            Current {
                format_version: version,
                manifest_generation: un_le(b.subrange(6, 14)) as u64,
            },
        )
    }
}

impl Current {
    pub fn new(format_version: u16, manifest_generation: u64) -> (r: Self)
        ensures
            r == (Current { format_version, manifest_generation }),
    {
        Current { format_version, manifest_generation }
    }

    pub fn encode(&self) -> (r: Vec<u8>)
        ensures
            r@ == current_bytes(*self),
            r@.len() == CURRENT_LEN,
    {
        let mut bytes: Vec<u8> = Vec::new();
        push_bytes(&mut bytes, CURRENT_MAGIC.as_slice());
        push_u16(&mut bytes, self.format_version);
        push_u64(&mut bytes, self.manifest_generation);
        assert(bytes@ =~= current_body(*self));
        push_checksum(&mut bytes);
        proof {
            lemma_le_len(self.format_version as nat, 2);
            lemma_le_len(self.manifest_generation as nat, 8);
        }
        bytes
    }

    pub fn decode(bytes: &[u8]) -> (r: Result<Self, FormatError>)
        ensures
            rv(r) == current_of(bytes@),
    {
        if bytes.len() != CURRENT_LEN {
            return Err(
                FormatError::Corrupt(
                    Text::new("CURRENT must be 22 bytes, got ").num(bytes.len() as u64).done(),
                ),
            );
        }
        if !bytes_eq(&bytes[0..4], CURRENT_MAGIC.as_slice()) {
            return Err(corrupt("CURRENT bad magic"));
        }
        proof {
            lemma_pow256();
        }
        let version: u16 = read_le(&bytes[4..6]) as u16;
        if !checksum_matches(bytes, 14, &bytes[14..22]) {
            return Err(corrupt("CURRENT checksum mismatch"));
        }
        if version != FORMAT_VERSION {
            return Err(
                FormatError::Unsupported(
                    Text::new("CURRENT format version ").num(version as u64).lit(
                        " (this build: 1)",
                    ).done(),
                ),
            );
        }
        Ok(
            Current {
                format_version: version,
                manifest_generation: read_le(&bytes[6..14]),
            },
        )
    }
}

/// Reading back a written pointer gives the pointer; one of another format
/// version is refused as unsupported.
pub proof fn current_round_trip(c: Current)
    ensures
        c.format_version == FORMAT_VERSION ==> current_of(current_bytes(c)) == Ok::<Current, ErrV>(
            c,
        ),
        c.format_version != FORMAT_VERSION ==> current_of(current_bytes(c)) == Err::<Current, ErrV>(
            ErrV::Unsupported(
                "CURRENT format version "@ + dec(c.format_version as nat) + " (this build: 1)"@,
            ),
        ),
{
    let b = current_bytes(c);
    let body = current_body(c);
    lemma_le_len(c.format_version as nat, 2);
    lemma_le_len(c.manifest_generation as nat, 8);
    lemma_pow256();
    lemma_un_le_le(c.format_version as nat, 2);
    lemma_un_le_le(c.manifest_generation as nat, 8);
    assert(b.subrange(0, 4) =~= CURRENT_MAGIC@);
    assert(b.subrange(4, 6) =~= le(c.format_version as nat, 2));
    assert(b.subrange(6, 14) =~= le(c.manifest_generation as nat, 8));
    assert(b.take(14) =~= body);
    assert(b.subrange(14, 22) =~= ck8(body));
}

// ---------------------------------------------------------------------------
// Manifest
/// One segment that the manifest names.
#[derive(Debug, Clone, PartialEq, Eq)]
pub struct SegmentRecord {
    pub segment_id: u64,
    pub level: u8,
    pub key_min: Vec<u8>,
    pub key_max: Vec<u8>,
    pub seq_lo: u64,
    pub seq_hi: u64,
    pub record_count: u64,
    pub file_size: u64,
    pub checksum: u64,
}

/// A segment record as a value.
#[verifier::ext_equal]
pub struct SegmentRecordV {
    pub segment_id: u64,
    pub level: u8,
    pub key_min: Seq<u8>,
    pub key_max: Seq<u8>,
    pub seq_lo: u64,
    pub seq_hi: u64,
    pub record_count: u64,
    pub file_size: u64,
    pub checksum: u64,
}

impl View for SegmentRecord {
    type V = SegmentRecordV;

    open spec fn view(&self) -> SegmentRecordV {
        SegmentRecordV {
            segment_id: self.segment_id,
            level: self.level,
            key_min: self.key_min@,
            key_max: self.key_max@,
            seq_lo: self.seq_lo,
            seq_hi: self.seq_hi,
            record_count: self.record_count,
            file_size: self.file_size,
            checksum: self.checksum,
        }
    }
}

impl SegmentRecord {
    /// A copy of the record.
    pub fn duplicate(&self) -> (r: SegmentRecord)
        ensures
            r@ == self@,
    {
        SegmentRecord {
            segment_id: self.segment_id,
            level: self.level,
            key_min: to_vec(self.key_min.as_slice()),
            key_max: to_vec(self.key_max.as_slice()),
            seq_lo: self.seq_lo,
            seq_hi: self.seq_hi,
            record_count: self.record_count,
            file_size: self.file_size,
            checksum: self.checksum,
        }
    }
}

/// The segments as values.
pub open spec fn records_view(s: Seq<SegmentRecord>) -> Seq<SegmentRecordV> {
    s.map_values(|x: SegmentRecord| x@)
}

/// The set of segments in force at one generation.
#[derive(Debug, Clone, PartialEq, Eq)]
pub struct Manifest {
    pub format_version: u16,
    pub generation: u64,
    pub segments: Vec<SegmentRecord>,
    pub wal_ids: Vec<u64>,
}

/// A manifest as a value.
#[verifier::ext_equal]
pub struct ManifestV {
    pub format_version: u16,
    pub generation: u64,
    pub segments: Seq<SegmentRecordV>,
    pub wal_ids: Seq<u64>,
}

impl View for Manifest {
    type V = ManifestV;

    open spec fn view(&self) -> ManifestV {
        ManifestV {
            format_version: self.format_version,
            generation: self.generation,
            segments: records_view(self.segments@),
            wal_ids: self.wal_ids@,
        }
    }
}

/// The encoding of one segment record.
pub open spec fn record_bytes(s: SegmentRecordV) -> Seq<u8> {
    le(s.segment_id as nat, 8) + seq![s.level] + le((s.key_min.len() as u32) as nat, 4) + s.key_min
        + le((s.key_max.len() as u32) as nat, 4) + s.key_max + le(s.seq_lo as nat, 8) + le(
        s.seq_hi as nat,
        8,
    ) + le(s.record_count as nat, 8) + le(s.file_size as nat, 8) + le(s.checksum as nat, 8)
}

pub open spec fn records_bytes(s: Seq<SegmentRecordV>) -> Seq<u8>
    decreases s.len(),
{
    if s.len() == 0 {
        seq![]
    } else {
        records_bytes(s.drop_last()) + record_bytes(s.last())
    }
}

pub open spec fn ids_bytes(s: Seq<u64>) -> Seq<u8>
    decreases s.len(),
{
    if s.len() == 0 {
        seq![]
    } else {
        ids_bytes(s.drop_last()) + le(s.last() as nat, 8)
    }
}

/// The encoded manifest without its fingerprint.
pub open spec fn manifest_body(m: ManifestV) -> Seq<u8> {
    MANIFEST_MAGIC@ + le(m.format_version as nat, 2) + le(m.generation as nat, 8) + le(
        (m.segments.len() as u32) as nat,
        4,
    ) + records_bytes(m.segments) + le((m.wal_ids.len() as u32) as nat, 4) + ids_bytes(m.wal_ids)
}

/// The encoded manifest.
pub open spec fn manifest_bytes(m: ManifestV) -> Seq<u8> {
    manifest_body(m) + ck8(manifest_body(m))
}

/// One segment record read at `pos`, and the position behind it.
pub open spec fn p_record(b: Seq<u8>, pos: int) -> Result<(SegmentRecordV, int), ErrV> {
    match p_u64(b, pos) {
        Err(e) => Err(e),
        Ok(segment_id) => match p_u8(b, pos + 8) {
            Err(e) => Err(e),
            Ok(level) => match p_vec(b, pos + 9) {
                Err(e) => Err(e),
                Ok(key_min) => {
                    let q = pos + 13 + key_min.len();
                    match p_vec(b, q) {
                        Err(e) => Err(e),
                        Ok(key_max) => p_record_tail(
                            b,
                            q + 4 + key_max.len(),
                            segment_id,
                            level,
                            key_min,
                            key_max,
                        ),
                    }
                },
            },
        },
    }
}

/// The five fixed fields that end a segment record.
pub open spec fn p_record_tail(
    b: Seq<u8>,
    p: int,
    segment_id: u64,
    level: u8,
    key_min: Seq<u8>,
    key_max: Seq<u8>,
) -> Result<(SegmentRecordV, int), ErrV> {
    match p_u64(b, p) {
        Err(e) => Err(e),
        Ok(seq_lo) => match p_u64(b, p + 8) {
            Err(e) => Err(e),
            Ok(seq_hi) => match p_u64(b, p + 16) {
                Err(e) => Err(e),
                Ok(record_count) => match p_u64(b, p + 24) {
                    Err(e) => Err(e),
                    Ok(file_size) => match p_u64(b, p + 32) {
                        Err(e) => Err(e),
                        Ok(checksum) => Ok(
                            (
                                SegmentRecordV {
                                    segment_id,
                                    level,
                                    key_min,
                                    key_max,
                                    seq_lo,
                                    seq_hi,
                                    record_count,
                                    file_size,
                                    checksum,
                                },
                                p + 40,
                            ),
                        ),
                    },
                },
            },
        },
    }
}

/// `count` segment records from `pos` on, and the position behind them.
pub open spec fn p_records(b: Seq<u8>, pos: int, count: nat) -> Result<
    (Seq<SegmentRecordV>, int),
    ErrV,
>
    decreases count,
{
    if count == 0 {
        Ok((seq![], pos))
    } else {
        match p_records(b, pos, (count - 1) as nat) {
            Err(e) => Err(e),
            Ok((rs, p)) => match p_record(b, p) {
                Err(e) => Err(e),
                Ok((r, q)) => Ok((rs.push(r), q)),
            },
        }
    }
}

/// What follows the segment records: the log ids and the fingerprint.
pub open spec fn p_manifest_end(
    b: Seq<u8>,
    p: int,
    generation: u64,
    segments: Seq<SegmentRecordV>,
) -> Result<ManifestV, ErrV> {
    match p_u32(b, p) {
        Err(e) => Err(e),
        Ok(n) => {
            let q = p + 4;
            let end = q + 8 * n;
            if n > (b.len() - q) / 8 {
                Err(
                    ErrV::Corrupt(
                        "manifest wal_count "@ + dec(n as nat) + " cannot fit in "@ + dec(
                            (b.len() - q) as nat,
                        ) + " remaining bytes"@,
                    ),
                )
            } else if b.len() - end < 8 {
                Err(truncated(8, end, b.len() - end))
            } else if b.len() != end + 8 {
                Err(ErrV::Corrupt("manifest trailing bytes"@))
            } else if ck8(b.take(end)) != b.subrange(end, end + 8) {
                Err(ErrV::Corrupt("manifest checksum mismatch"@))
            } else {
                Ok(
                    ManifestV {
                        format_version: FORMAT_VERSION,
                        generation,
                        segments,
                        wal_ids: Seq::new(
                            n as nat,
                            |i: int| un_le(b.subrange(q + 8 * i, q + 8 * i + 8)) as u64,
                        ),
                    },
                )
            }
        },
    }
}

/// What stored manifest bytes mean.
pub open spec fn manifest_of(b: Seq<u8>) -> Result<ManifestV, ErrV> {
    match p_take(b, 0, 4) {
        Err(e) => Err(e),
        Ok(magic) => if magic != MANIFEST_MAGIC@ {
            Err(ErrV::Corrupt("manifest bad magic"@))
        } else {
            match p_u16(b, 4) {
                Err(e) => Err(e),
                Ok(version) => if version != FORMAT_VERSION {
                    Err(
                        unknown(
                            b,
                            "manifest format version "@ + dec(version as nat)
                                + " (this build: 1)"@,
                        ),
                    )
                } else {
                    match p_u64(b, 6) {
                        Err(e) => Err(e),
                        Ok(generation) => match p_u32(b, 14) {
                            Err(e) => Err(e),
                            Ok(count) => if count > (b.len() - 18) / MIN_SEGMENT_RECORD as int {
                                Err(
                                    ErrV::Corrupt(
                                        "manifest segment_count "@ + dec(count as nat)
                                            + " cannot fit in "@ + dec((b.len() - 18) as nat)
                                            + " remaining bytes"@,
                                    ),
                                )
                            } else {
                                match p_records(b, 18, count as nat) {
                                    Err(e) => Err(e),
                                    Ok((segments, p)) => p_manifest_end(
                                        b,
                                        p,
                                        generation,
                                        segments,
                                    ),
                                }
                            },
                        },
                    }
                },
            }
        },
    }
}

fn push_record(out: &mut Vec<u8>, s: &SegmentRecord)
    ensures
        final(out)@ == old(out)@ + record_bytes(s@),
{
    push_u64(out, s.segment_id);
    out.push(s.level);
    push_u32(out, s.key_min.len() as u32);
    push_bytes(out, s.key_min.as_slice());
    push_u32(out, s.key_max.len() as u32);
    push_bytes(out, s.key_max.as_slice());
    push_u64(out, s.seq_lo);
    push_u64(out, s.seq_hi);
    push_u64(out, s.record_count);
    push_u64(out, s.file_size);
    push_u64(out, s.checksum);
    assert(out@ =~= old(out)@ + record_bytes(s@));
}

fn read_record(cur: &mut Cursor<'_>) -> (r: Result<SegmentRecord, FormatError>)
    requires
        old(cur).wf(),
    ensures
        final(cur).wf(),
        final(cur).bytes == old(cur).bytes,
        match (r, p_record(old(cur).bytes@, old(cur).pos as int)) {
            (Ok(v), Ok((s, q))) => v@ == s && final(cur).pos == q,
            (Err(e), Err(f)) => e@ == f,
            _ => false,
        },
{
    let segment_id = cur.u64()?;
    let level = cur.u8()?;
    let key_min = cur.vec()?;
    let key_max = cur.vec()?;
    let seq_lo = cur.u64()?;
    let seq_hi = cur.u64()?;
    let record_count = cur.u64()?;
    let file_size = cur.u64()?;
    let checksum = cur.u64()?;
    Ok(
        SegmentRecord {
            segment_id,
            level,
            key_min,
            key_max,
            seq_lo,
            seq_hi,
            record_count,
            file_size,
            checksum,
        },
    )
}

proof fn lemma_p_records_err(b: Seq<u8>, pos: int, i: nat, n: nat)
    requires
        i <= n,
        p_records(b, pos, i) is Err,
    ensures
        p_records(b, pos, n) == p_records(b, pos, i),
    decreases n,
{
    if i < n {
        lemma_p_records_err(b, pos, i, (n - 1) as nat);
    }
}

impl Manifest {
    pub fn encode(&self) -> (r: Vec<u8>)
        ensures
            r@ == manifest_bytes(self@),
    {
        let mut bytes: Vec<u8> = Vec::new();
        push_bytes(&mut bytes, MANIFEST_MAGIC.as_slice());
        push_u16(&mut bytes, self.format_version);
        push_u64(&mut bytes, self.generation);
        push_u32(&mut bytes, self.segments.len() as u32);
        let ghost head = bytes@;
        let ghost segs = self@.segments;
        assert(head =~= MANIFEST_MAGIC@ + le(self.format_version as nat, 2) + le(
            self.generation as nat,
            8,
        ) + le((segs.len() as u32) as nat, 4));
        let mut i: usize = 0;
        assert(bytes@ =~= head + records_bytes(segs.take(0)));
        while i < self.segments.len()
            invariant
                i <= self.segments@.len(),
                segs == records_view(self.segments@),
                bytes@ == head + records_bytes(segs.take(i as int)),
            decreases self.segments@.len() - i,
        {
            push_record(&mut bytes, &self.segments[i]);
            i += 1;
            assert(segs.take(i as int).drop_last() =~= segs.take(i - 1));
            assert(bytes@ =~= head + records_bytes(segs.take(i as int)));
        }
        assert(segs.take(i as int) =~= segs);
        push_u32(&mut bytes, self.wal_ids.len() as u32);
        let ghost head2 = bytes@;
        let ghost ids = self.wal_ids@;
        let mut j: usize = 0;
        assert(bytes@ =~= head2 + ids_bytes(ids.take(0)));
        while j < self.wal_ids.len()
            invariant
                j <= self.wal_ids@.len(),
                ids == self.wal_ids@,
                bytes@ == head2 + ids_bytes(ids.take(j as int)),
            decreases self.wal_ids@.len() - j,
        {
            push_u64(&mut bytes, self.wal_ids[j]);
            j += 1;
            assert(ids.take(j as int).drop_last() =~= ids.take(j - 1));
            assert(bytes@ =~= head2 + ids_bytes(ids.take(j as int)));
        }
        assert(ids.take(j as int) =~= ids);
        assert(bytes@ =~= manifest_body(self@));
        push_checksum(&mut bytes);
        bytes
    }

    pub fn decode(bytes: &[u8]) -> (r: Result<Self, FormatError>)
        ensures
            rv(r) == manifest_of(bytes@),
    {
        let mut cur = Cursor::new(bytes);
        let magic = cur.take(4)?;
        if !bytes_eq(magic, MANIFEST_MAGIC.as_slice()) {
            return Err(corrupt("manifest bad magic"));
        }
        let version = cur.u16()?;
        if version != FORMAT_VERSION {
            return Err(
                unknown_error(
                    bytes,
                    Text::new("manifest format version ").num(version as u64).lit(
                        " (this build: 1)",
                    ).done(),
                ),
            );
        }
        let generation = cur.u64()?;
        let count = cur.u32()? as usize;
        if count > cur.remaining() / MIN_SEGMENT_RECORD {
            return Err(
                FormatError::Corrupt(
                    Text::new("manifest segment_count ").num(count as u64).lit(
                        " cannot fit in ",
                    ).num(cur.remaining() as u64).lit(" remaining bytes").done(),
                ),
            );
        }
        let mut segments: Vec<SegmentRecord> = Vec::new();
        let mut i: usize = 0;
        assert(records_view(segments@) =~= seq![]);
        while i < count
            invariant
                i <= count,
                cur.wf(),
                cur.bytes == bytes,
                p_records(bytes@, 18, i as nat) == Ok::<(Seq<SegmentRecordV>, int), ErrV>(
                    (records_view(segments@), cur.pos as int),
                ),
                manifest_of(bytes@) == (match p_records(bytes@, 18, count as nat) {
                    Err(e) => Err(e),
                    Ok((segs, p)) => p_manifest_end(bytes@, p, generation, segs),
                }),
            decreases count - i,
        {
            let rec = match read_record(&mut cur) {
                Ok(x) => x,
                Err(e) => {
                    proof {
                        lemma_p_records_err(bytes@, 18, (i + 1) as nat, count as nat);
                    }
                    return Err(e);
                },
            };
            let ghost before = segments@;
            segments.push(rec);
            assert(records_view(segments@) =~= records_view(before).push(rec@));
            i += 1;
        }
        let wal_count = cur.u32()? as usize;
        if wal_count > cur.remaining() / 8 {
            return Err(
                FormatError::Corrupt(
                    Text::new("manifest wal_count ").num(wal_count as u64).lit(
                        " cannot fit in ",
                    ).num(cur.remaining() as u64).lit(" remaining bytes").done(),
                ),
            );
        }
        let ghost q = cur.pos as int;
        let mut wal_ids: Vec<u64> = Vec::new();
        let mut j: usize = 0;
        while j < wal_count
            invariant
                j <= wal_count,
                cur.wf(),
                cur.bytes == bytes,
                cur.pos == q + 8 * j,
                q + 8 * wal_count <= bytes@.len(),
                wal_ids@ =~= Seq::new(
                    j as nat,
                    |i: int| un_le(bytes@.subrange(q + 8 * i, q + 8 * i + 8)) as u64,
                ),
            decreases wal_count - j,
        {
            let id = match cur.u64() {
                Ok(x) => x,
                Err(e) => {
                    assert(false);
                    return Err(e);
                },
            };
            wal_ids.push(id);
            j += 1;
        }
        let end: usize = cur.pos();
        let stored = cur.take(8)?;
        if !cur.is_empty() {
            return Err(corrupt("manifest trailing bytes"));
        }
        if !checksum_matches(bytes, end, stored) {
            return Err(corrupt("manifest checksum mismatch"));
        }
        Ok(Manifest { format_version: version, generation, segments, wal_ids })
    }
}

/// `b` holds `s` from `pos` on.
#[verifier::opaque]
pub open spec fn has_at(b: Seq<u8>, pos: int, s: Seq<u8>) -> bool {
    0 <= pos && pos + s.len() <= b.len() && b.subrange(pos, pos + s.len()) == s
}

/// A run of bytes holds itself.
pub proof fn lemma_has_all(b: Seq<u8>)
    ensures
        has_at(b, 0, b),
{
    reveal(has_at);
    assert(b.subrange(0, b.len() as int) =~= b);
}

/// What it means to hold `s` from `pos` on.
pub proof fn lemma_has_is(b: Seq<u8>, pos: int, s: Seq<u8>)
    requires
        has_at(b, pos, s),
    ensures
        0 <= pos,
        pos + s.len() <= b.len(),
        b.subrange(pos, pos + s.len()) == s,
{
    reveal(has_at);
}

pub proof fn lemma_has_split(b: Seq<u8>, pos: int, s: Seq<u8>, t: Seq<u8>)
    requires
        has_at(b, pos, s + t),
    ensures
        has_at(b, pos, s),
        has_at(b, pos + s.len(), t),
{
    reveal(has_at);
    let w = b.subrange(pos, pos + (s + t).len());
    assert(b.subrange(pos, pos + s.len()) =~= w.subrange(0, s.len() as int));
    assert(b.subrange(pos + s.len(), pos + s.len() + t.len()) =~= w.subrange(
        s.len() as int,
        (s + t).len() as int,
    ));
    assert((s + t).subrange(0, s.len() as int) =~= s);
    assert((s + t).subrange(s.len() as int, (s + t).len() as int) =~= t);
}

pub proof fn lemma_p_u8(b: Seq<u8>, pos: int, x: u8)
    requires
        has_at(b, pos, seq![x]),
    ensures
        p_u8(b, pos) == Ok::<u8, ErrV>(x),
{
    reveal(has_at);
    assert(b.subrange(pos, pos + 1)[0] == seq![x][0]);
}

pub proof fn lemma_p_u16(b: Seq<u8>, pos: int, x: u16)
    requires
        has_at(b, pos, le(x as nat, 2)),
    ensures
        p_u16(b, pos) == Ok::<u16, ErrV>(x),
{
    reveal(has_at);
    lemma_le_len(x as nat, 2);
    lemma_pow256();
    lemma_un_le_le(x as nat, 2);
}

pub proof fn lemma_p_u32(b: Seq<u8>, pos: int, x: u32)
    requires
        has_at(b, pos, le(x as nat, 4)),
    ensures
        p_u32(b, pos) == Ok::<u32, ErrV>(x),
{
    reveal(has_at);
    lemma_le_len(x as nat, 4);
    lemma_pow256();
    lemma_un_le_le(x as nat, 4);
}

pub proof fn lemma_p_u64(b: Seq<u8>, pos: int, x: u64)
    requires
        has_at(b, pos, le(x as nat, 8)),
    ensures
        p_u64(b, pos) == Ok::<u64, ErrV>(x),
{
    reveal(has_at);
    lemma_le_len(x as nat, 8);
    lemma_pow256();
    lemma_un_le_le(x as nat, 8);
}

pub proof fn lemma_p_vec(b: Seq<u8>, pos: int, s: Seq<u8>)
    requires
        s.len() <= u32::MAX,
        has_at(b, pos, le((s.len() as u32) as nat, 4)),
        has_at(b, pos + 4, s),
    ensures
        p_vec(b, pos) == Ok::<Seq<u8>, ErrV>(s),
{
    reveal(has_at);
    lemma_p_u32(b, pos, s.len() as u32);
}

/// A segment record whose key lengths fit their fields.
pub open spec fn record_fits(s: SegmentRecordV) -> bool {
    s.key_min.len() <= u32::MAX && s.key_max.len() <= u32::MAX
}

proof fn lemma_record_len(s: SegmentRecordV)
    ensures
        record_bytes(s).len() == 57 + s.key_min.len() + s.key_max.len(),
{
    lemma_le_len(s.segment_id as nat, 8);
    lemma_le_len((s.key_min.len() as u32) as nat, 4);
    lemma_le_len((s.key_max.len() as u32) as nat, 4);
    lemma_le_len(s.seq_lo as nat, 8);
    lemma_le_len(s.seq_hi as nat, 8);
    lemma_le_len(s.record_count as nat, 8);
    lemma_le_len(s.file_size as nat, 8);
    lemma_le_len(s.checksum as nat, 8);
}

proof fn lemma_p_record(b: Seq<u8>, pos: int, s: SegmentRecordV)
    requires
        record_fits(s),
        has_at(b, pos, record_bytes(s)),
    ensures
        p_record(b, pos) == Ok::<(SegmentRecordV, int), ErrV>((s, pos + record_bytes(s).len())),
{
    lemma_record_len(s);
    let w1 = le(s.segment_id as nat, 8);
    let w2 = w1 + seq![s.level];
    let w3 = w2 + le((s.key_min.len() as u32) as nat, 4);
    let w4 = w3 + s.key_min;
    let w5 = w4 + le((s.key_max.len() as u32) as nat, 4);
    let w6 = w5 + s.key_max;
    let w7 = w6 + le(s.seq_lo as nat, 8);
    let w8 = w7 + le(s.seq_hi as nat, 8);
    let w9 = w8 + le(s.record_count as nat, 8);
    let w10 = w9 + le(s.file_size as nat, 8);
    lemma_le_len(s.segment_id as nat, 8);
    lemma_le_len((s.key_min.len() as u32) as nat, 4);
    lemma_le_len((s.key_max.len() as u32) as nat, 4);
    lemma_le_len(s.seq_lo as nat, 8);
    lemma_le_len(s.seq_hi as nat, 8);
    lemma_le_len(s.record_count as nat, 8);
    lemma_le_len(s.file_size as nat, 8);
    lemma_has_split(b, pos, w10, le(s.checksum as nat, 8));
    lemma_has_split(b, pos, w9, le(s.file_size as nat, 8));
    lemma_has_split(b, pos, w8, le(s.record_count as nat, 8));
    lemma_has_split(b, pos, w7, le(s.seq_hi as nat, 8));
    lemma_has_split(b, pos, w6, le(s.seq_lo as nat, 8));
    lemma_has_split(b, pos, w5, s.key_max);
    lemma_has_split(b, pos, w4, le((s.key_max.len() as u32) as nat, 4));
    lemma_has_split(b, pos, w3, s.key_min);
    lemma_has_split(b, pos, w2, le((s.key_min.len() as u32) as nat, 4));
    lemma_has_split(b, pos, w1, seq![s.level]);
    lemma_p_u64(b, pos, s.segment_id);
    lemma_p_u8(b, pos + 8, s.level);
    lemma_p_vec(b, pos + 9, s.key_min);
    let q = pos + 13 + s.key_min.len();
    lemma_p_vec(b, q, s.key_max);
    let p = q + 4 + s.key_max.len();
    lemma_p_u64(b, p, s.seq_lo);
    lemma_p_u64(b, p + 8, s.seq_hi);
    lemma_p_u64(b, p + 16, s.record_count);
    lemma_p_u64(b, p + 24, s.file_size);
    lemma_p_u64(b, p + 32, s.checksum);
}

proof fn lemma_p_records(b: Seq<u8>, pos: int, rs: Seq<SegmentRecordV>)
    requires
        forall|i: int| 0 <= i < rs.len() ==> record_fits(#[trigger] rs[i]),
        has_at(b, pos, records_bytes(rs)),
    ensures
        p_records(b, pos, rs.len()) == Ok::<(Seq<SegmentRecordV>, int), ErrV>(
            (rs, pos + records_bytes(rs).len()),
        ),
        records_bytes(rs).len() >= 57 * rs.len(),
    decreases rs.len(),
{
    if rs.len() > 0 {
        lemma_has_split(b, pos, records_bytes(rs.drop_last()), record_bytes(rs.last()));
        lemma_p_records(b, pos, rs.drop_last());
        lemma_record_len(rs.last());
        lemma_p_record(b, pos + records_bytes(rs.drop_last()).len(), rs.last());
        assert(rs.drop_last().push(rs.last()) =~= rs);
    } else {
        assert(rs =~= seq![]);
    }
}

proof fn lemma_ids(b: Seq<u8>, pos: int, ids: Seq<u64>)
    requires
        has_at(b, pos, ids_bytes(ids)),
    ensures
        ids_bytes(ids).len() == 8 * ids.len(),
        forall|i: int|
            #![trigger ids[i]]
            0 <= i < ids.len() ==> un_le(b.subrange(pos + 8 * i, pos + 8 * i + 8)) == ids[i],
    decreases ids.len(),
{
    if ids.len() > 0 {
        let front = ids.drop_last();
        lemma_has_split(b, pos, ids_bytes(front), le(ids.last() as nat, 8));
        lemma_has_is(b, pos + ids_bytes(front).len(), le(ids.last() as nat, 8));
        lemma_ids(b, pos, front);
        lemma_le_len(ids.last() as nat, 8);
        lemma_pow256();
        lemma_un_le_le(ids.last() as nat, 8);
        assert forall|i: int| 0 <= i < ids.len() implies un_le(
            b.subrange(pos + 8 * i, pos + 8 * i + 8),
        ) == #[trigger] ids[i] by {
            if i < front.len() {
                assert(front[i] == ids[i]);
            }
        }
    }
}

/// A manifest whose counts and key lengths fit their fields.
pub open spec fn manifest_fits(m: ManifestV) -> bool {
    &&& m.segments.len() <= u32::MAX
    &&& m.wal_ids.len() <= u32::MAX
    &&& forall|i: int| 0 <= i < m.segments.len() ==> record_fits(#[trigger] m.segments[i])
}

proof fn lemma_manifest_parts(m: ManifestV, p: int)
    requires
        manifest_fits(m),
        p == 18 + records_bytes(m.segments).len(),
    ensures
        ({
            let b = manifest_bytes(m);
            let n = m.wal_ids.len();
            &&& p_take(b, 0, 4) == Ok::<Seq<u8>, ErrV>(MANIFEST_MAGIC@)
            &&& p_u16(b, 4) == Ok::<u16, ErrV>(m.format_version)
            &&& p_u64(b, 6) == Ok::<u64, ErrV>(m.generation)
            &&& p_u32(b, 14) == Ok::<u32, ErrV>(m.segments.len() as u32)
            &&& p_records(b, 18, m.segments.len()) == Ok::<(Seq<SegmentRecordV>, int), ErrV>(
                (m.segments, p),
            )
            &&& 57 * m.segments.len() <= p - 18
            &&& p_u32(b, p) == Ok::<u32, ErrV>(n as u32)
            &&& b.len() == p + 4 + 8 * n + 8
            &&& Seq::new(
                n,
                |i: int| un_le(b.subrange(p + 4 + 8 * i, p + 4 + 8 * i + 8)) as u64,
            ) == m.wal_ids
            &&& manifest_body(m).len() == p + 4 + 8 * n
        }),
{
    let b = manifest_bytes(m);
    let body = manifest_body(m);
    let w1 = MANIFEST_MAGIC@;
    let w2 = w1 + le(m.format_version as nat, 2);
    let w3 = w2 + le(m.generation as nat, 8);
    let w4 = w3 + le((m.segments.len() as u32) as nat, 4);
    let w5 = w4 + records_bytes(m.segments);
    let w6 = w5 + le((m.wal_ids.len() as u32) as nat, 4);
    lemma_le_len(m.format_version as nat, 2);
    lemma_le_len(m.generation as nat, 8);
    lemma_le_len((m.segments.len() as u32) as nat, 4);
    lemma_le_len((m.wal_ids.len() as u32) as nat, 4);
    lemma_has_all(b);
    lemma_has_split(b, 0, body, ck8(body));
    lemma_has_split(b, 0, w6, ids_bytes(m.wal_ids));
    lemma_has_split(b, 0, w5, le((m.wal_ids.len() as u32) as nat, 4));
    lemma_has_split(b, 0, w4, records_bytes(m.segments));
    lemma_has_split(b, 0, w3, le((m.segments.len() as u32) as nat, 4));
    lemma_has_split(b, 0, w2, le(m.generation as nat, 8));
    lemma_has_split(b, 0, w1, le(m.format_version as nat, 2));
    lemma_has_is(b, 0, w1);
    lemma_p_u16(b, 4, m.format_version);
    lemma_p_u64(b, 6, m.generation);
    lemma_p_u32(b, 14, m.segments.len() as u32);
    lemma_p_records(b, 18, m.segments);
    lemma_p_u32(b, p, m.wal_ids.len() as u32);
    lemma_ids(b, p + 4, m.wal_ids);
    let n = m.wal_ids.len();
    assert(Seq::new(n, |i: int| un_le(b.subrange(p + 4 + 8 * i, p + 4 + 8 * i + 8)) as u64)
        =~= m.wal_ids);
}

/// Reading back a written manifest gives the manifest; one of another format
/// version is refused as unsupported.
pub proof fn manifest_round_trip(m: ManifestV)
    requires
        manifest_fits(m),
    ensures
        m.format_version == FORMAT_VERSION ==> manifest_of(manifest_bytes(m)) == Ok::<
            ManifestV,
            ErrV,
        >(m),
        m.format_version != FORMAT_VERSION ==> manifest_of(manifest_bytes(m)) == Err::<
            ManifestV,
            ErrV,
        >(
            ErrV::Unsupported(
                "manifest format version "@ + dec(m.format_version as nat) + " (this build: 1)"@,
            ),
        ),
{
    let b = manifest_bytes(m);
    let body = manifest_body(m);
    let p = 18 + records_bytes(m.segments).len() as int;
    lemma_manifest_parts(m, p);
    lemma_sealed(body);
    let end = p + 4 + 8 * m.wal_ids.len();
    assert(b.take(end) =~= body);
    assert(b.subrange(end, end + 8) =~= ck8(body));
}

/// The CURRENT and manifest pair check: the pointer must name the manifest
/// that is actually on disk.
pub open spec fn verify_pair_spec(current_generation: u64, manifest_generation: u64) -> Result<
    (),
    ErrV,
> {
    if current_generation != manifest_generation {
        Err(
            ErrV::Corrupt(
                "CURRENT points at generation "@ + dec(current_generation as nat)
                    + " but manifest is generation "@ + dec(manifest_generation as nat),
            ),
        )
    } else {
        Ok(())
    }
}

pub fn verify_pair(current: &Current, manifest: &Manifest) -> (r: Result<(), FormatError>)
    ensures
        rv(r) == verify_pair_spec(current.manifest_generation, manifest.generation),
{
    if current.manifest_generation != manifest.generation {
        return Err(
            FormatError::Corrupt(
                Text::new("CURRENT points at generation ").num(current.manifest_generation).lit(
                    " but manifest is generation ",
                ).num(manifest.generation).done(),
            ),
        );
    }
    Ok(())
}

} // verus!
