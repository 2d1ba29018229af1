//! Files of fixed-width records: a common header, counted tables, and a
//! closing fingerprint.

use crate::codec::{bytes_eq, le, lemma_le_len, push_bytes, push_u16, push_u64};
use crate::format::{
    checksum_matches, ck8, has_at, lemma_has_is, lemma_has_split, lemma_p_u16, lemma_p_u32, lemma_p_u64, p_take,
    p_u16, p_u32, p_u64, rv, sealed, truncated, unknown, unknown_error, Cursor, ErrV, FormatError, FORMAT_VERSION,
};
use crate::text::{dec, Text};
use vstd::prelude::*;

verus! {

/// Magic, format version, generation: the first 14 bytes.
pub open spec fn file_head(magic: Seq<u8>, version: u16, generation: u64) -> Seq<u8> {
    magic + le(version as nat, 2) + le(generation as nat, 8)
}

/// The generation in a file's header.
pub open spec fn p_file_head(b: Seq<u8>, label: Seq<char>, magic: Seq<u8>) -> Result<u64, ErrV> {
    match p_take(b, 0, 4) {
        Err(e) => Err(e),
        Ok(m) => if m != magic {
            Err(ErrV::Corrupt(label + " bad magic"@))
        } else {
            match p_u16(b, 4) {
                Err(e) => Err(e),
                Ok(version) => if version != FORMAT_VERSION {
                    Err(
                        unknown(
                            b,
                            label + " format version "@ + dec(version as nat)
                                + " (this build: 1)"@,
                        ),
                    )
                } else {
                    p_u64(b, 6)
                },
            }
        },
    }
}

/// The record count at `pos`, checked against what is left for records of
/// `width` bytes.
pub open spec fn p_count(b: Seq<u8>, pos: int, label: Seq<char>, width: int) -> Result<u32, ErrV> {
    match p_u32(b, pos) {
        Err(e) => Err(e),
        Ok(n) => if n > (b.len() - pos - 4) / width {
            Err(
                ErrV::Corrupt(
                    label + " "@ + dec(n as nat) + " cannot fit in "@ + dec(
                        (b.len() - pos - 4) as nat,
                    ) + " remaining bytes"@,
                ),
            )
        } else {
            Ok(n)
        },
    }
}

/// The fingerprint at `end` covers everything before it and ends the file.
pub open spec fn p_file_end(b: Seq<u8>, end: int, label: Seq<char>) -> Result<(), ErrV> {
    if b.len() - end < 8 {
        Err(truncated(8, end, b.len() - end))
    } else if b.len() != end + 8 {
        Err(ErrV::Corrupt(label + " trailing bytes"@))
    } else if ck8(b.take(end)) != b.subrange(end, end + 8) {
        Err(ErrV::Corrupt(label + " checksum mismatch"@))
    } else {
        Ok(())
    }
}

/// The encodings of `s`, one behind the other.
pub open spec fn enc_all<T>(s: Seq<T>, f: spec_fn(T) -> Seq<u8>) -> Seq<u8>
    decreases s.len(),
{
    if s.len() == 0 {
        seq![]
    } else {
        enc_all(s.drop_last(), f) + f(s.last())
    }
}

/// A counted table.
pub open spec fn enc_table<T>(s: Seq<T>, f: spec_fn(T) -> Seq<u8>) -> Seq<u8> {
    le((s.len() as u32) as nat, 4) + enc_all(s, f)
}

/// Record `i` of a table of fixed-width records stands at `i` widths.
pub proof fn lemma_enc_all<T>(b: Seq<u8>, pos: int, s: Seq<T>, f: spec_fn(T) -> Seq<u8>, w: int)
    requires
        forall|x: T| (#[trigger] f(x)).len() == w,
        has_at(b, pos, enc_all(s, f)),
    ensures
        enc_all(s, f).len() == w * s.len(),
        forall|i: int|
            #![trigger s[i]]
            0 <= i < s.len() ==> has_at(b, pos + w * i, f(s[i])),
    decreases s.len(),
{
    if s.len() > 0 {
        let front = s.drop_last();
        lemma_has_split(b, pos, enc_all(front, f), f(s.last()));
        lemma_enc_all(b, pos, front, f, w);
        assert(w * (s.len() - 1) + w == w * s.len()) by (nonlinear_arith);
        assert forall|i: int| #![trigger s[i]] 0 <= i < s.len() implies has_at(
            b,
            pos + w * i,
            f(s[i]),
        ) by {
            if i < front.len() {
                assert(front[i] == s[i]);
            }
        }
    } else {
        assert(w * s.len() == 0) by (nonlinear_arith)
            requires
                s.len() == 0,
        ;
    }
}

/// A written header reads back as its generation, or as unsupported.
pub proof fn lemma_p_file_head(
    b: Seq<u8>,
    label: Seq<char>,
    magic: Seq<u8>,
    version: u16,
    generation: u64,
)
    requires
        magic.len() == 4,
        has_at(b, 0, file_head(magic, version, generation)),
        sealed(b),
    ensures
        version == FORMAT_VERSION ==> p_file_head(b, label, magic) == Ok::<u64, ErrV>(generation),
        version != FORMAT_VERSION ==> p_file_head(b, label, magic) == Err::<u64, ErrV>(
            unsupported_version(label, version),
        ),
        file_head(magic, version, generation).len() == 14,
{
    lemma_le_len(version as nat, 2);
    lemma_le_len(generation as nat, 8);
    lemma_has_is(b, 0, file_head(magic, version, generation));
    lemma_has_split(b, 0, magic + le(version as nat, 2), le(generation as nat, 8));
    lemma_has_split(b, 0, magic, le(version as nat, 2));
    lemma_has_is(b, 0, magic);
    lemma_p_u16(b, 4, version);
    lemma_p_u64(b, 6, generation);
}

/// The error for a file of another format version.
pub open spec fn unsupported_version(label: Seq<char>, version: u16) -> ErrV {
    ErrV::Unsupported(label + " format version "@ + dec(version as nat) + " (this build: 1)"@)
}

/// A written table reads back: its count, and each record in its place.
pub proof fn lemma_p_table<T>(
    b: Seq<u8>,
    pos: int,
    label: Seq<char>,
    s: Seq<T>,
    f: spec_fn(T) -> Seq<u8>,
    w: int,
)
    requires
        w > 0,
        s.len() <= u32::MAX,
        forall|x: T| (#[trigger] f(x)).len() == w,
        has_at(b, pos, enc_table(s, f)),
    ensures
        p_count(b, pos, label, w) == Ok::<u32, ErrV>(s.len() as u32),
        enc_table(s, f).len() == 4 + w * s.len(),
        forall|i: int|
            #![trigger s[i]]
            0 <= i < s.len() ==> has_at(b, pos + 4 + w * i, f(s[i])),
{
    lemma_le_len((s.len() as u32) as nat, 4);
    lemma_has_split(b, pos, le((s.len() as u32) as nat, 4), enc_all(s, f));
    lemma_p_u32(b, pos, s.len() as u32);
    lemma_enc_all(b, pos + 4, s, f, w);
    lemma_has_is(b, pos + 4, enc_all(s, f));
    let room = b.len() - pos - 4;
    assert(s.len() <= room / w) by (nonlinear_arith)
        requires
            w > 0,
            w * s.len() <= room,
    ;
}

/// A body with its fingerprint behind it ends as it should.
pub proof fn lemma_p_file_end(body: Seq<u8>, label: Seq<char>)
    ensures
        p_file_end(body + ck8(body), body.len() as int, label) == Ok::<(), ErrV>(()),
{
    let b = body + ck8(body);
    assert(b.take(body.len() as int) =~= body);
    assert(b.subrange(body.len() as int, body.len() as int + 8) =~= ck8(body));
}

pub fn push_file_head(out: &mut Vec<u8>, magic: &[u8], version: u16, generation: u64)
    ensures
        final(out)@ == old(out)@ + file_head(magic@, version, generation),
{
    push_bytes(out, magic);
    push_u16(out, version);
    push_u64(out, generation);
    assert(out@ =~= old(out)@ + file_head(magic@, version, generation));
}

/// Reads the header; the cursor then stands behind it.
pub fn read_file_head(cur: &mut Cursor<'_>, label: &str, magic: &[u8]) -> (r: Result<
    u64,
    FormatError,
>)
    requires
        old(cur).wf(),
        old(cur).pos == 0,
    ensures
        final(cur).wf(),
        final(cur).bytes == old(cur).bytes,
        rv(r) == p_file_head(old(cur).bytes@, label@, magic@),
        r is Ok ==> final(cur).pos == 14,
{
    let m = cur.take(4)?;
    if !bytes_eq(m, magic) {
        return Err(FormatError::Corrupt(Text::new(label).lit(" bad magic").done()));
    }
    let version = cur.u16()?;
    if version != FORMAT_VERSION {
        return Err(
            unknown_error(
                cur.bytes,
                Text::new(label).lit(" format version ").num(version as u64).lit(
                    " (this build: 1)",
                ).done(),
            ),
        );
    }
    cur.u64()
}

/// Reads a record count and checks that the records can be there.
pub fn read_count(cur: &mut Cursor<'_>, label: &str, width: usize) -> (r: Result<u32, FormatError>)
    requires
        old(cur).wf(),
        width > 0,
    ensures
        final(cur).wf(),
        final(cur).bytes == old(cur).bytes,
        rv(r) == p_count(old(cur).bytes@, old(cur).pos as int, label@, width as int),
        r matches Ok(n) ==> final(cur).pos == old(cur).pos + 4 && final(cur).pos + width * n
            <= final(cur).bytes@.len(),
{
    let n = cur.u32()?;
    let left: usize = cur.remaining();
    if n as usize > left / width {
        return Err(
            FormatError::Corrupt(
                Text::new(label).lit(" ").num(n as u64).lit(" cannot fit in ").num(
                    left as u64,
                ).lit(" remaining bytes").done(),
            ),
        );
    }
    assert(width * n <= left) by (nonlinear_arith)
        requires
            n <= left / width,
            width > 0,
    ;
    Ok(n)
}

/// Reads the closing fingerprint.
pub fn read_file_end(cur: &mut Cursor<'_>, label: &str) -> (r: Result<(), FormatError>)
    requires
        old(cur).wf(),
    ensures
        rv(r) == p_file_end(old(cur).bytes@, old(cur).pos as int, label@),
{
    let end: usize = cur.pos();
    let bytes = cur.bytes;
    let stored = cur.take(8)?;
    if !cur.is_empty() {
        return Err(FormatError::Corrupt(Text::new(label).lit(" trailing bytes").done()));
    }
    if !checksum_matches(bytes, end, stored) {
        return Err(FormatError::Corrupt(Text::new(label).lit(" checksum mismatch").done()));
    }
    Ok(())
}

} // verus!
