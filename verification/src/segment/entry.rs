//! Entries, and the data blocks that hold them.

use crate::codec::{push_bytes, to_vec};
use crate::format::{corrupt, p_take, p_u16, p_u32, p_u64, p_u8, p_vec, Cursor, ErrV, FormatError};
use crate::identity::replica_id::ReplicaId;
use crate::text::{dec, Text};
use vstd::prelude::*;

verus! {

pub const FLAG_PUT: u8 = 1;

pub const FLAG_DELETE: u8 = 2;

pub const FLAG_VERSION: u8 = 4;

/// One version of one key.
#[derive(Debug, Clone, PartialEq, Eq)]
pub struct SegmentEntry {
    pub key: Vec<u8>,
    pub value: Vec<u8>,
    pub seq: u64,
    pub flags: u8,
    /// The owning replica; 0 for rows that belong to no object. Only blocks
    /// of version 3 hold it.
    pub replica_id: ReplicaId,
}

/// An entry as a value.
#[verifier::ext_equal]
pub struct EntryV {
    pub key: Seq<u8>,
    pub value: Seq<u8>,
    pub seq: u64,
    pub flags: u8,
    pub replica_id: ReplicaId,
}

impl View for SegmentEntry {
    type V = EntryV;

    open spec fn view(&self) -> EntryV {
        EntryV {
            key: self.key@,
            value: self.value@,
            seq: self.seq,
            flags: self.flags,
            replica_id: self.replica_id,
        }
    }
}

/// Entries as values.
pub open spec fn entries_view(s: Seq<SegmentEntry>) -> Seq<EntryV> {
    s.map_values(|e: SegmentEntry| e@)
}

impl SegmentEntry {
    /// A copy of the entry.
    pub fn duplicate(&self) -> (r: SegmentEntry)
        ensures
            r@ == self@,
    {
        SegmentEntry {
            key: to_vec(self.key.as_slice()),
            value: to_vec(self.value.as_slice()),
            seq: self.seq,
            flags: self.flags,
            replica_id: self.replica_id,
        }
    }
}

// ---------------------------------------------------------------------------
// Decoding
/// The key of the entry at `pos`, whose predecessor has the key `prev`, and
/// the position behind it.
#[verifier::opaque]
pub open spec fn p_key(s: Seq<u8>, pos: int, prev: Seq<u8>) -> Result<(Seq<u8>, int), ErrV> {
    match p_u16(s, pos) {
        Err(e) => Err(e),
        Ok(shared) => if shared > prev.len() {
            Err(
                ErrV::Corrupt(
                    "entry shared prefix "@ + dec(shared as nat) + " exceeds previous key "@ + dec(
                        prev.len(),
                    ),
                ),
            )
        } else {
            match p_u16(s, pos + 2) {
                Err(e) => Err(e),
                Ok(n) => match p_take(s, pos + 4, n as int) {
                    Err(e) => Err(e),
                    Ok(suffix) => Ok((prev.take(shared as int) + suffix, pos + 4 + n)),
                },
            }
        },
    }
}

/// What follows the key of an entry.
#[verifier::ext_equal]
pub struct BodyV {
    pub value: Seq<u8>,
    pub seq: u64,
    pub flags: u8,
    pub replica_id: ReplicaId,
}

/// The value, sequence, flags and (in version 3) replica at `pos`, and the
/// position behind them.
#[verifier::opaque]
pub open spec fn p_body(s: Seq<u8>, pos: int, v3: bool) -> Result<(BodyV, int), ErrV> {
    match p_vec(s, pos) {
        Err(e) => Err(e),
        Ok(value) => {
            let q = pos + 4 + value.len();
            match p_u64(s, q) {
                Err(e) => Err(e),
                Ok(seq) => match p_u8(s, q + 8) {
                    Err(e) => Err(e),
                    Ok(flags) => if v3 {
                        match p_u64(s, q + 9) {
                            Err(e) => Err(e),
                            Ok(rid) => Ok(
                                (
                                    BodyV { value, seq, flags, replica_id: ReplicaId(rid) },
                                    q + 17,
                                ),
                            ),
                        }
                    } else {
                        Ok((BodyV { value, seq, flags, replica_id: ReplicaId(0) }, q + 9))
                    },
                },
            }
        },
    }
}

/// The entry of a key and a body.
pub open spec fn entry_of(key: Seq<u8>, b: BodyV) -> EntryV {
    EntryV { key, value: b.value, seq: b.seq, flags: b.flags, replica_id: b.replica_id }
}

/// One entry read at `pos`, and the position behind it.
pub open spec fn p_entry(s: Seq<u8>, pos: int, prev: Seq<u8>, v3: bool) -> Result<
    (EntryV, int),
    ErrV,
> {
    match p_key(s, pos, prev) {
        Err(e) => Err(e),
        Ok((key, p)) => match p_body(s, p, v3) {
            Err(e) => Err(e),
            Ok((b, q)) => Ok((entry_of(key, b), q)),
        },
    }
}

/// The key of the last entry; empty before the first.
pub open spec fn last_key(s: Seq<EntryV>) -> Seq<u8> {
    if s.len() == 0 {
        seq![]
    } else {
        s.last().key
    }
}

/// `n` entries from the start of `s`, and the position behind them.
pub open spec fn p_entries(s: Seq<u8>, n: nat, v3: bool) -> Result<(Seq<EntryV>, int), ErrV>
    decreases n,
{
    if n == 0 {
        Ok((seq![], 0))
    } else {
        match p_entries(s, (n - 1) as nat, v3) {
            Err(e) => Err(e),
            Ok((front, p)) => match p_entry(s, p, last_key(front), v3) {
                Err(e) => Err(e),
                Ok((e, q)) => Ok((front.push(e), q)),
            },
        }
    }
}

/// The length of the restart table of a payload.
pub open spec fn p_table_len(payload: Seq<u8>) -> Result<int, ErrV> {
    match p_u16(payload, 0) {
        Err(e) => Err(e),
        Ok(_) => match p_u32(payload, 2) {
            Err(e) => Err(e),
            Ok(restarts) => if 6 + 4 * restarts > payload.len() {
                Err(ErrV::Corrupt("v2 restart table exceeds payload"@))
            } else {
                Ok(6 + 4 * restarts)
            },
        },
    }
}

/// Every entry of data block `i`, from its payload.
pub open spec fn block_entries_of(payload: Seq<u8>, n: nat, v2: bool, v3: bool, i: nat) -> Result<
    Seq<EntryV>,
    ErrV,
> {
    match (if v2 {
        p_table_len(payload)
    } else {
        Ok(0int)
    }) {
        Err(e) => Err(e),
        Ok(start) => match p_entries(payload.skip(start), n, v3) {
            Err(e) => Err(e),
            Ok((entries, end)) => if end != payload.len() - start {
                Err(ErrV::Corrupt("data block "@ + dec(i) + " trailing bytes"@))
            } else {
                Ok(entries)
            },
        },
    }
}

/// Keys and bodies take space, and lie within the bytes.
pub proof fn lemma_key_body_len(s: Seq<u8>, pos: int, prev: Seq<u8>, v3: bool)
    ensures
        p_key(s, pos, prev) matches Ok((k, p)) ==> pos + 4 <= p <= s.len(),
        p_body(s, pos, v3) matches Ok((b, q)) ==> pos + 13 <= q <= s.len(),
{
    reveal(p_key);
    reveal(p_body);
}

/// Reads the key of an entry, given its predecessor's.
pub fn read_key(cur: &mut Cursor<'_>, prev: &Vec<u8>) -> (r: Result<Vec<u8>, FormatError>)
    requires
        old(cur).wf(),
    ensures
        final(cur).wf(),
        final(cur).bytes == old(cur).bytes,
        match (r, p_key(old(cur).bytes@, old(cur).pos as int, prev@)) {
            (Ok(k), Ok((v, q))) => k@ == v && final(cur).pos == q,
            (Err(e), Err(f)) => e@ == f,
            _ => false,
        },
{
    proof {
        reveal(p_key);
    }
    let shared = cur.u16()? as usize;
    if shared > prev.len() {
        return Err(
            FormatError::Corrupt(
                Text::new("entry shared prefix ").num(shared as u64).lit(
                    " exceeds previous key ",
                ).num(prev.len() as u64).done(),
            ),
        );
    }
    let n = cur.u16()? as usize;
    let suffix = cur.take(n)?;
    let head: &[u8] = prev.as_slice();
    let mut key = to_vec(&head[0..shared]);
    push_bytes(&mut key, suffix);
    assert(key@ =~= prev@.take(shared as int) + suffix@);
    Ok(key)
}

/// What follows the key of an entry.
pub struct Body {
    pub value: Vec<u8>,
    pub seq: u64,
    pub flags: u8,
    pub replica_id: ReplicaId,
}

impl View for Body {
    type V = BodyV;

    open spec fn view(&self) -> BodyV {
        BodyV {
            value: self.value@,
            seq: self.seq,
            flags: self.flags,
            replica_id: self.replica_id,
        }
    }
}

/// Reads what follows the key of an entry.
pub fn read_body(cur: &mut Cursor<'_>, v3: bool) -> (r: Result<Body, FormatError>)
    requires
        old(cur).wf(),
    ensures
        final(cur).wf(),
        final(cur).bytes == old(cur).bytes,
        match (r, p_body(old(cur).bytes@, old(cur).pos as int, v3)) {
            (Ok(b), Ok((v, q))) => b@ == v && final(cur).pos == q,
            (Err(e), Err(f)) => e@ == f,
            _ => false,
        },
{
    proof {
        reveal(p_body);
    }
    let value = cur.vec()?;
    let seq = cur.u64()?;
    let flags = cur.u8()?;
    let replica_id = if v3 {
        ReplicaId(cur.u64()?)
    } else {
        ReplicaId(0)
    };
    Ok(Body { value, seq, flags, replica_id })
}

/// Skips what follows the key of an entry.
pub fn skip_entry_body(cur: &mut Cursor<'_>, v3: bool) -> (r: Result<(), FormatError>)
    requires
        old(cur).wf(),
    ensures
        final(cur).wf(),
        final(cur).bytes == old(cur).bytes,
        match (r, p_body(old(cur).bytes@, old(cur).pos as int, v3)) {
            (Ok(_), Ok((v, q))) => final(cur).pos == q,
            (Err(e), Err(f)) => e@ == f,
            _ => false,
        },
{
    proof {
        reveal(p_body);
    }
    let n = cur.u32()? as usize;
    cur.take(n)?;
    cur.u64()?;
    cur.u8()?;
    if v3 {
        cur.u64()?;
    }
    Ok(())
}

/// Reads the restart count and gives the table's length.
pub fn read_table_len(payload: &[u8]) -> (r: Result<usize, FormatError>)
    ensures
        match (r, p_table_len(payload@)) {
            (Ok(n), Ok(m)) => n == m && n <= payload@.len() && n >= 6,
            (Err(e), Err(f)) => e@ == f,
            _ => false,
        },
{
    let mut cur = Cursor::new(payload);
    cur.u16()?;
    let restarts = cur.u32()?;
    let table_len: u64 = 6 + 4 * restarts as u64;
    if table_len > payload.len() as u64 {
        return Err(corrupt("v2 restart table exceeds payload"));
    }
    Ok(table_len as usize)
}

proof fn lemma_p_entries_err(s: Seq<u8>, i: nat, n: nat, v3: bool)
    requires
        i <= n,
        p_entries(s, i, v3) is Err,
    ensures
        p_entries(s, n, v3) == p_entries(s, i, v3),
    decreases n,
{
    if i < n {
        lemma_p_entries_err(s, i, (n - 1) as nat, v3);
    }
}

/// Decodes a data block in full.
pub fn decode_block(payload: &[u8], n: u32, v2: bool, v3: bool, i: usize) -> (r: Result<
    Vec<SegmentEntry>,
    FormatError,
>)
    ensures
        match r {
            Ok(v) => block_entries_of(payload@, n as nat, v2, v3, i as nat) == Ok::<
                Seq<EntryV>,
                ErrV,
            >(entries_view(v@)),
            Err(e) => block_entries_of(payload@, n as nat, v2, v3, i as nat) == Err::<
                Seq<EntryV>,
                ErrV,
            >(e@),
        },
{
    let start: usize = if v2 {
        match read_table_len(payload) {
            Ok(t) => t,
            Err(e) => {
                return Err(e);
            },
        }
    } else {
        0
    };
    let total: usize = payload.len();
    let rest = &payload[start..total];
    assert(rest@ =~= payload@.skip(start as int));
    let mut cur = Cursor::new(rest);
    let mut out: Vec<SegmentEntry> = Vec::new();
    let mut prev: Vec<u8> = Vec::new();
    let mut k: u32 = 0;
    assert(entries_view(out@) =~= seq![]);
    assert(prev@ =~= seq![]);
    while k < n
        invariant
            k <= n,
            cur.wf(),
            cur.bytes@ == rest@,
            prev@ == last_key(entries_view(out@)),
            p_entries(rest@, k as nat, v3) == Ok::<(Seq<EntryV>, int), ErrV>(
                (entries_view(out@), cur.pos as int),
            ),
            (if v2 {
                p_table_len(payload@)
            } else {
                Ok(0int)
            }) == Ok::<int, ErrV>(start as int),
            rest@ == payload@.skip(start as int),
        decreases n - k,
    {
        let key = match read_key(&mut cur, &prev) {
            Ok(x) => x,
            Err(e) => {
                proof {
                    lemma_p_entries_err(rest@, (k + 1) as nat, n as nat, v3);
                }
                return Err(e);
            },
        };
        let body = match read_body(&mut cur, v3) {
            Ok(x) => x,
            Err(e) => {
                proof {
                    lemma_p_entries_err(rest@, (k + 1) as nat, n as nat, v3);
                }
                return Err(e);
            },
        };
        prev = to_vec(key.as_slice());
        let ghost before = out@;
        let e = SegmentEntry {
            key,
            value: body.value,
            seq: body.seq,
            flags: body.flags,
            replica_id: body.replica_id,
        };
        out.push(e);
        assert(entries_view(out@) =~= entries_view(before).push(e@));
        k += 1;
    }
    if !cur.is_empty() {
        return Err(
            FormatError::Corrupt(
                Text::new("data block ").num(i as u64).lit(" trailing bytes").done(),
            ),
        );
    }
    Ok(out)
}

} // verus!
