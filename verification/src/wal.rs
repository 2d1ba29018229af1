//! Write-ahead log frames.
//!
//! Frame (little-endian):
//! `AKWF | format_version u16 | frame_type u8 | seq u64 | payload_len u32 |
//!  payload | sha256-8(everything before)`
//! Payload: `entry_count u32 | entries`. An entry begins with its op: a put is
//! `key_len u32 | key | value_len u32 | value`, a deletion `key_len u32 | key`;
//! those of an object's replica have `ReplicaId 8` before the key. A creation
//! is `ObjectId 16 | LogicalId 8 | ReplicaId 8 | placement generation u64`. One
//! frame is one batch with one sequence number.
//!
//! Decode order is magic, checksum, version, type: only a frame whose integrity
//! is clean can be of a newer format. Replay tells a torn tail
//! (nothing valid behind the failure) from damage (a valid frame behind it):
//! the first is cut off, the second fails closed.

use crate::codec::{array16, bytes_eq, le, lemma_le_len, push_bytes, push_u16, push_u32, push_u64};
use crate::format::{
    checksum_matches, ck8, corrupt, has_at, invalid, lemma_has_all, lemma_has_is, lemma_has_split, lemma_p_u16, lemma_p_u32,
    lemma_p_u64, lemma_p_u8, lemma_p_vec, p_take, p_u16, p_u32, p_u64, p_u8, p_vec, push_checksum,
    rv, Cursor, ErrV, FormatError,
};
use crate::identity::logical_id::LogicalId;
use crate::identity::object_id::ObjectId;
use crate::identity::replica_id::ReplicaId;
use crate::table::enc_all;
use crate::text::{dec, hex, Text};
use vstd::prelude::*;

verus! {

pub const WAL_FORMAT_VERSION: u16 = 1;

pub const FRAME_BATCH: u8 = 1;

pub const OP_PUT: u8 = 1;

pub const OP_DELETE: u8 = 2;

/// Allocates a new object identity.
pub const OP_CREATE_OBJECT: u8 = 3;

pub const OP_PUT_OBJECT: u8 = 4;

pub const OP_DELETE_OBJECT: u8 = 5;

pub const WAL_MAGIC: [u8; 4] = [0x41, 0x4b, 0x57, 0x46];

/// Magic 4, version 2, type 1, sequence 8, payload length 4.
pub const FRAME_HEADER_LEN: usize = 19;

/// One change: a row of no object, a row of an object's replica, or a new
/// object with the generation of its first placement.
#[derive(Debug, Clone, PartialEq, Eq)]
pub enum Op {
    Put(Vec<u8>, Vec<u8>),
    Delete(Vec<u8>),
    CreateObject { oid: ObjectId, lid: LogicalId, rid: ReplicaId, pgen: u64 },
    PutObject(ReplicaId, Vec<u8>, Vec<u8>),
    DeleteObject(ReplicaId, Vec<u8>),
}

/// An operation as a value.
pub enum OpV {
    Put(Seq<u8>, Seq<u8>),
    Delete(Seq<u8>),
    CreateObject { oid: Seq<u8>, lid: LogicalId, rid: ReplicaId, pgen: u64 },
    PutObject(ReplicaId, Seq<u8>, Seq<u8>),
    DeleteObject(ReplicaId, Seq<u8>),
}

impl View for Op {
    type V = OpV;

    open spec fn view(&self) -> OpV {
        match self {
            Op::Put(k, v) => OpV::Put(k@, v@),
            Op::Delete(k) => OpV::Delete(k@),
            Op::CreateObject { oid, lid, rid, pgen } => OpV::CreateObject {
                oid: oid@,
                lid: *lid,
                rid: *rid,
                pgen: *pgen,
            },
            Op::PutObject(r, k, v) => OpV::PutObject(*r, k@, v@),
            Op::DeleteObject(r, k) => OpV::DeleteObject(*r, k@),
        }
    }
}

/// Operations as values.
pub open spec fn ops_view(s: Seq<Op>) -> Seq<OpV> {
    s.map_values(|o: Op| o@)
}

/// The key of an operation; a creation has none.
pub open spec fn op_key(o: OpV) -> Seq<u8> {
    match o {
        OpV::Put(k, _) => k,
        OpV::Delete(k) => k,
        OpV::PutObject(_, k, _) => k,
        OpV::DeleteObject(_, k) => k,
        OpV::CreateObject { .. } => seq![],
    }
}

impl Op {
    pub fn key(&self) -> (r: &[u8])
        ensures
            r@ == op_key(self@),
    {
        match self {
            Op::Put(k, _) => k.as_slice(),
            Op::Delete(k) => k.as_slice(),
            Op::PutObject(_, k, _) => k.as_slice(),
            Op::DeleteObject(_, k) => k.as_slice(),
            Op::CreateObject { oid, .. } => {
                let s: &[u8] = oid.0.as_slice();
                let empty = &s[0..0];
                assert(empty@ =~= seq![]);
                empty
            },
        }
    }
}

#[derive(Debug, Clone, PartialEq, Eq)]
pub struct WalFrame {
    pub seq: u64,
    pub ops: Vec<Op>,
}

/// A frame as a value.
#[verifier::ext_equal]
pub struct WalFrameV {
    pub seq: u64,
    pub ops: Seq<OpV>,
}

impl View for WalFrame {
    type V = WalFrameV;

    open spec fn view(&self) -> WalFrameV {
        WalFrameV { seq: self.seq, ops: ops_view(self.ops@) }
    }
}

/// Frames as values.
pub open spec fn frames_view(s: Seq<WalFrame>) -> Seq<WalFrameV> {
    s.map_values(|f: WalFrame| f@)
}

// ---------------------------------------------------------------------------
// Encoding
pub open spec fn op_bytes(o: OpV) -> Seq<u8> {
    match o {
        OpV::Put(k, v) => seq![OP_PUT] + le((k.len() as u32) as nat, 4) + k + le(
            (v.len() as u32) as nat,
            4,
        ) + v,
        OpV::Delete(k) => seq![OP_DELETE] + le((k.len() as u32) as nat, 4) + k,
        OpV::CreateObject { oid, lid, rid, pgen } => seq![OP_CREATE_OBJECT] + oid + le(
            lid.0 as nat,
            8,
        ) + le(rid.0 as nat, 8) + le(pgen as nat, 8),
        OpV::PutObject(r, k, v) => seq![OP_PUT_OBJECT] + le(r.0 as nat, 8) + le(
            (k.len() as u32) as nat,
            4,
        ) + k + le((v.len() as u32) as nat, 4) + v,
        OpV::DeleteObject(r, k) => seq![OP_DELETE_OBJECT] + le(r.0 as nat, 8) + le(
            (k.len() as u32) as nat,
            4,
        ) + k,
    }
}

pub open spec fn payload_bytes(ops: Seq<OpV>) -> Seq<u8> {
    le((ops.len() as u32) as nat, 4) + enc_all(ops, |o: OpV| op_bytes(o))
}

pub open spec fn frame_body(f: WalFrameV) -> Seq<u8> {
    let payload = payload_bytes(f.ops);
    WAL_MAGIC@ + le(WAL_FORMAT_VERSION as nat, 2) + seq![FRAME_BATCH] + le(f.seq as nat, 8) + le(
        (payload.len() as u32) as nat,
        4,
    ) + payload
}

/// The encoded frame.
pub open spec fn frame_bytes(f: WalFrameV) -> Seq<u8> {
    frame_body(f) + ck8(frame_body(f))
}

fn push_op(out: &mut Vec<u8>, op: &Op)
    ensures
        final(out)@ == old(out)@ + op_bytes(op@),
{
    match op {
        Op::Put(k, v) => {
            out.push(OP_PUT);
            push_u32(out, k.len() as u32);
            push_bytes(out, k.as_slice());
            push_u32(out, v.len() as u32);
            push_bytes(out, v.as_slice());
        },
        Op::Delete(k) => {
            out.push(OP_DELETE);
            push_u32(out, k.len() as u32);
            push_bytes(out, k.as_slice());
        },
        Op::CreateObject { oid, lid, rid, pgen } => {
            out.push(OP_CREATE_OBJECT);
            push_bytes(out, oid.0.as_slice());
            push_u64(out, lid.0);
            push_u64(out, rid.0);
            push_u64(out, *pgen);
        },
        Op::PutObject(r, k, v) => {
            out.push(OP_PUT_OBJECT);
            push_u64(out, r.0);
            push_u32(out, k.len() as u32);
            push_bytes(out, k.as_slice());
            push_u32(out, v.len() as u32);
            push_bytes(out, v.as_slice());
        },
        Op::DeleteObject(r, k) => {
            out.push(OP_DELETE_OBJECT);
            push_u64(out, r.0);
            push_u32(out, k.len() as u32);
            push_bytes(out, k.as_slice());
        },
    }
    assert(out@ =~= old(out)@ + op_bytes(op@));
}

pub fn encode_frame(seq: u64, ops: &[Op]) -> (r: Result<Vec<u8>, FormatError>)
    ensures
        rv(r) == (if ops@.len() == 0 {
            Err(ErrV::Invalid("WAL frame with no ops"@))
        } else {
            Ok(frame_bytes(WalFrameV { seq, ops: ops_view(ops@) }))
        }),
{
    if ops.len() == 0 {
        return Err(invalid("WAL frame with no ops"));
    }
    let ghost all = ops_view(ops@);
    let ghost f = |o: OpV| op_bytes(o);
    let mut payload: Vec<u8> = Vec::new();
    push_u32(&mut payload, ops.len() as u32);
    let ghost head = payload@;
    assert(head =~= le((all.len() as u32) as nat, 4));
    let mut i: usize = 0;
    assert(payload@ =~= head + enc_all(all.take(0), f));
    while i < ops.len()
        invariant
            i <= ops@.len(),
            all == ops_view(ops@),
            f == (|o: OpV| op_bytes(o)),
            payload@ == head + enc_all(all.take(i as int), f),
        decreases ops@.len() - i,
    {
        push_op(&mut payload, &ops[i]);
        i += 1;
        assert(all.take(i as int).drop_last() =~= all.take(i - 1));
        assert(payload@ =~= head + enc_all(all.take(i as int), f));
    }
    assert(all.take(i as int) =~= all);
    assert(payload@ == payload_bytes(all));
    let mut frame: Vec<u8> = Vec::new();
    push_bytes(&mut frame, WAL_MAGIC.as_slice());
    push_u16(&mut frame, WAL_FORMAT_VERSION);
    frame.push(FRAME_BATCH);
    push_u64(&mut frame, seq);
    push_u32(&mut frame, payload.len() as u32);
    push_bytes(&mut frame, payload.as_slice());
    assert(frame@ =~= frame_body(WalFrameV { seq, ops: all }));
    push_checksum(&mut frame);
    Ok(frame)
}

// ---------------------------------------------------------------------------
// Decoding
/// One operation read at `pos`, and the position behind it.
pub open spec fn p_op(b: Seq<u8>, pos: int) -> Result<(OpV, int), ErrV> {
    match p_u8(b, pos) {
        Err(e) => Err(e),
        Ok(op) => if op == OP_PUT {
            match p_vec(b, pos + 1) {
                Err(e) => Err(e),
                Ok(k) => {
                    let q = pos + 5 + k.len();
                    match p_vec(b, q) {
                        Err(e) => Err(e),
                        Ok(v) => Ok((OpV::Put(k, v), q + 4 + v.len())),
                    }
                },
            }
        } else if op == OP_DELETE {
            match p_vec(b, pos + 1) {
                Err(e) => Err(e),
                Ok(k) => Ok((OpV::Delete(k), pos + 5 + k.len())),
            }
        } else if op == OP_CREATE_OBJECT {
            match p_take(b, pos + 1, 16) {
                Err(e) => Err(e),
                Ok(oid) => match p_u64(b, pos + 17) {
                    Err(e) => Err(e),
                    Ok(lid) => match p_u64(b, pos + 25) {
                        Err(e) => Err(e),
                        Ok(rid) => match p_u64(b, pos + 33) {
                            Err(e) => Err(e),
                            Ok(pgen) => Ok(
                                (
                                    OpV::CreateObject {
                                        oid,
                                        lid: LogicalId(lid),
                                        rid: ReplicaId(rid),
                                        pgen,
                                    },
                                    pos + 41,
                                ),
                            ),
                        },
                    },
                },
            }
        } else if op == OP_PUT_OBJECT {
            match p_u64(b, pos + 1) {
                Err(e) => Err(e),
                Ok(rid) => match p_vec(b, pos + 9) {
                    Err(e) => Err(e),
                    Ok(k) => {
                        let q = pos + 13 + k.len();
                        match p_vec(b, q) {
                            Err(e) => Err(e),
                            Ok(v) => Ok(
                                (OpV::PutObject(ReplicaId(rid), k, v), q + 4 + v.len()),
                            ),
                        }
                    },
                },
            }
        } else if op == OP_DELETE_OBJECT {
            match p_u64(b, pos + 1) {
                Err(e) => Err(e),
                Ok(rid) => match p_vec(b, pos + 9) {
                    Err(e) => Err(e),
                    Ok(k) => Ok((OpV::DeleteObject(ReplicaId(rid), k), pos + 13 + k.len())),
                },
            }
        } else {
            Err(ErrV::Unsupported("WAL op byte "@ + dec(op as nat)))
        },
    }
}

/// `n` operations from `pos` on, and the position behind them.
pub open spec fn p_ops(b: Seq<u8>, pos: int, n: nat) -> Result<(Seq<OpV>, int), ErrV>
    decreases n,
{
    if n == 0 {
        Ok((seq![], pos))
    } else {
        match p_ops(b, pos, (n - 1) as nat) {
            Err(e) => Err(e),
            Ok((front, p)) => match p_op(b, p) {
                Err(e) => Err(e),
                Ok((o, q)) => Ok((front.push(o), q)),
            },
        }
    }
}

/// The operations of a payload.
pub open spec fn payload_of(b: Seq<u8>) -> Result<Seq<OpV>, ErrV> {
    match p_u32(b, 0) {
        Err(e) => Err(e),
        Ok(count) => if count == 0 {
            Err(ErrV::Corrupt("WAL frame with zero entries"@))
        } else {
            match p_ops(b, 4, count as nat) {
                Err(e) => Err(e),
                Ok((ops, end)) => if end != b.len() {
                    Err(ErrV::Corrupt("WAL payload trailing bytes"@))
                } else {
                    Ok(ops)
                },
            }
        },
    }
}

/// The frame that `b` begins with, and its length.
#[verifier::opaque]
pub open spec fn frame_of(b: Seq<u8>) -> Result<(WalFrameV, nat), ErrV> {
    match p_take(b, 0, 4) {
        Err(e) => Err(e),
        Ok(magic) => if magic != WAL_MAGIC@ {
            Err(ErrV::Corrupt("WAL frame bad magic"@))
        } else {
            match p_u16(b, 4) {
                Err(e) => Err(e),
                Ok(version) => match p_u8(b, 6) {
                    Err(e) => Err(e),
                    Ok(kind) => frame_rest(b, version, kind),
                },
            }
        },
    }
}

/// What follows the frame type. The checksum covers the bytes that the length
/// names; behind it the version and the type are judged.
pub open spec fn frame_rest(b: Seq<u8>, version: u16, kind: u8) -> Result<(WalFrameV, nat), ErrV> {
    match p_u64(b, 7) {
        Err(e) => Err(e),
        Ok(seq) => match p_u32(b, 15) {
            Err(e) => Err(e),
            Ok(n) => match p_take(b, 19, n as int) {
                Err(e) => Err(e),
                Ok(payload) => match p_take(b, 19 + n, 8) {
                    Err(e) => Err(e),
                    Ok(stored) => if ck8(b.take(19 + n)) != stored {
                        Err(ErrV::Corrupt("WAL frame checksum mismatch"@))
                    } else if version != WAL_FORMAT_VERSION {
                        Err(
                            ErrV::Unsupported(
                                "WAL frame format version "@ + dec(version as nat)
                                    + " (this build: 1)"@,
                            ),
                        )
                    } else if kind != FRAME_BATCH {
                        Err(
                            ErrV::Unsupported(
                                "WAL frame type "@ + dec(kind as nat) + " (this build: 1)"@,
                            ),
                        )
                    } else {
                        match payload_of(payload) {
                            Err(e) => Err(e),
                            Ok(ops) => Ok((WalFrameV { seq, ops }, (27 + n) as nat)),
                        }
                    },
                },
            },
        },
    }
}

/// A frame lies within the bytes and is never empty.
pub proof fn lemma_frame_len(b: Seq<u8>)
    ensures
        frame_of(b) matches Ok((f, n)) ==> 27 <= n <= b.len(),
{
    reveal(frame_of);
}

fn read_op(cur: &mut Cursor<'_>) -> (r: Result<Op, FormatError>)
    requires
        old(cur).wf(),
    ensures
        final(cur).wf(),
        final(cur).bytes == old(cur).bytes,
        match (r, p_op(old(cur).bytes@, old(cur).pos as int)) {
            (Ok(v), Ok((o, q))) => v@ == o && final(cur).pos == q,
            (Err(e), Err(f)) => e@ == f,
            _ => false,
        },
{
    let op = cur.u8()?;
    if op == OP_PUT {
        let key = cur.vec()?;
        let value = cur.vec()?;
        Ok(Op::Put(key, value))
    } else if op == OP_DELETE {
        let key = cur.vec()?;
        Ok(Op::Delete(key))
    } else if op == OP_CREATE_OBJECT {
        let raw = cur.take(16)?;
        let oid = ObjectId::from_bytes(array16(raw));
        let lid = cur.u64()?;
        let rid = cur.u64()?;
        let pgen = cur.u64()?;
        Ok(Op::CreateObject { oid, lid: LogicalId(lid), rid: ReplicaId(rid), pgen })
    } else if op == OP_PUT_OBJECT {
        let rid = cur.u64()?;
        let key = cur.vec()?;
        let value = cur.vec()?;
        Ok(Op::PutObject(ReplicaId(rid), key, value))
    } else if op == OP_DELETE_OBJECT {
        let rid = cur.u64()?;
        let key = cur.vec()?;
        Ok(Op::DeleteObject(ReplicaId(rid), key))
    } else {
        Err(FormatError::Unsupported(Text::new("WAL op byte ").num(op as u64).done()))
    }
}

proof fn lemma_p_ops_err(b: Seq<u8>, pos: int, i: nat, n: nat)
    requires
        i <= n,
        p_ops(b, pos, i) is Err,
    ensures
        p_ops(b, pos, n) == p_ops(b, pos, i),
    decreases n,
{
    if i < n {
        lemma_p_ops_err(b, pos, i, (n - 1) as nat);
    }
}

fn decode_payload(payload: &[u8]) -> (r: Result<Vec<Op>, FormatError>)
    ensures
        match r {
            Ok(ops) => payload_of(payload@) == Ok::<Seq<OpV>, ErrV>(ops_view(ops@)),
            Err(e) => payload_of(payload@) == Err::<Seq<OpV>, ErrV>(e@),
        },
{
    let mut cur = Cursor::new(payload);
    let count = cur.u32()?;
    if count == 0 {
        return Err(corrupt("WAL frame with zero entries"));
    }
    let mut ops: Vec<Op> = Vec::new();
    let mut i: u32 = 0;
    assert(ops_view(ops@) =~= seq![]);
    while i < count
        invariant
            i <= count,
            0 < count,
            cur.wf(),
            cur.bytes == payload,
            p_u32(payload@, 0) == Ok::<u32, ErrV>(count),
            p_ops(payload@, 4, i as nat) == Ok::<(Seq<OpV>, int), ErrV>(
                (ops_view(ops@), cur.pos as int),
            ),
        decreases count - i,
    {
        let op = match read_op(&mut cur) {
            Ok(o) => o,
            Err(e) => {
                proof {
                    lemma_p_ops_err(payload@, 4, (i + 1) as nat, count as nat);
                }
                return Err(e);
            },
        };
        let ghost before = ops@;
        ops.push(op);
        assert(ops_view(ops@) =~= ops_view(before).push(op@));
        i += 1;
    }
    if !cur.is_empty() {
        return Err(corrupt("WAL payload trailing bytes"));
    }
    Ok(ops)
}

/// Decodes one frame from the front of `bytes`, and gives its length. Bytes
/// behind the frame are no error here: [`replay_frames`] judges the stream.
pub fn decode_frame(bytes: &[u8]) -> (r: Result<(WalFrame, usize), FormatError>)
    ensures
        match (r, frame_of(bytes@)) {
            (Ok((f, n)), Ok((v, m))) => f@ == v && n == m,
            (Err(e), Err(g)) => e@ == g,
            _ => false,
        },
{
    proof {
        reveal(frame_of);
    }
    let mut cur = Cursor::new(bytes);
    let magic = cur.take(4)?;
    if !bytes_eq(magic, WAL_MAGIC.as_slice()) {
        return Err(corrupt("WAL frame bad magic"));
    }
    let version = cur.u16()?;
    let frame_type = cur.u8()?;
    let seq = cur.u64()?;
    let payload_len = cur.u32()? as usize;
    let payload = cur.take(payload_len)?;
    let stored = cur.take(8)?;
    let total: usize = cur.pos();
    assert(total == 27 + payload_len);
    if !checksum_matches(bytes, total - 8, stored) {
        return Err(corrupt("WAL frame checksum mismatch"));
    }
    if version != WAL_FORMAT_VERSION {
        return Err(
            FormatError::Unsupported(
                Text::new("WAL frame format version ").num(version as u64).lit(
                    " (this build: 1)",
                ).done(),
            ),
        );
    }
    if frame_type != FRAME_BATCH {
        return Err(
            FormatError::Unsupported(
                Text::new("WAL frame type ").num(frame_type as u64).lit(" (this build: 1)").done(),
            ),
        );
    }
    let ops = decode_payload(payload)?;
    Ok((WalFrame { seq, ops }, total))
}

// ---------------------------------------------------------------------------
// Diagnostics
/// A byte string as diagnostics show it.
pub open spec fn bytes_debug_tail(s: Seq<u8>) -> Seq<char>
    decreases s.len(),
{
    if s.len() == 0 {
        "["@
    } else if s.len() == 1 {
        bytes_debug_tail(s.drop_last()) + dec(s.last() as nat)
    } else {
        bytes_debug_tail(s.drop_last()) + ", "@ + dec(s.last() as nat)
    }
}

pub open spec fn bytes_debug(s: Seq<u8>) -> Seq<char> {
    bytes_debug_tail(s) + "]"@
}

pub open spec fn op_debug(o: OpV) -> Seq<char> {
    match o {
        OpV::Put(k, v) => "Put("@ + bytes_debug(k) + ", "@ + bytes_debug(v) + ")"@,
        OpV::Delete(k) => "Delete("@ + bytes_debug(k) + ")"@,
        OpV::CreateObject { oid, lid, rid, pgen } => "CreateObject { oid: ObjectId("@ + hex(oid)
            + "), lid: LogicalId("@ + dec(lid.0 as nat) + "), rid: ReplicaId("@ + dec(rid.0 as nat)
            + "), pgen: "@ + dec(pgen as nat) + " }"@,
        OpV::PutObject(r, k, v) => "PutObject(ReplicaId("@ + dec(r.0 as nat) + "), "@ + bytes_debug(
            k,
        ) + ", "@ + bytes_debug(v) + ")"@,
        OpV::DeleteObject(r, k) => "DeleteObject(ReplicaId("@ + dec(r.0 as nat) + "), "@
            + bytes_debug(k) + ")"@,
    }
}

pub open spec fn ops_debug_tail(s: Seq<OpV>) -> Seq<char>
    decreases s.len(),
{
    if s.len() == 0 {
        ""@
    } else if s.len() == 1 {
        ops_debug_tail(s.drop_last()) + op_debug(s.last())
    } else {
        ops_debug_tail(s.drop_last()) + ", "@ + op_debug(s.last())
    }
}

pub open spec fn frame_debug(f: WalFrameV) -> Seq<char> {
    "WalFrame { seq: "@ + dec(f.seq as nat) + ", ops: ["@ + ops_debug_tail(f.ops) + "] }"@
}

fn show_bytes(s: &Vec<u8>) -> (r: String)
    ensures
        r@ == bytes_debug(s@),
{
    let mut t = Text::new("[");
    let mut i: usize = 0;
    while i < s.len()
        invariant
            i <= s@.len(),
            t@ == bytes_debug_tail(s@.take(i as int)),
        decreases s@.len() - i,
    {
        assert(s@.take(i + 1).drop_last() =~= s@.take(i as int));
        if i > 0 {
            t = t.lit(", ");
        }
        t = t.num(s[i] as u64);
        i += 1;
    }
    assert(s@.take(i as int) =~= s@);
    t.lit("]").done()
}

fn show_op(op: &Op) -> (r: String)
    ensures
        r@ == op_debug(op@),
{
    match op {
        Op::Put(k, v) => {
            let a = show_bytes(k);
            let b = show_bytes(v);
            Text::new("Put(").lit(a.as_str()).lit(", ").lit(b.as_str()).lit(")").done()
        },
        Op::Delete(k) => {
            let a = show_bytes(k);
            Text::new("Delete(").lit(a.as_str()).lit(")").done()
        },
        Op::CreateObject { oid, lid, rid, pgen } => Text::new("CreateObject { oid: ObjectId(").hex(
            oid.0.as_slice(),
        ).lit("), lid: LogicalId(").num(lid.0).lit("), rid: ReplicaId(").num(rid.0).lit(
            "), pgen: ",
        ).num(*pgen).lit(" }").done(),
        Op::PutObject(r, k, v) => {
            let a = show_bytes(k);
            let b = show_bytes(v);
            Text::new("PutObject(ReplicaId(").num(r.0).lit("), ").lit(a.as_str()).lit(", ").lit(
                b.as_str(),
            ).lit(")").done()
        },
        Op::DeleteObject(r, k) => {
            let a = show_bytes(k);
            Text::new("DeleteObject(ReplicaId(").num(r.0).lit("), ").lit(a.as_str()).lit(")").done()
        },
    }
}

fn show_frame(f: &WalFrame) -> (r: String)
    ensures
        r@ == frame_debug(f@),
{
    let ghost all = ops_view(f.ops@);
    let mut t = Text::new("");
    let mut i: usize = 0;
    while i < f.ops.len()
        invariant
            i <= f.ops@.len(),
            all == ops_view(f.ops@),
            t@ == ops_debug_tail(all.take(i as int)),
        decreases f.ops@.len() - i,
    {
        assert(all.take(i + 1).drop_last() =~= all.take(i as int));
        if i > 0 {
            t = t.lit(", ");
        }
        let o = show_op(&f.ops[i]);
        t = t.lit(o.as_str());
        i += 1;
    }
    assert(all.take(i as int) =~= all);
    let list = t.done();
    Text::new("WalFrame { seq: ").num(f.seq).lit(", ops: [").lit(list.as_str()).lit("] }").done()
}

// ---------------------------------------------------------------------------
// Replay
/// A valid frame starts somewhere from `from` on.
pub open spec fn frame_from(b: Seq<u8>, from: int) -> bool {
    exists|p: int| from <= p < b.len() && frame_of(#[trigger] b.skip(p)) is Ok
}

/// The frames from `pos` on, behind one of sequence `last`, and where the
/// valid prefix ends.
pub open spec fn replay_of(b: Seq<u8>, pos: int, last: Option<u64>) -> Result<
    (Seq<WalFrameV>, int),
    ErrV,
>
    decreases b.len() - pos,
{
    if pos < 0 || pos >= b.len() {
        Ok((seq![], pos))
    } else {
        match frame_of(b.skip(pos)) {
            Ok((f, n)) => if last is Some && f.seq <= last->0 {
                Err(
                    ErrV::Corrupt(
                        "WAL sequence must increase: "@ + frame_debug(f) + " after "@ + dec(
                            last->0 as nat,
                        ),
                    ),
                )
            } else {
                proof {
                    lemma_frame_len(b.skip(pos));
                }
                match replay_of(b, pos + n, Some(f.seq)) {
                    Err(e) => Err(e),
                    Ok((fs, end)) => Ok((seq![f] + fs, end)),
                }
            },
            Err(_) => if frame_from(b, pos + 1) {
                Err(
                    ErrV::Corrupt(
                        "WAL damage at offset "@ + dec(pos as nat) + " with valid frames after"@,
                    ),
                )
            } else {
                Ok((seq![], pos))
            },
        }
    }
}

/// Walks the frames from the start. Returns the valid prefix and the byte
/// count it covers. Sequences must strictly increase.
pub fn replay_frames(bytes: &[u8]) -> (r: Result<(Vec<WalFrame>, usize), FormatError>)
    ensures
        match (r, replay_of(bytes@, 0, None)) {
            (Ok((fs, n)), Ok((vs, end))) => frames_view(fs@) == vs && n == end && n
                <= bytes@.len(),
            (Err(e), Err(g)) => e@ == g,
            _ => false,
        },
{
    let mut frames: Vec<WalFrame> = Vec::new();
    let mut pos: usize = 0;
    let mut last: Option<u64> = None;
    let total: usize = bytes.len();
    while pos < total
        invariant
            pos <= total,
            total == bytes@.len(),
            replay_of(bytes@, 0, None) == (match replay_of(bytes@, pos as int, last) {
                Err(e) => Err(e),
                Ok((fs, end)) => Ok((frames_view(frames@) + fs, end)),
            }),
        decreases total - pos,
    {
        let rest = &bytes[pos..total];
        assert(rest@ =~= bytes@.skip(pos as int));
        proof {
            lemma_frame_len(rest@);
        }
        match decode_frame(rest) {
            Ok((frame, n)) => {
                if let Some(prev) = last {
                    if frame.seq <= prev {
                        let shown = show_frame(&frame);
                        return Err(
                            FormatError::Corrupt(
                                Text::new("WAL sequence must increase: ").lit(shown.as_str()).lit(
                                    " after ",
                                ).num(prev).done(),
                            ),
                        );
                    }
                }
                let ghost before = frames@;
                last = Some(frame.seq);
                frames.push(frame);
                proof {
                    assert(frames_view(frames@) =~= frames_view(before).push(frame@));
                    if let Ok((fs, end)) = replay_of(bytes@, pos + n, last) {
                        assert(frames_view(before) + (seq![frame@] + fs) =~= frames_view(frames@)
                            + fs);
                    }
                }
                pos = pos + n;
            },
            Err(_) => {
                let mut probe: usize = pos + 1;
                while probe < total
                    invariant
                        pos < probe <= total,
                        total == bytes@.len(),
                        forall|p: int|
                            pos < p < probe ==> !(frame_of(#[trigger] bytes@.skip(p)) is Ok),
                        frame_of(bytes@.skip(pos as int)) is Err,
                        replay_of(bytes@, 0, None) == (match replay_of(bytes@, pos as int, last) {
                            Err(e) => Err(e),
                            Ok((fs, end)) => Ok((frames_view(frames@) + fs, end)),
                        }),
                    decreases total - probe,
                {
                    let tail = &bytes[probe..total];
                    assert(tail@ =~= bytes@.skip(probe as int));
                    if decode_frame(tail).is_ok() {
                        return Err(
                            FormatError::Corrupt(
                                Text::new("WAL damage at offset ").num(pos as u64).lit(
                                    " with valid frames after",
                                ).done(),
                            ),
                        );
                    }
                    probe += 1;
                }
                assert(frames_view(frames@) + seq![] =~= frames_view(frames@));
                return Ok((frames, pos));
            },
        }
    }
    assert(frames_view(frames@) + seq![] =~= frames_view(frames@));
    Ok((frames, pos))
}

// ---------------------------------------------------------------------------
// Laws
/// An operation whose lengths fit their fields.
pub open spec fn op_fits(o: OpV) -> bool {
    match o {
        OpV::Put(k, v) => k.len() <= u32::MAX && v.len() <= u32::MAX,
        OpV::Delete(k) => k.len() <= u32::MAX,
        OpV::CreateObject { oid, .. } => oid.len() == 16,
        OpV::PutObject(_, k, v) => k.len() <= u32::MAX && v.len() <= u32::MAX,
        OpV::DeleteObject(_, k) => k.len() <= u32::MAX,
    }
}

/// A frame that can be written: at least one operation, and every length
/// within its field.
pub open spec fn frame_fits(f: WalFrameV) -> bool {
    &&& 0 < f.ops.len() <= u32::MAX
    &&& payload_bytes(f.ops).len() <= u32::MAX
    &&& forall|i: int| 0 <= i < f.ops.len() ==> op_fits(#[trigger] f.ops[i])
}

proof fn lemma_p_put(b: Seq<u8>, pos: int, o: OpV)
    requires
        o is Put,
        op_fits(o),
        has_at(b, pos, op_bytes(o)),
    ensures
        p_op(b, pos) == Ok::<(OpV, int), ErrV>((o, pos + op_bytes(o).len())),
{
    if let OpV::Put(k, v) = o {
        let w1 = seq![OP_PUT];
        let w2 = w1 + le((k.len() as u32) as nat, 4);
        let w3 = w2 + k;
        let w4 = w3 + le((v.len() as u32) as nat, 4);
        lemma_le_len((k.len() as u32) as nat, 4);
        lemma_le_len((v.len() as u32) as nat, 4);
        lemma_has_split(b, pos, w4, v);
        lemma_has_split(b, pos, w3, le((v.len() as u32) as nat, 4));
        lemma_has_split(b, pos, w2, k);
        lemma_has_split(b, pos, w1, le((k.len() as u32) as nat, 4));
        lemma_p_u8(b, pos, OP_PUT);
        lemma_p_vec(b, pos + 1, k);
        lemma_p_vec(b, pos + 5 + k.len(), v);
    }
}

proof fn lemma_p_delete(b: Seq<u8>, pos: int, o: OpV)
    requires
        o is Delete,
        op_fits(o),
        has_at(b, pos, op_bytes(o)),
    ensures
        p_op(b, pos) == Ok::<(OpV, int), ErrV>((o, pos + op_bytes(o).len())),
{
    if let OpV::Delete(k) = o {
        let w1 = seq![OP_DELETE];
        let w2 = w1 + le((k.len() as u32) as nat, 4);
        lemma_le_len((k.len() as u32) as nat, 4);
        lemma_has_split(b, pos, w2, k);
        lemma_has_split(b, pos, w1, le((k.len() as u32) as nat, 4));
        lemma_p_u8(b, pos, OP_DELETE);
        lemma_p_vec(b, pos + 1, k);
    }
}

proof fn lemma_p_put_object(b: Seq<u8>, pos: int, o: OpV)
    requires
        o is PutObject,
        op_fits(o),
        has_at(b, pos, op_bytes(o)),
    ensures
        p_op(b, pos) == Ok::<(OpV, int), ErrV>((o, pos + op_bytes(o).len())),
{
    if let OpV::PutObject(r, k, v) = o {
        let w0 = seq![OP_PUT_OBJECT];
        let w1 = w0 + le(r.0 as nat, 8);
        let w2 = w1 + le((k.len() as u32) as nat, 4);
        let w3 = w2 + k;
        let w4 = w3 + le((v.len() as u32) as nat, 4);
        lemma_le_len(r.0 as nat, 8);
        lemma_le_len((k.len() as u32) as nat, 4);
        lemma_le_len((v.len() as u32) as nat, 4);
        lemma_has_split(b, pos, w4, v);
        lemma_has_split(b, pos, w3, le((v.len() as u32) as nat, 4));
        lemma_has_split(b, pos, w2, k);
        lemma_has_split(b, pos, w1, le((k.len() as u32) as nat, 4));
        lemma_has_split(b, pos, w0, le(r.0 as nat, 8));
        lemma_p_u8(b, pos, OP_PUT_OBJECT);
        lemma_p_u64(b, pos + 1, r.0);
        lemma_p_vec(b, pos + 9, k);
        lemma_p_vec(b, pos + 13 + k.len(), v);
    }
}

proof fn lemma_p_delete_object(b: Seq<u8>, pos: int, o: OpV)
    requires
        o is DeleteObject,
        op_fits(o),
        has_at(b, pos, op_bytes(o)),
    ensures
        p_op(b, pos) == Ok::<(OpV, int), ErrV>((o, pos + op_bytes(o).len())),
{
    if let OpV::DeleteObject(r, k) = o {
        let w0 = seq![OP_DELETE_OBJECT];
        let w1 = w0 + le(r.0 as nat, 8);
        let w2 = w1 + le((k.len() as u32) as nat, 4);
        lemma_le_len(r.0 as nat, 8);
        lemma_le_len((k.len() as u32) as nat, 4);
        lemma_has_split(b, pos, w2, k);
        lemma_has_split(b, pos, w1, le((k.len() as u32) as nat, 4));
        lemma_has_split(b, pos, w0, le(r.0 as nat, 8));
        lemma_p_u8(b, pos, OP_DELETE_OBJECT);
        lemma_p_u64(b, pos + 1, r.0);
        lemma_p_vec(b, pos + 9, k);
    }
}

proof fn lemma_p_create_object(b: Seq<u8>, pos: int, o: OpV)
    requires
        o is CreateObject,
        op_fits(o),
        has_at(b, pos, op_bytes(o)),
    ensures
        p_op(b, pos) == Ok::<(OpV, int), ErrV>((o, pos + op_bytes(o).len())),
{
    if let OpV::CreateObject { oid, lid, rid, pgen } = o {
        let w1 = seq![OP_CREATE_OBJECT];
        let w2 = w1 + oid;
        let w3 = w2 + le(lid.0 as nat, 8);
        let w4 = w3 + le(rid.0 as nat, 8);
        lemma_le_len(lid.0 as nat, 8);
        lemma_le_len(rid.0 as nat, 8);
        lemma_le_len(pgen as nat, 8);
        lemma_has_split(b, pos, w4, le(pgen as nat, 8));
        lemma_has_split(b, pos, w3, le(rid.0 as nat, 8));
        lemma_has_split(b, pos, w2, le(lid.0 as nat, 8));
        lemma_has_split(b, pos, w1, oid);
        lemma_has_is(b, pos + 1, oid);
        lemma_p_u8(b, pos, OP_CREATE_OBJECT);
        lemma_p_u64(b, pos + 17, lid.0);
        lemma_p_u64(b, pos + 25, rid.0);
        lemma_p_u64(b, pos + 33, pgen);
    }
}

proof fn lemma_p_op(b: Seq<u8>, pos: int, o: OpV)
    requires
        op_fits(o),
        has_at(b, pos, op_bytes(o)),
    ensures
        p_op(b, pos) == Ok::<(OpV, int), ErrV>((o, pos + op_bytes(o).len())),
{
    match o {
        OpV::Put(..) => {
            lemma_p_put(b, pos, o);
        },
        OpV::Delete(..) => {
            lemma_p_delete(b, pos, o);
        },
        OpV::PutObject(..) => {
            lemma_p_put_object(b, pos, o);
        },
        OpV::DeleteObject(..) => {
            lemma_p_delete_object(b, pos, o);
        },
        OpV::CreateObject { .. } => {
            lemma_p_create_object(b, pos, o);
        },
    }
}

proof fn lemma_p_ops(b: Seq<u8>, pos: int, ops: Seq<OpV>)
    requires
        forall|i: int| 0 <= i < ops.len() ==> op_fits(#[trigger] ops[i]),
        has_at(b, pos, enc_all(ops, |o: OpV| op_bytes(o))),
    ensures
        p_ops(b, pos, ops.len()) == Ok::<(Seq<OpV>, int), ErrV>(
            (ops, pos + enc_all(ops, |o: OpV| op_bytes(o)).len()),
        ),
    decreases ops.len(),
{
    let f = |o: OpV| op_bytes(o);
    if ops.len() > 0 {
        let front = ops.drop_last();
        lemma_has_split(b, pos, enc_all(front, f), f(ops.last()));
        lemma_p_ops(b, pos, front);
        lemma_p_op(b, pos + enc_all(front, f).len(), ops.last());
        assert(front.push(ops.last()) =~= ops);
    } else {
        assert(ops =~= seq![]);
    }
}

/// A written frame reads back as itself, whatever follows it.
pub proof fn frame_round_trip(f: WalFrameV, rest: Seq<u8>)
    requires
        frame_fits(f),
    ensures
        frame_of(frame_bytes(f) + rest) == Ok::<(WalFrameV, nat), ErrV>((f, frame_bytes(f).len())),
        frame_bytes(f).len() >= 27,
{
    reveal(frame_of);
    let b = frame_bytes(f) + rest;
    let body = frame_body(f);
    let payload = payload_bytes(f.ops);
    let n = payload.len();
    let w1 = WAL_MAGIC@;
    let w2 = w1 + le(WAL_FORMAT_VERSION as nat, 2);
    let w3 = w2 + seq![FRAME_BATCH];
    let w4 = w3 + le(f.seq as nat, 8);
    let w5 = w4 + le((n as u32) as nat, 4);
    lemma_le_len(WAL_FORMAT_VERSION as nat, 2);
    lemma_le_len(f.seq as nat, 8);
    lemma_le_len((n as u32) as nat, 4);
    lemma_has_all(b);
    lemma_has_split(b, 0, frame_bytes(f), rest);
    lemma_has_split(b, 0, body, ck8(body));
    lemma_has_split(b, 0, w5, payload);
    lemma_has_split(b, 0, w4, le((n as u32) as nat, 4));
    lemma_has_split(b, 0, w3, le(f.seq as nat, 8));
    lemma_has_split(b, 0, w2, seq![FRAME_BATCH]);
    lemma_has_split(b, 0, w1, le(WAL_FORMAT_VERSION as nat, 2));
    lemma_has_is(b, 0, w1);
    lemma_has_is(b, 19, payload);
    lemma_has_is(b, 19 + n as int, ck8(body));
    lemma_p_u16(b, 4, WAL_FORMAT_VERSION);
    lemma_p_u8(b, 6, FRAME_BATCH);
    lemma_p_u64(b, 7, f.seq);
    lemma_p_u32(b, 15, n as u32);
    assert(b.take(19 + n as int) =~= body);
    let ops = enc_all(f.ops, |o: OpV| op_bytes(o));
    lemma_has_all(payload);
    lemma_le_len((f.ops.len() as u32) as nat, 4);
    lemma_has_split(payload, 0, le((f.ops.len() as u32) as nat, 4), ops);
    lemma_p_u32(payload, 0, f.ops.len() as u32);
    lemma_p_ops(payload, 4, f.ops);
}

/// The encodings of the frames, one behind the other.
pub open spec fn stream_bytes(fs: Seq<WalFrameV>) -> Seq<u8>
    decreases fs.len(),
{
    if fs.len() == 0 {
        seq![]
    } else {
        frame_bytes(fs[0]) + stream_bytes(fs.skip(1))
    }
}

/// Frames that can be written, with strictly increasing sequences past `last`.
pub open spec fn stream_fits(fs: Seq<WalFrameV>, last: Option<u64>) -> bool
    decreases fs.len(),
{
    fs.len() > 0 ==> {
        &&& frame_fits(fs[0])
        &&& (last is Some ==> fs[0].seq > last->0)
        &&& stream_fits(fs.skip(1), Some(fs[0].seq))
    }
}

proof fn lemma_replay_stream(pre: Seq<u8>, fs: Seq<WalFrameV>, tail: Seq<u8>, last: Option<u64>)
    requires
        stream_fits(fs, last),
    ensures
        replay_of(pre + stream_bytes(fs) + tail, pre.len() as int, last) == (match replay_of(
            pre + stream_bytes(fs) + tail,
            (pre.len() + stream_bytes(fs).len()) as int,
            if fs.len() == 0 {
                last
            } else {
                Some(fs.last().seq)
            },
        ) {
            Err(e) => Err(e),
            Ok((more, end)) => Ok((fs + more, end)),
        }),
    decreases fs.len(),
{
    let b = pre + stream_bytes(fs) + tail;
    let pos = pre.len() as int;
    if fs.len() == 0 {
        if let Ok((more, end)) = replay_of(b, pos, last) {
            assert(fs + more =~= more);
        }
    } else {
        let f = fs[0];
        let rest = stream_bytes(fs.skip(1)) + tail;
        assert(b.skip(pos) =~= frame_bytes(f) + rest);
        frame_round_trip(f, rest);
        lemma_replay_stream(pre + frame_bytes(f), fs.skip(1), tail, Some(f.seq));
        assert(pre + frame_bytes(f) + stream_bytes(fs.skip(1)) + tail =~= b);
        let next = if fs.len() == 1 {
            Some(f.seq)
        } else {
            Some(fs.last().seq)
        };
        if let Ok((more, end)) = replay_of(b, pos + stream_bytes(fs).len(), next) {
            assert(seq![f] + (fs.skip(1) + more) =~= fs + more);
        }
    }
}

/// Replaying what was appended gives back every frame. A torn tail, in which
/// no valid frame starts, is left out; nothing before it is lost.
pub proof fn replay_gives_back_appends(fs: Seq<WalFrameV>, tail: Seq<u8>)
    requires
        stream_fits(fs, None),
        forall|p: int| 0 <= p < tail.len() ==> frame_of(#[trigger] tail.skip(p)) is Err,
    ensures
        replay_of(stream_bytes(fs) + tail, 0, None) == Ok::<(Seq<WalFrameV>, int), ErrV>(
            (fs, stream_bytes(fs).len() as int),
        ),
{
    let b = stream_bytes(fs) + tail;
    let at = stream_bytes(fs).len() as int;
    lemma_replay_stream(seq![], fs, tail, None);
    assert(Seq::<u8>::empty() + stream_bytes(fs) + tail =~= b);
    assert(b.skip(at) =~= tail);
    assert(tail.len() > 0 ==> tail.skip(0) =~= tail);
    assert forall|p: int| at + 1 <= p < b.len() implies frame_of(#[trigger] b.skip(p)) is Err by {
        assert(b.skip(p) =~= tail.skip(p - at));
    }
    assert(fs + Seq::<WalFrameV>::empty() =~= fs);
}

/// Bytes that do not decode, with a valid frame behind them, are damage:
/// replay fails closed and names where the damage starts.
pub proof fn replay_refuses_damage(
    fs: Seq<WalFrameV>,
    damage: Seq<u8>,
    f: WalFrameV,
    rest: Seq<u8>,
)
    requires
        stream_fits(fs, None),
        damage.len() > 0,
        frame_fits(f),
        frame_of(damage + frame_bytes(f) + rest) is Err,
    ensures
        replay_of(stream_bytes(fs) + (damage + frame_bytes(f) + rest), 0, None) == Err::<
            (Seq<WalFrameV>, int),
            ErrV,
        >(
            ErrV::Corrupt(
                "WAL damage at offset "@ + dec(stream_bytes(fs).len())
                    + " with valid frames after"@,
            ),
        ),
{
    let tail = damage + frame_bytes(f) + rest;
    let b = stream_bytes(fs) + tail;
    let at = stream_bytes(fs).len() as int;
    lemma_replay_stream(seq![], fs, tail, None);
    assert(Seq::<u8>::empty() + stream_bytes(fs) + tail =~= b);
    frame_round_trip(f, rest);
    assert(b.skip(at) =~= tail);
    assert(b.skip(at + damage.len()) =~= frame_bytes(f) + rest);
    assert(frame_from(b, at + 1));
}

} // verus!
