//! What is accepted is what was written: files and frames have one encoding,
//! and one that was cut short or lengthened is damage.

use crate::checkpoint::{checkpoint_of, CHECKPOINT_MAGIC};
use crate::codec::{le, lemma_le_len, lemma_le_un_le, lemma_pow256, un_le};
use crate::format::{
    ck8, has_at, ids_bytes, lemma_has_is, manifest_body, manifest_bytes, manifest_fits, manifest_of,
    p_record, p_records, p_take, p_u16, p_u32, p_u64, p_u8, p_vec, record_bytes, record_fits,
    records_bytes, ErrV, FORMAT_VERSION, MANIFEST_MAGIC,
};
use crate::identity::directory::{
    identity_at, identity_bytes, identity_log_bytes, identity_log_of, identity_table, oids_fit,
    replica_at, replica_bytes, replica_log_bytes, replica_log_of, replica_table, IdentityRecordV,
    ReplicaRecord, IDENTITY_MAGIC, REPLICA_MAGIC,
};
use crate::placement::directory::{placement_log_of, placements_at, PLACEMENT_MAGIC};
use crate::table::{enc_all, file_head, p_count, p_file_end, p_file_head};
use crate::wal::{
    frame_body, frame_bytes, frame_fits, frame_from, frame_of, lemma_frame_len, op_bytes, op_fits,
    p_op, p_ops, payload_bytes, payload_of, replay_of, stream_bytes, stream_fits, OpV, FRAME_BATCH,
    OP_CREATE_OBJECT, OP_DELETE, OP_DELETE_OBJECT, OP_PUT, OP_PUT_OBJECT, WAL_FORMAT_VERSION,
    WAL_MAGIC,
};
use vstd::prelude::*;

verus! {

// ---------------------------------------------------------------------------
// Fields
proof fn lemma_has_join(b: Seq<u8>, pos: int, s: Seq<u8>, t: Seq<u8>)
    requires
        has_at(b, pos, s),
        has_at(b, pos + s.len(), t),
    ensures
        has_at(b, pos, s + t),
{
    reveal(has_at);
    assert(b.subrange(pos, pos + (s + t).len()) =~= s + t) by {
        let x = b.subrange(pos, pos + s.len());
        let y = b.subrange(pos + s.len(), pos + s.len() + t.len());
        assert(b.subrange(pos, pos + (s + t).len()) =~= x + y);
    }
}

proof fn lemma_has_nothing(b: Seq<u8>, pos: int)
    requires
        0 <= pos <= b.len(),
    ensures
        has_at(b, pos, seq![]),
{
    reveal(has_at);
    assert(b.subrange(pos, pos) =~= seq![]);
}

proof fn lemma_took(b: Seq<u8>, pos: int, n: int)
    requires
        0 <= pos,
        0 <= n,
        p_take(b, pos, n) is Ok,
    ensures
        has_at(b, pos, p_take(b, pos, n)->Ok_0),
        p_take(b, pos, n)->Ok_0.len() == n,
        pos + n <= b.len(),
{
    reveal(has_at);
}

proof fn lemma_was_u8(b: Seq<u8>, pos: int)
    requires
        0 <= pos,
        p_u8(b, pos) is Ok,
    ensures
        has_at(b, pos, seq![p_u8(b, pos)->Ok_0]),
{
    lemma_took(b, pos, 1);
    assert(p_take(b, pos, 1)->Ok_0 =~= seq![p_u8(b, pos)->Ok_0]);
}

proof fn lemma_was_u16(b: Seq<u8>, pos: int)
    requires
        0 <= pos,
        p_u16(b, pos) is Ok,
    ensures
        has_at(b, pos, le(p_u16(b, pos)->Ok_0 as nat, 2)),
{
    lemma_took(b, pos, 2);
    lemma_le_un_le(p_take(b, pos, 2)->Ok_0);
    lemma_pow256();
}

proof fn lemma_was_u32(b: Seq<u8>, pos: int)
    requires
        0 <= pos,
        p_u32(b, pos) is Ok,
    ensures
        has_at(b, pos, le(p_u32(b, pos)->Ok_0 as nat, 4)),
{
    lemma_took(b, pos, 4);
    lemma_le_un_le(p_take(b, pos, 4)->Ok_0);
    lemma_pow256();
}

proof fn lemma_was_u64(b: Seq<u8>, pos: int)
    requires
        0 <= pos,
        p_u64(b, pos) is Ok,
    ensures
        has_at(b, pos, le(p_u64(b, pos)->Ok_0 as nat, 8)),
{
    lemma_took(b, pos, 8);
    lemma_le_un_le(p_take(b, pos, 8)->Ok_0);
    lemma_pow256();
}

proof fn lemma_was_vec(b: Seq<u8>, pos: int)
    requires
        0 <= pos,
        p_vec(b, pos) is Ok,
    ensures
        ({
            let v = p_vec(b, pos)->Ok_0;
            &&& v.len() <= u32::MAX
            &&& has_at(b, pos, le((v.len() as u32) as nat, 4))
            &&& has_at(b, pos + 4, v)
        }),
{
    lemma_was_u32(b, pos);
    lemma_took(b, pos + 4, p_u32(b, pos)->Ok_0 as int);
}

// ---------------------------------------------------------------------------
// Frames
#[verifier::rlimit(40)]
proof fn lemma_was_op(b: Seq<u8>, pos: int)
    requires
        0 <= pos,
        p_op(b, pos) is Ok,
    ensures
        ({
            let (o, q) = p_op(b, pos)->Ok_0;
            &&& op_fits(o)
            &&& has_at(b, pos, op_bytes(o))
            &&& q == pos + op_bytes(o).len()
        }),
{
    let (o, q) = p_op(b, pos)->Ok_0;
    lemma_was_u8(b, pos);
    match o {
        OpV::Put(k, v) => {
            lemma_was_key_value(b, pos, seq![OP_PUT], k, v);
        },
        OpV::Delete(k) => {
            lemma_was_key(b, pos, seq![OP_DELETE], k);
        },
        OpV::CreateObject { oid, lid, rid, pgen } => {
            lemma_took(b, pos + 1, 16);
            lemma_was_u64(b, pos + 17);
            lemma_was_u64(b, pos + 25);
            lemma_was_u64(b, pos + 33);
            lemma_le_len(lid.0 as nat, 8);
            lemma_le_len(rid.0 as nat, 8);
            lemma_le_len(pgen as nat, 8);
            let w1 = seq![OP_CREATE_OBJECT];
            let w2 = w1 + oid;
            let w3 = w2 + le(lid.0 as nat, 8);
            let w4 = w3 + le(rid.0 as nat, 8);
            lemma_has_join(b, pos, w1, oid);
            lemma_has_join(b, pos, w2, le(lid.0 as nat, 8));
            lemma_has_join(b, pos, w3, le(rid.0 as nat, 8));
            lemma_has_join(b, pos, w4, le(pgen as nat, 8));
        },
        OpV::PutObject(r, k, v) => {
            lemma_was_u64(b, pos + 1);
            lemma_le_len(r.0 as nat, 8);
            lemma_has_join(b, pos, seq![OP_PUT_OBJECT], le(r.0 as nat, 8));
            lemma_was_key_value(b, pos, seq![OP_PUT_OBJECT] + le(r.0 as nat, 8), k, v);
        },
        OpV::DeleteObject(r, k) => {
            lemma_was_u64(b, pos + 1);
            lemma_le_len(r.0 as nat, 8);
            lemma_has_join(b, pos, seq![OP_DELETE_OBJECT], le(r.0 as nat, 8));
            lemma_was_key(b, pos, seq![OP_DELETE_OBJECT] + le(r.0 as nat, 8), k);
        },
    }
}

proof fn lemma_was_key(b: Seq<u8>, pos: int, head: Seq<u8>, k: Seq<u8>)
    requires
        has_at(b, pos, head),
        p_vec(b, pos + head.len()) == Ok::<Seq<u8>, ErrV>(k),
    ensures
        k.len() <= u32::MAX,
        has_at(b, pos, head + le((k.len() as u32) as nat, 4) + k),
        (head + le((k.len() as u32) as nat, 4) + k).len() == head.len() + 4 + k.len(),
{
    lemma_has_is(b, pos, head);
    lemma_was_vec(b, pos + head.len());
    lemma_le_len((k.len() as u32) as nat, 4);
    lemma_has_join(b, pos, head, le((k.len() as u32) as nat, 4));
    lemma_has_join(b, pos, head + le((k.len() as u32) as nat, 4), k);
}

proof fn lemma_was_key_value(b: Seq<u8>, pos: int, head: Seq<u8>, k: Seq<u8>, v: Seq<u8>)
    requires
        has_at(b, pos, head),
        p_vec(b, pos + head.len()) == Ok::<Seq<u8>, ErrV>(k),
        p_vec(b, pos + head.len() + 4 + k.len()) == Ok::<Seq<u8>, ErrV>(v),
    ensures
        k.len() <= u32::MAX,
        v.len() <= u32::MAX,
        has_at(
            b,
            pos,
            head + le((k.len() as u32) as nat, 4) + k + le((v.len() as u32) as nat, 4) + v,
        ),
        (head + le((k.len() as u32) as nat, 4) + k + le((v.len() as u32) as nat, 4) + v).len()
            == head.len() + 8 + k.len() + v.len(),
{
    lemma_was_key(b, pos, head, k);
    lemma_was_key(b, pos, head + le((k.len() as u32) as nat, 4) + k, v);
}

proof fn lemma_was_ops(b: Seq<u8>, pos: int, n: nat)
    requires
        0 <= pos <= b.len(),
        p_ops(b, pos, n) is Ok,
    ensures
        ({
            let (ops, q) = p_ops(b, pos, n)->Ok_0;
            let bytes = enc_all(ops, |o: OpV| op_bytes(o));
            &&& ops.len() == n
            &&& forall|i: int| 0 <= i < n ==> op_fits(#[trigger] ops[i])
            &&& has_at(b, pos, bytes)
            &&& q == pos + bytes.len()
        }),
    decreases n,
{
    let f = |o: OpV| op_bytes(o);
    if n == 0 {
        lemma_has_nothing(b, pos);
    } else {
        lemma_was_ops(b, pos, (n - 1) as nat);
        let (front, p) = p_ops(b, pos, (n - 1) as nat)->Ok_0;
        let (ops, q) = p_ops(b, pos, n)->Ok_0;
        lemma_was_op(b, p);
        let o = (p_op(b, p)->Ok_0).0;
        assert(ops.drop_last() =~= front);
        assert(ops.last() == o);
        lemma_has_join(b, pos, enc_all(front, f), op_bytes(o));
        assert forall|i: int| 0 <= i < n implies op_fits(#[trigger] ops[i]) by {
            if i < n - 1 {
                assert(ops[i] == front[i]);
            }
        }
    }
}

proof fn lemma_was_payload(b: Seq<u8>)
    requires
        payload_of(b) is Ok,
    ensures
        ({
            let ops = payload_of(b)->Ok_0;
            &&& 0 < ops.len() <= u32::MAX
            &&& forall|i: int| 0 <= i < ops.len() ==> op_fits(#[trigger] ops[i])
            &&& payload_bytes(ops) == b
        }),
{
    let ops = payload_of(b)->Ok_0;
    let count = p_u32(b, 0)->Ok_0;
    lemma_was_u32(b, 0);
    lemma_le_len(count as nat, 4);
    lemma_has_is(b, 0, le(count as nat, 4));
    lemma_was_ops(b, 4, count as nat);
    lemma_has_join(b, 0, le(count as nat, 4), enc_all(ops, |o: OpV| op_bytes(o)));
    lemma_has_is(b, 0, payload_bytes(ops));
    assert(b.subrange(0, b.len() as int) =~= b);
}

/// An accepted frame is the encoding of what it gives, and could be written.
pub proof fn accepted_frame_was_written(b: Seq<u8>)
    requires
        frame_of(b) is Ok,
    ensures
        ({
            let (f, n) = frame_of(b)->Ok_0;
            frame_fits(f) && n <= b.len() && b.take(n as int) == frame_bytes(f)
        }),
{
    lemma_frame_len(b);
    reveal(frame_of);
    let (f, total) = frame_of(b)->Ok_0;
    let n = p_u32(b, 15)->Ok_0;
    let payload = p_take(b, 19, n as int)->Ok_0;
    lemma_took(b, 0, 4);
    lemma_was_u16(b, 4);
    lemma_was_u8(b, 6);
    lemma_was_u64(b, 7);
    lemma_was_u32(b, 15);
    lemma_took(b, 19, n as int);
    lemma_took(b, 19 + n, 8);
    lemma_was_payload(payload);
    let w1 = WAL_MAGIC@;
    let w2 = w1 + le(WAL_FORMAT_VERSION as nat, 2);
    let w3 = w2 + seq![FRAME_BATCH];
    let w4 = w3 + le(f.seq as nat, 8);
    let w5 = w4 + le(n as nat, 4);
    lemma_le_len(WAL_FORMAT_VERSION as nat, 2);
    lemma_le_len(f.seq as nat, 8);
    lemma_le_len(n as nat, 4);
    lemma_has_join(b, 0, w1, le(WAL_FORMAT_VERSION as nat, 2));
    lemma_has_join(b, 0, w2, seq![FRAME_BATCH]);
    lemma_has_join(b, 0, w3, le(f.seq as nat, 8));
    lemma_has_join(b, 0, w4, le(n as nat, 4));
    lemma_has_join(b, 0, w5, payload);
    let body = frame_body(f);
    assert(w5 + payload == body);
    lemma_has_is(b, 0, body);
    assert(b.take(19 + n) =~= body);
    lemma_has_join(b, 0, body, ck8(body));
    lemma_has_is(b, 0, frame_bytes(f));
    assert(b.take(total as int) =~= frame_bytes(f));
}

/// The accepted prefix of a log is its frames, one behind the other, by
/// increasing sequence; and no valid frame begins behind it.
pub proof fn accepted_log_was_written(b: Seq<u8>, pos: int, last: Option<u64>)
    requires
        0 <= pos <= b.len(),
        replay_of(b, pos, last) is Ok,
    ensures
        ({
            let (fs, end) = replay_of(b, pos, last)->Ok_0;
            &&& pos <= end <= b.len()
            &&& stream_fits(fs, last)
            &&& b.subrange(pos, end) == stream_bytes(fs)
            &&& forall|p: int| end <= p < b.len() ==> frame_of(#[trigger] b.skip(p)) is Err
        }),
    decreases b.len() - pos,
{
    let (fs, end) = replay_of(b, pos, last)->Ok_0;
    if pos >= b.len() {
        assert(b.subrange(pos, end) =~= seq![]);
    } else {
        match frame_of(b.skip(pos)) {
            Ok((f, n)) => {
                lemma_frame_len(b.skip(pos));
                accepted_frame_was_written(b.skip(pos));
                accepted_log_was_written(b, pos + n, Some(f.seq));
                let rest = (replay_of(b, pos + n, Some(f.seq))->Ok_0).0;
                assert(fs =~= seq![f] + rest);
                assert(fs.skip(1) =~= rest);
                assert(b.subrange(pos, end) =~= b.skip(pos).take(n as int) + b.subrange(
                    pos + n,
                    end,
                ));
            },
            Err(_) => {
                assert(b.subrange(pos, end) =~= seq![]);
                assert forall|p: int| end <= p < b.len() implies frame_of(
                    #[trigger] b.skip(p),
                ) is Err by {
                    if p > pos {
                        lemma_no_frame(b, pos + 1, p);
                    }
                }
            },
        }
    }
}

proof fn lemma_no_frame(b: Seq<u8>, pos: int, p: int)
    requires
        0 <= pos <= p < b.len(),
        !frame_from(b, pos),
    ensures
        frame_of(b.skip(p)) is Err,
{
}

// ---------------------------------------------------------------------------
// The manifest
#[verifier::rlimit(40)]
proof fn lemma_was_record(b: Seq<u8>, pos: int)
    requires
        0 <= pos,
        p_record(b, pos) is Ok,
    ensures
        ({
            let (s, q) = p_record(b, pos)->Ok_0;
            &&& record_fits(s)
            &&& has_at(b, pos, record_bytes(s))
            &&& q == pos + record_bytes(s).len()
        }),
{
    let (s, q) = p_record(b, pos)->Ok_0;
    lemma_was_u64(b, pos);
    lemma_was_u8(b, pos + 8);
    let w1 = le(s.segment_id as nat, 8);
    lemma_le_len(s.segment_id as nat, 8);
    lemma_has_join(b, pos, w1, seq![s.level]);
    let head = w1 + seq![s.level];
    lemma_was_key_value(b, pos, head, s.key_min, s.key_max);
    let k = head + le((s.key_min.len() as u32) as nat, 4) + s.key_min + le(
        (s.key_max.len() as u32) as nat,
        4,
    ) + s.key_max;
    let p = pos + k.len();
    lemma_was_u64(b, p);
    lemma_was_u64(b, p + 8);
    lemma_was_u64(b, p + 16);
    lemma_was_u64(b, p + 24);
    lemma_was_u64(b, p + 32);
    lemma_le_len(s.seq_lo as nat, 8);
    lemma_le_len(s.seq_hi as nat, 8);
    lemma_le_len(s.record_count as nat, 8);
    lemma_le_len(s.file_size as nat, 8);
    lemma_le_len(s.checksum as nat, 8);
    let k1 = k + le(s.seq_lo as nat, 8);
    let k2 = k1 + le(s.seq_hi as nat, 8);
    let k3 = k2 + le(s.record_count as nat, 8);
    let k4 = k3 + le(s.file_size as nat, 8);
    lemma_has_join(b, pos, k, le(s.seq_lo as nat, 8));
    lemma_has_join(b, pos, k1, le(s.seq_hi as nat, 8));
    lemma_has_join(b, pos, k2, le(s.record_count as nat, 8));
    lemma_has_join(b, pos, k3, le(s.file_size as nat, 8));
    lemma_has_join(b, pos, k4, le(s.checksum as nat, 8));
}

proof fn lemma_were_records(b: Seq<u8>, pos: int, n: nat)
    requires
        0 <= pos <= b.len(),
        p_records(b, pos, n) is Ok,
    ensures
        ({
            let (rs, q) = p_records(b, pos, n)->Ok_0;
            &&& rs.len() == n
            &&& forall|i: int| 0 <= i < n ==> record_fits(#[trigger] rs[i])
            &&& has_at(b, pos, records_bytes(rs))
            &&& q == pos + records_bytes(rs).len()
        }),
    decreases n,
{
    if n == 0 {
        lemma_has_nothing(b, pos);
    } else {
        lemma_were_records(b, pos, (n - 1) as nat);
        let (front, p) = p_records(b, pos, (n - 1) as nat)->Ok_0;
        let (rs, q) = p_records(b, pos, n)->Ok_0;
        lemma_was_record(b, p);
        assert(rs.drop_last() =~= front);
        lemma_has_join(b, pos, records_bytes(front), record_bytes(rs.last()));
        assert forall|i: int| 0 <= i < n implies record_fits(#[trigger] rs[i]) by {
            if i < n - 1 {
                assert(rs[i] == front[i]);
            }
        }
    }
}

proof fn lemma_were_ids(b: Seq<u8>, q: int, ids: Seq<u64>)
    requires
        0 <= q,
        q + 8 * ids.len() <= b.len(),
        forall|i: int|
            0 <= i < ids.len() ==> #[trigger] ids[i] == un_le(b.subrange(q + 8 * i, q + 8 * i + 8)) as u64,
    ensures
        has_at(b, q, ids_bytes(ids)),
        ids_bytes(ids).len() == 8 * ids.len(),
    decreases ids.len(),
{
    if ids.len() == 0 {
        lemma_has_nothing(b, q);
    } else {
        let front = ids.drop_last();
        let n = front.len() as int;
        assert forall|i: int| 0 <= i < front.len() implies #[trigger] front[i] == un_le(
            b.subrange(q + 8 * i, q + 8 * i + 8),
        ) as u64 by {
            assert(front[i] == ids[i]);
        }
        lemma_were_ids(b, q, front);
        assert(ids[n] == un_le(b.subrange(q + 8 * n, q + 8 * n + 8)) as u64);
        assert(p_u64(b, q + 8 * n) == Ok::<u64, ErrV>(ids.last()));
        lemma_was_u64(b, q + 8 * n);
        lemma_le_len(ids.last() as nat, 8);
        lemma_has_join(b, q, ids_bytes(front), le(ids.last() as nat, 8));
    }
}

/// An accepted manifest is the encoding of what it gives.
pub proof fn accepted_manifest_was_written(b: Seq<u8>)
    requires
        manifest_of(b) is Ok,
    ensures
        manifest_fits(manifest_of(b)->Ok_0),
        manifest_bytes(manifest_of(b)->Ok_0) == b,
{
    let m = manifest_of(b)->Ok_0;
    let count = p_u32(b, 14)->Ok_0;
    let (segments, p) = p_records(b, 18, count as nat)->Ok_0;
    let n = p_u32(b, p)->Ok_0;
    lemma_took(b, 0, 4);
    lemma_was_u16(b, 4);
    lemma_was_u64(b, 6);
    lemma_was_u32(b, 14);
    lemma_le_len(FORMAT_VERSION as nat, 2);
    lemma_le_len(m.generation as nat, 8);
    lemma_le_len(count as nat, 4);
    lemma_le_len(n as nat, 4);
    lemma_has_is(b, 14, le(count as nat, 4));
    lemma_were_records(b, 18, count as nat);
    lemma_has_is(b, 18, records_bytes(segments));
    lemma_was_u32(b, p);
    let q = p + 4;
    let end = q + 8 * n;
    assert forall|i: int| 0 <= i < m.wal_ids.len() implies #[trigger] m.wal_ids[i] == un_le(
        b.subrange(q + 8 * i, q + 8 * i + 8),
    ) as u64 by {}
    lemma_were_ids(b, q, m.wal_ids);
    let w1 = MANIFEST_MAGIC@;
    let w2 = w1 + le(m.format_version as nat, 2);
    let w3 = w2 + le(m.generation as nat, 8);
    let w4 = w3 + le(count as nat, 4);
    let w5 = w4 + records_bytes(segments);
    let w6 = w5 + le(n as nat, 4);
    lemma_has_join(b, 0, w1, le(m.format_version as nat, 2));
    lemma_has_join(b, 0, w2, le(m.generation as nat, 8));
    lemma_has_join(b, 0, w3, le(count as nat, 4));
    lemma_has_join(b, 0, w4, records_bytes(segments));
    lemma_has_join(b, 0, w5, le(n as nat, 4));
    lemma_has_join(b, 0, w6, ids_bytes(m.wal_ids));
    let body = manifest_body(m);
    assert(w6 + ids_bytes(m.wal_ids) == body);
    lemma_has_is(b, 0, body);
    assert(b.take(end) =~= body);
    assert(b =~= b.take(end) + b.subrange(end, end + 8));
}

// ---------------------------------------------------------------------------
// Logs
proof fn lemma_was_table<T>(b: Seq<u8>, pos: int, s: Seq<T>, f: spec_fn(T) -> Seq<u8>, w: int)
    requires
        0 <= pos <= b.len(),
        forall|i: int|
            #![trigger s[i]]
            0 <= i < s.len() ==> has_at(b, pos + w * i, f(s[i])) && f(s[i]).len() == w,
    ensures
        has_at(b, pos, enc_all(s, f)),
        enc_all(s, f).len() == w * s.len(),
    decreases s.len(),
{
    if s.len() == 0 {
        lemma_has_nothing(b, pos);
        assert(w * s.len() == 0) by (nonlinear_arith)
            requires
                s.len() == 0,
        ;
    } else {
        let front = s.drop_last();
        assert forall|i: int| #![trigger front[i]] 0 <= i < front.len() implies has_at(
            b,
            pos + w * i,
            f(front[i]),
        ) && f(front[i]).len() == w by {
            assert(front[i] == s[i]);
        }
        lemma_was_table(b, pos, front, f, w);
        assert(s.last() == s[s.len() - 1]);
        assert(w * (s.len() - 1) + w == w * s.len()) by (nonlinear_arith);
        lemma_has_join(b, pos, enc_all(front, f), f(s.last()));
    }
}

/// A header, a count, a table and a fingerprint that are accepted.
proof fn lemma_was_log(
    b: Seq<u8>,
    label: Seq<char>,
    counted: Seq<char>,
    magic: Seq<u8>,
    records: Seq<u8>,
)
    requires
        magic.len() == 4,
        p_file_head(b, label, magic) is Ok,
        p_count(b, 14, counted, 24) is Ok,
        records.len() == 24 * p_count(b, 14, counted, 24)->Ok_0,
        has_at(b, 18, records),
        p_file_end(b, 18 + 24 * p_count(b, 14, counted, 24)->Ok_0, label) is Ok,
    ensures
        ({
            let body = file_head(magic, FORMAT_VERSION, p_file_head(b, label, magic)->Ok_0) + (le(
                p_count(b, 14, counted, 24)->Ok_0 as nat,
                4,
            ) + records);
            b == body + ck8(body)
        }),
{
    let generation = p_file_head(b, label, magic)->Ok_0;
    let n = p_count(b, 14, counted, 24)->Ok_0;
    let end = 18 + 24 * n;
    lemma_took(b, 0, 4);
    lemma_was_u16(b, 4);
    lemma_was_u64(b, 6);
    lemma_was_u32(b, 14);
    lemma_le_len(FORMAT_VERSION as nat, 2);
    lemma_le_len(generation as nat, 8);
    lemma_le_len(n as nat, 4);
    let head = file_head(magic, FORMAT_VERSION, generation);
    lemma_has_join(b, 0, magic, le(FORMAT_VERSION as nat, 2));
    lemma_has_join(b, 0, magic + le(FORMAT_VERSION as nat, 2), le(generation as nat, 8));
    lemma_has_join(b, 14, le(n as nat, 4), records);
    lemma_has_join(b, 0, head, le(n as nat, 4) + records);
    let body = head + (le(n as nat, 4) + records);
    lemma_has_is(b, 0, body);
    assert(b.take(end) =~= body);
    assert(b =~= b.take(end) + b.subrange(end, end + 8));
}

/// An accepted identity log is the encoding of its records.
pub proof fn accepted_identity_log_was_written(b: Seq<u8>)
    requires
        identity_log_of(b) is Ok,
    ensures
        oids_fit(identity_log_of(b)->Ok_0.records),
        identity_log_bytes(identity_log_of(b)->Ok_0) == b,
{
    let l = identity_log_of(b)->Ok_0;
    let n = p_count(b, 14, "identity log record_count"@, 24)->Ok_0;
    let f = |r: IdentityRecordV| identity_bytes(r);
    assert(l.records.len() == n);
    assert forall|i: int| #![trigger l.records[i]] 0 <= i < l.records.len() implies has_at(
        b,
        18 + 24 * i,
        f(l.records[i]),
    ) && f(l.records[i]).len() == 24 && l.records[i].oid.len() == 16 by {
        let p = 18 + 24 * i;
        let r = l.records[i];
        assert(r == identity_at(b, p));
        lemma_took(b, p, 16);
        assert(p_u64(b, p + 16) == Ok::<u64, ErrV>(r.lid.0));
        lemma_was_u64(b, p + 16);
        lemma_le_len(r.lid.0 as nat, 8);
        lemma_has_join(b, p, r.oid, le(r.lid.0 as nat, 8));
    }
    lemma_was_table(b, 18, l.records, f, 24);
    lemma_was_log(
        b,
        "identity log"@,
        "identity log record_count"@,
        IDENTITY_MAGIC@,
        enc_all(l.records, f),
    );
    assert(identity_table(l.records) == le(n as nat, 4) + enc_all(l.records, f));
}

/// An accepted replica log is the encoding of its records.
pub proof fn accepted_replica_log_was_written(b: Seq<u8>)
    requires
        replica_log_of(b) is Ok,
    ensures
        replica_log_bytes(replica_log_of(b)->Ok_0) == b,
{
    let l = replica_log_of(b)->Ok_0;
    let n = p_count(b, 14, "replica log record_count"@, 24)->Ok_0;
    let f = |r: ReplicaRecord| replica_bytes(r);
    assert(l.records.len() == n);
    assert forall|i: int| #![trigger l.records[i]] 0 <= i < l.records.len() implies has_at(
        b,
        18 + 24 * i,
        f(l.records[i]),
    ) && f(l.records[i]).len() == 24 by {
        let p = 18 + 24 * i;
        let r = l.records[i];
        assert(r == replica_at(b, p));
        assert(p_u64(b, p) == Ok::<u64, ErrV>(r.lid.0));
        assert(p_u64(b, p + 8) == Ok::<u64, ErrV>(r.node.0));
        assert(p_u64(b, p + 16) == Ok::<u64, ErrV>(r.rid.0));
        lemma_was_u64(b, p);
        lemma_was_u64(b, p + 8);
        lemma_was_u64(b, p + 16);
        lemma_le_len(r.lid.0 as nat, 8);
        lemma_le_len(r.node.0 as nat, 8);
        lemma_le_len(r.rid.0 as nat, 8);
        lemma_has_join(b, p, le(r.lid.0 as nat, 8), le(r.node.0 as nat, 8));
        lemma_has_join(
            b,
            p,
            le(r.lid.0 as nat, 8) + le(r.node.0 as nat, 8),
            le(r.rid.0 as nat, 8),
        );
    }
    lemma_was_table(b, 18, l.records, f, 24);
    lemma_was_log(
        b,
        "replica log"@,
        "replica log record_count"@,
        REPLICA_MAGIC@,
        enc_all(l.records, f),
    );
    assert(replica_table(l.records) == le(n as nat, 4) + enc_all(l.records, f));
}

// ---------------------------------------------------------------------------
// Length
/// One is the other cut short or lengthened: they agree where both have bytes.
pub open spec fn agree(a: Seq<u8>, b: Seq<u8>) -> bool {
    forall|i: int| 0 <= i < a.len() && i < b.len() ==> a[i] == b[i]
}

/// Refused as damage.
pub open spec fn damaged<T>(r: Result<T, ErrV>) -> bool {
    r is Err && r->Err_0 is Corrupt
}

proof fn lemma_agree(a: Seq<u8>, b: Seq<u8>, pos: int, n: int)
    requires
        agree(a, b),
        0 <= pos,
        0 <= n,
        p_take(a, pos, n) is Ok,
    ensures
        p_take(b, pos, n) == p_take(a, pos, n) || damaged(p_take(b, pos, n)),
{
    if pos + n <= b.len() {
        assert(b.subrange(pos, pos + n) =~= a.subrange(pos, pos + n));
    }
}

proof fn lemma_agree_head(a: Seq<u8>, b: Seq<u8>, label: Seq<char>, magic: Seq<u8>)
    requires
        agree(a, b),
        p_file_head(a, label, magic) is Ok,
    ensures
        p_file_head(b, label, magic) == p_file_head(a, label, magic) || damaged(
            p_file_head(b, label, magic),
        ),
{
    lemma_agree(a, b, 0, 4);
    lemma_agree(a, b, 4, 2);
    lemma_agree(a, b, 6, 8);
}

proof fn lemma_agree_count(a: Seq<u8>, b: Seq<u8>, pos: int, label: Seq<char>, width: int)
    requires
        agree(a, b),
        0 <= pos,
        p_count(a, pos, label, width) is Ok,
    ensures
        p_count(b, pos, label, width) == p_count(a, pos, label, width) || damaged(
            p_count(b, pos, label, width),
        ),
{
    lemma_agree(a, b, pos, 4);
}

proof fn lemma_agree_placements(a: Seq<u8>, b: Seq<u8>, pos: int, n: nat, label: Seq<char>)
    requires
        agree(a, b),
        0 <= pos,
        pos + 33 * n <= a.len(),
        pos + 33 * n <= b.len(),
        placements_at(a, pos, n, label) is Ok,
    ensures
        placements_at(b, pos, n, label) == placements_at(a, pos, n, label),
    decreases n,
{
    if n > 0 {
        lemma_agree_placements(a, b, pos, (n - 1) as nat, label);
        let p = pos + 33 * (n - 1);
        assert(b.subrange(p, p + 8) =~= a.subrange(p, p + 8));
        assert(b.subrange(p + 9, p + 17) =~= a.subrange(p + 9, p + 17));
        assert(b.subrange(p + 17, p + 21) =~= a.subrange(p + 17, p + 21));
        assert(b.subrange(p + 21, p + 25) =~= a.subrange(p + 21, p + 25));
        assert(b.subrange(p + 25, p + 33) =~= a.subrange(p + 25, p + 33));
        assert(b[p + 8] == a[p + 8]);
    }
}

/// A count that was read leaves room for its records.
proof fn lemma_count_fits(b: Seq<u8>, pos: int, label: Seq<char>, width: int)
    requires
        0 <= pos,
        width > 0,
        p_count(b, pos, label, width) is Ok,
    ensures
        pos + 4 + width * p_count(b, pos, label, width)->Ok_0 <= b.len(),
{
    let n = p_count(b, pos, label, width)->Ok_0 as int;
    let room = b.len() - pos - 4;
    assert(width * n <= room) by (nonlinear_arith)
        requires
            n <= room / width,
            width > 0,
            0 <= room,
    ;
}

/// An identity log that was cut short or lengthened is damage.
pub proof fn identity_log_of_another_length_is_damage(a: Seq<u8>, b: Seq<u8>)
    requires
        identity_log_of(a) is Ok,
        agree(a, b),
        a.len() != b.len(),
    ensures
        damaged(identity_log_of(b)),
{
    lemma_agree_head(a, b, "identity log"@, IDENTITY_MAGIC@);
    lemma_agree_count(a, b, 14, "identity log record_count"@, 24);
}

/// A replica log that was cut short or lengthened is damage.
pub proof fn replica_log_of_another_length_is_damage(a: Seq<u8>, b: Seq<u8>)
    requires
        replica_log_of(a) is Ok,
        agree(a, b),
        a.len() != b.len(),
    ensures
        damaged(replica_log_of(b)),
{
    lemma_agree_head(a, b, "replica log"@, REPLICA_MAGIC@);
    lemma_agree_count(a, b, 14, "replica log record_count"@, 24);
}

/// A placement log that was cut short or lengthened is damage.
pub proof fn placement_log_of_another_length_is_damage(a: Seq<u8>, b: Seq<u8>)
    requires
        placement_log_of(a) is Ok,
        agree(a, b),
        a.len() != b.len(),
    ensures
        damaged(placement_log_of(b)),
{
    lemma_agree_head(a, b, "placement log"@, PLACEMENT_MAGIC@);
    lemma_agree_count(a, b, 14, "placement log record_count"@, 33);
    if p_file_head(b, "placement log"@, PLACEMENT_MAGIC@) is Ok && p_count(
        b,
        14,
        "placement log record_count"@,
        33,
    ) is Ok {
        lemma_count_fits(a, 14, "placement log record_count"@, 33);
        lemma_count_fits(b, 14, "placement log record_count"@, 33);
        let n = p_count(b, 14, "placement log record_count"@, 33)->Ok_0;
        lemma_agree_placements(a, b, 18, n as nat, "placement"@);
    }
}

/// A checkpoint that was cut short or lengthened is damage.
pub proof fn checkpoint_of_another_length_is_damage(a: Seq<u8>, b: Seq<u8>)
    requires
        checkpoint_of(a) is Ok,
        agree(a, b),
        a.len() != b.len(),
    ensures
        damaged(checkpoint_of(b)),
{
    let l1 = "checkpoint identity_count"@;
    let l2 = "checkpoint replica_count"@;
    let l3 = "checkpoint placement_count"@;
    lemma_agree_head(a, b, "checkpoint"@, CHECKPOINT_MAGIC@);
    lemma_agree_count(a, b, 14, l1, 24);
    let q1 = 18 + 24 * p_count(a, 14, l1, 24)->Ok_0;
    lemma_agree_count(a, b, q1, l2, 24);
    let q2 = q1 + 4 + 24 * p_count(a, q1, l2, 24)->Ok_0;
    lemma_agree_count(a, b, q2, l3, 33);
    lemma_count_fits(a, q2, l3, 33);
    if p_count(b, q2, l3, 33) is Ok {
        lemma_count_fits(b, q2, l3, 33);
        let n = p_count(a, q2, l3, 33)->Ok_0;
        lemma_agree_placements(a, b, q2 + 4, n as nat, "checkpoint placement"@);
    }
}

} // verus!
