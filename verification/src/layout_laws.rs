//! The bytes of every file, field by field.
//!
//! A number stands least significant byte first. A file ends with the first
//! eight bytes of the SHA-256 digest of all that stands before them.

use crate::checkpoint::{checkpoint_body, DirectoryCheckpoint};
use crate::codec::{le, lemma_le_len, lemma_pow256, pow256, un_le};
use crate::format::{
    ck8, current_bytes, current_of, ids_bytes, manifest_body, manifest_of, record_bytes, records_bytes, Current,
    FormatError, Manifest, SegmentRecordV, CURRENT_MAGIC,
};
use crate::hash::sha256_of;
use crate::identity::directory::{
    identity_bytes, identity_log_body, replica_bytes, replica_log_body, IdentityLog,
    IdentityRecordV, ReplicaLog, ReplicaRecord,
};
use crate::placement::directory::{
    placement_bytes, placement_log_body, PlacementLog, PlacementRecord,
};
use crate::placement::Placement;
use crate::table::{enc_all, p_file_head};
use crate::wal::{encode_frame, frame_body, op_bytes, ops_view, payload_bytes, Op, OpV};
use vstd::prelude::*;

verus! {

// ---------------------------------------------------------------------------
// Parts
/// A number in `n` bytes: byte `i` is its digit of weight 256 to the power `i`.
pub open spec fn number(x: nat, n: nat) -> Seq<u8> {
    Seq::new(n, |i: int| ((x / pow256(i as nat)) % 256) as u8)
}

/// Parts, one behind the other.
pub open spec fn joined(parts: Seq<Seq<u8>>) -> Seq<u8>
    decreases parts.len(),
{
    if parts.len() == 0 {
        seq![]
    } else {
        parts[0] + joined(parts.skip(1))
    }
}

/// Bytes behind their length in four bytes.
pub open spec fn counted(s: Seq<u8>) -> Seq<u8> {
    number(s.len(), 4) + s
}

/// A body with its fingerprint.
pub open spec fn fingerprinted(body: Seq<u8>) -> Seq<u8> {
    body + Seq::new(8, |i: int| sha256_of(body)[i])
}

/// A number is written least significant byte first.
pub proof fn numbers_are_little_endian(x: nat, n: nat)
    ensures
        le(x, n) == number(x, n),
    decreases n,
{
    reveal(le);
    lemma_le_len(x, n);
    if n > 0 {
        numbers_are_little_endian(x / 256, (n - 1) as nat);
        assert forall|i: int| 0 <= i < n implies le(x, n)[i] == number(x, n)[i] by {
            if i == 0 {
                assert(pow256(0) == 1);
                assert(x / 1 == x);
            } else {
                assert(le(x, n)[i] == le(x / 256, (n - 1) as nat)[i - 1]);
                let p = pow256((i - 1) as nat);
                assert(pow256(i as nat) == 256 * p);
                lemma_pow_pos((i - 1) as nat);
                assert((x / 256) / p == x / (256 * p)) by (nonlinear_arith)
                    requires
                        p > 0,
                ;
            }
        }
    }
    assert(le(x, n) =~= number(x, n));
}

proof fn lemma_pow_pos(n: nat)
    ensures
        pow256(n) > 0,
    decreases n,
{
    if n > 0 {
        lemma_pow_pos((n - 1) as nat);
    }
}

pub proof fn lemma_joined_push(parts: Seq<Seq<u8>>, x: Seq<u8>)
    ensures
        joined(parts.push(x)) == joined(parts) + x,
    decreases parts.len(),
{
    let all = parts.push(x);
    if parts.len() == 0 {
        assert(all.skip(1) =~= seq![]);
        assert(joined(all.skip(1)) =~= seq![]);
        assert(joined(all) =~= joined(parts) + x);
    } else {
        lemma_joined_push(parts.skip(1), x);
        assert(all.skip(1) =~= parts.skip(1).push(x));
        assert(joined(all) =~= joined(parts) + x);
    }
}

proof fn lemma_enc_joined<T>(s: Seq<T>, f: spec_fn(T) -> Seq<u8>)
    ensures
        enc_all(s, f) == joined(s.map_values(f)),
    decreases s.len(),
{
    if s.len() > 0 {
        lemma_enc_joined(s.drop_last(), f);
        lemma_joined_push(s.drop_last().map_values(f), f(s.last()));
        assert(s.map_values(f) =~= s.drop_last().map_values(f).push(f(s.last())));
    } else {
        assert(enc_all(s, f) =~= joined(s.map_values(f)));
    }
}

proof fn lemma_fingerprint(body: Seq<u8>)
    ensures
        body + ck8(body) == fingerprinted(body),
{
    assert(ck8(body) =~= Seq::new(8, |i: int| sha256_of(body)[i]));
}

// ---------------------------------------------------------------------------
// CURRENT
/// CURRENT: `AKCV`, the version, the generation of the manifest, the
/// fingerprint; twenty-two bytes.
pub proof fn current_layout(c: &Current, r: Vec<u8>)
    requires
        call_ensures(Current::encode, (c,), r),
    ensures
        r@.len() == 22,
        r@.take(14) == seq![0x41u8, 0x4b, 0x43, 0x56] + number(c.format_version as nat, 2) + number(
            c.manifest_generation as nat,
            8,
        ),
        forall|i: int| 0 <= i < 8 ==> r@[14 + i] == sha256_of(r@.take(14))[i],
{
    numbers_are_little_endian(c.format_version as nat, 2);
    numbers_are_little_endian(c.manifest_generation as nat, 8);
    let body = seq![0x41u8, 0x4b, 0x43, 0x56] + number(c.format_version as nat, 2) + number(
        c.manifest_generation as nat,
        8,
    );
    assert(CURRENT_MAGIC@ =~= seq![0x41u8, 0x4b, 0x43, 0x56]);
    assert(r@.take(14) =~= body);
}

/// A CURRENT that is accepted is of version 1, and its bytes are those of its
/// encoding: no other length, no other bytes.
pub proof fn accepted_current_was_written(b: Seq<u8>)
    requires
        current_of(b) is Ok,
    ensures
        current_bytes(current_of(b)->Ok_0) == b,
        current_of(b)->Ok_0.format_version == 1,
        b.len() == 22,
{
    let c = current_of(b)->Ok_0;
    crate::codec::lemma_le_un_le(b.subrange(4, 6));
    crate::codec::lemma_le_un_le(b.subrange(6, 14));
    lemma_pow256();
    assert(b.take(14) =~= CURRENT_MAGIC@ + le(c.format_version as nat, 2) + le(
        c.manifest_generation as nat,
        8,
    ));
    assert(b =~= b.take(14) + b.subrange(14, 22));
}

/// Bytes of another version are a newer format only where they are whole: the
/// pointer, the manifest and every directory file are unsupported where their
/// fingerprint holds, and damaged where it does not.
pub proof fn other_versions_must_be_whole(b: Seq<u8>, label: Seq<char>, magic: Seq<u8>)
    requires
        b.len() >= 22,
        un_le(b.subrange(4, 6)) != 1,
    ensures
        current_of(b) is Err,
        b.len() == 22 && b.take(4) == seq![0x41u8, 0x4b, 0x43, 0x56] ==> (current_of(b)->Err_0
            is Unsupported <==> ck8(b.take(14)) == b.skip(14)),
        b.take(4) == seq![0x41u8, 0x4b, 0x4d, 0x56] ==> manifest_of(b) is Err && (manifest_of(
            b,
        )->Err_0 is Unsupported <==> ck8(b.take(b.len() - 8)) == b.skip(b.len() - 8)),
        b.take(4) == magic ==> p_file_head(b, label, magic) is Err && (p_file_head(
            b,
            label,
            magic,
        )->Err_0 is Unsupported <==> ck8(b.take(b.len() - 8)) == b.skip(b.len() - 8)),
        b.take(4) != magic ==> p_file_head(b, label, magic) is Err && p_file_head(
            b,
            label,
            magic,
        )->Err_0 is Corrupt,
{
    crate::codec::lemma_le_un_le(b.subrange(4, 6));
    lemma_pow256();
    assert(CURRENT_MAGIC@ =~= seq![0x41u8, 0x4b, 0x43, 0x56]);
    assert(crate::format::MANIFEST_MAGIC@ =~= seq![0x41u8, 0x4b, 0x4d, 0x56]);
    assert(b.take(4) =~= b.subrange(0, 4));
    if b.len() == 22 {
        assert(b.skip(14) =~= b.subrange(14, 22));
    }
}

// ---------------------------------------------------------------------------
// Manifest
/// A segment in the manifest.
pub open spec fn segment_entry(s: SegmentRecordV) -> Seq<u8> {
    number(s.segment_id as nat, 8) + seq![s.level] + counted(s.key_min) + counted(s.key_max)
        + number(s.seq_lo as nat, 8) + number(s.seq_hi as nat, 8) + number(
        s.record_count as nat,
        8,
    ) + number(s.file_size as nat, 8) + number(s.checksum as nat, 8)
}

proof fn lemma_record_layout(s: SegmentRecordV)
    requires
        s.key_min.len() <= u32::MAX,
        s.key_max.len() <= u32::MAX,
    ensures
        record_bytes(s) == segment_entry(s),
{
    numbers_are_little_endian(s.segment_id as nat, 8);
    numbers_are_little_endian(s.key_min.len(), 4);
    numbers_are_little_endian(s.key_max.len(), 4);
    numbers_are_little_endian(s.seq_lo as nat, 8);
    numbers_are_little_endian(s.seq_hi as nat, 8);
    numbers_are_little_endian(s.record_count as nat, 8);
    numbers_are_little_endian(s.file_size as nat, 8);
    numbers_are_little_endian(s.checksum as nat, 8);
    assert(record_bytes(s) =~= segment_entry(s));
}

proof fn lemma_records_layout(s: Seq<SegmentRecordV>)
    requires
        forall|i: int|
            0 <= i < s.len() ==> (#[trigger] s[i]).key_min.len() <= u32::MAX && s[i].key_max.len()
                <= u32::MAX,
    ensures
        records_bytes(s) == joined(Seq::new(s.len(), |i: int| segment_entry(s[i]))),
    decreases s.len(),
{
    let all = Seq::new(s.len(), |i: int| segment_entry(s[i]));
    if s.len() > 0 {
        let front = s.drop_last();
        assert forall|i: int| 0 <= i < front.len() implies (#[trigger] front[i]).key_min.len()
            <= u32::MAX && front[i].key_max.len() <= u32::MAX by {
            assert(front[i] == s[i]);
        }
        lemma_records_layout(front);
        assert(s[s.len() - 1] == s.last());
        lemma_record_layout(s.last());
        let before = Seq::new(front.len(), |i: int| segment_entry(front[i]));
        lemma_joined_push(before, segment_entry(s.last()));
        assert(all =~= before.push(segment_entry(s.last())));
    } else {
        assert(all =~= seq![]);
    }
}

proof fn lemma_ids_layout(s: Seq<u64>)
    ensures
        ids_bytes(s) == joined(Seq::new(s.len(), |i: int| number(s[i] as nat, 8))),
    decreases s.len(),
{
    let all = Seq::new(s.len(), |i: int| number(s[i] as nat, 8));
    if s.len() > 0 {
        let front = s.drop_last();
        lemma_ids_layout(front);
        numbers_are_little_endian(s.last() as nat, 8);
        let before = Seq::new(front.len(), |i: int| number(front[i] as nat, 8));
        lemma_joined_push(before, number(s.last() as nat, 8));
        assert(all =~= before.push(number(s.last() as nat, 8)));
    } else {
        assert(all =~= seq![]);
    }
}

/// A manifest: `AKMV`, the version, the generation, how many segments, the
/// segments, how many logs, the logs, the fingerprint.
pub proof fn manifest_layout(m: &Manifest, r: Vec<u8>)
    requires
        call_ensures(Manifest::encode, (m,), r),
        crate::format::manifest_fits(m@),
    ensures
        r@ == fingerprinted(
            seq![0x41u8, 0x4b, 0x4d, 0x56] + number(m.format_version as nat, 2) + number(
                m.generation as nat,
                8,
            ) + number(m.segments@.len(), 4) + joined(
                Seq::new(m@.segments.len(), |i: int| segment_entry(m@.segments[i])),
            ) + number(m.wal_ids@.len(), 4) + joined(
                Seq::new(m.wal_ids@.len(), |i: int| number(m.wal_ids@[i] as nat, 8)),
            ),
        ),
{
    let v = m@;
    numbers_are_little_endian(v.format_version as nat, 2);
    numbers_are_little_endian(v.generation as nat, 8);
    numbers_are_little_endian(v.segments.len(), 4);
    numbers_are_little_endian(v.wal_ids.len(), 4);
    assert forall|i: int| 0 <= i < v.segments.len() implies (
    #[trigger] v.segments[i]).key_min.len() <= u32::MAX && v.segments[i].key_max.len()
        <= u32::MAX by {
        assert(crate::format::record_fits(v.segments[i]));
    }
    lemma_records_layout(v.segments);
    lemma_ids_layout(v.wal_ids);
    assert(crate::format::MANIFEST_MAGIC@ =~= seq![0x41u8, 0x4b, 0x4d, 0x56]);
    lemma_fingerprint(manifest_body(v));
}

// ---------------------------------------------------------------------------
// The log
/// A change in the log: its kind, then its fields.
pub open spec fn change_entry(o: OpV) -> Seq<u8> {
    match o {
        OpV::Put(k, v) => seq![1u8] + counted(k) + counted(v),
        OpV::Delete(k) => seq![2u8] + counted(k),
        OpV::CreateObject { oid, lid, rid, pgen } => seq![3u8] + oid + number(lid.0 as nat, 8)
            + number(rid.0 as nat, 8) + number(pgen as nat, 8),
        OpV::PutObject(r, k, v) => seq![4u8] + number(r.0 as nat, 8) + counted(k) + counted(v),
        OpV::DeleteObject(r, k) => seq![5u8] + number(r.0 as nat, 8) + counted(k),
    }
}

proof fn lemma_change_layout(o: OpV)
    requires
        crate::wal::op_fits(o),
    ensures
        op_bytes(o) == change_entry(o),
{
    match o {
        OpV::Put(k, v) => {
            numbers_are_little_endian(k.len(), 4);
            numbers_are_little_endian(v.len(), 4);
        },
        OpV::Delete(k) => {
            numbers_are_little_endian(k.len(), 4);
        },
        OpV::CreateObject { oid, lid, rid, pgen } => {
            numbers_are_little_endian(lid.0 as nat, 8);
            numbers_are_little_endian(rid.0 as nat, 8);
            numbers_are_little_endian(pgen as nat, 8);
        },
        OpV::PutObject(r, k, v) => {
            numbers_are_little_endian(r.0 as nat, 8);
            numbers_are_little_endian(k.len(), 4);
            numbers_are_little_endian(v.len(), 4);
        },
        OpV::DeleteObject(r, k) => {
            numbers_are_little_endian(r.0 as nat, 8);
            numbers_are_little_endian(k.len(), 4);
        },
    }
    assert(op_bytes(o) =~= change_entry(o));
}

proof fn lemma_changes_layout(s: Seq<OpV>)
    requires
        forall|i: int| 0 <= i < s.len() ==> crate::wal::op_fits(#[trigger] s[i]),
    ensures
        enc_all(s, |o: OpV| op_bytes(o)) == joined(Seq::new(s.len(), |i: int| change_entry(s[i]))),
    decreases s.len(),
{
    let f = |o: OpV| op_bytes(o);
    lemma_enc_joined(s, f);
    assert forall|i: int| 0 <= i < s.len() implies s.map_values(f)[i] == change_entry(s[i]) by {
        lemma_change_layout(s[i]);
    }
    assert(s.map_values(f) =~= Seq::new(s.len(), |i: int| change_entry(s[i])));
}

/// A frame of the log: `AKWF`, version 1, type 1, the sequence, the length of
/// the payload, the payload, the fingerprint. The payload is how many changes
/// there are, and the changes.
pub proof fn frame_layout(seq: u64, ops: &[Op], r: Result<Vec<u8>, FormatError>)
    requires
        call_ensures(encode_frame, (seq, ops), r),
        r is Ok,
        crate::wal::frame_fits((crate::wal::WalFrameV { seq, ops: ops_view(ops@) })),
    ensures
        ({
            let changes = ops_view(ops@);
            let payload = number(changes.len(), 4) + joined(
                Seq::new(changes.len(), |i: int| change_entry(changes[i])),
            );
            r->Ok_0@ == fingerprinted(
                seq![0x41u8, 0x4b, 0x57, 0x46, 0x01, 0x00, 0x01] + number(seq as nat, 8) + counted(
                    payload,
                ),
            )
        }),
{
    let changes = ops_view(ops@);
    let f = crate::wal::WalFrameV { seq, ops: changes };
    lemma_changes_layout(changes);
    numbers_are_little_endian(changes.len(), 4);
    let payload = payload_bytes(changes);
    numbers_are_little_endian(payload.len(), 4);
    numbers_are_little_endian(seq as nat, 8);
    numbers_are_little_endian(1, 2);
    assert(number(1, 2) =~= seq![0x01u8, 0x00]) by {
        assert(pow256(0) == 1);
        lemma_pow256();
        let w = number(1, 2);
        assert(w[0] == ((1nat / pow256(0)) % 256) as u8);
        assert(w[1] == ((1nat / pow256(1)) % 256) as u8);
    }
    let body = frame_body(f);
    assert(body =~= seq![0x41u8, 0x4b, 0x57, 0x46, 0x01, 0x00, 0x01] + number(seq as nat, 8)
        + counted(payload));
    lemma_fingerprint(body);
}

// ---------------------------------------------------------------------------
// Directories
/// The head of a directory file: its four letters, the version, the
/// generation.
pub open spec fn head_entry(letters: Seq<u8>, version: u16, generation: u64) -> Seq<u8> {
    letters + number(version as nat, 2) + number(generation as nat, 8)
}

/// A table: how many records, and the records.
pub open spec fn table_entry(records: Seq<Seq<u8>>) -> Seq<u8> {
    number(records.len(), 4) + joined(records)
}

/// An identity: the object, its logical identity.
pub open spec fn identity_entry(r: IdentityRecordV) -> Seq<u8> {
    r.oid + number(r.lid.0 as nat, 8)
}

/// A replica: the logical identity, the node, the replica.
pub open spec fn replica_entry(r: ReplicaRecord) -> Seq<u8> {
    number(r.lid.0 as nat, 8) + number(r.node.0 as nat, 8) + number(r.rid.0 as nat, 8)
}

/// A placement: the replica, 1 in memory, 2 in a segment, 3 nowhere; the
/// segment, the block and the entry, or zeros; the generation.
pub open spec fn placement_entry(r: PlacementRecord) -> Seq<u8> {
    number(r.rid.0 as nat, 8) + (match r.placement {
        Placement::Memtable { generation } => seq![1u8] + number(0, 16) + number(
            generation as nat,
            8,
        ),
        Placement::Segment(loc) => seq![2u8] + number(loc.segment_id.0 as nat, 8) + number(
            loc.block_id.0 as nat,
            4,
        ) + number(loc.entry_offset as nat, 4) + number(loc.generation as nat, 8),
        Placement::Retired { generation } => seq![3u8] + number(0, 16) + number(
            generation as nat,
            8,
        ),
    })
}

proof fn lemma_zero(n: nat)
    ensures
        number(0, n) == Seq::new(n, |i: int| 0u8),
{
    assert forall|i: int| 0 <= i < n implies number(0, n)[i] == 0u8 by {
        lemma_pow_pos(i as nat);
        let p = pow256(i as nat);
        assert(0nat / p == 0) by (nonlinear_arith)
            requires
                p > 0,
        ;
    }
    assert(number(0, n) =~= Seq::new(n, |i: int| 0u8));
}

proof fn lemma_placement_layout(r: PlacementRecord)
    ensures
        placement_bytes(r) == placement_entry(r),
{
    numbers_are_little_endian(r.rid.0 as nat, 8);
    numbers_are_little_endian(0, 8);
    numbers_are_little_endian(0, 4);
    lemma_zero(4);
    lemma_zero(8);
    lemma_zero(16);
    match r.placement {
        Placement::Memtable { generation } => {
            numbers_are_little_endian(generation as nat, 8);
        },
        Placement::Segment(loc) => {
            numbers_are_little_endian(loc.segment_id.0 as nat, 8);
            numbers_are_little_endian(loc.block_id.0 as nat, 4);
            numbers_are_little_endian(loc.entry_offset as nat, 4);
            numbers_are_little_endian(loc.generation as nat, 8);
        },
        Placement::Retired { generation } => {
            numbers_are_little_endian(generation as nat, 8);
        },
    }
    assert(placement_bytes(r) =~= placement_entry(r));
}

proof fn lemma_identities_layout(s: Seq<IdentityRecordV>)
    requires
        s.len() <= u32::MAX,
    ensures
        crate::identity::directory::identity_table(s) == table_entry(
            Seq::new(s.len(), |i: int| identity_entry(s[i])),
        ),
{
    let f = |r: IdentityRecordV| identity_bytes(r);
    let parts = Seq::new(s.len(), |i: int| identity_entry(s[i]));
    lemma_enc_joined(s, f);
    numbers_are_little_endian(s.len(), 4);
    assert forall|i: int| 0 <= i < s.len() implies s.map_values(f)[i] == parts[i] by {
        numbers_are_little_endian(s[i].lid.0 as nat, 8);
    }
    assert(s.map_values(f) =~= parts);
}

proof fn lemma_replicas_layout(s: Seq<ReplicaRecord>)
    requires
        s.len() <= u32::MAX,
    ensures
        crate::identity::directory::replica_table(s) == table_entry(
            Seq::new(s.len(), |i: int| replica_entry(s[i])),
        ),
{
    let f = |r: ReplicaRecord| replica_bytes(r);
    let parts = Seq::new(s.len(), |i: int| replica_entry(s[i]));
    lemma_enc_joined(s, f);
    numbers_are_little_endian(s.len(), 4);
    assert forall|i: int| 0 <= i < s.len() implies s.map_values(f)[i] == parts[i] by {
        numbers_are_little_endian(s[i].lid.0 as nat, 8);
        numbers_are_little_endian(s[i].node.0 as nat, 8);
        numbers_are_little_endian(s[i].rid.0 as nat, 8);
    }
    assert(s.map_values(f) =~= parts);
}

proof fn lemma_placements_layout(s: Seq<PlacementRecord>)
    requires
        s.len() <= u32::MAX,
    ensures
        crate::placement::directory::placement_table(s) == table_entry(
            Seq::new(s.len(), |i: int| placement_entry(s[i])),
        ),
{
    let f = |r: PlacementRecord| placement_bytes(r);
    let parts = Seq::new(s.len(), |i: int| placement_entry(s[i]));
    lemma_enc_joined(s, f);
    numbers_are_little_endian(s.len(), 4);
    assert forall|i: int| 0 <= i < s.len() implies s.map_values(f)[i] == parts[i] by {
        lemma_placement_layout(s[i]);
    }
    assert(s.map_values(f) =~= parts);
}

/// An identity log: `AKID`, then its head and its table, and the fingerprint.
pub proof fn identity_log_layout(l: &IdentityLog, r: Vec<u8>)
    requires
        call_ensures(IdentityLog::encode, (l,), r),
        l.records@.len() <= u32::MAX,
    ensures
        r@ == fingerprinted(
            head_entry(seq![0x41u8, 0x4b, 0x49, 0x44], l.format_version, l.generation)
                + table_entry(
                Seq::new(l@.records.len(), |i: int| identity_entry(l@.records[i])),
            ),
        ),
{
    numbers_are_little_endian(l.format_version as nat, 2);
    numbers_are_little_endian(l.generation as nat, 8);
    lemma_identities_layout(l@.records);
    assert(crate::identity::directory::IDENTITY_MAGIC@ =~= seq![0x41u8, 0x4b, 0x49, 0x44]);
    lemma_fingerprint(identity_log_body(l@));
}

/// A replica log: `AKRP`, then its head and its table, and the fingerprint.
pub proof fn replica_log_layout(l: &ReplicaLog, r: Vec<u8>)
    requires
        call_ensures(ReplicaLog::encode, (l,), r),
        l.records@.len() <= u32::MAX,
    ensures
        r@ == fingerprinted(
            head_entry(seq![0x41u8, 0x4b, 0x52, 0x50], l.format_version, l.generation)
                + table_entry(Seq::new(l@.records.len(), |i: int| replica_entry(l@.records[i]))),
        ),
{
    numbers_are_little_endian(l.format_version as nat, 2);
    numbers_are_little_endian(l.generation as nat, 8);
    lemma_replicas_layout(l@.records);
    assert(crate::identity::directory::REPLICA_MAGIC@ =~= seq![0x41u8, 0x4b, 0x52, 0x50]);
    lemma_fingerprint(replica_log_body(l@));
}

/// A placement log: `AKPL`, then its head and its table, and the fingerprint.
pub proof fn placement_log_layout(l: &PlacementLog, r: Vec<u8>)
    requires
        call_ensures(PlacementLog::encode, (l,), r),
        l.records@.len() <= u32::MAX,
    ensures
        r@ == fingerprinted(
            head_entry(seq![0x41u8, 0x4b, 0x50, 0x4c], l.format_version, l.generation)
                + table_entry(
                Seq::new(l@.records.len(), |i: int| placement_entry(l@.records[i])),
            ),
        ),
{
    numbers_are_little_endian(l.format_version as nat, 2);
    numbers_are_little_endian(l.generation as nat, 8);
    lemma_placements_layout(l@.records);
    assert(crate::placement::directory::PLACEMENT_MAGIC@ =~= seq![0x41u8, 0x4b, 0x50, 0x4c]);
    lemma_fingerprint(placement_log_body(l@));
}

/// A checkpoint: `AKCK`, its head, the tables of the identities, the replicas
/// and the placements, and the fingerprint.
pub proof fn checkpoint_layout(c: &DirectoryCheckpoint, r: Vec<u8>)
    requires
        call_ensures(DirectoryCheckpoint::encode, (c,), r),
        crate::checkpoint::checkpoint_fits(c@),
    ensures
        ({
            let v = c@;
            r@ == fingerprinted(
                head_entry(seq![0x41u8, 0x4b, 0x43, 0x4b], v.format_version, v.generation)
                    + table_entry(
                    Seq::new(v.identities.len(), |i: int| identity_entry(v.identities[i])),
                ) + table_entry(Seq::new(v.replicas.len(), |i: int| replica_entry(v.replicas[i])))
                    + table_entry(
                    Seq::new(v.placements.len(), |i: int| placement_entry(v.placements[i])),
                ),
            )
        }),
{
    let v = c@;
    numbers_are_little_endian(v.format_version as nat, 2);
    numbers_are_little_endian(v.generation as nat, 8);
    lemma_identities_layout(v.identities);
    lemma_replicas_layout(v.replicas);
    lemma_placements_layout(v.placements);
    assert(crate::checkpoint::CHECKPOINT_MAGIC@ =~= seq![0x41u8, 0x4b, 0x43, 0x4b]);
    lemma_fingerprint(checkpoint_body(v));
}

} // verus!
