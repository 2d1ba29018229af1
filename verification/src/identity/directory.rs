//! The persistent form of the identity and replica directories:
//! per-generation logs of fixed-width records, one family per directory. A
//! log holds the records created since the previous flush; recovery applies
//! the logs at or below the current generation, oldest first, and then the
//! active write-ahead log.
//!
//! On-disk shapes (little-endian):
//! `AKID | format_version u16 | generation u64 | record_count u32 |
//!  records (ObjectId 16 | LogicalId 8) | checksum8`
//! `AKRP | format_version u16 | generation u64 | record_count u32 |
//!  records (LogicalId 8 | NodeId 8 | ReplicaId 8) | checksum8`

use crate::codec::{
    array16, le, lemma_le_len, lemma_pow256, lemma_un_le_le, push_bytes, push_u32, push_u64,
    read_le, un_le,
};
use crate::format::{
    ck8, has_at, lemma_has_all, lemma_has_is, lemma_has_split, lemma_sealed, push_checksum, rv, Cursor, ErrV,
    FormatError, FORMAT_VERSION,
};
use crate::identity::logical_id::LogicalId;
use crate::identity::node_id::NodeId;
use crate::identity::object_id::ObjectId;
use crate::identity::replica_id::ReplicaId;
use crate::listing::{list_numbers, lists_numbers};
use crate::table::{
    enc_all, enc_table, file_head, lemma_p_file_end, lemma_p_file_head, lemma_p_table, p_count,
    p_file_end, p_file_head, push_file_head, read_count, read_file_end, read_file_head,
    unsupported_version,
};
use crate::text::{dec, join, join_spec, pad6, parse_tagged, tagged_number, Text};
use vstd::prelude::*;

verus! {

pub const IDENTITY_MAGIC: [u8; 4] = [0x41, 0x4b, 0x49, 0x44];

pub const REPLICA_MAGIC: [u8; 4] = [0x41, 0x4b, 0x52, 0x50];

/// Object 16, logical 8.
pub const IDENTITY_RECORD_LEN: usize = 24;

/// Logical 8, node 8, replica 8.
pub const REPLICA_RECORD_LEN: usize = 24;

#[derive(Debug, Clone, Copy, PartialEq, Eq)]
pub struct IdentityRecord {
    pub oid: ObjectId,
    pub lid: LogicalId,
}

/// An identity record as a value.
#[verifier::ext_equal]
pub struct IdentityRecordV {
    pub oid: Seq<u8>,
    pub lid: LogicalId,
}

impl View for IdentityRecord {
    type V = IdentityRecordV;

    open spec fn view(&self) -> IdentityRecordV {
        IdentityRecordV { oid: self.oid@, lid: self.lid }
    }
}

#[derive(Debug, Clone, Copy, PartialEq, Eq, Structural)]
pub struct ReplicaRecord {
    pub lid: LogicalId,
    pub node: NodeId,
    pub rid: ReplicaId,
}

#[derive(Debug, Clone, PartialEq, Eq)]
pub struct IdentityLog {
    pub format_version: u16,
    pub generation: u64,
    pub records: Vec<IdentityRecord>,
}

/// An identity log as a value.
#[verifier::ext_equal]
pub struct IdentityLogV {
    pub format_version: u16,
    pub generation: u64,
    pub records: Seq<IdentityRecordV>,
}

/// Identity records as values.
pub open spec fn identity_view(s: Seq<IdentityRecord>) -> Seq<IdentityRecordV> {
    s.map_values(|r: IdentityRecord| r@)
}

impl View for IdentityLog {
    type V = IdentityLogV;

    open spec fn view(&self) -> IdentityLogV {
        IdentityLogV {
            format_version: self.format_version,
            generation: self.generation,
            records: identity_view(self.records@),
        }
    }
}

#[derive(Debug, Clone, PartialEq, Eq)]
pub struct ReplicaLog {
    pub format_version: u16,
    pub generation: u64,
    pub records: Vec<ReplicaRecord>,
}

/// A replica log as a value.
#[verifier::ext_equal]
pub struct ReplicaLogV {
    pub format_version: u16,
    pub generation: u64,
    pub records: Seq<ReplicaRecord>,
}

impl View for ReplicaLog {
    type V = ReplicaLogV;

    open spec fn view(&self) -> ReplicaLogV {
        ReplicaLogV {
            format_version: self.format_version,
            generation: self.generation,
            records: self.records@,
        }
    }
}

/// The name of a generation's log in the family `stem`.
pub open spec fn log_name(stem: Seq<char>, generation: u64) -> Seq<char> {
    stem + pad6(generation as nat) + ".log"@
}

pub fn identity_log_path(dir: &str, generation: u64) -> (r: String)
    ensures
        r@ == join_spec(dir@, log_name("IDENTITY-"@, generation)),
{
    let name = Text::new("IDENTITY-").pad6(generation).lit(".log").done();
    join(dir, name.as_str())
}

pub fn replica_log_path(dir: &str, generation: u64) -> (r: String)
    ensures
        r@ == join_spec(dir@, log_name("REPLICA-"@, generation)),
{
    let name = Text::new("REPLICA-").pad6(generation).lit(".log").done();
    join(dir, name.as_str())
}

// ---------------------------------------------------------------------------
// Records
pub open spec fn identity_bytes(r: IdentityRecordV) -> Seq<u8> {
    r.oid + le(r.lid.0 as nat, 8)
}

pub open spec fn identity_at(b: Seq<u8>, p: int) -> IdentityRecordV {
    IdentityRecordV {
        oid: b.subrange(p, p + 16),
        lid: LogicalId(un_le(b.subrange(p + 16, p + 24)) as u64),
    }
}

pub open spec fn replica_bytes(r: ReplicaRecord) -> Seq<u8> {
    le(r.lid.0 as nat, 8) + le(r.node.0 as nat, 8) + le(r.rid.0 as nat, 8)
}

pub open spec fn replica_at(b: Seq<u8>, p: int) -> ReplicaRecord {
    ReplicaRecord {
        lid: LogicalId(un_le(b.subrange(p, p + 8)) as u64),
        node: NodeId(un_le(b.subrange(p + 8, p + 16)) as u64),
        rid: ReplicaId(un_le(b.subrange(p + 16, p + 24)) as u64),
    }
}

/// A table of identity records; object ids of sixteen bytes.
pub open spec fn identity_table(s: Seq<IdentityRecordV>) -> Seq<u8> {
    enc_table(s, |r: IdentityRecordV| identity_bytes(r))
}

pub open spec fn replica_table(s: Seq<ReplicaRecord>) -> Seq<u8> {
    enc_table(s, |r: ReplicaRecord| replica_bytes(r))
}

/// The object ids have the wire width.
pub open spec fn oids_fit(s: Seq<IdentityRecordV>) -> bool {
    forall|i: int| 0 <= i < s.len() ==> (#[trigger] s[i]).oid.len() == 16
}

/// The records of an identity table from `pos` on.
pub open spec fn identities_at(b: Seq<u8>, pos: int, n: nat) -> Seq<IdentityRecordV> {
    Seq::new(n, |i: int| identity_at(b, pos + 24 * i))
}

pub open spec fn replicas_at(b: Seq<u8>, pos: int, n: nat) -> Seq<ReplicaRecord> {
    Seq::new(n, |i: int| replica_at(b, pos + 24 * i))
}

pub proof fn lemma_replica_len(r: ReplicaRecord)
    ensures
        replica_bytes(r).len() == 24,
{
    lemma_le_len(r.lid.0 as nat, 8);
    lemma_le_len(r.node.0 as nat, 8);
    lemma_le_len(r.rid.0 as nat, 8);
}

/// A written replica table reads back as its records.
pub proof fn lemma_replica_table(b: Seq<u8>, pos: int, label: Seq<char>, s: Seq<ReplicaRecord>)
    requires
        s.len() <= u32::MAX,
        has_at(b, pos, replica_table(s)),
    ensures
        p_count(b, pos, label, 24) == Ok::<u32, ErrV>(s.len() as u32),
        replica_table(s).len() == 4 + 24 * s.len(),
        replicas_at(b, pos + 4, s.len()) == s,
{
    let f = |r: ReplicaRecord| replica_bytes(r);
    assert forall|x: ReplicaRecord| (#[trigger] f(x)).len() == 24 by {
        lemma_replica_len(x);
    }
    lemma_p_table(b, pos, label, s, f, 24);
    assert forall|i: int| 0 <= i < s.len() implies #[trigger] replicas_at(b, pos + 4, s.len())[i]
        == s[i] by {
        let r = s[i];
        let p = pos + 4 + 24 * i;
        assert(has_at(b, p, f(s[i])));
        lemma_le_len(r.lid.0 as nat, 8);
        lemma_le_len(r.node.0 as nat, 8);
        lemma_le_len(r.rid.0 as nat, 8);
        lemma_has_split(
            b,
            p,
            le(r.lid.0 as nat, 8) + le(r.node.0 as nat, 8),
            le(r.rid.0 as nat, 8),
        );
        lemma_has_split(b, p, le(r.lid.0 as nat, 8), le(r.node.0 as nat, 8));
        lemma_has_is(b, p, le(r.lid.0 as nat, 8));
        lemma_has_is(b, p + 8, le(r.node.0 as nat, 8));
        lemma_has_is(b, p + 16, le(r.rid.0 as nat, 8));
        lemma_pow256();
        lemma_un_le_le(r.lid.0 as nat, 8);
        lemma_un_le_le(r.node.0 as nat, 8);
        lemma_un_le_le(r.rid.0 as nat, 8);
    }
    assert(replicas_at(b, pos + 4, s.len()) =~= s);
}

/// Encoding padded to the wire width, equal to the plain one on valid ids.
spec fn identity_padded(r: IdentityRecordV) -> Seq<u8> {
    if r.oid.len() == 16 {
        identity_bytes(r)
    } else {
        Seq::new(24, |i: int| 0u8)
    }
}

proof fn lemma_padded(s: Seq<IdentityRecordV>)
    requires
        oids_fit(s),
    ensures
        enc_all(s, |r: IdentityRecordV| identity_bytes(r)) == enc_all(
            s,
            |r: IdentityRecordV| identity_padded(r),
        ),
    decreases s.len(),
{
    if s.len() > 0 {
        assert(oids_fit(s.drop_last())) by {
            assert forall|i: int| 0 <= i < s.drop_last().len() implies (
            #[trigger] s.drop_last()[i]).oid.len() == 16 by {
                assert(s.drop_last()[i] == s[i]);
            }
        }
        lemma_padded(s.drop_last());
        assert(s.last() == s[s.len() - 1]);
    }
}

/// A written identity table reads back as its records.
pub proof fn lemma_identity_table(b: Seq<u8>, pos: int, label: Seq<char>, s: Seq<IdentityRecordV>)
    requires
        s.len() <= u32::MAX,
        oids_fit(s),
        has_at(b, pos, identity_table(s)),
    ensures
        p_count(b, pos, label, 24) == Ok::<u32, ErrV>(s.len() as u32),
        identity_table(s).len() == 4 + 24 * s.len(),
        identities_at(b, pos + 4, s.len()) == s,
{
    let f = |r: IdentityRecordV| identity_padded(r);
    lemma_padded(s);
    assert forall|x: IdentityRecordV| (#[trigger] f(x)).len() == 24 by {
        lemma_le_len(x.lid.0 as nat, 8);
    }
    lemma_p_table(b, pos, label, s, f, 24);
    assert forall|i: int| 0 <= i < s.len() implies #[trigger] identities_at(b, pos + 4, s.len())[i]
        == s[i] by {
        let r = s[i];
        let p = pos + 4 + 24 * i;
        assert(has_at(b, p, f(s[i])));
        lemma_le_len(r.lid.0 as nat, 8);
        lemma_has_split(b, p, r.oid, le(r.lid.0 as nat, 8));
        lemma_has_is(b, p, r.oid);
        lemma_has_is(b, p + 16, le(r.lid.0 as nat, 8));
        lemma_pow256();
        lemma_un_le_le(r.lid.0 as nat, 8);
        assert(identity_at(b, p) =~= r);
    }
    assert(identities_at(b, pos + 4, s.len()) =~= s);
}

pub fn push_identities(out: &mut Vec<u8>, records: &Vec<IdentityRecord>)
    ensures
        final(out)@ == old(out)@ + identity_table(identity_view(records@)),
{
    let ghost start = out@;
    push_u32(out, records.len() as u32);
    let ghost head = out@;
    let ghost all = identity_view(records@);
    let ghost f = |r: IdentityRecordV| identity_bytes(r);
    let mut i: usize = 0;
    assert(out@ =~= head + enc_all(all.take(0), f));
    while i < records.len()
        invariant
            i <= records@.len(),
            all == identity_view(records@),
            f == (|r: IdentityRecordV| identity_bytes(r)),
            out@ == head + enc_all(all.take(i as int), f),
        decreases records@.len() - i,
    {
        push_bytes(out, records[i].oid.0.as_slice());
        push_u64(out, records[i].lid.0);
        i += 1;
        assert(all.take(i as int).drop_last() =~= all.take(i - 1));
        assert(out@ =~= head + enc_all(all.take(i as int), f));
    }
    assert(all.take(i as int) =~= all);
    assert(out@ =~= start + identity_table(all));
}

pub fn push_replicas(out: &mut Vec<u8>, records: &Vec<ReplicaRecord>)
    ensures
        final(out)@ == old(out)@ + replica_table(records@),
{
    let ghost start = out@;
    push_u32(out, records.len() as u32);
    let ghost head = out@;
    let ghost all = records@;
    let ghost f = |r: ReplicaRecord| replica_bytes(r);
    let mut i: usize = 0;
    assert(out@ =~= head + enc_all(all.take(0), f));
    while i < records.len()
        invariant
            i <= records@.len(),
            all == records@,
            f == (|r: ReplicaRecord| replica_bytes(r)),
            out@ == head + enc_all(all.take(i as int), f),
        decreases records@.len() - i,
    {
        push_u64(out, records[i].lid.0);
        push_u64(out, records[i].node.0);
        push_u64(out, records[i].rid.0);
        i += 1;
        assert(all.take(i as int).drop_last() =~= all.take(i - 1));
        assert(out@ =~= head + enc_all(all.take(i as int), f));
    }
    assert(all.take(i as int) =~= all);
    assert(out@ =~= start + replica_table(all));
}

/// Reads `n` identity records that are known to be there.
pub fn read_identities(cur: &mut Cursor<'_>, n: u32) -> (r: Vec<IdentityRecord>)
    requires
        old(cur).wf(),
        old(cur).pos + 24 * n <= old(cur).bytes@.len(),
    ensures
        final(cur).wf(),
        final(cur).bytes == old(cur).bytes,
        final(cur).pos == old(cur).pos + 24 * n,
        identity_view(r@) == identities_at(old(cur).bytes@, old(cur).pos as int, n as nat),
{
    let ghost b = cur.bytes@;
    let ghost p0 = cur.pos as int;
    let bytes = cur.bytes;
    let mut out: Vec<IdentityRecord> = Vec::new();
    let mut i: u32 = 0;
    let mut p: usize = cur.pos;
    let total: usize = bytes.len();
    while i < n
        invariant
            i <= n,
            p0 + 24 * n <= total == b.len(),
            bytes@ == b,
            p == p0 + 24 * i,
            out@.len() == i,
            identity_view(out@) =~= identities_at(b, p0, i as nat),
        decreases n - i,
    {
        let oid = ObjectId::from_bytes(array16(&bytes[p..p + 16]));
        let lid = LogicalId(read_le(&bytes[p + 16..p + 24]));
        let rec = IdentityRecord { oid, lid };
        assert(rec@ =~= identity_at(b, p as int));
        let ghost before = out@;
        out.push(rec);
        assert(identity_view(out@) =~= identity_view(before).push(rec@));
        p = p + 24;
        i += 1;
    }
    cur.pos = p;
    out
}

/// Reads `n` replica records that are known to be there.
pub fn read_replicas(cur: &mut Cursor<'_>, n: u32) -> (r: Vec<ReplicaRecord>)
    requires
        old(cur).wf(),
        old(cur).pos + 24 * n <= old(cur).bytes@.len(),
    ensures
        final(cur).wf(),
        final(cur).bytes == old(cur).bytes,
        final(cur).pos == old(cur).pos + 24 * n,
        r@ == replicas_at(old(cur).bytes@, old(cur).pos as int, n as nat),
{
    let ghost b = cur.bytes@;
    let ghost p0 = cur.pos as int;
    let bytes = cur.bytes;
    let mut out: Vec<ReplicaRecord> = Vec::new();
    let mut i: u32 = 0;
    let mut p: usize = cur.pos;
    let total: usize = bytes.len();
    while i < n
        invariant
            i <= n,
            p0 + 24 * n <= total == b.len(),
            bytes@ == b,
            p == p0 + 24 * i,
            out@ =~= replicas_at(b, p0, i as nat),
        decreases n - i,
    {
        let lid = LogicalId(read_le(&bytes[p..p + 8]));
        let node = NodeId(read_le(&bytes[p + 8..p + 16]));
        let rid = ReplicaId(read_le(&bytes[p + 16..p + 24]));
        out.push(ReplicaRecord { lid, node, rid });
        p = p + 24;
        i += 1;
    }
    cur.pos = p;
    out
}

// ---------------------------------------------------------------------------
// Logs
pub open spec fn identity_log_body(l: IdentityLogV) -> Seq<u8> {
    file_head(IDENTITY_MAGIC@, l.format_version, l.generation) + identity_table(l.records)
}

/// The encoded identity log.
pub open spec fn identity_log_bytes(l: IdentityLogV) -> Seq<u8> {
    identity_log_body(l) + ck8(identity_log_body(l))
}

/// What stored identity-log bytes mean.
pub open spec fn identity_log_of(b: Seq<u8>) -> Result<IdentityLogV, ErrV> {
    match p_file_head(b, "identity log"@, IDENTITY_MAGIC@) {
        Err(e) => Err(e),
        Ok(generation) => match p_count(b, 14, "identity log record_count"@, 24) {
            Err(e) => Err(e),
            Ok(n) => match p_file_end(b, 18 + 24 * n, "identity log"@) {
                Err(e) => Err(e),
                Ok(_) => Ok(
                    IdentityLogV {
                        format_version: FORMAT_VERSION,
                        generation,
                        records: identities_at(b, 18, n as nat),
                    },
                ),
            },
        },
    }
}

pub open spec fn replica_log_body(l: ReplicaLogV) -> Seq<u8> {
    file_head(REPLICA_MAGIC@, l.format_version, l.generation) + replica_table(l.records)
}

/// The encoded replica log.
pub open spec fn replica_log_bytes(l: ReplicaLogV) -> Seq<u8> {
    replica_log_body(l) + ck8(replica_log_body(l))
}

/// What stored replica-log bytes mean.
pub open spec fn replica_log_of(b: Seq<u8>) -> Result<ReplicaLogV, ErrV> {
    match p_file_head(b, "replica log"@, REPLICA_MAGIC@) {
        Err(e) => Err(e),
        Ok(generation) => match p_count(b, 14, "replica log record_count"@, 24) {
            Err(e) => Err(e),
            Ok(n) => match p_file_end(b, 18 + 24 * n, "replica log"@) {
                Err(e) => Err(e),
                Ok(_) => Ok(
                    ReplicaLogV {
                        format_version: FORMAT_VERSION,
                        generation,
                        records: replicas_at(b, 18, n as nat),
                    },
                ),
            },
        },
    }
}

impl IdentityLog {
    pub fn encode(&self) -> (r: Vec<u8>)
        ensures
            r@ == identity_log_bytes(self@),
    {
        let mut bytes: Vec<u8> = Vec::new();
        push_file_head(
            &mut bytes,
            IDENTITY_MAGIC.as_slice(),
            self.format_version,
            self.generation,
        );
        push_identities(&mut bytes, &self.records);
        assert(bytes@ =~= identity_log_body(self@));
        push_checksum(&mut bytes);
        bytes
    }

    pub fn decode(bytes: &[u8]) -> (r: Result<Self, FormatError>)
        ensures
            rv(r) == identity_log_of(bytes@),
    {
        let mut cur = Cursor::new(bytes);
        let generation = read_file_head(&mut cur, "identity log", IDENTITY_MAGIC.as_slice())?;
        let n = read_count(&mut cur, "identity log record_count", IDENTITY_RECORD_LEN)?;
        let records = read_identities(&mut cur, n);
        match read_file_end(&mut cur, "identity log") {
            Ok(_) => {},
            Err(e) => {
                return Err(e);
            },
        }
        Ok(IdentityLog { format_version: FORMAT_VERSION, generation, records })
    }
}

impl ReplicaLog {
    pub fn encode(&self) -> (r: Vec<u8>)
        ensures
            r@ == replica_log_bytes(self@),
    {
        let mut bytes: Vec<u8> = Vec::new();
        push_file_head(
            &mut bytes,
            REPLICA_MAGIC.as_slice(),
            self.format_version,
            self.generation,
        );
        push_replicas(&mut bytes, &self.records);
        assert(bytes@ =~= replica_log_body(self@));
        push_checksum(&mut bytes);
        bytes
    }

    pub fn decode(bytes: &[u8]) -> (r: Result<Self, FormatError>)
        ensures
            rv(r) == replica_log_of(bytes@),
    {
        let mut cur = Cursor::new(bytes);
        let generation = read_file_head(&mut cur, "replica log", REPLICA_MAGIC.as_slice())?;
        let n = read_count(&mut cur, "replica log record_count", REPLICA_RECORD_LEN)?;
        let records = read_replicas(&mut cur, n);
        match read_file_end(&mut cur, "replica log") {
            Ok(_) => {},
            Err(e) => {
                return Err(e);
            },
        }
        Ok(ReplicaLog { format_version: FORMAT_VERSION, generation, records })
    }
}

/// Reading back a written identity log gives the log; one of another format
/// version is refused as unsupported.
pub proof fn identity_log_round_trip(l: IdentityLogV)
    requires
        l.records.len() <= u32::MAX,
        oids_fit(l.records),
    ensures
        l.format_version == FORMAT_VERSION ==> identity_log_of(identity_log_bytes(l)) == Ok::<
            IdentityLogV,
            ErrV,
        >(l),
        l.format_version != FORMAT_VERSION ==> identity_log_of(identity_log_bytes(l)) == Err::<
            IdentityLogV,
            ErrV,
        >(unsupported_version("identity log"@, l.format_version)),
{
    let b = identity_log_bytes(l);
    let body = identity_log_body(l);
    let head = file_head(IDENTITY_MAGIC@, l.format_version, l.generation);
    lemma_has_all(b);
    lemma_has_split(b, 0, body, ck8(body));
    lemma_has_split(b, 0, head, identity_table(l.records));
    lemma_sealed(body);
    lemma_p_file_head(b, "identity log"@, IDENTITY_MAGIC@, l.format_version, l.generation);
    lemma_identity_table(b, 14, "identity log record_count"@, l.records);
    lemma_p_file_end(body, "identity log"@);
}

/// Reading back a written replica log gives the log; one of another format
/// version is refused as unsupported.
pub proof fn replica_log_round_trip(l: ReplicaLogV)
    requires
        l.records.len() <= u32::MAX,
    ensures
        l.format_version == FORMAT_VERSION ==> replica_log_of(replica_log_bytes(l)) == Ok::<
            ReplicaLogV,
            ErrV,
        >(l),
        l.format_version != FORMAT_VERSION ==> replica_log_of(replica_log_bytes(l)) == Err::<
            ReplicaLogV,
            ErrV,
        >(unsupported_version("replica log"@, l.format_version)),
{
    let b = replica_log_bytes(l);
    let body = replica_log_body(l);
    let head = file_head(REPLICA_MAGIC@, l.format_version, l.generation);
    lemma_has_all(b);
    lemma_has_split(b, 0, body, ck8(body));
    lemma_has_split(b, 0, head, replica_table(l.records));
    lemma_sealed(body);
    lemma_p_file_head(b, "replica log"@, REPLICA_MAGIC@, l.format_version, l.generation);
    lemma_replica_table(b, 14, "replica log record_count"@, l.records);
    lemma_p_file_end(body, "replica log"@);
}

// ---------------------------------------------------------------------------
// Listings and loading
/// The generation in an `IDENTITY-{generation}.log` name.
pub fn identity_log_generation(name: &str) -> (r: Option<u64>)
    ensures
        r == tagged_number(name@, "IDENTITY-"@, ".log"@),
{
    parse_tagged(name, "IDENTITY-", ".log")
}

/// The generation in a `REPLICA-{generation}.log` name.
pub fn replica_log_generation(name: &str) -> (r: Option<u64>)
    ensures
        r == tagged_number(name@, "REPLICA-"@, ".log"@),
{
    parse_tagged(name, "REPLICA-", ".log")
}

/// The identity logs of a listing at or below the current generation, oldest
/// first.
pub fn identity_log_generations(names: &Vec<String>, current_generation: u64) -> (r: Vec<u64>)
    ensures
        lists_numbers(r@, names@, "IDENTITY-"@, ".log"@, current_generation, false),
{
    list_numbers(names, "IDENTITY-", ".log", current_generation, false)
}

pub fn replica_log_generations(names: &Vec<String>, current_generation: u64) -> (r: Vec<u64>)
    ensures
        lists_numbers(r@, names@, "REPLICA-"@, ".log"@, current_generation, false),
{
    list_numbers(names, "REPLICA-", ".log", current_generation, false)
}

/// The identity logs of a listing past the current generation: a crash came
/// between their publication and that of the pointer. They are reported and
/// ignored; the write-ahead log still holds their records.
pub fn orphan_identity_logs(names: &Vec<String>, current_generation: u64) -> (r: Vec<u64>)
    ensures
        lists_numbers(r@, names@, "IDENTITY-"@, ".log"@, current_generation, true),
{
    list_numbers(names, "IDENTITY-", ".log", current_generation, true)
}

pub fn orphan_replica_logs(names: &Vec<String>, current_generation: u64) -> (r: Vec<u64>)
    ensures
        lists_numbers(r@, names@, "REPLICA-"@, ".log"@, current_generation, true),
{
    list_numbers(names, "REPLICA-", ".log", current_generation, true)
}

/// One log file: its generation by name, and its bytes or why they could not
/// be read.
pub struct LogFile {
    pub generation: u64,
    pub bytes: Result<Vec<u8>, String>,
}

/// The log of a file: it must read, decode, and carry the generation of its
/// name.
pub open spec fn identity_file_log(f: LogFile) -> Result<IdentityLogV, ErrV> {
    match f.bytes {
        Err(e) => Err(
            ErrV::Io("read IDENTITY-"@ + pad6(f.generation as nat) + ".log: "@ + e@),
        ),
        Ok(bytes) => match identity_log_of(bytes@) {
            Err(e) => Err(e),
            Ok(l) => if l.generation != f.generation {
                Err(
                    ErrV::Corrupt(
                        "IDENTITY-"@ + pad6(f.generation as nat) + ".log carries generation "@
                            + dec(l.generation as nat),
                    ),
                )
            } else {
                Ok(l)
            },
        },
    }
}

pub open spec fn replica_file_log(f: LogFile) -> Result<ReplicaLogV, ErrV> {
    match f.bytes {
        Err(e) => Err(ErrV::Io("read REPLICA-"@ + pad6(f.generation as nat) + ".log: "@ + e@)),
        Ok(bytes) => match replica_log_of(bytes@) {
            Err(e) => Err(e),
            Ok(l) => if l.generation != f.generation {
                Err(
                    ErrV::Corrupt(
                        "REPLICA-"@ + pad6(f.generation as nat) + ".log carries generation "@ + dec(
                            l.generation as nat,
                        ),
                    ),
                )
            } else {
                Ok(l)
            },
        },
    }
}

/// `r` is the loading of `files` in order: every log, or the first failure.
pub open spec fn loads_identity(r: Result<Vec<IdentityLog>, FormatError>, files: Seq<LogFile>) -> bool {
    match r {
        Ok(logs) => logs@.len() == files.len() && forall|i: int|
            0 <= i < files.len() ==> identity_file_log(#[trigger] files[i]) == Ok::<
                IdentityLogV,
                ErrV,
            >(logs@[i]@),
        Err(e) => exists|i: int|
            0 <= i < files.len() && identity_file_log(#[trigger] files[i]) == Err::<
                IdentityLogV,
                ErrV,
            >(e@) && forall|j: int| 0 <= j < i ==> identity_file_log(#[trigger] files[j]) is Ok,
    }
}

pub open spec fn loads_replica(r: Result<Vec<ReplicaLog>, FormatError>, files: Seq<LogFile>) -> bool {
    match r {
        Ok(logs) => logs@.len() == files.len() && forall|i: int|
            0 <= i < files.len() ==> replica_file_log(#[trigger] files[i]) == Ok::<
                ReplicaLogV,
                ErrV,
            >(logs@[i]@),
        Err(e) => exists|i: int|
            0 <= i < files.len() && replica_file_log(#[trigger] files[i]) == Err::<
                ReplicaLogV,
                ErrV,
            >(e@) && forall|j: int| 0 <= j < i ==> replica_file_log(#[trigger] files[j]) is Ok,
    }
}

/// Decodes the identity logs, oldest first. A damaged log fails closed:
/// identity cannot be recovered without it.
pub fn load_identity_logs(files: &Vec<LogFile>) -> (r: Result<Vec<IdentityLog>, FormatError>)
    ensures
        loads_identity(r, files@),
{
    let mut logs: Vec<IdentityLog> = Vec::new();
    let mut i: usize = 0;
    while i < files.len()
        invariant
            i <= files@.len(),
            logs@.len() == i,
            forall|j: int|
                0 <= j < i ==> identity_file_log(#[trigger] files@[j]) == Ok::<IdentityLogV, ErrV>(
                    logs@[j]@,
                ),
        decreases files@.len() - i,
    {
        let f = &files[i];
        let bytes = match &f.bytes {
            Ok(b) => b,
            Err(e) => {
                return Err(
                    FormatError::Io(
                        Text::new("read IDENTITY-").pad6(f.generation).lit(".log: ").lit(
                            e.as_str(),
                        ).done(),
                    ),
                );
            },
        };
        let log = match IdentityLog::decode(bytes.as_slice()) {
            Ok(l) => l,
            Err(e) => {
                return Err(e);
            },
        };
        if log.generation != f.generation {
            return Err(
                FormatError::Corrupt(
                    Text::new("IDENTITY-").pad6(f.generation).lit(".log carries generation ").num(
                        log.generation,
                    ).done(),
                ),
            );
        }
        logs.push(log);
        i += 1;
    }
    Ok(logs)
}

/// Decodes the replica logs, oldest first.
pub fn load_replica_logs(files: &Vec<LogFile>) -> (r: Result<Vec<ReplicaLog>, FormatError>)
    ensures
        loads_replica(r, files@),
{
    let mut logs: Vec<ReplicaLog> = Vec::new();
    let mut i: usize = 0;
    while i < files.len()
        invariant
            i <= files@.len(),
            logs@.len() == i,
            forall|j: int|
                0 <= j < i ==> replica_file_log(#[trigger] files@[j]) == Ok::<ReplicaLogV, ErrV>(
                    logs@[j]@,
                ),
        decreases files@.len() - i,
    {
        let f = &files[i];
        let bytes = match &f.bytes {
            Ok(b) => b,
            Err(e) => {
                return Err(
                    FormatError::Io(
                        Text::new("read REPLICA-").pad6(f.generation).lit(".log: ").lit(
                            e.as_str(),
                        ).done(),
                    ),
                );
            },
        };
        let log = match ReplicaLog::decode(bytes.as_slice()) {
            Ok(l) => l,
            Err(e) => {
                return Err(e);
            },
        };
        if log.generation != f.generation {
            return Err(
                FormatError::Corrupt(
                    Text::new("REPLICA-").pad6(f.generation).lit(".log carries generation ").num(
                        log.generation,
                    ).done(),
                ),
            );
        }
        logs.push(log);
        i += 1;
    }
    Ok(logs)
}

} // verus!
