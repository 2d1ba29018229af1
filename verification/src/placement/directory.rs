//! The placement directory: from a replica to where its row lies.
//!
//! Every placement carries a generation, and one rule governs all updates: a
//! newer generation is never replaced by an older one. An older record is
//! stale and ignored, an identical repeat is a no-op, and a different record
//! of the same generation fails closed.
//!
//! On disk, per-generation logs of fixed-width records (little-endian):
//! `AKPL | format_version u16 | generation u64 | record_count u32 |
//!  records (ReplicaId 8 | variant u8 | SegmentId 8 | BlockId 4 |
//!  entry_offset u32 | generation u64) | checksum8`

use crate::codec::{
    le, lemma_le_len, lemma_pow256, lemma_un_le_le, push_u32, push_u64, read_le, un_le,
};
use crate::format::{
    ck8, has_at, lemma_has_all, lemma_has_is, lemma_has_split, lemma_sealed,
    push_checksum, rv, unknown, unknown_error, Cursor, ErrV, FormatError, FORMAT_VERSION,
};
use crate::identity::directory::{log_name, LogFile};
use crate::identity::replica_id::ReplicaId;
use crate::idmap::{lists_map, lookup, IdMap};
use crate::listing::{list_numbers, lists_numbers};
use crate::placement::{BlockId, SegmentId};
use crate::table::{
    enc_all, enc_table, file_head, lemma_p_file_end, lemma_p_file_head, lemma_p_table, p_count,
    p_file_end, p_file_head, push_file_head, read_count, read_file_end, read_file_head,
    unsupported_version,
};
use crate::text::{dec, join, join_spec, pad6, parse_tagged, tagged_number, Text};
use std::collections::HashSet;
use vstd::prelude::*;
use vstd::std_specs::hash::group_hash_axioms;

verus! {

pub const PLACEMENT_MAGIC: [u8; 4] = [0x41, 0x4b, 0x50, 0x4c];

/// Replica 8, variant 1, segment 8, block 4, entry 4, generation 8: one width
/// for all variants.
pub const PLACEMENT_RECORD_LEN: usize = 33;

pub const VARIANT_MEMTABLE: u8 = 1;

pub const VARIANT_SEGMENT: u8 = 2;

pub const VARIANT_RETIRED: u8 = 3;

/// The physical location of one replica.
#[derive(Debug, Clone, Copy, PartialEq, Eq, Hash, Structural)]
pub struct PhysicalLocation {
    pub segment_id: SegmentId,
    pub block_id: BlockId,
    pub entry_offset: u32,
    pub generation: u64,
}

/// A row is first in the memtable, then in a segment, and at last retired.
#[derive(Debug, Clone, Copy, PartialEq, Eq, Structural)]
pub enum Placement {
    Memtable { generation: u64 },
    Segment(PhysicalLocation),
    Retired { generation: u64 },
}

/// The generation of a placement.
pub open spec fn gen_of(p: Placement) -> u64 {
    match p {
        Placement::Memtable { generation } => generation,
        Placement::Retired { generation } => generation,
        Placement::Segment(loc) => loc.generation,
    }
}

impl Placement {
    /// The generation that every variant carries.
    pub fn generation(self) -> (r: u64)
        ensures
            r == gen_of(self),
    {
        match self {
            Placement::Memtable { generation } => generation,
            Placement::Retired { generation } => generation,
            Placement::Segment(loc) => loc.generation,
        }
    }
}

/// One record: a replica's placement at the moment it was written.
#[derive(Debug, Clone, Copy, PartialEq, Eq, Structural)]
pub struct PlacementRecord {
    pub rid: ReplicaId,
    pub placement: Placement,
}

/// How one update resolved under the generation rule.
#[derive(Debug, Clone, Copy, PartialEq, Eq, Structural)]
pub enum ApplyOutcome {
    /// Inserted, or replaced a strictly older generation.
    Applied,
    /// An identical repeat.
    Duplicate,
    /// Older than the existing placement.
    Stale,
}

impl View for ApplyOutcome {
    type V = ApplyOutcome;

    open spec fn view(&self) -> ApplyOutcome {
        *self
    }
}

/// The generation rule.
pub open spec fn gate(existing: Option<Placement>, rid: ReplicaId, incoming: Placement) -> Result<
    ApplyOutcome,
    ErrV,
> {
    match existing {
        None => Ok(ApplyOutcome::Applied),
        Some(e) => if gen_of(e) > gen_of(incoming) {
            Ok(ApplyOutcome::Stale)
        } else if e == incoming {
            Ok(ApplyOutcome::Duplicate)
        } else if gen_of(e) < gen_of(incoming) {
            Ok(ApplyOutcome::Applied)
        } else {
            Err(
                ErrV::Corrupt(
                    "placement for replica ReplicaId("@ + dec(rid.0 as nat)
                        + ") changed at the same generation "@ + dec(gen_of(incoming) as nat),
                ),
            )
        },
    }
}

/// The map after an update: changed only where the rule applies it.
pub open spec fn placed(m: Map<u64, Placement>, rid: ReplicaId, p: Placement) -> Map<
    u64,
    Placement,
> {
    if gate(lookup(m, rid.0), rid, p) == Ok::<ApplyOutcome, ErrV>(ApplyOutcome::Applied) {
        m.insert(rid.0, p)
    } else {
        m
    }
}

/// The one place where the generation rule is decided: recovery, live writes
/// and replay all come through here.
pub fn merge_placement(
    placements: &mut IdMap<u64, Placement>,
    rid: ReplicaId,
    placement: Placement,
) -> (r: Result<ApplyOutcome, FormatError>)
    ensures
        rv(r) == gate(lookup(old(placements)@, rid.0), rid, placement),
        final(placements)@ == placed(old(placements)@, rid, placement),
{
    let incoming: u64 = placement.generation();
    match placements.get(rid.0) {
        None => {
            placements.insert(rid.0, placement);
            Ok(ApplyOutcome::Applied)
        },
        Some(existing) => {
            if existing.generation() > incoming {
                Ok(ApplyOutcome::Stale)
            } else if existing == placement {
                Ok(ApplyOutcome::Duplicate)
            } else if existing.generation() < incoming {
                placements.insert(rid.0, placement);
                Ok(ApplyOutcome::Applied)
            } else {
                Err(
                    FormatError::Corrupt(
                        Text::new("placement for replica ReplicaId(").num(rid.0).lit(
                            ") changed at the same generation ",
                        ).num(incoming).done(),
                    ),
                )
            }
        },
    }
}

/// An update never takes a replica back to an older generation, and touches no
/// other replica.
pub proof fn placement_never_regresses(
    m: Map<u64, Placement>,
    rid: ReplicaId,
    p: Placement,
    other: u64,
)
    ensures
        m.contains_key(rid.0) ==> placed(m, rid, p).contains_key(rid.0) && gen_of(
            placed(m, rid, p)[rid.0],
        ) >= gen_of(m[rid.0]),
        gate(lookup(m, rid.0), rid, p) is Ok ==> placed(m, rid, p).contains_key(rid.0) && gen_of(
            placed(m, rid, p)[rid.0],
        ) >= gen_of(p),
        other != rid.0 ==> lookup(placed(m, rid, p), other) == lookup(m, other),
{
}

/// Applying a record again changes nothing: once accepted, a repeat is a
/// duplicate or stale.
pub proof fn placement_repeat_is_noop(m: Map<u64, Placement>, rid: ReplicaId, p: Placement)
    requires
        gate(lookup(m, rid.0), rid, p) is Ok,
    ensures
        placed(placed(m, rid, p), rid, p) == placed(m, rid, p),
        gate(lookup(placed(m, rid, p), rid.0), rid, p) == Ok::<ApplyOutcome, ErrV>(
            ApplyOutcome::Duplicate,
        ) || gate(lookup(placed(m, rid, p), rid.0), rid, p) == Ok::<ApplyOutcome, ErrV>(
            ApplyOutcome::Stale,
        ),
{
}

/// Records that are accepted in either order lead to the same directory.
pub proof fn placement_order_is_free(
    m: Map<u64, Placement>,
    r1: ReplicaId,
    p1: Placement,
    r2: ReplicaId,
    p2: Placement,
)
    requires
        gate(lookup(m, r1.0), r1, p1) is Ok,
        gate(lookup(placed(m, r1, p1), r2.0), r2, p2) is Ok,
        gate(lookup(m, r2.0), r2, p2) is Ok,
        gate(lookup(placed(m, r2, p2), r1.0), r1, p1) is Ok,
    ensures
        placed(placed(m, r1, p1), r2, p2) == placed(placed(m, r2, p2), r1, p1),
{
    assert(placed(placed(m, r1, p1), r2, p2) =~= placed(placed(m, r2, p2), r1, p1));
}

/// What a segment location must satisfy against the manifest and the entry
/// count of its block (`None`: the segment has no such block).
pub open spec fn location_check(
    loc: PhysicalLocation,
    manifest_segment_ids: Set<u64>,
    block_entries: Option<u32>,
) -> Result<(), ErrV> {
    if !manifest_segment_ids.contains(loc.segment_id.0) {
        Err(
            ErrV::Corrupt(
                "placement references segment "@ + dec(loc.segment_id.0 as nat)
                    + " absent from the manifest"@,
            ),
        )
    } else {
        match block_entries {
            None => Err(
                ErrV::Corrupt(
                    "placement block "@ + dec(loc.block_id.0 as nat) + " past segment "@ + dec(
                        loc.segment_id.0 as nat,
                    ) + "'s blocks"@,
                ),
            ),
            Some(entries) => if loc.entry_offset >= entries {
                Err(
                    ErrV::Corrupt(
                        "placement entry "@ + dec(loc.entry_offset as nat) + " past block "@ + dec(
                            loc.block_id.0 as nat,
                        ) + "'s "@ + dec(entries as nat) + " entries"@,
                    ),
                )
            } else {
                Ok(())
            },
        }
    }
}

pub fn validate_segment_location(
    loc: &PhysicalLocation,
    manifest_segment_ids: &HashSet<u64>,
    block_entries: Option<u32>,
) -> (r: Result<(), FormatError>)
    ensures
        rv(r) == location_check(*loc, manifest_segment_ids@, block_entries),
{
    broadcast use group_hash_axioms;

    if !manifest_segment_ids.contains(&loc.segment_id.0) {
        return Err(
            FormatError::Corrupt(
                Text::new("placement references segment ").num(loc.segment_id.0).lit(
                    " absent from the manifest",
                ).done(),
            ),
        );
    }
    match block_entries {
        None => Err(
            FormatError::Corrupt(
                Text::new("placement block ").num(loc.block_id.0 as u64).lit(" past segment ").num(
                    loc.segment_id.0,
                ).lit("'s blocks").done(),
            ),
        ),
        Some(entries) => {
            if loc.entry_offset >= entries {
                return Err(
                    FormatError::Corrupt(
                        Text::new("placement entry ").num(loc.entry_offset as u64).lit(
                            " past block ",
                        ).num(loc.block_id.0 as u64).lit("'s ").num(entries as u64).lit(
                            " entries",
                        ).done(),
                    ),
                );
            }
            Ok(())
        },
    }
}

// ---------------------------------------------------------------------------
// Records and logs
/// The variant byte, the three placement fields (zero but in a segment), the
/// generation.
pub open spec fn placement_fields(p: Placement) -> (u8, u64, u32, u32, u64) {
    match p {
        Placement::Memtable { generation } => (VARIANT_MEMTABLE, 0, 0, 0, generation),
        Placement::Segment(loc) => (
            VARIANT_SEGMENT,
            loc.segment_id.0,
            loc.block_id.0,
            loc.entry_offset,
            loc.generation,
        ),
        Placement::Retired { generation } => (VARIANT_RETIRED, 0, 0, 0, generation),
    }
}

pub open spec fn placement_bytes(r: PlacementRecord) -> Seq<u8> {
    let f = placement_fields(r.placement);
    le(r.rid.0 as nat, 8) + seq![f.0] + le(f.1 as nat, 8) + le(f.2 as nat, 4) + le(f.3 as nat, 4)
        + le(f.4 as nat, 8)
}

/// The placement record at `p`.
pub open spec fn placement_at(b: Seq<u8>, p: int, label: Seq<char>) -> Result<
    PlacementRecord,
    ErrV,
> {
    let rid = ReplicaId(un_le(b.subrange(p, p + 8)) as u64);
    let variant = b[p + 8];
    let generation = un_le(b.subrange(p + 25, p + 33)) as u64;
    if variant == VARIANT_MEMTABLE {
        Ok(PlacementRecord { rid, placement: Placement::Memtable { generation } })
    } else if variant == VARIANT_SEGMENT {
        Ok(
            PlacementRecord {
                rid,
                placement: Placement::Segment(
                    PhysicalLocation {
                        segment_id: SegmentId(un_le(b.subrange(p + 9, p + 17)) as u64),
                        block_id: BlockId(un_le(b.subrange(p + 17, p + 21)) as u32),
                        entry_offset: un_le(b.subrange(p + 21, p + 25)) as u32,
                        generation,
                    },
                ),
            },
        )
    } else if variant == VARIANT_RETIRED {
        Ok(PlacementRecord { rid, placement: Placement::Retired { generation } })
    } else {
        Err(unknown(b, label + " variant byte "@ + dec(variant as nat)))
    }
}

/// `n` placement records from `pos` on, or the first that is unsupported.
pub open spec fn placements_at(b: Seq<u8>, pos: int, n: nat, label: Seq<char>) -> Result<
    Seq<PlacementRecord>,
    ErrV,
>
    decreases n,
{
    if n == 0 {
        Ok(seq![])
    } else {
        match placements_at(b, pos, (n - 1) as nat, label) {
            Err(e) => Err(e),
            Ok(front) => match placement_at(b, pos + 33 * (n - 1), label) {
                Err(e) => Err(e),
                Ok(r) => Ok(front.push(r)),
            },
        }
    }
}

pub open spec fn placement_table(s: Seq<PlacementRecord>) -> Seq<u8> {
    enc_table(s, |r: PlacementRecord| placement_bytes(r))
}

proof fn lemma_placement_len(r: PlacementRecord)
    ensures
        placement_bytes(r).len() == 33,
{
    let f = placement_fields(r.placement);
    lemma_le_len(r.rid.0 as nat, 8);
    lemma_le_len(f.1 as nat, 8);
    lemma_le_len(f.2 as nat, 4);
    lemma_le_len(f.3 as nat, 4);
    lemma_le_len(f.4 as nat, 8);
}

proof fn lemma_placement_at(b: Seq<u8>, p: int, r: PlacementRecord, label: Seq<char>)
    requires
        has_at(b, p, placement_bytes(r)),
    ensures
        placement_at(b, p, label) == Ok::<PlacementRecord, ErrV>(r),
{
    lemma_placement_len(r);
    let f = placement_fields(r.placement);
    let w1 = le(r.rid.0 as nat, 8);
    let w2 = w1 + seq![f.0];
    let w3 = w2 + le(f.1 as nat, 8);
    let w4 = w3 + le(f.2 as nat, 4);
    let w5 = w4 + le(f.3 as nat, 4);
    lemma_le_len(r.rid.0 as nat, 8);
    lemma_le_len(f.1 as nat, 8);
    lemma_le_len(f.2 as nat, 4);
    lemma_le_len(f.3 as nat, 4);
    lemma_le_len(f.4 as nat, 8);
    lemma_has_split(b, p, w5, le(f.4 as nat, 8));
    lemma_has_split(b, p, w4, le(f.3 as nat, 4));
    lemma_has_split(b, p, w3, le(f.2 as nat, 4));
    lemma_has_split(b, p, w2, le(f.1 as nat, 8));
    lemma_has_split(b, p, w1, seq![f.0]);
    lemma_has_is(b, p, w1);
    lemma_has_is(b, p + 8, seq![f.0]);
    lemma_has_is(b, p + 9, le(f.1 as nat, 8));
    lemma_has_is(b, p + 17, le(f.2 as nat, 4));
    lemma_has_is(b, p + 21, le(f.3 as nat, 4));
    lemma_has_is(b, p + 25, le(f.4 as nat, 8));
    assert(b.subrange(p + 8, p + 9)[0] == b[p + 8]);
    lemma_pow256();
    lemma_un_le_le(r.rid.0 as nat, 8);
    lemma_un_le_le(f.1 as nat, 8);
    lemma_un_le_le(f.2 as nat, 4);
    lemma_un_le_le(f.3 as nat, 4);
    lemma_un_le_le(f.4 as nat, 8);
}

proof fn lemma_placements_at(b: Seq<u8>, pos: int, s: Seq<PlacementRecord>, n: nat, label: Seq<char>)
    requires
        n <= s.len(),
        forall|i: int| #![trigger s[i]] 0 <= i < s.len() ==> has_at(b, pos + 33 * i, placement_bytes(s[i])),
    ensures
        placements_at(b, pos, n, label) == Ok::<Seq<PlacementRecord>, ErrV>(s.take(n as int)),
    decreases n,
{
    if n > 0 {
        lemma_placements_at(b, pos, s, (n - 1) as nat, label);
        lemma_placement_at(b, pos + 33 * (n - 1), s[n - 1], label);
        assert(s.take(n as int) =~= s.take(n - 1).push(s[n - 1]));
    } else {
        assert(s.take(0) =~= seq![]);
    }
}

/// A written placement table reads back as its records.
pub proof fn lemma_placement_table(
    b: Seq<u8>,
    pos: int,
    count_label: Seq<char>,
    label: Seq<char>,
    s: Seq<PlacementRecord>,
)
    requires
        s.len() <= u32::MAX,
        has_at(b, pos, placement_table(s)),
    ensures
        p_count(b, pos, count_label, 33) == Ok::<u32, ErrV>(s.len() as u32),
        placement_table(s).len() == 4 + 33 * s.len(),
        placements_at(b, pos + 4, s.len(), label) == Ok::<Seq<PlacementRecord>, ErrV>(s),
{
    let f = |r: PlacementRecord| placement_bytes(r);
    assert forall|x: PlacementRecord| (#[trigger] f(x)).len() == 33 by {
        lemma_placement_len(x);
    }
    lemma_p_table(b, pos, count_label, s, f, 33);
    assert forall|i: int| #![trigger s[i]] 0 <= i < s.len() implies has_at(
        b,
        pos + 4 + 33 * i,
        placement_bytes(s[i]),
    ) by {
        assert(has_at(b, pos + 4 + 33 * i, f(s[i])));
    }
    lemma_placements_at(b, pos + 4, s, s.len(), label);
    assert(s.take(s.len() as int) =~= s);
}

pub fn push_placements(out: &mut Vec<u8>, records: &Vec<PlacementRecord>)
    ensures
        final(out)@ == old(out)@ + placement_table(records@),
{
    let ghost start = out@;
    push_u32(out, records.len() as u32);
    let ghost head = out@;
    let ghost all = records@;
    let ghost f = |r: PlacementRecord| placement_bytes(r);
    let mut i: usize = 0;
    assert(out@ =~= head + enc_all(all.take(0), f));
    while i < records.len()
        invariant
            i <= records@.len(),
            all == records@,
            f == (|r: PlacementRecord| placement_bytes(r)),
            out@ == head + enc_all(all.take(i as int), f),
        decreases records@.len() - i,
    {
        let rec = records[i];
        let fields = match rec.placement {
            Placement::Memtable { generation } => (VARIANT_MEMTABLE, 0u64, 0u32, 0u32, generation),
            Placement::Segment(loc) => (
                VARIANT_SEGMENT,
                loc.segment_id.0,
                loc.block_id.0,
                loc.entry_offset,
                loc.generation,
            ),
            Placement::Retired { generation } => (VARIANT_RETIRED, 0u64, 0u32, 0u32, generation),
        };
        push_u64(out, rec.rid.0);
        out.push(fields.0);
        push_u64(out, fields.1);
        push_u32(out, fields.2);
        push_u32(out, fields.3);
        push_u64(out, fields.4);
        i += 1;
        assert(all.take(i as int).drop_last() =~= all.take(i - 1));
        assert(out@ =~= head + enc_all(all.take(i as int), f));
    }
    assert(all.take(i as int) =~= all);
    assert(out@ =~= start + placement_table(all));
}

proof fn lemma_placements_err(b: Seq<u8>, pos: int, i: nat, n: nat, label: Seq<char>)
    requires
        i <= n,
        placements_at(b, pos, i, label) is Err,
    ensures
        placements_at(b, pos, n, label) == placements_at(b, pos, i, label),
    decreases n,
{
    if i < n {
        lemma_placements_err(b, pos, i, (n - 1) as nat, label);
    }
}

/// Reads `n` placement records for which there is room.
pub fn read_placements(cur: &mut Cursor<'_>, n: u32, label: &str) -> (r: Result<
    Vec<PlacementRecord>,
    FormatError,
>)
    requires
        old(cur).wf(),
        old(cur).pos + 33 * n <= old(cur).bytes@.len(),
    ensures
        final(cur).wf(),
        final(cur).bytes == old(cur).bytes,
        rv(r) == placements_at(old(cur).bytes@, old(cur).pos as int, n as nat, label@),
        r is Ok ==> final(cur).pos == old(cur).pos + 33 * n,
{
    let ghost b = cur.bytes@;
    let ghost p0 = cur.pos as int;
    let bytes = cur.bytes;
    let mut out: Vec<PlacementRecord> = Vec::new();
    let mut i: u32 = 0;
    let mut p: usize = cur.pos;
    let total: usize = bytes.len();
    while i < n
        invariant
            i <= n,
            cur.wf(),
            cur.bytes == old(cur).bytes,
            p0 + 33 * n <= total == b.len(),
            bytes@ == b,
            b == old(cur).bytes@,
            p0 == old(cur).pos,
            p == p0 + 33 * i,
            placements_at(b, p0, i as nat, label@) == Ok::<Seq<PlacementRecord>, ErrV>(out@),
        decreases n - i,
    {
        let rid = ReplicaId(read_le(&bytes[p..p + 8]));
        let variant: u8 = bytes[p + 8];
        let generation: u64 = read_le(&bytes[p + 25..p + 33]);
        let placement = if variant == VARIANT_MEMTABLE {
            Placement::Memtable { generation }
        } else if variant == VARIANT_SEGMENT {
            proof {
                lemma_pow256();
            }
            Placement::Segment(
                PhysicalLocation {
                    segment_id: SegmentId(read_le(&bytes[p + 9..p + 17])),
                    block_id: BlockId(read_le(&bytes[p + 17..p + 21]) as u32),
                    entry_offset: read_le(&bytes[p + 21..p + 25]) as u32,
                    generation,
                },
            )
        } else if variant == VARIANT_RETIRED {
            Placement::Retired { generation }
        } else {
            proof {
                lemma_placements_err(b, p0, (i + 1) as nat, n as nat, label@);
            }
            return Err(
                unknown_error(
                    bytes,
                    Text::new(label).lit(" variant byte ").num(variant as u64).done(),
                ),
            );
        };
        out.push(PlacementRecord { rid, placement });
        p = p + 33;
        i += 1;
    }
    cur.pos = p;
    Ok(out)
}

#[derive(Debug, Clone, PartialEq, Eq)]
pub struct PlacementLog {
    pub format_version: u16,
    pub generation: u64,
    pub records: Vec<PlacementRecord>,
}

/// A placement log as a value.
#[verifier::ext_equal]
pub struct PlacementLogV {
    pub format_version: u16,
    pub generation: u64,
    pub records: Seq<PlacementRecord>,
}

impl View for PlacementLog {
    type V = PlacementLogV;

    open spec fn view(&self) -> PlacementLogV {
        PlacementLogV {
            format_version: self.format_version,
            generation: self.generation,
            records: self.records@,
        }
    }
}

pub fn placement_log_path(dir: &str, generation: u64) -> (r: String)
    ensures
        r@ == join_spec(dir@, log_name("PLACEMENT-"@, generation)),
{
    let name = Text::new("PLACEMENT-").pad6(generation).lit(".log").done();
    join(dir, name.as_str())
}

pub open spec fn placement_log_body(l: PlacementLogV) -> Seq<u8> {
    file_head(PLACEMENT_MAGIC@, l.format_version, l.generation) + placement_table(l.records)
}

/// The encoded placement log.
pub open spec fn placement_log_bytes(l: PlacementLogV) -> Seq<u8> {
    placement_log_body(l) + ck8(placement_log_body(l))
}

/// What stored placement-log bytes mean.
pub open spec fn placement_log_of(b: Seq<u8>) -> Result<PlacementLogV, ErrV> {
    match p_file_head(b, "placement log"@, PLACEMENT_MAGIC@) {
        Err(e) => Err(e),
        Ok(generation) => match p_count(b, 14, "placement log record_count"@, 33) {
            Err(e) => Err(e),
            Ok(n) => match placements_at(b, 18, n as nat, "placement"@) {
                Err(e) => Err(e),
                Ok(records) => match p_file_end(b, 18 + 33 * n, "placement log"@) {
                    Err(e) => Err(e),
                    Ok(_) => Ok(
                        PlacementLogV { format_version: FORMAT_VERSION, generation, records },
                    ),
                },
            },
        },
    }
}

impl PlacementLog {
    pub fn encode(&self) -> (r: Vec<u8>)
        ensures
            r@ == placement_log_bytes(self@),
    {
        let mut bytes: Vec<u8> = Vec::new();
        push_file_head(
            &mut bytes,
            PLACEMENT_MAGIC.as_slice(),
            self.format_version,
            self.generation,
        );
        push_placements(&mut bytes, &self.records);
        assert(bytes@ =~= placement_log_body(self@));
        push_checksum(&mut bytes);
        bytes
    }

    pub fn decode(bytes: &[u8]) -> (r: Result<Self, FormatError>)
        ensures
            rv(r) == placement_log_of(bytes@),
    {
        let mut cur = Cursor::new(bytes);
        let generation = read_file_head(&mut cur, "placement log", PLACEMENT_MAGIC.as_slice())?;
        let n = read_count(&mut cur, "placement log record_count", PLACEMENT_RECORD_LEN)?;
        let records = read_placements(&mut cur, n, "placement")?;
        match read_file_end(&mut cur, "placement log") {
            Ok(_) => {},
            Err(e) => {
                return Err(e);
            },
        }
        Ok(PlacementLog { format_version: FORMAT_VERSION, generation, records })
    }

    /// The length of the encoding, without encoding.
    pub fn encoded_len(&self) -> (r: usize)
        requires
            26 + 33 * self.records@.len() <= usize::MAX,
        ensures
            r == placement_log_bytes(self@).len(),
    {
        proof {
            lemma_log_len(self@);
        }
        18 + self.records.len() * PLACEMENT_RECORD_LEN + 8
    }
}

proof fn lemma_log_len(l: PlacementLogV)
    ensures
        placement_log_bytes(l).len() == 26 + 33 * l.records.len(),
{
    let f = |r: PlacementRecord| placement_bytes(r);
    assert forall|x: PlacementRecord| (#[trigger] f(x)).len() == 33 by {
        lemma_placement_len(x);
    }
    let body = enc_all(l.records, f);
    lemma_has_all(body);
    crate::table::lemma_enc_all(body, 0, l.records, f, 33);
    lemma_le_len((l.records.len() as u32) as nat, 4);
    lemma_le_len(l.format_version as nat, 2);
    lemma_le_len(l.generation as nat, 8);
}

/// Reading back a written placement log gives the log; one of another format
/// version is refused as unsupported.
pub proof fn placement_log_round_trip(l: PlacementLogV)
    requires
        l.records.len() <= u32::MAX,
    ensures
        l.format_version == FORMAT_VERSION ==> placement_log_of(placement_log_bytes(l)) == Ok::<
            PlacementLogV,
            ErrV,
        >(l),
        l.format_version != FORMAT_VERSION ==> placement_log_of(placement_log_bytes(l)) == Err::<
            PlacementLogV,
            ErrV,
        >(unsupported_version("placement log"@, l.format_version)),
{
    let b = placement_log_bytes(l);
    let body = placement_log_body(l);
    let head = file_head(PLACEMENT_MAGIC@, l.format_version, l.generation);
    lemma_has_all(b);
    lemma_has_split(b, 0, body, ck8(body));
    lemma_has_split(b, 0, head, placement_table(l.records));
    lemma_sealed(body);
    lemma_p_file_head(b, "placement log"@, PLACEMENT_MAGIC@, l.format_version, l.generation);
    lemma_placement_table(b, 14, "placement log record_count"@, "placement"@, l.records);
    lemma_p_file_end(body, "placement log"@);
}

// ---------------------------------------------------------------------------
// Listings and loading
/// The generation in a `PLACEMENT-{generation}.log` name.
pub fn placement_log_generation(name: &str) -> (r: Option<u64>)
    ensures
        r == tagged_number(name@, "PLACEMENT-"@, ".log"@),
{
    parse_tagged(name, "PLACEMENT-", ".log")
}

/// The placement logs of a listing at or below the current generation, oldest
/// first.
pub fn placement_log_generations(names: &Vec<String>, current_generation: u64) -> (r: Vec<u64>)
    ensures
        lists_numbers(r@, names@, "PLACEMENT-"@, ".log"@, current_generation, false),
{
    list_numbers(names, "PLACEMENT-", ".log", current_generation, false)
}

/// The placement logs of a listing past the current generation.
pub fn orphan_placement_logs(names: &Vec<String>, current_generation: u64) -> (r: Vec<u64>)
    ensures
        lists_numbers(r@, names@, "PLACEMENT-"@, ".log"@, current_generation, true),
{
    list_numbers(names, "PLACEMENT-", ".log", current_generation, true)
}

/// The log of a file: it must read, decode, and carry the generation of its
/// name.
pub open spec fn placement_file_log(f: LogFile) -> Result<PlacementLogV, ErrV> {
    match f.bytes {
        Err(e) => Err(
            ErrV::Io("read PLACEMENT-"@ + pad6(f.generation as nat) + ".log: "@ + e@),
        ),
        Ok(bytes) => match placement_log_of(bytes@) {
            Err(e) => Err(e),
            Ok(l) => if l.generation != f.generation {
                Err(
                    ErrV::Corrupt(
                        "PLACEMENT-"@ + pad6(f.generation as nat) + ".log carries generation "@
                            + dec(l.generation as nat),
                    ),
                )
            } else {
                Ok(l)
            },
        },
    }
}

/// `r` is the loading of `files` in order: every log, or the first failure.
pub open spec fn loads_placement(
    r: Result<Vec<PlacementLog>, FormatError>,
    files: Seq<LogFile>,
) -> bool {
    match r {
        Ok(logs) => logs@.len() == files.len() && forall|i: int|
            0 <= i < files.len() ==> placement_file_log(#[trigger] files[i]) == Ok::<
                PlacementLogV,
                ErrV,
            >(logs@[i]@),
        Err(e) => exists|i: int|
            0 <= i < files.len() && placement_file_log(#[trigger] files[i]) == Err::<
                PlacementLogV,
                ErrV,
            >(e@) && forall|j: int| 0 <= j < i ==> placement_file_log(#[trigger] files[j]) is Ok,
    }
}

/// Decodes the placement logs, oldest first. Whether the locations exist is
/// judged on the merged directory, not here: a superseded record may name a
/// segment that a relocation has retired.
pub fn load_placement_logs(files: &Vec<LogFile>) -> (r: Result<Vec<PlacementLog>, FormatError>)
    ensures
        loads_placement(r, files@),
{
    let mut logs: Vec<PlacementLog> = Vec::new();
    let mut i: usize = 0;
    while i < files.len()
        invariant
            i <= files@.len(),
            logs@.len() == i,
            forall|j: int|
                0 <= j < i ==> placement_file_log(#[trigger] files@[j]) == Ok::<
                    PlacementLogV,
                    ErrV,
                >(logs@[j]@),
        decreases files@.len() - i,
    {
        let f = &files[i];
        let bytes = match &f.bytes {
            Ok(b) => b,
            Err(e) => {
                return Err(
                    FormatError::Io(
                        Text::new("read PLACEMENT-").pad6(f.generation).lit(".log: ").lit(
                            e.as_str(),
                        ).done(),
                    ),
                );
            },
        };
        let log = match PlacementLog::decode(bytes.as_slice()) {
            Ok(l) => l,
            Err(e) => {
                return Err(e);
            },
        };
        if log.generation != f.generation {
            return Err(
                FormatError::Corrupt(
                    Text::new("PLACEMENT-").pad6(f.generation).lit(".log carries generation ").num(
                        log.generation,
                    ).done(),
                ),
            );
        }
        logs.push(log);
        i += 1;
    }
    Ok(logs)
}

/// The greatest generation in a run of records, at least `floor`.
pub open spec fn max_generation(s: Seq<PlacementRecord>, floor: u64) -> u64
    decreases s.len(),
{
    if s.len() == 0 {
        floor
    } else {
        let rest = max_generation(s.drop_last(), floor);
        if gen_of(s.last().placement) > rest {
            gen_of(s.last().placement)
        } else {
            rest
        }
    }
}

/// The greatest generation in the logs that can be read, and 0 at least.
pub open spec fn files_max_generation(files: Seq<LogFile>) -> u64
    decreases files.len(),
{
    if files.len() == 0 {
        0
    } else {
        let rest = files_max_generation(files.drop_last());
        match files.last().bytes {
            Err(_) => rest,
            Ok(bytes) => match placement_log_of(bytes@) {
                Err(_) => rest,
                Ok(l) => max_generation(l.records, rest),
            },
        }
    }
}

/// The highest placement generation in the orphan logs. Their numbers were
/// published and must not be handed out again, so the allocator starts past
/// them; a log that cannot be read or decoded contributes nothing.
pub fn orphan_placement_max_generation(files: &Vec<LogFile>) -> (r: u64)
    ensures
        r == files_max_generation(files@),
{
    let mut max: u64 = 0;
    let mut i: usize = 0;
    while i < files.len()
        invariant
            i <= files@.len(),
            max == files_max_generation(files@.take(i as int)),
        decreases files@.len() - i,
    {
        let ghost base = max;
        assert(files@.take(i + 1).drop_last() =~= files@.take(i as int));
        match &files[i].bytes {
            Err(_) => {},
            Ok(bytes) => {
                match PlacementLog::decode(bytes.as_slice()) {
                    Err(_) => {},
                    Ok(log) => {
                        let mut j: usize = 0;
                        while j < log.records.len()
                            invariant
                                j <= log.records@.len(),
                                max == max_generation(log.records@.take(j as int), base),
                            decreases log.records@.len() - j,
                        {
                            assert(log.records@.take(j + 1).drop_last() =~= log.records@.take(
                                j as int,
                            ));
                            let g: u64 = log.records[j].placement.generation();
                            if g > max {
                                max = g;
                            }
                            j += 1;
                        }
                        assert(log.records@.take(j as int) =~= log.records@);
                    },
                }
            },
        }
        i += 1;
    }
    assert(files@.take(i as int) =~= files@);
    max
}

// ---------------------------------------------------------------------------
// The directory
/// The records of the logs, oldest log first.
pub open spec fn all_records(logs: Seq<PlacementLog>) -> Seq<PlacementRecord>
    decreases logs.len(),
{
    if logs.len() == 0 {
        seq![]
    } else {
        all_records(logs.drop_last()) + logs.last().records@
    }
}

/// The directory that the records build on `m`, or the first conflict.
pub open spec fn build(m: Map<u64, Placement>, s: Seq<PlacementRecord>) -> Result<
    Map<u64, Placement>,
    ErrV,
>
    decreases s.len(),
{
    if s.len() == 0 {
        Ok(m)
    } else {
        match build(m, s.drop_last()) {
            Err(e) => Err(e),
            Ok(d) => match gate(lookup(d, s.last().rid.0), s.last().rid, s.last().placement) {
                Err(e) => Err(e),
                Ok(_) => Ok(placed(d, s.last().rid, s.last().placement)),
            },
        }
    }
}

pub proof fn lemma_build_err(m: Map<u64, Placement>, s: Seq<PlacementRecord>, n: int)
    requires
        0 <= n <= s.len(),
        build(m, s.take(n)) is Err,
    ensures
        build(m, s) == build(m, s.take(n)),
    decreases s.len() - n,
{
    if n < s.len() {
        assert(s.take(n + 1).drop_last() =~= s.take(n));
        lemma_build_err(m, s, n + 1);
    } else {
        assert(s.take(n) =~= s);
    }
}

pub proof fn lemma_build_append(
    m: Map<u64, Placement>,
    s: Seq<PlacementRecord>,
    t: Seq<PlacementRecord>,
)
    ensures
        build(m, s + t) == (match build(m, s) {
            Ok(d) => build(d, t),
            Err(e) => Err(e),
        }),
    decreases t.len(),
{
    if t.len() == 0 {
        assert(s + t =~= s);
    } else {
        assert((s + t).drop_last() =~= s + t.drop_last());
        lemma_build_append(m, s, t.drop_last());
    }
}

/// The map that records leave behind: those before the first that is refused
/// are applied.
pub open spec fn left_by(m: Map<u64, Placement>, s: Seq<PlacementRecord>) -> Map<u64, Placement>
    decreases s.len(),
{
    if s.len() == 0 {
        m
    } else {
        match build(m, s.drop_last()) {
            Err(_) => left_by(m, s.drop_last()),
            Ok(d) => placed(d, s.last().rid, s.last().placement),
        }
    }
}

proof fn lemma_left_by(m: Map<u64, Placement>, s: Seq<PlacementRecord>, n: int)
    requires
        0 <= n <= s.len(),
        build(m, s.take(n)) is Err,
    ensures
        left_by(m, s) == left_by(m, s.take(n)),
    decreases s.len() - n,
{
    if n < s.len() {
        assert(s.take(n + 1).drop_last() =~= s.take(n));
        lemma_left_by(m, s, n + 1);
    } else {
        assert(s.take(n) =~= s);
    }
}

/// Applies every record of `records` in order.
pub fn apply_records(placements: &mut IdMap<u64, Placement>, records: &Vec<PlacementRecord>) -> (r:
    Result<(), FormatError>)
    ensures
        final(placements)@ == left_by(old(placements)@, records@),
        match r {
            Ok(_) => build(old(placements)@, records@) == Ok::<Map<u64, Placement>, ErrV>(
                final(placements)@,
            ),
            Err(e) => build(old(placements)@, records@) == Err::<Map<u64, Placement>, ErrV>(e@),
        },
{
    let mut i: usize = 0;
    assert(records@.take(0) =~= seq![]);
    while i < records.len()
        invariant
            i <= records@.len(),
            build(old(placements)@, records@.take(i as int)) == Ok::<Map<u64, Placement>, ErrV>(
                placements@,
            ),
            left_by(old(placements)@, records@.take(i as int)) == placements@,
        decreases records@.len() - i,
    {
        let rec = records[i];
        assert(records@.take(i + 1).drop_last() =~= records@.take(i as int));
        match merge_placement(placements, rec.rid, rec.placement) {
            Ok(_) => {},
            Err(e) => {
                proof {
                    lemma_build_err(old(placements)@, records@, i + 1);
                    lemma_left_by(old(placements)@, records@, i + 1);
                }
                return Err(e);
            },
        }
        i += 1;
    }
    assert(records@.take(i as int) =~= records@);
    Ok(())
}

/// The in-memory placement directory.
pub struct PlacementDirectory {
    placements: IdMap<u64, Placement>,
}

impl View for PlacementDirectory {
    type V = Map<u64, Placement>;

    closed spec fn view(&self) -> Map<u64, Placement> {
        self.placements@
    }
}

impl Default for PlacementDirectory {
    fn default() -> (r: Self)
        ensures
            r@ == Map::<u64, Placement>::empty(),
    {
        PlacementDirectory { placements: IdMap::new() }
    }
}

impl PlacementDirectory {
    pub fn apply(&mut self, rec: PlacementRecord) -> (r: Result<ApplyOutcome, FormatError>)
        ensures
            rv(r) == gate(lookup(old(self)@, rec.rid.0), rec.rid, rec.placement),
            final(self)@ == placed(old(self)@, rec.rid, rec.placement),
    {
        merge_placement(&mut self.placements, rec.rid, rec.placement)
    }

    pub fn resolve(&self, rid: ReplicaId) -> (r: Option<&Placement>)
        ensures
            match r {
                Some(p) => lookup(self@, rid.0) == Some(*p),
                None => lookup(self@, rid.0) is None,
            },
    {
        self.placements.find(rid.0)
    }

    pub fn len(&self) -> (r: usize)
        ensures
            r == self@.len(),
    {
        self.placements.len()
    }

    pub fn is_empty(&self) -> (r: bool)
        ensures
            r == (self@.len() == 0),
    {
        self.placements.is_empty()
    }

    /// Rebuilds the directory from the logs, then judges each surviving
    /// segment location by `validate`. Superseded records are not judged:
    /// history is no damage.
    pub fn recover<F: Fn(&PhysicalLocation) -> Result<(), FormatError>>(
        logs: &Vec<PlacementLog>,
        validate: F,
    ) -> (r: Result<Self, FormatError>)
        requires
            forall|loc: PhysicalLocation| call_requires(validate, (&loc,)),
        ensures
            match build(Map::empty(), all_records(logs@)) {
                Err(e) => r is Err && r->Err_0@ == e,
                Ok(m) => match r {
                    Ok(d) => d@ == m && forall|k: u64|
                        #![trigger m.contains_key(k)]
                        m.contains_key(k) ==> (m[k] matches Placement::Segment(loc)
                            ==> call_ensures(validate, (&loc,), Ok(()))),
                    Err(e) => exists|k: u64, loc: PhysicalLocation|
                        m.contains_key(k) && m[k] == Placement::Segment(loc)
                            && #[trigger] call_ensures(validate, (&loc,), Err(e)) && #[trigger] m.contains_key(k),
                },
            },
    {
        let mut placements: IdMap<u64, Placement> = IdMap::new();
        let mut i: usize = 0;
        assert(all_records(logs@.take(0)) =~= seq![]);
        while i < logs.len()
            invariant
                i <= logs@.len(),
                build(Map::empty(), all_records(logs@.take(i as int))) == Ok::<
                    Map<u64, Placement>,
                    ErrV,
                >(placements@),
            decreases logs@.len() - i,
        {
            let ghost m0 = placements@;
            assert(logs@.take(i + 1).drop_last() =~= logs@.take(i as int));
            proof {
                lemma_build_append(
                    Map::empty(),
                    all_records(logs@.take(i as int)),
                    logs@[i as int].records@,
                );
            }
            match apply_records(&mut placements, &logs[i].records) {
                Ok(_) => {},
                Err(e) => {
                    proof {
                        lemma_all_records_prefix(logs@, i + 1);
                        let whole = all_records(logs@);
                        let part = all_records(logs@.take(i + 1));
                        lemma_build_err(Map::empty(), whole, part.len() as int);
                    }
                    return Err(e);
                },
            }
            i += 1;
        }
        assert(logs@.take(i as int) =~= logs@);
        let list = placements.to_list();
        let ghost m = placements@;
        let mut j: usize = 0;
        while j < list.len()
            invariant
                j <= list@.len(),
                m == placements@,
                lists_map(list@, m),
                build(Map::empty(), all_records(logs@)) == Ok::<Map<u64, Placement>, ErrV>(m),
                forall|loc: PhysicalLocation| call_requires(validate, (&loc,)),
                forall|k: int|
                    0 <= k < j ==> ((#[trigger] list@[k]).1 matches Placement::Segment(loc)
                        ==> call_ensures(validate, (&loc,), Ok(()))),
            decreases list@.len() - j,
        {
            assert(m.contains_key(list@[j as int].0));
            if let Placement::Segment(loc) = list[j].1 {
                match validate(&loc) {
                    Ok(u) => {
                        assert(u == ());
                    },
                    Err(e) => {
                        return Err(e);
                    },
                }
            }
            j += 1;
        }
        Ok(PlacementDirectory { placements })
    }
}

proof fn lemma_all_records_prefix(logs: Seq<PlacementLog>, n: int)
    requires
        0 <= n <= logs.len(),
    ensures
        all_records(logs.take(n)).len() <= all_records(logs).len(),
        all_records(logs).take(all_records(logs.take(n)).len() as int) == all_records(logs.take(n)),
    decreases logs.len() - n,
{
    if n < logs.len() {
        lemma_all_records_prefix(logs, n + 1);
        assert(logs.take(n + 1).drop_last() =~= logs.take(n));
        let a = all_records(logs.take(n));
        let b = all_records(logs.take(n + 1));
        assert(b.take(a.len() as int) =~= a);
        assert(all_records(logs).take(a.len() as int) =~= all_records(logs).take(
            b.len() as int,
        ).take(a.len() as int));
    } else {
        assert(logs.take(n) =~= logs);
        assert(all_records(logs).take(all_records(logs).len() as int) =~= all_records(logs));
    }
}

} // verus!
