//! A whole compaction, from open segments to published chunks.

use crate::codec::bytes_eq;
use crate::compaction::laws::{chunks_keep_rows, rows_are_not_made_up};
use crate::compaction::merge::{
    left_over, merge_cost, merge_readers, merge_reads, merge_reads_every_entry, merged, path_fits,
    readables,
};
use crate::compaction::plan::{
    archived_rows, begin_of, chunk_at, chunk_ends, cut, ends_at, head_run, judged, lemma_run_len,
    live_before, live_rows, pieces, run_archived, sort_out, Retention, RetentionPolicy, Verdicts,
};
use crate::db::cached::ReadPath;
use crate::format::{ErrV, FormatError};
use crate::idmap::{lookup, IdMap};
use crate::memtable::has_replicas;
use crate::placement::{BlockId, SegmentId};
use crate::segment::entry::{entries_view, EntryV, SegmentEntry};
use crate::segment::open::{segment_of, SegV, SegmentReader};
use crate::segment::open_laws::flat;
use crate::segment::read::all_from;
use crate::segment::write::{publish_outcome, Published, SegmentAnchor, SegmentWriter};
use crate::text::{dec, join, join_spec, pad6, Text};
use vstd::prelude::*;

verus! {

#[derive(Debug, Clone, Copy, PartialEq, Eq, Structural)]
pub struct CompactStats {
    pub segments_in: u64,
    pub segments_out: u64,
    pub entries_in: u64,
    pub entries_out: u64,
    pub entries_archived: u64,
}

/// A compaction that had nothing to do.
pub open spec fn no_stats() -> CompactStats {
    CompactStats {
        segments_in: 0,
        segments_out: 0,
        entries_in: 0,
        entries_out: 0,
        entries_archived: 0,
    }
}

impl Default for CompactStats {
    fn default() -> (r: Self)
        ensures
            r == no_stats(),
    {
        CompactStats {
            segments_in: 0,
            segments_out: 0,
            entries_in: 0,
            entries_out: 0,
            entries_archived: 0,
        }
    }
}

// ---------------------------------------------------------------------------
// Reading the inputs
/// The views of readers.
pub open spec fn segs_view(s: Seq<SegmentReader>) -> Seq<SegV> {
    s.map_values(|r: SegmentReader| r@)
}

/// Every reader is well formed.
pub open spec fn all_wf(s: Seq<SegmentReader>) -> bool {
    forall|i: int| 0 <= i < s.len() ==> (#[trigger] s[i]).wf()
}

/// Every entry of the first `n` segments; the first that does not decode
/// fails the read.
pub open spec fn inputs_of(segs: Seq<SegV>, n: nat) -> Result<Seq<Seq<EntryV>>, ErrV>
    decreases n,
{
    if n == 0 {
        Ok(seq![])
    } else {
        match inputs_of(segs, (n - 1) as nat) {
            Err(e) => Err(e),
            Ok(v) => match all_from(segs[n - 1], 0) {
                Err(e) => Err(e),
                Ok(es) => Ok(v.push(es)),
            },
        }
    }
}

// ---------------------------------------------------------------------------
// Publishing
/// The file that some rows make: published as one segment, in blocks with
/// restart tables.
pub open spec fn file_of(
    r: Result<Published, FormatError>,
    es: Seq<EntryV>,
    target: nat,
    v3: bool,
) -> bool {
    exists|entries: Seq<SegmentEntry>, order: Seq<SegmentEntry>|
        entries_view(entries) == es && #[trigger] publish_outcome(
            r,
            entries,
            order,
            target,
            true,
            v3,
        )
}

/// Publishes `rows[from..to]`.
pub fn publish_rows(rows: &Vec<SegmentEntry>, from: usize, to: usize, target: usize, v3: bool) -> (r:
    Result<Published, FormatError>)
    requires
        from <= to <= rows@.len(),
        10 * rows@.len() <= usize::MAX - 7,
    ensures
        file_of(r, entries_view(rows@).subrange(from as int, to as int), target as nat, v3),
{
    let mut w = if v3 {
        SegmentWriter::new_v3(target)
    } else {
        SegmentWriter::new_v2(target)
    };
    let ghost es = entries_view(rows@).subrange(from as int, to as int);
    let mut i: usize = from;
    assert(entries_view(w.entries@) =~= es.take(0));
    while i < to
        invariant
            from <= i <= to <= rows@.len(),
            es == entries_view(rows@).subrange(from as int, to as int),
            entries_view(w.entries@) == es.take(i - from),
            w.entries@.len() == i - from,
            w.target_block_bytes == target,
            w.v2,
            w.v3 == v3,
        decreases to - i,
    {
        let ghost before = entries_view(w.entries@);
        let e = rows[i].duplicate();
        let ghost ev = e@;
        w.push(e);
        assert(entries_view(w.entries@) =~= before.push(ev));
        assert(es[i - from] == ev);
        assert(es.take(i - from + 1) =~= before.push(ev));
        i += 1;
    }
    assert(es.take(to - from) =~= es);
    w.publish_with_anchors()
}

/// A published segment, open again.
pub struct LiveChunk {
    pub segment_id: u64,
    pub reader: SegmentReader,
    pub file_size: u64,
    pub checksum: u64,
    pub anchors: Vec<SegmentAnchor>,
}

/// `c` is the published and opened form of some rows.
#[verifier::opaque]
pub open spec fn chunk_is(c: LiveChunk, es: Seq<EntryV>, target: nat, v3: bool) -> bool {
    exists|p: Published| #[trigger]
        file_of(Ok(p), es, target, v3) && chunk_of_file(c, p)
}

/// The chunk holds what its file gives.
pub open spec fn chunk_of_file(c: LiveChunk, p: Published) -> bool {
    &&& segment_of(p.bytes@) == Ok::<SegV, ErrV>(c.reader@)
    &&& c.reader.wf()
    &&& c.reader@.bytes == p.bytes@
    &&& c.file_size == p.file_size
    &&& c.checksum == p.checksum
    &&& c.anchors == p.anchors
}

/// Publishing or opening some rows fails.
#[verifier::opaque]
pub open spec fn chunk_fails(e: FormatError, es: Seq<EntryV>, target: nat, v3: bool) -> bool {
    ||| file_of(Err(e), es, target, v3)
    ||| exists|p: Published| #[trigger]
        file_of(Ok(p), es, target, v3) && segment_of(p.bytes@) == Err::<SegV, ErrV>(e@)
}

/// Publishes `rows[from..to]` and opens the segment again.
pub fn publish_chunk(
    rows: &Vec<SegmentEntry>,
    from: usize,
    to: usize,
    target: usize,
    v3: bool,
    segment_id: u64,
) -> (r: Result<LiveChunk, FormatError>)
    requires
        from <= to <= rows@.len(),
        10 * rows@.len() <= usize::MAX - 7,
    ensures
        match r {
            Ok(c) => c.segment_id == segment_id && chunk_is(
                c,
                entries_view(rows@).subrange(from as int, to as int),
                target as nat,
                v3,
            ),
            Err(e) => chunk_fails(
                e,
                entries_view(rows@).subrange(from as int, to as int),
                target as nat,
                v3,
            ),
        },
{
    reveal(chunk_is);
    reveal(chunk_fails);
    match publish_rows(rows, from, to, target, v3) {
        Err(e) => Err(e),
        Ok(p) => {
            let ghost p0 = p;
            match SegmentReader::open(p.bytes) {
                Err(e) => Err(e),
                Ok(reader) => {
                    let c = LiveChunk {
                        segment_id,
                        reader,
                        file_size: p.file_size,
                        checksum: p.checksum,
                        anchors: p.anchors,
                    };
                    assert(chunk_of_file(c, p0));
                    Ok(c)
                },
            }
        },
    }
}

/// One archive file: the archive's identifier, the number of the chunk, and
/// the bytes.
pub struct ArchiveChunk {
    pub archive_id: u64,
    pub chunk: usize,
    pub bytes: Vec<u8>,
}

/// `archive/ARCHIVE-{id}.seg`, with the number of the chunk from the second
/// on.
pub fn archive_path(dir: &str, id: u64, chunk: usize) -> (r: String)
    ensures
        r@ == join_spec(
            join_spec(dir@, "archive"@),
            if chunk == 0 {
                "ARCHIVE-"@ + pad6(id as nat) + ".seg"@
            } else {
                "ARCHIVE-"@ + pad6(id as nat) + "-"@ + dec(chunk as nat) + ".seg"@
            },
        ),
{
    let name = if chunk == 0 {
        Text::new("ARCHIVE-").pad6(id).lit(".seg").done()
    } else {
        Text::new("ARCHIVE-").pad6(id).lit("-").num(chunk as u64).lit(".seg").done()
    };
    let archive = join(dir, "archive");
    join(archive.as_str(), name.as_str())
}

// ---------------------------------------------------------------------------
// Homes
/// Where a replica's newest row lies.
#[derive(Debug, Clone, Copy, PartialEq, Eq, Structural)]
pub struct Home {
    pub seq: u64,
    pub segment_id: SegmentId,
    pub block_id: BlockId,
    pub entry_offset: u32,
}

/// An anchor of a segment moves a replica's home only to a newer row.
pub open spec fn home_add(m: Map<u64, Home>, id: u64, a: SegmentAnchor) -> Map<u64, Home> {
    let r = a.replica_id.0;
    if m.contains_key(r) && m[r].seq >= a.seq {
        m
    } else {
        m.insert(
            r,
            Home {
                seq: a.seq,
                segment_id: SegmentId(id),
                block_id: a.block_id,
                entry_offset: a.entry_offset,
            },
        )
    }
}

/// The homes after the first `n` anchors of a segment.
pub open spec fn homes_in(m: Map<u64, Home>, id: u64, s: Seq<SegmentAnchor>, n: nat) -> Map<u64, Home>
    decreases n,
{
    if n == 0 {
        m
    } else {
        home_add(homes_in(m, id, s, (n - 1) as nat), id, s[n - 1])
    }
}

/// The homes over the first `n` chunks.
pub open spec fn homes_of(chunks: Seq<LiveChunk>, n: nat) -> Map<u64, Home>
    decreases n,
{
    if n == 0 {
        Map::empty()
    } else {
        let c = chunks[n - 1];
        homes_in(homes_of(chunks, (n - 1) as nat), c.segment_id, c.anchors@, c.anchors@.len())
    }
}

/// Notes the anchors of a segment.
pub fn note_anchors(homes: &mut IdMap<u64, Home>, id: u64, anchors: &Vec<SegmentAnchor>)
    ensures
        final(homes)@ == homes_in(old(homes)@, id, anchors@, anchors@.len()),
{
    let ghost m = homes@;
    let mut i: usize = 0;
    while i < anchors.len()
        invariant
            i <= anchors@.len(),
            homes@ == homes_in(m, id, anchors@, i as nat),
        decreases anchors@.len() - i,
    {
        let a = anchors[i];
        let keep = match homes.get(a.replica_id.0) {
            Some(h) => h.seq >= a.seq,
            None => false,
        };
        if !keep {
            homes.insert(
                a.replica_id.0,
                Home {
                    seq: a.seq,
                    segment_id: SegmentId(id),
                    block_id: a.block_id,
                    entry_offset: a.entry_offset,
                },
            );
        }
        i += 1;
    }
}

/// The homes over all chunks.
pub fn find_homes(chunks: &Vec<LiveChunk>) -> (r: IdMap<u64, Home>)
    ensures
        r@ == homes_of(chunks@, chunks@.len()),
{
    let mut homes: IdMap<u64, Home> = IdMap::new();
    let mut i: usize = 0;
    while i < chunks.len()
        invariant
            i <= chunks@.len(),
            homes@ == homes_of(chunks@, i as nat),
        decreases chunks@.len() - i,
    {
        note_anchors(&mut homes, chunks[i].segment_id, &chunks[i].anchors);
        i += 1;
    }
    homes
}

/// Where a compaction moves a replica: to its newest surviving row, or nowhere
/// when none of its rows stays live.
pub type Relocation = Option<(SegmentId, BlockId, u32)>;

pub open spec fn relocation_of(h: Option<Home>) -> Relocation {
    match h {
        Some(h) => Some((h.segment_id, h.block_id, h.entry_offset)),
        None => None,
    }
}

/// Some entry belongs to replica `r`.
pub open spec fn mentions(es: Seq<EntryV>, r: u64) -> bool {
    r != 0 && exists|i: int| 0 <= i < es.len() && (#[trigger] es[i]).replica_id.0 == r
}

/// Every replica of the inputs, and where it goes.
pub open spec fn relocates(m: Map<u64, Relocation>, es: Seq<EntryV>, homes: Map<u64, Home>) -> bool {
    forall|r: u64| #[trigger]
        lookup(m, r) == if mentions(es, r) {
            Some(relocation_of(lookup(homes, r)))
        } else {
            None
        }
}

fn relocate(es: &Vec<SegmentEntry>, homes: &IdMap<u64, Home>) -> (r: IdMap<u64, Relocation>)
    ensures
        relocates(r@, entries_view(es@), homes@),
{
    let mut out: IdMap<u64, Relocation> = IdMap::new();
    let ghost v = entries_view(es@);
    let mut i: usize = 0;
    assert(forall|r: u64| !mentions(v.take(0), r));
    while i < es.len()
        invariant
            i <= es@.len(),
            v == entries_view(es@),
            relocates(out@, v.take(i as int), homes@),
        decreases es@.len() - i,
    {
        let rid: u64 = es[i].replica_id.0;
        let ghost before = out@;
        assert(v[i as int] == es@[i as int]@);
        if rid != 0 {
            let to: Relocation = match homes.get(rid) {
                Some(h) => Some((h.segment_id, h.block_id, h.entry_offset)),
                None => None,
            };
            out.insert(rid, to);
        }
        proof {
            let a = v.take(i as int);
            let b = v.take(i + 1);
            assert forall|r: u64| #[trigger] lookup(out@, r) == (if mentions(b, r) {
                Some(relocation_of(lookup(homes@, r)))
            } else {
                None
            }) by {
                assert(lookup(before, r) == if mentions(a, r) {
                    Some(relocation_of(lookup(homes@, r)))
                } else {
                    None
                });
                assert(b[i as int] == v[i as int]);
                if mentions(a, r) {
                    let k = choose|k: int| 0 <= k < a.len() && (#[trigger] a[k]).replica_id.0 == r;
                    assert(b[k].replica_id.0 == r);
                }
                if mentions(b, r) && r != rid {
                    let k = choose|k: int| 0 <= k < b.len() && (#[trigger] b[k]).replica_id.0 == r;
                    assert(k < i);
                    assert(a[k].replica_id.0 == r);
                }
            }
        }
        i += 1;
    }
    assert(v.take(i as int) =~= v);
    out
}

// ---------------------------------------------------------------------------
// The whole
/// What a compaction gives: the live chunks by ascending identifier, the files
/// of the archive, where the replicas went, and the next free identifier.
pub struct Merged {
    pub stats: CompactStats,
    pub live: Vec<LiveChunk>,
    pub archives: Vec<ArchiveChunk>,
    pub relocations: IdMap<u64, Relocation>,
    pub next_id: u64,
}

/// Whether any of the first `n` chunks has replicas: from then on, all chunks
/// keep them.
pub open spec fn sticky(chunks: Seq<Seq<EntryV>>, n: nat) -> bool
    decreases n,
{
    n > 0 && (sticky(chunks, (n - 1) as nat) || has_replicas(chunks[n - 1]))
}

/// How many of the first `n` chunks are full, and out, when `m` rows have come.
pub open spec fn full_before(chunks: Seq<Seq<EntryV>>, m: nat, n: nat) -> nat
    decreases n,
{
    if n == 0 {
        0
    } else {
        full_before(chunks, m, (n - 1) as nat) + (if flat(chunks, n).len() < m {
            1nat
        } else {
            0
        })
    }
}

/// How many live chunks are published before chunk `j` of the archive: a chunk
/// is published when the first row behind it comes, the last live chunk at the
/// end, and that of the archive after it.
pub open spec fn turn_of(es: Seq<EntryV>, vs: Seq<Retention>, cap: nat, j: int) -> nat {
    let acs = pieces(archived_rows(es, vs), cap);
    let chunks = cut(live_rows(es, vs), cap);
    if j + 1 < acs.len() {
        let row = flat(acs, (j + 1) as nat).len() as int;
        full_before(chunks, live_before(es, vs, row), chunks.len())
    } else {
        chunks.len()
    }
}

/// How many live chunks get their identifier before the archive does: the
/// archive's is taken when its first chunk is published.
pub open spec fn archive_slot(es: Seq<EntryV>, vs: Seq<Retention>, cap: nat) -> nat {
    turn_of(es, vs, cap, 0)
}

/// The identifier of live chunk `k`.
pub open spec fn live_id(first: int, k: int, slot: int, archives: int) -> int {
    if archives > 0 && k >= slot {
        first + k + 1
    } else {
        first + k
    }
}

/// Live chunk `k` of a compaction.
pub open spec fn live_ok(
    m: Merged,
    k: int,
    chunks: Seq<Seq<EntryV>>,
    target: nat,
    id: int,
) -> bool {
    m.live@[k].segment_id == id && chunk_is(
        m.live@[k],
        chunks[k],
        target,
        sticky(chunks, (k + 1) as nat),
    )
}

/// Chunk `k` of the archive.
pub open spec fn archive_ok(
    m: Merged,
    k: int,
    chunks: Seq<Seq<EntryV>>,
    target: nat,
    id: int,
) -> bool {
    let a = m.archives@[k];
    a.archive_id == id && a.chunk == k && exists|p: Published| #[trigger]
        file_of(Ok(p), chunks[k], target, sticky(chunks, (k + 1) as nat)) && a.bytes@ == p.bytes@
}

/// A compaction of the entries `es`, in merge order.
pub open spec fn merge_ok(
    m: Merged,
    es: Seq<EntryV>,
    inputs: nat,
    vs: Seq<Retention>,
    target: nat,
    cap: nat,
    first: u64,
) -> bool {
    let live = live_rows(es, vs);
    let archived = archived_rows(es, vs);
    let chunks = cut(live, cap);
    let acs = pieces(archived, cap);
    let slot = archive_slot(es, vs, cap) as int;
    &&& m.stats == (CompactStats {
        segments_in: inputs as u64,
        segments_out: chunks.len() as u64,
        entries_in: es.len() as u64,
        entries_out: live.len() as u64,
        entries_archived: archived.len() as u64,
    })
    &&& m.live@.len() == chunks.len()
    &&& forall|k: int|
        0 <= k < chunks.len() ==> #[trigger] live_ok(
            m,
            k,
            chunks,
            target,
            live_id(first as int, k, slot, acs.len() as int),
        )
    &&& m.archives@.len() == acs.len()
    &&& forall|k: int|
        0 <= k < acs.len() ==> #[trigger] archive_ok(m, k, acs, target, first + slot)
    &&& m.next_id == first + chunks.len() + (if acs.len() > 0 {
        1int
    } else {
        0
    })
    &&& relocates(m.relocations@, es, homes_of(m.live@, m.live@.len()))
}

/// How many chunks are published: all, or where the inputs end in a failure
/// all but the last.
pub open spec fn due(n: nat, short: bool) -> nat {
    if short && n > 0 {
        (n - 1) as nat
    } else {
        n
    }
}

/// Live chunk `k` can be published and opened.
pub open spec fn live_passes(chunks: Seq<Seq<EntryV>>, k: int, target: nat) -> bool {
    exists|c: LiveChunk| #[trigger]
        chunk_is(c, chunks[k], target, sticky(chunks, (k + 1) as nat))
}

/// Chunk `j` of the archive can be published.
pub open spec fn archive_passes(acs: Seq<Seq<EntryV>>, j: int, target: nat) -> bool {
    exists|p: Published| #[trigger] file_of(Ok(p), acs[j], target, sticky(acs, (j + 1) as nat))
}

/// Live chunk `k` is the first that cannot be published or opened.
pub open spec fn live_fails(
    e: FormatError,
    es: Seq<EntryV>,
    vs: Seq<Retention>,
    target: nat,
    cap: nat,
    archives: nat,
    k: int,
) -> bool {
    let chunks = cut(live_rows(es, vs), cap);
    let acs = pieces(archived_rows(es, vs), cap);
    &&& chunk_fails(e, chunks[k], target, sticky(chunks, (k + 1) as nat))
    &&& forall|i: int| 0 <= i < k ==> #[trigger] live_passes(chunks, i, target)
    &&& forall|j: int|
        0 <= j < archives && turn_of(es, vs, cap, j) <= k ==> #[trigger] archive_passes(
            acs,
            j,
            target,
        )
}

/// Chunk `j` of the archive is the first that cannot be published.
pub open spec fn archive_fails(
    e: FormatError,
    es: Seq<EntryV>,
    vs: Seq<Retention>,
    target: nat,
    cap: nat,
    lives: nat,
    j: int,
) -> bool {
    let chunks = cut(live_rows(es, vs), cap);
    let acs = pieces(archived_rows(es, vs), cap);
    &&& file_of(Err(e), acs[j], target, sticky(acs, (j + 1) as nat))
    &&& forall|i: int| 0 <= i < j ==> #[trigger] archive_passes(acs, i, target)
    &&& forall|k: int|
        0 <= k < lives && k < turn_of(es, vs, cap, j) ==> #[trigger] live_passes(chunks, k, target)
}

/// The first chunk of the compaction that cannot be published or opened ends
/// it with this failure.
pub open spec fn merge_fails(
    e: FormatError,
    es: Seq<EntryV>,
    vs: Seq<Retention>,
    target: nat,
    cap: nat,
    short: bool,
) -> bool {
    let lives = due(cut(live_rows(es, vs), cap).len(), short);
    let archives = due(pieces(archived_rows(es, vs), cap).len(), short);
    ||| exists|k: int|
        0 <= k < lives && #[trigger] live_fails(e, es, vs, target, cap, archives, k)
    ||| exists|j: int|
        0 <= j < archives && #[trigger] archive_fails(e, es, vs, target, cap, lives, j)
}

/// Every chunk that was full when the inputs ended could be published.
pub open spec fn full_pass(es: Seq<EntryV>, vs: Seq<Retention>, target: nat, cap: nat) -> bool {
    let chunks = cut(live_rows(es, vs), cap);
    let acs = pieces(archived_rows(es, vs), cap);
    &&& forall|k: int|
        0 <= k < due(chunks.len(), true) ==> #[trigger] live_passes(chunks, k, target)
    &&& forall|j: int|
        0 <= j < due(acs.len(), true) ==> #[trigger] archive_passes(acs, j, target)
}

/// Where the run of row `n - 1` begins.
pub open spec fn run_start(es: Seq<EntryV>, n: nat) -> nat
    decreases n,
{
    if n <= 1 {
        0
    } else if es[n - 2].key == es[n - 1].key {
        run_start(es, (n - 1) as nat)
    } else {
        (n - 1) as nat
    }
}

/// The rows less the last run. Of inputs that end in a failure it is the run
/// that was not whole yet.
pub open spec fn whole_runs(es: Seq<EntryV>) -> Seq<EntryV> {
    es.take(run_start(es, es.len()) as int)
}

proof fn lemma_run_start(es: Seq<EntryV>, n: nat)
    ensures
        run_start(es, n) <= n,
    decreases n,
{
    if n > 1 {
        lemma_run_start(es, (n - 1) as nat);
    }
}

/// A compaction of inputs that end in a failure: a full chunk that cannot be
/// published ends it first.
pub open spec fn short_merge(
    e: FormatError,
    segs: Seq<SegV>,
    vs: Seq<Retention>,
    target: nat,
    cap: nat,
) -> bool {
    let es = whole_runs(merge_reads(segs).0);
    ||| merge_fails(e, es, vs, target, cap, true)
    ||| full_pass(es, vs, target, cap) && merge_reads(segs).1 == Some(e@)
}

/// Whether a piece of the rows has replicas.
fn has_replicas_in(rows: &Vec<SegmentEntry>, from: usize, to: usize) -> (r: bool)
    requires
        from <= to <= rows@.len(),
    ensures
        r == has_replicas(entries_view(rows@).subrange(from as int, to as int)),
{
    let ghost es = entries_view(rows@).subrange(from as int, to as int);
    let mut i: usize = from;
    while i < to
        invariant
            from <= i <= to <= rows@.len(),
            es == entries_view(rows@).subrange(from as int, to as int),
            forall|k: int| 0 <= k < i - from ==> (#[trigger] es[k]).replica_id.0 == 0,
        decreases to - i,
    {
        assert(es[i - from] == rows@[i as int]@);
        if rows[i].replica_id.0 != 0 {
            return true;
        }
        i += 1;
    }
    false
}

/// Takes off the last run.
fn drop_last_run(es: &mut Vec<SegmentEntry>)
    ensures
        entries_view(final(es)@) == whole_runs(entries_view(old(es)@)),
{
    let ghost v = entries_view(es@);
    let mut n: usize = es.len();
    while n > 1 && bytes_eq(es[n - 2].key.as_slice(), es[n - 1].key.as_slice())
        invariant
            n <= es@.len(),
            es@ == old(es)@,
            v == entries_view(es@),
            run_start(v, n as nat) == run_start(v, v.len()),
        decreases n,
    {
        assert(v[n - 2] == es@[n - 2]@ && v[n - 1] == es@[n - 1]@);
        n -= 1;
    }
    let start: usize = if n > 1 {
        assert(v[n - 2] == es@[n - 2]@ && v[n - 1] == es@[n - 1]@);
        n - 1
    } else {
        0
    };
    es.truncate(start);
    assert(entries_view(es@) =~= v.take(start as int));
}

/// The rows of a compaction by where they go, where their chunks end, and the
/// turn of each chunk of the archive.
struct Outline {
    parts: Verdicts,
    live_ends: Vec<usize>,
    archive_ends: Vec<usize>,
    turns: Vec<usize>,
}

spec fn outlined(o: Outline, es: Seq<EntryV>, cap: nat) -> bool {
    let vs = o.parts.given@;
    let chunks = cut(live_rows(es, vs), cap);
    let acs = pieces(archived_rows(es, vs), cap);
    &&& entries_view(o.parts.live@) == live_rows(es, vs)
    &&& entries_view(o.parts.archived@) == archived_rows(es, vs)
    &&& ends_at(o.live_ends@, live_rows(es, vs), chunks)
    &&& ends_at(o.archive_ends@, archived_rows(es, vs), acs)
    &&& o.turns@.len() == acs.len()
    &&& forall|j: int| 0 <= j < acs.len() ==> (#[trigger] o.turns@[j]) == turn_of(es, vs, cap, j)
}

/// Chunks end where the rows before them do.
proof fn lemma_ends(ends: Seq<usize>, rows: Seq<EntryV>, chunks: Seq<Seq<EntryV>>, k: nat)
    requires
        ends_at(ends, rows, chunks),
        k <= chunks.len(),
    ensures
        flat(chunks, k).len() == begin_of(ends, k as int),
    decreases k,
{
    if k > 0 {
        lemma_ends(ends, rows, chunks, (k - 1) as nat);
        assert(chunk_at(ends, rows, chunks, k - 1));
    }
}

/// How many chunks are full when `m` rows have come.
fn count_full(ends: &Vec<usize>, m: usize, Ghost(rows): Ghost<Seq<EntryV>>, Ghost(chunks): Ghost<
    Seq<Seq<EntryV>>,
>) -> (r: usize)
    requires
        ends_at(ends@, rows, chunks),
    ensures
        r == full_before(chunks, m as nat, chunks.len()),
{
    let mut n: usize = 0;
    let mut k: usize = 0;
    while k < ends.len()
        invariant
            n <= k <= ends@.len(),
            ends_at(ends@, rows, chunks),
            n == full_before(chunks, m as nat, k as nat),
        decreases ends@.len() - k,
    {
        proof {
            lemma_ends(ends@, rows, chunks, (k + 1) as nat);
        }
        if ends[k] < m {
            n += 1;
        }
        k += 1;
    }
    n
}

/// Sorts the rows out and cuts them.
fn outline<P: RetentionPolicy>(es: &Vec<SegmentEntry>, policy: &P, cap: usize) -> (r: Outline)
    ensures
        judged(entries_view(es@), r.parts.given@, policy),
        outlined(r, entries_view(es@), cap as nat),
{
    let ghost v = entries_view(es@);
    let parts = sort_out(es, policy);
    let ghost vs = parts.given@;
    let ghost live = live_rows(v, vs);
    let ghost archived = archived_rows(v, vs);
    let ghost chunks = cut(live, cap as nat);
    let ghost acs = pieces(archived, cap as nat);
    let live_ends = chunk_ends(&parts.live, cap, true);
    let archive_ends = chunk_ends(&parts.archived, cap, false);
    let mut turns: Vec<usize> = Vec::new();
    let mut j: usize = 0;
    while j < archive_ends.len()
        invariant
            j <= archive_ends@.len(),
            turns@.len() == j,
            vs == parts.given@,
            live == live_rows(v, vs),
            archived == archived_rows(v, vs),
            chunks == cut(live, cap as nat),
            acs == pieces(archived, cap as nat),
            entries_view(parts.archived@) == archived,
            ends_at(live_ends@, live, chunks),
            ends_at(archive_ends@, archived, acs),
            parts.before@.len() == parts.archived@.len(),
            forall|a: int|
                0 <= a < parts.before@.len() ==> (#[trigger] parts.before@[a]) == live_before(
                    v,
                    vs,
                    a,
                ),
            forall|i: int| 0 <= i < j ==> (#[trigger] turns@[i]) == turn_of(v, vs, cap as nat, i),
        decreases archive_ends@.len() - j,
    {
        let total: usize = archive_ends.len();
        let turn: usize = if j + 1 < total {
            proof {
                lemma_ends(archive_ends@, archived, acs, (j + 1) as nat);
                assert(chunk_at(archive_ends@, archived, acs, j + 1));
                assert(parts.archived@.len() == archived.len());
            }
            let row: usize = archive_ends[j];
            count_full(&live_ends, parts.before[row], Ghost(live), Ghost(chunks))
        } else {
            live_ends.len()
        };
        turns.push(turn);
        j += 1;
    }
    Outline { parts, live_ends, archive_ends, turns }
}

/// Live rows before an archived row are no more than before a later one.
proof fn lemma_live_before(es: Seq<EntryV>, vs: Seq<Retention>, a: int, b: int)
    requires
        a <= b,
    ensures
        live_before(es, vs, a) <= live_before(es, vs, b),
    decreases es.len(),
{
    if es.len() > 0 {
        lemma_run_len(es, es[0].key);
        let n = head_run(es) as int;
        let here = run_archived(es.take(n), vs[0]).len();
        lemma_live_before(es.skip(n), vs.skip(1), a - here, b - here);
    }
}

proof fn lemma_full_before(chunks: Seq<Seq<EntryV>>, a: nat, b: nat, n: nat)
    requires
        a <= b,
    ensures
        full_before(chunks, a, n) <= full_before(chunks, b, n) <= n,
    decreases n,
{
    if n > 0 {
        lemma_full_before(chunks, a, b, (n - 1) as nat);
    }
}

proof fn lemma_flat_grows(chunks: Seq<Seq<EntryV>>, i: nat, j: nat)
    requires
        i <= j,
    ensures
        flat(chunks, i).len() <= flat(chunks, j).len(),
    decreases j,
{
    if i < j {
        lemma_flat_grows(chunks, i, (j - 1) as nat);
    }
}

/// The chunks of the archive come in their order.
proof fn lemma_turns(es: Seq<EntryV>, vs: Seq<Retention>, cap: nat, i: int, j: int)
    requires
        0 <= i <= j,
    ensures
        turn_of(es, vs, cap, i) <= turn_of(es, vs, cap, j) <= cut(live_rows(es, vs), cap).len(),
{
    let acs = pieces(archived_rows(es, vs), cap);
    let chunks = cut(live_rows(es, vs), cap);
    let a = flat(acs, (i + 1) as nat).len() as int;
    let b = flat(acs, (j + 1) as nat).len() as int;
    lemma_flat_grows(acs, (i + 1) as nat, (j + 1) as nat);
    lemma_live_before(es, vs, a, b);
    lemma_full_before(chunks, live_before(es, vs, a), live_before(es, vs, b), chunks.len());
}

/// Whether the chunk that ends at `ends[k]` has replicas.
fn chunk_has_replicas(rows: &Vec<SegmentEntry>, ends: &Vec<usize>, k: usize, Ghost(chunks): Ghost<
    Seq<Seq<EntryV>>,
>) -> (r: (usize, bool))
    requires
        ends_at(ends@, entries_view(rows@), chunks),
        k < ends@.len(),
    ensures
        r.0 < ends@[k as int] <= rows@.len(),
        chunks[k as int] == entries_view(rows@).subrange(r.0 as int, ends@[k as int] as int),
        r.1 == has_replicas(chunks[k as int]),
{
    assert(chunk_at(ends@, entries_view(rows@), chunks, k as int));
    let from: usize = if k == 0 {
        0
    } else {
        ends[k - 1]
    };
    (from, has_replicas_in(rows, from, ends[k]))
}

/// Publishes the first `lives` live chunks and the first `archives` of the
/// archive, each in its turn.
fn publish_all(
    o: &Outline,
    target: usize,
    first: u64,
    slot: usize,
    lives: usize,
    archives: usize,
    Ghost(es): Ghost<Seq<EntryV>>,
    Ghost(cap): Ghost<nat>,
) -> (r: Result<(Vec<LiveChunk>, Vec<ArchiveChunk>), FormatError>)
    requires
        outlined(*o, es, cap),
        10 * o.parts.live@.len() <= usize::MAX - 7,
        10 * o.parts.archived@.len() <= usize::MAX - 7,
        lives <= o.live_ends@.len(),
        archives <= o.archive_ends@.len(),
        slot <= o.live_ends@.len(),
        first + o.live_ends@.len() + 1 <= u64::MAX,
    ensures
        ({
            let vs = o.parts.given@;
            let chunks = cut(live_rows(es, vs), cap);
            let acs = pieces(archived_rows(es, vs), cap);
            match r {
                Ok((live, archive)) => {
                    &&& live@.len() == lives
                    &&& forall|k: int|
                        0 <= k < lives ==> (#[trigger] live@[k]).segment_id == live_id(
                            first as int,
                            k,
                            slot as int,
                            acs.len() as int,
                        ) && chunk_is(
                            live@[k],
                            chunks[k],
                            target as nat,
                            sticky(chunks, (k + 1) as nat),
                        )
                    &&& archive@.len() == archives
                    &&& forall|j: int|
                        0 <= j < archives ==> archived_as(
                            #[trigger] archive@[j],
                            j,
                            acs,
                            target as nat,
                            (first + slot) as u64,
                        )
                },
                Err(e) => {
                    ||| exists|k: int|
                        0 <= k < lives && #[trigger] live_fails(
                            e,
                            es,
                            vs,
                            target as nat,
                            cap,
                            archives as nat,
                            k,
                        )
                    ||| exists|j: int|
                        0 <= j < archives && #[trigger] archive_fails(
                            e,
                            es,
                            vs,
                            target as nat,
                            cap,
                            lives as nat,
                            j,
                        )
                },
            }
        }),
{
    let ghost vs = o.parts.given@;
    let ghost chunks = cut(live_rows(es, vs), cap);
    let ghost acs = pieces(archived_rows(es, vs), cap);
    let mut live: Vec<LiveChunk> = Vec::new();
    let mut archive: Vec<ArchiveChunk> = Vec::new();
    let mut live_v3 = false;
    let mut archive_v3 = false;
    let mut k: usize = 0;
    let mut j: usize = 0;
    let has_archive: bool = o.archive_ends.len() > 0;
    while k < lives || j < archives
        invariant
            outlined(*o, es, cap),
            vs == o.parts.given@,
            chunks == cut(live_rows(es, vs), cap),
            acs == pieces(archived_rows(es, vs), cap),
            10 * o.parts.live@.len() <= usize::MAX - 7,
            10 * o.parts.archived@.len() <= usize::MAX - 7,
            k <= lives <= o.live_ends@.len(),
            j <= archives <= o.archive_ends@.len(),
            slot <= o.live_ends@.len(),
            first + o.live_ends@.len() + 1 <= u64::MAX,
            has_archive == (acs.len() > 0),
            live_v3 == sticky(chunks, k as nat),
            archive_v3 == sticky(acs, j as nat),
            live@.len() == k,
            archive@.len() == j,
            forall|i: int|
                0 <= i < k ==> (#[trigger] live@[i]).segment_id == live_id(
                    first as int,
                    i,
                    slot as int,
                    acs.len() as int,
                ) && chunk_is(live@[i], chunks[i], target as nat, sticky(chunks, (i + 1) as nat)),
            forall|i: int|
                0 <= i < j ==> archived_as(
                    #[trigger] archive@[i],
                    i,
                    acs,
                    target as nat,
                    (first + slot) as u64,
                ),
        decreases (lives - k) + (archives - j),
    {
        proof {
            assert forall|i: int| 0 <= i < k implies #[trigger] live_passes(
                chunks,
                i,
                target as nat,
            ) by {
                assert(chunk_is(
                    live@[i],
                    chunks[i],
                    target as nat,
                    sticky(chunks, (i + 1) as nat),
                ));
            }
            assert forall|i: int| 0 <= i < j implies #[trigger] archive_passes(
                acs,
                i,
                target as nat,
            ) by {
                assert(archived_as(archive@[i], i, acs, target as nat, (first + slot) as u64));
            }
        }
        if j < archives && (k >= lives || o.turns[j] <= k) {
            let (from, here) = chunk_has_replicas(
                &o.parts.archived,
                &o.archive_ends,
                j,
                Ghost(acs),
            );
            archive_v3 = archive_v3 || here;
            match publish_rows(&o.parts.archived, from, o.archive_ends[j], target, archive_v3) {
                Err(e) => {
                    assert(o.turns@[j as int] == turn_of(es, vs, cap, j as int));
                    assert(archive_fails(
                        e,
                        es,
                        vs,
                        target as nat,
                        cap,
                        lives as nat,
                        j as int,
                    ));
                    return Err(e);
                },
                Ok(p) => {
                    let ghost p0 = p;
                    let a = ArchiveChunk {
                        archive_id: first + slot as u64,
                        chunk: j,
                        bytes: p.bytes,
                    };
                    proof {
                        assert(file_of(
                            Ok(p0),
                            acs[j as int],
                            target as nat,
                            sticky(acs, (j + 1) as nat),
                        ) && a.bytes@ == p0.bytes@);
                        assert(archived_as(a, j as int, acs, target as nat, (first + slot) as u64));
                    }
                    archive.push(a);
                },
            }
            j += 1;
        } else {
            let (from, here) = chunk_has_replicas(&o.parts.live, &o.live_ends, k, Ghost(chunks));
            live_v3 = live_v3 || here;
            let id: u64 = if has_archive && k >= slot {
                first + (k as u64) + 1
            } else {
                first + (k as u64)
            };
            match publish_chunk(&o.parts.live, from, o.live_ends[k], target, live_v3, id) {
                Err(e) => {
                    proof {
                        assert forall|i: int|
                            0 <= i < archives && turn_of(es, vs, cap, i)
                                <= k implies #[trigger] archive_passes(acs, i, target as nat) by {
                            if j <= i {
                                lemma_turns(es, vs, cap, j as int, i);
                                assert(o.turns@[j as int] == turn_of(es, vs, cap, j as int));
                            }
                        }
                        assert(live_fails(
                            e,
                            es,
                            vs,
                            target as nat,
                            cap,
                            archives as nat,
                            k as int,
                        ));
                    }
                    return Err(e);
                },
                Ok(c) => {
                    live.push(c);
                },
            }
            k += 1;
        }
    }
    Ok((live, archive))
}

/// Chunk `k` of an archive.
pub open spec fn archived_as(
    a: ArchiveChunk,
    k: int,
    chunks: Seq<Seq<EntryV>>,
    target: nat,
    id: u64,
) -> bool {
    a.archive_id == id && a.chunk == k && exists|p: Published| #[trigger]
        file_of(Ok(p), chunks[k], target, sticky(chunks, (k + 1) as nat)) && a.bytes@ == p.bytes@
}

/// The inputs fit in what a compaction can count.
pub open spec fn merge_fits(segs: Seq<SegV>, first: u64) -> bool {
    10 * left_over(readables(segs)) <= usize::MAX - 7 && first + left_over(readables(segs)) + 2
        <= u64::MAX
}

/// Merges segments into chunks of at most `chunk_bytes` (0: one chunk), with
/// identifiers from `next_id` on. An empty live output gives no chunks; an
/// archive may still come out.
pub fn merge<P: RetentionPolicy>(
    inputs: &Vec<SegmentReader>,
    block_target: usize,
    chunk_bytes: usize,
    next_id: u64,
    policy: &P,
    path: &mut ReadPath,
) -> (r: Result<Merged, FormatError>)
    requires
        all_wf(inputs@),
        merge_fits(segs_view(inputs@), next_id),
        path_fits(*old(path), segs_view(inputs@)),
    ensures
        match inputs_of(segs_view(inputs@), inputs@.len()) {
            Err(_) => exists|vs: Seq<Retention>| #[trigger]
                judged(whole_runs(merge_reads(segs_view(inputs@)).0), vs, policy) && r is Err
                    && short_merge(
                    r->Err_0,
                    segs_view(inputs@),
                    vs,
                    block_target as nat,
                    chunk_bytes as nat,
                ),
            Ok(all) => exists|vs: Seq<Retention>| #[trigger]
                judged(merged(all), vs, policy) && match r {
                    Ok(m) => merge_ok(
                        m,
                        merged(all),
                        inputs@.len(),
                        vs,
                        block_target as nat,
                        chunk_bytes as nat,
                        next_id,
                    ),
                    Err(e) => merge_fails(
                        e,
                        merged(all),
                        vs,
                        block_target as nat,
                        chunk_bytes as nat,
                        false,
                    ),
                },
        },
        path_fits(*final(path), segs_view(inputs@)),
        final(path).ids == old(path).ids,
        (final(path).cache@, final(path).stats@) == merge_cost(
            segs_view(inputs@),
            old(path).ids@,
            old(path).cache@,
            old(path).stats@,
        ),
{
    let ghost segs = segs_view(inputs@);
    assert(segs.len() == inputs@.len());
    let (mut es, end) = merge_readers(inputs, path);
    proof {
        merge_reads_every_entry(segs);
        lemma_run_start(merge_reads(segs).0, merge_reads(segs).0.len());
    }
    if end.is_some() {
        drop_last_run(&mut es);
    }
    let ghost v = entries_view(es@);
    let ghost cap = chunk_bytes as nat;
    let o = outline(&es, policy, chunk_bytes);
    let ghost vs = o.parts.given@;
    let ghost chunks = cut(live_rows(v, vs), cap);
    let ghost acs = pieces(archived_rows(v, vs), cap);
    proof {
        rows_are_not_made_up(v, vs);
        chunks_keep_rows(true, live_rows(v, vs), cap);
        chunks_keep_rows(false, archived_rows(v, vs), cap);
        assert(v.len() == es@.len());
        assert(o.parts.live@.len() == live_rows(v, vs).len());
        assert(o.parts.archived@.len() == archived_rows(v, vs).len());
        lemma_turns(v, vs, cap, 0, 0);
    }
    let mut lives: usize = o.live_ends.len();
    let mut archives: usize = o.archive_ends.len();
    let slot: usize = if archives > 0 {
        o.turns[0]
    } else {
        lives
    };
    if end.is_some() {
        lives = if lives > 0 {
            lives - 1
        } else {
            0
        };
        archives = if archives > 0 {
            archives - 1
        } else {
            0
        };
    }
    assert(slot == archive_slot(v, vs, cap));
    assert(lives as nat == due(chunks.len(), end is Some));
    assert(archives as nat == due(acs.len(), end is Some));
    proof {
        if end is None {
            let all = inputs_of(segs, segs.len())->Ok_0;
            assert(all == readables(segs));
            assert(v == merged(all));
            assert(judged(merged(all), vs, policy));
        } else {
            assert(v == whole_runs(merge_reads(segs).0));
            assert(judged(whole_runs(merge_reads(segs).0), vs, policy));
        }
    }
    let (live, archive) = match publish_all(
        &o,
        block_target,
        next_id,
        slot,
        lives,
        archives,
        Ghost(v),
        Ghost(cap),
    ) {
        Err(e) => {
            assert(merge_fails(e, v, vs, block_target as nat, cap, end is Some));
            assert(end is Some ==> short_merge(e, segs, vs, block_target as nat, cap));
            return Err(e);
        },
        Ok(x) => x,
    };
    if let Some(e) = end {
        proof {
            assert forall|k: int| 0 <= k < due(chunks.len(), true) implies #[trigger] live_passes(
                chunks,
                k,
                block_target as nat,
            ) by {
                assert(chunk_is(
                    live@[k],
                    chunks[k],
                    block_target as nat,
                    sticky(chunks, (k + 1) as nat),
                ));
            }
            assert forall|j: int| 0 <= j < due(acs.len(), true) implies #[trigger] archive_passes(
                acs,
                j,
                block_target as nat,
            ) by {
                assert(archived_as(
                    archive@[j],
                    j,
                    acs,
                    block_target as nat,
                    (next_id + slot) as u64,
                ));
            }
            assert(short_merge(e, segs, vs, block_target as nat, cap));
        }
        return Err(e);
    }
    let homes = find_homes(&live);
    let relocations = relocate(&es, &homes);
    let stats = CompactStats {
        segments_in: inputs.len() as u64,
        segments_out: live.len() as u64,
        entries_in: es.len() as u64,
        entries_out: o.parts.live.len() as u64,
        entries_archived: o.parts.archived.len() as u64,
    };
    let mut next: u64 = next_id + live.len() as u64;
    if archives > 0 {
        next = next + 1;
    }
    let m = Merged { stats, live, archives: archive, relocations, next_id: next };
    proof {
        assert forall|k: int| 0 <= k < chunks.len() implies #[trigger] live_ok(
            m,
            k,
            chunks,
            block_target as nat,
            live_id(next_id as int, k, slot as int, acs.len() as int),
        ) by {
            assert(m.live@[k].segment_id == live_id(
                next_id as int,
                k,
                slot as int,
                acs.len() as int,
            ));
        }
        assert forall|k: int| 0 <= k < acs.len() implies #[trigger] archive_ok(
            m,
            k,
            acs,
            block_target as nat,
            next_id + slot,
        ) by {
            assert(archived_as(m.archives@[k], k, acs, block_target as nat, (next_id + slot) as u64));
        }
    }
    Ok(m)
}

} // verus!
