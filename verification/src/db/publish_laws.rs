//! When flushes and compactions succeed, and where they put rows.

use crate::codec::lemma_lex_irreflexive;
use crate::compaction::plan::{archived_rows, cut, live_rows, pieces, Retention};
use crate::compaction::run::{
    archive_slot, chunk_fails, chunk_is, chunk_of_file, file_of, homes_in, homes_of, live_id,
    live_ok, mentions, merge_fails, merge_ok, relocation_of, sticky, Home, LiveChunk, Merged,
};
use crate::db::allocator_laws::{ahead, fresh_placements_are_let_in};
use crate::db::flush::{flush_fails, flushed_as, flushes};
use crate::db::laws::{
    chunk_is_what_was_written, lemma_one_order, lemma_stored_first, mems_fit, rows_fit,
};
use crate::db::state::DbV;
use crate::format::{ErrV, FormatError};
use crate::idmap::{lists_map, lookup, IdKey};
use crate::memtable::{has_replicas, lemma_first_any, lemma_first_place, mem_ok, MemV};
use crate::segment::block::split;
use crate::segment::block_laws::{block_fits, first_rid, stored, stored_all};
use crate::segment::entry::{entries_view, EntryV, SegmentEntry};
use crate::segment::open::{segment_of, SegV};
use crate::segment::lookup::rid_matches;
use crate::segment::open_laws::{flat, lemma_block_count, open_gives_back_writes, seg_fits};
use crate::segment::read::{seg_entry_at, seg_get};
use crate::segment::read_laws::{
    anchors_point_at_newest_rows, get_finds_what_was_written, lemma_block_reads, points,
};
use crate::segment::write::{
    anchor_pairs, anchors_in, anchors_of, comes_first, in_order, publish_outcome, repeats, Published,
    SegmentAnchor,
};
use vstd::prelude::*;

verus! {

// ---------------------------------------------------------------------------
// Success
/// Ordered entries hold no pair of key and sequence twice, in whatever order
/// they are put.
proof fn lemma_no_repeats(entries: Seq<SegmentEntry>, order: Seq<SegmentEntry>)
    requires
        in_order(entries_view(entries)),
        order.to_multiset() == entries.to_multiset(),
    ensures
        !repeats(entries_view(order)),
{
    broadcast use vstd::seq_lib::group_to_multiset_ensures;

    let es = entries_view(entries);
    let os = entries_view(order);
    if repeats(os) {
        let i = choose|i: int|
            #![trigger os[i]]
            0 <= i && i + 1 < os.len() && os[i].key == os[i + 1].key && os[i].seq == os[i + 1].seq;
        let x = order[i];
        let y = order[i + 1];
        assert(order.contains(x) && order.contains(y));
        assert(order.to_multiset().count(x) > 0 && order.to_multiset().count(y) > 0);
        assert(entries.contains(x) && entries.contains(y));
        let p = entries.index_of(x);
        let q = if x == y {
            order.to_multiset_ensures();
            entries.to_multiset_ensures();
            let o1 = order.remove(i);
            let e1 = entries.remove(p);
            assert(o1.to_multiset() =~= e1.to_multiset());
            assert(o1[i] == x);
            assert(o1.contains(x));
            assert(o1.to_multiset().count(x) > 0);
            assert(e1.contains(x));
            let k = e1.index_of(x);
            if k < p {
                k
            } else {
                k + 1
            }
        } else {
            entries.index_of(y)
        };
        assert(entries[p] == x && entries[q] == y && p != q);
        assert(es[p] == x@ && es[q] == y@);
        assert(os[i] == x@ && os[i + 1] == y@);
        if p < q {
            assert(comes_first(es[p], es[q]));
        } else {
            assert(comes_first(es[q], es[p]));
        }
        lemma_lex_irreflexive(es[p].key);
    }
}

/// Ordered rows that fit their fields are published, and open again.
pub proof fn fitting_rows_are_published(e: FormatError, es: Seq<EntryV>, target: nat, v3: bool)
    requires
        in_order(es),
        es.len() > 0,
        target > 0,
        rows_fit(es, target, v3),
    ensures
        !chunk_fails(e, es, target, v3),
{
    reveal(chunk_fails);
    reveal(rows_fit);
    let failed: Result<Published, FormatError> = Err(e);
    if file_of(failed, es, target, v3) {
        let (entries, order) = choose|entries: Seq<SegmentEntry>, order: Seq<SegmentEntry>|
            entries_view(entries) == es && #[trigger] publish_outcome(
                failed,
                entries,
                order,
                target,
                true,
                v3,
            );
        assert(entries.len() == es.len());
        lemma_no_repeats(entries, order);
    }
    if exists|p: Published| #[trigger]
        file_of(Ok(p), es, target, v3) && segment_of(p.bytes@) == Err::<
            SegV,
            ErrV,
        >(e@) {
        let p = choose|p: Published| #[trigger]
            file_of(Ok(p), es, target, v3) && segment_of(p.bytes@) == Err::<
                SegV,
                ErrV,
            >(e@);
        let r: Result<Published, FormatError> = Ok(p);
        let (entries, order) = choose|entries: Seq<SegmentEntry>, order: Seq<SegmentEntry>|
            entries_view(entries) == es && #[trigger] publish_outcome(
                r,
                entries,
                order,
                target,
                true,
                v3,
            );
        lemma_one_order(order, entries);
        open_gives_back_writes(es, split(es, target, true, v3), true, v3);
    }
}

/// What a segment answers for a key of the entries that were pushed, in
/// whatever order: the newest entry of the key, as its blocks keep it.
pub open spec fn answers_pushed(
    r: Result<Option<EntryV>, ErrV>,
    entries: Seq<SegmentEntry>,
    v3: bool,
    key: Seq<u8>,
) -> bool {
    match r {
        Err(_) => false,
        Ok(None) => forall|j: int|
            0 <= j < entries.len() ==> (#[trigger] entries[j])@.key != key,
        Ok(Some(e)) => {
            &&& exists|i: int|
                0 <= i < entries.len() && (#[trigger] entries[i])@.key == key && e == stored(
                    entries[i]@,
                    v3,
                )
            &&& forall|j: int|
                0 <= j < entries.len() && (#[trigger] entries[j])@.key == key ==> entries[j]@.seq
                    <= e.seq
        },
    }
}

/// A published segment, open again, answers each key with the newest entry
/// that was pushed for it.
pub proof fn pushed_entries_are_found(
    p: Published,
    entries: Seq<SegmentEntry>,
    order: Seq<SegmentEntry>,
    target: nat,
    v2: bool,
    v3: bool,
    key: Seq<u8>,
)
    requires
        publish_outcome(Ok(p), entries, order, target, v2, v3),
        seg_fits(entries_view(order), split(entries_view(order), target, v2, v3), v2, v3),
    ensures
        segment_of(p.bytes@) matches Ok(s) && answers_pushed(seg_get(s, key), entries, v3, key),
{
    broadcast use vstd::seq_lib::group_to_multiset_ensures;

    let es = entries_view(order);
    let blocks = split(es, target, v2, v3);
    open_gives_back_writes(es, blocks, v2, v3);
    get_finds_what_was_written(es, blocks, v2, v3, key);
    lemma_stored_first(es, v3, key);
    lemma_first_any(es, key);
    assert forall|j: int| 0 <= j < entries.len() implies order.contains(#[trigger] entries[j]) by {
        assert(entries.contains(entries[j]));
        assert(entries.to_multiset().count(entries[j]) > 0);
    }
    assert forall|j: int| 0 <= j < order.len() implies entries.contains(#[trigger] order[j]) by {
        assert(order.contains(order[j]));
        assert(order.to_multiset().count(order[j]) > 0);
    }
    let i = lemma_first_place(es, key, None);
    assert forall|j: int| 0 <= j < entries.len() && (#[trigger] entries[j])@.key == key implies first_rid(
        es,
        key,
        None,
    ) is Some && entries[j]@.seq <= es[i].seq by {
        assert(order.contains(entries[j]));
        let a = choose|a: int| 0 <= a < order.len() && order[a] == entries[j];
        assert(es[a] == entries[j]@);
        if first_rid(es, key, None) is Some {
            if a < i {
                assert(!(es[a].key == key && rid_matches(None, es[a].replica_id)));
            } else if i < a {
                assert(comes_first(es[i], es[a]));
                lemma_lex_irreflexive(key);
            }
        } else {
            assert(!(es[a].key == key && rid_matches(None, es[a].replica_id)));
        }
    }
    if first_rid(es, key, None) is Some {
        assert(entries.contains(order[i]));
        let b = choose|b: int| 0 <= b < entries.len() && entries[b] == order[i];
        assert(es[i] == entries[b]@);
    }
}

/// A flush of rows that fit does not fail: every memtable is published, and no
/// placement is refused.
pub proof fn flush_of_fitting_rows_succeeds(
    s: DbV,
    e: FormatError,
    chunks: Seq<LiveChunk>,
    homes: Seq<(u64, Home)>,
    target: nat,
    after: DbV,
)
    requires
        target > 0,
        mems_fit(s.immutables, target),
        forall|i: int| 0 <= i < s.immutables.len() ==> (#[trigger] s.immutables[i]).rows.len() > 0,
        ahead(s),
        s.next_placement_generation + homes.len() <= u64::MAX,
    ensures
        !flush_fails(s, e, chunks, homes, target, after),
{
    if flush_fails(s, e, chunks, homes, target, after) {
        let n = s.immutables.len();
        if chunks.len() < n {
            let m = s.immutables[chunks.len() as int];
            assert(mem_ok(m) && rows_fit(m.rows, target, has_replicas(m.rows)));
            fitting_rows_are_published(e, m.rows, target, has_replicas(m.rows));
        } else {
            assert forall|i: int, j: int|
                #![trigger homes[i], homes[j]]
                0 <= i < j < homes.len() implies homes[i].0 < homes[j].0 by {
                assert(homes[i].0.before(homes[j].0));
            }
            fresh_placements_are_let_in(s.dirs, s.next_placement_generation, homes, homes.len());
        }
    }
}

/// A compaction of rows that fit does not fail.
pub proof fn merge_of_fitting_rows_succeeds(
    e: FormatError,
    es: Seq<EntryV>,
    vs: Seq<Retention>,
    target: nat,
    cap: nat,
)
    requires
        target > 0,
        parts_fit(cut(live_rows(es, vs), cap), target),
        parts_fit(pieces(archived_rows(es, vs), cap), target),
    ensures
        !merge_fails(e, es, vs, target, cap, false),
{
    let chunks = cut(live_rows(es, vs), cap);
    let acs = pieces(archived_rows(es, vs), cap);
    assert forall|k: int| 0 <= k < chunks.len() implies !#[trigger] chunk_fails(
        e,
        chunks[k],
        target,
        sticky(chunks, (k + 1) as nat),
    ) by {
        assert(in_order(chunks[k]));
        fitting_rows_are_published(e, chunks[k], target, sticky(chunks, (k + 1) as nat));
    }
    assert forall|k: int| 0 <= k < acs.len() implies !#[trigger] file_of(
        Err(e),
        acs[k],
        target,
        sticky(acs, (k + 1) as nat),
    ) by {
        assert(in_order(acs[k]));
        fitting_rows_are_published(e, acs[k], target, sticky(acs, (k + 1) as nat));
        reveal(chunk_fails);
    }
}

/// Chunks of rows that fit their fields.
pub open spec fn parts_fit(parts: Seq<Seq<EntryV>>, target: nat) -> bool {
    forall|k: int|
        0 <= k < parts.len() ==> in_order(#[trigger] parts[k]) && parts[k].len() > 0 && rows_fit(
            parts[k],
            target,
            sticky(parts, (k + 1) as nat),
        )
}

// ---------------------------------------------------------------------------
// Homes
/// An anchor of a chunk: the row at its place is the replica's, and has its
/// sequence.
pub open spec fn finds(c: LiveChunk, a: SegmentAnchor) -> bool {
    seg_entry_at(c.reader@, a.block_id.0, a.entry_offset) matches Ok(Some(row)) && row.replica_id
        == a.replica_id && row.seq == a.seq
}

/// A home: some chunk of the first `n` holds the replica's row there.
pub open spec fn home_holds(chunks: Seq<LiveChunk>, n: nat, r: u64, h: Home) -> bool {
    exists|i: int|
        #![trigger chunks[i]]
        0 <= i < n && chunks[i].segment_id == h.segment_id.0 && (seg_entry_at(
            chunks[i].reader@,
            h.block_id.0,
            h.entry_offset,
        ) matches Ok(Some(row)) && row.replica_id.0 == r && row.seq == h.seq)
}

pub proof fn lemma_in_flat(blocks: Seq<Seq<EntryV>>, k: nat, x: int) -> (r: (int, int))
    requires
        k <= blocks.len(),
        0 <= x < flat(blocks, k).len(),
    ensures
        0 <= r.0 < k,
        0 <= r.1 < blocks[r.0].len(),
        blocks[r.0][r.1] == flat(blocks, k)[x],
    decreases k,
{
    let front = flat(blocks, (k - 1) as nat);
    if x < front.len() {
        lemma_in_flat(blocks, (k - 1) as nat, x)
    } else {
        (k - 1, x - front.len())
    }
}

/// The anchors of a chunk with replicas point at the newest rows of their
/// replicas, and no replica with rows is without one.
#[verifier::rlimit(40)]
pub proof fn anchors_find_the_newest_rows(c: LiveChunk, es: Seq<EntryV>, target: nat)
    requires
        chunk_is(c, es, target, true),
        in_order(es),
        rows_fit(es, target, true),
    ensures
        forall|i: int| 0 <= i < c.anchors@.len() ==> finds(c, #[trigger] c.anchors@[i]),
        forall|x: int|
            0 <= x < es.len() && (#[trigger] es[x]).replica_id.0 != 0 ==> exists|i: int|
                0 <= i < c.anchors@.len() && (#[trigger] c.anchors@[i]).replica_id
                    == es[x].replica_id && es[x].seq <= c.anchors@[i].seq,
{
    reveal(chunk_is);
    reveal(rows_fit);
    chunk_is_what_was_written(c, es, target, true);
    let p = choose|p: Published| #[trigger]
        file_of(Ok(p), es, target, true) && chunk_of_file(c, p);
    let r: Result<Published, FormatError> = Ok(p);
    let (entries, order) = choose|entries: Seq<SegmentEntry>, order: Seq<SegmentEntry>|
        entries_view(entries) == es && #[trigger] publish_outcome(
            r,
            entries,
            order,
            target,
            true,
            true,
        );
    lemma_one_order(order, entries);
    let blocks = split(es, target, true, true);
    let n = blocks.len();
    let m = anchors_of(blocks, n);
    let pairs = anchor_pairs(c.anchors@);
    assert(lists_map(pairs, m));
    assert forall|i: int| 0 <= i < n implies (#[trigger] blocks[i]).len() <= u32::MAX by {
        assert(block_fits(blocks[i], true, true));
        lemma_block_count(blocks[i], true, true);
    }
    anchors_point_at_newest_rows(blocks, n);
    assert forall|i: int| 0 <= i < c.anchors@.len() implies finds(c, #[trigger] c.anchors@[i]) by {
        let a = c.anchors@[i];
        assert(pairs[i] == (a.replica_id.0, a));
        assert(m.contains_key(pairs[i].0));
        assert(points(blocks, a, a.replica_id.0));
        let b = a.block_id.0 as int;
        lemma_block_reads(es, blocks, true, true, b);
        assert(stored_all(blocks[b], true)[a.entry_offset as int]
            == blocks[b][a.entry_offset as int]);
    }
    assert forall|x: int| 0 <= x < es.len() && (#[trigger] es[x]).replica_id.0 != 0 implies exists|
        i: int,
    |
        0 <= i < c.anchors@.len() && (#[trigger] c.anchors@[i]).replica_id == es[x].replica_id
            && es[x].seq <= c.anchors@[i].seq by {
        let (bi, bj) = lemma_in_flat(blocks, n, x);
        assert(blocks[bi][bj] == es[x]);
        let k = es[x].replica_id.0;
        assert(m.contains_key(k));
        let i = choose|i: int| 0 <= i < pairs.len() && (#[trigger] pairs[i]).0 == k;
        assert(m[pairs[i].0] == pairs[i].1);
        assert(c.anchors@[i].replica_id == es[x].replica_id);
    }
}

/// A row of a block stands among the rows of all blocks.
proof fn lemma_flat_holds(blocks: Seq<Seq<EntryV>>, k: nat, i: int, j: int) -> (x: int)
    requires
        0 <= i < k <= blocks.len(),
        0 <= j < blocks[i].len(),
    ensures
        0 <= x < flat(blocks, k).len(),
        flat(blocks, k)[x] == blocks[i][j],
    decreases k,
{
    if i < k - 1 {
        lemma_flat_holds(blocks, (k - 1) as nat, i, j)
    } else {
        flat(blocks, (k - 1) as nat).len() + j
    }
}

/// An anchor of a segment of the entries that were pushed: at its place the
/// segment holds the entry of the replica that has the highest sequence.
pub open spec fn anchors_pushed(s: SegV, entries: Seq<SegmentEntry>, a: SegmentAnchor) -> bool {
    &&& a.replica_id.0 != 0
    &&& exists|j: int|
        0 <= j < entries.len() && seg_entry_at(s, a.block_id.0, a.entry_offset) == Ok::<
            Option<EntryV>,
            ErrV,
        >(Some((#[trigger] entries[j])@)) && entries[j]@.replica_id == a.replica_id
            && entries[j]@.seq == a.seq
    &&& forall|j: int|
        0 <= j < entries.len() && (#[trigger] entries[j])@.replica_id == a.replica_id
            ==> entries[j]@.seq <= a.seq
}

/// The anchors of a published segment, in whatever order its entries were
/// pushed: each replica with entries has one, no entry of no replica has any,
/// and in the segment, open again, each is the place of the replica's entry of
/// the highest sequence.
#[verifier::rlimit(40)]
pub proof fn pushed_entries_are_anchored(
    p: Published,
    entries: Seq<SegmentEntry>,
    order: Seq<SegmentEntry>,
    target: nat,
)
    requires
        publish_outcome(Ok(p), entries, order, target, true, true),
        seg_fits(entries_view(order), split(entries_view(order), target, true, true), true, true),
    ensures
        segment_of(p.bytes@) is Ok,
        forall|i: int|
            0 <= i < p.anchors@.len() ==> anchors_pushed(
                segment_of(p.bytes@)->Ok_0,
                entries,
                #[trigger] p.anchors@[i],
            ),
        forall|i: int, j: int|
            #![trigger p.anchors@[i], p.anchors@[j]]
            0 <= i < j < p.anchors@.len() ==> p.anchors@[i].replica_id.0
                < p.anchors@[j].replica_id.0,
        forall|j: int|
            0 <= j < entries.len() && (#[trigger] entries[j])@.replica_id.0 != 0 ==> exists|i: int|
                0 <= i < p.anchors@.len() && (#[trigger] p.anchors@[i]).replica_id
                    == entries[j]@.replica_id,
{
    broadcast use vstd::seq_lib::group_to_multiset_ensures;

    let es = entries_view(order);
    let blocks = split(es, target, true, true);
    let n = blocks.len();
    let m = anchors_of(blocks, n);
    let pairs = anchor_pairs(p.anchors@);
    open_gives_back_writes(es, blocks, true, true);
    let s = segment_of(p.bytes@)->Ok_0;
    assert(lists_map(pairs, m));
    assert forall|i: int| 0 <= i < n implies (#[trigger] blocks[i]).len() <= u32::MAX by {
        assert(block_fits(blocks[i], true, true));
        lemma_block_count(blocks[i], true, true);
    }
    anchors_point_at_newest_rows(blocks, n);
    assert forall|j: int| 0 <= j < entries.len() && (
    #[trigger] entries[j])@.replica_id.0 != 0 implies m.contains_key(entries[j]@.replica_id.0)
        && entries[j]@.seq <= m[entries[j]@.replica_id.0].seq by {
        assert(entries.contains(entries[j]));
        assert(entries.to_multiset().count(entries[j]) > 0);
        assert(order.contains(entries[j]));
        let x = choose|x: int| 0 <= x < order.len() && order[x] == entries[j];
        assert(es[x] == entries[j]@);
        let (bi, bj) = lemma_in_flat(blocks, n, x);
        assert(blocks[bi][bj] == es[x]);
    }
    assert forall|i: int| 0 <= i < p.anchors@.len() implies anchors_pushed(
        s,
        entries,
        #[trigger] p.anchors@[i],
    ) by {
        let a = p.anchors@[i];
        assert(pairs[i] == (a.replica_id.0, a));
        assert(m.contains_key(pairs[i].0));
        assert(points(blocks, a, a.replica_id.0));
        let b = a.block_id.0 as int;
        let o = a.entry_offset as int;
        lemma_block_reads(es, blocks, true, true, b);
        assert(stored_all(blocks[b], true)[o] == blocks[b][o]);
        let x = lemma_flat_holds(blocks, n, b, o);
        assert(order.contains(order[x]));
        assert(order.to_multiset().count(order[x]) > 0);
        assert(entries.contains(order[x]));
        let j = choose|j: int| 0 <= j < entries.len() && entries[j] == order[x];
        assert(es[x] == entries[j]@);
        assert(seg_entry_at(s, a.block_id.0, a.entry_offset) == Ok::<Option<EntryV>, ErrV>(
            Some(entries[j]@),
        ));
    }
    assert forall|i: int, j: int|
        #![trigger p.anchors@[i], p.anchors@[j]]
        0 <= i < j < p.anchors@.len() implies p.anchors@[i].replica_id.0
        < p.anchors@[j].replica_id.0 by {
        assert(pairs[i].0.before(pairs[j].0));
    }
    assert forall|j: int| 0 <= j < entries.len() && (
    #[trigger] entries[j])@.replica_id.0 != 0 implies exists|i: int|
        0 <= i < p.anchors@.len() && (#[trigger] p.anchors@[i]).replica_id
            == entries[j]@.replica_id by {
        let k = entries[j]@.replica_id.0;
        let i = choose|i: int| 0 <= i < pairs.len() && (#[trigger] pairs[i]).0 == k;
        assert(p.anchors@[i].replica_id == entries[j]@.replica_id);
    }
}

proof fn lemma_homes_in(
    chunks: Seq<LiveChunk>,
    n: nat,
    m: Map<u64, Home>,
    k: nat,
)
    requires
        n < chunks.len(),
        k <= chunks[n as int].anchors@.len(),
        forall|r: u64| #[trigger] m.contains_key(r) ==> home_holds(chunks, n, r, m[r]),
        forall|i: int|
            0 <= i < chunks[n as int].anchors@.len() ==> finds(
                chunks[n as int],
                #[trigger] chunks[n as int].anchors@[i],
            ),
    ensures
        ({
            let c = chunks[n as int];
            let h = homes_in(m, c.segment_id, c.anchors@, k);
            &&& forall|r: u64| #[trigger] h.contains_key(r) ==> home_holds(chunks, n + 1, r, h[r])
            &&& forall|r: u64| #[trigger]
                m.contains_key(r) ==> h.contains_key(r) && m[r].seq <= h[r].seq
            &&& forall|i: int|
                0 <= i < k ==> h.contains_key((#[trigger] c.anchors@[i]).replica_id.0)
                    && c.anchors@[i].seq <= h[c.anchors@[i].replica_id.0].seq
        }),
    decreases k,
{
    let c = chunks[n as int];
    let h = homes_in(m, c.segment_id, c.anchors@, k);
    if k == 0 {
        assert forall|r: u64| #[trigger] h.contains_key(r) implies home_holds(
            chunks,
            n + 1,
            r,
            h[r],
        ) by {
            assert(home_holds(chunks, n, r, m[r]));
        }
    } else {
        lemma_homes_in(chunks, n, m, (k - 1) as nat);
        let h0 = homes_in(m, c.segment_id, c.anchors@, (k - 1) as nat);
        let a = c.anchors@[k - 1];
        assert(finds(c, a));
        assert forall|r: u64| #[trigger] h.contains_key(r) implies home_holds(
            chunks,
            n + 1,
            r,
            h[r],
        ) by {
            if h0.contains_key(r) && h[r] == h0[r] {
                assert(home_holds(chunks, n + 1, r, h0[r]));
            } else {
                assert(r == a.replica_id.0);
                assert(chunks[n as int].segment_id == h[r].segment_id.0);
            }
        }
    }
}

proof fn lemma_anchor_in_nonzero(m: Map<u64, SegmentAnchor>, bl: Seq<EntryV>, block: int, n: nat)
    requires
        n <= bl.len(),
        !m.contains_key(0),
    ensures
        !anchors_in(m, bl, block, n).contains_key(0),
    decreases n,
{
    if n > 0 {
        lemma_anchor_in_nonzero(m, bl, block, (n - 1) as nat);
    }
}

proof fn lemma_anchors_nonzero(blocks: Seq<Seq<EntryV>>, k: nat)
    requires
        k <= blocks.len(),
    ensures
        !anchors_of(blocks, k).contains_key(0),
    decreases k,
{
    if k > 0 {
        lemma_anchors_nonzero(blocks, (k - 1) as nat);
        lemma_anchor_in_nonzero(
            anchors_of(blocks, (k - 1) as nat),
            blocks[k - 1],
            k - 1,
            blocks[k - 1].len(),
        );
    }
}

/// Rows of no replica have no anchor.
proof fn lemma_anchors_named(c: LiveChunk, es: Seq<EntryV>, target: nat, v3: bool)
    requires
        chunk_is(c, es, target, v3),
    ensures
        forall|i: int| 0 <= i < c.anchors@.len() ==> (#[trigger] c.anchors@[i]).replica_id.0 != 0,
{
    reveal(chunk_is);
    let p = choose|p: Published| #[trigger]
        file_of(Ok(p), es, target, v3) && chunk_of_file(c, p);
    let r: Result<Published, FormatError> = Ok(p);
    let (entries, order) = choose|entries: Seq<SegmentEntry>, order: Seq<SegmentEntry>|
        entries_view(entries) == es && #[trigger] publish_outcome(
            r,
            entries,
            order,
            target,
            true,
            v3,
        );
    let blocks = split(entries_view(order), target, true, v3);
    let pairs = anchor_pairs(c.anchors@);
    let m = if v3 {
        anchors_of(blocks, blocks.len())
    } else {
        Map::<u64, SegmentAnchor>::empty()
    };
    assert(lists_map(pairs, m));
    lemma_anchors_nonzero(blocks, blocks.len());
    assert forall|i: int| 0 <= i < c.anchors@.len() implies (
    #[trigger] c.anchors@[i]).replica_id.0 != 0 by {
        assert(pairs[i].0 == c.anchors@[i].replica_id.0);
        assert(m.contains_key(pairs[i].0));
    }
}

proof fn lemma_homes_in_named(m: Map<u64, Home>, c: LiveChunk, k: nat)
    requires
        k <= c.anchors@.len(),
        !m.contains_key(0),
        forall|i: int| 0 <= i < c.anchors@.len() ==> (#[trigger] c.anchors@[i]).replica_id.0 != 0,
    ensures
        !homes_in(m, c.segment_id, c.anchors@, k).contains_key(0),
    decreases k,
{
    if k > 0 {
        lemma_homes_in_named(m, c, (k - 1) as nat);
        assert(c.anchors@[k - 1].replica_id.0 != 0);
    }
}

/// Only replicas have homes.
pub proof fn homes_are_of_replicas(
    chunks: Seq<LiveChunk>,
    parts: Seq<Seq<EntryV>>,
    v3s: Seq<bool>,
    target: nat,
    n: nat,
)
    requires
        n <= chunks.len(),
        chunks.len() == parts.len(),
        chunks.len() == v3s.len(),
        forall|i: int|
            0 <= i < chunks.len() ==> chunk_is(#[trigger] chunks[i], parts[i], target, v3s[i]),
    ensures
        !homes_of(chunks, n).contains_key(0),
    decreases n,
{
    if n > 0 {
        homes_are_of_replicas(chunks, parts, v3s, target, (n - 1) as nat);
        assert(chunk_is(chunks[n - 1], parts[n - 1], target, v3s[n - 1]));
        lemma_anchors_named(chunks[n - 1], parts[n - 1], target, v3s[n - 1]);
        lemma_homes_in_named(
            homes_of(chunks, (n - 1) as nat),
            chunks[n - 1],
            chunks[n - 1].anchors@.len(),
        );
    }
}

/// Chunk `i` is the segment of part `i`; parts with replicas keep them.
pub open spec fn chunk_holds(c: LiveChunk, part: Seq<EntryV>, target: nat, v3: bool) -> bool {
    &&& chunk_is(c, part, target, v3)
    &&& in_order(part)
    &&& rows_fit(part, target, v3)
    &&& has_replicas(part) ==> v3
}

/// Every replica with rows in the chunks has a home, the home holds a row of
/// the replica, and no row of it is newer.
pub proof fn homes_hold_the_newest_rows(
    chunks: Seq<LiveChunk>,
    parts: Seq<Seq<EntryV>>,
    v3s: Seq<bool>,
    target: nat,
    n: nat,
)
    requires
        n <= chunks.len(),
        chunks.len() == parts.len(),
        chunks.len() == v3s.len(),
        forall|i: int|
            0 <= i < chunks.len() ==> chunk_holds(#[trigger] chunks[i], parts[i], target, v3s[i]),
    ensures
        forall|r: u64| #[trigger]
            homes_of(chunks, n).contains_key(r) ==> home_holds(chunks, n, r, homes_of(chunks, n)[r]),
        forall|i: int, x: int|
            #![trigger parts[i][x]]
            0 <= i < n && 0 <= x < parts[i].len() && parts[i][x].replica_id.0 != 0 ==> homes_of(
                chunks,
                n,
            ).contains_key(parts[i][x].replica_id.0) && parts[i][x].seq <= homes_of(
                chunks,
                n,
            )[parts[i][x].replica_id.0].seq,
    decreases n,
{
    if n > 0 {
        homes_hold_the_newest_rows(chunks, parts, v3s, target, (n - 1) as nat);
        let c = chunks[n - 1];
        let rows = parts[n - 1];
        assert(chunk_holds(chunks[n - 1], parts[n - 1], target, v3s[n - 1]));
        if v3s[n - 1] {
            anchors_find_the_newest_rows(c, rows, target);
        } else {
            lemma_plain_anchors(c, rows, target);
        }
        let before = homes_of(chunks, (n - 1) as nat);
        lemma_homes_in(chunks, (n - 1) as nat, before, c.anchors@.len());
        let after = homes_of(chunks, n);
        assert forall|i: int, x: int|
            #![trigger parts[i][x]]
            0 <= i < n && 0 <= x < parts[i].len() && parts[i][x].replica_id.0
                != 0 implies after.contains_key(parts[i][x].replica_id.0) && parts[i][x].seq
            <= after[parts[i][x].replica_id.0].seq by {
            let row = parts[i][x];
            if i == n - 1 {
                assert(rows[x] == row);
                assert(has_replicas(rows));
                let k = choose|k: int|
                    0 <= k < c.anchors@.len() && (#[trigger] c.anchors@[k]).replica_id
                        == row.replica_id && row.seq <= c.anchors@[k].seq;
                assert(after.contains_key(c.anchors@[k].replica_id.0));
            } else {
                assert(before.contains_key(row.replica_id.0));
            }
        }
    }
}

/// After a flush the placement of a replica with flushed rows leads to its
/// newest flushed row.
pub proof fn flushed_replicas_are_found(
    chunks: Seq<LiveChunk>,
    mems: Seq<MemV>,
    first: u64,
    target: nat,
    r: u64,
)
    requires
        flushes(chunks, mems, first, target),
        mems_fit(mems, target),
        chunks.len() == mems.len(),
    ensures
        lookup(homes_of(chunks, chunks.len()), r) matches Some(h) ==> home_holds(
            chunks,
            chunks.len(),
            r,
            h,
        ),
        forall|i: int, x: int|
            #![trigger mems[i].rows[x]]
            0 <= i < mems.len() && 0 <= x < mems[i].rows.len() && mems[i].rows[x].replica_id.0 == r
                && r != 0 ==> (lookup(homes_of(chunks, chunks.len()), r) matches Some(h)
                && mems[i].rows[x].seq <= h.seq),
{
    let parts = mems.map_values(|m: MemV| m.rows);
    let v3s = mems.map_values(|m: MemV| has_replicas(m.rows));
    assert forall|i: int| 0 <= i < chunks.len() implies chunk_holds(
        #[trigger] chunks[i],
        parts[i],
        target,
        v3s[i],
    ) by {
        assert(flushed_as(chunks[i], mems[i], first + i, target));
        assert(mem_ok(mems[i]));
    }
    homes_hold_the_newest_rows(chunks, parts, v3s, target, chunks.len());
    assert forall|i: int, x: int|
        #![trigger mems[i].rows[x]]
        0 <= i < mems.len() && 0 <= x < mems[i].rows.len() && mems[i].rows[x].replica_id.0 == r && r
            != 0 implies (lookup(homes_of(chunks, chunks.len()), r) matches Some(h)
        && mems[i].rows[x].seq <= h.seq) by {
        assert(parts[i][x] == mems[i].rows[x]);
    }
}

/// After a compaction every replica of the inputs is moved: to its newest live
/// row, or nowhere where no live row of it is left.
pub proof fn moved_replicas_are_found(
    m: Merged,
    es: Seq<EntryV>,
    inputs: nat,
    vs: Seq<Retention>,
    target: nat,
    cap: nat,
    first: u64,
    r: u64,
)
    requires
        merge_ok(m, es, inputs, vs, target, cap, first),
        mentions(es, r),
        parts_fit(cut(live_rows(es, vs), cap), target),
    ensures
        ({
            let chunks = cut(live_rows(es, vs), cap);
            match lookup(m.relocations@, r) {
                Some(Some(to)) => exists|h: Home|
                    h.segment_id == to.0 && h.block_id == to.1 && h.entry_offset == to.2
                        && #[trigger] home_holds(m.live@, m.live@.len(), r, h) && forall|
                        k: int,
                        x: int,
                    |
                        #![trigger chunks[k][x]]
                        0 <= k < chunks.len() && 0 <= x < chunks[k].len()
                            && chunks[k][x].replica_id.0 == r ==> chunks[k][x].seq <= h.seq,
                Some(None) => forall|k: int, x: int|
                    #![trigger chunks[k][x]]
                    0 <= k < chunks.len() && 0 <= x < chunks[k].len()
                        ==> chunks[k][x].replica_id.0 != r,
                None => false,
            }
        }),
{
    let chunks = cut(live_rows(es, vs), cap);
    let n = m.live@.len();
    let v3s = Seq::new(n, |k: int| sticky(chunks, (k + 1) as nat));
    let slot = archive_slot(es, vs, cap) as int;
    let acs = pieces(archived_rows(es, vs), cap);
    assert forall|k: int| 0 <= k < n implies chunk_holds(
        #[trigger] m.live@[k],
        chunks[k],
        target,
        v3s[k],
    ) by {
        assert(in_order(chunks[k]));
        assert(live_ok(
            m,
            k,
            chunks,
            target,
            live_id(first as int, k, slot, acs.len() as int),
        ));
    }
    homes_hold_the_newest_rows(m.live@, chunks, v3s, target, n);
    let homes = homes_of(m.live@, n);
    assert(lookup(m.relocations@, r) == Some(relocation_of(lookup(homes, r))));
    if let Some(h) = lookup(homes, r) {
        assert(home_holds(m.live@, n, r, h));
    }
}

/// A chunk of plain rows has no anchors.
proof fn lemma_plain_anchors(c: LiveChunk, es: Seq<EntryV>, target: nat)
    requires
        chunk_is(c, es, target, false),
    ensures
        c.anchors@.len() == 0,
{
    reveal(chunk_is);
    let p = choose|p: Published| #[trigger]
        file_of(Ok(p), es, target, false) && chunk_of_file(c, p);
    let r: Result<Published, FormatError> = Ok(p);
    let (entries, order) = choose|entries: Seq<SegmentEntry>, order: Seq<SegmentEntry>|
        entries_view(entries) == es && #[trigger] publish_outcome(
            r,
            entries,
            order,
            target,
            true,
            false,
        );
    let pairs = anchor_pairs(c.anchors@);
    assert(lists_map(pairs, Map::<u64, SegmentAnchor>::empty()));
    if pairs.len() > 0 {
        assert(Map::<u64, SegmentAnchor>::empty().contains_key(pairs[0].0));
    }
}

} // verus!
