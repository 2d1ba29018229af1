//! What reads see through a compaction.

use crate::codec::{lemma_lex_total, lex_lt};
use crate::compaction::laws::{
    all_in_order, answer_of, apart, chunks_do_not_overlap, chunks_keep_rows, chunks_stay_in_order,
    compaction_preserves_reads, keeps_all, layered, live_rows_stay_in_order,
    merge_orders_every_entry, merge_tells_rows_apart, newer_above,
};
use crate::compaction::merge::merged;
use crate::compaction::plan::{cut, live_rows, Retention};
use crate::compaction::run::{chunk_is, LiveChunk};
use crate::db::laws::{
    chunk_is_what_was_written, rows_fit, segment_answers_with_the_newest,
};
use crate::db::publish_laws::lemma_in_flat;
use crate::db::read::{seg_answer, seg_chain, seg_chain_rid, shown};
use crate::format::ErrV;
use crate::identity::replica_id::ReplicaId;
use crate::memtable::{lemma_first_any, lemma_first_place};
use crate::segment::block_laws::{first_rid, lemma_first_split};
use crate::segment::entry::EntryV;
use crate::segment::open::SegV;
use crate::segment::open_laws::flat;
use crate::segment::read::seg_get_rid;
use crate::segment::write::in_order;
use vstd::prelude::*;

verus! {

// ---------------------------------------------------------------------------
// Segments that answer for their rows
/// A segment answers a read of the key as its rows do.
pub open spec fn answers_plainly(seg: SegV, es: Seq<EntryV>, key: Seq<u8>) -> bool {
    &&& shown(seg_answer(seg, key)) == shown(Ok(first_rid(es, key, None)))
    &&& seg_answer(seg, key) matches Ok(x) && x is Some == first_rid(es, key, None) is Some
}

/// A segment answers a replica's read of the key as its rows do.
pub open spec fn answers_replica(seg: SegV, es: Seq<EntryV>, key: Seq<u8>, rid: ReplicaId) -> bool {
    seg_get_rid(seg, key, rid) == Ok::<Option<EntryV>, ErrV>(first_rid(es, key, Some(rid)))
}

/// Segments that answer plainly answer as layers.
proof fn lemma_plain_chain(segs: Seq<SegV>, rows: Seq<Seq<EntryV>>, n: nat, key: Seq<u8>)
    requires
        n <= segs.len(),
        n <= rows.len(),
        forall|i: int| 0 <= i < n ==> answers_plainly(#[trigger] segs[i], rows[i], key),
    ensures
        shown(seg_chain(segs, n, key)) == Ok::<Option<Seq<u8>>, ErrV>(
            answer_of(layered(rows, n, key, None)),
        ),
    decreases n,
{
    if n > 0 {
        lemma_plain_chain(segs, rows, (n - 1) as nat, key);
        assert(answers_plainly(segs[n - 1], rows[n - 1], key));
    }
}

proof fn lemma_replica_chain(
    segs: Seq<SegV>,
    rows: Seq<Seq<EntryV>>,
    n: nat,
    key: Seq<u8>,
    rid: ReplicaId,
)
    requires
        n <= segs.len(),
        n <= rows.len(),
        forall|i: int| 0 <= i < n ==> answers_replica(#[trigger] segs[i], rows[i], key, rid),
    ensures
        shown(seg_chain_rid(segs, n, key, rid)) == Ok::<Option<Seq<u8>>, ErrV>(
            answer_of(layered(rows, n, key, Some(rid))),
        ),
    decreases n,
{
    if n > 0 {
        lemma_replica_chain(segs, rows, (n - 1) as nat, key, rid);
        assert(answers_replica(segs[n - 1], rows[n - 1], key, rid));
    }
}

// ---------------------------------------------------------------------------
// Chunks
/// Chunks that do not overlap answer, newest first, as their rows do in order.
proof fn lemma_apart_layers(
    chunks: Seq<Seq<EntryV>>,
    n: nat,
    key: Seq<u8>,
    want: Option<ReplicaId>,
)
    requires
        n <= chunks.len(),
        apart(chunks),
    ensures
        layered(chunks, n, key, want) == first_rid(flat(chunks, n), key, want),
    decreases n,
{
    if n > 0 {
        let front = flat(chunks, (n - 1) as nat);
        let last = chunks[n - 1];
        lemma_apart_layers(chunks, (n - 1) as nat, key, want);
        lemma_first_split(front, last, key, want);
        if first_rid(front, key, want) is Some && first_rid(last, key, want) is Some {
            let a = lemma_first_place(front, key, want);
            let b = lemma_first_place(last, key, want);
            let (i, x) = lemma_in_flat(chunks, (n - 1) as nat, a);
            assert(lex_lt(chunks[i][x].key, chunks[n - 1][b].key));
            lemma_lex_total(key, key);
        }
    }
}

// ---------------------------------------------------------------------------
// Laws
/// A compaction that keeps every key changes no plain read. `rows` are the
/// entries of the segments before, the chunks those of the segments after.
pub proof fn compaction_changes_no_plain_read(
    before: Seq<SegV>,
    after: Seq<SegV>,
    rows: Seq<Seq<EntryV>>,
    vs: Seq<Retention>,
    cap: nat,
    key: Seq<u8>,
)
    requires
        before.len() == rows.len(),
        keeps_all(merged(rows), vs),
        all_in_order(rows),
        newer_above(rows),
        forall|i: int| 0 <= i < rows.len() ==> answers_plainly(#[trigger] before[i], rows[i], key),
        after.len() == cut(live_rows(merged(rows), vs), cap).len(),
        forall|i: int|
            0 <= i < after.len() ==> answers_plainly(
                #[trigger] after[i],
                cut(live_rows(merged(rows), vs), cap)[i],
                key,
            ),
    ensures
        shown(seg_chain(after, after.len(), key)) == shown(seg_chain(before, before.len(), key)),
        seg_chain(after, after.len(), key) is Ok,
{
    let live = live_rows(merged(rows), vs);
    let chunks = cut(live, cap);
    merge_orders_every_entry(rows);
    merge_tells_rows_apart(rows);
    live_rows_stay_in_order(merged(rows), vs);
    chunks_stay_in_order(live, cap);
    chunks_keep_rows(true, live, cap);
    chunks_do_not_overlap(live, cap);
    lemma_apart_layers(chunks, chunks.len(), key, None);
    lemma_plain_chain(after, chunks, after.len(), key);
    lemma_plain_chain(before, rows, before.len(), key);
    compaction_preserves_reads(rows, vs, key, None);
}

/// A compaction that keeps every key changes no read of a replica's row.
pub proof fn compaction_changes_no_replica_read(
    before: Seq<SegV>,
    after: Seq<SegV>,
    rows: Seq<Seq<EntryV>>,
    vs: Seq<Retention>,
    cap: nat,
    key: Seq<u8>,
    rid: ReplicaId,
)
    requires
        before.len() == rows.len(),
        keeps_all(merged(rows), vs),
        all_in_order(rows),
        newer_above(rows),
        forall|i: int|
            0 <= i < rows.len() ==> answers_replica(#[trigger] before[i], rows[i], key, rid),
        after.len() == cut(live_rows(merged(rows), vs), cap).len(),
        forall|i: int|
            0 <= i < after.len() ==> answers_replica(
                #[trigger] after[i],
                cut(live_rows(merged(rows), vs), cap)[i],
                key,
                rid,
            ),
    ensures
        shown(seg_chain_rid(after, after.len(), key, rid)) == shown(
            seg_chain_rid(before, before.len(), key, rid),
        ),
{
    let live = live_rows(merged(rows), vs);
    let chunks = cut(live, cap);
    merge_orders_every_entry(rows);
    merge_tells_rows_apart(rows);
    live_rows_stay_in_order(merged(rows), vs);
    chunks_stay_in_order(live, cap);
    chunks_keep_rows(true, live, cap);
    chunks_do_not_overlap(live, cap);
    lemma_apart_layers(chunks, chunks.len(), key, Some(rid));
    lemma_replica_chain(after, chunks, after.len(), key, rid);
    lemma_replica_chain(before, rows, before.len(), key, rid);
    compaction_preserves_reads(rows, vs, key, Some(rid));
}

/// A chunk that a compaction or a flush wrote answers for its rows.
pub proof fn chunk_answers_for_its_rows(c: LiveChunk, es: Seq<EntryV>, target: nat, v3: bool, key: Seq<u8>)
    requires
        chunk_is(c, es, target, v3),
        in_order(es),
        rows_fit(es, target, v3),
    ensures
        answers_plainly(c.reader@, es, key),
{
    chunk_is_what_was_written(c, es, target, v3);
    segment_answers_with_the_newest(es, target, v3, key);
    lemma_first_any(es, key);
}

} // verus!
