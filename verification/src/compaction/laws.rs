//! What a compaction keeps.

use crate::codec::{lemma_lex_total, lemma_lex_trans, lex_le, lex_lt};
use crate::compaction::merge::{
    best, beats, left_over, lemma_best, lemma_left_over, merged, without_head,
};
use crate::compaction::plan::{
    answers_for, archived_rows, chunk_len, chunk_more, cut, cut_by, entry_size, firsts, head_run, judged,
    lemma_chunk_more, lemma_run_len, lemma_without_tail, live_rows, newest_rows, outdated, pieces,
    run_live,
    runs, without_tail, KeepAll, Retention, RetentionPolicy,
};
use crate::compaction::run::{
    archive_ok, archive_slot, chunk_is, chunk_of_file, file_of, homes_in, homes_of, live_id,
    live_ok, merge_ok, Home, LiveChunk, Merged,
};
use crate::format::FormatError;
use crate::identity::replica_id::ReplicaId;
use crate::idmap::lemma_lists_len;
use crate::memtable::{
    first_at, is_delete, lemma_first_at, lemma_first_none, lemma_first_place, lemma_first_total,
    lemma_first_trans, same_slot, value_of,
};
use crate::segment::block_laws::{first_rid, lemma_first_split, lemma_order_part};
use crate::segment::block::split;
use crate::segment::entry::{entries_view, EntryV, SegmentEntry};
use crate::segment::lookup::rid_matches;
use crate::segment::open_laws::{flat, split_keeps_entries};
use crate::segment::write::{
    anchor_pairs, anchors_in, anchors_of, comes_first, in_order, publish_outcome, Published,
    SegmentAnchor,
};
use vstd::prelude::*;

verus! {

/// The merge holds as many entries as its inputs.
pub proof fn merge_counts_every_entry(pend: Seq<Seq<EntryV>>)
    ensures
        merged(pend).len() == left_over(pend),
    decreases left_over(pend),
{
    lemma_best(pend, pend.len());
    match best(pend, pend.len()) {
        None => {
            lemma_nothing_left(pend);
        },
        Some(i) => {
            lemma_left_over(pend, i);
            merge_counts_every_entry(without_head(pend, i));
        },
    }
}

proof fn lemma_nothing_left(pend: Seq<Seq<EntryV>>)
    requires
        forall|i: int| 0 <= i < pend.len() ==> (#[trigger] pend[i]).len() == 0,
    ensures
        left_over(pend) == 0,
    decreases pend.len(),
{
    if pend.len() > 0 {
        let p = pend.drop_last();
        assert forall|i: int| 0 <= i < p.len() implies (#[trigger] p[i]).len() == 0 by {
            assert(p[i] == pend[i]);
        }
        lemma_nothing_left(p);
        assert(pend.last().len() == 0);
    }
}

proof fn lemma_firsts_len(run: Seq<EntryV>, n: nat)
    ensures
        firsts(run, n).len() <= n,
    decreases n,
{
    if n > 0 {
        lemma_firsts_len(run, (n - 1) as nat);
    }
}

proof fn lemma_newest_len(run: Seq<EntryV>, n: nat)
    ensures
        newest_rows(run, n).len() <= n,
{
    lemma_firsts_len(run, n);
    lemma_without_tail(firsts(run, n));
}

/// No row goes to both sides, and none is made up.
pub proof fn rows_are_not_made_up(es: Seq<EntryV>, vs: Seq<Retention>)
    ensures
        live_rows(es, vs).len() + archived_rows(es, vs).len() <= es.len(),
    decreases es.len(),
{
    if es.len() > 0 {
        lemma_run_len(es, es[0].key);
        let n = head_run(es) as int;
        lemma_newest_len(es.take(n), n as nat);
        rows_are_not_made_up(es.skip(n), vs.skip(1));
    }
}

/// Chunks hold the rows, in order and none left out; no chunk is empty.
pub proof fn chunks_keep_rows(whole: bool, rows: Seq<EntryV>, cap: nat)
    ensures
        flat(cut_by(whole, rows, cap), cut_by(whole, rows, cap).len()) == rows,
        cut_by(whole, rows, cap).len() <= rows.len(),
        forall|k: int|
            0 <= k < cut_by(whole, rows, cap).len() ==> (#[trigger] cut_by(
                whole,
                rows,
                cap,
            )[k]).len() > 0,
    decreases rows.len(),
{
    if rows.len() > 0 {
        lemma_chunk_more(whole, rows[0].key, rows.skip(1), cap, entry_size(rows[0]));
        let n = chunk_len(whole, rows, cap);
        let rest = cut_by(whole, rows.skip(n as int), cap);
        let all = cut_by(whole, rows, cap);
        chunks_keep_rows(whole, rows.skip(n as int), cap);
        assert(all =~= seq![rows.take(n as int)] + rest);
        lemma_flat_front(rows.take(n as int), rest, rest.len());
        assert(rows.take(n as int) + rows.skip(n as int) =~= rows);
        assert forall|k: int| 0 <= k < all.len() implies (#[trigger] all[k]).len() > 0 by {
            if k > 0 {
                assert(all[k] == rest[k - 1]);
            }
        }
    }
}

proof fn lemma_flat_front(a: Seq<EntryV>, rest: Seq<Seq<EntryV>>, k: nat)
    requires
        k <= rest.len(),
    ensures
        flat(seq![a] + rest, k + 1) == a + flat(rest, k),
    decreases k,
{
    let all = seq![a] + rest;
    if k == 0 {
        assert(flat(all, 0) =~= seq![]);
        assert(flat(all, 1) =~= a);
        assert(a + flat(rest, 0) =~= a);
    } else {
        lemma_flat_front(a, rest, (k - 1) as nat);
        assert(all[k as int] == rest[k - 1]);
        assert(flat(all, k + 1) =~= a + flat(rest, k));
    }
}

/// The bytes of a chunk's rows.
pub open spec fn chunk_size(rows: Seq<EntryV>) -> nat
    decreases rows.len(),
{
    if rows.len() == 0 {
        0
    } else {
        entry_size(rows[0]) + chunk_size(rows.skip(1))
    }
}

proof fn lemma_more_size(key: Seq<u8>, rows: Seq<EntryV>, cap: nat, size: nat, m: int)
    requires
        cap > 0,
        0 <= m < chunk_more(true, key, rows, cap, size),
        rows[m].key != (if m == 0 {
            key
        } else {
            rows[m - 1].key
        }),
    ensures
        size + chunk_size(rows.take(m + 1)) <= cap,
    decreases rows.len(),
{
    lemma_chunk_more(true, key, rows, cap, size);
    let taken = rows.take(m + 1);
    let rest = rows.skip(1);
    assert(taken[0] == rows[0]);
    assert(taken.skip(1) =~= rest.take(m));
    assert(chunk_size(taken) == entry_size(rows[0]) + chunk_size(taken.skip(1)));
    if m > 0 {
        assert(rest[m - 1] == rows[m]);
        if m > 1 {
            assert(rest[m - 2] == rows[m - 1]);
        }
        lemma_more_size(rows[0].key, rest, cap, size + entry_size(rows[0]), m - 1);
    } else {
        assert(chunk_size(taken.skip(1)) == 0);
    }
}

/// A chunk grows past the cap only by rows of one key: wherever a further key
/// begins in it, the chunk up to that row stays within the cap.
pub proof fn chunks_stay_within_the_cap(rows: Seq<EntryV>, cap: nat, k: int, m: int)
    requires
        cap > 0,
        0 <= k < cut(rows, cap).len(),
        0 < m < cut(rows, cap)[k].len(),
        cut(rows, cap)[k][m].key != cut(rows, cap)[k][m - 1].key,
    ensures
        chunk_size(cut(rows, cap)[k].take(m + 1)) <= cap,
    decreases rows.len(),
{
    lemma_chunk_more(true, rows[0].key, rows.skip(1), cap, entry_size(rows[0]));
    let n = chunk_len(true, rows, cap);
    let rest = cut(rows.skip(n as int), cap);
    assert(cut(rows, cap) == seq![rows.take(n as int)] + rest);
    if k == 0 {
        let c = rows.take(n as int).take(m + 1);
        let after = rows.skip(1);
        assert(after[m - 1] == rows[m]);
        if m > 1 {
            assert(after[m - 2] == rows[m - 1]);
        }
        lemma_more_size(rows[0].key, after, cap, entry_size(rows[0]), m - 1);
        assert(c[0] == rows[0]);
        assert(c.skip(1) =~= after.take(m));
        assert(chunk_size(c) == entry_size(c[0]) + chunk_size(c.skip(1)));
    } else {
        assert(cut(rows, cap)[k] == rest[k - 1]);
        chunks_stay_within_the_cap(rows.skip(n as int), cap, k - 1, m);
    }
}

/// Keys that never descend.
pub open spec fn keys_climb(rows: Seq<EntryV>) -> bool {
    forall|i: int, j: int|
        #![trigger rows[i], rows[j]]
        0 <= i < j < rows.len() ==> lex_le(rows[i].key, rows[j].key)
}

/// Every key of one chunk comes before every key of a later one.
pub open spec fn apart(chunks: Seq<Seq<EntryV>>) -> bool {
    forall|i: int, j: int, x: int, y: int|
        #![trigger chunks[i][x], chunks[j][y]]
        0 <= i < j < chunks.len() && 0 <= x < chunks[i].len() && 0 <= y < chunks[j].len() ==> lex_lt(
            chunks[i][x].key,
            chunks[j][y].key,
        )
}

proof fn lemma_more_stops(key: Seq<u8>, rows: Seq<EntryV>, cap: nat, size: nat)
    ensures
        ({
            let n = chunk_more(true, key, rows, cap, size);
            n < rows.len() ==> rows[n as int].key != (if n == 0 {
                key
            } else {
                rows[n - 1].key
            })
        }),
    decreases rows.len(),
{
    let n = chunk_more(true, key, rows, cap, size);
    if n > 0 {
        lemma_chunk_more(true, key, rows, cap, size);
        let rest = rows.skip(1);
        lemma_more_stops(rows[0].key, rest, cap, size + entry_size(rows[0]));
        if n < rows.len() {
            assert(rest[n - 1] == rows[n as int]);
            if n > 1 {
                assert(rest[n - 2] == rows[n - 1]);
            }
        }
    }
}

/// Chunks of ordered rows do not overlap: no key lies in two of them, and the
/// keys of a chunk come before those of the next.
pub proof fn chunks_do_not_overlap(rows: Seq<EntryV>, cap: nat)
    requires
        keys_climb(rows),
    ensures
        apart(cut(rows, cap)),
        forall|k: int, x: int|
            #![trigger cut(rows, cap)[k][x]]
            0 <= k < cut(rows, cap).len() && 0 <= x < cut(rows, cap)[k].len() ==> rows.contains(
                cut(rows, cap)[k][x],
            ),
        forall|k: int|
            0 <= k < cut(rows, cap).len() ==> keys_climb(#[trigger] cut(rows, cap)[k]),
    decreases rows.len(),
{
    if rows.len() > 0 {
        lemma_chunk_more(true, rows[0].key, rows.skip(1), cap, entry_size(rows[0]));
        lemma_more_stops(rows[0].key, rows.skip(1), cap, entry_size(rows[0]));
        let n = chunk_len(true, rows, cap) as int;
        let head = rows.take(n);
        let tail = rows.skip(n);
        let rest = cut(tail, cap);
        let all = cut(rows, cap);
        assert(all == seq![head] + rest);
        assert(keys_climb(tail)) by {
            assert forall|i: int, j: int|
                #![trigger tail[i], tail[j]]
                0 <= i < j < tail.len() implies lex_le(tail[i].key, tail[j].key) by {
                assert(lex_le(rows[i + n].key, rows[j + n].key));
            }
        }
        chunks_do_not_overlap(tail, cap);
        assert(keys_climb(head)) by {
            assert forall|i: int, j: int|
                #![trigger head[i], head[j]]
                0 <= i < j < head.len() implies lex_le(head[i].key, head[j].key) by {
                assert(lex_le(rows[i].key, rows[j].key));
            }
        }
        if n < rows.len() {
            assert(rows.skip(1)[n - 1] == rows[n]);
            if n > 1 {
                assert(rows.skip(1)[n - 2] == rows[n - 1]);
            }
            assert(lex_le(rows[n - 1].key, rows[n].key));
        }
        assert forall|x: int, y: int|
            #![trigger rows[x], rows[y]]
            0 <= x < n <= y < rows.len() implies lex_lt(rows[x].key, rows[y].key) by {
            assert(lex_lt(rows[n - 1].key, rows[n].key));
            if x < n - 1 {
                assert(lex_le(rows[x].key, rows[n - 1].key));
                if rows[x].key != rows[n - 1].key {
                    lemma_lex_trans(rows[x].key, rows[n - 1].key, rows[n].key);
                }
            }
            if n < y {
                assert(lex_le(rows[n].key, rows[y].key));
                if rows[n].key != rows[y].key {
                    lemma_lex_trans(rows[x].key, rows[n].key, rows[y].key);
                }
            }
        }
        assert forall|k: int, x: int|
            #![trigger all[k][x]]
            0 <= k < all.len() && 0 <= x < all[k].len() implies rows.contains(all[k][x]) by {
            if k == 0 {
                assert(rows[x] == all[k][x]);
            } else {
                assert(all[k] == rest[k - 1]);
                assert(tail.contains(rest[k - 1][x]));
                let z = choose|z: int| 0 <= z < tail.len() && tail[z] == rest[k - 1][x];
                assert(rows[z + n] == all[k][x]);
            }
        }
        assert forall|i: int, j: int, x: int, y: int|
            #![trigger all[i][x], all[j][y]]
            0 <= i < j < all.len() && 0 <= x < all[i].len() && 0 <= y < all[j].len() implies lex_lt(
            all[i][x].key,
            all[j][y].key,
        ) by {
            assert(all[j] == rest[j - 1]);
            if i == 0 {
                assert(all[i][x] == rows[x]);
                assert(tail.contains(rest[j - 1][y]));
                let z = choose|z: int| 0 <= z < tail.len() && tail[z] == rest[j - 1][y];
                assert(rows[z + n] == all[j][y]);
            } else {
                assert(all[i] == rest[i - 1]);
                assert(lex_lt(rest[i - 1][x].key, rest[j - 1][y].key));
            }
        }
        assert forall|k: int| 0 <= k < all.len() implies keys_climb(#[trigger] all[k]) by {
            if k > 0 {
                assert(all[k] == rest[k - 1]);
            }
        }
    }
}

// ---------------------------------------------------------------------------
// Order
/// No entry stands behind one that should follow it.
pub open spec fn ordered(es: Seq<EntryV>) -> bool {
    forall|i: int, j: int|
        #![trigger es[i], es[j]]
        0 <= i < j < es.len() ==> !comes_first(es[j], es[i])
}

/// Every input is in order.
pub open spec fn all_in_order(all: Seq<Seq<EntryV>>) -> bool {
    forall|i: int| 0 <= i < all.len() ==> in_order(#[trigger] all[i])
}

/// Some input holds the entry.
pub open spec fn holds(all: Seq<Seq<EntryV>>, x: EntryV) -> bool {
    exists|i: int| 0 <= i < all.len() && (#[trigger] all[i]).contains(x)
}

proof fn lemma_best_first(pend: Seq<Seq<EntryV>>, n: nat, j: int)
    requires
        n <= pend.len(),
        0 <= j < n,
        pend[j].len() > 0,
    ensures
        best(pend, n) matches Some(i) && 0 <= i < n && pend[i].len() > 0 && !comes_first(
            pend[j][0],
            pend[i][0],
        ),
    decreases n,
{
    lemma_best(pend, n);
    lemma_best(pend, (n - 1) as nat);
    let last = pend[n - 1];
    if j < n - 1 {
        lemma_best_first(pend, (n - 1) as nat, j);
        let i = best(pend, (n - 1) as nat)->0;
        if last.len() > 0 && beats(last[0], pend[i][0]) {
            lemma_lex_total(last[0].key, pend[i][0].key);
            lemma_first_total(pend[j][0], pend[i][0]);
            lemma_first_total(last[0], pend[i][0]);
            if comes_first(pend[j][0], last[0]) {
                if comes_first(last[0], pend[i][0]) {
                    lemma_first_trans(pend[j][0], last[0], pend[i][0]);
                }
            }
        }
    } else {
        match best(pend, (n - 1) as nat) {
            None => {
                lemma_lex_total(last[0].key, last[0].key);
            },
            Some(i) => {
                lemma_lex_total(last[0].key, pend[i][0].key);
                lemma_lex_total(last[0].key, last[0].key);
            },
        }
    }
}

proof fn lemma_tail_order(pend: Seq<Seq<EntryV>>, i: int)
    requires
        all_in_order(pend),
        0 <= i < pend.len(),
        pend[i].len() > 0,
    ensures
        all_in_order(without_head(pend, i)),
        forall|x: EntryV| #[trigger] holds(without_head(pend, i), x) ==> holds(pend, x),
        forall|x: EntryV| #[trigger]
            holds(pend, x) ==> x == pend[i][0] || holds(without_head(pend, i), x),
{
    let q = without_head(pend, i);
    lemma_order_part(pend[i], 1, pend[i].len() as int);
    assert(pend[i].skip(1) =~= pend[i].subrange(1, pend[i].len() as int));
    assert forall|j: int| 0 <= j < q.len() implies in_order(#[trigger] q[j]) by {
        if j != i {
            assert(q[j] == pend[j]);
        }
    }
    assert forall|x: EntryV| #[trigger] holds(q, x) implies holds(pend, x) by {
        let j = choose|j: int| 0 <= j < q.len() && (#[trigger] q[j]).contains(x);
        if j == i {
            let k = choose|k: int| 0 <= k < q[j].len() && q[j][k] == x;
            assert(pend[i][k + 1] == x);
        }
        assert(pend[j].contains(x));
    }
    assert forall|x: EntryV| #[trigger] holds(pend, x) implies x == pend[i][0] || holds(q, x) by {
        let j = choose|j: int| 0 <= j < pend.len() && (#[trigger] pend[j]).contains(x);
        if j == i {
            let k = choose|k: int| 0 <= k < pend[j].len() && pend[j][k] == x;
            if k > 0 {
                assert(q[i][k - 1] == x);
                assert(q[i].contains(x));
            }
        } else {
            assert(q[j] == pend[j]);
            assert(q[j].contains(x));
        }
    }
}

/// The merge of ordered inputs is ordered, and holds exactly their entries.
pub proof fn merge_orders_every_entry(pend: Seq<Seq<EntryV>>)
    requires
        all_in_order(pend),
    ensures
        ordered(merged(pend)),
        forall|x: EntryV| #[trigger] merged(pend).contains(x) <==> holds(pend, x),
    decreases left_over(pend),
{
    lemma_best(pend, pend.len());
    match best(pend, pend.len()) {
        None => {
            assert forall|x: EntryV| #[trigger] merged(pend).contains(x) <==> holds(pend, x) by {
                if holds(pend, x) {
                    let j = choose|j: int| 0 <= j < pend.len() && (#[trigger] pend[j]).contains(x);
                    assert(pend[j].len() == 0);
                }
            }
        },
        Some(i) => {
            let q = without_head(pend, i);
            let h = pend[i][0];
            lemma_left_over(pend, i);
            lemma_tail_order(pend, i);
            merge_orders_every_entry(q);
            let m = merged(pend);
            let t = merged(q);
            assert(m == seq![h] + t);
            assert forall|x: EntryV| #[trigger] holds(pend, x) implies !comes_first(x, h) by {
                let j = choose|j: int| 0 <= j < pend.len() && (#[trigger] pend[j]).contains(x);
                let k = choose|k: int| 0 <= k < pend[j].len() && pend[j][k] == x;
                lemma_best_first(pend, pend.len(), j);
                if k > 0 {
                    assert(comes_first(pend[j][0], pend[j][k]));
                    if comes_first(x, h) {
                        lemma_first_trans(pend[j][0], x, h);
                    }
                }
            }
            assert forall|a: int, b: int|
                #![trigger m[a], m[b]]
                0 <= a < b < m.len() implies !comes_first(m[b], m[a]) by {
                assert(m[b] == t[b - 1]);
                if a == 0 {
                    assert(t.contains(m[b]));
                } else {
                    assert(m[a] == t[a - 1]);
                }
            }
            assert forall|x: EntryV| #[trigger] m.contains(x) <==> holds(pend, x) by {
                if m.contains(x) {
                    let k = choose|k: int| 0 <= k < m.len() && m[k] == x;
                    if k == 0 {
                        assert(pend[i].contains(h));
                    } else {
                        assert(t[k - 1] == x);
                        assert(t.contains(x));
                    }
                }
                if holds(pend, x) {
                    if x == h {
                        assert(m[0] == x);
                    } else {
                        assert(t.contains(x));
                        let k = choose|k: int| 0 <= k < t.len() && t[k] == x;
                        assert(m[k + 1] == x);
                    }
                }
            }
        },
    }
}

// ---------------------------------------------------------------------------
// Reads
/// The newest layer that has the key (for the wanted replica) answers; the
/// last layer is the newest.
pub open spec fn layered(
    layers: Seq<Seq<EntryV>>,
    n: nat,
    key: Seq<u8>,
    want: Option<ReplicaId>,
) -> Option<EntryV>
    decreases n,
{
    if n == 0 {
        None
    } else {
        match first_rid(layers[n - 1], key, want) {
            Some(e) => Some(e),
            None => layered(layers, (n - 1) as nat, key, want),
        }
    }
}

/// The entry answers a read of the key.
pub open spec fn answers_read(e: EntryV, key: Seq<u8>, want: Option<ReplicaId>) -> bool {
    e.key == key && rid_matches(want, e.replica_id)
}

/// A row of a newer layer is newer than the rows of its key below it, or the
/// newer layer holds them too.
pub open spec fn newer_above(layers: Seq<Seq<EntryV>>) -> bool {
    forall|i: int, j: int, x: EntryV, y: EntryV|
        #![trigger layers[i].contains(x), layers[j].contains(y)]
        0 <= i < j < layers.len() && layers[i].contains(x) && layers[j].contains(y) && x.key == y.key
            ==> x.seq < y.seq || layers[j].contains(x)
}

/// A key and a sequence belong to one row.
pub open spec fn one_of_each(es: Seq<EntryV>) -> bool {
    forall|i: int, j: int|
        #![trigger es[i], es[j]]
        0 <= i < es.len() && 0 <= j < es.len() && same_slot(es[i], es[j]) ==> es[i] == es[j]
}

proof fn lemma_one_slot(rows: Seq<EntryV>, x: EntryV, y: EntryV)
    requires
        in_order(rows),
        rows.contains(x),
        rows.contains(y),
        same_slot(x, y),
    ensures
        x == y,
{
    let a = choose|a: int| 0 <= a < rows.len() && rows[a] == x;
    let b = choose|b: int| 0 <= b < rows.len() && rows[b] == y;
    lemma_lex_total(x.key, y.key);
    if a < b {
        assert(comes_first(rows[a], rows[b]));
    } else if b < a {
        assert(comes_first(rows[b], rows[a]));
    }
}

/// Layers in order, newer above older, merge into one row for each key and
/// sequence, but for repetitions.
pub proof fn merge_tells_rows_apart(layers: Seq<Seq<EntryV>>)
    requires
        all_in_order(layers),
        newer_above(layers),
    ensures
        one_of_each(merged(layers)),
{
    merge_orders_every_entry(layers);
    let m = merged(layers);
    assert forall|a: int, b: int|
        #![trigger m[a], m[b]]
        0 <= a < m.len() && 0 <= b < m.len() && same_slot(m[a], m[b]) implies m[a] == m[b] by {
        let x = m[a];
        let y = m[b];
        assert(m.contains(x) && m.contains(y));
        assert(holds(layers, x) && holds(layers, y));
        let i = choose|i: int| 0 <= i < layers.len() && (#[trigger] layers[i]).contains(x);
        let j = choose|j: int| 0 <= j < layers.len() && (#[trigger] layers[j]).contains(y);
        assert(in_order(layers[i]) && in_order(layers[j]));
        if i == j {
            lemma_one_slot(layers[i], x, y);
        } else if i < j {
            assert(layers[j].contains(x));
            lemma_one_slot(layers[j], x, y);
        } else {
            assert(layers[i].contains(y));
            lemma_one_slot(layers[i], x, y);
        }
    }
}

/// What a row answers: a deletion answers like no row.
pub open spec fn answer_of(e: Option<EntryV>) -> Option<Seq<u8>> {
    match e {
        Some(e) => value_of(e),
        None => None,
    }
}

proof fn lemma_layered(layers: Seq<Seq<EntryV>>, n: nat, key: Seq<u8>, want: Option<ReplicaId>) -> (j:
    int)
    requires
        n <= layers.len(),
    ensures
        match layered(layers, n, key, want) {
            Some(e) => 0 <= j < n && first_rid(layers[j], key, want) == Some(e) && forall|i: int|
                j < i < n ==> first_rid(#[trigger] layers[i], key, want) is None,
            None => forall|i: int|
                0 <= i < n ==> first_rid(#[trigger] layers[i], key, want) is None,
        },
    decreases n,
{
    if n == 0 {
        0
    } else if first_rid(layers[n - 1], key, want) is Some {
        n - 1
    } else {
        lemma_layered(layers, (n - 1) as nat, key, want)
    }
}

/// A read finds in the merge what it finds in the layers.
pub proof fn merge_reads_like_its_layers(
    layers: Seq<Seq<EntryV>>,
    key: Seq<u8>,
    want: Option<ReplicaId>,
)
    requires
        all_in_order(layers),
        newer_above(layers),
    ensures
        first_rid(merged(layers), key, want) == layered(layers, layers.len(), key, want),
{
    merge_orders_every_entry(layers);
    let m = merged(layers);
    let j = lemma_layered(layers, layers.len(), key, want);
    let x = lemma_first_place(m, key, want);
    match layered(layers, layers.len(), key, want) {
        None => {
            if first_rid(m, key, want) is Some {
                assert(m.contains(m[x]));
                assert(holds(layers, m[x]));
                let i = choose|i: int| 0 <= i < layers.len() && (#[trigger] layers[i]).contains(m[x]);
                let k = choose|k: int| 0 <= k < layers[i].len() && layers[i][k] == m[x];
                let y = lemma_first_place(layers[i], key, want);
                assert(answers_read(layers[i][k], key, want));
            }
        },
        Some(e) => {
            let p = lemma_first_place(layers[j], key, want);
            assert(layers[j][p] == e);
            assert(layers[j].contains(e));
            assert(holds(layers, e));
            assert(m.contains(e));
            let at = choose|at: int| 0 <= at < m.len() && m[at] == e;
            assert(first_rid(m, key, want) is Some) by {
                if first_rid(m, key, want) is None {
                    assert(!(m[at].key == key && rid_matches(want, m[at].replica_id)));
                }
            }
            let f = m[x];
            assert(answers_read(f, key, want));
            assert(m.contains(f));
            assert(holds(layers, f));
            let i = choose|i: int| 0 <= i < layers.len() && (#[trigger] layers[i]).contains(f);
            let k = choose|k: int| 0 <= k < layers[i].len() && layers[i][k] == f;
            assert(i <= j) by {
                if i > j {
                    let y = lemma_first_place(layers[i], key, want);
                    assert(!(layers[i][k].key == key && rid_matches(want, layers[i][k].replica_id)));
                }
            }
            if f != e {
                assert(f.seq < e.seq) by {
                    if i < j && f.seq < e.seq {
                    } else {
                        assert(layers[i].contains(f) && layers[j].contains(e));
                        assert(layers[j].contains(f));
                        let k = choose|k: int| 0 <= k < layers[j].len() && layers[j][k] == f;
                        assert(in_order(layers[j]));
                        if k < p {
                            assert(!(layers[j][k].key == key && rid_matches(
                                want,
                                layers[j][k].replica_id,
                            )));
                        }
                        assert(comes_first(layers[j][p], layers[j][k]));
                        lemma_lex_total(e.key, f.key);
                    }
                }
                assert(comes_first(e, f));
                if at < x {
                    assert(!(m[at].key == key && rid_matches(want, m[at].replica_id)));
                } else if at > x {
                    assert(!comes_first(m[at], m[x]));
                }
            }
        },
    }
}

/// What is left of an answer: the row itself, or nothing of a deletion.
pub open spec fn outlives(before: Option<EntryV>, after: Option<EntryV>) -> bool {
    after == before || (after is None && before is Some && is_delete(before->0))
}

proof fn lemma_first_push(es: Seq<EntryV>, e: EntryV, key: Seq<u8>, want: Option<ReplicaId>)
    ensures
        first_rid(es.push(e), key, want) == (match first_rid(es, key, want) {
            Some(x) => Some(x),
            None => if answers_read(e, key, want) {
                Some(e)
            } else {
                None
            },
        }),
{
    let i = lemma_first_place(es, key, want);
    let all = es.push(e);
    if first_rid(es, key, want) is Some {
        assert(first_at(all, key, want, i));
        lemma_first_at(all, key, want, i);
    } else if answers_read(e, key, want) {
        assert(first_at(all, key, want, es.len() as int));
        lemma_first_at(all, key, want, es.len() as int);
    } else {
        lemma_first_none(all, key, want);
    }
}

proof fn lemma_firsts_find(run: Seq<EntryV>, n: nat, key: Seq<u8>, want: Option<ReplicaId>)
    requires
        n <= run.len(),
        forall|i: int| 0 <= i < run.len() ==> (#[trigger] run[i]).key == key,
    ensures
        first_rid(firsts(run, n), key, want) == first_rid(run.take(n as int), key, want),
    decreases n,
{
    if n == 0 {
        assert(run.take(0) =~= Seq::<EntryV>::empty());
    } else {
        let e = run[n - 1];
        let before = run.take(n - 1);
        lemma_firsts_find(run, (n - 1) as nat, key, want);
        assert(run.take(n as int) =~= before.push(e));
        lemma_first_push(before, e, key, want);
        lemma_first_push(firsts(run, (n - 1) as nat), e, key, want);
        if outdated(run, n - 1) && answers_read(e, key, want) {
            let i = lemma_first_place(before, key, want);
            let j = choose|j: int| 0 <= j < n - 1 && (#[trigger] run[j]).replica_id == e.replica_id;
            assert(before[j] == run[j]);
            assert(answers_read(before[j], key, want));
            assert(first_rid(before, key, want) is Some);
        }
    }
}

proof fn lemma_tail_find(rows: Seq<EntryV>, key: Seq<u8>, want: Option<ReplicaId>)
    ensures
        outlives(first_rid(rows, key, want), first_rid(without_tail(rows), key, want)),
{
    lemma_without_tail(rows);
    let kept = without_tail(rows);
    let i = lemma_first_place(rows, key, want);
    if first_rid(rows, key, want) is None {
        assert forall|j: int| 0 <= j < kept.len() implies !((#[trigger] kept[j]).key == key
            && rid_matches(want, kept[j].replica_id)) by {
            assert(kept[j] == rows[j]);
            assert(!(rows[j].key == key && rid_matches(want, rows[j].replica_id)));
        }
        lemma_first_none(kept, key, want);
    } else if i < kept.len() {
        assert(first_at(kept, key, want, i)) by {
            assert forall|j: int| 0 <= j < i implies !((#[trigger] kept[j]).key == key
                && rid_matches(want, kept[j].replica_id)) by {
                assert(kept[j] == rows[j]);
                assert(!(rows[j].key == key && rid_matches(want, rows[j].replica_id)));
            }
        }
        lemma_first_at(kept, key, want, i);
    } else {
        assert forall|j: int| 0 <= j < kept.len() implies !((#[trigger] kept[j]).key == key
            && rid_matches(want, kept[j].replica_id)) by {
            assert(kept[j] == rows[j]);
            assert(!(rows[j].key == key && rid_matches(want, rows[j].replica_id)));
        }
        lemma_first_none(kept, key, want);
        assert(is_delete(rows[i]));
    }
}

proof fn lemma_newest_find(run: Seq<EntryV>, key: Seq<u8>, want: Option<ReplicaId>)
    requires
        forall|i: int| 0 <= i < run.len() ==> (#[trigger] run[i]).key == key,
    ensures
        outlives(first_rid(run, key, want), first_rid(newest_rows(run, run.len()), key, want)),
{
    lemma_firsts_find(run, run.len(), key, want);
    assert(run.take(run.len() as int) =~= run);
    lemma_tail_find(firsts(run, run.len()), key, want);
}

/// Entries of other keys leave no row of the key.
proof fn lemma_newest_keys(run: Seq<EntryV>, n: nat, key: Seq<u8>, want: Option<ReplicaId>)
    requires
        n <= run.len(),
        forall|i: int| 0 <= i < run.len() ==> (#[trigger] run[i]).key != key,
    ensures
        first_rid(newest_rows(run, n), key, want) is None,
{
    let rows = newest_rows(run, n);
    assert forall|j: int| 0 <= j < rows.len() implies !((#[trigger] rows[j]).key == key
        && rid_matches(want, rows[j].replica_id)) by {
        lemma_newest_subset(run, n, j);
        let k = choose|k: int| 0 <= k < run.len() && run[k] == rows[j];
        assert(run[k].key != key);
    }
    lemma_first_none(rows, key, want);
}

proof fn lemma_live_keys(
    es: Seq<EntryV>,
    vs: Seq<Retention>,
    key: Seq<u8>,
    want: Option<ReplicaId>,
)
    requires
        forall|i: int| 0 <= i < es.len() ==> (#[trigger] es[i]).key != key,
    ensures
        first_rid(live_rows(es, vs), key, want) is None,
    decreases es.len(),
{
    if es.len() > 0 {
        lemma_run_len(es, es[0].key);
        let n = head_run(es) as int;
        let run = es.take(n);
        let rest = es.skip(n);
        let v = vs[0];
        lemma_newest_keys(run, n as nat, key, want);
        lemma_live_keys(rest, vs.skip(1), key, want);
        lemma_first_split(run_live(run, v), live_rows(rest, vs.skip(1)), key, want);
    }
}

/// The verdict on every run of the key is to keep it.
pub open spec fn kept(es: Seq<EntryV>, vs: Seq<Retention>, key: Seq<u8>) -> bool
    decreases es.len(),
{
    if es.len() == 0 {
        true
    } else {
        proof {
            lemma_run_len(es, es[0].key);
        }
        (es[0].key == key ==> vs[0] == Retention::Keep) && kept(
            es.skip(head_run(es) as int),
            vs.skip(1),
            key,
        )
    }
}

/// The verdict on every run is to keep it.
pub open spec fn keeps_all(es: Seq<EntryV>, vs: Seq<Retention>) -> bool {
    vs.len() == runs(es) && forall|i: int| 0 <= i < vs.len() ==> #[trigger] vs[i] == Retention::Keep
}

proof fn lemma_keeps_all(es: Seq<EntryV>, vs: Seq<Retention>, key: Seq<u8>)
    requires
        keeps_all(es, vs),
    ensures
        kept(es, vs, key),
    decreases es.len(),
{
    if es.len() > 0 {
        lemma_run_len(es, es[0].key);
        let rest = es.skip(head_run(es) as int);
        let more = vs.skip(1);
        assert(vs[0] == Retention::Keep);
        assert forall|i: int| 0 <= i < more.len() implies #[trigger] more[i] == Retention::Keep by {
            assert(more[i] == vs[i + 1]);
        }
        lemma_keeps_all(rest, more, key);
    }
}

/// The policy answers for every key that it is kept.
pub open spec fn keeps_every_key<P: RetentionPolicy>(policy: &P) -> bool {
    forall|key: Seq<u8>, v: Retention| #[trigger]
        answers_for(policy, key, v) ==> v == Retention::Keep
}

/// `KeepAll` is such a policy.
pub proof fn keep_all_keeps_every_key()
    ensures
        keeps_every_key(&KeepAll),
{
}

/// A policy that keeps every key keeps every run.
pub proof fn every_run_is_kept<P: RetentionPolicy>(es: Seq<EntryV>, vs: Seq<Retention>, policy: &P)
    requires
        judged(es, vs, policy),
        keeps_every_key(policy),
    ensures
        keeps_all(es, vs),
    decreases es.len(),
{
    if es.len() > 0 {
        lemma_run_len(es, es[0].key);
        let rest = es.skip(head_run(es) as int);
        let more = vs.skip(1);
        every_run_is_kept(rest, more, policy);
        assert(answers_for(policy, es[0].key, vs[0]));
        assert forall|i: int| 0 <= i < vs.len() implies #[trigger] vs[i] == Retention::Keep by {
            if i > 0 {
                assert(more[i - 1] == vs[i]);
            }
        }
    }
}

/// Of a kept key, the row that answers a read survives; only a deletion may
/// go, and then nothing of the key answers in its place.
pub proof fn newest_rows_survive(
    es: Seq<EntryV>,
    vs: Seq<Retention>,
    key: Seq<u8>,
    want: Option<ReplicaId>,
)
    requires
        ordered(es),
        kept(es, vs, key),
    ensures
        outlives(first_rid(es, key, want), first_rid(live_rows(es, vs), key, want)),
    decreases es.len(),
{
    if es.len() > 0 {
        lemma_run_len(es, es[0].key);
        let n = head_run(es) as int;
        let run = es.take(n);
        let rest = es.skip(n);
        let v = vs[0];
        assert forall|i: int, j: int|
            #![trigger rest[i], rest[j]]
            0 <= i < j < rest.len() implies !comes_first(rest[j], rest[i]) by {
            assert(!comes_first(es[j + n], es[i + n]));
        }
        assert(es =~= run + rest);
        lemma_first_split(run, rest, key, want);
        lemma_first_split(run_live(run, v), live_rows(rest, vs.skip(1)), key, want);
        if es[0].key == key {
            assert forall|i: int| 0 <= i < run.len() implies (#[trigger] run[i]).key == key by {
                assert(run[i] == es[i]);
            }
            lemma_newest_find(run, key, want);
            assert forall|i: int| 0 <= i < rest.len() implies (#[trigger] rest[i]).key != key by {
                assert(rest[i] == es[i + n]);
                assert(!comes_first(es[n], es[0]));
                lemma_lex_total(es[n].key, es[0].key);
                assert(lex_lt(key, es[n].key));
                if i > 0 {
                    assert(!comes_first(es[i + n], es[n]));
                    lemma_lex_total(es[i + n].key, es[n].key);
                    lemma_lex_total(es[0].key, es[i + n].key);
                }
            }
            lemma_live_keys(rest, vs.skip(1), key, want);
            lemma_first_none(rest, key, want);
        } else {
            assert forall|i: int| 0 <= i < run.len() implies (#[trigger] run[i]).key != key by {
                assert(run[i] == es[i]);
            }
            lemma_newest_keys(run, n as nat, key, want);
            lemma_first_none(run, key, want);
            newest_rows_survive(rest, vs.skip(1), key, want);
        }
    }
}

/// Compaction changes no read, neither of a key nor of a replica's row.
pub proof fn compaction_preserves_reads(
    layers: Seq<Seq<EntryV>>,
    vs: Seq<Retention>,
    key: Seq<u8>,
    want: Option<ReplicaId>,
)
    requires
        all_in_order(layers),
        newer_above(layers),
        keeps_all(merged(layers), vs),
    ensures
        answer_of(first_rid(live_rows(merged(layers), vs), key, want)) == answer_of(
            layered(layers, layers.len(), key, want),
        ),
{
    merge_orders_every_entry(layers);
    merge_reads_like_its_layers(layers, key, want);
    lemma_keeps_all(merged(layers), vs, key);
    newest_rows_survive(merged(layers), vs, key, want);
}

proof fn lemma_firsts_subset(run: Seq<EntryV>, n: nat, i: int)
    requires
        n <= run.len(),
        0 <= i < firsts(run, n).len(),
    ensures
        run.contains(firsts(run, n)[i]),
    decreases n,
{
    if n > 0 {
        if i < firsts(run, (n - 1) as nat).len() {
            lemma_firsts_subset(run, (n - 1) as nat, i);
        } else {
            assert(run.contains(run[n - 1]));
        }
    }
}

/// A surviving row was an entry of the merge.
proof fn lemma_newest_subset(run: Seq<EntryV>, n: nat, i: int)
    requires
        n <= run.len(),
        0 <= i < newest_rows(run, n).len(),
    ensures
        run.contains(newest_rows(run, n)[i]),
{
    lemma_without_tail(firsts(run, n));
    lemma_firsts_subset(run, n, i);
}

/// Every live row was an entry of the merge.
pub proof fn live_rows_were_there(es: Seq<EntryV>, vs: Seq<Retention>, i: int)
    requires
        0 <= i < live_rows(es, vs).len(),
    ensures
        es.contains(live_rows(es, vs)[i]),
    decreases es.len(),
{
    lemma_run_len(es, es[0].key);
    let n = head_run(es) as int;
    let run = es.take(n);
    let rest = es.skip(n);
    let here = run_live(run, vs[0]);
    let x = live_rows(es, vs)[i];
    if i < here.len() {
        lemma_newest_subset(run, n as nat, i);
        let k = choose|k: int| 0 <= k < run.len() && run[k] == x;
        assert(es[k] == x);
    } else {
        live_rows_were_there(rest, vs.skip(1), i - here.len());
        let k = choose|k: int| 0 <= k < rest.len() && rest[k] == x;
        assert(es[k + n] == x);
    }
}

/// The live rows of ordered entries are strictly ordered.
pub proof fn live_rows_stay_in_order(es: Seq<EntryV>, vs: Seq<Retention>)
    requires
        ordered(es),
        one_of_each(es),
    ensures
        in_order(live_rows(es, vs)),
    decreases es.len(),
{
    if es.len() > 0 {
        lemma_run_len(es, es[0].key);
        let n = head_run(es) as int;
        let run = es.take(n);
        let rest = es.skip(n);
        let here = run_live(run, vs[0]);
        let more = live_rows(rest, vs.skip(1));
        let all = live_rows(es, vs);
        assert forall|i: int, j: int|
            #![trigger rest[i], rest[j]]
            0 <= i < j < rest.len() implies !comes_first(rest[j], rest[i]) by {
            assert(!comes_first(es[j + n], es[i + n]));
        }
        assert forall|i: int, j: int|
            #![trigger rest[i], rest[j]]
            0 <= i < rest.len() && 0 <= j < rest.len() && same_slot(
                rest[i],
                rest[j],
            ) implies rest[i] == rest[j] by {
            assert(rest[i] == es[i + n] && rest[j] == es[j + n]);
        }
        assert forall|i: int, j: int|
            #![trigger run[i], run[j]]
            0 <= i < j < run.len() implies !comes_first(run[j], run[i]) by {
            assert(!comes_first(es[j], es[i]));
        }
        assert forall|i: int, j: int|
            #![trigger run[i], run[j]]
            0 <= i < run.len() && 0 <= j < run.len() && same_slot(run[i], run[j]) implies run[i]
            == run[j] by {
            assert(run[i] == es[i] && run[j] == es[j]);
        }
        lemma_newest_order(run, n as nat);
        live_rows_stay_in_order(rest, vs.skip(1));
        assert forall|i: int, j: int|
            #![trigger all[i], all[j]]
            0 <= i < j < all.len() implies comes_first(all[i], all[j]) by {
            if j < here.len() {
                assert(all[i] == here[i] && all[j] == here[j]);
            } else if i >= here.len() {
                assert(all[i] == more[i - here.len()] && all[j] == more[j - here.len()]);
            } else {
                assert(all[i] == here[i] && all[j] == more[j - here.len()]);
                lemma_newest_subset(run, n as nat, i);
                let a = choose|a: int| 0 <= a < run.len() && run[a] == all[i];
                live_rows_were_there(rest, vs.skip(1), j - here.len());
                let b = choose|b: int| 0 <= b < rest.len() && rest[b] == all[j];
                assert(es[a] == all[i] && es[b + n] == all[j]);
                assert(es[a].key == es[0].key);
                assert(!comes_first(es[n], es[0]));
                lemma_lex_total(es[n].key, es[0].key);
                assert(lex_lt(es[0].key, es[n].key));
                if b > 0 {
                    assert(!comes_first(es[b + n], es[n]));
                    lemma_lex_total(es[b + n].key, es[n].key);
                    if es[n].key != es[b + n].key {
                        lemma_lex_trans(es[0].key, es[n].key, es[b + n].key);
                    }
                }
            }
        }
    }
}

proof fn lemma_firsts_order(run: Seq<EntryV>, n: nat)
    requires
        ordered(run),
        one_of_each(run),
        n <= run.len(),
    ensures
        in_order(firsts(run, n)),
        forall|i: int|
            0 <= i < firsts(run, n).len() ==> exists|k: int|
                0 <= k < n && run[k] == (#[trigger] firsts(run, n)[i]),
    decreases n,
{
    if n > 0 {
        lemma_firsts_order(run, (n - 1) as nat);
        let before = firsts(run, (n - 1) as nat);
        let now = firsts(run, n);
        assert forall|i: int| 0 <= i < now.len() implies exists|k: int|
            0 <= k < n && run[k] == (#[trigger] now[i]) by {
            if i < before.len() {
                assert(now[i] == before[i]);
                let k = choose|k: int| 0 <= k < n - 1 && run[k] == before[i];
                assert(run[k] == now[i]);
            } else {
                assert(run[n - 1] == now[i]);
            }
        }
        assert forall|i: int, j: int|
            #![trigger now[i], now[j]]
            0 <= i < j < now.len() implies comes_first(now[i], now[j]) by {
            assert(now[i] == before[i]);
            if j < before.len() {
                assert(now[j] == before[j]);
            } else {
                let k = choose|k: int| 0 <= k < n - 1 && run[k] == before[i];
                assert(!comes_first(run[n - 1], run[k]));
                lemma_first_total(run[k], run[n - 1]);
                if same_slot(run[k], run[n - 1]) {
                    assert(run[k] == run[n - 1]);
                    assert(outdated(run, n - 1));
                }
            }
        }
    }
}

proof fn lemma_newest_order(run: Seq<EntryV>, n: nat)
    requires
        ordered(run),
        one_of_each(run),
        n <= run.len(),
    ensures
        in_order(newest_rows(run, n)),
{
    lemma_firsts_order(run, n);
    lemma_without_tail(firsts(run, n));
    let all = firsts(run, n);
    let kept = newest_rows(run, n);
    assert(kept =~= all.subrange(0, kept.len() as int));
    lemma_order_part(all, 0, kept.len() as int);
}

/// Chunks of ordered rows are ordered.
pub proof fn chunks_stay_in_order(rows: Seq<EntryV>, cap: nat)
    requires
        in_order(rows),
    ensures
        all_in_order(cut(rows, cap)),
        keys_climb(rows),
    decreases rows.len(),
{
    assert forall|i: int, j: int|
        #![trigger rows[i], rows[j]]
        0 <= i < j < rows.len() implies lex_le(rows[i].key, rows[j].key) by {
        assert(comes_first(rows[i], rows[j]));
    }
    if rows.len() > 0 {
        lemma_chunk_more(true, rows[0].key, rows.skip(1), cap, entry_size(rows[0]));
        let n = chunk_len(true, rows, cap) as int;
        let rest = cut(rows.skip(n), cap);
        assert(cut(rows, cap) == seq![rows.take(n)] + rest);
        assert(rows.take(n) =~= rows.subrange(0, n));
        assert(rows.skip(n) =~= rows.subrange(n, rows.len() as int));
        lemma_order_part(rows, 0, n);
        lemma_order_part(rows, n, rows.len() as int);
        chunks_stay_in_order(rows.skip(n), cap);
        assert forall|k: int| 0 <= k < cut(rows, cap).len() implies in_order(
            #[trigger] cut(rows, cap)[k],
        ) by {
            if k > 0 {
                assert(cut(rows, cap)[k] == rest[k - 1]);
            }
        }
    }
}

/// The chunks that a merge of ordered entries writes are in order and do not
/// overlap, and none is empty; their identifiers ascend, from the first free
/// one up to the next, and the archive's is none of them.
pub proof fn merged_chunks_are_apart(
    m: Merged,
    es: Seq<EntryV>,
    inputs: nat,
    vs: Seq<Retention>,
    target: nat,
    cap: nat,
    first: u64,
)
    requires
        merge_ok(m, es, inputs, vs, target, cap, first),
        ordered(es),
        one_of_each(es),
    ensures
        ({
            let chunks = cut(live_rows(es, vs), cap);
            &&& apart(chunks)
            &&& all_in_order(chunks)
            &&& forall|k: int| 0 <= k < chunks.len() ==> (#[trigger] chunks[k]).len() > 0
            &&& m.live@.len() == chunks.len()
        }),
        forall|k: int|
            0 <= k < m.live@.len() ==> first <= (#[trigger] m.live@[k]).segment_id < m.next_id,
        forall|j: int, k: int|
            #![trigger m.live@[j], m.live@[k]]
            0 <= j < k < m.live@.len() ==> m.live@[j].segment_id < m.live@[k].segment_id,
        forall|a: int, k: int|
            #![trigger m.archives@[a], m.live@[k]]
            0 <= a < m.archives@.len() && 0 <= k < m.live@.len() ==> m.archives@[a].archive_id
                != m.live@[k].segment_id,
{
    let live = live_rows(es, vs);
    let chunks = cut(live, cap);
    let acs = pieces(archived_rows(es, vs), cap);
    let slot = archive_slot(es, vs, cap) as int;
    live_rows_stay_in_order(es, vs);
    chunks_stay_in_order(live, cap);
    chunks_keep_rows(true, live, cap);
    chunks_do_not_overlap(live, cap);
    assert forall|k: int| 0 <= k < m.live@.len() implies (#[trigger] m.live@[k]).segment_id
        == live_id(first as int, k, slot, acs.len() as int) by {
        assert(live_ok(m, k, chunks, target, live_id(first as int, k, slot, acs.len() as int)));
    }
    assert forall|a: int, k: int|
        #![trigger m.archives@[a], m.live@[k]]
        0 <= a < m.archives@.len() && 0 <= k < m.live@.len() implies m.archives@[a].archive_id
        != m.live@[k].segment_id by {
        assert(archive_ok(m, a, acs, target, first + slot));
    }
}

// ---------------------------------------------------------------------------
// Counting
proof fn lemma_anchors_in_len(m: Map<u64, SegmentAnchor>, bl: Seq<EntryV>, block: int, n: nat)
    requires
        m.dom().finite(),
    ensures
        anchors_in(m, bl, block, n).dom().finite(),
        anchors_in(m, bl, block, n).len() <= m.len() + n,
    decreases n,
{
    if n > 0 {
        lemma_anchors_in_len(m, bl, block, (n - 1) as nat);
    }
}

proof fn lemma_anchors_len(blocks: Seq<Seq<EntryV>>, k: nat)
    requires
        k <= blocks.len(),
    ensures
        anchors_of(blocks, k).dom().finite(),
        anchors_of(blocks, k).len() <= flat(blocks, k).len(),
    decreases k,
{
    if k > 0 {
        lemma_anchors_len(blocks, (k - 1) as nat);
        lemma_anchors_in_len(
            anchors_of(blocks, (k - 1) as nat),
            blocks[k - 1],
            k - 1,
            blocks[k - 1].len(),
        );
    }
}

/// A chunk has no more anchors than rows.
pub proof fn anchors_are_rows(c: LiveChunk, es: Seq<EntryV>, target: nat, v3: bool)
    requires
        chunk_is(c, es, target, v3),
    ensures
        c.anchors@.len() <= es.len(),
{
    reveal(chunk_is);
    let p = choose|p: Published| #[trigger]
        file_of(Ok(p), es, target, v3) && chunk_of_file(c, p);
    let r: Result<Published, FormatError> = Ok(p);
    let (entries, order) = choose|entries: Seq<SegmentEntry>, order: Seq<SegmentEntry>|
        entries_view(entries) == es && #[trigger] publish_outcome(
            r,
            entries,
            order,
            target,
            true,
            v3,
        );
    broadcast use vstd::seq_lib::group_to_multiset_ensures;

    assert(order.to_multiset().len() == entries.to_multiset().len());
    assert(order.len() == entries.len());
    let os = entries_view(order);
    let blocks = split(os, target, true, v3);
    split_keeps_entries(os, target, true, v3);
    lemma_anchors_len(blocks, blocks.len());
    let m = if v3 {
        anchors_of(blocks, blocks.len())
    } else {
        Map::empty()
    };
    lemma_lists_len(anchor_pairs(p.anchors@), m);
}

proof fn lemma_homes_in_len(m: Map<u64, Home>, id: u64, s: Seq<SegmentAnchor>, n: nat)
    requires
        m.dom().finite(),
        n <= s.len(),
    ensures
        homes_in(m, id, s, n).dom().finite(),
        homes_in(m, id, s, n).len() <= m.len() + n,
    decreases n,
{
    if n > 0 {
        lemma_homes_in_len(m, id, s, (n - 1) as nat);
    }
}

/// The anchors of the first `n` chunks.
pub open spec fn anchor_count(chunks: Seq<LiveChunk>, n: nat) -> nat
    decreases n,
{
    if n == 0 {
        0
    } else {
        anchor_count(chunks, (n - 1) as nat) + chunks[n - 1].anchors@.len()
    }
}

/// There are no more homes than anchors.
pub proof fn homes_are_anchors(chunks: Seq<LiveChunk>, n: nat)
    requires
        n <= chunks.len(),
    ensures
        homes_of(chunks, n).dom().finite(),
        homes_of(chunks, n).len() <= anchor_count(chunks, n),
    decreases n,
{
    if n > 0 {
        homes_are_anchors(chunks, (n - 1) as nat);
        let c = chunks[n - 1];
        lemma_homes_in_len(
            homes_of(chunks, (n - 1) as nat),
            c.segment_id,
            c.anchors@,
            c.anchors@.len(),
        );
    }
}

} // verus!
