//! What a prefix scan gives, and that it agrees with single reads.

use crate::codec::{lemma_lex_total, lemma_lex_trans, lex_le, lex_lt};
use crate::compaction::laws::layered;
use crate::db::laws::segment_answers_with_the_newest;
use crate::db::read::{db_get, mem_layers, seg_answer, seg_chain};
use crate::db::scan::{
    db_scan, entry_rows, least, lemma_least, lemma_pass_left, merge_rows, pass, pass_all,
    prefix_end_of, prefix_range_is_exact, rows_left, seg_rows, seg_streams, streams, LiveV,
};
use crate::db::state::DbV;
use crate::format::ErrV;
use crate::memtable::{
    begins, heads, lemma_first_any, lemma_first_none, mem_ok, value_of, RowV,
};
use crate::segment::block::split;
use crate::segment::block_laws::{first_rid, lemma_first_split, lemma_keys_ascend, stored_all};
use crate::segment::cursor::{past_end, scan_run, scan_start};
use crate::segment::cursor_laws::{picked, range_cursor_gives_the_heads};
use crate::segment::entry::EntryV;
use crate::segment::open::SegV;
use crate::segment::open_laws::written;
use crate::segment::read::first_of;
use crate::segment::read_laws::{good, lemma_has_match};
use crate::segment::write::{comes_first, in_order};
use vstd::prelude::*;

verus! {

/// Rows by strictly ascending key.
pub open spec fn ascending(rows: Seq<RowV>) -> bool {
    forall|i: int, j: int|
        0 <= i < j < rows.len() ==> lex_lt((#[trigger] rows[i]).0, (#[trigger] rows[j]).0)
}

/// Live rows by strictly ascending key.
pub open spec fn live_ascending(rows: Seq<LiveV>) -> bool {
    forall|i: int, j: int|
        0 <= i < j < rows.len() ==> lex_lt((#[trigger] rows[i]).0, (#[trigger] rows[j]).0)
}

/// Every stream is ascending.
pub open spec fn all_ascending(pend: Seq<Seq<RowV>>) -> bool {
    forall|i: int| 0 <= i < pend.len() ==> ascending(#[trigger] pend[i])
}

/// The row of a key: none, or its value, where a deletion has none.
pub open spec fn row_at(rows: Seq<RowV>, key: Seq<u8>) -> Option<Option<Seq<u8>>>
    decreases rows.len(),
{
    if rows.len() == 0 {
        None
    } else if rows[0].0 == key {
        Some(rows[0].1)
    } else {
        row_at(rows.skip(1), key)
    }
}

/// The value of a key among live rows.
pub open spec fn live_at(rows: Seq<LiveV>, key: Seq<u8>) -> Option<Seq<u8>>
    decreases rows.len(),
{
    if rows.len() == 0 {
        None
    } else if rows[0].0 == key {
        Some(rows[0].1)
    } else {
        live_at(rows.skip(1), key)
    }
}

/// The row of a key in the newest of the first `n` streams that has it.
pub open spec fn newest_row(pend: Seq<Seq<RowV>>, n: nat, key: Seq<u8>) -> Option<Option<Seq<u8>>>
    decreases n,
{
    if n == 0 {
        None
    } else {
        match row_at(pend[n - 1], key) {
            Some(v) => Some(v),
            None => newest_row(pend, (n - 1) as nat, key),
        }
    }
}

/// A deletion hides its key.
pub open spec fn live(row: Option<Option<Seq<u8>>>) -> Option<Seq<u8>> {
    match row {
        Some(v) => v,
        None => None,
    }
}

/// Every key of the rows lies behind `key`.
spec fn above(rows: Seq<RowV>, key: Seq<u8>) -> bool {
    forall|i: int| 0 <= i < rows.len() ==> lex_lt(key, (#[trigger] rows[i]).0)
}

proof fn lemma_above(rows: Seq<RowV>, key: Seq<u8>)
    requires
        above(rows, key),
    ensures
        row_at(rows, key) is None,
    decreases rows.len(),
{
    if rows.len() > 0 {
        lemma_lex_total(key, rows[0].0);
        let rest = rows.skip(1);
        assert forall|i: int| 0 <= i < rest.len() implies lex_lt(key, (#[trigger] rest[i]).0) by {
            assert(rest[i] == rows[i + 1]);
        }
        lemma_above(rest, key);
    }
}

/// No head comes before the least one, and a newer stream's head comes behind
/// it.
proof fn lemma_least_first(pend: Seq<Seq<RowV>>, n: nat)
    requires
        n <= pend.len(),
    ensures
        least(pend, n) matches Some(i) ==> forall|j: int|
            0 <= j < n && (#[trigger] pend[j]).len() > 0 ==> pend[j][0].0 == pend[i][0].0 && j <= i
                || lex_lt(pend[i][0].0, pend[j][0].0),
    decreases n,
{
    if n > 0 {
        lemma_least_first(pend, (n - 1) as nat);
        lemma_least(pend, n);
        lemma_least(pend, (n - 1) as nat);
        if let Some(p) = least(pend, (n - 1) as nat) {
            if pend[n - 1].len() > 0 {
                let a = pend[n - 1][0].0;
                let b = pend[p][0].0;
                lemma_lex_total(a, b);
                assert forall|j: int| 0 <= j < n && (#[trigger] pend[j]).len() > 0 implies ({
                    let i = least(pend, n)->0;
                    pend[j][0].0 == pend[i][0].0 && j <= i || lex_lt(pend[i][0].0, pend[j][0].0)
                }) by {
                    if j < n - 1 && lex_lt(a, b) && lex_lt(b, pend[j][0].0) {
                        lemma_lex_trans(a, b, pend[j][0].0);
                    }
                }
            }
        }
    }
}

/// A stream whose head does not come before `key`, past it.
proof fn lemma_pass(rows: Seq<RowV>, key: Seq<u8>)
    requires
        ascending(rows),
        rows.len() > 0 ==> rows[0].0 == key || lex_lt(key, rows[0].0),
    ensures
        ascending(pass(rows, key)),
        above(pass(rows, key), key),
        row_at(rows, key) == (if rows.len() > 0 && rows[0].0 == key {
            Some(rows[0].1)
        } else {
            None
        }),
        forall|other: Seq<u8>|
            other != key ==> #[trigger] row_at(pass(rows, key), other) == row_at(rows, other),
{
    let p = pass(rows, key);
    assert forall|i: int| 0 <= i < p.len() implies lex_lt(key, (#[trigger] p[i]).0) by {
        if rows[0].0 == key {
            assert(p[i] == rows[i + 1]);
        } else if i > 0 {
            lemma_lex_trans(key, rows[0].0, rows[i].0);
        }
    }
    if rows.len() > 0 && rows[0].0 != key {
        lemma_above(rows, key);
    }
}

proof fn lemma_newest_none(pend: Seq<Seq<RowV>>, n: nat, key: Seq<u8>)
    requires
        n <= pend.len(),
        forall|j: int| 0 <= j < n ==> row_at(#[trigger] pend[j], key) is None,
    ensures
        newest_row(pend, n, key) is None,
    decreases n,
{
    if n > 0 {
        lemma_newest_none(pend, (n - 1) as nat, key);
    }
}

proof fn lemma_newest_same(a: Seq<Seq<RowV>>, b: Seq<Seq<RowV>>, n: nat, key: Seq<u8>)
    requires
        n <= a.len(),
        n <= b.len(),
        forall|j: int| 0 <= j < n ==> row_at(#[trigger] a[j], key) == row_at(b[j], key),
    ensures
        newest_row(a, n, key) == newest_row(b, n, key),
    decreases n,
{
    if n > 0 {
        lemma_newest_same(a, b, (n - 1) as nat, key);
        assert(row_at(a[n - 1], key) == row_at(b[n - 1], key));
    }
}

proof fn lemma_newest_at(pend: Seq<Seq<RowV>>, n: nat, i: int, key: Seq<u8>)
    requires
        0 <= i < n <= pend.len(),
        row_at(pend[i], key) is Some,
        forall|j: int| i < j < n ==> row_at(#[trigger] pend[j], key) is None,
    ensures
        newest_row(pend, n, key) == row_at(pend[i], key),
    decreases n,
{
    if n - 1 > i {
        assert(row_at(pend[n - 1], key) is None);
        lemma_newest_at(pend, (n - 1) as nat, i, key);
    }
}

/// What stays behind the least head.
proof fn lemma_rest(pend: Seq<Seq<RowV>>, i: int)
    requires
        all_ascending(pend),
        least(pend, pend.len()) == Some(i),
    ensures
        0 <= i < pend.len(),
        pend[i].len() > 0,
        ({
            let (key, value) = pend[i][0];
            let rest = pass_all(pend, key);
            &&& rows_left(rest) < rows_left(pend)
            &&& all_ascending(rest)
            &&& forall|j: int| 0 <= j < rest.len() ==> above(#[trigger] rest[j], key)
            &&& newest_row(pend, pend.len(), key) == Some(value)
            &&& forall|other: Seq<u8>|
                other != key ==> #[trigger] newest_row(rest, rest.len(), other) == newest_row(
                    pend,
                    pend.len(),
                    other,
                )
        }),
{
    lemma_least(pend, pend.len());
    lemma_least_first(pend, pend.len());
    let (key, value) = pend[i][0];
    let rest = pass_all(pend, key);
    lemma_pass_left(pend, key);
    assert(pend[i].len() > 0 && pend[i][0].0 == key);
    assert forall|j: int| 0 <= j < rest.len() implies ascending(#[trigger] rest[j]) && above(
        rest[j],
        key,
    ) by {
        assert(ascending(pend[j]));
        lemma_pass(pend[j], key);
    }
    assert(ascending(pend[i]));
    lemma_pass(pend[i], key);
    assert forall|j: int| i < j < pend.len() implies row_at(#[trigger] pend[j], key) is None by {
        assert(ascending(pend[j]));
        lemma_pass(pend[j], key);
        if pend[j].len() > 0 {
            lemma_lex_total(key, pend[j][0].0);
        }
    }
    lemma_newest_at(pend, pend.len(), i, key);
    assert forall|other: Seq<u8>| other != key implies #[trigger] newest_row(rest, rest.len(), other)
        == newest_row(pend, pend.len(), other) by {
        assert forall|j: int| 0 <= j < rest.len() implies row_at(#[trigger] rest[j], other)
            == row_at(pend[j], other) by {
            assert(ascending(pend[j]));
            lemma_pass(pend[j], key);
            assert(rest[j] == pass(pend[j], key));
        }
        lemma_newest_same(rest, pend, rest.len(), other);
    }
}

/// Nothing at or before a key comes out of streams that lie behind it.
proof fn lemma_merge_above(pend: Seq<Seq<RowV>>, low: Seq<u8>)
    requires
        all_ascending(pend),
        forall|j: int| 0 <= j < pend.len() ==> above(#[trigger] pend[j], low),
    ensures
        forall|i: int|
            0 <= i < merge_rows(pend).len() ==> lex_lt(low, (#[trigger] merge_rows(pend)[i]).0),
    decreases rows_left(pend),
{
    if let Some(i) = least(pend, pend.len()) {
        lemma_rest(pend, i);
        let (key, value) = pend[i][0];
        let rest = pass_all(pend, key);
        assert(above(pend[i], low));
        assert forall|j: int| 0 <= j < rest.len() implies above(#[trigger] rest[j], low) by {
            assert(above(pend[j], low));
            assert forall|t: int| 0 <= t < rest[j].len() implies lex_lt(
                low,
                (#[trigger] rest[j][t]).0,
            ) by {
                if pend[j][0].0 == key {
                    assert(rest[j][t] == pend[j][t + 1]);
                } else {
                    assert(rest[j][t] == pend[j][t]);
                }
            }
        }
        lemma_merge_above(rest, low);
        let out = merge_rows(pend);
        let tail = merge_rows(rest);
        assert forall|t: int| 0 <= t < out.len() implies lex_lt(low, (#[trigger] out[t]).0) by {
            if value is Some {
                if t > 0 {
                    assert(out[t] == tail[t - 1]);
                }
            } else {
                assert(out[t] == tail[t]);
            }
        }
    }
}

/// The merge of ascending streams is ascending, holds each key at most once,
/// and shows of each key the row of the newest stream that has it; where that
/// row is a deletion, or no stream has the key, it shows none.
pub proof fn merge_shows_the_newest(pend: Seq<Seq<RowV>>, key: Seq<u8>)
    requires
        all_ascending(pend),
    ensures
        live_ascending(merge_rows(pend)),
        live_at(merge_rows(pend), key) == live(newest_row(pend, pend.len(), key)),
    decreases rows_left(pend),
{
    lemma_least(pend, pend.len());
    match least(pend, pend.len()) {
        None => {
            assert forall|j: int| 0 <= j < pend.len() implies row_at(#[trigger] pend[j], key) is None by {
                assert(pend[j].len() == 0);
            }
            lemma_newest_none(pend, pend.len(), key);
        },
        Some(i) => {
            lemma_rest(pend, i);
            let (k, value) = pend[i][0];
            let rest = pass_all(pend, k);
            merge_shows_the_newest(rest, key);
            lemma_merge_above(rest, k);
            let out = merge_rows(pend);
            let tail = merge_rows(rest);
            if k == key {
                assert forall|j: int| 0 <= j < rest.len() implies row_at(#[trigger] rest[j], key) is None by {
                    assert(above(rest[j], k));
                    lemma_above(rest[j], k);
                }
                lemma_newest_none(rest, rest.len(), key);
            }
            if let Some(v) = value {
                assert(out == seq![(k, v)] + tail);
                assert(out.skip(1) =~= tail);
                assert forall|a: int, b: int| 0 <= a < b < out.len() implies lex_lt(
                    (#[trigger] out[a]).0,
                    (#[trigger] out[b]).0,
                ) by {
                    assert(out[b] == tail[b - 1]);
                    if a > 0 {
                        assert(out[a] == tail[a - 1]);
                    }
                }
            }
        },
    }
}

// ---------------------------------------------------------------------------
// Memory
/// What a row shows of an entry.
pub open spec fn row_value(e: Option<EntryV>) -> Option<Option<Seq<u8>>> {
    match e {
        Some(e) => Some(value_of(e)),
        None => None,
    }
}

proof fn lemma_row_push(rows: Seq<RowV>, x: RowV, key: Seq<u8>)
    ensures
        row_at(rows.push(x), key) == (match row_at(rows, key) {
            Some(v) => Some(v),
            None => if x.0 == key {
                Some(x.1)
            } else {
                None
            },
        }),
    decreases rows.len(),
{
    if rows.len() > 0 {
        assert(rows.push(x).skip(1) =~= rows.skip(1).push(x));
        lemma_row_push(rows.skip(1), x, key);
    } else {
        assert(rows.push(x).skip(1) =~= Seq::<RowV>::empty());
        assert(row_at(rows.push(x).skip(1), key) is None);
    }
}

/// The heads of ordered rows ascend, and hold of each key with the prefix its
/// first row.
pub proof fn heads_are_first_rows(rows: Seq<EntryV>, prefix: Seq<u8>, n: nat, key: Seq<u8>)
    requires
        in_order(rows),
        n <= rows.len(),
    ensures
        ascending(heads(rows, prefix, n)),
        forall|i: int|
            0 <= i < heads(rows, prefix, n).len() ==> lex_le(
                (#[trigger] heads(rows, prefix, n)[i]).0,
                rows[n - 1].key,
            ),
        row_at(heads(rows, prefix, n), key) == (if begins(key, prefix) {
            row_value(first_rid(rows.take(n as int), key, None))
        } else {
            None
        }),
    decreases n,
{
    if n > 0 {
        heads_are_first_rows(rows, prefix, (n - 1) as nat, key);
        let before = heads(rows, prefix, (n - 1) as nat);
        let all = heads(rows, prefix, n);
        let e = rows[n - 1];
        let front = rows.take(n - 1);
        assert(rows.take(n as int) =~= front + seq![e]);
        lemma_first_split(front, seq![e], key, None);
        assert(seq![e].skip(1) =~= Seq::<EntryV>::empty());
        assert(first_rid(seq![e].skip(1), key, None) is None);
        assert(seq![e][0] == e);
        assert(first_rid(seq![e], key, None) == (if e.key == key {
            Some(e)
        } else {
            None
        }));
        if n > 1 {
            lemma_keys_ascend(rows, n - 2, n - 1);
        }
        assert forall|i: int| 0 <= i < before.len() implies lex_le(
            (#[trigger] before[i]).0,
            e.key,
        ) by {
            if before[i].0 != rows[n - 2].key && rows[n - 2].key != e.key {
                lemma_lex_trans(before[i].0, rows[n - 2].key, e.key);
            }
        }
        if begins(e.key, prefix) && (n == 1 || rows[n - 2].key != e.key) {
            lemma_row_push(before, (e.key, value_of(e)), key);
            assert forall|i: int, j: int| 0 <= i < j < all.len() implies lex_lt(
                (#[trigger] all[i]).0,
                (#[trigger] all[j]).0,
            ) by {
                assert(all[i] == before[i]);
                if j == before.len() {
                    if before[i].0 != rows[n - 2].key {
                        lemma_lex_trans(before[i].0, rows[n - 2].key, e.key);
                    }
                } else {
                    assert(all[j] == before[j]);
                }
            }
            assert forall|i: int| 0 <= i < all.len() implies lex_le((#[trigger] all[i]).0, e.key) by {
                if i < before.len() {
                    assert(all[i] == before[i]);
                }
            }
        } else if n > 1 && rows[n - 2].key == e.key && key == e.key {
            assert(front[n - 2].key == key);
            lemma_has_match(front, n - 2, key);
        }
    } else {
        assert(rows.take(0) =~= Seq::<EntryV>::empty());
    }
}

// ---------------------------------------------------------------------------
// Segments
/// Entries by strictly ascending key.
spec fn keys_ascend(es: Seq<EntryV>) -> bool {
    forall|i: int, j: int|
        0 <= i < j < es.len() ==> lex_lt((#[trigger] es[i]).key, (#[trigger] es[j]).key)
}

/// No key comes before `last`.
spec fn from_last(es: Seq<EntryV>, last: Option<Seq<u8>>) -> bool {
    last matches Some(l) ==> forall|i: int| 0 <= i < es.len() ==> lex_le(l, (#[trigger] es[i]).key)
}

proof fn lemma_rest_order(es: Seq<EntryV>, last: Option<Seq<u8>>)
    requires
        in_order(es),
        from_last(es, last),
        es.len() > 0,
    ensures
        in_order(es.skip(1)),
        from_last(es.skip(1), last),
        from_last(es.skip(1), Some(es[0].key)),
{
    let rest = es.skip(1);
    assert forall|i: int, j: int| #![trigger rest[i], rest[j]] 0 <= i < j < rest.len() implies comes_first(
        rest[i],
        rest[j],
    ) by {
        assert(rest[i] == es[i + 1] && rest[j] == es[j + 1]);
    }
    assert forall|i: int| 0 <= i < rest.len() implies lex_le(es[0].key, (#[trigger] rest[i]).key) by {
        lemma_keys_ascend(es, 0, i + 1);
    }
    if let Some(l) = last {
        assert forall|i: int| 0 <= i < rest.len() implies lex_le(l, (#[trigger] rest[i]).key) by {
            assert(rest[i] == es[i + 1]);
        }
    }
}

proof fn lemma_picked_order(
    es: Seq<EntryV>,
    start: Seq<u8>,
    end: Option<Seq<u8>>,
    last: Option<Seq<u8>>,
)
    requires
        in_order(es),
        from_last(es, last),
    ensures
        keys_ascend(picked(es, start, end, last)),
        last matches Some(l) ==> forall|i: int|
            0 <= i < picked(es, start, end, last).len() ==> lex_lt(
                l,
                (#[trigger] picked(es, start, end, last)[i]).key,
            ),
    decreases es.len(),
{
    if es.len() > 0 {
        let k = es[0].key;
        let rest = es.skip(1);
        lemma_rest_order(es, last);
        if lex_lt(k, start) || past_end(k, end) || last == Some(k) {
            lemma_picked_order(rest, start, end, last);
        } else {
            lemma_picked_order(rest, start, end, Some(k));
            let out = picked(es, start, end, last);
            let more = picked(rest, start, end, Some(k));
            assert forall|i: int, j: int| 0 <= i < j < out.len() implies lex_lt(
                (#[trigger] out[i]).key,
                (#[trigger] out[j]).key,
            ) by {
                assert(out[j] == more[j - 1]);
                if i > 0 {
                    assert(out[i] == more[i - 1]);
                }
            }
            if let Some(l) = last {
                assert(lex_le(l, es[0].key));
                assert forall|i: int| 0 <= i < out.len() implies lex_lt(l, (#[trigger] out[i]).key) by {
                    if i > 0 {
                        assert(out[i] == more[i - 1]);
                        lemma_lex_trans(l, k, more[i - 1].key);
                    }
                }
            }
        }
    }
}

/// A key is not in the range, or was given already.
spec fn left_out(
    key: Seq<u8>,
    start: Seq<u8>,
    end: Option<Seq<u8>>,
    last: Option<Seq<u8>>,
) -> bool {
    lex_lt(key, start) || past_end(key, end) || last == Some(key)
}

proof fn lemma_picked_at(
    es: Seq<EntryV>,
    start: Seq<u8>,
    end: Option<Seq<u8>>,
    last: Option<Seq<u8>>,
    key: Seq<u8>,
)
    requires
        in_order(es),
        from_last(es, last),
    ensures
        row_at(entry_rows(picked(es, start, end, last)), key) == (if left_out(
            key,
            start,
            end,
            last,
        ) {
            None
        } else {
            row_value(first_of(es, key))
        }),
    decreases es.len(),
{
    let out = picked(es, start, end, last);
    if es.len() > 0 {
        let k = es[0].key;
        let rest = es.skip(1);
        lemma_rest_order(es, last);
        if left_out(k, start, end, last) {
            lemma_picked_at(rest, start, end, last, key);
        } else {
            lemma_picked_at(rest, start, end, Some(k), key);
            let more = picked(rest, start, end, Some(k));
            let rows = entry_rows(out);
            assert(out == seq![es[0]] + more);
            assert(rows[0] == (k, value_of(es[0])));
            assert(rows.skip(1) =~= entry_rows(more));
            if last == Some(key) {
                lemma_picked_order(es, start, end, last);
                assert forall|i: int| 0 <= i < rows.len() implies lex_lt(
                    key,
                    (#[trigger] rows[i]).0,
                ) by {
                    assert(rows[i].0 == out[i].key);
                }
                lemma_above(rows, key);
            }
        }
    } else {
        assert(entry_rows(out) =~= Seq::<RowV>::empty());
    }
}

proof fn lemma_picked_first(
    es: Seq<EntryV>,
    start: Seq<u8>,
    end: Option<Seq<u8>>,
    last: Option<Seq<u8>>,
    key: Seq<u8>,
)
    requires
        in_order(es),
        from_last(es, last),
    ensures
        first_of(picked(es, start, end, last), key) == (if left_out(key, start, end, last) {
            None
        } else {
            first_of(es, key)
        }),
    decreases es.len(),
{
    let out = picked(es, start, end, last);
    if es.len() > 0 {
        let k = es[0].key;
        let rest = es.skip(1);
        lemma_rest_order(es, last);
        if left_out(k, start, end, last) {
            lemma_picked_first(rest, start, end, last, key);
        } else {
            lemma_picked_first(rest, start, end, Some(k), key);
            let more = picked(rest, start, end, Some(k));
            assert(out == seq![es[0]] + more);
            assert(out.skip(1) =~= more);
            if last == Some(key) {
                lemma_picked_order(es, start, end, last);
                assert(lex_lt(key, out[0].key));
                lemma_lex_total(key, key);
                assert forall|i: int| 0 <= i < more.len() implies (#[trigger] more[i]).key != key by {
                    assert(out[i + 1] == more[i]);
                    assert(lex_lt(key, out[i + 1].key));
                }
                lemma_first_any(more, key);
                lemma_first_none(more, key, None);
            }
        }
    }
}

/// Entries with strictly ascending keys.
pub open spec fn each_once(es: Seq<EntryV>) -> bool {
    forall|i: int, j: int|
        0 <= i < j < es.len() ==> lex_lt((#[trigger] es[i]).key, (#[trigger] es[j]).key)
}

/// A range cursor over a written segment gives each key of the range once, by
/// strictly ascending key, with the newest entry that was written for it; a
/// key outside the range it does not give.
pub proof fn range_cursor_gives_each_key_once(
    es: Seq<EntryV>,
    blocks: Seq<Seq<EntryV>>,
    v2: bool,
    v3: bool,
    start: Seq<u8>,
    end: Option<Seq<u8>>,
    key: Seq<u8>,
)
    requires
        good(es, blocks, v2, v3),
    ensures
        scan_run(
            written(es, blocks, v2, v3),
            start,
            end,
            scan_start(written(es, blocks, v2, v3), start),
        ) matches Ok(out) && each_once(out) && first_of(out, key) == (if lex_lt(key, start)
            || past_end(key, end) {
            None
        } else {
            first_of(stored_all(es, v3), key)
        }),
{
    range_cursor_gives_the_heads(es, blocks, v2, v3, start, end);
    let st = stored_all(es, v3);
    assert(in_order(st)) by {
        assert forall|i: int, j: int|
            #![trigger st[i], st[j]]
            0 <= i < j < st.len() implies comes_first(st[i], st[j]) by {
            assert(comes_first(es[i], es[j]));
        }
    }
    lemma_picked_order(st, start, end, None);
    lemma_picked_first(st, start, end, None, key);
}

/// A segment by what was written to it.
pub struct MadeV {
    pub rows: Seq<EntryV>,
    pub target: nat,
    pub v3: bool,
}

/// The written segment, open.
pub open spec fn made_seg(m: MadeV) -> SegV {
    written(m.rows, split(m.rows, m.target, true, m.v3), true, m.v3)
}

/// Rows in order that make a segment.
pub open spec fn made_ok(m: MadeV) -> bool {
    in_order(m.rows) && crate::db::laws::rows_fit(m.rows, m.target, m.v3)
}

/// The stream of a written segment ascends, and holds of each key with the
/// prefix what the segment answers for it.
pub proof fn segment_stream_agrees(m: MadeV, prefix: Seq<u8>, key: Seq<u8>)
    requires
        made_ok(m),
    ensures
        seg_rows(made_seg(m), prefix) matches Ok(rows) && ascending(rows) && row_at(rows, key) == (
        if begins(key, prefix) {
            row_value(seg_answer(made_seg(m), key)->Ok_0)
        } else {
            None
        }),
        seg_answer(made_seg(m), key) is Ok,
{
    let s = made_seg(m);
    let blocks = split(m.rows, m.target, true, m.v3);
    let end = prefix_end_of(prefix);
    reveal(crate::db::laws::rows_fit);
    range_cursor_gives_the_heads(m.rows, blocks, true, m.v3, prefix, end);
    let st = stored_all(m.rows, m.v3);
    assert(in_order(st));
    let out = picked(st, prefix, end, None);
    lemma_picked_order(st, prefix, end, None);
    lemma_picked_at(st, prefix, end, None, key);
    let rows = entry_rows(out);
    assert(seg_rows(s, prefix) == Ok::<Seq<RowV>, ErrV>(rows));
    assert forall|i: int, j: int| 0 <= i < j < rows.len() implies lex_lt(
        (#[trigger] rows[i]).0,
        (#[trigger] rows[j]).0,
    ) by {
        assert(rows[i].0 == out[i].key && rows[j].0 == out[j].key);
    }
    prefix_range_is_exact(prefix, key);
    lemma_lex_total(key, prefix);
    crate::db::laws::lemma_stored_first(m.rows, m.v3, key);
    segment_answers_with_the_newest(m.rows, m.target, m.v3, key);
}

// ---------------------------------------------------------------------------
// The whole
/// The streams of written segments, and what they answer.
proof fn lemma_segments(made: Seq<MadeV>, segs: Seq<SegV>, n: nat, prefix: Seq<u8>, key: Seq<u8>)
    requires
        n <= made.len(),
        segs.len() == made.len(),
        forall|i: int| 0 <= i < made.len() ==> made_ok(#[trigger] made[i]) && segs[i] == made_seg(made[i]),
    ensures
        seg_streams(segs, n, prefix) matches Ok(v) && v.len() == n && all_ascending(v) && newest_row(
            v,
            n,
            key,
        ) == (if begins(key, prefix) {
            row_value(seg_chain(segs, n, key)->Ok_0)
        } else {
            None
        }),
        seg_chain(segs, n, key) is Ok,
    decreases n,
{
    if n > 0 {
        lemma_segments(made, segs, (n - 1) as nat, prefix, key);
        let m = made[n - 1];
        assert(made_ok(made[n - 1]));
        segment_stream_agrees(m, prefix, key);
        let v0 = seg_streams(segs, (n - 1) as nat, prefix)->Ok_0;
        let rows = seg_rows(segs[n - 1], prefix)->Ok_0;
        let v = v0.push(rows);
        assert(seg_streams(segs, n, prefix) == Ok::<Seq<Seq<RowV>>, ErrV>(v));
        assert forall|j: int| 0 <= j < n - 1 implies row_at(#[trigger] v[j], key) == row_at(
            v0[j],
            key,
        ) by {}
        lemma_newest_same(v, v0, (n - 1) as nat, key);
        assert forall|j: int| 0 <= j < v.len() implies ascending(#[trigger] v[j]) by {
            if j < n - 1 {
                assert(v[j] == v0[j]);
                assert(ascending(v0[j]));
            }
        }
        assert(v[n - 1] == rows);
    }
}

/// Streams of layers in memory on top of others.
proof fn lemma_memory(
    base: Seq<Seq<RowV>>,
    layers: Seq<Seq<EntryV>>,
    all: Seq<Seq<RowV>>,
    n: nat,
    prefix: Seq<u8>,
    key: Seq<u8>,
)
    requires
        n <= layers.len(),
        all.len() == base.len() + layers.len(),
        all_ascending(base),
        forall|i: int| 0 <= i < base.len() ==> #[trigger] all[i] == base[i],
        forall|i: int| 0 <= i < layers.len() ==> in_order(#[trigger] layers[i]) && all[base.len() + i] == heads(
            layers[i],
            prefix,
            layers[i].len(),
        ),
    ensures
        newest_row(all, base.len() + n, key) == (if begins(key, prefix) {
            match layered(layers, n, key, None) {
                Some(e) => Some(value_of(e)),
                None => newest_row(base, base.len(), key),
            }
        } else {
            newest_row(base, base.len(), key)
        }),
    decreases n,
{
    if n == 0 {
        assert forall|j: int| 0 <= j < base.len() implies row_at(#[trigger] all[j], key) == row_at(
            base[j],
            key,
        ) by {}
        lemma_newest_same(all, base, base.len(), key);
    } else {
        lemma_memory(base, layers, all, (n - 1) as nat, prefix, key);
        let rows = layers[n - 1];
        heads_are_first_rows(rows, prefix, rows.len(), key);
        assert(rows.take(rows.len() as int) =~= rows);
        assert(all[base.len() + n - 1] == heads(rows, prefix, rows.len()));
    }
}

/// A prefix scan agrees with single reads: it gives its rows by strictly
/// ascending key, and a key is among them with a value exactly where it begins
/// with the prefix and a read of it gives that value.
pub proof fn scan_agrees_with_reads(s: DbV, made: Seq<MadeV>, prefix: Seq<u8>, key: Seq<u8>)
    requires
        sound(s, made),
    ensures
        db_get(s, key) is Ok,
        db_scan(s, prefix) matches Ok(rows) && live_ascending(rows) && live_at(rows, key) == (
        if begins(key, prefix) {
            db_get(s, key)->Ok_0
        } else {
            None
        }),
{
    let n = s.segments.len();
    lemma_segments(made, s.segments, n, prefix, key);
    let base = seg_streams(s.segments, n, prefix)->Ok_0;
    let all = streams(s, prefix)->Ok_0;
    let layers = mem_layers(s);
    assert forall|i: int| 0 <= i < layers.len() implies in_order(#[trigger] layers[i])
        && all[base.len() + i] == heads(layers[i], prefix, layers[i].len()) by {
        if i < s.immutables.len() {
            assert(mem_ok(s.immutables[i]));
            assert(layers[i] == s.immutables[i].rows);
        }
    }
    lemma_memory(base, layers, all, layers.len(), prefix, key);
    assert forall|i: int| 0 <= i < all.len() implies ascending(#[trigger] all[i]) by {
        if i < base.len() {
            assert(ascending(base[i]));
        } else {
            let rows = layers[i - base.len()];
            assert(in_order(rows));
            heads_are_first_rows(rows, prefix, rows.len(), key);
        }
    }
    merge_shows_the_newest(all, key);
}

/// The value of a row that is there.
proof fn lemma_live_has(rows: Seq<LiveV>, i: int)
    requires
        live_ascending(rows),
        0 <= i < rows.len(),
    ensures
        live_at(rows, rows[i].0) == Some(rows[i].1),
    decreases rows.len(),
{
    if i > 0 {
        let rest = rows.skip(1);
        lemma_lex_total(rows[0].0, rows[i].0);
        assert forall|a: int, b: int| 0 <= a < b < rest.len() implies lex_lt(
            (#[trigger] rest[a]).0,
            (#[trigger] rest[b]).0,
        ) by {
            assert(rest[a] == rows[a + 1] && rest[b] == rows[b + 1]);
        }
        assert(rest[i - 1] == rows[i]);
        lemma_live_has(rest, i - 1);
    }
}

/// A value comes from a row.
proof fn lemma_live_from(rows: Seq<LiveV>, key: Seq<u8>) -> (i: int)
    requires
        live_at(rows, key) is Some,
    ensures
        0 <= i < rows.len(),
        rows[i].0 == key,
        rows[i].1 == live_at(rows, key)->0,
    decreases rows.len(),
{
    if rows[0].0 == key {
        0
    } else {
        let i = lemma_live_from(rows.skip(1), key);
        i + 1
    }
}

/// Ascending rows are known by the values of their keys.
proof fn lemma_live_same(a: Seq<LiveV>, b: Seq<LiveV>, n: nat)
    requires
        live_ascending(a),
        live_ascending(b),
        forall|key: Seq<u8>| #[trigger] live_at(a, key) == live_at(b, key),
        n <= a.len(),
    ensures
        n <= b.len(),
        forall|i: int| 0 <= i < n ==> a[i] == b[i],
    decreases n,
{
    if n > 0 {
        lemma_live_same(a, b, (n - 1) as nat);
        let m = n - 1;
        lemma_live_has(a, m);
        assert(live_at(b, a[m].0) == Some(a[m].1));
        let j = lemma_live_from(b, a[m].0);
        if j < m {
            assert(b[j] == a[j]);
            assert(lex_lt(a[j].0, a[m].0));
            lemma_lex_total(a[j].0, a[m].0);
        }
        lemma_live_has(b, m);
        assert(live_at(a, b[m].0) == Some(b[m].1));
        let k = lemma_live_from(a, b[m].0);
        if k < m {
            assert(b[k] == a[k]);
            assert(lex_lt(b[k].0, b[m].0));
            lemma_lex_total(b[k].0, b[m].0);
        }
        if m < j {
            assert(lex_lt(b[m].0, b[j].0));
            if m < k {
                assert(lex_lt(a[m].0, a[k].0));
            }
            lemma_lex_total(a[m].0, b[m].0);
        }
    }
}

/// The layers of a database in order, its segments those that were written.
pub open spec fn sound(s: DbV, made: Seq<MadeV>) -> bool {
    &&& mem_ok(s.active)
    &&& forall|i: int| 0 <= i < s.immutables.len() ==> mem_ok(#[trigger] s.immutables[i])
    &&& s.segments.len() == made.len()
    &&& forall|i: int|
        0 <= i < made.len() ==> made_ok(#[trigger] made[i]) && s.segments[i] == made_seg(made[i])
}

/// What keeps every read keeps every scan: two databases whose keys read alike
/// scan alike.
pub proof fn scans_follow_reads(
    a: DbV,
    made_a: Seq<MadeV>,
    b: DbV,
    made_b: Seq<MadeV>,
    prefix: Seq<u8>,
)
    requires
        sound(a, made_a),
        sound(b, made_b),
        forall|key: Seq<u8>| #[trigger] db_get(a, key) == db_get(b, key),
    ensures
        db_scan(a, prefix) == db_scan(b, prefix),
        db_scan(a, prefix) is Ok,
{
    scan_agrees_with_reads(a, made_a, prefix, prefix);
    scan_agrees_with_reads(b, made_b, prefix, prefix);
    let x = db_scan(a, prefix)->Ok_0;
    let y = db_scan(b, prefix)->Ok_0;
    assert forall|key: Seq<u8>| #[trigger] live_at(x, key) == live_at(y, key) by {
        scan_agrees_with_reads(a, made_a, prefix, key);
        scan_agrees_with_reads(b, made_b, prefix, key);
        assert(db_get(a, key) == db_get(b, key));
    }
    assert forall|key: Seq<u8>| #[trigger] live_at(y, key) == live_at(x, key) by {
        assert(live_at(x, key) == live_at(y, key));
    }
    lemma_live_same(x, y, x.len());
    lemma_live_same(y, x, y.len());
    assert(x =~= y);
}

} // verus!
