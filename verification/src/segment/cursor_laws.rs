//! A range cursor over a written segment gives the heads of the range.

use crate::codec::{lemma_lex_trans, lex_lt};
use crate::format::ErrV;
use crate::segment::block::{block_payload, body_bytes, is_full};
use crate::segment::block_laws::{
    block_fits, body_start, lemma_entry_at, lemma_keys_ascend, lemma_order_part, lemma_payload_len,
    lemma_seek_lands, stored, stored_all,
};
use crate::segment::cursor::{
    lemma_scan_entry, lemma_scan_step, loaded_payload, past_end, scan_entry, scan_load, scan_run,
    scan_start, scan_step, Move, ScanV,
};
use crate::segment::entry::EntryV;
use crate::segment::open::SegV;
use crate::segment::open_laws::{flat, written};
use crate::segment::read::first_block;
use crate::segment::read_laws::{
    good, lemma_block_reads, lemma_first_block, lemma_flat_tail, lemma_pieces, tail,
};
use crate::segment::write::in_order;
use vstd::prelude::*;

verus! {

/// The heads of `[start, end)` among entries in order: of each key the first
/// entry. `last` is the key given last.
pub open spec fn picked(
    es: Seq<EntryV>,
    start: Seq<u8>,
    end: Option<Seq<u8>>,
    last: Option<Seq<u8>>,
) -> Seq<EntryV>
    decreases es.len(),
{
    if es.len() == 0 {
        seq![]
    } else {
        let k = es[0].key;
        if lex_lt(k, start) || past_end(k, end) || last == Some(k) {
            picked(es.skip(1), start, end, last)
        } else {
            seq![es[0]] + picked(es.skip(1), start, end, Some(k))
        }
    }
}

/// Keys at or past the end give nothing.
proof fn lemma_picked_past(
    es: Seq<EntryV>,
    start: Seq<u8>,
    end: Option<Seq<u8>>,
    last: Option<Seq<u8>>,
)
    requires
        forall|i: int| 0 <= i < es.len() ==> past_end((#[trigger] es[i]).key, end),
    ensures
        picked(es, start, end, last) == Seq::<EntryV>::empty(),
    decreases es.len(),
{
    if es.len() > 0 {
        assert(past_end(es[0].key, end));
        assert forall|i: int| 0 <= i < es.skip(1).len() implies past_end(
            (#[trigger] es.skip(1)[i]).key,
            end,
        ) by {
            assert(es.skip(1)[i] == es[i + 1]);
        }
        lemma_picked_past(es.skip(1), start, end, last);
    }
}

/// Keys before the start give nothing.
proof fn lemma_picked_early(
    a: Seq<EntryV>,
    b: Seq<EntryV>,
    start: Seq<u8>,
    end: Option<Seq<u8>>,
    last: Option<Seq<u8>>,
)
    requires
        forall|i: int| 0 <= i < a.len() ==> lex_lt((#[trigger] a[i]).key, start),
    ensures
        picked(a + b, start, end, last) == picked(b, start, end, last),
    decreases a.len(),
{
    if a.len() > 0 {
        let r = a.skip(1);
        assert forall|i: int| 0 <= i < r.len() implies lex_lt((#[trigger] r[i]).key, start) by {
            assert(r[i] == a[i + 1]);
        }
        lemma_picked_early(r, b, start, end, last);
        assert((a + b).skip(1) =~= r + b);
        assert(lex_lt(a[0].key, start));
    } else {
        assert(a + b =~= b);
    }
}

/// In order, nothing comes back below the end.
proof fn lemma_past_stays(es: Seq<EntryV>, end: Option<Seq<u8>>)
    requires
        in_order(es),
        es.len() > 0,
        past_end(es[0].key, end),
    ensures
        forall|i: int| 0 <= i < es.len() ==> past_end((#[trigger] es[i]).key, end),
{
    assert forall|i: int| 0 <= i < es.len() implies past_end((#[trigger] es[i]).key, end) by {
        lemma_keys_ascend(es, 0, i);
        if lex_lt(es[0].key, es[i].key) && lex_lt(es[i].key, end->0) {
            lemma_lex_trans(es[0].key, es[i].key, end->0);
        }
    }
}

// ---------------------------------------------------------------------------
// Runs
/// A run goes on where a step goes on.
proof fn lemma_run_same(s: SegV, start: Seq<u8>, end: Option<Seq<u8>>, c: ScanV, c2: ScanV)
    requires
        scan_step(s, start, end, c) == scan_step(s, start, end, c2),
    ensures
        scan_run(s, start, end, c) == scan_run(s, start, end, c2),
{
    lemma_scan_step(s, start, end, c);
    lemma_scan_step(s, start, end, c2);
}

proof fn lemma_run_load(s: SegV, start: Seq<u8>, end: Option<Seq<u8>>, c: ScanV)
    requires
        !c.done,
        c.loaded is None,
    ensures
        match scan_load(s, start, end, c) {
            Err(e) => true,
            Ok(None) => scan_run(s, start, end, c) == Ok::<Seq<EntryV>, ErrV>(seq![]),
            Ok(Some(c2)) => scan_run(s, start, end, c) == scan_run(s, start, end, c2),
        },
{
    if let Ok(Some(c2)) = scan_load(s, start, end, c) {
        lemma_run_same(s, start, end, c, c2);
    }
}

proof fn lemma_run_entry(s: SegV, start: Seq<u8>, end: Option<Seq<u8>>, c: ScanV, i: int)
    requires
        !c.done,
        c.loaded == Some(i),
    ensures
        match scan_entry(s, start, end, c, i) {
            Move::Go(c2) => scan_run(s, start, end, c) == scan_run(s, start, end, c2),
            Move::Give(None, _) => scan_run(s, start, end, c) == Ok::<Seq<EntryV>, ErrV>(seq![]),
            Move::Give(Some(Ok(x)), c2) => scan_run(s, start, end, c) == (match scan_run(
                s,
                start,
                end,
                c2,
            ) {
                Err(e) => Err::<Seq<EntryV>, ErrV>(e),
                Ok(rest) => Ok(seq![x] + rest),
            }),
            _ => true,
        },
{
    lemma_scan_entry(s, start, end, c, i);
    lemma_scan_step(s, start, end, c);
    if let Move::Go(c2) = scan_entry(s, start, end, c, i) {
        lemma_run_same(s, start, end, c, c2);
    }
}

/// What a run over a written segment gives.
#[verifier::opaque]
spec fn run_of(
    es: Seq<EntryV>,
    blocks: Seq<Seq<EntryV>>,
    v2: bool,
    v3: bool,
    start: Seq<u8>,
    end: Option<Seq<u8>>,
    c: ScanV,
) -> Result<Seq<EntryV>, ErrV> {
    scan_run(written(es, blocks, v2, v3), start, end, c)
}

/// A written segment of ordered entries.
#[verifier::opaque]
spec fn fine(es: Seq<EntryV>, blocks: Seq<Seq<EntryV>>, v2: bool, v3: bool) -> bool {
    good(es, blocks, v2, v3)
}

/// The cursor stands before entry `j` of block `i`.
#[verifier::opaque]
spec fn stands(
    blocks: Seq<Seq<EntryV>>,
    v2: bool,
    v3: bool,
    i: int,
    j: int,
    c: ScanV,
) -> bool {
    let bl = blocks[i];
    &&& 0 <= i < blocks.len()
    &&& 0 <= j <= bl.len()
    &&& c.block == i + 1
    &&& c.loaded == Some(i)
    &&& c.pos == body_start(bl, v2) + body_bytes(bl, bl.len(), j as nat, v2, v3).len()
    &&& !c.done
    &&& (j < bl.len() ==> is_full(bl, bl.len(), j, v2) || (j > 0 && c.scratch == bl[j - 1].key))
}

/// What the cursor does at entry `j` of block `i`.
proof fn lemma_at_entry(
    es: Seq<EntryV>,
    blocks: Seq<Seq<EntryV>>,
    v2: bool,
    v3: bool,
    start: Seq<u8>,
    end: Option<Seq<u8>>,
    i: int,
    j: int,
    c: ScanV,
)
    requires
        fine(es, blocks, v2, v3),
        stands(blocks, v2, v3, i, j, c),
        0 <= i < blocks.len(),
        0 <= j < blocks[i].len(),
    ensures
        ({
            let s = written(es, blocks, v2, v3);
            let bl = blocks[i];
            let k = bl[j].key;
            let next = body_start(bl, v2) + body_bytes(bl, bl.len(), (j + 1) as nat, v2, v3).len();
            let c2 = ScanV { scratch: k, pos: next as int, ..c };
            scan_entry(s, start, end, c, i) == (if !lex_lt(k, start) && past_end(k, end) {
                Move::Give(None, ScanV { scratch: k, done: true, ..c })
            } else if lex_lt(k, start) || c.last == Some(k) {
                Move::Go(c2)
            } else {
                Move::Give(Some(Ok(stored(bl[j], v3))), ScanV { last: Some(k), ..c2 })
            })
        }),
{
    reveal(fine);
    reveal(stands);
    let s = written(es, blocks, v2, v3);
    let bl = blocks[i];
    lemma_block_reads(es, blocks, v2, v3, i);
    assert(loaded_payload(s, i) == block_payload(bl, bl.len(), v2, v3));
    assert(s.data[i].v3 == v3);
    assert(block_fits(blocks[i], v2, v3));
    lemma_entry_at(bl, v2, v3, j, c.scratch);
}

/// Loading block `i` puts the cursor before entry `h`.
proof fn lemma_at_block(
    es: Seq<EntryV>,
    blocks: Seq<Seq<EntryV>>,
    v2: bool,
    v3: bool,
    start: Seq<u8>,
    end: Option<Seq<u8>>,
    i: int,
    c: ScanV,
) -> (h: int)
    requires
        fine(es, blocks, v2, v3),
        0 <= i < blocks.len(),
        c.block == i,
        !c.done,
    ensures
        0 <= h < blocks[i].len(),
        forall|j: int| 0 <= j < h ==> lex_lt((#[trigger] blocks[i][j]).key, start),
        match scan_load(written(es, blocks, v2, v3), start, end, c) {
            Ok(Some(c2)) => stands(blocks, v2, v3, i, h, c2) && c2.last == c.last && !past_end(
                blocks[i][0].key,
                end,
            ),
            Ok(None) => past_end(blocks[i][0].key, end),
            Err(_) => false,
        },
{
    reveal(fine);
    reveal(stands);
    let s = written(es, blocks, v2, v3);
    let bl = blocks[i];
    assert(s.data[i].first == bl[0].key && s.data[i].v2 == v2);
    lemma_block_reads(es, blocks, v2, v3, i);
    lemma_pieces(es, blocks, v2, v3, i);
    assert(block_fits(blocks[i], v2, v3));
    lemma_seek_lands(bl, v2, v3, start)
}

/// From a block past the end on there is nothing to give.
proof fn lemma_past_block(
    es: Seq<EntryV>,
    blocks: Seq<Seq<EntryV>>,
    v2: bool,
    v3: bool,
    start: Seq<u8>,
    end: Option<Seq<u8>>,
    i: int,
    last: Option<Seq<u8>>,
)
    requires
        fine(es, blocks, v2, v3),
        0 <= i < blocks.len(),
        past_end(blocks[i][0].key, end),
    ensures
        picked(stored_all(tail(blocks, i), v3), start, end, last) == Seq::<EntryV>::empty(),
{
    reveal(fine);
    let st = stored_all(tail(blocks, i), v3);
    lemma_pieces(es, blocks, v2, v3, i);
    assert(tail(blocks, i)[0] == blocks[i][0]);
    lemma_past_stays(tail(blocks, i), end);
    assert forall|x: int| 0 <= x < st.len() implies past_end((#[trigger] st[x]).key, end) by {
        assert(past_end(tail(blocks, i)[x].key, end));
    }
    lemma_picked_past(st, start, end, last);
}

/// Entries before `start` at the front of a block change nothing.
proof fn lemma_early_block(
    blocks: Seq<Seq<EntryV>>,
    v3: bool,
    start: Seq<u8>,
    end: Option<Seq<u8>>,
    i: int,
    h: int,
    last: Option<Seq<u8>>,
)
    requires
        0 <= i < blocks.len(),
        0 <= h <= blocks[i].len(),
        forall|j: int| 0 <= j < h ==> lex_lt((#[trigger] blocks[i][j]).key, start),
    ensures
        picked(stored_all(tail(blocks, i), v3), start, end, last) == picked(
            stored_all(blocks[i].skip(h) + tail(blocks, i + 1), v3),
            start,
            end,
            last,
        ),
{
    let bl = blocks[i];
    let a = stored_all(bl.take(h), v3);
    let b = stored_all(bl.skip(h) + tail(blocks, i + 1), v3);
    assert(stored_all(tail(blocks, i), v3) =~= a + b);
    assert forall|j: int| 0 <= j < a.len() implies lex_lt((#[trigger] a[j]).key, start) by {
        assert(a[j].key == blocks[i][j].key);
    }
    lemma_picked_early(a, b, start, end, last);
}

/// A run at entry `j` of block `i`: it ends, passes the entry, or gives it.
proof fn lemma_run_at(
    es: Seq<EntryV>,
    blocks: Seq<Seq<EntryV>>,
    v2: bool,
    v3: bool,
    start: Seq<u8>,
    end: Option<Seq<u8>>,
    i: int,
    j: int,
    c: ScanV,
) -> (c2: ScanV)
    requires
        fine(es, blocks, v2, v3),
        stands(blocks, v2, v3, i, j, c),
        0 <= i < blocks.len(),
        0 <= j < blocks[i].len(),
    ensures
        stands(blocks, v2, v3, i, j + 1, c2),
        ({
            let k = blocks[i][j].key;
            if !lex_lt(k, start) && past_end(k, end) {
                run_of(es, blocks, v2, v3, start, end, c) == Ok::<Seq<EntryV>, ErrV>(seq![])
            } else if lex_lt(k, start) || c.last == Some(k) {
                c2.last == c.last && run_of(es, blocks, v2, v3, start, end, c) == run_of(es, blocks, v2, v3, start, end, c2)
            } else {
                c2.last == Some(k) && run_of(es, blocks, v2, v3, start, end, c) == (match run_of(
                    es,
                    blocks,
                    v2,
                    v3,
                    start,
                    end,
                    c2,
                ) {
                    Err(e) => Err::<Seq<EntryV>, ErrV>(e),
                    Ok(rest) => Ok(seq![stored(blocks[i][j], v3)] + rest),
                })
            }
        }),
{
    reveal(fine);
    reveal(stands);
    reveal(run_of);
    let s = written(es, blocks, v2, v3);
    let bl = blocks[i];
    let k = bl[j].key;
    let next = body_start(bl, v2) + body_bytes(bl, bl.len(), (j + 1) as nat, v2, v3).len();
    let c2 = ScanV { scratch: k, pos: next as int, ..c };
    lemma_at_entry(es, blocks, v2, v3, start, end, i, j, c);
    lemma_run_entry(s, start, end, c, i);
    if lex_lt(k, start) || past_end(k, end) || c.last == Some(k) {
        c2
    } else {
        ScanV { last: Some(k), ..c2 }
    }
}

/// A run at the end of block `i` goes on with the next.
proof fn lemma_run_over(
    es: Seq<EntryV>,
    blocks: Seq<Seq<EntryV>>,
    v2: bool,
    v3: bool,
    start: Seq<u8>,
    end: Option<Seq<u8>>,
    i: int,
    c: ScanV,
)
    requires
        fine(es, blocks, v2, v3),
        0 <= i < blocks.len(),
        stands(blocks, v2, v3, i, blocks[i].len() as int, c),
    ensures
        run_of(es, blocks, v2, v3, start, end, c) == run_of(
            es,
            blocks,
            v2,
            v3,
            start,
            end,
            ScanV { loaded: None, ..c },
        ),
        c.block == i + 1,
        !c.done,
{
    reveal(fine);
    reveal(stands);
    reveal(run_of);
    let s = written(es, blocks, v2, v3);
    lemma_run_entry(s, start, end, c, i);
    lemma_block_reads(es, blocks, v2, v3, i);
    assert(block_fits(blocks[i], v2, v3));
    lemma_payload_len(blocks[i], v2, v3);
}

/// From an entry past the end on there is nothing to give.
proof fn lemma_past_entry(
    es: Seq<EntryV>,
    blocks: Seq<Seq<EntryV>>,
    v2: bool,
    v3: bool,
    start: Seq<u8>,
    end: Option<Seq<u8>>,
    i: int,
    j: int,
    last: Option<Seq<u8>>,
)
    requires
        fine(es, blocks, v2, v3),
        0 <= i < blocks.len(),
        0 <= j < blocks[i].len(),
        past_end(blocks[i][j].key, end),
    ensures
        picked(
            stored_all(blocks[i].skip(j) + tail(blocks, i + 1), v3),
            start,
            end,
            last,
        ) == Seq::<EntryV>::empty(),
{
    reveal(fine);
    let t = tail(blocks, i);
    let all = blocks[i].skip(j) + tail(blocks, i + 1);
    let left = stored_all(all, v3);
    lemma_pieces(es, blocks, v2, v3, i);
    assert(all =~= t.subrange(j, t.len() as int));
    lemma_order_part(t, j, t.len() as int);
    lemma_past_stays(all, end);
    assert forall|x: int| 0 <= x < left.len() implies past_end((#[trigger] left[x]).key, end) by {
        assert(left[x] == stored(all[x], v3));
        assert(past_end(all[x].key, end));
    }
    lemma_picked_past(left, start, end, last);
}

/// A run at block `i`: it ends, or goes on before entry `h` of the block.
proof fn lemma_run_block(
    es: Seq<EntryV>,
    blocks: Seq<Seq<EntryV>>,
    v2: bool,
    v3: bool,
    start: Seq<u8>,
    end: Option<Seq<u8>>,
    i: int,
    c: ScanV,
) -> (r: (int, ScanV))
    requires
        fine(es, blocks, v2, v3),
        0 <= i < blocks.len(),
        c.block == i,
        c.loaded is None,
        !c.done,
    ensures
        0 <= r.0 < blocks[i].len(),
        forall|j: int| 0 <= j < r.0 ==> lex_lt((#[trigger] blocks[i][j]).key, start),
        past_end(blocks[i][0].key, end) ==> run_of(es, blocks, v2, v3, start, end, c) == Ok::<
            Seq<EntryV>,
            ErrV,
        >(seq![]),
        !past_end(blocks[i][0].key, end) ==> stands(blocks, v2, v3, i, r.0, r.1) && r.1.last
            == c.last && run_of(es, blocks, v2, v3, start, end, c) == run_of(
            es,
            blocks,
            v2,
            v3,
            start,
            end,
            r.1,
        ),
{
    reveal(run_of);
    let s = written(es, blocks, v2, v3);
    let h = lemma_at_block(es, blocks, v2, v3, start, end, i, c);
    lemma_run_load(s, start, end, c);
    match scan_load(s, start, end, c) {
        Ok(Some(c2)) => (h, c2),
        _ => (h, c),
    }
}

/// A run behind the last block ends.
proof fn lemma_run_out(
    es: Seq<EntryV>,
    blocks: Seq<Seq<EntryV>>,
    v2: bool,
    v3: bool,
    start: Seq<u8>,
    end: Option<Seq<u8>>,
    c: ScanV,
)
    requires
        c.block == blocks.len(),
        c.loaded is None,
        !c.done,
    ensures
        run_of(es, blocks, v2, v3, start, end, c) == Ok::<Seq<EntryV>, ErrV>(seq![]),
{
    reveal(run_of);
    lemma_run_load(written(es, blocks, v2, v3), start, end, c);
}

/// What the cursor gives from entry `j` of block `i` on.
proof fn lemma_from_entry(
    es: Seq<EntryV>,
    blocks: Seq<Seq<EntryV>>,
    v2: bool,
    v3: bool,
    start: Seq<u8>,
    end: Option<Seq<u8>>,
    i: int,
    j: int,
    c: ScanV,
)
    requires
        fine(es, blocks, v2, v3),
        0 <= i < blocks.len(),
        0 <= j <= blocks[i].len(),
        stands(blocks, v2, v3, i, j, c),
    ensures
        run_of(es, blocks, v2, v3, start, end, c) == Ok::<Seq<EntryV>, ErrV>(
            picked(
                stored_all(blocks[i].skip(j) + tail(blocks, i + 1), v3),
                start,
                end,
                c.last,
            ),
        ),
    decreases blocks.len() - i, blocks[i].len() - j,
{
    let bl = blocks[i];
    let t = tail(blocks, i + 1);
    let left = stored_all(bl.skip(j) + t, v3);
    if j < bl.len() {
        let c2 = lemma_run_at(es, blocks, v2, v3, start, end, i, j, c);
        let k = bl[j].key;
        assert(left[0] == stored(bl[j], v3));
        assert(left.skip(1) =~= stored_all(bl.skip(j + 1) + t, v3));
        if past_end(k, end) {
            lemma_past_entry(es, blocks, v2, v3, start, end, i, j, c.last);
        }
        if lex_lt(k, start) || !past_end(k, end) {
            lemma_from_entry(es, blocks, v2, v3, start, end, i, j + 1, c2);
        }
    } else {
        lemma_run_over(es, blocks, v2, v3, start, end, i, c);
        lemma_from_block(es, blocks, v2, v3, start, end, i + 1, ScanV { loaded: None, ..c });
        assert(bl.skip(j) + t =~= t);
    }
}

/// What the cursor gives from block `i` on.
proof fn lemma_from_block(
    es: Seq<EntryV>,
    blocks: Seq<Seq<EntryV>>,
    v2: bool,
    v3: bool,
    start: Seq<u8>,
    end: Option<Seq<u8>>,
    i: int,
    c: ScanV,
)
    requires
        fine(es, blocks, v2, v3),
        0 <= i <= blocks.len(),
        c.block == i,
        c.loaded is None,
        !c.done,
    ensures
        run_of(es, blocks, v2, v3, start, end, c) == Ok::<Seq<EntryV>, ErrV>(
            picked(stored_all(tail(blocks, i), v3), start, end, c.last),
        ),
    decreases blocks.len() - i, (if i < blocks.len() { blocks[i].len() + 1 } else { 0 }),
{
    let st = stored_all(tail(blocks, i), v3);
    if i < blocks.len() {
        let (h, c2) = lemma_run_block(es, blocks, v2, v3, start, end, i, c);
        if past_end(blocks[i][0].key, end) {
            lemma_past_block(es, blocks, v2, v3, start, end, i, c.last);
        } else {
            lemma_from_entry(es, blocks, v2, v3, start, end, i, h, c2);
            lemma_early_block(blocks, v3, start, end, i, h, c.last);
        }
    } else {
        lemma_run_out(es, blocks, v2, v3, start, end, c);
        assert(st =~= seq![]);
    }
}

/// A range cursor over a written segment gives, of each key of the range, the
/// first entry that was written for it; and nothing else.
pub proof fn range_cursor_gives_the_heads(
    es: Seq<EntryV>,
    blocks: Seq<Seq<EntryV>>,
    v2: bool,
    v3: bool,
    start: Seq<u8>,
    end: Option<Seq<u8>>,
)
    requires
        good(es, blocks, v2, v3),
    ensures
        scan_run(
            written(es, blocks, v2, v3),
            start,
            end,
            scan_start(written(es, blocks, v2, v3), start),
        ) == Ok::<Seq<EntryV>, ErrV>(picked(stored_all(es, v3), start, end, None)),
{
    let s = written(es, blocks, v2, v3);
    let i = first_block(s, start);
    reveal(fine);
    reveal(run_of);
    lemma_first_block(es, blocks, v2, v3, start);
    lemma_from_block(es, blocks, v2, v3, start, end, i, scan_start(s, start));
    lemma_flat_tail(blocks, i);
    let a = stored_all(flat(blocks, i as nat), v3);
    let b = stored_all(tail(blocks, i), v3);
    assert(stored_all(es, v3) =~= a + b);
    assert forall|j: int| 0 <= j < a.len() implies lex_lt((#[trigger] a[j]).key, start) by {
        assert(lex_lt(flat(blocks, i as nat)[j].key, start));
    }
    lemma_picked_early(a, b, start, end, None);
}

} // verus!
