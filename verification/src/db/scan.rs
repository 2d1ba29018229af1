//! Prefix scans: every live key that begins with a prefix, by ascending key,
//! with the value of the newest layer that has it.

use crate::codec::{compare, lemma_lex_total, lex_le, lex_lt, to_vec, Order};
use crate::compaction::run::{all_wf, segs_view};
use crate::db::scan_failure::{
    failing_scans_have_a_failure, first_failure, given_errs, given_rows,
};
use crate::db::state::{Db, DbV};
use crate::format::{ErrV, FormatError};
use crate::memtable::{
    begins, copy_value, entry_value, heads, row_view, rows_view, value_of, MemV, Row, RowV,
};
use crate::segment::cursor::{
    lemma_scan_step, opt_seq, opt_slice, scan_left, scan_run, scan_start, SegmentScan,
};
use crate::segment::entry::EntryV;
use crate::segment::open::{SegV, SegmentReader};
use vstd::prelude::*;

verus! {

// ---------------------------------------------------------------------------
// The end of a prefix
/// The first key past all keys that begin with `prefix`: the last byte that
/// can be raised is raised, and what follows it is dropped. None where no byte
/// can be raised, and for the empty prefix.
pub open spec fn prefix_end_of(prefix: Seq<u8>) -> Option<Seq<u8>>
    decreases prefix.len(),
{
    if prefix.len() == 0 {
        None
    } else if prefix.last() == 0xff {
        match prefix_end_of(prefix.drop_last()) {
            None => None,
            Some(e) => Some(e),
        }
    } else {
        Some(prefix.drop_last().push((prefix.last() + 1) as u8))
    }
}

/// The first key past all keys that begin with `prefix`.
pub fn prefix_end(prefix: &[u8]) -> (r: Option<Vec<u8>>)
    ensures
        opt_seq(r) == prefix_end_of(prefix@),
{
    let mut n: usize = prefix.len();
    assert(prefix@.take(n as int) =~= prefix@);
    while n > 0
        invariant
            n <= prefix@.len(),
            prefix_end_of(prefix@) == prefix_end_of(prefix@.take(n as int)),
        decreases n,
    {
        let last = prefix[n - 1];
        let ghost p = prefix@.take(n as int);
        assert(p.last() == last);
        assert(p.drop_last() =~= prefix@.take(n - 1));
        if last != 0xff {
            let mut end = to_vec(&prefix[0..n - 1]);
            assert(end@ =~= p.drop_last());
            end.push(last + 1);
            return Some(end);
        }
        n -= 1;
    }
    None
}

/// The range `[prefix, end)` holds the keys that begin with the prefix, and
/// no others.
pub proof fn prefix_range_is_exact(prefix: Seq<u8>, key: Seq<u8>)
    ensures
        (lex_le(prefix, key) && match prefix_end_of(prefix) {
            Some(end) => lex_lt(key, end),
            None => true,
        }) == begins(key, prefix),
    decreases prefix.len(),
{
    if prefix.len() == 0 {
        assert(key.take(0) =~= prefix);
        lemma_lex_total(prefix, key);
        if key.len() == 0 {
            assert(key =~= prefix);
        }
    } else {
        lemma_end_head(prefix);
        if key.len() == 0 {
            lemma_lex_total(prefix, key);
        } else {
            let p = prefix.skip(1);
            let k = key.skip(1);
            prefix_range_is_exact(p, k);
            assert(begins(key, prefix) == (key[0] == prefix[0] && begins(k, p))) by {
                if begins(key, prefix) {
                    assert(key.take(prefix.len() as int)[0] == key[0]);
                    assert(k.take(p.len() as int) =~= key.take(prefix.len() as int).skip(1));
                }
                if key[0] == prefix[0] && begins(k, p) {
                    assert(key.take(prefix.len() as int) =~= seq![key[0]] + k.take(p.len() as int));
                    assert(prefix =~= seq![prefix[0]] + p);
                }
            }
            assert(lex_le(prefix, key) == (prefix[0] < key[0] || (prefix[0] == key[0] && lex_le(
                p,
                k,
            )))) by {
                if prefix[0] == key[0] && p == k {
                    assert(prefix =~= seq![prefix[0]] + p);
                    assert(key =~= seq![key[0]] + k);
                }
                if prefix == key {
                    assert(p == k);
                }
            }
            match prefix_end_of(prefix) {
                None => {},
                Some(end) => {
                    match prefix_end_of(p) {
                        Some(e2) => {
                            assert(end.skip(1) =~= e2);
                        },
                        None => {
                            assert(end =~= seq![(prefix[0] + 1) as u8]);
                            assert(!lex_lt(k, end.skip(1)));
                        },
                    }
                },
            }
        }
    }
}

/// The end of a prefix, seen from its first byte.
proof fn lemma_end_head(prefix: Seq<u8>)
    requires
        prefix.len() > 0,
    ensures
        prefix_end_of(prefix) == (match prefix_end_of(prefix.skip(1)) {
            Some(e) => Some(seq![prefix[0]] + e),
            None => if prefix[0] == 0xff {
                None
            } else {
                Some(seq![(prefix[0] + 1) as u8])
            },
        }),
    decreases prefix.len(),
{
    if prefix.len() == 1 {
        assert(prefix.skip(1) =~= Seq::<u8>::empty());
        assert(prefix.drop_last() =~= Seq::<u8>::empty());
        assert(prefix.drop_last().push((prefix.last() + 1) as u8) =~= seq![(prefix[0] + 1) as u8]);
    } else {
        let rest = prefix.skip(1);
        assert(rest.last() == prefix.last());
        assert(rest.drop_last() =~= prefix.drop_last().skip(1));
        assert(prefix.drop_last()[0] == prefix[0]);
        lemma_end_head(prefix.drop_last());
        if prefix.last() != 0xff {
            assert(prefix.drop_last().push((prefix.last() + 1) as u8) =~= seq![prefix[0]]
                + rest.drop_last().push((rest.last() + 1) as u8));
        }
    }
}

// ---------------------------------------------------------------------------
// Streams
/// Entries as rows.
pub open spec fn entry_rows(es: Seq<EntryV>) -> Seq<RowV> {
    es.map_values(|e: EntryV| (e.key, value_of(e)))
}

/// The rows of a segment in the range of a prefix.
pub open spec fn seg_rows(s: SegV, prefix: Seq<u8>) -> Result<Seq<RowV>, ErrV> {
    match scan_run(s, prefix, prefix_end_of(prefix), scan_start(s, prefix)) {
        Err(e) => Err(e),
        Ok(es) => Ok(entry_rows(es)),
    }
}

/// The streams of the first `n` segments.
pub open spec fn seg_streams(segs: Seq<SegV>, n: nat, prefix: Seq<u8>) -> Result<
    Seq<Seq<RowV>>,
    ErrV,
>
    decreases n,
{
    if n == 0 {
        Ok(seq![])
    } else {
        match seg_streams(segs, (n - 1) as nat, prefix) {
            Err(e) => Err(e),
            Ok(v) => match seg_rows(segs[n - 1], prefix) {
                Err(e) => Err(e),
                Ok(rows) => Ok(v.push(rows)),
            },
        }
    }
}

/// The stream of a memtable.
pub open spec fn mem_stream(m: MemV, prefix: Seq<u8>) -> Seq<RowV> {
    heads(m.rows, prefix, m.rows.len())
}

/// All streams, oldest first.
pub open spec fn streams(s: DbV, prefix: Seq<u8>) -> Result<Seq<Seq<RowV>>, ErrV> {
    match seg_streams(s.segments, s.segments.len(), prefix) {
        Err(e) => Err(e),
        Ok(v) => Ok(
            v + s.immutables.map_values(|m: MemV| mem_stream(m, prefix)) + seq![
                mem_stream(s.active, prefix),
            ],
        ),
    }
}

// ---------------------------------------------------------------------------
// Merging
/// Which of the first `n` streams has the smallest head; of equal heads, the
/// newest.
pub open spec fn least(pend: Seq<Seq<RowV>>, n: nat) -> Option<int>
    decreases n,
{
    if n == 0 {
        None
    } else {
        let prev = least(pend, (n - 1) as nat);
        if pend[n - 1].len() == 0 {
            prev
        } else {
            match prev {
                None => Some(n - 1),
                Some(i) => if lex_le(pend[n - 1][0].0, pend[i][0].0) {
                    Some(n - 1)
                } else {
                    prev
                },
            }
        }
    }
}

/// One stream less a head with the key.
pub open spec fn pass(rows: Seq<RowV>, key: Seq<u8>) -> Seq<RowV> {
    if rows.len() > 0 && rows[0].0 == key {
        rows.skip(1)
    } else {
        rows
    }
}

/// Every stream less a head with the key.
pub open spec fn pass_all(pend: Seq<Seq<RowV>>, key: Seq<u8>) -> Seq<Seq<RowV>> {
    pend.map_values(|rows: Seq<RowV>| pass(rows, key))
}

pub open spec fn rows_left(pend: Seq<Seq<RowV>>) -> nat
    decreases pend.len(),
{
    if pend.len() == 0 {
        0
    } else {
        rows_left(pend.drop_last()) + pend.last().len()
    }
}

pub proof fn lemma_least(pend: Seq<Seq<RowV>>, n: nat)
    requires
        n <= pend.len(),
    ensures
        match least(pend, n) {
            Some(i) => 0 <= i < n && pend[i].len() > 0,
            None => forall|i: int| 0 <= i < n ==> (#[trigger] pend[i]).len() == 0,
        },
    decreases n,
{
    if n > 0 {
        lemma_least(pend, (n - 1) as nat);
    }
}

pub proof fn lemma_pass_left(pend: Seq<Seq<RowV>>, key: Seq<u8>)
    ensures
        rows_left(pass_all(pend, key)) <= rows_left(pend),
        (exists|i: int| 0 <= i < pend.len() && (#[trigger] pend[i]).len() > 0 && pend[i][0].0 == key)
            ==> rows_left(pass_all(pend, key)) < rows_left(pend),
    decreases pend.len(),
{
    if pend.len() > 0 {
        let p = pend.drop_last();
        lemma_pass_left(p, key);
        assert(pass_all(pend, key).drop_last() =~= pass_all(p, key));
        if exists|i: int| 0 <= i < pend.len() && (#[trigger] pend[i]).len() > 0 && pend[i][0].0 == key {
            let i = choose|i: int|
                0 <= i < pend.len() && (#[trigger] pend[i]).len() > 0 && pend[i][0].0 == key;
            if i < p.len() {
                assert(p[i] == pend[i]);
            }
        }
    }
}

/// A live row: a key and its value.
pub type LiveV = (Seq<u8>, Seq<u8>);

/// The streams merged: of each key the newest row, unless it is a deletion.
pub open spec fn merge_rows(pend: Seq<Seq<RowV>>) -> Seq<LiveV>
    decreases rows_left(pend),
{
    match least(pend, pend.len()) {
        None => seq![],
        Some(i) => {
            let (key, value) = pend[i][0];
            let rest = pass_all(pend, key);
            proof {
                lemma_least(pend, pend.len());
                lemma_pass_left(pend, key);
            }
            if rows_left(rest) < rows_left(pend) {
                match value {
                    Some(v) => seq![(key, v)] + merge_rows(rest),
                    None => merge_rows(rest),
                }
            } else {
                seq![]
            }
        },
    }
}

/// What a prefix scan gives; where a stream fails, the failure that the merge
/// meets first.
pub open spec fn db_scan(s: DbV, prefix: Seq<u8>) -> Result<Seq<LiveV>, ErrV> {
    match streams(s, prefix) {
        Err(_) => Err(first_failure(given_rows(s, prefix), given_errs(s, prefix))->0),
        Ok(pend) => Ok(merge_rows(pend)),
    }
}

/// One row of a scan: a key and its current value.
pub type ScanRow = (Vec<u8>, Vec<u8>);

pub open spec fn scan_rows_view(s: Seq<ScanRow>) -> Seq<LiveV> {
    s.map_values(|r: ScanRow| (r.0@, r.1@))
}

pub open spec fn scan_rv(r: Result<Vec<ScanRow>, FormatError>) -> Result<Seq<LiveV>, ErrV> {
    match r {
        Ok(v) => Ok(scan_rows_view(v@)),
        Err(e) => Err(e@),
    }
}

/// The rows of streams.
pub open spec fn streams_view(s: Seq<Vec<Row>>) -> Seq<Seq<RowV>> {
    s.map_values(|v: Vec<Row>| rows_view(v@))
}

/// Runs a range cursor to its end.
fn drain(scan: &mut SegmentScan<'_>) -> (r: Result<Vec<Row>, FormatError>)
    requires
        old(scan).wf(),
    ensures
        match scan_run(old(scan).reader@, old(scan).start@, opt_slice(old(scan).end), old(scan)@) {
            Ok(es) => r is Ok && rows_view(r->Ok_0@) == entry_rows(es),
            Err(e) => r is Err && r->Err_0@ == e,
        },
{
    let ghost s = scan.reader@;
    let ghost start = scan.start@;
    let ghost end = opt_slice(scan.end);
    let ghost all = scan_run(s, start, end, scan@);
    let mut out: Vec<Row> = Vec::new();
    let ghost mut given: Seq<EntryV> = seq![];
    proof {
        assert(rows_view(out@) =~= entry_rows(given));
        if all is Ok {
            assert(given + all->Ok_0 =~= all->Ok_0);
        }
    }
    loop
        invariant
            scan.wf(),
            s == scan.reader@,
            start == scan.start@,
            end == opt_slice(scan.end),
            all == scan_run(
                old(scan).reader@,
                old(scan).start@,
                opt_slice(old(scan).end),
                old(scan)@,
            ),
            rows_view(out@) == entry_rows(given),
            match scan_run(s, start, end, scan@) {
                Ok(rest) => all == Ok::<Seq<EntryV>, ErrV>(given + rest),
                Err(e) => all == Err::<Seq<EntryV>, ErrV>(e),
            },
        decreases s.data.len() - scan@.block, scan_left(s, scan@),
    {
        let ghost c = scan@;
        proof {
            lemma_scan_step(s, start, end, c);
        }
        match scan.next() {
            None => {
                assert(given + Seq::<EntryV>::empty() =~= given);
                return Ok(out);
            },
            Some(Err(e)) => {
                return Err(e);
            },
            Some(Ok(e)) => {
                let ghost ev = e@;
                let ghost before = rows_view(out@);
                let ghost g0 = given;
                let value = entry_value(&e);
                let row: Row = (e.key, value);
                let ghost rv = row_view(row);
                out.push(row);
                proof {
                    given = given.push(ev);
                    assert(rows_view(out@) =~= before.push(rv));
                    assert(entry_rows(given) =~= entry_rows(g0).push(rv));
                    match scan_run(s, start, end, scan@) {
                        Ok(rest) => {
                            assert(g0 + (seq![ev] + rest) =~= given + rest);
                        },
                        Err(_) => {},
                    }
                }
            },
        }
    }
}

/// The stream whose head comes first.
pub(crate) fn pick_row(pend: &Vec<Vec<Row>>, pos: &Vec<usize>) -> (r: Option<usize>)
    requires
        pos@.len() == pend@.len(),
        forall|i: int| 0 <= i < pos@.len() ==> (#[trigger] pos@[i]) <= pend@[i]@.len(),
    ensures
        match r {
            Some(i) => least(rows_at(streams_view(pend@), pos@), pend@.len()) == Some(i as int),
            None => least(rows_at(streams_view(pend@), pos@), pend@.len()) is None,
        },
{
    let ghost p = rows_at(streams_view(pend@), pos@);
    let mut found: Option<usize> = None;
    let mut n: usize = 0;
    while n < pend.len()
        invariant
            n <= pend@.len(),
            pos@.len() == pend@.len(),
            p == rows_at(streams_view(pend@), pos@),
            forall|i: int| 0 <= i < pos@.len() ==> (#[trigger] pos@[i]) <= pend@[i]@.len(),
            match found {
                Some(i) => least(p, n as nat) == Some(i as int) && i < n && pos@[i as int]
                    < pend@[i as int]@.len(),
                None => least(p, n as nat) is None,
            },
        decreases pend@.len() - n,
    {
        assert(p[n as int] == streams_view(pend@)[n as int].skip(pos@[n as int] as int));
        if pos[n] < pend[n].len() {
            assert(p[n as int][0] == row_view(pend@[n as int]@[pos@[n as int] as int]));
            match found {
                None => {
                    found = Some(n);
                },
                Some(i) => {
                    assert(p[i as int] == streams_view(pend@)[i as int].skip(pos@[i as int] as int));
                    assert(p[i as int][0] == row_view(pend@[i as int]@[pos@[i as int] as int]));
                    let a = pend[n][pos[n]].0.as_slice();
                    let b = pend[i][pos[i]].0.as_slice();
                    proof {
                        lemma_lex_total(a@, b@);
                    }
                    match compare(a, b) {
                        Order::Greater => {},
                        _ => {
                            found = Some(n);
                        },
                    }
                },
            }
        }
        n += 1;
    }
    found
}

/// What is left of each stream behind its position.
pub open spec fn rows_at(pend: Seq<Seq<RowV>>, pos: Seq<usize>) -> Seq<Seq<RowV>> {
    Seq::new(pend.len(), |i: int| pend[i].skip(pos[i] as int))
}

/// Moves every stream past a head with the key.
pub(crate) fn pass_key(pend: &Vec<Vec<Row>>, pos: &mut Vec<usize>, key: &[u8])
    requires
        old(pos)@.len() == pend@.len(),
        forall|i: int| 0 <= i < old(pos)@.len() ==> (#[trigger] old(pos)@[i]) <= pend@[i]@.len(),
    ensures
        final(pos)@.len() == pend@.len(),
        forall|i: int| 0 <= i < final(pos)@.len() ==> (#[trigger] final(pos)@[i]) <= pend@[i]@.len(),
        rows_at(streams_view(pend@), final(pos)@) == pass_all(
            rows_at(streams_view(pend@), old(pos)@),
            key@,
        ),
{
    let ghost pos0 = pos@;
    let ghost all = streams_view(pend@);
    let mut i: usize = 0;
    while i < pend.len()
        invariant
            i <= pend@.len(),
            all == streams_view(pend@),
            pos0 == old(pos)@,
            pos0.len() == pend@.len(),
            pos@.len() == pend@.len(),
            forall|k: int| 0 <= k < pos@.len() ==> (#[trigger] pos@[k]) <= pend@[k]@.len(),
            forall|k: int| i <= k < pos@.len() ==> (#[trigger] pos@[k]) == pos0[k],
            forall|k: int|
                0 <= k < i ==> all[k].skip((#[trigger] pos@[k]) as int) == pass(
                    all[k].skip(pos0[k] as int),
                    key@,
                ),
        decreases pend@.len() - i,
    {
        let p = pos[i];
        let ghost before = pos@;
        let size = pend[i].len();
        if p < size {
            assert(all[i as int].skip(p as int)[0] == row_view(pend@[i as int]@[p as int]));
            if crate::codec::bytes_eq(pend[i][p].0.as_slice(), key) {
                pos.set(i, p + 1);
                assert(all[i as int].skip(p as int).skip(1) =~= all[i as int].skip(p + 1));
            }
        }
        proof {
            assert forall|k: int| 0 <= k < i + 1 implies all[k].skip((#[trigger] pos@[k]) as int)
                == pass(all[k].skip(pos0[k] as int), key@) by {
                if k < i {
                    assert(pos@[k] == before[k]);
                }
            }
        }
        i += 1;
    }
    proof {
        assert forall|k: int| 0 <= k < all.len() implies rows_at(all, pos@)[k] == pass_all(
            rows_at(all, pos0),
            key@,
        )[k] by {
            assert(pos@[k] <= pend@[k]@.len());
        }
        assert(rows_at(all, pos@) =~= pass_all(rows_at(all, pos0), key@));
    }
}

/// Merges the streams.
fn merge_streams(pend: &Vec<Vec<Row>>) -> (r: Vec<ScanRow>)
    ensures
        scan_rows_view(r@) == merge_rows(streams_view(pend@)),
{
    let mut pos: Vec<usize> = Vec::new();
    let mut k: usize = 0;
    while k < pend.len()
        invariant
            k <= pend@.len(),
            pos@.len() == k,
            forall|i: int| 0 <= i < pos@.len() ==> (#[trigger] pos@[i]) == 0,
        decreases pend@.len() - k,
    {
        pos.push(0);
        k += 1;
    }
    let ghost all = streams_view(pend@);
    let mut out: Vec<ScanRow> = Vec::new();
    proof {
        assert(rows_at(all, pos@) =~= all) by {
            assert forall|i: int| 0 <= i < all.len() implies rows_at(all, pos@)[i] =~= all[i] by {}
        }
        assert(scan_rows_view(out@) =~= Seq::<LiveV>::empty());
        assert(scan_rows_view(out@) + merge_rows(all) =~= merge_rows(all));
    }
    loop
        invariant
            all == streams_view(pend@),
            pos@.len() == pend@.len(),
            forall|i: int| 0 <= i < pos@.len() ==> (#[trigger] pos@[i]) <= pend@[i]@.len(),
            scan_rows_view(out@) + merge_rows(rows_at(all, pos@)) == merge_rows(all),
        decreases rows_left(rows_at(all, pos@)),
    {
        let ghost p = rows_at(all, pos@);
        proof {
            lemma_least(p, p.len());
        }
        match pick_row(pend, &pos) {
            None => {
                assert(scan_rows_view(out@) + Seq::<LiveV>::empty() =~= scan_rows_view(out@));
                return out;
            },
            Some(i) => {
                assert(p[i as int] == all[i as int].skip(pos@[i as int] as int));
                assert(p[i as int][0] == row_view(pend@[i as int]@[pos@[i as int] as int]));
                let key = to_vec(pend[i][pos[i]].0.as_slice());
                let value = copy_value(&pend[i][pos[i]].1);
                let ghost kv = key@;
                let ghost before = scan_rows_view(out@);
                proof {
                    lemma_pass_left(p, kv);
                    assert(p[i as int][0].0 == kv);
                }
                pass_key(pend, &mut pos, key.as_slice());
                match value {
                    Some(v) => {
                        let ghost vv = v@;
                        out.push((key, v));
                        proof {
                            assert(scan_rows_view(out@) =~= before.push((kv, vv)));
                            let rest = merge_rows(pass_all(p, kv));
                            assert(before.push((kv, vv)) + rest =~= before + (seq![(kv, vv)]
                                + rest));
                        }
                    },
                    None => {},
                }
            },
        }
    }
}

proof fn lemma_failing_stream(segs: Seq<SegV>, n: nat, prefix: Seq<u8>) -> (i: int)
    requires
        seg_streams(segs, n, prefix) is Err,
    ensures
        0 <= i < n,
        seg_rows(segs[i], prefix) is Err,
    decreases n,
{
    if seg_streams(segs, (n - 1) as nat, prefix) is Err {
        lemma_failing_stream(segs, (n - 1) as nat, prefix)
    } else {
        n - 1
    }
}

proof fn lemma_streams_err(segs: Seq<SegV>, i: nat, n: nat, prefix: Seq<u8>)
    requires
        i <= n,
        seg_streams(segs, i, prefix) is Err,
    ensures
        seg_streams(segs, n, prefix) == seg_streams(segs, i, prefix),
    decreases n - i,
{
    if i < n {
        lemma_streams_err(segs, i, (n - 1) as nat, prefix);
    }
}

/// The streams of the segments.
fn read_streams(segments: &Vec<SegmentReader>, prefix: &[u8]) -> (r: Result<
    Vec<Vec<Row>>,
    FormatError,
>)
    requires
        all_wf(segments@),
    ensures
        match seg_streams(segs_view(segments@), segments@.len(), prefix@) {
            Ok(v) => r is Ok && streams_view(r->Ok_0@) == v,
            Err(e) => r is Err && r->Err_0@ == e,
        },
{
    let ghost segs = segs_view(segments@);
    let end = prefix_end(prefix);
    let mut out: Vec<Vec<Row>> = Vec::new();
    let mut i: usize = 0;
    assert(streams_view(out@) =~= Seq::<Seq<RowV>>::empty());
    while i < segments.len()
        invariant
            i <= segments@.len(),
            all_wf(segments@),
            segs == segs_view(segments@),
            opt_seq(end) == prefix_end_of(prefix@),
            seg_streams(segs, i as nat, prefix@) == Ok::<Seq<Seq<RowV>>, ErrV>(streams_view(out@)),
        decreases segments@.len() - i,
    {
        let ghost before = streams_view(out@);
        assert(segs[i as int] == segments@[i as int]@);
        let stop: Option<&[u8]> = match &end {
            Some(e) => Some(e.as_slice()),
            None => None,
        };
        let mut scan = segments[i].scan_iter(prefix, stop);
        assert(scan@ == scan_start(segs[i as int], prefix@));
        match drain(&mut scan) {
            Err(e) => {
                proof {
                    lemma_streams_err(segs, (i + 1) as nat, segments@.len(), prefix@);
                }
                return Err(e);
            },
            Ok(rows) => {
                let ghost rv = rows_view(rows@);
                out.push(rows);
                assert(streams_view(out@) =~= before.push(rv));
            },
        }
        i += 1;
    }
    Ok(out)
}

impl Db {
    /// Every live key that begins with `prefix`, by ascending key, with its
    /// value.
    pub fn scan(&self, prefix: &[u8]) -> (r: Result<Vec<ScanRow>, FormatError>)
        requires
            self.wf(),
        ensures
            scan_rv(r) == db_scan(self@, prefix@),
    {
        match read_streams(&self.segments, prefix) {
            Err(e) => Err(self.tell_failure(e, prefix)),
            Ok(v) => Ok(self.merge_with_memory(v, prefix)),
        }
    }

    /// The failure of a scan of which one stream failed with `e`.
    pub(crate) fn tell_failure(&self, e: FormatError, prefix: &[u8]) -> (r: FormatError)
        requires
            self.wf(),
            seg_streams(self@.segments, self@.segments.len(), prefix@) is Err,
        ensures
            db_scan(self@, prefix@) == Err::<Seq<LiveV>, ErrV>(r@),
    {
        proof {
            let i = lemma_failing_stream(self@.segments, self@.segments.len(), prefix@);
            failing_scans_have_a_failure(self@, prefix@, i);
        }
        match self.scan_failure(prefix) {
            Some(first) => first,
            None => e,
        }
    }

    /// The rows of the segments' streams, merged with those in memory.
    pub(crate) fn merge_with_memory(&self, streams: Vec<Vec<Row>>, prefix: &[u8]) -> (r: Vec<ScanRow>)
        requires
            self.wf(),
            seg_streams(self@.segments, self@.segments.len(), prefix@) == Ok::<
                Seq<Seq<RowV>>,
                ErrV,
            >(streams_view(streams@)),
        ensures
            db_scan(self@, prefix@) == Ok::<Seq<LiveV>, ErrV>(scan_rows_view(r@)),
    {
        let ghost s = self@;
        let mut pend = streams;
        let ghost base = streams_view(pend@);
        let ghost imm = s.immutables.map_values(|m: MemV| mem_stream(m, prefix@));
        let mut i: usize = 0;
        assert(base + imm.take(0) =~= base);
        while i < self.immutables.len()
            invariant
                i <= self.immutables@.len(),
                s == self@,
                imm == s.immutables.map_values(|m: MemV| mem_stream(m, prefix@)),
                streams_view(pend@) == base + imm.take(i as int),
            decreases self.immutables@.len() - i,
        {
            let ghost before = streams_view(pend@);
            let rows = self.immutables[i].prefix_heads(prefix);
            let ghost rv = rows_view(rows@);
            pend.push(rows);
            assert(streams_view(pend@) =~= before.push(rv));
            assert(imm[i as int] == rv);
            assert(base + imm.take(i + 1) =~= before.push(rv));
            i += 1;
        }
        assert(imm.take(i as int) =~= imm);
        let ghost before = streams_view(pend@);
        let rows = self.active.prefix_heads(prefix);
        let ghost rv = rows_view(rows@);
        pend.push(rows);
        assert(streams_view(pend@) =~= before + seq![rv]);
        merge_streams(&pend)
    }
}

} // verus!
