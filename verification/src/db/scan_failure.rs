//! Which failure ends a scan. The streams are pulled in turn: each once at the
//! start, and then, key by key, those whose head was taken, newest first. The
//! first pull that fails ends the scan.

use crate::db::open::copy_error;
use crate::db::scan::{
    entry_rows, least, lemma_least, lemma_pass_left, mem_stream, pass_all, pass_key, pick_row,
    prefix_end, prefix_end_of, rows_at, rows_left, seg_rows, streams_view,
};
use crate::db::state::{Db, DbV};
use crate::compaction::run::segs_view;
use crate::format::{ErrV, FormatError};
use crate::memtable::{entry_value, row_view, rows_view, MemV, Row, RowV};
use crate::codec::to_vec;
use crate::segment::cursor::{
    further, lemma_scan_step, opt_seq, opt_slice, scan_left, scan_run, scan_start, scan_step, ScanV,
    SegmentScan,
};
use crate::segment::entry::EntryV;
use crate::segment::open::SegV;
use vstd::prelude::*;

verus! {

// ---------------------------------------------------------------------------
// What a stream gives before it fails
/// What a range cursor gives until it ends or fails, and the failure.
pub open spec fn scan_given(s: SegV, start: Seq<u8>, end: Option<Seq<u8>>, c: ScanV) -> (
    Seq<EntryV>,
    Option<ErrV>,
)
    decreases s.data.len() - c.block, scan_left(s, c),
{
    match scan_step(s, start, end, c) {
        (None, _) => (seq![], None),
        (Some(Err(e)), _) => (seq![], Some(e)),
        (Some(Ok(x)), c2) => {
            proof {
                lemma_scan_step(s, start, end, c);
            }
            if further(s, c, c2) {
                let (rest, e) = scan_given(s, start, end, c2);
                (seq![x] + rest, e)
            } else {
                (seq![], None)
            }
        },
    }
}

/// A run fails exactly where what it gives ends in a failure.
proof fn lemma_given(s: SegV, start: Seq<u8>, end: Option<Seq<u8>>, c: ScanV)
    ensures
        scan_run(s, start, end, c) is Err <==> scan_given(s, start, end, c).1 is Some,
    decreases s.data.len() - c.block, scan_left(s, c),
{
    if let (Some(Ok(x)), c2) = scan_step(s, start, end, c) {
        lemma_scan_step(s, start, end, c);
        if further(s, c, c2) {
            lemma_given(s, start, end, c2);
        }
    }
}

/// What a segment gives to a prefix scan, and its failure.
pub open spec fn seg_given(s: SegV, prefix: Seq<u8>) -> (Seq<EntryV>, Option<ErrV>) {
    scan_given(s, prefix, prefix_end_of(prefix), scan_start(s, prefix))
}

/// The rows that each stream gives until it ends or fails, oldest first.
pub open spec fn given_rows(s: DbV, prefix: Seq<u8>) -> Seq<Seq<RowV>> {
    s.segments.map_values(|g: SegV| entry_rows(seg_given(g, prefix).0)) + s.immutables.map_values(
        |m: MemV| mem_stream(m, prefix),
    ) + seq![mem_stream(s.active, prefix)]
}

/// The failure of each segment's stream.
pub open spec fn given_errs(s: DbV, prefix: Seq<u8>) -> Seq<Option<ErrV>> {
    s.segments.map_values(|g: SegV| seg_given(g, prefix).1)
}

// ---------------------------------------------------------------------------
// The first failure
/// Stream `k` fails when its rows are used up.
pub open spec fn fails_behind(errs: Seq<Option<ErrV>>, k: int) -> bool {
    k < errs.len() && errs[k] is Some
}

/// The first pulls: the oldest stream, from `k` on, that fails at once.
pub open spec fn stuck(pend: Seq<Seq<RowV>>, errs: Seq<Option<ErrV>>, k: int) -> Option<ErrV>
    decreases pend.len() - k,
{
    if k < 0 || k >= pend.len() {
        None
    } else if pend[k].len() == 0 && fails_behind(errs, k) {
        errs[k]
    } else {
        stuck(pend, errs, k + 1)
    }
}

/// The pulls of a round: the newest, of the first `n` streams, whose last row
/// was taken and that fails behind it.
pub open spec fn ended(
    pend: Seq<Seq<RowV>>,
    rest: Seq<Seq<RowV>>,
    errs: Seq<Option<ErrV>>,
    n: nat,
) -> Option<ErrV>
    decreases n,
{
    if n == 0 {
        None
    } else if pend[n - 1].len() > 0 && rest[n - 1].len() == 0 && fails_behind(errs, n - 1) {
        errs[n - 1]
    } else {
        ended(pend, rest, errs, (n - 1) as nat)
    }
}

/// The first failure of the rounds.
pub open spec fn rounds(pend: Seq<Seq<RowV>>, errs: Seq<Option<ErrV>>) -> Option<ErrV>
    decreases rows_left(pend),
{
    match least(pend, pend.len()) {
        None => None,
        Some(i) => {
            let rest = pass_all(pend, pend[i][0].0);
            proof {
                lemma_least(pend, pend.len());
                lemma_pass_left(pend, pend[i][0].0);
            }
            match ended(pend, rest, errs, pend.len()) {
                Some(e) => Some(e),
                None => if rows_left(rest) < rows_left(pend) {
                    rounds(rest, errs)
                } else {
                    None
                },
            }
        },
    }
}

/// The first failure of a scan.
pub open spec fn first_failure(pend: Seq<Seq<RowV>>, errs: Seq<Option<ErrV>>) -> Option<ErrV> {
    match stuck(pend, errs, 0) {
        Some(e) => Some(e),
        None => rounds(pend, errs),
    }
}

proof fn lemma_stuck(pend: Seq<Seq<RowV>>, errs: Seq<Option<ErrV>>, k: int, i: int)
    requires
        0 <= k <= i < pend.len(),
        stuck(pend, errs, k) is None,
    ensures
        fails_behind(errs, i) ==> pend[i].len() > 0,
    decreases pend.len() - k,
{
    if k < i {
        lemma_stuck(pend, errs, k + 1, i);
    }
}

proof fn lemma_ended(
    pend: Seq<Seq<RowV>>,
    rest: Seq<Seq<RowV>>,
    errs: Seq<Option<ErrV>>,
    n: nat,
    i: int,
)
    requires
        0 <= i < n <= pend.len(),
        ended(pend, rest, errs, n) is None,
    ensures
        pend[i].len() > 0 && fails_behind(errs, i) ==> rest[i].len() > 0,
    decreases n,
{
    if i < n - 1 {
        lemma_ended(pend, rest, errs, (n - 1) as nat, i);
    }
}

proof fn lemma_rounds(pend: Seq<Seq<RowV>>, errs: Seq<Option<ErrV>>, i: int)
    requires
        0 <= i < pend.len(),
        fails_behind(errs, i),
        pend[i].len() > 0,
    ensures
        rounds(pend, errs) is Some,
    decreases rows_left(pend),
{
    lemma_least(pend, pend.len());
    let j = least(pend, pend.len())->0;
    let key = pend[j][0].0;
    let rest = pass_all(pend, key);
    lemma_pass_left(pend, key);
    if ended(pend, rest, errs, pend.len()) is None {
        lemma_ended(pend, rest, errs, pend.len(), i);
        assert(pend[j].len() > 0 && pend[j][0].0 == key);
        lemma_rounds(rest, errs, i);
    }
}

/// Where a stream fails, the scan does.
proof fn lemma_failure(pend: Seq<Seq<RowV>>, errs: Seq<Option<ErrV>>, i: int)
    requires
        0 <= i < pend.len(),
        fails_behind(errs, i),
    ensures
        first_failure(pend, errs) is Some,
{
    if stuck(pend, errs, 0) is None {
        lemma_stuck(pend, errs, 0, i);
        lemma_rounds(pend, errs, i);
    }
}

// ---------------------------------------------------------------------------
// Finding it
/// Runs a range cursor until it ends or fails.
fn drain_given(scan: &mut SegmentScan<'_>) -> (r: (Vec<Row>, Option<FormatError>))
    requires
        old(scan).wf(),
    ensures
        ({
            let (es, e) = scan_given(
                old(scan).reader@,
                old(scan).start@,
                opt_slice(old(scan).end),
                old(scan)@,
            );
            rows_view(r.0@) == entry_rows(es) && err_view(r.1) == e
        }),
{
    let ghost s = scan.reader@;
    let ghost start = scan.start@;
    let ghost end = opt_slice(scan.end);
    let ghost all = scan_given(s, start, end, scan@);
    let mut out: Vec<Row> = Vec::new();
    let ghost mut given: Seq<EntryV> = seq![];
    proof {
        assert(rows_view(out@) =~= entry_rows(given));
        assert(given + all.0 =~= all.0);
    }
    loop
        invariant
            scan.wf(),
            s == scan.reader@,
            start == scan.start@,
            end == opt_slice(scan.end),
            all == scan_given(
                old(scan).reader@,
                old(scan).start@,
                opt_slice(old(scan).end),
                old(scan)@,
            ),
            rows_view(out@) == entry_rows(given),
            all.0 == given + scan_given(s, start, end, scan@).0,
            all.1 == scan_given(s, start, end, scan@).1,
        decreases s.data.len() - scan@.block, scan_left(s, scan@),
    {
        let ghost c = scan@;
        proof {
            lemma_scan_step(s, start, end, c);
        }
        match scan.next() {
            None => {
                assert(given + Seq::<EntryV>::empty() =~= given);
                return (out, None);
            },
            Some(Err(e)) => {
                assert(given + Seq::<EntryV>::empty() =~= given);
                return (out, Some(e));
            },
            Some(Ok(e)) => {
                let ghost ev = e@;
                let ghost before = rows_view(out@);
                let ghost g0 = given;
                let value = entry_value(&e);
                let row: Row = (e.key, value);
                let ghost rv = row_view(row);
                out.push(row);
                proof {
                    given = given.push(ev);
                    assert(rows_view(out@) =~= before.push(rv));
                    assert(entry_rows(given) =~= entry_rows(g0).push(rv));
                    let rest = scan_given(s, start, end, scan@).0;
                    assert(g0 + (seq![ev] + rest) =~= given + rest);
                }
            },
        }
    }
}

pub open spec fn err_view(e: Option<FormatError>) -> Option<ErrV> {
    match e {
        Some(e) => Some(e@),
        None => None,
    }
}

pub open spec fn errs_view(s: Seq<Option<FormatError>>) -> Seq<Option<ErrV>> {
    s.map_values(|e: Option<FormatError>| err_view(e))
}

/// The oldest stream that fails at once.
fn find_stuck(pend: &Vec<Vec<Row>>, errs: &Vec<Option<FormatError>>) -> (r: Option<FormatError>)
    requires
        errs@.len() <= pend@.len(),
    ensures
        err_view(r) == stuck(streams_view(pend@), errs_view(errs@), 0),
{
    let ghost all = streams_view(pend@);
    let ghost ev = errs_view(errs@);
    let mut k: usize = 0;
    while k < errs.len()
        invariant
            k <= errs@.len() <= pend@.len(),
            all == streams_view(pend@),
            ev == errs_view(errs@),
            stuck(all, ev, 0) == stuck(all, ev, k as int),
        decreases errs@.len() - k,
    {
        assert(all[k as int].len() == pend@[k as int]@.len());
        assert(ev[k as int] == err_view(errs@[k as int]));
        if pend[k].len() == 0 {
            match &errs[k] {
                Some(e) => {
                    return Some(copy_error(e));
                },
                None => {},
            }
        }
        k += 1;
    }
    proof {
        lemma_none_stuck(all, ev, k as int);
    }
    None
}

proof fn lemma_none_stuck(pend: Seq<Seq<RowV>>, errs: Seq<Option<ErrV>>, k: int)
    requires
        errs.len() <= k,
    ensures
        stuck(pend, errs, k) is None,
    decreases pend.len() - k,
{
    if 0 <= k < pend.len() {
        lemma_none_stuck(pend, errs, k + 1);
    }
}

proof fn lemma_none_ended(
    pend: Seq<Seq<RowV>>,
    rest: Seq<Seq<RowV>>,
    errs: Seq<Option<ErrV>>,
    n: nat,
)
    requires
        errs.len() <= n <= pend.len(),
    ensures
        ended(pend, rest, errs, n) == ended(pend, rest, errs, errs.len()),
    decreases n,
{
    if errs.len() < n {
        lemma_none_ended(pend, rest, errs, (n - 1) as nat);
    }
}

/// The newest stream that ended in a round and fails.
fn find_ended(
    pend: &Vec<Vec<Row>>,
    before: &Vec<usize>,
    after: &Vec<usize>,
    errs: &Vec<Option<FormatError>>,
) -> (r: Option<FormatError>)
    requires
        errs@.len() <= pend@.len(),
        before@.len() == pend@.len(),
        after@.len() == pend@.len(),
        forall|i: int| 0 <= i < pend@.len() ==> (#[trigger] before@[i]) <= pend@[i]@.len(),
        forall|i: int| 0 <= i < pend@.len() ==> (#[trigger] after@[i]) <= pend@[i]@.len(),
    ensures
        err_view(r) == ended(
            rows_at(streams_view(pend@), before@),
            rows_at(streams_view(pend@), after@),
            errs_view(errs@),
            pend@.len(),
        ),
{
    let ghost all = streams_view(pend@);
    let ghost p = rows_at(all, before@);
    let ghost q = rows_at(all, after@);
    let ghost ev = errs_view(errs@);
    proof {
        lemma_none_ended(p, q, ev, p.len());
    }
    let mut n: usize = errs.len();
    while n > 0
        invariant
            n <= errs@.len() <= pend@.len(),
            before@.len() == pend@.len(),
            after@.len() == pend@.len(),
            all == streams_view(pend@),
            p == rows_at(all, before@),
            q == rows_at(all, after@),
            ev == errs_view(errs@),
            forall|i: int| 0 <= i < pend@.len() ==> (#[trigger] before@[i]) <= pend@[i]@.len(),
            forall|i: int| 0 <= i < pend@.len() ==> (#[trigger] after@[i]) <= pend@[i]@.len(),
            ended(p, q, ev, pend@.len()) == ended(p, q, ev, n as nat),
        decreases n,
    {
        n -= 1;
        assert(before@[n as int] <= pend@[n as int]@.len());
        assert(after@[n as int] <= pend@[n as int]@.len());
        assert(p[n as int].len() == pend@[n as int]@.len() - before@[n as int]);
        assert(q[n as int].len() == pend@[n as int]@.len() - after@[n as int]);
        assert(ev[n as int] == err_view(errs@[n as int]));
        if before[n] < pend[n].len() && after[n] == pend[n].len() {
            match &errs[n] {
                Some(e) => {
                    return Some(copy_error(e));
                },
                None => {},
            }
        }
    }
    None
}

/// Copies positions.
fn copy_positions(pos: &Vec<usize>) -> (r: Vec<usize>)
    ensures
        r@ == pos@,
{
    let mut out: Vec<usize> = Vec::new();
    let mut i: usize = 0;
    while i < pos.len()
        invariant
            i <= pos@.len(),
            out@ == pos@.take(i as int),
        decreases pos@.len() - i,
    {
        let p = pos[i];
        out.push(p);
        assert(out@ =~= pos@.take(i + 1));
        i += 1;
    }
    assert(pos@.take(i as int) =~= pos@);
    out
}

/// Finds the first failure of a scan.
fn find_failure(pend: &Vec<Vec<Row>>, errs: &Vec<Option<FormatError>>) -> (r: Option<FormatError>)
    requires
        errs@.len() <= pend@.len(),
    ensures
        err_view(r) == first_failure(streams_view(pend@), errs_view(errs@)),
{
    match find_stuck(pend, errs) {
        Some(e) => {
            return Some(e);
        },
        None => {},
    }
    let ghost all = streams_view(pend@);
    let ghost ev = errs_view(errs@);
    let mut pos: Vec<usize> = Vec::new();
    let mut k: usize = 0;
    while k < pend.len()
        invariant
            k <= pend@.len(),
            pos@.len() == k,
            forall|i: int| 0 <= i < pos@.len() ==> (#[trigger] pos@[i]) == 0,
        decreases pend@.len() - k,
    {
        pos.push(0);
        k += 1;
    }
    proof {
        assert(rows_at(all, pos@) =~= all) by {
            assert forall|i: int| 0 <= i < all.len() implies rows_at(all, pos@)[i] =~= all[i] by {}
        }
    }
    loop
        invariant
            errs@.len() <= pend@.len(),
            all == streams_view(pend@),
            ev == errs_view(errs@),
            pos@.len() == pend@.len(),
            forall|i: int| 0 <= i < pos@.len() ==> (#[trigger] pos@[i]) <= pend@[i]@.len(),
            stuck(all, ev, 0) is None,
            rounds(all, ev) == rounds(rows_at(all, pos@), ev),
        decreases rows_left(rows_at(all, pos@)),
    {
        let ghost p = rows_at(all, pos@);
        proof {
            lemma_least(p, p.len());
        }
        match pick_row(pend, &pos) {
            None => {
                return None;
            },
            Some(i) => {
                assert(p[i as int] == all[i as int].skip(pos@[i as int] as int));
                assert(p[i as int][0] == row_view(pend@[i as int]@[pos@[i as int] as int]));
                let key = to_vec(pend[i][pos[i]].0.as_slice());
                let before = copy_positions(&pos);
                proof {
                    lemma_pass_left(p, key@);
                    assert(p[i as int][0].0 == key@);
                }
                pass_key(pend, &mut pos, key.as_slice());
                match find_ended(pend, &before, &pos, errs) {
                    Some(e) => {
                        return Some(e);
                    },
                    None => {},
                }
            },
        }
    }
}

impl Db {
    /// The failure that ends a scan: the streams are read once more, each until
    /// it ends or fails.
    pub(crate) fn scan_failure(&self, prefix: &[u8]) -> (r: Option<FormatError>)
        requires
            self.wf(),
        ensures
            err_view(r) == first_failure(given_rows(self@, prefix@), given_errs(self@, prefix@)),
    {
        let ghost s = self@;
        let ghost segs = segs_view(self.segments@);
        let ghost rows = segs.map_values(|g: SegV| entry_rows(seg_given(g, prefix@).0));
        let ghost fails = given_errs(s, prefix@);
        let end = prefix_end(prefix);
        let mut pend: Vec<Vec<Row>> = Vec::new();
        let mut errs: Vec<Option<FormatError>> = Vec::new();
        let mut i: usize = 0;
        while i < self.segments.len()
            invariant
                i <= self.segments@.len(),
                self.wf(),
                s == self@,
                segs == segs_view(self.segments@),
                segs == s.segments,
                rows == segs.map_values(|g: SegV| entry_rows(seg_given(g, prefix@).0)),
                fails == given_errs(s, prefix@),
                opt_seq(end) == prefix_end_of(prefix@),
                streams_view(pend@) =~= rows.take(i as int),
                errs_view(errs@) =~= fails.take(i as int),
            decreases self.segments@.len() - i,
        {
            let ghost before = streams_view(pend@);
            let ghost e0 = errs_view(errs@);
            assert(segs[i as int] == self.segments@[i as int]@);
            let stop: Option<&[u8]> = match &end {
                Some(e) => Some(e.as_slice()),
                None => None,
            };
            let mut scan = self.segments[i].scan_iter(prefix, stop);
            assert(scan@ == scan_start(segs[i as int], prefix@));
            let (given, err) = drain_given(&mut scan);
            let ghost rv = rows_view(given@);
            let ghost ev = err_view(err);
            pend.push(given);
            errs.push(err);
            proof {
                assert(streams_view(pend@) =~= before.push(rv));
                assert(errs_view(errs@) =~= e0.push(ev));
                assert(rows[i as int] == rv);
                assert(fails[i as int] == ev);
            }
            i += 1;
        }
        assert(rows.take(i as int) =~= rows);
        assert(fails.take(i as int) =~= fails);
        let ghost imm = s.immutables.map_values(|m: MemV| mem_stream(m, prefix@));
        let mut k: usize = 0;
        assert(rows + imm.take(0) =~= rows);
        while k < self.immutables.len()
            invariant
                k <= self.immutables@.len(),
                s == self@,
                imm == s.immutables.map_values(|m: MemV| mem_stream(m, prefix@)),
                streams_view(pend@) == rows + imm.take(k as int),
            decreases self.immutables@.len() - k,
        {
            let ghost before = streams_view(pend@);
            let run = self.immutables[k].prefix_heads(prefix);
            let ghost rv = rows_view(run@);
            pend.push(run);
            assert(streams_view(pend@) =~= before.push(rv));
            assert(imm[k as int] == rv);
            assert(rows + imm.take(k + 1) =~= before.push(rv));
            k += 1;
        }
        assert(imm.take(k as int) =~= imm);
        let ghost before = streams_view(pend@);
        let run = self.active.prefix_heads(prefix);
        let ghost rv = rows_view(run@);
        pend.push(run);
        proof {
            assert(streams_view(pend@) =~= before + seq![rv]);
            assert(streams_view(pend@) =~= given_rows(s, prefix@));
            assert(errs@.len() == errs_view(errs@).len());
            assert(pend@.len() == streams_view(pend@).len());
        }
        find_failure(&pend, &errs)
    }
}

/// A scan that a segment fails has a first failure.
pub proof fn failing_scans_have_a_failure(s: DbV, prefix: Seq<u8>, i: int)
    requires
        0 <= i < s.segments.len(),
        seg_rows(s.segments[i], prefix) is Err,
    ensures
        first_failure(given_rows(s, prefix), given_errs(s, prefix)) is Some,
{
    let g = s.segments[i];
    lemma_given(g, prefix, prefix_end_of(prefix), scan_start(g, prefix));
    assert(given_errs(s, prefix)[i] == seg_given(g, prefix).1);
    lemma_failure(given_rows(s, prefix), given_errs(s, prefix), i);
}

/// A scan that fails on its first pulls fails with the oldest stream that gives
/// nothing and fails.
pub proof fn first_pulls_fail_oldest_first(
    pend: Seq<Seq<RowV>>,
    errs: Seq<Option<ErrV>>,
    k: int,
    i: int,
)
    requires
        0 <= k <= i < pend.len(),
        i < errs.len(),
        pend[i].len() == 0,
        errs[i] is Some,
        forall|j: int|
            k <= j < i ==> (#[trigger] pend[j]).len() > 0 || errs[j] is None,
    ensures
        stuck(pend, errs, k) == errs[i],
        k == 0 ==> first_failure(pend, errs) == errs[i],
    decreases i - k,
{
    if k < i {
        assert(pend[k].len() > 0 || errs[k] is None);
        first_pulls_fail_oldest_first(pend, errs, k + 1, i);
    }
}

/// A round that fails fails with the newest stream whose last row was taken in
/// it and that fails behind that row.
pub proof fn rounds_fail_newest_first(
    pend: Seq<Seq<RowV>>,
    rest: Seq<Seq<RowV>>,
    errs: Seq<Option<ErrV>>,
    n: nat,
    i: int,
)
    requires
        0 <= i < n <= pend.len(),
        rest.len() == pend.len(),
        i < errs.len(),
        pend[i].len() > 0,
        rest[i].len() == 0,
        errs[i] is Some,
        forall|j: int|
            i < j < n && j < errs.len() ==> (#[trigger] pend[j]).len() == 0 || rest[j].len() > 0
                || errs[j] is None,
    ensures
        ended(pend, rest, errs, n) == errs[i],
    decreases n,
{
    if i < n - 1 {
        if n - 1 < errs.len() {
            assert(pend[n - 1].len() == 0 || rest[n - 1].len() > 0 || errs[n - 1] is None);
        }
        rounds_fail_newest_first(pend, rest, errs, (n - 1) as nat, i);
    }
}

/// A scan of streams that do not fail does not fail.
pub proof fn sound_scans_have_no_failure(pend: Seq<Seq<RowV>>, errs: Seq<Option<ErrV>>, k: int)
    requires
        forall|j: int| 0 <= j < errs.len() ==> (#[trigger] errs[j]) is None,
    ensures
        stuck(pend, errs, k) is None,
        rounds(pend, errs) is None,
        first_failure(pend, errs) is None,
{
    lemma_never_stuck(pend, errs, k);
    lemma_never_stuck(pend, errs, 0);
    lemma_never_ended(pend, errs);
}

proof fn lemma_never_stuck(pend: Seq<Seq<RowV>>, errs: Seq<Option<ErrV>>, k: int)
    requires
        forall|j: int| 0 <= j < errs.len() ==> (#[trigger] errs[j]) is None,
    ensures
        stuck(pend, errs, k) is None,
    decreases pend.len() - k,
{
    if 0 <= k < pend.len() {
        if k < errs.len() {
            assert(errs[k] is None);
        }
        lemma_never_stuck(pend, errs, k + 1);
    }
}

proof fn lemma_no_end(
    pend: Seq<Seq<RowV>>,
    rest: Seq<Seq<RowV>>,
    errs: Seq<Option<ErrV>>,
    n: nat,
)
    requires
        forall|j: int| 0 <= j < errs.len() ==> (#[trigger] errs[j]) is None,
    ensures
        ended(pend, rest, errs, n) is None,
    decreases n,
{
    if n > 0 {
        if n - 1 < errs.len() {
            assert(errs[n - 1] is None);
        }
        lemma_no_end(pend, rest, errs, (n - 1) as nat);
    }
}

proof fn lemma_never_ended(pend: Seq<Seq<RowV>>, errs: Seq<Option<ErrV>>)
    requires
        forall|j: int| 0 <= j < errs.len() ==> (#[trigger] errs[j]) is None,
    ensures
        rounds(pend, errs) is None,
    decreases rows_left(pend),
{
    lemma_least(pend, pend.len());
    if let Some(i) = least(pend, pend.len()) {
        let rest = pass_all(pend, pend[i][0].0);
        lemma_pass_left(pend, pend[i][0].0);
        lemma_no_end(pend, rest, errs, pend.len());
        if rows_left(rest) < rows_left(pend) {
            lemma_never_ended(rest, errs);
        }
    }
}

} // verus!
