//! In which order a scan reads its segments. Each stream is pulled once at the
//! start, oldest first; then, key by key, those whose head was taken, newest
//! first. A pull that fails ends the scan.

use crate::cache::CacheV;
use crate::codec::{bytes_eq, compare, lex_lt, to_vec, Order};
use crate::compaction::merge::path_fits;
use crate::compaction::run::{all_wf, segs_view};
use crate::db::cached::{lemma_step_coherent, ReadPath};
use crate::db::scan::{
    entry_rows, prefix_end, prefix_end_of, seg_rows, seg_streams, streams_view,
};
use crate::db::scan_failure::scan_given;
use crate::format::{ErrV, FormatError};
use crate::memtable::{entry_value, row_view, rows_view, Row, RowV};
use crate::segment::cached::coherent;
use crate::segment::cached_scan::step_after;
use crate::segment::cursor::{
    lemma_scan_step, opt_seq, opt_slice, scan_run, scan_start, scan_step, ScanV, SegmentScan,
};
use crate::segment::entry::EntryV;
use crate::segment::open::{SegV, SegmentReader};
use crate::stats::ReadPathStats;
use vstd::prelude::*;

verus! {

// ---------------------------------------------------------------------------
// The order
/// A scan at some point: where each cursor stands, the key that each stream
/// has at hand, whether a pull failed, and the cache and the counters.
#[verifier::ext_equal]
pub struct PullsV {
    pub at: Seq<ScanV>,
    pub heads: Seq<Option<Seq<u8>>>,
    pub failed: bool,
    pub cache: CacheV,
    pub stats: ReadPathStats,
}

/// A scan after stream `i` was pulled.
pub open spec fn pulled(p: PullsV, segs: Seq<SegV>, ids: Seq<u64>, prefix: Seq<u8>, i: int) -> PullsV {
    let end = prefix_end_of(prefix);
    let (item, c2) = scan_step(segs[i], prefix, end, p.at[i]);
    let (cache, stats) = step_after(segs[i], prefix, end, p.at[i], ids[i], p.cache, p.stats);
    PullsV {
        at: p.at.update(i, c2),
        heads: p.heads.update(
            i,
            match item {
                Some(Ok(x)) => Some(x.key),
                _ => None,
            },
        ),
        failed: item matches Some(Err(_)),
        cache,
        stats,
    }
}

/// A scan after the first `n` streams were pulled once, up to the first that
/// fails.
pub open spec fn first_pulls(p: PullsV, segs: Seq<SegV>, ids: Seq<u64>, prefix: Seq<u8>, n: nat) -> PullsV
    decreases n,
{
    if n == 0 {
        p
    } else {
        let q = first_pulls(p, segs, ids, prefix, (n - 1) as nat);
        if q.failed {
            q
        } else {
            pulled(q, segs, ids, prefix, n - 1)
        }
    }
}

/// A scan after stream `i` was pulled if it has `key` at hand.
pub open spec fn visited(
    p: PullsV,
    segs: Seq<SegV>,
    ids: Seq<u64>,
    prefix: Seq<u8>,
    key: Seq<u8>,
    i: int,
) -> PullsV {
    if p.heads[i] == Some(key) {
        pulled(p, segs, ids, prefix, i)
    } else {
        p
    }
}

/// A scan after those of the first `n` streams that have `key` at hand were
/// pulled, the newest first.
pub open spec fn round(
    p: PullsV,
    segs: Seq<SegV>,
    ids: Seq<u64>,
    prefix: Seq<u8>,
    key: Seq<u8>,
    n: nat,
) -> PullsV
    decreases n,
{
    if n == 0 || p.failed {
        p
    } else {
        round(visited(p, segs, ids, prefix, key, n - 1), segs, ids, prefix, key, (n - 1) as nat)
    }
}

/// The least key at hand in the first `n` streams.
pub open spec fn least_head(heads: Seq<Option<Seq<u8>>>, n: nat) -> Option<Seq<u8>>
    decreases n,
{
    if n == 0 {
        None
    } else {
        match (least_head(heads, (n - 1) as nat), heads[n - 1]) {
            (None, x) => x,
            (x, None) => x,
            (Some(a), Some(b)) => if lex_lt(b, a) {
                Some(b)
            } else {
                Some(a)
            },
        }
    }
}

/// How many rows the first `n` streams have at hand or ahead.
pub open spec fn rows_ahead(p: PullsV, segs: Seq<SegV>, prefix: Seq<u8>, n: nat) -> nat
    decreases n,
{
    if n == 0 {
        0
    } else {
        rows_ahead(p, segs, prefix, (n - 1) as nat) + (match p.heads[n - 1] {
            None => 0,
            Some(_) => 1 + scan_given(
                segs[n - 1],
                prefix,
                prefix_end_of(prefix),
                p.at[n - 1],
            ).0.len(),
        })
    }
}

/// A scan after all keys were taken, up to the first pull that fails.
pub open spec fn all_rounds(p: PullsV, segs: Seq<SegV>, ids: Seq<u64>, prefix: Seq<u8>) -> PullsV
    decreases rows_ahead(p, segs, prefix, segs.len()),
{
    match least_head(p.heads, segs.len()) {
        None => p,
        Some(key) => {
            let q = round(p, segs, ids, prefix, key, segs.len());
            if !q.failed && rows_ahead(q, segs, prefix, segs.len()) < rows_ahead(
                p,
                segs,
                prefix,
                segs.len(),
            ) {
                all_rounds(q, segs, ids, prefix)
            } else {
                q
            }
        },
    }
}

/// A scan before its first pull.
pub open spec fn pulls_start(segs: Seq<SegV>, prefix: Seq<u8>, c: CacheV, st: ReadPathStats) -> PullsV {
    PullsV {
        at: segs.map_values(|s: SegV| scan_start(s, prefix)),
        heads: segs.map_values(|s: SegV| None),
        failed: false,
        cache: c,
        stats: st,
    }
}

/// The cache and the counters after a scan.
pub open spec fn after_scan(
    c: CacheV,
    st: ReadPathStats,
    ids: Seq<u64>,
    segs: Seq<SegV>,
    prefix: Seq<u8>,
) -> (CacheV, ReadPathStats) {
    let p = first_pulls(pulls_start(segs, prefix, c, st), segs, ids, prefix, segs.len());
    let q = if p.failed {
        p
    } else {
        all_rounds(p, segs, ids, prefix)
    };
    (q.cache, q.stats)
}

proof fn lemma_first_stop(
    p: PullsV,
    segs: Seq<SegV>,
    ids: Seq<u64>,
    prefix: Seq<u8>,
    k: nat,
    n: nat,
)
    requires
        k <= n,
        first_pulls(p, segs, ids, prefix, k).failed,
    ensures
        first_pulls(p, segs, ids, prefix, n) == first_pulls(p, segs, ids, prefix, k),
    decreases n,
{
    if k < n {
        lemma_first_stop(p, segs, ids, prefix, k, (n - 1) as nat);
    }
}

/// A pull of a stream with a key at hand takes one row off.
proof fn lemma_pull_ahead(
    p: PullsV,
    segs: Seq<SegV>,
    ids: Seq<u64>,
    prefix: Seq<u8>,
    i: int,
    n: nat,
)
    requires
        0 <= i < segs.len(),
        n <= segs.len(),
        p.at.len() == segs.len(),
        p.heads.len() == segs.len(),
        p.heads[i] is Some,
    ensures
        ({
            let q = pulled(p, segs, ids, prefix, i);
            let a = rows_ahead(p, segs, prefix, n);
            let b = rows_ahead(q, segs, prefix, n);
            b <= a && (i < n ==> b < a)
        }),
    decreases n,
{
    if n > 0 {
        lemma_pull_ahead(p, segs, ids, prefix, i, (n - 1) as nat);
        lemma_scan_step(segs[i], prefix, prefix_end_of(prefix), p.at[i]);
    }
}

/// A round takes rows off.
proof fn lemma_round_ahead(
    p: PullsV,
    segs: Seq<SegV>,
    ids: Seq<u64>,
    prefix: Seq<u8>,
    key: Seq<u8>,
    n: nat,
)
    requires
        n <= segs.len(),
        p.at.len() == segs.len(),
        p.heads.len() == segs.len(),
        !p.failed,
    ensures
        ({
            let q = round(p, segs, ids, prefix, key, n);
            let a = rows_ahead(p, segs, prefix, segs.len());
            let b = rows_ahead(q, segs, prefix, segs.len());
            &&& b <= a
            &&& (exists|i: int| 0 <= i < n && #[trigger] p.heads[i] == Some(key)) ==> b < a
        }),
    decreases n,
{
    if n > 0 {
        if p.heads[n - 1] == Some(key) {
            let p1 = pulled(p, segs, ids, prefix, n - 1);
            lemma_pull_ahead(p, segs, ids, prefix, n - 1, segs.len());
            if !p1.failed {
                lemma_round_ahead(p1, segs, ids, prefix, key, (n - 1) as nat);
            }
        } else {
            lemma_round_ahead(p, segs, ids, prefix, key, (n - 1) as nat);
            if exists|i: int| 0 <= i < n && #[trigger] p.heads[i] == Some(key) {
                let i = choose|i: int| 0 <= i < n && #[trigger] p.heads[i] == Some(key);
                assert(0 <= i < n - 1 && p.heads[i] == Some(key));
            }
        }
    }
}

proof fn lemma_least_head(heads: Seq<Option<Seq<u8>>>, n: nat)
    requires
        n <= heads.len(),
    ensures
        match least_head(heads, n) {
            Some(k) => exists|i: int| 0 <= i < n && #[trigger] heads[i] == Some(k),
            None => forall|i: int| 0 <= i < n ==> #[trigger] heads[i] is None,
        },
    decreases n,
{
    if n > 0 {
        lemma_least_head(heads, (n - 1) as nat);
        match least_head(heads, (n - 1) as nat) {
            Some(k) => {
                let i = choose|i: int| 0 <= i < n - 1 && #[trigger] heads[i] == Some(k);
                assert(0 <= i < n && heads[i] == Some(k));
            },
            None => {},
        }
        assert(heads[n - 1] == heads[n - 1]);
    }
}

// ---------------------------------------------------------------------------
// Pulling
/// The cursors of a scan, the rows that came out of each, and whether the last
/// of them is at hand.
struct Pulls<'a> {
    scans: Vec<SegmentScan<'a>>,
    rows: Vec<Vec<Row>>,
    more: Vec<bool>,
}

spec fn head_of(p: Pulls<'_>, i: int) -> Option<Seq<u8>> {
    if p.more@[i] {
        Some(p.rows@[i]@.last().0@)
    } else {
        None
    }
}

spec fn pulls_view(p: Pulls<'_>, path: ReadPath) -> PullsV {
    PullsV {
        at: Seq::new(p.scans@.len(), |i: int| p.scans@[i]@),
        heads: Seq::new(p.scans@.len(), |i: int| head_of(p, i)),
        failed: false,
        cache: path.cache@,
        stats: path.stats@,
    }
}

/// The rows of a stream so far, and what its cursor has left, are all its
/// rows.
spec fn so_far(s: SegV, prefix: Seq<u8>, at: ScanV, rows: Seq<RowV>) -> bool {
    match scan_run(s, prefix, prefix_end_of(prefix), at) {
        Err(_) => seg_rows(s, prefix) is Err,
        Ok(rest) => seg_rows(s, prefix) == Ok::<Seq<RowV>, ErrV>(rows + entry_rows(rest)),
    }
}

spec fn stream_wf(p: Pulls<'_>, segs: Seq<SegV>, prefix: Seq<u8>, i: int) -> bool {
    &&& p.scans@[i].wf()
    &&& p.scans@[i].reader@ == segs[i]
    &&& p.scans@[i].start@ == prefix
    &&& opt_slice(p.scans@[i].end) == prefix_end_of(prefix)
    &&& segs[i].data.len() <= u32::MAX
    &&& p.more@[i] ==> p.rows@[i]@.len() > 0 && stream_open(p, segs, prefix, i)
}

/// The cursor of a stream stands behind the rows that it gave.
spec fn stream_open(p: Pulls<'_>, segs: Seq<SegV>, prefix: Seq<u8>, i: int) -> bool {
    so_far(segs[i], prefix, p.scans@[i]@, rows_view(p.rows@[i]@))
}

/// A stream that is at its end gave all its rows.
spec fn stream_told(p: Pulls<'_>, segs: Seq<SegV>, prefix: Seq<u8>, i: int) -> bool {
    !p.more@[i] ==> seg_rows(segs[i], prefix) == Ok::<Seq<RowV>, ErrV>(rows_view(p.rows@[i]@))
}

spec fn pulls_wf(p: Pulls<'_>, segs: Seq<SegV>, prefix: Seq<u8>) -> bool {
    &&& p.scans@.len() == segs.len()
    &&& p.rows@.len() == segs.len()
    &&& p.more@.len() == segs.len()
    &&& forall|i: int| 0 <= i < segs.len() ==> #[trigger] stream_wf(p, segs, prefix, i)
}

/// Pulls stream `i`.
#[verifier::spinoff_prover]
#[verifier::rlimit(40)]
fn pull(
    p: &mut Pulls<'_>,
    i: usize,
    path: &mut ReadPath,
    Ghost(segs): Ghost<Seq<SegV>>,
    Ghost(prefix): Ghost<Seq<u8>>,
) -> (r: Result<(), FormatError>)
    requires
        pulls_wf(*old(p), segs, prefix),
        i < segs.len(),
        stream_open(*old(p), segs, prefix, i as int),
        path_fits(*old(path), segs),
    ensures
        path_fits(*final(path), segs),
        final(path).ids == old(path).ids,
        ({
            let q = pulled(
                pulls_view(*old(p), *old(path)),
                segs,
                old(path).ids@,
                prefix,
                i as int,
            );
            match r {
                Ok(_) => {
                    &&& q == pulls_view(*final(p), *final(path))
                    &&& pulls_wf(*final(p), segs, prefix)
                    &&& stream_told(*final(p), segs, prefix, i as int)
                    &&& forall|k: int|
                        0 <= k < segs.len() && k != i && #[trigger] stream_told(
                            *old(p),
                            segs,
                            prefix,
                            k,
                        ) ==> stream_told(*final(p), segs, prefix, k)
                    &&& forall|k: int|
                        0 <= k < segs.len() && k != i && #[trigger] stream_open(
                            *old(p),
                            segs,
                            prefix,
                            k,
                        ) ==> stream_open(*final(p), segs, prefix, k)
                },
                Err(_) => {
                    &&& q.failed
                    &&& (q.cache, q.stats) == (final(path).cache@, final(path).stats@)
                    &&& seg_rows(segs[i as int], prefix) is Err
                },
            }
        }),
{
    let ghost p0 = *p;
    let ghost path0 = *path;
    let ghost end = prefix_end_of(prefix);
    let ghost s = segs[i as int];
    let ghost at = p.scans@[i as int]@;
    let ghost rows0 = rows_view(p.rows@[i as int]@);
    proof {
        assert(stream_wf(p0, segs, prefix, i as int));
        lemma_scan_step(s, prefix, end, at);
        lemma_step_coherent(
            prefix,
            end,
            at,
            path.ids@,
            segs,
            i as int,
            path.cache@,
            path.stats@,
        );
        assert(coherent(path.cache@, path.ids@[i as int], segs[i as int]));
        assert(pulls_view(p0, path0).at[i as int] == at);
    }
    match p.scans[i].next_cached(path.ids[i], &mut path.cache, &mut path.stats) {
        Some(Err(e)) => Err(e),
        None => {
            p.more[i] = false;
            proof {
                assert(rows0 + entry_rows(Seq::<EntryV>::empty()) =~= rows0);
                lemma_pulled(p0, *p, path0, *path, segs, prefix, i as int, None);
            }
            Ok(())
        },
        Some(Ok(e)) => {
            let ghost ev = e@;
            let value = entry_value(&e);
            let row: Row = (e.key, value);
            let ghost rv = row_view(row);
            p.rows[i].push(row);
            p.more[i] = true;
            proof {
                assert(rows_view(p.rows@[i as int]@) =~= rows0.push(rv));
                let c2 = p.scans@[i as int]@;
                if let Ok(rest) = scan_run(s, prefix, end, c2) {
                    assert(rows0 + entry_rows(seq![ev] + rest) =~= rows0.push(rv) + entry_rows(
                        rest,
                    ));
                }
                lemma_pulled(p0, *p, path0, *path, segs, prefix, i as int, Some(ev.key));
            }
            Ok(())
        },
    }
}

/// The streams that were not pulled stand where they stood.
proof fn lemma_pulled(
    p0: Pulls<'_>,
    p: Pulls<'_>,
    path0: ReadPath,
    path: ReadPath,
    segs: Seq<SegV>,
    prefix: Seq<u8>,
    i: int,
    head: Option<Seq<u8>>,
)
    requires
        0 <= i < segs.len(),
        pulls_wf(p0, segs, prefix),
        p.scans@.len() == segs.len(),
        p.rows@.len() == segs.len(),
        p.more@.len() == segs.len(),
        forall|k: int| 0 <= k < segs.len() && k != i ==> (#[trigger] p.scans@[k]) == p0.scans@[k],
        forall|k: int| 0 <= k < segs.len() && k != i ==> (#[trigger] p.rows@[k]) == p0.rows@[k],
        forall|k: int| 0 <= k < segs.len() && k != i ==> (#[trigger] p.more@[k]) == p0.more@[k],
        stream_wf(p, segs, prefix, i),
        head_of(p, i) == head,
        ({
            let (item, c2) = scan_step(segs[i], prefix, prefix_end_of(prefix), p0.scans@[i]@);
            &&& p.scans@[i]@ == c2
            &&& !(item matches Some(Err(_)))
            &&& head == (match item {
                Some(Ok(x)) => Some(x.key),
                _ => None,
            })
        }),
        (path.cache@, path.stats@) == step_after(
            segs[i],
            prefix,
            prefix_end_of(prefix),
            p0.scans@[i]@,
            path0.ids@[i],
            path0.cache@,
            path0.stats@,
        ),
    ensures
        pulled(pulls_view(p0, path0), segs, path0.ids@, prefix, i) == pulls_view(p, path),
        pulls_wf(p, segs, prefix),
        forall|k: int|
            0 <= k < segs.len() && k != i && #[trigger] stream_told(p0, segs, prefix, k)
                ==> stream_told(p, segs, prefix, k),
        forall|k: int|
            0 <= k < segs.len() && k != i && #[trigger] stream_open(p0, segs, prefix, k)
                ==> stream_open(p, segs, prefix, k),
{
    let a = pulled(pulls_view(p0, path0), segs, path0.ids@, prefix, i);
    let b = pulls_view(p, path);
    assert(a.at =~= b.at);
    assert forall|k: int| 0 <= k < segs.len() implies a.heads[k] == b.heads[k] by {
        if k != i {
            assert(p.rows@[k] == p0.rows@[k] && p.more@[k] == p0.more@[k]);
        }
    }
    assert(a.heads =~= b.heads);
    assert forall|k: int| 0 <= k < segs.len() implies #[trigger] stream_wf(p, segs, prefix, k) by {
        if k != i {
            assert(stream_wf(p0, segs, prefix, k));
            assert(p.scans@[k] == p0.scans@[k] && p.rows@[k] == p0.rows@[k] && p.more@[k]
                == p0.more@[k]);
        }
    }
    assert forall|k: int|
        0 <= k < segs.len() && k != i && #[trigger] stream_told(
            p0,
            segs,
            prefix,
            k,
        ) implies stream_told(p, segs, prefix, k) by {
        assert(p.rows@[k] == p0.rows@[k] && p.more@[k] == p0.more@[k]);
    }
    assert forall|k: int|
        0 <= k < segs.len() && k != i && #[trigger] stream_open(
            p0,
            segs,
            prefix,
            k,
        ) implies stream_open(p, segs, prefix, k) by {
        assert(p.scans@[k] == p0.scans@[k] && p.rows@[k] == p0.rows@[k]);
    }
}

/// The least key at hand.
fn least_key(p: &Pulls<'_>, Ghost(segs): Ghost<Seq<SegV>>, Ghost(prefix): Ghost<Seq<u8>>) -> (r:
    Option<Vec<u8>>)
    requires
        pulls_wf(*p, segs, prefix),
    ensures
        forall|path: ReadPath|
            opt_seq(r) == least_head(#[trigger] pulls_view(*p, path).heads, segs.len()),
{
    let ghost heads = Seq::new(p.scans@.len(), |i: int| head_of(*p, i));
    let mut found: Option<usize> = None;
    let mut n: usize = 0;
    while n < p.more.len()
        invariant
            n <= segs.len(),
            pulls_wf(*p, segs, prefix),
            heads == Seq::new(p.scans@.len(), |i: int| head_of(*p, i)),
            match found {
                Some(i) => i < n && p.more@[i as int] && least_head(heads, n as nat) == head_of(
                    *p,
                    i as int,
                ),
                None => least_head(heads, n as nat) is None,
            },
        decreases segs.len() - n,
    {
        assert(stream_wf(*p, segs, prefix, n as int));
        assert(heads[n as int] == head_of(*p, n as int));
        if p.more[n] {
            match found {
                None => {
                    found = Some(n);
                },
                Some(i) => {
                    assert(stream_wf(*p, segs, prefix, i as int));
                    let a = &p.rows[i][p.rows[i].len() - 1].0;
                    let b = &p.rows[n][p.rows[n].len() - 1].0;
                    match compare(b.as_slice(), a.as_slice()) {
                        Order::Less => {
                            found = Some(n);
                        },
                        _ => {},
                    }
                },
            }
        }
        n += 1;
    }
    match found {
        None => None,
        Some(i) => {
            assert(stream_wf(*p, segs, prefix, i as int));
            Some(to_vec(p.rows[i][p.rows[i].len() - 1].0.as_slice()))
        },
    }
}

/// A failing stream fails the streams.
proof fn lemma_streams_fail(segs: Seq<SegV>, n: nat, prefix: Seq<u8>, i: int)
    requires
        0 <= i < n,
        seg_rows(segs[i], prefix) is Err,
    ensures
        seg_streams(segs, n, prefix) is Err,
    decreases n,
{
    if i < n - 1 {
        lemma_streams_fail(segs, (n - 1) as nat, prefix, i);
    }
}

proof fn lemma_streams_whole(segs: Seq<SegV>, n: nat, prefix: Seq<u8>, v: Seq<Seq<RowV>>)
    requires
        v.len() == segs.len(),
        n <= segs.len(),
        forall|i: int|
            0 <= i < n ==> seg_rows(#[trigger] segs[i], prefix) == Ok::<Seq<RowV>, ErrV>(v[i]),
    ensures
        seg_streams(segs, n, prefix) == Ok::<Seq<Seq<RowV>>, ErrV>(v.take(n as int)),
    decreases n,
{
    if n == 0 {
        assert(v.take(0) =~= seq![]);
    } else {
        lemma_streams_whole(segs, (n - 1) as nat, prefix, v);
        assert(seg_rows(segs[n - 1], prefix) == Ok::<Seq<RowV>, ErrV>(v[n - 1]));
        assert(v.take(n - 1).push(v[n - 1]) =~= v.take(n as int));
    }
}

/// Every stream that is at its end gave all its rows.
spec fn all_told(p: Pulls<'_>, segs: Seq<SegV>, prefix: Seq<u8>) -> bool {
    forall|k: int| 0 <= k < segs.len() ==> #[trigger] stream_told(p, segs, prefix, k)
}

/// Pulls stream `i` if it has `key` at hand.
fn visit(
    p: &mut Pulls<'_>,
    i: usize,
    key: &[u8],
    path: &mut ReadPath,
    Ghost(segs): Ghost<Seq<SegV>>,
    Ghost(prefix): Ghost<Seq<u8>>,
) -> (r: Result<(), FormatError>)
    requires
        pulls_wf(*old(p), segs, prefix),
        all_told(*old(p), segs, prefix),
        i < segs.len(),
        path_fits(*old(path), segs),
    ensures
        path_fits(*final(path), segs),
        final(path).ids == old(path).ids,
        ({
            let q = visited(
                pulls_view(*old(p), *old(path)),
                segs,
                old(path).ids@,
                prefix,
                key@,
                i as int,
            );
            match r {
                Ok(_) => {
                    &&& q == pulls_view(*final(p), *final(path))
                    &&& pulls_wf(*final(p), segs, prefix)
                    &&& all_told(*final(p), segs, prefix)
                },
                Err(_) => {
                    &&& q.failed
                    &&& (q.cache, q.stats) == (final(path).cache@, final(path).stats@)
                    &&& seg_streams(segs, segs.len(), prefix) is Err
                },
            }
        }),
{
    let ghost p0 = *p;
    assert(stream_wf(p0, segs, prefix, i as int));
    assert(pulls_view(p0, *path).heads[i as int] == head_of(p0, i as int));
    if p.more[i] && bytes_eq(p.rows[i][p.rows[i].len() - 1].0.as_slice(), key) {
        match pull(p, i, path, Ghost(segs), Ghost(prefix)) {
            Err(e) => {
                proof {
                    lemma_streams_fail(segs, segs.len(), prefix, i as int);
                }
                return Err(e);
            },
            Ok(_) => {
                assert forall|k: int| 0 <= k < segs.len() implies #[trigger] stream_told(
                    *p,
                    segs,
                    prefix,
                    k,
                ) by {
                    if k != i {
                        assert(stream_told(p0, segs, prefix, k));
                    }
                }
            },
        }
    }
    Ok(())
}

/// Pulls the streams that have `key` at hand, the newest first.
fn pull_round(
    p: &mut Pulls<'_>,
    key: &[u8],
    path: &mut ReadPath,
    Ghost(segs): Ghost<Seq<SegV>>,
    Ghost(prefix): Ghost<Seq<u8>>,
) -> (r: Result<(), FormatError>)
    requires
        pulls_wf(*old(p), segs, prefix),
        all_told(*old(p), segs, prefix),
        path_fits(*old(path), segs),
    ensures
        path_fits(*final(path), segs),
        final(path).ids == old(path).ids,
        ({
            let q = round(
                pulls_view(*old(p), *old(path)),
                segs,
                old(path).ids@,
                prefix,
                key@,
                segs.len(),
            );
            match r {
                Ok(_) => {
                    &&& q == pulls_view(*final(p), *final(path))
                    &&& pulls_wf(*final(p), segs, prefix)
                    &&& all_told(*final(p), segs, prefix)
                },
                Err(_) => {
                    &&& q.failed
                    &&& (q.cache, q.stats) == (final(path).cache@, final(path).stats@)
                    &&& seg_streams(segs, segs.len(), prefix) is Err
                },
            }
        }),
{
    let ghost q = round(pulls_view(*p, *path), segs, path.ids@, prefix, key@, segs.len());
    let mut n: usize = p.more.len();
    while n > 0
        invariant
            n <= segs.len(),
            pulls_wf(*p, segs, prefix),
            all_told(*p, segs, prefix),
            path_fits(*path, segs),
            path.ids == old(path).ids,
            q == round(
                pulls_view(*old(p), *old(path)),
                segs,
                old(path).ids@,
                prefix,
                key@,
                segs.len(),
            ),
            q == round(pulls_view(*p, *path), segs, path.ids@, prefix, key@, n as nat),
        decreases n,
    {
        n -= 1;
        let ghost v = visited(pulls_view(*p, *path), segs, path.ids@, prefix, key@, n as int);
        assert(q == round(v, segs, path.ids@, prefix, key@, n as nat));
        match visit(p, n, key, path, Ghost(segs), Ghost(prefix)) {
            Err(e) => {
                assert(q == v);
                return Err(e);
            },
            Ok(_) => {},
        }
    }
    Ok(())
}

/// Opens a cursor on every segment.
fn cursors<'a>(segments: &'a Vec<SegmentReader>, prefix: &'a [u8], stop: Option<&'a [u8]>) -> (r:
    Pulls<'a>)
    requires
        all_wf(segments@),
        opt_slice(stop) == prefix_end_of(prefix@),
    ensures
        pulls_wf(r, segs_view(segments@), prefix@),
        forall|k: int|
            0 <= k < segments@.len() ==> #[trigger] stream_open(
                r,
                segs_view(segments@),
                prefix@,
                k,
            ),
        forall|path: ReadPath| #[trigger]
            pulls_view(r, path) == pulls_start(
                segs_view(segments@),
                prefix@,
                path.cache@,
                path.stats@,
            ),
{
    let ghost segs = segs_view(segments@);
    let mut p: Pulls<'a> = Pulls { scans: Vec::new(), rows: Vec::new(), more: Vec::new() };
    let mut i: usize = 0;
    while i < segments.len()
        invariant
            i <= segments@.len(),
            all_wf(segments@),
            segs == segs_view(segments@),
            segs.len() == segments@.len(),
            opt_slice(stop) == prefix_end_of(prefix@),
            p.scans@.len() == i,
            p.rows@.len() == i,
            p.more@.len() == i,
            forall|k: int|
                0 <= k < i ==> #[trigger] stream_wf(p, segs, prefix@, k) && !p.more@[k]
                    && p.scans@[k]@ == scan_start(segs[k], prefix@),
            forall|k: int| 0 <= k < i ==> #[trigger] stream_open(p, segs, prefix@, k),
        decreases segments@.len() - i,
    {
        assert(segs[i as int] == segments@[i as int]@);
        let ghost p0 = p;
        let scan = segments[i].scan_iter(prefix, stop);
        let count: u32 = segments[i].block_count;
        p.scans.push(scan);
        p.rows.push(Vec::new());
        p.more.push(false);
        proof {
            let s = segs[i as int];
            assert(rows_view(p.rows@[i as int]@) =~= seq![]);
            if let Ok(all) = scan_run(s, prefix@, prefix_end_of(prefix@), scan_start(s, prefix@)) {
                assert(Seq::<RowV>::empty() + entry_rows(all) =~= entry_rows(all));
            }
            assert(so_far(s, prefix@, p.scans@[i as int]@, rows_view(p.rows@[i as int]@)));
            assert forall|k: int| 0 <= k < i + 1 implies #[trigger] stream_wf(p, segs, prefix@, k)
                && !p.more@[k] && p.scans@[k]@ == scan_start(segs[k], prefix@) by {
                if k < i {
                    assert(stream_wf(p0, segs, prefix@, k));
                    assert(p.scans@[k] == p0.scans@[k] && p.rows@[k] == p0.rows@[k] && p.more@[k]
                        == p0.more@[k]);
                }
            }
            assert forall|k: int| 0 <= k < i + 1 implies #[trigger] stream_open(
                p,
                segs,
                prefix@,
                k,
            ) by {
                if k < i {
                    assert(stream_open(p0, segs, prefix@, k));
                    assert(p.scans@[k] == p0.scans@[k] && p.rows@[k] == p0.rows@[k]);
                }
            }
        }
        i += 1;
    }
    proof {
        assert forall|path: ReadPath| #[trigger] pulls_view(p, path) == pulls_start(
            segs,
            prefix@,
            path.cache@,
            path.stats@,
        ) by {
            let a = pulls_view(p, path);
            let b = pulls_start(segs, prefix@, path.cache@, path.stats@);
            assert forall|k: int| 0 <= k < segs.len() implies a.at[k] == b.at[k] && a.heads[k]
                == b.heads[k] by {
                assert(stream_wf(p, segs, prefix@, k));
            }
            assert(a.at =~= b.at);
            assert(a.heads =~= b.heads);
        }
    }
    p
}

/// Pulls every stream once, oldest first.
fn pull_first(
    p: &mut Pulls<'_>,
    path: &mut ReadPath,
    Ghost(segs): Ghost<Seq<SegV>>,
    Ghost(prefix): Ghost<Seq<u8>>,
) -> (r: Result<(), FormatError>)
    requires
        pulls_wf(*old(p), segs, prefix),
        forall|k: int| 0 <= k < segs.len() ==> #[trigger] stream_open(*old(p), segs, prefix, k),
        path_fits(*old(path), segs),
    ensures
        path_fits(*final(path), segs),
        final(path).ids == old(path).ids,
        ({
            let q = first_pulls(
                pulls_view(*old(p), *old(path)),
                segs,
                old(path).ids@,
                prefix,
                segs.len(),
            );
            match r {
                Ok(_) => {
                    &&& q == pulls_view(*final(p), *final(path))
                    &&& pulls_wf(*final(p), segs, prefix)
                    &&& all_told(*final(p), segs, prefix)
                },
                Err(_) => {
                    &&& q.failed
                    &&& (q.cache, q.stats) == (final(path).cache@, final(path).stats@)
                    &&& seg_streams(segs, segs.len(), prefix) is Err
                },
            }
        }),
{
    let ghost start = pulls_view(*p, *path);
    let mut k: usize = 0;
    while k < p.more.len()
        invariant
            k <= segs.len(),
            pulls_wf(*p, segs, prefix),
            forall|i: int| 0 <= i < k ==> #[trigger] stream_told(*p, segs, prefix, i),
            forall|i: int| k <= i < segs.len() ==> #[trigger] stream_open(*p, segs, prefix, i),
            path_fits(*path, segs),
            path.ids == old(path).ids,
            start == pulls_view(*old(p), *old(path)),
            pulls_view(*p, *path) == first_pulls(start, segs, path.ids@, prefix, k as nat),
        decreases segs.len() - k,
    {
        let ghost p0 = *p;
        assert(stream_open(p0, segs, prefix, k as int));
        match pull(p, k, path, Ghost(segs), Ghost(prefix)) {
            Err(e) => {
                proof {
                    lemma_first_stop(
                        start,
                        segs,
                        path.ids@,
                        prefix,
                        (k + 1) as nat,
                        segs.len(),
                    );
                    lemma_streams_fail(segs, segs.len(), prefix, k as int);
                }
                return Err(e);
            },
            Ok(_) => {
                assert forall|i: int| 0 <= i < k + 1 implies #[trigger] stream_told(
                    *p,
                    segs,
                    prefix,
                    i,
                ) by {
                    if i != k {
                        assert(stream_told(p0, segs, prefix, i));
                    }
                }
                assert forall|i: int| k + 1 <= i < segs.len() implies #[trigger] stream_open(
                    *p,
                    segs,
                    prefix,
                    i,
                ) by {
                    assert(stream_open(p0, segs, prefix, i));
                }
            },
        }
        k += 1;
    }
    Ok(())
}

/// The streams of the segments, pulled in the order of their keys, with blocks
/// read through the cache.
pub(crate) fn pull_streams(segments: &Vec<SegmentReader>, prefix: &[u8], path: &mut ReadPath) -> (r:
    Result<Vec<Vec<Row>>, FormatError>)
    requires
        all_wf(segments@),
        path_fits(*old(path), segs_view(segments@)),
    ensures
        match seg_streams(segs_view(segments@), segments@.len(), prefix@) {
            Ok(v) => r is Ok && streams_view(r->Ok_0@) == v,
            Err(_) => r is Err,
        },
        path_fits(*final(path), segs_view(segments@)),
        final(path).ids == old(path).ids,
        (final(path).cache@, final(path).stats@) == after_scan(
            old(path).cache@,
            old(path).stats@,
            old(path).ids@,
            segs_view(segments@),
            prefix@,
        ),
{
    let ghost segs = segs_view(segments@);
    let ghost ids = path.ids@;
    let ghost cost = after_scan(path.cache@, path.stats@, ids, segs, prefix@);
    assert(segs.len() == segments@.len());
    let end = prefix_end(prefix);
    let stop: Option<&[u8]> = match &end {
        Some(e) => Some(e.as_slice()),
        None => None,
    };
    let mut p = cursors(segments, prefix, stop);
    match pull_first(&mut p, path, Ghost(segs), Ghost(prefix@)) {
        Err(e) => {
            return Err(e);
        },
        Ok(_) => {},
    }
    loop
        invariant
            segs == segs_view(segments@),
            segs.len() == segments@.len(),
            pulls_wf(p, segs, prefix@),
            all_told(p, segs, prefix@),
            path_fits(*path, segs),
            path.ids == old(path).ids,
            ids == path.ids@,
            cost == after_scan(old(path).cache@, old(path).stats@, ids, segs, prefix@),
            cost == ({
                let q = all_rounds(pulls_view(p, *path), segs, ids, prefix@);
                (q.cache, q.stats)
            }),
        decreases rows_ahead(pulls_view(p, *path), segs, prefix@, segs.len()),
    {
        let ghost v = pulls_view(p, *path);
        proof {
            lemma_least_head(v.heads, segs.len());
        }
        match least_key(&p, Ghost(segs), Ghost(prefix@)) {
            None => {
                let Pulls { scans: _, rows, more: _ } = p;
                proof {
                    let all = streams_view(rows@);
                    assert forall|i: int| 0 <= i < segs.len() implies seg_rows(
                        #[trigger] segs[i],
                        prefix@,
                    ) == Ok::<Seq<RowV>, ErrV>(all[i]) by {
                        assert(v.heads[i] is None);
                        assert(stream_told(p, segs, prefix@, i));
                    }
                    lemma_streams_whole(segs, segs.len(), prefix@, all);
                    assert(all.take(segs.len() as int) =~= all);
                }
                return Ok(rows);
            },
            Some(key) => {
                proof {
                    lemma_round_ahead(v, segs, ids, prefix@, key@, segs.len());
                }
                match pull_round(&mut p, key.as_slice(), path, Ghost(segs), Ghost(prefix@)) {
                    Err(e) => {
                        return Err(e);
                    },
                    Ok(_) => {},
                }
            },
        }
    }
}

} // verus!
