//! Where a compaction puts each row, said of the row itself: by the verdict on
//! its run, by its replica, and by what follows it.

use crate::compaction::laws::{chunk_size, chunks_keep_rows};
use crate::compaction::plan::{
    answers_for, archived_rows, chunk_len, chunk_more, cut, cut_by, entry_size, firsts, head_run,
    judged, lemma_chunk_more, lemma_run_len, live_before, live_rows, outdated, pieces, run_live,
    without_tail, Retention, RetentionPolicy,
};
use crate::compaction::run::{
    archive_ok, archive_slot, chunk_is, file_of, full_before, live_id, live_ok, merge_ok, run_start,
    sticky, whole_runs, Merged,
};
use crate::memtable::is_delete;
use crate::segment::block::{entry_bytes, lemma_entry_len};
use crate::segment::entry::EntryV;
use crate::segment::open_laws::flat;
use crate::segment::write::Published;
use vstd::prelude::*;

verus! {

// ---------------------------------------------------------------------------
// Rows by verdict
/// The number of the run in which row `i` stands: how often the key changed on
/// the way to it.
pub open spec fn run_at(es: Seq<EntryV>, i: int) -> int
    decreases i,
{
    if i <= 0 {
        0
    } else if es[i].key == es[i - 1].key {
        run_at(es, i - 1)
    } else {
        run_at(es, i - 1) + 1
    }
}

/// Of the first `n` rows those whose run got the verdict, in their order.
pub open spec fn rows_judged(es: Seq<EntryV>, vs: Seq<Retention>, v: Retention, n: nat) -> Seq<EntryV>
    decreases n,
{
    if n == 0 {
        seq![]
    } else if vs[run_at(es, n - 1)] == v {
        rows_judged(es, vs, v, (n - 1) as nat).push(es[n - 1])
    } else {
        rows_judged(es, vs, v, (n - 1) as nat)
    }
}

/// Row `i` is the newest of its replica in its run.
pub open spec fn newest_of_replica(es: Seq<EntryV>, i: int) -> bool {
    forall|j: int|
        0 <= j < i && run_at(es, j) == run_at(es, i) ==> (#[trigger] es[j]).replica_id
            != es[i].replica_id
}

/// Row `k` is a newest row that holds a value.
pub open spec fn newest_value(es: Seq<EntryV>, k: int) -> bool {
    newest_of_replica(es, k) && !is_delete(es[k])
}

/// Row `i` stays live: its run is kept, it is the newest of its replica, and
/// it, or an older row of the run that stays beside it, holds a value.
pub open spec fn stays(es: Seq<EntryV>, vs: Seq<Retention>, i: int) -> bool {
    &&& vs[run_at(es, i)] == Retention::Keep
    &&& newest_of_replica(es, i)
    &&& exists|k: int|
        i <= k < es.len() && run_at(es, k) == run_at(es, i) && #[trigger] newest_value(es, k)
}

/// Of the first `n` rows those that stay live, in their order.
pub open spec fn rows_staying(es: Seq<EntryV>, vs: Seq<Retention>, n: nat) -> Seq<EntryV>
    decreases n,
{
    if n == 0 {
        seq![]
    } else if stays(es, vs, n - 1) {
        rows_staying(es, vs, (n - 1) as nat).push(es[n - 1])
    } else {
        rows_staying(es, vs, (n - 1) as nat)
    }
}

/// Runs are counted on from the leading one.
proof fn lemma_run_at(es: Seq<EntryV>, i: int)
    requires
        es.len() > 0,
        0 <= i < es.len(),
    ensures
        ({
            let n = head_run(es) as int;
            &&& 1 <= n <= es.len()
            &&& i < n ==> run_at(es, i) == 0
            &&& i >= n ==> run_at(es, i) == 1 + run_at(es.skip(n), i - n)
            &&& run_at(es, i) >= 0
        }),
    decreases i,
{
    lemma_run_len(es, es[0].key);
    let n = head_run(es) as int;
    if i > 0 {
        lemma_run_at(es, i - 1);
        if i < n {
            assert(es[i].key == es[0].key && es[i - 1].key == es[0].key);
        } else if i == n {
            assert(es[n - 1].key == es[0].key);
            assert(es[n].key != es[0].key);
        } else {
            assert(es.skip(n)[i - n] == es[i] && es.skip(n)[i - n - 1] == es[i - 1]);
            lemma_run_at_nat(es.skip(n), i - n);
        }
    }
}

proof fn lemma_run_at_nat(es: Seq<EntryV>, i: int)
    ensures
        run_at(es, i) >= 0,
    decreases i,
{
    if i > 0 {
        lemma_run_at_nat(es, i - 1);
    }
}

/// There is a verdict for every run.
proof fn lemma_verdicts<P: RetentionPolicy>(
    es: Seq<EntryV>,
    vs: Seq<Retention>,
    policy: &P,
    i: int,
)
    requires
        judged(es, vs, policy),
        0 <= i < es.len(),
    ensures
        0 <= run_at(es, i) < vs.len(),
        answers_for(policy, es[i].key, vs[run_at(es, i)]),
    decreases es.len(),
{
    lemma_run_len(es, es[0].key);
    lemma_run_at(es, i);
    let n = head_run(es) as int;
    if i < n {
        assert(es[i].key == es[0].key);
    } else {
        lemma_verdicts(es.skip(n), vs.skip(1), policy, i - n);
        assert(es.skip(n)[i - n] == es[i]);
    }
}

proof fn lemma_judged_head<P: RetentionPolicy>(
    es: Seq<EntryV>,
    vs: Seq<Retention>,
    policy: &P,
    v: Retention,
    m: nat,
)
    requires
        judged(es, vs, policy),
        es.len() > 0,
        m <= head_run(es),
    ensures
        rows_judged(es, vs, v, m) == (if vs[0] == v {
            es.take(m as int)
        } else {
            seq![]
        }),
    decreases m,
{
    if m > 0 {
        lemma_run_len(es, es[0].key);
        lemma_judged_head(es, vs, policy, v, (m - 1) as nat);
        lemma_run_at(es, m - 1);
        assert(es.take(m as int) =~= es.take(m - 1).push(es[m - 1]));
    } else {
        assert(es.take(0) =~= seq![]);
    }
}

proof fn lemma_judged_tail<P: RetentionPolicy>(
    es: Seq<EntryV>,
    vs: Seq<Retention>,
    policy: &P,
    v: Retention,
    m: nat,
)
    requires
        judged(es, vs, policy),
        es.len() > 0,
        head_run(es) + m <= es.len(),
    ensures
        rows_judged(es, vs, v, (head_run(es) + m) as nat) == rows_judged(es, vs, v, head_run(es))
            + rows_judged(es.skip(head_run(es) as int), vs.skip(1), v, m),
    decreases m,
{
    let n = head_run(es);
    let rest = es.skip(n as int);
    let left = rows_judged(es, vs, v, n);
    if m > 0 {
        lemma_run_len(es, es[0].key);
        lemma_judged_tail(es, vs, policy, v, (m - 1) as nat);
        lemma_run_at(es, n + m - 1);
        lemma_verdicts(rest, vs.skip(1), policy, m - 1);
        let before = rows_judged(rest, vs.skip(1), v, (m - 1) as nat);
        assert(rest[m - 1] == es[n + m - 1]);
        assert((left + before).push(rest[m - 1]) =~= left + before.push(rest[m - 1]));
    } else {
        assert(left + rows_judged(rest, vs.skip(1), v, 0) =~= left);
    }
}

/// The archive gets the rows whose verdict is to archive them: all of them, in
/// their order, and no other.
pub proof fn archive_takes_what_is_archived<P: RetentionPolicy>(
    es: Seq<EntryV>,
    vs: Seq<Retention>,
    policy: &P,
)
    requires
        judged(es, vs, policy),
    ensures
        archived_rows(es, vs) == rows_judged(es, vs, Retention::Archive, es.len()),
    decreases es.len(),
{
    if es.len() > 0 {
        lemma_run_len(es, es[0].key);
        let n = head_run(es);
        let rest = es.skip(n as int);
        archive_takes_what_is_archived(rest, vs.skip(1), policy);
        lemma_judged_head(es, vs, policy, Retention::Archive, n);
        lemma_judged_tail(es, vs, policy, Retention::Archive, rest.len());
    }
}

// ---------------------------------------------------------------------------
// Live rows
/// Whether a row is the newest of its replica does not look past its run.
proof fn lemma_newest_tail(es: Seq<EntryV>, i: int)
    requires
        es.len() > 0,
        head_run(es) <= i < es.len(),
    ensures
        newest_of_replica(es, i) == newest_of_replica(
            es.skip(head_run(es) as int),
            i - head_run(es),
        ),
{
    lemma_run_len(es, es[0].key);
    let n = head_run(es) as int;
    let rest = es.skip(n);
    lemma_run_at(es, i);
    lemma_run_at_nat(rest, i - n);
    if newest_of_replica(es, i) {
        assert forall|j: int|
            0 <= j < i - n && run_at(rest, j) == run_at(rest, i - n) implies (
        #[trigger] rest[j]).replica_id != rest[i - n].replica_id by {
            lemma_run_at(es, j + n);
            assert(es[j + n] == rest[j]);
        }
    }
    if newest_of_replica(rest, i - n) {
        assert forall|j: int| 0 <= j < i && run_at(es, j) == run_at(es, i) implies (
        #[trigger] es[j]).replica_id != es[i].replica_id by {
            lemma_run_at(es, j);
            assert(j >= n);
            assert(rest[j - n] == es[j]);
        }
    }
}

proof fn lemma_stays_tail<P: RetentionPolicy>(
    es: Seq<EntryV>,
    vs: Seq<Retention>,
    policy: &P,
    i: int,
)
    requires
        judged(es, vs, policy),
        es.len() > 0,
        head_run(es) <= i < es.len(),
    ensures
        stays(es, vs, i) == stays(es.skip(head_run(es) as int), vs.skip(1), i - head_run(es)),
{
    lemma_run_len(es, es[0].key);
    let n = head_run(es) as int;
    let rest = es.skip(n);
    let vr = vs.skip(1);
    lemma_run_at(es, i);
    lemma_newest_tail(es, i);
    lemma_verdicts(rest, vr, policy, i - n);
    assert(vr[run_at(rest, i - n)] == vs[run_at(es, i)]);
    if exists|k: int|
        i <= k < es.len() && run_at(es, k) == run_at(es, i) && #[trigger] newest_value(es, k) {
        let k = choose|k: int|
            i <= k < es.len() && run_at(es, k) == run_at(es, i) && #[trigger] newest_value(es, k);
        lemma_run_at(es, k);
        lemma_newest_tail(es, k);
        assert(rest[k - n] == es[k]);
        assert(newest_value(rest, k - n));
    }
    if exists|k: int|
        i - n <= k < rest.len() && run_at(rest, k) == run_at(rest, i - n)
            && #[trigger] newest_value(rest, k) {
        let k = choose|k: int|
            i - n <= k < rest.len() && run_at(rest, k) == run_at(rest, i - n)
                && #[trigger] newest_value(rest, k);
        lemma_run_at(es, k + n);
        lemma_newest_tail(es, k + n);
        assert(rest[k] == es[k + n]);
        assert(newest_value(es, k + n));
    }
}

proof fn lemma_staying_tail<P: RetentionPolicy>(
    es: Seq<EntryV>,
    vs: Seq<Retention>,
    policy: &P,
    m: nat,
)
    requires
        judged(es, vs, policy),
        es.len() > 0,
        head_run(es) + m <= es.len(),
    ensures
        rows_staying(es, vs, (head_run(es) + m) as nat) == rows_staying(es, vs, head_run(es))
            + rows_staying(es.skip(head_run(es) as int), vs.skip(1), m),
    decreases m,
{
    let n = head_run(es);
    let rest = es.skip(n as int);
    let left = rows_staying(es, vs, n);
    if m > 0 {
        lemma_run_len(es, es[0].key);
        lemma_staying_tail(es, vs, policy, (m - 1) as nat);
        lemma_stays_tail(es, vs, policy, n + m - 1);
        let before = rows_staying(rest, vs.skip(1), (m - 1) as nat);
        assert(rest[m - 1] == es[n + m - 1]);
        assert((left + before).push(rest[m - 1]) =~= left + before.push(rest[m - 1]));
    } else {
        assert(left + rows_staying(rest, vs.skip(1), 0) =~= left);
    }
}

/// In one run: some row from `i` on, before `n`, is newest and holds a value.
spec fn value_from(run: Seq<EntryV>, i: int, n: nat) -> bool {
    exists|k: int| i <= k < n && !outdated(run, k) && !is_delete(#[trigger] run[k])
}

/// In one run: of the first `m` rows the newest ones that a value, before `n`,
/// keeps.
spec fn kept_in(run: Seq<EntryV>, n: nat, m: nat) -> Seq<EntryV>
    decreases m,
{
    if m == 0 {
        seq![]
    } else if !outdated(run, m - 1) && value_from(run, m - 1, n) {
        kept_in(run, n, (m - 1) as nat).push(run[m - 1])
    } else {
        kept_in(run, n, (m - 1) as nat)
    }
}

proof fn lemma_kept_all(run: Seq<EntryV>, n: nat, m: nat)
    requires
        m <= n <= run.len(),
        n > 0,
        !outdated(run, n - 1),
        !is_delete(run[n - 1]),
    ensures
        kept_in(run, n, m) == firsts(run, m),
    decreases m,
{
    if m > 0 {
        lemma_kept_all(run, n, (m - 1) as nat);
        assert(value_from(run, m - 1, n)) by {
            assert(!outdated(run, n - 1) && !is_delete(run[n - 1]));
        }
    }
}

proof fn lemma_kept_less(run: Seq<EntryV>, n: nat, m: nat)
    requires
        m < n <= run.len(),
        outdated(run, n - 1) || is_delete(run[n - 1]),
    ensures
        kept_in(run, n, m) == kept_in(run, (n - 1) as nat, m),
    decreases m,
{
    if m > 0 {
        lemma_kept_less(run, n, (m - 1) as nat);
        if value_from(run, m - 1, n) {
            let k = choose|k: int|
                m - 1 <= k < n && !outdated(run, k) && !is_delete(#[trigger] run[k]);
            assert(k < n - 1);
            assert(value_from(run, m - 1, (n - 1) as nat));
        }
        if value_from(run, m - 1, (n - 1) as nat) {
            let k = choose|k: int|
                m - 1 <= k < n - 1 && !outdated(run, k) && !is_delete(#[trigger] run[k]);
            assert(value_from(run, m - 1, n));
        }
    }
}

proof fn lemma_kept(run: Seq<EntryV>, n: nat)
    requires
        n <= run.len(),
    ensures
        without_tail(firsts(run, n)) == kept_in(run, n, n),
    decreases n,
{
    if n > 0 {
        lemma_kept(run, (n - 1) as nat);
        if !outdated(run, n - 1) && !is_delete(run[n - 1]) {
            lemma_kept_all(run, n, n);
        } else {
            lemma_kept_less(run, n, (n - 1) as nat);
            assert(!value_from(run, n - 1, n)) by {
                if value_from(run, n - 1, n) {
                    let k = choose|k: int|
                        n - 1 <= k < n && !outdated(run, k) && !is_delete(#[trigger] run[k]);
                    assert(k == n - 1);
                }
            }
            if !outdated(run, n - 1) {
                let all = firsts(run, n);
                assert(all.drop_last() =~= firsts(run, (n - 1) as nat));
            }
        }
    }
}

proof fn lemma_newest_head(es: Seq<EntryV>, i: int)
    requires
        es.len() > 0,
        0 <= i < head_run(es),
    ensures
        newest_of_replica(es, i) == !outdated(es.take(head_run(es) as int), i),
{
    lemma_run_len(es, es[0].key);
    let n = head_run(es) as int;
    let run = es.take(n);
    lemma_run_at(es, i);
    if outdated(run, i) {
        let j = choose|j: int| 0 <= j < i && (#[trigger] run[j]).replica_id == run[i].replica_id;
        lemma_run_at(es, j);
        assert(es[j].replica_id == es[i].replica_id);
    } else {
        assert forall|j: int| 0 <= j < i && run_at(es, j) == run_at(es, i) implies (
        #[trigger] es[j]).replica_id != es[i].replica_id by {
            assert(run[j] == es[j]);
        }
    }
}

proof fn lemma_staying_head(es: Seq<EntryV>, vs: Seq<Retention>, m: nat)
    requires
        es.len() > 0,
        m <= head_run(es),
    ensures
        rows_staying(es, vs, m) == (if vs[0] == Retention::Keep {
            kept_in(es.take(head_run(es) as int), head_run(es), m)
        } else {
            seq![]
        }),
    decreases m,
{
    if m > 0 {
        lemma_run_len(es, es[0].key);
        lemma_staying_head(es, vs, (m - 1) as nat);
        let n = head_run(es);
        let run = es.take(n as int);
        let i = m - 1;
        lemma_run_at(es, i);
        lemma_newest_head(es, i);
        assert(run[i] == es[i]);
        if value_from(run, i, n) {
            let k = choose|k: int| i <= k < n && !outdated(run, k) && !is_delete(#[trigger] run[k]);
            lemma_run_at(es, k);
            lemma_newest_head(es, k);
            assert(newest_value(es, k));
        }
        if exists|k: int|
            i <= k < es.len() && run_at(es, k) == run_at(es, i) && #[trigger] newest_value(es, k) {
            let k = choose|k: int|
                i <= k < es.len() && run_at(es, k) == run_at(es, i) && #[trigger] newest_value(
                    es,
                    k,
                );
            lemma_run_at(es, k);
            if k >= n {
                lemma_run_at_nat(es.skip(n as int), k - n);
            }
            lemma_newest_head(es, k);
            assert(run[k] == es[k]);
            assert(value_from(run, i, n));
        }
    }
}

/// The live key space gets the rows that stay, in their order, and no other:
/// of each replica the newest row of a key that is kept, and a deletion only
/// while it hides an older row.
pub proof fn live_takes_what_stays<P: RetentionPolicy>(
    es: Seq<EntryV>,
    vs: Seq<Retention>,
    policy: &P,
)
    requires
        judged(es, vs, policy),
    ensures
        live_rows(es, vs) == rows_staying(es, vs, es.len()),
    decreases es.len(),
{
    if es.len() > 0 {
        lemma_run_len(es, es[0].key);
        let n = head_run(es);
        let rest = es.skip(n as int);
        let run = es.take(n as int);
        live_takes_what_stays(rest, vs.skip(1), policy);
        lemma_staying_head(es, vs, n);
        lemma_staying_tail(es, vs, policy, rest.len());
        lemma_kept(run, n);
        assert(rows_staying(es, vs, n) == run_live(run, vs[0]));
    }
}

// ---------------------------------------------------------------------------
// The whole
proof fn lemma_rows_judged(es: Seq<EntryV>, vs: Seq<Retention>, v: Retention, n: nat, x: int) -> (i:
    int)
    requires
        n <= es.len(),
        0 <= x < rows_judged(es, vs, v, n).len(),
    ensures
        0 <= i < n,
        es[i] == rows_judged(es, vs, v, n)[x],
        vs[run_at(es, i)] == v,
    decreases n,
{
    let before = rows_judged(es, vs, v, (n - 1) as nat);
    if x < before.len() {
        lemma_rows_judged(es, vs, v, (n - 1) as nat, x)
    } else {
        n - 1
    }
}

proof fn lemma_rows_staying(es: Seq<EntryV>, vs: Seq<Retention>, n: nat, x: int) -> (i: int)
    requires
        n <= es.len(),
        0 <= x < rows_staying(es, vs, n).len(),
    ensures
        0 <= i < n,
        es[i] == rows_staying(es, vs, n)[x],
        stays(es, vs, i),
    decreases n,
{
    let before = rows_staying(es, vs, (n - 1) as nat);
    if x < before.len() {
        lemma_rows_staying(es, vs, (n - 1) as nat, x)
    } else {
        n - 1
    }
}

/// Some chunks hold the rows, in order, each published as a file of the
/// archive.
pub open spec fn archived_as_files(m: Merged, parts: Seq<Seq<EntryV>>, target: nat) -> bool {
    &&& m.archives@.len() == parts.len()
    &&& forall|k: int| 0 <= k < parts.len() ==> #[trigger] file_holds(m, k, parts[k], target)
}

/// File `k` of the archive is what some rows make.
pub open spec fn file_holds(m: Merged, k: int, rows: Seq<EntryV>, target: nat) -> bool {
    exists|p: Published, v3: bool| #[trigger]
        file_of(Ok(p), rows, target, v3) && m.archives@[k].bytes@ == p.bytes@
}

/// Some chunks hold the rows, in order, each published as a live segment.
pub open spec fn live_as_segments(m: Merged, parts: Seq<Seq<EntryV>>, target: nat) -> bool {
    &&& m.live@.len() == parts.len()
    &&& forall|k: int| 0 <= k < parts.len() ==> #[trigger] segment_holds(m, k, parts[k], target)
}

/// Live segment `k` is what some rows make.
pub open spec fn segment_holds(m: Merged, k: int, rows: Seq<EntryV>, target: nat) -> bool {
    exists|v3: bool| #[trigger] chunk_is(m.live@[k], rows, target, v3)
}

proof fn lemma_live_parts(
    m: Merged,
    es: Seq<EntryV>,
    inputs: nat,
    vs: Seq<Retention>,
    target: nat,
    cap: nat,
    first: u64,
)
    requires
        merge_ok(m, es, inputs, vs, target, cap, first),
    ensures
        live_as_segments(m, cut(live_rows(es, vs), cap), target),
{
    let live = cut(live_rows(es, vs), cap);
    let archive = pieces(archived_rows(es, vs), cap);
    assert forall|k: int| 0 <= k < live.len() implies #[trigger] segment_holds(
        m,
        k,
        live[k],
        target,
    ) by {
        let slot = archive_slot(es, vs, cap) as int;
        let id = live_id(first as int, k, slot, archive.len() as int);
        assert(live_ok(m, k, live, target, id));
        assert(chunk_is(m.live@[k], live[k], target, sticky(live, (k + 1) as nat)));
    }
}

proof fn lemma_archive_parts(
    m: Merged,
    es: Seq<EntryV>,
    inputs: nat,
    vs: Seq<Retention>,
    target: nat,
    cap: nat,
    first: u64,
)
    requires
        merge_ok(m, es, inputs, vs, target, cap, first),
    ensures
        archived_as_files(m, pieces(archived_rows(es, vs), cap), target),
{
    let archive = pieces(archived_rows(es, vs), cap);
    assert forall|k: int| 0 <= k < archive.len() implies #[trigger] file_holds(
        m,
        k,
        archive[k],
        target,
    ) by {
        let slot = archive_slot(es, vs, cap) as int;
        assert(archive_ok(m, k, archive, target, first + slot));
        let v3 = sticky(archive, (k + 1) as nat);
        let p = choose|p: Published| #[trigger]
            file_of(Ok(p), archive[k], target, v3) && m.archives@[k].bytes@ == p.bytes@;
        assert(file_of(Ok(p), archive[k], target, v3) && m.archives@[k].bytes@ == p.bytes@);
    }
}

/// What a compaction writes where. Its archive holds the rows of the runs that
/// are to be archived, all versions of them, and there is none where nothing is
/// to be archived; its segments hold the rows that stay. A run that is to be
/// dropped has a row in neither.
pub proof fn retention_places_every_row<P: RetentionPolicy>(
    m: Merged,
    es: Seq<EntryV>,
    inputs: nat,
    vs: Seq<Retention>,
    policy: &P,
    target: nat,
    cap: nat,
    first: u64,
) -> (r: (Seq<Seq<EntryV>>, Seq<Seq<EntryV>>))
    requires
        merge_ok(m, es, inputs, vs, target, cap, first),
        judged(es, vs, policy),
    ensures
        flat(r.0, r.0.len()) == rows_staying(es, vs, es.len()),
        live_as_segments(m, r.0, target),
        flat(r.1, r.1.len()) == rows_judged(es, vs, Retention::Archive, es.len()),
        archived_as_files(m, r.1, target),
        m.archives@.len() == 0 <==> rows_judged(es, vs, Retention::Archive, es.len()).len() == 0,
        m.live@.len() == 0 <==> rows_staying(es, vs, es.len()).len() == 0,
        m.stats.segments_in == inputs as u64,
        m.stats.segments_out == m.live@.len() as u64,
        m.stats.entries_in == es.len() as u64,
        m.stats.entries_out == rows_staying(es, vs, es.len()).len() as u64,
        m.stats.entries_archived == rows_judged(es, vs, Retention::Archive, es.len()).len() as u64,
        forall|i: int|
            0 <= i < es.len() ==> answers_for(
                policy,
                (#[trigger] es[i]).key,
                vs[run_at(es, i)],
            ),
{
    archive_takes_what_is_archived(es, vs, policy);
    live_takes_what_stays(es, vs, policy);
    let live = cut(live_rows(es, vs), cap);
    let archive = pieces(archived_rows(es, vs), cap);
    chunks_keep_rows(true, live_rows(es, vs), cap);
    chunks_keep_rows(false, archived_rows(es, vs), cap);
    lemma_live_parts(m, es, inputs, vs, target, cap, first);
    lemma_archive_parts(m, es, inputs, vs, target, cap, first);
    assert forall|i: int| 0 <= i < es.len() implies answers_for(
        policy,
        (#[trigger] es[i]).key,
        vs[run_at(es, i)],
    ) by {
        lemma_verdicts(es, vs, policy, i);
    }
    (live, archive)
}

/// A row that goes anywhere came in, and its verdict says where: a row of the
/// archive was to be archived, a live row was to be kept. So a key that is to
/// be dropped is found in neither.
pub proof fn dropped_keys_are_gone<P: RetentionPolicy>(
    es: Seq<EntryV>,
    vs: Seq<Retention>,
    policy: &P,
)
    requires
        judged(es, vs, policy),
    ensures
        forall|x: int|
            0 <= x < archived_rows(es, vs).len() ==> answers_for(
                policy,
                (#[trigger] archived_rows(es, vs)[x]).key,
                Retention::Archive,
            ),
        forall|x: int|
            0 <= x < live_rows(es, vs).len() ==> answers_for(
                policy,
                (#[trigger] live_rows(es, vs)[x]).key,
                Retention::Keep,
            ),
{
    archive_takes_what_is_archived(es, vs, policy);
    live_takes_what_stays(es, vs, policy);
    assert forall|x: int| 0 <= x < archived_rows(es, vs).len() implies answers_for(
        policy,
        (#[trigger] archived_rows(es, vs)[x]).key,
        Retention::Archive,
    ) by {
        let i = lemma_rows_judged(es, vs, Retention::Archive, es.len(), x);
        lemma_verdicts(es, vs, policy, i);
    }
    assert forall|x: int| 0 <= x < live_rows(es, vs).len() implies answers_for(
        policy,
        (#[trigger] live_rows(es, vs)[x]).key,
        Retention::Keep,
    ) by {
        let i = lemma_rows_staying(es, vs, es.len(), x);
        lemma_verdicts(es, vs, policy, i);
    }
}

// ---------------------------------------------------------------------------
// Chunks
proof fn lemma_more_full(whole: bool, key: Seq<u8>, rows: Seq<EntryV>, cap: nat, size: nat)
    ensures
        ({
            let n = chunk_more(whole, key, rows, cap, size);
            n < rows.len() ==> cap > 0 && size + chunk_size(rows.take((n + 1) as int)) > cap
        }),
    decreases rows.len(),
{
    let n = chunk_more(whole, key, rows, cap, size);
    lemma_chunk_more(whole, key, rows, cap, size);
    if n < rows.len() {
        let front = rows.take((n + 1) as int);
        assert(front[0] == rows[0]);
        if n == 0 {
            assert(chunk_size(front.skip(1)) == 0);
        } else {
            let rest = rows.skip(1);
            lemma_more_full(whole, rows[0].key, rest, cap, size + entry_size(rows[0]));
            assert(front.skip(1) =~= rest.take(n as int));
        }
    }
}

/// A chunk ends only where the next row would take it past the cap; with a cap
/// of 0 there is one chunk at most.
pub proof fn chunks_end_at_the_cap(whole: bool, rows: Seq<EntryV>, cap: nat, k: int)
    requires
        0 <= k,
        k + 1 < cut_by(whole, rows, cap).len(),
    ensures
        cap > 0,
        chunk_size(cut_by(whole, rows, cap)[k].push(cut_by(whole, rows, cap)[k + 1][0])) > cap,
    decreases rows.len(),
{
    lemma_chunk_more(whole, rows[0].key, rows.skip(1), cap, entry_size(rows[0]));
    let n = chunk_len(whole, rows, cap) as int;
    let tail = rows.skip(n);
    let rest = cut_by(whole, tail, cap);
    let all = cut_by(whole, rows, cap);
    assert(all == seq![rows.take(n)] + rest);
    if k == 0 {
        lemma_more_full(whole, rows[0].key, rows.skip(1), cap, entry_size(rows[0]));
        lemma_chunk_more(whole, tail[0].key, tail.skip(1), cap, entry_size(tail[0]));
        assert(rest[0][0] == tail[0]);
        let c = rows.take(n).push(tail[0]);
        assert(c =~= rows.take(n + 1));
        assert(c[0] == rows[0]);
        assert(c.skip(1) =~= rows.skip(1).take(n));
    } else {
        assert(all[k] == rest[k - 1] && all[k + 1] == rest[k]);
        chunks_end_at_the_cap(whole, tail, cap, k - 1);
    }
}

proof fn lemma_more_fits(key: Seq<u8>, rows: Seq<EntryV>, cap: nat, size: nat)
    requires
        cap > 0,
    ensures
        ({
            let n = chunk_more(false, key, rows, cap, size);
            n > 0 ==> size + chunk_size(rows.take(n as int)) <= cap
        }),
    decreases rows.len(),
{
    let n = chunk_more(false, key, rows, cap, size);
    lemma_chunk_more(false, key, rows, cap, size);
    if n > 0 {
        let rest = rows.skip(1);
        lemma_more_fits(rows[0].key, rest, cap, size + entry_size(rows[0]));
        let front = rows.take(n as int);
        assert(front[0] == rows[0]);
        assert(front.skip(1) =~= rest.take(n - 1));
        if n == 1 {
            assert(chunk_size(front.skip(1)) == 0);
        }
    }
}

/// A chunk of the archive stays within the cap, unless it is a single row.
pub proof fn archive_chunks_stay_within_the_cap(rows: Seq<EntryV>, cap: nat, k: int)
    requires
        cap > 0,
        0 <= k < pieces(rows, cap).len(),
    ensures
        pieces(rows, cap)[k].len() == 1 || chunk_size(pieces(rows, cap)[k]) <= cap,
    decreases rows.len(),
{
    lemma_chunk_more(false, rows[0].key, rows.skip(1), cap, entry_size(rows[0]));
    let n = chunk_len(false, rows, cap) as int;
    let rest = pieces(rows.skip(n), cap);
    let all = pieces(rows, cap);
    assert(all == seq![rows.take(n)] + rest);
    if k == 0 {
        lemma_more_fits(rows[0].key, rows.skip(1), cap, entry_size(rows[0]));
        let c = rows.take(n);
        if n > 1 {
            assert(c[0] == rows[0]);
            assert(c.skip(1) =~= rows.skip(1).take(n - 1));
        }
    } else {
        assert(all[k] == rest[k - 1]);
        archive_chunks_stay_within_the_cap(rows.skip(n), cap, k - 1);
    }
}

// ---------------------------------------------------------------------------
// Order
/// The live rows before an archived row are those that stay of the rows that
/// came before it.
pub proof fn live_rows_before_are_counted<P: RetentionPolicy>(
    es: Seq<EntryV>,
    vs: Seq<Retention>,
    policy: &P,
    i: int,
)
    requires
        judged(es, vs, policy),
        0 <= i < es.len(),
        vs[run_at(es, i)] == Retention::Archive,
    ensures
        live_before(es, vs, rows_judged(es, vs, Retention::Archive, i as nat).len() as int)
            == rows_staying(es, vs, i as nat).len(),
    decreases es.len(),
{
    lemma_run_len(es, es[0].key);
    let n = head_run(es) as int;
    let rest = es.skip(n);
    let run = es.take(n);
    let a = rows_judged(es, vs, Retention::Archive, i as nat).len() as int;
    lemma_run_at(es, i);
    if i < n {
        lemma_judged_head(es, vs, policy, Retention::Archive, i as nat);
        lemma_staying_head(es, vs, i as nat);
        assert(a == i);
    } else {
        let m = (i - n) as nat;
        lemma_verdicts(rest, vs.skip(1), policy, m as int);
        live_rows_before_are_counted(rest, vs.skip(1), policy, m as int);
        lemma_judged_head(es, vs, policy, Retention::Archive, n as nat);
        lemma_judged_tail(es, vs, policy, Retention::Archive, m);
        lemma_staying_head(es, vs, n as nat);
        lemma_staying_tail(es, vs, policy, m);
        lemma_kept(run, n as nat);
    }
}

proof fn lemma_full_is(chunks: Seq<Seq<EntryV>>, m: nat, n: nat)
    requires
        n <= chunks.len(),
        forall|k: int| 0 <= k < n ==> (#[trigger] chunks[k]).len() > 0,
    ensures
        full_before(chunks, m, n) <= n,
        forall|k: int|
            0 <= k < n ==> (k < full_before(chunks, m, n) <==> #[trigger] flat(
                chunks,
                (k + 1) as nat,
            ).len() < m),
    decreases n,
{
    if n > 0 {
        lemma_full_is(chunks, m, (n - 1) as nat);
        let before = full_before(chunks, m, (n - 1) as nat);
        assert forall|k: int| 0 <= k < n implies (k < full_before(chunks, m, n)
            <==> #[trigger] flat(chunks, (k + 1) as nat).len() < m) by {
            if flat(chunks, n).len() < m {
                lemma_flat_shorter(chunks, (k + 1) as nat, n);
                if n > 1 {
                    lemma_flat_shorter(chunks, (n - 1) as nat, n);
                    assert(flat(chunks, ((n - 2) + 1) as nat).len() < m);
                }
            }
        }
    }
}

proof fn lemma_flat_shorter(chunks: Seq<Seq<EntryV>>, i: nat, j: nat)
    requires
        i <= j,
    ensures
        flat(chunks, i).len() <= flat(chunks, j).len(),
    decreases j,
{
    if i < j {
        lemma_flat_shorter(chunks, i, (j - 1) as nat);
    }
}

/// Identifiers come in the order in which chunks are published. A live chunk
/// comes before the archive where the archive is a single chunk, or where the
/// chunk was full, with a row behind it, before the archive's first one was;
/// and no identifier is left out.
pub proof fn identifiers_follow_publication<P: RetentionPolicy>(
    m: Merged,
    es: Seq<EntryV>,
    inputs: nat,
    vs: Seq<Retention>,
    policy: &P,
    target: nat,
    cap: nat,
    first: u64,
    k: int,
    i: int,
)
    requires
        merge_ok(m, es, inputs, vs, target, cap, first),
        judged(es, vs, policy),
        0 <= k < m.live@.len(),
        m.archives@.len() > 0,
    ensures
        ({
            let chunks = cut(live_rows(es, vs), cap);
            let acs = pieces(archived_rows(es, vs), cap);
            let behind = flat(chunks, (k + 1) as nat).len();
            &&& m.archives@.len() == 1 ==> m.live@[k].segment_id < m.archives@[0].archive_id
            &&& m.archives@.len() > 1 && 0 <= i < es.len() && vs[run_at(es, i)]
                == Retention::Archive && rows_judged(
                es,
                vs,
                Retention::Archive,
                i as nat,
            ).len() == acs[0].len() ==> (m.live@[k].segment_id < m.archives@[0].archive_id
                <==> behind < rows_staying(es, vs, i as nat).len())
            &&& m.live@[k].segment_id == first + k || m.live@[k].segment_id == first + k + 1
            &&& m.next_id == first + m.live@.len() + 1
        }),
{
    let chunks = cut(live_rows(es, vs), cap);
    let acs = pieces(archived_rows(es, vs), cap);
    let slot = archive_slot(es, vs, cap) as int;
    chunks_keep_rows(true, live_rows(es, vs), cap);
    chunks_keep_rows(false, archived_rows(es, vs), cap);
    assert(live_ok(m, k, chunks, target, live_id(first as int, k, slot, acs.len() as int)));
    assert(archive_ok(m, 0, acs, target, first + slot));
    if m.archives@.len() > 1 {
        assert(flat(acs, 1) =~= acs[0]) by {
            assert(flat(acs, 0) =~= seq![]);
        }
        let before = live_before(es, vs, acs[0].len() as int);
        lemma_full_is(chunks, before, chunks.len());
        assert(slot == full_before(chunks, before, chunks.len()));
        assert(k < slot <==> flat(chunks, (k + 1) as nat).len() < before);
        if 0 <= i < es.len() && vs[run_at(es, i)] == Retention::Archive && rows_judged(
            es,
            vs,
            Retention::Archive,
            i as nat,
        ).len() == acs[0].len() {
            live_rows_before_are_counted(es, vs, policy, i);
        }
    }
}

/// Of inputs that end in a failure, the last run is left out, and only it: what
/// is kept is the front of the rows, and all rows behind it have one key, which
/// the row before them does not have.
pub proof fn only_the_last_run_is_left_out(es: Seq<EntryV>, n: nat)
    requires
        n <= es.len(),
    ensures
        ({
            let k = run_start(es, n);
            &&& n > 0 ==> k < n
            &&& n == 0 ==> k == 0
            &&& forall|j: int| k <= j < n ==> (#[trigger] es[j]).key == es[n - 1].key
            &&& 0 < k < n ==> es[k - 1].key != es[k as int].key
            &&& whole_runs(es) == es.take(run_start(es, es.len()) as int)
        }),
    decreases n,
{
    if n > 1 {
        only_the_last_run_is_left_out(es, (n - 1) as nat);
    }
}

/// A row counts against the cap what it takes in a block of its own kind, with
/// no part of its key shared.
pub proof fn rows_count_what_they_take(e: EntryV)
    requires
        e.key.len() <= u16::MAX,
        e.value.len() <= u32::MAX,
    ensures
        entry_size(e) == entry_bytes(e, 0, e.replica_id.0 != 0).len(),
{
    lemma_entry_len(e, 0, e.replica_id.0 != 0);
}

/// The bytes of rows add up.
pub proof fn chunk_sizes_add_up(rows: Seq<EntryV>, e: EntryV)
    ensures
        chunk_size(seq![]) == 0,
        chunk_size(rows.push(e)) == chunk_size(rows) + e.key.len() + e.value.len() + (
        if e.replica_id.0 != 0 {
            25nat
        } else {
            17nat
        }),
    decreases rows.len(),
{
    let all = rows.push(e);
    if rows.len() == 0 {
        assert(all.skip(1) =~= seq![]);
        assert(chunk_size(all.skip(1)) == 0);
    } else {
        chunk_sizes_add_up(rows.skip(1), e);
        assert(all.skip(1) =~= rows.skip(1).push(e));
        assert(all[0] == rows[0]);
    }
}

} // verus!
