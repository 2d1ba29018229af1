//! What a merge keeps, and how it is cut into chunks.

use crate::codec::bytes_eq;
use crate::memtable::is_delete;
use crate::segment::entry::{entries_view, EntryV, SegmentEntry, FLAG_DELETE};
use vstd::prelude::*;

verus! {

/// The verdict on a key.
#[derive(Debug, Clone, Copy, PartialEq, Eq, Structural)]
pub enum Retention {
    Keep,
    Drop,
    Archive,
}

/// Which keys a compaction keeps.
pub trait RetentionPolicy {
    fn classify(&self, key: &[u8]) -> (r: Retention);
}

/// The policy may answer `v` for the key.
pub open spec fn answers_for<P: RetentionPolicy>(policy: &P, key: Seq<u8>, v: Retention) -> bool {
    exists|k: &[u8]| k@ == key && #[trigger] call_ensures(P::classify, (policy, k), v)
}

/// Keeps every key: only older rows and deletions leave.
pub struct KeepAll;

impl RetentionPolicy for KeepAll {
    fn classify(&self, _key: &[u8]) -> (r: Retention)
        ensures
            r == Retention::Keep,
    {
        Retention::Keep
    }
}

// ---------------------------------------------------------------------------
// Runs
/// How many leading entries have the key.
pub open spec fn run_len(es: Seq<EntryV>, key: Seq<u8>) -> nat
    decreases es.len(),
{
    if es.len() > 0 && es[0].key == key {
        1 + run_len(es.skip(1), key)
    } else {
        0
    }
}

pub proof fn lemma_run_len(es: Seq<EntryV>, key: Seq<u8>)
    ensures
        run_len(es, key) <= es.len(),
        forall|i: int| 0 <= i < run_len(es, key) ==> (#[trigger] es[i]).key == key,
        run_len(es, key) < es.len() ==> es[run_len(es, key) as int].key != key,
    decreases es.len(),
{
    if es.len() > 0 && es[0].key == key {
        let rest = es.skip(1);
        lemma_run_len(rest, key);
        assert forall|i: int| 0 <= i < run_len(es, key) implies (#[trigger] es[i]).key == key by {
            if i > 0 {
                assert(rest[i - 1] == es[i]);
            }
        }
    }
}

/// A leading run that another key, or the end, follows.
proof fn lemma_run_is(es: Seq<EntryV>, key: Seq<u8>, n: nat)
    requires
        n <= es.len(),
        forall|i: int| 0 <= i < n ==> (#[trigger] es[i]).key == key,
        n < es.len() ==> es[n as int].key != key,
    ensures
        run_len(es, key) == n,
{
    lemma_run_len(es, key);
    let m = run_len(es, key);
    if m < n {
        assert(es[m as int].key == key);
    } else if n < m {
        assert(es[n as int].key == key);
    }
}

/// An earlier entry of the run belongs to the same replica.
pub open spec fn outdated(run: Seq<EntryV>, k: int) -> bool {
    exists|j: int| 0 <= j < k && (#[trigger] run[j]).replica_id == run[k].replica_id
}

/// Of the first `n` entries of a run: the first of each replica.
pub open spec fn firsts(run: Seq<EntryV>, n: nat) -> Seq<EntryV>
    decreases n,
{
    if n == 0 {
        seq![]
    } else {
        let before = firsts(run, (n - 1) as nat);
        if !outdated(run, n - 1) {
            before.push(run[n - 1])
        } else {
            before
        }
    }
}

/// The rows without the deletions at their end.
pub open spec fn without_tail(rows: Seq<EntryV>) -> Seq<EntryV>
    decreases rows.len(),
{
    if rows.len() > 0 && is_delete(rows.last()) {
        without_tail(rows.drop_last())
    } else {
        rows
    }
}

/// Of the first `n` entries of a run: the first of each replica. A deletion
/// stays only as long as an older row of the key stays, which it hides.
pub open spec fn newest_rows(run: Seq<EntryV>, n: nat) -> Seq<EntryV> {
    without_tail(firsts(run, n))
}

/// What is left is the front of the rows; what is gone are deletions.
pub proof fn lemma_without_tail(rows: Seq<EntryV>)
    ensures
        without_tail(rows).len() <= rows.len(),
        without_tail(rows) == rows.take(without_tail(rows).len() as int),
        forall|i: int| without_tail(rows).len() <= i < rows.len() ==> is_delete(#[trigger] rows[i]),
    decreases rows.len(),
{
    if rows.len() > 0 && is_delete(rows.last()) {
        let front = rows.drop_last();
        lemma_without_tail(front);
        let n = without_tail(front).len() as int;
        assert(front.take(n) =~= rows.take(n));
        assert forall|i: int| n <= i < rows.len() implies is_delete(#[trigger] rows[i]) by {
            if i < front.len() {
                assert(front[i] == rows[i]);
            }
        }
    } else {
        assert(rows.take(rows.len() as int) =~= rows);
    }
}

/// What one run adds to the live rows.
pub open spec fn run_live(run: Seq<EntryV>, v: Retention) -> Seq<EntryV> {
    if v == Retention::Keep {
        newest_rows(run, run.len())
    } else {
        seq![]
    }
}

/// What one run adds to the archived rows: all its versions.
pub open spec fn run_archived(run: Seq<EntryV>, v: Retention) -> Seq<EntryV> {
    if v == Retention::Archive {
        run
    } else {
        seq![]
    }
}

/// The leading run, which is never empty.
pub open spec fn head_run(es: Seq<EntryV>) -> nat {
    let n = run_len(es, es[0].key);
    if n == 0 {
        1
    } else {
        n
    }
}

/// The verdicts are what a policy answers, run by run.
pub open spec fn judged<P: RetentionPolicy>(es: Seq<EntryV>, vs: Seq<Retention>, policy: &P) -> bool
    decreases es.len(),
{
    if es.len() == 0 {
        vs.len() == 0
    } else {
        proof {
            lemma_run_len(es, es[0].key);
        }
        vs.len() > 0 && answers_for(policy, es[0].key, vs[0]) && judged(
            es.skip(head_run(es) as int),
            vs.skip(1),
            policy,
        )
    }
}

/// The rows that stay in the live key space, by the verdict on each run.
pub open spec fn live_rows(es: Seq<EntryV>, vs: Seq<Retention>) -> Seq<EntryV>
    decreases es.len(),
{
    if es.len() == 0 {
        seq![]
    } else {
        proof {
            lemma_run_len(es, es[0].key);
        }
        let n = head_run(es) as int;
        run_live(es.take(n), vs[0]) + live_rows(es.skip(n), vs.skip(1))
    }
}

/// The rows that go to the archive.
pub open spec fn archived_rows(es: Seq<EntryV>, vs: Seq<Retention>) -> Seq<EntryV>
    decreases es.len(),
{
    if es.len() == 0 {
        seq![]
    } else {
        proof {
            lemma_run_len(es, es[0].key);
        }
        let n = head_run(es) as int;
        run_archived(es.take(n), vs[0]) + archived_rows(es.skip(n), vs.skip(1))
    }
}

/// How many live rows come before archived row `a`.
pub open spec fn live_before(es: Seq<EntryV>, vs: Seq<Retention>, a: int) -> nat
    decreases es.len(),
{
    if es.len() == 0 {
        0
    } else {
        proof {
            lemma_run_len(es, es[0].key);
        }
        let n = head_run(es) as int;
        let v = vs[0];
        let here = run_archived(es.take(n), v).len();
        if a < here {
            0
        } else {
            run_live(es.take(n), v).len() + live_before(es.skip(n), vs.skip(1), a - here)
        }
    }
}

/// The rows of a merge by where they go, with the verdicts that were given;
/// `before[a]` counts the live rows ahead of archived row `a`.
pub struct Verdicts {
    pub given: Vec<Retention>,
    pub live: Vec<SegmentEntry>,
    pub archived: Vec<SegmentEntry>,
    pub before: Vec<usize>,
}

/// Whether an entry of `es[from..k]` belongs to the replica of `es[k]`.
fn outdated_in(es: &Vec<SegmentEntry>, from: usize, k: usize) -> (r: bool)
    requires
        from <= k < es@.len(),
    ensures
        r == exists|j: int|
            from <= j < k && (#[trigger] entries_view(es@)[j]).replica_id == entries_view(
                es@,
            )[k as int].replica_id,
{
    let ghost v = entries_view(es@);
    let mut j: usize = from;
    while j < k
        invariant
            from <= j <= k < es@.len(),
            v == entries_view(es@),
            forall|i: int|
                from <= i < j ==> (#[trigger] v[i]).replica_id != v[k as int].replica_id,
        decreases k - j,
    {
        assert(v[j as int] == es@[j as int]@);
        assert(v[k as int] == es@[k as int]@);
        if es[j].replica_id.0 == es[k].replica_id.0 {
            return true;
        }
        j += 1;
    }
    false
}

/// Appends the newest rows of the run `es[i..j]`.
fn push_newest(out: &mut Vec<SegmentEntry>, es: &Vec<SegmentEntry>, i: usize, j: usize)
    requires
        i <= j <= es@.len(),
    ensures
        entries_view(final(out)@) == entries_view(old(out)@) + newest_rows(
            entries_view(es@).subrange(i as int, j as int),
            (j - i) as nat,
        ),
{
    let ghost run = entries_view(es@).subrange(i as int, j as int);
    let ghost start = entries_view(out@);
    let from = out.len();
    let mut k: usize = i;
    assert(start + firsts(run, 0) =~= start);
    while k < j
        invariant
            i <= k <= j <= es@.len(),
            run == entries_view(es@).subrange(i as int, j as int),
            start.len() == from,
            entries_view(out@) == start + firsts(run, (k - i) as nat),
        decreases j - k,
    {
        let old_version = outdated_in(es, i, k);
        proof {
            let v = entries_view(es@);
            assert(run[k - i] == es@[k as int]@);
            assert(v[k as int] == run[k - i]);
            if old_version {
                let x = choose|x: int|
                    i <= x < k && (#[trigger] v[x]).replica_id == v[k as int].replica_id;
                assert(run[x - i] == v[x]);
                assert(outdated(run, k - i));
            } else {
                if outdated(run, k - i) {
                    let x = choose|x: int|
                        0 <= x < k - i && (#[trigger] run[x]).replica_id == run[k - i].replica_id;
                    assert(v[x + i] == run[x]);
                }
            }
        }
        let ghost before = entries_view(out@);
        if !old_version {
            let e = es[k].duplicate();
            let ghost ev = e@;
            out.push(e);
            assert(entries_view(out@) =~= before.push(ev));
            assert(before.push(ev) =~= start + firsts(run, (k - i) as nat).push(ev));
        }
        k += 1;
    }
    let ghost all = firsts(run, (j - i) as nat);
    let ghost mut kept = all;
    while out.len() > from && out[out.len() - 1].flags & FLAG_DELETE != 0
        invariant
            start.len() == from,
            from <= out@.len(),
            entries_view(out@) == start + kept,
            without_tail(all) == without_tail(kept),
        decreases out@.len(),
    {
        let ghost v = entries_view(out@);
        proof {
            assert(v.len() == out@.len());
            assert(v.last() == out@[out@.len() - 1]@);
            assert(kept.last() == v.last());
        }
        out.pop();
        proof {
            assert(entries_view(out@) =~= v.drop_last());
            assert(v.drop_last() =~= start + kept.drop_last());
            kept = kept.drop_last();
        }
    }
    proof {
        let v = entries_view(out@);
        assert(v.len() == out@.len());
        if kept.len() > 0 {
            assert(kept.last() == v.last());
            assert(v.last() == out@[out@.len() - 1]@);
        }
    }
}

/// Sorts the rows of a merge by the verdict on their keys, which it asks once
/// for each run.
pub fn sort_out<P: RetentionPolicy>(es: &Vec<SegmentEntry>, policy: &P) -> (r: Verdicts)
    ensures
        judged(entries_view(es@), r.given@, policy),
        entries_view(r.live@) == live_rows(entries_view(es@), r.given@),
        entries_view(r.archived@) == archived_rows(entries_view(es@), r.given@),
        r.before@.len() == r.archived@.len(),
        forall|a: int|
            0 <= a < r.before@.len() ==> (#[trigger] r.before@[a]) == live_before(
                entries_view(es@),
                r.given@,
                a,
            ),
{
    let given = ask_policy(es, policy);
    proof {
        lemma_judged_len(entries_view(es@), given@, policy);
    }
    sort_by(es, given)
}

/// The verdict on each run.
fn ask_policy<P: RetentionPolicy>(es: &Vec<SegmentEntry>, policy: &P) -> (r: Vec<Retention>)
    ensures
        judged(entries_view(es@), r@, policy),
{
    let ghost v = entries_view(es@);
    let mut given: Vec<Retention> = Vec::new();
    let mut i: usize = 0;
    proof {
        assert(v.skip(0) =~= v);
        assert forall|more: Seq<Retention>| judged(v.skip(0), more, policy) implies #[trigger] judged(
            v,
            given@ + more,
            policy,
        ) by {
            assert(given@ + more =~= more);
        }
    }
    while i < es.len()
        invariant
            i <= es@.len(),
            v == entries_view(es@),
            forall|more: Seq<Retention>|
                judged(v.skip(i as int), more, policy) ==> #[trigger] judged(
                    v,
                    given@ + more,
                    policy,
                ),
        decreases es@.len() - i,
    {
        let ghost rest = v.skip(i as int);
        let ghost g0 = given@;
        assert(rest[0] == es@[i as int]@);
        let j = run_end(es, i);
        let key: &[u8] = es[i].key.as_slice();
        let verdict = policy.classify(key);
        given.push(verdict);
        proof {
            assert(call_ensures(P::classify, (policy, key), verdict));
            assert(answers_for(policy, rest[0].key, verdict));
            assert(rest.skip((j - i) as int) =~= v.skip(j as int));
            assert forall|more: Seq<Retention>| judged(
                v.skip(j as int),
                more,
                policy,
            ) implies #[trigger] judged(v, given@ + more, policy) by {
                let all = seq![verdict] + more;
                assert(all.skip(1) =~= more);
                assert(judged(rest, all, policy));
                assert(g0 + all =~= given@ + more);
            }
        }
        i = j;
    }
    proof {
        assert(v.skip(i as int) =~= Seq::<EntryV>::empty());
        assert(judged(v.skip(i as int), seq![], policy));
        assert(given@ + Seq::<Retention>::empty() =~= given@);
    }
    given
}

/// Where the run that begins at `i` ends.
fn run_end(es: &Vec<SegmentEntry>, i: usize) -> (r: usize)
    requires
        i < es@.len(),
    ensures
        i < r <= es@.len(),
        r - i == head_run(entries_view(es@).skip(i as int)),
        forall|x: int|
            0 <= x < r - i ==> (#[trigger] entries_view(es@).skip(i as int)[x]).key
                == entries_view(es@)[i as int].key,
{
    let ghost v = entries_view(es@);
    let ghost rest = v.skip(i as int);
    let ghost key = rest[0].key;
    let n = es.len();
    let mut j: usize = i + 1;
    assert(rest[0] == es@[i as int]@);
    while j < n && bytes_eq(es[j].key.as_slice(), es[i].key.as_slice())
        invariant
            i < j <= es@.len(),
            n == es@.len(),
            v == entries_view(es@),
            rest == v.skip(i as int),
            key == es@[i as int].key@,
            forall|x: int| 0 <= x < j - i ==> (#[trigger] rest[x]).key == key,
        decreases es@.len() - j,
    {
        assert(rest[j - i] == es@[j as int]@);
        j += 1;
    }
    proof {
        let m = (j - i) as nat;
        if j < es@.len() {
            assert(rest[m as int] == es@[j as int]@);
        }
        lemma_run_is(rest, key, m);
    }
    j
}

proof fn lemma_judged_len<P: RetentionPolicy>(es: Seq<EntryV>, vs: Seq<Retention>, policy: &P)
    requires
        judged(es, vs, policy),
    ensures
        vs.len() == runs(es),
    decreases es.len(),
{
    if es.len() > 0 {
        lemma_run_len(es, es[0].key);
        lemma_judged_len(es.skip(head_run(es) as int), vs.skip(1), policy);
    }
}

/// How many runs there are.
pub open spec fn runs(es: Seq<EntryV>) -> nat
    decreases es.len(),
{
    if es.len() == 0 {
        0
    } else {
        proof {
            lemma_run_len(es, es[0].key);
        }
        1 + runs(es.skip(head_run(es) as int))
    }
}

/// Sorts the rows of a merge by given verdicts, one for each run.
fn sort_by(es: &Vec<SegmentEntry>, given: Vec<Retention>) -> (r: Verdicts)
    requires
        given@.len() == runs(entries_view(es@)),
    ensures
        r.given == given,
        entries_view(r.live@) == live_rows(entries_view(es@), given@),
        entries_view(r.archived@) == archived_rows(entries_view(es@), given@),
        r.before@.len() == r.archived@.len(),
        forall|a: int|
            0 <= a < r.before@.len() ==> (#[trigger] r.before@[a]) == live_before(
                entries_view(es@),
                given@,
                a,
            ),
{
    let ghost v = entries_view(es@);
    let ghost g = given@;
    let mut live: Vec<SegmentEntry> = Vec::new();
    let mut archived: Vec<SegmentEntry> = Vec::new();
    let mut before: Vec<usize> = Vec::new();
    let mut i: usize = 0;
    let mut k: usize = 0;
    proof {
        assert(v.skip(0) =~= v);
        assert(g.skip(0) =~= g);
        assert(entries_view(live@) =~= Seq::<EntryV>::empty());
        assert(entries_view(archived@) =~= Seq::<EntryV>::empty());
        assert(entries_view(live@) + live_rows(v, g) =~= live_rows(v, g));
        assert(entries_view(archived@) + archived_rows(v, g) =~= archived_rows(v, g));
    }
    while i < es.len()
        invariant
            i <= es@.len(),
            k <= given@.len(),
            v == entries_view(es@),
            g == given@,
            g.skip(k as int).len() == runs(v.skip(i as int)),
            entries_view(live@) + live_rows(v.skip(i as int), g.skip(k as int)) == live_rows(v, g),
            entries_view(archived@) + archived_rows(v.skip(i as int), g.skip(k as int))
                == archived_rows(v, g),
            before@.len() == archived@.len(),
            forall|a: int|
                0 <= a < before@.len() ==> (#[trigger] before@[a]) == live_before(v, g, a),
            forall|a: int|
                archived@.len() <= a ==> #[trigger] live_before(v, g, a) == live@.len()
                    + live_before(v.skip(i as int), g.skip(k as int), a - archived@.len()),
        decreases es@.len() - i,
    {
        let ghost rest = v.skip(i as int);
        let ghost left = g.skip(k as int);
        assert(rest[0] == es@[i as int]@);
        let j = run_end(es, i);
        let ghost n = (j - i) as nat;
        proof {
            lemma_run_len(rest, rest[0].key);
            assert(rest.take(n as int) =~= v.subrange(i as int, j as int));
            assert(rest.skip(n as int) =~= v.skip(j as int));
            assert(left.skip(1) =~= g.skip(k + 1));
        }
        let ghost run = rest.take(n as int);
        let count = given.len();
        let verdict = given[k];
        assert(left[0] == verdict);
        let ghost l0 = entries_view(live@);
        let ghost a0 = entries_view(archived@);
        let ghost arch0 = archived@.len();
        let ghost live0 = live@.len();
        match verdict {
            Retention::Keep => {
                push_newest(&mut live, es, i, j);
                assert(a0 + run_archived(run, verdict) =~= a0);
            },
            Retention::Drop => {
                assert(a0 + run_archived(run, verdict) =~= a0);
                assert(l0 + run_live(run, verdict) =~= l0);
            },
            Retention::Archive => {
                let mut x: usize = i;
                assert(a0 + run.take(0) =~= a0);
                while x < j
                    invariant
                        i <= x <= j <= es@.len(),
                        v == entries_view(es@),
                        run == v.subrange(i as int, j as int),
                        entries_view(archived@) == a0 + run.take(x - i),
                        archived@.len() == arch0 + (x - i),
                        before@.len() == archived@.len(),
                        live@.len() == live0,
                        forall|a: int|
                            0 <= a < arch0 ==> (#[trigger] before@[a]) == live_before(v, g, a),
                        forall|a: int|
                            arch0 <= a < before@.len() ==> (#[trigger] before@[a]) == live0,
                    decreases j - x,
                {
                    let ghost now = entries_view(archived@);
                    let e = es[x].duplicate();
                    let ghost ev = e@;
                    archived.push(e);
                    before.push(live.len());
                    assert(entries_view(archived@) =~= now.push(ev));
                    assert(run[x - i] == ev);
                    assert(a0 + run.take(x - i + 1) =~= now.push(ev));
                    x += 1;
                }
                assert(run.take((j - i) as int) =~= run);
                assert(l0 + run_live(run, verdict) =~= l0);
            },
        }
        proof {
            let here = run_archived(run, verdict).len();
            assert(entries_view(live@) == l0 + run_live(run, verdict));
            assert(entries_view(archived@) == a0 + run_archived(run, verdict));
            assert(entries_view(live@).len() == live@.len() && l0.len() == live0);
            assert(live@.len() == live0 + run_live(run, verdict).len());
            assert(archived@.len() == arch0 + here);
            assert(entries_view(live@) + live_rows(v.skip(j as int), g.skip(k + 1)) =~= l0
                + live_rows(rest, left));
            assert(entries_view(archived@) + archived_rows(v.skip(j as int), g.skip(k + 1)) =~= a0
                + archived_rows(rest, left));
            assert forall|a: int| 0 <= a < before@.len() implies (#[trigger] before@[a])
                == live_before(v, g, a) by {
                if a >= arch0 {
                    assert(live_before(v, g, a) == live0 + live_before(rest, left, a - arch0));
                }
            }
            assert forall|a: int| archived@.len() <= a implies #[trigger] live_before(v, g, a)
                == live@.len() + live_before(v.skip(j as int), g.skip(k + 1), a - archived@.len()) by {
                assert(live_before(v, g, a) == live0 + live_before(rest, left, a - arch0));
            }
        }
        assert(k < count);
        i = j;
        k += 1;
    }
    proof {
        assert(v.skip(i as int) =~= Seq::<EntryV>::empty());
        assert(entries_view(live@) + live_rows(v.skip(i as int), g.skip(k as int)) =~= entries_view(
            live@,
        ));
        assert(entries_view(archived@) + archived_rows(v.skip(i as int), g.skip(k as int))
            =~= entries_view(archived@));
    }
    Verdicts { given, live, archived, before }
}

// ---------------------------------------------------------------------------
// Chunks
/// The bytes that a row counts against the cap: what it takes on disk beside
/// rows of its own kind, with no prefix shared. In a chunk that keeps replicas
/// a row of no replica takes eight bytes more than it counts.
pub open spec fn entry_size(e: EntryV) -> nat {
    e.key.len() + e.value.len() + (if e.replica_id.0 != 0 {
        25nat
    } else {
        17nat
    })
}

/// The current chunk, of `size` bytes and with `key` last, is full before
/// `row`. Where the runs are kept whole, rows of one key stay together.
pub open spec fn is_full(whole: bool, key: Seq<u8>, row: EntryV, cap: nat, size: nat) -> bool {
    cap > 0 && size + entry_size(row) > cap && !(whole && row.key == key)
}

/// How many leading rows the current chunk takes, when it holds `size` bytes
/// already and `key` is its last key. With a cap of 0 it takes all.
pub open spec fn chunk_more(whole: bool, key: Seq<u8>, rows: Seq<EntryV>, cap: nat, size: nat) -> nat
    decreases rows.len(),
{
    if rows.len() == 0 || is_full(whole, key, rows[0], cap, size) {
        0
    } else {
        1 + chunk_more(whole, rows[0].key, rows.skip(1), cap, size + entry_size(rows[0]))
    }
}

/// How many leading rows make one chunk.
pub open spec fn chunk_len(whole: bool, rows: Seq<EntryV>, cap: nat) -> nat {
    1 + chunk_more(whole, rows[0].key, rows.skip(1), cap, entry_size(rows[0]))
}

/// Rows cut into chunks, with runs kept whole or not.
pub open spec fn cut_by(whole: bool, rows: Seq<EntryV>, cap: nat) -> Seq<Seq<EntryV>>
    decreases rows.len(),
{
    if rows.len() == 0 {
        seq![]
    } else {
        proof {
            lemma_chunk_more(whole, rows[0].key, rows.skip(1), cap, entry_size(rows[0]));
        }
        let n = chunk_len(whole, rows, cap);
        seq![rows.take(n as int)] + cut_by(whole, rows.skip(n as int), cap)
    }
}

/// Live rows cut into chunks: no key has rows in two.
pub open spec fn cut(rows: Seq<EntryV>, cap: nat) -> Seq<Seq<EntryV>> {
    cut_by(true, rows, cap)
}

/// The rows of an archive cut into chunks: the versions of a key may stand in
/// two.
pub open spec fn pieces(rows: Seq<EntryV>, cap: nat) -> Seq<Seq<EntryV>> {
    cut_by(false, rows, cap)
}

pub proof fn lemma_chunk_more(whole: bool, key: Seq<u8>, rows: Seq<EntryV>, cap: nat, size: nat)
    ensures
        chunk_more(whole, key, rows, cap, size) <= rows.len(),
    decreases rows.len(),
{
    if !(rows.len() == 0 || is_full(whole, key, rows[0], cap, size)) {
        lemma_chunk_more(whole, rows[0].key, rows.skip(1), cap, size + entry_size(rows[0]));
    }
}

/// The chunks end at `ends`.
pub open spec fn ends_at(ends: Seq<usize>, rows: Seq<EntryV>, chunks: Seq<Seq<EntryV>>) -> bool {
    &&& ends.len() == chunks.len()
    &&& forall|k: int| 0 <= k < chunks.len() ==> #[trigger] chunk_at(ends, rows, chunks, k)
    &&& ends.len() > 0 ==> ends.last() == rows.len()
    &&& ends.len() == 0 ==> rows.len() == 0
}

/// Where chunk `k` begins.
pub open spec fn begin_of(ends: Seq<usize>, k: int) -> int {
    if k == 0 {
        0
    } else {
        ends[k - 1] as int
    }
}

pub open spec fn chunk_at(
    ends: Seq<usize>,
    rows: Seq<EntryV>,
    chunks: Seq<Seq<EntryV>>,
    k: int,
) -> bool {
    &&& 0 <= begin_of(ends, k) < ends[k] <= rows.len()
    &&& chunks[k] == rows.subrange(begin_of(ends, k), ends[k] as int)
}

/// Where a chunk that begins at `i` ends.
fn chunk_end(rows: &Vec<SegmentEntry>, i: usize, cap: usize, whole: bool) -> (r: usize)
    requires
        i < rows@.len(),
    ensures
        i < r <= rows@.len(),
        r == i + chunk_len(whole, entries_view(rows@).skip(i as int), cap as nat),
{
    let ghost v = entries_view(rows@);
    let len = rows.len();
    let mut size: u128 = size_of_entry(&rows[i]);
    let mut j: usize = i + 1;
    let ghost mut total: nat = size as nat;
    let ghost want = chunk_len(whole, v.skip(i as int), cap as nat);
    proof {
        assert(v[i as int] == rows@[i as int]@);
        assert(v.skip(i as int)[0] == v[i as int]);
        assert(v.skip(i as int).skip(1) =~= v.skip(i + 1));
    }
    // Past the cap the exact size no longer matters.
    let most: u128 = cap as u128;
    while j < len
        invariant
            i < j <= rows@.len(),
            len == rows@.len(),
            v == entries_view(rows@),
            most == cap,
            0 < size < 0x8_0000_0000_0000_0000,
            size == total || (size > most && total > most),
            want == chunk_len(whole, v.skip(i as int), cap as nat),
            i + want == j + chunk_more(whole, v[j - 1].key, v.skip(j as int), cap as nat, total),
        decreases rows@.len() - j,
    {
        assert(v[j as int] == rows@[j as int]@);
        assert(v[j - 1] == rows@[j - 1]@);
        let more = size_of_entry(&rows[j]);
        proof {
            assert(v.skip(j as int)[0] == v[j as int]);
            assert(v.skip(j as int).skip(1) =~= v.skip(j + 1));
        }
        if cap > 0 && size + more > most && !(whole && bytes_eq(
            rows[j].key.as_slice(),
            rows[j - 1].key.as_slice(),
        )) {
            return j;
        }
        if size <= most {
            size = size + more;
        }
        proof {
            total = total + entry_size(v[j as int]);
        }
        j += 1;
    }
    assert(v.skip(j as int) =~= Seq::<EntryV>::empty());
    j
}

/// The bytes that a row counts against the cap.
fn size_of_entry(e: &SegmentEntry) -> (r: u128)
    ensures
        r == entry_size(e@),
        0 < r < 0x4_0000_0000_0000_0000,
{
    let fixed: u128 = if e.replica_id.0 != 0 {
        25
    } else {
        17
    };
    e.key.len() as u128 + e.value.len() as u128 + fixed
}

/// Where the chunks end.
pub fn chunk_ends(rows: &Vec<SegmentEntry>, cap: usize, whole: bool) -> (r: Vec<usize>)
    ensures
        ends_at(r@, entries_view(rows@), cut_by(whole, entries_view(rows@), cap as nat)),
{
    let ghost v = entries_view(rows@);
    let ghost chunks = cut_by(whole, v, cap as nat);
    let mut ends: Vec<usize> = Vec::new();
    let mut i: usize = 0;
    assert(v.skip(0) =~= v);
    assert(chunks.take(0) + cut_by(whole, v, cap as nat) =~= chunks);
    while i < rows.len()
        invariant
            i <= rows@.len(),
            v == entries_view(rows@),
            chunks == cut_by(whole, v, cap as nat),
            ends@.len() <= chunks.len(),
            chunks == chunks.take(ends@.len() as int) + cut_by(whole, v.skip(i as int), cap as nat),
            forall|k: int| 0 <= k < ends@.len() ==> #[trigger] chunk_at(ends@, v, chunks, k),
            i == begin_of(ends@, ends@.len() as int),
        decreases rows@.len() - i,
    {
        let ghost rest = v.skip(i as int);
        let e = chunk_end(rows, i, cap, whole);
        let ghost before = ends@;
        let ghost n = e - i;
        proof {
            assert(n == chunk_len(whole, rest, cap as nat));
            assert(rest.take(n as int) =~= v.subrange(i as int, e as int));
            assert(rest.skip(n as int) =~= v.skip(e as int));
            let tail = cut_by(whole, rest, cap as nat);
            assert(tail == seq![rest.take(n as int)] + cut_by(whole, v.skip(e as int), cap as nat));
            assert(chunks.len() == before.len() + tail.len());
            assert(chunks[before.len() as int] == tail[0]);
        }
        ends.push(e);
        proof {
            assert forall|k: int| 0 <= k < ends@.len() implies #[trigger] chunk_at(
                ends@,
                v,
                chunks,
                k,
            ) by {
                if k < before.len() {
                    assert(chunk_at(before, v, chunks, k));
                    assert(ends@[k] == before[k]);
                    if k > 0 {
                        assert(ends@[k - 1] == before[k - 1]);
                    }
                } else {
                    assert(begin_of(ends@, k) == i);
                }
            }
            assert(chunks.take(ends@.len() as int) =~= chunks.take(before.len() as int).push(
                v.subrange(i as int, e as int),
            ));
            assert(chunks =~= chunks.take(ends@.len() as int) + cut_by(whole, v.skip(e as int), cap as nat));
        }
        i = e;
    }
    proof {
        assert(cut_by(whole, v.skip(i as int), cap as nat) =~= seq![]);
    }
    ends
}

} // verus!
