//! What a scan costs: every cursor takes up the blocks that it passes, each
//! once.

use crate::cache::CacheV;
use crate::db::batch_laws::{same_count, taken_up};
use crate::db::scan::prefix_end_of;
use crate::db::scan_pulls::{
    after_scan, all_rounds, first_pulls, least_head, pulled, pulls_start, round, rows_ahead, visited, PullsV,
};
use crate::segment::cached::{cache_after, stats_after};
use crate::segment::cached_scan::step_after;
use crate::segment::cursor::{
    lemma_scan_entry, past_end, scan_entry, scan_left, scan_load, scan_start, scan_step, Move, ScanV,
};
use crate::segment::open::SegV;
use crate::segment::read::{first_block, lemma_part_point, payload_at};
use crate::stats::ReadPathStats;
use vstd::prelude::*;

verus! {

proof fn lemma_no_cost(a: int)
    ensures
        same_count(a, a + 0),
{
    reveal(same_count);
}

proof fn lemma_load_cost(s: SegV, b: int, id: u64, cache: CacheV, st: ReadPathStats)
    ensures
        cache_after(cache, id, s, b).cap == cache.cap,
        ({
            let d = stats_after(st, cache, id, s, b);
            &&& d.lookups == st.lookups
            &&& d.memtable_hits == st.memtable_hits
            &&& d.segments_considered == st.segments_considered
            &&& d.segments_range_skipped == st.segments_range_skipped
            &&& d.segments_bloom_skipped == st.segments_bloom_skipped
            &&& d.segments_index_searched == st.segments_index_searched
            &&& payload_at(s, b) is Ok ==> same_count(
                taken_up(d, cache.cap),
                taken_up(st, cache.cap) + 1,
            )
        }),
{
    reveal(same_count);
}

/// One step of a cursor takes up the blocks that it passes, each once: none
/// where it goes on in the block at hand. It takes up no block whose first key
/// lies past the end. Lookups are not counted.
#[verifier::spinoff_prover]
#[verifier::rlimit(40)]
pub proof fn steps_take_up_what_they_pass(
    s: SegV,
    start: Seq<u8>,
    end: Option<Seq<u8>>,
    c: ScanV,
    id: u64,
    cache: CacheV,
    st: ReadPathStats,
)
    ensures
        ({
            let (item, c2) = scan_step(s, start, end, c);
            let (cache2, st2) = step_after(s, start, end, c, id, cache, st);
            &&& cache2.cap == cache.cap
            &&& st2.lookups == st.lookups
            &&& st2.memtable_hits == st.memtable_hits
            &&& st2.segments_considered == st.segments_considered
            &&& st2.segments_range_skipped == st.segments_range_skipped
            &&& st2.segments_bloom_skipped == st.segments_bloom_skipped
            &&& st2.segments_index_searched == st.segments_index_searched
            &&& c.block <= c2.block
            &&& c.block <= s.data.len() ==> c2.block <= s.data.len()
            &&& !(item matches Some(Err(_))) ==> same_count(
                taken_up(st2, cache.cap),
                taken_up(st, cache.cap) + (c2.block - c.block),
            )
            &&& forall|b: int|
                c.block <= b < c2.block ==> !past_end((#[trigger] s.data[b]).first, end)
            &&& item is None && !c2.done ==> c2.block < 0 || c2.block >= s.data.len() || past_end(
                s.data[c2.block].first,
                end,
            )
        }),
    decreases s.data.len() - c.block, scan_left(s, c),
{
    let st0 = taken_up(st, cache.cap);
    lemma_no_cost(st0);
    if c.done {
    } else {
        match c.loaded {
            None => match scan_load(s, start, end, c) {
                Ok(Some(c2)) => {
                    let cache1 = cache_after(cache, id, s, c.block);
                    let st1 = stats_after(st, cache, id, s, c.block);
                    steps_take_up_what_they_pass(s, start, end, c2, id, cache1, st1);
                    lemma_load_cost(s, c.block, id, cache, st);
                    let (item, c3) = scan_step(s, start, end, c);
                    if !(item matches Some(Err(_))) {
                        let st2 = step_after(s, start, end, c, id, cache, st).1;
                        lemma_same(
                            st0,
                            taken_up(st1, cache.cap),
                            taken_up(st2, cache.cap),
                            1,
                            c3.block - c2.block,
                        );
                    }
                },
                _ => {
                    lemma_load_cost(s, c.block, id, cache, st);
                },
            },
            Some(i) => {
                lemma_scan_entry(s, start, end, c, i);
                let st1 = st.entries_read(crate::segment::cached_scan::entry_cost(s, c, i));
                match scan_entry(s, start, end, c, i) {
                    Move::Give(_, _) => {},
                    Move::Go(c2) => {
                        steps_take_up_what_they_pass(s, start, end, c2, id, cache, st1);
                    },
                }
            },
        }
    }
}

/// The sum of the first `n` numbers of a sequence.
pub open spec fn sum(a: Seq<int>, n: nat) -> int
    decreases n,
{
    if n == 0 {
        0
    } else {
        sum(a, (n - 1) as nat) + a[n - 1]
    }
}

proof fn lemma_sum_update(a: Seq<int>, i: int, x: int, n: nat)
    requires
        n <= a.len(),
        0 <= i < a.len(),
    ensures
        sum(a.update(i, x), n) == sum(a, n) + (if i < n {
            x - a[i]
        } else {
            0
        }),
    decreases n,
{
    if n > 0 {
        lemma_sum_update(a, i, x, (n - 1) as nat);
    }
}

proof fn lemma_sum_zeros(a: Seq<int>, n: nat)
    requires
        n <= a.len(),
        forall|i: int| 0 <= i < n ==> #[trigger] a[i] == 0,
    ensures
        sum(a, n) == 0,
    decreases n,
{
    if n > 0 {
        lemma_sum_zeros(a, (n - 1) as nat);
        assert(a[n - 1] == 0);
    }
}

/// How many blocks every cursor of a scan has passed.
spec fn blocks_passed(p: PullsV, segs: Seq<SegV>, prefix: Seq<u8>) -> Seq<int> {
    Seq::new(segs.len(), |i: int| p.at[i].block - first_block(segs[i], prefix))
}

/// A cursor stands within its segment, and passed blocks of the range only.
pub open spec fn passes_only_the_range(s: SegV, prefix: Seq<u8>, n: int) -> bool {
    let first = first_block(s, prefix);
    &&& 0 <= n <= s.data.len() - first
    &&& forall|b: int|
        first <= b < first + n ==> !past_end((#[trigger] s.data[b]).first, prefix_end_of(prefix))
}

/// A scan has taken up the blocks that its cursors passed.
spec fn cost_so_far(
    p: PullsV,
    segs: Seq<SegV>,
    prefix: Seq<u8>,
    c: CacheV,
    st: ReadPathStats,
) -> bool {
    let a = blocks_passed(p, segs, prefix);
    &&& p.at.len() == segs.len()
    &&& p.heads.len() == segs.len()
    &&& p.cache.cap == c.cap
    &&& p.stats.lookups == st.lookups
    &&& p.stats.segments_considered == st.segments_considered
    &&& !p.failed ==> same_count(
        taken_up(p.stats, c.cap),
        taken_up(st, c.cap) + sum(a, segs.len()),
    )
    &&& forall|i: int| 0 <= i < segs.len() ==> passes_only_the_range(segs[i], prefix, #[trigger] a[i])
}

proof fn lemma_pulled_cost(
    p: PullsV,
    segs: Seq<SegV>,
    ids: Seq<u64>,
    prefix: Seq<u8>,
    i: int,
    c: CacheV,
    st: ReadPathStats,
)
    requires
        cost_so_far(p, segs, prefix, c, st),
        !p.failed,
        0 <= i < segs.len(),
    ensures
        cost_so_far(pulled(p, segs, ids, prefix, i), segs, prefix, c, st),
{
    let end = prefix_end_of(prefix);
    let q = pulled(p, segs, ids, prefix, i);
    let a = blocks_passed(p, segs, prefix);
    let b = blocks_passed(q, segs, prefix);
    let c2 = scan_step(segs[i], prefix, end, p.at[i]).1;
    steps_take_up_what_they_pass(segs[i], prefix, end, p.at[i], ids[i], p.cache, p.stats);
    assert(passes_only_the_range(segs[i], prefix, a[i]));
    assert(b =~= a.update(i, a[i] + c2.block - p.at[i].block));
    lemma_sum_update(a, i, a[i] + c2.block - p.at[i].block, segs.len());
    if !q.failed {
        lemma_same(
            taken_up(st, c.cap),
            taken_up(p.stats, c.cap),
            taken_up(q.stats, c.cap),
            sum(a, segs.len()),
            c2.block - p.at[i].block,
        );
    }
    assert forall|j: int| 0 <= j < segs.len() implies passes_only_the_range(
        segs[j],
        prefix,
        #[trigger] b[j],
    ) by {
        assert(passes_only_the_range(segs[j], prefix, a[j]));
    }
}

proof fn lemma_same(a: int, b: int, c: int, n: int, m: int)
    requires
        same_count(b, a + n),
        same_count(c, b + m),
    ensures
        same_count(c, a + (n + m)),
{
    reveal(same_count);
}

proof fn lemma_first_cost(
    p: PullsV,
    segs: Seq<SegV>,
    ids: Seq<u64>,
    prefix: Seq<u8>,
    n: nat,
    c: CacheV,
    st: ReadPathStats,
)
    requires
        cost_so_far(p, segs, prefix, c, st),
        n <= segs.len(),
    ensures
        cost_so_far(first_pulls(p, segs, ids, prefix, n), segs, prefix, c, st),
    decreases n,
{
    if n > 0 {
        lemma_first_cost(p, segs, ids, prefix, (n - 1) as nat, c, st);
        let q = first_pulls(p, segs, ids, prefix, (n - 1) as nat);
        if !q.failed {
            lemma_pulled_cost(q, segs, ids, prefix, n - 1, c, st);
        }
    }
}

proof fn lemma_round_cost(
    p: PullsV,
    segs: Seq<SegV>,
    ids: Seq<u64>,
    prefix: Seq<u8>,
    key: Seq<u8>,
    n: nat,
    c: CacheV,
    st: ReadPathStats,
)
    requires
        cost_so_far(p, segs, prefix, c, st),
        n <= segs.len(),
    ensures
        cost_so_far(round(p, segs, ids, prefix, key, n), segs, prefix, c, st),
    decreases n,
{
    if n > 0 && !p.failed {
        if p.heads[n - 1] == Some(key) {
            lemma_pulled_cost(p, segs, ids, prefix, n - 1, c, st);
        }
        let q = visited(p, segs, ids, prefix, key, n - 1);
        lemma_round_cost(q, segs, ids, prefix, key, (n - 1) as nat, c, st);
    }
}

proof fn lemma_rounds_cost(
    p: PullsV,
    segs: Seq<SegV>,
    ids: Seq<u64>,
    prefix: Seq<u8>,
    c: CacheV,
    st: ReadPathStats,
)
    requires
        cost_so_far(p, segs, prefix, c, st),
    ensures
        cost_so_far(all_rounds(p, segs, ids, prefix), segs, prefix, c, st),
    decreases rows_ahead(p, segs, prefix, segs.len()),
{
    if let Some(key) = least_head(p.heads, segs.len()) {
        lemma_round_cost(p, segs, ids, prefix, key, segs.len(), c, st);
        let q = round(p, segs, ids, prefix, key, segs.len());
        if !q.failed && rows_ahead(q, segs, prefix, segs.len()) < rows_ahead(
            p,
            segs,
            prefix,
            segs.len(),
        ) {
            lemma_rounds_cost(q, segs, ids, prefix, c, st);
        }
    }
}

/// A scan that does not fail takes up, of every segment, a run of blocks that
/// starts at the first that may hold the prefix, each once; none of them starts
/// past the prefix. It counts as no lookup and considers no segment.
pub proof fn scans_take_up_each_block_once(
    c: CacheV,
    st: ReadPathStats,
    ids: Seq<u64>,
    segs: Seq<SegV>,
    prefix: Seq<u8>,
) -> (passed: Seq<int>)
    ensures
        passed.len() == segs.len(),
        forall|i: int|
            0 <= i < segs.len() ==> passes_only_the_range(segs[i], prefix, #[trigger] passed[i]),
        after_scan(c, st, ids, segs, prefix).0.cap == c.cap,
        after_scan(c, st, ids, segs, prefix).1.lookups == st.lookups,
        after_scan(c, st, ids, segs, prefix).1.segments_considered == st.segments_considered,
        ({
            let p = first_pulls(pulls_start(segs, prefix, c, st), segs, ids, prefix, segs.len());
            !p.failed && !all_rounds(p, segs, ids, prefix).failed
        }) ==> same_count(
            taken_up(after_scan(c, st, ids, segs, prefix).1, c.cap),
            taken_up(st, c.cap) + sum(passed, segs.len()),
        ),
{
    let start = pulls_start(segs, prefix, c, st);
    let a = blocks_passed(start, segs, prefix);
    assert forall|i: int| 0 <= i < segs.len() implies passes_only_the_range(
        segs[i],
        prefix,
        #[trigger] a[i],
    ) by {
        lemma_part_point(segs[i].data, prefix, 0, segs[i].data.len() as int);
        assert(start.at[i] == scan_start(segs[i], prefix));
    }
    assert forall|i: int| 0 <= i < segs.len() implies #[trigger] a[i] == 0 by {
        assert(start.at[i] == scan_start(segs[i], prefix));
    }
    lemma_sum_zeros(a, segs.len());
    reveal(same_count);
    lemma_first_cost(start, segs, ids, prefix, segs.len(), c, st);
    let p = first_pulls(start, segs, ids, prefix, segs.len());
    if p.failed {
        blocks_passed(p, segs, prefix)
    } else {
        lemma_rounds_cost(p, segs, ids, prefix, c, st);
        blocks_passed(all_rounds(p, segs, ids, prefix), segs, prefix)
    }
}

} // verus!
