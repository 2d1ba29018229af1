//! What a batch of reads costs: how its keys are counted, which segments are
//! asked for which of them, and how often a block is taken up.

use crate::cache::CacheV;
use crate::db::many::{after_batch, asked_keys, batch_counts, is_first, many_counts, met_counts};
use crate::db::read::{mem_find, probe_of, seg_answer, Probe};
use crate::db::state::DbV;
use crate::format::ErrV;
use crate::segment::cached::{cache_after, raw_at};
use crate::segment::cached_many::{
    block_cost, goes_before, lemma_probes_exist, many_after, probe_list, probes_after, probes_of,
};
use crate::segment;
use crate::segment::entry::EntryV;
use crate::segment::read::{block_at, lemma_part_point, locate_of, seg_get};
use crate::segment::open::SegV;
use crate::stats::{add_counts, counts_zero, wraps, Counts, ReadPathStats};
use vstd::prelude::*;

verus! {

/// The key at position `i` does not stand at an earlier one.
pub open spec fn newly_named(keys: Seq<&[u8]>, i: int) -> bool {
    !exists|j: int| 0 <= j < i && (#[trigger] keys[j])@ == keys[i]@
}

/// No memtable has the key, and no segment newer than `m`.
pub open spec fn still_wanted(s: DbV, key: Seq<u8>, m: int) -> bool {
    mem_find(s, key, None) is None && forall|k: int|
        m < k < s.segments.len() ==> seg_answer(#[trigger] s.segments[k], key) == Ok::<
            Option<EntryV>,
            ErrV,
        >(None)
}

/// How many numbers from `lo` up to `hi` have a property.
pub open spec fn how_many(p: spec_fn(int) -> bool, lo: int, hi: int) -> nat
    decreases hi - lo,
{
    if hi <= lo {
        0
    } else {
        how_many(p, lo, hi - 1) + (if p(hi - 1) {
            1nat
        } else {
            0
        })
    }
}

/// How many of the segments from `lo` on meet the key at position `i` with an
/// outcome.
pub open spec fn outcomes(s: DbV, keys: Seq<&[u8]>, lo: int, want: Probe, i: int) -> nat {
    how_many(
        |m: int|
            newly_named(keys, i) && still_wanted(s, keys[i]@, m) && probe_of(
                s.segments[m],
                keys[i]@,
            ) == want,
        lo,
        s.segments.len() as int,
    )
}

/// The sum of the first `n` numbers.
pub open spec fn sum_of(f: spec_fn(int) -> nat, n: nat) -> nat
    decreases n,
{
    if n == 0 {
        0
    } else {
        sum_of(f, (n - 1) as nat) + f(n - 1)
    }
}

/// A counter of 64 bits after `n` more.
pub open spec fn counter(x: u64, n: nat) -> u64 {
    ((x + n) % 0x1_0000_0000_0000_0000) as u64
}

proof fn lemma_none(p: spec_fn(int) -> bool, lo: int, hi: int)
    requires
        forall|m: int| lo <= m < hi ==> !#[trigger] p(m),
    ensures
        how_many(p, lo, hi) == 0,
    decreases hi - lo,
{
    if hi > lo {
        lemma_none(p, lo, hi - 1);
        assert(!p(hi - 1));
    }
}

proof fn lemma_key_outcomes(s: DbV, keys: Seq<&[u8]>, lo: int, n: nat, i: int, want: Probe)
    requires
        0 <= lo <= s.segments.len(),
        n <= s.segments.len(),
        newly_named(keys, i),
        still_wanted(s, keys[i]@, n - 1),
    ensures
        ({
            let p = |m: int|
                newly_named(keys, i) && still_wanted(s, keys[i]@, m) && probe_of(
                    s.segments[m],
                    keys[i]@,
                ) == want;
            let c = met_counts(s.segments, n, lo, keys[i]@);
            how_many(p, lo, n as int) == (match want {
                Probe::OutOfRange => c.range_skipped,
                Probe::Denied => c.bloom_skipped,
                Probe::Search => c.searched,
            })
        }),
    decreases n,
{
    let key = keys[i]@;
    let p = |m: int|
        newly_named(keys, i) && still_wanted(s, keys[i]@, m) && probe_of(s.segments[m], keys[i]@)
            == want;
    if n > lo {
        assert(p(n - 1) == (probe_of(s.segments[n - 1], key) == want));
        if seg_answer(s.segments[n - 1], key) == Ok::<Option<EntryV>, ErrV>(None) {
            assert(still_wanted(s, key, n - 2));
            lemma_key_outcomes(s, keys, lo, (n - 1) as nat, i, want);
        } else {
            assert forall|m: int| lo <= m < n - 1 implies !#[trigger] p(m) by {
                assert(seg_answer(s.segments[n - 1], key) != Ok::<Option<EntryV>, ErrV>(None));
            }
            lemma_none(p, lo, n - 1);
        }
    }
}

proof fn lemma_outcomes(s: DbV, keys: Seq<&[u8]>, lo: int, i: int, want: Probe)
    requires
        0 <= lo <= s.segments.len(),
    ensures
        outcomes(s, keys, lo, want, i) == (if newly_named(keys, i) && mem_find(s, keys[i]@, None)
            is None {
            let c = met_counts(s.segments, s.segments.len(), lo, keys[i]@);
            match want {
                Probe::OutOfRange => c.range_skipped,
                Probe::Denied => c.bloom_skipped,
                Probe::Search => c.searched,
            }
        } else {
            0
        }),
{
    let p = |m: int|
        newly_named(keys, i) && still_wanted(s, keys[i]@, m) && probe_of(s.segments[m], keys[i]@)
            == want;
    if newly_named(keys, i) && mem_find(s, keys[i]@, None) is None {
        lemma_key_outcomes(s, keys, lo, s.segments.len(), i, want);
    } else {
        lemma_none(p, lo, s.segments.len() as int);
    }
}

proof fn lemma_counter(x: u64, a: nat, b: nat)
    ensures
        wraps(wraps(x, a), b) == wraps(x, a + b),
        wraps(x, 0) == x,
{
}

proof fn lemma_counted_twice(st: ReadPathStats, a: nat, b: nat, c: Counts, d: nat, e: nat, f: Counts)
    ensures
        st.looked_up(a, b, c).looked_up(d, e, f) == st.looked_up(a + d, b + e, add_counts(c, f)),
        st.looked_up(0, 0, counts_zero()) == st,
{
    lemma_counter(st.lookups, a, d);
    lemma_counter(st.memtable_hits, b, e);
    lemma_counter(st.segments_considered, c.considered, f.considered);
    lemma_counter(st.segments_range_skipped, c.range_skipped, f.range_skipped);
    lemma_counter(st.segments_bloom_skipped, c.bloom_skipped, f.bloom_skipped);
    lemma_counter(st.segments_index_searched, c.searched, f.searched);
}

/// The counts of the first `n` keys.
spec fn key_totals(s: DbV, keys: Seq<&[u8]>, n: nat, lo: int) -> Counts {
    Counts {
        considered: 0,
        range_skipped: sum_of(|i: int| outcomes(s, keys, lo, Probe::OutOfRange, i), n),
        bloom_skipped: sum_of(|i: int| outcomes(s, keys, lo, Probe::Denied, i), n),
        searched: sum_of(|i: int| outcomes(s, keys, lo, Probe::Search, i), n),
    }
}

proof fn lemma_key_totals(s: DbV, keys: Seq<&[u8]>, n: nat, lo: int)
    requires
        0 < n <= keys.len(),
        0 <= lo <= s.segments.len(),
    ensures
        key_totals(s, keys, n, lo) == add_counts(
            key_totals(s, keys, (n - 1) as nat, lo),
            if newly_named(keys, n - 1) && mem_find(s, keys[n - 1]@, None) is None {
                Counts {
                    considered: 0,
                    ..met_counts(s.segments, s.segments.len(), lo, keys[n - 1]@)
                }
            } else {
                counts_zero()
            },
        ),
{
    lemma_outcomes(s, keys, lo, n - 1, Probe::OutOfRange);
    lemma_outcomes(s, keys, lo, n - 1, Probe::Denied);
    lemma_outcomes(s, keys, lo, n - 1, Probe::Search);
}

proof fn lemma_keys_counted(st: ReadPathStats, s: DbV, keys: Seq<&[u8]>, n: nat, lo: int)
    requires
        n <= keys.len(),
        0 <= lo <= s.segments.len(),
    ensures
        many_counts(st, s, keys, n, lo) == st.looked_up(
            how_many(|i: int| newly_named(keys, i), 0, n as int),
            how_many(
                |i: int| newly_named(keys, i) && mem_find(s, keys[i]@, None) is Some,
                0,
                n as int,
            ),
            key_totals(s, keys, n, lo),
        ),
    decreases n,
{
    let named = |i: int| newly_named(keys, i);
    let held = |i: int| newly_named(keys, i) && mem_find(s, keys[i]@, None) is Some;
    if n == 0 {
        lemma_counted_twice(st, 0, 0, counts_zero(), 0, 0, counts_zero());
        assert(key_totals(s, keys, 0, lo) == counts_zero());
    } else {
        let i = n - 1;
        lemma_keys_counted(st, s, keys, i as nat, lo);
        lemma_key_totals(s, keys, n, lo);
        assert(newly_named(keys, i) == is_first(keys, i));
        let a = how_many(named, 0, i);
        let b = how_many(held, 0, i);
        let t = key_totals(s, keys, i as nat, lo);
        let here = if mem_find(s, keys[i]@, None) is None {
            Counts { considered: 0, ..met_counts(s.segments, s.segments.len(), lo, keys[i]@) }
        } else {
            counts_zero()
        };
        let hit: nat = if mem_find(s, keys[i]@, None) is None {
            0
        } else {
            1
        };
        if is_first(keys, i) {
            lemma_counted_twice(st, a, b, t, 1, hit, here);
            assert(how_many(named, 0, n as int) == a + 1);
            assert(how_many(held, 0, n as int) == b + hit);
        } else {
            assert(add_counts(t, counts_zero()) == t);
            assert(how_many(named, 0, n as int) == a);
            assert(how_many(held, 0, n as int) == b);
        }
    }
}

/// A batch counts every key once, however often it is named: one lookup; one
/// hit where a memtable has it; else one outcome for each segment that it
/// meets, newest first, until one answers. Each segment is considered once for
/// the whole batch. No other counter moves by this.
pub proof fn batches_count_each_key_once(
    st: ReadPathStats,
    s: DbV,
    keys: Seq<&[u8]>,
    lo: int,
)
    requires
        0 <= lo <= s.segments.len(),
    ensures
        batch_counts(st, s, keys, lo) == (ReadPathStats {
            lookups: counter(
                st.lookups,
                how_many(|i: int| newly_named(keys, i), 0, keys.len() as int),
            ),
            memtable_hits: counter(
                st.memtable_hits,
                how_many(
                    |i: int| newly_named(keys, i) && mem_find(s, keys[i]@, None) is Some,
                    0,
                    keys.len() as int,
                ),
            ),
            segments_considered: counter(
                st.segments_considered,
                (s.segments.len() - lo) as nat,
            ),
            segments_range_skipped: counter(
                st.segments_range_skipped,
                sum_of(|i: int| outcomes(s, keys, lo, Probe::OutOfRange, i), keys.len()),
            ),
            segments_bloom_skipped: counter(
                st.segments_bloom_skipped,
                sum_of(|i: int| outcomes(s, keys, lo, Probe::Denied, i), keys.len()),
            ),
            segments_index_searched: counter(
                st.segments_index_searched,
                sum_of(|i: int| outcomes(s, keys, lo, Probe::Search, i), keys.len()),
            ),
            ..st
        }),
{
    lemma_keys_counted(st, s, keys, keys.len(), lo);
    let t = key_totals(s, keys, keys.len(), lo);
    let a = how_many(|i: int| newly_named(keys, i), 0, keys.len() as int);
    let b = how_many(
        |i: int| newly_named(keys, i) && mem_find(s, keys[i]@, None) is Some,
        0,
        keys.len() as int,
    );
    let met = Counts { considered: (s.segments.len() - lo) as nat, ..counts_zero() };
    lemma_counted_twice(st, a, b, t, 0, 0, met);
}

/// A segment is asked for exactly the keys that are still wanted when it is
/// met and that it may hold; for none twice.
pub proof fn segments_are_asked_for_wanted_keys(s: DbV, keys: Seq<&[u8]>, m: int, n: nat)
    requires
        n <= keys.len(),
        0 <= m < s.segments.len(),
    ensures
        asked_keys(s, keys, m + 1, n).no_duplicates(),
        forall|key: Seq<u8>| #[trigger]
            asked_keys(s, keys, m + 1, n).contains(key) <==> still_wanted(s, key, m) && probe_of(
                s.segments[m],
                key,
            ) == Probe::Search && exists|i: int| 0 <= i < n && (#[trigger] keys[i])@ == key,
    decreases n,
{
    let all = asked_keys(s, keys, m + 1, n);
    if n > 0 {
        segments_are_asked_for_wanted_keys(s, keys, m, (n - 1) as nat);
        let front = asked_keys(s, keys, m + 1, (n - 1) as nat);
        let last = keys[n - 1]@;
        let asks = crate::db::many::asks(s, keys, m + 1, n - 1);
        assert(asks == (newly_named(keys, n - 1) && still_wanted(s, last, m) && probe_of(
            s.segments[m],
            last,
        ) == Probe::Search));
        if asks {
            assert(!front.contains(last));
            assert(all =~= front.push(last));
        }
        assert forall|key: Seq<u8>| #[trigger] all.contains(key) <==> still_wanted(s, key, m)
            && probe_of(s.segments[m], key) == Probe::Search && exists|i: int|
            0 <= i < n && (#[trigger] keys[i])@ == key by {
            if asks {
                assert(all.contains(key) <==> front.contains(key) || key == last) by {
                    if front.contains(key) {
                        let k = front.index_of(key);
                        assert(all[k] == key);
                    }
                    if key == last {
                        assert(all[all.len() - 1] == key);
                    }
                }
            }
            if exists|i: int| 0 <= i < n && (#[trigger] keys[i])@ == key {
                let i = choose|i: int| 0 <= i < n && (#[trigger] keys[i])@ == key;
                if i == n - 1 && !newly_named(keys, i) {
                    let j = choose|j: int| 0 <= j < i && (#[trigger] keys[j])@ == keys[i]@;
                    assert(keys[j]@ == key);
                }
            }
        }
    }
}

// ---------------------------------------------------------------------------
// Blocks
/// Block `b` may hold one of the keys.
pub open spec fn may_answer(s: SegV, ks: Seq<Seq<u8>>, b: int) -> bool {
    exists|k: int| 0 <= k < ks.len() && locate_of(s, #[trigger] ks[k]) == Some(b)
}

/// How many blocks may hold one of the keys.
pub open spec fn blocks_for(s: SegV, ks: Seq<Seq<u8>>) -> nat {
    how_many(|b: int| may_answer(s, ks, b), 0, s.data.len() as int)
}

/// How often blocks were taken up: asked of the cache, or loaded where there is
/// none.
pub open spec fn taken_up(st: ReadPathStats, cap: usize) -> int {
    if cap == 0 {
        st.blocks_read as int
    } else {
        st.block_cache_hits + st.block_cache_misses
    }
}

/// Two numbers are the same to a counter of 64 bits.
#[verifier::opaque]
pub open spec fn same_count(a: int, b: int) -> bool {
    a % 0x1_0000_0000_0000_0000 == b % 0x1_0000_0000_0000_0000
}

proof fn lemma_same_count(a: int, b: int, c: int, n: int)
    ensures
        same_count(a, a),
        same_count(b, a + n) && same_count(c, b + 1) ==> same_count(c, a + n + 1),
{
    reveal(same_count);
}

proof fn lemma_same_sum(a: int, b: int, c: int, n: int, m: int)
    requires
        same_count(b, a + n),
        same_count(c, b + m),
    ensures
        same_count(c, a + n + m),
{
    reveal(same_count);
}

proof fn lemma_one_more(p: spec_fn(int) -> bool, q: spec_fn(int) -> bool, x: int, lo: int, hi: int)
    requires
        !p(x),
        forall|m: int| lo <= m < hi ==> #[trigger] q(m) == (p(m) || m == x),
    ensures
        how_many(q, lo, hi) == how_many(p, lo, hi) + (if lo <= x < hi {
            1nat
        } else {
            0
        }),
    decreases hi - lo,
{
    if hi > lo {
        lemma_one_more(p, q, x, lo, hi - 1);
        assert(q(hi - 1) == (p(hi - 1) || hi - 1 == x));
    }
}

proof fn lemma_as_many(p: spec_fn(int) -> bool, q: spec_fn(int) -> bool, lo: int, hi: int)
    requires
        forall|m: int| lo <= m < hi ==> #[trigger] q(m) == p(m),
    ensures
        how_many(q, lo, hi) == how_many(p, lo, hi),
    decreases hi - lo,
{
    if hi > lo {
        lemma_as_many(p, q, lo, hi - 1);
        assert(q(hi - 1) == p(hi - 1));
    }
}

/// Block `b` is among the first `n` lookups.
spec fn looked_in(ps: Seq<segment::read::Probe>, n: int, b: int) -> bool {
    exists|k: int| 0 <= k < n && (#[trigger] ps[k]).block == b
}

proof fn lemma_taken_once(c: CacheV, st: ReadPathStats, id: u64, s: SegV, b: int)
    requires
        raw_at(s, b) is Ok,
    ensures
        cache_after(c, id, s, b).cap == c.cap,
        same_count(taken_up(block_cost(st, c, id, s, b), c.cap), taken_up(st, c.cap) + 1),
{
    reveal(same_count);
}

/// The lookups of a batch are sorted by block, so that a block is met anew
/// exactly where it differs from the one before.
proof fn lemma_looked_in(s: SegV, ks: Seq<Seq<u8>>, ps: Seq<segment::read::Probe>, n: nat)
    requires
        0 < n <= ps.len(),
        probe_list(s, ks, ps),
    ensures
        how_many(|b: int| looked_in(ps, n as int, b), 0, s.data.len() as int) == how_many(
            |b: int| looked_in(ps, n - 1, b),
            0,
            s.data.len() as int,
        ) + (if n == 1 || ps[n - 2].block != ps[n - 1].block {
            1nat
        } else {
            0
        }),
{
    let now = |b: int| looked_in(ps, n as int, b);
    let before = |b: int| looked_in(ps, n - 1, b);
    let len = s.data.len() as int;
    let x = ps[n - 1];
    let b = x.block as int;
    assert(ps.contains(x));
    assert(locate_of(s, ks[x.pos as int]) == Some(b));
    lemma_part_point(s.data, ks[x.pos as int], 0, len);
    assert forall|m: int| 0 <= m < len implies #[trigger] now(m) == (before(m) || m == b) by {
        if before(m) {
            let k = choose|k: int| 0 <= k < n - 1 && (#[trigger] ps[k]).block == m;
            assert(ps[k].block == m);
        }
        if m == b {
            assert(ps[n - 1].block == m);
        }
    }
    if n == 1 || ps[n - 2].block != b {
        assert(!before(b)) by {
            if before(b) {
                let k = choose|k: int| 0 <= k < n - 1 && (#[trigger] ps[k]).block == b;
                if k < n - 2 {
                    assert(goes_before(ps[k], ps[n - 2]));
                }
                assert(goes_before(ps[n - 2], ps[n - 1]));
            }
        }
        lemma_one_more(before, now, b, 0, len);
    } else {
        assert(ps[n - 2].block == b);
        assert(before(b));
        lemma_as_many(before, now, 0, len);
    }
}

/// One lookup.
proof fn lemma_probe_taken(
    c: CacheV,
    st: ReadPathStats,
    id: u64,
    s: SegV,
    ks: Seq<Seq<u8>>,
    ps: Seq<segment::read::Probe>,
    n: nat,
)
    requires
        0 < n <= ps.len(),
        probe_list(s, ks, ps),
        forall|k: int| 0 <= k < ks.len() ==> seg_get(s, #[trigger] ks[k]) is Ok,
    ensures
        ({
            let (c1, st1) = probes_after(c, st, id, s, ks, ps, (n - 1) as nat);
            let (c2, st2) = probes_after(c, st, id, s, ks, ps, n);
            &&& c2.cap == c1.cap
            &&& if n == 1 || ps[n - 2].block != ps[n - 1].block {
                same_count(taken_up(st2, c1.cap), taken_up(st1, c1.cap) + 1)
            } else {
                taken_up(st2, c1.cap) == taken_up(st1, c1.cap)
            }
        }),
{
    let x = ps[n - 1];
    let b = x.block as int;
    assert forall|k: int| 0 <= k < n implies seg_get(s, ks[(#[trigger] ps[k]).pos as int]) is Ok by {
        assert(ps.contains(ps[k]));
        assert(seg_get(s, ks[ps[k].pos as int]) is Ok);
    }
    assert(ps.contains(x));
    assert(locate_of(s, ks[x.pos as int]) == Some(b));
    assert(raw_at(s, b) is Ok) by {
        reveal(block_at);
        assert(seg_get(s, ks[ps[n - 1].pos as int]) is Ok);
    }
    let (c1, st1) = probes_after(c, st, id, s, ks, ps, (n - 1) as nat);
    lemma_taken_once(c1, st1, id, s, b);
}

proof fn lemma_probes_taken(
    c: CacheV,
    st: ReadPathStats,
    id: u64,
    s: SegV,
    ks: Seq<Seq<u8>>,
    ps: Seq<segment::read::Probe>,
    n: nat,
)
    requires
        n <= ps.len(),
        probe_list(s, ks, ps),
        forall|k: int| 0 <= k < ks.len() ==> seg_get(s, #[trigger] ks[k]) is Ok,
    ensures
        probes_after(c, st, id, s, ks, ps, n).0.cap == c.cap,
        same_count(
            taken_up(probes_after(c, st, id, s, ks, ps, n).1, c.cap),
            taken_up(st, c.cap) + how_many(
                |b: int| looked_in(ps, n as int, b),
                0,
                s.data.len() as int,
            ),
        ),
    decreases n,
{
    if n == 0 {
        lemma_none(|b: int| looked_in(ps, n as int, b), 0, s.data.len() as int);
        lemma_same_count(taken_up(st, c.cap), 0, 0, 0);
    } else {
        lemma_probes_taken(c, st, id, s, ks, ps, (n - 1) as nat);
        lemma_looked_in(s, ks, ps, n);
        lemma_probe_taken(c, st, id, s, ks, ps, n);
        let before = how_many(|b: int| looked_in(ps, n - 1, b), 0, s.data.len() as int);
        lemma_same_count(
            taken_up(st, c.cap),
            taken_up(probes_after(c, st, id, s, ks, ps, (n - 1) as nat).1, c.cap),
            taken_up(probes_after(c, st, id, s, ks, ps, n).1, c.cap),
            before as int,
        );
    }
}

/// A batch of lookups takes up each block that may hold one of its keys once,
/// however many keys it may hold, and no other block.
pub proof fn each_block_is_taken_up_once(
    c: CacheV,
    st: ReadPathStats,
    id: u64,
    s: SegV,
    ks: Seq<Seq<u8>>,
)
    requires
        ks.len() <= usize::MAX,
        s.data.len() <= usize::MAX,
        forall|k: int| 0 <= k < ks.len() ==> seg_get(s, #[trigger] ks[k]) is Ok,
    ensures
        many_after(c, st, id, s, ks).0.cap == c.cap,
        same_count(
            taken_up(many_after(c, st, id, s, ks).1, c.cap),
            taken_up(st, c.cap) + blocks_for(s, ks),
        ),
{
    let ps = probes_of(s, ks);
    lemma_probes_exist(s, ks);
    lemma_probes_taken(c, st, id, s, ks, ps, ps.len());
    let now = |b: int| looked_in(ps, ps.len() as int, b);
    let may = |b: int| may_answer(s, ks, b);
    assert forall|b: int| 0 <= b < s.data.len() implies #[trigger] may(b) == now(b) by {
        if may(b) {
            let k = choose|k: int| 0 <= k < ks.len() && locate_of(s, #[trigger] ks[k]) == Some(b);
            let p = segment::read::Probe { block: b as usize, pos: k as usize };
            assert(ps.contains(p));
            let x = choose|x: int| 0 <= x < ps.len() && ps[x] == p;
            assert(ps[x].block == b);
        }
        if now(b) {
            let k = choose|k: int| 0 <= k < ps.len() && (#[trigger] ps[k]).block == b;
            assert(ps.contains(ps[k]));
            assert(locate_of(s, ks[ps[k].pos as int]) == Some(b));
        }
    }
    lemma_as_many(now, may, 0, s.data.len() as int);
}

/// A batch takes up, in every segment, each block that may hold a key for which
/// the segment is asked, once.
pub proof fn batches_take_up_each_block_once(
    c: CacheV,
    st: ReadPathStats,
    ids: Seq<u64>,
    s: DbV,
    keys: Seq<&[u8]>,
    lo: int,
)
    requires
        keys.len() <= usize::MAX,
        0 <= lo <= s.segments.len(),
        forall|m: int| 0 <= m < s.segments.len() ==> (#[trigger] s.segments[m]).data.len()
            <= usize::MAX,
        forall|m: int, k: int|
            #![trigger s.segments[m], keys[k]]
            lo <= m < s.segments.len() && 0 <= k < keys.len() ==> seg_get(
                s.segments[m],
                keys[k]@,
            ) is Ok,
    ensures
        after_batch(c, st, ids, s, keys, lo).0.cap == c.cap,
        same_count(
            taken_up(after_batch(c, st, ids, s, keys, lo).1, c.cap),
            taken_up(st, c.cap) + sum_of(
                |m: int|
                    if m < lo {
                        0
                    } else {
                        blocks_for(s.segments[m], asked_keys(s, keys, m + 1, keys.len()))
                    },
                s.segments.len(),
            ),
        ),
    decreases s.segments.len() - lo,
{
    let len = s.segments.len();
    let f = |m: int|
        if m < lo {
            0
        } else {
            blocks_for(s.segments[m], asked_keys(s, keys, m + 1, keys.len()))
        };
    if lo == len {
        lemma_sum_zero(f, len);
        lemma_same_count(taken_up(st, c.cap), 0, 0, 0);
    } else {
        batches_take_up_each_block_once(c, st, ids, s, keys, lo + 1);
        let g = |m: int|
            if m < lo + 1 {
                0
            } else {
                blocks_for(s.segments[m], asked_keys(s, keys, m + 1, keys.len()))
            };
        let (c1, st1) = after_batch(c, st, ids, s, keys, lo + 1);
        let ks = asked_keys(s, keys, lo + 1, keys.len());
        segments_are_asked_for_wanted_keys(s, keys, lo, keys.len());
        lemma_asked_len(s, keys, lo + 1, keys.len());
        assert forall|k: int| 0 <= k < ks.len() implies seg_get(s.segments[lo], #[trigger] ks[k])
            is Ok by {
            assert(ks.contains(ks[k]));
            let i = choose|i: int| 0 <= i < keys.len() && (#[trigger] keys[i])@ == ks[k];
            assert(seg_get(s.segments[lo], keys[i]@) is Ok);
        }
        each_block_is_taken_up_once(c1, st1, ids[lo], s.segments[lo], ks);
        lemma_sum_step(g, f, lo, len);
        lemma_same_sum(
            taken_up(st, c.cap),
            taken_up(st1, c.cap),
            taken_up(many_after(c1, st1, ids[lo], s.segments[lo], ks).1, c.cap),
            sum_of(g, len) as int,
            blocks_for(s.segments[lo], ks) as int,
        );
    }
}

proof fn lemma_asked_len(s: DbV, keys: Seq<&[u8]>, n: int, k: nat)
    ensures
        asked_keys(s, keys, n, k).len() <= k,
    decreases k,
{
    if k > 0 {
        lemma_asked_len(s, keys, n, (k - 1) as nat);
    }
}

proof fn lemma_sum_zero(f: spec_fn(int) -> nat, n: nat)
    requires
        forall|m: int| 0 <= m < n ==> #[trigger] f(m) == 0,
    ensures
        sum_of(f, n) == 0,
    decreases n,
{
    if n > 0 {
        lemma_sum_zero(f, (n - 1) as nat);
        assert(f(n - 1) == 0);
    }
}

proof fn lemma_sum_step(g: spec_fn(int) -> nat, f: spec_fn(int) -> nat, x: int, n: nat)
    requires
        0 <= x,
        g(x) == 0,
        forall|m: int| 0 <= m < n && m != x ==> #[trigger] f(m) == g(m),
    ensures
        sum_of(f, n) == sum_of(g, n) + (if x < n {
            f(x)
        } else {
            0
        }),
    decreases n,
{
    if n > 0 {
        lemma_sum_step(g, f, x, (n - 1) as nat);
        if n - 1 != x {
            assert(f(n - 1) == g(n - 1));
        }
    }
}

} // verus!
