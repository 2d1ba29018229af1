//! A batch of reads. Equal keys share one lookup, and each segment is asked
//! once for all keys that it may answer.

use crate::codec::bytes_eq;
use crate::compaction::run::segs_view;
use crate::db::read::{
    db_get, mem_find, probe_counts, probe_of, probe_segment, seg_answer, seg_chain,
    Probe, Tally,
};
use crate::cache::{BlockCache, CacheV};
use crate::db::cached::{lemma_block_coherent, path_ok, ReadPath};
use crate::db::state::{Db, DbV};
use crate::format::{ErrV, FormatError};
use crate::memtable::{copy_value, entry_value, value_of, value_view};
use crate::segment::entry::EntryV;
use crate::segment::lookup::opt_view;
use crate::segment::open::{SegV, SegmentReader};
use crate::segment::cached::coherent;
use crate::segment::cached_many::{
    keys_view, lemma_probes_exist, many_after, probe_list, probes_after, probes_of,
};
use crate::segment::read::{
    comes_before, hashes_of, lemma_part_point, seg_get, Probe as SegProbe,
};
use crate::stats::{add_counts, counts_zero, Counts, ReadPathStats, Stats};
use vstd::prelude::*;

verus! {

/// The first position with the key of position `i`.
pub open spec fn first_same(keys: Seq<&[u8]>, i: int, f: int) -> bool {
    &&& 0 <= f <= i
    &&& keys[f]@ == keys[i]@
    &&& forall|j: int| 0 <= j < f ==> (#[trigger] keys[j])@ != keys[i]@
}

/// The key of position `i` does not occur before.
pub open spec fn is_first(keys: Seq<&[u8]>, i: int) -> bool {
    forall|j: int| 0 <= j < i ==> (#[trigger] keys[j])@ != keys[i]@
}

/// No layer newer than the first `n` segments has the key.
pub open spec fn open_at(s: DbV, key: Seq<u8>, n: int) -> bool {
    mem_find(s, key, None) is None && none_from(s.segments, s.segments.len(), n, key)
}

/// The segments from `lo` on, of the first `n`, do not have the key.
pub open spec fn none_from(segs: Seq<SegV>, n: nat, lo: int, key: Seq<u8>) -> bool {
    forall|m: int|
        lo <= m < n ==> seg_answer(#[trigger] segs[m], key) == Ok::<Option<EntryV>, ErrV>(None)
}

/// Segment `n - 1` fails on a key that no newer layer has.
pub open spec fn fails_at(s: DbV, keys: Seq<&[u8]>, n: int) -> bool {
    exists|i: int|
        #![trigger keys[i]]
        0 <= i < keys.len() && open_at(s, keys[i]@, n) && seg_answer(
            s.segments[n - 1],
            keys[i]@,
        ) is Err
}

/// Segment `n - 1` is asked for position `i`: for the first of equal keys,
/// where no newer layer has the key and the segment may.
pub open spec fn asks(s: DbV, keys: Seq<&[u8]>, n: int, i: int) -> bool {
    is_first(keys, i) && open_at(s, keys[i]@, n) && probe_of(s.segments[n - 1], keys[i]@)
        == Probe::Search
}

/// Segment `n - 1` fails with `e` on position `i`, and on none that it looks
/// up before, by block and then by position.
pub open spec fn fails_first(s: DbV, keys: Seq<&[u8]>, n: int, i: int, e: ErrV) -> bool {
    &&& 0 <= i < keys.len()
    &&& asks(s, keys, n, i)
    &&& seg_answer(s.segments[n - 1], keys[i]@) == Err::<Option<EntryV>, ErrV>(e)
    &&& forall|j: int|
        #![trigger keys[j]]
        0 <= j < keys.len() && asks(s, keys, n, j) && comes_before(s.segments[n - 1], keys, j, i)
            ==> seg_answer(s.segments[n - 1], keys[j]@) is Ok
}

/// The batch fails with `e` on segment `n - 1`, the newest that fails.
pub open spec fn stops_at(s: DbV, keys: Seq<&[u8]>, n: int, e: ErrV) -> bool {
    &&& 0 < n <= s.segments.len()
    &&& exists|i: int| #[trigger] fails_first(s, keys, n, i, e)
    &&& forall|m: int| n < m <= s.segments.len() ==> !#[trigger] fails_at(s, keys, m)
}

/// The counts of a lookup that meets the segments from `lo` on, of the first
/// `n`, newest first, until one answers.
pub open spec fn met_counts(segs: Seq<SegV>, n: nat, lo: int, key: Seq<u8>) -> Counts
    decreases n,
{
    if n <= lo || n == 0 {
        counts_zero()
    } else {
        let here = probe_counts(probe_of(segs[n - 1], key));
        if seg_answer(segs[n - 1], key) == Ok::<Option<EntryV>, ErrV>(None) {
            add_counts(here, met_counts(segs, (n - 1) as nat, lo, key))
        } else {
            here
        }
    }
}

/// One segment more counts where no newer one has answered.
proof fn lemma_met_step(segs: Seq<SegV>, n: nat, lo: int, key: Seq<u8>)
    requires
        0 < lo <= n <= segs.len(),
    ensures
        met_counts(segs, n, lo - 1, key) == (if none_from(segs, n, lo, key) {
            add_counts(
                met_counts(segs, n, lo, key),
                probe_counts(probe_of(segs[lo - 1], key)),
            )
        } else {
            met_counts(segs, n, lo, key)
        }),
    decreases n,
{
    let here = probe_counts(probe_of(segs[lo - 1], key));
    if n == lo {
        assert(met_counts(segs, (n - 1) as nat, lo - 1, key) == counts_zero());
        assert(add_counts(here, counts_zero()) =~= here);
        assert(add_counts(counts_zero(), here) =~= here);
    } else {
        lemma_met_step(segs, (n - 1) as nat, lo, key);
        let top = probe_counts(probe_of(segs[n - 1], key));
        if seg_answer(segs[n - 1], key) == Ok::<Option<EntryV>, ErrV>(None) {
            assert(none_from(segs, n, lo, key) == none_from(segs, (n - 1) as nat, lo, key));
            let rest = met_counts(segs, (n - 1) as nat, lo, key);
            assert(add_counts(top, add_counts(rest, here)) =~= add_counts(
                add_counts(top, rest),
                here,
            ));
        } else {
            assert(!none_from(segs, n, lo, key)) by {
                assert(seg_answer(segs[n - 1], key) != Ok::<Option<EntryV>, ErrV>(None));
            }
        }
    }
}

/// The answer of a batch: each key's own answer, or the failure of one key.
/// It fails only where a key's own read fails.
pub open spec fn many_answers(
    r: Result<Vec<Option<Vec<u8>>>, FormatError>,
    s: DbV,
    keys: Seq<&[u8]>,
) -> bool {
    match r {
        Ok(v) => v@.len() == keys.len() && forall|i: int|
            0 <= i < keys.len() ==> db_get(s, keys[i]@) == Ok::<Option<Seq<u8>>, ErrV>(
                value_view(#[trigger] v@[i]),
            ),
        Err(e) => exists|i: int|
            0 <= i < keys.len() && db_get(s, (#[trigger] keys[i])@) == Err::<Option<Seq<u8>>, ErrV>(
                e@,
            ),
    }
}

/// The counts of the first `n` keys of a batch that met the segments from `lo`
/// on: equal keys count once.
pub open spec fn many_counts(
    st: ReadPathStats,
    s: DbV,
    keys: Seq<&[u8]>,
    n: nat,
    lo: int,
) -> ReadPathStats
    decreases n,
{
    if n == 0 {
        st
    } else {
        let before = many_counts(st, s, keys, (n - 1) as nat, lo);
        let key = keys[n - 1]@;
        if !is_first(keys, n - 1) {
            before
        } else if mem_find(s, key, None) is Some {
            before.looked_up(1, 1, counts_zero())
        } else {
            before.looked_up(
                1,
                0,
                (Counts { considered: 0, ..met_counts(s.segments, s.segments.len(), lo, key) }),
            )
        }
    }
}

/// The counts of a batch that met the segments from `lo` on; a segment is
/// considered once for all keys.
pub open spec fn batch_counts(st: ReadPathStats, s: DbV, keys: Seq<&[u8]>, lo: int) -> ReadPathStats {
    many_counts(st, s, keys, keys.len(), lo).looked_up(
        0,
        0,
        (Counts { considered: (s.segments.len() - lo) as nat, ..counts_zero() }),
    )
}

/// The first position of each key.
fn first_positions(keys: &Vec<&[u8]>) -> (r: Vec<usize>)
    ensures
        r@.len() == keys@.len(),
        forall|i: int| 0 <= i < keys@.len() ==> first_same(keys@, i, #[trigger] r@[i] as int),
{
    let mut out: Vec<usize> = Vec::new();
    let mut i: usize = 0;
    while i < keys.len()
        invariant
            i <= keys@.len(),
            out@.len() == i,
            forall|k: int| 0 <= k < i ==> first_same(keys@, k, #[trigger] out@[k] as int),
        decreases keys@.len() - i,
    {
        let mut f: usize = 0;
        while f < i && !bytes_eq(keys[f], keys[i])
            invariant
                f <= i < keys@.len(),
                forall|j: int| 0 <= j < f ==> (#[trigger] keys@[j])@ != keys@[i as int]@,
            decreases i - f,
        {
            f += 1;
        }
        out.push(f);
        i += 1;
    }
    out
}

/// How far the lookup of one key has come: a key still open was found in no
/// layer newer than the first `n` segments; a closed one has its answer.
pub open spec fn lookup_state(
    s: DbV,
    key: Seq<u8>,
    n: nat,
    open: bool,
    answer: Option<Seq<u8>>,
    c: Counts,
) -> bool {
    let segs = s.segments;
    if open {
        &&& open_at(s, key, n as int)
        &&& seg_chain(segs, segs.len(), key) == seg_chain(segs, n, key)
        &&& c == met_counts(segs, segs.len(), n as int, key)
    } else {
        &&& db_get(s, key) == Ok::<Option<Seq<u8>>, ErrV>(answer)
        &&& mem_find(s, key, None) is Some || (!none_from(segs, segs.len(), n as int, key) && c
            == met_counts(segs, segs.len(), n as int, key))
    }
}

/// How far the lookups of a batch have come, by position.
pub struct Slots {
    pub open: Vec<bool>,
    pub answers: Vec<Option<Vec<u8>>>,
    pub tallies: Vec<Tally>,
}

/// One key, and how far its lookup has come.
pub struct Slot {
    pub open: bool,
    pub answer: Option<Seq<u8>>,
    pub tally: Tally,
}

pub open spec fn slot_at(x: Slots, i: int) -> Slot {
    Slot { open: x.open@[i], answer: value_view(x.answers@[i]), tally: x.tallies@[i] }
}

pub open spec fn slot_ok(s: DbV, key: Seq<u8>, n: nat, x: Slot) -> bool {
    &&& lookup_state(s, key, n, x.open, x.answer, x.tally@)
    &&& x.open ==> tally_ok(x.tally, s.segments.len() - n)
}

pub open spec fn tally_ok(t: Tally, most: int) -> bool {
    t.considered <= most && t.range_skipped <= t.considered && t.bloom_skipped <= t.considered
        && t.searched <= t.considered
}

/// The slots have one place for each key.
pub open spec fn sized(x: Slots, n: nat) -> bool {
    x.open@.len() == n && x.answers@.len() == n && x.tallies@.len() == n
}

/// The state of one lookup of a batch; a repeated key waits.
pub open spec fn slot_fine(s: DbV, keys: Seq<&[u8]>, n: nat, x: Slots, i: int) -> bool {
    if is_first(keys, i) {
        slot_ok(s, keys[i]@, n, slot_at(x, i))
    } else {
        !x.open@[i]
    }
}

/// The state of every lookup of a batch.
pub open spec fn slots_ok(s: DbV, keys: Seq<&[u8]>, n: nat, x: Slots) -> bool {
    &&& sized(x, keys.len())
    &&& forall|i: int| 0 <= i < keys.len() ==> #[trigger] slot_fine(s, keys, n, x, i)
}

/// A segment that does not have the key leaves a lookup open.
proof fn lemma_skip(s: DbV, key: Seq<u8>, n: nat, x: Slot, y: Slot)
    requires
        0 < n <= s.segments.len(),
        slot_ok(s, key, n, x),
        x.open,
        y.open,
        seg_answer(s.segments[n - 1], key) == Ok::<Option<EntryV>, ErrV>(None),
        y.tally@ == add_counts(x.tally@, probe_counts(probe_of(s.segments[n - 1], key))),
        tally_ok(y.tally, s.segments.len() - n + 1),
    ensures
        slot_ok(s, key, (n - 1) as nat, y),
{
    lemma_met_step(s.segments, s.segments.len(), n as int, key);
}

/// A segment that has the key closes the lookup.
proof fn lemma_close(s: DbV, key: Seq<u8>, n: nat, x: Slot, y: Slot, e: EntryV)
    requires
        0 < n <= s.segments.len(),
        slot_ok(s, key, n, x),
        x.open,
        !y.open,
        seg_answer(s.segments[n - 1], key) == Ok::<Option<EntryV>, ErrV>(Some(e)),
        y.answer == value_of(e),
        y.tally@ == add_counts(x.tally@, probe_counts(probe_of(s.segments[n - 1], key))),
    ensures
        slot_ok(s, key, (n - 1) as nat, y),
{
    lemma_met_step(s.segments, s.segments.len(), n as int, key);
    assert(!none_from(s.segments, s.segments.len(), n - 1, key)) by {
        assert(seg_answer(s.segments[n - 1], key) != Ok::<Option<EntryV>, ErrV>(None));
    }
}

/// A closed lookup stays as it is.
proof fn lemma_stay(s: DbV, key: Seq<u8>, n: nat, x: Slot)
    requires
        0 < n <= s.segments.len(),
        slot_ok(s, key, n, x),
        !x.open,
    ensures
        slot_ok(s, key, (n - 1) as nat, x),
{
    lemma_met_step(s.segments, s.segments.len(), n as int, key);
    if mem_find(s, key, None) is None {
        let m = choose|m: int|
            n <= m < s.segments.len() && seg_answer(#[trigger] s.segments[m], key) != Ok::<
                Option<EntryV>,
                ErrV,
            >(None);
        assert(seg_answer(s.segments[m], key) != Ok::<Option<EntryV>, ErrV>(None));
    }
}

/// A segment that fails fails the read of the key.
proof fn lemma_fail(s: DbV, key: Seq<u8>, n: nat, x: Slot, e: ErrV)
    requires
        0 < n <= s.segments.len(),
        slot_ok(s, key, n, x),
        x.open,
        seg_answer(s.segments[n - 1], key) == Err::<Option<EntryV>, ErrV>(e),
    ensures
        db_get(s, key) == Err::<Option<Seq<u8>>, ErrV>(e),
{
}

/// A segment on which every open lookup comes to an answer does not fail the
/// batch.
proof fn lemma_passes(s: DbV, keys: Seq<&[u8]>, n: nat, x: Slots)
    requires
        0 < n <= s.segments.len(),
        slots_ok(s, keys, n, x),
        forall|i: int|
            #![trigger keys[i]]
            0 <= i < keys.len() && x.open@[i] ==> seg_answer(s.segments[n - 1], keys[i]@) is Ok,
    ensures
        !fails_at(s, keys, n as int),
{
    if fails_at(s, keys, n as int) {
        let i = choose|i: int|
            #![trigger keys[i]]
            0 <= i < keys.len() && open_at(s, keys[i]@, n as int) && seg_answer(
                s.segments[n - 1],
                keys[i]@,
            ) is Err;
        let f = lemma_first(keys, i);
        assert(slot_fine(s, keys, n, x, f));
        assert(keys[f]@ == keys[i]@);
        if !x.open@[f] {
            assert(!open_at(s, keys[f]@, n as int));
        }
    }
}

/// The first position with the key of a position.
proof fn lemma_first(keys: Seq<&[u8]>, i: int) -> (f: int)
    requires
        0 <= i < keys.len(),
    ensures
        0 <= f <= i,
        keys[f]@ == keys[i]@,
        is_first(keys, f),
    decreases i,
{
    if is_first(keys, i) {
        i
    } else {
        let j = choose|j: int| 0 <= j < i && (#[trigger] keys[j])@ == keys[i]@;
        lemma_first(keys, j)
    }
}

/// Position `i` after a segment was met, before its answers are in: an open
/// lookup has counted the segment.
pub open spec fn met(x: Slots, y: Slots, s: SegV, keys: Seq<&[u8]>, i: int) -> bool {
    &&& y.open@[i] == x.open@[i]
    &&& value_view(y.answers@[i]) == value_view(x.answers@[i])
    &&& if x.open@[i] {
        y.tallies@[i]@ == add_counts(x.tallies@[i]@, probe_counts(probe_of(s, keys[i]@)))
            && y.tallies@[i].considered == x.tallies@[i].considered + 1 && tally_ok(
            y.tallies@[i],
            x.tallies@[i].considered + 1,
        )
    } else {
        y.tallies@[i] == x.tallies@[i]
    }
}

/// The segment is asked for position `i`.
pub open spec fn asked(open: bool, s: SegV, key: Seq<u8>) -> bool {
    open && probe_of(s, key) == Probe::Search
}

/// The keys that a segment is asked for, of the first `k`.
pub open spec fn picked_keys(open: Seq<bool>, s: SegV, keys: Seq<&[u8]>, k: nat) -> Seq<Seq<u8>>
    decreases k,
{
    if k == 0 {
        seq![]
    } else {
        let front = picked_keys(open, s, keys, (k - 1) as nat);
        if asked(open[k - 1], s, keys[k - 1]@) {
            front.push(keys[k - 1]@)
        } else {
            front
        }
    }
}

/// The keys that segment `n - 1` is asked for, of the first `k`.
pub open spec fn asked_keys(s: DbV, keys: Seq<&[u8]>, n: int, k: nat) -> Seq<Seq<u8>>
    decreases k,
{
    if k == 0 {
        seq![]
    } else {
        let front = asked_keys(s, keys, n, (k - 1) as nat);
        if asks(s, keys, n, k - 1) {
            front.push(keys[k - 1]@)
        } else {
            front
        }
    }
}

proof fn lemma_asked_keys(s: DbV, keys: Seq<&[u8]>, n: nat, x: Slots, k: nat)
    requires
        0 < n <= s.segments.len(),
        slots_ok(s, keys, n, x),
        k <= keys.len(),
    ensures
        picked_keys(x.open@, s.segments[n - 1], keys, k) == asked_keys(s, keys, n as int, k),
    decreases k,
{
    if k > 0 {
        lemma_asked_keys(s, keys, n, x, (k - 1) as nat);
        lemma_open_means(s, keys, n, x, k - 1);
    }
}

proof fn lemma_asked_len(s: DbV, keys: Seq<&[u8]>, n: int, k: nat)
    ensures
        asked_keys(s, keys, n, k).len() <= k,
    decreases k,
{
    if k > 0 {
        lemma_asked_len(s, keys, n, (k - 1) as nat);
    }
}

/// A lookup is open where it is the first of its key and nothing newer has it.
proof fn lemma_open_means(s: DbV, keys: Seq<&[u8]>, n: nat, x: Slots, i: int)
    requires
        slots_ok(s, keys, n, x),
        0 <= i < keys.len(),
    ensures
        x.open@[i] == (is_first(keys, i) && open_at(s, keys[i]@, n as int)),
{
    assert(slot_fine(s, keys, n, x, i));
}

/// The cache and the counters after the segments from `lo` on were asked,
/// newest first.
pub open spec fn after_batch(
    c: CacheV,
    st: ReadPathStats,
    ids: Seq<u64>,
    s: DbV,
    keys: Seq<&[u8]>,
    lo: int,
) -> (CacheV, ReadPathStats)
    decreases s.segments.len() - lo,
{
    if lo < 0 || lo >= s.segments.len() {
        (c, st)
    } else {
        let (c1, st1) = after_batch(c, st, ids, s, keys, lo + 1);
        many_after(c1, st1, ids[lo], s.segments[lo], asked_keys(s, keys, lo + 1, keys.len()))
    }
}

/// Meets every open lookup with a segment, and gives the positions that it
/// is asked for.
fn meet(seg: &SegmentReader, keys: &Vec<&[u8]>, hashes: &Vec<(u64, u64)>, x: &mut Slots) -> (r: Vec<
    usize,
>)
    requires
        seg.wf(),
        sized(*old(x), keys@.len()),
        hashes@.len() == keys@.len(),
        forall|i: int| 0 <= i < keys@.len() ==> #[trigger] hashes@[i] == hashes_of(keys@[i]@),
        forall|i: int|
            0 <= i < keys@.len() && (#[trigger] old(x).open@[i]) ==> old(x).tallies@[i].considered
                < u64::MAX && tally_ok(old(x).tallies@[i], u64::MAX as int),
    ensures
        sized(*final(x), keys@.len()),
        forall|i: int| 0 <= i < keys@.len() ==> #[trigger] met(*old(x), *final(x), seg@, keys@, i),
        forall|j: int|
            0 <= j < r@.len() ==> (#[trigger] r@[j]) < keys@.len() && asked(
                old(x).open@[r@[j] as int],
                seg@,
                keys@[r@[j] as int]@,
            ),
        forall|j: int, k: int|
            #![trigger r@[j], r@[k]]
            0 <= j < k < r@.len() ==> r@[j] < r@[k],
        forall|i: int|
            0 <= i < keys@.len() && asked(old(x).open@[i], seg@, (#[trigger] keys@[i])@)
                ==> exists|j: int| 0 <= j < r@.len() && (#[trigger] r@[j]) == i,
        r@.map_values(|i: usize| keys@[i as int]@) == picked_keys(
            old(x).open@,
            seg@,
            keys@,
            keys@.len(),
        ),
{
    let ghost x0 = *x;
    let mut wanted: Vec<usize> = Vec::new();
    let mut i: usize = 0;
    while i < keys.len()
        invariant
            i <= keys@.len(),
            seg.wf(),
            x0 == *old(x),
            sized(x0, keys@.len()),
            sized(*x, keys@.len()),
            hashes@.len() == keys@.len(),
            forall|k: int| 0 <= k < keys@.len() ==> #[trigger] hashes@[k] == hashes_of(keys@[k]@),
            forall|k: int|
                0 <= k < keys@.len() && (#[trigger] x0.open@[k]) ==> x0.tallies@[k].considered
                    < u64::MAX && tally_ok(x0.tallies@[k], u64::MAX as int),
            x.open@ == x0.open@,
            x.answers@ == x0.answers@,
            forall|k: int| i <= k < keys@.len() ==> #[trigger] x.tallies@[k] == x0.tallies@[k],
            forall|k: int| 0 <= k < i ==> #[trigger] met(x0, *x, seg@, keys@, k),
            forall|j: int|
                0 <= j < wanted@.len() ==> (#[trigger] wanted@[j]) < i && asked(
                    x0.open@[wanted@[j] as int],
                    seg@,
                    keys@[wanted@[j] as int]@,
                ),
            forall|j: int, k: int|
                #![trigger wanted@[j], wanted@[k]]
                0 <= j < k < wanted@.len() ==> wanted@[j] < wanted@[k],
            forall|k: int|
                0 <= k < i && asked(x0.open@[k], seg@, (#[trigger] keys@[k])@) ==> exists|j: int|
                    0 <= j < wanted@.len() && (#[trigger] wanted@[j]) == k,
            wanted@.map_values(|i: usize| keys@[i as int]@) =~= picked_keys(
                x0.open@,
                seg@,
                keys@,
                i as nat,
            ),
        decreases keys@.len() - i,
    {
        let ghost w0 = wanted@;
        let ghost x1 = *x;
        assert(x.tallies@[i as int] == x0.tallies@[i as int]);
        assert(hashes@[i as int] == hashes_of(keys@[i as int]@));
        if x.open[i] {
            assert(x0.open@[i as int]);
            let p = probe_segment(seg, keys[i], hashes[i]);
            let mut c = x.tallies[i];
            c.note(p);
            x.tallies.set(i, c);
            match p {
                Probe::Search => {
                    wanted.push(i);
                    assert(wanted@[w0.len() as int] == i);
                },
                _ => {},
            }
        }
        proof {
            assert forall|k: int| 0 <= k < i + 1 implies #[trigger] met(x0, *x, seg@, keys@, k) by {
                if k < i {
                    assert(met(x0, x1, seg@, keys@, k));
                    assert(x.tallies@[k] == x1.tallies@[k]);
                }
            }
            assert forall|k: int|
                0 <= k < i + 1 && asked(x0.open@[k], seg@, (#[trigger] keys@[k])@) implies exists|
                j: int,
            | 0 <= j < wanted@.len() && (#[trigger] wanted@[j]) == k by {
                if k < i {
                    let j = choose|j: int| 0 <= j < w0.len() && (#[trigger] w0[j]) == k;
                    assert(wanted@[j] == k);
                }
            }
        }
        i += 1;
    }
    wanted
}

/// The keys at some positions.
fn keys_at<'a>(keys: &Vec<&'a [u8]>, at: &Vec<usize>) -> (r: Vec<&'a [u8]>)
    requires
        forall|j: int| 0 <= j < at@.len() ==> (#[trigger] at@[j]) < keys@.len(),
    ensures
        r@.len() == at@.len(),
        forall|j: int| 0 <= j < at@.len() ==> #[trigger] r@[j] == keys@[at@[j] as int],
{
    let mut out: Vec<&'a [u8]> = Vec::new();
    let mut j: usize = 0;
    while j < at.len()
        invariant
            j <= at@.len(),
            out@.len() == j,
            forall|k: int| 0 <= k < at@.len() ==> (#[trigger] at@[k]) < keys@.len(),
            forall|k: int| 0 <= k < j ==> #[trigger] out@[k] == keys@[at@[k] as int],
        decreases at@.len() - j,
    {
        let i = at[j];
        out.push(keys[i]);
        j += 1;
    }
    out
}

/// Segment `n - 1` fails with `e` on a key, and so does a read of the key.
pub open spec fn asked_in_vain(s: DbV, keys: Seq<&[u8]>, n: nat, e: ErrV) -> bool {
    exists|i: int| #[trigger]
        fails_first(s, keys, n as int, i, e) && db_get(s, keys[i]@) == Err::<
            Option<Seq<u8>>,
            ErrV,
        >(e)
}

/// Position `i` has counted the segments from `lo` on.
pub open spec fn tallied(s: DbV, keys: Seq<&[u8]>, lo: int, x: Slots, i: int) -> bool {
    is_first(keys, i) && mem_find(s, keys[i]@, None) is None ==> x.tallies@[i]@ == met_counts(
        s.segments,
        s.segments.len(),
        lo,
        keys[i]@,
    )
}

/// Asks one segment, the `n`-th, for every open lookup.
fn ask_all(
    seg: &SegmentReader,
    keys: &Vec<&[u8]>,
    hashes: &Vec<(u64, u64)>,
    x: &mut Slots,
    id: u64,
    cache: &mut BlockCache,
    stats: &mut Stats,
    Ghost(s): Ghost<DbV>,
    Ghost(n): Ghost<nat>,
) -> (r: Result<(), FormatError>)
    requires
        seg.wf(),
        old(cache).wf(),
        coherent(old(cache)@, id, seg@),
        0 < n <= s.segments.len() <= u64::MAX,
        s.segments[n - 1] == seg@,
        slots_ok(s, keys@, n, *old(x)),
        hashes@.len() == keys@.len(),
        forall|i: int| 0 <= i < keys@.len() ==> #[trigger] hashes@[i] == hashes_of(keys@[i]@),
    ensures
        final(cache).wf(),
        (final(cache)@, final(stats)@) == many_after(
            old(cache)@,
            old(stats)@,
            id,
            seg@,
            asked_keys(s, keys@, n as int, keys@.len()),
        ),
        match r {
            Ok(_) => slots_ok(s, keys@, (n - 1) as nat, *final(x)) && !fails_at(s, keys@, n as int),
            Err(e) => asked_in_vain(s, keys@, n, e@) && sized(*final(x), keys@.len()) && forall|
                i: int,
            |
                0 <= i < keys@.len() ==> #[trigger] tallied(s, keys@, n - 1, *final(x), i),
        },
{
    let ghost x0 = *x;
    proof {
        assert forall|i: int|
            0 <= i < keys@.len() && (#[trigger] x0.open@[i]) implies x0.tallies@[i].considered
            < u64::MAX && tally_ok(x0.tallies@[i], u64::MAX as int) by {
            assert(slot_fine(s, keys@, n, x0, i));
        }
    }
    let wanted = meet(seg, keys, hashes, x);
    let ghost x1 = *x;
    let some = keys_at(keys, &wanted);
    proof {
        lemma_asked_keys(s, keys@, n, x0, keys@.len());
        assert(keys_view(some@) =~= wanted@.map_values(|i: usize| keys@[i as int]@));
    }
    match seg.get_many_cached(&some, id, cache, stats) {
        Err(e) => {
            proof {
                let j = choose|j: int|
                    #![trigger some@[j]]
                    0 <= j < some@.len() && seg_get(seg@, some@[j]@) == Err::<
                        Option<EntryV>,
                        ErrV,
                    >(e@) && forall|k: int|
                        #![trigger some@[k]]
                        0 <= k < some@.len() && comes_before(seg@, some@, k, j) ==> seg_get(
                            seg@,
                            some@[k]@,
                        ) is Ok;
                let i = wanted@[j] as int;
                assert(some@[j] == keys@[i]);
                assert(slot_fine(s, keys@, n, x0, i));
                reveal(seg_answer);
                lemma_fail(s, keys@[i]@, n, slot_at(x0, i), e@);
                lemma_open_means(s, keys@, n, x0, i);
                assert forall|k: int|
                    #![trigger keys@[k]]
                    0 <= k < keys@.len() && asks(s, keys@, n as int, k) && comes_before(
                        seg@,
                        keys@,
                        k,
                        i,
                    ) implies seg_answer(seg@, keys@[k]@) is Ok by {
                    lemma_open_means(s, keys@, n, x0, k);
                    assert(asked(x0.open@[k], seg@, keys@[k]@));
                    let l = choose|l: int| 0 <= l < wanted@.len() && (#[trigger] wanted@[l]) == k;
                    assert(some@[l] == keys@[k]);
                    if j < l {
                        assert(wanted@[j] < wanted@[l]);
                    }
                    assert(comes_before(seg@, some@, l, j));
                }
                assert(fails_first(s, keys@, n as int, i, e@));
                assert(asked_in_vain(s, keys@, n, e@));
                assert forall|k: int| 0 <= k < keys@.len() implies #[trigger] tallied(
                    s,
                    keys@,
                    n - 1,
                    *x,
                    k,
                ) by {
                    assert(slot_fine(s, keys@, n, x0, k));
                    assert(met(x0, x1, seg@, keys@, k));
                    lemma_met_step(s.segments, s.segments.len(), n as int, keys@[k]@);
                }
            }
            Err(e)
        },
        Ok(found) => {
            let mut j: usize = 0;
            while j < wanted.len()
                invariant
                    j <= wanted@.len(),
                    found@.len() == wanted@.len(),
                    some@.len() == wanted@.len(),
                    sized(*x, keys@.len()),
                    sized(x1, keys@.len()),
                    forall|k: int| 0 <= k < wanted@.len() ==> (#[trigger] wanted@[k]) < keys@.len(),
                    forall|k: int, l: int|
                        #![trigger wanted@[k], wanted@[l]]
                        0 <= k < l < wanted@.len() ==> wanted@[k] < wanted@[l],
                    x.tallies@ == x1.tallies@,
                    forall|i: int|
                        0 <= i < keys@.len() && (forall|k: int|
                            0 <= k < j ==> (#[trigger] wanted@[k]) != i)
                            ==> (#[trigger] slot_at(*x, i)) == slot_at(x1, i),
                    forall|k: int|
                        0 <= k < j ==> answered(
                            *x,
                            x1,
                            (#[trigger] wanted@[k]) as int,
                            opt_view(found@[k]),
                        ),
                decreases wanted@.len() - j,
            {
                let i = wanted[j];
                let ghost before = *x;
                match &found[j] {
                    Some(e) => {
                        x.answers.set(i, entry_value(e));
                        x.open.set(i, false);
                    },
                    None => {},
                }
                proof {
                    assert(slot_at(before, i as int) == slot_at(x1, i as int)) by {
                        assert forall|k: int| 0 <= k < j implies (#[trigger] wanted@[k]) != i by {
                            assert(wanted@[k] < wanted@[j as int]);
                        }
                    }
                    assert forall|k: int| 0 <= k < j + 1 implies answered(
                        *x,
                        x1,
                        (#[trigger] wanted@[k]) as int,
                        opt_view(found@[k]),
                    ) by {
                        if k < j {
                            assert(wanted@[k] < wanted@[j as int]);
                            assert(slot_at(*x, wanted@[k] as int) == slot_at(
                                before,
                                wanted@[k] as int,
                            ));
                        }
                    }
                    assert forall|m: int|
                        0 <= m < keys@.len() && (forall|k: int|
                            0 <= k < j + 1 ==> (#[trigger] wanted@[k]) != m) implies (
                    #[trigger] slot_at(*x, m)) == slot_at(x1, m) by {
                        assert(wanted@[j as int] != m);
                        assert(slot_at(*x, m) == slot_at(before, m));
                    }
                }
                j += 1;
            }
            proof {
                reveal(seg_answer);
                assert forall|i: int| 0 <= i < keys@.len() implies #[trigger] slot_fine(
                    s,
                    keys@,
                    (n - 1) as nat,
                    *x,
                    i,
                ) by {
                    assert(slot_fine(s, keys@, n, x0, i));
                    assert(met(x0, x1, seg@, keys@, i));
                    let a = slot_at(x0, i);
                    if x0.open@[i] {
                        if asked(true, seg@, keys@[i]@) {
                            let j = choose|j: int|
                                0 <= j < wanted@.len() && (#[trigger] wanted@[j]) == i;
                            assert(some@[j] == keys@[i]);
                            assert(seg_get(seg@, keys@[i]@) == Ok::<Option<EntryV>, ErrV>(
                                opt_view(found@[j]),
                            ));
                            assert(answered(*x, x1, i, opt_view(found@[j])));
                            match opt_view(found@[j]) {
                                Some(e) => {
                                    lemma_close(s, keys@[i]@, n, a, slot_at(*x, i), e);
                                },
                                None => {
                                    lemma_skip(s, keys@[i]@, n, a, slot_at(*x, i));
                                },
                            }
                        } else {
                            assert forall|k: int| 0 <= k < wanted@.len() implies (
                            #[trigger] wanted@[k]) != i by {}
                            assert(slot_at(*x, i) == slot_at(x1, i));
                            lemma_skip(s, keys@[i]@, n, a, slot_at(*x, i));
                        }
                    } else {
                        assert forall|k: int| 0 <= k < wanted@.len() implies (
                        #[trigger] wanted@[k]) != i by {}
                        assert(slot_at(*x, i) == slot_at(x1, i));
                        assert(slot_at(*x, i) == a);
                        if is_first(keys@, i) {
                            lemma_stay(s, keys@[i]@, n, a);
                        }
                    }
                }
                assert forall|i: int|
                    #![trigger keys@[i]]
                    0 <= i < keys@.len() && x0.open@[i] implies seg_answer(
                    s.segments[n - 1],
                    keys@[i]@,
                ) is Ok by {
                    if asked(true, seg@, keys@[i]@) {
                        let j = choose|j: int|
                            0 <= j < wanted@.len() && (#[trigger] wanted@[j]) == i;
                        assert(some@[j] == keys@[i]);
                        assert(seg_get(seg@, keys@[i]@) == Ok::<Option<EntryV>, ErrV>(
                            opt_view(found@[j]),
                        ));
                    }
                }
                lemma_passes(s, keys@, n, x0);
            }
            Ok(())
        },
    }
}

/// A position after a segment's answer to it.
pub open spec fn answered(x: Slots, x1: Slots, i: int, e: Option<EntryV>) -> bool {
    &&& x.tallies@[i] == x1.tallies@[i]
    &&& match e {
        Some(e) => !x.open@[i] && value_view(x.answers@[i]) == value_of(e),
        None => slot_at(x, i) == slot_at(x1, i),
    }
}

/// The hashes of every key.
fn hashes_for(keys: &Vec<&[u8]>) -> (r: Vec<(u64, u64)>)
    ensures
        r@.len() == keys@.len(),
        forall|i: int| 0 <= i < keys@.len() ==> #[trigger] r@[i] == hashes_of(keys@[i]@),
{
    let mut out: Vec<(u64, u64)> = Vec::new();
    let mut i: usize = 0;
    while i < keys.len()
        invariant
            i <= keys@.len(),
            out@.len() == i,
            forall|k: int| 0 <= k < i ==> #[trigger] out@[k] == hashes_of(keys@[k]@),
        decreases keys@.len() - i,
    {
        out.push(SegmentReader::bloom_hashes(keys[i]));
        i += 1;
    }
    out
}

impl Db {
    /// The lookups of a batch after the layers in memory, with their lookups
    /// and hits.
    fn start_many(&self, keys: &Vec<&[u8]>, firsts: &Vec<usize>) -> (r: Slots)
        requires
            self.wf(),
            firsts@.len() == keys@.len(),
            forall|i: int|
                0 <= i < keys@.len() ==> first_same(keys@, i, #[trigger] firsts@[i] as int),
        ensures
            slots_ok(self@, keys@, self@.segments.len(), r),
            forall|i: int|
                0 <= i < keys@.len() ==> (#[trigger] r.open@[i]) == (is_first(keys@, i)
                    && mem_find(self@, keys@[i]@, None) is None),
    {
        let ghost s = self@;
        let ghost n = s.segments.len();
        let mut x = Slots { open: Vec::new(), answers: Vec::new(), tallies: Vec::new() };
        let mut i: usize = 0;
        while i < keys.len()
            invariant
                i <= keys@.len(),
                self.wf(),
                s == self@,
                n == s.segments.len(),
                firsts@.len() == keys@.len(),
                forall|k: int|
                    0 <= k < keys@.len() ==> first_same(keys@, k, #[trigger] firsts@[k] as int),
                sized(x, i as nat),
                forall|k: int| 0 <= k < i ==> #[trigger] slot_fine(s, keys@, n, x, k),
                forall|k: int|
                    0 <= k < i ==> (#[trigger] x.open@[k]) == (is_first(keys@, k) && mem_find(
                        s,
                        keys@[k]@,
                        None,
                    ) is None),
            decreases keys@.len() - i,
        {
            let ghost x0 = x;
            let f = firsts[i];
            assert(first_same(keys@, i as int, f as int));
            let zero = Tally { considered: 0, range_skipped: 0, bloom_skipped: 0, searched: 0 };
            if f == i {
                assert(is_first(keys@, i as int));
                match self.find_in_memory(keys[i], None) {
                    Some(e) => {
                        x.open.push(false);
                        x.answers.push(entry_value(e));
                    },
                    None => {
                        x.open.push(true);
                        x.answers.push(None);
                    },
                }
            } else {
                assert(keys@[f as int]@ == keys@[i as int]@);
                assert(!is_first(keys@, i as int));
                x.open.push(false);
                x.answers.push(None);
            }
            x.tallies.push(zero);
            proof {
                assert(zero@ =~= counts_zero());
                assert(met_counts(s.segments, n, n as int, keys@[i as int]@) == counts_zero());
                assert forall|k: int| 0 <= k < i + 1 implies #[trigger] slot_fine(
                    s,
                    keys@,
                    n,
                    x,
                    k,
                ) by {
                    if k < i {
                        assert(slot_fine(s, keys@, n, x0, k));
                        assert(slot_at(x, k) == slot_at(x0, k));
                    }
                }
                assert forall|k: int| 0 <= k < i + 1 implies (#[trigger] x.open@[k]) == (is_first(
                    keys@,
                    k,
                ) && mem_find(s, keys@[k]@, None) is None) by {
                    if k < i {
                        assert(x.open@[k] == x0.open@[k]);
                    }
                }
            }
            i += 1;
        }
        x
    }

    /// Counts a batch that met the segments from `lo` on.
    fn count_many(
        &self,
        keys: &Vec<&[u8]>,
        firsts: &Vec<usize>,
        x: &Slots,
        lo: usize,
        stats: &mut Stats,
    )
        requires
            self.wf(),
            lo <= self@.segments.len(),
            sized(*x, keys@.len()),
            firsts@.len() == keys@.len(),
            forall|i: int|
                0 <= i < keys@.len() ==> first_same(keys@, i, #[trigger] firsts@[i] as int),
            forall|i: int| 0 <= i < keys@.len() ==> #[trigger] tallied(self@, keys@, lo as int, *x, i),
        ensures
            final(stats)@ == batch_counts(old(stats)@, self@, keys@, lo as int),
    {
        let ghost s = self@;
        let mut i: usize = 0;
        while i < keys.len()
            invariant
                i <= keys@.len(),
                self.wf(),
                s == self@,
                sized(*x, keys@.len()),
                firsts@.len() == keys@.len(),
                forall|k: int|
                    0 <= k < keys@.len() ==> first_same(keys@, k, #[trigger] firsts@[k] as int),
                forall|k: int| 0 <= k < keys@.len() ==> #[trigger] tallied(s, keys@, lo as int, *x, k),
                stats@ == many_counts(old(stats)@, s, keys@, i as nat, lo as int),
            decreases keys@.len() - i,
        {
            let f = firsts[i];
            assert(first_same(keys@, i as int, f as int));
            assert(tallied(s, keys@, lo as int, *x, i as int));
            if f == i {
                assert(is_first(keys@, i as int));
                if self.find_in_memory(keys[i], None).is_some() {
                    stats.count(1, 1, 0, 0, 0, 0);
                } else {
                    let c = x.tallies[i];
                    stats.count(1, 0, 0, c.range_skipped, c.bloom_skipped, c.searched);
                }
            } else {
                assert(!is_first(keys@, i as int)) by {
                    assert(keys@[f as int]@ == keys@[i as int]@);
                }
            }
            i += 1;
        }
        let met: usize = self.segments.len() - lo;
        stats.count(0, 0, met as u64, 0, 0, 0);
    }

    /// Asks the `n`-th segment for every open lookup.
    fn ask_one(
        &self,
        n: usize,
        keys: &Vec<&[u8]>,
        hashes: &Vec<(u64, u64)>,
        x: &mut Slots,
        path: &mut ReadPath,
    ) -> (r: Result<(), FormatError>)
        requires
            self.wf(),
            0 < n <= self@.segments.len(),
            old(path).cache.wf(),
            path_ok(old(path).cache@, old(path).ids@, self@.segments),
            slots_ok(self@, keys@, n as nat, *old(x)),
            hashes@.len() == keys@.len(),
            forall|i: int| 0 <= i < keys@.len() ==> #[trigger] hashes@[i] == hashes_of(keys@[i]@),
        ensures
            final(path).cache.wf(),
            final(path).ids == old(path).ids,
            path_ok(final(path).cache@, final(path).ids@, self@.segments),
            (final(path).cache@, final(path).stats@) == many_after(
                old(path).cache@,
                old(path).stats@,
                old(path).ids@[n - 1],
                self@.segments[n - 1],
                asked_keys(self@, keys@, n as int, keys@.len()),
            ),
            match r {
                Ok(_) => slots_ok(self@, keys@, (n - 1) as nat, *final(x)) && !fails_at(
                    self@,
                    keys@,
                    n as int,
                ),
                Err(e) => asked_in_vain(self@, keys@, n as nat, e@) && sized(
                    *final(x),
                    keys@.len(),
                ) && forall|i: int|
                    0 <= i < keys@.len() ==> #[trigger] tallied(
                        self@,
                        keys@,
                        n - 1,
                        *final(x),
                        i,
                    ),
            },
    {
        let ghost s = self@;
        let ghost ids = path.ids@;
        let seg = &self.segments[n - 1];
        let total: usize = self.segments.len();
        let width: usize = keys.len();
        let count: u32 = seg.block_count;
        assert(s.segments[n - 1] == seg@);
        proof {
            assert(coherent(path.cache@, ids[n - 1], s.segments[n - 1]));
            lemma_asked_len(s, keys@, n as int, keys@.len());
            lemma_batch_coherent(
                path.cache@,
                path.stats@,
                ids,
                s.segments,
                n - 1,
                asked_keys(s, keys@, n as int, keys@.len()),
            );
        }
        ask_all(
            seg,
            keys,
            hashes,
            x,
            path.ids[n - 1],
            &mut path.cache,
            &mut path.stats,
            Ghost(s),
            Ghost(n as nat),
        )
    }

    /// A batch of reads, answered in the order of the keys, with blocks read
    /// through the cache. The newest segment that fails on a key ends it; what
    /// was met until then counts.
    pub fn get_many_through(&self, keys: &Vec<&[u8]>, path: &mut ReadPath) -> (r: Result<
        Vec<Option<Vec<u8>>>,
        FormatError,
    >)
        requires
            self.wf(),
            old(path).cache.wf(),
            path_ok(old(path).cache@, old(path).ids@, self@.segments),
        ensures
            many_answers(r, self@, keys@),
            final(path).cache.wf(),
            final(path).ids == old(path).ids,
            path_ok(final(path).cache@, final(path).ids@, self@.segments),
            match r {
                Ok(_) => batch_ends(*old(path), *final(path), self@, keys@, 0) && forall|n: int|
                    0 < n <= self@.segments.len() ==> !#[trigger] fails_at(self@, keys@, n),
                Err(e) => exists|n: int| #[trigger]
                    stops_at(self@, keys@, n, e@) && batch_ends(
                        *old(path),
                        *final(path),
                        self@,
                        keys@,
                        n - 1,
                    ),
            },
    {
        let ghost c0 = path.cache@;
        let ghost st0 = path.stats@;
        let ghost ids = path.ids@;
        let ghost s = self@;
        let firsts = first_positions(keys);
        let mut x = self.start_many(keys, &firsts);
        let hashes = hashes_for(keys);
        let len = self.segments.len();
        let mut n: usize = len;
        while n > 0
            invariant
                n <= len,
                len == self.segments@.len(),
                self.wf(),
                s == self@,
                s.segments == segs_view(self.segments@),
                c0 == old(path).cache@,
                st0 == old(path).stats@,
                ids == old(path).ids@,
                path.ids == old(path).ids,
                path.cache.wf(),
                path_ok(path.cache@, ids, s.segments),
                (path.cache@, path.stats@) == after_batch(c0, st0, ids, s, keys@, n as int),
                slots_ok(s, keys@, n as nat, x),
                forall|m: int| n < m <= len ==> !#[trigger] fails_at(s, keys@, m),
                firsts@.len() == keys@.len(),
                forall|k: int|
                    0 <= k < keys@.len() ==> first_same(keys@, k, #[trigger] firsts@[k] as int),
                hashes@.len() == keys@.len(),
                forall|i: int|
                    0 <= i < keys@.len() ==> #[trigger] hashes@[i] == hashes_of(keys@[i]@),
            decreases n,
        {
            assert(s.segments[n - 1] == self.segments@[n - 1]@);
            match self.ask_one(n, keys, &hashes, &mut x, path) {
                Err(e) => {
                    self.count_many(keys, &firsts, &x, n - 1, &mut path.stats);
                    proof {
                        let i = choose|i: int| #[trigger]
                            fails_first(s, keys@, n as int, i, e@) && db_get(s, keys@[i]@) == Err::<
                                Option<Seq<u8>>,
                                ErrV,
                            >(e@);
                        assert(stops_at(s, keys@, n as int, e@));
                    }
                    return Err(e);
                },
                Ok(_) => {},
            }
            n -= 1;
        }
        let mut out: Vec<Option<Vec<u8>>> = Vec::new();
        let mut i: usize = 0;
        while i < keys.len()
            invariant
                i <= keys@.len(),
                s == self@,
                slots_ok(s, keys@, 0, x),
                firsts@.len() == keys@.len(),
                forall|k: int|
                    0 <= k < keys@.len() ==> first_same(keys@, k, #[trigger] firsts@[k] as int),
                out@.len() == i,
                forall|k: int|
                    0 <= k < i ==> db_get(s, keys@[k]@) == Ok::<Option<Seq<u8>>, ErrV>(
                        value_view(#[trigger] out@[k]),
                    ),
            decreases keys@.len() - i,
        {
            let f = firsts[i];
            assert(first_same(keys@, i as int, f as int));
            assert(is_first(keys@, f as int));
            assert(slot_fine(s, keys@, 0, x, f as int));
            if x.open[f] {
                out.push(None);
            } else {
                out.push(copy_value(&x.answers[f]));
            }
            i += 1;
        }
        proof {
            assert forall|k: int| 0 <= k < keys@.len() implies #[trigger] tallied(s, keys@, 0, x, k) by {
                assert(slot_fine(s, keys@, 0, x, k));
            }
        }
        self.count_many(keys, &firsts, &x, 0, &mut path.stats);
        Ok(out)
    }

    /// A batch of reads, answered in the order of the keys.
    pub fn get_many(&self, keys: &Vec<&[u8]>) -> (r: Result<Vec<Option<Vec<u8>>>, FormatError>)
        requires
            self.wf(),
        ensures
            many_answers(r, self@, keys@),
            r matches Err(e) ==> exists|n: int| #[trigger] stops_at(self@, keys@, n, e@),
    {
        let mut path = ReadPath::new(0);
        assert(self@.segments.len() == self.segments@.len());
        let n: usize = self.segments.len();
        path.attach(self);
        self.get_many_through(keys, &mut path)
    }
}

/// The path after a batch that met the segments from `lo` on.
pub open spec fn batch_ends(p0: ReadPath, p1: ReadPath, s: DbV, keys: Seq<&[u8]>, lo: int) -> bool {
    let (c, st) = after_batch(p0.cache@, p0.stats@, p0.ids@, s, keys, lo);
    p1.cache@ == c && p1.stats@ == batch_counts(st, s, keys, lo)
}

proof fn lemma_probes_coherent(
    c: CacheV,
    st: ReadPathStats,
    ids: Seq<u64>,
    segs: Seq<SegV>,
    n: int,
    ks: Seq<Seq<u8>>,
    ps: Seq<SegProbe>,
    k: nat,
)
    requires
        path_ok(c, ids, segs),
        0 <= n < ids.len(),
        segs[n].data.len() <= u32::MAX,
        probe_list(segs[n], ks, ps),
        k <= ps.len(),
    ensures
        path_ok(probes_after(c, st, ids[n], segs[n], ks, ps, k).0, ids, segs),
    decreases k,
{
    if k > 0 {
        lemma_probes_coherent(c, st, ids, segs, n, ks, ps, (k - 1) as nat);
        let c1 = probes_after(c, st, ids[n], segs[n], ks, ps, (k - 1) as nat).0;
        assert(ps.contains(ps[k - 1]));
        lemma_part_point(segs[n].data, ks[ps[k - 1].pos as int], 0, segs[n].data.len() as int);
        lemma_block_coherent(c1, ids, segs, n, ps[k - 1].block as int);
    }
}

/// A batch of lookups keeps the path sound.
proof fn lemma_batch_coherent(
    c: CacheV,
    st: ReadPathStats,
    ids: Seq<u64>,
    segs: Seq<SegV>,
    n: int,
    ks: Seq<Seq<u8>>,
)
    requires
        path_ok(c, ids, segs),
        0 <= n < ids.len(),
        segs[n].data.len() <= u32::MAX,
        ks.len() <= usize::MAX,
    ensures
        path_ok(many_after(c, st, ids[n], segs[n], ks).0, ids, segs),
{
    lemma_probes_exist(segs[n], ks);
    let ps = probes_of(segs[n], ks);
    lemma_probes_coherent(c, st, ids, segs, n, ks, ps, ps.len());
}

} // verus!
