//! The k-way merge of ordered inputs.

use crate::cache::CacheV;
use crate::codec::{compare, lemma_lex_total, lex_lt, Order};
use crate::compaction::run::{all_wf, inputs_of, segs_view};
use crate::db::cached::{lemma_block_coherent, path_ok, ReadPath};
use crate::format::{ErrV, FormatError};
use crate::segment::cached::{cache_after, coherent, load_stats};
use crate::segment::entry::{entries_view, EntryV, SegmentEntry};
use crate::segment::open::{SegV, SegmentReader};
use crate::segment::read::{all_from, block_at};
use crate::stats::ReadPathStats;
use vstd::prelude::*;

verus! {

/// The head of a later input goes before that of an earlier one: by key, then
/// newest first, and before its equal.
pub open spec fn beats(later: EntryV, earlier: EntryV) -> bool {
    lex_lt(later.key, earlier.key) || (later.key == earlier.key && later.seq >= earlier.seq)
}

/// Which of the first `n` inputs has the head that goes first.
pub open spec fn best(pend: Seq<Seq<EntryV>>, n: nat) -> Option<int>
    decreases n,
{
    if n == 0 {
        None
    } else {
        let prev = best(pend, (n - 1) as nat);
        if pend[n - 1].len() == 0 {
            prev
        } else {
            match prev {
                None => Some(n - 1),
                Some(i) => if beats(pend[n - 1][0], pend[i][0]) {
                    Some(n - 1)
                } else {
                    prev
                },
            }
        }
    }
}

/// How many entries are left in all.
pub open spec fn left_over(pend: Seq<Seq<EntryV>>) -> nat
    decreases pend.len(),
{
    if pend.len() == 0 {
        0
    } else {
        left_over(pend.drop_last()) + pend.last().len()
    }
}

/// The best head comes from an input that has one.
pub proof fn lemma_best(pend: Seq<Seq<EntryV>>, n: nat)
    requires
        n <= pend.len(),
    ensures
        match best(pend, n) {
            Some(i) => 0 <= i < n && pend[i].len() > 0,
            None => forall|i: int| 0 <= i < n ==> (#[trigger] pend[i]).len() == 0,
        },
    decreases n,
{
    if n > 0 {
        lemma_best(pend, (n - 1) as nat);
    }
}

/// One input less its head.
pub open spec fn without_head(pend: Seq<Seq<EntryV>>, i: int) -> Seq<Seq<EntryV>> {
    pend.update(i, pend[i].skip(1))
}

pub proof fn lemma_left_over(pend: Seq<Seq<EntryV>>, i: int)
    requires
        0 <= i < pend.len(),
        pend[i].len() > 0,
    ensures
        left_over(without_head(pend, i)) + 1 == left_over(pend),
    decreases pend.len(),
{
    let q = without_head(pend, i);
    if i == pend.len() - 1 {
        assert(q.drop_last() =~= pend.drop_last());
    } else {
        lemma_left_over(pend.drop_last(), i);
        assert(q.drop_last() =~= without_head(pend.drop_last(), i));
    }
}

/// All inputs merged.
pub open spec fn merged(pend: Seq<Seq<EntryV>>) -> Seq<EntryV>
    decreases left_over(pend),
{
    match best(pend, pend.len()) {
        None => seq![],
        Some(i) => {
            proof {
                lemma_best(pend, pend.len());
                if 0 <= i < pend.len() {
                    lemma_left_over(pend, i);
                }
            }
            if left_over(without_head(pend, i)) < left_over(pend) {
                seq![pend[i][0]] + merged(without_head(pend, i))
            } else {
                seq![]
            }
        },
    }
}

/// What is held of an input: the entries of one block, how many of them were
/// taken, and the next block to decode.
pub struct Front {
    pub entries: Vec<SegmentEntry>,
    pub next: usize,
    pub block: usize,
}

/// What is held of an input, as a value.
#[verifier::ext_equal]
pub struct FrontV {
    pub held: Seq<EntryV>,
    pub block: int,
}

impl View for Front {
    type V = FrontV;

    open spec fn view(&self) -> FrontV {
        FrontV {
            held: entries_view(self.entries@).skip(self.next as int),
            block: self.block as int,
        }
    }
}

pub open spec fn fronts_view(s: Seq<Front>) -> Seq<FrontV> {
    Seq::new(s.len(), |i: int| s[i]@)
}

/// No more is taken than is held.
pub open spec fn fronts_wf(s: Seq<Front>) -> bool {
    forall|i: int| 0 <= i < s.len() ==> (#[trigger] s[i]).next <= s[i].entries@.len()
}

/// An input of which nothing was read.
pub open spec fn front_zero() -> FrontV {
    FrontV { held: seq![], block: 0 }
}

/// An input after blocks were decoded until an entry is at hand.
pub open spec fn refilled(f: FrontV, s: SegV) -> Result<FrontV, ErrV>
    decreases s.data.len() - f.block,
{
    if f.held.len() > 0 || f.block < 0 || f.block >= s.data.len() {
        Ok(f)
    } else {
        match block_at(s, f.block) {
            Err(e) => Err(e),
            Ok(es) => refilled(FrontV { held: es, block: f.block + 1 }, s),
        }
    }
}

/// The cache and the counters after that.
pub open spec fn refill_cost(f: FrontV, s: SegV, id: u64, c: CacheV, st: ReadPathStats) -> (
    CacheV,
    ReadPathStats,
)
    decreases s.data.len() - f.block,
{
    if f.held.len() > 0 || f.block < 0 || f.block >= s.data.len() {
        (c, st)
    } else {
        let c1 = cache_after(c, id, s, f.block);
        let st1 = load_stats(st, c, id, s, f.block);
        match block_at(s, f.block) {
            Err(_) => (c1, st1),
            Ok(es) => refill_cost(FrontV { held: es, block: f.block + 1 }, s, id, c1, st1),
        }
    }
}

/// The first `n` inputs with an entry of each at hand, read in their order.
pub open spec fn begun(segs: Seq<SegV>, n: nat) -> Result<Seq<FrontV>, ErrV>
    decreases n,
{
    if n == 0 {
        Ok(seq![])
    } else {
        match begun(segs, (n - 1) as nat) {
            Err(e) => Err(e),
            Ok(fs) => match refilled(front_zero(), segs[n - 1]) {
                Err(e) => Err(e),
                Ok(f) => Ok(fs.push(f)),
            },
        }
    }
}

/// The cache and the counters after that.
pub open spec fn begin_cost(
    segs: Seq<SegV>,
    ids: Seq<u64>,
    n: nat,
    c: CacheV,
    st: ReadPathStats,
) -> (CacheV, ReadPathStats)
    decreases n,
{
    if n == 0 {
        (c, st)
    } else {
        let (c1, st1) = begin_cost(segs, ids, (n - 1) as nat, c, st);
        if begun(segs, (n - 1) as nat) is Err {
            (c1, st1)
        } else {
            refill_cost(front_zero(), segs[n - 1], ids[n - 1], c1, st1)
        }
    }
}

/// The entries at hand.
pub open spec fn helds(fs: Seq<FrontV>) -> Seq<Seq<EntryV>> {
    Seq::new(fs.len(), |i: int| fs[i].held)
}

/// What every input has left, up to the first block that does not decode.
pub open spec fn lefts(fs: Seq<FrontV>, segs: Seq<SegV>) -> Seq<Seq<EntryV>> {
    Seq::new(fs.len(), |i: int| fs[i].held + readable(segs[i], fs[i].block))
}

/// An input less the entry at hand.
pub open spec fn taken(f: FrontV) -> FrontV {
    FrontV { held: f.held.skip(1), block: f.block }
}

/// What a merge gives from there on: the entries in merge order and, where a
/// block does not decode, its failure. The input of the entry that was taken
/// last is read on before the next is taken.
pub open spec fn given(fs: Seq<FrontV>, segs: Seq<SegV>) -> (Seq<EntryV>, Option<ErrV>)
    decreases left_over(lefts(fs, segs)),
{
    match best(helds(fs), fs.len()) {
        None => (seq![], None),
        Some(i) => match refilled(taken(fs[i]), segs[i]) {
            Err(e) => (seq![fs[i].held[0]], Some(e)),
            Ok(f) => {
                let next = fs.update(i, f);
                if left_over(lefts(next, segs)) < left_over(lefts(fs, segs)) {
                    let (es, end) = given(next, segs);
                    (seq![fs[i].held[0]] + es, end)
                } else {
                    (seq![], None)
                }
            },
        },
    }
}

/// The cache and the counters after that.
pub open spec fn given_cost(
    fs: Seq<FrontV>,
    segs: Seq<SegV>,
    ids: Seq<u64>,
    c: CacheV,
    st: ReadPathStats,
) -> (CacheV, ReadPathStats)
    decreases left_over(lefts(fs, segs)),
{
    match best(helds(fs), fs.len()) {
        None => (c, st),
        Some(i) => {
            let (c1, st1) = refill_cost(taken(fs[i]), segs[i], ids[i], c, st);
            match refilled(taken(fs[i]), segs[i]) {
                Err(_) => (c1, st1),
                Ok(f) => {
                    let next = fs.update(i, f);
                    if left_over(lefts(next, segs)) < left_over(lefts(fs, segs)) {
                        given_cost(next, segs, ids, c1, st1)
                    } else {
                        (c1, st1)
                    }
                },
            }
        },
    }
}

/// What a merge of segments reads: the entries in merge order, and the first
/// failure, which ends it.
pub open spec fn merge_reads(segs: Seq<SegV>) -> (Seq<EntryV>, Option<ErrV>) {
    match begun(segs, segs.len()) {
        Err(e) => (seq![], Some(e)),
        Ok(fs) => given(fs, segs),
    }
}

/// The cache and the counters after a merge of segments.
pub open spec fn merge_cost(segs: Seq<SegV>, ids: Seq<u64>, c: CacheV, st: ReadPathStats) -> (
    CacheV,
    ReadPathStats,
) {
    let (c1, st1) = begin_cost(segs, ids, segs.len(), c, st);
    match begun(segs, segs.len()) {
        Err(_) => (c1, st1),
        Ok(fs) => given_cost(fs, segs, ids, c1, st1),
    }
}

/// The entries from block `i` on, up to the first that does not decode.
pub open spec fn readable(s: SegV, i: int) -> Seq<EntryV>
    decreases s.data.len() - i,
{
    if i < 0 || i >= s.data.len() {
        seq![]
    } else {
        match block_at(s, i) {
            Err(_) => seq![],
            Ok(es) => es + readable(s, i + 1),
        }
    }
}

proof fn lemma_readable(s: SegV, i: int)
    requires
        0 <= i,
        all_from(s, i) is Ok,
    ensures
        all_from(s, i)->Ok_0 == readable(s, i),
    decreases s.data.len() - i,
{
    if i < s.data.len() {
        lemma_readable(s, i + 1);
    }
}

/// A front stands where it may: no failure lies behind it.
pub open spec fn front_ok(f: FrontV, s: SegV) -> bool {
    &&& 0 <= f.block <= s.data.len()
    &&& all_from(s, f.block) is Err ==> all_from(s, 0) == all_from(s, f.block)
    &&& all_from(s, 0) is Err ==> all_from(s, f.block) is Err
}

/// A front with an entry at hand, or with nothing left.
pub open spec fn front_ready(f: FrontV, s: SegV) -> bool {
    f.held.len() > 0 || f.block == s.data.len()
}

/// Every front stands where it may, with an entry at hand.
pub open spec fn fronts_ready(fs: Seq<FrontV>, segs: Seq<SegV>) -> bool {
    &&& fs.len() <= segs.len()
    &&& forall|i: int|
        0 <= i < fs.len() ==> front_ok(#[trigger] fs[i], segs[i]) && front_ready(fs[i], segs[i])
}

/// Decoding blocks loses nothing.
proof fn lemma_refilled(f: FrontV, s: SegV)
    requires
        front_ok(f, s),
    ensures
        match refilled(f, s) {
            Ok(g) => front_ok(g, s) && front_ready(g, s) && g.held + readable(s, g.block) == f.held
                + readable(s, f.block),
            Err(e) => all_from(s, 0) == Err::<Seq<EntryV>, ErrV>(e),
        },
    decreases s.data.len() - f.block,
{
    if !(f.held.len() > 0 || f.block < 0 || f.block >= s.data.len()) {
        if let Ok(es) = block_at(s, f.block) {
            let g = FrontV { held: es, block: f.block + 1 };
            lemma_refilled(g, s);
            assert(f.held + (es + readable(s, f.block + 1)) =~= es + readable(s, f.block + 1));
        }
    }
}

/// The heads at hand are the heads of what is left.
proof fn lemma_heads(fs: Seq<FrontV>, segs: Seq<SegV>, n: nat)
    requires
        n <= fs.len(),
        fronts_ready(fs, segs),
    ensures
        best(helds(fs), n) == best(lefts(fs, segs), n),
    decreases n,
{
    if n > 0 {
        lemma_heads(fs, segs, (n - 1) as nat);
        assert(front_ready(fs[n - 1], segs[n - 1]));
        let a = helds(fs);
        let b = lefts(fs, segs);
        assert(b[n - 1] == fs[n - 1].held + readable(segs[n - 1], fs[n - 1].block));
        lemma_best(a, (n - 1) as nat);
        if let Some(i) = best(a, (n - 1) as nat) {
            assert(a[i].len() > 0);
            assert(a[i][0] == b[i][0]);
        }
        if a[n - 1].len() == 0 {
            assert(readable(segs[n - 1], fs[n - 1].block) =~= seq![]);
        } else {
            assert(a[n - 1][0] == b[n - 1][0]);
        }
    }
}

/// One step of a merge.
proof fn lemma_step(fs: Seq<FrontV>, segs: Seq<SegV>, i: int)
    requires
        fronts_ready(fs, segs),
        0 <= i < fs.len(),
        fs[i].held.len() > 0,
    ensures
        match refilled(taken(fs[i]), segs[i]) {
            Err(e) => input_fails(segs, e),
            Ok(f) => {
                &&& fronts_ready(fs.update(i, f), segs)
                &&& lefts(fs.update(i, f), segs) == without_head(lefts(fs, segs), i)
                &&& left_over(lefts(fs.update(i, f), segs)) + 1 == left_over(lefts(fs, segs))
            },
        },
{
    let f0 = fs[i];
    let pend = lefts(fs, segs);
    assert(front_ok(f0, segs[i]));
    lemma_refilled(taken(f0), segs[i]);
    if let Ok(f) = refilled(taken(f0), segs[i]) {
        let next = fs.update(i, f);
        assert(pend[i] == f0.held + readable(segs[i], f0.block));
        assert(pend[i].skip(1) =~= f0.held.skip(1) + readable(segs[i], f0.block));
        assert(lefts(next, segs) =~= without_head(pend, i));
        lemma_left_over(pend, i);
        assert forall|k: int| 0 <= k < next.len() implies front_ok(#[trigger] next[k], segs[k])
            && front_ready(next[k], segs[k]) by {
            if k != i {
                assert(next[k] == fs[k]);
            }
        }
    }
}

/// A merge that reads every block gives all entries; one that does not ends
/// with the failure of an input.
proof fn lemma_given(fs: Seq<FrontV>, segs: Seq<SegV>)
    requires
        fs.len() == segs.len(),
        fronts_ready(fs, segs),
    ensures
        given(fs, segs).0.len() <= left_over(lefts(fs, segs)),
        match given(fs, segs).1 {
            None => given(fs, segs).0 == merged(lefts(fs, segs)) && forall|i: int|
                0 <= i < segs.len() ==> all_from(#[trigger] segs[i], 0) is Ok,
            Some(e) => input_fails(segs, e),
        },
    decreases left_over(lefts(fs, segs)),
{
    let pend = lefts(fs, segs);
    lemma_heads(fs, segs, fs.len());
    lemma_best(helds(fs), fs.len());
    match best(helds(fs), fs.len()) {
        None => {
            assert forall|i: int| 0 <= i < segs.len() implies all_from(
                #[trigger] segs[i],
                0,
            ) is Ok by {
                assert(front_ok(fs[i], segs[i]) && front_ready(fs[i], segs[i]));
                assert(helds(fs)[i].len() == 0);
            }
        },
        Some(i) => {
            lemma_step(fs, segs, i);
            assert(helds(fs)[i] == fs[i].held);
            assert(pend[i] == fs[i].held + readable(segs[i], fs[i].block));
            assert(pend[i][0] == fs[i].held[0]);
            lemma_left_over(pend, i);
            if let Ok(f) = refilled(taken(fs[i]), segs[i]) {
                lemma_given(fs.update(i, f), segs);
            }
        },
    }
}

/// What the inputs hold, up to the first block of each that does not decode.
pub open spec fn readables(segs: Seq<SegV>) -> Seq<Seq<EntryV>> {
    Seq::new(segs.len(), |i: int| readable(segs[i], 0))
}

proof fn lemma_begun(segs: Seq<SegV>, n: nat)
    requires
        n <= segs.len(),
    ensures
        match begun(segs, n) {
            Err(e) => input_fails(segs, e) && begun(segs, segs.len()) == begun(segs, n),
            Ok(fs) => fs.len() == n && fronts_ready(fs, segs) && lefts(fs, segs) == readables(
                segs,
            ).take(n as int),
        },
    decreases n,
{
    if n == 0 {
        assert(lefts(seq![], segs) =~= readables(segs).take(0));
    } else {
        lemma_begun(segs, (n - 1) as nat);
        let s = segs[n - 1];
        lemma_refilled(front_zero(), s);
        assert(front_zero().held + readable(s, 0) =~= readable(s, 0));
        match begun(segs, n) {
            Err(e) => {
                lemma_begun_stays(segs, n, segs.len());
            },
            Ok(fs) => {
                let prev = begun(segs, (n - 1) as nat)->Ok_0;
                assert(fs.drop_last() =~= prev);
                assert forall|i: int| 0 <= i < fs.len() implies front_ok(#[trigger] fs[i], segs[i])
                    && front_ready(fs[i], segs[i]) by {
                    if i < n - 1 {
                        assert(fs[i] == prev[i]);
                    }
                }
                assert forall|i: int| 0 <= i < n implies lefts(fs, segs)[i] == readables(segs)[i] by {
                    if i < n - 1 {
                        assert(lefts(prev, segs)[i] == readables(segs).take(n - 1)[i]);
                        assert(fs[i] == prev[i]);
                    }
                }
                assert(lefts(fs, segs) =~= readables(segs).take(n as int));
            },
        }
    }
}

/// Behind a failure nothing more is read.
proof fn lemma_begun_stays(segs: Seq<SegV>, k: nat, n: nat)
    requires
        k <= n,
        begun(segs, k) is Err,
    ensures
        begun(segs, n) == begun(segs, k),
        forall|ids: Seq<u64>, c: CacheV, st: ReadPathStats| #[trigger]
            begin_cost(segs, ids, n, c, st) == begin_cost(segs, ids, k, c, st),
    decreases n,
{
    if k < n {
        let m = (n - 1) as nat;
        lemma_begun_stays(segs, k, m);
        assert forall|ids: Seq<u64>, c: CacheV, st: ReadPathStats| #[trigger]
            begin_cost(segs, ids, n, c, st) == begin_cost(segs, ids, k, c, st) by {
            assert(begin_cost(segs, ids, m, c, st) == begin_cost(segs, ids, k, c, st));
        }
    }
}

/// Some input does not decode, with this failure.
pub open spec fn input_fails(segs: Seq<SegV>, e: ErrV) -> bool {
    exists|i: int|
        0 <= i < segs.len() && all_from(#[trigger] segs[i], 0) == Err::<Seq<EntryV>, ErrV>(e)
}

/// Every input decodes.
proof fn lemma_inputs_whole(segs: Seq<SegV>, n: nat)
    requires
        n <= segs.len(),
        forall|i: int| 0 <= i < segs.len() ==> all_from(#[trigger] segs[i], 0) is Ok,
    ensures
        inputs_of(segs, n) == Ok::<Seq<Seq<EntryV>>, ErrV>(
            Seq::new(n, |i: int| readable(segs[i], 0)),
        ),
    decreases n,
{
    let all = Seq::new(n, |i: int| readable(segs[i], 0));
    if n == 0 {
        assert(all =~= seq![]);
    } else {
        lemma_inputs_whole(segs, (n - 1) as nat);
        assert(all_from(segs[n - 1], 0) is Ok);
        lemma_readable(segs[n - 1], 0);
        assert(all =~= Seq::new((n - 1) as nat, |i: int| readable(segs[i], 0)).push(
            readable(segs[n - 1], 0),
        ));
    }
}

proof fn lemma_input_fails(segs: Seq<SegV>, n: nat, i: int)
    requires
        0 <= i < n <= segs.len(),
        all_from(segs[i], 0) is Err,
    ensures
        inputs_of(segs, n) is Err,
    decreases n,
{
    if i < n - 1 {
        lemma_input_fails(segs, (n - 1) as nat, i);
    }
}

/// A merge gives all entries of its inputs, or ends with the failure of one.
pub proof fn merge_reads_every_entry(segs: Seq<SegV>)
    ensures
        merge_reads(segs).0.len() <= left_over(readables(segs)),
        match merge_reads(segs).1 {
            None => inputs_of(segs, segs.len()) == Ok::<Seq<Seq<EntryV>>, ErrV>(readables(segs))
                && merge_reads(segs).0 == merged(readables(segs)),
            Some(e) => inputs_of(segs, segs.len()) is Err && input_fails(segs, e),
        },
{
    lemma_begun(segs, segs.len());
    assert(readables(segs).take(segs.len() as int) =~= readables(segs));
    if let Ok(fs) = begun(segs, segs.len()) {
        lemma_given(fs, segs);
    }
    match merge_reads(segs).1 {
        None => {
            lemma_inputs_whole(segs, segs.len());
            assert(readables(segs) =~= Seq::new(segs.len(), |i: int| readable(segs[i], 0)));
        },
        Some(e) => {
            let i = choose|i: int|
                0 <= i < segs.len() && all_from(#[trigger] segs[i], 0) == Err::<Seq<EntryV>, ErrV>(
                    e,
                );
            lemma_input_fails(segs, segs.len(), i);
        },
    }
}

// ---------------------------------------------------------------------------
// What a merge loads
/// The blocks that the first `n` inputs have left to load.
pub open spec fn blocks_left(fs: Seq<FrontV>, segs: Seq<SegV>, n: nat) -> int
    decreases n,
{
    if n == 0 {
        0
    } else {
        blocks_left(fs, segs, (n - 1) as nat) + segs[n - 1].data.len() - fs[n - 1].block
    }
}

/// The blocks of the first `n` inputs.
pub open spec fn blocks_of(segs: Seq<SegV>, n: nat) -> nat
    decreases n,
{
    if n == 0 {
        0
    } else {
        blocks_of(segs, (n - 1) as nat) + segs[n - 1].data.len()
    }
}

proof fn lemma_left_moves(fs: Seq<FrontV>, segs: Seq<SegV>, n: nat, i: int, f: FrontV)
    requires
        n <= fs.len() <= segs.len(),
        0 <= i < fs.len(),
    ensures
        blocks_left(fs.update(i, f), segs, n) == blocks_left(fs, segs, n) - (if i < n {
            f.block - fs[i].block
        } else {
            0
        }),
    decreases n,
{
    if n > 0 {
        lemma_left_moves(fs, segs, (n - 1) as nat, i, f);
    }
}

proof fn lemma_left_room(fs: Seq<FrontV>, segs: Seq<SegV>, n: nat)
    requires
        n <= fs.len() <= segs.len(),
        fronts_ready(fs, segs),
    ensures
        blocks_left(fs, segs, n) >= 0,
    decreases n,
{
    if n > 0 {
        lemma_left_room(fs, segs, (n - 1) as nat);
        assert(front_ok(fs[n - 1], segs[n - 1]));
    }
}

/// Without a cache, every block that is decoded is loaded, and nothing else is.
proof fn lemma_refill_loads(f: FrontV, s: SegV, id: u64, c: CacheV, st: ReadPathStats)
    requires
        c.cap == 0,
        front_ok(f, s),
        refilled(f, s) is Ok,
        st.blocks_read + (s.data.len() - f.block) <= u64::MAX,
    ensures
        ({
            let (d, t) = refill_cost(f, s, id, c, st);
            let g = refilled(f, s)->Ok_0;
            &&& d == c
            &&& f.block <= g.block <= s.data.len()
            &&& t.blocks_read == st.blocks_read + (g.block - f.block)
            &&& t.block_cache_hits == st.block_cache_hits
            &&& t.block_cache_misses == st.block_cache_misses
        }),
    decreases s.data.len() - f.block,
{
    if !(f.held.len() > 0 || f.block < 0 || f.block >= s.data.len()) {
        reveal(block_at);
        let es = block_at(s, f.block)->Ok_0;
        let g = FrontV { held: es, block: f.block + 1 };
        let st1 = load_stats(st, c, id, s, f.block);
        assert(front_ok(g, s));
        assert(st1.blocks_read == st.blocks_read + 1);
        lemma_refill_loads(g, s, id, c, st1);
    }
}

proof fn lemma_given_loads(
    fs: Seq<FrontV>,
    segs: Seq<SegV>,
    ids: Seq<u64>,
    c: CacheV,
    st: ReadPathStats,
)
    requires
        c.cap == 0,
        fs.len() == segs.len(),
        fronts_ready(fs, segs),
        given(fs, segs).1 is None,
        st.blocks_read + blocks_left(fs, segs, segs.len()) <= u64::MAX,
    ensures
        ({
            let (d, t) = given_cost(fs, segs, ids, c, st);
            &&& d == c
            &&& t.blocks_read == st.blocks_read + blocks_left(fs, segs, segs.len())
            &&& t.block_cache_hits == st.block_cache_hits
            &&& t.block_cache_misses == st.block_cache_misses
        }),
    decreases left_over(lefts(fs, segs)),
{
    let n = segs.len();
    lemma_best(helds(fs), fs.len());
    lemma_left_room(fs, segs, n);
    match best(helds(fs), fs.len()) {
        None => {
            lemma_all_loaded(fs, segs, n);
        },
        Some(i) => {
            lemma_step(fs, segs, i);
            assert(helds(fs)[i] == fs[i].held);
            let f = refilled(taken(fs[i]), segs[i])->Ok_0;
            let next = fs.update(i, f);
            lemma_left_moves(fs, segs, n, i, f);
            lemma_left_room(next, segs, n);
            assert(front_ok(fs[i], segs[i]));
            lemma_one_left(fs, segs, n, i);
            lemma_refill_loads(taken(fs[i]), segs[i], ids[i], c, st);
            let (c1, st1) = refill_cost(taken(fs[i]), segs[i], ids[i], c, st);
            lemma_given_loads(next, segs, ids, c1, st1);
        },
    }
}

proof fn lemma_one_left(fs: Seq<FrontV>, segs: Seq<SegV>, n: nat, i: int)
    requires
        n <= fs.len() <= segs.len(),
        fronts_ready(fs, segs),
        0 <= i < n,
    ensures
        segs[i].data.len() - fs[i].block <= blocks_left(fs, segs, n),
    decreases n,
{
    lemma_left_room(fs, segs, (n - 1) as nat);
    assert(front_ok(fs[n - 1], segs[n - 1]));
    if i < n - 1 {
        lemma_one_left(fs, segs, (n - 1) as nat, i);
    }
}

proof fn lemma_all_loaded(fs: Seq<FrontV>, segs: Seq<SegV>, n: nat)
    requires
        n <= fs.len() == segs.len(),
        fronts_ready(fs, segs),
        forall|i: int| 0 <= i < fs.len() ==> (#[trigger] helds(fs)[i]).len() == 0,
    ensures
        blocks_left(fs, segs, n) == 0,
    decreases n,
{
    if n > 0 {
        lemma_all_loaded(fs, segs, (n - 1) as nat);
        assert(front_ready(fs[n - 1], segs[n - 1]));
        assert(helds(fs)[n - 1].len() == 0);
    }
}

proof fn lemma_begin_loads(
    segs: Seq<SegV>,
    ids: Seq<u64>,
    n: nat,
    c: CacheV,
    st: ReadPathStats,
)
    requires
        c.cap == 0,
        n <= segs.len(),
        begun(segs, n) is Ok,
        st.blocks_read + blocks_of(segs, segs.len()) <= u64::MAX,
    ensures
        ({
            let (d, t) = begin_cost(segs, ids, n, c, st);
            let fs = begun(segs, n)->Ok_0;
            &&& d == c
            &&& t.blocks_read == st.blocks_read + blocks_of(segs, n) - blocks_left(fs, segs, n)
            &&& t.block_cache_hits == st.block_cache_hits
            &&& t.block_cache_misses == st.block_cache_misses
        }),
    decreases n,
{
    if n > 0 {
        lemma_begin_loads(segs, ids, (n - 1) as nat, c, st);
        lemma_begun(segs, (n - 1) as nat);
        lemma_begun(segs, n);
        let prev = begun(segs, (n - 1) as nat)->Ok_0;
        let fs = begun(segs, n)->Ok_0;
        let (c1, st1) = begin_cost(segs, ids, (n - 1) as nat, c, st);
        lemma_left_room(prev, segs, (n - 1) as nat);
        lemma_blocks_grow(segs, n, segs.len());
        assert(front_ok(front_zero(), segs[n - 1]));
        lemma_refill_loads(front_zero(), segs[n - 1], ids[n - 1], c1, st1);
        lemma_same_left(prev, fs, segs, (n - 1) as nat);
    }
}

proof fn lemma_same_left(a: Seq<FrontV>, b: Seq<FrontV>, segs: Seq<SegV>, n: nat)
    requires
        n <= a.len() <= b.len(),
        forall|i: int| 0 <= i < a.len() ==> (#[trigger] b[i]) == a[i],
    ensures
        blocks_left(a, segs, n) == blocks_left(b, segs, n),
    decreases n,
{
    if n > 0 {
        lemma_same_left(a, b, segs, (n - 1) as nat);
        assert(b[n - 1] == a[n - 1]);
    }
}

proof fn lemma_blocks_grow(segs: Seq<SegV>, k: nat, n: nat)
    requires
        k <= n,
    ensures
        blocks_of(segs, k) <= blocks_of(segs, n),
    decreases n,
{
    if k < n {
        lemma_blocks_grow(segs, k, (n - 1) as nat);
    }
}

/// A merge that reads to its end, without a cache, loads every block of its
/// inputs once, and no other.
pub proof fn merges_load_every_block_once(
    segs: Seq<SegV>,
    ids: Seq<u64>,
    c: CacheV,
    st: ReadPathStats,
)
    requires
        c.cap == 0,
        merge_reads(segs).1 is None,
        st.blocks_read + blocks_of(segs, segs.len()) <= u64::MAX,
    ensures
        ({
            let (d, t) = merge_cost(segs, ids, c, st);
            &&& d == c
            &&& t.blocks_read == st.blocks_read + blocks_of(segs, segs.len())
            &&& t.block_cache_hits == st.block_cache_hits
            &&& t.block_cache_misses == st.block_cache_misses
        }),
{
    let n = segs.len();
    lemma_begun(segs, n);
    let fs = begun(segs, n)->Ok_0;
    lemma_begin_loads(segs, ids, n, c, st);
    let (c1, st1) = begin_cost(segs, ids, n, c, st);
    lemma_left_room(fs, segs, n);
    lemma_given_loads(fs, segs, ids, c1, st1);
}

// ---------------------------------------------------------------------------
// Merging
/// The path of a merge: its cache belongs to the inputs.
pub open spec fn path_fits(path: ReadPath, segs: Seq<SegV>) -> bool {
    path.cache.wf() && path_ok(path.cache@, path.ids@, segs)
}

/// Decodes blocks of input `i` until an entry is at hand.
fn refill(f: &mut Front, readers: &Vec<SegmentReader>, i: usize, path: &mut ReadPath) -> (r: Result<
    (),
    FormatError,
>)
    requires
        all_wf(readers@),
        i < readers@.len(),
        old(f).next <= old(f).entries@.len(),
        path_fits(*old(path), segs_view(readers@)),
    ensures
        final(f).next <= final(f).entries@.len(),
        path_fits(*final(path), segs_view(readers@)),
        final(path).ids == old(path).ids,
        (final(path).cache@, final(path).stats@) == refill_cost(
            old(f)@,
            readers@[i as int]@,
            old(path).ids@[i as int],
            old(path).cache@,
            old(path).stats@,
        ),
        match r {
            Ok(_) => refilled(old(f)@, readers@[i as int]@) == Ok::<FrontV, ErrV>(final(f)@),
            Err(e) => refilled(old(f)@, readers@[i as int]@) == Err::<FrontV, ErrV>(e@),
        },
{
    let reader = &readers[i];
    let ghost s = reader@;
    let ghost segs = segs_view(readers@);
    let ghost id = path.ids@[i as int];
    let ghost cost = refill_cost(f@, s, id, path.cache@, path.stats@);
    let ghost end = refilled(f@, s);
    assert(segs[i as int] == s);
    while f.next >= f.entries.len() && f.block < reader.data.len()
        invariant
            reader.wf(),
            s == reader@,
            segs == segs_view(readers@),
            i < segs.len(),
            segs[i as int] == s,
            s.data.len() == reader.data@.len(),
            f.next <= f.entries@.len(),
            path_fits(*path, segs),
            path.ids == old(path).ids,
            path.ids@[i as int] == id,
            end == refilled(f@, s),
            cost == refill_cost(f@, s, id, path.cache@, path.stats@),
            end == refilled(old(f)@, s),
            cost == refill_cost(old(f)@, s, id, old(path).cache@, old(path).stats@),
        decreases s.data.len() - f.block,
    {
        let b = f.block;
        let count: u32 = reader.block_count;
        proof {
            assert(f@.held =~= seq![]);
            assert(b < count);
            assert(coherent(path.cache@, path.ids@[i as int], segs[i as int]));
            lemma_block_coherent(path.cache@, path.ids@, segs, i as int, b as int);
        }
        match reader.block_entries_cached(b, path.ids[i], &mut path.cache, &mut path.stats) {
            Err(e) => {
                return Err(e);
            },
            Ok(v) => {
                let ghost es = entries_view(v@);
                f.entries = v;
                f.next = 0;
                f.block = b + 1;
                proof {
                    assert(es.skip(0) =~= es);
                    assert(f@ == (FrontV { held: es, block: b + 1 }));
                }
            },
        }
    }
    proof {
        assert(f@.held.len() == f.entries@.len() - f.next);
    }
    Ok(())
}

/// Reads every input up to its first entry.
fn begin(readers: &Vec<SegmentReader>, path: &mut ReadPath) -> (r: Result<Vec<Front>, FormatError>)
    requires
        all_wf(readers@),
        path_fits(*old(path), segs_view(readers@)),
    ensures
        path_fits(*final(path), segs_view(readers@)),
        final(path).ids == old(path).ids,
        (final(path).cache@, final(path).stats@) == begin_cost(
            segs_view(readers@),
            old(path).ids@,
            readers@.len(),
            old(path).cache@,
            old(path).stats@,
        ),
        match r {
            Ok(v) => fronts_wf(v@) && begun(segs_view(readers@), readers@.len()) == Ok::<
                Seq<FrontV>,
                ErrV,
            >(fronts_view(v@)),
            Err(e) => begun(segs_view(readers@), readers@.len()) == Err::<Seq<FrontV>, ErrV>(e@),
        },
{
    let ghost segs = segs_view(readers@);
    let mut fronts: Vec<Front> = Vec::new();
    let mut k: usize = 0;
    assert(fronts_view(fronts@) =~= seq![]);
    while k < readers.len()
        invariant
            k <= readers@.len(),
            all_wf(readers@),
            segs == segs_view(readers@),
            segs.len() == readers@.len(),
            fronts@.len() == k,
            fronts_wf(fronts@),
            path_fits(*path, segs),
            path.ids == old(path).ids,
            begun(segs, k as nat) == Ok::<Seq<FrontV>, ErrV>(fronts_view(fronts@)),
            (path.cache@, path.stats@) == begin_cost(
                segs,
                old(path).ids@,
                k as nat,
                old(path).cache@,
                old(path).stats@,
            ),
        decreases readers@.len() - k,
    {
        let mut f = Front { entries: Vec::new(), next: 0, block: 0 };
        assert(f@.held =~= seq![]);
        assert(f@ == front_zero());
        assert(segs[k as int] == readers@[k as int]@);
        match refill(&mut f, readers, k, path) {
            Err(e) => {
                proof {
                    assert(begun(segs, (k + 1) as nat) == Err::<Seq<FrontV>, ErrV>(e@));
                    lemma_begun_stays(segs, (k + 1) as nat, segs.len());
                }
                return Err(e);
            },
            Ok(_) => {},
        }
        let ghost before = fronts@;
        fronts.push(f);
        assert(fronts_view(fronts@) =~= fronts_view(before).push(fronts@[k as int]@));
        k += 1;
    }
    Ok(fronts)
}

/// The input whose head goes first.
fn pick(fronts: &Vec<Front>) -> (r: Option<usize>)
    requires
        fronts_wf(fronts@),
    ensures
        match r {
            Some(i) => i < fronts@.len() && fronts@[i as int].next < fronts@[i as int].entries@.len()
                && best(helds(fronts_view(fronts@)), fronts@.len()) == Some(i as int),
            None => best(helds(fronts_view(fronts@)), fronts@.len()) is None,
        },
{
    let ghost pend = helds(fronts_view(fronts@));
    let mut found: Option<usize> = None;
    let mut n: usize = 0;
    while n < fronts.len()
        invariant
            n <= fronts@.len(),
            pend == helds(fronts_view(fronts@)),
            fronts_wf(fronts@),
            match found {
                Some(i) => best(pend, n as nat) == Some(i as int) && i < n && fronts@[i as int].next
                    < fronts@[i as int].entries@.len(),
                None => best(pend, n as nat) is None,
            },
        decreases fronts@.len() - n,
    {
        let f = &fronts[n];
        assert(pend[n as int] == fronts@[n as int]@.held);
        assert(pend[n as int].len() == f.entries@.len() - f.next);
        if f.next < f.entries.len() {
            let e = &f.entries[f.next];
            assert(pend[n as int][0] == e@);
            match found {
                None => {
                    found = Some(n);
                },
                Some(i) => {
                    let b = &fronts[i].entries[fronts[i].next];
                    assert(pend[i as int] == fronts@[i as int]@.held);
                    assert(pend[i as int][0] == b@);
                    proof {
                        lemma_lex_total(e.key@, b.key@);
                    }
                    let wins = match compare(e.key.as_slice(), b.key.as_slice()) {
                        Order::Less => true,
                        Order::Equal => e.seq >= b.seq,
                        Order::Greater => false,
                    };
                    if wins {
                        found = Some(n);
                    }
                },
            }
        }
        n += 1;
    }
    found
}

/// An error that may be.
pub open spec fn end_view(e: Option<FormatError>) -> Option<ErrV> {
    match e {
        Some(e) => Some(e@),
        None => None,
    }
}

/// Merges segments, with one decoded block of each at hand, read through the
/// cache. Where a block does not decode, the entries before it come with its
/// failure.
pub fn merge_readers(readers: &Vec<SegmentReader>, path: &mut ReadPath) -> (r: (
    Vec<SegmentEntry>,
    Option<FormatError>,
))
    requires
        all_wf(readers@),
        path_fits(*old(path), segs_view(readers@)),
    ensures
        (entries_view(r.0@), end_view(r.1)) == merge_reads(segs_view(readers@)),
        path_fits(*final(path), segs_view(readers@)),
        final(path).ids == old(path).ids,
        (final(path).cache@, final(path).stats@) == merge_cost(
            segs_view(readers@),
            old(path).ids@,
            old(path).cache@,
            old(path).stats@,
        ),
{
    let ghost segs = segs_view(readers@);
    let ghost ids = path.ids@;
    let ghost cost = merge_cost(segs, ids, path.cache@, path.stats@);
    let ghost whole = merge_reads(segs);
    let mut out: Vec<SegmentEntry> = Vec::new();
    assert(segs.len() == readers@.len());
    assert(entries_view(out@) =~= seq![]);
    proof {
        lemma_begun(segs, segs.len());
    }
    let mut fronts = match begin(readers, path) {
        Err(e) => {
            return (out, Some(e));
        },
        Ok(v) => v,
    };
    proof {
        let g = given(fronts_view(fronts@), segs);
        assert(entries_view(out@) + g.0 =~= g.0);
    }
    loop
        invariant
            all_wf(readers@),
            segs == segs_view(readers@),
            segs.len() == readers@.len(),
            fronts@.len() == segs.len(),
            fronts_wf(fronts@),
            fronts_ready(fronts_view(fronts@), segs),
            path_fits(*path, segs),
            path.ids == old(path).ids,
            ids == path.ids@,
            cost == merge_cost(segs, ids, old(path).cache@, old(path).stats@),
            whole == merge_reads(segs),
            cost == given_cost(fronts_view(fronts@), segs, ids, path.cache@, path.stats@),
            whole.0 == entries_view(out@) + given(fronts_view(fronts@), segs).0,
            whole.1 == given(fronts_view(fronts@), segs).1,
        decreases left_over(lefts(fronts_view(fronts@), segs)),
    {
        let ghost fs = fronts_view(fronts@);
        proof {
            lemma_best(helds(fs), fs.len());
        }
        match pick(&fronts) {
            None => {
                assert(entries_view(out@) + given(fs, segs).0 =~= entries_view(out@));
                return (out, None);
            },
            Some(i) => {
                let ghost before_fronts = fronts@;
                let ghost before = entries_view(out@);
                let mut f = Front { entries: Vec::new(), next: 0, block: 0 };
                std::mem::swap(&mut f, &mut fronts[i]);
                assert(f == before_fronts[i as int]);
                let p: usize = f.next;
                let size: usize = f.entries.len();
                let e = f.entries[p].duplicate();
                let ghost ev = e@;
                f.next = p + 1;
                out.push(e);
                proof {
                    let held = entries_view(f.entries@);
                    assert(fs[i as int] == before_fronts[i as int]@);
                    assert(held.skip(p as int).skip(1) =~= held.skip(p + 1));
                    assert(f@ == taken(fs[i as int]));
                    assert(fs[i as int].held[0] == ev);
                    assert(entries_view(out@) =~= before.push(ev));
                    assert(segs[i as int] == readers@[i as int]@);
                    lemma_step(fs, segs, i as int);
                }
                match refill(&mut f, readers, i, path) {
                    Err(e) => {
                        assert(before + given(fs, segs).0 =~= entries_view(out@));
                        return (out, Some(e));
                    },
                    Ok(_) => {},
                }
                let ghost done = f;
                std::mem::swap(&mut f, &mut fronts[i]);
                proof {
                    assert(fronts@[i as int] == done);
                    assert forall|k: int| 0 <= k < fronts@.len() && k != i implies fronts@[k]
                        == before_fronts[k] by {}
                    let next = fs.update(i as int, done@);
                    assert(fronts_view(fronts@) =~= next);
                    let rest = given(next, segs);
                    assert(given(fs, segs).0 == seq![ev] + rest.0);
                    assert(before + (seq![ev] + rest.0) =~= before.push(ev) + rest.0);
                }
            },
        }
    }
}

} // verus!
