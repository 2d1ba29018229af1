//! A batch of lookups in one segment: each block is read once for all of its
//! keys, through the shared cache.

use crate::cache::{BlockCache, CacheV};
use crate::format::{ErrV, FormatError};
use crate::segment::cached::{
    cache_after, coherent, decoded_in, lemma_none_decoded, raw_at, stats_after,
};
use crate::segment::entry::{decode_block, entries_view, EntryV, SegmentEntry};
use crate::segment::lookup::{block_get_v2, opt_view};
use crate::segment::open::{SegV, SegmentReader};
use crate::segment::read::{
    answers, block_at, block_head, comes_before, find_key, locate_of, opt_rv, payload_at, seg_get,
    Probe,
};
use crate::sort::{merge_sort, Ranked};
use crate::stats::{ReadPathStats, Stats};
use std::sync::Arc;
use vstd::prelude::*;

verus! {

// ---------------------------------------------------------------------------
// Probes
/// The keys of a batch as values.
pub open spec fn keys_view(keys: Seq<&[u8]>) -> Seq<Seq<u8>> {
    keys.map_values(|k: &[u8]| k@)
}

/// One lookup goes before another: by block, then by position.
pub open spec fn goes_before(a: Probe, b: Probe) -> bool {
    a.block < b.block || (a.block == b.block && a.pos < b.pos)
}

/// The lookups of a batch, by block and then by position: one for each key
/// that a block may hold.
pub open spec fn probe_list(s: SegV, ks: Seq<Seq<u8>>, ps: Seq<Probe>) -> bool {
    &&& forall|i: int, j: int|
        #![trigger ps[i], ps[j]]
        0 <= i < j < ps.len() ==> goes_before(ps[i], ps[j])
    &&& forall|p: Probe| #[trigger]
        ps.contains(p) <==> p.pos < ks.len() && locate_of(s, ks[p.pos as int]) == Some(
            p.block as int,
        )
}

/// The lookups of a batch.
pub open spec fn probes_of(s: SegV, ks: Seq<Seq<u8>>) -> Seq<Probe> {
    choose|ps: Seq<Probe>| probe_list(s, ks, ps)
}

proof fn lemma_same_probes(a: Seq<Probe>, b: Seq<Probe>)
    requires
        forall|i: int, j: int|
            #![trigger a[i], a[j]]
            0 <= i < j < a.len() ==> goes_before(a[i], a[j]),
        forall|i: int, j: int|
            #![trigger b[i], b[j]]
            0 <= i < j < b.len() ==> goes_before(b[i], b[j]),
        forall|p: Probe| #[trigger] a.contains(p) <==> b.contains(p),
    ensures
        a == b,
    decreases a.len(),
{
    if a.len() == 0 {
        if b.len() > 0 {
            assert(b.contains(b[0]));
            assert(a.contains(b[0]));
        }
        assert(a =~= b);
    } else {
        assert(a.contains(a[0]));
        assert(b.contains(a[0]));
        let j = choose|j: int| 0 <= j < b.len() && b[j] == a[0];
        assert(b.contains(b[0]));
        assert(a.contains(b[0]));
        let i = choose|i: int| 0 <= i < a.len() && a[i] == b[0];
        if j > 0 {
            assert(goes_before(b[0], b[j]));
            if i > 0 {
                assert(goes_before(a[0], a[i]));
            }
        }
        assert(a[0] == b[0]);
        let x = a.skip(1);
        let y = b.skip(1);
        assert forall|p: Probe| #[trigger] x.contains(p) <==> y.contains(p) by {
            if x.contains(p) {
                let k = choose|k: int| 0 <= k < x.len() && x[k] == p;
                assert(a[k + 1] == p);
                assert(a.contains(p));
                assert(b.contains(p));
                let l = choose|l: int| 0 <= l < b.len() && b[l] == p;
                assert(goes_before(a[0], a[k + 1]));
                assert(l > 0);
                assert(y[l - 1] == p);
            }
            if y.contains(p) {
                let k = choose|k: int| 0 <= k < y.len() && y[k] == p;
                assert(b[k + 1] == p);
                assert(b.contains(p));
                assert(a.contains(p));
                let l = choose|l: int| 0 <= l < a.len() && a[l] == p;
                assert(goes_before(b[0], b[k + 1]));
                assert(l > 0);
                assert(x[l - 1] == p);
            }
        }
        assert forall|p: int, q: int| #![trigger x[p], x[q]] 0 <= p < q < x.len() implies goes_before(
            x[p],
            x[q],
        ) by {
            assert(goes_before(a[p + 1], a[q + 1]));
        }
        assert forall|p: int, q: int| #![trigger y[p], y[q]] 0 <= p < q < y.len() implies goes_before(
            y[p],
            y[q],
        ) by {
            assert(goes_before(b[p + 1], b[q + 1]));
        }
        lemma_same_probes(x, y);
        assert(a =~= seq![a[0]] + x);
        assert(b =~= seq![a[0]] + y);
    }
}

/// There is one list of lookups.
pub proof fn lemma_probe_list(s: SegV, ks: Seq<Seq<u8>>, ps: Seq<Probe>)
    requires
        probe_list(s, ks, ps),
    ensures
        probes_of(s, ks) == ps,
{
    let q = probes_of(s, ks);
    assert(probe_list(s, ks, q));
    assert forall|p: Probe| #[trigger] q.contains(p) <==> ps.contains(p) by {}
    lemma_same_probes(q, ps);
}

/// The places of a lookup among `n` strictly ordered ones.
proof fn lemma_insert_probe(ps: Seq<Probe>, p: Probe) -> (r: Seq<Probe>)
    requires
        forall|i: int, j: int|
            #![trigger ps[i], ps[j]]
            0 <= i < j < ps.len() ==> goes_before(ps[i], ps[j]),
        !ps.contains(p),
    ensures
        forall|i: int, j: int|
            #![trigger r[i], r[j]]
            0 <= i < j < r.len() ==> goes_before(r[i], r[j]),
        forall|q: Probe| #[trigger] r.contains(q) <==> q == p || ps.contains(q),
    decreases ps.len(),
{
    if ps.len() == 0 || goes_before(ps.last(), p) {
        let r = ps.push(p);
        assert forall|q: Probe| #[trigger] r.contains(q) <==> q == p || ps.contains(q) by {
            if r.contains(q) {
                let k = choose|k: int| 0 <= k < r.len() && r[k] == q;
                if k < ps.len() {
                    assert(ps[k] == q);
                }
            }
            if ps.contains(q) {
                let k = choose|k: int| 0 <= k < ps.len() && ps[k] == q;
                assert(r[k] == q);
            }
            if q == p {
                assert(r[ps.len() as int] == q);
            }
        }
        assert forall|i: int, j: int| #![trigger r[i], r[j]] 0 <= i < j < r.len() implies goes_before(
            r[i],
            r[j],
        ) by {
            if j == ps.len() {
                if i < ps.len() - 1 {
                    assert(goes_before(ps[i], ps[ps.len() - 1]));
                }
            } else {
                assert(goes_before(ps[i], ps[j]));
            }
        }
        r
    } else {
        let front = ps.drop_last();
        let last = ps.last();
        assert(ps.contains(last));
        assert(goes_before(p, last));
        assert forall|i: int, j: int|
            #![trigger front[i], front[j]]
            0 <= i < j < front.len() implies goes_before(front[i], front[j]) by {
            assert(goes_before(ps[i], ps[j]));
        }
        assert forall|q: Probe| #[trigger] front.contains(q) implies ps.contains(q) && goes_before(
            q,
            last,
        ) by {
            let k = choose|k: int| 0 <= k < front.len() && front[k] == q;
            assert(ps[k] == q);
            assert(goes_before(ps[k], ps[ps.len() - 1]));
        }
        let x = lemma_insert_probe(front, p);
        let r = x.push(last);
        assert forall|q: Probe| #[trigger] r.contains(q) <==> q == p || ps.contains(q) by {
            if r.contains(q) {
                let k = choose|k: int| 0 <= k < r.len() && r[k] == q;
                if k < x.len() {
                    assert(x[k] == q);
                    assert(x.contains(q));
                }
            }
            if q == p || ps.contains(q) {
                if q == last {
                    assert(r[x.len() as int] == q);
                } else {
                    if q != p {
                        let k = choose|k: int| 0 <= k < ps.len() && ps[k] == q;
                        assert(front[k] == q);
                    }
                    assert(x.contains(q));
                    let k = choose|k: int| 0 <= k < x.len() && x[k] == q;
                    assert(r[k] == q);
                }
            }
        }
        assert forall|i: int, j: int| #![trigger r[i], r[j]] 0 <= i < j < r.len() implies goes_before(
            r[i],
            r[j],
        ) by {
            assert(x[i] == r[i]);
            if j == x.len() {
                assert(x.contains(x[i]));
            } else {
                assert(goes_before(x[i], x[j]));
            }
        }
        r
    }
}

proof fn lemma_probes_upto(s: SegV, ks: Seq<Seq<u8>>, n: nat) -> (ps: Seq<Probe>)
    requires
        n <= ks.len() <= usize::MAX,
        s.data.len() <= usize::MAX,
    ensures
        probe_list(s, ks.take(n as int), ps),
    decreases n,
{
    let now = ks.take(n as int);
    if n == 0 {
        let ps = Seq::<Probe>::empty();
        assert(probe_list(s, now, ps));
        ps
    } else {
        let x = lemma_probes_upto(s, ks, (n - 1) as nat);
        let front = ks.take(n - 1);
        let key = ks[n - 1];
        match locate_of(s, key) {
            None => {
                assert forall|q: Probe| #[trigger] x.contains(q) <==> q.pos < now.len() && locate_of(
                    s,
                    now[q.pos as int],
                ) == Some(q.block as int) by {
                    if q.pos < n - 1 {
                        assert(now[q.pos as int] == front[q.pos as int]);
                    }
                }
                x
            },
            Some(b) => {
                lemma_located(s, key, b);
                let p = Probe { block: b as usize, pos: (n - 1) as usize };
                assert(!x.contains(p));
                let r = lemma_insert_probe(x, p);
                assert forall|q: Probe| #[trigger] r.contains(q) <==> q.pos < now.len() && locate_of(
                    s,
                    now[q.pos as int],
                ) == Some(q.block as int) by {
                    if q.pos < n - 1 {
                        assert(now[q.pos as int] == front[q.pos as int]);
                    } else if q.pos == n - 1 && locate_of(s, now[q.pos as int]) == Some(
                        q.block as int,
                    ) {
                        assert(q == p);
                    }
                }
                r
            },
        }
    }
}

/// Every batch has its list of lookups.
pub proof fn lemma_probes_exist(s: SegV, ks: Seq<Seq<u8>>)
    requires
        ks.len() <= usize::MAX,
        s.data.len() <= usize::MAX,
    ensures
        probe_list(s, ks, probes_of(s, ks)),
{
    let ps = lemma_probes_upto(s, ks, ks.len());
    assert(ks.take(ks.len() as int) =~= ks);
    assert(probe_list(s, ks, ps));
}

/// The counters after a block was taken up: read, and decoded where it is of
/// the first version.
pub open spec fn block_cost(st: ReadPathStats, c: CacheV, id: u64, s: SegV, b: int) -> ReadPathStats {
    let st1 = stats_after(st, c, id, s, b);
    if s.data[b].v2 {
        st1
    } else {
        st1.entries_read(
            match block_at(s, b) {
                Ok(es) => es.len(),
                Err(_) => 0,
            },
        )
    }
}

/// The counters after a key was looked up in a block that is at hand.
pub open spec fn key_cost(st: ReadPathStats, s: SegV, b: int, key: Seq<u8>) -> ReadPathStats {
    if s.data[b].v2 {
        st.entries_read(decoded_in(s, b, key, None))
    } else {
        st
    }
}

/// The cache and the counters after the first `n` lookups, up to the first
/// that fails: each block is read once, and one of the first version is
/// decoded once.
pub open spec fn probes_after(
    c: CacheV,
    st: ReadPathStats,
    id: u64,
    s: SegV,
    ks: Seq<Seq<u8>>,
    ps: Seq<Probe>,
    n: nat,
) -> (CacheV, ReadPathStats)
    decreases n,
{
    if n == 0 {
        (c, st)
    } else {
        let (c1, st1) = probes_after(c, st, id, s, ks, ps, (n - 1) as nat);
        if exists|k: int| 0 <= k < n - 1 && seg_get(s, ks[(#[trigger] ps[k]).pos as int]) is Err {
            (c1, st1)
        } else {
            let b = ps[n - 1].block as int;
            let key = ks[ps[n - 1].pos as int];
            let fresh = n == 1 || ps[n - 2].block != b;
            let (c2, st2) = if fresh {
                (cache_after(c1, id, s, b), block_cost(st1, c1, id, s, b))
            } else {
                (c1, st1)
            };
            (c2, key_cost(st2, s, b, key))
        }
    }
}

/// Behind a lookup that fails nothing more is done.
proof fn lemma_probes_stop(
    c: CacheV,
    st: ReadPathStats,
    id: u64,
    s: SegV,
    ks: Seq<Seq<u8>>,
    ps: Seq<Probe>,
    i: nat,
    n: nat,
)
    requires
        0 < i <= n <= ps.len(),
        seg_get(s, ks[ps[i - 1].pos as int]) is Err,
    ensures
        probes_after(c, st, id, s, ks, ps, n) == probes_after(c, st, id, s, ks, ps, i),
    decreases n - i,
{
    if i < n {
        lemma_probes_stop(c, st, id, s, ks, ps, i, (n - 1) as nat);
        assert(seg_get(s, ks[ps[i - 1].pos as int]) is Err);
    }
}

/// The cache and the counters after a batch of lookups.
pub open spec fn many_after(
    c: CacheV,
    st: ReadPathStats,
    id: u64,
    s: SegV,
    ks: Seq<Seq<u8>>,
) -> (CacheV, ReadPathStats) {
    let ps = probes_of(s, ks);
    probes_after(c, st, id, s, ks, ps, ps.len())
}

/// A block at hand: its bytes, and its entries where it is of the first
/// version.
struct Held {
    raw: Arc<Vec<u8>>,
    entries: Vec<SegmentEntry>,
}

/// What is at hand is block `b`.
spec fn holds_block(h: Held, s: SegV, b: int) -> bool {
    &&& raw_at(s, b) == Ok::<Seq<u8>, ErrV>(h.raw@)
    &&& !s.data[b].v2 ==> block_at(s, b) == Ok::<Seq<EntryV>, ErrV>(entries_view(h.entries@))
}

impl SegmentReader {
    /// Takes up a block.
    fn hold(&self, b: usize, id: u64, cache: &mut BlockCache, stats: &mut Stats) -> (r: Result<
        Held,
        FormatError,
    >)
        requires
            self.wf(),
            b < self.data@.len(),
            old(cache).wf(),
            coherent(old(cache)@, id, self@),
        ensures
            final(cache).wf(),
            coherent(final(cache)@, id, self@),
            final(cache)@ == cache_after(old(cache)@, id, self@, b as int),
            final(stats)@ == block_cost(old(stats)@, old(cache)@, id, self@, b as int),
            match r {
                Ok(h) => holds_block(h, self@, b as int),
                Err(e) => forall|key: Seq<u8>| #[trigger]
                    block_head(self@, b as int, key) == Err::<Option<EntryV>, ErrV>(e@),
            },
            r is Err && self@.data[b as int].v2 ==> payload_at(self@, b as int) is Err,
    {
        let ghost s = self@;
        assert(s.data[b as int] == self.data@[b as int]@);
        let raw = match self.read_block(b, id, cache, stats) {
            Err(e) => {
                proof {
                    reveal(block_at);
                    lemma_none_decoded(stats@);
                }
                return Err(e);
            },
            Ok(raw) => raw,
        };
        if self.data[b].v2 {
            return Ok(Held { raw, entries: Vec::new() });
        }
        let len: usize = raw.len();
        let ghost h = s.data[b as int].header;
        let ghost size = s.data[b as int].payload_len;
        assert(len == 28 + size);
        let payload = &raw.as_slice()[28..len];
        assert(payload@ =~= s.bytes.subrange(h + 28, h + 28 + size));
        proof {
            reveal(block_at);
            lemma_none_decoded(stats@);
        }
        match decode_block(payload, self.data[b].entries, self.data[b].v2, self.data[b].v3, b) {
            Err(e) => Err(e),
            Ok(entries) => {
                stats.count_entries(entries.len() as u64);
                Ok(Held { raw, entries })
            },
        }
    }

    /// Looks a key up in the block at hand.
    fn look(&self, h: &Held, b: usize, key: &[u8], stats: &mut Stats) -> (r: Result<
        Option<SegmentEntry>,
        FormatError,
    >)
        requires
            self.wf(),
            b < self.data@.len(),
            holds_block(*h, self@, b as int),
        ensures
            opt_rv(r) == block_head(self@, b as int, key@),
            final(stats)@ == key_cost(old(stats)@, self@, b as int, key@),
    {
        let ghost s = self@;
        assert(s.data[b as int] == self.data@[b as int]@);
        if !self.data[b].v2 {
            return Ok(find_key(&h.entries, key));
        }
        let len: usize = h.raw.len();
        let ghost at = s.data[b as int].header;
        let ghost size = s.data[b as int].payload_len;
        assert(len == 28 + size);
        let payload = &h.raw.as_slice()[28..len];
        assert(payload@ =~= s.bytes.subrange(at + 28, at + 28 + size));
        proof {
            lemma_none_decoded(stats@);
        }
        match block_get_v2(payload, key, self.data[b].v3, None) {
            Err(e) => Err(e),
            Ok((x, decoded)) => {
                stats.count_entries(decoded);
                Ok(x)
            },
        }
    }

    /// The lookups of a batch.
    fn probes_for(&self, keys: &Vec<&[u8]>) -> (r: Vec<Probe>)
        requires
            self.wf(),
        ensures
            probe_list(self@, keys_view(keys@), r@),
            forall|j: int| 0 <= j < r@.len() ==> (#[trigger] r@[j]).block < self.data@.len(),
    {
        let ghost ks = keys_view(keys@);
        let mut probes: Vec<Probe> = Vec::new();
        let mut i: usize = 0;
        while i < keys.len()
            invariant
                i <= keys@.len(),
                self.wf(),
                ks == keys_view(keys@),
                forall|p: Probe| #[trigger]
                    probes@.contains(p) <==> p.pos < i && locate_of(self@, ks[p.pos as int]) == Some(
                        p.block as int,
                    ),
                forall|j: int|
                    0 <= j < probes@.len() ==> (#[trigger] probes@[j]).pos < i && probes@[j].block
                        < self.data@.len(),
                forall|j: int, k: int|
                    #![trigger probes@[j], probes@[k]]
                    0 <= j < k < probes@.len() ==> probes@[j].pos < probes@[k].pos,
            decreases keys@.len() - i,
        {
            let ghost before = probes@;
            assert(ks[i as int] == keys@[i as int]@);
            match self.locate(keys[i]) {
                Some(b) => {
                    let p = Probe { block: b, pos: i };
                    probes.push(p);
                    proof {
                        assert(probes@[before.len() as int] == p);
                        assert forall|q: Probe| #[trigger] probes@.contains(q) <==> q.pos < i + 1
                            && locate_of(self@, ks[q.pos as int]) == Some(q.block as int) by {
                            if probes@.contains(q) {
                                let k = choose|k: int| 0 <= k < probes@.len() && probes@[k] == q;
                                if k < before.len() {
                                    assert(before[k] == q);
                                    assert(before.contains(q));
                                }
                            }
                            if q.pos < i && locate_of(self@, ks[q.pos as int]) == Some(
                                q.block as int,
                            ) {
                                assert(before.contains(q));
                                let k = choose|k: int| 0 <= k < before.len() && before[k] == q;
                                assert(probes@[k] == q);
                            }
                            if q.pos == i && locate_of(self@, ks[q.pos as int]) == Some(
                                q.block as int,
                            ) {
                                assert(q == p);
                            }
                        }
                    }
                },
                None => {
                    assert forall|q: Probe| #[trigger] probes@.contains(q) <==> q.pos < i + 1
                        && locate_of(self@, ks[q.pos as int]) == Some(q.block as int) by {}
                },
            }
            i += 1;
        }
        let ghost found = probes@;
        let probes = merge_sort(probes);
        proof {
            broadcast use vstd::seq_lib::group_to_multiset_ensures;

            assert forall|p: Probe| #[trigger] probes@.contains(p) == found.contains(p) by {
                assert(probes@.to_multiset().count(p) > 0 <==> probes@.contains(p));
                assert(found.to_multiset().count(p) > 0 <==> found.contains(p));
            }
            assert(found.no_duplicates()) by {
                assert forall|j: int, k: int|
                    0 <= j < found.len() && 0 <= k < found.len() && j != k implies found[j] != found[k] by {
                    if j < k {
                        assert(found[j].pos < found[k].pos);
                    } else {
                        assert(found[k].pos < found[j].pos);
                    }
                }
            }
            found.lemma_multiset_has_no_duplicates();
            probes@.lemma_multiset_has_no_duplicates_conv();
            assert forall|i: int, j: int|
                #![trigger probes@[i], probes@[j]]
                0 <= i < j < probes@.len() implies goes_before(probes@[i], probes@[j]) by {
                assert(probes@[i].ranked_le(&probes@[j]));
                assert(probes@[i] != probes@[j]);
            }
            assert forall|j: int| 0 <= j < probes@.len() implies (#[trigger] probes@[j]).block
                < self.data@.len() by {
                assert(probes@.contains(probes@[j]));
                assert(found.contains(probes@[j]));
            }
        }
        probes
    }

    /// A batch of lookups, answered in the order of the keys, with blocks read
    /// through the cache.
    #[verifier::spinoff_prover]
    #[verifier::rlimit(50)]
    pub fn get_many_cached(
        &self,
        keys: &Vec<&[u8]>,
        id: u64,
        cache: &mut BlockCache,
        stats: &mut Stats,
    ) -> (r: Result<Vec<Option<SegmentEntry>>, FormatError>)
        requires
            self.wf(),
            old(cache).wf(),
            coherent(old(cache)@, id, self@),
        ensures
            answers(r, self@, keys@),
            final(cache).wf(),
            coherent(final(cache)@, id, self@),
            (final(cache)@, final(stats)@) == many_after(
                old(cache)@,
                old(stats)@,
                id,
                self@,
                keys_view(keys@),
            ),
    {
        let ghost s = self@;
        let ghost ks = keys_view(keys@);
        let ghost c0 = cache@;
        let ghost st0 = stats@;
        let probes = self.probes_for(keys);
        proof {
            lemma_probe_list(s, ks, probes@);
        }
        let mut out: Vec<Option<SegmentEntry>> = Vec::new();
        let mut i: usize = 0;
        while i < keys.len()
            invariant
                i <= keys@.len(),
                out@.len() == i,
                forall|k: int| 0 <= k < i ==> opt_view(#[trigger] out@[k]) is None,
            decreases keys@.len() - i,
        {
            out.push(None);
            i += 1;
        }
        let mut held = Held { raw: Arc::new(Vec::new()), entries: Vec::new() };
        let mut j: usize = 0;
        while j < probes.len()
            invariant
                j <= probes@.len(),
                self.wf(),
                s == self@,
                s.data.len() <= usize::MAX,
                ks == keys_view(keys@),
                c0 == old(cache)@,
                st0 == old(stats)@,
                cache.wf(),
                coherent(cache@, id, s),
                probe_list(s, ks, probes@),
                probes@ == probes_of(s, ks),
                forall|k: int|
                    0 <= k < probes@.len() ==> (#[trigger] probes@[k]).block < self.data@.len(),
                out@.len() == keys@.len(),
                (cache@, stats@) == probes_after(c0, st0, id, s, ks, probes@, j as nat),
                forall|k: int|
                    0 <= k < j ==> seg_get(s, ks[(#[trigger] probes@[k]).pos as int]) == Ok::<
                        Option<EntryV>,
                        ErrV,
                    >(opt_view(out@[probes@[k].pos as int])),
                forall|k: int|
                    #![trigger out@[k]]
                    0 <= k < out@.len() && locate_of(s, ks[k]) is None ==> opt_view(out@[k]) is None,
                j > 0 ==> holds_block(held, s, probes@[j - 1].block as int),
            decreases probes@.len() - j,
        {
            let b: usize = probes[j].block;
            let pos: usize = probes[j].pos;
            assert(probes@.contains(probes@[j as int]));
            assert(ks[pos as int] == keys@[pos as int]@);
            assert(locate_of(s, ks[pos as int]) == Some(b as int));
            let ghost n = (j + 1) as nat;
            let ghost key = ks[pos as int];
            proof {
                if exists|k: int|
                    0 <= k < n - 1 && seg_get(s, ks[(#[trigger] probes@[k]).pos as int]) is Err {
                    let k = choose|k: int|
                        0 <= k < n - 1 && seg_get(s, ks[(#[trigger] probes@[k]).pos as int]) is Err;
                    assert(seg_get(s, ks[probes@[k].pos as int]) is Ok);
                }
            }
            let fresh = if j == 0 {
                true
            } else {
                probes[j - 1].block != b
            };
            let ghost c1 = cache@;
            let ghost st1 = stats@;
            if fresh {
                match self.hold(b, id, cache, stats) {
                    Err(e) => {
                        proof {
                            assert(block_head(s, b as int, key) == Err::<Option<EntryV>, ErrV>(e@));
                            lemma_none_decoded(stats@);
                            assert(key_cost(stats@, s, b as int, key) == stats@);
                            lemma_first_fails(s, keys@, probes@, j as int, e@);
                            lemma_probes_stop(c0, st0, id, s, ks, probes@, n, probes@.len());
                        }
                        return Err(e);
                    },
                    Ok(h) => {
                        held = h;
                    },
                }
            }
            let found = match self.look(&held, b, keys[pos], stats) {
                Err(e) => {
                    proof {
                        lemma_first_fails(s, keys@, probes@, j as int, e@);
                        lemma_probes_stop(c0, st0, id, s, ks, probes@, n, probes@.len());
                    }
                    return Err(e);
                },
                Ok(x) => x,
            };
            assert((cache@, stats@) == probes_after(c0, st0, id, s, ks, probes@, n));
            assert(seg_get(s, key) == Ok::<Option<EntryV>, ErrV>(opt_view(found)));
            let ghost o0 = out@;
            out.set(pos, found);
            proof {
                assert forall|k: int| 0 <= k < j + 1 implies seg_get(
                    s,
                    ks[(#[trigger] probes@[k]).pos as int],
                ) == Ok::<Option<EntryV>, ErrV>(opt_view(out@[probes@[k].pos as int])) by {
                    if k < j {
                        assert(probes@.contains(probes@[k]));
                        assert(goes_before(probes@[k], probes@[j as int]));
                        if probes@[k].pos == pos {
                            assert(locate_of(s, ks[pos as int]) == Some(probes@[k].block as int));
                        }
                    }
                }
            }
            j += 1;
        }
        proof {
            assert forall|k: int| #![trigger out@[k]] 0 <= k < keys@.len() implies seg_get(
                s,
                keys@[k]@,
            ) == Ok::<Option<EntryV>, ErrV>(opt_view(out@[k])) by {
                assert(ks[k] == keys@[k]@);
                if let Some(b) = locate_of(s, ks[k]) {
                    lemma_located(s, ks[k], b);
                    let p = Probe { block: b as usize, pos: k as usize };
                    assert(probes@.contains(p));
                    let x = choose|x: int| 0 <= x < probes@.len() && probes@[x] == p;
                    assert(seg_get(s, ks[probes@[x].pos as int]) is Ok);
                }
            }
        }
        Ok(out)
    }

    /// A batch of lookups, answered in the order of the keys. Each block is
    /// read once for all of its keys.
    pub fn get_many(&self, keys: &Vec<&[u8]>) -> (r: Result<
        Vec<Option<SegmentEntry>>,
        FormatError,
    >)
        requires
            self.wf(),
        ensures
            answers(r, self@, keys@),
    {
        let mut cache = BlockCache::new(0);
        let mut stats = Stats::new();
        self.get_many_cached(keys, 0, &mut cache, &mut stats)
    }
}

/// A located block is one that a machine can number.
proof fn lemma_located(s: SegV, key: Seq<u8>, b: int)
    requires
        locate_of(s, key) == Some(b),
        s.data.len() <= usize::MAX,
    ensures
        0 <= b <= usize::MAX,
{
    crate::segment::read::lemma_part_point(s.data, key, 0, s.data.len() as int);
}

/// The first lookup that fails gives the failure of the batch.
proof fn lemma_first_fails(s: SegV, keys: Seq<&[u8]>, ps: Seq<Probe>, j: int, e: ErrV)
    requires
        probe_list(s, keys_view(keys), ps),
        0 <= j < ps.len(),
        seg_get(s, keys[ps[j].pos as int]@) == Err::<Option<EntryV>, ErrV>(e),
        forall|k: int|
            0 <= k < j ==> seg_get(s, keys_view(keys)[(#[trigger] ps[k]).pos as int]) is Ok,
        s.data.len() <= usize::MAX,
        keys.len() <= usize::MAX,
    ensures
        exists|i: int|
            #![trigger keys[i]]
            0 <= i < keys.len() && seg_get(s, keys[i]@) == Err::<Option<EntryV>, ErrV>(e) && forall|
                k: int,
            |
                #![trigger keys[k]]
                0 <= k < keys.len() && comes_before(s, keys, k, i) ==> seg_get(s, keys[k]@) is Ok,
{
    let ks = keys_view(keys);
    assert(ps.contains(ps[j]));
    let i = ps[j].pos as int;
    assert(ks[i] == keys[i]@);
    assert forall|k: int|
        #![trigger keys[k]]
        0 <= k < keys.len() && comes_before(s, keys, k, i) implies seg_get(s, keys[k]@) is Ok by {
        assert(ks[k] == keys[k]@);
        let b = locate_of(s, ks[k])->0;
        lemma_located(s, ks[k], b);
        let p = Probe { block: b as usize, pos: k as usize };
        assert(ps.contains(p));
        let x = choose|x: int| 0 <= x < ps.len() && ps[x] == p;
        if x > j {
            assert(goes_before(ps[j], ps[x]));
        }
        assert(x < j);
        assert(seg_get(s, ks[ps[x].pos as int]) is Ok);
    }
}

} // verus!
