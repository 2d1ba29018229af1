//! Reads that go through the shared block cache. The answers are those of
//! reads without one; the cache and the counters say what was loaded.

use crate::cache::{held, BlockCache, CacheStats, CacheV};
use crate::compaction::run::{all_wf, segs_view};
use crate::db::read::{
    answer_rv, chain_counts, db_get, db_get_object, mem_find, probe_of, probe_segment, seg_answer,
    seg_chain, seg_chain_rid, Probe, Tally,
};
use crate::db::scan::{db_scan, scan_rv, ScanRow};
use crate::db::scan_pulls::{after_scan, pull_streams};
use crate::db::state::{replica_of, Db};
use crate::format::{ErrV, FormatError};
use crate::identity::object_id::ObjectId;
use crate::identity::replica_id::ReplicaId;
use crate::memtable::entry_value;
use crate::segment::cached::{
    cache_after, coherent, known_readers, lookup_stats, reads_keep_readers_known,
    reads_keep_the_cache_coherent, rid_after, stats_after,
};
use crate::segment::cached_scan::{entry_cost, step_after};
use crate::segment::cursor::{
    lemma_scan_entry, past_end, scan_entry, scan_left, scan_load, Move, ScanV,
};
use crate::segment::entry::{EntryV, SegmentEntry};
use crate::segment::lookup::{block_find, block_find_count};
use crate::segment::open::{SegV, SegmentReader};
use crate::segment::read::{
    hashes_of, lemma_part_point, locate_of, opt_rv, payload_at, seg_get_rid,
};
use crate::stats::{add_counts, counts_zero, stats_zero, ReadPathStats, Stats};
use vstd::prelude::*;

verus! {

/// What reads share: the cache, the identity of each segment's reader in it,
/// and the counters.
pub struct ReadPath {
    pub cache: BlockCache,
    pub ids: Vec<u64>,
    pub stats: Stats,
}

/// The cache holds, for each segment, blocks of that segment; no two segments
/// have one identity.
pub open spec fn coherent_all(c: CacheV, ids: Seq<u64>, segs: Seq<SegV>) -> bool {
    &&& ids.len() == segs.len()
    &&& forall|i: int| 0 <= i < ids.len() ==> coherent(c, #[trigger] ids[i], segs[i])
    &&& forall|i: int, j: int|
        #![trigger ids[i], ids[j]]
        0 <= i < j < ids.len() ==> ids[i] != ids[j]
}

/// The cache belongs to the segments, and every identity was given.
pub open spec fn path_ok(c: CacheV, ids: Seq<u64>, segs: Seq<SegV>) -> bool {
    &&& coherent_all(c, ids, segs)
    &&& known_readers(c)
    &&& forall|i: int| 0 <= i < ids.len() ==> (#[trigger] ids[i]) < c.next_id
}

/// The cache and the counters after one segment was met with a key.
pub open spec fn after_one(c: CacheV, st: ReadPathStats, id: u64, s: SegV, key: Seq<u8>) -> (
    CacheV,
    ReadPathStats,
) {
    match locate_of(s, key) {
        Some(i) => if probe_of(s, key) == Probe::Search {
            (cache_after(c, id, s, i), lookup_stats(st, c, id, s, i, key, None))
        } else {
            (c, st)
        },
        None => (c, st),
    }
}

/// The cache and the counters after the first `n` segments were met, newest
/// first, until one answers.
pub open spec fn after_chain(
    c: CacheV,
    st: ReadPathStats,
    ids: Seq<u64>,
    segs: Seq<SegV>,
    n: nat,
    key: Seq<u8>,
) -> (CacheV, ReadPathStats)
    decreases n,
{
    if n == 0 {
        (c, st)
    } else {
        let (c1, st1) = after_one(c, st, ids[n - 1], segs[n - 1], key);
        if seg_answer(segs[n - 1], key) == Ok::<Option<EntryV>, ErrV>(None) {
            after_chain(c1, st1, ids, segs, (n - 1) as nat, key)
        } else {
            (c1, st1)
        }
    }
}

proof fn lemma_one_coherent(
    c: CacheV,
    st: ReadPathStats,
    ids: Seq<u64>,
    segs: Seq<SegV>,
    n: int,
    key: Seq<u8>,
)
    requires
        path_ok(c, ids, segs),
        0 <= n < ids.len(),
        segs[n].data.len() <= u32::MAX,
    ensures
        path_ok(after_one(c, st, ids[n], segs[n], key).0, ids, segs),
{
    if let Some(b) = locate_of(segs[n], key) {
        if probe_of(segs[n], key) == Probe::Search {
            assert(0 <= b < segs[n].data.len()) by {
                lemma_part_point(segs[n].data, key, 0, segs[n].data.len() as int);
            }
            let c1 = cache_after(c, ids[n], segs[n], b);
            reads_keep_readers_known(c, ids[n], segs[n], b);
            assert forall|i: int| 0 <= i < ids.len() implies coherent(
                c1,
                #[trigger] ids[i],
                segs[i],
            ) by {
                assert(coherent(c, ids[i], segs[i]));
                if i < n {
                    assert(ids[i] != ids[n]);
                } else if n < i {
                    assert(ids[n] != ids[i]);
                }
                reads_keep_the_cache_coherent(c, ids[n], segs[n], b, ids[i], segs[i]);
            }
        }
    }
}

impl ReadPath {
    /// A read path whose cache has the cap, before any segment is known.
    pub fn new(cap: usize) -> (r: ReadPath)
        ensures
            r.cache.wf(),
            known_readers(r.cache@),
            r.cache@.cap == cap,
            r.cache@.blocks.len() == 0,
            r.cache@.next_id == 0,
            r.ids@.len() == 0,
            r.stats@ == stats_zero(),
    {
        ReadPath { cache: BlockCache::new(cap), ids: Vec::new(), stats: Stats::new() }
    }

    /// Gives the segments behind those that have an identity one of their own:
    /// after a flush the older segments keep theirs.
    pub fn extend(&mut self, db: &Db)
        requires
            old(self).cache.wf(),
            old(self).ids@.len() <= db@.segments.len(),
            path_ok(
                old(self).cache@,
                old(self).ids@,
                db@.segments.take(old(self).ids@.len() as int),
            ),
            old(self).cache@.next_id + db@.segments.len() <= u64::MAX,
        ensures
            final(self).cache.wf(),
            path_ok(final(self).cache@, final(self).ids@, db@.segments),
            final(self).ids@.take(old(self).ids@.len() as int) == old(self).ids@,
            forall|i: int|
                old(self).ids@.len() <= i < final(self).ids@.len() ==>
                    (#[trigger] final(self).ids@[i]) == old(self).cache@.next_id + i
                    - old(self).ids@.len(),
            final(self).cache@ == (CacheV {
                next_id: (old(self).cache@.next_id + db@.segments.len() - old(self).ids@.len())
                    as u64,
                ..old(self).cache@
            }),
            final(self).stats == old(self).stats,
    {
        let ghost c0 = self.cache@;
        let ghost ids0 = self.ids@;
        let ghost segs = db@.segments;
        let from = self.ids.len();
        let len = db.segments.len();
        assert(segs.len() == len);
        let mut i: usize = from;
        assert(self.cache@ =~= (CacheV { next_id: (c0.next_id + 0) as u64, ..c0 }));
        while i < len
            invariant
                from <= i <= len,
                from == ids0.len(),
                len == segs.len(),
                segs == db@.segments,
                c0 == old(self).cache@,
                ids0 == old(self).ids@,
                c0.next_id + len <= u64::MAX,
                self.cache.wf(),
                self.stats == old(self).stats,
                self.cache@ == (CacheV { next_id: (c0.next_id + i - from) as u64, ..c0 }),
                self.ids@.len() == i,
                forall|k: int| 0 <= k < from ==> (#[trigger] self.ids@[k]) == ids0[k],
                forall|k: int|
                    from <= k < i ==> (#[trigger] self.ids@[k]) == c0.next_id + k - from,
            decreases len - i,
        {
            let id = self.cache.reader_id();
            self.ids.push(id);
            i += 1;
        }
        proof {
            let c = self.cache@;
            let ids = self.ids@;
            assert(ids.take(from as int) =~= ids0);
            assert forall|k: int| 0 <= k < ids.len() implies coherent(c, #[trigger] ids[k], segs[k]) by {
                if k < from {
                    assert(coherent(c0, ids0[k], segs.take(from as int)[k]));
                }
            }
            assert forall|a: int, b: int|
                #![trigger ids[a], ids[b]]
                0 <= a < b < ids.len() implies ids[a] != ids[b] by {
                if a < from {
                    assert(ids0[a] < c0.next_id);
                    if b < from {
                        assert(ids0[a] != ids0[b]);
                    }
                }
            }
            assert forall|k: int| 0 <= k < ids.len() implies (#[trigger] ids[k]) < c.next_id by {
                if k < from {
                    assert(ids0[k] < c0.next_id);
                }
            }
        }
    }

    /// Gives every segment of the database a new identity, as after a
    /// compaction. Blocks under older identities stay until they are the least
    /// recently used.
    pub fn attach(&mut self, db: &Db)
        requires
            old(self).cache.wf(),
            known_readers(old(self).cache@),
            old(self).cache@.next_id + db@.segments.len() <= u64::MAX,
        ensures
            final(self).cache.wf(),
            path_ok(final(self).cache@, final(self).ids@, db@.segments),
            forall|i: int|
                0 <= i < final(self).ids@.len() ==> (#[trigger] final(self).ids@[i]) == old(
                    self,
                ).cache@.next_id + i,
            final(self).cache@ == (CacheV {
                next_id: (old(self).cache@.next_id + db@.segments.len()) as u64,
                ..old(self).cache@
            }),
            final(self).stats == old(self).stats,
    {
        self.ids = Vec::new();
        self.extend(db);
    }
}

/// Asks the segments through the cache, newest first.
fn search_cached(segments: &Vec<SegmentReader>, key: &[u8], path: &mut ReadPath) -> (r: (
    Result<Option<SegmentEntry>, FormatError>,
    Tally,
))
    requires
        all_wf(segments@),
        old(path).cache.wf(),
        path_ok(old(path).cache@, old(path).ids@, segs_view(segments@)),
    ensures
        final(path).cache.wf(),
        final(path).ids == old(path).ids,
        path_ok(final(path).cache@, final(path).ids@, segs_view(segments@)),
        opt_rv(r.0) == seg_chain(segs_view(segments@), segments@.len(), key@),
        r.1@ == chain_counts(segs_view(segments@), segments@.len(), key@),
        (final(path).cache@, final(path).stats@) == after_chain(
            old(path).cache@,
            old(path).stats@,
            old(path).ids@,
            segs_view(segments@),
            segments@.len(),
            key@,
        ),
{
    let ghost segs = segs_view(segments@);
    let ghost c0 = path.cache@;
    let ghost st0 = path.stats@;
    let ghost ids = path.ids@;
    let hashes = SegmentReader::bloom_hashes(key);
    let mut c = Tally { considered: 0, range_skipped: 0, bloom_skipped: 0, searched: 0 };
    let n = segments.len();
    let mut i: usize = n;
    while i > 0
        invariant
            n == segments@.len(),
            i <= segments@.len(),
            all_wf(segments@),
            segs == segs_view(segments@),
            hashes == hashes_of(key@),
            c0 == old(path).cache@,
            st0 == old(path).stats@,
            ids == old(path).ids@,
            path.ids == old(path).ids,
            path.cache.wf(),
            path_ok(path.cache@, ids, segs),
            c.considered + i == segments@.len(),
            c.range_skipped <= c.considered,
            c.bloom_skipped <= c.considered,
            c.searched <= c.considered,
            seg_chain(segs, segments@.len(), key@) == seg_chain(segs, i as nat, key@),
            chain_counts(segs, segments@.len(), key@) == add_counts(
                c@,
                chain_counts(segs, i as nat, key@),
            ),
            after_chain(c0, st0, ids, segs, segments@.len(), key@) == after_chain(
                path.cache@,
                path.stats@,
                ids,
                segs,
                i as nat,
                key@,
            ),
        decreases i,
    {
        i -= 1;
        assert(segs[i as int] == segments@[i as int]@);
        let ghost before = path.cache@;
        let ghost st = path.stats@;
        let count: u32 = segments[i].block_count;
        proof {
            reveal(seg_answer);
            lemma_one_coherent(before, st, ids, segs, i as int, key@);
            assert(coherent(before, ids[i as int], segs[i as int]));
        }
        let p = probe_segment(&segments[i], key, hashes);
        let found = match p {
            Probe::Search => segments[i].get_cached(
                key,
                path.ids[i],
                &mut path.cache,
                &mut path.stats,
            ),
            _ => Ok(None),
        };
        assert((path.cache@, path.stats@) == after_one(
            before,
            st,
            ids[i as int],
            segs[i as int],
            key@,
        ));
        c.note(p);
        match found {
            Ok(None) => {},
            _ => {
                return (found, c);
            },
        }
    }
    (Ok(None), c)
}

// ---------------------------------------------------------------------------
// Objects
/// The cache and the counters after the first `n` segments were asked for a
/// replica's row, newest first, until one answers.
pub open spec fn after_rid_chain(
    c: CacheV,
    st: ReadPathStats,
    ids: Seq<u64>,
    segs: Seq<SegV>,
    n: nat,
    key: Seq<u8>,
    rid: ReplicaId,
) -> (CacheV, ReadPathStats)
    decreases n,
{
    if n == 0 {
        (c, st)
    } else {
        let (c1, st1) = match locate_of(segs[n - 1], key) {
            None => (c, st),
            Some(i) => rid_after(c, st, ids[n - 1], segs[n - 1], i, key, rid),
        };
        if seg_get_rid(segs[n - 1], key, rid) == Ok::<Option<EntryV>, ErrV>(None) {
            after_rid_chain(c1, st1, ids, segs, (n - 1) as nat, key, rid)
        } else {
            (c1, st1)
        }
    }
}

/// A block read keeps the path sound.
pub proof fn lemma_block_coherent(c: CacheV, ids: Seq<u64>, segs: Seq<SegV>, n: int, b: int)
    requires
        path_ok(c, ids, segs),
        0 <= n < ids.len(),
        0 <= b < segs[n].data.len() <= u32::MAX,
    ensures
        path_ok(cache_after(c, ids[n], segs[n], b), ids, segs),
{
    let c1 = cache_after(c, ids[n], segs[n], b);
    reads_keep_readers_known(c, ids[n], segs[n], b);
    assert forall|i: int| 0 <= i < ids.len() implies coherent(c1, #[trigger] ids[i], segs[i]) by {
        assert(coherent(c, ids[i], segs[i]));
        if i < n {
            assert(ids[i] != ids[n]);
        } else if n < i {
            assert(ids[n] != ids[i]);
        }
        reads_keep_the_cache_coherent(c, ids[n], segs[n], b, ids[i], segs[i]);
    }
}

proof fn lemma_rid_coherent(
    c: CacheV,
    st: ReadPathStats,
    ids: Seq<u64>,
    segs: Seq<SegV>,
    n: int,
    b: int,
    key: Seq<u8>,
    rid: ReplicaId,
)
    requires
        path_ok(c, ids, segs),
        0 <= n < ids.len(),
        segs[n].data.len() <= u32::MAX,
    ensures
        path_ok(rid_after(c, st, ids[n], segs[n], b, key, rid).0, ids, segs),
    decreases segs[n].data.len() - b,
{
    let s = segs[n];
    if 0 <= b < s.data.len() {
        let spills = s.data[b].last == key && b + 1 < s.data.len();
        if s.data[b].v3 {
            lemma_block_coherent(c, ids, segs, n, b);
            let c1 = cache_after(c, ids[n], s, b);
            let here = match payload_at(s, b) {
                Err(e) => Err(e),
                Ok(p) => block_find(p, key, true, Some(rid)),
            };
            let st1 = stats_after(st, c, ids[n], s, b).entries_read(
                match payload_at(s, b) {
                    Ok(p) => if here is Ok {
                        block_find_count(p, key, true, Some(rid))
                    } else {
                        0
                    },
                    Err(_) => 0,
                },
            );
            lemma_rid_coherent(c1, st1, ids, segs, n, b + 1, key, rid);
        } else {
            lemma_rid_coherent(c, st, ids, segs, n, b + 1, key, rid);
        }
    }
}

// ---------------------------------------------------------------------------
// Scans
/// A step of a range cursor keeps the path sound.
pub proof fn lemma_step_coherent(
    start: Seq<u8>,
    end: Option<Seq<u8>>,
    at: ScanV,
    ids: Seq<u64>,
    segs: Seq<SegV>,
    n: int,
    c: CacheV,
    st: ReadPathStats,
)
    requires
        path_ok(c, ids, segs),
        0 <= n < ids.len(),
        segs[n].data.len() <= u32::MAX,
    ensures
        path_ok(step_after(segs[n], start, end, at, ids[n], c, st).0, ids, segs),
    decreases segs[n].data.len() - at.block, scan_left(segs[n], at),
{
    let s = segs[n];
    if !at.done {
        match at.loaded {
            None => if at.block < 0 || at.block >= s.data.len() || past_end(
                s.data[at.block].first,
                end,
            ) {
            } else {
                lemma_block_coherent(c, ids, segs, n, at.block);
                let c1 = cache_after(c, ids[n], s, at.block);
                let st1 = stats_after(st, c, ids[n], s, at.block);
                if let Ok(Some(at2)) = scan_load(s, start, end, at) {
                    lemma_step_coherent(start, end, at2, ids, segs, n, c1, st1);
                }
            },
            Some(i) => {
                lemma_scan_entry(s, start, end, at, i);
                let st1 = st.entries_read(entry_cost(s, at, i));
                if let Move::Go(at2) = scan_entry(s, start, end, at, i) {
                    lemma_step_coherent(start, end, at2, ids, segs, n, c, st1);
                }
            },
        }
    }
}

impl Db {
    /// What a key reads as, with blocks read through the cache.
    pub fn get_through(&self, key: &[u8], path: &mut ReadPath) -> (r: Result<
        Option<Vec<u8>>,
        FormatError,
    >)
        requires
            self.wf(),
            old(path).cache.wf(),
            path_ok(old(path).cache@, old(path).ids@, self@.segments),
        ensures
            answer_rv(r) == db_get(self@, key@),
            final(path).cache.wf(),
            final(path).ids == old(path).ids,
            path_ok(final(path).cache@, final(path).ids@, self@.segments),
            match mem_find(self@, key@, None) {
                Some(_) => final(path).cache@ == old(path).cache@ && final(path).stats@ == old(
                    path,
                ).stats@.looked_up(1, 1, counts_zero()),
                None => {
                    let (c, st) = after_chain(
                        old(path).cache@,
                        old(path).stats@,
                        old(path).ids@,
                        self@.segments,
                        self@.segments.len(),
                        key@,
                    );
                    &&& final(path).cache@ == c
                    &&& final(path).stats@ == st.looked_up(
                        1,
                        0,
                        chain_counts(self@.segments, self@.segments.len(), key@),
                    )
                },
            },
    {
        match self.find_in_memory(key, None) {
            Some(e) => {
                path.stats.count(1, 1, 0, 0, 0, 0);
                return Ok(entry_value(e));
            },
            None => {},
        }
        let (found, c) = search_cached(&self.segments, key, path);
        path.stats.count(1, 0, c.considered, c.range_skipped, c.bloom_skipped, c.searched);
        match found {
            Err(e) => Err(e),
            Ok(None) => Ok(None),
            Ok(Some(e)) => Ok(entry_value(&e)),
        }
    }

    /// What an object's row reads as, with blocks read through the cache.
    pub fn get_object_through(&self, oid: ObjectId, key: &[u8], path: &mut ReadPath) -> (r: Result<
        Option<Vec<u8>>,
        FormatError,
    >)
        requires
            self.wf(),
            old(path).cache.wf(),
            path_ok(old(path).cache@, old(path).ids@, self@.segments),
        ensures
            answer_rv(r) == db_get_object(self@, oid@, key@),
            final(path).cache.wf(),
            final(path).ids == old(path).ids,
            path_ok(final(path).cache@, final(path).ids@, self@.segments),
            (final(path).cache@, final(path).stats@) == match replica_of(self@, oid@) {
                Ok(Some(rid)) => if mem_find(self@, key@, Some(rid)) is Some {
                    (old(path).cache@, old(path).stats@)
                } else {
                    after_rid_chain(
                        old(path).cache@,
                        old(path).stats@,
                        old(path).ids@,
                        self@.segments,
                        self@.segments.len(),
                        key@,
                        rid,
                    )
                },
                _ => (old(path).cache@, old(path).stats@),
            },
    {
        let rid = match self.resolve_replica(oid) {
            Err(e) => {
                return Err(e);
            },
            Ok(None) => {
                return Ok(None);
            },
            Ok(Some(rid)) => rid,
        };
        match self.find_in_memory(key, Some(rid)) {
            Some(e) => {
                return Ok(entry_value(e));
            },
            None => {},
        }
        let ghost segs = self@.segments;
        let ghost c0 = path.cache@;
        let ghost st0 = path.stats@;
        let ghost ids = path.ids@;
        let mut i: usize = self.segments.len();
        while i > 0
            invariant
                i <= self.segments@.len(),
                self.wf(),
                segs == segs_view(self.segments@),
                segs == self@.segments,
                c0 == old(path).cache@,
                st0 == old(path).stats@,
                ids == old(path).ids@,
                path.ids == old(path).ids,
                path.cache.wf(),
                path_ok(path.cache@, ids, segs),
                replica_of(self@, oid@) == Ok::<Option<ReplicaId>, ErrV>(Some(rid)),
                mem_find(self@, key@, Some(rid)) is None,
                seg_chain_rid(segs, segs.len(), key@, rid) == seg_chain_rid(
                    segs,
                    i as nat,
                    key@,
                    rid,
                ),
                after_rid_chain(c0, st0, ids, segs, segs.len(), key@, rid) == after_rid_chain(
                    path.cache@,
                    path.stats@,
                    ids,
                    segs,
                    i as nat,
                    key@,
                    rid,
                ),
            decreases i,
        {
            i -= 1;
            let seg = &self.segments[i];
            assert(segs[i as int] == seg@);
            let ghost before = path.cache@;
            let ghost st = path.stats@;
            let count: u32 = seg.block_count;
            proof {
                assert(coherent(before, ids[i as int], segs[i as int]));
                if let Some(b) = locate_of(segs[i as int], key@) {
                    lemma_part_point(segs[i as int].data, key@, 0, segs[i as int].data.len() as int);
                    lemma_rid_coherent(before, st, ids, segs, i as int, b, key@, rid);
                }
            }
            match seg.get_by_rid_cached(key, rid, path.ids[i], &mut path.cache, &mut path.stats) {
                Err(e) => {
                    return Err(e);
                },
                Ok(Some(e)) => {
                    return Ok(entry_value(&e));
                },
                Ok(None) => {},
            }
        }
        Ok(None)
    }

    /// Every live key that begins with `prefix`, with blocks read through the
    /// cache.
    pub fn scan_through(&self, prefix: &[u8], path: &mut ReadPath) -> (r: Result<
        Vec<ScanRow>,
        FormatError,
    >)
        requires
            self.wf(),
            old(path).cache.wf(),
            path_ok(old(path).cache@, old(path).ids@, self@.segments),
        ensures
            scan_rv(r) == db_scan(self@, prefix@),
            final(path).cache.wf(),
            final(path).ids == old(path).ids,
            path_ok(final(path).cache@, final(path).ids@, self@.segments),
            (final(path).cache@, final(path).stats@) == after_scan(
                old(path).cache@,
                old(path).stats@,
                old(path).ids@,
                self@.segments,
                prefix@,
            ),
    {
        match pull_streams(&self.segments, prefix, path) {
            Err(e) => Err(self.tell_failure(e, prefix)),
            Ok(v) => Ok(self.merge_with_memory(v, prefix)),
        }
    }

    /// The counters of the cache that reads share.
    pub fn cache_stats(path: &ReadPath) -> (r: CacheStats)
        requires
            path.cache.wf(),
        ensures
            r.hits == path.cache@.hits,
            r.misses == path.cache@.misses,
            r.evictions == path.cache@.evictions,
            r.bytes == held(path.cache@.blocks),
    {
        path.cache.stats()
    }

    /// The counters of the read path.
    pub fn read_path_stats(path: &ReadPath) -> (r: ReadPathStats)
        ensures
            r == path.stats@,
    {
        path.stats.snapshot()
    }
}

} // verus!
