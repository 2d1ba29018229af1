//! Reading blocks through the shared cache. What is read never depends on
//! what is cached: a hit gives the bytes that the file holds, and only bytes
//! whose checksum was verified enter.

use crate::cache::{
    cache_get, cache_insert, dropped, evicted, lemma_evicted, lemma_place, place, BlockCache, CacheV,
    CachedV,
};
use crate::codec::{bytes_eq, to_vec};
use crate::format::{ErrV, FormatError};
use crate::identity::replica_id::ReplicaId;
use crate::segment::entry::{decode_block, EntryV, SegmentEntry};
use crate::segment::lookup::{block_find, block_find_count, block_get_v2};
use crate::segment::open::{SegV, SegmentReader};
use crate::segment::read::{
    block_at, find_key, list_rv, locate_of, opt_rv, payload_at, rid_from, seg_get, seg_get_rid,
};
use crate::stats::{ReadPathStats, Stats};
use std::sync::Arc;
use vstd::prelude::*;

verus! {

/// The header and payload of data block `i`, where its checksum holds.
pub open spec fn raw_at(s: SegV, i: int) -> Result<Seq<u8>, ErrV> {
    match payload_at(s, i) {
        Err(e) => Err(e),
        Ok(_) => Ok(
            s.bytes.subrange(s.data[i].header, s.data[i].header + 28 + s.data[i].payload_len),
        ),
    }
}

/// What the cache holds for a reader is what the reader's segment holds.
pub open spec fn coherent(c: CacheV, id: u64, s: SegV) -> bool {
    forall|k: int|
        0 <= k < c.blocks.len() && (#[trigger] c.blocks[k]).reader == id ==> c.blocks[k].block
            < s.data.len() && raw_at(s, c.blocks[k].block as int) == Ok::<Seq<u8>, ErrV>(
            c.blocks[k].raw,
        )
}

/// The cache after a read of block `i`. One without room is not asked.
pub open spec fn cache_after(c: CacheV, id: u64, s: SegV, i: int) -> CacheV {
    let c1 = cache_get(c, id, i as u32);
    if c.cap == 0 {
        c
    } else {
        match (place(c.blocks, id, i as u32), raw_at(s, i)) {
            (None, Ok(raw)) => cache_insert(c1, id, i as u32, raw),
            _ => c1,
        }
    }
}

/// The counters after a read of block `i`.
pub open spec fn stats_after(
    st: ReadPathStats,
    c: CacheV,
    id: u64,
    s: SegV,
    i: int,
) -> ReadPathStats {
    if c.cap == 0 {
        match raw_at(s, i) {
            Err(_) => st,
            Ok(raw) => st.block_loaded(raw.len()),
        }
    } else {
        match (place(c.blocks, id, i as u32), raw_at(s, i)) {
            (Some(_), _) => st.cache_asked(true),
            (None, Err(_)) => st.cache_asked(false),
            (None, Ok(raw)) => st.cache_asked(false).block_loaded(raw.len()),
        }
    }
}

/// How many entries a lookup in block `i` decodes: a block with a restart
/// table only what it passes over, an older one all. A lookup that fails
/// counts none.
pub open spec fn decoded_in(s: SegV, i: int, key: Seq<u8>, want: Option<ReplicaId>) -> nat {
    match payload_at(s, i) {
        Err(_) => 0,
        Ok(p) => if s.data[i].v2 {
            if block_find(p, key, s.data[i].v3, want) is Ok {
                block_find_count(p, key, s.data[i].v3, want)
            } else {
                0
            }
        } else {
            match block_at(s, i) {
                Err(_) => 0,
                Ok(es) => es.len(),
            }
        },
    }
}

/// The counters after block `i` was read and decoded.
pub open spec fn load_stats(st: ReadPathStats, c: CacheV, id: u64, s: SegV, i: int) -> ReadPathStats {
    stats_after(st, c, id, s, i).entries_read(
        match block_at(s, i) {
            Ok(es) => es.len(),
            Err(_) => 0,
        },
    )
}

/// The counters after a lookup in block `i`.
pub open spec fn lookup_stats(
    st: ReadPathStats,
    c: CacheV,
    id: u64,
    s: SegV,
    i: int,
    key: Seq<u8>,
    want: Option<ReplicaId>,
) -> ReadPathStats {
    stats_after(st, c, id, s, i).entries_read(decoded_in(s, i, key, want))
}

/// The cache and the counters after a replica's lookup from block `i` on.
pub open spec fn rid_after(
    c: CacheV,
    st: ReadPathStats,
    id: u64,
    s: SegV,
    i: int,
    key: Seq<u8>,
    rid: ReplicaId,
) -> (CacheV, ReadPathStats)
    decreases s.data.len() - i,
{
    if i < 0 || i >= s.data.len() {
        (c, st)
    } else {
        let spills = s.data[i].last == key && i + 1 < s.data.len();
        if s.data[i].v3 {
            let c1 = cache_after(c, id, s, i);
            let here = match payload_at(s, i) {
                Err(e) => Err(e),
                Ok(p) => block_find(p, key, true, Some(rid)),
            };
            let st1 = stats_after(st, c, id, s, i).entries_read(
                match payload_at(s, i) {
                    Ok(p) => if here is Ok {
                        block_find_count(p, key, true, Some(rid))
                    } else {
                        0
                    },
                    Err(_) => 0,
                },
            );
            if here == Ok::<Option<EntryV>, ErrV>(None) && spills {
                rid_after(c1, st1, id, s, i + 1, key, rid)
            } else {
                (c1, st1)
            }
        } else if spills {
            rid_after(c, st, id, s, i + 1, key, rid)
        } else {
            (c, st)
        }
    }
}

/// A lookup shows no block that was not held.
proof fn lemma_get_from(c: CacheV, reader: u64, block: u32, k: int)
    requires
        0 <= k < cache_get(c, reader, block).blocks.len(),
    ensures
        c.blocks.contains(cache_get(c, reader, block).blocks[k]),
{
    lemma_place(c.blocks, reader, block);
    let after = cache_get(c, reader, block).blocks;
    match place(c.blocks, reader, block) {
        Some(p) => {
            let from = if k == after.len() - 1 {
                p
            } else if k < p {
                k
            } else {
                k + 1
            };
            assert(after[k] == c.blocks[from]);
        },
        None => {
            assert(after[k] == c.blocks[k]);
        },
    }
}

/// An insertion shows the block that was put in, or one that was held.
proof fn lemma_insert_from(c: CacheV, reader: u64, block: u32, raw: Seq<u8>, k: int)
    requires
        0 <= k < cache_insert(c, reader, block, raw).blocks.len(),
    ensures
        c.blocks.contains(cache_insert(c, reader, block, raw).blocks[k])
            || cache_insert(c, reader, block, raw).blocks[k] == (CachedV { reader, block, raw }),
{
    let after = cache_insert(c, reader, block, raw).blocks;
    if raw.len() > c.cap {
        assert(after[k] == c.blocks[k]);
    } else {
        let rest = dropped(c.blocks, reader, block);
        let kept = evicted(rest, raw.len(), c.cap as nat);
        lemma_evicted(rest, raw.len(), c.cap as nat);
        lemma_place(c.blocks, reader, block);
        if k < kept.len() {
            let j = rest.len() - kept.len() + k;
            assert(after[k] == rest[j]);
            match place(c.blocks, reader, block) {
                Some(p) => {
                    assert(rest[j] == c.blocks[if j < p {
                        j
                    } else {
                        j + 1
                    }]);
                },
                None => {
                    assert(rest[j] == c.blocks[j]);
                },
            }
        }
    }
}

/// A read through the cache keeps the cache coherent for every reader.
pub proof fn reads_keep_the_cache_coherent(
    c: CacheV,
    id: u64,
    s: SegV,
    i: int,
    other: u64,
    s2: SegV,
)
    requires
        0 <= i < s.data.len() <= u32::MAX,
        coherent(c, other, s2),
        other == id ==> s2 == s,
    ensures
        coherent(cache_after(c, id, s, i), other, s2),
{
    let c1 = cache_get(c, id, i as u32);
    let c2 = cache_after(c, id, s, i);
    assert forall|k: int| 0 <= k < c1.blocks.len() && (#[trigger] c1.blocks[k]).reader == other implies
        c1.blocks[k].block < s2.data.len() && raw_at(s2, c1.blocks[k].block as int) == Ok::<
        Seq<u8>,
        ErrV,
    >(c1.blocks[k].raw) by {
        lemma_get_from(c, id, i as u32, k);
        let j = choose|j: int| 0 <= j < c.blocks.len() && c.blocks[j] == c1.blocks[k];
        assert(c.blocks[j].reader == other);
    }
    if c.cap == 0 {
    } else if let (None, Ok(raw)) = (place(c.blocks, id, i as u32), raw_at(s, i)) {
        assert forall|k: int|
            0 <= k < c2.blocks.len() && (#[trigger] c2.blocks[k]).reader == other implies c2.blocks[k].block
            < s2.data.len() && raw_at(s2, c2.blocks[k].block as int) == Ok::<Seq<u8>, ErrV>(
            c2.blocks[k].raw,
        ) by {
            lemma_insert_from(c1, id, i as u32, raw, k);
            if c1.blocks.contains(c2.blocks[k]) {
                let j = choose|j: int| 0 <= j < c1.blocks.len() && c1.blocks[j] == c2.blocks[k];
                assert(c1.blocks[j].reader == other);
            }
        }
    }
}

/// No block is held under an identity that is still to be given.
pub open spec fn known_readers(c: CacheV) -> bool {
    forall|k: int| 0 <= k < c.blocks.len() ==> (#[trigger] c.blocks[k]).reader < c.next_id
}

/// A read under an identity that was given adds no block of an unknown reader.
pub proof fn reads_keep_readers_known(c: CacheV, id: u64, s: SegV, i: int)
    requires
        known_readers(c),
        id < c.next_id,
    ensures
        known_readers(cache_after(c, id, s, i)),
        cache_after(c, id, s, i).next_id == c.next_id,
{
    let c1 = cache_get(c, id, i as u32);
    let c2 = cache_after(c, id, s, i);
    assert forall|k: int| 0 <= k < c1.blocks.len() implies (#[trigger] c1.blocks[k]).reader
        < c.next_id by {
        lemma_get_from(c, id, i as u32, k);
    }
    if c.cap == 0 {
    } else if let (None, Ok(raw)) = (place(c.blocks, id, i as u32), raw_at(s, i)) {
        assert forall|k: int| 0 <= k < c2.blocks.len() implies (#[trigger] c2.blocks[k]).reader
            < c.next_id by {
            lemma_insert_from(c1, id, i as u32, raw, k);
        }
    }
}

impl SegmentReader {
    /// The header and payload of data block `i`, with the checksum verified.
    fn block_bytes(&self, i: usize) -> (r: Result<Vec<u8>, FormatError>)
        requires
            self.wf(),
            i < self.data@.len(),
        ensures
            match (r, raw_at(self@, i as int)) {
                (Ok(v), Ok(raw)) => v@ == raw,
                (Err(e), Err(f)) => e@ == f,
                _ => false,
            },
    {
        match self.block_raw(i) {
            Err(e) => Err(e),
            Ok(_) => {
                assert(self@.data[i as int] == self.data@[i as int]@);
                let h: usize = self.data[i].header;
                let n: usize = self.data[i].payload_len;
                let total: usize = self.bytes.len();
                assert(h + 28 + n <= total);
                Ok(to_vec(&self.bytes.as_slice()[h..h + 28 + n]))
            },
        }
    }

    /// Reads data block `i` through the cache, under the identity that the
    /// cache gave this reader.
    pub fn read_block(
        &self,
        i: usize,
        id: u64,
        cache: &mut BlockCache,
        stats: &mut Stats,
    ) -> (r: Result<Arc<Vec<u8>>, FormatError>)
        requires
            self.wf(),
            i < self.data@.len(),
            old(cache).wf(),
            coherent(old(cache)@, id, self@),
        ensures
            final(cache).wf(),
            final(cache)@ == cache_after(old(cache)@, id, self@, i as int),
            coherent(final(cache)@, id, self@),
            match (r, raw_at(self@, i as int)) {
                (Ok(v), Ok(raw)) => v@ == raw,
                (Err(e), Err(f)) => e@ == f,
                _ => false,
            },
            final(stats)@ == stats_after(old(stats)@, old(cache)@, id, self@, i as int),
    {
        let ghost c = cache@;
        let count: u32 = self.block_count;
        proof {
            assert(i < count);
            reads_keep_the_cache_coherent(c, id, self@, i as int, id, self@);
            lemma_place(c.blocks, id, i as u32);
        }
        if cache.cap == 0 {
            return match self.block_bytes(i) {
                Err(e) => Err(e),
                Ok(v) => {
                    stats.count_block(v.len() as u64);
                    Ok(Arc::new(v))
                },
            };
        }
        match cache.get(id, i as u32) {
            Some(raw) => {
                stats.count_cache(true);
                Ok(raw)
            },
            None => {
                stats.count_cache(false);
                match self.block_bytes(i) {
                    Err(e) => Err(e),
                    Ok(v) => {
                        stats.count_block(v.len() as u64);
                        let raw = Arc::new(v);
                        cache.insert(id, i as u32, raw.clone());
                        Ok(raw)
                    },
                }
            },
        }
    }

    /// The entries of block `i`, read through the cache.
    pub fn block_entries_cached(
        &self,
        i: usize,
        id: u64,
        cache: &mut BlockCache,
        stats: &mut Stats,
    ) -> (r: Result<Vec<SegmentEntry>, FormatError>)
        requires
            self.wf(),
            i < self.data@.len(),
            old(cache).wf(),
            coherent(old(cache)@, id, self@),
        ensures
            list_rv(r) == block_at(self@, i as int),
            final(cache).wf(),
            final(cache)@ == cache_after(old(cache)@, id, self@, i as int),
            final(stats)@ == load_stats(old(stats)@, old(cache)@, id, self@, i as int),
    {
        assert(self@.data[i as int] == self.data@[i as int]@);
        proof {
            reveal(block_at);
        }
        let raw = match self.read_block(i, id, cache, stats) {
            Err(e) => {
                proof {
                    lemma_none_decoded(stats@);
                }
                return Err(e);
            },
            Ok(raw) => raw,
        };
        let n: usize = raw.len();
        let ghost h = self@.data[i as int].header;
        let ghost len = self@.data[i as int].payload_len;
        assert(n == 28 + len);
        let payload = &raw.as_slice()[28..n];
        assert(payload@ =~= self@.bytes.subrange(h + 28, h + 28 + len));
        proof {
            lemma_none_decoded(stats@);
        }
        match decode_block(payload, self.data[i].entries, self.data[i].v2, self.data[i].v3, i) {
            Err(e) => Err(e),
            Ok(es) => {
                stats.count_entries(es.len() as u64);
                Ok(es)
            },
        }
    }

    /// The head of `key`, with its block read through the cache. The answer is
    /// that of a read without one.
    pub fn get_cached(
        &self,
        key: &[u8],
        id: u64,
        cache: &mut BlockCache,
        stats: &mut Stats,
    ) -> (r: Result<Option<SegmentEntry>, FormatError>)
        requires
            self.wf(),
            old(cache).wf(),
            coherent(old(cache)@, id, self@),
        ensures
            opt_rv(r) == seg_get(self@, key@),
            final(cache).wf(),
            coherent(final(cache)@, id, self@),
            match locate_of(self@, key@) {
                None => final(cache)@ == old(cache)@ && final(stats)@ == old(stats)@,
                Some(i) => final(cache)@ == cache_after(old(cache)@, id, self@, i) && final(stats)@
                    == lookup_stats(old(stats)@, old(cache)@, id, self@, i, key@, None),
            },
    {
        match self.locate(key) {
            None => Ok(None),
            Some(i) => {
                assert(self@.data[i as int] == self.data@[i as int]@);
                let raw = match self.read_block(i, id, cache, stats) {
                    Err(e) => {
                        proof {
                            reveal(block_at);
                            lemma_none_decoded(stats@);
                        }
                        return Err(e);
                    },
                    Ok(raw) => raw,
                };
                let n: usize = raw.len();
                let ghost h = self@.data[i as int].header;
                let ghost len = self@.data[i as int].payload_len;
                assert(n == 28 + len);
                let payload = &raw.as_slice()[28..n];
                assert(payload@ =~= self@.bytes.subrange(h + 28, h + 28 + len));
                if !self.data[i].v2 {
                    proof {
                        reveal(block_at);
                        lemma_none_decoded(stats@);
                    }
                    return match decode_block(
                        payload,
                        self.data[i].entries,
                        self.data[i].v2,
                        self.data[i].v3,
                        i,
                    ) {
                        Err(e) => Err(e),
                        Ok(es) => {
                            stats.count_entries(es.len() as u64);
                            Ok(find_key(&es, key))
                        },
                    };
                }
                match block_get_v2(payload, key, self.data[i].v3, None) {
                    Err(e) => {
                        proof {
                            lemma_none_decoded(stats@);
                        }
                        Err(e)
                    },
                    Ok((found, n)) => {
                        stats.count_entries(n);
                        Ok(found)
                    },
                }
            },
        }
    }

    /// The head of `key` for one replica, with blocks read through the cache.
    #[verifier::spinoff_prover]
    #[verifier::rlimit(40)]
    pub fn get_by_rid_cached(
        &self,
        key: &[u8],
        rid: ReplicaId,
        id: u64,
        cache: &mut BlockCache,
        stats: &mut Stats,
    ) -> (r: Result<Option<SegmentEntry>, FormatError>)
        requires
            self.wf(),
            old(cache).wf(),
            coherent(old(cache)@, id, self@),
        ensures
            opt_rv(r) == seg_get_rid(self@, key@, rid),
            final(cache).wf(),
            coherent(final(cache)@, id, self@),
            (final(cache)@, final(stats)@) == match locate_of(self@, key@) {
                None => (old(cache)@, old(stats)@),
                Some(i) => rid_after(old(cache)@, old(stats)@, id, self@, i, key@, rid),
            },
    {
        let mut i: usize = match self.locate(key) {
            Some(i) => i,
            None => {
                return Ok(None);
            },
        };
        let ghost i0 = i as int;
        let ghost c0 = cache@;
        let ghost st0 = stats@;
        loop
            invariant
                self.wf(),
                i < self.data@.len(),
                c0 == old(cache)@,
                st0 == old(stats)@,
                cache.wf(),
                coherent(cache@, id, self@),
                rid_from(self@, i0, key@, rid) == rid_from(self@, i as int, key@, rid),
                rid_after(c0, st0, id, self@, i0, key@, rid) == rid_after(
                    cache@,
                    stats@,
                    id,
                    self@,
                    i as int,
                    key@,
                    rid,
                ),
                locate_of(self@, key@) == Some(i0),
            decreases self.data@.len() - i,
        {
            assert(self@.data[i as int] == self.data@[i as int]@);
            let spills = bytes_eq(self.data[i].last.as_slice(), key) && i + 1 < self.data.len();
            if self.data[i].v3 {
                let raw = match self.read_block(i, id, cache, stats) {
                    Err(e) => {
                        proof {
                            lemma_none_decoded(stats@);
                        }
                        return Err(e);
                    },
                    Ok(raw) => raw,
                };
                let n: usize = raw.len();
                let ghost h = self@.data[i as int].header;
                let ghost len = self@.data[i as int].payload_len;
                assert(n == 28 + len);
                let payload = &raw.as_slice()[28..n];
                assert(payload@ =~= self@.bytes.subrange(h + 28, h + 28 + len));
                match block_get_v2(payload, key, true, Some(rid)) {
                    Err(e) => {
                        proof {
                            lemma_none_decoded(stats@);
                        }
                        return Err(e);
                    },
                    Ok((out, decoded)) => {
                        stats.count_entries(decoded);
                        if out.is_some() {
                            return Ok(out);
                        }
                    },
                }
            }
            if !spills {
                return Ok(None);
            }
            i += 1;
        }
    }
}

/// Counting nothing changes nothing.
pub proof fn lemma_none_decoded(st: ReadPathStats)
    ensures
        st.entries_read(0) == st,
{
}

} // verus!
