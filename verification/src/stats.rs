//! Counters of the read path.
//!
//! The counters of lookups, memtable hits and segments count point reads. The
//! counters of the cache, of blocks, of bytes and of decoded entries count the
//! blocks that point reads, batches of reads, reads of objects, scans and merges
//! load on the shared read path. All of them only count up, and wrap at the end.
//!
//! Of the counters of time, a caller that measures adds to `lock_wait_ns` and
//! `get_wall_ns`. The library reads no clock, so the six that lie inside a read
//! (`memtable_lookup_ns`, `index_lookup_ns`, `block_cache_lookup_ns`,
//! `block_io_ns`, `block_decode_ns` and `bloom_probe_ns`) stay at 0.

use vstd::prelude::*;

verus! {

/// A snapshot of the counters.
#[derive(Debug, Clone, Copy, PartialEq, Eq, Structural)]
pub struct ReadPathStats {
    pub lookups: u64,
    pub memtable_lookup_ns: u64,
    pub memtable_hits: u64,
    pub segments_considered: u64,
    pub segments_range_skipped: u64,
    pub segments_bloom_skipped: u64,
    pub segments_index_searched: u64,
    pub index_lookup_ns: u64,
    pub block_cache_lookup_ns: u64,
    pub block_cache_hits: u64,
    pub block_cache_misses: u64,
    pub block_io_ns: u64,
    pub block_decode_ns: u64,
    pub blocks_read: u64,
    pub bytes_read: u64,
    pub entries_decoded: u64,
    pub lock_wait_ns: u64,
    pub bloom_probe_ns: u64,
    pub get_wall_ns: u64,
}

/// The counts of one lookup among the segments.
#[verifier::ext_equal]
pub struct Counts {
    pub considered: nat,
    pub range_skipped: nat,
    pub bloom_skipped: nat,
    pub searched: nat,
}

pub open spec fn counts_zero() -> Counts {
    Counts { considered: 0, range_skipped: 0, bloom_skipped: 0, searched: 0 }
}

pub open spec fn add_counts(a: Counts, b: Counts) -> Counts {
    Counts {
        considered: a.considered + b.considered,
        range_skipped: a.range_skipped + b.range_skipped,
        bloom_skipped: a.bloom_skipped + b.bloom_skipped,
        searched: a.searched + b.searched,
    }
}

/// A counter that wraps.
pub open spec fn wraps(x: u64, n: nat) -> u64 {
    ((x + n) % 0x1_0000_0000_0000_0000) as u64
}

impl ReadPathStats {
    /// The counters after some lookups.
    pub open spec fn looked_up(self, lookups: nat, hits: nat, c: Counts) -> ReadPathStats {
        ReadPathStats {
            lookups: wraps(self.lookups, lookups),
            memtable_hits: wraps(self.memtable_hits, hits),
            segments_considered: wraps(self.segments_considered, c.considered),
            segments_range_skipped: wraps(self.segments_range_skipped, c.range_skipped),
            segments_bloom_skipped: wraps(self.segments_bloom_skipped, c.bloom_skipped),
            segments_index_searched: wraps(self.segments_index_searched, c.searched),
            ..self
        }
    }

    /// The counters after a lookup in the block cache.
    pub open spec fn cache_asked(self, hit: bool) -> ReadPathStats {
        if hit {
            ReadPathStats { block_cache_hits: wraps(self.block_cache_hits, 1), ..self }
        } else {
            ReadPathStats { block_cache_misses: wraps(self.block_cache_misses, 1), ..self }
        }
    }

    /// The counters after entries were decoded.
    pub open spec fn entries_read(self, n: nat) -> ReadPathStats {
        ReadPathStats { entries_decoded: wraps(self.entries_decoded, n), ..self }
    }

    /// The counters after a block was read.
    pub open spec fn block_loaded(self, bytes: nat) -> ReadPathStats {
        ReadPathStats {
            blocks_read: wraps(self.blocks_read, 1),
            bytes_read: wraps(self.bytes_read, bytes),
            ..self
        }
    }
}

/// All counters at zero.
pub open spec fn stats_zero() -> ReadPathStats {
    ReadPathStats {
        lookups: 0,
        memtable_lookup_ns: 0,
        memtable_hits: 0,
        segments_considered: 0,
        segments_range_skipped: 0,
        segments_bloom_skipped: 0,
        segments_index_searched: 0,
        index_lookup_ns: 0,
        block_cache_lookup_ns: 0,
        block_cache_hits: 0,
        block_cache_misses: 0,
        block_io_ns: 0,
        block_decode_ns: 0,
        blocks_read: 0,
        bytes_read: 0,
        entries_decoded: 0,
        lock_wait_ns: 0,
        bloom_probe_ns: 0,
        get_wall_ns: 0,
    }
}

impl Default for ReadPathStats {
    fn default() -> (r: Self)
        ensures
            r == stats_zero(),
    {
        ReadPathStats {
            lookups: 0,
            memtable_lookup_ns: 0,
            memtable_hits: 0,
            segments_considered: 0,
            segments_range_skipped: 0,
            segments_bloom_skipped: 0,
            segments_index_searched: 0,
            index_lookup_ns: 0,
            block_cache_lookup_ns: 0,
            block_cache_hits: 0,
            block_cache_misses: 0,
            block_io_ns: 0,
            block_decode_ns: 0,
            blocks_read: 0,
            bytes_read: 0,
            entries_decoded: 0,
            lock_wait_ns: 0,
            bloom_probe_ns: 0,
            get_wall_ns: 0,
        }
    }
}

/// The live counters.
pub struct Stats {
    counters: ReadPathStats,
}

impl View for Stats {
    type V = ReadPathStats;

    closed spec fn view(&self) -> ReadPathStats {
        self.counters
    }
}

impl Stats {
    pub fn new() -> (r: Self)
        ensures
            r@ == stats_zero(),
    {
        Stats { counters: ReadPathStats::default() }
    }

    /// The counters as they stand.
    pub fn snapshot(&self) -> (r: ReadPathStats)
        ensures
            r == self@,
    {
        self.counters
    }

    /// Counts lookups.
    pub fn count(
        &mut self,
        lookups: u64,
        hits: u64,
        considered: u64,
        range_skipped: u64,
        bloom_skipped: u64,
        searched: u64,
    )
        ensures
            final(self)@ == old(self)@.looked_up(
                lookups as nat,
                hits as nat,
                (Counts {
                    considered: considered as nat,
                    range_skipped: range_skipped as nat,
                    bloom_skipped: bloom_skipped as nat,
                    searched: searched as nat,
                }),
            ),
    {
        let c = self.counters;
        self.counters = ReadPathStats {
            lookups: c.lookups.wrapping_add(lookups),
            memtable_lookup_ns: c.memtable_lookup_ns,
            memtable_hits: c.memtable_hits.wrapping_add(hits),
            segments_considered: c.segments_considered.wrapping_add(considered),
            segments_range_skipped: c.segments_range_skipped.wrapping_add(range_skipped),
            segments_bloom_skipped: c.segments_bloom_skipped.wrapping_add(bloom_skipped),
            segments_index_searched: c.segments_index_searched.wrapping_add(searched),
            index_lookup_ns: c.index_lookup_ns,
            block_cache_lookup_ns: c.block_cache_lookup_ns,
            block_cache_hits: c.block_cache_hits,
            block_cache_misses: c.block_cache_misses,
            block_io_ns: c.block_io_ns,
            block_decode_ns: c.block_decode_ns,
            blocks_read: c.blocks_read,
            bytes_read: c.bytes_read,
            entries_decoded: c.entries_decoded,
            lock_wait_ns: c.lock_wait_ns,
            bloom_probe_ns: c.bloom_probe_ns,
            get_wall_ns: c.get_wall_ns,
        };
    }

    /// Adds the wall time of a read, in nanoseconds.
    pub fn add_wall(&mut self, ns: u64)
        ensures
            final(self)@ == (ReadPathStats {
                get_wall_ns: wraps(old(self)@.get_wall_ns, ns as nat),
                ..old(self)@
            }),
    {
        self.counters.get_wall_ns = self.counters.get_wall_ns.wrapping_add(ns);
    }

    /// Adds the time that a read waited for the state, in nanoseconds.
    pub fn add_lock_wait(&mut self, ns: u64)
        ensures
            final(self)@ == (ReadPathStats {
                lock_wait_ns: wraps(old(self)@.lock_wait_ns, ns as nat),
                ..old(self)@
            }),
    {
        self.counters.lock_wait_ns = self.counters.lock_wait_ns.wrapping_add(ns);
    }

    /// Counts a lookup in the block cache.
    pub fn count_cache(&mut self, hit: bool)
        ensures
            final(self)@ == old(self)@.cache_asked(hit),
    {
        if hit {
            self.counters.block_cache_hits = self.counters.block_cache_hits.wrapping_add(1);
        } else {
            self.counters.block_cache_misses = self.counters.block_cache_misses.wrapping_add(1);
        }
    }

    /// Counts decoded entries.
    pub fn count_entries(&mut self, n: u64)
        ensures
            final(self)@ == old(self)@.entries_read(n as nat),
    {
        self.counters.entries_decoded = self.counters.entries_decoded.wrapping_add(n);
    }

    /// Counts a block that was read.
    pub fn count_block(&mut self, bytes: u64)
        ensures
            final(self)@ == old(self)@.block_loaded(bytes as nat),
    {
        self.counters.blocks_read = self.counters.blocks_read.wrapping_add(1);
        self.counters.bytes_read = self.counters.bytes_read.wrapping_add(bytes);
    }
}

} // verus!
