//! Range cursors that read blocks through the shared cache. What they give is
//! what a cursor without one gives.

use crate::cache::{BlockCache, CacheV};
use crate::format::FormatError;
use crate::segment::cached::{cache_after, coherent, stats_after};
use crate::segment::cursor::{
    item_view, lemma_scan_entry, loaded_payload, opt_slice, past_end, scan_entry, scan_left,
    scan_load, scan_step, Move, ScanV, SegmentScan,
};
use crate::segment::entry::{p_key, SegmentEntry};
use crate::segment::lookup::scan_seek_pos;
use crate::segment::open::SegV;
use crate::stats::{ReadPathStats, Stats};
use vstd::prelude::*;

verus! {

/// How many entries one decoding step reads: one where a key comes out.
pub open spec fn entry_cost(s: SegV, c: ScanV, i: int) -> nat {
    let payload = loaded_payload(s, i);
    if c.pos < 0 || c.pos >= payload.len() || p_key(payload.skip(c.pos), 0, c.scratch) is Err {
        0
    } else {
        1
    }
}

/// The cache and the counters after one step of a range cursor.
pub open spec fn step_after(
    s: SegV,
    start: Seq<u8>,
    end: Option<Seq<u8>>,
    c: ScanV,
    id: u64,
    cache: CacheV,
    st: ReadPathStats,
) -> (CacheV, ReadPathStats)
    decreases s.data.len() - c.block, scan_left(s, c),
{
    if c.done {
        (cache, st)
    } else {
        match c.loaded {
            None => if c.block < 0 || c.block >= s.data.len() || past_end(
                s.data[c.block].first,
                end,
            ) {
                (cache, st)
            } else {
                let cache1 = cache_after(cache, id, s, c.block);
                let st1 = stats_after(st, cache, id, s, c.block);
                match scan_load(s, start, end, c) {
                    Ok(Some(c2)) => step_after(s, start, end, c2, id, cache1, st1),
                    _ => (cache1, st1),
                }
            },
            Some(i) => {
                proof {
                    lemma_scan_entry(s, start, end, c, i);
                }
                let st1 = st.entries_read(entry_cost(s, c, i));
                match scan_entry(s, start, end, c, i) {
                    Move::Give(_, _) => (cache, st1),
                    Move::Go(c2) => step_after(s, start, end, c2, id, cache, st1),
                }
            },
        }
    }
}

impl<'a> SegmentScan<'a> {
    /// Loads the next block that can hold keys of the range, through the
    /// cache.
    fn load_cached(&mut self, id: u64, cache: &mut BlockCache, stats: &mut Stats) -> (r: Result<
        bool,
        FormatError,
    >)
        requires
            old(self).wf(),
            old(self).loaded is None,
            old(cache).wf(),
            coherent(old(cache)@, id, old(self).reader@),
        ensures
            final(self).wf(),
            final(self).reader == old(self).reader,
            final(self).start == old(self).start,
            final(self).end == old(self).end,
            final(cache).wf(),
            coherent(final(cache)@, id, old(self).reader@),
            match (r, scan_load(
                old(self).reader@,
                old(self).start@,
                opt_slice(old(self).end),
                old(self)@,
            )) {
                (Ok(true), Ok(Some(c))) => final(self)@ == c,
                (Ok(false), Ok(None)) => final(self)@ == old(self)@,
                (Err(e), Err(f)) => e@ == f && final(self)@ == old(self)@,
                _ => false,
            },
            r == Ok::<bool, FormatError>(false) ==> final(cache)@ == old(cache)@ && final(stats)@
                == old(stats)@,
            r != Ok::<bool, FormatError>(false) ==> final(cache)@ == cache_after(
                old(cache)@,
                id,
                old(self).reader@,
                old(self)@.block,
            ) && final(stats)@ == stats_after(
                old(stats)@,
                old(cache)@,
                id,
                old(self).reader@,
                old(self)@.block,
            ),
    {
        if self.block >= self.reader.data.len() {
            return Ok(false);
        }
        let ghost s = self.reader@;
        let ghost i = self.block as int;
        assert(s.data[i] == self.reader.data@[i]@);
        if self.ends_at(self.reader.data[self.block].first.as_slice()) {
            return Ok(false);
        }
        let raw = match self.reader.read_block(self.block, id, cache, stats) {
            Ok(raw) => raw,
            Err(e) => {
                return Err(e);
            },
        };
        let n: usize = raw.len();
        let ghost h = s.data[i].header;
        let ghost len = s.data[i].payload_len;
        assert(n == 28 + len);
        let payload = &raw.as_slice()[28..n];
        assert(payload@ =~= s.bytes.subrange(h + 28, h + 28 + len));
        let pos: usize = match scan_seek_pos(payload, self.reader.data[self.block].v2, self.start) {
            Ok(n) => n,
            Err(e) => {
                return Err(e);
            },
        };
        self.pos = pos;
        self.loaded = Some(self.block);
        self.block = self.block + 1;
        self.scratch = Vec::new();
        assert(self@.scratch =~= seq![]);
        Ok(true)
    }

    /// Whether a key comes out at the position of loaded block `i`.
    fn reads_key(&self, i: usize) -> (r: bool)
        requires
            self.wf(),
            self.loaded == Some(i),
        ensures
            r == (entry_cost(self.reader@, self@, i as int) == 1),
    {
        let ghost s = self.reader@;
        let blk = &self.reader.data[i];
        assert(s.data[i as int] == blk@);
        let b: &[u8] = self.reader.bytes.as_slice();
        let total: usize = b.len();
        assert(blk.header + 28 + blk.payload_len <= total);
        let from: usize = blk.header + 28;
        let n: usize = blk.payload_len;
        if self.pos >= n {
            return false;
        }
        let rest = &b[from + self.pos..from + n];
        assert(rest@ =~= loaded_payload(s, i as int).skip(self.pos as int));
        let mut cur = crate::format::Cursor::new(rest);
        match crate::segment::entry::read_key(&mut cur, &self.scratch) {
            Ok(_) => true,
            Err(_) => false,
        }
    }

    /// One step, with blocks read through the cache.
    pub fn next_cached(&mut self, id: u64, cache: &mut BlockCache, stats: &mut Stats) -> (r: Option<
        Result<SegmentEntry, FormatError>,
    >)
        requires
            old(self).wf(),
            old(cache).wf(),
            coherent(old(cache)@, id, old(self).reader@),
        ensures
            final(self).wf(),
            final(self).reader == old(self).reader,
            final(self).start == old(self).start,
            final(self).end == old(self).end,
            final(cache).wf(),
            coherent(final(cache)@, id, old(self).reader@),
            (item_view(r), final(self)@) == scan_step(
                old(self).reader@,
                old(self).start@,
                opt_slice(old(self).end),
                old(self)@,
            ),
            (final(cache)@, final(stats)@) == step_after(
                old(self).reader@,
                old(self).start@,
                opt_slice(old(self).end),
                old(self)@,
                id,
                old(cache)@,
                old(stats)@,
            ),
    {
        let ghost s = self.reader@;
        let ghost start = self.start@;
        let ghost end = opt_slice(self.end);
        let ghost c0 = self@;
        let ghost cache0 = cache@;
        let ghost st0 = stats@;
        loop
            invariant
                self.wf(),
                self.reader == old(self).reader,
                self.start == old(self).start,
                self.end == old(self).end,
                s == self.reader@,
                start == self.start@,
                end == opt_slice(self.end),
                c0 == old(self)@,
                cache0 == old(cache)@,
                st0 == old(stats)@,
                cache.wf(),
                coherent(cache@, id, s),
                scan_step(s, start, end, c0) == scan_step(s, start, end, self@),
                step_after(s, start, end, c0, id, cache0, st0) == step_after(
                    s,
                    start,
                    end,
                    self@,
                    id,
                    cache@,
                    stats@,
                ),
            decreases s.data.len() - self.block, scan_left(s, self@),
        {
            if self.done {
                return None;
            }
            match self.loaded {
                None => {
                    match self.load_cached(id, cache, stats) {
                        Ok(true) => {},
                        Ok(false) => {
                            return None;
                        },
                        Err(e) => {
                            return Some(Err(e));
                        },
                    }
                },
                Some(i) => {
                    proof {
                        lemma_scan_entry(s, start, end, self@, i as int);
                    }
                    if self.reads_key(i) {
                        stats.count_entries(1);
                    } else {
                        stats.count_entries(0);
                    }
                    if let Some(item) = self.decode_next(i) {
                        return item;
                    }
                },
            }
        }
    }
}

} // verus!
