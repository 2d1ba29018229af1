//! Reads: the newest layer wins. The memtable comes first, then the immutable
//! ones and the segments, each newest first; a deletion in a newer layer hides
//! what older layers hold.

use crate::codec::{lex_lt, lt};
use crate::compaction::laws::layered;
use crate::compaction::run::{all_wf, segs_view};
use crate::db::state::{replica_of, Db, DbV};
use crate::format::{ErrV, FormatError};
use crate::identity::object_id::ObjectId;
use crate::identity::replica_id::ReplicaId;
use crate::memtable::{entry_value, lemma_first_any, value_of, value_view, MemV, Memtable};
use crate::segment::block_laws::first_rid;
use crate::segment::entry::{EntryV, SegmentEntry};
use crate::segment::open::{SegV, SegmentReader};
use crate::segment::read::{bloom_has, hashes_of, opt_rv, seg_get, seg_get_rid};
use crate::stats::{add_counts, counts_zero, Counts, Stats};
use vstd::prelude::*;

verus! {

/// A result of an optional value, seen as a value.
pub open spec fn answer_rv(r: Result<Option<Vec<u8>>, FormatError>) -> Result<Option<Seq<u8>>, ErrV> {
    match r {
        Ok(v) => Ok(value_view(v)),
        Err(e) => Err(e@),
    }
}

// ---------------------------------------------------------------------------
// Layers in memory
/// The rows of the memtables, oldest first; the active one comes last.
pub open spec fn mem_layers(s: DbV) -> Seq<Seq<EntryV>> {
    s.immutables.map_values(|m: MemV| m.rows).push(s.active.rows)
}

/// The row that answers a read from memory.
pub open spec fn mem_find(s: DbV, key: Seq<u8>, want: Option<ReplicaId>) -> Option<EntryV> {
    layered(mem_layers(s), mem_layers(s).len(), key, want)
}

proof fn lemma_layers_prefix(
    a: Seq<Seq<EntryV>>,
    b: Seq<Seq<EntryV>>,
    n: nat,
    key: Seq<u8>,
    want: Option<ReplicaId>,
)
    requires
        n <= a.len(),
        n <= b.len(),
        forall|i: int| 0 <= i < n ==> a[i] == b[i],
    ensures
        layered(a, n, key, want) == layered(b, n, key, want),
    decreases n,
{
    if n > 0 {
        lemma_layers_prefix(a, b, (n - 1) as nat, key, want);
    }
}

// ---------------------------------------------------------------------------
// Segments
/// Why a segment is or is not searched for a key.
#[derive(Debug, Clone, Copy, PartialEq, Eq, Structural)]
pub enum Probe {
    /// The key lies outside the segment's keys.
    OutOfRange,
    /// The filter denies the key.
    Denied,
    Search,
}

/// How a segment is met with a key. A filter of no bits denies nothing.
#[verifier::opaque]
pub open spec fn probe_of(s: SegV, key: Seq<u8>) -> Probe {
    if lex_lt(key, s.key_min) || lex_lt(s.key_max, key) {
        Probe::OutOfRange
    } else if s.bloom_m > 0 && !bloom_has(
        s.bits,
        s.bloom_m as int,
        hashes_of(key).0,
        hashes_of(key).1,
    ) {
        Probe::Denied
    } else {
        Probe::Search
    }
}

/// What a segment answers.
#[verifier::opaque]
pub open spec fn seg_answer(s: SegV, key: Seq<u8>) -> Result<Option<EntryV>, ErrV> {
    if probe_of(s, key) == Probe::Search {
        seg_get(s, key)
    } else {
        Ok(None)
    }
}

/// The counts of meeting one segment.
pub open spec fn probe_counts(p: Probe) -> Counts {
    Counts {
        considered: 1,
        range_skipped: if p == Probe::OutOfRange {
            1
        } else {
            0
        },
        bloom_skipped: if p == Probe::Denied {
            1
        } else {
            0
        },
        searched: if p == Probe::Search {
            1
        } else {
            0
        },
    }
}

/// What the first `n` segments answer, newest first.
pub open spec fn seg_chain(segs: Seq<SegV>, n: nat, key: Seq<u8>) -> Result<Option<EntryV>, ErrV>
    decreases n,
{
    if n == 0 {
        Ok(None)
    } else {
        match seg_answer(segs[n - 1], key) {
            Err(e) => Err(e),
            Ok(Some(e)) => Ok(Some(e)),
            Ok(None) => seg_chain(segs, (n - 1) as nat, key),
        }
    }
}

/// The counts of a lookup through the first `n` segments.
pub open spec fn chain_counts(segs: Seq<SegV>, n: nat, key: Seq<u8>) -> Counts
    decreases n,
{
    if n == 0 {
        counts_zero()
    } else {
        let here = probe_counts(probe_of(segs[n - 1], key));
        if seg_answer(segs[n - 1], key) == Ok::<Option<EntryV>, ErrV>(None) {
            add_counts(here, chain_counts(segs, (n - 1) as nat, key))
        } else {
            here
        }
    }
}

/// What the first `n` segments hold of a replica's row, newest first.
pub open spec fn seg_chain_rid(segs: Seq<SegV>, n: nat, key: Seq<u8>, rid: ReplicaId) -> Result<
    Option<EntryV>,
    ErrV,
>
    decreases n,
{
    if n == 0 {
        Ok(None)
    } else {
        match seg_get_rid(segs[n - 1], key, rid) {
            Err(e) => Err(e),
            Ok(Some(e)) => Ok(Some(e)),
            Ok(None) => seg_chain_rid(segs, (n - 1) as nat, key, rid),
        }
    }
}

/// What a row answers to a read.
pub open spec fn shown(r: Result<Option<EntryV>, ErrV>) -> Result<Option<Seq<u8>>, ErrV> {
    match r {
        Err(e) => Err(e),
        Ok(None) => Ok(None),
        Ok(Some(e)) => Ok(value_of(e)),
    }
}

/// What a key reads as.
pub open spec fn db_get(s: DbV, key: Seq<u8>) -> Result<Option<Seq<u8>>, ErrV> {
    match mem_find(s, key, None) {
        Some(e) => Ok(value_of(e)),
        None => shown(seg_chain(s.segments, s.segments.len(), key)),
    }
}

/// What an object's row reads as: rows of other owners at the same key never
/// answer. An object that was never created reads as nothing.
pub open spec fn db_get_object(s: DbV, oid: Seq<u8>, key: Seq<u8>) -> Result<Option<Seq<u8>>, ErrV> {
    match replica_of(s, oid) {
        Err(e) => Err(e),
        Ok(None) => Ok(None),
        Ok(Some(rid)) => match mem_find(s, key, Some(rid)) {
            Some(e) => Ok(value_of(e)),
            None => shown(seg_chain_rid(s.segments, s.segments.len(), key, rid)),
        },
    }
}

/// How a segment is met with a key whose hashes are known.
pub fn probe_segment(seg: &SegmentReader, key: &[u8], hashes: (u64, u64)) -> (r: Probe)
    requires
        seg.wf(),
        hashes == hashes_of(key@),
    ensures
        r == probe_of(seg@, key@),
{
    reveal(probe_of);
    if lt(key, seg.key_min()) || lt(seg.key_max(), key) {
        return Probe::OutOfRange;
    }
    if seg.bloom_m > 0 && !seg.bloom_may_contain_hashes(hashes.0, hashes.1) {
        return Probe::Denied;
    }
    Probe::Search
}

/// The counts of one lookup among the segments.
#[derive(Debug, Clone, Copy)]
pub struct Tally {
    pub considered: u64,
    pub range_skipped: u64,
    pub bloom_skipped: u64,
    pub searched: u64,
}

impl View for Tally {
    type V = Counts;

    open spec fn view(&self) -> Counts {
        Counts {
            considered: self.considered as nat,
            range_skipped: self.range_skipped as nat,
            bloom_skipped: self.bloom_skipped as nat,
            searched: self.searched as nat,
        }
    }
}

impl Tally {
    /// Counts one segment.
    pub fn note(&mut self, p: Probe)
        requires
            old(self).considered < u64::MAX,
            old(self).range_skipped <= old(self).considered,
            old(self).bloom_skipped <= old(self).considered,
            old(self).searched <= old(self).considered,
        ensures
            final(self)@ == add_counts(old(self)@, probe_counts(p)),
            final(self).considered == old(self).considered + 1,
            final(self).range_skipped <= final(self).considered,
            final(self).bloom_skipped <= final(self).considered,
            final(self).searched <= final(self).considered,
    {
        self.considered = self.considered + 1;
        match p {
            Probe::OutOfRange => {
                self.range_skipped = self.range_skipped + 1;
            },
            Probe::Denied => {
                self.bloom_skipped = self.bloom_skipped + 1;
            },
            Probe::Search => {
                self.searched = self.searched + 1;
            },
        }
    }
}

/// Asks one segment.
fn ask_segment(seg: &SegmentReader, key: &[u8], hashes: (u64, u64)) -> (r: (
    Probe,
    Result<Option<SegmentEntry>, FormatError>,
))
    requires
        seg.wf(),
        hashes == hashes_of(key@),
    ensures
        r.0 == probe_of(seg@, key@),
        opt_rv(r.1) == seg_answer(seg@, key@),
{
    reveal(seg_answer);
    let p = probe_segment(seg, key, hashes);
    match p {
        Probe::Search => (p, seg.get(key)),
        _ => (p, Ok(None)),
    }
}

/// Asks the segments, newest first.
fn search_segments(segments: &Vec<SegmentReader>, key: &[u8]) -> (r: (
    Result<Option<SegmentEntry>, FormatError>,
    Tally,
))
    requires
        all_wf(segments@),
    ensures
        opt_rv(r.0) == seg_chain(segs_view(segments@), segments@.len(), key@),
        r.1@ == chain_counts(segs_view(segments@), segments@.len(), key@),
{
    let ghost segs = segs_view(segments@);
    let hashes = SegmentReader::bloom_hashes(key);
    let mut c = Tally { considered: 0, range_skipped: 0, bloom_skipped: 0, searched: 0 };
    let n = segments.len();
    let mut i: usize = n;
    while i > 0
        invariant
            n == segments@.len(),
            i <= segments@.len(),
            all_wf(segments@),
            segs == segs_view(segments@),
            hashes == hashes_of(key@),
            c.considered + i == segments@.len(),
            c.range_skipped <= c.considered,
            c.bloom_skipped <= c.considered,
            c.searched <= c.considered,
            seg_chain(segs, segments@.len(), key@) == seg_chain(segs, i as nat, key@),
            chain_counts(segs, segments@.len(), key@) == add_counts(
                c@,
                chain_counts(segs, i as nat, key@),
            ),
        decreases i,
    {
        i -= 1;
        assert(segs[i as int] == segments@[i as int]@);
        let (p, found) = ask_segment(&segments[i], key, hashes);
        let ghost c0 = c@;
        c.note(p);
        match found {
            Ok(None) => {},
            _ => {
                return (found, c);
            },
        }
    }
    (Ok(None), c)
}

impl Db {
    /// The row that answers a read from memory.
    pub fn find_in_memory(&self, key: &[u8], want: Option<ReplicaId>) -> (r: Option<&SegmentEntry>)
        requires
            self.wf(),
        ensures
            match r {
                Some(e) => mem_find(self@, key@, want) == Some(e@),
                None => mem_find(self@, key@, want) is None,
            },
    {
        let ghost layers = mem_layers(self@);
        let ghost n = self.immutables@.len();
        proof {
            assert(layers.len() == n + 1);
            assert(layers[n as int] == self.active@.rows);
        }
        match find_in(&self.active, key, want) {
            Some(e) => {
                return Some(e);
            },
            None => {},
        }
        let mut i: usize = self.immutables.len();
        while i > 0
            invariant
                i <= self.immutables@.len(),
                self.wf(),
                layers == mem_layers(self@),
                layers.len() == self.immutables@.len() + 1,
                layered(layers, layers.len(), key@, want) == layered(layers, i as nat, key@, want),
            decreases i,
        {
            i -= 1;
            assert(layers[i as int] == self.immutables@[i as int]@.rows);
            match find_in(&self.immutables[i], key, want) {
                Some(e) => {
                    return Some(e);
                },
                None => {},
            }
        }
        None
    }

    /// What a key reads as, with the counts of the lookup.
    pub fn get_inner(&self, key: &[u8], stats: &mut Stats) -> (r: Result<
        Option<Vec<u8>>,
        FormatError,
    >)
        requires
            self.wf(),
        ensures
            answer_rv(r) == db_get(self@, key@),
            final(stats)@ == (match mem_find(self@, key@, None) {
                Some(e) => old(stats)@.looked_up(1, 1, counts_zero()),
                None => old(stats)@.looked_up(
                    1,
                    0,
                    chain_counts(self@.segments, self@.segments.len(), key@),
                ),
            }),
    {
        match self.find_in_memory(key, None) {
            Some(e) => {
                stats.count(1, 1, 0, 0, 0, 0);
                return Ok(entry_value(e));
            },
            None => {},
        }
        let (found, c) = search_segments(&self.segments, key);
        stats.count(1, 0, c.considered, c.range_skipped, c.bloom_skipped, c.searched);
        match found {
            Err(e) => Err(e),
            Ok(None) => Ok(None),
            Ok(Some(e)) => Ok(entry_value(&e)),
        }
    }

    /// What a key reads as.
    pub fn get(&self, key: &[u8]) -> (r: Result<Option<Vec<u8>>, FormatError>)
        requires
            self.wf(),
        ensures
            answer_rv(r) == db_get(self@, key@),
    {
        let mut stats = Stats::new();
        self.get_inner(key, &mut stats)
    }

    /// What an object's row reads as.
    pub fn get_object(&self, oid: ObjectId, key: &[u8]) -> (r: Result<
        Option<Vec<u8>>,
        FormatError,
    >)
        requires
            self.wf(),
        ensures
            answer_rv(r) == db_get_object(self@, oid@, key@),
    {
        let rid = match self.resolve_replica(oid) {
            Err(e) => {
                return Err(e);
            },
            Ok(None) => {
                return Ok(None);
            },
            Ok(Some(rid)) => rid,
        };
        match self.find_in_memory(key, Some(rid)) {
            Some(e) => {
                return Ok(entry_value(e));
            },
            None => {},
        }
        let ghost segs = self@.segments;
        let mut i: usize = self.segments.len();
        while i > 0
            invariant
                i <= self.segments@.len(),
                self.wf(),
                segs == segs_view(self.segments@),
                segs == self@.segments,
                replica_of(self@, oid@) == Ok::<Option<ReplicaId>, ErrV>(Some(rid)),
                mem_find(self@, key@, Some(rid)) is None,
                seg_chain_rid(segs, segs.len(), key@, rid) == seg_chain_rid(
                    segs,
                    i as nat,
                    key@,
                    rid,
                ),
            decreases i,
        {
            i -= 1;
            let seg = &self.segments[i];
            assert(segs[i as int] == seg@);
            match seg.get_by_rid(key, rid) {
                Err(e) => {
                    return Err(e);
                },
                Ok(Some(e)) => {
                    return Ok(entry_value(&e));
                },
                Ok(None) => {},
            }
        }
        Ok(None)
    }
}

/// The newest row of a memtable for the key and the wanted replica.
fn find_in<'a>(m: &'a Memtable, key: &[u8], want: Option<ReplicaId>) -> (r: Option<&'a SegmentEntry>)
    requires
        m.wf(),
    ensures
        match r {
            Some(e) => first_rid(m@.rows, key@, want) == Some(e@),
            None => first_rid(m@.rows, key@, want) is None,
        },
{
    match want {
        None => {
            proof {
                lemma_first_any(m@.rows, key@);
            }
            m.get(key)
        },
        Some(rid) => m.get_by_rid(key, rid),
    }
}

} // verus!
