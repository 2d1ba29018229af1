//! Streaming cursors over a segment: every entry, or the heads of a range.

use crate::codec::{bytes_eq, lex_lt, lt, to_vec};
use crate::format::{ErrV, FormatError, Cursor};
use crate::segment::entry::{
    entries_view, entry_of, lemma_key_body_len, p_body, p_key, read_body, read_key, skip_entry_body, EntryV,
    SegmentEntry,
};
use crate::segment::lookup::{scan_seek_pos, seek_pos};
use crate::segment::open::{SegV, SegmentReader};
use crate::segment::read::{all_from, block_at, first_block, payload_at};
use vstd::prelude::*;

verus! {

/// What a cursor gives, seen as a value.
pub open spec fn item_view(r: Option<Result<SegmentEntry, FormatError>>) -> Option<
    Result<EntryV, ErrV>,
> {
    match r {
        None => None,
        Some(Ok(e)) => Some(Ok(e@)),
        Some(Err(e)) => Some(Err(e@)),
    }
}

// ---------------------------------------------------------------------------
// Every entry
/// A cursor over every entry: the next block to decode, and what is left of
/// the decoded one.
pub struct SegmentIter<'a> {
    pub reader: &'a SegmentReader,
    pub block: usize,
    pub entries: Vec<SegmentEntry>,
    pub next: usize,
}

/// One step of the cursor that stands before block `block` with `left` in
/// hand: what it gives, and where it stands then. A block that fails is
/// reported, and not passed.
pub open spec fn iter_step(s: SegV, block: int, left: Seq<EntryV>) -> (
    Option<Result<EntryV, ErrV>>,
    int,
    Seq<EntryV>,
)
    decreases s.data.len() - block, left.len(),
{
    if left.len() > 0 {
        (Some(Ok(left[0])), block, left.skip(1))
    } else if block < 0 || block >= s.data.len() {
        (None, block, left)
    } else {
        match block_at(s, block) {
            Err(e) => (Some(Err(e)), block, left),
            Ok(es) => iter_step(s, block + 1, es),
        }
    }
}

impl<'a> SegmentIter<'a> {
    pub open spec fn wf(&self) -> bool {
        self.reader.wf() && self.next <= self.entries@.len()
    }

    /// What is left of the decoded block.
    pub open spec fn left(&self) -> Seq<EntryV> {
        entries_view(self.entries@).skip(self.next as int)
    }

    pub fn next(&mut self) -> (r: Option<Result<SegmentEntry, FormatError>>)
        requires
            old(self).wf(),
        ensures
            final(self).wf(),
            final(self).reader == old(self).reader,
            (item_view(r), final(self).block as int, final(self).left()) == iter_step(
                old(self).reader@,
                old(self).block as int,
                old(self).left(),
            ),
    {
        loop
            invariant
                self.wf(),
                self.reader == old(self).reader,
                iter_step(self.reader@, old(self).block as int, old(self).left()) == iter_step(
                    self.reader@,
                    self.block as int,
                    self.left(),
                ),
            decreases self.reader.data@.len() - self.block, self.entries@.len() - self.next,
        {
            if self.next < self.entries.len() {
                let e = self.entries[self.next].duplicate();
                let ghost l0 = self.left();
                self.next = self.next + 1;
                assert(self.left() =~= l0.skip(1));
                assert(l0[0] == e@);
                return Some(Ok(e));
            }
            if self.block >= self.reader.data.len() {
                return None;
            }
            match self.reader.block_entries(self.block) {
                Ok(v) => {
                    self.entries = v;
                    self.next = 0;
                    self.block = self.block + 1;
                    assert(self.left() =~= entries_view(self.entries@));
                },
                Err(e) => {
                    return Some(Err(e));
                },
            }
        }
    }
}

/// What a cursor has left to give in all.
pub open spec fn iter_rest(s: SegV, block: int, left: Seq<EntryV>) -> Result<Seq<EntryV>, ErrV> {
    match all_from(s, block) {
        Err(e) => Err(e),
        Ok(rest) => Ok(left + rest),
    }
}

/// A cursor over a segment that decodes gives its entries one by one, in
/// order, and then ends.
pub proof fn iter_gives_all(s: SegV, block: int, left: Seq<EntryV>)
    requires
        0 <= block <= s.data.len(),
        iter_rest(s, block, left) is Ok,
    ensures
        ({
            let all = iter_rest(s, block, left)->Ok_0;
            let (item, b2, l2) = iter_step(s, block, left);
            if all.len() == 0 {
                item is None
            } else {
                &&& item == Some(Ok::<EntryV, ErrV>(all[0]))
                &&& 0 <= b2 <= s.data.len()
                &&& iter_rest(s, b2, l2) == Ok::<Seq<EntryV>, ErrV>(all.skip(1))
            }
        }),
    decreases s.data.len() - block,
{
    let rest = all_from(s, block)->Ok_0;
    if left.len() > 0 {
        assert((left + rest).skip(1) =~= left.skip(1) + rest);
    } else {
        assert(left + rest =~= rest);
        if block < s.data.len() {
            let es = block_at(s, block)->Ok_0;
            assert(iter_rest(s, block + 1, es) == Ok::<Seq<EntryV>, ErrV>(rest));
            iter_gives_all(s, block + 1, es);
        }
    }
}

// ---------------------------------------------------------------------------
// The heads of a range
/// Where a range cursor stands. `loaded` is the block being decoded, `pos`
/// the position in its payload, `scratch` the key decoded last, `last` the key
/// given last.
#[verifier::ext_equal]
pub struct ScanV {
    pub block: int,
    pub loaded: Option<int>,
    pub pos: int,
    pub scratch: Seq<u8>,
    pub last: Option<Seq<u8>>,
    pub done: bool,
}

/// A cursor over the heads of `[start, end)`; without `end`, to the end of the
/// segment. One block is decoded at a time, from a restart on.
pub struct SegmentScan<'a> {
    pub reader: &'a SegmentReader,
    pub start: &'a [u8],
    pub end: Option<&'a [u8]>,
    pub block: usize,
    pub loaded: Option<usize>,
    pub pos: usize,
    pub scratch: Vec<u8>,
    pub last: Option<Vec<u8>>,
    pub done: bool,
}

pub open spec fn opt_seq(s: Option<Vec<u8>>) -> Option<Seq<u8>> {
    match s {
        Some(v) => Some(v@),
        None => None,
    }
}

pub open spec fn opt_slice(s: Option<&[u8]>) -> Option<Seq<u8>> {
    match s {
        Some(v) => Some(v@),
        None => None,
    }
}

impl<'a> View for SegmentScan<'a> {
    type V = ScanV;

    open spec fn view(&self) -> ScanV {
        ScanV {
            block: self.block as int,
            loaded: match self.loaded {
                Some(i) => Some(i as int),
                None => None,
            },
            pos: self.pos as int,
            scratch: self.scratch@,
            last: opt_seq(self.last),
            done: self.done,
        }
    }
}

/// A range cursor at its start.
pub open spec fn scan_start(s: SegV, start: Seq<u8>) -> ScanV {
    ScanV {
        block: first_block(s, start),
        loaded: None,
        pos: 0,
        scratch: seq![],
        last: None,
        done: false,
    }
}

/// A key at or past the end of a range.
pub open spec fn past_end(key: Seq<u8>, end: Option<Seq<u8>>) -> bool {
    end is Some && !lex_lt(key, end->0)
}

/// The payload of a loaded block.
pub open spec fn loaded_payload(s: SegV, i: int) -> Seq<u8> {
    let h = s.data[i].header;
    s.bytes.subrange(h + 28, h + 28 + s.data[i].payload_len)
}

/// Loading the next block that can hold keys of the range: `None` where there
/// is none.
pub open spec fn scan_load(s: SegV, start: Seq<u8>, end: Option<Seq<u8>>, c: ScanV) -> Result<
    Option<ScanV>,
    ErrV,
> {
    if c.block < 0 || c.block >= s.data.len() || past_end(s.data[c.block].first, end) {
        Ok(None)
    } else {
        match payload_at(s, c.block) {
            Err(e) => Err(e),
            Ok(p) => match seek_pos(p, s.data[c.block].v2, start) {
                Err(e) => Err(e),
                Ok(pos) => Ok(
                    Some(
                        ScanV {
                            block: c.block + 1,
                            loaded: Some(c.block),
                            pos,
                            scratch: seq![],
                            ..c
                        },
                    ),
                ),
            },
        }
    }
}

/// What one decoded entry does to a range cursor.
pub enum Move {
    /// The cursor gives something, or ends, and stands at the new place.
    Give(Option<Result<EntryV, ErrV>>, ScanV),
    /// The cursor goes on from the new place.
    Go(ScanV),
}

/// Decoding at the position of loaded block `i`. Keys before the range and
/// older versions are passed over; the first key at or past the end ends the
/// cursor.
pub open spec fn scan_entry(
    s: SegV,
    start: Seq<u8>,
    end: Option<Seq<u8>>,
    c: ScanV,
    i: int,
) -> Move {
    let payload = loaded_payload(s, i);
    let rest = payload.skip(c.pos);
    if c.pos < 0 || c.pos >= payload.len() {
        Move::Go(ScanV { loaded: None, ..c })
    } else {
        match p_key(rest, 0, c.scratch) {
            Err(e) => Move::Give(Some(Err(e)), c),
            Ok((key, p)) => {
                let c1 = ScanV { scratch: key, ..c };
                if !lex_lt(key, start) && past_end(key, end) {
                    Move::Give(None, ScanV { done: true, ..c1 })
                } else {
                    match p_body(rest, p, s.data[i].v3) {
                        Err(e) => Move::Give(Some(Err(e)), c1),
                        Ok((b, q)) => {
                            let c2 = ScanV { pos: c.pos + q, ..c1 };
                            if lex_lt(key, start) || c.last == Some(key) {
                                Move::Go(c2)
                            } else {
                                Move::Give(
                                    Some(Ok(entry_of(key, b))),
                                    ScanV { last: Some(key), ..c2 },
                                )
                            }
                        },
                    }
                }
            },
        }
    }
}

/// How much a range cursor has before it in its loaded block.
pub open spec fn scan_left(s: SegV, c: ScanV) -> int {
    match c.loaded {
        Some(i) => if c.pos < 0 || c.pos > loaded_payload(s, i).len() {
            1
        } else {
            1 + loaded_payload(s, i).len() - c.pos
        },
        None => 0,
    }
}

/// Decoding on makes progress.
pub proof fn lemma_scan_entry(s: SegV, start: Seq<u8>, end: Option<Seq<u8>>, c: ScanV, i: int)
    requires
        c.loaded == Some(i),
    ensures
        scan_entry(s, start, end, c, i) matches Move::Go(c2) ==> c2.block == c.block && 0
            <= scan_left(s, c2) < scan_left(s, c),
{
    let rest = loaded_payload(s, i).skip(c.pos);
    lemma_key_body_len(rest, 0, c.scratch, s.data[i].v3);
    if let Ok((k, p)) = p_key(rest, 0, c.scratch) {
        lemma_key_body_len(rest, p, c.scratch, s.data[i].v3);
    }
}

/// One step of a range cursor: what it gives, and where it stands then.
pub open spec fn scan_step(s: SegV, start: Seq<u8>, end: Option<Seq<u8>>, c: ScanV) -> (
    Option<Result<EntryV, ErrV>>,
    ScanV,
)
    decreases s.data.len() - c.block, scan_left(s, c),
{
    if c.done {
        (None, c)
    } else {
        match c.loaded {
            None => match scan_load(s, start, end, c) {
                Err(e) => (Some(Err(e)), c),
                Ok(None) => (None, c),
                Ok(Some(c2)) => scan_step(s, start, end, c2),
            },
            Some(i) => {
                proof {
                    lemma_scan_entry(s, start, end, c, i);
                }
                match scan_entry(s, start, end, c, i) {
                    Move::Give(item, c2) => (item, c2),
                    Move::Go(c2) => scan_step(s, start, end, c2),
                }
            },
        }
    }
}

/// `c2` lies behind `c`: in a later block, or further on in the loaded one.
pub open spec fn further(s: SegV, c: ScanV, c2: ScanV) -> bool {
    ||| c.block < c2.block <= s.data.len()
    ||| c2.block == c.block && 0 <= scan_left(s, c2) < scan_left(s, c)
}

/// A range cursor that gives an entry has moved on.
pub proof fn lemma_scan_step(s: SegV, start: Seq<u8>, end: Option<Seq<u8>>, c: ScanV)
    ensures
        scan_step(s, start, end, c).0 matches Some(Ok(_)) ==> further(
            s,
            c,
            scan_step(s, start, end, c).1,
        ),
    decreases s.data.len() - c.block, scan_left(s, c),
{
    if !c.done {
        match c.loaded {
            None => match scan_load(s, start, end, c) {
                Ok(Some(c2)) => {
                    lemma_scan_step(s, start, end, c2);
                },
                _ => {},
            },
            Some(i) => {
                lemma_scan_entry(s, start, end, c, i);
                match scan_entry(s, start, end, c, i) {
                    Move::Give(item, c2) => {
                        let rest = loaded_payload(s, i).skip(c.pos);
                        lemma_key_body_len(rest, 0, c.scratch, s.data[i].v3);
                        if let Ok((k, p)) = p_key(rest, 0, c.scratch) {
                            lemma_key_body_len(rest, p, c.scratch, s.data[i].v3);
                        }
                    },
                    Move::Go(c2) => {
                        lemma_scan_step(s, start, end, c2);
                    },
                }
            },
        }
    }
}

/// All that a range cursor has left to give, or its first failure.
pub open spec fn scan_run(s: SegV, start: Seq<u8>, end: Option<Seq<u8>>, c: ScanV) -> Result<
    Seq<EntryV>,
    ErrV,
>
    decreases s.data.len() - c.block, scan_left(s, c),
{
    match scan_step(s, start, end, c) {
        (None, _) => Ok(seq![]),
        (Some(Err(e)), _) => Err(e),
        (Some(Ok(x)), c2) => {
            proof {
                lemma_scan_step(s, start, end, c);
            }
            if further(s, c, c2) {
                match scan_run(s, start, end, c2) {
                    Err(e) => Err(e),
                    Ok(rest) => Ok(seq![x] + rest),
                }
            } else {
                Ok(seq![])
            }
        },
    }
}

impl SegmentReader {
    pub fn iter(&self) -> (r: SegmentIter<'_>)
        requires
            self.wf(),
        ensures
            r.wf(),
            r.reader == self,
            r.block == 0,
            r.left() == Seq::<EntryV>::empty(),
    {
        let r = SegmentIter { reader: self, block: 0, entries: Vec::new(), next: 0 };
        assert(r.left() =~= seq![]);
        r
    }

    /// A cursor over `[start, end)`: it starts at the first block that can
    /// hold `start`.
    pub fn scan_iter<'a>(&'a self, start: &'a [u8], end: Option<&'a [u8]>) -> (r: SegmentScan<'a>)
        requires
            self.wf(),
        ensures
            r.wf(),
            r.reader == self,
            r.start == start,
            r.end == end,
            r@ == scan_start(self@, start@),
    {
        let block: usize = self.seek_block(start);
        let scratch: Vec<u8> = Vec::new();
        let r = SegmentScan {
            reader: self,
            start,
            end,
            block,
            loaded: None,
            pos: 0,
            scratch,
            last: None,
            done: false,
        };
        assert(r@.scratch =~= seq![]);
        r
    }
}

impl<'a> SegmentScan<'a> {
    pub open spec fn wf(&self) -> bool {
        &&& self.reader.wf()
        &&& (self.loaded matches Some(i) ==> i < self.reader.data@.len())
    }

    /// Whether a key lies at or past the end.
    pub(crate) fn ends_at(&self, key: &[u8]) -> (r: bool)
        ensures
            r == past_end(key@, opt_slice(self.end)),
    {
        match self.end {
            Some(e) => !lt(key, e),
            None => false,
        }
    }

    /// Loads the next block that can hold keys of the range.
    fn load_block(&mut self) -> (r: Result<bool, FormatError>)
        requires
            old(self).wf(),
        ensures
            final(self).wf(),
            final(self).reader == old(self).reader,
            final(self).start == old(self).start,
            final(self).end == old(self).end,
            match (r, scan_load(
                old(self).reader@,
                old(self).start@,
                opt_slice(old(self).end),
                old(self)@,
            )) {
                (Ok(true), Ok(Some(c))) => final(self)@ == c,
                (Ok(false), Ok(None)) => final(self)@ == old(self)@,
                (Err(e), Err(f)) => e@ == f && final(self)@ == old(self)@,
                _ => false,
            },
    {
        if self.block >= self.reader.data.len() {
            return Ok(false);
        }
        assert(self.reader@.data[self.block as int] == self.reader.data@[self.block as int]@);
        if self.ends_at(self.reader.data[self.block].first.as_slice()) {
            return Ok(false);
        }
        let p = match self.reader.block_raw(self.block) {
            Ok(p) => p,
            Err(e) => {
                return Err(e);
            },
        };
        let pos: usize = match scan_seek_pos(p, self.reader.data[self.block].v2, self.start) {
            Ok(n) => n,
            Err(e) => {
                return Err(e);
            },
        };
        self.pos = pos;
        self.loaded = Some(self.block);
        self.block = self.block + 1;
        self.scratch = Vec::new();
        assert(self@.scratch =~= seq![]);
        Ok(true)
    }

    /// Decodes at the position of the loaded block. `None`: the cursor goes
    /// on; otherwise it gives the item, or ends.
    pub(crate) fn decode_next(&mut self, i: usize) -> (r: Option<Option<Result<SegmentEntry, FormatError>>>)
        requires
            old(self).wf(),
            old(self).loaded == Some(i),
            !old(self).done,
        ensures
            final(self).wf(),
            final(self).reader == old(self).reader,
            final(self).start == old(self).start,
            final(self).end == old(self).end,
            match (r, scan_entry(
                old(self).reader@,
                old(self).start@,
                opt_slice(old(self).end),
                old(self)@,
                i as int,
            )) {
                (None, Move::Go(c)) => final(self)@ == c,
                (Some(item), Move::Give(v, c)) => item_view(item) == v && final(self)@ == c,
                _ => false,
            },
    {
        let ghost s = self.reader@;
        let blk = &self.reader.data[i];
        assert(s.data[i as int] == blk@);
        let b: &[u8] = self.reader.bytes.as_slice();
        let total: usize = b.len();
        assert(blk.header + 28 + blk.payload_len <= total);
        let from: usize = blk.header + 28;
        let n: usize = blk.payload_len;
        let ghost payload = loaded_payload(s, i as int);
        if self.pos >= n {
            self.loaded = None;
            return None;
        }
        let v3: bool = blk.v3;
        let pos0: usize = self.pos;
        let rest = &b[from + pos0..from + n];
        assert(rest@ =~= payload.skip(pos0 as int));
        let mut cur = Cursor::new(rest);
        let key = match read_key(&mut cur, &self.scratch) {
            Ok(k) => k,
            Err(e) => {
                return Some(Some(Err(e)));
            },
        };
        self.scratch = key;
        let early = lt(self.scratch.as_slice(), self.start);
        if !early && self.ends_at(self.scratch.as_slice()) {
            self.done = true;
            return Some(None);
        }
        let again = match &self.last {
            Some(k) => bytes_eq(k.as_slice(), self.scratch.as_slice()),
            None => false,
        };
        if early || again {
            match skip_entry_body(&mut cur, v3) {
                Ok(_) => {},
                Err(e) => {
                    return Some(Some(Err(e)));
                },
            }
            self.pos = pos0 + cur.pos;
            return None;
        }
        let body = match read_body(&mut cur, v3) {
            Ok(x) => x,
            Err(e) => {
                return Some(Some(Err(e)));
            },
        };
        self.pos = pos0 + cur.pos;
        let out = SegmentEntry {
            key: to_vec(self.scratch.as_slice()),
            value: body.value,
            seq: body.seq,
            flags: body.flags,
            replica_id: body.replica_id,
        };
        assert(out@ =~= entry_of(self.scratch@, body@));
        self.last = Some(to_vec(self.scratch.as_slice()));
        Some(Some(Ok(out)))
    }

    pub fn next(&mut self) -> (r: Option<Result<SegmentEntry, FormatError>>)
        requires
            old(self).wf(),
        ensures
            final(self).wf(),
            final(self).reader == old(self).reader,
            final(self).start == old(self).start,
            final(self).end == old(self).end,
            (item_view(r), final(self)@) == scan_step(
                old(self).reader@,
                old(self).start@,
                opt_slice(old(self).end),
                old(self)@,
            ),
    {
        let ghost s = self.reader@;
        let ghost start = self.start@;
        let ghost end = opt_slice(self.end);
        let ghost c0 = self@;
        loop
            invariant
                self.wf(),
                self.reader == old(self).reader,
                self.start == old(self).start,
                self.end == old(self).end,
                s == self.reader@,
                start == self.start@,
                end == opt_slice(self.end),
                c0 == old(self)@,
                scan_step(s, start, end, c0) == scan_step(s, start, end, self@),
            decreases s.data.len() - self.block, scan_left(s, self@),
        {
            if self.done {
                return None;
            }
            match self.loaded {
                None => {
                    match self.load_block() {
                        Ok(true) => {},
                        Ok(false) => {
                            return None;
                        },
                        Err(e) => {
                            return Some(Err(e));
                        },
                    }
                },
                Some(i) => {
                    proof {
                        lemma_scan_entry(s, start, end, self@, i as int);
                    }
                    if let Some(item) = self.decode_next(i) {
                        return item;
                    }
                },
            }
        }
    }
}

} // verus!
