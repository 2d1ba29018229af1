//! A bounded cache of raw blocks, least recently used first out.
//!
//! A block is known by its reader and its number. Readers get identities that
//! are counted up and not given twice, because segment identifiers can come
//! again: a key of segment identifiers could name a dead reader's block. The
//! capacity is counted in raw bytes; a block larger than it is never held.
//! What is read never depends on the cache: a hit gives the bytes that were
//! put in.

use std::sync::Arc;
use vstd::prelude::*;

verus! {

#[derive(Debug, Clone, Copy, PartialEq, Eq, Structural)]
pub struct CacheStats {
    pub hits: u64,
    pub misses: u64,
    pub evictions: u64,
    /// The bytes that are held.
    pub bytes: usize,
}

impl Default for CacheStats {
    fn default() -> (r: Self)
        ensures
            r == (CacheStats { hits: 0, misses: 0, evictions: 0, bytes: 0 }),
    {
        CacheStats { hits: 0, misses: 0, evictions: 0, bytes: 0 }
    }
}

/// One block: its reader, its number, its bytes.
pub struct CachedBlock {
    pub reader: u64,
    pub block: u32,
    pub raw: Arc<Vec<u8>>,
}

/// One block as a value.
#[verifier::ext_equal]
pub struct CachedV {
    pub reader: u64,
    pub block: u32,
    pub raw: Seq<u8>,
}

impl View for CachedBlock {
    type V = CachedV;

    open spec fn view(&self) -> CachedV {
        CachedV { reader: self.reader, block: self.block, raw: self.raw@ }
    }
}

pub open spec fn blocks_view(s: Seq<CachedBlock>) -> Seq<CachedV> {
    s.map_values(|b: CachedBlock| b@)
}

/// The cache as a value: its blocks, least recently used first.
#[verifier::ext_equal]
pub struct CacheV {
    pub cap: usize,
    pub blocks: Seq<CachedV>,
    pub hits: u64,
    pub misses: u64,
    pub evictions: u64,
    pub next_id: u64,
}

/// The bytes of blocks.
pub open spec fn held(s: Seq<CachedV>) -> nat
    decreases s.len(),
{
    if s.len() == 0 {
        0
    } else {
        s[0].raw.len() + held(s.skip(1))
    }
}

/// Where a block stands, if it is held.
pub open spec fn place(s: Seq<CachedV>, reader: u64, block: u32) -> Option<int>
    decreases s.len(),
{
    if s.len() == 0 {
        None
    } else if s[0].reader == reader && s[0].block == block {
        Some(0)
    } else {
        match place(s.skip(1), reader, block) {
            Some(i) => Some(i + 1),
            None => None,
        }
    }
}

/// What remains when the least recently used blocks leave until `need` more
/// bytes fit.
pub open spec fn evicted(s: Seq<CachedV>, need: nat, cap: nat) -> Seq<CachedV>
    decreases s.len(),
{
    if s.len() > 0 && held(s) + need > cap {
        evicted(s.skip(1), need, cap)
    } else {
        s
    }
}

/// The blocks without one.
pub open spec fn dropped(s: Seq<CachedV>, reader: u64, block: u32) -> Seq<CachedV> {
    match place(s, reader, block) {
        Some(i) => s.remove(i),
        None => s,
    }
}

/// A counter after `n` more; it wraps.
pub open spec fn counted(x: u64, n: nat) -> u64 {
    ((x + n) % 0x1_0000_0000_0000_0000) as u64
}

/// A lookup: a block that is held becomes the most recently used.
pub open spec fn cache_get(c: CacheV, reader: u64, block: u32) -> CacheV {
    match place(c.blocks, reader, block) {
        None => CacheV { misses: counted(c.misses, 1), ..c },
        Some(i) => CacheV {
            hits: counted(c.hits, 1),
            blocks: c.blocks.remove(i).push(c.blocks[i]),
            ..c
        },
    }
}

/// An insertion.
pub open spec fn cache_insert(c: CacheV, reader: u64, block: u32, raw: Seq<u8>) -> CacheV {
    if raw.len() > c.cap {
        c
    } else {
        let rest = dropped(c.blocks, reader, block);
        let kept = evicted(rest, raw.len(), c.cap as nat);
        CacheV {
            blocks: kept.push(CachedV { reader, block, raw }),
            evictions: counted(c.evictions, (rest.len() - kept.len()) as nat),
            ..c
        }
    }
}

/// No block is held twice.
pub open spec fn distinct(s: Seq<CachedV>) -> bool {
    forall|i: int, j: int|
        #![trigger s[i], s[j]]
        0 <= i < j < s.len() ==> !(s[i].reader == s[j].reader && s[i].block == s[j].block)
}

/// What every cache keeps: its cap, and each block once.
pub open spec fn cache_ok(c: CacheV) -> bool {
    held(c.blocks) <= c.cap && distinct(c.blocks)
}

pub struct BlockCache {
    pub cap: usize,
    pub blocks: Vec<CachedBlock>,
    pub bytes: usize,
    pub hits: u64,
    pub misses: u64,
    pub evictions: u64,
    pub next_id: u64,
}

impl View for BlockCache {
    type V = CacheV;

    open spec fn view(&self) -> CacheV {
        CacheV {
            cap: self.cap,
            blocks: blocks_view(self.blocks@),
            hits: self.hits,
            misses: self.misses,
            evictions: self.evictions,
            next_id: self.next_id,
        }
    }
}

pub proof fn lemma_place(s: Seq<CachedV>, reader: u64, block: u32)
    ensures
        match place(s, reader, block) {
            Some(i) => 0 <= i < s.len() && s[i].reader == reader && s[i].block == block
                && forall|j: int|
                0 <= j < i ==> !((#[trigger] s[j]).reader == reader && s[j].block == block),
            None => forall|j: int|
                0 <= j < s.len() ==> !((#[trigger] s[j]).reader == reader && s[j].block == block),
        },
    decreases s.len(),
{
    if s.len() > 0 && !(s[0].reader == reader && s[0].block == block) {
        let t = s.skip(1);
        lemma_place(t, reader, block);
        assert forall|j: int| 0 < j < s.len() implies s[j] == t[j - 1] by {}
        match place(t, reader, block) {
            Some(i) => {
                assert forall|j: int| 0 <= j < i + 1 implies !((#[trigger] s[j]).reader == reader
                    && s[j].block == block) by {
                    if j > 0 {
                        assert(s[j] == t[j - 1]);
                    }
                }
            },
            None => {
                assert forall|j: int| 0 <= j < s.len() implies !((#[trigger] s[j]).reader == reader
                    && s[j].block == block) by {
                    if j > 0 {
                        assert(s[j] == t[j - 1]);
                    }
                }
            },
        }
    }
}

proof fn lemma_place_is(s: Seq<CachedV>, reader: u64, block: u32, i: int)
    requires
        0 <= i < s.len(),
        s[i].reader == reader && s[i].block == block,
        forall|j: int| 0 <= j < i ==> !((#[trigger] s[j]).reader == reader && s[j].block == block),
    ensures
        place(s, reader, block) == Some(i),
{
    lemma_place(s, reader, block);
    match place(s, reader, block) {
        Some(k) => {
            if k < i {
                assert(s[k].reader == reader);
            } else if i < k {
                assert(s[i].reader == reader);
            }
        },
        None => {
            assert(s[i].reader == reader);
        },
    }
}

proof fn lemma_held_remove(s: Seq<CachedV>, i: int)
    requires
        0 <= i < s.len(),
    ensures
        held(s) == held(s.remove(i)) + s[i].raw.len(),
    decreases s.len(),
{
    if i == 0 {
        assert(s.remove(0) =~= s.skip(1));
    } else {
        lemma_held_remove(s.skip(1), i - 1);
        assert(s.remove(i)[0] == s[0]);
        assert(s.remove(i).skip(1) =~= s.skip(1).remove(i - 1));
        assert(s.skip(1)[i - 1] == s[i]);
    }
}

proof fn lemma_held_push(s: Seq<CachedV>, x: CachedV)
    ensures
        held(s.push(x)) == held(s) + x.raw.len(),
{
    let t = s.push(x);
    lemma_held_remove(t, s.len() as int);
    assert(t.remove(s.len() as int) =~= s);
}

pub proof fn lemma_evicted(s: Seq<CachedV>, need: nat, cap: nat)
    requires
        need <= cap,
    ensures
        held(evicted(s, need, cap)) + need <= cap,
        evicted(s, need, cap).len() <= s.len(),
        evicted(s, need, cap) == s.skip(s.len() - evicted(s, need, cap).len()),
    decreases s.len(),
{
    if s.len() > 0 && held(s) + need > cap {
        lemma_evicted(s.skip(1), need, cap);
        let k = evicted(s, need, cap).len();
        assert(s.skip(1).skip(s.len() - 1 - k) =~= s.skip(s.len() - k));
    } else {
        assert(s.skip(0) =~= s);
    }
}

impl BlockCache {
    pub open spec fn wf(&self) -> bool {
        cache_ok(self@) && self.bytes == held(self@.blocks)
    }

    pub fn new(cap: usize) -> (r: Self)
        ensures
            r.wf(),
            r@ == (CacheV {
                cap,
                blocks: seq![],
                hits: 0,
                misses: 0,
                evictions: 0,
                next_id: 0,
            }),
    {
        let r = BlockCache {
            cap,
            blocks: Vec::new(),
            bytes: 0,
            hits: 0,
            misses: 0,
            evictions: 0,
            next_id: 0,
        };
        assert(r@.blocks =~= seq![]);
        r
    }

    /// A new identity for a reader.
    pub fn reader_id(&mut self) -> (r: u64)
        requires
            old(self).wf(),
        ensures
            final(self).wf(),
            r == old(self)@.next_id,
            final(self)@ == (CacheV { next_id: counted(old(self)@.next_id, 1), ..old(self)@ }),
    {
        let id = self.next_id;
        self.next_id = id.wrapping_add(1);
        id
    }

    fn find(&self, reader: u64, block: u32) -> (r: Option<usize>)
        ensures
            match r {
                Some(i) => place(self@.blocks, reader, block) == Some(i as int) && i
                    < self.blocks@.len(),
                None => place(self@.blocks, reader, block) is None,
            },
    {
        let ghost s = self@.blocks;
        let mut i: usize = 0;
        while i < self.blocks.len()
            invariant
                i <= self.blocks@.len(),
                s == blocks_view(self.blocks@),
                s == self@.blocks,
                forall|j: int|
                    0 <= j < i ==> !((#[trigger] s[j]).reader == reader && s[j].block == block),
            decreases self.blocks@.len() - i,
        {
            assert(s[i as int] == self.blocks@[i as int]@);
            if self.blocks[i].reader == reader && self.blocks[i].block == block {
                proof {
                    lemma_place_is(s, reader, block, i as int);
                }
                return Some(i);
            }
            i += 1;
        }
        proof {
            lemma_place(s, reader, block);
        }
        None
    }

    /// Looks a block up.
    pub fn get(&mut self, reader: u64, block: u32) -> (r: Option<Arc<Vec<u8>>>)
        requires
            old(self).wf(),
        ensures
            final(self).wf(),
            final(self)@ == cache_get(old(self)@, reader, block),
            match r {
                Some(raw) => place(old(self)@.blocks, reader, block) matches Some(i) && raw@ == old(
                    self,
                )@.blocks[i].raw,
                None => place(old(self)@.blocks, reader, block) is None,
            },
    {
        let ghost s = self@.blocks;
        match self.find(reader, block) {
            None => {
                self.misses = self.misses.wrapping_add(1);
                None
            },
            Some(i) => {
                self.hits = self.hits.wrapping_add(1);
                let b = self.blocks.remove(i);
                let hit = b.raw.clone();
                let ghost bv = b@;
                self.blocks.push(b);
                proof {
                    assert(bv == s[i as int]);
                    assert(blocks_view(self.blocks@) =~= s.remove(i as int).push(bv));
                    lemma_held_remove(s, i as int);
                    lemma_held_push(s.remove(i as int), bv);
                    lemma_distinct_move(s, i as int);
                }
                Some(hit)
            },
        }
    }

    /// Puts a block in.
    pub fn insert(&mut self, reader: u64, block: u32, raw: Arc<Vec<u8>>)
        requires
            old(self).wf(),
        ensures
            final(self).wf(),
            final(self)@ == cache_insert(old(self)@, reader, block, raw@),
    {
        let need = raw.len();
        if need > self.cap {
            return;
        }
        let ghost s = self@.blocks;
        let ghost start = self@;
        let ghost rest = dropped(s, reader, block);
        match self.find(reader, block) {
            Some(i) => {
                let b = self.blocks.remove(i);
                proof {
                    assert(s[i as int] == b@);
                    lemma_held_remove(s, i as int);
                    assert(blocks_view(self.blocks@) =~= rest);
                }
                self.bytes = self.bytes - b.raw.len();
            },
            None => {},
        }
        proof {
            lemma_dropped(s, reader, block);
            assert(evicted(rest, need as nat, self.cap as nat) == evicted(
                blocks_view(self.blocks@),
                need as nat,
                self.cap as nat,
            ));
            assert(rest.skip(0) =~= rest);
        }
        let ghost mut gone: nat = 0;
        while self.blocks.len() > 0 && self.bytes > self.cap - need
            invariant
                self.cap == start.cap,
                self.hits == start.hits,
                self.misses == start.misses,
                self.next_id == start.next_id,
                self.evictions == counted(start.evictions, gone),
                need <= self.cap,
                self.bytes == held(blocks_view(self.blocks@)),
                self.bytes <= self.cap,
                gone + self.blocks@.len() == rest.len(),
                blocks_view(self.blocks@) == rest.skip(gone as int),
                evicted(rest, need as nat, self.cap as nat) == evicted(
                    blocks_view(self.blocks@),
                    need as nat,
                    self.cap as nat,
                ),
            decreases self.blocks@.len(),
        {
            let ghost v = blocks_view(self.blocks@);
            let b = self.blocks.remove(0);
            proof {
                assert(v[0] == b@);
                assert(blocks_view(self.blocks@) =~= v.skip(1));
                assert(v.skip(1) =~= rest.skip(gone as int + 1));
                gone = gone + 1;
            }
            self.bytes = self.bytes - b.raw.len();
            self.evictions = self.evictions.wrapping_add(1);
        }
        let ghost kept = blocks_view(self.blocks@);
        proof {
            if kept.len() == 0 {
                assert(held(kept) == 0);
            }
            assert(kept == evicted(rest, need as nat, self.cap as nat));
            lemma_distinct_push(rest, gone as int, reader, block, raw@);
        }
        self.bytes = self.bytes + need;
        let b = CachedBlock { reader, block, raw };
        let ghost bv = b@;
        self.blocks.push(b);
        proof {
            assert(blocks_view(self.blocks@) =~= kept.push(bv));
            lemma_held_push(kept, bv);
        }
    }

    pub fn stats(&self) -> (r: CacheStats)
        requires
            self.wf(),
        ensures
            r.hits == self@.hits,
            r.misses == self@.misses,
            r.evictions == self@.evictions,
            r.bytes == held(self@.blocks),
            r.bytes <= self@.cap,
    {
        CacheStats {
            hits: self.hits,
            misses: self.misses,
            evictions: self.evictions,
            bytes: self.bytes,
        }
    }
}

proof fn lemma_distinct_move(s: Seq<CachedV>, i: int)
    requires
        distinct(s),
        0 <= i < s.len(),
    ensures
        distinct(s.remove(i).push(s[i])),
{
    let t = s.remove(i).push(s[i]);
    assert forall|a: int, b: int|
        #![trigger t[a], t[b]]
        0 <= a < b < t.len() implies !(t[a].reader == t[b].reader && t[a].block == t[b].block) by {
        let x = if a < i { a } else { a + 1 };
        let y = if b == t.len() - 1 { i } else if b < i { b } else { b + 1 };
        assert(t[a] == s[x]);
        assert(t[b] == s[y]);
        if x < y {
            assert(!(s[x].reader == s[y].reader && s[x].block == s[y].block));
        } else {
            assert(!(s[y].reader == s[x].reader && s[y].block == s[x].block));
        }
    }
}

/// Dropping a block leaves the others, and none with its key.
proof fn lemma_dropped(s: Seq<CachedV>, reader: u64, block: u32)
    requires
        distinct(s),
    ensures
        distinct(dropped(s, reader, block)),
        place(dropped(s, reader, block), reader, block) is None,
        held(dropped(s, reader, block)) <= held(s),
{
    lemma_place(s, reader, block);
    match place(s, reader, block) {
        Some(i) => {
            let t = s.remove(i);
            lemma_held_remove(s, i);
            assert forall|a: int, b: int|
                #![trigger t[a], t[b]]
                0 <= a < b < t.len() implies !(t[a].reader == t[b].reader && t[a].block
                == t[b].block) by {
                let x = if a < i { a } else { a + 1 };
                let y = if b < i { b } else { b + 1 };
                assert(t[a] == s[x] && t[b] == s[y]);
            }
            lemma_place(t, reader, block);
            match place(t, reader, block) {
                Some(k) => {
                    let x = if k < i { k } else { k + 1 };
                    assert(t[k] == s[x]);
                    if x < i {
                        assert(!(s[x].reader == s[i].reader && s[x].block == s[i].block));
                    } else {
                        assert(!(s[i].reader == s[x].reader && s[i].block == s[x].block));
                    }
                },
                None => {},
            }
        },
        None => {},
    }
}

proof fn lemma_distinct_push(s: Seq<CachedV>, k: int, reader: u64, block: u32, raw: Seq<u8>)
    requires
        distinct(s),
        place(s, reader, block) is None,
        0 <= k <= s.len(),
    ensures
        distinct(s.skip(k).push(CachedV { reader, block, raw })),
{
    lemma_place(s, reader, block);
    let t = s.skip(k).push(CachedV { reader, block, raw });
    assert forall|a: int, b: int|
        #![trigger t[a], t[b]]
        0 <= a < b < t.len() implies !(t[a].reader == t[b].reader && t[a].block == t[b].block) by {
        assert(t[a] == s[a + k]);
        if b < t.len() - 1 {
            assert(t[b] == s[b + k]);
        }
    }
}

// ---------------------------------------------------------------------------
// Laws
/// A block that was put in is found with its bytes, unless it is larger than
/// the cache.
pub proof fn insert_is_found(c: CacheV, reader: u64, block: u32, raw: Seq<u8>)
    requires
        cache_ok(c),
        raw.len() <= c.cap,
    ensures
        ({
            let after = cache_insert(c, reader, block, raw);
            place(after.blocks, reader, block) matches Some(i) && after.blocks[i].raw == raw
        }),
{
    let rest = dropped(c.blocks, reader, block);
    let kept = evicted(rest, raw.len(), c.cap as nat);
    lemma_dropped(c.blocks, reader, block);
    lemma_evicted(rest, raw.len(), c.cap as nat);
    lemma_place(rest, reader, block);
    let t = kept.push(CachedV { reader, block, raw });
    let n = kept.len() as int;
    assert forall|j: int| 0 <= j < n implies !((#[trigger] t[j]).reader == reader && t[j].block
        == block) by {
        assert(t[j] == rest[rest.len() - n + j]);
    }
    lemma_place_is(t, reader, block, n);
}

/// A cache never shows bytes that were not put in under their key: what a
/// lookup finds after an insertion of another block, it found before.
pub proof fn cache_invents_nothing(
    c: CacheV,
    reader: u64,
    block: u32,
    raw: Seq<u8>,
    r2: u64,
    b2: u32,
)
    requires
        cache_ok(c),
        !(r2 == reader && b2 == block),
    ensures
        ({
            let after = cache_insert(c, reader, block, raw);
            place(after.blocks, r2, b2) matches Some(i) ==> c.blocks.contains(after.blocks[i])
        }),
{
    if raw.len() <= c.cap {
        let rest = dropped(c.blocks, reader, block);
        let kept = evicted(rest, raw.len(), c.cap as nat);
        lemma_evicted(rest, raw.len(), c.cap as nat);
        lemma_place(c.blocks, reader, block);
        let after = kept.push(CachedV { reader, block, raw });
        lemma_place(after, r2, b2);
        match place(after, r2, b2) {
            Some(i) => {
                assert(i < kept.len());
                let k = rest.len() - kept.len() + i;
                assert(after[i] == rest[k]);
                match place(c.blocks, reader, block) {
                    Some(p) => {
                        assert(rest[k] == c.blocks[if k < p { k } else { k + 1 }]);
                    },
                    None => {},
                }
            },
            None => {},
        }
    } else {
        lemma_place(c.blocks, r2, b2);
        match place(c.blocks, r2, b2) {
            Some(i) => {
                assert(c.blocks.contains(c.blocks[i]));
            },
            None => {},
        }
    }
}

} // verus!
