//! What the cache keeps, and what leaves it.

use crate::cache::{
    cache_get, cache_insert, cache_ok, distinct, evicted, held, lemma_place, place, CacheV, CachedV,
};
use vstd::prelude::*;

verus! {

/// Block `block` of a reader is held, at position `i`; the position says how
/// long ago it was used, the longest ago first.
pub open spec fn holds_at(c: CacheV, reader: u64, block: u32, i: int) -> bool {
    0 <= i < c.blocks.len() && c.blocks[i].reader == reader && c.blocks[i].block == block
}

/// The cache holds no such block.
pub open spec fn lacks(c: CacheV, reader: u64, block: u32) -> bool {
    forall|i: int| !#[trigger] holds_at(c, reader, block, i)
}

proof fn lemma_place_is(c: CacheV, reader: u64, block: u32)
    requires
        distinct(c.blocks),
    ensures
        match place(c.blocks, reader, block) {
            Some(i) => holds_at(c, reader, block, i) && forall|j: int| #[trigger]
                holds_at(c, reader, block, j) ==> j == i,
            None => lacks(c, reader, block),
        },
{
    lemma_place(c.blocks, reader, block);
    match place(c.blocks, reader, block) {
        Some(i) => {
            assert forall|j: int| #[trigger] holds_at(c, reader, block, j) implies j == i by {
                if j < i {
                    assert(!(c.blocks[j].reader == c.blocks[i].reader && c.blocks[j].block
                        == c.blocks[i].block));
                } else if i < j {
                    assert(!(c.blocks[i].reader == c.blocks[j].reader && c.blocks[i].block
                        == c.blocks[j].block));
                }
            }
        },
        None => {
            assert forall|j: int| !#[trigger] holds_at(c, reader, block, j) by {
                if holds_at(c, reader, block, j) {
                    lemma_found(c.blocks, reader, block, j);
                }
            }
        },
    }
}

proof fn lemma_found(s: Seq<CachedV>, reader: u64, block: u32, j: int)
    requires
        0 <= j < s.len(),
        s[j].reader == reader,
        s[j].block == block,
    ensures
        place(s, reader, block) is Some,
    decreases s.len(),
{
    if !(s[0].reader == reader && s[0].block == block) {
        assert(s.skip(1)[j - 1] == s[j]);
        lemma_found(s.skip(1), reader, block, j - 1);
    }
}

/// A lookup that finds its block counts one hit, and makes the block the one
/// that was used last; all others stay, in their order. One that does not
/// counts one miss and changes nothing else.
pub proof fn lookups_move_a_block_to_the_end(c: CacheV, reader: u64, block: u32, i: int)
    requires
        distinct(c.blocks),
    ensures
        ({
            let d = cache_get(c, reader, block);
            &&& holds_at(c, reader, block, i) ==> {
                &&& d.blocks == c.blocks.take(i) + c.blocks.skip(i + 1) + seq![c.blocks[i]]
                &&& d.hits == (c.hits + 1) % 0x1_0000_0000_0000_0000
                &&& d.misses == c.misses
            }
            &&& lacks(c, reader, block) ==> {
                &&& d.blocks == c.blocks
                &&& d.hits == c.hits
                &&& d.misses == (c.misses + 1) % 0x1_0000_0000_0000_0000
            }
            &&& d.cap == c.cap
            &&& d.evictions == c.evictions
            &&& d.next_id == c.next_id
        }),
{
    lemma_place_is(c, reader, block);
    let d = cache_get(c, reader, block);
    if holds_at(c, reader, block, i) {
        assert(place(c.blocks, reader, block) == Some(i));
        assert(d.blocks =~= c.blocks.take(i) + c.blocks.skip(i + 1) + seq![c.blocks[i]]);
    }
    if lacks(c, reader, block) {
        if let Some(j) = place(c.blocks, reader, block) {
            assert(holds_at(c, reader, block, j));
        }
    }
}

proof fn lemma_oldest_leave(s: Seq<CachedV>, need: nat, cap: nat)
    ensures
        ({
            let k = evicted(s, need, cap);
            let n = s.len() - k.len();
            &&& 0 <= n <= s.len()
            &&& k == s.skip(n)
            &&& k.len() > 0 ==> held(k) + need <= cap
            &&& n > 0 ==> held(s.skip(n - 1)) + need > cap
        }),
    decreases s.len(),
{
    if s.len() > 0 && held(s) + need > cap {
        let rest = s.skip(1);
        lemma_oldest_leave(rest, need, cap);
        let k = evicted(rest, need, cap);
        let n = rest.len() - k.len();
        assert(rest.skip(n) =~= s.skip(n + 1));
        if n > 0 {
            assert(rest.skip(n - 1) =~= s.skip(n));
        } else {
            assert(s.skip(0) =~= s);
        }
    } else {
        assert(s.skip(0) =~= s);
    }
}

/// An insertion of a block that fits: it is held from then on, as the one that
/// was used last. Before it the blocks that were used the longest ago leave, no
/// more of them than is needed for the cap, and each is counted; the others
/// stay, in their order. A block that is larger than the cap is not taken.
pub proof fn insertions_drop_the_oldest(c: CacheV, reader: u64, block: u32, raw: Seq<u8>) -> (n: int)
    requires
        cache_ok(c),
        lacks(c, reader, block),
    ensures
        ({
            let d = cache_insert(c, reader, block, raw);
            &&& raw.len() > c.cap ==> d == c
            &&& raw.len() <= c.cap ==> {
                &&& 0 <= n <= c.blocks.len()
                &&& d.blocks == c.blocks.skip(n).push(CachedV { reader, block, raw })
                &&& held(c.blocks.skip(n)) + raw.len() <= c.cap
                &&& n > 0 ==> held(c.blocks.skip(n - 1)) + raw.len() > c.cap
                &&& d.evictions == (c.evictions + n) % 0x1_0000_0000_0000_0000
                &&& d.hits == c.hits
                &&& d.misses == c.misses
                &&& d.cap == c.cap
                &&& d.next_id == c.next_id
            }
        }),
{
    lemma_place_is(c, reader, block);
    if let Some(j) = place(c.blocks, reader, block) {
        assert(holds_at(c, reader, block, j));
    }
    lemma_oldest_leave(c.blocks, raw.len(), c.cap as nat);
    let k = evicted(c.blocks, raw.len(), c.cap as nat);
    assert(c.blocks.skip(c.blocks.len() as int) =~= seq![]);
    c.blocks.len() - k.len()
}

/// The bytes that are held are those of the blocks, all of them.
pub proof fn held_bytes_add_up(s: Seq<CachedV>, x: CachedV)
    ensures
        held(seq![]) == 0,
        held(s.push(x)) == held(s) + x.raw.len(),
    decreases s.len(),
{
    let all = s.push(x);
    if s.len() == 0 {
        assert(all.skip(1) =~= seq![]);
        assert(held(all.skip(1)) == 0);
    } else {
        held_bytes_add_up(s.skip(1), x);
        assert(all.skip(1) =~= s.skip(1).push(x));
        assert(all[0] == s[0]);
    }
}

} // verus!
