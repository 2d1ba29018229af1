//! Which bits a segment's filter has, which entries can be published together,
//! and what a read of a block costs.

use crate::cache::{cache_get, cache_insert, place, CacheV};
use crate::format::FormatError;
use crate::hash::sha256_of;
use crate::layout_laws::{number, numbers_are_little_endian};
use crate::codec::lemma_le_un_le;
use crate::segment::cached::{cache_after, stats_after};
use crate::segment::entry::{entries_view, EntryV, SegmentEntry};
use crate::segment::open::SegV;
use crate::segment::read::{bit_on, bloom_has, hashes_of, payload_at, probe_bit};
use crate::segment::write::{
    bloom_bits, comes_first, in_order, publish_outcome, repeats, with_bit, with_probes, Published,
};
use crate::stats::ReadPathStats;
use vstd::prelude::*;

verus! {

// ---------------------------------------------------------------------------
// The filter
proof fn lemma_bit(byte: u8, k: u8, j: u8)
    by (bit_vector)
    requires
        k < 8,
        j < 8,
    ensures
        ((byte | (1u8 << k)) & (1u8 << j) != 0) <==> (byte & (1u8 << j) != 0 || j == k),
        0u8 & (1u8 << j) == 0,
{
}

proof fn lemma_with_bit(bits: Seq<u8>, k: int, j: int)
    requires
        0 <= k,
        k / 8 < bits.len(),
        0 <= j,
        j / 8 < bits.len(),
    ensures
        bit_on(with_bit(bits, k), j) <==> bit_on(bits, j) || j == k,
{
    lemma_bit(bits[k / 8], (k % 8) as u8, (j % 8) as u8);
    if k / 8 == j / 8 && k % 8 == j % 8 {
        assert(j == k);
    }
}

/// Some of the first `i` probes of a key asks for bit `j`.
pub open spec fn probed(key: Seq<u8>, i: nat, m: int, j: int) -> bool {
    exists|x: int|
        0 <= x < i && #[trigger] probe_bit(hashes_of(key).0, hashes_of(key).1, x, m) == j
}

proof fn lemma_probes(bits: Seq<u8>, key: Seq<u8>, i: nat, m: int, j: int)
    requires
        m > 0,
        bits.len() == (m + 7) / 8,
        0 <= j < m,
    ensures
        with_probes(bits, hashes_of(key), i, m).len() == bits.len(),
        bit_on(with_probes(bits, hashes_of(key), i, m), j) <==> bit_on(bits, j) || probed(
            key,
            i,
            m,
            j,
        ),
    decreases i,
{
    if i > 0 {
        let h = hashes_of(key);
        lemma_probes(bits, key, (i - 1) as nat, m, j);
        let k = probe_bit(h.0, h.1, i - 1, m);
        assert(0 <= k < m);
        let front = with_probes(bits, h, (i - 1) as nat, m);
        lemma_with_bit(front, k, j);
        if probed(key, i, m, j) {
            let x = choose|x: int| 0 <= x < i && #[trigger] probe_bit(h.0, h.1, x, m) == j;
            if x < i - 1 {
                assert(probed(key, (i - 1) as nat, m, j));
            }
        }
        if probed(key, (i - 1) as nat, m, j) {
            let x = choose|x: int| 0 <= x < i - 1 && #[trigger] probe_bit(h.0, h.1, x, m) == j;
            assert(0 <= x < i);
        }
    }
}

/// A bit of the filter is set exactly where one of the four probes of a key
/// that was written asks for it.
pub proof fn filters_hold_the_probes_of_their_keys(es: Seq<EntryV>, n: nat, m: int, j: int)
    requires
        n <= es.len(),
        m > 0,
        0 <= j < m,
    ensures
        bloom_bits(es, n, m).len() == (m + 7) / 8,
        bit_on(bloom_bits(es, n, m), j) <==> exists|i: int|
            0 <= i < n && probed((#[trigger] es[i]).key, 4, m, j),
    decreases n,
{
    if n == 0 {
        lemma_bit(0, 0, (j % 8) as u8);
    } else {
        filters_hold_the_probes_of_their_keys(es, (n - 1) as nat, m, j);
        let front = bloom_bits(es, (n - 1) as nat, m);
        lemma_probes(front, es[n - 1].key, 4, m, j);
        if exists|i: int| 0 <= i < n && probed((#[trigger] es[i]).key, 4, m, j) {
            let i = choose|i: int| 0 <= i < n && probed((#[trigger] es[i]).key, 4, m, j);
            if i < n - 1 {
                assert(probed(es[i].key, 4, m, j));
            }
        }
        if exists|i: int| 0 <= i < n - 1 && probed((#[trigger] es[i]).key, 4, m, j) {
            let i = choose|i: int| 0 <= i < n - 1 && probed((#[trigger] es[i]).key, 4, m, j);
            assert(probed(es[i].key, 4, m, j));
        }
    }
}

/// The probes of a key: the first two words of its digest are its hashes, and
/// probe `i` asks for the first plus `i` times the second, within the filter.
/// A key may be there exactly where all four bits are set.
pub proof fn probes_come_from_the_digest(key: Seq<u8>, bits: Seq<u8>, m: int, i: int)
    requires
        m > 0,
    ensures
        sha256_of(key).len() >= 16 ==> number(hashes_of(key).0 as nat, 8) == sha256_of(
            key,
        ).subrange(0, 8) && number(hashes_of(key).1 as nat, 8) == sha256_of(key).subrange(8, 16),
        probe_bit(hashes_of(key).0, hashes_of(key).1, i, m) == (hashes_of(key).0 + i * hashes_of(
            key,
        ).1) % m,
        bloom_has(bits, m, hashes_of(key).0, hashes_of(key).1) <==> forall|j: int|
            probed(key, 4, m, j) ==> #[trigger] bit_on(bits, j),
{
    let h = hashes_of(key);
    let d = sha256_of(key);
    if d.len() >= 16 {
        lemma_le_un_le(d.subrange(0, 8));
        lemma_le_un_le(d.subrange(8, 16));
    }
    crate::codec::lemma_pow256();
    numbers_are_little_endian(h.0 as nat, 8);
    numbers_are_little_endian(h.1 as nat, 8);
    if bloom_has(bits, m, h.0, h.1) {
        assert forall|j: int| probed(key, 4, m, j) implies #[trigger] bit_on(bits, j) by {
            let x = choose|x: int| 0 <= x < 4 && #[trigger] probe_bit(h.0, h.1, x, m) == j;
            assert(bit_on(bits, probe_bit(h.0, h.1, x, m)));
        }
    }
    if forall|j: int| probed(key, 4, m, j) ==> #[trigger] bit_on(bits, j) {
        assert forall|x: int| 0 <= x < 4 implies bit_on(
            bits,
            #[trigger] probe_bit(h.0, h.1, x, m),
        ) by {
            let j = probe_bit(h.0, h.1, x, m);
            assert(probed(key, 4, m, j));
        }
    }
}

// ---------------------------------------------------------------------------
// Publishing
/// Two entries have one key and one sequence.
pub open spec fn clash(entries: Seq<SegmentEntry>, i: int, j: int) -> bool {
    0 <= i < j < entries.len() && entries[i]@.key == entries[j]@.key && entries[i]@.seq
        == entries[j]@.seq
}

/// Entries are published exactly where there are any, blocks may hold
/// something, and no two of them have one key and one sequence; in whatever
/// order they were pushed.
pub proof fn clashing_entries_are_refused(
    r: Result<Published, FormatError>,
    entries: Seq<SegmentEntry>,
    order: Seq<SegmentEntry>,
    target: nat,
    v2: bool,
    v3: bool,
)
    requires
        publish_outcome(r, entries, order, target, v2, v3),
    ensures
        r is Ok <==> target > 0 && entries.len() > 0 && forall|i: int, j: int|
            !#[trigger] clash(entries, i, j),
        r matches Err(e) ==> e@ is Invalid,
{
    broadcast use vstd::seq_lib::group_to_multiset_ensures;

    if target > 0 && entries.len() > 0 {
        let os = entries_view(order);
        if r is Ok {
            assert(in_order(os));
            assert(order.no_duplicates()) by {
                assert forall|p: int, q: int|
                    0 <= p < order.len() && 0 <= q < order.len() && p
                        != q implies order[p] != order[q] by {
                    if p < q {
                        assert(comes_first(os[p], os[q]));
                    } else {
                        assert(comes_first(os[q], os[p]));
                    }
                    crate::codec::lemma_lex_irreflexive(order[p]@.key);
                }
            }
            order.lemma_multiset_has_no_duplicates();
            entries.lemma_multiset_has_no_duplicates_conv();
            assert forall|i: int, j: int| !#[trigger] clash(entries, i, j) by {
                if clash(entries, i, j) {
                    assert(entries[i] != entries[j]);
                    assert(entries.contains(entries[i]) && entries.contains(entries[j]));
                    assert(entries.to_multiset().count(entries[i]) > 0);
                    assert(entries.to_multiset().count(entries[j]) > 0);
                    assert(order.contains(entries[i]) && order.contains(entries[j]));
                    let p = choose|p: int| 0 <= p < order.len() && order[p] == entries[i];
                    let q = choose|q: int| 0 <= q < order.len() && order[q] == entries[j];
                    assert(p != q);
                    if p < q {
                        assert(comes_first(os[p], os[q]));
                    } else {
                        assert(comes_first(os[q], os[p]));
                    }
                    crate::codec::lemma_lex_irreflexive(entries[i]@.key);
                }
            }
        } else {
            assert(repeats(os));
            let p = choose|p: int|
                #![trigger os[p]]
                0 <= p && p + 1 < os.len() && os[p].key == os[p + 1].key && os[p].seq == os[p
                    + 1].seq;
            let x = order[p];
            let y = order[p + 1];
            assert(order.contains(x) && order.contains(y));
            assert(order.to_multiset().count(x) > 0 && order.to_multiset().count(y) > 0);
            assert(entries.contains(x) && entries.contains(y));
            if x == y {
                if forall|i: int, j: int| !#[trigger] clash(entries, i, j) {
                    assert(entries.no_duplicates()) by {
                        assert forall|a: int, b: int|
                            0 <= a < entries.len() && 0 <= b < entries.len() && a
                                != b implies entries[a] != entries[b] by {
                            if a < b {
                                assert(!clash(entries, a, b));
                            } else {
                                assert(!clash(entries, b, a));
                            }
                        }
                    }
                    entries.lemma_multiset_has_no_duplicates();
                    order.lemma_multiset_has_no_duplicates_conv();
                    assert(order[p] != order[p + 1]);
                }
            } else {
                let a = choose|a: int| 0 <= a < entries.len() && entries[a] == x;
                let b = choose|b: int| 0 <= b < entries.len() && entries[b] == y;
                if a < b {
                    assert(clash(entries, a, b));
                } else {
                    assert(clash(entries, b, a));
                }
            }
        }
    }
}

// ---------------------------------------------------------------------------
// Costs
/// One read of a block. Without a cache the block is loaded and nothing else is
/// counted. With one, a block that is held is a hit and is not loaded; one that
/// is not is a miss, is loaded where its fingerprint holds, and is then put in.
/// A load counts one block, and its header and payload in bytes.
pub proof fn each_read_of_a_block_is_counted_once(
    c: CacheV,
    st: ReadPathStats,
    id: u64,
    s: SegV,
    i: int,
)
    requires
        0 <= i < s.data.len(),
        0 <= s.data[i].header,
        0 <= s.data[i].payload_len,
        s.data[i].header + 28 + s.data[i].payload_len <= s.bytes.len(),
        st.block_cache_hits < u64::MAX,
        st.block_cache_misses < u64::MAX,
        st.blocks_read < u64::MAX,
        st.bytes_read + 28 + s.data[i].payload_len <= u64::MAX,
    ensures
        ({
            let d = stats_after(st, c, id, s, i);
            let found = place(c.blocks, id, i as u32) is Some;
            let loads = (c.cap == 0 || !found) && payload_at(s, i) is Ok;
            let asked = c.cap > 0;
            &&& d.blocks_read == st.blocks_read + (if loads {
                1int
            } else {
                0
            })
            &&& d.bytes_read == st.bytes_read + (if loads {
                28 + s.data[i].payload_len
            } else {
                0
            })
            &&& d.block_cache_hits == st.block_cache_hits + (if asked && found {
                1int
            } else {
                0
            })
            &&& d.block_cache_misses == st.block_cache_misses + (if asked && !found {
                1int
            } else {
                0
            })
            &&& d == (ReadPathStats {
                blocks_read: d.blocks_read,
                bytes_read: d.bytes_read,
                block_cache_hits: d.block_cache_hits,
                block_cache_misses: d.block_cache_misses,
                ..st
            })
            &&& !asked ==> cache_after(c, id, s, i) == c
            &&& asked && (found || payload_at(s, i) is Err) ==> cache_after(c, id, s, i)
                == cache_get(c, id, i as u32)
            &&& asked && !found && payload_at(s, i) is Ok ==> cache_after(c, id, s, i)
                == cache_insert(
                cache_get(c, id, i as u32),
                id,
                i as u32,
                s.bytes.subrange(
                    s.data[i].header,
                    s.data[i].header + 28 + s.data[i].payload_len,
                ),
            )
        }),
{
}

} // verus!
