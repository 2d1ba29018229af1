//! Encoding one data block.

use crate::codec::{bytes_eq, le, lex_lt, lt, push_bytes, push_u16, push_u32, push_u64};
use crate::segment::entry::{entries_view, EntryV, SegmentEntry};
use vstd::prelude::*;

verus! {

/// A restart is due at every sixteenth entry.
pub const RESTART_INTERVAL: u16 = 16;

// ---------------------------------------------------------------------------
// Which entries carry a full key
/// How many leading bytes two keys share.
pub open spec fn common(a: Seq<u8>, b: Seq<u8>) -> nat
    decreases a.len(),
{
    if a.len() == 0 || b.len() == 0 || a[0] != b[0] {
        0
    } else {
        1 + common(a.skip(1), b.skip(1))
    }
}

/// A restart is due at entry `j`, behind the restarts `before`: in a block
/// with a restart table, at every sixteenth entry whose key is past that of
/// the restart before.
pub open spec fn due(es: Seq<EntryV>, before: Seq<int>, j: int, v2: bool) -> bool {
    v2 && j % 16 == 0 && (before.len() == 0 || lex_lt(es[before.last()].key, es[j].key))
}

/// Where restarts are due among the first `n` entries.
pub open spec fn dues(es: Seq<EntryV>, n: nat, v2: bool) -> Seq<int>
    decreases n,
{
    if n == 0 {
        seq![]
    } else {
        let front = dues(es, (n - 1) as nat, v2);
        if due(es, front, n - 1, v2) {
            front.push(n - 1)
        } else {
            front
        }
    }
}

/// The first entry of the run of equal keys that entry `j` belongs to. A
/// restart is placed there, so that a lookup sees the whole run.
pub open spec fn run_head(es: Seq<EntryV>, j: int) -> int
    decreases j,
{
    if j > 0 && es[j - 1].key == es[j].key {
        run_head(es, j - 1)
    } else {
        j
    }
}

/// The restart positions of the first `n` entries.
pub open spec fn restarts(es: Seq<EntryV>, n: nat, v2: bool) -> Seq<int> {
    dues(es, n, v2).map_values(|t: int| run_head(es, t))
}

/// Entry `j` of a block of `n` carries its full key: it is the first, a
/// restart, or an entry at which a restart was due.
pub open spec fn is_full(es: Seq<EntryV>, n: nat, j: int, v2: bool) -> bool {
    j == 0 || dues(es, n, v2).contains(j) || restarts(es, n, v2).contains(j)
}

/// How much of its key entry `j` of a block of `n` takes from the entry
/// before.
pub open spec fn shared_at(es: Seq<EntryV>, n: nat, j: int, v2: bool) -> nat {
    if is_full(es, n, j, v2) {
        0
    } else {
        common(es[j - 1].key, es[j].key)
    }
}

// ---------------------------------------------------------------------------
// Bytes
/// An entry that shares `shared` bytes of key with the one before.
#[verifier::opaque]
pub open spec fn entry_bytes(e: EntryV, shared: nat, v3: bool) -> Seq<u8> {
    le((shared as u16) as nat, 2) + le(((e.key.len() - shared) as u16) as nat, 2) + e.key.skip(
        shared as int,
    ) + le((e.value.len() as u32) as nat, 4) + e.value + le(e.seq as nat, 8) + seq![e.flags] + (
    if v3 {
        le(e.replica_id.0 as nat, 8)
    } else {
        seq![]
    })
}

/// The first `k` entries of a block of `n`.
pub open spec fn body_bytes(es: Seq<EntryV>, n: nat, k: nat, v2: bool, v3: bool) -> Seq<u8>
    decreases k,
{
    if k == 0 {
        seq![]
    } else {
        body_bytes(es, n, (k - 1) as nat, v2, v3) + entry_bytes(
            es[k - 1],
            shared_at(es, n, k - 1, v2),
            v3,
        )
    }
}

/// The first `k` restart offsets of a block of `n`: positions in the payload.
pub open spec fn table_bytes(es: Seq<EntryV>, n: nat, k: nat, v3: bool) -> Seq<u8>
    decreases k,
{
    if k == 0 {
        seq![]
    } else {
        table_bytes(es, n, (k - 1) as nat, v3) + le(
            (restart_pos(es, n, k - 1, v3) as u32) as nat,
            4,
        )
    }
}

/// Where restart `i` stands in the payload.
pub open spec fn restart_pos(es: Seq<EntryV>, n: nat, i: int, v3: bool) -> nat {
    6 + 4 * restarts(es, n, true).len() + body_bytes(
        es,
        n,
        restarts(es, n, true)[i] as nat,
        true,
        v3,
    ).len()
}

/// The payload of a data block of the first `n` entries.
pub open spec fn block_payload(es: Seq<EntryV>, n: nat, v2: bool, v3: bool) -> Seq<u8> {
    if v2 {
        le(RESTART_INTERVAL as nat, 2) + le(
            (restarts(es, n, true).len() as u32) as nat,
            4,
        ) + table_bytes(es, n, restarts(es, n, true).len(), v3) + body_bytes(es, n, n, true, v3)
    } else {
        body_bytes(es, n, n, false, v3)
    }
}

// ---------------------------------------------------------------------------
// Lemmas
pub proof fn lemma_common(a: Seq<u8>, b: Seq<u8>)
    ensures
        common(a, b) <= a.len(),
        common(a, b) <= b.len(),
        a.take(common(a, b) as int) == b.take(common(a, b) as int),
    decreases a.len(),
{
    if a.len() > 0 && b.len() > 0 && a[0] == b[0] {
        lemma_common(a.skip(1), b.skip(1));
        let k = common(a, b) as int;
        assert forall|i: int| 0 <= i < k implies a.take(k)[i] == b.take(k)[i] by {
            if i > 0 {
                assert(a.skip(1).take(k - 1)[i - 1] == b.skip(1).take(k - 1)[i - 1]);
            }
        }
        assert(a.take(k) =~= b.take(k));
    } else {
        assert(a.take(0) =~= b.take(0));
    }
}

pub proof fn lemma_run_head(es: Seq<EntryV>, j: int)
    requires
        0 <= j,
    ensures
        0 <= run_head(es, j) <= j,
        es[run_head(es, j)].key == es[j].key,
        run_head(es, run_head(es, j)) == run_head(es, j),
        run_head(es, j) > 0 ==> es[run_head(es, j) - 1].key != es[j].key,
        forall|i: int| run_head(es, j) <= i <= j ==> (#[trigger] es[i]).key == es[j].key,
    decreases j,
{
    if j > 0 && es[j - 1].key == es[j].key {
        lemma_run_head(es, j - 1);
    }
}

/// Restarts are due at ascending places within the block.
pub proof fn lemma_dues(es: Seq<EntryV>, n: nat, v2: bool)
    ensures
        forall|i: int|
            #![trigger dues(es, n, v2)[i]]
            0 <= i < dues(es, n, v2).len() ==> 0 <= dues(es, n, v2)[i] < n,
        dues(es, n, v2).len() <= n,
        n > 0 && v2 ==> dues(es, n, v2).len() > 0 && dues(es, n, v2)[0] == 0,
        !v2 ==> dues(es, n, v2).len() == 0,
    decreases n,
{
    if n > 0 {
        lemma_dues(es, (n - 1) as nat, v2);
    }
}

/// Only the first `n` entries matter.
pub proof fn lemma_block_prefix(es: Seq<EntryV>, m: int, n: nat, v2: bool)
    requires
        n <= m <= es.len(),
    ensures
        dues(es.take(m), n, v2) == dues(es, n, v2),
        restarts(es.take(m), n, v2) == restarts(es, n, v2),
    decreases n,
{
    if n > 0 {
        lemma_block_prefix(es, m, (n - 1) as nat, v2);
        lemma_dues(es, (n - 1) as nat, v2);
        lemma_dues(es, n, v2);
    }
    lemma_dues(es, n, v2);
    assert forall|i: int| 0 <= i < dues(es, n, v2).len() implies restarts(es.take(m), n, v2)[i]
        == restarts(es, n, v2)[i] by {
        lemma_run_prefix(es, m, dues(es, n, v2)[i]);
    }
    assert(restarts(es.take(m), n, v2) =~= restarts(es, n, v2));
}

proof fn lemma_run_prefix(es: Seq<EntryV>, m: int, j: int)
    requires
        0 <= j < m <= es.len(),
    ensures
        run_head(es.take(m), j) == run_head(es, j),
    decreases j,
{
    if j > 0 {
        lemma_run_prefix(es, m, j - 1);
    }
}

proof fn lemma_body_prefix(es: Seq<EntryV>, m: int, n: nat, k: nat, v2: bool, v3: bool)
    requires
        k <= n <= m <= es.len(),
    ensures
        body_bytes(es.take(m), n, k, v2, v3) == body_bytes(es, n, k, v2, v3),
    decreases k,
{
    if k > 0 {
        lemma_body_prefix(es, m, n, (k - 1) as nat, v2, v3);
        lemma_block_prefix(es, m, n, v2);
    }
}

/// The restarts lie within the block.
pub proof fn lemma_restarts(es: Seq<EntryV>, n: nat, v2: bool)
    ensures
        restarts(es, n, v2).len() == dues(es, n, v2).len(),
        forall|i: int|
            #![trigger restarts(es, n, v2)[i]]
            0 <= i < restarts(es, n, v2).len() ==> 0 <= restarts(es, n, v2)[i] < n
                && restarts(es, n, v2)[i] == run_head(es, dues(es, n, v2)[i]),
{
    lemma_dues(es, n, v2);
    assert forall|i: int|
        #![trigger restarts(es, n, v2)[i]]
        0 <= i < restarts(es, n, v2).len() implies 0 <= restarts(es, n, v2)[i] < n && restarts(
        es,
        n,
        v2,
    )[i] == run_head(es, dues(es, n, v2)[i]) by {
        lemma_run_head(es, dues(es, n, v2)[i]);
    }
}

/// One more entry makes itself and the head of its run full where a restart
/// is due at it, and changes nothing else.
pub proof fn lemma_full_step(es: Seq<EntryV>, n: nat, j: int, v2: bool)
    ensures
        is_full(es, n + 1, j, v2) == (is_full(es, n, j, v2) || (due(
            es,
            dues(es, n, v2),
            n as int,
            v2,
        ) && (j == n || j == run_head(es, n as int)))),
{
    let a = dues(es, n, v2);
    let b = dues(es, n + 1, v2);
    let x = restarts(es, n, v2);
    let y = restarts(es, n + 1, v2);
    if due(es, a, n as int, v2) {
        assert(b =~= a.push(n as int));
        assert(y =~= x.push(run_head(es, n as int)));
        assert(b[a.len() as int] == n);
        assert(y[x.len() as int] == run_head(es, n as int));
        assert(b.contains(j) == (a.contains(j) || j == n)) by {
            if a.contains(j) {
                let k = choose|k: int| 0 <= k < a.len() && a[k] == j;
                assert(b[k] == j);
            }
            if b.contains(j) {
                let k = choose|k: int| 0 <= k < b.len() && b[k] == j;
                if k < a.len() {
                    assert(a[k] == j);
                }
            }
        }
        assert(y.contains(j) == (x.contains(j) || j == run_head(es, n as int))) by {
            if x.contains(j) {
                let k = choose|k: int| 0 <= k < x.len() && x[k] == j;
                assert(y[k] == j);
            }
            if y.contains(j) {
                let k = choose|k: int| 0 <= k < y.len() && y[k] == j;
                if k < x.len() {
                    assert(x[k] == j);
                }
            }
        }
    }
}

pub proof fn lemma_entry_len(e: EntryV, shared: nat, v3: bool)
    requires
        shared <= e.key.len(),
    ensures
        entry_bytes(e, shared, v3).len() == entry_size(e, shared, v3),
{
    reveal(entry_bytes);
    crate::codec::lemma_le_len((shared as u16) as nat, 2);
    crate::codec::lemma_le_len(((e.key.len() - shared) as u16) as nat, 2);
    crate::codec::lemma_le_len((e.value.len() as u32) as nat, 4);
    crate::codec::lemma_le_len(e.seq as nat, 8);
    crate::codec::lemma_le_len(e.replica_id.0 as nat, 8);
}

/// The length of an encoded entry.
pub open spec fn entry_size(e: EntryV, shared: nat, v3: bool) -> int {
    17 + (e.key.len() - shared) + e.value.len() + (if v3 {
        8int
    } else {
        0int
    })
}

pub proof fn lemma_shared_le(es: Seq<EntryV>, n: nat, j: int, v2: bool)
    requires
        0 <= j,
    ensures
        shared_at(es, n, j, v2) <= es[j].key.len(),
        shared_at(es, n, j, v2) > 0 ==> shared_at(es, n, j, v2) <= es[j - 1].key.len(),
{
    lemma_common(es[j - 1].key, es[j].key);
}

/// What a restart due at entry `n` adds to the head of its run.
pub open spec fn regrown(es: Seq<EntryV>, n: nat, v2: bool) -> nat {
    let h = run_head(es, n as int);
    if due(es, dues(es, n, v2), n as int, v2) && h < n {
        shared_at(es, n, h, v2)
    } else {
        0
    }
}

proof fn lemma_body_step(es: Seq<EntryV>, n: nat, k: nat, v2: bool, v3: bool)
    requires
        k <= n,
    ensures
        body_bytes(es, n + 1, k, v2, v3).len() == body_bytes(es, n, k, v2, v3).len() + (if run_head(
            es,
            n as int,
        ) < k {
            regrown(es, n, v2)
        } else {
            0
        }),
    decreases k,
{
    if k > 0 {
        lemma_body_step(es, n, (k - 1) as nat, v2, v3);
        let j = k - 1;
        lemma_full_step(es, n, j, v2);
        lemma_shared_le(es, n, j, v2);
        lemma_shared_le(es, n + 1, j, v2);
        lemma_entry_len(es[j], shared_at(es, n, j, v2), v3);
        lemma_entry_len(es[j], shared_at(es, n + 1, j, v2), v3);
    }
    lemma_run_head(es, n as int);
}

/// How a block grows by one entry.
pub proof fn lemma_block_grows(es: Seq<EntryV>, n: nat, v2: bool, v3: bool)
    ensures
        body_bytes(es, n + 1, n + 1, v2, v3).len() == body_bytes(es, n, n, v2, v3).len()
            + entry_size(es[n as int], shared_at(es, n + 1, n as int, v2), v3) + regrown(es, n, v2),
{
    lemma_body_step(es, n, n, v2, v3);
    lemma_run_head(es, n as int);
    lemma_shared_le(es, n + 1, n as int, v2);
    lemma_entry_len(es[n as int], shared_at(es, n + 1, n as int, v2), v3);
}

// ---------------------------------------------------------------------------
// Splitting
/// What the split expects entry `i` to add to the block.
pub open spec fn expected(es: Seq<EntryV>, i: int, v3: bool) -> int {
    entry_size(es[i], common(es[i - 1].key, es[i].key), v3)
}

/// The length of the first block of `es`, at least `i`: it ends before the
/// first entry that is expected to take it past the target.
pub open spec fn block_len(es: Seq<EntryV>, i: nat, target: nat, v2: bool, v3: bool) -> nat
    decreases es.len() - i,
{
    if i >= es.len() {
        es.len()
    } else if body_bytes(es, i, i, v2, v3).len() + expected(es, i as int, v3) > target {
        i
    } else {
        block_len(es, i + 1, target, v2, v3)
    }
}

/// The entries in blocks.
pub open spec fn split(es: Seq<EntryV>, target: nat, v2: bool, v3: bool) -> Seq<Seq<EntryV>>
    decreases es.len(),
{
    if es.len() == 0 {
        seq![]
    } else {
        let n = block_len(es, 1, target, v2, v3);
        if 0 < n <= es.len() {
            seq![es.take(n as int)] + split(es.skip(n as int), target, v2, v3)
        } else {
            seq![es]
        }
    }
}

pub proof fn lemma_block_len(es: Seq<EntryV>, i: nat, target: nat, v2: bool, v3: bool)
    requires
        i <= es.len(),
    ensures
        i <= block_len(es, i, target, v2, v3) <= es.len(),
    decreases es.len() - i,
{
    if i < es.len() {
        lemma_block_len(es, i + 1, target, v2, v3);
    }
}

/// `a + b`, or the greatest number where that is past it.
fn add_capped(a: u128, b: u128) -> (r: u128)
    ensures
        r == (if a + b > u128::MAX {
            u128::MAX as int
        } else {
            a + b
        }),
{
    if a > u128::MAX - b {
        u128::MAX
    } else {
        a + b
    }
}

/// `x`, or the greatest number where it is past it.
spec fn capped(x: int) -> int {
    if x > u128::MAX {
        u128::MAX as int
    } else {
        x
    }
}

/// How many leading bytes two keys share.
pub fn common_prefix(a: &[u8], b: &[u8]) -> (r: usize)
    ensures
        r == common(a@, b@),
        r <= a@.len(),
        r <= b@.len(),
{
    let mut i: usize = 0;
    assert(a@.skip(0) =~= a@);
    assert(b@.skip(0) =~= b@);
    while i < a.len() && i < b.len() && a[i] == b[i]
        invariant
            i <= a@.len(),
            i <= b@.len(),
            common(a@, b@) == i + common(a@.skip(i as int), b@.skip(i as int)),
        decreases a@.len() - i,
    {
        assert(a@.skip(i as int).skip(1) =~= a@.skip(i + 1));
        assert(b@.skip(i as int).skip(1) =~= b@.skip(i + 1));
        i += 1;
    }
    i
}

fn size_of_entry(e: &SegmentEntry, shared: usize, v3: bool) -> (r: u128)
    requires
        shared <= e.key@.len(),
    ensures
        r == entry_size(e@, shared as nat, v3),
{
    let base: u128 = 17u128 + (e.key.len() - shared) as u128 + e.value.len() as u128;
    if v3 {
        base + 8
    } else {
        base
    }
}

/// Where the block that starts at `s` ends.
pub fn end_of_block(
    entries: &Vec<SegmentEntry>,
    s: usize,
    target: usize,
    v2: bool,
    v3: bool,
) -> (r: usize)
    requires
        s < entries@.len(),
    ensures
        s < r <= entries@.len(),
        r == s + block_len(
            entries_view(entries@).skip(s as int),
            1,
            target as nat,
            v2,
            v3,
        ),
{
    let ghost es = entries_view(entries@).skip(s as int);
    let total: usize = entries.len();
    assert(es.len() == total - s);
    // The first entry opens the block with its full key.
    let mut len: u128 = size_of_entry(&entries[s], 0, v3);
    let mut head_shared: usize = 0;
    let mut last_due: Option<usize> = if v2 {
        Some(s)
    } else {
        None
    };
    proof {
        lemma_block_grows(es, 0, v2, v3);
        assert(es[0] == entries@[s as int]@);
        assert(run_head(es, 0) == 0);
        assert(dues(es, 0, v2) =~= seq![]);
        assert(is_full(es, 1, 0, v2));
        if v2 {
            assert(due(es, seq![], 0, v2));
            assert(dues(es, 1, v2) =~= seq![0int]);
        } else {
            lemma_dues(es, 1, v2);
            assert(dues(es, 1, v2) =~= seq![]);
        }
    }
    let mut i: usize = s + 1;
    while i < total
        invariant
            total == entries@.len(),
            s < i <= total,
            es == entries_view(entries@).skip(s as int),
            es.len() == total - s,
            len == capped(body_bytes(es, (i - s) as nat, (i - s) as nat, v2, v3).len() as int),
            head_shared == shared_at(es, (i - s) as nat, run_head(es, i - s - 1), v2),
            match last_due {
                Some(d) => s <= d < i && dues(es, (i - s) as nat, v2).len() > 0 && dues(
                    es,
                    (i - s) as nat,
                    v2,
                ).last() == d - s,
                None => dues(es, (i - s) as nat, v2).len() == 0,
            },
            block_len(es, 1, target as nat, v2, v3) == block_len(
                es,
                (i - s) as nat,
                target as nat,
                v2,
                v3,
            ),
        decreases total - i,
    {
        let ghost n = (i - s) as nat;
        let e = &entries[i];
        let prev = &entries[i - 1];
        assert(es[n as int] == e@);
        assert(es[n - 1] == prev@);
        let cp: usize = common_prefix(prev.key.as_slice(), e.key.as_slice());
        let est: u128 = size_of_entry(e, cp, v3);
        if add_capped(len, est) > target as u128 {
            return i;
        }
        let changed = !bytes_eq(prev.key.as_slice(), e.key.as_slice());
        let is_due = v2 && (i - s) % 16 == 0 && (match last_due {
            Some(d) => {
                assert(es[d - s] == entries@[d as int]@);
                lt(entries[d].key.as_slice(), e.key.as_slice())
            },
            None => true,
        });
        assert(is_due == due(es, dues(es, n, v2), n as int, v2));
        let shared: usize = if is_due {
            0
        } else {
            cp
        };
        proof {
            lemma_dues(es, n, v2);
            lemma_restarts(es, n, v2);
            lemma_full_step(es, n, n as int, v2);
            lemma_run_head(es, n as int);
            // Entry `n` is no restart of the entries before it.
            assert(!is_full(es, n, n as int, v2)) by {
                if dues(es, n, v2).contains(n as int) {
                    let k = choose|k: int|
                        0 <= k < dues(es, n, v2).len() && dues(es, n, v2)[k] == n as int;
                    assert(false);
                }
                if restarts(es, n, v2).contains(n as int) {
                    let k = choose|k: int|
                        0 <= k < restarts(es, n, v2).len() && restarts(es, n, v2)[k] == n as int;
                    assert(false);
                }
            }
            assert(shared == shared_at(es, n + 1, n as int, v2));
            lemma_block_grows(es, n, v2, v3);
        }
        len = add_capped(len, size_of_entry(e, shared, v3));
        if changed {
            head_shared = shared;
        } else {
            proof {
                lemma_full_step(es, n, run_head(es, n as int), v2);
                assert(run_head(es, n as int) == run_head(es, n - 1));
                lemma_run_head(es, n - 1);
            }
            if is_due {
                len = add_capped(len, head_shared as u128);
                head_shared = 0;
            }
        }
        if is_due {
            last_due = Some(i);
        }
        i += 1;
    }
    i
}

fn push_entry(out: &mut Vec<u8>, e: &SegmentEntry, shared: usize, v3: bool)
    requires
        shared <= e.key@.len(),
    ensures
        final(out)@ == old(out)@ + entry_bytes(e@, shared as nat, v3),
{
    let ghost start = out@;
    push_u16(out, shared as u16);
    push_u16(out, (e.key.len() - shared) as u16);
    let key: &[u8] = e.key.as_slice();
    let n: usize = key.len();
    push_bytes(out, &key[shared..n]);
    push_u32(out, e.value.len() as u32);
    push_bytes(out, e.value.as_slice());
    push_u64(out, e.seq);
    out.push(e.flags);
    if v3 {
        push_u64(out, e.replica_id.0);
    }
    proof {
        reveal(entry_bytes);
    }
    assert(out@ =~= start + entry_bytes(e@, shared as nat, v3));
}

/// Encodes the payload of the block of the entries from `s` to `e`.
pub fn encode_payload(
    entries: &Vec<SegmentEntry>,
    s: usize,
    e: usize,
    v2: bool,
    v3: bool,
) -> (r: Vec<u8>)
    requires
        s < e <= entries@.len(),
    ensures
        r@ == block_payload(
            entries_view(entries@).subrange(s as int, e as int),
            (e - s) as nat,
            v2,
            v3,
        ),
{
    let ghost es = entries_view(entries@).subrange(s as int, e as int);
    let n: usize = e - s;
    // Which entries carry a full key, and where the restarts are.
    let mut full: Vec<bool> = Vec::new();
    let mut last_due: Option<usize> = None;
    let mut heads: Vec<usize> = Vec::new();
    let mut head: usize = 0;
    let mut i: usize = 0;
    assert(dues(es, 0, v2) =~= seq![]);
    while i < n
        invariant
            n == e - s,
            s < e <= entries@.len(),
            i <= n,
            es == entries_view(entries@).subrange(s as int, e as int),
            full@.len() == i,
            forall|j: int| 0 <= j < i ==> #[trigger] full@[j] == is_full(es, i as nat, j, v2),
            match last_due {
                Some(d) => d < i && dues(es, i as nat, v2).len() > 0 && dues(
                    es,
                    i as nat,
                    v2,
                ).last() == d,
                None => dues(es, i as nat, v2).len() == 0,
            },
            heads@.len() == restarts(es, i as nat, v2).len(),
            forall|j: int|
                0 <= j < heads@.len() ==> #[trigger] heads@[j] == restarts(es, i as nat, v2)[j],
            i > 0 ==> head == run_head(es, i - 1),
        decreases n - i,
    {
        let cur = &entries[s + i];
        assert(es[i as int] == cur@);
        if i == 0 {
            head = 0;
        } else {
            assert(es[i - 1] == entries@[s + i - 1]@);
            if !bytes_eq(entries[s + i - 1].key.as_slice(), cur.key.as_slice()) {
                head = i;
            }
        }
        let is_due = v2 && i % 16 == 0 && (match last_due {
            Some(d) => {
                assert(es[d as int] == entries@[s + d]@);
                lt(entries[s + d].key.as_slice(), cur.key.as_slice())
            },
            None => true,
        });
        assert(is_due == due(es, dues(es, i as nat, v2), i as int, v2));
        let ghost f0 = full@;
        let ghost h0 = heads@;
        full.push(i == 0);
        proof {
            lemma_run_head(es, i as int);
            lemma_dues(es, i as nat, v2);
            lemma_restarts(es, i as nat, v2);
            assert(is_full(es, i as nat, i as int, v2) == (i == 0)) by {
                if dues(es, i as nat, v2).contains(i as int) {
                    let k = choose|k: int|
                        0 <= k < dues(es, i as nat, v2).len() && dues(es, i as nat, v2)[k]
                            == i as int;
                    assert(false);
                }
                if restarts(es, i as nat, v2).contains(i as int) {
                    let k = choose|k: int|
                        0 <= k < restarts(es, i as nat, v2).len() && restarts(es, i as nat, v2)[k]
                            == i as int;
                    assert(false);
                }
            }
        }
        if is_due {
            full.set(i, true);
            full.set(head, true);
            heads.push(head);
            last_due = Some(i);
            assert(restarts(es, (i + 1) as nat, v2) =~= restarts(es, i as nat, v2).push(
                head as int,
            ));
        } else {
            assert(restarts(es, (i + 1) as nat, v2) =~= restarts(es, i as nat, v2));
        }
        assert forall|j: int| 0 <= j < i + 1 implies #[trigger] full@[j] == is_full(
            es,
            (i + 1) as nat,
            j,
            v2,
        ) by {
            lemma_full_step(es, i as nat, j, v2);
            if j < i {
                assert(f0[j] == is_full(es, i as nat, j, v2));
            }
        }
        i += 1;
    }
    // The entries, and where each of them begins.
    let mut body: Vec<u8> = Vec::new();
    let mut offs: Vec<usize> = Vec::new();
    let mut k: usize = 0;
    assert(body@ =~= body_bytes(es, n as nat, 0, v2, v3));
    while k < n
        invariant
            n == e - s,
            s < e <= entries@.len(),
            k <= n,
            es == entries_view(entries@).subrange(s as int, e as int),
            full@.len() == n,
            forall|j: int| 0 <= j < n ==> #[trigger] full@[j] == is_full(es, n as nat, j, v2),
            offs@.len() == k,
            forall|j: int|
                0 <= j < k ==> #[trigger] offs@[j] == body_bytes(
                    es,
                    n as nat,
                    j as nat,
                    v2,
                    v3,
                ).len(),
            body@ == body_bytes(es, n as nat, k as nat, v2, v3),
        decreases n - k,
    {
        let cur = &entries[s + k];
        assert(es[k as int] == cur@);
        let shared: usize = if full[k] {
            0
        } else {
            assert(k > 0);
            assert(es[k - 1] == entries@[s + k - 1]@);
            common_prefix(entries[s + k - 1].key.as_slice(), cur.key.as_slice())
        };
        offs.push(body.len());
        push_entry(&mut body, cur, shared, v3);
        k += 1;
    }
    if !v2 {
        return body;
    }
    let ghost rs = restarts(es, n as nat, true);
    proof {
        lemma_restarts(es, n as nat, true);
    }
    let mut out: Vec<u8> = Vec::new();
    push_u16(&mut out, RESTART_INTERVAL);
    push_u32(&mut out, heads.len() as u32);
    let ghost start = out@;
    assert(start =~= le(RESTART_INTERVAL as nat, 2) + le((rs.len() as u32) as nat, 4));
    let mut j: usize = 0;
    assert(out@ =~= start + table_bytes(es, n as nat, 0, v3));
    while j < heads.len()
        invariant
            n == e - s,
            v2,
            j <= heads@.len(),
            rs == restarts(es, n as nat, true),
            heads@.len() == rs.len(),
            forall|x: int| 0 <= x < rs.len() ==> 0 <= #[trigger] rs[x] < n,
            forall|x: int| 0 <= x < heads@.len() ==> #[trigger] heads@[x] == rs[x],
            offs@.len() == n,
            forall|x: int|
                0 <= x < n ==> #[trigger] offs@[x] == body_bytes(
                    es,
                    n as nat,
                    x as nat,
                    true,
                    v3,
                ).len(),
            out@ == start + table_bytes(es, n as nat, j as nat, v3),
        decreases heads@.len() - j,
    {
        assert(heads@[j as int] == rs[j as int]);
        let pos: u128 = 6u128 + 4u128 * heads.len() as u128 + offs[heads[j]] as u128;
        push_u32(&mut out, pos as u32);
        assert(pos == restart_pos(es, n as nat, j as int, v3));
        j += 1;
        assert(out@ =~= start + table_bytes(es, n as nat, j as nat, v3));
    }
    push_bytes(&mut out, body.as_slice());
    assert(out@ =~= block_payload(es, n as nat, v2, v3));
    out
}

proof fn lemma_table_prefix(es: Seq<EntryV>, n: nat, k: nat, v3: bool)
    requires
        n <= es.len(),
        k <= restarts(es, n, true).len(),
    ensures
        table_bytes(es.take(n as int), n, k, v3) == table_bytes(es, n, k, v3),
    decreases k,
{
    if k > 0 {
        lemma_table_prefix(es, n, (k - 1) as nat, v3);
        lemma_block_prefix(es, n as int, n, true);
        lemma_restarts(es, n, true);
        let h = restarts(es, n, true)[k - 1];
        lemma_body_prefix(es, n as int, n, h as nat, true, v3);
    }
}

} // verus!
