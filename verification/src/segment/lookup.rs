//! Point lookup and seek inside one data block with a restart table.

use crate::codec::{
    compare, lemma_lex_total, lemma_lex_trans, lemma_pow256, lex_le, lex_lt, read_le, to_vec, un_le,
    Order,
};
use crate::format::{corrupt, p_take, p_u16, Cursor, ErrV, FormatError};
use crate::identity::replica_id::ReplicaId;
use crate::segment::entry::{
    entry_of, lemma_key_body_len, p_body, p_key, p_table_len, read_body, read_key, read_table_len, skip_entry_body,
    EntryV, SegmentEntry,
};
use crate::text::{dec, Text};
use vstd::prelude::*;

verus! {

/// Restart offset `j` of a payload.
pub open spec fn restart_off(payload: Seq<u8>, j: int) -> int {
    un_le(payload.subrange(6 + 4 * j, 10 + 4 * j)) as int
}

/// The key at a restart position: a full key, with no shared prefix.
pub open spec fn restart_key_of(payload: Seq<u8>, o: int) -> Result<Seq<u8>, ErrV> {
    let s = payload.skip(o);
    match p_u16(s, 0) {
        Err(e) => Err(e),
        Ok(shared) => if shared != 0 {
            Err(
                ErrV::Corrupt(
                    "restart entry at "@ + dec(o as nat) + " has shared prefix "@ + dec(
                        shared as nat,
                    ),
                ),
            )
        } else {
            match p_u16(s, 2) {
                Err(e) => Err(e),
                Ok(n) => p_take(s, 4, n as int),
            }
        },
    }
}

/// The key of restart `j`, whose offset must lie among the entries.
pub open spec fn restart_at(payload: Seq<u8>, table_len: int, j: int) -> Result<Seq<u8>, ErrV> {
    let o = restart_off(payload, j);
    if o < table_len || o >= payload.len() {
        Err(ErrV::Corrupt("restart offset "@ + dec(o as nat) + " outside payload"@))
    } else {
        restart_key_of(payload, o)
    }
}

/// The first `n` restart keys, strictly increasing.
pub open spec fn restart_keys(payload: Seq<u8>, table_len: int, n: nat) -> Result<
    Seq<Seq<u8>>,
    ErrV,
>
    decreases n,
{
    if n == 0 {
        Ok(seq![])
    } else {
        match restart_keys(payload, table_len, (n - 1) as nat) {
            Err(e) => Err(e),
            Ok(front) => match restart_at(payload, table_len, n - 1) {
                Err(e) => Err(e),
                Ok(k) => if front.len() > 0 && lex_le(k, front.last()) {
                    Err(ErrV::Corrupt("restart keys not strictly increasing"@))
                } else {
                    Ok(front.push(k))
                },
            },
        }
    }
}

/// How many leading keys do not come after `key`.
pub open spec fn count_le(keys: Seq<Seq<u8>>, key: Seq<u8>) -> nat
    decreases keys.len(),
{
    if keys.len() == 0 {
        0
    } else if lex_le(keys.last(), key) {
        keys.len()
    } else {
        count_le(keys.drop_last(), key)
    }
}

/// The replica that a lookup asks for; `None` takes any.
pub open spec fn rid_matches(want: Option<ReplicaId>, rid: ReplicaId) -> bool {
    want is None || want->0 == rid
}

/// The first entry of `key` (and of the wanted replica) from `pos` on, where
/// the predecessor has the key `prev`.
pub open spec fn find_from(
    s: Seq<u8>,
    pos: int,
    prev: Seq<u8>,
    key: Seq<u8>,
    v3: bool,
    want: Option<ReplicaId>,
) -> Result<Option<EntryV>, ErrV>
    decreases s.len() - pos,
{
    if pos < 0 || pos >= s.len() {
        Ok(None)
    } else {
        match p_key(s, pos, prev) {
            Err(e) => Err(e),
            Ok((k, p)) => if lex_lt(key, k) {
                Ok(None)
            } else {
                match p_body(s, p, v3) {
                    Err(e) => Err(e),
                    Ok((b, q)) => if k == key && rid_matches(want, b.replica_id) {
                        Ok(Some(entry_of(k, b)))
                    } else {
                        proof {
                            lemma_key_body_len(s, pos, prev, v3);
                            lemma_key_body_len(s, p, prev, v3);
                        }
                        find_from(s, q, k, key, v3, want)
                    },
                }
            },
        }
    }
}

/// How many entries that search decodes.
pub open spec fn find_count(
    s: Seq<u8>,
    pos: int,
    prev: Seq<u8>,
    key: Seq<u8>,
    v3: bool,
    want: Option<ReplicaId>,
) -> nat
    decreases s.len() - pos,
{
    if pos < 0 || pos >= s.len() {
        0
    } else {
        match p_key(s, pos, prev) {
            Err(_) => 0,
            Ok((k, p)) => if lex_lt(key, k) {
                1
            } else {
                match p_body(s, p, v3) {
                    Err(_) => 0,
                    Ok((b, q)) => if k == key && rid_matches(want, b.replica_id) {
                        1
                    } else {
                        proof {
                            lemma_key_body_len(s, pos, prev, v3);
                            lemma_key_body_len(s, p, prev, v3);
                        }
                        1 + find_count(s, q, k, key, v3, want)
                    },
                }
            },
        }
    }
}

/// How many entries a search in a payload with a restart table decodes; the
/// restart keys that it compares are not counted.
pub open spec fn block_find_count(
    payload: Seq<u8>,
    key: Seq<u8>,
    v3: bool,
    want: Option<ReplicaId>,
) -> nat {
    match p_table_len(payload) {
        Err(_) => 0,
        Ok(t) => {
            let n = (t - 6) / 4;
            match restart_keys(payload, t, n as nat) {
                Err(_) => 0,
                Ok(keys) => {
                    let r = count_le(keys, key) as int;
                    let start = restart_off(payload, r - 1);
                    let end = if r < n {
                        restart_off(payload, r)
                    } else {
                        payload.len() as int
                    };
                    if r == 0 || start > end {
                        0
                    } else {
                        find_count(payload.subrange(start, end), 0, seq![], key, v3, want)
                    }
                },
            }
        },
    }
}

/// The head of `key` (for the wanted replica) in a payload with a restart
/// table.
pub open spec fn block_find(payload: Seq<u8>, key: Seq<u8>, v3: bool, want: Option<ReplicaId>) -> Result<
    Option<EntryV>,
    ErrV,
> {
    match p_table_len(payload) {
        Err(e) => Err(e),
        Ok(t) => {
            let n = (t - 6) / 4;
            match restart_keys(payload, t, n as nat) {
                Err(e) => Err(e),
                Ok(keys) => {
                    let r = count_le(keys, key) as int;
                    let start = restart_off(payload, r - 1);
                    let end = if r < n {
                        restart_off(payload, r)
                    } else {
                        payload.len() as int
                    };
                    if r == 0 {
                        Ok(None)
                    } else if start > end {
                        Err(ErrV::Corrupt("restart offsets not ascending"@))
                    } else {
                        find_from(payload.subrange(start, end), 0, seq![], key, v3, want)
                    }
                },
            }
        },
    }
}

/// Reads restart offset `j`.
fn read_restart_off(payload: &[u8], j: usize) -> (r: usize)
    requires
        10 + 4 * j <= payload@.len(),
    ensures
        r == restart_off(payload@, j as int),
{
    let total: usize = payload.len();
    assert(10 + 4 * j <= total);
    proof {
        lemma_pow256();
        crate::codec::lemma_le_un_le(payload@.subrange(6 + 4 * j, 10 + 4 * j));
    }
    read_le(&payload[6 + 4 * j..10 + 4 * j]) as usize
}

/// The key at a restart position, borrowed.
fn restart_key(payload: &[u8], o: usize) -> (r: Result<&[u8], FormatError>)
    requires
        o <= payload@.len(),
    ensures
        match r {
            Ok(k) => restart_key_of(payload@, o as int) == Ok::<Seq<u8>, ErrV>(k@),
            Err(e) => restart_key_of(payload@, o as int) == Err::<Seq<u8>, ErrV>(e@),
        },
{
    let total: usize = payload.len();
    let s = &payload[o..total];
    assert(s@ =~= payload@.skip(o as int));
    let mut cur = Cursor::new(s);
    let shared = cur.u16()?;
    if shared != 0 {
        return Err(
            FormatError::Corrupt(
                Text::new("restart entry at ").num(o as u64).lit(" has shared prefix ").num(
                    shared as u64,
                ).done(),
            ),
        );
    }
    let n = cur.u16()? as usize;
    cur.take(n)
}

/// The key of restart `j`.
fn read_restart(payload: &[u8], table_len: usize, j: usize) -> (r: Result<&[u8], FormatError>)
    requires
        10 + 4 * j <= payload@.len(),
    ensures
        match r {
            Ok(k) => restart_at(payload@, table_len as int, j as int) == Ok::<Seq<u8>, ErrV>(k@),
            Err(e) => restart_at(payload@, table_len as int, j as int) == Err::<Seq<u8>, ErrV>(e@),
        },
{
    let o: usize = read_restart_off(payload, j);
    if o < table_len || o >= payload.len() {
        return Err(
            FormatError::Corrupt(
                Text::new("restart offset ").num(o as u64).lit(" outside payload").done(),
            ),
        );
    }
    restart_key(payload, o)
}

proof fn lemma_restart_keys_err(payload: Seq<u8>, t: int, i: nat, n: nat)
    requires
        i <= n,
        restart_keys(payload, t, i) is Err,
    ensures
        restart_keys(payload, t, n) == restart_keys(payload, t, i),
    decreases n,
{
    if i < n {
        lemma_restart_keys_err(payload, t, i, (n - 1) as nat);
    }
}

/// Strictly increasing keys.
pub open spec fn increasing(keys: Seq<Seq<u8>>) -> bool {
    forall|i: int, j: int|
        #![trigger keys[i], keys[j]]
        0 <= i < j < keys.len() ==> lex_lt(keys[i], keys[j])
}

pub proof fn lemma_restart_keys(payload: Seq<u8>, t: int, n: nat)
    ensures
        restart_keys(payload, t, n) matches Ok(ks) ==> ks.len() == n && increasing(ks),
    decreases n,
{
    if n > 0 {
        lemma_restart_keys(payload, t, (n - 1) as nat);
        if let Ok(ks) = restart_keys(payload, t, n) {
            let front = ks.drop_last();
            assert(restart_keys(payload, t, (n - 1) as nat) == Ok::<Seq<Seq<u8>>, ErrV>(front)) by {
                if let Ok(f) = restart_keys(payload, t, (n - 1) as nat) {
                    assert(f =~= front);
                }
            }
            assert forall|i: int, j: int| #![trigger ks[i], ks[j]] 0 <= i < j < ks.len() implies lex_lt(
                ks[i],
                ks[j],
            ) by {
                assert(ks[i] == front[i]);
                if j < front.len() {
                    assert(ks[j] == front[j]);
                } else {
                    lemma_lex_total(front.last(), ks[j]);
                    if i < front.len() - 1 {
                        assert(lex_lt(front[i], front[front.len() - 1]));
                        lemma_lex_trans(front[i], front.last(), ks[j]);
                    }
                }
            }
        }
    }
}

/// On increasing keys the count splits them.
pub proof fn lemma_count_le(keys: Seq<Seq<u8>>, key: Seq<u8>, r: int)
    requires
        increasing(keys),
        0 <= r <= keys.len(),
        r > 0 ==> lex_le(keys[r - 1], key),
        r < keys.len() ==> lex_lt(key, keys[r]),
    ensures
        count_le(keys, key) == r,
    decreases keys.len(),
{
    if keys.len() > 0 {
        let last = keys.last();
        lemma_lex_total(last, key);
        if r < keys.len() {
            if r < keys.len() - 1 {
                assert(lex_lt(keys[r], keys[keys.len() - 1]));
                lemma_lex_trans(key, keys[r], last);
            }
            lemma_lex_total(key, last);
            lemma_count_le(keys.drop_last(), key, r);
        }
    }
}

/// An optional entry as a value.
pub open spec fn opt_view(e: Option<SegmentEntry>) -> Option<EntryV> {
    match e {
        Some(x) => Some(x@),
        None => None,
    }
}

/// Finds the head of `key` among the entries of one restart interval.
fn find_in_interval(s: &[u8], key: &[u8], v3: bool, want: Option<ReplicaId>) -> (r: Result<
    (Option<SegmentEntry>, u64),
    FormatError,
>)
    ensures
        match r {
            Ok((v, n)) => find_from(s@, 0, seq![], key@, v3, want) == Ok::<Option<EntryV>, ErrV>(
                opt_view(v),
            ) && n == find_count(s@, 0, seq![], key@, v3, want),
            Err(e) => find_from(s@, 0, seq![], key@, v3, want) == Err::<Option<EntryV>, ErrV>(e@),
        },
{
    let mut cur = Cursor::new(s);
    let mut scratch: Vec<u8> = Vec::new();
    let mut decoded: u64 = 0;
    assert(scratch@ =~= seq![]);
    while !cur.is_empty()
        invariant
            cur.wf(),
            cur.bytes@ == s@,
            decoded <= cur.pos,
            find_from(s@, 0, seq![], key@, v3, want) is Ok ==> find_count(
                s@,
                0,
                seq![],
                key@,
                v3,
                want,
            ) == decoded + find_count(s@, cur.pos as int, scratch@, key@, v3, want),
            find_from(s@, 0, seq![], key@, v3, want) == find_from(
                s@,
                cur.pos as int,
                scratch@,
                key@,
                v3,
                want,
            ),
        decreases s@.len() - cur.pos,
    {
        proof {
            lemma_key_body_len(s@, cur.pos as int, scratch@, v3);
        }
        let k = read_key(&mut cur, &scratch)?;
        scratch = k;
        let at: usize = cur.pos;
        assert(decoded < at);
        decoded += 1;
        proof {
            lemma_lex_total(scratch@, key@);
            lemma_key_body_len(s@, cur.pos as int, scratch@, v3);
        }
        match compare(scratch.as_slice(), key) {
            Order::Equal => {
                let body = read_body(&mut cur, v3)?;
                let hit = match want {
                    None => true,
                    Some(w) => body.replica_id == w,
                };
                if hit {
                    let e = SegmentEntry {
                        key: to_vec(scratch.as_slice()),
                        value: body.value,
                        seq: body.seq,
                        flags: body.flags,
                        replica_id: body.replica_id,
                    };
                    assert(e@ =~= entry_of(scratch@, body@));
                    return Ok((Some(e), decoded));
                }
            },
            Order::Greater => {
                return Ok((None, decoded));
            },
            Order::Less => {
                match skip_entry_body(&mut cur, v3) {
                    Ok(_) => {},
                    Err(e) => {
                        return Err(e);
                    },
                }
            },
        }
    }
    Ok((None, decoded))
}

/// The head of `key` (for the wanted replica) in a payload with a restart
/// table, and how many entries were decoded. The table is validated up front, so that the search cannot misread
/// damaged data; then only one interval is decoded.
pub fn block_get_v2(payload: &[u8], key: &[u8], v3: bool, want: Option<ReplicaId>) -> (r: Result<
    (Option<SegmentEntry>, u64),
    FormatError,
>)
    ensures
        match r {
            Ok((v, n)) => block_find(payload@, key@, v3, want) == Ok::<Option<EntryV>, ErrV>(
                opt_view(v),
            ) && n == block_find_count(payload@, key@, v3, want),
            Err(e) => block_find(payload@, key@, v3, want) == Err::<Option<EntryV>, ErrV>(e@),
        },
{
    let table_len: usize = match read_table_len(payload) {
        Ok(t) => t,
        Err(e) => {
            return Err(e);
        },
    };
    let n: usize = (table_len - 6) / 4;
    let ghost t = table_len as int;
    assert(t == 6 + 4 * n);
    let mut keys: Vec<&[u8]> = Vec::new();
    let ghost mut ks: Seq<Seq<u8>> = seq![];
    let mut j: usize = 0;
    while j < n
        invariant
            j <= n,
            t == table_len,
            t == 6 + 4 * n,
            t <= payload@.len(),
            p_table_len(payload@) == Ok::<int, ErrV>(t),
            keys@.len() == j,
            ks.len() == j,
            forall|i: int| 0 <= i < j ==> (#[trigger] keys@[i])@ == ks[i],
            restart_keys(payload@, t, j as nat) == Ok::<Seq<Seq<u8>>, ErrV>(ks),
        decreases n - j,
    {
        let k = match read_restart(payload, table_len, j) {
            Ok(k) => k,
            Err(e) => {
                proof {
                    lemma_restart_keys_err(payload@, t, (j + 1) as nat, n as nat);
                }
                return Err(e);
            },
        };
        if j > 0 {
            let o = compare(k, keys[j - 1]);
            proof {
                assert(ks.last() == keys@[j - 1]@);
                lemma_lex_total(k@, ks.last());
            }
            if o != Order::Greater {
                proof {
                    lemma_restart_keys_err(payload@, t, (j + 1) as nat, n as nat);
                }
                return Err(corrupt("restart keys not strictly increasing"));
            }
        }
        keys.push(k);
        proof {
            ks = ks.push(k@);
        }
        j += 1;
    }
    proof {
        lemma_restart_keys(payload@, t, n as nat);
    }
    let mut lo: usize = 0;
    let mut hi: usize = n;
    while lo < hi
        invariant
            lo <= hi <= n,
            keys@.len() == n,
            ks.len() == n,
            forall|i: int| 0 <= i < n ==> (#[trigger] keys@[i])@ == ks[i],
            lo > 0 ==> lex_le(ks[lo - 1], key@),
            hi < n ==> lex_lt(key@, ks[hi as int]),
        decreases hi - lo,
    {
        let mid: usize = lo + (hi - lo) / 2;
        proof {
            lemma_lex_total(ks[mid as int], key@);
        }
        assert(keys@[mid as int]@ == ks[mid as int]);
        if compare(keys[mid], key) == Order::Greater {
            hi = mid;
        } else {
            lo = mid + 1;
        }
    }
    proof {
        lemma_count_le(ks, key@, lo as int);
    }
    if lo == 0 {
        return Ok((None, 0));
    }
    let start: usize = read_restart_off(payload, lo - 1);
    let end: usize = if lo < n {
        read_restart_off(payload, lo)
    } else {
        payload.len()
    };
    if start > end {
        return Err(corrupt("restart offsets not ascending"));
    }
    proof {
        lemma_restart_in_range(payload@, t, n as nat, lo as int);
        lemma_restart_in_range(payload@, t, n as nat, lo - 1);
    }
    find_in_interval(&payload[start..end], key, v3, want)
}

/// A validated restart lies inside the payload.
pub proof fn lemma_restart_in_range(payload: Seq<u8>, t: int, n: nat, j: int)
    requires
        restart_keys(payload, t, n) is Ok,
    ensures
        0 <= j < n ==> restart_at(payload, t, j) is Ok && t <= restart_off(payload, j)
            < payload.len(),
    decreases n,
{
    if n > 0 && j < n - 1 {
        lemma_restart_in_range(payload, t, (n - 1) as nat, j);
    }
}

/// The binary search for the first restart past `start`, probe by probe.
pub open spec fn seek_probe(payload: Seq<u8>, t: int, start: Seq<u8>, lo: int, hi: int) -> Result<
    int,
    ErrV,
>
    decreases hi - lo,
{
    if lo >= hi {
        Ok(lo)
    } else {
        let mid = (lo + hi) / 2;
        match restart_at(payload, t, mid) {
            Err(e) => Err(e),
            Ok(k) => if lex_le(k, start) {
                seek_probe(payload, t, start, mid + 1, hi)
            } else {
                seek_probe(payload, t, start, lo, mid)
            },
        }
    }
}

/// Where decoding of `[start, ..)` begins in a payload: at the last restart
/// whose key does not come after `start`, or at the first restart.
pub open spec fn seek_pos(payload: Seq<u8>, v2: bool, start: Seq<u8>) -> Result<int, ErrV> {
    if !v2 {
        Ok(0)
    } else {
        match p_table_len(payload) {
            Err(e) => Err(e),
            Ok(t) => {
                let n = (t - 6) / 4;
                if n == 0 {
                    Err(ErrV::Corrupt("restart table is empty"@))
                } else {
                    match seek_probe(payload, t, start, 0, n) {
                        Err(e) => Err(e),
                        Ok(lo) => Ok(
                            restart_off(
                                payload,
                                if lo == 0 {
                                    0
                                } else {
                                    lo - 1
                                },
                            ),
                        ),
                    }
                }
            },
        }
    }
}

pub fn scan_seek_pos(payload: &[u8], v2: bool, start: &[u8]) -> (r: Result<usize, FormatError>)
    ensures
        match (r, seek_pos(payload@, v2, start@)) {
            (Ok(n), Ok(m)) => n == m,
            (Err(e), Err(f)) => e@ == f,
            _ => false,
        },
{
    if !v2 {
        return Ok(0);
    }
    let table_len: usize = match read_table_len(payload) {
        Ok(t) => t,
        Err(e) => {
            return Err(e);
        },
    };
    let n: usize = (table_len - 6) / 4;
    let ghost t = table_len as int;
    if n == 0 {
        return Err(corrupt("restart table is empty"));
    }
    let mut lo: usize = 0;
    let mut hi: usize = n;
    while lo < hi
        invariant
            lo <= hi <= n,
            n > 0,
            v2,
            t == table_len,
            t == 6 + 4 * n,
            t <= payload@.len(),
            p_table_len(payload@) == Ok::<int, ErrV>(t),
            seek_probe(payload@, t, start@, 0, n as int) == seek_probe(
                payload@,
                t,
                start@,
                lo as int,
                hi as int,
            ),
        decreases hi - lo,
    {
        let mid: usize = lo + (hi - lo) / 2;
        assert(mid == (lo + hi) / 2);
        let k = match read_restart(payload, table_len, mid) {
            Ok(k) => k,
            Err(e) => {
                return Err(e);
            },
        };
        proof {
            lemma_lex_total(k@, start@);
        }
        if compare(k, start) == Order::Greater {
            hi = mid;
        } else {
            lo = mid + 1;
        }
    }
    let r: usize = if lo == 0 {
        0
    } else {
        lo - 1
    };
    Ok(read_restart_off(payload, r))
}

} // verus!
