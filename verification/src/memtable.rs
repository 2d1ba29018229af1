//! The memtable: the newest rows, ordered as a segment holds them.
//!
//! A row is a key, the sequence of the batch that wrote it, a value or a
//! deletion, and the replica it belongs to (0: none). Rows are kept by
//! ascending key, newest first within a key; a second row of one key in one
//! batch replaces the first.

use crate::codec::{bytes_eq, compare, lemma_lex_total, lemma_lex_trans, lex_lt, to_vec, Order};
use crate::identity::replica_id::ReplicaId;
use crate::segment::block_laws::first_rid;
use crate::segment::entry::{entries_view, EntryV, SegmentEntry, FLAG_DELETE, FLAG_PUT};
use crate::segment::lookup::rid_matches;
use crate::segment::read::first_of;
use crate::segment::write::{comes_first, in_order};
use vstd::prelude::*;

verus! {

// ---------------------------------------------------------------------------
// Rows
/// The row of one write: a deletion holds no value.
pub open spec fn row_of(key: Seq<u8>, seq: u64, value: Option<Seq<u8>>, rid: ReplicaId) -> EntryV {
    EntryV {
        key,
        value: match value {
            Some(v) => v,
            None => seq![],
        },
        seq,
        flags: if value is Some {
            FLAG_PUT
        } else {
            FLAG_DELETE
        },
        replica_id: rid,
    }
}

/// Whether a row is a deletion.
pub open spec fn is_delete(e: EntryV) -> bool {
    e.flags & FLAG_DELETE != 0
}

/// What a row says of its key.
pub open spec fn value_of(e: EntryV) -> Option<Seq<u8>> {
    if is_delete(e) {
        None
    } else {
        Some(e.value)
    }
}

/// A row reads back as it was written.
pub proof fn lemma_row_value(key: Seq<u8>, seq: u64, value: Option<Seq<u8>>, rid: ReplicaId)
    ensures
        value_of(row_of(key, seq, value, rid)) == value,
        is_delete(row_of(key, seq, value, rid)) == (value is None),
{
    assert(1u8 & 2u8 == 0) by (bit_vector);
    assert(2u8 & 2u8 != 0) by (bit_vector);
}

/// A key and what it holds; `None` for a deletion.
pub type Row = (Vec<u8>, Option<Vec<u8>>);

pub type RowV = (Seq<u8>, Option<Seq<u8>>);

pub open spec fn value_view(v: Option<Vec<u8>>) -> Option<Seq<u8>> {
    match v {
        Some(x) => Some(x@),
        None => None,
    }
}

pub open spec fn row_view(r: Row) -> RowV {
    (r.0@, value_view(r.1))
}

pub open spec fn rows_view(s: Seq<Row>) -> Seq<RowV> {
    s.map_values(|r: Row| row_view(r))
}

/// A copy of a value.
pub fn copy_value(v: &Option<Vec<u8>>) -> (r: Option<Vec<u8>>)
    ensures
        value_view(r) == value_view(*v),
{
    match v {
        Some(x) => Some(to_vec(x.as_slice())),
        None => None,
    }
}

/// The value that an entry holds, copied.
pub fn entry_value(e: &SegmentEntry) -> (r: Option<Vec<u8>>)
    ensures
        value_view(r) == value_of(e@),
{
    if e.flags & FLAG_DELETE != 0 {
        None
    } else {
        Some(to_vec(e.value.as_slice()))
    }
}

// ---------------------------------------------------------------------------
// Order
pub proof fn lemma_first_trans(a: EntryV, b: EntryV, c: EntryV)
    requires
        comes_first(a, b),
        comes_first(b, c),
    ensures
        comes_first(a, c),
{
    if lex_lt(a.key, b.key) && lex_lt(b.key, c.key) {
        lemma_lex_trans(a.key, b.key, c.key);
    }
}

/// The same key and sequence.
pub open spec fn same_slot(a: EntryV, b: EntryV) -> bool {
    a.key == b.key && a.seq == b.seq
}

pub proof fn lemma_first_total(a: EntryV, b: EntryV)
    ensures
        comes_first(a, b) || comes_first(b, a) || same_slot(a, b),
        !(comes_first(a, b) && comes_first(b, a)),
        same_slot(a, b) ==> !comes_first(a, b) && !comes_first(b, a),
{
    lemma_lex_total(a.key, b.key);
}

/// How many rows stand before the place of `e`.
pub open spec fn ahead(rows: Seq<EntryV>, e: EntryV) -> nat
    decreases rows.len(),
{
    if rows.len() > 0 && comes_first(rows[0], e) {
        1 + ahead(rows.skip(1), e)
    } else {
        0
    }
}

/// `p` is the place of `e` among the rows.
pub open spec fn place_of(rows: Seq<EntryV>, e: EntryV, p: int) -> bool {
    &&& 0 <= p <= rows.len()
    &&& forall|i: int| 0 <= i < p ==> comes_first(#[trigger] rows[i], e)
    &&& forall|i: int| p <= i < rows.len() ==> !comes_first(#[trigger] rows[i], e)
}

/// Ordered rows have one place for an entry.
pub proof fn lemma_place(rows: Seq<EntryV>, e: EntryV)
    requires
        in_order(rows),
    ensures
        place_of(rows, e, ahead(rows, e) as int),
    decreases rows.len(),
{
    if rows.len() > 0 {
        let rest = rows.skip(1);
        if comes_first(rows[0], e) {
            assert forall|i: int, j: int|
                #![trigger rest[i], rest[j]]
                0 <= i < j < rest.len() implies comes_first(rest[i], rest[j]) by {
                assert(comes_first(rows[i + 1], rows[j + 1]));
            }
            lemma_place(rest, e);
            let p = ahead(rows, e) as int;
            assert forall|i: int| 0 <= i < p implies comes_first(#[trigger] rows[i], e) by {
                if i > 0 {
                    assert(rest[i - 1] == rows[i]);
                }
            }
            assert forall|i: int| p <= i < rows.len() implies !comes_first(#[trigger] rows[i], e) by {
                assert(rest[i - 1] == rows[i]);
            }
        } else {
            assert forall|i: int| 0 <= i < rows.len() implies !comes_first(#[trigger] rows[i], e) by {
                if i > 0 && comes_first(rows[i], e) {
                    assert(comes_first(rows[0], rows[i]));
                    lemma_first_trans(rows[0], rows[i], e);
                }
            }
        }
    }
}

pub proof fn lemma_place_unique(rows: Seq<EntryV>, e: EntryV, p: int, q: int)
    requires
        place_of(rows, e, p),
        place_of(rows, e, q),
    ensures
        p == q,
{
    if p < q {
        assert(comes_first(rows[p], e));
    } else if q < p {
        assert(comes_first(rows[q], e));
    }
}

/// The rows with one more: it takes its place in the order, and that of a row
/// with the same key and sequence.
pub open spec fn with_row(rows: Seq<EntryV>, e: EntryV) -> Seq<EntryV> {
    let p = ahead(rows, e) as int;
    if p < rows.len() && same_slot(rows[p], e) {
        rows.update(p, e)
    } else {
        rows.insert(p, e)
    }
}

/// Adding a row keeps the order, keeps every row but the one that it
/// replaces, and adds nothing else.
pub proof fn lemma_with_row(rows: Seq<EntryV>, e: EntryV)
    requires
        in_order(rows),
    ensures
        in_order(with_row(rows, e)),
        with_row(rows, e).contains(e),
        forall|x: EntryV|
            #![trigger with_row(rows, e).contains(x)]
            #![trigger rows.contains(x)]
            with_row(rows, e).contains(x) <==> x == e || (rows.contains(x) && !same_slot(x, e)),
{
    lemma_place(rows, e);
    let p = ahead(rows, e) as int;
    let out = with_row(rows, e);
    assert(out[p] == e);
    assert forall|i: int| p <= i < rows.len() implies (if i == p && same_slot(rows[p], e) {
        true
    } else {
        comes_first(e, #[trigger] rows[i])
    }) by {
        lemma_first_total(rows[i], e);
        if i > p {
            assert(comes_first(rows[p], rows[i]));
            lemma_first_total(rows[p], e);
            if same_slot(rows[p], e) {
                assert(comes_first(e, rows[i]));
            } else {
                lemma_first_trans(e, rows[p], rows[i]);
            }
        }
    }
    if p < rows.len() && same_slot(rows[p], e) {
        assert forall|i: int, j: int|
            #![trigger out[i], out[j]]
            0 <= i < j < out.len() implies comes_first(out[i], out[j]) by {
            assert(comes_first(rows[i], rows[j]));
        }
        assert forall|x: EntryV|
            #![trigger out.contains(x)]
            #![trigger rows.contains(x)]
            out.contains(x) <==> x == e || (rows.contains(x) && !same_slot(x, e)) by {
            if out.contains(x) && x != e {
                let i = choose|i: int| 0 <= i < out.len() && out[i] == x;
                assert(rows[i] == x);
                if i < p {
                    lemma_first_total(rows[i], e);
                } else {
                    lemma_first_total(e, rows[i]);
                }
            }
            if rows.contains(x) && !same_slot(x, e) {
                let i = choose|i: int| 0 <= i < rows.len() && rows[i] == x;
                assert(out[i] == x);
            }
        }
    } else {
        assert forall|i: int, j: int|
            #![trigger out[i], out[j]]
            0 <= i < j < out.len() implies comes_first(out[i], out[j]) by {
            let a = if i < p { i } else { i - 1 };
            let b = if j < p { j } else { j - 1 };
            if i != p && j != p {
                assert(comes_first(rows[a], rows[b]));
            } else if i == p {
                assert(comes_first(e, rows[b]));
            } else {
                assert(comes_first(rows[a], e));
            }
        }
        assert forall|x: EntryV|
            #![trigger out.contains(x)]
            #![trigger rows.contains(x)]
            out.contains(x) <==> x == e || (rows.contains(x) && !same_slot(x, e)) by {
            if out.contains(x) && x != e {
                let i = choose|i: int| 0 <= i < out.len() && out[i] == x;
                let a = if i < p { i } else { i - 1 };
                assert(rows[a] == x);
                lemma_first_total(rows[a], e);
                assert(rows.contains(x));
            }
            if rows.contains(x) && !same_slot(x, e) {
                let i = choose|i: int| 0 <= i < rows.len() && rows[i] == x;
                assert(out[if i < p { i } else { i + 1 }] == x);
            }
            if x == e {
                assert(out.contains(out[p]));
            }
        }
    }
    assert(out.contains(out[p]));
}

// ---------------------------------------------------------------------------
// Lookup
/// The first row of `key` (and of the wanted replica) stands at `i`.
pub open spec fn first_at(rows: Seq<EntryV>, key: Seq<u8>, want: Option<ReplicaId>, i: int) -> bool {
    &&& 0 <= i < rows.len()
    &&& rows[i].key == key && rid_matches(want, rows[i].replica_id)
    &&& forall|j: int|
        0 <= j < i ==> !((#[trigger] rows[j]).key == key && rid_matches(want, rows[j].replica_id))
}

pub proof fn lemma_first_at(rows: Seq<EntryV>, key: Seq<u8>, want: Option<ReplicaId>, i: int)
    requires
        first_at(rows, key, want, i),
    ensures
        first_rid(rows, key, want) == Some(rows[i]),
    decreases rows.len(),
{
    if i > 0 {
        let rest = rows.skip(1);
        assert(!(rows[0].key == key && rid_matches(want, rows[0].replica_id)));
        assert forall|j: int| 0 <= j < i - 1 implies !((#[trigger] rest[j]).key == key
            && rid_matches(want, rest[j].replica_id)) by {
            assert(rest[j] == rows[j + 1]);
        }
        lemma_first_at(rest, key, want, i - 1);
    }
}

pub proof fn lemma_first_none(rows: Seq<EntryV>, key: Seq<u8>, want: Option<ReplicaId>)
    requires
        forall|j: int|
            0 <= j < rows.len() ==> !((#[trigger] rows[j]).key == key && rid_matches(
                want,
                rows[j].replica_id,
            )),
    ensures
        first_rid(rows, key, want) is None,
    decreases rows.len(),
{
    if rows.len() > 0 {
        let rest = rows.skip(1);
        assert(!(rows[0].key == key && rid_matches(want, rows[0].replica_id)));
        assert forall|j: int| 0 <= j < rest.len() implies !((#[trigger] rest[j]).key == key
            && rid_matches(want, rest[j].replica_id)) by {
            assert(rest[j] == rows[j + 1]);
        }
        lemma_first_none(rest, key, want);
    }
}

/// Where the first row of `key` (and of the wanted replica) stands, if there
/// is one.
pub proof fn lemma_first_place(rows: Seq<EntryV>, key: Seq<u8>, want: Option<ReplicaId>) -> (i: int)
    ensures
        match first_rid(rows, key, want) {
            Some(e) => first_at(rows, key, want, i) && rows[i] == e,
            None => forall|j: int|
                0 <= j < rows.len() ==> !((#[trigger] rows[j]).key == key && rid_matches(
                    want,
                    rows[j].replica_id,
                )),
        },
    decreases rows.len(),
{
    if rows.len() == 0 {
        0
    } else if rows[0].key == key && rid_matches(want, rows[0].replica_id) {
        0
    } else {
        let rest = rows.skip(1);
        let k = lemma_first_place(rest, key, want);
        assert forall|j: int| 0 < j < rows.len() implies rest[j - 1] == #[trigger] rows[j] by {}
        k + 1
    }
}

/// Any row of the key will do where no replica is asked for.
pub proof fn lemma_first_any(rows: Seq<EntryV>, key: Seq<u8>)
    ensures
        first_of(rows, key) == first_rid(rows, key, None),
    decreases rows.len(),
{
    if rows.len() > 0 {
        lemma_first_any(rows.skip(1), key);
    }
}

/// Key bytes that begin with `prefix`.
pub open spec fn begins(key: Seq<u8>, prefix: Seq<u8>) -> bool {
    prefix.len() <= key.len() && key.take(prefix.len() as int) == prefix
}

/// The heads of the keys that begin with `prefix`, among the first `n` rows.
pub open spec fn heads(rows: Seq<EntryV>, prefix: Seq<u8>, n: nat) -> Seq<RowV>
    decreases n,
{
    if n == 0 {
        seq![]
    } else {
        let before = heads(rows, prefix, (n - 1) as nat);
        let e = rows[n - 1];
        if begins(e.key, prefix) && (n == 1 || rows[n - 2].key != e.key) {
            before.push((e.key, value_of(e)))
        } else {
            before
        }
    }
}

/// Whether a key begins with a prefix.
pub fn begins_with(key: &[u8], prefix: &[u8]) -> (r: bool)
    ensures
        r == begins(key@, prefix@),
{
    if key.len() < prefix.len() {
        return false;
    }
    proof {
        assert(key@.subrange(0, prefix@.len() as int) =~= key@.take(prefix@.len() as int));
    }
    bytes_eq(&key[0..prefix.len()], prefix)
}

// ---------------------------------------------------------------------------
// The table
/// A memtable as a value: its rows, and the bytes applied to it.
#[verifier::ext_equal]
pub struct MemV {
    pub rows: Seq<EntryV>,
    pub bytes: nat,
}

/// The byte count after `n` more; it stops at the largest count.
pub open spec fn count_more(bytes: nat, n: nat) -> nat {
    if bytes + n > usize::MAX {
        usize::MAX as nat
    } else {
        bytes + n
    }
}

/// The bytes of one write: its key and its value.
pub open spec fn write_size(key: Seq<u8>, value: Option<Seq<u8>>) -> nat {
    key.len() + (match value {
        Some(v) => v.len(),
        None => 0,
    })
}

/// A memtable after one write.
pub open spec fn mem_apply(
    m: MemV,
    key: Seq<u8>,
    seq: u64,
    value: Option<Seq<u8>>,
    rid: ReplicaId,
) -> MemV {
    MemV {
        rows: with_row(m.rows, row_of(key, seq, value, rid)),
        bytes: count_more(m.bytes, write_size(key, value)),
    }
}

pub open spec fn mem_empty() -> MemV {
    MemV { rows: seq![], bytes: 0 }
}

pub struct Memtable {
    pub entries: Vec<SegmentEntry>,
    pub bytes: usize,
}

impl View for Memtable {
    type V = MemV;

    open spec fn view(&self) -> MemV {
        MemV { rows: entries_view(self.entries@), bytes: self.bytes as nat }
    }
}

/// The order that every memtable keeps.
pub open spec fn mem_ok(m: MemV) -> bool {
    in_order(m.rows)
}

impl Memtable {
    pub open spec fn wf(&self) -> bool {
        mem_ok(self@)
    }

    pub fn new() -> (r: Self)
        ensures
            r.wf(),
            r@ == mem_empty(),
    {
        let r = Memtable { entries: Vec::new(), bytes: 0 };
        assert(r@.rows =~= Seq::<EntryV>::empty());
        r
    }

    /// The number of rows that come before a row of `key` and `seq`.
    fn seek(&self, key: &[u8], seq: u64) -> (r: usize)
        requires
            self.wf(),
        ensures
            place_of(self@.rows, row_of(key@, seq, None, ReplicaId(0)), r as int),
    {
        let ghost e = row_of(key@, seq, None, ReplicaId(0));
        let ghost rows = self@.rows;
        let mut lo: usize = 0;
        let mut hi: usize = self.entries.len();
        while lo < hi
            invariant
                lo <= hi <= self.entries@.len(),
                rows == self@.rows,
                in_order(rows),
                rows.len() == self.entries@.len(),
                e == row_of(key@, seq, None, ReplicaId(0)),
                forall|i: int| 0 <= i < lo ==> comes_first(#[trigger] rows[i], e),
                forall|i: int| hi <= i < rows.len() ==> !comes_first(#[trigger] rows[i], e),
            decreases hi - lo,
        {
            let mid: usize = lo + (hi - lo) / 2;
            assert(rows[mid as int] == self.entries@[mid as int]@);
            proof {
                lemma_lex_total(rows[mid as int].key, key@);
            }
            let first = match compare(self.entries[mid].key.as_slice(), key) {
                Order::Less => true,
                Order::Equal => self.entries[mid].seq > seq,
                Order::Greater => false,
            };
            assert(first == comes_first(rows[mid as int], e));
            if first {
                assert forall|i: int| 0 <= i < mid + 1 implies comes_first(#[trigger] rows[i], e) by {
                    if i < mid {
                        assert(comes_first(rows[i], rows[mid as int]));
                        lemma_first_trans(rows[i], rows[mid as int], e);
                    }
                }
                lo = mid + 1;
            } else {
                assert forall|i: int| mid <= i < rows.len() implies !comes_first(
                    #[trigger] rows[i],
                    e,
                ) by {
                    if i > mid && comes_first(rows[i], e) {
                        assert(comes_first(rows[mid as int], rows[i]));
                        lemma_first_trans(rows[mid as int], rows[i], e);
                    }
                }
                hi = mid;
            }
        }
        lo
    }

    /// One write of a row that belongs to no object.
    pub fn apply(&mut self, key: Vec<u8>, seq: u64, value: Option<Vec<u8>>)
        requires
            old(self).wf(),
        ensures
            final(self).wf(),
            final(self)@ == mem_apply(old(self)@, key@, seq, value_view(value), ReplicaId(0)),
    {
        self.apply_object(key, seq, value, ReplicaId(0))
    }

    /// One write of a replica's row.
    pub fn apply_object(&mut self, key: Vec<u8>, seq: u64, value: Option<Vec<u8>>, rid: ReplicaId)
        requires
            old(self).wf(),
        ensures
            final(self).wf(),
            final(self)@ == mem_apply(old(self)@, key@, seq, value_view(value), rid),
    {
        let ghost v0 = value_view(value);
        let ghost rows = self@.rows;
        let ghost e = row_of(key@, seq, v0, rid);
        let p = self.seek(key.as_slice(), seq);
        proof {
            lemma_place(rows, e);
            assert(place_of(rows, e, p as int));
            lemma_place_unique(rows, e, p as int, ahead(rows, e) as int);
            lemma_with_row(rows, e);
        }
        let vlen: usize = match &value {
            Some(v) => v.len(),
            None => 0,
        };
        self.bytes = self.bytes.saturating_add(key.len()).saturating_add(vlen);
        let flags: u8 = if value.is_some() {
            FLAG_PUT
        } else {
            FLAG_DELETE
        };
        let replaces = p < self.entries.len() && self.entries[p].seq == seq && bytes_eq(
            self.entries[p].key.as_slice(),
            key.as_slice(),
        );
        let entry = SegmentEntry {
            key,
            value: match value {
                Some(v) => v,
                None => Vec::new(),
            },
            seq,
            flags,
            replica_id: rid,
        };
        assert(entry@ =~= e);
        let ghost before = self.entries@;
        proof {
            if p < before.len() {
                assert(rows[p as int] == before[p as int]@);
            }
        }
        if replaces {
            self.entries.set(p, entry);
            assert(entries_view(self.entries@) =~= rows.update(p as int, e));
        } else {
            self.entries.insert(p, entry);
            assert(entries_view(self.entries@) =~= rows.insert(p as int, e));
        }
    }

    /// The newest row of `key`.
    pub fn get(&self, key: &[u8]) -> (r: Option<&SegmentEntry>)
        requires
            self.wf(),
        ensures
            match r {
                Some(e) => first_of(self@.rows, key@) == Some(e@),
                None => first_of(self@.rows, key@) is None,
            },
    {
        proof {
            lemma_first_any(self@.rows, key@);
        }
        self.find(key, None)
    }

    /// The newest row of `key` that belongs to `rid`.
    pub fn get_by_rid(&self, key: &[u8], rid: ReplicaId) -> (r: Option<&SegmentEntry>)
        requires
            self.wf(),
        ensures
            match r {
                Some(e) => first_rid(self@.rows, key@, Some(rid)) == Some(e@),
                None => first_rid(self@.rows, key@, Some(rid)) is None,
            },
    {
        self.find(key, Some(rid))
    }

    fn find(&self, key: &[u8], want: Option<ReplicaId>) -> (r: Option<&SegmentEntry>)
        requires
            self.wf(),
        ensures
            match r {
                Some(e) => first_rid(self@.rows, key@, want) == Some(e@),
                None => first_rid(self@.rows, key@, want) is None,
            },
    {
        let ghost rows = self@.rows;
        let p = self.seek(key, u64::MAX);
        let mut i: usize = p;
        let ghost e = row_of(key@, u64::MAX, None, ReplicaId(0));
        assert forall|j: int| 0 <= j < p implies (#[trigger] rows[j]).key != key@ by {
            assert(comes_first(rows[j], e));
            lemma_lex_total(rows[j].key, key@);
        }
        while i < self.entries.len() && bytes_eq(self.entries[i].key.as_slice(), key)
            invariant
                p <= i <= self.entries@.len(),
                rows == self@.rows,
                rows.len() == self.entries@.len(),
                forall|j: int|
                    0 <= j < i ==> !((#[trigger] rows[j]).key == key@ && rid_matches(
                        want,
                        rows[j].replica_id,
                    )),
            decreases self.entries@.len() - i,
        {
            assert(rows[i as int] == self.entries@[i as int]@);
            let wanted = match want {
                None => true,
                Some(rid) => self.entries[i].replica_id.0 == rid.0,
            };
            if wanted {
                proof {
                    lemma_first_at(rows, key@, want, i as int);
                }
                return Some(&self.entries[i]);
            }
            i += 1;
        }
        proof {
            assert forall|j: int| 0 <= j < rows.len() implies !((#[trigger] rows[j]).key == key@
                && rid_matches(want, rows[j].replica_id)) by {
                if j >= i {
                    assert(rows[i as int] == self.entries@[i as int]@);
                    assert(rows[i as int].key != key@);
                    assert(!comes_first(rows[i as int], e));
                    lemma_lex_total(rows[i as int].key, key@);
                    if j > i {
                        assert(comes_first(rows[i as int], rows[j]));
                        if lex_lt(rows[i as int].key, rows[j].key) {
                            lemma_lex_trans(key@, rows[i as int].key, rows[j].key);
                        }
                        lemma_lex_total(rows[j].key, key@);
                    }
                }
            }
            lemma_first_none(rows, key@, want);
        }
        None
    }

    /// The newest row of every key that begins with `prefix`, by ascending
    /// key.
    pub fn prefix_heads(&self, prefix: &[u8]) -> (r: Vec<Row>)
        ensures
            rows_view(r@) == heads(self@.rows, prefix@, self@.rows.len()),
    {
        let mut out: Vec<Row> = Vec::new();
        let mut i: usize = 0;
        assert(rows_view(out@) =~= Seq::<RowV>::empty());
        while i < self.entries.len()
            invariant
                i <= self.entries@.len(),
                self@.rows.len() == self.entries@.len(),
                rows_view(out@) == heads(self@.rows, prefix@, i as nat),
            decreases self.entries@.len() - i,
        {
            let ghost before = rows_view(out@);
            let e = &self.entries[i];
            assert(self@.rows[i as int] == e@);
            let head = i == 0 || !bytes_eq(
                self.entries[i - 1].key.as_slice(),
                e.key.as_slice(),
            );
            if i > 0 {
                assert(self@.rows[i - 1] == self.entries@[i - 1]@);
            }
            if head && begins_with(e.key.as_slice(), prefix) {
                let row: Row = (to_vec(e.key.as_slice()), entry_value(e));
                let ghost rv = row_view(row);
                out.push(row);
                assert(rows_view(out@) =~= before.push(rv));
            }
            i += 1;
        }
        out
    }

    pub fn is_empty(&self) -> (r: bool)
        ensures
            r == (self@.rows.len() == 0),
    {
        self.entries.len() == 0
    }

    /// The bytes applied so far.
    pub fn bytes(&self) -> (r: usize)
        ensures
            r == self@.bytes,
    {
        self.bytes
    }

    /// Whether any row belongs to a replica.
    pub fn has_identity(&self) -> (r: bool)
        ensures
            r == has_replicas(self@.rows),
    {
        let mut i: usize = 0;
        while i < self.entries.len()
            invariant
                i <= self.entries@.len(),
                self@.rows.len() == self.entries@.len(),
                forall|j: int| 0 <= j < i ==> (#[trigger] self@.rows[j]).replica_id.0 == 0,
            decreases self.entries@.len() - i,
        {
            assert(self@.rows[i as int] == self.entries@[i as int]@);
            if self.entries[i].replica_id.0 != 0 {
                return true;
            }
            i += 1;
        }
        false
    }

    /// The rows, in order.
    pub fn into_entries(self) -> (r: Vec<SegmentEntry>)
        ensures
            entries_view(r@) == self@.rows,
    {
        self.entries
    }
}

/// Some row belongs to a replica.
pub open spec fn has_replicas(rows: Seq<EntryV>) -> bool {
    exists|i: int| 0 <= i < rows.len() && (#[trigger] rows[i]).replica_id.0 != 0
}

// ---------------------------------------------------------------------------
// Laws
/// A write no older than the key's rows is what the key reads as, and other
/// keys read as before.
pub proof fn write_is_read_back(rows: Seq<EntryV>, e: EntryV, other: Seq<u8>)
    requires
        in_order(rows),
        forall|i: int| 0 <= i < rows.len() && (#[trigger] rows[i]).key == e.key ==> rows[i].seq <= e.seq,
    ensures
        first_of(with_row(rows, e), e.key) == Some(e),
        other != e.key ==> first_of(with_row(rows, e), other) == first_of(rows, other),
{
    lemma_first_any(with_row(rows, e), e.key);
    lemma_first_any(with_row(rows, e), other);
    lemma_first_any(rows, other);
    rid_write_is_read_back(rows, e, None, other);
}

/// A write no older than the key's rows is what its replica reads, and other
/// keys and replicas read as before.
pub proof fn replica_write_is_read_back(rows: Seq<EntryV>, e: EntryV, other: Seq<u8>, rid: ReplicaId)
    requires
        in_order(rows),
        forall|i: int| 0 <= i < rows.len() && (#[trigger] rows[i]).key == e.key ==> rows[i].seq < e.seq,
    ensures
        first_rid(with_row(rows, e), e.key, Some(e.replica_id)) == Some(e),
        other != e.key || rid != e.replica_id ==> first_rid(with_row(rows, e), other, Some(rid))
            == first_rid(rows, other, Some(rid)),
{
    rid_write_is_read_back(rows, e, Some(e.replica_id), other);
    if other != e.key {
        rid_write_is_read_back(rows, e, Some(rid), other);
    } else if rid != e.replica_id {
        lemma_other_replica(rows, e, rid);
    }
}

proof fn rid_write_is_read_back(rows: Seq<EntryV>, e: EntryV, want: Option<ReplicaId>, other: Seq<u8>)
    requires
        in_order(rows),
        forall|i: int| 0 <= i < rows.len() && (#[trigger] rows[i]).key == e.key ==> rows[i].seq <= e.seq,
    ensures
        rid_matches(want, e.replica_id) ==> first_rid(with_row(rows, e), e.key, want) == Some(e),
        other != e.key ==> first_rid(with_row(rows, e), other, want) == first_rid(rows, other, want),
{
    lemma_place(rows, e);
    let p = ahead(rows, e) as int;
    let out = with_row(rows, e);
    if rid_matches(want, e.replica_id) {
        assert(out[p] == e);
        assert forall|j: int| 0 <= j < p implies (#[trigger] out[j]).key != e.key by {
            assert(out[j] == rows[j]);
            assert(comes_first(rows[j], e));
            lemma_lex_total(rows[j].key, e.key);
        }
        lemma_first_at(out, e.key, want, p);
    }
    if other != e.key {
        lemma_carry_over(rows, e, other, want);
    }
}

/// A lookup that the new row does not match finds what it found.
proof fn lemma_carry_over(rows: Seq<EntryV>, e: EntryV, key: Seq<u8>, want: Option<ReplicaId>)
    requires
        in_order(rows),
        !(e.key == key && rid_matches(want, e.replica_id)),
        forall|i: int|
            0 <= i < rows.len() && same_slot(#[trigger] rows[i], e) ==> !(rows[i].key == key
                && rid_matches(want, rows[i].replica_id)),
    ensures
        first_rid(with_row(rows, e), key, want) == first_rid(rows, key, want),
{
    lemma_place(rows, e);
    let p = ahead(rows, e) as int;
    let out = with_row(rows, e);
    let replaced = p < rows.len() && same_slot(rows[p], e);
    let i = lemma_first_place(rows, key, want);
    if first_rid(rows, key, want) is Some {
        let k = if i < p || replaced { i } else { i + 1 };
        assert(out[k] == rows[i]);
        assert forall|j: int| 0 <= j < k implies !((#[trigger] out[j]).key == key && rid_matches(
            want,
            out[j].replica_id,
        )) by {
            if j < p {
                assert(out[j] == rows[j]);
            } else if j > p {
                assert(out[j] == rows[if replaced { j } else { j - 1 }]);
            }
        }
        lemma_first_at(out, key, want, k);
    } else {
        assert forall|j: int| 0 <= j < out.len() implies !((#[trigger] out[j]).key == key
            && rid_matches(want, out[j].replica_id)) by {
            if j < p {
                assert(out[j] == rows[j]);
            } else if j > p {
                assert(out[j] == rows[if replaced { j } else { j - 1 }]);
            }
        }
        lemma_first_none(out, key, want);
    }
}

proof fn lemma_other_replica(rows: Seq<EntryV>, e: EntryV, rid: ReplicaId)
    requires
        in_order(rows),
        rid != e.replica_id,
        forall|i: int| 0 <= i < rows.len() && (#[trigger] rows[i]).key == e.key ==> rows[i].seq < e.seq,
    ensures
        first_rid(with_row(rows, e), e.key, Some(rid)) == first_rid(rows, e.key, Some(rid)),
{
    lemma_carry_over(rows, e, e.key, Some(rid));
}

} // verus!
