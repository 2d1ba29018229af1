//! What a migration reads of a legacy log, and what its checks accept.

use crate::codec::{le, lemma_le_len, lemma_le_un_le, lemma_pow256, lemma_un_le_le, pow256, un_le};
use crate::db::laws::seqs_below;
use crate::db::reach_laws::{last_left, left_at};
use crate::db::read::db_get;
use crate::db::scan::LiveV;
use crate::db::state::{db_apply, DbV};
use crate::db::write_laws::batch_is_read_back;
use crate::format::{has_at, lemma_has_all, lemma_has_is, lemma_has_split, ErrV, FormatError};
use crate::memtable::mem_ok;
use crate::migration::{
    check_down, check_one, decode_legacy_batch, deletes_in, effect, legacy_batch, legacy_bytes,
    legacy_dels, legacy_number, legacy_puts, next_step, overwritten, puts_in, rows_bytes, Found,
    Step,
};
use crate::wal::{ops_view, Op, OpV};
use vstd::prelude::*;

verus! {

// ---------------------------------------------------------------------------
// Records
/// Bytes behind their length in four bytes.
pub open spec fn sized(s: Seq<u8>) -> Seq<u8> {
    le(s.len(), 4) + s
}

/// The puts of a record: each key and each value behind its length.
pub open spec fn puts_written(puts: Seq<(Seq<u8>, Seq<u8>)>) -> Seq<u8>
    decreases puts.len(),
{
    if puts.len() == 0 {
        seq![]
    } else {
        puts_written(puts.drop_last()) + (sized(puts.last().0) + sized(puts.last().1))
    }
}

/// The deletions of a record: each key behind its length.
pub open spec fn dels_written(dels: Seq<Seq<u8>>) -> Seq<u8>
    decreases dels.len(),
{
    if dels.len() == 0 {
        seq![]
    } else {
        dels_written(dels.drop_last()) + sized(dels.last())
    }
}

/// The payload of a record: how many puts in two bytes, the puts, how many
/// deletions in two bytes, the deletions.
pub open spec fn record_written(puts: Seq<(Seq<u8>, Seq<u8>)>, dels: Seq<Seq<u8>>) -> Seq<u8> {
    le(puts.len(), 2) + (puts_written(puts) + (le(dels.len(), 2) + dels_written(dels)))
}

/// The counts and lengths of a record fit their fields.
pub open spec fn record_fits(puts: Seq<(Seq<u8>, Seq<u8>)>, dels: Seq<Seq<u8>>) -> bool {
    &&& puts.len() < 0x1_0000
    &&& dels.len() < 0x1_0000
    &&& forall|i: int|
        0 <= i < puts.len() ==> (#[trigger] puts[i]).0.len() < 0x1_0000_0000 && puts[i].1.len()
            < 0x1_0000_0000
    &&& forall|i: int| 0 <= i < dels.len() ==> (#[trigger] dels[i]).len() < 0x1_0000_0000
}

/// The changes of a record: its puts, then its deletions.
pub open spec fn record_changes(puts: Seq<(Seq<u8>, Seq<u8>)>, dels: Seq<Seq<u8>>) -> Seq<OpV> {
    Seq::new(
        (puts.len() + dels.len()) as nat,
        |i: int|
            if i < puts.len() {
                OpV::Put(puts[i].0, puts[i].1)
            } else {
                OpV::Delete(dels[i - puts.len()])
            },
    )
}

proof fn lemma_number(b: Seq<u8>, pos: int, x: nat, n: nat)
    requires
        has_at(b, pos, le(x, n)),
        x < pow256(n),
    ensures
        legacy_number(b, pos, n as int) == Ok::<nat, ErrV>(x),
{
    lemma_has_is(b, pos, le(x, n));
    lemma_le_len(x, n);
    lemma_un_le_le(x, n);
}

proof fn lemma_sized(b: Seq<u8>, pos: int, s: Seq<u8>)
    requires
        has_at(b, pos, sized(s)),
        s.len() < 0x1_0000_0000,
    ensures
        legacy_bytes(b, pos) == Ok::<(Seq<u8>, int), ErrV>((s, pos + sized(s).len())),
{
    lemma_pow256();
    lemma_le_len(s.len(), 4);
    lemma_has_split(b, pos, le(s.len(), 4), s);
    lemma_number(b, pos, s.len(), 4);
    lemma_has_is(b, pos + 4, s);
}

proof fn lemma_puts(b: Seq<u8>, pos: int, puts: Seq<(Seq<u8>, Seq<u8>)>)
    requires
        has_at(b, pos, puts_written(puts)),
        record_fits(puts, seq![]),
    ensures
        legacy_puts(b, pos, puts.len()) == Ok::<(Seq<OpV>, int), ErrV>(
            (record_changes(puts, seq![]), pos + puts_written(puts).len()),
        ),
    decreases puts.len(),
{
    let all = record_changes(puts, seq![]);
    if puts.len() > 0 {
        let front = puts.drop_last();
        let (k, v) = puts.last();
        lemma_has_split(b, pos, puts_written(front), sized(k) + sized(v));
        assert forall|i: int| 0 <= i < front.len() implies (#[trigger] front[i]).0.len()
            < 0x1_0000_0000 && front[i].1.len() < 0x1_0000_0000 by {
            assert(front[i] == puts[i]);
        }
        lemma_puts(b, pos, front);
        let p = pos + puts_written(front).len();
        lemma_has_split(b, p, sized(k), sized(v));
        assert(puts[puts.len() - 1] == (k, v));
        lemma_sized(b, p, k);
        lemma_sized(b, p + sized(k).len(), v);
        assert(all =~= record_changes(front, seq![]).push(OpV::Put(k, v)));
    } else {
        assert(all =~= seq![]);
    }
}

proof fn lemma_dels(b: Seq<u8>, pos: int, dels: Seq<Seq<u8>>)
    requires
        has_at(b, pos, dels_written(dels)),
        record_fits(seq![], dels),
    ensures
        legacy_dels(b, pos, dels.len()) == Ok::<(Seq<OpV>, int), ErrV>(
            (record_changes(seq![], dels), pos + dels_written(dels).len()),
        ),
    decreases dels.len(),
{
    let all = record_changes(seq![], dels);
    if dels.len() > 0 {
        let front = dels.drop_last();
        let k = dels.last();
        lemma_has_split(b, pos, dels_written(front), sized(k));
        assert forall|i: int| 0 <= i < front.len() implies (#[trigger] front[i]).len()
            < 0x1_0000_0000 by {
            assert(front[i] == dels[i]);
        }
        lemma_dels(b, pos, front);
        assert(dels[dels.len() - 1] == k);
        lemma_sized(b, pos + dels_written(front).len(), k);
        assert(all =~= record_changes(seq![], front).push(OpV::Delete(k)));
    } else {
        assert(all =~= seq![]);
    }
}

/// A record that was written decodes to its changes, whatever its keys and
/// values are.
pub proof fn record_round_trip(
    b: &[u8],
    r: Result<Vec<Op>, FormatError>,
    puts: Seq<(Seq<u8>, Seq<u8>)>,
    dels: Seq<Seq<u8>>,
)
    requires
        call_ensures(decode_legacy_batch, (b,), r),
        b@ == record_written(puts, dels),
        record_fits(puts, dels),
    ensures
        r is Ok,
        ops_view(r->Ok_0@) == record_changes(puts, dels),
        puts_in(ops_view(r->Ok_0@)) == puts.len(),
        deletes_in(ops_view(r->Ok_0@)) == dels.len(),
{
    lemma_record(b@, puts, dels);
    lemma_record_counts(puts, dels);
}

proof fn lemma_record(b: Seq<u8>, puts: Seq<(Seq<u8>, Seq<u8>)>, dels: Seq<Seq<u8>>)
    requires
        b == record_written(puts, dels),
        record_fits(puts, dels),
    ensures
        legacy_batch(b) == Ok::<Seq<OpV>, ErrV>(record_changes(puts, dels)),
{
    lemma_pow256();
    lemma_le_len(puts.len(), 2);
    lemma_le_len(dels.len(), 2);
    let tail = le(dels.len(), 2) + dels_written(dels);
    lemma_has_all(b);
    lemma_has_split(b, 0, le(puts.len(), 2), puts_written(puts) + tail);
    lemma_has_split(b, 2, puts_written(puts), tail);
    let p = 2int + puts_written(puts).len();
    lemma_has_split(b, p, le(dels.len(), 2), dels_written(dels));
    lemma_number(b, 0, puts.len(), 2);
    lemma_number(b, p, dels.len(), 2);
    lemma_puts(b, 2, puts);
    lemma_dels(b, p + 2, dels);
    assert(record_changes(puts, seq![]) + record_changes(seq![], dels) =~= record_changes(
        puts,
        dels,
    ));
}

proof fn lemma_record_counts(puts: Seq<(Seq<u8>, Seq<u8>)>, dels: Seq<Seq<u8>>)
    ensures
        puts_in(record_changes(puts, dels)) == puts.len(),
        deletes_in(record_changes(puts, dels)) == dels.len(),
    decreases puts.len() + dels.len(),
{
    let all = record_changes(puts, dels);
    if dels.len() > 0 {
        lemma_record_counts(puts, dels.drop_last());
        assert(all.drop_last() =~= record_changes(puts, dels.drop_last()));
    } else if puts.len() > 0 {
        lemma_record_counts(puts.drop_last(), dels);
        assert(all.drop_last() =~= record_changes(puts.drop_last(), dels));
    }
}

// ---------------------------------------------------------------------------
// Nothing else is accepted
proof fn lemma_bytes_back(b: Seq<u8>, pos: int)
    requires
        0 <= pos,
        legacy_bytes(b, pos) is Ok,
    ensures
        ({
            let (s, q) = legacy_bytes(b, pos)->Ok_0;
            &&& s.len() < 0x1_0000_0000
            &&& q == pos + sized(s).len() <= b.len()
            &&& b.subrange(pos, q) == sized(s)
        }),
{
    let (s, q) = legacy_bytes(b, pos)->Ok_0;
    let w = b.subrange(pos, pos + 4);
    lemma_pow256();
    lemma_le_un_le(w);
    assert(s.len() == un_le(w));
    assert(b.subrange(pos, q) =~= w + s);
}

proof fn lemma_puts_back(b: Seq<u8>, pos: int, n: nat) -> (puts: Seq<(Seq<u8>, Seq<u8>)>)
    requires
        0 <= pos <= b.len(),
        n < 0x1_0000,
        legacy_puts(b, pos, n) is Ok,
    ensures
        ({
            let (ops, q) = legacy_puts(b, pos, n)->Ok_0;
            &&& puts.len() == n
            &&& record_fits(puts, seq![])
            &&& ops == record_changes(puts, seq![])
            &&& pos <= q <= b.len()
            &&& b.subrange(pos, q) == puts_written(puts)
        }),
    decreases n,
{
    if n == 0 {
        let puts = Seq::<(Seq<u8>, Seq<u8>)>::empty();
        assert(record_changes(puts, seq![]) =~= seq![]);
        assert(b.subrange(pos, pos) =~= seq![]);
        puts
    } else {
        let front = lemma_puts_back(b, pos, (n - 1) as nat);
        let (ops, p) = legacy_puts(b, pos, (n - 1) as nat)->Ok_0;
        let (k, m) = legacy_bytes(b, p)->Ok_0;
        lemma_bytes_back(b, p);
        let (v, q) = legacy_bytes(b, m)->Ok_0;
        lemma_bytes_back(b, m);
        let puts = front.push((k, v));
        assert(puts.drop_last() =~= front);
        assert forall|i: int| 0 <= i < puts.len() implies (#[trigger] puts[i]).0.len()
            < 0x1_0000_0000 && puts[i].1.len() < 0x1_0000_0000 by {
            if i < front.len() {
                assert(puts[i] == front[i]);
            }
        }
        assert(record_changes(puts, seq![]) =~= record_changes(front, seq![]).push(
            OpV::Put(k, v),
        ));
        assert(b.subrange(pos, q) =~= b.subrange(pos, p) + (b.subrange(p, m) + b.subrange(m, q)));
        puts
    }
}

proof fn lemma_dels_back(b: Seq<u8>, pos: int, n: nat) -> (dels: Seq<Seq<u8>>)
    requires
        0 <= pos <= b.len(),
        n < 0x1_0000,
        legacy_dels(b, pos, n) is Ok,
    ensures
        ({
            let (ops, q) = legacy_dels(b, pos, n)->Ok_0;
            &&& dels.len() == n
            &&& record_fits(seq![], dels)
            &&& ops == record_changes(seq![], dels)
            &&& pos <= q <= b.len()
            &&& b.subrange(pos, q) == dels_written(dels)
        }),
    decreases n,
{
    if n == 0 {
        let dels = Seq::<Seq<u8>>::empty();
        assert(record_changes(seq![], dels) =~= seq![]);
        assert(b.subrange(pos, pos) =~= seq![]);
        dels
    } else {
        let front = lemma_dels_back(b, pos, (n - 1) as nat);
        let (ops, p) = legacy_dels(b, pos, (n - 1) as nat)->Ok_0;
        let (k, q) = legacy_bytes(b, p)->Ok_0;
        lemma_bytes_back(b, p);
        let dels = front.push(k);
        assert(dels.drop_last() =~= front);
        assert forall|i: int| 0 <= i < dels.len() implies (#[trigger] dels[i]).len()
            < 0x1_0000_0000 by {
            if i < front.len() {
                assert(dels[i] == front[i]);
            }
        }
        assert(record_changes(seq![], dels) =~= record_changes(seq![], front).push(
            OpV::Delete(k),
        ));
        assert(b.subrange(pos, q) =~= b.subrange(pos, p) + b.subrange(p, q));
        dels
    }
}

/// A record that decodes was written: its bytes are those of its changes, with
/// nothing before, between or behind them.
pub proof fn accepted_record_was_written(b: &[u8], r: Result<Vec<Op>, FormatError>) -> (w: (
    Seq<(Seq<u8>, Seq<u8>)>,
    Seq<Seq<u8>>,
))
    requires
        call_ensures(decode_legacy_batch, (b,), r),
        r is Ok,
    ensures
        record_fits(w.0, w.1),
        b@ == record_written(w.0, w.1),
        ops_view(r->Ok_0@) == record_changes(w.0, w.1),
{
    let s = b@;
    lemma_pow256();
    let n = legacy_number(s, 0, 2)->Ok_0;
    lemma_le_un_le(s.subrange(0, 2));
    let puts = lemma_puts_back(s, 2, n);
    let p = (legacy_puts(s, 2, n)->Ok_0).1;
    let m = legacy_number(s, p, 2)->Ok_0;
    lemma_le_un_le(s.subrange(p, p + 2));
    let dels = lemma_dels_back(s, p + 2, m);
    assert(s =~= s.subrange(0, 2) + (s.subrange(2, p) + (s.subrange(p, p + 2) + s.subrange(
        p + 2,
        s.len() as int,
    ))));
    assert(record_changes(puts, seq![]) + record_changes(seq![], dels) =~= record_changes(
        puts,
        dels,
    ));
    (puts, dels)
}

// ---------------------------------------------------------------------------
// The walk
/// No record is lost on the way. A whole record is applied with all its
/// changes, and the walk goes on behind it. It ends only where the file does,
/// and there only with what is torn off at the very end; a torn record with a
/// sound one behind it, and any damage, is refused.
pub proof fn walk_loses_nothing(
    found: Found,
    pos: usize,
    eof: bool,
    left: bool,
    sound_after: bool,
    r: Result<Step, FormatError>,
    puts: Seq<(Seq<u8>, Seq<u8>)>,
    dels: Seq<Seq<u8>>,
)
    requires
        call_ensures(next_step, (found, pos, eof, left, sound_after), r),
        record_fits(puts, dels),
    ensures
        found is Complete && found->payload@ == record_written(puts, dels) ==> r is Ok && r->Ok_0
            is Apply && ops_view(r->Ok_0->ops@) == record_changes(puts, dels) && r->Ok_0->Apply_end
            == found->end,
        r is Ok && r->Ok_0 is Apply ==> found is Complete,
        r is Ok && r->Ok_0 is Done ==> found is TornTail && eof && !(left && sound_after),
        r is Ok && r->Ok_0 is Done ==> (r->Ok_0->torn <==> left),
        r is Ok && r->Ok_0 is Read ==> found is TornTail && !eof && (r->Ok_0->Read_drain <==> pos
            > 0),
        found is TornTail && !eof ==> r is Ok && r->Ok_0 is Read,
        found is TornTail && eof && left && sound_after ==> r is Err && r->Err_0@ is Corrupt,
        found is TornTail && eof && !(left && sound_after) ==> r is Ok && r->Ok_0 is Done,
        found is Damaged ==> r is Err && r->Err_0@ is Corrupt,
{
    if let Found::Complete { payload, end } = found {
        if payload@ == record_written(puts, dels) {
            lemma_record(payload@, puts, dels);
        }
    }
}

// ---------------------------------------------------------------------------
// Checks
/// The changes that a legacy record can carry.
pub open spec fn plain(ops: Seq<OpV>) -> bool {
    forall|i: int| 0 <= i < ops.len() ==> (#[trigger] ops[i]) is Put || ops[i] is Delete
}

proof fn lemma_last_at(ops: Seq<OpV>, n: nat, key: Seq<u8>) -> (i: int)
    requires
        n <= ops.len(),
        last_left(ops, n, key) is Some,
    ensures
        0 <= i < n,
        left_at(ops[i], key) == last_left(ops, n, key),
        forall|j: int| i < j < n ==> left_at(#[trigger] ops[j], key) is None,
    decreases n,
{
    if left_at(ops[n - 1], key) is Some {
        n - 1
    } else {
        lemma_last_at(ops, (n - 1) as nat, key)
    }
}

proof fn lemma_last_of(ops: Seq<OpV>, n: nat, key: Seq<u8>, i: int)
    requires
        0 <= i < n <= ops.len(),
        left_at(ops[i], key) is Some,
        forall|j: int| i < j < n ==> left_at(#[trigger] ops[j], key) is None,
    ensures
        last_left(ops, n, key) == left_at(ops[i], key),
    decreases n,
{
    if i < n - 1 {
        assert(left_at(ops[n - 1], key) is None);
        lemma_last_of(ops, (n - 1) as nat, key, i);
    }
}

proof fn lemma_checked(s: DbV, ops: Seq<OpV>, n: nat, i: int)
    requires
        0 <= i < n <= ops.len(),
        check_down(s, ops, n) is Ok,
    ensures
        check_one(s, ops, i) is Ok,
    decreases n,
{
    if i < n - 1 {
        lemma_checked(s, ops, (n - 1) as nat, i);
    }
}

proof fn lemma_all_checked(s: DbV, ops: Seq<OpV>, n: nat)
    requires
        n <= ops.len(),
        forall|i: int| 0 <= i < n ==> #[trigger] check_one(s, ops, i) is Ok,
    ensures
        check_down(s, ops, n) is Ok,
    decreases n,
{
    if n > 0 {
        assert(check_one(s, ops, n - 1) is Ok);
        lemma_all_checked(s, ops, (n - 1) as nat);
    }
}

/// A batch passes the check exactly where every key that it changes reads as
/// its last change left it.
pub proof fn check_accepts_what_was_applied(s: DbV, ops: Seq<OpV>)
    requires
        plain(ops),
    ensures
        check_down(s, ops, ops.len()) is Ok <==> (forall|key: Seq<u8>|
            #[trigger] last_left(ops, ops.len(), key) is Some ==> db_get(s, key) == Ok::<
                Option<Seq<u8>>,
                ErrV,
            >(last_left(ops, ops.len(), key)->0)),
{
    let n = ops.len();
    if check_down(s, ops, n) is Ok {
        assert forall|key: Seq<u8>| #[trigger] last_left(ops, n, key) is Some implies db_get(s, key)
            == Ok::<Option<Seq<u8>>, ErrV>(last_left(ops, n, key)->0) by {
            let i = lemma_last_at(ops, n, key);
            lemma_checked(s, ops, n, i);
            assert(ops[i] is Put || ops[i] is Delete);
            assert(!overwritten(ops, i)) by {
                if overwritten(ops, i) {
                    let j = choose|j: int|
                        i < j < ops.len() && (#[trigger] effect(ops[j])) is Some && effect(
                            ops[i],
                        ) is Some && (effect(ops[j])->0).0 == (effect(ops[i])->0).0;
                    assert(left_at(ops[j], key) is None);
                }
            }
        }
    }
    if forall|key: Seq<u8>| #[trigger] last_left(ops, n, key) is Some ==> db_get(s, key) == Ok::<
        Option<Seq<u8>>,
        ErrV,
    >(last_left(ops, n, key)->0) {
        assert forall|i: int| 0 <= i < n implies #[trigger] check_one(s, ops, i) is Ok by {
            if effect(ops[i]) is Some && !overwritten(ops, i) {
                let key = (effect(ops[i])->0).0;
                assert forall|j: int| i < j < n implies left_at(#[trigger] ops[j], key) is None by {
                    assert(ops[j] is Put || ops[j] is Delete);
                    assert(effect(ops[j]) is Some);
                }
                lemma_last_of(ops, n, key, i);
                assert(last_left(ops, n, key) is Some);
            }
        }
        lemma_all_checked(s, ops, n);
    }
}

/// A record that was just applied passes the check.
pub proof fn applied_record_passes(s: DbV, ops: Seq<OpV>)
    requires
        plain(ops),
        mem_ok(s.active),
        seqs_below(s),
        db_apply(s, s.next_seq, ops).1 is Ok,
    ensures
        check_down(db_apply(s, s.next_seq, ops).0, ops, ops.len()) is Ok,
{
    let after = db_apply(s, s.next_seq, ops).0;
    assert forall|key: Seq<u8>| #[trigger] last_left(ops, ops.len(), key) is Some implies db_get(
        after,
        key,
    ) == Ok::<Option<Seq<u8>>, ErrV>(last_left(ops, ops.len(), key)->0) by {
        batch_is_read_back(s, ops, key);
    }
    check_accepts_what_was_applied(after, ops);
}

// ---------------------------------------------------------------------------
// Fingerprints
/// One row as bytes.
spec fn row_bytes(r: LiveV) -> Seq<u8> {
    le(r.0.len(), 8) + (r.0 + (le(r.1.len(), 8) + r.1))
}

proof fn lemma_rows_head(rows: Seq<LiveV>)
    requires
        rows.len() > 0,
    ensures
        rows_bytes(rows) == row_bytes(rows[0]) + rows_bytes(rows.skip(1)),
    decreases rows.len(),
{
    let front = rows.drop_last();
    let (k, v) = rows.last();
    if rows.len() == 1 {
        assert(rows_bytes(front) =~= seq![]);
        assert(rows_bytes(rows.skip(1)) =~= seq![]);
        assert(rows_bytes(rows) =~= row_bytes(rows[0]) + rows_bytes(rows.skip(1)));
    } else {
        lemma_rows_head(front);
        assert(front.skip(1) =~= rows.skip(1).drop_last());
        assert(rows.skip(1).last() == rows.last());
        assert(front[0] == rows[0]);
        assert(rows_bytes(rows) =~= row_bytes(rows[0]) + rows_bytes(rows.skip(1)));
    }
}

/// What a fingerprint digests tells rows apart: rows that differ anywhere, in a
/// key, a value, their order or their number, are other bytes.
pub proof fn digested_bytes_tell_rows_apart(a: Seq<LiveV>, b: Seq<LiveV>)
    requires
        forall|i: int|
            0 <= i < a.len() ==> (#[trigger] a[i]).0.len() <= u64::MAX && a[i].1.len() <= u64::MAX,
        forall|i: int|
            0 <= i < b.len() ==> (#[trigger] b[i]).0.len() <= u64::MAX && b[i].1.len() <= u64::MAX,
        rows_bytes(a) == rows_bytes(b),
    ensures
        a == b,
    decreases a.len(),
{
    if a.len() > 0 {
        lemma_rows_head(a);
        lemma_le_len(a[0].0.len(), 8);
    }
    if b.len() > 0 {
        lemma_rows_head(b);
        lemma_le_len(b[0].0.len(), 8);
    }
    if a.len() == 0 || b.len() == 0 {
        assert(rows_bytes(seq![]).len() == 0);
        assert(a.len() == 0 && b.len() == 0);
        assert(a =~= b);
    } else {
        let s = rows_bytes(a);
        let (ka, va) = a[0];
        let (kb, vb) = b[0];
        lemma_pow256();
        lemma_le_len(va.len(), 8);
        lemma_le_len(vb.len(), 8);
        lemma_un_le_le(ka.len(), 8);
        lemma_un_le_le(kb.len(), 8);
        lemma_un_le_le(va.len(), 8);
        lemma_un_le_le(vb.len(), 8);
        assert(s.take(8) =~= le(ka.len(), 8));
        assert(s.take(8) =~= le(kb.len(), 8));
        let n = ka.len() as int;
        assert(s.subrange(8, 8 + n) =~= ka);
        assert(s.subrange(8, 8 + n) =~= kb);
        assert(s.subrange(8 + n, 16 + n) =~= le(va.len(), 8));
        assert(s.subrange(8 + n, 16 + n) =~= le(vb.len(), 8));
        let m = va.len() as int;
        assert(s.subrange(16 + n, 16 + n + m) =~= va);
        assert(s.subrange(16 + n, 16 + n + m) =~= vb);
        assert(s.skip(16 + n + m) =~= rows_bytes(a.skip(1)));
        assert(s.skip(16 + n + m) =~= rows_bytes(b.skip(1)));
        assert forall|i: int| 0 <= i < a.skip(1).len() implies (#[trigger] a.skip(1)[i]).0.len()
            <= u64::MAX && a.skip(1)[i].1.len() <= u64::MAX by {
            assert(a.skip(1)[i] == a[i + 1]);
        }
        assert forall|i: int| 0 <= i < b.skip(1).len() implies (#[trigger] b.skip(1)[i]).0.len()
            <= u64::MAX && b.skip(1)[i].1.len() <= u64::MAX by {
            assert(b.skip(1)[i] == b[i + 1]);
        }
        digested_bytes_tell_rows_apart(a.skip(1), b.skip(1));
        assert(a =~= seq![a[0]] + a.skip(1));
        assert(b =~= seq![b[0]] + b.skip(1));
    }
}

} // verus!
