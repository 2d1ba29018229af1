//! Migration of a legacy log.
//!
//! The records of the legacy log are read in bounded chunks, decoded one at a
//! time, applied, and checked against the destination at once. The source is
//! never changed. A torn record at the end was never acknowledged and is
//! dropped; one with sound data behind it is damage, and fails closed. At the
//! end the destination is flushed, closed and opened again, and must hold the
//! same rows.
//!
//! The payload of a legacy record (little-endian):
//! `n_puts u16 | (klen u32, k, vlen u32, v)* | n_dels u16 | (klen u32, k)*`

use crate::codec::{bytes_eq, push_bytes, push_u64, read_le, to_vec, un_le};
use crate::wal::{ops_view, Op, OpV};
use crate::db::read::db_get;
use crate::db::scan::{scan_rows_view, LiveV, ScanRow};
use crate::db::state::{Db, DbV};
use crate::format::{corrupt, ErrV, FormatError};
use crate::hash::{sha256, sha256_of};
use crate::memtable::{value_view};
use crate::text::{dec, Text};
use vstd::prelude::*;

verus! {

/// How much is read ahead.
pub const CHUNK: usize = 8388608;

/// What a migration did.
#[derive(Debug, Clone)]
pub struct MigrationReport {
    pub batches: u64,
    pub puts: u64,
    pub deletes: u64,
    /// The live keys of the destination, counted after it was opened again.
    pub keys: u64,
    pub torn_tail_dropped: bool,
    pub source: String,
    pub dest_dir: String,
}

/// A report before anything was migrated.
pub open spec fn report_begins(r: MigrationReport, source: Seq<char>, dest_dir: Seq<char>) -> bool {
    &&& r.batches == 0 && r.puts == 0 && r.deletes == 0 && r.keys == 0
    &&& !r.torn_tail_dropped
    &&& r.source@ == source
    &&& r.dest_dir@ == dest_dir
}

/// The counters of a report have room for a batch.
pub open spec fn report_room(r: MigrationReport, ops: nat) -> bool {
    r.batches < u64::MAX && r.puts + ops <= u64::MAX && r.deletes + ops <= u64::MAX
}

impl MigrationReport {
    pub fn begin(source: &str, dest_dir: &str) -> (r: Self)
        ensures
            report_begins(r, source@, dest_dir@),
    {
        MigrationReport {
            batches: 0,
            puts: 0,
            deletes: 0,
            keys: 0,
            torn_tail_dropped: false,
            source: source.to_string(),
            dest_dir: dest_dir.to_string(),
        }
    }

    /// Whether a batch of so many changes can be counted.
    pub fn has_room(&self, ops: usize) -> (r: bool)
        ensures
            r == report_room(*self, ops as nat),
    {
        let n: u64 = ops as u64;
        self.batches < u64::MAX && self.puts <= u64::MAX - n && self.deletes <= u64::MAX - n
    }

    /// Counts a batch that was applied.
    pub fn add_batch(&mut self, ops: &Vec<Op>)
        requires
            report_room(*old(self), ops@.len()),
        ensures
            final(self).batches == old(self).batches + 1,
            final(self).puts == old(self).puts + puts_in(ops_view(ops@)),
            final(self).deletes == old(self).deletes + deletes_in(ops_view(ops@)),
            final(self).keys == old(self).keys,
            final(self).torn_tail_dropped == old(self).torn_tail_dropped,
            final(self).source == old(self).source,
            final(self).dest_dir == old(self).dest_dir,
    {
        proof {
            lemma_changes_counted(ops_view(ops@));
        }
        let (puts, deletes) = count_changes(ops);
        self.batches = self.batches + 1;
        self.puts = self.puts + puts;
        self.deletes = self.deletes + deletes;
    }

    /// Ends a report: the live keys that were found, and whether a torn tail
    /// was dropped.
    pub fn finish(self, keys: u64, torn: bool) -> (r: Self)
        ensures
            r.keys == keys,
            r.torn_tail_dropped == torn,
            r.batches == self.batches,
            r.puts == self.puts,
            r.deletes == self.deletes,
            r.source == self.source,
            r.dest_dir == self.dest_dir,
    {
        MigrationReport {
            batches: self.batches,
            puts: self.puts,
            deletes: self.deletes,
            keys,
            torn_tail_dropped: torn,
            source: self.source,
            dest_dir: self.dest_dir,
        }
    }
}

proof fn lemma_changes_counted(ops: Seq<OpV>)
    ensures
        puts_in(ops) + deletes_in(ops) <= ops.len(),
    decreases ops.len(),
{
    if ops.len() > 0 {
        lemma_changes_counted(ops.drop_last());
    }
}

// ---------------------------------------------------------------------------
// Payloads
/// The next `n` bytes.
pub open spec fn legacy_take(b: Seq<u8>, pos: int, n: int) -> Result<Seq<u8>, ErrV> {
    if b.len() - pos < n {
        Err(ErrV::Corrupt("legacy batch payload truncated"@))
    } else {
        Ok(b.subrange(pos, pos + n))
    }
}

/// A number of `n` bytes.
pub open spec fn legacy_number(b: Seq<u8>, pos: int, n: int) -> Result<nat, ErrV> {
    match legacy_take(b, pos, n) {
        Err(e) => Err(e),
        Ok(s) => Ok(un_le(s)),
    }
}

/// Bytes behind their length, and the position behind them.
pub open spec fn legacy_bytes(b: Seq<u8>, pos: int) -> Result<(Seq<u8>, int), ErrV> {
    match legacy_number(b, pos, 4) {
        Err(e) => Err(e),
        Ok(n) => match legacy_take(b, pos + 4, n as int) {
            Err(e) => Err(e),
            Ok(s) => Ok((s, pos + 4 + n)),
        },
    }
}

/// One put.
pub open spec fn legacy_put(b: Seq<u8>, pos: int) -> Result<(OpV, int), ErrV> {
    match legacy_bytes(b, pos) {
        Err(e) => Err(e),
        Ok((k, p)) => match legacy_bytes(b, p) {
            Err(e) => Err(e),
            Ok((v, q)) => Ok((OpV::Put(k, v), q)),
        },
    }
}

/// The first `n` puts.
pub open spec fn legacy_puts(b: Seq<u8>, pos: int, n: nat) -> Result<(Seq<OpV>, int), ErrV>
    decreases n,
{
    if n == 0 {
        Ok((seq![], pos))
    } else {
        match legacy_puts(b, pos, (n - 1) as nat) {
            Err(e) => Err(e),
            Ok((ops, p)) => match legacy_put(b, p) {
                Err(e) => Err(e),
                Ok((m, q)) => Ok((ops.push(m), q)),
            },
        }
    }
}

/// The first `n` deletions.
pub open spec fn legacy_dels(b: Seq<u8>, pos: int, n: nat) -> Result<(Seq<OpV>, int), ErrV>
    decreases n,
{
    if n == 0 {
        Ok((seq![], pos))
    } else {
        match legacy_dels(b, pos, (n - 1) as nat) {
            Err(e) => Err(e),
            Ok((ops, p)) => match legacy_bytes(b, p) {
                Err(e) => Err(e),
                Ok((k, q)) => Ok((ops.push(OpV::Delete(k)), q)),
            },
        }
    }
}

/// The changes of a legacy record: its puts, then its deletions, and nothing
/// behind them.
pub open spec fn legacy_batch(b: Seq<u8>) -> Result<Seq<OpV>, ErrV> {
    match legacy_number(b, 0, 2) {
        Err(e) => Err(e),
        Ok(n) => match legacy_puts(b, 2, n) {
            Err(e) => Err(e),
            Ok((puts, p)) => match legacy_number(b, p, 2) {
                Err(e) => Err(e),
                Ok(m) => match legacy_dels(b, p + 2, m) {
                    Err(e) => Err(e),
                    Ok((dels, q)) => if q != b.len() {
                        Err(ErrV::Corrupt("trailing bytes in legacy record"@))
                    } else {
                        Ok(puts + dels)
                    },
                },
            },
        },
    }
}

/// A cursor over a legacy payload.
pub struct LegacyCursor<'a> {
    pub b: &'a [u8],
    pub pos: usize,
}

impl<'a> LegacyCursor<'a> {
    pub open spec fn wf(&self) -> bool {
        self.pos <= self.b@.len()
    }

    pub fn take(&mut self, n: usize) -> (r: Result<&'a [u8], FormatError>)
        requires
            old(self).wf(),
        ensures
            final(self).wf(),
            final(self).b == old(self).b,
            match r {
                Ok(s) => legacy_take(old(self).b@, old(self).pos as int, n as int) == Ok::<
                    Seq<u8>,
                    ErrV,
                >(s@) && final(self).pos == old(self).pos + n,
                Err(e) => legacy_take(old(self).b@, old(self).pos as int, n as int) == Err::<
                    Seq<u8>,
                    ErrV,
                >(e@),
            },
    {
        if self.b.len() - self.pos < n {
            return Err(corrupt("legacy batch payload truncated"));
        }
        let s = &self.b[self.pos..self.pos + n];
        self.pos = self.pos + n;
        Ok(s)
    }

    /// A number of `n` bytes.
    pub fn number(&mut self, n: usize) -> (r: Result<u64, FormatError>)
        requires
            old(self).wf(),
            n <= 8,
        ensures
            final(self).wf(),
            final(self).b == old(self).b,
            match r {
                Ok(x) => legacy_number(old(self).b@, old(self).pos as int, n as int) == Ok::<
                    nat,
                    ErrV,
                >(x as nat) && final(self).pos == old(self).pos + n,
                Err(e) => legacy_number(old(self).b@, old(self).pos as int, n as int) == Err::<
                    nat,
                    ErrV,
                >(e@),
            },
    {
        match self.take(n) {
            Err(e) => Err(e),
            Ok(s) => Ok(read_le(s)),
        }
    }

    /// Bytes behind their length.
    pub fn bytes(&mut self) -> (r: Result<Vec<u8>, FormatError>)
        requires
            old(self).wf(),
        ensures
            final(self).wf(),
            final(self).b == old(self).b,
            match r {
                Ok(v) => legacy_bytes(old(self).b@, old(self).pos as int) == Ok::<
                    (Seq<u8>, int),
                    ErrV,
                >((v@, final(self).pos as int)),
                Err(e) => legacy_bytes(old(self).b@, old(self).pos as int) == Err::<
                    (Seq<u8>, int),
                    ErrV,
                >(e@),
            },
    {
        let n = match self.number(4) {
            Err(e) => {
                return Err(e);
            },
            Ok(n) => n,
        };
        let size = self.b.len();
        if n > size as u64 {
            return Err(corrupt("legacy batch payload truncated"));
        }
        match self.take(n as usize) {
            Err(e) => Err(e),
            Ok(s) => Ok(to_vec(s)),
        }
    }
}

proof fn lemma_puts_err(b: Seq<u8>, pos: int, i: nat, n: nat)
    requires
        i <= n,
        legacy_puts(b, pos, i) is Err,
    ensures
        legacy_puts(b, pos, n) == legacy_puts(b, pos, i),
    decreases n - i,
{
    if i < n {
        lemma_puts_err(b, pos, i, (n - 1) as nat);
    }
}

proof fn lemma_dels_err(b: Seq<u8>, pos: int, i: nat, n: nat)
    requires
        i <= n,
        legacy_dels(b, pos, i) is Err,
    ensures
        legacy_dels(b, pos, n) == legacy_dels(b, pos, i),
    decreases n - i,
{
    if i < n {
        lemma_dels_err(b, pos, i, (n - 1) as nat);
    }
}

/// A batch of a legacy record, seen as a value.
pub open spec fn batch_rv(r: Result<Vec<Op>, FormatError>) -> Result<Seq<OpV>, ErrV> {
    match r {
        Ok(v) => Ok(ops_view(v@)),
        Err(e) => Err(e@),
    }
}

/// Decodes the payload of a legacy record.
pub fn decode_legacy_batch(payload: &[u8]) -> (r: Result<Vec<Op>, FormatError>)
    ensures
        batch_rv(r) == legacy_batch(payload@),
{
    let mut c = LegacyCursor { b: payload, pos: 0 };
    let ghost b = payload@;
    let mut ops: Vec<Op> = Vec::new();
    let n = match c.number(2) {
        Err(e) => {
            return Err(e);
        },
        Ok(n) => n,
    };
    let mut i: u64 = 0;
    assert(ops_view(ops@) =~= seq![]);
    while i < n
        invariant
            i <= n,
            c.wf(),
            c.b == payload,
            b == payload@,
            legacy_number(b, 0, 2) == Ok::<nat, ErrV>(n as nat),
            legacy_puts(b, 2, i as nat) == Ok::<(Seq<OpV>, int), ErrV>(
                (ops_view(ops@), c.pos as int),
            ),
        decreases n - i,
    {
        let ghost before = ops_view(ops@);
        let k = match c.bytes() {
            Err(e) => {
                proof {
                    lemma_puts_err(b, 2, (i + 1) as nat, n as nat);
                }
                return Err(e);
            },
            Ok(k) => k,
        };
        let v = match c.bytes() {
            Err(e) => {
                proof {
                    lemma_puts_err(b, 2, (i + 1) as nat, n as nat);
                }
                return Err(e);
            },
            Ok(v) => v,
        };
        let m = Op::Put(k, v);
        let ghost mv = m@;
        ops.push(m);
        assert(ops_view(ops@) =~= before.push(mv));
        i += 1;
    }
    let ghost puts = ops_view(ops@);
    let ghost at = c.pos as int;
    let m = match c.number(2) {
        Err(e) => {
            return Err(e);
        },
        Ok(m) => m,
    };
    let mut j: u64 = 0;
    let ghost mut dels: Seq<OpV> = seq![];
    assert(ops_view(ops@) =~= puts + dels);
    while j < m
        invariant
            j <= m,
            c.wf(),
            c.b == payload,
            b == payload@,
            legacy_number(b, 0, 2) == Ok::<nat, ErrV>(n as nat),
            legacy_puts(b, 2, n as nat) == Ok::<(Seq<OpV>, int), ErrV>((puts, at)),
            legacy_number(b, at, 2) == Ok::<nat, ErrV>(m as nat),
            legacy_dels(b, at + 2, j as nat) == Ok::<(Seq<OpV>, int), ErrV>(
                (dels, c.pos as int),
            ),
            ops_view(ops@) == puts + dels,
        decreases m - j,
    {
        let ghost before = ops_view(ops@);
        let k = match c.bytes() {
            Err(e) => {
                proof {
                    lemma_dels_err(b, at + 2, (j + 1) as nat, m as nat);
                }
                return Err(e);
            },
            Ok(k) => k,
        };
        let d = Op::Delete(k);
        let ghost dv = d@;
        ops.push(d);
        proof {
            assert(ops_view(ops@) =~= before.push(dv));
            assert(puts + dels.push(dv) =~= before.push(dv));
            dels = dels.push(dv);
        }
        j += 1;
    }
    if c.pos != payload.len() {
        return Err(corrupt("trailing bytes in legacy record"));
    }
    Ok(ops)
}

// ---------------------------------------------------------------------------
// The walk
/// What the envelope parser found at the position.
pub enum Found {
    /// A whole record, and where it ends.
    Complete { payload: Vec<u8>, end: usize },
    /// The bytes end within a record.
    TornTail,
    /// Damage, in the parser's words.
    Damaged(String),
}

/// What to do next.
pub enum Step {
    /// Apply the changes and go on at `end`; `drain` frees what lies before.
    Apply { ops: Vec<Op>, end: usize, drain: bool },
    /// Read on; `drain` frees what lies before first.
    Read { drain: bool },
    /// The end; whether a torn record was dropped.
    Done { torn: bool },
}

/// The next step: `left` is whether bytes lie at the position, `sound_after`
/// whether a sound record begins somewhere behind it.
pub open spec fn walk(
    found: Found,
    r: Result<Step, FormatError>,
    pos: int,
    eof: bool,
    left: bool,
    sound_after: bool,
) -> bool {
    match found {
        Found::Complete { payload, end } => match legacy_batch(payload@) {
            Err(e) => r is Err && r->Err_0@ == e,
            Ok(ops) => r matches Ok(Step::Apply { ops: o, end: x, drain: d }) && ops_view(o@)
                == ops && x == end && d == (end >= CHUNK),
        },
        Found::TornTail => if !eof {
            r matches Ok(Step::Read { drain: d }) && d == (pos > 0)
        } else if left && sound_after {
            r is Err && r->Err_0@ == ErrV::Corrupt("truncated record followed by valid data"@)
        } else {
            r matches Ok(Step::Done { torn: t }) && t == left
        },
        Found::Damaged(m) => r is Err && r->Err_0@ == ErrV::Corrupt(m@),
    }
}

/// Decides the next step of a migration.
pub fn next_step(found: Found, pos: usize, eof: bool, left: bool, sound_after: bool) -> (r: Result<
    Step,
    FormatError,
>)
    ensures
        walk(found, r, pos as int, eof, left, sound_after),
{
    match found {
        Found::Complete { payload, end } => match decode_legacy_batch(payload.as_slice()) {
            Err(e) => Err(e),
            Ok(ops) => Ok(Step::Apply { ops, end, drain: end >= CHUNK }),
        },
        Found::TornTail => {
            if !eof {
                Ok(Step::Read { drain: pos > 0 })
            } else if left && sound_after {
                Err(corrupt("truncated record followed by valid data"))
            } else {
                Ok(Step::Done { torn: left })
            }
        },
        Found::Damaged(m) => Err(FormatError::Corrupt(m)),
    }
}

// ---------------------------------------------------------------------------
// Counting and checking
/// How many changes are puts.
pub open spec fn puts_in(ops: Seq<OpV>) -> nat
    decreases ops.len(),
{
    if ops.len() == 0 {
        0
    } else {
        puts_in(ops.drop_last()) + (if ops.last() is Put {
            1nat
        } else {
            0
        })
    }
}

/// How many changes are deletions.
pub open spec fn deletes_in(ops: Seq<OpV>) -> nat
    decreases ops.len(),
{
    if ops.len() == 0 {
        0
    } else {
        deletes_in(ops.drop_last()) + (if ops.last() is Delete {
            1nat
        } else {
            0
        })
    }
}

/// Counts the puts and the deletions of a batch.
pub fn count_changes(ops: &Vec<Op>) -> (r: (u64, u64))
    ensures
        r.0 == puts_in(ops_view(ops@)),
        r.1 == deletes_in(ops_view(ops@)),
{
    let ghost v = ops_view(ops@);
    let mut puts: u64 = 0;
    let mut dels: u64 = 0;
    let mut i: usize = 0;
    assert(v.take(0) =~= seq![]);
    while i < ops.len()
        invariant
            i <= ops@.len(),
            v == ops_view(ops@),
            puts == puts_in(v.take(i as int)),
            dels == deletes_in(v.take(i as int)),
            puts <= i,
            dels <= i,
        decreases ops@.len() - i,
    {
        assert(v.take(i + 1).drop_last() =~= v.take(i as int));
        assert(v.take(i + 1).last() == ops@[i as int]@);
        match &ops[i] {
            Op::Put(..) => {
                puts = puts + 1;
            },
            Op::Delete(..) => {
                dels = dels + 1;
            },
            _ => {},
        }
        i += 1;
    }
    assert(v.take(i as int) =~= v);
    (puts, dels)
}

/// The key that a change writes, and what it then holds; none for changes that
/// a legacy record cannot carry.
pub open spec fn effect(m: OpV) -> Option<(Seq<u8>, Option<Seq<u8>>)> {
    match m {
        OpV::Put(k, v) => Some((k, Some(v))),
        OpV::Delete(k) => Some((k, None)),
        _ => None,
    }
}

/// A later change of the batch writes the same key.
pub open spec fn overwritten(ops: Seq<OpV>, i: int) -> bool {
    exists|j: int|
        i < j < ops.len() && (#[trigger] effect(ops[j])) is Some && effect(ops[i]) is Some
            && (effect(ops[j])->0).0 == (effect(ops[i])->0).0
}

/// The bytes as a list of numbers.
pub open spec fn byte_list(s: Seq<u8>, n: nat) -> Seq<char>
    decreases n,
{
    if n == 0 {
        "["@
    } else if n == 1 {
        byte_list(s, 0) + dec(s[0] as nat)
    } else {
        byte_list(s, (n - 1) as nat) + ", "@ + dec(s[n - 1] as nat)
    }
}

/// A value as diagnostics show it.
pub open spec fn value_text(v: Option<Seq<u8>>) -> Seq<char> {
    match v {
        Some(s) => "Some("@ + (byte_list(s, s.len()) + "]"@) + ")"@,
        None => "None"@,
    }
}

/// The text that `String::from_utf8_lossy` makes of bytes.
pub uninterp spec fn lossy_of(bytes: Seq<u8>) -> Seq<char>;

/// `String::from_utf8_lossy`: the text of the bytes, with what is not UTF-8
/// replaced. The contract names the text and says no more of it.
#[verifier::external_body]
fn lossy(bytes: &[u8]) -> (r: String)
    ensures
        r@ == lossy_of(bytes@),
{
    String::from_utf8_lossy(bytes).into_owned()
}

fn push_byte_list(t: Text, s: &[u8]) -> (r: Text)
    ensures
        r@ == t@ + (byte_list(s@, s@.len()) + "]"@),
{
    let ghost start = t@;
    let mut t = t.lit("[");
    let mut i: usize = 0;
    while i < s.len()
        invariant
            i <= s@.len(),
            t@ == start + byte_list(s@, i as nat),
        decreases s@.len() - i,
    {
        let ghost before = t@;
        if i > 0 {
            t = t.lit(", ");
        }
        t = t.num(s[i] as u64);
        proof {
            if i > 0 {
                assert(t@ =~= start + (byte_list(s@, i as nat) + ", "@ + dec(s@[i as int] as nat)));
            } else {
                assert(t@ =~= start + (byte_list(s@, 0) + dec(s@[0] as nat)));
            }
        }
        i += 1;
    }
    let r = t.lit("]");
    assert(r@ =~= start + (byte_list(s@, s@.len()) + "]"@));
    r
}

fn push_value(t: Text, v: Option<&[u8]>) -> (r: Text)
    ensures
        r@ == t@ + value_text(
            match v {
                Some(s) => Some(s@),
                None => None,
            },
        ),
{
    let ghost start = t@;
    match v {
        None => t.lit("None"),
        Some(s) => {
            let t = t.lit("Some(");
            let t = push_byte_list(t, s);
            let r = t.lit(")");
            assert(r@ =~= start + ("Some("@ + (byte_list(s@, s@.len()) + "]"@) + ")"@));
            r
        },
    }
}

/// What a check of change `i` against the destination gives.
pub open spec fn check_one(s: DbV, ops: Seq<OpV>, i: int) -> Result<(), ErrV> {
    match effect(ops[i]) {
        None => Ok(()),
        Some((key, want)) => if overwritten(ops, i) {
            Ok(())
        } else {
            match db_get(s, key) {
                Err(e) => Err(e),
                Ok(got) => if got == want {
                    Ok(())
                } else {
                    Err(
                        ErrV::Corrupt(
                            "frame verification failed for key "@ + lossy_of(key) + ": expected "@
                                + value_text(want) + ", got "@ + value_text(got),
                        ),
                    )
                },
            }
        },
    }
}

/// The checks of a batch, last change first, from change `i` down: the first
/// failure.
pub open spec fn check_down(s: DbV, ops: Seq<OpV>, i: nat) -> Result<(), ErrV>
    decreases i,
{
    if i == 0 {
        Ok(())
    } else {
        match check_one(s, ops, i - 1) {
            Err(e) => Err(e),
            Ok(_) => check_down(s, ops, (i - 1) as nat),
        }
    }
}

fn is_overwritten(ops: &Vec<Op>, i: usize, key: &[u8]) -> (r: bool)
    requires
        i < ops@.len(),
        effect(ops@[i as int]@) matches Some((k, _)) && k == key@,
    ensures
        r == overwritten(ops_view(ops@), i as int),
{
    let ghost v = ops_view(ops@);
    assert(v[i as int] == ops@[i as int]@);
    let len = ops.len();
    let mut j: usize = i + 1;
    while j < len
        invariant
            i < j <= ops@.len(),
            len == ops@.len(),
            v == ops_view(ops@),
            effect(v[i as int]) matches Some((k, _)) && k == key@,
            forall|x: int|
                i < x < j ==> !((#[trigger] effect(v[x])) is Some && (effect(v[x])->0).0 == key@),
        decreases ops@.len() - j,
    {
        assert(v[j as int] == ops@[j as int]@);
        let same = match &ops[j] {
            Op::Put(k, _) => bytes_eq(k.as_slice(), key),
            Op::Delete(k) => bytes_eq(k.as_slice(), key),
            _ => false,
        };
        if same {
            assert(effect(v[j as int]) is Some);
            return true;
        }
        j += 1;
    }
    false
}

fn value_is(got: &Option<Vec<u8>>, want: Option<&[u8]>) -> (r: bool)
    ensures
        r == (value_view(*got) == (match want {
            Some(w) => Some(w@),
            None => None,
        })),
{
    match (got, want) {
        (Some(g), Some(w)) => bytes_eq(g.as_slice(), w),
        (None, None) => true,
        _ => false,
    }
}

/// Checks one key of a batch against the destination.
fn check_key(db: &Db, key: &[u8], want: Option<&[u8]>) -> (r: Result<(), FormatError>)
    requires
        db.wf(),
    ensures
        ({
            let w = match want {
                Some(x) => Some(x@),
                None => None,
            };
            match db_get(db@, key@) {
                Err(e) => r is Err && r->Err_0@ == e,
                Ok(got) => if got == w {
                    r is Ok
                } else {
                    r is Err && r->Err_0@ == ErrV::Corrupt(
                        "frame verification failed for key "@ + lossy_of(key@) + ": expected "@
                            + value_text(w) + ", got "@ + value_text(got),
                    )
                },
            }
        }),
{
    let got = match db.get(key) {
        Err(e) => {
            return Err(e);
        },
        Ok(got) => got,
    };
    if value_is(&got, want) {
        return Ok(());
    }
    let name = lossy(key);
    let t = Text::new("frame verification failed for key ").lit(name.as_str()).lit(": expected ");
    let t = push_value(t, want).lit(", got ");
    let g: Option<&[u8]> = match &got {
        Some(v) => Some(v.as_slice()),
        None => None,
    };
    Err(FormatError::Corrupt(push_value(t, g).done()))
}

/// Checks the net effect of a batch against the destination that it was
/// applied to: the last change of each key must be what the key holds.
pub fn verify_batch(db: &Db, ops: &Vec<Op>) -> (r: Result<(), FormatError>)
    requires
        db.wf(),
    ensures
        crate::format::rv(r) == check_down(db@, ops_view(ops@), ops@.len()),
{
    let ghost v = ops_view(ops@);
    let mut i: usize = ops.len();
    while i > 0
        invariant
            i <= ops@.len(),
            db.wf(),
            v == ops_view(ops@),
            check_down(db@, v, ops@.len()) == check_down(db@, v, i as nat),
        decreases i,
    {
        i -= 1;
        assert(v[i as int] == ops@[i as int]@);
        let checked = match &ops[i] {
            Op::Put(k, x) => {
                if is_overwritten(ops, i, k.as_slice()) {
                    Ok(())
                } else {
                    check_key(db, k.as_slice(), Some(x.as_slice()))
                }
            },
            Op::Delete(k) => {
                if is_overwritten(ops, i, k.as_slice()) {
                    Ok(())
                } else {
                    check_key(db, k.as_slice(), None)
                }
            },
            _ => Ok(()),
        };
        match checked {
            Err(e) => {
                return Err(e);
            },
            Ok(_) => {},
        }
    }
    Ok(())
}

// ---------------------------------------------------------------------------
// Fingerprints
/// Rows as bytes: each key and each value behind its length.
pub open spec fn rows_bytes(rows: Seq<LiveV>) -> Seq<u8>
    decreases rows.len(),
{
    if rows.len() == 0 {
        seq![]
    } else {
        let (k, v) = rows.last();
        rows_bytes(rows.drop_last()) + crate::codec::le(k.len(), 8) + k + crate::codec::le(
            v.len(),
            8,
        ) + v
    }
}

/// The state of a database in two numbers: its live keys, and a digest of its
/// rows.
pub fn fingerprint(rows: &Vec<ScanRow>) -> (r: (u64, u64))
    ensures
        r.0 == rows@.len(),
        r.1 == un_le(sha256_of(rows_bytes(scan_rows_view(rows@))).take(8)),
{
    let ghost v = scan_rows_view(rows@);
    let mut out: Vec<u8> = Vec::new();
    let mut i: usize = 0;
    assert(v.take(0) =~= seq![]);
    assert(out@ =~= rows_bytes(v.take(0)));
    while i < rows.len()
        invariant
            i <= rows@.len(),
            v == scan_rows_view(rows@),
            out@ == rows_bytes(v.take(i as int)),
        decreases rows@.len() - i,
    {
        proof {
            assert(v.take(i + 1).drop_last() =~= v.take(i as int));
            assert(v.take(i + 1).last() == (rows@[i as int].0@, rows@[i as int].1@));
        }
        push_u64(&mut out, rows[i].0.len() as u64);
        push_bytes(&mut out, rows[i].0.as_slice());
        push_u64(&mut out, rows[i].1.len() as u64);
        push_bytes(&mut out, rows[i].1.as_slice());
        i += 1;
    }
    assert(v.take(i as int) =~= v);
    let d = sha256(out.as_slice());
    let s: &[u8] = d.as_slice();
    assert(s@.subrange(0, 8) =~= s@.take(8));
    (rows.len() as u64, read_le(&s[0..8]))
}

/// The state must be the same before the destination is closed and after it
/// is opened again.
pub fn check_reopened(before: (u64, u64), after: (u64, u64)) -> (r: Result<(), FormatError>)
    ensures
        r is Ok <==> before == after,
        r matches Err(e) ==> e@ == ErrV::Corrupt(
            "flush/reopen changed the migrated state ("@ + dec(before.0 as nat) + " live keys -> "@
                + dec(after.0 as nat) + ")"@,
        ),
{
    if before.0 != after.0 || before.1 != after.1 {
        return Err(
            FormatError::Corrupt(
                Text::new("flush/reopen changed the migrated state (").num(before.0).lit(
                    " live keys -> ",
                ).num(after.0).lit(")").done(),
            ),
        );
    }
    Ok(())
}

} // verus!
