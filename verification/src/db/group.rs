//! Group commit: batches that wait together are made durable together.
//!
//! A group never exceeds its caps, but for a batch that exceeds them alone.
//! Batches keep the order in which they were submitted, each under its own
//! sequence, and the log holds the frames that single writes would have left.

use crate::db::batch::{batch_bytes_of, batch_ops_of, batch_size};
use crate::db::state::{db_apply, Db, DbV};
use crate::db::Config;
use crate::format::{ErrV, FormatError};
use crate::wal::{ops_view, Op, OpV};
use vstd::prelude::*;

verus! {

/// The batches of a group.
pub open spec fn group_view(s: Seq<Vec<Op>>) -> Seq<Seq<OpV>> {
    s.map_values(|b: Vec<Op>| ops_view(b@))
}

/// The changes of a group.
pub open spec fn group_ops(s: Seq<Seq<OpV>>) -> nat
    decreases s.len(),
{
    if s.len() == 0 {
        0
    } else {
        group_ops(s.drop_last()) + s.last().len()
    }
}

/// The bytes of a group.
pub open spec fn group_bytes(s: Seq<Seq<OpV>>) -> nat
    decreases s.len(),
{
    if s.len() == 0 {
        0
    } else {
        group_bytes(s.drop_last()) + batch_size(s.last())
    }
}

/// A group has reached a cap: it takes no more.
pub open spec fn is_full(s: Seq<Seq<OpV>>, config: Config) -> bool {
    group_ops(s) >= config.max_batch_ops || group_bytes(s) >= config.max_batch_bytes
}

/// A batch fits in a group.
pub open spec fn takes(s: Seq<Seq<OpV>>, b: Seq<OpV>, config: Config) -> bool {
    group_ops(s) + b.len() <= config.max_batch_ops && group_bytes(s) + batch_size(b)
        <= config.max_batch_bytes
}

/// Batches on their way to one commit.
pub struct Group {
    pub batches: Vec<Vec<Op>>,
    pub ops: usize,
    pub bytes: usize,
}

impl Group {
    pub open spec fn wf(&self) -> bool {
        &&& self.ops == group_ops(group_view(self.batches@))
        &&& self.bytes == group_bytes(group_view(self.batches@))
    }

    /// A group of one batch.
    pub fn start(first: Vec<Op>) -> (r: Group)
        requires
            batch_size(ops_view(first@)) <= usize::MAX,
        ensures
            r.wf(),
            group_view(r.batches@) == seq![ops_view(first@)],
    {
        let ops = batch_ops_of(&first);
        let bytes = batch_bytes_of(&first);
        let ghost v = ops_view(first@);
        let mut batches: Vec<Vec<Op>> = Vec::new();
        batches.push(first);
        proof {
            assert(group_view(batches@) =~= seq![v]);
            assert(seq![v].drop_last() =~= Seq::<Seq<OpV>>::empty());
            assert(group_ops(seq![v].drop_last()) == 0);
            assert(group_bytes(seq![v].drop_last()) == 0);
        }
        Group { batches, ops, bytes }
    }

    /// Whether the group takes no more.
    pub fn full(&self, config: &Config) -> (r: bool)
        requires
            self.wf(),
        ensures
            r == is_full(group_view(self.batches@), *config),
    {
        self.ops >= config.max_batch_ops || self.bytes >= config.max_batch_bytes
    }

    /// Adds a batch that fits; gives one back that does not, to lead the next
    /// group.
    pub fn offer(&mut self, batch: Vec<Op>, config: &Config) -> (r: Option<Vec<Op>>)
        requires
            old(self).wf(),
            batch_size(ops_view(batch@)) <= usize::MAX,
        ensures
            final(self).wf(),
            if takes(group_view(old(self).batches@), ops_view(batch@), *config) {
                r is None && group_view(final(self).batches@) == group_view(
                    old(self).batches@,
                ).push(ops_view(batch@))
            } else {
                r == Some(batch) && *final(self) == *old(self)
            },
    {
        let n = batch_ops_of(&batch);
        let b = batch_bytes_of(&batch);
        let ghost v = ops_view(batch@);
        let ghost before = group_view(self.batches@);
        if self.ops as u128 + n as u128 > config.max_batch_ops as u128 || self.bytes as u128
            + b as u128 > config.max_batch_bytes as u128 {
            return Some(batch);
        }
        self.ops = self.ops + n;
        self.bytes = self.bytes + b;
        self.batches.push(batch);
        proof {
            assert(group_view(self.batches@) =~= before.push(v));
            assert(before.push(v).drop_last() =~= before);
        }
        None
    }
}

/// A group that only took what fits is within its caps, unless it is a single
/// batch.
pub proof fn group_stays_within_caps(s: Seq<Seq<OpV>>, b: Seq<OpV>, config: Config)
    requires
        takes(s, b, config),
    ensures
        group_ops(s.push(b)) <= config.max_batch_ops,
        group_bytes(s.push(b)) <= config.max_batch_bytes,
{
    assert(s.push(b).drop_last() =~= s);
}

// ---------------------------------------------------------------------------
// Committing
/// The state after the first `n` batches of a group were applied, each under
/// its sequence. A batch that fails ends early; the group's outcome is then
/// the last failure.
pub open spec fn group_apply(s: DbV, group: Seq<Seq<OpV>>, seqs: Seq<u64>, n: nat) -> (
    DbV,
    Result<(), ErrV>,
)
    decreases n,
{
    if n == 0 {
        (s, Ok(()))
    } else {
        let (s1, r1) = group_apply(s, group, seqs, (n - 1) as nat);
        let (s2, r2) = db_apply(s1, seqs[n - 1], group[n - 1]);
        (
            s2,
            if r2 is Err {
                r2
            } else {
                r1
            },
        )
    }
}

impl Db {
    /// Takes the next sequence.
    pub fn take_seq(&mut self) -> (r: u64)
        requires
            old(self).wf(),
            old(self)@.next_seq < u64::MAX,
        ensures
            final(self).wf(),
            final(self).config == old(self).config,
            r == old(self)@.next_seq,
            final(self)@ == (DbV { next_seq: (old(self)@.next_seq + 1) as u64, ..old(self)@ }),
    {
        let seq = self.next_seq;
        self.next_seq = seq + 1;
        seq
    }

    /// Ends a group commit. Where the group did not reach the log, its
    /// failure; else every batch is applied, in order.
    pub fn commit_group(
        &mut self,
        group: &Vec<Vec<Op>>,
        seqs: &Vec<u64>,
        logged: Result<(), FormatError>,
    ) -> (r: Result<(), FormatError>)
        requires
            old(self).wf(),
            logged is Ok ==> seqs@.len() == group@.len(),
        ensures
            final(self).wf(),
            final(self).config == old(self).config,
            match logged {
                Err(e) => r == Err::<(), FormatError>(e) && final(self)@ == old(self)@,
                Ok(_) => {
                    let (after, done) = group_apply(
                        old(self)@,
                        group_view(group@),
                        seqs@,
                        group@.len(),
                    );
                    &&& final(self)@ == after
                    &&& crate::format::rv(r) == done
                },
            },
    {
        match logged {
            Err(e) => {
                return Err(e);
            },
            Ok(_) => {},
        }
        let ghost s0 = self@;
        let ghost v = group_view(group@);
        let mut outcome: Result<(), FormatError> = Ok(());
        let mut i: usize = 0;
        while i < group.len()
            invariant
                i <= group@.len(),
                self.wf(),
                self.config == old(self).config,
                seqs@.len() == group@.len(),
                v == group_view(group@),
                group_apply(s0, v, seqs@, i as nat) == (self@, crate::format::rv(outcome)),
            decreases group@.len() - i,
        {
            assert(v[i as int] == ops_view(group@[i as int]@));
            match self.finish_write(seqs[i], &group[i], Ok(())) {
                Err(e) => {
                    outcome = Err(e);
                },
                Ok(_) => {},
            }
            i += 1;
        }
        outcome
    }
}

/// A group whose batches all succeed leaves the state that single writes
/// leave, one after the other.
pub proof fn group_is_a_sequence_of_writes(
    s: DbV,
    group: Seq<Seq<OpV>>,
    seqs: Seq<u64>,
    n: nat,
)
    requires
        0 < n <= group.len(),
        seqs.len() == group.len(),
    ensures
        group_apply(s, group, seqs, n).0 == db_apply(
            group_apply(s, group, seqs, (n - 1) as nat).0,
            seqs[n - 1],
            group[n - 1],
        ).0,
        group_apply(s, group, seqs, n).1 is Ok <==> group_apply(s, group, seqs, (n - 1) as nat).1 is Ok
            && db_apply(
            group_apply(s, group, seqs, (n - 1) as nat).0,
            seqs[n - 1],
            group[n - 1],
        ).1 is Ok,
{
}

} // verus!
