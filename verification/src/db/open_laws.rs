//! What comes back when a database opens again.

use crate::db::open::{
    checkpoint_view, identity_recovered, opened, placements_recovered, recovery, replicas_recovered,
    Files, Recovered,
};
use crate::db::place_laws::{opening_again_succeeds, placed_well};
use crate::db::reach_laws::{acknowledged_changes_are_read, last_acknowledged};
use crate::db::read::db_get;
use crate::db::recovery_laws::{committed, holds_segment, lemma_committed, segments_of};
use crate::db::flush::settled;
use crate::db::scan_laws::{made_ok, MadeV};
use crate::db::state::DbV;
use crate::format::{ErrV, FormatError, ManifestV};
use crate::identity::logical_id::LogicalId;
use crate::identity::replica_id::ReplicaId;
use crate::memtable::mem_empty;
use crate::placement::directory::Placement;
use crate::wal::{frame_of, stream_bytes, stream_fits, WalFrameV};
use vstd::prelude::*;

verus! {

/// Frames that can be written have ascending sequences.
proof fn lemma_frames_ascend(fs: Seq<WalFrameV>, last: Option<u64>)
    requires
        stream_fits(fs, last),
    ensures
        last is Some ==> forall|i: int| 0 <= i < fs.len() ==> last->0 < (#[trigger] fs[i]).seq,
        forall|i: int, j: int|
            #![trigger fs[i], fs[j]]
            0 <= i < j < fs.len() ==> fs[i].seq < fs[j].seq,
    decreases fs.len(),
{
    if fs.len() > 0 {
        let rest = fs.skip(1);
        lemma_frames_ascend(rest, Some(fs[0].seq));
        assert forall|i: int| 1 <= i < fs.len() implies fs[0].seq < (#[trigger] fs[i]).seq by {
            assert(rest[i - 1] == fs[i]);
        }
        assert forall|i: int, j: int|
            #![trigger fs[i], fs[j]]
            0 <= i < j < fs.len() implies fs[i].seq < fs[j].seq by {
            if i > 0 {
                assert(rest[i - 1] == fs[i] && rest[j - 1] == fs[j]);
            }
        }
    }
}

/// A database that was left without a flush opens again, and every key reads as
/// its last acknowledged change left it; where none touched it, as it read
/// before the log. What was torn off the log's end is cut off it. `base` is the
/// database as the files without the log hold it, `before` what it was when it
/// was left.
pub proof fn acknowledged_changes_survive(
    base: DbV,
    before: DbV,
    current: u64,
    m: ManifestV,
    f: Files,
    made: Seq<MadeV>,
    fs: Seq<WalFrameV>,
    torn: Seq<u8>,
    r: Result<Recovered, FormatError>,
    key: Seq<u8>,
)
    requires
        placed_well(base),
        base.active == mem_empty(),
        base.immutables.len() == 0,
        base.segments == segments_of(made),
        base.dirs == settled(base.dirs),
        committed(base, fs, fs.len()) == Ok::<DbV, ErrV>(before),
        m.generation == current,
        m.segments == base.records,
        identity_recovered(checkpoint_view(f.checkpoint), f.identity@) == Ok::<
            Map<u128, LogicalId>,
            ErrV,
        >(base.dirs.identity),
        replicas_recovered(checkpoint_view(f.checkpoint), f.replicas@) == Ok::<
            Map<u64, ReplicaId>,
            ErrV,
        >(base.dirs.replicas),
        placements_recovered(checkpoint_view(f.checkpoint), f.placements@) == Ok::<
            Map<u64, Placement>,
            ErrV,
        >(base.dirs.placements),
        f.segments@.len() == made.len(),
        forall|i: int|
            0 <= i < made.len() ==> made_ok(#[trigger] made[i]) && holds_segment(
                f.segments@[i],
                made[i],
            ),
        stream_fits(fs, None),
        f.wal@ == stream_bytes(fs) + torn,
        forall|p: int| 0 <= p < torn.len() ==> frame_of(#[trigger] torn.skip(p)) is Err,
        recovery(r, current, m, f),
    ensures
        r is Ok,
        r->Ok_0.wal_len == stream_bytes(fs).len(),
        db_get(opened(r->Ok_0), key) == (match last_acknowledged(fs, fs.len(), key) {
            Some(v) => Ok(v),
            None => db_get(base, key),
        }),
{
    opening_again_succeeds(base, before, current, m, f, made, fs, torn, r);
    lemma_committed(base, fs, fs.len());
    lemma_frames_ascend(fs, None);
    acknowledged_changes_are_read(base, before, fs, key);
    let after = opened(r->Ok_0);
    assert(after.immutables =~= before.immutables);
    assert(db_get(after, key) == db_get(before, key));
}

} // verus!
