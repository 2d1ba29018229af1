//! The settings of a database, the names of its files, the texts of its errors,
//! and when its counters are used up.

use crate::checkpoint::{checkpoint_path, delta_number, log_bytes_after, FileInfo};
use crate::compaction::run::archive_path;
use crate::db::room::{compact_room, stated_entries};
use crate::db::state::{Db, DbV};
use crate::db::{manifest_path, Config, DurabilityMode};
use crate::format::{error_text, verify_pair, Current, ErrV, FormatError, Manifest};
use crate::identity::directory::{identity_log_path, replica_log_path};
use crate::listing_laws::{name_of, names_carry_their_generation};
use crate::placement::directory::placement_log_path;
use crate::segment::open::{total_entries, SegV};
use crate::segment::write::segment_path;
use crate::text::{dec, join_spec, pad6};
use vstd::prelude::*;

verus! {

// ---------------------------------------------------------------------------
// Settings
/// The settings of a database that was given only a directory.
pub proof fn databases_have_their_defaults(dir: String, r: Config)
    requires
        call_ensures(Config::new, (dir,), r),
    ensures
        r.dir == dir,
        r.memtable_bytes == 64 * 1024 * 1024,
        r.block_target == 16 * 1024,
        r.durability == DurabilityMode::Sync,
        r.max_batch_ops == 4096,
        r.max_batch_bytes == 16 * 1024 * 1024,
        r.max_wait_nanos == 0,
        r.cache_bytes == 8 * 1024 * 1024,
        r.l0_compact_trigger == 4,
        r.l0_tier_ratio == 1,
        r.merge_chunk_bytes == 64 * 1024 * 1024,
{
}

/// A flush is due once the memtable has as many bytes as its cap.
pub proof fn flushes_are_due_at_the_cap(db: &Db, r: bool)
    requires
        call_ensures(Db::flush_due, (db,), r),
    ensures
        r <==> db.active.bytes >= db.config.memtable_bytes,
{
}

// ---------------------------------------------------------------------------
// Files
/// Every file goes by its kind and its number.
pub proof fn files_go_by_kind_and_number(
    dir: &str,
    n: u64,
    manifest: String,
    segment: String,
    checkpoint: String,
    identity: String,
    replica: String,
    placement: String,
)
    requires
        call_ensures(manifest_path, (dir, n), manifest),
        call_ensures(segment_path, (dir, n), segment),
        call_ensures(checkpoint_path, (dir, n), checkpoint),
        call_ensures(identity_log_path, (dir, n), identity),
        call_ensures(replica_log_path, (dir, n), replica),
        call_ensures(placement_log_path, (dir, n), placement),
    ensures
        manifest@ == join_spec(dir@, "MANIFEST-"@ + pad6(n as nat)),
        segment@ == join_spec(dir@, name_of("SEGMENT-"@, n, ".seg"@)),
        checkpoint@ == join_spec(dir@, name_of("CHECKPOINT-"@, n, ".log"@)),
        identity@ == join_spec(dir@, name_of("IDENTITY-"@, n, ".log"@)),
        replica@ == join_spec(dir@, name_of("REPLICA-"@, n, ".log"@)),
        placement@ == join_spec(dir@, name_of("PLACEMENT-"@, n, ".log"@)),
{
}

/// The lock and the log have names of their own.
pub proof fn lock_and_log_have_fixed_names()
    ensures
        crate::db::LOCK_FILE@ == "LOCK"@,
        crate::db::WAL_FILE@ == "WAL-000001.log"@,
{
}

/// The files of an archive lie in a directory of their own; the first has no
/// number behind that of the archive.
pub proof fn archives_lie_apart(dir: &str, id: u64, chunk: usize, r: String)
    requires
        call_ensures(archive_path, (dir, id, chunk), r),
    ensures
        chunk == 0 ==> r@ == join_spec(
            join_spec(dir@, "archive"@),
            name_of("ARCHIVE-"@, id, ".seg"@),
        ),
        chunk > 0 ==> r@ == join_spec(
            join_spec(dir@, "archive"@),
            "ARCHIVE-"@ + pad6(id as nat) + "-"@ + dec(chunk as nat) + ".seg"@,
        ),
{
}

/// A pointer and a manifest belong together exactly where they have one
/// generation.
pub proof fn pairs_have_one_generation(
    current: &Current,
    manifest: &Manifest,
    r: Result<(), FormatError>,
)
    requires
        call_ensures(verify_pair, (current, manifest), r),
    ensures
        r is Ok <==> current.manifest_generation == manifest.generation,
        r matches Err(e) ==> e@ is Corrupt,
{
}

/// The text of an error says its class and its message.
pub proof fn errors_say_their_class(m: Seq<char>)
    ensures
        error_text(ErrV::Corrupt(m)) == "corrupt: "@ + m,
        error_text(ErrV::Unsupported(m)) == "unsupported: "@ + m,
        error_text(ErrV::Io(m)) == "io: "@ + m,
        error_text(ErrV::Invalid(m)) == "invalid: "@ + m,
        error_text(ErrV::Locked(m)) == "locked: "@ + m,
{
}

/// The bytes of the directory logs past a generation: each such log counts its
/// size, once; no other file counts.
pub proof fn later_logs_are_measured(files: Seq<FileInfo>, f: FileInfo, h: u64, after: u64)
    ensures
        log_bytes_after(seq![], after) == 0,
        f.name@ == name_of("IDENTITY-"@, h, ".log"@) || f.name@ == name_of(
            "REPLICA-"@,
            h,
            ".log"@,
        ) || f.name@ == name_of("PLACEMENT-"@, h, ".log"@) ==> log_bytes_after(
            files.push(f),
            after,
        ) == log_bytes_after(files, after) + (if h > after && f.size is Some {
            f.size->0 as nat
        } else {
            0
        }),
        f.name@ == name_of("CHECKPOINT-"@, h, ".log"@) ==> log_bytes_after(files.push(f), after)
            == log_bytes_after(files, after),
        delta_number(f.name@) is None ==> log_bytes_after(files.push(f), after) == log_bytes_after(
            files,
            after,
        ),
{
    let all = files.push(f);
    assert(all.drop_last() =~= files);
    assert(all.last() == f);
    names_carry_their_generation("IDENTITY-"@, h, ".log"@);
    names_carry_their_generation("REPLICA-"@, h, ".log"@);
    names_carry_their_generation("PLACEMENT-"@, h, ".log"@);
    let name = f.name@;
    reveal_strlit("IDENTITY-");
    reveal_strlit("REPLICA-");
    reveal_strlit("PLACEMENT-");
    reveal_strlit("CHECKPOINT-");
    if name == name_of("REPLICA-"@, h, ".log"@) {
        assert(name[0] == 'R');
        crate::listing_laws::lemma_other_beginning(name, "IDENTITY-"@, ".log"@);
    }
    if name == name_of("PLACEMENT-"@, h, ".log"@) {
        assert(name[0] == 'P');
        crate::listing_laws::lemma_other_beginning(name, "IDENTITY-"@, ".log"@);
        crate::listing_laws::lemma_other_beginning(name, "REPLICA-"@, ".log"@);
    }
    if name == name_of("CHECKPOINT-"@, h, ".log"@) {
        assert(name[0] == 'C');
        crate::listing_laws::lemma_other_beginning(name, "IDENTITY-"@, ".log"@);
        crate::listing_laws::lemma_other_beginning(name, "REPLICA-"@, ".log"@);
        crate::listing_laws::lemma_other_beginning(name, "PLACEMENT-"@, ".log"@);
    }
}

// ---------------------------------------------------------------------------
// Room
/// What segments state adds up.
pub proof fn stated_entries_add_up(segs: Seq<SegV>, n: nat)
    requires
        n < segs.len(),
    ensures
        stated_entries(segs, 0) == 0,
        stated_entries(segs, (n + 1) as nat) == stated_entries(segs, n) + total_entries(
            segs[n as int].data,
        ),
{
}

/// A compaction is denied for want of numbers only where the counters are near
/// their end.
pub proof fn room_is_denied_only_at_the_end(s: DbV)
    requires
        stated_entries(s.segments, s.segments.len()) <= 0x100_0000_0000,
        s.next_segment_id <= 0x100_0000_0000_0000,
        s.generation < u64::MAX,
        s.next_placement_generation <= 0x100_0000_0000_0000,
        s.dirs.placements.len() <= 0x100_0000_0000_0000,
        usize::MAX == u64::MAX,
    ensures
        compact_room(s),
{
}

} // verus!
