//! What pruning behind a checkpoint removes, and that recovery does not miss
//! it.

use crate::checkpoint::{obsolete, obsolete_in, prune_deltas_before, CheckpointV};
use crate::db::open::{identity_recovered, later, placements_recovered, replicas_recovered};
use crate::identity::directory::LogFile;
use crate::listing::{greatest, numbers_in};
use crate::listing_laws::{
    lemma_numbers_from, lemma_other_beginning, name_of, names_carry_their_generation, wanted,
};
use crate::text::{has_prefix, has_suffix, tagged_number};
use vstd::prelude::*;

verus! {

// ---------------------------------------------------------------------------
// What goes
/// The name of a checkpoint.
pub open spec fn checkpoint_name(g: u64) -> Seq<char> {
    name_of("CHECKPOINT-"@, g, ".log"@)
}

/// A family of directory logs, by the beginning of its names.
pub open spec fn is_family(tag: Seq<char>) -> bool {
    tag == "IDENTITY-"@ || tag == "REPLICA-"@ || tag == "PLACEMENT-"@
}

proof fn lemma_tags()
    ensures
        "IDENTITY-"@.len() == 9,
        "REPLICA-"@.len() == 8,
        "PLACEMENT-"@.len() == 10,
        "CHECKPOINT-"@.len() == 11,
        "IDENTITY-"@[0] == 'I',
        "REPLICA-"@[0] == 'R',
        "PLACEMENT-"@[0] == 'P',
        "CHECKPOINT-"@[0] == 'C',
{
    reveal_strlit("IDENTITY-");
    reveal_strlit("REPLICA-");
    reveal_strlit("PLACEMENT-");
    reveal_strlit("CHECKPOINT-");
}

/// A name that begins with `tag` carries no generation of another family.
proof fn lemma_own_family(name: Seq<char>, tag: Seq<char>)
    requires
        is_family(tag) || tag == "CHECKPOINT-"@,
        has_prefix(name, tag),
    ensures
        tag != "IDENTITY-"@ ==> tagged_number(name, "IDENTITY-"@, ".log"@) is None,
        tag != "REPLICA-"@ ==> tagged_number(name, "REPLICA-"@, ".log"@) is None,
        tag != "PLACEMENT-"@ ==> tagged_number(name, "PLACEMENT-"@, ".log"@) is None,
        tag != "CHECKPOINT-"@ ==> tagged_number(name, "CHECKPOINT-"@, ".log"@) is None,
{
    lemma_tags();
    assert(name.take(tag.len() as int)[0] == name[0]);
    assert(name[0] == tag[0]);
    if tag != "IDENTITY-"@ {
        lemma_other_beginning(name, "IDENTITY-"@, ".log"@);
    }
    if tag != "REPLICA-"@ {
        lemma_other_beginning(name, "REPLICA-"@, ".log"@);
    }
    if tag != "PLACEMENT-"@ {
        lemma_other_beginning(name, "PLACEMENT-"@, ".log"@);
    }
    if tag != "CHECKPOINT-"@ {
        lemma_other_beginning(name, "CHECKPOINT-"@, ".log"@);
    }
}

/// A family's log is obsolete at or below the generation.
proof fn lemma_log_goes(tag: Seq<char>, name: Seq<char>, h: u64, g: u64)
    requires
        is_family(tag),
        tagged_number(name, tag, ".log"@) == Some(h),
    ensures
        obsolete(name, g) == (h <= g),
{
    lemma_tags();
    lemma_own_family(name, tag);
}

/// A checkpoint is obsolete below the generation.
proof fn lemma_checkpoint_goes(name: Seq<char>, h: u64, g: u64)
    requires
        tagged_number(name, "CHECKPOINT-"@, ".log"@) == Some(h),
    ensures
        obsolete(name, g) == (h < g),
{
    lemma_tags();
    lemma_own_family(name, "CHECKPOINT-"@);
}

proof fn lemma_positions(names: Seq<String>, g: u64)
    requires
        names.len() <= usize::MAX,
    ensures
        forall|k: int|
            0 <= k < obsolete_in(names, g).len() ==> (#[trigger] obsolete_in(names, g)[k])
                < names.len(),
        forall|k: int, l: int|
            #![trigger obsolete_in(names, g)[k], obsolete_in(names, g)[l]]
            0 <= k < l < obsolete_in(names, g).len() ==> obsolete_in(names, g)[k] < obsolete_in(
                names,
                g,
            )[l],
        forall|i: int|
            0 <= i < names.len() ==> #[trigger] obsolete_in(names, g).contains(i as usize)
                == obsolete(names[i]@, g),
    decreases names.len(),
{
    let all = obsolete_in(names, g);
    if names.len() > 0 {
        let front = names.drop_last();
        let before = obsolete_in(front, g);
        lemma_positions(front, g);
        assert forall|i: int| 0 <= i < names.len() implies #[trigger] all.contains(i as usize)
            == obsolete(names[i]@, g) by {
            if i < front.len() {
                assert(front[i] == names[i]);
                assert(before.contains(i as usize) == obsolete(front[i]@, g));
                if before.contains(i as usize) {
                    let k = choose|k: int| 0 <= k < before.len() && before[k] == i as usize;
                    assert(all[k] == i as usize);
                }
                if all.contains(i as usize) {
                    let k = choose|k: int| 0 <= k < all.len() && all[k] == i as usize;
                    assert(k < before.len());
                    assert(before[k] == i as usize);
                }
            } else {
                if obsolete(names[i]@, g) {
                    assert(all[before.len() as int] == i as usize);
                } else if all.contains(i as usize) {
                    let k = choose|k: int| 0 <= k < all.len() && all[k] == i as usize;
                    assert(before[k] < front.len());
                }
            }
        }
    }
}

/// What is obsolete is named like a log or a checkpoint.
proof fn lemma_obsolete_shape(name: Seq<char>, g: u64)
    requires
        obsolete(name, g),
    ensures
        has_suffix(name, ".log"@),
        exists|tag: Seq<char>|
            (is_family(tag) || tag == "CHECKPOINT-"@) && #[trigger] has_prefix(name, tag),
{
    let tag = if tagged_number(name, "IDENTITY-"@, ".log"@) is Some {
        "IDENTITY-"@
    } else if tagged_number(name, "REPLICA-"@, ".log"@) is Some {
        "REPLICA-"@
    } else if tagged_number(name, "PLACEMENT-"@, ".log"@) is Some {
        "PLACEMENT-"@
    } else {
        "CHECKPOINT-"@
    };
    assert(tagged_number(name, tag, ".log"@) is Some);
    assert(has_prefix(name, tag));
    let t = name.skip(tag.len() as int);
    assert(t.skip(t.len() - ".log"@.len()) =~= name.skip(name.len() - ".log"@.len()));
}

/// Pruning at a generation removes, of files under their names, the directory
/// logs at or below it and the older checkpoints: never the checkpoint of that
/// generation, never a later file, and nothing that is neither.
pub proof fn pruning_removes_what_is_covered(
    names: &Vec<String>,
    generation: u64,
    r: Vec<usize>,
    i: int,
    h: u64,
)
    requires
        call_ensures(prune_deltas_before, (names, generation), r),
        0 <= i < names@.len(),
        names@.len() <= usize::MAX,
    ensures
        forall|k: int, l: int|
            #![trigger r@[k], r@[l]]
            0 <= k < l < r@.len() ==> r@[k] < r@[l],
        forall|k: int| 0 <= k < r@.len() ==> (#[trigger] r@[k]) < names@.len(),
        names@[i]@ == checkpoint_name(h) ==> (r@.contains(i as usize) <==> h < generation),
        names@[i]@ == name_of("IDENTITY-"@, h, ".log"@) ==> (r@.contains(i as usize) <==> h
            <= generation),
        names@[i]@ == name_of("REPLICA-"@, h, ".log"@) ==> (r@.contains(i as usize) <==> h
            <= generation),
        names@[i]@ == name_of("PLACEMENT-"@, h, ".log"@) ==> (r@.contains(i as usize) <==> h
            <= generation),
        !has_suffix(names@[i]@, ".log"@) ==> !r@.contains(i as usize),
        !(exists|tag: Seq<char>|
            (is_family(tag) || tag == "CHECKPOINT-"@) && #[trigger] has_prefix(names@[i]@, tag))
            ==> !r@.contains(i as usize),
{
    lemma_positions(names@, generation);
    let name = names@[i]@;
    names_carry_their_generation("CHECKPOINT-"@, h, ".log"@);
    names_carry_their_generation("IDENTITY-"@, h, ".log"@);
    names_carry_their_generation("REPLICA-"@, h, ".log"@);
    names_carry_their_generation("PLACEMENT-"@, h, ".log"@);
    assert(r@.contains(i as usize) == obsolete(name, generation));
    if name == checkpoint_name(h) {
        lemma_checkpoint_goes(name, h, generation);
    }
    if name == name_of("IDENTITY-"@, h, ".log"@) {
        lemma_log_goes("IDENTITY-"@, name, h, generation);
    }
    if name == name_of("REPLICA-"@, h, ".log"@) {
        lemma_log_goes("REPLICA-"@, name, h, generation);
    }
    if name == name_of("PLACEMENT-"@, h, ".log"@) {
        lemma_log_goes("PLACEMENT-"@, name, h, generation);
    }
    if obsolete(name, generation) {
        lemma_obsolete_shape(name, generation);
    }
}

// ---------------------------------------------------------------------------
// What stays
/// The names of a listing that pruning leaves.
pub open spec fn names_left(names: Seq<String>, removed: Seq<usize>, n: nat) -> Seq<String>
    decreases n,
{
    if n == 0 {
        seq![]
    } else if removed.contains((n - 1) as usize) {
        names_left(names, removed, (n - 1) as nat)
    } else {
        names_left(names, removed, (n - 1) as nat).push(names[n - 1])
    }
}

proof fn lemma_left(names: Seq<String>, removed: Seq<usize>, n: nat, i: int)
    requires
        n <= names.len(),
        0 <= i < n,
        !removed.contains(i as usize),
    ensures
        names_left(names, removed, n).contains(names[i]),
    decreases n,
{
    let before = names_left(names, removed, (n - 1) as nat);
    let all = names_left(names, removed, n);
    if i < n - 1 {
        lemma_left(names, removed, (n - 1) as nat, i);
        let k = choose|k: int| 0 <= k < before.len() && before[k] == names[i];
        assert(all[k] == names[i]);
    } else {
        assert(all[before.len() as int] == names[i]);
    }
}

proof fn lemma_left_from(names: Seq<String>, removed: Seq<usize>, n: nat, k: int) -> (i: int)
    requires
        n <= names.len(),
        0 <= k < names_left(names, removed, n).len(),
    ensures
        0 <= i < n,
        names[i] == names_left(names, removed, n)[k],
    decreases n,
{
    let before = names_left(names, removed, (n - 1) as nat);
    if k < before.len() {
        lemma_left_from(names, removed, (n - 1) as nat, k)
    } else {
        n - 1
    }
}

/// After pruning at the generation of a checkpoint of the listing, recovery
/// finds the same newest checkpoint as before, at that generation or past it,
/// and of every family the same logs past it.
pub proof fn pruning_keeps_what_recovery_reads(
    names: &Vec<String>,
    generation: u64,
    r: Vec<usize>,
    at: int,
    current: u64,
    newest: Option<u64>,
    tag: Seq<char>,
    g: u64,
)
    requires
        call_ensures(prune_deltas_before, (names, generation), r),
        names@.len() <= usize::MAX,
        0 <= at < names@.len(),
        names@[at]@ == checkpoint_name(generation),
        generation <= current,
        greatest(newest, numbers_in(names@, "CHECKPOINT-"@, ".log"@, current, false)),
        is_family(tag),
    ensures
        ({
            let left = names_left(names@, r@, names@.len());
            &&& left.contains(names@[at])
            &&& newest is Some && newest->0 >= generation
            &&& greatest(newest, numbers_in(left, "CHECKPOINT-"@, ".log"@, current, false))
            &&& numbers_in(names@, tag, ".log"@, newest->0, true).contains(g) <==> numbers_in(
                left,
                tag,
                ".log"@,
                newest->0,
                true,
            ).contains(g)
        }),
{
    let all = names@;
    let left = names_left(all, r@, all.len());
    lemma_positions(all, generation);
    names_carry_their_generation("CHECKPOINT-"@, generation, ".log"@);
    lemma_checkpoint_goes(all[at]@, generation, generation);
    assert(!r@.contains(at as usize));
    lemma_left(all, r@, all.len(), at);
    let cs = numbers_in(all, "CHECKPOINT-"@, ".log"@, current, false);
    lemma_numbers_from(all, "CHECKPOINT-"@, ".log"@, current, false, generation);
    assert(cs.contains(generation));
    let z = choose|z: int| 0 <= z < cs.len() && cs[z] == generation;
    assert(cs[z] <= newest->0);
    let c = newest->0;
    // The newest checkpoint stays.
    lemma_numbers_from(all, "CHECKPOINT-"@, ".log"@, current, false, c);
    let i = choose|i: int|
        0 <= i < all.len() && tagged_number((#[trigger] all[i])@, "CHECKPOINT-"@, ".log"@) == Some(
            c,
        );
    lemma_checkpoint_goes(all[i]@, c, generation);
    assert(!r@.contains(i as usize));
    lemma_left(all, r@, all.len(), i);
    let k = choose|k: int| 0 <= k < left.len() && left[k] == all[i];
    assert(tagged_number(left[k]@, "CHECKPOINT-"@, ".log"@) == Some(c));
    lemma_numbers_from(left, "CHECKPOINT-"@, ".log"@, current, false, c);
    let ls = numbers_in(left, "CHECKPOINT-"@, ".log"@, current, false);
    assert forall|y: int| 0 <= y < ls.len() implies #[trigger] ls[y] <= c by {
        let x = ls[y];
        assert(ls.contains(x));
        lemma_numbers_from(left, "CHECKPOINT-"@, ".log"@, current, false, x);
        let q = choose|q: int|
            0 <= q < left.len() && tagged_number((#[trigger] left[q])@, "CHECKPOINT-"@, ".log"@)
                == Some(x);
        let p = lemma_left_from(all, r@, all.len(), q);
        assert(tagged_number(all[p]@, "CHECKPOINT-"@, ".log"@) == Some(x));
        lemma_numbers_from(all, "CHECKPOINT-"@, ".log"@, current, false, x);
        assert(cs.contains(x));
        let w = choose|w: int| 0 <= w < cs.len() && cs[w] == x;
        assert(cs[w] <= c);
    }
    // So do the logs past it.
    lemma_numbers_from(all, tag, ".log"@, c, true, g);
    lemma_numbers_from(left, tag, ".log"@, c, true, g);
    if wanted(g, c, true) && exists|p: int|
        0 <= p < all.len() && tagged_number((#[trigger] all[p])@, tag, ".log"@) == Some(g) {
        let p = choose|p: int|
            0 <= p < all.len() && tagged_number((#[trigger] all[p])@, tag, ".log"@) == Some(g);
        lemma_log_goes(tag, all[p]@, g, generation);
        assert(!r@.contains(p as usize));
        lemma_left(all, r@, all.len(), p);
        let q = choose|q: int| 0 <= q < left.len() && left[q] == all[p];
        assert(tagged_number(left[q]@, tag, ".log"@) == Some(g));
    }
    if exists|q: int|
        0 <= q < left.len() && tagged_number((#[trigger] left[q])@, tag, ".log"@) == Some(g) {
        let q = choose|q: int|
            0 <= q < left.len() && tagged_number((#[trigger] left[q])@, tag, ".log"@) == Some(g);
        let p = lemma_left_from(all, r@, all.len(), q);
        assert(tagged_number(all[p]@, tag, ".log"@) == Some(g));
    }
}

/// The logs of a family that pruning leaves.
pub open spec fn logs_left(files: Seq<LogFile>, tag: Seq<char>, generation: u64) -> Seq<LogFile>
    decreases files.len(),
{
    if files.len() == 0 {
        seq![]
    } else if obsolete(name_of(tag, files[0].generation, ".log"@), generation) {
        logs_left(files.skip(1), tag, generation)
    } else {
        seq![files[0]] + logs_left(files.skip(1), tag, generation)
    }
}

proof fn lemma_later_left(files: Seq<LogFile>, tag: Seq<char>, generation: u64, c: CheckpointV)
    requires
        is_family(tag),
        generation <= c.generation,
    ensures
        later(logs_left(files, tag, generation), Some(c)) == later(files, Some(c)),
    decreases files.len(),
{
    if files.len() > 0 {
        let f = files[0];
        let rest = files.skip(1);
        lemma_later_left(rest, tag, generation, c);
        names_carry_their_generation(tag, f.generation, ".log"@);
        lemma_log_goes(tag, name_of(tag, f.generation, ".log"@), f.generation, generation);
        if f.generation > generation {
            let kept = logs_left(files, tag, generation);
            assert(kept[0] == f);
            assert(kept.skip(1) =~= logs_left(rest, tag, generation));
        }
    }
}

/// With a checkpoint at the generation or past it, recovery gives the same
/// identities, replicas and placements whether or not the logs were pruned.
pub proof fn pruning_loses_no_binding(
    c: CheckpointV,
    generation: u64,
    identity: Seq<LogFile>,
    replicas: Seq<LogFile>,
    placements: Seq<LogFile>,
)
    requires
        generation <= c.generation,
    ensures
        identity_recovered(Some(c), logs_left(identity, "IDENTITY-"@, generation))
            == identity_recovered(Some(c), identity),
        replicas_recovered(Some(c), logs_left(replicas, "REPLICA-"@, generation))
            == replicas_recovered(Some(c), replicas),
        placements_recovered(Some(c), logs_left(placements, "PLACEMENT-"@, generation))
            == placements_recovered(Some(c), placements),
{
    lemma_later_left(identity, "IDENTITY-"@, generation, c);
    lemma_later_left(replicas, "REPLICA-"@, generation, c);
    lemma_later_left(placements, "PLACEMENT-"@, generation, c);
}

} // verus!
