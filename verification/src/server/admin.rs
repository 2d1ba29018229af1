//! What the administrative tools report.

use crate::text::{chars_end_with, chars_of, dec, has_suffix, join, join_spec, str_eq, Text};
use crate::server::json::{
    at_in, number_at, text_at, text_in, value_under, value_under_of, JsonAt, JsonAtV,
};
use vstd::prelude::*;

verus! {

/// The state of a stored object.
#[derive(Clone, Copy, Debug, PartialEq, Eq, Structural)]
pub enum LifecycleState {
    Discovered,
    Extracted,
    Proposed,
    Validated,
    Accepted,
    Draft,
    Active,
    Verified,
    Updated,
    Superseded,
    Archived,
    Deleted,
}

/// The class under which a state is counted: states on the way count as
/// drafts.
#[derive(Clone, Copy, Debug, PartialEq, Eq, Structural)]
pub enum StateClass {
    Draft,
    Active,
    Verified,
    Archived,
    Deleted,
}

pub open spec fn class_of(s: LifecycleState) -> StateClass {
    match s {
        LifecycleState::Active => StateClass::Active,
        LifecycleState::Verified => StateClass::Verified,
        LifecycleState::Archived => StateClass::Archived,
        LifecycleState::Deleted => StateClass::Deleted,
        _ => StateClass::Draft,
    }
}

/// How many states belong to a class.
pub open spec fn count_of(s: Seq<LifecycleState>, c: StateClass) -> nat
    decreases s.len(),
{
    if s.len() == 0 {
        0
    } else {
        count_of(s.drop_last(), c) + (if class_of(s.last()) == c {
            1nat
        } else {
            0
        })
    }
}

/// The objects of a store, by class.
#[derive(Clone, Copy, Debug, PartialEq, Eq, Structural)]
pub struct LifecycleCounts {
    pub total: u64,
    /// Those that are not deleted.
    pub live: u64,
    pub draft: u64,
    pub active: u64,
    pub verified: u64,
    pub archived: u64,
    pub deleted: u64,
}

/// Counts the states of a store.
pub fn count_states(states: &Vec<LifecycleState>) -> (r: LifecycleCounts)
    ensures
        r.total == states@.len(),
        r.draft == count_of(states@, StateClass::Draft),
        r.active == count_of(states@, StateClass::Active),
        r.verified == count_of(states@, StateClass::Verified),
        r.archived == count_of(states@, StateClass::Archived),
        r.deleted == count_of(states@, StateClass::Deleted),
        r.live == states@.len() - count_of(states@, StateClass::Deleted),
{
    let mut c = LifecycleCounts {
        total: 0,
        live: 0,
        draft: 0,
        active: 0,
        verified: 0,
        archived: 0,
        deleted: 0,
    };
    let n = states.len();
    let mut i: usize = 0;
    assert(states@.take(0) =~= seq![]);
    while i < n
        invariant
            n == states@.len(),
            i <= n,
            c.total == i,
            c.live + c.deleted == i,
            c.draft + c.active + c.verified + c.archived == c.live,
            c.draft == count_of(states@.take(i as int), StateClass::Draft),
            c.active == count_of(states@.take(i as int), StateClass::Active),
            c.verified == count_of(states@.take(i as int), StateClass::Verified),
            c.archived == count_of(states@.take(i as int), StateClass::Archived),
            c.deleted == count_of(states@.take(i as int), StateClass::Deleted),
        decreases n - i,
    {
        assert(states@.take(i + 1).drop_last() =~= states@.take(i as int));
        assert(states@.take(i + 1).last() == states@[i as int]);
        c.total = c.total + 1;
        match states[i] {
            LifecycleState::Active => {
                c.active = c.active + 1;
                c.live = c.live + 1;
            },
            LifecycleState::Verified => {
                c.verified = c.verified + 1;
                c.live = c.live + 1;
            },
            LifecycleState::Archived => {
                c.archived = c.archived + 1;
                c.live = c.live + 1;
            },
            LifecycleState::Deleted => {
                c.deleted = c.deleted + 1;
            },
            _ => {
                c.draft = c.draft + 1;
                c.live = c.live + 1;
            },
        }
        i += 1;
    }
    assert(states@.take(i as int) =~= states@);
    c
}

/// Every object is counted in exactly one class.
pub proof fn classes_partition(s: Seq<LifecycleState>)
    ensures
        count_of(s, StateClass::Draft) + count_of(s, StateClass::Active) + count_of(
            s,
            StateClass::Verified,
        ) + count_of(s, StateClass::Archived) + count_of(s, StateClass::Deleted) == s.len(),
    decreases s.len(),
{
    if s.len() > 0 {
        classes_partition(s.drop_last());
    }
}

/// How often a state occurs.
pub open spec fn occurrences(s: Seq<LifecycleState>, x: LifecycleState) -> nat
    decreases s.len(),
{
    if s.len() == 0 {
        0
    } else {
        occurrences(s.drop_last(), x) + (if s.last() == x {
            1nat
        } else {
            0
        })
    }
}

/// Counts the objects of one state.
pub fn count_state(states: &Vec<LifecycleState>, x: LifecycleState) -> (r: u64)
    ensures
        r == occurrences(states@, x),
{
    let mut count: u64 = 0;
    let n = states.len();
    let mut i: usize = 0;
    assert(states@.take(0) =~= seq![]);
    while i < n
        invariant
            n == states@.len(),
            i <= n,
            count <= i,
            count == occurrences(states@.take(i as int), x),
        decreases n - i,
    {
        assert(states@.take(i + 1).drop_last() =~= states@.take(i as int));
        assert(states@.take(i + 1).last() == states@[i as int]);
        if states[i] == x {
            count = count + 1;
        }
        i += 1;
    }
    assert(states@.take(i as int) =~= states@);
    count
}

/// A name of a data file: an ending, and something before it.
pub open spec fn is_data_name(name: Seq<char>) -> bool {
    name.len() > 5 && has_suffix(name, ".redb"@)
}

/// The first data file of a listing.
pub open spec fn first_data(names: Seq<String>, i: int) -> Option<Seq<char>>
    decreases names.len() - i,
{
    if i < 0 || i >= names.len() {
        None
    } else if is_data_name(names[i]@) {
        Some(names[i]@)
    } else {
        first_data(names, i + 1)
    }
}

/// The data file of a backup: the one named like the source, if it is there;
/// else the first data file of the directory.
pub fn backup_data_file(backup: &str, source: Option<&str>, source_exists: bool, names: &Vec<String>) -> (r:
    Result<String, String>)
    ensures
        match source {
            Some(f) if source_exists => r matches Ok(x) && x@ == backup@ + "/"@ + f@,
            _ => match first_data(names@, 0) {
                Some(n) => r matches Ok(x) && x@ == join_spec(backup@, n),
                None => r matches Err(e) && e@ == "backup data file missing"@,
            },
        },
{
    match source {
        Some(f) => {
            if source_exists {
                return Ok(Text::new(backup).lit("/").lit(f).done());
            }
        },
        None => {},
    }
    let mut i: usize = 0;
    while i < names.len()
        invariant
            i <= names@.len(),
            source is None || !source_exists,
            first_data(names@, 0) == first_data(names@, i as int),
        decreases names@.len() - i,
    {
        let cs = chars_of(names[i].as_str());
        if cs.len() > 5 && chars_end_with(&cs, ".redb") {
            return Ok(join(backup, names[i].as_str()));
        }
        i += 1;
    }
    Err("backup data file missing".to_string())
}

/// What is read of a backup's record: the source, the journal's sequence, the
/// number of objects, and the time.
pub type MetaParts = (Option<String>, Option<u64>, Option<u64>, Option<u64>);

/// What is read of a backup's record, as values.
pub type MetaPartsV = (Option<Seq<char>>, Option<u64>, Option<u64>, Option<u64>);

pub open spec fn meta_in(r: Result<MetaParts, String>) -> Result<MetaPartsV, Seq<char>> {
    match r {
        Ok(p) => Ok((text_in(p.0), p.1, p.2, p.3)),
        Err(e) => Err(e@),
    }
}

/// The members of a backup's record.
pub const META_SOURCE: &'static str = "source";

pub const META_JOURNAL_SEQ: &'static str = "journal_seq";

pub const META_OBJECT_COUNT: &'static str = "object_count";

pub const META_TIMESTAMP: &'static str = "timestamp";

/// What lies under a member.
pub open spec fn member_of(text: Seq<char>, name: Seq<char>) -> Result<JsonAtV, Seq<char>> {
    value_under_of(text, "/"@ + name)
}

fn member(text: &str, name: &str) -> (r: Result<JsonAt, String>)
    ensures
        at_in(r) == member_of(text@, name@),
{
    let pointer = Text::new("/").lit(name).done();
    value_under(text, pointer.as_str())
}

/// The record in a JSON text: the text of its source, and the numbers of its
/// other members; or why the text is no JSON.
pub open spec fn meta_of(text: Seq<char>) -> Result<MetaPartsV, Seq<char>> {
    match member_of(text, META_SOURCE@) {
        Err(e) => Err(e),
        Ok(source) => match member_of(text, META_JOURNAL_SEQ@) {
            Err(e) => Err(e),
            Ok(journal_seq) => match member_of(text, META_OBJECT_COUNT@) {
                Err(e) => Err(e),
                Ok(object_count) => match member_of(text, META_TIMESTAMP@) {
                    Err(e) => Err(e),
                    Ok(timestamp) => Ok(
                        (
                            text_at(source),
                            number_at(journal_seq),
                            number_at(object_count),
                            number_at(timestamp),
                        ),
                    ),
                },
            },
        },
    }
}

/// Reads the record in a JSON text.
pub fn parse_meta(text: &str) -> (r: Result<MetaParts, String>)
    ensures
        meta_in(r) == meta_of(text@),
{
    let source = match member(text, META_SOURCE) {
        Err(e) => {
            return Err(e);
        },
        Ok(v) => v,
    };
    let journal_seq = match member(text, META_JOURNAL_SEQ) {
        Err(e) => {
            return Err(e);
        },
        Ok(v) => v,
    };
    let object_count = match member(text, META_OBJECT_COUNT) {
        Err(e) => {
            return Err(e);
        },
        Ok(v) => v,
    };
    let timestamp = match member(text, META_TIMESTAMP) {
        Err(e) => {
            return Err(e);
        },
        Ok(v) => v,
    };
    Ok((source.text(), journal_seq.number(), object_count.number(), timestamp.number()))
}

/// The record of a backup.
#[derive(Debug)]
pub struct BackupMeta {
    /// The path of the store that was saved.
    pub source: Option<String>,
    pub journal_seq: Option<u64>,
    pub object_count: Option<u64>,
    pub timestamp: Option<u64>,
}

/// `r` is the record that was parsed, or the refusal of what did not parse.
pub open spec fn meta_result(
    r: Result<BackupMeta, String>,
    parsed: Result<MetaPartsV, Seq<char>>,
) -> bool {
    match parsed {
        Err(e) => r matches Err(x) && x@ == "bad meta: "@ + e,
        Ok(p) => r matches Ok(m) && (text_in(m.source), m.journal_seq, m.object_count, m.timestamp)
            == p,
    }
}

/// The record of what was parsed.
pub fn backup_meta(parsed: Result<MetaParts, String>) -> (r: Result<BackupMeta, String>)
    ensures
        meta_result(r, meta_in(parsed)),
{
    match parsed {
        Err(e) => Err(Text::new("bad meta: ").lit(e.as_str()).done()),
        Ok((source, journal_seq, object_count, timestamp)) => Ok(
            BackupMeta { source, journal_seq, object_count, timestamp },
        ),
    }
}

/// Reads the record of a backup.
pub fn read_backup_meta(text: &str) -> (r: Result<BackupMeta, String>)
    ensures
        meta_result(r, meta_of(text@)),
{
    backup_meta(parse_meta(text))
}

pub open spec fn or_zero(n: Option<u64>) -> u64 {
    match n {
        Some(n) => n,
        None => 0,
    }
}

impl BackupMeta {
    /// The sequence and the number of objects that a backup must hold: zero
    /// where the record does not say.
    pub fn expected(&self) -> (r: (u64, usize))
        ensures
            r.0 == or_zero(self.journal_seq),
            r.1 == or_zero(self.object_count) as usize,
    {
        let seq: u64 = match self.journal_seq {
            Some(n) => n,
            None => 0,
        };
        let objects: u64 = match self.object_count {
            Some(n) => n,
            None => 0,
        };
        (seq, objects as usize)
    }
}

/// A backup is sound when it opens and holds what its record says.
pub fn backup_matches(found: Option<(u64, usize)>, expected_seq: u64, expected_objects: usize) -> (r: bool)
    ensures
        r == (found == Some((expected_seq, expected_objects))),
{
    match found {
        None => false,
        Some((seq, count)) => seq == expected_seq && count == expected_objects,
    }
}

/// The directory of a backup: beside the store, marked with the time.
pub fn backup_dir_name(db_path: &str, ts: u64) -> (r: String)
    ensures
        r@ == db_path@ + ".backup."@ + dec(ts as nat),
{
    Text::new(db_path).lit(".backup.").num(ts).done()
}

/// A piece of a text.
pub open spec fn occurs(s: Seq<char>, p: Seq<char>) -> bool {
    exists|i: int| 0 <= i <= s.len() - p.len() && #[trigger] s.subrange(i, i + p.len()) == p
}

fn piece_at(s: &Vec<char>, p: &Vec<char>, at: usize) -> (r: bool)
    requires
        at + p@.len() <= s@.len(),
    ensures
        r == (s@.subrange(at as int, at + p@.len()) == p@),
{
    let ghost piece = s@.subrange(at as int, at + p@.len());
    let mut k: usize = 0;
    while k < p.len()
        invariant
            k <= p@.len(),
            at + p@.len() <= s@.len(),
            piece == s@.subrange(at as int, at + p@.len()),
            forall|j: int| 0 <= j < k ==> piece[j] == p@[j],
        decreases p@.len() - k,
    {
        let n = s.len();
        assert(piece[k as int] == s@[at + k]);
        if s[at + k] != p[k] {
            return false;
        }
        k += 1;
    }
    assert(piece =~= p@);
    true
}

/// Whether a name is that of a backup.
pub fn is_backup_name(name: &str) -> (r: bool)
    ensures
        r == occurs(name@, ".backup."@),
{
    let s = chars_of(name);
    let p = chars_of(".backup.");
    if s.len() < p.len() {
        return false;
    }
    let last = s.len() - p.len();
    let mut i: usize = 0;
    while i < last
        invariant
            i <= last,
            last + p@.len() == s@.len(),
            s@ == name@,
            p@ == ".backup."@,
            forall|k: int| 0 <= k < i ==> #[trigger] s@.subrange(k, k + p@.len()) != p@,
        decreases last - i,
    {
        if piece_at(&s, &p, i) {
            return true;
        }
        i += 1;
    }
    piece_at(&s, &p, last)
}

/// The grade of a store: encryption and at least one policy.
pub fn compliance_grade(encryption_enabled: bool, policies: u64) -> (r: &'static str)
    ensures
        r@ == (if encryption_enabled && policies > 0 {
            "A"@
        } else {
            "C"@
        }),
{
    if encryption_enabled && policies > 0 {
        "A"
    } else {
        "C"
    }
}

/// The framework of an evidence pack: `gdpr` unless another is named, and no
/// other than the supported ones.
pub fn choose_framework(named: Option<&str>) -> (r: Result<String, String>)
    ensures
        ({
            let f = match named {
                Some(n) => n@,
                None => "gdpr"@,
            };
            if f == "gdpr"@ || f == "hipaa"@ {
                r matches Ok(x) && x@ == f
            } else {
                r matches Err(e) && e@ == "unsupported framework: "@ + f
                    + " (supported: gdpr, hipaa)"@
            }
        }),
{
    let f: &str = match named {
        Some(n) => n,
        None => "gdpr",
    };
    if str_eq(f, "gdpr") || str_eq(f, "hipaa") {
        Ok(f.to_string())
    } else {
        Err(
            Text::new("unsupported framework: ").lit(f).lit(" (supported: gdpr, hipaa)").done(),
        )
    }
}

/// The connections of a server against its pool, which is never empty.
pub fn connection_pool(connections: u64) -> (r: String)
    ensures
        r@ == dec(connections as nat) + "/"@ + dec(
            if connections > 0 {
                connections as nat
            } else {
                1
            },
        ),
{
    let most: u64 = if connections > 0 {
        connections
    } else {
        1
    };
    proof {
        reveal_strlit("");
        assert(""@ + dec(connections as nat) =~= dec(connections as nat));
    }
    Text::new("").num(connections).lit("/").num(most).done()
}

} // verus!
