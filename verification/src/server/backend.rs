//! Which storage engine serves a path.

use crate::codec::bytes_eq;
use crate::text::{str_eq, Text};
use vstd::prelude::*;

verus! {

/// The storage engines. `Redb` serves new paths; the others are chosen, or
/// found on disk.
#[derive(Clone, Copy, Debug, PartialEq, Eq, Structural)]
pub enum StorageBackend {
    Redb,
    Aikoql,
    AikoqlV2,
}

/// The text that `{:?}` makes of a string: quoted, with escapes.
pub uninterp spec fn quoted_of(s: Seq<char>) -> Seq<char>;

/// `format!` with `{:?}` on a `str`: the string in quotes, with escapes. The
/// contract names the text and says no more of it.
#[verifier::external_body]
fn quoted(s: &str) -> (r: String)
    ensures
        r@ == quoted_of(s@),
{
    format!("{s:?}")
}

/// The engine of a name.
pub open spec fn backend_named(v: Seq<char>) -> Result<StorageBackend, Seq<char>> {
    if v == "redb"@ {
        Ok(StorageBackend::Redb)
    } else if v == "aikoql"@ {
        Ok(StorageBackend::Aikoql)
    } else if v == "aikoql-v2"@ {
        Ok(StorageBackend::AikoqlV2)
    } else {
        Err(
            "unknown storage backend "@ + quoted_of(v)
                + ": use \"redb\", \"aikoql\" or \"aikoql-v2\""@,
        )
    }
}

impl StorageBackend {
    /// The engine of a name; any other name is refused.
    pub fn parse(v: &str) -> (r: Result<StorageBackend, String>)
        ensures
            match r {
                Ok(b) => backend_named(v@) == Ok::<StorageBackend, Seq<char>>(b),
                Err(e) => backend_named(v@) == Err::<StorageBackend, Seq<char>>(e@),
            },
    {
        if str_eq(v, "redb") {
            Ok(StorageBackend::Redb)
        } else if str_eq(v, "aikoql") {
            Ok(StorageBackend::Aikoql)
        } else if str_eq(v, "aikoql-v2") {
            Ok(StorageBackend::AikoqlV2)
        } else {
            Err(StorageBackend::refusal(quoted(v)))
        }
    }

    /// The refusal of a name that was quoted.
    pub fn refusal(name: String) -> (r: String)
        ensures
            r@ == "unknown storage backend "@ + name@
                + ": use \"redb\", \"aikoql\" or \"aikoql-v2\""@,
    {
        Text::new("unknown storage backend ").lit(name.as_str()).lit(
            ": use \"redb\", \"aikoql\" or \"aikoql-v2\"",
        ).done()
    }
}

/// What lies at a path.
pub enum PathFacts {
    /// A directory, and whether it holds a file `CURRENT`.
    Dir { has_current: bool },
    /// A file, and its first bytes, at most four.
    File { head: Vec<u8> },
    Missing,
    /// Neither, in the words of the file system.
    Unreadable(String),
}

/// The first four bytes of a native log.
pub const LOG_MAGIC: [u8; 4] = [0x41, 0x4b, 0x51, 0x4c];

/// The engine of what lies at a path.
pub open spec fn detected(db_path: Seq<char>, facts: PathFacts) -> Result<StorageBackend, Seq<char>> {
    match facts {
        PathFacts::Dir { has_current } => if has_current {
            Ok(StorageBackend::AikoqlV2)
        } else {
            Err(
                db_path
                    + " is a directory but not an aikoql-v2 database (no CURRENT): name an explicit backend (--backend / AIKOQL_BACKEND / storage.backend)"@,
            )
        },
        PathFacts::File { head } => if head@ == LOG_MAGIC@ {
            Ok(StorageBackend::Aikoql)
        } else {
            Ok(StorageBackend::Redb)
        },
        PathFacts::Missing => Ok(StorageBackend::Redb),
        PathFacts::Unreadable(e) => Err("read "@ + db_path + ": "@ + e@),
    }
}

/// Detects the engine of what lies at a path. A directory that is no database
/// is refused, and never becomes a new store.
pub fn detect_backend(db_path: &str, facts: &PathFacts) -> (r: Result<StorageBackend, String>)
    ensures
        match r {
            Ok(b) => detected(db_path@, *facts) == Ok::<StorageBackend, Seq<char>>(b),
            Err(e) => detected(db_path@, *facts) == Err::<StorageBackend, Seq<char>>(e@),
        },
{
    match facts {
        PathFacts::Dir { has_current } => {
            if *has_current {
                Ok(StorageBackend::AikoqlV2)
            } else {
                Err(
                    Text::new(db_path).lit(
                        " is a directory but not an aikoql-v2 database (no CURRENT): name an explicit backend (--backend / AIKOQL_BACKEND / storage.backend)",
                    ).done(),
                )
            }
        },
        PathFacts::File { head } => {
            if bytes_eq(head.as_slice(), LOG_MAGIC.as_slice()) {
                Ok(StorageBackend::Aikoql)
            } else {
                Ok(StorageBackend::Redb)
            }
        },
        PathFacts::Missing => Ok(StorageBackend::Redb),
        PathFacts::Unreadable(e) => Err(
            Text::new("read ").lit(db_path).lit(": ").lit(e.as_str()).done(),
        ),
    }
}

/// The engine that opens a path: the configured one, or what is detected.
pub fn choose_backend(db_path: &str, backend: Option<StorageBackend>, facts: &PathFacts) -> (r: Result<
    StorageBackend,
    String,
>)
    ensures
        match (backend, r) {
            (Some(b), Ok(x)) => x == b,
            (Some(_), Err(_)) => false,
            (None, Ok(x)) => detected(db_path@, *facts) == Ok::<StorageBackend, Seq<char>>(x),
            (None, Err(e)) => detected(db_path@, *facts) == Err::<StorageBackend, Seq<char>>(e@),
        },
{
    match backend {
        Some(b) => Ok(b),
        None => detect_backend(db_path, facts),
    }
}

} // verus!
