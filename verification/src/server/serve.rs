//! Serving: where to listen, whom to admit, what to report of readiness.

use crate::server::config::{RuntimeConfig, RuntimeEncryption};
use crate::text::{chars_of, join, join_spec, str_eq, Text};
use vstd::prelude::*;

verus! {

pub const PROTOCOL_VERSION: &'static str = "2024-11-05";

// ---------------------------------------------------------------------------
// Listening
/// The address is a port alone: a colon, and no other.
pub open spec fn port_alone(addr: Seq<char>) -> bool {
    addr.len() > 0 && addr[0] == ':' && forall|i: int|
        0 < i < addr.len() ==> #[trigger] addr[i] != ':'
}

/// A port alone listens on the loopback interface.
pub open spec fn expanded(addr: Seq<char>) -> Seq<char> {
    if port_alone(addr) {
        "127.0.0.1"@ + addr
    } else {
        addr
    }
}

/// The address that is resolved.
pub fn expand_listen(addr: &str) -> (r: String)
    ensures
        r@ == expanded(addr@),
{
    let cs = chars_of(addr);
    let mut alone = cs.len() > 0 && cs[0] == ':';
    let mut i: usize = 1;
    while i < cs.len()
        invariant
            cs@ == addr@,
            1 <= i,
            i <= cs@.len() || cs@.len() == 0,
            alone == (cs@.len() > 0 && cs@[0] == ':' && forall|k: int|
                0 < k < i ==> #[trigger] cs@[k] != ':'),
        decreases cs@.len() - i,
    {
        if cs[i] == ':' {
            alone = false;
        }
        i += 1;
    }
    if alone {
        Text::new("127.0.0.1").lit(addr).done()
    } else {
        addr.to_string()
    }
}

/// Whether an address may be listened on: it must resolve, and to loopback
/// interfaces only, because tokens travel in the clear.
pub open spec fn listen_verdict(addr: Seq<char>, resolved: Result<Vec<bool>, String>) -> Result<
    Seq<char>,
    Seq<char>,
> {
    match resolved {
        Err(e) => Err("invalid --listen address "@ + addr + ": "@ + e@),
        Ok(loopback) => if loopback@.len() == 0 {
            Err("--listen "@ + addr + " did not resolve to any address"@)
        } else if exists|i: int| 0 <= i < loopback@.len() && !#[trigger] loopback@[i] {
            Err(
                "--listen "@ + addr
                    + " would accept plaintext TCP on a non-loopback interface; bearer tokens must not travel unencrypted — bind 127.0.0.1 (or ::1) and terminate TLS at a reverse proxy, or use stdio mode"@,
            )
        } else {
            Ok(addr)
        },
    }
}

/// Checks an address, expanded; `resolved` says of each address that the
/// expanded one resolves to whether it is a loopback address.
pub fn validate_listen(addr: &str, resolved: &Result<Vec<bool>, String>) -> (r: Result<
    String,
    String,
>)
    ensures
        match r {
            Ok(a) => listen_verdict(expanded(addr@), *resolved) == Ok::<Seq<char>, Seq<char>>(a@),
            Err(e) => listen_verdict(expanded(addr@), *resolved) == Err::<Seq<char>, Seq<char>>(
                e@,
            ),
        },
{
    let full = expand_listen(addr);
    match resolved {
        Err(e) => Err(
            Text::new("invalid --listen address ").lit(full.as_str()).lit(": ").lit(e.as_str()).done(),
        ),
        Ok(loopback) => {
            if loopback.len() == 0 {
                return Err(
                    Text::new("--listen ").lit(full.as_str()).lit(
                        " did not resolve to any address",
                    ).done(),
                );
            }
            let mut i: usize = 0;
            while i < loopback.len()
                invariant
                    i <= loopback@.len(),
                    full@ == expanded(addr@),
                    resolved matches Ok(v) && *v == *loopback,
                    loopback@.len() > 0,
                    forall|k: int| 0 <= k < i ==> #[trigger] loopback@[k],
                decreases loopback@.len() - i,
            {
                if !loopback[i] {
                    return Err(
                        Text::new("--listen ").lit(full.as_str()).lit(
                            " would accept plaintext TCP on a non-loopback interface; bearer tokens must not travel unencrypted — bind 127.0.0.1 (or ::1) and terminate TLS at a reverse proxy, or use stdio mode",
                        ).done(),
                    );
                }
                i += 1;
            }
            Ok(full)
        },
    }
}

/// How the server talks.
#[derive(Debug)]
pub enum Transport {
    Stdio,
    /// TCP on an address; the tokens are not empty.
    Tcp(String),
}

/// TCP needs a token; without an address the server talks over stdio.
pub fn choose_transport(cfg: &RuntimeConfig) -> (r: Result<Transport, String>)
    ensures
        match cfg@.listen_addr {
            None => r == Ok::<Transport, String>(Transport::Stdio),
            Some(a) => if cfg@.tcp_tokens.len() == 0 {
                r is Err && r->Err_0@
                    == "TCP mode requires at least one --tcp-token TOKEN[:TENANT[:ROLE1,ROLE2]] — refusing to serve without authentication (stdio mode needs no token)"@
            } else {
                r matches Ok(Transport::Tcp(x)) && x@ == a
            },
        },
{
    match &cfg.listen_addr {
        None => Ok(Transport::Stdio),
        Some(a) => {
            assert(cfg@.tcp_tokens.len() == cfg.tcp_tokens@.len());
            if cfg.tcp_tokens.len() == 0 {
                return Err(
                    "TCP mode requires at least one --tcp-token TOKEN[:TENANT[:ROLE1,ROLE2]] — refusing to serve without authentication (stdio mode needs no token)".to_string(),
                );
            }
            Ok(Transport::Tcp(a.as_str().to_string()))
        },
    }
}

// ---------------------------------------------------------------------------
// Admission
/// What becomes of a message on a TCP connection.
#[derive(Clone, Copy, Debug, PartialEq, Eq, Structural)]
pub enum Gate {
    /// The message is handled.
    Pass,
    /// The message is handled, and the connection is authenticated from now
    /// on.
    Admit,
    /// The token is not known: the connection ends.
    BadToken,
    /// The message needs authentication: the connection ends.
    NotAuthenticated,
}

/// Before authentication only `initialize` with a known token, and `ping`,
/// come through.
pub open spec fn gate_of(authenticated: bool, method: Seq<char>, token_known: bool) -> Gate {
    if authenticated {
        Gate::Pass
    } else if method == "initialize"@ {
        if token_known {
            Gate::Admit
        } else {
            Gate::BadToken
        }
    } else if method == "ping"@ {
        Gate::Pass
    } else {
        Gate::NotAuthenticated
    }
}

/// Decides on one message.
pub fn gate(authenticated: bool, method: &str, token_known: bool) -> (r: Gate)
    ensures
        r == gate_of(authenticated, method@, token_known),
{
    if authenticated {
        Gate::Pass
    } else if str_eq(method, "initialize") {
        if token_known {
            Gate::Admit
        } else {
            Gate::BadToken
        }
    } else if str_eq(method, "ping") {
        Gate::Pass
    } else {
        Gate::NotAuthenticated
    }
}

/// The code of a refusal.
pub const AUTH_ERROR: i64 = -32001;

/// The code of a message that does not parse.
pub const PARSE_ERROR: i64 = -32700;

/// What a refused message is answered.
pub open spec fn refusal_text(g: Gate) -> Option<Seq<char>> {
    match g {
        Gate::BadToken => Some(
            "invalid or missing token — pass a --tcp-token value as params.token to initialize"@,
        ),
        Gate::NotAuthenticated => Some(
            "authentication required — call initialize with a valid token first"@,
        ),
        _ => None,
    }
}

/// What a refused message is answered, where it asks for an answer.
pub fn refusal(g: Gate) -> (r: Option<&'static str>)
    ensures
        match r {
            Some(t) => refusal_text(g) == Some(t@),
            None => refusal_text(g) is None,
        },
{
    match g {
        Gate::BadToken => Some(
            "invalid or missing token — pass a --tcp-token value as params.token to initialize",
        ),
        Gate::NotAuthenticated => Some(
            "authentication required — call initialize with a valid token first",
        ),
        _ => None,
    }
}

/// Whether the connection is authenticated after a message.
pub open spec fn admitted(authenticated: bool, g: Gate) -> bool {
    authenticated || g == Gate::Admit
}

/// No message but `ping` is handled on a connection that never showed a known
/// token.
pub proof fn gate_fails_closed(method: Seq<char>, token_known: bool)
    requires
        !token_known,
        method != "ping"@,
    ensures
        gate_of(false, method, token_known) == Gate::BadToken || gate_of(
            false,
            method,
            token_known,
        ) == Gate::NotAuthenticated,
        !admitted(false, gate_of(false, method, token_known)),
{
}

// ---------------------------------------------------------------------------
// Encryption
/// The passphrase that a store needs: none without encryption, and encryption
/// without one is refused.
pub fn store_passphrase(enc: &RuntimeEncryption) -> (r: Result<Option<String>, String>)
    ensures
        if !enc@.enabled {
            r == Ok::<Option<String>, String>(None)
        } else {
            match enc@.passphrase {
                Some(p) => r matches Ok(Some(x)) && x@ == p,
                None => r is Err && r->Err_0@
                    == "encryption enabled but no passphrase: set AIKOQL_PASSPHRASE or encryption.passphrase"@,
            }
        },
{
    if !enc.enabled {
        return Ok(None);
    }
    match &enc.passphrase {
        Some(p) => Ok(Some(p.as_str().to_string())),
        None => Err(
            "encryption enabled but no passphrase: set AIKOQL_PASSPHRASE or encryption.passphrase".to_string(),
        ),
    }
}

// ---------------------------------------------------------------------------
// Models and readiness
/// Where local models lie: where the flag says, or under the home directory.
pub open spec fn model_dir_of(
    flag: Option<Seq<char>>,
    profile: Option<Seq<char>>,
    home: Option<Seq<char>>,
) -> Seq<char> {
    match flag {
        Some(p) => p,
        None => {
            let base = match profile {
                Some(p) => p,
                None => match home {
                    Some(h) => h,
                    None => "."@,
                },
            };
            join_spec(join_spec(base, ".aikoql"@), "models"@)
        },
    }
}

/// Where local models lie; the home directory is given by two variables.
pub fn model_store_dir(flag: Option<&str>, profile: Option<&str>, home: Option<&str>) -> (r: String)
    ensures
        r@ == model_dir_of(sv(flag), sv(profile), sv(home)),
{
    match flag {
        Some(p) => p.to_string(),
        None => {
            let base: &str = match profile {
                Some(p) => p,
                None => match home {
                    Some(h) => h,
                    None => ".",
                },
            };
            let a = join(base, ".aikoql");
            join(a.as_str(), "models")
        },
    }
}

pub open spec fn sv(s: Option<&str>) -> Option<Seq<char>> {
    match s {
        Some(x) => Some(x@),
        None => None,
    }
}

/// How ready the semantic layer is.
#[derive(Clone, Debug)]
pub struct SemanticStatus {
    /// `initializing`, `ready` or `unavailable`.
    pub state: String,
    pub detail: String,
}

impl SemanticStatus {
    /// Before anything is known.
    pub fn new() -> (r: Self)
        ensures
            r.state@ == "initializing"@,
            r.detail@ == ""@,
    {
        SemanticStatus { state: "initializing".to_string(), detail: "".to_string() }
    }

    pub fn set(&mut self, state: &str, detail: &str)
        ensures
            final(self).state@ == state@,
            final(self).detail@ == detail@,
    {
        self.state = state.to_string();
        self.detail = detail.to_string();
    }

    /// A copy of the status.
    pub fn snapshot(&self) -> (r: SemanticStatus)
        ensures
            r.state@ == self.state@,
            r.detail@ == self.detail@,
    {
        SemanticStatus {
            state: self.state.as_str().to_string(),
            detail: self.detail.as_str().to_string(),
        }
    }
}

/// The address of an embedding endpoint; one that is not named is the local
/// default.
pub fn endpoint_url(url: &str) -> (r: String)
    ensures
        r@ == (if url@.len() == 0 {
            "http://localhost:11434"@
        } else {
            url@
        }),
{
    proof {
        reveal_strlit("");
        assert(url@.len() == 0 ==> url@ =~= ""@);
    }
    if str_eq(url, "") {
        "http://localhost:11434".to_string()
    } else {
        url.to_string()
    }
}

/// The model that an embedding endpoint is asked for.
pub fn endpoint_model(model: &str) -> (r: String)
    ensures
        r@ == (if model@.len() == 0 {
            "nomic-embed-text"@
        } else {
            model@
        }),
{
    if str_eq(model, "") {
        proof {
            reveal_strlit("");
        }
        "nomic-embed-text".to_string()
    } else {
        proof {
            reveal_strlit("");
            assert(model@.len() == 0 ==> model@ =~= ""@);
        }
        model.to_string()
    }
}

/// Why a local model is refused: only the bundled one is installed, and no
/// other is silently put in its place.
pub fn refuse_local_model(model: &str) -> (r: Option<String>)
    ensures
        if model@.len() == 0 || model@ == "all-MiniLM-L6-v2"@ {
            r is None
        } else {
            r is Some && r->0@ == "model '"@ + model@
                + "' is not installed — run `aikoql model install "@ + model@
                + "`, or omit --embedding-model for the bundled all-MiniLM-L6-v2"@
        },
{
    if str_eq(model, "") || str_eq(model, "all-MiniLM-L6-v2") {
        proof {
            reveal_strlit("");
        }
        return None;
    }
    proof {
        reveal_strlit("");
        assert(model@.len() == 0 ==> model@ =~= ""@);
    }
    Some(
        Text::new("model '").lit(model).lit("' is not installed — run `aikoql model install ").lit(
            model,
        ).lit("`, or omit --embedding-model for the bundled all-MiniLM-L6-v2").done(),
    )
}

// ---------------------------------------------------------------------------
// Ontologies
/// One stored ontology: when it was committed, and whether it was discovered
/// rather than written.
#[derive(Clone, Copy, Debug, PartialEq, Eq, Structural)]
pub struct OntologyEntry {
    pub commit_ts: u64,
    pub discovered: bool,
}

/// Some ontology was written.
pub open spec fn any_written(s: Seq<OntologyEntry>) -> bool {
    exists|i: int| 0 <= i < s.len() && !(#[trigger] s[i]).discovered
}

/// An ontology that may be chosen: a written one, if there is any.
pub open spec fn eligible(s: Seq<OntologyEntry>, i: int) -> bool {
    !any_written(s) || !s[i].discovered
}

/// The latest of the eligible ontologies; of equally late ones the last.
pub open spec fn latest(s: Seq<OntologyEntry>, r: int) -> bool {
    &&& 0 <= r < s.len()
    &&& eligible(s, r)
    &&& forall|i: int|
        0 <= i < s.len() && #[trigger] eligible(s, i) ==> s[i].commit_ts < s[r].commit_ts || (
        s[i].commit_ts == s[r].commit_ts && i <= r)
}

/// Chooses the ontology: the latest written one, or the latest discovered one
/// where none was written.
pub fn choose_ontology(s: &Vec<OntologyEntry>) -> (r: Option<usize>)
    ensures
        match r {
            Some(i) => latest(s@, i as int),
            None => s@.len() == 0,
        },
{
    let mut written = false;
    let mut i: usize = 0;
    while i < s.len()
        invariant
            i <= s@.len(),
            written == exists|k: int| 0 <= k < i && !(#[trigger] s@[k]).discovered,
        decreases s@.len() - i,
    {
        if !s[i].discovered {
            written = true;
        }
        i += 1;
    }
    assert(written == any_written(s@));
    let mut best: Option<usize> = None;
    let mut j: usize = 0;
    while j < s.len()
        invariant
            j <= s@.len(),
            written == any_written(s@),
            match best {
                None => forall|k: int| 0 <= k < j ==> !#[trigger] eligible(s@, k),
                Some(b) => b < j && eligible(s@, b as int) && forall|k: int|
                    0 <= k < j && #[trigger] eligible(s@, k) ==> s@[k].commit_ts
                        < s@[b as int].commit_ts || (s@[k].commit_ts == s@[b as int].commit_ts && k
                        <= b),
            },
        decreases s@.len() - j,
    {
        let may = !written || !s[j].discovered;
        assert(may == eligible(s@, j as int));
        if may {
            match best {
                None => {
                    best = Some(j);
                },
                Some(b) => {
                    if s[j].commit_ts >= s[b].commit_ts {
                        best = Some(j);
                    }
                },
            }
        }
        j += 1;
    }
    proof {
        if best is None && s@.len() > 0 {
            if any_written(s@) {
                let k = choose|k: int| 0 <= k < s@.len() && !(#[trigger] s@[k]).discovered;
                assert(eligible(s@, k));
            } else {
                assert(eligible(s@, 0));
            }
        }
    }
    best
}

} // verus!
