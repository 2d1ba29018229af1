//! What the server's decisions come to, said of what goes in and what comes
//! out.

use crate::server::admin::{
    backup_data_file, backup_dir_name, backup_matches, choose_framework, compliance_grade,
    connection_pool, count_of, count_state, count_states, first_data, is_backup_name, occurrences,
    read_backup_meta, BackupMeta, LifecycleCounts, LifecycleState, StateClass,
};
use crate::server::backend::{choose_backend, detect_backend, PathFacts, StorageBackend};
use crate::server::config::{
    config_flag, find_toml, normalize_provider, provider_warning, RuntimeConfig, RuntimeEncryption,
};
use crate::server::http::{char_bytes, text_bytes, truncate};
use crate::server::json::{value_under_of, JsonAtV};
use crate::server::load_laws::{backend_known, backend_meant, provider_known};
use crate::server::message::{decide, parse_message, read_message, wants_token, Incoming, Parts};
use crate::server::serve::{
    admitted, choose_ontology, choose_transport, endpoint_model, endpoint_url, expand_listen, gate,
    model_store_dir, refuse_local_model, store_passphrase, validate_listen, Gate, OntologyEntry,
    Transport,
};
use crate::text::{dec, has_prefix, has_suffix, join_spec, trim_of};
use vstd::prelude::*;

verus! {

// ---------------------------------------------------------------------------
// Engines
/// Three names stand for the three engines; any other is refused.
pub proof fn engines_go_by_their_names(v: &str, r: Result<StorageBackend, String>)
    requires
        call_ensures(StorageBackend::parse, (v,), r),
    ensures
        r is Ok <==> backend_known(v@),
        r matches Ok(b) ==> backend_meant(v@, b),
{
    reveal_strlit("redb");
    reveal_strlit("aikoql");
    reveal_strlit("aikoql-v2");
    assert("redb"@.len() == 4 && "aikoql"@.len() == 6 && "aikoql-v2"@.len() == 9);
}

/// What lies at a path says which engine opens it: a directory with `CURRENT`
/// is the newest one's, a file that begins with `AKQL` a native log, any other
/// file and a path with nothing the default's. A directory without `CURRENT`
/// and what cannot be read are refused, and never become a new store.
pub proof fn engines_are_found_by_what_lies_there(
    db_path: &str,
    facts: &PathFacts,
    r: Result<StorageBackend, String>,
)
    requires
        call_ensures(detect_backend, (db_path, facts), r),
    ensures
        *facts == (PathFacts::Dir { has_current: true }) ==> r == Ok::<StorageBackend, String>(
            StorageBackend::AikoqlV2,
        ),
        *facts == (PathFacts::Dir { has_current: false }) ==> r is Err,
        *facts matches PathFacts::File { head } && head@ == seq![0x41u8, 0x4b, 0x51, 0x4c] ==> r
            == Ok::<StorageBackend, String>(StorageBackend::Aikoql),
        *facts matches PathFacts::File { head } && head@ != seq![0x41u8, 0x4b, 0x51, 0x4c] ==> r
            == Ok::<StorageBackend, String>(StorageBackend::Redb),
        *facts is Missing ==> r == Ok::<StorageBackend, String>(StorageBackend::Redb),
        *facts is Unreadable ==> r is Err,
{
    assert(crate::server::backend::LOG_MAGIC@ =~= seq![0x41u8, 0x4b, 0x51, 0x4c]);
}

/// A configured engine opens the path whatever lies there.
pub proof fn configured_engines_come_first(
    db_path: &str,
    backend: Option<StorageBackend>,
    facts: &PathFacts,
    r: Result<StorageBackend, String>,
    found: Result<StorageBackend, String>,
)
    requires
        call_ensures(choose_backend, (db_path, backend, facts), r),
        call_ensures(detect_backend, (db_path, facts), found),
    ensures
        backend matches Some(b) ==> r == Ok::<StorageBackend, String>(b),
        backend is None ==> (r is Ok <==> found is Ok),
        backend is None && r is Ok ==> r == found,
{
}

// ---------------------------------------------------------------------------
// Providers and the file
/// The names of the providers, and which of them is warned of.
pub proof fn providers_go_by_their_names(
    p: &str,
    r: Result<Option<String>, String>,
    w: Option<&'static str>,
)
    requires
        call_ensures(normalize_provider, (p,), r),
        call_ensures(provider_warning, (p,), w),
    ensures
        r is Ok <==> provider_known(p@),
        r is Ok ==> (r->Ok_0 is None <==> p@ == "candle"@),
        r is Ok && r->Ok_0 is Some ==> r->Ok_0->0@ == "openai"@,
        w is Some <==> p@ == "openai"@,
{
    reveal_strlit("candle");
    reveal_strlit("http");
    reveal_strlit("ollama");
    reveal_strlit("openai");
    assert("candle"@[0] == 'c' && "ollama"@[0] == 'o' && "openai"@[0] == 'o');
    assert("candle"@.len() == 6 && "http"@.len() == 4);
}

/// Argument `i` is a `--config` with something behind it.
pub open spec fn names_config(args: Seq<String>, i: int) -> bool {
    0 <= i && i + 1 < args.len() && args[i]@ == "--config"@
}

proof fn lemma_config_flag(args: Seq<String>, k: int, i: int)
    requires
        0 <= k <= i,
        names_config(args, i),
        forall|j: int| k <= j < i ==> !#[trigger] names_config(args, j),
    ensures
        config_flag(args, k) == Some(args[i + 1]@),
    decreases i - k,
{
    if k < i {
        assert(!names_config(args, k));
        lemma_config_flag(args, k + 1, i);
    }
}

proof fn lemma_no_config_flag(args: Seq<String>, k: int)
    requires
        0 <= k,
        forall|j: int| k <= j ==> !#[trigger] names_config(args, j),
    ensures
        config_flag(args, k) is None,
    decreases args.len() - k,
{
    if k + 1 < args.len() {
        assert(!names_config(args, k));
        lemma_no_config_flag(args, k + 1);
    }
}

/// The configuration file: the one behind the first `--config`, which must not
/// be a flag; else the local one, else the global one, else none.
pub proof fn config_files_are_found_in_order(
    args: &Vec<String>,
    local: bool,
    global: bool,
    r: Result<Option<String>, String>,
    i: int,
)
    requires
        call_ensures(find_toml, (args, local, global), r),
    ensures
        names_config(args@, i) && (forall|j: int| 0 <= j < i ==> !#[trigger] names_config(args@, j))
            ==> {
            &&& has_prefix(args@[i + 1]@, "--"@) ==> r is Err
            &&& !has_prefix(args@[i + 1]@, "--"@) ==> r is Ok && r->Ok_0 is Some && r->Ok_0->0@
                == args@[i + 1]@
        },
        (forall|j: int| !#[trigger] names_config(args@, j)) ==> {
            &&& r is Ok
            &&& local ==> r->Ok_0 is Some && r->Ok_0->0@ == "./aikoql.toml"@
            &&& !local && global ==> r->Ok_0 is Some && r->Ok_0->0@ == "/etc/aikoql/aikoql.toml"@
            &&& !local && !global ==> r->Ok_0 is None
        },
{
    if names_config(args@, i) && (forall|j: int| 0 <= j < i ==> !#[trigger] names_config(args@, j)) {
        lemma_config_flag(args@, 0, i);
    }
    if forall|j: int| !#[trigger] names_config(args@, j) {
        lemma_no_config_flag(args@, 0);
    }
}

// ---------------------------------------------------------------------------
// Listening
/// How often a colon occurs.
pub open spec fn colons(s: Seq<char>) -> nat
    decreases s.len(),
{
    if s.len() == 0 {
        0
    } else {
        colons(s.drop_last()) + (if s.last() == ':' {
            1nat
        } else {
            0
        })
    }
}

proof fn lemma_colons(s: Seq<char>)
    ensures
        colons(s) == 0 <==> forall|i: int| 0 <= i < s.len() ==> #[trigger] s[i] != ':',
        s.len() > 0 && s[0] == ':' ==> (colons(s) == 1 <==> forall|i: int|
            0 < i < s.len() ==> #[trigger] s[i] != ':') && colons(s) >= 1,
    decreases s.len(),
{
    if s.len() > 0 {
        let t = s.drop_last();
        lemma_colons(t);
        assert(s[s.len() - 1] == s.last());
        if forall|i: int| 0 <= i < t.len() ==> #[trigger] t[i] != ':' {
            assert forall|i: int| 0 <= i < s.len() - 1 implies #[trigger] s[i] != ':' by {
                assert(t[i] == s[i]);
            }
        }
        if forall|i: int| 0 <= i < s.len() ==> #[trigger] s[i] != ':' {
            assert forall|i: int| 0 <= i < t.len() implies #[trigger] t[i] != ':' by {
                assert(t[i] == s[i]);
            }
        }
        if t.len() > 0 {
            assert(t[0] == s[0]);
            if forall|i: int| 0 < i < t.len() ==> #[trigger] t[i] != ':' {
                assert forall|i: int| 0 < i < s.len() - 1 implies #[trigger] s[i] != ':' by {
                    assert(t[i] == s[i]);
                }
            }
            if forall|i: int| 0 < i < s.len() ==> #[trigger] s[i] != ':' {
                assert forall|i: int| 0 < i < t.len() implies #[trigger] t[i] != ':' by {
                    assert(t[i] == s[i]);
                }
            }
        }
    }
}

/// An address that is a port alone, with its colon, is one of the loopback
/// interface; any other stays as it is.
pub proof fn ports_alone_listen_on_loopback(addr: &str, r: String)
    requires
        call_ensures(expand_listen, (addr,), r),
    ensures
        addr@.len() > 0 && addr@[0] == ':' && colons(addr@) == 1 ==> r@ == "127.0.0.1"@ + addr@,
        !(addr@.len() > 0 && addr@[0] == ':' && colons(addr@) == 1) ==> r@ == addr@,
{
    lemma_colons(addr@);
}

/// An address is listened on exactly where it resolves, to one address at
/// least, and to loopback addresses only; it is listened on as it was
/// expanded.
pub proof fn only_loopback_is_listened_on(
    addr: &str,
    resolved: &Result<Vec<bool>, String>,
    r: Result<String, String>,
    full: String,
)
    requires
        call_ensures(validate_listen, (addr, resolved), r),
        call_ensures(expand_listen, (addr,), full),
    ensures
        r is Ok <==> (*resolved matches Ok(v) && v@.len() > 0 && (forall|i: int|
            0 <= i < v@.len() ==> #[trigger] v@[i])),
        r matches Ok(a) ==> a@ == full@,
{
}

/// TCP is served only with a token; without an address nothing is listened on.
pub proof fn tcp_is_served_only_with_a_token(cfg: &RuntimeConfig, r: Result<Transport, String>)
    requires
        call_ensures(choose_transport, (cfg,), r),
    ensures
        cfg.listen_addr is None ==> r is Ok && r->Ok_0 is Stdio,
        cfg.listen_addr is Some && cfg.tcp_tokens@.len() == 0 ==> r is Err,
        cfg.listen_addr is Some && cfg.tcp_tokens@.len() > 0 ==> r is Ok && (
        r->Ok_0 matches Transport::Tcp(a) && a@ == cfg.listen_addr->0@),
{
    assert(cfg@.tcp_tokens.len() == cfg.tcp_tokens@.len());
}

/// A store that is to be encrypted has a passphrase, or is not opened; one that
/// is not gets none.
pub proof fn encrypted_stores_have_a_passphrase(
    enc: &RuntimeEncryption,
    r: Result<Option<String>, String>,
)
    requires
        call_ensures(store_passphrase, (enc,), r),
    ensures
        !enc.enabled ==> r is Ok && r->Ok_0 is None,
        enc.enabled && enc.passphrase is None ==> r is Err,
        enc.enabled && enc.passphrase is Some ==> r is Ok && r->Ok_0 is Some && r->Ok_0->0@
            == enc.passphrase->0@,
{
}

// ---------------------------------------------------------------------------
// Admission
/// A message is handled exactly where the connection has shown a token, or the
/// message is a `ping`, or it is an `initialize` with a known token. Only the
/// last makes a connection that has not shown one authenticated; nothing makes
/// one that has lose that.
pub proof fn admission_needs_a_token(
    authenticated: bool,
    method: &str,
    token_known: bool,
    g: Gate,
)
    requires
        call_ensures(gate, (authenticated, method, token_known), g),
    ensures
        (g == Gate::Pass || g == Gate::Admit) <==> authenticated || method@ == "ping"@ || (method@
            == "initialize"@ && token_known),
        admitted(authenticated, g) <==> authenticated || (method@ == "initialize"@ && token_known),
        !authenticated && method@ == "initialize"@ && !token_known ==> g == Gate::BadToken,
        !authenticated && method@ != "initialize"@ && method@ != "ping"@ ==> g
            == Gate::NotAuthenticated,
{
    reveal_strlit("ping");
    reveal_strlit("initialize");
    assert("ping"@.len() != "initialize"@.len());
}

/// A token is looked up only on `initialize`, and only before one was shown;
/// a decision is the verdict on the message, and a refusal is told where the message
/// asks for an answer.
pub proof fn refusals_are_told_where_asked(
    authenticated: bool,
    method: &str,
    asks: bool,
    token_known: bool,
    looks: bool,
    g: Gate,
    r: (Gate, Option<&'static str>),
)
    requires
        call_ensures(wants_token, (authenticated, method), looks),
        call_ensures(gate, (authenticated, method, token_known), g),
        call_ensures(decide, (authenticated, method, asks, token_known), r),
    ensures
        looks <==> !authenticated && method@ == "initialize"@,
        r.0 == g,
        r.1 is Some <==> asks && (g == Gate::BadToken || g == Gate::NotAuthenticated),
        r.1 is Some && g == Gate::BadToken ==> (r.1->0)@
            == "invalid or missing token — pass a --tcp-token value as params.token to initialize"@,
        r.1 is Some && g == Gate::NotAuthenticated ==> (r.1->0)@
            == "authentication required — call initialize with a valid token first"@,
{
}

/// A message is read by its members: the method, the token among the
/// parameters, and whether there is an id. Where the text is no JSON, nothing
/// is read.
pub proof fn messages_are_read_by_their_members(line: &str, r: Result<Parts, String>)
    requires
        call_ensures(parse_message, (line,), r),
    ensures
        value_under_of(line@, "/method"@) is Err ==> r is Err,
        r is Ok ==> {
            let p = r->Ok_0;
            &&& value_under_of(line@, "/method"@) matches Ok(JsonAtV::Text(t)) ==> p.0 is Some
                && (p.0->0)@ == t
            &&& !(value_under_of(line@, "/method"@) matches Ok(JsonAtV::Text(_))) ==> p.0 is None
            &&& value_under_of(line@, "/params/token"@) matches Ok(JsonAtV::Text(t)) ==> p.1 is Some
                && (p.1->0)@ == t
            &&& !(value_under_of(line@, "/params/token"@) matches Ok(JsonAtV::Text(_)))
                ==> p.1 is None
            &&& p.2 <==> value_under_of(line@, "/id"@) != Ok::<JsonAtV, Seq<char>>(
                JsonAtV::Missing,
            )
        },
{
}

/// A line of white space is blank; any other is read without the white space
/// at its ends. A member that is not there, or is no text, is empty.
pub proof fn lines_are_read_without_their_ends(
    line: &str,
    r: Incoming,
    text: &str,
    parsed: Result<Parts, String>,
)
    requires
        call_ensures(read_message, (line,), r),
        text@ == trim_of(line@),
        call_ensures(parse_message, (text,), parsed),
    ensures
        trim_of(line@).len() == 0 <==> r is Blank,
        trim_of(line@).len() > 0 && parsed is Err ==> r is Unparsed && r->Unparsed_0@
            == "parse error: "@ + parsed->Err_0@,
        trim_of(line@).len() > 0 && parsed is Ok ==> {
            let p = parsed->Ok_0;
            &&& r is Message
            &&& r->asks == p.2
            &&& p.0 is Some ==> r->method@ == (p.0->0)@
            &&& p.0 is None ==> r->method@.len() == 0
            &&& p.1 is Some ==> r->token@ == (p.1->0)@
            &&& p.1 is None ==> r->token@.len() == 0
        },
{
}

/// The codes of refusals, and the protocol that is spoken.
pub proof fn codes_are_those_of_the_protocol()
    ensures
        crate::server::serve::AUTH_ERROR == -32001,
        crate::server::serve::PARSE_ERROR == -32700,
        crate::server::serve::PROTOCOL_VERSION@ == "2024-11-05"@,
{
}

// ---------------------------------------------------------------------------
// Models and ontologies
/// Local models lie where the flag says; else under `.aikoql/models` of the
/// profile, else of the home directory, else of the working directory.
pub proof fn models_lie_where_the_flag_says(
    flag: Option<&str>,
    profile: Option<&str>,
    home: Option<&str>,
    r: String,
)
    requires
        call_ensures(model_store_dir, (flag, profile, home), r),
    ensures
        flag is Some ==> r@ == flag->0@,
        flag is None && profile is Some ==> r@ == join_spec(
            join_spec(profile->0@, ".aikoql"@),
            "models"@,
        ),
        flag is None && profile is None && home is Some ==> r@ == join_spec(
            join_spec(home->0@, ".aikoql"@),
            "models"@,
        ),
        flag is None && profile is None && home is None ==> r@ == join_spec(
            join_spec("."@, ".aikoql"@),
            "models"@,
        ),
{
}

/// An endpoint that is named is used; one that is not is the default. No model
/// but the bundled one is taken for installed.
pub proof fn endpoints_are_used_as_named(
    url: &str,
    u: String,
    model: &str,
    m: String,
    refused: Option<String>,
)
    requires
        call_ensures(endpoint_url, (url,), u),
        call_ensures(endpoint_model, (model,), m),
        call_ensures(refuse_local_model, (model,), refused),
    ensures
        url@.len() > 0 ==> u@ == url@,
        url@.len() == 0 ==> u@ == "http://localhost:11434"@,
        model@.len() > 0 ==> m@ == model@,
        model@.len() == 0 ==> m@ == "nomic-embed-text"@,
        refused is None <==> model@.len() == 0 || model@ == "all-MiniLM-L6-v2"@,
{
}

/// The ontology that is chosen: a written one before a discovered one; among
/// those the latest, and of equally late ones the last. Only of none is none
/// chosen.
pub proof fn written_ontologies_come_first(s: &Vec<OntologyEntry>, r: Option<usize>, k: int)
    requires
        call_ensures(choose_ontology, (s,), r),
        0 <= k < s@.len(),
    ensures
        r is Some,
        r->0 < s@.len(),
        !s@[k].discovered ==> !s@[r->0 as int].discovered && (s@[k].commit_ts
            < s@[r->0 as int].commit_ts || (s@[k].commit_ts == s@[r->0 as int].commit_ts && k
            <= r->0)),
        s@[r->0 as int].discovered ==> s@[k].discovered && (s@[k].commit_ts
            < s@[r->0 as int].commit_ts || (s@[k].commit_ts == s@[r->0 as int].commit_ts && k
            <= r->0)),
{
    let i = r->0 as int;
    assert(crate::server::serve::latest(s@, i));
    if !s@[k].discovered {
        assert(crate::server::serve::any_written(s@));
        assert(crate::server::serve::eligible(s@, k));
    }
    if s@[i].discovered {
        assert(!crate::server::serve::any_written(s@));
        assert(crate::server::serve::eligible(s@, k));
    }
}

// ---------------------------------------------------------------------------
// Reports
/// One more object of a state is counted once more, and no other state is.
pub proof fn states_are_counted_one_by_one(
    s: Seq<LifecycleState>,
    x: LifecycleState,
    y: LifecycleState,
)
    ensures
        occurrences(seq![], y) == 0,
        occurrences(s.push(x), x) == occurrences(s, x) + 1,
        x != y ==> occurrences(s.push(x), y) == occurrences(s, y),
{
    assert(s.push(x).drop_last() =~= s);
}

proof fn lemma_classes(s: Seq<LifecycleState>)
    ensures
        count_of(s, StateClass::Active) == occurrences(s, LifecycleState::Active),
        count_of(s, StateClass::Verified) == occurrences(s, LifecycleState::Verified),
        count_of(s, StateClass::Archived) == occurrences(s, LifecycleState::Archived),
        count_of(s, StateClass::Deleted) == occurrences(s, LifecycleState::Deleted),
        count_of(s, StateClass::Draft) == s.len() - occurrences(s, LifecycleState::Active)
            - occurrences(s, LifecycleState::Verified) - occurrences(s, LifecycleState::Archived)
            - occurrences(s, LifecycleState::Deleted),
    decreases s.len(),
{
    if s.len() > 0 {
        lemma_classes(s.drop_last());
    }
}

/// The counts of a store: every object is in the total, all but the deleted
/// ones are live, four states are counted by themselves, and all others are
/// drafts.
pub proof fn stores_are_counted_by_state(
    states: &Vec<LifecycleState>,
    c: LifecycleCounts,
    x: LifecycleState,
    n: u64,
)
    requires
        call_ensures(count_states, (states,), c),
        call_ensures(count_state, (states, x), n),
    ensures
        n == occurrences(states@, x),
        c.total == states@.len(),
        c.live == c.total - c.deleted,
        c.active == occurrences(states@, LifecycleState::Active),
        c.verified == occurrences(states@, LifecycleState::Verified),
        c.archived == occurrences(states@, LifecycleState::Archived),
        c.deleted == occurrences(states@, LifecycleState::Deleted),
        c.draft == c.live - c.active - c.verified - c.archived,
{
    lemma_classes(states@);
}

/// A name of a data file: something before `.redb`.
pub open spec fn data_name(name: Seq<char>) -> bool {
    has_suffix(name, ".redb"@) && name != ".redb"@
}

proof fn lemma_data_name(name: Seq<char>)
    ensures
        crate::server::admin::is_data_name(name) == data_name(name),
{
    reveal_strlit(".redb");
    assert(".redb"@.len() == 5);
    if has_suffix(name, ".redb"@) && name.len() == 5 {
        assert(name.skip(0) =~= name);
    }
}

proof fn lemma_first_data(names: Seq<String>, k: int, i: int)
    requires
        0 <= k <= i < names.len(),
        data_name(names[i]@),
        forall|j: int| k <= j < i ==> !data_name((#[trigger] names[j])@),
    ensures
        first_data(names, k) == Some(names[i]@),
    decreases i - k,
{
    lemma_data_name(names[k]@);
    if k < i {
        assert(!data_name(names[k]@));
        lemma_first_data(names, k + 1, i);
    }
}

proof fn lemma_no_data(names: Seq<String>, k: int)
    requires
        0 <= k <= names.len(),
        forall|j: int| k <= j < names.len() ==> !data_name((#[trigger] names[j])@),
    ensures
        first_data(names, k) is None,
    decreases names.len() - k,
{
    if k < names.len() {
        lemma_data_name(names[k]@);
        assert(!data_name(names[k]@));
        lemma_no_data(names, k + 1);
    }
}

/// The data file of a backup: the source's, where it is there; else the first
/// of the listing that is one; else there is none.
pub proof fn backups_are_opened_at_their_data_file(
    backup: &str,
    source: Option<&str>,
    source_exists: bool,
    names: &Vec<String>,
    r: Result<String, String>,
    i: int,
)
    requires
        call_ensures(backup_data_file, (backup, source, source_exists, names), r),
    ensures
        source is Some && source_exists ==> r is Ok && r->Ok_0@ == backup@ + "/"@ + source->0@,
        !(source is Some && source_exists) && 0 <= i < names@.len() && data_name(names@[i]@) && (
        forall|j: int| 0 <= j < i ==> !data_name((#[trigger] names@[j])@)) ==> r is Ok && r->Ok_0@
            == join_spec(backup@, names@[i]@),
        !(source is Some && source_exists) && (forall|j: int|
            0 <= j < names@.len() ==> !data_name((#[trigger] names@[j])@)) ==> r is Err,
{
    if 0 <= i < names@.len() && data_name(names@[i]@) && (forall|j: int|
        0 <= j < i ==> !data_name((#[trigger] names@[j])@)) {
        lemma_first_data(names@, 0, i);
    }
    if forall|j: int| 0 <= j < names@.len() ==> !data_name((#[trigger] names@[j])@) {
        lemma_no_data(names@, 0);
    }
}

/// The text at a member of a record, or none.
pub open spec fn text_member(text: Seq<char>, pointer: Seq<char>) -> Option<Seq<char>> {
    match value_under_of(text, pointer) {
        Ok(JsonAtV::Text(t)) => Some(t),
        _ => None,
    }
}

/// The number at a member of a record, or none.
pub open spec fn number_member(text: Seq<char>, pointer: Seq<char>) -> Option<u64> {
    match value_under_of(text, pointer) {
        Ok(JsonAtV::Number(n)) => n,
        _ => None,
    }
}

/// A backup's record is read by its members: the source, the sequence of the
/// journal, the number of objects, the time.
pub proof fn backup_records_are_read_by_their_members(text: &str, r: Result<BackupMeta, String>)
    requires
        call_ensures(read_backup_meta, (text,), r),
    ensures
        value_under_of(text@, "/source"@) is Err ==> r is Err,
        r matches Ok(m) ==> {
            &&& (m.source is Some <==> text_member(text@, "/source"@) is Some)
            &&& m.source is Some ==> Some((m.source->0)@) == text_member(text@, "/source"@)
            &&& m.journal_seq == number_member(text@, "/journal_seq"@)
            &&& m.object_count == number_member(text@, "/object_count"@)
            &&& m.timestamp == number_member(text@, "/timestamp"@)
        },
{
    reveal_strlit("/");
    reveal_strlit("source");
    reveal_strlit("journal_seq");
    reveal_strlit("object_count");
    reveal_strlit("timestamp");
    reveal_strlit("/source");
    reveal_strlit("/journal_seq");
    reveal_strlit("/object_count");
    reveal_strlit("/timestamp");
    assert("/"@ + "source"@ =~= "/source"@);
    assert("/"@ + "journal_seq"@ =~= "/journal_seq"@);
    assert("/"@ + "object_count"@ =~= "/object_count"@);
    assert("/"@ + "timestamp"@ =~= "/timestamp"@);
}

/// A backup must hold what its record says, and nothing where it says nothing;
/// it is sound exactly where it opens and holds that.
pub proof fn backups_hold_what_they_record(
    m: &BackupMeta,
    expected: (u64, usize),
    found: Option<(u64, usize)>,
    sound: bool,
)
    requires
        call_ensures(BackupMeta::expected, (m,), expected),
        call_ensures(backup_matches, (found, expected.0, expected.1), sound),
    ensures
        m.journal_seq is Some ==> expected.0 == m.journal_seq->0,
        m.journal_seq is None ==> expected.0 == 0,
        m.object_count is Some ==> expected.1 == m.object_count->0 as usize,
        m.object_count is None ==> expected.1 == 0,
        sound <==> found is Some && (found->0).0 == expected.0 && (found->0).1 == expected.1,
{
}

/// A backup's directory is named after the store and the time, and known as a
/// backup by that name.
pub proof fn backups_are_known_by_their_name(
    db_path: &str,
    ts: u64,
    dir: String,
    name: &str,
    known: bool,
)
    requires
        call_ensures(backup_dir_name, (db_path, ts), dir),
        call_ensures(is_backup_name, (name,), known),
    ensures
        dir@ == db_path@ + ".backup."@ + dec(ts as nat),
        name@ == dir@ ==> known,
        known <==> exists|a: Seq<char>, b: Seq<char>| name@ == #[trigger] (a + ".backup."@ + b),
{
    let p = ".backup."@;
    let n = db_path@.len() as int;
    assert(dir@.subrange(n, n + p.len()) =~= p);
    if known {
        let i = choose|i: int|
            0 <= i <= name@.len() - p.len() && #[trigger] name@.subrange(i, i + p.len()) == p;
        assert(name@ =~= name@.take(i) + p + name@.skip(i + p.len()));
    }
    if exists|a: Seq<char>, b: Seq<char>| name@ == #[trigger] (a + p + b) {
        let (a, b) = choose|a: Seq<char>, b: Seq<char>| name@ == #[trigger] (a + p + b);
        let k = a.len() as int;
        assert(name@.subrange(k, k + p.len()) =~= p);
    }
}

/// The best grade needs encryption and a policy; a framework is one of two, the
/// first by default; a pool has room for one connection at least.
pub proof fn reports_follow_their_rules(
    encrypted: bool,
    policies: u64,
    grade: &'static str,
    named: Option<&str>,
    framework: Result<String, String>,
    connections: u64,
    pool: String,
)
    requires
        call_ensures(compliance_grade, (encrypted, policies), grade),
        call_ensures(choose_framework, (named,), framework),
        call_ensures(connection_pool, (connections,), pool),
    ensures
        encrypted && policies > 0 ==> grade@ == "A"@,
        !encrypted || policies == 0 ==> grade@ == "C"@,
        named is None ==> framework is Ok && framework->Ok_0@ == "gdpr"@,
        named is Some ==> (framework is Ok <==> named->0@ == "gdpr"@ || named->0@ == "hipaa"@),
        named is Some && framework is Ok ==> framework->Ok_0@ == named->0@,
        connections > 0 ==> pool@ == dec(connections as nat) + "/"@ + dec(connections as nat),
        connections == 0 ==> pool@ == dec(0) + "/"@ + dec(1),
{
}

// ---------------------------------------------------------------------------
// Text for clients
/// The bytes of a text in UTF-8 are those of its characters.
pub proof fn texts_are_measured_in_bytes(s: Seq<char>, c: char)
    ensures
        text_bytes(seq![]) == 0,
        text_bytes(s.push(c)) == text_bytes(s) + char_bytes(c),
        char_bytes(c) == 1 <==> c <= '\u{7f}',
        char_bytes(c) == 2 <==> '\u{80}' <= c <= '\u{7ff}',
        char_bytes(c) == 3 <==> '\u{800}' <= c <= '\u{ffff}',
        char_bytes(c) == 4 <==> '\u{10000}' <= c,
{
    assert(s.push(c).drop_last() =~= s);
}

/// A text within the limit stays as it is. A longer one keeps its beginning,
/// in whole characters and as much of it as leaves room for three dots, and
/// ends with them.
pub proof fn long_texts_are_cut_between_characters(s: &str, max: usize, r: String) -> (n: int)
    requires
        call_ensures(truncate, (s, max), r),
    ensures
        text_bytes(s@) <= max ==> r@ == s@,
        text_bytes(s@) > max ==> {
            let room: int = if max >= 3 {
                max - 3
            } else {
                0
            };
            &&& 0 <= n <= s@.len()
            &&& r@ == s@.take(n) + "..."@
            &&& text_bytes(s@.take(n)) <= room
            &&& n < s@.len() ==> text_bytes(s@.take(n + 1)) > room
        },
{
    if text_bytes(s@) > max {
        let room: int = if max >= 3 {
            max - 3
        } else {
            0
        };
        choose|n: int|
            crate::server::http::fits_most(s@, n, room) && r@ == #[trigger] s@.take(n) + "..."@
    } else {
        0
    }
}

} // verus!
