//! The environment and the command line, and the whole pipeline.

use crate::server::config::{
    apply_toml, cfg_rv, defaults, ov, put_backend, put_provider, set_backend, set_provider, texts,
    with_toml, CfgR, CfgV, EncV, EnvConfig, RuntimeConfig, TomlSource,
};
use crate::server::config::default_config;
use crate::text::{has_prefix, starts_with, str_eq, trim, trim_of, Text};
use vstd::prelude::*;

verus! {

// ---------------------------------------------------------------------------
// The environment layer
/// A variable that is set, and not empty.
pub open spec fn var(v: Option<String>) -> Option<Seq<char>> {
    match v {
        Some(s) => if s@.len() == 0 {
            None
        } else {
            Some(s@)
        },
        None => None,
    }
}

/// A value over what was there.
pub open spec fn over(v: Option<Seq<char>>, before: Seq<char>) -> Seq<char> {
    match v {
        Some(s) => s,
        None => before,
    }
}

/// An optional value over what was there.
pub open spec fn over_opt(v: Option<Seq<char>>, before: Option<Seq<char>>) -> Option<Seq<char>> {
    match v {
        Some(s) => Some(s),
        None => before,
    }
}

/// The tokens of a token file, trimmed: one, and never an empty one.
pub open spec fn file_tokens(path: Seq<char>, trimmed: Result<Seq<char>, Seq<char>>) -> Result<
    Seq<Seq<char>>,
    Seq<char>,
> {
    match trimmed {
        Err(e) => Err("AIKOQL_TCP_TOKEN_FILE "@ + path + ": "@ + e),
        Ok(t) => if t.len() == 0 {
            Err("AIKOQL_TCP_TOKEN_FILE "@ + path + ": file is empty"@)
        } else {
            Ok(seq![t])
        },
    }
}

/// The content of a token file, trimmed.
pub open spec fn trimmed(content: Result<String, String>) -> Result<Seq<char>, Seq<char>> {
    match content {
        Ok(v) => Ok(trim_of(v@)),
        Err(e) => Err(e@),
    }
}

/// The credentials that the environment names: a file before a variable, and
/// either in place of those below.
pub open spec fn env_tokens(e: EnvConfig, before: Seq<Seq<char>>) -> Result<
    Seq<Seq<char>>,
    Seq<char>,
> {
    match e.token_file {
        Some((path, content)) => if path@.len() > 0 {
            file_tokens(path@, trimmed(content))
        } else {
            Ok(
                match var(e.token) {
                    Some(t) => seq![t],
                    None => before,
                },
            )
        },
        None => Ok(
            match var(e.token) {
                Some(t) => seq![t],
                None => before,
            },
        ),
    }
}

/// The configuration after the environment; the first refusal ends it.
pub open spec fn with_env(c: CfgV, e: EnvConfig) -> CfgR {
    let c0 = CfgV { db_path: over(var(e.db), c.db_path), ..c };
    let chosen = match var(e.backend) {
        Some(v) => set_backend(c0, "AIKOQL_BACKEND: "@, v),
        None => Ok(c0),
    };
    match chosen {
        Err(m) => Err(m),
        Ok(c1) => match env_tokens(e, c1.tcp_tokens) {
            Err(m) => Err(m),
            Ok(tokens) => {
                let c2 = CfgV {
                    listen_addr: over_opt(var(e.listen), c1.listen_addr),
                    metrics_addr: over_opt(var(e.metrics_addr), c1.metrics_addr),
                    tcp_tokens: tokens,
                    memory_dir: over(var(e.memory_dir), c1.memory_dir),
                    ..c1
                };
                let provided = match var(e.embedding_provider) {
                    Some(p) => set_provider(c2, "AIKOQL_EMBEDDING_PROVIDER"@, p),
                    None => Ok(c2),
                };
                match provided {
                    Err(m) => Err(m),
                    Ok(c3) => Ok(
                        CfgV {
                            embedding_base_url: over(
                                var(e.embedding_base_url),
                                c3.embedding_base_url,
                            ),
                            embedding_model: over(var(e.embedding_model), c3.embedding_model),
                            embedding_api_key: over_opt(
                                var(e.embedding_api_key),
                                c3.embedding_api_key,
                            ),
                            model_dir: over_opt(var(e.model_dir), c3.model_dir),
                            encryption: EncV {
                                passphrase: over_opt(var(e.passphrase), c3.encryption.passphrase),
                                ..c3.encryption
                            },
                            ..c3
                        },
                    ),
                }
            },
        },
    }
}

/// A variable that is set, and not empty.
fn read_var(v: &Option<String>) -> (r: Option<String>)
    ensures
        ov(r) == var(*v),
{
    match v {
        None => None,
        Some(s) => {
            if str_eq(s.as_str(), "") {
                proof {
                    reveal_strlit("");
                }
                None
            } else {
                proof {
                    reveal_strlit("");
                    assert(s@.len() == 0 ==> s@ =~= ""@);
                }
                Some(s.as_str().to_string())
            }
        },
    }
}

/// Sets the tokens of a token file, from its trimmed content.
pub fn accept_token_file(path: &str, content: Result<String, String>) -> (r: Result<
    Vec<String>,
    String,
>)
    ensures
        ({
            let t = match content {
                Ok(v) => Ok(v@),
                Err(e) => Err(e@),
            };
            match r {
                Ok(v) => file_tokens(path@, t) == Ok::<Seq<Seq<char>>, Seq<char>>(texts(v@)),
                Err(e) => file_tokens(path@, t) == Err::<Seq<Seq<char>>, Seq<char>>(e@),
            }
        }),
{
    match content {
        Err(e) => Err(
            Text::new("AIKOQL_TCP_TOKEN_FILE ").lit(path).lit(": ").lit(e.as_str()).done(),
        ),
        Ok(t) => {
            if str_eq(t.as_str(), "") {
                proof {
                    reveal_strlit("");
                }
                return Err(
                    Text::new("AIKOQL_TCP_TOKEN_FILE ").lit(path).lit(": file is empty").done(),
                );
            }
            proof {
                reveal_strlit("");
                assert(t@.len() == 0 ==> t@ =~= ""@);
            }
            let ghost tv = t@;
            let mut v: Vec<String> = Vec::new();
            v.push(t);
            assert(texts(v@) =~= seq![tv]);
            Ok(v)
        },
    }
}

fn put_env_tokens(c: &mut RuntimeConfig, e: &EnvConfig) -> (r: Result<(), String>)
    ensures
        match env_tokens(*e, old(c)@.tcp_tokens) {
            Ok(t) => r is Ok && final(c)@ == (CfgV { tcp_tokens: t, ..old(c)@ }),
            Err(m) => r is Err && r->Err_0@ == m,
        },
{
    match &e.token_file {
        Some((path, content)) => {
            if !str_eq(path.as_str(), "") {
                proof {
                    reveal_strlit("");
                    assert(path@.len() == 0 ==> path@ =~= ""@);
                }
                let t: Result<String, String> = match content {
                    Ok(v) => Ok(trim(v.as_str())),
                    Err(m) => Err(m.as_str().to_string()),
                };
                match accept_token_file(path.as_str(), t) {
                    Ok(v) => {
                        c.tcp_tokens = v;
                        return Ok(());
                    },
                    Err(m) => {
                        return Err(m);
                    },
                }
            }
            proof {
                reveal_strlit("");
            }
        },
        None => {},
    }
    match read_var(&e.token) {
        Some(t) => {
            let ghost tv = t@;
            let mut v: Vec<String> = Vec::new();
            v.push(t);
            assert(texts(v@) =~= seq![tv]);
            c.tcp_tokens = v;
        },
        None => {},
    }
    Ok(())
}

/// Applies the environment.
pub(crate) fn apply_env(c: &mut RuntimeConfig, e: &EnvConfig) -> (r: Result<(), String>)
    ensures
        match with_env(old(c)@, *e) {
            Ok(x) => r is Ok && final(c)@ == x,
            Err(m) => r is Err && r->Err_0@ == m,
        },
{
    match read_var(&e.db) {
        Some(v) => {
            c.db_path = v;
        },
        None => {},
    }
    match read_var(&e.backend) {
        Some(v) => match put_backend(c, "AIKOQL_BACKEND: ", v.as_str()) {
            Err(m) => {
                return Err(m);
            },
            Ok(_) => {},
        },
        None => {},
    }
    match put_env_tokens(c, e) {
        Err(m) => {
            return Err(m);
        },
        Ok(_) => {},
    }
    match read_var(&e.listen) {
        Some(v) => {
            c.listen_addr = Some(v);
        },
        None => {},
    }
    match read_var(&e.metrics_addr) {
        Some(v) => {
            c.metrics_addr = Some(v);
        },
        None => {},
    }
    match read_var(&e.memory_dir) {
        Some(v) => {
            c.memory_dir = v;
        },
        None => {},
    }
    match read_var(&e.embedding_provider) {
        Some(v) => match put_provider(c, "AIKOQL_EMBEDDING_PROVIDER", v.as_str()) {
            Err(m) => {
                return Err(m);
            },
            Ok(_) => {},
        },
        None => {},
    }
    apply_env_rest(c, e);
    Ok(())
}

fn apply_env_rest(c: &mut RuntimeConfig, e: &EnvConfig)
    ensures
        final(c)@ == (CfgV {
            embedding_base_url: over(var(e.embedding_base_url), old(c)@.embedding_base_url),
            embedding_model: over(var(e.embedding_model), old(c)@.embedding_model),
            embedding_api_key: over_opt(var(e.embedding_api_key), old(c)@.embedding_api_key),
            model_dir: over_opt(var(e.model_dir), old(c)@.model_dir),
            encryption: (EncV {
                passphrase: over_opt(var(e.passphrase), old(c)@.encryption.passphrase),
                ..old(c)@.encryption
            }),
            ..old(c)@
        }),
{
    match read_var(&e.embedding_base_url) {
        Some(v) => {
            c.embedding_base_url = v;
        },
        None => {},
    }
    match read_var(&e.embedding_model) {
        Some(v) => {
            c.embedding_model = v;
        },
        None => {},
    }
    match read_var(&e.embedding_api_key) {
        Some(v) => {
            c.embedding_api_key = Some(v);
        },
        None => {},
    }
    match read_var(&e.model_dir) {
        Some(v) => {
            c.model_dir = Some(v);
        },
        None => {},
    }
    match read_var(&e.passphrase) {
        Some(v) => {
            c.encryption.passphrase = Some(v);
        },
        None => {},
    }
}

// ---------------------------------------------------------------------------
// The command line layer
/// What an argument is.
#[derive(Clone, Copy, Debug, PartialEq, Eq, Structural)]
pub enum Flag {
    Listen,
    TcpToken,
    MetricsAddr,
    MemoryDir,
    EmbeddingProvider,
    EmbeddingBaseUrl,
    EmbeddingModel,
    EmbeddingApiKey,
    ModelDir,
    Backend,
    Config,
    Unknown,
    Positional,
}

pub open spec fn flag_of(a: Seq<char>) -> Flag {
    if a == "--listen"@ {
        Flag::Listen
    } else if a == "--tcp-token"@ {
        Flag::TcpToken
    } else if a == "--metrics-addr"@ {
        Flag::MetricsAddr
    } else if a == "--memory-dir"@ {
        Flag::MemoryDir
    } else if a == "--embedding-provider"@ {
        Flag::EmbeddingProvider
    } else if a == "--embedding-base-url"@ {
        Flag::EmbeddingBaseUrl
    } else if a == "--embedding-model"@ {
        Flag::EmbeddingModel
    } else if a == "--embedding-api-key"@ {
        Flag::EmbeddingApiKey
    } else if a == "--model-dir"@ {
        Flag::ModelDir
    } else if a == "--backend"@ {
        Flag::Backend
    } else if a == "--config"@ {
        Flag::Config
    } else if has_prefix(a, "--"@) {
        Flag::Unknown
    } else {
        Flag::Positional
    }
}

fn read_flag(a: &str) -> (r: Flag)
    ensures
        r == flag_of(a@),
{
    if str_eq(a, "--listen") {
        Flag::Listen
    } else if str_eq(a, "--tcp-token") {
        Flag::TcpToken
    } else if str_eq(a, "--metrics-addr") {
        Flag::MetricsAddr
    } else if str_eq(a, "--memory-dir") {
        Flag::MemoryDir
    } else if str_eq(a, "--embedding-provider") {
        Flag::EmbeddingProvider
    } else if str_eq(a, "--embedding-base-url") {
        Flag::EmbeddingBaseUrl
    } else if str_eq(a, "--embedding-model") {
        Flag::EmbeddingModel
    } else if str_eq(a, "--embedding-api-key") {
        Flag::EmbeddingApiKey
    } else if str_eq(a, "--model-dir") {
        Flag::ModelDir
    } else if str_eq(a, "--backend") {
        Flag::Backend
    } else if str_eq(a, "--config") {
        Flag::Config
    } else if starts_with(a, "--") {
        Flag::Unknown
    } else {
        Flag::Positional
    }
}

/// What a flag with the value behind it does: where the value is absent, some
/// flags have a default and some refuse. Tokens gather apart.
pub open spec fn flag_step(
    c: CfgV,
    tokens: Seq<Seq<char>>,
    a: Seq<char>,
    value: Option<Seq<char>>,
) -> Result<(CfgV, Seq<Seq<char>>), Seq<char>> {
    match flag_of(a) {
        Flag::Listen => Ok(
            (CfgV { listen_addr: Some(over(value, "127.0.0.1:9090"@)), ..c }, tokens),
        ),
        Flag::TcpToken => match value {
            Some(v) => Ok((c, tokens.push(v))),
            None => Err("--tcp-token requires a value: TOKEN[:TENANT[:ROLE1,ROLE2]]"@),
        },
        Flag::MetricsAddr => Ok(
            (CfgV { metrics_addr: Some(over(value, "127.0.0.1:9091"@)), ..c }, tokens),
        ),
        Flag::MemoryDir => Ok((CfgV { memory_dir: over(value, "./memory"@), ..c }, tokens)),
        Flag::EmbeddingProvider => match set_provider(
            c,
            "--embedding-provider"@,
            over(value, "candle"@),
        ) {
            Ok(x) => Ok((x, tokens)),
            Err(m) => Err(m),
        },
        Flag::EmbeddingBaseUrl => Ok(
            (CfgV { embedding_base_url: over(value, "http://localhost:11434"@), ..c }, tokens),
        ),
        Flag::EmbeddingModel => Ok(
            (CfgV { embedding_model: over(value, "nomic-embed-text"@), ..c }, tokens),
        ),
        Flag::EmbeddingApiKey => Ok(
            (CfgV { embedding_api_key: Some(over(value, ""@)), ..c }, tokens),
        ),
        Flag::ModelDir => match value {
            Some(v) => Ok((CfgV { model_dir: Some(v), ..c }, tokens)),
            None => Err("--model-dir requires a value"@),
        },
        Flag::Backend => match value {
            Some(v) => match set_backend(c, "--backend: "@, v) {
                Ok(x) => Ok((x, tokens)),
                Err(m) => Err(m),
            },
            None => Err("--backend requires a value: redb|aikoql|aikoql-v2"@),
        },
        Flag::Config => Ok((c, tokens)),
        Flag::Unknown => Err("Unknown option: "@ + a + " (run `aikoql-mcp help`)"@),
        Flag::Positional => Ok((CfgV { db_path: a, ..c }, tokens)),
    }
}

/// The argument behind position `i`.
pub open spec fn behind(args: Seq<String>, i: int) -> Option<Seq<char>> {
    if i + 1 < args.len() {
        Some(args[i + 1]@)
    } else {
        None
    }
}

/// The configuration after the arguments from `i` on. A flag takes the
/// argument behind it, a positional argument stands alone.
pub open spec fn with_args(c: CfgV, tokens: Seq<Seq<char>>, args: Seq<String>, i: int) -> Result<
    (CfgV, Seq<Seq<char>>),
    Seq<char>,
>
    decreases
            (if i < args.len() {
                args.len() - i
            } else {
                0
            }),
{
    if i < 0 || i >= args.len() {
        Ok((c, tokens))
    } else {
        match flag_step(c, tokens, args[i]@, behind(args, i)) {
            Err(m) => Err(m),
            Ok((c1, t1)) => with_args(
                c1,
                t1,
                args,
                i + (if flag_of(args[i]@) == Flag::Positional {
                    1int
                } else {
                    2
                }),
            ),
        }
    }
}

/// The configuration after the command line: its tokens, if it has any,
/// replace those below.
pub open spec fn with_cli(c: CfgV, args: Seq<String>, start: int) -> CfgR {
    match with_args(c, seq![], args, start) {
        Err(m) => Err(m),
        Ok((c1, tokens)) => Ok(
            if tokens.len() > 0 {
                CfgV { tcp_tokens: tokens, ..c1 }
            } else {
                c1
            },
        ),
    }
}

fn value_or(value: Option<&str>, default: &str) -> (r: String)
    ensures
        r@ == over(
            match value {
                Some(v) => Some(v@),
                None => None,
            },
            default@,
        ),
{
    match value {
        Some(v) => v.to_string(),
        None => default.to_string(),
    }
}

/// Applies one argument.
fn step(c: &mut RuntimeConfig, tokens: &mut Vec<String>, a: &str, value: Option<&str>) -> (r: Result<
    (),
    String,
>)
    ensures
        match flag_step(
            old(c)@,
            texts(old(tokens)@),
            a@,
            match value {
                Some(v) => Some(v@),
                None => None,
            },
        ) {
            Ok((x, t)) => r is Ok && final(c)@ == x && texts(final(tokens)@) == t,
            Err(m) => r is Err && r->Err_0@ == m,
        },
{
    let ghost t0 = texts(tokens@);
    match read_flag(a) {
        Flag::Listen => {
            c.listen_addr = Some(value_or(value, "127.0.0.1:9090"));
        },
        Flag::TcpToken => match value {
            Some(v) => {
                tokens.push(v.to_string());
                assert(texts(tokens@) =~= t0.push(v@));
            },
            None => {
                return Err(
                    "--tcp-token requires a value: TOKEN[:TENANT[:ROLE1,ROLE2]]".to_string(),
                );
            },
        },
        Flag::MetricsAddr => {
            c.metrics_addr = Some(value_or(value, "127.0.0.1:9091"));
        },
        Flag::MemoryDir => {
            c.memory_dir = value_or(value, "./memory");
        },
        Flag::EmbeddingProvider => {
            let v = value_or(value, "candle");
            return put_provider(c, "--embedding-provider", v.as_str());
        },
        Flag::EmbeddingBaseUrl => {
            c.embedding_base_url = value_or(value, "http://localhost:11434");
        },
        Flag::EmbeddingModel => {
            c.embedding_model = value_or(value, "nomic-embed-text");
        },
        Flag::EmbeddingApiKey => {
            c.embedding_api_key = Some(value_or(value, ""));
        },
        Flag::ModelDir => match value {
            Some(v) => {
                c.model_dir = Some(v.to_string());
            },
            None => {
                return Err("--model-dir requires a value".to_string());
            },
        },
        Flag::Backend => match value {
            Some(v) => {
                return put_backend(c, "--backend: ", v);
            },
            None => {
                return Err("--backend requires a value: redb|aikoql|aikoql-v2".to_string());
            },
        },
        Flag::Config => {},
        Flag::Unknown => {
            return Err(
                Text::new("Unknown option: ").lit(a).lit(" (run `aikoql-mcp help`)").done(),
            );
        },
        Flag::Positional => {
            c.db_path = a.to_string();
        },
    }
    Ok(())
}

/// Applies the arguments from `start` on.
pub(crate) fn apply_cli(c: &mut RuntimeConfig, args: &Vec<String>, start: usize) -> (r: Result<(), String>)
    ensures
        match with_cli(old(c)@, args@, start as int) {
            Ok(x) => r is Ok && final(c)@ == x,
            Err(m) => r is Err && r->Err_0@ == m,
        },
{
    let ghost c0 = c@;
    let mut tokens: Vec<String> = Vec::new();
    let n = args.len();
    let mut i: usize = start;
    assert(texts(tokens@) =~= seq![]);
    while i < n
        invariant
            n == args@.len(),
            c0 == old(c)@,
            with_args(c0, seq![], args@, start as int) == with_args(
                c@,
                texts(tokens@),
                args@,
                i as int,
            ),
        decreases n - i,
    {
        let a = args[i].as_str();
        let value: Option<&str> = if i < n - 1 {
            Some(args[i + 1].as_str())
        } else {
            None
        };
        match step(c, &mut tokens, a, value) {
            Err(m) => {
                return Err(m);
            },
            Ok(_) => {},
        }
        let alone = match read_flag(a) {
            Flag::Positional => true,
            _ => false,
        };
        if alone {
            i += 1;
        } else if i < n - 1 {
            i += 2;
        } else {
            assert(with_args(c@, texts(tokens@), args@, i + 2) == with_args(
                c@,
                texts(tokens@),
                args@,
                n as int,
            ));
            i = n;
        }
    }
    if tokens.len() > 0 {
        c.tcp_tokens = tokens;
    }
    Ok(())
}

// ---------------------------------------------------------------------------
// The pipeline
/// Where the arguments of the server begin: behind `serve`, or behind the
/// program's name.
pub open spec fn first_arg(serve: bool, idx: Option<usize>) -> Result<int, Seq<char>> {
    if serve {
        match idx {
            Some(i) => Ok(i + 2),
            None => Err("Usage: aikoql-mcp serve [OPTIONS] [DB]"@),
        }
    } else {
        Ok(1)
    }
}

/// The configuration of all layers.
pub open spec fn loaded(
    args: Seq<String>,
    serve: bool,
    idx: Option<usize>,
    toml: Option<TomlSource>,
    env: EnvConfig,
) -> CfgR {
    let filed = match toml {
        None => Ok(defaults()),
        Some(t) => match t.parsed {
            Err(e) => Err("config "@ + t.path@ + ": "@ + e@),
            Ok(x) => with_toml(defaults(), t.path@, x),
        },
    };
    match filed {
        Err(e) => Err(e),
        Ok(c1) => match with_env(c1, env) {
            Err(e) => Err(e),
            Ok(c2) => match first_arg(serve, idx) {
                Err(e) => Err(e),
                Ok(start) => with_cli(c2, args, start),
            },
        },
    }
}

/// A subcommand that is `serve`.
pub open spec fn is_serve(subcmd: Option<&str>) -> bool {
    subcmd is Some && subcmd->0@ == "serve"@
}

/// Loads the configuration: defaults, the file, the environment, the command
/// line.
pub fn load(
    args: &Vec<String>,
    subcmd: Option<&str>,
    subcmd_idx: Option<usize>,
    toml: Option<TomlSource>,
    env: &EnvConfig,
) -> (r: Result<RuntimeConfig, String>)
    ensures
        cfg_rv(r) == loaded(args@, is_serve(subcmd), subcmd_idx, toml, *env),
{
    let mut cfg = default_config();
    match toml {
        Some(t) => match t.parsed {
            Err(e) => {
                return Err(
                    Text::new("config ").lit(t.path.as_str()).lit(": ").lit(e.as_str()).done(),
                );
            },
            Ok(x) => match apply_toml(&mut cfg, t.path.as_str(), x) {
                Err(e) => {
                    return Err(e);
                },
                Ok(_) => {},
            },
        },
        None => {},
    }
    match apply_env(&mut cfg, env) {
        Err(e) => {
            return Err(e);
        },
        Ok(_) => {},
    }
    let serve = match subcmd {
        Some(s) => str_eq(s, "serve"),
        None => false,
    };
    let start: usize = if serve {
        match subcmd_idx {
            None => {
                return Err("Usage: aikoql-mcp serve [OPTIONS] [DB]".to_string());
            },
            Some(i) => {
                if i >= usize::MAX - 2 {
                    usize::MAX
                } else {
                    i + 2
                }
            },
        }
    } else {
        1
    };
    proof {
        let n = args@.len();
        let want = first_arg(serve, subcmd_idx)->Ok_0;
        assert(want == start || (want >= n && start >= n)) by {
            if start == usize::MAX {
                assert(args.len() <= usize::MAX);
            }
        }
        assert(with_args(cfg@, seq![], args@, want) == with_args(
            cfg@,
            seq![],
            args@,
            start as int,
        ));
    }
    match apply_cli(&mut cfg, args, start) {
        Err(e) => {
            return Err(e);
        },
        Ok(_) => {},
    }
    Ok(cfg)
}

// ---------------------------------------------------------------------------
// Laws
/// Tokens on the command line replace every other token: what a lower layer
/// granted ends.
pub proof fn cli_tokens_replace(c: CfgV, args: Seq<String>, start: int)
    requires
        with_args(c, seq![], args, start) matches Ok((_, t)) && t.len() > 0,
    ensures
        with_cli(c, args, start) is Ok,
        with_cli(c, args, start)->Ok_0.tcp_tokens == (with_args(c, seq![], args, start)->Ok_0).1,
{
}

/// A backend that the environment names wins over the file; one that is not
/// known refuses the start.
pub proof fn env_backend_wins(c: CfgV, e: EnvConfig)
    requires
        var(e.backend) is Some,
        with_env(c, e) is Ok,
    ensures
        with_env(c, e)->Ok_0.backend is Some,
        crate::server::backend::backend_named(var(e.backend)->0) == Ok::<
            crate::server::backend::StorageBackend,
            Seq<char>,
        >(with_env(c, e)->Ok_0.backend->0),
{
}

/// Without layers, the defaults hold.
pub proof fn bare_start_has_the_defaults(args: Seq<String>, env: EnvConfig)
    requires
        args.len() <= 1,
        with_env(defaults(), env) == Ok::<CfgV, Seq<char>>(defaults()),
    ensures
        loaded(args, false, None, None, env) == Ok::<CfgV, Seq<char>>(defaults()),
{
}

} // verus!
