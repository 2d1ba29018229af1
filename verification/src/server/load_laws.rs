//! Where each setting comes from: the command line, then the environment, then
//! the file, then the default. Every statement names a setting, the flag, the
//! variable and the key that set it, and what holds without them.

use crate::server::backend::{quoted_of, StorageBackend};
use crate::server::config::{
    defaults, ov, provider_named, texts, with_toml, CfgV, EnvConfig, RuntimeConfig, TomlConfig,
    TomlSource,
};
use crate::server::load::{behind, flag_of, flag_step, load, with_args, with_cli, with_env, Flag};
use crate::text::{has_prefix, trim_of};
use vstd::prelude::*;

verus! {

// ---------------------------------------------------------------------------
// Names
/// The names that an embedding provider may have.
pub open spec fn provider_known(p: Seq<char>) -> bool {
    p == "candle"@ || p == "http"@ || p == "ollama"@ || p == "openai"@
}

/// The provider that a name stands for: the local one is none.
pub open spec fn provider_meant(p: Seq<char>) -> Option<Seq<char>> {
    if p == "candle"@ {
        None
    } else {
        Some("openai"@)
    }
}

/// The names that a storage engine may have.
pub open spec fn backend_known(v: Seq<char>) -> bool {
    v == "redb"@ || v == "aikoql"@ || v == "aikoql-v2"@
}

/// `b` is the engine that a name stands for.
pub open spec fn backend_meant(v: Seq<char>, b: StorageBackend) -> bool {
    &&& v == "redb"@ ==> b == StorageBackend::Redb
    &&& v == "aikoql"@ ==> b == StorageBackend::Aikoql
    &&& v == "aikoql-v2"@ ==> b == StorageBackend::AikoqlV2
}

/// What was said, or else what was said below.
pub open spec fn or_else(a: Option<Seq<char>>, b: Option<Seq<char>>) -> Option<Seq<char>> {
    if a is Some {
        a
    } else {
        b
    }
}

/// A variable that is set and not empty.
pub open spec fn set_var(v: Option<String>) -> Option<Seq<char>> {
    if v is Some && v->0@.len() > 0 {
        Some(v->0@)
    } else {
        None
    }
}

proof fn lemma_names()
    ensures
        "redb"@.len() == 4,
        "aikoql"@.len() == 6,
        "aikoql-v2"@.len() == 9,
        "candle"@.len() == 6,
        "http"@.len() == 4,
        "ollama"@.len() == 6,
        "openai"@.len() == 6,
        "candle"@[0] == 'c',
        "ollama"@[0] == 'o',
        "openai"@[0] == 'o',
{
    reveal_strlit("redb");
    reveal_strlit("aikoql");
    reveal_strlit("aikoql-v2");
    reveal_strlit("candle");
    reveal_strlit("http");
    reveal_strlit("ollama");
    reveal_strlit("openai");
}

// ---------------------------------------------------------------------------
// The command line
/// An argument that is a flag, and takes the argument behind it.
pub open spec fn dashed(a: Seq<char>) -> bool {
    has_prefix(a, "--"@)
}

/// The next argument that is read behind position `i`.
pub open spec fn next_read(args: Seq<String>, i: int) -> int {
    if dashed(args[i]@) {
        i + 2
    } else {
        i + 1
    }
}

/// The value of a flag: that of its last occurrence among the arguments that
/// are read from `i` on. One without a value has the default.
pub open spec fn flag_value(args: Seq<String>, i: int, flag: Seq<char>, default: Seq<char>) -> Option<
    Seq<char>,
>
    decreases
            (if i < args.len() {
                args.len() - i
            } else {
                0
            }),
{
    if i < 0 || i >= args.len() {
        None
    } else {
        let rest = flag_value(args, next_read(args, i), flag, default);
        if rest is None && args[i]@ == flag {
            Some(
                if i + 1 < args.len() {
                    args[i + 1]@
                } else {
                    default
                },
            )
        } else {
            rest
        }
    }
}

/// The values of a flag that may be repeated, in their order.
pub open spec fn flag_values(args: Seq<String>, i: int, flag: Seq<char>) -> Seq<Seq<char>>
    decreases
            (if i < args.len() {
                args.len() - i
            } else {
                0
            }),
{
    if i < 0 || i >= args.len() {
        seq![]
    } else if args[i]@ == flag && i + 1 < args.len() {
        seq![args[i + 1]@] + flag_values(args, next_read(args, i), flag)
    } else {
        flag_values(args, next_read(args, i), flag)
    }
}

/// The last argument that is no flag, among those that are read from `i` on.
pub open spec fn last_plain(args: Seq<String>, i: int) -> Option<Seq<char>>
    decreases
            (if i < args.len() {
                args.len() - i
            } else {
                0
            }),
{
    if i < 0 || i >= args.len() {
        None
    } else {
        let rest = last_plain(args, next_read(args, i));
        if rest is None && !dashed(args[i]@) {
            Some(args[i]@)
        } else {
            rest
        }
    }
}

/// The flags that are known.
pub open spec fn flag_known(a: Seq<char>) -> bool {
    ||| a == "--listen"@
    ||| a == "--tcp-token"@
    ||| a == "--metrics-addr"@
    ||| a == "--memory-dir"@
    ||| a == "--embedding-provider"@
    ||| a == "--embedding-base-url"@
    ||| a == "--embedding-model"@
    ||| a == "--embedding-api-key"@
    ||| a == "--model-dir"@
    ||| a == "--backend"@
    ||| a == "--config"@
}

/// The flags that must have a value.
pub open spec fn value_needed(a: Seq<char>) -> bool {
    a == "--tcp-token"@ || a == "--model-dir"@ || a == "--backend"@
}

/// Argument `i` is accepted where it is read.
pub open spec fn arg_accepted(args: Seq<String>, i: int) -> bool {
    let a = args[i]@;
    &&& dashed(a) ==> flag_known(a)
    &&& value_needed(a) ==> i + 1 < args.len()
    &&& a == "--backend"@ ==> backend_known(args[i + 1]@)
    &&& a == "--embedding-provider"@ && i + 1 < args.len() ==> provider_known(args[i + 1]@)
}

/// Every argument that is read from `i` on is accepted.
pub open spec fn args_accepted(args: Seq<String>, i: int) -> bool
    decreases
            (if i < args.len() {
                args.len() - i
            } else {
                0
            }),
{
    i < 0 || i >= args.len() || (arg_accepted(args, i) && args_accepted(args, next_read(args, i)))
}

proof fn lemma_dashed(a: Seq<char>)
    requires
        a.len() >= 2,
        a[0] == '-',
        a[1] == '-',
    ensures
        dashed(a),
{
    reveal_strlit("--");
    assert(a.take(2) =~= "--"@);
}

proof fn lemma_flag_names()
    ensures
        flag_of("--listen"@) == Flag::Listen,
        flag_of("--tcp-token"@) == Flag::TcpToken,
        flag_of("--metrics-addr"@) == Flag::MetricsAddr,
        flag_of("--memory-dir"@) == Flag::MemoryDir,
        flag_of("--embedding-provider"@) == Flag::EmbeddingProvider,
        flag_of("--embedding-base-url"@) == Flag::EmbeddingBaseUrl,
        flag_of("--embedding-model"@) == Flag::EmbeddingModel,
        flag_of("--embedding-api-key"@) == Flag::EmbeddingApiKey,
        flag_of("--model-dir"@) == Flag::ModelDir,
        flag_of("--backend"@) == Flag::Backend,
        flag_of("--config"@) == Flag::Config,
        forall|a: Seq<char>| #[trigger] flag_known(a) ==> dashed(a),
        forall|a: Seq<char>|
            #![trigger flag_of(a)]
            flag_of(a) == Flag::Unknown <==> dashed(a) && !flag_known(a),
        forall|a: Seq<char>| #![trigger flag_of(a)] flag_of(a) == Flag::Positional <==> !dashed(a),
{
    reveal_strlit("--listen");
    reveal_strlit("--tcp-token");
    reveal_strlit("--metrics-addr");
    reveal_strlit("--memory-dir");
    reveal_strlit("--embedding-provider");
    reveal_strlit("--embedding-base-url");
    reveal_strlit("--embedding-model");
    reveal_strlit("--embedding-api-key");
    reveal_strlit("--model-dir");
    reveal_strlit("--backend");
    reveal_strlit("--config");
    assert("--listen"@[2] == 'l' && "--config"@[2] == 'c');
    assert("--tcp-token"@[2] == 't' && "--model-dir"@[2] == 'm');
    assert("--embedding-provider"@[12] == 'p' && "--embedding-base-url"@[12] == 'b');
    assert forall|a: Seq<char>| #[trigger] flag_known(a) implies dashed(a) by {
        lemma_dashed(a);
    }
    assert forall|a: Seq<char>|
        #![trigger flag_of(a)]
        (flag_of(a) == Flag::Unknown <==> dashed(a) && !flag_known(a)) && (flag_of(a)
            == Flag::Positional <==> !dashed(a)) by {
        if flag_known(a) {
            assert(dashed(a));
        }
    }
}

/// The settings of the command line over those below it: every flag sets the
/// setting of its own name, and nothing else.
pub open spec fn cli_settings(c: CfgV, x: CfgV, args: Seq<String>, i: int) -> bool {
    &&& Some(x.db_path) == or_else(last_plain(args, i), Some(c.db_path))
    &&& x.listen_addr == or_else(
        flag_value(args, i, "--listen"@, "127.0.0.1:9090"@),
        c.listen_addr,
    )
    &&& x.metrics_addr == or_else(
        flag_value(args, i, "--metrics-addr"@, "127.0.0.1:9091"@),
        c.metrics_addr,
    )
    &&& Some(x.memory_dir) == or_else(
        flag_value(args, i, "--memory-dir"@, "./memory"@),
        Some(c.memory_dir),
    )
    &&& Some(x.embedding_base_url) == or_else(
        flag_value(args, i, "--embedding-base-url"@, "http://localhost:11434"@),
        Some(c.embedding_base_url),
    )
    &&& Some(x.embedding_model) == or_else(
        flag_value(args, i, "--embedding-model"@, "nomic-embed-text"@),
        Some(c.embedding_model),
    )
    &&& x.embedding_api_key == or_else(
        flag_value(args, i, "--embedding-api-key"@, ""@),
        c.embedding_api_key,
    )
    &&& x.model_dir == or_else(flag_value(args, i, "--model-dir"@, ""@), c.model_dir)
    &&& match flag_value(args, i, "--embedding-provider"@, "candle"@) {
        Some(p) => x.embedding_provider == provider_meant(p),
        None => x.embedding_provider == c.embedding_provider,
    }
    &&& match flag_value(args, i, "--backend"@, ""@) {
        Some(v) => x.backend is Some && backend_meant(v, x.backend->0),
        None => x.backend == c.backend,
    }
    &&& x.log_level == c.log_level
    &&& x.log_format == c.log_format
    &&& x.rate_enabled == c.rate_enabled
    &&& x.rate_max_calls_per_minute == c.rate_max_calls_per_minute
    &&& x.encryption == c.encryption
    &&& x.config_path == c.config_path
}

/// One argument that is read sets the setting of its own name.
proof fn lemma_arg(c: CfgV, t: Seq<Seq<char>>, args: Seq<String>, i: int)
    requires
        0 <= i < args.len(),
    ensures
        flag_step(c, t, args[i]@, behind(args, i)) is Ok <==> arg_accepted(args, i),
{
    lemma_flag_names();
    lemma_names();
    let a = args[i]@;
    let f = flag_of(a);
    assert(f == Flag::Listen ==> a == "--listen"@);
    if f == Flag::EmbeddingProvider && i + 1 >= args.len() {
        assert(provider_named("candle"@) is Ok);
    }
}

#[verifier::rlimit(60)]
proof fn lemma_cli(c: CfgV, t: Seq<Seq<char>>, args: Seq<String>, i: int)
    requires
        i >= 0,
    ensures
        with_args(c, t, args, i) is Ok <==> args_accepted(args, i),
        with_args(c, t, args, i) matches Ok((x, u)) ==> cli_settings(c, x, args, i) && u == t
            + flag_values(args, i, "--tcp-token"@),
    decreases
            (if i < args.len() {
                args.len() - i
            } else {
                0
            }),
{
    if i >= args.len() {
        assert(t + flag_values(args, i, "--tcp-token"@) =~= t);
    } else {
        lemma_flag_names();
        lemma_names();
        lemma_arg(c, t, args, i);
        let a = args[i]@;
        let n = next_read(args, i);
        if let Ok((c1, t1)) = flag_step(c, t, a, behind(args, i)) {
            lemma_cli(c1, t1, args, n);
            let rest = flag_values(args, n, "--tcp-token"@);
            if a == "--tcp-token"@ {
                assert(t.push(args[i + 1]@) + rest =~= t + (seq![args[i + 1]@] + rest));
            }
            if let Ok((x, u)) = with_args(c1, t1, args, n) {
                lemma_cli_step(c, c1, x, t, args, i);
            }
        }
    }
}

#[verifier::rlimit(80)]
#[verifier::spinoff_prover]
proof fn lemma_cli_step(
    c: CfgV,
    c1: CfgV,
    x: CfgV,
    t: Seq<Seq<char>>,
    args: Seq<String>,
    i: int,
)
    requires
        0 <= i < args.len(),
        flag_step(c, t, args[i]@, behind(args, i)) matches Ok((y, _)) && y == c1,
        cli_settings(c1, x, args, next_read(args, i)),
    ensures
        cli_settings(c, x, args, i),
{
    lemma_flag_names();
    lemma_names();
    let a = args[i]@;
    match flag_of(a) {
        Flag::Listen => {
            assert(a == "--listen"@);
        },
        Flag::TcpToken => {
            assert(a == "--tcp-token"@);
        },
        Flag::MetricsAddr => {
            assert(a == "--metrics-addr"@);
        },
        Flag::MemoryDir => {
            assert(a == "--memory-dir"@);
        },
        Flag::EmbeddingProvider => {
            assert(a == "--embedding-provider"@);
        },
        Flag::EmbeddingBaseUrl => {
            assert(a == "--embedding-base-url"@);
        },
        Flag::EmbeddingModel => {
            assert(a == "--embedding-model"@);
        },
        Flag::EmbeddingApiKey => {
            assert(a == "--embedding-api-key"@);
        },
        Flag::ModelDir => {
            assert(a == "--model-dir"@);
        },
        Flag::Backend => {
            assert(a == "--backend"@);
        },
        Flag::Config => {
            assert(a == "--config"@);
        },
        Flag::Unknown => {},
        Flag::Positional => {
            assert(!dashed(a));
        },
    }
}

/// The command line. It is accepted exactly where every argument that is read
/// is; then each flag has set the setting of its own name to its last value,
/// the last plain argument is the database, the tokens, if there are any,
/// replace those below, and every other setting is as it was.
pub proof fn each_flag_sets_its_own_setting(c: CfgV, args: Seq<String>, start: int)
    requires
        start >= 0,
    ensures
        with_cli(c, args, start) is Ok <==> args_accepted(args, start),
        with_cli(c, args, start) matches Ok(x) ==> {
            let tokens = flag_values(args, start, "--tcp-token"@);
            &&& cli_settings(c, x, args, start)
            &&& x.tcp_tokens == (if tokens.len() > 0 {
                tokens
            } else {
                c.tcp_tokens
            })
        },
{
    lemma_cli(c, seq![], args, start);
    let tokens = flag_values(args, start, "--tcp-token"@);
    assert(Seq::<Seq<char>>::empty() + tokens =~= tokens);
    if let Ok((x, u)) = with_args(c, seq![], args, start) {
        let y = CfgV { tcp_tokens: tokens, ..x };
        lemma_tokens_apart(c, x, y, args, start);
        assert(with_args(c, seq![], args, start)->Ok_0.0.tcp_tokens == c.tcp_tokens) by {
            lemma_tokens_below(c, seq![], args, start);
        }
    }
}

proof fn lemma_tokens_apart(c: CfgV, x: CfgV, y: CfgV, args: Seq<String>, i: int)
    requires
        cli_settings(c, x, args, i),
        y == (CfgV { tcp_tokens: y.tcp_tokens, ..x }),
    ensures
        cli_settings(c, y, args, i),
{
}

proof fn lemma_tokens_below(c: CfgV, t: Seq<Seq<char>>, args: Seq<String>, i: int)
    requires
        i >= 0,
    ensures
        with_args(c, t, args, i) matches Ok((x, _)) ==> x.tcp_tokens == c.tcp_tokens,
    decreases
            (if i < args.len() {
                args.len() - i
            } else {
                0
            }),
{
    if i < args.len() {
        if let Ok((c1, t1)) = flag_step(c, t, args[i]@, behind(args, i)) {
            let n = i + (if flag_of(args[i]@) == Flag::Positional {
                1int
            } else {
                2
            });
            lemma_tokens_below(c1, t1, args, n);
        }
    }
}

/// A flag with a value: that value is the setting of its name, and every other
/// setting is as the layers below left it.
pub proof fn one_flag_changes_one_setting(c: CfgV, flag: String, value: String)
    ensures
        ({
            let args = seq![flag, value];
            let r = with_cli(c, args, 0);
            let v = value@;
            &&& flag@ == "--listen"@ ==> r == Ok::<CfgV, Seq<char>>(
                CfgV { listen_addr: Some(v), ..c },
            )
            &&& flag@ == "--metrics-addr"@ ==> r == Ok::<CfgV, Seq<char>>(
                CfgV { metrics_addr: Some(v), ..c },
            )
            &&& flag@ == "--memory-dir"@ ==> r == Ok::<CfgV, Seq<char>>(
                CfgV { memory_dir: v, ..c },
            )
            &&& flag@ == "--embedding-base-url"@ ==> r == Ok::<CfgV, Seq<char>>(
                CfgV { embedding_base_url: v, ..c },
            )
            &&& flag@ == "--embedding-model"@ ==> r == Ok::<CfgV, Seq<char>>(
                CfgV { embedding_model: v, ..c },
            )
            &&& flag@ == "--embedding-api-key"@ ==> r == Ok::<CfgV, Seq<char>>(
                CfgV { embedding_api_key: Some(v), ..c },
            )
            &&& flag@ == "--model-dir"@ ==> r == Ok::<CfgV, Seq<char>>(
                CfgV { model_dir: Some(v), ..c },
            )
            &&& flag@ == "--tcp-token"@ ==> r == Ok::<CfgV, Seq<char>>(
                CfgV { tcp_tokens: seq![v], ..c },
            )
            &&& flag@ == "--embedding-provider"@ && provider_known(v) ==> r == Ok::<
                CfgV,
                Seq<char>,
            >(CfgV { embedding_provider: provider_meant(v), ..c })
            &&& flag@ == "--config"@ ==> r == Ok::<CfgV, Seq<char>>(c)
            &&& dashed(flag@) && !flag_known(flag@) ==> r is Err
        }),
{
    let args = seq![flag, value];
    lemma_flag_names();
    lemma_names();
    reveal_with_fuel(with_args, 3);
    assert(behind(args, 0) == Some(value@));
    assert(args[0]@ == flag@);
    assert(Seq::<Seq<char>>::empty().push(value@) =~= seq![value@]);
}

/// What is said where an argument is refused.
pub proof fn refused_arguments_are_named(c: CfgV, flag: String, value: String)
    ensures
        ({
            let alone = with_cli(c, seq![flag], 0);
            let r = with_cli(c, seq![flag, value], 0);
            let a = flag@;
            &&& a == "--tcp-token"@ ==> alone == Err::<CfgV, Seq<char>>(
                "--tcp-token requires a value: TOKEN[:TENANT[:ROLE1,ROLE2]]"@,
            )
            &&& a == "--model-dir"@ ==> alone == Err::<CfgV, Seq<char>>(
                "--model-dir requires a value"@,
            )
            &&& a == "--backend"@ ==> alone == Err::<CfgV, Seq<char>>(
                "--backend requires a value: redb|aikoql|aikoql-v2"@,
            )
            &&& dashed(a) && !flag_known(a) ==> r == Err::<CfgV, Seq<char>>(
                "Unknown option: "@ + a + " (run `aikoql-mcp help`)"@,
            )
            &&& a == "--embedding-provider"@ && !provider_known(value@) ==> r == Err::<
                CfgV,
                Seq<char>,
            >(
                "--embedding-provider"@ + ": "@ + ("embedding provider \""@ + value@
                    + "\" unknown — use \"candle\", \"http\", or \"ollama\""@),
            )
            &&& a == "--backend"@ && !backend_known(value@) ==> r == Err::<CfgV, Seq<char>>(
                "--backend: "@ + ("unknown storage backend "@ + quoted_of(value@)
                    + ": use \"redb\", \"aikoql\" or \"aikoql-v2\""@),
            )
        }),
{
    let one = seq![flag];
    let two = seq![flag, value];
    lemma_flag_names();
    lemma_names();
    reveal_with_fuel(with_args, 3);
    assert(behind(one, 0) is None);
    assert(behind(two, 0) == Some(value@));
    assert(one[0]@ == flag@ && two[0]@ == flag@);
}

/// What a flag without a value stands for.
pub proof fn flags_alone_have_their_defaults(c: CfgV, flag: String)
    ensures
        ({
            let r = with_cli(c, seq![flag], 0);
            let a = flag@;
            &&& a == "--listen"@ ==> r == Ok::<CfgV, Seq<char>>(
                CfgV { listen_addr: Some("127.0.0.1:9090"@), ..c },
            )
            &&& a == "--metrics-addr"@ ==> r == Ok::<CfgV, Seq<char>>(
                CfgV { metrics_addr: Some("127.0.0.1:9091"@), ..c },
            )
            &&& a == "--memory-dir"@ ==> r == Ok::<CfgV, Seq<char>>(
                CfgV { memory_dir: "./memory"@, ..c },
            )
            &&& a == "--embedding-provider"@ ==> r == Ok::<CfgV, Seq<char>>(
                CfgV { embedding_provider: None, ..c },
            )
            &&& !dashed(a) ==> r == Ok::<CfgV, Seq<char>>(CfgV { db_path: a, ..c })
        }),
{
    let one = seq![flag];
    lemma_flag_names();
    lemma_names();
    reveal_with_fuel(with_args, 3);
    assert(behind(one, 0) is None);
    assert(one[0]@ == flag@);
}

// ---------------------------------------------------------------------------
// The environment
/// The tokens that the environment names: those of a file before a variable.
pub open spec fn env_credentials(e: EnvConfig, below: Seq<Seq<char>>) -> Seq<Seq<char>> {
    if e.token_file is Some && (e.token_file->0).0@.len() > 0 {
        match (e.token_file->0).1 {
            Ok(content) => seq![trim_of(content@)],
            Err(_) => below,
        }
    } else if set_var(e.token) is Some {
        seq![set_var(e.token)->0]
    } else {
        below
    }
}

/// The environment is accepted: its names are known, and a token file that is
/// named can be read and is not empty.
pub open spec fn env_accepted(e: EnvConfig) -> bool {
    &&& set_var(e.backend) matches Some(v) ==> backend_known(v)
    &&& set_var(e.embedding_provider) matches Some(p) ==> provider_known(p)
    &&& e.token_file is Some && (e.token_file->0).0@.len() > 0 ==> {
        &&& (e.token_file->0).1 is Ok
        &&& trim_of((e.token_file->0).1->Ok_0@).len() > 0
    }
}

/// The settings of the environment over those below it.
pub open spec fn env_settings(c: CfgV, x: CfgV, e: EnvConfig) -> bool {
    &&& Some(x.db_path) == or_else(set_var(e.db), Some(c.db_path))
    &&& x.listen_addr == or_else(set_var(e.listen), c.listen_addr)
    &&& x.metrics_addr == or_else(set_var(e.metrics_addr), c.metrics_addr)
    &&& x.tcp_tokens == env_credentials(e, c.tcp_tokens)
    &&& Some(x.memory_dir) == or_else(set_var(e.memory_dir), Some(c.memory_dir))
    &&& match set_var(e.embedding_provider) {
        Some(p) => x.embedding_provider == provider_meant(p),
        None => x.embedding_provider == c.embedding_provider,
    }
    &&& Some(x.embedding_base_url) == or_else(
        set_var(e.embedding_base_url),
        Some(c.embedding_base_url),
    )
    &&& Some(x.embedding_model) == or_else(set_var(e.embedding_model), Some(c.embedding_model))
    &&& x.embedding_api_key == or_else(set_var(e.embedding_api_key), c.embedding_api_key)
    &&& x.model_dir == or_else(set_var(e.model_dir), c.model_dir)
    &&& match set_var(e.backend) {
        Some(v) => x.backend is Some && backend_meant(v, x.backend->0),
        None => x.backend == c.backend,
    }
    &&& x.log_level == c.log_level
    &&& x.log_format == c.log_format
    &&& x.rate_enabled == c.rate_enabled
    &&& x.rate_max_calls_per_minute == c.rate_max_calls_per_minute
    &&& x.encryption.enabled == c.encryption.enabled
    &&& x.encryption.key_path == c.encryption.key_path
    &&& x.encryption.passphrase == or_else(set_var(e.passphrase), c.encryption.passphrase)
    &&& x.encryption.policies == c.encryption.policies
    &&& x.config_path == c.config_path
}

/// The environment: each variable that is set and not empty sets the setting
/// of its own name; the others stay as they were.
pub proof fn each_variable_sets_its_own_setting(c: CfgV, e: EnvConfig)
    ensures
        with_env(c, e) is Ok <==> env_accepted(e),
        with_env(c, e) matches Ok(x) ==> env_settings(c, x, e),
{
    lemma_names();
}

// ---------------------------------------------------------------------------
// The file
/// What a file says of each setting.
pub open spec fn file_db(t: TomlConfig) -> Option<Seq<char>> {
    let below = if t.storage is Some {
        ov(t.storage->0.path)
    } else {
        None
    };
    if t.database is Some {
        or_else(ov(t.database->0.path), below)
    } else {
        below
    }
}

pub open spec fn file_backend(t: TomlConfig) -> Option<Seq<char>> {
    if t.storage is Some {
        ov(t.storage->0.backend)
    } else {
        None
    }
}

pub open spec fn file_provider(t: TomlConfig) -> Option<Seq<char>> {
    if t.embedding is Some {
        ov(t.embedding->0.provider)
    } else {
        None
    }
}

/// The levels and formats of the log that are known.
pub open spec fn level_known(v: Seq<char>) -> bool {
    v == "trace"@ || v == "debug"@ || v == "info"@ || v == "warn"@ || v == "error"@
}

pub open spec fn format_known(v: Seq<char>) -> bool {
    v == "text"@ || v == "json"@
}

/// A file is accepted: the names in it are known.
pub open spec fn file_accepted(t: TomlConfig) -> bool {
    &&& file_backend(t) matches Some(v) ==> backend_known(v)
    &&& file_provider(t) matches Some(p) ==> provider_known(p)
    &&& t.logging is Some && t.logging->0.level is Some ==> level_known(t.logging->0.level->0@)
    &&& t.logging is Some && t.logging->0.format is Some ==> format_known(t.logging->0.format->0@)
}

/// The settings of a file over those below it.
pub open spec fn file_settings(c: CfgV, x: CfgV, path: Seq<char>, t: TomlConfig) -> bool {
    &&& x.config_path == Some(path)
    &&& Some(x.db_path) == or_else(file_db(t), Some(c.db_path))
    &&& match file_backend(t) {
        Some(v) => x.backend is Some && backend_meant(v, x.backend->0),
        None => x.backend == c.backend,
    }
    &&& x.listen_addr == (if t.server is Some {
        or_else(ov(t.server->0.listen), c.listen_addr)
    } else {
        c.listen_addr
    })
    &&& x.metrics_addr == (if t.server is Some {
        or_else(ov(t.server->0.metrics_addr), c.metrics_addr)
    } else {
        c.metrics_addr
    })
    &&& x.tcp_tokens == (if t.server is Some && t.server->0.tcp_tokens is Some {
        texts(t.server->0.tcp_tokens->0@)
    } else {
        c.tcp_tokens
    })
    &&& x.memory_dir == c.memory_dir
    &&& x.model_dir == c.model_dir
    &&& match file_provider(t) {
        Some(p) => x.embedding_provider == provider_meant(p),
        None => x.embedding_provider == c.embedding_provider,
    }
    &&& Some(x.embedding_base_url) == (if t.embedding is Some {
        or_else(ov(t.embedding->0.base_url), Some(c.embedding_base_url))
    } else {
        Some(c.embedding_base_url)
    })
    &&& Some(x.embedding_model) == (if t.embedding is Some {
        or_else(ov(t.embedding->0.model), Some(c.embedding_model))
    } else {
        Some(c.embedding_model)
    })
    &&& x.embedding_api_key == (if t.embedding is Some {
        ov(t.embedding->0.api_key)
    } else {
        c.embedding_api_key
    })
    &&& Some(x.log_level) == (if t.logging is Some {
        or_else(ov(t.logging->0.level), Some(c.log_level))
    } else {
        Some(c.log_level)
    })
    &&& Some(x.log_format) == (if t.logging is Some {
        or_else(ov(t.logging->0.format), Some(c.log_format))
    } else {
        Some(c.log_format)
    })
    &&& x.rate_enabled == (if t.rate_limit is Some && t.rate_limit->0.enabled is Some {
        t.rate_limit->0.enabled->0
    } else {
        c.rate_enabled
    })
    &&& x.rate_max_calls_per_minute == (if t.rate_limit is Some
        && t.rate_limit->0.max_calls_per_minute is Some {
        t.rate_limit->0.max_calls_per_minute->0
    } else {
        c.rate_max_calls_per_minute
    })
    &&& x.encryption.enabled == (if t.encryption is Some && t.encryption->0.enabled is Some {
        t.encryption->0.enabled->0
    } else {
        c.encryption.enabled
    })
    &&& Some(x.encryption.key_path) == (if t.encryption is Some {
        or_else(ov(t.encryption->0.key_path), Some(c.encryption.key_path))
    } else {
        Some(c.encryption.key_path)
    })
    &&& x.encryption.passphrase == (if t.encryption is Some {
        or_else(ov(t.encryption->0.passphrase), c.encryption.passphrase)
    } else {
        c.encryption.passphrase
    })
    &&& x.encryption.policies == (if t.encryption is Some && t.encryption->0.policies is Some {
        t.encryption->0.policies->0@
    } else {
        c.encryption.policies
    })
}

/// The file: each key sets the setting of its own name; what a file does not
/// say stays as it was. A name that is not known refuses the file.
#[verifier::rlimit(40)]
pub proof fn each_key_sets_its_own_setting(c: CfgV, path: Seq<char>, t: TomlConfig)
    ensures
        with_toml(c, path, t) is Ok <==> file_accepted(t),
        with_toml(c, path, t) matches Ok(x) ==> file_settings(c, x, path, t),
{
    lemma_names();
}

// ---------------------------------------------------------------------------
// The whole
/// The settings without any layer.
pub open spec fn bare_settings(c: CfgV) -> bool {
    &&& c.db_path == "./aikoql.redb"@
    &&& c.listen_addr is None
    &&& c.metrics_addr is None
    &&& c.tcp_tokens.len() == 0
    &&& c.memory_dir == "./memory"@
    &&& c.embedding_provider is None
    &&& c.embedding_base_url == "http://localhost:11434"@
    &&& c.embedding_model == ""@
    &&& c.embedding_api_key is None
    &&& c.model_dir is None
    &&& c.log_level == "info"@
    &&& c.log_format == "text"@
    &&& c.rate_enabled
    &&& c.rate_max_calls_per_minute == 120
    &&& !c.encryption.enabled
    &&& c.encryption.key_path == "./aikoql.key"@
    &&& c.encryption.passphrase is None
    &&& c.encryption.policies.len() == 0
    &&& c.backend is None
    &&& c.config_path is None
}

/// Where the arguments of the server begin.
pub open spec fn args_begin(subcmd: Option<&str>, idx: Option<usize>) -> Option<int> {
    if subcmd is Some && subcmd->0@ == "serve"@ {
        if idx is Some {
            Some(idx->0 + 2)
        } else {
            None
        }
    } else {
        Some(1)
    }
}

/// The configuration of a start: the defaults, under the file, under the
/// environment, under the command line. It is refused exactly where a layer
/// is.
pub proof fn layers_override_from_the_top(
    args: &Vec<String>,
    subcmd: Option<&str>,
    idx: Option<usize>,
    toml: Option<TomlSource>,
    env: &EnvConfig,
    r: Result<RuntimeConfig, String>,
) -> (w: (CfgV, CfgV, CfgV))
    requires
        call_ensures(load, (args, subcmd, idx, toml, env), r),
    ensures
        bare_settings(w.0),
        r is Ok <==> {
            &&& toml matches Some(t) ==> t.parsed is Ok && file_accepted(t.parsed->Ok_0)
            &&& env_accepted(*env)
            &&& args_begin(subcmd, idx) matches Some(start) && args_accepted(args@, start)
        },
        r matches Ok(cfg) ==> {
            let start = args_begin(subcmd, idx)->0;
            let tokens = flag_values(args@, start, "--tcp-token"@);
            &&& match toml {
                Some(t) => file_settings(w.0, w.1, t.path@, t.parsed->Ok_0),
                None => w.1 == w.0,
            }
            &&& env_settings(w.1, w.2, *env)
            &&& cli_settings(w.2, cfg@, args@, start)
            &&& cfg@.tcp_tokens == (if tokens.len() > 0 {
                tokens
            } else {
                w.2.tcp_tokens
            })
        },
{
    let c0 = defaults();
    let filed = match toml {
        None => Ok(c0),
        Some(t) => match t.parsed {
            Err(e) => Err("config "@ + t.path@ + ": "@ + e@),
            Ok(x) => with_toml(c0, t.path@, x),
        },
    };
    if let Some(t) = toml {
        if let Ok(x) = t.parsed {
            each_key_sets_its_own_setting(c0, t.path@, x);
        }
    }
    let c1 = match filed {
        Ok(x) => x,
        Err(_) => c0,
    };
    each_variable_sets_its_own_setting(c1, *env);
    let c2 = match with_env(c1, *env) {
        Ok(x) => x,
        Err(_) => c1,
    };
    if let Some(start) = args_begin(subcmd, idx) {
        each_flag_sets_its_own_setting(c2, args@, start);
    }
    (c0, c1, c2)
}

} // verus!
