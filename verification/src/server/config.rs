//! The configuration pipeline: defaults, then the file, then the environment,
//! then the command line. Each layer overrides the ones below it; an invalid
//! value is refused, whatever the layer.

use crate::server::backend::{backend_named, StorageBackend};
use crate::text::{has_prefix, starts_with, str_eq, Text};
use vstd::prelude::*;

verus! {

// ---------------------------------------------------------------------------
// Types
/// The configuration that took effect.
#[derive(Clone, Debug)]
pub struct RuntimeConfig {
    pub db_path: String,
    pub listen_addr: Option<String>,
    pub metrics_addr: Option<String>,
    pub tcp_tokens: Vec<String>,
    pub memory_dir: String,
    /// `None` is the local provider; `Some("openai")` any compatible HTTP
    /// endpoint.
    pub embedding_provider: Option<String>,
    pub embedding_base_url: String,
    pub embedding_model: String,
    pub embedding_api_key: Option<String>,
    pub model_dir: Option<String>,
    pub log_level: String,
    pub log_format: String,
    pub rate_enabled: bool,
    pub rate_max_calls_per_minute: u64,
    pub encryption: RuntimeEncryption,
    /// `None`: detected when the store is opened.
    pub backend: Option<StorageBackend>,
    /// The file that took effect.
    pub config_path: Option<String>,
}

/// Encryption at rest; off by default.
#[derive(Clone, Debug)]
pub struct RuntimeEncryption {
    pub enabled: bool,
    pub key_path: String,
    pub passphrase: Option<String>,
    /// Fields to encrypt, by type name.
    pub policies: Vec<(String, Vec<String>)>,
}

/// The configuration file; every section and every key may be absent.
pub struct TomlConfig {
    pub storage: Option<TomlStorage>,
    pub database: Option<TomlDatabase>,
    pub server: Option<TomlServer>,
    pub encryption: Option<TomlEncryption>,
    pub rate_limit: Option<TomlRateLimit>,
    pub embedding: Option<TomlEmbedding>,
    pub logging: Option<TomlLogging>,
}

pub struct TomlStorage {
    pub backend: Option<String>,
    pub path: Option<String>,
}

pub struct TomlDatabase {
    pub path: Option<String>,
}

pub struct TomlServer {
    pub listen: Option<String>,
    pub metrics_addr: Option<String>,
    pub tcp_tokens: Option<Vec<String>>,
}

pub struct TomlEncryption {
    pub enabled: Option<bool>,
    pub key_path: Option<String>,
    pub passphrase: Option<String>,
    pub policies: Option<Vec<(String, Vec<String>)>>,
}

pub struct TomlRateLimit {
    pub enabled: Option<bool>,
    pub max_calls_per_minute: Option<u64>,
}

pub struct TomlEmbedding {
    pub provider: Option<String>,
    pub base_url: Option<String>,
    pub model: Option<String>,
    pub api_key: Option<String>,
}

pub struct TomlLogging {
    pub level: Option<String>,
    pub format: Option<String>,
}

/// The file that was found: its path, and its content or why there is none.
pub struct TomlSource {
    pub path: String,
    pub parsed: Result<TomlConfig, String>,
}

/// The environment, variable by variable; an empty variable counts as absent.
pub struct EnvConfig {
    pub db: Option<String>,
    pub backend: Option<String>,
    pub listen: Option<String>,
    pub metrics_addr: Option<String>,
    /// The path of a token file, with its content or why it could not be read.
    pub token_file: Option<(String, Result<String, String>)>,
    pub token: Option<String>,
    pub memory_dir: Option<String>,
    pub embedding_provider: Option<String>,
    pub embedding_base_url: Option<String>,
    pub embedding_model: Option<String>,
    pub embedding_api_key: Option<String>,
    pub model_dir: Option<String>,
    pub passphrase: Option<String>,
}

// ---------------------------------------------------------------------------
// Values
pub open spec fn ov(o: Option<String>) -> Option<Seq<char>> {
    match o {
        Some(s) => Some(s@),
        None => None,
    }
}

pub open spec fn texts(v: Seq<String>) -> Seq<Seq<char>> {
    v.map_values(|s: String| s@)
}

/// The configuration as a value.
#[verifier::ext_equal]
pub struct CfgV {
    pub db_path: Seq<char>,
    pub listen_addr: Option<Seq<char>>,
    pub metrics_addr: Option<Seq<char>>,
    pub tcp_tokens: Seq<Seq<char>>,
    pub memory_dir: Seq<char>,
    pub embedding_provider: Option<Seq<char>>,
    pub embedding_base_url: Seq<char>,
    pub embedding_model: Seq<char>,
    pub embedding_api_key: Option<Seq<char>>,
    pub model_dir: Option<Seq<char>>,
    pub log_level: Seq<char>,
    pub log_format: Seq<char>,
    pub rate_enabled: bool,
    pub rate_max_calls_per_minute: u64,
    pub encryption: EncV,
    pub backend: Option<StorageBackend>,
    pub config_path: Option<Seq<char>>,
}

/// The encryption settings as a value.
#[verifier::ext_equal]
pub struct EncV {
    pub enabled: bool,
    pub key_path: Seq<char>,
    pub passphrase: Option<Seq<char>>,
    pub policies: Seq<(String, Vec<String>)>,
}

impl View for RuntimeEncryption {
    type V = EncV;

    open spec fn view(&self) -> EncV {
        EncV {
            enabled: self.enabled,
            key_path: self.key_path@,
            passphrase: ov(self.passphrase),
            policies: self.policies@,
        }
    }
}

impl View for RuntimeConfig {
    type V = CfgV;

    open spec fn view(&self) -> CfgV {
        CfgV {
            db_path: self.db_path@,
            listen_addr: ov(self.listen_addr),
            metrics_addr: ov(self.metrics_addr),
            tcp_tokens: texts(self.tcp_tokens@),
            memory_dir: self.memory_dir@,
            embedding_provider: ov(self.embedding_provider),
            embedding_base_url: self.embedding_base_url@,
            embedding_model: self.embedding_model@,
            embedding_api_key: ov(self.embedding_api_key),
            model_dir: ov(self.model_dir),
            log_level: self.log_level@,
            log_format: self.log_format@,
            rate_enabled: self.rate_enabled,
            rate_max_calls_per_minute: self.rate_max_calls_per_minute,
            encryption: self.encryption@,
            backend: self.backend,
            config_path: ov(self.config_path),
        }
    }
}

/// What comes out of a step: a configuration, or a refusal.
pub type CfgR = Result<CfgV, Seq<char>>;

pub open spec fn cfg_rv(r: Result<RuntimeConfig, String>) -> CfgR {
    match r {
        Ok(c) => Ok(c@),
        Err(e) => Err(e@),
    }
}

/// The configuration without any layer.
pub open spec fn defaults() -> CfgV {
    CfgV {
        db_path: "./aikoql.redb"@,
        listen_addr: None,
        metrics_addr: None,
        tcp_tokens: seq![],
        memory_dir: "./memory"@,
        embedding_provider: None,
        embedding_base_url: "http://localhost:11434"@,
        embedding_model: ""@,
        embedding_api_key: None,
        model_dir: None,
        log_level: "info"@,
        log_format: "text"@,
        rate_enabled: true,
        rate_max_calls_per_minute: 120,
        encryption: EncV {
            enabled: false,
            key_path: "./aikoql.key"@,
            passphrase: None,
            policies: seq![],
        },
        backend: None,
        config_path: None,
    }
}

pub fn default_config() -> (r: RuntimeConfig)
    ensures
        r@ == defaults(),
{
    let r = RuntimeConfig {
        db_path: "./aikoql.redb".to_string(),
        listen_addr: None,
        metrics_addr: None,
        tcp_tokens: Vec::new(),
        memory_dir: "./memory".to_string(),
        embedding_provider: None,
        embedding_base_url: "http://localhost:11434".to_string(),
        embedding_model: "".to_string(),
        embedding_api_key: None,
        model_dir: None,
        log_level: "info".to_string(),
        log_format: "text".to_string(),
        rate_enabled: true,
        rate_max_calls_per_minute: 120,
        encryption: RuntimeEncryption {
            enabled: false,
            key_path: "./aikoql.key".to_string(),
            passphrase: None,
            policies: Vec::new(),
        },
        backend: None,
        config_path: None,
    };
    assert(r@.tcp_tokens =~= seq![]);
    assert(r@.encryption.policies =~= seq![]);
    r
}

// ---------------------------------------------------------------------------
// Providers
/// The provider of a name: none for the local one, one sentinel for every
/// HTTP endpoint.
pub open spec fn provider_named(p: Seq<char>) -> Result<Option<Seq<char>>, Seq<char>> {
    if p == "candle"@ {
        Ok(None)
    } else if p == "http"@ || p == "ollama"@ || p == "openai"@ {
        Ok(Some("openai"@))
    } else {
        Err(
            "embedding provider \""@ + p
                + "\" unknown — use \"candle\", \"http\", or \"ollama\""@,
        )
    }
}

/// The provider of a name. `openai` is the deprecated name of `http`.
pub fn normalize_provider(p: &str) -> (r: Result<Option<String>, String>)
    ensures
        match r {
            Ok(x) => provider_named(p@) == Ok::<Option<Seq<char>>, Seq<char>>(ov(x)),
            Err(e) => provider_named(p@) == Err::<Option<Seq<char>>, Seq<char>>(e@),
        },
{
    if str_eq(p, "candle") {
        Ok(None)
    } else if str_eq(p, "http") || str_eq(p, "ollama") || str_eq(p, "openai") {
        Ok(Some("openai".to_string()))
    } else {
        Err(
            Text::new("embedding provider \"").lit(p).lit(
                "\" unknown — use \"candle\", \"http\", or \"ollama\"",
            ).done(),
        )
    }
}

/// What is said of a provider's name that is deprecated.
pub open spec fn provider_note(p: Seq<char>) -> Option<Seq<char>> {
    if p == "openai"@ {
        Some(
            "warning: embedding provider \"openai\" is deprecated — use \"http\" (OpenAI-compatible endpoint) or \"ollama\""@,
        )
    } else {
        None
    }
}

/// The warning that a provider's name calls for.
pub fn provider_warning(p: &str) -> (r: Option<&'static str>)
    ensures
        match r {
            Some(t) => provider_note(p@) == Some(t@),
            None => provider_note(p@) is None,
        },
{
    if str_eq(p, "openai") {
        Some(
            "warning: embedding provider \"openai\" is deprecated — use \"http\" (OpenAI-compatible endpoint) or \"ollama\"",
        )
    } else {
        None
    }
}

/// A refusal with where it arose.
fn within(place: &str, e: String) -> (r: String)
    ensures
        r@ == place@ + ": "@ + e@,
{
    Text::new(place).lit(": ").lit(e.as_str()).done()
}

/// A provider set by a layer, whose refusals name `place`.
pub open spec fn set_provider(c: CfgV, place: Seq<char>, p: Seq<char>) -> CfgR {
    match provider_named(p) {
        Ok(x) => Ok(CfgV { embedding_provider: x, ..c }),
        Err(e) => Err(place + ": "@ + e),
    }
}

/// A backend set by a layer, whose refusals begin with `place`.
pub open spec fn set_backend(c: CfgV, place: Seq<char>, v: Seq<char>) -> CfgR {
    match backend_named(v) {
        Ok(b) => Ok(CfgV { backend: Some(b), ..c }),
        Err(e) => Err(place + e),
    }
}

pub(crate) fn put_provider(c: &mut RuntimeConfig, place: &str, p: &str) -> (r: Result<(), String>)
    ensures
        match set_provider(old(c)@, place@, p@) {
            Ok(x) => r is Ok && final(c)@ == x,
            Err(e) => r is Err && r->Err_0@ == e,
        },
{
    match normalize_provider(p) {
        Ok(x) => {
            c.embedding_provider = x;
            Ok(())
        },
        Err(e) => Err(within(place, e)),
    }
}

pub(crate) fn put_backend(c: &mut RuntimeConfig, place: &str, v: &str) -> (r: Result<(), String>)
    ensures
        match set_backend(old(c)@, place@, v@) {
            Ok(x) => r is Ok && final(c)@ == x,
            Err(e) => r is Err && r->Err_0@ == e,
        },
{
    match StorageBackend::parse(v) {
        Ok(b) => {
            c.backend = Some(b);
            Ok(())
        },
        Err(e) => Err(Text::new(place).lit(e.as_str()).done()),
    }
}

// ---------------------------------------------------------------------------
// Finding the file
/// The first `--config` that a value follows, from position `i` on.
pub open spec fn config_flag(args: Seq<String>, i: int) -> Option<Seq<char>>
    decreases args.len() - i,
{
    if i < 0 || i + 1 >= args.len() {
        None
    } else if args[i]@ == "--config"@ {
        Some(args[i + 1]@)
    } else {
        config_flag(args, i + 1)
    }
}

/// Where the configuration file is: where the flag says, or at one of two
/// fixed places, if there is one.
pub open spec fn toml_place(args: Seq<String>, local: bool, global: bool) -> Result<
    Option<Seq<char>>,
    Seq<char>,
> {
    match config_flag(args, 0) {
        Some(v) => if has_prefix(v, "--"@) {
            Err("--config requires a path, got flag "@ + v)
        } else {
            Ok(Some(v))
        },
        None => if local {
            Ok(Some("./aikoql.toml"@))
        } else if global {
            Ok(Some("/etc/aikoql/aikoql.toml"@))
        } else {
            Ok(None)
        },
    }
}

/// Finds the configuration file; `local` and `global` say whether there is one
/// at the fixed places.
pub fn find_toml(args: &Vec<String>, local: bool, global: bool) -> (r: Result<
    Option<String>,
    String,
>)
    ensures
        match r {
            Ok(x) => toml_place(args@, local, global) == Ok::<Option<Seq<char>>, Seq<char>>(ov(x)),
            Err(e) => toml_place(args@, local, global) == Err::<Option<Seq<char>>, Seq<char>>(e@),
        },
{
    let n = args.len();
    let mut i: usize = 0;
    while n > 0 && i < n - 1
        invariant
            n == args@.len(),
            n > 0 ==> i <= n - 1,
            n == 0 ==> i == 0,
            config_flag(args@, 0) == config_flag(args@, i as int),
        decreases n - i,
    {
        if str_eq(args[i].as_str(), "--config") {
            let v = args[i + 1].as_str();
            if starts_with(v, "--") {
                return Err(Text::new("--config requires a path, got flag ").lit(v).done());
            }
            return Ok(Some(v.to_string()));
        }
        i += 1;
    }
    if local {
        Ok(Some("./aikoql.toml".to_string()))
    } else if global {
        Ok(Some("/etc/aikoql/aikoql.toml".to_string()))
    } else {
        Ok(None)
    }
}

// ---------------------------------------------------------------------------
// The file layer
/// A level that logging knows.
pub open spec fn is_level(v: Seq<char>) -> bool {
    v == "trace"@ || v == "debug"@ || v == "info"@ || v == "warn"@ || v == "error"@
}

pub open spec fn with_storage(c: CfgV, path: Seq<char>, s: Option<TomlStorage>) -> CfgR {
    match s {
        None => Ok(c),
        Some(s) => {
            let chosen = match s.backend {
                Some(b) => set_backend(c, "config "@ + path + ": storage.backend "@, b@),
                None => Ok(c),
            };
            match chosen {
                Err(e) => Err(e),
                Ok(c1) => Ok(
                    CfgV {
                        db_path: match s.path {
                            Some(p) => p@,
                            None => c1.db_path,
                        },
                        ..c1
                    },
                ),
            }
        },
    }
}

pub open spec fn with_database(c: CfgV, d: Option<TomlDatabase>) -> CfgV {
    match d {
        Some(d) => match d.path {
            Some(p) => CfgV { db_path: p@, ..c },
            None => c,
        },
        None => c,
    }
}

pub open spec fn with_server(c: CfgV, s: Option<TomlServer>) -> CfgV {
    match s {
        None => c,
        Some(s) => CfgV {
            listen_addr: match s.listen {
                Some(v) => Some(v@),
                None => c.listen_addr,
            },
            metrics_addr: match s.metrics_addr {
                Some(v) => Some(v@),
                None => c.metrics_addr,
            },
            tcp_tokens: match s.tcp_tokens {
                Some(v) => texts(v@),
                None => c.tcp_tokens,
            },
            ..c
        },
    }
}

pub open spec fn with_encryption(c: EncV, e: TomlEncryption) -> EncV {
    EncV {
        enabled: match e.enabled {
            Some(b) => b,
            None => c.enabled,
        },
        key_path: match e.key_path {
            Some(p) => p@,
            None => c.key_path,
        },
        passphrase: match e.passphrase {
            Some(p) => Some(p@),
            None => c.passphrase,
        },
        policies: match e.policies {
            Some(p) => p@,
            None => c.policies,
        },
    }
}

pub open spec fn with_rate_limit(c: CfgV, r: Option<TomlRateLimit>) -> CfgV {
    match r {
        None => c,
        Some(r) => CfgV {
            rate_enabled: match r.enabled {
                Some(b) => b,
                None => c.rate_enabled,
            },
            rate_max_calls_per_minute: match r.max_calls_per_minute {
                Some(n) => n,
                None => c.rate_max_calls_per_minute,
            },
            ..c
        },
    }
}

pub open spec fn with_embedding(c: CfgV, path: Seq<char>, e: Option<TomlEmbedding>) -> CfgR {
    match e {
        None => Ok(c),
        Some(e) => {
            let chosen = match e.provider {
                Some(p) => set_provider(c, "config "@ + path, p@),
                None => Ok(c),
            };
            match chosen {
                Err(m) => Err(m),
                Ok(c1) => Ok(
                    CfgV {
                        embedding_base_url: match e.base_url {
                            Some(v) => v@,
                            None => c1.embedding_base_url,
                        },
                        embedding_model: match e.model {
                            Some(v) => v@,
                            None => c1.embedding_model,
                        },
                        embedding_api_key: ov(e.api_key),
                        ..c1
                    },
                ),
            }
        },
    }
}

pub open spec fn with_logging(c: CfgV, path: Seq<char>, l: Option<TomlLogging>) -> CfgR {
    match l {
        None => Ok(c),
        Some(l) => if l.level is Some && !is_level(l.level->0@) {
            Err(
                "config "@ + path + ": logging.level \""@ + l.level->0@
                    + "\" unknown — use one of [\"trace\", \"debug\", \"info\", \"warn\", \"error\"]"@,
            )
        } else if l.format is Some && !(l.format->0@ == "text"@ || l.format->0@ == "json"@) {
            Err(
                "config "@ + path + ": logging.format \""@ + l.format->0@
                    + "\" unknown — use \"text\" or \"json\""@,
            )
        } else {
            Ok(
                CfgV {
                    log_level: match l.level {
                        Some(v) => v@,
                        None => c.log_level,
                    },
                    log_format: match l.format {
                        Some(v) => v@,
                        None => c.log_format,
                    },
                    ..c
                },
            )
        },
    }
}

/// The configuration after the file, section by section; the first refusal
/// ends it.
pub open spec fn with_toml(c: CfgV, path: Seq<char>, t: TomlConfig) -> CfgR {
    let c0 = CfgV { config_path: Some(path), ..c };
    match with_storage(c0, path, t.storage) {
        Err(e) => Err(e),
        Ok(c1) => {
            let c2 = with_server(with_database(c1, t.database), t.server);
            let c3 = match t.encryption {
                Some(e) => CfgV { encryption: with_encryption(c2.encryption, e), ..c2 },
                None => c2,
            };
            match with_embedding(with_rate_limit(c3, t.rate_limit), path, t.embedding) {
                Err(e) => Err(e),
                Ok(c4) => with_logging(c4, path, t.logging),
            }
        },
    }
}

/// Applies an encryption section onto settings.
pub fn apply_toml_encryption(enc: &mut RuntimeEncryption, e: TomlEncryption)
    ensures
        final(enc)@ == with_encryption(old(enc)@, e),
{
    match e.enabled {
        Some(b) => {
            enc.enabled = b;
        },
        None => {},
    }
    match e.key_path {
        Some(p) => {
            enc.key_path = p;
        },
        None => {},
    }
    match e.passphrase {
        Some(p) => {
            enc.passphrase = Some(p);
        },
        None => {},
    }
    match e.policies {
        Some(p) => {
            enc.policies = p;
        },
        None => {},
    }
}

fn place_of(path: &str, what: &str) -> (r: String)
    ensures
        r@ == "config "@ + path@ + what@,
{
    Text::new("config ").lit(path).lit(what).done()
}

fn apply_storage(c: &mut RuntimeConfig, path: &str, s: Option<TomlStorage>) -> (r: Result<(), String>)
    ensures
        match with_storage(old(c)@, path@, s) {
            Ok(x) => r is Ok && final(c)@ == x,
            Err(e) => r is Err && r->Err_0@ == e,
        },
{
    match s {
        None => Ok(()),
        Some(s) => {
            match s.backend {
                Some(b) => {
                    let place = place_of(path, ": storage.backend ");
                    match put_backend(c, place.as_str(), b.as_str()) {
                        Err(e) => {
                            return Err(e);
                        },
                        Ok(_) => {},
                    }
                },
                None => {},
            }
            match s.path {
                Some(p) => {
                    c.db_path = p;
                },
                None => {},
            }
            Ok(())
        },
    }
}

fn apply_plain_sections(
    c: &mut RuntimeConfig,
    d: Option<TomlDatabase>,
    s: Option<TomlServer>,
    e: Option<TomlEncryption>,
    rl: Option<TomlRateLimit>,
)
    ensures
        ({
            let c2 = with_server(with_database(old(c)@, d), s);
            let c3 = match e {
                Some(e) => CfgV { encryption: with_encryption(c2.encryption, e), ..c2 },
                None => c2,
            };
            final(c)@ == with_rate_limit(c3, rl)
        }),
{
    match d {
        Some(d) => match d.path {
            Some(p) => {
                c.db_path = p;
            },
            None => {},
        },
        None => {},
    }
    match s {
        Some(s) => {
            match s.listen {
                Some(v) => {
                    c.listen_addr = Some(v);
                },
                None => {},
            }
            match s.metrics_addr {
                Some(v) => {
                    c.metrics_addr = Some(v);
                },
                None => {},
            }
            match s.tcp_tokens {
                Some(v) => {
                    c.tcp_tokens = v;
                },
                None => {},
            }
        },
        None => {},
    }
    match e {
        Some(e) => {
            apply_toml_encryption(&mut c.encryption, e);
        },
        None => {},
    }
    match rl {
        Some(x) => {
            match x.enabled {
                Some(b) => {
                    c.rate_enabled = b;
                },
                None => {},
            }
            match x.max_calls_per_minute {
                Some(n) => {
                    c.rate_max_calls_per_minute = n;
                },
                None => {},
            }
        },
        None => {},
    }
}

fn apply_embedding(c: &mut RuntimeConfig, path: &str, e: Option<TomlEmbedding>) -> (r: Result<
    (),
    String,
>)
    ensures
        match with_embedding(old(c)@, path@, e) {
            Ok(x) => r is Ok && final(c)@ == x,
            Err(m) => r is Err && r->Err_0@ == m,
        },
{
    match e {
        None => Ok(()),
        Some(e) => {
            match e.provider {
                Some(p) => {
                    let place = Text::new("config ").lit(path).done();
                    match put_provider(c, place.as_str(), p.as_str()) {
                        Err(m) => {
                            return Err(m);
                        },
                        Ok(_) => {},
                    }
                },
                None => {},
            }
            match e.base_url {
                Some(v) => {
                    c.embedding_base_url = v;
                },
                None => {},
            }
            match e.model {
                Some(v) => {
                    c.embedding_model = v;
                },
                None => {},
            }
            c.embedding_api_key = e.api_key;
            Ok(())
        },
    }
}

fn apply_logging(c: &mut RuntimeConfig, path: &str, l: Option<TomlLogging>) -> (r: Result<(), String>)
    ensures
        match with_logging(old(c)@, path@, l) {
            Ok(x) => r is Ok && final(c)@ == x,
            Err(m) => r is Err && r->Err_0@ == m,
        },
{
    match l {
        None => Ok(()),
        Some(l) => {
            match l.level {
                Some(v) => {
                    let s = v.as_str();
                    if !(str_eq(s, "trace") || str_eq(s, "debug") || str_eq(s, "info") || str_eq(
                        s,
                        "warn",
                    ) || str_eq(s, "error")) {
                        return Err(
                            Text::new("config ").lit(path).lit(": logging.level \"").lit(s).lit(
                                "\" unknown — use one of [\"trace\", \"debug\", \"info\", \"warn\", \"error\"]",
                            ).done(),
                        );
                    }
                    c.log_level = v;
                },
                None => {},
            }
            match l.format {
                Some(v) => {
                    let s = v.as_str();
                    if !(str_eq(s, "text") || str_eq(s, "json")) {
                        return Err(
                            Text::new("config ").lit(path).lit(": logging.format \"").lit(s).lit(
                                "\" unknown — use \"text\" or \"json\"",
                            ).done(),
                        );
                    }
                    c.log_format = v;
                },
                None => {},
            }
            Ok(())
        },
    }
}

/// Applies the file.
pub(crate) fn apply_toml(c: &mut RuntimeConfig, path: &str, t: TomlConfig) -> (r: Result<(), String>)
    ensures
        match with_toml(old(c)@, path@, t) {
            Ok(x) => r is Ok && final(c)@ == x,
            Err(m) => r is Err && r->Err_0@ == m,
        },
{
    c.config_path = Some(path.to_string());
    match apply_storage(c, path, t.storage) {
        Err(e) => {
            return Err(e);
        },
        Ok(_) => {},
    }
    apply_plain_sections(c, t.database, t.server, t.encryption, t.rate_limit);
    match apply_embedding(c, path, t.embedding) {
        Err(e) => {
            return Err(e);
        },
        Ok(_) => {},
    }
    apply_logging(c, path, t.logging)
}

} // verus!
