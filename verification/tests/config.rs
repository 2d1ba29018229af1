use aikoql::server::backend::{
    choose_backend, detect_backend, PathFacts, StorageBackend,
};
use aikoql::server::config::{
    find_toml, normalize_provider, provider_warning, EnvConfig, RuntimeConfig, TomlConfig,
    TomlDatabase, TomlEmbedding, TomlEncryption, TomlLogging, TomlRateLimit, TomlServer, TomlSource, TomlStorage,
};
use aikoql::text::trim;
use aikoql::server::load::{accept_token_file, load};

fn argv(v: &[&str]) -> Vec<String> {
    v.iter().map(|s| s.to_string()).collect()
}

fn no_env() -> EnvConfig {
    EnvConfig {
        db: None,
        backend: None,
        listen: None,
        metrics_addr: None,
        token_file: None,
        token: None,
        memory_dir: None,
        embedding_provider: None,
        embedding_base_url: None,
        embedding_model: None,
        embedding_api_key: None,
        model_dir: None,
        passphrase: None,
    }
}

fn text(t: &toml::Table, key: &str) -> Option<String> {
    t.get(key).and_then(|v| v.as_str()).map(|s| s.to_string())
}

fn list(v: &toml::Value) -> Vec<String> {
    v.as_array()
        .unwrap()
        .iter()
        .map(|x| x.as_str().unwrap().to_string())
        .collect()
}

fn section<'a>(t: &'a toml::Table, key: &str) -> Option<&'a toml::Table> {
    t.get(key).and_then(|v| v.as_table())
}

fn parse_toml(content: &str) -> TomlConfig {
    let t: toml::Table = content.parse().unwrap();
    TomlConfig {
        storage: section(&t, "storage").map(|s| TomlStorage {
            backend: text(s, "backend"),
            path: text(s, "path"),
        }),
        database: section(&t, "database").map(|s| TomlDatabase {
            path: text(s, "path"),
        }),
        server: section(&t, "server").map(|s| TomlServer {
            listen: text(s, "listen"),
            metrics_addr: text(s, "metrics_addr"),
            tcp_tokens: s.get("tcp_tokens").map(list),
        }),
        encryption: section(&t, "encryption").map(|s| TomlEncryption {
            enabled: s.get("enabled").and_then(|v| v.as_bool()),
            key_path: text(s, "key_path"),
            passphrase: text(s, "passphrase"),
            policies: section(s, "policies")
                .map(|p| p.iter().map(|(k, v)| (k.clone(), list(v))).collect()),
        }),
        rate_limit: section(&t, "rate_limit").map(|s| TomlRateLimit {
            enabled: s.get("enabled").and_then(|v| v.as_bool()),
            max_calls_per_minute: s
                .get("max_calls_per_minute")
                .and_then(|v| v.as_integer())
                .map(|n| n as u64),
        }),
        embedding: section(&t, "embedding").map(|s| TomlEmbedding {
            provider: text(s, "provider"),
            base_url: text(s, "base_url"),
            model: text(s, "model"),
            api_key: text(s, "api_key"),
        }),
        logging: section(&t, "logging").map(|s| TomlLogging {
            level: text(s, "level"),
            format: text(s, "format"),
        }),
    }
}

const P: &str = "/tmp/aikoql-test.toml";

fn load_all(
    args: &[&str],
    content: Option<&str>,
    env: &EnvConfig,
) -> Result<RuntimeConfig, String> {
    let toml = content.map(|c| TomlSource {
        path: P.to_string(),
        parsed: Ok(parse_toml(c)),
    });
    load(&argv(args), None, None, toml, env)
}

fn load_bare(args: &[&str]) -> Result<RuntimeConfig, String> {
    load_all(args, None, &no_env())
}

fn load_toml(content: &str) -> Result<RuntimeConfig, String> {
    load_all(&["aikoql-mcp", "--config", P], Some(content), &no_env())
}

#[test]
fn backend_precedence_toml_env_cli() {
    let content = "[storage]\nbackend = \"aikoql\"\n";
    let args = ["aikoql-mcp", "--config", P];
    let cfg = load_all(&args, Some(content), &no_env()).unwrap();
    assert_eq!(cfg.backend, Some(StorageBackend::Aikoql));

    let mut env = no_env();
    env.backend = Some("aikoql-v2".to_string());
    let cfg = load_all(&args, Some(content), &env).unwrap();
    assert_eq!(cfg.backend, Some(StorageBackend::AikoqlV2));

    let args = ["aikoql-mcp", "--config", P, "--backend", "redb"];
    let cfg = load_all(&args, Some(content), &env).unwrap();
    assert_eq!(cfg.backend, Some(StorageBackend::Redb));
}

#[test]
fn backend_default_auto_and_unknown_fails_closed() {
    let cfg = load_bare(&["aikoql-mcp"]).unwrap();
    assert_eq!(cfg.backend, None);

    let mut env = no_env();
    env.backend = Some("nope".to_string());
    let err = load_all(&["aikoql-mcp"], None, &env).unwrap_err();
    assert!(err.contains("unknown storage backend"), "got: {err}");
    assert_eq!(
        err,
        "AIKOQL_BACKEND: unknown storage backend \"nope\": use \"redb\", \"aikoql\" or \"aikoql-v2\""
    );

    let err = load_toml("[storage]\nbackend = \"nope\"\n").unwrap_err();
    assert!(err.contains("unknown storage backend"), "got: {err}");
}

#[test]
fn defaults_only() {
    let cfg = load_bare(&["aikoql-mcp"]).unwrap();
    assert_eq!(cfg.db_path, "./aikoql.redb");
    assert!(cfg.listen_addr.is_none());
    assert!(cfg.embedding_provider.is_none());
    assert_eq!(cfg.log_level, "info");
    assert_eq!(cfg.embedding_base_url, "http://localhost:11434");
    assert!(cfg.rate_enabled);
    assert_eq!(cfg.rate_max_calls_per_minute, 120);
}

#[test]
fn toml_overrides_defaults() {
    let cfg = load_toml(
        r#"
[server]
listen = "127.0.0.1:7777"
tcp_tokens = ["a:b:admin", "c:d:viewer"]

[database]
path = "/data/kb"

[embedding]
provider = "openai"
model = "mxbai"

[logging]
level = "debug"
"#,
    )
    .unwrap();
    assert_eq!(cfg.listen_addr.as_deref(), Some("127.0.0.1:7777"));
    assert_eq!(cfg.tcp_tokens.len(), 2);
    assert_eq!(cfg.db_path, "/data/kb");
    assert_eq!(cfg.embedding_provider.as_deref(), Some("openai"));
    assert_eq!(cfg.embedding_model, "mxbai");
    assert_eq!(cfg.log_level, "debug");
    assert_eq!(cfg.config_path.as_deref(), Some(P));
}

#[test]
fn toml_candle_provider_maps_to_default() {
    let cfg = load_toml("[embedding]\nprovider = \"candle\"\n").unwrap();
    assert!(cfg.embedding_provider.is_none());
}

#[test]
fn http_and_ollama_providers_map_to_http_adapter() {
    for name in ["http", "ollama"] {
        let cfg = load_toml(&format!("[embedding]\nprovider = \"{name}\"\n")).unwrap();
        assert_eq!(cfg.embedding_provider.as_deref(), Some("openai"));
    }
}

#[test]
fn unknown_toml_provider_rejected() {
    let err = load_toml("[embedding]\nprovider = \"gemini\"\n").unwrap_err();
    assert!(err.contains("candle") && err.contains("http") && err.contains("ollama"));
}

#[test]
fn env_http_provider_maps_to_http_adapter() {
    let mut env = no_env();
    env.embedding_provider = Some("http".to_string());
    let cfg = load_all(&["aikoql-mcp"], None, &env).unwrap();
    assert_eq!(cfg.embedding_provider.as_deref(), Some("openai"));
}

#[test]
fn cli_provider_ollama_maps_and_unknown_rejected() {
    let cfg = load_bare(&["aikoql-mcp", "--embedding-provider", "ollama"]).unwrap();
    assert_eq!(cfg.embedding_provider.as_deref(), Some("openai"));
    let err = load_bare(&["aikoql-mcp", "--embedding-provider", "gemini"]).unwrap_err();
    assert!(err.contains("unknown"));
    assert_eq!(
        normalize_provider("gemini").unwrap_err(),
        "embedding provider \"gemini\" unknown — use \"candle\", \"http\", or \"ollama\""
    );
}

#[test]
fn env_overrides_toml() {
    let mut env = no_env();
    env.listen = Some("127.0.0.1:8888".to_string());
    let cfg = load_all(
        &["aikoql-mcp", "--config", P],
        Some("[server]\nlisten = \"127.0.0.1:7777\"\n"),
        &env,
    )
    .unwrap();
    assert_eq!(cfg.listen_addr.as_deref(), Some("127.0.0.1:8888"));
}

#[test]
fn cli_overrides_env_and_toml() {
    let mut env = no_env();
    env.listen = Some("127.0.0.1:8888".to_string());
    let cfg = load_all(
        &["aikoql-mcp", "--config", P, "--listen", "0.0.0.0:9999"],
        Some("[server]\nlisten = \"127.0.0.1:7777\"\n"),
        &env,
    )
    .unwrap();
    assert_eq!(cfg.listen_addr.as_deref(), Some("0.0.0.0:9999"));
}

#[test]
fn tcp_token_env_sets_single_token() {
    let mut env = no_env();
    env.token = Some("tok:acme:admin".to_string());
    let cfg = load_all(&["aikoql-mcp"], None, &env).unwrap();
    assert_eq!(cfg.tcp_tokens, vec!["tok:acme:admin".to_string()]);
}

#[test]
fn tcp_token_precedence_is_replacement_not_union() {
    let content = "[server]\ntcp_tokens = [\"old:acme:viewer\"]\n";
    let mut env = no_env();
    env.token = Some("new:acme:admin".to_string());
    let cfg = load_all(&["aikoql-mcp", "--config", P], Some(content), &env).unwrap();
    assert_eq!(cfg.tcp_tokens, vec!["new:acme:admin".to_string()]);

    env.token = Some("env:acme:admin".to_string());
    let args = [
        "aikoql-mcp",
        "--config",
        P,
        "--tcp-token",
        "cli1:a:viewer",
        "--tcp-token",
        "cli2::admin",
    ];
    let cfg = load_all(&args, Some(content), &env).unwrap();
    assert_eq!(
        cfg.tcp_tokens,
        vec!["cli1:a:viewer".to_string(), "cli2::admin".to_string()]
    );
}

#[test]
fn tcp_token_file_env_reads_and_trims() {
    let mut env = no_env();
    env.token_file = Some((
        "/run/token".to_string(),
        Ok("  tok:acme:admin \n".to_string()),
    ));
    let cfg = load_all(&["aikoql-mcp"], None, &env).unwrap();
    assert_eq!(cfg.tcp_tokens, vec!["tok:acme:admin".to_string()]);
}

#[test]
fn tcp_token_file_wins_over_inline_env() {
    let mut env = no_env();
    env.token_file = Some(("/run/token".to_string(), Ok("file:acme:admin\n".to_string())));
    env.token = Some("inline:acme:viewer".to_string());
    let cfg = load_all(&["aikoql-mcp"], None, &env).unwrap();
    assert_eq!(cfg.tcp_tokens, vec!["file:acme:admin".to_string()]);
}

#[test]
fn tcp_token_file_missing_is_error() {
    let mut env = no_env();
    env.token_file = Some(("/run/token".to_string(), Err("not found".to_string())));
    let err = load_all(&["aikoql-mcp"], None, &env).unwrap_err();
    assert!(err.contains("AIKOQL_TCP_TOKEN_FILE"), "got: {err}");
    assert_eq!(err, "AIKOQL_TCP_TOKEN_FILE /run/token: not found");
}

#[test]
fn tcp_token_file_empty_is_error() {
    let mut env = no_env();
    env.token_file = Some(("/run/token".to_string(), Ok("   \n".to_string())));
    let err = load_all(&["aikoql-mcp"], None, &env).unwrap_err();
    assert!(err.contains("empty"), "got: {err}");
    assert_eq!(
        accept_token_file("/run/token", Ok(String::new())).unwrap_err(),
        "AIKOQL_TCP_TOKEN_FILE /run/token: file is empty"
    );
}

#[test]
fn rocksdb_backend_rejected() {
    let err = load_toml("[storage]\nbackend = \"rocksdb\"\n").unwrap_err();
    assert!(err.contains("rocksdb"), "got: {err}");
}

#[test]
fn encryption_defaults_disabled() {
    let cfg = load_bare(&["aikoql-mcp"]).unwrap();
    assert!(!cfg.encryption.enabled);
    assert_eq!(cfg.encryption.key_path, "./aikoql.key");
    assert!(cfg.encryption.passphrase.is_none());
    assert!(cfg.encryption.policies.is_empty());
}

#[test]
fn subcommand_pipeline_sees_env_settings() {
    let mut env = no_env();
    env.passphrase = Some("discover-test".to_string());
    let cfg = load(&Vec::new(), None, None, None, &env).unwrap();
    assert_eq!(cfg.encryption.passphrase.as_deref(), Some("discover-test"));
}

#[test]
fn encryption_toml_parsed() {
    let cfg = load_toml(
        r#"
[encryption]
enabled = true
key_path = "/k/kf"
passphrase = "from-toml"

[encryption.policies]
employee = ["salary", "ssn"]
"#,
    )
    .unwrap();
    assert!(cfg.encryption.enabled);
    assert_eq!(cfg.encryption.key_path, "/k/kf");
    assert_eq!(cfg.encryption.passphrase.as_deref(), Some("from-toml"));
    assert_eq!(
        cfg.encryption
            .policies
            .iter()
            .find(|(k, _)| k == "employee")
            .map(|(_, v)| v),
        Some(&vec!["salary".to_string(), "ssn".to_string()])
    );
}

#[test]
fn encryption_passphrase_env_overrides_toml() {
    let mut env = no_env();
    env.passphrase = Some("from-env".to_string());
    let cfg = load_all(
        &["aikoql-mcp", "--config", P],
        Some("[encryption]\nenabled = true\npassphrase = \"from-toml\"\n"),
        &env,
    )
    .unwrap();
    assert!(cfg.encryption.enabled);
    assert_eq!(cfg.encryption.passphrase.as_deref(), Some("from-env"));
}

#[test]
fn bad_log_level_rejected() {
    let err = load_toml("[logging]\nlevel = \"verbose\"\n").unwrap_err();
    assert!(err.contains("logging.level"), "got: {err}");
    let err = load_toml("[logging]\nformat = \"xml\"\n").unwrap_err();
    assert_eq!(
        err,
        format!("config {P}: logging.format \"xml\" unknown — use \"text\" or \"json\"")
    );
}

#[test]
fn env_and_cli_layers_apply_across_sections() {
    let mut env = no_env();
    env.db = Some("/env/db".to_string());
    env.embedding_provider = Some("openai".to_string());
    let cfg = load_all(
        &["aikoql-mcp", "--config", P, "--metrics-addr", "127.0.0.1:2000"],
        Some("[database]\npath = \"/toml/db\"\n[embedding]\nprovider = \"candle\"\n[server]\nmetrics_addr = \"127.0.0.1:1000\"\n"),
        &env,
    )
    .unwrap();
    assert_eq!(cfg.db_path, "/env/db");
    assert_eq!(cfg.embedding_provider.as_deref(), Some("openai"));
    assert_eq!(cfg.metrics_addr.as_deref(), Some("127.0.0.1:2000"));
}

#[test]
fn rate_limit_toml_parsed() {
    let cfg = load_toml("[rate_limit]\nenabled = false\nmax_calls_per_minute = 5\n").unwrap();
    assert!(!cfg.rate_enabled);
    assert_eq!(cfg.rate_max_calls_per_minute, 5);
}

#[test]
fn positional_db_path_still_works() {
    let cfg = load_bare(&["aikoql-mcp", "./my.redb"]).unwrap();
    assert_eq!(cfg.db_path, "./my.redb");
}

#[test]
fn empty_variables_count_as_absent() {
    let mut env = no_env();
    env.db = Some(String::new());
    env.backend = Some(String::new());
    env.token_file = Some((String::new(), Err("unused".to_string())));
    let cfg = load_all(&["aikoql-mcp"], None, &env).unwrap();
    assert_eq!(cfg.db_path, "./aikoql.redb");
    assert_eq!(cfg.backend, None);
    assert!(cfg.tcp_tokens.is_empty());
}

#[test]
fn flags_without_a_value() {
    let cfg = load_bare(&["aikoql-mcp", "--listen"]).unwrap();
    assert_eq!(cfg.listen_addr.as_deref(), Some("127.0.0.1:9090"));
    let cfg = load_bare(&["aikoql-mcp", "--metrics-addr"]).unwrap();
    assert_eq!(cfg.metrics_addr.as_deref(), Some("127.0.0.1:9091"));
    let cfg = load_bare(&["aikoql-mcp", "--embedding-model"]).unwrap();
    assert_eq!(cfg.embedding_model, "nomic-embed-text");
    let cfg = load_bare(&["aikoql-mcp", "--embedding-api-key"]).unwrap();
    assert_eq!(cfg.embedding_api_key.as_deref(), Some(""));
    assert_eq!(
        load_bare(&["aikoql-mcp", "--tcp-token"]).unwrap_err(),
        "--tcp-token requires a value: TOKEN[:TENANT[:ROLE1,ROLE2]]"
    );
    assert_eq!(
        load_bare(&["aikoql-mcp", "--model-dir"]).unwrap_err(),
        "--model-dir requires a value"
    );
    assert_eq!(
        load_bare(&["aikoql-mcp", "--backend"]).unwrap_err(),
        "--backend requires a value: redb|aikoql|aikoql-v2"
    );
    assert_eq!(
        load_bare(&["aikoql-mcp", "--bogus"]).unwrap_err(),
        "Unknown option: --bogus (run `aikoql-mcp help`)"
    );
}

#[test]
fn serve_skips_its_own_token() {
    let args = argv(&["aikoql-mcp", "serve", "./s.redb"]);
    let cfg = load(&args, Some("serve"), Some(0), None, &no_env()).unwrap();
    assert_eq!(cfg.db_path, "./s.redb");
    assert_eq!(
        load(&args, Some("serve"), None, None, &no_env()).unwrap_err(),
        "Usage: aikoql-mcp serve [OPTIONS] [DB]"
    );
}

#[test]
fn unreadable_file_is_refused() {
    let toml = Some(TomlSource {
        path: P.to_string(),
        parsed: Err("read: denied".to_string()),
    });
    let err = load(&argv(&["aikoql-mcp"]), None, None, toml, &no_env()).unwrap_err();
    assert_eq!(err, format!("config {P}: read: denied"));
}

#[test]
fn config_file_is_found() {
    let args = argv(&["aikoql-mcp", "--config", "/a/b.toml"]);
    assert_eq!(
        find_toml(&args, true, true).unwrap(),
        Some("/a/b.toml".to_string())
    );
    let bare = argv(&["aikoql-mcp"]);
    assert_eq!(
        find_toml(&bare, true, true).unwrap(),
        Some("./aikoql.toml".to_string())
    );
    assert_eq!(
        find_toml(&bare, false, true).unwrap(),
        Some("/etc/aikoql/aikoql.toml".to_string())
    );
    assert_eq!(find_toml(&bare, false, false).unwrap(), None);
    let flag = argv(&["aikoql-mcp", "--config", "--listen"]);
    assert_eq!(
        find_toml(&flag, false, false).unwrap_err(),
        "--config requires a path, got flag --listen"
    );
    let last = argv(&["aikoql-mcp", "--config"]);
    assert_eq!(find_toml(&last, false, false).unwrap(), None);
}

#[test]
fn backend_is_detected_from_what_lies_there() {
    assert_eq!(
        detect_backend("/d", &PathFacts::Dir { has_current: true }).unwrap(),
        StorageBackend::AikoqlV2
    );
    let err = detect_backend("/d", &PathFacts::Dir { has_current: false }).unwrap_err();
    assert!(err.contains("not an aikoql-v2 database"), "got: {err}");
    assert_eq!(
        detect_backend("/d", &PathFacts::File { head: b"AKQL".to_vec() }).unwrap(),
        StorageBackend::Aikoql
    );
    assert_eq!(
        detect_backend("/d", &PathFacts::File { head: b"redb".to_vec() }).unwrap(),
        StorageBackend::Redb
    );
    assert_eq!(
        detect_backend("/d", &PathFacts::File { head: b"AK".to_vec() }).unwrap(),
        StorageBackend::Redb
    );
    assert_eq!(
        detect_backend("/d", &PathFacts::Missing).unwrap(),
        StorageBackend::Redb
    );
    assert_eq!(
        detect_backend("/d", &PathFacts::Unreadable("denied".to_string())).unwrap_err(),
        "read /d: denied"
    );
    assert_eq!(
        choose_backend("/d", Some(StorageBackend::Aikoql), &PathFacts::Missing).unwrap(),
        StorageBackend::Aikoql
    );
}

#[test]
fn trimming_takes_every_white_character() {
    for u in 0..=0x10ffffu32 {
        if let Some(c) = char::from_u32(u) {
            let text = format!("{c}a{c}b{c}");
            assert_eq!(trim(&text), text.trim());
        }
    }
    assert_eq!(trim(" \t\n"), "");
    assert_eq!(trim(""), "");
}

#[test]
fn deprecated_providers_are_warned_of() {
    let text = provider_warning("openai").unwrap();
    assert!(text.starts_with("warning: embedding provider \"openai\" is deprecated"));
    assert_eq!(provider_warning("http"), None);
    assert_eq!(provider_warning("OpenAI"), None);
}
