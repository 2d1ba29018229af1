use aikoql::server::admin::{
    backup_data_file, backup_dir_name, backup_matches, backup_meta, choose_framework,
    compliance_grade, connection_pool, count_state, count_states, is_backup_name, parse_meta,
    read_backup_meta, LifecycleState,
};
use aikoql::server::config::{default_config, RuntimeEncryption};
use aikoql::server::http::truncate;
use aikoql::server::message::{
    decide, incoming, parse_message, read_message, wants_token, Incoming,
};
use aikoql::server::serve::{
    choose_ontology, choose_transport, endpoint_model, endpoint_url, expand_listen, gate,
    model_store_dir,
    refusal, refuse_local_model, store_passphrase, validate_listen, Gate, OntologyEntry,
    SemanticStatus, Transport,
};

#[test]
fn truncate_never_splits_multibyte_chars() {
    let s = "aaaaaaaaaaaaaaaaaaaaaaaaa—zzzz";
    let t = truncate(s, 30);
    assert!(t.ends_with("..."));
    assert_eq!(&t[t.len() - 4..], "a...");
}

#[test]
fn truncate_passthrough_short_strings() {
    assert_eq!(truncate("hi", 10), "hi");
}

#[test]
fn truncate_counts_bytes() {
    assert_eq!(truncate("abcdef", 6), "abcdef");
    assert_eq!(truncate("abcdefg", 6), "abc...");
    assert_eq!(truncate("\u{1F600}x", 4), "...");
    assert_eq!(truncate("\u{1F600}xyz", 7), "\u{1F600}xyz");
    assert_eq!(truncate("\u{1F600}wxyz", 7), "\u{1F600}...");
    assert_eq!(truncate("ab", 1), "...");
    assert_eq!(truncate("éé", 3), "...");
}

#[test]
fn model_store_dir_flag_wins() {
    assert_eq!(
        model_store_dir(Some("C:/tmp/models"), Some("p"), Some("h")),
        "C:/tmp/models"
    );
}

#[test]
fn model_store_dir_default_ends_in_aikoql_models() {
    assert_eq!(
        model_store_dir(None, None, Some("/home/u")),
        "/home/u/.aikoql/models"
    );
    assert_eq!(
        model_store_dir(None, Some("/p"), Some("/home/u")),
        "/p/.aikoql/models"
    );
    assert_eq!(model_store_dir(None, None, None), "./.aikoql/models");
}

#[test]
fn semantic_status_roundtrip() {
    let mut status = SemanticStatus::new();
    assert_eq!(status.snapshot().state, "initializing");
    status.set("unavailable", "no model installed");
    let s = status.snapshot();
    assert_eq!(s.state, "unavailable");
    assert_eq!(s.detail, "no model installed");
    status.set("ready", "live");
    assert_eq!(status.snapshot().state, "ready");
}

#[test]
fn listen_remote_without_tls_rejected() {
    for bad in ["0.0.0.0:9090", "192.168.1.5:9090"] {
        let err = validate_listen(bad, &Ok(vec![false])).unwrap_err();
        assert!(
            err.contains("non-loopback"),
            "remote {bad} must be rejected, got: {err}"
        );
    }
    assert!(validate_listen("localhost:1", &Ok(vec![true, false])).is_err());
}

#[test]
fn listen_loopback_allowed() {
    let ok = Ok(vec![true]);
    assert_eq!(
        validate_listen("127.0.0.1:9090", &ok).unwrap(),
        "127.0.0.1:9090"
    );
    assert_eq!(
        validate_listen("[::1]:9090", &ok).unwrap(),
        "[::1]:9090"
    );
}

#[test]
fn listen_empty_host_maps_to_loopback() {
    assert_eq!(
        validate_listen(":9090", &Ok(vec![true])).unwrap(),
        "127.0.0.1:9090"
    );
    assert_eq!(
        validate_listen(":1", &Ok(vec![])).unwrap_err(),
        "--listen 127.0.0.1:1 did not resolve to any address"
    );
    assert_eq!(expand_listen("::1"), "::1");
    assert_eq!(expand_listen(""), "");
}

#[test]
fn listen_invalid_address_rejected() {
    let bad = Err("invalid socket address".to_string());
    assert_eq!(
        validate_listen("not an address", &bad).unwrap_err(),
        "invalid --listen address not an address: invalid socket address"
    );
    assert_eq!(
        validate_listen("nowhere:1", &Ok(vec![])).unwrap_err(),
        "--listen nowhere:1 did not resolve to any address"
    );
}

#[test]
fn gate_admits_only_known_tokens() {
    assert_eq!(gate(false, "tools/call", true), Gate::NotAuthenticated);
    assert_eq!(gate(false, "initialize", false), Gate::BadToken);
    assert_eq!(gate(false, "initialize", true), Gate::Admit);
    assert_eq!(gate(false, "ping", false), Gate::Pass);
    assert_eq!(gate(true, "tools/call", false), Gate::Pass);
    assert!(refusal(Gate::BadToken).unwrap().starts_with("invalid or missing token"));
    assert!(refusal(Gate::NotAuthenticated)
        .unwrap()
        .starts_with("authentication required"));
    assert!(refusal(Gate::Pass).is_none());
    assert!(refusal(Gate::Admit).is_none());
}

#[test]
fn tcp_needs_a_token() {
    let mut cfg = default_config();
    assert!(matches!(choose_transport(&cfg), Ok(Transport::Stdio)));
    cfg.listen_addr = Some("127.0.0.1:1".to_string());
    let err = choose_transport(&cfg).unwrap_err();
    assert!(err.starts_with("TCP mode requires at least one --tcp-token"));
    cfg.tcp_tokens = vec!["t".to_string()];
    assert!(matches!(choose_transport(&cfg), Ok(Transport::Tcp(a)) if a == "127.0.0.1:1"));
}

#[test]
fn encryption_needs_a_passphrase() {
    let mut enc = RuntimeEncryption {
        enabled: false,
        key_path: "k".to_string(),
        passphrase: None,
        policies: vec![],
    };
    assert_eq!(store_passphrase(&enc), Ok(None));
    enc.enabled = true;
    assert!(store_passphrase(&enc).unwrap_err().contains("no passphrase"));
    enc.passphrase = Some("s".to_string());
    assert_eq!(store_passphrase(&enc), Ok(Some("s".to_string())));
}

#[test]
fn models_are_never_swapped_silently() {
    assert_eq!(endpoint_model(""), "nomic-embed-text");
    assert_eq!(endpoint_url(""), "http://localhost:11434");
    assert_eq!(endpoint_url("http://h:1"), "http://h:1");
    assert_eq!(endpoint_model("mxbai"), "mxbai");
    assert!(refuse_local_model("").is_none());
    assert!(refuse_local_model("all-MiniLM-L6-v2").is_none());
    assert!(refuse_local_model("bge").unwrap().contains("model 'bge' is not installed"));
}

#[test]
fn written_ontologies_come_before_discovered_ones() {
    let e = |commit_ts: u64, discovered: bool| OntologyEntry { commit_ts, discovered };
    assert_eq!(choose_ontology(&vec![]), None);
    assert_eq!(choose_ontology(&vec![e(9, true), e(3, false), e(3, false), e(1, false)]), Some(2));
    assert_eq!(choose_ontology(&vec![e(2, true), e(5, true), e(4, true)]), Some(1));
}

#[test]
fn states_are_counted_by_class() {
    let s = vec![
        LifecycleState::Draft,
        LifecycleState::Proposed,
        LifecycleState::Active,
        LifecycleState::Verified,
        LifecycleState::Archived,
        LifecycleState::Deleted,
        LifecycleState::Deleted,
    ];
    let c = count_states(&s);
    assert_eq!(c.total, 7);
    assert_eq!(c.live, 5);
    assert_eq!(c.draft, 2);
    assert_eq!(c.active, 1);
    assert_eq!(c.verified, 1);
    assert_eq!(c.archived, 1);
    assert_eq!(c.deleted, 2);
    assert_eq!(count_state(&s, LifecycleState::Deleted), 2);
    assert_eq!(count_state(&s, LifecycleState::Updated), 0);
}

#[test]
fn reports_follow_their_rules() {
    assert!(backup_matches(Some((7, 3)), 7, 3));
    assert!(!backup_matches(Some((7, 2)), 7, 3));
    assert!(!backup_matches(None, 0, 0));
    assert_eq!(backup_dir_name("/a/db.redb", 17), "/a/db.redb.backup.17");
    assert!(is_backup_name("db.redb.backup.17"));
    assert!(!is_backup_name("db.redb"));
    assert!(is_backup_name(".backup."));
    assert_eq!(compliance_grade(true, 1), "A");
    assert_eq!(compliance_grade(true, 0), "C");
    assert_eq!(compliance_grade(false, 1), "C");
    assert_eq!(choose_framework(None).unwrap(), "gdpr");
    assert_eq!(choose_framework(Some("hipaa")).unwrap(), "hipaa");
    assert_eq!(
        choose_framework(Some("sox")).unwrap_err(),
        "unsupported framework: sox (supported: gdpr, hipaa)"
    );
    assert_eq!(connection_pool(0), "0/1");
    assert_eq!(connection_pool(3), "3/3");
    let names = vec!["meta.json".to_string(), ".redb".to_string(), "x.redb".to_string()];
    assert_eq!(backup_data_file("/b", Some("db.redb"), true, &names).unwrap(), "/b/db.redb");
    assert_eq!(backup_data_file("/b", Some("db.redb"), false, &names).unwrap(), "/b/x.redb");
    assert_eq!(backup_data_file("/b/", None, false, &names).unwrap(), "/b/x.redb");
    assert_eq!(backup_data_file("/b/", Some("db.redb"), true, &names).unwrap(), "/b//db.redb");
    assert_eq!(
        backup_data_file("/b", None, false, &vec![]).unwrap_err(),
        "backup data file missing"
    );
}

fn parts(line: &str) -> (String, String, bool) {
    match read_message(line) {
        Incoming::Message { method, token, asks } => (method, token, asks),
        other => panic!("no message: {other:?}"),
    }
}

#[test]
fn lines_are_read_as_messages() {
    assert_eq!(
        parts("  {\"id\": 1, \"method\": \"initialize\", \"params\": {\"token\": \"t\"}}\r\n"),
        ("initialize".to_string(), "t".to_string(), true)
    );
    assert_eq!(
        parts("{\"method\": \"ping\"}"),
        ("ping".to_string(), String::new(), false)
    );
    assert_eq!(parts("{\"method\": 7, \"id\": null}"), (String::new(), String::new(), true));
    assert_eq!(parts("[1, 2]"), (String::new(), String::new(), false));
    assert!(matches!(read_message(" \t\u{a0} "), Incoming::Blank));
    match read_message("{\"method\": ") {
        Incoming::Unparsed(text) => {
            assert_eq!(text, "parse error: EOF while parsing a value at line 1 column 10")
        }
        other => panic!("parsed: {other:?}"),
    }
    let known = Ok((Some("m".to_string()), None, true));
    assert!(matches!(incoming(known), Incoming::Message { asks: true, .. }));
    assert!(matches!(incoming(Err("x".to_string())), Incoming::Unparsed(t) if t == "parse error: x"));
}

#[test]
fn refused_requests_are_answered() {
    assert!(wants_token(false, "initialize"));
    assert!(!wants_token(true, "initialize"));
    assert!(!wants_token(false, "tools/call"));
    assert_eq!(decide(false, "initialize", true, true), (Gate::Admit, None));
    assert_eq!(decide(true, "tools/call", true, false), (Gate::Pass, None));
    let (g, told) = decide(false, "tools/call", true, false);
    assert_eq!(g, Gate::NotAuthenticated);
    assert_eq!(
        told,
        Some("authentication required — call initialize with a valid token first")
    );
    assert_eq!(decide(false, "tools/call", false, false), (Gate::NotAuthenticated, None));
    assert_eq!(decide(false, "initialize", false, false), (Gate::BadToken, None));
}

#[test]
fn backup_records_are_read() {
    let m = read_backup_meta(
        "{\"timestamp\": 9, \"source\": \"/d/x.redb\", \"journal_seq\": 4, \"object_count\": 2}",
    )
    .unwrap();
    assert_eq!(m.source.as_deref(), Some("/d/x.redb"));
    assert_eq!(m.timestamp, Some(9));
    assert_eq!(m.expected(), (4, 2));
    let m = read_backup_meta("{\"journal_seq\": \"4\", \"object_count\": -2}").unwrap();
    assert_eq!((m.source.as_deref(), m.journal_seq, m.timestamp), (None, None, None));
    assert_eq!(m.expected(), (0, 0));
    assert_eq!(
        read_backup_meta("").unwrap_err(),
        "bad meta: EOF while parsing a value at line 1 column 0"
    );
    assert_eq!(backup_meta(Err("why".to_string())).unwrap_err(), "bad meta: why");
}

#[test]
fn members_are_read_by_name() {
    let p = parse_message("{\"method\": \"ping\", \"params\": {\"token\": 3}, \"id\": null}");
    assert_eq!(p, Ok((Some("ping".to_string()), None, true)));
    let p = parse_message("{\"params\": {\"token\": \"t\"}, \"method\": [\"ping\"]}");
    assert_eq!(p, Ok((None, Some("t".to_string()), false)));
    assert_eq!(parse_message("[1, 2]"), Ok((None, None, false)));
    assert!(parse_message("{").is_err());
    let m = parse_meta("{\"source\": false, \"journal_seq\": 4.5, \"object_count\": {}}").unwrap();
    assert_eq!(m, (None, None, None, None));
}
