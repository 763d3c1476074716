use aegis::config::Config;
use aegis::control::{
    after_save, blocklist_read, config_loaded, dispatch, lists_payload, method_kind, patch_config,
    stats_read, update_start, AfterSave, ConfigPatch, ControlStep, Method, Params, Reply,
};
use aegis::dns::{DnsProxy, FilterState};
use aegis::metrics::Metrics;
use aegis::paths::AegisPaths;
use aegis::trie::{write_domains_file, Allowlist, Blocklist};
use aegis::updater::ListSourceStat;

fn strings(v: &[&str]) -> Vec<String> {
    v.iter().map(|s| s.to_string()).collect()
}

fn no_patch() -> ConfigPatch {
    ConfigPatch {
        daemon_enabled: None,
        upstream_servers: None,
        upstream_timeout_ms: None,
        lists_auto_update: None,
        lists_interval_hours: None,
        lists_urls: None,
        allowlist_domains: None,
    }
}

fn params() -> Params {
    Params { enabled: None, domain: None, url: None, limit: None, patch: no_patch() }
}

fn proxy() -> DnsProxy {
    let filter = FilterState::new(Blocklist::new(), Allowlist::new());
    DnsProxy::new(Config::default(), Metrics::new(true), filter)
}

fn paths() -> AegisPaths {
    AegisPaths::from_root("/tmp/aegis-test".to_string(), true)
}

fn error_of(step: ControlStep) -> (String, String) {
    match step {
        ControlStep::Done(Reply::Error { code, message }) => (code, message),
        _ => panic!("expected an error reply"),
    }
}

#[test]
fn methods_are_recognized_by_name() {
    assert!(matches!(method_kind("ping"), Method::Ping));
    assert!(matches!(method_kind("lists.add_url"), Method::ListsAddUrl));
    assert!(matches!(method_kind("allowlist.remove"), Method::AllowlistRemove));
    assert!(matches!(method_kind("Ping"), Method::Unknown));
}

#[test]
fn ping_status_and_unknown_methods() {
    let mut p = proxy();
    assert!(matches!(dispatch(&mut p, &paths(), "ping", params()), ControlStep::Done(Reply::Pong)));
    match dispatch(&mut p, &paths(), "status", params()) {
        ControlStep::Done(Reply::Status(s)) => {
            assert!(s.enabled && s.filtering);
            assert_eq!(s.listen, strings(&["127.0.0.1:53553"]));
            assert_eq!(s.socket, "/tmp/aegis-test/aegis.sock");
            assert_eq!(s.domain_count, 0);
        }
        _ => panic!("status"),
    }
    assert_eq!(
        error_of(dispatch(&mut p, &paths(), "frobnicate", params())),
        ("unknown_method".to_string(), "unknown method: frobnicate".to_string())
    );
}

#[test]
fn set_enabled_publishes_only_after_saving() {
    let mut p = proxy();
    let mut ps = params();
    ps.enabled = Some(false);
    let (config, then) = match dispatch(&mut p, &paths(), "set_enabled", ps) {
        ControlStep::Save { config, then } => (config, then),
        _ => panic!("save expected"),
    };
    assert!(!config.daemon.enabled);
    assert!(p.config.daemon.enabled);
    let failed = after_save(&mut p, config.clone(), AfterSave::Enabled(false), Err("io: disk full".into()));
    assert_eq!(error_of(failed), ("io".to_string(), "io: disk full".to_string()));
    assert!(p.config.daemon.enabled && p.metrics.filtering);
    match after_save(&mut p, config, then, Ok(())) {
        ControlStep::Done(Reply::Enabled(false)) => {}
        _ => panic!("enabled reply"),
    }
    assert!(!p.config.daemon.enabled && !p.metrics.filtering);
}

#[test]
fn set_enabled_defaults_to_true() {
    let mut p = proxy();
    match dispatch(&mut p, &paths(), "set_enabled", params()) {
        ControlStep::Save { config, .. } => assert!(config.daemon.enabled),
        _ => panic!("save expected"),
    }
}

#[test]
fn allowlist_edits_save_then_publish() {
    let mut p = proxy();
    let mut ps = params();
    ps.domain = Some("Bank.Example".to_string());
    let (config, then) = match dispatch(&mut p, &paths(), "allowlist.add", ps) {
        ControlStep::Save { config, then } => (config, then),
        _ => panic!("save expected"),
    };
    assert_eq!(config.allowlist.domains, strings(&["bank.example"]));
    assert!(p.filter.allowlist.list().is_empty());
    match after_save(&mut p, config, then, Ok(())) {
        ControlStep::Done(Reply::Allowlist(l)) => assert_eq!(l, strings(&["bank.example"])),
        _ => panic!("allowlist reply"),
    }
    assert!(p.filter.allowlist.contains("www.bank.example"));
    let mut ps = params();
    ps.domain = Some("bank.example".to_string());
    let (config, then) = match dispatch(&mut p, &paths(), "allowlist.remove", ps) {
        ControlStep::Save { config, then } => (config, then),
        _ => panic!("save expected"),
    };
    let failed = after_save(&mut p, config, then, Err("io: denied".into()));
    assert_eq!(
        error_of(failed).1,
        "não foi possível salvar a allowlist: io: denied"
    );
    assert!(p.filter.allowlist.contains("bank.example"));
    assert_eq!(
        error_of(dispatch(&mut p, &paths(), "allowlist.add", params())),
        ("bad_request".to_string(), "missing domain".to_string())
    );
}

#[test]
fn list_urls_must_be_https() {
    let mut p = proxy();
    let mut ps = params();
    ps.url = Some("http://lists.example/hosts".to_string());
    assert_eq!(
        error_of(dispatch(&mut p, &paths(), "lists.add_url", ps)),
        ("bad_request".to_string(), "a URL precisa começar com https://".to_string())
    );
    let mut ps = params();
    ps.url = Some(format!("https://{}", "a".repeat(2041)));
    assert!(matches!(dispatch(&mut p, &paths(), "lists.add_url", ps), ControlStep::Done(Reply::Error { .. })));
    let mut ps = params();
    ps.url = Some("https://lists.example/hosts".to_string());
    let (config, then) = match dispatch(&mut p, &paths(), "lists.add_url", ps) {
        ControlStep::Save { config, then } => (config, then),
        _ => panic!("save expected"),
    };
    assert_eq!(config.lists.urls.len(), 2);
    assert_eq!(config.lists.urls[1], "https://lists.example/hosts");
    match after_save(&mut p, config, then, Ok(())) {
        ControlStep::ReadStats { urls } => assert_eq!(urls.len(), 2),
        _ => panic!("stats expected"),
    }
    let mut ps = params();
    ps.url = Some("https://lists.example/hosts".to_string());
    match dispatch(&mut p, &paths(), "lists.add_url", ps) {
        ControlStep::Save { config, .. } => assert_eq!(config.lists.urls.len(), 2),
        _ => panic!("save expected"),
    }
    let mut ps = params();
    ps.url = Some("https://lists.example/hosts".to_string());
    match dispatch(&mut p, &paths(), "lists.remove_url", ps) {
        ControlStep::Save { config, .. } => assert_eq!(config.lists.urls.len(), 1),
        _ => panic!("save expected"),
    }
}

#[test]
fn patch_config_checks_upstreams() {
    let mut p = proxy();
    let mut patch = no_patch();
    patch.upstream_servers = Some(vec![Some("1.1.1.1:53".into()), None]);
    assert_eq!(patch_config(&mut p, &patch).unwrap_err(), "upstream.servers deve conter apenas strings");
    patch.upstream_servers = Some(vec![Some("1.1.1.1".into())]);
    assert_eq!(
        patch_config(&mut p, &patch).unwrap_err(),
        "endereço de upstream inválido: 1.1.1.1 (use IP:porta)"
    );
    patch.upstream_servers = Some(vec![Some("127.0.0.1:53553".into())]);
    assert_eq!(
        patch_config(&mut p, &patch).unwrap_err(),
        "127.0.0.1:53553 é o próprio Aegis; isso criaria um laço de DNS"
    );
    patch.upstream_servers = Some(vec![]);
    assert_eq!(patch_config(&mut p, &patch).unwrap_err(), "é preciso ao menos um servidor upstream");
    patch.upstream_servers = Some(vec![Some("9.9.9.9:53".into())]);
    patch.lists_interval_hours = Some(1000);
    patch.lists_urls = Some(vec![Some("https://x".into()), None, Some("https://y".into())]);
    let c = patch_config(&mut p, &patch).unwrap();
    assert_eq!(c.upstream.servers, strings(&["9.9.9.9:53"]));
    assert_eq!(c.lists.interval_hours, 168);
    assert_eq!(c.lists.urls, strings(&["https://x", "https://y"]));
    assert_eq!(p.config.upstream.servers.len(), 3);
}

#[test]
fn a_refused_patch_changes_nothing() {
    let mut p = proxy();
    let before = p.metrics.filtering;
    let mut patch = no_patch();
    patch.daemon_enabled = Some(!before);
    patch.allowlist_domains = Some(vec![Some("bank.example".into())]);
    patch.upstream_servers = Some(vec![]);
    assert_eq!(patch_config(&mut p, &patch).unwrap_err(), "é preciso ao menos um servidor upstream");
    assert_eq!(p.metrics.filtering, before);
    assert!(!p.filter.allowlist.contains("bank.example"));
}

#[test]
fn patch_config_refuses_plain_http_lists() {
    let mut p = proxy();
    let before = p.metrics.filtering;
    let urls_before = p.config.lists.urls.clone();
    let mut patch = no_patch();
    patch.daemon_enabled = Some(!before);
    patch.lists_urls = Some(vec![Some("https://ok.example/a".into()), Some("http://example.com/hosts.txt".into())]);
    assert_eq!(patch_config(&mut p, &patch).unwrap_err(), "a URL precisa começar com https://");
    assert_eq!(p.metrics.filtering, before);
    assert_eq!(p.config.lists.urls, urls_before);
}

#[test]
fn patch_config_switches_filtering_and_allowlist_at_once() {
    let mut p = proxy();
    let mut patch = no_patch();
    patch.daemon_enabled = Some(false);
    patch.lists_interval_hours = Some(0);
    patch.allowlist_domains = Some(vec![Some("Ok.Test".into()), None]);
    let c = patch_config(&mut p, &patch).unwrap();
    assert!(!p.metrics.filtering);
    assert!(!c.daemon.enabled);
    assert_eq!(c.lists.interval_hours, 1);
    assert_eq!(c.allowlist.domains, strings(&["Ok.Test"]));
    assert!(p.filter.allowlist.contains("a.ok.test"));
    let mut ps = params();
    ps.patch = patch;
    match dispatch(&mut p, &paths(), "patch_config", ps) {
        ControlStep::Save { then: AfterSave::Patch, .. } => {}
        _ => panic!("save expected"),
    }
}

#[test]
fn recent_blocked_limit_defaults_and_caps() {
    let mut p = proxy();
    for i in 0..300 {
        p.filter.recent.record(&format!("d{i}.test"));
    }
    match dispatch(&mut p, &paths(), "recent.blocked", params()) {
        ControlStep::Done(Reply::Recent(r)) => {
            assert_eq!(r.len(), 50);
            assert_eq!(r[0].domain, "d299.test");
        }
        _ => panic!("recent"),
    }
    let mut ps = params();
    ps.limit = Some(100_000);
    match dispatch(&mut p, &paths(), "recent.blocked", ps) {
        ControlStep::Done(Reply::Recent(r)) => assert_eq!(r.len(), 256),
        _ => panic!("recent"),
    }
    assert!(matches!(dispatch(&mut p, &paths(), "recent.clear", params()), ControlStep::Done(Reply::Cleared)));
    assert!(p.filter.recent.snapshot(10).is_empty());
}

#[test]
fn reloads_apply_what_was_read() {
    let mut p = proxy();
    assert!(matches!(dispatch(&mut p, &paths(), "reload_config", params()), ControlStep::LoadConfig));
    let mut c = Config::default();
    c.daemon.enabled = false;
    c.allowlist.domains = strings(&["keep.test"]);
    assert!(matches!(config_loaded(&mut p, Ok(c)), Reply::Reloaded));
    assert!(!p.metrics.filtering);
    assert!(p.filter.allowlist.contains("x.keep.test"));
    match config_loaded(&mut p, Err("toml: bad".into())) {
        Reply::Error { code, message } => assert_eq!((code.as_str(), message.as_str()), ("io", "toml: bad")),
        _ => panic!("error"),
    }

    assert!(matches!(dispatch(&mut p, &paths(), "reload_lists", params()), ControlStep::ReadBlocklist));
    let bytes = write_domains_file(&strings(&["a.test", "b.test"])).unwrap();
    match blocklist_read(&mut p, Ok(bytes)) {
        Reply::ListDomains(2) => {}
        _ => panic!("two domains"),
    }
    assert_eq!(p.filter.domain_count, 2);
    match blocklist_read(&mut p, Ok(b"XXXX\x02\0\0\0\0\0\0\0".to_vec())) {
        Reply::Error { code, message } => {
            assert_eq!(code, "io");
            assert_eq!(message, "invalid blocklist file: bad magic");
        }
        _ => panic!("error"),
    }
    assert_eq!(p.filter.domain_count, 2);
}

#[test]
fn lists_report_uses_rows_or_fresh_entries() {
    let p = proxy();
    match stats_read(&p, None) {
        Reply::Lists(l) => {
            assert_eq!(l.list_count, 1);
            assert_eq!(l.sources.len(), 1);
            assert_eq!(l.sources[0].domain_count, 0);
            assert_eq!(l.sum_domain_counts, 0);
            assert_eq!(l.interval_hours, 24);
        }
        _ => panic!("lists"),
    }
    let rows = vec![
        ListSourceStat { url: "u1".into(), domain_count: 10, last_success_unix: Some(5), last_error: None },
        ListSourceStat { url: "u2".into(), domain_count: 7, last_success_unix: None, last_error: Some("e".into()) },
    ];
    let l = lists_payload(&p.config, 12, Some(rows));
    assert_eq!(l.sum_domain_counts, 17);
    assert_eq!(l.unique_domains, 12);
    assert_eq!(l.sources.len(), 2);
    assert_eq!(l.sources[1].last_error.as_deref(), Some("e"));
}

#[test]
fn cache_clear_and_update_lists() {
    let mut p = proxy();
    assert!(matches!(dispatch(&mut p, &paths(), "cache.clear", params()), ControlStep::Done(Reply::Cleared)));
    match dispatch(&mut p, &paths(), "update_lists", params()) {
        ControlStep::StartUpdate { urls } => assert_eq!(urls, p.config.lists.urls),
        _ => panic!("update"),
    }
    match dispatch(&mut p, &paths(), "get_config", params()) {
        ControlStep::Done(Reply::Config(c)) => assert_eq!(c.upstream.timeout_ms, 1500),
        _ => panic!("config"),
    }
}

#[test]
fn update_lists_reports_a_running_update() {
    assert!(matches!(update_start(true), Reply::Started));
    match update_start(false) {
        Reply::NotStarted { reason } => assert_eq!(reason, "update already running"),
        _ => panic!("not started"),
    }
}
