use aegis::config::{
    default_cache_size, default_inflight, default_interval, default_list_urls, default_listen_dev,
    default_nx_ttl, default_timeout, default_true, default_upstreams, Config,
};
use aegis::daemon::{host_from_url, listen_items, startup_allowlist, startup_config};
use aegis::metrics::Metrics;
use aegis::paths::AegisPaths;
use aegis::scheduler::{next_update_delay_secs, spread, wall_clock_sleep_ms};

fn strings(v: &[&str]) -> Vec<String> {
    v.iter().map(|s| s.to_string()).collect()
}

#[test]
fn defaults() {
    assert!(default_true());
    assert_eq!(default_listen_dev(), strings(&["127.0.0.1:53553"]));
    assert_eq!(
        default_upstreams(),
        strings(&["1.1.1.1:53", "1.0.0.1:53", "[2606:4700:4700::1111]:53"])
    );
    assert_eq!(default_timeout(), 1500);
    assert_eq!(default_inflight(), 256);
    assert_eq!(default_cache_size(), 8192);
    assert_eq!(default_nx_ttl(), 45);
    assert_eq!(default_interval(), 24);
    assert_eq!(
        default_list_urls(),
        strings(&["https://raw.githubusercontent.com/hagezi/dns-blocklists/main/wildcard/multi-onlydomains.txt"])
    );
    let c = Config::default();
    assert!(c.daemon.enabled && c.lists.auto_update);
    assert!(c.allowlist.domains.is_empty());
    assert_eq!(c.cache.size, 8192);
}

#[test]
fn privileged_listen() {
    let c = Config::default().with_privileged_listen();
    assert_eq!(c.daemon.listen, strings(&["127.0.0.1:53", "[::1]:53"]));
    assert_eq!(c.upstream.timeout_ms, 1500);
}

#[test]
fn metrics_snapshot_and_uptime() {
    let m = Metrics::new_at(true, 100);
    let s = m.snapshot_at(160);
    assert_eq!(s.uptime_secs, 60);
    assert!(s.filtering);
    assert_eq!(s.queries, 0);
    assert_eq!(m.snapshot_at(50).uptime_secs, 0);
    assert!(!Metrics::default().filtering);
}

#[test]
fn path_layouts() {
    let p = AegisPaths::from_root("/data/aegis".to_string(), true);
    assert_eq!(p.config, "/data/aegis/config.toml");
    assert_eq!(p.blocklist, "/data/aegis/blocklist.bin");
    assert_eq!(p.meta_db, "/data/aegis/meta.sqlite");
    assert_eq!(p.dns_backup, "/data/aegis/dns-backup.json");
    assert_eq!(p.socket, "/data/aegis/aegis.sock");
    let q = AegisPaths::privileged();
    assert_eq!(q.config, "/Library/Application Support/Aegis/config.toml");
    assert_eq!(q.socket, "/var/run/aegis.sock");
    assert_eq!(AegisPaths::dev_under(None).config, "./.aegis/config.toml");
    assert_eq!(AegisPaths::dev_under(Some("/home/u/".to_string())).root, "/home/u/.aegis");
}

#[test]
fn hosts_of_list_urls() {
    assert_eq!(host_from_url("https://raw.githubusercontent.com/x/y.txt"), Some("raw.githubusercontent.com".to_string()));
    assert_eq!(host_from_url("http://user:pw@lists.example:8443/a@b"), Some("lists.example".to_string()));
    assert_eq!(host_from_url("https:///path"), None);
    assert_eq!(host_from_url("ftp://x.example/"), None);
}

#[test]
fn list_hosts_are_always_allowed() {
    let mut c = Config::default();
    c.allowlist.domains = strings(&["mine.test"]);
    let a = startup_allowlist(&c);
    assert_eq!(a.list(), strings(&["mine.test", "raw.githubusercontent.com"]));
}

#[test]
fn listen_override_and_privileged_ports() {
    assert_eq!(listen_items(" 127.0.0.1:53 ,,[::1]:53, "), strings(&["127.0.0.1:53", "[::1]:53"]));
    assert_eq!(listen_items(""), Vec::<String>::new());
    let c = startup_config(Config::default(), false, None);
    assert_eq!(c.daemon.listen, strings(&["127.0.0.1:53", "[::1]:53"]));
    let c = startup_config(Config::default(), true, None);
    assert_eq!(c.daemon.listen, strings(&["127.0.0.1:53553"]));
    let c = startup_config(Config::default(), false, Some("127.0.0.1:5300".to_string()));
    assert_eq!(c.daemon.listen, strings(&["127.0.0.1:5300"]));
    let mut custom = Config::default();
    custom.daemon.listen = strings(&["10.0.0.1:53"]);
    assert_eq!(startup_config(custom, false, None).daemon.listen, strings(&["10.0.0.1:53"]));
}

#[test]
fn update_schedule() {
    assert_eq!(spread(7, 0, 1800), 7);
    assert_eq!(spread(1801, 0, 1800), 0);
    assert_eq!(spread(5, 10, 10), 10);
    assert_eq!(next_update_delay_secs(true, 24, 100), Some(24 * 3600 + 100));
    assert_eq!(next_update_delay_secs(true, 0, 0), Some(3600));
    assert_eq!(next_update_delay_secs(true, 1000, 0), Some(168 * 3600));
    assert_eq!(next_update_delay_secs(false, 24, 0), None);
    assert_eq!(wall_clock_sleep_ms(1000, 1000), None);
    assert_eq!(wall_clock_sleep_ms(1000, 2000), None);
    assert_eq!(wall_clock_sleep_ms(1150, 1000), Some(150));
    assert_eq!(wall_clock_sleep_ms(1_000_000, 0), Some(60_000));
}

#[test]
fn wall_clock_sleep_returns_after_the_requested_span() {
    // A 150 ms span sleeps 150 ms, not a whole one-minute tick, and then ends.
    let start = 1_000_000u64;
    let deadline = start + 150;
    assert_eq!(wall_clock_sleep_ms(deadline, start), Some(150));
    assert_eq!(wall_clock_sleep_ms(deadline, start + 150), None);
}

#[test]
fn zero_and_past_deadlines_return_immediately() {
    assert_eq!(wall_clock_sleep_ms(5_000, 5_000), None);
    assert_eq!(wall_clock_sleep_ms(5_000, 9_000), None);
}
