use aegis::config::Config;
use aegis::dns::{
    inflight_limit, min_ttl, nxdomain_reflect, set_message_id, upstream_candidates, DnsProxy,
    FilterState, QueryStep,
};
use aegis::metrics::Metrics;
use aegis::trie::{Allowlist, Blocklist};

fn name_bytes(name: &str) -> Vec<u8> {
    let mut out = Vec::new();
    for label in name.split('.').filter(|l| !l.is_empty()) {
        out.push(label.len() as u8);
        out.extend_from_slice(label.as_bytes());
    }
    out.push(0);
    out
}

/// A standard query with RD set and one question of type A, class IN.
fn query(id: u16, name: &str) -> Vec<u8> {
    let mut m = Vec::new();
    m.extend_from_slice(&id.to_be_bytes());
    m.extend_from_slice(&[0x01, 0x00]);
    m.extend_from_slice(&[0, 1, 0, 0, 0, 0, 0, 0]);
    m.extend_from_slice(&name_bytes(name));
    m.extend_from_slice(&[0, 1, 0, 1]);
    m
}

/// An answer to `query(id, name)`: one A record with `ttl`, optionally truncated.
fn answer(id: u16, name: &str, ttl: u32, truncated: bool) -> Vec<u8> {
    let mut m = Vec::new();
    m.extend_from_slice(&id.to_be_bytes());
    m.extend_from_slice(&[if truncated { 0x83 } else { 0x81 }, 0x80]);
    m.extend_from_slice(&[0, 1, 0, 1, 0, 0, 0, 0]);
    m.extend_from_slice(&name_bytes(name));
    m.extend_from_slice(&[0, 1, 0, 1]);
    m.extend_from_slice(&[0xc0, 0x0c, 0, 1, 0, 1]);
    m.extend_from_slice(&ttl.to_be_bytes());
    m.extend_from_slice(&[0, 4, 10, 0, 0, 1]);
    m
}

/// An answer whose only record is a CNAME from `name` to `target`.
fn cname_answer(id: u16, name: &str, target: &str) -> Vec<u8> {
    let mut m = Vec::new();
    m.extend_from_slice(&id.to_be_bytes());
    m.extend_from_slice(&[0x81, 0x80]);
    m.extend_from_slice(&[0, 1, 0, 1, 0, 0, 0, 0]);
    m.extend_from_slice(&name_bytes(name));
    m.extend_from_slice(&[0, 1, 0, 1]);
    let t = name_bytes(target);
    m.extend_from_slice(&[0xc0, 0x0c, 0, 5, 0, 1, 0, 0, 1, 44]);
    m.extend_from_slice(&(t.len() as u16).to_be_bytes());
    m.extend_from_slice(&t);
    m
}

fn strings(v: &[&str]) -> Vec<String> {
    v.iter().map(|s| s.to_string()).collect()
}

fn proxy(blocked: &[&str], allowed: &[&str]) -> DnsProxy {
    let filter = FilterState::new(
        Blocklist::from_domains(&strings(blocked)),
        Allowlist::from_domains(&strings(allowed)),
    );
    DnsProxy::new(Config::default(), Metrics::new(true), filter)
}

#[test]
fn blocked_names_and_their_subdomains_get_nxdomain() {
    let mut p = proxy(&["ads.example.com"], &[]);
    for name in ["ads.example.com", "x.ads.example.com"] {
        let q = query(0x1234, name);
        match p.handle_query(&q) {
            QueryStep::Reply(r) => {
                assert_eq!(r.len(), q.len());
                assert_eq!(&r[0..2], &[0x12, 0x34]);
                assert_eq!(r[2], 0x81);
                assert_eq!(r[3], 0x83);
                assert_eq!(&r[4..], &q[4..]);
            }
            _ => panic!("{name} must be blocked"),
        }
    }
    assert_eq!(p.metrics.blocked, 2);
    assert_eq!(p.metrics.queries, 2);
    let recent = p.filter.recent.snapshot(10);
    assert_eq!(recent[0].domain, "x.ads.example.com");
}

#[test]
fn allowed_local_and_unlisted_names_go_upstream() {
    let mut p = proxy(&["example.com", "printer.local"], &["good.example.com"]);
    for name in ["good.example.com", "a.good.example.com", "printer.local", "other.test"] {
        match p.handle_query(&query(7, name)) {
            QueryStep::Forward(f) => {
                assert_eq!(f.id, 7);
                assert_eq!(f.key.name, name);
            }
            _ => panic!("{name} must be forwarded"),
        }
    }
    assert_eq!(p.metrics.blocked, 0);
    assert_eq!(p.metrics.cache_miss, 4);
}

#[test]
fn disabled_filtering_and_empty_lists_block_nothing() {
    let mut p = proxy(&["ads.example.com"], &[]);
    p.metrics.filtering = false;
    assert!(matches!(p.handle_query(&query(1, "ads.example.com")), QueryStep::Forward(_)));
    let mut q = proxy(&[], &[]);
    assert!(matches!(q.handle_query(&query(1, "ads.example.com")), QueryStep::Forward(_)));
}

#[test]
fn responses_garbage_and_other_opcodes_are_dropped() {
    let mut p = proxy(&[], &[]);
    assert!(matches!(p.handle_query(&[1, 2, 3]), QueryStep::Drop));
    let mut resp = query(1, "a.test");
    resp[2] |= 0x80;
    assert!(matches!(p.handle_query(&resp), QueryStep::Drop));
    let mut notify = query(1, "a.test");
    notify[2] |= 4 << 3;
    assert!(matches!(p.handle_query(&notify), QueryStep::Drop));
    assert_eq!(p.metrics.queries, 3);
}

#[test]
fn two_questions_get_formerr() {
    let mut p = proxy(&[], &[]);
    let mut q = query(0xabcd, "a.test");
    q[5] = 2;
    q.extend_from_slice(&name_bytes("b.test"));
    q.extend_from_slice(&[0, 1, 0, 1]);
    match p.handle_query(&q) {
        QueryStep::Reply(r) => assert_eq!(r, vec![0xab, 0xcd, 0x81, 0x81, 0, 0, 0, 0, 0, 0, 0, 0]),
        _ => panic!("expected FORMERR"),
    }
}

#[test]
fn answers_are_cached_and_served_with_the_new_id() {
    let mut p = proxy(&[], &[]);
    let pending = match p.handle_query(&query(1, "www.example.com")) {
        QueryStep::Forward(f) => f,
        _ => panic!("miss expected"),
    };
    let a = answer(1, "www.example.com", 300, false);
    let reply = p.finish_query(pending, Some(a.clone()));
    assert_eq!(reply, a);
    assert_eq!(p.metrics.upstream_ok, 1);
    match p.handle_query(&query(0x0909, "www.example.com")) {
        QueryStep::Reply(r) => {
            let n = a.len();
            assert_eq!(r.len(), n);
            assert_eq!(&r[0..2], &[0x09, 0x09]);
            assert_eq!(&r[2..n - 10], &a[2..n - 10]);
            assert_eq!(&r[n - 6..], &a[n - 6..]);
            let ttl = u32::from_be_bytes(r[n - 10..n - 6].try_into().unwrap());
            assert!(ttl <= 300 && ttl >= 298, "ttl={ttl}");
        }
        _ => panic!("hit expected"),
    }
    assert_eq!(p.metrics.cache_hit, 1);
}

#[test]
fn truncated_or_mismatched_answers_are_not_cached() {
    let mut p = proxy(&[], &[]);
    for a in [answer(1, "t.test", 300, true), answer(2, "t.test", 300, false)] {
        let pending = match p.handle_query(&query(1, "t.test")) {
            QueryStep::Forward(f) => f,
            _ => panic!("miss expected"),
        };
        let reply = p.finish_query(pending, Some(a.clone()));
        assert_eq!(&reply[0..2], &[0, 1]);
        assert_eq!(&reply[2..], &a[2..]);
    }
    assert!(matches!(p.handle_query(&query(1, "t.test")), QueryStep::Forward(_)));
    assert_eq!(p.cache.byte_len(), 0);
}

#[test]
fn a_blocked_cname_target_blocks_the_answer() {
    let mut p = proxy(&["tracker.example.net"], &[]);
    let pending = match p.handle_query(&query(5, "metrics.site.com")) {
        QueryStep::Forward(f) => f,
        _ => panic!("miss expected"),
    };
    let req = pending.request.clone();
    let reply = p.finish_query(pending, Some(cname_answer(5, "metrics.site.com", "tracker.example.net")));
    assert_eq!(reply, nxdomain_reflect(&req));
    assert_eq!(p.metrics.blocked, 1);
    match p.handle_query(&query(6, "metrics.site.com")) {
        QueryStep::Reply(r) => {
            assert_eq!(&r[0..2], &[0, 6]);
            assert_eq!(r[3] & 0x0f, 3);
        }
        _ => panic!("the synthesized NXDOMAIN is cached"),
    }
}

#[test]
fn an_allowlisted_question_skips_the_cname_check() {
    let mut p = proxy(&["tracker.example.net"], &["site.com"]);
    let pending = match p.handle_query(&query(5, "metrics.site.com")) {
        QueryStep::Forward(f) => f,
        _ => panic!("miss expected"),
    };
    let a = cname_answer(5, "metrics.site.com", "tracker.example.net");
    assert_eq!(p.finish_query(pending, Some(a.clone())), a);
}

#[test]
fn a_local_name_skips_the_cname_check() {
    let mut p = proxy(&["tracker.example.net"], &[]);
    let pending = match p.handle_query(&query(5, "printer.local")) {
        QueryStep::Forward(f) => f,
        _ => panic!("miss expected"),
    };
    assert!(!pending.filtering);
    let a = cname_answer(5, "printer.local", "tracker.example.net");
    assert_eq!(p.finish_query(pending, Some(a.clone())), a);
    assert_eq!(p.metrics.blocked, 0);
}

#[test]
fn no_answer_gives_servfail_with_the_question() {
    let mut p = proxy(&[], &[]);
    let q = query(0x4242, "down.test");
    let pending = match p.handle_query(&q) {
        QueryStep::Forward(f) => f,
        _ => panic!("miss expected"),
    };
    let r = p.finish_query(pending, None);
    assert_eq!(&r[0..4], &[0x42, 0x42, 0x81, 0x82]);
    assert_eq!(&r[4..6], &[0, 1]);
    assert_eq!(&r[12..], &q[12..]);
    assert_eq!(p.metrics.upstream_errors, 1);
    assert_eq!(p.metrics.consecutive_upstream_failures, 1);
}

#[test]
fn own_listeners_and_bad_addresses_are_never_upstreams() {
    let mut cfg = Config::default();
    cfg.daemon.listen = strings(&["127.0.0.1:53553"]);
    cfg.upstream.servers = strings(&["1.1.1.1:53", "127.0.0.1:53553", "nonsense", "[::1]:53"]);
    assert_eq!(upstream_candidates(&cfg), strings(&["1.1.1.1:53", "[::1]:53"]));
    let filter = FilterState::new(Blocklist::new(), Allowlist::new());
    let mut p = DnsProxy::new(cfg, Metrics::new(true), filter);
    let order = p.upstream_order();
    assert_eq!(order, vec![(0, "1.1.1.1:53".to_string()), (1, "[::1]:53".to_string())]);
    p.upstream_answered(1, 1);
    let order = p.upstream_order();
    assert_eq!(order, vec![(1, "[::1]:53".to_string()), (0, "1.1.1.1:53".to_string())]);
    p.upstream_answered(0, 0);
    assert_eq!(p.upstream_order()[0].0, 1);
}

#[test]
fn timeouts_and_limits_have_floors() {
    let mut cfg = Config::default();
    cfg.upstream.timeout_ms = 5;
    cfg.upstream.max_inflight = 0;
    assert_eq!(inflight_limit(&cfg), 1);
    let p = DnsProxy::new(cfg, Metrics::new(true), FilterState::new(Blocklist::new(), Allowlist::new()));
    assert_eq!(p.upstream_timeout_ms(), 100);
}

#[test]
fn byte_helpers() {
    let mut m = vec![0u8, 0, 9];
    set_message_id(&mut m, 0x0102);
    assert_eq!(m, vec![1, 2, 9]);
    let mut short = vec![7u8];
    set_message_id(&mut short, 0xffff);
    assert_eq!(short, vec![7]);
    assert_eq!(nxdomain_reflect(&[1, 2, 3]), vec![1, 2, 3]);
    let mut q = query(3, "a.test");
    q[2] = 0x03;
    q[3] = 0x30;
    let r = nxdomain_reflect(&q);
    assert_eq!(r[2], 0x81);
    assert_eq!(r[3], 0x83);
    assert_eq!(min_ttl(&vec![]), None);
    assert_eq!(min_ttl(&vec![300, 20, 60]), Some(20));
}

#[test]
fn swapping_the_blocklist_records_its_size() {
    let mut f = FilterState::new(Blocklist::new(), Allowlist::new());
    assert_eq!(f.domain_count, 0);
    f.swap_blocklist_at(Blocklist::from_domains(&strings(&["a.test", "b.test"])), 99);
    assert_eq!(f.domain_count, 2);
    assert_eq!(f.list_updated_at_unix, 99);
}
