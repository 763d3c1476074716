use aegis::cache::{adjust_ttls, answer_for_age, CacheKey, DnsCache, MAX_BYTES};

/// Wire message: header, one question, one A record (TTL 300), one OPT with DO=1.
/// Returns the message plus the byte offsets of the A record's TTL and the OPT's
/// flags field.
fn response_with_opt() -> (Vec<u8>, usize, usize) {
    let mut m = Vec::new();
    m.extend_from_slice(&[0x12, 0x34]);
    m.extend_from_slice(&[0x81, 0x80]);
    m.extend_from_slice(&[0, 1]);
    m.extend_from_slice(&[0, 1]);
    m.extend_from_slice(&[0, 0]);
    m.extend_from_slice(&[0, 1]);
    m.extend_from_slice(b"\x07example\x03com\x00");
    m.extend_from_slice(&[0, 1, 0, 1]);

    m.extend_from_slice(&[0xc0, 0x0c]);
    m.extend_from_slice(&[0, 1, 0, 1]);
    let a_ttl_at = m.len();
    m.extend_from_slice(&300u32.to_be_bytes());
    m.extend_from_slice(&[0, 4]);
    m.extend_from_slice(&[93, 184, 216, 34]);

    m.extend_from_slice(&[0x00]);
    m.extend_from_slice(&[0, 41]);
    m.extend_from_slice(&[0x04, 0xd0]);
    let opt_flags_at = m.len();
    m.extend_from_slice(&[0x00, 0x00, 0x80, 0x00]);
    m.extend_from_slice(&[0, 0]);
    (m, a_ttl_at, opt_flags_at)
}

#[test]
fn preserves_edns_opt_while_rewriting_real_ttls() {
    let (msg, a_ttl_at, opt_flags_at) = response_with_opt();
    let out = adjust_ttls(&msg, 10);

    assert_eq!(
        &out[opt_flags_at..opt_flags_at + 4],
        &[0x00, 0x00, 0x80, 0x00],
        "OPT flags must survive untouched: DO bit set, Z zero"
    );
    assert_eq!(
        u32::from_be_bytes(out[a_ttl_at..a_ttl_at + 4].try_into().unwrap()),
        10,
        "the real record's TTL must still be rewritten"
    );
}

#[test]
fn expired_entries_are_evicted_and_byte_count_returns_to_zero() {
    let mut c = DnsCache::new(8, 45);
    let key = CacheKey { name: "a.test".into(), qtype: 1, qclass: 1, dnssec_ok: false };
    c.insert(key.clone(), vec![0u8; 120], 1, false);
    assert_eq!(c.byte_len(), 120);
    c.clear();
    assert_eq!(c.byte_len(), 0);
    assert!(c.get(&key).is_none());
}

#[test]
fn dnssec_ok_is_part_of_the_key() {
    let mut c = DnsCache::new(8, 45);
    let plain = CacheKey { name: "a.test".into(), qtype: 1, qclass: 1, dnssec_ok: false };
    let signed = CacheKey { name: "a.test".into(), qtype: 1, qclass: 1, dnssec_ok: true };
    c.insert(signed, vec![0u8; 64], 60, false);
    assert!(c.get(&plain).is_none());
}

#[test]
fn byte_cap_evicts_rather_than_growing_without_bound() {
    let mut c = DnsCache::new(100_000, 45);
    for i in 0..2000 {
        let key = CacheKey { name: format!("d{i}.test"), qtype: 1, qclass: 1, dnssec_ok: false };
        c.insert(key, vec![0u8; 4096], 300, false);
    }
    assert!(c.byte_len() <= MAX_BYTES, "byte_len={} cap={MAX_BYTES}", c.byte_len());
}

#[test]
fn a_fresh_entry_is_served_with_adjusted_ttls() {
    let (msg, a_ttl_at, _) = response_with_opt();
    let mut c = DnsCache::new(8, 45);
    let key = CacheKey { name: "example.com".into(), qtype: 1, qclass: 1, dnssec_ok: false };
    c.insert(key.clone(), msg.clone(), 300, false);
    let got = c.get(&key).expect("fresh entry");
    assert_eq!(got.len(), msg.len());
    let ttl = u32::from_be_bytes(got[a_ttl_at..a_ttl_at + 4].try_into().unwrap());
    assert!(ttl <= 300 && ttl >= 298, "ttl={ttl}");
}

#[test]
fn answer_for_age_counts_down_and_expires() {
    let (msg, a_ttl_at, _) = response_with_opt();
    let a = answer_for_age(&msg, 300, false, 45, 100).unwrap();
    assert_eq!(u32::from_be_bytes(a[a_ttl_at..a_ttl_at + 4].try_into().unwrap()), 200);
    assert!(answer_for_age(&msg, 300, false, 45, 300).is_none());
    // An NXDOMAIN lives for the configured negative TTL, whatever its own TTL.
    let nx = answer_for_age(&msg, 300, true, 45, 44).unwrap();
    assert_eq!(u32::from_be_bytes(nx[a_ttl_at..a_ttl_at + 4].try_into().unwrap()), 1);
    assert!(answer_for_age(&msg, 300, true, 45, 45).is_none());
    // A zero TTL still serves for one second.
    assert!(answer_for_age(&msg, 0, false, 45, 0).is_some());
}

#[test]
fn capacity_evicts_the_least_recent() {
    let mut c = DnsCache::new(2, 45);
    let k = |n: &str| CacheKey { name: n.into(), qtype: 1, qclass: 1, dnssec_ok: false };
    c.insert(k("a"), vec![1u8; 10], 60, false);
    c.insert(k("b"), vec![2u8; 10], 60, false);
    assert!(c.get(&k("a")).is_some());
    c.insert(k("c"), vec![3u8; 10], 60, false);
    assert!(c.get(&k("b")).is_none());
    assert!(c.get(&k("a")).is_some());
    assert!(c.get(&k("c")).is_some());
    assert_eq!(c.byte_len(), 20);
}

#[test]
fn adjust_ttls_leaves_short_messages_alone() {
    assert_eq!(adjust_ttls(&[1, 2, 3], 5), vec![1, 2, 3]);
}

#[test]
fn lookup_at_a_given_age() {
    let (msg, a_ttl_at, _) = response_with_opt();
    let mut c = DnsCache::new(8, 45);
    let key = CacheKey { name: "example.com".into(), qtype: 1, qclass: 1, dnssec_ok: false };
    c.insert(key.clone(), msg.clone(), 300, false);
    let out = c.get_at_age(&key, 100).unwrap();
    assert_eq!(u32::from_be_bytes(out[a_ttl_at..a_ttl_at + 4].try_into().unwrap()), 200);
    assert_eq!(c.byte_len(), msg.len());
    assert!(c.get_at_age(&key, 300).is_none());
    assert_eq!(c.byte_len(), 0);
    assert!(c.get(&key).is_none());
}
