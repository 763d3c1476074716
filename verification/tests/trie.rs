use aegis::trie::{write_domains_file, write_sorted_domains, Allowlist, Blocklist, TrieError};

fn strings(v: &[&str]) -> Vec<String> {
    v.iter().map(|s| s.to_string()).collect()
}

#[test]
fn blocks_subdomains() {
    let bl = Blocklist::from_domains(&strings(&["example.com"]));
    assert!(bl.contains("example.com"));
    assert!(bl.contains("ads.example.com"));
    assert!(bl.contains("a.b.example.com"));
    assert!(!bl.contains("example.org"));
}

#[test]
fn roundtrip_file() {
    let domains = strings(&["ads.example.com", "tracker.net"]);
    let bytes = write_domains_file(&domains).unwrap();
    let loaded = Blocklist::load_from_bytes(bytes).unwrap();
    assert!(loaded.contains("ads.example.com"));
    assert!(loaded.contains("x.tracker.net"));
    assert_eq!(loaded.len(), 2);
}

#[test]
fn memory_sane_for_100k() {
    let domains: Vec<String> = (0..100_000)
        .map(|i| format!("d{i}.block.test"))
        .collect();
    let bl = Blocklist::from_domains(&domains);
    assert!(bl.contains("d42.block.test"));
    assert!(bl.contains("sub.d42.block.test"));
    assert_eq!(bl.len(), 100_000);
}

#[test]
fn a_suffix_that_is_not_a_label_boundary_does_not_block() {
    let bl = Blocklist::from_domains(&strings(&["ample.com"]));
    assert!(!bl.contains("example.com"));
    assert!(bl.contains("x.ample.com"));
}

#[test]
fn from_domains_normalizes_and_counts_repeats_once() {
    let bl = Blocklist::from_domains(&strings(&["Ads.Example.com.", "ads.example.com", "bad..name", ""]));
    assert_eq!(bl.len(), 1);
    assert!(bl.contains("ADS.example.com"));
    assert!(!Blocklist::new().contains("ads.example.com"));
    assert!(Blocklist::new().is_empty());
}

#[test]
fn file_header_is_magic_version_count() {
    let bytes = write_domains_file(&strings(&["b.test", "a.test", "a.test"])).unwrap();
    assert_eq!(&bytes[0..4], b"AEG2");
    assert_eq!(u32::from_le_bytes(bytes[4..8].try_into().unwrap()), 2);
    assert_eq!(u32::from_le_bytes(bytes[8..12].try_into().unwrap()), 2);
}

#[test]
fn load_reports_each_kind_of_bad_file() {
    match Blocklist::load_from_bytes(b"AE".to_vec()) {
        Err(TrieError::Io(_)) => {}
        _ => panic!("short file must be an io error"),
    }
    match Blocklist::load_from_bytes(b"NOPE\x02\0\0\0\0\0\0\0".to_vec()) {
        Err(TrieError::Invalid(m)) => assert_eq!(m, "bad magic"),
        _ => panic!("bad magic"),
    }
    match Blocklist::load_from_bytes(b"AEG2\x07\0\0\0\0\0\0\0".to_vec()) {
        Err(TrieError::Invalid(m)) => assert_eq!(m, "unsupported version 7"),
        _ => panic!("bad version"),
    }
    match Blocklist::load_from_bytes(b"AEG2\x02\0\0\0\0\0\0\0garbage".to_vec()) {
        Err(TrieError::Fst(_)) => {}
        _ => panic!("bad fst"),
    }
    let e = TrieError::Invalid("bad magic".to_string());
    assert_eq!(e.message(), "invalid blocklist file: bad magic");
    assert_eq!(TrieError::Io("x".to_string()).message(), "io: x");
    assert_eq!(TrieError::Fst("y".to_string()).message(), "fst: y");
}

#[test]
fn write_sorted_domains_refuses_unsorted_keys() {
    let keys = vec![b"b.test".to_vec(), b"a.test".to_vec()];
    assert!(matches!(write_sorted_domains(2, &keys), Err(TrieError::Fst(_))));
    let sorted = vec![b"a.test".to_vec(), b"b.test".to_vec()];
    let bytes = write_sorted_domains(2, &sorted).unwrap();
    let bl = Blocklist::load_from_bytes(bytes).unwrap();
    assert!(bl.contains("x.b.test"));
    assert_eq!(bl.len(), 2);
    let repeated = vec![b"a.test".to_vec(), b"a.test".to_vec()];
    let bytes = write_sorted_domains(1, &repeated).unwrap();
    let bl = Blocklist::load_from_bytes(bytes).unwrap();
    assert!(bl.contains("a.test"));
    assert_eq!(bl.len(), 1);
}

#[test]
fn allowlist_covers_subdomains_and_edits() {
    let mut a = Allowlist::from_domains(&strings(&["Bank.example", "bad..x"]));
    assert_eq!(a.list(), strings(&["bank.example"]));
    assert!(a.contains("login.bank.example"));
    assert!(!a.contains("example"));
    assert!(a.insert("shop.test"));
    assert!(!a.insert("SHOP.test"));
    assert!(!a.insert("not valid"));
    assert_eq!(a.list(), strings(&["bank.example", "shop.test"]));
    assert!(a.remove("bank.example"));
    assert!(!a.remove("bank.example"));
    assert_eq!(a.list(), strings(&["shop.test"]));
    assert!(a.contains_normalized("x.shop.test"));
}

#[test]
fn removing_an_added_domain_restores_the_list() {
    let mut a = Allowlist::from_domains(&strings(&["keep.test"]));
    let before = a.list();
    assert!(a.insert("New.Test"));
    assert!(a.contains("deep.sub.new.test"));
    assert!(a.remove("new.test"));
    assert_eq!(a.list(), before);
}

#[test]
fn damaged_fst_is_refused() {
    let domains = strings(&["ads.example.com", "tracker.net"]);
    let mut bytes = write_domains_file(&domains).unwrap();
    let at = 12 + 30;
    bytes[at] ^= 0x55;
    match Blocklist::load_from_bytes(bytes) {
        Err(TrieError::Fst(_)) => {}
        _ => panic!("a damaged FST must be refused"),
    }
}
