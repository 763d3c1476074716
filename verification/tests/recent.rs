use aegis::recent::{RecentBlocks, NAME_CAP, SLOTS};

#[test]
fn returns_most_recent_first() {
    let mut r = RecentBlocks::new();
    r.record("a.example.com");
    r.record("b.example.com");
    let got = r.snapshot(10);
    assert_eq!(got[0].domain, "b.example.com");
    assert_eq!(got[1].domain, "a.example.com");
}

#[test]
fn coalesces_repeats_instead_of_filling_the_ring() {
    let mut r = RecentBlocks::new();
    for _ in 0..50 {
        r.record("noisy.example.com");
    }
    let got = r.snapshot(10);
    assert_eq!(got.len(), 1);
    assert_eq!(got[0].hits, 50);
}

#[test]
fn wraps_without_losing_the_newest() {
    let mut r = RecentBlocks::new();
    for i in 0..(SLOTS + 10) {
        r.record(&format!("d{i}.example.com"));
    }
    let got = r.snapshot(SLOTS * 2);
    assert_eq!(got.len(), SLOTS);
    assert_eq!(got[0].domain, format!("d{}.example.com", SLOTS + 9));
}

#[test]
fn drops_oversized_names_rather_than_truncating() {
    let mut r = RecentBlocks::new();
    r.record(&"x".repeat(NAME_CAP + 1));
    assert!(r.snapshot(10).is_empty());
}

#[test]
fn a_name_of_exactly_the_cap_is_kept() {
    let mut r = RecentBlocks::new();
    let name = "y".repeat(NAME_CAP);
    r.record(&name);
    let got = r.snapshot(10);
    assert_eq!(got.len(), 1);
    assert_eq!(got[0].domain, name);
}

#[test]
fn snapshot_respects_the_limit_and_clear_empties() {
    let mut r = RecentBlocks::new();
    r.record("a.test");
    r.record("b.test");
    r.record("c.test");
    let got = r.snapshot(2);
    assert_eq!(got.len(), 2);
    assert_eq!(got[0].domain, "c.test");
    assert_eq!(got[1].domain, "b.test");
    r.clear();
    assert!(r.snapshot(10).is_empty());
}

#[test]
fn a_repeat_that_is_not_the_latest_takes_a_new_slot() {
    let mut r = RecentBlocks::new();
    r.record("a.test");
    r.record("b.test");
    r.record("a.test");
    let got = r.snapshot(10);
    assert_eq!(got.len(), 3);
    assert_eq!(got[0].domain, "a.test");
    assert_eq!(got[0].hits, 1);
}
