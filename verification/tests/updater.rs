use aegis::dns::FilterState;
use aegis::trie::{Allowlist, Blocklist};
use aegis::updater::{
    add_refetch, busy_outcome, check_rebuild, empty_blocklist_file, fail_update, lost_feed,
    merge_lists, nothing_changed, rebuild, settle_unchanged, stat_or_default, tally_fetches,
    FetchResult, ListBody, ListSourceStat, Rebuild, UpdateOutcome,
};

fn body(url: &str, text: &str) -> ListBody {
    ListBody { url: url.to_string(), text: text.to_string(), etag: None, last_modified: None }
}

#[test]
fn fetches_are_sorted_in_order() {
    let fetched = vec![
        ("u1".to_string(), Ok(FetchResult::NotModified)),
        ("u2".to_string(), Err("HTTP 500".to_string())),
        (
            "u3".to_string(),
            Ok(FetchResult::Body {
                text: "a.test".to_string(),
                etag: Some("\"e\"".to_string()),
                last_modified: None,
            }),
        ),
        ("u4".to_string(), Ok(FetchResult::NotModified)),
    ];
    let t = tally_fetches(fetched);
    assert_eq!(t.not_modified, vec!["u1".to_string(), "u4".to_string()]);
    assert_eq!(t.failed_urls, vec!["u2".to_string()]);
    assert_eq!(t.errors, vec![("u2".to_string(), "HTTP 500".to_string())]);
    assert_eq!(t.bodies.len(), 1);
    assert_eq!(t.bodies[0].url, "u3");
    assert_eq!(t.bodies[0].etag.as_deref(), Some("\"e\""));
    assert!(!nothing_changed(&t));
}

#[test]
fn all_304_is_nothing_changed_and_clears_the_banner() {
    let t = tally_fetches(vec![("u".to_string(), Ok(FetchResult::NotModified))]);
    assert!(nothing_changed(&t));
    let mut f = FilterState::new(Blocklist::new(), Allowlist::new());
    f.last_update_error = Some("old".to_string());
    assert!(matches!(settle_unchanged(&mut f), UpdateOutcome::NotModified));
    assert!(f.last_update_error.is_none());
}

#[test]
fn refetches_add_bodies_or_failures() {
    let mut t = tally_fetches(vec![]);
    add_refetch(&mut t, "a".to_string(), Ok("x.test".to_string()));
    add_refetch(&mut t, "b".to_string(), Err("timeout".to_string()));
    assert_eq!(t.bodies.len(), 1);
    assert!(t.bodies[0].etag.is_none());
    assert_eq!(t.failed_urls, vec!["b".to_string()]);
}

#[test]
fn a_failed_list_that_used_to_contribute_keeps_the_previous_blocklist() {
    let stats = vec![
        ListSourceStat { url: "https://a".into(), domain_count: 0, last_success_unix: None, last_error: None },
        ListSourceStat { url: "https://b".into(), domain_count: 1200, last_success_unix: Some(1), last_error: None },
    ];
    assert_eq!(
        lost_feed(&stats).unwrap(),
        "a lista https://b falhou e antes contribuía com 1200 domínios; mantendo a blocklist anterior."
    );
    assert!(lost_feed(&stats[..1].to_vec()).is_none());
}

#[test]
fn rebuild_guards() {
    assert_eq!(
        check_rebuild(2, 2, 500, 0).unwrap_err(),
        "all list fetches failed; keeping previous blocklist"
    );
    assert_eq!(
        check_rebuild(3, 0, 500, 0).unwrap_err(),
        "as 3 lista(s) baixaram, mas nenhum domínio foi reconhecido; mantendo a blocklist anterior (500 domínios)."
    );
    assert_eq!(
        check_rebuild(2, 1, 1000, 499).unwrap_err(),
        "1 de 2 lista(s) falharam ao baixar, então a lista reconstruída ficou pequena demais (499 < 50% dos 1000 anteriores); mantendo a anterior. Veja o erro de cada lista em Ajustes → Listas."
    );
    assert!(check_rebuild(2, 1, 1000, 500).is_ok());
    assert!(check_rebuild(2, 0, 1000, 10).is_ok());
    assert_eq!(
        check_rebuild(1, 1, 100, 10).unwrap_err(),
        "1 de 1 lista(s) falharam ao baixar, então a lista reconstruída ficou pequena demais (10 < 50% dos 100 anteriores); mantendo a anterior. Veja o erro de cada lista em Ajustes → Listas."
    );
    assert!(check_rebuild(1, 1, 20, 10).is_ok());
    assert!(check_rebuild(1, 0, 0, 0).is_ok());
}

#[test]
fn merged_lists_are_the_sorted_union() {
    let bodies = vec![body("a", "b.test\na.test\n"), body("b", "0.0.0.0 c.test\nb.test\nplus")];
    let m = merge_lists(&bodies);
    let keys: Vec<String> = m.keys.iter().map(|k| String::from_utf8(k.clone()).unwrap()).collect();
    assert_eq!(keys, vec!["a.test".to_string(), "b.test".to_string(), "c.test".to_string()]);
    assert_eq!(m.counts, vec![2, 2]);
}

#[test]
fn the_empty_file_loads_as_an_empty_blocklist() {
    let bl = Blocklist::load_from_bytes(empty_blocklist_file()).unwrap();
    assert!(bl.is_empty());
    assert!(!bl.contains("a.test"));
}

#[test]
fn failures_are_shown_and_keep_the_list() {
    let mut f = FilterState::new(Blocklist::from_domains(&vec!["a.test".to_string()]), Allowlist::new());
    match fail_update(&mut f, "boom".to_string()) {
        UpdateOutcome::Failed { message } => assert_eq!(message, "boom"),
        other => panic!("{other:?}"),
    }
    assert_eq!(f.last_update_error.as_deref(), Some("boom"));
    assert_eq!(f.domain_count, 1);
    match busy_outcome() {
        UpdateOutcome::Failed { message } => assert_eq!(message, "update already running"),
        other => panic!("{other:?}"),
    }
}

#[test]
fn stats_default_for_unknown_urls() {
    let s = stat_or_default("https://x", None);
    assert_eq!(s.domain_count, 0);
    assert!(s.last_success_unix.is_none());
    let s = stat_or_default("https://x", Some((5, Some(9), Some("e".into()))));
    assert_eq!((s.domain_count, s.last_success_unix), (5, Some(9)));
}

#[test]
fn rebuild_writes_a_file_only_past_the_guards() {
    let mut t = tally_fetches(vec![
        ("https://a".to_string(), Ok(FetchResult::Body { text: "x.test\ny.test".to_string(), etag: None, last_modified: None })),
        ("https://b".to_string(), Err("HTTP 404".to_string())),
    ]);
    let lost = vec![ListSourceStat { url: "https://b".into(), domain_count: 40, last_success_unix: Some(1), last_error: None }];
    match rebuild(2, 0, &t, Some(lost)) {
        Rebuild::LostFeed(m) => assert!(m.starts_with("a lista https://b falhou")),
        _ => panic!("a lost feed keeps the previous list"),
    }
    let fresh = vec![ListSourceStat { url: "https://b".into(), domain_count: 0, last_success_unix: None, last_error: None }];
    match rebuild(2, 1000, &t, Some(fresh)) {
        Rebuild::Merged { counts, file } => {
            assert_eq!(counts, vec![2]);
            assert!(file.unwrap_err().starts_with("1 de 2 lista(s) falharam"));
        }
        _ => panic!("merged"),
    }
    add_refetch(&mut t, "https://c".to_string(), Ok("z.test".to_string()));
    match rebuild(3, 0, &t, None) {
        Rebuild::Merged { counts, file } => {
            assert_eq!(counts, vec![2, 1]);
            let (n, bytes) = file.unwrap();
            assert_eq!(n, 3);
            let bl = Blocklist::load_from_bytes(bytes).unwrap();
            assert_eq!(bl.len(), 3);
            assert!(bl.contains("a.z.test"));
        }
        _ => panic!("merged"),
    }
}
