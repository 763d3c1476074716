use aegis::normalize_list::normalize_list_text;

#[test]
fn parses_hosts() {
    let text = r#"
# comment
0.0.0.0 ads.example.com
127.0.0.1 tracker.net
example.org
||blocked.example.net^
"#;
    let d = normalize_list_text(text);
    assert!(d.iter().any(|x| x == "ads.example.com"));
    assert!(d.iter().any(|x| x == "tracker.net"));
    assert!(d.iter().any(|x| x == "example.org"));
    assert!(d.iter().any(|x| x == "blocked.example.net"));
}

#[test]
fn cosmetic_rules_never_yield_the_site_domain() {
    let text = "nytimes.com###APS_300_X_600\ngoogle.com##.ad-banner\nexample.org#@#.ad";
    assert_eq!(normalize_list_text(text), Vec::<String>::new());
}

#[test]
fn rejects_single_label_entries_that_would_block_a_tld() {
    for text in ["[Adblock Plus 2.0]", "plus", "ip6-localhost", "localhost", "broadcasthost"] {
        assert_eq!(normalize_list_text(text), Vec::<String>::new(), "input: {text}");
    }
}

#[test]
fn ipv6_hosts_lines_keep_the_whole_domain() {
    let d = normalize_list_text(":: 1password.com\n::1 1drv.ms\nfe80::1 example.net");
    assert!(d.iter().any(|x| x == "1password.com"), "got {d:?}");
    assert!(d.iter().any(|x| x == "1drv.ms"), "got {d:?}");
}

#[test]
fn html_yields_nothing() {
    let text = "<!DOCTYPE html>\n<body>Sign in to WiFi</body>\n<p>Please log in to continue</p>";
    assert_eq!(normalize_list_text(text), Vec::<String>::new());
}

#[test]
fn accepts_adguard_wildcards() {
    let d = normalize_list_text("*.wild.example\n*.ads.tracker.net");
    assert!(d.iter().any(|x| x == "wild.example"), "got {d:?}");
    assert!(d.iter().any(|x| x == "ads.tracker.net"), "got {d:?}");
}

#[test]
fn skips_adblock_exceptions() {
    let d = normalize_list_text("@@||good.example.com^\n||bad.example.com^");
    assert_eq!(d, vec!["bad.example.com".to_string()]);
}

#[test]
fn still_handles_trailing_comments_and_ip_tokens() {
    let d = normalize_list_text("0.0.0.0 ads.example.com # tracker\nexample.org#note");
    assert!(d.iter().any(|x| x == "ads.example.com"), "got {d:?}");
    assert!(d.iter().any(|x| x == "example.org"), "got {d:?}");
}

#[test]
fn output_is_sorted_and_unique() {
    let d = normalize_list_text("b.test\na.test\r\nB.TEST\n0.0.0.0 a.test\n");
    assert_eq!(d, vec!["a.test".to_string(), "b.test".to_string()]);
}

#[test]
fn adblock_rules_with_paths_or_wildcards_are_skipped() {
    let d = normalize_list_text("||ads.example.com/banner^\n||*.x.test^\n||ok.example.com^$important");
    assert_eq!(d, vec!["ok.example.com".to_string()]);
}

#[test]
fn bare_addresses_and_address_only_lines_yield_nothing() {
    assert_eq!(normalize_list_text("0.0.0.0\n1.2.3.4\n::1"), Vec::<String>::new());
    assert_eq!(normalize_list_text("0.0.0.0 1.2.3.4"), Vec::<String>::new());
}
