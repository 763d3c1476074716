use aegis::normalize::{is_local_bypass, normalize_domain};

#[test]
fn normalizes() {
    assert_eq!(
        normalize_domain("Ads.Example.COM."),
        Some("ads.example.com".into())
    );
    assert!(normalize_domain("").is_none());
    assert!(normalize_domain("bad..com").is_none());
}

#[test]
fn normalize_trims_whitespace_and_quotes() {
    assert_eq!(normalize_domain("  \"Example.ORG\"  "), Some("example.org".to_string()));
}

#[test]
fn normalize_rejects_localhost_and_bad_characters() {
    assert!(normalize_domain("localhost").is_none());
    assert!(normalize_domain("foo.localhost").is_none());
    assert!(normalize_domain("exa mple.com").is_none());
    assert!(normalize_domain(".").is_none());
}

#[test]
fn normalize_rejects_overlong_labels_and_names() {
    let long_label = format!("{}.com", "a".repeat(64));
    assert!(normalize_domain(&long_label).is_none());
    let ok_label = format!("{}.com", "a".repeat(63));
    assert_eq!(normalize_domain(&ok_label), Some(ok_label.clone()));
    let long_name = vec!["abcdefghi"; 30].join(".");
    assert!(long_name.len() > 253);
    assert!(normalize_domain(&long_name).is_none());
}

#[test]
fn kelvin_sign_lowercases_to_k() {
    assert_eq!(normalize_domain("\u{212A}ite.com"), Some("kite.com".to_string()));
}

#[test]
fn local_names_bypass() {
    assert!(is_local_bypass("localhost"));
    assert!(is_local_bypass("a.localhost"));
    assert!(is_local_bypass("printer.local"));
    assert!(is_local_bypass("local"));
    assert!(!is_local_bypass("localhost.com"));
    assert!(!is_local_bypass("example.com"));
}

#[test]
fn normalizing_twice_changes_nothing() {
    for raw in ["Ads.Example.COM.", " 'x.Test' ", "a-b_c.example", "bad..com", "LOCALHOST"] {
        let once = normalize_domain(raw);
        if let Some(n) = &once {
            assert_eq!(normalize_domain(n), once, "input: {raw}");
        }
    }
}
