use porkbun_webhook::webhook::handlers::WebhookHandler;
use porkbun_webhook::webhook::rules::{
    endpoint_priority, endpoint_ttl, longest_suffix_match, normalize_fqdn,
    prio_effectively_equal, targets_match, to_porkbun_subdomain, ttl_effectively_equal,
};
use porkbun_webhook::webhook::types::{Endpoint, ProviderSpecific};
use porkbun_webhook::{Config, Error, PorkbunClient};

fn test_config() -> Config {
    Config {
        porkbun_api_key: "pk1_test".to_string(),
        porkbun_secret_api_key: "sk1_test".to_string(),
        porkbun_api_base: "http://localhost:1234".to_string(),
        webhook_host: "127.0.0.1".to_string(),
        webhook_port: 8888,
        domain_filter: Some(vec!["example.com".to_string()]),
        dry_run: true,
        cache_ttl_seconds: 60,
        http_timeout_seconds: 30,
        trace_request_bodies: false,
    }
}

fn handler_for(config: Config) -> WebhookHandler {
    let client = PorkbunClient::new(
        &config.porkbun_api_key,
        &config.porkbun_secret_api_key,
        &config.porkbun_api_base,
    );
    WebhookHandler::new(client, config)
}

fn test_handler() -> WebhookHandler {
    handler_for(test_config())
}

fn handler_with_filter(domains: Vec<&str>) -> WebhookHandler {
    let mut config = test_config();
    config.domain_filter = Some(domains.into_iter().map(Config::normalize_domain).collect());
    handler_for(config)
}

// --- Zone resolution tests ---

#[test]
fn resolve_zone_returns_canonical_zone() {
    let handler = test_handler();
    let zone = handler.resolve_zone("www.example.com", &Vec::new()).unwrap();
    assert_eq!(zone, "example.com");
}

#[test]
fn resolve_zone_exact_match() {
    let handler = test_handler();
    let zone = handler.resolve_zone("example.com", &Vec::new()).unwrap();
    assert_eq!(zone, "example.com");
}

#[test]
fn resolve_zone_deep_subdomain() {
    let handler = handler_with_filter(vec!["example.com"]);
    let zone = handler.resolve_zone("api.dev.example.com", &Vec::new()).unwrap();
    assert_eq!(zone, "example.com");
}

#[test]
fn resolve_zone_trailing_dot() {
    let handler = test_handler();
    let zone = handler.resolve_zone("foo.example.com.", &Vec::new()).unwrap();
    assert_eq!(zone, "example.com");
}

#[test]
fn resolve_zone_mixed_case() {
    let handler = handler_with_filter(vec!["Example.COM"]);
    let zone = handler.resolve_zone("www.example.com", &Vec::new()).unwrap();
    assert_eq!(zone, "example.com");
}

#[test]
fn resolve_zone_longest_suffix_wins() {
    let handler = handler_with_filter(vec!["co.uk", "example.co.uk"]);
    let zone = handler.resolve_zone("foo.example.co.uk", &Vec::new()).unwrap();
    assert_eq!(zone, "example.co.uk");
}

#[test]
fn resolve_zone_no_match_returns_error() {
    let handler = handler_with_filter(vec!["example.com"]);
    let result = handler.resolve_zone("unknown.org", &Vec::new());
    assert!(result.is_err());
}

#[test]
fn resolve_zone_no_two_label_fallback() {
    // With filter set, unmatched names should NOT fall back to last-two-labels
    let handler = handler_with_filter(vec!["other.com"]);
    let result = handler.resolve_zone("www.fallback.org", &Vec::new());
    assert!(
        result.is_err(),
        "should not fall back to two-label extraction"
    );
}

// --- Subdomain extraction tests ---

#[test]
fn to_porkbun_subdomain_apex() {
    assert_eq!(
        to_porkbun_subdomain("example.com", "example.com"),
        ""
    );
}

#[test]
fn to_porkbun_subdomain_simple() {
    assert_eq!(
        to_porkbun_subdomain("www.example.com", "example.com"),
        "www"
    );
}

#[test]
fn to_porkbun_subdomain_deep() {
    assert_eq!(
        to_porkbun_subdomain("api.dev.example.com", "example.com"),
        "api.dev"
    );
}

#[test]
fn to_porkbun_subdomain_trailing_dot() {
    assert_eq!(
        to_porkbun_subdomain("www.example.com.", "example.com"),
        "www"
    );
}

#[test]
fn to_porkbun_subdomain_mixed_case() {
    assert_eq!(
        to_porkbun_subdomain("WWW.Example.COM", "example.com"),
        "www"
    );
}

// --- Priority/TTL helper tests ---

#[test]
fn endpoint_priority_valid() {
    let ep = Endpoint {
        dns_name: "example.com".to_string(),
        targets: vec!["mail.example.com".to_string()],
        record_type: "MX".to_string(),
        set_identifier: None,
        record_ttl: None,
        labels: Default::default(),
        provider_specific: vec![ProviderSpecific {
            name: "priority".to_string(),
            value: "10".to_string(),
        }],
    };
    assert_eq!(endpoint_priority(&ep).unwrap(), Some(10));
}

#[test]
fn endpoint_priority_absent() {
    let ep = Endpoint {
        dns_name: "example.com".to_string(),
        targets: vec!["1.2.3.4".to_string()],
        record_type: "A".to_string(),
        set_identifier: None,
        record_ttl: None,
        labels: Default::default(),
        provider_specific: vec![],
    };
    assert_eq!(endpoint_priority(&ep).unwrap(), None);
}

#[test]
fn endpoint_priority_invalid_returns_error() {
    let ep = Endpoint {
        dns_name: "example.com".to_string(),
        targets: vec!["mail.example.com".to_string()],
        record_type: "MX".to_string(),
        set_identifier: None,
        record_ttl: None,
        labels: Default::default(),
        provider_specific: vec![ProviderSpecific {
            name: "priority".to_string(),
            value: "not-a-number".to_string(),
        }],
    };
    assert!(endpoint_priority(&ep).is_err());
}

#[test]
fn endpoint_ttl_positive() {
    let ep = Endpoint {
        dns_name: "example.com".to_string(),
        targets: vec!["1.2.3.4".to_string()],
        record_type: "A".to_string(),
        set_identifier: None,
        record_ttl: Some(600),
        labels: Default::default(),
        provider_specific: vec![],
    };
    assert_eq!(endpoint_ttl(&ep), Some(600));
}

#[test]
fn endpoint_ttl_zero_is_none() {
    let ep = Endpoint {
        dns_name: "example.com".to_string(),
        targets: vec!["1.2.3.4".to_string()],
        record_type: "A".to_string(),
        set_identifier: None,
        record_ttl: Some(0),
        labels: Default::default(),
        provider_specific: vec![],
    };
    assert_eq!(endpoint_ttl(&ep), None);
}

#[test]
fn endpoint_ttl_absent_is_none() {
    let ep = Endpoint {
        dns_name: "example.com".to_string(),
        targets: vec!["1.2.3.4".to_string()],
        record_type: "A".to_string(),
        set_identifier: None,
        record_ttl: None,
        labels: Default::default(),
        provider_specific: vec![],
    };
    assert_eq!(endpoint_ttl(&ep), None);
}

#[test]
fn endpoint_ttl_overflow_is_none() {
    let ep = Endpoint {
        dns_name: "example.com".to_string(),
        targets: vec!["1.2.3.4".to_string()],
        record_type: "A".to_string(),
        set_identifier: None,
        record_ttl: Some(i64::MAX),
        labels: Default::default(),
        provider_specific: vec![],
    };
    assert_eq!(endpoint_ttl(&ep), None);
}

#[test]
fn endpoint_ttl_negative_is_none() {
    let ep = Endpoint {
        dns_name: "example.com".to_string(),
        targets: vec!["1.2.3.4".to_string()],
        record_type: "A".to_string(),
        set_identifier: None,
        record_ttl: Some(-1),
        labels: Default::default(),
        provider_specific: vec![],
    };
    assert_eq!(endpoint_ttl(&ep), None);
}

// --- Normalize FQDN tests ---

#[test]
fn normalize_fqdn_basic() {
    assert_eq!(normalize_fqdn("Example.COM"), "example.com");
    assert_eq!(normalize_fqdn("foo.bar."), "foo.bar");
    assert_eq!(normalize_fqdn("  Foo.BAR.  "), "foo.bar");
}

// --- Longest suffix match tests ---

#[test]
fn longest_suffix_match_basic() {
    let candidates = vec!["example.com".to_string()];
    assert_eq!(
        longest_suffix_match("www.example.com", &candidates),
        Some("example.com".to_string())
    );
}

#[test]
fn longest_suffix_match_multi_label_tld() {
    let candidates = vec!["co.uk".to_string(), "example.co.uk".to_string()];
    assert_eq!(
        longest_suffix_match("app.example.co.uk", &candidates),
        Some("example.co.uk".to_string())
    );
}

#[test]
fn longest_suffix_match_exact() {
    let candidates = vec!["example.com".to_string()];
    assert_eq!(
        longest_suffix_match("example.com", &candidates),
        Some("example.com".to_string())
    );
}

#[test]
fn longest_suffix_match_no_match() {
    let candidates = vec!["example.com".to_string()];
    assert_eq!(longest_suffix_match("other.org", &candidates), None);
}

#[test]
fn longest_suffix_match_rejects_partial() {
    let candidates = vec!["example.com".to_string()];
    // "badexample.com" should NOT match "example.com"
    assert_eq!(longest_suffix_match("badexample.com", &candidates), None);
}

// --- TTL/priority equality tests ---

#[test]
fn ttl_equal_both_some_same() {
    assert!(ttl_effectively_equal(Some(600), Some(600)));
}

#[test]
fn ttl_equal_both_some_different() {
    assert!(!ttl_effectively_equal(Some(600), Some(300)));
}

#[test]
fn ttl_equal_one_none() {
    assert!(ttl_effectively_equal(Some(600), None));
    assert!(ttl_effectively_equal(None, Some(600)));
}

// --- Target normalization tests ---

#[test]
fn targets_match_cname_trailing_dot() {
    assert!(targets_match(
        "alias.example.com.",
        "alias.example.com",
        "CNAME"
    ));
}

#[test]
fn targets_match_cname_case_insensitive() {
    assert!(targets_match(
        "Alias.Example.COM",
        "alias.example.com",
        "CNAME"
    ));
}

#[test]
fn targets_match_mx_normalized() {
    assert!(targets_match("mail.Example.COM.", "mail.example.com", "MX"));
}

#[test]
fn targets_match_a_record_exact() {
    // A record targets are IPs — no normalization
    assert!(targets_match("1.2.3.4", "1.2.3.4", "A"));
    assert!(!targets_match("1.2.3.4", "1.2.3.5", "A"));
}

#[test]
fn targets_match_txt_preserves_content() {
    // TXT targets are opaque — no normalization
    assert!(targets_match(
        "v=spf1 include:example.com ~all",
        "v=spf1 include:example.com ~all",
        "TXT"
    ));
    assert!(!targets_match(
        "v=spf1 include:Example.COM ~all",
        "v=spf1 include:example.com ~all",
        "TXT"
    ));
}

// --- Further cases ---

#[test]
fn resolve_zone_tells_why_there_is_none() {
    let handler = handler_with_filter(vec!["example.com"]);
    match handler.resolve_zone("Unknown.org", &Vec::new()) {
        Err(Error::DomainNotAllowed(m)) => {
            assert_eq!(m, "No configured zone matches Unknown.org")
        }
        other => panic!("{other:?}"),
    }
    let mut config = test_config();
    config.domain_filter = None;
    let handler = handler_for(config);
    let owned = vec!["example.com".to_string()];
    match handler.resolve_zone("unknown.org", &owned) {
        Err(Error::InvalidRequest(m)) => assert_eq!(m, "No owned domain matches unknown.org"),
        other => panic!("{other:?}"),
    }
    assert_eq!(
        handler.resolve_zone("a.example.com", &owned).unwrap(),
        "example.com"
    );
}

#[test]
fn priorities_agree_where_one_is_not_given() {
    assert!(prio_effectively_equal(None, Some(10)));
    assert!(prio_effectively_equal(Some(10), None));
    assert!(prio_effectively_equal(Some(10), Some(10)));
    assert!(!prio_effectively_equal(Some(10), Some(20)));
}

#[test]
fn first_priority_counts() {
    let property = |name: &str, value: &str| ProviderSpecific {
        name: name.to_string(),
        value: value.to_string(),
    };
    let mut ep = Endpoint {
        dns_name: "example.com".to_string(),
        targets: vec![],
        record_type: "MX".to_string(),
        set_identifier: None,
        record_ttl: None,
        labels: Default::default(),
        provider_specific: vec![
            property("weight", "x"),
            property("priority", "+7"),
            property("priority", "8"),
        ],
    };
    assert_eq!(endpoint_priority(&ep).unwrap(), Some(7));
    ep.provider_specific[1].value = "4294967296".to_string();
    match endpoint_priority(&ep) {
        Err(Error::InvalidRequest(m)) => assert_eq!(m, "Invalid priority value: 4294967296"),
        other => panic!("{other:?}"),
    }
}

#[test]
fn greatest_ttl_is_kept() {
    let ep = Endpoint {
        dns_name: "example.com".to_string(),
        targets: vec![],
        record_type: "A".to_string(),
        set_identifier: None,
        record_ttl: Some(u32::MAX as i64),
        labels: Default::default(),
        provider_specific: vec![],
    };
    assert_eq!(endpoint_ttl(&ep), Some(u32::MAX));
}

#[test]
fn name_outside_the_zone_is_kept_whole() {
    assert_eq!(to_porkbun_subdomain("www.other.org", "example.com"), "www.other.org");
    assert_eq!(
        to_porkbun_subdomain("badexample.com", "example.com"),
        "badexample.com"
    );
}
