use porkbun_webhook::porkbun::types::DnsRecord;
use porkbun_webhook::webhook::types::{
    group_porkbun_records, ApplyChangesRequest, Changes, Endpoint,
};

#[test]
fn from_porkbun_record_apex() {
    let record = DnsRecord {
        id: "1".to_string(),
        name: "example.com".to_string(),
        record_type: "A".to_string(),
        content: "1.2.3.4".to_string(),
        ttl: Some("600".to_string()),
        prio: None,
    };
    let ep = Endpoint::from_porkbun_record(&record, "example.com");
    assert_eq!(ep.dns_name, "example.com");
    assert_eq!(ep.targets, vec!["1.2.3.4"]);
    assert_eq!(ep.record_ttl, Some(600));
    assert!(ep.provider_specific.is_empty());
}

#[test]
fn from_porkbun_record_subdomain() {
    let record = DnsRecord {
        id: "2".to_string(),
        name: "www.example.com".to_string(),
        record_type: "CNAME".to_string(),
        content: "other.example.com".to_string(),
        ttl: Some("300".to_string()),
        prio: None,
    };
    let ep = Endpoint::from_porkbun_record(&record, "example.com");
    assert_eq!(ep.dns_name, "www.example.com");
}

#[test]
fn from_porkbun_record_mx_with_priority() {
    let record = DnsRecord {
        id: "3".to_string(),
        name: "example.com".to_string(),
        record_type: "MX".to_string(),
        content: "mail.example.com".to_string(),
        ttl: Some("3600".to_string()),
        prio: Some("10".to_string()),
    };
    let ep = Endpoint::from_porkbun_record(&record, "example.com");
    assert_eq!(ep.provider_specific.len(), 1);
    assert_eq!(ep.provider_specific[0].name, "priority");
    assert_eq!(ep.provider_specific[0].value, "10");
}

#[test]
fn from_porkbun_record_rejects_partial_domain_match() {
    // "badexample.com" should NOT be treated as belonging to zone "example.com"
    let record = DnsRecord {
        id: "4".to_string(),
        name: "badexample.com".to_string(),
        record_type: "A".to_string(),
        content: "1.2.3.4".to_string(),
        ttl: Some("600".to_string()),
        prio: None,
    };
    let ep = Endpoint::from_porkbun_record(&record, "example.com");
    assert_eq!(ep.dns_name, "badexample.com.example.com");
}

#[test]
fn from_porkbun_record_case_insensitive() {
    let record = DnsRecord {
        id: "6".to_string(),
        name: "WWW.Example.COM".to_string(),
        record_type: "A".to_string(),
        content: "1.2.3.4".to_string(),
        ttl: Some("600".to_string()),
        prio: None,
    };
    let ep = Endpoint::from_porkbun_record(&record, "example.com");
    assert_eq!(ep.dns_name, "www.example.com");
}

#[test]
fn from_porkbun_record_apex_case_insensitive() {
    let record = DnsRecord {
        id: "7".to_string(),
        name: "EXAMPLE.COM".to_string(),
        record_type: "A".to_string(),
        content: "1.2.3.4".to_string(),
        ttl: Some("600".to_string()),
        prio: None,
    };
    let ep = Endpoint::from_porkbun_record(&record, "Example.COM");
    assert_eq!(ep.dns_name, "example.com");
}

#[test]
fn from_porkbun_record_mx_priority_zero() {
    let record = DnsRecord {
        id: "5".to_string(),
        name: "example.com".to_string(),
        record_type: "MX".to_string(),
        content: "mail.example.com".to_string(),
        ttl: Some("3600".to_string()),
        prio: Some("0".to_string()),
    };
    let ep = Endpoint::from_porkbun_record(&record, "example.com");
    assert_eq!(ep.provider_specific.len(), 1);
    assert_eq!(ep.provider_specific[0].name, "priority");
    assert_eq!(ep.provider_specific[0].value, "0");
}

#[test]
fn group_porkbun_records_merges_targets() {
    let records = vec![
        DnsRecord {
            id: "1".to_string(),
            name: "www.example.com".to_string(),
            record_type: "A".to_string(),
            content: "1.2.3.4".to_string(),
            ttl: Some("600".to_string()),
            prio: None,
        },
        DnsRecord {
            id: "2".to_string(),
            name: "www.example.com".to_string(),
            record_type: "A".to_string(),
            content: "5.6.7.8".to_string(),
            ttl: Some("600".to_string()),
            prio: None,
        },
    ];

    let endpoints = group_porkbun_records(&records, "example.com");
    assert_eq!(endpoints.len(), 1);
    assert_eq!(endpoints[0].targets, vec!["1.2.3.4", "5.6.7.8"]);
}

#[test]
fn group_porkbun_records_different_types_not_merged() {
    let records = vec![
        DnsRecord {
            id: "1".to_string(),
            name: "example.com".to_string(),
            record_type: "A".to_string(),
            content: "1.2.3.4".to_string(),
            ttl: Some("600".to_string()),
            prio: None,
        },
        DnsRecord {
            id: "2".to_string(),
            name: "example.com".to_string(),
            record_type: "AAAA".to_string(),
            content: "::1".to_string(),
            ttl: Some("600".to_string()),
            prio: None,
        },
    ];

    let endpoints = group_porkbun_records(&records, "example.com");
    assert_eq!(endpoints.len(), 2);
}

#[test]
fn group_porkbun_records_sorted_deterministically() {
    let records = vec![
        DnsRecord {
            id: "1".to_string(),
            name: "zzz.example.com".to_string(),
            record_type: "A".to_string(),
            content: "1.1.1.1".to_string(),
            ttl: Some("600".to_string()),
            prio: None,
        },
        DnsRecord {
            id: "2".to_string(),
            name: "aaa.example.com".to_string(),
            record_type: "A".to_string(),
            content: "2.2.2.2".to_string(),
            ttl: Some("600".to_string()),
            prio: None,
        },
    ];

    let endpoints = group_porkbun_records(&records, "example.com");
    assert_eq!(endpoints[0].dns_name, "aaa.example.com");
    assert_eq!(endpoints[1].dns_name, "zzz.example.com");
}

fn record(id: &str, name: &str, kind: &str, content: &str, ttl: &str, prio: &str) -> DnsRecord {
    let some = |s: &str| {
        if s.is_empty() {
            None
        } else {
            Some(s.to_string())
        }
    };
    DnsRecord {
        id: id.to_string(),
        name: name.to_string(),
        record_type: kind.to_string(),
        content: content.to_string(),
        ttl: some(ttl),
        prio: some(prio),
    }
}

#[test]
fn groups_are_told_apart_by_ttl_and_priority() {
    let records = vec![
        record("1", "a.example.com", "MX", "m1", "600", "10"),
        record("2", "a.example.com", "MX", "m2", "600", "20"),
        record("3", "a.example.com", "MX", "m3", "300", "10"),
        record("4", "a.example.com", "MX", "m0", "600", "10"),
        record("5", "a.example.com", "MX", "m1", "600", "10"),
    ];
    let endpoints = group_porkbun_records(&records, "example.com");
    assert_eq!(endpoints.len(), 3);
    assert_eq!(endpoints[0].targets, vec!["m0", "m1"]);
    assert_eq!(endpoints[0].record_ttl, Some(600));
    assert_eq!(endpoints[0].provider_specific[0].value, "10");
    assert_eq!(endpoints[1].targets, vec!["m2"]);
    assert_eq!(endpoints[2].targets, vec!["m3"]);
    assert!(endpoints[2].labels.is_empty());
    assert_eq!(endpoints[2].set_identifier, None);
}

#[test]
fn no_records_make_no_endpoints() {
    assert!(group_porkbun_records(&Vec::new(), "example.com").is_empty());
}

#[test]
fn nameless_record_belongs_to_the_apex() {
    let ep = Endpoint::from_porkbun_record(
        &record("1", "", "A", "1.2.3.4", "", ""),
        "Example.com",
    );
    assert_eq!(ep.dns_name, "example.com");
    assert_eq!(ep.record_ttl, None);
}

#[test]
fn both_shapes_of_a_request_hold_the_changes() {
    let mut changes = Changes::default();
    changes.create.push(Endpoint::from_porkbun_record(
        &record("1", "a", "A", "1.2.3.4", "", ""),
        "example.com",
    ));
    assert!(!changes.is_empty());
    let direct = ApplyChangesRequest::Direct(changes).into_changes();
    assert_eq!(direct.create[0].dns_name, "a.example.com");
    let wrapped = ApplyChangesRequest::Wrapped { changes: direct }.into_changes();
    assert_eq!(wrapped.create.len(), 1);
    assert!(Changes::default().is_empty());
}
