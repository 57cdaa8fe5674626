use porkbun_webhook::porkbun::types::{CreateDnsResponse, DnsRecord};


#[test]
fn dns_record_ttl_parsing() {
    let record = DnsRecord {
        id: "1".to_string(),
        name: "example.com".to_string(),
        record_type: "A".to_string(),
        content: "1.2.3.4".to_string(),
        ttl: Some("600".to_string()),
        prio: None,
    };
    assert_eq!(record.ttl_u32(), Some(600));
}

#[test]
fn dns_record_ttl_none() {
    let record = DnsRecord {
        id: "1".to_string(),
        name: "example.com".to_string(),
        record_type: "A".to_string(),
        content: "1.2.3.4".to_string(),
        ttl: None,
        prio: None,
    };
    assert_eq!(record.ttl_u32(), None);
}

#[test]
fn dns_record_ttl_invalid() {
    let record = DnsRecord {
        id: "1".to_string(),
        name: "example.com".to_string(),
        record_type: "A".to_string(),
        content: "1.2.3.4".to_string(),
        ttl: Some("invalid".to_string()),
        prio: None,
    };
    assert_eq!(record.ttl_u32(), None);
}

#[test]
fn dns_record_prio_parsing() {
    let record = DnsRecord {
        id: "1".to_string(),
        name: "example.com".to_string(),
        record_type: "MX".to_string(),
        content: "mail.example.com".to_string(),
        ttl: Some("600".to_string()),
        prio: Some("10".to_string()),
    };
    assert_eq!(record.prio_u32(), Some(10));
}

#[test]
fn dns_record_prio_zero_is_some() {
    let record = DnsRecord {
        id: "1".to_string(),
        name: "example.com".to_string(),
        record_type: "A".to_string(),
        content: "1.2.3.4".to_string(),
        ttl: Some("600".to_string()),
        prio: Some("0".to_string()),
    };
    assert_eq!(record.prio_u32(), Some(0));
}

fn create_response(json: &str) -> CreateDnsResponse {
    let value: serde_json::Value = serde_json::from_str(json).unwrap();
    CreateDnsResponse {
        status: value["status"].as_str().unwrap().to_string(),
        message: value["message"].as_str().map(|m| m.to_string()),
        id: value.get("id").map(|id| id.to_string()),
    }
}

#[test]
fn create_dns_response_id_as_number() {
    let resp = create_response(r#"{"status":"SUCCESS","id":12345}"#);
    assert_eq!(resp.id_string(), Some("12345".to_string()));
}

#[test]
fn create_dns_response_id_as_string() {
    let resp = create_response(r#"{"status":"SUCCESS","id":"12345"}"#);
    assert_eq!(resp.id_string(), Some("12345".to_string()));
}

#[test]
fn create_dns_response_id_is_unescaped() {
    let resp = create_response(r#"{"status":"SUCCESS","id":"a\"\u0041"}"#);
    assert_eq!(resp.id_string(), Some("a\"A".to_string()));
}

#[test]
fn create_dns_response_without_id() {
    let resp = create_response(r#"{"status":"SUCCESS"}"#);
    assert_eq!(resp.id_string(), None);
}
