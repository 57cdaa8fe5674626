use porkbun_webhook::error::NetworkFailure;
use porkbun_webhook::porkbun::client::{
    check_reply, Call, Client, DomainListing, DomainsStep, PAGE_SIZE,
};
use porkbun_webhook::porkbun::types::{
    BasicResponse, CreateDnsParams, CreateDnsResponse, DnsRecord, DnsRetrieveResponse, Domain,
    EditDnsParams, ListAllRequest, ListAllResponse, PingResponse,
};
use porkbun_webhook::Error;
use serde_json::Value;

const BASE: &str = "http://localhost:1234";

fn test_client() -> Client {
    Client::new("pk1_test", "sk1_test", BASE)
}

/// The contents of a reply, or the failure that its status stands for.
fn reply(status: u16, body: &str) -> Result<Value, Error> {
    match check_reply(status, body) {
        Some(e) => Err(e),
        None => Ok(serde_json::from_str(body).unwrap()),
    }
}

fn text(value: &Value, key: &str) -> Option<String> {
    value[key].as_str().map(|s| s.to_string())
}

fn ping_reply(status: u16, body: &str) -> Result<PingResponse, Error> {
    reply(status, body).map(|v| PingResponse {
        status: text(&v, "status").unwrap_or_default(),
        your_ip: text(&v, "yourIp"),
        message: text(&v, "message"),
    })
}

fn records_reply(status: u16, body: &str) -> Result<DnsRetrieveResponse, Error> {
    reply(status, body).map(|v| DnsRetrieveResponse {
        status: text(&v, "status").unwrap_or_default(),
        message: text(&v, "message"),
        records: v["records"].as_array().map(|rs| {
            rs.iter()
                .map(|r| DnsRecord {
                    id: text(r, "id").unwrap(),
                    name: text(r, "name").unwrap(),
                    record_type: text(r, "type").unwrap(),
                    content: text(r, "content").unwrap(),
                    ttl: text(r, "ttl"),
                    prio: text(r, "prio"),
                })
                .collect()
        }),
    })
}

fn domains_reply(status: u16, body: &str) -> Result<ListAllResponse, Error> {
    reply(status, body).map(|v| ListAllResponse {
        status: text(&v, "status").unwrap_or_default(),
        message: text(&v, "message"),
        domains: v["domains"].as_array().map(|ds| {
            ds.iter()
                .map(|d| Domain {
                    domain: text(d, "domain").unwrap(),
                })
                .collect()
        }),
    })
}

fn create_reply(status: u16, body: &str) -> Result<CreateDnsResponse, Error> {
    reply(status, body).map(|v| CreateDnsResponse {
        status: text(&v, "status").unwrap_or_default(),
        message: text(&v, "message"),
        id: v.get("id").map(|id| id.to_string()),
    })
}

fn basic_reply(status: u16, body: &str) -> Result<BasicResponse, Error> {
    reply(status, body).map(|v| BasicResponse {
        status: text(&v, "status").unwrap_or_default(),
        message: text(&v, "message"),
    })
}

fn listed(client: &Client, pages: Vec<Result<ListAllResponse, Error>>) -> Result<Vec<Domain>, Error> {
    let (mut listing, mut call): (_, Call<ListAllRequest>) = client.list_domains();
    let mut total: u32 = 0;
    for page in pages {
        assert_eq!(call.url, format!("{BASE}/domain/listAll"));
        assert_eq!(call.body.start, if total == 0 { None } else { Some(total) });
        match client.next_domains(listing, page) {
            DomainsStep::Done(result) => return result,
            DomainsStep::Ask(next, again) => {
                total = next.start;
                listing = next;
                call = again;
            }
        }
    }
    panic!("more pages are asked for");
}

// --- Ping ---

#[test]
fn ping_success() {
    let client = test_client();
    let call = client.ping_call();
    assert_eq!(call.url, format!("{BASE}/ping"));
    assert_eq!(call.body.apikey, "pk1_test");
    assert_eq!(call.body.secretapikey, "sk1_test");
    let resp = client
        .ping(ping_reply(200, r#"{"status":"SUCCESS","yourIp":"1.2.3.4"}"#))
        .expect("ping should succeed");
    assert_eq!(resp.your_ip, Some("1.2.3.4".to_string()));
}

#[test]
fn ping_auth_failure() {
    let client = test_client();
    let err = client
        .ping(ping_reply(
            200,
            r#"{"status":"ERROR","message":"Invalid API key"}"#,
        ))
        .expect_err("ping should fail");
    assert!(matches!(err, Error::Authentication(_)));
}

#[test]
fn ping_generic_error_returns_porkbun_api() {
    let client = test_client();
    let err = client
        .ping(ping_reply(
            200,
            r#"{"status":"ERROR","message":"Some other error"}"#,
        ))
        .expect_err("ping should fail");
    // Generic errors should not be classified as Authentication
    assert!(
        matches!(err, Error::PorkbunApi(_)),
        "expected PorkbunApi, got: {err:?}"
    );
}

// --- List domains ---

#[test]
fn list_domains_single_page() {
    let client = test_client();
    let page = domains_reply(
        200,
        r#"{"status":"SUCCESS","domains":[{"domain":"example.com"},{"domain":"other.org"}]}"#,
    );
    let domains = listed(&client, vec![page]).expect("list_domains should succeed");
    assert_eq!(domains.len(), 2);
    assert_eq!(domains[0].domain, "example.com");
    assert_eq!(domains[1].domain, "other.org");
}

#[test]
fn list_domains_empty() {
    let client = test_client();
    let page = domains_reply(200, r#"{"status":"SUCCESS","domains":[]}"#);
    let domains = listed(&client, vec![page]).expect("list_domains should succeed");
    assert!(domains.is_empty());
}

#[test]
fn list_domains_goes_on_after_a_full_page() {
    let client = test_client();
    let page = |from: usize, count: usize| {
        Ok(ListAllResponse {
            status: "SUCCESS".to_string(),
            message: None,
            domains: Some(
                (from..from + count)
                    .map(|i| Domain {
                        domain: format!("d{i}.com"),
                    })
                    .collect(),
            ),
        })
    };
    let domains = listed(
        &client,
        vec![page(0, PAGE_SIZE), page(PAGE_SIZE, PAGE_SIZE), page(2 * PAGE_SIZE, 3)],
    )
    .unwrap();
    assert_eq!(domains.len(), 2 * PAGE_SIZE + 3);
    assert_eq!(domains[0].domain, "d0.com");
    assert_eq!(domains[2002].domain, "d2002.com");
    for (i, domain) in domains.iter().enumerate() {
        assert_eq!(domain.domain, format!("d{i}.com"));
    }
}

#[test]
fn last_page_needs_no_room_to_count_on() {
    let client = test_client();
    let near_the_end = || DomainListing {
        domains: Vec::new(),
        start: u32::MAX,
    };
    let page = domains_reply(200, r#"{"status":"SUCCESS","domains":[{"domain":"example.com"}]}"#);
    match client.next_domains(near_the_end(), page) {
        DomainsStep::Done(Ok(domains)) => assert_eq!(domains.len(), 1),
        other => panic!("{other:?}"),
    }
    let page = domains_reply(200, r#"{"status":"ERROR","domains":[{"domain":"example.com"}]}"#);
    match client.next_domains(near_the_end(), page) {
        DomainsStep::Done(Err(Error::PorkbunApi(m))) => assert_eq!(m, "list_domains: ERROR"),
        other => panic!("{other:?}"),
    }
}

#[test]
fn list_domains_fails_with_a_page() {
    let client = test_client();
    let err = listed(&client, vec![Err(Error::RateLimited)]).unwrap_err();
    assert!(matches!(err, Error::RateLimited));
    let page = domains_reply(200, r#"{"status":"ERROR","message":"Oops"}"#);
    match listed(&client, vec![page]).unwrap_err() {
        Error::PorkbunApi(m) => assert_eq!(m, "list_domains: Oops"),
        other => panic!("{other:?}"),
    }
}

// --- List records ---

#[test]
fn list_records_returns_records() {
    let client = test_client();
    let call = client.list_records_call("example.com");
    assert_eq!(call.url, format!("{BASE}/dns/retrieve/example.com"));
    let records = client
        .list_records(
            "example.com",
            records_reply(
                200,
                r#"{"status":"SUCCESS","records":[
                    {"id":"100","name":"www.example.com","type":"A","content":"1.2.3.4",
                     "ttl":"600","prio":null},
                    {"id":"101","name":"example.com","type":"MX","content":"mail.example.com",
                     "ttl":"3600","prio":"10"}]}"#,
            ),
        )
        .expect("list_records should succeed");
    assert_eq!(records.len(), 2);
    assert_eq!(records[0].id, "100");
    assert_eq!(records[0].content, "1.2.3.4");
    assert_eq!(records[1].prio_u32(), Some(10));
}

// --- Add record ---

#[test]
fn add_record_returns_id() {
    let client = test_client();
    let params = CreateDnsParams {
        subdomain: "www".to_string(),
        record_type: "A".to_string(),
        content: "1.2.3.4".to_string(),
        ttl: Some(600),
        prio: None,
    };
    let call = client.add_record_call("example.com", params);
    assert_eq!(call.url, format!("{BASE}/dns/create/example.com"));
    assert_eq!(call.body.name, Some("www".to_string()));
    assert_eq!(call.body.record_type, "A");
    assert_eq!(call.body.content, "1.2.3.4");
    assert_eq!(call.body.ttl, Some(600));
    assert_eq!(call.body.prio, None);
    let id = client
        .add_record(
            "example.com",
            create_reply(200, r#"{"status":"SUCCESS","id":12345}"#),
        )
        .expect("add_record should succeed");
    assert_eq!(id, "12345");
    let id = client
        .add_record(
            "example.com",
            create_reply(200, r#"{"status":"SUCCESS","id":"a-67"}"#),
        )
        .expect("add_record should succeed");
    assert_eq!(id, "a-67");
}

#[test]
fn apex_record_is_added_without_a_name() {
    let client = test_client();
    let params = CreateDnsParams {
        subdomain: String::new(),
        record_type: "MX".to_string(),
        content: "mail.example.com".to_string(),
        ttl: None,
        prio: Some(10),
    };
    let call = client.add_record_call("example.com", params);
    assert_eq!(call.body.name, None);
    assert_eq!(call.body.prio, Some(10));
    let id = client
        .add_record("example.com", create_reply(200, r#"{"status":"SUCCESS"}"#))
        .unwrap();
    assert_eq!(id, "");
    match client
        .add_record("example.com", create_reply(200, r#"{"status":"ERROR"}"#))
        .unwrap_err()
    {
        Error::PorkbunApi(m) => assert_eq!(m, "add_record(example.com): ERROR"),
        other => panic!("{other:?}"),
    }
}

// --- Edit record ---

#[test]
fn edit_record_success() {
    let client = test_client();
    let params = EditDnsParams {
        subdomain: "www".to_string(),
        record_type: "A".to_string(),
        content: "5.6.7.8".to_string(),
        ttl: Some(300),
        prio: None,
    };
    let call = client.edit_record_call("example.com", "100", params);
    assert_eq!(call.url, format!("{BASE}/dns/edit/example.com/100"));
    assert_eq!(call.body.content, "5.6.7.8");
    assert_eq!(call.body.ttl, Some(300));
    client
        .edit_record("example.com", "100", basic_reply(200, r#"{"status":"SUCCESS"}"#))
        .expect("edit_record should succeed");
}

#[test]
fn edit_record_failure_is_told() {
    let client = test_client();
    let reply = basic_reply(200, r#"{"status":"ERROR","message":"Record NOT FOUND"}"#);
    match client.edit_record("example.com", "100", reply).unwrap_err() {
        Error::RecordNotFound(m) => {
            assert_eq!(m, "edit_record(example.com/100): Record NOT FOUND")
        }
        other => panic!("{other:?}"),
    }
}

// --- Remove record ---

#[test]
fn remove_record_success() {
    let client = test_client();
    let call = client.remove_record_call("example.com", "100");
    assert_eq!(call.url, format!("{BASE}/dns/delete/example.com/100"));
    client
        .remove_record("example.com", "100", basic_reply(200, r#"{"status":"SUCCESS"}"#))
        .expect("remove_record should succeed");
}

#[test]
fn remove_record_already_deleted_via_status() {
    let client = test_client();
    // Should succeed (idempotent delete)
    client
        .remove_record(
            "example.com",
            "999",
            basic_reply(200, r#"{"status":"ERROR","message":"Record not found"}"#),
        )
        .expect("already-deleted record should not error");
}

#[test]
fn remove_record_already_deleted_via_http_400() {
    let client = test_client();
    client
        .remove_record(
            "example.com",
            "999",
            basic_reply(400, r#"{"status":"ERROR","message":"Record does not exist"}"#),
        )
        .expect("already-deleted record via HTTP 400 should not error");
}

#[test]
fn remove_record_failure_is_told() {
    let client = test_client();
    let reply = basic_reply(200, r#"{"status":"ERROR","message":"Locked"}"#);
    match client.remove_record("example.com", "1", reply).unwrap_err() {
        Error::PorkbunApi(m) => assert_eq!(m, "remove_record(example.com/1) failed: Locked"),
        other => panic!("{other:?}"),
    }
    let reply = basic_reply(200, r#"{"status":"ERROR"}"#);
    match client.remove_record("example.com", "1", reply).unwrap_err() {
        Error::PorkbunApi(m) => assert_eq!(m, "remove_record(example.com/1) failed: "),
        other => panic!("{other:?}"),
    }
}

// --- Error classification ---

#[test]
fn rate_limit_429_returns_rate_limited() {
    let client = test_client();
    let err = client
        .ping(ping_reply(429, ""))
        .expect_err("should fail with 429");
    assert!(matches!(err, Error::RateLimited));
    assert!(err.is_transient());
}

#[test]
fn unauthorized_401_returns_authentication() {
    let client = test_client();
    let err = client
        .ping(ping_reply(401, r#"{"message":"Unauthorized"}"#))
        .expect_err("should fail with 401");
    assert!(matches!(err, Error::Authentication(_)));
    assert!(!err.is_transient());
}

#[test]
fn bad_api_key_400_returns_authentication() {
    let client = test_client();
    let err = client
        .ping(ping_reply(
            400,
            r#"{"status":"ERROR","message":"Invalid API key."}"#,
        ))
        .expect_err("should fail with bad api key");
    assert!(
        matches!(err, Error::Authentication(_)),
        "expected Authentication, got: {err:?}"
    );
}

#[test]
fn server_error_500_is_transient() {
    let client = test_client();
    let err = client
        .ping(ping_reply(500, r#"{"message":"Internal server error"}"#))
        .expect_err("should fail with 500");
    assert!(matches!(err, Error::PorkbunUpstream(_)));
    assert!(err.is_transient());
}

#[test]
fn forbidden_403_domain_issue_returns_domain_not_allowed() {
    let client = test_client();
    let err = client
        .list_records(
            "example.com",
            records_reply(
                403,
                r#"{"status":"ERROR","message":"API access is not enabled for this domain"}"#,
            ),
        )
        .expect_err("should fail with 403");
    // Domain-related 403s should be DomainNotAllowed (→403), not Authentication
    assert!(
        matches!(err, Error::DomainNotAllowed(_)),
        "expected DomainNotAllowed, got: {err:?}"
    );
}

#[test]
fn timeout_is_transient() {
    let client = test_client();
    let failure = NetworkFailure {
        timeout: true,
        connect: false,
        message: "operation timed out".to_string(),
    };
    let err = client
        .ping(Err(Error::Network(failure)))
        .expect_err("should timeout");
    assert!(matches!(err, Error::Network(_)));
    assert!(err.is_transient());
}

#[test]
fn list_records_inband_auth_error_returns_authentication() {
    // Porkbun returns HTTP 200 with {"status":"ERROR","message":"Invalid API key"}
    let client = test_client();
    let err = client
        .list_records(
            "example.com",
            records_reply(200, r#"{"status":"ERROR","message":"Invalid API key."}"#),
        )
        .expect_err("should fail with in-band auth error");
    assert!(
        matches!(err, Error::Authentication(_)),
        "expected Authentication, got: {err:?}"
    );
}

#[test]
fn list_records_inband_generic_error_returns_porkbun_api() {
    let client = test_client();
    let err = client
        .list_records(
            "example.com",
            records_reply(200, r#"{"status":"ERROR","message":"Some other error"}"#),
        )
        .expect_err("should fail with generic error");
    assert!(
        matches!(err, Error::PorkbunApi(_)),
        "expected PorkbunApi, got: {err:?}"
    );
}

#[test]
fn slashes_at_the_end_of_the_address_do_not_count() {
    let client = Client::new("k", "s", "http://localhost:1///");
    assert_eq!(client.ping_call().url, "http://localhost:1/ping");
}

fn told(status: u16, body: &str) -> String {
    match check_reply(status, body) {
        Some(e) => e.message(),
        None => "success".to_string(),
    }
}

#[test]
fn replies_are_told_with_their_status() {
    assert_eq!(told(200, ""), "success");
    assert_eq!(told(299, "x"), "success");
    assert_eq!(
        told(401, r#"{"message":"No"}"#),
        r#"Authentication error: HTTP 401 Unauthorized: {"message":"No"}"#
    );
    assert_eq!(
        told(403, "Forbidden"),
        "Authentication error: HTTP 403 Forbidden: Forbidden"
    );
    assert_eq!(
        told(403, r#"{"message":"Denied"}"#),
        r#"Authentication error: HTTP 403 Forbidden: {"message":"Denied"}"#
    );
    assert_eq!(
        told(403, r#"{"message":"DOMAIN is locked"}"#),
        "Domain not allowed: HTTP 403 Forbidden: DOMAIN is locked"
    );
    assert_eq!(
        told(502, "<html>"),
        "Porkbun upstream error: HTTP 502 Bad Gateway: <html>"
    );
    assert_eq!(
        told(503, r#"{"message":"Later"}"#),
        "Porkbun upstream error: HTTP 503 Service Unavailable: Later"
    );
    assert_eq!(
        told(400, r#"{"message":"Unknown apiKey"}"#),
        "Authentication error: HTTP 400 Bad Request: Unknown apiKey"
    );
    assert_eq!(
        told(404, r#"{"message":"Zone not found"}"#),
        "Record not found: HTTP 404 Not Found: Zone not found"
    );
    assert_eq!(
        told(400, r#"{"message":7}"#),
        r#"Porkbun API error: HTTP 400 Bad Request: {"message":7}"#
    );
    assert_eq!(
        told(400, r#"{"message":"Bad content"}"#),
        "Porkbun API error: HTTP 400 Bad Request: Bad content"
    );
    assert_eq!(
        told(299 + 700, "?"),
        "Porkbun API error: HTTP 999 <unknown status code>: ?"
    );
}

#[test]
fn letters_beyond_ascii_are_made_small() {
    // The Kelvin sign becomes a small k.
    let message = "INVALID API \u{212a}EY";
    let err = Client::classify_api_error("ping", message);
    match err {
        Error::Authentication(m) => assert_eq!(m, format!("ping: {message}")),
        other => panic!("{other:?}"),
    }
}
