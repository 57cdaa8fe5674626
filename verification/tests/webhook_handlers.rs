use axum::http::StatusCode;
use porkbun_webhook::porkbun::types::{DnsRecord, Domain, PingResponse};
use porkbun_webhook::webhook::agenda::{ApplyAction, ApplyEvent};
use porkbun_webhook::webhook::handlers::WebhookHandler;
use porkbun_webhook::webhook::plan::Mutation;
use porkbun_webhook::webhook::records::{ReadAction, Reading};
use porkbun_webhook::webhook::types::{
    ApplyChangesRequest, Changes, Endpoint, GetRecordsQuery, ProviderSpecific,
};
use porkbun_webhook::{Config, Error, PorkbunClient};

fn test_config() -> Config {
    Config {
        porkbun_api_key: "pk1_test".to_string(),
        porkbun_secret_api_key: "sk1_test".to_string(),
        porkbun_api_base: "http://localhost:1234".to_string(),
        webhook_host: "127.0.0.1".to_string(),
        webhook_port: 8888,
        domain_filter: Some(vec!["example.com".to_string()]),
        dry_run: false,
        cache_ttl_seconds: 60,
        http_timeout_seconds: 30,
        trace_request_bodies: false,
    }
}

fn handler_for(config: Config) -> WebhookHandler {
    let client = PorkbunClient::new(
        &config.porkbun_api_key,
        &config.porkbun_secret_api_key,
        &config.porkbun_api_base,
    );
    WebhookHandler::new(client, config)
}

fn test_handler() -> WebhookHandler {
    handler_for(test_config())
}

fn endpoint(name: &str, targets: &[&str], kind: &str) -> Endpoint {
    Endpoint {
        dns_name: name.to_string(),
        targets: targets.iter().map(|t| t.to_string()).collect(),
        record_type: kind.to_string(),
        set_identifier: None,
        record_ttl: None,
        labels: Default::default(),
        provider_specific: vec![],
    }
}

fn endpoint_with_ttl(name: &str, targets: &[&str], kind: &str, ttl: i64) -> Endpoint {
    let mut e = endpoint(name, targets, kind);
    e.record_ttl = Some(ttl);
    e
}

fn record(id: &str, name: &str, kind: &str, content: &str, ttl: &str) -> DnsRecord {
    DnsRecord {
        id: id.to_string(),
        name: name.to_string(),
        record_type: kind.to_string(),
        content: content.to_string(),
        ttl: Some(ttl.to_string()),
        prio: None,
    }
}

fn creating(create: Vec<Endpoint>) -> Changes {
    let mut changes = Changes::default();
    changes.create = create;
    changes
}

fn deleting(delete: Vec<Endpoint>) -> Changes {
    let mut changes = Changes::default();
    changes.delete = delete;
    changes
}

fn updating(from: Vec<Endpoint>, to: Vec<Endpoint>) -> Changes {
    let mut changes = Changes::default();
    changes.update_old = from;
    changes.update_new = to;
    changes
}

/// A service that keeps the records of all zones and notes what is asked of it.
struct Service {
    records: Vec<(String, DnsRecord)>,
    domains: Vec<String>,
    next_id: u32,
    log: Vec<String>,
    fail_at: Option<usize>,
}

impl Service {
    fn new(records: Vec<(&str, DnsRecord)>) -> Service {
        Service {
            records: records
                .into_iter()
                .map(|(z, r)| (z.to_string(), r))
                .collect(),
            domains: vec!["example.com".to_string(), "other.org".to_string()],
            next_id: 1000,
            log: Vec::new(),
            fail_at: None,
        }
    }

    fn list(&mut self, zone: &str) -> Vec<DnsRecord> {
        self.log.push(format!("list {zone}"));
        self.records
            .iter()
            .filter(|(z, _)| z == zone)
            .map(|(_, r)| r.clone())
            .collect()
    }

    fn full_name(subdomain: &str, zone: &str) -> String {
        if subdomain.is_empty() {
            zone.to_string()
        } else {
            format!("{subdomain}.{zone}")
        }
    }

    fn mutate(&mut self, m: Mutation) -> Result<(), Error> {
        let count = self
            .log
            .iter()
            .filter(|l| !l.starts_with("list") && !l.starts_with("domains"))
            .count();
        if self.fail_at == Some(count) {
            return Err(Error::PorkbunUpstream("down".to_string()));
        }
        match m {
            Mutation::Add { zone, params } => {
                self.log
                    .push(format!("add {zone} {} {}", params.subdomain, params.content));
                let id = self.next_id.to_string();
                self.next_id += 1;
                self.records.push((
                    zone.clone(),
                    DnsRecord {
                        id,
                        name: Service::full_name(&params.subdomain, &zone),
                        record_type: params.record_type,
                        content: params.content,
                        ttl: Some(params.ttl.unwrap_or(600).to_string()),
                        prio: params.prio.map(|p| p.to_string()),
                    },
                ));
            }
            Mutation::Edit { zone, id, params } => {
                self.log.push(format!("edit {zone} {id} {}", params.content));
                for (z, r) in self.records.iter_mut() {
                    if *z == zone && r.id == id {
                        r.name = Service::full_name(&params.subdomain, &zone);
                        r.record_type = params.record_type.clone();
                        r.content = params.content.clone();
                        if let Some(ttl) = params.ttl {
                            r.ttl = Some(ttl.to_string());
                        }
                        if let Some(prio) = params.prio {
                            r.prio = Some(prio.to_string());
                        }
                    }
                }
            }
            Mutation::Remove { zone, id } => {
                self.log.push(format!("remove {zone} {id}"));
                self.records.retain(|(z, r)| !(*z == zone && r.id == id));
            }
        }
        Ok(())
    }
}

fn apply(
    handler: &WebhookHandler,
    service: &mut Service,
    body: Result<ApplyChangesRequest, String>,
) -> Result<u16, Error> {
    let (mut run, mut action) = handler.apply_changes(body);
    loop {
        let event = match action {
            ApplyAction::Finish(result) => return result,
            ApplyAction::ManagedDomains => {
                service.log.push("domains".to_string());
                ApplyEvent::Domains(Ok(service.domains.clone()))
            }
            ApplyAction::ListRecords(zone) => ApplyEvent::Records(Ok(service.list(&zone))),
            ApplyAction::Mutate(m) => ApplyEvent::Mutated(service.mutate(m)),
            ApplyAction::DryRun(m) => {
                service.log.push(format!("noted {}", m.zone()));
                ApplyEvent::Noted
            }
        };
        action = run.resume(&handler.config, event);
    }
}

fn apply_direct(
    handler: &WebhookHandler,
    service: &mut Service,
    changes: Changes,
) -> Result<u16, Error> {
    apply(handler, service, Ok(ApplyChangesRequest::Direct(changes)))
}

fn refused(changes: Changes) -> Error {
    let mut service = Service::new(vec![]);
    let err = apply_direct(&test_handler(), &mut service, changes).expect_err("should be refused");
    assert!(service.log.is_empty());
    err
}

fn read(
    handler: &WebhookHandler,
    zone: Option<&str>,
    reply: &dyn Fn(&str) -> Result<Vec<DnsRecord>, Error>,
) -> Result<Vec<Endpoint>, Error> {
    let query = GetRecordsQuery {
        zone_name: zone.map(|z| z.to_string()),
    };
    let (mut reading, mut action): (Reading, ReadAction) = handler.get_records(query);
    loop {
        let step = match action {
            ReadAction::Finish(result) => return result,
            ReadAction::ManagedDomains => reading.domains(Ok(vec![
                "example.com".to_string(),
                "other.org".to_string(),
            ])),
            ReadAction::ListRecords(zone) => reading.records(reply(&zone)),
        };
        reading = step.0;
        action = step.1;
    }
}

// --- GET / (negotiate) ---

#[test]
fn negotiate_returns_filters() {
    let answer = test_handler().negotiate();
    assert_eq!(answer.status, StatusCode::OK.as_u16());
    assert!(answer
        .content_type
        .contains("application/external.dns.webhook+json"));
    assert_eq!(answer.filters, vec!["example.com"]);
}

// --- GET /healthz ---

#[test]
fn healthz_returns_healthy() {
    let answer = test_handler().health("1.0.0");
    assert_eq!(answer.status, "healthy");
    assert_eq!(answer.version, "1.0.0");
}

// --- GET /ready ---

#[test]
fn ready_succeeds_with_valid_ping() {
    let reply = PingResponse {
        status: "SUCCESS".to_string(),
        your_ip: Some("1.2.3.4".to_string()),
        message: None,
    };
    let answer = test_handler().ready(Ok(reply), "1.0.0").unwrap();
    assert_eq!(answer.status, "ready");
}

#[test]
fn ready_fails_with_bad_credentials() {
    let reply = PingResponse {
        status: "ERROR".to_string(),
        your_ip: None,
        message: Some("Invalid API key".to_string()),
    };
    let err = test_handler().ready(Ok(reply), "1.0.0").unwrap_err();
    // Authentication errors should return 403
    assert_eq!(err.status_code(), StatusCode::FORBIDDEN.as_u16());
}

// --- GET /records ---

#[test]
fn get_records_with_zone_returns_endpoints() {
    let endpoints = read(&test_handler(), Some("example.com"), &|zone| {
        assert_eq!(zone, "example.com");
        Ok(vec![
            record("100", "www.example.com", "A", "1.2.3.4", "600"),
            record("101", "www.example.com", "A", "5.6.7.8", "600"),
        ])
    })
    .unwrap();
    // Two A records for www should be grouped into one endpoint
    assert_eq!(endpoints.len(), 1);
    assert_eq!(endpoints[0].dns_name, "www.example.com");
    assert_eq!(endpoints[0].targets.len(), 2);
}

#[test]
fn get_records_rejects_non_managed_zone() {
    let err = read(&test_handler(), Some("evil.com"), &|_| unreachable!()).unwrap_err();
    assert_eq!(err.status_code(), StatusCode::FORBIDDEN.as_u16());
    assert_eq!(
        err.message(),
        "Domain not allowed: evil.com is not a managed zone"
    );
}

#[test]
fn get_records_rejects_subdomain_as_zone() {
    // www.example.com is a subdomain, not a managed zone
    let err = read(&test_handler(), Some("www.example.com"), &|_| unreachable!()).unwrap_err();
    assert_eq!(err.status_code(), StatusCode::FORBIDDEN.as_u16());
}

#[test]
fn get_records_leaves_out_types_that_are_not_managed() {
    let endpoints = read(&test_handler(), Some("Example.com."), &|_| {
        Ok(vec![
            record("1", "example.com", "NS", "ns1", "600"),
            record("2", "example.com", "TXT", "hello", "600"),
        ])
    })
    .unwrap();
    assert_eq!(endpoints.len(), 1);
    assert_eq!(endpoints[0].record_type, "TXT");
}

fn all_zones_handler() -> WebhookHandler {
    let mut config = test_config();
    config.domain_filter = None;
    handler_for(config)
}

#[test]
fn get_records_of_all_zones_are_put_together() {
    let endpoints = read(&all_zones_handler(), None, &|zone| {
        Ok(vec![record("1", zone, "A", "1.2.3.4", "600")])
    })
    .unwrap();
    assert_eq!(endpoints.len(), 2);
    assert_eq!(endpoints[0].dns_name, "example.com");
    assert_eq!(endpoints[1].dns_name, "other.org");
}

#[test]
fn get_records_skips_a_zone_that_fails() {
    let endpoints = read(&all_zones_handler(), None, &|zone| {
        if zone == "example.com" {
            Err(Error::PorkbunApi("locked".to_string()))
        } else {
            Ok(vec![record("1", zone, "A", "1.2.3.4", "600")])
        }
    })
    .unwrap();
    assert_eq!(endpoints.len(), 1);
    assert_eq!(endpoints[0].dns_name, "other.org");
}

#[test]
fn get_records_fails_where_all_zones_fail() {
    let err = read(&all_zones_handler(), None, &|_| {
        Err(Error::DomainNotAllowed("no access".to_string()))
    })
    .unwrap_err();
    match err {
        Error::PorkbunApi(m) => assert_eq!(
            m,
            "All 2 zones failed during record retrieval (2 skipped)"
        ),
        other => panic!("{other:?}"),
    }
}

#[test]
fn get_records_fails_with_a_transient_failure() {
    let err = read(&all_zones_handler(), None, &|zone| {
        if zone == "other.org" {
            Err(Error::RateLimited)
        } else {
            Ok(vec![])
        }
    })
    .unwrap_err();
    assert!(matches!(err, Error::RateLimited));
    let err = read(&all_zones_handler(), None, &|_| {
        Err(Error::Authentication("key".to_string()))
    })
    .unwrap_err();
    assert!(matches!(err, Error::Authentication(_)));
}

#[test]
fn get_records_without_zones_is_empty() {
    let mut config = test_config();
    config.domain_filter = Some(vec![]);
    let endpoints = read(&handler_for(config), None, &|_| unreachable!()).unwrap();
    assert!(endpoints.is_empty());
}

#[test]
fn get_records_fails_with_the_domains() {
    let (reading, action) = all_zones_handler().get_records(GetRecordsQuery { zone_name: None });
    assert!(matches!(action, ReadAction::ManagedDomains));
    let (_, action) = reading.domains(Err(Error::RateLimited));
    assert!(matches!(action, ReadAction::Finish(Err(Error::RateLimited))));
}

// --- POST /records (apply_changes) ---

#[test]
fn apply_changes_returns_no_content_on_empty_changes() {
    let mut service = Service::new(vec![]);
    let status = apply_direct(&test_handler(), &mut service, Changes::default())
        .expect("empty changes should succeed");
    assert_eq!(status, StatusCode::NO_CONTENT.as_u16());
}

#[test]
fn apply_changes_rejects_unsupported_record_type() {
    let err = refused(creating(vec![endpoint("app.example.com", &["1.2.3.4"], "NS")]));
    assert!(matches!(err, Error::InvalidRequest(_)));
}

#[test]
fn handlers_apply_changes_rejects_disallowed_domain() {
    let err = refused(creating(vec![endpoint("app.evil.com", &["1.2.3.4"], "A")]));
    assert!(matches!(err, Error::DomainNotAllowed(_)));
}

#[test]
fn apply_changes_rejects_blank_target() {
    let err = refused(creating(vec![endpoint("app.example.com", &["1.2.3.4", ""], "A")]));
    assert!(matches!(err, Error::InvalidRequest(_)));
}

#[test]
fn apply_changes_rejects_whitespace_target() {
    let err = refused(creating(vec![endpoint("app.example.com", &["  "], "A")]));
    assert!(matches!(err, Error::InvalidRequest(_)));
}

#[test]
fn apply_changes_validates_before_mutation() {
    // Validation should fail fast with mixed valid/invalid endpoints
    let err = refused(creating(vec![
        endpoint("app.example.com", &["1.2.3.4"], "A"),
        endpoint("app.evil.com", &["1.2.3.4"], "A"),
    ]));
    assert!(matches!(err, Error::DomainNotAllowed(_)));
}

#[test]
fn apply_changes_rejects_mismatched_update_lengths() {
    let err = refused(updating(
        vec![endpoint("app.example.com", &["1.2.3.4"], "A")],
        vec![
            endpoint("app.example.com", &["5.6.7.8"], "A"),
            endpoint("other.example.com", &["9.10.11.12"], "A"),
        ],
    ));
    assert!(matches!(err, Error::InvalidRequest(_)));
    assert_eq!(
        err.message(),
        "Invalid request: updateOld (1) and updateNew (2) must have the same length"
    );
}

#[test]
fn apply_changes_empty_returns_204() {
    let mut service = Service::new(vec![]);
    assert_eq!(
        apply_direct(&test_handler(), &mut service, Changes::default()).unwrap(),
        204
    );
}

#[test]
fn changes_are_taken_in_either_shape() {
    let mut service = Service::new(vec![]);
    let changes = ApplyChangesRequest::Wrapped {
        changes: creating(vec![endpoint("app.example.com", &["10.0.0.1"], "A")]),
    };
    assert_eq!(
        apply(&test_handler(), &mut service, Ok(changes)).unwrap(),
        204
    );
    assert_eq!(service.records[0].1.content, "10.0.0.1");
}

#[test]
fn apply_changes_create_calls_porkbun() {
    let mut service = Service::new(vec![]);
    let status = apply_direct(
        &test_handler(),
        &mut service,
        creating(vec![endpoint_with_ttl("app.example.com", &["10.0.0.1"], "A", 600)]),
    )
    .unwrap();
    assert_eq!(status, StatusCode::NO_CONTENT.as_u16());
    assert_eq!(
        service.log,
        vec!["list example.com", "add example.com app 10.0.0.1"]
    );
}

#[test]
fn apply_changes_create_is_idempotent() {
    // Record already exists
    let mut service = Service::new(vec![(
        "example.com",
        record("100", "app.example.com", "A", "10.0.0.1", "600"),
    )]);
    let status = apply_direct(
        &test_handler(),
        &mut service,
        creating(vec![endpoint_with_ttl("app.example.com", &["10.0.0.1"], "A", 600)]),
    )
    .unwrap();
    assert_eq!(status, StatusCode::NO_CONTENT.as_u16());
    // Create should NOT be called
    assert_eq!(service.log, vec!["list example.com"]);
}

#[test]
fn apply_changes_delete_calls_porkbun() {
    // Record exists
    let mut service = Service::new(vec![(
        "example.com",
        record("100", "app.example.com", "A", "10.0.0.1", "600"),
    )]);
    let status = apply_direct(
        &test_handler(),
        &mut service,
        deleting(vec![endpoint("app.example.com", &["10.0.0.1"], "A")]),
    )
    .unwrap();
    assert_eq!(status, StatusCode::NO_CONTENT.as_u16());
    assert_eq!(service.log, vec!["list example.com", "remove example.com 100"]);
}

#[test]
fn apply_changes_rejects_unsupported_type() {
    let err = refused(creating(vec![endpoint("app.example.com", &["ns1.example.com"], "NS")]));
    assert_eq!(err.status_code(), StatusCode::BAD_REQUEST.as_u16());
}

#[test]
fn webhook_handlers_apply_changes_rejects_disallowed_domain() {
    let err = refused(creating(vec![endpoint("app.evil.com", &["1.2.3.4"], "A")]));
    assert_eq!(err.status_code(), StatusCode::FORBIDDEN.as_u16());
}

#[test]
fn apply_changes_tells_what_is_wrong() {
    let told = |e: Endpoint| refused(creating(vec![e])).message();
    assert_eq!(
        told(endpoint("a.example.com", &["x"], "NS")),
        "Invalid request: Unsupported record type: NS"
    );
    assert_eq!(
        told(endpoint("a.example.com", &[], "A")),
        "Invalid request: No targets for endpoint a.example.com"
    );
    assert_eq!(
        told(endpoint("a.example.com", &["x", " "], "A")),
        "Invalid request: Blank target in endpoint a.example.com"
    );
    assert_eq!(
        told(endpoint("a.evil.com", &["x"], "A")),
        "Domain not allowed: No configured zone matches a.evil.com"
    );
    let mut e = endpoint("a.example.com", &["x"], "MX");
    e.provider_specific.push(ProviderSpecific {
        name: "priority".to_string(),
        value: "high".to_string(),
    });
    assert_eq!(told(e), "Invalid request: Invalid priority value: high");
}

#[test]
fn apply_changes_refuses_what_could_not_be_read() {
    let mut service = Service::new(vec![]);
    match apply(&test_handler(), &mut service, Err("no JSON".to_string())) {
        Err(Error::InvalidRequest(m)) => assert_eq!(m, "no JSON"),
        other => panic!("{other:?}"),
    }
}

#[test]
fn apply_changes_refuses_a_zone_that_the_filter_does_not_hold_in_canonical_form() {
    let mut config = test_config();
    config.domain_filter = Some(vec!["example.com.".to_string()]);
    let mut service = Service::new(vec![]);
    let changes = creating(vec![endpoint("example.com..", &["1.2.3.4"], "A")]);
    match apply_direct(&handler_for(config), &mut service, changes) {
        Err(Error::DomainNotAllowed(zone)) => assert_eq!(zone, "example.com."),
        other => panic!("{other:?}"),
    }
}

#[test]
fn apply_changes_works_in_order() {
    let mut service = Service::new(vec![
        ("example.com", record("1", "del.example.com", "A", "1.1.1.1", "600")),
        ("example.com", record("2", "upd.example.com", "A", "2.2.2.2", "600")),
    ]);
    let mut changes = creating(vec![endpoint("new.example.com", &["3.3.3.3"], "A")]);
    changes.delete = vec![endpoint("del.example.com", &["1.1.1.1"], "A")];
    changes.update_old = vec![endpoint("upd.example.com", &["2.2.2.2"], "A")];
    changes.update_new = vec![endpoint("upd.example.com", &["4.4.4.4"], "A")];
    assert_eq!(apply_direct(&test_handler(), &mut service, changes).unwrap(), 204);
    assert_eq!(
        service.log,
        vec![
            "list example.com",
            "remove example.com 1",
            "list example.com",
            "remove example.com 2",
            "list example.com",
            "list example.com",
            "add example.com upd 4.4.4.4",
            "list example.com",
            "add example.com new 3.3.3.3",
        ]
    );
}

#[test]
fn zones_are_listed_once_while_nothing_changes() {
    let mut service = Service::new(vec![
        ("example.com", record("1", "a.example.com", "A", "1.1.1.1", "600")),
        ("example.com", record("2", "b.example.com", "A", "2.2.2.2", "600")),
    ]);
    let changes = creating(vec![
        endpoint("a.example.com", &["1.1.1.1", "1.1.1.1"], "A"),
        endpoint("b.example.com", &["2.2.2.2"], "A"),
    ]);
    assert_eq!(apply_direct(&test_handler(), &mut service, changes).unwrap(), 204);
    assert_eq!(service.log, vec!["list example.com"]);
}

#[test]
fn update_edits_what_it_keeps() {
    let mut service = Service::new(vec![
        ("example.com", record("1", "a.example.com", "CNAME", "Host.net.", "600")),
        ("example.com", record("2", "a.example.com", "CNAME", "host.net", "300")),
        ("example.com", record("3", "b.example.com", "CNAME", "host.net", "600")),
    ]);
    let changes = updating(
        vec![endpoint("a.example.com", &["host.net"], "CNAME")],
        vec![endpoint_with_ttl("A.example.com.", &["host.net", "HOST.net"], "CNAME", 300)],
    );
    assert_eq!(apply_direct(&test_handler(), &mut service, changes).unwrap(), 204);
    assert_eq!(
        service.log,
        vec!["list example.com", "edit example.com 1 host.net"]
    );
}

#[test]
fn update_that_moves_deletes_and_creates() {
    let mut service = Service::new(vec![(
        "example.com",
        record("1", "a.example.com", "A", "1.1.1.1", "600"),
    )]);
    let changes = updating(
        vec![endpoint("a.example.com", &["1.1.1.1"], "A")],
        vec![endpoint("b.example.com", &["1.1.1.1"], "A")],
    );
    assert_eq!(apply_direct(&test_handler(), &mut service, changes).unwrap(), 204);
    assert_eq!(
        service.log,
        vec![
            "list example.com",
            "remove example.com 1",
            "list example.com",
            "add example.com b 1.1.1.1"
        ]
    );
}

#[test]
fn update_settles_after_one_run() {
    let update = || {
        updating(
            vec![endpoint("a.example.com", &["1.1.1.1", "2.2.2.2"], "A")],
            vec![endpoint_with_ttl("a.example.com", &["2.2.2.2", "3.3.3.3"], "A", 900)],
        )
    };
    let mut service = Service::new(vec![
        ("example.com", record("1", "a.example.com", "A", "1.1.1.1", "600")),
        ("example.com", record("2", "a.example.com", "A", "2.2.2.2", "600")),
        ("example.com", record("3", "a.example.com", "A", "1.1.1.1", "600")),
    ]);
    assert_eq!(apply_direct(&test_handler(), &mut service, update()).unwrap(), 204);
    assert_eq!(service.records.len(), 2);
    service.log.clear();
    assert_eq!(apply_direct(&test_handler(), &mut service, update()).unwrap(), 204);
    assert!(service.log.iter().all(|l| l.starts_with("list")));
}

#[test]
fn work_that_failed_is_taken_up_again() {
    let create = || creating(vec![endpoint("a.example.com", &["1.1.1.1", "2.2.2.2"], "A")]);
    let mut service = Service::new(vec![]);
    service.fail_at = Some(1);
    let err = apply_direct(&test_handler(), &mut service, create()).unwrap_err();
    assert!(err.is_transient());
    service.fail_at = None;
    service.log.clear();
    assert_eq!(apply_direct(&test_handler(), &mut service, create()).unwrap(), 204);
    assert_eq!(
        service.log,
        vec!["list example.com", "add example.com a 2.2.2.2"]
    );
    let delete = || deleting(vec![endpoint("a.example.com", &["1.1.1.1", "2.2.2.2"], "A")]);
    service.log.clear();
    service.fail_at = Some(1);
    apply_direct(&test_handler(), &mut service, delete()).unwrap_err();
    assert_eq!(service.records.len(), 1);
    service.log.clear();
    service.fail_at = None;
    assert_eq!(apply_direct(&test_handler(), &mut service, delete()).unwrap(), 204);
    assert!(service.records.is_empty());
}

fn mixed_changes() -> Changes {
    Changes {
        create: vec![
            endpoint("new.example.com", &["1.1.1.1", "1.1.1.2"], "A"),
            endpoint("new.example.com", &["1.1.1.2", "1.1.1.3"], "A"),
        ],
        update_old: vec![
            endpoint("kept.example.com", &["2.2.2.1", "2.2.2.2"], "A"),
            endpoint("from.example.com", &["3.3.3.3"], "A"),
        ],
        update_new: vec![
            endpoint_with_ttl("kept.example.com", &["2.2.2.2", "2.2.2.3"], "A", 900),
            endpoint("to.example.com", &["3.3.3.3"], "A"),
        ],
        delete: vec![endpoint("new.example.com", &["9.9.9.9"], "A")],
    }
}

fn mixed_service() -> Service {
    Service::new(vec![
        ("example.com", record("1", "new.example.com", "A", "9.9.9.9", "600")),
        ("example.com", record("2", "kept.example.com", "A", "2.2.2.1", "600")),
        ("example.com", record("3", "kept.example.com", "A", "2.2.2.2", "600")),
        ("example.com", record("4", "from.example.com", "A", "3.3.3.3", "600")),
        ("example.com", record("5", "bystander.example.com", "A", "4.4.4.4", "600")),
    ])
}

fn contents(service: &Service) -> Vec<(String, String)> {
    let mut held: Vec<(String, String)> = service
        .records
        .iter()
        .map(|(_, r)| (r.name.clone(), r.content.clone()))
        .collect();
    held.sort();
    held
}

fn mixed_outcome() -> Vec<(String, String)> {
    [
        ("bystander.example.com", "4.4.4.4"),
        ("kept.example.com", "2.2.2.2"),
        ("kept.example.com", "2.2.2.3"),
        ("new.example.com", "1.1.1.1"),
        ("new.example.com", "1.1.1.2"),
        ("new.example.com", "1.1.1.3"),
        ("to.example.com", "3.3.3.3"),
    ]
    .iter()
    .map(|(n, t)| (n.to_string(), t.to_string()))
    .collect()
}

#[test]
fn request_that_was_carried_out_does_nothing_again() {
    let handler = test_handler();
    let mut service = mixed_service();
    assert_eq!(apply_direct(&handler, &mut service, mixed_changes()).unwrap(), 204);
    assert_eq!(contents(&service), mixed_outcome());
    service.log.clear();
    assert_eq!(apply_direct(&handler, &mut service, mixed_changes()).unwrap(), 204);
    assert!(!service.log.is_empty());
    assert!(service.log.iter().all(|l| l.starts_with("list")));
    assert_eq!(contents(&service), mixed_outcome());
}

#[test]
fn request_that_broke_off_anywhere_is_completed_by_a_retry() {
    let handler = test_handler();
    let mut whole = mixed_service();
    apply_direct(&handler, &mut whole, mixed_changes()).unwrap();
    let mutations = whole.log.iter().filter(|l| !l.starts_with("list")).count();
    assert_eq!(mutations, 9);
    for at in 0..mutations {
        let mut service = mixed_service();
        service.fail_at = Some(at);
        assert!(apply_direct(&handler, &mut service, mixed_changes()).is_err());
        service.fail_at = None;
        assert_eq!(apply_direct(&handler, &mut service, mixed_changes()).unwrap(), 204);
        assert_eq!(contents(&service), mixed_outcome());
        service.log.clear();
        apply_direct(&handler, &mut service, mixed_changes()).unwrap();
        assert!(service.log.iter().all(|l| l.starts_with("list")));
    }
}

#[test]
fn target_deleted_and_created_in_one_request_is_touched_again() {
    let handler = test_handler();
    let mut service = Service::new(vec![]);
    let changes = || Changes {
        create: vec![endpoint("app.example.com", &["1.1.1.1"], "A")],
        update_old: vec![],
        update_new: vec![],
        delete: vec![endpoint("app.example.com", &["1.1.1.1"], "A")],
    };
    apply_direct(&handler, &mut service, changes()).unwrap();
    service.log.clear();
    apply_direct(&handler, &mut service, changes()).unwrap();
    assert_eq!(
        service.log,
        vec![
            "list example.com",
            "remove example.com 1000",
            "list example.com",
            "add example.com app 1.1.1.1",
        ]
    );
}

#[test]
fn targets_listed_twice_are_added_once() {
    let mut service = Service::new(vec![]);
    let changes = creating(vec![endpoint(
        "a.example.com",
        &["Host.net", "host.net.", "other.net"],
        "CNAME",
    )]);
    assert_eq!(apply_direct(&test_handler(), &mut service, changes).unwrap(), 204);
    assert_eq!(
        service.log,
        vec![
            "list example.com",
            "add example.com a Host.net",
            "add example.com a other.net"
        ]
    );
}

#[test]
fn all_records_of_a_deleted_endpoint_go_and_no_others() {
    let mut service = Service::new(vec![
        ("example.com", record("1", "a.example.com", "A", "1.1.1.1", "600")),
        ("example.com", record("2", "A.Example.com", "A", "1.1.1.1", "300")),
        ("example.com", record("3", "a.example.com", "A", "2.2.2.2", "600")),
        ("example.com", record("4", "a.example.com", "TXT", "1.1.1.1", "600")),
        ("example.com", record("5", "b.example.com", "A", "1.1.1.1", "600")),
        ("example.com", record("6", "", "A", "1.1.1.1", "600")),
    ]);
    let delete = || deleting(vec![endpoint("a.example.com", &["1.1.1.1"], "A")]);
    assert_eq!(apply_direct(&test_handler(), &mut service, delete()).unwrap(), 204);
    let left: Vec<&str> = service.records.iter().map(|(_, r)| r.id.as_str()).collect();
    assert_eq!(left, vec!["3", "4", "5", "6"]);
    service.log.clear();
    assert_eq!(apply_direct(&test_handler(), &mut service, delete()).unwrap(), 204);
    assert_eq!(service.log, vec!["list example.com"]);
    let apex = deleting(vec![endpoint("example.com", &["1.1.1.1"], "A")]);
    assert_eq!(apply_direct(&test_handler(), &mut service, apex).unwrap(), 204);
    assert_eq!(service.records.len(), 3);
}

#[test]
fn failures_of_the_service_end_the_work() {
    let handler = all_zones_handler();
    let body = || {
        Ok(ApplyChangesRequest::Direct(creating(vec![endpoint(
            "a.example.com",
            &["1.1.1.1"],
            "A",
        )])))
    };
    let (mut run, action) = handler.apply_changes(body());
    assert!(matches!(action, ApplyAction::ManagedDomains));
    let action = run.resume(&handler.config, ApplyEvent::Domains(Err(Error::RateLimited)));
    assert!(matches!(action, ApplyAction::Finish(Err(Error::RateLimited))));
    let handler = test_handler();
    let (mut run, action) = handler.apply_changes(body());
    assert!(matches!(action, ApplyAction::ListRecords(_)));
    let failure = Error::Authentication("no".to_string());
    let action = run.resume(&handler.config, ApplyEvent::Records(Err(failure)));
    assert!(matches!(
        action,
        ApplyAction::Finish(Err(Error::Authentication(_)))
    ));
}

#[test]
fn dry_run_changes_nothing() {
    let mut config = test_config();
    config.dry_run = true;
    let mut service = Service::new(vec![(
        "example.com",
        record("1", "a.example.com", "A", "1.1.1.1", "600"),
    )]);
    let mut changes = creating(vec![endpoint("b.example.com", &["2.2.2.2", "3.3.3.3"], "A")]);
    changes.delete = vec![endpoint("a.example.com", &["1.1.1.1"], "A")];
    assert_eq!(
        apply_direct(&handler_for(config), &mut service, changes).unwrap(),
        204
    );
    assert_eq!(
        service.log,
        vec![
            "list example.com",
            "noted example.com",
            "noted example.com",
            "noted example.com"
        ]
    );
    assert_eq!(service.records.len(), 1);
}

#[test]
fn without_a_filter_the_domains_are_asked_for() {
    let mut service = Service::new(vec![]);
    let changes = creating(vec![endpoint("www.other.org", &["2.2.2.2"], "A")]);
    assert_eq!(
        apply_direct(&all_zones_handler(), &mut service, changes).unwrap(),
        204
    );
    assert_eq!(
        service.log,
        vec!["domains", "domains", "list other.org", "add other.org www 2.2.2.2"]
    );
    let changes = creating(vec![endpoint("www.evil.com", &["2.2.2.2"], "A")]);
    match apply_direct(&all_zones_handler(), &mut service, changes) {
        Err(Error::InvalidRequest(m)) => assert_eq!(m, "No owned domain matches www.evil.com"),
        other => panic!("{other:?}"),
    }
}

#[test]
fn created_endpoint_is_read_back() {
    let mut service = Service::new(vec![]);
    let mut e = endpoint_with_ttl("Mail.Example.com.", &["mx.host.net"], "MX", 900);
    e.provider_specific.push(ProviderSpecific {
        name: "priority".to_string(),
        value: "10".to_string(),
    });
    apply_direct(&test_handler(), &mut service, creating(vec![e])).unwrap();
    let records: Vec<DnsRecord> = service.records.iter().map(|(_, r)| r.clone()).collect();
    let endpoints = read(&test_handler(), None, &|_| Ok(records.clone())).unwrap();
    assert_eq!(endpoints.len(), 1);
    assert_eq!(endpoints[0].dns_name, "mail.example.com");
    assert_eq!(endpoints[0].targets, vec!["mx.host.net"]);
    assert_eq!(endpoints[0].record_type, "MX");
    assert_eq!(endpoints[0].record_ttl, Some(900));
    assert_eq!(endpoints[0].provider_specific[0].value, "10");
    // What is read is in place.
    service.log.clear();
    apply_direct(&test_handler(), &mut service, creating(endpoints)).unwrap();
    assert_eq!(service.log, vec!["list example.com"]);
}

// --- POST /adjustendpoints ---

#[test]
fn adjust_endpoints_passthrough() {
    let endpoints =
        test_handler().adjust_endpoints(vec![endpoint("app.example.com", &["1.2.3.4"], "A")]);
    assert_eq!(endpoints.len(), 1);
    assert_eq!(endpoints[0].dns_name, "app.example.com");
}

// --- Domains that are kept ---

#[test]
fn domains_are_kept_until_they_expire() {
    let second: u64 = 1_000_000_000;
    let mut handler = all_zones_handler();
    assert_eq!(handler.get_managed_domains(0), None);
    let listed = vec![Domain {
        domain: "Example.COM.".to_string(),
    }];
    assert_eq!(handler.keep_domains(&listed, 5), vec!["example.com"]);
    assert_eq!(
        handler.get_managed_domains(60 * second + 4),
        Some(vec!["example.com".to_string()])
    );
    assert_eq!(handler.get_managed_domains(60 * second + 5), None);
    assert_eq!(
        test_handler().get_managed_domains(0),
        Some(vec!["example.com".to_string()])
    );
}
