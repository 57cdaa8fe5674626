use axum::http::StatusCode;
use porkbun_webhook::error::NetworkFailure;
use porkbun_webhook::Error;


#[test]
fn rate_limited_is_transient() {
    let err = Error::RateLimited;
    assert!(err.is_transient());
    assert_eq!(err.status_code(), StatusCode::SERVICE_UNAVAILABLE.as_u16());
}

#[test]
fn auth_error_is_permanent() {
    let err = Error::Authentication("invalid API key".to_string());
    assert!(!err.is_transient());
    assert_eq!(err.status_code(), StatusCode::FORBIDDEN.as_u16());
}

#[test]
fn domain_not_allowed_is_permanent() {
    let err = Error::DomainNotAllowed("evil.com".to_string());
    assert!(!err.is_transient());
    assert_eq!(err.status_code(), StatusCode::FORBIDDEN.as_u16());
}

#[test]
fn invalid_request_is_permanent() {
    let err = Error::InvalidRequest("bad payload".to_string());
    assert!(!err.is_transient());
    assert_eq!(err.status_code(), StatusCode::BAD_REQUEST.as_u16());
}

#[test]
fn porkbun_api_non_rate_limit_is_not_transient() {
    let err = Error::PorkbunApi("invalid domain".to_string());
    assert!(!err.is_transient());
    assert_eq!(err.status_code(), StatusCode::UNPROCESSABLE_ENTITY.as_u16());
}

#[test]
fn porkbun_upstream_5xx_is_transient() {
    let err = Error::PorkbunUpstream("HTTP 500: internal server error".to_string());
    assert!(err.is_transient());
    assert_eq!(err.status_code(), StatusCode::SERVICE_UNAVAILABLE.as_u16());
}

#[test]
fn network_failures_are_transient_where_time_or_connection_failed() {
    for (timeout, connect) in [(true, false), (false, true), (true, true)] {
        let err = Error::Network(NetworkFailure {
            timeout,
            connect,
            message: "gone".to_string(),
        });
        assert!(err.is_transient());
        assert_eq!(err.status_code(), 503);
    }
    let err = Error::Network(NetworkFailure {
        timeout: false,
        connect: false,
        message: "gone".to_string(),
    });
    assert!(!err.is_transient());
    assert_eq!(err.status_code(), 422);
}

#[test]
fn answers_in_the_500s_are_those_of_transient_failures() {
    let text = || "x".to_string();
    let network = |timeout: bool, connect: bool| {
        Error::Network(NetworkFailure {
            timeout,
            connect,
            message: text(),
        })
    };
    for err in [
        Error::PorkbunApi(text()),
        Error::RateLimited,
        Error::PorkbunUpstream(text()),
        Error::Authentication(text()),
        Error::InvalidRequest(text()),
        Error::DomainNotAllowed(text()),
        Error::RecordNotFound(text()),
        Error::Configuration(text()),
        network(false, false),
        network(true, false),
        network(false, true),
        Error::Json(text()),
        Error::Internal(text()),
        Error::Other(text()),
    ] {
        let status = err.status_code();
        assert_eq!((500..600).contains(&status), err.is_transient(), "{err:?}");
        assert_eq!((400..500).contains(&status), !err.is_transient(), "{err:?}");
    }
}

#[test]
fn every_failure_is_told_in_words() {
    let told = |e: Error| {
        let answer = e.into_response();
        (answer.status, answer.error)
    };
    let text = || "x".to_string();
    assert_eq!(
        told(Error::PorkbunApi(text())),
        (422, "Porkbun API error: x".to_string())
    );
    assert_eq!(
        told(Error::RateLimited),
        (503, "Rate limited by Porkbun API".to_string())
    );
    assert_eq!(
        told(Error::PorkbunUpstream(text())),
        (503, "Porkbun upstream error: x".to_string())
    );
    assert_eq!(
        told(Error::Authentication(text())),
        (403, "Authentication error: x".to_string())
    );
    assert_eq!(
        told(Error::InvalidRequest(text())),
        (400, "Invalid request: x".to_string())
    );
    assert_eq!(
        told(Error::DomainNotAllowed(text())),
        (403, "Domain not allowed: x".to_string())
    );
    assert_eq!(
        told(Error::RecordNotFound(text())),
        (404, "Record not found: x".to_string())
    );
    assert_eq!(
        told(Error::Configuration(text())),
        (422, "Configuration error: x".to_string())
    );
    assert_eq!(
        told(Error::Network(NetworkFailure {
            timeout: true,
            connect: false,
            message: text()
        })),
        (503, "Network error: x".to_string())
    );
    assert_eq!(told(Error::Json(text())), (400, "JSON error: x".to_string()));
    assert_eq!(
        told(Error::Internal(text())),
        (422, "Internal error: x".to_string())
    );
    assert_eq!(told(Error::Other(text())), (422, "x".to_string()));
}
