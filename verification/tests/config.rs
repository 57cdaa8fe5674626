use porkbun_webhook::config::{ConfigError, Environment};
use porkbun_webhook::number::NumberError;
use porkbun_webhook::Config;


fn config_with_filter(domains: Vec<&str>) -> Config {
    Config {
        porkbun_api_key: String::new(),
        porkbun_secret_api_key: String::new(),
        porkbun_api_base: String::new(),
        webhook_host: String::new(),
        webhook_port: 8888,
        domain_filter: Some(domains.into_iter().map(Config::normalize_domain).collect()),
        dry_run: false,
        cache_ttl_seconds: 60,
        http_timeout_seconds: 30,
        trace_request_bodies: false,
    }
}

#[test]
fn exact_match_is_allowed() {
    let config = config_with_filter(vec!["example.com"]);
    assert!(config.is_domain_allowed("example.com"));
}

#[test]
fn proper_subdomain_is_allowed() {
    let config = config_with_filter(vec!["example.com"]);
    assert!(config.is_domain_allowed("www.example.com"));
}

#[test]
fn nested_subdomain_is_allowed() {
    let config = config_with_filter(vec!["example.com"]);
    assert!(config.is_domain_allowed("sub.deep.example.com"));
}

#[test]
fn sibling_domain_is_rejected() {
    let config = config_with_filter(vec!["example.com"]);
    assert!(!config.is_domain_allowed("badexample.com"));
}

#[test]
fn another_sibling_domain_is_rejected() {
    let config = config_with_filter(vec!["example.com"]);
    assert!(!config.is_domain_allowed("notexample.com"));
}

#[test]
fn case_insensitive_match() {
    let config = config_with_filter(vec!["example.com"]);
    assert!(config.is_domain_allowed("WWW.Example.COM"));
}

#[test]
fn trailing_dot_on_domain() {
    let config = config_with_filter(vec!["example.com"]);
    assert!(config.is_domain_allowed("www.example.com."));
}

#[test]
fn trailing_dot_on_filter() {
    let config = config_with_filter(vec!["example.com."]);
    assert!(config.is_domain_allowed("www.example.com"));
}

#[test]
fn none_filter_allows_all() {
    let config = Config {
        porkbun_api_key: String::new(),
        porkbun_secret_api_key: String::new(),
        porkbun_api_base: String::new(),
        webhook_host: String::new(),
        webhook_port: 8888,
        domain_filter: None,
        dry_run: false,
        cache_ttl_seconds: 60,
        http_timeout_seconds: 30,
        trace_request_bodies: false,
    };
    assert!(config.is_domain_allowed("anything.com"));
}

#[test]
fn normalized_domain_filter_returns_empty_when_unset() {
    let config = Config {
        porkbun_api_key: String::new(),
        porkbun_secret_api_key: String::new(),
        porkbun_api_base: String::new(),
        webhook_host: String::new(),
        webhook_port: 8888,
        domain_filter: None,
        dry_run: false,
        cache_ttl_seconds: 60,
        http_timeout_seconds: 30,
        trace_request_bodies: false,
    };
    assert!(config.normalized_domain_filter().is_empty());
}

#[test]
fn empty_filter_allows_all() {
    // What DOMAIN_FILTER="" leads to: no filter.
    let config = Config {
        porkbun_api_key: String::new(),
        porkbun_secret_api_key: String::new(),
        porkbun_api_base: String::new(),
        webhook_host: String::new(),
        webhook_port: 8888,
        domain_filter: None,
        dry_run: false,
        cache_ttl_seconds: 60,
        http_timeout_seconds: 30,
        trace_request_bodies: false,
    };
    assert!(config.is_domain_allowed("anything.com"));
    assert!(config.normalized_domain_filter().is_empty());
}

#[test]
fn normalize_domain_trims_and_lowercases() {
    assert_eq!(Config::normalize_domain("  Example.COM. "), "example.com");
    assert_eq!(Config::normalize_domain("foo.bar"), "foo.bar");
    assert_eq!(Config::normalize_domain(""), "");
}

fn environment() -> Environment {
    Environment {
        porkbun_api_key: Some("pk1_test".to_string()),
        porkbun_secret_api_key: Some("sk1_test".to_string()),
        porkbun_api_base: None,
        webhook_host: None,
        webhook_port: None,
        domain_filter: None,
        dry_run: None,
        cache_ttl_seconds: None,
        http_timeout_seconds: None,
        trace_request_bodies: None,
    }
}

#[test]
fn from_env_uses_defaults() {
    let config = Config::from_env(environment()).unwrap();
    assert_eq!(config.porkbun_api_key, "pk1_test");
    assert_eq!(config.porkbun_secret_api_key, "sk1_test");
    assert_eq!(config.porkbun_api_base, "https://api.porkbun.com/api/json/v3");
    assert_eq!(config.webhook_host, "127.0.0.1");
    assert_eq!(config.webhook_port, 8888);
    assert_eq!(config.domain_filter, None);
    assert!(!config.dry_run);
    assert_eq!(config.cache_ttl_seconds, 60);
    assert_eq!(config.http_timeout_seconds, 30);
    assert!(!config.trace_request_bodies);
}

#[test]
fn from_env_reads_all_variables() {
    let mut env = environment();
    env.porkbun_api_base = Some("http://localhost:1/".to_string());
    env.webhook_host = Some("0.0.0.0".to_string());
    env.webhook_port = Some("9000".to_string());
    env.domain_filter = Some(" Example.COM. ,, other.org".to_string());
    env.dry_run = Some("true".to_string());
    env.cache_ttl_seconds = Some("5".to_string());
    env.http_timeout_seconds = Some("7".to_string());
    env.trace_request_bodies = Some("true".to_string());
    let config = Config::from_env(env).unwrap();
    assert_eq!(config.porkbun_api_base, "http://localhost:1/");
    assert_eq!(config.webhook_host, "0.0.0.0");
    assert_eq!(config.webhook_port, 9000);
    assert_eq!(
        config.domain_filter,
        Some(vec!["example.com".to_string(), "other.org".to_string()])
    );
    assert!(config.dry_run);
    assert_eq!(config.cache_ttl_seconds, 5);
    assert_eq!(config.http_timeout_seconds, 7);
    assert!(config.trace_request_bodies);
}

#[test]
fn from_env_takes_a_blank_filter_for_none() {
    let mut env = environment();
    env.domain_filter = Some(" , ".to_string());
    let config = Config::from_env(env).unwrap();
    assert_eq!(config.domain_filter, None);
}

#[test]
fn from_env_names_what_is_missing() {
    let mut env = environment();
    env.porkbun_api_key = None;
    let fault = Config::from_env(env).unwrap_err();
    assert_eq!(fault, ConfigError::MissingApiKey);
    assert_eq!(
        fault.message(),
        "PORKBUN_API_KEY environment variable is required"
    );
    let mut env = environment();
    env.porkbun_secret_api_key = None;
    let fault = Config::from_env(env).unwrap_err();
    assert_eq!(fault, ConfigError::MissingSecretApiKey);
    assert_eq!(
        fault.message(),
        "PORKBUN_SECRET_API_KEY environment variable is required"
    );
}

#[test]
fn from_env_refuses_what_is_malformed() {
    let mut env = environment();
    env.webhook_port = Some("70000".to_string());
    assert_eq!(
        Config::from_env(env).unwrap_err(),
        ConfigError::InvalidWebhookPort(NumberError::TooLarge)
    );
    let mut env = environment();
    env.dry_run = Some("yes".to_string());
    assert_eq!(Config::from_env(env).unwrap_err(), ConfigError::InvalidDryRun);
    let mut env = environment();
    env.cache_ttl_seconds = Some("".to_string());
    assert_eq!(
        Config::from_env(env).unwrap_err(),
        ConfigError::InvalidCacheTtl(NumberError::Empty)
    );
    let mut env = environment();
    env.http_timeout_seconds = Some("-1".to_string());
    assert_eq!(
        Config::from_env(env).unwrap_err(),
        ConfigError::InvalidHttpTimeout(NumberError::InvalidDigit)
    );
    let mut env = environment();
    env.trace_request_bodies = Some("TRUE".to_string());
    assert_eq!(
        Config::from_env(env).unwrap_err(),
        ConfigError::InvalidTraceRequestBodies
    );
}
