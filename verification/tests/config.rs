use credence::config::{AuthorityUrl, Config, RawConfig};
use credence::error::ConfigError;
use credence::identity::IdentitySet;
use credence::policy::RenewalPolicy;

fn raw(url: &str) -> RawConfig {
    RawConfig {
        authority_url: url.to_string(),
        directory: "/var/lib/credence".to_string(),
        tick_interval_secs: 3_600,
        request_timeout_secs: 30,
        grace_secs: 10,
        threshold_secs: 30 * 86_400,
        max_concurrent: 4,
        backoff_base_secs: 5,
        max_attempts: 3,
        maintained: vec![IdentitySet::new(vec!["example.org".to_string()])],
    }
}

#[test]
fn authority_url_is_written_as_the_url_crate_writes_it() {
    let url = AuthorityUrl::parse("https://acme-v02.api.letsencrypt.org/directory").unwrap();
    assert_eq!(url.as_str(), "https://acme-v02.api.letsencrypt.org/directory");
    let url = AuthorityUrl::parse("https://example.org").unwrap();
    assert_eq!(url.as_str(), "https://example.org/");
    let url = AuthorityUrl::parse("HTTPS://Example.ORG:443/a/../b").unwrap();
    assert_eq!(url.as_str(), "https://example.org/b");
}

#[test]
fn authority_url_must_be_absolute() {
    match AuthorityUrl::parse("acme/directory") {
        Err(ConfigError::InvalidUrl { reason }) => assert_eq!(reason, "relative URL without a base"),
        other => panic!("unexpected: {:?}", other),
    }
    assert!(matches!(AuthorityUrl::parse(""), Err(ConfigError::InvalidUrl { .. })));
    assert!(matches!(AuthorityUrl::parse("https://"), Err(ConfigError::InvalidUrl { .. })));
    assert!(matches!(AuthorityUrl::parse("https://example.org:99999/"), Err(ConfigError::InvalidUrl { .. })));
}

#[test]
fn valid_raw_config_is_accepted() {
    let config = raw("https://example.org/dir").validate().unwrap();
    assert_eq!(config.authority_url().as_str(), "https://example.org/dir");
    assert_eq!(config.directory(), "/var/lib/credence");
    assert_eq!(config.tick_interval_secs(), 3_600);
    assert_eq!(config.request_timeout_secs(), 30);
    assert_eq!(config.grace_secs(), 10);
    assert_eq!(config.policy().threshold_secs(), 30 * 86_400);
    assert_eq!(config.policy().max_concurrent(), 4);
    assert_eq!(config.policy().backoff_base_secs(), 5);
    assert_eq!(config.policy().max_attempts(), 3);
    assert_eq!(config.policy().maintained().len(), 1);
}

#[test]
fn raw_config_with_a_bad_url_is_rejected() {
    assert!(matches!(raw("not a url").validate(), Err(ConfigError::InvalidUrl { .. })));
}

#[test]
fn raw_config_reports_the_url_before_anything_else() {
    let mut config = raw("::");
    config.tick_interval_secs = 0;
    config.max_concurrent = 0;
    assert!(matches!(config.validate(), Err(ConfigError::InvalidUrl { .. })));
}

#[test]
fn raw_config_with_zero_interval_is_rejected() {
    let mut config = raw("https://example.org/");
    config.tick_interval_secs = 0;
    config.max_attempts = 0;
    assert_eq!(config.validate().unwrap_err(), ConfigError::ZeroInterval);
}

#[test]
fn raw_config_with_zero_concurrency_is_rejected() {
    let mut config = raw("https://example.org/");
    config.max_concurrent = 0;
    config.max_attempts = 0;
    assert_eq!(config.validate().unwrap_err(), ConfigError::ZeroConcurrency);
}

#[test]
fn raw_config_with_zero_attempts_is_rejected() {
    let mut config = raw("https://example.org/");
    config.max_attempts = 0;
    assert_eq!(config.validate().unwrap_err(), ConfigError::ZeroAttempts);
}

#[test]
fn with_authority_takes_the_url_as_given() {
    let url = AuthorityUrl::parse("https://one.example/").unwrap();
    let config = raw("https://other.example/").with_authority(url).unwrap();
    assert_eq!(config.authority_url().as_str(), "https://one.example/");
}

#[test]
fn config_new_turns_down_a_zero_interval_only() {
    let url = AuthorityUrl::parse("https://example.org/").unwrap();
    let policy = RenewalPolicy::new(0, 1, 0, 1, Vec::new()).unwrap();
    assert_eq!(
        Config::new(url.clone(), String::new(), 0, 0, 0, policy).unwrap_err(),
        ConfigError::ZeroInterval
    );
    let policy = RenewalPolicy::new(0, 1, 0, 1, Vec::new()).unwrap();
    let config = Config::new(url, String::new(), 1, 0, 0, policy).unwrap();
    assert_eq!(config.tick_interval_secs(), 1);
    assert_eq!(config.directory(), "");
}
