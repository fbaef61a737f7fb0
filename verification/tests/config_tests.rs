use obstore::config::merge_configs;
use obstore::retry::{next_backoff_ms, should_retry, BackoffConfig, RetryConfig};

fn pairs(ps: &[(&str, &str)]) -> Vec<(String, String)> {
    ps.iter().map(|(k, v)| (k.to_string(), v.to_string())).collect()
}

#[test]
fn merge_disjoint_configs() {
    let merged = merge_configs(
        pairs(&[("region", "eu"), ("bucket", "b")]),
        pairs(&[("timeout", "3s")]),
    )
    .unwrap();
    assert_eq!(
        merged,
        pairs(&[("region", "eu"), ("bucket", "b"), ("timeout", "3s")])
    );
}

#[test]
fn merge_rejects_duplicate_key() {
    let r = merge_configs(pairs(&[("region", "eu")]), pairs(&[("region", "us")]));
    assert_eq!(r.unwrap_err().label(), "generic");
    let r2 = merge_configs(pairs(&[]), pairs(&[("a", "1"), ("a", "2")]));
    assert!(r2.is_err());
}

#[test]
fn merge_with_empty_sides() {
    assert_eq!(
        merge_configs(pairs(&[]), pairs(&[("k", "v")])).unwrap(),
        pairs(&[("k", "v")])
    );
    assert_eq!(
        merge_configs(pairs(&[("k", "v")]), pairs(&[])).unwrap(),
        pairs(&[("k", "v")])
    );
}

#[test]
fn backoff_doubles_and_clips() {
    let cfg = BackoffConfig { init_backoff_ms: 100, max_backoff_ms: 1500 };
    assert_eq!(next_backoff_ms(&cfg, 100), 200);
    assert_eq!(next_backoff_ms(&cfg, 400), 800);
    assert_eq!(next_backoff_ms(&cfg, 800), 1500);
    assert_eq!(next_backoff_ms(&cfg, u64::MAX), 1500);
}

#[test]
fn retry_policy_defaults() {
    let cfg = RetryConfig::default();
    assert_eq!(cfg.backoff.init_backoff_ms, 100);
    assert_eq!(cfg.backoff.max_backoff_ms, 15000);
    assert_eq!(cfg.max_retries, 10);
    assert_eq!(cfg.retry_timeout_ms, 180000);
    assert!(should_retry(&cfg, 9));
    assert!(!should_retry(&cfg, 10));
}
