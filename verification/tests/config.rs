use oh_bugs::config::{
    default_bug_lifetime_ms, default_error_keywords, default_max_bugs, default_max_concurrent_bugs,
    default_min_bugs, default_refresh_rate_ms, Config,
};

#[test]
fn default_keywords() {
    assert_eq!(default_error_keywords(), vec!["error", "fail", "exception", "fatal"]);
}

#[test]
fn default_numbers() {
    assert_eq!(default_min_bugs(), 2);
    assert_eq!(default_max_bugs(), 5);
    assert_eq!(default_bug_lifetime_ms(), 2500);
    assert_eq!(default_refresh_rate_ms(), 100);
    assert_eq!(default_max_concurrent_bugs(), 30);
}

#[test]
fn default_config() {
    let c = Config::default();
    assert_eq!(c.error_keywords, vec!["error", "fail", "exception", "fatal"]);
    assert_eq!(c.min_bugs, 2);
    assert_eq!(c.max_bugs, 5);
    assert_eq!(c.bug_lifetime_ms, 2500);
    assert_eq!(c.refresh_rate_ms, 100);
    assert_eq!(c.max_concurrent_bugs, 30);
}
