use oh_bugs::config::default_error_keywords;
use oh_bugs::watcher::{Watcher, WatcherError};

#[test]
fn default_keywords_are_found_ignoring_case() {
    let w = Watcher::new(&default_error_keywords()).unwrap();
    assert_eq!(w.scan(b"Error: build FAILED"), 2);
    assert_eq!(w.scan(b"error error ERROR"), 3);
    assert_eq!(w.scan(b"Fatal Exception"), 2);
    assert_eq!(w.scan(b"all good"), 0);
    assert_eq!(w.scan(b""), 0);
}

#[test]
fn keywords_are_taken_literally() {
    let w = Watcher::new(&["a.b".to_string(), "(x)".to_string()]).unwrap();
    assert_eq!(w.scan(b"axb"), 0);
    assert_eq!(w.scan(b"a.b"), 1);
    assert_eq!(w.scan(b"(X) x"), 1);
}

#[test]
fn invalid_utf8_is_read_lossily() {
    let w = Watcher::new(&["error".to_string()]).unwrap();
    assert_eq!(w.scan(b"err\xffor error"), 1);
}

#[test]
fn no_keywords_no_matches() {
    let w = Watcher::new(&[]).unwrap();
    assert_eq!(w.scan(b"error"), 0);
}

#[test]
fn oversized_keyword_is_refused() {
    let huge = "a".repeat(2_000_000);
    let r = Watcher::new(&["error".to_string(), huge]);
    assert!(matches!(r, Err(WatcherError::InvalidKeyword { index: 1 })));
}
