use neurolithe::session::{SessionManager, DEFAULT_KEEP_RECENT, DEFAULT_TOKEN_THRESHOLD};
use neurolithe::text::estimate_tokens;

#[test]
fn test_token_estimation() {
    assert_eq!(estimate_tokens("hello world"), 2); // 11 chars / 4 ≈ 2
    assert_eq!(estimate_tokens(""), 0);
}

#[test]
fn token_estimate_counts_bytes() {
    // "é" is two bytes in UTF-8: eight of them are 16 bytes, 4 tokens.
    assert_eq!(estimate_tokens("éééééééé"), 4);
}

#[test]
fn push_counts_tokens_and_flags_threshold() {
    let mut sm = SessionManager::new(5, 1);
    assert!(sm.can_push("s", "12345678"));
    assert!(!sm.push_message("s", "12345678")); // 2 tokens
    assert!(!sm.push_message("s", "123456789012")); // 3 more: 5 in all, not above 5
    assert!(sm.push_message("s", "1234")); // 6 in all: above
    let (summary, messages) = sm.window("s", "ignored");
    assert_eq!(summary, None);
    assert_eq!(messages, vec!["12345678", "123456789012", "1234"]);
}

#[test]
fn compression_keeps_the_newest_raw_messages() {
    let mut sm = SessionManager::new(4000, 2);
    for m in ["one", "two", "three", "four"] {
        sm.push_message("s", m);
    }
    let text = sm.compression_request("s").expect("more than keep_recent messages");
    assert_eq!(text, "one\ntwo");
    assert!(sm.can_compress("s", "S1"));
    sm.apply_compression("s", "S1".to_string());
    let (summary, messages) = sm.window("s", "x");
    assert_eq!(summary.as_deref(), Some("S1"));
    assert_eq!(messages, vec!["three", "four"]);

    // A second round folds the previous summary in.
    sm.push_message("s", "five");
    let text = sm.compression_request("s").unwrap();
    assert_eq!(text, "Previous summary: S1\n\nNew messages:\nthree");
}

#[test]
fn no_compression_within_keep_recent() {
    let mut sm = SessionManager::new(0, 10);
    sm.push_message("s", "hello");
    assert_eq!(sm.compression_request("s"), None);
    assert_eq!(sm.compression_request("unknown"), None);
}

#[test]
fn sessions_are_independent() {
    let mut sm = SessionManager::new(100, 10);
    sm.push_message("a", "alpha");
    sm.push_message("b", "beta");
    assert_eq!(sm.window("a", "z").1, vec!["alpha"]);
    assert_eq!(sm.window("b", "z").1, vec!["beta"]);
    // A session without a buffer shows just the new message.
    assert_eq!(sm.window("c", "new"), (None, vec!["new".to_string()]));
}

#[test]
fn defaults_match_the_documentation() {
    assert_eq!(DEFAULT_TOKEN_THRESHOLD, 4000);
    assert_eq!(DEFAULT_KEEP_RECENT, 10);
    let sm = SessionManager::new(DEFAULT_TOKEN_THRESHOLD, DEFAULT_KEEP_RECENT);
    assert_eq!(sm.token_threshold(), 4000);
    assert_eq!(sm.keep_recent(), 10);
}
