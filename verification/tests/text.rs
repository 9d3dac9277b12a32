use neurolithe::models::NodeStatus;
use neurolithe::text::{condense, is_blank, join_with, same_text};

#[test]
fn condense_cuts_on_character_boundaries() {
    assert_eq!(condense("hello", 10), "hello");
    assert_eq!(condense("hello world", 5), "hell…");
    assert_eq!(condense("ééééé", 3), "éé…");
    assert_eq!(condense("abc", 0), "");
}

#[test]
fn blank_and_equality() {
    assert!(is_blank(" \t\n"));
    assert!(is_blank(""));
    assert!(!is_blank(" x "));
    assert!(same_text("abc", "abc"));
    assert!(!same_text("abc", "abd"));
}

#[test]
fn join_places_separators_between_items() {
    let v = vec!["a".to_string(), "b".to_string(), "c".to_string()];
    assert_eq!(join_with(&v, "; "), "a; b; c");
    assert_eq!(join_with(&vec![], "; "), "");
}

#[test]
fn test_node_archiving() {
    // 0.15 decays to 0.075 over one half-life, below the 0.1 archive threshold.
    assert_eq!(NodeStatus::Active.after_decay(true), NodeStatus::Archived);
    assert_eq!(NodeStatus::Active.after_decay(false), NodeStatus::Active);
    assert_eq!(NodeStatus::Archived.after_decay(false), NodeStatus::Archived);
}
