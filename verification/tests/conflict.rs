use neurolithe::conflict::{merge_tags, AdaptationResult, ConflictResolver, FactPayload, SimilarNode};

fn payload(fact: &str, tags: Option<Vec<&str>>) -> FactPayload {
    FactPayload {
        fact: fact.into(),
        tags: tags.map(|t| t.into_iter().map(String::from).collect()),
        data_id: None,
    }
}

#[test]
fn test_default_thresholds() {
    let resolver = ConflictResolver::new();
    assert!(resolver.assimilation_threshold_permille < resolver.accommodation_threshold_permille);
}

#[test]
fn no_similar_fact_creates() {
    let r = ConflictResolver::new();
    let (result, update) = r.decide(&vec![], &payload("User lives in Berlin", None));
    assert_eq!(result, AdaptationResult::AccommodateCreate);
    assert!(update.is_none());
}

#[test]
fn same_fact_is_assimilated() {
    let r = ConflictResolver::new();
    let similar = vec![SimilarNode { id: Some(7), payload: payload("User owns a dog", None) }];
    let (result, update) = r.decide(&similar, &payload("User owns a dog", Some(vec!["pet"])));
    assert_eq!(result, AdaptationResult::Assimilated(7));
    let update = update.unwrap();
    assert_eq!(update.node_id, 7);
    assert!(update.new_payload.is_none());
}

#[test]
fn related_fact_is_accommodated_with_merged_tags() {
    let r = ConflictResolver::new();
    let similar = vec![
        SimilarNode { id: Some(3), payload: payload("User owns a dog", Some(vec!["pet", "dog"])) },
        SimilarNode { id: Some(4), payload: payload("other", None) },
    ];
    let (result, update) = r.decide(&similar, &payload("User owns two dogs", Some(vec!["dog", "family"])));
    assert_eq!(result, AdaptationResult::AccommodatedModify(3));
    let p = update.unwrap().new_payload.unwrap();
    assert_eq!(p.fact, "User owns two dogs");
    assert_eq!(p.tags.unwrap(), vec!["pet", "dog", "family"]);
}

#[test]
fn accommodation_without_new_tags_keeps_the_new_payload() {
    let r = ConflictResolver::new();
    let similar = vec![SimilarNode { id: Some(3), payload: payload("a", Some(vec!["t"])) }];
    let (_, update) = r.decide(&similar, &payload("b", None));
    let p = update.unwrap().new_payload.unwrap();
    assert!(p.tags.is_none());
}

#[test]
fn merge_tags_appends_only_new_tags_in_order() {
    let existing = vec!["a".to_string(), "b".to_string()];
    let new = vec!["b".to_string(), "c".to_string(), "c".to_string(), "a".to_string(), "d".to_string()];
    assert_eq!(merge_tags(&existing, &new), vec!["a", "b", "c", "d"]);
}
