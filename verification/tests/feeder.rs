use neurolithe::feeder::{aside_headers, decide, retry_ingest, FeedDecision, PayloadRead, DLQ_TOPIC, INGEST_ATTEMPTS, PARKING_TOPIC, SOURCE_TOPIC};
use neurolithe::ingestion::{DocumentCompleted, PageRef};

fn group_event(id: Option<&str>) -> DocumentCompleted {
    DocumentCompleted {
        group_id: id.map(|s| s.to_string()),
        data_id: None,
        pages: vec![PageRef {
            page_index: Some(0),
            status: None,
            text_uri: Some("pt://archive/p/text".into()),
            tags: vec!["x".into()],
        }],
    }
}

#[test]
fn test_tombstone_with_key_is_forget() {
    match decide(Some("grp_1"), None) {
        FeedDecision::Forget(id) => assert_eq!(id, "grp_1"),
        other => panic!("expected Forget, got {other:?}"),
    }
}

#[test]
fn test_tombstone_without_key_is_parked() {
    assert!(matches!(decide(None, None), FeedDecision::Park(_)));
    assert!(matches!(decide(Some(""), None), FeedDecision::Park(_)));
}

#[test]
fn test_valid_event_is_ingest() {
    // {"groupId":"grp_1","pageCount":1,"pages":[{"pageIndex":0,"textUri":"pt://archive/p/text","tags":["x"]}]}
    match decide(Some("grp_1"), Some(PayloadRead::Parsed(group_event(Some("grp_1"))))) {
        FeedDecision::Ingest(e) => assert_eq!(e.document_id(), Some("grp_1")),
        other => panic!("expected Ingest, got {other:?}"),
    }
}

#[test]
fn test_event_without_id_is_bad_event() {
    // Valid JSON, but no groupId/dataId: {"pageCount":1,"pages":[]}
    let event = DocumentCompleted { group_id: None, data_id: None, pages: vec![] };
    assert!(matches!(
        decide(Some("k"), Some(PayloadRead::Parsed(event))),
        FeedDecision::BadEvent(_)
    ));
}

#[test]
fn test_unparseable_is_parked() {
    // Not JSON at all (b"\xff\x00 not json") -> parking.lot.
    assert!(matches!(
        decide(Some("k"), Some(PayloadRead::Unparseable("expected value at line 1 column 1".into()))),
        FeedDecision::Park(_)
    ));
}

#[test]
fn routing_reasons_are_exact() {
    match decide(None, None) {
        FeedDecision::Park(r) => assert_eq!(r, "tombstone without a key"),
        other => panic!("unexpected {other:?}"),
    }
    let event = DocumentCompleted { group_id: None, data_id: None, pages: vec![] };
    match decide(Some("k"), Some(PayloadRead::Parsed(event))) {
        FeedDecision::BadEvent(r) => assert_eq!(r, "event has neither groupId nor dataId"),
        other => panic!("unexpected {other:?}"),
    }
    match decide(Some("k"), Some(PayloadRead::Unparseable("bad byte".into()))) {
        FeedDecision::Park(r) => assert_eq!(r, "un-parseable document.completed: bad byte"),
        other => panic!("unexpected {other:?}"),
    }
}

#[test]
fn single_item_event_is_ingested_by_data_id() {
    let event = DocumentCompleted {
        group_id: None,
        data_id: Some("doc_9".into()),
        pages: vec![],
    };
    match decide(None, Some(PayloadRead::Parsed(event))) {
        FeedDecision::Ingest(e) => assert_eq!(e.document_id(), Some("doc_9")),
        other => panic!("expected Ingest, got {other:?}"),
    }
}

#[test]
fn aside_headers_carry_the_context() {
    let h = aside_headers("ingest failed: boom", "neurolithe", SOURCE_TOPIC, "3", "42");
    let pairs: Vec<(&str, &str)> = h.iter().map(|(k, v)| (k.as_str(), v.as_str())).collect();
    assert_eq!(
        pairs,
        vec![
            ("x-reason", "ingest failed: boom"),
            ("x-consumer", "neurolithe"),
            ("x-source-topic", "document.completed"),
            ("x-source-partition", "3"),
            ("x-source-offset", "42"),
        ]
    );
    assert_eq!(DLQ_TOPIC, "dlq.memory");
    assert_eq!(PARKING_TOPIC, "parking.lot");
    assert_eq!(INGEST_ATTEMPTS, 3);
}

#[test]
fn ingest_is_tried_three_times() {
    assert!(retry_ingest(1));
    assert!(retry_ingest(2));
    assert!(!retry_ingest(3));
}
