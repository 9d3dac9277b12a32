use neurolithe::error::MemoryError;
use neurolithe::ingestion::{document_fact, document_text, document_to_place, page_order_of, plan_ingest, DocumentCompleted, PageRef};
use neurolithe::distill::check_dimension;
use neurolithe::ingestion::{file_document, IngestOutcome};
use neurolithe::ltm::LtmRepository;
use neurolithe::ltm_placement::LtmPlacement;
use neurolithe::ltm_store::MemLtmStore;
use neurolithe::spine::seed_spine;

fn page(index: Option<u32>, uri: Option<&str>, tags: &[&str]) -> PageRef {
    PageRef {
        page_index: index,
        status: Some("ok".into()),
        text_uri: uri.map(String::from),
        tags: tags.iter().map(|t| t.to_string()).collect(),
    }
}

#[test]
fn test_event_without_id_errors() {
    let event = DocumentCompleted { group_id: None, data_id: None, pages: vec![] };
    assert_eq!(plan_ingest(&event).map(|p| p.document_id), Err(MemoryError::MissingDocumentId));
}

/// With every page missing there is no text: the document is skipped.
#[test]
fn test_all_pages_missing_is_skipped() {
    let event = DocumentCompleted {
        group_id: Some("grp_2".into()),
        data_id: None,
        pages: vec![page(Some(0), Some("pt://archive/gone/text"), &[])],
    };
    let plan = plan_ingest(&event).unwrap();
    assert_eq!(plan.document_id, "grp_2");
    let fetched: Vec<String> = vec![];
    assert_eq!(document_text(&fetched), None);
}

#[test]
fn test_distill_rejects_wrong_dimension() {
    assert_eq!(
        check_dimension(4, 8),
        Err(MemoryError::DimensionMismatch { got: 4, expected: 8 })
    );
    assert_eq!(check_dimension(8, 8), Ok(()));
}

#[test]
fn pages_are_planned_in_page_order_with_distinct_tags() {
    let event = DocumentCompleted {
        group_id: Some("grp_1".into()),
        data_id: Some("ignored".into()),
        pages: vec![
            page(Some(2), Some("pt://c"), &["b", "c"]),
            page(Some(0), Some("pt://a"), &["a"]),
            page(None, None, &["z"]),
            page(Some(1), Some("pt://b"), &["a", "b"]),
        ],
    };
    let plan = plan_ingest(&event).unwrap();
    assert_eq!(plan.document_id, "grp_1");
    assert_eq!(plan.text_uris, vec!["pt://a", "pt://b", "pt://c"]);
    // The page without an index sorts as index 0, after the earlier index-0 page.
    assert_eq!(plan.tags, vec!["a", "z", "b", "c"]);
}

#[test]
fn page_order_is_stable() {
    let pages = vec![page(Some(1), None, &[]), page(None, None, &[]), page(Some(0), None, &[]), page(Some(1), None, &[])];
    assert_eq!(page_order_of(&pages), vec![1, 2, 0, 3]);
}

#[test]
fn document_text_joins_pages_with_a_blank_line() {
    let texts = vec!["page one".to_string(), "page two".to_string()];
    assert_eq!(document_text(&texts).as_deref(), Some("page one\n\npage two"));
}

#[test]
fn document_records_carry_the_id() {
    let fact = document_fact(&"sum".to_string(), &vec!["t".to_string()], &"grp_1".to_string());
    assert_eq!(fact.fact, "sum");
    assert_eq!(fact.tags, Some(vec!["t".to_string()]));
    assert_eq!(fact.data_id.as_deref(), Some("grp_1"));
    let doc = document_to_place(&"grp_1".to_string(), &"sum".to_string());
    assert_eq!(doc.name, "grp_1");
    assert_eq!(doc.data_id, "grp_1");
    assert_eq!(doc.summary, "sum");
    assert_eq!(doc.provenance.source, "document.completed");
    assert_eq!(doc.provenance.confidence_permille, 1000);
}

#[test]
fn filing_a_document_places_its_leaf_and_yields_its_fact() {
    let mut repo = MemLtmStore::new();
    seed_spine(&mut repo).unwrap();
    let event = DocumentCompleted {
        group_id: Some("grp_1".into()),
        data_id: None,
        pages: vec![page(Some(0), Some("pt://archive/p0/text"), &["receipt"])],
    };
    let plan = plan_ingest(&event).unwrap();
    let placement = LtmPlacement::new();

    let wrong = file_document(&placement, &mut repo, &plan, &"s".to_string(), 4, 8, None);
    assert!(matches!(wrong, Err(MemoryError::DimensionMismatch { got: 4, expected: 8 })));
    assert_eq!(repo.node_count().unwrap(), 6);

    let (outcome, fact) = file_document(&placement, &mut repo, &plan, &"summary of grp_1".to_string(), 8, 8, None).unwrap();
    match outcome {
        IngestOutcome::Ingested { data_id, leaf_node_id, matched } => {
            assert_eq!(data_id, "grp_1");
            assert!(!matched);
            let leaf = repo.get_node_by_data_id("grp_1").unwrap().unwrap();
            assert_eq!(leaf.id, Some(leaf_node_id));
        }
        other => panic!("unexpected {other:?}"),
    }
    assert_eq!(fact.fact, "summary of grp_1");
    assert_eq!(fact.tags, Some(vec!["receipt".to_string()]));
    assert_eq!(fact.data_id.as_deref(), Some("grp_1"));
}
