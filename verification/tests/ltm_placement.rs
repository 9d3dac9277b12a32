use neurolithe::ltm::{LtmRepository, Provenance, TreeEdge, TreeNode, TreeNodeKind};
use neurolithe::ltm_placement::{DocumentToPlace, LtmPlacement, DEFAULT_MAX_SUMMARY_LEN};
use neurolithe::ltm_store::MemLtmStore;
use neurolithe::error::MemoryError;

fn provenance() -> Provenance {
    Provenance {
        source: "test".into(),
        ingested_at: None,
        confidence_permille: 1000,
    }
}

/// A tree with root -> "job" (a concept) and an inbox.
struct Fixture {
    svc: LtmPlacement,
    repo: MemLtmStore,
    root: i64,
    concept: i64,
    inbox: i64,
}

fn fixture() -> Fixture {
    let mut repo = MemLtmStore::new();
    let root = repo
        .create_node(&TreeNode::new("Reza", "root seed", TreeNodeKind::Spine))
        .unwrap();
    let concept = repo
        .create_node(&TreeNode::new("job", "job seed", TreeNodeKind::Spine))
        .unwrap();
    repo.add_edge(TreeEdge::new(root, concept)).unwrap();
    let inbox = repo
        .create_node(&TreeNode::new("inbox", "", TreeNodeKind::Inbox))
        .unwrap();
    repo.add_edge(TreeEdge::new(root, inbox)).unwrap();
    Fixture {
        svc: LtmPlacement::new(),
        repo,
        root,
        concept,
        inbox,
    }
}

fn doc(name: &str, summary: &str, data_id: &str) -> DocumentToPlace {
    DocumentToPlace {
        name: name.into(),
        summary: summary.into(),
        data_id: data_id.into(),
        provenance: provenance(),
    }
}

/// A document whose embedding matches a concept (the vector search found it
/// within the threshold) attaches under that concept.
#[test]
fn test_high_similarity_attaches_under_match() {
    let mut f = fixture();
    let d = doc("metro project", "BestBuy project Metro notes", "doc_metro");
    let placement = f.svc.place(&mut f.repo, &d, Some(f.concept)).unwrap();
    assert!(placement.matched, "should match the concept");
    assert_eq!(placement.parent_id, f.concept);

    let parents = f.repo.get_parents(placement.leaf_node_id).unwrap();
    assert_eq!(parents.len(), 1);
    assert_eq!(parents[0].id, Some(f.concept));
}

/// A document with no nearby concept falls to the inbox.
#[test]
fn test_low_similarity_falls_to_inbox() {
    let mut f = fixture();
    let d = doc("stray", "unrelated content", "doc_stray");
    let placement = f.svc.place(&mut f.repo, &d, None).unwrap();
    assert!(!placement.matched, "should not match");
    assert_eq!(placement.parent_id, f.inbox);
}

/// After attaching, the parent concept and its ancestor (root) summaries
/// roll up to include the new document.
#[test]
fn test_ancestor_summaries_roll_up_on_attach() {
    let mut f = fixture();
    let d = doc("metro", "Metro rollout", "doc_metro");
    f.svc.place(&mut f.repo, &d, Some(f.concept)).unwrap();

    let concept = f.repo.get_node(f.concept).unwrap().unwrap();
    assert!(
        concept.summary.contains("Metro rollout"),
        "concept rolled up: {:?}",
        concept.summary
    );
    let root = f.repo.get_node(f.root).unwrap().unwrap();
    assert!(
        root.summary.contains("Metro rollout"),
        "root rolled up: {:?}",
        root.summary
    );
}

/// Forgetting a dataId removes its leaf and re-rolls the ancestors so the
/// document no longer appears in their summaries.
#[test]
fn test_forget_removes_leaf_and_rerolls() {
    let mut f = fixture();
    let d = doc("metro", "Metro rollout", "doc_metro");
    let placement = f.svc.place(&mut f.repo, &d, Some(f.concept)).unwrap();

    let removed = f.svc.forget(&mut f.repo, "doc_metro").unwrap();
    assert!(removed, "document was present");

    // Leaf is gone from the tree and from the dataId index.
    assert!(f.repo.get_node(placement.leaf_node_id).unwrap().is_none());
    assert!(f.repo.get_node_by_data_id("doc_metro").unwrap().is_none());

    // Ancestors re-rolled: the document's summary no longer appears.
    let concept = f.repo.get_node(f.concept).unwrap().unwrap();
    assert!(
        !concept.summary.contains("Metro rollout"),
        "concept re-rolled: {:?}",
        concept.summary
    );
    let root = f.repo.get_node(f.root).unwrap().unwrap();
    assert!(!root.summary.contains("Metro rollout"));

    // Forgetting an unknown dataId is a no-op false.
    assert!(!f.svc.forget(&mut f.repo, "doc_unknown").unwrap());
}

/// A second document like the first still routes to the concept.
#[test]
fn test_second_similar_doc_still_matches_concept() {
    let mut f = fixture();
    let make = |data_id: &str| doc("metro", &format!("Metro rollout {data_id}"), data_id);

    let first = f.svc.place(&mut f.repo, &make("doc_1"), Some(f.concept)).unwrap();
    assert!(first.matched);
    assert_eq!(first.parent_id, f.concept);

    let second = f.svc.place(&mut f.repo, &make("doc_2"), Some(f.concept)).unwrap();
    assert!(second.matched, "second similar doc must still match");
    assert_eq!(
        second.parent_id, f.concept,
        "second doc must not fall to the inbox"
    );

    // Both leaves now hang under the concept.
    let children = f.repo.get_children(f.concept).unwrap();
    assert_eq!(children.len(), 2);
}

#[test]
fn rolled_summary_joins_children_in_order() {
    let mut f = fixture();
    f.svc.place(&mut f.repo, &doc("a", "first doc", "doc_a"), Some(f.concept)).unwrap();
    f.svc.place(&mut f.repo, &doc("b", "second doc", "doc_b"), Some(f.concept)).unwrap();
    let concept = f.repo.get_node(f.concept).unwrap().unwrap();
    assert_eq!(concept.summary, "first doc; second doc");
    // The root rolls its children: the concept, and the blank inbox (skipped).
    let root = f.repo.get_node(f.root).unwrap().unwrap();
    assert_eq!(root.summary, "first doc; second doc");
}

#[test]
fn rolled_summary_is_condensed_to_the_cap() {
    let mut f = fixture();
    let svc = LtmPlacement { max_summary_len: 10 };
    svc.place(&mut f.repo, &doc("a", "abcdefghijklmnop", "doc_a"), Some(f.concept)).unwrap();
    let concept = f.repo.get_node(f.concept).unwrap().unwrap();
    assert_eq!(concept.summary, "abcdefghi…");
    assert_eq!(concept.summary.chars().count(), 10);
    assert_eq!(DEFAULT_MAX_SUMMARY_LEN, 600);
}

#[test]
fn placing_without_match_or_inbox_is_refused() {
    let mut repo = MemLtmStore::new();
    repo.create_node(&TreeNode::new("Reza", "", TreeNodeKind::Spine)).unwrap();
    let svc = LtmPlacement::new();
    let r = svc.place(&mut repo, &doc("x", "y", "doc_x"), None);
    assert_eq!(r.map(|p| p.leaf_node_id), Err(MemoryError::NoInbox));
    assert_eq!(repo.node_count().unwrap(), 1);
}

#[test]
fn placed_leaf_is_found_by_data_id() {
    let mut f = fixture();
    let p = f.svc.place(&mut f.repo, &doc("metro", "m", "doc_m"), None).unwrap();
    let found = f.repo.get_node_by_data_id("doc_m").unwrap().unwrap();
    assert_eq!(found.id, Some(p.leaf_node_id));
    assert_eq!(found.kind, TreeNodeKind::Leaf);
    assert_eq!(found.name, "metro");
}
