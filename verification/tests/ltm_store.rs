use neurolithe::error::MemoryError;
use neurolithe::ltm::{Leaf, LtmRepository, Provenance, TreeEdge, TreeNode, TreeNodeKind};
use neurolithe::ltm_store::MemLtmStore;
use neurolithe::spine::seed_spine;

fn setup() -> MemLtmStore {
    MemLtmStore::new()
}

#[test]
fn test_node_with_two_parents() {
    let mut repo = setup();
    let p1 = repo
        .create_node(&TreeNode::new("job", "", TreeNodeKind::Spine))
        .unwrap();
    let p2 = repo
        .create_node(&TreeNode::new("self-improvement", "", TreeNodeKind::Spine))
        .unwrap();
    let child = repo
        .create_node(&TreeNode::new("leadership", "", TreeNodeKind::Grown))
        .unwrap();
    repo.add_edge(TreeEdge::new(p1, child)).unwrap();
    repo.add_edge(TreeEdge::new(p2, child)).unwrap();
    // Re-adding an existing edge is a no-op.
    repo.add_edge(TreeEdge::new(p1, child)).unwrap();
    let parents = repo.get_parents(child).unwrap();
    assert_eq!(parents.len(), 2, "child has two parents");
    let parent_names: Vec<_> = parents.iter().map(|n| n.name.as_str()).collect();
    assert!(parent_names.contains(&"job"));
    assert!(parent_names.contains(&"self-improvement"));
    let p1_children = repo.get_children(p1).unwrap();
    assert_eq!(p1_children.len(), 1);
    assert_eq!(p1_children[0].name, "leadership");
    assert_eq!(p1_children[0].kind, TreeNodeKind::Grown);
}

#[test]
fn test_leaf_links_to_data_id() {
    let mut repo = setup();
    let leaf_node = repo
        .create_node(&TreeNode::new(
            "2019 PharmaCare letter",
            "health insurance",
            TreeNodeKind::Leaf,
        ))
        .unwrap();
    repo.create_leaf(&Leaf {
        tree_node_id: leaf_node,
        data_id: "doc_01HX".into(),
        provenance: Provenance {
            source: "scanner".into(),
            ingested_at: Some("2026-06-28T00:00:00Z".into()),
            confidence_permille: 900,
        },
    })
    .unwrap();
    let found = repo.get_node_by_data_id("doc_01HX").unwrap();
    assert!(found.is_some(), "leaf is found by dataId");
    let found = found.unwrap();
    assert_eq!(found.id, Some(leaf_node));
    assert_eq!(found.kind, TreeNodeKind::Leaf);
    // An unknown dataId yields nothing.
    assert!(repo.get_node_by_data_id("doc_missing").unwrap().is_none());
}

#[test]
fn test_spine_seeded_once() {
    let mut repo = setup();
    seed_spine(&mut repo).unwrap();
    // root + 4 branches + inbox = 6.
    assert_eq!(repo.node_count().unwrap(), 6);
    // Seeding again is a no-op.
    seed_spine(&mut repo).unwrap();
    assert_eq!(repo.node_count().unwrap(), 6, "spine is seeded only once");
    // The root has the four spine branches plus the inbox as children.
    let root = repo.get_node(1).unwrap().expect("root exists");
    assert_eq!(root.name, "Reza");
    assert_eq!(root.kind, TreeNodeKind::Spine);
    let children = repo.get_children(1).unwrap();
    assert_eq!(children.len(), 5);
    assert!(children.iter().any(|n| n.kind == TreeNodeKind::Inbox));
}

#[test]
fn spine_branches_and_inbox_in_order() {
    let mut repo = setup();
    seed_spine(&mut repo).unwrap();
    let names: Vec<String> = repo
        .get_children(1)
        .unwrap()
        .into_iter()
        .map(|n| n.name)
        .collect();
    assert_eq!(
        names,
        vec!["job", "learning", "investment", "self-improvement", "inbox"]
    );
    let inbox = repo.get_inbox().unwrap().expect("seeded inbox");
    assert_eq!(inbox.name, "inbox");
    assert_eq!(inbox.kind, TreeNodeKind::Inbox);
    let roots = repo.get_roots().unwrap();
    assert_eq!(roots.len(), 1);
    assert_eq!(roots[0].name, "Reza");
}

#[test]
fn created_ids_are_fresh_and_nodes_permanent() {
    let mut repo = setup();
    let a = repo.create_node(&TreeNode::new("a", "x", TreeNodeKind::Grown)).unwrap();
    let b = repo.create_node(&TreeNode::new("b", "y", TreeNodeKind::Grown)).unwrap();
    assert_ne!(a, b);
    let na = repo.get_node(a).unwrap().unwrap();
    assert_eq!(na.id, Some(a));
    assert_eq!(na.summary, "x");
    assert!(na.permanent);
    assert_eq!(repo.node_count().unwrap(), 2);
}

#[test]
fn delete_node_removes_its_edges_and_leaf_records() {
    let mut repo = setup();
    let p = repo.create_node(&TreeNode::new("p", "", TreeNodeKind::Grown)).unwrap();
    let l = repo.create_node(&TreeNode::new("l", "", TreeNodeKind::Leaf)).unwrap();
    repo.add_edge(TreeEdge::new(p, l)).unwrap();
    repo.create_leaf(&Leaf {
        tree_node_id: l,
        data_id: "doc_del".into(),
        provenance: Provenance { source: "s".into(), ingested_at: None, confidence_permille: 1000 },
    })
    .unwrap();
    repo.delete_node(l).unwrap();
    assert!(repo.get_node(l).unwrap().is_none());
    assert!(repo.get_children(p).unwrap().is_empty());
    assert!(repo.get_child_leaves(p).unwrap().is_empty());
    assert!(repo.get_node_by_data_id("doc_del").unwrap().is_none());
    assert_eq!(repo.node_count().unwrap(), 1);
}

#[test]
fn update_summary_changes_only_that_node() {
    let mut repo = setup();
    let a = repo.create_node(&TreeNode::new("a", "old", TreeNodeKind::Grown)).unwrap();
    let b = repo.create_node(&TreeNode::new("b", "keep", TreeNodeKind::Grown)).unwrap();
    repo.update_summary(a, "new").unwrap();
    assert_eq!(repo.get_node(a).unwrap().unwrap().summary, "new");
    assert_eq!(repo.get_node(a).unwrap().unwrap().name, "a");
    assert_eq!(repo.get_node(b).unwrap().unwrap().summary, "keep");
}

#[test]
fn reset_store_empties_everything() {
    let mut repo = setup();
    seed_spine(&mut repo).unwrap();
    repo.reset_store().unwrap();
    assert_eq!(repo.node_count().unwrap(), 0);
    assert!(repo.get_roots().unwrap().is_empty());
    assert!(repo.get_inbox().unwrap().is_none());
}

#[test]
fn relinking_a_leaf_replaces_its_record() {
    let mut repo = setup();
    let l = repo.create_node(&TreeNode::new("l", "", TreeNodeKind::Leaf)).unwrap();
    let p = repo.create_node(&TreeNode::new("p", "", TreeNodeKind::Grown)).unwrap();
    repo.add_edge(TreeEdge::new(p, l)).unwrap();
    let leaf = |conf: u32| Leaf {
        tree_node_id: l,
        data_id: "doc_same".into(),
        provenance: Provenance { source: "s".into(), ingested_at: None, confidence_permille: conf },
    };
    repo.create_leaf(&leaf(500)).unwrap();
    repo.create_leaf(&leaf(800)).unwrap();
    let leaves = repo.get_child_leaves(p).unwrap();
    assert_eq!(leaves.len(), 1);
    assert_eq!(leaves[0].provenance.confidence_permille, 800);
}

#[test]
fn unknown_node_error_is_comparable() {
    assert_eq!(MemoryError::UnknownNode(3), MemoryError::UnknownNode(3));
    assert_ne!(MemoryError::NoInbox, MemoryError::ResetRefused);
}

#[test]
fn edge_to_unknown_node_is_refused() {
    let mut repo = setup();
    let a = repo.create_node(&TreeNode::new("a", "", TreeNodeKind::Grown)).unwrap();
    assert_eq!(
        repo.add_edge(TreeEdge::new(a, 42)),
        Err(MemoryError::UnknownNode(42))
    );
    assert!(repo.get_children(a).unwrap().is_empty());
}

#[test]
fn ids_increase_from_one_and_are_never_reused() {
    let mut repo = setup();
    let a = repo.create_node(&TreeNode::new("a", "", TreeNodeKind::Spine)).unwrap();
    let b = repo.create_node(&TreeNode::new("b", "", TreeNodeKind::Spine)).unwrap();
    assert_eq!((a, b), (1, 2));
    repo.delete_node(b).unwrap();
    let c = repo.create_node(&TreeNode::new("c", "", TreeNodeKind::Spine)).unwrap();
    assert_eq!(c, 3);
}

#[test]
fn seeded_root_is_the_first_id() {
    let mut repo = setup();
    seed_spine(&mut repo).unwrap();
    let roots = repo.get_roots().unwrap();
    assert_eq!(roots.len(), 1);
    assert_eq!(roots[0].id, Some(1));
    assert_eq!(roots[0].name, "Reza");
}
