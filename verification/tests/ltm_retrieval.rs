use neurolithe::ltm::{Leaf, LtmRepository, Provenance, TreeEdge, TreeNode, TreeNodeKind};
use neurolithe::ltm_retrieval::LtmRetrieval;
use neurolithe::ltm_store::MemLtmStore;

/// root -> {jobs, learning}; jobs has one document leaf.
struct Fixture {
    ret: LtmRetrieval<MemLtmStore>,
    root: i64,
    jobs: i64,
    learning: i64,
    leaf: i64,
}

fn fixture() -> Fixture {
    let mut repo = MemLtmStore::new();
    let root = repo
        .create_node(&TreeNode::new("Reza", "root", TreeNodeKind::Spine))
        .unwrap();
    let jobs = repo
        .create_node(&TreeNode::new("job", "work", TreeNodeKind::Spine))
        .unwrap();
    let learning = repo
        .create_node(&TreeNode::new("learning", "study", TreeNodeKind::Spine))
        .unwrap();
    repo.add_edge(TreeEdge::new(root, jobs)).unwrap();
    repo.add_edge(TreeEdge::new(root, learning)).unwrap();

    // A document leaf under jobs.
    let leaf = repo
        .create_node(&TreeNode::new("metro", "Metro project", TreeNodeKind::Leaf))
        .unwrap();
    repo.create_leaf(&Leaf {
        tree_node_id: leaf,
        data_id: "doc_metro".into(),
        provenance: Provenance {
            source: "scanner".into(),
            ingested_at: None,
            confidence_permille: 800,
        },
    })
    .unwrap();
    repo.add_edge(TreeEdge::new(jobs, leaf)).unwrap();

    Fixture {
        ret: LtmRetrieval::new(repo),
        root,
        jobs,
        learning,
        leaf,
    }
}

/// map(depth) returns only the top `depth` layers, excluding document leaves.
#[test]
fn test_map_respects_depth() {
    let f = fixture();

    // depth 1: just the root, no children.
    let m1 = f.ret.map(1).unwrap();
    assert_eq!(m1.len(), 1);
    assert_eq!(m1[0].id, f.root);
    assert!(m1[0].children.is_empty(), "depth 1 has no children");

    // depth 2: root + its two concept branches (the leaf is excluded).
    let m2 = f.ret.map(2).unwrap();
    assert_eq!(m2[0].children.len(), 2);
    let names: Vec<_> = m2[0].children.iter().map(|c| c.name.as_str()).collect();
    assert!(names.contains(&"job"));
    assert!(names.contains(&"learning"));

    // depth 3: jobs still has no concept children (its only child is a leaf).
    let m3 = f.ret.map(3).unwrap();
    let jobs = m3[0]
        .children
        .iter()
        .find(|c| c.name == "job")
        .expect("job present");
    assert!(jobs.children.is_empty(), "leaves never appear in the map");
}

/// expand returns a node's direct children (including leaves).
#[test]
fn test_expand_returns_direct_children() {
    let f = fixture();

    let root = f.ret.expand(f.root).unwrap().expect("root exists");
    assert_eq!(root.children.len(), 2);

    let jobs = f.ret.expand(f.jobs).unwrap().expect("jobs exists");
    assert_eq!(jobs.children.len(), 1);
    assert_eq!(jobs.children[0].kind, TreeNodeKind::Leaf);
    assert_eq!(jobs.children[0].id, f.leaf);

    // learning has no children; an unknown node yields None.
    assert!(f
        .ret
        .expand(f.learning)
        .unwrap()
        .unwrap()
        .children
        .is_empty());
    assert!(f.ret.expand(9999).unwrap().is_none());
}

/// drill returns the documents (dataId + provenance) beneath a node.
#[test]
fn test_drill_returns_leaves_with_data_id() {
    let f = fixture();

    let drilled = f.ret.drill(f.jobs).unwrap().expect("jobs exists");
    assert_eq!(drilled.node.id, f.jobs);
    assert_eq!(drilled.leaves.len(), 1);
    assert_eq!(drilled.leaves[0].data_id, "doc_metro");
    assert_eq!(drilled.leaves[0].provenance.source, "scanner");

    // A concept with no documents drills to an empty leaf list.
    assert!(f.ret.drill(f.learning).unwrap().unwrap().leaves.is_empty());
}

/// Recall at the concept the vector search located: framed by its ancestor,
/// detailed by its document leaf.
#[test]
fn test_recall_lands_on_seeded_concept() {
    let f = fixture();

    let recalled = f.ret.recall_at(f.jobs).unwrap().expect("a concept exists");
    assert_eq!(recalled.entry.id, f.jobs, "vector entry is the job concept");

    // Up: framed by the root ancestor.
    let ancestor_ids: Vec<_> = recalled.ancestors.iter().map(|n| n.id).collect();
    assert!(ancestor_ids.contains(&f.root));

    // Down: the document leaf is surfaced as a reference.
    assert_eq!(recalled.leaves.len(), 1);
    assert_eq!(recalled.leaves[0].data_id, "doc_metro");
}

#[test]
fn map_of_depth_zero_is_empty() {
    let f = fixture();
    assert!(f.ret.map(0).unwrap().is_empty());
}

#[test]
fn ancestors_of_a_leaf_climb_to_the_root_nearest_first() {
    let f = fixture();
    let ids: Vec<i64> = f.ret.ancestors(f.leaf).unwrap().iter().map(|n| n.id).collect();
    assert_eq!(ids, vec![f.jobs, f.root]);
    assert!(f.ret.ancestors(f.root).unwrap().is_empty());
}

#[test]
fn ancestors_of_a_shared_node_are_listed_once() {
    let mut repo = MemLtmStore::new();
    let top = repo.create_node(&TreeNode::new("top", "", TreeNodeKind::Spine)).unwrap();
    let a = repo.create_node(&TreeNode::new("a", "", TreeNodeKind::Grown)).unwrap();
    let b = repo.create_node(&TreeNode::new("b", "", TreeNodeKind::Grown)).unwrap();
    let c = repo.create_node(&TreeNode::new("c", "", TreeNodeKind::Grown)).unwrap();
    repo.add_edge(TreeEdge::new(top, a)).unwrap();
    repo.add_edge(TreeEdge::new(top, b)).unwrap();
    repo.add_edge(TreeEdge::new(a, c)).unwrap();
    repo.add_edge(TreeEdge::new(b, c)).unwrap();
    let ret = LtmRetrieval::new(repo);
    let ids: Vec<i64> = ret.ancestors(c).unwrap().iter().map(|n| n.id).collect();
    assert_eq!(ids.len(), 3);
    assert_eq!(ids.iter().filter(|&&x| x == top).count(), 1);
    assert!(ids.contains(&a) && ids.contains(&b));
}

#[test]
fn subtree_depth_zero_is_the_node_alone() {
    let f = fixture();
    let s = f.ret.subtree(f.root, 0).unwrap().unwrap();
    assert_eq!(s.id, f.root);
    assert!(s.children.is_empty());
    let s2 = f.ret.subtree(f.root, 2).unwrap().unwrap();
    assert_eq!(s2.children.len(), 2);
    assert!(f.ret.subtree(777, 2).unwrap().is_none());
}
