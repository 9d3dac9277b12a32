use neurolithe::introspection::IntrospectionService;
use neurolithe::ltm::{Leaf, LtmRepository, Provenance, TreeEdge, TreeNode, TreeNodeKind};
use neurolithe::ltm_store::MemLtmStore;
use neurolithe::spine::seed_spine;

struct Fixture {
    svc: IntrospectionService<MemLtmStore>,
    inbox: i64,
    leaf: i64,
}

/// A doc "doc_1" as an LTM leaf under the inbox of a seeded tree.
fn fixture() -> Fixture {
    let mut ltm = MemLtmStore::new();
    seed_spine(&mut ltm).unwrap();
    let inbox = ltm.get_inbox().unwrap().unwrap().id.unwrap();
    let leaf = ltm
        .create_node(&TreeNode::new("metro", "metro doc", TreeNodeKind::Leaf))
        .unwrap();
    ltm.create_leaf(&Leaf {
        tree_node_id: leaf,
        data_id: "doc_1".into(),
        provenance: Provenance {
            source: "scanner".into(),
            ingested_at: None,
            confidence_permille: 1000,
        },
    })
    .unwrap();
    ltm.add_edge(TreeEdge::new(inbox, leaf)).unwrap();
    Fixture {
        svc: IntrospectionService::new(ltm),
        inbox,
        leaf,
    }
}

#[test]
fn test_ltm_map_and_subtree_and_inspect() {
    let f = fixture();

    let map = f.svc.ltm_map(2).unwrap();
    assert_eq!(map.len(), 1, "single root");
    assert!(!map[0].children.is_empty());

    let sub = f.svc.subtree(f.inbox, 2).unwrap().expect("inbox exists");
    assert_eq!(sub.id, f.inbox);

    let detail = f.svc.inspect_node(f.inbox).unwrap().expect("inbox exists");
    assert!(detail.children.iter().any(|c| c.id == f.leaf));
    assert_eq!(detail.leaves.len(), 1, "inbox holds the document leaf");
    assert_eq!(detail.leaves[0].data_id, "doc_1");

    assert!(f.svc.inspect_node(99999).unwrap().is_none());
}

/// trace_dataId finds the document's leaf and branch; the STM count is the
/// one the short-term store reported.
#[test]
fn test_trace_data_id_spans_both_stores() {
    let f = fixture();
    let trace = f.svc.trace_data_id("doc_1", 1).unwrap();

    assert!(trace.ltm_leaf.is_some());
    assert_eq!(trace.ltm_leaf.unwrap().id, f.leaf);
    assert!(trace.ltm_branch.iter().any(|n| n.id == f.inbox));
    assert_eq!(trace.stm_node_count, 1);

    let missing = f.svc.trace_data_id("doc_x", 0).unwrap();
    assert!(missing.ltm_leaf.is_none());
    assert_eq!(missing.stm_node_count, 0);
}

#[test]
fn inspect_lists_parents() {
    let f = fixture();
    let detail = f.svc.inspect_node(f.leaf).unwrap().unwrap();
    assert_eq!(detail.parents.len(), 1);
    assert_eq!(detail.parents[0].id, f.inbox);
    assert_eq!(detail.node.name, "metro");
}
