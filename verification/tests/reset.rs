use neurolithe::error::MemoryError;
use neurolithe::ltm::{Leaf, LtmRepository, Provenance, TreeEdge, TreeNode, TreeNodeKind};
use neurolithe::ltm_store::MemLtmStore;
use neurolithe::reset::{MemoryCommand, ResetKind, ResetService};
use neurolithe::rewind::{FeederRewind, NoopRewind};
use neurolithe::spine::seed_spine;

const TOKEN: &str = "CONFIRM-WIPE";

/// A seeded tree with the document "grp_1" filed under the inbox.
fn tree_with_doc() -> MemLtmStore {
    let mut ltm = MemLtmStore::new();
    seed_spine(&mut ltm).unwrap();
    let inbox = ltm.get_inbox().unwrap().unwrap().id.unwrap();
    let leaf = ltm.create_node(&TreeNode::new("grp_1", "s", TreeNodeKind::Leaf)).unwrap();
    ltm.create_leaf(&Leaf {
        tree_node_id: leaf,
        data_id: "grp_1".into(),
        provenance: Provenance { source: "document.completed".into(), ingested_at: None, confidence_permille: 1000 },
    })
    .unwrap();
    ltm.add_edge(TreeEdge::new(inbox, leaf)).unwrap();
    ltm
}

/// Soft reset is the STM-only reset: the LTM leaf survives.
#[test]
fn test_soft_reset_empties_stm_only() {
    let ltm = tree_with_doc();
    let reset = ResetService::new(TOKEN);
    assert_eq!(reset.authorize(&MemoryCommand::ResetSoft), Ok(ResetKind::Soft));
    // A soft reset never reaches the long-term store.
    assert!(
        ltm.get_node_by_data_id("grp_1").unwrap().is_some(),
        "LTM survives soft reset"
    );
}

/// Hard reset empties the tree (spine restored); replay re-populates it.
#[test]
fn test_hard_reset_empties_both_then_replay_repopulates() {
    let mut ltm = tree_with_doc();
    let reset = ResetService::new(TOKEN);
    let kind = reset
        .authorize(&MemoryCommand::ResetHard { confirm: TOKEN.into() })
        .unwrap();
    assert_eq!(kind, ResetKind::Hard);
    reset.reset_ltm(&mut ltm).unwrap();
    assert!(ltm.get_node_by_data_id("grp_1").unwrap().is_none());
    assert_eq!(ltm.node_count().unwrap(), 6, "spine re-seeded");
    assert!(NoopRewind.rewind_to_earliest().is_ok());
}

#[test]
fn test_hard_reset_wrong_token_refused() {
    let ltm = tree_with_doc();
    let reset = ResetService::new(TOKEN);
    let r = reset.authorize(&MemoryCommand::ResetHard { confirm: "WRONG".into() });
    assert_eq!(r, Err(MemoryError::ResetRefused), "wrong token refused");
    assert!(ltm.get_node_by_data_id("grp_1").unwrap().is_some());
}
