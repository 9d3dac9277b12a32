//! The curated spine of the knowledge tree: a root, the main branches, and an
//! inbox for documents that find no concept.
use vstd::prelude::*;
use crate::error::MemoryError;
use crate::ltm::{LtmRepository, TreeEdge, TreeModel, TreeNode, TreeNodeKind};

verus! {

/// `n` is a permanent node with the given name, summary and kind.
pub open spec fn node_is(n: TreeNode, name: Seq<char>, summary: Seq<char>, kind: TreeNodeKind) -> bool {
    n.name@ == name && n.summary@ == summary && n.kind == kind && n.permanent
}

/// The edge from the root (first node) to the node at `k`.
pub open spec fn root_edge(m: TreeModel, k: int) -> TreeEdge {
    TreeEdge { parent_id: m.nodes[0].id->0, child_id: m.nodes[k].id->0 }
}

/// The name of the `j`-th spine node (root, four branches, inbox).
pub open spec fn spine_name(j: int) -> Seq<char> {
    if j == 0 {
        "Reza"@
    } else if j == 1 {
        "job"@
    } else if j == 2 {
        "learning"@
    } else if j == 3 {
        "investment"@
    } else if j == 4 {
        "self-improvement"@
    } else {
        "inbox"@
    }
}

/// The seeded summary of the `j`-th spine node.
pub open spec fn spine_summary(j: int) -> Seq<char> {
    if j == 0 {
        "Root of the personal knowledge tree."@
    } else if j == 1 {
        "Work, employer, projects, and career."@
    } else if j == 2 {
        "Study, courses, skills, and reading."@
    } else if j == 3 {
        "Finances, investing, and assets."@
    } else if j == 4 {
        "Health, habits, mindset, and personal growth."@
    } else {
        "Unsorted documents awaiting placement."@
    }
}

/// The kind of the `j`-th spine node.
pub open spec fn spine_kind(j: int) -> TreeNodeKind {
    if j == 5 {
        TreeNodeKind::Inbox
    } else {
        TreeNodeKind::Spine
    }
}

/// The first `k` nodes of `m` are the first `k` spine nodes.
pub open spec fn spine_prefix(m: TreeModel, k: int) -> bool {
    forall|j: int| 0 <= j < k ==> node_is(#[trigger] m.nodes[j], spine_name(j), spine_summary(j), spine_kind(j))
}

/// `m` holds exactly the seeded spine: the root, the four main branches and the
/// inbox, each branch and the inbox a child of the root.
pub open spec fn spine_seeded(m: TreeModel) -> bool {
    &&& m.nodes.len() == 6
    &&& m.leaves.len() == 0
    &&& spine_prefix(m, 6)
    &&& m.edges == seq![root_edge(m, 1), root_edge(m, 2), root_edge(m, 3), root_edge(m, 4), root_edge(m, 5)]
}

proof fn lemma_extend(prev: TreeModel, cur: TreeModel, k: int)
    requires
        prev.nodes.len() == k,
        spine_prefix(prev, k),
        cur.nodes == prev.nodes.push(cur.nodes.last()),
        node_is(cur.nodes.last(), spine_name(k), spine_summary(k), spine_kind(k)),
    ensures
        spine_prefix(cur, k + 1),
{
    assert forall|j: int| 0 <= j < k + 1 implies node_is(#[trigger] cur.nodes[j], spine_name(j), spine_summary(j), spine_kind(j)) by {
        if j < k {
            assert(cur.nodes[j] == prev.nodes[j]);
        }
    }
}

/// Creates a node and returns its id.
fn add_node<R: LtmRepository>(repo: &mut R, name: &str, summary: &str, kind: TreeNodeKind) -> (r: Result<i64, MemoryError>)
    requires
        old(repo).inv(),
    ensures
        final(repo).inv(),
        r matches Ok(id) ==> {
            &&& !old(repo).model().has_node(id)
            &&& final(repo).model().nodes == old(repo).model().nodes.push(final(repo).model().nodes.last())
            &&& final(repo).model().nodes.last().id == Some(id)
            &&& node_is(final(repo).model().nodes.last(), name@, summary@, kind)
            &&& final(repo).model().edges == old(repo).model().edges
            &&& final(repo).model().leaves == old(repo).model().leaves
        },
        old(repo).reliable() && old(repo).ids_left() > 0 ==> r is Ok,
        final(repo).reliable() == old(repo).reliable(),
        final(repo).ids_left() + 1 >= old(repo).ids_left(),
{
    let node = TreeNode::new(name, summary, kind);
    let id = repo.create_node(&node)?;
    proof {
        let after = repo.model();
        assert(after.nodes =~= after.nodes.drop_last().push(after.nodes.last()));
    }
    Ok(id)
}

/// Links `child` under `parent`, where no edge into `child` exists yet.
fn link<R: LtmRepository>(repo: &mut R, parent: i64, child: i64) -> (r: Result<(), MemoryError>)
    requires
        old(repo).inv(),
        forall|i: int| 0 <= i < old(repo).model().edges.len() ==> (#[trigger] old(repo).model().edges[i]).child_id != child,
    ensures
        final(repo).inv(),
        r is Ok ==> final(repo).model() == (TreeModel {
            edges: old(repo).model().edges.push(TreeEdge { parent_id: parent, child_id: child }),
            ..old(repo).model()
        }),
        old(repo).reliable() && old(repo).model().has_node(parent) && old(repo).model().has_node(child)
            ==> r is Ok,
        final(repo).reliable() == old(repo).reliable(),
        final(repo).ids_left() >= old(repo).ids_left(),
{
    let ghost m = repo.model();
    repo.add_edge(TreeEdge::new(parent, child))?;
    proof {
        assert(!m.edges.contains(TreeEdge { parent_id: parent, child_id: child }));
    }
    Ok(())
}

/// `after` is what seeding makes of `before`: an empty tree gets the spine,
/// a tree that already has nodes stays as it is.
pub open spec fn seeded_from(before: TreeModel, after: TreeModel) -> bool {
    if before.nodes.len() > 0 {
        after == before
    } else {
        spine_seeded(after)
    }
}

/// Seeds the curated spine once: a no-op when the tree already has nodes.
pub fn seed_spine<R: LtmRepository>(repo: &mut R) -> (r: Result<(), MemoryError>)
    requires
        old(repo).inv(),
    ensures
        final(repo).inv(),
        r is Ok ==> seeded_from(old(repo).model(), final(repo).model()),
        old(repo).reliable() && (old(repo).model().nodes.len() > 0 || old(repo).ids_left() >= 6)
            ==> r is Ok,
        final(repo).reliable() == old(repo).reliable(),
        final(repo).ids_left() + 6 >= old(repo).ids_left(),
{
    let existing = repo.node_count()?;
    if existing > 0 {
        return Ok(());
    }
    let ghost m0 = repo.model();
    proof {
        repo.lemma_inv_wf();
        assert(m0.edges.len() == 0) by {
            if m0.edges.len() > 0 {
                assert(m0.has_node(m0.edges[0].parent_id));
            }
        }
        assert(m0.leaves.len() == 0) by {
            if m0.leaves.len() > 0 {
                assert(m0.has_node(m0.leaves[0].tree_node_id));
            }
        }
    }
    let root = add_node(repo, "Reza", "Root of the personal knowledge tree.", TreeNodeKind::Spine)?;
    let ghost a0 = repo.model();
    proof {
        lemma_extend(m0, a0, 0);
    }
    let b1 = add_node(repo, "job", "Work, employer, projects, and career.", TreeNodeKind::Spine)?;
    let ghost a1 = repo.model();
    proof {
        lemma_extend(a0, a1, 1);
    }
    proof {
        assert(repo.model().nodes[0].id == Some(root));
        assert(repo.model().nodes[1].id == Some(b1));
    }
    link(repo, root, b1)?;
    let ghost m1 = repo.model();
    proof { repo.lemma_inv_wf(); }
    let b2 = add_node(repo, "learning", "Study, courses, skills, and reading.", TreeNodeKind::Spine)?;
    let ghost a2 = repo.model();
    proof {
        assert(b2 != b1) by { assert(m1.nodes[1].id == Some(b1)); }
        lemma_extend(m1, a2, 2);
    }
    proof {
        assert(repo.model().nodes[0].id == Some(root));
        assert(repo.model().nodes[2].id == Some(b2));
    }
    link(repo, root, b2)?;
    let ghost m2 = repo.model();
    proof { repo.lemma_inv_wf(); }
    let b3 = add_node(repo, "investment", "Finances, investing, and assets.", TreeNodeKind::Spine)?;
    let ghost a3 = repo.model();
    proof {
        assert(b3 != b1) by { assert(m2.nodes[1].id == Some(b1)); }
        assert(b3 != b2) by { assert(m2.nodes[2].id == Some(b2)); }
        lemma_extend(m2, a3, 3);
    }
    proof {
        assert(repo.model().nodes[0].id == Some(root));
        assert(repo.model().nodes[3].id == Some(b3));
    }
    link(repo, root, b3)?;
    let ghost m3 = repo.model();
    proof { repo.lemma_inv_wf(); }
    let b4 = add_node(
        repo,
        "self-improvement",
        "Health, habits, mindset, and personal growth.",
        TreeNodeKind::Spine,
    )?;
    let ghost a4 = repo.model();
    proof {
        assert(b4 != b1) by { assert(m3.nodes[1].id == Some(b1)); }
        assert(b4 != b2) by { assert(m3.nodes[2].id == Some(b2)); }
        assert(b4 != b3) by { assert(m3.nodes[3].id == Some(b3)); }
        lemma_extend(m3, a4, 4);
    }
    proof {
        assert(repo.model().nodes[0].id == Some(root));
        assert(repo.model().nodes[4].id == Some(b4));
    }
    link(repo, root, b4)?;
    let ghost m4 = repo.model();
    proof { repo.lemma_inv_wf(); }
    let inbox = add_node(repo, "inbox", "Unsorted documents awaiting placement.", TreeNodeKind::Inbox)?;
    let ghost a5 = repo.model();
    proof {
        assert(inbox != b1) by { assert(m4.nodes[1].id == Some(b1)); }
        assert(inbox != b2) by { assert(m4.nodes[2].id == Some(b2)); }
        assert(inbox != b3) by { assert(m4.nodes[3].id == Some(b3)); }
        assert(inbox != b4) by { assert(m4.nodes[4].id == Some(b4)); }
        lemma_extend(m4, a5, 5);
    }
    proof {
        assert(repo.model().nodes[0].id == Some(root));
        assert(repo.model().nodes[5].id == Some(inbox));
    }
    link(repo, root, inbox)?;
    proof {
        let m = repo.model();
        assert(m.nodes == a5.nodes);
        assert(m.nodes[0].id == Some(root));
        assert(m.nodes[1].id == Some(b1));
        assert(m.nodes[2].id == Some(b2));
        assert(m.nodes[3].id == Some(b3));
        assert(m.nodes[4].id == Some(b4));
        assert(m.nodes[5].id == Some(inbox));
        assert(m.edges =~= seq![root_edge(m, 1), root_edge(m, 2), root_edge(m, 3), root_edge(m, 4), root_edge(m, 5)]);
    }
    Ok(())
}

} // verus!
