//! The long-term memory (LTM) knowledge tree: its records, its mathematical
//! model, and the repository port every tree store implements.
use vstd::prelude::*;
use crate::error::MemoryError;
use crate::text::{copy_opt_string, copy_string, owned};

verus! {

/// What role a tree node plays.
#[derive(Debug, Clone, Copy, PartialEq, Eq, Structural)]
pub enum TreeNodeKind {
    /// A curated backbone branch (seeded once).
    Spine,
    /// A concept grown by the system.
    Grown,
    /// A document leaf (points at a `dataId`).
    Leaf,
    /// The holding area for documents without a concept match.
    Inbox,
}

/// A concept or document node of the knowledge tree.
#[derive(Debug)]
pub struct TreeNode {
    pub id: Option<i64>,
    pub name: String,
    pub summary: String,
    pub kind: TreeNodeKind,
    /// LTM never decays: always true for stored nodes.
    pub permanent: bool,
    pub created_at: Option<String>,
    pub updated_at: Option<String>,
}

impl Clone for TreeNode {
    fn clone(&self) -> (r: Self)
        ensures
            r == *self,
    {
        TreeNode {
            id: self.id,
            name: copy_string(&self.name),
            summary: copy_string(&self.summary),
            kind: self.kind,
            permanent: self.permanent,
            created_at: copy_opt_string(&self.created_at),
            updated_at: copy_opt_string(&self.updated_at),
        }
    }
}

impl TreeNode {
    /// A new, not yet stored, permanent node.
    pub fn new(name: &str, summary: &str, kind: TreeNodeKind) -> (r: TreeNode)
        ensures
            r.id is None,
            r.name@ == name@,
            r.summary@ == summary@,
            r.kind == kind,
            r.permanent,
            r.created_at is None,
            r.updated_at is None,
    {
        TreeNode {
            id: None,
            name: owned(name),
            summary: owned(summary),
            kind,
            permanent: true,
            created_at: None,
            updated_at: None,
        }
    }
}

/// A parent -> child edge of the tree (a DAG: a node may have many parents).
#[derive(Debug, Clone, Copy, PartialEq, Eq, Structural)]
pub struct TreeEdge {
    pub parent_id: i64,
    pub child_id: i64,
}

impl TreeEdge {
    pub fn new(parent_id: i64, child_id: i64) -> (r: TreeEdge)
        ensures
            r.parent_id == parent_id,
            r.child_id == child_id,
    {
        TreeEdge { parent_id, child_id }
    }
}

/// Where a document came from. Confidence is in thousandths (1000 = certain).
#[derive(Debug)]
pub struct Provenance {
    pub source: String,
    pub ingested_at: Option<String>,
    pub confidence_permille: u32,
}

impl Clone for Provenance {
    fn clone(&self) -> (r: Self)
        ensures
            r == *self,
    {
        Provenance {
            source: copy_string(&self.source),
            ingested_at: copy_opt_string(&self.ingested_at),
            confidence_permille: self.confidence_permille,
        }
    }
}

/// A document leaf: a tree node pointing at an archive `dataId`.
#[derive(Debug)]
pub struct Leaf {
    pub tree_node_id: i64,
    pub data_id: String,
    pub provenance: Provenance,
}

impl Clone for Leaf {
    fn clone(&self) -> (r: Self)
        ensures
            r == *self,
    {
        Leaf {
            tree_node_id: self.tree_node_id,
            data_id: copy_string(&self.data_id),
            provenance: self.provenance.clone(),
        }
    }
}

/// The first node with id `id`.
pub open spec fn find_node(nodes: Seq<TreeNode>, id: i64) -> Option<TreeNode>
    decreases nodes.len(),
{
    if nodes.len() == 0 {
        None
    } else if nodes[0].id == Some(id) {
        Some(nodes[0])
    } else {
        find_node(nodes.drop_first(), id)
    }
}

/// The first inbox node.
pub open spec fn find_inbox(nodes: Seq<TreeNode>) -> Option<TreeNode>
    decreases nodes.len(),
{
    if nodes.len() == 0 {
        None
    } else if nodes[0].kind == TreeNodeKind::Inbox {
        Some(nodes[0])
    } else {
        find_inbox(nodes.drop_first())
    }
}

/// The first leaf record pointing at `data_id`.
pub open spec fn find_leaf(leaves: Seq<Leaf>, data_id: Seq<char>) -> Option<Leaf>
    decreases leaves.len(),
{
    if leaves.len() == 0 {
        None
    } else if leaves[0].data_id@ == data_id {
        Some(leaves[0])
    } else {
        find_leaf(leaves.drop_first(), data_id)
    }
}

/// Two leaf records share a key: the same node and the same `dataId`.
pub open spec fn same_leaf_key(a: Leaf, b: Leaf) -> bool {
    a.tree_node_id == b.tree_node_id && a.data_id@ == b.data_id@
}

/// `leaves` after inserting `leaf`, replacing the first record with its key.
pub open spec fn upsert_leaf(leaves: Seq<Leaf>, leaf: Leaf) -> Seq<Leaf>
    decreases leaves.len(),
{
    if leaves.len() == 0 {
        seq![leaf]
    } else if same_leaf_key(leaves[0], leaf) {
        leaves.update(0, leaf)
    } else {
        seq![leaves[0]] + upsert_leaf(leaves.drop_first(), leaf)
    }
}

/// `stored` is `node` as a store keeps it under `id`: the same content,
/// with store-assigned timestamps.
pub open spec fn stored_as(stored: TreeNode, node: TreeNode, id: i64) -> bool {
    &&& stored.id == Some(id)
    &&& stored.name == node.name
    &&& stored.summary == node.summary
    &&& stored.kind == node.kind
    &&& stored.permanent == node.permanent
}

/// `b` is `a` with only its summary (and update time) possibly changed.
pub open spec fn same_but_summary(a: TreeNode, b: TreeNode) -> bool {
    &&& a.id == b.id
    &&& a.name == b.name
    &&& a.kind == b.kind
    &&& a.permanent == b.permanent
    &&& a.created_at == b.created_at
}

/// The abstract content of an LTM store.
pub struct TreeModel {
    /// Nodes in creation order.
    pub nodes: Seq<TreeNode>,
    /// Parent -> child edges in creation order.
    pub edges: Seq<TreeEdge>,
    /// Document leaf records in creation order.
    pub leaves: Seq<Leaf>,
}

impl TreeModel {
    pub open spec fn empty() -> TreeModel {
        TreeModel { nodes: Seq::empty(), edges: Seq::empty(), leaves: Seq::empty() }
    }

    pub open spec fn has_node(self, id: i64) -> bool {
        exists|i: int| 0 <= i < self.nodes.len() && #[trigger] self.nodes[i].id == Some(id)
    }

    pub open spec fn has_edge(self, parent_id: i64, child_id: i64) -> bool {
        self.edges.contains(TreeEdge { parent_id, child_id })
    }

    pub open spec fn has_parent(self, child_id: i64) -> bool {
        exists|i: int| 0 <= i < self.edges.len() && #[trigger] self.edges[i].child_id == child_id
    }

    /// Every node is stored under a distinct id; edges and leaves point at stored nodes.
    pub open spec fn wf(self) -> bool {
        &&& forall|i: int| 0 <= i < self.nodes.len() ==> (#[trigger] self.nodes[i]).id is Some
        &&& forall|i: int, j: int|
            0 <= i < j < self.nodes.len() ==> (#[trigger] self.nodes[i]).id != (#[trigger] self.nodes[j]).id
        &&& forall|i: int|
            0 <= i < self.edges.len() ==> self.has_node((#[trigger] self.edges[i]).parent_id)
                && self.has_node(self.edges[i].child_id)
        &&& forall|i: int|
            0 <= i < self.leaves.len() ==> self.has_node((#[trigger] self.leaves[i]).tree_node_id)
    }

    pub open spec fn node(self, id: i64) -> Option<TreeNode> {
        find_node(self.nodes, id)
    }

    pub open spec fn is_child_of(self, parent_id: i64) -> spec_fn(TreeNode) -> bool {
        |n: TreeNode| n.id is Some && self.has_edge(parent_id, n.id->0)
    }

    pub open spec fn is_parent_of(self, child_id: i64) -> spec_fn(TreeNode) -> bool {
        |n: TreeNode| n.id is Some && self.has_edge(n.id->0, child_id)
    }

    pub open spec fn is_root(self) -> spec_fn(TreeNode) -> bool {
        |n: TreeNode| n.id is Some && n.kind != TreeNodeKind::Leaf && !self.has_parent(n.id->0)
    }

    pub open spec fn is_leaf_under(self, parent_id: i64) -> spec_fn(Leaf) -> bool {
        |l: Leaf| self.has_edge(parent_id, l.tree_node_id)
    }

    /// The direct children of a node, in creation order.
    pub open spec fn children(self, parent_id: i64) -> Seq<TreeNode> {
        self.nodes.filter(self.is_child_of(parent_id))
    }

    /// The direct parents of a node, in creation order.
    pub open spec fn parents(self, child_id: i64) -> Seq<TreeNode> {
        self.nodes.filter(self.is_parent_of(child_id))
    }

    /// The concept nodes without a parent.
    pub open spec fn roots(self) -> Seq<TreeNode> {
        self.nodes.filter(self.is_root())
    }

    /// The document leaf records attached directly under a node.
    pub open spec fn child_leaves(self, parent_id: i64) -> Seq<Leaf> {
        self.leaves.filter(self.is_leaf_under(parent_id))
    }

    /// The node holding the (first) leaf record for `data_id`.
    pub open spec fn node_by_data_id(self, data_id: Seq<char>) -> Option<TreeNode> {
        match find_leaf(self.leaves, data_id) {
            Some(l) => self.node(l.tree_node_id),
            None => None,
        }
    }

    pub open spec fn inbox(self) -> Option<TreeNode> {
        find_inbox(self.nodes)
    }

    /// `after` is this model with `node` stored under the fresh id `id`.
    pub open spec fn created(self, after: TreeModel, node: TreeNode, id: i64) -> bool {
        &&& !self.has_node(id)
        &&& after.nodes.len() == self.nodes.len() + 1
        &&& after.nodes.drop_last() == self.nodes
        &&& stored_as(after.nodes.last(), node, id)
        &&& after.edges == self.edges
        &&& after.leaves == self.leaves
    }

    /// This model with `edge` added (adding an existing edge changes nothing).
    pub open spec fn with_edge(self, edge: TreeEdge) -> TreeModel {
        if self.edges.contains(edge) {
            self
        } else {
            TreeModel { edges: self.edges.push(edge), ..self }
        }
    }

    /// This model with the leaf record `leaf` inserted or replaced by key.
    pub open spec fn with_leaf(self, leaf: Leaf) -> TreeModel {
        TreeModel { leaves: upsert_leaf(self.leaves, leaf), ..self }
    }

    pub open spec fn not_node(id: i64) -> spec_fn(TreeNode) -> bool {
        |n: TreeNode| n.id != Some(id)
    }

    pub open spec fn not_incident(id: i64) -> spec_fn(TreeEdge) -> bool {
        |e: TreeEdge| e.parent_id != id && e.child_id != id
    }

    pub open spec fn not_on_node(id: i64) -> spec_fn(Leaf) -> bool {
        |l: Leaf| l.tree_node_id != id
    }

    /// This model without node `id`, its edges and its leaf records.
    pub open spec fn without_node(self, id: i64) -> TreeModel {
        TreeModel {
            nodes: self.nodes.filter(Self::not_node(id)),
            edges: self.edges.filter(Self::not_incident(id)),
            leaves: self.leaves.filter(Self::not_on_node(id)),
        }
    }

    /// `after` is this model with the summary of node `id` set to `summary`.
    pub open spec fn summary_set(self, after: TreeModel, id: i64, summary: Seq<char>) -> bool {
        &&& after.edges == self.edges
        &&& after.leaves == self.leaves
        &&& after.nodes.len() == self.nodes.len()
        &&& forall|i: int|
            0 <= i < self.nodes.len() ==> if (#[trigger] self.nodes[i]).id == Some(id) {
                same_but_summary(self.nodes[i], after.nodes[i]) && after.nodes[i].summary@
                    == summary
            } else {
                after.nodes[i] == self.nodes[i]
            }
    }

    /// `after` has this model's shape: the same edges, leaf records and nodes,
    /// the nodes differing at most in their summaries.
    pub open spec fn same_shape(self, after: TreeModel) -> bool {
        &&& after.edges == self.edges
        &&& after.leaves == self.leaves
        &&& after.nodes.len() == self.nodes.len()
        &&& forall|i: int|
            0 <= i < self.nodes.len() ==> same_but_summary(
                #[trigger] self.nodes[i],
                after.nodes[i],
            )
    }
}

/// The port to a knowledge-tree store. `inv` is the store's own consistency
/// condition; `model` its abstract content.
pub trait LtmRepository {
    spec fn inv(&self) -> bool;

    spec fn model(&self) -> TreeModel;

    /// The store does not fail on its own account: each call succeeds unless
    /// its contract names the refusal (an unknown node, no id left to hand out).
    spec fn reliable(&self) -> bool;

    /// How many more nodes the store can still create.
    spec fn ids_left(&self) -> u64;

    proof fn lemma_inv_wf(&self)
        requires
            self.inv(),
        ensures
            self.model().wf(),
    ;

    /// Number of stored nodes.
    fn node_count(&self) -> (r: Result<usize, MemoryError>)
        requires
            self.inv(),
        ensures
            r matches Ok(n) ==> n == self.model().nodes.len(),
            self.reliable() ==> r is Ok,
    ;

    /// Stores a node under a fresh id and returns the id.
    fn create_node(&mut self, node: &TreeNode) -> (r: Result<i64, MemoryError>)
        requires
            old(self).inv(),
        ensures
            final(self).inv(),
            match r {
                Ok(id) => old(self).model().created(final(self).model(), *node, id),
                Err(_) => final(self).model() == old(self).model(),
            },
            old(self).reliable() && old(self).ids_left() > 0 ==> r is Ok,
            final(self).reliable() == old(self).reliable(),
            final(self).ids_left() + 1 >= old(self).ids_left(),
    ;

    /// Adds a parent -> child edge; adding an existing edge is a no-op.
    fn add_edge(&mut self, edge: TreeEdge) -> (r: Result<(), MemoryError>)
        requires
            old(self).inv(),
        ensures
            final(self).inv(),
            match r {
                Ok(()) => final(self).model() == old(self).model().with_edge(edge),
                Err(_) => final(self).model() == old(self).model(),
            },
            old(self).reliable() && old(self).model().has_node(edge.parent_id) && old(self).model().has_node(
                edge.child_id,
            ) ==> r is Ok,
            final(self).reliable() == old(self).reliable(),
            final(self).ids_left() >= old(self).ids_left(),
    ;

    /// Links a node to a `dataId` (inserting or replacing the record for that key).
    fn create_leaf(&mut self, leaf: &Leaf) -> (r: Result<(), MemoryError>)
        requires
            old(self).inv(),
        ensures
            final(self).inv(),
            match r {
                Ok(()) => final(self).model() == old(self).model().with_leaf(*leaf),
                Err(_) => final(self).model() == old(self).model(),
            },
            old(self).reliable() && old(self).model().has_node(leaf.tree_node_id) ==> r is Ok,
            final(self).reliable() == old(self).reliable(),
            final(self).ids_left() >= old(self).ids_left(),
    ;

    fn get_node(&self, id: i64) -> (r: Result<Option<TreeNode>, MemoryError>)
        requires
            self.inv(),
        ensures
            r matches Ok(n) ==> n == self.model().node(id),
            self.reliable() ==> r is Ok,
    ;

    fn get_children(&self, parent_id: i64) -> (r: Result<Vec<TreeNode>, MemoryError>)
        requires
            self.inv(),
        ensures
            r matches Ok(v) ==> v@ == self.model().children(parent_id),
            self.reliable() ==> r is Ok,
    ;

    fn get_parents(&self, child_id: i64) -> (r: Result<Vec<TreeNode>, MemoryError>)
        requires
            self.inv(),
        ensures
            r matches Ok(v) ==> v@ == self.model().parents(child_id),
            self.reliable() ==> r is Ok,
    ;

    fn get_roots(&self) -> (r: Result<Vec<TreeNode>, MemoryError>)
        requires
            self.inv(),
        ensures
            r matches Ok(v) ==> v@ == self.model().roots(),
            self.reliable() ==> r is Ok,
    ;

    fn get_child_leaves(&self, parent_id: i64) -> (r: Result<Vec<Leaf>, MemoryError>)
        requires
            self.inv(),
        ensures
            r matches Ok(v) ==> v@ == self.model().child_leaves(parent_id),
            self.reliable() ==> r is Ok,
    ;

    fn get_node_by_data_id(&self, data_id: &str) -> (r: Result<Option<TreeNode>, MemoryError>)
        requires
            self.inv(),
        ensures
            r matches Ok(n) ==> n == self.model().node_by_data_id(data_id@),
            self.reliable() ==> r is Ok,
    ;

    fn get_inbox(&self) -> (r: Result<Option<TreeNode>, MemoryError>)
        requires
            self.inv(),
        ensures
            r matches Ok(n) ==> n == self.model().inbox(),
            self.reliable() ==> r is Ok,
    ;

    /// Removes a node with its edges and leaf records.
    fn delete_node(&mut self, id: i64) -> (r: Result<(), MemoryError>)
        requires
            old(self).inv(),
        ensures
            final(self).inv(),
            match r {
                Ok(()) => final(self).model() == old(self).model().without_node(id),
                Err(_) => final(self).model() == old(self).model(),
            },
            old(self).reliable() ==> r is Ok,
            final(self).reliable() == old(self).reliable(),
            final(self).ids_left() >= old(self).ids_left(),
    ;

    fn update_summary(&mut self, id: i64, summary: &str) -> (r: Result<(), MemoryError>)
        requires
            old(self).inv(),
        ensures
            final(self).inv(),
            match r {
                Ok(()) => old(self).model().summary_set(final(self).model(), id, summary@),
                Err(_) => final(self).model() == old(self).model(),
            },
            old(self).reliable() ==> r is Ok,
            final(self).reliable() == old(self).reliable(),
            final(self).ids_left() >= old(self).ids_left(),
    ;

    /// Empties the store.
    fn reset_store(&mut self) -> (r: Result<(), MemoryError>)
        requires
            old(self).inv(),
        ensures
            final(self).inv(),
            match r {
                Ok(()) => final(self).model() == TreeModel::empty(),
                Err(_) => final(self).model() == old(self).model(),
            },
            old(self).reliable() ==> r is Ok,
            final(self).reliable() == old(self).reliable(),
            final(self).ids_left() >= old(self).ids_left(),
    ;
}

} // verus!

verus! {

/// A found node carries the id it was looked up by and is one of the nodes.
pub proof fn lemma_find_node(nodes: Seq<TreeNode>, id: i64)
    ensures
        find_node(nodes, id) matches Some(n) ==> n.id == Some(id) && nodes.contains(n),
        find_node(nodes, id) is None ==> forall|i: int| 0 <= i < nodes.len() ==> (#[trigger] nodes[i]).id != Some(id),
    decreases nodes.len(),
{
    if nodes.len() > 0 {
        lemma_find_node(nodes.drop_first(), id);
        if nodes[0].id != Some(id) {
            match find_node(nodes, id) {
                Some(n) => {
                    let k = choose|k: int| 0 <= k < nodes.drop_first().len() && nodes.drop_first()[k] == n;
                    assert(nodes[k + 1] == n);
                },
                None => {
                assert forall|i: int| 0 <= i < nodes.len() implies (#[trigger] nodes[i]).id != Some(id) by {
                    if i > 0 {
                        assert(nodes[i] == nodes.drop_first()[i - 1]);
                    }
                }
                },
            }
        } else {
            assert(nodes[0] == nodes[0]);
        }
    }
}

/// The node at a position whose id no earlier node carries is the one found.
pub proof fn lemma_find_node_at(nodes: Seq<TreeNode>, id: i64, k: int)
    requires
        0 <= k < nodes.len(),
        nodes[k].id == Some(id),
        forall|j: int| 0 <= j < k ==> (#[trigger] nodes[j]).id != Some(id),
    ensures
        find_node(nodes, id) == Some(nodes[k]),
    decreases k,
{
    if k > 0 {
        lemma_find_node_at(nodes.drop_first(), id, k - 1);
    }
}

/// The first inbox is an inbox node among the nodes.
pub proof fn lemma_find_inbox(nodes: Seq<TreeNode>)
    ensures
        find_inbox(nodes) matches Some(n) ==> n.kind == TreeNodeKind::Inbox && nodes.contains(n),
        find_inbox(nodes) is None ==> forall|i: int| 0 <= i < nodes.len() ==> (#[trigger] nodes[i]).kind != TreeNodeKind::Inbox,
    decreases nodes.len(),
{
    if nodes.len() > 0 {
        lemma_find_inbox(nodes.drop_first());
        if nodes[0].kind != TreeNodeKind::Inbox {
            match find_inbox(nodes) {
                Some(n) => {
                    let k = choose|k: int| 0 <= k < nodes.drop_first().len() && nodes.drop_first()[k] == n;
                    assert(nodes[k + 1] == n);
                },
                None => {
                assert forall|i: int| 0 <= i < nodes.len() implies (#[trigger] nodes[i]).kind != TreeNodeKind::Inbox by {
                    if i > 0 {
                        assert(nodes[i] == nodes.drop_first()[i - 1]);
                    }
                }
                },
            }
        } else {
            assert(nodes[0] == nodes[0]);
        }
    }
}

/// `path` climbs from `x` upward: `path[0]` is a parent of `x`, and each next
/// entry is a parent of the previous one.
pub open spec fn is_upward_path(m: TreeModel, x: i64, path: Seq<i64>) -> bool {
    &&& path.len() >= 1
    &&& m.has_edge(path[0], x)
    &&& forall|i: int| 1 <= i < path.len() ==> #[trigger] m.has_edge(path[i], path[i - 1])
}

/// `a` is a (proper) ancestor of `x`: reachable by following parent edges upward.
pub open spec fn is_ancestor(m: TreeModel, x: i64, a: i64) -> bool {
    exists|path: Seq<i64>| #[trigger] is_upward_path(m, x, path) && path.last() == a
}

/// A parent of a node at or above `p` is above `p`.
pub proof fn lemma_ancestor_step(m: TreeModel, p: i64, id: i64, c: i64)
    requires
        m.has_edge(id, c),
        c == p || is_ancestor(m, p, c),
    ensures
        is_ancestor(m, p, id),
{
    if c == p {
        assert(is_upward_path(m, p, seq![id]));
    } else {
        let path = choose|path: Seq<i64>| #[trigger] is_upward_path(m, p, path) && path.last() == c;
        let longer = path.push(id);
        assert forall|i: int| 1 <= i < longer.len() implies #[trigger] m.has_edge(longer[i], longer[i - 1]) by {
            if i < path.len() {
                assert(longer[i] == path[i]);
                assert(longer[i - 1] == path[i - 1]);
                assert(m.has_edge(path[i], path[i - 1]));
            } else {
                assert(longer[i - 1] == c);
            }
        }
        assert(is_upward_path(m, p, longer));
        assert(longer.last() == id);
    }
}

/// The tree has no cycle: no node is its own ancestor.
pub open spec fn acyclic(m: TreeModel) -> bool {
    forall|x: i64| !#[trigger] is_ancestor(m, x, x)
}

} // verus!
