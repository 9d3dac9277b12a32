//! An in-memory knowledge-tree store, verified against the repository port.
use vstd::prelude::*;
use crate::error::MemoryError;
use crate::ltm::{
    find_inbox, find_leaf, find_node, same_but_summary, same_leaf_key, upsert_leaf, Leaf,
    LtmRepository, TreeEdge, TreeModel, TreeNode, TreeNodeKind,
};
use crate::text::{owned, same_text};

verus! {

broadcast use vstd::seq_lib::group_filter_ensures;

/// Elements of a filtered sequence come from the original and satisfy the predicate.
pub proof fn lemma_filter_elem<A>(s: Seq<A>, p: spec_fn(A) -> bool, i: int)
    requires
        0 <= i < s.filter(p).len(),
    ensures
        s.contains(s.filter(p)[i]),
        p(s.filter(p)[i]),
{
    assert(s.filter(p).contains(s.filter(p)[i]));
    s.lemma_filter_contains_rev(p, s.filter(p)[i]);
}

/// Filtering keeps node ids distinct.
pub proof fn lemma_filter_ids_distinct(s: Seq<TreeNode>, p: spec_fn(TreeNode) -> bool)
    requires
        forall|i: int, j: int| 0 <= i < j < s.len() ==> (#[trigger] s[i]).id != (#[trigger] s[j]).id,
    ensures
        forall|i: int, j: int|
            0 <= i < j < s.filter(p).len() ==> (#[trigger] s.filter(p)[i]).id != (
            #[trigger] s.filter(p)[j]).id,
    decreases s.len(),
{
    reveal(Seq::filter);
    if s.len() > 0 {
        let r = s.drop_last();
        lemma_filter_ids_distinct(r, p);
        let f = s.filter(p);
        let fr = r.filter(p);
        if p(s.last()) {
            assert(f == fr.push(s.last()));
            assert forall|i: int, j: int| 0 <= i < j < f.len() implies (#[trigger] f[i]).id != (
            #[trigger] f[j]).id by {
                if j == f.len() - 1 {
                    lemma_filter_elem(r, p, i);
                    let k = choose|k: int| 0 <= k < r.len() && r[k] == fr[i];
                    assert(s[k] == f[i]);
                    assert(s[s.len() - 1] == f[j]);
                } else {
                    assert(f[i] == fr[i]);
                    assert(f[j] == fr[j]);
                }
            }
        } else {
            assert(f == fr);
        }
    }
}

proof fn lemma_upsert_at(leaves: Seq<Leaf>, leaf: Leaf, i: int)
    requires
        0 <= i < leaves.len(),
        same_leaf_key(leaves[i], leaf),
        forall|j: int| 0 <= j < i ==> !same_leaf_key(#[trigger] leaves[j], leaf),
    ensures
        upsert_leaf(leaves, leaf) == leaves.update(i, leaf),
    decreases i,
{
    if i > 0 {
        assert(!same_leaf_key(leaves[0], leaf));
        lemma_upsert_at(leaves.drop_first(), leaf, i - 1);
        assert(seq![leaves[0]] + leaves.drop_first().update(i - 1, leaf) =~= leaves.update(i, leaf));
    }
}

proof fn lemma_upsert_none(leaves: Seq<Leaf>, leaf: Leaf)
    requires
        forall|j: int| 0 <= j < leaves.len() ==> !same_leaf_key(#[trigger] leaves[j], leaf),
    ensures
        upsert_leaf(leaves, leaf) == leaves.push(leaf),
    decreases leaves.len(),
{
    if leaves.len() == 0 {
        assert(seq![leaf] =~= leaves.push(leaf));
    } else {
        assert(!same_leaf_key(leaves[0], leaf));
        lemma_upsert_none(leaves.drop_first(), leaf);
        assert(seq![leaves[0]] + leaves.drop_first().push(leaf) =~= leaves.push(leaf));
    }
}

/// Whether `edges` holds the edge `parent_id -> child_id`.
fn edges_contain(edges: &Vec<TreeEdge>, parent_id: i64, child_id: i64) -> (r: bool)
    ensures
        r == edges@.contains(TreeEdge { parent_id, child_id }),
{
    let n = edges.len();
    for i in 0..n
        invariant
            n == edges@.len(),
            forall|j: int| 0 <= j < i ==> edges@[j] != (TreeEdge { parent_id, child_id }),
    {
        if edges[i].parent_id == parent_id && edges[i].child_id == child_id {
            assert(edges@[i as int] == (TreeEdge { parent_id, child_id }));
            return true;
        }
    }
    false
}

/// Whether some edge of `edges` enters `child_id`.
fn edges_enter(edges: &Vec<TreeEdge>, child_id: i64) -> (r: bool)
    ensures
        r == exists|i: int| 0 <= i < edges@.len() && #[trigger] edges@[i].child_id == child_id,
{
    let n = edges.len();
    for i in 0..n
        invariant
            n == edges@.len(),
            forall|j: int| 0 <= j < i ==> #[trigger] edges@[j].child_id != child_id,
    {
        if edges[i].child_id == child_id {
            return true;
        }
    }
    false
}

/// A knowledge-tree store held in memory.
pub struct MemLtmStore {
    nodes: Vec<TreeNode>,
    edges: Vec<TreeEdge>,
    leaves: Vec<Leaf>,
    next_id: i64,
}

impl MemLtmStore {
    /// An empty store.
    pub fn new() -> (r: MemLtmStore)
        ensures
            r.inv(),
            r.model() == TreeModel::empty(),
            r.ids_left() == (i64::MAX - 1) as u64,
            r.next_fresh() == 1,
    {
        let r = MemLtmStore { nodes: Vec::new(), edges: Vec::new(), leaves: Vec::new(), next_id: 1 };
        assert(r.model() =~= TreeModel::empty());
        r
    }

    /// The id the next created node gets: ids are handed out in increasing
    /// order and never reused, so every stored id lies below it.
    pub closed spec fn next_fresh(&self) -> i64 {
        self.next_id
    }

    /// Every stored node's id lies below the next id to hand out.
    pub proof fn lemma_ids_below(&self)
        requires
            self.inv(),
        ensures
            forall|i: int|
                0 <= i < self.model().nodes.len() ==> (#[trigger] self.model().nodes[i]).id->0 < self.next_fresh(),
    {
    }

    /// The store can still hand out a fresh node id.
    pub closed spec fn has_fresh_id(&self) -> bool {
        self.next_id < i64::MAX
    }

    /// The index of the node stored under `id`.
    fn position_of(&self, id: i64) -> (r: Option<usize>)
        requires
            self.inv(),
        ensures
            match r {
                Some(i) => i < self.nodes@.len() && self.nodes@[i as int].id == Some(id),
                None => !self.model().has_node(id),
            },
    {
        let n = self.nodes.len();
        for i in 0..n
            invariant
                n == self.nodes@.len(),
                forall|j: int| 0 <= j < i ==> (#[trigger] self.nodes@[j]).id != Some(id),
        {
            if self.nodes[i].id == Some(id) {
                return Some(i);
            }
        }
        None
    }
}

impl LtmRepository for MemLtmStore {
    closed spec fn inv(&self) -> bool {
        &&& self.model().wf()
        &&& 1 <= self.next_id
        &&& forall|i: int|
            0 <= i < self.nodes@.len() ==> (#[trigger] self.nodes@[i]).id->0 < self.next_id
    }

    closed spec fn model(&self) -> TreeModel {
        TreeModel { nodes: self.nodes@, edges: self.edges@, leaves: self.leaves@ }
    }

    open spec fn reliable(&self) -> bool {
        true
    }

    closed spec fn ids_left(&self) -> u64 {
        (i64::MAX - self.next_id) as u64
    }

    proof fn lemma_inv_wf(&self) {
    }

    fn node_count(&self) -> (r: Result<usize, MemoryError>)
        ensures
            r is Ok,
    {
        Ok(self.nodes.len())
    }

    fn create_node(&mut self, node: &TreeNode) -> (r: Result<i64, MemoryError>)
        ensures
            r is Ok <==> old(self).has_fresh_id(),
            r matches Ok(id) ==> id == old(self).next_fresh() && final(self).next_fresh() == id + 1,
            r is Err ==> final(self).next_fresh() == old(self).next_fresh(),
            r is Err ==> r == Err::<i64, MemoryError>(MemoryError::IdSpaceExhausted),
    {
        if self.next_id == i64::MAX {
            return Err(MemoryError::IdSpaceExhausted);
        }
        let id = self.next_id;
        let ghost before = self.model();
        assert(before.wf());
        let stored = TreeNode {
            id: Some(id),
            name: node.name.clone(),
            summary: node.summary.clone(),
            kind: node.kind,
            permanent: node.permanent,
            created_at: None,
            updated_at: None,
        };
        self.next_id = id + 1;
        self.nodes.push(stored);
        proof {
            assert(forall|i: int| 0 <= i < before.nodes.len() ==> self.nodes@[i] == before.nodes[i]);
            assert(!before.has_node(id)) by {
                if before.has_node(id) {
                    let i = choose|i: int| 0 <= i < before.nodes.len() && #[trigger] before.nodes[i].id == Some(id);
                    assert(self.nodes@[i].id->0 < id);
                }
            }
            assert(self.nodes@.drop_last() =~= before.nodes);
            assert forall|i: int| 0 <= i < before.nodes.len() implies #[trigger] self.model().has_node(
                before.nodes[i].id->0,
            ) by {
                assert(self.nodes@[i] == before.nodes[i]);
            }
            assert forall|k: int| 0 <= k < self.edges@.len() implies self.model().has_node(
                (#[trigger] self.edges@[k]).parent_id,
            ) && self.model().has_node(self.edges@[k].child_id) by {
                assert(before.edges[k] == self.edges@[k]);
                let a = choose|i: int| 0 <= i < before.nodes.len() && #[trigger] before.nodes[i].id == Some(self.edges@[k].parent_id);
                let b = choose|i: int| 0 <= i < before.nodes.len() && #[trigger] before.nodes[i].id == Some(self.edges@[k].child_id);
                assert(self.nodes@[a] == before.nodes[a]);
                assert(self.nodes@[b] == before.nodes[b]);
            }
            assert forall|k: int| 0 <= k < self.leaves@.len() implies self.model().has_node(
                (#[trigger] self.leaves@[k]).tree_node_id,
            ) by {
                assert(before.leaves[k] == self.leaves@[k]);
                let a = choose|i: int| 0 <= i < before.nodes.len() && #[trigger] before.nodes[i].id == Some(self.leaves@[k].tree_node_id);
                assert(self.nodes@[a] == before.nodes[a]);
            }
        }
        Ok(id)
    }

    fn add_edge(&mut self, edge: TreeEdge) -> (r: Result<(), MemoryError>)
        ensures
            final(self).next_fresh() == old(self).next_fresh(),
            r is Ok <==> old(self).model().has_node(edge.parent_id) && old(self).model().has_node(
                edge.child_id,
            ),
            !old(self).model().has_node(edge.parent_id) ==> r == Err::<(), MemoryError>(
                MemoryError::UnknownNode(edge.parent_id),
            ),
            old(self).model().has_node(edge.parent_id) && !old(self).model().has_node(edge.child_id)
                ==> r == Err::<(), MemoryError>(MemoryError::UnknownNode(edge.child_id)),
    {
        let pa = match self.position_of(edge.parent_id) {
            Some(i) => i,
            None => {
                return Err(MemoryError::UnknownNode(edge.parent_id));
            },
        };
        let pc = match self.position_of(edge.child_id) {
            Some(i) => i,
            None => {
                return Err(MemoryError::UnknownNode(edge.child_id));
            },
        };
        if edges_contain(&self.edges, edge.parent_id, edge.child_id) {
            assert(edge == (TreeEdge { parent_id: edge.parent_id, child_id: edge.child_id }));
            return Ok(());
        }
        let ghost before = self.model();
        self.edges.push(edge);
        proof {
            assert(edge == (TreeEdge { parent_id: edge.parent_id, child_id: edge.child_id }));
            assert(before.has_node(edge.parent_id)) by {
                assert(before.nodes[pa as int].id == Some(edge.parent_id));
            }
            assert(before.has_node(edge.child_id)) by {
                assert(before.nodes[pc as int].id == Some(edge.child_id));
            }
            assert(forall|e: int| 0 <= e < before.edges.len() ==> self.edges@[e] == before.edges[e]);
        }
        Ok(())
    }

    fn create_leaf(&mut self, leaf: &Leaf) -> (r: Result<(), MemoryError>)
        ensures
            final(self).next_fresh() == old(self).next_fresh(),
            r is Ok <==> old(self).model().has_node(leaf.tree_node_id),
            r is Err ==> r == Err::<(), MemoryError>(MemoryError::UnknownNode(leaf.tree_node_id)),
    {
        let pl = match self.position_of(leaf.tree_node_id) {
            Some(i) => i,
            None => {
                return Err(MemoryError::UnknownNode(leaf.tree_node_id));
            },
        };
        assert(self.model().has_node(leaf.tree_node_id)) by {
            assert(self.nodes@[pl as int].id == Some(leaf.tree_node_id));
        }
        let n = self.leaves.len();
        for i in 0..n
            invariant
                n == self.leaves@.len(),
                self.inv(),
                self.model() == old(self).model(),
                self.next_id == old(self).next_id,
                self.model().has_node(leaf.tree_node_id),
                forall|j: int| 0 <= j < i ==> !same_leaf_key(#[trigger] self.leaves@[j], *leaf),
        {
            if self.leaves[i].tree_node_id == leaf.tree_node_id && same_text(
                self.leaves[i].data_id.as_str(),
                leaf.data_id.as_str(),
            ) {
                proof {
                    lemma_upsert_at(self.leaves@, *leaf, i as int);
                }
                let ghost before = self.model();
                self.leaves.set(i, leaf.clone());
                proof {
                    assert(before.wf());
                    assert(self.model().nodes == before.nodes);
                    assert(self.model().edges == before.edges);
                    assert(before.has_node(leaf.tree_node_id));
                    assert forall|e: int| 0 <= e < self.model().leaves.len() implies self.model().has_node(
                        (#[trigger] self.model().leaves[e]).tree_node_id,
                    ) by {
                        assert(self.model().leaves[e] == self.leaves@[e]);
                        if e != i {
                            assert(self.leaves@[e] == before.leaves[e]);
                            assert(before.has_node(before.leaves[e].tree_node_id));
                        }
                    }
                }
                return Ok(());
            }
        }
        proof {
            lemma_upsert_none(self.leaves@, *leaf);
        }
        let ghost before = self.model();
        self.leaves.push(leaf.clone());
        proof {
            assert(before.wf());
            assert(self.model().nodes == before.nodes);
            assert(self.model().edges == before.edges);
            assert(before.has_node(leaf.tree_node_id));
            assert forall|e: int| 0 <= e < self.model().leaves.len() implies self.model().has_node(
                (#[trigger] self.model().leaves[e]).tree_node_id,
            ) by {
                assert(self.model().leaves[e] == self.leaves@[e]);
                if e < before.leaves.len() {
                    assert(self.leaves@[e] == before.leaves[e]);
                    assert(before.has_node(before.leaves[e].tree_node_id));
                }
            }
        }
        Ok(())
    }

    fn get_node(&self, id: i64) -> (r: Result<Option<TreeNode>, MemoryError>)
        ensures
            r is Ok,
    {
        let n = self.nodes.len();
        assert(self.nodes@.skip(0) =~= self.nodes@);
        for i in 0..n
            invariant
                n == self.nodes@.len(),
                find_node(self.nodes@, id) == find_node(self.nodes@.skip(i as int), id),
        {
            assert(self.nodes@.skip(i as int)[0] == self.nodes@[i as int]);
            if self.nodes[i].id == Some(id) {
                return Ok(Some(self.nodes[i].clone()));
            }
            assert(self.nodes@.skip(i as int).drop_first() =~= self.nodes@.skip(i + 1));
        }
        Ok(None)
    }

    fn get_children(&self, parent_id: i64) -> (r: Result<Vec<TreeNode>, MemoryError>)
        ensures
            r is Ok,
    {
        let ghost pred = self.model().is_child_of(parent_id);
        let mut out: Vec<TreeNode> = Vec::new();
        let n = self.nodes.len();
        for i in 0..n
            invariant
                n == self.nodes@.len(),
                pred == self.model().is_child_of(parent_id),
                out@ == self.nodes@.take(i as int).filter(pred),
        {
            proof {
                assert(self.nodes@.take(i + 1) =~= self.nodes@.take(i as int).push(self.nodes@[i as int]));
                self.nodes@.take(i as int).lemma_filter_push(self.nodes@[i as int], pred);
            }
            match self.nodes[i].id {
                Some(c) => {
                    if edges_contain(&self.edges, parent_id, c) {
                        out.push(self.nodes[i].clone());
                    }
                },
                None => {},
            }
        }
        assert(self.nodes@.take(n as int) =~= self.nodes@);
        Ok(out)
    }

    fn get_parents(&self, child_id: i64) -> (r: Result<Vec<TreeNode>, MemoryError>)
        ensures
            r is Ok,
    {
        let ghost pred = self.model().is_parent_of(child_id);
        let mut out: Vec<TreeNode> = Vec::new();
        let n = self.nodes.len();
        for i in 0..n
            invariant
                n == self.nodes@.len(),
                pred == self.model().is_parent_of(child_id),
                out@ == self.nodes@.take(i as int).filter(pred),
        {
            proof {
                assert(self.nodes@.take(i + 1) =~= self.nodes@.take(i as int).push(self.nodes@[i as int]));
                self.nodes@.take(i as int).lemma_filter_push(self.nodes@[i as int], pred);
            }
            match self.nodes[i].id {
                Some(p) => {
                    if edges_contain(&self.edges, p, child_id) {
                        out.push(self.nodes[i].clone());
                    }
                },
                None => {},
            }
        }
        assert(self.nodes@.take(n as int) =~= self.nodes@);
        Ok(out)
    }

    fn get_roots(&self) -> (r: Result<Vec<TreeNode>, MemoryError>)
        ensures
            r is Ok,
    {
        let ghost pred = self.model().is_root();
        let mut out: Vec<TreeNode> = Vec::new();
        let n = self.nodes.len();
        for i in 0..n
            invariant
                n == self.nodes@.len(),
                pred == self.model().is_root(),
                out@ == self.nodes@.take(i as int).filter(pred),
        {
            proof {
                assert(self.nodes@.take(i + 1) =~= self.nodes@.take(i as int).push(self.nodes@[i as int]));
                self.nodes@.take(i as int).lemma_filter_push(self.nodes@[i as int], pred);
            }
            match self.nodes[i].id {
                Some(c) => {
                    let entered = edges_enter(&self.edges, c);
                    assert(self.model().edges == self.edges@);
                    assert(entered == self.model().has_parent(c));
                    if self.nodes[i].kind != TreeNodeKind::Leaf && !entered {
                        out.push(self.nodes[i].clone());
                    }
                },
                None => {},
            }
        }
        assert(self.nodes@.take(n as int) =~= self.nodes@);
        Ok(out)
    }

    fn get_child_leaves(&self, parent_id: i64) -> (r: Result<Vec<Leaf>, MemoryError>)
        ensures
            r is Ok,
    {
        let ghost pred = self.model().is_leaf_under(parent_id);
        let mut out: Vec<Leaf> = Vec::new();
        let n = self.leaves.len();
        for i in 0..n
            invariant
                n == self.leaves@.len(),
                pred == self.model().is_leaf_under(parent_id),
                out@ == self.leaves@.take(i as int).filter(pred),
        {
            proof {
                assert(self.leaves@.take(i + 1) =~= self.leaves@.take(i as int).push(self.leaves@[i as int]));
                self.leaves@.take(i as int).lemma_filter_push(self.leaves@[i as int], pred);
            }
            if edges_contain(&self.edges, parent_id, self.leaves[i].tree_node_id) {
                out.push(self.leaves[i].clone());
            }
        }
        assert(self.leaves@.take(n as int) =~= self.leaves@);
        Ok(out)
    }

    fn get_node_by_data_id(&self, data_id: &str) -> (r: Result<Option<TreeNode>, MemoryError>)
        ensures
            r is Ok,
    {
        let n = self.leaves.len();
        assert(self.leaves@.skip(0) =~= self.leaves@);
        for i in 0..n
            invariant
                n == self.leaves@.len(),
                self.inv(),
                find_leaf(self.leaves@, data_id@) == find_leaf(self.leaves@.skip(i as int), data_id@),
        {
            assert(self.leaves@.skip(i as int)[0] == self.leaves@[i as int]);
            if same_text(self.leaves[i].data_id.as_str(), data_id) {
                return self.get_node(self.leaves[i].tree_node_id);
            }
            assert(self.leaves@.skip(i as int).drop_first() =~= self.leaves@.skip(i + 1));
        }
        Ok(None)
    }

    fn get_inbox(&self) -> (r: Result<Option<TreeNode>, MemoryError>)
        ensures
            r is Ok,
    {
        let n = self.nodes.len();
        assert(self.nodes@.skip(0) =~= self.nodes@);
        for i in 0..n
            invariant
                n == self.nodes@.len(),
                find_inbox(self.nodes@) == find_inbox(self.nodes@.skip(i as int)),
        {
            assert(self.nodes@.skip(i as int)[0] == self.nodes@[i as int]);
            if self.nodes[i].kind == TreeNodeKind::Inbox {
                return Ok(Some(self.nodes[i].clone()));
            }
            assert(self.nodes@.skip(i as int).drop_first() =~= self.nodes@.skip(i + 1));
        }
        Ok(None)
    }

    fn delete_node(&mut self, id: i64) -> (r: Result<(), MemoryError>)
        ensures
            final(self).next_fresh() == old(self).next_fresh(),
            r is Ok,
    {
        let ghost before = self.model();
        let ghost pn = TreeModel::not_node(id);
        let ghost pe = TreeModel::not_incident(id);
        let ghost pl = TreeModel::not_on_node(id);
        let mut nodes: Vec<TreeNode> = Vec::new();
        let n = self.nodes.len();
        for i in 0..n
            invariant
                n == self.nodes@.len(),
                pn == TreeModel::not_node(id),
                nodes@ == self.nodes@.take(i as int).filter(pn),
        {
            proof {
                assert(self.nodes@.take(i + 1) =~= self.nodes@.take(i as int).push(self.nodes@[i as int]));
                self.nodes@.take(i as int).lemma_filter_push(self.nodes@[i as int], pn);
            }
            if self.nodes[i].id != Some(id) {
                nodes.push(self.nodes[i].clone());
            }
        }
        assert(self.nodes@.take(n as int) =~= self.nodes@);
        let mut edges: Vec<TreeEdge> = Vec::new();
        let m = self.edges.len();
        for i in 0..m
            invariant
                m == self.edges@.len(),
                pe == TreeModel::not_incident(id),
                edges@ == self.edges@.take(i as int).filter(pe),
        {
            proof {
                assert(self.edges@.take(i + 1) =~= self.edges@.take(i as int).push(self.edges@[i as int]));
                self.edges@.take(i as int).lemma_filter_push(self.edges@[i as int], pe);
            }
            if self.edges[i].parent_id != id && self.edges[i].child_id != id {
                edges.push(self.edges[i]);
            }
        }
        assert(self.edges@.take(m as int) =~= self.edges@);
        let mut leaves: Vec<Leaf> = Vec::new();
        let k = self.leaves.len();
        for i in 0..k
            invariant
                k == self.leaves@.len(),
                pl == TreeModel::not_on_node(id),
                leaves@ == self.leaves@.take(i as int).filter(pl),
        {
            proof {
                assert(self.leaves@.take(i + 1) =~= self.leaves@.take(i as int).push(self.leaves@[i as int]));
                self.leaves@.take(i as int).lemma_filter_push(self.leaves@[i as int], pl);
            }
            if self.leaves[i].tree_node_id != id {
                leaves.push(self.leaves[i].clone());
            }
        }
        assert(self.leaves@.take(k as int) =~= self.leaves@);
        self.nodes = nodes;
        self.edges = edges;
        self.leaves = leaves;
        proof {
            let after = self.model();
            assert(after == before.without_node(id));
            lemma_filter_ids_distinct(before.nodes, pn);
            assert forall|i: int| 0 <= i < after.nodes.len() implies (#[trigger] after.nodes[i]).id is Some
                && after.nodes[i].id->0 < self.next_id by {
                lemma_filter_elem(before.nodes, pn, i);
            }
            // A node other than `id` that existed before still exists.
            assert forall|x: i64| x != id && before.has_node(x) implies #[trigger] after.has_node(x) by {
                let a = choose|a: int| 0 <= a < before.nodes.len() && #[trigger] before.nodes[a].id == Some(x);
                before.nodes.lemma_filter_contains(pn, a);
                let b = choose|b: int| 0 <= b < after.nodes.len() && after.nodes[b] == before.nodes[a];
                assert(after.nodes[b].id == Some(x));
            }
            assert forall|e: int| 0 <= e < after.edges.len() implies after.has_node(
                (#[trigger] after.edges[e]).parent_id,
            ) && after.has_node(after.edges[e].child_id) by {
                lemma_filter_elem(before.edges, pe, e);
                let q = choose|q: int| 0 <= q < before.edges.len() && before.edges[q] == after.edges[e];
                assert(before.has_node(before.edges[q].parent_id));
                assert(before.has_node(before.edges[q].child_id));
            }
            assert forall|l: int| 0 <= l < after.leaves.len() implies after.has_node(
                (#[trigger] after.leaves[l]).tree_node_id,
            ) by {
                lemma_filter_elem(before.leaves, pl, l);
                let q = choose|q: int| 0 <= q < before.leaves.len() && before.leaves[q] == after.leaves[l];
                assert(before.has_node(before.leaves[q].tree_node_id));
            }
        }
        Ok(())
    }

    fn update_summary(&mut self, id: i64, summary: &str) -> (r: Result<(), MemoryError>)
        ensures
            final(self).next_fresh() == old(self).next_fresh(),
            r is Ok,
    {
        let ghost before = self.model();
        let n = self.nodes.len();
        for i in 0..n
            invariant
                n == self.nodes@.len(),
                n == before.nodes.len(),
                self.edges@ == before.edges,
                self.leaves@ == before.leaves,
                before == old(self).model(),
                self.next_id == old(self).next_id,
                forall|j: int|
                    0 <= j < i ==> if (#[trigger] before.nodes[j]).id == Some(id) {
                        same_but_summary(before.nodes[j], self.nodes@[j]) && self.nodes@[j].summary@
                            == summary@
                    } else {
                        self.nodes@[j] == before.nodes[j]
                    },
                forall|j: int| i <= j < n ==> self.nodes@[j] == before.nodes[j],
        {
            if self.nodes[i].id == Some(id) {
                let updated = TreeNode {
                    id: self.nodes[i].id,
                    name: self.nodes[i].name.clone(),
                    summary: owned(summary),
                    kind: self.nodes[i].kind,
                    permanent: self.nodes[i].permanent,
                    created_at: self.nodes[i].created_at.clone(),
                    updated_at: self.nodes[i].updated_at.clone(),
                };
                self.nodes.set(i, updated);
            }
        }
        proof {
            let after = self.model();
            assert(forall|j: int| 0 <= j < n ==> (#[trigger] after.nodes[j]).id == before.nodes[j].id);
            assert forall|x: i64| before.has_node(x) implies #[trigger] after.has_node(x) by {
                let a = choose|a: int| 0 <= a < before.nodes.len() && #[trigger] before.nodes[a].id == Some(x);
                assert(after.nodes[a].id == Some(x));
            }
            assert forall|e: int| 0 <= e < after.edges.len() implies after.has_node(
                (#[trigger] after.edges[e]).parent_id,
            ) && after.has_node(after.edges[e].child_id) by {
                assert(before.has_node(before.edges[e].parent_id));
                assert(before.has_node(before.edges[e].child_id));
            }
            assert forall|l: int| 0 <= l < after.leaves.len() implies after.has_node(
                (#[trigger] after.leaves[l]).tree_node_id,
            ) by {
                assert(before.has_node(before.leaves[l].tree_node_id));
            }
        }
        Ok(())
    }

    fn reset_store(&mut self) -> (r: Result<(), MemoryError>)
        ensures
            final(self).next_fresh() == old(self).next_fresh(),
            r is Ok,
    {
        self.nodes = Vec::new();
        self.edges = Vec::new();
        self.leaves = Vec::new();
        assert(self.model() =~= TreeModel::empty());
        Ok(())
    }
}

} // verus!
