//! Introspection: the read-only views behind the inspection tools, over the
//! long-term tree (the short-term counts come from the STM store).
use vstd::prelude::*;
use crate::error::MemoryError;
use crate::ltm::{lemma_find_node, Leaf, LtmRepository, TreeNode};
use crate::ltm_retrieval::{
    ancestors_listed, leaf_ref_of, view_of, LeafRef, LtmRetrieval, MapNode, NodeView,
};
use crate::text::owned;

verus! {

/// A node with its immediate graph context: parents, children, document leaves.
#[derive(Debug)]
pub struct NodeDetail {
    pub node: NodeView,
    pub parents: Vec<NodeView>,
    pub children: Vec<NodeView>,
    pub leaves: Vec<LeafRef>,
}

/// Where a document lives: its LTM leaf with the ancestor branch, and how many
/// STM facts still carry it.
#[derive(Debug)]
pub struct TraceResult {
    pub data_id: String,
    pub ltm_leaf: Option<NodeView>,
    pub ltm_branch: Vec<NodeView>,
    pub stm_node_count: i64,
}

/// A compact health summary of both stores.
#[derive(Debug)]
pub struct HealthView {
    pub stm_active_nodes: i64,
    pub stm_archived_nodes: i64,
    pub ltm_tree_nodes: i64,
    pub ltm_orphan_leaves: i64,
    pub stm_db_bytes: i64,
    pub ltm_db_bytes: i64,
    /// -1 when unknown (the on-demand path has no live feeder).
    pub feeder_lag: i64,
    pub feeder_errors: u64,
}

/// Read-only introspection over the knowledge tree.
pub struct IntrospectionService<R> {
    pub retrieval: LtmRetrieval<R>,
}

impl<R: LtmRepository> IntrospectionService<R> {
    pub fn new(ltm: R) -> (r: Self)
        ensures
            r.retrieval.repo == ltm,
    {
        IntrospectionService { retrieval: LtmRetrieval::new(ltm) }
    }

    /// The top `depth` concept layers of the tree.
    pub fn ltm_map(&self, depth: usize) -> (r: Result<Vec<MapNode>, MemoryError>)
        requires
            self.retrieval.repo.inv(),
        ensures
            r matches Ok(v) ==> {
                &&& depth == 0 ==> v@.len() == 0
                &&& depth > 0 ==> {
                    let roots = self.retrieval.repo.model().roots();
                    &&& v@.len() == roots.len()
                    &&& forall|i: int|
                        0 <= i < roots.len() ==> crate::ltm_retrieval::map_matches(
                            self.retrieval.repo.model(),
                            #[trigger] v@[i],
                            roots[i],
                            depth as nat,
                        )
                }
            },
            self.retrieval.repo.reliable() ==> r is Ok,
    {
        self.retrieval.map(depth)
    }

    /// A branch of the tree from `node` down to `depth` layers.
    pub fn subtree(&self, node: i64, depth: usize) -> (r: Result<Option<MapNode>, MemoryError>)
        requires
            self.retrieval.repo.inv(),
        ensures
            r matches Ok(res) ==> match res {
                None => self.retrieval.repo.model().node(node) is None,
                Some(out) => self.retrieval.repo.model().node(node) matches Some(n)
                    && crate::ltm_retrieval::map_matches(
                    self.retrieval.repo.model(),
                    out,
                    n,
                    if depth == 0 { 1 } else { depth as nat },
                ),
            },
            self.retrieval.repo.reliable() ==> r is Ok,
    {
        self.retrieval.subtree(node, depth)
    }

    /// One node with its parents, children and document leaves; `None` when
    /// the node does not exist.
    pub fn inspect_node(&self, id: i64) -> (r: Result<Option<NodeDetail>, MemoryError>)
        requires
            self.retrieval.repo.inv(),
        ensures
            r matches Ok(res) ==> {
                let m = self.retrieval.repo.model();
                match res {
                    None => m.node(id) is None,
                    Some(d) => {
                        &&& m.node(id) matches Some(n)
                        &&& d.node == view_of(n)
                        &&& d.parents@ == m.parents(id).map_values(|x: TreeNode| view_of(x))
                        &&& d.children@ == m.children(id).map_values(|x: TreeNode| view_of(x))
                        &&& d.leaves@ == m.child_leaves(id).map_values(|l: Leaf| leaf_ref_of(l))
                    },
                }
            },
            self.retrieval.repo.reliable() ==> r is Ok,
    {
        let repo = &self.retrieval.repo;
        let found = repo.get_node(id)?;
        proof {
            lemma_find_node(repo.model().nodes, id);
        }
        let node = match found {
            None => {
                return Ok(None);
            },
            Some(n) => n,
        };
        let parents = repo.get_parents(id)?;
        let children = repo.get_children(id)?;
        let leaves = repo.get_child_leaves(id)?;
        proof {
            let m = repo.model();
            assert forall|i: int| 0 <= i < parents@.len() implies (#[trigger] parents@[i]).id is Some by {
                crate::ltm_store::lemma_filter_elem(m.nodes, m.is_parent_of(id), i);
            }
            assert forall|i: int| 0 <= i < children@.len() implies (#[trigger] children@[i]).id is Some by {
                crate::ltm_store::lemma_filter_elem(m.nodes, m.is_child_of(id), i);
            }
        }
        Ok(Some(NodeDetail {
            node: NodeView::from_node(&node),
            parents: crate::ltm_retrieval::node_views(&parents),
            children: crate::ltm_retrieval::node_views(&children),
            leaves: crate::ltm_retrieval::leaf_refs(leaves),
        }))
    }

    /// Locates a `dataId` in the tree: its leaf node and that node's ancestors,
    /// with the given count of STM facts still carrying it.
    pub fn trace_data_id(&self, data_id: &str, stm_node_count: i64) -> (r: Result<TraceResult, MemoryError>)
        requires
            self.retrieval.repo.inv(),
        ensures
            r matches Ok(t) ==> {
                let m = self.retrieval.repo.model();
                &&& t.data_id@ == data_id@
                &&& t.stm_node_count == stm_node_count
                &&& match m.node_by_data_id(data_id@) {
                    None => t.ltm_leaf is None && t.ltm_branch@.len() == 0,
                    Some(leaf) => {
                        &&& t.ltm_leaf == Some(view_of(leaf))
                        &&& exists|a: Seq<TreeNode>|
                            #![trigger ancestors_listed(m, leaf.id->0, a)]
                            ancestors_listed(m, leaf.id->0, a) && t.ltm_branch@ == a.map_values(
                                |x: TreeNode| view_of(x),
                            )
                    },
                }
            },
            self.retrieval.repo.reliable() ==> r is Ok,
    {
        let repo = &self.retrieval.repo;
        let found = repo.get_node_by_data_id(data_id)?;
        proof {
            repo.lemma_inv_wf();
            match crate::ltm::find_leaf(repo.model().leaves, data_id@) {
                Some(l) => lemma_find_node(repo.model().nodes, l.tree_node_id),
                None => {},
            }
        }
        let (ltm_leaf, ltm_branch) = match found {
            Some(leaf) => {
                let id = match leaf.id {
                    Some(id) => id,
                    None => 0,
                };
                let branch = self.retrieval.ancestors(id)?;
                (Some(NodeView::from_node(&leaf)), branch)
            },
            None => (None, Vec::new()),
        };
        Ok(TraceResult { data_id: owned(data_id), ltm_leaf, ltm_branch, stm_node_count })
    }
}

} // verus!
