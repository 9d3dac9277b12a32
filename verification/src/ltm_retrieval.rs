//! LTM retrieval: navigate the knowledge tree (map -> expand -> drill) and
//! assemble the context around a located node. Results are reference-returning:
//! leaves surface their `dataId` and provenance.
use std::collections::HashSet;
use vstd::prelude::*;
use crate::error::MemoryError;
use crate::ltm::{
    lemma_ancestor_step,
    is_ancestor, is_upward_path, lemma_find_node, Leaf, LtmRepository, Provenance, TreeModel,
    TreeNode, TreeNodeKind,
};

verus! {

broadcast use {vstd::seq_lib::group_filter_ensures, vstd::std_specs::hash::group_hash_axioms};

/// A concept or leaf node flattened for output (no internal timestamps).
#[derive(Debug)]
pub struct NodeView {
    pub id: i64,
    pub name: String,
    pub summary: String,
    pub kind: TreeNodeKind,
}

/// The output view of a stored node.
pub open spec fn view_of(n: TreeNode) -> NodeView {
    NodeView { id: n.id->0, name: n.name, summary: n.summary, kind: n.kind }
}

impl NodeView {
    /// The view of a stored node.
    pub fn from_node(node: &TreeNode) -> (r: NodeView)
        requires
            node.id is Some,
        ensures
            r == view_of(*node),
    {
        let id = match node.id {
            Some(id) => id,
            None => 0,
        };
        NodeView { id, name: node.name.clone(), summary: node.summary.clone(), kind: node.kind }
    }
}

/// A node plus its concept descendants down to a depth (a table of contents).
/// Document leaves are omitted.
#[derive(Debug)]
pub struct MapNode {
    pub id: i64,
    pub name: String,
    pub summary: String,
    pub kind: TreeNodeKind,
    pub children: Vec<MapNode>,
}

/// A reference to a document leaf: its archive pointer and provenance.
#[derive(Debug)]
pub struct LeafRef {
    pub data_id: String,
    pub provenance: Provenance,
}

/// The output reference of a leaf record.
pub open spec fn leaf_ref_of(l: Leaf) -> LeafRef {
    LeafRef { data_id: l.data_id, provenance: l.provenance }
}

/// A node and its direct children (concepts and leaves).
#[derive(Debug)]
pub struct ExpandResult {
    pub node: NodeView,
    pub children: Vec<NodeView>,
}

/// A node and the documents attached directly beneath it.
#[derive(Debug)]
pub struct DrillResult {
    pub node: NodeView,
    pub leaves: Vec<LeafRef>,
}

/// The context assembled around an entry node: framed by its ancestors (up),
/// detailed by its children and document leaves (down).
#[derive(Debug)]
pub struct RecallContext {
    pub entry: NodeView,
    pub ancestors: Vec<NodeView>,
    pub children: Vec<NodeView>,
    pub leaves: Vec<LeafRef>,
}

pub open spec fn is_concept() -> spec_fn(TreeNode) -> bool {
    |n: TreeNode| n.kind != TreeNodeKind::Leaf
}

/// The concept (non-leaf) children of a node.
pub open spec fn concept_children(m: TreeModel, id: i64) -> Seq<TreeNode> {
    m.children(id).filter(is_concept())
}

/// `out` is the map of `node` with `remaining` layers (1 = the node alone):
/// each layer lists the concept children, leaves never appear.
pub open spec fn map_matches(m: TreeModel, out: MapNode, node: TreeNode, remaining: nat) -> bool
    decreases remaining,
{
    &&& out.id == node.id->0
    &&& out.name == node.name
    &&& out.summary == node.summary
    &&& out.kind == node.kind
    &&& if remaining <= 1 {
        out.children@.len() == 0
    } else {
        let cs = concept_children(m, node.id->0);
        &&& out.children@.len() == cs.len()
        &&& forall|i: int|
            0 <= i < cs.len() ==> map_matches(
                m,
                #[trigger] out.children@[i],
                cs[i],
                (remaining - 1) as nat,
            )
    }
}

/// `out` shows no document leaf at any level and spans at most `depth` layers.
pub open spec fn concept_map_within(out: MapNode, depth: nat) -> bool
    decreases depth,
{
    if depth == 0 {
        false
    } else {
        &&& out.kind != TreeNodeKind::Leaf
        &&& (depth == 1 ==> out.children@.len() == 0)
        &&& forall|i: int|
            0 <= i < out.children@.len() ==> concept_map_within(#[trigger] out.children@[i], (depth - 1) as nat)
    }
}

/// `a` lies at least one and at most `d` parent steps above `x`.
pub open spec fn above_within(m: TreeModel, x: i64, a: i64, d: nat) -> bool
    decreases d,
{
    if d == 0 {
        false
    } else {
        ||| above_within(m, x, a, (d - 1) as nat)
        ||| m.has_edge(a, x)
        ||| exists|p: i64| above_within(m, x, p, (d - 1) as nat) && #[trigger] m.has_edge(a, p)
    }
}

/// `a` lies exactly `l` parent steps above `x` by its shortest way (`x`
/// itself at level 0).
pub open spec fn exact_level(m: TreeModel, x: i64, a: i64, l: nat) -> bool {
    if l == 0 {
        a == x
    } else {
        above_within(m, x, a, l) && !above_within(m, x, a, (l - 1) as nat)
    }
}

/// `v` lists nodes nearest first: no node comes after one that lies fewer
/// parent steps above `x`.
pub open spec fn nearest_first(m: TreeModel, x: i64, v: Seq<TreeNode>) -> bool {
    forall|i: int, j: int, d: nat|
        #![trigger v[i], above_within(m, x, v[j].id->0, d)]
        0 <= i < j < v.len() && above_within(m, x, v[j].id->0, d) ==> above_within(m, x, v[i].id->0, d)
}

/// The ids in `s` lie nearest first above `x`.
spec fn ids_nearest_first(m: TreeModel, x: i64, s: Seq<i64>) -> bool {
    forall|i: int, j: int, d: nat|
        #![trigger s[i], above_within(m, x, s[j], d)]
        0 <= i < j < s.len() && above_within(m, x, s[j], d) ==> above_within(m, x, s[i], d)
}

proof fn lemma_within_mono(m: TreeModel, x: i64, a: i64, d1: nat, d2: nat)
    requires
        above_within(m, x, a, d1),
        d1 <= d2,
    ensures
        above_within(m, x, a, d2),
    decreases d2,
{
    if d1 < d2 {
        lemma_within_mono(m, x, a, d1, (d2 - 1) as nat);
    }
}

/// A node at exact level `l` lies no fewer than `l` steps up.
proof fn lemma_exact_least(m: TreeModel, x: i64, a: i64, l: nat, d: nat)
    requires
        exact_level(m, x, a, l),
        l >= 1,
        above_within(m, x, a, d),
    ensures
        l <= d,
{
    if d < l {
        lemma_within_mono(m, x, a, d, (l - 1) as nat);
    }
}

/// A parent of a node at level `l` lies within `l + 1` steps.
proof fn lemma_step_up(m: TreeModel, x: i64, f: i64, a: i64, l: nat)
    requires
        exact_level(m, x, f, l),
        m.has_edge(a, f),
    ensures
        above_within(m, x, a, l + 1),
{
}

/// A node at level `l + 1` is a parent of a node at level `l`.
proof fn lemma_exact_pred(m: TreeModel, x: i64, a: i64, l: nat)
    requires
        exact_level(m, x, a, l + 1),
    ensures
        exists|p: i64| exact_level(m, x, p, l) && #[trigger] m.has_edge(a, p),
{
    if m.has_edge(a, x) {
        if l >= 1 {
            assert(above_within(m, x, a, 1));
            lemma_within_mono(m, x, a, 1, l);
        }
        assert(exact_level(m, x, x, 0));
        if l == 0 {
            assert(exact_level(m, x, x, l) && m.has_edge(a, x));
        }
    } else {
        let p = choose|p: i64| above_within(m, x, p, l) && #[trigger] m.has_edge(a, p);
        if l >= 1 && above_within(m, x, p, (l - 1) as nat) {
            assert(above_within(m, x, a, l));
        }
        assert(exact_level(m, x, p, l));
    }
}

/// Once a level is empty, every node above `x` lies within the levels before it.
proof fn lemma_levels_end(m: TreeModel, x: i64, lvl: nat, a: i64, d: nat)
    requires
        lvl >= 1,
        forall|b: i64| !#[trigger] exact_level(m, x, b, lvl),
        above_within(m, x, a, d),
    ensures
        above_within(m, x, a, lvl),
    decreases d,
{
    if d <= lvl {
        lemma_within_mono(m, x, a, d, lvl);
    } else if above_within(m, x, a, (d - 1) as nat) {
        lemma_levels_end(m, x, lvl, a, (d - 1) as nat);
    } else if m.has_edge(a, x) {
        assert(above_within(m, x, a, 1));
        lemma_within_mono(m, x, a, 1, lvl);
    } else {
        let p = choose|p: i64| above_within(m, x, p, (d - 1) as nat) && #[trigger] m.has_edge(a, p);
        lemma_levels_end(m, x, lvl, p, (d - 1) as nat);
        assert(exact_level(m, x, p, lvl) || above_within(m, x, p, (lvl - 1) as nat));
        if !above_within(m, x, a, lvl) {
            assert(above_within(m, x, a, lvl + 1));
            assert(exact_level(m, x, a, lvl + 1));
            lemma_exact_pred(m, x, a, lvl);
        }
    }
}

/// A node within some steps above `x` is an ancestor of `x`, and a stored node.
proof fn lemma_within_ancestor(m: TreeModel, x: i64, a: i64, d: nat)
    requires
        m.wf(),
        above_within(m, x, a, d),
    ensures
        is_ancestor(m, x, a),
        m.has_node(a),
    decreases d,
{
    if above_within(m, x, a, (d - 1) as nat) {
        lemma_within_ancestor(m, x, a, (d - 1) as nat);
    } else if m.has_edge(a, x) {
        assert(is_upward_path(m, x, seq![a]));
        let e = choose|e: int| 0 <= e < m.edges.len() && m.edges[e] == (crate::ltm::TreeEdge { parent_id: a, child_id: x });
        assert(m.has_node(m.edges[e].parent_id));
    } else {
        let p = choose|p: i64| above_within(m, x, p, (d - 1) as nat) && #[trigger] m.has_edge(a, p);
        lemma_within_ancestor(m, x, p, (d - 1) as nat);
        lemma_ancestor_step(m, x, a, p);
        let e = choose|e: int| 0 <= e < m.edges.len() && m.edges[e] == (crate::ltm::TreeEdge { parent_id: a, child_id: p });
        assert(m.has_node(m.edges[e].parent_id));
    }
}

/// Each entry of an upward path lies within its position plus one steps.
proof fn lemma_path_within(m: TreeModel, x: i64, path: Seq<i64>, i: int)
    requires
        is_upward_path(m, x, path),
        0 <= i < path.len(),
    ensures
        above_within(m, x, path[i], (i + 1) as nat),
    decreases i,
{
    if i == 0 {
        assert(m.has_edge(path[0], x));
    } else {
        lemma_path_within(m, x, path, i - 1);
        assert(m.has_edge(path[i], path[i - 1]));
    }
}

/// `c` is the context recalled around `entry_id` in `m`: the entry, its
/// distinct ancestors nearest first, its children and its document leaves.
pub open spec fn recalled(m: TreeModel, entry_id: i64, c: RecallContext) -> bool {
    &&& m.node(entry_id) matches Some(n)
    &&& c.entry == view_of(n)
    &&& exists|a: Seq<TreeNode>|
        #![trigger ancestors_listed(m, entry_id, a)]
        ancestors_listed(m, entry_id, a) && nearest_first(m, entry_id, a) && c.ancestors@ == a.map_values(
            |x: TreeNode| view_of(x),
        )
    &&& c.children@ == m.children(entry_id).map_values(|x: TreeNode| view_of(x))
    &&& c.leaves@ == m.child_leaves(entry_id).map_values(|l: Leaf| leaf_ref_of(l))
}

/// A node within `d` steps above `x` is reached by an upward path of at most `d` steps.
pub proof fn lemma_within_path(m: TreeModel, x: i64, a: i64, d: nat)
    requires
        above_within(m, x, a, d),
    ensures
        exists|path: Seq<i64>| #[trigger] is_upward_path(m, x, path) && path.last() == a && path.len() <= d,
    decreases d,
{
    if above_within(m, x, a, (d - 1) as nat) {
        lemma_within_path(m, x, a, (d - 1) as nat);
        let path = choose|path: Seq<i64>| #[trigger] is_upward_path(m, x, path) && path.last() == a && path.len() <= (d - 1) as nat;
        assert(is_upward_path(m, x, path));
    } else if m.has_edge(a, x) {
        assert(is_upward_path(m, x, seq![a]));
        assert(seq![a].last() == a);
    } else {
        let p = choose|p: i64| above_within(m, x, p, (d - 1) as nat) && #[trigger] m.has_edge(a, p);
        lemma_within_path(m, x, p, (d - 1) as nat);
        let path = choose|path: Seq<i64>| #[trigger] is_upward_path(m, x, path) && path.last() == p && path.len() <= (d - 1) as nat;
        let longer = path.push(a);
        assert forall|i: int| 1 <= i < longer.len() implies #[trigger] m.has_edge(longer[i], longer[i - 1]) by {
            if i < path.len() {
                assert(longer[i] == path[i]);
                assert(longer[i - 1] == path[i - 1]);
                assert(m.has_edge(path[i], path[i - 1]));
            } else {
                assert(longer[i - 1] == p);
            }
        }
        assert(is_upward_path(m, x, longer));
        assert(longer.last() == a);
    }
}

/// An entry of an upward path lies within as many steps as its position counts.
pub proof fn lemma_path_within_steps(m: TreeModel, x: i64, path: Seq<i64>)
    requires
        is_upward_path(m, x, path),
    ensures
        above_within(m, x, path.last(), path.len()),
{
    lemma_path_within(m, x, path, path.len() - 1);
}

/// `v` lists the distinct proper ancestors of `x`, each a stored node.
pub open spec fn ancestors_listed(m: TreeModel, x: i64, v: Seq<TreeNode>) -> bool {
    &&& forall|i: int|
        0 <= i < v.len() ==> (#[trigger] v[i]).id is Some && m.nodes.contains(v[i])
            && is_ancestor(m, x, v[i].id->0)
    &&& forall|i: int, j: int| 0 <= i < j < v.len() ==> (#[trigger] v[i]).id != (#[trigger] v[j]).id
    &&& forall|a: i64| #[trigger] is_ancestor(m, x, a) ==> exists|i: int| 0 <= i < v.len() && v[i].id == Some(a)
}

/// Distinct ids of stored nodes are no more than the nodes.
proof fn lemma_distinct_ids_bounded(m: TreeModel, s: Seq<i64>)
    requires
        forall|i: int, j: int| 0 <= i < j < s.len() ==> s[i] != s[j],
        forall|i: int| 0 <= i < s.len() ==> m.has_node(#[trigger] s[i]),
    ensures
        s.len() <= m.nodes.len(),
{
    let ids = m.nodes.map_values(|n: TreeNode| n.id->0);
    assert(s.no_duplicates());
    s.unique_seq_to_set();
    ids.lemma_cardinality_of_set();
    assert forall|a: i64| s.to_set().contains(a) implies ids.to_set().contains(a) by {
        let i = choose|i: int| 0 <= i < s.len() && s[i] == a;
        assert(m.has_node(s[i]));
        let k = choose|k: int| 0 <= k < m.nodes.len() && #[trigger] m.nodes[k].id == Some(a);
        assert(ids[k] == a);
    }
    vstd::set_lib::lemma_len_subset(s.to_set(), ids.to_set());
}

/// The `j`-th parent of `c` is a stored node with an edge into `c`.
proof fn lemma_filter_parent(m: TreeModel, c: i64, j: int)
    requires
        0 <= j < m.parents(c).len(),
    ensures
        m.parents(c)[j].id is Some,
        m.has_edge(m.parents(c)[j].id->0, c),
        m.nodes.contains(m.parents(c)[j]),
{
    crate::ltm_store::lemma_filter_elem(m.nodes, m.is_parent_of(c), j);
}

/// Whether `v` holds `x`.
pub(crate) fn contains_id(v: &Vec<i64>, x: i64) -> (r: bool)
    ensures
        r == v@.contains(x),
{
    let n = v.len();
    for i in 0..n
        invariant
            n == v@.len(),
            forall|j: int| 0 <= j < i ==> v@[j] != x,
    {
        if v[i] == x {
            return true;
        }
    }
    false
}

/// All distinct proper ancestors of a node, breadth-first upward (nearest first).
pub fn collect_ancestors<R: LtmRepository>(repo: &R, node_id: i64) -> (r: Result<Vec<TreeNode>, MemoryError>)
    requires
        repo.inv(),
    ensures
        r matches Ok(v) ==> ancestors_listed(repo.model(), node_id, v@) && nearest_first(
            repo.model(),
            node_id,
            v@,
        ),
        repo.reliable() ==> r is Ok,
{
    let ghost m = repo.model();
    proof {
        repo.lemma_inv_wf();
    }
    let mut seen: Vec<i64> = Vec::new();
    let mut seen_set: HashSet<i64> = HashSet::new();
    let mut out: Vec<TreeNode> = Vec::new();
    // The nodes of the level reached last; level 0 is the node itself.
    let mut frontier: Vec<i64> = Vec::new();
    frontier.push(node_id);
    let ghost mut lvl: nat = 0;
    proof {
        assert(frontier@[0] == node_id);
        assert forall|a: i64| #[trigger] frontier@.contains(a) <==> exact_level(m, node_id, a, lvl) by {
            if frontier@.contains(a) {
                let k = choose|k: int| 0 <= k < frontier@.len() && frontier@[k] == a;
            }
        }
    }
    while frontier.len() > 0
        invariant
            m == repo.model(),
            m.wf(),
            repo.inv(),
            seen@.no_duplicates(),
            forall|a: i64| #[trigger] seen_set@.contains(a) <==> seen@.contains(a),
            seen@.len() <= m.nodes.len(),
            out@.len() == seen@.len(),
            forall|k: int|
                0 <= k < out@.len() ==> (#[trigger] out@[k]).id == Some(seen@[k]) && m.nodes.contains(
                    out@[k],
                ),
            forall|a: i64| #[trigger] seen@.contains(a) <==> above_within(m, node_id, a, lvl),
            forall|a: i64| #[trigger] frontier@.contains(a) <==> exact_level(m, node_id, a, lvl),
            ids_nearest_first(m, node_id, seen@),
        decreases m.nodes.len() - seen@.len() + frontier@.len(),
    {
        let ghost seen0 = seen@;
        let ghost out0 = out@;
        let mut next: Vec<i64> = Vec::new();
        let nf = frontier.len();
        for fi in 0..nf
            invariant
                m == repo.model(),
                m.wf(),
                repo.inv(),
                nf == frontier@.len(),
                forall|a: i64| #[trigger] frontier@.contains(a) <==> exact_level(m, node_id, a, lvl),
                forall|a: i64| #[trigger] seen0.contains(a) <==> above_within(m, node_id, a, lvl),
                seen@ == seen0 + next@,
                seen@.no_duplicates(),
                forall|a: i64| #[trigger] seen_set@.contains(a) <==> seen@.contains(a),
                out@.len() == seen@.len(),
                forall|k: int|
                    0 <= k < out@.len() ==> (#[trigger] out@[k]).id == Some(seen@[k])
                        && m.nodes.contains(out@[k]),
                forall|a: i64| #[trigger] next@.contains(a) ==> exact_level(m, node_id, a, lvl + 1),
                ids_nearest_first(m, node_id, seen@),
                forall|k: int, a: i64| 0 <= k < fi && #[trigger] m.has_edge(a, frontier@[k]) ==> seen@.contains(a),
        {
            let f = frontier[fi];
            proof {
                assert(frontier@.contains(f));
            }
            let parents = repo.get_parents(f)?;
            let np = parents.len();
            let ghost seen1 = seen@;
            for j in 0..np
                invariant
                    m == repo.model(),
                    m.wf(),
                    np == parents@.len(),
                    parents@ == m.parents(f),
                    f == frontier@[fi as int],
                    exact_level(m, node_id, f, lvl),
                    nf == frontier@.len(),
                    fi < nf,
                    forall|a: i64| #[trigger] seen0.contains(a) <==> above_within(m, node_id, a, lvl),
                    seen@ == seen0 + next@,
                    seen@.no_duplicates(),
                    forall|a: i64| #[trigger] seen_set@.contains(a) <==> seen@.contains(a),
                    out@.len() == seen@.len(),
                    forall|k: int|
                        0 <= k < out@.len() ==> (#[trigger] out@[k]).id == Some(seen@[k])
                            && m.nodes.contains(out@[k]),
                    forall|a: i64| #[trigger] next@.contains(a) ==> exact_level(m, node_id, a, lvl + 1),
                    ids_nearest_first(m, node_id, seen@),
                    forall|a: i64| #[trigger] seen1.contains(a) ==> seen@.contains(a),
                    forall|k: int, a: i64| 0 <= k < fi && #[trigger] m.has_edge(a, frontier@[k]) ==> seen1.contains(a),
                    forall|k: int| 0 <= k < j ==> seen@.contains((#[trigger] parents@[k]).id->0),
            {
                proof {
                    lemma_filter_parent(m, f, j as int);
                }
                let pid = match parents[j].id {
                    Some(p) => p,
                    None => 0,
                };
                if !seen_set.contains(&pid) {
                    let ghost prev = seen@;
                    let ghost prev_next = next@;
                    proof {
                        lemma_step_up(m, node_id, f, pid, lvl);
                        assert(!seen0.contains(pid)) by {
                            if seen0.contains(pid) {
                                let w = choose|w: int| 0 <= w < seen0.len() && seen0[w] == pid;
                                assert(prev[w] == pid);
                            }
                        }
                        assert(exact_level(m, node_id, pid, lvl + 1));
                    }
                    seen.push(pid);
                    seen_set.insert(pid);
                    next.push(pid);
                    out.push(parents[j].clone());
                    proof {
                        assert(seen@ =~= seen0 + next@);
                        assert forall|x: i64| #[trigger] seen@.contains(x) <==> prev.contains(x) || x == pid by {
                            if prev.contains(x) {
                                let w = choose|w: int| 0 <= w < prev.len() && prev[w] == x;
                                assert(seen@[w] == x);
                            }
                            if seen@.contains(x) {
                                let w = choose|w: int| 0 <= w < seen@.len() && seen@[w] == x;
                                if w < prev.len() {
                                    assert(prev[w] == x);
                                }
                            }
                            assert(seen@[prev.len() as int] == pid);
                        }
                        assert forall|x: i64| #[trigger] next@.contains(x) implies exact_level(m, node_id, x, lvl + 1) by {
                            let w = choose|w: int| 0 <= w < next@.len() && next@[w] == x;
                            if w < prev_next.len() {
                                assert(prev_next[w] == x);
                                assert(prev_next.contains(x));
                            } else {
                                assert(next@[w] == pid);
                            }
                        }
                        assert forall|k: int| 0 <= k < out@.len() implies (#[trigger] out@[k]).id == Some(seen@[k])
                            && m.nodes.contains(out@[k]) by {
                            if k < prev.len() {
                                assert(seen@[k] == prev[k]);
                            }
                        }
                        // Entries already seen lie no farther up than the new one.
                        assert forall|i: int, jj: int, d: nat|
                            #![trigger seen@[i], above_within(m, node_id, seen@[jj], d)]
                            0 <= i < jj < seen@.len() && above_within(m, node_id, seen@[jj], d) implies above_within(
                            m,
                            node_id,
                            seen@[i],
                            d,
                        ) by {
                            if jj < prev.len() {
                                assert(seen@[jj] == prev[jj]);
                                assert(seen@[i] == prev[i]);
                            } else {
                                lemma_exact_least(m, node_id, pid, lvl + 1, d);
                                assert(seen@[i] == prev[i]);
                                if i < seen0.len() {
                                    assert(prev[i] == seen0[i]);
                                    assert(seen0.contains(seen0[i]));
                                    lemma_within_mono(m, node_id, seen@[i], lvl, d);
                                } else {
                                    assert(prev[i] == prev_next[i - seen0.len()]);
                                    assert(next@.contains(prev_next[i - seen0.len()]));
                                    lemma_within_mono(m, node_id, seen@[i], lvl + 1, d);
                                }
                            }
                        }
                        assert forall|k: int| 0 <= k <= j implies seen@.contains((#[trigger] parents@[k]).id->0) by {
                            if k < j {
                                assert(prev.contains(parents@[k].id->0));
                            }
                        }
                        assert(seen@.no_duplicates());
                    }
                }
            }
            proof {
                // Every parent of `f` is now seen.
                assert forall|a: i64| #[trigger] m.has_edge(a, f) implies seen@.contains(a) by {
                    let e = choose|e: int| 0 <= e < m.edges.len() && m.edges[e] == (crate::ltm::TreeEdge { parent_id: a, child_id: f });
                    assert(m.has_node(m.edges[e].parent_id));
                    let k = choose|k: int| 0 <= k < m.nodes.len() && #[trigger] m.nodes[k].id == Some(a);
                    assert((m.is_parent_of(f))(m.nodes[k]));
                    m.nodes.lemma_filter_contains(m.is_parent_of(f), k);
                    let w = choose|w: int| 0 <= w < parents@.len() && parents@[w] == m.nodes[k];
                    assert(seen@.contains((parents@[w]).id->0));
                }
                assert forall|k: int, a: i64| 0 <= k < fi + 1 && #[trigger] m.has_edge(a, frontier@[k]) implies seen@.contains(a) by {
                    if k < fi {
                        assert(seen1.contains(a));
                    }
                }
            }
        }
        proof {
            // The next level is exactly what was found.
            assert forall|a: i64| #[trigger] next@.contains(a) <==> exact_level(m, node_id, a, lvl + 1) by {
                if exact_level(m, node_id, a, lvl + 1) {
                    lemma_exact_pred(m, node_id, a, lvl);
                    let p = choose|p: i64| exact_level(m, node_id, p, lvl) && #[trigger] m.has_edge(a, p);
                    assert(frontier@.contains(p));
                    let k = choose|k: int| 0 <= k < frontier@.len() && frontier@[k] == p;
                    assert(m.has_edge(a, frontier@[k]));
                    assert(seen@.contains(a));
                    let w = choose|w: int| 0 <= w < seen@.len() && seen@[w] == a;
                    if w < seen0.len() {
                        assert(seen0[w] == a);
                        assert(seen0.contains(a));
                    } else {
                        assert(next@[w - seen0.len()] == a);
                    }
                }
            }
            assert forall|a: i64| #[trigger] seen@.contains(a) <==> above_within(m, node_id, a, lvl + 1) by {
                if seen@.contains(a) {
                    let w = choose|w: int| 0 <= w < seen@.len() && seen@[w] == a;
                    if w < seen0.len() {
                        assert(seen0[w] == a);
                        assert(seen0.contains(a));
                    } else {
                        assert(next@[w - seen0.len()] == a);
                        assert(next@.contains(a));
                    }
                }
                if above_within(m, node_id, a, lvl + 1) {
                    if above_within(m, node_id, a, lvl) {
                        assert(seen0.contains(a));
                        let w = choose|w: int| 0 <= w < seen0.len() && seen0[w] == a;
                        assert(seen@[w] == a);
                    } else {
                        assert(exact_level(m, node_id, a, lvl + 1));
                        assert(next@.contains(a));
                        let w = choose|w: int| 0 <= w < next@.len() && next@[w] == a;
                        assert(seen@[seen0.len() + w] == a);
                    }
                }
            }
            assert forall|i: int| 0 <= i < seen@.len() implies m.has_node(#[trigger] seen@[i]) by {
                assert(seen@.contains(seen@[i]));
                lemma_within_ancestor(m, node_id, seen@[i], lvl + 1);
            }
            assert forall|i: int, j: int| 0 <= i < j < seen@.len() implies seen@[i] != seen@[j] by {
            }
            lemma_distinct_ids_bounded(m, seen@);
            lvl = lvl + 1;
        }
        frontier = next;
    }
    proof {
        assert(lvl >= 1) by {
            if lvl == 0 {
                assert(exact_level(m, node_id, node_id, 0));
                assert(frontier@.contains(node_id));
            }
        }
        assert forall|b: i64| !#[trigger] exact_level(m, node_id, b, lvl) by {
            if exact_level(m, node_id, b, lvl) {
                assert(frontier@.contains(b));
            }
        }
        let v = out@;
        assert forall|i: int| 0 <= i < v.len() implies (#[trigger] v[i]).id is Some && m.nodes.contains(v[i])
            && is_ancestor(m, node_id, v[i].id->0) by {
            assert(seen@.contains(seen@[i]));
            lemma_within_ancestor(m, node_id, seen@[i], lvl);
        }
        assert forall|i: int, j: int| 0 <= i < j < v.len() implies (#[trigger] v[i]).id != (#[trigger] v[j]).id by {
            assert(v[i].id == Some(seen@[i]));
            assert(v[j].id == Some(seen@[j]));
        }
        assert forall|a: i64| #[trigger] is_ancestor(m, node_id, a) implies exists|i: int|
            0 <= i < v.len() && v[i].id == Some(a) by {
            let path = choose|path: Seq<i64>| #[trigger] is_upward_path(m, node_id, path) && path.last() == a;
            lemma_path_within(m, node_id, path, path.len() - 1);
            lemma_levels_end(m, node_id, lvl, a, path.len() as nat);
            assert(seen@.contains(a));
            let i = choose|i: int| 0 <= i < seen@.len() && seen@[i] == a;
            assert(v[i].id == Some(a));
        }
        assert forall|i: int, j: int, d: nat|
            #![trigger v[i], above_within(m, node_id, v[j].id->0, d)]
            0 <= i < j < v.len() && above_within(m, node_id, v[j].id->0, d) implies above_within(
            m,
            node_id,
            v[i].id->0,
            d,
        ) by {
            assert(v[j].id->0 == seen@[j]);
            assert(v[i].id->0 == seen@[i]);
        }
    }
    Ok(out)
}

/// The views of stored nodes, in order.
pub fn node_views(nodes: &Vec<TreeNode>) -> (r: Vec<NodeView>)
    requires
        forall|i: int| 0 <= i < nodes@.len() ==> (#[trigger] nodes@[i]).id is Some,
    ensures
        r@ == nodes@.map_values(|n: TreeNode| view_of(n)),
{
    let mut out: Vec<NodeView> = Vec::new();
    let n = nodes.len();
    for i in 0..n
        invariant
            n == nodes@.len(),
            forall|k: int| 0 <= k < nodes@.len() ==> (#[trigger] nodes@[k]).id is Some,
            out@ == nodes@.take(i as int).map_values(|n: TreeNode| view_of(n)),
    {
        out.push(NodeView::from_node(&nodes[i]));
        assert(nodes@.take(i + 1).map_values(|n: TreeNode| view_of(n)) =~= nodes@.take(
            i as int,
        ).map_values(|n: TreeNode| view_of(n)).push(view_of(nodes@[i as int])));
    }
    assert(nodes@.take(n as int) =~= nodes@);
    out
}

/// The references of leaf records, in order.
pub fn leaf_refs(leaves: Vec<Leaf>) -> (r: Vec<LeafRef>)
    ensures
        r@ == leaves@.map_values(|l: Leaf| leaf_ref_of(l)),
{
    let mut out: Vec<LeafRef> = Vec::new();
    let n = leaves.len();
    for i in 0..n
        invariant
            n == leaves@.len(),
            out@ == leaves@.take(i as int).map_values(|l: Leaf| leaf_ref_of(l)),
    {
        let l = leaves[i].clone();
        out.push(LeafRef { data_id: l.data_id, provenance: l.provenance });
        assert(leaves@.take(i + 1).map_values(|l: Leaf| leaf_ref_of(l)) =~= leaves@.take(
            i as int,
        ).map_values(|l: Leaf| leaf_ref_of(l)).push(leaf_ref_of(leaves@[i as int])));
    }
    assert(leaves@.take(n as int) =~= leaves@);
    out
}

/// The children of a node are stored nodes with ids.
proof fn lemma_children_stored(m: TreeModel, id: i64)
    ensures
        forall|i: int| 0 <= i < m.children(id).len() ==> (#[trigger] m.children(id)[i]).id is Some
            && m.nodes.contains(m.children(id)[i]) && m.has_edge(id, m.children(id)[i].id->0),
{
    assert forall|i: int| 0 <= i < m.children(id).len() implies (#[trigger] m.children(id)[i]).id is Some
        && m.nodes.contains(m.children(id)[i]) && m.has_edge(id, m.children(id)[i].id->0) by {
        crate::ltm_store::lemma_filter_elem(m.nodes, m.is_child_of(id), i);
    }
}

/// Read-only navigation over an LTM tree store.
pub struct LtmRetrieval<R> {
    pub repo: R,
}

impl<R: LtmRepository> LtmRetrieval<R> {
    pub fn new(repo: R) -> (r: Self)
        ensures
            r.repo == repo,
    {
        LtmRetrieval { repo }
    }

    /// The top `depth` concept layers from the roots: `depth` is the number of
    /// layers (1 = roots only, 0 = nothing). Document leaves are excluded.
    pub fn map(&self, depth: usize) -> (r: Result<Vec<MapNode>, MemoryError>)
        requires
            self.repo.inv(),
        ensures
            r matches Ok(v) ==> {
                &&& depth == 0 ==> v@.len() == 0
                &&& depth > 0 ==> {
                    let roots = self.repo.model().roots();
                    &&& v@.len() == roots.len()
                    &&& forall|i: int|
                        0 <= i < roots.len() ==> map_matches(
                            self.repo.model(),
                            #[trigger] v@[i],
                            roots[i],
                            depth as nat,
                        )
                }
            },
            self.repo.reliable() ==> r is Ok,
    {
        let mut out: Vec<MapNode> = Vec::new();
        if depth == 0 {
            return Ok(out);
        }
        let roots = self.repo.get_roots()?;
        let ghost m = self.repo.model();
        let n = roots.len();
        for i in 0..n
            invariant
                n == roots@.len(),
                roots@ == m.roots(),
                m == self.repo.model(),
                self.repo.inv(),
                depth > 0,
                out@.len() == i,
                forall|k: int| 0 <= k < i ==> map_matches(m, #[trigger] out@[k], roots@[k], depth as nat),
        {
            proof {
                crate::ltm_store::lemma_filter_elem(m.nodes, m.is_root(), i as int);
            }
            let node = self.build_map(&roots[i], depth)?;
            out.push(node);
        }
        Ok(out)
    }

    /// The map of `node` with `remaining` layers.
    pub fn build_map(&self, node: &TreeNode, remaining: usize) -> (r: Result<MapNode, MemoryError>)
        requires
            self.repo.inv(),
            node.id is Some,
            remaining >= 1,
        ensures
            r matches Ok(out) ==> map_matches(self.repo.model(), out, *node, remaining as nat),
            self.repo.reliable() ==> r is Ok,
        decreases remaining,
    {
        let node_id = match node.id {
            Some(id) => id,
            None => 0,
        };
        let ghost m = self.repo.model();
        let mut children: Vec<MapNode> = Vec::new();
        if remaining > 1 {
            let cs = self.repo.get_children(node_id)?;
            proof {
                lemma_children_stored(m, node_id);
            }
            let ghost pred = is_concept();
            let n = cs.len();
            for i in 0..n
                invariant
                    n == cs@.len(),
                    cs@ == m.children(node_id),
                    m == self.repo.model(),
                    self.repo.inv(),
                    remaining > 1,
                    pred == is_concept(),
                    forall|k: int| 0 <= k < cs@.len() ==> (#[trigger] cs@[k]).id is Some,
                    children@.len() == cs@.take(i as int).filter(pred).len(),
                    forall|k: int|
                        0 <= k < children@.len() ==> map_matches(
                            m,
                            #[trigger] children@[k],
                            cs@.take(i as int).filter(pred)[k],
                            (remaining - 1) as nat,
                        ),
            {
                proof {
                    assert(cs@.take(i + 1) =~= cs@.take(i as int).push(cs@[i as int]));
                    cs@.take(i as int).lemma_filter_push(cs@[i as int], pred);
                }
                if cs[i].kind != TreeNodeKind::Leaf {
                    let sub = self.build_map(&cs[i], remaining - 1)?;
                    children.push(sub);
                }
            }
            assert(cs@.take(n as int) =~= cs@);
        }
        Ok(MapNode {
            id: node_id,
            name: node.name.clone(),
            summary: node.summary.clone(),
            kind: node.kind,
            children,
        })
    }

    /// A node's direct children (concepts and leaves) with their summaries;
    /// `None` when the node does not exist.
    pub fn expand(&self, node_id: i64) -> (r: Result<Option<ExpandResult>, MemoryError>)
        requires
            self.repo.inv(),
        ensures
            r matches Ok(res) ==> match res {
                None => self.repo.model().node(node_id) is None,
                Some(e) => {
                    &&& self.repo.model().node(node_id) matches Some(n)
                    &&& e.node == view_of(n)
                    &&& e.children@ == self.repo.model().children(node_id).map_values(
                        |c: TreeNode| view_of(c),
                    )
                },
            },
            self.repo.reliable() ==> r is Ok,
    {
        let found = self.repo.get_node(node_id)?;
        proof {
            lemma_find_node(self.repo.model().nodes, node_id);
        }
        match found {
            None => Ok(None),
            Some(node) => {
                let cs = self.repo.get_children(node_id)?;
                proof {
                    lemma_children_stored(self.repo.model(), node_id);
                }
                let children = node_views(&cs);
                Ok(Some(ExpandResult { node: NodeView::from_node(&node), children }))
            },
        }
    }

    /// A node's detail plus the documents attached directly beneath it;
    /// `None` when the node does not exist.
    pub fn drill(&self, node_id: i64) -> (r: Result<Option<DrillResult>, MemoryError>)
        requires
            self.repo.inv(),
        ensures
            r matches Ok(res) ==> match res {
                None => self.repo.model().node(node_id) is None,
                Some(d) => {
                    &&& self.repo.model().node(node_id) matches Some(n)
                    &&& d.node == view_of(n)
                    &&& d.leaves@ == self.repo.model().child_leaves(node_id).map_values(
                        |l: Leaf| leaf_ref_of(l),
                    )
                },
            },
            self.repo.reliable() ==> r is Ok,
    {
        let found = self.repo.get_node(node_id)?;
        proof {
            lemma_find_node(self.repo.model().nodes, node_id);
        }
        match found {
            None => Ok(None),
            Some(node) => {
                let leaves = self.repo.get_child_leaves(node_id)?;
                Ok(Some(DrillResult { node: NodeView::from_node(&node), leaves: leaf_refs(leaves) }))
            },
        }
    }

    /// The distinct proper ancestors of a node, nearest first.
    pub fn ancestors(&self, node_id: i64) -> (r: Result<Vec<NodeView>, MemoryError>)
        requires
            self.repo.inv(),
        ensures
            r matches Ok(v) ==> exists|a: Seq<TreeNode>|
                #![trigger ancestors_listed(self.repo.model(), node_id, a)]
                ancestors_listed(self.repo.model(), node_id, a) && nearest_first(
                    self.repo.model(),
                    node_id,
                    a,
                ) && v@ == a.map_values(|n: TreeNode| view_of(n)),
            self.repo.reliable() ==> r is Ok,
    {
        let found = collect_ancestors(&self.repo, node_id)?;
        let views = node_views(&found);
        Ok(views)
    }

    /// A branch of the tree from `node_id` down to `depth` layers (concepts only;
    /// a depth of 0 gives the node alone); `None` when the node does not exist.
    pub fn subtree(&self, node_id: i64, depth: usize) -> (r: Result<Option<MapNode>, MemoryError>)
        requires
            self.repo.inv(),
        ensures
            r matches Ok(res) ==> match res {
                None => self.repo.model().node(node_id) is None,
                Some(out) => self.repo.model().node(node_id) matches Some(n) && map_matches(
                    self.repo.model(),
                    out,
                    n,
                    if depth == 0 { 1 } else { depth as nat },
                ),
            },
            self.repo.reliable() ==> r is Ok,
    {
        let found = self.repo.get_node(node_id)?;
        proof {
            lemma_find_node(self.repo.model().nodes, node_id);
        }
        match found {
            None => Ok(None),
            Some(node) => {
                let layers = if depth == 0 { 1 } else { depth };
                let out = self.build_map(&node, layers)?;
                Ok(Some(out))
            },
        }
    }

    /// The context around an entry node: its ancestors, children and document
    /// leaves; `None` when the node does not exist.
    pub fn recall_at(&self, entry_id: i64) -> (r: Result<Option<RecallContext>, MemoryError>)
        requires
            self.repo.inv(),
        ensures
            r matches Ok(res) ==> match res {
                None => self.repo.model().node(entry_id) is None,
                Some(c) => {
                    let m = self.repo.model();
                    &&& m.node(entry_id) matches Some(n)
                    &&& c.entry == view_of(n)
                    &&& exists|a: Seq<TreeNode>|
                        #![trigger ancestors_listed(m, entry_id, a)]
                        ancestors_listed(m, entry_id, a) && nearest_first(m, entry_id, a)
                            && c.ancestors@ == a.map_values(|x: TreeNode| view_of(x))
                    &&& c.children@ == m.children(entry_id).map_values(|x: TreeNode| view_of(x))
                    &&& c.leaves@ == m.child_leaves(entry_id).map_values(|l: Leaf| leaf_ref_of(l))
                },
            },
            r matches Ok(Some(c)) ==> recalled(self.repo.model(), entry_id, c),
            self.repo.reliable() ==> r is Ok,
    {
        let found = self.repo.get_node(entry_id)?;
        proof {
            lemma_find_node(self.repo.model().nodes, entry_id);
        }
        match found {
            None => Ok(None),
            Some(entry) => {
                let ancestors = self.ancestors(entry_id)?;
                let cs = self.repo.get_children(entry_id)?;
                proof {
                    lemma_children_stored(self.repo.model(), entry_id);
                }
                let children = node_views(&cs);
                let leaves = leaf_refs(self.repo.get_child_leaves(entry_id)?);
                Ok(Some(RecallContext { entry: NodeView::from_node(&entry), ancestors, children, leaves }))
            },
        }
    }
}

} // verus!
