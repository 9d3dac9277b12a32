//! LTM placement: files a new document into the knowledge tree and keeps the
//! rolling summaries of the affected ancestors in sync; seeds the curated spine.
use vstd::prelude::*;
use crate::error::MemoryError;
use crate::ltm::{
    acyclic, is_ancestor, is_upward_path, lemma_ancestor_step, lemma_find_inbox, lemma_find_node, lemma_find_node_at, same_but_summary, Leaf, LtmRepository,
    Provenance, TreeEdge, TreeModel, TreeNode, TreeNodeKind,
};
use crate::ltm_retrieval::{ancestors_listed, collect_ancestors, contains_id};
use crate::text::{condense, condensed, is_blank, is_blank_text, join_with, same_text, seq_join, views};

verus! {

broadcast use vstd::seq_lib::group_filter_ensures;

/// Cap on a rolled summary's length (characters) before truncation.
pub const DEFAULT_MAX_SUMMARY_LEN: usize = 600;

/// The separator between the parts of a rolled summary.
pub open spec fn summary_separator() -> Seq<char> {
    seq![';', ' ']
}

pub open spec fn summary_of() -> spec_fn(TreeNode) -> Seq<char> {
    |c: TreeNode| c.summary@
}

pub open spec fn not_blank() -> spec_fn(Seq<char>) -> bool {
    |s: Seq<char>| !is_blank_text(s)
}

/// The rolled form of some summaries: the condensed concatenation of the
/// non-blank ones; empty without such summaries.
pub open spec fn rolled_text(summaries: Seq<Seq<char>>, max_len: nat) -> Seq<char> {
    let parts = summaries.filter(not_blank());
    if parts.len() == 0 {
        seq![]
    } else {
        condensed(seq_join(parts, summary_separator()), max_len)
    }
}

/// A node's rolling summary: the rolled form of its children's summaries.
pub open spec fn rolled_summary(children: Seq<TreeNode>, max_len: nat) -> Seq<char> {
    rolled_text(children.map_values(summary_of()), max_len)
}

/// `after` equals `before` except that the summaries of some nodes satisfying
/// `may_change` (by id) were rewritten.
pub open spec fn summaries_only(before: TreeModel, after: TreeModel, may_change: spec_fn(i64) -> bool) -> bool {
    &&& before.same_shape(after)
    &&& forall|i: int|
        0 <= i < before.nodes.len() && !may_change((#[trigger] before.nodes[i]).id->0)
            ==> after.nodes[i] == before.nodes[i]
}

/// The nodes a roll-up starting at `start` may rewrite: `start` and its ancestors.
pub open spec fn rolled_from(m: TreeModel, start: i64) -> spec_fn(i64) -> bool {
    |id: i64| id == start || is_ancestor(m, start, id)
}

/// `after` holds, for node `id` of `before` (one that is not its own
/// ancestor), the rolled summary of its children in `before`.
pub open spec fn rolled_at(before: TreeModel, after: TreeModel, id: i64, max_len: nat) -> bool {
    (before.node(id) is Some && !is_ancestor(before, id, id)) ==> (after.node(id) matches Some(n)
        && n.summary@ == rolled_summary(before.children(id), max_len))
}

/// A document ready to be filed: its distilled meaning and its archive pointer.
/// (Its embedding stays with the vector index that located the best concept.)
#[derive(Debug)]
pub struct DocumentToPlace {
    /// Short human-facing label for the leaf node.
    pub name: String,
    /// Distilled summary: the leaf's summary and roll-up input.
    pub summary: String,
    /// Archive reference (Ledger/Pithos `dataId`).
    pub data_id: String,
    pub provenance: Provenance,
}

/// Where a document landed.
#[derive(Debug, Clone, Copy, PartialEq, Eq, Structural)]
pub struct Placement {
    pub leaf_node_id: i64,
    pub parent_id: i64,
    /// True if it matched a concept; false if it fell to the inbox.
    pub matched: bool,
}

/// The leaf record a placement writes for `doc` under node `leaf_id`.
pub open spec fn leaf_record(doc: DocumentToPlace, leaf_id: i64) -> Leaf {
    Leaf { tree_node_id: leaf_id, data_id: doc.data_id, provenance: doc.provenance }
}

/// `after` is `before` with `doc` filed as a new leaf node `leaf_id` under
/// `parent_id` (leaf node, leaf record, edge), up to rolled summaries of
/// `parent_id` and its ancestors; the parent's summary is the rolled summary
/// (capped at `max_len`) of its children, the new leaf among them, and in a
/// tree without cycles the parent and every ancestor of it hold the rolled
/// summaries of their children as they end up.
pub open spec fn placed(
    before: TreeModel,
    after: TreeModel,
    doc: DocumentToPlace,
    parent_id: i64,
    leaf_id: i64,
    max_len: nat,
) -> bool {
    exists|m1: TreeModel, n: TreeNode|
        #![trigger before.created(m1, n, leaf_id)]
        n.name@ == doc.name@ && n.summary@ == doc.summary@ && n.kind == TreeNodeKind::Leaf
            && n.permanent && before.created(m1, n, leaf_id) && {
            let m3 = m1.with_leaf(leaf_record(doc, leaf_id)).with_edge(
                TreeEdge { parent_id, child_id: leaf_id },
            );
            &&& summaries_only(m3, after, rolled_from(m3, parent_id))
            &&& rolled_at(m3, after, parent_id, max_len)
            &&& acyclic(before) && before.has_node(parent_id) ==> rolled_up(m3, after, parent_id, max_len)
        }
}

/// Files documents into the tree and rolls summaries up the affected ancestors.
pub struct LtmPlacement {
    pub max_summary_len: usize,
}

proof fn lemma_summaries_only_trans(a: TreeModel, b: TreeModel, c: TreeModel, p: spec_fn(i64) -> bool)
    requires
        summaries_only(a, b, p),
        summaries_only(b, c, p),
    ensures
        summaries_only(a, c, p),
{
    assert forall|i: int| 0 <= i < a.nodes.len() implies same_but_summary(#[trigger] a.nodes[i], c.nodes[i]) by {
        assert(same_but_summary(a.nodes[i], b.nodes[i]));
        assert(same_but_summary(b.nodes[i], c.nodes[i]));
    }
    assert forall|i: int| 0 <= i < a.nodes.len() && !p((#[trigger] a.nodes[i]).id->0) implies c.nodes[i] == a.nodes[i] by {
        assert(same_but_summary(a.nodes[i], b.nodes[i]));
        assert(b.nodes[i].id == a.nodes[i].id);
    }
}

impl LtmPlacement {
    pub fn new() -> (r: LtmPlacement)
        ensures
            r.max_summary_len == DEFAULT_MAX_SUMMARY_LEN,
    {
        LtmPlacement { max_summary_len: DEFAULT_MAX_SUMMARY_LEN }
    }

    /// The rolled summary of a list of children.
    pub fn summarize_children(&self, children: &Vec<TreeNode>) -> (r: String)
        ensures
            r@ == rolled_summary(children@, self.max_summary_len as nat),
    {
        let ghost mapped = children@.map_values(summary_of());
        let mut parts: Vec<String> = Vec::new();
        let n = children.len();
        for i in 0..n
            invariant
                n == children@.len(),
                mapped == children@.map_values(summary_of()),
                views(parts@) == mapped.take(i as int).filter(not_blank()),
        {
            proof {
                assert(mapped.take(i + 1) =~= mapped.take(i as int).push(mapped[i as int]));
                mapped.take(i as int).lemma_filter_push(mapped[i as int], not_blank());
            }
            if !is_blank(children[i].summary.as_str()) {
                let ghost before = parts@;
                parts.push(children[i].summary.clone());
                assert(views(parts@) =~= views(before).push(children@[i as int].summary@));
            }
        }
        assert(mapped.take(n as int) =~= mapped);
        if parts.len() == 0 {
            return String::new();
        }
        let sep = "; ";
        proof {
            reveal_strlit("; ");
        }
        let joined = join_with(&parts, sep);
        assert(sep@ =~= summary_separator());
        assert(views(parts@).len() == parts@.len());
        condense(joined.as_str(), self.max_summary_len)
    }

    /// Recomputes one node's rolling summary from its children; writes it only
    /// when it changed.
    pub fn recompute_summary<R: LtmRepository>(&self, repo: &mut R, node_id: i64) -> (r: Result<(), MemoryError>)
        requires
            old(repo).inv(),
        ensures
            final(repo).inv(),
            r is Err ==> final(repo).model() == old(repo).model(),
            r is Ok ==> {
                let m = old(repo).model();
                let s = rolled_summary(m.children(node_id), self.max_summary_len as nat);
                match m.node(node_id) {
                    Some(n) => if n.summary@ == s {
                        final(repo).model() == m
                    } else {
                        m.summary_set(final(repo).model(), node_id, s)
                    },
                    None => final(repo).model() == m,
                }
            },
            old(repo).reliable() ==> r is Ok,
            final(repo).reliable() == old(repo).reliable(),
            final(repo).ids_left() >= old(repo).ids_left(),
    {
        let children = repo.get_children(node_id)?;
        let new_summary = self.summarize_children(&children);
        let found = repo.get_node(node_id)?;
        match found {
            Some(node) => {
                if !same_text(node.summary.as_str(), new_summary.as_str()) {
                    repo.update_summary(node_id, new_summary.as_str())?;
                }
                Ok(())
            },
            None => Ok(()),
        }
    }

    /// Recomputes the summaries of `start` and of every ancestor, nearest first
    /// (so each parent sees its children's fresh summaries). Multi-parent safe.
    pub fn roll_up_from<R: LtmRepository>(&self, repo: &mut R, start: i64) -> (r: Result<(), MemoryError>)
        requires
            old(repo).inv(),
        ensures
            final(repo).inv(),
            summaries_only(old(repo).model(), final(repo).model(), rolled_from(old(repo).model(), start)),
            r is Ok ==> rolled_at(old(repo).model(), final(repo).model(), start, self.max_summary_len as nat),
            r is Ok && acyclic(old(repo).model()) ==> rolled_up(
                old(repo).model(),
                final(repo).model(),
                start,
                self.max_summary_len as nat,
            ),
            old(repo).reliable() ==> r is Ok,
            final(repo).reliable() == old(repo).reliable(),
            final(repo).ids_left() >= old(repo).ids_left(),
    {
        let ghost m0 = repo.model();
        let ghost p = rolled_from(m0, start);
        let ghost ml = self.max_summary_len as nat;
        let ghost s0 = rolled_summary(m0.children(start), ml);
        let ghost track = m0.node(start) is Some && !is_ancestor(m0, start, start);
        proof {
            repo.lemma_inv_wf();
            lemma_find_node(m0.nodes, start);
        }
        let ghost kk: int = if m0.node(start) is Some {
            choose|k: int| 0 <= k < m0.nodes.len() && m0.nodes[k] == m0.node(start)->0
        } else {
            0
        };
        let ancestors = collect_ancestors(&*repo, start)?;
        let first = self.recompute_summary(repo, start);
        let ghost m1 = repo.model();
        let ghost eq_start = |id: i64| id == start;
        proof {
            lemma_step(m0, m1, start, p);
            lemma_step(m0, m1, start, eq_start);
        }
        first?;
        proof {
            if track {
                assert(m0.nodes[kk].id == Some(start));
                if m1 != m0 {
                    assert(m0.summary_set(m1, start, s0));
                }
                assert(m1.nodes[kk].summary@ == s0);
            }
        }
        // The ancestors still to roll, each once.
        let mut pending: Vec<i64> = Vec::new();
        let na = ancestors.len();
        for i in 0..na
            invariant
                na == ancestors@.len(),
                ancestors_listed(m0, start, ancestors@),
                pending@.no_duplicates(),
                forall|x: i64| #[trigger] pending@.contains(x) ==> x != start && is_ancestor(m0, start, x),
                forall|k: int|
                    0 <= k < i && (#[trigger] ancestors@[k]).id->0 != start ==> pending@.contains(
                        ancestors@[k].id->0,
                    ),
        {
            let id = match ancestors[i].id {
                Some(id) => id,
                None => start,
            };
            if id != start && !contains_id(&pending, id) {
                let ghost before = pending@;
                pending.push(id);
                proof {
                    lemma_push_facts(before, id);
                }
            }
        }
        proof {
            assert forall|x: i64| is_ancestor(m0, start, x) && x != start implies #[trigger] pending@.contains(x) by {
                let k = choose|k: int| 0 <= k < ancestors@.len() && ancestors@[k].id == Some(x);
                assert(ancestors@[k].id->0 != start);
            }
            if acyclic(m0) {
                assert(!is_ancestor(m0, start, start));
                assert forall|x: i64|
                    (x == start || is_ancestor(m0, start, x)) && !pending@.contains(x) implies #[trigger] settled(
                    m1,
                    x,
                    pending@,
                    ml,
                ) by {
                    assert(x == start);
                    assert forall|c: i64| #[trigger] m0.has_edge(start, c) implies c != start by {
                        if c == start {
                            assert(is_upward_path(m0, start, seq![start]));
                        }
                    }
                    assert forall|c: i64| #[trigger] m1.has_edge(start, c) implies !pending@.contains(c) by {
                        assert(m0.has_edge(start, c));
                        if pending@.contains(c) {
                            lemma_ancestor_step(m0, start, start, c);
                        }
                    }
                    lemma_children_kept(m0, m1, eq_start, start);
                    match m0.node(start) {
                        Some(n) => {
                            if n.summary@ != s0 {
                                lemma_node_set(m0, m1, start, s0);
                            }
                        },
                        None => {},
                    }
                }
            }
        }
        while pending.len() > 0
            invariant
                m0 == old(repo).model(),
                p == rolled_from(m0, start),
                ml == self.max_summary_len as nat,
                repo.inv(),
                summaries_only(m0, repo.model(), p),
                repo.reliable() == old(repo).reliable(),
                repo.ids_left() >= old(repo).ids_left(),
                pending@.no_duplicates(),
                forall|x: i64| #[trigger] pending@.contains(x) ==> x != start && is_ancestor(m0, start, x),
                track == (m0.node(start) is Some && !is_ancestor(m0, start, start)),
                track ==> 0 <= kk < m0.nodes.len() && m0.nodes[kk].id == Some(start)
                    && repo.model().nodes[kk].summary@ == s0,
                acyclic(m0) ==> forall|x: i64|
                    (x == start || is_ancestor(m0, start, x)) && !pending@.contains(x)
                        ==> #[trigger] settled(repo.model(), x, pending@, ml),
            decreases pending.len(),
        {
            let ghost before = repo.model();
            let ghost pend0 = pending@;
            proof {
                repo.lemma_inv_wf();
            }
            // Roll a node none of whose waiting ancestors is its child; without a
            // cycle one always exists.
            let choice = pick_ready(&*repo, &pending)?;
            let pick = match choice {
                Some(k) => k,
                None => {
                    proof {
                        lemma_cycle(before, pend0);
                        if acyclic(m0) {
                            lemma_acyclic_same_edges(m0, before);
                        }
                    }
                    0
                },
            };
            let q = pending.remove(pick);
            proof {
                lemma_remove_facts(pend0, pick as int);
            }
            let step = self.recompute_summary(repo, q);
            let ghost after = repo.model();
            let ghost eq_q = |id: i64| id == q;
            proof {
                assert(pend0.contains(q));
                assert(p(q));
                lemma_step(before, after, q, p);
                lemma_step(before, after, q, eq_q);
                lemma_summaries_only_trans(m0, before, after, p);
            }
            step?;
            proof {
                if track {
                    assert(same_but_summary(m0.nodes[kk], before.nodes[kk]));
                    assert(before.nodes[kk].id == Some(start));
                    if after != before {
                        let s1 = rolled_summary(before.children(q), ml);
                        assert(before.summary_set(after, q, s1));
                        assert(after.nodes[kk] == before.nodes[kk]);
                    }
                }
                if acyclic(m0) {
                    assert(choice is Some);
                    assert forall|x: i64|
                        (x == start || is_ancestor(m0, start, x)) && !pending@.contains(x) implies #[trigger] settled(
                        after,
                        x,
                        pending@,
                        ml,
                    ) by {
                        assert forall|c: i64| #[trigger] before.has_edge(q, c) implies c != q by {
                            if c == q {
                                assert(pend0.contains(c));
                            }
                        }
                        if x == q {
                            lemma_children_kept(before, after, eq_q, q);
                            match before.node(q) {
                                Some(n) => {
                                    let sq = rolled_summary(before.children(q), ml);
                                    if n.summary@ != sq {
                                        lemma_node_set(before, after, q, sq);
                                    }
                                },
                                None => {},
                            }
                            assert forall|c: i64| #[trigger] after.has_edge(q, c) implies !pending@.contains(c) by {
                                assert(before.has_edge(q, c));
                            }
                        } else {
                            assert(!pend0.contains(x));
                            assert(settled(before, x, pend0, ml));
                            assert forall|c: i64| #[trigger] before.has_edge(x, c) implies !eq_q(c) by {
                                assert(!pend0.contains(c));
                            }
                            lemma_children_kept(before, after, eq_q, x);
                            lemma_node_kept(before, after, eq_q, x);
                            assert forall|c: i64| #[trigger] after.has_edge(x, c) implies !pending@.contains(c) by {
                                assert(before.has_edge(x, c));
                            }
                        }
                    }
                }
            }
        }
        proof {
            let mf = repo.model();
            if acyclic(m0) {
                assert forall|id: i64| (id == start || is_ancestor(m0, start, id)) implies #[trigger] holds_rolled(
                    mf,
                    id,
                    ml,
                ) by {
                    assert(!pending@.contains(id));
                    assert(settled(mf, id, pending@, ml));
                }
            }
            if track {
                repo.lemma_inv_wf();
                assert(same_but_summary(m0.nodes[kk], mf.nodes[kk]));
                assert forall|j: int| 0 <= j < kk implies (#[trigger] mf.nodes[j]).id != Some(start) by {
                    assert(mf.nodes[j].id != mf.nodes[kk].id);
                }
                lemma_find_node_at(mf.nodes, start, kk);
            }
        }
        Ok(())
    }

    /// Files a document: attaches it under `best_match` (the concept whose
    /// embedding lies within the placement threshold, if any) or, failing that,
    /// under the inbox; then rolls its summary up into the ancestors.
    pub fn place<R: LtmRepository>(
        &self,
        repo: &mut R,
        doc: &DocumentToPlace,
        best_match: Option<i64>,
    ) -> (r: Result<Placement, MemoryError>)
        requires
            old(repo).inv(),
        ensures
            final(repo).inv(),
            best_match is None && old(repo).model().inbox() is None ==> r is Err && final(repo).model()
                == old(repo).model(),
            r matches Ok(pl) ==> {
                &&& pl.matched == best_match is Some
                &&& pl.parent_id == match best_match {
                    Some(id) => id,
                    None => old(repo).model().inbox()->0.id->0,
                }
                &&& placed(
                    old(repo).model(),
                    final(repo).model(),
                    *doc,
                    pl.parent_id,
                    pl.leaf_node_id,
                    self.max_summary_len as nat,
                )
            },
            old(repo).reliable() && old(repo).ids_left() > 0 && match best_match {
                Some(id) => old(repo).model().has_node(id),
                None => old(repo).model().inbox() is Some,
            } ==> r is Ok,
            final(repo).reliable() == old(repo).reliable(),
            final(repo).ids_left() + 1 >= old(repo).ids_left(),
    {
        let (parent_id, matched) = match best_match {
            Some(id) => (id, true),
            None => {
                let inbox = repo.get_inbox()?;
                proof {
                    repo.lemma_inv_wf();
                    lemma_find_inbox(repo.model().nodes);
                }
                match inbox {
                    Some(node) => {
                        let id = match node.id {
                            Some(id) => id,
                            None => 0,
                        };
                        (id, false)
                    },
                    None => {
                        return Err(MemoryError::NoInbox);
                    },
                }
            },
        };
        let ghost m0 = repo.model();
        proof {
            repo.lemma_inv_wf();
        }
        let leaf_node = TreeNode::new(doc.name.as_str(), doc.summary.as_str(), TreeNodeKind::Leaf);
        let leaf_node_id = repo.create_node(&leaf_node)?;
        let ghost m1 = repo.model();
        let leaf = Leaf {
            tree_node_id: leaf_node_id,
            data_id: doc.data_id.clone(),
            provenance: doc.provenance.clone(),
        };
        proof {
            lemma_created_has(m0, m1, leaf_node, leaf_node_id, parent_id);
        }
        repo.create_leaf(&leaf)?;
        repo.add_edge(TreeEdge::new(parent_id, leaf_node_id))?;
        let ghost m3 = repo.model();
        proof {
            assert(m3 == m1.with_leaf(leaf_record(*doc, leaf_node_id)).with_edge(
                TreeEdge { parent_id, child_id: leaf_node_id },
            ));
        }
        proof {
            if acyclic(m0) && m0.has_node(parent_id) {
                lemma_fresh_edge_acyclic(m0, m1, m3, parent_id, leaf_node_id);
            }
        }
        self.roll_up_from(repo, parent_id)?;
        proof {
            assert(m0.created(m1, leaf_node, leaf_node_id));
        }
        Ok(Placement { leaf_node_id, parent_id, matched })
    }

    /// Tombstone: forgets a `dataId`, removing its leaf node and re-rolling the
    /// summaries of the leaf's former parents and their ancestors. Returns false
    /// when the document was not in the tree.
    pub fn forget<R: LtmRepository>(&self, repo: &mut R, data_id: &str) -> (r: Result<bool, MemoryError>)
        requires
            old(repo).inv(),
        ensures
            final(repo).inv(),
            r matches Ok(false) ==> old(repo).model().node_by_data_id(data_id@) is None
                && final(repo).model() == old(repo).model(),
            r matches Ok(true) ==> old(repo).model().node_by_data_id(data_id@) matches Some(leaf)
                && old(repo).model().without_node(leaf.id->0).same_shape(final(repo).model()),
            (r matches Ok(true) && acyclic(old(repo).model())) ==> (old(repo).model().node_by_data_id(
                data_id@,
            ) matches Some(leaf) && rerolled(
                old(repo).model(),
                final(repo).model(),
                leaf.id->0,
                self.max_summary_len as nat,
            )),
            old(repo).reliable() ==> r is Ok,
            final(repo).reliable() == old(repo).reliable(),
            final(repo).ids_left() >= old(repo).ids_left(),
    {
        let found = repo.get_node_by_data_id(data_id)?;
        let leaf = match found {
            None => {
                return Ok(false);
            },
            Some(leaf) => leaf,
        };
        proof {
            repo.lemma_inv_wf();
            lemma_node_by_data_id(repo.model(), data_id@);
        }
        let leaf_id = match leaf.id {
            Some(id) => id,
            None => 0,
        };
        let ghost mb = repo.model();
        let ghost ml = self.max_summary_len as nat;
        let parents = repo.get_parents(leaf_id)?;
        repo.delete_node(leaf_id)?;
        let ghost md = repo.model();
        proof {
            if acyclic(mb) {
                assert forall|i: int| 0 <= i < md.edges.len() implies mb.edges.contains(#[trigger] md.edges[i]) by {
                    assert(md.edges.contains(md.edges[i]));
                    mb.edges.lemma_filter_contains_rev(TreeModel::not_incident(leaf_id), md.edges[i]);
                }
                lemma_sub_edges_acyclic(mb, md);
            }
        }
        let n = parents.len();
        for i in 0..n
            invariant
                n == parents@.len(),
                parents@ == mb.parents(leaf_id),
                md == mb.without_node(leaf_id),
                ml == self.max_summary_len as nat,
                acyclic(mb) ==> acyclic(md),
                repo.inv(),
                md.same_shape(repo.model()),
                acyclic(mb) ==> forall|id: i64|
                    above_any(parents@, md, i as int, id) ==> #[trigger] holds_rolled(repo.model(), id, ml),
                repo.reliable() == old(repo).reliable(),
                repo.ids_left() >= old(repo).ids_left(),
        {
            let pid = match parents[i].id {
                Some(id) => id,
                None => leaf_id,
            };
            let ghost before = repo.model();
            proof {
                repo.lemma_inv_wf();
                if acyclic(mb) {
                    lemma_acyclic_same_edges(md, before);
                }
            }
            self.roll_up_from(repo, pid)?;
            proof {
                let after = repo.model();
                lemma_same_shape_trans(md, before, after);
                if acyclic(mb) {
                    let up = rolled_from(before, pid);
                    assert forall|id: i64| above_any(parents@, md, i + 1, id) implies #[trigger] holds_rolled(
                        after,
                        id,
                        ml,
                    ) by {
                        let k = choose|k: int|
                            #![trigger parents@[k]]
                            0 <= k < i + 1 && (id == parents@[k].id->0 || is_ancestor(md, parents@[k].id->0, id));
                        lemma_ancestor_same_edges(md, before, parents@[k].id->0, id);
                        if k == i {
                            assert(parents@[k].id->0 == pid) by {
                                crate::ltm_store::lemma_filter_elem(mb.nodes, mb.is_parent_of(leaf_id), k);
                            }
                        } else {
                            assert(above_any(parents@, md, i as int, id));
                            assert(holds_rolled(before, id, ml));
                            if !up(id) {
                                assert forall|c: i64| #[trigger] before.has_edge(id, c) implies !up(c) by {
                                    if up(c) {
                                        lemma_ancestor_step(before, pid, id, c);
                                    }
                                }
                                lemma_children_kept(before, after, up, id);
                                lemma_node_kept(before, after, up, id);
                            }
                        }
                    }
                }
            }
        }
        proof {
            if acyclic(mb) {
                assert(rerolled(mb, repo.model(), leaf_id, ml));
            }
        }
        Ok(true)
    }
}

/// Creating a node keeps every stored node and stores the new one.
proof fn lemma_created_has(before: TreeModel, after: TreeModel, node: TreeNode, id: i64, other: i64)
    requires
        before.created(after, node, id),
    ensures
        after.has_node(id),
        before.has_node(other) ==> after.has_node(other),
{
    let k = before.nodes.len() as int;
    assert(after.nodes[k] == after.nodes.last());
    if before.has_node(other) {
        let i = choose|i: int| 0 <= i < before.nodes.len() && #[trigger] before.nodes[i].id == Some(other);
        assert(after.nodes.drop_last()[i] == after.nodes[i]);
    }
}

proof fn lemma_same_shape_trans(a: TreeModel, b: TreeModel, c: TreeModel)
    requires
        a.same_shape(b),
        b.same_shape(c),
    ensures
        a.same_shape(c),
{
    assert forall|i: int| 0 <= i < a.nodes.len() implies same_but_summary(#[trigger] a.nodes[i], c.nodes[i]) by {
        assert(same_but_summary(a.nodes[i], b.nodes[i]));
        assert(same_but_summary(b.nodes[i], c.nodes[i]));
    }
}

/// One recompute step rewrites at most the summary of `id`.
proof fn lemma_step(before: TreeModel, after: TreeModel, id: i64, p: spec_fn(i64) -> bool)
    requires
        p(id),
        after == before || exists|s: Seq<char>| before.summary_set(after, id, s),
    ensures
        summaries_only(before, after, p),
{
    if after != before {
        let s = choose|s: Seq<char>| before.summary_set(after, id, s);
        assert forall|i: int| 0 <= i < before.nodes.len() implies same_but_summary(#[trigger] before.nodes[i], after.nodes[i]) by {
            if before.nodes[i].id != Some(id) {
                assert(after.nodes[i] == before.nodes[i]);
            }
        }
    }
}

/// The node found by `dataId` is a stored node with an id.
proof fn lemma_node_by_data_id(m: TreeModel, data_id: Seq<char>)
    requires
        m.wf(),
    ensures
        m.node_by_data_id(data_id) matches Some(n) ==> n.id is Some,
{
    match crate::ltm::find_leaf(m.leaves, data_id) {
        Some(l) => {
            lemma_find_node(m.nodes, l.tree_node_id);
        },
        None => {},
    }
}

} // verus!

verus! {

/// Node `id` of `m`, where stored, holds the rolled summary (capped at
/// `max_len`) of its children's summaries as they stand in `m`.
pub open spec fn holds_rolled(m: TreeModel, id: i64, max_len: nat) -> bool {
    m.node(id) matches Some(n) ==> n.summary@ == rolled_summary(m.children(id), max_len)
}

/// After a roll-up from `start` over `before`, `start` and every ancestor of
/// it hold the rolled summaries of their children as they stand in `after`.
pub open spec fn rolled_up(before: TreeModel, after: TreeModel, start: i64, max_len: nat) -> bool {
    forall|id: i64|
        (id == start || is_ancestor(before, start, id)) ==> #[trigger] holds_rolled(after, id, max_len)
}

/// `id` is one of the first `n` of `parents`, or an ancestor of one of them in `m`.
pub open spec fn above_any(parents: Seq<TreeNode>, m: TreeModel, n: int, id: i64) -> bool {
    exists|k: int|
        #![trigger parents[k]]
        0 <= k < n && (id == parents[k].id->0 || is_ancestor(m, parents[k].id->0, id))
}

/// After forgetting the leaf node `leaf_id` of `before`, each former parent of
/// the leaf and each of its remaining ancestors holds the rolled summary of
/// its children as they stand in `after`.
pub open spec fn rerolled(before: TreeModel, after: TreeModel, leaf_id: i64, max_len: nat) -> bool {
    let parents = before.parents(leaf_id);
    forall|id: i64|
        above_any(parents, before.without_node(leaf_id), parents.len() as int, id)
            ==> #[trigger] holds_rolled(after, id, max_len)
}

/// Some child of `q` in `m` is among `pend`.
pub open spec fn has_waiting_child(m: TreeModel, pend: Seq<i64>, q: i64) -> bool {
    exists|c: i64| pend.contains(c) && #[trigger] m.has_edge(q, c)
}

/// A node settled in a roll-up: it holds its rolled summary and none of its
/// children is still waiting.
spec fn settled(m: TreeModel, x: i64, pending: Seq<i64>, max_len: nat) -> bool {
    &&& holds_rolled(m, x, max_len)
    &&& forall|c: i64| #[trigger] m.has_edge(x, c) ==> !pending.contains(c)
}

proof fn lemma_filter_pointwise(s1: Seq<TreeNode>, s2: Seq<TreeNode>, p1: spec_fn(TreeNode) -> bool, p2: spec_fn(TreeNode) -> bool)
    requires
        s1.len() == s2.len(),
        forall|i: int| 0 <= i < s1.len() ==> p1(#[trigger] s1[i]) == p2(s2[i]),
        forall|i: int| 0 <= i < s1.len() && p1(#[trigger] s1[i]) ==> s1[i] == s2[i],
    ensures
        s1.filter(p1) == s2.filter(p2),
    decreases s1.len(),
{
    if s1.len() == 0 {
        reveal(Seq::filter);
        assert(s2.len() == 0);
    } else {
        let d1 = s1.drop_last();
        let d2 = s2.drop_last();
        assert forall|i: int| 0 <= i < d1.len() implies p1(#[trigger] d1[i]) == p2(d2[i]) by {
            assert(d1[i] == s1[i]);
            assert(d2[i] == s2[i]);
        }
        assert forall|i: int| 0 <= i < d1.len() && p1(#[trigger] d1[i]) implies d1[i] == d2[i] by {
            assert(d1[i] == s1[i]);
            assert(d2[i] == s2[i]);
        }
        lemma_filter_pointwise(d1, d2, p1, p2);
        d1.lemma_filter_push(s1.last(), p1);
        d2.lemma_filter_push(s2.last(), p2);
        assert(d1.push(s1.last()) =~= s1);
        assert(d2.push(s2.last()) =~= s2);
        assert(p1(s1[s1.len() - 1]) == p2(s2[s1.len() - 1]));
    }
}

/// A node none of whose children may change keeps its children.
proof fn lemma_children_kept(m: TreeModel, m2: TreeModel, may: spec_fn(i64) -> bool, d: i64)
    requires
        summaries_only(m, m2, may),
        forall|c: i64| #[trigger] m.has_edge(d, c) ==> !may(c),
    ensures
        m2.children(d) == m.children(d),
{
    assert forall|i: int| 0 <= i < m.nodes.len() implies (m.is_child_of(d))(#[trigger] m.nodes[i])
        == (m2.is_child_of(d))(m2.nodes[i]) by {
        assert(same_but_summary(m.nodes[i], m2.nodes[i]));
    }
    assert forall|i: int| 0 <= i < m.nodes.len() && (m.is_child_of(d))(#[trigger] m.nodes[i]) implies m.nodes[i]
        == m2.nodes[i] by {
        assert(m.has_edge(d, m.nodes[i].id->0));
    }
    lemma_filter_pointwise(m.nodes, m2.nodes, m.is_child_of(d), m2.is_child_of(d));
}

/// A node that may not change is found unchanged.
proof fn lemma_node_kept(m: TreeModel, m2: TreeModel, may: spec_fn(i64) -> bool, d: i64)
    requires
        m.wf(),
        summaries_only(m, m2, may),
        !may(d),
    ensures
        m2.node(d) == m.node(d),
{
    lemma_find_node(m.nodes, d);
    lemma_find_node(m2.nodes, d);
    match m.node(d) {
        Some(n) => {
            let k = choose|k: int| 0 <= k < m.nodes.len() && m.nodes[k] == n;
            assert(m2.nodes[k] == m.nodes[k]);
            assert forall|j: int| 0 <= j < k implies (#[trigger] m2.nodes[j]).id != Some(d) by {
                assert(same_but_summary(m.nodes[j], m2.nodes[j]));
                assert(m.nodes[j].id != m.nodes[k].id);
            }
            lemma_find_node_at(m2.nodes, d, k);
        },
        None => {
            if m2.node(d) is Some {
                let j = choose|j: int| 0 <= j < m2.nodes.len() && m2.nodes[j] == m2.node(d)->0;
                assert(same_but_summary(m.nodes[j], m2.nodes[j]));
                assert(m.nodes[j].id == Some(d));
            }
        },
    }
}

/// The node whose summary was set is found with that summary.
proof fn lemma_node_set(m: TreeModel, m2: TreeModel, q: i64, s: Seq<char>)
    requires
        m.summary_set(m2, q, s),
        m.node(q) is Some,
    ensures
        m2.node(q) matches Some(n) && n.summary@ == s,
{
    lemma_find_node(m.nodes, q);
    lemma_find_node(m2.nodes, q);
    let k = choose|k: int| 0 <= k < m.nodes.len() && m.nodes[k] == m.node(q)->0;
    assert(same_but_summary(m.nodes[k], m2.nodes[k]));
    assert(m2.nodes[k].id == Some(q));
    let j = choose|j: int| 0 <= j < m2.nodes.len() && m2.nodes[j] == m2.node(q)->0;
    if m.nodes[j].id == Some(q) {
    } else {
        assert(m2.nodes[j] == m.nodes[j]);
    }
}

/// Ancestry depends on the edges alone.
proof fn lemma_ancestor_same_edges(m1: TreeModel, m2: TreeModel, x: i64, a: i64)
    requires
        m1.edges == m2.edges,
    ensures
        is_ancestor(m1, x, a) == is_ancestor(m2, x, a),
{
    if is_ancestor(m1, x, a) {
        let path = choose|path: Seq<i64>| #[trigger] is_upward_path(m1, x, path) && path.last() == a;
        assert forall|i: int| 1 <= i < path.len() implies #[trigger] m2.has_edge(path[i], path[i - 1]) by {
            assert(m1.has_edge(path[i], path[i - 1]));
        }
        assert(is_upward_path(m2, x, path));
    }
    if is_ancestor(m2, x, a) {
        let path = choose|path: Seq<i64>| #[trigger] is_upward_path(m2, x, path) && path.last() == a;
        assert forall|i: int| 1 <= i < path.len() implies #[trigger] m1.has_edge(path[i], path[i - 1]) by {
            assert(m2.has_edge(path[i], path[i - 1]));
        }
        assert(is_upward_path(m1, x, path));
    }
}

/// Acyclicity depends on the edges alone.
proof fn lemma_acyclic_same_edges(m1: TreeModel, m2: TreeModel)
    requires
        m1.edges == m2.edges,
        acyclic(m1),
    ensures
        acyclic(m2),
{
    assert forall|x: i64| !#[trigger] is_ancestor(m2, x, x) by {
        lemma_ancestor_same_edges(m1, m2, x, x);
    }
}

/// A walk down `len` child edges inside `pend`, starting at its first entry.
proof fn lemma_walk(m: TreeModel, pend: Seq<i64>, len: nat) -> (w: Seq<i64>)
    requires
        pend.len() > 0,
        forall|q: i64| #[trigger] pend.contains(q) ==> has_waiting_child(m, pend, q),
    ensures
        w.len() == len + 1,
        forall|i: int| 0 <= i < w.len() ==> pend.contains(#[trigger] w[i]),
        forall|i: int| 1 <= i < w.len() ==> #[trigger] m.has_edge(w[i - 1], w[i]),
    decreases len,
{
    if len == 0 {
        assert(pend.contains(pend[0]));
        seq![pend[0]]
    } else {
        let w0 = lemma_walk(m, pend, (len - 1) as nat);
        let last = w0[w0.len() - 1];
        assert(pend.contains(last));
        assert(has_waiting_child(m, pend, last));
        let c = choose|c: i64| pend.contains(c) && #[trigger] m.has_edge(last, c);
        let w = w0.push(c);
        assert forall|i: int| 0 <= i < w.len() implies pend.contains(#[trigger] w[i]) by {
            if i < w0.len() {
                assert(w[i] == w0[i]);
            }
        }
        assert forall|i: int| 1 <= i < w.len() implies #[trigger] m.has_edge(w[i - 1], w[i]) by {
            if i < w0.len() {
                assert(w[i] == w0[i]);
                assert(w[i - 1] == w0[i - 1]);
            }
        }
        w
    }
}

/// A sequence longer than `pend`, drawn from it, repeats an entry.
proof fn lemma_repeat(w: Seq<i64>, pend: Seq<i64>)
    requires
        w.len() > pend.len(),
        forall|i: int| 0 <= i < w.len() ==> pend.contains(#[trigger] w[i]),
    ensures
        !w.no_duplicates(),
{
    if w.no_duplicates() {
        w.unique_seq_to_set();
        pend.lemma_cardinality_of_set();
        assert forall|a: i64| w.to_set().contains(a) implies pend.to_set().contains(a) by {
            let i = choose|i: int| 0 <= i < w.len() && w[i] == a;
            assert(pend.contains(w[i]));
        }
        vstd::set_lib::lemma_len_subset(w.to_set(), pend.to_set());
    }
}

/// A walk down child edges that returns to a node closes a cycle.
proof fn lemma_walk_cycle(m: TreeModel, w: Seq<i64>, lo: int, hi: int)
    requires
        0 <= lo < hi < w.len(),
        w[lo] == w[hi],
        forall|i: int| 1 <= i < w.len() ==> #[trigger] m.has_edge(w[i - 1], w[i]),
    ensures
        is_ancestor(m, w[hi], w[hi]),
{
    let path = Seq::new((hi - lo) as nat, |t: int| w[hi - 1 - t]);
    assert(m.has_edge(w[hi - 1], w[hi]));
    assert forall|t: int| 1 <= t < path.len() implies #[trigger] m.has_edge(path[t], path[t - 1]) by {
        assert(m.has_edge(w[hi - t - 1], w[hi - t]));
    }
    assert(is_upward_path(m, w[hi], path));
    assert(path.last() == w[lo]);
}

/// Where every waiting node has a waiting child, the tree has a cycle.
proof fn lemma_cycle(m: TreeModel, pend: Seq<i64>)
    requires
        pend.len() > 0,
        forall|q: i64| #[trigger] pend.contains(q) ==> has_waiting_child(m, pend, q),
    ensures
        !acyclic(m),
{
    let w = lemma_walk(m, pend, pend.len());
    lemma_repeat(w, pend);
    let (i, j) = choose|i: int, j: int| 0 <= i < w.len() && 0 <= j < w.len() && i != j && w[i] == w[j];
    if i < j {
        lemma_walk_cycle(m, w, i, j);
    } else {
        lemma_walk_cycle(m, w, j, i);
    }
}

/// Removing an entry keeps the rest and no duplicate appears.
proof fn lemma_remove_facts(s: Seq<i64>, i: int)
    requires
        0 <= i < s.len(),
        s.no_duplicates(),
    ensures
        s.remove(i).no_duplicates(),
        forall|x: i64| #[trigger] s.remove(i).contains(x) ==> s.contains(x) && x != s[i],
        forall|x: i64| #[trigger] s.contains(x) && x != s[i] ==> s.remove(i).contains(x),
{
    s.remove_ensures(i);
    let r = s.remove(i);
    assert forall|a: int, b: int| 0 <= a < r.len() && 0 <= b < r.len() && a != b implies r[a] != r[b] by {
        let a0 = if a < i { a } else { a + 1 };
        let b0 = if b < i { b } else { b + 1 };
        assert(r[a] == s[a0]);
        assert(r[b] == s[b0]);
    }
    assert forall|x: i64| #[trigger] r.contains(x) implies s.contains(x) && x != s[i] by {
        let a = choose|a: int| 0 <= a < r.len() && r[a] == x;
        let a0 = if a < i { a } else { a + 1 };
        assert(r[a] == s[a0]);
    }
    assert forall|x: i64| #[trigger] s.contains(x) && x != s[i] implies r.contains(x) by {
        let a = choose|a: int| 0 <= a < s.len() && s[a] == x;
        if a < i {
            assert(r[a] == s[a]);
        } else {
            assert(r[a - 1] == s[a]);
        }
    }
}

/// Appending a new entry keeps the others and adds no duplicate.
proof fn lemma_push_facts(s: Seq<i64>, x: i64)
    requires
        s.no_duplicates(),
        !s.contains(x),
    ensures
        s.push(x).no_duplicates(),
        forall|y: i64| #[trigger] s.push(x).contains(y) <==> s.contains(y) || y == x,
{
    let t = s.push(x);
    assert(t[s.len() as int] == x);
    assert forall|y: i64| #[trigger] t.contains(y) <==> s.contains(y) || y == x by {
        if s.contains(y) {
            let k = choose|k: int| 0 <= k < s.len() && s[k] == y;
            assert(t[k] == y);
        }
        if t.contains(y) {
            let k = choose|k: int| 0 <= k < t.len() && t[k] == y;
            if k < s.len() {
                assert(s[k] == y);
            }
        }
    }
}

/// The position of a waiting node none of whose children is waiting; `None`
/// when every waiting node has a waiting child.
fn pick_ready<R: LtmRepository>(repo: &R, pending: &Vec<i64>) -> (r: Result<Option<usize>, MemoryError>)
    requires
        repo.inv(),
    ensures
        r matches Ok(Some(k)) ==> k < pending@.len() && forall|c: i64|
            #[trigger] pending@.contains(c) ==> !repo.model().has_edge(pending@[k as int], c),
        r matches Ok(None) ==> forall|q: i64| #[trigger] pending@.contains(q) ==> has_waiting_child(
            repo.model(),
            pending@,
            q,
        ),
        repo.reliable() ==> r is Ok,
{
    let n = pending.len();
    for j in 0..n
        invariant
            n == pending@.len(),
            repo.inv(),
            forall|k: int| 0 <= k < j ==> has_waiting_child(repo.model(), pending@, #[trigger] pending@[k]),
    {
        let with_child = has_child_among(repo, pending[j], pending)?;
        if !with_child {
            return Ok(Some(j));
        }
    }
    assert forall|q: i64| #[trigger] pending@.contains(q) implies has_waiting_child(repo.model(), pending@, q) by {
        let k = choose|k: int| 0 <= k < pending@.len() && pending@[k] == q;
        assert(has_waiting_child(repo.model(), pending@, pending@[k]));
    }
    Ok(None)
}

/// Whether some child of `q` is among `pending`.
fn has_child_among<R: LtmRepository>(repo: &R, q: i64, pending: &Vec<i64>) -> (r: Result<bool, MemoryError>)
    requires
        repo.inv(),
    ensures
        r matches Ok(b) ==> b == has_waiting_child(repo.model(), pending@, q),
        repo.reliable() ==> r is Ok,
{
    let cs = repo.get_children(q)?;
    let ghost m = repo.model();
    proof {
        repo.lemma_inv_wf();
    }
    let n = cs.len();
    for i in 0..n
        invariant
            n == cs@.len(),
            cs@ == m.children(q),
            m == repo.model(),
            m.wf(),
            forall|k: int| 0 <= k < i ==> !pending@.contains((#[trigger] cs@[k]).id->0),
    {
        proof {
            crate::ltm_store::lemma_filter_elem(m.nodes, m.is_child_of(q), i as int);
        }
        let cid = match cs[i].id {
            Some(c) => c,
            None => q,
        };
        if contains_id(pending, cid) {
            assert(m.has_edge(q, cid));
            return Ok(true);
        }
    }
    assert forall|c: i64| pending@.contains(c) implies !#[trigger] m.has_edge(q, c) by {
        if m.has_edge(q, c) {
            let e = choose|e: int| 0 <= e < m.edges.len() && m.edges[e] == (TreeEdge { parent_id: q, child_id: c });
            assert(m.has_node(m.edges[e].child_id));
            let k = choose|k: int| 0 <= k < m.nodes.len() && #[trigger] m.nodes[k].id == Some(c);
            assert((m.is_child_of(q))(m.nodes[k]));
            m.nodes.lemma_filter_contains(m.is_child_of(q), k);
            let w = choose|w: int| 0 <= w < cs@.len() && cs@[w] == m.nodes[k];
            assert(!pending@.contains(cs@[w].id->0));
        }
    }
    Ok(false)
}

/// Hanging a fresh node under a stored one closes no cycle.
proof fn lemma_fresh_edge_acyclic(before: TreeModel, m1: TreeModel, after: TreeModel, parent: i64, leaf: i64)
    requires
        before.wf(),
        acyclic(before),
        before.has_node(parent),
        !before.has_node(leaf),
        m1.edges == before.edges,
        after.edges == m1.edges || after.edges == m1.edges.push(TreeEdge { parent_id: parent, child_id: leaf }),
    ensures
        acyclic(after),
{
    assert(parent != leaf);
    assert forall|a: i64, b: i64| #[trigger] after.has_edge(a, b) implies before.has_edge(a, b) || (a == parent
        && b == leaf) by {
        if after.edges != before.edges {
            let k = choose|k: int| 0 <= k < after.edges.len() && after.edges[k] == (TreeEdge { parent_id: a, child_id: b });
            if k < before.edges.len() {
                assert(before.edges[k] == after.edges[k]);
            }
        }
    }
    assert forall|a: i64, b: i64| #[trigger] after.has_edge(a, b) implies a != leaf by {
        if before.has_edge(a, b) {
            let k = choose|k: int| 0 <= k < before.edges.len() && before.edges[k] == (TreeEdge { parent_id: a, child_id: b });
            assert(before.has_node(before.edges[k].parent_id));
        }
    }
    assert forall|x: i64| !#[trigger] is_ancestor(after, x, x) by {
        if is_ancestor(after, x, x) {
            let path = choose|path: Seq<i64>| #[trigger] is_upward_path(after, x, path) && path.last() == x;
            assert forall|i: int| 0 <= i < path.len() implies #[trigger] path[i] != leaf by {
                if i == 0 {
                    assert(after.has_edge(path[0], x));
                } else {
                    assert(after.has_edge(path[i], path[i - 1]));
                }
            }
            assert(path[path.len() - 1] != leaf);
            assert forall|i: int| 1 <= i < path.len() implies #[trigger] before.has_edge(path[i], path[i - 1]) by {
                assert(after.has_edge(path[i], path[i - 1]));
                assert(path[i - 1] != leaf);
            }
            assert(after.has_edge(path[0], x));
            assert(x != leaf);
            assert(before.has_edge(path[0], x));
            assert(is_upward_path(before, x, path));
            assert(is_ancestor(before, x, x));
        }
    }
}

/// Dropping edges closes no cycle.
proof fn lemma_sub_edges_acyclic(m1: TreeModel, m2: TreeModel)
    requires
        acyclic(m1),
        forall|i: int| 0 <= i < m2.edges.len() ==> m1.edges.contains(#[trigger] m2.edges[i]),
    ensures
        acyclic(m2),
{
    assert forall|x: i64| !#[trigger] is_ancestor(m2, x, x) by {
        if is_ancestor(m2, x, x) {
            let path = choose|path: Seq<i64>| #[trigger] is_upward_path(m2, x, path) && path.last() == x;
            assert forall|a: i64, b: i64| #[trigger] m2.has_edge(a, b) implies m1.has_edge(a, b) by {
                let k = choose|k: int| 0 <= k < m2.edges.len() && m2.edges[k] == (TreeEdge { parent_id: a, child_id: b });
                assert(m1.edges.contains(m2.edges[k]));
            }
            assert forall|i: int| 1 <= i < path.len() implies #[trigger] m1.has_edge(path[i], path[i - 1]) by {
                assert(m2.has_edge(path[i], path[i - 1]));
            }
            assert(m2.has_edge(path[0], x));
            assert(is_upward_path(m1, x, path));
            assert(is_ancestor(m1, x, x));
        }
    }
}

} // verus!
