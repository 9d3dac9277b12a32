//! Laws of the memory library: properties that relate several operations or
//! hold of every state, stated over the models the operations' contracts use.
use vstd::prelude::*;
use crate::conflict::merged_tags;
use crate::ltm::{
    acyclic, is_ancestor, is_upward_path, lemma_find_node_at, find_inbox, find_leaf, find_node, same_but_summary, same_leaf_key, stored_as, upsert_leaf, Leaf,
    TreeEdge, TreeModel, TreeNode, TreeNodeKind,
};
use crate::ltm_placement::{leaf_record, placed, rolled_text, summaries_only, summary_of, DocumentToPlace};
use crate::ltm_retrieval::{concept_children, concept_map_within, is_concept, map_matches, MapNode};
use crate::mcp::{tool_route, McpRoute, ToolArgs};
use crate::session::{compression_due, compression_text, pushed, sum_tokens, tokens, SessionManager};
use crate::spine::{seeded_from, spine_name, spine_seeded};
use crate::text::{condensed, views};

verus! {

proof fn lemma_find_node_none(nodes: Seq<TreeNode>, id: i64)
    requires
        forall|j: int| 0 <= j < nodes.len() ==> (#[trigger] nodes[j]).id != Some(id),
    ensures
        find_node(nodes, id) is None,
    decreases nodes.len(),
{
    if nodes.len() > 0 {
        lemma_find_node_none(nodes.drop_first(), id);
    }
}

proof fn lemma_find_inbox_at(nodes: Seq<TreeNode>, k: int)
    requires
        0 <= k < nodes.len(),
        nodes[k].kind == TreeNodeKind::Inbox,
        forall|j: int| 0 <= j < k ==> (#[trigger] nodes[j]).kind != TreeNodeKind::Inbox,
    ensures
        find_inbox(nodes) == Some(nodes[k]),
    decreases k,
{
    if k > 0 {
        lemma_find_inbox_at(nodes.drop_first(), k - 1);
    }
}

proof fn lemma_find_leaf_absent(leaves: Seq<Leaf>, data_id: Seq<char>)
    requires
        find_leaf(leaves, data_id) is None,
    ensures
        forall|j: int| 0 <= j < leaves.len() ==> (#[trigger] leaves[j]).data_id@ != data_id,
    decreases leaves.len(),
{
    if leaves.len() > 0 {
        lemma_find_leaf_absent(leaves.drop_first(), data_id);
        assert forall|j: int| 0 <= j < leaves.len() implies (#[trigger] leaves[j]).data_id@ != data_id by {
            if j > 0 {
                assert(leaves[j] == leaves.drop_first()[j - 1]);
            }
        }
    }
}

proof fn lemma_upsert_new_key(leaves: Seq<Leaf>, leaf: Leaf)
    requires
        forall|j: int| 0 <= j < leaves.len() ==> (#[trigger] leaves[j]).data_id@ != leaf.data_id@,
    ensures
        upsert_leaf(leaves, leaf) == leaves.push(leaf),
    decreases leaves.len(),
{
    if leaves.len() > 0 {
        assert(leaves[0].data_id@ != leaf.data_id@);
        lemma_upsert_new_key(leaves.drop_first(), leaf);
        assert(seq![leaves[0]] + leaves.drop_first().push(leaf) =~= leaves.push(leaf));
    }
}

proof fn lemma_find_leaf_pushed(leaves: Seq<Leaf>, leaf: Leaf)
    requires
        forall|j: int| 0 <= j < leaves.len() ==> (#[trigger] leaves[j]).data_id@ != leaf.data_id@,
    ensures
        find_leaf(leaves.push(leaf), leaf.data_id@) == Some(leaf),
    decreases leaves.len(),
{
    if leaves.len() > 0 {
        lemma_find_leaf_pushed(leaves.drop_first(), leaf);
        assert(leaves.push(leaf).drop_first() =~= leaves.drop_first().push(leaf));
        assert(leaves.push(leaf)[0] == leaves[0]);
    } else {
        assert(leaves.push(leaf)[0] == leaf);
    }
}

/// Seeding is idempotent: seeding the spine into a tree twice leaves it as the
/// first seeding did.
pub proof fn law_seed_spine_idempotent(m0: TreeModel, m1: TreeModel, m2: TreeModel)
    requires
        seeded_from(m0, m1),
        seeded_from(m1, m2),
    ensures
        m2 == m1,
{
}

/// A seeded tree has an inbox (the spine's `inbox` node), so a document that
/// matches no concept always has a place to fall to.
pub proof fn law_seeded_tree_has_inbox(m: TreeModel)
    requires
        spine_seeded(m),
    ensures
        m.inbox() matches Some(n) && n.kind == TreeNodeKind::Inbox && n.name@ == spine_name(5),
{
    assert forall|j: int| 0 <= j < 5 implies (#[trigger] m.nodes[j]).kind != TreeNodeKind::Inbox by {
        assert(crate::spine::node_is(m.nodes[j], spine_name(j), crate::spine::spine_summary(j), crate::spine::spine_kind(j)));
    }
    assert(crate::spine::node_is(m.nodes[5], spine_name(5), crate::spine::spine_summary(5), crate::spine::spine_kind(5)));
    lemma_find_inbox_at(m.nodes, 5);
}

/// Placement is permanent: filing a document removes no node and changes no
/// node but (possibly) its rolling summary; it adds exactly the leaf node.
pub proof fn law_place_keeps_nodes(
    before: TreeModel,
    after: TreeModel,
    doc: DocumentToPlace,
    parent_id: i64,
    leaf_id: i64,
    max_len: nat,
)
    requires
        placed(before, after, doc, parent_id, leaf_id, max_len),
    ensures
        after.nodes.len() == before.nodes.len() + 1,
        forall|i: int| 0 <= i < before.nodes.len() ==> same_but_summary(#[trigger] before.nodes[i], after.nodes[i]),
{
    let (m1, n) = choose|m1: TreeModel, n: TreeNode|
        #![trigger before.created(m1, n, leaf_id)]
        n.name@ == doc.name@ && n.summary@ == doc.summary@ && n.kind == TreeNodeKind::Leaf
            && n.permanent && before.created(m1, n, leaf_id) && {
            let m3 = m1.with_leaf(leaf_record(doc, leaf_id)).with_edge(
                TreeEdge { parent_id, child_id: leaf_id },
            );
            &&& summaries_only(m3, after, crate::ltm_placement::rolled_from(m3, parent_id))
            &&& crate::ltm_placement::rolled_at(m3, after, parent_id, max_len)
            &&& acyclic(before) && before.has_node(parent_id) ==> crate::ltm_placement::rolled_up(
                m3,
                after,
                parent_id,
                max_len,
            )
        };
    let m3 = m1.with_leaf(leaf_record(doc, leaf_id)).with_edge(TreeEdge { parent_id, child_id: leaf_id });
    assert(m3.nodes == m1.nodes);
    assert forall|i: int| 0 <= i < before.nodes.len() implies same_but_summary(#[trigger] before.nodes[i], after.nodes[i]) by {
        assert(m1.nodes[i] == m1.nodes.drop_last()[i]);
        assert(same_but_summary(m3.nodes[i], after.nodes[i]));
    }
}

/// A filed document hangs under the node it was placed at: the tree has the
/// edge from the parent to the new leaf.
pub proof fn law_place_attaches_leaf(
    before: TreeModel,
    after: TreeModel,
    doc: DocumentToPlace,
    parent_id: i64,
    leaf_id: i64,
    max_len: nat,
)
    requires
        placed(before, after, doc, parent_id, leaf_id, max_len),
    ensures
        after.has_edge(parent_id, leaf_id),
{
    let (m1, n) = choose|m1: TreeModel, n: TreeNode|
        #![trigger before.created(m1, n, leaf_id)]
        n.name@ == doc.name@ && n.summary@ == doc.summary@ && n.kind == TreeNodeKind::Leaf
            && n.permanent && before.created(m1, n, leaf_id) && {
            let m3 = m1.with_leaf(leaf_record(doc, leaf_id)).with_edge(
                TreeEdge { parent_id, child_id: leaf_id },
            );
            &&& summaries_only(m3, after, crate::ltm_placement::rolled_from(m3, parent_id))
            &&& crate::ltm_placement::rolled_at(m3, after, parent_id, max_len)
            &&& acyclic(before) && before.has_node(parent_id) ==> crate::ltm_placement::rolled_up(
                m3,
                after,
                parent_id,
                max_len,
            )
        };
    let e = TreeEdge { parent_id, child_id: leaf_id };
    let m2 = m1.with_leaf(leaf_record(doc, leaf_id));
    if !m2.edges.contains(e) {
        assert(m2.edges.push(e)[m2.edges.len() as int] == e);
    }
}

/// A read gives back the write: once a document is filed, looking its `dataId`
/// up finds the new leaf node (for a `dataId` the tree did not hold before; a
/// second filing of a `dataId` is found at its first leaf).
pub proof fn law_place_then_lookup(
    before: TreeModel,
    after: TreeModel,
    doc: DocumentToPlace,
    parent_id: i64,
    leaf_id: i64,
    max_len: nat,
)
    requires
        placed(before, after, doc, parent_id, leaf_id, max_len),
        find_leaf(before.leaves, doc.data_id@) is None,
    ensures
        after.node_by_data_id(doc.data_id@) matches Some(n) && n.id == Some(leaf_id)
            && n.kind == TreeNodeKind::Leaf && n.name@ == doc.name@,
{
    let (m1, n) = choose|m1: TreeModel, n: TreeNode|
        #![trigger before.created(m1, n, leaf_id)]
        n.name@ == doc.name@ && n.summary@ == doc.summary@ && n.kind == TreeNodeKind::Leaf
            && n.permanent && before.created(m1, n, leaf_id) && {
            let m3 = m1.with_leaf(leaf_record(doc, leaf_id)).with_edge(
                TreeEdge { parent_id, child_id: leaf_id },
            );
            &&& summaries_only(m3, after, crate::ltm_placement::rolled_from(m3, parent_id))
            &&& crate::ltm_placement::rolled_at(m3, after, parent_id, max_len)
            &&& acyclic(before) && before.has_node(parent_id) ==> crate::ltm_placement::rolled_up(
                m3,
                after,
                parent_id,
                max_len,
            )
        };
    let rec = leaf_record(doc, leaf_id);
    let m3 = m1.with_leaf(rec).with_edge(TreeEdge { parent_id, child_id: leaf_id });
    lemma_find_leaf_absent(before.leaves, doc.data_id@);
    lemma_upsert_new_key(before.leaves, rec);
    lemma_find_leaf_pushed(before.leaves, rec);
    assert(after.leaves == m3.leaves);
    assert(find_leaf(after.leaves, doc.data_id@) == Some(rec));
    let k = before.nodes.len() as int;
    assert(m3.nodes == m1.nodes);
    assert forall|j: int| 0 <= j < k implies (#[trigger] after.nodes[j]).id != Some(leaf_id) by {
        assert(m1.nodes[j] == before.nodes[j]);
        assert(same_but_summary(m3.nodes[j], after.nodes[j]));
    }
    assert(same_but_summary(m3.nodes[k], after.nodes[k]));
    assert(stored_as(m1.nodes[k], n, leaf_id));
    lemma_find_node_at(after.nodes, leaf_id, k);
}

/// Forgetting removes the document: after a successful forget, the tree holds
/// neither the leaf node nor any edge touching it.
pub proof fn law_forget_removes_leaf(before: TreeModel, after: TreeModel, leaf_id: i64)
    requires
        before.without_node(leaf_id).same_shape(after),
    ensures
        after.node(leaf_id) is None,
        !after.has_node(leaf_id),
        forall|i: int| 0 <= i < after.edges.len() ==> (#[trigger] after.edges[i]).parent_id != leaf_id
            && after.edges[i].child_id != leaf_id,
{
    let w = before.without_node(leaf_id);
    assert forall|j: int| 0 <= j < after.nodes.len() implies (#[trigger] after.nodes[j]).id != Some(leaf_id) by {
        assert(same_but_summary(w.nodes[j], after.nodes[j]));
        assert(w.nodes.contains(w.nodes[j]));
    }
    lemma_find_node_none(after.nodes, leaf_id);
    assert forall|i: int| 0 <= i < after.edges.len() implies (#[trigger] after.edges[i]).parent_id != leaf_id
        && after.edges[i].child_id != leaf_id by {
        assert(w.edges.contains(w.edges[i]));
    }
}

/// Deleting a node leaves nothing to find under its id.
pub proof fn law_delete_then_get(m: TreeModel, id: i64)
    ensures
        m.without_node(id).node(id) is None,
{
    let w = m.without_node(id);
    assert forall|j: int| 0 <= j < w.nodes.len() implies (#[trigger] w.nodes[j]).id != Some(id) by {
        assert(w.nodes.contains(w.nodes[j]));
    }
    lemma_find_node_none(w.nodes, id);
}

/// Adding an edge is idempotent: adding it again changes nothing.
pub proof fn law_add_edge_idempotent(m: TreeModel, e: TreeEdge)
    ensures
        m.with_edge(e).with_edge(e) == m.with_edge(e),
{
    if !m.edges.contains(e) {
        assert(m.edges.push(e)[m.edges.len() as int] == e);
    }
}

proof fn lemma_upsert_twice(leaves: Seq<Leaf>, leaf: Leaf)
    ensures
        upsert_leaf(upsert_leaf(leaves, leaf), leaf) == upsert_leaf(leaves, leaf),
    decreases leaves.len(),
{
    if leaves.len() == 0 {
        assert(same_leaf_key(leaf, leaf));
        assert(seq![leaf].update(0, leaf) =~= seq![leaf]);
    } else if same_leaf_key(leaves[0], leaf) {
        let u = leaves.update(0, leaf);
        assert(u[0] == leaf);
        assert(u.update(0, leaf) =~= u);
    } else {
        lemma_upsert_twice(leaves.drop_first(), leaf);
        let u = seq![leaves[0]] + upsert_leaf(leaves.drop_first(), leaf);
        assert(u[0] == leaves[0]);
        assert(u.drop_first() =~= upsert_leaf(leaves.drop_first(), leaf));
    }
}

/// Linking a node to a `dataId` is idempotent: writing the same leaf record
/// twice leaves the tree as writing it once.
pub proof fn law_create_leaf_idempotent(m: TreeModel, leaf: Leaf)
    ensures
        m.with_leaf(leaf).with_leaf(leaf) == m.with_leaf(leaf),
{
    lemma_upsert_twice(m.leaves, leaf);
}

/// Merging tags keeps the existing tags, in order, as a prefix.
pub proof fn law_merge_tags_prefix(existing: Seq<Seq<char>>, new: Seq<Seq<char>>)
    ensures
        merged_tags(existing, new).len() >= existing.len(),
        merged_tags(existing, new).take(existing.len() as int) == existing,
    decreases new.len(),
{
    if new.len() > 0 {
        law_merge_tags_prefix(existing, new.drop_last());
        let prev = merged_tags(existing, new.drop_last());
        if !prev.contains(new.last()) {
            assert(prev.push(new.last()).take(existing.len() as int) =~= prev.take(existing.len() as int));
        }
    }
}

/// Merging tags loses no tag and invents none: the result holds every tag of
/// both lists and only those.
pub proof fn law_merge_tags_members(existing: Seq<Seq<char>>, new: Seq<Seq<char>>, t: Seq<char>)
    ensures
        merged_tags(existing, new).contains(t) <==> (existing.contains(t) || new.contains(t)),
    decreases new.len(),
{
    if new.len() > 0 {
        law_merge_tags_members(existing, new.drop_last(), t);
        let prev = merged_tags(existing, new.drop_last());
        if new.drop_last().contains(t) {
            let k = choose|k: int| 0 <= k < new.drop_last().len() && new.drop_last()[k] == t;
            assert(new[k] == t);
        }
        if new.contains(t) && t != new.last() {
            let k = choose|k: int| 0 <= k < new.len() && new[k] == t;
            assert(new.drop_last()[k] == t);
        }
        if !prev.contains(new.last()) {
            let p = prev.push(new.last());
            assert(p[prev.len() as int] == new.last());
            if prev.contains(t) {
                let k = choose|k: int| 0 <= k < prev.len() && prev[k] == t;
                assert(p[k] == t);
            }
            if p.contains(t) && t != new.last() {
                let k = choose|k: int| 0 <= k < p.len() && p[k] == t;
                assert(prev[k] == t);
            }
        }
        assert(new[new.len() - 1] == new.last());
    }
}

/// Merging tags adds no duplicate: when the existing tags are distinct, so
/// are the merged ones.
pub proof fn law_merge_tags_distinct(existing: Seq<Seq<char>>, new: Seq<Seq<char>>)
    requires
        existing.no_duplicates(),
    ensures
        merged_tags(existing, new).no_duplicates(),
    decreases new.len(),
{
    if new.len() > 0 {
        law_merge_tags_distinct(existing, new.drop_last());
        let prev = merged_tags(existing, new.drop_last());
        if !prev.contains(new.last()) {
            let p = prev.push(new.last());
            assert forall|i: int, j: int| 0 <= i < p.len() && 0 <= j < p.len() && i != j implies p[i] != p[j] by {
                if i < prev.len() && j < prev.len() {
                    assert(p[i] == prev[i] && p[j] == prev[j]);
                } else if i < prev.len() {
                    assert(p[i] == prev[i]);
                    assert(prev.contains(prev[i]));
                } else {
                    assert(p[j] == prev[j]);
                    assert(prev.contains(prev[j]));
                }
            }
        }
    }
}

/// A condensed text never exceeds its cap, and a text within the cap is left
/// as it is; a text cut to a nonzero cap fills it exactly, ending in the
/// ellipsis after the text's first characters.
pub proof fn law_condense_bounded(text: Seq<char>, max_len: nat)
    ensures
        condensed(text, max_len).len() <= max_len,
        text.len() <= max_len ==> condensed(text, max_len) == text,
        text.len() > max_len && max_len > 0 ==> condensed(text, max_len).len() == max_len
            && condensed(text, max_len).last() == '…'
            && condensed(text, max_len).take(max_len - 1) == text.take(max_len - 1),
{
    if text.len() > max_len && max_len > 0 {
        assert(condensed(text, max_len).take(max_len - 1) =~= text.take(max_len - 1));
    }
}

/// The two query tools share one parse path: for the same arguments,
/// `query_memory` and `recall_ltm` build the same query but for its scope.
pub proof fn law_query_tools_agree(args: ToolArgs, r1: McpRoute, r2: McpRoute)
    requires
        tool_route("query_memory"@, args, r1),
        tool_route("recall_ltm"@, args, r2),
    ensures
        r1 matches McpRoute::QueryMemory(q1) && r2 matches McpRoute::RecallLtm(q2) && q1.tenant@
            == q2.tenant@ && q1.query@ == q2.query@ && q1.k == q2.k && q1.time_filter
            == q2.time_filter && crate::mcp::string_views(q1.ccl@) == crate::mcp::string_views(
            q2.ccl@,
        ) && q1.context_key == q2.context_key,
{
    reveal_strlit("query_memory");
    reveal_strlit("recall_ltm");
    reveal_strlit("store_memory");
    reveal_strlit("push_dialogue");
    assert("query_memory"@ != "store_memory"@) by {
        assert("query_memory"@[0] != "store_memory"@[0]);
    }
    assert("query_memory"@ != "push_dialogue"@) by {
        assert("query_memory"@[0] != "push_dialogue"@[0]);
    }
    assert("recall_ltm"@ != "store_memory"@) by {
        assert("recall_ltm"@[0] != "store_memory"@[0]);
    }
    assert("recall_ltm"@ != "push_dialogue"@) by {
        assert("recall_ltm"@[0] != "push_dialogue"@[0]);
    }
    assert("recall_ltm"@ != "query_memory"@) by {
        assert("recall_ltm"@[0] != "query_memory"@[0]);
    }
}

} // verus!

verus! {

/// The fact whose layer a step registers, if it is a registration.
pub open spec fn registered_fact(s: crate::sleep::SleepStep) -> Option<usize> {
    match s {
        crate::sleep::SleepStep::RegisterCcl { fact } => Some(fact),
        _ => None,
    }
}

proof fn lemma_relationship_steps_register_nothing(fact: nat, source: nat, n: nat)
    ensures
        forall|p: int|
            0 <= p < crate::sleep::relationship_steps(fact, source, n).len() ==> registered_fact(
                #[trigger] crate::sleep::relationship_steps(fact, source, n)[p],
            ) is None,
    decreases n,
{
    if n > 0 {
        lemma_relationship_steps_register_nothing(fact, source, (n - 1) as nat);
        let prev = crate::sleep::relationship_steps(fact, source, (n - 1) as nat);
        let tail = seq![
            crate::sleep::SleepStep::ResolveEntity { fact: fact as usize, rel: (n - 1) as usize },
            crate::sleep::SleepStep::Link {
                fact: fact as usize,
                rel: (n - 1) as usize,
                source: source as usize,
                target: (source + n) as usize,
            },
        ];
        assert forall|p: int| 0 <= p < (prev + tail).len() implies registered_fact(#[trigger] (prev + tail)[p]) is None by {
            if p < prev.len() {
                assert((prev + tail)[p] == prev[p]);
            } else {
                assert((prev + tail)[p] == tail[p - prev.len()]);
            }
        }
    }
}

proof fn lemma_layer_named(facts: Seq<crate::models::ExtractedFact>, k: int)
    requires
        0 <= k < facts.len(),
    ensures
        crate::sleep::ccl_names(facts).contains(facts[k].ccl@),
    decreases facts.len(),
{
    if k < facts.len() - 1 {
        lemma_layer_named(facts.drop_last(), k);
    }
}

/// The sleep pipeline registers each new layer once: a registration in an
/// episode's plan is for a layer neither already known nor registered earlier
/// in the plan, so no layer is registered twice and no known layer again.
pub proof fn law_plan_registers_new_layers_once(
    facts: Seq<crate::models::ExtractedFact>,
    known: Set<Seq<char>>,
)
    requires
        facts.len() <= usize::MAX,
    ensures
        forall|p: int|
            0 <= p < crate::sleep::episode_plan(facts, known).len() && (registered_fact(
                #[trigger] crate::sleep::episode_plan(facts, known)[p],
            ) is Some) ==> registered_fact(crate::sleep::episode_plan(facts, known)[p])->0
                < facts.len() && !known.contains(
                facts[registered_fact(crate::sleep::episode_plan(facts, known)[p])->0 as int].ccl@,
            ),
        forall|p: int, q: int|
            0 <= p < q < crate::sleep::episode_plan(facts, known).len() && (registered_fact(
                #[trigger] crate::sleep::episode_plan(facts, known)[p],
            ) is Some) && (registered_fact(#[trigger] crate::sleep::episode_plan(facts, known)[q]) is Some)
                ==> facts[registered_fact(crate::sleep::episode_plan(facts, known)[p])->0 as int].ccl@
                != facts[registered_fact(crate::sleep::episode_plan(facts, known)[q])->0 as int].ccl@,
    decreases facts.len(),
{
    if facts.len() > 0 {
        let prev = facts.drop_last();
        let i = (facts.len() - 1) as nat;
        let f = facts.last();
        law_plan_registers_new_layers_once(prev, known);
        let pp = crate::sleep::episode_plan(prev, known);
        let seen = known.union(crate::sleep::ccl_names(prev));
        let reg: Seq<crate::sleep::SleepStep> = if seen.contains(f.ccl@) {
            seq![]
        } else {
            seq![crate::sleep::SleepStep::RegisterCcl { fact: i as usize }]
        };
        let rs = crate::sleep::relationship_steps(i, crate::sleep::slots_of(prev), f.relationships@.len());
        let block = reg + seq![crate::sleep::SleepStep::ResolveFact { fact: i as usize }] + rs;
        let plan = crate::sleep::episode_plan(facts, known);
        assert(plan =~= pp + block);
        lemma_relationship_steps_register_nothing(i, crate::sleep::slots_of(prev), f.relationships@.len());
        assert forall|p: int| reg.len() <= p < block.len() implies registered_fact(#[trigger] block[p]) is None by {
            if p == reg.len() {
                assert(block[p] == crate::sleep::SleepStep::ResolveFact { fact: i as usize });
            } else {
                assert(block[p] == rs[p - reg.len() - 1]);
            }
        }
        assert forall|p: int| 0 <= p < plan.len() && (registered_fact(#[trigger] plan[p]) is Some) implies registered_fact(plan[p])->0 < facts.len()
            && !known.contains(facts[registered_fact(plan[p])->0 as int].ccl@)
            && (p < pp.len() ==> registered_fact(plan[p])->0 < prev.len())
            && (p >= pp.len() ==> p == pp.len() && registered_fact(plan[p])->0 == i) by {
            if p < pp.len() {
                assert(plan[p] == pp[p]);
                let k = registered_fact(pp[p])->0 as int;
                assert(facts[k] == prev[k]);
            } else {
                assert(plan[p] == block[p - pp.len()]);
                assert(p - pp.len() < reg.len());
                assert(block[p - pp.len()] == reg[p - pp.len()]);
                assert(f == facts[i as int]);
            }
        }
        assert forall|p: int, q: int|
            0 <= p < q < plan.len() && (registered_fact(#[trigger] plan[p]) is Some) && (registered_fact(
                #[trigger] plan[q],
            ) is Some) implies facts[registered_fact(plan[p])->0 as int].ccl@
            != facts[registered_fact(plan[q])->0 as int].ccl@ by {
            let a = registered_fact(plan[p])->0 as int;
            let b = registered_fact(plan[q])->0 as int;
            if q < pp.len() {
                assert(plan[p] == pp[p]);
                assert(plan[q] == pp[q]);
                assert(facts[a] == prev[a]);
                assert(facts[b] == prev[b]);
            } else {
                assert(p < pp.len());
                assert(plan[p] == pp[p]);
                assert(facts[a] == prev[a]);
                lemma_layer_named(prev, a);
                assert(b == i);
                assert(!seen.contains(f.ccl@));
            }
        }
    }
}

} // verus!

verus! {

/// Ingestion reads every page exactly once: a page order lists each page
/// position once and no other.
pub proof fn law_page_order_is_permutation(pages: Seq<crate::ingestion::PageRef>, order: Seq<usize>)
    requires
        crate::ingestion::page_order(pages, order),
    ensures
        order.no_duplicates(),
        forall|i: int| 0 <= i < pages.len() ==> #[trigger] order.contains(i as usize),
{
    assert forall|p: int, q: int| 0 <= p < order.len() && 0 <= q < order.len() && p != q implies order[p] != order[q] by {
        if p < q {
            assert(order[p] < order[q] || page_key_lt(pages, order, p, q));
        } else {
            assert(order[q] < order[p] || page_key_lt(pages, order, q, p));
        }
    }
    let s = order.map_values(|x: usize| x as int);
    assert forall|p: int, q: int| 0 <= p < s.len() && 0 <= q < s.len() && p != q implies s[p] != s[q] by {
        assert(order[p] != order[q]);
    }
    assert(s.no_duplicates());
    s.unique_seq_to_set();
    let range = vstd::set_lib::set_int_range(0, pages.len() as int);
    vstd::set_lib::lemma_int_range(0, pages.len() as int);
    assert forall|x: int| s.to_set().contains(x) implies range.contains(x) by {
        let p = choose|p: int| 0 <= p < s.len() && s[p] == x;
        assert(order[p] < pages.len());
    }
    vstd::seq_lib::seq_to_set_is_finite(s);
    vstd::set_lib::lemma_subset_equality(s.to_set(), range);
    assert forall|i: int| 0 <= i < pages.len() implies #[trigger] order.contains(i as usize) by {
        assert(range.contains(i));
        assert(s.to_set().contains(i));
        let p = choose|p: int| 0 <= p < s.len() && s[p] == i;
        assert(order[p] == i as usize);
    }
}

/// Two positions of a page order whose keys strictly increase.
spec fn page_key_lt(pages: Seq<crate::ingestion::PageRef>, order: Seq<usize>, p: int, q: int) -> bool {
    crate::ingestion::page_key(pages[order[p] as int]) < crate::ingestion::page_key(pages[order[q] as int])
}

/// Compression keeps at most `keep` raw messages, and they are the newest:
/// the kept messages are the last `min(len, keep)` ones.
pub proof fn law_compression_keeps_newest(messages: Seq<Seq<char>>, keep: nat)
    ensures
        ({
            let keep_from = if messages.len() > keep {
                messages.len() - keep
            } else {
                0
            };
            &&& messages.skip(keep_from).len() <= keep
            &&& messages.skip(keep_from) == messages.subrange(keep_from, messages.len() as int)
            &&& messages.len() <= keep ==> messages.skip(keep_from) == messages
        }),
{
    let keep_from = if messages.len() > keep {
        messages.len() - keep
    } else {
        0
    };
    assert(messages.skip(keep_from) =~= messages.subrange(keep_from, messages.len() as int));
    if messages.len() <= keep {
        assert(messages.skip(0) =~= messages);
    }
}

} // verus!

verus! {

proof fn lemma_filter_agree(s: Seq<TreeNode>, p: spec_fn(TreeNode) -> bool, q: spec_fn(TreeNode) -> bool)
    requires
        forall|i: int| 0 <= i < s.len() ==> p(#[trigger] s[i]) == q(s[i]),
    ensures
        s.filter(p) == s.filter(q),
    decreases s.len(),
{
    if s.len() == 0 {
        reveal(Seq::filter);
    } else {
        let d = s.drop_last();
        assert forall|i: int| 0 <= i < d.len() implies p(#[trigger] d[i]) == q(d[i]) by {
            assert(d[i] == s[i]);
        }
        lemma_filter_agree(d, p, q);
        d.lemma_filter_push(s.last(), p);
        d.lemma_filter_push(s.last(), q);
        assert(d.push(s.last()) =~= s);
    }
}

/// Filing a document rolls its parent up over the new leaf: afterwards the
/// parent's summary is the rolled form of its earlier children's summaries
/// followed by the document's summary (for a parent that is a stored node and
/// not its own ancestor).
pub proof fn law_place_rolls_parent(
    before: TreeModel,
    after: TreeModel,
    doc: DocumentToPlace,
    parent_id: i64,
    leaf_id: i64,
    max_len: nat,
)
    requires
        placed(before, after, doc, parent_id, leaf_id, max_len),
        before.wf(),
        before.has_node(parent_id),
        !is_ancestor(before, parent_id, parent_id),
    ensures
        after.node(parent_id) matches Some(pn) && pn.summary@ == rolled_text(
            before.children(parent_id).map_values(summary_of()).push(doc.summary@),
            max_len,
        ),
{
    let (m1, n) = choose|m1: TreeModel, n: TreeNode|
        #![trigger before.created(m1, n, leaf_id)]
        n.name@ == doc.name@ && n.summary@ == doc.summary@ && n.kind == TreeNodeKind::Leaf
            && n.permanent && before.created(m1, n, leaf_id) && {
            let m3 = m1.with_leaf(leaf_record(doc, leaf_id)).with_edge(
                TreeEdge { parent_id, child_id: leaf_id },
            );
            &&& summaries_only(m3, after, crate::ltm_placement::rolled_from(m3, parent_id))
            &&& crate::ltm_placement::rolled_at(m3, after, parent_id, max_len)
            &&& acyclic(before) && before.has_node(parent_id) ==> crate::ltm_placement::rolled_up(
                m3,
                after,
                parent_id,
                max_len,
            )
        };
    let e = TreeEdge { parent_id, child_id: leaf_id };
    let m2 = m1.with_leaf(leaf_record(doc, leaf_id));
    let m3 = m2.with_edge(e);
    let stored = m1.nodes.last();
    assert(m1.nodes =~= before.nodes.push(stored));
    assert(m3.nodes == before.nodes.push(stored));
    assert(m2.edges == before.edges);
    // The parent is stored, the leaf id is fresh: they differ.
    let kp = choose|i: int| 0 <= i < before.nodes.len() && #[trigger] before.nodes[i].id == Some(parent_id);
    assert(parent_id != leaf_id);
    // No edge of the old tree touches the fresh leaf.
    assert forall|a: i64, b: i64| #[trigger] m3.has_edge(a, b) implies before.has_edge(a, b)
        || (a == parent_id && b == leaf_id) by {
        let x = TreeEdge { parent_id: a, child_id: b };
        if !before.edges.contains(e) {
            let k = choose|k: int| 0 <= k < m3.edges.len() && m3.edges[k] == x;
            if k < before.edges.len() {
                assert(before.edges[k] == x);
            }
        }
    }
    assert forall|a: i64, b: i64| #[trigger] m3.has_edge(a, b) implies a != leaf_id by {
        if before.has_edge(a, b) {
            let k = choose|k: int| 0 <= k < before.edges.len() && before.edges[k] == TreeEdge { parent_id: a, child_id: b };
            assert(before.has_node(before.edges[k].parent_id));
        }
    }
    // The parent is still not its own ancestor.
    assert(!is_ancestor(m3, parent_id, parent_id)) by {
        if is_ancestor(m3, parent_id, parent_id) {
            let path = choose|path: Seq<i64>| #[trigger] is_upward_path(m3, parent_id, path) && path.last() == parent_id;
            assert forall|i: int| 1 <= i < path.len() implies #[trigger] before.has_edge(path[i], path[i - 1]) by {
                assert(m3.has_edge(path[i], path[i - 1]));
                if i - 1 == 0 {
                    assert(m3.has_edge(path[0], parent_id));
                } else {
                    let j = i - 1;
                    assert(1 <= j < path.len());
                    assert(m3.has_edge(path[j], path[j - 1]));
                }
            }
            assert(m3.has_edge(path[0], parent_id));
            assert(before.has_edge(path[0], parent_id));
            assert(is_upward_path(before, parent_id, path));
        }
    }
    // The parent's children gain exactly the leaf.
    let pb = before.is_child_of(parent_id);
    let p3 = m3.is_child_of(parent_id);
    assert forall|i: int| 0 <= i < before.nodes.len() implies p3(#[trigger] before.nodes[i]) == pb(before.nodes[i]) by {
        let nd = before.nodes[i];
        if nd.id is Some {
            assert(before.has_node(nd.id->0));
            if m3.has_edge(parent_id, nd.id->0) {
                assert(nd.id->0 != leaf_id);
            }
            if before.has_edge(parent_id, nd.id->0) {
                let k = choose|k: int| 0 <= k < before.edges.len() && before.edges[k] == TreeEdge { parent_id, child_id: nd.id->0 };
                if !before.edges.contains(e) {
                    assert(m3.edges[k] == before.edges[k]);
                }
            }
        }
    }
    lemma_filter_agree(before.nodes, p3, pb);
    assert(stored.id == Some(leaf_id));
    assert(m3.has_edge(parent_id, leaf_id)) by {
        if !before.edges.contains(e) {
            assert(m3.edges[before.edges.len() as int] == e);
        }
    }
    before.nodes.lemma_filter_push(stored, p3);
    assert(m3.children(parent_id) == before.children(parent_id).push(stored));
    assert(m3.children(parent_id).map_values(summary_of()) =~= before.children(parent_id).map_values(
        summary_of(),
    ).push(doc.summary@));
    // The parent is a stored node of the filed tree.
    assert forall|j: int| 0 <= j < kp implies (#[trigger] m3.nodes[j]).id != Some(parent_id) by {
        assert(m3.nodes[j] == before.nodes[j]);
        assert(before.nodes[j].id != before.nodes[kp].id);
    }
    assert(m3.nodes[kp] == before.nodes[kp]);
    lemma_find_node_at(m3.nodes, parent_id, kp);
}

} // verus!

verus! {

proof fn lemma_map_within(m: TreeModel, out: MapNode, node: TreeNode, remaining: nat)
    requires
        map_matches(m, out, node, remaining),
        node.kind != TreeNodeKind::Leaf,
        remaining >= 1,
    ensures
        concept_map_within(out, remaining),
    decreases remaining,
{
    if remaining > 1 {
        let cs = concept_children(m, node.id->0);
        assert forall|i: int| 0 <= i < out.children@.len() implies concept_map_within(
            #[trigger] out.children@[i],
            (remaining - 1) as nat,
        ) by {
            crate::ltm_store::lemma_filter_elem(m.children(node.id->0), is_concept(), i);
            lemma_map_within(m, out.children@[i], cs[i], (remaining - 1) as nat);
        }
    }
}

/// A map of the tree shows no document leaf at any level, and no path down
/// it is longer than the layers asked for: each entry of a map of `depth`
/// layers spans at most `depth` layers of concepts.
pub proof fn law_map_has_no_leaves(m: TreeModel, v: Seq<MapNode>, depth: nat)
    requires
        depth == 0 ==> v.len() == 0,
        depth > 0 ==> v.len() == m.roots().len() && forall|i: int|
            0 <= i < m.roots().len() ==> map_matches(m, #[trigger] v[i], m.roots()[i], depth),
    ensures
        forall|i: int| 0 <= i < v.len() ==> concept_map_within(#[trigger] v[i], depth),
{
    assert forall|i: int| 0 <= i < v.len() implies concept_map_within(#[trigger] v[i], depth) by {
        crate::ltm_store::lemma_filter_elem(m.nodes, m.is_root(), i);
        lemma_map_within(m, v[i], m.roots()[i], depth);
    }
}

} // verus!

verus! {

/// A push makes the session compress exactly when the session then holds
/// more tokens than the threshold (its messages, the pushed one included,
/// and its summary) and more messages than it keeps raw; what goes to the
/// compressor is all but the newest kept messages, after the previous
/// summary when there is one.
pub proof fn law_push_triggers_compression(
    before: SessionManager,
    after: SessionManager,
    id: Seq<char>,
    message: Seq<char>,
    needs: bool,
    request: Option<String>,
)
    requires
        before.inv(),
        pushed(before, after, id, message, needs),
        compression_due(after, id, request),
    ensures
        after.session(id) matches Some(b) && {
            let msgs = views(b.messages@);
            let held = sum_tokens(msgs) + match b.summary {
                Some(s) => tokens(s@),
                None => 0,
            };
            &&& msgs == match before.session(id) {
                Some(ob) => views(ob.messages@),
                None => Seq::empty(),
            }.push(message)
            &&& (needs && request is Some) <==> (held > before.threshold() && msgs.len() > before.keep())
            &&& (needs && request is Some) ==> request->0@ == compression_text(
                b.summary,
                msgs.take(msgs.len() - before.keep()),
            )
        },
{
    after.lemma_session_inv(id);
}

} // verus!

verus! {

/// The tenant a tool call acts on: the string argument `tenant_id` when the
/// call carries one, and the default tenant only when it does not.
pub open spec fn named_tenant(args: ToolArgs) -> Seq<char> {
    match crate::mcp::arg_of(args.entries@, "tenant_id"@) {
        Some(crate::mcp::ArgValue::Text(s)) => s@,
        _ => crate::models::DEFAULT_TENANT@,
    }
}

/// Every tenant-scoped tool acts on the tenant the caller names: a string
/// `tenant_id` argument is used exactly as given, and the default tenant only
/// when that argument is absent or not a string. Deleting or exporting a
/// tenant therefore never touches another tenant's data.
pub proof fn law_tenant_tools_use_named_tenant(tool: Seq<char>, args: ToolArgs, r: McpRoute)
    requires
        crate::mcp::request_route("tools/call"@, Some(tool), args, r),
    ensures
        tool == "delete_tenant"@ ==> (r matches McpRoute::DeleteTenant { tenant_id } && tenant_id@
            == named_tenant(args)),
        tool == "export_tenant"@ ==> (r matches McpRoute::ExportTenant { tenant_id } && tenant_id@
            == named_tenant(args)),
        tool == "store_memory"@ ==> (r matches McpRoute::StoreMemory { tenant_id, .. } && tenant_id@
            == named_tenant(args)),
        tool == "push_dialogue"@ ==> (r matches McpRoute::PushDialogue { tenant_id, .. } && tenant_id@
            == named_tenant(args)),
        tool == "query_memory"@ ==> (r matches McpRoute::QueryMemory(q) && q.tenant@ == named_tenant(args)),
        tool == "recall_ltm"@ ==> (r matches McpRoute::RecallLtm(q) && q.tenant@ == named_tenant(args)),
{
    reveal_strlit("store_memory");
    reveal_strlit("push_dialogue");
    reveal_strlit("query_memory");
    reveal_strlit("recall_ltm");
    reveal_strlit("delete_tenant");
    reveal_strlit("export_tenant");
    assert("delete_tenant"@[0] != "push_dialogue"@[0]);
    assert("export_tenant"@[0] != "push_dialogue"@[0]);
    assert("export_tenant"@[0] != "delete_tenant"@[0]);
    assert("query_memory"@[0] != "store_memory"@[0]);
    assert("query_memory"@.len() != "push_dialogue"@.len());
    assert("recall_ltm"@.len() != "store_memory"@.len());
    assert("recall_ltm"@.len() != "push_dialogue"@.len());
    assert("recall_ltm"@.len() != "query_memory"@.len());
    if tool == "query_memory"@ || tool == "recall_ltm"@ {
        assert(tool != "store_memory"@);
        assert(tool != "push_dialogue"@);
    }
}

/// The Vertex embeddings client works in the configured region: the
/// configured `embedding_location` whenever one is set, `us-central1` only
/// when it is unset; it uses the embedding model and the configured project.
/// A Vertex client is chosen exactly when Vertex is the effective embedding
/// provider.
pub proof fn law_vertex_embeddings_use_configured_region(config: crate::config::LlmConfig, r: crate::llm::ClientSpec)
    requires
        crate::llm::embedding_client_for(config, r),
    ensures
        (r is Vertex) <==> match config.embedding_provider {
            Some(p) => p == crate::config::LlmProvider::Vertex,
            None => config.provider == crate::config::LlmProvider::Vertex,
        },
        r matches crate::llm::ClientSpec::Vertex { model, project, location } ==> {
            &&& model@ == config.embedding_model@
            &&& (config.embedding_location matches Some(l) ==> location@ == l@)
            &&& (config.embedding_location is None ==> location@ == "us-central1"@)
            &&& (config.embedding_project matches Some(p) ==> project@ == p@)
        },
{
}

/// The resolver assimilates (only reinforces) the closest existing fact
/// exactly when its text is the new fact's text, character for character; a
/// new fact whose text differs in any way, an extension of the old text
/// included, rewrites the closest node with the new text and data id. Without
/// any similar fact, a node is created.
pub proof fn law_resolver_assimilates_only_identical_text(
    similar: Seq<crate::conflict::SimilarNode>,
    new_payload: crate::conflict::FactPayload,
    r: (crate::conflict::AdaptationResult, Option<crate::conflict::SupportUpdate>),
)
    requires
        crate::conflict::decided(similar, new_payload, r),
    ensures
        similar.len() == 0 ==> r.0 is AccommodateCreate && r.1 is None,
        similar.len() > 0 ==> {
            &&& (r.0 is Assimilated) <==> similar[0].payload.fact@ == new_payload.fact@
            &&& (r.0 is Assimilated) ==> (r.1 matches Some(u) && u.new_payload is None)
            &&& !(r.0 is Assimilated) ==> r.0 is AccommodatedModify
            &&& !(r.0 is Assimilated) ==> (r.1 matches Some(u) && (u.new_payload matches Some(p)
                && p.fact@ == new_payload.fact@ && p.data_id == new_payload.data_id))
        },
{
}

} // verus!

verus! {

/// The nodes that are not document leaves (spine, grown and inbox nodes).
pub open spec fn not_leaf() -> spec_fn(TreeNode) -> bool {
    |c: TreeNode| c.kind != TreeNodeKind::Leaf
}

/// At every layer a map lists exactly the node's children that are not
/// document leaves, spine, grown and inbox nodes alike, in creation order:
/// each such child appears, and nothing else does.
pub proof fn law_map_lists_every_non_leaf_child(m: TreeModel, out: MapNode, node: TreeNode, remaining: nat)
    requires
        map_matches(m, out, node, remaining),
        remaining > 1,
    ensures
        out.children@.len() == m.children(node.id->0).filter(not_leaf()).len(),
        forall|i: int|
            0 <= i < out.children@.len() ==> (#[trigger] out.children@[i]).id == m.children(node.id->0).filter(
                not_leaf(),
            )[i].id->0 && out.children@[i].kind == m.children(node.id->0).filter(not_leaf())[i].kind,
        forall|k: int|
            0 <= k < m.children(node.id->0).len() && (#[trigger] m.children(node.id->0)[k]).kind
                != TreeNodeKind::Leaf ==> exists|i: int|
                0 <= i < out.children@.len() && out.children@[i].id == m.children(node.id->0)[k].id->0,
{
    let cs = m.children(node.id->0);
    assert(is_concept() =~= not_leaf());
    assert(concept_children(m, node.id->0) == cs.filter(not_leaf()));
    assert forall|i: int| 0 <= i < out.children@.len() implies (#[trigger] out.children@[i]).id == cs.filter(
        not_leaf(),
    )[i].id->0 && out.children@[i].kind == cs.filter(not_leaf())[i].kind by {
        assert(map_matches(m, out.children@[i], cs.filter(not_leaf())[i], (remaining - 1) as nat));
    }
    assert forall|k: int| 0 <= k < cs.len() && (#[trigger] cs[k]).kind != TreeNodeKind::Leaf implies exists|i: int|
        0 <= i < out.children@.len() && out.children@[i].id == cs[k].id->0 by {
        cs.lemma_filter_contains(not_leaf(), k);
        let w = choose|w: int| 0 <= w < cs.filter(not_leaf()).len() && cs.filter(not_leaf())[w] == cs[k];
        assert(map_matches(m, out.children@[w], cs.filter(not_leaf())[w], (remaining - 1) as nat));
    }
}

/// Recalled ancestors come nearest first: an ancestor listed after another is
/// never reached from the entry node in fewer parent steps. Whatever upward
/// path reaches a later ancestor, an earlier one is reached by a path no longer.
pub proof fn law_recall_lists_ancestors_nearest_first(
    m: TreeModel,
    entry_id: i64,
    c: crate::ltm_retrieval::RecallContext,
    i: int,
    j: int,
    path: Seq<i64>,
)
    requires
        crate::ltm_retrieval::recalled(m, entry_id, c),
        0 <= i < j < c.ancestors@.len(),
        is_upward_path(m, entry_id, path),
        path.last() == c.ancestors@[j].id,
    ensures
        exists|shorter: Seq<i64>|
            #[trigger] is_upward_path(m, entry_id, shorter) && shorter.last() == c.ancestors@[i].id
                && shorter.len() <= path.len(),
{
    let a = choose|a: Seq<TreeNode>|
        #![trigger crate::ltm_retrieval::ancestors_listed(m, entry_id, a)]
        crate::ltm_retrieval::ancestors_listed(m, entry_id, a) && crate::ltm_retrieval::nearest_first(m, entry_id, a)
            && c.ancestors@ == a.map_values(|x: TreeNode| crate::ltm_retrieval::view_of(x));
    assert(c.ancestors@[j] == crate::ltm_retrieval::view_of(a[j]));
    assert(c.ancestors@[i] == crate::ltm_retrieval::view_of(a[i]));
    crate::ltm_retrieval::lemma_path_within_steps(m, entry_id, path);
    assert(crate::ltm_retrieval::above_within(m, entry_id, a[j].id->0, path.len()));
    assert(a[i] == a[i]);
    crate::ltm_retrieval::lemma_within_path(m, entry_id, a[i].id->0, path.len());
}

} // verus!
