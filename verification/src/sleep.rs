//! The sleep pipeline's plan for one episode: which cognitive layers to
//! register, which facts and entities to resolve into nodes, and which nodes
//! to link, in the order the pipeline performs them.
use vstd::prelude::*;
use crate::conflict::{holds_text, AdaptationResult, FactPayload};
use crate::models::ExtractedFact;
use crate::text::{copy_string, owned, views};

verus! {

/// Description given to a cognitive layer when none could be generated.
pub const FALLBACK_CCL_DESCRIPTION: &'static str = "Auto-generated cognitive layer";

/// One step of processing an episode's extracted facts. Each `Resolve…` step
/// yields one node id; the ids fill slots 0, 1, 2, … in step order.
#[derive(Debug, Clone, Copy, PartialEq, Eq, Structural)]
pub enum SleepStep {
    /// Register the (so far unknown) cognitive layer of fact `fact`.
    RegisterCcl { fact: usize },
    /// Resolve fact `fact` into a node: reinforce a similar one or create it.
    ResolveFact { fact: usize },
    /// Resolve the target entity of relationship `rel` of fact `fact` into a node.
    ResolveEntity { fact: usize, rel: usize },
    /// Store the edge of relationship `rel` of fact `fact`, from the node in
    /// slot `source` to the node in slot `target`.
    Link { fact: usize, rel: usize, source: usize, target: usize },
}

/// The layers named by `facts`.
pub open spec fn ccl_names(facts: Seq<ExtractedFact>) -> Set<Seq<char>>
    decreases facts.len(),
{
    if facts.len() == 0 {
        Set::empty()
    } else {
        ccl_names(facts.drop_last()).insert(facts.last().ccl@)
    }
}

/// The number of node slots that processing `facts` fills.
pub open spec fn slots_of(facts: Seq<ExtractedFact>) -> nat
    decreases facts.len(),
{
    if facts.len() == 0 {
        0
    } else {
        slots_of(facts.drop_last()) + 1 + facts.last().relationships@.len()
    }
}

/// The steps for the first `n` relationships of fact `fact`, whose own node
/// fills slot `source`; the target of relationship `j` fills slot `source + 1 + j`.
pub open spec fn relationship_steps(fact: nat, source: nat, n: nat) -> Seq<SleepStep>
    decreases n,
{
    if n == 0 {
        seq![]
    } else {
        relationship_steps(fact, source, (n - 1) as nat) + seq![
            SleepStep::ResolveEntity { fact: fact as usize, rel: (n - 1) as usize },
            SleepStep::Link {
                fact: fact as usize,
                rel: (n - 1) as usize,
                source: source as usize,
                target: (source + n) as usize,
            },
        ]
    }
}

/// The steps that process `facts` in order when the layers in `known` are
/// already registered: a fact's layer is registered when neither `known` nor
/// an earlier fact names it, then the fact is resolved, then each of its
/// relationships resolves its target entity and links the two nodes.
pub open spec fn episode_plan(facts: Seq<ExtractedFact>, known: Set<Seq<char>>) -> Seq<SleepStep>
    decreases facts.len(),
{
    if facts.len() == 0 {
        seq![]
    } else {
        let prev = facts.drop_last();
        let i = (facts.len() - 1) as nat;
        let f = facts.last();
        episode_plan(prev, known) + (if known.union(ccl_names(prev)).contains(f.ccl@) {
            seq![]
        } else {
            seq![SleepStep::RegisterCcl { fact: i as usize }]
        }) + seq![SleepStep::ResolveFact { fact: i as usize }] + relationship_steps(
            i,
            slots_of(prev),
            f.relationships@.len(),
        )
    }
}

proof fn lemma_relationship_steps_len(fact: nat, source: nat, n: nat)
    ensures
        relationship_steps(fact, source, n).len() == 2 * n,
    decreases n,
{
    if n > 0 {
        lemma_relationship_steps_len(fact, source, (n - 1) as nat);
    }
}

proof fn lemma_slots_bounded(facts: Seq<ExtractedFact>, known: Set<Seq<char>>)
    ensures
        slots_of(facts) <= episode_plan(facts, known).len(),
    decreases facts.len(),
{
    if facts.len() > 0 {
        lemma_slots_bounded(facts.drop_last(), known);
        lemma_relationship_steps_len(
            (facts.len() - 1) as nat,
            slots_of(facts.drop_last()),
            facts.last().relationships@.len(),
        );
    }
}

/// The plan for processing `facts` when the layers named in `known` are
/// already registered.
pub fn plan_episode(facts: &Vec<ExtractedFact>, known: &Vec<String>) -> (r: Vec<SleepStep>)
    ensures
        r@ == episode_plan(facts@, views(known@).to_set()),
{
    let ghost known_set = views(known@).to_set();
    let mut names: Vec<String> = crate::conflict::copy_strings(known);
    let mut plan: Vec<SleepStep> = Vec::new();
    let mut slot: usize = 0;
    let n = facts.len();
    for i in 0..n
        invariant
            n == facts@.len(),
            known_set == views(known@).to_set(),
            forall|x: Seq<char>|
                #![trigger views(names@).contains(x)]
                views(names@).contains(x) <==> known_set.union(ccl_names(facts@.take(i as int))).contains(x),
            plan@ == episode_plan(facts@.take(i as int), known_set),
            slot == slots_of(facts@.take(i as int)),
            slot <= plan@.len(),
    {
        let ghost prev = facts@.take(i as int);
        let ghost before = plan@;
        let fact = &facts[i];
        assert(facts@.take(i + 1).drop_last() =~= prev);
        assert(facts@.take(i + 1).last() == facts@[i as int]);
        let known_ccl = holds_text(&names, &fact.ccl);
        if !known_ccl {
            plan.push(SleepStep::RegisterCcl { fact: i });
            let ghost old_names = names@;
            names.push(copy_string(&fact.ccl));
            proof {
                assert(views(names@) =~= views(old_names).push(fact.ccl@));
                assert(ccl_names(facts@.take(i + 1)) == ccl_names(prev).insert(fact.ccl@));
                assert forall|x: Seq<char>| #![trigger views(names@).contains(x)]
                    views(names@).contains(x) <==> known_set.union(ccl_names(facts@.take(i + 1))).contains(x) by {
                    if x == fact.ccl@ {
                        assert(views(names@)[views(names@).len() - 1] == x);
                    } else {
                        if views(names@).contains(x) {
                            let k = choose|k: int| 0 <= k < views(names@).len() && views(names@)[k] == x;
                            assert(views(old_names)[k] == x);
                            assert(views(old_names).contains(x));
                        }
                        if views(old_names).contains(x) {
                            let k = choose|k: int| 0 <= k < views(old_names).len() && views(old_names)[k] == x;
                            assert(views(names@)[k] == x);
                        }
                    }
                }
            }
        } else {
            proof {
                assert forall|x: Seq<char>| #![trigger views(names@).contains(x)]
                    views(names@).contains(x) <==> known_set.union(ccl_names(facts@.take(i + 1))).contains(x) by {
                    assert(views(names@).contains(x) <==> known_set.union(ccl_names(prev)).contains(x));
                }
            }
        }
        let ghost with_fact = plan@;
        assert(with_fact == before + (if known_set.union(ccl_names(prev)).contains(fact.ccl@) {
            seq![]
        } else {
            seq![SleepStep::RegisterCcl { fact: i as usize }]
        }));
        plan.push(SleepStep::ResolveFact { fact: i });
        let source = slot;
        let m = fact.relationships.len();
        assert(plan@ =~= with_fact + seq![SleepStep::ResolveFact { fact: i }] + relationship_steps(
            i as nat,
            source as nat,
            0,
        ));
        for j in 0..m
            invariant
                n == facts@.len(),
                i < n,
                m == facts@[i as int].relationships@.len(),
                source == slots_of(prev),
                source < plan@.len() - 2 * j,
                plan@ == with_fact + seq![SleepStep::ResolveFact { fact: i }] + relationship_steps(
                    i as nat,
                    source as nat,
                    j as nat,
                ),
        {
            let len = plan.len();
            proof {
                lemma_relationship_steps_len(i as nat, source as nat, j as nat);
            }
            plan.push(SleepStep::ResolveEntity { fact: i, rel: j });
            let target = source + 1 + j;
            plan.push(SleepStep::Link { fact: i, rel: j, source, target });
            proof {
                assert(plan@ =~= with_fact + seq![SleepStep::ResolveFact { fact: i }] + relationship_steps(
                    i as nat,
                    source as nat,
                    (j + 1) as nat,
                ));
            }
        }
        proof {
            assert(plan@ =~= episode_plan(facts@.take(i + 1), known_set));
            lemma_slots_bounded(facts@.take(i + 1), known_set);
        }
        let total = plan.len();
        slot = source + 1 + m;
    }
    assert(facts@.take(n as int) =~= facts@);
    plan
}

/// The context from which a new layer's description is generated.
pub fn ccl_context(fact: &str) -> (r: String)
    ensures
        r@ == "Fact: "@ + fact@,
{
    let mut out = owned("Fact: ");
    out.append(fact);
    out
}

/// The payload of the node for an extracted fact: its text and its tags.
pub fn fact_payload(fact: &ExtractedFact) -> (r: FactPayload)
    ensures
        r.fact == fact.fact,
        r.tags matches Some(t) && t@ == fact.tags@,
        r.data_id is None,
{
    FactPayload {
        fact: copy_string(&fact.fact),
        tags: Some(crate::conflict::copy_strings(&fact.tags)),
        data_id: None,
    }
}

/// The payload of the node for a relationship's target entity: its name,
/// tagged `entity`.
pub fn entity_payload(entity: &String) -> (r: FactPayload)
    ensures
        r.fact == *entity,
        r.tags matches Some(t) && views(t@) == seq!["entity"@],
        r.data_id is None,
{
    let mut tags: Vec<String> = Vec::new();
    tags.push(owned("entity"));
    assert(views(tags@) =~= seq!["entity"@]);
    FactPayload { fact: copy_string(entity), tags: Some(tags), data_id: None }
}

/// The existing node an adaptation settled on; `None` when a new node must
/// be created.
pub fn resolved_node(result: AdaptationResult) -> (r: Option<i64>)
    ensures
        r == match result {
            AdaptationResult::Assimilated(id) => Some(id),
            AdaptationResult::AccommodatedModify(id) => Some(id),
            AdaptationResult::AccommodateCreate => None,
        },
{
    match result {
        AdaptationResult::Assimilated(id) => Some(id),
        AdaptationResult::AccommodatedModify(id) => Some(id),
        AdaptationResult::AccommodateCreate => None,
    }
}

} // verus!
