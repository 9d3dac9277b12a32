use neurolithe::conflict::AdaptationResult;
use neurolithe::models::{ExtractedFact, ExtractedRelationship};
use neurolithe::sleep::{ccl_context, entity_payload, fact_payload, plan_episode, resolved_node, SleepStep, FALLBACK_CCL_DESCRIPTION};

fn fact(text: &str, ccl: &str, rels: Vec<&str>) -> ExtractedFact {
    ExtractedFact {
        fact: text.into(),
        ccl: ccl.into(),
        tags: vec!["t".into()],
        relationships: rels
            .into_iter()
            .map(|e| ExtractedRelationship {
                target_entity: e.into(),
                relation: "KNOWS".into(),
                valid_from: None,
                valid_until: None,
            })
            .collect(),
    }
}

#[test]
fn plan_registers_new_layers_once_and_links_relationships() {
    let facts = vec![
        fact("User works at Acme", "reality", vec!["Acme", "Bob"]),
        fact("User dreamt of flying", "dream", vec![]),
        fact("User flies kites", "dream", vec!["kite"]),
    ];
    let known = vec!["reality".to_string()];
    let plan = plan_episode(&facts, &known);
    assert_eq!(
        plan,
        vec![
            SleepStep::ResolveFact { fact: 0 },
            SleepStep::ResolveEntity { fact: 0, rel: 0 },
            SleepStep::Link { fact: 0, rel: 0, source: 0, target: 1 },
            SleepStep::ResolveEntity { fact: 0, rel: 1 },
            SleepStep::Link { fact: 0, rel: 1, source: 0, target: 2 },
            SleepStep::RegisterCcl { fact: 1 },
            SleepStep::ResolveFact { fact: 1 },
            SleepStep::ResolveFact { fact: 2 },
            SleepStep::ResolveEntity { fact: 2, rel: 0 },
            SleepStep::Link { fact: 2, rel: 0, source: 4, target: 5 },
        ]
    );
}

#[test]
fn empty_episode_has_no_steps() {
    assert!(plan_episode(&vec![], &vec![]).is_empty());
}

#[test]
fn payloads_and_context() {
    let f = fact("User works at Acme", "reality", vec![]);
    let p = fact_payload(&f);
    assert_eq!(p.fact, "User works at Acme");
    assert_eq!(p.tags, Some(vec!["t".to_string()]));
    assert_eq!(p.data_id, None);
    let e = entity_payload(&"Acme".to_string());
    assert_eq!(e.fact, "Acme");
    assert_eq!(e.tags, Some(vec!["entity".to_string()]));
    assert_eq!(ccl_context("User works at Acme"), "Fact: User works at Acme");
    assert_eq!(FALLBACK_CCL_DESCRIPTION, "Auto-generated cognitive layer");
}

#[test]
fn adaptation_picks_the_existing_node() {
    assert_eq!(resolved_node(AdaptationResult::Assimilated(4)), Some(4));
    assert_eq!(resolved_node(AdaptationResult::AccommodatedModify(9)), Some(9));
    assert_eq!(resolved_node(AdaptationResult::AccommodateCreate), None);
}
