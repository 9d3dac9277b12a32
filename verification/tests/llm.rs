use neurolithe::config::{AppConfig, LlmConfig, LlmProvider};
use neurolithe::llm::{ccl_catalog, chat_client, embed_client, json_object_of, json_span_ok, predict_url, ClientSpec};
use neurolithe::models::{CclDefinition, TenantId};

fn llm(provider: LlmProvider) -> LlmConfig {
    LlmConfig {
        provider,
        model: "chat-model".into(),
        embedding_model: "embed-model".into(),
        base_url: None,
        embedding_provider: None,
        embedding_base_url: None,
        embedding_project: None,
        embedding_location: None,
    }
}

#[test]
fn openai_defaults_to_the_public_endpoint() {
    match chat_client(&llm(LlmProvider::Openai)) {
        ClientSpec::OpenAi { model, embedding_model, base_url } => {
            assert_eq!(model, "chat-model");
            assert_eq!(embedding_model, "embed-model");
            assert_eq!(base_url, "https://api.openai.com/v1");
        }
        other => panic!("unexpected {other:?}"),
    }
}

#[test]
fn chat_on_anthropic_embeddings_on_vertex() {
    let mut c = llm(LlmProvider::Anthropic);
    c.embedding_provider = Some(LlmProvider::Vertex);
    c.embedding_project = Some("proj".into());
    assert!(matches!(chat_client(&c), ClientSpec::Anthropic { .. }));
    match embed_client(&c) {
        ClientSpec::Vertex { model, project, location } => {
            assert_eq!(model, "embed-model");
            assert_eq!(project, "proj");
            assert_eq!(location, "us-central1");
        }
        other => panic!("unexpected {other:?}"),
    }
}

#[test]
fn embedding_base_url_falls_back_to_chat_base_url() {
    let mut c = llm(LlmProvider::Custom);
    c.base_url = Some("http://localhost:11434/v1".into());
    match embed_client(&c) {
        ClientSpec::OpenAi { base_url, .. } => assert_eq!(base_url, "http://localhost:11434/v1"),
        other => panic!("unexpected {other:?}"),
    }
    c.embedding_base_url = Some("http://embed:8080/v1".into());
    match embed_client(&c) {
        ClientSpec::OpenAi { base_url, .. } => assert_eq!(base_url, "http://embed:8080/v1"),
        other => panic!("unexpected {other:?}"),
    }
    assert_eq!(*c.effective_embedding_provider(), LlmProvider::Custom);
}

#[test]
fn vertex_predict_urls() {
    assert_eq!(
        predict_url("us-central1", "p", "text-embedding-004"),
        "https://us-central1-aiplatform.googleapis.com/v1/projects/p/locations/us-central1/publishers/google/models/text-embedding-004:predict"
    );
    assert_eq!(
        predict_url("global", "p", "m"),
        "https://aiplatform.googleapis.com/v1/projects/p/locations/global/publishers/google/models/m:predict"
    );
}

#[test]
fn ccl_catalog_lists_each_layer() {
    let defs = vec![
        CclDefinition { id: None, tenant_id: TenantId("t".into()), name: "reality".into(), description: "what is".into() },
        CclDefinition { id: Some(2), tenant_id: TenantId("t".into()), name: "dream".into(), description: "what was dreamt".into() },
    ];
    assert_eq!(ccl_catalog(&defs), "- 'reality' (what is)\n- 'dream' (what was dreamt)");
    assert_eq!(ccl_catalog(&vec![]), "");
}

#[test]
fn json_object_is_cut_out_of_chatter() {
    assert!(json_span_ok("Sure! {\"facts\": []} Hope it helps."));
    assert_eq!(json_object_of("Sure! {\"facts\": []} Hope it helps."), "{\"facts\": []}");
    assert_eq!(json_object_of(""), "{\"facts\": []}");
    assert_eq!(json_object_of("no json here"), "no json here");
    assert!(!json_span_ok("} backwards {"));
}

#[test]
fn app_defaults_use_openai() {
    let c = AppConfig::defaults();
    assert!(matches!(chat_client(&c.llm), ClientSpec::OpenAi { .. }));
}
