use neurolithe::config::{AppConfig, LlmProvider};

#[test]
fn test_defaults_and_env_override() {
    // The built-in defaults (the environment overrides are layered on by the
    // configuration loader of the application).
    let cfg = AppConfig::defaults();
    assert_eq!(cfg.stm.vector_dimension, 1536);
    assert_eq!(cfg.ltm.vector_dimension, 768);
    assert_eq!(cfg.sweep.interval_secs, 86400);
    assert_eq!(cfg.metrics.interval_secs, 60);
    assert_eq!(cfg.stm.path.as_deref(), Some("neurolithe-stm.sqlite"));
    assert_eq!(cfg.ltm.path.as_deref(), Some("neurolithe-ltm.sqlite"));
    assert_eq!(cfg.kafka.brokers, "localhost:9092");
    assert_eq!(cfg.kafka.group_id, "neurolithe");
    assert_eq!(cfg.pithos.base_url, "http://192.168.4.48:8080");
    assert!(cfg.feeder.enabled);
    assert_eq!(cfg.llm.provider, LlmProvider::Openai);
}

#[test]
fn feeder_needs_equal_dimensions() {
    let mut cfg = AppConfig::defaults();
    assert!(!cfg.feeder_dimensions_agree());
    cfg.ltm.vector_dimension = 1536;
    assert!(cfg.feeder_dimensions_agree());
    cfg.ltm.vector_dimension = 1024;
    cfg.feeder.enabled = false;
    assert!(cfg.feeder_dimensions_agree());
}

#[test]
fn embedding_provider_defaults_to_chat_provider() {
    let mut cfg = AppConfig::defaults();
    assert_eq!(*cfg.llm.effective_embedding_provider(), LlmProvider::Openai);
    cfg.llm.embedding_provider = Some(LlmProvider::Gemini);
    assert_eq!(*cfg.llm.effective_embedding_provider(), LlmProvider::Gemini);
}
