//! Runtime configuration: two independent stores (short-term and long-term),
//! the Kafka feeder, the Pithos client and the background schedulers.
use vstd::prelude::*;
use crate::text::owned;

verus! {

/// An LLM/embedding provider.
#[derive(Debug, Clone, Copy, PartialEq, Eq, Structural)]
pub enum LlmProvider {
    Openai,
    Gemini,
    Anthropic,
    Custom,
    /// Google Vertex AI (service-account auth).
    Vertex,
}

#[derive(Debug)]
pub struct LlmConfig {
    pub provider: LlmProvider,
    pub model: String,
    pub embedding_model: String,
    pub base_url: Option<String>,
    /// Provider used for embeddings, independent of the chat `provider`;
    /// unset means the chat provider.
    pub embedding_provider: Option<LlmProvider>,
    /// Base URL for the embedding provider; unset means `base_url`.
    pub embedding_base_url: Option<String>,
    /// GCP project for the Vertex embedding provider.
    pub embedding_project: Option<String>,
    /// Vertex region; unset means `us-central1`.
    pub embedding_location: Option<String>,
}

impl LlmConfig {
    /// The provider actually used for embeddings: `embedding_provider` when set,
    /// otherwise the chat `provider`.
    pub fn effective_embedding_provider(&self) -> (r: &LlmProvider)
        ensures
            *r == match self.embedding_provider {
                Some(p) => p,
                None => self.provider,
            },
    {
        match &self.embedding_provider {
            Some(p) => p,
            None => &self.provider,
        }
    }
}

/// One memory store: its vector dimension (locked at creation) and its file
/// (`None` = in memory).
#[derive(Debug)]
pub struct StoreConfig {
    pub vector_dimension: usize,
    pub path: Option<String>,
}

#[derive(Debug)]
pub struct KafkaConfig {
    pub brokers: String,
    pub group_id: String,
}

/// Pithos archive access; an empty token means unauthenticated.
#[derive(Debug)]
pub struct PithosConfig {
    pub base_url: String,
    pub token: String,
}

#[derive(Debug)]
pub struct SweepConfig {
    pub interval_secs: u64,
}

#[derive(Debug)]
pub struct MetricsConfig {
    pub interval_secs: u64,
}

#[derive(Debug)]
pub struct FeederConfig {
    pub enabled: bool,
}

#[derive(Debug)]
pub struct AppConfig {
    pub llm: LlmConfig,
    pub stm: StoreConfig,
    pub ltm: StoreConfig,
    pub kafka: KafkaConfig,
    pub pithos: PithosConfig,
    pub sweep: SweepConfig,
    pub metrics: MetricsConfig,
    pub feeder: FeederConfig,
}

impl AppConfig {
    /// The built-in defaults, before the optional `neurolithe.toml` and the
    /// `NEUROLITHE__*` environment overrides apply.
    pub fn defaults() -> (r: AppConfig)
        ensures
            r.llm.provider == LlmProvider::Openai,
            r.llm.model@ == "gpt-4o-mini"@,
            r.llm.embedding_model@ == "text-embedding-3-small"@,
            r.llm.base_url is None,
            r.llm.embedding_provider is None,
            r.stm.vector_dimension == 1536,
            r.stm.path matches Some(p) && p@ == "neurolithe-stm.sqlite"@,
            r.ltm.vector_dimension == 768,
            r.ltm.path matches Some(p) && p@ == "neurolithe-ltm.sqlite"@,
            r.kafka.brokers@ == "localhost:9092"@,
            r.kafka.group_id@ == "neurolithe"@,
            r.pithos.base_url@ == "http://192.168.4.48:8080"@,
            r.pithos.token@ == ""@,
            r.sweep.interval_secs == 86_400,
            r.metrics.interval_secs == 60,
            r.feeder.enabled,
    {
        AppConfig {
            llm: LlmConfig {
                provider: LlmProvider::Openai,
                model: owned("gpt-4o-mini"),
                embedding_model: owned("text-embedding-3-small"),
                base_url: None,
                embedding_provider: None,
                embedding_base_url: None,
                embedding_project: None,
                embedding_location: None,
            },
            stm: StoreConfig { vector_dimension: 1536, path: Some(owned("neurolithe-stm.sqlite")) },
            ltm: StoreConfig { vector_dimension: 768, path: Some(owned("neurolithe-ltm.sqlite")) },
            kafka: KafkaConfig { brokers: owned("localhost:9092"), group_id: owned("neurolithe") },
            pithos: PithosConfig { base_url: owned("http://192.168.4.48:8080"), token: owned("") },
            sweep: SweepConfig { interval_secs: 86_400 },
            metrics: MetricsConfig { interval_secs: 60 },
            feeder: FeederConfig { enabled: true },
        }
    }

    /// The feeder writes one embedding to both stores, so when it is enabled
    /// the two stores must share their vector dimension.
    pub fn feeder_dimensions_agree(&self) -> (r: bool)
        ensures
            r == (!self.feeder.enabled || self.stm.vector_dimension == self.ltm.vector_dimension),
    {
        !self.feeder.enabled || self.stm.vector_dimension == self.ltm.vector_dimension
    }
}

} // verus!
