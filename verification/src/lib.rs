//! NeuroLithe memory library: the verified core of a contextual memory store
//! for AI agents (short-term session buffers, the long-term knowledge tree,
//! and the decisions that feed and reset them).
pub mod conflict;
pub mod config;
pub mod distill;
pub mod error;
pub mod feeder;
pub mod ingestion;
pub mod laws;
pub mod introspection;
pub mod llm;
pub mod ltm;
pub mod ltm_placement;
pub mod ltm_retrieval;
pub mod ltm_store;
pub mod mcp;
pub mod models;
pub mod pithos;
pub mod reset;
pub mod rewind;
pub mod session;
pub mod sleep;
pub mod spine;
pub mod text;
