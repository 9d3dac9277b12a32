//! Core records of the short-term memory (STM) store and its query results.
use vstd::prelude::*;

verus! {

/// The tenant a memory belongs to.
#[derive(Debug)]
pub struct TenantId(pub String);

/// A dialogue session.
#[derive(Debug)]
pub struct SessionId(pub String);

/// The tenant that tools address when the caller names none.
pub const DEFAULT_TENANT: &'static str = "jarvis";

/// The cognitive layer facts belong to when none is named.
pub const DEFAULT_CCL: &'static str = "reality";

/// A raw dialogue turn, kept as ground truth.
#[derive(Debug)]
pub struct Episode {
    pub id: Option<i64>,
    pub tenant_id: TenantId,
    pub session_id: SessionId,
    pub raw_dialogue: String,
    pub ccl: String,
    pub created_at: Option<String>,
}

/// A registered Cognitive Context Layer (e.g. "reality", "dream").
#[derive(Debug)]
pub struct CclDefinition {
    pub id: Option<i64>,
    pub tenant_id: TenantId,
    pub name: String,
    pub description: String,
}

/// Temporal filter for memory queries (`YYYY-MM-DD` bounds).
#[derive(Debug)]
pub struct TimeFilter {
    pub after: Option<String>,
    pub before: Option<String>,
}

impl TimeFilter {
    /// No bounds.
    pub fn unbounded() -> (r: TimeFilter)
        ensures
            r.after is None,
            r.before is None,
    {
        TimeFilter { after: None, before: None }
    }
}

/// A 1-hop connection returned in query results.
#[derive(Debug)]
pub struct MemoryConnection {
    pub relation: String,
    pub entity: String,
    pub ccl: String,
    pub valid_from: Option<String>,
    pub valid_until: Option<String>,
}

/// Token-optimized output of a memory query (no internal ids or scores).
#[derive(Debug)]
pub struct MemoryResult {
    pub fact: String,
    pub ccl: String,
    pub last_updated: String,
    pub connections: Vec<MemoryConnection>,
}

/// A relationship the extractor found between a fact and another entity.
#[derive(Debug)]
pub struct ExtractedRelationship {
    pub target_entity: String,
    pub relation: String,
    pub valid_from: Option<String>,
    pub valid_until: Option<String>,
}

/// A fact the extractor found in a dialogue.
#[derive(Debug)]
pub struct ExtractedFact {
    pub fact: String,
    pub ccl: String,
    pub tags: Vec<String>,
    pub relationships: Vec<ExtractedRelationship>,
}

/// The lifecycle status of an STM fact.
#[derive(Debug, Clone, Copy, PartialEq, Eq, Structural)]
pub enum NodeStatus {
    Active,
    Archived,
}

impl NodeStatus {
    /// The status after a decay step: an active fact whose relevance fell below
    /// the archive threshold is archived; any other status is kept.
    pub fn after_decay(self, below_threshold: bool) -> (r: NodeStatus)
        ensures
            r == (if self == NodeStatus::Active && below_threshold {
                NodeStatus::Archived
            } else {
                self
            }),
    {
        match self {
            NodeStatus::Active => if below_threshold {
                NodeStatus::Archived
            } else {
                NodeStatus::Active
            },
            NodeStatus::Archived => NodeStatus::Archived,
        }
    }
}

} // verus!
