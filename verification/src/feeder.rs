//! The feeder's routing decision for one consumed `document.completed` message.
use vstd::prelude::*;
use crate::ingestion::{document_id_of, DocumentCompleted};
use crate::text::owned;

verus! {

/// How to handle one consumed message, derived from its key and payload.
#[derive(Debug)]
pub enum FeedDecision {
    /// Tombstone (null payload): forget this document id (the message key).
    Forget(String),
    /// A valid event to ingest.
    Ingest(DocumentCompleted),
    /// Parsed but structurally invalid (no id): route to `dlq.memory`.
    BadEvent(String),
    /// Un-parseable bytes: route to `parking.lot`.
    Park(String),
}

/// A message payload as read from the wire: parsed into an event, or refused by
/// the JSON reader with its message.
#[derive(Debug)]
pub enum PayloadRead {
    Parsed(DocumentCompleted),
    Unparseable(String),
}

/// Classifies a message by its key and payload (`None` payload = tombstone):
/// a keyed tombstone is forgotten, a keyless one parked; a parsed event with an
/// id is ingested, one without an id is a bad event; unreadable bytes are parked.
pub fn decide(key: Option<&str>, payload: Option<PayloadRead>) -> (r: FeedDecision)
    ensures
        match payload {
            None => match key {
                Some(k) if k@.len() > 0 => r matches FeedDecision::Forget(id) && id@ == k@,
                _ => r matches FeedDecision::Park(reason) && reason@ == "tombstone without a key"@,
            },
            Some(PayloadRead::Parsed(e)) => if document_id_of(e) is Some {
                r == FeedDecision::Ingest(e)
            } else {
                r matches FeedDecision::BadEvent(reason) && reason@ == "event has neither groupId nor dataId"@
            },
            Some(PayloadRead::Unparseable(err)) => r matches FeedDecision::Park(reason) && reason@
                == "un-parseable document.completed: "@ + err@,
        },
{
    match payload {
        None => match key {
            Some(k) => {
                if !k.is_empty() {
                    FeedDecision::Forget(owned(k))
                } else {
                    FeedDecision::Park(owned("tombstone without a key"))
                }
            },
            None => FeedDecision::Park(owned("tombstone without a key")),
        },
        Some(PayloadRead::Parsed(event)) => {
            if event.document_id().is_some() {
                FeedDecision::Ingest(event)
            } else {
                FeedDecision::BadEvent(owned("event has neither groupId nor dataId"))
            }
        },
        Some(PayloadRead::Unparseable(err)) => {
            let mut reason = owned("un-parseable document.completed: ");
            reason.append(err.as_str());
            FeedDecision::Park(reason)
        },
    }
}

/// The compacted topic the feeder consumes.
pub const SOURCE_TOPIC: &'static str = "document.completed";

/// Where structurally bad events and failed writes go.
pub const DLQ_TOPIC: &'static str = "dlq.memory";

/// Where un-parseable messages go.
pub const PARKING_TOPIC: &'static str = "parking.lot";

/// Ingest attempts before a document is dead-lettered.
pub const INGEST_ATTEMPTS: u32 = 3;

/// Whether an ingest that failed on attempt `attempt` (counted from one) is
/// tried again: until `INGEST_ATTEMPTS` attempts were made.
pub fn retry_ingest(attempt: u32) -> (r: bool)
    ensures
        r == (attempt < INGEST_ATTEMPTS),
{
    attempt < INGEST_ATTEMPTS
}

/// The header pairs, in order, of a message forwarded aside.
pub open spec fn aside_header_views(
    reason: Seq<char>,
    consumer: Seq<char>,
    source_topic: Seq<char>,
    partition: Seq<char>,
    offset: Seq<char>,
) -> Seq<(Seq<char>, Seq<char>)> {
    seq![
        ("x-reason"@, reason),
        ("x-consumer"@, consumer),
        ("x-source-topic"@, source_topic),
        ("x-source-partition"@, partition),
        ("x-source-offset"@, offset),
    ]
}

/// The context headers of a message forwarded to a dead-letter or parking
/// topic: why, by which consumer group, and where it came from.
pub fn aside_headers(
    reason: &str,
    consumer: &str,
    source_topic: &str,
    partition: &str,
    offset: &str,
) -> (r: Vec<(String, String)>)
    ensures
        r@.map_values(|h: (String, String)| (h.0@, h.1@)) == aside_header_views(
            reason@,
            consumer@,
            source_topic@,
            partition@,
            offset@,
        ),
{
    let mut headers: Vec<(String, String)> = Vec::new();
    headers.push((owned("x-reason"), owned(reason)));
    headers.push((owned("x-consumer"), owned(consumer)));
    headers.push((owned("x-source-topic"), owned(source_topic)));
    headers.push((owned("x-source-partition"), owned(partition)));
    headers.push((owned("x-source-offset"), owned(offset)));
    assert(headers@.map_values(|h: (String, String)| (h.0@, h.1@)) =~= aside_header_views(
        reason@,
        consumer@,
        source_topic@,
        partition@,
        offset@,
    ));
    headers
}

} // verus!
