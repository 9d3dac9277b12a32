//! Conflict resolution (tri-modal adaptation) between a newly extracted fact and
//! the existing facts most similar to it.
use vstd::prelude::*;
use crate::text::{copy_string, views};

verus! {

/// The three adaptation modes from cognitive psychology.
#[derive(Debug, Clone, Copy, PartialEq, Eq, Structural)]
pub enum AdaptationResult {
    /// The existing node was reinforced (its support count incremented).
    Assimilated(i64),
    /// The existing node was modified with an updated payload.
    AccommodatedModify(i64),
    /// A brand new node should be created.
    AccommodateCreate,
}

/// The content of a fact node: its text, its tags and (for documents) its `dataId`.
/// A missing or non-string `fact` reads as the empty text; a present but
/// non-list `tags` reads as the empty list.
#[derive(Debug)]
pub struct FactPayload {
    pub fact: String,
    /// `None` when the payload has no `tags` entry.
    pub tags: Option<Vec<String>>,
    pub data_id: Option<String>,
}

/// An existing fact close to the new one (closest first).
#[derive(Debug)]
pub struct SimilarNode {
    pub id: Option<i64>,
    pub payload: FactPayload,
}

/// The store write that accompanies an adaptation: reinforce node `node_id`
/// (support + 1, relevance reset), replacing its payload when one is given.
#[derive(Debug)]
pub struct SupportUpdate {
    pub node_id: i64,
    pub new_payload: Option<FactPayload>,
}

/// `existing` extended by the tags of `new` it does not hold yet, in order
/// (each added once).
pub open spec fn merged_tags(existing: Seq<Seq<char>>, new: Seq<Seq<char>>) -> Seq<Seq<char>>
    decreases new.len(),
{
    if new.len() == 0 {
        existing
    } else {
        let prev = merged_tags(existing, new.drop_last());
        if prev.contains(new.last()) {
            prev
        } else {
            prev.push(new.last())
        }
    }
}

/// Whether `list` holds a string with the characters of `s`.
pub(crate) fn holds_text(list: &Vec<String>, s: &String) -> (r: bool)
    ensures
        r == views(list@).contains(s@),
{
    let n = list.len();
    for i in 0..n
        invariant
            n == list@.len(),
            forall|j: int| 0 <= j < i ==> list@[j]@ != s@,
    {
        if list[i] == *s {
            assert(views(list@)[i as int] == s@);
            return true;
        }
    }
    assert forall|j: int| 0 <= j < views(list@).len() implies views(list@)[j] != s@ by {
        assert(views(list@)[j] == list@[j]@);
    }
    false
}

/// Copies a list of strings.
pub fn copy_strings(list: &Vec<String>) -> (r: Vec<String>)
    ensures
        r@ == list@,
{
    let mut out: Vec<String> = Vec::new();
    let n = list.len();
    for i in 0..n
        invariant
            n == list@.len(),
            out@ == list@.take(i as int),
    {
        out.push(copy_string(&list[i]));
        assert(list@.take(i as int).push(list@[i as int]) =~= list@.take(i + 1));
    }
    assert(list@.take(n as int) =~= list@);
    out
}

/// Merges tag lists: keeps the existing tags and appends each new tag not yet present.
pub fn merge_tags(existing: &Vec<String>, new: &Vec<String>) -> (r: Vec<String>)
    ensures
        views(r@) == merged_tags(views(existing@), views(new@)),
{
    let mut all = copy_strings(existing);
    let ghost vn = views(new@);
    let n = new.len();
    for i in 0..n
        invariant
            n == new@.len(),
            vn == views(new@),
            views(all@) == merged_tags(views(existing@), vn.take(i as int)),
    {
        proof {
            assert(vn.take(i + 1).drop_last() =~= vn.take(i as int));
            assert(vn.take(i + 1).last() == new@[i as int]@);
        }
        if !holds_text(&all, &new[i]) {
            let ghost before = all@;
            all.push(copy_string(&new[i]));
            assert(views(all@) =~= views(before).push(new@[i as int]@));
        }
    }
    assert(vn.take(n as int) =~= vn);
    all
}

/// Whether two payloads state the same fact text.
pub open spec fn same_fact(a: FactPayload, b: FactPayload) -> bool {
    a.fact@ == b.fact@
}

/// The payload an accommodation writes: the new payload, with the tags merged
/// when both the existing and the new payload carry tags.
pub open spec fn accommodated_payload(existing: FactPayload, new: FactPayload, out: FactPayload) -> bool {
    &&& out.fact == new.fact
    &&& out.data_id == new.data_id
    &&& match (existing.tags, new.tags) {
        (Some(et), Some(nt)) => out.tags is Some && views(out.tags->0@) == merged_tags(
            views(et@),
            views(nt@),
        ),
        _ => same_tags(out.tags, new.tags),
    }
}

/// Both lack tags, or both hold the same tag list.
pub open spec fn same_tags(a: Option<Vec<String>>, b: Option<Vec<String>>) -> bool {
    (a is None <==> b is None) && (a is Some ==> a->0@ == b->0@)
}

/// Copies a payload.
pub fn copy_payload(p: &FactPayload) -> (r: FactPayload)
    ensures
        r.fact == p.fact,
        r.data_id == p.data_id,
        r.tags is Some ==> p.tags is Some && r.tags->0@ == p.tags->0@,
        r.tags is None <==> p.tags is None,
{
    let tags = match &p.tags {
        Some(t) => Some(copy_strings(t)),
        None => None,
    };
    let data_id = match &p.data_id {
        Some(d) => Some(copy_string(d)),
        None => None,
    };
    FactPayload { fact: copy_string(&p.fact), tags, data_id }
}

/// `r` is the resolver's answer for a new fact given the existing facts
/// within the accommodation threshold, closest first.
pub open spec fn decided(similar: Seq<SimilarNode>, new_payload: FactPayload, r: (AdaptationResult, Option<SupportUpdate>)) -> bool {
    &&& similar.len() == 0 ==> r.0 == AdaptationResult::AccommodateCreate && r.1 is None
    &&& similar.len() > 0 ==> {
        let closest = similar[0];
        let id = match closest.id { Some(i) => i, None => 0 };
        if same_fact(closest.payload, new_payload) {
            &&& r.0 == AdaptationResult::Assimilated(id)
            &&& r.1 is Some
            &&& r.1->0.node_id == id
            &&& r.1->0.new_payload is None
        } else {
            &&& r.0 == AdaptationResult::AccommodatedModify(id)
            &&& r.1 is Some
            &&& r.1->0.node_id == id
            &&& r.1->0.new_payload is Some
            &&& accommodated_payload(closest.payload, new_payload, r.1->0.new_payload->0)
        }
    }
}

/// Cosine-distance thresholds of the resolver (thousandths): below the first a
/// match is the same fact, below the second a related one.
pub struct ConflictResolver {
    pub assimilation_threshold_permille: u32,
    pub accommodation_threshold_permille: u32,
}

impl ConflictResolver {
    pub fn new() -> (r: ConflictResolver)
        ensures
            r.assimilation_threshold_permille == 150,
            r.accommodation_threshold_permille == 350,
    {
        ConflictResolver { assimilation_threshold_permille: 150, accommodation_threshold_permille: 350 }
    }

    /// Decides how to adapt a new fact, given the existing facts within the
    /// accommodation threshold (closest first): none means create; the closest
    /// stating the same text is assimilated (reinforced); otherwise the closest
    /// is accommodated: reinforced and rewritten with the new payload, tags merged.
    pub fn decide(&self, similar: &Vec<SimilarNode>, new_payload: &FactPayload) -> (r: (AdaptationResult, Option<SupportUpdate>))
        ensures
            similar@.len() == 0 ==> r.0 == AdaptationResult::AccommodateCreate && r.1 is None,
            similar@.len() > 0 ==> {
                let closest = similar@[0];
                let id = match closest.id { Some(i) => i, None => 0 };
                if same_fact(closest.payload, *new_payload) {
                    &&& r.0 == AdaptationResult::Assimilated(id)
                    &&& r.1 is Some
                    &&& r.1->0.node_id == id
                    &&& r.1->0.new_payload is None
                } else {
                    &&& r.0 == AdaptationResult::AccommodatedModify(id)
                    &&& r.1 is Some
                    &&& r.1->0.node_id == id
                    &&& r.1->0.new_payload is Some
                    &&& accommodated_payload(closest.payload, *new_payload, r.1->0.new_payload->0)
                }
            },
            decided(similar@, *new_payload, r),
    {
        if similar.len() == 0 {
            return (AdaptationResult::AccommodateCreate, None);
        }
        let closest = &similar[0];
        let closest_id = match closest.id {
            Some(i) => i,
            None => 0,
        };
        if closest.payload.fact == new_payload.fact {
            return (
                AdaptationResult::Assimilated(closest_id),
                Some(SupportUpdate { node_id: closest_id, new_payload: None }),
            );
        }
        let base = copy_payload(new_payload);
        let tags = match (&closest.payload.tags, &new_payload.tags) {
            (Some(et), Some(nt)) => Some(merge_tags(et, nt)),
            _ => base.tags,
        };
        let merged = FactPayload { fact: base.fact, tags, data_id: base.data_id };
        (
            AdaptationResult::AccommodatedModify(closest_id),
            Some(SupportUpdate { node_id: closest_id, new_payload: Some(merged) }),
        )
    }
}

} // verus!
