//! Ingestion planning: turn a `document.completed` event into the work that
//! writes it to both stores, and the records that work produces.
use vstd::prelude::*;
use crate::conflict::{merge_tags, merged_tags, FactPayload};
use crate::error::MemoryError;
use crate::ltm::Provenance;
use crate::ltm::LtmRepository;
use crate::ltm_placement::{placed, DocumentToPlace, LtmPlacement};
use crate::text::{copy_string, owned, seq_join, views};

verus! {

/// One page of a completed document: a `pt://` text pointer and its tags.
#[derive(Debug)]
pub struct PageRef {
    pub page_index: Option<u32>,
    pub status: Option<String>,
    pub text_uri: Option<String>,
    pub tags: Vec<String>,
}

/// The enriched `document.completed` event. A group event carries `group_id`
/// and a multi-page list; a single-item event carries `data_id`.
#[derive(Debug)]
pub struct DocumentCompleted {
    pub group_id: Option<String>,
    pub data_id: Option<String>,
    pub pages: Vec<PageRef>,
}

/// The archive id of an event: the group id, else the data id.
pub open spec fn document_id_of(e: DocumentCompleted) -> Option<Seq<char>> {
    match e.group_id {
        Some(g) => Some(g@),
        None => match e.data_id {
            Some(d) => Some(d@),
            None => None,
        },
    }
}

impl DocumentCompleted {
    /// The document's archive id: the group id for a multi-page group, else the
    /// single item's data id; `None` for a structurally invalid event.
    pub fn document_id(&self) -> (r: Option<&str>)
        ensures
            match document_id_of(*self) {
                Some(d) => r is Some && r->0@ == d,
                None => r is None,
            },
    {
        match &self.group_id {
            Some(g) => Some(g.as_str()),
            None => match &self.data_id {
                Some(d) => Some(d.as_str()),
                None => None,
            },
        }
    }
}

/// What ingesting one document did.
#[derive(Debug)]
pub enum IngestOutcome {
    Ingested { data_id: String, leaf_node_id: i64, matched: bool },
    /// No usable text (all pages missing or empty): nothing learned.
    Skipped { data_id: String },
}

/// The sort key of a page: its index, 0 when absent.
pub open spec fn page_key(p: PageRef) -> u32 {
    match p.page_index {
        Some(i) => i,
        None => 0,
    }
}

/// `order` lists the pages by key, ties in their original order: the pairs
/// (key, position) strictly increase along it.
pub open spec fn page_order(pages: Seq<PageRef>, order: Seq<usize>) -> bool {
    &&& order.len() == pages.len()
    &&& forall|p: int| 0 <= p < order.len() ==> (#[trigger] order[p]) < pages.len()
    &&& forall|p: int, q: int|
        0 <= p < q < order.len() ==> {
            let kp = page_key(pages[order[p] as int]);
            let kq = page_key(pages[order[q] as int]);
            kp < kq || (kp == kq && (#[trigger] order[p]) < (#[trigger] order[q]))
        }
}

/// The pages in the given order.
pub open spec fn ordered_pages(pages: Seq<PageRef>, order: Seq<usize>) -> Seq<PageRef> {
    order.map_values(|i: usize| pages[i as int])
}

/// The distinct tags of the pages, in order of first appearance.
pub open spec fn collected_tags(pages: Seq<PageRef>) -> Seq<Seq<char>>
    decreases pages.len(),
{
    if pages.len() == 0 {
        seq![]
    } else {
        merged_tags(collected_tags(pages.drop_last()), views(pages.last().tags@))
    }
}

/// The text pointers of the pages that carry one, in order.
pub open spec fn collected_uris(pages: Seq<PageRef>) -> Seq<Seq<char>>
    decreases pages.len(),
{
    if pages.len() == 0 {
        seq![]
    } else {
        let prev = collected_uris(pages.drop_last());
        match pages.last().text_uri {
            Some(u) => prev.push(u@),
            None => prev,
        }
    }
}

/// The work for one document: fetch `text_uris` in order, keep the tags.
#[derive(Debug)]
pub struct IngestPlan {
    pub document_id: String,
    pub text_uris: Vec<String>,
    pub tags: Vec<String>,
}

/// The key of page `i`.
fn key_of(pages: &Vec<PageRef>, i: usize) -> (r: u32)
    requires
        i < pages@.len(),
    ensures
        r == page_key(pages@[i as int]),
{
    match pages[i].page_index {
        Some(k) => k,
        None => 0,
    }
}

/// The positions of the pages sorted by page index (a stable sort).
pub fn page_order_of(pages: &Vec<PageRef>) -> (r: Vec<usize>)
    ensures
        page_order(pages@, r@),
{
    let mut order: Vec<usize> = Vec::new();
    let n = pages.len();
    for i in 0..n
        invariant
            n == pages@.len(),
            order@.len() == i,
            forall|p: int| 0 <= p < order@.len() ==> (#[trigger] order@[p]) < i,
            forall|p: int, q: int|
                0 <= p < q < order@.len() ==> {
                    let kp = page_key(pages@[order@[p] as int]);
                    let kq = page_key(pages@[order@[q] as int]);
                    kp < kq || (kp == kq && (#[trigger] order@[p]) < (#[trigger] order@[q]))
                },
    {
        let ki = key_of(pages, i);
        // First position whose key exceeds `ki`.
        let mut pos: usize = 0;
        while pos < order.len() && key_of(pages, order[pos]) <= ki
            invariant
                pos <= order@.len(),
                n == pages@.len(),
                i < n,
                ki == page_key(pages@[i as int]),
                forall|p: int| 0 <= p < order@.len() ==> (#[trigger] order@[p]) < i,
                forall|p: int| 0 <= p < pos ==> page_key(pages@[(#[trigger] order@[p]) as int]) <= ki,
            decreases order@.len() - pos,
        {
            pos = pos + 1;
        }
        proof {
            // Everything after `pos` has a larger key, by sortedness.
            assert forall|p: int| pos <= p < order@.len() implies page_key(pages@[(#[trigger] order@[p]) as int]) > ki by {
                if p > pos {
                    let kp0 = page_key(pages@[order@[pos as int] as int]);
                    assert(kp0 > ki);
                }
            }
        }
        let ghost prev = order@;
        order.insert(pos, i);
        proof {
            assert forall|p: int, q: int| 0 <= p < q < order@.len() implies {
                let kp = page_key(pages@[order@[p] as int]);
                let kq = page_key(pages@[order@[q] as int]);
                kp < kq || (kp == kq && (#[trigger] order@[p]) < (#[trigger] order@[q]))
            } by {
                let pp = if p < pos { p } else if p == pos { -1 } else { p - 1 };
                let qq = if q < pos { q } else if q == pos { -1 } else { q - 1 };
                if p != pos && q != pos {
                    assert(order@[p] == prev[pp]);
                    assert(order@[q] == prev[qq]);
                } else if p == pos {
                    assert(order@[q] == prev[qq]);
                } else {
                    assert(order@[p] == prev[pp]);
                }
            }
            assert forall|p: int| 0 <= p < order@.len() implies (#[trigger] order@[p]) < i + 1 by {
                if p < pos {
                    assert(order@[p] == prev[p]);
                } else if p > pos {
                    assert(order@[p] == prev[p - 1]);
                }
            }
        }
    }
    order
}

/// Plans the ingestion of one event: its archive id, the text pointers of its
/// pages in page order, and the distinct tags of those pages. An event with
/// neither a group id nor a data id is refused.
pub fn plan_ingest(event: &DocumentCompleted) -> (r: Result<IngestPlan, MemoryError>)
    ensures
        document_id_of(*event) is None <==> r is Err,
        r is Err ==> r == Err::<IngestPlan, MemoryError>(MemoryError::MissingDocumentId),
        r matches Ok(plan) ==> exists|order: Seq<usize>|
            #![trigger page_order(event.pages@, order)]
            page_order(event.pages@, order) && {
                let ps = ordered_pages(event.pages@, order);
                &&& plan.document_id@ == document_id_of(*event)->0
                &&& views(plan.text_uris@) == collected_uris(ps)
                &&& views(plan.tags@) == collected_tags(ps)
            },
{
    let id = match event.document_id() {
        Some(d) => owned(d),
        None => {
            return Err(MemoryError::MissingDocumentId);
        },
    };
    let order = page_order_of(&event.pages);
    let ghost ps = ordered_pages(event.pages@, order@);
    let mut uris: Vec<String> = Vec::new();
    let mut tags: Vec<String> = Vec::new();
    let n = order.len();
    for k in 0..n
        invariant
            n == order@.len(),
            page_order(event.pages@, order@),
            ps == ordered_pages(event.pages@, order@),
            views(uris@) == collected_uris(ps.take(k as int)),
            views(tags@) == collected_tags(ps.take(k as int)),
    {
        let page = &event.pages[order[k]];
        proof {
            assert(ps.take(k + 1).drop_last() =~= ps.take(k as int));
            assert(ps.take(k + 1).last() == event.pages@[order@[k as int] as int]);
        }
        tags = merge_tags(&tags, &page.tags);
        match &page.text_uri {
            Some(u) => {
                let ghost before = uris@;
                uris.push(copy_string(u));
                assert(views(uris@) =~= views(before).push(u@));
            },
            None => {},
        }
    }
    assert(ps.take(n as int) =~= ps);
    Ok(IngestPlan { document_id: id, text_uris: uris, tags })
}

/// The text a document's fetched pages distill from: the page texts joined by
/// a blank line; `None` when no page text was found (the document is skipped).
pub fn document_text(texts: &Vec<String>) -> (r: Option<String>)
    ensures
        texts@.len() == 0 <==> r is None,
        r matches Some(t) ==> t@ == seq_join(views(texts@), seq!['\n', '\n']),
{
    if texts.len() == 0 {
        return None;
    }
    let sep = "\n\n";
    proof {
        reveal_strlit("\n\n");
    }
    let joined = crate::text::join_with(texts, sep);
    assert(sep@ =~= seq!['\n', '\n']);
    Some(joined)
}

/// The decaying STM fact a document contributes: its summary, its tags and its `dataId`.
pub fn document_fact(summary: &String, tags: &Vec<String>, document_id: &String) -> (r: FactPayload)
    ensures
        r.fact == *summary,
        r.tags is Some && r.tags->0@ == tags@,
        r.data_id == Some(*document_id),
{
    FactPayload {
        fact: copy_string(summary),
        tags: Some(crate::conflict::copy_strings(tags)),
        data_id: Some(copy_string(document_id)),
    }
}

/// The permanent LTM leaf a document is filed as: named and referenced by its
/// archive id, summarized by its distillate, sourced from `document.completed`.
pub fn document_to_place(document_id: &String, summary: &String) -> (r: DocumentToPlace)
    ensures
        r.name == *document_id,
        r.data_id == *document_id,
        r.summary == *summary,
        r.provenance.source@ == "document.completed"@,
        r.provenance.ingested_at is None,
        r.provenance.confidence_permille == 1000,
{
    DocumentToPlace {
        name: copy_string(document_id),
        summary: copy_string(summary),
        data_id: copy_string(document_id),
        provenance: Provenance {
            source: owned("document.completed"),
            ingested_at: None,
            confidence_permille: 1000,
        },
    }
}

/// Files a distilled document into the tree: refuses an embedding whose
/// length is not the store's dimension, then files the leaf under
/// `best_match` (the concept the vector search found within the placement
/// threshold) or the inbox, and returns the outcome together with the
/// short-term fact the document contributes.
pub fn file_document<R: LtmRepository>(
    placement: &LtmPlacement,
    repo: &mut R,
    plan: &IngestPlan,
    summary: &String,
    embedding_len: usize,
    expected_dim: usize,
    best_match: Option<i64>,
) -> (r: Result<(IngestOutcome, FactPayload), MemoryError>)
    requires
        old(repo).inv(),
    ensures
        final(repo).inv(),
        embedding_len != expected_dim ==> r == Err::<(IngestOutcome, FactPayload), MemoryError>(
            MemoryError::DimensionMismatch { got: embedding_len, expected: expected_dim },
        ) && final(repo).model() == old(repo).model(),
        embedding_len == expected_dim && best_match is None && old(repo).model().inbox() is None
            ==> r is Err && final(repo).model() == old(repo).model(),
        old(repo).reliable() && old(repo).ids_left() > 0 && embedding_len == expected_dim && match best_match {
            Some(id) => old(repo).model().has_node(id),
            None => old(repo).model().inbox() is Some,
        } ==> r is Ok,
        final(repo).reliable() == old(repo).reliable(),
        r matches Ok((outcome, fact)) ==> {
            &&& fact.fact == *summary
            &&& fact.tags matches Some(t) && t@ == plan.tags@
            &&& fact.data_id == Some(plan.document_id)
        },
        r matches Ok((outcome, fact)) ==> {
            &&& fact.fact == *summary
            &&& fact.tags matches Some(t) && t@ == plan.tags@
            &&& fact.data_id == Some(plan.document_id)
            &&& outcome matches IngestOutcome::Ingested { data_id, leaf_node_id, matched }
                && data_id == plan.document_id && matched == best_match is Some && (exists|
                d: DocumentToPlace,
                parent: i64,
            |
                #![trigger placed(old(repo).model(), final(repo).model(), d, parent, leaf_node_id, placement.max_summary_len as nat)]
                d.name == plan.document_id && d.data_id == plan.document_id && d.summary == *summary
                    && d.provenance.source@ == "document.completed"@
                    && d.provenance.ingested_at is None && d.provenance.confidence_permille == 1000
                    && parent == match best_match {
                    Some(id) => id,
                    None => old(repo).model().inbox()->0.id->0,
                } && placed(old(repo).model(), final(repo).model(), d, parent, leaf_node_id, placement.max_summary_len as nat))
        },
{
    crate::distill::check_dimension(embedding_len, expected_dim)?;
    let ghost m0 = repo.model();
    let doc = document_to_place(&plan.document_id, summary);
    let pl = placement.place(repo, &doc, best_match)?;
    assert(placed(m0, repo.model(), doc, pl.parent_id, pl.leaf_node_id, placement.max_summary_len as nat));
    let fact = document_fact(summary, &plan.tags, &plan.document_id);
    let outcome = IngestOutcome::Ingested {
        data_id: copy_string(&plan.document_id),
        leaf_node_id: pl.leaf_node_id,
        matched: pl.matched,
    };
    assert(exists|d: DocumentToPlace, parent: i64|
        #![trigger placed(old(repo).model(), repo.model(), d, parent, pl.leaf_node_id, placement.max_summary_len as nat)]
        d.name == plan.document_id && d.data_id == plan.document_id && d.summary == *summary
            && d.provenance.source@ == "document.completed"@
            && d.provenance.ingested_at is None && d.provenance.confidence_permille == 1000
            && parent == match best_match {
            Some(id) => id,
            None => old(repo).model().inbox()->0.id->0,
        } && placed(old(repo).model(), repo.model(), d, parent, pl.leaf_node_id, placement.max_summary_len as nat));
    let r: Result<(IngestOutcome, FactPayload), MemoryError> = Ok((outcome, fact));
    assert(r matches Ok((o, f)) && o matches IngestOutcome::Ingested { data_id, leaf_node_id, matched } && leaf_node_id == pl.leaf_node_id);
    r
}

} // verus!
