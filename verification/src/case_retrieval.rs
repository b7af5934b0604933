//! From what the index recalls to the chunks that a search returns.

use vstd::prelude::*;
use vstd::string::*;

use crate::api;
use crate::api::{ScoredMemory, ScoredView, SearchMemoryRequest, INFINITE_PLACE};
use crate::case_model;
use crate::case_model::{
    CaseError, Chunk, ChunkView, SearchChunk, SearchChunkView, SearchRequest, StoredDocument,
    StoredDocumentView,
};
use crate::case_overlap;
use crate::case_overlap::{
    has_high_confidence_distinctive_overlap, has_retrieval_overlap, required_ascii_overlap_terms,
    retrieval_overlap_count, retrieval_terms, TermSet,
};
use crate::case_profile::DOCUMENT_SUMMARY_RECORD_KIND;
use crate::case_summary;
use crate::case_terms;
use crate::case_terms::{
    build_search_query_text, document_recall_candidate_top_k, version_like_terms,
};
use crate::json;
use crate::json::{Json, JsonView};
use crate::order;
use crate::order::{keep_marked, sort_stable, Ordered};
use crate::text;
use crate::text::{holds_text, join_texts, lemma_strings_push, text_eq, text_lines, trim};

verus! {

/// The place of the lowest score that a result may have: 0.45.
pub const MIN_RELEVANCE_PLACE: i32 = 0x3ee6_6666;

/// What a search asks of the index.
pub open spec fn is_dataset_query(q: SearchMemoryRequest, dataset_id: Seq<char>, r: SearchRequest) -> bool {
    &&& q.query@ == case_terms::query_text(text::trimmed(r.query@))
    &&& q.top_k == (if r.top_k >= case_terms::RAGFLOW_STYLE_RECALL_TOP_K {
        r.top_k
    } else {
        case_terms::RAGFLOW_STYLE_RECALL_TOP_K
    })
    &&& json::opt_json(
        match q.filter {
            Some(f) => Some(&f),
            None => None,
        },
    ) == Some(json::json_put(json::empty_object(), "scope_id"@, JsonView::Text(dataset_id)))
    &&& q.graph_memory_space_id is None
    &&& q.graph_target_subject is None
    &&& q.graph_target_evidence_speaker is None
}

/// What a search of a dataset asks of the index: nothing where no results are
/// wanted.
pub fn plan_dataset_search(dataset_exists: bool, dataset_id: &str, request: &SearchRequest) -> (r:
    Result<Option<SearchMemoryRequest>, CaseError>)
    ensures
        match r {
            Err(e) => {
                ||| !dataset_exists && e.message@ == "dataset not found"@
                ||| dataset_exists && text::is_blank(request.query@) && e.message@
                    == "query must not be empty"@
            },
            Ok(None) => dataset_exists && !text::is_blank(request.query@) && request.top_k == 0,
            Ok(Some(q)) => dataset_exists && !text::is_blank(request.query@) && request.top_k > 0
                && is_dataset_query(q, dataset_id@, *request),
        },
{
    if !dataset_exists {
        return Err(CaseError::new("dataset not found"));
    }
    let query = trim(request.query.as_str());
    if query.is_empty() {
        return Err(CaseError::new("query must not be empty"));
    }
    if request.top_k == 0 {
        return Ok(None);
    }
    let mut filter = Json::new_object();
    filter.put("scope_id", Json::Text(dataset_id.to_owned()));
    Ok(
        Some(
            SearchMemoryRequest {
                query: build_search_query_text(query),
                top_k: document_recall_candidate_top_k(request.top_k),
                filter: Some(filter),
                graph_memory_space_id: None,
                graph_target_subject: None,
                graph_target_evidence_speaker: None,
            },
        ),
    )
}

/// Whether a result stays: it has enough in common with the query, or it scores
/// near the best and shares a term that tells much.
pub open spec fn is_related(query: Seq<char>, text: Seq<char>, near_best: bool) -> bool {
    let terms = case_overlap::terms_of(query);
    let required = case_overlap::required_terms(query);
    terms.len() == 0 || case_overlap::overlaps(terms, required, text) || (required.len() == 0
        && near_best && case_overlap::shares_distinctive(terms, text))
}

pub open spec fn related_marks(query: Seq<char>, results: Seq<ScoredView>, near_best: Seq<bool>) -> Seq<
    bool,
> {
    Seq::new(results.len(), |i: int| is_related(query, results[i].record.text, near_best[i]))
}

/// The results that are related to a query, given which of them score near the
/// best.
pub fn filter_unrelated_results(
    query: &str,
    results: Vec<ScoredMemory>,
    near_best: &Vec<bool>,
) -> (r: Vec<ScoredMemory>)
    requires
        results@.len() == near_best@.len(),
    ensures
        r@ == order::marked(
            results@,
            related_marks(query@, api::scored_views(results@), near_best@),
        ),
{
    let terms = retrieval_terms(query);
    let required = required_ascii_overlap_terms(query);
    let none = terms.len() == 0;
    let ghost marks = related_marks(query@, api::scored_views(results@), near_best@);
    let mut keep: Vec<bool> = Vec::new();
    let mut i: usize = 0;
    while i < results.len()
        invariant
            i <= results@.len(),
            results@.len() == near_best@.len(),
            terms@ == case_overlap::terms_of(query@),
            required@ == case_overlap::required_terms(query@),
            none == (terms@.len() == 0),
            marks == related_marks(query@, api::scored_views(results@), near_best@),
            keep@ == marks.take(i as int),
        decreases results@.len() - i,
    {
        let t = results[i].record.text.as_str();
        assert(api::scored_views(results@)[i as int].record.text == t@);
        let stays = none || has_retrieval_overlap(&terms, &required, t)
            || has_high_confidence_distinctive_overlap(&terms, &required, t, near_best[i]);
        keep.push(stays);
        assert(keep@ =~= marks.take(i + 1));
        i += 1;
    }
    assert(keep@ =~= marks);
    keep_marked(results, &keep)
}

/// Whether a score is high enough to be returned.
pub open spec fn is_relevant(score: i32) -> bool {
    MIN_RELEVANCE_PLACE <= score <= INFINITE_PLACE
}

/// The results whose scores are high enough.
pub fn filter_low_relevance_results(results: Vec<ScoredMemory>) -> (r: Vec<ScoredMemory>)
    ensures
        r@ == order::marked(
            results@,
            Seq::new(results@.len(), |i: int| is_relevant(results@[i].score)),
        ),
{
    let ghost marks = Seq::new(results@.len(), |i: int| is_relevant(results@[i].score));
    let mut keep: Vec<bool> = Vec::new();
    let mut i: usize = 0;
    while i < results.len()
        invariant
            i <= results@.len(),
            marks == Seq::new(results@.len(), |i: int| is_relevant(results@[i].score)),
            keep@ == marks.take(i as int),
        decreases results@.len() - i,
    {
        let score = results[i].score;
        keep.push(MIN_RELEVANCE_PLACE <= score && score <= INFINITE_PLACE);
        assert(keep@ =~= marks.take(i + 1));
        i += 1;
    }
    assert(keep@ =~= marks);
    keep_marked(results, &keep)
}

/// A document that results belong to.
#[derive(Debug)]
pub struct DocumentRetrievalHit {
    pub document_id: String,
    pub best_score: i32,
    pub first_seen_rank: usize,
    pub chunk_scores: Vec<(String, i32)>,
}

/// What a [`DocumentRetrievalHit`] stands for.
pub struct HitView {
    pub document_id: Seq<char>,
    pub best_score: int,
    pub first_seen_rank: int,
    pub chunk_scores: Seq<(Seq<char>, int)>,
}

pub open spec fn chunk_score_views(v: Seq<(String, i32)>) -> Seq<(Seq<char>, int)> {
    Seq::new(v.len(), |i: int| (v[i].0@, v[i].1 as int))
}

impl View for DocumentRetrievalHit {
    type V = HitView;

    open spec fn view(&self) -> HitView {
        HitView {
            document_id: self.document_id@,
            best_score: self.best_score as int,
            first_seen_rank: self.first_seen_rank as int,
            chunk_scores: chunk_score_views(self.chunk_scores@),
        }
    }
}

pub open spec fn hit_views(v: Seq<DocumentRetrievalHit>) -> Seq<HitView> {
    Seq::new(v.len(), |i: int| v[i]@)
}

pub open spec fn better_of(a: int, b: int) -> int {
    if a >= b {
        a
    } else {
        b
    }
}

/// Where the hit of a document stands, or the length of the list.
pub open spec fn hit_index(hits: Seq<HitView>, id: Seq<char>) -> int
    decreases hits.len(),
{
    if hits.len() == 0 {
        0
    } else if hits[0].document_id == id {
        0
    } else {
        1 + hit_index(hits.drop_first(), id)
    }
}

/// Where the score of a chunk stands, or the length of the list.
pub open spec fn score_index(scores: Seq<(Seq<char>, int)>, id: Seq<char>) -> int
    decreases scores.len(),
{
    if scores.len() == 0 {
        0
    } else if scores[0].0 == id {
        0
    } else {
        1 + score_index(scores.drop_first(), id)
    }
}

/// Scores with one more; a chunk keeps its better score.
pub open spec fn with_chunk_score(scores: Seq<(Seq<char>, int)>, id: Seq<char>, score: int) -> Seq<
    (Seq<char>, int),
> {
    let k = score_index(scores, id);
    if k < scores.len() {
        scores.update(k, (id, better_of(scores[k].1, score)))
    } else {
        scores.push((id, score))
    }
}

/// What a result adds to the chunk scores of its document: nothing where it is
/// the summary of the document.
pub open spec fn with_result_score(scores: Seq<(Seq<char>, int)>, metadata: JsonView, score: int) -> Seq<
    (Seq<char>, int),
> {
    if json::json_get_text(metadata, "record_kind"@) == Some(DOCUMENT_SUMMARY_RECORD_KIND@) {
        scores
    } else {
        match json::json_get_text(metadata, "chunk_id"@) {
            Some(id) => with_chunk_score(scores, id, score),
            None => scores,
        }
    }
}

/// Hits with one more result.
pub open spec fn with_result(hits: Seq<HitView>, rank: int, x: ScoredView) -> Seq<HitView> {
    match json::json_get_text(x.record.metadata, "document_id"@) {
        None => hits,
        Some(id) => {
            let k = hit_index(hits, id);
            if k < hits.len() {
                hits.update(
                    k,
                    HitView {
                        best_score: better_of(hits[k].best_score, x.score),
                        chunk_scores: with_result_score(
                            hits[k].chunk_scores,
                            x.record.metadata,
                            x.score,
                        ),
                        ..hits[k]
                    },
                )
            } else {
                hits.push(
                    HitView {
                        document_id: id,
                        best_score: x.score,
                        first_seen_rank: rank,
                        chunk_scores: with_result_score(
                            Seq::empty(),
                            x.record.metadata,
                            x.score,
                        ),
                    },
                )
            }
        },
    }
}

/// The hits of results, in the order in which their documents are met.
pub open spec fn hits_of(results: Seq<ScoredView>) -> Seq<HitView>
    decreases results.len(),
{
    if results.len() == 0 {
        Seq::empty()
    } else {
        with_result(hits_of(results.drop_last()), results.len() - 1, results.last())
    }
}

impl Ordered for DocumentRetrievalHit {
    /// Better documents go first, and among equals the one that was met first.
    open spec fn precedes(&self, other: &Self) -> bool {
        self.best_score > other.best_score || (self.best_score == other.best_score
            && self.first_seen_rank < other.first_seen_rank)
    }

    proof fn order_is_weak(a: &Self, b: &Self, c: &Self) {
    }

    fn goes_before(&self, other: &Self) -> (r: bool) {
        self.best_score > other.best_score || (self.best_score == other.best_score
            && self.first_seen_rank < other.first_seen_rank)
    }
}

proof fn lemma_hit_index(hits: Seq<HitView>, id: Seq<char>)
    ensures
        0 <= hit_index(hits, id) <= hits.len(),
        hit_index(hits, id) < hits.len() ==> hits[hit_index(hits, id)].document_id == id,
        forall|i: int| 0 <= i < hit_index(hits, id) ==> (#[trigger] hits[i]).document_id != id,
    decreases hits.len(),
{
    if hits.len() > 0 && hits[0].document_id != id {
        lemma_hit_index(hits.drop_first(), id);
        assert forall|i: int| 0 <= i < hit_index(hits, id) implies (#[trigger] hits[i]).document_id
            != id by {
            if i > 0 {
                assert(hits[i] == hits.drop_first()[i - 1]);
            }
        }
    }
}

proof fn lemma_score_index(scores: Seq<(Seq<char>, int)>, id: Seq<char>)
    ensures
        0 <= score_index(scores, id) <= scores.len(),
    decreases scores.len(),
{
    if scores.len() > 0 {
        lemma_score_index(scores.drop_first(), id);
    }
}

fn find_hit(hits: &Vec<DocumentRetrievalHit>, id: &str) -> (r: usize)
    ensures
        r == hit_index(hit_views(hits@), id@),
        r <= hits@.len(),
{
    let ghost s = hit_views(hits@);
    proof {
        lemma_hit_index(s, id@);
        assert(s.skip(0) =~= s);
    }
    let mut i: usize = 0;
    while i < hits.len()
        invariant
            i <= hits@.len(),
            s == hit_views(hits@),
            hit_index(s, id@) == i + hit_index(s.skip(i as int), id@),
            hit_index(s, id@) <= s.len(),
        decreases hits@.len() - i,
    {
        assert(s.skip(i as int)[0] == hits@[i as int]@);
        if text_eq(hits[i].document_id.as_str(), id) {
            return i;
        }
        assert(s.skip(i as int).drop_first() =~= s.skip(i + 1));
        i += 1;
    }
    i
}

fn find_score(scores: &Vec<(String, i32)>, id: &str) -> (r: usize)
    ensures
        r == score_index(chunk_score_views(scores@), id@),
        r <= scores@.len(),
{
    let ghost s = chunk_score_views(scores@);
    proof {
        lemma_score_index(s, id@);
        assert(s.skip(0) =~= s);
    }
    let mut i: usize = 0;
    while i < scores.len()
        invariant
            i <= scores@.len(),
            s == chunk_score_views(scores@),
            score_index(s, id@) == i + score_index(s.skip(i as int), id@),
            score_index(s, id@) <= s.len(),
        decreases scores@.len() - i,
    {
        assert(s.skip(i as int)[0] == (scores@[i as int].0@, scores@[i as int].1 as int));
        if text_eq(scores[i].0.as_str(), id) {
            return i;
        }
        assert(s.skip(i as int).drop_first() =~= s.skip(i + 1));
        i += 1;
    }
    i
}

fn note_result_score(scores: &Vec<(String, i32)>, metadata: &Json, score: i32) -> (r: Vec<
    (String, i32),
>)
    ensures
        chunk_score_views(r@) == with_result_score(
            chunk_score_views(scores@),
            metadata@,
            score as int,
        ),
{
    let mut r: Vec<(String, i32)> = Vec::new();
    let mut i: usize = 0;
    while i < scores.len()
        invariant
            i <= scores@.len(),
            chunk_score_views(r@) =~= chunk_score_views(scores@).take(i as int),
        decreases scores@.len() - i,
    {
        let ghost before = r@;
        let entry = (scores[i].0.clone(), scores[i].1);
        r.push(entry);
        assert(chunk_score_views(r@) =~= chunk_score_views(before).push((entry.0@, entry.1 as int)));
        i += 1;
    }
    assert(chunk_score_views(r@) =~= chunk_score_views(scores@));
    match metadata.get_str("record_kind") {
        Some(kind) => {
            if text_eq(kind, DOCUMENT_SUMMARY_RECORD_KIND) {
                return r;
            }
        },
        None => {},
    }
    match metadata.get_str("chunk_id") {
        Some(id) => {
            let ghost before = chunk_score_views(r@);
            let k = find_score(&r, id);
            if k < r.len() {
                let best = if r[k].1 >= score {
                    r[k].1
                } else {
                    score
                };
                r.set(k, (id.to_owned(), best));
            } else {
                r.push((id.to_owned(), score));
            }
            assert(chunk_score_views(r@) =~= with_chunk_score(before, id@, score as int));
        },
        None => {},
    }
    r
}

/// The documents that results belong to, the best first.
pub fn group_retrieval_results_by_document(results: &Vec<ScoredMemory>) -> (r: Vec<
    DocumentRetrievalHit,
>)
    ensures
        exists|s: Seq<DocumentRetrievalHit>|
            hit_views(s) == hits_of(api::scored_views(results@)) && r@ == order::in_order(s),
{
    let ghost all = api::scored_views(results@);
    let mut hits: Vec<DocumentRetrievalHit> = Vec::new();
    let mut i: usize = 0;
    assert(hit_views(hits@) =~= Seq::<HitView>::empty());
    while i < results.len()
        invariant
            i <= results@.len(),
            all == api::scored_views(results@),
            hit_views(hits@) == hits_of(all.take(i as int)),
        decreases results@.len() - i,
    {
        let x = &results[i];
        let ghost before = hits@;
        proof {
            assert(all.take(i + 1).drop_last() =~= all.take(i as int));
            assert(all.take(i + 1).last() == x@);
        }
        match x.record.metadata.get_str("document_id") {
            None => {},
            Some(id) => {
                let k = find_hit(&hits, id);
                if k < hits.len() {
                    let chunk_scores = note_result_score(
                        &hits[k].chunk_scores,
                        &x.record.metadata,
                        x.score,
                    );
                    let hit = DocumentRetrievalHit {
                        document_id: hits[k].document_id.clone(),
                        best_score: if hits[k].best_score >= x.score {
                            hits[k].best_score
                        } else {
                            x.score
                        },
                        first_seen_rank: hits[k].first_seen_rank,
                        chunk_scores,
                    };
                    hits.set(k, hit);
                } else {
                    let none: Vec<(String, i32)> = Vec::new();
                    assert(chunk_score_views(none@) =~= Seq::<(Seq<char>, int)>::empty());
                    let chunk_scores = note_result_score(&none, &x.record.metadata, x.score);
                    hits.push(
                        DocumentRetrievalHit {
                            document_id: id.to_owned(),
                            best_score: x.score,
                            first_seen_rank: i,
                            chunk_scores,
                        },
                    );
                }
                assert(hit_views(hits@) =~= with_result(hit_views(before), i as int, x@));
            },
        }
        i += 1;
    }
    assert(all.take(i as int) =~= all);
    sort_stable(hits)
}

/// Whether each document stands once.
pub open spec fn distinct_hits(hits: Seq<HitView>) -> bool {
    forall|i: int, j: int|
        0 <= i < j < hits.len() ==> (#[trigger] hits[i]).document_id
            != (#[trigger] hits[j]).document_id
}

/// Grouping results keeps each document once.
pub proof fn grouping_keeps_each_document_once(results: Seq<ScoredView>)
    ensures
        distinct_hits(hits_of(results)),
    decreases results.len(),
{
    if results.len() > 0 {
        grouping_keeps_each_document_once(results.drop_last());
        let hits = hits_of(results.drop_last());
        match json::json_get_text(results.last().record.metadata, "document_id"@) {
            Some(id) => {
                lemma_hit_index(hits, id);
            },
            None => {},
        }
    }
}

/// The documents that can compete with the best one, given which do.
pub fn competitive_document_hits(hits: Vec<DocumentRetrievalHit>, competitive: &Vec<bool>) -> (r: Vec<
    DocumentRetrievalHit,
>)
    requires
        hits@.len() == competitive@.len(),
    ensures
        r@ == order::marked(hits@, competitive@),
{
    keep_marked(hits, competitive)
}

/// What the rank of a chunk within its document is computed from.
#[derive(Clone, Copy, Debug, PartialEq, Eq, Structural)]
pub struct ChunkSignals {
    /// How many terms of the query the chunk matches, and how many there are.
    pub overlap: usize,
    pub query_terms: usize,
    /// How many terms the chunk has.
    pub terms: usize,
    pub has_identifier: bool,
    pub has_version: bool,
    /// Whether more than one line says something.
    pub many_lines: bool,
}

pub open spec fn filled_line_count(lines: Seq<Seq<char>>) -> nat
    decreases lines.len(),
{
    if lines.len() == 0 {
        0
    } else {
        filled_line_count(lines.drop_last()) + (if text::is_blank(lines.last()) {
            0nat
        } else {
            1nat
        })
    }
}

fn count_filled_lines(content: &str) -> (r: usize)
    ensures
        r == filled_line_count(text::lines_of(content@)),
{
    let lines = text_lines(content);
    let ghost all = text::strings(lines@);
    let mut n: usize = 0;
    let mut i: usize = 0;
    while i < lines.len()
        invariant
            i <= lines@.len(),
            all == text::strings(lines@),
            n <= i,
            n == filled_line_count(all.take(i as int)),
        decreases lines@.len() - i,
    {
        proof {
            assert(all.take(i + 1).drop_last() =~= all.take(i as int));
            assert(all.take(i + 1).last() == lines@[i as int]@);
        }
        if !trim(lines[i].as_str()).is_empty() {
            n += 1;
        }
        i += 1;
    }
    assert(all.take(i as int) =~= all);
    n
}

/// What the rank of a chunk within its document is computed from.
pub fn chunk_signals(query_terms: &TermSet, content: &str) -> (r: ChunkSignals)
    ensures
        r.overlap == case_overlap::matched_count(
            query_terms@,
            case_overlap::terms_of(content@),
        ),
        r.query_terms == query_terms@.len(),
        r.terms == case_overlap::terms_of(content@).len(),
        r.has_identifier == case_summary::some_identifier(case_overlap::terms_of(content@)),
        r.has_version == (case_terms::versions_of(content@).len() > 0),
        r.many_lines == (filled_line_count(text::lines_of(content@)) > 1),
{
    let terms = retrieval_terms(content);
    let versions = version_like_terms(content);
    proof {
        assert(versions@.len() == text::strings(versions@).len());
    }
    ChunkSignals {
        overlap: retrieval_overlap_count(query_terms, &terms),
        query_terms: query_terms.len(),
        terms: terms.len(),
        has_identifier: terms.holds_identifier(),
        has_version: versions.len() > 0,
        many_lines: count_filled_lines(content) > 1,
    }
}

/// A chunk by its score and its place in its document.
#[derive(Clone, Copy, Debug, PartialEq, Eq, Structural)]
pub struct ChunkRank {
    pub score: i32,
    pub index: usize,
}

impl Ordered for ChunkRank {
    /// Higher scores go first, and among equals the earlier chunk.
    open spec fn precedes(&self, other: &Self) -> bool {
        self.score > other.score || (self.score == other.score && self.index < other.index)
    }

    proof fn order_is_weak(a: &Self, b: &Self, c: &Self) {
    }

    fn goes_before(&self, other: &Self) -> (r: bool) {
        self.score > other.score || (self.score == other.score && self.index < other.index)
    }
}

/// The chunks of a document by their scores.
pub open spec fn chunk_ranks(scores: Seq<i32>) -> Seq<ChunkRank> {
    Seq::new(scores.len(), |i: int| ChunkRank { score: scores[i], index: i as usize })
}

/// The order in which the chunks of a document are considered, given their
/// scores: the best first.
pub fn ranked_chunk_indices(scores: &Vec<i32>) -> (r: Vec<usize>)
    ensures
        r@ == Seq::new(
            scores@.len(),
            |i: int| order::in_order(chunk_ranks(scores@))[i].index,
        ),
{
    let mut ranks: Vec<ChunkRank> = Vec::new();
    let mut i: usize = 0;
    while i < scores.len()
        invariant
            i <= scores@.len(),
            ranks@ == chunk_ranks(scores@).take(i as int),
        decreases scores@.len() - i,
    {
        ranks.push(ChunkRank { score: scores[i], index: i });
        assert(ranks@ =~= chunk_ranks(scores@).take(i + 1));
        i += 1;
    }
    assert(ranks@ =~= chunk_ranks(scores@));
    let ranked = sort_stable(ranks);
    proof {
        order::sorting_orders_and_keeps_all(chunk_ranks(scores@));
    }
    let ghost wanted = Seq::new(
        scores@.len(),
        |i: int| order::in_order(chunk_ranks(scores@))[i].index,
    );
    let mut r: Vec<usize> = Vec::new();
    let mut j: usize = 0;
    while j < ranked.len()
        invariant
            j <= ranked@.len(),
            ranked@.len() == scores@.len(),
            ranked@ == order::in_order(chunk_ranks(scores@)),
            wanted == Seq::new(
                scores@.len(),
                |i: int| order::in_order(chunk_ranks(scores@))[i].index,
            ),
            r@ == wanted.take(j as int),
        decreases ranked@.len() - j,
    {
        r.push(ranked[j].index);
        assert(r@ =~= wanted.take(j + 1));
        j += 1;
    }
    assert(r@ =~= wanted);
    r
}

/// A document to return chunks of: its chunks, the order in which they are
/// considered, and the score of each place in that order.
#[derive(Debug)]
pub struct RetrievedDocument {
    pub document: StoredDocument,
    pub chunks: Vec<Chunk>,
    pub ranked: Vec<usize>,
    pub scores: Vec<i32>,
}

/// What a [`RetrievedDocument`] stands for.
pub struct RetrievedView {
    pub document: StoredDocumentView,
    pub chunks: Seq<ChunkView>,
    pub ranked: Seq<usize>,
    pub scores: Seq<i32>,
}

impl View for RetrievedDocument {
    type V = RetrievedView;

    open spec fn view(&self) -> RetrievedView {
        RetrievedView {
            document: self.document@,
            chunks: case_model::chunk_views(self.chunks@),
            ranked: self.ranked@,
            scores: self.scores@,
        }
    }
}

pub open spec fn retrieved_views(v: Seq<RetrievedDocument>) -> Seq<RetrievedView> {
    Seq::new(v.len(), |i: int| v[i]@)
}

/// Whether every place in the order has its score.
pub open spec fn is_scored(d: RetrievedView) -> bool {
    d.ranked.len() == d.scores.len()
}

/// What an expansion has returned so far, and which chunks it has used.
pub struct Expansion {
    pub output: Seq<SearchChunkView>,
    pub seen: Seq<Seq<char>>,
}

/// Whether a chunk can still be returned.
pub open spec fn is_open_chunk(c: ChunkView, seen: Seq<Seq<char>>) -> bool {
    c.available && !seen.contains(c.id)
}

/// The chunks from one place up to another that can still be returned.
pub open spec fn open_between(chunks: Seq<ChunkView>, from: int, to: int, seen: Seq<Seq<char>>) -> Seq<
    ChunkView,
>
    decreases to - from,
{
    if to <= from {
        Seq::empty()
    } else {
        let before = open_between(chunks, from, to - 1, seen);
        if is_open_chunk(chunks[to - 1], seen) {
            before.push(chunks[to - 1])
        } else {
            before
        }
    }
}

/// A chunk and its neighbours, as far as they can still be returned.
pub open spec fn window(chunks: Seq<ChunkView>, anchor: int, seen: Seq<Seq<char>>) -> Seq<ChunkView> {
    open_between(
        chunks,
        if anchor > 0 {
            anchor - 1
        } else {
            0
        },
        if anchor + 2 < chunks.len() {
            anchor + 2
        } else {
            chunks.len() as int
        },
        seen,
    )
}

pub open spec fn chunk_ids(chunks: Seq<ChunkView>) -> Seq<Seq<char>> {
    Seq::new(chunks.len(), |i: int| chunks[i].id)
}

/// The contents of chunks that say something, without the space around them.
pub open spec fn said(chunks: Seq<ChunkView>) -> Seq<Seq<char>>
    decreases chunks.len(),
{
    if chunks.len() == 0 {
        Seq::empty()
    } else {
        let t = text::trimmed(chunks.last().content);
        if t.len() == 0 {
            said(chunks.drop_last())
        } else {
            said(chunks.drop_last()).push(t)
        }
    }
}

/// The result that a chunk becomes, with its neighbours or without.
pub open spec fn result_of(
    d: RetrievedView,
    index: int,
    score: int,
    windows: bool,
    seen: Seq<Seq<char>>,
) -> SearchChunkView {
    let c = d.chunks[index];
    let near = window(d.chunks, index, seen);
    SearchChunkView {
        chunk_id: c.id,
        context_chunk_ids: if windows && near.len() > 1 {
            chunk_ids(near)
        } else {
            Seq::empty()
        },
        dataset_id: c.dataset_id,
        document_id: c.document_id,
        source_name: Some(d.document.name),
        source_path: Some(d.document.file_path),
        content: if windows {
            text::joined(said(near), "\n\n"@)
        } else {
            c.content
        },
        score,
    }
}

/// The chunks that are used up with a result.
pub open spec fn used_with(d: RetrievedView, index: int, windows: bool, seen: Seq<Seq<char>>) -> Seq<
    Seq<char>,
> {
    if windows {
        chunk_ids(window(d.chunks, index, seen))
    } else {
        seq![d.chunks[index].id]
    }
}

/// What a document adds, from one place of its order on: results until there
/// are enough, in all or of this document, or until the scores are too low.
pub open spec fn expanded_from(
    e: Expansion,
    d: RetrievedView,
    rank: int,
    added: int,
    top_k: int,
    limit: Option<usize>,
    windows: bool,
) -> Expansion
    decreases d.ranked.len() - rank,
{
    if rank >= d.ranked.len() || e.output.len() >= top_k || (limit is Some && added >= limit->0) {
        e
    } else {
        let index = d.ranked[rank] as int;
        if index >= d.chunks.len() || !is_open_chunk(d.chunks[index], e.seen) {
            expanded_from(e, d, rank + 1, added, top_k, limit, windows)
        } else if d.scores[rank] < MIN_RELEVANCE_PLACE {
            e
        } else {
            let next = Expansion {
                output: e.output.push(
                    result_of(d, index, d.scores[rank] as int, windows, e.seen),
                ),
                seen: e.seen + used_with(d, index, windows, e.seen),
            };
            expanded_from(next, d, rank + 1, added + 1, top_k, limit, windows)
        }
    }
}

/// What documents add, one after the other.
pub open spec fn expanded_by(
    e: Expansion,
    docs: Seq<RetrievedView>,
    top_k: int,
    limit: Option<usize>,
    windows: bool,
) -> Expansion
    decreases docs.len(),
{
    if docs.len() == 0 {
        e
    } else {
        expanded_from(
            expanded_by(e, docs.drop_last(), top_k, limit, windows),
            docs.last(),
            0,
            0,
            top_k,
            limit,
            windows,
        )
    }
}

/// How many chunks of a document can be returned at all.
pub open spec fn available_count(chunks: Seq<ChunkView>) -> nat
    decreases chunks.len(),
{
    if chunks.len() == 0 {
        0
    } else {
        available_count(chunks.drop_last()) + (if chunks.last().available {
            1nat
        } else {
            0nat
        })
    }
}

pub open spec fn available_in_all(docs: Seq<RetrievedView>) -> nat
    decreases docs.len(),
{
    if docs.len() == 0 {
        0
    } else {
        available_in_all(docs.drop_last()) + available_count(docs.last().chunks)
    }
}

pub open spec fn no_results() -> Expansion {
    Expansion { output: Seq::empty(), seen: Seq::empty() }
}

/// What documents give: one result of each, then more of each. Neighbours are
/// added where there are more chunks than results.
pub open spec fn expanded(docs: Seq<RetrievedView>, top_k: int) -> Expansion {
    let windows = available_in_all(docs) > top_k;
    expanded_by(
        expanded_by(no_results(), docs, top_k, Some(1), windows),
        docs,
        top_k,
        None,
        windows,
    )
}

fn unseen_context_window_indices(chunks: &Vec<Chunk>, anchor_index: usize, seen: &Vec<String>) -> (r:
    Vec<usize>)
    requires
        anchor_index < chunks@.len(),
    ensures
        forall|i: int| 0 <= i < r@.len() ==> (#[trigger] r@[i]) < chunks@.len(),
        Seq::new(r@.len(), |i: int| case_model::chunk_views(chunks@)[r@[i] as int]) == window(
            case_model::chunk_views(chunks@),
            anchor_index as int,
            text::strings(seen@),
        ),
{
    let ghost all = case_model::chunk_views(chunks@);
    let ghost used = text::strings(seen@);
    let start: usize = if anchor_index > 0 {
        anchor_index - 1
    } else {
        0
    };
    let n = chunks.len();
    let end: usize = if n - anchor_index > 2 {
        anchor_index + 2
    } else {
        n
    };
    let mut r: Vec<usize> = Vec::new();
    let mut i: usize = start;
    while i < end
        invariant
            start <= i <= end <= chunks@.len(),
            all == case_model::chunk_views(chunks@),
            used == text::strings(seen@),
            forall|i: int| 0 <= i < r@.len() ==> (#[trigger] r@[i]) < chunks@.len(),
            Seq::new(r@.len(), |i: int| all[r@[i] as int]) =~= open_between(
                all,
                start as int,
                i as int,
                used,
            ),
        decreases end - i,
    {
        assert(all[i as int] == chunks@[i as int]@);
        if chunks[i].available && !holds_text(seen, chunks[i].id.as_str()) {
            let ghost before = r@;
            r.push(i);
            assert(Seq::new(r@.len(), |i: int| all[r@[i] as int]) =~= Seq::new(
                before.len(),
                |i: int| all[before[i] as int],
            ).push(all[i as int]));
        }
        i += 1;
    }
    r
}

/// The contents of the chunks at some places, joined.
fn context_content(chunks: &Vec<Chunk>, indices: &Vec<usize>) -> (r: String)
    requires
        forall|i: int| 0 <= i < indices@.len() ==> (#[trigger] indices@[i]) < chunks@.len(),
    ensures
        r@ == text::joined(
            said(
                Seq::new(
                    indices@.len(),
                    |i: int| case_model::chunk_views(chunks@)[indices@[i] as int],
                ),
            ),
            "\n\n"@,
        ),
{
    let ghost near = Seq::new(
        indices@.len(),
        |i: int| case_model::chunk_views(chunks@)[indices@[i] as int],
    );
    let mut parts: Vec<String> = Vec::new();
    let mut i: usize = 0;
    assert(text::strings(parts@) =~= Seq::<Seq<char>>::empty());
    while i < indices.len()
        invariant
            i <= indices@.len(),
            near == Seq::new(
                indices@.len(),
                |i: int| case_model::chunk_views(chunks@)[indices@[i] as int],
            ),
            forall|i: int| 0 <= i < indices@.len() ==> (#[trigger] indices@[i]) < chunks@.len(),
            text::strings(parts@) == said(near.take(i as int)),
        decreases indices@.len() - i,
    {
        let content = trim(chunks[indices[i]].content.as_str());
        proof {
            assert(near.take(i + 1).drop_last() =~= near.take(i as int));
            assert(near.take(i + 1).last().content == chunks@[indices@[i as int] as int].content@);
        }
        if !content.is_empty() {
            let ghost before = parts@;
            let part = content.to_owned();
            parts.push(part);
            proof {
                lemma_strings_push(before, part);
            }
        }
        i += 1;
    }
    assert(near.take(i as int) =~= near);
    join_texts(&parts, "\n\n")
}

/// The ids of the chunks at some places.
fn context_ids(chunks: &Vec<Chunk>, indices: &Vec<usize>) -> (r: Vec<String>)
    requires
        forall|i: int| 0 <= i < indices@.len() ==> (#[trigger] indices@[i]) < chunks@.len(),
    ensures
        text::strings(r@) == chunk_ids(
            Seq::new(
                indices@.len(),
                |i: int| case_model::chunk_views(chunks@)[indices@[i] as int],
            ),
        ),
{
    let ghost ids = chunk_ids(
        Seq::new(
            indices@.len(),
            |i: int| case_model::chunk_views(chunks@)[indices@[i] as int],
        ),
    );
    let mut r: Vec<String> = Vec::new();
    let mut i: usize = 0;
    while i < indices.len()
        invariant
            i <= indices@.len(),
            ids == chunk_ids(
                Seq::new(
                    indices@.len(),
                    |i: int| case_model::chunk_views(chunks@)[indices@[i] as int],
                ),
            ),
            forall|i: int| 0 <= i < indices@.len() ==> (#[trigger] indices@[i]) < chunks@.len(),
            text::strings(r@) =~= ids.take(i as int),
        decreases indices@.len() - i,
    {
        let ghost before = r@;
        let id = chunks[indices[i]].id.clone();
        r.push(id);
        proof {
            lemma_strings_push(before, id);
        }
        i += 1;
    }
    assert(ids.take(i as int) =~= ids);
    r
}

fn note_seen(seen: &mut Vec<String>, ids: &Vec<String>)
    ensures
        text::strings(final(seen)@) == text::strings(old(seen)@) + text::strings(ids@),
{
    let ghost first = text::strings(seen@);
    let mut i: usize = 0;
    while i < ids.len()
        invariant
            i <= ids@.len(),
            text::strings(seen@) =~= first + text::strings(ids@).take(i as int),
        decreases ids@.len() - i,
    {
        let ghost before = seen@;
        let id = ids[i].clone();
        seen.push(id);
        proof {
            lemma_strings_push(before, id);
        }
        i += 1;
    }
}

/// Adds what a document gives to the results.
pub fn append_document_chunks_with_context(
    output: &mut Vec<SearchChunk>,
    seen: &mut Vec<String>,
    d: &RetrievedDocument,
    top_k: usize,
    max_chunks_from_document: Option<usize>,
    use_context_windows: bool,
)
    requires
        is_scored(d@),
    ensures
        (Expansion {
            output: case_model::search_chunk_views(final(output)@),
            seen: text::strings(final(seen)@),
        }) == expanded_from(
            (Expansion {
                output: case_model::search_chunk_views(old(output)@),
                seen: text::strings(old(seen)@),
            }),
            d@,
            0,
            0,
            top_k as int,
            max_chunks_from_document,
            use_context_windows,
        ),
{
    let ghost wanted = expanded_from(
        (Expansion {
            output: case_model::search_chunk_views(output@),
            seen: text::strings(seen@),
        }),
        d@,
        0,
        0,
        top_k as int,
        max_chunks_from_document,
        use_context_windows,
    );
    let mut added: usize = 0;
    let mut rank: usize = 0;
    while rank < d.ranked.len()
        invariant
            rank <= d.ranked@.len(),
            added <= rank,
            is_scored(d@),
            wanted == expanded_from(
                (Expansion {
                    output: case_model::search_chunk_views(output@),
                    seen: text::strings(seen@),
                }),
                d@,
                rank as int,
                added as int,
                top_k as int,
                max_chunks_from_document,
                use_context_windows,
            ),
        ensures
            wanted == (Expansion {
                output: case_model::search_chunk_views(output@),
                seen: text::strings(seen@),
            }),
        decreases d.ranked@.len() - rank,
    {
        if output.len() >= top_k {
            break;
        }
        match max_chunks_from_document {
            Some(limit) => {
                if added >= limit {
                    break;
                }
            },
            None => {},
        }
        let index = d.ranked[rank];
        if index < d.chunks.len() {
            let chunk = &d.chunks[index];
            let ghost used = text::strings(seen@);
            let ghost all = case_model::chunk_views(d.chunks@);
            assert(all[index as int] == chunk@);
            if chunk.available && !holds_text(seen, chunk.id.as_str()) {
                let score = d.scores[rank];
                if score < MIN_RELEVANCE_PLACE {
                    break;
                }
                let ghost before = output@;
                let content: String;
                let context_chunk_ids: Vec<String>;
                if use_context_windows {
                    let indices = unseen_context_window_indices(&d.chunks, index, seen);
                    content = context_content(&d.chunks, &indices);
                    let ids = context_ids(&d.chunks, &indices);
                    note_seen(seen, &ids);
                    if indices.len() > 1 {
                        context_chunk_ids = ids;
                    } else {
                        context_chunk_ids = Vec::new();
                    }
                } else {
                    content = chunk.content.clone();
                    context_chunk_ids = Vec::new();
                    let ghost before_seen = seen@;
                    let id = chunk.id.clone();
                    seen.push(id);
                    proof {
                        lemma_strings_push(before_seen, id);
                        assert(text::strings(seen@) =~= used + seq![chunk.id@]);
                    }
                }
                let result = SearchChunk {
                    chunk_id: chunk.id.clone(),
                    context_chunk_ids,
                    dataset_id: chunk.dataset_id.clone(),
                    document_id: chunk.document_id.clone(),
                    source_name: Some(d.document.name.clone()),
                    source_path: Some(d.document.file_path.clone()),
                    content,
                    score,
                };
                proof {
                    let given = result_of(
                        d@,
                        index as int,
                        score as int,
                        use_context_windows,
                        used,
                    );
                    assert(result@.context_chunk_ids =~= given.context_chunk_ids);
                    assert(result@ == given);
                }
                output.push(result);
                assert(case_model::search_chunk_views(output@)
                    =~= case_model::search_chunk_views(before).push(result@));
                added += 1;
            }
        }
        rank += 1;
    }
}

/// Adds what documents give to the results, one after the other.
fn append_documents(
    output: &mut Vec<SearchChunk>,
    seen: &mut Vec<String>,
    documents: &Vec<RetrievedDocument>,
    top_k: usize,
    limit: Option<usize>,
    windows: bool,
)
    requires
        forall|i: int| 0 <= i < documents@.len() ==> is_scored((#[trigger] documents@[i])@),
    ensures
        (Expansion {
            output: case_model::search_chunk_views(final(output)@),
            seen: text::strings(final(seen)@),
        }) == expanded_by(
            (Expansion {
                output: case_model::search_chunk_views(old(output)@),
                seen: text::strings(old(seen)@),
            }),
            retrieved_views(documents@),
            top_k as int,
            limit,
            windows,
        ),
{
    let ghost first = Expansion {
        output: case_model::search_chunk_views(output@),
        seen: text::strings(seen@),
    };
    let ghost all = retrieved_views(documents@);
    let mut i: usize = 0;
    assert(all.take(0) =~= Seq::<RetrievedView>::empty());
    while i < documents.len()
        invariant
            i <= documents@.len(),
            all == retrieved_views(documents@),
            forall|i: int| 0 <= i < documents@.len() ==> is_scored((#[trigger] documents@[i])@),
            (Expansion {
                output: case_model::search_chunk_views(output@),
                seen: text::strings(seen@),
            }) == expanded_by(first, all.take(i as int), top_k as int, limit, windows),
        decreases documents@.len() - i,
    {
        proof {
            assert(all.take(i + 1).drop_last() =~= all.take(i as int));
            assert(all.take(i + 1).last() == documents@[i as int]@);
        }
        append_document_chunks_with_context(output, seen, &documents[i], top_k, limit, windows);
        i += 1;
    }
    assert(all.take(i as int) =~= all);
}

/// Whether documents hold more chunks that can be returned than some number.
fn more_available_than(documents: &Vec<RetrievedDocument>, top_k: usize) -> (r: bool)
    ensures
        r == (available_in_all(retrieved_views(documents@)) > top_k),
{
    let ghost all = retrieved_views(documents@);
    let mut left = top_k;
    let mut i: usize = 0;
    while i < documents.len()
        invariant
            i <= documents@.len(),
            all == retrieved_views(documents@),
            available_in_all(all.take(i as int)) + left == top_k,
        decreases documents@.len() - i,
    {
        let chunks = &documents[i].chunks;
        let ghost these = case_model::chunk_views(chunks@);
        let ghost before = left;
        let mut j: usize = 0;
        proof {
            assert(all.take(i + 1).drop_last() =~= all.take(i as int));
            assert(all.take(i + 1).last() == documents@[i as int]@);
        }
        while j < chunks.len()
            invariant
                j <= chunks@.len(),
                i < documents@.len(),
                all == retrieved_views(documents@),
                these == case_model::chunk_views(chunks@),
                these == all[i as int].chunks,
                available_in_all(all.take(i as int)) + before == top_k,
                available_in_all(all.take(i + 1)) == available_in_all(all.take(i as int))
                    + available_count(these),
                available_count(these.take(j as int)) + left == before,
            decreases chunks@.len() - j,
        {
            proof {
                assert(these.take(j + 1).drop_last() =~= these.take(j as int));
                assert(these.take(j + 1).last() == chunks@[j as int]@);
            }
            if chunks[j].available {
                if left == 0 {
                    proof {
                        lemma_available_count_grows(these, j + 1);
                        lemma_available_in_all_grows(all, i + 1);
                    }
                    return true;
                }
                left -= 1;
            }
            j += 1;
        }
        assert(these.take(j as int) =~= these);
        i += 1;
    }
    assert(all.take(i as int) =~= all);
    false
}

proof fn lemma_available_count_grows(chunks: Seq<ChunkView>, n: int)
    requires
        0 <= n <= chunks.len(),
    ensures
        available_count(chunks.take(n)) <= available_count(chunks),
    decreases chunks.len(),
{
    if n < chunks.len() {
        lemma_available_count_grows(chunks.drop_last(), n);
        assert(chunks.drop_last().take(n) =~= chunks.take(n));
    } else {
        assert(chunks.take(n) =~= chunks);
    }
}

proof fn lemma_available_in_all_grows(docs: Seq<RetrievedView>, n: int)
    requires
        0 <= n <= docs.len(),
    ensures
        available_in_all(docs.take(n)) <= available_in_all(docs),
    decreases docs.len(),
{
    if n < docs.len() {
        lemma_available_in_all_grows(docs.drop_last(), n);
        assert(docs.drop_last().take(n) =~= docs.take(n));
    } else {
        assert(docs.take(n) =~= docs);
    }
}

/// The chunks that retrieved documents give: one of each document first, then
/// more of each.
pub fn expand_retrieved_documents(documents: &Vec<RetrievedDocument>, top_k: usize) -> (r: Vec<
    SearchChunk,
>)
    requires
        forall|i: int| 0 <= i < documents@.len() ==> is_scored((#[trigger] documents@[i])@),
    ensures
        case_model::search_chunk_views(r@) == expanded(
            retrieved_views(documents@),
            top_k as int,
        ).output,
{
    let mut output: Vec<SearchChunk> = Vec::new();
    let mut seen: Vec<String> = Vec::new();
    assert(case_model::search_chunk_views(output@) =~= Seq::<SearchChunkView>::empty());
    assert(text::strings(seen@) =~= Seq::<Seq<char>>::empty());
    let windows = more_available_than(documents, top_k);
    append_documents(&mut output, &mut seen, documents, top_k, Some(1), windows);
    append_documents(&mut output, &mut seen, documents, top_k, None, windows);
    output
}

/// Adds what a document gives to the results, without neighbours.
pub fn append_document_chunks(
    output: &mut Vec<SearchChunk>,
    seen: &mut Vec<String>,
    d: &RetrievedDocument,
    top_k: usize,
    max_chunks_from_document: Option<usize>,
)
    requires
        is_scored(d@),
    ensures
        (Expansion {
            output: case_model::search_chunk_views(final(output)@),
            seen: text::strings(final(seen)@),
        }) == expanded_from(
            (Expansion {
                output: case_model::search_chunk_views(old(output)@),
                seen: text::strings(old(seen)@),
            }),
            d@,
            0,
            0,
            top_k as int,
            max_chunks_from_document,
            false,
        ),
{
    append_document_chunks_with_context(output, seen, d, top_k, max_chunks_from_document, false)
}

/// Whether results are in order: not too many, none twice, each used up, and
/// each scored high enough.
pub open spec fn is_fair(e: Expansion, top_k: int) -> bool {
    &&& e.output.len() <= top_k
    &&& forall|i: int, j: int|
        0 <= i < j < e.output.len() ==> (#[trigger] e.output[i]).chunk_id != (
        #[trigger] e.output[j]).chunk_id
    &&& forall|i: int|
        0 <= i < e.output.len() ==> e.seen.contains((#[trigger] e.output[i]).chunk_id)
    &&& forall|i: int|
        0 <= i < e.output.len() ==> (#[trigger] e.output[i]).score >= MIN_RELEVANCE_PLACE
}

proof fn lemma_open_between_holds(
    chunks: Seq<ChunkView>,
    from: int,
    to: int,
    seen: Seq<Seq<char>>,
    index: int,
) -> (k: int)
    requires
        0 <= from <= index < to <= chunks.len(),
        is_open_chunk(chunks[index], seen),
    ensures
        0 <= k < open_between(chunks, from, to, seen).len(),
        open_between(chunks, from, to, seen)[k] == chunks[index],
    decreases to - from,
{
    if index == to - 1 {
        open_between(chunks, from, to, seen).len() - 1
    } else {
        lemma_open_between_holds(chunks, from, to - 1, seen, index)
    }
}

/// A result uses its own chunk up.
proof fn lemma_result_is_used(d: RetrievedView, index: int, windows: bool, seen: Seq<Seq<char>>)
    requires
        0 <= index < d.chunks.len(),
        is_open_chunk(d.chunks[index], seen),
    ensures
        used_with(d, index, windows, seen).contains(d.chunks[index].id),
{
    if windows {
        let near = window(d.chunks, index, seen);
        let k = lemma_open_between_holds(
            d.chunks,
            if index > 0 {
                index - 1
            } else {
                0
            },
            if index + 2 < d.chunks.len() {
                index + 2
            } else {
                d.chunks.len() as int
            },
            seen,
            index,
        );
        assert(chunk_ids(near)[k] == d.chunks[index].id);
    } else {
        assert(seq![d.chunks[index].id][0] == d.chunks[index].id);
    }
}

proof fn lemma_expanding_is_fair(
    e: Expansion,
    d: RetrievedView,
    rank: int,
    added: int,
    top_k: int,
    limit: Option<usize>,
    windows: bool,
)
    requires
        is_fair(e, top_k),
        0 <= rank,
    ensures
        is_fair(expanded_from(e, d, rank, added, top_k, limit, windows), top_k),
        e.output.is_prefix_of(expanded_from(e, d, rank, added, top_k, limit, windows).output),
    decreases d.ranked.len() - rank,
{
    if rank >= d.ranked.len() || e.output.len() >= top_k || (limit is Some && added >= limit->0) {
    } else {
        let index = d.ranked[rank] as int;
        if index >= d.chunks.len() || !is_open_chunk(d.chunks[index], e.seen) {
            lemma_expanding_is_fair(e, d, rank + 1, added, top_k, limit, windows);
        } else if d.scores[rank] < MIN_RELEVANCE_PLACE {
        } else {
            let used = used_with(d, index, windows, e.seen);
            let next = Expansion {
                output: e.output.push(
                    result_of(d, index, d.scores[rank] as int, windows, e.seen),
                ),
                seen: e.seen + used,
            };
            lemma_result_is_used(d, index, windows, e.seen);
            let k = used.index_of(d.chunks[index].id);
            assert(next.seen[e.seen.len() + k] == d.chunks[index].id);
            assert forall|i: int| 0 <= i < next.output.len() implies next.seen.contains(
                (#[trigger] next.output[i]).chunk_id,
            ) by {
                if i < e.output.len() {
                    let id = e.output[i].chunk_id;
                    assert(e.seen.contains(id));
                    let m = e.seen.index_of(id);
                    assert(next.seen[m] == id);
                }
            }
            assert(is_fair(next, top_k));
            lemma_expanding_is_fair(next, d, rank + 1, added + 1, top_k, limit, windows);
        }
    }
}

proof fn lemma_expanding_all_is_fair(
    e: Expansion,
    docs: Seq<RetrievedView>,
    top_k: int,
    limit: Option<usize>,
    windows: bool,
)
    requires
        is_fair(e, top_k),
    ensures
        is_fair(expanded_by(e, docs, top_k, limit, windows), top_k),
        e.output.is_prefix_of(expanded_by(e, docs, top_k, limit, windows).output),
    decreases docs.len(),
{
    if docs.len() > 0 {
        lemma_expanding_all_is_fair(e, docs.drop_last(), top_k, limit, windows);
        let middle = expanded_by(e, docs.drop_last(), top_k, limit, windows);
        lemma_expanding_is_fair(middle, docs.last(), 0, 0, top_k, limit, windows);
        let done = expanded_by(e, docs, top_k, limit, windows);
        assert(e.output =~= done.output.take(e.output.len() as int));
    }
}

/// A search returns no more chunks than asked for, none of them twice, and none
/// whose score is too low.
pub proof fn results_are_few_and_distinct(docs: Seq<RetrievedView>, top_k: nat)
    ensures
        expanded(docs, top_k as int).output.len() <= top_k,
        forall|i: int, j: int|
            0 <= i < j < expanded(docs, top_k as int).output.len() ==> (#[trigger] expanded(
                docs,
                top_k as int,
            ).output[i]).chunk_id != (#[trigger] expanded(docs, top_k as int).output[j]).chunk_id,
        forall|i: int|
            0 <= i < expanded(docs, top_k as int).output.len() ==> (#[trigger] expanded(
                docs,
                top_k as int,
            ).output[i]).score >= MIN_RELEVANCE_PLACE,
{
    let windows = available_in_all(docs) > top_k;
    let first = expanded_by(no_results(), docs, top_k as int, Some(1), windows);
    lemma_expanding_all_is_fair(no_results(), docs, top_k as int, Some(1), windows);
    lemma_expanding_all_is_fair(first, docs, top_k as int, None, windows);
}

/// Whether the first chunk in the order of a document can be returned.
pub open spec fn leads(d: RetrievedView) -> bool {
    &&& d.ranked.len() > 0
    &&& d.ranked[0] < d.chunks.len()
    &&& d.chunks[d.ranked[0] as int].available
    &&& d.scores[0] >= MIN_RELEVANCE_PLACE
}

/// Whether no chunk of one document has the id of a chunk of another.
pub open spec fn apart(docs: Seq<RetrievedView>) -> bool {
    forall|a: int, b: int, i: int, j: int|
        0 <= a < b < docs.len() && 0 <= i < docs[a].chunks.len() && 0 <= j < docs[b].chunks.len()
            ==> (#[trigger] docs[a].chunks[i]).id != (#[trigger] docs[b].chunks[j]).id
}

/// Whether chunks have an id among them.
pub open spec fn holds_id(chunks: Seq<ChunkView>, id: Seq<char>) -> bool {
    exists|i: int| 0 <= i < chunks.len() && (#[trigger] chunks[i]).id == id
}

proof fn lemma_open_between_is_within(
    chunks: Seq<ChunkView>,
    from: int,
    to: int,
    seen: Seq<Seq<char>>,
    k: int,
)
    requires
        0 <= from,
        to <= chunks.len(),
        0 <= k < open_between(chunks, from, to, seen).len(),
    ensures
        holds_id(chunks, open_between(chunks, from, to, seen)[k].id),
    decreases to - from,
{
    if from < to {
        let before = open_between(chunks, from, to - 1, seen);
        if k < before.len() {
            lemma_open_between_is_within(chunks, from, to - 1, seen, k);
        } else {
            assert(open_between(chunks, from, to, seen)[k] == chunks[to - 1]);
        }
    }
}

proof fn lemma_used_is_within(d: RetrievedView, index: int, windows: bool, seen: Seq<Seq<char>>, k: int)
    requires
        0 <= index < d.chunks.len(),
        0 <= k < used_with(d, index, windows, seen).len(),
    ensures
        holds_id(d.chunks, used_with(d, index, windows, seen)[k]),
{
    if windows {
        lemma_open_between_is_within(
            d.chunks,
            if index > 0 {
                index - 1
            } else {
                0
            },
            if index + 2 < d.chunks.len() {
                index + 2
            } else {
                d.chunks.len() as int
            },
            seen,
            k,
        );
    }
}

/// What the first pass over some documents has returned: the leading chunk of
/// each, as far as there is room.
spec fn led_by(e: Expansion, docs: Seq<RetrievedView>, top_k: int) -> bool {
    &&& e.output.len() == (if docs.len() <= top_k {
        docs.len() as int
    } else {
        top_k
    })
    &&& forall|i: int|
        0 <= i < e.output.len() ==> (#[trigger] e.output[i]).chunk_id
            == docs[i].chunks[docs[i].ranked[0] as int].id
    &&& forall|k: int|
        0 <= k < e.seen.len() ==> exists|a: int|
            0 <= a < docs.len() && holds_id((#[trigger] docs[a]).chunks, #[trigger] e.seen[k])
}

proof fn lemma_first_pass(docs: Seq<RetrievedView>, top_k: int, windows: bool)
    requires
        0 <= top_k,
        apart(docs),
        forall|a: int| 0 <= a < docs.len() ==> leads(#[trigger] docs[a]),
    ensures
        led_by(expanded_by(no_results(), docs, top_k, Some(1), windows), docs, top_k),
    decreases docs.len(),
{
    if docs.len() > 0 {
        let rest = docs.drop_last();
        assert forall|a: int, b: int, i: int, j: int|
            0 <= a < b < rest.len() && 0 <= i < rest[a].chunks.len() && 0 <= j
                < rest[b].chunks.len() implies (#[trigger] rest[a].chunks[i]).id != (
        #[trigger] rest[b].chunks[j]).id by {
            assert(docs[a].chunks[i].id != docs[b].chunks[j].id);
        }
        lemma_first_pass(rest, top_k, windows);
        let e = expanded_by(no_results(), rest, top_k, Some(1), windows);
        let d = docs.last();
        let index = d.ranked[0] as int;
        let done = expanded_from(e, d, 0, 0, top_k, Some(1), windows);
        assert(leads(docs[docs.len() - 1]));
        if e.output.len() < top_k {
            let id = d.chunks[index].id;
            if e.seen.contains(id) {
                let k = e.seen.index_of(id);
                assert(e.seen[k] == id);
                let a = choose|a: int|
                    0 <= a < rest.len() && holds_id((#[trigger] rest[a]).chunks, e.seen[k]);
                let i = choose|i: int|
                    0 <= i < rest[a].chunks.len() && (#[trigger] rest[a].chunks[i]).id == id;
                assert(docs[a].chunks[i].id != docs[docs.len() - 1].chunks[index].id);
            }
            assert(is_open_chunk(d.chunks[index], e.seen));
            let used = used_with(d, index, windows, e.seen);
            let next = Expansion {
                output: e.output.push(result_of(d, index, d.scores[0] as int, windows, e.seen)),
                seen: e.seen + used,
            };
            assert(done == expanded_from(next, d, 1, 1, top_k, Some(1), windows));
            assert(done == next);
            assert forall|k: int| 0 <= k < next.seen.len() implies exists|a: int|
                0 <= a < docs.len() && holds_id((#[trigger] docs[a]).chunks, #[trigger] next.seen[k]) by {
                if k < e.seen.len() {
                    assert(next.seen[k] == e.seen[k]);
                    let a = choose|a: int|
                        0 <= a < rest.len() && holds_id((#[trigger] rest[a]).chunks, e.seen[k]);
                    assert(holds_id(docs[a].chunks, next.seen[k]));
                } else {
                    lemma_used_is_within(d, index, windows, e.seen, k - e.seen.len());
                    assert(holds_id(docs[docs.len() - 1].chunks, next.seen[k]));
                }
            }
        } else {
            assert(done == e);
            assert forall|k: int| 0 <= k < e.seen.len() implies exists|a: int|
                0 <= a < docs.len() && holds_id((#[trigger] docs[a]).chunks, #[trigger] e.seen[k]) by {
                let a = choose|a: int|
                    0 <= a < rest.len() && holds_id((#[trigger] rest[a]).chunks, e.seen[k]);
                assert(holds_id(docs[a].chunks, e.seen[k]));
            }
        }
    }
}

/// Every document whose leading chunk can be returned is represented before any
/// document gets a second result, as far as there is room.
pub proof fn documents_are_represented_first(docs: Seq<RetrievedView>, top_k: nat, i: int)
    requires
        apart(docs),
        forall|a: int| 0 <= a < docs.len() ==> leads(#[trigger] docs[a]),
        0 <= i < docs.len(),
        i < top_k,
    ensures
        i < expanded(docs, top_k as int).output.len(),
        expanded(docs, top_k as int).output[i].chunk_id
            == docs[i].chunks[docs[i].ranked[0] as int].id,
{
    let windows = available_in_all(docs) > top_k;
    let first = expanded_by(no_results(), docs, top_k as int, Some(1), windows);
    lemma_first_pass(docs, top_k as int, windows);
    lemma_expanding_all_is_fair(no_results(), docs, top_k as int, Some(1), windows);
    lemma_expanding_all_is_fair(first, docs, top_k as int, None, windows);
    let all = expanded(docs, top_k as int);
    assert(all.output.take(first.output.len() as int)[i] == first.output[i]);
}

} // verus!
