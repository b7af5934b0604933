//! What the results of a search in the case library say about the documents that
//! they come from: which chunk a result is, what stands around it, and what is
//! left out.

use vstd::prelude::*;

use crate::api::ScoredView;
use crate::case_model::{ChunkView, SearchChunkView};
use crate::case_retrieval;
use crate::case_retrieval::{
    ChunkRank, DocumentRetrievalHit, Expansion, HitView, RetrievedView, MIN_RELEVANCE_PLACE,
};
use crate::json;
use crate::order;
use crate::order::Ordered;
use crate::text;

verus! {

/// The chunks that a result shows.
pub open spec fn shown_by(r: SearchChunkView) -> Seq<Seq<char>> {
    if r.context_chunk_ids.len() > 0 {
        r.context_chunk_ids
    } else {
        seq![r.chunk_id]
    }
}

/// The chunks that results show, one result after the other.
pub open spec fn shown_by_all(results: Seq<SearchChunkView>) -> Seq<Seq<char>>
    decreases results.len(),
{
    if results.len() == 0 {
        Seq::empty()
    } else {
        shown_by_all(results.drop_last()) + shown_by(results.last())
    }
}

/// Whether a document has a chunk at a place that may be shown and is not shown
/// yet.
pub open spec fn is_free_at(chunks: Seq<ChunkView>, p: int, shown: Seq<Seq<char>>) -> bool {
    0 <= p < chunks.len() && chunks[p].available && !shown.contains(chunks[p].id)
}

/// The id of the chunk at a place, if it is free.
pub open spec fn free_id(chunks: Seq<ChunkView>, p: int, shown: Seq<Seq<char>>) -> Seq<Seq<char>> {
    if is_free_at(chunks, p, shown) {
        seq![chunks[p].id]
    } else {
        Seq::empty()
    }
}

/// The text of the chunk at a place, if it is free and not blank.
pub open spec fn free_text(chunks: Seq<ChunkView>, p: int, shown: Seq<Seq<char>>) -> Seq<
    Seq<char>,
> {
    if is_free_at(chunks, p, shown) && !text::is_blank(chunks[p].content) {
        seq![text::trimmed(chunks[p].content)]
    } else {
        Seq::empty()
    }
}

/// Whether a result is the chunk at a place in the order of a document. With
/// context it shows the chunk before and the chunk after it too, where these are
/// free, in the order of the document.
pub open spec fn is_result_of(
    r: SearchChunkView,
    d: RetrievedView,
    rank: int,
    shown: Seq<Seq<char>>,
    with_context: bool,
) -> bool {
    let k = d.ranked[rank] as int;
    let c = d.chunks[k];
    &&& 0 <= rank < d.ranked.len()
    &&& is_free_at(d.chunks, k, shown)
    &&& d.scores[rank] >= MIN_RELEVANCE_PLACE
    &&& r.score == d.scores[rank]
    &&& r.chunk_id == c.id
    &&& r.dataset_id == c.dataset_id
    &&& r.document_id == c.document_id
    &&& r.source_name == Some(d.document.name)
    &&& r.source_path == Some(d.document.file_path)
    &&& if with_context {
        let ids = free_id(d.chunks, k - 1, shown) + free_id(d.chunks, k, shown) + free_id(
            d.chunks,
            k + 1,
            shown,
        );
        let texts = free_text(d.chunks, k - 1, shown) + free_text(d.chunks, k, shown) + free_text(
            d.chunks,
            k + 1,
            shown,
        );
        &&& shown_by(r) == ids
        &&& r.context_chunk_ids.len() != 1
        &&& r.content == text::joined(texts, "\n\n"@)
    } else {
        r.content == c.content && r.context_chunk_ids.len() == 0
    }
}

/// Whether a result is one of some documents, after the results before it.
pub open spec fn is_result_at(
    results: Seq<SearchChunkView>,
    i: int,
    docs: Seq<RetrievedView>,
    with_context: bool,
) -> bool {
    exists|a: int, rank: int|
        0 <= a < docs.len() && #[trigger] is_result_of(
            results[i],
            docs[a],
            rank,
            shown_by_all(results.take(i)),
            with_context,
        )
}

/// How many chunks of some documents may be shown.
pub open spec fn showable(docs: Seq<RetrievedView>) -> nat
    decreases docs.len(),
{
    if docs.len() == 0 {
        0
    } else {
        showable(docs.drop_last()) + docs.last().chunks.filter(|c: ChunkView| c.available).len()
    }
}

spec fn explained(e: Expansion, docs: Seq<RetrievedView>, with_context: bool) -> bool {
    &&& e.seen == shown_by_all(e.output)
    &&& forall|i: int|
        0 <= i < e.output.len() ==> #[trigger] is_result_at(e.output, i, docs, with_context)
}

proof fn lemma_window(chunks: Seq<ChunkView>, k: int, shown: Seq<Seq<char>>)
    requires
        0 <= k < chunks.len(),
    ensures
        ({
            let near = case_retrieval::window(chunks, k, shown);
            &&& case_retrieval::chunk_ids(near) == free_id(chunks, k - 1, shown) + free_id(
                chunks,
                k,
                shown,
            ) + free_id(chunks, k + 1, shown)
            &&& case_retrieval::said(near) == free_text(chunks, k - 1, shown) + free_text(
                chunks,
                k,
                shown,
            ) + free_text(chunks, k + 1, shown)
        }),
{
    let from = if k > 0 {
        k - 1
    } else {
        0
    };
    let to = if k + 2 < chunks.len() {
        k + 2
    } else {
        chunks.len() as int
    };
    let none = Seq::<ChunkView>::empty();
    assert(case_retrieval::open_between(chunks, from, from, shown) == none);
    assert(case_retrieval::chunk_ids(none) =~= Seq::<Seq<char>>::empty());
    assert(case_retrieval::said(none) =~= Seq::<Seq<char>>::empty());
    if k > 0 {
        lemma_window_grows(chunks, from, k, shown);
    }
    lemma_window_grows(chunks, from, k + 1, shown);
    if k + 1 < chunks.len() {
        lemma_window_grows(chunks, from, k + 2, shown);
    }
    let near = case_retrieval::window(chunks, k, shown);
    assert(case_retrieval::chunk_ids(near) =~= free_id(chunks, k - 1, shown) + free_id(
        chunks,
        k,
        shown,
    ) + free_id(chunks, k + 1, shown));
    assert(case_retrieval::said(near) =~= free_text(chunks, k - 1, shown) + free_text(
        chunks,
        k,
        shown,
    ) + free_text(chunks, k + 1, shown));
}

proof fn lemma_window_grows(chunks: Seq<ChunkView>, from: int, to: int, shown: Seq<Seq<char>>)
    requires
        0 <= from < to <= chunks.len(),
    ensures
        ({
            let before = case_retrieval::open_between(chunks, from, to - 1, shown);
            let all = case_retrieval::open_between(chunks, from, to, shown);
            &&& case_retrieval::chunk_ids(all) == case_retrieval::chunk_ids(before) + free_id(
                chunks,
                to - 1,
                shown,
            )
            &&& case_retrieval::said(all) == case_retrieval::said(before) + free_text(
                chunks,
                to - 1,
                shown,
            )
        }),
{
    let before = case_retrieval::open_between(chunks, from, to - 1, shown);
    let all = case_retrieval::open_between(chunks, from, to, shown);
    if is_free_at(chunks, to - 1, shown) {
        assert(all == before.push(chunks[to - 1]));
        assert(all.drop_last() =~= before);
    } else {
        assert(all == before);
    }
    assert(case_retrieval::chunk_ids(all) =~= case_retrieval::chunk_ids(before) + free_id(
        chunks,
        to - 1,
        shown,
    ));
    assert(case_retrieval::said(all) =~= case_retrieval::said(before) + free_text(
        chunks,
        to - 1,
        shown,
    ));
}

proof fn lemma_result_is_explained(
    e: Expansion,
    docs: Seq<RetrievedView>,
    a: int,
    rank: int,
    with_context: bool,
)
    requires
        explained(e, docs, with_context),
        0 <= a < docs.len(),
        0 <= rank < docs[a].ranked.len(),
        is_free_at(docs[a].chunks, docs[a].ranked[rank] as int, e.seen),
        docs[a].scores[rank] >= MIN_RELEVANCE_PLACE,
    ensures
        ({
            let d = docs[a];
            let k = d.ranked[rank] as int;
            explained(
                Expansion {
                    output: e.output.push(
                        case_retrieval::result_of(
                            d,
                            k,
                            d.scores[rank] as int,
                            with_context,
                            e.seen,
                        ),
                    ),
                    seen: e.seen + case_retrieval::used_with(d, k, with_context, e.seen),
                },
                docs,
                with_context,
            )
        }),
{
    let d = docs[a];
    let k = d.ranked[rank] as int;
    let r = case_retrieval::result_of(d, k, d.scores[rank] as int, with_context, e.seen);
    let used = case_retrieval::used_with(d, k, with_context, e.seen);
    let output = e.output.push(r);
    lemma_window(d.chunks, k, e.seen);
    if with_context {
        let ids = case_retrieval::chunk_ids(case_retrieval::window(d.chunks, k, e.seen));
        assert(ids.len() >= 1);
        if ids.len() == 1 {
            assert(ids =~= seq![d.chunks[k].id]);
        }
        assert(shown_by(r) =~= ids);
    } else {
        assert(r.context_chunk_ids =~= Seq::<Seq<char>>::empty());
    }
    assert(shown_by(r) == used);
    assert(output.drop_last() =~= e.output);
    let n = e.output.len() as int;
    assert(output.take(n) =~= e.output);
    assert(is_result_of(output[n], docs[a], rank, shown_by_all(output.take(n)), with_context));
    assert forall|i: int| 0 <= i < output.len() implies #[trigger] is_result_at(
        output,
        i,
        docs,
        with_context,
    ) by {
        if i < n {
            assert(output.take(i) =~= e.output.take(i));
            assert(is_result_at(e.output, i, docs, with_context));
            let (b, q) = choose|b: int, q: int|
                0 <= b < docs.len() && #[trigger] is_result_of(
                    e.output[i],
                    docs[b],
                    q,
                    shown_by_all(e.output.take(i)),
                    with_context,
                );
            assert(is_result_of(
                output[i],
                docs[b],
                q,
                shown_by_all(output.take(i)),
                with_context,
            ));
        }
    }
}

proof fn lemma_expanding_is_explained(
    e: Expansion,
    docs: Seq<RetrievedView>,
    a: int,
    rank: int,
    added: int,
    top_k: int,
    limit: Option<usize>,
    with_context: bool,
)
    requires
        explained(e, docs, with_context),
        0 <= a < docs.len(),
        0 <= rank,
    ensures
        explained(
            case_retrieval::expanded_from(e, docs[a], rank, added, top_k, limit, with_context),
            docs,
            with_context,
        ),
    decreases docs[a].ranked.len() - rank,
{
    let d = docs[a];
    if rank >= d.ranked.len() || e.output.len() >= top_k || (limit is Some && added >= limit->0) {
    } else {
        let k = d.ranked[rank] as int;
        if k >= d.chunks.len() || !case_retrieval::is_open_chunk(d.chunks[k], e.seen) {
            lemma_expanding_is_explained(e, docs, a, rank + 1, added, top_k, limit, with_context);
        } else if d.scores[rank] < MIN_RELEVANCE_PLACE {
        } else {
            lemma_result_is_explained(e, docs, a, rank, with_context);
            let next = Expansion {
                output: e.output.push(
                    case_retrieval::result_of(
                        d,
                        k,
                        d.scores[rank] as int,
                        with_context,
                        e.seen,
                    ),
                ),
                seen: e.seen + case_retrieval::used_with(d, k, with_context, e.seen),
            };
            lemma_expanding_is_explained(
                next,
                docs,
                a,
                rank + 1,
                added + 1,
                top_k,
                limit,
                with_context,
            );
        }
    }
}

proof fn lemma_expanding_all_is_explained(
    e: Expansion,
    docs: Seq<RetrievedView>,
    n: int,
    top_k: int,
    limit: Option<usize>,
    with_context: bool,
)
    requires
        explained(e, docs, with_context),
        0 <= n <= docs.len(),
    ensures
        explained(
            case_retrieval::expanded_by(e, docs.take(n), top_k, limit, with_context),
            docs,
            with_context,
        ),
    decreases n,
{
    if n > 0 {
        lemma_expanding_all_is_explained(e, docs, n - 1, top_k, limit, with_context);
        assert(docs.take(n).drop_last() =~= docs.take(n - 1));
        lemma_expanding_is_explained(
            case_retrieval::expanded_by(e, docs.take(n - 1), top_k, limit, with_context),
            docs,
            n - 1,
            0,
            0,
            top_k,
            limit,
            with_context,
        );
    }
}

proof fn lemma_showable(docs: Seq<RetrievedView>)
    ensures
        case_retrieval::available_in_all(docs) == showable(docs),
    decreases docs.len(),
{
    if docs.len() > 0 {
        lemma_showable(docs.drop_last());
        lemma_available(docs.last().chunks);
    }
}

proof fn lemma_available(chunks: Seq<ChunkView>)
    ensures
        case_retrieval::available_count(chunks) == chunks.filter(
            |c: ChunkView| c.available,
        ).len(),
    decreases chunks.len(),
{
    reveal(Seq::filter);
    if chunks.len() > 0 {
        lemma_available(chunks.drop_last());
    }
}

/// Every result is a chunk of one of the documents that may be shown, that no
/// earlier result shows and that scores high enough, under its own score. Where
/// there are more chunks than results are wanted it shows the chunks next to it
/// as well, before and after, as far as these are there and not shown yet, and
/// no others; else it shows its own chunk alone.
pub proof fn results_show_their_context(docs: Seq<RetrievedView>, top_k: nat, i: int)
    requires
        0 <= i < case_retrieval::expanded(docs, top_k as int).output.len(),
    ensures
        is_result_at(
            case_retrieval::expanded(docs, top_k as int).output,
            i,
            docs,
            showable(docs) > top_k,
        ),
{
    let k = top_k as int;
    let with_context = showable(docs) > top_k;
    lemma_showable(docs);
    let start = case_retrieval::no_results();
    let n = docs.len() as int;
    assert(docs.take(n) =~= docs);
    assert(explained(start, docs, with_context));
    lemma_expanding_all_is_explained(start, docs, n, k, Some(1), with_context);
    let first = case_retrieval::expanded_by(start, docs, k, Some(1), with_context);
    lemma_expanding_all_is_explained(first, docs, n, k, None, with_context);
}

/// Whether the places of a document up to a rank score high enough.
pub open spec fn scores_up_to(d: RetrievedView, rank: int) -> bool {
    &&& 0 <= rank < d.ranked.len()
    &&& forall|q: int| 0 <= q <= rank ==> #[trigger] d.scores[q] >= MIN_RELEVANCE_PLACE
}

proof fn lemma_expanding_keeps_seen(
    e: Expansion,
    d: RetrievedView,
    rank: int,
    added: int,
    top_k: int,
    limit: Option<usize>,
    windows: bool,
)
    requires
        0 <= rank,
    ensures
        forall|id: Seq<char>| #[trigger]
            e.seen.contains(id) ==> case_retrieval::expanded_from(
                e,
                d,
                rank,
                added,
                top_k,
                limit,
                windows,
            ).seen.contains(id),
        case_retrieval::expanded_from(e, d, rank, added, top_k, limit, windows).output.len()
            >= e.output.len(),
    decreases d.ranked.len() - rank,
{
    if rank >= d.ranked.len() || e.output.len() >= top_k || (limit is Some && added >= limit->0) {
    } else {
        let k = d.ranked[rank] as int;
        if k >= d.chunks.len() || !case_retrieval::is_open_chunk(d.chunks[k], e.seen) {
            lemma_expanding_keeps_seen(e, d, rank + 1, added, top_k, limit, windows);
        } else if d.scores[rank] < MIN_RELEVANCE_PLACE {
        } else {
            let used = case_retrieval::used_with(d, k, windows, e.seen);
            let next = Expansion {
                output: e.output.push(
                    case_retrieval::result_of(d, k, d.scores[rank] as int, windows, e.seen),
                ),
                seen: e.seen + used,
            };
            assert forall|id: Seq<char>| #[trigger] e.seen.contains(id) implies next.seen.contains(
                id,
            ) by {
                let m = e.seen.index_of(id);
                assert(next.seen[m] == id);
            }
            lemma_expanding_keeps_seen(next, d, rank + 1, added + 1, top_k, limit, windows);
        }
    }
}

proof fn lemma_nothing_is_missed(
    e: Expansion,
    d: RetrievedView,
    rank: int,
    added: int,
    top_k: int,
    windows: bool,
    q: int,
)
    requires
        0 <= rank <= q,
        scores_up_to(d, q),
        (d.ranked[q] as int) < d.chunks.len(),
        d.chunks[d.ranked[q] as int].available,
    ensures
        ({
            let done = case_retrieval::expanded_from(e, d, rank, added, top_k, None, windows);
            done.output.len() >= top_k || done.seen.contains(d.chunks[d.ranked[q] as int].id)
        }),
    decreases d.ranked.len() - rank,
{
    let done = case_retrieval::expanded_from(e, d, rank, added, top_k, None, windows);
    if e.output.len() < top_k {
        let k = d.ranked[rank] as int;
        if k >= d.chunks.len() || !case_retrieval::is_open_chunk(d.chunks[k], e.seen) {
            assert(done == case_retrieval::expanded_from(
                e,
                d,
                rank + 1,
                added,
                top_k,
                None,
                windows,
            ));
            if rank == q {
                assert(e.seen.contains(d.chunks[k].id));
                lemma_expanding_keeps_seen(e, d, rank + 1, added, top_k, None, windows);
            } else {
                lemma_nothing_is_missed(e, d, rank + 1, added, top_k, windows, q);
            }
        } else {
            assert(d.scores[rank] >= MIN_RELEVANCE_PLACE);
            let used = case_retrieval::used_with(d, k, windows, e.seen);
            let next = Expansion {
                output: e.output.push(
                    case_retrieval::result_of(d, k, d.scores[rank] as int, windows, e.seen),
                ),
                seen: e.seen + used,
            };
            assert(done == case_retrieval::expanded_from(
                next,
                d,
                rank + 1,
                added + 1,
                top_k,
                None,
                windows,
            ));
            if rank == q {
                lemma_window(d.chunks, k, e.seen);
                let ids = free_id(d.chunks, k - 1, e.seen);
                assert(used[if windows {
                    ids.len() as int
                } else {
                    0
                }] == d.chunks[k].id);
                assert(next.seen[e.seen.len() + (if windows {
                    ids.len() as int
                } else {
                    0
                })] == d.chunks[k].id);
                assert(next.seen.contains(d.chunks[k].id));
                lemma_expanding_keeps_seen(next, d, rank + 1, added + 1, top_k, None, windows);
            } else {
                lemma_nothing_is_missed(next, d, rank + 1, added + 1, top_k, windows, q);
            }
        }
    }
}

proof fn lemma_nothing_is_missed_in_all(
    e: Expansion,
    docs: Seq<RetrievedView>,
    n: int,
    top_k: int,
    windows: bool,
    a: int,
    q: int,
)
    requires
        0 <= a < n <= docs.len(),
        scores_up_to(docs[a], q),
        (docs[a].ranked[q] as int) < docs[a].chunks.len(),
        docs[a].chunks[docs[a].ranked[q] as int].available,
    ensures
        ({
            let done = case_retrieval::expanded_by(e, docs.take(n), top_k, None, windows);
            done.output.len() >= top_k || done.seen.contains(
                docs[a].chunks[docs[a].ranked[q] as int].id,
            )
        }),
    decreases n,
{
    assert(docs.take(n).drop_last() =~= docs.take(n - 1));
    let before = case_retrieval::expanded_by(e, docs.take(n - 1), top_k, None, windows);
    if a == n - 1 {
        lemma_nothing_is_missed(before, docs[a], 0, 0, top_k, windows, q);
    } else {
        lemma_nothing_is_missed_in_all(e, docs, n - 1, top_k, windows, a, q);
        let id = docs[a].chunks[docs[a].ranked[q] as int].id;
        assert(before.output.len() >= top_k || before.seen.contains(id));
        lemma_expanding_keeps_seen(before, docs[n - 1], 0, 0, top_k, None, windows);
    }
}

/// Nothing relevant is left out: where there are fewer results than wanted, every
/// chunk that may be shown is shown by one of them, as long as it and all that go
/// before it in the order of its document score high enough.
pub proof fn results_miss_no_relevant_chunk(
    docs: Seq<RetrievedView>,
    top_k: nat,
    a: int,
    rank: int,
)
    requires
        0 <= a < docs.len(),
        scores_up_to(docs[a], rank),
        (docs[a].ranked[rank] as int) < docs[a].chunks.len(),
        docs[a].chunks[docs[a].ranked[rank] as int].available,
        case_retrieval::expanded(docs, top_k as int).output.len() < top_k,
    ensures
        exists|i: int|
            0 <= i < case_retrieval::expanded(docs, top_k as int).output.len() && shown_by(
                #[trigger] case_retrieval::expanded(docs, top_k as int).output[i],
            ).contains(docs[a].chunks[docs[a].ranked[rank] as int].id),
{
    let k = top_k as int;
    let windows = showable(docs) > top_k;
    let id = docs[a].chunks[docs[a].ranked[rank] as int].id;
    lemma_showable(docs);
    let start = case_retrieval::no_results();
    let n = docs.len() as int;
    assert(docs.take(n) =~= docs);
    assert(explained(start, docs, windows));
    lemma_expanding_all_is_explained(start, docs, n, k, Some(1), windows);
    let first = case_retrieval::expanded_by(start, docs, k, Some(1), windows);
    lemma_expanding_all_is_explained(first, docs, n, k, None, windows);
    lemma_nothing_is_missed_in_all(first, docs, n, k, windows, a, rank);
    let output = case_retrieval::expanded(docs, k).output;
    assert(shown_by_all(output).contains(id));
    let i = lemma_shown_by_one(output, id);
    assert(shown_by(output[i]).contains(id));
}

proof fn lemma_shown_by_one(results: Seq<SearchChunkView>, id: Seq<char>) -> (i: int)
    requires
        shown_by_all(results).contains(id),
    ensures
        0 <= i < results.len(),
        shown_by(results[i]).contains(id),
    decreases results.len(),
{
    let before = shown_by_all(results.drop_last());
    let last = shown_by(results.last());
    let m = (before + last).index_of(id);
    assert((before + last)[m] == id);
    if m < before.len() {
        assert(before[m] == id);
        lemma_shown_by_one(results.drop_last(), id)
    } else {
        assert(last[m - before.len()] == id);
        results.len() - 1
    }
}

/// Whether a result belongs to a document.
pub open spec fn belongs_to(x: ScoredView, document_id: Seq<char>) -> bool {
    json::json_get(x.record.metadata, "document_id"@) == Some(json::JsonView::Text(document_id))
}

/// Whether a result is a chunk of a document, and not its summary.
pub open spec fn is_chunk_of(x: ScoredView, document_id: Seq<char>, chunk_id: Seq<char>) -> bool {
    &&& belongs_to(x, document_id)
    &&& json::json_get(x.record.metadata, "chunk_id"@) == Some(json::JsonView::Text(chunk_id))
    &&& json::json_get(x.record.metadata, "record_kind"@) != Some(
        json::JsonView::Text("document_summary"@),
    )
}

/// Whether a number is the highest score of the results that fit.
pub open spec fn is_best_score(
    results: Seq<ScoredView>,
    fits: spec_fn(ScoredView) -> bool,
    score: int,
) -> bool {
    &&& exists|i: int|
        0 <= i < results.len() && fits(#[trigger] results[i]) && results[i].score == score
    &&& forall|i: int|
        0 <= i < results.len() && fits(#[trigger] results[i]) ==> results[i].score <= score
}

/// Whether a hit is what results say of its document: the best score of them,
/// the rank of the first, and for each of its chunks the best score.
pub open spec fn is_hit_of(h: HitView, results: Seq<ScoredView>) -> bool {
    &&& is_best_score(results, |x: ScoredView| belongs_to(x, h.document_id), h.best_score)
    &&& 0 <= h.first_seen_rank < results.len()
    &&& belongs_to(results[h.first_seen_rank], h.document_id)
    &&& forall|i: int|
        0 <= i < h.first_seen_rank ==> !belongs_to(#[trigger] results[i], h.document_id)
    &&& forall|k: int|
        0 <= k < h.chunk_scores.len() ==> is_best_score(
            results,
            |x: ScoredView| is_chunk_of(x, h.document_id, (#[trigger] h.chunk_scores[k]).0),
            h.chunk_scores[k].1,
        )
    &&& forall|i: int, chunk_id: Seq<char>|
        0 <= i < results.len() && #[trigger] is_chunk_of(results[i], h.document_id, chunk_id)
            ==> has_score(h, chunk_id)
}

/// Whether a hit has a score for a chunk.
pub open spec fn has_score(h: HitView, chunk_id: Seq<char>) -> bool {
    exists|k: int| 0 <= k < h.chunk_scores.len() && (#[trigger] h.chunk_scores[k]).0 == chunk_id
}

proof fn lemma_best_score_stays(
    results: Seq<ScoredView>,
    fits: spec_fn(ScoredView) -> bool,
    score: int,
)
    requires
        results.len() > 0,
        is_best_score(results.drop_last(), fits, score),
        !fits(results.last()),
    ensures
        is_best_score(results, fits, score),
{
    let front = results.drop_last();
    let i = choose|i: int|
        0 <= i < front.len() && fits(#[trigger] front[i]) && front[i].score == score;
    assert(fits(results[i]) && results[i].score == score);
    assert forall|j: int| 0 <= j < results.len() && fits(#[trigger] results[j]) implies results[j].score
        <= score by {
        if j < front.len() {
            assert(front[j] == results[j]);
        }
    }
}

proof fn lemma_best_score_grows(
    results: Seq<ScoredView>,
    fits: spec_fn(ScoredView) -> bool,
    score: int,
)
    requires
        results.len() > 0,
        is_best_score(results.drop_last(), fits, score),
        fits(results.last()),
    ensures
        is_best_score(results, fits, case_retrieval::better_of(score, results.last().score)),
{
    let front = results.drop_last();
    let best = case_retrieval::better_of(score, results.last().score);
    let i = choose|i: int|
        0 <= i < front.len() && fits(#[trigger] front[i]) && front[i].score == score;
    assert(fits(results[i]) && results[i].score == score);
    assert(fits(results[results.len() - 1]));
    assert forall|j: int| 0 <= j < results.len() && fits(#[trigger] results[j]) implies results[j].score
        <= best by {
        if j < front.len() {
            assert(front[j] == results[j]);
        }
    }
}

proof fn lemma_first_score(results: Seq<ScoredView>, fits: spec_fn(ScoredView) -> bool)
    requires
        results.len() > 0,
        fits(results.last()),
        forall|i: int| 0 <= i < results.len() - 1 ==> !fits(#[trigger] results[i]),
    ensures
        is_best_score(results, fits, results.last().score),
{
    assert(fits(results[results.len() - 1]));
}

/// Whether the scores of a hit are those of the chunks of its document.
spec fn scores_are_best(
    scores: Seq<(Seq<char>, int)>,
    document_id: Seq<char>,
    results: Seq<ScoredView>,
) -> bool {
    &&& forall|k: int|
        0 <= k < scores.len() ==> is_best_score(
            results,
            |x: ScoredView| is_chunk_of(x, document_id, (#[trigger] scores[k]).0),
            scores[k].1,
        )
    &&& forall|i: int, j: int|
        0 <= i < j < scores.len() ==> (#[trigger] scores[i]).0 != (#[trigger] scores[j]).0
    &&& forall|i: int, chunk_id: Seq<char>|
        0 <= i < results.len() && #[trigger] is_chunk_of(results[i], document_id, chunk_id)
            ==> exists|k: int| 0 <= k < scores.len() && (#[trigger] scores[k]).0 == chunk_id
}

proof fn lemma_score_index(scores: Seq<(Seq<char>, int)>, id: Seq<char>)
    ensures
        0 <= case_retrieval::score_index(scores, id) <= scores.len(),
        case_retrieval::score_index(scores, id) < scores.len()
            ==> scores[case_retrieval::score_index(scores, id)].0 == id,
        forall|k: int|
            0 <= k < case_retrieval::score_index(scores, id) ==> (#[trigger] scores[k]).0 != id,
    decreases scores.len(),
{
    if scores.len() > 0 && scores[0].0 != id {
        let rest = scores.drop_first();
        lemma_score_index(rest, id);
        assert forall|k: int| 0 <= k < case_retrieval::score_index(scores, id) implies (
        #[trigger] scores[k]).0 != id by {
            if k > 0 {
                assert(scores[k] == rest[k - 1]);
            }
        }
    }
}

proof fn lemma_result_score(
    scores: Seq<(Seq<char>, int)>,
    document_id: Seq<char>,
    results: Seq<ScoredView>,
)
    requires
        results.len() > 0,
        scores_are_best(scores, document_id, results.drop_last()),
    ensures
        belongs_to(results.last(), document_id) ==> scores_are_best(
            case_retrieval::with_result_score(
                scores,
                results.last().record.metadata,
                results.last().score,
            ),
            document_id,
            results,
        ),
        !belongs_to(results.last(), document_id) ==> scores_are_best(
            scores,
            document_id,
            results,
        ),
{
    let front = results.drop_last();
    let x = results.last();
    let after = if belongs_to(x, document_id) {
        case_retrieval::with_result_score(scores, x.record.metadata, x.score)
    } else {
        scores
    };
    let counts = belongs_to(x, document_id) && json::json_get_text(
        x.record.metadata,
        "record_kind"@,
    ) != Some("document_summary"@) && json::json_get_text(x.record.metadata, "chunk_id"@) is Some;
    let id = json::json_get_text(x.record.metadata, "chunk_id"@)->0;
    let at = case_retrieval::score_index(scores, id);
    lemma_score_index(scores, id);
    assert forall|k: int| 0 <= k < after.len() implies is_best_score(
        results,
        |y: ScoredView| is_chunk_of(y, document_id, (#[trigger] after[k]).0),
        after[k].1,
    ) by {
        let fits = |y: ScoredView| is_chunk_of(y, document_id, after[k].0);
        if k < scores.len() {
            assert(after[k].0 == scores[k].0);
            assert(is_best_score(
                front,
                |y: ScoredView| is_chunk_of(y, document_id, scores[k].0),
                scores[k].1,
            ));
            assert((|y: ScoredView| is_chunk_of(y, document_id, scores[k].0)) =~= fits);
            if counts && k == at {
                lemma_best_score_grows(results, fits, scores[k].1);
            } else {
                if counts && at < scores.len() {
                    if k < at {
                        assert(scores[k].0 != scores[at].0);
                    } else {
                        assert(scores[at].0 != scores[k].0);
                    }
                }
                assert(!fits(x));
                lemma_best_score_stays(results, fits, scores[k].1);
            }
        } else {
            assert forall|i: int| 0 <= i < results.len() - 1 implies !fits(
                #[trigger] results[i],
            ) by {
                assert(front[i] == results[i]);
                if is_chunk_of(front[i], document_id, id) {
                    let j = choose|j: int| 0 <= j < scores.len() && (#[trigger] scores[j]).0 == id;
                    assert(false);
                }
            }
            lemma_first_score(results, fits);
        }
    }
    assert forall|i: int, j: int| 0 <= i < j < after.len() implies (#[trigger] after[i]).0 != (
    #[trigger] after[j]).0 by {
        if j < scores.len() {
            assert(scores[i].0 != scores[j].0);
        }
    }
    assert forall|i: int, chunk_id: Seq<char>|
        0 <= i < results.len() && #[trigger] is_chunk_of(
            results[i],
            document_id,
            chunk_id,
        ) implies exists|k: int| 0 <= k < after.len() && (#[trigger] after[k]).0 == chunk_id by {
        if i < front.len() {
            assert(is_chunk_of(front[i], document_id, chunk_id));
            let k = choose|k: int| 0 <= k < scores.len() && (#[trigger] scores[k]).0 == chunk_id;
            assert(after[k].0 == chunk_id);
        } else {
            assert(counts && chunk_id == id);
            if at < scores.len() {
                assert(after[at].0 == id);
            } else {
                assert(after[scores.len() as int].0 == id);
            }
        }
    }
}

spec fn hits_are_sound(hits: Seq<HitView>, results: Seq<ScoredView>) -> bool {
    &&& forall|k: int|
        0 <= k < hits.len() ==> is_hit_of(#[trigger] hits[k], results) && scores_are_best(
            hits[k].chunk_scores,
            hits[k].document_id,
            results,
        )
    &&& forall|i: int, j: int|
        0 <= i < j < hits.len() ==> (#[trigger] hits[i]).document_id != (
        #[trigger] hits[j]).document_id
    &&& forall|i: int, id: Seq<char>|
        0 <= i < results.len() && #[trigger] belongs_to(results[i], id) ==> is_hit(hits, id)
}

/// Whether there is a hit of a document.
pub open spec fn is_hit(hits: Seq<HitView>, document_id: Seq<char>) -> bool {
    exists|k: int| 0 <= k < hits.len() && (#[trigger] hits[k]).document_id == document_id
}

proof fn lemma_hit_index(hits: Seq<HitView>, id: Seq<char>)
    ensures
        0 <= case_retrieval::hit_index(hits, id) <= hits.len(),
        case_retrieval::hit_index(hits, id) < hits.len()
            ==> hits[case_retrieval::hit_index(hits, id)].document_id == id,
        forall|k: int|
            0 <= k < case_retrieval::hit_index(hits, id) ==> (#[trigger] hits[k]).document_id != id,
    decreases hits.len(),
{
    if hits.len() > 0 && hits[0].document_id != id {
        let rest = hits.drop_first();
        lemma_hit_index(rest, id);
        assert forall|k: int| 0 <= k < case_retrieval::hit_index(hits, id) implies (
        #[trigger] hits[k]).document_id != id by {
            if k > 0 {
                assert(hits[k] == rest[k - 1]);
            }
        }
    }
}

/// A hit whose document gets no further result, or one more, is still sound.
proof fn lemma_hit_goes_on(h: HitView, now: HitView, results: Seq<ScoredView>)
    requires
        results.len() > 0,
        is_hit_of(h, results.drop_last()),
        scores_are_best(h.chunk_scores, h.document_id, results.drop_last()),
        now.document_id == h.document_id,
        now.first_seen_rank == h.first_seen_rank,
        belongs_to(results.last(), h.document_id) ==> now.best_score == case_retrieval::better_of(
            h.best_score,
            results.last().score,
        ) && now.chunk_scores == case_retrieval::with_result_score(
            h.chunk_scores,
            results.last().record.metadata,
            results.last().score,
        ),
        !belongs_to(results.last(), h.document_id) ==> now == h,
    ensures
        is_hit_of(now, results),
        scores_are_best(now.chunk_scores, now.document_id, results),
{
    let front = results.drop_last();
    let fits = |x: ScoredView| belongs_to(x, h.document_id);
    assert((|x: ScoredView| belongs_to(x, now.document_id)) =~= fits);
    if belongs_to(results.last(), h.document_id) {
        lemma_best_score_grows(results, fits, h.best_score);
    } else {
        lemma_best_score_stays(results, fits, h.best_score);
    }
    lemma_result_score(h.chunk_scores, h.document_id, results);
    assert(results[h.first_seen_rank] == front[h.first_seen_rank]);
    assert forall|i: int| 0 <= i < now.first_seen_rank implies !belongs_to(
        #[trigger] results[i],
        now.document_id,
    ) by {
        assert(front[i] == results[i]);
    }
    assert forall|i: int, chunk_id: Seq<char>|
        0 <= i < results.len() && #[trigger] is_chunk_of(
            results[i],
            now.document_id,
            chunk_id,
        ) implies has_score(now, chunk_id) by {}
    assert forall|k: int| 0 <= k < now.chunk_scores.len() implies is_best_score(
        results,
        |x: ScoredView| is_chunk_of(x, now.document_id, (#[trigger] now.chunk_scores[k]).0),
        now.chunk_scores[k].1,
    ) by {}
}

proof fn lemma_hits(results: Seq<ScoredView>)
    ensures
        hits_are_sound(case_retrieval::hits_of(results), results),
    decreases results.len(),
{
    let hits = case_retrieval::hits_of(results);
    if results.len() > 0 {
        let front = results.drop_last();
        let x = results.last();
        lemma_hits(front);
        let before = case_retrieval::hits_of(front);
        match json::json_get_text(x.record.metadata, "document_id"@) {
            None => {
                assert(forall|id: Seq<char>| !belongs_to(x, id));
                assert forall|k: int| 0 <= k < hits.len() implies is_hit_of(
                    #[trigger] hits[k],
                    results,
                ) && scores_are_best(hits[k].chunk_scores, hits[k].document_id, results) by {
                    lemma_hit_goes_on(before[k], hits[k], results);
                }
            },
            Some(id) => {
                let at = case_retrieval::hit_index(before, id);
                lemma_hit_index(before, id);
                assert(belongs_to(x, id));
                assert(forall|other: Seq<char>| #[trigger] belongs_to(x, other) ==> other == id);
                assert forall|k: int| 0 <= k < hits.len() implies is_hit_of(
                    #[trigger] hits[k],
                    results,
                ) && scores_are_best(hits[k].chunk_scores, hits[k].document_id, results) by {
                    if k < before.len() {
                        if k != at && at < before.len() {
                            if k < at {
                                assert(before[k].document_id != before[at].document_id);
                            } else {
                                assert(before[at].document_id != before[k].document_id);
                            }
                        }
                        lemma_hit_goes_on(before[k], hits[k], results);
                    } else {
                        lemma_new_hit(before, results, id, hits[k]);
                    }
                }
                assert forall|i: int, j: int| 0 <= i < j < hits.len() implies (
                #[trigger] hits[i]).document_id != (#[trigger] hits[j]).document_id by {
                    if j < before.len() {
                        assert(before[i].document_id != before[j].document_id);
                    }
                }
            },
        }
        assert forall|i: int, id: Seq<char>|
            0 <= i < results.len() && #[trigger] belongs_to(results[i], id) implies is_hit(
            hits,
            id,
        ) by {
            lemma_hit_index(before, id);
            if i < front.len() {
                assert(belongs_to(front[i], id));
                let k = choose|k: int|
                    0 <= k < before.len() && (#[trigger] before[k]).document_id == id;
                assert(hits[k].document_id == id);
            } else {
                let at = case_retrieval::hit_index(before, id);
                if at < before.len() {
                    assert(hits[at].document_id == id);
                } else {
                    assert(hits[before.len() as int].document_id == id);
                }
            }
        }
    }
}

proof fn lemma_new_hit(before: Seq<HitView>, results: Seq<ScoredView>, id: Seq<char>, h: HitView)
    requires
        results.len() > 0,
        hits_are_sound(before, results.drop_last()),
        belongs_to(results.last(), id),
        case_retrieval::hit_index(before, id) == before.len(),
        h == (HitView {
            document_id: id,
            best_score: results.last().score,
            first_seen_rank: results.len() - 1,
            chunk_scores: case_retrieval::with_result_score(
                Seq::empty(),
                results.last().record.metadata,
                results.last().score,
            ),
        }),
    ensures
        is_hit_of(h, results),
        scores_are_best(h.chunk_scores, h.document_id, results),
{
    let front = results.drop_last();
    lemma_hit_index(before, id);
    let fits = |x: ScoredView| belongs_to(x, h.document_id);
    assert forall|i: int| 0 <= i < results.len() - 1 implies !belongs_to(
        #[trigger] results[i],
        id,
    ) by {
        assert(front[i] == results[i]);
        if belongs_to(front[i], id) {
            let k = choose|k: int| 0 <= k < before.len() && (#[trigger] before[k]).document_id == id;
            assert(false);
        }
    }
    lemma_first_score(results, fits);
    let none = Seq::<(Seq<char>, int)>::empty();
    assert(scores_are_best(none, id, front)) by {
        assert forall|i: int, chunk_id: Seq<char>|
            0 <= i < front.len() && #[trigger] is_chunk_of(front[i], id, chunk_id) implies exists|
            k: int,
        |
            0 <= k < none.len() && (#[trigger] none[k]).0 == chunk_id by {
            assert(results[i] == front[i]);
            assert(!belongs_to(results[i], id));
        }
    }
    lemma_result_score(none, id, results);
    assert forall|i: int, chunk_id: Seq<char>|
        0 <= i < results.len() && #[trigger] is_chunk_of(
            results[i],
            h.document_id,
            chunk_id,
        ) implies has_score(h, chunk_id) by {
        assert(scores_are_best(h.chunk_scores, id, results));
        assert(is_chunk_of(results[i], id, chunk_id));
        let k = choose|k: int|
            0 <= k < h.chunk_scores.len() && (#[trigger] h.chunk_scores[k]).0 == chunk_id;
        assert(h.chunk_scores[k].0 == chunk_id);
    }
    assert forall|k: int| 0 <= k < h.chunk_scores.len() implies is_best_score(
        results,
        |x: ScoredView| is_chunk_of(x, h.document_id, (#[trigger] h.chunk_scores[k]).0),
        h.chunk_scores[k].1,
    ) by {}
}

/// There is one hit for every document that a result belongs to. It has the best
/// score of these results, the rank of the first of them, and the best score of
/// each chunk of the document among them.
pub proof fn hits_tell_of_their_documents(results: Seq<ScoredView>, document_id: Seq<char>)
    ensures
        is_hit(case_retrieval::hits_of(results), document_id) <==> exists|i: int|
            0 <= i < results.len() && belongs_to(#[trigger] results[i], document_id),
        forall|k: int|
            0 <= k < case_retrieval::hits_of(results).len() ==> is_hit_of(
                #[trigger] case_retrieval::hits_of(results)[k],
                results,
            ),
        forall|i: int, j: int|
            0 <= i < j < case_retrieval::hits_of(results).len() ==> (
            #[trigger] case_retrieval::hits_of(results)[i]).document_id != (
            #[trigger] case_retrieval::hits_of(results)[j]).document_id,
{
    lemma_hits(results);
    let hits = case_retrieval::hits_of(results);
    if is_hit(hits, document_id) {
        let k = choose|k: int| 0 <= k < hits.len() && (#[trigger] hits[k]).document_id == document_id;
        assert(belongs_to(results[hits[k].first_seen_rank], document_id));
    }
}

/// The chunks of a document are considered from the highest score to the lowest,
/// equal scores in the order of the document, and each of them once.
pub proof fn chunks_go_by_their_scores(scores: Seq<i32>, i: int, j: int)
    requires
        0 <= i < j < scores.len() <= usize::MAX,
    ensures
        ({
            let ranked = order::in_order(case_retrieval::chunk_ranks(scores));
            let (a, b) = (ranked[i].index as int, ranked[j].index as int);
            &&& ranked.len() == scores.len()
            &&& 0 <= a < scores.len() && 0 <= b < scores.len()
            &&& a != b
            &&& scores[a] > scores[b] || (scores[a] == scores[b] && a < b)
        }),
{
    broadcast use vstd::seq_lib::group_to_multiset_ensures;

    let given = case_retrieval::chunk_ranks(scores);
    let ranked = order::in_order(given);
    order::sorting_orders_and_keeps_all(given);
    lemma_rank_is_given(given, i);
    lemma_rank_is_given(given, j);
    assert(given.no_duplicates());
    given.lemma_multiset_has_no_duplicates();
    assert forall|x: ChunkRank| ranked.to_multiset().contains(x) implies #[trigger] ranked.to_multiset().count(
        x,
    ) == 1 by {
        assert(given.to_multiset().contains(x));
    }
    ranked.lemma_multiset_has_no_duplicates_conv();
    assert(ranked[i] != ranked[j]);
    assert(!(ranked[j].score > ranked[i].score || (ranked[j].score == ranked[i].score
        && ranked[j].index < ranked[i].index))) by {
        assert(order::is_ordered(ranked));
    }
}

proof fn lemma_rank_is_given(given: Seq<ChunkRank>, i: int)
    requires
        0 <= i < order::in_order(given).len(),
    ensures
        given.contains(order::in_order(given)[i]),
{
    broadcast use vstd::seq_lib::group_to_multiset_ensures;

    let ranked = order::in_order(given);
    order::sorting_orders_and_keeps_all(given);
    assert(ranked.contains(ranked[i]));
    assert(ranked.to_multiset().count(ranked[i]) > 0);
    assert(given.to_multiset().count(ranked[i]) > 0);
}

/// Documents go from the best score to the lowest, equal scores by the rank of
/// their first result, and none is lost.
pub proof fn documents_go_by_their_scores(s: Seq<DocumentRetrievalHit>, i: int, j: int)
    requires
        0 <= i < j < s.len(),
    ensures
        order::in_order(s).to_multiset() == s.to_multiset(),
        order::in_order(s).len() == s.len(),
        ({
            let (a, b) = (order::in_order(s)[i], order::in_order(s)[j]);
            a.best_score > b.best_score || (a.best_score == b.best_score && a.first_seen_rank
                <= b.first_seen_rank)
        }),
{
    order::sorting_orders_and_keeps_all(s);
    assert(!order::in_order(s)[j].precedes(&order::in_order(s)[i]));
}

/// The values that are kept are those that are marked, in their order.
pub proof fn marked_results_are_kept<T>(values: Seq<T>, keep: Seq<bool>, i: int)
    requires
        values.len() <= keep.len(),
        0 <= i < values.len(),
    ensures
        keep[i] ==> order::marked(values, keep).contains(values[i]),
        forall|k: int|
            0 <= k < order::marked(values, keep).len() ==> is_marked(
                values,
                keep,
                #[trigger] order::marked(values, keep)[k],
            ),
    decreases values.len(),
{
    let v = values.drop_last();
    let n = values.len() - 1;
    let before = order::marked(v, keep);
    let all = order::marked(values, keep);
    if v.len() > 0 {
        marked_results_are_kept(
            v,
            keep,
            if i < n {
                i
            } else {
                0
            },
        );
    } else {
        assert(before.len() == 0);
    }
    if keep[i] {
        if i < n {
            assert(v[i] == values[i]);
            let q = before.index_of(values[i]);
            assert(all[q] == before[q]);
        } else {
            assert(all[before.len() as int] == values[n]);
        }
    }
    assert forall|k: int| 0 <= k < all.len() implies is_marked(values, keep, #[trigger] all[k]) by {
        if k < before.len() {
            assert(is_marked(v, keep, before[k]));
            let j = choose|j: int| 0 <= j < v.len() && #[trigger] keep[j] && v[j] == before[k];
            assert(keep[j] && values[j] == all[k]);
        } else {
            assert(keep[n] && values[n] == all[k]);
        }
    }
}

/// Whether a value is one that is marked.
pub open spec fn is_marked<T>(values: Seq<T>, keep: Seq<bool>, x: T) -> bool {
    exists|j: int| 0 <= j < values.len() && #[trigger] keep[j] && values[j] == x
}

} // verus!
