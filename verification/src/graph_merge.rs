//! What a fusion of the graph with the other channels says about the finds that
//! it comes from: the ranks and scores of each candidate, and which of the
//! candidates become results.

use vstd::prelude::*;

use crate::api::ScoredView;
use crate::graph_finds;
use crate::graph_fusion;
use crate::graph_fusion::FusionView;
use crate::json;
use crate::ranking;
use crate::record::RecordView;

verus! {

/// Whether a rank and a score are those of the first find of a record, counted
/// from one; there are none where the record was not found.
pub open spec fn is_first_place(
    finds: Seq<ScoredView>,
    id: Seq<char>,
    rank: Option<usize>,
    score: Option<i32>,
) -> bool {
    if ranking::is_found(finds, id) {
        exists|j: int| #[trigger]
            ranking::is_first_find(finds, id, j) && rank == Some((j + 1) as usize) && score == Some(
                finds[j].score as i32,
            )
    } else {
        rank is None && score is None
    }
}

/// Whether a record has the content of another, but for the notes of the graph.
pub open spec fn has_content_of(a: RecordView, b: RecordView) -> bool {
    &&& a.id == b.id
    &&& a.text == b.text
    &&& a.embedding == b.embedding
    &&& a.created_at_ms == b.created_at_ms
    &&& a.updated_at_ms == b.updated_at_ms
    &&& forall|key: Seq<char>|
        !graph_finds::is_graph_key(key) ==> #[trigger] json::json_get(a.metadata, key)
            == json::json_get(b.metadata, key)
}

/// Whether a candidate is what two channels say of its record: its rank and its
/// score in either of them, by the first find, and the content of the first find
/// of the base channel, or else of the graph.
pub open spec fn is_candidate_of(
    c: FusionView,
    base: Seq<ScoredView>,
    graph: Seq<ScoredView>,
) -> bool {
    let id = c.record.id;
    &&& is_first_place(base, id, c.base_rank, c.base_score)
    &&& is_first_place(graph, id, c.graph_rank, c.graph_score)
    &&& if ranking::is_found(base, id) {
        exists|j: int| #[trigger]
            ranking::is_first_find(base, id, j) && has_content_of(c.record, base[j].record)
    } else {
        exists|j: int| #[trigger]
            ranking::is_first_find(graph, id, j) && c.record == graph[j].record
    }
}

/// Whether finds go from the highest score to the lowest.
pub open spec fn falls(finds: Seq<ScoredView>) -> bool {
    forall|i: int, j: int|
        0 <= i < j < finds.len() ==> (#[trigger] finds[i]).score >= (#[trigger] finds[j]).score
}

spec fn are_distinct(s: Seq<FusionView>) -> bool {
    forall|i: int, j: int|
        0 <= i < j < s.len() ==> (#[trigger] s[i]).record.id != (#[trigger] s[j]).record.id
}

spec fn has_id(s: Seq<FusionView>, id: Seq<char>) -> bool {
    exists|k: int| 0 <= k < s.len() && (#[trigger] s[k]).record.id == id
}

proof fn lemma_index(s: Seq<FusionView>, id: Seq<char>)
    ensures
        0 <= graph_fusion::fusion_index(s, id) <= s.len(),
        graph_fusion::fusion_index(s, id) < s.len() ==> s[graph_fusion::fusion_index(
            s,
            id,
        )].record.id == id,
        forall|k: int|
            0 <= k < graph_fusion::fusion_index(s, id) ==> (#[trigger] s[k]).record.id != id,
    decreases s.len(),
{
    if s.len() > 0 && s[0].record.id != id {
        let rest = s.drop_first();
        lemma_index(rest, id);
        assert forall|k: int| 0 <= k < graph_fusion::fusion_index(s, id) implies (
        #[trigger] s[k]).record.id != id by {
            if k > 0 {
                assert(s[k] == rest[k - 1]);
            }
        }
    }
}

proof fn lemma_first_find_grows(finds: Seq<ScoredView>, id: Seq<char>, j: int)
    requires
        finds.len() > 0,
    ensures
        ranking::is_first_find(finds.drop_last(), id, j) ==> ranking::is_first_find(finds, id, j),
        ranking::is_found(finds, id) <==> ranking::is_found(finds.drop_last(), id)
            || finds.last().record.id == id,
{
    let front = finds.drop_last();
    if ranking::is_first_find(front, id, j) {
        assert forall|l: int| 0 <= l < j implies (#[trigger] finds[l]).record.id != id by {
            assert(front[l].record.id != id);
        }
    }
    if ranking::is_found(front, id) {
        let i = choose|i: int| 0 <= i < front.len() && (#[trigger] front[i]).record.id == id;
        assert(finds[i].record.id == id);
    }
    if finds.last().record.id == id {
        assert(finds[finds.len() - 1].record.id == id);
    }
    if ranking::is_found(finds, id) {
        let i = choose|i: int| 0 <= i < finds.len() && (#[trigger] finds[i]).record.id == id;
        if i < front.len() {
            assert(front[i].record.id == id);
        }
    }
}

/// A place stays the first when one more record is found.
proof fn lemma_place_stays(
    finds: Seq<ScoredView>,
    id: Seq<char>,
    rank: Option<usize>,
    score: Option<i32>,
)
    requires
        finds.len() > 0,
        is_first_place(finds.drop_last(), id, rank, score),
        finds.last().record.id != id || ranking::is_found(finds.drop_last(), id),
    ensures
        is_first_place(finds, id, rank, score),
{
    let front = finds.drop_last();
    lemma_first_find_grows(finds, id, 0);
    if ranking::is_found(front, id) {
        let j = choose|j: int| #[trigger]
            ranking::is_first_find(front, id, j) && rank == Some((j + 1) as usize) && score == Some(
                front[j].score as i32,
            );
        lemma_first_find_grows(finds, id, j);
        assert(ranking::is_first_find(finds, id, j) && score == Some(finds[j].score as i32));
    }
}

proof fn lemma_new_place(finds: Seq<ScoredView>)
    requires
        finds.len() > 0,
        !ranking::is_found(finds.drop_last(), finds.last().record.id),
    ensures
        ranking::is_first_find(finds, finds.last().record.id, finds.len() - 1),
        is_first_place(
            finds,
            finds.last().record.id,
            Some(finds.len() as usize),
            Some(finds.last().score as i32),
        ),
{
    let front = finds.drop_last();
    let id = finds.last().record.id;
    assert forall|l: int| 0 <= l < finds.len() - 1 implies (#[trigger] finds[l]).record.id != id by {
        assert(front[l] == finds[l]);
    }
    assert(finds[finds.len() - 1].record.id == id);
    assert(ranking::is_first_find(finds, id, finds.len() - 1));
}

proof fn lemma_base(s: Seq<ScoredView>)
    requires
        falls(s),
        graph_fusion::are_places(s),
    ensures
        are_distinct(graph_fusion::base_gathered(s)),
        forall|k: int|
            0 <= k < graph_fusion::base_gathered(s).len() ==> is_candidate_of(
                #[trigger] graph_fusion::base_gathered(s)[k],
                s,
                Seq::empty(),
            ) && ranking::is_found(s, graph_fusion::base_gathered(s)[k].record.id),
        forall|id: Seq<char>| #[trigger]
            ranking::is_found(s, id) ==> has_id(graph_fusion::base_gathered(s), id),
    decreases s.len(),
{
    let all = graph_fusion::base_gathered(s);
    let none = Seq::<ScoredView>::empty();
    if s.len() > 0 {
        let front = s.drop_last();
        let x = s.last();
        let n = s.len() - 1;
        assert forall|i: int, j: int| 0 <= i < j < front.len() implies (#[trigger] front[i]).score
            >= (#[trigger] front[j]).score by {
            assert(s[i].score >= s[j].score);
        }
        assert(graph_fusion::are_places(front)) by {
            assert forall|i: int| 0 <= i < front.len() implies i32::MIN <= (
            #[trigger] front[i]).score <= i32::MAX by {
                assert(front[i] == s[i]);
            }
        }
        lemma_base(front);
        let before = graph_fusion::base_gathered(front);
        let at = graph_fusion::fusion_index(before, x.record.id);
        lemma_index(before, x.record.id);
        lemma_first_find_grows(s, x.record.id, 0);
        if at < before.len() {
            let c = before[at];
            assert(ranking::is_found(front, x.record.id));
            let j = choose|j: int| #[trigger]
                ranking::is_first_find(front, x.record.id, j) && c.base_score == Some(
                    front[j].score as i32,
                );
            assert(s[j].score >= s[n].score);
            assert(i32::MIN <= s[j].score <= i32::MAX);
            assert(all == before);
        } else {
            assert(!ranking::is_found(front, x.record.id)) by {
                if ranking::is_found(front, x.record.id) {
                    assert(has_id(before, x.record.id));
                }
            }
            lemma_new_place(s);
            assert(all == before.push(graph_fusion::base_candidate(x, s.len() as usize)));
            assert(s[n] == x);
            assert(ranking::is_first_find(s, x.record.id, n) && has_content_of(
                x.record,
                s[n].record,
            ));
            assert(all[before.len() as int].record.id == x.record.id);
        }
        assert forall|k: int| 0 <= k < all.len() implies is_candidate_of(
            #[trigger] all[k],
            s,
            none,
        ) && ranking::is_found(s, all[k].record.id) by {
            if k < before.len() {
                let c = before[k];
                assert(all[k] == c);
                let id = c.record.id;
                lemma_first_find_grows(s, id, 0);
                lemma_place_stays(s, id, c.base_rank, c.base_score);
                let j = choose|j: int| #[trigger]
                    ranking::is_first_find(front, id, j) && has_content_of(
                        c.record,
                        front[j].record,
                    );
                lemma_first_find_grows(s, id, j);
                assert(ranking::is_first_find(s, id, j) && has_content_of(c.record, s[j].record));
            }
        }
        assert forall|id: Seq<char>| #[trigger] ranking::is_found(s, id) implies has_id(all, id) by {
            lemma_first_find_grows(s, id, 0);
            if ranking::is_found(front, id) {
                let k = choose|k: int| 0 <= k < before.len() && (#[trigger] before[k]).record.id == id;
                assert(all[k].record.id == id);
            } else if at < before.len() {
                assert(all[at].record.id == id);
            }
        }
        assert forall|i: int, j: int| 0 <= i < j < all.len() implies (#[trigger] all[i]).record.id
            != (#[trigger] all[j]).record.id by {
            if j < before.len() {
                assert(before[i].record.id != before[j].record.id);
            }
        }
    }
}

proof fn lemma_enriched(b: FusionView, x: ScoredView, rank: usize)
    ensures
        has_content_of(graph_fusion::enriched(b, x, rank).record, b.record),
{
    let r = graph_fusion::enriched(b, x, rank);
    graph_finds::notes_leave_the_rest(b.record.metadata, x.record.metadata);
}

spec fn gathers(
    b: Seq<FusionView>,
    only: Seq<FusionView>,
    base: Seq<ScoredView>,
    graph: Seq<ScoredView>,
) -> bool {
    &&& are_distinct(b)
    &&& are_distinct(only)
    &&& forall|k: int|
        0 <= k < b.len() ==> is_candidate_of(#[trigger] b[k], base, graph) && ranking::is_found(
            base,
            b[k].record.id,
        )
    &&& forall|k: int|
        0 <= k < only.len() ==> is_candidate_of(#[trigger] only[k], base, graph)
            && !ranking::is_found(base, only[k].record.id)
    &&& forall|id: Seq<char>| #[trigger] ranking::is_found(base, id) ==> has_id(b, id)
    &&& forall|id: Seq<char>| #[trigger]
        ranking::is_found(graph, id) && !ranking::is_found(base, id) ==> has_id(only, id)
}

proof fn lemma_graph(base: Seq<ScoredView>, start: Seq<FusionView>, graph: Seq<ScoredView>)
    requires
        gathers(start, Seq::empty(), base, Seq::empty()),
        falls(graph),
        graph_fusion::are_places(graph),
        graph.len() <= usize::MAX,
    ensures
        gathers(
            graph_fusion::graph_gathered(start, graph).0,
            graph_fusion::graph_gathered(start, graph).1,
            base,
            graph,
        ),
    decreases graph.len(),
{
    if graph.len() > 0 {
        let front = graph.drop_last();
        let x = graph.last();
        let n = graph.len() - 1;
        assert forall|i: int, j: int| 0 <= i < j < front.len() implies (#[trigger] front[i]).score
            >= (#[trigger] front[j]).score by {
            assert(graph[i].score >= graph[j].score);
        }
        assert(graph_fusion::are_places(front)) by {
            assert forall|i: int| 0 <= i < front.len() implies i32::MIN <= (
            #[trigger] front[i]).score <= i32::MAX by {
                assert(front[i] == graph[i]);
            }
        }
        lemma_graph(base, start, front);
        let (b0, o0) = graph_fusion::graph_gathered(start, front);
        let (b, only) = graph_fusion::graph_gathered(start, graph);
        let id = x.record.id;
        let rank = graph.len() as usize;
        let at = graph_fusion::fusion_index(b0, id);
        let to = graph_fusion::fusion_index(o0, id);
        lemma_index(b0, id);
        lemma_index(o0, id);
        lemma_first_find_grows(graph, id, 0);
        if at < b0.len() {
            assert(ranking::is_found(base, b0[at].record.id));
        } else {
            assert(!ranking::is_found(base, id)) by {
                if ranking::is_found(base, id) {
                    assert(has_id(b0, id));
                }
            }
        }
        assert forall|k: int| 0 <= k < b.len() implies is_candidate_of(
            #[trigger] b[k],
            base,
            graph,
        ) && ranking::is_found(base, b[k].record.id) by {
            let c = b0[k];
            if k == at {
                lemma_enriched(c, x, rank);
                lemma_enriched_place(c, x, graph);
                let j = choose|j: int| #[trigger]
                    ranking::is_first_find(base, id, j) && has_content_of(
                        c.record,
                        base[j].record,
                    );
                assert(ranking::is_first_find(base, id, j) && has_content_of(
                    b[k].record,
                    base[j].record,
                )) by {
                    lemma_content_is_transitive(b[k].record, c.record, base[j].record);
                }
            } else {
                assert(b[k] == c);
                if at < b0.len() {
                    if k < at {
                        assert(b0[k].record.id != b0[at].record.id);
                    } else {
                        assert(b0[at].record.id != b0[k].record.id);
                    }
                }
                lemma_place_stays(graph, c.record.id, c.graph_rank, c.graph_score);
            }
        }
        assert forall|k: int| 0 <= k < only.len() implies is_candidate_of(
            #[trigger] only[k],
            base,
            graph,
        ) && !ranking::is_found(base, only[k].record.id) by {
            if k < o0.len() {
                let c = o0[k];
                lemma_only_stays(c, x, base, graph);
                assert(only[k] == c);
            } else {
                assert(!ranking::is_found(front, id)) by {
                    if ranking::is_found(front, id) {
                        assert(has_id(o0, id));
                    }
                }
                lemma_new_place(graph);
                assert(graph[n] == x);
                assert(ranking::is_first_find(graph, id, n) && only[k].record == graph[n].record);
            }
        }
        assert forall|other: Seq<char>| #[trigger] ranking::is_found(base, other) implies has_id(
            b,
            other,
        ) by {
            let k = choose|k: int| 0 <= k < b0.len() && (#[trigger] b0[k]).record.id == other;
            assert(b[k].record.id == other);
        }
        assert forall|other: Seq<char>| #[trigger]
            ranking::is_found(graph, other) && !ranking::is_found(base, other) implies has_id(
            only,
            other,
        ) by {
            lemma_first_find_grows(graph, other, 0);
            if ranking::is_found(front, other) {
                let k = choose|k: int| 0 <= k < o0.len() && (#[trigger] o0[k]).record.id == other;
                assert(only[k].record.id == other);
            } else if to < o0.len() {
                assert(only[to].record.id == other);
            } else {
                assert(only[o0.len() as int].record.id == other);
            }
        }
        assert forall|i: int, j: int| 0 <= i < j < b.len() implies (#[trigger] b[i]).record.id != (
        #[trigger] b[j]).record.id by {
            assert(b0[i].record.id != b0[j].record.id);
        }
        assert forall|i: int, j: int| 0 <= i < j < only.len() implies (#[trigger] only[i]).record.id
            != (#[trigger] only[j]).record.id by {
            if j < o0.len() {
                assert(o0[i].record.id != o0[j].record.id);
            }
        }
    }
}

proof fn lemma_content_is_transitive(a: RecordView, b: RecordView, c: RecordView)
    requires
        has_content_of(a, b),
        has_content_of(b, c),
    ensures
        has_content_of(a, c),
{
    assert forall|key: Seq<char>| !graph_finds::is_graph_key(key) implies #[trigger] json::json_get(
        a.metadata,
        key,
    ) == json::json_get(c.metadata, key) by {
        assert(json::json_get(b.metadata, key) == json::json_get(c.metadata, key));
    }
}

/// A base candidate that the graph finds has the place of the first find.
proof fn lemma_enriched_place(c: FusionView, x: ScoredView, graph: Seq<ScoredView>)
    requires
        graph.len() > 0,
        graph.len() <= usize::MAX,
        x == graph.last(),
        x.record.id == c.record.id,
        falls(graph),
        graph_fusion::are_places(graph),
        is_first_place(graph.drop_last(), c.record.id, c.graph_rank, c.graph_score),
    ensures
        is_first_place(
            graph,
            c.record.id,
            graph_fusion::enriched(c, x, graph.len() as usize).graph_rank,
            graph_fusion::enriched(c, x, graph.len() as usize).graph_score,
        ),
{
    let front = graph.drop_last();
    let id = c.record.id;
    if ranking::is_found(front, id) {
        let j = choose|j: int| #[trigger]
            ranking::is_first_find(front, id, j) && c.graph_rank == Some((j + 1) as usize)
                && c.graph_score == Some(front[j].score as i32);
        assert(graph[j].score >= graph[graph.len() - 1].score);
        assert(i32::MIN <= graph[j].score <= i32::MAX);
        assert((j + 1) as usize <= graph.len() as usize);
        lemma_place_stays(graph, id, c.graph_rank, c.graph_score);
    } else {
        lemma_new_place(graph);
        assert(i32::MIN <= graph[graph.len() - 1].score <= i32::MAX);
    }
}

/// A candidate of the graph alone stays what it is.
proof fn lemma_only_stays(
    c: FusionView,
    x: ScoredView,
    base: Seq<ScoredView>,
    graph: Seq<ScoredView>,
)
    requires
        graph.len() > 0,
        x == graph.last(),
        falls(graph),
        graph_fusion::are_places(graph),
        is_candidate_of(c, base, graph.drop_last()),
        !ranking::is_found(base, c.record.id),
    ensures
        is_candidate_of(c, base, graph),
        x.record.id == c.record.id ==> c.graph_score is Some && c.graph_score->0 >= x.score,
{
    let front = graph.drop_last();
    let id = c.record.id;
    let i = choose|i: int| #[trigger]
        ranking::is_first_find(front, id, i) && c.record == front[i].record;
    assert(front[i].record.id == id);
    assert(ranking::is_found(front, id));
    lemma_first_find_grows(graph, id, i);
    assert(ranking::is_first_find(graph, id, i) && c.record == graph[i].record);
    let j = choose|j: int| #[trigger]
        ranking::is_first_find(front, id, j) && c.graph_rank == Some((j + 1) as usize)
            && c.graph_score == Some(front[j].score as i32);
    assert(graph[j].score >= graph[graph.len() - 1].score);
    assert(i32::MIN <= graph[j].score <= i32::MAX);
    lemma_place_stays(graph, id, c.graph_rank, c.graph_score);
}

proof fn lemma_top_falls(s: Seq<ScoredView>, limit: nat)
    requires
        graph_fusion::are_places(s),
    ensures
        falls(ranking::top_ranked(s, limit)),
        graph_fusion::are_places(ranking::top_ranked(s, limit)),
{
    let top = ranking::top_ranked(s, limit);
    ranking::top_results_have_the_highest_scores(s, limit);
    assert forall|i: int, j: int| 0 <= i < j < top.len() implies (#[trigger] top[i]).score >= (
    #[trigger] top[j]).score by {
        assert(ranking::may_stand_before(top[i], top[j]));
    }
    assert forall|i: int| 0 <= i < top.len() implies i32::MIN <= (#[trigger] top[i]).score
        <= i32::MAX by {
        graph_fusion::lemma_top_ranked_from(s, limit, i);
        let k = choose|k: int| 0 <= k < s.len() && s[k] == top[i];
        assert(i32::MIN <= s[k].score <= i32::MAX);
    }
}

/// What is gathered for a fusion. There is one base candidate for every record
/// among the best finds of the base channel, and one candidate of the graph alone
/// for every other record that the graph has found. Each carries its rank and its
/// score in both channels, counted from one by falling scores.
pub proof fn candidates_carry_their_ranks(
    base: Seq<ScoredView>,
    graph: Seq<ScoredView>,
    top_k: nat,
    id: Seq<char>,
)
    requires
        graph_fusion::are_places(base),
        graph_fusion::are_places(graph),
        graph.len() <= usize::MAX,
    ensures
        ({
            let best = ranking::top_ranked(base, top_k);
            let finds = ranking::top_ranked(graph, graph.len());
            let (b, only) = graph_fusion::gathered(base, graph, top_k);
            &&& (exists|k: int| 0 <= k < b.len() && (#[trigger] b[k]).record.id == id)
                <==> ranking::is_found(best, id)
            &&& (exists|k: int| 0 <= k < only.len() && (#[trigger] only[k]).record.id == id)
                <==> ranking::is_found(finds, id) && !ranking::is_found(best, id)
            &&& forall|k: int|
                0 <= k < b.len() ==> is_candidate_of(#[trigger] b[k], best, finds)
            &&& forall|k: int|
                0 <= k < only.len() ==> is_candidate_of(#[trigger] only[k], best, finds)
            &&& forall|i: int, j: int|
                0 <= i < j < b.len() ==> (#[trigger] b[i]).record.id != (#[trigger] b[j]).record.id
            &&& forall|i: int, j: int|
                0 <= i < j < only.len() ==> (#[trigger] only[i]).record.id != (
                #[trigger] only[j]).record.id
        }),
{
    let best = ranking::top_ranked(base, top_k);
    let finds = ranking::top_ranked(graph, graph.len());
    ranking::ranking_orders_and_keeps_all(graph);
    assert(finds =~= ranking::ranked(graph));
    lemma_top_falls(base, top_k);
    lemma_top_falls(graph, graph.len());
    lemma_base(best);
    let start = graph_fusion::base_gathered(best);
    assert(gathers(start, Seq::empty(), best, Seq::empty()));
    lemma_graph(best, start, finds);
    let (b, only) = graph_fusion::gathered(base, graph, top_k);
    if exists|k: int| 0 <= k < b.len() && (#[trigger] b[k]).record.id == id {
        let k = choose|k: int| 0 <= k < b.len() && (#[trigger] b[k]).record.id == id;
        assert(ranking::is_found(best, b[k].record.id));
    }
    if ranking::is_found(best, id) {
        assert(has_id(b, id));
    }
    if exists|k: int| 0 <= k < only.len() && (#[trigger] only[k]).record.id == id {
        let k = choose|k: int| 0 <= k < only.len() && (#[trigger] only[k]).record.id == id;
        assert(is_candidate_of(only[k], best, finds));
        let j = choose|j: int| #[trigger]
            ranking::is_first_find(finds, id, j) && only[k].record == finds[j].record;
        assert(finds[j].record.id == id);
    }
    if ranking::is_found(finds, id) && !ranking::is_found(best, id) {
        assert(has_id(only, id));
    }
}

/// What a fusion gives. Where the graph may contribute records of its own, the
/// best of them are sure of their places, as many as are allowed, and the best
/// base candidates have the rest; else the results are the best base candidates.
/// Either way they go from the highest score to the lowest.
pub proof fn fusion_shares_the_places(
    base: Seq<ScoredView>,
    only: Seq<ScoredView>,
    top_k: nat,
    add_graph_only: bool,
    limit: nat,
)
    requires
        limit <= top_k,
    ensures
        ({
            let r = graph_fusion::fused(base, only, top_k, add_graph_only, limit);
            let extra = if !add_graph_only {
                0nat
            } else if only.len() < limit {
                only.len()
            } else {
                limit
            };
            &&& r.to_multiset() == ranking::top_ranked(
                base,
                (top_k - extra) as nat,
            ).to_multiset().add(ranking::top_ranked(only, extra).to_multiset())
            &&& forall|i: int, j: int|
                0 <= i < j < r.len() ==> ranking::may_stand_before(
                    #[trigger] r[i],
                    #[trigger] r[j],
                )
        }),
{
    broadcast use vstd::seq_lib::group_to_multiset_ensures;

    let r = graph_fusion::fused(base, only, top_k, add_graph_only, limit);
    let extra = if !add_graph_only {
        0nat
    } else if only.len() < limit {
        only.len()
    } else {
        limit
    };
    let own = ranking::top_ranked(only, extra);
    ranking::top_results_have_the_highest_scores(only, limit);
    ranking::top_results_have_the_highest_scores(only, extra);
    if add_graph_only {
        assert(own =~= ranking::top_ranked(only, limit));
        let some = ranking::top_ranked(base, (top_k - extra) as nat);
        ranking::top_results_have_the_highest_scores(base, (top_k - extra) as nat);
        let both = some + own;
        vstd::seq_lib::lemma_multiset_commutative(some, own);
        ranking::ranking_orders_and_keeps_all(both);
        assert(r =~= ranking::ranked(both));
        ranking::top_results_have_the_highest_scores(both, top_k);
    } else {
        assert(own =~= Seq::<ScoredView>::empty());
        ranking::top_results_have_the_highest_scores(base, top_k);
        assert(own.to_multiset() =~= vstd::multiset::Multiset::empty());
        assert(r.to_multiset() =~= r.to_multiset().add(own.to_multiset()));
    }
}

/// Reranking gives each base candidate its fused score; without it each keeps
/// the score of its own channel. The records stay in their places.
pub proof fn reranking_decides_the_scores(
    base: Seq<FusionView>,
    scores: Seq<i32>,
    rerank: bool,
    i: int,
)
    requires
        scores.len() == base.len(),
        0 <= i < base.len(),
        base[i].base_score is Some,
    ensures
        graph_fusion::base_results(base, scores, rerank).len() == base.len(),
        graph_fusion::base_results(base, scores, rerank)[i].record == base[i].record,
        rerank ==> graph_fusion::base_results(base, scores, rerank)[i].score == scores[i],
        !rerank ==> graph_fusion::base_results(base, scores, rerank)[i].score
            == base[i].base_score->0,
        graph_fusion::only_results(base, scores)[i].record == base[i].record,
        graph_fusion::only_results(base, scores)[i].score == scores[i],
{
}

} // verus!
