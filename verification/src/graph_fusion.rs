//! The fusion of the graph channel with the results of the other channels.
//!
//! Fusing has two halves. The first gathers the candidates with their ranks in
//! either channel; from the ranks the fused scores follow by division, which is
//! done outside of this crate. The second half takes the fused scores and
//! makes up the list of results.

use vstd::prelude::*;

use crate::api;
use crate::api::{ScoredMemory, ScoredView};
use crate::graph_context;
use crate::graph_context::{merge_graph_facts_metadata, merge_graph_matches_metadata};
use crate::ranking;
use crate::ranking::{rank_results, sort_scored_desc};
use crate::record::{MemoryRecord, RecordView};
use crate::text::text_eq;

verus! {

/// A record with its score and its rank, counted from 1, in either channel.
#[derive(Debug)]
pub struct GraphFusionCandidate {
    pub record: MemoryRecord,
    pub base_score: Option<i32>,
    pub graph_score: Option<i32>,
    pub base_rank: Option<usize>,
    pub graph_rank: Option<usize>,
}

/// What a [`GraphFusionCandidate`] stands for.
pub struct FusionView {
    pub record: RecordView,
    pub base_score: Option<i32>,
    pub graph_score: Option<i32>,
    pub base_rank: Option<usize>,
    pub graph_rank: Option<usize>,
}

impl View for GraphFusionCandidate {
    type V = FusionView;

    open spec fn view(&self) -> FusionView {
        FusionView {
            record: self.record@,
            base_score: self.base_score,
            graph_score: self.graph_score,
            base_rank: self.base_rank,
            graph_rank: self.graph_rank,
        }
    }
}

impl Clone for GraphFusionCandidate {
    fn clone(&self) -> (r: Self)
        ensures
            r@ == self@,
    {
        GraphFusionCandidate {
            record: self.record.clone(),
            base_score: self.base_score,
            graph_score: self.graph_score,
            base_rank: self.base_rank,
            graph_rank: self.graph_rank,
        }
    }
}

pub open spec fn fusion_views(v: Seq<GraphFusionCandidate>) -> Seq<FusionView> {
    Seq::new(v.len(), |i: int| v[i]@)
}

/// The position of the first candidate with an id, or the number of candidates.
pub open spec fn fusion_index(s: Seq<FusionView>, id: Seq<char>) -> int
    decreases s.len(),
{
    if s.len() == 0 || s[0].record.id == id {
        0
    } else {
        1 + fusion_index(s.drop_first(), id)
    }
}

proof fn lemma_fusion_index(s: Seq<FusionView>, id: Seq<char>)
    ensures
        0 <= fusion_index(s, id) <= s.len(),
        fusion_index(s, id) < s.len() ==> s[fusion_index(s, id)].record.id == id,
    decreases s.len(),
{
    if s.len() > 0 && s[0].record.id != id {
        lemma_fusion_index(s.drop_first(), id);
    }
}

/// A candidate that only the base channel has found.
pub open spec fn base_candidate(x: ScoredView, rank: usize) -> FusionView {
    FusionView {
        record: x.record,
        base_score: Some(x.score as i32),
        graph_score: None,
        base_rank: Some(rank),
        graph_rank: None,
    }
}

/// A candidate that only the graph has found.
pub open spec fn graph_candidate(x: ScoredView, rank: usize) -> FusionView {
    FusionView {
        record: x.record,
        base_score: None,
        graph_score: Some(x.score as i32),
        base_rank: None,
        graph_rank: Some(rank),
    }
}

/// The candidates after one more find of the base channel: a record that is
/// there gives way to a better find of it.
pub open spec fn with_base(s: Seq<FusionView>, x: ScoredView, rank: usize) -> Seq<FusionView> {
    let i = fusion_index(s, x.record.id);
    if i < s.len() {
        if s[i].base_score is None || x.score > s[i].base_score->0 {
            s.update(
                i,
                FusionView {
                    record: x.record,
                    base_score: Some(x.score as i32),
                    base_rank: Some(rank),
                    ..s[i]
                },
            )
        } else {
            s
        }
    } else {
        s.push(base_candidate(x, rank))
    }
}

pub open spec fn base_gathered(s: Seq<ScoredView>) -> Seq<FusionView>
    decreases s.len(),
{
    if s.len() == 0 {
        Seq::empty()
    } else {
        with_base(base_gathered(s.drop_last()), s.last(), s.len() as usize)
    }
}

/// A base candidate that the graph has found too: the better score and rank,
/// and what the graph notes of facts and matches.
pub open spec fn enriched(b: FusionView, x: ScoredView, rank: usize) -> FusionView {
    FusionView {
        record: RecordView {
            metadata: graph_context::with_matches_of(
                graph_context::with_facts_of(b.record.metadata, x.record.metadata),
                x.record.metadata,
            ),
            ..b.record
        },
        graph_score: match b.graph_score {
            Some(score) if score >= x.score => Some(score),
            _ => Some(x.score as i32),
        },
        graph_rank: match b.graph_rank {
            Some(r) if r <= rank => Some(r),
            _ => Some(rank),
        },
        ..b
    }
}

/// The candidates of the graph alone after one more find.
pub open spec fn with_graph_only(s: Seq<FusionView>, x: ScoredView, rank: usize) -> Seq<
    FusionView,
> {
    let i = fusion_index(s, x.record.id);
    if i < s.len() {
        if s[i].graph_score is None || x.score > s[i].graph_score->0 {
            s.update(
                i,
                FusionView {
                    record: x.record,
                    graph_score: Some(x.score as i32),
                    graph_rank: Some(rank),
                    ..s[i]
                },
            )
        } else {
            s
        }
    } else {
        s.push(graph_candidate(x, rank))
    }
}

/// The base candidates and the candidates of the graph alone, once the finds
/// of the graph are added to the base candidates `base`.
pub open spec fn graph_gathered(base: Seq<FusionView>, graph: Seq<ScoredView>) -> (
    Seq<FusionView>,
    Seq<FusionView>,
)
    decreases graph.len(),
{
    if graph.len() == 0 {
        (base, Seq::empty())
    } else {
        let (b, only) = graph_gathered(base, graph.drop_last());
        let x = graph.last();
        let rank = graph.len() as usize;
        let i = fusion_index(b, x.record.id);
        if i < b.len() {
            (b.update(i, enriched(b[i], x, rank)), only)
        } else {
            (b, with_graph_only(only, x, rank))
        }
    }
}

/// What is gathered from the best `top_k` base candidates and the finds of the
/// graph.
pub open spec fn gathered(base: Seq<ScoredView>, graph: Seq<ScoredView>, top_k: nat) -> (
    Seq<FusionView>,
    Seq<FusionView>,
) {
    graph_gathered(base_gathered(ranking::top_ranked(base, top_k)), ranking::ranked(graph))
}

/// The candidates of a fusion, waiting for their fused scores.
#[derive(Debug)]
pub struct GraphFusion {
    pub base: Vec<GraphFusionCandidate>,
    pub graph_only: Vec<GraphFusionCandidate>,
}

/// How a fusion goes on: there is nothing to fuse, or the candidates wait for
/// their fused scores.
#[derive(Debug)]
pub enum GraphFusionStep {
    Done(Vec<ScoredMemory>),
    Score(GraphFusion),
}

fn find_fusion(candidates: &Vec<GraphFusionCandidate>, id: &str) -> (r: usize)
    ensures
        r == fusion_index(fusion_views(candidates@), id@),
        r <= candidates@.len(),
{
    let ghost all = fusion_views(candidates@);
    let mut i: usize = 0;
    assert(all.skip(0) =~= all);
    while i < candidates.len()
        invariant
            i <= candidates@.len(),
            all == fusion_views(candidates@),
            fusion_index(all, id@) == i + fusion_index(all.skip(i as int), id@),
        decreases candidates@.len() - i,
    {
        assert(all.skip(i as int)[0] == candidates@[i as int]@);
        if text_eq(candidates[i].record.id.as_str(), id) {
            return i;
        }
        assert(all.skip(i as int).drop_first() =~= all.skip(i + 1));
        i += 1;
    }
    i
}

fn add_base(candidates: &mut Vec<GraphFusionCandidate>, x: &ScoredMemory, rank: usize)
    ensures
        fusion_views(final(candidates)@) == with_base(fusion_views(old(candidates)@), x@, rank),
{
    let ghost before = fusion_views(candidates@);
    let i = find_fusion(candidates, x.record.id.as_str());
    if i < candidates.len() {
        assert(before[i as int] == candidates@[i as int]@);
        let better = match candidates[i].base_score {
            Some(score) => x.score > score,
            None => true,
        };
        if better {
            let known = GraphFusionCandidate {
                record: x.record.clone(),
                base_score: Some(x.score),
                graph_score: candidates[i].graph_score,
                base_rank: Some(rank),
                graph_rank: candidates[i].graph_rank,
            };
            candidates.set(i, known);
        }
    } else {
        candidates.push(
            GraphFusionCandidate {
                record: x.record.clone(),
                base_score: Some(x.score),
                graph_score: None,
                base_rank: Some(rank),
                graph_rank: None,
            },
        );
    }
    assert(fusion_views(candidates@) =~= with_base(before, x@, rank));
}

fn add_graph_only(candidates: &mut Vec<GraphFusionCandidate>, x: &ScoredMemory, rank: usize)
    ensures
        fusion_views(final(candidates)@) == with_graph_only(
            fusion_views(old(candidates)@),
            x@,
            rank,
        ),
{
    let ghost before = fusion_views(candidates@);
    let i = find_fusion(candidates, x.record.id.as_str());
    if i < candidates.len() {
        assert(before[i as int] == candidates@[i as int]@);
        let better = match candidates[i].graph_score {
            Some(score) => x.score > score,
            None => true,
        };
        if better {
            let known = GraphFusionCandidate {
                record: x.record.clone(),
                base_score: candidates[i].base_score,
                graph_score: Some(x.score),
                base_rank: candidates[i].base_rank,
                graph_rank: Some(rank),
            };
            candidates.set(i, known);
        }
    } else {
        candidates.push(
            GraphFusionCandidate {
                record: x.record.clone(),
                base_score: None,
                graph_score: Some(x.score),
                base_rank: None,
                graph_rank: Some(rank),
            },
        );
    }
    assert(fusion_views(candidates@) =~= with_graph_only(before, x@, rank));
}

fn enrich(known: &mut GraphFusionCandidate, x: &ScoredMemory, rank: usize)
    ensures
        final(known)@ == enriched(old(known)@, x@, rank),
{
    known.graph_score = match known.graph_score {
        Some(score) => if score >= x.score {
            Some(score)
        } else {
            Some(x.score)
        },
        None => Some(x.score),
    };
    known.graph_rank = match known.graph_rank {
        Some(r) => if r <= rank {
            Some(r)
        } else {
            Some(rank)
        },
        None => Some(rank),
    };
    merge_graph_facts_metadata(&mut known.record.metadata, &x.record.metadata);
    merge_graph_matches_metadata(&mut known.record.metadata, &x.record.metadata);
}

/// The first half of a fusion. Where no results are wanted there are none, and
/// where the graph has found nothing the base candidates stand as they are.
pub fn begin_graph_fusion(
    base_candidates: Vec<ScoredMemory>,
    graph_candidates: Vec<ScoredMemory>,
    top_k: usize,
) -> (r: GraphFusionStep)
    ensures
        match r {
            GraphFusionStep::Done(results) => {
                &&& top_k == 0 || graph_candidates@.len() == 0
                &&& top_k == 0 ==> results@.len() == 0
                &&& top_k > 0 ==> api::scored_views(results@) == ranking::top_ranked(
                    api::scored_views(base_candidates@),
                    top_k as nat,
                )
            },
            GraphFusionStep::Score(fusion) => {
                &&& top_k > 0 && graph_candidates@.len() > 0
                &&& (fusion_views(fusion.base@), fusion_views(fusion.graph_only@)) == gathered(
                    api::scored_views(base_candidates@),
                    api::scored_views(graph_candidates@),
                    top_k as nat,
                )
            },
        },
{
    if top_k == 0 {
        return GraphFusionStep::Done(Vec::new());
    }
    if graph_candidates.is_empty() {
        return GraphFusionStep::Done(rank_results(base_candidates, top_k));
    }
    let protected = rank_results(base_candidates, top_k);
    let ghost p = api::scored_views(protected@);
    let mut base: Vec<GraphFusionCandidate> = Vec::new();
    assert(fusion_views(base@) =~= Seq::empty());
    assert(p.take(0) =~= Seq::empty());
    let mut i: usize = 0;
    while i < protected.len()
        invariant
            i <= protected@.len(),
            p == api::scored_views(protected@),
            fusion_views(base@) == base_gathered(p.take(i as int)),
        decreases protected@.len() - i,
    {
        add_base(&mut base, &protected[i], i + 1);
        assert(p.take(i + 1).drop_last() =~= p.take(i as int));
        assert(p.take(i + 1).last() == protected@[i as int]@);
        i += 1;
    }
    assert(p.take(i as int) =~= p);
    let ghost start = fusion_views(base@);
    let graph = sort_scored_desc(graph_candidates);
    let ghost g = api::scored_views(graph@);
    let mut only: Vec<GraphFusionCandidate> = Vec::new();
    assert(fusion_views(only@) =~= Seq::empty());
    assert(g.take(0) =~= Seq::empty());
    let mut j: usize = 0;
    while j < graph.len()
        invariant
            j <= graph@.len(),
            g == api::scored_views(graph@),
            (fusion_views(base@), fusion_views(only@)) == graph_gathered(
                start,
                g.take(j as int),
            ),
        decreases graph@.len() - j,
    {
        let ghost b = fusion_views(base@);
        assert(g.take(j + 1).drop_last() =~= g.take(j as int));
        assert(g.take(j + 1).last() == graph@[j as int]@);
        let at = find_fusion(&base, graph[j].record.id.as_str());
        if at < base.len() {
            assert(b[at as int] == base@[at as int]@);
            let mut known = base[at].clone();
            enrich(&mut known, &graph[j], j + 1);
            base.set(at, known);
            assert(fusion_views(base@) =~= b.update(
                at as int,
                enriched(b[at as int], graph@[j as int]@, (j + 1) as usize),
            ));
        } else {
            add_graph_only(&mut only, &graph[j], j + 1);
        }
        j += 1;
    }
    assert(g.take(j as int) =~= g);
    GraphFusionStep::Score(GraphFusion { base, graph_only: only })
}

/// How many results the graph alone may contribute: the configured number or
/// else `default_limit`, but never more than all the results.
pub fn graph_only_result_limit(
    top_k: usize,
    configured_limit: Option<usize>,
    default_limit: usize,
) -> (r: usize)
    ensures
        r == api::lesser_of(
            match configured_limit {
                Some(limit) => limit as nat,
                None => default_limit as nat,
            },
            top_k as nat,
        ),
{
    let limit = match configured_limit {
        Some(limit) => limit,
        None => default_limit,
    };
    if limit <= top_k {
        limit
    } else {
        top_k
    }
}

/// The base candidates with their fused scores, or with their own scores where
/// the graph does not rerank.
pub open spec fn base_results(
    base: Seq<FusionView>,
    scores: Seq<i32>,
    rerank: bool,
) -> Seq<ScoredView> {
    Seq::new(
        base.len(),
        |i: int|
            ScoredView {
                record: base[i].record,
                score: if rerank {
                    scores[i] as int
                } else {
                    match base[i].base_score {
                        Some(score) => score as int,
                        None => 0,
                    }
                },
            },
    )
}

/// The candidates of the graph alone with their fused scores.
pub open spec fn only_results(only: Seq<FusionView>, scores: Seq<i32>) -> Seq<ScoredView> {
    Seq::new(
        only.len(),
        |i: int| ScoredView { record: only[i].record, score: scores[i] as int },
    )
}

/// The results of a fusion. Where the graph alone may contribute, its best
/// `limit` candidates are sure of their places and the base candidates share
/// the rest.
pub open spec fn fused(
    base: Seq<ScoredView>,
    only: Seq<ScoredView>,
    top_k: nat,
    add_graph_only: bool,
    limit: nat,
) -> Seq<ScoredView> {
    if add_graph_only {
        let extra = ranking::top_ranked(only, limit);
        let room = if top_k >= extra.len() {
            (top_k - extra.len()) as nat
        } else {
            0
        };
        ranking::top_ranked(ranking::top_ranked(base, room) + extra, top_k)
    } else {
        ranking::top_ranked(base, top_k)
    }
}

/// The second half of a fusion: the results from the candidates and their
/// fused scores.
pub fn complete_graph_fusion(
    fusion: &GraphFusion,
    base_scores: &Vec<i32>,
    graph_only_scores: &Vec<i32>,
    top_k: usize,
    rerank_with_graph: bool,
    add_graph_only: bool,
    graph_only_limit: usize,
) -> (r: Vec<ScoredMemory>)
    requires
        base_scores@.len() == fusion.base@.len(),
        graph_only_scores@.len() == fusion.graph_only@.len(),
    ensures
        api::scored_views(r@) == fused(
            base_results(fusion_views(fusion.base@), base_scores@, rerank_with_graph),
            only_results(fusion_views(fusion.graph_only@), graph_only_scores@),
            top_k as nat,
            add_graph_only,
            graph_only_limit as nat,
        ),
{
    let ghost want = base_results(fusion_views(fusion.base@), base_scores@, rerank_with_graph);
    let mut base: Vec<ScoredMemory> = Vec::new();
    let mut i: usize = 0;
    while i < fusion.base.len()
        invariant
            i <= fusion.base@.len(),
            base_scores@.len() == fusion.base@.len(),
            base@.len() == i,
            want == base_results(fusion_views(fusion.base@), base_scores@, rerank_with_graph),
            forall|k: int| 0 <= k < i ==> (#[trigger] base@[k])@ == want[k],
        decreases fusion.base@.len() - i,
    {
        let candidate = &fusion.base[i];
        let score: i32 = if rerank_with_graph {
            base_scores[i]
        } else {
            match candidate.base_score {
                Some(score) => score,
                None => 0,
            }
        };
        base.push(ScoredMemory { record: candidate.record.clone(), score });
        i += 1;
    }
    assert(api::scored_views(base@) =~= want);
    if !add_graph_only {
        return rank_results(base, top_k);
    }
    let ghost extra_all = only_results(fusion_views(fusion.graph_only@), graph_only_scores@);
    let mut only: Vec<ScoredMemory> = Vec::new();
    let mut j: usize = 0;
    while j < fusion.graph_only.len()
        invariant
            j <= fusion.graph_only@.len(),
            graph_only_scores@.len() == fusion.graph_only@.len(),
            only@.len() == j,
            extra_all == only_results(fusion_views(fusion.graph_only@), graph_only_scores@),
            forall|k: int| 0 <= k < j ==> (#[trigger] only@[k])@ == extra_all[k],
        decreases fusion.graph_only@.len() - j,
    {
        only.push(
            ScoredMemory {
                record: fusion.graph_only[j].record.clone(),
                score: graph_only_scores[j],
            },
        );
        j += 1;
    }
    assert(api::scored_views(only@) =~= extra_all);
    let mut extra = rank_results(only, graph_only_limit);
    let ghost e = api::scored_views(extra@);
    assert(e.len() == extra@.len());
    let room: usize = if top_k >= extra.len() {
        top_k - extra.len()
    } else {
        0
    };
    let mut results = rank_results(base, room);
    let ghost b = api::scored_views(results@);
    let ghost results_before = results@;
    let ghost extra_before = extra@;
    results.append(&mut extra);
    assert(results@ =~= results_before + extra_before);
    assert(api::scored_views(results@) =~= b + e);
    rank_results(results, top_k)
}

/// Every ranked result is one of those that were ranked.
pub proof fn lemma_top_ranked_from(s: Seq<ScoredView>, limit: nat, i: int)
    requires
        0 <= i < ranking::top_ranked(s, limit).len(),
    ensures
        s.contains(ranking::top_ranked(s, limit)[i]),
        ranking::top_ranked(s, limit).len() == api::lesser_of(limit, s.len()),
{
    broadcast use vstd::seq_lib::group_to_multiset_ensures;
    ranking::ranking_orders_and_keeps_all(s);
    let r = ranking::ranked(s);
    let x = ranking::top_ranked(s, limit)[i];
    assert(x == r[i]);
    assert(r.contains(x));
    assert(r.to_multiset().contains(x));
    assert(s.to_multiset().contains(x));
}

/// The finds of the graph leave the base candidates in place: none is added,
/// none is lost, and each keeps its id, its score and its rank.
pub proof fn graph_finds_keep_base_candidates(base: Seq<FusionView>, graph: Seq<ScoredView>)
    ensures
        graph_gathered(base, graph).0.len() == base.len(),
        forall|i: int|
            0 <= i < base.len() ==> {
                &&& (#[trigger] graph_gathered(base, graph).0[i]).record.id == base[i].record.id
                &&& graph_gathered(base, graph).0[i].base_score == base[i].base_score
                &&& graph_gathered(base, graph).0[i].base_rank == base[i].base_rank
            },
    decreases graph.len(),
{
    if graph.len() > 0 {
        graph_finds_keep_base_candidates(base, graph.drop_last());
        let b = graph_gathered(base, graph.drop_last()).0;
        lemma_fusion_index(b, graph.last().record.id);
    }
}

proof fn lemma_base_gathered_ids(s: Seq<ScoredView>, i: int)
    requires
        0 <= i < base_gathered(s).len(),
    ensures
        exists|j: int| 0 <= j < s.len() && (#[trigger] s[j]).record.id == base_gathered(s)[i].record.id,
    decreases s.len(),
{
    let before = base_gathered(s.drop_last());
    lemma_fusion_index(before, s.last().record.id);
    if i < before.len() && base_gathered(s)[i].record.id == before[i].record.id {
        lemma_base_gathered_ids(s.drop_last(), i);
        let j = choose|j: int|
            0 <= j < s.drop_last().len() && (#[trigger] s.drop_last()[j]).record.id
                == before[i].record.id;
        assert(s[j].record.id == before[i].record.id);
    } else {
        assert(s[s.len() - 1].record.id == base_gathered(s)[i].record.id);
    }
}

/// Unless the graph alone may contribute, the graph adds no record: every
/// result of a fusion is a record that the base channel has found, whatever
/// the fused scores are.
pub proof fn fusion_protects_base_candidates(
    base: Seq<ScoredView>,
    graph: Seq<ScoredView>,
    scores: Seq<i32>,
    only: Seq<ScoredView>,
    top_k: nat,
    rerank: bool,
    limit: nat,
    i: int,
)
    requires
        0 <= i < fused(
            base_results(gathered(base, graph, top_k).0, scores, rerank),
            only,
            top_k,
            false,
            limit,
        ).len(),
    ensures
        exists|j: int|
            0 <= j < base.len() && (#[trigger] base[j]).record.id == fused(
                base_results(gathered(base, graph, top_k).0, scores, rerank),
                only,
                top_k,
                false,
                limit,
            )[i].record.id,
{
    let protected = ranking::top_ranked(base, top_k);
    let start = base_gathered(protected);
    let b = gathered(base, graph, top_k).0;
    graph_finds_keep_base_candidates(start, ranking::ranked(graph));
    let results = base_results(b, scores, rerank);
    lemma_top_ranked_from(results, top_k, i);
    let x = ranking::top_ranked(results, top_k)[i];
    let k = choose|k: int| 0 <= k < results.len() && results[k] == x;
    assert(results[k].record == b[k].record);
    assert(b[k].record.id == start[k].record.id);
    lemma_base_gathered_ids(protected, k);
    let p = choose|p: int|
        0 <= p < protected.len() && (#[trigger] protected[p]).record.id == start[k].record.id;
    lemma_top_ranked_from(base, top_k, p);
    let j = choose|j: int| 0 <= j < base.len() && base[j] == protected[p];
    assert(base[j].record.id == x.record.id);
}

/// A fusion never gives more results than are wanted.
pub proof fn fusion_respects_top_k(
    base: Seq<ScoredView>,
    only: Seq<ScoredView>,
    top_k: nat,
    add_graph_only: bool,
    limit: nat,
)
    ensures
        fused(base, only, top_k, add_graph_only, limit).len() <= top_k,
{
    ranking::ranking_orders_and_keeps_all(base);
    ranking::ranking_orders_and_keeps_all(only);
    if add_graph_only {
        let extra = ranking::top_ranked(only, limit);
        let room = if top_k >= extra.len() {
            (top_k - extra.len()) as nat
        } else {
            0
        };
        ranking::ranking_orders_and_keeps_all(ranking::top_ranked(base, room) + extra);
    }
}

/// Whether scores are within the range of places.
pub open spec fn are_places(s: Seq<ScoredView>) -> bool {
    forall|i: int| 0 <= i < s.len() ==> i32::MIN <= (#[trigger] s[i]).score <= i32::MAX
}

/// Whether two candidates are the same but for their scores.
pub open spec fn same_but_scores(a: FusionView, b: FusionView) -> bool {
    a.record == b.record && a.base_rank == b.base_rank && a.graph_rank == b.graph_rank
}

pub open spec fn all_same_but_scores(a: Seq<FusionView>, b: Seq<FusionView>) -> bool {
    &&& a.len() == b.len()
    &&& forall|i: int| 0 <= i < a.len() ==> same_but_scores(#[trigger] a[i], b[i])
}

proof fn lemma_same_fusion_index(a: Seq<FusionView>, b: Seq<FusionView>, id: Seq<char>)
    requires
        all_same_but_scores(a, b),
    ensures
        fusion_index(a, id) == fusion_index(b, id),
    decreases a.len(),
{
    if a.len() > 0 {
        assert(same_but_scores(a[0], b[0]));
        if a[0].record.id != id {
            let a1 = a.drop_first();
            let b1 = b.drop_first();
            assert forall|i: int| 0 <= i < a1.len() implies same_but_scores(
                #[trigger] a1[i],
                b1[i],
            ) by {
                assert(a1[i] == a[i + 1] && b1[i] == b[i + 1]);
            }
            lemma_same_fusion_index(a1, b1, id);
        }
    }
}

proof fn lemma_ranked_front(s: Seq<ScoredView>)
    requires
        ranking::in_rank_order(s),
        s.len() > 0,
    ensures
        ranking::in_rank_order(s.drop_last()),
        s.len() > 1 ==> s.drop_last().last().score >= s.last().score,
{
    let front = s.drop_last();
    assert forall|i: int, j: int| 0 <= i < j < front.len() implies !ranking::ranks_before(
        #[trigger] front[j],
        #[trigger] front[i],
    ) by {
        assert(front[i] == s[i] && front[j] == s[j]);
    }
    if s.len() > 1 {
        assert(!ranking::ranks_before(s[s.len() - 1], s[s.len() - 2]));
    }
}

/// Of results in order, no later one is better than a candidate that is there.
proof fn lemma_base_scores(s: Seq<ScoredView>, i: int)
    requires
        ranking::in_rank_order(s),
        are_places(s),
        s.len() > 0,
        0 <= i < base_gathered(s).len(),
    ensures
        base_gathered(s)[i].base_score is Some,
        base_gathered(s)[i].base_score->0 >= s.last().score,
    decreases s.len(),
{
    let front = s.drop_last();
    let known = base_gathered(front);
    let x = s.last();
    lemma_ranked_front(s);
    lemma_fusion_index(known, x.record.id);
    assert(are_places(front)) by {
        assert forall|k: int| 0 <= k < front.len() implies i32::MIN <= (
        #[trigger] front[k]).score <= i32::MAX by {
            assert(front[k] == s[k]);
        }
    }
    assert(i32::MIN <= s[s.len() - 1].score <= i32::MAX);
    if i < known.len() {
        lemma_base_scores(front, i);
        let k = fusion_index(known, x.record.id);
        if k < known.len() {
            lemma_base_scores(front, k);
        }
    }
}

proof fn lemma_places_front(s: Seq<ScoredView>)
    requires
        are_places(s),
        s.len() > 0,
    ensures
        are_places(s.drop_last()),
        i32::MIN <= s.last().score <= i32::MAX,
{
    let front = s.drop_last();
    assert forall|k: int| 0 <= k < front.len() implies i32::MIN <= (#[trigger] front[k]).score
        <= i32::MAX by {
        assert(front[k] == s[k]);
    }
    assert(s[s.len() - 1] == s.last());
}

proof fn lemma_same_order_front(s: Seq<ScoredView>, t: Seq<ScoredView>)
    requires
        ranking::same_order(s, t),
        s.len() > 0,
    ensures
        ranking::same_order(s.drop_last(), t.drop_last()),
        s.last().record == t.last().record,
{
    let a = s.drop_last();
    let b = t.drop_last();
    assert forall|i: int, j: int|
        #![trigger a[i], a[j]]
        0 <= i < a.len() && 0 <= j < a.len() implies (a[i].score > a[j].score) == (b[i].score
        > b[j].score) by {
        assert(a[i] == s[i] && a[j] == s[j] && b[i] == t[i] && b[j] == t[j]);
    }
    assert forall|i: int| 0 <= i < a.len() implies (#[trigger] a[i]).record == b[i].record by {
        assert(a[i] == s[i] && b[i] == t[i]);
    }
    assert(s[s.len() - 1].record == t[s.len() - 1].record);
}

proof fn lemma_base_alike(s: Seq<ScoredView>, t: Seq<ScoredView>)
    requires
        ranking::same_order(s, t),
        ranking::in_rank_order(s),
        ranking::in_rank_order(t),
        are_places(s),
        are_places(t),
    ensures
        all_same_but_scores(base_gathered(s), base_gathered(t)),
    decreases s.len(),
{
    if s.len() > 0 {
        lemma_same_order_front(s, t);
        lemma_ranked_front(s);
        lemma_ranked_front(t);
        lemma_places_front(s);
        lemma_places_front(t);
        lemma_base_alike(s.drop_last(), t.drop_last());
        let a = base_gathered(s.drop_last());
        let b = base_gathered(t.drop_last());
        let id = s.last().record.id;
        lemma_same_fusion_index(a, b, id);
        lemma_fusion_index(a, id);
        let k = fusion_index(a, id);
        if k < a.len() {
            lemma_base_scores(s.drop_last(), k);
            lemma_base_scores(t.drop_last(), k);
        }
    }
}

proof fn lemma_only_scores(base: Seq<FusionView>, s: Seq<ScoredView>, i: int)
    requires
        ranking::in_rank_order(s),
        are_places(s),
        s.len() > 0,
        0 <= i < graph_gathered(base, s).1.len(),
    ensures
        graph_gathered(base, s).1[i].graph_score is Some,
        graph_gathered(base, s).1[i].graph_score->0 >= s.last().score,
    decreases s.len(),
{
    let front = s.drop_last();
    let (b, only) = graph_gathered(base, front);
    let x = s.last();
    lemma_ranked_front(s);
    lemma_places_front(s);
    lemma_fusion_index(only, x.record.id);
    lemma_fusion_index(b, x.record.id);
    if i < only.len() {
        lemma_only_scores(base, front, i);
        let k = fusion_index(only, x.record.id);
        if k < only.len() {
            lemma_only_scores(base, front, k);
        }
    }
}

proof fn lemma_graph_alike(
    a: Seq<FusionView>,
    b: Seq<FusionView>,
    s: Seq<ScoredView>,
    t: Seq<ScoredView>,
)
    requires
        all_same_but_scores(a, b),
        ranking::same_order(s, t),
        ranking::in_rank_order(s),
        ranking::in_rank_order(t),
        are_places(s),
        are_places(t),
    ensures
        all_same_but_scores(graph_gathered(a, s).0, graph_gathered(b, t).0),
        all_same_but_scores(graph_gathered(a, s).1, graph_gathered(b, t).1),
    decreases s.len(),
{
    if s.len() > 0 {
        lemma_same_order_front(s, t);
        lemma_ranked_front(s);
        lemma_ranked_front(t);
        lemma_places_front(s);
        lemma_places_front(t);
        lemma_graph_alike(a, b, s.drop_last(), t.drop_last());
        let (b1, only1) = graph_gathered(a, s.drop_last());
        let (b2, only2) = graph_gathered(b, t.drop_last());
        let id = s.last().record.id;
        lemma_same_fusion_index(b1, b2, id);
        lemma_same_fusion_index(only1, only2, id);
        lemma_fusion_index(b1, id);
        lemma_fusion_index(only1, id);
        let i = fusion_index(b1, id);
        let k = fusion_index(only1, id);
        if i < b1.len() {
            assert(same_but_scores(b1[i], b2[i]));
        } else if k < only1.len() {
            lemma_only_scores(a, s.drop_last(), k);
            lemma_only_scores(b, t.drop_last(), k);
        }
    }
}

/// What a fusion gathers goes by the ranks in each channel: where the channels
/// order their finds in the same way, the candidates and their ranks are the
/// same, whatever the scale of the scores.
pub proof fn fusion_ignores_the_scale_of_scores(
    base: Seq<ScoredView>,
    other_base: Seq<ScoredView>,
    graph: Seq<ScoredView>,
    other_graph: Seq<ScoredView>,
    top_k: nat,
)
    requires
        ranking::same_order(base, other_base),
        ranking::same_order(graph, other_graph),
        are_places(base),
        are_places(other_base),
        are_places(graph),
        are_places(other_graph),
    ensures
        all_same_but_scores(
            gathered(base, graph, top_k).0,
            gathered(other_base, other_graph, top_k).0,
        ),
        all_same_but_scores(
            gathered(base, graph, top_k).1,
            gathered(other_base, other_graph, top_k).1,
        ),
{
    ranking::ranking_ignores_the_scale_of_scores(base, other_base, top_k);
    ranking::ranking_ignores_the_scale_of_scores(graph, other_graph, top_k);
    lemma_top_is_ordered(base, top_k);
    lemma_top_is_ordered(other_base, top_k);
    lemma_top_is_ordered(graph, graph.len());
    lemma_top_is_ordered(other_graph, other_graph.len());
    ranking::ranking_orders_and_keeps_all(graph);
    ranking::ranking_orders_and_keeps_all(other_graph);
    assert(ranking::top_ranked(graph, graph.len()) =~= ranking::ranked(graph));
    assert(ranking::top_ranked(other_graph, other_graph.len()) =~= ranking::ranked(other_graph));
    let b = base_gathered(ranking::top_ranked(base, top_k));
    let c = base_gathered(ranking::top_ranked(other_base, top_k));
    lemma_base_alike(ranking::top_ranked(base, top_k), ranking::top_ranked(other_base, top_k));
    lemma_graph_alike(b, c, ranking::ranked(graph), ranking::ranked(other_graph));
}

proof fn lemma_top_is_ordered(s: Seq<ScoredView>, limit: nat)
    requires
        are_places(s),
    ensures
        ranking::in_rank_order(ranking::top_ranked(s, limit)),
        are_places(ranking::top_ranked(s, limit)),
{
    broadcast use vstd::seq_lib::group_to_multiset_ensures;

    ranking::ranking_orders_and_keeps_all(s);
    let all = ranking::ranked(s);
    let top = ranking::top_ranked(s, limit);
    assert forall|i: int, j: int| 0 <= i < j < top.len() implies !ranking::ranks_before(
        #[trigger] top[j],
        #[trigger] top[i],
    ) by {
        assert(top[i] == all[i] && top[j] == all[j]);
    }
    assert forall|i: int| 0 <= i < top.len() implies i32::MIN <= (#[trigger] top[i]).score
        <= i32::MAX by {
        assert(top[i] == all[i]);
        assert(all.to_multiset().contains(all[i]));
        assert(s.contains(all[i]));
        let k = s.index_of(all[i]);
        assert(s[k] == all[i]);
    }
}

} // verus!
