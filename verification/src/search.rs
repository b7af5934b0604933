//! How a search for memories runs.
//!
//! A search alternates between work that is done elsewhere (embedding the
//! query, asking the stores, computing scores, reranking) and the decision what
//! to do next. A [`SearchStep`] names the work to do and carries what has been
//! found so far; the functions of this module take the outcome of that work
//! and decide on the next step.

use vstd::prelude::*;
use vstd::string::*;

use crate::api;
use crate::api::{
    GraphRetrieveContextRequest, RetrievalConfig, ScoredMemory, ScoredView, SearchMemoryRequest,
    SearchMode,
};
use crate::error::{MemoryError, MemoryErrorView};
use crate::graph_context;
use crate::graph_context::collect_graph_candidates;
use crate::graph_fusion;
use crate::graph_fusion::{
    begin_graph_fusion, complete_graph_fusion, graph_only_result_limit, FusionView, GraphFusion,
    GraphFusionStep,
};
use crate::graph_types;
use crate::graph_types::{EvidenceRecordContextUnit, FactContextUnit};
use crate::json;
use crate::ranking;
use crate::ranking::{
    fuse_hybrid_candidates, merge_hybrid_candidates, truncate_results, HybridCandidate, HybridView,
};
use crate::text;
use crate::text::{clone_opt, trim};

verus! {

/// What a search works with: the settings, the request, and whether the store
/// is an SQLite database and a reranker is configured.
pub struct SearchSetup<'a> {
    pub config: &'a RetrievalConfig,
    pub request: &'a SearchMemoryRequest,
    pub sqlite: bool,
    pub reranker: bool,
}

/// What a search does next.
#[derive(Debug)]
pub enum SearchStep {
    /// Embed the query.
    Embed { query: String },
    /// Ask the store for the records nearest to the query's embedding.
    Dense { limit: usize },
    /// Ask the store for the records that match the query's words.
    Keywords { dense: Vec<ScoredMemory>, query: String, limit: usize },
    /// Compute the fused score of each candidate.
    ScoreHybrid { merged: Vec<HybridCandidate>, limit: usize },
    /// Ask the memory graph for the context of the query.
    Graph {
        base: Vec<ScoredMemory>,
        request: GraphRetrieveContextRequest,
        target_subject: Option<String>,
        target_evidence_speaker: Option<String>,
    },
    /// Compute the fused score of each candidate from its ranks.
    ScoreFusion { fusion: GraphFusion, limit: usize },
    /// Have the candidates reranked.
    Rerank { query: String, candidates: Vec<ScoredMemory> },
    /// The search is over.
    Finish(Result<Vec<ScoredMemory>, MemoryError>),
}

/// What a [`SearchStep`] stands for.
pub enum StepView {
    Embed(Seq<char>),
    Dense(usize),
    Keywords(Seq<ScoredView>, Seq<char>, usize),
    ScoreHybrid(Seq<HybridView>, usize),
    Graph(Seq<ScoredView>, GraphQuestion),
    ScoreFusion(Seq<FusionView>, Seq<FusionView>, usize),
    Rerank(Seq<char>, Seq<ScoredView>),
    Finish(Result<Seq<ScoredView>, MemoryErrorView>),
}

/// What the memory graph is asked.
pub struct GraphQuestion {
    pub memory_space_id: Seq<char>,
    pub query: Seq<char>,
    pub top_k: usize,
    pub reference_time_ms: Option<u64>,
    pub seed_limit: Option<usize>,
    pub max_evidence_records_per_fact: Option<usize>,
    pub target_subject: Option<Seq<char>>,
    pub target_evidence_speaker: Option<Seq<char>>,
}

impl View for SearchStep {
    type V = StepView;

    open spec fn view(&self) -> StepView {
        match self {
            SearchStep::Embed { query } => StepView::Embed(query@),
            SearchStep::Dense { limit } => StepView::Dense(*limit),
            SearchStep::Keywords { dense, query, limit } => StepView::Keywords(
                api::scored_views(dense@),
                query@,
                *limit,
            ),
            SearchStep::ScoreHybrid { merged, limit } => StepView::ScoreHybrid(
                ranking::hybrid_views(merged@),
                *limit,
            ),
            SearchStep::Graph { base, request, target_subject, target_evidence_speaker } =>
            StepView::Graph(
                api::scored_views(base@),
                GraphQuestion {
                    memory_space_id: request.memory_space_id@,
                    query: request.query@,
                    top_k: request.top_k,
                    reference_time_ms: request.reference_time_ms,
                    seed_limit: request.seed_limit,
                    max_evidence_records_per_fact: request.max_evidence_records_per_fact,
                    target_subject: json::opt_string(*target_subject),
                    target_evidence_speaker: json::opt_string(*target_evidence_speaker),
                },
            ),
            SearchStep::ScoreFusion { fusion, limit } => StepView::ScoreFusion(
                graph_fusion::fusion_views(fusion.base@),
                graph_fusion::fusion_views(fusion.graph_only@),
                *limit,
            ),
            SearchStep::Rerank { query, candidates } => StepView::Rerank(
                query@,
                api::scored_views(candidates@),
            ),
            SearchStep::Finish(Ok(results)) => StepView::Finish(Ok(api::scored_views(results@))),
            SearchStep::Finish(Err(e)) => StepView::Finish(Err(e@)),
        }
    }
}

pub open spec fn done(results: Seq<ScoredView>) -> StepView {
    StepView::Finish(Ok(results))
}

pub open spec fn failed(e: MemoryErrorView) -> StepView {
    StepView::Finish(Err(e))
}

pub open spec fn empty_query() -> MemoryErrorView {
    MemoryErrorView::InvalidInput("search query must not be empty"@)
}

/// What is known of the memory graph before it is asked.
pub enum GraphLookup {
    /// It has nothing to contribute.
    Skip,
    /// It cannot be asked.
    Fail(MemoryErrorView),
    /// It is asked.
    Ask(GraphQuestion),
}

impl<'a> SearchSetup<'a> {
    pub open spec fn query(self) -> Seq<char> {
        text::trimmed(self.request.query@)
    }

    /// The memory space that the request names.
    pub open spec fn space(self) -> Seq<char> {
        match self.request.graph_memory_space_id {
            Some(id) => text::trimmed(id@),
            None => Seq::empty(),
        }
    }

    /// How many candidates each channel of a hybrid search contributes.
    pub open spec fn candidate_k(self) -> usize {
        api::candidate_limit_of(self.config.candidate_k, self.request.top_k) as usize
    }

    /// How many results the fusion of the channels leaves: more than are
    /// wanted where a hybrid search hands them on to a reranker.
    pub open spec fn result_limit(self) -> usize {
        if self.config.mode == SearchMode::Hybrid && self.config.rerank.enabled {
            api::greater_of(
                self.config.rerank.input_k as nat,
                self.request.top_k as nat,
            ) as usize
        } else {
            self.request.top_k
        }
    }

    /// Whether the graph is asked for at most `limit` candidates, and what.
    pub open spec fn graph_lookup(self, limit: usize) -> GraphLookup {
        let graph = self.config.graph;
        if !graph.enabled || limit == 0 {
            GraphLookup::Skip
        } else if self.query().len() == 0 {
            GraphLookup::Fail(empty_query())
        } else if self.space().len() == 0 {
            if graph.fail_open {
                GraphLookup::Skip
            } else {
                GraphLookup::Fail(
                    MemoryErrorView::InvalidInput(
                        "graph retrieval is enabled but graph_memory_space_id is missing"@,
                    ),
                )
            }
        } else if !self.sqlite {
            if graph.fail_open {
                GraphLookup::Skip
            } else {
                GraphLookup::Fail(
                    MemoryErrorView::StoreBackend(
                        "graph retrieval requires sqlite store backend"@,
                    ),
                )
            }
        } else {
            GraphLookup::Ask(
                GraphQuestion {
                    memory_space_id: self.space(),
                    query: self.query(),
                    top_k: limit,
                    reference_time_ms: None,
                    seed_limit: graph.seed_limit,
                    max_evidence_records_per_fact: graph.max_evidence_records_per_fact,
                    target_subject: json::opt_string(self.request.graph_target_subject),
                    target_evidence_speaker: json::opt_string(
                        self.request.graph_target_evidence_speaker,
                    ),
                },
            )
        }
    }

    /// The last part of a search: a hybrid search may have its candidates
    /// reranked, any other search is over.
    pub open spec fn with_results(self, results: Seq<ScoredView>) -> StepView {
        if self.config.mode != SearchMode::Hybrid || !self.config.rerank.enabled {
            done(results)
        } else if self.reranker {
            StepView::Rerank(self.query(), results)
        } else if self.config.rerank.fail_open {
            done(results.take(api::lesser_of(self.request.top_k as nat, results.len()) as int))
        } else {
            failed(MemoryErrorView::Rerank("rerank is enabled but no reranker is configured"@))
        }
    }

    /// Goes on with the finds of the graph beside those of the other channels.
    pub open spec fn with_graph(
        self,
        base: Seq<ScoredView>,
        graph: Seq<ScoredView>,
        limit: usize,
    ) -> StepView {
        if self.config.mode == SearchMode::Graph {
            done(graph)
        } else if limit == 0 {
            self.with_results(Seq::empty())
        } else if graph.len() == 0 {
            self.with_results(ranking::top_ranked(base, limit as nat))
        } else {
            let (b, only) = graph_fusion::gathered(base, graph, limit as nat);
            StepView::ScoreFusion(b, only, limit)
        }
    }

    /// Goes on with the finds of the channels other than the graph.
    pub open spec fn with_base(self, base: Seq<ScoredView>, limit: usize) -> StepView {
        if self.config.mode != SearchMode::Graph && !self.config.graph.enabled {
            self.with_results(base)
        } else {
            match self.graph_lookup(limit) {
                GraphLookup::Skip => self.with_graph(base, Seq::empty(), limit),
                GraphLookup::Fail(e) => failed(e),
                GraphLookup::Ask(question) => StepView::Graph(base, question),
            }
        }
    }

    /// Goes on with asking for the words of the query, which only an SQLite
    /// store can answer.
    pub open spec fn to_keywords(self, dense: Seq<ScoredView>, limit: usize) -> StepView {
        if self.sqlite {
            StepView::Keywords(dense, self.query(), limit)
        } else {
            failed(
                MemoryErrorView::StoreBackend(
                    self.config.mode.name() + " search requires sqlite store backend"@,
                ),
            )
        }
    }

    /// The first step of a search.
    pub open spec fn first_step(self) -> StepView {
        if self.request.top_k == 0 {
            done(Seq::empty())
        } else if self.query().len() == 0 {
            failed(empty_query())
        } else {
            match self.config.mode {
                SearchMode::Dense => StepView::Embed(self.query()),
                SearchMode::Hybrid => StepView::Embed(self.query()),
                SearchMode::Bm25 => self.to_keywords(Seq::empty(), self.request.top_k),
                SearchMode::Graph => self.with_base(Seq::empty(), self.request.top_k),
            }
        }
    }

    fn candidate_limit(&self) -> (r: usize)
        ensures
            r == self.candidate_k(),
    {
        self.config.candidate_limit(self.request.top_k)
    }

    fn fusion_limit(&self) -> (r: usize)
        ensures
            r == self.result_limit(),
    {
        if self.config.mode == SearchMode::Hybrid && self.config.rerank.enabled {
            self.config.rerank.input_limit(self.request.top_k)
        } else {
            self.request.top_k
        }
    }

    fn finish_channels(&self, results: Vec<ScoredMemory>) -> (r: SearchStep)
        ensures
            r@ == self.with_results(api::scored_views(results@)),
    {
        if self.config.mode != SearchMode::Hybrid || !self.config.rerank.enabled {
            SearchStep::Finish(Ok(results))
        } else if self.reranker {
            SearchStep::Rerank {
                query: trim(self.request.query.as_str()).to_owned(),
                candidates: results,
            }
        } else if self.config.rerank.fail_open {
            let mut kept = results;
            truncate_results(&mut kept, self.request.top_k);
            SearchStep::Finish(Ok(kept))
        } else {
            SearchStep::Finish(
                Err(
                    MemoryError::Rerank {
                        message: "rerank is enabled but no reranker is configured".to_owned(),
                    },
                ),
            )
        }
    }

    fn join_graph(
        &self,
        base: Vec<ScoredMemory>,
        graph: Vec<ScoredMemory>,
        limit: usize,
    ) -> (r: SearchStep)
        ensures
            r@ == self.with_graph(api::scored_views(base@), api::scored_views(graph@), limit),
    {
        if self.config.mode == SearchMode::Graph {
            return SearchStep::Finish(Ok(graph));
        }
        let ghost b = api::scored_views(base@);
        let ghost g = api::scored_views(graph@);
        match begin_graph_fusion(base, graph, limit) {
            GraphFusionStep::Done(results) => {
                assert(limit == 0 ==> api::scored_views(results@) =~= Seq::empty());
                self.finish_channels(results)
            },
            GraphFusionStep::Score(fusion) => SearchStep::ScoreFusion { fusion, limit },
        }
    }

    fn ask_graph(&self, base: Vec<ScoredMemory>, limit: usize) -> (r: SearchStep)
        ensures
            r@ == self.with_base(api::scored_views(base@), limit),
    {
        if self.config.mode != SearchMode::Graph && !self.config.graph.enabled {
            return self.finish_channels(base);
        }
        let none: Vec<ScoredMemory> = Vec::new();
        assert(api::scored_views(none@) =~= Seq::empty());
        if !self.config.graph.enabled || limit == 0 {
            return self.join_graph(base, none, limit);
        }
        let query = trim(self.request.query.as_str());
        if query.is_empty() {
            return SearchStep::Finish(
                Err(MemoryError::invalid_input("search query must not be empty")),
            );
        }
        let space = match &self.request.graph_memory_space_id {
            Some(id) => trim(id.as_str()).to_owned(),
            None => String::new(),
        };
        if space.as_str().is_empty() {
            if self.config.graph.fail_open {
                return self.join_graph(base, none, limit);
            }
            return SearchStep::Finish(
                Err(
                    MemoryError::invalid_input(
                        "graph retrieval is enabled but graph_memory_space_id is missing",
                    ),
                ),
            );
        }
        if !self.sqlite {
            if self.config.graph.fail_open {
                return self.join_graph(base, none, limit);
            }
            return SearchStep::Finish(
                Err(MemoryError::store_backend("graph retrieval requires sqlite store backend")),
            );
        }
        SearchStep::Graph {
            base,
            request: GraphRetrieveContextRequest {
                memory_space_id: space,
                query: query.to_owned(),
                top_k: limit,
                reference_time_ms: None,
                seed_limit: self.config.graph.seed_limit,
                max_evidence_records_per_fact: self.config.graph.max_evidence_records_per_fact,
            },
            target_subject: clone_opt(&self.request.graph_target_subject),
            target_evidence_speaker: clone_opt(&self.request.graph_target_evidence_speaker),
        }
    }

    fn ask_keywords(&self, dense: Vec<ScoredMemory>, limit: usize) -> (r: SearchStep)
        ensures
            r@ == self.to_keywords(api::scored_views(dense@), limit),
    {
        if self.sqlite {
            SearchStep::Keywords {
                dense,
                query: trim(self.request.query.as_str()).to_owned(),
                limit,
            }
        } else {
            let mut message = self.config.mode.as_str().to_owned();
            message.append(" search requires sqlite store backend");
            SearchStep::Finish(Err(MemoryError::StoreBackend { message }))
        }
    }

    /// Starts a search. Where no results are wanted there are none; a blank
    /// query is refused.
    pub fn start(&self) -> (r: SearchStep)
        ensures
            r@ == self.first_step(),
    {
        let none: Vec<ScoredMemory> = Vec::new();
        assert(api::scored_views(none@) =~= Seq::empty());
        if self.request.top_k == 0 {
            return SearchStep::Finish(Ok(none));
        }
        let query = trim(self.request.query.as_str());
        if query.is_empty() {
            return SearchStep::Finish(
                Err(MemoryError::invalid_input("search query must not be empty")),
            );
        }
        match self.config.mode {
            SearchMode::Dense => SearchStep::Embed { query: query.to_owned() },
            SearchMode::Hybrid => SearchStep::Embed { query: query.to_owned() },
            SearchMode::Bm25 => self.ask_keywords(none, self.request.top_k),
            SearchMode::Graph => self.ask_graph(none, self.request.top_k),
        }
    }

    /// Goes on once the query is embedded: a dense search asks for as many
    /// records as are wanted, a hybrid search for more.
    pub fn after_embedding(&self, embedded: Result<(), MemoryError>) -> (r: SearchStep)
        ensures
            r@ == (match embedded {
                Ok(_) => StepView::Dense(
                    if self.config.mode == SearchMode::Hybrid {
                        self.candidate_k()
                    } else {
                        self.request.top_k
                    },
                ),
                Err(e) => failed(e@),
            }),
    {
        match embedded {
            Ok(_) => if self.config.mode == SearchMode::Hybrid {
                SearchStep::Dense { limit: self.candidate_limit() }
            } else {
                SearchStep::Dense { limit: self.request.top_k }
            },
            Err(e) => SearchStep::Finish(Err(e)),
        }
    }

    /// Goes on with the records nearest to the query.
    pub fn after_dense(&self, found: Result<Vec<ScoredMemory>, MemoryError>) -> (r: SearchStep)
        ensures
            r@ == (match found {
                Ok(dense) => if self.config.mode == SearchMode::Hybrid {
                    self.to_keywords(api::scored_views(dense@), self.candidate_k())
                } else {
                    self.with_base(api::scored_views(dense@), self.request.top_k)
                },
                Err(e) => failed(e@),
            }),
    {
        match found {
            Ok(dense) => if self.config.mode == SearchMode::Hybrid {
                self.ask_keywords(dense, self.candidate_limit())
            } else {
                self.ask_graph(dense, self.request.top_k)
            },
            Err(e) => SearchStep::Finish(Err(e)),
        }
    }

    /// Goes on with the records that match the query's words.
    pub fn after_keywords(
        &self,
        dense: Vec<ScoredMemory>,
        found: Result<Vec<ScoredMemory>, MemoryError>,
    ) -> (r: SearchStep)
        ensures
            r@ == (match found {
                Ok(bm25) => if self.config.mode == SearchMode::Hybrid {
                    StepView::ScoreHybrid(
                        ranking::merged_channels(
                            api::scored_views(dense@),
                            api::scored_views(bm25@),
                        ),
                        self.result_limit(),
                    )
                } else {
                    self.with_base(api::scored_views(bm25@), self.request.top_k)
                },
                Err(e) => failed(e@),
            }),
    {
        match found {
            Ok(bm25) => if self.config.mode == SearchMode::Hybrid {
                SearchStep::ScoreHybrid {
                    merged: merge_hybrid_candidates(&dense, &bm25),
                    limit: self.fusion_limit(),
                }
            } else {
                self.ask_graph(bm25, self.request.top_k)
            },
            Err(e) => SearchStep::Finish(Err(e)),
        }
    }

    /// Goes on with the fused scores of a hybrid search, one for each
    /// candidate.
    pub fn after_hybrid_scores(
        &self,
        merged: &Vec<HybridCandidate>,
        scores: &Vec<i32>,
        limit: usize,
    ) -> (r: SearchStep)
        requires
            scores@.len() == merged@.len(),
        ensures
            r@ == self.with_base(
                ranking::top_ranked(
                    ranking::with_scores(ranking::hybrid_views(merged@), scores@),
                    limit as nat,
                ),
                limit,
            ),
    {
        let fused = fuse_hybrid_candidates(merged, scores, limit);
        self.ask_graph(fused, limit)
    }

    /// Goes on with the context that the memory graph has found, or without it
    /// where the graph may fail.
    pub fn after_graph(
        &self,
        base: Vec<ScoredMemory>,
        limit: usize,
        found: Result<(Vec<FactContextUnit>, Vec<EvidenceRecordContextUnit>), MemoryError>,
    ) -> (r: SearchStep)
        ensures
            r@ == (match found {
                Ok((facts, records)) => self.with_graph(
                    api::scored_views(base@),
                    graph_context::context_candidates(
                        graph_types::fact_unit_views(facts@),
                        graph_types::record_unit_views(records@),
                        match self.request.filter {
                            Some(f) => Some(f@),
                            None => None,
                        },
                        limit as nat,
                    ),
                    limit,
                ),
                Err(e) => if self.config.graph.fail_open {
                    self.with_graph(api::scored_views(base@), Seq::empty(), limit)
                } else {
                    failed(e@)
                },
            }),
    {
        match found {
            Ok((facts, records)) => {
                let graph = collect_graph_candidates(
                    &facts,
                    &records,
                    self.request.filter.as_ref(),
                    limit,
                );
                self.join_graph(base, graph, limit)
            },
            Err(e) => if self.config.graph.fail_open {
                let none: Vec<ScoredMemory> = Vec::new();
                assert(api::scored_views(none@) =~= Seq::empty());
                self.join_graph(base, none, limit)
            } else {
                SearchStep::Finish(Err(e))
            },
        }
    }

    /// Goes on with the fused scores of the graph channel. The graph alone
    /// contributes where the settings allow it, the graph reranks, and its
    /// weight is positive.
    pub fn after_fusion_scores(
        &self,
        fusion: &GraphFusion,
        base_scores: &Vec<i32>,
        graph_only_scores: &Vec<i32>,
        limit: usize,
        graph_weight_is_positive: bool,
        default_graph_only_limit: usize,
    ) -> (r: SearchStep)
        requires
            base_scores@.len() == fusion.base@.len(),
            graph_only_scores@.len() == fusion.graph_only@.len(),
        ensures
            r@ == self.with_results(
                graph_fusion::fused(
                    graph_fusion::base_results(
                        graph_fusion::fusion_views(fusion.base@),
                        base_scores@,
                        self.config.graph.rerank_with_graph,
                    ),
                    graph_fusion::only_results(
                        graph_fusion::fusion_views(fusion.graph_only@),
                        graph_only_scores@,
                    ),
                    limit as nat,
                    self.config.graph.allow_graph_only && self.config.graph.rerank_with_graph
                        && graph_weight_is_positive,
                    api::lesser_of(
                        match self.config.graph.max_graph_only_results {
                            Some(most) => most as nat,
                            None => default_graph_only_limit as nat,
                        },
                        limit as nat,
                    ),
                ),
            ),
    {
        let graph = &self.config.graph;
        let results = complete_graph_fusion(
            fusion,
            base_scores,
            graph_only_scores,
            limit,
            graph.rerank_with_graph,
            graph.allow_graph_only && graph.rerank_with_graph && graph_weight_is_positive,
            graph_only_result_limit(limit, graph.max_graph_only_results, default_graph_only_limit),
        );
        self.finish_channels(results)
    }

    /// Ends a search with what the reranker made of the candidates. Where it
    /// failed, the candidates stand in their own order if reranking may fail.
    pub fn after_rerank(
        &self,
        candidates: Vec<ScoredMemory>,
        reranked: Result<Vec<ScoredMemory>, MemoryError>,
    ) -> (r: SearchStep)
        ensures
            r@ == rerank_outcome(
                api::scored_views(candidates@),
                match reranked {
                    Ok(results) => Ok(api::scored_views(results@)),
                    Err(e) => Err(e@),
                },
                self.request.top_k as nat,
                self.config.rerank.fail_open,
            ),
    {
        match reranked {
            Ok(results) => {
                let mut kept = results;
                truncate_results(&mut kept, self.request.top_k);
                SearchStep::Finish(Ok(kept))
            },
            Err(e) => if self.config.rerank.fail_open {
                let mut kept = candidates;
                truncate_results(&mut kept, self.request.top_k);
                SearchStep::Finish(Ok(kept))
            } else {
                SearchStep::Finish(Err(e))
            },
        }
    }
}

/// What becomes of the candidates that were handed to a reranker.
pub open spec fn rerank_outcome(
    candidates: Seq<ScoredView>,
    reranked: Result<Seq<ScoredView>, MemoryErrorView>,
    top_k: nat,
    fail_open: bool,
) -> StepView {
    match reranked {
        Ok(results) => done(results.take(api::lesser_of(top_k, results.len()) as int)),
        Err(e) => if fail_open {
            done(candidates.take(api::lesser_of(top_k, candidates.len()) as int))
        } else {
            failed(e)
        },
    }
}

/// A search whose graph channel may fail never fails on account of the graph:
/// whatever is missing, it goes on with the other channels.
pub proof fn failing_open_ignores_the_graph(setup: SearchSetup, base: Seq<ScoredView>, limit: usize)
    requires
        setup.config.graph.fail_open,
        setup.query().len() > 0,
    ensures
        setup.graph_lookup(limit) !is Fail,
        setup.graph_lookup(limit) is Skip ==> setup.with_base(base, limit) == (if setup.config.mode
            != SearchMode::Graph && !setup.config.graph.enabled {
            setup.with_results(base)
        } else {
            setup.with_graph(base, Seq::empty(), limit)
        }),
{
}

/// Reranking that may fail never fails, and never leaves more results than are
/// wanted.
pub proof fn failing_open_ignores_the_reranker(
    candidates: Seq<ScoredView>,
    reranked: Result<Seq<ScoredView>, MemoryErrorView>,
    top_k: nat,
)
    ensures
        rerank_outcome(candidates, reranked, top_k, true) matches StepView::Finish(Ok(results))
            && results.len() <= top_k,
        reranked is Err ==> rerank_outcome(candidates, reranked, top_k, false) == failed(
            reranked->Err_0,
        ),
{
}

/// The reranker is handed no fewer candidates than results are wanted, as far
/// as there are any.
pub proof fn reranker_gets_enough_candidates(setup: SearchSetup)
    requires
        setup.config.mode == SearchMode::Hybrid,
        setup.config.rerank.enabled,
    ensures
        setup.result_limit() >= setup.request.top_k,
{
}

/// Whether a step stays within the limits of a search: it ends with no more
/// results than are wanted, and hands the reranker no more than it takes.
pub open spec fn within_limits(setup: SearchSetup, step: StepView) -> bool {
    match step {
        StepView::Finish(Ok(results)) => results.len() <= setup.request.top_k,
        StepView::Rerank(_, candidates) => candidates.len() <= setup.result_limit(),
        _ => true,
    }
}

/// A search that goes on with the best finds of its channels stays within its
/// limits, with the graph or without.
pub proof fn searches_respect_their_limits(setup: SearchSetup, found: Seq<ScoredView>)
    ensures
        within_limits(
            setup,
            setup.with_base(
                ranking::top_ranked(found, setup.result_limit() as nat),
                setup.result_limit(),
            ),
        ),
{
    let base = ranking::top_ranked(found, setup.result_limit() as nat);
    ranking::ranking_orders_and_keeps_all(found);
    ranking::ranking_orders_and_keeps_all(base);
}

/// A search whose channels are fused with the graph stays within its limits.
pub proof fn fused_searches_respect_their_limits(
    setup: SearchSetup,
    base: Seq<ScoredView>,
    only: Seq<ScoredView>,
    add_only: bool,
    only_limit: nat,
)
    ensures
        within_limits(
            setup,
            setup.with_results(
                graph_fusion::fused(
                    base,
                    only,
                    setup.result_limit() as nat,
                    add_only,
                    only_limit,
                ),
            ),
        ),
{
    graph_fusion::fusion_respects_top_k(
        base,
        only,
        setup.result_limit() as nat,
        add_only,
        only_limit,
    );
}

/// Whether a question to the memory graph is about what a search asks for.
pub open spec fn asks_for(q: GraphQuestion, setup: SearchSetup, limit: usize) -> bool {
    let request = setup.request;
    &&& q.query == text::trimmed(request.query@)
    &&& request.graph_memory_space_id is Some
    &&& q.memory_space_id == text::trimmed(request.graph_memory_space_id->0@)
    &&& q.top_k == limit
    &&& q.reference_time_ms is None
    &&& q.seed_limit == setup.config.graph.seed_limit
    &&& q.max_evidence_records_per_fact == setup.config.graph.max_evidence_records_per_fact
    &&& q.target_subject == json::opt_string(request.graph_target_subject)
    &&& q.target_evidence_speaker == json::opt_string(request.graph_target_evidence_speaker)
}

/// Whether a search names a memory space.
pub open spec fn names_a_space(setup: SearchSetup) -> bool {
    setup.request.graph_memory_space_id is Some && text::trimmed(
        setup.request.graph_memory_space_id->0@,
    ).len() > 0
}

/// A search for nothing is over, and one without words is refused. Where the
/// mode needs an embedding, the trimmed query is embedded; where it needs words,
/// the store is asked for them, which has to be SQLite.
pub proof fn searches_start_by_their_mode(setup: SearchSetup)
    ensures
        ({
            let words = text::trimmed(setup.request.query@);
            let step = setup.first_step();
            let wanted = setup.request.top_k > 0;
            let asked = wanted && words.len() > 0;
            let mode = setup.config.mode;
            &&& !wanted ==> step == StepView::Finish(Ok(Seq::<ScoredView>::empty()))
            &&& wanted && words.len() == 0 ==> step == StepView::Finish(
                Err(MemoryErrorView::InvalidInput("search query must not be empty"@)),
            )
            &&& asked && (mode == SearchMode::Dense || mode == SearchMode::Hybrid) ==> step
                == StepView::Embed(words)
            &&& asked && mode == SearchMode::Bm25 && setup.sqlite ==> step == StepView::Keywords(
                Seq::<ScoredView>::empty(),
                words,
                setup.request.top_k,
            )
            &&& asked && mode == SearchMode::Bm25 && !setup.sqlite ==> (step matches StepView::Finish(
                Err(MemoryErrorView::StoreBackend(_)),
            ))
            &&& asked && mode == SearchMode::Graph && !setup.config.graph.enabled ==> step
                == StepView::Finish(Ok(Seq::<ScoredView>::empty()))
            &&& asked && mode == SearchMode::Graph && setup.config.graph.enabled && setup.sqlite
                && names_a_space(setup) ==> (step matches StepView::Graph(base, q) && base.len()
                == 0 && asks_for(q, setup, setup.request.top_k))
        }),
{
}

/// Where the graph is enabled and can be asked, it is asked for what the search
/// asks for, with the finds so far kept beside; where it is not enabled, the
/// finds go on as they are; where it cannot be asked, the search fails, unless it
/// is to go on without the graph.
pub proof fn graphs_are_asked_where_they_can_be(
    setup: SearchSetup,
    base: Seq<ScoredView>,
    limit: usize,
)
    requires
        text::trimmed(setup.request.query@).len() > 0,
        limit > 0,
        setup.config.mode != SearchMode::Graph,
    ensures
        ({
            let step = setup.with_base(base, limit);
            let graph = setup.config.graph;
            &&& !graph.enabled ==> step == setup.with_results(base)
            &&& graph.enabled && names_a_space(setup) && setup.sqlite ==> (
            step matches StepView::Graph(b, q) && b == base && asks_for(q, setup, limit))
            &&& graph.enabled && !names_a_space(setup) && !graph.fail_open ==> step
                == StepView::Finish(
                Err(
                    MemoryErrorView::InvalidInput(
                        "graph retrieval is enabled but graph_memory_space_id is missing"@,
                    ),
                ),
            )
            &&& graph.enabled && names_a_space(setup) && !setup.sqlite && !graph.fail_open ==> step
                == StepView::Finish(
                Err(
                    MemoryErrorView::StoreBackend(
                        "graph retrieval requires sqlite store backend"@,
                    ),
                ),
            )
            &&& graph.enabled && graph.fail_open && !(names_a_space(setup) && setup.sqlite) ==> step
                == setup.with_results(ranking::top_ranked(base, limit as nat))
        }),
{
}

/// Only a hybrid search that is to be reranked asks a reranker, and hands it all
/// of its candidates and the trimmed query; without a reranker it fails, or gives
/// the first candidates where that is allowed.
pub proof fn rerankers_get_the_candidates(setup: SearchSetup, results: Seq<ScoredView>)
    ensures
        ({
            let step = setup.with_results(results);
            let reranked = setup.config.mode == SearchMode::Hybrid && setup.config.rerank.enabled;
            &&& !reranked ==> step == StepView::Finish(Ok(results))
            &&& reranked && setup.reranker ==> step == StepView::Rerank(
                text::trimmed(setup.request.query@),
                results,
            )
            &&& reranked && !setup.reranker && !setup.config.rerank.fail_open ==> step
                == StepView::Finish(
                Err(MemoryErrorView::Rerank("rerank is enabled but no reranker is configured"@)),
            )
            &&& reranked && !setup.reranker && setup.config.rerank.fail_open ==> (
            step matches StepView::Finish(Ok(kept)) && kept.len() <= setup.request.top_k && kept
                == results.take(kept.len() as int) && (kept.len() == setup.request.top_k
                || kept.len() == results.len()))
        }),
{
}

/// What a reranker gives back is the result of the search, cut to the number
/// that is wanted.
pub proof fn rerankers_have_the_last_word(
    candidates: Seq<ScoredView>,
    reranked: Result<Seq<ScoredView>, MemoryErrorView>,
    top_k: nat,
    fail_open: bool,
)
    ensures
        ({
            let step = rerank_outcome(candidates, reranked, top_k, fail_open);
            match reranked {
                Ok(results) => step matches StepView::Finish(Ok(kept)) && kept.len() <= top_k
                    && kept == results.take(kept.len() as int) && (kept.len() == top_k
                    || kept.len() == results.len()),
                Err(e) => if fail_open {
                    step matches StepView::Finish(Ok(kept)) && kept.len() <= top_k && kept
                        == candidates.take(kept.len() as int) && (kept.len() == top_k || kept.len()
                        == candidates.len())
                } else {
                    step == StepView::Finish(Err::<Seq<ScoredView>, MemoryErrorView>(e))
                },
            }
        }),
{
}

/// The number of candidates of a channel is the one that is set, or else at least
/// a hundred and at least five times what is wanted, as far as numbers go.
pub proof fn channels_find_enough(setup: SearchSetup)
    ensures
        match setup.config.candidate_k {
            Some(limit) => setup.candidate_k() == limit,
            None => {
                let k = setup.candidate_k();
                let five = 5 * setup.request.top_k;
                &&& k >= 100
                &&& five <= usize::MAX ==> k >= five && (k == 100 || k == five)
                &&& five > usize::MAX ==> k == usize::MAX
            },
        },
        setup.config.mode == SearchMode::Hybrid && setup.config.rerank.enabled
            ==> setup.result_limit() >= setup.config.rerank.input_k && (setup.result_limit()
            == setup.config.rerank.input_k || setup.result_limit() == setup.request.top_k),
        !(setup.config.mode == SearchMode::Hybrid && setup.config.rerank.enabled)
            ==> setup.result_limit() == setup.request.top_k,
{
}

/// Finds of the graph are the results of a graph search; beside other finds they
/// are fused with them, and where there are none the best of the others go on.
pub proof fn graph_finds_are_joined(
    setup: SearchSetup,
    base: Seq<ScoredView>,
    graph: Seq<ScoredView>,
    limit: usize,
)
    ensures
        ({
            let step = setup.with_graph(base, graph, limit);
            let alone = setup.config.mode == SearchMode::Graph;
            &&& alone ==> step == StepView::Finish(Ok(graph))
            &&& !alone && limit == 0 ==> step == setup.with_results(Seq::<ScoredView>::empty())
            &&& !alone && limit > 0 && graph.len() == 0 ==> step == setup.with_results(
                ranking::top_ranked(base, limit as nat),
            )
            &&& !alone && limit > 0 && graph.len() > 0 ==> (step matches StepView::ScoreFusion(
                b,
                only,
                n,
            ) && n == limit && (b, only) == graph_fusion::gathered(base, graph, limit as nat))
        }),
{
}

} // verus!
