//! Requests, responses and settings of the memory library.

use vstd::prelude::*;
use vstd::string::*;

use crate::json;
use crate::json::{Json, JsonView};
use crate::record::{MemoryRecord, RecordView};

verus! {

pub const GRAPH_SEED_LIMIT_MULTIPLIER: usize = 10;

pub const MIN_GRAPH_SEED_LIMIT: usize = 30;

pub const DEFAULT_MAX_EVIDENCE_RECORDS_PER_FACT: usize = 3;

/// The longest query, in bytes, that the graph answers.
pub const MAX_GRAPH_RETRIEVAL_QUERY_BYTES: usize = 4096;

#[derive(Debug)]
pub struct AddMemoryRequest {
    pub id: Option<String>,
    pub text: String,
    pub metadata: Json,
}

#[derive(Clone, Debug)]
pub struct AddMemoryResponse {
    pub id: String,
}

#[derive(Debug)]
pub struct GraphAddMemoryRequest {
    pub memory_space_id: String,
    pub owner_id: String,
    pub idempotency_key: String,
    pub text: String,
    pub metadata: Json,
    pub session_id: Option<String>,
    pub session_sequence: Option<i64>,
    pub source_kind: String,
    pub source_ref: Option<String>,
    pub content_role: String,
    pub created_by_agent_id: Option<String>,
    pub observed_at_ms: Option<u64>,
}

#[derive(Clone, Debug)]
pub struct GraphAddMemoryResponse {
    pub memory_record_id: String,
    pub ingestion_run_id: String,
    pub status: String,
    pub vector_ready: bool,
    pub graph_ready: bool,
}

#[derive(Clone, Debug)]
pub struct GraphRetrieveContextRequest {
    pub memory_space_id: String,
    pub query: String,
    pub top_k: usize,
    pub reference_time_ms: Option<u64>,
    pub seed_limit: Option<usize>,
    pub max_evidence_records_per_fact: Option<usize>,
}

/// `a * b`, or the greatest number where the product is greater.
pub open spec fn saturating_product(a: nat, b: nat) -> nat {
    if a * b <= usize::MAX {
        a * b
    } else {
        usize::MAX as nat
    }
}

pub open spec fn greater_of(a: nat, b: nat) -> nat {
    if a >= b {
        a
    } else {
        b
    }
}

pub open spec fn lesser_of(a: nat, b: nat) -> nat {
    if a <= b {
        a
    } else {
        b
    }
}

/// The product of two numbers, or the greatest number.
pub fn saturating_mul(a: usize, b: usize) -> (r: usize)
    ensures
        r == saturating_product(a as nat, b as nat),
{
    match a.checked_mul(b) {
        Some(r) => r,
        None => usize::MAX,
    }
}

impl GraphRetrieveContextRequest {
    /// How many seeds the retrieval starts from: as many as the request says,
    /// else ten for each result but no fewer than thirty.
    pub fn seed_limit(&self) -> (r: usize)
        ensures
            r == (match self.seed_limit {
                Some(limit) => limit as nat,
                None => greater_of(
                    saturating_product(self.top_k as nat, GRAPH_SEED_LIMIT_MULTIPLIER as nat),
                    MIN_GRAPH_SEED_LIMIT as nat,
                ),
            }),
    {
        match self.seed_limit {
            Some(limit) => limit,
            None => {
                let scaled = saturating_mul(self.top_k, GRAPH_SEED_LIMIT_MULTIPLIER);
                if scaled >= MIN_GRAPH_SEED_LIMIT {
                    scaled
                } else {
                    MIN_GRAPH_SEED_LIMIT
                }
            },
        }
    }

    /// How many evidence records a fact may bring along.
    pub fn max_evidence_records_per_fact(&self) -> (r: usize)
        ensures
            r == (match self.max_evidence_records_per_fact {
                Some(limit) => limit,
                None => DEFAULT_MAX_EVIDENCE_RECORDS_PER_FACT,
            }),
    {
        match self.max_evidence_records_per_fact {
            Some(limit) => limit,
            None => DEFAULT_MAX_EVIDENCE_RECORDS_PER_FACT,
        }
    }
}

#[derive(Debug)]
pub struct SearchMemoryRequest {
    pub query: String,
    pub top_k: usize,
    pub filter: Option<Json>,
    pub graph_memory_space_id: Option<String>,
    pub graph_target_subject: Option<String>,
    pub graph_target_evidence_speaker: Option<String>,
}

/// What a [`SearchMemoryRequest`] stands for.
pub struct SearchView {
    pub query: Seq<char>,
    pub top_k: usize,
    pub filter: Option<JsonView>,
    pub graph_memory_space_id: Option<Seq<char>>,
    pub graph_target_subject: Option<Seq<char>>,
    pub graph_target_evidence_speaker: Option<Seq<char>>,
}

impl View for SearchMemoryRequest {
    type V = SearchView;

    open spec fn view(&self) -> SearchView {
        SearchView {
            query: self.query@,
            top_k: self.top_k,
            filter: match self.filter {
                Some(f) => Some(f@),
                None => None,
            },
            graph_memory_space_id: json::opt_string(self.graph_memory_space_id),
            graph_target_subject: json::opt_string(self.graph_target_subject),
            graph_target_evidence_speaker: json::opt_string(self.graph_target_evidence_speaker),
        }
    }
}

pub open spec fn search_views(v: Seq<SearchMemoryRequest>) -> Seq<SearchView> {
    Seq::new(v.len(), |i: int| v[i]@)
}

#[derive(Clone, Copy, Debug, PartialEq, Eq, Structural)]
pub enum SearchMode {
    Dense,
    Bm25,
    Graph,
    Hybrid,
}

impl Default for SearchMode {
    fn default() -> (r: Self)
        ensures
            r == SearchMode::Hybrid,
    {
        SearchMode::Hybrid
    }
}

impl SearchMode {
    pub open spec fn name(self) -> Seq<char> {
        match self {
            SearchMode::Dense => "Dense"@,
            SearchMode::Bm25 => "Bm25"@,
            SearchMode::Graph => "Graph"@,
            SearchMode::Hybrid => "Hybrid"@,
        }
    }

    pub fn as_str(self) -> (r: &'static str)
        ensures
            r@ == self.name(),
    {
        match self {
            SearchMode::Dense => "Dense",
            SearchMode::Bm25 => "Bm25",
            SearchMode::Graph => "Graph",
            SearchMode::Hybrid => "Hybrid",
        }
    }
}

/// How memories are searched. The weights of the channels are applied where the
/// scores are computed.
#[derive(Clone, Debug)]
pub struct RetrievalConfig {
    pub mode: SearchMode,
    pub candidate_k: Option<usize>,
    pub graph: GraphRetrievalConfig,
    pub rerank: RerankConfig,
}

impl RetrievalConfig {
    /// How many candidates each channel contributes: as many as configured,
    /// else five for each result but no fewer than a hundred.
    pub fn candidate_limit(&self, top_k: usize) -> (r: usize)
        ensures
            r == candidate_limit_of(self.candidate_k, top_k),
    {
        match self.candidate_k {
            Some(limit) => limit,
            None => {
                let scaled = saturating_mul(top_k, 5);
                if scaled >= 100 {
                    scaled
                } else {
                    100
                }
            },
        }
    }
}

pub open spec fn candidate_limit_of(candidate_k: Option<usize>, top_k: usize) -> nat {
    match candidate_k {
        Some(limit) => limit as nat,
        None => greater_of(saturating_product(top_k as nat, 5), 100),
    }
}

impl Default for RetrievalConfig {
    fn default() -> (r: Self)
        ensures
            r.mode == SearchMode::Hybrid,
            r.candidate_k is None,
            r.graph == default_graph_retrieval(),
            r.rerank.is_default(),
    {
        RetrievalConfig {
            mode: SearchMode::Hybrid,
            candidate_k: None,
            graph: GraphRetrievalConfig::default(),
            rerank: RerankConfig::default(),
        }
    }
}

/// How the memory graph takes part in a search.
#[derive(Clone, Copy, Debug, PartialEq, Eq, Structural)]
pub struct GraphRetrievalConfig {
    pub enabled: bool,
    pub rerank_with_graph: bool,
    pub allow_graph_only: bool,
    pub max_graph_only_results: Option<usize>,
    pub seed_limit: Option<usize>,
    pub max_evidence_records_per_fact: Option<usize>,
    pub fail_open: bool,
}

pub open spec fn default_graph_retrieval() -> GraphRetrievalConfig {
    GraphRetrievalConfig {
        enabled: false,
        rerank_with_graph: false,
        allow_graph_only: false,
        max_graph_only_results: None,
        seed_limit: None,
        max_evidence_records_per_fact: None,
        fail_open: false,
    }
}

impl Default for GraphRetrievalConfig {
    fn default() -> (r: Self)
        ensures
            r == default_graph_retrieval(),
    {
        GraphRetrievalConfig {
            enabled: false,
            rerank_with_graph: false,
            allow_graph_only: false,
            max_graph_only_results: None,
            seed_limit: None,
            max_evidence_records_per_fact: None,
            fail_open: false,
        }
    }
}

#[derive(Clone, Copy, Debug, PartialEq, Eq, Structural)]
pub enum RerankProvider {
    OpenRouter,
}

impl Default for RerankProvider {
    fn default() -> (r: Self)
        ensures
            r == RerankProvider::OpenRouter,
    {
        RerankProvider::OpenRouter
    }
}

#[derive(Clone, Debug)]
pub struct RerankConfig {
    pub enabled: bool,
    pub provider: RerankProvider,
    pub model: String,
    pub api_key_env: String,
    pub base_url: String,
    pub input_k: usize,
    pub timeout_ms: Option<u64>,
    pub fail_open: bool,
}

impl RerankConfig {
    /// The settings that stand where nothing is configured.
    pub open spec fn is_default(self) -> bool {
        &&& !self.enabled
        &&& self.provider == RerankProvider::OpenRouter
        &&& self.model@ == "cohere/rerank-v3.5"@
        &&& self.api_key_env@ == "OPENROUTER_API_KEY"@
        &&& self.base_url@ == "https://openrouter.ai/api/v1"@
        &&& self.input_k == 40
        &&& self.timeout_ms is None
        &&& !self.fail_open
    }

    /// How many candidates are handed to the reranker: never fewer than the
    /// results that are wanted.
    pub fn input_limit(&self, top_k: usize) -> (r: usize)
        ensures
            r == greater_of(self.input_k as nat, top_k as nat),
    {
        if self.input_k >= top_k {
            self.input_k
        } else {
            top_k
        }
    }
}

impl Default for RerankConfig {
    fn default() -> (r: Self)
        ensures
            r.is_default(),
    {
        RerankConfig {
            enabled: false,
            provider: RerankProvider::OpenRouter,
            model: default_rerank_model(),
            api_key_env: default_rerank_api_key_env(),
            base_url: default_rerank_base_url(),
            input_k: default_rerank_input_k(),
            timeout_ms: None,
            fail_open: false,
        }
    }
}

pub fn default_rerank_model() -> (r: String)
    ensures
        r@ == "cohere/rerank-v3.5"@,
{
    "cohere/rerank-v3.5".to_owned()
}

pub fn default_rerank_api_key_env() -> (r: String)
    ensures
        r@ == "OPENROUTER_API_KEY"@,
{
    "OPENROUTER_API_KEY".to_owned()
}

pub fn default_rerank_base_url() -> (r: String)
    ensures
        r@ == "https://openrouter.ai/api/v1"@,
{
    "https://openrouter.ai/api/v1".to_owned()
}

pub fn default_rerank_input_k() -> (r: usize)
    ensures
        r == 40,
{
    40
}

/// A record with its relevance. The score stands as its place in the order of
/// single-precision numbers, see [`score_rank`]; it is never a NaN, which has no
/// place in that order.
#[derive(Debug)]
pub struct ScoredMemory {
    pub record: MemoryRecord,
    pub score: i32,
}

/// What a [`ScoredMemory`] stands for.
pub struct ScoredView {
    pub record: RecordView,
    pub score: int,
}

impl View for ScoredMemory {
    type V = ScoredView;

    open spec fn view(&self) -> ScoredView {
        ScoredView { record: self.record@, score: self.score as int }
    }
}

impl Clone for ScoredMemory {
    fn clone(&self) -> (r: Self)
        ensures
            r@ == self@,
    {
        ScoredMemory { record: self.record.clone(), score: self.score }
    }
}

pub open spec fn scored_views(v: Seq<ScoredMemory>) -> Seq<ScoredView> {
    Seq::new(v.len(), |i: int| v[i]@)
}

/// The place of infinity. A NaN, which is no number, comes beyond it or below its
/// negative.
pub const INFINITE_PLACE: i32 = 0x7f80_0000;

/// The place of a single-precision number, given by its bits, in the order of
/// those numbers: its magnitude bits, negated where the sign bit is set. Both
/// zeros have place 0.
pub open spec fn score_place(bits: u32) -> int {
    if bits < 0x8000_0000 {
        bits as int
    } else {
        0x8000_0000 - bits
    }
}

/// The place of a score in the order of single-precision numbers.
pub fn score_rank(bits: u32) -> (r: i32)
    ensures
        r == score_place(bits),
{
    if bits < 0x8000_0000 {
        bits as i32
    } else {
        -((bits - 0x8000_0000) as i32)
    }
}

/// The bits of the single-precision number at a place; at place 0 stands the
/// positive zero.
pub fn score_bits(place: i32) -> (r: u32)
    requires
        place > i32::MIN,
    ensures
        score_place(r) == place,
        place == 0 ==> r == 0,
{
    if place >= 0 {
        place as u32
    } else {
        (-place) as u32 + 0x8000_0000
    }
}

/// Different bits have different places, but for the two zeros.
pub proof fn places_tell_scores_apart(a: u32, b: u32)
    requires
        score_place(a) == score_place(b),
    ensures
        a == b || (score_place(a) == 0 && (a == 0 || a == 0x8000_0000) && (b == 0 || b
            == 0x8000_0000)),
{
}

} // verus!
