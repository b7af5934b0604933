use ram_a::api::{
    score_bits, score_rank, GraphRetrieveContextRequest, RerankConfig, RerankProvider,
    RetrievalConfig, ScoredMemory, SearchMode, MAX_GRAPH_RETRIEVAL_QUERY_BYTES,
};
use ram_a::embedding::{ordered_embeddings, EmbeddingItem, EMBEDDING_MAX_ATTEMPTS};
use ram_a::error::MemoryError;
use ram_a::graph_clean::deduplicate_entity_local_ids;
use ram_a::graph_context::append_graph_fact_metadata;
use ram_a::graph_extraction::{
    ExtractedEntityCandidate, ExtractedFactCandidate, GraphExtractionInput, GraphExtractionOutput,
};
use ram_a::graph_fusion::{
    begin_graph_fusion, complete_graph_fusion, graph_only_result_limit, GraphFusionStep,
};
use ram_a::graph_llm::{
    build_graph_llm_request, graph_source_context, strip_json_fence,
    OpenAiCompatibleGraphLlmClient,
};
use ram_a::graph_registry::GraphTypeRegistry;
use ram_a::graph_resolution::{fact_dedup_key, GraphRepository};
use ram_a::graph_retrieval::{graph_fts_query, retrieval_fts_query, MAX_GRAPH_FTS_QUERY_TERMS};
use ram_a::json::Json;
use ram_a::record::{
    extract_scope_id, extract_scope_id_from_filter, metadata_matches, MemoryRecord,
};
use ram_a::retry::retry_backoff_secs;

const GRAPH_FACTS_METADATA_KEY: &str = "graph_facts";
const GRAPH_FACTS_TRUNCATED_METADATA_KEY: &str = "graph_facts_truncated";

fn text(value: &str) -> Json {
    Json::Text(value.to_string())
}

fn object(members: Vec<(&str, Json)>) -> Json {
    let mut object = Json::new_object();
    for (key, value) in members {
        object.put(key, value);
    }
    object
}

fn place(score: f32) -> i32 {
    score_rank(score.to_bits())
}

fn score_of(result: &ScoredMemory) -> f32 {
    f32::from_bits(score_bits(result.score))
}

fn memory_with(id: &str, text: &str, metadata: Json, score: f32) -> ScoredMemory {
    ScoredMemory {
        record: MemoryRecord {
            id: id.to_string(),
            text: text.to_string(),
            metadata,
            embedding: vec![1.0f32.to_bits()],
            created_at_ms: 1,
            updated_at_ms: 1,
        },
        score: place(score),
    }
}

fn memory(id: &str, text: &str, score: f32) -> ScoredMemory {
    memory_with(id, text, object(vec![]), score)
}

fn rank_fusion_score(base_rank: Option<usize>, graph_rank: Option<usize>, weight: f32) -> f32 {
    let base = base_rank.map(|rank| 1.0 / (60.0 + rank as f32)).unwrap_or(0.0);
    let graph = graph_rank.map(|rank| weight / (60.0 + rank as f32)).unwrap_or(0.0);
    base + graph
}

fn fuse_graph_candidates(
    base: Vec<ScoredMemory>,
    graph: Vec<ScoredMemory>,
    top_k: usize,
    weight: f32,
    rerank_with_graph: bool,
    allow_graph_only: bool,
    max_graph_only_results: Option<usize>,
) -> Vec<ScoredMemory> {
    let weight = if weight.is_finite() { weight.max(0.0) } else { 0.0 };
    match begin_graph_fusion(base, graph, top_k) {
        GraphFusionStep::Done(results) => results,
        GraphFusionStep::Score(fusion) => {
            let base_scores = fusion
                .base
                .iter()
                .map(|c| place(rank_fusion_score(c.base_rank, c.graph_rank, weight)))
                .collect::<Vec<_>>();
            let graph_only_scores = fusion
                .graph_only
                .iter()
                .map(|c| place(rank_fusion_score(c.base_rank, c.graph_rank, weight)))
                .collect::<Vec<_>>();
            let default_limit = (top_k as f32 * 0.2).ceil() as usize;
            complete_graph_fusion(
                &fusion,
                &base_scores,
                &graph_only_scores,
                top_k,
                rerank_with_graph,
                allow_graph_only && rerank_with_graph && weight > 0.0,
                graph_only_result_limit(top_k, max_graph_only_results, default_limit),
            )
        }
    }
}

#[test]
fn retrieval_config_defaults_to_hybrid() {
    let config = RetrievalConfig::default();

    assert_eq!(config.mode, SearchMode::Hybrid);
    assert_eq!(config.candidate_k, None);
    assert!(!config.graph.enabled);
    assert_eq!(config.graph.seed_limit, None);
    assert_eq!(config.graph.max_evidence_records_per_fact, None);
    assert!(!config.graph.fail_open);
    assert!(!config.rerank.enabled);
    assert_eq!(config.rerank.provider, RerankProvider::OpenRouter);
    assert_eq!(config.rerank.model, "cohere/rerank-v3.5");
    assert_eq!(config.rerank.api_key_env, "OPENROUTER_API_KEY");
    assert_eq!(config.rerank.base_url, "https://openrouter.ai/api/v1");
    assert_eq!(config.rerank.input_k, 40);
    assert_eq!(config.rerank.timeout_ms, None);
    assert!(!config.rerank.fail_open);
}

#[test]
fn rerank_input_limit_keeps_enough_candidates_for_final_top_k() {
    let mut config = RerankConfig {
        enabled: true,
        input_k: 40,
        ..RerankConfig::default()
    };

    assert_eq!(config.input_limit(5), 40);
    assert_eq!(config.input_limit(40), 40);
    assert_eq!(config.input_limit(50), 50);

    config.input_k = 0;
    assert_eq!(config.input_limit(5), 5);
}

#[test]
fn graph_retrieve_context_request_defaults_are_bounded() {
    let request = GraphRetrieveContextRequest {
        memory_space_id: "space-1".to_string(),
        query: "Where does Alice live?".to_string(),
        top_k: 3,
        reference_time_ms: None,
        seed_limit: None,
        max_evidence_records_per_fact: None,
    };

    assert_eq!(request.seed_limit(), 30);
    assert_eq!(request.max_evidence_records_per_fact(), 3);
}

#[test]
fn retry_budget_covers_extended_network_outages() {
    assert_eq!(EMBEDDING_MAX_ATTEMPTS, 8);
    assert_eq!(retry_backoff_secs(7), 64);
}

#[test]
fn ordered_embeddings_sorts_by_provider_index() {
    let embeddings = ordered_embeddings(&vec![
        EmbeddingItem {
            index: Some(1),
            embedding: vec![1.0f32.to_bits()],
        },
        EmbeddingItem {
            index: Some(0),
            embedding: vec![0.0f32.to_bits()],
        },
    ])
    .expect("ordered embeddings");

    assert_eq!(embeddings, vec![vec![0.0f32.to_bits()], vec![1.0f32.to_bits()]]);
}

#[test]
fn ordered_embeddings_rejects_duplicate_or_missing_indexes() {
    let error = ordered_embeddings(&vec![
        EmbeddingItem {
            index: Some(0),
            embedding: vec![0.0f32.to_bits()],
        },
        EmbeddingItem {
            index: Some(0),
            embedding: vec![1.0f32.to_bits()],
        },
    ])
    .expect_err("duplicate indexes should fail");

    assert!(error.to_text().contains("non-contiguous indexes"));
}

#[test]
fn ordered_embeddings_rejects_partial_indexes() {
    let error = ordered_embeddings(&vec![
        EmbeddingItem {
            index: Some(0),
            embedding: vec![0.0f32.to_bits()],
        },
        EmbeddingItem {
            index: None,
            embedding: vec![1.0f32.to_bits()],
        },
    ])
    .expect_err("partial indexes should fail");

    assert!(error.to_text().contains("partial indexes"));
}

#[test]
fn conflicting_duplicate_entity_ids_drop_dependent_facts() {
    let mut output = GraphExtractionOutput {
        entities: vec![
            ExtractedEntityCandidate {
                local_id: "entity:person".to_string(),
                name: "Alice".to_string(),
                entity_type: "PERSON".to_string(),
                confidence: Some(0.9f32.to_bits()),
            },
            ExtractedEntityCandidate {
                local_id: "entity:person".to_string(),
                name: "Bob".to_string(),
                entity_type: "PERSON".to_string(),
                confidence: Some(0.8f32.to_bits()),
            },
            ExtractedEntityCandidate {
                local_id: "entity:book".to_string(),
                name: "Book club".to_string(),
                entity_type: "GROUP".to_string(),
                confidence: Some(0.8f32.to_bits()),
            },
        ],
        facts: vec![ExtractedFactCandidate {
            local_id: "fact:member".to_string(),
            subject_ref: "entity:person".to_string(),
            predicate: "MEMBER_OF".to_string(),
            object_ref: "entity:book".to_string(),
            fact_text: "The person is a member of the book club.".to_string(),
            evidence: Vec::new(),
            confidence: Some(0.8f32.to_bits()),
            temporal_expression: None,
            valid_from_ms: None,
            valid_to_ms: None,
        }],
        input_tokens: None,
        output_tokens: None,
    };

    deduplicate_entity_local_ids(&mut output);

    assert_eq!(output.entities.len(), 1);
    assert_eq!(output.entities[0].local_id, "entity:book");
    assert!(output.facts.is_empty());
}

#[test]
fn equivalent_duplicate_entity_ids_keep_highest_confidence_candidate() {
    let mut output = GraphExtractionOutput {
        entities: vec![
            ExtractedEntityCandidate {
                local_id: "entity:person".to_string(),
                name: " Alice  Smith ".to_string(),
                entity_type: "person".to_string(),
                confidence: Some(0.4f32.to_bits()),
            },
            ExtractedEntityCandidate {
                local_id: "entity:person".to_string(),
                name: "Alice Smith".to_string(),
                entity_type: "PERSON".to_string(),
                confidence: Some(0.9f32.to_bits()),
            },
        ],
        facts: Vec::new(),
        input_tokens: None,
        output_tokens: None,
    };

    deduplicate_entity_local_ids(&mut output);

    assert_eq!(output.entities.len(), 1);
    assert_eq!(output.entities[0].name, "Alice Smith");
    assert_eq!(output.entities[0].confidence, Some(0.9f32.to_bits()));
}

#[test]
fn openai_compatible_client_defaults_to_timeout_and_allows_override() {
    let client = OpenAiCompatibleGraphLlmClient::new("test-key", "test-model");
    assert_eq!(client.timeout_ms, Some(60_000));

    let client = client.with_timeout_ms(Some(1_500));
    assert_eq!(client.timeout_ms, Some(1_500));

    let client = client.with_timeout_ms(None);
    assert_eq!(client.timeout_ms, None);
}

#[test]
fn chat_completions_url_does_not_append_endpoint_twice() {
    let client = OpenAiCompatibleGraphLlmClient::with_base_url(
        "test-key",
        "https://example.com/v1/chat/completions",
        "test-model",
    );

    assert_eq!(
        client.chat_completions_url(),
        "https://example.com/v1/chat/completions"
    );
}

#[test]
fn strip_json_fence_handles_common_model_formats() {
    assert_eq!(
        strip_json_fence(" {\"entities\":[],\"facts\":[]} "),
        "{\"entities\":[],\"facts\":[]}"
    );
    assert_eq!(
        strip_json_fence("```json\n{\"ok\":true}\n```"),
        "{\"ok\":true}"
    );
    assert_eq!(
        strip_json_fence("```JSON\n{\"ok\":true}\n```"),
        "{\"ok\":true}"
    );
    assert_eq!(strip_json_fence("```\n{\"ok\":true}\n```"), "{\"ok\":true}");
    assert_eq!(
        strip_json_fence("```python\n{\"ok\":true}\n```"),
        "```python\n{\"ok\":true}\n```"
    );
    assert_eq!(
        strip_json_fence("```json\n{\"ok\":true}"),
        "```json\n{\"ok\":true}"
    );
}

#[test]
fn extraction_prompt_requires_concrete_one_off_events_without_admitting_chat_noise() {
    let request = build_graph_llm_request(
        &GraphExtractionInput {
            memory_space_id: "space-1".to_string(),
            memory_record_id: "record-1".to_string(),
            text: "I went to a poetry reading last Friday.".to_string(),
            metadata: object(vec![("speaker", text("Alice"))]),
            context_record_ids: Vec::new(),
            type_registry_version: "graph-type-registry-v2".to_string(),
        },
        &GraphTypeRegistry::default(),
    );
    let prompt = &request.messages[1].content;

    assert!(prompt.contains("a concrete event does not need to be recurring or durable"));
    assert!(prompt.contains("Use ATTENDED, PARTICIPATED_IN, or VISITED"));
    assert!(prompt.contains("Do not extract conversational bookkeeping"));
}

#[test]
fn graph_source_context_uses_declared_source_entity_when_speaker_is_absent() {
    let context = graph_source_context(&object(vec![(
        "graph_source_entity",
        object(vec![("name", text("Alice")), ("entity_type", text("PERSON"))]),
    )]));

    assert_eq!(context.get_str("speaker"), Some("Alice"));
}

#[test]
fn graph_retrieval_configuration_errors_are_not_retriable() {
    assert!(!MemoryError::InvalidInput { message: "missing graph memory space".to_string() }
        .graph_retrieval_error_retriable());
    assert!(!MemoryError::StoreBackend { message: "sqlite required".to_string() }
        .graph_retrieval_error_retriable());
    assert!(MemoryError::Embedding { message: "provider timed out".to_string() }
        .graph_retrieval_error_retriable());
}

#[test]
fn graph_fact_metadata_is_bounded_and_marks_truncation() {
    let mut metadata = object(vec![]);
    for index in 0..17 {
        append_graph_fact_metadata(
            &mut metadata,
            &object(vec![("fact_id", text(&format!("fact-{index}")))]),
        );
    }

    match metadata.get(GRAPH_FACTS_METADATA_KEY) {
        Some(Json::Array(facts)) => assert_eq!(facts.len(), 16),
        other => panic!("unexpected facts {other:?}"),
    }
    assert!(matches!(metadata.get("graph_facts_truncated"), Some(Json::Bool(true))));

    let mut oversized = object(vec![]);
    append_graph_fact_metadata(
        &mut oversized,
        &object(vec![
            ("fact_id", text("oversized")),
            ("fact_text", text(&"x".repeat(16 * 1024 + 1))),
        ]),
    );
    match oversized.get(GRAPH_FACTS_METADATA_KEY) {
        Some(Json::Array(facts)) => assert!(facts.is_empty()),
        other => panic!("unexpected facts {other:?}"),
    }
    assert!(matches!(oversized.get(GRAPH_FACTS_TRUNCATED_METADATA_KEY), Some(Json::Bool(true))));
}

fn graph_facts() -> Json {
    object(vec![(
        GRAPH_FACTS_METADATA_KEY,
        Json::Array(vec![object(vec![
            ("fact_id", text("fact-1")),
            ("fact_text", text("base graph fact")),
        ])]),
    )])
}

#[test]
fn graph_fusion_scores_are_bounded() {
    let results = fuse_graph_candidates(
        vec![memory("base", "base", 1.0)],
        vec![memory("graph", "graph", 1.0)],
        2,
        0.2,
        true,
        true,
        None,
    );

    assert!(results.iter().all(|result| score_of(result) <= 1.0));
}

#[test]
fn graph_fusion_protects_base_candidates_by_default() {
    let results = fuse_graph_candidates(
        vec![
            memory("base-high", "base high", 0.9),
            memory("base-low", "base low", 0.1),
        ],
        vec![memory("graph-only", "graph only", 1.0)],
        2,
        0.2,
        false,
        false,
        None,
    );

    let ids = results
        .iter()
        .map(|result| result.record.id.as_str())
        .collect::<Vec<_>>();
    assert_eq!(ids, vec!["base-high", "base-low"]);
}

#[test]
fn graph_fusion_enriches_overlapping_base_candidates_without_rerank_by_default() {
    let base_candidates = vec![
        memory("base-only", "base only", 0.9),
        memory("base-graph", "base graph", 0.1),
    ];
    let graph_candidates = vec![memory_with("base-graph", "base graph", graph_facts(), 1.0)];
    let results = fuse_graph_candidates(
        base_candidates,
        graph_candidates,
        2,
        1.0,
        false,
        false,
        None,
    );

    let enriched = results
        .iter()
        .find(|result| result.record.id == "base-graph")
        .expect("base graph candidate");
    assert!((score_of(enriched) - 0.1).abs() < f32::EPSILON);
    assert!(enriched
        .record
        .metadata
        .get(GRAPH_FACTS_METADATA_KEY)
        .is_some());
}

#[test]
fn graph_fusion_boosts_overlapping_base_candidates_when_rerank_is_enabled() {
    let base_candidates = vec![
        memory("base-only", "base only", 0.9),
        memory("base-graph", "base graph", 0.1),
    ];
    let graph_candidates = vec![memory("base-graph", "base graph", 1.0)];
    let unboosted = fuse_graph_candidates(
        base_candidates.clone(),
        graph_candidates.clone(),
        2,
        0.0,
        true,
        false,
        None,
    );
    let boosted =
        fuse_graph_candidates(base_candidates, graph_candidates, 2, 1.0, true, false, None);

    let unboosted_score = unboosted
        .iter()
        .find(|result| result.record.id == "base-graph")
        .expect("base graph candidate")
        .score;
    let boosted_score = boosted
        .iter()
        .find(|result| result.record.id == "base-graph")
        .expect("base graph candidate")
        .score;
    assert!(boosted_score > unboosted_score);
}

#[test]
fn graph_fusion_supplements_when_graph_only_is_allowed() {
    let results = fuse_graph_candidates(
        vec![memory("base", "base", 0.9)],
        vec![memory("graph-only", "graph only", 1.0)],
        2,
        1.0,
        true,
        true,
        None,
    );

    let ids = results
        .iter()
        .map(|result| result.record.id.as_str())
        .collect::<Vec<_>>();
    assert_eq!(ids, vec!["base", "graph-only"]);
}

#[test]
fn graph_fusion_uses_an_independent_graph_only_result_limit() {
    let base_candidates = (0..5)
        .map(|index| memory(&format!("base-{index}"), &format!("base {index}"), 1.0 - (index as f32 * 0.25)))
        .collect::<Vec<_>>();
    let graph_candidates = (0..5)
        .map(|index| memory(&format!("graph-{index}"), &format!("graph {index}"), 1.0))
        .collect::<Vec<_>>();

    let results = fuse_graph_candidates(
        base_candidates,
        graph_candidates,
        5,
        0.2,
        true,
        true,
        Some(2),
    );
    let graph_only_count = results
        .iter()
        .filter(|result| result.record.id.starts_with("graph-"))
        .count();

    assert_eq!(graph_only_count, 2);
}

#[test]
fn graph_fusion_order_is_invariant_to_channel_score_scale() {
    fn candidate(id: &str, score: f32) -> ScoredMemory {
        memory(id, id, score)
    }

    let fuse = |base_scores: [f32; 2], graph_scores: [f32; 2]| {
        fuse_graph_candidates(
            vec![
                candidate("base-first", base_scores[0]),
                candidate("graph-first", base_scores[1]),
            ],
            vec![
                candidate("graph-first", graph_scores[0]),
                candidate("base-first", graph_scores[1]),
            ],
            2,
            0.2,
            true,
            false,
            None,
        )
        .into_iter()
        .map(|result| result.record.id)
        .collect::<Vec<_>>()
    };

    assert_eq!(
        fuse([0.9, 0.1], [0.8, 0.2]),
        fuse([900.0, -20.0], [0.008, 0.002])
    );
}

#[test]
fn graph_fusion_sanitizes_non_finite_graph_weight() {
    for graph_weight in [f32::NAN, f32::INFINITY, f32::NEG_INFINITY] {
        let results = fuse_graph_candidates(
            vec![memory("base", "base", 1.0)],
            vec![memory("graph", "graph", 1.0)],
            2,
            graph_weight,
            true,
            true,
            None,
        );

        assert!(
            results.iter().all(|result| score_of(result).is_finite()),
            "graph_weight {graph_weight:?} produced non-finite score: {results:?}"
        );
    }
}

#[test]
fn metadata_matches_requires_all_filter_fields() {
    let metadata = object(vec![("scope_id", text("scope-a")), ("kind", text("preference"))]);

    assert!(metadata_matches(&metadata, Some(&object(vec![("scope_id", text("scope-a"))]))));
    assert!(metadata_matches(
        &metadata,
        Some(&object(vec![("scope_id", text("scope-a")), ("kind", text("preference"))])),
    ));
    assert!(!metadata_matches(
        &metadata,
        Some(&object(vec![("scope_id", text("scope-a")), ("kind", text("fact"))])),
    ));
}

#[test]
fn extract_scope_id_reads_metadata_and_filter() {
    assert_eq!(
        extract_scope_id(&object(vec![("scope_id", text("scope-a"))])).as_deref(),
        Some("scope-a"),
    );
    assert_eq!(
        extract_scope_id_from_filter(Some(&object(vec![("scope_id", text("scope-b"))])))
            .as_deref(),
        Some("scope-b"),
    );
    assert_eq!(extract_scope_id(&object(vec![])), None);
    assert_eq!(extract_scope_id_from_filter(None), None);
}

fn parent_dir_to_create(path: &str) -> Option<String> {
    let parent = std::path::Path::new(path).parent().and_then(|parent| parent.to_str());
    GraphRepository::open(path).parent_dir_to_create(parent)
}

#[test]
fn graph_connection_skips_empty_parent_paths() {
    assert!(parent_dir_to_create(":memory:").is_none());
    assert!(parent_dir_to_create("graph.sqlite").is_none());
    assert_eq!(parent_dir_to_create("data/graph.sqlite"), Some("data".to_string()));
}

#[test]
fn fact_dedup_key_does_not_collide_when_text_contains_separator_like_control_characters() {
    let key_with_control_in_text =
        fact_dedup_key("subject", "predicate", "object", "left\u{1f}right");
    let key_with_control_in_object =
        fact_dedup_key("subject", "predicate", "object\u{1f}left", "right");

    assert_ne!(key_with_control_in_text, key_with_control_in_object);
}

#[test]
fn graph_fts_query_quotes_terms_and_drops_blank_input() {
    assert_eq!(graph_fts_query("   "), None);
    assert_eq!(
        graph_fts_query("Alice Shanghai").as_deref(),
        Some("\"Alice\" OR \"Shanghai\"")
    );
    assert_eq!(
        graph_fts_query("Alice \"quoted\"").as_deref(),
        Some("\"Alice\" OR \"\"\"quoted\"\"\"")
    );
}

#[test]
fn graph_fts_query_limits_terms() {
    let query = std::iter::repeat_n("Alice", MAX_GRAPH_FTS_QUERY_TERMS + 1)
        .collect::<Vec<_>>()
        .join(" ");
    let fts_query = graph_fts_query(&query).unwrap();

    assert_eq!(
        fts_query.matches("\"Alice\"").count(),
        MAX_GRAPH_FTS_QUERY_TERMS
    );
}

#[test]
fn retrieve_context_rejects_oversized_query() {
    let query = "a".repeat(MAX_GRAPH_RETRIEVAL_QUERY_BYTES + 1);
    let error = retrieval_fts_query(&GraphRetrieveContextRequest {
        memory_space_id: "space-1".to_string(),
        query,
        top_k: 5,
        reference_time_ms: None,
        seed_limit: None,
        max_evidence_records_per_fact: None,
    })
    .expect_err("oversized graph retrieval query should fail");

    assert!(error.to_text().contains("graph retrieval query must be at most"));
}
