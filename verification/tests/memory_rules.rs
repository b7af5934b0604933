use ram_a::api::{
    score_bits, score_rank, AddMemoryRequest, GraphAddMemoryRequest, GraphRetrieveContextRequest,
    RetrievalConfig, ScoredMemory, SearchMemoryRequest, SearchMode,
};
use ram_a::embedding::{
    check_dimensions, ordered_embeddings, EmbeddingItem, HashEmbedding, OpenRouterEmbedding,
};
use ram_a::error::MemoryError;
use ram_a::graph_clean::{
    deduplicate_entity_local_ids, normalize_graph_text, normalize_llm_entity_type,
    repair_evidence_byte_offsets,
};
use ram_a::graph_extraction::{
    ExtractedEntityCandidate, ExtractedFactCandidate, GraphEvidenceSpan, GraphExtractionInput,
    GraphExtractionOutput,
};
use ram_a::graph_facts::{
    deduplicate_semantic_facts, drop_unmaterializable_facts, sanitize_llm_fact_times,
    uniquify_fact_local_ids,
};
use ram_a::graph_llm::{
    build_graph_llm_request, check_body_growth, clean_extraction, llm_status_error,
    read_llm_response, validate_json_content,
};
use ram_a::graph_registry::GraphTypeRegistry;
use ram_a::graph_resolution::{
    fact_dedup_key, fact_endpoints, resolution_decision, resolve_entity, resolve_fact,
    source_entity_from_metadata,
};
use ram_a::graph_bundle::{collect_bundle_members, context_bundle, first_of_each};
use ram_a::graph_retrieval::{
    append_ranked_seeds, blob_to_embedding, embedding_to_blob, expand_seed_facts, merge_seeds,
    parse_fact_status, path_with_records, rank_fact_candidates, upsert_fact_candidate,
    FactCandidate, FactRow, FactStatus, GraphSeed, GraphSeedKind,
};
use ram_a::graph_runs::{accept_memory_record, hash_fields, stable_input_hash, KnownRun};
use ram_a::graph_stages::{
    after_extraction, claimed_extraction_run, extraction_input, ExtractionStep, ExtractorInfo,
};
use ram_a::graph_types::{Entity, Fact, FactContextUnit, GraphMemoryRecord};
use ram_a::ids::{current_time_ms, timestamp_ms};
use ram_a::json::{read_json, Json};
use ram_a::manager::{
    batch_bounds, build_records, delete_by_filters, embedding_profile_metadata, memory_ids,
    record_embedding_profile_id, search_texts, select_dense_records, validate_add_requests,
    validate_new_record_embedding_profiles, validate_search_embedding_profile,
    validate_search_requests,
};
use ram_a::ranking::{merge_hybrid_candidates, rank_results};
use ram_a::record::{metadata_matches_any, MemoryRecord};
use ram_a::retry::{after_failure, is_retryable_status, preview_body, AttemptError, RetryDecision};
use ram_a::search::{SearchSetup, SearchStep};
use ram_a::store::{add_record, add_records, lines_content, record_lines, FileMemoryStore};
use ram_a::text::trim;

fn text(value: &str) -> Json {
    Json::Text(value.to_string())
}

fn object(members: Vec<(&str, Json)>) -> Json {
    let mut object = Json::new_object();
    for (key, value) in members {
        object.put(key, value);
    }
    object
}

fn record(id: &str, metadata: Json) -> MemoryRecord {
    MemoryRecord {
        id: id.to_string(),
        text: id.to_string(),
        metadata,
        embedding: vec![0, 0],
        created_at_ms: 1,
        updated_at_ms: 1,
    }
}

fn scored(id: &str, score: f32) -> ScoredMemory {
    ScoredMemory { record: record(id, object(vec![])), score: score_rank(score.to_bits()) }
}

fn add_request(id: Option<&str>, text: &str) -> AddMemoryRequest {
    AddMemoryRequest {
        id: id.map(str::to_string),
        text: text.to_string(),
        metadata: object(vec![]),
    }
}

#[test]
fn scores_keep_their_order_as_places() {
    for pair in [-3.5f32, -0.0, 0.25, 0.45, 1.0, f32::MAX].windows(2) {
        assert!(score_rank(pair[0].to_bits()) < score_rank(pair[1].to_bits()));
    }
    assert_eq!(score_rank((-0.0f32).to_bits()), score_rank(0.0f32.to_bits()));
    assert_eq!(f32::from_bits(score_bits(score_rank(0.45f32.to_bits()))), 0.45);
}

#[test]
fn objects_are_written_with_sorted_keys() {
    let value = object(vec![
        ("b", Json::Array(vec![Json::Null, Json::Bool(true), Json::Negative(-3)])),
        ("a", text("line\n\"quoted\"")),
    ]);
    assert_eq!(value.serialize(), "{\"a\":\"line\\n\\\"quoted\\\"\",\"b\":[null,true,-3]}");
    let mut changed = value.clone();
    changed.put("a", Json::Unsigned(7));
    assert_eq!(changed.get("a").and_then(|v| v.as_u64()), Some(7));
    changed.remove("b");
    assert_eq!(changed.serialize(), "{\"a\":7}");
    assert_eq!(changed.serialize_pretty(), "{\n  \"a\": 7\n}");
    assert_eq!(Json::Float("1.50".to_string()).serialize(), "1.5");
    for float in ["0.1", "122.416294033786585", "1.7976931348623157e308", "5e-324"] {
        let shortest = format!("{:?}", float.parse::<f64>().unwrap());
        assert_eq!(
            Json::Float(float.to_string()).serialize().parse::<f64>().unwrap(),
            shortest.parse::<f64>().unwrap()
        );
    }
    assert!(value.same(&value.clone()));
    assert!(!value.same(&changed));
}

#[test]
fn add_many_rejects_duplicate_explicit_ids() {
    let message = |requests: &Vec<AddMemoryRequest>| {
        validate_add_requests(requests).map_err(|error| error.to_text())
    };
    assert_eq!(message(&vec![add_request(Some("a"), "x"), add_request(None, "y")]), Ok(()));
    assert!(message(&vec![add_request(Some("a"), "x"), add_request(Some("a"), "y")])
        .unwrap_err()
        .contains("duplicate memory id in batch: a"));
    assert!(message(&vec![add_request(None, "  ")])
        .unwrap_err()
        .contains("memory text must not be empty"));
}

#[test]
fn batches_cover_every_request() {
    assert_eq!(batch_bounds(5, 2), vec![(0, 2), (2, 4), (4, 5)]);
    assert_eq!(batch_bounds(0, 2), vec![]);
    assert_eq!(batch_bounds(2, 0), vec![(0, 1), (1, 2)]);
}

#[test]
fn records_carry_their_embedding_profile() {
    let requests = vec![add_request(Some("a"), "x"), add_request(None, "y")];
    let ids = memory_ids(&requests);
    assert_eq!(ids[0], "a");
    assert_eq!(ids[1].len(), 36);
    let profile = embedding_profile_metadata("hash:2", "hash-embedding", 2);
    let (responses, records) =
        build_records(&requests, &ids, &vec![vec![1, 2], vec![3, 4]], &profile, 9).unwrap();
    assert_eq!(responses[1].id, ids[1]);
    assert_eq!(records[0].created_at_ms, 9);
    assert_eq!(record_embedding_profile_id(&records[0]).as_deref(), Some("hash:2"));
    let error = build_records(&requests, &ids, &vec![vec![1, 2]], &profile, 9).unwrap_err();
    assert!(error.to_text().contains("embedding provider returned 1 vectors for 2 requests"));
}

fn profiled(id: &str, scope: &str, profile: &str) -> MemoryRecord {
    let mut metadata = object(vec![("scope_id", text(scope))]);
    metadata.put("memory_core_embedding_profile", embedding_profile_metadata(profile, "m", 2));
    record(id, metadata)
}

#[test]
fn embedding_profiles_do_not_mix_within_a_scope() {
    let stored = vec![profiled("a", "scope-a", "old")];
    assert!(validate_new_record_embedding_profiles(
        &stored,
        &vec![profiled("b", "scope-b", "new")],
        "new"
    )
    .is_ok());
    let error = validate_new_record_embedding_profiles(
        &stored,
        &vec![profiled("b", "scope-a", "new")],
        "new",
    )
    .unwrap_err();
    assert!(error
        .to_text()
        .contains("embedding profile mismatch for scope `scope-a`: expected `old` got `new`"));
    let filter = object(vec![("scope_id", text("scope-a"))]);
    assert!(validate_search_embedding_profile(&stored, Some(&filter), "new").is_err());
    assert!(validate_search_embedding_profile(&stored, Some(&filter), "old").is_ok());
}

#[test]
fn delete_by_filter_removes_only_matching_metadata_records() {
    let records = vec![
        record("a", object(vec![("kind", text("x")), ("scope_id", text("s"))])),
        record("b", object(vec![("kind", text("y")), ("scope_id", text("s"))])),
    ];
    let (kept, removed) = delete_by_filters(&records, &vec![object(vec![("kind", text("x"))])]);
    assert_eq!(removed, 1);
    assert_eq!(kept.len(), 1);
    assert_eq!(kept[0].id, "b");
    let any = vec![object(vec![("kind", text("x"))]), object(vec![("kind", text("y"))])];
    assert!(metadata_matches_any(&records[1].metadata, &any));
    assert_eq!(delete_by_filters(&records, &any).1, 2);
}

#[test]
fn search_fails_on_dimension_mismatch() {
    let counts = HashEmbedding::new(128).hash_embed("hello world");
    let stored = MemoryRecord {
        text: "hello world".to_string(),
        embedding: counts.iter().map(|count| (*count as f32).to_bits()).collect(),
        ..record("m1", object(vec![]))
    };
    let records = vec![stored];
    assert_eq!(select_dense_records(&records, None, 128).unwrap().len(), 1);
    let query = HashEmbedding::new(64).hash_embed("hello");
    let error = select_dense_records(&records, None, query.len()).unwrap_err();
    let message = error.to_text();
    assert!(message.contains("dimension mismatch"), "unexpected error: {message}");
    assert!(message.contains("m1"), "error should mention record id: {message}");
    assert!(message.contains("query has 64 dims but record 'm1' has 128 dims"));
}

fn search_request(query: &str) -> SearchMemoryRequest {
    SearchMemoryRequest {
        query: query.to_string(),
        top_k: 2,
        filter: None,
        graph_memory_space_id: None,
        graph_target_subject: None,
        graph_target_evidence_speaker: None,
    }
}

#[test]
fn blank_queries_are_refused() {
    assert!(validate_search_requests(&vec![search_request("q")]).is_ok());
    let error = validate_search_requests(&vec![search_request(" ")]).unwrap_err();
    assert!(error.to_text().contains("search query must not be empty"));
}

#[test]
fn hybrid_searches_fuse_both_channels() {
    let config = RetrievalConfig { mode: SearchMode::Hybrid, ..RetrievalConfig::default() };
    let request = search_request("needle");
    let setup = SearchSetup { config: &config, request: &request, sqlite: true, reranker: false };
    assert!(matches!(setup.start(), SearchStep::Embed { query } if query == "needle"));
    assert!(matches!(setup.after_embedding(Ok(())), SearchStep::Dense { .. }));
    let dense = vec![scored("a", 0.9), scored("b", 0.5)];
    let (dense, limit) = match setup.after_dense(Ok(dense)) {
        SearchStep::Keywords { dense, query, limit } => {
            assert_eq!(query, "needle");
            (dense, limit)
        }
        other => panic!("unexpected step {other:?}"),
    };
    assert!(limit >= 2);
    let merged = match setup.after_keywords(dense, Ok(vec![scored("b", 3.0), scored("c", 2.0)])) {
        SearchStep::ScoreHybrid { merged, .. } => merged,
        other => panic!("unexpected step {other:?}"),
    };
    assert_eq!(
        merged.iter().map(|c| c.record.id.as_str()).collect::<Vec<_>>(),
        vec!["a", "b", "c"]
    );
    let scores = vec![10, 30, 20];
    match setup.after_hybrid_scores(&merged, &scores, 2) {
        SearchStep::Finish(Ok(results)) => assert_eq!(
            results.iter().map(|r| r.record.id.as_str()).collect::<Vec<_>>(),
            vec!["b", "c"]
        ),
        other => panic!("unexpected step {other:?}"),
    }
    let failed = setup.after_dense(Err(MemoryError::Store { message: "gone".to_string() }));
    assert!(matches!(failed, SearchStep::Finish(Err(_))));
}

#[test]
fn failing_open_keeps_the_hybrid_order() {
    let mut config = RetrievalConfig::default();
    config.rerank.enabled = true;
    config.rerank.fail_open = true;
    let request = search_request("needle");
    let candidates = || vec![scored("a", 0.2), scored("b", 0.9)];
    let failure = || Err(MemoryError::Rerank { message: "down".to_string() });
    let open = SearchSetup { config: &config, request: &request, sqlite: true, reranker: true };
    match open.after_rerank(candidates(), failure()) {
        SearchStep::Finish(Ok(results)) => assert_eq!(results.len(), 2),
        other => panic!("unexpected step {other:?}"),
    }
    let mut closed_config = RetrievalConfig::default();
    closed_config.rerank.enabled = true;
    let closed =
        SearchSetup { config: &closed_config, request: &request, sqlite: true, reranker: true };
    assert!(matches!(
        closed.after_rerank(candidates(), failure()),
        SearchStep::Finish(Err(MemoryError::Rerank { .. }))
    ));
}

fn reranking_config(input_k: usize, fail_open: bool) -> RetrievalConfig {
    let mut config = RetrievalConfig { mode: SearchMode::Hybrid, ..RetrievalConfig::default() };
    config.rerank.enabled = true;
    config.rerank.input_k = input_k;
    config.rerank.fail_open = fail_open;
    config
}

fn pacific_request() -> SearchMemoryRequest {
    SearchMemoryRequest { top_k: 1, ..search_request("Pacific melodies") }
}

fn fused_candidates(setup: &SearchSetup) -> Vec<ScoredMemory> {
    let dense =
        vec![scored("hybrid-first", 1.0), scored("rerank-winner", 0.8), scored("third", 0.1)];
    let keywords = vec![scored("hybrid-first", 2.0), scored("rerank-winner", 1.0)];
    let (merged, limit) = match setup.after_keywords(dense, Ok(keywords)) {
        SearchStep::ScoreHybrid { merged, limit } => (merged, limit),
        other => panic!("unexpected step {other:?}"),
    };
    let scores = merged
        .iter()
        .map(|candidate| match candidate.record.id.as_str() {
            "hybrid-first" => 30,
            "rerank-winner" => 20,
            _ => 10,
        })
        .collect::<Vec<i32>>();
    match setup.after_hybrid_scores(&merged, &scores, limit) {
        SearchStep::Rerank { query, candidates } => {
            assert_eq!(query, "Pacific melodies");
            candidates
        }
        other => panic!("unexpected step {other:?}"),
    }
}

#[test]
fn hybrid_search_reranks_fused_candidates_when_enabled() {
    let config = reranking_config(3, false);
    let request = pacific_request();
    let setup = SearchSetup { config: &config, request: &request, sqlite: true, reranker: true };
    let candidates = fused_candidates(&setup);
    assert_eq!(candidates.len(), 3);
    let reranked =
        vec![scored("rerank-winner", 0.98), scored("hybrid-first", 0.12), scored("third", 0.01)];
    match setup.after_rerank(candidates, Ok(reranked)) {
        SearchStep::Finish(Ok(results)) => {
            assert_eq!(results.len(), 1);
            assert_eq!(results[0].record.id, "rerank-winner");
        }
        other => panic!("unexpected step {other:?}"),
    }
}

#[test]
fn hybrid_search_limits_candidates_before_rerank() {
    let config = reranking_config(2, false);
    let request = pacific_request();
    let setup = SearchSetup { config: &config, request: &request, sqlite: true, reranker: true };
    assert_eq!(fused_candidates(&setup).len(), 2);
}

#[test]
fn hybrid_search_fail_closed_returns_rerank_error() {
    let config = reranking_config(3, false);
    let request = pacific_request();
    let setup = SearchSetup { config: &config, request: &request, sqlite: true, reranker: true };
    let failure = MemoryError::Rerank { message: "fake reranker failed".to_string() };
    match setup.after_rerank(fused_candidates(&setup), Err(failure)) {
        SearchStep::Finish(Err(error)) => {
            assert!(error.to_text().contains("fake reranker failed"))
        }
        other => panic!("unexpected step {other:?}"),
    }
}

#[test]
fn hybrid_search_fail_open_returns_hybrid_order() {
    let config = reranking_config(3, true);
    let request = pacific_request();
    let setup = SearchSetup { config: &config, request: &request, sqlite: true, reranker: true };
    let failure = MemoryError::Rerank { message: "fake reranker failed".to_string() };
    match setup.after_rerank(fused_candidates(&setup), Err(failure)) {
        SearchStep::Finish(Ok(results)) => {
            assert_eq!(results.len(), 1);
            assert_eq!(results[0].record.id, "hybrid-first");
        }
        other => panic!("unexpected step {other:?}"),
    }
}

#[test]
fn graph_failures_end_a_search_unless_it_may_go_on() {
    let mut config = RetrievalConfig { mode: SearchMode::Dense, ..RetrievalConfig::default() };
    config.graph.enabled = true;
    config.graph.fail_open = false;
    let request =
        SearchMemoryRequest { graph_memory_space_id: Some("s".to_string()), ..search_request("q") };
    let setup = SearchSetup { config: &config, request: &request, sqlite: true, reranker: false };
    match setup.after_dense(Ok(vec![scored("a", 0.9)])) {
        SearchStep::Graph { base, request, .. } => {
            assert_eq!(base.len(), 1);
            assert_eq!(request.memory_space_id, "s");
            assert_eq!(request.top_k, 2);
        }
        other => panic!("unexpected step {other:?}"),
    }
    let failure = || Err(MemoryError::store_backend("no graph"));
    assert!(matches!(
        setup.after_graph(vec![scored("a", 0.9)], 2, failure()),
        SearchStep::Finish(Err(_))
    ));
    let mut open_config = RetrievalConfig { mode: SearchMode::Dense, ..RetrievalConfig::default() };
    open_config.graph.enabled = true;
    open_config.graph.fail_open = true;
    let open =
        SearchSetup { config: &open_config, request: &request, sqlite: true, reranker: false };
    match open.after_graph(vec![scored("a", 0.9)], 2, failure()) {
        SearchStep::Finish(Ok(results)) => assert_eq!(results[0].record.id, "a"),
        other => panic!("unexpected step {other:?}"),
    }
    let nowhere = search_request("q");
    let lost =
        SearchSetup { config: &config, request: &nowhere, sqlite: true, reranker: false };
    assert!(matches!(
        lost.after_dense(Ok(vec![scored("a", 0.9)])),
        SearchStep::Finish(Err(MemoryError::InvalidInput { .. }))
    ));
}

#[test]
fn ranking_breaks_ties_and_keeps_the_best() {
    let ranked = rank_results(vec![scored("b", 0.5), scored("a", 0.5), scored("c", 0.9)], 2);
    assert_eq!(ranked[0].record.id, "c");
    assert_eq!(ranked.len(), 2);
    let merged = merge_hybrid_candidates(&vec![scored("a", 0.5)], &vec![scored("a", 2.0)]);
    assert_eq!(merged.len(), 1);
    assert_eq!(merged[0].dense_score, Some(score_rank(0.5f32.to_bits())));
    assert_eq!(merged[0].bm25_score, Some(score_rank(2.0f32.to_bits())));
}

#[test]
fn added_records_replace_those_with_their_id() {
    let mut newer = record("a", object(vec![]));
    newer.text = "newer".to_string();
    let stored = add_records(&vec![], &vec![record("a", object(vec![])), record("b", object(vec![]))]);
    let stored = add_record(&stored, &newer);
    assert_eq!(stored.len(), 2);
    assert_eq!(stored.iter().filter(|r| r.id == "a").count(), 1);
    assert_eq!(stored.iter().find(|r| r.id == "a").unwrap().text, "newer");
    let lines = vec!["{\"a\":1}".to_string(), "{}".to_string()];
    assert_eq!(lines_content(&lines), "{\"a\":1}\n{}\n");
    assert_eq!(record_lines(&lines_content(&lines)), lines);
    assert_eq!(record_lines("x\n\n  \ny"), vec!["x".to_string(), "y".to_string()]);
    assert_eq!(FileMemoryStore::new("memory.jsonl").path(), "memory.jsonl");
}

#[test]
fn embeddings_are_checked() {
    let items = vec![
        EmbeddingItem { index: None, embedding: vec![1] },
        EmbeddingItem { index: None, embedding: vec![2] },
    ];
    assert_eq!(ordered_embeddings(&items).unwrap(), vec![vec![1], vec![2]]);
    assert!(check_dimensions(&vec![vec![1, 2]], 2).is_ok());
    let error = check_dimensions(&vec![vec![1, 2], vec![1]], 2).unwrap_err();
    assert!(!error.retryable);
    assert_eq!(error.message, "embedding dimension mismatch at index 1: expected 2 got 1");
    let provider =
        OpenRouterEmbedding::with_base_url("key", "https://example.test/v1//", "model", 8);
    assert_eq!(provider.embeddings_url(), "https://example.test/v1/embeddings");
    assert_eq!(provider.profile_id(), "openai_compatible:https://example.test/v1:model:8");
    let usual = OpenRouterEmbedding::new("key", "model", 8);
    assert_eq!(usual.embeddings_url(), "https://openrouter.ai/api/v1/embeddings");
}

#[test]
fn hashed_embeddings_count_words() {
    let embedding = HashEmbedding::new(8);
    assert_eq!(embedding.profile_id(), "hash:8");
    assert_eq!(embedding.hash_embed(" Hello  hello "), vec![0, 2, 0, 0, 0, 0, 0, 0]);
    assert_eq!(HashEmbedding::new(0).hash_embed("x y"), vec![2]);
    let counts = embedding.hash_embed("the quick brown fox the end");
    assert_eq!(counts, embedding.hash_embed("END  the Quick\nthe fox BROWN"));
    assert_eq!(counts.iter().sum::<u64>(), 6);
}

#[test]
fn attempts_are_repeated_with_growing_delays() {
    let retryable = AttemptError { retryable: true, message: "busy".to_string() };
    let fatal = AttemptError { retryable: false, message: "bad".to_string() };
    assert!(matches!(after_failure(&retryable, 3, 8), RetryDecision::Wait { seconds: 4 }));
    assert!(
        matches!(after_failure(&retryable, 8, 8), RetryDecision::GiveUp { message } if message == "busy")
    );
    assert!(matches!(after_failure(&fatal, 1, 8), RetryDecision::GiveUp { .. }));
    assert!(is_retryable_status(429) && is_retryable_status(503));
    assert!(!is_retryable_status(400) && !is_retryable_status(501));
    assert_eq!(preview_body(&"x".repeat(1001)).len(), 1000);
}

fn graph_request(text: &str) -> GraphAddMemoryRequest {
    GraphAddMemoryRequest {
        memory_space_id: "space".to_string(),
        owner_id: "owner".to_string(),
        idempotency_key: "key".to_string(),
        text: text.to_string(),
        metadata: object(vec![]),
        session_id: None,
        session_sequence: None,
        source_kind: "chat".to_string(),
        source_ref: None,
        content_role: "user".to_string(),
        created_by_agent_id: None,
        observed_at_ms: None,
    }
}

#[test]
fn inputs_are_hashed_without_their_logs() {
    let mut fields = hash_fields(&graph_request("hi"));
    assert_eq!(stable_input_hash(&fields), "1b797123-f414-5f12-8f6f-9fd0b7bad897");
    fields.metadata.put("trace_id", text("t-1"));
    fields.metadata.put("runtime_log", text("log"));
    assert_eq!(stable_input_hash(&fields), "1b797123-f414-5f12-8f6f-9fd0b7bad897");
    fields.metadata.put("weight", Json::Float("1.50".to_string()));
    let weighted = stable_input_hash(&fields);
    fields.metadata.put("weight", Json::Float("1.5".to_string()));
    assert_eq!(stable_input_hash(&fields), weighted);
    assert_ne!(weighted, "1b797123-f414-5f12-8f6f-9fd0b7bad897");
    fields.metadata.put("speaker", text("Alice"));
    assert_ne!(stable_input_hash(&fields), "1b797123-f414-5f12-8f6f-9fd0b7bad897");
}

#[test]
fn records_are_accepted_once() {
    let request = graph_request("hi");
    let accepted = accept_memory_record(&request, "owner", None, 5).unwrap();
    let run = accepted.run.expect("run");
    assert_eq!(accepted.response.status, "pending");
    assert_eq!(accepted.response.memory_record_id.len(), 36);
    let known = KnownRun {
        memory_record_id: "record".to_string(),
        ingestion_run_id: "run".to_string(),
        input_hash: run.input_hash.clone(),
        status: "completed".to_string(),
    };
    let again = accept_memory_record(&request, "owner", Some(&known), 6).unwrap();
    assert!(again.run.is_none());
    assert_eq!(again.response.memory_record_id, "record");
    let message = |r: Result<_, MemoryError>| -> String {
        match r {
            Ok(_) => panic!("should fail"),
            Err(error) => error.to_text(),
        }
    };
    assert!(message(accept_memory_record(&graph_request("other"), "owner", Some(&known), 6).map(|_| ()))
        .contains("IDEMPOTENCY_CONFLICT"));
    assert!(message(accept_memory_record(&request, "someone", None, 6).map(|_| ()))
        .contains("MEMORY_SPACE_OWNER_MISMATCH"));
    assert!(message(accept_memory_record(&graph_request(" "), "owner", None, 6).map(|_| ()))
        .contains("memory text must not be empty"));
}

#[test]
fn runs_pass_their_stages_in_order() {
    let mut run =
        accept_memory_record(&graph_request("hi"), "owner", None, 1).unwrap().run.unwrap();
    let record_id = run.memory_record_id.clone();
    assert!(run.claim_extraction(2).is_err());
    run.claim_pending(2).unwrap();
    assert!(run.claim_pending(2).is_err());
    assert_eq!((run.status.as_str(), run.stage.as_str()), ("running", "embedding"));
    assert!(run.store_embedding("space", &record_id, 9, 3).is_err());
    run.store_embedding("space", &record_id, run.attempt_count, 3).unwrap();
    run.claim_extraction(4).unwrap();
    run.complete_extraction("space", run.attempt_count, 5).unwrap();
    assert!(run.clone().claim_resolution(false, 6).is_err());
    run.claim_resolution(true, 6).unwrap();
    run.complete_resolution("space", run.attempt_count, 7).unwrap();
    assert_eq!((run.status.as_str(), run.stage.as_str()), ("completed", "completed"));
    assert_eq!(run.completed_at_ms, Some(7));
    assert!(run.claim_pending(8).is_err());
    assert!(run.mark_failed(run.attempt_count, "completed", "CODE", "late", 8).is_err());

    let mut failed =
        accept_memory_record(&graph_request("hi"), "owner", None, 1).unwrap().run.unwrap();
    failed.claim_pending(2).unwrap();
    failed.mark_failed(failed.attempt_count, "embedding", "CODE", "broken", 3).unwrap();
    assert_eq!(failed.status, "failed");
    assert_eq!(failed.error_code.as_deref(), Some("CODE"));
}

fn entity(id: &str, name: &str) -> ExtractedEntityCandidate {
    ExtractedEntityCandidate {
        local_id: id.to_string(),
        name: name.to_string(),
        entity_type: "PERSON".to_string(),
        confidence: None,
    }
}

fn span(quote: &str) -> GraphEvidenceSpan {
    GraphEvidenceSpan { text: Some(quote.to_string()), start_byte: None, end_byte: None }
}

fn fact(id: &str, fact_text: &str, evidence: Vec<GraphEvidenceSpan>) -> ExtractedFactCandidate {
    ExtractedFactCandidate {
        local_id: id.to_string(),
        subject_ref: "e1".to_string(),
        predicate: "LIVES_IN".to_string(),
        object_ref: "e2".to_string(),
        fact_text: fact_text.to_string(),
        evidence,
        confidence: Some(0.9f32.to_bits()),
        temporal_expression: None,
        valid_from_ms: None,
        valid_to_ms: None,
    }
}

fn extraction(facts: Vec<ExtractedFactCandidate>) -> GraphExtractionOutput {
    GraphExtractionOutput {
        entities: vec![entity("e1", "Alice"), entity("e2", "Shanghai")],
        facts,
        input_tokens: None,
        output_tokens: None,
    }
}

const RECORD: &str = "你好, Alice lives in Shanghai.";

#[test]
fn extractions_are_checked_against_their_record() {
    let registry = GraphTypeRegistry::new_default();
    let check = |output: &GraphExtractionOutput| {
        output.validate_against_record(RECORD, &registry).map_err(|error| error.to_text())
    };
    let predicate = registry.predicates[0].name.clone();
    let sound = || {
        let mut f = fact("f1", "Alice lives in Shanghai.", vec![span("Alice lives")]);
        f.predicate = predicate.clone();
        extraction(vec![f])
    };
    assert_eq!(check(&sound()), Ok(()));
    let problem = |change: &dyn Fn(&mut GraphExtractionOutput)| {
        let mut output = sound();
        change(&mut output);
        check(&output).unwrap_err()
    };
    assert!(problem(&|o| o.entities[1].local_id = "e1".to_string())
        .contains("duplicate entity local_id 'e1'"));
    assert!(problem(&|o| o.entities[0].name = " ".to_string())
        .contains("entity.name must not be empty"));
    assert!(problem(&|o| o.entities[0].entity_type = "ROBOT".to_string())
        .contains("unknown entity type 'ROBOT'"));
    assert!(problem(&|o| o.entities[0].confidence = Some(1.5f32.to_bits()))
        .contains("entity.confidence must be between 0 and 1"));
    assert!(problem(&|o| o.facts[0].subject_ref = "e9".to_string())
        .contains("fact 'f1' references unknown subject 'e9'"));
    assert!(problem(&|o| o.facts[0].object_ref = "e9".to_string())
        .contains("fact 'f1' references unknown object 'e9'"));
    assert!(problem(&|o| o.facts[0].predicate = "EATS_AT".to_string())
        .contains("unknown predicate 'EATS_AT'"));
    assert!(problem(&|o| o.facts[0].evidence.clear())
        .contains("fact 'f1' must include at least one evidence"));
    assert!(problem(&|o| o.facts[0].evidence[0] = span("Bob"))
        .contains("evidence text is not present in record text"));
    assert!(problem(&|o| o.facts[0].evidence[0].start_byte = Some(0))
        .contains("evidence start_byte and end_byte must be set together"));
    assert!(problem(&|o| {
        o.facts[0].evidence[0].start_byte = Some(1);
        o.facts[0].evidence[0].end_byte = Some(3);
    })
    .contains("evidence byte range is not on UTF-8 boundaries"));
    assert!(problem(&|o| {
        o.facts[0].evidence[0].start_byte = Some(0);
        o.facts[0].evidence[0].end_byte = Some(999);
    })
    .contains("evidence byte range is outside record text"));
    assert!(problem(&|o| {
        o.facts[0].evidence[0].start_byte = Some(0);
        o.facts[0].evidence[0].end_byte = Some(6);
    })
    .contains("evidence text does not match record byte range"));
    assert!(problem(&|o| o.facts[0].evidence[0].text = None)
        .contains("evidence must include text or byte range"));
    assert!(problem(&|o| {
        o.facts[0].valid_from_ms = Some(5);
        o.facts[0].valid_to_ms = Some(4);
    })
    .contains("fact 'f1' has valid_from_ms after valid_to_ms"));
    let doubled = || {
        let mut output = sound();
        let again = output.facts[0].clone();
        output.facts.push(again);
        output
    };
    assert!(check(&doubled()).unwrap_err().contains("duplicate fact local_id 'f1'"));
}

#[test]
fn evidence_is_found_again_in_its_record() {
    let mut output = extraction(vec![fact("f1", "x", vec![span("Alice lives"), span("Bob")])]);
    repair_evidence_byte_offsets(&mut output, RECORD);
    assert_eq!(output.facts[0].evidence[0].start_byte, Some(8));
    assert_eq!(output.facts[0].evidence[0].end_byte, Some(19));
    assert_eq!(output.facts[0].evidence[1].start_byte, None);
}

#[test]
fn cleaned_extractions_are_sound_and_distinct() {
    let registry = GraphTypeRegistry::new_default();
    let predicate = registry.predicates[0].name.clone();
    let with_predicate = |mut f: ExtractedFactCandidate| {
        f.predicate = predicate.clone();
        f
    };
    let mut output = extraction(vec![
        with_predicate(fact("f1", "Alice lives in Shanghai.", vec![span("Alice lives")])),
        with_predicate(fact("f1", "alice  lives in shanghai.", vec![span("Shanghai")])),
        with_predicate(fact("f2", "Alice knows Bob.", vec![span("Bob")])),
    ]);
    clean_extraction(&mut output, RECORD, &registry, Some(11), None);
    assert_eq!(output.input_tokens, Some(11));
    assert_eq!(output.output_tokens, None);
    assert!(output.validate_against_record(RECORD, &registry).is_ok());
    assert_eq!(output.facts.len(), 1);

    let mut doubled = extraction(vec![fact("f", "a", vec![]), fact("f", "b", vec![])]);
    uniquify_fact_local_ids(&mut doubled);
    assert_ne!(doubled.facts[0].local_id, doubled.facts[1].local_id);
    let mut same = extraction(vec![
        fact("f1", "Alice lives here.", vec![span("Alice")]),
        fact("f2", "Alice lives here.", vec![span("lives")]),
    ]);
    deduplicate_semantic_facts(&mut same);
    assert_eq!(same.facts.len(), 1);
    let mut dangling = extraction(vec![fact("f1", "x", vec![])]);
    drop_unmaterializable_facts(&mut dangling, &registry, RECORD);
    assert!(dangling.facts.is_empty());
    let mut timed = extraction(vec![fact("f1", "x", vec![])]);
    timed.facts[0].valid_from_ms = Some(9);
    timed.facts[0].valid_to_ms = Some(3);
    sanitize_llm_fact_times(&mut timed, RECORD);
    assert!(timed.facts[0].valid_from_ms.is_none() || timed.facts[0].valid_to_ms.is_none());
    assert!(registry.entity_types.contains(&normalize_llm_entity_type("no such thing", &registry)));
    assert_eq!(normalize_llm_entity_type(" person ", &registry), "PERSON");
}

#[test]
fn model_answers_must_be_json() {
    assert!(validate_json_content("```json\n{\"ok\":true}\n```").is_ok());
    let error = validate_json_content("{\"cut\":").unwrap_err();
    assert!(error.retryable);
    assert!(error.message.starts_with("graph LLM returned invalid JSON: EOF while parsing"));
    let missing = read_llm_response(None, None, None).unwrap_err();
    assert_eq!(missing.message, "graph LLM response did not include message content");
    let read = read_llm_response(Some("{}".to_string()), Some(3), Some(4)).unwrap();
    assert_eq!((read.input_tokens, read.output_tokens), (Some(3), Some(4)));
    assert!(check_body_growth(0, 262_144).is_ok());
    assert!(!check_body_growth(1, 262_144).unwrap_err().retryable);
    let status = llm_status_error(503, "503 Service Unavailable");
    assert!(status.retryable);
    assert_eq!(status.message, "graph LLM API returned HTTP 503 Service Unavailable");
}

#[test]
fn prompts_show_values_in_pretty_form() {
    let registry = GraphTypeRegistry::new_default();
    let request = build_graph_llm_request(
        &GraphExtractionInput {
            memory_space_id: "space-1".to_string(),
            memory_record_id: "record-1".to_string(),
            text: "hello".to_string(),
            metadata: object(vec![("speaker", text("Alice"))]),
            context_record_ids: Vec::new(),
            type_registry_version: registry.version.clone(),
        },
        &registry,
    );
    assert_eq!(request.messages.len(), 2);
    assert_eq!(request.messages[0].role, "system");
    assert!(request.response_format_json);
    assert_eq!(f32::from_bits(request.temperature_bits), 0.0);
    assert!(request.messages[1]
        .content
        .contains("  \"source_context\": {\n    \"speaker\": \"Alice\"\n  },"));
}

#[test]
fn entities_are_reused_where_they_are_unambiguous() {
    let by_name = resolve_entity(Some("known".to_string()), &vec![], "new");
    assert_eq!((by_name.id.as_str(), by_name.created), ("known", false));
    let by_alias = resolve_entity(None, &vec!["alias".to_string()], "new");
    assert_eq!((by_alias.id.as_str(), by_alias.created), ("alias", false));
    let ambiguous = resolve_entity(None, &vec!["a".to_string(), "b".to_string()], "new");
    assert_eq!((ambiguous.id.as_str(), ambiguous.created), ("new", true));
    let fact = resolve_fact(None, "new");
    assert!(fact.created);
    let decision = resolution_decision("entity", "e1", &by_name);
    assert_eq!(decision.candidate_ids_json, "[\"known\"]");
    assert_eq!(fact_dedup_key("s", "p", "o", "say \"hi\""), "[\"s\",\"p\",\"o\",\"say \\\"hi\\\"\"]");
    let output = extraction(vec![fact_with_refs()]);
    let endpoints = fact_endpoints(&output, &vec![by_name, by_alias]).unwrap();
    assert_eq!(endpoints[0].subject_entity_id, "known");
    assert_eq!(endpoints[0].object_entity_id, "alias");
}

fn fact_with_refs() -> ExtractedFactCandidate {
    fact("f1", "x", vec![])
}

#[test]
fn source_entities_are_read_from_metadata() {
    let registry = GraphTypeRegistry::new_default();
    let metadata = object(vec![(
        "graph_source_entity",
        object(vec![("name", text("Alice")), ("entity_type", text("PERSON"))]),
    )]);
    let source = source_entity_from_metadata(&metadata, &registry).unwrap().unwrap();
    assert_eq!((source.name.as_str(), source.entity_type.as_str()), ("Alice", "PERSON"));
    assert!(source_entity_from_metadata(&object(vec![]), &registry).unwrap().is_none());
    let unknown = object(vec![(
        "graph_source_entity",
        object(vec![("name", text("Alice")), ("entity_type", text("ROBOT"))]),
    )]);
    assert!(source_entity_from_metadata(&unknown, &registry).is_err());
}

#[test]
fn extractions_are_stored_or_reported() {
    let registry = GraphTypeRegistry::new_default();
    let run = accept_memory_record(&graph_request(RECORD), "owner", None, 1).unwrap().run.unwrap();
    let claim = claimed_extraction_run(&run, RECORD, &object(vec![]), 1);
    assert_eq!(extraction_input(&claim, &registry).text, RECORD);
    let extractor = ExtractorInfo {
        extractor_name: "llm".to_string(),
        model: "model".to_string(),
        prompt_version: "p".to_string(),
        schema_version: "s".to_string(),
    };
    match after_extraction(&claim, &extractor, &registry, Ok(extraction(vec![])), Some(3)) {
        ExtractionStep::Store { completion, output } => {
            assert_eq!(completion.latency_ms, Some(3));
            assert_eq!(output.entities.len(), 2);
        }
        other => panic!("unexpected step {other:?}"),
    }
    let unsound = extraction(vec![fact("f1", "x", vec![])]);
    match after_extraction(&claim, &extractor, &registry, Ok(unsound), None) {
        ExtractionStep::Fail { failure, .. } => {
            assert_eq!(failure.error_code, "INVALID_EXTRACTION_OUTPUT")
        }
        other => panic!("unexpected step {other:?}"),
    }
    let broken = Err(MemoryError::Extraction { message: "down".to_string() });
    match after_extraction(&claim, &extractor, &registry, broken, None) {
        ExtractionStep::Fail { failure, error } => {
            assert_eq!(failure.error_code, "EXTRACTION_FAILED");
            assert!(error.to_text().contains("down"));
        }
        other => panic!("unexpected step {other:?}"),
    }
}

#[test]
fn seeds_are_merged_by_what_they_stand_for() {
    let mut seeds: Vec<GraphSeed> = Vec::new();
    append_ranked_seeds(
        GraphSeedKind::Entity,
        &vec!["a".to_string(), "b".to_string()],
        &vec![10, 20],
        &mut seeds,
    );
    append_ranked_seeds(GraphSeedKind::Fact, &vec!["a".to_string()], &vec![30], &mut seeds);
    append_ranked_seeds(GraphSeedKind::Entity, &vec!["a".to_string()], &vec![25], &mut seeds);
    let merged = merge_seeds(seeds, 2);
    assert_eq!(merged.len(), 2);
    assert_eq!((merged[0].kind, merged[0].id.as_str(), merged[0].score), (GraphSeedKind::Fact, "a", 30));
    assert_eq!((merged[1].id.as_str(), merged[1].score), ("a", 25));
}

#[test]
fn facts_keep_their_best_find() {
    let find = |id: &str, score: i32| FactCandidate {
        fact_id: id.to_string(),
        score,
        path: vec![],
        recorded_at_ms: 1,
    };
    let mut candidates = vec![find("f", 5)];
    upsert_fact_candidate(&mut candidates, find("f", 9), false);
    upsert_fact_candidate(&mut candidates, find("f", 3), false);
    upsert_fact_candidate(&mut candidates, find("g", 7), false);
    let ranked = rank_fact_candidates(candidates, 5);
    assert_eq!(
        ranked.iter().map(|c| (c.fact_id.as_str(), c.score)).collect::<Vec<_>>(),
        vec![("f", 9), ("g", 7)]
    );
    assert_eq!(
        path_with_records(&vec!["fact:f".to_string()], &vec!["r".to_string()]).len(),
        2
    );
    assert_eq!(first_of_each(&vec!["a".to_string(), "b".to_string(), "a".to_string()]), vec![0, 1]);
}

#[test]
fn stored_values_are_read_back() {
    let embedding = vec![1.5f32.to_bits(), (-2.0f32).to_bits()];
    let blob = embedding_to_blob(&embedding);
    assert_eq!(blob.len(), 8);
    assert_eq!(&blob[..4], &1.5f32.to_le_bytes());
    assert_eq!(blob_to_embedding(Some(&blob), Some(2), "r").unwrap(), Some(embedding));
    assert_eq!(blob_to_embedding(None, None, "r").unwrap(), None);
    assert!(blob_to_embedding(Some(&blob), Some(3), "r").is_err());
    assert!(blob_to_embedding(Some(&vec![1, 2, 3]), None, "r").is_err());
    assert_eq!(parse_fact_status("active").unwrap(), FactStatus::Active);
    assert!(parse_fact_status("gone").is_err());
}

#[test]
fn clocks_before_the_epoch_read_zero() {
    assert_eq!(timestamp_ms(None), 0);
    assert_eq!(timestamp_ms(Some(5)), 5);
    assert!(current_time_ms() > 1_600_000_000_000);
}

#[test]
fn seeds_lead_to_each_fact_once() {
    let seed = |kind: GraphSeedKind, id: &str, score: i32| GraphSeed { kind, id: id.to_string(), score };
    let row = |id: &str, at: u64| FactRow { fact_id: id.to_string(), recorded_at_ms: at };
    let seeds =
        vec![seed(GraphSeedKind::Entity, "alice", 9), seed(GraphSeedKind::Fact, "f1", 9)];
    let rows = vec![vec![row("f1", 1), row("f2", 2)], vec![row("f1", 1)]];
    let tied = expand_seed_facts(&seeds, &rows, &vec![(9, 9)], 5);
    assert_eq!(tied.len(), 2);
    assert_eq!(tied[0].fact_id, "f1");
    assert_eq!(tied[0].path, vec!["fact:f1"]);
    assert_eq!(tied[1].path, vec!["entity:alice", "fact:f2"]);
    let apart = expand_seed_facts(&seeds, &rows, &vec![], 5);
    assert_eq!(apart[0].path, vec!["entity:alice", "fact:f1"]);
    assert_eq!(expand_seed_facts(&seeds, &rows, &vec![], 1).len(), 1);
    assert!(expand_seed_facts(&seeds, &rows, &vec![], 0).is_empty());
}

fn graph_record(id: &str) -> GraphMemoryRecord {
    GraphMemoryRecord {
        id: id.to_string(),
        memory_space_id: "space".to_string(),
        session_id: None,
        ingestion_sequence: 1,
        session_sequence: None,
        text: id.to_string(),
        metadata: object(vec![]),
        source_kind: "chat".to_string(),
        source_ref: None,
        content_role: "user".to_string(),
        created_by_agent_id: None,
        observed_at_ms: None,
        embedding: None,
        created_at_ms: 1,
        updated_at_ms: 1,
    }
}

fn unit(id: &str, subject: &str, object_id: &str, records: &[&str]) -> FactContextUnit {
    let entity = |id: &str| Entity {
        id: id.to_string(),
        memory_space_id: "space".to_string(),
        canonical_name: id.to_string(),
        entity_type: "PERSON".to_string(),
    };
    FactContextUnit {
        fact_id: id.to_string(),
        fact_text: id.to_string(),
        subject_entity: entity(subject),
        object_entity: entity(object_id),
        predicate: "KNOWS".to_string(),
        evidence_records: records.iter().map(|id| graph_record(id)).collect(),
        path: vec![format!("fact:{id}")],
        score: 1,
        score_text: "1.0".to_string(),
        valid_from_ms: None,
        valid_to_ms: None,
        recorded_at_ms: 1,
    }
}

fn stored_fact(id: &str, subject: &str) -> Fact {
    Fact {
        id: id.to_string(),
        memory_space_id: "space".to_string(),
        subject_entity_id: subject.to_string(),
        predicate: "LIKES".to_string(),
        object_entity_id: "o".to_string(),
        fact_text: id.to_string(),
        dedup_key: None,
        embedding: Some(vec![1, 2]),
        embedding_model: None,
        embedding_version: None,
        status: FactStatus::Active,
        valid_from_ms: None,
        valid_to_ms: None,
        recorded_at_ms: 1,
        retired_at_ms: None,
        type_registry_version: "v1".to_string(),
    }
}

#[test]
fn bundles_hold_each_member_once() {
    let units = vec![unit("f1", "a", "b", &["r1", "r2"]), unit("f2", "b", "c", &["r2", "r3"])];
    let rows = || vec![stored_fact("f1", "a"), stored_fact("f2", "b"), stored_fact("f1", "z")];
    let members = collect_bundle_members(&units, &rows());
    assert_eq!(
        members
            .facts
            .iter()
            .map(|fact| (fact.id.as_str(), fact.subject_entity_id.as_str()))
            .collect::<Vec<_>>(),
        vec![("f1", "a"), ("f2", "b")]
    );
    assert_eq!(members.facts[0].memory_space_id, "space");
    assert_eq!(
        members.records.iter().map(|record| record.id.as_str()).collect::<Vec<_>>(),
        vec!["r1", "r2", "r3"]
    );
    assert_eq!(
        members.entities.iter().map(|entity| entity.id.as_str()).collect::<Vec<_>>(),
        vec!["a", "b", "c"]
    );
    assert_eq!(members.paths, vec![vec!["fact:f1"], vec!["fact:f2"]]);
    let question = GraphRetrieveContextRequest {
        memory_space_id: "space".to_string(),
        query: "who".to_string(),
        top_k: 3,
        reference_time_ms: None,
        seed_limit: None,
        max_evidence_records_per_fact: None,
    };
    let bundle = context_bundle(&question, Some((units, rows())), 7);
    assert_eq!(bundle.reference_time_ms, 7);
    assert_eq!(bundle.fact_context_units.len(), 2);
    assert_eq!(bundle.degraded_reason, None);
    let empty = context_bundle(&question, None, 7);
    assert!(empty.members.records.is_empty());
    assert!(empty.members.facts.is_empty());
    assert_eq!(
        empty.degraded_reason.as_deref(),
        Some("query produced no graph retrieval terms")
    );
}

#[test]
fn graph_texts_are_compared_without_case_and_spacing() {
    assert_eq!(normalize_graph_text("  Ada \t LOVELACE\n"), "ada lovelace");
    assert_eq!(normalize_graph_text("Élan"), "élan");
    assert_eq!(normalize_graph_text("   "), "");
}

#[test]
fn json_texts_are_read() {
    let value = read_json(" {\"b\": [1, -2, 1.50, null], \"a\": \"x\\n\"} ").unwrap();
    assert_eq!(value.get_str("a"), Some("x\n"));
    assert_eq!(value.serialize(), "{\"a\":\"x\\n\",\"b\":[1,-2,1.5,null]}");
    assert!(value.same(&read_json(&value.serialize_pretty()).unwrap()));
    assert!(read_json("{\"a\":").unwrap_err().starts_with("EOF while parsing"));
}

#[test]
fn batches_hold_each_query_once() {
    let requests = vec![search_request(" a "), search_request("b"), search_request("c\n")];
    let texts = search_texts(&requests);
    assert_eq!(texts, vec!["a", "b", "c"]);
    for size in 0..5 {
        let joined = batch_bounds(texts.len(), size)
            .into_iter()
            .flat_map(|(start, end)| texts[start..end].to_vec())
            .collect::<Vec<_>>();
        assert_eq!(joined, texts);
    }
}

#[test]
fn the_best_fact_keeps_the_first_place() {
    let with = |id: &str, text: &str, predicate: &str, confidence: Option<f32>| {
        ExtractedFactCandidate {
            predicate: predicate.to_string(),
            confidence: confidence.map(f32::to_bits),
            ..fact(id, text, Vec::new())
        }
    };
    let mut output = extraction(vec![
        with("f1", "Alice lives here.", "RELATED_TO", Some(0.9)),
        with("f2", "Alice likes tea.", "LIKES", None),
        with("f3", "alice LIVES here", "LIVES_IN", Some(0.2)),
        with("f4", "Alice lives here", "LIVES_IN", Some(0.2)),
    ]);
    let ids = |output: &GraphExtractionOutput| {
        output.facts.iter().map(|fact| fact.local_id.clone()).collect::<Vec<_>>()
    };
    deduplicate_semantic_facts(&mut output);
    assert_eq!(ids(&output), vec!["f3", "f2"]);
    deduplicate_semantic_facts(&mut output);
    assert_eq!(ids(&output), vec!["f3", "f2"]);
    for nan in [f32::NAN, -f32::NAN] {
        for confidence in [Some(1.0), Some(-1.0), None] {
            let mut output = extraction(vec![
                with("f1", "Alice lives here.", "LIVES_IN", confidence),
                with("f2", "Alice lives here.", "LIVES_IN", Some(nan)),
                with("f3", "Alice likes tea.", "LIKES", Some(nan)),
                with("f4", "Alice likes tea.", "LIKES", confidence),
            ]);
            deduplicate_semantic_facts(&mut output);
            assert_eq!(ids(&output), vec!["f1", "f3"]);
        }
    }
}

#[test]
fn ambiguous_entities_go_and_others_stay_once() {
    let mut output = extraction(vec![fact("f1", "Alice lives here", Vec::new())]);
    output.entities = vec![
        entity("e2", "Shanghai"),
        entity("e3", "Bob"),
        entity("e1", "Alice"),
        entity("e3", "Robert"),
        ExtractedEntityCandidate {
            confidence: Some(0.5f32.to_bits()),
            ..entity("e2", "shanghai ")
        },
    ];
    for _ in 0..2 {
        deduplicate_entity_local_ids(&mut output);
        let left = output
            .entities
            .iter()
            .map(|entity| (entity.local_id.as_str(), entity.name.as_str()))
            .collect::<Vec<_>>();
        assert_eq!(left, vec![("e2", "shanghai "), ("e1", "Alice")]);
        assert_eq!(output.facts.len(), 1);
    }
}

#[test]
fn white_space_is_the_unicode_property() {
    let spaces = (0..=0x10ffff)
        .filter_map(char::from_u32)
        .filter(|c| trim(&c.to_string()).is_empty())
        .map(u32::from)
        .collect::<Vec<_>>();
    let listed = (0x09..=0x0d)
        .chain([0x20, 0x85, 0xa0, 0x1680])
        .chain(0x2000..=0x200a)
        .chain([0x2028, 0x2029, 0x202f, 0x205f, 0x3000])
        .collect::<Vec<u32>>();
    assert_eq!(spaces, listed);
    assert_eq!(trim("\u{3000}a\u{200b}\u{a0}"), "a\u{200b}");
}
