use ram_a::api::{score_rank, SearchMode};
use ram_a::bench::{
    check_filter, collect_field_texts, graph_memory_space_for_memory, graph_memory_space_for_query,
    is_prepared_schema_v1, judge_filter, merge_metadata, parse_conversation_index, parse_filter,
    parse_graph_build_concurrency, prepared_memory_metadata, search_output_id, top_level_array_space,
    GraphMemorySpaceMode, GraphOptions, TextItem,
};
use ram_a::bench_run::{
    build_graph_add_request, plan_add, plan_add_prepared_memories, should_skip_existing,
};
use ram_a::bench_search::{
    check_runtime, collect_queries, pending_indexes, plan_search, plan_search_prepared_queries,
    progress_log_interval, recover_outputs, resume_completed_indexes, EmbeddingKind, Progress, QueryOutput,
    RuntimeOptions, SearchOutput, StoreBackendKind,
};
use ram_a::json::Json;

fn text(value: &str) -> Json {
    Json::Text(value.to_string())
}

fn object(members: Vec<(&str, Json)>) -> Json {
    let mut object = Json::new_object();
    for (key, value) in members {
        object.put(key, value);
    }
    object
}

fn options(mode: GraphMemorySpaceMode, field: &str) -> GraphOptions {
    GraphOptions {
        build: false,
        search: false,
        memory_space_mode: mode,
        memory_space_field: field.to_string(),
        owner_id: "memory-bench".to_string(),
    }
}

fn graph_test_cli() -> GraphOptions {
    options(GraphMemorySpaceMode::Auto, "scope_id")
}

fn graph_enabled_test_cli() -> GraphOptions {
    GraphOptions { search: true, ..graph_test_cli() }
}

fn runtime_options() -> RuntimeOptions {
    RuntimeOptions {
        store_backend: StoreBackendKind::Sqlite,
        embedding: EmbeddingKind::Hash,
        search_mode: SearchMode::Hybrid,
        graph: false,
        graph_build: false,
        rerank: false,
        api_key_env: "OPENROUTER_API_KEY".to_string(),
        api_key_is_set: false,
        rerank_api_key_env: "OPENROUTER_API_KEY".to_string(),
        rerank_api_key_is_set: false,
        graph_llm_api_key_env: "OPENROUTER_API_KEY".to_string(),
        graph_llm_api_key_is_set: false,
    }
}

#[test]
fn cli_rejects_zero_graph_build_concurrency() {
    let error = parse_graph_build_concurrency("0").expect_err("zero should fail");

    assert!(error.contains("must be at least 1"));
}

#[test]
fn graph_memory_space_auto_uses_prepared_scope_id() {
    let cli = graph_test_cli();
    let metadata = object(vec![("scope_id", text("scope-a"))]);
    let filter = object(vec![("scope_id", text("scope-a"))]);

    assert_eq!(
        graph_memory_space_for_memory("$.memories[0].text", &metadata, true, &cli)
            .expect("memory space"),
        Some("scope-a".to_string())
    );
    assert_eq!(
        graph_memory_space_for_query("$.queries[0].text", Some(&filter), true, &cli)
            .expect("query space"),
        Some("scope-a".to_string())
    );
}

#[test]
fn graph_memory_space_auto_uses_top_level_path_for_raw_array_shape() {
    let cli = graph_test_cli();
    let filter = object(vec![("scope_id", text("scope-a"))]);
    assert_eq!(
        graph_memory_space_for_memory(
            "$[12].messages[0].text",
            &object(vec![]),
            false,
            &cli,
        )
        .expect("memory space"),
        Some("path:$[12]".to_string())
    );
    assert_eq!(
        graph_memory_space_for_query("$[12].queries[0].text", Some(&filter), false, &cli)
            .expect("query space"),
        Some("path:$[12]".to_string())
    );
}

#[test]
fn graph_memory_space_auto_uses_filter_for_ad_hoc_query() {
    let cli = graph_test_cli();
    let filter = object(vec![("scope_id", text("scope-a"))]);

    assert_eq!(
        graph_memory_space_for_query("$.query", Some(&filter), false, &cli)
            .expect("query space"),
        Some("scope-a".to_string())
    );
}

#[test]
fn graph_memory_space_metadata_field_uses_configured_field() {
    let cli = options(GraphMemorySpaceMode::MetadataField, "tenant_id");
    let metadata = object(vec![("tenant_id", text("tenant-a"))]);

    assert_eq!(
        graph_memory_space_for_memory("$.memory.text", &metadata, false, &cli)
            .expect("memory space"),
        Some("tenant-a".to_string())
    );
    assert_eq!(
        graph_memory_space_for_query("$.query", Some(&metadata), false, &cli)
            .expect("query space"),
        Some("tenant-a".to_string())
    );
}

#[test]
fn graph_memory_space_path_prefix_ignores_metadata_field() {
    let cli = options(GraphMemorySpaceMode::PathPrefix, "tenant_id");
    let metadata = object(vec![("tenant_id", text("tenant-a"))]);

    assert_eq!(
        graph_memory_space_for_memory("$[3].memory.text", &metadata, false, &cli)
            .expect("memory space"),
        Some("path:$[3]".to_string())
    );
    assert_eq!(
        graph_memory_space_for_query("$[3].qa[0].question", Some(&metadata), false, &cli)
            .expect("query space"),
        Some("path:$[3]".to_string())
    );
}

#[test]
fn build_graph_add_request_requires_memory_space_id() {
    let cli = graph_test_cli();
    let error = build_graph_add_request(
        &cli,
        "record-1",
        "Alice lives in Shanghai.",
        &object(vec![]),
        "$.memory.text",
        false,
    )
    .expect_err("missing graph memory space should fail");

    assert!(error.contains(
        "graph memory space could not be derived for memory `record-1` at `$.memory.text`"
    ));
}

#[test]
fn graph_add_request_uses_observed_at_metadata() {
    let cli = graph_test_cli();

    let request = build_graph_add_request(
        &cli,
        "turn-1",
        "I went to a LGBTQ support group yesterday.",
        &object(vec![
            ("scope_id", text("scope-a")),
            ("session_id", text("session_2")),
            ("turn_index", Json::Unsigned(0)),
            ("observed_at_ms", Json::Unsigned(1_683_554_160_000u64)),
        ]),
        "$.memories[0].text",
        true,
    )
    .expect("graph request");

    assert_eq!(request.memory_space_id, "scope-a");
    assert_eq!(request.session_id.as_deref(), Some("session_2"));
    assert_eq!(request.session_sequence, Some(0));
    assert_eq!(request.observed_at_ms, Some(1_683_554_160_000));
}

#[test]
fn search_output_id_prefers_benchmark_memory_id() {
    assert_eq!(
        search_output_id(
            "graph-record-id",
            &object(vec![("benchmark_memory_id", text("turn-1"))])
        ),
        "turn-1"
    );
    assert_eq!(
        search_output_id("record-id", &object(vec![])),
        "record-id"
    );
}

#[test]
fn prepared_memory_metadata_preserves_benchmark_memory_id() {
    let metadata = prepared_memory_metadata(
        &object(vec![("scope_id", text("scope-a"))]),
        "turn-1",
        "data/prepared.json",
        "$.memories[0].text",
        "text",
    );

    assert_eq!(metadata.get_str("benchmark_memory_id"), Some("turn-1"));
    assert_eq!(metadata.get_str("scope_id"), Some("scope-a"));
    assert_eq!(metadata.get_str("dataset"), Some("data/prepared.json"));
    assert_eq!(metadata.get_str("path"), Some("$.memories[0].text"));
    assert_eq!(metadata.get_str("field"), Some("text"));
}

#[test]
fn graph_search_request_uses_scope_id_for_prepared_query() {
    let cli = graph_enabled_test_cli();
    let filter = object(vec![("scope_id", text("scope-a"))]);

    assert_eq!(
        graph_memory_space_for_query("$.queries[0].text", Some(&filter), true, &cli)
            .expect("graph space"),
        Some("scope-a".to_string())
    );
}

#[test]
fn resume_completed_indexes_skip_queries_with_matching_ids() {
    let templates = vec![
        QueryOutput {
            query_path: "$.queries[0].text".to_string(),
            query: "q0".to_string(),
            query_id: Some("Q0".to_string()),
            filter: None,
            metadata: None,
            task: None,
            completed: false,
            results: Vec::new(),
        },
        QueryOutput {
            query_path: "$.queries[1].text".to_string(),
            query: "q1".to_string(),
            query_id: Some("Q1".to_string()),
            filter: None,
            metadata: None,
            task: None,
            completed: false,
            results: Vec::new(),
        },
        QueryOutput {
            query_path: "$.queries[2].text".to_string(),
            query: "q2".to_string(),
            query_id: Some("Q2".to_string()),
            filter: None,
            metadata: None,
            task: None,
            completed: false,
            results: Vec::new(),
        },
    ];
    let existing = vec![QueryOutput {
        query_path: "$.queries[0].text".to_string(),
        query: "q0".to_string(),
        query_id: Some("Q0".to_string()),
        filter: None,
        metadata: None,
        task: None,
        completed: true,
        results: vec![SearchOutput {
            id: "m0".to_string(),
            text: "hit".to_string(),
            metadata: Json::Null,
            score: score_rank(0.9f32.to_bits()),
        }],
    }];

    let completed = resume_completed_indexes(&templates, &existing);

    assert_eq!(completed, vec![0]);
}

#[test]
fn resume_completed_indexes_falls_back_to_path_index_without_query_id() {
    let templates = vec![
        QueryOutput {
            query_path: "$.queries[0].text".to_string(),
            query: "q0".to_string(),
            query_id: None,
            filter: None,
            metadata: None,
            task: None,
            completed: false,
            results: Vec::new(),
        },
        QueryOutput {
            query_path: "$.queries[1].text".to_string(),
            query: "q1".to_string(),
            query_id: None,
            filter: None,
            metadata: None,
            task: None,
            completed: false,
            results: Vec::new(),
        },
    ];
    let existing = vec![QueryOutput {
        query_path: "$.queries[0].text".to_string(),
        query: "q0".to_string(),
        query_id: None,
        filter: None,
        metadata: None,
        task: None,
        completed: true,
        results: vec![SearchOutput {
            id: "m0".to_string(),
            text: "hit".to_string(),
            metadata: Json::Null,
            score: score_rank(0.9f32.to_bits()),
        }],
    }];

    let completed = resume_completed_indexes(&templates, &existing);

    assert_eq!(completed, vec![0]);
}

#[test]
fn resume_completed_indexes_keeps_completed_empty_results() {
    let templates = vec![QueryOutput {
        query_path: "$.queries[0].text".to_string(),
        query: "q0".to_string(),
        query_id: Some("Q0".to_string()),
        filter: None,
        metadata: None,
        task: None,
        completed: false,
        results: Vec::new(),
    }];
    let existing = vec![QueryOutput {
        query_path: "$.queries[0].text".to_string(),
        query: "q0".to_string(),
        query_id: Some("Q0".to_string()),
        filter: None,
        metadata: None,
        task: None,
        completed: true,
        results: Vec::new(),
    }];

    assert_eq!(resume_completed_indexes(&templates, &existing), vec![0]);
}

#[test]
fn build_runtime_does_not_require_rerank_api_key_when_rerank_is_disabled() {
    let options = RuntimeOptions {
        rerank_api_key_env: "RAM_A_TEST_MISSING_RERANK_KEY_DISABLED".to_string(),
        ..runtime_options()
    };

    check_runtime(&options).expect("runtime without rerank API key");
}

#[test]
fn build_runtime_requires_rerank_api_key_when_rerank_is_enabled() {
    let options = RuntimeOptions {
        rerank: true,
        rerank_api_key_env: "RAM_A_TEST_MISSING_RERANK_KEY_ENABLED".to_string(),
        ..runtime_options()
    };

    let error = match check_runtime(&options) {
        Ok(_) => panic!("missing rerank API key should fail"),
        Err(error) => error,
    };

    assert!(error.contains("missing rerank API key env RAM_A_TEST_MISSING_RERANK_KEY_ENABLED"));
}

#[test]
fn build_runtime_does_not_require_graph_llm_api_key_when_only_graph_search_is_enabled() {
    let options = RuntimeOptions {
        graph: true,
        graph_llm_api_key_env: "RAM_A_TEST_MISSING_GRAPH_KEY_SEARCH_ONLY".to_string(),
        ..runtime_options()
    };

    check_runtime(&options).expect("runtime without graph build API key");
}

#[test]
fn build_runtime_rejects_graph_search_without_graph_retrieval() {
    let options = RuntimeOptions { search_mode: SearchMode::Graph, ..runtime_options() };

    let error = match check_runtime(&options) {
        Ok(_) => panic!("graph search should require --graph"),
        Err(error) => error,
    };

    assert!(error.contains("--search-mode graph requires --graph"));
}

#[test]
fn build_runtime_requires_graph_llm_api_key_when_graph_build_is_enabled() {
    let options = RuntimeOptions {
        graph_build: true,
        graph_llm_api_key_env: "RAM_A_TEST_MISSING_GRAPH_KEY_BUILD".to_string(),
        ..runtime_options()
    };

    let error = match check_runtime(&options) {
        Ok(_) => panic!("missing graph LLM API key should fail"),
        Err(error) => error,
    };

    assert!(error.contains("missing graph LLM API key env RAM_A_TEST_MISSING_GRAPH_KEY_BUILD"));
}

#[test]
fn build_runtime_rejects_graph_build_with_jsonl_store() {
    let options = RuntimeOptions {
        store_backend: StoreBackendKind::Jsonl,
        graph_build: true,
        ..runtime_options()
    };

    let error = match check_runtime(&options) {
        Ok(_) => panic!("jsonl graph build should fail"),
        Err(error) => error,
    };

    assert!(error.contains("--graph-build requires --store-backend sqlite"));
}

fn dataset() -> Json {
    object(vec![(
        "turns",
        Json::Array(vec![
            object(vec![("speaker", text("Alice")), ("text", text("hello"))]),
            object(vec![("text", text("world"))]),
        ]),
    )])
}

fn fields(names: &[&str]) -> Vec<String> {
    names.iter().map(|name| name.to_string()).collect()
}

#[test]
fn texts_are_collected_with_their_paths() {
    let mut items: Vec<TextItem> = Vec::new();
    collect_field_texts(&dataset(), "$", &fields(&["text"]), &mut items);
    assert_eq!(
        items.iter().map(|item| (item.path.as_str(), item.text.as_str())).collect::<Vec<_>>(),
        vec![("$.turns[0].text", "hello"), ("$.turns[1].text", "world")]
    );
    assert_eq!(parse_conversation_index("$.conversation[3].turns[0]"), Some(3));
    assert_eq!(top_level_array_space("$[3].messages[0].text").as_deref(), Some("path:$[3]"));
    assert_eq!(top_level_array_space("$.memory"), None);
}

#[test]
fn runs_account_for_every_text() {
    let plan =
        plan_add(&dataset(), "data.json", &fields(&["text"]), &graph_test_cli(), None).unwrap();
    assert_eq!(plan.requests.len(), 2);
    assert_eq!(plan.skipped_existing, 0);
    assert!(plan.graph_requests.is_empty());
    assert_eq!(plan.requests[0].text, "hello");
    let id = plan.requests[0].id.clone().unwrap();
    let existing = vec![id.clone()];
    assert!(should_skip_existing(Some(&existing), &id));
    assert!(!should_skip_existing(None, &id));
    let rest = plan_add(
        &dataset(),
        "data.json",
        &fields(&["text"]),
        &graph_test_cli(),
        Some(&existing),
    )
    .unwrap();
    assert_eq!(rest.requests.len(), 1);
    assert_eq!(rest.skipped_existing, 1);
    let error = match plan_add(
        &dataset(),
        "data.json",
        &fields(&["say", "\"quoted\""]),
        &graph_test_cli(),
        None,
    ) {
        Ok(_) => panic!("nothing to add should fail"),
        Err(error) => error,
    };
    assert_eq!(
        error,
        "no memory texts found in data.json using fields [\"say\", \"\\\"quoted\\\"\"]"
    );
}

fn prepared() -> Json {
    object(vec![
        ("schema", text("memory-bench.prepared.v1")),
        ("schema_version", Json::Unsigned(1)),
        (
            "memories",
            Json::Array(vec![object(vec![
                ("id", text("turn-1")),
                ("text", text("hello")),
                ("metadata", object(vec![("scope_id", text("scope-a"))])),
            ])]),
        ),
        (
            "queries",
            Json::Array(vec![object(vec![
                ("id", text("Q1")),
                ("text", text("where?")),
                ("filter", object(vec![("scope_id", text("scope-a"))])),
            ])]),
        ),
    ])
}

#[test]
fn prepared_datasets_keep_their_ids() {
    let plan =
        plan_add_prepared_memories(&prepared(), "data.json", &graph_test_cli(), None).unwrap();
    assert_eq!(plan.requests.len(), 1);
    assert_eq!(plan.requests[0].id.as_deref(), Some("turn-1"));
    assert_eq!(plan.requests[0].metadata.get_str("scope_id"), Some("scope-a"));
    let (requests, outputs) =
        plan_search_prepared_queries(&prepared(), 3, &None, &graph_enabled_test_cli()).unwrap();
    assert_eq!(requests.len(), 1);
    assert_eq!(requests[0].top_k, 3);
    assert_eq!(requests[0].graph_memory_space_id.as_deref(), Some("scope-a"));
    assert_eq!(outputs[0].query_id.as_deref(), Some("Q1"));
    assert!(!outputs[0].completed);
    assert!(!is_prepared_schema_v1(&dataset()));
}

#[test]
fn queries_come_from_the_line_or_the_dataset() {
    let one = collect_queries(Some("where?"), None, &fields(&["text"])).unwrap();
    assert_eq!(one.len(), 1);
    assert_eq!(one[0].path, "$.query");
    let many = collect_queries(None, Some(&dataset()), &fields(&["text"])).unwrap();
    assert_eq!(many.len(), 2);
    let requests = plan_search(&many, 4, &None, &graph_test_cli()).unwrap();
    assert_eq!(requests[1].query, "world");
    assert_eq!(requests[1].top_k, 4);
    assert_eq!(requests[1].graph_memory_space_id, None);
}

#[test]
fn resumed_runs_search_the_rest() {
    assert_eq!(pending_indexes(4, &vec![1, 3]), vec![0, 2]);
    let row = |query: &str, completed: bool| QueryOutput {
        query_path: query.to_string(),
        query: query.to_string(),
        query_id: None,
        filter: None,
        metadata: None,
        task: None,
        completed,
        results: Vec::new(),
    };
    let mut outputs = vec![row("a", false), row("b", false), row("c", false)];
    recover_outputs(&mut outputs, &vec![row("b", true), row("a", true)], &vec![1, 2]);
    assert_eq!(outputs[1].query, "b");
    assert_eq!(
        outputs.iter().map(|output| output.completed).collect::<Vec<_>>(),
        vec![false, true, false]
    );
    assert!(parse_filter(None).unwrap().is_none());
    let filter = parse_filter(Some("{\"k\": \"v\"}")).unwrap().unwrap();
    assert_eq!(filter.get_str("k"), Some("v"));
    assert!(parse_filter(Some("[1]")).unwrap_err().starts_with("--filter must be a JSON object"));
    assert!(parse_filter(Some("{k")).unwrap_err().starts_with("invalid --filter JSON: {k: "));
    let read = judge_filter("{", Err("cut short".to_string()));
    assert_eq!(read.unwrap_err(), "invalid --filter JSON: {: cut short");
    assert!(check_filter(&object(vec![])).is_ok());
    assert!(check_filter(&text("x")).unwrap_err().starts_with("--filter must be a JSON object"));
    let mut progress = Progress::new(10);
    assert_eq!(progress_log_interval(10), progress.next_log_at);
    assert!(progress.inc(10, false));
    assert_eq!(progress.done, 10);
    assert!(progress.inc(5, false));
    assert_eq!(progress.done, 10);
}

#[test]
fn merged_metadata_takes_what_is_added() {
    let mut target = object(vec![("a", text("old")), ("b", text("kept"))]);
    merge_metadata(&mut target, &object(vec![("a", text("new"))]));
    assert_eq!(target.get_str("a"), Some("new"));
    assert_eq!(target.get_str("b"), Some("kept"));
}

#[test]
fn queries_with_other_ids_are_searched_again() {
    let row = |id: Option<&str>, query: &str, completed: bool| QueryOutput {
        query_path: "$.queries[0].text".to_string(),
        query: query.to_string(),
        query_id: id.map(str::to_string),
        filter: None,
        metadata: None,
        task: None,
        completed,
        results: Vec::new(),
    };
    let none: Vec<usize> = Vec::new();
    let templates = vec![row(Some("Q1"), "q1", false)];
    assert_eq!(
        resume_completed_indexes(&templates, &vec![row(Some("Q0"), "q0", true)]),
        none
    );
    let existing = vec![row(None, "q1", true), row(Some("Q0"), "q0", true)];
    assert_eq!(resume_completed_indexes(&templates, &existing), vec![0]);
    let mut outputs = vec![row(Some("Q1"), "q1", false)];
    recover_outputs(&mut outputs, &existing, &vec![0]);
    assert_eq!(outputs[0].query, "q1");
    assert!(outputs[0].completed);
    let mut outputs = vec![row(Some("Q1"), "q1", false)];
    let existing = vec![row(Some("Q1"), "q1", true), row(None, "other", true)];
    recover_outputs(&mut outputs, &existing, &vec![0]);
    assert_eq!(outputs[0].query_id, Some("Q1".to_string()));
}
