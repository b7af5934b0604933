use ram_a::case_chunker::RoughTokenCounter;
use ram_a::case_config::{
    after_ingestion, check_embedding_options, config_value, is_supported_document,
    library_dataset_request, lock_retry_delay_ms, mime_type_for_file, optional_config_value, parse_embedding_provider,
    poll_interval_ms, resolve_api_token, storage_paths, summary_model_enabled, takes_in,
    u64_config_value,
    CaseServiceOptions, EmbeddingProviderKind, EnvironmentValue,
};
use ram_a::case_llm::{
    clean_summary_text, preview_summary_body, read_summary, summary_decode_error,
    summary_request_body, summary_status_error, DocumentSummaryClient,
};
use ram_a::case_model::{
    CaseError, Chunk, CreateDatasetRequest, CreateDocumentFileRequest, SearchChunk, SearchRequest,
    UpdateDocumentFileRequest,
};
use ram_a::case_profile::document_memory_delete_filters;
use ram_a::case_retrieval::{
    expand_retrieved_documents, filter_unrelated_results, group_retrieval_results_by_document,
    plan_dataset_search, ranked_chunk_indices, RetrievedDocument, MIN_RELEVANCE_PLACE,
};
use ram_a::case_service::{
    build_chunks_from_content, build_memory_requests_for_document, chat_completion,
    is_replaced_file, map_service_error, safe_file_name, ErrorAnswer, RagConfig, RagService,
    UploadField, UploadForm,
};
use ram_a::case_store::{judge_sources, read_sources, RagRepository};
use ram_a::api::{score_rank, ScoredMemory};
use ram_a::json::Json;
use ram_a::manager::delete_by_filters;
use ram_a::record::MemoryRecord;

fn test_repo() -> RagRepository {
    RagRepository::new("memory-cases.sqlite")
}

fn sample_chunk(document_id: &str) -> Chunk {
    Chunk {
        id: format!("{document_id}_chunk_0"),
        dataset_id: "dataset-1".to_string(),
        document_id: document_id.to_string(),
        chunk_index: 0,
        content: "old content".to_string(),
        chunk_type: "text".to_string(),
        token_count: 2,
        parse_topology: "list".to_string(),
        source_node_indices: vec![0],
        available: true,
        created_at_ms: 1,
        updated_at_ms: 1,
    }
}

#[test]
fn update_document_with_task_clears_chunks_and_enqueues_new_task() {
    let mut repo = test_repo();
    repo.create_dataset(Some("dataset-1"), "Dataset", None, 1).expect("create dataset");
    let (_document, old_task) = repo
        .create_document_with_task(
            "dataset-1",
            Some("doc-1"),
            Some("task-old"),
            "old.md",
            "/tmp/old.md",
            Some("text/markdown"),
            12,
            2,
        )
        .expect("create document");
    repo.replace_chunks("dataset-1", "doc-1", &vec![sample_chunk("doc-1")])
        .expect("replace chunks");

    let (updated, new_task) = repo
        .update_document_with_task(
            "dataset-1",
            "doc-1",
            Some("task-new"),
            "new.md",
            "/tmp/new.md",
            Some("text/markdown"),
            24,
            3,
        )
        .expect("update document");

    assert_eq!(updated.name, "new.md");
    assert_eq!(updated.file_path, "/tmp/new.md");
    assert_eq!(updated.status, "uploaded");
    assert_eq!(updated.chunk_count, 0);
    assert_eq!(new_task.id, "task-new");
    assert_eq!(new_task.status, "pending");
    assert!(repo.list_chunks("dataset-1", "doc-1").is_empty());
    assert!(repo.get_task(&old_task.id).is_none());
}

#[test]
fn delete_document_removes_document_chunks_and_tasks() {
    let mut repo = test_repo();
    repo.create_dataset(Some("dataset-1"), "Dataset", None, 1).expect("create dataset");
    repo.create_document_with_task(
        "dataset-1",
        Some("doc-1"),
        Some("task-1"),
        "doc.md",
        "/tmp/doc.md",
        Some("text/markdown"),
        12,
        2,
    )
    .expect("create document");
    repo.replace_chunks("dataset-1", "doc-1", &vec![sample_chunk("doc-1")])
        .expect("replace chunks");

    let deleted = repo
        .delete_document("dataset-1", "doc-1")
        .expect("delete document")
        .expect("deleted document");

    assert_eq!(deleted.id, "doc-1");
    assert!(repo.get_stored_document("doc-1").is_none());
    assert!(repo.get_task("task-1").is_none());
    assert!(repo.list_chunks("dataset-1", "doc-1").is_empty());
}

#[test]
fn storage_paths_default_to_split_files() {
    let paths = storage_paths(None, None);

    assert_eq!(paths.rag_store, "data/memory-cases.sqlite");
    assert_eq!(paths.memory_store, "data/memory-cases-index.sqlite");
}

#[test]
fn explicit_split_store_paths_override_defaults() {
    let paths = storage_paths(Some("data/business.sqlite"), Some("data/index.sqlite"));

    assert_eq!(paths.rag_store, "data/business.sqlite");
    assert_eq!(paths.memory_store, "data/index.sqlite");
}

#[test]
fn embedding_provider_accepts_openai_compatible_and_open_router_alias() {
    assert_eq!(
        parse_embedding_provider("openai_compatible"),
        Ok(EmbeddingProviderKind::OpenAiCompatible)
    );
    assert_eq!(
        parse_embedding_provider("open_router"),
        Ok(EmbeddingProviderKind::OpenAiCompatible)
    );
}

#[test]
fn embedding_provider_names_are_exact() {
    assert_eq!(parse_embedding_provider("hash"), Ok(EmbeddingProviderKind::Hash));
    assert_eq!(
        parse_embedding_provider("Hash"),
        Err("unsupported embedding provider `Hash`; expected `hash` or `openai_compatible`"
            .to_string())
    );
}

#[test]
fn api_token_is_loaded_from_the_named_environment_variable() {
    const ENV_NAME: &str = "RAM_A_MEMORY_CASES_CONFIG_TEST_TOKEN";

    let token =
        resolve_api_token(ENV_NAME, EnvironmentValue::Text("internal-secret".to_string())).unwrap();

    assert_eq!(token, "internal-secret");
}

#[test]
fn api_token_configuration_rejects_missing_or_noncanonical_values() {
    const ENV_NAME: &str = "RAM_A_MEMORY_CASES_CONFIG_TEST_MISSING_TOKEN";
    let message = |r: Result<String, CaseError>| r.unwrap_err().message;

    assert_eq!(
        message(resolve_api_token(ENV_NAME, EnvironmentValue::Unset)),
        format!("API token environment variable `{ENV_NAME}` is unavailable")
    );
    assert_eq!(
        message(resolve_api_token(ENV_NAME, EnvironmentValue::NotUnicode)),
        format!("API token environment variable `{ENV_NAME}` is not valid Unicode")
    );
    assert_eq!(
        message(resolve_api_token(" PADDED_ENV ", EnvironmentValue::Text("x".to_string()))),
        "API token environment name must be canonical and non-empty"
    );
    assert_eq!(
        message(resolve_api_token(ENV_NAME, EnvironmentValue::Text(" ".to_string()))),
        format!("API token environment variable `{ENV_NAME}` must be canonical and non-empty")
    );
}

#[test]
fn settings_prefer_the_environment() {
    assert_eq!(
        optional_config_value(Some("cli"), Some(" new "), Some("old")).as_deref(),
        Some("new")
    );
    assert_eq!(
        optional_config_value(Some("cli"), Some("  "), Some("old")).as_deref(),
        Some("old")
    );
    assert_eq!(optional_config_value(Some(" cli "), None, None).as_deref(), Some("cli"));
    assert_eq!(optional_config_value(Some(" "), None, None), None);
    assert_eq!(config_value(" ", None, None), " ");
    assert_eq!(u64_config_value(5, Some(" 7 "), Some("9")), 7);
    assert_eq!(u64_config_value(5, Some("seven"), Some("9")), 9);
    assert_eq!(u64_config_value(5, Some("-1"), None), 5);
}

fn options(provider: EmbeddingProviderKind) -> CaseServiceOptions {
    CaseServiceOptions {
        rag_store: "cases.sqlite".to_string(),
        memory_store: "index.sqlite".to_string(),
        embedding_provider: provider,
        embedding_api_key_env: "KEY".to_string(),
        embedding_base_url: "http://127.0.0.1:1/v1".to_string(),
        embedding_model: "model".to_string(),
        embedding_dimensions: 32,
        chunk_size: 32,
        summary_llm_model: None,
        summary_llm_api_key_env: "KEY".to_string(),
        summary_llm_base_url: "http://127.0.0.1:1/v1".to_string(),
        summary_llm_timeout_ms: 1_000,
    }
}

#[test]
fn embedding_services_need_a_key_an_address_and_a_model() {
    let message = |options: &CaseServiceOptions, key: Option<&str>| {
        check_embedding_options(options, key).map_err(|e| e.message)
    };
    assert_eq!(message(&options(EmbeddingProviderKind::Hash), None), Ok(()));

    let service = options(EmbeddingProviderKind::OpenAiCompatible);
    assert_eq!(message(&service, Some("secret")), Ok(()));
    assert_eq!(
        message(&service, None),
        Err("embedding API key environment variable `KEY` is unavailable".to_string())
    );
    assert_eq!(
        message(&service, Some(" ")),
        Err("embedding API key environment variable `KEY` is empty".to_string())
    );
    let nowhere = CaseServiceOptions { embedding_base_url: " ".to_string(), ..service.clone() };
    assert_eq!(
        message(&nowhere, Some("secret")),
        Err("embedding base URL is empty".to_string())
    );
    let nameless = CaseServiceOptions { embedding_model: String::new(), ..service };
    assert_eq!(message(&nameless, Some("secret")), Err("embedding model is empty".to_string()));
    assert!(summary_model_enabled(Some("m"), Some("k")));
    assert!(!summary_model_enabled(Some("m"), Some(" ")));
    assert!(!summary_model_enabled(None, Some("k")));
}

#[test]
fn documents_are_taken_in_by_their_extension() {
    assert_eq!(mime_type_for_file("a/Guide.MD"), Some("text/markdown"));
    assert_eq!(mime_type_for_file("a/trace.log"), Some("text/plain"));
    assert_eq!(mime_type_for_file("a/manual.pdf"), None);
    assert_eq!(mime_type_for_file("a/.md"), None);
    assert!(is_supported_document("notes.txt"));
    assert!(!is_supported_document("notes"));
    let known = vec!["notes.txt".to_string()];
    assert!(takes_in(true, "dir/new.txt", "new.txt", &known));
    assert!(!takes_in(true, "dir/notes.txt", "notes.txt", &known));
    assert!(!takes_in(true, "dir/new.pdf", "new.pdf", &known));
    assert!(!takes_in(false, "dir/new.txt", "new.txt", &known));
    let request = library_dataset_request("cases");
    assert_eq!(request.id.as_deref(), Some("cases"));
    assert_eq!(request.name, "cases");
    assert_eq!(request.description.as_deref(), Some("RAM-A configured case library"));
}

#[test]
fn locked_databases_are_asked_again_with_growing_delays() {
    assert_eq!(lock_retry_delay_ms(0, true), Some(50));
    assert_eq!(lock_retry_delay_ms(1, true), Some(100));
    assert_eq!(lock_retry_delay_ms(2, true), Some(200));
    assert_eq!(lock_retry_delay_ms(3, true), None);
    assert_eq!(lock_retry_delay_ms(0, false), None);
    assert_eq!(poll_interval_ms(5), 100);
    assert_eq!(poll_interval_ms(1000), 1000);
    assert_eq!(after_ingestion(Some(true), 5), None);
    assert_eq!(after_ingestion(Some(false), 5), Some(100));
    assert_eq!(after_ingestion(None, 250), Some(250));
}

#[test]
fn chat_completions_url_accepts_base_or_full_endpoint() {
    let client = DocumentSummaryClient::new("key", "https://example.test/v1", "model", 1_000);
    assert_eq!(
        client.chat_completions_url(),
        "https://example.test/v1/chat/completions"
    );

    let client = DocumentSummaryClient::new(
        "key",
        "https://example.test/v1/chat/completions",
        "model",
        1_000,
    );
    assert_eq!(
        client.chat_completions_url(),
        "https://example.test/v1/chat/completions"
    );
}

#[test]
fn summary_request_body_preserves_retrieval_signals() {
    let body = summary_request_body(
        "summary-model",
        "D17-网关日志-错误码.log",
        "tls handshake timeout while connecting to upstream payment-api",
    );

    assert_eq!(body.model, "summary-model");
    assert!(body.messages[0].content.contains("错误码"));
    assert!(body.messages[0].content.contains("日志短语"));
    assert!(body.messages[1].content.contains("payment-api"));
    assert_eq!(body.max_tokens, 512);
}

#[test]
fn clean_summary_text_removes_blank_lines() {
    assert_eq!(clean_summary_text("  第一行  \n\n 第二行\n"), "第一行\n第二行");
}

#[test]
fn summaries_are_read_from_the_first_choice() {
    assert_eq!(
        read_summary(&vec![" a \n\n b".to_string(), "c".to_string()]).unwrap(),
        "a\nb"
    );
    assert_eq!(
        read_summary(&vec![" \n ".to_string()]).unwrap_err().message,
        "document summary LLM returned empty content"
    );
    assert!(read_summary(&vec![]).is_err());
    let long = "y".repeat(301);
    assert_eq!(preview_summary_body(&long), format!("{}...", "y".repeat(300)));
    assert_eq!(preview_summary_body("short"), "short");
    assert_eq!(
        summary_status_error("500 Internal Server Error", "oops").message,
        "document summary LLM returned HTTP 500 Internal Server Error: oops"
    );
    assert_eq!(
        summary_decode_error("oops").message,
        "failed to decode document summary LLM response: oops"
    );
}

fn test_service() -> RagService {
    let mut service = RagService::new(
        test_repo(),
        RagConfig { file_root: "files".to_string(), chunk_size: 512, summary_llm: None },
    );
    service
        .create_dataset(
            &CreateDatasetRequest {
                id: Some("dataset-1".to_string()),
                name: " Dataset ".to_string(),
                description: None,
            },
            1,
        )
        .expect("create dataset");
    service
}

fn upload(id: &str, task_id: &str, name: &str, content: &str) -> CreateDocumentFileRequest {
    CreateDocumentFileRequest {
        id: Some(id.to_string()),
        task_id: Some(task_id.to_string()),
        name: name.to_string(),
        file_name: name.to_string(),
        mime_type: Some("text/plain".to_string()),
        bytes: content.as_bytes().to_vec(),
    }
}

fn ingest(service: &mut RagService, request: &CreateDocumentFileRequest, now: u64) -> Vec<Chunk> {
    let plan = service.plan_document("dataset-1", request).expect("plan");
    service.create_document("dataset-1", &plan, now).expect("create document");
    let task = service.repo.lease_next_pending_task(now + 1).expect("task");
    let document = service.document_to_ingest(&task).expect("document");
    let content = String::from_utf8(request.bytes.clone()).unwrap();
    let chunks =
        build_chunks_from_content(&document, &content, 512, RoughTokenCounter, now + 2).unwrap();
    service.repo.replace_chunks("dataset-1", &document.id, &chunks).expect("chunks");
    assert_eq!(service.finish_ingestion(&task, Ok(chunks.len()), now + 3).unwrap(), true);
    chunks
}

#[test]
fn uploaded_documents_are_processed_once() {
    let mut service = test_service();
    let request = upload(" doc-1 ", "task-1", "guide.txt", "First line. Second line.");
    let plan = service.plan_document("dataset-1", &request).expect("plan");
    assert_eq!(plan.document_id, "doc-1");
    assert_eq!(plan.file_path, "files/dataset-1/doc-1/guide.txt");
    assert_eq!(plan.size_bytes, 24);

    let chunks = ingest(&mut service, &request, 10);
    assert_eq!(chunks.len(), 1);
    assert_eq!(chunks[0].id, "doc-1_chunk_0");
    assert_eq!(chunks[0].content, "First line.Second line.");
    assert!(service.repo.lease_next_pending_task(20).is_none());

    let documents = service.list_documents("dataset-1").expect("documents").documents;
    assert_eq!(documents.len(), 1);
    assert_eq!(documents[0].status, "completed");
    assert_eq!(documents[0].chunk_count, 1);
    assert_eq!(service.get_task("task-1").unwrap().status, "completed");
    let listed = service.list_chunks("dataset-1", "doc-1").expect("chunks");
    assert_eq!(listed.total, 1);
    assert_eq!(service.list_datasets().datasets[0].name, "Dataset");
}

#[test]
fn updated_documents_start_over() {
    let mut service = test_service();
    ingest(&mut service, &upload("doc-1", "task-1", "old.txt", "oldneedle"), 10);

    let request = UpdateDocumentFileRequest {
        task_id: Some("task-update".to_string()),
        name: Some("new.txt".to_string()),
        file_name: Some("new.txt".to_string()),
        mime_type: None,
        bytes: Some(b"newneedle".to_vec()),
    };
    let plan = service.plan_update("dataset-1", "doc-1", &request, 0).expect("plan");
    assert_eq!(plan.mime_type.as_deref(), Some("text/plain"));
    assert!(is_replaced_file("files/dataset-1/doc-1/old.txt", &plan.file_path));
    let response = service.update_document("dataset-1", &plan, 20).expect("update document");
    assert_eq!(response.document_id, "doc-1");
    assert_eq!(response.task_id, "task-update");

    let documents = service.list_documents("dataset-1").expect("documents").documents;
    assert_eq!(documents[0].name, "new.txt");
    assert_eq!(documents[0].status, "uploaded");
    assert_eq!(documents[0].chunk_count, 0);
    assert_eq!(documents[0].created_at_ms, 10);
    assert!(service.list_chunks("dataset-1", "doc-1").expect("chunks").chunks.is_empty());
    assert_eq!(service.repo.lease_next_pending_task(30).unwrap().id, "task-update");
}

#[test]
fn renamed_documents_keep_their_file() {
    let mut service = test_service();
    ingest(&mut service, &upload("doc-1", "task-1", "old.txt", "text"), 10);
    let request = UpdateDocumentFileRequest {
        task_id: Some("task-2".to_string()),
        name: Some(" renamed ".to_string()),
        file_name: None,
        mime_type: Some("text/markdown".to_string()),
        bytes: None,
    };
    let plan = service.plan_update("dataset-1", "doc-1", &request, 4).expect("plan");
    assert_eq!(plan.name, "renamed");
    assert_eq!(plan.file_path, "files/dataset-1/doc-1/old.txt");
    assert_eq!(plan.mime_type.as_deref(), Some("text/plain"));
    assert_eq!(plan.size_bytes, 4);
    assert!(!is_replaced_file("files/dataset-1/doc-1/old.txt", &plan.file_path));
}

#[test]
fn uploads_are_refused_with_their_reason() {
    let service = test_service();
    let refusal = |dataset: &str, request: &CreateDocumentFileRequest| {
        let error = service.plan_document(dataset, request).unwrap_err();
        (map_service_error(&error), error.message)
    };
    let request = || upload("doc", "task", "a.txt", "x");
    assert_eq!(
        refusal("nowhere", &request()),
        (ErrorAnswer::NotFound, "dataset not found".to_string())
    );
    assert_eq!(
        refusal("dataset-1", &CreateDocumentFileRequest { id: Some(" ".into()), ..request() }),
        (ErrorAnswer::BadRequest, "document id must not be empty".to_string())
    );
    assert_eq!(
        refusal("dataset-1", &CreateDocumentFileRequest { task_id: Some("".into()), ..request() }),
        (ErrorAnswer::BadRequest, "task id must not be empty".to_string())
    );
    assert_eq!(
        refusal("dataset-1", &CreateDocumentFileRequest { bytes: vec![], ..request() }),
        (ErrorAnswer::BadRequest, "document file must not be empty".to_string())
    );
    assert_eq!(
        refusal("dataset-1", &CreateDocumentFileRequest { file_name: "..".into(), ..request() }),
        (ErrorAnswer::BadRequest, "file name must not be empty".to_string())
    );
    assert_eq!(
        map_service_error(&CaseError { message: "disk on fire".to_string() }),
        ErrorAnswer::Internal
    );
}

#[test]
fn changes_are_refused_with_their_reason() {
    let mut service = test_service();
    ingest(&mut service, &upload("doc-1", "task-1", "old.txt", "text"), 10);
    let request = || UpdateDocumentFileRequest {
        task_id: None,
        name: None,
        file_name: None,
        mime_type: None,
        bytes: None,
    };
    let refusal = |dataset: &str, document: &str, request: &UpdateDocumentFileRequest| {
        service.plan_update(dataset, document, request, 0).unwrap_err().message
    };
    assert_eq!(refusal("nowhere", "doc-1", &request()), "dataset not found");
    assert_eq!(refusal("dataset-1", "doc-2", &request()), "document not found: doc-2");
    assert_eq!(
        refusal("dataset-1", "doc-1", &request()),
        "document update requires name or file"
    );
    assert_eq!(
        refusal(
            "dataset-1",
            "doc-1",
            &UpdateDocumentFileRequest { task_id: Some(" ".into()), ..request() }
        ),
        "task id must not be empty"
    );
    assert_eq!(
        refusal(
            "dataset-1",
            "doc-1",
            &UpdateDocumentFileRequest { bytes: Some(vec![]), ..request() }
        ),
        "document file must not be empty"
    );
    assert_eq!(
        refusal(
            "dataset-1",
            "doc-1",
            &UpdateDocumentFileRequest { bytes: Some(vec![1]), ..request() }
        ),
        "file name is required when updating document file"
    );
    let named = UpdateDocumentFileRequest {
        bytes: Some(vec![1]),
        file_name: Some("/".into()),
        ..request()
    };
    assert_eq!(refusal("dataset-1", "doc-1", &named), "file name must not be empty");
    assert_eq!(
        service.delete_document("dataset-1", "doc-2").unwrap_err().message,
        "document not found: doc-2"
    );
    assert_eq!(
        service.delete_document("nowhere", "doc-1").unwrap_err().message,
        "dataset not found"
    );
    assert!(service.delete_document("dataset-1", "doc-1").unwrap().deleted);
    assert!(service.existing_document("dataset-1", "doc-1").is_err());
}

#[test]
fn taken_identifiers_are_refused() {
    let mut service = test_service();
    ingest(&mut service, &upload("doc-1", "task-1", "a.txt", "text"), 10);
    let plan = service
        .plan_document("dataset-1", &upload("doc-1", "task-2", "a.txt", "text"))
        .expect("plan");
    assert_eq!(
        service.create_document("dataset-1", &plan, 20).unwrap_err().message,
        "UNIQUE constraint failed: rag_documents.id"
    );
    let plan = service
        .plan_document("dataset-1", &upload("doc-2", "task-1", "a.txt", "text"))
        .expect("plan");
    assert_eq!(
        service.create_document("dataset-1", &plan, 20).unwrap_err().message,
        "UNIQUE constraint failed: rag_tasks.id"
    );
    let again = CreateDatasetRequest {
        id: Some("dataset-1".to_string()),
        name: "again".to_string(),
        description: None,
    };
    assert_eq!(
        service.create_dataset(&again, 20).unwrap_err().message,
        "UNIQUE constraint failed: rag_datasets.id"
    );
    let nameless = CreateDatasetRequest { id: None, name: " ".to_string(), description: None };
    assert_eq!(
        service.create_dataset(&nameless, 20).unwrap_err().message,
        "dataset name must not be empty"
    );
}

#[test]
fn generated_identifiers_are_uuids() {
    let mut service = test_service();
    let request = CreateDocumentFileRequest {
        id: None,
        task_id: None,
        ..upload("", "", "a.txt", "text")
    };
    let first = service.plan_document("dataset-1", &request).expect("plan");
    let second = service.plan_document("dataset-1", &request).expect("plan");
    assert_eq!(first.document_id.len(), 36);
    assert_eq!(first.task_id.len(), 36);
    assert_ne!(first.document_id, second.document_id);
    service.create_document("dataset-1", &first, 1).expect("create document");
    assert!(service.existing_document("dataset-1", &first.document_id).is_ok());
}

#[test]
fn failed_tasks_keep_their_error() {
    let mut service = test_service();
    let plan = service
        .plan_document("dataset-1", &upload("doc-1", "task-1", "a.pdf", "text"))
        .expect("plan");
    service.create_document("dataset-1", &plan, 1).expect("create document");
    let task = service.repo.lease_next_pending_task(2).expect("task");
    assert_eq!(task.status, "running");
    let mut document = service.document_to_ingest(&task).expect("document");
    document.mime_type = None;
    let error =
        build_chunks_from_content(&document, "text", 512, RoughTokenCounter, 3).unwrap_err();
    assert_eq!(
        error.message,
        "failed to chunk document file files/dataset-1/doc-1/a.pdf"
    );
    assert!(service.finish_ingestion(&task, Err(error), 4).is_err());
    assert_eq!(service.get_task("task-1").unwrap().status, "failed");
    let documents = service.list_documents("dataset-1").expect("documents").documents;
    assert_eq!(documents[0].status, "failed");
    assert_eq!(
        documents[0].error.as_deref(),
        Some("failed to chunk document file files/dataset-1/doc-1/a.pdf")
    );
}

#[test]
fn lost_documents_cannot_be_processed() {
    let mut service = test_service();
    ingest(&mut service, &upload("doc-1", "task-1", "a.txt", "text"), 1);
    let mut task = service.get_task("task-1").unwrap();
    task.document_id = "gone".to_string();
    assert_eq!(
        service.document_to_ingest(&task).unwrap_err().message,
        "document gone not found"
    );
}

#[test]
fn indexed_documents_are_found_by_their_delete_filters() {
    let mut service = test_service();
    let chunks = ingest(&mut service, &upload("doc-1", "task-1", "a.txt", "needle text"), 1);
    let document = service.existing_document("dataset-1", "doc-1").unwrap();
    let requests = build_memory_requests_for_document(&document, &chunks, None);
    assert_eq!(requests.len(), 2);
    assert_eq!(requests[0].id.as_deref(), Some("doc-1_chunk_0"));
    assert_eq!(requests[1].id.as_deref(), Some("doc-1_document_summary"));
    assert_eq!(requests[1].metadata.get_str("document_summary_source"), Some("offline"));
    let written = build_memory_requests_for_document(&document, &chunks, Some("needle summary"));
    assert_eq!(written[1].metadata.get_str("document_summary_source"), Some("llm"));
    assert!(build_memory_requests_for_document(&document, &vec![], None).is_empty());

    let records = requests
        .into_iter()
        .map(|request| MemoryRecord {
            id: request.id.unwrap(),
            text: request.text,
            metadata: request.metadata,
            embedding: vec![],
            created_at_ms: 1,
            updated_at_ms: 1,
        })
        .collect::<Vec<_>>();
    let (kept, removed) =
        delete_by_filters(&records, &document_memory_delete_filters("dataset-1", "doc-1"));
    assert_eq!(removed, 2);
    assert!(kept.is_empty());
    let (kept, removed) =
        delete_by_filters(&records, &document_memory_delete_filters("dataset-1", "doc-2"));
    assert_eq!(removed, 0);
    assert_eq!(kept.len(), 2);
}

#[test]
fn tables_refuse_what_would_dangle() {
    let mut repo = test_repo();
    repo.create_dataset(Some("dataset-1"), "Dataset", None, 1).unwrap();
    assert_eq!(
        repo.replace_chunks("dataset-1", "doc-1", &vec![sample_chunk("doc-1")])
            .unwrap_err()
            .message,
        "FOREIGN KEY constraint failed"
    );
    assert_eq!(
        repo.update_document_with_task("dataset-1", "doc-1", None, "n", "p", None, 1, 1)
            .unwrap_err()
            .message,
        "document not found"
    );
    assert!(repo.delete_document("dataset-1", "doc-1").unwrap().is_none());
    assert!(repo.get_dataset("dataset-1").is_some());
    assert!(repo.get_dataset("dataset-2").is_none());
}

#[test]
fn oldest_pending_tasks_are_leased_first() {
    let mut repo = test_repo();
    repo.create_dataset(Some("d"), "D", None, 1).unwrap();
    repo.create_document_with_task("d", Some("b"), Some("t2"), "b", "b", None, 1, 20).unwrap();
    repo.create_document_with_task("d", Some("a"), Some("t1"), "a", "a", None, 1, 10).unwrap();
    assert_eq!(repo.lease_next_pending_task(30).unwrap().id, "t1");
    assert_eq!(repo.lease_next_pending_task(30).unwrap().id, "t2");
    assert!(repo.lease_next_pending_task(30).is_none());
}

#[test]
fn forms_take_the_last_of_each_field() {
    let mut form = UploadForm::new();
    form.note(UploadField::Name("first".to_string()));
    form.note(UploadField::Id("doc".to_string()));
    form.note(UploadField::Other);
    form.note(UploadField::Name("second".to_string()));
    form.note(UploadField::TaskId("task".to_string()));
    form.note(UploadField::File {
        file_name: Some("a.txt".to_string()),
        mime_type: None,
        bytes: vec![1],
    });
    let request = form.into_upload().unwrap();
    assert_eq!(request.name, "second");
    assert_eq!(request.id.as_deref(), Some("doc"));
    assert_eq!(request.task_id.as_deref(), Some("task"));

    assert_eq!(UploadForm::new().into_upload().unwrap_err().message, "file is required");
    let mut form = UploadForm::new();
    form.note(UploadField::File {
        file_name: Some("a.txt".to_string()),
        mime_type: None,
        bytes: vec![1],
    });
    assert_eq!(form.into_upload().unwrap().name, "a.txt");
    assert!(UploadForm::new().into_change().bytes.is_none());
}

#[test]
fn file_names_are_taken_from_the_end_of_paths() {
    assert_eq!(safe_file_name("../../etc/ passwd ").unwrap(), "passwd");
    assert_eq!(safe_file_name("a/b/").unwrap(), "b");
    assert!(safe_file_name("/").is_err());
    assert!(safe_file_name("a/ ").is_err());
}

fn found(id: &str, document: &str, kind: &str, score: f32) -> ScoredMemory {
    let mut metadata = Json::new_object();
    metadata.put("document_id", Json::Text(document.to_string()));
    metadata.put("chunk_id", Json::Text(id.to_string()));
    metadata.put("record_kind", Json::Text(kind.to_string()));
    ScoredMemory {
        record: MemoryRecord {
            id: id.to_string(),
            text: "openeuler kernel oops".to_string(),
            metadata,
            embedding: vec![],
            created_at_ms: 1,
            updated_at_ms: 1,
        },
        score: score_rank(score.to_bits()),
    }
}

#[test]
fn results_are_grouped_by_document() {
    let hits = group_retrieval_results_by_document(&vec![
        found("a0", "a", "chunk", 0.5),
        found("b0", "b", "chunk", 0.7),
        found("a0", "a", "chunk", 0.6),
        found("as", "a", "document_summary", 0.9),
    ]);
    assert_eq!(hits.len(), 2);
    assert_eq!(hits[0].document_id, "a");
    assert_eq!(hits[0].best_score, score_rank(0.9f32.to_bits()));
    assert_eq!(hits[0].first_seen_rank, 0);
    assert_eq!(
        hits[0].chunk_scores,
        vec![("a0".to_string(), score_rank(0.6f32.to_bits()))]
    );
    assert_eq!(hits[1].document_id, "b");
}

#[test]
fn unrelated_results_are_dropped() {
    let results = || vec![found("a0", "a", "chunk", 0.9)];
    assert_eq!(filter_unrelated_results("", results(), &vec![false]).len(), 1);
    assert_eq!(
        filter_unrelated_results("openeuler kernel oops", results(), &vec![false]).len(),
        1
    );
    assert_eq!(filter_unrelated_results("古典吉他琴弦", results(), &vec![true]).len(), 0);
}

#[test]
fn searches_of_a_dataset_are_checked() {
    let request = |query: &str, top_k: usize| SearchRequest { query: query.to_string(), top_k };
    assert_eq!(
        plan_dataset_search(false, "d", &request("q", 5)).unwrap_err().message,
        "dataset not found"
    );
    assert_eq!(
        plan_dataset_search(true, "d", &request(" ", 5)).unwrap_err().message,
        "query must not be empty"
    );
    assert!(plan_dataset_search(true, "d", &request("q", 0)).unwrap().is_none());
    let query = plan_dataset_search(true, "d", &request("needle", 5)).unwrap().unwrap();
    assert_eq!(query.top_k, 1024);
    assert_eq!(query.filter.unwrap().get_str("scope_id"), Some("d"));
}

fn retrieved(document: &str, contents: &[&str], score: i32) -> RetrievedDocument {
    let chunks = contents
        .iter()
        .enumerate()
        .map(|(index, content)| Chunk {
            id: format!("{document}_chunk_{index}"),
            document_id: document.to_string(),
            chunk_index: index,
            content: content.to_string(),
            ..sample_chunk(document)
        })
        .collect::<Vec<_>>();
    let ranked = (0..chunks.len()).collect::<Vec<_>>();
    let scores = vec![score; chunks.len()];
    RetrievedDocument {
        document: ram_a::case_model::StoredDocument {
            id: document.to_string(),
            dataset_id: "dataset-1".to_string(),
            name: format!("{document}.txt"),
            file_path: format!("/tmp/{document}.txt"),
            mime_type: None,
        },
        chunks,
        ranked,
        scores,
    }
}

#[test]
fn every_document_is_represented_before_any_gets_more() {
    let documents = vec![
        retrieved("a", &["a0", "a1"], MIN_RELEVANCE_PLACE),
        retrieved("b", &["b0"], MIN_RELEVANCE_PLACE + 5),
    ];
    let ids = |top_k: usize| {
        expand_retrieved_documents(&documents, top_k)
            .into_iter()
            .map(|chunk| chunk.chunk_id)
            .collect::<Vec<_>>()
    };
    assert_eq!(ids(3), vec!["a_chunk_0", "b_chunk_0", "a_chunk_1"]);
    assert_eq!(ids(1), vec!["a_chunk_0"]);
    let windows = expand_retrieved_documents(&documents, 2);
    assert_eq!(windows[0].content, "a0\n\na1");
    assert_eq!(windows[0].context_chunk_ids, vec!["a_chunk_0", "a_chunk_1"]);
    assert_eq!(windows[1].chunk_id, "b_chunk_0");
    assert_eq!(windows.len(), 2);
    let weak = vec![retrieved("a", &["a0"], MIN_RELEVANCE_PLACE - 1)];
    assert!(expand_retrieved_documents(&weak, 3).is_empty());
    assert_eq!(ranked_chunk_indices(&vec![1, 3, 3, 2]), vec![1, 2, 3, 0]);
}

#[test]
fn answers_show_what_was_found() {
    let chunk = |name: Option<&str>, path: Option<&str>, content: &str| SearchChunk {
        chunk_id: "c".to_string(),
        context_chunk_ids: vec![],
        dataset_id: "d".to_string(),
        document_id: "doc".to_string(),
        source_name: name.map(str::to_string),
        source_path: path.map(str::to_string),
        content: content.to_string(),
        score: 0,
    };
    assert_eq!(chat_completion(vec![]).answer, "No relevant content was found.");
    let long = "z".repeat(181);
    let response = chat_completion(vec![
        chunk(Some("name"), Some("path"), "first"),
        chunk(None, Some("path"), "second"),
        chunk(None, None, &long),
    ]);
    assert_eq!(
        response.answer,
        format!(
            "Found 3 relevant chunks. Main retrieved content for answer augmentation:\nSource: name\nfirst\n\nSource: path\nsecond\n\nSource: doc\n{}...",
            "z".repeat(180)
        )
    );
    assert_eq!(response.references.len(), 3);
}

#[test]
fn identifiers_are_drawn_where_none_is_given() {
    let mut repo = test_repo();
    let dataset = repo.create_dataset(None, " Dataset ", None, 1).unwrap();
    assert_eq!(dataset.id.len(), 36);
    assert_eq!(dataset.name, "Dataset");
    let (document, task) = repo
        .create_document_with_task(&dataset.id, None, None, "a.txt", "/a.txt", None, 3, 2)
        .unwrap();
    assert_eq!(document.id.len(), 36);
    assert_eq!(task.id.len(), 36);
    let (updated, renewed) = repo
        .update_document_with_task(&dataset.id, &document.id, None, "b.txt", "/b.txt", None, 4, 9)
        .unwrap();
    assert_eq!(updated.created_at_ms, 2);
    assert_eq!(updated.updated_at_ms, 9);
    assert_ne!(renewed.id, task.id);
    assert_eq!(
        repo.create_dataset(Some(&dataset.id), "Again", None, 3).unwrap_err().message,
        "UNIQUE constraint failed: rag_datasets.id"
    );
}

#[test]
fn sources_of_chunks_are_read_or_empty() {
    let none: Vec<usize> = Vec::new();
    assert_eq!(read_sources("[0, 2,5]"), vec![0, 2, 5]);
    assert_eq!(read_sources("[]"), none);
    for bad in ["", "{}", "[1, -2]", "[1.0]", "[1, \"2\"]", "[1"] {
        assert_eq!(read_sources(bad), none);
    }
    assert_eq!(judge_sources(Ok(Json::Array(vec![Json::Unsigned(3)]))), vec![3]);
    assert_eq!(judge_sources(Err("cut short".to_string())), none);
}
