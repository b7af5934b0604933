//! Ingestion runs: how a memory record is accepted into the graph, and the
//! stages that it passes. A run is changed only by the attempt that holds it.

use vstd::prelude::*;
use vstd::string::*;
use vstd::utf8::*;

use crate::api::{GraphAddMemoryRequest, GraphAddMemoryResponse};
use crate::bench_run::GraphAddView;
use crate::error::{MemoryError, MemoryErrorView};
use crate::graph_context;
use crate::graph_context::{put_member, text_json};
use crate::ids;
use crate::ids::{oid_uuid, random_uuid};
use crate::json;
use crate::json::{Json, JsonView};
use crate::text;
use crate::text::{clone_opt, text_eq, trim};

verus! {

/// What tells two inputs apart.
#[derive(Debug)]
pub struct GraphInputHashFields {
    pub memory_space_id: String,
    pub session_id: Option<String>,
    pub session_sequence: Option<i64>,
    pub text: String,
    pub source_kind: String,
    pub source_ref: Option<String>,
    pub content_role: String,
    pub observed_at_ms: Option<u64>,
    pub metadata: Json,
}

/// What [`GraphInputHashFields`] stand for.
pub struct HashFieldsView {
    pub memory_space_id: Seq<char>,
    pub session_id: Option<Seq<char>>,
    pub session_sequence: Option<i64>,
    pub text: Seq<char>,
    pub source_kind: Seq<char>,
    pub source_ref: Option<Seq<char>>,
    pub content_role: Seq<char>,
    pub observed_at_ms: Option<u64>,
    pub metadata: JsonView,
}

impl View for GraphInputHashFields {
    type V = HashFieldsView;

    open spec fn view(&self) -> HashFieldsView {
        HashFieldsView {
            memory_space_id: self.memory_space_id@,
            session_id: json::opt_string(self.session_id),
            session_sequence: self.session_sequence,
            text: self.text@,
            source_kind: self.source_kind@,
            source_ref: json::opt_string(self.source_ref),
            content_role: self.content_role@,
            observed_at_ms: self.observed_at_ms,
            metadata: self.metadata@,
        }
    }
}

pub open spec fn opt_text_json(t: Option<Seq<char>>) -> JsonView {
    match t {
        Some(t) => JsonView::Text(t),
        None => JsonView::Null,
    }
}

pub open spec fn integer_json(n: Option<i64>) -> JsonView {
    match n {
        Some(n) => if n >= 0 {
            JsonView::Unsigned(n as u64)
        } else {
            JsonView::Negative(n)
        },
        None => JsonView::Null,
    }
}

/// The metadata that counts: what is logged about the run that brought it does
/// not.
pub open spec fn lasting_metadata(metadata: JsonView) -> JsonView {
    json::json_without(json::json_without(metadata, "runtime_log"@), "trace_id"@)
}

/// The document that an input is hashed by.
pub open spec fn hashed_document(f: HashFieldsView) -> JsonView {
    graph_context::object_of(
        seq![
            ("content_role"@, JsonView::Text(f.content_role)),
            ("memory_space_id"@, JsonView::Text(f.memory_space_id)),
            ("metadata"@, lasting_metadata(f.metadata)),
            ("observed_at_ms"@, graph_context::number_or_null(f.observed_at_ms)),
            ("session_id"@, opt_text_json(f.session_id)),
            ("session_sequence"@, integer_json(f.session_sequence)),
            ("source_kind"@, JsonView::Text(f.source_kind)),
            ("source_ref"@, opt_text_json(f.source_ref)),
            ("text"@, JsonView::Text(f.text)),
        ],
    )
}

/// The hash of an input: the UUID of its document's JSON text.
pub open spec fn input_hash(f: HashFieldsView) -> Seq<char> {
    ids::oid_uuid_text(encode_utf8(json::compact_text(hashed_document(f))))
}

fn opt_text_value(t: &Option<String>) -> (r: Json)
    ensures
        r@ == opt_text_json(json::opt_string(*t)),
{
    match t {
        Some(t) => Json::Text(t.clone()),
        None => Json::Null,
    }
}

/// The document that an input is hashed by.
pub fn input_hash_document(f: &GraphInputHashFields) -> (r: Json)
    ensures
        r@ == hashed_document(f@),
{
    let mut metadata = f.metadata.clone();
    metadata.remove("runtime_log");
    metadata.remove("trace_id");
    let mut object = Json::new_object();
    let ghost m0: Seq<(Seq<char>, JsonView)> = Seq::empty();
    put_member(&mut object, Ghost(m0), "content_role", text_json(f.content_role.as_str()));
    let ghost m1 = m0.push(("content_role"@, JsonView::Text(f.content_role@)));
    put_member(
        &mut object,
        Ghost(m1),
        "memory_space_id",
        text_json(f.memory_space_id.as_str()),
    );
    let ghost m2 = m1.push(("memory_space_id"@, JsonView::Text(f.memory_space_id@)));
    put_member(&mut object, Ghost(m2), "metadata", metadata);
    let ghost m3 = m2.push(("metadata"@, lasting_metadata(f.metadata@)));
    let observed = match f.observed_at_ms {
        Some(n) => Json::Unsigned(n),
        None => Json::Null,
    };
    put_member(&mut object, Ghost(m3), "observed_at_ms", observed);
    let ghost m4 = m3.push(
        ("observed_at_ms"@, graph_context::number_or_null(f.observed_at_ms)),
    );
    put_member(&mut object, Ghost(m4), "session_id", opt_text_value(&f.session_id));
    let ghost m5 = m4.push(("session_id"@, opt_text_json(f@.session_id)));
    let sequence = match f.session_sequence {
        Some(n) => if n >= 0 {
            Json::Unsigned(n as u64)
        } else {
            Json::Negative(n)
        },
        None => Json::Null,
    };
    put_member(&mut object, Ghost(m5), "session_sequence", sequence);
    let ghost m6 = m5.push(("session_sequence"@, integer_json(f.session_sequence)));
    put_member(&mut object, Ghost(m6), "source_kind", text_json(f.source_kind.as_str()));
    let ghost m7 = m6.push(("source_kind"@, JsonView::Text(f.source_kind@)));
    put_member(&mut object, Ghost(m7), "source_ref", opt_text_value(&f.source_ref));
    let ghost m8 = m7.push(("source_ref"@, opt_text_json(f@.source_ref)));
    put_member(&mut object, Ghost(m8), "text", text_json(f.text.as_str()));
    proof {
        assert(m8.push(("text"@, JsonView::Text(f.text@))) =~= seq![
            ("content_role"@, JsonView::Text(f.content_role@)),
            ("memory_space_id"@, JsonView::Text(f.memory_space_id@)),
            ("metadata"@, lasting_metadata(f.metadata@)),
            ("observed_at_ms"@, graph_context::number_or_null(f.observed_at_ms)),
            ("session_id"@, opt_text_json(f@.session_id)),
            ("session_sequence"@, integer_json(f.session_sequence)),
            ("source_kind"@, JsonView::Text(f.source_kind@)),
            ("source_ref"@, opt_text_json(f@.source_ref)),
            ("text"@, JsonView::Text(f.text@)),
        ]);
    }
    object
}

/// The hash of an input.
pub fn stable_input_hash(f: &GraphInputHashFields) -> (r: String)
    ensures
        r@ == input_hash(f@),
{
    let document = input_hash_document(f);
    let canonical = document.serialize();
    oid_uuid(canonical.as_str())
}

/// What is logged about a run does not change the hash of its input.
pub proof fn logging_does_not_change_the_hash(f: HashFieldsView, logged: JsonView)
    requires
        lasting_metadata(f.metadata) == lasting_metadata(logged),
    ensures
        input_hash(HashFieldsView { metadata: logged, ..f }) == input_hash(f),
{
}

/// The fields of a request that its input is hashed by.
pub open spec fn hashed_fields(request: GraphAddView) -> HashFieldsView {
    HashFieldsView {
        memory_space_id: request.memory_space_id,
        session_id: request.session_id,
        session_sequence: request.session_sequence,
        text: request.text,
        source_kind: request.source_kind,
        source_ref: request.source_ref,
        content_role: request.content_role,
        observed_at_ms: request.observed_at_ms,
        metadata: request.metadata,
    }
}

/// The fields of a request that its input is hashed by.
pub fn hash_fields(request: &GraphAddMemoryRequest) -> (r: GraphInputHashFields)
    ensures
        r@ == hashed_fields(request@),
{
    GraphInputHashFields {
        memory_space_id: request.memory_space_id.clone(),
        session_id: clone_opt(&request.session_id),
        session_sequence: request.session_sequence,
        text: request.text.clone(),
        source_kind: request.source_kind.clone(),
        source_ref: clone_opt(&request.source_ref),
        content_role: request.content_role.clone(),
        observed_at_ms: request.observed_at_ms,
        metadata: request.metadata.clone(),
    }
}

/// A run that is known under the key of a request.
#[derive(Debug)]
pub struct KnownRun {
    pub memory_record_id: String,
    pub ingestion_run_id: String,
    pub input_hash: String,
    pub status: String,
}

/// What is done with a record that is to be accepted.
#[derive(Debug)]
pub enum AcceptDecision {
    /// It was accepted before.
    Known(GraphAddMemoryResponse),
    /// It is new.
    Insert,
}

/// Whether a record can be accepted at all: its text must not be blank.
pub fn validate_graph_text(text: &str) -> (r: Result<(), MemoryError>)
    ensures
        match r {
            Ok(_) => !text::is_blank(text@),
            Err(e) => text::is_blank(text@) && e@ == MemoryErrorView::InvalidInput(
                "memory text must not be empty"@,
            ),
        },
{
    if trim(text).is_empty() {
        Err(MemoryError::invalid_input("memory text must not be empty"))
    } else {
        Ok(())
    }
}

/// Decides what is done with a record, given the owner that its memory space is
/// stored with and the run that is known under its key. A foreign space is
/// refused, and so is a key that another input was accepted under.
pub fn decide_acceptance(
    owner_id: &str,
    stored_owner_id: &str,
    input_hash: &str,
    known: Option<&KnownRun>,
) -> (r: Result<AcceptDecision, MemoryError>)
    ensures
        match r {
            Err(e) => {
                ||| stored_owner_id@ != owner_id@ && e@ == MemoryErrorView::InvalidInput(
                    "MEMORY_SPACE_OWNER_MISMATCH"@,
                )
                ||| stored_owner_id@ == owner_id@ && known is Some && known->0.input_hash@
                    != input_hash@ && e@ == MemoryErrorView::InvalidInput(
                    "IDEMPOTENCY_CONFLICT"@,
                )
            },
            Ok(AcceptDecision::Insert) => stored_owner_id@ == owner_id@ && known is None,
            Ok(AcceptDecision::Known(response)) => {
                &&& stored_owner_id@ == owner_id@
                &&& known is Some
                &&& known->0.input_hash@ == input_hash@
                &&& response.memory_record_id@ == known->0.memory_record_id@
                &&& response.ingestion_run_id@ == known->0.ingestion_run_id@
                &&& response.status@ == known->0.status@
                &&& !response.vector_ready
                &&& !response.graph_ready
            },
        },
{
    if !text_eq(stored_owner_id, owner_id) {
        return Err(MemoryError::invalid_input("MEMORY_SPACE_OWNER_MISMATCH"));
    }
    match known {
        Some(run) => {
            if !text_eq(run.input_hash.as_str(), input_hash) {
                return Err(MemoryError::invalid_input("IDEMPOTENCY_CONFLICT"));
            }
            Ok(
                AcceptDecision::Known(
                    GraphAddMemoryResponse {
                        memory_record_id: run.memory_record_id.clone(),
                        ingestion_run_id: run.ingestion_run_id.clone(),
                        status: run.status.clone(),
                        vector_ready: false,
                        graph_ready: false,
                    },
                ),
            )
        },
        None => Ok(AcceptDecision::Insert),
    }
}

/// A run of a record through the stages of the graph.
#[derive(Debug)]
pub struct IngestionRun {
    pub id: String,
    pub memory_space_id: String,
    pub memory_record_id: String,
    pub idempotency_key: String,
    pub input_hash: String,
    pub status: String,
    pub stage: String,
    pub attempt_count: i64,
    pub pipeline_version: String,
    pub error_code: Option<String>,
    pub error_message: Option<String>,
    pub created_at_ms: u64,
    pub started_at_ms: Option<u64>,
    pub updated_at_ms: u64,
    pub completed_at_ms: Option<u64>,
}

/// What an [`IngestionRun`] stands for.
pub struct RunView {
    pub id: Seq<char>,
    pub memory_space_id: Seq<char>,
    pub memory_record_id: Seq<char>,
    pub idempotency_key: Seq<char>,
    pub input_hash: Seq<char>,
    pub status: Seq<char>,
    pub stage: Seq<char>,
    pub attempt_count: int,
    pub pipeline_version: Seq<char>,
    pub error_code: Option<Seq<char>>,
    pub error_message: Option<Seq<char>>,
    pub created_at_ms: u64,
    pub started_at_ms: Option<u64>,
    pub updated_at_ms: u64,
    pub completed_at_ms: Option<u64>,
}

impl View for IngestionRun {
    type V = RunView;

    open spec fn view(&self) -> RunView {
        RunView {
            id: self.id@,
            memory_space_id: self.memory_space_id@,
            memory_record_id: self.memory_record_id@,
            idempotency_key: self.idempotency_key@,
            input_hash: self.input_hash@,
            status: self.status@,
            stage: self.stage@,
            attempt_count: self.attempt_count as int,
            pipeline_version: self.pipeline_version@,
            error_code: json::opt_string(self.error_code),
            error_message: json::opt_string(self.error_message),
            created_at_ms: self.created_at_ms,
            started_at_ms: self.started_at_ms,
            updated_at_ms: self.updated_at_ms,
            completed_at_ms: self.completed_at_ms,
        }
    }
}

impl Clone for IngestionRun {
    fn clone(&self) -> (r: Self)
        ensures
            r@ == self@,
    {
        IngestionRun {
            id: self.id.clone(),
            memory_space_id: self.memory_space_id.clone(),
            memory_record_id: self.memory_record_id.clone(),
            idempotency_key: self.idempotency_key.clone(),
            input_hash: self.input_hash.clone(),
            status: self.status.clone(),
            stage: self.stage.clone(),
            attempt_count: self.attempt_count,
            pipeline_version: self.pipeline_version.clone(),
            error_code: clone_opt(&self.error_code),
            error_message: clone_opt(&self.error_message),
            created_at_ms: self.created_at_ms,
            started_at_ms: self.started_at_ms,
            updated_at_ms: self.updated_at_ms,
            completed_at_ms: self.completed_at_ms,
        }
    }
}

/// A run of a record that was just accepted.
pub open spec fn accepted_run(
    request: GraphAddView,
    run_id: Seq<char>,
    record_id: Seq<char>,
    hash: Seq<char>,
    now: u64,
) -> RunView {
    RunView {
        id: run_id,
        memory_space_id: request.memory_space_id,
        memory_record_id: record_id,
        idempotency_key: request.idempotency_key,
        input_hash: hash,
        status: "pending"@,
        stage: "accepted"@,
        attempt_count: 0,
        pipeline_version: "graph-pipeline-v1"@,
        error_code: None,
        error_message: None,
        created_at_ms: now,
        started_at_ms: None,
        updated_at_ms: now,
        completed_at_ms: None,
    }
}

/// The run of a record that is accepted under the given ids.
pub fn new_run(
    request: &GraphAddMemoryRequest,
    run_id: &str,
    record_id: &str,
    input_hash: &str,
    now: u64,
) -> (r: IngestionRun)
    ensures
        r@ == accepted_run(request@, run_id@, record_id@, input_hash@, now),
{
    IngestionRun {
        id: run_id.to_owned(),
        memory_space_id: request.memory_space_id.clone(),
        memory_record_id: record_id.to_owned(),
        idempotency_key: request.idempotency_key.clone(),
        input_hash: input_hash.to_owned(),
        status: "pending".to_owned(),
        stage: "accepted".to_owned(),
        attempt_count: 0,
        pipeline_version: "graph-pipeline-v1".to_owned(),
        error_code: None,
        error_message: None,
        created_at_ms: now,
        started_at_ms: None,
        updated_at_ms: now,
        completed_at_ms: None,
    }
}

/// What comes of a record that is accepted: the answer, and the run to store
/// where the record is new.
#[derive(Debug)]
pub struct Acceptance {
    pub response: GraphAddMemoryResponse,
    pub run: Option<IngestionRun>,
}

/// Accepts a record, given the owner that its memory space is stored with and
/// the run that is known under its key. A new record and its run get random
/// identifiers, of 36 characters each.
pub fn accept_memory_record(
    request: &GraphAddMemoryRequest,
    stored_owner_id: &str,
    known: Option<&KnownRun>,
    now: u64,
) -> (r: Result<Acceptance, MemoryError>)
    ensures
        match r {
            Err(e) => {
                ||| text::is_blank(request.text@) && e@ == MemoryErrorView::InvalidInput(
                    "memory text must not be empty"@,
                )
                ||| !text::is_blank(request.text@) && stored_owner_id@ != request.owner_id@
                    && e@ == MemoryErrorView::InvalidInput("MEMORY_SPACE_OWNER_MISMATCH"@)
                ||| !text::is_blank(request.text@) && stored_owner_id@ == request.owner_id@
                    && known is Some && !(known->0.input_hash@ == input_hash(hashed_fields(request@)))
                    && e@ == MemoryErrorView::InvalidInput("IDEMPOTENCY_CONFLICT"@)
            },
            Ok(a) => {
                &&& !text::is_blank(request.text@)
                &&& stored_owner_id@ == request.owner_id@
                &&& !a.response.vector_ready && !a.response.graph_ready
                &&& match known {
                    Some(k) => {
                        &&& k.input_hash@ == input_hash(hashed_fields(request@))
                        &&& a.run is None
                        &&& a.response.memory_record_id@ == k.memory_record_id@
                        &&& a.response.ingestion_run_id@ == k.ingestion_run_id@
                        &&& a.response.status@ == k.status@
                    },
                    None => {
                        &&& a.response.memory_record_id@.len() == 36
                        &&& a.response.ingestion_run_id@.len() == 36
                        &&& a.run is Some
                        &&& a.run->0@ == accepted_run(
                            request@,
                            a.response.ingestion_run_id@,
                            a.response.memory_record_id@,
                            input_hash(hashed_fields(request@)),
                            now,
                        )
                        &&& a.response.status@ == "pending"@
                    },
                }
            },
        },
{
    match validate_graph_text(request.text.as_str()) {
        Ok(_) => {},
        Err(e) => return Err(e),
    }
    let fields = hash_fields(request);
    let hash = stable_input_hash(&fields);
    match decide_acceptance(request.owner_id.as_str(), stored_owner_id, hash.as_str(), known) {
        Err(e) => Err(e),
        Ok(AcceptDecision::Known(response)) => Ok(Acceptance { response, run: None }),
        Ok(AcceptDecision::Insert) => {
            let memory_record_id = random_uuid();
            let ingestion_run_id = random_uuid();
            let run = new_run(
                request,
                ingestion_run_id.as_str(),
                memory_record_id.as_str(),
                hash.as_str(),
                now,
            );
            Ok(
                Acceptance {
                    response: GraphAddMemoryResponse {
                        memory_record_id,
                        ingestion_run_id,
                        status: "pending".to_owned(),
                        vector_ready: false,
                        graph_ready: false,
                    },
                    run: Some(run),
                },
            )
        },
    }
}

/// Whether an attempt holds a run at a stage.
pub open spec fn holds(run: RunView, space: Seq<char>, attempt: int, stage: Seq<char>) -> bool {
    run.memory_space_id == space && run.attempt_count == attempt && run.status == "running"@
        && run.stage == stage
}

/// What changes the stage of a run.
pub enum RunEvent {
    /// A first attempt claims the run to embed its record.
    ClaimPending,
    /// An attempt has embedded the record.
    StoreEmbedding { space: Seq<char>, record: Seq<char>, attempt: int },
    /// The run is claimed for extraction.
    ClaimExtraction,
    /// An attempt has extracted the graph of the record.
    CompleteExtraction { space: Seq<char>, attempt: int },
    /// An attempt has failed to extract it.
    FailExtraction { space: Seq<char>, attempt: int, code: Seq<char>, message: Seq<char> },
    /// The run is claimed for resolution, with or without an extraction to
    /// resolve.
    ClaimResolution { has_output: bool },
    /// An attempt has published the graph of the record.
    CompleteResolution { space: Seq<char>, attempt: int },
    /// An attempt has failed at a stage.
    Fail { attempt: int, stage: Seq<char>, code: Seq<char>, message: Seq<char> },
}

/// A failed run.
pub open spec fn failed_run(run: RunView, code: Seq<char>, message: Seq<char>, now: u64) -> RunView {
    RunView {
        status: "failed"@,
        error_code: Some(code),
        error_message: Some(message),
        updated_at_ms: now,
        completed_at_ms: Some(now),
        ..run
    }
}

/// The run after an event, or the error where the event does not fit.
pub open spec fn after_event(run: RunView, event: RunEvent, now: u64) -> Result<
    RunView,
    MemoryErrorView,
> {
    match event {
        RunEvent::ClaimPending => if run.status == "pending"@ {
            Ok(
                RunView {
                    status: "running"@,
                    stage: "embedding"@,
                    attempt_count: run.attempt_count + 1,
                    started_at_ms: if run.started_at_ms is Some {
                        run.started_at_ms
                    } else {
                        Some(now)
                    },
                    updated_at_ms: now,
                    ..run
                },
            )
        } else {
            Err(
                MemoryErrorView::InvalidInput("ingestion run is not pending: "@ + run.status),
            )
        },
        RunEvent::StoreEmbedding { space, record, attempt } => if holds(
            run,
            space,
            attempt,
            "embedding"@,
        ) && run.memory_record_id == record {
            Ok(RunView { stage: "extraction"@, updated_at_ms: now, ..run })
        } else {
            Err(
                MemoryErrorView::StoreBackend("ingestion run attempt is no longer current"@),
            )
        },
        RunEvent::ClaimExtraction => if run.status == "running"@ && run.stage == "extraction"@ {
            Ok(RunView { stage: "extracting"@, updated_at_ms: now, ..run })
        } else {
            Err(
                MemoryErrorView::InvalidInput(
                    "ingestion run is not ready for extraction: "@ + run.status + "/"@
                        + run.stage,
                ),
            )
        },
        RunEvent::CompleteExtraction { space, attempt } => if holds(
            run,
            space,
            attempt,
            "extracting"@,
        ) {
            Ok(RunView { stage: "resolution"@, updated_at_ms: now, ..run })
        } else {
            Err(
                MemoryErrorView::StoreBackend(
                    "ingestion run is no longer current for extraction completion"@,
                ),
            )
        },
        RunEvent::FailExtraction { space, attempt, code, message } => if holds(
            run,
            space,
            attempt,
            "extracting"@,
        ) {
            Ok(failed_run(run, code, message, now))
        } else {
            Err(
                MemoryErrorView::StoreBackend(
                    "ingestion run is no longer current for extraction failure"@,
                ),
            )
        },
        RunEvent::ClaimResolution { has_output } => if run.status != "running"@ || run.stage
            != "resolution"@ {
            Err(
                MemoryErrorView::InvalidInput(
                    "ingestion run is not ready for resolution: "@ + run.status + "/"@
                        + run.stage,
                ),
            )
        } else if !has_output {
            Err(
                MemoryErrorView::StoreBackend(
                    "completed extraction run has no structured output"@,
                ),
            )
        } else {
            Ok(RunView { stage: "resolving"@, updated_at_ms: now, ..run })
        },
        RunEvent::CompleteResolution { space, attempt } => if holds(
            run,
            space,
            attempt,
            "resolving"@,
        ) {
            Ok(
                RunView {
                    status: "completed"@,
                    stage: "completed"@,
                    updated_at_ms: now,
                    completed_at_ms: Some(now),
                    ..run
                },
            )
        } else {
            Err(
                MemoryErrorView::StoreBackend(
                    "ingestion run is no longer current for resolution completion"@,
                ),
            )
        },
        RunEvent::Fail { attempt, stage, code, message } => if run.attempt_count == attempt
            && run.status == "running"@ && run.stage == stage {
            Ok(failed_run(run, code, message, now))
        } else {
            Err(MemoryErrorView::StoreBackend("failed to mark ingestion run failed"@))
        },
    }
}

/// Whether a change of a run in place did what an event asks, or left the run
/// alone and reported why.
pub open spec fn applied(
    before: RunView,
    after: RunView,
    r: Result<(), MemoryError>,
    event: RunEvent,
    now: u64,
) -> bool {
    match r {
        Ok(_) => after_event(before, event, now) == Ok::<_, MemoryErrorView>(after),
        Err(e) => after == before && after_event(before, event, now) == Err::<RunView, _>(e@),
    }
}

fn slashed(lead: &str, a: &str, b: &str) -> (r: String)
    ensures
        r@ == lead@ + a@ + "/"@ + b@,
{
    let mut r = lead.to_owned();
    r.append(a);
    r.append("/");
    r.append(b);
    r
}

impl IngestionRun {
    fn is_held(&self, space: &str, attempt: i64, stage: &str) -> (r: bool)
        ensures
            r == holds(self@, space@, attempt as int, stage@),
    {
        text_eq(self.memory_space_id.as_str(), space) && self.attempt_count == attempt
            && text_eq(self.status.as_str(), "running") && text_eq(self.stage.as_str(), stage)
    }

    fn fail(&mut self, code: &str, message: &str, now: u64)
        ensures
            final(self)@ == failed_run(old(self)@, code@, message@, now),
    {
        self.status = "failed".to_owned();
        self.error_code = Some(code.to_owned());
        self.error_message = Some(message.to_owned());
        self.updated_at_ms = now;
        self.completed_at_ms = Some(now);
    }

    /// Claims a pending run for embedding.
    pub fn claim_pending(&mut self, now: u64) -> (r: Result<(), MemoryError>)
        requires
            old(self).attempt_count < i64::MAX,
        ensures
            applied(old(self)@, final(self)@, r, RunEvent::ClaimPending, now),
    {
        if !text_eq(self.status.as_str(), "pending") {
            let mut message = "ingestion run is not pending: ".to_owned();
            message.append(self.status.as_str());
            return Err(MemoryError::InvalidInput { message });
        }
        self.status = "running".to_owned();
        self.stage = "embedding".to_owned();
        self.attempt_count = self.attempt_count + 1;
        if self.started_at_ms.is_none() {
            self.started_at_ms = Some(now);
        }
        self.updated_at_ms = now;
        Ok(())
    }

    /// Notes that an attempt has embedded the record.
    pub fn store_embedding(
        &mut self,
        space: &str,
        record: &str,
        attempt: i64,
        now: u64,
    ) -> (r: Result<(), MemoryError>)
        ensures
            applied(
                old(self)@,
                final(self)@,
                r,
                RunEvent::StoreEmbedding {
                    space: space@,
                    record: record@,
                    attempt: attempt as int,
                },
                now,
            ),
    {
        if !self.is_held(space, attempt, "embedding") || !text_eq(
            self.memory_record_id.as_str(),
            record,
        ) {
            return Err(MemoryError::store_backend("ingestion run attempt is no longer current"));
        }
        self.stage = "extraction".to_owned();
        self.updated_at_ms = now;
        Ok(())
    }

    /// Claims a run for extraction.
    pub fn claim_extraction(&mut self, now: u64) -> (r: Result<(), MemoryError>)
        ensures
            applied(old(self)@, final(self)@, r, RunEvent::ClaimExtraction, now),
    {
        if !text_eq(self.status.as_str(), "running") || !text_eq(
            self.stage.as_str(),
            "extraction",
        ) {
            let message = slashed(
                "ingestion run is not ready for extraction: ",
                self.status.as_str(),
                self.stage.as_str(),
            );
            return Err(MemoryError::InvalidInput { message });
        }
        self.stage = "extracting".to_owned();
        self.updated_at_ms = now;
        Ok(())
    }

    /// Notes that an attempt has extracted the graph of the record.
    pub fn complete_extraction(&mut self, space: &str, attempt: i64, now: u64) -> (r: Result<
        (),
        MemoryError,
    >)
        ensures
            applied(
                old(self)@,
                final(self)@,
                r,
                RunEvent::CompleteExtraction { space: space@, attempt: attempt as int },
                now,
            ),
    {
        if !self.is_held(space, attempt, "extracting") {
            return Err(
                MemoryError::store_backend(
                    "ingestion run is no longer current for extraction completion",
                ),
            );
        }
        self.stage = "resolution".to_owned();
        self.updated_at_ms = now;
        Ok(())
    }

    /// Notes that an attempt has failed to extract the graph of the record.
    pub fn fail_extraction(
        &mut self,
        space: &str,
        attempt: i64,
        code: &str,
        message: &str,
        now: u64,
    ) -> (r: Result<(), MemoryError>)
        ensures
            applied(
                old(self)@,
                final(self)@,
                r,
                RunEvent::FailExtraction {
                    space: space@,
                    attempt: attempt as int,
                    code: code@,
                    message: message@,
                },
                now,
            ),
    {
        if !self.is_held(space, attempt, "extracting") {
            return Err(
                MemoryError::store_backend(
                    "ingestion run is no longer current for extraction failure",
                ),
            );
        }
        self.fail(code, message, now);
        Ok(())
    }

    /// Claims a run for resolution.
    pub fn claim_resolution(&mut self, has_output: bool, now: u64) -> (r: Result<(), MemoryError>)
        ensures
            applied(
                old(self)@,
                final(self)@,
                r,
                RunEvent::ClaimResolution { has_output },
                now,
            ),
    {
        if !text_eq(self.status.as_str(), "running") || !text_eq(
            self.stage.as_str(),
            "resolution",
        ) {
            let message = slashed(
                "ingestion run is not ready for resolution: ",
                self.status.as_str(),
                self.stage.as_str(),
            );
            return Err(MemoryError::InvalidInput { message });
        }
        if !has_output {
            return Err(
                MemoryError::store_backend("completed extraction run has no structured output"),
            );
        }
        self.stage = "resolving".to_owned();
        self.updated_at_ms = now;
        Ok(())
    }

    /// Notes that an attempt has published the graph of the record.
    pub fn complete_resolution(&mut self, space: &str, attempt: i64, now: u64) -> (r: Result<
        (),
        MemoryError,
    >)
        ensures
            applied(
                old(self)@,
                final(self)@,
                r,
                RunEvent::CompleteResolution { space: space@, attempt: attempt as int },
                now,
            ),
    {
        if !self.is_held(space, attempt, "resolving") {
            return Err(
                MemoryError::store_backend(
                    "ingestion run is no longer current for resolution completion",
                ),
            );
        }
        self.status = "completed".to_owned();
        self.stage = "completed".to_owned();
        self.updated_at_ms = now;
        self.completed_at_ms = Some(now);
        Ok(())
    }

    /// Notes that an attempt has failed at a stage.
    pub fn mark_failed(
        &mut self,
        attempt: i64,
        stage: &str,
        code: &str,
        message: &str,
        now: u64,
    ) -> (r: Result<(), MemoryError>)
        ensures
            applied(
                old(self)@,
                final(self)@,
                r,
                RunEvent::Fail {
                    attempt: attempt as int,
                    stage: stage@,
                    code: code@,
                    message: message@,
                },
                now,
            ),
    {
        if self.attempt_count != attempt || !text_eq(self.status.as_str(), "running") || !text_eq(
            self.stage.as_str(),
            stage,
        ) {
            return Err(MemoryError::store_backend("failed to mark ingestion run failed"));
        }
        self.fail(code, message, now);
        Ok(())
    }
}

/// A run that is completed or has failed is never changed again.
pub proof fn finished_runs_are_final(run: RunView, event: RunEvent, now: u64)
    requires
        run.status == "completed"@ || run.status == "failed"@,
    ensures
        after_event(run, event, now) is Err,
{
    reveal_strlit("completed");
    reveal_strlit("failed");
    reveal_strlit("pending");
    reveal_strlit("running");
    assert("completed"@.len() == 9 && "pending"@.len() == 7 && "running"@.len() == 7);
    assert("failed"@.len() == 6);
}

/// What names the attempt that an event comes from.
pub open spec fn event_attempt(event: RunEvent) -> Option<int> {
    match event {
        RunEvent::StoreEmbedding { attempt, .. } => Some(attempt),
        RunEvent::CompleteExtraction { attempt, .. } => Some(attempt),
        RunEvent::FailExtraction { attempt, .. } => Some(attempt),
        RunEvent::CompleteResolution { attempt, .. } => Some(attempt),
        RunEvent::Fail { attempt, .. } => Some(attempt),
        _ => None,
    }
}

/// An attempt that no longer holds a run cannot change it.
pub proof fn stale_attempts_change_nothing(run: RunView, event: RunEvent, now: u64)
    requires
        event_attempt(event) is Some,
        event_attempt(event)->0 != run.attempt_count,
    ensures
        after_event(run, event, now) is Err,
{
}

/// Whatever happens to a run, it stays the run of its record.
pub proof fn runs_keep_their_identity(run: RunView, event: RunEvent, now: u64)
    requires
        after_event(run, event, now) is Ok,
    ensures
        ({
            let next = after_event(run, event, now)->Ok_0;
            &&& next.id == run.id
            &&& next.memory_space_id == run.memory_space_id
            &&& next.memory_record_id == run.memory_record_id
            &&& next.idempotency_key == run.idempotency_key
            &&& next.input_hash == run.input_hash
            &&& next.created_at_ms == run.created_at_ms
            &&& next.attempt_count == run.attempt_count || event is ClaimPending
        }),
{
}

/// A record that was accepted is known when it comes again, whatever is logged
/// about its second run: its run is stored under the hash of the second
/// request.
pub proof fn accepted_records_are_known(
    request: GraphAddView,
    logged: JsonView,
    run_id: Seq<char>,
    record_id: Seq<char>,
    now: u64,
)
    requires
        lasting_metadata(request.metadata) == lasting_metadata(logged),
    ensures
        accepted_run(
            request,
            run_id,
            record_id,
            input_hash(hashed_fields(request)),
            now,
        ).input_hash == input_hash(
            hashed_fields(GraphAddView { metadata: logged, ..request }),
        ),
{
    logging_does_not_change_the_hash(hashed_fields(request), logged);
}

/// A record passes all stages in order from acceptance to completion, whatever
/// the times are.
pub proof fn accepted_runs_can_complete(
    request: GraphAddView,
    run_id: Seq<char>,
    record_id: Seq<char>,
    hash: Seq<char>,
    now: u64,
)
    ensures
        ({
            let space = request.memory_space_id;
            let r0 = accepted_run(request, run_id, record_id, hash, now);
            let r1 = after_event(r0, RunEvent::ClaimPending, now)->Ok_0;
            let r2 = after_event(
                r1,
                RunEvent::StoreEmbedding { space, record: record_id, attempt: 1 },
                now,
            )->Ok_0;
            let r3 = after_event(r2, RunEvent::ClaimExtraction, now)->Ok_0;
            let r4 = after_event(
                r3,
                RunEvent::CompleteExtraction { space, attempt: 1 },
                now,
            )->Ok_0;
            let r5 = after_event(r4, RunEvent::ClaimResolution { has_output: true }, now)->Ok_0;
            let r6 = after_event(
                r5,
                RunEvent::CompleteResolution { space, attempt: 1 },
                now,
            );
            r6 is Ok && r6->Ok_0.status == "completed"@ && r6->Ok_0.error_code is None
        }),
{
}

} // verus!
