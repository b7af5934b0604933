//! The stages that turn an accepted record into facts of the graph: what is
//! handed to the extractor, what is stored of its outcome, and how an
//! extraction is published. The database and the extractor are outside; a stage
//! is given what came of one step and says what the next one is.

use vstd::prelude::*;
use vstd::string::*;

use crate::error;
use crate::error::{MemoryError, MemoryErrorView};
use crate::graph_extraction;
use crate::graph_extraction::{ExtractionView, GraphExtractionInput, GraphExtractionOutput};
use crate::graph_registry::{GraphTypeRegistry, RegistryView};
use crate::graph_runs::IngestionRun;
use crate::json;
use crate::json::Json;
use crate::text;
use crate::text::clone_strings;

verus! {

pub const GRAPH_RESOLVER_VERSION: &'static str = "graph-resolution-v1";

pub const EMBEDDING_FAILED_ERROR_CODE: &'static str = "EMBEDDING_FAILED";

pub const EXTRACTION_FAILED_ERROR_CODE: &'static str = "EXTRACTION_FAILED";

pub const INVALID_EXTRACTION_OUTPUT_ERROR_CODE: &'static str = "INVALID_EXTRACTION_OUTPUT";

pub const EXTRACTION_STORE_FAILED_ERROR_CODE: &'static str = "EXTRACTION_STORE_FAILED";

pub const RESOLUTION_FAILED_ERROR_CODE: &'static str = "RESOLUTION_FAILED";

pub const RESOLUTION_STORE_FAILED_ERROR_CODE: &'static str = "RESOLUTION_STORE_FAILED";

/// A run that an attempt has claimed to embed its record.
#[derive(Debug)]
pub struct ClaimedIngestionRun {
    pub ingestion_run_id: String,
    pub memory_space_id: String,
    pub memory_record_id: String,
    pub text: String,
    pub attempt_count: i64,
}

/// What an attempt holds of a run that it has claimed to embed its record.
pub fn claimed_ingestion_run(run: &IngestionRun, text: &str) -> (r: ClaimedIngestionRun)
    ensures
        r.ingestion_run_id@ == run.id@,
        r.memory_space_id@ == run.memory_space_id@,
        r.memory_record_id@ == run.memory_record_id@,
        r.text@ == text@,
        r.attempt_count == run.attempt_count,
{
    ClaimedIngestionRun {
        ingestion_run_id: run.id.clone(),
        memory_space_id: run.memory_space_id.clone(),
        memory_record_id: run.memory_record_id.clone(),
        text: text.to_owned(),
        attempt_count: run.attempt_count,
    }
}

/// A failure that is marked on the run of an attempt.
#[derive(Debug)]
pub struct StageFailure {
    pub ingestion_run_id: String,
    pub attempt_count: i64,
    pub stage: String,
    pub error_code: String,
    pub error_message: String,
}

/// The failure that is marked where the record of a claimed run could not be
/// embedded, or its embedding could not be stored.
pub fn after_failed_embedding(run_id: &str, attempt_count: i64, error: &MemoryError) -> (r:
    StageFailure)
    ensures
        r.ingestion_run_id@ == run_id@,
        r.attempt_count == attempt_count,
        r.stage@ == "embedding"@,
        r.error_code@ == EMBEDDING_FAILED_ERROR_CODE@,
        r.error_message@ == error::error_sentence(error@),
{
    StageFailure {
        ingestion_run_id: run_id.to_owned(),
        attempt_count,
        stage: "embedding".to_owned(),
        error_code: EMBEDDING_FAILED_ERROR_CODE.to_owned(),
        error_message: error.to_text(),
    }
}

/// A run that is claimed for extraction.
#[derive(Debug)]
pub struct ClaimedExtractionRun {
    pub ingestion_run_id: String,
    pub memory_space_id: String,
    pub memory_record_id: String,
    pub text: String,
    pub metadata: Json,
    pub attempt_count: i64,
    pub extraction_attempt_number: i64,
    pub context_record_ids: Vec<String>,
}

/// What is held of a run that is claimed for extraction. The record itself is
/// all the context that its extraction has.
pub fn claimed_extraction_run(
    run: &IngestionRun,
    text: &str,
    metadata: &Json,
    extraction_attempt_number: i64,
) -> (r: ClaimedExtractionRun)
    ensures
        r.ingestion_run_id@ == run.id@,
        r.memory_space_id@ == run.memory_space_id@,
        r.memory_record_id@ == run.memory_record_id@,
        r.text@ == text@,
        r.metadata@ == metadata@,
        r.attempt_count == run.attempt_count,
        r.extraction_attempt_number == extraction_attempt_number,
        text::strings(r.context_record_ids@) == seq![run.memory_record_id@],
{
    let mut context_record_ids: Vec<String> = Vec::new();
    context_record_ids.push(run.memory_record_id.clone());
    assert(text::strings(context_record_ids@) =~= seq![run.memory_record_id@]);
    ClaimedExtractionRun {
        ingestion_run_id: run.id.clone(),
        memory_space_id: run.memory_space_id.clone(),
        memory_record_id: run.memory_record_id.clone(),
        text: text.to_owned(),
        metadata: metadata.clone(),
        attempt_count: run.attempt_count,
        extraction_attempt_number,
        context_record_ids,
    }
}

/// Who extracts.
#[derive(Debug)]
pub struct ExtractorInfo {
    pub extractor_name: String,
    pub model: String,
    pub prompt_version: String,
    pub schema_version: String,
}

/// What the extractor is given of a claimed run.
pub fn extraction_input(claim: &ClaimedExtractionRun, registry: &GraphTypeRegistry) -> (r:
    GraphExtractionInput)
    ensures
        r.memory_space_id@ == claim.memory_space_id@,
        r.memory_record_id@ == claim.memory_record_id@,
        r.text@ == claim.text@,
        r.metadata@ == claim.metadata@,
        text::strings(r.context_record_ids@) == text::strings(claim.context_record_ids@),
        r.type_registry_version@ == registry.version@,
{
    GraphExtractionInput {
        memory_space_id: claim.memory_space_id.clone(),
        memory_record_id: claim.memory_record_id.clone(),
        text: claim.text.clone(),
        metadata: claim.metadata.clone(),
        context_record_ids: clone_strings(&claim.context_record_ids),
        type_registry_version: registry.version.clone(),
    }
}

/// What is stored of an extraction that failed.
#[derive(Debug)]
pub struct ExtractionRunFailure {
    pub ingestion_run_id: String,
    pub memory_space_id: String,
    pub attempt_count: i64,
    pub attempt_number: i64,
    pub extractor_name: String,
    pub model: String,
    pub prompt_version: String,
    pub schema_version: String,
    pub type_registry_version: String,
    pub context_record_ids: Vec<String>,
    pub latency_ms: Option<i64>,
    pub error_code: String,
    pub error_message: String,
}

/// What is stored of an extraction that succeeded, beside the extraction.
#[derive(Debug)]
pub struct ExtractionRunCompletion {
    pub ingestion_run_id: String,
    pub memory_space_id: String,
    pub attempt_count: i64,
    pub attempt_number: i64,
    pub extractor_name: String,
    pub model: String,
    pub prompt_version: String,
    pub schema_version: String,
    pub type_registry_version: String,
    pub context_record_ids: Vec<String>,
    pub input_tokens: Option<i64>,
    pub output_tokens: Option<i64>,
    pub latency_ms: Option<i64>,
}

/// Whether a failure is stored as that of a claimed run.
pub open spec fn is_failure_of(
    f: ExtractionRunFailure,
    claim: ClaimedExtractionRun,
    extractor: ExtractorInfo,
    registry_version: Seq<char>,
    latency_ms: Option<i64>,
    code: Seq<char>,
    message: Seq<char>,
) -> bool {
    &&& f.ingestion_run_id@ == claim.ingestion_run_id@
    &&& f.memory_space_id@ == claim.memory_space_id@
    &&& f.attempt_count == claim.attempt_count
    &&& f.attempt_number == claim.extraction_attempt_number
    &&& f.extractor_name@ == extractor.extractor_name@
    &&& f.model@ == extractor.model@
    &&& f.prompt_version@ == extractor.prompt_version@
    &&& f.schema_version@ == extractor.schema_version@
    &&& f.type_registry_version@ == registry_version
    &&& text::strings(f.context_record_ids@) == text::strings(claim.context_record_ids@)
    &&& f.latency_ms == latency_ms
    &&& f.error_code@ == code
    &&& f.error_message@ == message
}

/// Whether a completion is stored as that of a claimed run.
pub open spec fn is_completion_of(
    c: ExtractionRunCompletion,
    claim: ClaimedExtractionRun,
    extractor: ExtractorInfo,
    registry_version: Seq<char>,
    latency_ms: Option<i64>,
    output: ExtractionView,
) -> bool {
    &&& c.ingestion_run_id@ == claim.ingestion_run_id@
    &&& c.memory_space_id@ == claim.memory_space_id@
    &&& c.attempt_count == claim.attempt_count
    &&& c.attempt_number == claim.extraction_attempt_number
    &&& c.extractor_name@ == extractor.extractor_name@
    &&& c.model@ == extractor.model@
    &&& c.prompt_version@ == extractor.prompt_version@
    &&& c.schema_version@ == extractor.schema_version@
    &&& c.type_registry_version@ == registry_version
    &&& text::strings(c.context_record_ids@) == text::strings(claim.context_record_ids@)
    &&& c.latency_ms == latency_ms
    &&& c.input_tokens == output.input_tokens
    &&& c.output_tokens == output.output_tokens
}

fn extraction_failure(
    claim: &ClaimedExtractionRun,
    extractor: &ExtractorInfo,
    registry_version: &str,
    latency_ms: Option<i64>,
    code: &str,
    error: &MemoryError,
) -> (r: ExtractionRunFailure)
    ensures
        is_failure_of(
            r,
            *claim,
            *extractor,
            registry_version@,
            latency_ms,
            code@,
            error::error_sentence(error@),
        ),
{
    ExtractionRunFailure {
        ingestion_run_id: claim.ingestion_run_id.clone(),
        memory_space_id: claim.memory_space_id.clone(),
        attempt_count: claim.attempt_count,
        attempt_number: claim.extraction_attempt_number,
        extractor_name: extractor.extractor_name.clone(),
        model: extractor.model.clone(),
        prompt_version: extractor.prompt_version.clone(),
        schema_version: extractor.schema_version.clone(),
        type_registry_version: registry_version.to_owned(),
        context_record_ids: clone_strings(&claim.context_record_ids),
        latency_ms,
        error_code: code.to_owned(),
        error_message: error.to_text(),
    }
}

/// What is to be done with the outcome of an extraction.
#[derive(Debug)]
pub enum ExtractionStep {
    /// Store the failure, and report the error whether or not it could be
    /// stored.
    Fail { failure: ExtractionRunFailure, error: MemoryError },
    /// Store the extraction.
    Store { completion: ExtractionRunCompletion, output: GraphExtractionOutput },
}

/// The error that an extraction has failed with, and its code: the extractor's
/// own error, or what is unsound about its output.
pub open spec fn extraction_error(
    outcome: Result<GraphExtractionOutput, MemoryError>,
    record: Seq<char>,
    registry: RegistryView,
) -> Option<(Seq<char>, MemoryErrorView)> {
    match outcome {
        Err(e) => Some((EXTRACTION_FAILED_ERROR_CODE@, e@)),
        Ok(output) => match graph_extraction::extraction_problem(output@, record, registry) {
            Some(e) => Some((INVALID_EXTRACTION_OUTPUT_ERROR_CODE@, e)),
            None => None,
        },
    }
}

/// Goes on from what the extractor has returned: a failed or an unsound
/// extraction is stored as a failure, a sound one as it is.
pub fn after_extraction(
    claim: &ClaimedExtractionRun,
    extractor: &ExtractorInfo,
    registry: &GraphTypeRegistry,
    outcome: Result<GraphExtractionOutput, MemoryError>,
    latency_ms: Option<i64>,
) -> (r: ExtractionStep)
    ensures
        match r {
            ExtractionStep::Fail { failure, error } => {
                let (code, e) = extraction_error(outcome, claim.text@, registry@)->0;
                &&& extraction_error(outcome, claim.text@, registry@) is Some
                &&& error@ == e
                &&& is_failure_of(
                    failure,
                    *claim,
                    *extractor,
                    registry.version@,
                    latency_ms,
                    code,
                    error::error_sentence(e),
                )
            },
            ExtractionStep::Store { completion, output } => {
                &&& extraction_error(outcome, claim.text@, registry@) is None
                &&& outcome == Ok::<_, MemoryError>(output)
                &&& is_completion_of(
                    completion,
                    *claim,
                    *extractor,
                    registry.version@,
                    latency_ms,
                    output@,
                )
            },
        },
{
    let output = match outcome {
        Ok(output) => output,
        Err(error) => {
            let failure = extraction_failure(
                claim,
                extractor,
                registry.version.as_str(),
                latency_ms,
                EXTRACTION_FAILED_ERROR_CODE,
                &error,
            );
            return ExtractionStep::Fail { failure, error };
        },
    };
    match output.validate_against_record(claim.text.as_str(), registry) {
        Err(error) => {
            let failure = extraction_failure(
                claim,
                extractor,
                registry.version.as_str(),
                latency_ms,
                INVALID_EXTRACTION_OUTPUT_ERROR_CODE,
                &error,
            );
            return ExtractionStep::Fail { failure, error };
        },
        Ok(_) => {},
    }
    let completion = ExtractionRunCompletion {
        ingestion_run_id: claim.ingestion_run_id.clone(),
        memory_space_id: claim.memory_space_id.clone(),
        attempt_count: claim.attempt_count,
        attempt_number: claim.extraction_attempt_number,
        extractor_name: extractor.extractor_name.clone(),
        model: extractor.model.clone(),
        prompt_version: extractor.prompt_version.clone(),
        schema_version: extractor.schema_version.clone(),
        type_registry_version: registry.version.clone(),
        context_record_ids: clone_strings(&claim.context_record_ids),
        input_tokens: output.input_tokens,
        output_tokens: output.output_tokens,
        latency_ms,
    };
    ExtractionStep::Store { completion, output }
}

/// Goes on where a sound extraction could not be stored: it is stored as a
/// failure, and the error is reported.
pub fn after_failed_store(
    claim: &ClaimedExtractionRun,
    extractor: &ExtractorInfo,
    registry: &GraphTypeRegistry,
    error: &MemoryError,
    latency_ms: Option<i64>,
) -> (r: ExtractionRunFailure)
    ensures
        is_failure_of(
            r,
            *claim,
            *extractor,
            registry.version@,
            latency_ms,
            EXTRACTION_STORE_FAILED_ERROR_CODE@,
            error::error_sentence(error@),
        ),
{
    extraction_failure(
        claim,
        extractor,
        registry.version.as_str(),
        latency_ms,
        EXTRACTION_STORE_FAILED_ERROR_CODE,
        error,
    )
}

/// A run of the extractor, as it is stored. The extraction itself is stored
/// beside it.
#[derive(Debug)]
pub struct ExtractionRun {
    pub id: String,
    pub memory_space_id: String,
    pub ingestion_run_id: String,
    pub attempt_number: i64,
    pub status: String,
    pub extractor_name: String,
    pub model: String,
    pub prompt_version: String,
    pub schema_version: String,
    pub type_registry_version: String,
    pub context_record_ids: Vec<String>,
    pub input_tokens: Option<i64>,
    pub output_tokens: Option<i64>,
    pub latency_ms: Option<i64>,
    pub error_code: Option<String>,
    pub error_message: Option<String>,
    pub created_at_ms: u64,
    pub completed_at_ms: Option<u64>,
}

/// The stored run of an extraction that succeeded.
pub fn completed_extraction_run(c: &ExtractionRunCompletion, id: &str, now: u64) -> (r:
    ExtractionRun)
    ensures
        r.id@ == id@,
        r.memory_space_id@ == c.memory_space_id@,
        r.ingestion_run_id@ == c.ingestion_run_id@,
        r.attempt_number == c.attempt_number,
        r.status@ == "completed"@,
        r.extractor_name@ == c.extractor_name@,
        r.model@ == c.model@,
        r.prompt_version@ == c.prompt_version@,
        r.schema_version@ == c.schema_version@,
        r.type_registry_version@ == c.type_registry_version@,
        text::strings(r.context_record_ids@) == text::strings(c.context_record_ids@),
        r.input_tokens == c.input_tokens,
        r.output_tokens == c.output_tokens,
        r.latency_ms == c.latency_ms,
        r.error_code is None,
        r.error_message is None,
        r.created_at_ms == now,
        r.completed_at_ms == Some(now),
{
    ExtractionRun {
        id: id.to_owned(),
        memory_space_id: c.memory_space_id.clone(),
        ingestion_run_id: c.ingestion_run_id.clone(),
        attempt_number: c.attempt_number,
        status: "completed".to_owned(),
        extractor_name: c.extractor_name.clone(),
        model: c.model.clone(),
        prompt_version: c.prompt_version.clone(),
        schema_version: c.schema_version.clone(),
        type_registry_version: c.type_registry_version.clone(),
        context_record_ids: clone_strings(&c.context_record_ids),
        input_tokens: c.input_tokens,
        output_tokens: c.output_tokens,
        latency_ms: c.latency_ms,
        error_code: None,
        error_message: None,
        created_at_ms: now,
        completed_at_ms: Some(now),
    }
}

/// The stored run of an extraction that failed.
pub fn failed_extraction_run(f: &ExtractionRunFailure, id: &str, now: u64) -> (r: ExtractionRun)
    ensures
        r.id@ == id@,
        r.memory_space_id@ == f.memory_space_id@,
        r.ingestion_run_id@ == f.ingestion_run_id@,
        r.attempt_number == f.attempt_number,
        r.status@ == "failed"@,
        r.extractor_name@ == f.extractor_name@,
        r.model@ == f.model@,
        r.prompt_version@ == f.prompt_version@,
        r.schema_version@ == f.schema_version@,
        r.type_registry_version@ == f.type_registry_version@,
        text::strings(r.context_record_ids@) == text::strings(f.context_record_ids@),
        r.input_tokens is None,
        r.output_tokens is None,
        r.latency_ms == f.latency_ms,
        json::opt_string(r.error_code) == Some(f.error_code@),
        json::opt_string(r.error_message) == Some(f.error_message@),
        r.created_at_ms == now,
        r.completed_at_ms == Some(now),
{
    ExtractionRun {
        id: id.to_owned(),
        memory_space_id: f.memory_space_id.clone(),
        ingestion_run_id: f.ingestion_run_id.clone(),
        attempt_number: f.attempt_number,
        status: "failed".to_owned(),
        extractor_name: f.extractor_name.clone(),
        model: f.model.clone(),
        prompt_version: f.prompt_version.clone(),
        schema_version: f.schema_version.clone(),
        type_registry_version: f.type_registry_version.clone(),
        context_record_ids: clone_strings(&f.context_record_ids),
        input_tokens: None,
        output_tokens: None,
        latency_ms: f.latency_ms,
        error_code: Some(f.error_code.clone()),
        error_message: Some(f.error_message.clone()),
        created_at_ms: now,
        completed_at_ms: Some(now),
    }
}

} // verus!
