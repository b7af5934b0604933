//! How a case service is set up: where it keeps its files, which embeddings it
//! uses, and which documents it takes in.

use vstd::prelude::*;
use vstd::string::*;

use crate::case_model::{CaseError, CreateDatasetRequest};
use crate::case_store;
use crate::json;
use crate::scan;
use crate::scan::path_extension;
use crate::text;
use crate::text::{holds_text, lower_ascii, parse_number, text_eq, trim};

verus! {

/// Where embeddings come from.
#[derive(Clone, Copy, Debug, PartialEq, Eq, Structural)]
pub enum EmbeddingProviderKind {
    Hash,
    OpenAiCompatible,
}

/// The kind of provider that a name stands for.
pub open spec fn provider_named(name: Seq<char>) -> Option<EmbeddingProviderKind> {
    if name == "hash"@ {
        Some(EmbeddingProviderKind::Hash)
    } else if name == "openai_compatible"@ || name == "open_router"@ {
        Some(EmbeddingProviderKind::OpenAiCompatible)
    } else {
        None
    }
}

pub open spec fn unsupported_provider(name: Seq<char>) -> Seq<char> {
    "unsupported embedding provider `"@ + name
        + "`; expected `hash` or `openai_compatible`"@
}

/// The kind of provider that a name stands for.
pub fn parse_embedding_provider(value: &str) -> (r: Result<EmbeddingProviderKind, String>)
    ensures
        match r {
            Ok(kind) => provider_named(value@) == Some(kind),
            Err(message) => provider_named(value@) is None && message@ == unsupported_provider(
                value@,
            ),
        },
{
    if text_eq(value, "hash") {
        Ok(EmbeddingProviderKind::Hash)
    } else if text_eq(value, "openai_compatible") || text_eq(value, "open_router") {
        Ok(EmbeddingProviderKind::OpenAiCompatible)
    } else {
        let mut message = "unsupported embedding provider `".to_owned();
        message.append(value);
        message.append("`; expected `hash` or `openai_compatible`");
        Err(message)
    }
}

/// The files of a case service.
#[derive(Clone, Debug)]
pub struct StoragePaths {
    pub rag_store: String,
    pub memory_store: String,
}

pub open spec fn or_text(t: Option<Seq<char>>, default: Seq<char>) -> Seq<char> {
    match t {
        Some(s) => s,
        None => default,
    }
}

fn owned_or(t: Option<&str>, default: &str) -> (r: String)
    ensures
        r@ == or_text(json::opt_text(t), default@),
{
    match t {
        Some(s) => s.to_owned(),
        None => default.to_owned(),
    }
}

/// The files of a case service: those that are named, else its usual ones.
pub fn storage_paths(rag_store: Option<&str>, memory_store: Option<&str>) -> (r: StoragePaths)
    ensures
        r.rag_store@ == or_text(json::opt_text(rag_store), "data/memory-cases.sqlite"@),
        r.memory_store@ == or_text(
            json::opt_text(memory_store),
            "data/memory-cases-index.sqlite"@,
        ),
{
    StoragePaths {
        rag_store: owned_or(rag_store, "data/memory-cases.sqlite"),
        memory_store: owned_or(memory_store, "data/memory-cases-index.sqlite"),
    }
}

/// How a case service is set up.
#[derive(Clone, Debug)]
pub struct CaseServiceOptions {
    pub rag_store: String,
    pub memory_store: String,
    pub embedding_provider: EmbeddingProviderKind,
    pub embedding_api_key_env: String,
    pub embedding_base_url: String,
    pub embedding_model: String,
    pub embedding_dimensions: usize,
    pub chunk_size: usize,
    pub summary_llm_model: Option<String>,
    pub summary_llm_api_key_env: String,
    pub summary_llm_base_url: String,
    pub summary_llm_timeout_ms: u64,
}

/// What an environment variable holds.
#[derive(Debug)]
pub enum EnvironmentValue {
    Unset,
    NotUnicode,
    Text(String),
}

/// Whether a text is neither blank nor surrounded by space.
pub open spec fn is_canonical(s: Seq<char>) -> bool {
    s.len() > 0 && text::trimmed(s) == s
}

fn canonical(s: &str) -> (r: bool)
    ensures
        r == is_canonical(s@),
{
    let t = trim(s);
    !t.is_empty() && text_eq(t, s)
}

pub open spec fn token_variable(name: Seq<char>, problem: Seq<char>) -> Seq<char> {
    "API token environment variable `"@ + name + "` "@ + problem
}

fn token_error(name: &str, problem: &str) -> (r: CaseError)
    ensures
        r.message@ == token_variable(name@, problem@),
{
    let mut message = "API token environment variable `".to_owned();
    message.append(name);
    message.append("` ");
    message.append(problem);
    CaseError { message }
}

/// What is wrong with the name of a variable, or with the token that it holds.
pub open spec fn token_problem(name: Seq<char>, value: EnvironmentValue) -> Option<Seq<char>> {
    if !is_canonical(name) {
        Some("API token environment name must be canonical and non-empty"@)
    } else {
        match value {
            EnvironmentValue::Unset => Some(token_variable(name, "is unavailable"@)),
            EnvironmentValue::NotUnicode => Some(token_variable(name, "is not valid Unicode"@)),
            EnvironmentValue::Text(t) => case_store::problem_if(
                !is_canonical(t@),
                token_variable(name, "must be canonical and non-empty"@),
            ),
        }
    }
}

/// The token that an environment variable holds.
pub fn resolve_api_token(name: &str, value: EnvironmentValue) -> (r: Result<String, CaseError>)
    ensures
        match r {
            Ok(token) => token_problem(name@, value) is None && value
                == EnvironmentValue::Text(token),
            Err(e) => token_problem(name@, value) == Some(e.message@),
        },
{
    if !canonical(name) {
        return Err(CaseError::new("API token environment name must be canonical and non-empty"));
    }
    match value {
        EnvironmentValue::Unset => Err(token_error(name, "is unavailable")),
        EnvironmentValue::NotUnicode => Err(token_error(name, "is not valid Unicode")),
        EnvironmentValue::Text(token) => if canonical(token.as_str()) {
            Ok(token)
        } else {
            Err(token_error(name, "must be canonical and non-empty"))
        },
    }
}

/// A setting without the space around it, unless it is blank.
pub open spec fn filled(t: Option<Seq<char>>) -> Option<Seq<char>> {
    match t {
        Some(s) => if text::is_blank(s) {
            None
        } else {
            Some(text::trimmed(s))
        },
        None => None,
    }
}

pub fn filled_text(t: Option<&str>) -> (r: Option<String>)
    ensures
        json::opt_string(r) == filled(json::opt_text(t)),
{
    match t {
        Some(s) => {
            let s = trim(s);
            if s.is_empty() {
                None
            } else {
                Some(s.to_owned())
            }
        },
        None => None,
    }
}

/// A setting: from its environment variable, else from the one that it had
/// before, else from the command line.
pub fn optional_config_value(
    given: Option<&str>,
    environment: Option<&str>,
    legacy: Option<&str>,
) -> (r: Option<String>)
    ensures
        json::opt_string(r) == case_store::or_else(
            filled(json::opt_text(environment)),
            case_store::or_else(filled(json::opt_text(legacy)), filled(json::opt_text(given))),
        ),
{
    match filled_text(environment) {
        Some(s) => Some(s),
        None => match filled_text(legacy) {
            Some(s) => Some(s),
            None => filled_text(given),
        },
    }
}

/// A setting that the command line always gives.
pub fn config_value(given: &str, environment: Option<&str>, legacy: Option<&str>) -> (r: String)
    ensures
        r@ == or_text(
            case_store::or_else(
                filled(json::opt_text(environment)),
                case_store::or_else(filled(json::opt_text(legacy)), filled(Some(given@))),
            ),
            given@,
        ),
{
    match optional_config_value(Some(given), environment, legacy) {
        Some(s) => s,
        None => given.to_owned(),
    }
}

/// The number that a setting holds, if it is one.
pub open spec fn number_in(t: Option<Seq<char>>) -> Option<nat> {
    match t {
        Some(s) => match text::parsed_number(text::trimmed(s)) {
            Some(n) => if n <= u64::MAX {
                Some(n)
            } else {
                None
            },
            None => None,
        },
        None => None,
    }
}

fn number_setting(t: Option<&str>) -> (r: Option<u64>)
    ensures
        match r {
            Some(n) => number_in(json::opt_text(t)) == Some(n as nat),
            None => number_in(json::opt_text(t)) is None,
        },
{
    match t {
        Some(s) => parse_number(trim(s), u64::MAX),
        None => None,
    }
}

/// A number that is set: by its environment variable, else by the one that it
/// had before, else by the command line. What is no number does not count.
pub fn u64_config_value(given: u64, environment: Option<&str>, legacy: Option<&str>) -> (r: u64)
    ensures
        r == match number_in(json::opt_text(environment)) {
            Some(n) => n,
            None => match number_in(json::opt_text(legacy)) {
                Some(n) => n,
                None => given as nat,
            },
        },
{
    match number_setting(environment) {
        Some(n) => n,
        None => match number_setting(legacy) {
            Some(n) => n,
            None => given,
        },
    }
}

/// What is wrong with the settings of an embedding service, if anything.
pub open spec fn embedding_problem(
    key_name: Seq<char>,
    key: Option<Seq<char>>,
    base_url: Seq<char>,
    model: Seq<char>,
) -> Option<Seq<char>> {
    match key {
        None => Some(
            "embedding API key environment variable `"@ + key_name + "` is unavailable"@,
        ),
        Some(k) => case_store::or_else(
            case_store::problem_if(
                text::is_blank(k),
                "embedding API key environment variable `"@ + key_name + "` is empty"@,
            ),
            case_store::or_else(
                case_store::problem_if(text::is_blank(base_url), "embedding base URL is empty"@),
                case_store::problem_if(text::is_blank(model), "embedding model is empty"@),
            ),
        ),
    }
}

/// Checks the settings of an embedding service. Embeddings that are hashed need
/// none.
pub fn check_embedding_options(options: &CaseServiceOptions, key: Option<&str>) -> (r: Result<
    (),
    CaseError,
>)
    ensures
        ({
            let problem = if options.embedding_provider == EmbeddingProviderKind::Hash {
                None
            } else {
                embedding_problem(
                    options.embedding_api_key_env@,
                    json::opt_text(key),
                    options.embedding_base_url@,
                    options.embedding_model@,
                )
            };
            match r {
                Ok(_) => problem is None,
                Err(e) => problem == Some(e.message@),
            }
        }),
{
    match options.embedding_provider {
        EmbeddingProviderKind::Hash => Ok(()),
        EmbeddingProviderKind::OpenAiCompatible => {
            let mut message = "embedding API key environment variable `".to_owned();
            message.append(options.embedding_api_key_env.as_str());
            match key {
                None => {
                    message.append("` is unavailable");
                    Err(CaseError { message })
                },
                Some(k) => {
                    if trim(k).is_empty() {
                        message.append("` is empty");
                        return Err(CaseError { message });
                    }
                    if trim(options.embedding_base_url.as_str()).is_empty() {
                        return Err(CaseError::new("embedding base URL is empty"));
                    }
                    if trim(options.embedding_model.as_str()).is_empty() {
                        return Err(CaseError::new("embedding model is empty"));
                    }
                    Ok(())
                },
            }
        },
    }
}

/// Whether summaries are written by a model: where one is named and its key is
/// set.
pub fn summary_model_enabled(model: Option<&str>, key: Option<&str>) -> (r: bool)
    ensures
        r == (model is Some && key is Some && !text::is_blank(key->0@)),
{
    match (model, key) {
        (Some(_), Some(k)) => !trim(k).is_empty(),
        _ => false,
    }
}

pub open spec fn is_markdown_extension(e: Seq<char>) -> bool {
    e == "md"@ || e == "markdown"@ || e == "mdx"@
}

pub open spec fn is_text_extension(e: Seq<char>) -> bool {
    e == "txt"@ || e == "text"@ || e == "log"@
}

/// The media type of a file, by its extension.
pub open spec fn media_type_of(path: Seq<char>) -> Option<Seq<char>> {
    match scan::extension_of(path) {
        Some(e) => {
            let e = text::ascii_lower_text(e);
            if is_markdown_extension(e) {
                Some("text/markdown"@)
            } else if is_text_extension(e) {
                Some("text/plain"@)
            } else {
                None
            }
        },
        None => None,
    }
}

/// The media type of a file, by its extension.
pub fn mime_type_for_file(path: &str) -> (r: Option<&'static str>)
    ensures
        json::opt_text(r) == media_type_of(path@),
{
    match path_extension(path) {
        Some(e) => {
            let e = lower_ascii(e.as_str());
            let e = e.as_str();
            if text_eq(e, "md") || text_eq(e, "markdown") || text_eq(e, "mdx") {
                Some("text/markdown")
            } else if text_eq(e, "txt") || text_eq(e, "text") || text_eq(e, "log") {
                Some("text/plain")
            } else {
                None
            }
        },
        None => None,
    }
}

/// Whether a file can be taken in.
pub fn is_supported_document(path: &str) -> (r: bool)
    ensures
        r == media_type_of(path@) is Some,
{
    mime_type_for_file(path).is_some()
}

/// Whether an entry of a directory is taken in: a file of a supported format
/// whose name is not known yet.
pub fn takes_in(is_file: bool, path: &str, name: &str, known: &Vec<String>) -> (r: bool)
    ensures
        r == (is_file && media_type_of(path@) is Some && !text::strings(known@).contains(name@)),
{
    is_file && is_supported_document(path) && !holds_text(known, name)
}

/// The request for the dataset that documents are taken into.
pub fn library_dataset_request(dataset_id: &str) -> (r: CreateDatasetRequest)
    ensures
        json::opt_string(r.id) == Some(dataset_id@),
        r.name@ == dataset_id@,
        json::opt_string(r.description) == Some("RAM-A configured case library"@),
{
    CreateDatasetRequest {
        id: Some(dataset_id.to_owned()),
        name: dataset_id.to_owned(),
        description: Some("RAM-A configured case library".to_owned()),
    }
}

/// How long an idle worker waits before it looks for tasks again.
pub fn poll_interval_ms(poll_ms: u64) -> (r: u64)
    ensures
        r == (if poll_ms >= 100 {
            poll_ms
        } else {
            100
        }),
{
    if poll_ms >= 100 {
        poll_ms
    } else {
        100
    }
}

/// What a worker does after it has looked for a task, given whether it has
/// processed one, or nothing where that failed: it goes on at once after a task,
/// and otherwise waits for so many milliseconds.
pub fn after_ingestion(processed: Option<bool>, poll_ms: u64) -> (r: Option<u64>)
    ensures
        r == (if processed == Some(true) {
            None
        } else {
            Some(
                if poll_ms >= 100 {
                    poll_ms
                } else {
                    100
                },
            )
        }),
{
    match processed {
        Some(true) => None,
        _ => Some(poll_interval_ms(poll_ms)),
    }
}

/// How often a locked database is asked again, and the delays in between.
pub const LOCK_RETRY_ATTEMPTS: usize = 3;

pub const LOCK_RETRY_INITIAL_DELAY_MS: u64 = 50;

pub const LOCK_RETRY_MAX_DELAY_MS: u64 = 500;

/// The delay before an attempt is repeated: it doubles up to its limit.
pub open spec fn lock_delay(attempt: nat) -> nat
    decreases attempt,
{
    if attempt == 0 {
        LOCK_RETRY_INITIAL_DELAY_MS as nat
    } else {
        let d = 2 * lock_delay((attempt - 1) as nat);
        if d <= LOCK_RETRY_MAX_DELAY_MS {
            d
        } else {
            LOCK_RETRY_MAX_DELAY_MS as nat
        }
    }
}

/// How long to wait before an operation that failed is tried again; nothing
/// where it is not tried again.
pub fn lock_retry_delay_ms(attempt: usize, locked: bool) -> (r: Option<u64>)
    ensures
        match r {
            Some(d) => locked && attempt < LOCK_RETRY_ATTEMPTS && d == lock_delay(attempt as nat),
            None => !locked || attempt >= LOCK_RETRY_ATTEMPTS,
        },
{
    if !locked || attempt >= LOCK_RETRY_ATTEMPTS {
        return None;
    }
    let mut delay: u64 = LOCK_RETRY_INITIAL_DELAY_MS;
    let mut i: usize = 0;
    while i < attempt
        invariant
            i <= attempt,
            delay <= LOCK_RETRY_MAX_DELAY_MS,
            delay == lock_delay(i as nat),
        decreases attempt - i,
    {
        delay = if delay * 2 <= LOCK_RETRY_MAX_DELAY_MS {
            delay * 2
        } else {
            LOCK_RETRY_MAX_DELAY_MS
        };
        i += 1;
    }
    Some(delay)
}

} // verus!
