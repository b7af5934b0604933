//! Extraction by a language model: the request that is put to it, how its
//! answers are read, and the whole of the cleaning that they go through.

use vstd::prelude::*;
use vstd::string::*;

use crate::embedding::{service_url, trim_slashes};
use crate::embedding;
use crate::graph_clean;
use crate::graph_clean::{
    deduplicate_entity_local_ids, normalize_llm_entity_types, repair_evidence_byte_offsets,
};
use crate::graph_context;
use crate::graph_context::{put_member, text_json, text_list_json};
use crate::graph_extraction;
use crate::graph_extraction::{
    ExtractionView, FactCandidateView, GraphExtractionInput, GraphExtractionOutput,
};
use crate::graph_facts;
use crate::graph_facts::{
    deduplicate_semantic_facts, drop_low_signal_facts, drop_unmaterializable_facts,
    sanitize_llm_fact_times, uniquify_fact_local_ids,
};
use crate::graph_registry;
use crate::graph_registry::{GraphPredicate, GraphTypeRegistry, PredicateView, RegistryView};
use crate::json;
use crate::json::{read_json, Json, JsonView};
use crate::retry::{AttemptError, AttemptErrorView};
use crate::text;
use crate::text::{chars_stand_at, eq_ignoring_case, find_char, to_chars, trim};

verus! {

/// What an extraction by a language model is recorded as.
pub const GRAPH_EXTRACTION_PROMPT_VERSION: &'static str = "graph-extraction-prompt-v6";

pub const GRAPH_EXTRACTION_SCHEMA_VERSION: &'static str = "graph-extraction-candidates-v3";

pub const LLM_GRAPH_EXTRACTOR_NAME: &'static str = "llm-graph-extractor";

pub const OPENAI_COMPATIBLE_CLIENT_NAME: &'static str = "openai-compatible";

pub const LLM_MAX_ATTEMPTS: usize = 5;

pub const DEFAULT_LLM_TIMEOUT_SECS: u64 = 60;

pub const MAX_GRAPH_LLM_RESPONSE_BYTES: usize = 262144;

/// A message of a conversation with a language model.
#[derive(Clone, Debug)]
pub struct GraphLlmMessage {
    pub role: String,
    pub content: String,
}

/// What is put to a language model. The temperature stands as its IEEE-754
/// bits.
#[derive(Clone, Debug)]
pub struct GraphLlmRequest {
    pub messages: Vec<GraphLlmMessage>,
    pub temperature_bits: u32,
    pub response_format_json: bool,
}

/// What a language model answers.
#[derive(Clone, Debug)]
pub struct GraphLlmResponse {
    pub content: String,
    pub input_tokens: Option<i64>,
    pub output_tokens: Option<i64>,
}

/// The last position up to `i` where `p` stands in `s`.
pub open spec fn last_position(s: Seq<char>, p: Seq<char>, i: int) -> Option<int>
    decreases i + 1,
{
    if i < 0 {
        None
    } else if text::stands_at(s, p, i) {
        Some(i)
    } else {
        last_position(s, p, i - 1)
    }
}

/// What a model's answer holds inside a Markdown fence: the text between the
/// line that opens a fence without a language, or for JSON, and the last fence
/// behind it. An answer without such a fence is taken as it is, trimmed.
pub open spec fn unfenced(s: Seq<char>) -> Seq<char> {
    let t = text::trimmed(s);
    if !text::starts_with(t, "```"@) {
        t
    } else {
        let after = t.skip(3);
        let line_end = text::char_position(after, '\n');
        if line_end >= after.len() {
            t
        } else {
            let language = text::trimmed(after.take(line_end));
            if language.len() > 0 && !text::same_ignoring_case(language, "json"@) {
                t
            } else {
                let body = after.skip(line_end + 1);
                match last_position(body, "```"@, body.len() - 3) {
                    Some(end) => text::trimmed(body.take(end)),
                    None => t,
                }
            }
        }
    }
}

/// What a model's answer holds inside a Markdown fence.
pub fn strip_json_fence<'a>(s: &'a str) -> (r: &'a str)
    ensures
        r@ == unfenced(s@),
{
    proof {
        reveal_strlit("```");
    }
    let trimmed = trim(s);
    let chars = to_chars(trimmed);
    let ticks = to_chars("```");
    let n: usize = chars.len();
    if !chars_stand_at(&chars, &ticks, 0) {
        return trimmed;
    }
    assert(n >= 3);
    let line_end = find_char(&chars, '\n', 3);
    if line_end == n {
        return trimmed;
    }
    let ghost after = trimmed@.skip(3);
    let language = trim(trimmed.substring_char(3, line_end));
    assert(trimmed@.subrange(3, line_end as int) =~= after.take(line_end - 3));
    if !language.is_empty() && !eq_ignoring_case(language, "json") {
        return trimmed;
    }
    let start: usize = line_end + 1;
    let ghost body = after.skip(line_end - 3 + 1);
    assert(body =~= trimmed@.skip(start as int));
    if n - start < 3 {
        assert(last_position(body, "```"@, body.len() - 3) is None);
        return trimmed;
    }
    let mut i: usize = n - start - 3;
    loop
        invariant
            n == chars@.len(),
            chars@ == trimmed@,
            start + i + 3 <= n,
            ticks@ == "```"@,
            ticks@.len() == 3,
            body == trimmed@.skip(start as int),
            last_position(body, "```"@, body.len() - 3) == last_position(body, "```"@, i as int),
            unfenced(s@) == (match last_position(body, "```"@, body.len() - 3) {
                Some(end) => text::trimmed(body.take(end)),
                None => trimmed@,
            }),
        decreases i,
    {
        assert(chars@.subrange(start + i, start + i + 3) =~= body.subrange(i as int, i + 3));
        assert(text::stands_at(body, "```"@, i as int) == text::stands_at(
            chars@,
            ticks@,
            start + i,
        ));
        if chars_stand_at(&chars, &ticks, start + i) {
            let inner = trimmed.substring_char(start, start + i);
            assert(inner@ =~= body.take(i as int));
            return trim(inner);
        }
        if i == 0 {
            assert(last_position(body, "```"@, -1) is None);
            return trimmed;
        }
        i -= 1;
    }
}

/// An attempt whose answer is not JSON may be followed by a better one.
pub open spec fn content_verdict(error: Option<Seq<char>>) -> Option<AttemptErrorView> {
    match error {
        Some(e) => Some(
            AttemptErrorView {
                retryable: true,
                message: "graph LLM returned invalid JSON: "@ + e,
            },
        ),
        None => None,
    }
}

/// What follows from what the JSON reader reports of a model's answer.
pub fn judge_content(error: Option<String>) -> (r: Result<(), AttemptError>)
    ensures
        match r {
            Ok(_) => content_verdict(json::opt_string(error)) is None,
            Err(e) => content_verdict(json::opt_string(error)) == Some(e@),
        },
{
    match error {
        Some(e) => {
            let mut message = "graph LLM returned invalid JSON: ".to_owned();
            message.append(e.as_str());
            Err(AttemptError::retryable(message))
        },
        None => Ok(()),
    }
}

/// Checks that a model's answer is JSON, in a fence or not.
pub fn validate_json_content(content: &str) -> (r: Result<(), AttemptError>)
    ensures
        match r {
            Ok(_) => content_verdict(json::json_error(unfenced(content@))) is None,
            Err(e) => content_verdict(json::json_error(unfenced(content@))) == Some(e@),
        },
{
    match read_json(strip_json_fence(content)) {
        Ok(_) => judge_content(None),
        Err(e) => judge_content(Some(e)),
    }
}

/// What comes of a model's response: its content, which must be there and be
/// JSON.
pub fn read_llm_response(
    content: Option<String>,
    input_tokens: Option<i64>,
    output_tokens: Option<i64>,
) -> (r: Result<GraphLlmResponse, AttemptError>)
    ensures
        match r {
            Ok(response) => {
                &&& content is Some
                &&& json::json_error(unfenced(content->0@)) is None
                &&& response.content@ == content->0@
                &&& response.input_tokens == input_tokens
                &&& response.output_tokens == output_tokens
            },
            Err(e) => match content {
                Some(c) => content_verdict(json::json_error(unfenced(c@))) == Some(e@),
                None => e@ == (AttemptErrorView {
                    retryable: true,
                    message: "graph LLM response did not include message content"@,
                }),
            },
        },
{
    match content {
        None => Err(
            AttemptError::retryable(
                "graph LLM response did not include message content".to_owned(),
            ),
        ),
        Some(content) => match validate_json_content(content.as_str()) {
            Ok(_) => Ok(GraphLlmResponse { content, input_tokens, output_tokens }),
            Err(e) => Err(e),
        },
    }
}

/// Checks that a response body has room for one more chunk.
pub fn check_body_growth(length: usize, chunk: usize) -> (r: Result<(), AttemptError>)
    ensures
        match r {
            Ok(_) => length + chunk <= MAX_GRAPH_LLM_RESPONSE_BYTES,
            Err(e) => length + chunk > MAX_GRAPH_LLM_RESPONSE_BYTES && e@ == (AttemptErrorView {
                retryable: false,
                message: "graph LLM response body exceeds 262144 byte limit"@,
            }),
        },
{
    if chunk > MAX_GRAPH_LLM_RESPONSE_BYTES || length > MAX_GRAPH_LLM_RESPONSE_BYTES - chunk {
        Err(
            AttemptError {
                retryable: false,
                message: "graph LLM response body exceeds 262144 byte limit".to_owned(),
            },
        )
    } else {
        Ok(())
    }
}

/// The failure that an HTTP status reports; the body of the response is not
/// shown.
pub fn llm_status_error(status: u16, status_text: &str) -> (r: AttemptError)
    ensures
        r@ == (AttemptErrorView {
            retryable: crate::retry::status_is_retryable(status),
            message: "graph LLM API returned HTTP "@ + status_text@,
        }),
{
    let mut message = "graph LLM API returned HTTP ".to_owned();
    message.append(status_text);
    AttemptError { retryable: crate::retry::is_retryable_status(status), message }
}

/// The service of a language model.
#[derive(Clone, Debug)]
pub struct OpenAiCompatibleGraphLlmClient {
    pub api_key: String,
    pub base_url: String,
    pub model: String,
    pub timeout_ms: Option<u64>,
}

impl OpenAiCompatibleGraphLlmClient {
    /// A model at the usual address.
    pub fn new(api_key: &str, model: &str) -> (r: Self)
        ensures
            r.api_key@ == api_key@,
            r.base_url@ == embedding::without_slashes("https://openrouter.ai/api/v1"@),
            r.model@ == model@,
            r.timeout_ms == Some((1000 * DEFAULT_LLM_TIMEOUT_SECS) as u64),
    {
        Self::with_base_url(api_key, "https://openrouter.ai/api/v1", model)
    }

    /// A model at an address; slashes at its end do not count.
    pub fn with_base_url(api_key: &str, base_url: &str, model: &str) -> (r: Self)
        ensures
            r.api_key@ == api_key@,
            r.base_url@ == embedding::without_slashes(base_url@),
            r.model@ == model@,
            r.timeout_ms == Some((1000 * DEFAULT_LLM_TIMEOUT_SECS) as u64),
    {
        OpenAiCompatibleGraphLlmClient {
            api_key: api_key.to_owned(),
            base_url: trim_slashes(base_url),
            model: model.to_owned(),
            timeout_ms: Some(1000 * DEFAULT_LLM_TIMEOUT_SECS),
        }
    }

    /// The same model with another limit on the time of an answer, or none.
    pub fn with_timeout_ms(self, timeout_ms: Option<u64>) -> (r: Self)
        ensures
            r == (OpenAiCompatibleGraphLlmClient { timeout_ms, ..self }),
    {
        OpenAiCompatibleGraphLlmClient {
            api_key: self.api_key,
            base_url: self.base_url,
            model: self.model,
            timeout_ms,
        }
    }

    /// The address that is asked.
    pub fn chat_completions_url(&self) -> (r: String)
        ensures
            r@ == embedding::endpoint_url(self.base_url@, "/chat/completions"@),
    {
        service_url(self.base_url.as_str(), "/chat/completions")
    }
}

/// An object with the member that metadata holds under a field.
pub open spec fn with_field(context: JsonView, metadata: JsonView, field: Seq<char>) -> JsonView {
    match json::json_get(metadata, field) {
        Some(v) => json::json_put(context, field, v),
        None => context,
    }
}

/// The name of the entity that metadata declares as the source.
pub open spec fn source_name(metadata: JsonView) -> Option<Seq<char>> {
    match json::json_get(metadata, "graph_source_entity"@) {
        Some(entity) => match json::json_get_text(entity, "name"@) {
            Some(name) if !text::is_blank(name) => Some(text::trimmed(name)),
            _ => None,
        },
        None => None,
    }
}

/// Who spoke, when and where, as far as metadata tells. Where it names no
/// speaker, the declared source speaks.
pub open spec fn source_context(metadata: JsonView) -> JsonView {
    let a = with_field(json::empty_object(), metadata, "speaker"@);
    let b = if json::json_get(a, "speaker"@) is None && source_name(metadata) is Some {
        json::json_put(a, "speaker"@, JsonView::Text(source_name(metadata)->0))
    } else {
        a
    };
    let c = with_field(b, metadata, "session_id"@);
    let d = with_field(c, metadata, "turn_index"@);
    let e = with_field(d, metadata, "session_timestamp"@);
    with_field(e, metadata, "observed_at_ms"@)
}

fn copy_json_field(metadata: &Json, context: &mut Json, field: &str)
    ensures
        final(context)@ == with_field(old(context)@, metadata@, field@),
{
    match metadata.get(field) {
        Some(v) => {
            let copy = v.clone();
            context.put(field, copy);
        },
        None => {},
    }
}

pub fn graph_source_context(metadata: &Json) -> (r: Json)
    ensures
        r@ == source_context(metadata@),
{
    let mut context = Json::new_object();
    copy_json_field(metadata, &mut context, "speaker");
    if context.get("speaker").is_none() {
        match metadata.get("graph_source_entity") {
            Some(entity) => match entity.get_str("name") {
                Some(name) => {
                    let trimmed = trim(name);
                    if !trimmed.is_empty() {
                        context.put("speaker", text_json(trimmed));
                    }
                },
                None => {},
            },
            None => {},
        }
    }
    copy_json_field(metadata, &mut context, "session_id");
    copy_json_field(metadata, &mut context, "turn_index");
    copy_json_field(metadata, &mut context, "session_timestamp");
    copy_json_field(metadata, &mut context, "observed_at_ms");
    context
}

pub open spec fn text_or_null(t: Option<Seq<char>>) -> JsonView {
    match t {
        Some(t) => JsonView::Text(t),
        None => JsonView::Null,
    }
}

/// A predicate as it is shown to a model.
pub open spec fn predicate_json(p: PredicateView) -> JsonView {
    graph_context::object_of(
        seq![
            ("name"@, JsonView::Text(p.name)),
            ("description"@, JsonView::Text(p.description)),
            ("temporal_kind"@, text_or_null(p.temporal_kind)),
            ("cardinality"@, text_or_null(p.cardinality)),
            (
                "overlap_allowed"@,
                match p.overlap_allowed {
                    Some(b) => JsonView::Bool(b),
                    None => JsonView::Null,
                },
            ),
            ("symmetric"@, JsonView::Bool(p.symmetric)),
        ],
    )
}

/// The registry as it is shown to a model.
pub open spec fn registry_json(r: RegistryView) -> JsonView {
    graph_context::object_of(
        seq![
            ("version"@, JsonView::Text(r.version)),
            ("entity_types"@, graph_context::text_list(r.entity_types)),
            (
                "predicates"@,
                JsonView::Array(
                    Seq::new(r.predicates.len(), |i: int| predicate_json(r.predicates[i])),
                ),
            ),
        ],
    )
}

/// The record as it is shown to a model.
pub open spec fn record_json(i: GraphExtractionInput) -> JsonView {
    graph_context::object_of(
        seq![
            ("memory_space_id"@, JsonView::Text(i.memory_space_id@)),
            ("memory_record_id"@, JsonView::Text(i.memory_record_id@)),
            ("metadata"@, i.metadata@),
            ("source_context"@, source_context(i.metadata@)),
            (
                "context_record_ids"@,
                graph_context::text_list(text::strings(i.context_record_ids@)),
            ),
            ("type_registry_version"@, JsonView::Text(i.type_registry_version@)),
            ("text"@, JsonView::Text(i.text@)),
        ],
    )
}

fn text_or_null_json(t: &Option<String>) -> (r: Json)
    ensures
        r@ == text_or_null(json::opt_string(*t)),
{
    match t {
        Some(t) => Json::Text(t.clone()),
        None => Json::Null,
    }
}

fn predicate_value(p: &GraphPredicate) -> (r: Json)
    ensures
        r@ == predicate_json(p@),
{
    let mut object = Json::new_object();
    let ghost m0: Seq<(Seq<char>, JsonView)> = Seq::empty();
    put_member(&mut object, Ghost(m0), "name", text_json(p.name.as_str()));
    let ghost m1 = m0.push(("name"@, JsonView::Text(p.name@)));
    put_member(&mut object, Ghost(m1), "description", text_json(p.description.as_str()));
    let ghost m2 = m1.push(("description"@, JsonView::Text(p.description@)));
    put_member(&mut object, Ghost(m2), "temporal_kind", text_or_null_json(&p.temporal_kind));
    let ghost m3 = m2.push(("temporal_kind"@, text_or_null(p@.temporal_kind)));
    put_member(&mut object, Ghost(m3), "cardinality", text_or_null_json(&p.cardinality));
    let ghost m4 = m3.push(("cardinality"@, text_or_null(p@.cardinality)));
    let overlap = match p.overlap_allowed {
        Some(b) => Json::Bool(b),
        None => Json::Null,
    };
    let ghost overlap_view = overlap@;
    put_member(&mut object, Ghost(m4), "overlap_allowed", overlap);
    let ghost m5 = m4.push(("overlap_allowed"@, overlap_view));
    put_member(&mut object, Ghost(m5), "symmetric", Json::Bool(p.symmetric));
    proof {
        let v = p@;
        assert(m5.push(("symmetric"@, JsonView::Bool(p.symmetric))) =~= seq![
            ("name"@, JsonView::Text(v.name)),
            ("description"@, JsonView::Text(v.description)),
            ("temporal_kind"@, text_or_null(v.temporal_kind)),
            ("cardinality"@, text_or_null(v.cardinality)),
            (
                "overlap_allowed"@,
                match v.overlap_allowed {
                    Some(b) => JsonView::Bool(b),
                    None => JsonView::Null,
                },
            ),
            ("symmetric"@, JsonView::Bool(v.symmetric)),
        ]);
    }
    object
}

fn registry_value(registry: &GraphTypeRegistry) -> (r: Json)
    ensures
        r@ == registry_json(registry@),
{
    let mut list: Vec<Json> = Vec::new();
    let mut i: usize = 0;
    while i < registry.predicates.len()
        invariant
            i <= registry.predicates@.len(),
            list@.len() == i,
            forall|k: int|
                0 <= k < i ==> (#[trigger] list@[k])@ == predicate_json(registry.predicates@[k]@),
        decreases registry.predicates@.len() - i,
    {
        let value = predicate_value(&registry.predicates[i]);
        list.push(value);
        i += 1;
    }
    let ghost shown_predicates = Seq::new(
        registry@.predicates.len(),
        |i: int| predicate_json(registry@.predicates[i]),
    );
    proof {
        json::lemma_array_view(list);
        assert(json::json_views(list@) =~= shown_predicates);
    }
    let mut object = Json::new_object();
    let ghost m0: Seq<(Seq<char>, JsonView)> = Seq::empty();
    put_member(&mut object, Ghost(m0), "version", text_json(registry.version.as_str()));
    let ghost m1 = m0.push(("version"@, JsonView::Text(registry.version@)));
    let types = text_list_json(&registry.entity_types);
    put_member(&mut object, Ghost(m1), "entity_types", types);
    let ghost m2 = m1.push(("entity_types"@, graph_context::text_list(registry@.entity_types)));
    put_member(&mut object, Ghost(m2), "predicates", Json::Array(list));
    proof {
        let v = registry@;
        assert(m2.push(("predicates"@, JsonView::Array(shown_predicates))) =~= seq![
            ("version"@, JsonView::Text(v.version)),
            ("entity_types"@, graph_context::text_list(v.entity_types)),
            ("predicates"@, JsonView::Array(shown_predicates)),
        ]);
    }
    object
}

fn record_value(input: &GraphExtractionInput) -> (r: Json)
    ensures
        r@ == record_json(*input),
{
    let mut object = Json::new_object();
    let ghost m0: Seq<(Seq<char>, JsonView)> = Seq::empty();
    put_member(
        &mut object,
        Ghost(m0),
        "memory_space_id",
        text_json(input.memory_space_id.as_str()),
    );
    let ghost m1 = m0.push(("memory_space_id"@, JsonView::Text(input.memory_space_id@)));
    put_member(
        &mut object,
        Ghost(m1),
        "memory_record_id",
        text_json(input.memory_record_id.as_str()),
    );
    let ghost m2 = m1.push(("memory_record_id"@, JsonView::Text(input.memory_record_id@)));
    let metadata = input.metadata.clone();
    put_member(&mut object, Ghost(m2), "metadata", metadata);
    let ghost m3 = m2.push(("metadata"@, input.metadata@));
    let context = graph_source_context(&input.metadata);
    put_member(&mut object, Ghost(m3), "source_context", context);
    let ghost m4 = m3.push(("source_context"@, source_context(input.metadata@)));
    let ids = text_list_json(&input.context_record_ids);
    put_member(&mut object, Ghost(m4), "context_record_ids", ids);
    let ghost m5 = m4.push(
        (
            "context_record_ids"@,
            graph_context::text_list(text::strings(input.context_record_ids@)),
        ),
    );
    put_member(
        &mut object,
        Ghost(m5),
        "type_registry_version",
        text_json(input.type_registry_version.as_str()),
    );
    let ghost m6 = m5.push(
        ("type_registry_version"@, JsonView::Text(input.type_registry_version@)),
    );
    put_member(&mut object, Ghost(m6), "text", text_json(input.text.as_str()));
    proof {
        let i = *input;
        assert(m6.push(("text"@, JsonView::Text(input.text@))) =~= seq![
            ("memory_space_id"@, JsonView::Text(i.memory_space_id@)),
            ("memory_record_id"@, JsonView::Text(i.memory_record_id@)),
            ("metadata"@, i.metadata@),
            ("source_context"@, source_context(i.metadata@)),
            (
                "context_record_ids"@,
                graph_context::text_list(text::strings(i.context_record_ids@)),
            ),
            ("type_registry_version"@, JsonView::Text(i.type_registry_version@)),
            ("text"@, JsonView::Text(i.text@)),
        ]);
    }
    object
}

fn only(value: Json) -> (r: Json)
    ensures
        r@ == JsonView::Array(seq![value@]),
{
    let mut items: Vec<Json> = Vec::new();
    items.push(value);
    proof {
        json::lemma_array_view(items);
        assert(json::json_views(items@) =~= seq![value@]);
    }
    Json::Array(items)
}

/// An entity as an answer must state it.
pub open spec fn entity_form() -> JsonView {
    graph_context::object_of(
        seq![
            ("local_id"@, JsonView::Text("entity:<stable-local-name>"@)),
            ("name"@, JsonView::Text("<entity surface name>"@)),
            ("entity_type"@, JsonView::Text("<one registered entity type>"@)),
            ("confidence"@, JsonView::Float("0.0"@)),
        ],
    )
}

fn entity_form_value() -> (r: Json)
    ensures
        r@ == entity_form(),
{
    let mut object = Json::new_object();
    let ghost m0: Seq<(Seq<char>, JsonView)> = Seq::empty();
    put_member(&mut object, Ghost(m0), "local_id", text_json("entity:<stable-local-name>"));
    let ghost m1 = m0.push(("local_id"@, JsonView::Text("entity:<stable-local-name>"@)));
    put_member(&mut object, Ghost(m1), "name", text_json("<entity surface name>"));
    let ghost m2 = m1.push(("name"@, JsonView::Text("<entity surface name>"@)));
    put_member(&mut object, Ghost(m2), "entity_type", text_json("<one registered entity type>"));
    let ghost m3 = m2.push(("entity_type"@, JsonView::Text("<one registered entity type>"@)));
    put_member(&mut object, Ghost(m3), "confidence", Json::Float("0.0".to_owned()));
    assert(m3.push(("confidence"@, JsonView::Float("0.0"@))) =~= seq![
        ("local_id"@, JsonView::Text("entity:<stable-local-name>"@)),
        ("name"@, JsonView::Text("<entity surface name>"@)),
        ("entity_type"@, JsonView::Text("<one registered entity type>"@)),
        ("confidence"@, JsonView::Float("0.0"@)),
    ]);
    object
}

/// A piece of evidence as an answer must state it.
pub open spec fn evidence_form() -> JsonView {
    graph_context::object_of(
        seq![
            ("text"@, JsonView::Text("<exact substring from record text>"@)),
            ("start_byte"@, JsonView::Null),
            ("end_byte"@, JsonView::Null),
        ],
    )
}

fn evidence_form_value() -> (r: Json)
    ensures
        r@ == evidence_form(),
{
    let mut object = Json::new_object();
    let ghost m0: Seq<(Seq<char>, JsonView)> = Seq::empty();
    put_member(&mut object, Ghost(m0), "text", text_json("<exact substring from record text>"));
    let ghost m1 = m0.push(("text"@, JsonView::Text("<exact substring from record text>"@)));
    put_member(&mut object, Ghost(m1), "start_byte", Json::Null);
    let ghost m2 = m1.push(("start_byte"@, JsonView::Null));
    put_member(&mut object, Ghost(m2), "end_byte", Json::Null);
    assert(m2.push(("end_byte"@, JsonView::Null)) =~= seq![
        ("text"@, JsonView::Text("<exact substring from record text>"@)),
        ("start_byte"@, JsonView::Null),
        ("end_byte"@, JsonView::Null),
    ]);
    object
}

/// A fact as an answer must state it.
pub open spec fn fact_form() -> JsonView {
    graph_context::object_of(
        seq![
            ("local_id"@, JsonView::Text("fact:<stable-local-name>"@)),
            ("subject_ref"@, JsonView::Text("<entity local_id>"@)),
            ("predicate"@, JsonView::Text("<one registered predicate>"@)),
            ("object_ref"@, JsonView::Text("<entity local_id>"@)),
            ("fact_text"@, JsonView::Text("<short grounded fact>"@)),
            ("evidence"@, JsonView::Array(seq![evidence_form()])),
            ("confidence"@, JsonView::Float("0.0"@)),
            ("temporal_expression"@, JsonView::Null),
        ],
    )
}

fn fact_form_value() -> (r: Json)
    ensures
        r@ == fact_form(),
{
    let mut object = Json::new_object();
    let ghost m0: Seq<(Seq<char>, JsonView)> = Seq::empty();
    put_member(&mut object, Ghost(m0), "local_id", text_json("fact:<stable-local-name>"));
    let ghost m1 = m0.push(("local_id"@, JsonView::Text("fact:<stable-local-name>"@)));
    put_member(&mut object, Ghost(m1), "subject_ref", text_json("<entity local_id>"));
    let ghost m2 = m1.push(("subject_ref"@, JsonView::Text("<entity local_id>"@)));
    put_member(&mut object, Ghost(m2), "predicate", text_json("<one registered predicate>"));
    let ghost m3 = m2.push(("predicate"@, JsonView::Text("<one registered predicate>"@)));
    put_member(&mut object, Ghost(m3), "object_ref", text_json("<entity local_id>"));
    let ghost m4 = m3.push(("object_ref"@, JsonView::Text("<entity local_id>"@)));
    put_member(&mut object, Ghost(m4), "fact_text", text_json("<short grounded fact>"));
    let ghost m5 = m4.push(("fact_text"@, JsonView::Text("<short grounded fact>"@)));
    put_member(&mut object, Ghost(m5), "evidence", only(evidence_form_value()));
    let ghost m6 = m5.push(("evidence"@, JsonView::Array(seq![evidence_form()])));
    put_member(&mut object, Ghost(m6), "confidence", Json::Float("0.0".to_owned()));
    let ghost m7 = m6.push(("confidence"@, JsonView::Float("0.0"@)));
    put_member(&mut object, Ghost(m7), "temporal_expression", Json::Null);
    assert(m7.push(("temporal_expression"@, JsonView::Null)) =~= seq![
        ("local_id"@, JsonView::Text("fact:<stable-local-name>"@)),
        ("subject_ref"@, JsonView::Text("<entity local_id>"@)),
        ("predicate"@, JsonView::Text("<one registered predicate>"@)),
        ("object_ref"@, JsonView::Text("<entity local_id>"@)),
        ("fact_text"@, JsonView::Text("<short grounded fact>"@)),
        ("evidence"@, JsonView::Array(seq![evidence_form()])),
        ("confidence"@, JsonView::Float("0.0"@)),
        ("temporal_expression"@, JsonView::Null),
    ]);
    object
}

/// The form that an answer must have, as it is shown to a model.
pub open spec fn answer_form() -> JsonView {
    graph_context::object_of(
        seq![
            ("entities"@, JsonView::Array(seq![entity_form()])),
            ("facts"@, JsonView::Array(seq![fact_form()])),
        ],
    )
}

fn answer_form_value() -> (r: Json)
    ensures
        r@ == answer_form(),
{
    let mut object = Json::new_object();
    let ghost m0: Seq<(Seq<char>, JsonView)> = Seq::empty();
    put_member(&mut object, Ghost(m0), "entities", only(entity_form_value()));
    let ghost m1 = m0.push(("entities"@, JsonView::Array(seq![entity_form()])));
    put_member(&mut object, Ghost(m1), "facts", only(fact_form_value()));
    assert(m1.push(("facts"@, JsonView::Array(seq![fact_form()]))) =~= seq![
        ("entities"@, JsonView::Array(seq![entity_form()])),
        ("facts"@, JsonView::Array(seq![fact_form()])),
    ]);
    object
}

/// What a model is told about relations without a name of their own.
pub open spec fn fallback_instruction(registry: RegistryView) -> Seq<char> {
    if graph_registry::predicate_named(registry.predicates, "RELATED_TO"@) is Some {
        "Use RELATED_TO when a grounded relationship does not fit a more specific predicate; do not invent predicate names."@
    } else {
        "Do not invent predicate names."@
    }
}

/// What a model is asked.
pub open spec fn extraction_prompt(i: GraphExtractionInput, registry: RegistryView) -> Seq<char> {
    "Use only the registered entity types and predicates. If an entity does not fit a registered type, use CONCEPT. Use GROUP for families, teams, clubs, classes, communities, and support groups when GROUP is registered. Prefer the most specific registered predicate. "@
        + fallback_instruction(registry)
        + " Every fact must be grounded by evidence from the record text. Every fact subject_ref and object_ref must exactly match a local_id in entities; omit the fact if either endpoint is missing or uncertain. Use source_context only to ground who spoke, when the record was observed, and which session/turn the text came from; do not create facts from metadata alone. If source_context.speaker is present, use that person as the subject for first-person statements such as I, me, my, mine, we, our, and us. Extract grounded relationships, preferences, plans, identities, roles, locations, and stable attributes. Also extract a concrete activity or event that the speaker attended, visited, completed, or participated in when the record states it; a concrete event does not need to be recurring or durable. Use ATTENDED, PARTICIPATED_IN, or VISITED when they fit. For every temporal fact, set temporal_expression to the exact substring in the record text that supports its time, or null when the text contains no temporal expression. Do not return valid_from_ms or valid_to_ms: numeric time resolution is performed later by a trusted component. Do not extract conversational bookkeeping or low-value interaction facts such as X mentioned Y, X is communicating with Y, X thanked Y, or X agreed with Y unless the text establishes a relationship, preference, plan, event participation, identity, role, location, or stable attribute. Do not extract self-loop facts. Use one predicate for a fact; do not duplicate the same fact under multiple predicates. Use complete canonical names when the text provides them instead of nicknames or abbreviations. Evidence text must be an exact substring from the record text. Evidence start_byte/end_byte are byte offsets in the UTF-8 record text, not character indexes; set them to null if you are not certain.\n\nType registry:\n"@
        + json::pretty_text(registry_json(registry))
        + "\n\nMemory record:\n"@
        + json::pretty_text(record_json(i))
        + "\n\nReturn JSON matching this shape. Omit a field only when it is optional. Empty entities/facts arrays are allowed when the record has no graph-relevant content.\n"@
        + json::pretty_text(answer_form())
}

/// The request that has a model extract the graph of a record.
pub fn build_graph_llm_request(input: &GraphExtractionInput, registry: &GraphTypeRegistry) -> (r:
    GraphLlmRequest)
    ensures
        r.messages@.len() == 2,
        r.messages@[0].role@ == "system"@,
        r.messages@[0].content@
            == "Extract graph memory candidates from one memory record. Return only one valid JSON object. Do not include Markdown or explanatory text."@,
        r.messages@[1].role@ == "user"@,
        r.messages@[1].content@ == extraction_prompt(*input, registry@),
        r.temperature_bits == 0,
        r.response_format_json,
{
    let mut content = "Use only the registered entity types and predicates. If an entity does not fit a registered type, use CONCEPT. Use GROUP for families, teams, clubs, classes, communities, and support groups when GROUP is registered. Prefer the most specific registered predicate. ".to_owned();
    if registry.predicate("RELATED_TO").is_some() {
        content.append(
            "Use RELATED_TO when a grounded relationship does not fit a more specific predicate; do not invent predicate names.",
        );
    } else {
        content.append("Do not invent predicate names.");
    }
    content.append(" Every fact must be grounded by evidence from the record text. Every fact subject_ref and object_ref must exactly match a local_id in entities; omit the fact if either endpoint is missing or uncertain. Use source_context only to ground who spoke, when the record was observed, and which session/turn the text came from; do not create facts from metadata alone. If source_context.speaker is present, use that person as the subject for first-person statements such as I, me, my, mine, we, our, and us. Extract grounded relationships, preferences, plans, identities, roles, locations, and stable attributes. Also extract a concrete activity or event that the speaker attended, visited, completed, or participated in when the record states it; a concrete event does not need to be recurring or durable. Use ATTENDED, PARTICIPATED_IN, or VISITED when they fit. For every temporal fact, set temporal_expression to the exact substring in the record text that supports its time, or null when the text contains no temporal expression. Do not return valid_from_ms or valid_to_ms: numeric time resolution is performed later by a trusted component. Do not extract conversational bookkeeping or low-value interaction facts such as X mentioned Y, X is communicating with Y, X thanked Y, or X agreed with Y unless the text establishes a relationship, preference, plan, event participation, identity, role, location, or stable attribute. Do not extract self-loop facts. Use one predicate for a fact; do not duplicate the same fact under multiple predicates. Use complete canonical names when the text provides them instead of nicknames or abbreviations. Evidence text must be an exact substring from the record text. Evidence start_byte/end_byte are byte offsets in the UTF-8 record text, not character indexes; set them to null if you are not certain.\n\nType registry:\n");
    let registry_text = registry_value(registry).serialize_pretty();
    content.append(registry_text.as_str());
    content.append("\n\nMemory record:\n");
    let record_text = record_value(input).serialize_pretty();
    content.append(record_text.as_str());
    content.append("\n\nReturn JSON matching this shape. Omit a field only when it is optional. Empty entities/facts arrays are allowed when the record has no graph-relevant content.\n");
    let form = answer_form_value().serialize_pretty();
    content.append(form.as_str());
    let messages: Vec<GraphLlmMessage> = vec![
        GraphLlmMessage {
            role: "system".to_owned(),
            content: "Extract graph memory candidates from one memory record. Return only one valid JSON object. Do not include Markdown or explanatory text.".to_owned(),
        },
        GraphLlmMessage { role: "user".to_owned(), content },
    ];
    GraphLlmRequest { messages, temperature_bits: 0, response_format_json: true }
}

/// The whole of the cleaning that an extraction goes through.
pub open spec fn cleaned(
    output: ExtractionView,
    record: Seq<char>,
    registry: RegistryView,
    input_tokens: Option<i64>,
    output_tokens: Option<i64>,
) -> ExtractionView {
    let typed = graph_clean::typed_entities(output.entities, registry.entity_types);
    let entities = graph_clean::deduplicated(typed, typed.len() as int);
    let facts = graph_clean::unambiguous_facts(
        graph_clean::repaired_facts(output.facts, record),
        typed,
    );
    let stored = graph_facts::materialized_facts(
        facts,
        graph_extraction::local_ids(entities),
        registry,
        record,
    );
    let telling = graph_facts::telling_facts(graph_facts::timeless_facts(stored, record));
    ExtractionView {
        entities,
        facts: graph_facts::distinct_facts(graph_facts::uniquified(telling)),
        input_tokens: if input_tokens is Some {
            input_tokens
        } else {
            output.input_tokens
        },
        output_tokens: if output_tokens is Some {
            output_tokens
        } else {
            output.output_tokens
        },
    }
}

/// Cleans what a model has extracted, and notes the tokens that it took.
pub fn clean_extraction(
    output: &mut GraphExtractionOutput,
    record_text: &str,
    registry: &GraphTypeRegistry,
    input_tokens: Option<i64>,
    output_tokens: Option<i64>,
)
    requires
        old(output).facts@.len() + 2 <= usize::MAX,
    ensures
        final(output)@ == cleaned(
            old(output)@,
            record_text@,
            registry@,
            input_tokens,
            output_tokens,
        ),
{
    let ghost n = output@.facts.len();
    repair_evidence_byte_offsets(output, record_text);
    normalize_llm_entity_types(output, registry);
    let ghost typed = output@.entities;
    let ghost repaired = output@.facts;
    deduplicate_entity_local_ids(output);
    proof {
        repaired.lemma_filter_len(
            |f: FactCandidateView|
                !graph_clean::is_ambiguous(typed, f.subject_ref) && !graph_clean::is_ambiguous(
                    typed,
                    f.object_ref,
                ),
        );
    }
    let ghost facts = output@.facts;
    drop_unmaterializable_facts(output, registry, record_text);
    proof {
        lemma_materialized_len(
            facts,
            graph_extraction::local_ids(output@.entities),
            registry@,
            record_text@,
        );
    }
    sanitize_llm_fact_times(output, record_text);
    let ghost timeless = output@.facts;
    drop_low_signal_facts(output);
    proof {
        timeless.lemma_filter_len(|f: FactCandidateView| !graph_facts::is_low_signal(f));
        assert(output.facts@.len() == output@.facts.len());
    }
    uniquify_fact_local_ids(output);
    deduplicate_semantic_facts(output);
    if input_tokens.is_some() {
        output.input_tokens = input_tokens;
    }
    if output_tokens.is_some() {
        output.output_tokens = output_tokens;
    }
}

proof fn lemma_materialized_len(
    facts: Seq<FactCandidateView>,
    ids: Seq<Seq<char>>,
    registry: RegistryView,
    record: Seq<char>,
)
    ensures
        graph_facts::materialized_facts(facts, ids, registry, record).len() <= facts.len(),
    decreases facts.len(),
{
    if facts.len() > 0 {
        lemma_materialized_len(facts.drop_last(), ids, registry, record);
    }
}

/// What can be stored of a fact: its entities are there, its predicate is
/// registered, it rests on evidence that points into the record, and it claims
/// no times.
pub open spec fn is_storable(
    f: FactCandidateView,
    entity_ids: Seq<Seq<char>>,
    registry: RegistryView,
    record: Seq<char>,
) -> bool {
    &&& entity_ids.contains(f.subject_ref)
    &&& entity_ids.contains(f.object_ref)
    &&& graph_registry::predicate_named(registry.predicates, f.predicate) is Some
    &&& f.evidence.len() > 0
    &&& forall|k: int|
        0 <= k < f.evidence.len() ==> graph_facts::is_grounded(#[trigger] f.evidence[k], record)
}

proof fn lemma_materialized_is_storable(
    facts: Seq<FactCandidateView>,
    ids: Seq<Seq<char>>,
    registry: RegistryView,
    record: Seq<char>,
    i: int,
)
    requires
        0 <= i < graph_facts::materialized_facts(facts, ids, registry, record).len(),
    ensures
        is_storable(
            graph_facts::materialized_facts(facts, ids, registry, record)[i],
            ids,
            registry,
            record,
        ),
    decreases facts.len(),
{
    let before = graph_facts::materialized_facts(facts.drop_last(), ids, registry, record);
    if i < before.len() {
        lemma_materialized_is_storable(facts.drop_last(), ids, registry, record, i);
    } else {
        let f = facts.last();
        let keep = |s: graph_extraction::SpanView| graph_facts::is_grounded(s, record);
        let kept = f.evidence.filter(keep);
        assert forall|k: int| 0 <= k < kept.len() implies graph_facts::is_grounded(
            #[trigger] kept[k],
            record,
        ) by {
            f.evidence.lemma_filter_pred(keep, k);
        }
    }
}

/// Whatever a model extracts, every fact that is left after the cleaning can be
/// stored: it relates two of the entities that are left by a registered
/// predicate, rests on evidence that points into the record, and is worth
/// keeping.
pub proof fn cleaned_facts_are_storable(
    output: ExtractionView,
    record: Seq<char>,
    registry: RegistryView,
    input_tokens: Option<i64>,
    output_tokens: Option<i64>,
    i: int,
)
    requires
        0 <= i < cleaned(output, record, registry, input_tokens, output_tokens).facts.len(),
    ensures
        ({
            let c = cleaned(output, record, registry, input_tokens, output_tokens);
            &&& is_storable(
                c.facts[i],
                graph_extraction::local_ids(c.entities),
                registry,
                record,
            )
            &&& c.facts[i].valid_from_ms is None
            &&& c.facts[i].valid_to_ms is None
            &&& c.facts[i].subject_ref != c.facts[i].object_ref
        }),
{
    let c = cleaned(output, record, registry, input_tokens, output_tokens);
    let ids = graph_extraction::local_ids(c.entities);
    let typed = graph_clean::typed_entities(output.entities, registry.entity_types);
    let facts = graph_clean::unambiguous_facts(
        graph_clean::repaired_facts(output.facts, record),
        typed,
    );
    let stored = graph_facts::materialized_facts(facts, ids, registry, record);
    let timeless = graph_facts::timeless_facts(stored, record);
    let telling = graph_facts::telling_facts(timeless);
    let unique = graph_facts::uniquified(telling);
    graph_facts::distinct_facts_differ(unique);
    let u = choose|u: int| 0 <= u < unique.len() && unique[u] == c.facts[i];
    let keep = |f: FactCandidateView| !graph_facts::is_low_signal(f);
    timeless.lemma_filter_pred(keep, u);
    assert(telling.contains(telling[u]));
    timeless.lemma_filter_contains_rev(keep, telling[u]);
    let t = choose|t: int| 0 <= t < timeless.len() && timeless[t] == telling[u];
    lemma_materialized_is_storable(facts, ids, registry, record, t);
    assert(timeless[t] == graph_facts::timeless(stored[t], record));
    assert(unique[u].evidence == stored[t].evidence);
}

/// Whatever a model extracts, no two facts that are left say the same of the
/// same entities.
pub proof fn cleaned_facts_differ(
    output: ExtractionView,
    record: Seq<char>,
    registry: RegistryView,
    input_tokens: Option<i64>,
    output_tokens: Option<i64>,
    i: int,
    j: int,
)
    requires
        0 <= i < j < cleaned(output, record, registry, input_tokens, output_tokens).facts.len(),
    ensures
        !graph_facts::says_the_same(
            cleaned(output, record, registry, input_tokens, output_tokens).facts[i],
            cleaned(output, record, registry, input_tokens, output_tokens).facts[j],
        ),
{
    let typed = graph_clean::typed_entities(output.entities, registry.entity_types);
    let entities = graph_clean::deduplicated(typed, typed.len() as int);
    let facts = graph_clean::unambiguous_facts(
        graph_clean::repaired_facts(output.facts, record),
        typed,
    );
    let stored = graph_facts::materialized_facts(
        facts,
        graph_extraction::local_ids(entities),
        registry,
        record,
    );
    let telling = graph_facts::telling_facts(graph_facts::timeless_facts(stored, record));
    graph_facts::distinct_facts_differ(graph_facts::uniquified(telling));
}

} // verus!
