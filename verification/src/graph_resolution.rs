//! How an extraction is published into the graph: which entities and facts are
//! found again, which are new, and what is stored about the choice.

use vstd::prelude::*;
use vstd::string::*;

use crate::api::GraphAddMemoryResponse;
use crate::error;
use crate::error::{MemoryError, MemoryErrorView};
use crate::graph_extraction;
use crate::graph_extraction::{
    EntityCandidateView, ExtractedFactCandidate, ExtractionView, FactCandidateView,
    GraphExtractionOutput,
};
use crate::graph_registry::{GraphTypeRegistry, RegistryView};
use crate::graph_runs::IngestionRun;
use crate::graph_stages::{
    ExtractionRun, StageFailure, GRAPH_RESOLVER_VERSION, RESOLUTION_FAILED_ERROR_CODE,
    RESOLUTION_STORE_FAILED_ERROR_CODE,
};
use crate::json;
use crate::json::{Json, JsonView};
use crate::text;
use crate::text::{holds_text, text_eq, trim, upper_ascii};

verus! {

/// Whom or what a record comes from.
#[derive(Debug)]
pub struct GraphSourceEntity {
    pub name: String,
    pub entity_type: String,
}

/// What a [`GraphSourceEntity`] stands for.
pub struct SourceEntityView {
    pub name: Seq<char>,
    pub entity_type: Seq<char>,
}

impl View for GraphSourceEntity {
    type V = SourceEntityView;

    open spec fn view(&self) -> SourceEntityView {
        SourceEntityView { name: self.name@, entity_type: self.entity_type@ }
    }
}

/// The text under a key without the space around it, if any is left.
pub open spec fn filled_text_under(v: JsonView, key: Seq<char>) -> Option<Seq<char>> {
    match json::json_get_text(v, key) {
        Some(t) => if text::is_blank(t) {
            None
        } else {
            Some(text::trimmed(t))
        },
        None => None,
    }
}

/// The source entity that the metadata of a record names. Its type is written
/// in capitals and must be registered.
pub open spec fn source_entity_of(metadata: JsonView, registry: RegistryView) -> Result<
    Option<SourceEntityView>,
    MemoryErrorView,
> {
    match json::json_get(metadata, "graph_source_entity"@) {
        None => Ok(None),
        Some(v) => if !(v is Object) {
            Err(
                MemoryErrorView::InvalidInput(
                    "graph_source_entity metadata must be an object"@,
                ),
            )
        } else {
            match filled_text_under(v, "name"@) {
                None => Err(
                    MemoryErrorView::InvalidInput(
                        "graph_source_entity.name must be a non-empty string"@,
                    ),
                ),
                Some(name) => match filled_text_under(v, "entity_type"@) {
                    None => Err(
                        MemoryErrorView::InvalidInput(
                            "graph_source_entity.entity_type must be a non-empty string"@,
                        ),
                    ),
                    Some(t) => {
                        let entity_type = text::ascii_upper_text(t);
                        if registry.entity_types.contains(entity_type) {
                            Ok(Some(SourceEntityView { name, entity_type }))
                        } else {
                            Err(
                                MemoryErrorView::InvalidInput(
                                    "graph_source_entity.entity_type `"@ + entity_type
                                        + "` is not registered"@,
                                ),
                            )
                        }
                    },
                },
            }
        },
    }
}

fn filled_text<'a>(v: &'a Json, key: &str) -> (r: Option<&'a str>)
    ensures
        json::opt_text(r) == filled_text_under(v@, key@),
{
    match v.get_str(key) {
        Some(t) => {
            let t = trim(t);
            if t.is_empty() {
                None
            } else {
                Some(t)
            }
        },
        None => None,
    }
}

/// The source entity that the metadata of a record names.
pub fn source_entity_from_metadata(metadata: &Json, registry: &GraphTypeRegistry) -> (r: Result<
    Option<GraphSourceEntity>,
    MemoryError,
>)
    ensures
        match r {
            Ok(found) => source_entity_of(metadata@, registry@) == Ok::<_, MemoryErrorView>(
                match found {
                    Some(e) => Some(e@),
                    None => None,
                },
            ),
            Err(e) => source_entity_of(metadata@, registry@) == Err::<
                Option<SourceEntityView>,
                _,
            >(e@),
        },
{
    let value = match metadata.get("graph_source_entity") {
        Some(value) => value,
        None => return Ok(None),
    };
    if !value.is_object() {
        return Err(
            MemoryError::invalid_input("graph_source_entity metadata must be an object"),
        );
    }
    let name = match filled_text(value, "name") {
        Some(name) => name,
        None => return Err(
            MemoryError::invalid_input("graph_source_entity.name must be a non-empty string"),
        ),
    };
    let entity_type = match filled_text(value, "entity_type") {
        Some(t) => upper_ascii(t),
        None => return Err(
            MemoryError::invalid_input(
                "graph_source_entity.entity_type must be a non-empty string",
            ),
        ),
    };
    if !holds_text(&registry.entity_types, entity_type.as_str()) {
        let mut message = "graph_source_entity.entity_type `".to_owned();
        message.append(entity_type.as_str());
        message.append("` is not registered");
        return Err(MemoryError::InvalidInput { message });
    }
    Ok(Some(GraphSourceEntity { name: name.to_owned(), entity_type }))
}

/// A run that is claimed for resolution.
#[derive(Debug)]
pub struct ClaimedResolutionRun {
    pub ingestion_run_id: String,
    pub memory_space_id: String,
    pub memory_record_id: String,
    pub text: String,
    pub metadata: Json,
    pub attempt_count: i64,
    pub extraction_run_id: String,
    pub extraction_output: GraphExtractionOutput,
}

/// What is to be published.
#[derive(Debug)]
pub struct ResolutionPublishRequest {
    pub ingestion_run_id: String,
    pub memory_space_id: String,
    pub memory_record_id: String,
    pub extraction_run_id: String,
    pub attempt_count: i64,
    pub extraction_output: GraphExtractionOutput,
    pub source_entity: Option<GraphSourceEntity>,
    pub type_registry_version: String,
    pub resolver_version: String,
}

/// Whether a failure is that of an attempt to resolve.
pub open spec fn is_resolution_failure(
    f: StageFailure,
    run_id: Seq<char>,
    attempt: i64,
    code: Seq<char>,
    e: MemoryErrorView,
) -> bool {
    &&& f.ingestion_run_id@ == run_id
    &&& f.attempt_count == attempt
    &&& f.stage@ == "resolving"@
    &&& f.error_code@ == code
    &&& f.error_message@ == error::error_sentence(e)
}

fn resolution_failure(run_id: &str, attempt_count: i64, code: &str, error: &MemoryError) -> (r:
    StageFailure)
    ensures
        is_resolution_failure(r, run_id@, attempt_count, code@, error@),
{
    StageFailure {
        ingestion_run_id: run_id.to_owned(),
        attempt_count,
        stage: "resolving".to_owned(),
        error_code: code.to_owned(),
        error_message: error.to_text(),
    }
}

/// What is to be done with a run that is claimed for resolution.
#[derive(Debug)]
pub enum ResolutionStep {
    /// Mark the failure, and report the error whether or not it could be
    /// marked.
    Fail { failure: StageFailure, error: MemoryError },
    /// Publish the extraction.
    Publish(ResolutionPublishRequest),
}

/// What is wrong with a run that is claimed for resolution.
pub open spec fn resolution_problem(
    output: ExtractionView,
    record: Seq<char>,
    metadata: JsonView,
    registry: RegistryView,
) -> Option<MemoryErrorView> {
    match graph_extraction::extraction_problem(output, record, registry) {
        Some(e) => Some(e),
        None => match source_entity_of(metadata, registry) {
            Err(e) => Some(e),
            Ok(_) => None,
        },
    }
}

/// Goes on from a claim: an extraction that is still sound is published, with
/// the source entity of its record.
pub fn after_resolution_claim(claim: ClaimedResolutionRun, registry: &GraphTypeRegistry) -> (r:
    ResolutionStep)
    ensures
        match r {
            ResolutionStep::Fail { failure, error } => {
                &&& resolution_problem(
                    claim.extraction_output@,
                    claim.text@,
                    claim.metadata@,
                    registry@,
                ) == Some(error@)
                &&& is_resolution_failure(
                    failure,
                    claim.ingestion_run_id@,
                    claim.attempt_count,
                    RESOLUTION_FAILED_ERROR_CODE@,
                    error@,
                )
            },
            ResolutionStep::Publish(request) => {
                &&& resolution_problem(
                    claim.extraction_output@,
                    claim.text@,
                    claim.metadata@,
                    registry@,
                ) is None
                &&& request.ingestion_run_id@ == claim.ingestion_run_id@
                &&& request.memory_space_id@ == claim.memory_space_id@
                &&& request.memory_record_id@ == claim.memory_record_id@
                &&& request.extraction_run_id@ == claim.extraction_run_id@
                &&& request.attempt_count == claim.attempt_count
                &&& request.extraction_output@ == claim.extraction_output@
                &&& source_entity_of(claim.metadata@, registry@) == Ok::<_, MemoryErrorView>(
                    match request.source_entity {
                        Some(e) => Some(e@),
                        None => None,
                    },
                )
                &&& request.type_registry_version@ == registry.version@
                &&& request.resolver_version@ == GRAPH_RESOLVER_VERSION@
            },
        },
{
    match claim.extraction_output.validate_against_record(claim.text.as_str(), registry) {
        Ok(_) => {},
        Err(error) => {
            let failure = resolution_failure(
                claim.ingestion_run_id.as_str(),
                claim.attempt_count,
                RESOLUTION_FAILED_ERROR_CODE,
                &error,
            );
            return ResolutionStep::Fail { failure, error };
        },
    }
    let source_entity = match source_entity_from_metadata(&claim.metadata, registry) {
        Ok(found) => found,
        Err(error) => {
            let failure = resolution_failure(
                claim.ingestion_run_id.as_str(),
                claim.attempt_count,
                RESOLUTION_FAILED_ERROR_CODE,
                &error,
            );
            return ResolutionStep::Fail { failure, error };
        },
    };
    ResolutionStep::Publish(
        ResolutionPublishRequest {
            ingestion_run_id: claim.ingestion_run_id,
            memory_space_id: claim.memory_space_id,
            memory_record_id: claim.memory_record_id,
            extraction_run_id: claim.extraction_run_id,
            attempt_count: claim.attempt_count,
            extraction_output: claim.extraction_output,
            source_entity,
            type_registry_version: registry.version.clone(),
            resolver_version: GRAPH_RESOLVER_VERSION.to_owned(),
        },
    )
}

/// The failure that is marked where an extraction could not be published.
pub fn after_failed_publish(run_id: &str, attempt_count: i64, error: &MemoryError) -> (r:
    StageFailure)
    ensures
        is_resolution_failure(
            r,
            run_id@,
            attempt_count,
            RESOLUTION_STORE_FAILED_ERROR_CODE@,
            error@,
        ),
{
    resolution_failure(run_id, attempt_count, RESOLUTION_STORE_FAILED_ERROR_CODE, error)
}

/// The entity or the fact that a candidate stands for, and whether it is new.
#[derive(Debug)]
pub struct Resolved {
    pub id: String,
    pub created: bool,
}

/// What an entity candidate stands for, given the active entity of its type
/// that bears its normalized name, the active entities of its type that it is
/// an alias of, and an identifier for a new one. An alias counts only where it
/// names one entity.
pub fn resolve_entity(by_name: Option<String>, by_alias: &Vec<String>, new_id: &str) -> (r:
    Resolved)
    ensures
        match by_name {
            Some(id) => r.id@ == id@ && !r.created,
            None => if by_alias@.len() == 1 {
                r.id@ == by_alias@[0]@ && !r.created
            } else {
                r.id@ == new_id@ && r.created
            },
        },
{
    match by_name {
        Some(id) => Resolved { id, created: false },
        None => if by_alias.len() == 1 {
            Resolved { id: by_alias[0].clone(), created: false }
        } else {
            Resolved { id: new_id.to_owned(), created: true }
        },
    }
}

/// What a fact candidate stands for, given the active fact under its key and an
/// identifier for a new one.
pub fn resolve_fact(by_key: Option<String>, new_id: &str) -> (r: Resolved)
    ensures
        match by_key {
            Some(id) => r.id@ == id@ && !r.created,
            None => r.id@ == new_id@ && r.created,
        },
{
    match by_key {
        Some(id) => Resolved { id, created: false },
        None => Resolved { id: new_id.to_owned(), created: true },
    }
}

/// A choice that is stored for later.
#[derive(Debug)]
pub struct ResolutionDecision {
    pub decision_kind: String,
    pub input_key: String,
    pub candidate_ids_json: String,
    pub selected_id: String,
    pub action: String,
    pub method: String,
}

/// `serde_json::to_string` on a list of texts. It is the JSON text of the array
/// of these texts, without spaces; a list of texts can always be written.
#[verifier::external_body]
pub(crate) fn text_list_string(items: &Vec<String>) -> (r: String)
    ensures
        r@ == json::list_text(text::strings(items@)),
{
    serde_json::to_string(items).expect("texts serialize to JSON")
}

/// The choice that was made for a candidate. What was found again was the only
/// candidate.
pub fn resolution_decision(kind: &str, local_id: &str, resolved: &Resolved) -> (r:
    ResolutionDecision)
    ensures
        r.decision_kind@ == kind@,
        r.input_key@ == local_id@,
        r.candidate_ids_json@ == json::list_text(
            if resolved.created {
                Seq::empty()
            } else {
                seq![resolved.id@]
            },
        ),
        r.selected_id@ == resolved.id@,
        r.action@ == (if resolved.created {
            "create"@
        } else {
            "reuse"@
        }),
        r.method@ == "deterministic"@,
{
    let mut candidates: Vec<String> = Vec::new();
    if !resolved.created {
        candidates.push(resolved.id.clone());
        assert(text::strings(candidates@) =~= seq![resolved.id@]);
    } else {
        assert(text::strings(candidates@) =~= Seq::<Seq<char>>::empty());
    }
    ResolutionDecision {
        decision_kind: kind.to_owned(),
        input_key: local_id.to_owned(),
        candidate_ids_json: text_list_string(&candidates),
        selected_id: resolved.id.clone(),
        action: if resolved.created {
            "create".to_owned()
        } else {
            "reuse".to_owned()
        },
        method: "deterministic".to_owned(),
    }
}

/// The key that two candidates for the same fact share.
pub open spec fn dedup_key(
    subject: Seq<char>,
    predicate: Seq<char>,
    object: Seq<char>,
    normalized_text: Seq<char>,
) -> Seq<char> {
    json::list_text(seq![subject, predicate, object, normalized_text])
}

/// The key that two candidates for the same fact share.
pub fn fact_dedup_key(
    subject_entity_id: &str,
    predicate: &str,
    object_entity_id: &str,
    normalized_fact_text: &str,
) -> (r: String)
    ensures
        r@ == dedup_key(
            subject_entity_id@,
            predicate@,
            object_entity_id@,
            normalized_fact_text@,
        ),
{
    let mut parts: Vec<String> = Vec::new();
    parts.push(subject_entity_id.to_owned());
    parts.push(predicate.to_owned());
    parts.push(object_entity_id.to_owned());
    parts.push(normalized_fact_text.to_owned());
    assert(text::strings(parts@) =~= seq![
        subject_entity_id@,
        predicate@,
        object_entity_id@,
        normalized_fact_text@,
    ]);
    text_list_string(&parts)
}

proof fn lemma_hex_digits_differ(a: int, b: int)
    requires
        0 <= a < 16,
        0 <= b < 16,
        json::hex_digit(a) == json::hex_digit(b),
    ensures
        a == b,
{
}

/// An escaped character can be told from what follows it.
proof fn lemma_escape_is_prefix_free(a: char, u: Seq<char>, b: char, v: Seq<char>)
    requires
        json::escaped_char(a) + u == json::escaped_char(b) + v,
    ensures
        a == b,
        u == v,
{
    let t = json::escaped_char(a) + u;
    let ea = json::escaped_char(a);
    let eb = json::escaped_char(b);
    assert(t[0] == ea[0] && t[0] == eb[0]);
    if ea.len() > 1 {
        assert(t[1] == ea[1]);
    }
    if eb.len() > 1 {
        assert(t[1] == eb[1]);
    }
    if ea.len() == 6 && eb.len() == 6 {
        assert(t[4] == ea[4] && t[4] == eb[4]);
        assert(t[5] == ea[5] && t[5] == eb[5]);
        lemma_hex_digits_differ(a as int / 16, b as int / 16);
        lemma_hex_digits_differ(a as int % 16, b as int % 16);
    }
    assert(a == b);
    assert(u =~= t.skip(ea.len() as int));
    assert(v =~= t.skip(eb.len() as int));
}

proof fn lemma_escaped_front(s: Seq<char>)
    requires
        s.len() > 0,
    ensures
        json::escaped_text(s) == json::escaped_char(s[0]) + json::escaped_text(s.drop_first()),
    decreases s.len(),
{
    if s.len() == 1 {
        assert(s.drop_last() =~= Seq::<char>::empty());
        assert(s.drop_first() =~= Seq::<char>::empty());
        assert(json::escaped_text(s.drop_last()) =~= Seq::<char>::empty());
        assert(json::escaped_text(s) =~= json::escaped_char(s[0]));
        assert(json::escaped_text(s.drop_first()) =~= Seq::<char>::empty());
    } else {
        lemma_escaped_front(s.drop_last());
        assert(s.drop_last().drop_first() =~= s.drop_first().drop_last());
        assert(s.drop_last()[0] == s[0]);
        assert(s.drop_first().last() == s.last());
        assert(json::escaped_text(s) =~= json::escaped_char(s[0]) + json::escaped_text(
            s.drop_first(),
        ));
    }
}

/// A quoted text ends at its closing quote.
proof fn lemma_quoted_is_prefix_free(a: Seq<char>, u: Seq<char>, b: Seq<char>, v: Seq<char>)
    requires
        json::escaped_text(a) + seq!['"'] + u == json::escaped_text(b) + seq!['"'] + v,
    ensures
        a == b,
        u == v,
    decreases a.len(),
{
    let t = json::escaped_text(a) + seq!['"'] + u;
    if a.len() == 0 {
        assert(t[0] == '"');
        if b.len() > 0 {
            lemma_escaped_front(b);
            assert(t[0] == json::escaped_char(b[0])[0]);
            assert(false);
        }
        assert(a =~= b);
        assert(u =~= t.skip(1));
        assert(v =~= t.skip(1));
    } else if b.len() == 0 {
        lemma_escaped_front(a);
        assert(t =~= json::escaped_text(b) + seq!['"'] + v);
        assert(t[0] == '"');
        assert(t[0] == json::escaped_char(a[0])[0]);
        assert(false);
    } else {
        lemma_escaped_front(a);
        lemma_escaped_front(b);
        let ua = json::escaped_text(a.drop_first()) + seq!['"'] + u;
        let vb = json::escaped_text(b.drop_first()) + seq!['"'] + v;
        assert(t =~= json::escaped_char(a[0]) + ua);
        assert(t =~= json::escaped_char(b[0]) + vb);
        lemma_escape_is_prefix_free(a[0], ua, b[0], vb);
        lemma_quoted_is_prefix_free(a.drop_first(), u, b.drop_first(), v);
        assert(a =~= seq![a[0]] + a.drop_first());
        assert(b =~= seq![b[0]] + b.drop_first());
    }
}

spec fn key_tail(s: Seq<char>, rest: Seq<char>) -> Seq<char> {
    json::escaped_text(s) + seq!['"'] + rest
}

proof fn lemma_quoted_list_grows(items: Seq<Seq<char>>, item: Seq<char>)
    requires
        items.len() > 0,
    ensures
        json::quoted_list(items.push(item)) == json::quoted_list(items).push(',')
            + json::quoted_text(item),
        items.len() == 1 ==> json::quoted_list(items) == json::quoted_text(items[0]),
{
    assert(items.push(item).drop_last() =~= items);
}

proof fn lemma_list_shape(
    q: Seq<char>,
    a: Seq<char>,
    b: Seq<char>,
    c: Seq<char>,
    d: Seq<char>,
)
    requires
        q == ((((seq!['"'] + a).push('"').push(',') + (seq!['"'] + b).push('"')).push(',') + (
        seq!['"'] + c).push('"')).push(',') + (seq!['"'] + d).push('"')),
    ensures
        (seq!['['] + q).push(']') == seq!['[', '"'] + (a + seq!['"'] + (seq![',', '"'] + (b
            + seq!['"'] + (seq![',', '"'] + (c + seq!['"'] + (seq![',', '"'] + (d + seq!['"']
            + seq![']']))))))),
{
    let d4 = seq![',', '"'] + (d + seq!['"'] + seq![']']);
    let c3 = seq![',', '"'] + (c + seq!['"'] + d4);
    let b2 = seq![',', '"'] + (b + seq!['"'] + c3);
    let f3 = (((seq!['"'] + a).push('"').push(',') + (seq!['"'] + b).push('"')).push(',') + (
    seq!['"'] + c).push('"'));
    let f2 = ((seq!['"'] + a).push('"').push(',') + (seq!['"'] + b).push('"'));
    let f1 = (seq!['"'] + a).push('"');
    assert((seq!['['] + q).push(']') =~= seq!['['] + (f3 + d4));
    assert(f3 + d4 =~= f2 + c3);
    assert(f2 + c3 =~= f1 + b2);
    assert(seq!['['] + (f1 + b2) =~= seq!['[', '"'] + (a + seq!['"'] + b2));
}

proof fn lemma_key_shape(a: Seq<char>, b: Seq<char>, c: Seq<char>, d: Seq<char>)
    ensures
        dedup_key(a, b, c, d) == seq!['[', '"'] + key_tail(
            a,
            seq![',', '"'] + key_tail(
                b,
                seq![',', '"'] + key_tail(c, seq![',', '"'] + key_tail(d, seq![']'])),
            ),
        ),
{
    lemma_quoted_list_grows(seq![a], b);
    lemma_quoted_list_grows(seq![a, b], c);
    lemma_quoted_list_grows(seq![a, b, c], d);
    let q = json::quoted_list(seq![a, b, c, d]);
    assert(seq![a].push(b) =~= seq![a, b]);
    assert(seq![a, b].push(c) =~= seq![a, b, c]);
    assert(seq![a, b, c].push(d) =~= seq![a, b, c, d]);
    let (ea, eb, ec, ed) = (
        json::escaped_text(a),
        json::escaped_text(b),
        json::escaped_text(c),
        json::escaped_text(d),
    );
    lemma_list_shape(q, ea, eb, ec, ed);
}

/// Keys do not collide, whatever the texts hold: two candidates that share a
/// key agree in the subject, the predicate, the object and the text.
pub proof fn dedup_keys_do_not_collide(
    a: Seq<char>,
    b: Seq<char>,
    c: Seq<char>,
    d: Seq<char>,
    w: Seq<char>,
    x: Seq<char>,
    y: Seq<char>,
    z: Seq<char>,
)
    requires
        dedup_key(a, b, c, d) == dedup_key(w, x, y, z),
    ensures
        a == w,
        b == x,
        c == y,
        d == z,
{
    lemma_key_shape(a, b, c, d);
    lemma_key_shape(w, x, y, z);
    let d4 = seq![',', '"'] + key_tail(d, seq![']']);
    let c3 = seq![',', '"'] + key_tail(c, d4);
    let b2 = seq![',', '"'] + key_tail(b, c3);
    let z4 = seq![',', '"'] + key_tail(z, seq![']']);
    let y3 = seq![',', '"'] + key_tail(y, z4);
    let x2 = seq![',', '"'] + key_tail(x, y3);
    let key = dedup_key(a, b, c, d);
    assert(key_tail(a, b2) =~= key.skip(2));
    assert(key_tail(w, x2) =~= key.skip(2));
    lemma_quoted_is_prefix_free(a, b2, w, x2);
    assert(key_tail(b, c3) =~= b2.skip(2));
    assert(key_tail(x, y3) =~= x2.skip(2));
    lemma_quoted_is_prefix_free(b, c3, x, y3);
    assert(key_tail(c, d4) =~= c3.skip(2));
    assert(key_tail(y, z4) =~= y3.skip(2));
    lemma_quoted_is_prefix_free(c, d4, y, z4);
    assert(key_tail(d, seq![']']) =~= d4.skip(2));
    assert(key_tail(z, seq![']']) =~= z4.skip(2));
    lemma_quoted_is_prefix_free(d, seq![']'], z, seq![']']);
}

/// The entity that a reference of an extraction stands for, given what its
/// candidates stand for. The last candidate with the id counts.
pub open spec fn referenced_entity(
    entities: Seq<EntityCandidateView>,
    resolved: Seq<Seq<char>>,
    reference: Seq<char>,
) -> Option<Seq<char>>
    decreases entities.len(),
{
    if entities.len() == 0 {
        None
    } else if entities.last().local_id == reference {
        Some(resolved[entities.len() - 1])
    } else {
        referenced_entity(entities.drop_last(), resolved, reference)
    }
}

/// The subject and the object of each fact.
pub open spec fn endpoints_of(
    facts: Seq<FactCandidateView>,
    entities: Seq<EntityCandidateView>,
    resolved: Seq<Seq<char>>,
) -> Result<Seq<(Seq<char>, Seq<char>)>, MemoryErrorView>
    decreases facts.len(),
{
    if facts.len() == 0 {
        Ok(Seq::empty())
    } else {
        match endpoints_of(facts.drop_last(), entities, resolved) {
            Err(e) => Err(e),
            Ok(earlier) => {
                let f = facts.last();
                match (
                    referenced_entity(entities, resolved, f.subject_ref),
                    referenced_entity(entities, resolved, f.object_ref),
                ) {
                    (None, _) => Err(
                        MemoryErrorView::StoreBackend(
                            "resolved subject entity missing for fact '"@ + f.local_id + "'"@,
                        ),
                    ),
                    (_, None) => Err(
                        MemoryErrorView::StoreBackend(
                            "resolved object entity missing for fact '"@ + f.local_id + "'"@,
                        ),
                    ),
                    (Some(subject), Some(object)) => Ok(earlier.push((subject, object))),
                }
            },
        }
    }
}

pub open spec fn resolved_ids(v: Seq<Resolved>) -> Seq<Seq<char>> {
    Seq::new(v.len(), |i: int| v[i].id@)
}

/// The subject and the object of a fact, by their identifiers.
#[derive(Debug)]
pub struct FactEndpoints {
    pub subject_entity_id: String,
    pub object_entity_id: String,
}

pub open spec fn endpoint_views(v: Seq<FactEndpoints>) -> Seq<(Seq<char>, Seq<char>)> {
    Seq::new(v.len(), |i: int| (v[i].subject_entity_id@, v[i].object_entity_id@))
}

fn find_referenced<'a>(
    output: &GraphExtractionOutput,
    resolved: &'a Vec<Resolved>,
    reference: &str,
) -> (r: Option<&'a str>)
    requires
        resolved@.len() == output.entities@.len(),
    ensures
        json::opt_text(r) == referenced_entity(
            output@.entities,
            resolved_ids(resolved@),
            reference@,
        ),
{
    let ghost es = output@.entities;
    let ghost ids = resolved_ids(resolved@);
    let mut i: usize = output.entities.len();
    assert(es.take(i as int) =~= es);
    while i > 0
        invariant
            i <= es.len(),
            es == output@.entities,
            ids == resolved_ids(resolved@),
            resolved@.len() == output.entities@.len(),
            referenced_entity(es, ids, reference@) == referenced_entity(
                es.take(i as int),
                ids,
                reference@,
            ),
        decreases i,
    {
        i -= 1;
        proof {
            assert(es.take(i + 1).drop_last() =~= es.take(i as int));
            assert(es.take(i + 1).last() == output.entities@[i as int]@);
        }
        if text_eq(output.entities[i].local_id.as_str(), reference) {
            return Some(resolved[i].id.as_str());
        }
    }
    None
}

proof fn lemma_endpoints_error_stays(
    facts: Seq<FactCandidateView>,
    entities: Seq<EntityCandidateView>,
    resolved: Seq<Seq<char>>,
    n: int,
)
    requires
        0 <= n <= facts.len(),
        endpoints_of(facts.take(n), entities, resolved) is Err,
    ensures
        endpoints_of(facts, entities, resolved) == endpoints_of(
            facts.take(n),
            entities,
            resolved,
        ),
    decreases facts.len() - n,
{
    if n < facts.len() {
        assert(facts.take(n + 1).drop_last() =~= facts.take(n));
        lemma_endpoints_error_stays(facts, entities, resolved, n + 1);
    } else {
        assert(facts.take(n) =~= facts);
    }
}

/// The subject and the object of each fact of an extraction, given what its
/// entity candidates stand for.
pub fn fact_endpoints(output: &GraphExtractionOutput, resolved: &Vec<Resolved>) -> (r: Result<
    Vec<FactEndpoints>,
    MemoryError,
>)
    requires
        resolved@.len() == output.entities@.len(),
    ensures
        match r {
            Ok(v) => endpoints_of(output@.facts, output@.entities, resolved_ids(resolved@))
                == Ok::<_, MemoryErrorView>(endpoint_views(v@)),
            Err(e) => endpoints_of(output@.facts, output@.entities, resolved_ids(resolved@))
                == Err::<Seq<(Seq<char>, Seq<char>)>, _>(e@),
        },
{
    let ghost fs = output@.facts;
    let ghost es = output@.entities;
    let ghost ids = resolved_ids(resolved@);
    let mut r: Vec<FactEndpoints> = Vec::new();
    let mut i: usize = 0;
    assert(endpoint_views(r@) =~= Seq::<(Seq<char>, Seq<char>)>::empty());
    while i < output.facts.len()
        invariant
            i <= fs.len(),
            fs == output@.facts,
            es == output@.entities,
            ids == resolved_ids(resolved@),
            resolved@.len() == output.entities@.len(),
            endpoints_of(fs.take(i as int), es, ids) == Ok::<_, MemoryErrorView>(
                endpoint_views(r@),
            ),
        decreases fs.len() - i,
    {
        let fact = &output.facts[i];
        proof {
            assert(fs.take(i + 1).drop_last() =~= fs.take(i as int));
            assert(fs.take(i + 1).last() == fact@);
        }
        let subject = match find_referenced(output, resolved, fact.subject_ref.as_str()) {
            Some(id) => id,
            None => {
                proof {
                    lemma_endpoints_error_stays(fs, es, ids, i + 1);
                }
                let mut message = "resolved subject entity missing for fact '".to_owned();
                message.append(fact.local_id.as_str());
                message.append("'");
                return Err(MemoryError::StoreBackend { message });
            },
        };
        let object = match find_referenced(output, resolved, fact.object_ref.as_str()) {
            Some(id) => id,
            None => {
                proof {
                    lemma_endpoints_error_stays(fs, es, ids, i + 1);
                }
                let mut message = "resolved object entity missing for fact '".to_owned();
                message.append(fact.local_id.as_str());
                message.append("'");
                return Err(MemoryError::StoreBackend { message });
            },
        };
        let ghost before = r@;
        r.push(
            FactEndpoints {
                subject_entity_id: subject.to_owned(),
                object_entity_id: object.to_owned(),
            },
        );
        assert(endpoint_views(r@) =~= endpoint_views(before).push((subject@, object@)));
        i += 1;
    }
    assert(fs.take(i as int) =~= fs);
    Ok(r)
}

proof fn lemma_reference_is_found(
    entities: Seq<EntityCandidateView>,
    resolved: Seq<Seq<char>>,
    reference: Seq<char>,
)
    requires
        graph_extraction::local_ids(entities).contains(reference),
    ensures
        referenced_entity(entities, resolved, reference) is Some,
    decreases entities.len(),
{
    let ids = graph_extraction::local_ids(entities);
    let i = choose|i: int| 0 <= i < ids.len() && ids[i] == reference;
    if entities.last().local_id != reference {
        assert(graph_extraction::local_ids(entities.drop_last())[i] == reference);
        lemma_reference_is_found(entities.drop_last(), resolved, reference);
    }
}

proof fn lemma_endpoints_are_found(
    facts: Seq<FactCandidateView>,
    entities: Seq<EntityCandidateView>,
    resolved: Seq<Seq<char>>,
)
    requires
        forall|i: int|
            0 <= i < facts.len() ==> graph_extraction::local_ids(entities).contains(
                (#[trigger] facts[i]).subject_ref,
            ) && graph_extraction::local_ids(entities).contains(facts[i].object_ref),
    ensures
        endpoints_of(facts, entities, resolved) is Ok,
        endpoints_of(facts, entities, resolved)->Ok_0.len() == facts.len(),
    decreases facts.len(),
{
    if facts.len() > 0 {
        assert forall|i: int| 0 <= i < facts.drop_last().len() implies
            graph_extraction::local_ids(entities).contains(
            (#[trigger] facts.drop_last()[i]).subject_ref,
        ) && graph_extraction::local_ids(entities).contains(facts.drop_last()[i].object_ref) by {
            assert(facts.drop_last()[i] == facts[i]);
        }
        lemma_endpoints_are_found(facts.drop_last(), entities, resolved);
        assert(facts.last() == facts[facts.len() - 1]);
        lemma_reference_is_found(entities, resolved, facts.last().subject_ref);
        lemma_reference_is_found(entities, resolved, facts.last().object_ref);
    }
}

/// A sound extraction can be published: whatever its entities stand for, both
/// ends of each of its facts are found.
pub proof fn sound_extractions_can_be_published(
    output: ExtractionView,
    record: Seq<char>,
    registry: RegistryView,
    resolved: Seq<Seq<char>>,
)
    requires
        graph_extraction::extraction_problem(output, record, registry) is None,
    ensures
        endpoints_of(output.facts, output.entities, resolved) is Ok,
        endpoints_of(output.facts, output.entities, resolved)->Ok_0.len() == output.facts.len(),
{
    assert forall|i: int| 0 <= i < output.facts.len() implies graph_extraction::local_ids(
        output.entities,
    ).contains((#[trigger] output.facts[i]).subject_ref) && graph_extraction::local_ids(
        output.entities,
    ).contains(output.facts[i].object_ref) by {
        graph_extraction::sound_facts_are_grounded(output, record, registry, i);
    }
    lemma_endpoints_are_found(output.facts, output.entities, resolved);
}

/// How many of the resolved are new.
pub open spec fn created_count(v: Seq<Resolved>) -> nat
    decreases v.len(),
{
    if v.len() == 0 {
        0
    } else {
        created_count(v.drop_last()) + (if v.last().created {
            1nat
        } else {
            0nat
        })
    }
}

/// How many pieces of evidence facts have in all.
pub open spec fn evidence_count(facts: Seq<FactCandidateView>) -> nat
    decreases facts.len(),
{
    if facts.len() == 0 {
        0
    } else {
        evidence_count(facts.drop_last()) + facts.last().evidence.len()
    }
}

fn count_created(v: &Vec<Resolved>) -> (r: usize)
    ensures
        r == created_count(v@),
        r <= v@.len(),
{
    let mut n: usize = 0;
    let mut i: usize = 0;
    while i < v.len()
        invariant
            i <= v@.len(),
            n <= i,
            n == created_count(v@.take(i as int)),
        decreases v@.len() - i,
    {
        assert(v@.take(i + 1).drop_last() =~= v@.take(i as int));
        if v[i].created {
            n += 1;
        }
        i += 1;
    }
    assert(v@.take(i as int) =~= v@);
    n
}

proof fn lemma_evidence_count_grows(facts: Seq<FactCandidateView>, n: int)
    requires
        0 <= n <= facts.len(),
    ensures
        evidence_count(facts.take(n)) <= evidence_count(facts),
    decreases facts.len() - n,
{
    if n < facts.len() {
        assert(facts.take(n + 1).drop_last() =~= facts.take(n));
        lemma_evidence_count_grows(facts, n + 1);
    } else {
        assert(facts.take(n) =~= facts);
    }
}

fn count_evidence(facts: &Vec<ExtractedFactCandidate>) -> (r: usize)
    requires
        evidence_count(graph_extraction::fact_candidate_views(facts@)) <= usize::MAX,
    ensures
        r == evidence_count(graph_extraction::fact_candidate_views(facts@)),
{
    let ghost fs = graph_extraction::fact_candidate_views(facts@);
    let mut n: usize = 0;
    let mut i: usize = 0;
    while i < facts.len()
        invariant
            i <= fs.len(),
            fs == graph_extraction::fact_candidate_views(facts@),
            evidence_count(fs) <= usize::MAX,
            n == evidence_count(fs.take(i as int)),
        decreases fs.len() - i,
    {
        proof {
            assert(fs.take(i + 1).drop_last() =~= fs.take(i as int));
            assert(fs.take(i + 1).last() == facts@[i as int]@);
            lemma_evidence_count_grows(fs, i + 1);
        }
        n += facts[i].evidence.len();
        i += 1;
    }
    assert(fs.take(i as int) =~= fs);
    n
}

/// What a publication has done.
#[derive(Debug)]
pub struct ResolutionPublishResult {
    pub ingestion_run: IngestionRun,
    pub entities_created: usize,
    pub entities_reused: usize,
    pub facts_created: usize,
    pub facts_reused: usize,
    pub evidence_inserted: usize,
    pub record_entity_links_inserted: usize,
}

/// Sums up a publication: how many entities and facts are new and how many were
/// found again, and how much evidence the facts have. The links between records
/// and entities are counted where they are stored.
pub fn publish_result(
    ingestion_run: IngestionRun,
    output: &GraphExtractionOutput,
    entities: &Vec<Resolved>,
    facts: &Vec<Resolved>,
    record_entity_links_inserted: usize,
) -> (r: ResolutionPublishResult)
    requires
        evidence_count(output@.facts) <= usize::MAX,
    ensures
        r.ingestion_run == ingestion_run,
        r.entities_created == created_count(entities@),
        r.entities_created + r.entities_reused == entities@.len(),
        r.facts_created == created_count(facts@),
        r.facts_created + r.facts_reused == facts@.len(),
        r.evidence_inserted == evidence_count(output@.facts),
        r.record_entity_links_inserted == record_entity_links_inserted,
{
    let entities_created = count_created(entities);
    let facts_created = count_created(facts);
    ResolutionPublishResult {
        ingestion_run,
        entities_created,
        entities_reused: entities.len() - entities_created,
        facts_created,
        facts_reused: facts.len() - facts_created,
        evidence_inserted: count_evidence(&output.facts),
        record_entity_links_inserted,
    }
}

/// What a resolution stage has done.
#[derive(Debug)]
pub struct GraphResolutionResult {
    pub ingestion_run: IngestionRun,
    pub entities_created: usize,
    pub entities_reused: usize,
    pub facts_created: usize,
    pub facts_reused: usize,
    pub evidence_inserted: usize,
    pub record_entity_links_inserted: usize,
}

/// What a stage reports of a publication: all of it.
pub fn resolution_result(p: ResolutionPublishResult) -> (r: GraphResolutionResult)
    ensures
        r.ingestion_run == p.ingestion_run,
        r.entities_created == p.entities_created,
        r.entities_reused == p.entities_reused,
        r.facts_created == p.facts_created,
        r.facts_reused == p.facts_reused,
        r.evidence_inserted == p.evidence_inserted,
        r.record_entity_links_inserted == p.record_entity_links_inserted,
{
    GraphResolutionResult {
        ingestion_run: p.ingestion_run,
        entities_created: p.entities_created,
        entities_reused: p.entities_reused,
        facts_created: p.facts_created,
        facts_reused: p.facts_reused,
        evidence_inserted: p.evidence_inserted,
        record_entity_links_inserted: p.record_entity_links_inserted,
    }
}

/// Where a graph is stored.
#[derive(Debug)]
pub struct GraphRepository {
    pub path: String,
}

impl GraphRepository {
    /// The graph that is stored at a path.
    pub fn open(path: &str) -> (r: Self)
        ensures
            r.path@ == path@,
    {
        GraphRepository { path: path.to_owned() }
    }

    /// Whether the graph is held in memory only.
    pub fn is_memory_database(&self) -> (r: bool)
        ensures
            r == (self.path@ == ":memory:"@),
    {
        text_eq(self.path.as_str(), ":memory:")
    }

    /// The directory that must exist before the graph can be opened, given the
    /// parent of its path.
    pub fn parent_dir_to_create(&self, parent: Option<&str>) -> (r: Option<String>)
        ensures
            json::opt_string(r) == (match parent {
                Some(p) => if self.path@ == ":memory:"@ || p@.len() == 0 {
                    None
                } else {
                    Some(p@)
                },
                None => None,
            }),
    {
        if self.is_memory_database() {
            return None;
        }
        match parent {
            Some(p) => if p.is_empty() {
                None
            } else {
                Some(p.to_owned())
            },
            None => None,
        }
    }
}

/// What resolves the extractions of a graph.
#[derive(Debug)]
pub struct GraphResolutionExecutor {
    pub repository: GraphRepository,
    pub type_registry: GraphTypeRegistry,
}

impl GraphResolutionExecutor {
    pub fn new(repository: GraphRepository, type_registry: GraphTypeRegistry) -> (r: Self)
        ensures
            r.repository == repository,
            r.type_registry == type_registry,
    {
        GraphResolutionExecutor { repository, type_registry }
    }
}

/// What building the graph of one record has done.
#[derive(Debug)]
pub struct GraphBuildResult {
    pub add_response: GraphAddMemoryResponse,
    pub ingestion_run: IngestionRun,
    pub extraction_run: ExtractionRun,
    pub resolution: GraphResolutionResult,
}

/// Sums up the stages of a record: its run is the one that its resolution left.
pub fn build_result(
    add_response: GraphAddMemoryResponse,
    extraction_run: ExtractionRun,
    resolution: GraphResolutionResult,
) -> (r: GraphBuildResult)
    ensures
        r.add_response == add_response,
        r.ingestion_run@ == resolution.ingestion_run@,
        r.extraction_run == extraction_run,
        r.resolution == resolution,
{
    let ingestion_run = resolution.ingestion_run.clone();
    GraphBuildResult { add_response, ingestion_run, extraction_run, resolution }
}

} // verus!
