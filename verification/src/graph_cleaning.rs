//! What the cleaning of an extraction keeps.

use vstd::prelude::*;

use crate::error;
use crate::error::MemoryErrorView;
use crate::graph_clean;
use crate::graph_clean::{repaired_span, typed_entities};
use crate::graph_claims;
use crate::graph_extraction;
use crate::graph_extraction::{
    EntityCandidateView, ExtractionView, FactCandidateView, SpanView,
};
use crate::graph_facts;
use crate::graph_facts::{
    distinct_facts, is_grounded, is_low_signal, materialized, materialized_facts, says_the_same,
    telling_facts, timeless, timeless_facts, uniquified, with_distinct_fact,
};
use crate::graph_llm;
use crate::graph_llm::cleaned;
use crate::graph_registry;
use crate::graph_registry::{PredicateView, RegistryView};
use crate::graph_resolution;
use crate::graph_stages;
use crate::graph_stages::{
    ClaimedExtractionRun, ExtractionRunCompletion, ExtractionRunFailure, ExtractorInfo, StageFailure,
};
use crate::json::JsonView;
use crate::text;

verus! {

/// Whether a list has a fact that says the same of the same entities.
pub open spec fn is_said(facts: Seq<FactCandidateView>, f: FactCandidateView) -> bool {
    exists|k: int| 0 <= k < facts.len() && says_the_same(#[trigger] facts[k], f)
}

proof fn lemma_still_said(
    facts: Seq<FactCandidateView>,
    x: FactCandidateView,
    f: FactCandidateView,
)
    requires
        is_said(facts, f) || says_the_same(x, f),
    ensures
        is_said(with_distinct_fact(facts, x), f),
{
    let after = with_distinct_fact(facts, x);
    let i = graph_facts::same_fact_index(facts, x);
    graph_facts::lemma_same_fact_index(facts, x);
    if is_said(facts, f) {
        let k = choose|k: int| 0 <= k < facts.len() && says_the_same(#[trigger] facts[k], f);
        assert(says_the_same(after[k], f));
    } else {
        if i < facts.len() {
            assert(says_the_same(facts[i], f));
        } else {
            assert(says_the_same(after[facts.len() as int], f));
        }
    }
}

/// What is said once is still said when facts that say the same are merged.
pub proof fn merging_facts_leaves_all_said(facts: Seq<FactCandidateView>, f: FactCandidateView)
    requires
        is_said(facts, f),
    ensures
        is_said(distinct_facts(facts), f),
    decreases facts.len(),
{
    let t = facts.drop_last();
    let k = choose|k: int| 0 <= k < facts.len() && says_the_same(#[trigger] facts[k], f);
    if k < t.len() {
        assert(says_the_same(t[k], f));
        merging_facts_leaves_all_said(t, f);
    }
    lemma_still_said(distinct_facts(t), facts.last(), f);
}

proof fn lemma_kept_fact(
    facts: Seq<FactCandidateView>,
    ids: Seq<Seq<char>>,
    registry: RegistryView,
    record: Seq<char>,
    i: int,
)
    requires
        0 <= i < facts.len(),
        materialized(facts[i], ids, registry, record) is Some,
    ensures
        materialized_facts(facts, ids, registry, record).contains(
            materialized(facts[i], ids, registry, record)->0,
        ),
    decreases facts.len(),
{
    let t = facts.drop_last();
    let before = materialized_facts(t, ids, registry, record);
    let after = materialized_facts(facts, ids, registry, record);
    if i < t.len() {
        assert(t[i] == facts[i]);
        lemma_kept_fact(t, ids, registry, record, i);
        let m = materialized(facts[i], ids, registry, record)->0;
        let k = choose|k: int| 0 <= k < before.len() && before[k] == m;
        assert(after[k] == m);
    } else {
        assert(after[before.len() as int] == materialized(facts[i], ids, registry, record)->0);
    }
}

/// Whether a fact can be kept: its entities are left, its predicate or the fallback
/// is registered, some of its evidence can be found in the record, and it says
/// something.
pub open spec fn can_be_kept(
    f: FactCandidateView,
    ids: Seq<Seq<char>>,
    registry: RegistryView,
    record: Seq<char>,
    j: int,
) -> bool {
    &&& ids.contains(f.subject_ref) && ids.contains(f.object_ref)
    &&& graph_claims::has_predicate(registry.predicates, f.predicate)
        && f.predicate != "MENTIONED"@
    &&& 0 <= j < f.evidence.len() && is_grounded(repaired_span(f.evidence[j], record), record)
    &&& !is_low_signal(f)
}

/// No fact is lost that can be kept: what it says is said by a fact that is left.
pub proof fn facts_that_can_be_kept_are_kept(
    output: ExtractionView,
    record: Seq<char>,
    registry: RegistryView,
    input_tokens: Option<i64>,
    output_tokens: Option<i64>,
    i: int,
    j: int,
)
    requires
        0 <= i < output.facts.len(),
        can_be_kept(
            output.facts[i],
            graph_extraction::local_ids(
                cleaned(output, record, registry, input_tokens, output_tokens).entities,
            ),
            registry,
            record,
            j,
        ),
    ensures
        is_said(
            cleaned(output, record, registry, input_tokens, output_tokens).facts,
            output.facts[i],
        ),
{
    let f = output.facts[i];
    let typed = typed_entities(output.entities, registry.entity_types);
    let entities = graph_clean::deduplicated(typed, typed.len() as int);
    let ids = graph_extraction::local_ids(entities);
    let repaired = graph_clean::repaired_facts(output.facts, record);
    let clear = graph_clean::unambiguous_facts(repaired, typed);
    let stored = materialized_facts(clear, ids, registry, record);
    let dated = timeless_facts(stored, record);
    let telling = telling_facts(dated);
    let named = uniquified(telling);
    graph_clean::entities_left_are_distinct(typed, f.subject_ref);
    graph_clean::entities_left_are_distinct(typed, f.object_ref);
    let r = repaired[i];
    let open = |x: FactCandidateView|
        !graph_clean::is_ambiguous(typed, x.subject_ref) && !graph_clean::is_ambiguous(
            typed,
            x.object_ref,
        );
    assert(open(repaired[i]));
    repaired.lemma_filter_contains(open, i);
    assert(clear.contains(r));
    let a = choose|a: int| 0 <= a < clear.len() && clear[a] == r;
    let grounded = |s: SpanView| is_grounded(s, record);
    assert(r.evidence[j] == repaired_span(f.evidence[j], record));
    assert(grounded(r.evidence[j]));
    r.evidence.lemma_filter_contains(grounded, j);
    graph_claims::facts_stay_that_are_grounded(r, ids, registry, record);
    assert(r.evidence.filter(|s: SpanView| is_grounded(s, record)).len() > 0);
    let m = materialized(r, ids, registry, record)->0;
    lemma_kept_fact(clear, ids, registry, record, a);
    let b = choose|b: int| 0 <= b < stored.len() && stored[b] == m;
    let d = timeless(m, record);
    assert(dated[b] == d);
    let says = |x: FactCandidateView| !is_low_signal(x);
    assert(m.predicate == f.predicate);
    assert(says(dated[b]));
    dated.lemma_filter_contains(says, b);
    assert(telling.contains(d));
    let c = choose|c: int| 0 <= c < telling.len() && telling[c] == d;
    assert(says_the_same(named[c], f));
    merging_facts_leaves_all_said(named, f);
}

/// The tokens that are counted outside are preferred to those that an answer
/// states.
pub proof fn counted_tokens_are_preferred(
    output: ExtractionView,
    record: Seq<char>,
    registry: RegistryView,
    input_tokens: Option<i64>,
    output_tokens: Option<i64>,
)
    ensures
        ({
            let c = cleaned(output, record, registry, input_tokens, output_tokens);
            &&& input_tokens is Some ==> c.input_tokens == input_tokens
            &&& input_tokens is None ==> c.input_tokens == output.input_tokens
            &&& output_tokens is Some ==> c.output_tokens == output_tokens
            &&& output_tokens is None ==> c.output_tokens == output.output_tokens
        }),
{
}

/// An answer that is no JSON may be followed by a better one, and the report says
/// what is wrong with it; any other answer is taken.
pub proof fn broken_answers_are_tried_again(error: Option<Seq<char>>)
    ensures
        error is None ==> graph_llm::content_verdict(error) is None,
        error is Some ==> graph_llm::content_verdict(error) is Some
            && graph_llm::content_verdict(error)->0.retryable && graph_llm::content_verdict(
            error,
        )->0.message == "graph LLM returned invalid JSON: "@ + error->0,
{
}

/// An extraction fails with the error of the extractor, or else with what is
/// unsound about its output, under different codes; a sound output does not fail.
pub proof fn extractions_fail_with_their_error(
    outcome: Result<
        crate::graph_extraction::GraphExtractionOutput,
        crate::error::MemoryError,
    >,
    record: Seq<char>,
    registry: RegistryView,
)
    ensures
        ({
            let r = graph_stages::extraction_error(outcome, record, registry);
            match outcome {
                Err(e) => r == Some((graph_stages::EXTRACTION_FAILED_ERROR_CODE@, e@)),
                Ok(output) => {
                    let problem = graph_extraction::extraction_problem(output@, record, registry);
                    &&& r is Some <==> problem is Some
                    &&& problem is Some ==> r == Some(
                        (graph_stages::INVALID_EXTRACTION_OUTPUT_ERROR_CODE@, problem->0),
                    )
                },
            }
        }),
{
}

/// What is stored of a failed extraction names the run, the attempt and the
/// extractor, and says with which code and message it failed.
pub proof fn failures_name_their_run(
    f: ExtractionRunFailure,
    claim: ClaimedExtractionRun,
    extractor: ExtractorInfo,
    version: Seq<char>,
    latency_ms: Option<i64>,
    code: Seq<char>,
    message: Seq<char>,
)
    requires
        graph_stages::is_failure_of(f, claim, extractor, version, latency_ms, code, message),
    ensures
        f.ingestion_run_id@ == claim.ingestion_run_id@,
        f.memory_space_id@ == claim.memory_space_id@,
        f.attempt_count == claim.attempt_count,
        f.attempt_number == claim.extraction_attempt_number,
        f.extractor_name@ == extractor.extractor_name@ && f.model@ == extractor.model@,
        f.prompt_version@ == extractor.prompt_version@ && f.schema_version@
            == extractor.schema_version@,
        f.type_registry_version@ == version,
        text::strings(f.context_record_ids@) == text::strings(claim.context_record_ids@),
        f.latency_ms == latency_ms,
        f.error_code@ == code && f.error_message@ == message,
{
}

/// What is stored of a completed extraction names the run, the attempt and the
/// extractor, and says how many tokens it took.
pub proof fn completions_name_their_run(
    c: ExtractionRunCompletion,
    claim: ClaimedExtractionRun,
    extractor: ExtractorInfo,
    version: Seq<char>,
    latency_ms: Option<i64>,
    output: ExtractionView,
)
    requires
        graph_stages::is_completion_of(c, claim, extractor, version, latency_ms, output),
    ensures
        c.ingestion_run_id@ == claim.ingestion_run_id@,
        c.memory_space_id@ == claim.memory_space_id@,
        c.attempt_count == claim.attempt_count,
        c.attempt_number == claim.extraction_attempt_number,
        c.extractor_name@ == extractor.extractor_name@ && c.model@ == extractor.model@,
        c.prompt_version@ == extractor.prompt_version@ && c.schema_version@
            == extractor.schema_version@,
        c.type_registry_version@ == version,
        text::strings(c.context_record_ids@) == text::strings(claim.context_record_ids@),
        c.latency_ms == latency_ms,
        c.input_tokens == output.input_tokens && c.output_tokens == output.output_tokens,
{
}

/// A failure to resolve names the run and the attempt, and reports the error.
pub proof fn failed_resolutions_name_their_run(
    f: StageFailure,
    run_id: Seq<char>,
    attempt: i64,
    code: Seq<char>,
    e: MemoryErrorView,
)
    requires
        graph_resolution::is_resolution_failure(f, run_id, attempt, code, e),
    ensures
        f.ingestion_run_id@ == run_id && f.attempt_count == attempt,
        f.stage@ == "resolving"@,
        f.error_code@ == code,
        f.error_message@ == error::error_sentence(e),
{
}

/// A run can be resolved if and only if its extraction is sound and its source
/// entity is named well, or not at all; the extraction is looked at first.
pub proof fn sound_runs_can_be_resolved(
    output: ExtractionView,
    record: Seq<char>,
    metadata: JsonView,
    registry: RegistryView,
)
    ensures
        ({
            let problem = graph_resolution::resolution_problem(output, record, metadata, registry);
            let unsound = graph_extraction::extraction_problem(output, record, registry);
            let source = graph_resolution::source_entity_of(metadata, registry);
            &&& problem is None <==> unsound is None && source is Ok
            &&& unsound is Some ==> problem == unsound
            &&& unsound is None && source is Err ==> problem == Some(source->Err_0)
        }),
{
}

/// Whether a predicate is the first with a name.
pub open spec fn is_first_named(predicates: Seq<PredicateView>, name: Seq<char>, i: int) -> bool {
    &&& 0 <= i < predicates.len()
    &&& predicates[i].name == name
    &&& forall|j: int| 0 <= j < i ==> (#[trigger] predicates[j]).name != name
}

/// A predicate is looked up by its name, and the first with that name counts.
pub proof fn the_first_predicate_counts(predicates: Seq<PredicateView>, name: Seq<char>, i: int)
    requires
        is_first_named(predicates, name, i),
    ensures
        graph_registry::predicate_named(predicates, name) == Some(predicates[i]),
    decreases predicates.len(),
{
    if i > 0 {
        assert(predicates[0].name != name);
        let rest = predicates.drop_first();
        assert forall|j: int| 0 <= j < i - 1 implies (#[trigger] rest[j]).name != name by {
            assert(rest[j] == predicates[j + 1]);
        }
        the_first_predicate_counts(rest, name, i - 1);
    }
}

/// Candidates are the same entity if their names have the same words, whatever
/// their case, and their types are the same, whatever their case.
pub proof fn entities_go_by_name_and_type(a: EntityCandidateView, b: EntityCandidateView)
    ensures
        graph_clean::entity_identity(a) == graph_clean::entity_identity(b) <==> (
        text::lowercase_text(text::joined(text::words_of(a.name), " "@)) == text::lowercase_text(
            text::joined(text::words_of(b.name), " "@),
        ) && text::ascii_upper_text(a.entity_type) == text::ascii_upper_text(b.entity_type)),
{
}

/// An id is ambiguous if two candidates under it are not the same entity, and only
/// then.
pub proof fn ids_are_ambiguous_with_two_entities(
    entities: Seq<EntityCandidateView>,
    i: int,
    j: int,
)
    requires
        0 <= i < entities.len(),
        0 <= j < entities.len(),
        entities[i].local_id == entities[j].local_id,
    ensures
        graph_clean::entity_identity(entities[i]) != graph_clean::entity_identity(entities[j])
            ==> graph_clean::is_ambiguous(entities, entities[i].local_id),
        !graph_clean::is_ambiguous(entities, entities[i].local_id)
            ==> graph_clean::entity_identity(entities[i]) == graph_clean::entity_identity(
            entities[j],
        ),
{
}

/// Giving entities their registered types changes nothing else about them.
pub proof fn typing_changes_types_only(
    entities: Seq<EntityCandidateView>,
    types: Seq<Seq<char>>,
    i: int,
)
    requires
        0 <= i < entities.len(),
    ensures
        typed_entities(entities, types).len() == entities.len(),
        typed_entities(entities, types)[i].local_id == entities[i].local_id,
        typed_entities(entities, types)[i].name == entities[i].name,
        typed_entities(entities, types)[i].confidence == entities[i].confidence,
        typed_entities(entities, types)[i].entity_type == graph_clean::normalized_type(
            entities[i].entity_type,
            types,
        ),
{
}

} // verus!
