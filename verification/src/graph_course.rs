//! How runs of the graph go on, and what their facts come to point at.

use vstd::prelude::*;

use crate::bench_run::GraphAddView;
use crate::case_profile;
use crate::error::MemoryErrorView;
use crate::graph_context;
use crate::graph_extraction::{EntityCandidateView, FactCandidateView};
use crate::graph_registry::RegistryView;
use crate::graph_resolution::{
    created_count, endpoints_of, evidence_count, referenced_entity, source_entity_of, Resolved,
    SourceEntityView,
};
use crate::graph_runs;
use crate::graph_runs::{
    accepted_run, after_event, hashed_document, HashFieldsView, RunEvent, RunView,
};
use crate::json;
use crate::json::JsonView;
use crate::text;

verus! {

/// Whether a run is at a stage and is running.
pub open spec fn is_at(run: RunView, stage: Seq<char>) -> bool {
    run.status == "running"@ && run.stage == stage
}

/// Whether a run goes on to a stage, and nothing else about it changes but when
/// it was changed last.
pub open spec fn goes_on_to(before: RunView, after: RunView, stage: Seq<char>, now: u64) -> bool {
    &&& after.stage == stage
    &&& after.status == before.status
    &&& after.attempt_count == before.attempt_count
    &&& after.error_code == before.error_code
    &&& after.error_message == before.error_message
    &&& after.started_at_ms == before.started_at_ms
    &&& after.completed_at_ms == before.completed_at_ms
    &&& after.updated_at_ms == now
}

/// Whether a run ends with a failure, at the stage where it is.
pub open spec fn ends_failed(
    before: RunView,
    after: RunView,
    code: Seq<char>,
    message: Seq<char>,
    now: u64,
) -> bool {
    &&& after.status == "failed"@
    &&& after.stage == before.stage
    &&& after.attempt_count == before.attempt_count
    &&& after.error_code == Some(code)
    &&& after.error_message == Some(message)
    &&& after.started_at_ms == before.started_at_ms
    &&& after.completed_at_ms == Some(now)
    &&& after.updated_at_ms == now
}

/// A run that waits is claimed, by one attempt more, and its start is noted once.
pub proof fn waiting_runs_are_claimed(run: RunView, now: u64)
    ensures
        ({
            let r = after_event(run, RunEvent::ClaimPending, now);
            &&& r is Ok <==> run.status == "pending"@
            &&& r is Ok ==> {
                let after = r->Ok_0;
                &&& is_at(after, "embedding"@)
                &&& after.attempt_count == run.attempt_count + 1
                &&& after.started_at_ms == (if run.started_at_ms is Some {
                    run.started_at_ms
                } else {
                    Some(now)
                })
                &&& after.updated_at_ms == now
                &&& after.completed_at_ms == run.completed_at_ms
                &&& after.error_code == run.error_code
                &&& after.error_message == run.error_message
            }
        }),
{
}

/// An embedding is stored for the attempt that runs, in its own space and for its
/// own record, and the run goes on to extraction; extraction is then claimed once,
/// completed by the attempt that runs, and so is resolution, which ends the run.
pub proof fn runs_go_stage_by_stage(
    run: RunView,
    space: Seq<char>,
    record: Seq<char>,
    attempt: int,
    now: u64,
)
    ensures
        ({
            let own = run.memory_space_id == space && run.attempt_count == attempt;
            let stored = after_event(run, RunEvent::StoreEmbedding { space, record, attempt }, now);
            let claimed = after_event(run, RunEvent::ClaimExtraction, now);
            let extracted = after_event(run, RunEvent::CompleteExtraction { space, attempt }, now);
            let taken = after_event(run, RunEvent::ClaimResolution { has_output: true }, now);
            let bare = after_event(run, RunEvent::ClaimResolution { has_output: false }, now);
            let done = after_event(run, RunEvent::CompleteResolution { space, attempt }, now);
            &&& stored is Ok <==> own && is_at(run, "embedding"@) && run.memory_record_id == record
            &&& stored is Ok ==> goes_on_to(run, stored->Ok_0, "extraction"@, now)
            &&& claimed is Ok <==> is_at(run, "extraction"@)
            &&& claimed is Ok ==> goes_on_to(run, claimed->Ok_0, "extracting"@, now)
            &&& extracted is Ok <==> own && is_at(run, "extracting"@)
            &&& extracted is Ok ==> goes_on_to(run, extracted->Ok_0, "resolution"@, now)
            &&& taken is Ok <==> is_at(run, "resolution"@)
            &&& taken is Ok ==> goes_on_to(run, taken->Ok_0, "resolving"@, now)
            &&& bare is Err
            &&& done is Ok <==> own && is_at(run, "resolving"@)
            &&& done is Ok ==> {
                let after = done->Ok_0;
                &&& after.status == "completed"@ && after.stage == "completed"@
                &&& after.completed_at_ms == Some(now) && after.updated_at_ms == now
                &&& after.attempt_count == run.attempt_count
                &&& after.started_at_ms == run.started_at_ms
                &&& after.error_code == run.error_code
                &&& after.error_message == run.error_message
            }
        }),
{
}

/// A failure is noted by the attempt that runs, at the stage where it runs, with
/// its code and its message.
pub proof fn failures_are_noted(
    run: RunView,
    space: Seq<char>,
    attempt: int,
    stage: Seq<char>,
    code: Seq<char>,
    message: Seq<char>,
    now: u64,
)
    ensures
        ({
            let extraction = after_event(
                run,
                RunEvent::FailExtraction { space, attempt, code, message },
                now,
            );
            let failed = after_event(run, RunEvent::Fail { attempt, stage, code, message }, now);
            &&& extraction is Ok <==> run.memory_space_id == space && run.attempt_count == attempt
                && is_at(run, "extracting"@)
            &&& extraction is Ok ==> ends_failed(run, extraction->Ok_0, code, message, now)
            &&& failed is Ok <==> run.attempt_count == attempt && is_at(run, stage)
            &&& failed is Ok ==> ends_failed(run, failed->Ok_0, code, message, now)
        }),
{
}

/// A run that was just accepted waits, and is of the record, the space and the key
/// that were asked for; nobody has tried it yet.
pub proof fn accepted_runs_wait(
    request: GraphAddView,
    run_id: Seq<char>,
    record_id: Seq<char>,
    hash: Seq<char>,
    now: u64,
)
    ensures
        ({
            let run = accepted_run(request, run_id, record_id, hash, now);
            &&& run.id == run_id
            &&& run.memory_record_id == record_id
            &&& run.memory_space_id == request.memory_space_id
            &&& run.idempotency_key == request.idempotency_key
            &&& run.input_hash == hash
            &&& run.status == "pending"@
            &&& run.stage == "accepted"@
            &&& run.attempt_count == 0
            &&& run.error_code is None && run.error_message is None
            &&& run.started_at_ms is None && run.completed_at_ms is None
            &&& run.created_at_ms == now && run.updated_at_ms == now
        }),
{
}

proof fn lemma_hash_keys()
    ensures
        ({
            let k = seq![
                "content_role"@,
                "memory_space_id"@,
                "metadata"@,
                "observed_at_ms"@,
                "session_id"@,
                "session_sequence"@,
                "source_kind"@,
                "source_ref"@,
                "text"@,
            ];
            forall|i: int, j: int|
                #![trigger k[i], k[j]]
                0 <= i < j < k.len() ==> k[i] != k[j]
        }),
{
    reveal_strlit("content_role");
    reveal_strlit("memory_space_id");
    reveal_strlit("metadata");
    reveal_strlit("observed_at_ms");
    reveal_strlit("session_id");
    reveal_strlit("session_sequence");
    reveal_strlit("source_kind");
    reveal_strlit("source_ref");
    reveal_strlit("text");
    assert("content_role"@.len() == 12 && "memory_space_id"@.len() == 15 && "metadata"@.len() == 8
        && "observed_at_ms"@.len() == 14 && "session_id"@.len() == 10 && "session_sequence"@.len()
        == 16 && "source_kind"@.len() == 11 && "source_ref"@.len() == 10 && "text"@.len() == 4);
    assert("session_id"@[1] == 'e' && "source_ref"@[1] == 'o');
}

/// The document that an input is hashed by holds every field under its name, and
/// what counts of its metadata: where two such documents are the same, so are the
/// fields.
pub proof fn documents_tell_inputs_apart(a: HashFieldsView, b: HashFieldsView)
    requires
        hashed_document(a) == hashed_document(b),
    ensures
        a.content_role == b.content_role,
        a.memory_space_id == b.memory_space_id,
        graph_runs::lasting_metadata(a.metadata) == graph_runs::lasting_metadata(b.metadata),
        a.observed_at_ms == b.observed_at_ms,
        a.session_id == b.session_id,
        a.session_sequence == b.session_sequence,
        a.source_kind == b.source_kind,
        a.source_ref == b.source_ref,
        a.text == b.text,
{
    lemma_hashed_fields(a);
    lemma_hashed_fields(b);
}

proof fn lemma_hashed_fields(f: HashFieldsView)
    ensures
        ({
            let d = hashed_document(f);
            &&& json::json_get(d, "content_role"@) == Some(JsonView::Text(f.content_role))
            &&& json::json_get(d, "memory_space_id"@) == Some(JsonView::Text(f.memory_space_id))
            &&& json::json_get(d, "metadata"@) == Some(graph_runs::lasting_metadata(f.metadata))
            &&& json::json_get(d, "observed_at_ms"@) == Some(
                graph_context::number_or_null(f.observed_at_ms),
            )
            &&& json::json_get(d, "session_id"@) == Some(graph_runs::opt_text_json(f.session_id))
            &&& json::json_get(d, "session_sequence"@) == Some(
                graph_runs::integer_json(f.session_sequence),
            )
            &&& json::json_get(d, "source_kind"@) == Some(JsonView::Text(f.source_kind))
            &&& json::json_get(d, "source_ref"@) == Some(graph_runs::opt_text_json(f.source_ref))
            &&& json::json_get(d, "text"@) == Some(JsonView::Text(f.text))
        }),
{
    lemma_hash_keys();
    let k = seq![
        "content_role"@,
        "memory_space_id"@,
        "metadata"@,
        "observed_at_ms"@,
        "session_id"@,
        "session_sequence"@,
        "source_kind"@,
        "source_ref"@,
        "text"@,
    ];
    let members = seq![
        ("content_role"@, JsonView::Text(f.content_role)),
        ("memory_space_id"@, JsonView::Text(f.memory_space_id)),
        ("metadata"@, graph_runs::lasting_metadata(f.metadata)),
        ("observed_at_ms"@, graph_context::number_or_null(f.observed_at_ms)),
        ("session_id"@, graph_runs::opt_text_json(f.session_id)),
        ("session_sequence"@, graph_runs::integer_json(f.session_sequence)),
        ("source_kind"@, JsonView::Text(f.source_kind)),
        ("source_ref"@, graph_runs::opt_text_json(f.source_ref)),
        ("text"@, JsonView::Text(f.text)),
    ];
    assert(hashed_document(f) == graph_context::object_of(members));
    assert forall|i: int| 0 <= i < 9 implies json::json_get(
        graph_context::object_of(members),
        (#[trigger] members[i]).0,
    ) == Some(members[i].1) by {
        assert forall|j: int| i < j < members.len() implies (#[trigger] members[j]).0
            != members[i].0 by {
            assert(members[j].0 == k[j]);
            assert(members[i].0 == k[i]);
        }
        case_profile::lemma_object_of_get(members, i);
    }
    assert(members[0].0 == "content_role"@ && members[1].0 == "memory_space_id"@ && members[2].0
        == "metadata"@ && members[3].0 == "observed_at_ms"@ && members[4].0 == "session_id"@
        && members[5].0 == "session_sequence"@ && members[6].0 == "source_kind"@ && members[7].0
        == "source_ref"@ && members[8].0 == "text"@);
}

/// Whether a candidate is the last with a local id.
pub open spec fn is_last_with(entities: Seq<EntityCandidateView>, id: Seq<char>, i: int) -> bool {
    &&& 0 <= i < entities.len()
    &&& entities[i].local_id == id
    &&& forall|j: int| i < j < entities.len() ==> (#[trigger] entities[j]).local_id != id
}

/// A reference stands for what the last candidate with its id was resolved to,
/// and for nothing where there is no such candidate.
pub proof fn references_go_to_the_last_candidate(
    entities: Seq<EntityCandidateView>,
    resolved: Seq<Seq<char>>,
    reference: Seq<char>,
)
    requires
        resolved.len() >= entities.len(),
    ensures
        match referenced_entity(entities, resolved, reference) {
            Some(e) => exists|i: int|
                #[trigger] is_last_with(entities, reference, i) && resolved[i] == e,
            None => forall|i: int|
                0 <= i < entities.len() ==> (#[trigger] entities[i]).local_id != reference,
        },
    decreases entities.len(),
{
    if entities.len() > 0 {
        let n = entities.len() - 1;
        if entities[n].local_id == reference {
            assert(is_last_with(entities, reference, n));
        } else {
            let t = entities.drop_last();
            references_go_to_the_last_candidate(t, resolved, reference);
            match referenced_entity(t, resolved, reference) {
                Some(e) => {
                    let i = choose|i: int|
                        #[trigger] is_last_with(t, reference, i) && resolved[i] == e;
                    assert forall|j: int| i < j < entities.len() implies (
                    #[trigger] entities[j]).local_id != reference by {
                        if j < n {
                            assert(t[j] == entities[j]);
                        }
                    }
                    assert(is_last_with(entities, reference, i));
                },
                None => {
                    assert forall|i: int| 0 <= i < entities.len() implies (
                    #[trigger] entities[i]).local_id != reference by {
                        if i < n {
                            assert(t[i] == entities[i]);
                        }
                    }
                },
            }
        }
    }
}

/// Every fact gets the entities that its own references stand for, the subject
/// first; where one of them stands for nothing, there are no endpoints.
pub proof fn facts_get_their_own_entities(
    facts: Seq<FactCandidateView>,
    entities: Seq<EntityCandidateView>,
    resolved: Seq<Seq<char>>,
    i: int,
)
    requires
        0 <= i < facts.len(),
    ensures
        match endpoints_of(facts, entities, resolved) {
            Ok(ends) => {
                &&& ends.len() == facts.len()
                &&& referenced_entity(entities, resolved, facts[i].subject_ref) == Some(ends[i].0)
                &&& referenced_entity(entities, resolved, facts[i].object_ref) == Some(ends[i].1)
            },
            Err(_) => exists|k: int|
                0 <= k < facts.len() && (referenced_entity(
                    entities,
                    resolved,
                    (#[trigger] facts[k]).subject_ref,
                ) is None || referenced_entity(entities, resolved, facts[k].object_ref) is None),
        },
    decreases facts.len(),
{
    let t = facts.drop_last();
    let n = facts.len() - 1;
    if t.len() > 0 {
        facts_get_their_own_entities(
            t,
            entities,
            resolved,
            if i < n {
                i
            } else {
                0
            },
        );
        if endpoints_of(t, entities, resolved) is Err {
            let k = choose|k: int|
                0 <= k < t.len() && (referenced_entity(
                    entities,
                    resolved,
                    (#[trigger] t[k]).subject_ref,
                ) is None || referenced_entity(entities, resolved, t[k].object_ref) is None);
            assert(facts[k] == t[k]);
        }
    }
    assert(facts[n] == facts.last());
}

/// The number that are new is that of the resolved that were created.
pub proof fn new_ones_are_counted(v: Seq<Resolved>)
    ensures
        created_count(v) == v.filter(|r: Resolved| r.created).len(),
    decreases v.len(),
{
    reveal(Seq::filter);
    if v.len() > 0 {
        new_ones_are_counted(v.drop_last());
    }
}

/// The evidence of facts is counted fact by fact.
pub proof fn evidence_adds_up(a: Seq<FactCandidateView>, b: Seq<FactCandidateView>)
    ensures
        evidence_count(a + b) == evidence_count(a) + evidence_count(b),
        a.len() == 1 ==> evidence_count(a) == a[0].evidence.len(),
    decreases b.len(),
{
    if a.len() == 1 {
        assert(evidence_count(a.drop_last()) == 0);
    }
    if b.len() == 0 {
        assert(a + b =~= a);
    } else {
        evidence_adds_up(a, b.drop_last());
        assert((a + b).drop_last() =~= a + b.drop_last());
        assert((a + b).last() == b.last());
    }
}

/// A record names a source entity by a name and a registered type, both trimmed,
/// the type in capitals; it names none where its metadata has no such entry, and
/// is refused where the entry is no object or a part is missing.
pub proof fn source_entities_are_named(metadata: JsonView, registry: RegistryView)
    ensures
        ({
            let entry = json::json_get(metadata, "graph_source_entity"@);
            let r = source_entity_of(metadata, registry);
            &&& entry is None ==> r == Ok::<Option<SourceEntityView>, MemoryErrorView>(None)
            &&& entry is Some && !(entry->0 is Object) ==> r is Err
            &&& entry is Some && entry->0 is Object ==> {
                let name = json::json_get_text(entry->0, "name"@);
                let kind = json::json_get_text(entry->0, "entity_type"@);
                let named = name is Some && text::trimmed(name->0).len() > 0;
                let typed = kind is Some && text::trimmed(kind->0).len() > 0;
                let wanted = text::ascii_upper_text(text::trimmed(kind->0));
                &&& r is Ok <==> named && typed && registry.entity_types.contains(wanted)
                &&& r is Ok ==> r->Ok_0 is Some && r->Ok_0->0.name == text::trimmed(name->0)
                    && r->Ok_0->0.entity_type == wanted
            }
        }),
{
}

} // verus!
