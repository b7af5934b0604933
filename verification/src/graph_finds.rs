//! What the candidates of a graph search say about the context that they come
//! from: which records are among them, with which scores, and what is noted in
//! their metadata.

use vstd::prelude::*;
use vstd::string::*;

use crate::api::ScoredView;
use crate::case_profile;
use crate::graph_context;
use crate::graph_types::{FactUnitView, GraphRecordView, RecordUnitView};
use crate::json;
use crate::json::JsonView;
use crate::ranking;
use crate::record;
use crate::record::RecordView;
use crate::text;

verus! {

/// A record that a context holds: with the score of the fact that it supports
/// and the id of that fact, or by itself with its own score.
pub struct ContextRecord {
    pub record: GraphRecordView,
    pub score: int,
    pub fact_id: Option<Seq<char>>,
}

/// The records that support facts, fact by fact.
pub open spec fn evidence_in(facts: Seq<FactUnitView>) -> Seq<ContextRecord>
    decreases facts.len(),
{
    if facts.len() == 0 {
        Seq::empty()
    } else {
        evidence_in(facts.drop_last()) + evidence_for(
            facts.last(),
            facts.last().evidence_records.len(),
        )
    }
}

/// The first `n` records that support a fact.
pub open spec fn evidence_for(u: FactUnitView, n: nat) -> Seq<ContextRecord> {
    Seq::new(
        n,
        |j: int|
            ContextRecord {
                record: u.evidence_records[j],
                score: u.score as int,
                fact_id: Some(u.fact_id),
            },
    )
}

/// The records that were found by themselves.
pub open spec fn matches_in(records: Seq<RecordUnitView>) -> Seq<ContextRecord> {
    Seq::new(
        records.len(),
        |i: int|
            ContextRecord {
                record: records[i].record,
                score: records[i].score as int,
                fact_id: None,
            },
    )
}

/// All records that a context holds, those that support facts first.
pub open spec fn records_in(facts: Seq<FactUnitView>, records: Seq<RecordUnitView>) -> Seq<
    ContextRecord,
> {
    evidence_in(facts) + matches_in(records)
}

/// The id that a record of the graph goes by: that of its source, if it has one.
pub open spec fn id_of(r: GraphRecordView) -> Seq<char> {
    if r.source_ref is Some && !text::is_blank(r.source_ref->0) {
        text::trimmed(r.source_ref->0)
    } else {
        r.id
    }
}

/// Whether the record at a place goes by an id and passes a filter.
pub open spec fn is_hit(
    all: Seq<ContextRecord>,
    filter: Option<JsonView>,
    id: Seq<char>,
    i: int,
) -> bool {
    &&& 0 <= i < all.len()
    &&& id_of(all[i].record) == id
    &&& record::matches_filter(all[i].record.metadata, filter)
}

/// Whether the record at a place is the first under its id that passes.
pub open spec fn is_first_hit(
    all: Seq<ContextRecord>,
    filter: Option<JsonView>,
    id: Seq<char>,
    i: int,
) -> bool {
    &&& is_hit(all, filter, id, i)
    &&& forall|j: int| 0 <= j < i ==> !is_hit(all, filter, id, j)
}

/// Whether a score is the highest under an id.
pub open spec fn is_highest_score(
    all: Seq<ContextRecord>,
    filter: Option<JsonView>,
    id: Seq<char>,
    score: int,
) -> bool {
    &&& exists|i: int| is_hit(all, filter, id, i) && (#[trigger] all[i]).score == score
    &&& forall|i: int|
        is_hit(all, filter, id, i) ==> (#[trigger] all[i]).score <= score
}

/// Whether a key is one under which the graph makes its own notes.
pub open spec fn is_graph_key(key: Seq<char>) -> bool {
    key == "graph_facts"@ || key == "graph_facts_truncated"@ || key == "graph_matches"@ || key
        == "source_agent_id"@
}

/// Whether a memory record is one of the graph: it has its text, its embedding,
/// its times, and its metadata but for the notes of the graph.
pub open spec fn has_content_of(m: RecordView, r: GraphRecordView) -> bool {
    &&& m.text == r.text
    &&& m.embedding == (if r.embedding is Some {
        r.embedding->0
    } else {
        Seq::empty()
    })
    &&& m.created_at_ms == r.created_at_ms
    &&& m.updated_at_ms == r.updated_at_ms
    &&& forall|key: Seq<char>|
        !is_graph_key(key) ==> #[trigger] json::json_get(m.metadata, key) == json::json_get(
            r.metadata,
            key,
        )
}

/// Whether metadata lists a fact.
pub open spec fn lists_fact(metadata: JsonView, fact_id: Seq<char>) -> bool {
    json::json_get(metadata, "graph_facts"@) matches Some(JsonView::Array(facts)) && exists|
        i: int,
    |
        0 <= i < facts.len() && json::json_get(#[trigger] facts[i], "fact_id"@) == Some(
            JsonView::Text(fact_id),
        )
}

/// Whether metadata says that facts are left out.
pub open spec fn marks_truncation(metadata: JsonView) -> bool {
    json::json_get(metadata, "graph_facts_truncated"@) == Some(JsonView::Bool(true))
}

/// Whether metadata lists a record as found by itself.
pub open spec fn lists_match(metadata: JsonView, record_id: Seq<char>) -> bool {
    json::json_get(metadata, "graph_matches"@) matches Some(JsonView::Array(found)) && exists|
        i: int,
    |
        0 <= i < found.len() && json::json_get(#[trigger] found[i], "record_id"@) == Some(
            JsonView::Text(record_id),
        )
}

/// Whether metadata notes how a record came into a context: the fact that it
/// supports, unless facts are left out, or that it was found by itself.
pub open spec fn notes(metadata: JsonView, r: ContextRecord) -> bool {
    match r.fact_id {
        Some(fact_id) => lists_fact(metadata, fact_id) || marks_truncation(metadata),
        None => lists_match(metadata, r.record.id),
    }
}

/// Whether a candidate is what a context says of its record: the record is the
/// first under its id that passes the filter, the score is the highest of those
/// that do, and the metadata notes each of them.
pub open spec fn is_candidate_in(
    c: ScoredView,
    all: Seq<ContextRecord>,
    filter: Option<JsonView>,
) -> bool {
    &&& exists|i: int|
        is_first_hit(all, filter, c.record.id, i) && has_content_of(
            c.record,
            (#[trigger] all[i]).record,
        )
    &&& is_highest_score(all, filter, c.record.id, c.score)
    &&& forall|i: int|
        is_hit(all, filter, c.record.id, i) ==> notes(c.record.metadata, #[trigger] all[i])
}

spec fn describes(s: Seq<ScoredView>, all: Seq<ContextRecord>, filter: Option<JsonView>) -> bool {
    &&& forall|a: int, b: int|
        0 <= a < b < s.len() ==> (#[trigger] s[a]).record.id != (#[trigger] s[b]).record.id
    &&& forall|k: int| 0 <= k < s.len() ==> is_candidate_in(#[trigger] s[k], all, filter)
    &&& forall|i: int|
        0 <= i < all.len() && record::matches_filter((#[trigger] all[i]).record.metadata, filter)
            ==> has_id(s, id_of(all[i].record))
}

spec fn has_id(s: Seq<ScoredView>, id: Seq<char>) -> bool {
    exists|k: int| 0 <= k < s.len() && (#[trigger] s[k]).record.id == id
}

proof fn lemma_keys()
    ensures
        "graph_facts"@ != "graph_facts_truncated"@,
        "graph_facts"@ != "graph_matches"@,
        "graph_facts_truncated"@ != "graph_matches"@,
        "source_agent_id"@ != "graph_facts"@,
        "source_agent_id"@ != "graph_facts_truncated"@,
        "source_agent_id"@ != "graph_matches"@,
{
    reveal_strlit("graph_facts");
    reveal_strlit("graph_facts_truncated");
    reveal_strlit("graph_matches");
    reveal_strlit("source_agent_id");
    assert("graph_facts"@.len() == 11);
    assert("graph_facts_truncated"@.len() == 21);
    assert("graph_matches"@.len() == 13);
    assert("source_agent_id"@.len() == 15);
}

/// What noting a fact does to metadata.
proof fn lemma_with_fact(metadata: JsonView, fact: JsonView)
    ensures
        ({
            let r = graph_context::with_fact(metadata, fact);
            &&& r is Object
            &&& json::json_get(r, "graph_facts"@) matches Some(JsonView::Array(_))
            &&& forall|key: Seq<char>|
                key != "graph_facts"@ && key != "graph_facts_truncated"@
                    ==> #[trigger] json::json_get(r, key) == json::json_get(metadata, key)
            &&& forall|id: Seq<char>| #[trigger] lists_fact(metadata, id) ==> lists_fact(r, id)
            &&& marks_truncation(metadata) ==> marks_truncation(r)
            &&& forall|id: Seq<char>|
                json::json_get(fact, "fact_id"@) == Some(JsonView::Text(id)) ==> #[trigger] lists_fact(
                    r,
                    id,
                ) || marks_truncation(r)
        }),
{
    lemma_keys();
    let r = graph_context::with_fact(metadata, fact);
    let object = json::as_object_or_empty(metadata);
    let facts = graph_context::list_under(object, "graph_facts"@);
    let same = json::json_put(object, "graph_facts"@, JsonView::Array(facts));
    assert forall|key: Seq<char>|
        key != "graph_facts"@ && key != "graph_facts_truncated"@ implies #[trigger] json::json_get(
        r,
        key,
    ) == json::json_get(metadata, key) by {
        json::put_then_get(object, "graph_facts"@, JsonView::Array(facts), key);
        json::put_then_get(object, "graph_facts"@, JsonView::Array(facts.push(fact)), key);
        json::put_then_get(same, "graph_facts_truncated"@, JsonView::Bool(true), key);
        assert(json::json_get(object, key) == json::json_get(metadata, key));
    }
    let key = "graph_facts"@;
    json::put_then_get(object, key, JsonView::Array(facts), "graph_facts_truncated"@);
    json::put_then_get(object, key, JsonView::Array(facts.push(fact)), "graph_facts_truncated"@);
    json::put_then_get(same, "graph_facts_truncated"@, JsonView::Bool(true), key);
    let now = graph_context::list_under(r, key);
    assert(now == facts || now == facts.push(fact));
    assert forall|id: Seq<char>| #[trigger] lists_fact(metadata, id) implies lists_fact(r, id) by {
        let i = choose|i: int|
            0 <= i < facts.len() && json::json_get(#[trigger] facts[i], "fact_id"@) == Some(
                JsonView::Text(id),
            );
        assert(now[i] == facts[i]);
    }
    assert forall|id: Seq<char>|
        json::json_get(fact, "fact_id"@) == Some(
            JsonView::Text(id),
        ) implies #[trigger] lists_fact(r, id) || marks_truncation(r) by {
        if graph_context::fact_is_listed(facts, fact) {
            let i = choose|i: int|
                0 <= i < facts.len() && json::json_get_text(#[trigger] facts[i], "fact_id"@)
                    == json::json_get_text(fact, "fact_id"@);
            assert(now[i] == facts[i]);
        } else if now == facts.push(fact) {
            assert(now[facts.len() as int] == fact);
        }
    }
}

proof fn lemma_with_facts(metadata: JsonView, facts: Seq<JsonView>)
    ensures
        ({
            let r = graph_context::with_facts(metadata, facts);
            &&& forall|key: Seq<char>|
                key != "graph_facts"@ && key != "graph_facts_truncated"@
                    ==> #[trigger] json::json_get(r, key) == json::json_get(metadata, key)
            &&& forall|id: Seq<char>| #[trigger] lists_fact(metadata, id) ==> lists_fact(r, id)
            &&& marks_truncation(metadata) ==> marks_truncation(r)
            &&& forall|i: int, id: Seq<char>|
                0 <= i < facts.len() && json::json_get(#[trigger] facts[i], "fact_id"@) == Some(
                    JsonView::Text(id),
                ) ==> #[trigger] lists_fact(r, id) || marks_truncation(r)
        }),
    decreases facts.len(),
{
    if facts.len() > 0 {
        let front = facts.drop_last();
        let before = graph_context::with_facts(metadata, front);
        let r = graph_context::with_facts(metadata, facts);
        lemma_with_facts(metadata, front);
        lemma_with_fact(before, facts.last());
        assert forall|key: Seq<char>|
            key != "graph_facts"@ && key
                != "graph_facts_truncated"@ implies #[trigger] json::json_get(r, key)
            == json::json_get(metadata, key) by {
            assert(json::json_get(before, key) == json::json_get(metadata, key));
        }
        assert forall|i: int, id: Seq<char>|
            0 <= i < facts.len() && json::json_get(#[trigger] facts[i], "fact_id"@) == Some(
                JsonView::Text(id),
            ) implies #[trigger] lists_fact(r, id) || marks_truncation(r) by {
            if i < front.len() {
                assert(front[i] == facts[i]);
                assert(lists_fact(before, id) || marks_truncation(before));
            }
        }
    }
}

proof fn lemma_with_facts_of(target: JsonView, source: JsonView)
    ensures
        ({
            let r = graph_context::with_facts_of(target, source);
            &&& forall|key: Seq<char>|
                key != "graph_facts"@ && key != "graph_facts_truncated"@
                    ==> #[trigger] json::json_get(r, key) == json::json_get(target, key)
            &&& forall|id: Seq<char>| #[trigger] lists_fact(target, id) ==> lists_fact(r, id)
            &&& marks_truncation(target) ==> marks_truncation(r)
            &&& (json::json_get(source, "graph_facts"@) matches Some(JsonView::Array(_))) ==> {
                &&& marks_truncation(source) ==> marks_truncation(r)
                &&& forall|id: Seq<char>|
                    #[trigger] lists_fact(source, id) ==> lists_fact(r, id) || marks_truncation(r)
            }
        }),
{
    lemma_keys();
    match json::json_get(source, "graph_facts"@) {
        Some(JsonView::Array(facts)) => {
            let object = json::as_object_or_empty(target);
            let marked = if marks_truncation(source) {
                json::json_put(object, "graph_facts_truncated"@, JsonView::Bool(true))
            } else {
                target
            };
            assert forall|key: Seq<char>| key != "graph_facts_truncated"@ implies #[trigger] json::json_get(
                marked,
                key,
            ) == json::json_get(target, key) by {
                json::put_then_get(object, "graph_facts_truncated"@, JsonView::Bool(true), key);
                assert(json::json_get(object, key) == json::json_get(target, key));
            }
            json::put_then_get(
                object,
                "graph_facts_truncated"@,
                JsonView::Bool(true),
                "graph_facts"@,
            );
            lemma_with_facts(marked, facts);
            let r = graph_context::with_facts(marked, facts);
            assert forall|key: Seq<char>|
                key != "graph_facts"@ && key
                    != "graph_facts_truncated"@ implies #[trigger] json::json_get(r, key)
                == json::json_get(target, key) by {
                assert(json::json_get(marked, key) == json::json_get(target, key));
            }
            assert forall|id: Seq<char>| #[trigger] lists_fact(target, id) implies lists_fact(
                r,
                id,
            ) by {
                assert(json::json_get(marked, "graph_facts"@) == json::json_get(
                    target,
                    "graph_facts"@,
                ));
                assert(lists_fact(marked, id));
            }
            assert forall|id: Seq<char>| #[trigger] lists_fact(source, id) implies lists_fact(
                r,
                id,
            ) || marks_truncation(r) by {
                let i = choose|i: int|
                    0 <= i < facts.len() && json::json_get(#[trigger] facts[i], "fact_id"@) == Some(
                        JsonView::Text(id),
                    );
                assert(0 <= i < facts.len());
            }
        },
        _ => {},
    }
}

proof fn lemma_with_match(metadata: JsonView, found: JsonView)
    ensures
        ({
            let r = graph_context::with_match(metadata, found);
            &&& forall|key: Seq<char>|
                key != "graph_matches"@ ==> #[trigger] json::json_get(r, key) == json::json_get(
                    metadata,
                    key,
                )
            &&& forall|id: Seq<char>| #[trigger] lists_match(metadata, id) ==> lists_match(r, id)
            &&& forall|id: Seq<char>|
                json::json_get(found, "record_id"@) == Some(JsonView::Text(id))
                    ==> #[trigger] lists_match(r, id)
        }),
{
    let r = graph_context::with_match(metadata, found);
    let object = json::as_object_or_empty(metadata);
    let key = "graph_matches"@;
    let before = graph_context::list_under(object, key);
    let now = if graph_context::match_is_listed(before, found) {
        before
    } else {
        before.push(found)
    };
    assert forall|other: Seq<char>| other != key implies #[trigger] json::json_get(r, other)
        == json::json_get(metadata, other) by {
        json::put_then_get(object, key, JsonView::Array(now), other);
        assert(json::json_get(object, other) == json::json_get(metadata, other));
    }
    json::put_then_get(object, key, JsonView::Array(now), key);
    assert forall|id: Seq<char>| #[trigger] lists_match(metadata, id) implies lists_match(
        r,
        id,
    ) by {
        let i = choose|i: int|
            0 <= i < before.len() && json::json_get(#[trigger] before[i], "record_id"@) == Some(
                JsonView::Text(id),
            );
        assert(now[i] == before[i]);
    }
    assert forall|id: Seq<char>|
        json::json_get(found, "record_id"@) == Some(
            JsonView::Text(id),
        ) implies #[trigger] lists_match(r, id) by {
        if graph_context::match_is_listed(before, found) {
            let i = choose|i: int|
                0 <= i < before.len() && graph_context::same_match(#[trigger] before[i], found);
            assert(json::json_get_text(before[i], "record_id"@) == Some(id));
            assert(now[i] == before[i]);
        } else {
            assert(now[before.len() as int] == found);
        }
    }
}

proof fn lemma_with_matches(metadata: JsonView, found: Seq<JsonView>)
    ensures
        ({
            let r = graph_context::with_matches(metadata, found);
            &&& forall|key: Seq<char>|
                key != "graph_matches"@ ==> #[trigger] json::json_get(r, key) == json::json_get(
                    metadata,
                    key,
                )
            &&& forall|id: Seq<char>| #[trigger] lists_match(metadata, id) ==> lists_match(r, id)
            &&& forall|i: int, id: Seq<char>|
                0 <= i < found.len() && json::json_get(#[trigger] found[i], "record_id"@) == Some(
                    JsonView::Text(id),
                ) ==> #[trigger] lists_match(r, id)
        }),
    decreases found.len(),
{
    if found.len() > 0 {
        let front = found.drop_last();
        let before = graph_context::with_matches(metadata, front);
        let r = graph_context::with_matches(metadata, found);
        lemma_with_matches(metadata, front);
        lemma_with_match(before, found.last());
        assert forall|key: Seq<char>| key != "graph_matches"@ implies #[trigger] json::json_get(
            r,
            key,
        ) == json::json_get(metadata, key) by {
            assert(json::json_get(before, key) == json::json_get(metadata, key));
        }
        assert forall|i: int, id: Seq<char>|
            0 <= i < found.len() && json::json_get(#[trigger] found[i], "record_id"@) == Some(
                JsonView::Text(id),
            ) implies #[trigger] lists_match(r, id) by {
            if i < front.len() {
                assert(front[i] == found[i]);
                assert(lists_match(before, id));
            }
        }
    }
}

proof fn lemma_fact_json(u: FactUnitView)
    ensures
        json::json_get(graph_context::fact_json(u), "fact_id"@) == Some(JsonView::Text(u.fact_id)),
{
    reveal_strlit("fact_id");
    reveal_strlit("fact_text");
    reveal_strlit("predicate");
    reveal_strlit("score");
    reveal_strlit("subject");
    reveal_strlit("object");
    reveal_strlit("valid_from_ms");
    reveal_strlit("valid_to_ms");
    reveal_strlit("recorded_at_ms");
    reveal_strlit("path");
    assert("fact_id"@.len() == 7);
    assert("fact_text"@.len() == 9);
    assert("predicate"@.len() == 9);
    assert("score"@.len() == 5);
    assert("subject"@.len() == 7 && "subject"@[0] == 's' && "fact_id"@[0] == 'f');
    assert("object"@.len() == 6);
    assert("valid_from_ms"@.len() == 13);
    assert("valid_to_ms"@.len() == 11);
    assert("recorded_at_ms"@.len() == 14);
    assert("path"@.len() == 4);
    case_profile::lemma_object_of_get(
        seq![
            ("fact_id"@, JsonView::Text(u.fact_id)),
            ("fact_text"@, JsonView::Text(u.fact_text)),
            ("predicate"@, JsonView::Text(u.predicate)),
            ("score"@, JsonView::Float(u.score_text)),
            ("subject"@, graph_context::entity_json(u.subject)),
            ("object"@, graph_context::entity_json(u.object)),
            ("valid_from_ms"@, graph_context::number_or_null(u.valid_from_ms)),
            ("valid_to_ms"@, graph_context::number_or_null(u.valid_to_ms)),
            ("recorded_at_ms"@, JsonView::Unsigned(u.recorded_at_ms)),
            ("path"@, graph_context::text_list(u.path)),
        ],
        0,
    );
}

proof fn lemma_match_json(u: RecordUnitView)
    ensures
        json::json_get(graph_context::match_json(u), "record_id"@) == Some(
            JsonView::Text(u.record.id),
        ),
{
    reveal_strlit("kind");
    reveal_strlit("match_kind");
    reveal_strlit("record_id");
    reveal_strlit("score");
    reveal_strlit("path");
    assert("kind"@.len() == 4);
    assert("match_kind"@.len() == 10);
    assert("record_id"@.len() == 9);
    assert("score"@.len() == 5);
    assert("path"@.len() == 4);
    case_profile::lemma_object_of_get(
        seq![
            ("kind"@, JsonView::Text("evidence_record"@)),
            ("match_kind"@, JsonView::Text("lexical"@)),
            ("record_id"@, JsonView::Text(u.record.id)),
            ("score"@, JsonView::Float(u.score_text)),
            ("path"@, graph_context::text_list(u.path)),
        ],
        2,
    );
}

/// What a find is of the record of a context that it comes from.
spec fn is_find_of(x: ScoredView, c: ContextRecord) -> bool {
    &&& x.record.id == id_of(c.record)
    &&& x.score == c.score
    &&& has_content_of(x.record, c.record)
    &&& notes(x.record.metadata, c)
    &&& c.fact_id is Some ==> (json::json_get(x.record.metadata, "graph_facts"@) matches Some(
        JsonView::Array(_),
    ))
}

proof fn lemma_memory_record(r: GraphRecordView)
    ensures
        ({
            let m = graph_context::memory_record_of(r);
            &&& m.id == id_of(r)
            &&& m.text == r.text
            &&& m.embedding == (if r.embedding is Some {
                r.embedding->0
            } else {
                Seq::empty()
            })
            &&& m.created_at_ms == r.created_at_ms
            &&& m.updated_at_ms == r.updated_at_ms
            &&& forall|key: Seq<char>|
                key != "source_agent_id"@ ==> #[trigger] json::json_get(m.metadata, key)
                    == json::json_get(r.metadata, key)
        }),
{
    if r.created_by_agent_id is Some {
        let object = json::as_object_or_empty(r.metadata);
        let agent = JsonView::Text(r.created_by_agent_id->0);
        let m = graph_context::memory_record_of(r);
        assert forall|key: Seq<char>| key != "source_agent_id"@ implies #[trigger] json::json_get(
            m.metadata,
            key,
        ) == json::json_get(r.metadata, key) by {
            json::put_then_get(object, "source_agent_id"@, agent, key);
            assert(json::json_get(object, key) == json::json_get(r.metadata, key));
        }
    }
}

proof fn lemma_fact_find(u: FactUnitView, j: int)
    requires
        0 <= j < u.evidence_records.len(),
    ensures
        is_find_of(
            graph_context::fact_find(u, u.evidence_records[j]),
            ContextRecord {
                record: u.evidence_records[j],
                score: u.score as int,
                fact_id: Some(u.fact_id),
            },
        ),
{
    let r = u.evidence_records[j];
    let m = graph_context::memory_record_of(r);
    let x = graph_context::fact_find(u, r);
    lemma_keys();
    lemma_memory_record(r);
    lemma_fact_json(u);
    lemma_with_fact(m.metadata, graph_context::fact_json(u));
    assert(lists_fact(x.record.metadata, u.fact_id) || marks_truncation(x.record.metadata));
    assert forall|key: Seq<char>| !is_graph_key(key) implies #[trigger] json::json_get(
        x.record.metadata,
        key,
    ) == json::json_get(r.metadata, key) by {
        assert(json::json_get(m.metadata, key) == json::json_get(r.metadata, key));
    }
}

proof fn lemma_record_find(u: RecordUnitView)
    ensures
        is_find_of(
            graph_context::record_find(u),
            ContextRecord { record: u.record, score: u.score as int, fact_id: None },
        ),
{
    let m = graph_context::memory_record_of(u.record);
    let x = graph_context::record_find(u);
    lemma_keys();
    lemma_memory_record(u.record);
    lemma_match_json(u);
    lemma_with_match(m.metadata, graph_context::match_json(u));
    assert(lists_match(x.record.metadata, u.record.id));
    assert forall|key: Seq<char>| !is_graph_key(key) implies #[trigger] json::json_get(
        x.record.metadata,
        key,
    ) == json::json_get(u.record.metadata, key) by {
        assert(json::json_get(m.metadata, key) == json::json_get(u.record.metadata, key));
    }
}

/// What two finds of one record become.
proof fn lemma_combined(a: ScoredView, b: ScoredView, by_match: bool, c: ContextRecord)
    requires
        is_find_of(b, c),
        by_match == (c.fact_id is None),
    ensures
        ({
            let r = graph_context::combined(a, b, by_match);
            &&& r.record.id == a.record.id
            &&& r.record.text == a.record.text
            &&& r.record.embedding == a.record.embedding
            &&& r.record.created_at_ms == a.record.created_at_ms
            &&& r.record.updated_at_ms == a.record.updated_at_ms
            &&& r.score == (if a.score >= b.score {
                a.score
            } else {
                b.score
            })
            &&& forall|key: Seq<char>|
                !is_graph_key(key) ==> #[trigger] json::json_get(r.record.metadata, key)
                    == json::json_get(a.record.metadata, key)
            &&& notes(r.record.metadata, c)
            &&& forall|d: ContextRecord|
                #[trigger] notes(a.record.metadata, d) ==> notes(r.record.metadata, d)
        }),
{
    lemma_keys();
    let r = graph_context::combined(a, b, by_match);
    let facts = graph_context::with_facts_of(a.record.metadata, b.record.metadata);
    lemma_with_facts_of(a.record.metadata, b.record.metadata);
    match json::json_get(b.record.metadata, "graph_matches"@) {
        Some(JsonView::Array(found)) => {
            lemma_with_matches(facts, found);
            if c.fact_id is None {
                let i = choose|i: int|
                    0 <= i < found.len() && json::json_get(#[trigger] found[i], "record_id"@)
                        == Some(JsonView::Text(c.record.id));
                assert(0 <= i < found.len());
                assert(lists_match(graph_context::with_matches(facts, found), c.record.id));
            }
        },
        _ => {},
    }
    let last = r.record.metadata;
    assert(json::json_get(last, "graph_facts"@) == json::json_get(facts, "graph_facts"@));
    assert(json::json_get(last, "graph_facts_truncated"@) == json::json_get(
        facts,
        "graph_facts_truncated"@,
    ));
    assert forall|key: Seq<char>| !is_graph_key(key) implies #[trigger] json::json_get(last, key)
        == json::json_get(a.record.metadata, key) by {
        assert(json::json_get(facts, key) == json::json_get(a.record.metadata, key));
    }
    assert forall|d: ContextRecord| #[trigger] notes(a.record.metadata, d) implies notes(
        last,
        d,
    ) by {
        match d.fact_id {
            Some(id) => {
                if lists_fact(a.record.metadata, id) {
                    assert(lists_fact(facts, id));
                    assert(lists_fact(last, id));
                } else {
                    assert(marks_truncation(facts));
                    assert(marks_truncation(last));
                }
            },
            None => {
                assert(json::json_get(facts, "graph_matches"@) == json::json_get(
                    a.record.metadata,
                    "graph_matches"@,
                ));
                assert(lists_match(facts, d.record.id));
            },
        }
    }
    match c.fact_id {
        Some(id) => {
            if lists_fact(b.record.metadata, id) {
                assert(lists_fact(facts, id) || marks_truncation(facts));
            }
            if lists_fact(facts, id) {
                assert(lists_fact(last, id));
            }
            if marks_truncation(facts) {
                assert(marks_truncation(last));
            }
        },
        None => {},
    }
}

proof fn lemma_hits_grow(
    all: Seq<ContextRecord>,
    c: ContextRecord,
    filter: Option<JsonView>,
    id: Seq<char>,
    i: int,
)
    ensures
        is_hit(all.push(c), filter, id, i) <==> is_hit(all, filter, id, i) || (i == all.len()
            && id_of(c.record) == id && record::matches_filter(c.record.metadata, filter)),
        is_first_hit(all, filter, id, i) ==> is_first_hit(all.push(c), filter, id, i),
{
    let more = all.push(c);
    if is_first_hit(all, filter, id, i) {
        assert forall|j: int| 0 <= j < i implies !is_hit(more, filter, id, j) by {
            assert(more[j] == all[j]);
            assert(!is_hit(all, filter, id, j));
        }
    }
}

/// A candidate stays what it is when a record is added that is not a hit of its
/// own.
proof fn lemma_candidate_stays(
    k: ScoredView,
    all: Seq<ContextRecord>,
    c: ContextRecord,
    filter: Option<JsonView>,
)
    requires
        is_candidate_in(k, all, filter),
        id_of(c.record) != k.record.id || !record::matches_filter(c.record.metadata, filter),
    ensures
        is_candidate_in(k, all.push(c), filter),
{
    let more = all.push(c);
    let id = k.record.id;
    let i = choose|i: int|
        is_first_hit(all, filter, id, i) && has_content_of(k.record, (#[trigger] all[i]).record);
    lemma_hits_grow(all, c, filter, id, i);
    assert(is_first_hit(more, filter, id, i) && has_content_of(k.record, more[i].record));
    let j = choose|j: int| is_hit(all, filter, id, j) && (#[trigger] all[j]).score == k.score;
    lemma_hits_grow(all, c, filter, id, j);
    assert(is_hit(more, filter, id, j) && more[j].score == k.score);
    assert forall|h: int| is_hit(more, filter, id, h) implies (#[trigger] more[h]).score <= k.score
        && notes(k.record.metadata, more[h]) by {
        lemma_hits_grow(all, c, filter, id, h);
        assert(more[h] == all[h]);
    }
}

proof fn lemma_describes_skip(
    s: Seq<ScoredView>,
    all: Seq<ContextRecord>,
    c: ContextRecord,
    filter: Option<JsonView>,
)
    requires
        describes(s, all, filter),
        !record::matches_filter(c.record.metadata, filter),
    ensures
        describes(s, all.push(c), filter),
{
    let more = all.push(c);
    assert forall|k: int| 0 <= k < s.len() implies is_candidate_in(#[trigger] s[k], more, filter) by {
        lemma_candidate_stays(s[k], all, c, filter);
    }
    assert forall|i: int|
        0 <= i < more.len() && record::matches_filter(
            (#[trigger] more[i]).record.metadata,
            filter,
        ) implies has_id(s, id_of(more[i].record)) by {
        assert(more[i] == all[i]);
    }
}

proof fn lemma_describes_find(
    s: Seq<ScoredView>,
    all: Seq<ContextRecord>,
    c: ContextRecord,
    x: ScoredView,
    filter: Option<JsonView>,
)
    requires
        describes(s, all, filter),
        record::matches_filter(c.record.metadata, filter),
        is_find_of(x, c),
    ensures
        describes(graph_context::with_find(s, x, c.fact_id is None), all.push(c), filter),
{
    let more = all.push(c);
    let id = x.record.id;
    let n = all.len() as int;
    let r = graph_context::with_find(s, x, c.fact_id is None);
    let at = graph_context::scored_index(s, id);
    graph_context::lemma_scored_index(s, id);
    assert(more[n] == c);
    lemma_hits_grow(all, c, filter, id, n);
    assert(is_hit(more, filter, id, n));
    if at < s.len() {
        let known = s[at];
        lemma_combined(known, x, c.fact_id is None, c);
        let now = r[at];
        assert(now.record.id == id && known.record.id == id);
        let i = choose|i: int|
            is_first_hit(all, filter, id, i) && has_content_of(
                known.record,
                (#[trigger] all[i]).record,
            );
        lemma_hits_grow(all, c, filter, id, i);
        assert(more[i] == all[i]);
        assert(has_content_of(now.record, more[i].record)) by {
            assert forall|key: Seq<char>| !is_graph_key(key) implies #[trigger] json::json_get(
                now.record.metadata,
                key,
            ) == json::json_get(more[i].record.metadata, key) by {
                assert(json::json_get(known.record.metadata, key) == json::json_get(
                    all[i].record.metadata,
                    key,
                ));
            }
        }
        assert(is_first_hit(more, filter, id, i) && has_content_of(now.record, more[i].record));
        let j = choose|j: int|
            is_hit(all, filter, id, j) && (#[trigger] all[j]).score == known.score;
        lemma_hits_grow(all, c, filter, id, j);
        assert(is_hit(more, filter, id, j) && more[j].score == known.score);
        assert(is_hit(more, filter, id, n) && more[n].score == x.score);
        assert forall|h: int| is_hit(more, filter, id, h) implies (#[trigger] more[h]).score
            <= now.score && notes(now.record.metadata, more[h]) by {
            lemma_hits_grow(all, c, filter, id, h);
            if h < n {
                assert(more[h] == all[h]);
                assert(notes(known.record.metadata, all[h]));
            }
        }
        assert(is_highest_score(more, filter, id, now.score));
        assert(is_candidate_in(now, more, filter));
    } else {
        assert forall|h: int| is_hit(more, filter, id, h) implies h == n by {
            lemma_hits_grow(all, c, filter, id, h);
            if h < n {
                assert(record::matches_filter(all[h].record.metadata, filter));
                assert(has_id(s, id_of(all[h].record)));
            }
        }
        assert(r[s.len() as int] == x);
        assert(is_first_hit(more, filter, id, n) && has_content_of(x.record, more[n].record));
        assert(is_hit(more, filter, id, n) && more[n].score == x.score);
        assert(is_candidate_in(x, more, filter));
    }
    assert forall|k: int| 0 <= k < r.len() implies is_candidate_in(#[trigger] r[k], more, filter) by {
        if k < s.len() && k != at {
            assert(r[k] == s[k]);
            if at < s.len() {
                if k < at {
                    assert(s[k].record.id != s[at].record.id);
                } else {
                    assert(s[at].record.id != s[k].record.id);
                }
            }
            lemma_candidate_stays(s[k], all, c, filter);
        }
    }
    assert forall|a: int, b: int| 0 <= a < b < r.len() implies (#[trigger] r[a]).record.id != (
    #[trigger] r[b]).record.id by {
        if b < s.len() {
            assert(s[a].record.id != s[b].record.id);
        }
    }
    assert forall|i: int|
        0 <= i < more.len() && record::matches_filter(
            (#[trigger] more[i]).record.metadata,
            filter,
        ) implies has_id(r, id_of(more[i].record)) by {
        if i < n {
            assert(more[i] == all[i]);
            let k = choose|k: int|
                0 <= k < s.len() && (#[trigger] s[k]).record.id == id_of(all[i].record);
            assert(r[k].record.id == s[k].record.id);
        } else if at < s.len() {
            assert(r[at].record.id == id);
        } else {
            assert(r[s.len() as int].record.id == id);
        }
    }
}

proof fn lemma_fact_records_describe(
    s: Seq<ScoredView>,
    all: Seq<ContextRecord>,
    u: FactUnitView,
    n: nat,
    filter: Option<JsonView>,
)
    requires
        describes(s, all, filter),
        n <= u.evidence_records.len(),
    ensures
        describes(
            graph_context::with_fact_records(s, u, n, filter),
            all + evidence_for(u, n),
            filter,
        ),
    decreases n,
{
    if n == 0 {
        assert(all + evidence_for(u, n) =~= all);
    } else {
        lemma_fact_records_describe(s, all, u, (n - 1) as nat, filter);
        let before = graph_context::with_fact_records(s, u, (n - 1) as nat, filter);
        let so_far = all + evidence_for(u, (n - 1) as nat);
        let c = evidence_for(u, n)[n - 1];
        assert(all + evidence_for(u, n) =~= so_far.push(c));
        lemma_fact_find(u, n - 1);
        if record::matches_filter(c.record.metadata, filter) {
            lemma_describes_find(
                before,
                so_far,
                c,
                graph_context::fact_find(u, u.evidence_records[n - 1]),
                filter,
            );
        } else {
            lemma_describes_skip(before, so_far, c, filter);
        }
    }
}

proof fn lemma_facts_describe(facts: Seq<FactUnitView>, filter: Option<JsonView>)
    ensures
        describes(graph_context::facts_found(facts, filter), evidence_in(facts), filter),
    decreases facts.len(),
{
    if facts.len() > 0 {
        lemma_facts_describe(facts.drop_last(), filter);
        lemma_fact_records_describe(
            graph_context::facts_found(facts.drop_last(), filter),
            evidence_in(facts.drop_last()),
            facts.last(),
            facts.last().evidence_records.len(),
            filter,
        );
    }
}

proof fn lemma_records_describe(
    facts: Seq<FactUnitView>,
    records: Seq<RecordUnitView>,
    filter: Option<JsonView>,
)
    ensures
        describes(
            graph_context::records_found(
                graph_context::facts_found(facts, filter),
                records,
                filter,
            ),
            records_in(facts, records),
            filter,
        ),
    decreases records.len(),
{
    let start = graph_context::facts_found(facts, filter);
    if records.len() == 0 {
        lemma_facts_describe(facts, filter);
        assert(records_in(facts, records) =~= evidence_in(facts));
    } else {
        let front = records.drop_last();
        lemma_records_describe(facts, front, filter);
        let before = graph_context::records_found(start, front, filter);
        let c = ContextRecord {
            record: records.last().record,
            score: records.last().score as int,
            fact_id: None,
        };
        assert(records_in(facts, records) =~= records_in(facts, front).push(c));
        lemma_record_find(records.last());
        if record::matches_filter(c.record.metadata, filter) {
            lemma_describes_find(
                before,
                records_in(facts, front),
                c,
                graph_context::record_find(records.last()),
                filter,
            );
        } else {
            lemma_describes_skip(before, records_in(facts, front), c, filter);
        }
    }
}

/// A candidate of the graph is a record of the context that passes the filter.
/// It has the content of the first such record under its id and the highest
/// score of them all, and its metadata notes how each of them came about. There
/// is one candidate for each id, and they are no more than wanted.
pub proof fn candidates_pass_the_filter(
    facts: Seq<FactUnitView>,
    records: Seq<RecordUnitView>,
    filter: Option<JsonView>,
    limit: nat,
)
    ensures
        graph_context::context_candidates(facts, records, filter, limit).len() <= limit,
        forall|k: int|
            0 <= k < graph_context::context_candidates(facts, records, filter, limit).len()
                ==> is_candidate_in(
                #[trigger] graph_context::context_candidates(facts, records, filter, limit)[k],
                records_in(facts, records),
                filter,
            ),
        forall|a: int, b: int|
            0 <= a < b < graph_context::context_candidates(facts, records, filter, limit).len()
                ==> (#[trigger] graph_context::context_candidates(
                facts,
                records,
                filter,
                limit,
            )[a]).record.id != (#[trigger] graph_context::context_candidates(
                facts,
                records,
                filter,
                limit,
            )[b]).record.id,
{
    let found = graph_context::records_found(
        graph_context::facts_found(facts, filter),
        records,
        filter,
    );
    let top = graph_context::context_candidates(facts, records, filter, limit);
    lemma_records_describe(facts, records, filter);
    ranking::top_results_have_the_highest_scores(found, limit);
    assert forall|k: int| 0 <= k < top.len() implies is_candidate_in(
        #[trigger] top[k],
        records_in(facts, records),
        filter,
    ) by {
        let i = lemma_top_is_given(found, limit, k);
        assert(is_candidate_in(found[i], records_in(facts, records), filter));
    }
    assert forall|a: int, b: int| 0 <= a < b < top.len() implies (#[trigger] top[a]).record.id != (
    #[trigger] top[b]).record.id by {
        lemma_top_stays_distinct(found, limit, a, b);
    }
}

proof fn lemma_top_is_given(s: Seq<ScoredView>, limit: nat, k: int) -> (i: int)
    requires
        0 <= k < ranking::top_ranked(s, limit).len(),
    ensures
        0 <= i < s.len(),
        s[i] == ranking::top_ranked(s, limit)[k],
{
    broadcast use vstd::seq_lib::group_to_multiset_ensures;

    let top = ranking::top_ranked(s, limit);
    ranking::top_results_have_the_highest_scores(s, limit);
    assert(top.contains(top[k]));
    assert(top.to_multiset().count(top[k]) > 0);
    assert(s.to_multiset().count(top[k]) > 0);
    assert(s.contains(top[k]));
    choose|i: int| 0 <= i < s.len() && s[i] == top[k]
}

proof fn lemma_top_stays_distinct(s: Seq<ScoredView>, limit: nat, a: int, b: int)
    requires
        forall|i: int, j: int|
            0 <= i < j < s.len() ==> (#[trigger] s[i]).record.id != (#[trigger] s[j]).record.id,
        0 <= a < b < ranking::top_ranked(s, limit).len(),
    ensures
        ranking::top_ranked(s, limit)[a].record.id != ranking::top_ranked(s, limit)[b].record.id,
{
    broadcast use vstd::seq_lib::group_to_multiset_ensures;

    let top = ranking::top_ranked(s, limit);
    ranking::top_results_have_the_highest_scores(s, limit);
    let i = lemma_top_is_given(s, limit, a);
    let j = lemma_top_is_given(s, limit, b);
    if i < j {
        assert(s[i].record.id != s[j].record.id);
    } else if j < i {
        assert(s[j].record.id != s[i].record.id);
    } else {
        assert(s.no_duplicates()) by {
            assert forall|p: int, q: int| 0 <= p < s.len() && 0 <= q < s.len() && p != q implies s[p]
                != s[q] by {
                if p < q {
                    assert(s[p].record.id != s[q].record.id);
                } else {
                    assert(s[q].record.id != s[p].record.id);
                }
            }
        }
        ranking::ranking_orders_and_keeps_all(s);
        let all = ranking::ranked(s);
        s.lemma_multiset_has_no_duplicates();
        assert forall|x: ScoredView| all.to_multiset().contains(x) implies #[trigger] all.to_multiset().count(
            x,
        ) == 1 by {
            assert(s.to_multiset().contains(x));
        }
        all.lemma_multiset_has_no_duplicates_conv();
        assert(all[a] != all[b]);
    }
}

/// Every record of the context that passes the filter is among the candidates
/// under its id, unless there are already as many as wanted that score no less.
pub proof fn candidates_miss_no_record(
    facts: Seq<FactUnitView>,
    records: Seq<RecordUnitView>,
    filter: Option<JsonView>,
    limit: nat,
    i: int,
)
    requires
        0 <= i < records_in(facts, records).len(),
        record::matches_filter(records_in(facts, records)[i].record.metadata, filter),
    ensures
        ({
            let top = graph_context::context_candidates(facts, records, filter, limit);
            let r = records_in(facts, records)[i];
            ||| exists|k: int| 0 <= k < top.len() && (#[trigger] top[k]).record.id == id_of(r.record)
            ||| top.len() == limit && forall|k: int|
                0 <= k < top.len() ==> (#[trigger] top[k]).score >= r.score
        }),
{
    broadcast use vstd::seq_lib::group_to_multiset_ensures;

    let all = records_in(facts, records);
    let r = all[i];
    let found = graph_context::records_found(
        graph_context::facts_found(facts, filter),
        records,
        filter,
    );
    let top = graph_context::context_candidates(facts, records, filter, limit);
    lemma_records_describe(facts, records, filter);
    ranking::top_results_have_the_highest_scores(found, limit);
    assert(has_id(found, id_of(r.record)));
    let f = choose|f: int| 0 <= f < found.len() && (#[trigger] found[f]).record.id == id_of(r.record);
    let x = found[f];
    assert(is_hit(all, filter, x.record.id, i));
    assert(is_candidate_in(x, all, filter));
    assert(x.score >= r.score);
    if !(exists|k: int| 0 <= k < top.len() && (#[trigger] top[k]).record.id == id_of(r.record)) {
        assert(!top.contains(x)) by {
            if top.contains(x) {
                let k = choose|k: int| 0 <= k < top.len() && top[k] == x;
                assert(top[k].record.id == id_of(r.record));
            }
        }
        assert(found.contains(x));
        assert(found.to_multiset().count(x) > 0);
        assert(top.to_multiset().count(x) == 0);
        assert forall|k: int| 0 <= k < top.len() implies (#[trigger] top[k]).score >= r.score by {
            assert(ranking::may_stand_before(top[k], x));
        }
        if top.len() < limit {
            assert(top.len() == found.len());
            assert(false) by {
                lemma_all_are_kept(found, limit, x);
            }
        }
    }
}

proof fn lemma_all_are_kept(s: Seq<ScoredView>, limit: nat, x: ScoredView)
    requires
        s.len() <= limit,
        s.contains(x),
    ensures
        ranking::top_ranked(s, limit).contains(x),
{
    broadcast use vstd::seq_lib::group_to_multiset_ensures;

    ranking::ranking_orders_and_keeps_all(s);
    let top = ranking::top_ranked(s, limit);
    assert(top =~= ranking::ranked(s));
    assert(s.to_multiset().count(x) > 0);
    assert(top.to_multiset().count(x) > 0);
}

/// The candidates go from the highest score to the lowest.
pub proof fn candidates_go_by_their_scores(
    facts: Seq<FactUnitView>,
    records: Seq<RecordUnitView>,
    filter: Option<JsonView>,
    limit: nat,
    a: int,
    b: int,
)
    requires
        0 <= a < b < graph_context::context_candidates(facts, records, filter, limit).len(),
    ensures
        ranking::may_stand_before(
            graph_context::context_candidates(facts, records, filter, limit)[a],
            graph_context::context_candidates(facts, records, filter, limit)[b],
        ),
{
    ranking::top_results_have_the_highest_scores(
        graph_context::records_found(graph_context::facts_found(facts, filter), records, filter),
        limit,
    );
}

/// Noting the facts and the matches of other metadata leaves every other member
/// as it is, keeps what is noted already, and notes each fact of the other, unless
/// facts are left out.
pub proof fn notes_leave_the_rest(target: JsonView, source: JsonView)
    ensures
        ({
            let r = graph_context::with_matches_of(
                graph_context::with_facts_of(target, source),
                source,
            );
            &&& forall|key: Seq<char>|
                !is_graph_key(key) ==> #[trigger] json::json_get(r, key) == json::json_get(
                    target,
                    key,
                )
            &&& forall|id: Seq<char>| #[trigger] lists_fact(target, id) ==> lists_fact(r, id)
            &&& forall|id: Seq<char>| #[trigger]
                lists_fact(source, id) ==> lists_fact(r, id) || marks_truncation(r)
            &&& forall|id: Seq<char>| #[trigger] lists_match(target, id) ==> lists_match(r, id)
            &&& forall|id: Seq<char>| #[trigger] lists_match(source, id) ==> lists_match(r, id)
            &&& marks_truncation(target) ==> marks_truncation(r)
        }),
{
    lemma_keys();
    let facts = graph_context::with_facts_of(target, source);
    let r = graph_context::with_matches_of(facts, source);
    lemma_with_facts_of(target, source);
    match json::json_get(source, "graph_matches"@) {
        Some(JsonView::Array(found)) => {
            lemma_with_matches(facts, found);
            assert forall|id: Seq<char>| #[trigger] lists_match(source, id) implies lists_match(
                r,
                id,
            ) by {
                let i = choose|i: int|
                    0 <= i < found.len() && json::json_get(#[trigger] found[i], "record_id"@)
                        == Some(JsonView::Text(id));
                assert(0 <= i < found.len());
            }
        },
        _ => {},
    }
    assert(json::json_get(r, "graph_facts"@) == json::json_get(facts, "graph_facts"@));
    assert(json::json_get(r, "graph_facts_truncated"@) == json::json_get(
        facts,
        "graph_facts_truncated"@,
    ));
    assert(json::json_get(facts, "graph_matches"@) == json::json_get(target, "graph_matches"@));
    assert forall|key: Seq<char>| !is_graph_key(key) implies #[trigger] json::json_get(r, key)
        == json::json_get(target, key) by {
        assert(json::json_get(facts, key) == json::json_get(target, key));
    }
    assert forall|id: Seq<char>| #[trigger] lists_fact(target, id) implies lists_fact(r, id) by {
        assert(lists_fact(facts, id));
    }
    assert forall|id: Seq<char>| #[trigger] lists_fact(source, id) implies lists_fact(r, id)
        || marks_truncation(r) by {
        assert(lists_fact(facts, id) || marks_truncation(facts));
    }
    assert forall|id: Seq<char>| #[trigger] lists_match(target, id) implies lists_match(r, id) by {
        assert(lists_match(facts, id));
    }
}

} // verus!
