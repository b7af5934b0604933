//! What the memory graph contributes to a search: the facts and matches that
//! are noted in a record's metadata, and the candidates that a retrieved
//! context yields.

use vstd::prelude::*;

use crate::api;
use crate::api::{ScoredMemory, ScoredView};
use crate::json;
use crate::graph_types;
use crate::graph_types::{
    Entity, EntityView, EvidenceRecordContextUnit, EvidenceRecordMatchKind, FactContextUnit,
    FactUnitView, GraphMemoryRecord, GraphRecordView, RecordUnitView,
};
use crate::json::{Json, JsonView};
use crate::ranking;
use crate::ranking::rank_results;
use crate::record;
use crate::record::{clone_bits, metadata_matches, MemoryRecord, RecordView};
use crate::text;
use crate::text::{text_eq, trim, utf8_len};

verus! {

pub const MAX_GRAPH_FACTS_PER_RECORD: usize = 16;

pub const MAX_GRAPH_FACT_METADATA_BYTES: usize = 16384;

/// The array that an object holds under `key`, or no items.
pub open spec fn list_under(v: JsonView, key: Seq<char>) -> Seq<JsonView> {
    match json::json_get(v, key) {
        Some(JsonView::Array(items)) => items,
        _ => Seq::empty(),
    }
}

/// Whether one of the facts has the id of `fact`.
pub open spec fn fact_is_listed(facts: Seq<JsonView>, fact: JsonView) -> bool {
    json::json_get_text(fact, "fact_id"@) is Some && exists|i: int|
        0 <= i < facts.len() && json::json_get_text(#[trigger] facts[i], "fact_id"@)
            == json::json_get_text(fact, "fact_id"@)
}

/// Whether a fact, as it is written, is too long to be noted.
pub open spec fn fact_is_oversized(fact: JsonView) -> bool {
    text::byte_len(json::compact_text(fact)) > MAX_GRAPH_FACT_METADATA_BYTES
}

/// Metadata with one more fact under `graph_facts`. A fact that is listed
/// already changes nothing; where there are enough facts, or the fact is too
/// long, `graph_facts_truncated` is set instead.
pub open spec fn with_sized_fact(metadata: JsonView, fact: JsonView, oversized: bool) -> JsonView {
    let object = json::as_object_or_empty(metadata);
    let facts = list_under(object, "graph_facts"@);
    if fact_is_listed(facts, fact) {
        json::json_put(object, "graph_facts"@, JsonView::Array(facts))
    } else if oversized || facts.len() >= MAX_GRAPH_FACTS_PER_RECORD {
        json::json_put(
            json::json_put(object, "graph_facts"@, JsonView::Array(facts)),
            "graph_facts_truncated"@,
            JsonView::Bool(true),
        )
    } else {
        json::json_put(object, "graph_facts"@, JsonView::Array(facts.push(fact)))
    }
}

/// Metadata with one more fact, by its own length.
pub open spec fn with_fact(metadata: JsonView, fact: JsonView) -> JsonView {
    with_sized_fact(metadata, fact, fact_is_oversized(fact))
}

pub open spec fn with_facts(metadata: JsonView, facts: Seq<JsonView>) -> JsonView
    decreases facts.len(),
{
    if facts.len() == 0 {
        metadata
    } else {
        with_fact(with_facts(metadata, facts.drop_last()), facts.last())
    }
}

/// Metadata with the facts that other metadata lists, and with its mark of
/// truncation.
pub open spec fn with_facts_of(target: JsonView, source: JsonView) -> JsonView {
    match json::json_get(source, "graph_facts"@) {
        Some(JsonView::Array(facts)) => {
            let marked = if json::json_get(source, "graph_facts_truncated"@) == Some(
                JsonView::Bool(true),
            ) {
                json::json_put(
                    json::as_object_or_empty(target),
                    "graph_facts_truncated"@,
                    JsonView::Bool(true),
                )
            } else {
                target
            };
            with_facts(marked, facts)
        },
        _ => target,
    }
}

/// Whether two matches name the same record in the same way.
pub open spec fn same_match(a: JsonView, b: JsonView) -> bool {
    &&& json::json_get_text(a, "record_id"@) == json::json_get_text(b, "record_id"@)
    &&& json::json_get_text(a, "kind"@) == json::json_get_text(b, "kind"@)
    &&& json::json_get_text(a, "match_kind"@) == json::json_get_text(b, "match_kind"@)
}

pub open spec fn match_is_listed(matches: Seq<JsonView>, found: JsonView) -> bool {
    exists|i: int| 0 <= i < matches.len() && same_match(#[trigger] matches[i], found)
}

/// Metadata with one more match under `graph_matches`, unless it is listed.
pub open spec fn with_match(metadata: JsonView, found: JsonView) -> JsonView {
    let object = json::as_object_or_empty(metadata);
    let matches = list_under(object, "graph_matches"@);
    let listed = if match_is_listed(matches, found) {
        matches
    } else {
        matches.push(found)
    };
    json::json_put(object, "graph_matches"@, JsonView::Array(listed))
}

pub open spec fn with_matches(metadata: JsonView, matches: Seq<JsonView>) -> JsonView
    decreases matches.len(),
{
    if matches.len() == 0 {
        metadata
    } else {
        with_match(with_matches(metadata, matches.drop_last()), matches.last())
    }
}

/// Metadata with the matches that other metadata lists.
pub open spec fn with_matches_of(target: JsonView, source: JsonView) -> JsonView {
    match json::json_get(source, "graph_matches"@) {
        Some(JsonView::Array(matches)) => with_matches(target, matches),
        _ => target,
    }
}

/// A copy of the array that an object holds under `key`.
fn copy_list(v: &Json, key: &str) -> (r: Vec<Json>)
    ensures
        json::json_views(r@) == list_under(v@, key@),
{
    let mut r: Vec<Json> = Vec::new();
    match v.get(key) {
        Some(Json::Array(items)) => {
            proof {
                json::lemma_array_view(*items);
            }
            let mut i: usize = 0;
            while i < items.len()
                invariant
                    i <= items@.len(),
                    r@.len() == i,
                    forall|k: int| 0 <= k < i ==> (#[trigger] r@[k])@ == items@[k]@,
                decreases items@.len() - i,
            {
                r.push(items[i].clone());
                i += 1;
            }
            assert(json::json_views(r@) =~= json::json_views(items@));
        },
        _ => {
            assert(json::json_views(r@) =~= Seq::empty());
        },
    }
    r
}

/// Whether the texts that two values hold under `key` are the same, or both
/// hold none.
fn same_text_under(a: &Json, b: &Json, key: &str) -> (r: bool)
    ensures
        r == (json::json_get_text(a@, key@) == json::json_get_text(b@, key@)),
{
    match (a.get_str(key), b.get_str(key)) {
        (Some(x), Some(y)) => text_eq(x, y),
        (None, None) => true,
        _ => false,
    }
}

fn is_listed_fact(facts: &Vec<Json>, fact: &Json) -> (r: bool)
    ensures
        r == fact_is_listed(json::json_views(facts@), fact@),
{
    if fact.get_str("fact_id").is_none() {
        return false;
    }
    let mut i: usize = 0;
    while i < facts.len()
        invariant
            i <= facts@.len(),
            json::json_get_text(fact@, "fact_id"@) is Some,
            forall|k: int|
                0 <= k < i ==> json::json_get_text(
                    #[trigger] json::json_views(facts@)[k],
                    "fact_id"@,
                ) != json::json_get_text(fact@, "fact_id"@),
        decreases facts@.len() - i,
    {
        assert(json::json_views(facts@)[i as int] == facts@[i as int]@);
        if same_text_under(&facts[i], fact, "fact_id") {
            return true;
        }
        i += 1;
    }
    false
}

fn is_listed_match(matches: &Vec<Json>, found: &Json) -> (r: bool)
    ensures
        r == match_is_listed(json::json_views(matches@), found@),
{
    let mut i: usize = 0;
    while i < matches.len()
        invariant
            i <= matches@.len(),
            forall|k: int|
                0 <= k < i ==> !same_match(#[trigger] json::json_views(matches@)[k], found@),
        decreases matches@.len() - i,
    {
        assert(json::json_views(matches@)[i as int] == matches@[i as int]@);
        if same_text_under(&matches[i], found, "record_id") && same_text_under(
            &matches[i],
            found,
            "kind",
        ) && same_text_under(&matches[i], found, "match_kind") {
            return true;
        }
        i += 1;
    }
    false
}

/// Notes a fact in a record's metadata.
pub fn append_graph_fact_metadata(metadata: &mut Json, graph_fact: &Json)
    ensures
        final(metadata)@ == with_fact(old(metadata)@, graph_fact@),
{
    let encoded = graph_fact.serialize();
    let oversized = utf8_len(encoded.as_str()) > MAX_GRAPH_FACT_METADATA_BYTES;
    append_sized_fact(metadata, graph_fact, oversized);
}

/// Notes a fact in a record's metadata, given whether it is too long.
pub fn append_sized_fact(metadata: &mut Json, graph_fact: &Json, oversized: bool)
    ensures
        final(metadata)@ == with_sized_fact(old(metadata)@, graph_fact@, oversized),
{
    metadata.ensure_object();
    let mut facts = copy_list(metadata, "graph_facts");
    let ghost before = json::json_views(facts@);
    let listed = is_listed_fact(&facts, graph_fact);
    let count: usize = facts.len();
    assert(before.len() == count);
    if listed {
        proof {
            json::lemma_array_view(facts);
        }
        metadata.put("graph_facts", Json::Array(facts));
    } else {
        if oversized || count >= MAX_GRAPH_FACTS_PER_RECORD {
            proof {
                json::lemma_array_view(facts);
            }
            metadata.put("graph_facts", Json::Array(facts));
            metadata.put("graph_facts_truncated", Json::Bool(true));
        } else {
            let fact = graph_fact.clone();
            facts.push(fact);
            proof {
                json::lemma_array_view(facts);
                assert(json::json_views(facts@) =~= before.push(graph_fact@));
            }
            metadata.put("graph_facts", Json::Array(facts));
        }
    }
}

/// Notes the facts that other metadata lists.
pub fn merge_graph_facts_metadata(target: &mut Json, source: &Json)
    ensures
        final(target)@ == with_facts_of(old(target)@, source@),
{
    let has_list = match source.get("graph_facts") {
        Some(Json::Array(_)) => true,
        _ => false,
    };
    if !has_list {
        return;
    }
    let truncated = match source.get("graph_facts_truncated") {
        Some(Json::Bool(b)) => *b,
        _ => false,
    };
    let facts = copy_list(source, "graph_facts");
    let ghost all = json::json_views(facts@);
    if truncated {
        target.ensure_object();
        target.put("graph_facts_truncated", Json::Bool(true));
    }
    let ghost marked = target@;
    let mut i: usize = 0;
    assert(all.take(0) =~= Seq::empty());
    while i < facts.len()
        invariant
            i <= facts@.len(),
            all == json::json_views(facts@),
            target@ == with_facts(marked, all.take(i as int)),
        decreases facts@.len() - i,
    {
        append_graph_fact_metadata(target, &facts[i]);
        assert(all.take(i + 1).drop_last() =~= all.take(i as int));
        assert(all.take(i + 1).last() == facts@[i as int]@);
        i += 1;
    }
    assert(all.take(i as int) =~= all);
}

/// Notes a match in a record's metadata.
pub fn append_graph_match_metadata(metadata: &mut Json, graph_match: &Json)
    ensures
        final(metadata)@ == with_match(old(metadata)@, graph_match@),
{
    metadata.ensure_object();
    let mut matches = copy_list(metadata, "graph_matches");
    let ghost before = json::json_views(matches@);
    if !is_listed_match(&matches, graph_match) {
        let found = graph_match.clone();
        matches.push(found);
        assert(json::json_views(matches@) =~= before.push(graph_match@));
    }
    proof {
        json::lemma_array_view(matches);
    }
    metadata.put("graph_matches", Json::Array(matches));
}

/// Notes the matches that other metadata lists.
pub fn merge_graph_matches_metadata(target: &mut Json, source: &Json)
    ensures
        final(target)@ == with_matches_of(old(target)@, source@),
{
    let has_list = match source.get("graph_matches") {
        Some(Json::Array(_)) => true,
        _ => false,
    };
    if !has_list {
        return;
    }
    let matches = copy_list(source, "graph_matches");
    let ghost all = json::json_views(matches@);
    let ghost start = target@;
    let mut i: usize = 0;
    assert(all.take(0) =~= Seq::empty());
    while i < matches.len()
        invariant
            i <= matches@.len(),
            all == json::json_views(matches@),
            target@ == with_matches(start, all.take(i as int)),
        decreases matches@.len() - i,
    {
        append_graph_match_metadata(target, &matches[i]);
        assert(all.take(i + 1).drop_last() =~= all.take(i as int));
        assert(all.take(i + 1).last() == matches@[i as int]@);
        i += 1;
    }
    assert(all.take(i as int) =~= all);
}

/// A record's metadata never lists more than sixteen facts on account of
/// noting one more, and a fact that was not noted for want of room or for its
/// length leaves the mark of truncation.
pub proof fn noted_facts_are_bounded(metadata: JsonView, fact: JsonView)
    requires
        list_under(json::as_object_or_empty(metadata), "graph_facts"@).len()
            <= MAX_GRAPH_FACTS_PER_RECORD,
    ensures
        list_under(with_fact(metadata, fact), "graph_facts"@).len() <= MAX_GRAPH_FACTS_PER_RECORD,
        fact_is_listed(list_under(with_fact(metadata, fact), "graph_facts"@), fact) || json::json_get_text(fact, "fact_id"@) is None
            || json::json_get(with_fact(metadata, fact), "graph_facts_truncated"@) == Some(
            JsonView::Bool(true),
        ),
{
    reveal_strlit("graph_facts");
    reveal_strlit("graph_facts_truncated");
    let object = json::as_object_or_empty(metadata);
    let facts = list_under(object, "graph_facts"@);
    let listed = json::json_put(object, "graph_facts"@, JsonView::Array(facts));
    json::put_then_get(object, "graph_facts"@, JsonView::Array(facts), "graph_facts"@);
    assert("graph_facts"@.len() != "graph_facts_truncated"@.len());
    json::put_then_get(listed, "graph_facts_truncated"@, JsonView::Bool(true), "graph_facts"@);
    let more = facts.push(fact);
    json::put_then_get(object, "graph_facts"@, JsonView::Array(more), "graph_facts"@);
    if json::json_get_text(fact, "fact_id"@) is Some {
        assert(more[facts.len() as int] == fact);
    }
}

/// Noting a fact twice is noting it once.
pub proof fn noting_a_fact_again_changes_nothing(metadata: JsonView, fact: JsonView)
    requires
        json::json_get_text(fact, "fact_id"@) is Some,
        fact_is_listed(list_under(with_fact(metadata, fact), "graph_facts"@), fact),
    ensures
        with_fact(with_fact(metadata, fact), fact) == with_fact(metadata, fact),
{
    let once = with_fact(metadata, fact);
    let object = json::as_object_or_empty(metadata);
    assert(once is Object);
    let facts = list_under(once, "graph_facts"@);
    let i = json::member_index(once->Object_0, "graph_facts"@);
    json::lemma_member_index_bounds(once->Object_0, "graph_facts"@);
    assert(facts.len() > 0);
    assert(json::json_get(once, "graph_facts"@) == Some(JsonView::Array(facts)));
    assert(once->Object_0[i] == ("graph_facts"@, JsonView::Array(facts)));
    assert(once->Object_0.update(i, ("graph_facts"@, JsonView::Array(facts)))
        =~= once->Object_0);
}

/// An object with the given members, put one after the other.
pub open spec fn object_of(members: Seq<(Seq<char>, JsonView)>) -> JsonView
    decreases members.len(),
{
    if members.len() == 0 {
        json::empty_object()
    } else {
        json::json_put(object_of(members.drop_last()), members.last().0, members.last().1)
    }
}

pub open spec fn number_or_null(n: Option<u64>) -> JsonView {
    match n {
        Some(n) => JsonView::Unsigned(n),
        None => JsonView::Null,
    }
}

pub open spec fn text_list(items: Seq<Seq<char>>) -> JsonView {
    JsonView::Array(Seq::new(items.len(), |i: int| JsonView::Text(items[i])))
}

pub open spec fn entity_json(e: EntityView) -> JsonView {
    object_of(
        seq![
            ("id"@, JsonView::Text(e.id)),
            ("name"@, JsonView::Text(e.canonical_name)),
            ("entity_type"@, JsonView::Text(e.entity_type)),
        ],
    )
}

/// How a fact is noted in the metadata of its evidence.
pub open spec fn fact_json(u: FactUnitView) -> JsonView {
    object_of(
        seq![
            ("fact_id"@, JsonView::Text(u.fact_id)),
            ("fact_text"@, JsonView::Text(u.fact_text)),
            ("predicate"@, JsonView::Text(u.predicate)),
            ("score"@, JsonView::Float(u.score_text)),
            ("subject"@, entity_json(u.subject)),
            ("object"@, entity_json(u.object)),
            ("valid_from_ms"@, number_or_null(u.valid_from_ms)),
            ("valid_to_ms"@, number_or_null(u.valid_to_ms)),
            ("recorded_at_ms"@, JsonView::Unsigned(u.recorded_at_ms)),
            ("path"@, text_list(u.path)),
        ],
    )
}

/// How a record that was found by itself is noted in its metadata.
pub open spec fn match_json(u: RecordUnitView) -> JsonView {
    object_of(
        seq![
            ("kind"@, JsonView::Text("evidence_record"@)),
            ("match_kind"@, JsonView::Text("lexical"@)),
            ("record_id"@, JsonView::Text(u.record.id)),
            ("score"@, JsonView::Float(u.score_text)),
            ("path"@, text_list(u.path)),
        ],
    )
}

proof fn lemma_object_of_push(
    members: Seq<(Seq<char>, JsonView)>,
    key: Seq<char>,
    value: JsonView,
)
    ensures
        object_of(members.push((key, value))) == json::json_put(object_of(members), key, value),
{
    assert(members.push((key, value)).drop_last() =~= members);
}

pub(crate) fn text_json(s: &str) -> (r: Json)
    ensures
        r@ == JsonView::Text(s@),
{
    Json::Text(s.to_owned())
}

fn number_json(n: Option<u64>) -> (r: Json)
    ensures
        r@ == number_or_null(n),
{
    match n {
        Some(n) => Json::Unsigned(n),
        None => Json::Null,
    }
}

/// A list of texts as a JSON array.
pub fn text_list_json(items: &Vec<String>) -> (r: Json)
    ensures
        r@ == text_list(text::strings(items@)),
{
    let mut list: Vec<Json> = Vec::new();
    let mut i: usize = 0;
    while i < items.len()
        invariant
            i <= items@.len(),
            list@.len() == i,
            forall|k: int| 0 <= k < i ==> (#[trigger] list@[k])@ == JsonView::Text(items@[k]@),
        decreases items@.len() - i,
    {
        list.push(Json::Text(items[i].clone()));
        i += 1;
    }
    proof {
        json::lemma_array_view(list);
        assert(json::json_views(list@) =~= text_list(text::strings(items@))->Array_0);
    }
    Json::Array(list)
}

pub(crate) fn put_member(
    object: &mut Json,
    Ghost(members): Ghost<Seq<(Seq<char>, JsonView)>>,
    key: &str,
    value: Json,
)
    requires
        old(object)@ == object_of(members),
    ensures
        final(object)@ == object_of(members.push((key@, value@))),
{
    proof {
        lemma_object_of_push(members, key@, value@);
    }
    object.put(key, value);
}

fn graph_entity_metadata(e: &Entity) -> (r: Json)
    ensures
        r@ == entity_json(e@),
{
    let mut object = Json::new_object();
    let ghost m0: Seq<(Seq<char>, JsonView)> = Seq::empty();
    put_member(&mut object, Ghost(m0), "id", text_json(e.id.as_str()));
    let ghost m1 = m0.push(("id"@, JsonView::Text(e.id@)));
    put_member(&mut object, Ghost(m1), "name", text_json(e.canonical_name.as_str()));
    let ghost m2 = m1.push(("name"@, JsonView::Text(e.canonical_name@)));
    put_member(&mut object, Ghost(m2), "entity_type", text_json(e.entity_type.as_str()));
    proof {
        let m3 = m2.push(("entity_type"@, JsonView::Text(e.entity_type@)));
        assert(m3 =~= seq![
            ("id"@, JsonView::Text(e.id@)),
            ("name"@, JsonView::Text(e.canonical_name@)),
            ("entity_type"@, JsonView::Text(e.entity_type@)),
        ]);
    }
    object
}

/// How a fact is noted in the metadata of its evidence.
pub fn graph_fact_metadata(unit: &FactContextUnit) -> (r: Json)
    ensures
        r@ == fact_json(unit@),
{
    let mut object = Json::new_object();
    let ghost m0: Seq<(Seq<char>, JsonView)> = Seq::empty();
    put_member(&mut object, Ghost(m0), "fact_id", text_json(unit.fact_id.as_str()));
    let ghost m1 = m0.push(("fact_id"@, JsonView::Text(unit.fact_id@)));
    put_member(&mut object, Ghost(m1), "fact_text", text_json(unit.fact_text.as_str()));
    let ghost m2 = m1.push(("fact_text"@, JsonView::Text(unit.fact_text@)));
    put_member(&mut object, Ghost(m2), "predicate", text_json(unit.predicate.as_str()));
    let ghost m3 = m2.push(("predicate"@, JsonView::Text(unit.predicate@)));
    put_member(&mut object, Ghost(m3), "score", Json::Float(unit.score_text.clone()));
    let ghost m4 = m3.push(("score"@, JsonView::Float(unit.score_text@)));
    let subject = graph_entity_metadata(&unit.subject_entity);
    put_member(&mut object, Ghost(m4), "subject", subject);
    let ghost m5 = m4.push(("subject"@, entity_json(unit.subject_entity@)));
    let object_entity = graph_entity_metadata(&unit.object_entity);
    put_member(&mut object, Ghost(m5), "object", object_entity);
    let ghost m6 = m5.push(("object"@, entity_json(unit.object_entity@)));
    put_member(&mut object, Ghost(m6), "valid_from_ms", number_json(unit.valid_from_ms));
    let ghost m7 = m6.push(("valid_from_ms"@, number_or_null(unit.valid_from_ms)));
    put_member(&mut object, Ghost(m7), "valid_to_ms", number_json(unit.valid_to_ms));
    let ghost m8 = m7.push(("valid_to_ms"@, number_or_null(unit.valid_to_ms)));
    put_member(&mut object, Ghost(m8), "recorded_at_ms", Json::Unsigned(unit.recorded_at_ms));
    let ghost m9 = m8.push(("recorded_at_ms"@, JsonView::Unsigned(unit.recorded_at_ms)));
    let path = text_list_json(&unit.path);
    put_member(&mut object, Ghost(m9), "path", path);
    proof {
        let m10 = m9.push(("path"@, text_list(unit@.path)));
        let u = unit@;
        assert(m10 =~= seq![
            ("fact_id"@, JsonView::Text(u.fact_id)),
            ("fact_text"@, JsonView::Text(u.fact_text)),
            ("predicate"@, JsonView::Text(u.predicate)),
            ("score"@, JsonView::Float(u.score_text)),
            ("subject"@, entity_json(u.subject)),
            ("object"@, entity_json(u.object)),
            ("valid_from_ms"@, number_or_null(u.valid_from_ms)),
            ("valid_to_ms"@, number_or_null(u.valid_to_ms)),
            ("recorded_at_ms"@, JsonView::Unsigned(u.recorded_at_ms)),
            ("path"@, text_list(u.path)),
        ]);
    }
    object
}

/// How a record that was found by itself is noted in its metadata.
pub fn graph_evidence_record_metadata(unit: &EvidenceRecordContextUnit) -> (r: Json)
    ensures
        r@ == match_json(unit@),
{
    let match_kind = match unit.match_kind {
        EvidenceRecordMatchKind::Lexical => "lexical",
    };
    let mut object = Json::new_object();
    let ghost m0: Seq<(Seq<char>, JsonView)> = Seq::empty();
    put_member(&mut object, Ghost(m0), "kind", text_json("evidence_record"));
    let ghost m1 = m0.push(("kind"@, JsonView::Text("evidence_record"@)));
    put_member(&mut object, Ghost(m1), "match_kind", text_json(match_kind));
    let ghost m2 = m1.push(("match_kind"@, JsonView::Text("lexical"@)));
    put_member(&mut object, Ghost(m2), "record_id", text_json(unit.record.id.as_str()));
    let ghost m3 = m2.push(("record_id"@, JsonView::Text(unit.record.id@)));
    put_member(&mut object, Ghost(m3), "score", Json::Float(unit.score_text.clone()));
    let ghost m4 = m3.push(("score"@, JsonView::Float(unit.score_text@)));
    let path = text_list_json(&unit.path);
    put_member(&mut object, Ghost(m4), "path", path);
    proof {
        let m5 = m4.push(("path"@, text_list(unit@.path)));
        let u = unit@;
        assert(m5 =~= seq![
            ("kind"@, JsonView::Text("evidence_record"@)),
            ("match_kind"@, JsonView::Text("lexical"@)),
            ("record_id"@, JsonView::Text(u.record.id)),
            ("score"@, JsonView::Float(u.score_text)),
            ("path"@, text_list(u.path)),
        ]);
    }
    object
}

/// The memory record that a graph record stands for. It goes by the reference
/// to its source where there is one, and names the agent that wrote it.
pub open spec fn memory_record_of(r: GraphRecordView) -> RecordView {
    RecordView {
        id: match r.source_ref {
            Some(source) if !text::is_blank(source) => text::trimmed(source),
            _ => r.id,
        },
        text: r.text,
        metadata: match r.created_by_agent_id {
            Some(agent) => json::json_put(
                json::as_object_or_empty(r.metadata),
                "source_agent_id"@,
                JsonView::Text(agent),
            ),
            None => r.metadata,
        },
        embedding: match r.embedding {
            Some(bits) => bits,
            None => Seq::empty(),
        },
        created_at_ms: r.created_at_ms,
        updated_at_ms: r.updated_at_ms,
    }
}

pub fn graph_record_to_memory_record(record: &GraphMemoryRecord) -> (r: MemoryRecord)
    ensures
        r@ == memory_record_of(record@),
{
    let id = match &record.source_ref {
        Some(source) => {
            let named = trim(source.as_str());
            if named.is_empty() {
                record.id.clone()
            } else {
                named.to_owned()
            }
        },
        None => record.id.clone(),
    };
    let mut metadata = record.metadata.clone();
    match &record.created_by_agent_id {
        Some(agent) => {
            metadata.ensure_object();
            metadata.put("source_agent_id", Json::Text(agent.clone()));
        },
        None => {},
    }
    let embedding = match &record.embedding {
        Some(bits) => clone_bits(bits),
        None => Vec::new(),
    };
    MemoryRecord {
        id,
        text: record.text.clone(),
        metadata,
        embedding,
        created_at_ms: record.created_at_ms,
        updated_at_ms: record.updated_at_ms,
    }
}

/// The position of the first result with an id, or the number of results.
pub open spec fn scored_index(s: Seq<ScoredView>, id: Seq<char>) -> int
    decreases s.len(),
{
    if s.len() == 0 || s[0].record.id == id {
        0
    } else {
        1 + scored_index(s.drop_first(), id)
    }
}

pub proof fn lemma_scored_index(s: Seq<ScoredView>, id: Seq<char>)
    ensures
        0 <= scored_index(s, id) <= s.len(),
        scored_index(s, id) < s.len() ==> s[scored_index(s, id)].record.id == id,
        forall|k: int| 0 <= k < scored_index(s, id) ==> (#[trigger] s[k]).record.id != id,
    decreases s.len(),
{
    if s.len() > 0 && s[0].record.id != id {
        let rest = s.drop_first();
        lemma_scored_index(rest, id);
        assert forall|k: int| 0 <= k < scored_index(s, id) implies (#[trigger] s[k]).record.id
            != id by {
            if k > 0 {
                assert(s[k] == rest[k - 1]);
            }
        }
    }
}

fn find_scored(results: &Vec<ScoredMemory>, id: &str) -> (r: usize)
    ensures
        r == scored_index(api::scored_views(results@), id@),
        r <= results@.len(),
{
    let ghost all = api::scored_views(results@);
    let mut i: usize = 0;
    assert(all.skip(0) =~= all);
    while i < results.len()
        invariant
            i <= results@.len(),
            all == api::scored_views(results@),
            scored_index(all, id@) == i + scored_index(all.skip(i as int), id@),
        decreases results@.len() - i,
    {
        assert(all.skip(i as int)[0] == results@[i as int]@);
        if text_eq(results[i].record.id.as_str(), id) {
            return i;
        }
        assert(all.skip(i as int).drop_first() =~= all.skip(i + 1));
        i += 1;
    }
    i
}

/// Two finds of one record as one: the higher score, and what both note of
/// facts (and of matches, where the later find came by a match).
pub open spec fn combined(a: ScoredView, b: ScoredView, by_match: bool) -> ScoredView {
    let facts = with_facts_of(a.record.metadata, b.record.metadata);
    ScoredView {
        score: if a.score >= b.score {
            a.score
        } else {
            b.score
        },
        record: RecordView {
            metadata: if by_match {
                with_matches_of(facts, b.record.metadata)
            } else {
                facts
            },
            ..a.record
        },
    }
}

/// The candidates after one more find.
pub open spec fn with_find(s: Seq<ScoredView>, x: ScoredView, by_match: bool) -> Seq<ScoredView> {
    let i = scored_index(s, x.record.id);
    if i < s.len() {
        s.update(i, combined(s[i], x, by_match))
    } else {
        s.push(x)
    }
}

/// What a fact makes of one of its evidence records.
pub open spec fn fact_find(u: FactUnitView, r: GraphRecordView) -> ScoredView {
    let m = memory_record_of(r);
    ScoredView {
        record: RecordView { metadata: with_fact(m.metadata, fact_json(u)), ..m },
        score: u.score as int,
    }
}

/// What a record that was found by itself becomes.
pub open spec fn record_find(u: RecordUnitView) -> ScoredView {
    let m = memory_record_of(u.record);
    ScoredView {
        record: RecordView { metadata: with_match(m.metadata, match_json(u)), ..m },
        score: u.score as int,
    }
}

/// The candidates after the first `n` evidence records of a fact: those that
/// pass the filter.
pub open spec fn with_fact_records(
    s: Seq<ScoredView>,
    u: FactUnitView,
    n: nat,
    filter: Option<JsonView>,
) -> Seq<ScoredView>
    decreases n,
{
    if n == 0 || n > u.evidence_records.len() {
        s
    } else {
        let before = with_fact_records(s, u, (n - 1) as nat, filter);
        let r = u.evidence_records[n - 1];
        if record::matches_filter(r.metadata, filter) {
            with_find(before, fact_find(u, r), false)
        } else {
            before
        }
    }
}

pub open spec fn facts_found(units: Seq<FactUnitView>, filter: Option<JsonView>) -> Seq<ScoredView>
    decreases units.len(),
{
    if units.len() == 0 {
        Seq::empty()
    } else {
        let u = units.last();
        with_fact_records(
            facts_found(units.drop_last(), filter),
            u,
            u.evidence_records.len(),
            filter,
        )
    }
}

pub open spec fn records_found(
    start: Seq<ScoredView>,
    units: Seq<RecordUnitView>,
    filter: Option<JsonView>,
) -> Seq<ScoredView>
    decreases units.len(),
{
    if units.len() == 0 {
        start
    } else {
        let before = records_found(start, units.drop_last(), filter);
        if record::matches_filter(units.last().record.metadata, filter) {
            with_find(before, record_find(units.last()), true)
        } else {
            before
        }
    }
}

/// The records that a retrieved context yields: the evidence of its facts and
/// the records found by themselves that pass the filter, each once, the best
/// `limit` of them in order.
pub open spec fn context_candidates(
    facts: Seq<FactUnitView>,
    records: Seq<RecordUnitView>,
    filter: Option<JsonView>,
    limit: nat,
) -> Seq<ScoredView> {
    ranking::top_ranked(records_found(facts_found(facts, filter), records, filter), limit)
}

fn add_find(candidates: &mut Vec<ScoredMemory>, x: ScoredMemory, by_match: bool)
    ensures
        api::scored_views(final(candidates)@) == with_find(
            api::scored_views(old(candidates)@),
            x@,
            by_match,
        ),
{
    let ghost before = api::scored_views(candidates@);
    let i = find_scored(candidates, x.record.id.as_str());
    if i < candidates.len() {
        assert(before[i as int] == candidates@[i as int]@);
        let mut known = candidates[i].clone();
        if known.score < x.score {
            known.score = x.score;
        }
        merge_graph_facts_metadata(&mut known.record.metadata, &x.record.metadata);
        if by_match {
            merge_graph_matches_metadata(&mut known.record.metadata, &x.record.metadata);
        }
        assert(known@ == combined(before[i as int], x@, by_match));
        candidates.set(i, known);
    } else {
        candidates.push(x);
    }
    assert(api::scored_views(candidates@) =~= with_find(before, x@, by_match));
}

/// The records that a retrieved context yields.
pub fn collect_graph_candidates(
    facts: &Vec<FactContextUnit>,
    records: &Vec<EvidenceRecordContextUnit>,
    filter: Option<&Json>,
    limit: usize,
) -> (r: Vec<ScoredMemory>)
    ensures
        api::scored_views(r@) == context_candidates(
            graph_types::fact_unit_views(facts@),
            graph_types::record_unit_views(records@),
            json::opt_json(filter),
            limit as nat,
        ),
{
    let ghost fs = graph_types::fact_unit_views(facts@);
    let ghost rs = graph_types::record_unit_views(records@);
    let ghost wanted = json::opt_json(filter);
    let mut found: Vec<ScoredMemory> = Vec::new();
    assert(api::scored_views(found@) =~= Seq::empty());
    assert(fs.take(0) =~= Seq::empty());
    let mut i: usize = 0;
    while i < facts.len()
        invariant
            i <= facts@.len(),
            fs == graph_types::fact_unit_views(facts@),
            wanted == json::opt_json(filter),
            api::scored_views(found@) == facts_found(fs.take(i as int), wanted),
        decreases facts@.len() - i,
    {
        let unit = &facts[i];
        let ghost start = api::scored_views(found@);
        let graph_fact = graph_fact_metadata(unit);
        let mut j: usize = 0;
        while j < unit.evidence_records.len()
            invariant
                j <= unit.evidence_records@.len(),
                wanted == json::opt_json(filter),
                graph_fact@ == fact_json(unit@),
                api::scored_views(found@) == with_fact_records(start, unit@, j as nat, wanted),
            decreases unit.evidence_records@.len() - j,
        {
            let evidence = &unit.evidence_records[j];
            assert(unit@.evidence_records[j as int] == evidence@);
            if metadata_matches(&evidence.metadata, filter) {
                let mut memory_record = graph_record_to_memory_record(evidence);
                append_graph_fact_metadata(&mut memory_record.metadata, &graph_fact);
                let x = ScoredMemory { record: memory_record, score: unit.score };
                assert(x@ == fact_find(unit@, evidence@));
                add_find(&mut found, x, false);
            }
            j += 1;
        }
        assert(fs.take(i + 1).drop_last() =~= fs.take(i as int));
        assert(fs.take(i + 1).last() == unit@);
        i += 1;
    }
    assert(fs.take(i as int) =~= fs);
    let ghost start = api::scored_views(found@);
    assert(rs.take(0) =~= Seq::empty());
    let mut k: usize = 0;
    while k < records.len()
        invariant
            k <= records@.len(),
            rs == graph_types::record_unit_views(records@),
            wanted == json::opt_json(filter),
            api::scored_views(found@) == records_found(start, rs.take(k as int), wanted),
        decreases records@.len() - k,
    {
        let unit = &records[k];
        assert(rs.take(k + 1).drop_last() =~= rs.take(k as int));
        assert(rs.take(k + 1).last() == unit@);
        if metadata_matches(&unit.record.metadata, filter) {
            let graph_match = graph_evidence_record_metadata(unit);
            let mut memory_record = graph_record_to_memory_record(&unit.record);
            append_graph_match_metadata(&mut memory_record.metadata, &graph_match);
            let x = ScoredMemory { record: memory_record, score: unit.score };
            assert(x@ == record_find(unit@));
            add_find(&mut found, x, true);
        }
        k += 1;
    }
    assert(rs.take(k as int) =~= rs);
    rank_results(found, limit)
}

} // verus!
