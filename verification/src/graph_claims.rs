//! What becomes of the entities and the facts that a model claims.

use vstd::prelude::*;

use crate::graph_clean;
use crate::graph_clean::{
    most_confident, normalized_type, registered_type, total_place, type_alias,
};
use crate::graph_extraction::{
    entities_problem, entity_problem, extraction_problem, fact_ids, fact_problem, facts_problem,
    local_ids, span_problem, spans_problem, EntityCandidateView, ExtractionView,
    FactCandidateView, SpanView,
};
use crate::graph_facts;
use crate::graph_facts::{
    free_id, free_number, is_grounded, is_low_signal, materialized, materialized_facts,
    numbered_id, replaces, spaced_text, timeless, word_text,
};
use crate::graph_registry;
use crate::graph_registry::{PredicateView, RegistryView};
use crate::text;

verus! {

/// Whether a type is the first that a name means, whatever the case of its
/// letters.
pub open spec fn is_first_type(types: Seq<Seq<char>>, name: Seq<char>, i: int) -> bool {
    &&& 0 <= i < types.len()
    &&& text::same_ignoring_case(types[i], name)
    &&& forall|j: int| 0 <= j < i ==> !text::same_ignoring_case(#[trigger] types[j], name)
}

proof fn lemma_registered(types: Seq<Seq<char>>, name: Seq<char>)
    ensures
        match registered_type(types, name) {
            Some(t) => exists|i: int| #[trigger] is_first_type(types, name, i) && types[i] == t,
            None => forall|i: int|
                0 <= i < types.len() ==> !text::same_ignoring_case(#[trigger] types[i], name),
        },
    decreases types.len(),
{
    if types.len() > 0 {
        if text::same_ignoring_case(types[0], name) {
            assert(is_first_type(types, name, 0));
        } else {
            let rest = types.drop_first();
            lemma_registered(rest, name);
            match registered_type(rest, name) {
                Some(t) => {
                    let i = choose|i: int| #[trigger] is_first_type(rest, name, i) && rest[i] == t;
                    assert forall|j: int| 0 <= j < i + 1 implies !text::same_ignoring_case(
                        #[trigger] types[j],
                        name,
                    ) by {
                        if j > 0 {
                            assert(rest[j - 1] == types[j]);
                        }
                    }
                    assert(types[i + 1] == rest[i]);
                    assert(is_first_type(types, name, i + 1));
                },
                None => {
                    assert forall|i: int| 0 <= i < types.len() implies !text::same_ignoring_case(
                        #[trigger] types[i],
                        name,
                    ) by {
                        if i > 0 {
                            assert(rest[i - 1] == types[i]);
                        }
                    }
                },
            }
        }
    }
}

/// Whether a name means one of the types.
pub open spec fn is_known(types: Seq<Seq<char>>, name: Seq<char>) -> bool {
    exists|i: int| 0 <= i < types.len() && text::same_ignoring_case(#[trigger] types[i], name)
}

proof fn lemma_first_type_is_registered(types: Seq<Seq<char>>, name: Seq<char>, i: int)
    requires
        is_first_type(types, name, i),
    ensures
        registered_type(types, name) == Some(types[i]),
{
    lemma_registered(types, name);
    match registered_type(types, name) {
        Some(t) => {
            let k = choose|k: int| #[trigger] is_first_type(types, name, k) && types[k] == t;
            if k < i {
                assert(!text::same_ignoring_case(types[k], name));
            } else if i < k {
                assert(!text::same_ignoring_case(types[i], name));
            }
        },
        None => {
            assert(!text::same_ignoring_case(types[i], name));
        },
    }
}

proof fn lemma_unknown_is_not_registered(types: Seq<Seq<char>>, name: Seq<char>)
    requires
        !is_known(types, name),
    ensures
        registered_type(types, name) is None,
{
    lemma_registered(types, name);
    if registered_type(types, name) is Some {
        let i = choose|i: int|
            #[trigger] is_first_type(types, name, i) && types[i] == registered_type(
                types,
                name,
            )->0;
        assert(text::same_ignoring_case(types[i], name));
    }
}

/// The name of a type as it is looked up: trimmed, in capitals, with underscores
/// for spaces and hyphens.
pub open spec fn is_lookup_name(raw: Seq<char>, name: Seq<char>) -> bool {
    let t = text::trimmed(raw);
    &&& name.len() == t.len()
    &&& forall|i: int|
        0 <= i < t.len() ==> #[trigger] name[i] == (if t[i] == ' ' || t[i] == '-' {
            '_'
        } else {
            text::ascii_raised(t[i])
        })
}

/// A type that is registered is taken as it is registered, the first where
/// several are meant; a type that is not is looked up by what its name stands
/// for; and any other is a concept, or else an object, or else the first type.
pub proof fn types_are_looked_up(
    raw: Seq<char>,
    types: Seq<Seq<char>>,
    name: Seq<char>,
    i: int,
)
    requires
        is_lookup_name(raw, name),
    ensures
        is_first_type(types, name, i) ==> normalized_type(raw, types) == types[i],
        !is_known(types, name) && type_alias(name) is Some && is_first_type(
            types,
            type_alias(name)->0,
            i,
        ) ==> normalized_type(raw, types) == types[i],
        !is_known(types, name) && (type_alias(name) is None || !is_known(
            types,
            type_alias(name)->0,
        )) ==> {
            &&& is_first_type(types, "CONCEPT"@, i) ==> normalized_type(raw, types) == types[i]
            &&& !is_known(types, "CONCEPT"@) && is_first_type(types, "OBJECT"@, i)
                ==> normalized_type(raw, types) == types[i]
            &&& !is_known(types, "CONCEPT"@) && !is_known(types, "OBJECT"@) && types.len() > 0
                ==> normalized_type(raw, types) == types[0]
        },
{
    let t = text::trimmed(raw);
    assert(text::ascii_upper_text(graph_clean::underscored(t)) =~= name);
    if !is_known(types, name) {
        lemma_unknown_is_not_registered(types, name);
    }
    if type_alias(name) is Some && !is_known(types, type_alias(name)->0) {
        lemma_unknown_is_not_registered(types, type_alias(name)->0);
    }
    if !is_known(types, "CONCEPT"@) {
        lemma_unknown_is_not_registered(types, "CONCEPT"@);
    }
    if !is_known(types, "OBJECT"@) {
        lemma_unknown_is_not_registered(types, "OBJECT"@);
    }
    if is_first_type(types, name, i) {
        lemma_first_type_is_registered(types, name, i);
    }
    if type_alias(name) is Some && is_first_type(types, type_alias(name)->0, i) {
        lemma_first_type_is_registered(types, type_alias(name)->0, i);
    }
    if is_first_type(types, "CONCEPT"@, i) {
        lemma_first_type_is_registered(types, "CONCEPT"@, i);
    }
    if is_first_type(types, "OBJECT"@, i) {
        lemma_first_type_is_registered(types, "OBJECT"@, i);
    }
}

/// Whether a fact says what another one says, but for its evidence, its
/// predicate and its times.
pub open spec fn is_same_claim(a: FactCandidateView, b: FactCandidateView) -> bool {
    &&& a.local_id == b.local_id
    &&& a.subject_ref == b.subject_ref
    &&& a.object_ref == b.object_ref
    &&& a.fact_text == b.fact_text
    &&& a.confidence == b.confidence
}

/// Whether a registry has a predicate.
pub open spec fn has_predicate(predicates: Seq<PredicateView>, name: Seq<char>) -> bool {
    exists|i: int| 0 <= i < predicates.len() && (#[trigger] predicates[i]).name == name
}

proof fn lemma_predicate_named(predicates: Seq<PredicateView>, name: Seq<char>)
    ensures
        graph_registry::predicate_named(predicates, name) is Some <==> has_predicate(
            predicates,
            name,
        ),
        graph_registry::predicate_named(predicates, name) is Some
            ==> graph_registry::predicate_named(predicates, name)->0.name == name,
    decreases predicates.len(),
{
    if predicates.len() > 0 {
        let rest = predicates.drop_first();
        lemma_predicate_named(rest, name);
        if predicates[0].name != name {
            if has_predicate(predicates, name) {
                let i = choose|i: int|
                    0 <= i < predicates.len() && (#[trigger] predicates[i]).name == name;
                assert(rest[i - 1].name == name);
            }
            if has_predicate(rest, name) {
                let i = choose|i: int| 0 <= i < rest.len() && (#[trigger] rest[i]).name == name;
                assert(predicates[i + 1].name == name);
            }
        }
    }
}

/// A fact stays if and only if both of its entities are there, some of its
/// evidence points into the record, and its predicate or the fallback is
/// registered. It keeps all that it says, the evidence that points into the
/// record, and its predicate where that is registered.
pub proof fn facts_stay_that_are_grounded(
    f: FactCandidateView,
    entity_ids: Seq<Seq<char>>,
    registry: RegistryView,
    record: Seq<char>,
)
    ensures
        ({
            let r = materialized(f, entity_ids, registry, record);
            let evidence = f.evidence.filter(|s: SpanView| is_grounded(s, record));
            let own = has_predicate(registry.predicates, f.predicate);
            &&& r is Some <==> (entity_ids.contains(f.subject_ref) && entity_ids.contains(
                f.object_ref,
            ) && evidence.len() > 0 && (own || has_predicate(
                registry.predicates,
                "RELATED_TO"@,
            )))
            &&& r is Some ==> {
                &&& is_same_claim(r->0, f)
                &&& r->0.evidence == evidence
                &&& r->0.temporal_expression == f.temporal_expression
                &&& r->0.valid_from_ms == f.valid_from_ms
                &&& r->0.valid_to_ms == f.valid_to_ms
                &&& own ==> r->0.predicate == f.predicate
                &&& !own ==> r->0.predicate == "RELATED_TO"@
            }
        }),
{
    lemma_predicate_named(registry.predicates, f.predicate);
    lemma_predicate_named(registry.predicates, "RELATED_TO"@);
}

/// Facts are judged one by one, and those that stay keep their order.
pub proof fn facts_are_judged_one_by_one(
    a: Seq<FactCandidateView>,
    f: FactCandidateView,
    entity_ids: Seq<Seq<char>>,
    registry: RegistryView,
    record: Seq<char>,
)
    ensures
        ({
            let before = materialized_facts(a, entity_ids, registry, record);
            let after = materialized_facts(a.push(f), entity_ids, registry, record);
            match materialized(f, entity_ids, registry, record) {
                Some(kept) => after == before.push(kept),
                None => after == before,
            }
        }),
        materialized_facts(Seq::empty(), entity_ids, registry, record).len() == 0,
{
    assert(a.push(f).drop_last() =~= a);
}

/// A fact keeps no computed time, and an expression of time only where the record
/// holds it; all else stays.
pub proof fn times_come_from_the_record(f: FactCandidateView, record: Seq<char>)
    ensures
        ({
            let r = timeless(f, record);
            &&& is_same_claim(r, f)
            &&& r.predicate == f.predicate
            &&& r.evidence == f.evidence
            &&& r.valid_from_ms is None && r.valid_to_ms is None
            &&& r.temporal_expression is Some ==> f.temporal_expression is Some
                && r.temporal_expression->0 == text::trimmed(f.temporal_expression->0)
                && r.temporal_expression->0.len() > 0 && text::contains_text(
                record,
                r.temporal_expression->0,
            )
            &&& f.temporal_expression is Some && text::trimmed(f.temporal_expression->0).len() > 0
                && text::contains_text(record, text::trimmed(f.temporal_expression->0))
                ==> r.temporal_expression is Some
        }),
{
}

/// Texts are reduced part by part: letters and digits to lower case, and anything
/// else to a space.
pub proof fn texts_are_reduced_part_by_part(a: Seq<char>, b: Seq<char>, c: char)
    ensures
        spaced_text(a + b) == spaced_text(a) + spaced_text(b),
        text::char_alphanumeric(c) ==> spaced_text(seq![c]) == text::lowercase_char(c),
        !text::char_alphanumeric(c) ==> spaced_text(seq![c]) == seq![' '],
{
    lemma_reduced_behind(a, b);
    let none = Seq::<char>::empty();
    assert(seq![c].drop_last() =~= none);
    assert(seq![c].last() == c);
    assert(spaced_text(none) == none);
    assert(none + text::lowercase_char(c) =~= text::lowercase_char(c));
    assert(none.push(' ') =~= seq![' ']);
}

proof fn lemma_reduced_behind(a: Seq<char>, b: Seq<char>)
    ensures
        spaced_text(a + b) == spaced_text(a) + spaced_text(b),
    decreases b.len(),
{
    if b.len() == 0 {
        assert(a + b =~= a);
        assert(spaced_text(a) + Seq::<char>::empty() =~= spaced_text(a));
    } else {
        let t = b.drop_last();
        lemma_reduced_behind(a, t);
        assert((a + b).drop_last() =~= a + t);
        assert((a + b).last() == b.last());
        assert((spaced_text(a) + spaced_text(t)) + text::lowercase_char(b.last())
            =~= spaced_text(a) + (spaced_text(t) + text::lowercase_char(b.last())));
        assert((spaced_text(a) + spaced_text(t)).push(' ') =~= spaced_text(a) + spaced_text(
            t,
        ).push(' '));
    }
}

/// A fact that relates an entity to itself says nothing, nor does one that only
/// reports that something was mentioned, that people talked, thanked or agreed.
pub proof fn chatter_says_nothing(f: FactCandidateView)
    ensures
        ({
            let said = word_text(f.fact_text);
            &&& f.subject_ref == f.object_ref ==> is_low_signal(f)
            &&& f.predicate == "MENTIONED"@ ==> is_low_signal(f)
            &&& text::contains_text(said, "mentioned"@) ==> is_low_signal(f)
            &&& text::contains_text(said, "communicates with"@) ==> is_low_signal(f)
            &&& text::contains_text(said, "communicating with"@) ==> is_low_signal(f)
            &&& text::contains_text(said, "talked to"@) ==> is_low_signal(f)
            &&& text::contains_text(said, "talks to"@) ==> is_low_signal(f)
            &&& text::contains_text(said, "is talking to"@) ==> is_low_signal(f)
            &&& text::contains_text(said, "thanked"@) ==> is_low_signal(f)
            &&& text::contains_text(said, "thanks"@) ==> is_low_signal(f)
            &&& text::contains_text(said, "thanking"@) ==> is_low_signal(f)
            &&& text::contains_text(said, "agrees with"@) ==> is_low_signal(f)
            &&& text::contains_text(said, "agreed with"@) ==> is_low_signal(f)
            &&& text::contains_text(said, "is in agreement with"@) ==> is_low_signal(f)
            &&& text::contains_text(said, "was in agreement with"@) ==> is_low_signal(f)
            &&& is_low_signal(f) ==> f.subject_ref == f.object_ref || f.predicate == "MENTIONED"@
                || exists|i: int|
                0 <= i < graph_facts::chatter().len() && text::contains_text(
                    said,
                    #[trigger] graph_facts::chatter()[i],
                )
        }),
{
    let p = graph_facts::chatter();
    assert(p[0] == "mentioned"@ && p[5] == "communicates with"@ && p[6] == "communicating with"@
        && p[9] == "talked to"@ && p[10] == "talks to"@ && p[11] == "is talking to"@ && p[12]
        == "thanked"@ && p[13] == "thanks"@ && p[14] == "thanking"@ && p[17] == "agrees with"@
        && p[18] == "agreed with"@ && p[19] == "is in agreement with"@ && p[20]
        == "was in agreement with"@);
}

/// An id that is free is kept; else the least number from two on that is free is
/// put behind it.
pub proof fn taken_ids_get_the_least_number(taken: Seq<Seq<char>>, id: Seq<char>, m: nat)
    requires
        2 <= m,
    ensures
        !taken.contains(id) ==> free_id(taken, id) == id,
        taken.contains(id) ==> {
            let n = free_number(taken, id, 2);
            &&& n >= 2
            &&& free_id(taken, id) == id + ":"@ + text::decimal_text(n)
            &&& m < n ==> taken.contains(id + ":"@ + text::decimal_text(m))
        },
{
    lemma_least_number(taken, id, 2, m);
}

proof fn lemma_least_number(taken: Seq<Seq<char>>, id: Seq<char>, from: nat, m: nat)
    requires
        from <= m,
    ensures
        free_number(taken, id, from) >= from,
        m < free_number(taken, id, from) ==> taken.contains(numbered_id(id, m)),
    decreases taken.len() + 2 - from,
{
    if !(from > taken.len() + 1 || !taken.contains(numbered_id(id, from))) {
        if m > from {
            lemma_least_number(taken, id, from + 1, m);
        } else {
            lemma_least_number(taken, id, from + 1, from + 1);
        }
    }
}

/// A fact takes the place of another one where its predicate says more: any
/// predicate says more than that something is related, and this says more than
/// that something was mentioned. Where the predicates say as much, the higher
/// confidence decides.
pub proof fn better_facts_replace(a: FactCandidateView, b: FactCandidateView)
    ensures
        ({
            let vague = |p: Seq<char>| p == "MENTIONED"@ || p == "RELATED_TO"@;
            &&& !vague(a.predicate) && vague(b.predicate) ==> replaces(a, b) && !replaces(b, a)
            &&& !vague(a.predicate) && !vague(b.predicate) ==> replaces(a, b)
                == graph_facts::is_higher(a.confidence, b.confidence)
            &&& a.predicate == "RELATED_TO"@ && b.predicate == "MENTIONED"@ ==> replaces(a, b)
                && !replaces(b, a)
            &&& a.predicate == b.predicate ==> replaces(a, b) == graph_facts::is_higher(
                a.confidence,
                b.confidence,
            )
            &&& !(replaces(a, b) && replaces(b, a))
        }),
{
    reveal_strlit("MENTIONED");
    reveal_strlit("RELATED_TO");
    assert("MENTIONED"@.len() != "RELATED_TO"@.len());
}

/// The candidate that is picked from a group is as confident as any, and those
/// behind it are less confident.
pub proof fn the_last_of_the_most_confident_is_picked(group: Seq<EntityCandidateView>) -> (k: int)
    requires
        group.len() > 0,
    ensures
        0 <= k < group.len(),
        most_confident(group) == group[k],
        forall|j: int|
            0 <= j < group.len() ==> total_place((#[trigger] group[j]).confidence) <= total_place(
                group[k].confidence,
            ),
        forall|j: int|
            k < j < group.len() ==> total_place((#[trigger] group[j]).confidence) < total_place(
                group[k].confidence,
            ),
    decreases group.len(),
{
    if group.len() == 1 {
        0
    } else {
        let t = group.drop_last();
        let k = the_last_of_the_most_confident_is_picked(t);
        assert forall|j: int| 0 <= j < t.len() implies total_place(
            (#[trigger] group[j]).confidence,
        ) <= total_place(group[k].confidence) by {
            assert(t[j] == group[j]);
        }
        assert forall|j: int| k < j < t.len() implies total_place(
            (#[trigger] group[j]).confidence,
        ) < total_place(group[k].confidence) by {
            assert(t[j] == group[j]);
        }
        if total_place(group.last().confidence) >= total_place(t[k].confidence) {
            group.len() - 1
        } else {
            k
        }
    }
}

/// Names of groups, organizations, places, times, activities and concepts.
pub open spec fn names_of_groups() -> Seq<Seq<char>> {
    seq![
        "FAMILY"@,
        "HOUSEHOLD"@,
        "TEAM"@,
        "CLUB"@,
        "COMMUNITY"@,
        "CLASS"@,
        "COHORT"@,
        "SUPPORT_GROUP"@,
        "SOCIAL_GROUP"@,
    ]
}

pub open spec fn names_of_organizations() -> Seq<Seq<char>> {
    seq![
        "COMPANY"@,
        "BUSINESS"@,
        "AGENCY"@,
        "SCHOOL"@,
        "UNIVERSITY"@,
        "INSTITUTION"@,
        "NONPROFIT"@,
    ]
}

pub open spec fn names_of_places() -> Seq<Seq<char>> {
    seq!["PLACE"@, "CITY"@, "COUNTRY"@, "ADDRESS"@, "VENUE"@]
}

pub open spec fn names_of_times() -> Seq<Seq<char>> {
    seq!["DATE"@, "DATETIME"@, "TIME_PERIOD"@, "PERIOD"@, "SCHEDULE"@]
}

pub open spec fn names_of_activities() -> Seq<Seq<char>> {
    seq!["TASK"@, "HOBBY"@, "PROGRAM"@, "MEETING"@, "APPOINTMENT"@]
}

pub open spec fn names_of_concepts() -> Seq<Seq<char>> {
    seq!["TOPIC"@, "SUBJECT"@, "IDEA"@, "ATTRIBUTE"@, "STATUS"@, "ROLE"@]
}

/// A common name stands for the type that its list is of, and any other name for
/// none.
pub proof fn common_names_stand_for_types(name: Seq<char>)
    ensures
        type_alias(name) == (if names_of_groups().contains(name) {
            Some("GROUP"@)
        } else if names_of_organizations().contains(name) {
            Some("ORGANIZATION"@)
        } else if names_of_places().contains(name) {
            Some("LOCATION"@)
        } else if names_of_times().contains(name) {
            Some("TIME"@)
        } else if names_of_activities().contains(name) {
            Some("ACTIVITY"@)
        } else if names_of_concepts().contains(name) {
            Some("CONCEPT"@)
        } else {
            None
        }),
{
    let g = names_of_groups();
    assert(g[0] == "FAMILY"@ && g[1] == "HOUSEHOLD"@ && g[2] == "TEAM"@ && g[3] == "CLUB"@ && g[4]
        == "COMMUNITY"@ && g[5] == "CLASS"@ && g[6] == "COHORT"@ && g[7] == "SUPPORT_GROUP"@
        && g[8] == "SOCIAL_GROUP"@);
    let o = names_of_organizations();
    assert(o[0] == "COMPANY"@ && o[1] == "BUSINESS"@ && o[2] == "AGENCY"@ && o[3] == "SCHOOL"@
        && o[4] == "UNIVERSITY"@ && o[5] == "INSTITUTION"@ && o[6] == "NONPROFIT"@);
    let p = names_of_places();
    assert(p[0] == "PLACE"@ && p[1] == "CITY"@ && p[2] == "COUNTRY"@ && p[3] == "ADDRESS"@ && p[4]
        == "VENUE"@);
    let t = names_of_times();
    assert(t[0] == "DATE"@ && t[1] == "DATETIME"@ && t[2] == "TIME_PERIOD"@ && t[3] == "PERIOD"@
        && t[4] == "SCHEDULE"@);
    let a = names_of_activities();
    assert(a[0] == "TASK"@ && a[1] == "HOBBY"@ && a[2] == "PROGRAM"@ && a[3] == "MEETING"@ && a[4]
        == "APPOINTMENT"@);
    let c = names_of_concepts();
    assert(c[0] == "TOPIC"@ && c[1] == "SUBJECT"@ && c[2] == "IDEA"@ && c[3] == "ATTRIBUTE"@
        && c[4] == "STATUS"@ && c[5] == "ROLE"@);
}

/// Whether a confidence is none or between 0 and 1: the bits of the number 1 are
/// the greatest that count, and those of either zero count too.
pub open spec fn is_fair(confidence: Option<u32>) -> bool {
    confidence is None || confidence->0 <= 0x3f80_0000 || confidence->0 == 0x8000_0000
}

/// Whether the entity at a place is sound after those before it.
pub open spec fn is_sound_entity(
    entities: Seq<EntityCandidateView>,
    types: Seq<Seq<char>>,
    i: int,
) -> bool {
    let e = entities[i];
    &&& !text::is_blank(e.local_id)
    &&& !text::is_blank(e.name)
    &&& !text::is_blank(e.entity_type)
    &&& is_fair(e.confidence)
    &&& types.contains(e.entity_type)
    &&& forall|j: int| 0 <= j < i ==> (#[trigger] entities[j]).local_id != e.local_id
}

/// Whether a piece of evidence is sound: it has a byte range between characters
/// of the record, which holds the quote where there is one, or it has no byte
/// range and its quote is in the record. A quote is not blank.
pub open spec fn is_sound_span(s: SpanView, record: Seq<char>) -> bool {
    &&& s.start_byte is Some == s.end_byte is Some
    &&& s.text is Some ==> !text::is_blank(s.text->0)
    &&& s.start_byte is None ==> s.text is Some && text::contains_text(record, s.text->0)
    &&& s.start_byte is Some ==> {
        let start = s.start_byte->0 as nat;
        let end = s.end_byte->0 as nat;
        &&& start < end <= text::byte_len(record)
        &&& text::is_boundary(record, start) && text::is_boundary(record, end)
        &&& s.text is Some ==> text::byte_slice(record, start, end) == s.text->0
    }
}

/// Whether the fact at a place is sound after those before it.
pub open spec fn is_sound_fact(
    facts: Seq<FactCandidateView>,
    entity_ids: Seq<Seq<char>>,
    registry: RegistryView,
    record: Seq<char>,
    i: int,
) -> bool {
    let f = facts[i];
    &&& !text::is_blank(f.local_id) && !text::is_blank(f.subject_ref) && !text::is_blank(
        f.predicate,
    ) && !text::is_blank(f.object_ref) && !text::is_blank(f.fact_text)
    &&& is_fair(f.confidence)
    &&& forall|j: int| 0 <= j < i ==> (#[trigger] facts[j]).local_id != f.local_id
    &&& entity_ids.contains(f.subject_ref) && entity_ids.contains(f.object_ref)
    &&& has_predicate(registry.predicates, f.predicate)
    &&& f.evidence.len() > 0
    &&& f.valid_from_ms is Some && f.valid_to_ms is Some ==> f.valid_from_ms->0 <= f.valid_to_ms->0
    &&& forall|j: int| 0 <= j < f.evidence.len() ==> is_sound_span(#[trigger] f.evidence[j], record)
}

proof fn lemma_sound_entity(entities: Seq<EntityCandidateView>, types: Seq<Seq<char>>, i: int)
    requires
        0 <= i < entities.len(),
    ensures
        entity_problem(entities[i], entities.take(i), types) is None <==> is_sound_entity(
            entities,
            types,
            i,
        ),
{
    let earlier = entities.take(i);
    let id = entities[i].local_id;
    if local_ids(earlier).contains(id) {
        let j = choose|j: int| 0 <= j < local_ids(earlier).len() && local_ids(earlier)[j] == id;
        assert(entities[j].local_id == id);
    } else {
        assert forall|j: int| 0 <= j < i implies (#[trigger] entities[j]).local_id != id by {
            assert(local_ids(earlier)[j] == entities[j].local_id);
            assert(local_ids(earlier).contains(local_ids(earlier)[j]));
        }
    }
}

proof fn lemma_sound_entities(entities: Seq<EntityCandidateView>, types: Seq<Seq<char>>)
    ensures
        entities_problem(entities, types) is None <==> forall|i: int|
            0 <= i < entities.len() ==> #[trigger] is_sound_entity(entities, types, i),
    decreases entities.len(),
{
    if entities.len() > 0 {
        let t = entities.drop_last();
        let n = entities.len() - 1;
        lemma_sound_entities(t, types);
        lemma_sound_entity(entities, types, n);
        assert(entities.take(n) =~= t);
        assert forall|i: int| 0 <= i < n implies #[trigger] is_sound_entity(t, types, i)
            == is_sound_entity(entities, types, i) by {
            assert(forall|j: int| 0 <= j <= i ==> #[trigger] t[j] == entities[j]);
            assert(forall|j: int| 0 <= j <= i ==> t[j] == #[trigger] entities[j]);
        }
        if entities_problem(entities, types) is None {
            assert forall|i: int| 0 <= i < entities.len() implies #[trigger] is_sound_entity(
                entities,
                types,
                i,
            ) by {
                if i < n {
                    assert(is_sound_entity(t, types, i));
                }
            }
        } else if forall|i: int|
            0 <= i < entities.len() ==> #[trigger] is_sound_entity(entities, types, i) {
            assert forall|i: int| 0 <= i < t.len() implies #[trigger] is_sound_entity(
                t,
                types,
                i,
            ) by {
                assert(is_sound_entity(entities, types, i));
            }
            assert(is_sound_entity(entities, types, n));
        }
    }
}

proof fn lemma_sound_spans(spans: Seq<SpanView>, record: Seq<char>)
    ensures
        spans_problem(spans, record) is None <==> forall|j: int|
            0 <= j < spans.len() ==> is_sound_span(#[trigger] spans[j], record),
    decreases spans.len(),
{
    if spans.len() > 0 {
        let t = spans.drop_last();
        lemma_sound_spans(t, record);
        assert(forall|j: int| 0 <= j < t.len() ==> #[trigger] t[j] == spans[j]);
        assert(forall|j: int| 0 <= j < t.len() ==> t[j] == #[trigger] spans[j]);
        assert(span_problem(spans.last(), record) is None <==> is_sound_span(
            spans[spans.len() - 1],
            record,
        ));
        if spans_problem(t, record) is Some {
            let j = choose|j: int| 0 <= j < t.len() && !is_sound_span(#[trigger] t[j], record);
            assert(!is_sound_span(spans[j], record));
        }
    }
}

proof fn lemma_sound_fact(
    facts: Seq<FactCandidateView>,
    ids: Seq<Seq<char>>,
    registry: RegistryView,
    record: Seq<char>,
    i: int,
)
    requires
        0 <= i < facts.len(),
    ensures
        fact_problem(facts[i], facts.take(i), ids, registry, record) is None <==> is_sound_fact(
            facts,
            ids,
            registry,
            record,
            i,
        ),
{
    let earlier = facts.take(i);
    let id = facts[i].local_id;
    lemma_predicate_named(registry.predicates, facts[i].predicate);
    lemma_sound_spans(facts[i].evidence, record);
    if fact_ids(earlier).contains(id) {
        let j = choose|j: int| 0 <= j < fact_ids(earlier).len() && fact_ids(earlier)[j] == id;
        assert(facts[j].local_id == id);
    } else {
        assert forall|j: int| 0 <= j < i implies (#[trigger] facts[j]).local_id != id by {
            assert(fact_ids(earlier)[j] == facts[j].local_id);
            assert(fact_ids(earlier).contains(fact_ids(earlier)[j]));
        }
    }
}

proof fn lemma_sound_facts(
    facts: Seq<FactCandidateView>,
    ids: Seq<Seq<char>>,
    registry: RegistryView,
    record: Seq<char>,
)
    ensures
        facts_problem(facts, ids, registry, record) is None <==> forall|i: int|
            0 <= i < facts.len() ==> #[trigger] is_sound_fact(facts, ids, registry, record, i),
    decreases facts.len(),
{
    if facts.len() > 0 {
        let t = facts.drop_last();
        let n = facts.len() - 1;
        lemma_sound_facts(t, ids, registry, record);
        lemma_sound_fact(facts, ids, registry, record, n);
        assert(facts.take(n) =~= t);
        assert forall|i: int| 0 <= i < n implies #[trigger] is_sound_fact(
            t,
            ids,
            registry,
            record,
            i,
        ) == is_sound_fact(facts, ids, registry, record, i) by {
            assert(forall|j: int| 0 <= j <= i ==> #[trigger] t[j] == facts[j]);
            assert(forall|j: int| 0 <= j <= i ==> t[j] == #[trigger] facts[j]);
        }
        if facts_problem(facts, ids, registry, record) is None {
            assert forall|i: int| 0 <= i < facts.len() implies #[trigger] is_sound_fact(
                facts,
                ids,
                registry,
                record,
                i,
            ) by {
                if i < n {
                    assert(is_sound_fact(t, ids, registry, record, i));
                }
            }
        } else if forall|i: int|
            0 <= i < facts.len() ==> #[trigger] is_sound_fact(facts, ids, registry, record, i) {
            assert forall|i: int| 0 <= i < t.len() implies #[trigger] is_sound_fact(
                t,
                ids,
                registry,
                record,
                i,
            ) by {
                assert(is_sound_fact(facts, ids, registry, record, i));
            }
            assert(is_sound_fact(facts, ids, registry, record, n));
        }
    }
}

/// An extraction is accepted if and only if each of its entities and each of its
/// facts is sound after those before it.
pub proof fn sound_extractions_are_accepted(
    output: ExtractionView,
    record: Seq<char>,
    registry: RegistryView,
)
    ensures
        extraction_problem(output, record, registry) is None <==> ((forall|i: int|
            0 <= i < output.entities.len() ==> #[trigger] is_sound_entity(
                output.entities,
                registry.entity_types,
                i,
            )) && (forall|i: int|
            0 <= i < output.facts.len() ==> #[trigger] is_sound_fact(
                output.facts,
                local_ids(output.entities),
                registry,
                record,
                i,
            ))),
{
    lemma_sound_entities(output.entities, registry.entity_types);
    lemma_sound_facts(output.facts, local_ids(output.entities), registry, record);
}

/// Every type that a common name stands for is registered by default, and so are
/// the types and the predicate that others fall back to.
pub proof fn common_names_are_registered_by_default(name: Seq<char>)
    ensures
        type_alias(name) is Some ==> graph_registry::default_registry().entity_types.contains(
            type_alias(name)->0,
        ),
        graph_registry::default_registry().entity_types.contains("CONCEPT"@),
        graph_registry::default_registry().entity_types.contains("OBJECT"@),
        graph_registry::default_registry().entity_types.contains("PERSON"@),
        has_predicate(graph_registry::default_registry().predicates, "RELATED_TO"@),
{
    let k = graph_registry::default_registry().entity_types;
    assert(k[0] == "PERSON"@ && k[1] == "LOCATION"@ && k[2] == "ORGANIZATION"@ && k[5]
        == "ACTIVITY"@ && k[6] == "OBJECT"@ && k[8] == "TIME"@ && k[9] == "GROUP"@ && k[10]
        == "CONCEPT"@);
    let p = graph_registry::default_registry().predicates;
    assert(p[13].name == "RELATED_TO"@);
}

} // verus!
