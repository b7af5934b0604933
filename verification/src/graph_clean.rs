//! Cleaning what a language model extracts: offsets are repaired, types are
//! mapped to registered ones, and whatever cannot be stored is dropped.

use vstd::prelude::*;
use vstd::string::*;

use crate::graph_extraction;
use crate::graph_extraction::{
    slice_is, EntityCandidateView, ExtractedEntityCandidate, ExtractedFactCandidate,
    FactCandidateView, GraphEvidenceSpan, GraphExtractionOutput, SpanView,
};
use crate::graph_registry::GraphTypeRegistry;
use crate::text;
use crate::text::{
    byte_of_char, char_at_byte, eq_ignoring_case, find_text, holds_text, join_texts, split_words,
    text_eq, to_chars, trim, upper_ascii, utf8_len,
};

verus! {

/// Whether the byte range of a span holds a text.
pub open spec fn range_holds(span: SpanView, record: Seq<char>, quote: Seq<char>) -> bool {
    match (span.start_byte, span.end_byte) {
        (Some(start), Some(end)) => {
            &&& start < end
            &&& end <= text::byte_len(record)
            &&& text::is_boundary(record, start as nat)
            &&& text::is_boundary(record, end as nat)
            &&& text::byte_slice(record, start as nat, end as nat) == quote
        },
        _ => false,
    }
}

pub fn evidence_byte_range_matches_record(
    span: &GraphEvidenceSpan,
    record_text: &str,
    quote: &str,
) -> (r: bool)
    ensures
        r == range_holds(span@, record_text@, quote@),
{
    match (span.start_byte, span.end_byte) {
        (Some(start), Some(end)) => {
            if start >= end || end > utf8_len(record_text) {
                return false;
            }
            let chars = to_chars(record_text);
            if char_at_byte(&chars, start).is_none() || char_at_byte(&chars, end).is_none() {
                return false;
            }
            slice_is(&chars, start, end, quote)
        },
        _ => false,
    }
}

/// A span whose byte range does not hold its text points at the first
/// occurrence of the text in the record, if there is one.
pub open spec fn repaired_span(span: SpanView, record: Seq<char>) -> SpanView {
    match span.text {
        None => span,
        Some(quote) => if range_holds(span, record, quote) {
            span
        } else {
            match text::first_position(record, quote, 0) {
                None => span,
                Some(k) => {
                    let start = text::byte_len(record.take(k));
                    SpanView {
                        text: span.text,
                        start_byte: Some(start as usize),
                        end_byte: Some((start + text::byte_len(quote)) as usize),
                    }
                },
            }
        },
    }
}

/// A repaired span that quotes text from the record points at it.
pub proof fn repaired_spans_point_at_their_text(span: SpanView, record: Seq<char>)
    requires
        span.text is Some,
        span.text->0.len() > 0,
        text::contains_text(record, span.text->0),
        text::byte_len(record) <= usize::MAX,
    ensures
        range_holds(repaired_span(span, record), record, span.text->0),
{
    let quote = span.text->0;
    if !range_holds(span, record, quote) {
        text::lemma_first_position(record, quote, 0);
        let i = choose|i: int| #[trigger] text::stands_at(record, quote, i);
        assert(text::stands_at(record, quote, i));
        let k = text::first_position(record, quote, 0)->0;
        let n = quote.len() as int;
        assert(record.take(k + n) =~= record.take(k) + quote);
        text::lemma_byte_len_add(record.take(k), quote);
        assert(record =~= record.take(k + n) + record.skip(k + n));
        text::lemma_byte_len_add(record.take(k + n), record.skip(k + n));
        text::lemma_byte_len_at_least(quote);
        text::lemma_prefix_chars_of_len(record, k);
        text::lemma_prefix_chars_of_len(record, k + n);
        assert(record.subrange(k, k + n) == quote);
    }
}

fn repair_span(span: &GraphEvidenceSpan, record_text: &str) -> (r: GraphEvidenceSpan)
    ensures
        r@ == repaired_span(span@, record_text@),
{
    match &span.text {
        None => span.clone(),
        Some(quote) => {
            if evidence_byte_range_matches_record(span, record_text, quote.as_str()) {
                return span.clone();
            }
            let chars = to_chars(record_text);
            let sought = to_chars(quote.as_str());
            match find_text(&chars, &sought) {
                None => span.clone(),
                Some(k) => {
                    let total = utf8_len(record_text);
                    proof {
                        let record = record_text@;
                        text::lemma_first_position(record, quote@, 0);
                        let n = quote@.len() as int;
                        assert(record.take(k + n) =~= record.take(k as int) + quote@);
                        text::lemma_byte_len_add(record.take(k as int), quote@);
                        assert(record =~= record.take(k + n) + record.skip(k + n));
                        text::lemma_byte_len_add(record.take(k + n), record.skip(k + n));
                        assert(total == text::byte_len(record));
                    }
                    let start = byte_of_char(&chars, k);
                    let end = start + utf8_len(quote.as_str());
                    GraphEvidenceSpan {
                        text: Some(quote.clone()),
                        start_byte: Some(start),
                        end_byte: Some(end),
                    }
                },
            }
        },
    }
}

pub open spec fn repaired_spans(spans: Seq<SpanView>, record: Seq<char>) -> Seq<SpanView> {
    spans.map_values(|s: SpanView| repaired_span(s, record))
}

pub open spec fn repaired_facts(facts: Seq<FactCandidateView>, record: Seq<char>) -> Seq<
    FactCandidateView,
> {
    facts.map_values(
        |f: FactCandidateView|
            FactCandidateView { evidence: repaired_spans(f.evidence, record), ..f },
    )
}

/// Repairs the byte offsets of all evidence.
pub fn repair_evidence_byte_offsets(output: &mut GraphExtractionOutput, record_text: &str)
    ensures
        final(output)@ == (graph_extraction::ExtractionView {
            facts: repaired_facts(old(output)@.facts, record_text@),
            ..old(output)@
        }),
{
    let ghost before = output@.facts;
    let mut facts: Vec<ExtractedFactCandidate> = Vec::new();
    let mut i: usize = 0;
    while i < output.facts.len()
        invariant
            i <= output.facts@.len(),
            output@ == old(output)@,
            before == graph_extraction::fact_candidate_views(output.facts@),
            facts@.len() == i,
            forall|k: int|
                0 <= k < i ==> (#[trigger] facts@[k])@ == repaired_facts(before, record_text@)[k],
        decreases output.facts@.len() - i,
    {
        let mut fact = output.facts[i].clone();
        let ghost spans = fact@.evidence;
        let mut evidence: Vec<GraphEvidenceSpan> = Vec::new();
        let mut j: usize = 0;
        while j < fact.evidence.len()
            invariant
                j <= fact.evidence@.len(),
                spans == graph_extraction::span_views(fact.evidence@),
                evidence@.len() == j,
                forall|k: int|
                    0 <= k < j ==> (#[trigger] evidence@[k])@ == repaired_span(
                        spans[k],
                        record_text@,
                    ),
            decreases fact.evidence@.len() - j,
        {
            let span = repair_span(&fact.evidence[j], record_text);
            evidence.push(span);
            j += 1;
        }
        assert(graph_extraction::span_views(evidence@) =~= repaired_spans(spans, record_text@));
        fact.evidence = evidence;
        assert(before[i as int] == output.facts@[i as int]@);
        facts.push(fact);
        i += 1;
    }
    assert(graph_extraction::fact_candidate_views(facts@) =~= repaired_facts(
        before,
        record_text@,
    ));
    output.facts = facts;
}

/// The first type that differs at most in the case of its letters.
pub open spec fn registered_type(types: Seq<Seq<char>>, name: Seq<char>) -> Option<Seq<char>>
    decreases types.len(),
{
    if types.len() == 0 {
        None
    } else if text::same_ignoring_case(types[0], name) {
        Some(types[0])
    } else {
        registered_type(types.drop_first(), name)
    }
}

/// The registered type that a common name of a type stands for.
pub open spec fn type_alias(name: Seq<char>) -> Option<Seq<char>> {
    if name == "FAMILY"@ || name == "HOUSEHOLD"@ || name == "TEAM"@ || name == "CLUB"@ || name
        == "COMMUNITY"@ || name == "CLASS"@ || name == "COHORT"@ || name == "SUPPORT_GROUP"@
        || name == "SOCIAL_GROUP"@ {
        Some("GROUP"@)
    } else if name == "COMPANY"@ || name == "BUSINESS"@ || name == "AGENCY"@ || name == "SCHOOL"@
        || name == "UNIVERSITY"@ || name == "INSTITUTION"@ || name == "NONPROFIT"@ {
        Some("ORGANIZATION"@)
    } else if name == "PLACE"@ || name == "CITY"@ || name == "COUNTRY"@ || name == "ADDRESS"@
        || name == "VENUE"@ {
        Some("LOCATION"@)
    } else if name == "DATE"@ || name == "DATETIME"@ || name == "TIME_PERIOD"@ || name
        == "PERIOD"@ || name == "SCHEDULE"@ {
        Some("TIME"@)
    } else if name == "TASK"@ || name == "HOBBY"@ || name == "PROGRAM"@ || name == "MEETING"@
        || name == "APPOINTMENT"@ {
        Some("ACTIVITY"@)
    } else if name == "TOPIC"@ || name == "SUBJECT"@ || name == "IDEA"@ || name == "ATTRIBUTE"@
        || name == "STATUS"@ || name == "ROLE"@ {
        Some("CONCEPT"@)
    } else {
        None
    }
}

/// The type of entities that fit no other.
pub open spec fn fallback_type(types: Seq<Seq<char>>) -> Seq<char> {
    match registered_type(types, "CONCEPT"@) {
        Some(t) => t,
        None => match registered_type(types, "OBJECT"@) {
            Some(t) => t,
            None => if types.len() > 0 {
                types[0]
            } else {
                "CONCEPT"@
            },
        },
    }
}

pub open spec fn underscored(s: Seq<char>) -> Seq<char> {
    s.map_values(
        |c: char|
            if c == ' ' || c == '-' {
                '_'
            } else {
                c
            },
    )
}

/// The registered type for whatever a model calls the type of an entity.
pub open spec fn normalized_type(raw: Seq<char>, types: Seq<Seq<char>>) -> Seq<char> {
    let name = text::ascii_upper_text(underscored(text::trimmed(raw)));
    match registered_type(types, name) {
        Some(t) => t,
        None => match type_alias(name) {
            Some(alias) => match registered_type(types, alias) {
                Some(t) => t,
                None => fallback_type(types),
            },
            None => fallback_type(types),
        },
    }
}

proof fn lemma_registered_type(types: Seq<Seq<char>>, name: Seq<char>)
    ensures
        registered_type(types, name) is Some ==> types.contains(registered_type(types, name)->0),
    decreases types.len(),
{
    if types.len() > 0 {
        let rest = types.drop_first();
        lemma_registered_type(rest, name);
        if text::same_ignoring_case(types[0], name) {
            assert(types.contains(types[0]));
        } else if registered_type(rest, name) is Some {
            let t = registered_type(rest, name)->0;
            let k = choose|k: int| 0 <= k < rest.len() && rest[k] == t;
            assert(types[k + 1] == t);
        }
    }
}

/// Whatever a model calls a type, the type becomes a registered one, as long
/// as any is registered.
pub proof fn normalized_types_are_registered(raw: Seq<char>, types: Seq<Seq<char>>)
    requires
        types.len() > 0,
    ensures
        types.contains(normalized_type(raw, types)),
{
    let name = text::ascii_upper_text(underscored(text::trimmed(raw)));
    lemma_registered_type(types, name);
    lemma_registered_type(types, "CONCEPT"@);
    lemma_registered_type(types, "OBJECT"@);
    assert(types.contains(types[0]));
    match type_alias(name) {
        Some(alias) => {
            lemma_registered_type(types, alias);
        },
        None => {},
    }
}

fn registered_entity_type(candidate: &str, types: &Vec<String>) -> (r: Option<String>)
    ensures
        crate::json::opt_string(r) == registered_type(text::strings(types@), candidate@),
{
    let ghost all = text::strings(types@);
    let mut i: usize = 0;
    assert(all.skip(0) =~= all);
    while i < types.len()
        invariant
            i <= types@.len(),
            all == text::strings(types@),
            registered_type(all, candidate@) == registered_type(all.skip(i as int), candidate@),
        decreases types@.len() - i,
    {
        assert(all.skip(i as int)[0] == types@[i as int]@);
        if eq_ignoring_case(types[i].as_str(), candidate) {
            return Some(types[i].clone());
        }
        assert(all.skip(i as int).drop_first() =~= all.skip(i + 1));
        i += 1;
    }
    None
}

fn entity_type_alias(name: &str) -> (r: Option<&'static str>)
    ensures
        crate::json::opt_text(r) == type_alias(name@),
{
    if text_eq(name, "FAMILY") || text_eq(name, "HOUSEHOLD") || text_eq(name, "TEAM") || text_eq(
        name,
        "CLUB",
    ) || text_eq(name, "COMMUNITY") || text_eq(name, "CLASS") || text_eq(name, "COHORT")
        || text_eq(name, "SUPPORT_GROUP") || text_eq(name, "SOCIAL_GROUP") {
        Some("GROUP")
    } else if text_eq(name, "COMPANY") || text_eq(name, "BUSINESS") || text_eq(name, "AGENCY")
        || text_eq(name, "SCHOOL") || text_eq(name, "UNIVERSITY") || text_eq(name, "INSTITUTION")
        || text_eq(name, "NONPROFIT") {
        Some("ORGANIZATION")
    } else if text_eq(name, "PLACE") || text_eq(name, "CITY") || text_eq(name, "COUNTRY")
        || text_eq(name, "ADDRESS") || text_eq(name, "VENUE") {
        Some("LOCATION")
    } else if text_eq(name, "DATE") || text_eq(name, "DATETIME") || text_eq(name, "TIME_PERIOD")
        || text_eq(name, "PERIOD") || text_eq(name, "SCHEDULE") {
        Some("TIME")
    } else if text_eq(name, "TASK") || text_eq(name, "HOBBY") || text_eq(name, "PROGRAM")
        || text_eq(name, "MEETING") || text_eq(name, "APPOINTMENT") {
        Some("ACTIVITY")
    } else if text_eq(name, "TOPIC") || text_eq(name, "SUBJECT") || text_eq(name, "IDEA")
        || text_eq(name, "ATTRIBUTE") || text_eq(name, "STATUS") || text_eq(name, "ROLE") {
        Some("CONCEPT")
    } else {
        None
    }
}

fn fallback_entity_type(types: &Vec<String>) -> (r: String)
    ensures
        r@ == fallback_type(text::strings(types@)),
{
    match registered_entity_type("CONCEPT", types) {
        Some(t) => t,
        None => match registered_entity_type("OBJECT", types) {
            Some(t) => t,
            None => if types.len() > 0 {
                assert(text::strings(types@)[0] == types@[0]@);
                types[0].clone()
            } else {
                "CONCEPT".to_owned()
            },
        },
    }
}

fn underscore(s: &str) -> (r: String)
    ensures
        r@ == underscored(s@),
{
    let chars = to_chars(s);
    let mut r = String::new();
    let mut i: usize = 0;
    while i < chars.len()
        invariant
            i <= chars@.len(),
            r@ == underscored(chars@.take(i as int)),
        decreases chars@.len() - i,
    {
        if chars[i] == ' ' || chars[i] == '-' {
            r.push('_');
        } else {
            r.push(chars[i]);
        }
        i += 1;
        assert(r@ =~= underscored(chars@.take(i as int)));
    }
    assert(chars@.take(i as int) =~= s@);
    r
}

pub fn normalize_llm_entity_type(raw: &str, registry: &GraphTypeRegistry) -> (r: String)
    ensures
        r@ == normalized_type(raw@, registry@.entity_types),
{
    let joined = underscore(trim(raw));
    let name = upper_ascii(joined.as_str());
    match registered_entity_type(name.as_str(), &registry.entity_types) {
        Some(t) => t,
        None => match entity_type_alias(name.as_str()) {
            Some(alias) => match registered_entity_type(alias, &registry.entity_types) {
                Some(t) => t,
                None => fallback_entity_type(&registry.entity_types),
            },
            None => fallback_entity_type(&registry.entity_types),
        },
    }
}

pub open spec fn typed_entities(
    entities: Seq<EntityCandidateView>,
    types: Seq<Seq<char>>,
) -> Seq<EntityCandidateView> {
    entities.map_values(
        |e: EntityCandidateView|
            EntityCandidateView { entity_type: normalized_type(e.entity_type, types), ..e },
    )
}

/// Gives every entity a registered type.
pub fn normalize_llm_entity_types(output: &mut GraphExtractionOutput, registry: &GraphTypeRegistry)
    ensures
        final(output)@ == (graph_extraction::ExtractionView {
            entities: typed_entities(old(output)@.entities, registry@.entity_types),
            ..old(output)@
        }),
{
    let ghost before = output@.entities;
    let mut entities: Vec<ExtractedEntityCandidate> = Vec::new();
    let mut i: usize = 0;
    while i < output.entities.len()
        invariant
            i <= output.entities@.len(),
            output@ == old(output)@,
            before == graph_extraction::entity_candidate_views(output.entities@),
            entities@.len() == i,
            forall|k: int|
                0 <= k < i ==> (#[trigger] entities@[k])@ == typed_entities(
                    before,
                    registry@.entity_types,
                )[k],
        decreases output.entities@.len() - i,
    {
        let mut entity = output.entities[i].clone();
        entity.entity_type = normalize_llm_entity_type(entity.entity_type.as_str(), registry);
        assert(before[i as int] == output.entities@[i as int]@);
        entities.push(entity);
        i += 1;
    }
    assert(graph_extraction::entity_candidate_views(entities@) =~= typed_entities(
        before,
        registry@.entity_types,
    ));
    output.entities = entities;
}

/// The form in which names and facts are compared: their words with single
/// spaces between them, in lower case.
pub open spec fn plain_text(s: Seq<char>) -> Seq<char> {
    text::lowercase_text(text::joined(text::words_of(s), " "@))
}

/// A name or a fact in the form in which it is compared.
pub fn normalize_graph_text(s: &str) -> (r: String)
    ensures
        r@ == plain_text(s@),
{
    join_texts(&split_words(s), " ").to_lowercase()
}

/// By what two candidates are the same entity: the name without regard to case
/// and spacing, and the type without regard to case.
pub open spec fn entity_identity(e: EntityCandidateView) -> (Seq<char>, Seq<char>) {
    (plain_text(e.name), text::ascii_upper_text(e.entity_type))
}

fn same_entity(a: &ExtractedEntityCandidate, b: &ExtractedEntityCandidate) -> (r: bool)
    ensures
        r == (entity_identity(a@) == entity_identity(b@)),
{
    let name_a = normalize_graph_text(a.name.as_str());
    let name_b = normalize_graph_text(b.name.as_str());
    let type_a = upper_ascii(a.entity_type.as_str());
    let type_b = upper_ascii(b.entity_type.as_str());
    text_eq(name_a.as_str(), name_b.as_str()) && text_eq(type_a.as_str(), type_b.as_str())
}

/// The place of a confidence in the total order of single-precision numbers,
/// in which the negative zero comes before the positive one. No confidence
/// counts as 0.
pub open spec fn total_place(confidence: Option<u32>) -> int {
    match confidence {
        Some(bits) => if bits < 0x8000_0000 {
            bits as int
        } else {
            0x7fff_ffff - bits
        },
        None => 0,
    }
}

fn confidence_place(confidence: Option<u32>) -> (r: i64)
    ensures
        r == total_place(confidence),
{
    match confidence {
        Some(bits) => if bits < 0x8000_0000 {
            bits as i64
        } else {
            0x7fff_ffff - bits as i64
        },
        None => 0,
    }
}

/// The candidates under a local id.
pub open spec fn group_of(entities: Seq<EntityCandidateView>, id: Seq<char>) -> Seq<
    EntityCandidateView,
> {
    entities.filter(|e: EntityCandidateView| e.local_id == id)
}

/// Whether a local id stands for different entities.
pub open spec fn is_ambiguous(entities: Seq<EntityCandidateView>, id: Seq<char>) -> bool {
    exists|i: int, j: int|
        0 <= i < entities.len() && 0 <= j < entities.len() && (#[trigger] entities[i]).local_id
            == id && (#[trigger] entities[j]).local_id == id && entity_identity(entities[i])
            != entity_identity(entities[j])
}

/// The candidate of a group with the highest confidence; of several, the last.
pub open spec fn most_confident(group: Seq<EntityCandidateView>) -> EntityCandidateView
    decreases group.len(),
{
    if group.len() <= 1 {
        group[0]
    } else {
        let best = most_confident(group.drop_last());
        if total_place(group.last().confidence) >= total_place(best.confidence) {
            group.last()
        } else {
            best
        }
    }
}

/// The entities among the first `n` that start a group, each replaced by the
/// best of its group; groups that stand for different entities are left out.
pub open spec fn deduplicated(entities: Seq<EntityCandidateView>, n: int) -> Seq<
    EntityCandidateView,
>
    decreases n,
{
    if n <= 0 {
        Seq::empty()
    } else {
        let before = deduplicated(entities, n - 1);
        let id = entities[n - 1].local_id;
        if graph_extraction::local_ids(entities.take(n - 1)).contains(id) || is_ambiguous(
            entities,
            id,
        ) {
            before
        } else {
            before.push(most_confident(group_of(entities, id)))
        }
    }
}

/// The facts whose entities are not ambiguous.
pub open spec fn unambiguous_facts(
    facts: Seq<FactCandidateView>,
    entities: Seq<EntityCandidateView>,
) -> Seq<FactCandidateView> {
    facts.filter(
        |f: FactCandidateView|
            !is_ambiguous(entities, f.subject_ref) && !is_ambiguous(entities, f.object_ref),
    )
}

fn ambiguous_id(entities: &Vec<ExtractedEntityCandidate>, id: &str) -> (r: bool)
    ensures
        r == is_ambiguous(graph_extraction::entity_candidate_views(entities@), id@),
{
    let ghost all = graph_extraction::entity_candidate_views(entities@);
    let n: usize = entities.len();
    let mut first: usize = 0;
    while first < n && !text_eq(entities[first].local_id.as_str(), id)
        invariant
            first <= n,
            n == entities@.len(),
            all == graph_extraction::entity_candidate_views(entities@),
            forall|k: int| 0 <= k < first ==> (#[trigger] all[k]).local_id != id@,
        ensures
            first <= n,
            forall|k: int| 0 <= k < first ==> (#[trigger] all[k]).local_id != id@,
            first < n ==> all[first as int].local_id == id@,
        decreases n - first,
    {
        assert(all[first as int] == entities@[first as int]@);
        first += 1;
    }
    if first == n {
        return false;
    }
    assert(all[first as int] == entities@[first as int]@);
    let mut i: usize = first;
    while i < n
        invariant
            first <= i <= n,
            first < n,
            n == entities@.len(),
            all == graph_extraction::entity_candidate_views(entities@),
            all[first as int].local_id == id@,
            forall|k: int| 0 <= k < first ==> (#[trigger] all[k]).local_id != id@,
            forall|k: int|
                first <= k < i && (#[trigger] all[k]).local_id == id@ ==> entity_identity(all[k])
                    == entity_identity(all[first as int]),
        decreases n - i,
    {
        assert(all[i as int] == entities@[i as int]@);
        assert(all[first as int] == entities@[first as int]@);
        if text_eq(entities[i].local_id.as_str(), id) && !same_entity(
            &entities[i],
            &entities[first],
        ) {
            assert(is_ambiguous(all, id@));
            return true;
        }
        i += 1;
    }
    assert(!is_ambiguous(all, id@)) by {
        if is_ambiguous(all, id@) {
            let (a, b) = choose|a: int, b: int|
                0 <= a < all.len() && 0 <= b < all.len() && (#[trigger] all[a]).local_id == id@ && (
                #[trigger] all[b]).local_id == id@ && entity_identity(all[a]) != entity_identity(
                    all[b],
                );
            assert(entity_identity(all[a]) == entity_identity(all[first as int]));
            assert(entity_identity(all[b]) == entity_identity(all[first as int]));
        }
    }
    false
}

fn best_of_group(entities: &Vec<ExtractedEntityCandidate>, id: &str, first: usize) -> (r:
    ExtractedEntityCandidate)
    requires
        first < entities@.len(),
        entities@[first as int].local_id@ == id@,
    ensures
        r@ == most_confident(group_of(graph_extraction::entity_candidate_views(entities@), id@)),
{
    let ghost all = graph_extraction::entity_candidate_views(entities@);
    let ghost in_group = |e: EntityCandidateView| e.local_id == id@;
    let mut best: Option<ExtractedEntityCandidate> = None;
    let mut i: usize = 0;
    assert(all.take(0).filter(in_group) =~= Seq::empty()) by {
        reveal(Seq::filter);
    }
    while i < entities.len()
        invariant
            i <= entities@.len(),
            first < entities@.len(),
            entities@[first as int].local_id@ == id@,
            all == graph_extraction::entity_candidate_views(entities@),
            in_group == (|e: EntityCandidateView| e.local_id == id@),
            best is None <==> all.take(i as int).filter(in_group).len() == 0,
            best is Some ==> best->0@ == most_confident(all.take(i as int).filter(in_group)),
            i > first ==> best is Some,
        decreases entities@.len() - i,
    {
        proof {
            reveal(Seq::filter);
            assert(all.take(i + 1).drop_last() =~= all.take(i as int));
            assert(all.take(i + 1).last() == entities@[i as int]@);
        }
        let ghost group = all.take(i as int).filter(in_group);
        let ghost wider = all.take(i + 1).filter(in_group);
        if text_eq(entities[i].local_id.as_str(), id) {
            assert(wider =~= group.push(entities@[i as int]@));
            assert(wider.drop_last() =~= group);
            let better = match &best {
                Some(b) => confidence_place(entities[i].confidence) >= confidence_place(
                    b.confidence,
                ),
                None => true,
            };
            if better {
                best = Some(entities[i].clone());
            }
        } else {
            assert(wider == group);
        }
        i += 1;
    }
    assert(all.take(i as int) =~= all);
    match best {
        Some(b) => b,
        None => entities[first].clone(),
    }
}

/// Leaves one entity for each local id, and drops the ids that stand for
/// different entities together with the facts that rest on them.
pub fn deduplicate_entity_local_ids(output: &mut GraphExtractionOutput)
    ensures
        final(output)@ == (graph_extraction::ExtractionView {
            entities: deduplicated(
                old(output)@.entities,
                old(output)@.entities.len() as int,
            ),
            facts: unambiguous_facts(old(output)@.facts, old(output)@.entities),
            ..old(output)@
        }),
{
    let ghost es = output@.entities;
    let ghost fs = output@.facts;
    let mut seen: Vec<String> = Vec::new();
    let mut entities: Vec<ExtractedEntityCandidate> = Vec::new();
    assert(text::strings(seen@) =~= graph_extraction::local_ids(es.take(0)));
    assert(graph_extraction::entity_candidate_views(entities@) =~= Seq::empty());
    let mut i: usize = 0;
    while i < output.entities.len()
        invariant
            i <= output.entities@.len(),
            output@ == old(output)@,
            es == graph_extraction::entity_candidate_views(output.entities@),
            text::strings(seen@) == graph_extraction::local_ids(es.take(i as int)),
            graph_extraction::entity_candidate_views(entities@) == deduplicated(es, i as int),
        decreases output.entities@.len() - i,
    {
        let id = output.entities[i].local_id.clone();
        assert(es[i as int] == output.entities@[i as int]@);
        let ghost before = graph_extraction::entity_candidate_views(entities@);
        if !holds_text(&seen, id.as_str()) && !ambiguous_id(&output.entities, id.as_str()) {
            let best = best_of_group(&output.entities, id.as_str(), i);
            entities.push(best);
            assert(graph_extraction::entity_candidate_views(entities@) =~= before.push(best@));
        }
        let ghost seen_before = seen@;
        seen.push(id);
        proof {
            text::lemma_strings_push(seen_before, id);
            assert(graph_extraction::local_ids(es.take(i + 1)) =~= graph_extraction::local_ids(
                es.take(i as int),
            ).push(id@));
        }
        i += 1;
    }
    let ghost keep = |f: FactCandidateView|
        !is_ambiguous(es, f.subject_ref) && !is_ambiguous(es, f.object_ref);
    let mut facts: Vec<ExtractedFactCandidate> = Vec::new();
    assert(graph_extraction::fact_candidate_views(facts@) =~= fs.take(0).filter(keep)) by {
        reveal(Seq::filter);
    }
    let mut j: usize = 0;
    while j < output.facts.len()
        invariant
            j <= output.facts@.len(),
            output@ == old(output)@,
            es == graph_extraction::entity_candidate_views(output.entities@),
            fs == graph_extraction::fact_candidate_views(output.facts@),
            keep == (|f: FactCandidateView|
                !is_ambiguous(es, f.subject_ref) && !is_ambiguous(es, f.object_ref)),
            graph_extraction::fact_candidate_views(facts@) == fs.take(j as int).filter(keep),
        decreases output.facts@.len() - j,
    {
        proof {
            reveal(Seq::filter);
            assert(fs.take(j + 1).drop_last() =~= fs.take(j as int));
            assert(fs.take(j + 1).last() == output.facts@[j as int]@);
        }
        let ghost before = graph_extraction::fact_candidate_views(facts@);
        let fact = &output.facts[j];
        if !ambiguous_id(&output.entities, fact.subject_ref.as_str()) && !ambiguous_id(
            &output.entities,
            fact.object_ref.as_str(),
        ) {
            let kept = fact.clone();
            facts.push(kept);
            assert(graph_extraction::fact_candidate_views(facts@) =~= before.push(fact@));
        }
        j += 1;
    }
    assert(fs.take(j as int) =~= fs);
    assert(graph_extraction::fact_candidate_views(facts@) == unambiguous_facts(fs, es));
    output.entities = entities;
    output.facts = facts;
}

/// Where the entities that are left start their groups, among the first `n`.
pub open spec fn group_starts(entities: Seq<EntityCandidateView>, n: int) -> Seq<int>
    decreases n,
{
    if n <= 0 {
        Seq::empty()
    } else {
        let before = group_starts(entities, n - 1);
        let id = entities[n - 1].local_id;
        if graph_extraction::local_ids(entities.take(n - 1)).contains(id) || is_ambiguous(
            entities,
            id,
        ) {
            before
        } else {
            before.push(n - 1)
        }
    }
}

/// Whether a local id is met at a place for the first time, and stands for one
/// entity.
pub open spec fn starts_group(entities: Seq<EntityCandidateView>, p: int) -> bool {
    &&& 0 <= p < entities.len()
    &&& !is_ambiguous(entities, entities[p].local_id)
    &&& forall|q: int| 0 <= q < p ==> (#[trigger] entities[q]).local_id != entities[p].local_id
}

proof fn lemma_group_starts(entities: Seq<EntityCandidateView>, n: int)
    requires
        0 <= n <= entities.len(),
    ensures
        deduplicated(entities, n).len() == group_starts(entities, n).len(),
        forall|k: int|
            0 <= k < group_starts(entities, n).len() ==> #[trigger] group_starts(entities, n)[k] < n
                && starts_group(entities, group_starts(entities, n)[k]),
        forall|j: int, k: int|
            0 <= j < k < group_starts(entities, n).len() ==> #[trigger] group_starts(
                entities,
                n,
            )[j] < #[trigger] group_starts(entities, n)[k],
        forall|p: int|
            0 <= p < n && #[trigger] starts_group(entities, p) ==> group_starts(
                entities,
                n,
            ).contains(p),
        forall|k: int|
            0 <= k < deduplicated(entities, n).len() ==> #[trigger] deduplicated(entities, n)[k]
                == most_confident(
                group_of(entities, entities[group_starts(entities, n)[k]].local_id),
            ),
    decreases n,
{
    if n > 0 {
        lemma_group_starts(entities, n - 1);
        let before = group_starts(entities, n - 1);
        let all = group_starts(entities, n);
        let id = entities[n - 1].local_id;
        let ids = graph_extraction::local_ids(entities.take(n - 1));
        if ids.contains(id) {
            let q = choose|q: int| 0 <= q < ids.len() && ids[q] == id;
            assert(entities[q].local_id == id);
            assert(!starts_group(entities, n - 1));
        } else {
            assert forall|q: int| 0 <= q < n - 1 implies (#[trigger] entities[q]).local_id
                != id by {
                assert(ids[q] == entities[q].local_id);
            }
        }
        assert forall|p: int| 0 <= p < n && #[trigger] starts_group(entities, p) implies all.contains(
            p,
        ) by {
            if p < n - 1 {
                let k = choose|k: int| 0 <= k < before.len() && before[k] == p;
                assert(all[k] == p);
            } else {
                assert(all[before.len() as int] == p);
            }
        }
    }
}

proof fn lemma_most_confident(group: Seq<EntityCandidateView>)
    requires
        group.len() > 0,
    ensures
        group.contains(most_confident(group)),
        forall|i: int|
            0 <= i < group.len() ==> total_place((#[trigger] group[i]).confidence) <= total_place(
                most_confident(group).confidence,
            ),
    decreases group.len(),
{
    if group.len() > 1 {
        let front = group.drop_last();
        lemma_most_confident(front);
        let k = choose|k: int| 0 <= k < front.len() && front[k] == most_confident(front);
        assert(group[k] == most_confident(front));
        assert(group[group.len() - 1] == group.last());
        assert forall|i: int| 0 <= i < group.len() implies total_place(
            (#[trigger] group[i]).confidence,
        ) <= total_place(most_confident(group).confidence) by {
            if i < front.len() {
                assert(front[i] == group[i]);
            }
        }
    } else {
        assert(group[0] == most_confident(group));
    }
}

/// Whether an entity is a candidate under its local id that is at least as
/// confident as any other.
pub open spec fn is_best_entity(entities: Seq<EntityCandidateView>, e: EntityCandidateView) -> bool {
    &&& entities.contains(e)
    &&& forall|i: int|
        0 <= i < entities.len() && (#[trigger] entities[i]).local_id == e.local_id ==> total_place(
            entities[i].confidence,
        ) <= total_place(e.confidence)
}

proof fn lemma_best_of_group(entities: Seq<EntityCandidateView>, p: int)
    requires
        0 <= p < entities.len(),
    ensures
        most_confident(group_of(entities, entities[p].local_id)).local_id == entities[p].local_id,
        is_best_entity(entities, most_confident(group_of(entities, entities[p].local_id))),
{
    broadcast use vstd::seq_lib::group_filter_ensures;

    let id = entities[p].local_id;
    let in_group = |e: EntityCandidateView| e.local_id == id;
    let group = group_of(entities, id);
    assert(in_group(entities[p]));
    assert(group.contains(entities[p]));
    lemma_most_confident(group);
    let best = most_confident(group);
    let k = choose|k: int| 0 <= k < group.len() && group[k] == best;
    assert(in_group(group[k]));
    lemma_filtered_from(entities, in_group, k);
    assert forall|i: int|
        0 <= i < entities.len() && (#[trigger] entities[i]).local_id
            == best.local_id implies total_place(entities[i].confidence) <= total_place(
        best.confidence,
    ) by {
        assert(in_group(entities[i]));
        assert(group.contains(entities[i]));
        let j = choose|j: int| 0 <= j < group.len() && group[j] == entities[i];
        assert(total_place(group[j].confidence) <= total_place(best.confidence));
    }
}

proof fn lemma_filtered_from<T>(s: Seq<T>, f: spec_fn(T) -> bool, k: int)
    requires
        0 <= k < s.filter(f).len(),
    ensures
        s.contains(s.filter(f)[k]),
    decreases s.len(),
{
    reveal(Seq::filter);
    if s.len() > 0 {
        let front = s.drop_last();
        if k < front.filter(f).len() {
            lemma_filtered_from(front, f, k);
            let i = choose|i: int| 0 <= i < front.len() && front[i] == front.filter(f)[k];
            assert(s[i] == front[i]);
        } else {
            assert(s[s.len() - 1] == s.last());
        }
    }
}

proof fn lemma_only_one<T>(s: Seq<T>, f: spec_fn(T) -> bool, k: int)
    requires
        k < s.len(),
        forall|i: int| 0 <= i < s.len() ==> (f(#[trigger] s[i]) <==> i == k),
    ensures
        s.filter(f) == (if k >= 0 {
            seq![s[k]]
        } else {
            Seq::empty()
        }),
    decreases s.len(),
{
    reveal(Seq::filter);
    if s.len() > 0 {
        let front = s.drop_last();
        assert forall|i: int| 0 <= i < front.len() implies (f(#[trigger] front[i]) <==> i == (
        if k == s.len() - 1 {
            -1
        } else {
            k
        })) by {
            assert(front[i] == s[i]);
        }
        lemma_only_one(
            front,
            f,
            if k == s.len() - 1 {
                -1
            } else {
                k
            },
        );
        assert(f(s[s.len() - 1]) <==> s.len() - 1 == k);
    }
    assert(s.filter(f) =~= (if k >= 0 {
        seq![s[k]]
    } else {
        Seq::empty()
    }));
}

proof fn lemma_nothing_ambiguous(entities: Seq<EntityCandidateView>, id: Seq<char>)
    requires
        forall|i: int, j: int|
            0 <= i < j < entities.len() ==> (#[trigger] entities[i]).local_id != (
            #[trigger] entities[j]).local_id,
    ensures
        !is_ambiguous(entities, id),
{
    if is_ambiguous(entities, id) {
        let (i, j) = choose|i: int, j: int|
            0 <= i < entities.len() && 0 <= j < entities.len() && (#[trigger] entities[i]).local_id
                == id && (#[trigger] entities[j]).local_id == id && entity_identity(entities[i])
                != entity_identity(entities[j]);
        if i < j {
            assert(entities[i].local_id != entities[j].local_id);
        } else if j < i {
            assert(entities[j].local_id != entities[i].local_id);
        }
    }
}

proof fn lemma_distinct_entities_stay(entities: Seq<EntityCandidateView>, n: int)
    requires
        0 <= n <= entities.len(),
        forall|i: int, j: int|
            0 <= i < j < entities.len() ==> (#[trigger] entities[i]).local_id != (
            #[trigger] entities[j]).local_id,
    ensures
        deduplicated(entities, n) == entities.take(n),
    decreases n,
{
    if n > 0 {
        lemma_distinct_entities_stay(entities, n - 1);
        let id = entities[n - 1].local_id;
        let ids = graph_extraction::local_ids(entities.take(n - 1));
        if ids.contains(id) {
            let q = choose|q: int| 0 <= q < ids.len() && ids[q] == id;
            assert(entities[q].local_id != entities[n - 1].local_id);
        }
        lemma_nothing_ambiguous(entities, id);
        let in_group = |e: EntityCandidateView| e.local_id == id;
        assert forall|i: int| 0 <= i < entities.len() implies (in_group(#[trigger] entities[i])
            <==> i == n - 1) by {
            if i < n - 1 {
                assert(entities[i].local_id != entities[n - 1].local_id);
            } else if i > n - 1 {
                assert(entities[n - 1].local_id != entities[i].local_id);
            }
        }
        lemma_only_one(entities, in_group, n - 1);
        assert(group_of(entities, id) =~= seq![entities[n - 1]]);
        assert(entities.take(n) =~= entities.take(n - 1).push(entities[n - 1]));
    } else {
        assert(deduplicated(entities, n) =~= entities.take(n));
    }
}

/// What is left of a list of entities holds every local id once. An id is left
/// exactly where all its candidates are the same entity; it is left with a
/// candidate as confident as any, and the ids go in the order in which they were
/// met.
pub proof fn entities_left_are_distinct(entities: Seq<EntityCandidateView>, id: Seq<char>)
    ensures
        ({
            let left = deduplicated(entities, entities.len() as int);
            let starts = group_starts(entities, entities.len() as int);
            &&& graph_extraction::local_ids(left).contains(id) <==> graph_extraction::local_ids(
                entities,
            ).contains(id) && !is_ambiguous(entities, id)
            &&& forall|i: int, j: int|
                0 <= i < j < left.len() ==> (#[trigger] left[i]).local_id != (
                #[trigger] left[j]).local_id
            &&& left.len() == starts.len()
            &&& forall|k: int|
                0 <= k < left.len() ==> starts_group(entities, starts[k]) && (
                #[trigger] left[k]).local_id == entities[starts[k]].local_id && is_best_entity(
                    entities,
                    left[k],
                )
            &&& forall|j: int, k: int|
                0 <= j < k < starts.len() ==> #[trigger] starts[j] < #[trigger] starts[k]
        }),
{
    let n = entities.len() as int;
    let left = deduplicated(entities, n);
    let starts = group_starts(entities, n);
    lemma_group_starts(entities, n);
    assert forall|k: int| 0 <= k < left.len() implies starts_group(entities, starts[k]) && (
    #[trigger] left[k]).local_id == entities[starts[k]].local_id && is_best_entity(
        entities,
        left[k],
    ) by {
        assert(starts[k] < n);
        lemma_best_of_group(entities, starts[k]);
    }
    assert forall|i: int, j: int| 0 <= i < j < left.len() implies (#[trigger] left[i]).local_id != (
    #[trigger] left[j]).local_id by {
        assert(starts[i] < starts[j]);
        assert(starts_group(entities, starts[j]));
        assert(entities[starts[i]].local_id != entities[starts[j]].local_id);
    }
    let ids = graph_extraction::local_ids(left);
    let old_ids = graph_extraction::local_ids(entities);
    if ids.contains(id) {
        let k = choose|k: int| 0 <= k < ids.len() && ids[k] == id;
        assert(left[k].local_id == id);
        assert(old_ids[starts[k]] == id);
    }
    if old_ids.contains(id) && !is_ambiguous(entities, id) {
        let q = choose|q: int| 0 <= q < old_ids.len() && old_ids[q] == id;
        let p = lemma_first_with(entities, q);
        assert(starts_group(entities, p));
        assert(starts.contains(p));
        let k = choose|k: int| 0 <= k < starts.len() && starts[k] == p;
        assert(left[k].local_id == entities[starts[k]].local_id);
        assert(ids[k] == id);
    }
}

proof fn lemma_first_with(entities: Seq<EntityCandidateView>, q: int) -> (p: int)
    requires
        0 <= q < entities.len(),
    ensures
        0 <= p <= q,
        entities[p].local_id == entities[q].local_id,
        forall|k: int| 0 <= k < p ==> (#[trigger] entities[k]).local_id != entities[q].local_id,
    decreases q,
{
    if exists|k: int| 0 <= k < q && (#[trigger] entities[k]).local_id == entities[q].local_id {
        let k = choose|k: int|
            0 <= k < q && (#[trigger] entities[k]).local_id == entities[q].local_id;
        lemma_first_with(entities, k)
    } else {
        q
    }
}

proof fn lemma_all_stay<T>(s: Seq<T>, f: spec_fn(T) -> bool)
    requires
        forall|i: int| 0 <= i < s.len() ==> f(#[trigger] s[i]),
    ensures
        s.filter(f) == s,
    decreases s.len(),
{
    reveal(Seq::filter);
    if s.len() > 0 {
        assert forall|i: int| 0 <= i < s.drop_last().len() implies f(
            #[trigger] s.drop_last()[i],
        ) by {
            assert(f(s[i]));
        }
        lemma_all_stay(s.drop_last(), f);
        assert(f(s[s.len() - 1]));
    }
    assert(s.filter(f) =~= s);
}

/// To leave one entity for each local id a second time changes nothing, neither
/// of the entities nor of the facts.
pub proof fn deduplicating_entities_again_changes_nothing(
    entities: Seq<EntityCandidateView>,
    facts: Seq<FactCandidateView>,
)
    ensures
        ({
            let left = deduplicated(entities, entities.len() as int);
            &&& deduplicated(left, left.len() as int) == left
            &&& unambiguous_facts(facts, left) == facts
        }),
{
    let left = deduplicated(entities, entities.len() as int);
    entities_left_are_distinct(entities, Seq::empty());
    lemma_distinct_entities_stay(left, left.len() as int);
    assert(left.take(left.len() as int) =~= left);
    let keep = |f: FactCandidateView|
        !is_ambiguous(left, f.subject_ref) && !is_ambiguous(left, f.object_ref);
    assert forall|i: int| 0 <= i < facts.len() implies keep(#[trigger] facts[i]) by {
        lemma_nothing_ambiguous(left, facts[i].subject_ref);
        lemma_nothing_ambiguous(left, facts[i].object_ref);
    }
    lemma_all_stay(facts, keep);
}

} // verus!
