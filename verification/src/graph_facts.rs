//! Cleaning the facts that a language model extracts, once its entities are
//! settled.

use vstd::prelude::*;
use vstd::string::*;

use crate::api;
use crate::api::{score_rank, INFINITE_PLACE};
use crate::graph_clean;
use crate::graph_clean::evidence_byte_range_matches_record;
use crate::graph_extraction;
use crate::graph_extraction::{
    ExtractedFactCandidate, ExtractionView, FactCandidateView, GraphEvidenceSpan,
    GraphExtractionOutput, SpanView,
};
use crate::graph_registry;
use crate::graph_registry::{GraphTypeRegistry, RegistryView};
use crate::text;
use crate::text::{
    char_at_byte, char_to_lowercase, holds_text, join_texts, push_decimal, split_words,
    text_contains, text_eq, to_chars, trim, utf8_len,
};

verus! {

/// Whether a piece of evidence points into the record: its byte range lies
/// between characters of the record, and holds the text that is quoted.
pub open spec fn is_grounded(span: SpanView, record: Seq<char>) -> bool {
    match span.text {
        Some(quote) => graph_clean::range_holds(span, record, quote),
        None => match (span.start_byte, span.end_byte) {
            (Some(start), Some(end)) => {
                &&& start < end
                &&& end <= text::byte_len(record)
                &&& text::is_boundary(record, start as nat)
                &&& text::is_boundary(record, end as nat)
            },
            _ => false,
        },
    }
}

fn evidence_is_grounded(span: &GraphEvidenceSpan, record_text: &str) -> (r: bool)
    ensures
        r == is_grounded(span@, record_text@),
{
    match &span.text {
        Some(quote) => evidence_byte_range_matches_record(span, record_text, quote.as_str()),
        None => match (span.start_byte, span.end_byte) {
            (Some(start), Some(end)) => {
                if start >= end || end > utf8_len(record_text) {
                    return false;
                }
                let chars = to_chars(record_text);
                char_at_byte(&chars, start).is_some() && char_at_byte(&chars, end).is_some()
            },
            _ => false,
        },
    }
}

pub open spec fn grounded_spans(spans: Seq<SpanView>, record: Seq<char>) -> Seq<SpanView> {
    spans.filter(|s: SpanView| is_grounded(s, record))
}

fn keep_grounded(spans: &Vec<GraphEvidenceSpan>, record_text: &str) -> (r: Vec<GraphEvidenceSpan>)
    ensures
        graph_extraction::span_views(r@) == grounded_spans(
            graph_extraction::span_views(spans@),
            record_text@,
        ),
{
    let ghost all = graph_extraction::span_views(spans@);
    let ghost keep = |s: SpanView| is_grounded(s, record_text@);
    let mut r: Vec<GraphEvidenceSpan> = Vec::new();
    assert(graph_extraction::span_views(r@) =~= all.take(0).filter(keep)) by {
        reveal(Seq::filter);
    }
    let mut i: usize = 0;
    while i < spans.len()
        invariant
            i <= spans@.len(),
            all == graph_extraction::span_views(spans@),
            keep == (|s: SpanView| is_grounded(s, record_text@)),
            graph_extraction::span_views(r@) == all.take(i as int).filter(keep),
        decreases spans@.len() - i,
    {
        proof {
            reveal(Seq::filter);
            assert(all.take(i + 1).drop_last() =~= all.take(i as int));
            assert(all.take(i + 1).last() == spans@[i as int]@);
        }
        let ghost before = graph_extraction::span_views(r@);
        if evidence_is_grounded(&spans[i], record_text) {
            let span = spans[i].clone();
            r.push(span);
            assert(graph_extraction::span_views(r@) =~= before.push(spans@[i as int]@));
        }
        i += 1;
    }
    assert(all.take(i as int) =~= all);
    r
}

/// What becomes of a fact: it keeps the evidence that points into the record,
/// and takes the fallback predicate where its own is not registered. It is
/// dropped without evidence, without its entities, or without a predicate.
pub open spec fn materialized(
    f: FactCandidateView,
    entity_ids: Seq<Seq<char>>,
    registry: RegistryView,
    record: Seq<char>,
) -> Option<FactCandidateView> {
    let evidence = grounded_spans(f.evidence, record);
    if evidence.len() == 0 || !entity_ids.contains(f.subject_ref) || !entity_ids.contains(
        f.object_ref,
    ) {
        None
    } else if graph_registry::predicate_named(registry.predicates, f.predicate) is Some {
        Some(FactCandidateView { evidence, ..f })
    } else if graph_registry::predicate_named(registry.predicates, "RELATED_TO"@) is Some {
        Some(FactCandidateView { evidence, predicate: "RELATED_TO"@, ..f })
    } else {
        None
    }
}

pub open spec fn materialized_facts(
    facts: Seq<FactCandidateView>,
    entity_ids: Seq<Seq<char>>,
    registry: RegistryView,
    record: Seq<char>,
) -> Seq<FactCandidateView>
    decreases facts.len(),
{
    if facts.len() == 0 {
        Seq::empty()
    } else {
        let before = materialized_facts(facts.drop_last(), entity_ids, registry, record);
        match materialized(facts.last(), entity_ids, registry, record) {
            Some(f) => before.push(f),
            None => before,
        }
    }
}

fn materialize(
    fact: &ExtractedFactCandidate,
    entity_ids: &Vec<String>,
    registry: &GraphTypeRegistry,
    record_text: &str,
) -> (r: Option<ExtractedFactCandidate>)
    ensures
        match r {
            Some(f) => materialized(
                fact@,
                text::strings(entity_ids@),
                registry@,
                record_text@,
            ) == Some(f@),
            None => materialized(
                fact@,
                text::strings(entity_ids@),
                registry@,
                record_text@,
            ) is None,
        },
{
    let evidence = keep_grounded(&fact.evidence, record_text);
    assert(graph_extraction::span_views(evidence@).len() == evidence@.len());
    if evidence.is_empty() || !holds_text(entity_ids, fact.subject_ref.as_str()) || !holds_text(
        entity_ids,
        fact.object_ref.as_str(),
    ) {
        return None;
    }
    let mut kept = fact.clone();
    kept.evidence = evidence;
    if registry.predicate(fact.predicate.as_str()).is_some() {
        return Some(kept);
    }
    if registry.predicate("RELATED_TO").is_some() {
        kept.predicate = "RELATED_TO".to_owned();
        return Some(kept);
    }
    None
}

/// Drops the facts that cannot be stored.
pub fn drop_unmaterializable_facts(
    output: &mut GraphExtractionOutput,
    registry: &GraphTypeRegistry,
    record_text: &str,
)
    ensures
        final(output)@ == (ExtractionView {
            facts: materialized_facts(
                old(output)@.facts,
                graph_extraction::local_ids(old(output)@.entities),
                registry@,
                record_text@,
            ),
            ..old(output)@
        }),
{
    let ghost es = output@.entities;
    let ghost fs = output@.facts;
    let mut entity_ids: Vec<String> = Vec::new();
    let mut i: usize = 0;
    assert(text::strings(entity_ids@) =~= graph_extraction::local_ids(es.take(0)));
    while i < output.entities.len()
        invariant
            i <= output.entities@.len(),
            output@ == old(output)@,
            es == graph_extraction::entity_candidate_views(output.entities@),
            text::strings(entity_ids@) == graph_extraction::local_ids(es.take(i as int)),
        decreases output.entities@.len() - i,
    {
        let ghost before = entity_ids@;
        let id = output.entities[i].local_id.clone();
        assert(es[i as int] == output.entities@[i as int]@);
        entity_ids.push(id);
        proof {
            text::lemma_strings_push(before, id);
            assert(graph_extraction::local_ids(es.take(i + 1)) =~= graph_extraction::local_ids(
                es.take(i as int),
            ).push(id@));
        }
        i += 1;
    }
    assert(es.take(i as int) =~= es);
    let ghost ids = graph_extraction::local_ids(es);
    let mut facts: Vec<ExtractedFactCandidate> = Vec::new();
    assert(graph_extraction::fact_candidate_views(facts@) =~= Seq::empty());
    assert(fs.take(0) =~= Seq::empty());
    let mut j: usize = 0;
    while j < output.facts.len()
        invariant
            j <= output.facts@.len(),
            output@ == old(output)@,
            ids == text::strings(entity_ids@),
            fs == graph_extraction::fact_candidate_views(output.facts@),
            graph_extraction::fact_candidate_views(facts@) == materialized_facts(
                fs.take(j as int),
                ids,
                registry@,
                record_text@,
            ),
        decreases output.facts@.len() - j,
    {
        let ghost before = graph_extraction::fact_candidate_views(facts@);
        assert(fs.take(j + 1).drop_last() =~= fs.take(j as int));
        assert(fs.take(j + 1).last() == output.facts@[j as int]@);
        match materialize(&output.facts[j], &entity_ids, registry, record_text) {
            Some(f) => {
                facts.push(f);
                assert(graph_extraction::fact_candidate_views(facts@) =~= before.push(f@));
            },
            None => {},
        }
        j += 1;
    }
    assert(fs.take(j as int) =~= fs);
    output.facts = facts;
}

/// A fact with the expression of time that the record holds, and without the
/// times that the model has computed.
pub open spec fn timeless(f: FactCandidateView, record: Seq<char>) -> FactCandidateView {
    FactCandidateView {
        temporal_expression: match f.temporal_expression {
            Some(t) => if !text::is_blank(t) && text::contains_text(record, text::trimmed(t)) {
                Some(text::trimmed(t))
            } else {
                None
            },
            None => None,
        },
        valid_from_ms: None,
        valid_to_ms: None,
        ..f
    }
}

pub open spec fn timeless_facts(facts: Seq<FactCandidateView>, record: Seq<char>) -> Seq<
    FactCandidateView,
> {
    facts.map_values(|f: FactCandidateView| timeless(f, record))
}

/// Removes the times that a model has computed, and the expressions of time
/// that the record does not hold.
pub fn sanitize_llm_fact_times(output: &mut GraphExtractionOutput, record_text: &str)
    ensures
        final(output)@ == (ExtractionView {
            facts: timeless_facts(old(output)@.facts, record_text@),
            ..old(output)@
        }),
{
    let ghost fs = output@.facts;
    let mut facts: Vec<ExtractedFactCandidate> = Vec::new();
    let mut i: usize = 0;
    while i < output.facts.len()
        invariant
            i <= output.facts@.len(),
            output@ == old(output)@,
            fs == graph_extraction::fact_candidate_views(output.facts@),
            facts@.len() == i,
            forall|k: int|
                0 <= k < i ==> (#[trigger] facts@[k])@ == timeless(fs[k], record_text@),
        decreases output.facts@.len() - i,
    {
        assert(fs[i as int] == output.facts@[i as int]@);
        let mut fact = output.facts[i].clone();
        let expression = match &fact.temporal_expression {
            Some(t) => {
                let trimmed = trim(t.as_str());
                if !trimmed.is_empty() && text_contains(record_text, trimmed) {
                    Some(trimmed.to_owned())
                } else {
                    None
                }
            },
            None => None,
        };
        fact.temporal_expression = expression;
        fact.valid_from_ms = None;
        fact.valid_to_ms = None;
        facts.push(fact);
        i += 1;
    }
    assert(graph_extraction::fact_candidate_views(facts@) =~= timeless_facts(fs, record_text@));
    output.facts = facts;
}

/// A text with every letter and digit in lower case and a space for any other
/// character.
pub open spec fn spaced_text(s: Seq<char>) -> Seq<char>
    decreases s.len(),
{
    if s.len() == 0 {
        Seq::empty()
    } else if text::char_alphanumeric(s.last()) {
        spaced_text(s.drop_last()) + text::lowercase_char(s.last())
    } else {
        spaced_text(s.drop_last()).push(' ')
    }
}

/// A text reduced to its words in lower case.
pub open spec fn word_text(s: Seq<char>) -> Seq<char> {
    text::joined(text::words_of(spaced_text(s)), " "@)
}

pub fn normalize_fact_text_for_filtering(s: &str) -> (r: String)
    ensures
        r@ == word_text(s@),
{
    let chars = to_chars(s);
    let mut spaced = String::new();
    let mut i: usize = 0;
    assert(chars@.take(0) =~= Seq::empty());
    while i < chars.len()
        invariant
            i <= chars@.len(),
            spaced@ == spaced_text(chars@.take(i as int)),
        decreases chars@.len() - i,
    {
        assert(chars@.take(i + 1).drop_last() =~= chars@.take(i as int));
        if chars[i].is_alphanumeric() {
            let lower = char_to_lowercase(chars[i]);
            spaced.append(lower.as_str());
        } else {
            spaced.push(' ');
        }
        i += 1;
    }
    assert(chars@.take(i as int) =~= s@);
    join_texts(&split_words(spaced.as_str()), " ")
}

/// The phrases of conversational bookkeeping.
pub open spec fn chatter() -> Seq<Seq<char>> {
    seq![
        "mentioned"@,
        "is mentioned"@,
        "was mentioned"@,
        "are mentioned"@,
        "were mentioned"@,
        "communicates with"@,
        "communicating with"@,
        "is communicating with"@,
        "was communicating with"@,
        "talked to"@,
        "talks to"@,
        "is talking to"@,
        "thanked"@,
        "thanks"@,
        "thanking"@,
        "is thanked by"@,
        "was thanked by"@,
        "agrees with"@,
        "agreed with"@,
        "is in agreement with"@,
        "was in agreement with"@,
    ]
}

/// Whether a text holds one of the phrases.
pub open spec fn holds_phrase(s: Seq<char>, phrases: Seq<Seq<char>>) -> bool {
    exists|i: int| 0 <= i < phrases.len() && text::contains_text(s, #[trigger] phrases[i])
}

/// Whether a fact says nothing worth keeping: it relates an entity to itself,
/// or merely reports the conversation.
pub open spec fn is_low_signal(f: FactCandidateView) -> bool {
    f.subject_ref == f.object_ref || f.predicate == "MENTIONED"@ || holds_phrase(
        word_text(f.fact_text),
        chatter(),
    )
}

pub open spec fn refs(list: Seq<&str>) -> Seq<Seq<char>> {
    Seq::new(list.len(), |i: int| list[i]@)
}

/// Whether a text holds one of the phrases.
pub fn contains_any(s: &str, phrases: &Vec<&str>) -> (r: bool)
    ensures
        r == holds_phrase(s@, refs(phrases@)),
{
    let mut i: usize = 0;
    while i < phrases.len()
        invariant
            i <= phrases@.len(),
            forall|k: int| 0 <= k < i ==> !text::contains_text(s@, #[trigger] refs(phrases@)[k]),
        decreases phrases@.len() - i,
    {
        assert(refs(phrases@)[i as int] == phrases@[i as int]@);
        if text_contains(s, phrases[i]) {
            return true;
        }
        i += 1;
    }
    false
}

pub fn is_low_signal_conversational_fact(fact: &ExtractedFactCandidate) -> (r: bool)
    ensures
        r == is_low_signal(fact@),
{
    if text_eq(fact.subject_ref.as_str(), fact.object_ref.as_str()) {
        return true;
    }
    if text_eq(fact.predicate.as_str(), "MENTIONED") {
        return true;
    }
    let normalized = normalize_fact_text_for_filtering(fact.fact_text.as_str());
    let phrases: Vec<&str> = vec![
        "mentioned",
        "is mentioned",
        "was mentioned",
        "are mentioned",
        "were mentioned",
        "communicates with",
        "communicating with",
        "is communicating with",
        "was communicating with",
        "talked to",
        "talks to",
        "is talking to",
        "thanked",
        "thanks",
        "thanking",
        "is thanked by",
        "was thanked by",
        "agrees with",
        "agreed with",
        "is in agreement with",
        "was in agreement with",
    ];
    assert(refs(phrases@) =~= chatter());
    contains_any(normalized.as_str(), &phrases)
}

pub open spec fn telling_facts(facts: Seq<FactCandidateView>) -> Seq<FactCandidateView> {
    facts.filter(|f: FactCandidateView| !is_low_signal(f))
}

/// Drops the facts that say nothing worth keeping.
pub fn drop_low_signal_facts(output: &mut GraphExtractionOutput)
    ensures
        final(output)@ == (ExtractionView {
            facts: telling_facts(old(output)@.facts),
            ..old(output)@
        }),
{
    let ghost fs = output@.facts;
    let ghost keep = |f: FactCandidateView| !is_low_signal(f);
    let mut facts: Vec<ExtractedFactCandidate> = Vec::new();
    assert(graph_extraction::fact_candidate_views(facts@) =~= fs.take(0).filter(keep)) by {
        reveal(Seq::filter);
    }
    let mut i: usize = 0;
    while i < output.facts.len()
        invariant
            i <= output.facts@.len(),
            output@ == old(output)@,
            fs == graph_extraction::fact_candidate_views(output.facts@),
            keep == (|f: FactCandidateView| !is_low_signal(f)),
            graph_extraction::fact_candidate_views(facts@) == fs.take(i as int).filter(keep),
        decreases output.facts@.len() - i,
    {
        proof {
            reveal(Seq::filter);
            assert(fs.take(i + 1).drop_last() =~= fs.take(i as int));
            assert(fs.take(i + 1).last() == output.facts@[i as int]@);
        }
        let ghost before = graph_extraction::fact_candidate_views(facts@);
        if !is_low_signal_conversational_fact(&output.facts[i]) {
            let fact = output.facts[i].clone();
            facts.push(fact);
            assert(graph_extraction::fact_candidate_views(facts@) =~= before.push(fact@));
        }
        i += 1;
    }
    assert(fs.take(i as int) =~= fs);
    output.facts = facts;
}

/// An id with a number behind it.
pub open spec fn numbered_id(base: Seq<char>, n: nat) -> Seq<char> {
    base + ":"@ + text::decimal_text(n)
}

/// The least number from `n` on that gives an id which is not taken.
pub open spec fn free_number(taken: Seq<Seq<char>>, base: Seq<char>, n: nat) -> nat
    decreases taken.len() + 2 - n,
{
    if n > taken.len() + 1 || !taken.contains(numbered_id(base, n)) {
        n
    } else {
        free_number(taken, base, n + 1)
    }
}

/// The id that a fact goes by after others: its own, or, where that is taken,
/// its own with the least number from 2 on that is free.
pub open spec fn free_id(taken: Seq<Seq<char>>, id: Seq<char>) -> Seq<char> {
    if taken.contains(id) {
        numbered_id(id, free_number(taken, id, 2))
    } else {
        id
    }
}

/// The numbered ids from 2 up to `n` are all different, so they cannot all be
/// among fewer taken ids.
proof fn lemma_some_number_is_free(taken: Seq<Seq<char>>, base: Seq<char>)
    ensures
        !taken.contains(numbered_id(base, free_number(taken, base, 2))),
        2 <= free_number(taken, base, 2) <= taken.len() + 2,
{
    lemma_free_number(taken, base, 2);
    let n = free_number(taken, base, 2);
    if taken.contains(numbered_id(base, n)) {
        assert(n == taken.len() + 2);
        let ids = Seq::new((taken.len() + 1) as nat, |i: int| numbered_id(base, (i + 2) as nat));
        assert forall|i: int, j: int| 0 <= i < j < ids.len() implies #[trigger] ids[i]
            != #[trigger] ids[j] by {
            if ids[i] == ids[j] {
                let a = text::decimal_text((i + 2) as nat);
                let b = text::decimal_text((j + 2) as nat);
                let lead = base + ":"@;
                assert(ids[i].skip(lead.len() as int) =~= a);
                assert(ids[j].skip(lead.len() as int) =~= b);
                text::decimal_texts_differ((i + 2) as nat, (j + 2) as nat);
            }
        }
        assert(ids.no_duplicates());
        assert forall|x: Seq<char>| ids.to_set().contains(x) implies taken.to_set().contains(x) by {
            let i = choose|i: int| 0 <= i < ids.len() && ids[i] == x;
            let m = (i + 2) as nat;
            assert(x == numbered_id(base, m));
            if m < n {
                assert(taken.contains(numbered_id(base, m)));
            }
        }
        ids.unique_seq_to_set();
        taken.lemma_cardinality_of_set();
        vstd::set_lib::lemma_len_subset(ids.to_set(), taken.to_set());
    }
}

proof fn lemma_free_number(taken: Seq<Seq<char>>, base: Seq<char>, n: nat)
    requires
        n <= taken.len() + 2,
    ensures
        n <= free_number(taken, base, n) <= taken.len() + 2,
        forall|m: nat|
            n <= m < free_number(taken, base, n) ==> taken.contains(#[trigger] numbered_id(base, m)),
        free_number(taken, base, n) < taken.len() + 2 ==> !taken.contains(
            numbered_id(base, free_number(taken, base, n)),
        ),
    decreases taken.len() + 2 - n,
{
    if n <= taken.len() + 1 && taken.contains(numbered_id(base, n)) {
        lemma_free_number(taken, base, n + 1);
    }
}

/// The ids that facts go by, one after the other.
pub open spec fn free_ids(ids: Seq<Seq<char>>) -> Seq<Seq<char>>
    decreases ids.len(),
{
    if ids.len() == 0 {
        Seq::empty()
    } else {
        let taken = free_ids(ids.drop_last());
        taken.push(free_id(taken, ids.last()))
    }
}

/// The facts under ids of their own.
pub open spec fn uniquified(facts: Seq<FactCandidateView>) -> Seq<FactCandidateView> {
    let ids = free_ids(graph_extraction::fact_ids(facts));
    Seq::new(facts.len(), |i: int| FactCandidateView { local_id: ids[i], ..facts[i] })
}

/// No two facts go by the same id, and the first fact under an id keeps it.
pub proof fn free_ids_are_distinct(ids: Seq<Seq<char>>)
    ensures
        free_ids(ids).len() == ids.len(),
        free_ids(ids).no_duplicates(),
    decreases ids.len(),
{
    if ids.len() > 0 {
        free_ids_are_distinct(ids.drop_last());
        let taken = free_ids(ids.drop_last());
        lemma_some_number_is_free(taken, ids.last());
        assert(!taken.contains(free_id(taken, ids.last())));
        let all = free_ids(ids);
        assert forall|i: int, j: int| 0 <= i < j < all.len() implies all[i] != all[j] by {
            assert(all[i] == taken[i]);
            if j < taken.len() {
                assert(all[j] == taken[j]);
            } else if all[i] == all[j] {
                assert(taken.contains(all[j]));
            }
        }
    }
}

fn free_local_id(taken: &Vec<String>, id: &str) -> (r: String)
    requires
        taken@.len() + 2 <= usize::MAX,
    ensures
        r@ == free_id(text::strings(taken@), id@),
{
    if !holds_text(taken, id) {
        return id.to_owned();
    }
    let ghost ts = text::strings(taken@);
    proof {
        lemma_some_number_is_free(ts, id@);
        lemma_free_number(ts, id@, 2);
    }
    let mut n: usize = 2;
    loop
        invariant
            taken@.len() + 2 <= usize::MAX,
            ts == text::strings(taken@),
            ts.contains(id@),
            2 <= n <= ts.len() + 2,
            free_number(ts, id@, 2) == free_number(ts, id@, n as nat),
            !ts.contains(numbered_id(id@, free_number(ts, id@, 2))),
        decreases ts.len() + 2 - n,
    {
        let mut candidate = id.to_owned();
        candidate.append(":");
        push_decimal(&mut candidate, n as u64);
        if !holds_text(taken, candidate.as_str()) {
            return candidate;
        }
        n += 1;
    }
}

/// Gives every fact an id of its own.
pub fn uniquify_fact_local_ids(output: &mut GraphExtractionOutput)
    requires
        old(output).facts@.len() + 2 <= usize::MAX,
    ensures
        final(output)@ == (ExtractionView {
            facts: uniquified(old(output)@.facts),
            ..old(output)@
        }),
{
    let ghost fs = output@.facts;
    let ghost ids = graph_extraction::fact_ids(fs);
    let mut taken: Vec<String> = Vec::new();
    let mut facts: Vec<ExtractedFactCandidate> = Vec::new();
    assert(ids.take(0) =~= Seq::empty());
    assert(text::strings(taken@) =~= Seq::empty());
    let mut i: usize = 0;
    while i < output.facts.len()
        invariant
            i <= output.facts@.len(),
            output@ == old(output)@,
            output.facts@.len() + 2 <= usize::MAX,
            fs == graph_extraction::fact_candidate_views(output.facts@),
            ids == graph_extraction::fact_ids(fs),
            taken@.len() == i,
            text::strings(taken@) == free_ids(ids.take(i as int)),
            facts@.len() == i,
            forall|k: int|
                0 <= k < i ==> (#[trigger] facts@[k])@ == (FactCandidateView {
                    local_id: taken@[k]@,
                    ..fs[k]
                }),
        decreases output.facts@.len() - i,
    {
        assert(fs[i as int] == output.facts@[i as int]@);
        assert(ids.take(i + 1).drop_last() =~= ids.take(i as int));
        assert(ids.take(i + 1).last() == fs[i as int].local_id);
        let mut fact = output.facts[i].clone();
        let id = free_local_id(&taken, fact.local_id.as_str());
        let ghost before = taken@;
        taken.push(id.clone());
        proof {
            text::lemma_strings_push(before, taken@.last());
            assert(taken@ =~= before.push(taken@.last()));
        }
        fact.local_id = id;
        facts.push(fact);
        i += 1;
    }
    assert(ids.take(i as int) =~= ids);
    proof {
        assert forall|k: int| 0 <= k < fs.len() implies (#[trigger] facts@[k])@ == uniquified(
            fs,
        )[k] by {
            assert(text::strings(taken@)[k] == taken@[k]@);
        }
        assert(graph_extraction::fact_candidate_views(facts@) =~= uniquified(fs));
    }
    output.facts = facts;
}

/// How much a predicate says.
pub open spec fn specificity(predicate: Seq<char>) -> int {
    if predicate == "MENTIONED"@ {
        0
    } else if predicate == "RELATED_TO"@ {
        1
    } else {
        2
    }
}

fn predicate_specificity(predicate: &str) -> (r: u8)
    ensures
        r == specificity(predicate@),
{
    if text_eq(predicate, "MENTIONED") {
        0
    } else if text_eq(predicate, "RELATED_TO") {
        1
    } else {
        2
    }
}

/// The place of a confidence in the order of single-precision numbers. No
/// confidence counts as 0, and a NaN has no place.
pub open spec fn confidence_place(c: Option<u32>) -> Option<int> {
    match c {
        Some(bits) => if -INFINITE_PLACE <= api::score_place(bits) <= INFINITE_PLACE {
            Some(api::score_place(bits))
        } else {
            None
        },
        None => Some(0),
    }
}

/// Whether a confidence is higher than another one. A NaN is neither higher nor
/// lower than any.
pub open spec fn is_higher(a: Option<u32>, b: Option<u32>) -> bool {
    match (confidence_place(a), confidence_place(b)) {
        (Some(x), Some(y)) => x > y,
        _ => false,
    }
}

/// Whether a fact takes the place of one that says the same: its predicate
/// says more, or as much with a higher confidence.
pub open spec fn replaces(candidate: FactCandidateView, existing: FactCandidateView) -> bool {
    let a = specificity(candidate.predicate);
    let b = specificity(existing.predicate);
    if a != b {
        a > b
    } else {
        is_higher(candidate.confidence, existing.confidence)
    }
}

fn place_of_confidence(c: Option<u32>) -> (r: Option<i32>)
    ensures
        match r {
            Some(place) => confidence_place(c) == Some(place as int),
            None => confidence_place(c) is None,
        },
{
    match c {
        Some(bits) => {
            let place = score_rank(bits);
            if -INFINITE_PLACE <= place && place <= INFINITE_PLACE {
                Some(place)
            } else {
                None
            }
        },
        None => Some(0),
    }
}

fn should_replace_fact(
    existing: &ExtractedFactCandidate,
    candidate: &ExtractedFactCandidate,
) -> (r: bool)
    ensures
        r == replaces(candidate@, existing@),
{
    let a = predicate_specificity(candidate.predicate.as_str());
    let b = predicate_specificity(existing.predicate.as_str());
    if a != b {
        return a > b;
    }
    match (place_of_confidence(candidate.confidence), place_of_confidence(existing.confidence)) {
        (Some(x), Some(y)) => x > y,
        _ => false,
    }
}

/// Whether two facts say the same of the same entities.
pub open spec fn says_the_same(a: FactCandidateView, b: FactCandidateView) -> bool {
    a.subject_ref == b.subject_ref && a.object_ref == b.object_ref && word_text(a.fact_text)
        == word_text(b.fact_text)
}

/// The position of the first fact that says the same, or the number of facts.
pub open spec fn same_fact_index(facts: Seq<FactCandidateView>, f: FactCandidateView) -> int
    decreases facts.len(),
{
    if facts.len() == 0 || says_the_same(facts[0], f) {
        0
    } else {
        1 + same_fact_index(facts.drop_first(), f)
    }
}

/// The facts after one more: it takes the place of a fact that says the same
/// less well, or is dropped, or comes last.
pub open spec fn with_distinct_fact(facts: Seq<FactCandidateView>, f: FactCandidateView) -> Seq<
    FactCandidateView,
> {
    let i = same_fact_index(facts, f);
    if i < facts.len() {
        if replaces(f, facts[i]) {
            facts.update(i, f)
        } else {
            facts
        }
    } else {
        facts.push(f)
    }
}

pub open spec fn distinct_facts(facts: Seq<FactCandidateView>) -> Seq<FactCandidateView>
    decreases facts.len(),
{
    if facts.len() == 0 {
        Seq::empty()
    } else {
        with_distinct_fact(distinct_facts(facts.drop_last()), facts.last())
    }
}

pub proof fn lemma_same_fact_index(facts: Seq<FactCandidateView>, f: FactCandidateView)
    ensures
        0 <= same_fact_index(facts, f) <= facts.len(),
        same_fact_index(facts, f) < facts.len() ==> says_the_same(
            facts[same_fact_index(facts, f)],
            f,
        ),
        forall|k: int|
            0 <= k < same_fact_index(facts, f) ==> !says_the_same(#[trigger] facts[k], f),
    decreases facts.len(),
{
    if facts.len() > 0 && !says_the_same(facts[0], f) {
        let rest = facts.drop_first();
        lemma_same_fact_index(rest, f);
        assert forall|k: int| 0 <= k < same_fact_index(facts, f) implies !says_the_same(
            #[trigger] facts[k],
            f,
        ) by {
            if k > 0 {
                assert(facts[k] == rest[k - 1]);
            }
        }
    }
}

/// No two of the facts that are left say the same, and each is one of those
/// that there were.
pub proof fn distinct_facts_differ(facts: Seq<FactCandidateView>)
    ensures
        forall|i: int, j: int|
            0 <= i < j < distinct_facts(facts).len() ==> !says_the_same(
                #[trigger] distinct_facts(facts)[i],
                #[trigger] distinct_facts(facts)[j],
            ),
        forall|i: int|
            0 <= i < distinct_facts(facts).len() ==> facts.contains(
                #[trigger] distinct_facts(facts)[i],
            ),
    decreases facts.len(),
{
    if facts.len() > 0 {
        let front = facts.drop_last();
        distinct_facts_differ(front);
        let before = distinct_facts(front);
        let f = facts.last();
        let after = distinct_facts(facts);
        lemma_same_fact_index(before, f);
        let at = same_fact_index(before, f);
        assert forall|i: int, j: int| 0 <= i < j < after.len() implies !says_the_same(
            #[trigger] after[i],
            #[trigger] after[j],
        ) by {
            if at < before.len() {
                assert(says_the_same(before[at], f));
                assert(!says_the_same(before[i], before[j]));
            } else {
                if j < before.len() {
                    assert(!says_the_same(before[i], before[j]));
                } else {
                    assert(!says_the_same(before[i], f));
                }
            }
        }
        assert forall|i: int| 0 <= i < after.len() implies facts.contains(
            #[trigger] after[i],
        ) by {
            if after[i] == f {
                assert(facts[facts.len() - 1] == f);
            } else {
                assert(after[i] == before[i]);
                let k = choose|k: int| 0 <= k < front.len() && front[k] == before[i];
                assert(facts[k] == before[i]);
            }
        }
    }
}

/// Where something is said first.
pub open spec fn first_facts(facts: Seq<FactCandidateView>) -> Seq<int>
    decreases facts.len(),
{
    if facts.len() == 0 {
        Seq::empty()
    } else if exists|k: int|
        0 <= k < facts.len() - 1 && says_the_same(#[trigger] facts[k], facts.last()) {
        first_facts(facts.drop_last())
    } else {
        first_facts(facts.drop_last()).push(facts.len() - 1)
    }
}

/// Where the best fact stands that says what `f` says: the first that no other
/// one replaces. It is -1 where there is none.
pub open spec fn best_fact(facts: Seq<FactCandidateView>, f: FactCandidateView) -> int
    decreases facts.len(),
{
    if facts.len() == 0 {
        -1
    } else {
        let b = best_fact(facts.drop_last(), f);
        if says_the_same(facts.last(), f) && (b < 0 || replaces(facts.last(), facts[b])) {
            facts.len() - 1
        } else {
            b
        }
    }
}

proof fn lemma_best_fact_bounds(facts: Seq<FactCandidateView>, f: FactCandidateView)
    ensures
        -1 <= best_fact(facts, f) < facts.len(),
        best_fact(facts, f) >= 0 ==> says_the_same(facts[best_fact(facts, f)], f),
        forall|q: int|
            0 <= q < facts.len() && says_the_same(#[trigger] facts[q], f) ==> best_fact(facts, f)
                >= 0,
    decreases facts.len(),
{
    if facts.len() > 0 {
        let front = facts.drop_last();
        lemma_best_fact_bounds(front, f);
        assert forall|q: int|
            0 <= q < facts.len() && says_the_same(#[trigger] facts[q], f) implies best_fact(
            facts,
            f,
        ) >= 0 by {
            if q < front.len() {
                assert(front[q] == facts[q]);
            }
        }
    }
}

/// Whether the confidence of every fact is a number.
pub open spec fn confidences_are_numbers(facts: Seq<FactCandidateView>) -> bool {
    forall|i: int|
        0 <= i < facts.len() ==> confidence_place((#[trigger] facts[i]).confidence) is Some
}

proof fn lemma_best_fact_is_best(facts: Seq<FactCandidateView>, f: FactCandidateView)
    requires
        confidences_are_numbers(facts),
    ensures
        forall|q: int|
            0 <= q < facts.len() && says_the_same(#[trigger] facts[q], f) ==> !replaces(
                facts[q],
                facts[best_fact(facts, f)],
            ) && (q < best_fact(facts, f) ==> replaces(facts[best_fact(facts, f)], facts[q])),
    decreases facts.len(),
{
    lemma_best_fact_bounds(facts, f);
    if facts.len() > 0 {
        let front = facts.drop_last();
        lemma_best_fact_bounds(front, f);
        assert(confidences_are_numbers(front)) by {
            assert forall|i: int| 0 <= i < front.len() implies confidence_place(
                (#[trigger] front[i]).confidence,
            ) is Some by {
                assert(front[i] == facts[i]);
            }
        }
        lemma_best_fact_is_best(front, f);
        assert(confidence_place(facts[facts.len() - 1].confidence) is Some);
        assert forall|q: int|
            0 <= q < facts.len() && says_the_same(#[trigger] facts[q], f) implies !replaces(
            facts[q],
            facts[best_fact(facts, f)],
        ) && (q < best_fact(facts, f) ==> replaces(facts[best_fact(facts, f)], facts[q])) by {
            if q < front.len() {
                assert(front[q] == facts[q]);
                assert(front[best_fact(front, f)] == facts[best_fact(front, f)]);
            }
        }
    }
}

proof fn lemma_distinct_facts(facts: Seq<FactCandidateView>)
    ensures
        first_facts(facts).len() == distinct_facts(facts).len(),
        forall|k: int|
            0 <= k < first_facts(facts).len() ==> 0 <= #[trigger] first_facts(facts)[k]
                < facts.len(),
        forall|k: int|
            0 <= k < distinct_facts(facts).len() ==> says_the_same(
                #[trigger] distinct_facts(facts)[k],
                facts[first_facts(facts)[k]],
            ),
        forall|q: int|
            0 <= q < facts.len() ==> same_fact_index(distinct_facts(facts), #[trigger] facts[q])
                < distinct_facts(facts).len(),
        forall|k: int|
            0 <= k < distinct_facts(facts).len() ==> best_fact(
                facts,
                facts[first_facts(facts)[k]],
            ) >= 0 && #[trigger] distinct_facts(facts)[k] == facts[best_fact(
                facts,
                facts[first_facts(facts)[k]],
            )],
    decreases facts.len(),
{
    if facts.len() > 0 {
        let front = facts.drop_last();
        let f = facts.last();
        lemma_distinct_facts(front);
        distinct_facts_differ(front);
        let before = distinct_facts(front);
        let firsts = first_facts(front);
        let after = distinct_facts(facts);
        let all = first_facts(facts);
        lemma_same_fact_index(before, f);
        let at = same_fact_index(before, f);
        if at < before.len() {
            assert(says_the_same(before[at], front[firsts[at]]));
            assert(says_the_same(facts[firsts[at]], f));
            assert(all == firsts);
        } else {
            assert forall|q: int| 0 <= q < front.len() implies !says_the_same(
                #[trigger] facts[q],
                f,
            ) by {
                assert(front[q] == facts[q]);
                lemma_same_fact_index(before, front[q]);
                let k = same_fact_index(before, front[q]);
                assert(says_the_same(before[k], front[q]));
                assert(!says_the_same(before[k], f));
            }
            assert(all == firsts.push(facts.len() - 1));
            lemma_best_fact_bounds(front, f);
            if best_fact(front, f) >= 0 {
                assert(says_the_same(facts[best_fact(front, f)], f));
            }
        }
        assert forall|k: int| 0 <= k < after.len() implies 0 <= #[trigger] all[k] < facts.len()
            && says_the_same(after[k], facts[all[k]]) && best_fact(facts, facts[all[k]]) >= 0
            && after[k] == facts[best_fact(facts, facts[all[k]])] by {
            if k < before.len() {
                let x = front[firsts[k]];
                assert(all[k] == firsts[k]);
                assert(facts[all[k]] == x);
                assert(says_the_same(before[k], x));
                lemma_best_fact_bounds(front, x);
                assert(front[best_fact(front, x)] == facts[best_fact(front, x)]);
                assert(before[k] == facts[best_fact(front, x)]);
                if k != at {
                    if at < before.len() {
                        if k < at {
                            assert(!says_the_same(before[k], before[at]));
                        } else {
                            assert(!says_the_same(before[at], before[k]));
                        }
                    } else {
                        assert(!says_the_same(before[k], f));
                    }
                    assert(!says_the_same(f, x));
                } else {
                    assert(says_the_same(f, x));
                }
            }
        }
        assert forall|k: int| 0 <= k < after.len() implies says_the_same(
            #[trigger] after[k],
            facts[all[k]],
        ) && best_fact(facts, facts[all[k]]) >= 0 && after[k] == facts[best_fact(
            facts,
            facts[all[k]],
        )] by {
            assert(0 <= all[k] < facts.len());
        }
        assert forall|q: int| 0 <= q < facts.len() implies same_fact_index(
            after,
            #[trigger] facts[q],
        ) < after.len() by {
            lemma_same_fact_index(after, facts[q]);
            if q < front.len() {
                assert(front[q] == facts[q]);
                lemma_same_fact_index(before, front[q]);
                let k = same_fact_index(before, front[q]);
                assert(says_the_same(before[k], front[q]));
                assert(says_the_same(after[k], facts[q]));
            } else if at < before.len() {
                assert(says_the_same(after[at], f));
            } else {
                assert(says_the_same(after[before.len() as int], f));
            }
        }
    }
}

proof fn lemma_distinct_stay(facts: Seq<FactCandidateView>)
    requires
        forall|i: int, j: int|
            0 <= i < j < facts.len() ==> !says_the_same(
                #[trigger] facts[i],
                #[trigger] facts[j],
            ),
    ensures
        distinct_facts(facts) == facts,
    decreases facts.len(),
{
    if facts.len() > 0 {
        let front = facts.drop_last();
        assert forall|i: int, j: int| 0 <= i < j < front.len() implies !says_the_same(
            #[trigger] front[i],
            #[trigger] front[j],
        ) by {
            assert(!says_the_same(facts[i], facts[j]));
        }
        lemma_distinct_stay(front);
        lemma_same_fact_index(front, facts.last());
        let at = same_fact_index(front, facts.last());
        if at < front.len() {
            assert(!says_the_same(facts[at], facts[facts.len() - 1]));
        }
        assert(distinct_facts(facts) =~= facts);
    } else {
        assert(distinct_facts(facts) =~= facts);
    }
}

/// Whether the fact at a place is the best of those that say what `f` says: none
/// replaces it, and it replaces the earlier ones.
pub open spec fn is_best_fact(facts: Seq<FactCandidateView>, p: int, f: FactCandidateView) -> bool {
    &&& 0 <= p < facts.len()
    &&& says_the_same(facts[p], f)
    &&& forall|q: int|
        0 <= q < facts.len() && says_the_same(#[trigger] facts[q], f) ==> !replaces(
            facts[q],
            facts[p],
        ) && (q < p ==> replaces(facts[p], facts[q]))
}

/// Of the facts that say the same one is left, in the place of the first of
/// them: the best, and of several as good as any the earliest. What is best is
/// clear where every confidence is a number.
pub proof fn distinct_facts_are_the_best(facts: Seq<FactCandidateView>, k: int)
    requires
        confidences_are_numbers(facts),
        0 <= k < distinct_facts(facts).len(),
    ensures
        distinct_facts(facts).len() == first_facts(facts).len(),
        0 <= first_facts(facts)[k] < facts.len(),
        is_best_fact(
            facts,
            best_fact(facts, facts[first_facts(facts)[k]]),
            facts[first_facts(facts)[k]],
        ),
        distinct_facts(facts)[k] == facts[best_fact(facts, facts[first_facts(facts)[k]])],
{
    lemma_distinct_facts(facts);
    lemma_best_fact_bounds(facts, facts[first_facts(facts)[k]]);
    lemma_best_fact_is_best(facts, facts[first_facts(facts)[k]]);
}

/// To drop the facts that say what another one says better a second time changes
/// nothing.
pub proof fn deduplicating_facts_again_changes_nothing(facts: Seq<FactCandidateView>)
    ensures
        distinct_facts(distinct_facts(facts)) == distinct_facts(facts),
{
    distinct_facts_differ(facts);
    lemma_distinct_stay(distinct_facts(facts));
}

proof fn lemma_first_facts(facts: Seq<FactCandidateView>)
    ensures
        forall|k: int|
            0 <= k < first_facts(facts).len() ==> {
                let p = #[trigger] first_facts(facts)[k];
                &&& 0 <= p < facts.len()
                &&& forall|q: int| 0 <= q < p ==> !says_the_same(#[trigger] facts[q], facts[p])
            },
        forall|j: int, k: int|
            0 <= j < k < first_facts(facts).len() ==> #[trigger] first_facts(facts)[j]
                < #[trigger] first_facts(facts)[k],
        forall|p: int|
            0 <= p < facts.len() && (forall|q: int|
                0 <= q < p ==> !says_the_same(#[trigger] facts[q], facts[p])) ==> first_facts(
                facts,
            ).contains(p),
    decreases facts.len(),
{
    if facts.len() > 0 {
        let front = facts.drop_last();
        lemma_first_facts(front);
        let before = first_facts(front);
        let all = first_facts(facts);
        assert forall|k: int| 0 <= k < all.len() implies {
            let p = #[trigger] all[k];
            &&& 0 <= p < facts.len()
            &&& forall|q: int| 0 <= q < p ==> !says_the_same(#[trigger] facts[q], facts[p])
        } by {
            if k < before.len() {
                let p = before[k];
                assert(all[k] == p);
                assert forall|q: int| 0 <= q < p implies !says_the_same(
                    #[trigger] facts[q],
                    facts[p],
                ) by {
                    assert(!says_the_same(front[q], front[p]));
                }
            }
        }
        assert forall|p: int|
            0 <= p < facts.len() && (forall|q: int|
                0 <= q < p ==> !says_the_same(#[trigger] facts[q], facts[p])) implies all.contains(
            p,
        ) by {
            if p < front.len() {
                assert forall|q: int| 0 <= q < p implies !says_the_same(
                    #[trigger] front[q],
                    front[p],
                ) by {
                    assert(!says_the_same(facts[q], facts[p]));
                }
                assert(before.contains(p));
                let k = choose|k: int| 0 <= k < before.len() && before[k] == p;
                assert(all[k] == p);
            } else {
                assert(all == before.push(p));
                assert(all[before.len() as int] == p);
            }
        }
    }
}

/// The places of what is said first are, in order, exactly those of the facts
/// that say what no earlier fact says; as many facts are left.
pub proof fn first_facts_say_something_new(facts: Seq<FactCandidateView>, p: int)
    requires
        0 <= p < facts.len(),
    ensures
        first_facts(facts).len() == distinct_facts(facts).len(),
        first_facts(facts).contains(p) <==> forall|q: int|
            0 <= q < p ==> !says_the_same(#[trigger] facts[q], facts[p]),
        forall|j: int, k: int|
            0 <= j < k < first_facts(facts).len() ==> #[trigger] first_facts(facts)[j]
                < #[trigger] first_facts(facts)[k],
{
    lemma_first_facts(facts);
    lemma_distinct_facts(facts);
    if first_facts(facts).contains(p) {
        let k = choose|k: int| 0 <= k < first_facts(facts).len() && first_facts(facts)[k] == p;
        assert(first_facts(facts)[k] == p);
    }
}

/// Drops facts that say what another fact says better.
pub fn deduplicate_semantic_facts(output: &mut GraphExtractionOutput)
    ensures
        final(output)@ == (ExtractionView {
            facts: distinct_facts(old(output)@.facts),
            ..old(output)@
        }),
{
    let ghost fs = output@.facts;
    let mut facts: Vec<ExtractedFactCandidate> = Vec::new();
    let mut keys: Vec<String> = Vec::new();
    assert(graph_extraction::fact_candidate_views(facts@) =~= Seq::empty());
    assert(fs.take(0) =~= Seq::empty());
    let mut i: usize = 0;
    while i < output.facts.len()
        invariant
            i <= output.facts@.len(),
            output@ == old(output)@,
            fs == graph_extraction::fact_candidate_views(output.facts@),
            graph_extraction::fact_candidate_views(facts@) == distinct_facts(fs.take(i as int)),
            keys@.len() == facts@.len(),
            forall|k: int|
                0 <= k < keys@.len() ==> (#[trigger] keys@[k])@ == word_text(
                    facts@[k].fact_text@,
                ),
        decreases output.facts@.len() - i,
    {
        let fact = &output.facts[i];
        let ghost before = graph_extraction::fact_candidate_views(facts@);
        assert(fs.take(i + 1).drop_last() =~= fs.take(i as int));
        assert(fs.take(i + 1).last() == fact@);
        let key = normalize_fact_text_for_filtering(fact.fact_text.as_str());
        let mut at: usize = 0;
        assert(before.skip(0) =~= before);
        while at < facts.len() && !(text_eq(
            facts[at].subject_ref.as_str(),
            fact.subject_ref.as_str(),
        ) && text_eq(facts[at].object_ref.as_str(), fact.object_ref.as_str()) && text_eq(
            keys[at].as_str(),
            key.as_str(),
        ))
            invariant
                at <= facts@.len(),
                keys@.len() == facts@.len(),
                key@ == word_text(fact.fact_text@),
                before == graph_extraction::fact_candidate_views(facts@),
                forall|k: int|
                    0 <= k < keys@.len() ==> (#[trigger] keys@[k])@ == word_text(
                        facts@[k].fact_text@,
                    ),
                same_fact_index(before, fact@) == at + same_fact_index(
                    before.skip(at as int),
                    fact@,
                ),
            ensures
                at <= facts@.len(),
                same_fact_index(before, fact@) == at,
            decreases facts@.len() - at,
        {
            assert(before.skip(at as int)[0] == facts@[at as int]@);
            assert(before.skip(at as int).drop_first() =~= before.skip(at + 1));
            at += 1;
            proof {
                if at < facts@.len() {
                    assert(before.skip(at as int)[0] == facts@[at as int]@);
                }
            }
        }
        if at < facts.len() {
            assert(before[at as int] == facts@[at as int]@);
            if should_replace_fact(&facts[at], fact) {
                let better = fact.clone();
                facts.set(at, better);
                keys.set(at, key);
                assert(graph_extraction::fact_candidate_views(facts@) =~= before.update(
                    at as int,
                    fact@,
                ));
            }
        } else {
            let new = fact.clone();
            facts.push(new);
            keys.push(key);
            assert(graph_extraction::fact_candidate_views(facts@) =~= before.push(fact@));
        }
        i += 1;
    }
    assert(fs.take(i as int) =~= fs);
    output.facts = facts;
}

} // verus!
