//! What is extracted from a memory record for the memory graph, and when such
//! an extraction is sound.

use vstd::prelude::*;
use vstd::string::*;

use crate::api;
use crate::error::{MemoryError, MemoryErrorView};
use crate::graph_registry;
use crate::graph_registry::{GraphTypeRegistry, RegistryView};
use crate::json;
use crate::json::Json;
use crate::text;
use crate::text::{
    char_at_byte, clone_opt, holds_text, text_contains, text_eq, to_chars, trim, utf8_len,
};

verus! {

/// What an extractor is given.
#[derive(Debug)]
pub struct GraphExtractionInput {
    pub memory_space_id: String,
    pub memory_record_id: String,
    pub text: String,
    pub metadata: Json,
    pub context_record_ids: Vec<String>,
    pub type_registry_version: String,
}

/// An entity that a record speaks of. The confidence stands as its IEEE-754
/// bits.
#[derive(Debug)]
pub struct ExtractedEntityCandidate {
    pub local_id: String,
    pub name: String,
    pub entity_type: String,
    pub confidence: Option<u32>,
}

/// A part of a record that supports a fact: its text, its byte offsets, or
/// both.
#[derive(Debug)]
pub struct GraphEvidenceSpan {
    pub text: Option<String>,
    pub start_byte: Option<usize>,
    pub end_byte: Option<usize>,
}

/// A relation between two entities that a record states. The confidence stands
/// as its IEEE-754 bits.
#[derive(Debug)]
pub struct ExtractedFactCandidate {
    pub local_id: String,
    pub subject_ref: String,
    pub predicate: String,
    pub object_ref: String,
    pub fact_text: String,
    pub evidence: Vec<GraphEvidenceSpan>,
    pub confidence: Option<u32>,
    pub temporal_expression: Option<String>,
    pub valid_from_ms: Option<u64>,
    pub valid_to_ms: Option<u64>,
}

/// What is extracted from one record.
#[derive(Debug)]
pub struct GraphExtractionOutput {
    pub entities: Vec<ExtractedEntityCandidate>,
    pub facts: Vec<ExtractedFactCandidate>,
    pub input_tokens: Option<i64>,
    pub output_tokens: Option<i64>,
}

/// What an [`ExtractedEntityCandidate`] stands for.
pub struct EntityCandidateView {
    pub local_id: Seq<char>,
    pub name: Seq<char>,
    pub entity_type: Seq<char>,
    pub confidence: Option<u32>,
}

/// What a [`GraphEvidenceSpan`] stands for.
pub struct SpanView {
    pub text: Option<Seq<char>>,
    pub start_byte: Option<usize>,
    pub end_byte: Option<usize>,
}

/// What an [`ExtractedFactCandidate`] stands for.
pub struct FactCandidateView {
    pub local_id: Seq<char>,
    pub subject_ref: Seq<char>,
    pub predicate: Seq<char>,
    pub object_ref: Seq<char>,
    pub fact_text: Seq<char>,
    pub evidence: Seq<SpanView>,
    pub confidence: Option<u32>,
    pub temporal_expression: Option<Seq<char>>,
    pub valid_from_ms: Option<u64>,
    pub valid_to_ms: Option<u64>,
}

/// What a [`GraphExtractionOutput`] stands for.
pub struct ExtractionView {
    pub entities: Seq<EntityCandidateView>,
    pub facts: Seq<FactCandidateView>,
    pub input_tokens: Option<i64>,
    pub output_tokens: Option<i64>,
}

impl View for ExtractedEntityCandidate {
    type V = EntityCandidateView;

    open spec fn view(&self) -> EntityCandidateView {
        EntityCandidateView {
            local_id: self.local_id@,
            name: self.name@,
            entity_type: self.entity_type@,
            confidence: self.confidence,
        }
    }
}

impl View for GraphEvidenceSpan {
    type V = SpanView;

    open spec fn view(&self) -> SpanView {
        SpanView {
            text: json::opt_string(self.text),
            start_byte: self.start_byte,
            end_byte: self.end_byte,
        }
    }
}

pub open spec fn span_views(v: Seq<GraphEvidenceSpan>) -> Seq<SpanView> {
    Seq::new(v.len(), |i: int| v[i]@)
}

impl View for ExtractedFactCandidate {
    type V = FactCandidateView;

    open spec fn view(&self) -> FactCandidateView {
        FactCandidateView {
            local_id: self.local_id@,
            subject_ref: self.subject_ref@,
            predicate: self.predicate@,
            object_ref: self.object_ref@,
            fact_text: self.fact_text@,
            evidence: span_views(self.evidence@),
            confidence: self.confidence,
            temporal_expression: json::opt_string(self.temporal_expression),
            valid_from_ms: self.valid_from_ms,
            valid_to_ms: self.valid_to_ms,
        }
    }
}

pub open spec fn entity_candidate_views(v: Seq<ExtractedEntityCandidate>) -> Seq<
    EntityCandidateView,
> {
    Seq::new(v.len(), |i: int| v[i]@)
}

pub open spec fn fact_candidate_views(v: Seq<ExtractedFactCandidate>) -> Seq<FactCandidateView> {
    Seq::new(v.len(), |i: int| v[i]@)
}

impl View for GraphExtractionOutput {
    type V = ExtractionView;

    open spec fn view(&self) -> ExtractionView {
        ExtractionView {
            entities: entity_candidate_views(self.entities@),
            facts: fact_candidate_views(self.facts@),
            input_tokens: self.input_tokens,
            output_tokens: self.output_tokens,
        }
    }
}

impl Clone for ExtractedEntityCandidate {
    fn clone(&self) -> (r: Self)
        ensures
            r@ == self@,
    {
        ExtractedEntityCandidate {
            local_id: self.local_id.clone(),
            name: self.name.clone(),
            entity_type: self.entity_type.clone(),
            confidence: self.confidence,
        }
    }
}

impl Clone for GraphEvidenceSpan {
    fn clone(&self) -> (r: Self)
        ensures
            r@ == self@,
    {
        GraphEvidenceSpan {
            text: clone_opt(&self.text),
            start_byte: self.start_byte,
            end_byte: self.end_byte,
        }
    }
}

pub fn clone_spans(v: &Vec<GraphEvidenceSpan>) -> (r: Vec<GraphEvidenceSpan>)
    ensures
        span_views(r@) == span_views(v@),
{
    let mut r: Vec<GraphEvidenceSpan> = Vec::new();
    let mut i: usize = 0;
    while i < v.len()
        invariant
            i <= v@.len(),
            r@.len() == i,
            forall|k: int| 0 <= k < i ==> (#[trigger] r@[k])@ == v@[k]@,
        decreases v@.len() - i,
    {
        let span = v[i].clone();
        r.push(span);
        i += 1;
    }
    assert(span_views(r@) =~= span_views(v@));
    r
}

impl Clone for ExtractedFactCandidate {
    fn clone(&self) -> (r: Self)
        ensures
            r@ == self@,
    {
        ExtractedFactCandidate {
            local_id: self.local_id.clone(),
            subject_ref: self.subject_ref.clone(),
            predicate: self.predicate.clone(),
            object_ref: self.object_ref.clone(),
            fact_text: self.fact_text.clone(),
            evidence: clone_spans(&self.evidence),
            confidence: self.confidence,
            temporal_expression: clone_opt(&self.temporal_expression),
            valid_from_ms: self.valid_from_ms,
            valid_to_ms: self.valid_to_ms,
        }
    }
}

/// How an unsound extraction is reported.
pub open spec fn invalid(what: Seq<char>) -> MemoryErrorView {
    MemoryErrorView::InvalidInput("INVALID_EXTRACTION_OUTPUT: "@ + what)
}

/// A text that must not be blank.
pub open spec fn blank_problem(field: Seq<char>, value: Seq<char>) -> Option<MemoryErrorView> {
    if text::is_blank(value) {
        Some(invalid(field + " must not be empty"@))
    } else {
        None
    }
}

/// Whether a single-precision number, given by its bits, is between 0 and 1.
pub open spec fn is_unit(bits: u32) -> bool {
    0 <= api::score_place(bits) <= 0x3f80_0000
}

/// A confidence must be between 0 and 1.
pub open spec fn confidence_problem(field: Seq<char>, confidence: Option<u32>) -> Option<
    MemoryErrorView,
> {
    match confidence {
        Some(bits) if !is_unit(bits) => Some(invalid(field + " must be between 0 and 1"@)),
        _ => None,
    }
}

/// The first of two problems.
pub open spec fn or_problem(a: Option<MemoryErrorView>, b: Option<MemoryErrorView>) -> Option<
    MemoryErrorView,
> {
    if a is Some {
        a
    } else {
        b
    }
}

pub open spec fn local_ids(entities: Seq<EntityCandidateView>) -> Seq<Seq<char>> {
    Seq::new(entities.len(), |i: int| entities[i].local_id)
}

pub open spec fn fact_ids(facts: Seq<FactCandidateView>) -> Seq<Seq<char>> {
    Seq::new(facts.len(), |i: int| facts[i].local_id)
}

/// What is wrong with an entity that follows others.
pub open spec fn entity_problem(
    e: EntityCandidateView,
    earlier: Seq<EntityCandidateView>,
    types: Seq<Seq<char>>,
) -> Option<MemoryErrorView> {
    or_problem(
        blank_problem("entity.local_id"@, e.local_id),
        or_problem(
            blank_problem("entity.name"@, e.name),
            or_problem(
                blank_problem("entity.entity_type"@, e.entity_type),
                or_problem(
                    confidence_problem("entity.confidence"@, e.confidence),
                    if !types.contains(e.entity_type) {
                        Some(invalid("unknown entity type '"@ + e.entity_type + "'"@))
                    } else if local_ids(earlier).contains(e.local_id) {
                        Some(invalid("duplicate entity local_id '"@ + e.local_id + "'"@))
                    } else {
                        None
                    },
                ),
            ),
        ),
    )
}

pub open spec fn entities_problem(
    entities: Seq<EntityCandidateView>,
    types: Seq<Seq<char>>,
) -> Option<MemoryErrorView>
    decreases entities.len(),
{
    if entities.len() == 0 {
        None
    } else {
        or_problem(
            entities_problem(entities.drop_last(), types),
            entity_problem(entities.last(), entities.drop_last(), types),
        )
    }
}

/// What is wrong with a piece of evidence. A byte range must lie within the
/// record, between characters, and hold the text that is quoted; a text without
/// a byte range must occur in the record.
pub open spec fn span_problem(span: SpanView, record: Seq<char>) -> Option<MemoryErrorView> {
    match (span.start_byte, span.end_byte) {
        (Some(start), Some(end)) => {
            if start >= end || end > text::byte_len(record) {
                Some(invalid("evidence byte range is outside record text"@))
            } else if !text::is_boundary(record, start as nat) || !text::is_boundary(
                record,
                end as nat,
            ) {
                Some(invalid("evidence byte range is not on UTF-8 boundaries"@))
            } else {
                match span.text {
                    Some(quote) => or_problem(
                        blank_problem("evidence.text"@, quote),
                        if text::byte_slice(record, start as nat, end as nat) != quote {
                            Some(invalid("evidence text does not match record byte range"@))
                        } else {
                            None
                        },
                    ),
                    None => None,
                }
            }
        },
        (None, None) => match span.text {
            None => Some(invalid("evidence must include text or byte range"@)),
            Some(quote) => or_problem(
                blank_problem("evidence.text"@, quote),
                if !text::contains_text(record, quote) {
                    Some(invalid("evidence text is not present in record text"@))
                } else {
                    None
                },
            ),
        },
        _ => Some(invalid("evidence start_byte and end_byte must be set together"@)),
    }
}

pub open spec fn spans_problem(spans: Seq<SpanView>, record: Seq<char>) -> Option<MemoryErrorView>
    decreases spans.len(),
{
    if spans.len() == 0 {
        None
    } else {
        or_problem(
            spans_problem(spans.drop_last(), record),
            span_problem(spans.last(), record),
        )
    }
}

/// What is wrong with a fact that follows others.
pub open spec fn fact_problem(
    f: FactCandidateView,
    earlier: Seq<FactCandidateView>,
    entity_ids: Seq<Seq<char>>,
    registry: RegistryView,
    record: Seq<char>,
) -> Option<MemoryErrorView> {
    or_problem(
        fact_fields_problem(f),
        or_problem(
            if fact_ids(earlier).contains(f.local_id) {
                Some(invalid("duplicate fact local_id '"@ + f.local_id + "'"@))
            } else if !entity_ids.contains(f.subject_ref) {
                Some(
                    invalid(
                        "fact '"@ + f.local_id + "' references unknown subject '"@ + f.subject_ref
                            + "'"@,
                    ),
                )
            } else if !entity_ids.contains(f.object_ref) {
                Some(
                    invalid(
                        "fact '"@ + f.local_id + "' references unknown object '"@ + f.object_ref
                            + "'"@,
                    ),
                )
            } else if graph_registry::predicate_named(registry.predicates, f.predicate) is None {
                Some(invalid("unknown predicate '"@ + f.predicate + "'"@))
            } else if f.evidence.len() == 0 {
                Some(
                    invalid("fact '"@ + f.local_id + "' must include at least one evidence"@),
                )
            } else if f.valid_from_ms is Some && f.valid_to_ms is Some && f.valid_from_ms->0
                > f.valid_to_ms->0 {
                Some(
                    invalid("fact '"@ + f.local_id + "' has valid_from_ms after valid_to_ms"@),
                )
            } else {
                None
            },
            spans_problem(f.evidence, record),
        ),
    )
}

/// What is wrong with the fields of a fact by themselves.
pub open spec fn fact_fields_problem(f: FactCandidateView) -> Option<MemoryErrorView> {
    or_problem(
        blank_problem("fact.local_id"@, f.local_id),
        or_problem(
            blank_problem("fact.subject_ref"@, f.subject_ref),
            or_problem(
                blank_problem("fact.predicate"@, f.predicate),
                or_problem(
                    blank_problem("fact.object_ref"@, f.object_ref),
                    or_problem(
                        blank_problem("fact.fact_text"@, f.fact_text),
                        confidence_problem("fact.confidence"@, f.confidence),
                    ),
                ),
            ),
        ),
    )
}

pub open spec fn facts_problem(
    facts: Seq<FactCandidateView>,
    entity_ids: Seq<Seq<char>>,
    registry: RegistryView,
    record: Seq<char>,
) -> Option<MemoryErrorView>
    decreases facts.len(),
{
    if facts.len() == 0 {
        None
    } else {
        or_problem(
            facts_problem(facts.drop_last(), entity_ids, registry, record),
            fact_problem(facts.last(), facts.drop_last(), entity_ids, registry, record),
        )
    }
}

/// What is wrong with an extraction: the first problem of its entities, or else
/// of its facts.
pub open spec fn extraction_problem(
    output: ExtractionView,
    record: Seq<char>,
    registry: RegistryView,
) -> Option<MemoryErrorView> {
    or_problem(
        entities_problem(output.entities, registry.entity_types),
        facts_problem(output.facts, local_ids(output.entities), registry, record),
    )
}

/// Whether a result reports the problem that there is.
pub open spec fn reports(r: Result<(), MemoryError>, problem: Option<MemoryErrorView>) -> bool {
    match r {
        Ok(_) => problem is None,
        Err(e) => problem == Some(e@),
    }
}

fn invalid_output(what: &str) -> (r: MemoryError)
    ensures
        r@ == invalid(what@),
{
    let mut message = "INVALID_EXTRACTION_OUTPUT: ".to_owned();
    message.append(what);
    MemoryError::InvalidInput { message }
}

fn quoted(lead: &str, name: &str, tail: &str) -> (r: String)
    ensures
        r@ == lead@ + name@ + tail@,
{
    let mut r = lead.to_owned();
    r.append(name);
    r.append(tail);
    r
}

fn validate_non_empty(field: &str, value: &str) -> (r: Result<(), MemoryError>)
    ensures
        reports(r, blank_problem(field@, value@)),
{
    if trim(value).is_empty() {
        let what = quoted(field, " must not be empty", "");
        proof {
            reveal_strlit("");
            assert(what@ =~= field@ + " must not be empty"@);
        }
        return Err(invalid_output(what.as_str()));
    }
    Ok(())
}

fn validate_confidence(field: &str, confidence: Option<u32>) -> (r: Result<(), MemoryError>)
    ensures
        reports(r, confidence_problem(field@, confidence)),
{
    match confidence {
        Some(bits) => {
            let place = api::score_rank(bits);
            if place < 0 || place > 0x3f80_0000 {
                let what = quoted(field, " must be between 0 and 1", "");
                proof {
                    reveal_strlit("");
                    assert(what@ =~= field@ + " must be between 0 and 1"@);
                }
                return Err(invalid_output(what.as_str()));
            }
            Ok(())
        },
        None => Ok(()),
    }
}

/// Whether the record holds a text between two byte offsets.
pub fn slice_is(chars: &Vec<char>, start: usize, end: usize, quote: &str) -> (r: bool)
    requires
        text::is_boundary(chars@, start as nat),
        text::is_boundary(chars@, end as nat),
        start <= end,
    ensures
        r == (text::byte_slice(chars@, start as nat, end as nat) == quote@),
{
    proof {
        text::lemma_prefix_chars(chars@, start as nat);
        text::lemma_prefix_chars(chars@, end as nat);
        lemma_prefix_chars_monotone(chars@, start as nat, end as nat);
    }
    match (char_at_byte(chars, start), char_at_byte(chars, end)) {
        (Some(from), Some(to)) => {
            let part = text::from_chars(chars, from, to);
            text_eq(part.as_str(), quote)
        },
        _ => false,
    }
}

pub proof fn lemma_prefix_chars_monotone(s: Seq<char>, a: nat, b: nat)
    requires
        a <= b,
    ensures
        text::prefix_chars(s, a) <= text::prefix_chars(s, b),
    decreases s.len(),
{
    if s.len() > 0 && a >= text::utf8_width(s[0]) {
        let w = text::utf8_width(s[0]);
        lemma_prefix_chars_monotone(s.drop_first(), (a - w) as nat, (b - w) as nat);
    }
}

impl GraphEvidenceSpan {
    /// Checks a piece of evidence against the record.
    pub fn validate_against_record(&self, record_text: &str) -> (r: Result<(), MemoryError>)
        ensures
            reports(r, span_problem(self@, record_text@)),
    {
        match (self.start_byte, self.end_byte) {
            (Some(start), Some(end)) => {
                if start >= end || end > utf8_len(record_text) {
                    return Err(invalid_output("evidence byte range is outside record text"));
                }
                let chars = to_chars(record_text);
                if char_at_byte(&chars, start).is_none() || char_at_byte(&chars, end).is_none() {
                    return Err(
                        invalid_output("evidence byte range is not on UTF-8 boundaries"),
                    );
                }
                match &self.text {
                    Some(quote) => {
                        match validate_non_empty("evidence.text", quote.as_str()) {
                            Ok(_) => {},
                            Err(e) => {
                                return Err(e);
                            },
                        }
                        if !slice_is(&chars, start, end, quote.as_str()) {
                            return Err(
                                invalid_output(
                                    "evidence text does not match record byte range",
                                ),
                            );
                        }
                    },
                    None => {},
                }
                Ok(())
            },
            (None, None) => {
                match &self.text {
                    None => Err(invalid_output("evidence must include text or byte range")),
                    Some(quote) => {
                        match validate_non_empty("evidence.text", quote.as_str()) {
                            Ok(_) => {},
                            Err(e) => {
                                return Err(e);
                            },
                        }
                        if !text_contains(record_text, quote.as_str()) {
                            return Err(
                                invalid_output("evidence text is not present in record text"),
                            );
                        }
                        Ok(())
                    },
                }
            },
            _ => Err(invalid_output("evidence start_byte and end_byte must be set together")),
        }
    }
}

fn validate_entity(
    e: &ExtractedEntityCandidate,
    seen: &Vec<String>,
    Ghost(earlier): Ghost<Seq<EntityCandidateView>>,
    types: &Vec<String>,
) -> (r: Result<(), MemoryError>)
    requires
        text::strings(seen@) == local_ids(earlier),
    ensures
        reports(r, entity_problem(e@, earlier, text::strings(types@))),
{
    match validate_non_empty("entity.local_id", e.local_id.as_str()) {
        Ok(_) => {},
        Err(error) => {
            return Err(error);
        },
    }
    match validate_non_empty("entity.name", e.name.as_str()) {
        Ok(_) => {},
        Err(error) => {
            return Err(error);
        },
    }
    match validate_non_empty("entity.entity_type", e.entity_type.as_str()) {
        Ok(_) => {},
        Err(error) => {
            return Err(error);
        },
    }
    match validate_confidence("entity.confidence", e.confidence) {
        Ok(_) => {},
        Err(error) => {
            return Err(error);
        },
    }
    if !holds_text(types, e.entity_type.as_str()) {
        let what = quoted("unknown entity type '", e.entity_type.as_str(), "'");
        return Err(invalid_output(what.as_str()));
    }
    if holds_text(seen, e.local_id.as_str()) {
        let what = quoted("duplicate entity local_id '", e.local_id.as_str(), "'");
        return Err(invalid_output(what.as_str()));
    }
    Ok(())
}

fn validate_fact_fields(f: &ExtractedFactCandidate) -> (r: Result<(), MemoryError>)
    ensures
        reports(r, fact_fields_problem(f@)),
{
    match validate_non_empty("fact.local_id", f.local_id.as_str()) {
        Ok(_) => {},
        Err(error) => {
            return Err(error);
        },
    }
    match validate_non_empty("fact.subject_ref", f.subject_ref.as_str()) {
        Ok(_) => {},
        Err(error) => {
            return Err(error);
        },
    }
    match validate_non_empty("fact.predicate", f.predicate.as_str()) {
        Ok(_) => {},
        Err(error) => {
            return Err(error);
        },
    }
    match validate_non_empty("fact.object_ref", f.object_ref.as_str()) {
        Ok(_) => {},
        Err(error) => {
            return Err(error);
        },
    }
    match validate_non_empty("fact.fact_text", f.fact_text.as_str()) {
        Ok(_) => {},
        Err(error) => {
            return Err(error);
        },
    }
    validate_confidence("fact.confidence", f.confidence)
}

proof fn lemma_spans_problem_stays(spans: Seq<SpanView>, record: Seq<char>, n: int)
    requires
        0 <= n <= spans.len(),
        spans_problem(spans.take(n), record) is Some,
    ensures
        spans_problem(spans, record) == spans_problem(spans.take(n), record),
    decreases spans.len() - n,
{
    if n == spans.len() {
        assert(spans.take(n) =~= spans);
    } else {
        assert(spans.drop_last().take(n) =~= spans.take(n));
        lemma_spans_problem_stays(spans.drop_last(), record, n);
    }
}

fn validate_spans(spans: &Vec<GraphEvidenceSpan>, record_text: &str) -> (r: Result<
    (),
    MemoryError,
>)
    ensures
        reports(r, spans_problem(span_views(spans@), record_text@)),
{
    let ghost all = span_views(spans@);
    let mut i: usize = 0;
    assert(all.take(0) =~= Seq::empty());
    while i < spans.len()
        invariant
            i <= spans@.len(),
            all == span_views(spans@),
            spans_problem(all.take(i as int), record_text@) is None,
        decreases spans@.len() - i,
    {
        assert(all.take(i + 1).drop_last() =~= all.take(i as int));
        assert(all.take(i + 1).last() == spans@[i as int]@);
        match spans[i].validate_against_record(record_text) {
            Ok(_) => {},
            Err(e) => {
                proof {
                    lemma_spans_problem_stays(all, record_text@, i + 1);
                }
                return Err(e);
            },
        }
        i += 1;
    }
    assert(all.take(i as int) =~= all);
    Ok(())
}

fn validate_fact(
    f: &ExtractedFactCandidate,
    seen: &Vec<String>,
    Ghost(earlier): Ghost<Seq<FactCandidateView>>,
    entity_ids: &Vec<String>,
    registry: &GraphTypeRegistry,
    record_text: &str,
) -> (r: Result<(), MemoryError>)
    requires
        text::strings(seen@) == fact_ids(earlier),
    ensures
        reports(
            r,
            fact_problem(f@, earlier, text::strings(entity_ids@), registry@, record_text@),
        ),
{
    match validate_fact_fields(f) {
        Ok(_) => {},
        Err(error) => {
            return Err(error);
        },
    }
    if holds_text(seen, f.local_id.as_str()) {
        let what = quoted("duplicate fact local_id '", f.local_id.as_str(), "'");
        return Err(invalid_output(what.as_str()));
    }
    if !holds_text(entity_ids, f.subject_ref.as_str()) {
        let mut what = quoted("fact '", f.local_id.as_str(), "' references unknown subject '");
        what.append(f.subject_ref.as_str());
        what.append("'");
        return Err(invalid_output(what.as_str()));
    }
    if !holds_text(entity_ids, f.object_ref.as_str()) {
        let mut what = quoted("fact '", f.local_id.as_str(), "' references unknown object '");
        what.append(f.object_ref.as_str());
        what.append("'");
        return Err(invalid_output(what.as_str()));
    }
    if registry.predicate(f.predicate.as_str()).is_none() {
        let what = quoted("unknown predicate '", f.predicate.as_str(), "'");
        return Err(invalid_output(what.as_str()));
    }
    if f.evidence.is_empty() {
        let what = quoted(
            "fact '",
            f.local_id.as_str(),
            "' must include at least one evidence",
        );
        return Err(invalid_output(what.as_str()));
    }
    match (f.valid_from_ms, f.valid_to_ms) {
        (Some(from), Some(to)) => {
            if from > to {
                let what = quoted(
                    "fact '",
                    f.local_id.as_str(),
                    "' has valid_from_ms after valid_to_ms",
                );
                return Err(invalid_output(what.as_str()));
            }
        },
        _ => {},
    }
    validate_spans(&f.evidence, record_text)
}

proof fn lemma_entities_problem_stays(
    entities: Seq<EntityCandidateView>,
    types: Seq<Seq<char>>,
    n: int,
)
    requires
        0 <= n <= entities.len(),
        entities_problem(entities.take(n), types) is Some,
    ensures
        entities_problem(entities, types) == entities_problem(entities.take(n), types),
    decreases entities.len() - n,
{
    if n == entities.len() {
        assert(entities.take(n) =~= entities);
    } else {
        assert(entities.drop_last().take(n) =~= entities.take(n));
        lemma_entities_problem_stays(entities.drop_last(), types, n);
    }
}

proof fn lemma_facts_problem_stays(
    facts: Seq<FactCandidateView>,
    entity_ids: Seq<Seq<char>>,
    registry: RegistryView,
    record: Seq<char>,
    n: int,
)
    requires
        0 <= n <= facts.len(),
        facts_problem(facts.take(n), entity_ids, registry, record) is Some,
    ensures
        facts_problem(facts, entity_ids, registry, record) == facts_problem(
            facts.take(n),
            entity_ids,
            registry,
            record,
        ),
    decreases facts.len() - n,
{
    if n == facts.len() {
        assert(facts.take(n) =~= facts);
    } else {
        assert(facts.drop_last().take(n) =~= facts.take(n));
        lemma_facts_problem_stays(facts.drop_last(), entity_ids, registry, record, n);
    }
}

impl GraphExtractionOutput {
    /// Checks an extraction against the record that it was made from.
    pub fn validate_against_record(
        &self,
        record_text: &str,
        type_registry: &GraphTypeRegistry,
    ) -> (r: Result<(), MemoryError>)
        ensures
            reports(r, extraction_problem(self@, record_text@, type_registry@)),
    {
        let ghost es = self@.entities;
        let ghost types = type_registry@.entity_types;
        let mut entity_ids: Vec<String> = Vec::new();
        assert(text::strings(entity_ids@) =~= local_ids(es.take(0)));
        let mut i: usize = 0;
        while i < self.entities.len()
            invariant
                i <= self.entities@.len(),
                es == entity_candidate_views(self.entities@),
                es == self@.entities,
                types == type_registry@.entity_types,
                text::strings(entity_ids@) == local_ids(es.take(i as int)),
                entities_problem(es.take(i as int), types) is None,
            decreases self.entities@.len() - i,
        {
            let entity = &self.entities[i];
            assert(es.take(i + 1).drop_last() =~= es.take(i as int));
            assert(es.take(i + 1).last() == entity@);
            match validate_entity(
                entity,
                &entity_ids,
                Ghost(es.take(i as int)),
                &type_registry.entity_types,
            ) {
                Ok(_) => {},
                Err(e) => {
                    proof {
                        lemma_entities_problem_stays(es, types, i + 1);
                    }
                    return Err(e);
                },
            }
            let ghost before = entity_ids@;
            let id = entity.local_id.clone();
            entity_ids.push(id);
            proof {
                text::lemma_strings_push(before, id);
                assert(local_ids(es.take(i + 1)) =~= local_ids(es.take(i as int)).push(
                    entity@.local_id,
                ));
            }
            i += 1;
        }
        assert(es.take(i as int) =~= es);
        let ghost fs = self@.facts;
        let ghost ids = local_ids(es);
        let mut seen: Vec<String> = Vec::new();
        assert(text::strings(seen@) =~= fact_ids(fs.take(0)));
        let mut j: usize = 0;
        while j < self.facts.len()
            invariant
                j <= self.facts@.len(),
                fs == fact_candidate_views(self.facts@),
                es == self@.entities,
                fs == self@.facts,
                ids == local_ids(es),
                entities_problem(es, type_registry@.entity_types) is None,
                text::strings(entity_ids@) == ids,
                text::strings(seen@) == fact_ids(fs.take(j as int)),
                facts_problem(fs.take(j as int), ids, type_registry@, record_text@) is None,
            decreases self.facts@.len() - j,
        {
            let fact = &self.facts[j];
            assert(fs.take(j + 1).drop_last() =~= fs.take(j as int));
            assert(fs.take(j + 1).last() == fact@);
            match validate_fact(
                fact,
                &seen,
                Ghost(fs.take(j as int)),
                &entity_ids,
                type_registry,
                record_text,
            ) {
                Ok(_) => {},
                Err(e) => {
                    proof {
                        lemma_facts_problem_stays(fs, ids, type_registry@, record_text@, j + 1);
                    }
                    return Err(e);
                },
            }
            let ghost before = seen@;
            let id = fact.local_id.clone();
            seen.push(id);
            proof {
                text::lemma_strings_push(before, id);
                assert(fact_ids(fs.take(j + 1)) =~= fact_ids(fs.take(j as int)).push(
                    fact@.local_id,
                ));
            }
            j += 1;
        }
        assert(fs.take(j as int) =~= fs);
        Ok(())
    }
}

/// Every fact of a sound extraction relates two of its entities by a registered
/// predicate and rests on evidence, all of which is sound.
pub proof fn sound_facts_are_grounded(
    output: ExtractionView,
    record: Seq<char>,
    registry: RegistryView,
    i: int,
)
    requires
        extraction_problem(output, record, registry) is None,
        0 <= i < output.facts.len(),
    ensures
        local_ids(output.entities).contains(output.facts[i].subject_ref),
        local_ids(output.entities).contains(output.facts[i].object_ref),
        graph_registry::predicate_named(registry.predicates, output.facts[i].predicate) is Some,
        output.facts[i].evidence.len() > 0,
        spans_problem(output.facts[i].evidence, record) is None,
{
    lemma_facts_are_sound(
        output.facts,
        local_ids(output.entities),
        registry,
        record,
        i,
    );
}

proof fn lemma_facts_are_sound(
    facts: Seq<FactCandidateView>,
    ids: Seq<Seq<char>>,
    registry: RegistryView,
    record: Seq<char>,
    i: int,
)
    requires
        facts_problem(facts, ids, registry, record) is None,
        0 <= i < facts.len(),
    ensures
        fact_problem(facts[i], facts.take(i), ids, registry, record) is None,
    decreases facts.len(),
{
    if i < facts.len() - 1 {
        lemma_facts_are_sound(facts.drop_last(), ids, registry, record, i);
        assert(facts.drop_last()[i] == facts[i]);
        assert(facts.drop_last().take(i) =~= facts.take(i));
    } else {
        assert(facts.take(i) =~= facts.drop_last());
    }
}

/// The entities of a sound extraction are told apart by their ids, and so are
/// its facts.
pub proof fn sound_ids_are_distinct(
    output: ExtractionView,
    record: Seq<char>,
    registry: RegistryView,
    i: int,
    j: int,
)
    requires
        extraction_problem(output, record, registry) is None,
        0 <= i < j,
    ensures
        j < output.entities.len() ==> output.entities[i].local_id != output.entities[j].local_id,
        j < output.facts.len() ==> output.facts[i].local_id != output.facts[j].local_id,
{
    if j < output.entities.len() {
        lemma_entities_are_sound(output.entities, registry.entity_types, j);
        let earlier = output.entities.take(j);
        assert(earlier[i] == output.entities[i]);
        assert(local_ids(earlier)[i] == output.entities[i].local_id);
    }
    if j < output.facts.len() {
        lemma_facts_are_sound(
            output.facts,
            local_ids(output.entities),
            registry,
            record,
            j,
        );
        let earlier = output.facts.take(j);
        assert(earlier[i] == output.facts[i]);
        assert(fact_ids(earlier)[i] == output.facts[i].local_id);
    }
}

proof fn lemma_entities_are_sound(
    entities: Seq<EntityCandidateView>,
    types: Seq<Seq<char>>,
    i: int,
)
    requires
        entities_problem(entities, types) is None,
        0 <= i < entities.len(),
    ensures
        entity_problem(entities[i], entities.take(i), types) is None,
    decreases entities.len(),
{
    if i < entities.len() - 1 {
        lemma_entities_are_sound(entities.drop_last(), types, i);
        assert(entities.drop_last()[i] == entities[i]);
        assert(entities.drop_last().take(i) =~= entities.take(i));
    } else {
        assert(entities.take(i) =~= entities.drop_last());
    }
}

} // verus!
