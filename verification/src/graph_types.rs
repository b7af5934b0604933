//! The things that the memory graph is made of.

use vstd::prelude::*;
use vstd::string::*;

use crate::graph_retrieval::FactStatus;
use crate::json::{Json, JsonView};
use crate::record::clone_bits;
use crate::text::clone_opt;

verus! {

/// A person, place, thing or topic that facts are about.
#[derive(Debug)]
pub struct Entity {
    pub id: String,
    pub memory_space_id: String,
    pub canonical_name: String,
    pub entity_type: String,
}

/// A record of the memory graph. The components of the embedding stand as
/// their IEEE-754 bits.
#[derive(Debug)]
pub struct GraphMemoryRecord {
    pub id: String,
    pub memory_space_id: String,
    pub session_id: Option<String>,
    pub ingestion_sequence: i64,
    pub session_sequence: Option<i64>,
    pub text: String,
    pub metadata: Json,
    pub source_kind: String,
    pub source_ref: Option<String>,
    pub content_role: String,
    pub created_by_agent_id: Option<String>,
    pub observed_at_ms: Option<u64>,
    pub embedding: Option<Vec<u32>>,
    pub created_at_ms: u64,
    pub updated_at_ms: u64,
}

/// A fact of the memory graph as it is stored. The components of the embedding
/// stand as their IEEE-754 bits.
#[derive(Debug)]
pub struct Fact {
    pub id: String,
    pub memory_space_id: String,
    pub subject_entity_id: String,
    pub predicate: String,
    pub object_entity_id: String,
    pub fact_text: String,
    pub dedup_key: Option<String>,
    pub embedding: Option<Vec<u32>>,
    pub embedding_model: Option<String>,
    pub embedding_version: Option<String>,
    pub status: FactStatus,
    pub valid_from_ms: Option<u64>,
    pub valid_to_ms: Option<u64>,
    pub recorded_at_ms: u64,
    pub retired_at_ms: Option<u64>,
    pub type_registry_version: String,
}

/// A fact that a query has found, with the records that support it. The score
/// stands as its place in the order of scores and as its JSON text.
#[derive(Debug)]
pub struct FactContextUnit {
    pub fact_id: String,
    pub fact_text: String,
    pub subject_entity: Entity,
    pub object_entity: Entity,
    pub predicate: String,
    pub evidence_records: Vec<GraphMemoryRecord>,
    pub path: Vec<String>,
    pub score: i32,
    pub score_text: String,
    pub valid_from_ms: Option<u64>,
    pub valid_to_ms: Option<u64>,
    pub recorded_at_ms: u64,
}

/// How a record was found by a query.
#[derive(Clone, Copy, Debug, PartialEq, Eq, Structural)]
pub enum EvidenceRecordMatchKind {
    Lexical,
}

/// A record that a query has found by itself.
#[derive(Debug)]
pub struct EvidenceRecordContextUnit {
    pub record: GraphMemoryRecord,
    pub match_kind: EvidenceRecordMatchKind,
    pub path: Vec<String>,
    pub score: i32,
    pub score_text: String,
}

/// What a [`GraphMemoryRecord`] stands for.
pub struct GraphRecordView {
    pub id: Seq<char>,
    pub memory_space_id: Seq<char>,
    pub session_id: Option<Seq<char>>,
    pub ingestion_sequence: i64,
    pub session_sequence: Option<i64>,
    pub text: Seq<char>,
    pub metadata: JsonView,
    pub source_kind: Seq<char>,
    pub source_ref: Option<Seq<char>>,
    pub content_role: Seq<char>,
    pub created_by_agent_id: Option<Seq<char>>,
    pub observed_at_ms: Option<u64>,
    pub embedding: Option<Seq<u32>>,
    pub created_at_ms: u64,
    pub updated_at_ms: u64,
}

impl View for GraphMemoryRecord {
    type V = GraphRecordView;

    open spec fn view(&self) -> GraphRecordView {
        GraphRecordView {
            id: self.id@,
            memory_space_id: self.memory_space_id@,
            session_id: crate::json::opt_string(self.session_id),
            ingestion_sequence: self.ingestion_sequence,
            session_sequence: self.session_sequence,
            text: self.text@,
            metadata: self.metadata@,
            source_kind: self.source_kind@,
            source_ref: crate::json::opt_string(self.source_ref),
            content_role: self.content_role@,
            created_by_agent_id: crate::json::opt_string(self.created_by_agent_id),
            observed_at_ms: self.observed_at_ms,
            embedding: opt_bits(self.embedding),
            created_at_ms: self.created_at_ms,
            updated_at_ms: self.updated_at_ms,
        }
    }
}

pub open spec fn opt_bits(o: Option<Vec<u32>>) -> Option<Seq<u32>> {
    match o {
        Some(bits) => Some(bits@),
        None => None,
    }
}

/// What a [`Fact`] stands for.
pub struct FactView {
    pub id: Seq<char>,
    pub memory_space_id: Seq<char>,
    pub subject_entity_id: Seq<char>,
    pub predicate: Seq<char>,
    pub object_entity_id: Seq<char>,
    pub fact_text: Seq<char>,
    pub dedup_key: Option<Seq<char>>,
    pub embedding: Option<Seq<u32>>,
    pub embedding_model: Option<Seq<char>>,
    pub embedding_version: Option<Seq<char>>,
    pub status: FactStatus,
    pub valid_from_ms: Option<u64>,
    pub valid_to_ms: Option<u64>,
    pub recorded_at_ms: u64,
    pub retired_at_ms: Option<u64>,
    pub type_registry_version: Seq<char>,
}

impl View for Fact {
    type V = FactView;

    open spec fn view(&self) -> FactView {
        FactView {
            id: self.id@,
            memory_space_id: self.memory_space_id@,
            subject_entity_id: self.subject_entity_id@,
            predicate: self.predicate@,
            object_entity_id: self.object_entity_id@,
            fact_text: self.fact_text@,
            dedup_key: crate::json::opt_string(self.dedup_key),
            embedding: opt_bits(self.embedding),
            embedding_model: crate::json::opt_string(self.embedding_model),
            embedding_version: crate::json::opt_string(self.embedding_version),
            status: self.status,
            valid_from_ms: self.valid_from_ms,
            valid_to_ms: self.valid_to_ms,
            recorded_at_ms: self.recorded_at_ms,
            retired_at_ms: self.retired_at_ms,
            type_registry_version: self.type_registry_version@,
        }
    }
}

/// What an [`Entity`] stands for.
pub struct EntityView {
    pub id: Seq<char>,
    pub memory_space_id: Seq<char>,
    pub canonical_name: Seq<char>,
    pub entity_type: Seq<char>,
}

impl View for Entity {
    type V = EntityView;

    open spec fn view(&self) -> EntityView {
        EntityView {
            id: self.id@,
            memory_space_id: self.memory_space_id@,
            canonical_name: self.canonical_name@,
            entity_type: self.entity_type@,
        }
    }
}

/// What a [`FactContextUnit`] stands for.
pub struct FactUnitView {
    pub fact_id: Seq<char>,
    pub fact_text: Seq<char>,
    pub subject: EntityView,
    pub object: EntityView,
    pub predicate: Seq<char>,
    pub evidence_records: Seq<GraphRecordView>,
    pub path: Seq<Seq<char>>,
    pub score: i32,
    pub score_text: Seq<char>,
    pub valid_from_ms: Option<u64>,
    pub valid_to_ms: Option<u64>,
    pub recorded_at_ms: u64,
}

impl View for FactContextUnit {
    type V = FactUnitView;

    open spec fn view(&self) -> FactUnitView {
        FactUnitView {
            fact_id: self.fact_id@,
            fact_text: self.fact_text@,
            subject: self.subject_entity@,
            object: self.object_entity@,
            predicate: self.predicate@,
            evidence_records: graph_record_views(self.evidence_records@),
            path: crate::text::strings(self.path@),
            score: self.score,
            score_text: self.score_text@,
            valid_from_ms: self.valid_from_ms,
            valid_to_ms: self.valid_to_ms,
            recorded_at_ms: self.recorded_at_ms,
        }
    }
}

/// What an [`EvidenceRecordContextUnit`] stands for.
pub struct RecordUnitView {
    pub record: GraphRecordView,
    pub match_kind: EvidenceRecordMatchKind,
    pub path: Seq<Seq<char>>,
    pub score: i32,
    pub score_text: Seq<char>,
}

impl View for EvidenceRecordContextUnit {
    type V = RecordUnitView;

    open spec fn view(&self) -> RecordUnitView {
        RecordUnitView {
            record: self.record@,
            match_kind: self.match_kind,
            path: crate::text::strings(self.path@),
            score: self.score,
            score_text: self.score_text@,
        }
    }
}

pub open spec fn graph_record_views(v: Seq<GraphMemoryRecord>) -> Seq<GraphRecordView> {
    Seq::new(v.len(), |i: int| v[i]@)
}

pub open spec fn fact_views(v: Seq<Fact>) -> Seq<FactView> {
    Seq::new(v.len(), |i: int| v[i]@)
}

pub open spec fn fact_unit_views(v: Seq<FactContextUnit>) -> Seq<FactUnitView> {
    Seq::new(v.len(), |i: int| v[i]@)
}

pub open spec fn record_unit_views(v: Seq<EvidenceRecordContextUnit>) -> Seq<RecordUnitView> {
    Seq::new(v.len(), |i: int| v[i]@)
}

impl Clone for Entity {
    fn clone(&self) -> (r: Self)
        ensures
            r == *self,
    {
        Entity {
            id: self.id.clone(),
            memory_space_id: self.memory_space_id.clone(),
            canonical_name: self.canonical_name.clone(),
            entity_type: self.entity_type.clone(),
        }
    }
}

impl Clone for GraphMemoryRecord {
    fn clone(&self) -> (r: Self)
        ensures
            r@ == self@,
    {
        GraphMemoryRecord {
            id: self.id.clone(),
            memory_space_id: self.memory_space_id.clone(),
            session_id: clone_opt(&self.session_id),
            ingestion_sequence: self.ingestion_sequence,
            session_sequence: self.session_sequence,
            text: self.text.clone(),
            metadata: self.metadata.clone(),
            source_kind: self.source_kind.clone(),
            source_ref: clone_opt(&self.source_ref),
            content_role: self.content_role.clone(),
            created_by_agent_id: clone_opt(&self.created_by_agent_id),
            observed_at_ms: self.observed_at_ms,
            embedding: clone_opt_bits(&self.embedding),
            created_at_ms: self.created_at_ms,
            updated_at_ms: self.updated_at_ms,
        }
    }
}

fn clone_opt_bits(o: &Option<Vec<u32>>) -> (r: Option<Vec<u32>>)
    ensures
        opt_bits(r) == opt_bits(*o),
{
    match o {
        Some(bits) => Some(clone_bits(bits)),
        None => None,
    }
}

impl Clone for Fact {
    fn clone(&self) -> (r: Self)
        ensures
            r@ == self@,
    {
        Fact {
            id: self.id.clone(),
            memory_space_id: self.memory_space_id.clone(),
            subject_entity_id: self.subject_entity_id.clone(),
            predicate: self.predicate.clone(),
            object_entity_id: self.object_entity_id.clone(),
            fact_text: self.fact_text.clone(),
            dedup_key: clone_opt(&self.dedup_key),
            embedding: clone_opt_bits(&self.embedding),
            embedding_model: clone_opt(&self.embedding_model),
            embedding_version: clone_opt(&self.embedding_version),
            status: self.status,
            valid_from_ms: self.valid_from_ms,
            valid_to_ms: self.valid_to_ms,
            recorded_at_ms: self.recorded_at_ms,
            retired_at_ms: self.retired_at_ms,
            type_registry_version: self.type_registry_version.clone(),
        }
    }
}

} // verus!
