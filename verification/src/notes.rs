//! What is written into documents, and how it is read back.

use vstd::prelude::*;

use crate::api::ScoredView;
use crate::case_model::{ChunkView, StoredDocumentView};
use crate::case_profile;
use crate::case_profile::{
    ProfileView, CHUNKING_STRATEGY, CHUNK_RECORD_KIND, DOCUMENT_SUMMARY_RECORD_KIND,
    MEMORY_INDEX_NAMESPACE,
};
use crate::graph_context;
use crate::graph_context::{combined, fact_find, memory_record_of, record_find};
use crate::graph_extraction::GraphExtractionInput;
use crate::graph_llm;
use crate::graph_registry::PredicateView;
use crate::graph_types::{EntityView, FactUnitView, GraphRecordView, RecordUnitView};
use crate::json;
use crate::json::JsonView;
use crate::text;

verus! {

proof fn lemma_members_are_read(members: Seq<(Seq<char>, JsonView)>)
    requires
        forall|i: int, j: int|
            #![trigger members[i], members[j]]
            0 <= i < j < members.len() ==> members[i].0 != members[j].0,
    ensures
        forall|i: int|
            0 <= i < members.len() ==> json::json_get(
                graph_context::object_of(members),
                (#[trigger] members[i]).0,
            ) == Some(members[i].1),
{
    assert forall|i: int| 0 <= i < members.len() implies json::json_get(
        graph_context::object_of(members),
        (#[trigger] members[i]).0,
    ) == Some(members[i].1) by {
        case_profile::lemma_object_of_get(members, i);
    }
}

proof fn lemma_chunk_keys_differ()
    ensures
        ({
            let k = seq![
                "memory_index_namespace"@,
                "scope_id"@,
                "dataset_id"@,
                "document_id"@,
                "chunk_id"@,
                "chunk_index"@,
                "chunking_strategy"@,
                "record_kind"@,
                "chunk_type"@,
                "chunk_char_count"@,
                "chunk_token_count"@,
                "parse_topology"@,
                "source_node_indices"@,
                "available"@,
                "source_name"@,
                "source_path"@,
                "title_tks"@,
                "important_kwd"@,
                "important_tks"@,
                "question_tks"@,
                "context_tks"@,
            ];
            forall|i: int, j: int|
                #![trigger k[i], k[j]]
                0 <= i < j < k.len() ==> k[i] != k[j]
        }),
{
    reveal_strlit("memory_index_namespace");
    reveal_strlit("scope_id");
    reveal_strlit("dataset_id");
    reveal_strlit("document_id");
    reveal_strlit("chunk_id");
    reveal_strlit("chunk_index");
    reveal_strlit("chunking_strategy");
    reveal_strlit("record_kind");
    reveal_strlit("chunk_type");
    reveal_strlit("chunk_char_count");
    reveal_strlit("chunk_token_count");
    reveal_strlit("parse_topology");
    reveal_strlit("source_node_indices");
    reveal_strlit("available");
    reveal_strlit("source_name");
    reveal_strlit("source_path");
    reveal_strlit("title_tks");
    reveal_strlit("important_kwd");
    reveal_strlit("important_tks");
    reveal_strlit("question_tks");
    reveal_strlit("context_tks");
    assert("memory_index_namespace"@.len() == 22);
    assert("scope_id"@.len() == 8);
    assert("dataset_id"@.len() == 10);
    assert("document_id"@.len() == 11);
    assert("chunk_id"@.len() == 8);
    assert("chunk_index"@.len() == 11);
    assert("chunking_strategy"@.len() == 17);
    assert("record_kind"@.len() == 11);
    assert("chunk_type"@.len() == 10);
    assert("chunk_char_count"@.len() == 16);
    assert("chunk_token_count"@.len() == 17);
    assert("parse_topology"@.len() == 14);
    assert("source_node_indices"@.len() == 19);
    assert("available"@.len() == 9);
    assert("source_name"@.len() == 11);
    assert("source_path"@.len() == 11);
    assert("title_tks"@.len() == 9);
    assert("important_kwd"@.len() == 13);
    assert("important_tks"@.len() == 13);
    assert("question_tks"@.len() == 12);
    assert("context_tks"@.len() == 11);
    assert("scope_id"@[0] == 's');
    assert("chunk_id"@[0] == 'c');
    assert("dataset_id"@[0] == 'd');
    assert("chunk_type"@[0] == 'c');
    assert("document_id"@[0] == 'd');
    assert("chunk_index"@[0] == 'c');
    assert("record_kind"@[0] == 'r');
    assert("source_name"@[0] == 's');
    assert("source_path"@[0] == 's');
    assert("context_tks"@[0] == 'c');
    assert("chunk_index"@[1] == 'h');
    assert("context_tks"@[1] == 'o');
    assert("chunking_strategy"@[5] == 'i');
    assert("chunk_token_count"@[5] == '_');
    assert("available"@[0] == 'a');
    assert("title_tks"@[0] == 't');
    assert("source_name"@[7] == 'n');
    assert("source_path"@[7] == 'p');
    assert("important_kwd"@[10] == 'k');
    assert("important_tks"@[10] == 't');
}

proof fn lemma_summary_keys_differ()
    ensures
        ({
            let k = seq![
                "memory_index_namespace"@,
                "scope_id"@,
                "dataset_id"@,
                "document_id"@,
                "chunking_strategy"@,
                "record_kind"@,
                "document_summary_source"@,
                "chunk_count"@,
                "available"@,
                "source_name"@,
                "source_path"@,
                "title_tks"@,
                "important_kwd"@,
                "important_tks"@,
                "question_tks"@,
                "context_tks"@,
            ];
            forall|i: int, j: int|
                #![trigger k[i], k[j]]
                0 <= i < j < k.len() ==> k[i] != k[j]
        }),
{
    reveal_strlit("memory_index_namespace");
    reveal_strlit("scope_id");
    reveal_strlit("dataset_id");
    reveal_strlit("document_id");
    reveal_strlit("chunking_strategy");
    reveal_strlit("record_kind");
    reveal_strlit("document_summary_source");
    reveal_strlit("chunk_count");
    reveal_strlit("available");
    reveal_strlit("source_name");
    reveal_strlit("source_path");
    reveal_strlit("title_tks");
    reveal_strlit("important_kwd");
    reveal_strlit("important_tks");
    reveal_strlit("question_tks");
    reveal_strlit("context_tks");
    assert("memory_index_namespace"@.len() == 22);
    assert("scope_id"@.len() == 8);
    assert("dataset_id"@.len() == 10);
    assert("document_id"@.len() == 11);
    assert("chunking_strategy"@.len() == 17);
    assert("record_kind"@.len() == 11);
    assert("document_summary_source"@.len() == 23);
    assert("chunk_count"@.len() == 11);
    assert("available"@.len() == 9);
    assert("source_name"@.len() == 11);
    assert("source_path"@.len() == 11);
    assert("title_tks"@.len() == 9);
    assert("important_kwd"@.len() == 13);
    assert("important_tks"@.len() == 13);
    assert("question_tks"@.len() == 12);
    assert("context_tks"@.len() == 11);
    assert("document_id"@[0] == 'd');
    assert("record_kind"@[0] == 'r');
    assert("chunk_count"@[0] == 'c');
    assert("source_name"@[0] == 's');
    assert("source_path"@[0] == 's');
    assert("context_tks"@[0] == 'c');
    assert("chunk_count"@[1] == 'h');
    assert("context_tks"@[1] == 'o');
    assert("available"@[0] == 'a');
    assert("title_tks"@[0] == 't');
    assert("source_name"@[7] == 'n');
    assert("source_path"@[7] == 'p');
    assert("important_kwd"@[10] == 'k');
    assert("important_tks"@[10] == 't');
}

proof fn lemma_fact_keys_differ()
    ensures
        ({
            let k = seq![
                "fact_id"@,
                "fact_text"@,
                "predicate"@,
                "score"@,
                "subject"@,
                "object"@,
                "valid_from_ms"@,
                "valid_to_ms"@,
                "recorded_at_ms"@,
                "path"@,
            ];
            forall|i: int, j: int|
                #![trigger k[i], k[j]]
                0 <= i < j < k.len() ==> k[i] != k[j]
        }),
{
    reveal_strlit("fact_id");
    reveal_strlit("fact_text");
    reveal_strlit("predicate");
    reveal_strlit("score");
    reveal_strlit("subject");
    reveal_strlit("object");
    reveal_strlit("valid_from_ms");
    reveal_strlit("valid_to_ms");
    reveal_strlit("recorded_at_ms");
    reveal_strlit("path");
    assert("fact_id"@.len() == 7);
    assert("fact_text"@.len() == 9);
    assert("predicate"@.len() == 9);
    assert("score"@.len() == 5);
    assert("subject"@.len() == 7);
    assert("object"@.len() == 6);
    assert("valid_from_ms"@.len() == 13);
    assert("valid_to_ms"@.len() == 11);
    assert("recorded_at_ms"@.len() == 14);
    assert("path"@.len() == 4);
    assert("fact_id"@[0] == 'f');
    assert("subject"@[0] == 's');
    assert("fact_text"@[0] == 'f');
    assert("predicate"@[0] == 'p');
}

proof fn lemma_match_keys_differ()
    ensures
        ({
            let k = seq![
                "kind"@,
                "match_kind"@,
                "record_id"@,
                "score"@,
                "path"@,
            ];
            forall|i: int, j: int|
                #![trigger k[i], k[j]]
                0 <= i < j < k.len() ==> k[i] != k[j]
        }),
{
    reveal_strlit("kind");
    reveal_strlit("match_kind");
    reveal_strlit("record_id");
    reveal_strlit("score");
    reveal_strlit("path");
    assert("kind"@.len() == 4);
    assert("match_kind"@.len() == 10);
    assert("record_id"@.len() == 9);
    assert("score"@.len() == 5);
    assert("path"@.len() == 4);
    assert("kind"@[0] == 'k');
    assert("path"@[0] == 'p');
}

proof fn lemma_entity_keys_differ()
    ensures
        ({
            let k = seq![
                "id"@,
                "name"@,
                "entity_type"@,
            ];
            forall|i: int, j: int|
                #![trigger k[i], k[j]]
                0 <= i < j < k.len() ==> k[i] != k[j]
        }),
{
    reveal_strlit("id");
    reveal_strlit("name");
    reveal_strlit("entity_type");
    assert("id"@.len() == 2);
    assert("name"@.len() == 4);
    assert("entity_type"@.len() == 11);
}

proof fn lemma_record_keys_differ()
    ensures
        ({
            let k = seq![
                "memory_space_id"@,
                "memory_record_id"@,
                "metadata"@,
                "source_context"@,
                "context_record_ids"@,
                "type_registry_version"@,
                "text"@,
            ];
            forall|i: int, j: int|
                #![trigger k[i], k[j]]
                0 <= i < j < k.len() ==> k[i] != k[j]
        }),
{
    reveal_strlit("memory_space_id");
    reveal_strlit("memory_record_id");
    reveal_strlit("metadata");
    reveal_strlit("source_context");
    reveal_strlit("context_record_ids");
    reveal_strlit("type_registry_version");
    reveal_strlit("text");
    assert("memory_space_id"@.len() == 15);
    assert("memory_record_id"@.len() == 16);
    assert("metadata"@.len() == 8);
    assert("source_context"@.len() == 14);
    assert("context_record_ids"@.len() == 18);
    assert("type_registry_version"@.len() == 21);
    assert("text"@.len() == 4);
}

proof fn lemma_predicate_keys_differ()
    ensures
        ({
            let k = seq![
                "name"@,
                "description"@,
                "temporal_kind"@,
                "cardinality"@,
                "overlap_allowed"@,
                "symmetric"@,
            ];
            forall|i: int, j: int|
                #![trigger k[i], k[j]]
                0 <= i < j < k.len() ==> k[i] != k[j]
        }),
{
    reveal_strlit("name");
    reveal_strlit("description");
    reveal_strlit("temporal_kind");
    reveal_strlit("cardinality");
    reveal_strlit("overlap_allowed");
    reveal_strlit("symmetric");
    assert("name"@.len() == 4);
    assert("description"@.len() == 11);
    assert("temporal_kind"@.len() == 13);
    assert("cardinality"@.len() == 11);
    assert("overlap_allowed"@.len() == 15);
    assert("symmetric"@.len() == 9);
    assert("description"@[0] == 'd');
    assert("cardinality"@[0] == 'c');
}

/// What is noted about a chunk says where it stands, what it is, and what it is
/// indexed by.
pub proof fn chunk_notes_are_read_back(d: StoredDocumentView, c: ChunkView, p: ProfileView)
    ensures
        json::json_get(case_profile::chunk_metadata(d, c, p), "memory_index_namespace"@) == Some(JsonView::Text(MEMORY_INDEX_NAMESPACE@)),
        json::json_get(case_profile::chunk_metadata(d, c, p), "scope_id"@) == Some(JsonView::Text(c.dataset_id)),
        json::json_get(case_profile::chunk_metadata(d, c, p), "dataset_id"@) == Some(JsonView::Text(c.dataset_id)),
        json::json_get(case_profile::chunk_metadata(d, c, p), "document_id"@) == Some(JsonView::Text(c.document_id)),
        json::json_get(case_profile::chunk_metadata(d, c, p), "chunk_id"@) == Some(JsonView::Text(c.id)),
        json::json_get(case_profile::chunk_metadata(d, c, p), "chunk_index"@) == Some(JsonView::Unsigned(c.chunk_index as u64)),
        json::json_get(case_profile::chunk_metadata(d, c, p), "chunking_strategy"@) == Some(JsonView::Text(CHUNKING_STRATEGY@)),
        json::json_get(case_profile::chunk_metadata(d, c, p), "record_kind"@) == Some(JsonView::Text(CHUNK_RECORD_KIND@)),
        json::json_get(case_profile::chunk_metadata(d, c, p), "chunk_type"@) == Some(JsonView::Text(c.chunk_type)),
        json::json_get(case_profile::chunk_metadata(d, c, p), "chunk_char_count"@) == Some(JsonView::Unsigned(c.content.len() as u64)),
        json::json_get(case_profile::chunk_metadata(d, c, p), "chunk_token_count"@) == Some(JsonView::Unsigned(c.token_count as u64)),
        json::json_get(case_profile::chunk_metadata(d, c, p), "parse_topology"@) == Some(JsonView::Text(c.parse_topology)),
        json::json_get(case_profile::chunk_metadata(d, c, p), "source_node_indices"@) == Some(case_profile::index_list(c.source_node_indices)),
        json::json_get(case_profile::chunk_metadata(d, c, p), "available"@) == Some(JsonView::Bool(c.available)),
        json::json_get(case_profile::chunk_metadata(d, c, p), "source_name"@) == Some(JsonView::Text(d.name)),
        json::json_get(case_profile::chunk_metadata(d, c, p), "source_path"@) == Some(JsonView::Text(d.file_path)),
        json::json_get(case_profile::chunk_metadata(d, c, p), "title_tks"@) == Some(JsonView::Text(p.title_tks)),
        json::json_get(case_profile::chunk_metadata(d, c, p), "important_kwd"@) == Some(graph_context::text_list(p.important_kwd)),
        json::json_get(case_profile::chunk_metadata(d, c, p), "important_tks"@) == Some(JsonView::Text(p.important_tks)),
        json::json_get(case_profile::chunk_metadata(d, c, p), "question_tks"@) == Some(JsonView::Text(p.question_tks)),
        json::json_get(case_profile::chunk_metadata(d, c, p), "context_tks"@) == Some(JsonView::Text(p.context_tks)),
{
    lemma_chunk_keys_differ();
    let k = seq![
        "memory_index_namespace"@,
        "scope_id"@,
        "dataset_id"@,
        "document_id"@,
        "chunk_id"@,
        "chunk_index"@,
        "chunking_strategy"@,
        "record_kind"@,
        "chunk_type"@,
        "chunk_char_count"@,
        "chunk_token_count"@,
        "parse_topology"@,
        "source_node_indices"@,
        "available"@,
        "source_name"@,
        "source_path"@,
        "title_tks"@,
        "important_kwd"@,
        "important_tks"@,
        "question_tks"@,
        "context_tks"@,
    ];
    let members = seq![
        ("memory_index_namespace"@, JsonView::Text(MEMORY_INDEX_NAMESPACE@)),
        ("scope_id"@, JsonView::Text(c.dataset_id)),
        ("dataset_id"@, JsonView::Text(c.dataset_id)),
        ("document_id"@, JsonView::Text(c.document_id)),
        ("chunk_id"@, JsonView::Text(c.id)),
        ("chunk_index"@, JsonView::Unsigned(c.chunk_index as u64)),
        ("chunking_strategy"@, JsonView::Text(CHUNKING_STRATEGY@)),
        ("record_kind"@, JsonView::Text(CHUNK_RECORD_KIND@)),
        ("chunk_type"@, JsonView::Text(c.chunk_type)),
        ("chunk_char_count"@, JsonView::Unsigned(c.content.len() as u64)),
        ("chunk_token_count"@, JsonView::Unsigned(c.token_count as u64)),
        ("parse_topology"@, JsonView::Text(c.parse_topology)),
        ("source_node_indices"@, case_profile::index_list(c.source_node_indices)),
        ("available"@, JsonView::Bool(c.available)),
        ("source_name"@, JsonView::Text(d.name)),
        ("source_path"@, JsonView::Text(d.file_path)),
        ("title_tks"@, JsonView::Text(p.title_tks)),
        ("important_kwd"@, graph_context::text_list(p.important_kwd)),
        ("important_tks"@, JsonView::Text(p.important_tks)),
        ("question_tks"@, JsonView::Text(p.question_tks)),
        ("context_tks"@, JsonView::Text(p.context_tks)),
    ];
    assert(case_profile::chunk_metadata(d, c, p) == graph_context::object_of(members));
    assert forall|i: int, j: int|
        #![trigger members[i], members[j]]
        0 <= i < j < members.len() implies members[i].0 != members[j].0 by {
        assert(members[i].0 == k[i] && members[j].0 == k[j]);
    }
    lemma_members_are_read(members);
    assert(members[0].0 == "memory_index_namespace"@ && members[1].0 == "scope_id"@ && members[2].0 == "dataset_id"@ && members[3].0 == "document_id"@ && members[4].0 == "chunk_id"@ && members[5].0 == "chunk_index"@ && members[6].0 == "chunking_strategy"@ && members[7].0 == "record_kind"@ && members[8].0 == "chunk_type"@ && members[9].0 == "chunk_char_count"@ && members[10].0 == "chunk_token_count"@ && members[11].0 == "parse_topology"@ && members[12].0 == "source_node_indices"@ && members[13].0 == "available"@ && members[14].0 == "source_name"@ && members[15].0 == "source_path"@ && members[16].0 == "title_tks"@ && members[17].0 == "important_kwd"@ && members[18].0 == "important_tks"@ && members[19].0 == "question_tks"@ && members[20].0 == "context_tks"@);
}

/// What is noted about a summary says which document it sums up and how it came
/// about; it is no chunk that can be shown.
pub proof fn summary_notes_are_read_back(
    d: StoredDocumentView,
    chunk_count: usize,
    source: Seq<char>,
    p: ProfileView,
)
    ensures
        json::json_get(case_profile::summary_metadata(d, chunk_count, source, p), "memory_index_namespace"@) == Some(JsonView::Text(MEMORY_INDEX_NAMESPACE@)),
        json::json_get(case_profile::summary_metadata(d, chunk_count, source, p), "scope_id"@) == Some(JsonView::Text(d.dataset_id)),
        json::json_get(case_profile::summary_metadata(d, chunk_count, source, p), "dataset_id"@) == Some(JsonView::Text(d.dataset_id)),
        json::json_get(case_profile::summary_metadata(d, chunk_count, source, p), "document_id"@) == Some(JsonView::Text(d.id)),
        json::json_get(case_profile::summary_metadata(d, chunk_count, source, p), "chunking_strategy"@) == Some(JsonView::Text(CHUNKING_STRATEGY@)),
        json::json_get(case_profile::summary_metadata(d, chunk_count, source, p), "record_kind"@) == Some(JsonView::Text(DOCUMENT_SUMMARY_RECORD_KIND@)),
        json::json_get(case_profile::summary_metadata(d, chunk_count, source, p), "document_summary_source"@) == Some(JsonView::Text(source)),
        json::json_get(case_profile::summary_metadata(d, chunk_count, source, p), "chunk_count"@) == Some(JsonView::Unsigned(chunk_count as u64)),
        json::json_get(case_profile::summary_metadata(d, chunk_count, source, p), "available"@) == Some(JsonView::Bool(false)),
        json::json_get(case_profile::summary_metadata(d, chunk_count, source, p), "source_name"@) == Some(JsonView::Text(d.name)),
        json::json_get(case_profile::summary_metadata(d, chunk_count, source, p), "source_path"@) == Some(JsonView::Text(d.file_path)),
        json::json_get(case_profile::summary_metadata(d, chunk_count, source, p), "title_tks"@) == Some(JsonView::Text(p.title_tks)),
        json::json_get(case_profile::summary_metadata(d, chunk_count, source, p), "important_kwd"@) == Some(graph_context::text_list(p.important_kwd)),
        json::json_get(case_profile::summary_metadata(d, chunk_count, source, p), "important_tks"@) == Some(JsonView::Text(p.important_tks)),
        json::json_get(case_profile::summary_metadata(d, chunk_count, source, p), "question_tks"@) == Some(JsonView::Text(p.question_tks)),
        json::json_get(case_profile::summary_metadata(d, chunk_count, source, p), "context_tks"@) == Some(JsonView::Text(p.context_tks)),
{
    lemma_summary_keys_differ();
    let k = seq![
        "memory_index_namespace"@,
        "scope_id"@,
        "dataset_id"@,
        "document_id"@,
        "chunking_strategy"@,
        "record_kind"@,
        "document_summary_source"@,
        "chunk_count"@,
        "available"@,
        "source_name"@,
        "source_path"@,
        "title_tks"@,
        "important_kwd"@,
        "important_tks"@,
        "question_tks"@,
        "context_tks"@,
    ];
    let members = seq![
        ("memory_index_namespace"@, JsonView::Text(MEMORY_INDEX_NAMESPACE@)),
        ("scope_id"@, JsonView::Text(d.dataset_id)),
        ("dataset_id"@, JsonView::Text(d.dataset_id)),
        ("document_id"@, JsonView::Text(d.id)),
        ("chunking_strategy"@, JsonView::Text(CHUNKING_STRATEGY@)),
        ("record_kind"@, JsonView::Text(DOCUMENT_SUMMARY_RECORD_KIND@)),
        ("document_summary_source"@, JsonView::Text(source)),
        ("chunk_count"@, JsonView::Unsigned(chunk_count as u64)),
        ("available"@, JsonView::Bool(false)),
        ("source_name"@, JsonView::Text(d.name)),
        ("source_path"@, JsonView::Text(d.file_path)),
        ("title_tks"@, JsonView::Text(p.title_tks)),
        ("important_kwd"@, graph_context::text_list(p.important_kwd)),
        ("important_tks"@, JsonView::Text(p.important_tks)),
        ("question_tks"@, JsonView::Text(p.question_tks)),
        ("context_tks"@, JsonView::Text(p.context_tks)),
    ];
    assert(case_profile::summary_metadata(d, chunk_count, source, p) == graph_context::object_of(members));
    assert forall|i: int, j: int|
        #![trigger members[i], members[j]]
        0 <= i < j < members.len() implies members[i].0 != members[j].0 by {
        assert(members[i].0 == k[i] && members[j].0 == k[j]);
    }
    lemma_members_are_read(members);
    assert(members[0].0 == "memory_index_namespace"@ && members[1].0 == "scope_id"@ && members[2].0 == "dataset_id"@ && members[3].0 == "document_id"@ && members[4].0 == "chunking_strategy"@ && members[5].0 == "record_kind"@ && members[6].0 == "document_summary_source"@ && members[7].0 == "chunk_count"@ && members[8].0 == "available"@ && members[9].0 == "source_name"@ && members[10].0 == "source_path"@ && members[11].0 == "title_tks"@ && members[12].0 == "important_kwd"@ && members[13].0 == "important_tks"@ && members[14].0 == "question_tks"@ && members[15].0 == "context_tks"@);
}

/// What is noted of a fact says what it states, of whom, when and by which path.
pub proof fn fact_notes_are_read_back(u: FactUnitView)
    ensures
        json::json_get(graph_context::fact_json(u), "fact_id"@) == Some(JsonView::Text(u.fact_id)),
        json::json_get(graph_context::fact_json(u), "fact_text"@) == Some(JsonView::Text(u.fact_text)),
        json::json_get(graph_context::fact_json(u), "predicate"@) == Some(JsonView::Text(u.predicate)),
        json::json_get(graph_context::fact_json(u), "score"@) == Some(JsonView::Float(u.score_text)),
        json::json_get(graph_context::fact_json(u), "subject"@) == Some(graph_context::entity_json(u.subject)),
        json::json_get(graph_context::fact_json(u), "object"@) == Some(graph_context::entity_json(u.object)),
        json::json_get(graph_context::fact_json(u), "valid_from_ms"@) == Some(graph_context::number_or_null(u.valid_from_ms)),
        json::json_get(graph_context::fact_json(u), "valid_to_ms"@) == Some(graph_context::number_or_null(u.valid_to_ms)),
        json::json_get(graph_context::fact_json(u), "recorded_at_ms"@) == Some(JsonView::Unsigned(u.recorded_at_ms)),
        json::json_get(graph_context::fact_json(u), "path"@) == Some(graph_context::text_list(u.path)),
{
    lemma_fact_keys_differ();
    let k = seq![
        "fact_id"@,
        "fact_text"@,
        "predicate"@,
        "score"@,
        "subject"@,
        "object"@,
        "valid_from_ms"@,
        "valid_to_ms"@,
        "recorded_at_ms"@,
        "path"@,
    ];
    let members = seq![
        ("fact_id"@, JsonView::Text(u.fact_id)),
        ("fact_text"@, JsonView::Text(u.fact_text)),
        ("predicate"@, JsonView::Text(u.predicate)),
        ("score"@, JsonView::Float(u.score_text)),
        ("subject"@, graph_context::entity_json(u.subject)),
        ("object"@, graph_context::entity_json(u.object)),
        ("valid_from_ms"@, graph_context::number_or_null(u.valid_from_ms)),
        ("valid_to_ms"@, graph_context::number_or_null(u.valid_to_ms)),
        ("recorded_at_ms"@, JsonView::Unsigned(u.recorded_at_ms)),
        ("path"@, graph_context::text_list(u.path)),
    ];
    assert(graph_context::fact_json(u) == graph_context::object_of(members));
    assert forall|i: int, j: int|
        #![trigger members[i], members[j]]
        0 <= i < j < members.len() implies members[i].0 != members[j].0 by {
        assert(members[i].0 == k[i] && members[j].0 == k[j]);
    }
    lemma_members_are_read(members);
    assert(members[0].0 == "fact_id"@ && members[1].0 == "fact_text"@ && members[2].0 == "predicate"@ && members[3].0 == "score"@ && members[4].0 == "subject"@ && members[5].0 == "object"@ && members[6].0 == "valid_from_ms"@ && members[7].0 == "valid_to_ms"@ && members[8].0 == "recorded_at_ms"@ && members[9].0 == "path"@);
}

/// What is noted of a match says which record was found, and by which path.
pub proof fn match_notes_are_read_back(u: RecordUnitView)
    ensures
        json::json_get(graph_context::match_json(u), "kind"@) == Some(JsonView::Text("evidence_record"@)),
        json::json_get(graph_context::match_json(u), "match_kind"@) == Some(JsonView::Text("lexical"@)),
        json::json_get(graph_context::match_json(u), "record_id"@) == Some(JsonView::Text(u.record.id)),
        json::json_get(graph_context::match_json(u), "score"@) == Some(JsonView::Float(u.score_text)),
        json::json_get(graph_context::match_json(u), "path"@) == Some(graph_context::text_list(u.path)),
{
    lemma_match_keys_differ();
    let k = seq![
        "kind"@,
        "match_kind"@,
        "record_id"@,
        "score"@,
        "path"@,
    ];
    let members = seq![
        ("kind"@, JsonView::Text("evidence_record"@)),
        ("match_kind"@, JsonView::Text("lexical"@)),
        ("record_id"@, JsonView::Text(u.record.id)),
        ("score"@, JsonView::Float(u.score_text)),
        ("path"@, graph_context::text_list(u.path)),
    ];
    assert(graph_context::match_json(u) == graph_context::object_of(members));
    assert forall|i: int, j: int|
        #![trigger members[i], members[j]]
        0 <= i < j < members.len() implies members[i].0 != members[j].0 by {
        assert(members[i].0 == k[i] && members[j].0 == k[j]);
    }
    lemma_members_are_read(members);
    assert(members[0].0 == "kind"@ && members[1].0 == "match_kind"@ && members[2].0 == "record_id"@ && members[3].0 == "score"@ && members[4].0 == "path"@);
}

/// What is noted of an entity is its id, its name and its type.
pub proof fn entity_notes_are_read_back(e: EntityView)
    ensures
        json::json_get(graph_context::entity_json(e), "id"@) == Some(JsonView::Text(e.id)),
        json::json_get(graph_context::entity_json(e), "name"@) == Some(JsonView::Text(e.canonical_name)),
        json::json_get(graph_context::entity_json(e), "entity_type"@) == Some(JsonView::Text(e.entity_type)),
{
    lemma_entity_keys_differ();
    let k = seq![
        "id"@,
        "name"@,
        "entity_type"@,
    ];
    let members = seq![
        ("id"@, JsonView::Text(e.id)),
        ("name"@, JsonView::Text(e.canonical_name)),
        ("entity_type"@, JsonView::Text(e.entity_type)),
    ];
    assert(graph_context::entity_json(e) == graph_context::object_of(members));
    assert forall|i: int, j: int|
        #![trigger members[i], members[j]]
        0 <= i < j < members.len() implies members[i].0 != members[j].0 by {
        assert(members[i].0 == k[i] && members[j].0 == k[j]);
    }
    lemma_members_are_read(members);
    assert(members[0].0 == "id"@ && members[1].0 == "name"@ && members[2].0 == "entity_type"@);
}

/// A model is shown the record as it is, with its text and its metadata.
pub proof fn records_are_shown_as_they_are(i: GraphExtractionInput)
    ensures
        json::json_get(graph_llm::record_json(i), "memory_space_id"@) == Some(JsonView::Text(i.memory_space_id@)),
        json::json_get(graph_llm::record_json(i), "memory_record_id"@) == Some(JsonView::Text(i.memory_record_id@)),
        json::json_get(graph_llm::record_json(i), "metadata"@) == Some(i.metadata@),
        json::json_get(graph_llm::record_json(i), "source_context"@) == Some(graph_llm::source_context(i.metadata@)),
        json::json_get(graph_llm::record_json(i), "context_record_ids"@) == Some(graph_context::text_list(text::strings(i.context_record_ids@))),
        json::json_get(graph_llm::record_json(i), "type_registry_version"@) == Some(JsonView::Text(i.type_registry_version@)),
        json::json_get(graph_llm::record_json(i), "text"@) == Some(JsonView::Text(i.text@)),
{
    lemma_record_keys_differ();
    let k = seq![
        "memory_space_id"@,
        "memory_record_id"@,
        "metadata"@,
        "source_context"@,
        "context_record_ids"@,
        "type_registry_version"@,
        "text"@,
    ];
    let members = seq![
        ("memory_space_id"@, JsonView::Text(i.memory_space_id@)),
        ("memory_record_id"@, JsonView::Text(i.memory_record_id@)),
        ("metadata"@, i.metadata@),
        ("source_context"@, graph_llm::source_context(i.metadata@)),
        ("context_record_ids"@, graph_context::text_list(text::strings(i.context_record_ids@))),
        ("type_registry_version"@, JsonView::Text(i.type_registry_version@)),
        ("text"@, JsonView::Text(i.text@)),
    ];
    assert(graph_llm::record_json(i) == graph_context::object_of(members));
    assert forall|i: int, j: int|
        #![trigger members[i], members[j]]
        0 <= i < j < members.len() implies members[i].0 != members[j].0 by {
        assert(members[i].0 == k[i] && members[j].0 == k[j]);
    }
    lemma_members_are_read(members);
    assert(members[0].0 == "memory_space_id"@ && members[1].0 == "memory_record_id"@ && members[2].0 == "metadata"@ && members[3].0 == "source_context"@ && members[4].0 == "context_record_ids"@ && members[5].0 == "type_registry_version"@ && members[6].0 == "text"@);
}

/// A model is shown every field of a predicate.
pub proof fn predicates_are_shown_as_they_are(p: PredicateView)
    ensures
        json::json_get(graph_llm::predicate_json(p), "name"@) == Some(JsonView::Text(p.name)),
        json::json_get(graph_llm::predicate_json(p), "description"@) == Some(JsonView::Text(p.description)),
        json::json_get(graph_llm::predicate_json(p), "temporal_kind"@) == Some(graph_llm::text_or_null(p.temporal_kind)),
        json::json_get(graph_llm::predicate_json(p), "cardinality"@) == Some(graph_llm::text_or_null(p.cardinality)),
        json::json_get(graph_llm::predicate_json(p), "overlap_allowed"@) == Some(match p.overlap_allowed {
            Some(b) => JsonView::Bool(b),
            None => JsonView::Null,
        }),
        json::json_get(graph_llm::predicate_json(p), "symmetric"@) == Some(JsonView::Bool(p.symmetric)),
{
    lemma_predicate_keys_differ();
    let k = seq![
        "name"@,
        "description"@,
        "temporal_kind"@,
        "cardinality"@,
        "overlap_allowed"@,
        "symmetric"@,
    ];
    let members = seq![
        ("name"@, JsonView::Text(p.name)),
        ("description"@, JsonView::Text(p.description)),
        ("temporal_kind"@, graph_llm::text_or_null(p.temporal_kind)),
        ("cardinality"@, graph_llm::text_or_null(p.cardinality)),
        ("overlap_allowed"@, match p.overlap_allowed {
            Some(b) => JsonView::Bool(b),
            None => JsonView::Null,
        }),
        ("symmetric"@, JsonView::Bool(p.symmetric)),
    ];
    assert(graph_llm::predicate_json(p) == graph_context::object_of(members));
    assert forall|i: int, j: int|
        #![trigger members[i], members[j]]
        0 <= i < j < members.len() implies members[i].0 != members[j].0 by {
        assert(members[i].0 == k[i] && members[j].0 == k[j]);
    }
    lemma_members_are_read(members);
    assert(members[0].0 == "name"@ && members[1].0 == "description"@ && members[2].0 == "temporal_kind"@ && members[3].0 == "cardinality"@ && members[4].0 == "overlap_allowed"@ && members[5].0 == "symmetric"@);
}

/// The memory record of a graph record has its text, its embedding and its times,
/// goes by the reference to its source where there is one, and names the agent
/// that wrote it beside what its metadata notes.
pub proof fn graph_records_become_memories(r: GraphRecordView, key: Seq<char>)
    ensures
        ({
            let m = memory_record_of(r);
            let named = r.source_ref is Some && !text::is_blank(r.source_ref->0);
            &&& m.text == r.text
            &&& m.created_at_ms == r.created_at_ms && m.updated_at_ms == r.updated_at_ms
            &&& named ==> m.id == text::trimmed(r.source_ref->0)
            &&& !named ==> m.id == r.id
            &&& r.embedding is Some ==> m.embedding == r.embedding->0
            &&& r.embedding is None ==> m.embedding.len() == 0
            &&& r.created_by_agent_id is None ==> m.metadata == r.metadata
            &&& r.created_by_agent_id is Some ==> json::json_get(m.metadata, "source_agent_id"@)
                == Some(JsonView::Text(r.created_by_agent_id->0))
            &&& r.metadata is Object && key != "source_agent_id"@ ==> json::json_get(
                m.metadata,
                key,
            ) == json::json_get(r.metadata, key)
        }),
{
    if r.created_by_agent_id is Some {
        let agent = JsonView::Text(r.created_by_agent_id->0);
        let base = json::as_object_or_empty(r.metadata);
        json::put_then_get(base, "source_agent_id"@, agent, "source_agent_id"@);
        json::put_then_get(base, "source_agent_id"@, agent, key);
    }
}

/// Two finds of one record keep the higher of their scores, and all of the record
/// that was found first but for what is noted in its metadata.
pub proof fn the_higher_score_stays(a: ScoredView, b: ScoredView, by_match: bool)
    ensures
        ({
            let both = combined(a, b, by_match);
            &&& both.score >= a.score && both.score >= b.score
            &&& both.score == a.score || both.score == b.score
            &&& both.record.id == a.record.id
            &&& both.record.text == a.record.text
            &&& both.record.embedding == a.record.embedding
            &&& both.record.created_at_ms == a.record.created_at_ms
            &&& both.record.updated_at_ms == a.record.updated_at_ms
        }),
{
}

/// A find has the score of the fact or the match that led to it, and is the record
/// that it led to.
pub proof fn finds_have_the_score_that_led_there(
    u: FactUnitView,
    r: GraphRecordView,
    m: RecordUnitView,
)
    ensures
        fact_find(u, r).score == u.score,
        fact_find(u, r).record.id == memory_record_of(r).id,
        fact_find(u, r).record.text == r.text,
        record_find(m).score == m.score,
        record_find(m).record.id == memory_record_of(m.record).id,
        record_find(m).record.text == m.record.text,
{
}

/// An answer in a fence without a language, or for JSON, is what stands between the
/// first line and the last fence, trimmed; an answer without a fence is taken as it
/// is, trimmed.
pub proof fn fences_are_taken_off(s: Seq<char>, language: Seq<char>, body: Seq<char>)
    requires
        language.len() == 0 || text::same_ignoring_case(language, "json"@),
        text::trimmed(language) == language,
        forall|i: int| 0 <= i < language.len() ==> #[trigger] language[i] != '\n',
        text::trimmed(s) == "```"@ + language + seq!['\n'] + body + "```"@,
    ensures
        graph_llm::unfenced(s) == text::trimmed(body),
{
    reveal_strlit("```");
    let t = text::trimmed(s);
    let after = t.skip(3);
    assert(t.take(3) =~= "```"@);
    assert(t.subrange(0, 3) =~= "```"@);
    assert(after =~= language + seq!['\n'] + body + "```"@);
    lemma_first_feed(after, language.len() as int);
    assert(after.take(language.len() as int) =~= language);
    let rest = after.skip(language.len() as int + 1);
    assert(rest =~= body + "```"@);
    assert(rest.subrange(body.len() as int, body.len() as int + 3) =~= "```"@);
    assert(text::stands_at(rest, "```"@, body.len() as int));
    assert(rest.take(body.len() as int) =~= body);
}

proof fn lemma_first_feed(s: Seq<char>, n: int)
    requires
        0 <= n < s.len(),
        s[n] == '\n',
        forall|i: int| 0 <= i < n ==> #[trigger] s[i] != '\n',
    ensures
        text::char_position(s, '\n') == n,
    decreases n,
{
    if n > 0 {
        assert(s[0] != '\n');
        let t = s.drop_first();
        assert forall|i: int| 0 <= i < n - 1 implies #[trigger] t[i] != '\n' by {
            assert(t[i] == s[i + 1]);
        }
        lemma_first_feed(t, n - 1);
    }
}

/// An answer that starts with no fence is taken as it is, without the space around
/// it.
pub proof fn plain_answers_are_taken_as_they_are(s: Seq<char>)
    requires
        !text::starts_with(text::trimmed(s), "```"@),
    ensures
        graph_llm::unfenced(s) == text::trimmed(s),
{
}

proof fn lemma_context_keys_differ()
    ensures
        ({
            let k = seq![
                "speaker"@,
                "session_id"@,
                "turn_index"@,
                "session_timestamp"@,
                "observed_at_ms"@,
            ];
            forall|i: int, j: int|
                #![trigger k[i], k[j]]
                0 <= i < j < k.len() ==> k[i] != k[j]
        }),
{
    reveal_strlit("speaker");
    reveal_strlit("session_id");
    reveal_strlit("turn_index");
    reveal_strlit("session_timestamp");
    reveal_strlit("observed_at_ms");
    assert("speaker"@.len() == 7);
    assert("session_id"@.len() == 10);
    assert("turn_index"@.len() == 10);
    assert("session_timestamp"@.len() == 17);
    assert("observed_at_ms"@.len() == 14);
    assert("session_id"@[0] == 's');
    assert("turn_index"@[0] == 't');
}

proof fn lemma_field_kept(context: JsonView, metadata: JsonView, field: Seq<char>, key: Seq<char>)
    requires
        context is Object,
    ensures
        graph_llm::with_field(context, metadata, field) is Object,
        key != field ==> json::json_get(graph_llm::with_field(context, metadata, field), key)
            == json::json_get(context, key),
        json::json_get(context, field) is None ==> json::json_get(
            graph_llm::with_field(context, metadata, field),
            field,
        ) == json::json_get(metadata, field),
{
    if json::json_get(metadata, field) is Some {
        let v = json::json_get(metadata, field)->0;
        json::put_then_get(context, field, v, field);
        json::put_then_get(context, field, v, key);
    }
}

/// Whether a key is one of those that tell who spoke, when and where.
pub open spec fn is_context_key(key: Seq<char>) -> bool {
    key == "session_id"@ || key == "turn_index"@ || key == "session_timestamp"@ || key
        == "observed_at_ms"@
}

/// A model is told the session, the turn and the times that metadata tells, and who
/// spoke: the speaker that it tells, or else the name of the declared source.
pub proof fn models_are_told_who_spoke(metadata: JsonView, key: Seq<char>)
    ensures
        is_context_key(key) ==> json::json_get(graph_llm::source_context(metadata), key)
            == json::json_get(metadata, key),
        json::json_get(metadata, "speaker"@) is Some ==> json::json_get(
            graph_llm::source_context(metadata),
            "speaker"@,
        ) == json::json_get(metadata, "speaker"@),
        json::json_get(metadata, "speaker"@) is None ==> json::json_get(
            graph_llm::source_context(metadata),
            "speaker"@,
        ) == (match graph_llm::source_name(metadata) {
            Some(name) => Some(JsonView::Text(name)),
            None => None,
        }),
{
    lemma_context_keys_differ();
    let k = seq![
        "speaker"@,
        "session_id"@,
        "turn_index"@,
        "session_timestamp"@,
        "observed_at_ms"@,
    ];
    assert(k[0] == "speaker"@ && k[1] == "session_id"@ && k[2] == "turn_index"@ && k[3]
        == "session_timestamp"@ && k[4] == "observed_at_ms"@);
    assert(k[0] != k[1] && k[0] != k[2] && k[0] != k[3] && k[0] != k[4] && k[1] != k[2] && k[1]
        != k[3] && k[1] != k[4] && k[2] != k[3] && k[2] != k[4] && k[3] != k[4]);
    let none = json::empty_object();
    let a = graph_llm::with_field(none, metadata, k[0]);
    let b = if json::json_get(a, k[0]) is None && graph_llm::source_name(metadata) is Some {
        json::json_put(a, k[0], JsonView::Text(graph_llm::source_name(metadata)->0))
    } else {
        a
    };
    let c = graph_llm::with_field(b, metadata, k[1]);
    let d = graph_llm::with_field(c, metadata, k[2]);
    let e = graph_llm::with_field(d, metadata, k[3]);
    assert forall|i: int| 0 <= i < 5 implies json::json_get(none, #[trigger] k[i]) is None by {}
    lemma_field_kept(none, metadata, k[0], key);
    lemma_field_kept(none, metadata, k[0], k[1]);
    lemma_field_kept(none, metadata, k[0], k[2]);
    lemma_field_kept(none, metadata, k[0], k[3]);
    lemma_field_kept(none, metadata, k[0], k[4]);
    if json::json_get(a, k[0]) is None && graph_llm::source_name(metadata) is Some {
        let v = JsonView::Text(graph_llm::source_name(metadata)->0);
        json::put_then_get(a, k[0], v, k[0]);
        json::put_then_get(a, k[0], v, k[1]);
        json::put_then_get(a, k[0], v, k[2]);
        json::put_then_get(a, k[0], v, k[3]);
        json::put_then_get(a, k[0], v, k[4]);
    }
    lemma_field_kept(b, metadata, k[1], k[0]);
    lemma_field_kept(b, metadata, k[1], k[2]);
    lemma_field_kept(b, metadata, k[1], k[3]);
    lemma_field_kept(b, metadata, k[1], k[4]);
    lemma_field_kept(c, metadata, k[2], k[0]);
    lemma_field_kept(c, metadata, k[2], k[1]);
    lemma_field_kept(c, metadata, k[2], k[3]);
    lemma_field_kept(c, metadata, k[2], k[4]);
    lemma_field_kept(d, metadata, k[3], k[0]);
    lemma_field_kept(d, metadata, k[3], k[1]);
    lemma_field_kept(d, metadata, k[3], k[2]);
    lemma_field_kept(d, metadata, k[3], k[4]);
    lemma_field_kept(e, metadata, k[4], k[0]);
    lemma_field_kept(e, metadata, k[4], k[1]);
    lemma_field_kept(e, metadata, k[4], k[2]);
    lemma_field_kept(e, metadata, k[4], k[3]);
}

/// Whether two matches tell of one record in one way.
pub open spec fn tell_the_same(a: JsonView, b: JsonView) -> bool {
    forall|key: Seq<char>|
        key == "record_id"@ || key == "kind"@ || key == "match_kind"@ ==> #[trigger]
            json::json_get_text(a, key) == json::json_get_text(b, key)
}

/// A match is listed behind the others, unless one of them tells of the same record
/// in the same way.
pub proof fn matches_are_listed_once(metadata: JsonView, found: JsonView, i: int)
    requires
        metadata is Object,
    ensures
        ({
            let matches = graph_context::list_under(metadata, "graph_matches"@);
            let after = graph_context::list_under(
                graph_context::with_match(metadata, found),
                "graph_matches"@,
            );
            &&& 0 <= i < matches.len() && tell_the_same(matches[i], found) ==> after == matches
            &&& (forall|k: int|
                0 <= k < matches.len() ==> !tell_the_same(#[trigger] matches[k], found))
                ==> after == matches.push(found)
        }),
{
    let matches = graph_context::list_under(metadata, "graph_matches"@);
    assert forall|k: int| 0 <= k < matches.len() implies tell_the_same(
        #[trigger] matches[k],
        found,
    ) == graph_context::same_match(matches[k], found) by {
        if tell_the_same(matches[k], found) {
            let a = matches[k];
            assert(json::json_get_text(a, "record_id"@) == json::json_get_text(
                found,
                "record_id"@,
            ));
            assert(json::json_get_text(a, "kind"@) == json::json_get_text(found, "kind"@));
            assert(json::json_get_text(a, "match_kind"@) == json::json_get_text(
                found,
                "match_kind"@,
            ));
        }
    }
    let listed = if graph_context::match_is_listed(matches, found) {
        matches
    } else {
        matches.push(found)
    };
    json::put_then_get(
        metadata,
        "graph_matches"@,
        JsonView::Array(listed),
        "graph_matches"@,
    );
    if 0 <= i < matches.len() && tell_the_same(matches[i], found) {
        assert(graph_context::same_match(matches[i], found));
    }
}

} // verus!
