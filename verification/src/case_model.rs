//! What a library of case documents is made of, and what is asked of it.

use vstd::prelude::*;
use vstd::string::*;

use crate::json;
use crate::text;
use crate::text::clone_opt;

verus! {

/// Why an operation on a library failed.
#[derive(Debug)]
pub struct CaseError {
    pub message: String,
}

impl CaseError {
    pub fn new(message: &str) -> (r: Self)
        ensures
            r.message@ == message@,
    {
        CaseError { message: message.to_owned() }
    }
}

pub fn clone_indices(v: &Vec<usize>) -> (r: Vec<usize>)
    ensures
        r@ == v@,
{
    let mut r: Vec<usize> = Vec::new();
    let mut i: usize = 0;
    while i < v.len()
        invariant
            i <= v@.len(),
            r@ == v@.take(i as int),
        decreases v@.len() - i,
    {
        r.push(v[i]);
        i += 1;
        assert(r@ =~= v@.take(i as int));
    }
    assert(v@.take(i as int) =~= v@);
    r
}

/// A library of documents.
#[derive(Debug)]
pub struct Dataset {
    pub id: String,
    pub name: String,
    pub description: Option<String>,
    pub created_at_ms: u64,
    pub updated_at_ms: u64,
}

/// What a [`Dataset`] stands for.
pub struct DatasetView {
    pub id: Seq<char>,
    pub name: Seq<char>,
    pub description: Option<Seq<char>>,
    pub created_at_ms: u64,
    pub updated_at_ms: u64,
}

impl View for Dataset {
    type V = DatasetView;

    open spec fn view(&self) -> DatasetView {
        DatasetView {
            id: self.id@,
            name: self.name@,
            description: json::opt_string(self.description),
            created_at_ms: self.created_at_ms,
            updated_at_ms: self.updated_at_ms,
        }
    }
}

impl Clone for Dataset {
    fn clone(&self) -> (r: Self)
        ensures
            r@ == self@,
    {
        Dataset {
            id: self.id.clone(),
            name: self.name.clone(),
            description: clone_opt(&self.description),
            created_at_ms: self.created_at_ms,
            updated_at_ms: self.updated_at_ms,
        }
    }
}

pub open spec fn dataset_views(v: Seq<Dataset>) -> Seq<DatasetView> {
    Seq::new(v.len(), |i: int| v[i]@)
}

/// A document of a library and how far it is processed.
#[derive(Debug)]
pub struct Document {
    pub id: String,
    pub dataset_id: String,
    pub name: String,
    pub file_path: String,
    pub mime_type: Option<String>,
    pub size_bytes: u64,
    pub status: String,
    pub chunk_count: usize,
    pub error: Option<String>,
    pub created_at_ms: u64,
    pub updated_at_ms: u64,
}

/// What a [`Document`] stands for.
pub struct DocumentView {
    pub id: Seq<char>,
    pub dataset_id: Seq<char>,
    pub name: Seq<char>,
    pub file_path: Seq<char>,
    pub mime_type: Option<Seq<char>>,
    pub size_bytes: u64,
    pub status: Seq<char>,
    pub chunk_count: usize,
    pub error: Option<Seq<char>>,
    pub created_at_ms: u64,
    pub updated_at_ms: u64,
}

impl View for Document {
    type V = DocumentView;

    open spec fn view(&self) -> DocumentView {
        DocumentView {
            id: self.id@,
            dataset_id: self.dataset_id@,
            name: self.name@,
            file_path: self.file_path@,
            mime_type: json::opt_string(self.mime_type),
            size_bytes: self.size_bytes,
            status: self.status@,
            chunk_count: self.chunk_count,
            error: json::opt_string(self.error),
            created_at_ms: self.created_at_ms,
            updated_at_ms: self.updated_at_ms,
        }
    }
}

impl Clone for Document {
    fn clone(&self) -> (r: Self)
        ensures
            r@ == self@,
    {
        Document {
            id: self.id.clone(),
            dataset_id: self.dataset_id.clone(),
            name: self.name.clone(),
            file_path: self.file_path.clone(),
            mime_type: clone_opt(&self.mime_type),
            size_bytes: self.size_bytes,
            status: self.status.clone(),
            chunk_count: self.chunk_count,
            error: clone_opt(&self.error),
            created_at_ms: self.created_at_ms,
            updated_at_ms: self.updated_at_ms,
        }
    }
}

pub open spec fn document_views(v: Seq<Document>) -> Seq<DocumentView> {
    Seq::new(v.len(), |i: int| v[i]@)
}

/// The task of cutting and indexing a document.
#[derive(Debug)]
pub struct IngestionTask {
    pub id: String,
    pub dataset_id: String,
    pub document_id: String,
    pub status: String,
    pub error: Option<String>,
    pub created_at_ms: u64,
    pub updated_at_ms: u64,
    pub started_at_ms: Option<u64>,
    pub completed_at_ms: Option<u64>,
}

/// What a [`IngestionTask`] stands for.
pub struct TaskView {
    pub id: Seq<char>,
    pub dataset_id: Seq<char>,
    pub document_id: Seq<char>,
    pub status: Seq<char>,
    pub error: Option<Seq<char>>,
    pub created_at_ms: u64,
    pub updated_at_ms: u64,
    pub started_at_ms: Option<u64>,
    pub completed_at_ms: Option<u64>,
}

impl View for IngestionTask {
    type V = TaskView;

    open spec fn view(&self) -> TaskView {
        TaskView {
            id: self.id@,
            dataset_id: self.dataset_id@,
            document_id: self.document_id@,
            status: self.status@,
            error: json::opt_string(self.error),
            created_at_ms: self.created_at_ms,
            updated_at_ms: self.updated_at_ms,
            started_at_ms: self.started_at_ms,
            completed_at_ms: self.completed_at_ms,
        }
    }
}

impl Clone for IngestionTask {
    fn clone(&self) -> (r: Self)
        ensures
            r@ == self@,
    {
        IngestionTask {
            id: self.id.clone(),
            dataset_id: self.dataset_id.clone(),
            document_id: self.document_id.clone(),
            status: self.status.clone(),
            error: clone_opt(&self.error),
            created_at_ms: self.created_at_ms,
            updated_at_ms: self.updated_at_ms,
            started_at_ms: self.started_at_ms,
            completed_at_ms: self.completed_at_ms,
        }
    }
}

pub open spec fn task_views(v: Seq<IngestionTask>) -> Seq<TaskView> {
    Seq::new(v.len(), |i: int| v[i]@)
}

/// A chunk of a document.
#[derive(Debug)]
pub struct Chunk {
    pub id: String,
    pub dataset_id: String,
    pub document_id: String,
    pub chunk_index: usize,
    pub content: String,
    pub chunk_type: String,
    pub token_count: usize,
    pub parse_topology: String,
    pub source_node_indices: Vec<usize>,
    pub available: bool,
    pub created_at_ms: u64,
    pub updated_at_ms: u64,
}

/// What a [`Chunk`] stands for.
pub struct ChunkView {
    pub id: Seq<char>,
    pub dataset_id: Seq<char>,
    pub document_id: Seq<char>,
    pub chunk_index: usize,
    pub content: Seq<char>,
    pub chunk_type: Seq<char>,
    pub token_count: usize,
    pub parse_topology: Seq<char>,
    pub source_node_indices: Seq<usize>,
    pub available: bool,
    pub created_at_ms: u64,
    pub updated_at_ms: u64,
}

impl View for Chunk {
    type V = ChunkView;

    open spec fn view(&self) -> ChunkView {
        ChunkView {
            id: self.id@,
            dataset_id: self.dataset_id@,
            document_id: self.document_id@,
            chunk_index: self.chunk_index,
            content: self.content@,
            chunk_type: self.chunk_type@,
            token_count: self.token_count,
            parse_topology: self.parse_topology@,
            source_node_indices: self.source_node_indices@,
            available: self.available,
            created_at_ms: self.created_at_ms,
            updated_at_ms: self.updated_at_ms,
        }
    }
}

impl Clone for Chunk {
    fn clone(&self) -> (r: Self)
        ensures
            r@ == self@,
    {
        Chunk {
            id: self.id.clone(),
            dataset_id: self.dataset_id.clone(),
            document_id: self.document_id.clone(),
            chunk_index: self.chunk_index,
            content: self.content.clone(),
            chunk_type: self.chunk_type.clone(),
            token_count: self.token_count,
            parse_topology: self.parse_topology.clone(),
            source_node_indices: clone_indices(&self.source_node_indices),
            available: self.available,
            created_at_ms: self.created_at_ms,
            updated_at_ms: self.updated_at_ms,
        }
    }
}

pub open spec fn chunk_views(v: Seq<Chunk>) -> Seq<ChunkView> {
    Seq::new(v.len(), |i: int| v[i]@)
}

/// What is needed of a document to read its file.
#[derive(Debug)]
pub struct StoredDocument {
    pub id: String,
    pub dataset_id: String,
    pub name: String,
    pub file_path: String,
    pub mime_type: Option<String>,
}

/// What a [`StoredDocument`] stands for.
pub struct StoredDocumentView {
    pub id: Seq<char>,
    pub dataset_id: Seq<char>,
    pub name: Seq<char>,
    pub file_path: Seq<char>,
    pub mime_type: Option<Seq<char>>,
}

impl View for StoredDocument {
    type V = StoredDocumentView;

    open spec fn view(&self) -> StoredDocumentView {
        StoredDocumentView {
            id: self.id@,
            dataset_id: self.dataset_id@,
            name: self.name@,
            file_path: self.file_path@,
            mime_type: json::opt_string(self.mime_type),
        }
    }
}

impl Clone for StoredDocument {
    fn clone(&self) -> (r: Self)
        ensures
            r@ == self@,
    {
        StoredDocument {
            id: self.id.clone(),
            dataset_id: self.dataset_id.clone(),
            name: self.name.clone(),
            file_path: self.file_path.clone(),
            mime_type: clone_opt(&self.mime_type),
        }
    }
}

#[derive(Debug)]
pub struct CreateDatasetRequest {
    pub id: Option<String>,
    pub name: String,
    pub description: Option<String>,
}

#[derive(Debug)]
pub struct ListDatasetsResponse {
    pub datasets: Vec<Dataset>,
}

#[derive(Debug)]
pub struct CreateDocumentFileRequest {
    pub id: Option<String>,
    pub task_id: Option<String>,
    pub name: String,
    pub file_name: String,
    pub mime_type: Option<String>,
    pub bytes: Vec<u8>,
}

#[derive(Debug)]
pub struct CreateDocumentResponse {
    pub document_id: String,
    pub task_id: String,
}

#[derive(Debug)]
pub struct UpdateDocumentFileRequest {
    pub task_id: Option<String>,
    pub name: Option<String>,
    pub file_name: Option<String>,
    pub mime_type: Option<String>,
    pub bytes: Option<Vec<u8>>,
}

#[derive(Debug)]
pub struct UpdateDocumentResponse {
    pub document_id: String,
    pub task_id: String,
}

#[derive(Debug)]
pub struct DeleteDocumentResponse {
    pub document_id: String,
    pub deleted: bool,
}

#[derive(Debug)]
pub struct ListDocumentsResponse {
    pub documents: Vec<Document>,
}

#[derive(Debug)]
pub struct ListChunksResponse {
    pub chunks: Vec<Chunk>,
    pub total: usize,
}

#[derive(Debug)]
pub struct SearchRequest {
    pub query: String,
    pub top_k: usize,
}

/// A chunk that a search returns. The score stands as its place in the order of
/// scores.
#[derive(Debug)]
pub struct SearchChunk {
    pub chunk_id: String,
    pub context_chunk_ids: Vec<String>,
    pub dataset_id: String,
    pub document_id: String,
    pub source_name: Option<String>,
    pub source_path: Option<String>,
    pub content: String,
    pub score: i32,
}

/// What a [`SearchChunk`] stands for.
pub struct SearchChunkView {
    pub chunk_id: Seq<char>,
    pub context_chunk_ids: Seq<Seq<char>>,
    pub dataset_id: Seq<char>,
    pub document_id: Seq<char>,
    pub source_name: Option<Seq<char>>,
    pub source_path: Option<Seq<char>>,
    pub content: Seq<char>,
    pub score: int,
}

impl View for SearchChunk {
    type V = SearchChunkView;

    open spec fn view(&self) -> SearchChunkView {
        SearchChunkView {
            chunk_id: self.chunk_id@,
            context_chunk_ids: text::strings(self.context_chunk_ids@),
            dataset_id: self.dataset_id@,
            document_id: self.document_id@,
            source_name: json::opt_string(self.source_name),
            source_path: json::opt_string(self.source_path),
            content: self.content@,
            score: self.score as int,
        }
    }
}

pub open spec fn search_chunk_views(v: Seq<SearchChunk>) -> Seq<SearchChunkView> {
    Seq::new(v.len(), |i: int| v[i]@)
}

#[derive(Debug)]
pub struct SearchResponse {
    pub chunks: Vec<SearchChunk>,
}

#[derive(Debug)]
pub struct ChatCompletionResponse {
    pub answer: String,
    pub references: Vec<SearchChunk>,
}

#[derive(Debug)]
pub struct ChatCompletionRequest {
    pub dataset_id: String,
    pub question: String,
    pub top_k: usize,
}

/// How many results a search returns unless it says otherwise.
pub const DEFAULT_TOP_K: usize = 5;

} // verus!
