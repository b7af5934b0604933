//! The service of a case library: what it does with documents that are
//! uploaded, changed, deleted and processed, and how it answers.

use vstd::prelude::*;
use vstd::string::*;

use crate::api::AddMemoryRequest;
use crate::bench_run;
use crate::bench_run::AddView;
use crate::case_chunker;
use crate::case_chunker::{chunk_parse_result, ChunkPart, ChunkerConfig, PartView, TokenCounter};
use crate::case_llm::DocumentSummaryClient;
use crate::case_model;
use crate::case_model::{
    clone_indices, CaseError, ChatCompletionResponse, Chunk, ChunkView, CreateDatasetRequest,
    CreateDocumentFileRequest, CreateDocumentResponse, Dataset, DeleteDocumentResponse,
    IngestionTask, ListChunksResponse, ListDatasetsResponse, ListDocumentsResponse, SearchChunk,
    SearchChunkView, StoredDocument, StoredDocumentView, UpdateDocumentFileRequest,
    UpdateDocumentResponse,
};
use crate::case_parser;
use crate::case_parser::{DocumentFormat, ParseTopology, ParserEngine};
use crate::case_profile;
use crate::case_profile::{build_chunk_memory_request, build_document_summary_memory_request};
use crate::case_store;
use crate::case_store::{request_id_or_uuid, LibraryView, RagRepository};
use crate::case_summary;
use crate::case_summary::{choose_document_search_text, truncate_chars};
use crate::json;
use crate::order;
use crate::scan;
use crate::scan::{path_file_name, path_join};
use crate::text;
use crate::text::{
    clone_opt, join_texts, lemma_strings_push, push_decimal, text_contains, text_eq, trim,
};

verus! {

/// How a service is set up.
#[derive(Debug)]
pub struct RagConfig {
    pub file_root: String,
    pub chunk_size: usize,
    pub summary_llm: Option<DocumentSummaryClient>,
}

/// A service on the tables of a library.
#[derive(Debug)]
pub struct RagService {
    pub repo: RagRepository,
    pub config: RagConfig,
}

/// The file name at the end of a path, without the space around it.
pub open spec fn safe_name(path: Seq<char>) -> Seq<char> {
    match scan::file_name_of(path) {
        Some(name) => text::trimmed(name),
        None => Seq::empty(),
    }
}

/// The file name at the end of a path.
pub fn safe_file_name(file_name: &str) -> (r: Result<String, CaseError>)
    ensures
        match r {
            Ok(name) => name@ == safe_name(file_name@) && name@.len() > 0,
            Err(e) => safe_name(file_name@).len() == 0 && e.message@
                == "file name must not be empty"@,
        },
{
    match path_file_name(file_name) {
        Some(name) => {
            let name = trim(name.as_str());
            if name.is_empty() {
                Err(CaseError::new("file name must not be empty"))
            } else {
                Ok(name.to_owned())
            }
        },
        None => Err(CaseError::new("file name must not be empty")),
    }
}

/// What is to be stored of a document that is uploaded or changed.
#[derive(Debug)]
pub struct DocumentPlan {
    pub document_id: String,
    pub task_id: String,
    pub name: String,
    pub file_path: String,
    pub mime_type: Option<String>,
    pub size_bytes: u64,
}

/// What a [`DocumentPlan`] stands for.
pub struct PlanView {
    pub document_id: Seq<char>,
    pub task_id: Seq<char>,
    pub name: Seq<char>,
    pub file_path: Seq<char>,
    pub mime_type: Option<Seq<char>>,
    pub size_bytes: int,
}

impl View for DocumentPlan {
    type V = PlanView;

    open spec fn view(&self) -> PlanView {
        PlanView {
            document_id: self.document_id@,
            task_id: self.task_id@,
            name: self.name@,
            file_path: self.file_path@,
            mime_type: json::opt_string(self.mime_type),
            size_bytes: self.size_bytes as int,
        }
    }
}

/// Where the file of a document is kept.
pub open spec fn document_path(
    root: Seq<char>,
    dataset_id: Seq<char>,
    document_id: Seq<char>,
    file_name: Seq<char>,
) -> Seq<char> {
    scan::joined_path(
        scan::joined_path(scan::joined_path(root, dataset_id), document_id),
        file_name,
    )
}

fn document_file_path(root: &str, dataset_id: &str, document_id: &str, file_name: &str) -> (r: String)
    ensures
        r@ == document_path(root@, dataset_id@, document_id@, file_name@),
{
    let folder = path_join(path_join(root, dataset_id).as_str(), document_id);
    path_join(folder.as_str(), file_name)
}

/// What is wrong with a document that is uploaded, if anything.
pub open spec fn upload_problem(
    l: LibraryView,
    dataset_id: Seq<char>,
    r: CreateDocumentFileRequest,
) -> Option<Seq<char>> {
    case_store::or_else(
        case_store::problem_if(!case_store::has_dataset(l, dataset_id), "dataset not found"@),
        case_store::or_else(
            case_store::id_problem(json::opt_string(r.id), "document id"@),
            case_store::or_else(
                case_store::id_problem(json::opt_string(r.task_id), "task id"@),
                case_store::or_else(
                    case_store::problem_if(
                        r.bytes@.len() == 0,
                        "document file must not be empty"@,
                    ),
                    case_store::problem_if(
                        safe_name(r.file_name@).len() == 0,
                        "file name must not be empty"@,
                    ),
                ),
            ),
        ),
    )
}

/// Whether a plan stores a document as it is uploaded. A document without a name
/// is named after its file.
pub open spec fn stores_upload(
    p: PlanView,
    root: Seq<char>,
    dataset_id: Seq<char>,
    r: CreateDocumentFileRequest,
) -> bool {
    &&& case_store::is_chosen_id(json::opt_string(r.id), p.document_id)
    &&& case_store::is_chosen_id(json::opt_string(r.task_id), p.task_id)
    &&& p.name == (if text::is_blank(r.name@) {
        safe_name(r.file_name@)
    } else {
        text::trimmed(r.name@)
    })
    &&& p.file_path == document_path(root, dataset_id, p.document_id, safe_name(r.file_name@))
    &&& p.mime_type == json::opt_string(r.mime_type)
    &&& p.size_bytes == r.bytes@.len()
}

/// Where the document with an identifier stands in the tables.
pub open spec fn stands_first(l: LibraryView, id: Seq<char>, k: int) -> bool {
    &&& 0 <= k < l.documents.len()
    &&& l.documents[k].id == id
    &&& forall|i: int| 0 <= i < k ==> (#[trigger] l.documents[i]).id != id
}

pub open spec fn not_found(document_id: Seq<char>) -> Seq<char> {
    "document not found: "@ + document_id
}

/// The name that a document has after a change.
pub open spec fn changed_name(existing: StoredDocumentView, r: UpdateDocumentFileRequest) -> Seq<
    char,
> {
    match r.name {
        Some(n) => if text::is_blank(n@) {
            existing.name
        } else {
            text::trimmed(n@)
        },
        None => existing.name,
    }
}

/// What is wrong with a change of a document, if anything: it brings a file, or
/// at least a name.
pub open spec fn change_problem(r: UpdateDocumentFileRequest) -> Option<Seq<char>> {
    case_store::or_else(
        case_store::id_problem(json::opt_string(r.task_id), "task id"@),
        match r.bytes {
            Some(bytes) => case_store::or_else(
                case_store::problem_if(bytes@.len() == 0, "document file must not be empty"@),
                match r.file_name {
                    Some(n) => case_store::problem_if(
                        safe_name(n@).len() == 0,
                        "file name must not be empty"@,
                    ),
                    None => Some("file name is required when updating document file"@),
                },
            ),
            None => case_store::problem_if(
                r.name is None || text::is_blank(r.name->0@),
                "document update requires name or file"@,
            ),
        },
    )
}

/// Whether a plan stores a document as it is changed. What the change does not
/// bring stays as it was.
pub open spec fn stores_change(
    p: PlanView,
    root: Seq<char>,
    existing: StoredDocumentView,
    r: UpdateDocumentFileRequest,
    kept_size: u64,
) -> bool {
    &&& p.document_id == existing.id
    &&& case_store::is_chosen_id(json::opt_string(r.task_id), p.task_id)
    &&& p.name == changed_name(existing, r)
    &&& match r.bytes {
        Some(bytes) => {
            &&& p.file_path == document_path(
                root,
                existing.dataset_id,
                existing.id,
                safe_name(r.file_name->0@),
            )
            &&& p.mime_type == case_store::or_else(
                json::opt_string(r.mime_type),
                existing.mime_type,
            )
            &&& p.size_bytes == bytes@.len()
        },
        None => {
            &&& p.file_path == existing.file_path
            &&& p.mime_type == existing.mime_type
            &&& p.size_bytes == kept_size
        },
    }
}

fn as_opt_str(s: &Option<String>) -> (r: Option<&str>)
    ensures
        json::opt_text(r) == json::opt_string(*s),
{
    match s {
        Some(s) => Some(s.as_str()),
        None => None,
    }
}

/// What is to be stored of a document that is changed, given the size of the
/// file that it has.
pub fn plan_change(
    file_root: &str,
    existing: &StoredDocument,
    request: &UpdateDocumentFileRequest,
    kept_size: u64,
) -> (r: Result<DocumentPlan, CaseError>)
    ensures
        match r {
            Ok(p) => change_problem(*request) is None && stores_change(
                p@,
                file_root@,
                existing@,
                *request,
                kept_size,
            ),
            Err(e) => change_problem(*request) == Some(e.message@),
        },
{
    let mut named = false;
    let mut name = existing.name.clone();
    match &request.name {
        Some(n) => {
            let n = trim(n.as_str());
            if !n.is_empty() {
                named = true;
                name = n.to_owned();
            }
        },
        None => {},
    }
    let task_id = match request_id_or_uuid(as_opt_str(&request.task_id), "task id") {
        Ok(id) => id,
        Err(e) => return Err(e),
    };
    match &request.bytes {
        Some(bytes) => {
            if bytes.len() == 0 {
                return Err(CaseError::new("document file must not be empty"));
            }
            let file_name = match &request.file_name {
                Some(n) => match safe_file_name(n.as_str()) {
                    Ok(n) => n,
                    Err(e) => return Err(e),
                },
                None => return Err(
                    CaseError::new("file name is required when updating document file"),
                ),
            };
            let file_path = document_file_path(
                file_root,
                existing.dataset_id.as_str(),
                existing.id.as_str(),
                file_name.as_str(),
            );
            let mime_type = match &request.mime_type {
                Some(m) => Some(m.clone()),
                None => clone_opt(&existing.mime_type),
            };
            Ok(
                DocumentPlan {
                    document_id: existing.id.clone(),
                    task_id,
                    name,
                    file_path,
                    mime_type,
                    size_bytes: bytes.len() as u64,
                },
            )
        },
        None => {
            if !named {
                return Err(CaseError::new("document update requires name or file"));
            }
            Ok(
                DocumentPlan {
                    document_id: existing.id.clone(),
                    task_id,
                    name,
                    file_path: existing.file_path.clone(),
                    mime_type: clone_opt(&existing.mime_type),
                    size_bytes: kept_size,
                },
            )
        },
    }
}

/// Whether a file is no longer needed when another takes its place.
pub fn is_replaced_file(old_file_path: &str, new_file_path: &str) -> (r: bool)
    ensures
        r == (old_file_path@ != new_file_path@),
{
    !text_eq(old_file_path, new_file_path)
}

/// The chunk that a part of a document becomes.
pub open spec fn numbered_chunk(d: StoredDocumentView, p: PartView, i: int, now: u64) -> ChunkView {
    ChunkView {
        id: d.id + "_chunk_"@ + text::decimal_text(i as nat),
        dataset_id: d.dataset_id,
        document_id: d.id,
        chunk_index: i as usize,
        content: p.content,
        chunk_type: p.chunk_type.name(),
        token_count: p.token_count as usize,
        parse_topology: p.parse_topology.name(),
        source_node_indices: Seq::new(p.sources.len(), |j: int| p.sources[j] as usize),
        available: true,
        created_at_ms: now,
        updated_at_ms: now,
    }
}

pub open spec fn numbered_chunks(d: StoredDocumentView, parts: Seq<PartView>, now: u64) -> Seq<
    ChunkView,
> {
    Seq::new(parts.len(), |i: int| numbered_chunk(d, parts[i], i, now))
}

/// The chunks that the parts of a document become.
pub fn chunks_from_parts(document: &StoredDocument, parts: &Vec<ChunkPart>, now: u64) -> (r: Vec<
    Chunk,
>)
    ensures
        case_model::chunk_views(r@) == numbered_chunks(
            document@,
            case_chunker::part_views(parts@),
            now,
        ),
{
    let ghost wanted = numbered_chunks(document@, case_chunker::part_views(parts@), now);
    let mut r: Vec<Chunk> = Vec::new();
    let mut i: usize = 0;
    while i < parts.len()
        invariant
            i <= parts@.len(),
            wanted == numbered_chunks(document@, case_chunker::part_views(parts@), now),
            case_model::chunk_views(r@) =~= wanted.take(i as int),
        decreases parts@.len() - i,
    {
        let part = &parts[i];
        let mut id = document.id.clone();
        id.append("_chunk_");
        push_decimal(&mut id, i as u64);
        let chunk = Chunk {
            id,
            dataset_id: document.dataset_id.clone(),
            document_id: document.id.clone(),
            chunk_index: i,
            content: part.content.clone(),
            chunk_type: part.chunk_type.as_str().to_owned(),
            token_count: part.token_count,
            parse_topology: part.parse_topology.as_str().to_owned(),
            source_node_indices: clone_indices(&part.source_node_indices),
            available: true,
            created_at_ms: now,
            updated_at_ms: now,
        };
        proof {
            assert(case_chunker::part_views(parts@)[i as int] == part@);
            assert(chunk@.source_node_indices =~= wanted[i as int].source_node_indices);
            assert(chunk@ == wanted[i as int]);
        }
        let ghost before = r@;
        r.push(chunk);
        assert(case_model::chunk_views(r@) =~= case_model::chunk_views(before).push(chunk@));
        i += 1;
    }
    assert(case_model::chunk_views(r@) =~= wanted);
    r
}

/// The parts of a document with some content, or nothing where it cannot be
/// taken apart.
pub open spec fn parts_of<C: TokenCounter>(
    d: StoredDocumentView,
    content: Seq<char>,
    max_tokens: nat,
    counter: C,
) -> Option<Seq<PartView>> {
    let format = case_parser::document_format(d.file_path, d.mime_type, Some(d.name));
    if format == DocumentFormat::Unknown {
        None
    } else {
        match case_chunker::chunks_of(
            case_parser::nodes_of(content, format),
            ParseTopology::List,
            max_tokens,
            counter,
        ) {
            Ok(parts) => Some(parts),
            Err(_) => None,
        }
    }
}

pub open spec fn chunking_failure(file_path: Seq<char>) -> Seq<char> {
    "failed to chunk document file "@ + file_path
}

fn chunking_error(file_path: &str) -> (r: CaseError)
    ensures
        r.message@ == chunking_failure(file_path@),
{
    let mut message = "failed to chunk document file ".to_owned();
    message.append(file_path);
    CaseError { message }
}

/// The chunks of a document with some content.
pub fn build_chunks_from_content<C: TokenCounter>(
    document: &StoredDocument,
    content: &str,
    max_tokens: usize,
    token_counter: C,
    now: u64,
) -> (r: Result<Vec<Chunk>, CaseError>)
    ensures
        match r {
            Ok(v) => parts_of(document@, content@, max_tokens as nat, token_counter) is Some
                && case_model::chunk_views(v@) == numbered_chunks(
                document@,
                parts_of(document@, content@, max_tokens as nat, token_counter)->0,
                now,
            ),
            Err(e) => parts_of(document@, content@, max_tokens as nat, token_counter) is None
                && e.message@ == chunking_failure(document.file_path@),
        },
{
    let parsed = match ParserEngine::parse_file(
        document.file_path.as_str(),
        as_opt_str(&document.mime_type),
        Some(document.name.as_str()),
        content,
    ) {
        Ok(parsed) => parsed,
        Err(_) => return Err(chunking_error(document.file_path.as_str())),
    };
    match chunk_parse_result(parsed, ChunkerConfig { max_tokens, token_counter }) {
        Ok(parts) => Ok(chunks_from_parts(document, &parts, now)),
        Err(_) => Err(chunking_error(document.file_path.as_str())),
    }
}

/// The record that a chunk is indexed as.
pub open spec fn chunk_record(d: StoredDocumentView, c: ChunkView) -> AddView {
    AddView {
        id: Some(c.id),
        text: case_profile::weighted_text(
            c.content,
            case_profile::profile_of(d.name, c.content),
        ),
        metadata: case_profile::chunk_metadata(
            d,
            c,
            case_profile::profile_of(d.name, c.content),
        ),
    }
}

/// What a document is searched as, and where that comes from.
pub open spec fn searched_as(
    d: StoredDocumentView,
    chunks: Seq<ChunkView>,
    written: Option<Seq<char>>,
) -> (Seq<char>, Seq<char>) {
    if written is Some && case_summary::summary_lines(written->0).len() > 0 {
        (case_summary::document_text(d.name, case_summary::summary_lines(written->0)), "llm"@)
    } else {
        (case_summary::document_text(d.name, case_summary::body_summary(chunks)), "offline"@)
    }
}

/// The record that the summary of a document is indexed as.
pub open spec fn summary_record(
    d: StoredDocumentView,
    chunks: Seq<ChunkView>,
    written: Option<Seq<char>>,
) -> AddView {
    let (search_text, source) = searched_as(d, chunks, written);
    AddView {
        id: Some(case_profile::summary_id(d.id)),
        text: case_profile::weighted_text(
            search_text,
            case_profile::profile_of(d.name, search_text),
        ),
        metadata: case_profile::summary_metadata(
            d,
            chunks.len() as usize,
            source,
            case_profile::profile_of(d.name, search_text),
        ),
    }
}

/// The records that a document is indexed as: its chunks and, unless it has
/// none, its summary.
pub open spec fn document_records(
    d: StoredDocumentView,
    chunks: Seq<ChunkView>,
    written: Option<Seq<char>>,
) -> Seq<AddView> {
    let records = Seq::new(chunks.len(), |i: int| chunk_record(d, chunks[i]));
    if chunks.len() == 0 {
        records
    } else {
        records.push(summary_record(d, chunks, written))
    }
}

/// The records that a document is indexed as, given the summary that a model
/// wrote of it, if one did.
pub fn build_memory_requests_for_document(
    document: &StoredDocument,
    chunks: &Vec<Chunk>,
    written: Option<&str>,
) -> (r: Vec<AddMemoryRequest>)
    ensures
        bench_run::add_views(r@) == document_records(
            document@,
            case_model::chunk_views(chunks@),
            json::opt_text(written),
        ),
{
    let ghost all = case_model::chunk_views(chunks@);
    let ghost records = Seq::new(all.len(), |i: int| chunk_record(document@, all[i]));
    let mut r: Vec<AddMemoryRequest> = Vec::new();
    let mut i: usize = 0;
    while i < chunks.len()
        invariant
            i <= chunks@.len(),
            all == case_model::chunk_views(chunks@),
            records == Seq::new(all.len(), |i: int| chunk_record(document@, all[i])),
            bench_run::add_views(r@) =~= records.take(i as int),
        decreases chunks@.len() - i,
    {
        let request = build_chunk_memory_request(document, &chunks[i]);
        assert(all[i as int] == chunks@[i as int]@);
        assert(request@ == records[i as int]);
        let ghost before = r@;
        r.push(request);
        assert(bench_run::add_views(r@) =~= bench_run::add_views(before).push(request@));
        i += 1;
    }
    assert(bench_run::add_views(r@) =~= records);
    if chunks.len() > 0 {
        let (search_text, source) = choose_document_search_text(document, chunks, written);
        let request = build_document_summary_memory_request(
            document,
            chunks.len(),
            search_text.as_str(),
            source,
        );
        assert(request@ == summary_record(document@, all, json::opt_text(written)));
        let ghost before = r@;
        r.push(request);
        assert(bench_run::add_views(r@) =~= bench_run::add_views(before).push(request@));
    }
    r
}

/// What a chunk is named after in an answer.
pub open spec fn source_of(c: SearchChunkView) -> Seq<char> {
    match c.source_name {
        Some(s) => s,
        None => match c.source_path {
            Some(s) => s,
            None => c.document_id,
        },
    }
}

/// How a chunk is shown in an answer.
pub open spec fn shown(c: SearchChunkView) -> Seq<char> {
    "Source: "@ + source_of(c) + "\n"@ + case_summary::truncated(c.content, 180)
}

pub open spec fn shown_all(chunks: Seq<SearchChunkView>) -> Seq<Seq<char>> {
    Seq::new(chunks.len(), |i: int| shown(chunks[i]))
}

/// What a question is answered with, given the chunks that a search for it found.
pub open spec fn answer_text(chunks: Seq<SearchChunkView>) -> Seq<char> {
    if chunks.len() == 0 {
        "No relevant content was found."@
    } else {
        "Found "@ + text::decimal_text(chunks.len())
            + " relevant chunks. Main retrieved content for answer augmentation:\n"@
            + text::joined(shown_all(chunks), "\n\n"@)
    }
}

fn show_chunk(c: &SearchChunk) -> (r: String)
    ensures
        r@ == shown(c@),
{
    let source = match &c.source_name {
        Some(s) => s.as_str(),
        None => match &c.source_path {
            Some(s) => s.as_str(),
            None => c.document_id.as_str(),
        },
    };
    let mut r = "Source: ".to_owned();
    r.append(source);
    r.append("\n");
    let content = truncate_chars(c.content.as_str(), 180);
    r.append(content.as_str());
    r
}

/// The answer to a question, given the chunks that a search for it found.
pub fn chat_completion(chunks: Vec<SearchChunk>) -> (r: ChatCompletionResponse)
    ensures
        r.answer@ == answer_text(case_model::search_chunk_views(chunks@)),
        r.references@ == chunks@,
{
    if chunks.len() == 0 {
        return ChatCompletionResponse {
            answer: "No relevant content was found.".to_owned(),
            references: chunks,
        };
    }
    let ghost all = case_model::search_chunk_views(chunks@);
    let mut parts: Vec<String> = Vec::new();
    let mut i: usize = 0;
    while i < chunks.len()
        invariant
            i <= chunks@.len(),
            all == case_model::search_chunk_views(chunks@),
            text::strings(parts@) =~= shown_all(all).take(i as int),
        decreases chunks@.len() - i,
    {
        let ghost before = parts@;
        let part = show_chunk(&chunks[i]);
        parts.push(part);
        proof {
            assert(all[i as int] == chunks@[i as int]@);
            lemma_strings_push(before, part);
        }
        i += 1;
    }
    assert(text::strings(parts@) =~= shown_all(all));
    let mut answer = "Found ".to_owned();
    push_decimal(&mut answer, chunks.len() as u64);
    answer.append(" relevant chunks. Main retrieved content for answer augmentation:\n");
    let preview = join_texts(&parts, "\n\n");
    answer.append(preview.as_str());
    ChatCompletionResponse { answer, references: chunks }
}

/// How an error is answered.
#[derive(Clone, Copy, Debug, PartialEq, Eq, Structural)]
pub enum ErrorAnswer {
    NotFound,
    BadRequest,
    Internal,
}

/// How an error is answered, by what it says.
pub open spec fn answer_to(message: Seq<char>) -> ErrorAnswer {
    if text::contains_text(message, "not found"@) {
        ErrorAnswer::NotFound
    } else if text::contains_text(message, "must"@) || text::contains_text(message, "requires"@)
        || text::contains_text(message, "required"@) {
        ErrorAnswer::BadRequest
    } else {
        ErrorAnswer::Internal
    }
}

/// How an error is answered.
pub fn map_service_error(error: &CaseError) -> (r: ErrorAnswer)
    ensures
        r == answer_to(error.message@),
{
    let message = error.message.as_str();
    if text_contains(message, "not found") {
        ErrorAnswer::NotFound
    } else if text_contains(message, "must") || text_contains(message, "requires")
        || text_contains(message, "required") {
        ErrorAnswer::BadRequest
    } else {
        ErrorAnswer::Internal
    }
}

/// A field of an upload.
#[derive(Debug)]
pub enum UploadField {
    Id(String),
    TaskId(String),
    Name(String),
    File { file_name: Option<String>, mime_type: Option<String>, bytes: Vec<u8> },
    Other,
}

/// What the fields of an upload say; where a field stands twice, the last one
/// counts.
#[derive(Debug)]
pub struct UploadForm {
    pub id: Option<String>,
    pub task_id: Option<String>,
    pub name: Option<String>,
    pub file_name: Option<String>,
    pub mime_type: Option<String>,
    pub bytes: Option<Vec<u8>>,
}

impl UploadForm {
    /// A form without fields.
    pub fn new() -> (r: Self)
        ensures
            r == (UploadForm {
                id: None,
                task_id: None,
                name: None,
                file_name: None,
                mime_type: None,
                bytes: None,
            }),
    {
        UploadForm {
            id: None,
            task_id: None,
            name: None,
            file_name: None,
            mime_type: None,
            bytes: None,
        }
    }

    /// Notes a field.
    pub fn note(&mut self, field: UploadField)
        ensures
            *final(self) == match field {
                UploadField::Id(t) => UploadForm { id: Some(t), ..*old(self) },
                UploadField::TaskId(t) => UploadForm { task_id: Some(t), ..*old(self) },
                UploadField::Name(t) => UploadForm { name: Some(t), ..*old(self) },
                UploadField::File { file_name, mime_type, bytes } => UploadForm {
                    file_name,
                    mime_type,
                    bytes: Some(bytes),
                    ..*old(self)
                },
                UploadField::Other => *old(self),
            },
    {
        match field {
            UploadField::Id(t) => {
                self.id = Some(t);
            },
            UploadField::TaskId(t) => {
                self.task_id = Some(t);
            },
            UploadField::Name(t) => {
                self.name = Some(t);
            },
            UploadField::File { file_name, mime_type, bytes } => {
                self.file_name = file_name;
                self.mime_type = mime_type;
                self.bytes = Some(bytes);
            },
            UploadField::Other => {},
        }
    }

    /// The request for a document in a form. A file is required.
    pub fn into_upload(self) -> (r: Result<CreateDocumentFileRequest, CaseError>)
        ensures
            match r {
                Ok(q) => {
                    &&& self.file_name == Some(q.file_name)
                    &&& self.bytes == Some(q.bytes)
                    &&& q.id == self.id
                    &&& q.task_id == self.task_id
                    &&& q.mime_type == self.mime_type
                    &&& q.name@ == match self.name {
                        Some(n) => n@,
                        None => q.file_name@,
                    }
                },
                Err(e) => (self.file_name is None || self.bytes is None) && e.message@
                    == "file is required"@,
            },
    {
        match (self.file_name, self.bytes) {
            (Some(file_name), Some(bytes)) => {
                let name = match self.name {
                    Some(n) => n,
                    None => file_name.clone(),
                };
                Ok(
                    CreateDocumentFileRequest {
                        id: self.id,
                        task_id: self.task_id,
                        name,
                        file_name,
                        mime_type: self.mime_type,
                        bytes,
                    },
                )
            },
            _ => Err(CaseError::new("file is required")),
        }
    }

    /// The request for a change of a document in a form.
    pub fn into_change(self) -> (r: UpdateDocumentFileRequest)
        ensures
            r == (UpdateDocumentFileRequest {
                task_id: self.task_id,
                name: self.name,
                file_name: self.file_name,
                mime_type: self.mime_type,
                bytes: self.bytes,
            }),
    {
        UpdateDocumentFileRequest {
            task_id: self.task_id,
            name: self.name,
            file_name: self.file_name,
            mime_type: self.mime_type,
            bytes: self.bytes,
        }
    }
}

impl RagService {
    pub fn new(repo: RagRepository, config: RagConfig) -> (r: Self)
        ensures
            r.repo == repo,
            r.config == config,
    {
        RagService { repo, config }
    }

    /// Makes a dataset.
    pub fn create_dataset(&mut self, request: &CreateDatasetRequest, now: u64) -> (r: Result<
        Dataset,
        CaseError,
    >)
        ensures
            final(self).config == old(self).config,
            final(self).repo.path@ == old(self).repo.path@,
            match r {
                Ok(d) => {
                    &&& case_store::dataset_problem(
                        old(self).repo@,
                        json::opt_string(request.id),
                        request.name@,
                    ) is None
                    &&& !case_store::has_dataset(old(self).repo@, d.id@)
                    &&& case_store::is_chosen_id(json::opt_string(request.id), d.id@)
                    &&& d.name@ == text::trimmed(request.name@)
                    &&& json::opt_string(d.description) == json::opt_string(request.description)
                    &&& d.created_at_ms == now
                    &&& d.updated_at_ms == now
                    &&& final(self).repo@ == (LibraryView {
                        datasets: old(self).repo@.datasets.push(d@),
                        ..old(self).repo@
                    })
                },
                Err(e) => {
                    &&& final(self).repo@ == old(self).repo@
                    &&& case_store::dataset_problem(
                        old(self).repo@,
                        json::opt_string(request.id),
                        request.name@,
                    ) == Some(e.message@) || case_store::drawn_dataset_is_taken(
                        old(self).repo@,
                        json::opt_string(request.id),
                        request.name@,
                        e.message@,
                    )
                },
            },
    {
        self.repo.create_dataset(
            as_opt_str(&request.id),
            request.name.as_str(),
            as_opt_str(&request.description),
            now,
        )
    }

    /// The datasets, in the order in which they are listed.
    pub fn list_datasets(&self) -> (r: ListDatasetsResponse)
        ensures
            exists|s: Seq<Dataset>|
                case_model::dataset_views(s) == self.repo@.datasets && r.datasets@
                    == order::in_order(s),
    {
        ListDatasetsResponse { datasets: self.repo.list_datasets() }
    }

    fn ensure_dataset_exists(&self, dataset_id: &str) -> (r: Result<(), CaseError>)
        ensures
            match r {
                Ok(_) => case_store::has_dataset(self.repo@, dataset_id@),
                Err(e) => !case_store::has_dataset(self.repo@, dataset_id@) && e.message@
                    == "dataset not found"@,
            },
    {
        if self.repo.holds_dataset(dataset_id) {
            Ok(())
        } else {
            Err(CaseError::new("dataset not found"))
        }
    }

    /// What is to be stored of a document that is uploaded.
    pub fn plan_document(&self, dataset_id: &str, request: &CreateDocumentFileRequest) -> (r: Result<
        DocumentPlan,
        CaseError,
    >)
        ensures
            match r {
                Ok(p) => upload_problem(self.repo@, dataset_id@, *request) is None
                    && stores_upload(p@, self.config.file_root@, dataset_id@, *request),
                Err(e) => upload_problem(self.repo@, dataset_id@, *request) == Some(e.message@),
            },
    {
        match self.ensure_dataset_exists(dataset_id) {
            Ok(_) => {},
            Err(e) => return Err(e),
        }
        let document_id = match request_id_or_uuid(as_opt_str(&request.id), "document id") {
            Ok(id) => id,
            Err(e) => return Err(e),
        };
        let task_id = match request_id_or_uuid(as_opt_str(&request.task_id), "task id") {
            Ok(id) => id,
            Err(e) => return Err(e),
        };
        if request.bytes.len() == 0 {
            return Err(CaseError::new("document file must not be empty"));
        }
        let file_name = match safe_file_name(request.file_name.as_str()) {
            Ok(n) => n,
            Err(e) => return Err(e),
        };
        let file_path = document_file_path(
            self.config.file_root.as_str(),
            dataset_id,
            document_id.as_str(),
            file_name.as_str(),
        );
        let given = trim(request.name.as_str());
        let name = if given.is_empty() {
            file_name
        } else {
            given.to_owned()
        };
        Ok(
            DocumentPlan {
                document_id,
                task_id,
                name,
                file_path,
                mime_type: clone_opt(&request.mime_type),
                size_bytes: request.bytes.len() as u64,
            },
        )
    }

    /// Stores a document whose file is written, and the task of processing it.
    pub fn create_document(&mut self, dataset_id: &str, plan: &DocumentPlan, now: u64) -> (r: Result<
        CreateDocumentResponse,
        CaseError,
    >)
        ensures
            final(self).config == old(self).config,
            final(self).repo.path@ == old(self).repo.path@,
            ({
                let problem = case_store::creation_problem(
                    old(self).repo@,
                    dataset_id@,
                    Some(plan.document_id@),
                    Some(plan.task_id@),
                    plan.name@,
                    plan.file_path@,
                );
                match r {
                    Ok(q) => {
                        &&& problem is None
                        &&& q.document_id@ == text::trimmed(plan.document_id@)
                        &&& q.task_id@ == text::trimmed(plan.task_id@)
                        &&& final(self).repo@ == (LibraryView {
                            documents: old(self).repo@.documents.push(
                                case_store::uploaded_document(
                                    q.document_id@,
                                    dataset_id@,
                                    plan.name@,
                                    plan.file_path@,
                                    json::opt_string(plan.mime_type),
                                    plan.size_bytes,
                                    now,
                                    now,
                                ),
                            ),
                            tasks: old(self).repo@.tasks.push(
                                case_store::waiting_task(
                                    q.task_id@,
                                    dataset_id@,
                                    q.document_id@,
                                    now,
                                ),
                            ),
                            ..old(self).repo@
                        })
                    },
                    Err(e) => problem == Some(e.message@) && final(self).repo@ == old(self).repo@,
                }
            }),
    {
        match self.repo.create_document_with_task(
            dataset_id,
            Some(plan.document_id.as_str()),
            Some(plan.task_id.as_str()),
            plan.name.as_str(),
            plan.file_path.as_str(),
            as_opt_str(&plan.mime_type),
            plan.size_bytes,
            now,
        ) {
            Ok((_, task)) => Ok(
                CreateDocumentResponse { document_id: task.document_id, task_id: task.id },
            ),
            Err(e) => Err(e),
        }
    }

    /// The documents of a dataset.
    pub fn list_documents(&self, dataset_id: &str) -> (r: Result<ListDocumentsResponse, CaseError>)
        ensures
            match r {
                Ok(q) => case_store::has_dataset(self.repo@, dataset_id@) && exists|
                    s: Seq<case_model::Document>,
                |
                    case_model::document_views(s) == case_store::documents_of(
                        self.repo@.documents,
                        dataset_id@,
                    ) && q.documents@ == order::in_order(s),
                Err(e) => !case_store::has_dataset(self.repo@, dataset_id@) && e.message@
                    == "dataset not found"@,
            },
    {
        match self.ensure_dataset_exists(dataset_id) {
            Ok(_) => Ok(ListDocumentsResponse { documents: self.repo.list_documents(dataset_id) }),
            Err(e) => Err(e),
        }
    }

    /// A document of a dataset.
    pub fn existing_document(&self, dataset_id: &str, document_id: &str) -> (r: Result<
        StoredDocument,
        CaseError,
    >)
        ensures
            match r {
                Ok(d) => case_store::has_dataset(self.repo@, dataset_id@) && exists|k: int|
                    #[trigger]
                    stands_first(self.repo@, document_id@, k) && self.repo@.documents[k].dataset_id
                        == dataset_id@ && d@ == case_store::stored(self.repo@.documents[k]),
                Err(e) => {
                    ||| !case_store::has_dataset(self.repo@, dataset_id@) && e.message@
                        == "dataset not found"@
                    ||| case_store::has_dataset(self.repo@, dataset_id@) && e.message@ == not_found(
                        document_id@,
                    ) && forall|k: int| #[trigger]
                        stands_first(self.repo@, document_id@, k)
                            ==> self.repo@.documents[k].dataset_id != dataset_id@
                },
            },
    {
        match self.ensure_dataset_exists(dataset_id) {
            Ok(_) => {},
            Err(e) => return Err(e),
        }
        match self.repo.get_stored_document(document_id) {
            Some(d) => {
                let ghost k = choose|k: int|
                    0 <= k < self.repo@.documents.len() && case_store::stored(
                        #[trigger] self.repo@.documents[k],
                    ) == d@ && d.id@ == document_id@ && forall|i: int|
                        0 <= i < k ==> (#[trigger] self.repo@.documents[i]).id != document_id@;
                assert(stands_first(self.repo@, document_id@, k));
                if text_eq(d.dataset_id.as_str(), dataset_id) {
                    return Ok(d);
                }
                assert forall|m: int| #[trigger]
                    stands_first(self.repo@, document_id@, m) implies m == k by {
                    if m < k {
                        assert(self.repo@.documents[m].id != document_id@);
                    }
                    if k < m {
                        assert(self.repo@.documents[k].id != document_id@);
                    }
                }
            },
            None => {
                assert forall|m: int| #[trigger]
                    stands_first(self.repo@, document_id@, m) implies false by {
                    assert(self.repo@.documents[m].id == document_id@);
                }
            },
        }
        let mut message = "document not found: ".to_owned();
        message.append(document_id);
        Err(CaseError { message })
    }

    /// What is to be stored of a document that is changed, given the size of the
    /// file that it has.
    pub fn plan_update(
        &self,
        dataset_id: &str,
        document_id: &str,
        request: &UpdateDocumentFileRequest,
        kept_size: u64,
    ) -> (r: Result<DocumentPlan, CaseError>)
        ensures
            match r {
                Ok(p) => {
                    &&& case_store::has_dataset(self.repo@, dataset_id@)
                    &&& change_problem(*request) is None
                    &&& exists|k: int| #[trigger]
                        stands_first(self.repo@, document_id@, k)
                            && self.repo@.documents[k].dataset_id == dataset_id@ && stores_change(
                            p@,
                            self.config.file_root@,
                            case_store::stored(self.repo@.documents[k]),
                            *request,
                            kept_size,
                        )
                },
                Err(e) => {
                    ||| !case_store::has_dataset(self.repo@, dataset_id@) && e.message@
                        == "dataset not found"@
                    ||| case_store::has_dataset(self.repo@, dataset_id@) && e.message@ == not_found(
                        document_id@,
                    ) && forall|k: int| #[trigger]
                        stands_first(self.repo@, document_id@, k)
                            ==> self.repo@.documents[k].dataset_id != dataset_id@
                    ||| case_store::has_dataset(self.repo@, dataset_id@) && change_problem(*request)
                        == Some(e.message@) && exists|k: int| #[trigger]
                        stands_first(self.repo@, document_id@, k)
                            && self.repo@.documents[k].dataset_id == dataset_id@
                },
            },
    {
        match self.existing_document(dataset_id, document_id) {
            Ok(existing) => plan_change(
                self.config.file_root.as_str(),
                &existing,
                request,
                kept_size,
            ),
            Err(e) => Err(e),
        }
    }

    /// Stores the change of a document whose file is written, and the task of
    /// processing it anew.
    pub fn update_document(&mut self, dataset_id: &str, plan: &DocumentPlan, now: u64) -> (r: Result<
        UpdateDocumentResponse,
        CaseError,
    >)
        ensures
            final(self).config == old(self).config,
            final(self).repo.path@ == old(self).repo.path@,
            ({
                let problem = case_store::update_problem(
                    old(self).repo@,
                    dataset_id@,
                    plan.document_id@,
                    Some(plan.task_id@),
                    plan.name@,
                    plan.file_path@,
                );
                match r {
                    Ok(q) => {
                        &&& problem is None
                        &&& q.document_id@ == plan.document_id@
                        &&& q.task_id@ == text::trimmed(plan.task_id@)
                        &&& exists|k: int|
                            0 <= k < old(self).repo@.documents.len() && (#[trigger] old(
                                self,
                            ).repo@.documents[k]).id == plan.document_id@ && old(
                                self,
                            ).repo@.documents[k].dataset_id == dataset_id@ && final(self).repo@
                                == case_store::updated(
                                old(self).repo@,
                                dataset_id@,
                                plan.document_id@,
                                case_store::uploaded_document(
                                    plan.document_id@,
                                    dataset_id@,
                                    plan.name@,
                                    plan.file_path@,
                                    json::opt_string(plan.mime_type),
                                    plan.size_bytes,
                                    old(self).repo@.documents[k].created_at_ms,
                                    now,
                                ),
                                case_store::waiting_task(
                                    q.task_id@,
                                    dataset_id@,
                                    plan.document_id@,
                                    now,
                                ),
                            )
                    },
                    Err(e) => problem == Some(e.message@) && final(self).repo@ == old(self).repo@,
                }
            }),
    {
        match self.repo.update_document_with_task(
            dataset_id,
            plan.document_id.as_str(),
            Some(plan.task_id.as_str()),
            plan.name.as_str(),
            plan.file_path.as_str(),
            as_opt_str(&plan.mime_type),
            plan.size_bytes,
            now,
        ) {
            Ok((_, task)) => Ok(
                UpdateDocumentResponse { document_id: task.document_id, task_id: task.id },
            ),
            Err(e) => Err(e),
        }
    }

    /// Deletes a document from the tables.
    pub fn delete_document(&mut self, dataset_id: &str, document_id: &str) -> (r: Result<
        DeleteDocumentResponse,
        CaseError,
    >)
        ensures
            final(self).config == old(self).config,
            final(self).repo.path@ == old(self).repo.path@,
            match r {
                Ok(q) => {
                    &&& q.document_id@ == document_id@
                    &&& q.deleted
                    &&& case_store::has_dataset(old(self).repo@, dataset_id@)
                    &&& case_store::has_document_in(old(self).repo@, dataset_id@, document_id@)
                    &&& final(self).repo@ == case_store::deleted(
                        old(self).repo@,
                        dataset_id@,
                        document_id@,
                    )
                },
                Err(e) => {
                    &&& final(self).repo@ == old(self).repo@
                    &&& {
                        ||| !case_store::has_dataset(old(self).repo@, dataset_id@) && e.message@
                            == "dataset not found"@
                        ||| case_store::has_dataset(old(self).repo@, dataset_id@)
                            && !case_store::has_document_in(
                            old(self).repo@,
                            dataset_id@,
                            document_id@,
                        ) && e.message@ == not_found(document_id@)
                        ||| case_store::has_dataset(old(self).repo@, dataset_id@)
                            && case_store::has_document_in(
                            old(self).repo@,
                            dataset_id@,
                            document_id@,
                        ) && case_store::is_referred_to(
                            case_store::deleted(old(self).repo@, dataset_id@, document_id@),
                            document_id@,
                        ) && e.message@ == "FOREIGN KEY constraint failed"@
                    }
                },
            },
    {
        match self.ensure_dataset_exists(dataset_id) {
            Ok(_) => {},
            Err(e) => return Err(e),
        }
        match self.repo.delete_document(dataset_id, document_id) {
            Ok(Some(_)) => Ok(
                DeleteDocumentResponse { document_id: document_id.to_owned(), deleted: true },
            ),
            Ok(None) => {
                let mut message = "document not found: ".to_owned();
                message.append(document_id);
                Err(CaseError { message })
            },
            Err(e) => Err(e),
        }
    }

    /// The task with an identifier.
    pub fn get_task(&self, task_id: &str) -> (r: Option<IngestionTask>)
        ensures
            match r {
                Some(t) => exists|k: int|
                    0 <= k < self.repo@.tasks.len() && #[trigger] self.repo@.tasks[k] == t@ && t.id@
                        == task_id@ && forall|i: int|
                        0 <= i < k ==> (#[trigger] self.repo@.tasks[i]).id != task_id@,
                None => !case_store::has_task(self.repo@, task_id@),
            },
    {
        self.repo.get_task(task_id)
    }

    /// The chunks of a document, and how many there are.
    pub fn list_chunks(&self, dataset_id: &str, document_id: &str) -> (r: Result<
        ListChunksResponse,
        CaseError,
    >)
        ensures
            match r {
                Ok(q) => case_store::has_dataset(self.repo@, dataset_id@) && q.total
                    == q.chunks@.len() && exists|s: Seq<Chunk>|
                    case_model::chunk_views(s) == case_store::chunks_of(
                        self.repo@.chunks,
                        dataset_id@,
                        document_id@,
                    ) && q.chunks@ == order::in_order(s),
                Err(e) => !case_store::has_dataset(self.repo@, dataset_id@) && e.message@
                    == "dataset not found"@,
            },
    {
        match self.ensure_dataset_exists(dataset_id) {
            Ok(_) => {
                let chunks = self.repo.list_chunks(dataset_id, document_id);
                Ok(ListChunksResponse { total: chunks.len(), chunks })
            },
            Err(e) => Err(e),
        }
    }

    /// A document of a dataset that results belong to, with its chunks.
    pub fn retrieved_document(&self, dataset_id: &str, document_id: &str) -> (r: Option<
        (StoredDocument, Vec<Chunk>),
    >)
        ensures
            match r {
                Some((d, chunks)) => {
                    &&& exists|k: int| #[trigger]
                        stands_first(self.repo@, document_id@, k)
                            && self.repo@.documents[k].dataset_id == dataset_id@ && d@
                            == case_store::stored(self.repo@.documents[k])
                    &&& exists|s: Seq<Chunk>|
                        case_model::chunk_views(s) == case_store::chunks_of(
                            self.repo@.chunks,
                            dataset_id@,
                            document_id@,
                        ) && chunks@ == order::in_order(s)
                },
                None => !case_store::has_dataset(self.repo@, dataset_id@) || forall|k: int|
                    #[trigger]
                    stands_first(self.repo@, document_id@, k)
                        ==> self.repo@.documents[k].dataset_id != dataset_id@,
            },
    {
        match self.existing_document(dataset_id, document_id) {
            Ok(d) => Some((d, self.repo.list_chunks(dataset_id, document_id))),
            Err(_) => None,
        }
    }

    /// The document that a task is to process.
    pub fn document_to_ingest(&self, task: &IngestionTask) -> (r: Result<StoredDocument, CaseError>)
        ensures
            match r {
                Ok(d) => exists|k: int| #[trigger]
                    stands_first(self.repo@, task.document_id@, k) && d@ == case_store::stored(
                        self.repo@.documents[k],
                    ),
                Err(e) => !case_store::has_document(self.repo@, task.document_id@) && e.message@
                    == "document "@ + task.document_id@ + " not found"@,
            },
    {
        match self.repo.get_stored_document(task.document_id.as_str()) {
            Some(d) => {
                let ghost k = choose|k: int|
                    0 <= k < self.repo@.documents.len() && case_store::stored(
                        #[trigger] self.repo@.documents[k],
                    ) == d@ && d.id@ == task.document_id@ && forall|i: int|
                        0 <= i < k ==> (#[trigger] self.repo@.documents[i]).id
                            != task.document_id@;
                assert(stands_first(self.repo@, task.document_id@, k));
                Ok(d)
            },
            None => {
                let mut message = "document ".to_owned();
                message.append(task.document_id.as_str());
                message.append(" not found");
                Err(CaseError { message })
            },
        }
    }

    /// Notes how the processing of a task ended: how many chunks there are, or
    /// what went wrong. An error is handed on.
    pub fn finish_ingestion(
        &mut self,
        task: &IngestionTask,
        outcome: Result<usize, CaseError>,
        now: u64,
    ) -> (r: Result<bool, CaseError>)
        ensures
            final(self).config == old(self).config,
            final(self).repo.path@ == old(self).repo.path@,
            match outcome {
                Ok(n) => r == Ok::<bool, CaseError>(true) && final(self).repo@
                    == case_store::finished(
                    old(self).repo@,
                    task.id@,
                    task.document_id@,
                    "completed"@,
                    Some(n),
                    None,
                    now,
                ),
                Err(e) => r == Err::<bool, CaseError>(e) && final(self).repo@
                    == case_store::finished(
                    old(self).repo@,
                    task.id@,
                    task.document_id@,
                    "failed"@,
                    None,
                    Some(e.message@),
                    now,
                ),
            },
    {
        match outcome {
            Ok(n) => {
                self.repo.complete_task(task.id.as_str(), task.document_id.as_str(), n, now);
                Ok(true)
            },
            Err(e) => {
                self.repo.fail_task(
                    task.id.as_str(),
                    task.document_id.as_str(),
                    e.message.as_str(),
                    now,
                );
                Err(e)
            },
        }
    }
}

/// A text is not blank where something in it is not whitespace.
proof fn lemma_not_blank(s: Seq<char>, i: int)
    requires
        0 <= i < s.len(),
        !text::char_whitespace(s[i]),
    ensures
        !text::is_blank(s),
{
    let lo = text::lemma_trim_start_bounds(s);
    let t = text::trim_start(s);
    assert(lo <= i);
    let hi = text::lemma_trim_end_bounds(t);
    assert(t[i - lo] == s[i]);
    assert(i - lo < hi);
}

/// A path that ends in a name is not blank.
proof fn lemma_path_not_blank(base: Seq<char>, name: Seq<char>)
    requires
        name.len() > 0,
        !text::char_whitespace(name.last()),
    ensures
        !text::is_blank(scan::joined_path(base, name)),
{
    let path = scan::joined_path(base, name);
    assert(path.last() == name.last());
    lemma_not_blank(path, path.len() - 1);
}

proof fn lemma_safe_name(path: Seq<char>)
    requires
        safe_name(path).len() > 0,
    ensures
        !text::char_whitespace(safe_name(path).last()),
        !text::is_blank(safe_name(path)),
{
    match scan::file_name_of(path) {
        Some(name) => text::trimming_is_final(name),
        None => {},
    }
}

/// A document whose upload is accepted under identifiers that are free can be
/// stored.
pub proof fn accepted_uploads_can_be_stored(
    l: LibraryView,
    root: Seq<char>,
    dataset_id: Seq<char>,
    r: CreateDocumentFileRequest,
    p: PlanView,
)
    requires
        upload_problem(l, dataset_id, r) is None,
        stores_upload(p, root, dataset_id, r),
        r.id is Some,
        r.task_id is Some,
        !case_store::has_document(l, p.document_id),
        !case_store::has_task(l, p.task_id),
    ensures
        case_store::creation_problem(
            l,
            dataset_id,
            Some(p.document_id),
            Some(p.task_id),
            p.name,
            p.file_path,
        ) is None,
{
    text::trimming_is_final(r.id->0@);
    text::trimming_is_final(r.task_id->0@);
    text::trimming_is_final(r.name@);
    lemma_safe_name(r.file_name@);
    lemma_path_not_blank(
        scan::joined_path(scan::joined_path(root, dataset_id), p.document_id),
        safe_name(r.file_name@),
    );
}

/// The chunks of a document have identifiers of their own.
pub proof fn chunks_of_a_document_differ(
    d: StoredDocumentView,
    parts: Seq<PartView>,
    now: u64,
    i: int,
    j: int,
)
    requires
        0 <= i < j < parts.len(),
    ensures
        numbered_chunks(d, parts, now)[i].id != numbered_chunks(d, parts, now)[j].id,
{
    let head = d.id + "_chunk_"@;
    let a = head + text::decimal_text(i as nat);
    let b = head + text::decimal_text(j as nat);
    if a == b {
        assert(a.skip(head.len() as int) =~= text::decimal_text(i as nat));
        assert(b.skip(head.len() as int) =~= text::decimal_text(j as nat));
        text::decimal_texts_differ(i as nat, j as nat);
    }
}

/// A document that has chunks is indexed with each of them and with a summary;
/// one that has none is not indexed.
pub proof fn every_chunk_is_indexed(
    d: StoredDocumentView,
    chunks: Seq<ChunkView>,
    written: Option<Seq<char>>,
)
    ensures
        chunks.len() == 0 ==> document_records(d, chunks, written).len() == 0,
        chunks.len() > 0 ==> document_records(d, chunks, written).len() == chunks.len() + 1
            && document_records(d, chunks, written).last().id == Some(
            case_profile::summary_id(d.id),
        ),
        forall|i: int|
            0 <= i < chunks.len() ==> (#[trigger] document_records(d, chunks, written)[i]).id
                == Some(chunks[i].id),
{
}

proof fn lemma_says_must(label: Seq<char>)
    ensures
        answer_to(label + " must not be empty"@) != ErrorAnswer::Internal,
{
    let s = label + " must not be empty"@;
    reveal_strlit(" must not be empty");
    reveal_strlit("must");
    let n = label.len() as int;
    assert(s.subrange(n + 1, n + 5) =~= "must"@);
    assert(text::stands_at(s, "must"@, n + 1));
}

/// A request that is refused for what it asks is never answered as a fault of
/// the service.
pub proof fn refusals_are_not_internal_errors(
    l: LibraryView,
    dataset_id: Seq<char>,
    document_id: Seq<char>,
    r: CreateDocumentFileRequest,
    u: UpdateDocumentFileRequest,
)
    ensures
        upload_problem(l, dataset_id, r) is Some ==> answer_to(upload_problem(l, dataset_id, r)->0)
            != ErrorAnswer::Internal,
        change_problem(u) is Some ==> answer_to(change_problem(u)->0) != ErrorAnswer::Internal,
        answer_to(not_found(document_id)) == ErrorAnswer::NotFound,
        answer_to("dataset not found"@) == ErrorAnswer::NotFound,
        answer_to("query must not be empty"@) != ErrorAnswer::Internal,
        answer_to("file is required"@) != ErrorAnswer::Internal,
{
    reveal_strlit("not found");
    reveal_strlit("must");
    reveal_strlit("required");
    reveal_strlit("requires");
    reveal_strlit("dataset not found");
    assert("dataset not found"@.subrange(8, 17) =~= "not found"@);
    assert(text::stands_at("dataset not found"@, "not found"@, 8));
    reveal_strlit("document not found: ");
    let missing = not_found(document_id);
    assert(missing.subrange(9, 18) =~= "not found"@);
    assert(text::stands_at(missing, "not found"@, 9));
    reveal_strlit("query must not be empty");
    assert("query must not be empty"@.subrange(6, 10) =~= "must"@);
    assert(text::stands_at("query must not be empty"@, "must"@, 6));
    reveal_strlit("document file must not be empty");
    assert("document file must not be empty"@.subrange(14, 18) =~= "must"@);
    assert(text::stands_at("document file must not be empty"@, "must"@, 14));
    reveal_strlit("file name must not be empty");
    assert("file name must not be empty"@.subrange(10, 14) =~= "must"@);
    assert(text::stands_at("file name must not be empty"@, "must"@, 10));
    reveal_strlit("file is required");
    assert("file is required"@.subrange(8, 16) =~= "required"@);
    assert(text::stands_at("file is required"@, "required"@, 8));
    reveal_strlit("file name is required when updating document file");
    let unnamed = "file name is required when updating document file"@;
    assert(unnamed.subrange(13, 21) =~= "required"@);
    assert(text::stands_at(unnamed, "required"@, 13));
    reveal_strlit("document update requires name or file");
    let empty = "document update requires name or file"@;
    assert(empty.subrange(16, 24) =~= "requires"@);
    assert(text::stands_at(empty, "requires"@, 16));
    lemma_says_must("document id"@);
    lemma_says_must("task id"@);
}

} // verus!
