//! The tables of a library: its datasets, documents, tasks and chunks, and what
//! each operation does to them. An operation that fails changes nothing.

use vstd::prelude::*;
use vstd::string::*;

use crate::case_model;
use crate::case_model::{
    CaseError, Chunk, ChunkView, Dataset, DatasetView, Document, DocumentView, IngestionTask,
    StoredDocument, StoredDocumentView, TaskView,
};
use crate::graph_retrieval;
use crate::ids::random_uuid;
use crate::json;
use crate::json::{read_json, Json, JsonView};
use crate::order;
use crate::order::{sort_stable, Ordered};
use crate::text;
use crate::text::{clone_opt, text_eq, text_less, trim};

verus! {

/// The tables of a library, and the file that they are kept in.
#[derive(Debug)]
pub struct RagRepository {
    pub path: String,
    pub datasets: Vec<Dataset>,
    pub documents: Vec<Document>,
    pub tasks: Vec<IngestionTask>,
    pub chunks: Vec<Chunk>,
}

/// What a [`RagRepository`] holds.
pub struct LibraryView {
    pub datasets: Seq<DatasetView>,
    pub documents: Seq<DocumentView>,
    pub tasks: Seq<TaskView>,
    pub chunks: Seq<ChunkView>,
}

impl View for RagRepository {
    type V = LibraryView;

    open spec fn view(&self) -> LibraryView {
        LibraryView {
            datasets: case_model::dataset_views(self.datasets@),
            documents: case_model::document_views(self.documents@),
            tasks: case_model::task_views(self.tasks@),
            chunks: case_model::chunk_views(self.chunks@),
        }
    }
}

pub open spec fn has_dataset(l: LibraryView, id: Seq<char>) -> bool {
    exists|i: int| 0 <= i < l.datasets.len() && (#[trigger] l.datasets[i]).id == id
}

pub open spec fn has_document(l: LibraryView, id: Seq<char>) -> bool {
    exists|i: int| 0 <= i < l.documents.len() && (#[trigger] l.documents[i]).id == id
}

pub open spec fn has_task(l: LibraryView, id: Seq<char>) -> bool {
    exists|i: int| 0 <= i < l.tasks.len() && (#[trigger] l.tasks[i]).id == id
}

/// Whether the tables fit together: identifiers are given once, documents belong
/// to datasets, and tasks and chunks to documents.
pub open spec fn sound(l: LibraryView) -> bool {
    &&& forall|i: int, j: int|
        0 <= i < j < l.datasets.len() ==> (#[trigger] l.datasets[i]).id
            != (#[trigger] l.datasets[j]).id
    &&& forall|i: int, j: int|
        0 <= i < j < l.documents.len() ==> (#[trigger] l.documents[i]).id
            != (#[trigger] l.documents[j]).id
    &&& forall|i: int, j: int|
        0 <= i < j < l.tasks.len() ==> (#[trigger] l.tasks[i]).id != (#[trigger] l.tasks[j]).id
    &&& forall|i: int|
        0 <= i < l.documents.len() ==> has_dataset(l, (#[trigger] l.documents[i]).dataset_id)
    &&& forall|i: int|
        0 <= i < l.tasks.len() ==> has_document_in(
            l,
            (#[trigger] l.tasks[i]).dataset_id,
            l.tasks[i].document_id,
        )
    &&& forall|i: int|
        0 <= i < l.chunks.len() ==> has_document_in(
            l,
            (#[trigger] l.chunks[i]).dataset_id,
            l.chunks[i].document_id,
        )
    &&& forall|i: int, j: int|
        0 <= i < j < l.chunks.len() ==> (#[trigger] l.chunks[i]).id != (#[trigger] l.chunks[j]).id
}

/// Whether an identifier is the one that was asked for, or a random one where
/// none was.
pub open spec fn is_chosen_id(asked: Option<Seq<char>>, id: Seq<char>) -> bool {
    match asked {
        Some(t) => id == text::trimmed(t),
        None => id.len() == 36,
    }
}

/// What is wrong with an identifier that is asked for.
pub open spec fn id_problem(asked: Option<Seq<char>>, label: Seq<char>) -> Option<Seq<char>> {
    match asked {
        Some(t) => if text::is_blank(t) {
            Some(label + " must not be empty"@)
        } else {
            None
        },
        None => None,
    }
}

/// The identifier that is asked for, or a random one.
pub fn request_id_or_uuid(id: Option<&str>, label: &str) -> (r: Result<String, CaseError>)
    ensures
        match r {
            Ok(s) => id_problem(json::opt_text(id), label@) is None && is_chosen_id(
                json::opt_text(id),
                s@,
            ),
            Err(e) => id_problem(json::opt_text(id), label@) == Some(e.message@),
        },
{
    match id {
        Some(t) => {
            let t = trim(t);
            if t.is_empty() {
                let mut message = label.to_owned();
                message.append(" must not be empty");
                return Err(CaseError { message });
            }
            Ok(t.to_owned())
        },
        None => Ok(random_uuid()),
    }
}

pub open spec fn or_else(a: Option<Seq<char>>, b: Option<Seq<char>>) -> Option<Seq<char>> {
    match a {
        Some(m) => Some(m),
        None => b,
    }
}

pub open spec fn problem_if(bad: bool, message: Seq<char>) -> Option<Seq<char>> {
    if bad {
        Some(message)
    } else {
        None
    }
}

impl RagRepository {
    /// The empty tables of a library that is kept in a file.
    pub fn new(path: &str) -> (r: Self)
        ensures
            r.path@ == path@,
            r@ == (LibraryView {
                datasets: Seq::empty(),
                documents: Seq::empty(),
                tasks: Seq::empty(),
                chunks: Seq::empty(),
            }),
    {
        let r = RagRepository {
            path: path.to_owned(),
            datasets: Vec::new(),
            documents: Vec::new(),
            tasks: Vec::new(),
            chunks: Vec::new(),
        };
        proof {
            assert(r@.datasets =~= Seq::<DatasetView>::empty());
            assert(r@.documents =~= Seq::<DocumentView>::empty());
            assert(r@.tasks =~= Seq::<TaskView>::empty());
            assert(r@.chunks =~= Seq::<ChunkView>::empty());
        }
        r
    }

    /// Whether there is a dataset.
    pub fn holds_dataset(&self, id: &str) -> (r: bool)
        ensures
            r == has_dataset(self@, id@),
    {
        self.get_dataset(id).is_some()
    }

    /// The dataset with an identifier.
    pub fn get_dataset(&self, id: &str) -> (r: Option<Dataset>)
        ensures
            match r {
                Some(d) => exists|k: int|
                    0 <= k < self@.datasets.len() && #[trigger] self@.datasets[k] == d@ && d.id@
                        == id@ && forall|i: int|
                        0 <= i < k ==> (#[trigger] self@.datasets[i]).id != id@,
                None => !has_dataset(self@, id@),
            },
    {
        let mut i: usize = 0;
        while i < self.datasets.len()
            invariant
                i <= self.datasets@.len(),
                forall|k: int| 0 <= k < i ==> (#[trigger] self@.datasets[k]).id != id@,
            decreases self.datasets@.len() - i,
        {
            assert(self@.datasets[i as int] == self.datasets@[i as int]@);
            if text_eq(self.datasets[i].id.as_str(), id) {
                return Some(self.datasets[i].clone());
            }
            i += 1;
        }
        None
    }

    fn find_document(&self, id: &str) -> (r: Option<usize>)
        ensures
            match r {
                Some(k) => k < self@.documents.len() && self@.documents[k as int].id == id@
                    && forall|i: int| 0 <= i < k ==> (#[trigger] self@.documents[i]).id != id@,
                None => !has_document(self@, id@),
            },
    {
        let mut i: usize = 0;
        while i < self.documents.len()
            invariant
                i <= self.documents@.len(),
                forall|k: int| 0 <= k < i ==> (#[trigger] self@.documents[k]).id != id@,
            decreases self.documents@.len() - i,
        {
            assert(self@.documents[i as int] == self.documents@[i as int]@);
            if text_eq(self.documents[i].id.as_str(), id) {
                return Some(i);
            }
            i += 1;
        }
        None
    }

    fn find_task(&self, id: &str) -> (r: Option<usize>)
        ensures
            match r {
                Some(k) => k < self@.tasks.len() && self@.tasks[k as int].id == id@ && forall|
                    i: int,
                |
                    0 <= i < k ==> (#[trigger] self@.tasks[i]).id != id@,
                None => !has_task(self@, id@),
            },
    {
        let mut i: usize = 0;
        while i < self.tasks.len()
            invariant
                i <= self.tasks@.len(),
                forall|k: int| 0 <= k < i ==> (#[trigger] self@.tasks[k]).id != id@,
            decreases self.tasks@.len() - i,
        {
            assert(self@.tasks[i as int] == self.tasks@[i as int]@);
            if text_eq(self.tasks[i].id.as_str(), id) {
                return Some(i);
            }
            i += 1;
        }
        None
    }
}

/// The indexes that a list of JSON values holds, unless one of them is none.
pub open spec fn listed_indexes(items: Seq<JsonView>) -> Option<Seq<usize>>
    decreases items.len(),
{
    if items.len() == 0 {
        Some(Seq::empty())
    } else {
        match (listed_indexes(items.drop_last()), items.last()) {
            (Some(earlier), JsonView::Unsigned(n)) if n <= usize::MAX => Some(
                earlier.push(n as usize),
            ),
            _ => None,
        }
    }
}

/// The sources of a chunk, given what their stored text is read as: none where
/// it is no list of indexes.
pub open spec fn stored_sources(parsed: Result<JsonView, Seq<char>>) -> Seq<usize> {
    match parsed {
        Ok(JsonView::Array(items)) => match listed_indexes(items) {
            Some(indexes) => indexes,
            None => Seq::empty(),
        },
        _ => Seq::empty(),
    }
}

proof fn lemma_no_indexes(items: Seq<JsonView>, n: int)
    requires
        0 <= n <= items.len(),
        listed_indexes(items.take(n)) is None,
    ensures
        listed_indexes(items) is None,
    decreases items.len() - n,
{
    if n < items.len() {
        assert(items.take(n + 1).drop_last() =~= items.take(n));
        lemma_no_indexes(items, n + 1);
    } else {
        assert(items.take(n) =~= items);
    }
}

/// The sources of a chunk, given what their stored text is read as.
pub fn judge_sources(parsed: Result<Json, String>) -> (r: Vec<usize>)
    ensures
        r@ == stored_sources(
            match parsed {
                Ok(v) => Ok(v@),
                Err(e) => Err(e@),
            },
        ),
{
    match parsed {
        Ok(Json::Array(items)) => {
            proof {
                json::lemma_array_view(items);
            }
            let ghost all = json::json_views(items@);
            let mut indexes: Vec<usize> = Vec::new();
            let mut i: usize = 0;
            assert(all.take(0) =~= Seq::empty());
            while i < items.len()
                invariant
                    i <= items@.len(),
                    all == json::json_views(items@),
                    parsed == Ok::<Json, String>(Json::Array(items)),
                    Json::Array(items)@ == JsonView::Array(all),
                    listed_indexes(all.take(i as int)) == Some(indexes@),
                decreases items@.len() - i,
            {
                proof {
                    assert(all.take(i + 1).drop_last() =~= all.take(i as int));
                    assert(all.take(i + 1).last() == items@[i as int]@);
                }
                match &items[i] {
                    Json::Unsigned(n) if *n <= usize::MAX as u64 => indexes.push(*n as usize),
                    _ => {
                        proof {
                            lemma_no_indexes(all, i + 1);
                        }
                        return Vec::new();
                    },
                }
                i += 1;
            }
            assert(all.take(i as int) =~= all);
            indexes
        },
        _ => Vec::new(),
    }
}

/// The sources of a chunk, as their list is stored. A text that is no list of
/// indexes counts as an empty one.
pub fn read_sources(stored: &str) -> (r: Vec<usize>)
    ensures
        r@ == stored_sources(json::parsed_json(stored@)),
{
    judge_sources(read_json(stored))
}

/// What is wrong with a dataset that is to be made.
pub open spec fn dataset_problem(l: LibraryView, id: Option<Seq<char>>, name: Seq<char>) -> Option<
    Seq<char>,
> {
    or_else(
        problem_if(text::is_blank(name), "dataset name must not be empty"@),
        or_else(
            id_problem(id, "dataset id"@),
            problem_if(
                id is Some && has_dataset(l, text::trimmed(id->0)),
                "UNIQUE constraint failed: rag_datasets.id"@,
            ),
        ),
    )
}

/// Whether a dataset is refused because the identifier that was drawn for it is
/// taken. A drawn identifier has 36 characters.
pub open spec fn drawn_dataset_is_taken(
    l: LibraryView,
    id: Option<Seq<char>>,
    name: Seq<char>,
    message: Seq<char>,
) -> bool {
    &&& id is None
    &&& dataset_problem(l, id, name) is None
    &&& message == "UNIQUE constraint failed: rag_datasets.id"@
    &&& exists|i: int| 0 <= i < l.datasets.len() && (#[trigger] l.datasets[i]).id.len() == 36
}

impl RagRepository {
    /// Makes a dataset. Where no identifier is asked for, one is drawn.
    pub fn create_dataset(
        &mut self,
        id: Option<&str>,
        name: &str,
        description: Option<&str>,
        now: u64,
    ) -> (r: Result<Dataset, CaseError>)
        ensures
            final(self).path@ == old(self).path@,
            match r {
                Ok(d) => {
                    &&& dataset_problem(old(self)@, json::opt_text(id), name@) is None
                    &&& !has_dataset(old(self)@, d.id@)
                    &&& is_chosen_id(json::opt_text(id), d.id@)
                    &&& d@ == (DatasetView {
                        id: d.id@,
                        name: text::trimmed(name@),
                        description: json::opt_text(description),
                        created_at_ms: now,
                        updated_at_ms: now,
                    })
                    &&& final(self)@ == (LibraryView {
                        datasets: old(self)@.datasets.push(d@),
                        ..old(self)@
                    })
                },
                Err(e) => {
                    &&& final(self)@ == old(self)@
                    &&& dataset_problem(old(self)@, json::opt_text(id), name@) == Some(e.message@)
                        || drawn_dataset_is_taken(
                        old(self)@,
                        json::opt_text(id),
                        name@,
                        e.message@,
                    )
                },
            },
    {
        let name = trim(name);
        if name.is_empty() {
            return Err(CaseError::new("dataset name must not be empty"));
        }
        let id = match request_id_or_uuid(id, "dataset id") {
            Ok(id) => id,
            Err(e) => return Err(e),
        };
        if self.holds_dataset(id.as_str()) {
            return Err(CaseError::new("UNIQUE constraint failed: rag_datasets.id"));
        }
        let dataset = Dataset {
            id,
            name: name.to_owned(),
            description: match description {
                Some(d) => Some(d.to_owned()),
                None => None,
            },
            created_at_ms: now,
            updated_at_ms: now,
        };
        let ghost before = self.datasets@;
        let copy = dataset.clone();
        self.datasets.push(copy);
        assert(case_model::dataset_views(self.datasets@) =~= case_model::dataset_views(
            before,
        ).push(dataset@));
        Ok(dataset)
    }
}

impl Ordered for Dataset {
    /// The newest go first, and among these the lesser id.
    open spec fn precedes(&self, other: &Self) -> bool {
        self.created_at_ms > other.created_at_ms || (self.created_at_ms == other.created_at_ms
            && text::text_before(self.id@, other.id@))
    }

    proof fn order_is_weak(a: &Self, b: &Self, c: &Self) {
        graph_retrieval::lemma_text_order(a.id@, b.id@, c.id@);
    }

    fn goes_before(&self, other: &Self) -> (r: bool) {
        self.created_at_ms > other.created_at_ms || (self.created_at_ms == other.created_at_ms
            && text_less(self.id.as_str(), other.id.as_str()))
    }
}

impl Ordered for Document {
    /// The newest go first, and among these the lesser id.
    open spec fn precedes(&self, other: &Self) -> bool {
        self.created_at_ms > other.created_at_ms || (self.created_at_ms == other.created_at_ms
            && text::text_before(self.id@, other.id@))
    }

    proof fn order_is_weak(a: &Self, b: &Self, c: &Self) {
        graph_retrieval::lemma_text_order(a.id@, b.id@, c.id@);
    }

    fn goes_before(&self, other: &Self) -> (r: bool) {
        self.created_at_ms > other.created_at_ms || (self.created_at_ms == other.created_at_ms
            && text_less(self.id.as_str(), other.id.as_str()))
    }
}

impl Ordered for Chunk {
    /// Chunks go in the order of their document.
    open spec fn precedes(&self, other: &Self) -> bool {
        self.chunk_index < other.chunk_index
    }

    proof fn order_is_weak(a: &Self, b: &Self, c: &Self) {
    }

    fn goes_before(&self, other: &Self) -> (r: bool) {
        self.chunk_index < other.chunk_index
    }
}

/// The documents of a dataset, in the order of the table.
pub open spec fn documents_of(documents: Seq<DocumentView>, dataset_id: Seq<char>) -> Seq<
    DocumentView,
>
    decreases documents.len(),
{
    if documents.len() == 0 {
        Seq::empty()
    } else if documents.last().dataset_id == dataset_id {
        documents_of(documents.drop_last(), dataset_id).push(documents.last())
    } else {
        documents_of(documents.drop_last(), dataset_id)
    }
}

/// Whether a chunk belongs to a document of a dataset.
pub open spec fn chunk_is_of(c: ChunkView, dataset_id: Seq<char>, document_id: Seq<char>) -> bool {
    c.dataset_id == dataset_id && c.document_id == document_id
}

/// The chunks of a document, in the order of the table.
pub open spec fn chunks_of(chunks: Seq<ChunkView>, dataset_id: Seq<char>, document_id: Seq<char>) -> Seq<
    ChunkView,
>
    decreases chunks.len(),
{
    if chunks.len() == 0 {
        Seq::empty()
    } else if chunk_is_of(chunks.last(), dataset_id, document_id) {
        chunks_of(chunks.drop_last(), dataset_id, document_id).push(chunks.last())
    } else {
        chunks_of(chunks.drop_last(), dataset_id, document_id)
    }
}

/// The chunks of all other documents.
pub open spec fn chunks_besides(
    chunks: Seq<ChunkView>,
    dataset_id: Seq<char>,
    document_id: Seq<char>,
) -> Seq<ChunkView>
    decreases chunks.len(),
{
    if chunks.len() == 0 {
        Seq::empty()
    } else if chunk_is_of(chunks.last(), dataset_id, document_id) {
        chunks_besides(chunks.drop_last(), dataset_id, document_id)
    } else {
        chunks_besides(chunks.drop_last(), dataset_id, document_id).push(chunks.last())
    }
}

/// Whether a task belongs to a document of a dataset.
pub open spec fn task_is_of(t: TaskView, dataset_id: Seq<char>, document_id: Seq<char>) -> bool {
    t.dataset_id == dataset_id && t.document_id == document_id
}

/// The tasks besides those of a document; where only pending ones are left out,
/// the others stay.
pub open spec fn tasks_besides(
    tasks: Seq<TaskView>,
    dataset_id: Seq<char>,
    document_id: Seq<char>,
    only_pending: bool,
) -> Seq<TaskView>
    decreases tasks.len(),
{
    if tasks.len() == 0 {
        Seq::empty()
    } else {
        let earlier = tasks_besides(tasks.drop_last(), dataset_id, document_id, only_pending);
        if task_is_of(tasks.last(), dataset_id, document_id) && (!only_pending
            || tasks.last().status == "pending"@) {
            earlier
        } else {
            earlier.push(tasks.last())
        }
    }
}

/// The documents besides one.
pub open spec fn documents_besides(
    documents: Seq<DocumentView>,
    dataset_id: Seq<char>,
    document_id: Seq<char>,
) -> Seq<DocumentView>
    decreases documents.len(),
{
    if documents.len() == 0 {
        Seq::empty()
    } else {
        let earlier = documents_besides(documents.drop_last(), dataset_id, document_id);
        if documents.last().id == document_id && documents.last().dataset_id == dataset_id {
            earlier
        } else {
            earlier.push(documents.last())
        }
    }
}

impl RagRepository {
    /// The datasets, the newest first.
    pub fn list_datasets(&self) -> (r: Vec<Dataset>)
        ensures
            exists|s: Seq<Dataset>|
                case_model::dataset_views(s) == self@.datasets && r@ == order::in_order(s),
    {
        let mut copies: Vec<Dataset> = Vec::new();
        let mut i: usize = 0;
        while i < self.datasets.len()
            invariant
                i <= self.datasets@.len(),
                copies@.len() == i,
                forall|k: int| 0 <= k < i ==> (#[trigger] copies@[k])@ == self.datasets@[k]@,
            decreases self.datasets@.len() - i,
        {
            let copy = self.datasets[i].clone();
            copies.push(copy);
            i += 1;
        }
        assert(case_model::dataset_views(copies@) =~= self@.datasets);
        sort_stable(copies)
    }

    /// The documents of a dataset, the newest first.
    pub fn list_documents(&self, dataset_id: &str) -> (r: Vec<Document>)
        ensures
            exists|s: Seq<Document>|
                case_model::document_views(s) == documents_of(self@.documents, dataset_id@) && r@
                    == order::in_order(s),
    {
        let ghost all = self@.documents;
        let mut copies: Vec<Document> = Vec::new();
        let mut i: usize = 0;
        assert(case_model::document_views(copies@) =~= Seq::<DocumentView>::empty());
        while i < self.documents.len()
            invariant
                i <= self.documents@.len(),
                all == self@.documents,
                case_model::document_views(copies@) == documents_of(
                    all.take(i as int),
                    dataset_id@,
                ),
            decreases self.documents@.len() - i,
        {
            proof {
                assert(all.take(i + 1).drop_last() =~= all.take(i as int));
                assert(all.take(i + 1).last() == self.documents@[i as int]@);
            }
            if text_eq(self.documents[i].dataset_id.as_str(), dataset_id) {
                let ghost before = copies@;
                let copy = self.documents[i].clone();
                copies.push(copy);
                assert(case_model::document_views(copies@) =~= case_model::document_views(
                    before,
                ).push(copy@));
            }
            i += 1;
        }
        assert(all.take(i as int) =~= all);
        sort_stable(copies)
    }

    /// The chunks of a document, in its order.
    pub fn list_chunks(&self, dataset_id: &str, document_id: &str) -> (r: Vec<Chunk>)
        ensures
            exists|s: Seq<Chunk>|
                case_model::chunk_views(s) == chunks_of(self@.chunks, dataset_id@, document_id@)
                    && r@ == order::in_order(s),
    {
        let ghost all = self@.chunks;
        let mut copies: Vec<Chunk> = Vec::new();
        let mut i: usize = 0;
        assert(case_model::chunk_views(copies@) =~= Seq::<ChunkView>::empty());
        while i < self.chunks.len()
            invariant
                i <= self.chunks@.len(),
                all == self@.chunks,
                case_model::chunk_views(copies@) == chunks_of(
                    all.take(i as int),
                    dataset_id@,
                    document_id@,
                ),
            decreases self.chunks@.len() - i,
        {
            proof {
                assert(all.take(i + 1).drop_last() =~= all.take(i as int));
                assert(all.take(i + 1).last() == self.chunks@[i as int]@);
            }
            if text_eq(self.chunks[i].dataset_id.as_str(), dataset_id) && text_eq(
                self.chunks[i].document_id.as_str(),
                document_id,
            ) {
                let ghost before = copies@;
                let copy = self.chunks[i].clone();
                copies.push(copy);
                assert(case_model::chunk_views(copies@) =~= case_model::chunk_views(before).push(
                    copy@,
                ));
            }
            i += 1;
        }
        assert(all.take(i as int) =~= all);
        sort_stable(copies)
    }

    /// The task with an identifier.
    pub fn get_task(&self, id: &str) -> (r: Option<IngestionTask>)
        ensures
            match r {
                Some(t) => exists|k: int|
                    0 <= k < self@.tasks.len() && #[trigger] self@.tasks[k] == t@ && t.id@ == id@
                        && forall|i: int| 0 <= i < k ==> (#[trigger] self@.tasks[i]).id != id@,
                None => !has_task(self@, id@),
            },
    {
        match self.find_task(id) {
            Some(k) => {
                assert(self@.tasks[k as int] == self.tasks@[k as int]@);
                Some(self.tasks[k].clone())
            },
            None => None,
        }
    }

    /// What is needed of the document with an identifier to read its file.
    pub fn get_stored_document(&self, id: &str) -> (r: Option<StoredDocument>)
        ensures
            match r {
                Some(d) => exists|k: int|
                    0 <= k < self@.documents.len() && stored(#[trigger] self@.documents[k]) == d@
                        && d.id@ == id@ && forall|i: int|
                        0 <= i < k ==> (#[trigger] self@.documents[i]).id != id@,
                None => !has_document(self@, id@),
            },
    {
        match self.find_document(id) {
            Some(k) => {
                let d = &self.documents[k];
                let r = StoredDocument {
                    id: d.id.clone(),
                    dataset_id: d.dataset_id.clone(),
                    name: d.name.clone(),
                    file_path: d.file_path.clone(),
                    mime_type: clone_opt(&d.mime_type),
                };
                assert(stored(self@.documents[k as int]) == r@);
                Some(r)
            },
            None => None,
        }
    }
}

/// What is needed of a document to read its file.
pub open spec fn stored(d: DocumentView) -> StoredDocumentView {
    StoredDocumentView {
        id: d.id,
        dataset_id: d.dataset_id,
        name: d.name,
        file_path: d.file_path,
        mime_type: d.mime_type,
    }
}

/// A task that waits to be done.
pub open spec fn waiting_task(
    id: Seq<char>,
    dataset_id: Seq<char>,
    document_id: Seq<char>,
    now: u64,
) -> TaskView {
    TaskView {
        id,
        dataset_id,
        document_id,
        status: "pending"@,
        error: None,
        created_at_ms: now,
        updated_at_ms: now,
        started_at_ms: None,
        completed_at_ms: None,
    }
}

fn new_task(id: String, dataset_id: &str, document_id: &str, now: u64) -> (r: IngestionTask)
    ensures
        r@ == waiting_task(id@, dataset_id@, document_id@, now),
{
    IngestionTask {
        id,
        dataset_id: dataset_id.to_owned(),
        document_id: document_id.to_owned(),
        status: "pending".to_owned(),
        error: None,
        created_at_ms: now,
        updated_at_ms: now,
        started_at_ms: None,
        completed_at_ms: None,
    }
}

/// What is wrong with the name and the path of a document.
pub open spec fn naming_problem(name: Seq<char>, file_path: Seq<char>) -> Option<Seq<char>> {
    or_else(
        problem_if(text::is_blank(name), "document name must not be empty"@),
        problem_if(text::is_blank(file_path), "document file path must not be empty"@),
    )
}

/// What is wrong with the request for a document, whatever identifiers are
/// taken.
pub open spec fn request_problem(
    l: LibraryView,
    dataset_id: Seq<char>,
    document_id: Option<Seq<char>>,
    task_id: Option<Seq<char>>,
    name: Seq<char>,
    file_path: Seq<char>,
) -> Option<Seq<char>> {
    or_else(
        naming_problem(name, file_path),
        or_else(
            problem_if(!has_dataset(l, dataset_id), "dataset not found"@),
            or_else(id_problem(document_id, "document id"@), id_problem(task_id, "task id"@)),
        ),
    )
}

/// What is wrong with a document that is to be made.
pub open spec fn creation_problem(
    l: LibraryView,
    dataset_id: Seq<char>,
    document_id: Option<Seq<char>>,
    task_id: Option<Seq<char>>,
    name: Seq<char>,
    file_path: Seq<char>,
) -> Option<Seq<char>> {
    or_else(
        request_problem(l, dataset_id, document_id, task_id, name, file_path),
        or_else(
            problem_if(
                document_id is Some && has_document(l, text::trimmed(document_id->0)),
                "UNIQUE constraint failed: rag_documents.id"@,
            ),
            problem_if(
                task_id is Some && has_task(l, text::trimmed(task_id->0)),
                "UNIQUE constraint failed: rag_tasks.id"@,
            ),
        ),
    )
}

/// A document that was just uploaded.
pub open spec fn uploaded_document(
    id: Seq<char>,
    dataset_id: Seq<char>,
    name: Seq<char>,
    file_path: Seq<char>,
    mime_type: Option<Seq<char>>,
    size_bytes: u64,
    created: u64,
    now: u64,
) -> DocumentView {
    DocumentView {
        id,
        dataset_id,
        name: text::trimmed(name),
        file_path: text::trimmed(file_path),
        mime_type,
        size_bytes,
        status: "uploaded"@,
        chunk_count: 0,
        error: None,
        created_at_ms: created,
        updated_at_ms: now,
    }
}

fn opt_owned(s: Option<&str>) -> (r: Option<String>)
    ensures
        json::opt_string(r) == json::opt_text(s),
{
    match s {
        Some(s) => Some(s.to_owned()),
        None => None,
    }
}

/// Whether a document is refused because an identifier that was drawn for it or
/// for its task is taken. A drawn identifier has 36 characters.
pub open spec fn drawn_id_is_taken(
    l: LibraryView,
    dataset_id: Seq<char>,
    document_id: Option<Seq<char>>,
    task_id: Option<Seq<char>>,
    name: Seq<char>,
    file_path: Seq<char>,
    message: Seq<char>,
) -> bool {
    ||| {
        &&& document_id is None
        &&& request_problem(l, dataset_id, document_id, task_id, name, file_path) is None
        &&& message == "UNIQUE constraint failed: rag_documents.id"@
        &&& exists|i: int| 0 <= i < l.documents.len() && (#[trigger] l.documents[i]).id.len() == 36
    }
    ||| {
        &&& task_id is None
        &&& creation_problem(l, dataset_id, document_id, task_id, name, file_path) is None
        &&& message == "UNIQUE constraint failed: rag_tasks.id"@
        &&& exists|i: int| 0 <= i < l.tasks.len() && (#[trigger] l.tasks[i]).id.len() == 36
    }
}

/// Whether an update is refused because the identifier that was drawn for its
/// task is taken. A drawn identifier has 36 characters.
pub open spec fn drawn_task_is_taken(
    l: LibraryView,
    dataset_id: Seq<char>,
    document_id: Seq<char>,
    task_id: Option<Seq<char>>,
    name: Seq<char>,
    file_path: Seq<char>,
    message: Seq<char>,
) -> bool {
    let kept = tasks_besides(l.tasks, dataset_id, document_id, true);
    &&& task_id is None
    &&& update_problem(l, dataset_id, document_id, task_id, name, file_path) is None
    &&& message == "UNIQUE constraint failed: rag_tasks.id"@
    &&& exists|i: int| 0 <= i < kept.len() && (#[trigger] kept[i]).id.len() == 36
}

impl RagRepository {
    /// Makes a document, and the task of processing it. Where no identifier is
    /// asked for, one is drawn.
    pub fn create_document_with_task(
        &mut self,
        dataset_id: &str,
        document_id: Option<&str>,
        task_id: Option<&str>,
        name: &str,
        file_path: &str,
        mime_type: Option<&str>,
        size_bytes: u64,
        now: u64,
    ) -> (r: Result<(Document, IngestionTask), CaseError>)
        ensures
            final(self).path@ == old(self).path@,
            match r {
                Ok((d, t)) => {
                    &&& creation_problem(
                        old(self)@,
                        dataset_id@,
                        json::opt_text(document_id),
                        json::opt_text(task_id),
                        name@,
                        file_path@,
                    ) is None
                    &&& !has_document(old(self)@, d.id@)
                    &&& !has_task(old(self)@, t.id@)
                    &&& is_chosen_id(json::opt_text(document_id), d.id@)
                    &&& is_chosen_id(json::opt_text(task_id), t.id@)
                    &&& d@ == uploaded_document(
                        d.id@,
                        dataset_id@,
                        name@,
                        file_path@,
                        json::opt_text(mime_type),
                        size_bytes,
                        now,
                        now,
                    )
                    &&& t@ == waiting_task(t.id@, dataset_id@, d.id@, now)
                    &&& final(self)@ == (LibraryView {
                        documents: old(self)@.documents.push(d@),
                        tasks: old(self)@.tasks.push(t@),
                        ..old(self)@
                    })
                },
                Err(e) => {
                    &&& final(self)@ == old(self)@
                    &&& creation_problem(
                        old(self)@,
                        dataset_id@,
                        json::opt_text(document_id),
                        json::opt_text(task_id),
                        name@,
                        file_path@,
                    ) == Some(e.message@) || drawn_id_is_taken(
                        old(self)@,
                        dataset_id@,
                        json::opt_text(document_id),
                        json::opt_text(task_id),
                        name@,
                        file_path@,
                        e.message@,
                    )
                },
            },
    {
        let name = trim(name);
        let file_path = trim(file_path);
        if name.is_empty() {
            return Err(CaseError::new("document name must not be empty"));
        }
        if file_path.is_empty() {
            return Err(CaseError::new("document file path must not be empty"));
        }
        if !self.holds_dataset(dataset_id) {
            return Err(CaseError::new("dataset not found"));
        }
        let document_id = match request_id_or_uuid(document_id, "document id") {
            Ok(id) => id,
            Err(e) => return Err(e),
        };
        let task_id = match request_id_or_uuid(task_id, "task id") {
            Ok(id) => id,
            Err(e) => return Err(e),
        };
        if self.find_document(document_id.as_str()).is_some() {
            return Err(CaseError::new("UNIQUE constraint failed: rag_documents.id"));
        }
        if self.find_task(task_id.as_str()).is_some() {
            return Err(CaseError::new("UNIQUE constraint failed: rag_tasks.id"));
        }
        let task = new_task(task_id, dataset_id, document_id.as_str(), now);
        let document = Document {
            id: document_id,
            dataset_id: dataset_id.to_owned(),
            name: name.to_owned(),
            file_path: file_path.to_owned(),
            mime_type: opt_owned(mime_type),
            size_bytes,
            status: "uploaded".to_owned(),
            chunk_count: 0,
            error: None,
            created_at_ms: now,
            updated_at_ms: now,
        };
        let ghost documents = self.documents@;
        let ghost tasks = self.tasks@;
        let document_row = document.clone();
        let task_row = task.clone();
        self.documents.push(document_row);
        self.tasks.push(task_row);
        proof {
            assert(case_model::document_views(self.documents@) =~= case_model::document_views(
                documents,
            ).push(document@));
            assert(case_model::task_views(self.tasks@) =~= case_model::task_views(tasks).push(
                task@,
            ));
        }
        Ok((document, task))
    }
}

/// Whether there is a document of a dataset with an identifier.
pub open spec fn has_document_in(l: LibraryView, dataset_id: Seq<char>, id: Seq<char>) -> bool {
    exists|i: int|
        0 <= i < l.documents.len() && (#[trigger] l.documents[i]).id == id
            && l.documents[i].dataset_id == dataset_id
}

/// A document's row after an update.
pub open spec fn updated_row(
    d: DocumentView,
    dataset_id: Seq<char>,
    document_id: Seq<char>,
    new: DocumentView,
) -> DocumentView {
    if d.id == document_id && d.dataset_id == dataset_id {
        DocumentView {
            id: d.id,
            dataset_id: d.dataset_id,
            created_at_ms: d.created_at_ms,
            ..new
        }
    } else {
        d
    }
}

/// The tables after an update of a document: its row says that it was uploaded
/// anew, its chunks and its pending tasks are gone, and a new task waits.
pub open spec fn updated(
    l: LibraryView,
    dataset_id: Seq<char>,
    document_id: Seq<char>,
    new: DocumentView,
    task: TaskView,
) -> LibraryView {
    LibraryView {
        documents: Seq::new(
            l.documents.len(),
            |i: int| updated_row(l.documents[i], dataset_id, document_id, new),
        ),
        tasks: tasks_besides(l.tasks, dataset_id, document_id, true).push(task),
        chunks: chunks_besides(l.chunks, dataset_id, document_id),
        ..l
    }
}

/// What is wrong with an update of a document.
pub open spec fn update_problem(
    l: LibraryView,
    dataset_id: Seq<char>,
    document_id: Seq<char>,
    task_id: Option<Seq<char>>,
    name: Seq<char>,
    file_path: Seq<char>,
) -> Option<Seq<char>> {
    or_else(
        naming_problem(name, file_path),
        or_else(
            problem_if(!has_document_in(l, dataset_id, document_id), "document not found"@),
            or_else(
                id_problem(task_id, "task id"@),
                problem_if(
                    task_id is Some && task_id_remains(
                        l,
                        dataset_id,
                        document_id,
                        text::trimmed(task_id->0),
                    ),
                    "UNIQUE constraint failed: rag_tasks.id"@,
                ),
            ),
        ),
    )
}

/// Whether the identifier of a task is still taken when the pending tasks of a
/// document are gone.
pub open spec fn task_id_remains(
    l: LibraryView,
    dataset_id: Seq<char>,
    document_id: Seq<char>,
    id: Seq<char>,
) -> bool {
    has_task(
        LibraryView { tasks: tasks_besides(l.tasks, dataset_id, document_id, true), ..l },
        id,
    )
}

impl RagRepository {
    fn find_document_in(&self, dataset_id: &str, id: &str) -> (r: Option<usize>)
        ensures
            match r {
                Some(k) => k < self@.documents.len() && self@.documents[k as int].id == id@
                    && self@.documents[k as int].dataset_id == dataset_id@ && forall|i: int|
                    0 <= i < k ==> !((#[trigger] self@.documents[i]).id == id@
                        && self@.documents[i].dataset_id == dataset_id@),
                None => !has_document_in(self@, dataset_id@, id@),
            },
    {
        let mut i: usize = 0;
        while i < self.documents.len()
            invariant
                i <= self.documents@.len(),
                forall|k: int|
                    0 <= k < i ==> !((#[trigger] self@.documents[k]).id == id@
                        && self@.documents[k].dataset_id == dataset_id@),
            decreases self.documents@.len() - i,
        {
            assert(self@.documents[i as int] == self.documents@[i as int]@);
            if text_eq(self.documents[i].id.as_str(), id) && text_eq(
                self.documents[i].dataset_id.as_str(),
                dataset_id,
            ) {
                return Some(i);
            }
            i += 1;
        }
        None
    }

    fn other_chunks(&self, dataset_id: &str, document_id: &str) -> (r: Vec<Chunk>)
        ensures
            case_model::chunk_views(r@) == chunks_besides(
                self@.chunks,
                dataset_id@,
                document_id@,
            ),
    {
        let ghost all = self@.chunks;
        let mut kept: Vec<Chunk> = Vec::new();
        let mut i: usize = 0;
        assert(case_model::chunk_views(kept@) =~= Seq::<ChunkView>::empty());
        while i < self.chunks.len()
            invariant
                i <= self.chunks@.len(),
                all == self@.chunks,
                case_model::chunk_views(kept@) == chunks_besides(
                    all.take(i as int),
                    dataset_id@,
                    document_id@,
                ),
            decreases self.chunks@.len() - i,
        {
            proof {
                assert(all.take(i + 1).drop_last() =~= all.take(i as int));
                assert(all.take(i + 1).last() == self.chunks@[i as int]@);
            }
            if !(text_eq(self.chunks[i].dataset_id.as_str(), dataset_id) && text_eq(
                self.chunks[i].document_id.as_str(),
                document_id,
            )) {
                let ghost before = kept@;
                let copy = self.chunks[i].clone();
                kept.push(copy);
                assert(case_model::chunk_views(kept@) =~= case_model::chunk_views(before).push(
                    copy@,
                ));
            }
            i += 1;
        }
        assert(all.take(i as int) =~= all);
        kept
    }

    fn other_tasks(&self, dataset_id: &str, document_id: &str, only_pending: bool) -> (r: Vec<
        IngestionTask,
    >)
        ensures
            case_model::task_views(r@) == tasks_besides(
                self@.tasks,
                dataset_id@,
                document_id@,
                only_pending,
            ),
    {
        let ghost all = self@.tasks;
        let mut kept: Vec<IngestionTask> = Vec::new();
        let mut i: usize = 0;
        assert(case_model::task_views(kept@) =~= Seq::<TaskView>::empty());
        while i < self.tasks.len()
            invariant
                i <= self.tasks@.len(),
                all == self@.tasks,
                case_model::task_views(kept@) == tasks_besides(
                    all.take(i as int),
                    dataset_id@,
                    document_id@,
                    only_pending,
                ),
            decreases self.tasks@.len() - i,
        {
            proof {
                assert(all.take(i + 1).drop_last() =~= all.take(i as int));
                assert(all.take(i + 1).last() == self.tasks@[i as int]@);
            }
            let t = &self.tasks[i];
            if !(text_eq(t.dataset_id.as_str(), dataset_id) && text_eq(
                t.document_id.as_str(),
                document_id,
            ) && (!only_pending || text_eq(t.status.as_str(), "pending"))) {
                let ghost before = kept@;
                let copy = t.clone();
                kept.push(copy);
                assert(case_model::task_views(kept@) =~= case_model::task_views(before).push(
                    copy@,
                ));
            }
            i += 1;
        }
        assert(all.take(i as int) =~= all);
        kept
    }

    /// Updates a document, and makes the task of processing it anew. Where no
    /// identifier is asked for, one is drawn.
    pub fn update_document_with_task(
        &mut self,
        dataset_id: &str,
        document_id: &str,
        task_id: Option<&str>,
        name: &str,
        file_path: &str,
        mime_type: Option<&str>,
        size_bytes: u64,
        now: u64,
    ) -> (r: Result<(Document, IngestionTask), CaseError>)
        ensures
            final(self).path@ == old(self).path@,
            match r {
                Ok((d, t)) => {
                    &&& update_problem(
                        old(self)@,
                        dataset_id@,
                        document_id@,
                        json::opt_text(task_id),
                        name@,
                        file_path@,
                    ) is None
                    &&& is_chosen_id(json::opt_text(task_id), t.id@)
                    &&& !task_id_remains(old(self)@, dataset_id@, document_id@, t.id@)
                    &&& exists|k: int|
                        0 <= k < old(self)@.documents.len() && (#[trigger] old(
                            self,
                        )@.documents[k]).id == document_id@ && old(self)@.documents[k].dataset_id
                            == dataset_id@ && d@ == uploaded_document(
                            document_id@,
                            dataset_id@,
                            name@,
                            file_path@,
                            json::opt_text(mime_type),
                            size_bytes,
                            old(self)@.documents[k].created_at_ms,
                            now,
                        )
                    &&& t@ == waiting_task(t.id@, dataset_id@, document_id@, now)
                    &&& final(self)@ == updated(old(self)@, dataset_id@, document_id@, d@, t@)
                },
                Err(e) => {
                    &&& final(self)@ == old(self)@
                    &&& update_problem(
                        old(self)@,
                        dataset_id@,
                        document_id@,
                        json::opt_text(task_id),
                        name@,
                        file_path@,
                    ) == Some(e.message@) || drawn_task_is_taken(
                        old(self)@,
                        dataset_id@,
                        document_id@,
                        json::opt_text(task_id),
                        name@,
                        file_path@,
                        e.message@,
                    )
                },
            },
    {
        let name = trim(name);
        let file_path = trim(file_path);
        if name.is_empty() {
            return Err(CaseError::new("document name must not be empty"));
        }
        if file_path.is_empty() {
            return Err(CaseError::new("document file path must not be empty"));
        }
        let k = match self.find_document_in(dataset_id, document_id) {
            Some(k) => k,
            None => return Err(CaseError::new("document not found")),
        };
        let task_id = match request_id_or_uuid(task_id, "task id") {
            Ok(id) => id,
            Err(e) => return Err(e),
        };
        let ghost l = self@;
        let mut tasks = self.other_tasks(dataset_id, document_id, true);
        if holds_task(&tasks, task_id.as_str()) {
            proof {
                let rest = LibraryView {
                    tasks: tasks_besides(l.tasks, dataset_id@, document_id@, true),
                    ..l
                };
                assert(has_task(rest, task_id@));
            }
            return Err(CaseError::new("UNIQUE constraint failed: rag_tasks.id"));
        }
        let chunks = self.other_chunks(dataset_id, document_id);
        let task = new_task(task_id, dataset_id, document_id, now);
        let document = Document {
            id: document_id.to_owned(),
            dataset_id: dataset_id.to_owned(),
            name: name.to_owned(),
            file_path: file_path.to_owned(),
            mime_type: opt_owned(mime_type),
            size_bytes,
            status: "uploaded".to_owned(),
            chunk_count: 0,
            error: None,
            created_at_ms: self.documents[k].created_at_ms,
            updated_at_ms: now,
        };
        assert(self@.documents[k as int] == self.documents@[k as int]@);
        let documents = updated_documents(&self.documents, &document);
        let ghost kept = tasks@;
        let row = task.clone();
        tasks.push(row);
        proof {
            assert(case_model::task_views(tasks@) =~= case_model::task_views(kept).push(task@));
        }
        self.documents = documents;
        self.tasks = tasks;
        self.chunks = chunks;
        proof {
            let after = updated(l, dataset_id@, document_id@, document@, task@);
            assert(self@.documents =~= after.documents);
            assert(self@.tasks =~= after.tasks);
            assert(self@.chunks =~= after.chunks);
        }
        Ok((document, task))
    }
}

fn holds_task(tasks: &Vec<IngestionTask>, id: &str) -> (r: bool)
    ensures
        r == exists|i: int|
            0 <= i < tasks@.len() && (#[trigger] case_model::task_views(tasks@)[i]).id == id@,
{
    let mut i: usize = 0;
    while i < tasks.len()
        invariant
            i <= tasks@.len(),
            forall|k: int|
                0 <= k < i ==> (#[trigger] case_model::task_views(tasks@)[k]).id != id@,
        decreases tasks@.len() - i,
    {
        assert(case_model::task_views(tasks@)[i as int] == tasks@[i as int]@);
        if text_eq(tasks[i].id.as_str(), id) {
            return true;
        }
        i += 1;
    }
    false
}

fn updated_documents(documents: &Vec<Document>, new: &Document) -> (r: Vec<Document>)
    ensures
        case_model::document_views(r@) == Seq::new(
            documents@.len(),
            |i: int| updated_row(documents@[i]@, new.dataset_id@, new.id@, new@),
        ),
{
    let mut r: Vec<Document> = Vec::new();
    let mut i: usize = 0;
    while i < documents.len()
        invariant
            i <= documents@.len(),
            r@.len() == i,
            forall|k: int|
                0 <= k < i ==> (#[trigger] r@[k])@ == updated_row(
                    documents@[k]@,
                    new.dataset_id@,
                    new.id@,
                    new@,
                ),
        decreases documents@.len() - i,
    {
        let d = &documents[i];
        if text_eq(d.id.as_str(), new.id.as_str()) && text_eq(
            d.dataset_id.as_str(),
            new.dataset_id.as_str(),
        ) {
            r.push(
                Document {
                    id: d.id.clone(),
                    dataset_id: d.dataset_id.clone(),
                    name: new.name.clone(),
                    file_path: new.file_path.clone(),
                    mime_type: clone_opt(&new.mime_type),
                    size_bytes: new.size_bytes,
                    status: new.status.clone(),
                    chunk_count: new.chunk_count,
                    error: clone_opt(&new.error),
                    created_at_ms: d.created_at_ms,
                    updated_at_ms: new.updated_at_ms,
                },
            );
        } else {
            let copy = d.clone();
            r.push(copy);
        }
        i += 1;
    }
    assert(case_model::document_views(r@) =~= Seq::new(
        documents@.len(),
        |i: int| updated_row(documents@[i]@, new.dataset_id@, new.id@, new@),
    ));
    r
}

/// The tables after a document was deleted: its chunks and its tasks are gone
/// too.
pub open spec fn deleted(l: LibraryView, dataset_id: Seq<char>, document_id: Seq<char>) -> LibraryView {
    LibraryView {
        documents: documents_besides(l.documents, dataset_id, document_id),
        tasks: tasks_besides(l.tasks, dataset_id, document_id, false),
        chunks: chunks_besides(l.chunks, dataset_id, document_id),
        ..l
    }
}

/// Where the next task to do stands: the oldest pending one, and among these the
/// one with the least id.
pub open spec fn next_pending(tasks: Seq<TaskView>) -> Option<int>
    decreases tasks.len(),
{
    if tasks.len() == 0 {
        None
    } else {
        let earlier = next_pending(tasks.drop_last());
        let t = tasks.last();
        if t.status != "pending"@ {
            earlier
        } else {
            match earlier {
                Some(k) => if is_due_before(t, tasks[k]) {
                    Some(tasks.len() - 1)
                } else {
                    earlier
                },
                None => Some(tasks.len() - 1),
            }
        }
    }
}

pub open spec fn is_due_before(a: TaskView, b: TaskView) -> bool {
    a.created_at_ms < b.created_at_ms || (a.created_at_ms == b.created_at_ms
        && text::text_before(a.id, b.id))
}

proof fn lemma_next_pending(tasks: Seq<TaskView>)
    ensures
        match next_pending(tasks) {
            Some(k) => 0 <= k < tasks.len() && tasks[k].status == "pending"@ && forall|i: int|
                0 <= i < tasks.len() && (#[trigger] tasks[i]).status == "pending"@
                    ==> !is_due_before(tasks[i], tasks[k]),
            None => forall|i: int|
                0 <= i < tasks.len() ==> (#[trigger] tasks[i]).status != "pending"@,
        },
    decreases tasks.len(),
{
    if tasks.len() > 0 {
        let t = tasks.drop_last();
        let last = tasks.last();
        lemma_next_pending(t);
        match next_pending(tasks) {
            Some(k) => {
                assert forall|i: int|
                    0 <= i < tasks.len() && (#[trigger] tasks[i]).status
                        == "pending"@ implies !is_due_before(tasks[i], tasks[k]) by {
                    match next_pending(t) {
                        Some(j) => {
                            assert(t[j] == tasks[j]);
                            if i < t.len() {
                                assert(t[i] == tasks[i]);
                                graph_retrieval::lemma_text_order(
                                    tasks[k].id,
                                    tasks[j].id,
                                    tasks[i].id,
                                );
                                graph_retrieval::lemma_text_order(
                                    tasks[i].id,
                                    tasks[j].id,
                                    tasks[k].id,
                                );
                                text::text_before_is_total(tasks[i].id, tasks[j].id);
                                text::text_before_is_total(tasks[k].id, tasks[j].id);
                            } else {
                                graph_retrieval::lemma_text_order(
                                    tasks[i].id,
                                    tasks[k].id,
                                    tasks[k].id,
                                );
                            }
                        },
                        None => {
                            if i < t.len() {
                                assert(t[i] == tasks[i]);
                            } else {
                                graph_retrieval::lemma_text_order(
                                    tasks[i].id,
                                    tasks[k].id,
                                    tasks[k].id,
                                );
                            }
                        },
                    }
                }
            },
            None => {
                assert forall|i: int| 0 <= i < tasks.len() implies (#[trigger] tasks[i]).status
                    != "pending"@ by {
                    if i < t.len() {
                        assert(t[i] == tasks[i]);
                    }
                }
            },
        }
    }
}

/// A task that is leased.
pub open spec fn leased_task(t: TaskView, now: u64) -> TaskView {
    TaskView { status: "running"@, updated_at_ms: now, started_at_ms: Some(now), ..t }
}

/// Each document with an identifier, changed; the others as they are.
pub open spec fn with_status(
    documents: Seq<DocumentView>,
    id: Seq<char>,
    status: Seq<char>,
    chunk_count: Option<usize>,
    error: Option<Seq<char>>,
    now: u64,
) -> Seq<DocumentView> {
    Seq::new(
        documents.len(),
        |i: int| status_row(documents[i], id, status, chunk_count, error, now),
    )
}

pub open spec fn status_row(
    d: DocumentView,
    id: Seq<char>,
    status: Seq<char>,
    chunk_count: Option<usize>,
    error: Option<Seq<char>>,
    now: u64,
) -> DocumentView {
    if d.id == id {
        DocumentView {
            status,
            chunk_count: match chunk_count {
                Some(n) => n,
                None => d.chunk_count,
            },
            error,
            updated_at_ms: now,
            ..d
        }
    } else {
        d
    }
}

/// The tables after the next task was leased.
pub open spec fn leased(l: LibraryView, k: int, now: u64) -> LibraryView {
    LibraryView {
        tasks: l.tasks.update(k, leased_task(l.tasks[k], now)),
        documents: with_status(
            l.documents,
            l.tasks[k].document_id,
            "running"@,
            None,
            None,
            now,
        ),
        ..l
    }
}

/// A finished task.
pub open spec fn finished_row(
    t: TaskView,
    id: Seq<char>,
    status: Seq<char>,
    error: Option<Seq<char>>,
    now: u64,
) -> TaskView {
    if t.id == id {
        TaskView { status, error, updated_at_ms: now, completed_at_ms: Some(now), ..t }
    } else {
        t
    }
}

/// The tables after a task was finished.
pub open spec fn finished(
    l: LibraryView,
    task_id: Seq<char>,
    document_id: Seq<char>,
    status: Seq<char>,
    chunk_count: Option<usize>,
    error: Option<Seq<char>>,
    now: u64,
) -> LibraryView {
    LibraryView {
        tasks: Seq::new(
            l.tasks.len(),
            |i: int| finished_row(l.tasks[i], task_id, status, error, now),
        ),
        documents: with_status(l.documents, document_id, status, chunk_count, error, now),
        ..l
    }
}

fn documents_with_status(
    documents: &Vec<Document>,
    id: &str,
    status: &str,
    chunk_count: Option<usize>,
    error: Option<&str>,
    now: u64,
) -> (r: Vec<Document>)
    ensures
        case_model::document_views(r@) == with_status(
            case_model::document_views(documents@),
            id@,
            status@,
            chunk_count,
            json::opt_text(error),
            now,
        ),
{
    let mut r: Vec<Document> = Vec::new();
    let mut i: usize = 0;
    while i < documents.len()
        invariant
            i <= documents@.len(),
            r@.len() == i,
            forall|k: int|
                0 <= k < i ==> (#[trigger] r@[k])@ == status_row(
                    documents@[k]@,
                    id@,
                    status@,
                    chunk_count,
                    json::opt_text(error),
                    now,
                ),
        decreases documents@.len() - i,
    {
        let mut d = documents[i].clone();
        if text_eq(d.id.as_str(), id) {
            d.status = status.to_owned();
            match chunk_count {
                Some(n) => {
                    d.chunk_count = n;
                },
                None => {},
            }
            d.error = opt_owned(error);
            d.updated_at_ms = now;
        }
        r.push(d);
        i += 1;
    }
    assert(case_model::document_views(r@) =~= with_status(
        case_model::document_views(documents@),
        id@,
        status@,
        chunk_count,
        json::opt_text(error),
        now,
    ));
    r
}

/// Whether a task or a chunk belongs to a document.
pub open spec fn is_referred_to(l: LibraryView, document_id: Seq<char>) -> bool {
    (exists|i: int| 0 <= i < l.tasks.len() && (#[trigger] l.tasks[i]).document_id == document_id)
        || (exists|i: int|
        0 <= i < l.chunks.len() && (#[trigger] l.chunks[i]).document_id == document_id)
}

fn refers_to(tasks: &Vec<IngestionTask>, chunks: &Vec<Chunk>, document_id: &str) -> (r: bool)
    ensures
        r == ((exists|i: int|
            0 <= i < tasks@.len() && (#[trigger] case_model::task_views(tasks@)[i]).document_id
                == document_id@) || (exists|i: int|
            0 <= i < chunks@.len() && (#[trigger] case_model::chunk_views(chunks@)[i]).document_id
                == document_id@)),
{
    let mut i: usize = 0;
    while i < tasks.len()
        invariant
            i <= tasks@.len(),
            forall|k: int|
                0 <= k < i ==> (#[trigger] case_model::task_views(tasks@)[k]).document_id
                    != document_id@,
        decreases tasks@.len() - i,
    {
        assert(case_model::task_views(tasks@)[i as int] == tasks@[i as int]@);
        if text_eq(tasks[i].document_id.as_str(), document_id) {
            return true;
        }
        i += 1;
    }
    let mut j: usize = 0;
    while j < chunks.len()
        invariant
            j <= chunks@.len(),
            forall|k: int|
                0 <= k < tasks@.len() ==> (#[trigger] case_model::task_views(
                    tasks@,
                )[k]).document_id != document_id@,
            forall|k: int|
                0 <= k < j ==> (#[trigger] case_model::chunk_views(chunks@)[k]).document_id
                    != document_id@,
        decreases chunks@.len() - j,
    {
        assert(case_model::chunk_views(chunks@)[j as int] == chunks@[j as int]@);
        if text_eq(chunks[j].document_id.as_str(), document_id) {
            return true;
        }
        j += 1;
    }
    false
}

impl RagRepository {
    /// Deletes a document with its chunks and its tasks, and returns it. It cannot
    /// be deleted while tasks or chunks of another dataset refer to it.
    pub fn delete_document(&mut self, dataset_id: &str, document_id: &str) -> (r: Result<
        Option<Document>,
        CaseError,
    >)
        ensures
            final(self).path@ == old(self).path@,
            match r {
                Ok(Some(d)) => {
                    &&& !is_referred_to(
                        deleted(old(self)@, dataset_id@, document_id@),
                        document_id@,
                    )
                    &&& exists|k: int|
                        0 <= k < old(self)@.documents.len() && #[trigger] old(self)@.documents[k]
                            == d@ && d.id@ == document_id@ && d.dataset_id@ == dataset_id@
                    &&& final(self)@ == deleted(old(self)@, dataset_id@, document_id@)
                },
                Ok(None) => {
                    &&& !has_document_in(old(self)@, dataset_id@, document_id@)
                    &&& final(self)@ == old(self)@
                },
                Err(e) => {
                    &&& has_document_in(old(self)@, dataset_id@, document_id@)
                    &&& is_referred_to(
                        deleted(old(self)@, dataset_id@, document_id@),
                        document_id@,
                    )
                    &&& e.message@ == "FOREIGN KEY constraint failed"@
                    &&& final(self)@ == old(self)@
                },
            },
    {
        let k = match self.find_document_in(dataset_id, document_id) {
            Some(k) => k,
            None => return Ok(None),
        };
        assert(self@.documents[k as int] == self.documents@[k as int]@);
        let document = self.documents[k].clone();
        let ghost l = self@;
        let tasks = self.other_tasks(dataset_id, document_id, false);
        let chunks = self.other_chunks(dataset_id, document_id);
        let ghost after = deleted(l, dataset_id@, document_id@);
        let referred = refers_to(&tasks, &chunks, document_id);
        proof {
            assert(after.tasks == case_model::task_views(tasks@));
            assert(after.chunks == case_model::chunk_views(chunks@));
            assert(referred == is_referred_to(after, document_id@));
            assert(l.documents[k as int].id == document_id@);
        }
        if referred {
            return Err(CaseError::new("FOREIGN KEY constraint failed"));
        }
        let mut kept: Vec<Document> = Vec::new();
        let mut i: usize = 0;
        assert(case_model::document_views(kept@) =~= Seq::<DocumentView>::empty());
        while i < self.documents.len()
            invariant
                i <= self.documents@.len(),
                l == self@,
                l == old(self)@,
                self.path@ == old(self).path@,
                case_model::document_views(kept@) == documents_besides(
                    l.documents.take(i as int),
                    dataset_id@,
                    document_id@,
                ),
            decreases self.documents@.len() - i,
        {
            proof {
                assert(l.documents.take(i + 1).drop_last() =~= l.documents.take(i as int));
                assert(l.documents.take(i + 1).last() == self.documents@[i as int]@);
            }
            let d = &self.documents[i];
            if !(text_eq(d.id.as_str(), document_id) && text_eq(
                d.dataset_id.as_str(),
                dataset_id,
            )) {
                let ghost before = kept@;
                let copy = d.clone();
                kept.push(copy);
                assert(case_model::document_views(kept@) =~= case_model::document_views(
                    before,
                ).push(copy@));
            }
            i += 1;
        }
        assert(l.documents.take(i as int) =~= l.documents);
        self.documents = kept;
        self.tasks = tasks;
        self.chunks = chunks;
        Ok(Some(document))
    }

    /// Leases the next task to do.
    pub fn lease_next_pending_task(&mut self, now: u64) -> (r: Option<IngestionTask>)
        ensures
            final(self).path@ == old(self).path@,
            match (r, next_pending(old(self)@.tasks)) {
                (Some(t), Some(k)) => t@ == leased_task(old(self)@.tasks[k], now) && final(self)@
                    == leased(old(self)@, k, now),
                (None, None) => final(self)@ == old(self)@,
                _ => false,
            },
    {
        let ghost l = self@;
        let mut best: Option<usize> = None;
        let mut i: usize = 0;
        while i < self.tasks.len()
            invariant
                i <= self.tasks@.len(),
                l == self@,
                l == old(self)@,
                self.path@ == old(self).path@,
                match (best, next_pending(l.tasks.take(i as int))) {
                    (Some(k), Some(q)) => k == q && k < i,
                    (None, None) => true,
                    _ => false,
                },
            decreases self.tasks@.len() - i,
        {
            let t = &self.tasks[i];
            proof {
                assert(l.tasks.take(i + 1).drop_last() =~= l.tasks.take(i as int));
                assert(l.tasks.take(i + 1).last() == t@);
                match best {
                    Some(k) => {
                        assert(l.tasks.take(i + 1)[k as int] == self.tasks@[k as int]@);
                    },
                    None => {},
                }
            }
            if text_eq(t.status.as_str(), "pending") {
                let better = match best {
                    Some(k) => {
                        let b = &self.tasks[k];
                        t.created_at_ms < b.created_at_ms || (t.created_at_ms == b.created_at_ms
                            && text_less(t.id.as_str(), b.id.as_str()))
                    },
                    None => true,
                };
                if better {
                    best = Some(i);
                }
            }
            i += 1;
        }
        assert(l.tasks.take(i as int) =~= l.tasks);
        let k = match best {
            Some(k) => k,
            None => return None,
        };
        let ghost tasks = self.tasks@;
        let mut task = self.tasks[k].clone();
        assert(l.tasks[k as int] == tasks[k as int]@);
        task.status = "running".to_owned();
        task.updated_at_ms = now;
        task.started_at_ms = Some(now);
        let documents = documents_with_status(
            &self.documents,
            task.document_id.as_str(),
            "running",
            None,
            None,
            now,
        );
        let row = task.clone();
        self.tasks.set(k, row);
        self.documents = documents;
        proof {
            assert(self@.tasks =~= l.tasks.update(k as int, task@));
        }
        Some(task)
    }

    fn finish_task(
        &mut self,
        task_id: &str,
        document_id: &str,
        status: &str,
        chunk_count: Option<usize>,
        error: Option<&str>,
        now: u64,
    )
        ensures
            final(self).path@ == old(self).path@,
            final(self)@ == finished(
                old(self)@,
                task_id@,
                document_id@,
                status@,
                chunk_count,
                json::opt_text(error),
                now,
            ),
    {
        let ghost l = self@;
        let mut tasks: Vec<IngestionTask> = Vec::new();
        let mut i: usize = 0;
        while i < self.tasks.len()
            invariant
                i <= self.tasks@.len(),
                l == self@,
                l == old(self)@,
                self.path@ == old(self).path@,
                tasks@.len() == i,
                forall|k: int|
                    0 <= k < i ==> (#[trigger] tasks@[k])@ == finished_row(
                        l.tasks[k],
                        task_id@,
                        status@,
                        json::opt_text(error),
                        now,
                    ),
            decreases self.tasks@.len() - i,
        {
            let mut t = self.tasks[i].clone();
            assert(l.tasks[i as int] == self.tasks@[i as int]@);
            if text_eq(t.id.as_str(), task_id) {
                t.status = status.to_owned();
                t.error = opt_owned(error);
                t.updated_at_ms = now;
                t.completed_at_ms = Some(now);
            }
            tasks.push(t);
            i += 1;
        }
        let documents = documents_with_status(
            &self.documents,
            document_id,
            status,
            chunk_count,
            error,
            now,
        );
        self.tasks = tasks;
        self.documents = documents;
        proof {
            let after = finished(
                l,
                task_id@,
                document_id@,
                status@,
                chunk_count,
                json::opt_text(error),
                now,
            );
            assert(self@.tasks =~= after.tasks);
        }
    }

    /// Notes that a task is done, and how many chunks its document has.
    pub fn complete_task(&mut self, task_id: &str, document_id: &str, chunk_count: usize, now: u64)
        ensures
            final(self).path@ == old(self).path@,
            final(self)@ == finished(
                old(self)@,
                task_id@,
                document_id@,
                "completed"@,
                Some(chunk_count),
                None,
                now,
            ),
    {
        self.finish_task(task_id, document_id, "completed", Some(chunk_count), None, now);
    }

    /// Notes that a task has failed, and why.
    pub fn fail_task(&mut self, task_id: &str, document_id: &str, error: &str, now: u64)
        ensures
            final(self).path@ == old(self).path@,
            final(self)@ == finished(
                old(self)@,
                task_id@,
                document_id@,
                "failed"@,
                None,
                Some(error@),
                now,
            ),
    {
        self.finish_task(task_id, document_id, "failed", None, Some(error), now);
    }

    /// Puts chunks in the place of those that a document has.
    pub fn replace_chunks(&mut self, dataset_id: &str, document_id: &str, chunks: &Vec<Chunk>) -> (r:
        Result<(), CaseError>)
        ensures
            final(self).path@ == old(self).path@,
            match r {
                Ok(_) => {
                    &&& replace_problem(
                        old(self)@,
                        chunks_besides(old(self)@.chunks, dataset_id@, document_id@),
                        case_model::chunk_views(chunks@),
                    ) is None
                    &&& final(self)@ == (LibraryView {
                        chunks: chunks_besides(old(self)@.chunks, dataset_id@, document_id@)
                            + case_model::chunk_views(chunks@),
                        ..old(self)@
                    })
                },
                Err(e) => {
                    &&& replace_problem(
                        old(self)@,
                        chunks_besides(old(self)@.chunks, dataset_id@, document_id@),
                        case_model::chunk_views(chunks@),
                    ) == Some(e.message@)
                    &&& final(self)@ == old(self)@
                },
            },
    {
        let mut kept = self.other_chunks(dataset_id, document_id);
        let ghost l = self@;
        let ghost rest = case_model::chunk_views(kept@);
        let ghost new = case_model::chunk_views(chunks@);
        let mut i: usize = 0;
        assert(rest + new.take(0) =~= rest);
        while i < chunks.len()
            invariant
                i <= chunks@.len(),
                l == self@,
                l == old(self)@,
                self.path@ == old(self).path@,
                rest == chunks_besides(l.chunks, dataset_id@, document_id@),
                new == case_model::chunk_views(chunks@),
                case_model::chunk_views(kept@) == rest + new.take(i as int),
                replace_problem(l, rest, new.take(i as int)) is None,
            decreases chunks@.len() - i,
        {
            let ghost before = kept@;
            proof {
                assert(new.take(i + 1).drop_last() =~= new.take(i as int));
                assert(new.take(i + 1).last() == chunks@[i as int]@);
            }
            if holds_chunk(&kept, chunks[i].id.as_str()) {
                proof {
                    lemma_replace_problem_stays(l, rest, new, i + 1);
                }
                return Err(CaseError::new("UNIQUE constraint failed: rag_chunks.id"));
            }
            if !self.holds_dataset(chunks[i].dataset_id.as_str()) || self.find_document(
                chunks[i].document_id.as_str(),
            ).is_none() {
                proof {
                    lemma_replace_problem_stays(l, rest, new, i + 1);
                }
                return Err(CaseError::new("FOREIGN KEY constraint failed"));
            }
            let copy = chunks[i].clone();
            kept.push(copy);
            proof {
                assert(case_model::chunk_views(kept@) =~= case_model::chunk_views(before).push(
                    new[i as int],
                ));
                assert(rest + new.take(i + 1) =~= (rest + new.take(i as int)).push(
                    new[i as int],
                ));
            }
            i += 1;
        }
        assert(new.take(i as int) =~= new);
        self.chunks = kept;
        Ok(())
    }
}

/// What is wrong with chunks that are added to others: each needs an identifier
/// of its own, a dataset and a document.
pub open spec fn replace_problem(l: LibraryView, rest: Seq<ChunkView>, new: Seq<ChunkView>) -> Option<
    Seq<char>,
>
    decreases new.len(),
{
    if new.len() == 0 {
        None
    } else {
        let c = new.last();
        or_else(
            replace_problem(l, rest, new.drop_last()),
            or_else(
                problem_if(
                    chunk_id_is_taken(rest + new.drop_last(), c.id),
                    "UNIQUE constraint failed: rag_chunks.id"@,
                ),
                problem_if(
                    !has_dataset(l, c.dataset_id) || !has_document(l, c.document_id),
                    "FOREIGN KEY constraint failed"@,
                ),
            ),
        )
    }
}

pub open spec fn chunk_id_is_taken(chunks: Seq<ChunkView>, id: Seq<char>) -> bool {
    exists|i: int| 0 <= i < chunks.len() && (#[trigger] chunks[i]).id == id
}

proof fn lemma_replace_problem_stays(
    l: LibraryView,
    rest: Seq<ChunkView>,
    new: Seq<ChunkView>,
    n: int,
)
    requires
        0 <= n <= new.len(),
        replace_problem(l, rest, new.take(n)) is Some,
    ensures
        replace_problem(l, rest, new) == replace_problem(l, rest, new.take(n)),
    decreases new.len() - n,
{
    if n < new.len() {
        assert(new.take(n + 1).drop_last() =~= new.take(n));
        lemma_replace_problem_stays(l, rest, new, n + 1);
    } else {
        assert(new.take(n) =~= new);
    }
}

fn holds_chunk(chunks: &Vec<Chunk>, id: &str) -> (r: bool)
    ensures
        r == chunk_id_is_taken(case_model::chunk_views(chunks@), id@),
{
    let ghost all = case_model::chunk_views(chunks@);
    let mut i: usize = 0;
    while i < chunks.len()
        invariant
            i <= chunks@.len(),
            all == case_model::chunk_views(chunks@),
            forall|k: int| 0 <= k < i ==> (#[trigger] all[k]).id != id@,
        decreases chunks@.len() - i,
    {
        assert(all[i as int] == chunks@[i as int]@);
        if text_eq(chunks[i].id.as_str(), id) {
            return true;
        }
        i += 1;
    }
    false
}

/// The task that is leased is pending, and no pending task is due before it.
pub proof fn oldest_tasks_go_first(tasks: Seq<TaskView>, k: int, i: int)
    requires
        next_pending(tasks) == Some(k),
        0 <= i < tasks.len(),
        tasks[i].status == "pending"@,
    ensures
        0 <= k < tasks.len(),
        tasks[k].status == "pending"@,
        !is_due_before(tasks[i], tasks[k]),
{
    lemma_next_pending(tasks);
}

/// Where a task is pending, one is leased.
pub proof fn pending_tasks_are_leased(tasks: Seq<TaskView>, i: int)
    requires
        0 <= i < tasks.len(),
        tasks[i].status == "pending"@,
    ensures
        next_pending(tasks) is Some,
{
    lemma_next_pending(tasks);
}

proof fn lemma_no_chunks_left(chunks: Seq<ChunkView>, dataset_id: Seq<char>, document_id: Seq<char>)
    ensures
        chunks_of(chunks_besides(chunks, dataset_id, document_id), dataset_id, document_id)
            == Seq::<ChunkView>::empty(),
    decreases chunks.len(),
{
    if chunks.len() > 0 {
        let t = chunks.drop_last();
        lemma_no_chunks_left(t, dataset_id, document_id);
        if !chunk_is_of(chunks.last(), dataset_id, document_id) {
            assert(chunks_besides(chunks, dataset_id, document_id).drop_last()
                =~= chunks_besides(t, dataset_id, document_id));
        }
    }
}

/// Where a chunk that stays stood before.
proof fn lemma_kept_chunk(
    chunks: Seq<ChunkView>,
    dataset_id: Seq<char>,
    document_id: Seq<char>,
    i: int,
) -> (k: int)
    requires
        0 <= i < chunks_besides(chunks, dataset_id, document_id).len(),
    ensures
        0 <= k < chunks.len(),
        chunks[k] == chunks_besides(chunks, dataset_id, document_id)[i],
        !chunk_is_of(chunks[k], dataset_id, document_id),
    decreases chunks.len(),
{
    let t = chunks.drop_last();
    let earlier = chunks_besides(t, dataset_id, document_id);
    if i < earlier.len() {
        lemma_kept_chunk(t, dataset_id, document_id, i)
    } else {
        chunks.len() - 1
    }
}

/// Where a task that stays stood before.
proof fn lemma_kept_task(
    tasks: Seq<TaskView>,
    dataset_id: Seq<char>,
    document_id: Seq<char>,
    only_pending: bool,
    i: int,
) -> (k: int)
    requires
        0 <= i < tasks_besides(tasks, dataset_id, document_id, only_pending).len(),
    ensures
        0 <= k < tasks.len(),
        tasks[k] == tasks_besides(tasks, dataset_id, document_id, only_pending)[i],
        !(task_is_of(tasks[k], dataset_id, document_id) && (!only_pending || tasks[k].status
            == "pending"@)),
    decreases tasks.len(),
{
    let t = tasks.drop_last();
    let earlier = tasks_besides(t, dataset_id, document_id, only_pending);
    if i < earlier.len() {
        lemma_kept_task(t, dataset_id, document_id, only_pending, i)
    } else {
        tasks.len() - 1
    }
}

proof fn lemma_kept_tasks_differ(
    tasks: Seq<TaskView>,
    dataset_id: Seq<char>,
    document_id: Seq<char>,
    only_pending: bool,
    i: int,
    j: int,
)
    requires
        forall|i: int, j: int|
            0 <= i < j < tasks.len() ==> (#[trigger] tasks[i]).id != (#[trigger] tasks[j]).id,
        0 <= i < j < tasks_besides(tasks, dataset_id, document_id, only_pending).len(),
    ensures
        tasks_besides(tasks, dataset_id, document_id, only_pending)[i].id != tasks_besides(
            tasks,
            dataset_id,
            document_id,
            only_pending,
        )[j].id,
    decreases tasks.len(),
{
    let t = tasks.drop_last();
    let earlier = tasks_besides(t, dataset_id, document_id, only_pending);
    if j < earlier.len() {
        assert forall|a: int, b: int| 0 <= a < b < t.len() implies (#[trigger] t[a]).id
            != (#[trigger] t[b]).id by {
            assert(t[a] == tasks[a] && t[b] == tasks[b]);
        }
        lemma_kept_tasks_differ(t, dataset_id, document_id, only_pending, i, j);
    } else {
        let k = lemma_kept_task(t, dataset_id, document_id, only_pending, i);
        assert(tasks[k] == t[k]);
        assert(tasks[tasks.len() - 1].id != tasks[k].id);
    }
}

/// Where a document that stays stood before.
proof fn lemma_kept_document(
    documents: Seq<DocumentView>,
    dataset_id: Seq<char>,
    document_id: Seq<char>,
    i: int,
) -> (k: int)
    requires
        0 <= i < documents_besides(documents, dataset_id, document_id).len(),
    ensures
        0 <= k < documents.len(),
        documents[k] == documents_besides(documents, dataset_id, document_id)[i],
        !(documents[k].id == document_id && documents[k].dataset_id == dataset_id),
    decreases documents.len(),
{
    let t = documents.drop_last();
    let earlier = documents_besides(t, dataset_id, document_id);
    if i < earlier.len() {
        lemma_kept_document(t, dataset_id, document_id, i)
    } else {
        documents.len() - 1
    }
}

/// An update leaves a document without chunks, and with one pending task: the
/// new one.
pub proof fn updates_start_over(
    l: LibraryView,
    dataset_id: Seq<char>,
    document_id: Seq<char>,
    new: DocumentView,
    task_id: Seq<char>,
    now: u64,
    i: int,
)
    requires
        0 <= i < updated(
            l,
            dataset_id,
            document_id,
            new,
            waiting_task(task_id, dataset_id, document_id, now),
        ).tasks.len(),
    ensures
        ({
            let after = updated(
                l,
                dataset_id,
                document_id,
                new,
                waiting_task(task_id, dataset_id, document_id, now),
            );
            &&& chunks_of(after.chunks, dataset_id, document_id) == Seq::<ChunkView>::empty()
            &&& task_is_of(after.tasks[i], dataset_id, document_id) && after.tasks[i].status
                == "pending"@ ==> i == after.tasks.len() - 1
            &&& after.tasks.last() == waiting_task(task_id, dataset_id, document_id, now)
        }),
{
    lemma_no_chunks_left(l.chunks, dataset_id, document_id);
    let kept = tasks_besides(l.tasks, dataset_id, document_id, true);
    if i < kept.len() {
        let k = lemma_kept_task(l.tasks, dataset_id, document_id, true, i);
        assert(kept.push(waiting_task(task_id, dataset_id, document_id, now))[i] == kept[i]);
    }
}

/// Nothing is left of a document that is deleted: neither itself, nor a chunk,
/// nor a task.
pub proof fn deleting_leaves_no_trace(
    l: LibraryView,
    dataset_id: Seq<char>,
    document_id: Seq<char>,
    i: int,
)
    ensures
        ({
            let after = deleted(l, dataset_id, document_id);
            &&& !has_document_in(after, dataset_id, document_id)
            &&& chunks_of(after.chunks, dataset_id, document_id) == Seq::<ChunkView>::empty()
            &&& 0 <= i < after.tasks.len() ==> !task_is_of(
                after.tasks[i],
                dataset_id,
                document_id,
            )
        }),
{
    let after = deleted(l, dataset_id, document_id);
    lemma_no_chunks_left(l.chunks, dataset_id, document_id);
    if 0 <= i < after.tasks.len() {
        let k = lemma_kept_task(l.tasks, dataset_id, document_id, false, i);
    }
    assert forall|j: int| 0 <= j < after.documents.len() implies !((#[trigger] after.documents[j]).id
        == document_id && after.documents[j].dataset_id == dataset_id) by {
        let k = lemma_kept_document(l.documents, dataset_id, document_id, j);
    }
}

/// Making a dataset keeps the tables sound.
pub proof fn new_datasets_keep_tables_sound(l: LibraryView, d: DatasetView)
    requires
        sound(l),
        !has_dataset(l, d.id),
    ensures
        sound(LibraryView { datasets: l.datasets.push(d), ..l }),
{
    let after = LibraryView { datasets: l.datasets.push(d), ..l };
    assert forall|i: int, j: int| 0 <= i < j < after.datasets.len() implies (
    #[trigger] after.datasets[i]).id != (#[trigger] after.datasets[j]).id by {
        assert(after.datasets[i] == l.datasets[i]);
        if j < l.datasets.len() {
            assert(after.datasets[j] == l.datasets[j]);
        }
    }
    assert forall|i: int| 0 <= i < after.documents.len() implies has_dataset(
        after,
        (#[trigger] after.documents[i]).dataset_id,
    ) by {
        assert(has_dataset(l, l.documents[i].dataset_id));
        let k = choose|k: int|
            0 <= k < l.datasets.len() && (#[trigger] l.datasets[k]).id
                == l.documents[i].dataset_id;
        assert(after.datasets[k].id == l.documents[i].dataset_id);
    }
    lemma_documents_stay(l, after);
}

proof fn lemma_documents_stay(l: LibraryView, after: LibraryView)
    requires
        l.documents == after.documents,
    ensures
        forall|d: Seq<char>, id: Seq<char>|
            #[trigger] has_document_in(l, d, id) == has_document_in(after, d, id),
{
}

/// Making a document and its task keeps the tables sound.
pub proof fn new_documents_keep_tables_sound(l: LibraryView, d: DocumentView, t: TaskView)
    requires
        sound(l),
        has_dataset(l, d.dataset_id),
        !has_document(l, d.id),
        !has_task(l, t.id),
        t.dataset_id == d.dataset_id,
        t.document_id == d.id,
    ensures
        sound(LibraryView { documents: l.documents.push(d), tasks: l.tasks.push(t), ..l }),
{
    let after = LibraryView { documents: l.documents.push(d), tasks: l.tasks.push(t), ..l };
    assert forall|i: int, j: int| 0 <= i < j < after.documents.len() implies (
    #[trigger] after.documents[i]).id != (#[trigger] after.documents[j]).id by {
        assert(after.documents[i] == l.documents[i]);
        if j < l.documents.len() {
            assert(after.documents[j] == l.documents[j]);
        }
    }
    assert forall|i: int, j: int| 0 <= i < j < after.tasks.len() implies (
    #[trigger] after.tasks[i]).id != (#[trigger] after.tasks[j]).id by {
        assert(after.tasks[i] == l.tasks[i]);
        if j < l.tasks.len() {
            assert(after.tasks[j] == l.tasks[j]);
        }
    }
    assert forall|i: int| 0 <= i < after.documents.len() implies has_dataset(
        after,
        (#[trigger] after.documents[i]).dataset_id,
    ) by {
        if i < l.documents.len() {
            assert(has_dataset(l, l.documents[i].dataset_id));
        }
    }
    assert forall|i: int| 0 <= i < after.tasks.len() implies has_document_in(
        after,
        (#[trigger] after.tasks[i]).dataset_id,
        after.tasks[i].document_id,
    ) by {
        if i < l.tasks.len() {
            assert(after.tasks[i] == l.tasks[i]);
            lemma_document_stays(l, after, l.tasks[i].dataset_id, l.tasks[i].document_id);
        } else {
            assert(after.documents[l.documents.len() as int] == d);
        }
    }
    assert forall|i: int| 0 <= i < after.chunks.len() implies has_document_in(
        after,
        (#[trigger] after.chunks[i]).dataset_id,
        after.chunks[i].document_id,
    ) by {
        lemma_document_stays(l, after, l.chunks[i].dataset_id, l.chunks[i].document_id);
    }
}

proof fn lemma_document_stays(
    l: LibraryView,
    after: LibraryView,
    dataset_id: Seq<char>,
    id: Seq<char>,
)
    requires
        has_document_in(l, dataset_id, id),
        after.documents.len() >= l.documents.len(),
        forall|k: int|
            0 <= k < l.documents.len() ==> (#[trigger] after.documents[k]).id == l.documents[k].id
                && after.documents[k].dataset_id == l.documents[k].dataset_id,
    ensures
        has_document_in(after, dataset_id, id),
{
    let k = choose|k: int|
        0 <= k < l.documents.len() && (#[trigger] l.documents[k]).id == id
            && l.documents[k].dataset_id == dataset_id;
    assert(after.documents[k].id == id);
}

proof fn lemma_same_documents_stay_sound(l: LibraryView, after: LibraryView)
    requires
        sound(l),
        after.datasets == l.datasets,
        after.documents.len() == l.documents.len(),
        forall|k: int|
            0 <= k < l.documents.len() ==> (#[trigger] after.documents[k]).id == l.documents[k].id
                && after.documents[k].dataset_id == l.documents[k].dataset_id,
        forall|i: int, j: int|
            0 <= i < j < after.tasks.len() ==> (#[trigger] after.tasks[i]).id
                != (#[trigger] after.tasks[j]).id,
        forall|i: int, j: int|
            0 <= i < j < after.chunks.len() ==> (#[trigger] after.chunks[i]).id
                != (#[trigger] after.chunks[j]).id,
        forall|i: int|
            0 <= i < after.tasks.len() ==> has_document_in(
                l,
                (#[trigger] after.tasks[i]).dataset_id,
                after.tasks[i].document_id,
            ),
        forall|i: int|
            0 <= i < after.chunks.len() ==> has_document_in(
                l,
                (#[trigger] after.chunks[i]).dataset_id,
                after.chunks[i].document_id,
            ),
    ensures
        sound(after),
{
    assert forall|i: int, j: int| 0 <= i < j < after.documents.len() implies (
    #[trigger] after.documents[i]).id != (#[trigger] after.documents[j]).id by {
        assert(l.documents[i].id != l.documents[j].id);
    }
    assert forall|i: int| 0 <= i < after.documents.len() implies has_dataset(
        after,
        (#[trigger] after.documents[i]).dataset_id,
    ) by {
        assert(has_dataset(l, l.documents[i].dataset_id));
    }
    assert forall|i: int| 0 <= i < after.tasks.len() implies has_document_in(
        after,
        (#[trigger] after.tasks[i]).dataset_id,
        after.tasks[i].document_id,
    ) by {
        lemma_document_stays(l, after, after.tasks[i].dataset_id, after.tasks[i].document_id);
    }
    assert forall|i: int| 0 <= i < after.chunks.len() implies has_document_in(
        after,
        (#[trigger] after.chunks[i]).dataset_id,
        after.chunks[i].document_id,
    ) by {
        lemma_document_stays(l, after, after.chunks[i].dataset_id, after.chunks[i].document_id);
    }
}

proof fn lemma_kept_chunks_differ(
    chunks: Seq<ChunkView>,
    dataset_id: Seq<char>,
    document_id: Seq<char>,
    i: int,
    j: int,
)
    requires
        forall|i: int, j: int|
            0 <= i < j < chunks.len() ==> (#[trigger] chunks[i]).id != (#[trigger] chunks[j]).id,
        0 <= i < j < chunks_besides(chunks, dataset_id, document_id).len(),
    ensures
        chunks_besides(chunks, dataset_id, document_id)[i].id != chunks_besides(
            chunks,
            dataset_id,
            document_id,
        )[j].id,
    decreases chunks.len(),
{
    let t = chunks.drop_last();
    let earlier = chunks_besides(t, dataset_id, document_id);
    if j < earlier.len() {
        assert forall|a: int, b: int| 0 <= a < b < t.len() implies (#[trigger] t[a]).id
            != (#[trigger] t[b]).id by {
            assert(t[a] == chunks[a] && t[b] == chunks[b]);
        }
        lemma_kept_chunks_differ(t, dataset_id, document_id, i, j);
    } else {
        let k = lemma_kept_chunk(t, dataset_id, document_id, i);
        assert(chunks[k] == t[k]);
        assert(chunks[chunks.len() - 1].id != chunks[k].id);
    }
}

/// Updating a document keeps the tables sound.
pub proof fn updates_keep_tables_sound(
    l: LibraryView,
    dataset_id: Seq<char>,
    document_id: Seq<char>,
    new: DocumentView,
    task: TaskView,
)
    requires
        sound(l),
        has_document_in(l, dataset_id, document_id),
        !task_id_remains(l, dataset_id, document_id, task.id),
        task.dataset_id == dataset_id,
        task.document_id == document_id,
    ensures
        sound(updated(l, dataset_id, document_id, new, task)),
{
    let after = updated(l, dataset_id, document_id, new, task);
    let kept = tasks_besides(l.tasks, dataset_id, document_id, true);
    let rest = LibraryView { tasks: kept, ..l };
    assert forall|i: int, j: int| 0 <= i < j < after.tasks.len() implies (
    #[trigger] after.tasks[i]).id != (#[trigger] after.tasks[j]).id by {
        assert(after.tasks[i] == kept[i]);
        if j < kept.len() {
            assert(after.tasks[j] == kept[j]);
            lemma_kept_tasks_differ(l.tasks, dataset_id, document_id, true, i, j);
        } else {
            assert(rest.tasks[i].id != task.id);
        }
    }
    assert forall|i: int, j: int| 0 <= i < j < after.chunks.len() implies (
    #[trigger] after.chunks[i]).id != (#[trigger] after.chunks[j]).id by {
        lemma_kept_chunks_differ(l.chunks, dataset_id, document_id, i, j);
    }
    assert forall|i: int| 0 <= i < after.tasks.len() implies has_document_in(
        l,
        (#[trigger] after.tasks[i]).dataset_id,
        after.tasks[i].document_id,
    ) by {
        if i < kept.len() {
            let k = lemma_kept_task(l.tasks, dataset_id, document_id, true, i);
            assert(after.tasks[i] == l.tasks[k]);
        }
    }
    assert forall|i: int| 0 <= i < after.chunks.len() implies has_document_in(
        l,
        (#[trigger] after.chunks[i]).dataset_id,
        after.chunks[i].document_id,
    ) by {
        let k = lemma_kept_chunk(l.chunks, dataset_id, document_id, i);
        assert(after.chunks[i] == l.chunks[k]);
    }
    lemma_same_documents_stay_sound(l, after);
}

/// Leasing a task keeps the tables sound.
pub proof fn leases_keep_tables_sound(l: LibraryView, k: int, now: u64)
    requires
        sound(l),
        next_pending(l.tasks) == Some(k),
    ensures
        sound(leased(l, k, now)),
{
    lemma_next_pending(l.tasks);
    let after = leased(l, k, now);
    assert forall|i: int, j: int| 0 <= i < j < after.tasks.len() implies (
    #[trigger] after.tasks[i]).id != (#[trigger] after.tasks[j]).id by {
        assert(l.tasks[i].id != l.tasks[j].id);
    }
    assert forall|i: int| 0 <= i < after.tasks.len() implies has_document_in(
        l,
        (#[trigger] after.tasks[i]).dataset_id,
        after.tasks[i].document_id,
    ) by {
        assert(has_document_in(l, l.tasks[i].dataset_id, l.tasks[i].document_id));
    }
    lemma_same_documents_stay_sound(l, after);
}

/// Finishing a task keeps the tables sound.
pub proof fn finished_tasks_keep_tables_sound(
    l: LibraryView,
    task_id: Seq<char>,
    document_id: Seq<char>,
    status: Seq<char>,
    chunk_count: Option<usize>,
    error: Option<Seq<char>>,
    now: u64,
)
    requires
        sound(l),
    ensures
        sound(finished(l, task_id, document_id, status, chunk_count, error, now)),
{
    let after = finished(l, task_id, document_id, status, chunk_count, error, now);
    assert forall|i: int, j: int| 0 <= i < j < after.tasks.len() implies (
    #[trigger] after.tasks[i]).id != (#[trigger] after.tasks[j]).id by {
        assert(l.tasks[i].id != l.tasks[j].id);
    }
    assert forall|i: int| 0 <= i < after.tasks.len() implies has_document_in(
        l,
        (#[trigger] after.tasks[i]).dataset_id,
        after.tasks[i].document_id,
    ) by {
        assert(has_document_in(l, l.tasks[i].dataset_id, l.tasks[i].document_id));
    }
    lemma_same_documents_stay_sound(l, after);
}

proof fn lemma_replacing_keeps_ids_distinct(
    l: LibraryView,
    rest: Seq<ChunkView>,
    new: Seq<ChunkView>,
    i: int,
    j: int,
)
    requires
        replace_problem(l, rest, new) is None,
        forall|i: int, j: int|
            0 <= i < j < rest.len() ==> (#[trigger] rest[i]).id != (#[trigger] rest[j]).id,
        0 <= i < j < rest.len() + new.len(),
    ensures
        (rest + new)[i].id != (rest + new)[j].id,
    decreases new.len(),
{
    if j >= rest.len() {
        let t = new.drop_last();
        if j < rest.len() + t.len() {
            lemma_replacing_keeps_ids_distinct(l, rest, t, i, j);
            assert((rest + t)[i] == (rest + new)[i]);
            assert((rest + t)[j] == (rest + new)[j]);
        } else {
            assert((rest + t)[i] == (rest + new)[i]);
            assert((rest + new)[j] == new.last());
        }
    }
}

/// Replacing the chunks of a document by others of it keeps the tables sound.
pub proof fn replaced_chunks_keep_tables_sound(
    l: LibraryView,
    dataset_id: Seq<char>,
    document_id: Seq<char>,
    new: Seq<ChunkView>,
)
    requires
        sound(l),
        has_document_in(l, dataset_id, document_id),
        replace_problem(l, chunks_besides(l.chunks, dataset_id, document_id), new) is None,
        forall|i: int|
            0 <= i < new.len() ==> chunk_is_of(#[trigger] new[i], dataset_id, document_id),
    ensures
        sound(
            LibraryView {
                chunks: chunks_besides(l.chunks, dataset_id, document_id) + new,
                ..l
            },
        ),
{
    let rest = chunks_besides(l.chunks, dataset_id, document_id);
    let after = LibraryView { chunks: rest + new, ..l };
    assert forall|i: int, j: int| 0 <= i < j < rest.len() implies (#[trigger] rest[i]).id
        != (#[trigger] rest[j]).id by {
        lemma_kept_chunks_differ(l.chunks, dataset_id, document_id, i, j);
    }
    assert forall|i: int, j: int| 0 <= i < j < after.chunks.len() implies (
    #[trigger] after.chunks[i]).id != (#[trigger] after.chunks[j]).id by {
        lemma_replacing_keeps_ids_distinct(l, rest, new, i, j);
    }
    assert forall|i: int| 0 <= i < after.chunks.len() implies has_document_in(
        l,
        (#[trigger] after.chunks[i]).dataset_id,
        after.chunks[i].document_id,
    ) by {
        if i < rest.len() {
            let k = lemma_kept_chunk(l.chunks, dataset_id, document_id, i);
            assert(after.chunks[i] == l.chunks[k]);
        } else {
            assert(after.chunks[i] == new[i - rest.len()]);
        }
    }
    lemma_same_documents_stay_sound(l, after);
}

proof fn lemma_kept_documents_differ(
    documents: Seq<DocumentView>,
    dataset_id: Seq<char>,
    document_id: Seq<char>,
    i: int,
    j: int,
)
    requires
        forall|i: int, j: int|
            0 <= i < j < documents.len() ==> (#[trigger] documents[i]).id
                != (#[trigger] documents[j]).id,
        0 <= i < j < documents_besides(documents, dataset_id, document_id).len(),
    ensures
        documents_besides(documents, dataset_id, document_id)[i].id != documents_besides(
            documents,
            dataset_id,
            document_id,
        )[j].id,
    decreases documents.len(),
{
    let t = documents.drop_last();
    let earlier = documents_besides(t, dataset_id, document_id);
    if j < earlier.len() {
        assert forall|a: int, b: int| 0 <= a < b < t.len() implies (#[trigger] t[a]).id
            != (#[trigger] t[b]).id by {
            assert(t[a] == documents[a] && t[b] == documents[b]);
        }
        lemma_kept_documents_differ(t, dataset_id, document_id, i, j);
    } else {
        let k = lemma_kept_document(t, dataset_id, document_id, i);
        assert(documents[k] == t[k]);
        assert(documents[documents.len() - 1].id != documents[k].id);
    }
}

proof fn lemma_other_document_stays(
    documents: Seq<DocumentView>,
    dataset_id: Seq<char>,
    document_id: Seq<char>,
    k: int,
) -> (i: int)
    requires
        0 <= k < documents.len(),
        !(documents[k].id == document_id && documents[k].dataset_id == dataset_id),
    ensures
        0 <= i < documents_besides(documents, dataset_id, document_id).len(),
        documents_besides(documents, dataset_id, document_id)[i] == documents[k],
    decreases documents.len(),
{
    let t = documents.drop_last();
    if k < t.len() {
        lemma_other_document_stays(t, dataset_id, document_id, k)
    } else {
        documents_besides(t, dataset_id, document_id).len() as int
    }
}

/// Deleting a document keeps the tables sound.
pub proof fn deletions_keep_tables_sound(
    l: LibraryView,
    dataset_id: Seq<char>,
    document_id: Seq<char>,
)
    requires
        sound(l),
    ensures
        sound(deleted(l, dataset_id, document_id)),
{
    let after = deleted(l, dataset_id, document_id);
    assert forall|i: int, j: int| 0 <= i < j < after.documents.len() implies (
    #[trigger] after.documents[i]).id != (#[trigger] after.documents[j]).id by {
        lemma_kept_documents_differ(l.documents, dataset_id, document_id, i, j);
    }
    assert forall|i: int, j: int| 0 <= i < j < after.tasks.len() implies (
    #[trigger] after.tasks[i]).id != (#[trigger] after.tasks[j]).id by {
        lemma_kept_tasks_differ(l.tasks, dataset_id, document_id, false, i, j);
    }
    assert forall|i: int, j: int| 0 <= i < j < after.chunks.len() implies (
    #[trigger] after.chunks[i]).id != (#[trigger] after.chunks[j]).id by {
        lemma_kept_chunks_differ(l.chunks, dataset_id, document_id, i, j);
    }
    assert forall|i: int| 0 <= i < after.documents.len() implies has_dataset(
        after,
        (#[trigger] after.documents[i]).dataset_id,
    ) by {
        let k = lemma_kept_document(l.documents, dataset_id, document_id, i);
        assert(has_dataset(l, l.documents[k].dataset_id));
    }
    assert forall|i: int| 0 <= i < after.tasks.len() implies has_document_in(
        after,
        (#[trigger] after.tasks[i]).dataset_id,
        after.tasks[i].document_id,
    ) by {
        let k = lemma_kept_task(l.tasks, dataset_id, document_id, false, i);
        let t = l.tasks[k];
        assert(has_document_in(l, t.dataset_id, t.document_id));
        let d = choose|d: int|
            0 <= d < l.documents.len() && (#[trigger] l.documents[d]).id == t.document_id
                && l.documents[d].dataset_id == t.dataset_id;
        let e = lemma_other_document_stays(l.documents, dataset_id, document_id, d);
        assert(after.documents[e].id == t.document_id);
    }
    assert forall|i: int| 0 <= i < after.chunks.len() implies has_document_in(
        after,
        (#[trigger] after.chunks[i]).dataset_id,
        after.chunks[i].document_id,
    ) by {
        let k = lemma_kept_chunk(l.chunks, dataset_id, document_id, i);
        let c = l.chunks[k];
        assert(has_document_in(l, c.dataset_id, c.document_id));
        let d = choose|d: int|
            0 <= d < l.documents.len() && (#[trigger] l.documents[d]).id == c.document_id
                && l.documents[d].dataset_id == c.dataset_id;
        let e = lemma_other_document_stays(l.documents, dataset_id, document_id, d);
        assert(after.documents[e].id == c.document_id);
    }
}

/// In sound tables, every document can be deleted.
pub proof fn sound_tables_let_documents_go(
    l: LibraryView,
    dataset_id: Seq<char>,
    document_id: Seq<char>,
)
    requires
        sound(l),
        has_document_in(l, dataset_id, document_id),
    ensures
        !is_referred_to(deleted(l, dataset_id, document_id), document_id),
{
    let after = deleted(l, dataset_id, document_id);
    let own = choose|k: int|
        0 <= k < l.documents.len() && (#[trigger] l.documents[k]).id == document_id
            && l.documents[k].dataset_id == dataset_id;
    assert forall|i: int| 0 <= i < after.tasks.len() implies (
    #[trigger] after.tasks[i]).document_id != document_id by {
        let k = lemma_kept_task(l.tasks, dataset_id, document_id, false, i);
        let t = l.tasks[k];
        assert(has_document_in(l, t.dataset_id, t.document_id));
        let d = choose|d: int|
            0 <= d < l.documents.len() && (#[trigger] l.documents[d]).id == t.document_id
                && l.documents[d].dataset_id == t.dataset_id;
        if t.document_id == document_id {
            assert(d == own);
        }
    }
    assert forall|i: int| 0 <= i < after.chunks.len() implies (
    #[trigger] after.chunks[i]).document_id != document_id by {
        let k = lemma_kept_chunk(l.chunks, dataset_id, document_id, i);
        let c = l.chunks[k];
        assert(has_document_in(l, c.dataset_id, c.document_id));
        let d = choose|d: int|
            0 <= d < l.documents.len() && (#[trigger] l.documents[d]).id == c.document_id
                && l.documents[d].dataset_id == c.dataset_id;
        if c.document_id == document_id {
            assert(d == own);
        }
    }
}

} // verus!
