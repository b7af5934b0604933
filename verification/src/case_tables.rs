//! What the operations on the tables of cases do to their rows.

use vstd::prelude::*;

use crate::case_model::{Chunk, ChunkView, Dataset, Document, DocumentView, TaskView};
use crate::case_store::{
    chunk_id_is_taken, chunks_besides, chunks_of, creation_problem, dataset_problem, deleted,
    documents_besides, documents_of, finished, has_dataset, has_document, has_document_in,
    has_task, leased, listed_indexes, replace_problem, stored_sources, tasks_besides,
    update_problem, updated, uploaded_document, waiting_task, LibraryView,
};
use crate::json::JsonView;
use crate::order;
use crate::order::Ordered;
use crate::text;

verus! {

proof fn lemma_chunks_kept(chunks: Seq<ChunkView>, dataset_id: Seq<char>, document_id: Seq<char>)
    ensures
        chunks_besides(chunks, dataset_id, document_id) == chunks.filter(
            |c: ChunkView| c.dataset_id != dataset_id || c.document_id != document_id,
        ),
    decreases chunks.len(),
{
    reveal(Seq::filter);
    if chunks.len() > 0 {
        lemma_chunks_kept(chunks.drop_last(), dataset_id, document_id);
    }
}

proof fn lemma_tasks_kept(tasks: Seq<TaskView>, dataset_id: Seq<char>, document_id: Seq<char>)
    ensures
        tasks_besides(tasks, dataset_id, document_id, false) == tasks.filter(
            |t: TaskView| t.dataset_id != dataset_id || t.document_id != document_id,
        ),
        tasks_besides(tasks, dataset_id, document_id, true) == tasks.filter(
            |t: TaskView|
                t.dataset_id != dataset_id || t.document_id != document_id || t.status
                    != "pending"@,
        ),
    decreases tasks.len(),
{
    reveal(Seq::filter);
    if tasks.len() > 0 {
        lemma_tasks_kept(tasks.drop_last(), dataset_id, document_id);
    }
}

proof fn lemma_documents_kept(
    documents: Seq<DocumentView>,
    dataset_id: Seq<char>,
    document_id: Seq<char>,
)
    ensures
        documents_besides(documents, dataset_id, document_id) == documents.filter(
            |d: DocumentView| d.id != document_id || d.dataset_id != dataset_id,
        ),
    decreases documents.len(),
{
    reveal(Seq::filter);
    if documents.len() > 0 {
        lemma_documents_kept(documents.drop_last(), dataset_id, document_id);
    }
}

/// Deleting a document takes away its row, its tasks and its chunks, and leaves
/// every other row where it stands.
pub proof fn deleting_leaves_the_rest(
    l: LibraryView,
    dataset_id: Seq<char>,
    document_id: Seq<char>,
)
    ensures
        ({
            let after = deleted(l, dataset_id, document_id);
            &&& after.datasets == l.datasets
            &&& after.documents == l.documents.filter(
                |d: DocumentView| d.id != document_id || d.dataset_id != dataset_id,
            )
            &&& after.tasks == l.tasks.filter(
                |t: TaskView| t.dataset_id != dataset_id || t.document_id != document_id,
            )
            &&& after.chunks == l.chunks.filter(
                |c: ChunkView| c.dataset_id != dataset_id || c.document_id != document_id,
            )
        }),
{
    lemma_chunks_kept(l.chunks, dataset_id, document_id);
    lemma_tasks_kept(l.tasks, dataset_id, document_id);
    lemma_documents_kept(l.documents, dataset_id, document_id);
}

/// Updating a document writes its row anew, but for when it was made, takes away
/// its chunks and its pending tasks, puts the new task last, and leaves every
/// other row where it stands.
pub proof fn updating_leaves_the_rest(
    l: LibraryView,
    dataset_id: Seq<char>,
    document_id: Seq<char>,
    new: DocumentView,
    task: TaskView,
    i: int,
)
    requires
        0 <= i < l.documents.len(),
    ensures
        ({
            let after = updated(l, dataset_id, document_id, new, task);
            let was = l.documents[i];
            let is = after.documents[i];
            &&& after.datasets == l.datasets
            &&& after.documents.len() == l.documents.len()
            &&& was.id == document_id && was.dataset_id == dataset_id ==> {
                &&& is.id == document_id
                &&& is.dataset_id == dataset_id
                &&& is.created_at_ms == was.created_at_ms
                &&& is.name == new.name
                &&& is.file_path == new.file_path
                &&& is.mime_type == new.mime_type
                &&& is.size_bytes == new.size_bytes
                &&& is.status == new.status
                &&& is.chunk_count == new.chunk_count
                &&& is.error == new.error
                &&& is.updated_at_ms == new.updated_at_ms
            }
            &&& !(was.id == document_id && was.dataset_id == dataset_id) ==> is == was
            &&& after.tasks == l.tasks.filter(
                |t: TaskView|
                    t.dataset_id != dataset_id || t.document_id != document_id || t.status
                        != "pending"@,
            ).push(task)
            &&& after.chunks == l.chunks.filter(
                |c: ChunkView| c.dataset_id != dataset_id || c.document_id != document_id,
            )
        }),
{
    lemma_chunks_kept(l.chunks, dataset_id, document_id);
    lemma_tasks_kept(l.tasks, dataset_id, document_id);
}

/// A document that comes in has no chunks and no error, its name and its path are
/// trimmed, and its task waits: nobody has started it.
pub proof fn uploads_wait_for_their_task(
    id: Seq<char>,
    task_id: Seq<char>,
    dataset_id: Seq<char>,
    name: Seq<char>,
    file_path: Seq<char>,
    mime_type: Option<Seq<char>>,
    size_bytes: u64,
    created: u64,
    now: u64,
)
    ensures
        ({
            let d = uploaded_document(
                id,
                dataset_id,
                name,
                file_path,
                mime_type,
                size_bytes,
                created,
                now,
            );
            let t = waiting_task(task_id, dataset_id, id, now);
            &&& d.id == id && d.dataset_id == dataset_id
            &&& d.name == text::trimmed(name) && d.file_path == text::trimmed(file_path)
            &&& d.mime_type == mime_type && d.size_bytes == size_bytes
            &&& d.status == "uploaded"@ && d.chunk_count == 0 && d.error is None
            &&& d.created_at_ms == created && d.updated_at_ms == now
            &&& t.id == task_id && t.document_id == d.id && t.dataset_id == d.dataset_id
            &&& t.status == "pending"@ && t.error is None
            &&& t.created_at_ms == now && t.updated_at_ms == now
            &&& t.started_at_ms is None && t.completed_at_ms is None
        }),
{
}

/// Whether a document's row says the same but for how far it is.
pub open spec fn is_same_document(a: DocumentView, b: DocumentView) -> bool {
    &&& a.id == b.id
    &&& a.dataset_id == b.dataset_id
    &&& a.name == b.name
    &&& a.file_path == b.file_path
    &&& a.mime_type == b.mime_type
    &&& a.size_bytes == b.size_bytes
    &&& a.created_at_ms == b.created_at_ms
}

/// Whether a task's row says the same but for how far it is.
pub open spec fn is_same_task(a: TaskView, b: TaskView) -> bool {
    &&& a.id == b.id
    &&& a.dataset_id == b.dataset_id
    &&& a.document_id == b.document_id
    &&& a.created_at_ms == b.created_at_ms
}

/// Leasing a task starts it: the task and its document are running from now on,
/// and every other row stays.
pub proof fn leasing_starts_one_task(l: LibraryView, k: int, now: u64, i: int, j: int)
    requires
        0 <= k < l.tasks.len(),
        0 <= i < l.tasks.len(),
        0 <= j < l.documents.len(),
    ensures
        ({
            let after = leased(l, k, now);
            let t = after.tasks[k];
            let d = after.documents[j];
            &&& after.datasets == l.datasets && after.chunks == l.chunks
            &&& after.tasks.len() == l.tasks.len()
            &&& after.documents.len() == l.documents.len()
            &&& i != k ==> after.tasks[i] == l.tasks[i]
            &&& is_same_task(t, l.tasks[k])
            &&& t.status == "running"@ && t.started_at_ms == Some(now) && t.updated_at_ms == now
            &&& t.error == l.tasks[k].error && t.completed_at_ms == l.tasks[k].completed_at_ms
            &&& l.documents[j].id == t.document_id ==> {
                &&& is_same_document(d, l.documents[j])
                &&& d.status == "running"@ && d.error is None && d.updated_at_ms == now
                &&& d.chunk_count == l.documents[j].chunk_count
            }
            &&& l.documents[j].id != t.document_id ==> d == l.documents[j]
        }),
{
}

/// Finishing a task says so in its row and in that of its document, with the
/// error and the number of chunks that are given, and every other row stays.
pub proof fn finishing_ends_one_task(
    l: LibraryView,
    task_id: Seq<char>,
    document_id: Seq<char>,
    status: Seq<char>,
    chunk_count: Option<usize>,
    error: Option<Seq<char>>,
    now: u64,
    i: int,
    j: int,
)
    requires
        0 <= i < l.tasks.len(),
        0 <= j < l.documents.len(),
    ensures
        ({
            let after = finished(l, task_id, document_id, status, chunk_count, error, now);
            let t = after.tasks[i];
            let d = after.documents[j];
            &&& after.datasets == l.datasets && after.chunks == l.chunks
            &&& after.tasks.len() == l.tasks.len()
            &&& after.documents.len() == l.documents.len()
            &&& l.tasks[i].id == task_id ==> {
                &&& is_same_task(t, l.tasks[i])
                &&& t.status == status && t.error == error && t.updated_at_ms == now
                &&& t.completed_at_ms == Some(now)
                &&& t.started_at_ms == l.tasks[i].started_at_ms
            }
            &&& l.tasks[i].id != task_id ==> t == l.tasks[i]
            &&& l.documents[j].id == document_id ==> {
                &&& is_same_document(d, l.documents[j])
                &&& d.status == status && d.error == error && d.updated_at_ms == now
                &&& chunk_count is Some ==> d.chunk_count == chunk_count->0
                &&& chunk_count is None ==> d.chunk_count == l.documents[j].chunk_count
            }
            &&& l.documents[j].id != document_id ==> d == l.documents[j]
        }),
{
}

/// The documents that are listed are all those of the dataset.
pub proof fn listings_hold_all_documents(documents: Seq<DocumentView>, dataset_id: Seq<char>)
    ensures
        documents_of(documents, dataset_id) == documents.filter(
            |d: DocumentView| d.dataset_id == dataset_id,
        ),
    decreases documents.len(),
{
    reveal(Seq::filter);
    if documents.len() > 0 {
        listings_hold_all_documents(documents.drop_last(), dataset_id);
    }
}

/// The chunks that are listed are all those of the document.
pub proof fn listings_hold_all_chunks(
    chunks: Seq<ChunkView>,
    dataset_id: Seq<char>,
    document_id: Seq<char>,
)
    ensures
        chunks_of(chunks, dataset_id, document_id) == chunks.filter(
            |c: ChunkView| c.dataset_id == dataset_id && c.document_id == document_id,
        ),
    decreases chunks.len(),
{
    reveal(Seq::filter);
    if chunks.len() > 0 {
        listings_hold_all_chunks(chunks.drop_last(), dataset_id, document_id);
    }
}

/// Datasets are listed from the newest to the oldest, and those of one moment by
/// their identifiers.
pub proof fn datasets_go_from_the_newest(s: Seq<Dataset>, i: int, j: int)
    requires
        0 <= i < j < order::in_order(s).len(),
    ensures
        order::in_order(s)[i].created_at_ms >= order::in_order(s)[j].created_at_ms,
        order::in_order(s)[i].created_at_ms == order::in_order(s)[j].created_at_ms
            ==> !text::text_before(order::in_order(s)[j].id@, order::in_order(s)[i].id@),
{
    order::sorting_orders_and_keeps_all(s);
    assert(!order::in_order(s)[j].precedes(&order::in_order(s)[i]));
}

/// Documents are listed from the newest to the oldest, and those of one moment by
/// their identifiers.
pub proof fn documents_go_from_the_newest(s: Seq<Document>, i: int, j: int)
    requires
        0 <= i < j < order::in_order(s).len(),
    ensures
        order::in_order(s)[i].created_at_ms >= order::in_order(s)[j].created_at_ms,
        order::in_order(s)[i].created_at_ms == order::in_order(s)[j].created_at_ms
            ==> !text::text_before(order::in_order(s)[j].id@, order::in_order(s)[i].id@),
{
    order::sorting_orders_and_keeps_all(s);
    assert(!order::in_order(s)[j].precedes(&order::in_order(s)[i]));
}

/// Chunks are listed in the order of their document.
pub proof fn chunks_go_in_their_order(s: Seq<Chunk>, i: int, j: int)
    requires
        0 <= i < j < order::in_order(s).len(),
    ensures
        order::in_order(s)[i].chunk_index <= order::in_order(s)[j].chunk_index,
{
    order::sorting_orders_and_keeps_all(s);
    assert(!order::in_order(s)[j].precedes(&order::in_order(s)[i]));
}

/// A dataset is refused for a blank name, else for a blank identifier, else for
/// one that is taken, and for nothing else.
pub proof fn datasets_are_refused_for_a_reason(l: LibraryView, id: Option<Seq<char>>, name: Seq<char>)
    ensures
        ({
            let problem = dataset_problem(l, id, name);
            let blank_id = id is Some && text::is_blank(id->0);
            let taken = id is Some && has_dataset(l, text::trimmed(id->0));
            &&& text::is_blank(name) ==> problem == Some("dataset name must not be empty"@)
            &&& !text::is_blank(name) && blank_id ==> problem == Some(
                "dataset id"@ + " must not be empty"@,
            )
            &&& !text::is_blank(name) && !blank_id && taken ==> problem == Some(
                "UNIQUE constraint failed: rag_datasets.id"@,
            )
            &&& !text::is_blank(name) && !blank_id && !taken ==> problem is None
        }),
{
}

/// A document is refused for a blank name, else for a blank path, else for a
/// dataset that is not there, else for a blank identifier, else for one that is
/// taken, and for nothing else.
pub proof fn documents_are_refused_for_a_reason(
    l: LibraryView,
    dataset_id: Seq<char>,
    document_id: Option<Seq<char>>,
    task_id: Option<Seq<char>>,
    name: Seq<char>,
    file_path: Seq<char>,
)
    ensures
        ({
            let problem = creation_problem(l, dataset_id, document_id, task_id, name, file_path);
            let blank_id = document_id is Some && text::is_blank(document_id->0);
            let blank_task = task_id is Some && text::is_blank(task_id->0);
            let taken = document_id is Some && has_document(l, text::trimmed(document_id->0));
            let task_taken = task_id is Some && has_task(l, text::trimmed(task_id->0));
            let named = !text::is_blank(name) && !text::is_blank(file_path);
            let placed = named && has_dataset(l, dataset_id);
            let told = placed && !blank_id && !blank_task;
            &&& text::is_blank(name) ==> problem == Some("document name must not be empty"@)
            &&& !text::is_blank(name) && text::is_blank(file_path) ==> problem == Some(
                "document file path must not be empty"@,
            )
            &&& named && !has_dataset(l, dataset_id) ==> problem == Some("dataset not found"@)
            &&& placed && blank_id ==> problem == Some("document id"@ + " must not be empty"@)
            &&& placed && !blank_id && blank_task ==> problem == Some(
                "task id"@ + " must not be empty"@,
            )
            &&& told && taken ==> problem == Some("UNIQUE constraint failed: rag_documents.id"@)
            &&& told && !taken && task_taken ==> problem == Some(
                "UNIQUE constraint failed: rag_tasks.id"@,
            )
            &&& told && !taken && !task_taken ==> problem is None
        }),
{
}

/// An update is refused for a blank name, else for a blank path, else for a
/// document that is not there, else for a blank task identifier, else for one
/// that another task keeps, and for nothing else.
pub proof fn updates_are_refused_for_a_reason(
    l: LibraryView,
    dataset_id: Seq<char>,
    document_id: Seq<char>,
    task_id: Option<Seq<char>>,
    name: Seq<char>,
    file_path: Seq<char>,
)
    ensures
        ({
            let problem = update_problem(l, dataset_id, document_id, task_id, name, file_path);
            let blank_task = task_id is Some && text::is_blank(task_id->0);
            let named = !text::is_blank(name) && !text::is_blank(file_path);
            let placed = named && has_document_in(l, dataset_id, document_id);
            let kept = task_id is Some && keeps_task_id(
                l.tasks,
                dataset_id,
                document_id,
                text::trimmed(task_id->0),
            );
            &&& text::is_blank(name) ==> problem == Some("document name must not be empty"@)
            &&& !text::is_blank(name) && text::is_blank(file_path) ==> problem == Some(
                "document file path must not be empty"@,
            )
            &&& named && !has_document_in(l, dataset_id, document_id) ==> problem == Some(
                "document not found"@,
            )
            &&& placed && blank_task ==> problem == Some("task id"@ + " must not be empty"@)
            &&& placed && !blank_task && kept ==> problem == Some(
                "UNIQUE constraint failed: rag_tasks.id"@,
            )
            &&& placed && !blank_task && !kept ==> problem is None
        }),
{
    if task_id is Some {
        lemma_task_id_remains(l, dataset_id, document_id, text::trimmed(task_id->0));
    }
}

/// Whether a task has an identifier and stays when the pending tasks of a
/// document go.
pub open spec fn keeps_task_id(
    tasks: Seq<TaskView>,
    dataset_id: Seq<char>,
    document_id: Seq<char>,
    id: Seq<char>,
) -> bool {
    exists|i: int|
        0 <= i < tasks.len() && (#[trigger] tasks[i]).id == id && !(tasks[i].dataset_id
            == dataset_id && tasks[i].document_id == document_id && tasks[i].status
            == "pending"@)
}

proof fn lemma_kept_ids(
    tasks: Seq<TaskView>,
    dataset_id: Seq<char>,
    document_id: Seq<char>,
    id: Seq<char>,
)
    ensures
        keeps_task_id(tasks, dataset_id, document_id, id) <==> exists|i: int|
            0 <= i < tasks_besides(tasks, dataset_id, document_id, true).len() && (
            #[trigger] tasks_besides(tasks, dataset_id, document_id, true)[i]).id == id,
    decreases tasks.len(),
{
    let kept = tasks_besides(tasks, dataset_id, document_id, true);
    if tasks.len() > 0 {
        let t = tasks.drop_last();
        let before = tasks_besides(t, dataset_id, document_id, true);
        lemma_kept_ids(t, dataset_id, document_id, id);
        if keeps_task_id(tasks, dataset_id, document_id, id) {
            let i = choose|i: int|
                0 <= i < tasks.len() && (#[trigger] tasks[i]).id == id && !(tasks[i].dataset_id
                    == dataset_id && tasks[i].document_id == document_id && tasks[i].status
                    == "pending"@);
            if i < t.len() {
                assert(t[i] == tasks[i]);
                assert(keeps_task_id(t, dataset_id, document_id, id));
                let q = choose|q: int| 0 <= q < before.len() && (#[trigger] before[q]).id == id;
                assert(kept[q] == before[q]);
            } else {
                assert(kept[before.len() as int] == tasks[i]);
            }
        }
        if exists|i: int| 0 <= i < kept.len() && (#[trigger] kept[i]).id == id {
            let q = choose|q: int| 0 <= q < kept.len() && (#[trigger] kept[q]).id == id;
            if q < before.len() {
                assert(before[q].id == id);
                let i = choose|i: int|
                    0 <= i < t.len() && (#[trigger] t[i]).id == id && !(t[i].dataset_id
                        == dataset_id && t[i].document_id == document_id && t[i].status
                        == "pending"@);
                assert(tasks[i] == t[i]);
            } else {
                assert(tasks[tasks.len() - 1].id == id);
            }
        }
    }
}

proof fn lemma_task_id_remains(
    l: LibraryView,
    dataset_id: Seq<char>,
    document_id: Seq<char>,
    id: Seq<char>,
)
    ensures
        crate::case_store::task_id_remains(l, dataset_id, document_id, id) == keeps_task_id(
            l.tasks,
            dataset_id,
            document_id,
            id,
        ),
{
    lemma_kept_ids(l.tasks, dataset_id, document_id, id);
}

/// Whether a chunk can follow others: its identifier is new, and its dataset and
/// its document are there.
pub open spec fn can_follow(
    l: LibraryView,
    rest: Seq<ChunkView>,
    new: Seq<ChunkView>,
    i: int,
) -> bool {
    &&& forall|k: int| 0 <= k < rest.len() ==> (#[trigger] rest[k]).id != new[i].id
    &&& forall|k: int| 0 <= k < i ==> (#[trigger] new[k]).id != new[i].id
    &&& has_dataset(l, new[i].dataset_id)
    &&& has_document(l, new[i].document_id)
}

/// Chunks are taken if and only if each can follow those before it.
pub proof fn chunks_are_taken_that_can_follow(
    l: LibraryView,
    rest: Seq<ChunkView>,
    new: Seq<ChunkView>,
)
    ensures
        replace_problem(l, rest, new) is None <==> forall|i: int|
            0 <= i < new.len() ==> #[trigger] can_follow(l, rest, new, i),
    decreases new.len(),
{
    if new.len() > 0 {
        let t = new.drop_last();
        let n = new.len() - 1;
        let before = rest + t;
        chunks_are_taken_that_can_follow(l, rest, t);
        assert forall|i: int| 0 <= i < n implies #[trigger] can_follow(l, rest, t, i) == can_follow(
            l,
            rest,
            new,
            i,
        ) by {
            assert forall|k: int| 0 <= k < i implies t[k] == #[trigger] new[k] by {}
            assert(t[i] == new[i]);
            assert(forall|k: int| 0 <= k < i ==> new[k] == #[trigger] t[k]);
        }
        if chunk_id_is_taken(before, new[n].id) {
            let k = choose|k: int| 0 <= k < before.len() && (#[trigger] before[k]).id == new[n].id;
            if k < rest.len() {
                assert(rest[k].id == new[n].id);
            } else {
                assert(new[k - rest.len()].id == new[n].id);
            }
            assert(!can_follow(l, rest, new, n));
        } else {
            assert forall|k: int| 0 <= k < rest.len() implies (#[trigger] rest[k]).id
                != new[n].id by {
                assert(before[k] == rest[k]);
            }
            assert forall|k: int| 0 <= k < n implies (#[trigger] new[k]).id != new[n].id by {
                assert(before[rest.len() + k] == new[k]);
            }
        }
        if replace_problem(l, rest, new) is None {
            assert forall|i: int| 0 <= i < new.len() implies #[trigger] can_follow(
                l,
                rest,
                new,
                i,
            ) by {
                if i < n {
                    assert(can_follow(l, rest, t, i));
                }
            }
        } else if forall|i: int| 0 <= i < new.len() ==> #[trigger] can_follow(l, rest, new, i) {
            assert forall|i: int| 0 <= i < t.len() implies #[trigger] can_follow(l, rest, t, i) by {
                assert(can_follow(l, rest, new, i));
            }
            assert(can_follow(l, rest, new, n));
        }
    }
}

/// Whether a JSON value is an index.
pub open spec fn is_index(v: JsonView) -> bool {
    v matches JsonView::Unsigned(n) && n <= usize::MAX
}

proof fn lemma_listed_indexes(items: Seq<JsonView>)
    ensures
        listed_indexes(items) is Some <==> forall|i: int|
            0 <= i < items.len() ==> is_index(#[trigger] items[i]),
        listed_indexes(items) is Some ==> listed_indexes(items)->0.len() == items.len()
            && forall|i: int|
            0 <= i < items.len() ==> #[trigger] items[i] == JsonView::Unsigned(
                listed_indexes(items)->0[i] as u64,
            ),
    decreases items.len(),
{
    if items.len() > 0 {
        let t = items.drop_last();
        lemma_listed_indexes(t);
        assert(forall|i: int| 0 <= i < t.len() ==> #[trigger] t[i] == items[i]);
        if listed_indexes(items) is Some {
            assert forall|i: int| 0 <= i < items.len() implies #[trigger] items[i]
                == JsonView::Unsigned(listed_indexes(items)->0[i] as u64) by {
                if i < t.len() {
                    assert(t[i] == items[i]);
                }
            }
        } else {
            if listed_indexes(t) is None {
                let i = choose|i: int| 0 <= i < t.len() && !is_index(#[trigger] t[i]);
                assert(!is_index(items[i]));
            } else {
                assert(!is_index(items[items.len() - 1]));
            }
        }
    }
}

/// The sources of a chunk are read back number by number; where anything else
/// than a list of indexes was stored, there are none.
pub proof fn sources_are_read_back(parsed: Result<JsonView, Seq<char>>)
    ensures
        match parsed {
            Ok(JsonView::Array(items)) => if forall|i: int|
                0 <= i < items.len() ==> is_index(#[trigger] items[i]) {
                &&& stored_sources(parsed).len() == items.len()
                &&& forall|i: int|
                    0 <= i < items.len() ==> #[trigger] items[i] == JsonView::Unsigned(
                        stored_sources(parsed)[i] as u64,
                    )
            } else {
                stored_sources(parsed).len() == 0
            },
            _ => stored_sources(parsed).len() == 0,
        },
{
    if let Ok(JsonView::Array(items)) = parsed {
        lemma_listed_indexes(items);
    }
}

} // verus!
