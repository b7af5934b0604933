//! The runs of the benchmark: what is added, what is searched, and what a
//! resumed run still has to do.

use vstd::prelude::*;
use vstd::string::*;

use crate::api::{AddMemoryRequest, GraphAddMemoryRequest};
use crate::bench;
use crate::bench::{
    collect_field_texts, graph_memory_space_for_memory, merge_metadata, optional_object_field,
    prepared_memory_metadata, GraphOptions, TextItem, TextItemView,
};
use crate::json;
use crate::json::{Json, JsonView};
use crate::text;
use crate::text::{holds_text, push_decimal, trim};

verus! {

/// How Rust prints a list of strings for debugging.
pub uninterp spec fn debug_list(items: Seq<Seq<char>>) -> Seq<char>;

/// The `Debug` form of a list of strings, as `format!` prints it: it is kept as
/// a name of the strings.
#[verifier::external_body]
fn debug_strings(items: &Vec<String>) -> (r: String)
    ensures
        r@ == debug_list(text::strings(items@)),
{
    format!("{:?}", items)
}

/// What an [`AddMemoryRequest`] stands for.
pub struct AddView {
    pub id: Option<Seq<char>>,
    pub text: Seq<char>,
    pub metadata: JsonView,
}

impl View for AddMemoryRequest {
    type V = AddView;

    open spec fn view(&self) -> AddView {
        AddView { id: json::opt_string(self.id), text: self.text@, metadata: self.metadata@ }
    }
}

/// What a [`GraphAddMemoryRequest`] stands for.
pub struct GraphAddView {
    pub memory_space_id: Seq<char>,
    pub owner_id: Seq<char>,
    pub idempotency_key: Seq<char>,
    pub text: Seq<char>,
    pub metadata: JsonView,
    pub session_id: Option<Seq<char>>,
    pub session_sequence: Option<i64>,
    pub source_kind: Seq<char>,
    pub source_ref: Option<Seq<char>>,
    pub content_role: Seq<char>,
    pub created_by_agent_id: Option<Seq<char>>,
    pub observed_at_ms: Option<u64>,
}

impl View for GraphAddMemoryRequest {
    type V = GraphAddView;

    open spec fn view(&self) -> GraphAddView {
        GraphAddView {
            memory_space_id: self.memory_space_id@,
            owner_id: self.owner_id@,
            idempotency_key: self.idempotency_key@,
            text: self.text@,
            metadata: self.metadata@,
            session_id: json::opt_string(self.session_id),
            session_sequence: self.session_sequence,
            source_kind: self.source_kind@,
            source_ref: json::opt_string(self.source_ref),
            content_role: self.content_role@,
            created_by_agent_id: json::opt_string(self.created_by_agent_id),
            observed_at_ms: self.observed_at_ms,
        }
    }
}

pub open spec fn add_views(v: Seq<AddMemoryRequest>) -> Seq<AddView> {
    Seq::new(v.len(), |i: int| v[i]@)
}

pub open spec fn graph_add_views(v: Seq<GraphAddMemoryRequest>) -> Seq<GraphAddView> {
    Seq::new(v.len(), |i: int| v[i]@)
}

/// A memory of a dataset.
pub struct MemoryItemView {
    pub id: Seq<char>,
    pub text: Seq<char>,
    pub metadata: JsonView,
    pub path: Seq<char>,
}

pub open spec fn unsigned_under(v: JsonView, key: Seq<char>) -> Option<u64> {
    match json::json_get(v, key) {
        Some(JsonView::Unsigned(n)) => Some(n),
        _ => None,
    }
}

pub open spec fn integer_under(v: JsonView, key: Seq<char>) -> Option<i64> {
    match json::json_get(v, key) {
        Some(JsonView::Unsigned(n)) if n <= i64::MAX => Some(n as i64),
        Some(JsonView::Negative(n)) => Some(n),
        _ => None,
    }
}

/// The request that puts a memory into the graph, or the error where no memory
/// space can be found for it.
pub open spec fn graph_request(m: MemoryItemView, is_prepared: bool, o: GraphOptions) -> Result<
    GraphAddView,
    Seq<char>,
> {
    match bench::memory_space(m.path, m.metadata, is_prepared, o) {
        Err(e) => Err(e),
        Ok(None) => Err(
            "graph memory space could not be derived for memory `"@ + m.id + "` at `"@ + m.path
                + "`; set --graph-memory-space-mode/--graph-memory-space-field explicitly"@,
        ),
        Ok(Some(space)) => Ok(
            GraphAddView {
                memory_space_id: space,
                owner_id: o.owner_id@,
                idempotency_key: m.id,
                text: m.text,
                metadata: m.metadata,
                session_id: json::json_get_text(m.metadata, "session_id"@),
                session_sequence: integer_under(m.metadata, "turn_index"@),
                source_kind: "benchmark"@,
                source_ref: Some(m.id),
                content_role: "message"@,
                created_by_agent_id: None,
                observed_at_ms: unsigned_under(m.metadata, "observed_at_ms"@),
            },
        ),
    }
}

pub fn build_graph_add_request(
    options: &GraphOptions,
    id: &str,
    text: &str,
    metadata: &Json,
    path: &str,
    is_prepared: bool,
) -> (r: Result<GraphAddMemoryRequest, String>)
    ensures
        match r {
            Ok(request) => graph_request(
                MemoryItemView { id: id@, text: text@, metadata: metadata@, path: path@ },
                is_prepared,
                *options,
            ) == Ok::<_, Seq<char>>(request@),
            Err(e) => graph_request(
                MemoryItemView { id: id@, text: text@, metadata: metadata@, path: path@ },
                is_prepared,
                *options,
            ) == Err::<GraphAddView, _>(e@),
        },
{
    let space = match graph_memory_space_for_memory(path, metadata, is_prepared, options) {
        Err(e) => {
            return Err(e);
        },
        Ok(None) => {
            let mut message =
                "graph memory space could not be derived for memory `".to_owned();
            message.append(id);
            message.append("` at `");
            message.append(path);
            message.append(
                "`; set --graph-memory-space-mode/--graph-memory-space-field explicitly",
            );
            return Err(message);
        },
        Ok(Some(space)) => space,
    };
    let session_id = match metadata.get_str("session_id") {
        Some(s) => Some(s.to_owned()),
        None => None,
    };
    let session_sequence = match metadata.get("turn_index") {
        Some(v) => v.as_i64(),
        None => None,
    };
    let observed_at_ms = match metadata.get("observed_at_ms") {
        Some(v) => v.as_u64(),
        None => None,
    };
    Ok(
        GraphAddMemoryRequest {
            memory_space_id: space,
            owner_id: options.owner_id.clone(),
            idempotency_key: id.to_owned(),
            text: text.to_owned(),
            metadata: metadata.clone(),
            session_id,
            session_sequence,
            source_kind: "benchmark".to_owned(),
            source_ref: Some(id.to_owned()),
            content_role: "message".to_owned(),
            created_by_agent_id: None,
            observed_at_ms,
        },
    )
}

/// What a run adds.
#[derive(Debug)]
pub struct AddPlan {
    pub requests: Vec<AddMemoryRequest>,
    pub graph_requests: Vec<GraphAddMemoryRequest>,
    pub skipped_existing: usize,
}

/// What an [`AddPlan`] stands for.
pub struct PlanView {
    pub requests: Seq<AddView>,
    pub graph_requests: Seq<GraphAddView>,
    pub skipped_existing: nat,
}

impl View for AddPlan {
    type V = PlanView;

    open spec fn view(&self) -> PlanView {
        PlanView {
            requests: add_views(self.requests@),
            graph_requests: graph_add_views(self.graph_requests@),
            skipped_existing: self.skipped_existing as nat,
        }
    }
}

pub open spec fn empty_plan() -> PlanView {
    PlanView { requests: Seq::empty(), graph_requests: Seq::empty(), skipped_existing: 0 }
}

pub open spec fn opt_strings(o: Option<&Vec<String>>) -> Option<Seq<Seq<char>>> {
    match o {
        Some(v) => Some(text::strings(v@)),
        None => None,
    }
}

/// Whether a run leaves a memory out because it is stored already. Only a
/// resumed run knows what is stored.
pub open spec fn is_stored(existing: Option<Seq<Seq<char>>>, id: Seq<char>) -> bool {
    existing is Some && existing->0.contains(id)
}

pub fn should_skip_existing(existing_ids: Option<&Vec<String>>, id: &str) -> (r: bool)
    ensures
        r == is_stored(opt_strings(existing_ids), id@),
{
    match existing_ids {
        Some(ids) => holds_text(ids, id),
        None => false,
    }
}

/// The plan with one more memory. Its graph is built even where the memory
/// itself is stored already.
pub open spec fn with_memory(
    plan: PlanView,
    m: MemoryItemView,
    is_prepared: bool,
    o: GraphOptions,
    existing: Option<Seq<Seq<char>>>,
) -> Result<PlanView, Seq<char>> {
    let graph = if o.build {
        match graph_request(m, is_prepared, o) {
            Ok(g) => Ok(plan.graph_requests.push(g)),
            Err(e) => Err(e),
        }
    } else {
        Ok(plan.graph_requests)
    };
    match graph {
        Err(e) => Err(e),
        Ok(graph_requests) => if is_stored(existing, m.id) {
            Ok(
                PlanView {
                    requests: plan.requests,
                    graph_requests,
                    skipped_existing: plan.skipped_existing + 1,
                },
            )
        } else {
            Ok(
                PlanView {
                    requests: plan.requests.push(
                        AddView { id: Some(m.id), text: m.text, metadata: m.metadata },
                    ),
                    graph_requests,
                    skipped_existing: plan.skipped_existing,
                },
            )
        },
    }
}

fn plan_memory(
    plan: &mut AddPlan,
    id: &str,
    text: &str,
    metadata: &Json,
    path: &str,
    is_prepared: bool,
    options: &GraphOptions,
    existing_ids: Option<&Vec<String>>,
) -> (r: Result<(), String>)
    requires
        old(plan).skipped_existing < usize::MAX,
    ensures
        match r {
            Ok(_) => with_memory(
                old(plan)@,
                MemoryItemView { id: id@, text: text@, metadata: metadata@, path: path@ },
                is_prepared,
                *options,
                opt_strings(existing_ids),
            ) == Ok::<_, Seq<char>>(final(plan)@),
            Err(e) => with_memory(
                old(plan)@,
                MemoryItemView { id: id@, text: text@, metadata: metadata@, path: path@ },
                is_prepared,
                *options,
                opt_strings(existing_ids),
            ) == Err::<PlanView, _>(e@),
        },
        final(plan).skipped_existing <= old(plan).skipped_existing + 1,
{
    let ghost before = plan@;
    if options.build {
        match build_graph_add_request(options, id, text, metadata, path, is_prepared) {
            Ok(request) => {
                plan.graph_requests.push(request);
                assert(graph_add_views(plan.graph_requests@) =~= before.graph_requests.push(
                    request@,
                ));
            },
            Err(e) => {
                return Err(e);
            },
        }
    }
    if should_skip_existing(existing_ids, id) {
        plan.skipped_existing = plan.skipped_existing + 1;
    } else {
        let request = AddMemoryRequest {
            id: Some(id.to_owned()),
            text: text.to_owned(),
            metadata: metadata.clone(),
        };
        plan.requests.push(request);
        assert(add_views(plan.requests@) =~= before.requests.push(request@));
    }
    Ok(())
}

/// The memory that a text of a dataset becomes.
pub open spec fn raw_memory(item: TextItemView, index: nat, dataset: Seq<char>) -> MemoryItemView {
    MemoryItemView {
        id: item.path + ":"@ + text::decimal_text(index),
        text: item.text,
        metadata: bench::merged_metadata(
            json::json_put(
                json::json_put(
                    json::json_put(
                        json::empty_object(),
                        "dataset"@,
                        JsonView::Text(dataset),
                    ),
                    "path"@,
                    JsonView::Text(item.path),
                ),
                "field"@,
                JsonView::Text(item.field),
            ),
            item.metadata,
        ),
        path: item.path,
    }
}

/// The plan of a run over the texts of a dataset.
pub open spec fn raw_plan(
    items: Seq<TextItemView>,
    dataset: Seq<char>,
    o: GraphOptions,
    existing: Option<Seq<Seq<char>>>,
) -> Result<PlanView, Seq<char>>
    decreases items.len(),
{
    if items.len() == 0 {
        Ok(empty_plan())
    } else {
        match raw_plan(items.drop_last(), dataset, o, existing) {
            Err(e) => Err(e),
            Ok(plan) => with_memory(
                plan,
                raw_memory(items.last(), (items.len() - 1) as nat, dataset),
                false,
                o,
                existing,
            ),
        }
    }
}

proof fn lemma_raw_error_stays(
    items: Seq<TextItemView>,
    dataset: Seq<char>,
    o: GraphOptions,
    existing: Option<Seq<Seq<char>>>,
    n: int,
)
    requires
        0 <= n <= items.len(),
        raw_plan(items.take(n), dataset, o, existing) is Err,
    ensures
        raw_plan(items, dataset, o, existing) == raw_plan(items.take(n), dataset, o, existing),
    decreases items.len() - n,
{
    if n == items.len() {
        assert(items.take(n) =~= items);
    } else {
        assert(items.drop_last().take(n) =~= items.take(n));
        lemma_raw_error_stays(items.drop_last(), dataset, o, existing, n);
    }
}

/// The plan of a run, or the sentence that says why there is none.
pub open spec fn plan_outcome(r: Result<AddPlan, String>) -> Result<PlanView, Seq<char>> {
    match r {
        Ok(plan) => Ok(plan@),
        Err(e) => Err(e@),
    }
}

/// The plan of a run over a dataset: its texts under the given fields, of which
/// there must be one at least.
pub open spec fn dataset_plan(
    value: JsonView,
    dataset: Seq<char>,
    fields: Seq<Seq<char>>,
    o: GraphOptions,
    existing: Option<Seq<Seq<char>>>,
) -> Result<PlanView, Seq<char>> {
    let items = bench::texts_in(value, "$"@, fields);
    if items.len() == 0 {
        Err(
            "no memory texts found in "@ + dataset + " using fields "@ + debug_list(fields),
        )
    } else {
        raw_plan(items, dataset, o, existing)
    }
}

/// Plans a run over a dataset.
pub fn plan_add(
    value: &Json,
    dataset: &str,
    text_fields: &Vec<String>,
    options: &GraphOptions,
    existing_ids: Option<&Vec<String>>,
) -> (r: Result<AddPlan, String>)
    ensures
        plan_outcome(r) == dataset_plan(
            value@,
            dataset@,
            text::strings(text_fields@),
            *options,
            opt_strings(existing_ids),
        ),
{
    let mut texts: Vec<TextItem> = Vec::new();
    assert(bench::item_views(texts@) =~= Seq::empty());
    collect_field_texts(value, "$", text_fields, &mut texts);
    let ghost items = bench::item_views(texts@);
    assert(items =~= bench::texts_in(value@, "$"@, text::strings(text_fields@)));
    if texts.is_empty() {
        let mut message = "no memory texts found in ".to_owned();
        message.append(dataset);
        message.append(" using fields ");
        let shown = debug_strings(text_fields);
        message.append(shown.as_str());
        return Err(message);
    }
    plan_texts(&texts, dataset, options, existing_ids)
}

/// Plans a run over texts.
pub fn plan_texts(
    texts: &Vec<TextItem>,
    dataset: &str,
    options: &GraphOptions,
    existing_ids: Option<&Vec<String>>,
) -> (r: Result<AddPlan, String>)
    ensures
        plan_outcome(r) == raw_plan(
            bench::item_views(texts@),
            dataset@,
            *options,
            opt_strings(existing_ids),
        ),
{
    let ghost items = bench::item_views(texts@);
    let ghost existing = opt_strings(existing_ids);
    let mut plan = AddPlan {
        requests: Vec::new(),
        graph_requests: Vec::new(),
        skipped_existing: 0,
    };
    assert(add_views(plan.requests@) =~= Seq::empty());
    assert(graph_add_views(plan.graph_requests@) =~= Seq::empty());
    assert(items.take(0) =~= Seq::empty());
    let mut i: usize = 0;
    while i < texts.len()
        invariant
            i <= texts@.len(),
            items == bench::item_views(texts@),
            existing == opt_strings(existing_ids),
            plan.skipped_existing <= i,
            raw_plan(items.take(i as int), dataset@, *options, existing) == Ok::<_, Seq<char>>(
                plan@,
            ),
        decreases texts@.len() - i,
    {
        let item = &texts[i];
        assert(items.take(i + 1).drop_last() =~= items.take(i as int));
        assert(items.take(i + 1).last() == item@);
        let mut id = item.path.clone();
        id.append(":");
        push_decimal(&mut id, i as u64);
        let mut metadata = Json::new_object();
        metadata.put("dataset", Json::Text(dataset.to_owned()));
        metadata.put("path", Json::Text(item.path.clone()));
        metadata.put("field", Json::Text(item.field.clone()));
        merge_metadata(&mut metadata, &item.metadata);
        let step = plan_memory(
            &mut plan,
            id.as_str(),
            item.text.as_str(),
            &metadata,
            item.path.as_str(),
            false,
            options,
            existing_ids,
        );
        match step {
            Ok(_) => {},
            Err(e) => {
                proof {
                    lemma_raw_error_stays(items, dataset@, *options, existing, i + 1);
                }
                return Err(e);
            },
        }
        i += 1;
    }
    assert(items.take(i as int) =~= items);
    Ok(plan)
}

/// `memories[3]` and the like.
pub open spec fn list_place(list: Seq<char>, index: nat) -> Seq<char> {
    list + "["@ + text::decimal_text(index) + "]"@
}

pub fn place_text(list: &str, index: usize) -> (r: String)
    ensures
        r@ == list_place(list@, index as nat),
{
    let mut r = list.to_owned();
    r.append("[");
    push_decimal(&mut r, index as u64);
    r.append("]");
    r
}

fn complaint(place: &str, what: &str) -> (r: String)
    ensures
        r@ == place@ + what@,
{
    let mut r = place.to_owned();
    r.append(what);
    r
}

/// The text of an item of a prepared list, trimmed, or what is wrong with it.
pub open spec fn prepared_text(v: JsonView, place: Seq<char>) -> Result<Seq<char>, Seq<char>> {
    if v !is Object {
        Err(place + " must be a JSON object"@)
    } else {
        match json::json_get_text(v, "text"@) {
            None => Err(place + ".text must be a string"@),
            Some(t) => if text::is_blank(t) {
                Err(place + ".text must not be empty"@)
            } else {
                Ok(text::trimmed(t))
            },
        }
    }
}

/// The id of an item of a prepared list, or what is wrong with it.
pub open spec fn prepared_id(v: JsonView, place: Seq<char>) -> Result<Option<Seq<char>>, Seq<char>> {
    match json::json_get(v, "id"@) {
        None => Ok(None),
        Some(JsonView::Text(t)) => Ok(Some(t)),
        Some(_) => Err(place + ".id must be a string when present"@),
    }
}

pub fn read_prepared_text(v: &Json, place: &str) -> (r: Result<String, String>)
    ensures
        match r {
            Ok(t) => prepared_text(v@, place@) == Ok::<_, Seq<char>>(t@),
            Err(e) => prepared_text(v@, place@) == Err::<Seq<char>, _>(e@),
        },
{
    if !v.is_object() {
        return Err(complaint(place, " must be a JSON object"));
    }
    match v.get_str("text") {
        None => Err(complaint(place, ".text must be a string")),
        Some(t) => {
            let trimmed = trim(t);
            if trimmed.is_empty() {
                Err(complaint(place, ".text must not be empty"))
            } else {
                Ok(trimmed.to_owned())
            }
        },
    }
}

pub fn read_prepared_id(v: &Json, place: &str) -> (r: Result<Option<String>, String>)
    ensures
        bench::space_outcome(r) == prepared_id(v@, place@),
{
    match v.get("id") {
        None => Ok(None),
        Some(Json::Text(t)) => Ok(Some(t.clone())),
        Some(_) => Err(complaint(place, ".id must be a string when present")),
    }
}

/// The memory that an item of a prepared dataset is, or what is wrong with it.
pub open spec fn prepared_memory(v: JsonView, index: nat, dataset: Seq<char>) -> Result<
    MemoryItemView,
    Seq<char>,
> {
    let place = list_place("memories"@, index);
    let path = "$."@ + place + ".text"@;
    match prepared_text(v, place) {
        Err(e) => Err(e),
        Ok(t) => match prepared_id(v, place) {
            Err(e) => Err(e),
            Ok(given) => {
                let id = match given {
                    Some(id) => id,
                    None => path + ":"@ + text::decimal_text(index),
                };
                match bench::object_under(v, "metadata"@, place) {
                    Err(e) => Err(e),
                    Ok(noted) => {
                        let metadata = match noted {
                            Some(m) => m,
                            None => json::empty_object(),
                        };
                        Ok(
                            MemoryItemView {
                                id,
                                text: t,
                                metadata: bench::prepared_metadata(
                                    metadata,
                                    id,
                                    dataset,
                                    path,
                                    "text"@,
                                ),
                                path,
                            },
                        )
                    },
                }
            },
        },
    }
}

/// The plan of a run over the memories of a prepared dataset.
pub open spec fn memories_plan(
    memories: Seq<JsonView>,
    dataset: Seq<char>,
    o: GraphOptions,
    existing: Option<Seq<Seq<char>>>,
) -> Result<PlanView, Seq<char>>
    decreases memories.len(),
{
    if memories.len() == 0 {
        Ok(empty_plan())
    } else {
        match memories_plan(memories.drop_last(), dataset, o, existing) {
            Err(e) => Err(e),
            Ok(plan) => match prepared_memory(
                memories.last(),
                (memories.len() - 1) as nat,
                dataset,
            ) {
                Err(e) => Err(e),
                Ok(m) => with_memory(plan, m, true, o, existing),
            },
        }
    }
}

proof fn lemma_memories_error_stays(
    memories: Seq<JsonView>,
    dataset: Seq<char>,
    o: GraphOptions,
    existing: Option<Seq<Seq<char>>>,
    n: int,
)
    requires
        0 <= n <= memories.len(),
        memories_plan(memories.take(n), dataset, o, existing) is Err,
    ensures
        memories_plan(memories, dataset, o, existing) == memories_plan(
            memories.take(n),
            dataset,
            o,
            existing,
        ),
    decreases memories.len() - n,
{
    if n == memories.len() {
        assert(memories.take(n) =~= memories);
    } else {
        assert(memories.drop_last().take(n) =~= memories.take(n));
        lemma_memories_error_stays(memories.drop_last(), dataset, o, existing, n);
    }
}

/// The plan of a run over a prepared dataset, which must list one memory at
/// least.
pub open spec fn prepared_plan(
    value: JsonView,
    dataset: Seq<char>,
    o: GraphOptions,
    existing: Option<Seq<Seq<char>>>,
) -> Result<PlanView, Seq<char>> {
    match json::json_get(value, "memories"@) {
        Some(JsonView::Array(memories)) => if memories.len() == 0 {
            Err(
                "prepared schema v1 field `memories` must contain at least one memory"@,
            )
        } else {
            memories_plan(memories, dataset, o, existing)
        },
        _ => Err("prepared schema v1 field `memories` must be a JSON array"@),
    }
}

fn read_prepared_memory(
    plan: &mut AddPlan,
    memory: &Json,
    index: usize,
    dataset: &str,
    options: &GraphOptions,
    existing_ids: Option<&Vec<String>>,
) -> (r: Result<(), String>)
    requires
        old(plan).skipped_existing < usize::MAX,
    ensures
        ({
            let next = match prepared_memory(memory@, index as nat, dataset@) {
                Err(e) => Err(e),
                Ok(m) => with_memory(old(plan)@, m, true, *options, opt_strings(existing_ids)),
            };
            match r {
                Ok(_) => next == Ok::<_, Seq<char>>(final(plan)@),
                Err(e) => next == Err::<PlanView, _>(e@),
            }
        }),
        final(plan).skipped_existing <= old(plan).skipped_existing + 1,
{
    let place = place_text("memories", index);
    let mut path = "$.".to_owned();
    path.append(place.as_str());
    path.append(".text");
    let content = match read_prepared_text(memory, place.as_str()) {
        Ok(t) => t,
        Err(e) => {
            return Err(e);
        },
    };
    let id = match read_prepared_id(memory, place.as_str()) {
        Ok(Some(id)) => id,
        Ok(None) => {
            let mut id = path.clone();
            id.append(":");
            push_decimal(&mut id, index as u64);
            id
        },
        Err(e) => {
            return Err(e);
        },
    };
    let noted = match optional_object_field(memory, "metadata", place.as_str()) {
        Ok(Some(m)) => m,
        Ok(None) => Json::new_object(),
        Err(e) => {
            return Err(e);
        },
    };
    let metadata = prepared_memory_metadata(&noted, id.as_str(), dataset, path.as_str(), "text");
    plan_memory(
        plan,
        id.as_str(),
        content.as_str(),
        &metadata,
        path.as_str(),
        true,
        options,
        existing_ids,
    )
}

/// Plans a run over a prepared dataset.
pub fn plan_add_prepared_memories(
    value: &Json,
    dataset: &str,
    options: &GraphOptions,
    existing_ids: Option<&Vec<String>>,
) -> (r: Result<AddPlan, String>)
    ensures
        plan_outcome(r) == prepared_plan(value@, dataset@, *options, opt_strings(existing_ids)),
{
    let memories = match value.get("memories") {
        Some(Json::Array(items)) => items,
        _ => {
            return Err("prepared schema v1 field `memories` must be a JSON array".to_owned());
        },
    };
    proof {
        json::lemma_array_view(*memories);
    }
    let ghost all = json::json_views(memories@);
    let ghost existing = opt_strings(existing_ids);
    if memories.is_empty() {
        return Err(
            "prepared schema v1 field `memories` must contain at least one memory".to_owned(),
        );
    }
    let mut plan = AddPlan {
        requests: Vec::new(),
        graph_requests: Vec::new(),
        skipped_existing: 0,
    };
    assert(add_views(plan.requests@) =~= Seq::empty());
    assert(graph_add_views(plan.graph_requests@) =~= Seq::empty());
    assert(all.take(0) =~= Seq::empty());
    let mut i: usize = 0;
    while i < memories.len()
        invariant
            i <= memories@.len(),
            all == json::json_views(memories@),
            existing == opt_strings(existing_ids),
            json::json_get(value@, "memories"@) == Some(JsonView::Array(all)),
            all.len() > 0,
            plan.skipped_existing <= i,
            memories_plan(all.take(i as int), dataset@, *options, existing) == Ok::<_, Seq<char>>(
                plan@,
            ),
        decreases memories@.len() - i,
    {
        assert(all.take(i + 1).drop_last() =~= all.take(i as int));
        assert(all.take(i + 1).last() == memories@[i as int]@);
        match read_prepared_memory(&mut plan, &memories[i], i, dataset, options, existing_ids) {
            Ok(_) => {},
            Err(e) => {
                proof {
                    lemma_memories_error_stays(all, dataset@, *options, existing, i + 1);
                }
                return Err(e);
            },
        }
        i += 1;
    }
    assert(all.take(i as int) =~= all);
    Ok(plan)
}

/// A run accounts for every memory: each is added, or skipped because it is
/// stored, and each gets its graph where graphs are built.
pub proof fn plans_account_for_every_memory(
    items: Seq<TextItemView>,
    dataset: Seq<char>,
    o: GraphOptions,
    existing: Option<Seq<Seq<char>>>,
)
    ensures
        raw_plan(items, dataset, o, existing) matches Ok(plan) ==> {
            &&& plan.requests.len() + plan.skipped_existing == items.len()
            &&& plan.graph_requests.len() == (if o.build {
                items.len()
            } else {
                0
            })
            &&& existing is None ==> plan.skipped_existing == 0
        },
    decreases items.len(),
{
    if items.len() > 0 {
        plans_account_for_every_memory(items.drop_last(), dataset, o, existing);
    }
}

/// The same holds of a prepared dataset.
pub proof fn prepared_plans_account_for_every_memory(
    memories: Seq<JsonView>,
    dataset: Seq<char>,
    o: GraphOptions,
    existing: Option<Seq<Seq<char>>>,
)
    ensures
        memories_plan(memories, dataset, o, existing) matches Ok(plan) ==> {
            &&& plan.requests.len() + plan.skipped_existing == memories.len()
            &&& plan.graph_requests.len() == (if o.build {
                memories.len()
            } else {
                0
            })
            &&& existing is None ==> plan.skipped_existing == 0
        },
    decreases memories.len(),
{
    if memories.len() > 0 {
        prepared_plans_account_for_every_memory(memories.drop_last(), dataset, o, existing);
    }
}

} // verus!
