//! What a benchmark run asks for and what it writes down.

use vstd::prelude::*;

use crate::api::{ScoredView, SearchMode};
use crate::bench;
use crate::bench::{GraphOptions, TextItemView};
use crate::bench_run;
use crate::bench_run::{
    graph_request, prepared_memory, raw_memory, raw_plan, with_memory, AddView, GraphAddView,
    MemoryItemView, PlanView,
};
use crate::bench_search;
use crate::bench_search::{
    earlier_output, prepared_query, queries_plan, requests_of, runtime_problem, searched_output,
    searched_space, written_results, EmbeddingKind, OutputView, RuntimeOptions, StoreBackendKind,
};
use crate::json;
use crate::json::JsonView;
use crate::text;

verus! {

/// Whether a request puts a memory into the graph as it is.
pub open spec fn puts_into_graph(g: GraphAddView, m: MemoryItemView, o: GraphOptions) -> bool {
    &&& g.idempotency_key == m.id
    &&& g.text == m.text
    &&& g.metadata == m.metadata
    &&& g.owner_id == o.owner_id@
    &&& g.source_ref == Some(m.id)
    &&& g.source_kind == "benchmark"@
    &&& g.content_role == "message"@
    &&& g.created_by_agent_id is None
    &&& g.session_id == json::json_get_text(m.metadata, "session_id"@)
    &&& g.observed_at_ms is Some ==> json::json_get(m.metadata, "observed_at_ms"@) == Some(
        JsonView::Unsigned(g.observed_at_ms->0),
    )
    &&& json::json_get(m.metadata, "observed_at_ms"@) matches Some(JsonView::Unsigned(n))
        ==> g.observed_at_ms == Some(n)
    &&& json::json_get(m.metadata, "turn_index"@) matches Some(JsonView::Unsigned(n)) ==> (n
        <= i64::MAX ==> g.session_sequence == Some(n as i64))
    &&& json::json_get(m.metadata, "turn_index"@) matches Some(JsonView::Negative(n))
        ==> g.session_sequence == Some(n)
    &&& g.session_sequence is Some ==> json::json_get(m.metadata, "turn_index"@) == Some(
        if g.session_sequence->0 >= 0 {
            JsonView::Unsigned(g.session_sequence->0 as u64)
        } else {
            JsonView::Negative(g.session_sequence->0)
        },
    )
}

/// Whether the negative numbers of a value are negative.
pub open spec fn has_plain_turn(m: MemoryItemView) -> bool {
    json::json_get(m.metadata, "turn_index"@) matches Some(JsonView::Negative(n)) ==> n < 0
}

/// A memory joins the plan with its own id, text and metadata, unless it is
/// stored, and then it is counted as skipped; where graphs are built, it joins the
/// graph in its own space either way.
pub proof fn memories_join_the_plan(
    plan: PlanView,
    m: MemoryItemView,
    is_prepared: bool,
    o: GraphOptions,
    existing: Option<Seq<Seq<char>>>,
)
    requires
        has_plain_turn(m),
        with_memory(plan, m, is_prepared, o, existing) is Ok,
    ensures
        ({
            let after = with_memory(plan, m, is_prepared, o, existing)->Ok_0;
            let stored = existing is Some && existing->0.contains(m.id);
            &&& stored ==> after.requests == plan.requests && after.skipped_existing
                == plan.skipped_existing + 1
            &&& !stored ==> after.skipped_existing == plan.skipped_existing && after.requests
                == plan.requests.push(
                AddView { id: Some(m.id), text: m.text, metadata: m.metadata },
            )
            &&& !o.build ==> after.graph_requests == plan.graph_requests
            &&& o.build ==> {
                &&& after.graph_requests.len() == plan.graph_requests.len() + 1
                &&& after.graph_requests.drop_last() == plan.graph_requests
                &&& puts_into_graph(after.graph_requests.last(), m, o)
                &&& bench::memory_space(m.path, m.metadata, is_prepared, o) == Ok::<
                    Option<Seq<char>>,
                    Seq<char>,
                >(Some(after.graph_requests.last().memory_space_id))
            }
        }),
{
    let after = with_memory(plan, m, is_prepared, o, existing)->Ok_0;
    if o.build {
        let g = graph_request(m, is_prepared, o)->Ok_0;
        assert(after.graph_requests == plan.graph_requests.push(g));
        assert(after.graph_requests.drop_last() =~= plan.graph_requests);
    }
}

/// A memory is refused if and only if graphs are built and its space cannot be
/// told.
pub proof fn memories_are_refused_without_a_space(
    plan: PlanView,
    m: MemoryItemView,
    is_prepared: bool,
    o: GraphOptions,
    existing: Option<Seq<Seq<char>>>,
)
    ensures
        with_memory(plan, m, is_prepared, o, existing) is Err <==> o.build && !(
        bench::memory_space(m.path, m.metadata, is_prepared, o) is Ok && bench::memory_space(
            m.path,
            m.metadata,
            is_prepared,
            o,
        )->Ok_0 is Some),
{
}

/// A run over texts that nothing is known of asks for every text, under its path
/// and its number, in their order.
pub proof fn texts_are_asked_for_in_order(
    items: Seq<TextItemView>,
    dataset: Seq<char>,
    o: GraphOptions,
    i: int,
)
    requires
        0 <= i < items.len(),
        raw_plan(items, dataset, o, None) is Ok,
    ensures
        ({
            let plan = raw_plan(items, dataset, o, None)->Ok_0;
            &&& plan.requests.len() == items.len()
            &&& plan.requests[i].text == items[i].text
            &&& plan.requests[i].id == Some(
                items[i].path + ":"@ + text::decimal_text(i as nat),
            )
        }),
    decreases items.len(),
{
    let t = items.drop_last();
    bench_run::plans_account_for_every_memory(items, dataset, o, None);
    bench_run::plans_account_for_every_memory(t, dataset, o, None);
    if i < t.len() {
        texts_are_asked_for_in_order(t, dataset, o, i);
        assert(t[i] == items[i]);
    }
}

/// An item of a prepared list becomes a memory if and only if it is an object with
/// a text that is not blank, an id that is a text or none, and metadata that is an
/// object or none. It keeps its trimmed text, its id and what its metadata notes.
pub proof fn prepared_items_become_memories(v: JsonView, index: nat, dataset: Seq<char>)
    ensures
        ({
            let r = prepared_memory(v, index, dataset);
            let t = json::json_get_text(v, "text"@);
            let id = json::json_get(v, "id"@);
            let noted = json::json_get(v, "metadata"@);
            &&& r is Ok <==> (v is Object && t is Some && !text::is_blank(t->0) && (id is None
                || id->0 is Text) && (noted is None || noted->0 is Object))
            &&& r is Ok ==> {
                let m = r->Ok_0;
                let path = "$."@ + ("memories"@ + "["@ + text::decimal_text(index) + "]"@)
                    + ".text"@;
                &&& m.text == text::trimmed(t->0)
                &&& m.path == path
                &&& id is Some ==> id->0 == JsonView::Text(m.id)
                &&& id is None ==> m.id == path + ":"@ + text::decimal_text(index)
                &&& m.metadata == bench::prepared_metadata(
                    if noted is Some {
                        noted->0
                    } else {
                        json::empty_object()
                    },
                    m.id,
                    dataset,
                    path,
                    "text"@,
                )
            }
        }),
{
}

/// What is noted already stays, and what is not noted is added.
pub proof fn defaults_fill_gaps(v: JsonView, key: Seq<char>, value: JsonView, other: Seq<char>)
    requires
        v is Object,
    ensures
        json::json_get(bench::with_default(v, key, value), key) == Some(
            if json::json_get(v, key) is Some {
                json::json_get(v, key)->0
            } else {
                value
            },
        ),
        other != key ==> json::json_get(bench::with_default(v, key, value), other)
            == json::json_get(v, other),
{
    json::put_then_get(v, key, value, key);
    json::put_then_get(v, key, value, other);
}

/// The results that are written are those that were found, in their order, each
/// with its text, its metadata and its score, under the id that its metadata notes
/// or else its own.
pub proof fn results_are_written_as_found(found: Seq<ScoredView>, i: int)
    requires
        0 <= i < found.len(),
    ensures
        ({
            let w = written_results(found)[i];
            let r = found[i].record;
            let noted = json::json_get_text(r.metadata, "benchmark_memory_id"@);
            &&& written_results(found).len() == found.len()
            &&& w.text == r.text
            &&& w.metadata == r.metadata
            &&& w.score == found[i].score
            &&& noted is Some && !text::is_blank(noted->0) ==> w.id == noted->0
            &&& noted is None || text::is_blank(noted->0) ==> w.id == r.id
        }),
{
}

/// The output of a query says what was asked and what was found.
pub proof fn outputs_say_what_was_asked(
    item: TextItemView,
    filter: Option<JsonView>,
    found: Seq<ScoredView>,
)
    ensures
        ({
            let out = searched_output(item, filter, found);
            &&& out.query == item.text
            &&& out.query_path == item.path
            &&& out.filter == filter
            &&& out.completed
            &&& out.results == written_results(found)
            &&& out.query_id is None && out.metadata is None && out.task is None
        }),
{
}

/// Every query is asked once, in its order, with the run's number of results and
/// filter, in its own memory space.
pub proof fn queries_are_asked_in_order(
    items: Seq<TextItemView>,
    top_k: usize,
    filter: Option<JsonView>,
    o: GraphOptions,
    i: int,
)
    requires
        0 <= i < items.len(),
        requests_of(items, top_k, filter, o) is Ok,
    ensures
        ({
            let requests = requests_of(items, top_k, filter, o)->Ok_0;
            &&& requests.len() == items.len()
            &&& requests[i].query == items[i].text
            &&& requests[i].top_k == top_k
            &&& requests[i].filter == filter
            &&& requests[i].graph_target_subject is None
            &&& requests[i].graph_target_evidence_speaker is None
            &&& searched_space(items[i].path, filter, false, o) == Ok::<
                Option<Seq<char>>,
                Seq<char>,
            >(requests[i].graph_memory_space_id)
        }),
    decreases items.len(),
{
    let t = items.drop_last();
    lemma_as_many_requests(t, top_k, filter, o);
    if i < t.len() {
        queries_are_asked_in_order(t, top_k, filter, o, i);
        assert(t[i] == items[i]);
    }
}

proof fn lemma_as_many_requests(
    items: Seq<TextItemView>,
    top_k: usize,
    filter: Option<JsonView>,
    o: GraphOptions,
)
    ensures
        requests_of(items, top_k, filter, o) is Ok ==> requests_of(
            items,
            top_k,
            filter,
            o,
        )->Ok_0.len() == items.len(),
    decreases items.len(),
{
    if items.len() > 0 {
        lemma_as_many_requests(items.drop_last(), top_k, filter, o);
    }
}

/// A prepared query is asked with its own text, trimmed, and with its own filter
/// where it has one, else with that of the run; its output starts empty and says
/// the same.
pub proof fn prepared_queries_are_asked(
    v: JsonView,
    index: nat,
    top_k: usize,
    run_filter: Option<JsonView>,
    o: GraphOptions,
)
    requires
        prepared_query(v, index, top_k, run_filter, o) is Ok,
    ensures
        ({
            let (request, out) = prepared_query(v, index, top_k, run_filter, o)->Ok_0;
            let t = json::json_get_text(v, "text"@);
            let own = json::json_get(v, "filter"@);
            &&& t is Some && !text::is_blank(t->0)
            &&& request.query == text::trimmed(t->0) && out.query == request.query
            &&& request.top_k == top_k
            &&& own is Some ==> request.filter == own
            &&& own is None ==> request.filter == run_filter
            &&& out.filter == request.filter
            &&& out.query_path == "$."@ + ("queries"@ + "["@ + text::decimal_text(index) + "]"@)
                + ".text"@
            &&& out.metadata == json::json_get(v, "metadata"@)
            &&& out.task == json::json_get(v, "task"@)
            &&& out.query_id is Some ==> json::json_get(v, "id"@) == Some(
                JsonView::Text(out.query_id->0),
            )
            &&& out.query_id is None ==> json::json_get(v, "id"@) is None
            &&& !out.completed && out.results.len() == 0
            &&& searched_space(out.query_path, request.filter, true, o) == Ok::<
                Option<Seq<char>>,
                Seq<char>,
            >(request.graph_memory_space_id)
        }),
{
}

/// The requests and the outputs of a prepared list stand side by side, one for
/// each query.
pub proof fn prepared_queries_stand_side_by_side(
    queries: Seq<JsonView>,
    top_k: usize,
    run_filter: Option<JsonView>,
    o: GraphOptions,
    i: int,
)
    requires
        0 <= i < queries.len(),
        queries_plan(queries, top_k, run_filter, o) is Ok,
    ensures
        ({
            let (requests, outputs) = queries_plan(queries, top_k, run_filter, o)->Ok_0;
            &&& requests.len() == queries.len() && outputs.len() == queries.len()
            &&& prepared_query(queries[i], i as nat, top_k, run_filter, o) == Ok::<_, Seq<char>>(
                (requests[i], outputs[i]),
            )
        }),
    decreases queries.len(),
{
    let t = queries.drop_last();
    lemma_as_many_queries(t, top_k, run_filter, o);
    if i < t.len() {
        prepared_queries_stand_side_by_side(t, top_k, run_filter, o, i);
        assert(t[i] == queries[i]);
    }
}

proof fn lemma_as_many_queries(
    queries: Seq<JsonView>,
    top_k: usize,
    run_filter: Option<JsonView>,
    o: GraphOptions,
)
    ensures
        queries_plan(queries, top_k, run_filter, o) is Ok ==> queries_plan(
            queries,
            top_k,
            run_filter,
            o,
        )->Ok_0.0.len() == queries.len() && queries_plan(queries, top_k, run_filter, o)->Ok_0.1.len()
            == queries.len(),
    decreases queries.len(),
{
    if queries.len() > 0 {
        lemma_as_many_queries(queries.drop_last(), top_k, run_filter, o);
    }
}

/// Whether an output is the last of those that satisfy what is asked.
pub open spec fn is_last_output(
    outputs: Seq<OutputView>,
    k: int,
    holds: spec_fn(OutputView) -> bool,
) -> bool {
    &&& 0 <= k < outputs.len()
    &&& holds(outputs[k])
    &&& forall|j: int| k < j < outputs.len() ==> !holds(#[trigger] outputs[j])
}

proof fn lemma_last_by_id(outputs: Seq<OutputView>, id: Seq<char>)
    ensures
        match bench_search::last_with_id(outputs, id) {
            Some(k) => is_last_output(outputs, k, |p: OutputView| p.query_id == Some(id)),
            None => forall|k: int|
                0 <= k < outputs.len() ==> (#[trigger] outputs[k]).query_id != Some(id),
        },
    decreases outputs.len(),
{
    if outputs.len() > 0 && outputs.last().query_id != Some(id) {
        let t = outputs.drop_last();
        lemma_last_by_id(t, id);
        assert(forall|j: int| 0 <= j < t.len() ==> #[trigger] outputs[j] == t[j]);
    }
}

/// Of several outputs of an earlier run with the id of a query, the last one
/// counts.
pub proof fn the_last_output_counts(existing: Seq<OutputView>, query: OutputView, k: int)
    requires
        query.query_id is Some,
        is_last_output(existing, k, |p: OutputView| p.query_id == query.query_id),
    ensures
        earlier_output(existing, query) == Some(k),
{
    let id = query.query_id->0;
    lemma_last_by_id(existing, id);
    assert(existing[k].query_id == Some(id));
    match bench_search::last_with_id(existing, id) {
        Some(j) => {
            assert(existing[j].query_id == Some(id));
            if j < k {
                assert(!(|p: OutputView| p.query_id == Some(id))(existing[k]));
            } else if k < j {
                assert(!(|p: OutputView| p.query_id == query.query_id)(existing[j]));
            }
        },
        None => {},
    }
}

/// A run starts if and only if a graph search has its graph, every service that
/// is used has its key, and a graph is built in an SQLite store.
pub proof fn runs_start_with_what_they_need(o: RuntimeOptions)
    ensures
        runtime_problem(o) is None <==> ((o.search_mode == SearchMode::Graph ==> o.graph) && (
        o.embedding == EmbeddingKind::Openrouter ==> o.api_key_is_set) && (o.rerank
            ==> o.rerank_api_key_is_set) && (o.graph_build ==> o.store_backend
            == StoreBackendKind::Sqlite && o.graph_llm_api_key_is_set)),
        o.search_mode == SearchMode::Graph && !o.graph ==> runtime_problem(o) == Some(
            "--search-mode graph requires --graph"@,
        ),
{
}

/// The texts of an object are looked up field by field, in the order of the
/// fields; a field that holds no text, or a blank one, gives nothing.
pub proof fn texts_are_found_field_by_field(
    v: JsonView,
    path: Seq<char>,
    fields: Seq<Seq<char>>,
    field: Seq<char>,
)
    ensures
        ({
            let before = bench::own_texts(v, path, fields);
            let after = bench::own_texts(v, path, fields.push(field));
            let t = json::json_get_text(v, field);
            &&& t is None || text::is_blank(t->0) ==> after == before
            &&& t is Some && !text::is_blank(t->0) ==> {
                &&& after.len() == before.len() + 1
                &&& after.drop_last() == before
                &&& after.last().text == text::trimmed(t->0)
                &&& after.last().field == field
                &&& after.last().path == path + "."@ + field
            }
        }),
        bench::own_texts(v, path, Seq::empty()).len() == 0,
{
    assert(fields.push(field).drop_last() =~= fields);
    let before = bench::own_texts(v, path, fields);
    let after = bench::own_texts(v, path, fields.push(field));
    if after.len() > before.len() {
        assert(after.drop_last() =~= before);
    }
}

proof fn lemma_items_before(
    items: Seq<JsonView>,
    x: JsonView,
    path: Seq<char>,
    fields: Seq<Seq<char>>,
    n: nat,
)
    requires
        n <= items.len(),
    ensures
        bench::texts_in_items(JsonView::Array(items.push(x)), path, fields, n)
            == bench::texts_in_items(JsonView::Array(items), path, fields, n),
    decreases n,
{
    if n > 0 {
        lemma_items_before(items, x, path, fields, (n - 1) as nat);
        assert(items.push(x)[n - 1] == items[n - 1]);
    }
}

/// The texts of an array are those of its items, one after the other, each with
/// its place in its path.
pub proof fn texts_are_found_item_by_item(
    items: Seq<JsonView>,
    x: JsonView,
    path: Seq<char>,
    fields: Seq<Seq<char>>,
)
    ensures
        bench::texts_in(JsonView::Array(items.push(x)), path, fields) == bench::texts_in(
            JsonView::Array(items),
            path,
            fields,
        ) + bench::texts_in(
            x,
            path + "["@ + text::decimal_text(items.len()) + "]"@,
            fields,
        ),
        bench::texts_in(JsonView::Array(Seq::empty()), path, fields).len() == 0,
{
    lemma_items_before(items, x, path, fields, items.len());
    assert(items.push(x)[items.len() as int] == x);
    assert((items.push(x).len() - 1) as nat == items.len());
}

/// An argument asks for a concurrency if and only if it is a number that is not
/// zero and not too great.
pub proof fn concurrencies_are_positive(value: Seq<char>)
    ensures
        ({
            let n = text::parsed_number(value);
            let r = bench::concurrency_of(value);
            &&& r is Ok <==> n is Some && 0 < n->0 <= usize::MAX
            &&& r is Ok ==> r->Ok_0 == n->0
            &&& n == Some(0nat) ==> r == Err::<usize, Seq<char>>("must be at least 1"@)
        }),
{
}

/// A field names a memory space by a text that is not blank, trimmed; anything but
/// a text is refused.
pub proof fn spaces_are_named_by_texts(v: JsonView, field: Seq<char>)
    ensures
        ({
            let r = bench::space_under(v, field);
            match json::json_get(v, field) {
                None => r == Ok::<Option<Seq<char>>, Seq<char>>(None),
                Some(JsonView::Text(t)) => r is Ok && (r->Ok_0 is Some <==> text::trimmed(t).len()
                    > 0) && (r->Ok_0 is Some ==> r->Ok_0->0 == text::trimmed(t)),
                Some(_) => r is Err,
            }
        }),
{
}

proof fn lemma_bracketed(lead: Seq<char>, index: Seq<char>, rest: Seq<char>)
    requires
        !index.contains(']'),
    ensures
        bench::bracketed(lead + index + seq![']'] + rest, lead) == Some(index),
{
    let path = lead + index + seq![']'] + rest;
    assert(path.subrange(0, lead.len() as int) =~= lead);
    let behind = path.skip(lead.len() as int);
    assert(behind =~= index + seq![']'] + rest);
    assert(behind.take(index.len() as int) =~= index);
    lemma_first_place(behind, ']', index.len() as int, index);
}

proof fn lemma_first_place(s: Seq<char>, c: char, n: int, front: Seq<char>)
    requires
        0 <= n < s.len(),
        s[n] == c,
        front == s.take(n),
        !front.contains(c),
    ensures
        text::char_position(s, c) == n,
    decreases n,
{
    if n > 0 {
        assert(front[0] == s[0]);
        assert(front.contains(front[0]));
        let t = s.drop_first();
        let f = front.drop_first();
        assert(f =~= t.take(n - 1));
        assert forall|x: char| #[trigger] f.contains(x) implies front.contains(x) by {
            let i = choose|i: int| 0 <= i < f.len() && f[i] == x;
            assert(front[i + 1] == x);
        }
        lemma_first_place(t, c, n - 1, f);
    }
}

/// A path into a top-level array has a space for each item of the array, whatever
/// stands behind the item; a path that does not start with an array has none.
pub proof fn items_have_their_spaces(index: Seq<char>, rest: Seq<char>, path: Seq<char>)
    requires
        !index.contains(']'),
    ensures
        ({
            let n = text::parsed_number(index);
            let inside = "$["@ + index + seq![']'] + rest;
            &&& n is Some && n->0 <= usize::MAX ==> bench::array_space(inside) == Some(
                "path:$["@ + index + "]"@,
            )
            &&& n is None ==> bench::array_space(inside) is None
        }),
        !text::starts_with(path, "$["@) ==> bench::array_space(path) is None,
{
    lemma_bracketed("$["@, index, rest);
}

/// A memory and a query of one prepared dataset look into the space that their
/// metadata and their filter name; those of a dataset of texts look into that of
/// their path.
pub proof fn spaces_go_by_mode(
    path: Seq<char>,
    metadata: JsonView,
    filter: Option<JsonView>,
    is_prepared: bool,
    o: GraphOptions,
)
    ensures
        ({
            let field = o.memory_space_field@;
            let memory = bench::memory_space(path, metadata, is_prepared, o);
            let query = bench::query_space(path, filter, is_prepared, o);
            let by_path = Ok::<Option<Seq<char>>, Seq<char>>(bench::array_space(path));
            let by_filter = if filter is Some {
                bench::space_under(filter->0, field)
            } else {
                Ok(None)
            };
            &&& o.memory_space_mode is MetadataField ==> memory == bench::space_under(
                metadata,
                field,
            ) && query == by_filter
            &&& o.memory_space_mode is PathPrefix ==> memory == by_path && query == by_path
            &&& o.memory_space_mode is Auto && is_prepared ==> memory == bench::space_under(
                metadata,
                field,
            ) && query == by_filter
            &&& o.memory_space_mode is Auto && !is_prepared ==> memory == by_path
            &&& o.memory_space_mode is Auto && !is_prepared && bench::array_space(path) is Some
                ==> query == by_path
            &&& o.memory_space_mode is Auto && !is_prepared && bench::array_space(path) is None
                ==> query == by_filter
        }),
{
}

/// What is noted of a text of a conversation is its turn, its speaker and the
/// context that it shares, as far as the object tells; of other texts nothing is
/// noted.
pub proof fn turns_are_noted(object: JsonView, index: Seq<char>, rest: Seq<char>)
    requires
        !index.contains(']'),
        text::parsed_number(index) is Some,
        text::parsed_number(index)->0 <= u64::MAX,
    ensures
        ({
            let path = "$.conversation["@ + index + seq![']'] + rest;
            let noted = bench::item_metadata(object, path);
            &&& json::json_get(noted, "conversation_index"@) == Some(
                JsonView::Unsigned(text::parsed_number(index)->0 as u64),
            )
            &&& json::json_get(noted, "speaker"@) == json::json_get(object, "speaker"@)
            &&& json::json_get(noted, "shared_context_id"@) == json::json_get(
                object,
                "shared_context_id"@,
            )
        }),
{
    reveal_strlit("conversation_index");
    reveal_strlit("speaker");
    reveal_strlit("shared_context_id");
    assert("conversation_index"@.len() == 18 && "speaker"@.len() == 7
        && "shared_context_id"@.len() == 17);
    let path = "$.conversation["@ + index + seq![']'] + rest;
    lemma_bracketed("$.conversation["@, index, rest);
    let n = JsonView::Unsigned(text::parsed_number(index)->0 as u64);
    let none = json::empty_object();
    let a = bench::with_member_of(none, object, "shared_context_id"@);
    let b = bench::with_member_of(a, object, "speaker"@);
    assert(json::json_get(none, "shared_context_id"@) is None);
    assert(json::json_get(none, "speaker"@) is None);
    if json::json_get(object, "shared_context_id"@) is Some {
        let v = json::json_get(object, "shared_context_id"@)->0;
        json::put_then_get(none, "shared_context_id"@, v, "shared_context_id"@);
        json::put_then_get(none, "shared_context_id"@, v, "speaker"@);
    }
    if json::json_get(object, "speaker"@) is Some {
        let v = json::json_get(object, "speaker"@)->0;
        json::put_then_get(a, "speaker"@, v, "speaker"@);
        json::put_then_get(a, "speaker"@, v, "shared_context_id"@);
    }
    json::put_then_get(b, "conversation_index"@, n, "conversation_index"@);
    json::put_then_get(b, "conversation_index"@, n, "speaker"@);
    json::put_then_get(b, "conversation_index"@, n, "shared_context_id"@);
}

/// The query that is given goes before those of the dataset, under a path of its
/// own.
pub proof fn given_queries_go_first(
    query: Option<Seq<char>>,
    dataset: Option<JsonView>,
    fields: Seq<Seq<char>>,
)
    ensures
        ({
            let all = bench_search::ad_hoc_queries(query, dataset, fields);
            let found = if dataset is Some {
                bench::texts_in(dataset->0, "$"@, fields)
            } else {
                Seq::empty()
            };
            &&& query is None ==> all == found
            &&& query is Some ==> {
                &&& all.len() == found.len() + 1
                &&& all.skip(1) == found
                &&& all[0].text == query->0
                &&& all[0].path == "$.query"@
                &&& all[0].field == "query"@
            }
        }),
{
    let all = bench_search::ad_hoc_queries(query, dataset, fields);
    let found = if dataset is Some {
        bench::texts_in(dataset->0, "$"@, fields)
    } else {
        Seq::empty()
    };
    if query is Some {
        assert(all.skip(1) =~= found);
    } else {
        assert(all =~= found);
    }
}

/// Progress is reported ten times or more on a long run, and never more often than
/// after ten items.
pub proof fn progress_is_reported_now_and_then(total: nat)
    ensures
        ({
            let n = bench_search::log_interval(total);
            &&& total <= 100 ==> n == 10
            &&& 100 < total <= 1000 ==> n == 50
            &&& total > 1000 ==> n == 100
        }),
{
}

/// A filter of the command line is a JSON object, or it is refused.
pub proof fn filters_are_objects(raw: Seq<char>, parsed: Result<JsonView, Seq<char>>)
    ensures
        bench::filter_outcome(raw, parsed) is Ok <==> parsed is Ok && parsed->Ok_0 is Object,
        bench::filter_outcome(raw, parsed) is Ok ==> bench::filter_outcome(raw, parsed)->Ok_0
            == parsed->Ok_0,
{
}

/// A dataset without texts has no plan, and one with texts has that of its texts.
pub proof fn datasets_need_texts(
    value: JsonView,
    dataset: Seq<char>,
    fields: Seq<Seq<char>>,
    o: GraphOptions,
    existing: Option<Seq<Seq<char>>>,
)
    ensures
        ({
            let items = bench::texts_in(value, "$"@, fields);
            let r = bench_run::dataset_plan(value, dataset, fields, o, existing);
            &&& items.len() == 0 ==> r is Err
            &&& items.len() > 0 ==> r == raw_plan(items, dataset, o, existing)
        }),
{
}

/// A memory of a text notes its dataset, its path and its field, unless the text
/// notes something else there.
pub proof fn memories_note_where_they_come_from(
    item: TextItemView,
    index: nat,
    dataset: Seq<char>,
)
    requires
        item.metadata == json::empty_object(),
    ensures
        ({
            let m = raw_memory(item, index, dataset);
            &&& json::json_get(m.metadata, "dataset"@) == Some(JsonView::Text(dataset))
            &&& json::json_get(m.metadata, "path"@) == Some(JsonView::Text(item.path))
            &&& json::json_get(m.metadata, "field"@) == Some(JsonView::Text(item.field))
            &&& m.text == item.text && m.path == item.path
        }),
{
    reveal_strlit("dataset");
    reveal_strlit("path");
    reveal_strlit("field");
    assert("dataset"@.len() == 7 && "path"@.len() == 4 && "field"@.len() == 5);
    let none = json::empty_object();
    let a = json::json_put(none, "dataset"@, JsonView::Text(dataset));
    let b = json::json_put(a, "path"@, JsonView::Text(item.path));
    let c = json::json_put(b, "field"@, JsonView::Text(item.field));
    json::put_then_get(none, "dataset"@, JsonView::Text(dataset), "dataset"@);
    json::put_then_get(a, "path"@, JsonView::Text(item.path), "dataset"@);
    json::put_then_get(a, "path"@, JsonView::Text(item.path), "path"@);
    json::put_then_get(b, "field"@, JsonView::Text(item.field), "dataset"@);
    json::put_then_get(b, "field"@, JsonView::Text(item.field), "path"@);
    json::put_then_get(b, "field"@, JsonView::Text(item.field), "field"@);
    assert(bench::merged_metadata(c, item.metadata) == c);
}

proof fn lemma_members_before(
    members: Seq<(Seq<char>, JsonView)>,
    x: (Seq<char>, JsonView),
    path: Seq<char>,
    fields: Seq<Seq<char>>,
    n: nat,
)
    requires
        n <= members.len(),
    ensures
        bench::texts_in_members(JsonView::Object(members.push(x)), path, fields, n)
            == bench::texts_in_members(JsonView::Object(members), path, fields, n),
    decreases n,
{
    if n > 0 {
        lemma_members_before(members, x, path, fields, (n - 1) as nat);
        assert(members.push(x)[n - 1] == members[n - 1]);
    }
}

/// The texts of an object are its own, and then those of its members, one after the
/// other, each with its key in its path.
pub proof fn texts_are_found_member_by_member(
    members: Seq<(Seq<char>, JsonView)>,
    x: (Seq<char>, JsonView),
    path: Seq<char>,
    fields: Seq<Seq<char>>,
)
    ensures
        ({
            let all = JsonView::Object(members.push(x));
            let inner = bench::texts_in_members(
                JsonView::Object(members),
                path,
                fields,
                members.len(),
            );
            bench::texts_in(all, path, fields) == bench::own_texts(all, path, fields) + (inner
                + bench::texts_in(x.1, path + "."@ + x.0, fields))
        }),
        bench::texts_in_members(JsonView::Object(Seq::empty()), path, fields, 0).len() == 0,
{
    lemma_members_before(members, x, path, fields, members.len());
    assert(members.push(x)[members.len() as int] == x);
    assert((members.push(x).len() - 1) as nat == members.len());
}

} // verus!
