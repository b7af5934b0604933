//! The searches of the benchmark: the queries of a dataset, the outputs, and
//! what a resumed run still has to search.

use vstd::prelude::*;
use vstd::string::*;

use crate::api;
use crate::api::{ScoredMemory, ScoredView, SearchMemoryRequest, SearchMode, SearchView};
use crate::bench;
use crate::bench::{
    collect_field_texts, graph_memory_space_for_query, optional_object_field, search_output_id,
    GraphOptions, TextItem, TextItemView,
};
use crate::bench_run;
use crate::bench_run::{place_text, read_prepared_id, read_prepared_text};
use crate::json;
use crate::json::{Json, JsonView};
use crate::text;
use crate::text::{clone_opt, text_eq};

verus! {

/// A result as it is written to the output. The score stands as its place in
/// the order of scores.
#[derive(Debug)]
pub struct SearchOutput {
    pub id: String,
    pub text: String,
    pub metadata: Json,
    pub score: i32,
}

/// A query with its results as they are written to the output.
#[derive(Debug)]
pub struct QueryOutput {
    pub query_path: String,
    pub query: String,
    pub query_id: Option<String>,
    pub filter: Option<Json>,
    pub metadata: Option<Json>,
    pub task: Option<Json>,
    pub completed: bool,
    pub results: Vec<SearchOutput>,
}

/// What a [`SearchOutput`] stands for.
pub struct ResultView {
    pub id: Seq<char>,
    pub text: Seq<char>,
    pub metadata: JsonView,
    pub score: int,
}

impl View for SearchOutput {
    type V = ResultView;

    open spec fn view(&self) -> ResultView {
        ResultView {
            id: self.id@,
            text: self.text@,
            metadata: self.metadata@,
            score: self.score as int,
        }
    }
}

pub open spec fn result_views(v: Seq<SearchOutput>) -> Seq<ResultView> {
    Seq::new(v.len(), |i: int| v[i]@)
}

/// What a [`QueryOutput`] stands for.
pub struct OutputView {
    pub query_path: Seq<char>,
    pub query: Seq<char>,
    pub query_id: Option<Seq<char>>,
    pub filter: Option<JsonView>,
    pub metadata: Option<JsonView>,
    pub task: Option<JsonView>,
    pub completed: bool,
    pub results: Seq<ResultView>,
}

impl View for QueryOutput {
    type V = OutputView;

    open spec fn view(&self) -> OutputView {
        OutputView {
            query_path: self.query_path@,
            query: self.query@,
            query_id: json::opt_string(self.query_id),
            filter: bench::opt_owned(self.filter),
            metadata: bench::opt_owned(self.metadata),
            task: bench::opt_owned(self.task),
            completed: self.completed,
            results: result_views(self.results@),
        }
    }
}

pub open spec fn output_views(v: Seq<QueryOutput>) -> Seq<OutputView> {
    Seq::new(v.len(), |i: int| v[i]@)
}

/// The results of a search as they are written to the output.
pub open spec fn written_results(found: Seq<ScoredView>) -> Seq<ResultView> {
    Seq::new(
        found.len(),
        |i: int|
            ResultView {
                id: bench::output_id(found[i].record.id, found[i].record.metadata),
                text: found[i].record.text,
                metadata: found[i].record.metadata,
                score: found[i].score,
            },
    )
}

pub fn search_outputs(found: &Vec<ScoredMemory>) -> (r: Vec<SearchOutput>)
    ensures
        result_views(r@) == written_results(api::scored_views(found@)),
{
    let ghost want = written_results(api::scored_views(found@));
    let mut r: Vec<SearchOutput> = Vec::new();
    let mut i: usize = 0;
    while i < found.len()
        invariant
            i <= found@.len(),
            want == written_results(api::scored_views(found@)),
            r@.len() == i,
            forall|k: int| 0 <= k < i ==> (#[trigger] r@[k])@ == want[k],
        decreases found@.len() - i,
    {
        let record = &found[i].record;
        r.push(
            SearchOutput {
                id: search_output_id(record.id.as_str(), &record.metadata),
                text: record.text.clone(),
                metadata: record.metadata.clone(),
                score: found[i].score,
            },
        );
        i += 1;
    }
    assert(result_views(r@) =~= want);
    r
}

fn clone_opt_json(o: &Option<Json>) -> (r: Option<Json>)
    ensures
        bench::opt_owned(r) == bench::opt_owned(*o),
{
    match o {
        Some(v) => Some(v.clone()),
        None => None,
    }
}

impl Clone for SearchOutput {
    fn clone(&self) -> (r: Self)
        ensures
            r@ == self@,
    {
        SearchOutput {
            id: self.id.clone(),
            text: self.text.clone(),
            metadata: self.metadata.clone(),
            score: self.score,
        }
    }
}

fn clone_results(v: &Vec<SearchOutput>) -> (r: Vec<SearchOutput>)
    ensures
        result_views(r@) == result_views(v@),
{
    let mut r: Vec<SearchOutput> = Vec::new();
    let mut i: usize = 0;
    while i < v.len()
        invariant
            i <= v@.len(),
            r@.len() == i,
            forall|k: int| 0 <= k < i ==> (#[trigger] r@[k])@ == v@[k]@,
        decreases v@.len() - i,
    {
        r.push(v[i].clone());
        i += 1;
    }
    assert(result_views(r@) =~= result_views(v@));
    r
}

impl Clone for QueryOutput {
    fn clone(&self) -> (r: Self)
        ensures
            r@ == self@,
    {
        QueryOutput {
            query_path: self.query_path.clone(),
            query: self.query.clone(),
            query_id: clone_opt(&self.query_id),
            filter: clone_opt_json(&self.filter),
            metadata: clone_opt_json(&self.metadata),
            task: clone_opt_json(&self.task),
            completed: self.completed,
            results: clone_results(&self.results),
        }
    }
}

/// The memory space that a query looks into, where searches ask the graph.
pub open spec fn searched_space(
    path: Seq<char>,
    filter: Option<JsonView>,
    is_prepared: bool,
    o: GraphOptions,
) -> Result<Option<Seq<char>>, Seq<char>> {
    if o.search {
        bench::query_space(path, filter, is_prepared, o)
    } else {
        Ok(None)
    }
}

fn find_searched_space(
    path: &str,
    filter: &Option<Json>,
    is_prepared: bool,
    options: &GraphOptions,
) -> (r: Result<Option<String>, String>)
    ensures
        bench::space_outcome(r) == searched_space(
            path@,
            bench::opt_owned(*filter),
            is_prepared,
            *options,
        ),
{
    if options.search {
        graph_memory_space_for_query(path, filter.as_ref(), is_prepared, options)
    } else {
        Ok(None)
    }
}

/// The search request of a query, given the space that it looks into.
pub open spec fn request_of(
    query: Seq<char>,
    top_k: usize,
    filter: Option<JsonView>,
    space: Option<Seq<char>>,
) -> SearchView {
    SearchView {
        query,
        top_k,
        filter,
        graph_memory_space_id: space,
        graph_target_subject: None,
        graph_target_evidence_speaker: None,
    }
}

/// The query given as an argument, before the queries of the dataset.
pub open spec fn ad_hoc_queries(
    query: Option<Seq<char>>,
    dataset: Option<JsonView>,
    fields: Seq<Seq<char>>,
) -> Seq<TextItemView> {
    let given = match query {
        Some(q) => seq![
            TextItemView {
                path: "$.query"@,
                field: "query"@,
                text: q,
                metadata: json::empty_object(),
            },
        ],
        None => Seq::empty(),
    };
    match dataset {
        Some(v) => given + bench::texts_in(v, "$"@, fields),
        None => given,
    }
}

/// The queries of a run over a dataset that is not prepared; there must be one
/// at least.
pub fn collect_queries(
    query: Option<&str>,
    dataset: Option<&Json>,
    query_fields: &Vec<String>,
) -> (r: Result<Vec<TextItem>, String>)
    ensures
        ({
            let all = ad_hoc_queries(
                json::opt_text(query),
                json::opt_json(dataset),
                text::strings(query_fields@),
            );
            match r {
                Ok(items) => all.len() > 0 && bench::item_views(items@) == all,
                Err(e) => all.len() == 0 && e@
                    == "no queries provided; pass --query or --dataset with query fields"@,
            }
        }),
{
    let mut items: Vec<TextItem> = Vec::new();
    assert(bench::item_views(items@) =~= Seq::empty());
    match query {
        Some(q) => {
            let item = TextItem {
                path: "$.query".to_owned(),
                field: "query".to_owned(),
                text: q.to_owned(),
                metadata: Json::new_object(),
            };
            items.push(item);
            assert(bench::item_views(items@) =~= seq![item@]);
        },
        None => {},
    }
    match dataset {
        Some(v) => {
            collect_field_texts(v, "$", query_fields, &mut items);
        },
        None => {},
    }
    assert(bench::item_views(items@).len() == items@.len());
    if items.is_empty() {
        return Err(
            "no queries provided; pass --query or --dataset with query fields".to_owned(),
        );
    }
    Ok(items)
}

/// The search requests of the queries of a run, or the error of the first
/// whose memory space cannot be told.
pub open spec fn requests_of(
    items: Seq<TextItemView>,
    top_k: usize,
    filter: Option<JsonView>,
    o: GraphOptions,
) -> Result<Seq<SearchView>, Seq<char>>
    decreases items.len(),
{
    if items.len() == 0 {
        Ok(Seq::empty())
    } else {
        match requests_of(items.drop_last(), top_k, filter, o) {
            Err(e) => Err(e),
            Ok(requests) => match searched_space(items.last().path, filter, false, o) {
                Err(e) => Err(e),
                Ok(space) => Ok(
                    requests.push(request_of(items.last().text, top_k, filter, space)),
                ),
            },
        }
    }
}

proof fn lemma_requests_error_stays(
    items: Seq<TextItemView>,
    top_k: usize,
    filter: Option<JsonView>,
    o: GraphOptions,
    n: int,
)
    requires
        0 <= n <= items.len(),
        requests_of(items.take(n), top_k, filter, o) is Err,
    ensures
        requests_of(items, top_k, filter, o) == requests_of(items.take(n), top_k, filter, o),
    decreases items.len() - n,
{
    if n == items.len() {
        assert(items.take(n) =~= items);
    } else {
        assert(items.drop_last().take(n) =~= items.take(n));
        lemma_requests_error_stays(items.drop_last(), top_k, filter, o, n);
    }
}

/// The search requests of the queries of a run.
pub fn plan_search(
    items: &Vec<TextItem>,
    top_k: usize,
    filter: &Option<Json>,
    options: &GraphOptions,
) -> (r: Result<Vec<SearchMemoryRequest>, String>)
    ensures
        match r {
            Ok(requests) => requests_of(
                bench::item_views(items@),
                top_k,
                bench::opt_owned(*filter),
                *options,
            ) == Ok::<_, Seq<char>>(api::search_views(requests@)),
            Err(e) => requests_of(
                bench::item_views(items@),
                top_k,
                bench::opt_owned(*filter),
                *options,
            ) == Err::<Seq<SearchView>, _>(e@),
        },
{
    let ghost all = bench::item_views(items@);
    let ghost wanted = bench::opt_owned(*filter);
    let mut requests: Vec<SearchMemoryRequest> = Vec::new();
    assert(api::search_views(requests@) =~= Seq::empty());
    assert(all.take(0) =~= Seq::empty());
    let mut i: usize = 0;
    while i < items.len()
        invariant
            i <= items@.len(),
            all == bench::item_views(items@),
            wanted == bench::opt_owned(*filter),
            requests_of(all.take(i as int), top_k, wanted, *options) == Ok::<_, Seq<char>>(
                api::search_views(requests@),
            ),
        decreases items@.len() - i,
    {
        let ghost before = api::search_views(requests@);
        assert(all.take(i + 1).drop_last() =~= all.take(i as int));
        assert(all.take(i + 1).last() == items@[i as int]@);
        match find_searched_space(items[i].path.as_str(), filter, false, options) {
            Ok(space) => {
                let request = SearchMemoryRequest {
                    query: items[i].text.clone(),
                    top_k,
                    filter: clone_opt_json(filter),
                    graph_memory_space_id: space,
                    graph_target_subject: None,
                    graph_target_evidence_speaker: None,
                };
                requests.push(request);
                assert(api::search_views(requests@) =~= before.push(request@));
            },
            Err(e) => {
                proof {
                    lemma_requests_error_stays(all, top_k, wanted, *options, i + 1);
                }
                return Err(e);
            },
        }
        i += 1;
    }
    assert(all.take(i as int) =~= all);
    Ok(requests)
}

/// The output of a query that has been searched.
pub open spec fn searched_output(
    item: TextItemView,
    filter: Option<JsonView>,
    found: Seq<ScoredView>,
) -> OutputView {
    OutputView {
        query_path: item.path,
        query: item.text,
        query_id: None,
        filter,
        metadata: None,
        task: None,
        completed: true,
        results: written_results(found),
    }
}

/// The output of a query that has been searched.
pub fn query_output(item: &TextItem, filter: &Option<Json>, found: &Vec<ScoredMemory>) -> (r:
    QueryOutput)
    ensures
        r@ == searched_output(item@, bench::opt_owned(*filter), api::scored_views(found@)),
{
    QueryOutput {
        query_path: item.path.clone(),
        query: item.text.clone(),
        query_id: None,
        filter: clone_opt_json(filter),
        metadata: None,
        task: None,
        completed: true,
        results: search_outputs(found),
    }
}

/// The request and the empty output of an item of a prepared list of queries,
/// or what is wrong with it. A filter of its own takes precedence over that of
/// the run.
pub open spec fn prepared_query(
    v: JsonView,
    index: nat,
    top_k: usize,
    run_filter: Option<JsonView>,
    o: GraphOptions,
) -> Result<(SearchView, OutputView), Seq<char>> {
    let place = bench_run::list_place("queries"@, index);
    let path = "$."@ + place + ".text"@;
    match bench_run::prepared_text(v, place) {
        Err(e) => Err(e),
        Ok(query) => match bench_run::prepared_id(v, place) {
            Err(e) => Err(e),
            Ok(query_id) => match bench::object_under(v, "filter"@, place) {
                Err(e) => Err(e),
                Ok(own_filter) => match bench::object_under(v, "metadata"@, place) {
                    Err(e) => Err(e),
                    Ok(metadata) => match bench::object_under(v, "task"@, place) {
                        Err(e) => Err(e),
                        Ok(task) => {
                            let filter = if own_filter is Some {
                                own_filter
                            } else {
                                run_filter
                            };
                            match searched_space(path, filter, true, o) {
                                Err(e) => Err(e),
                                Ok(space) => Ok(
                                    (
                                        request_of(query, top_k, filter, space),
                                        OutputView {
                                            query_path: path,
                                            query,
                                            query_id,
                                            filter,
                                            metadata,
                                            task,
                                            completed: false,
                                            results: Seq::empty(),
                                        },
                                    ),
                                ),
                            }
                        },
                    },
                },
            },
        },
    }
}

fn read_prepared_query(
    query: &Json,
    index: usize,
    top_k: usize,
    run_filter: &Option<Json>,
    options: &GraphOptions,
) -> (r: Result<(SearchMemoryRequest, QueryOutput), String>)
    ensures
        match r {
            Ok((request, output)) => prepared_query(
                query@,
                index as nat,
                top_k,
                bench::opt_owned(*run_filter),
                *options,
            ) == Ok::<_, Seq<char>>((request@, output@)),
            Err(e) => prepared_query(
                query@,
                index as nat,
                top_k,
                bench::opt_owned(*run_filter),
                *options,
            ) == Err::<(SearchView, OutputView), _>(e@),
        },
{
    let place = place_text("queries", index);
    let mut path = "$.".to_owned();
    path.append(place.as_str());
    path.append(".text");
    let content = match read_prepared_text(query, place.as_str()) {
        Ok(t) => t,
        Err(e) => {
            return Err(e);
        },
    };
    let query_id = match read_prepared_id(query, place.as_str()) {
        Ok(id) => id,
        Err(e) => {
            return Err(e);
        },
    };
    let own_filter = match optional_object_field(query, "filter", place.as_str()) {
        Ok(f) => f,
        Err(e) => {
            return Err(e);
        },
    };
    let metadata = match optional_object_field(query, "metadata", place.as_str()) {
        Ok(m) => m,
        Err(e) => {
            return Err(e);
        },
    };
    let task = match optional_object_field(query, "task", place.as_str()) {
        Ok(t) => t,
        Err(e) => {
            return Err(e);
        },
    };
    let filter = if own_filter.is_some() {
        own_filter
    } else {
        clone_opt_json(run_filter)
    };
    let space = match find_searched_space(path.as_str(), &filter, true, options) {
        Ok(space) => space,
        Err(e) => {
            return Err(e);
        },
    };
    let request = SearchMemoryRequest {
        query: content.clone(),
        top_k,
        filter: clone_opt_json(&filter),
        graph_memory_space_id: space,
        graph_target_subject: None,
        graph_target_evidence_speaker: None,
    };
    let results: Vec<SearchOutput> = Vec::new();
    assert(result_views(results@) =~= Seq::empty());
    let output = QueryOutput {
        query_path: path,
        query: content,
        query_id,
        filter,
        metadata,
        task,
        completed: false,
        results,
    };
    Ok((request, output))
}

/// The requests and the empty outputs of the queries of a prepared list.
pub open spec fn queries_plan(
    queries: Seq<JsonView>,
    top_k: usize,
    run_filter: Option<JsonView>,
    o: GraphOptions,
) -> Result<(Seq<SearchView>, Seq<OutputView>), Seq<char>>
    decreases queries.len(),
{
    if queries.len() == 0 {
        Ok((Seq::empty(), Seq::empty()))
    } else {
        match queries_plan(queries.drop_last(), top_k, run_filter, o) {
            Err(e) => Err(e),
            Ok((requests, outputs)) => match prepared_query(
                queries.last(),
                (queries.len() - 1) as nat,
                top_k,
                run_filter,
                o,
            ) {
                Err(e) => Err(e),
                Ok((request, output)) => Ok((requests.push(request), outputs.push(output))),
            },
        }
    }
}

proof fn lemma_queries_error_stays(
    queries: Seq<JsonView>,
    top_k: usize,
    run_filter: Option<JsonView>,
    o: GraphOptions,
    n: int,
)
    requires
        0 <= n <= queries.len(),
        queries_plan(queries.take(n), top_k, run_filter, o) is Err,
    ensures
        queries_plan(queries, top_k, run_filter, o) == queries_plan(
            queries.take(n),
            top_k,
            run_filter,
            o,
        ),
    decreases queries.len() - n,
{
    if n == queries.len() {
        assert(queries.take(n) =~= queries);
    } else {
        assert(queries.drop_last().take(n) =~= queries.take(n));
        lemma_queries_error_stays(queries.drop_last(), top_k, run_filter, o, n);
    }
}

/// The requests and the empty outputs of a prepared dataset, which must list
/// one query at least.
pub open spec fn prepared_search(
    value: JsonView,
    top_k: usize,
    run_filter: Option<JsonView>,
    o: GraphOptions,
) -> Result<(Seq<SearchView>, Seq<OutputView>), Seq<char>> {
    match json::json_get(value, "queries"@) {
        Some(JsonView::Array(queries)) => if queries.len() == 0 {
            Err("prepared schema v1 field `queries` must contain at least one query"@)
        } else {
            queries_plan(queries, top_k, run_filter, o)
        },
        _ => Err("prepared schema v1 field `queries` must be a JSON array"@),
    }
}

/// Plans the searches of a prepared dataset.
pub fn plan_search_prepared_queries(
    value: &Json,
    top_k: usize,
    run_filter: &Option<Json>,
    options: &GraphOptions,
) -> (r: Result<(Vec<SearchMemoryRequest>, Vec<QueryOutput>), String>)
    ensures
        match r {
            Ok((requests, outputs)) => prepared_search(
                value@,
                top_k,
                bench::opt_owned(*run_filter),
                *options,
            ) == Ok::<_, Seq<char>>((api::search_views(requests@), output_views(outputs@)))
                && requests@.len() == outputs@.len(),
            Err(e) => prepared_search(
                value@,
                top_k,
                bench::opt_owned(*run_filter),
                *options,
            ) == Err::<(Seq<SearchView>, Seq<OutputView>), _>(e@),
        },
{
    let queries = match value.get("queries") {
        Some(Json::Array(items)) => items,
        _ => {
            return Err("prepared schema v1 field `queries` must be a JSON array".to_owned());
        },
    };
    proof {
        json::lemma_array_view(*queries);
    }
    let ghost all = json::json_views(queries@);
    let ghost wanted = bench::opt_owned(*run_filter);
    if queries.is_empty() {
        return Err(
            "prepared schema v1 field `queries` must contain at least one query".to_owned(),
        );
    }
    let mut requests: Vec<SearchMemoryRequest> = Vec::new();
    let mut outputs: Vec<QueryOutput> = Vec::new();
    assert(api::search_views(requests@) =~= Seq::empty());
    assert(output_views(outputs@) =~= Seq::empty());
    assert(all.take(0) =~= Seq::empty());
    let mut i: usize = 0;
    while i < queries.len()
        invariant
            i <= queries@.len(),
            all == json::json_views(queries@),
            wanted == bench::opt_owned(*run_filter),
            json::json_get(value@, "queries"@) == Some(JsonView::Array(all)),
            all.len() > 0,
            requests@.len() == i,
            outputs@.len() == i,
            queries_plan(all.take(i as int), top_k, wanted, *options) == Ok::<_, Seq<char>>(
                (api::search_views(requests@), output_views(outputs@)),
            ),
        decreases queries@.len() - i,
    {
        let ghost before_requests = api::search_views(requests@);
        let ghost before_outputs = output_views(outputs@);
        assert(all.take(i + 1).drop_last() =~= all.take(i as int));
        assert(all.take(i + 1).last() == queries@[i as int]@);
        match read_prepared_query(&queries[i], i, top_k, run_filter, options) {
            Ok((request, output)) => {
                requests.push(request);
                outputs.push(output);
                assert(api::search_views(requests@) =~= before_requests.push(request@));
                assert(output_views(outputs@) =~= before_outputs.push(output@));
            },
            Err(e) => {
                proof {
                    lemma_queries_error_stays(all, top_k, wanted, *options, i + 1);
                }
                return Err(e);
            },
        }
        i += 1;
    }
    assert(all.take(i as int) =~= all);
    Ok((requests, outputs))
}

/// The last output with a query id.
pub open spec fn last_with_id(outputs: Seq<OutputView>, id: Seq<char>) -> Option<int>
    decreases outputs.len(),
{
    if outputs.len() == 0 {
        None
    } else if outputs.last().query_id == Some(id) {
        Some(outputs.len() - 1)
    } else {
        last_with_id(outputs.drop_last(), id)
    }
}

/// Whether an output can belong to a query by its path alone: their paths are
/// the same, and one of the two has no id.
pub open spec fn has_path_of(output: OutputView, query: OutputView) -> bool {
    output.query_path == query.query_path && (output.query_id is None || query.query_id is None)
}

/// The last output that can belong to a query by its path alone.
pub open spec fn last_by_path(outputs: Seq<OutputView>, query: OutputView) -> Option<int>
    decreases outputs.len(),
{
    if outputs.len() == 0 {
        None
    } else if has_path_of(outputs.last(), query) {
        Some(outputs.len() - 1)
    } else {
        last_by_path(outputs.drop_last(), query)
    }
}

/// The output of an earlier run that belongs to a query: the one with its id,
/// or else, unless both have ids, the one with its path.
pub open spec fn earlier_output(existing: Seq<OutputView>, query: OutputView) -> Option<int> {
    let by_id = match query.query_id {
        Some(id) => last_with_id(existing, id),
        None => None,
    };
    if by_id is Some {
        by_id
    } else {
        last_by_path(existing, query)
    }
}

/// Whether an earlier run has searched a query: its output says so, or has
/// results.
pub open spec fn is_searched(existing: Seq<OutputView>, query: OutputView) -> bool {
    match earlier_output(existing, query) {
        Some(i) => existing[i].completed || existing[i].results.len() > 0,
        None => false,
    }
}

/// The indexes below `n` of the queries that an earlier run has searched, in
/// order.
pub open spec fn searched_indexes(
    templates: Seq<OutputView>,
    existing: Seq<OutputView>,
    n: nat,
) -> Seq<usize>
    decreases n,
{
    if n == 0 {
        Seq::empty()
    } else {
        let before = searched_indexes(templates, existing, (n - 1) as nat);
        if is_searched(existing, templates[n - 1]) {
            before.push((n - 1) as usize)
        } else {
            before
        }
    }
}

fn find_earlier_output(existing: &Vec<QueryOutput>, query: &QueryOutput) -> (r: Option<usize>)
    ensures
        match r {
            Some(i) => earlier_output(output_views(existing@), query@) == Some(i as int) && i
                < existing@.len(),
            None => earlier_output(output_views(existing@), query@) is None,
        },
{
    let ghost all = output_views(existing@);
    match &query.query_id {
        Some(id) => {
            let mut i: usize = existing.len();
            assert(all.take(i as int) =~= all);
            while i > 0
                invariant
                    i <= existing@.len(),
                    all == output_views(existing@),
                    query.query_id == Some(*id),
                    last_with_id(all, id@) == last_with_id(all.take(i as int), id@),
                decreases i,
            {
                assert(all.take(i as int).drop_last() =~= all.take(i - 1));
                assert(all.take(i as int).last() == existing@[i - 1]@);
                match &existing[i - 1].query_id {
                    Some(other) => {
                        if text_eq(other.as_str(), id.as_str()) {
                            return Some(i - 1);
                        }
                    },
                    None => {},
                }
                i -= 1;
            }
        },
        None => {},
    }
    let mut j: usize = existing.len();
    assert(all.take(j as int) =~= all);
    while j > 0
        invariant
            j <= existing@.len(),
            all == output_views(existing@),
            (match query@.query_id {
                Some(id) => last_with_id(all, id),
                None => None,
            }) is None,
            last_by_path(all, query@) == last_by_path(all.take(j as int), query@),
        decreases j,
    {
        assert(all.take(j as int).drop_last() =~= all.take(j - 1));
        assert(all.take(j as int).last() == existing@[j - 1]@);
        if (existing[j - 1].query_id.is_none() || query.query_id.is_none()) && text_eq(
            existing[j - 1].query_path.as_str(),
            query.query_path.as_str(),
        ) {
            return Some(j - 1);
        }
        j -= 1;
    }
    None
}

/// The indexes of the queries that an earlier run has searched.
pub fn resume_completed_indexes(templates: &Vec<QueryOutput>, existing: &Vec<QueryOutput>) -> (r:
    Vec<usize>)
    ensures
        r@ == searched_indexes(
            output_views(templates@),
            output_views(existing@),
            templates@.len(),
        ),
{
    let ghost ts = output_views(templates@);
    let ghost es = output_views(existing@);
    let mut r: Vec<usize> = Vec::new();
    let mut i: usize = 0;
    while i < templates.len()
        invariant
            i <= templates@.len(),
            ts == output_views(templates@),
            es == output_views(existing@),
            r@ == searched_indexes(ts, es, i as nat),
        decreases templates@.len() - i,
    {
        assert(ts[i as int] == templates@[i as int]@);
        match find_earlier_output(existing, &templates[i]) {
            Some(k) => {
                assert(es[k as int] == existing@[k as int]@);
                if existing[k].completed || !existing[k].results.is_empty() {
                    r.push(i);
                }
            },
            None => {},
        }
        i += 1;
    }
    r
}

/// The indexes below `n` that are not listed, in order.
pub open spec fn indexes_without(n: nat, listed: Seq<usize>) -> Seq<usize>
    decreases n,
{
    if n == 0 {
        Seq::empty()
    } else {
        let before = indexes_without((n - 1) as nat, listed);
        if listed.contains((n - 1) as usize) {
            before
        } else {
            before.push((n - 1) as usize)
        }
    }
}

fn holds_index(v: &Vec<usize>, x: usize) -> (r: bool)
    ensures
        r == v@.contains(x),
{
    let mut i: usize = 0;
    while i < v.len()
        invariant
            i <= v@.len(),
            forall|k: int| 0 <= k < i ==> v@[k] != x,
        decreases v@.len() - i,
    {
        if v[i] == x {
            assert(v@[i as int] == x);
            return true;
        }
        i += 1;
    }
    false
}

/// The output that a resumed run starts with for a query: for one that is
/// searched already, the output of the earlier run that belongs to it.
pub open spec fn recovered_output(
    template: OutputView,
    existing: Seq<OutputView>,
    searched: bool,
) -> OutputView {
    match earlier_output(existing, template) {
        Some(k) => if searched {
            existing[k]
        } else {
            template
        },
        None => template,
    }
}

/// The outputs of a run that goes on where another stopped: for the queries that
/// are searched already, those of that other run.
pub open spec fn recovered(
    templates: Seq<OutputView>,
    existing: Seq<OutputView>,
    completed: Seq<usize>,
) -> Seq<OutputView> {
    Seq::new(
        templates.len(),
        |i: int| recovered_output(templates[i], existing, completed.contains(i as usize)),
    )
}

/// Takes over the outputs of the queries that are searched already.
pub fn recover_outputs(
    outputs: &mut Vec<QueryOutput>,
    existing: &Vec<QueryOutput>,
    completed: &Vec<usize>,
)
    ensures
        output_views(final(outputs)@) == recovered(
            output_views(old(outputs)@),
            output_views(existing@),
            completed@,
        ),
{
    let ghost templates = output_views(outputs@);
    let ghost rows = output_views(existing@);
    let n = outputs.len();
    let mut i: usize = 0;
    while i < n
        invariant
            i <= n == outputs@.len() == templates.len(),
            rows == output_views(existing@),
            forall|k: int| 0 <= k < i ==> (#[trigger] outputs@[k])@ == recovered_output(
                templates[k],
                rows,
                completed@.contains(k as usize),
            ),
            forall|k: int| i <= k < n ==> (#[trigger] outputs@[k])@ == templates[k],
        decreases n - i,
    {
        if holds_index(completed, i) {
            match find_earlier_output(existing, &outputs[i]) {
                Some(k) => {
                    assert(rows[k as int] == existing@[k as int]@);
                    outputs.set(i, existing[k].clone());
                },
                None => {},
            }
        }
        i += 1;
    }
    assert(output_views(outputs@) =~= recovered(templates, rows, completed@));
}

/// The indexes of the queries that are still to be searched.
pub fn pending_indexes(total: usize, completed: &Vec<usize>) -> (r: Vec<usize>)
    ensures
        r@ == indexes_without(total as nat, completed@),
{
    let mut r: Vec<usize> = Vec::new();
    let mut i: usize = 0;
    while i < total
        invariant
            i <= total,
            r@ == indexes_without(i as nat, completed@),
        decreases total - i,
    {
        let done = holds_index(completed, i);
        if !done {
            r.push(i);
        }
        i += 1;
    }
    r
}

proof fn lemma_searched_indexes(
    templates: Seq<OutputView>,
    existing: Seq<OutputView>,
    n: nat,
    i: usize,
)
    requires
        n <= templates.len() <= usize::MAX,
    ensures
        searched_indexes(templates, existing, n).contains(i) <==> i < n && is_searched(
            existing,
            templates[i as int],
        ),
    decreases n,
{
    if n > 0 {
        lemma_searched_indexes(templates, existing, (n - 1) as nat, i);
        let before = searched_indexes(templates, existing, (n - 1) as nat);
        let all = searched_indexes(templates, existing, n);
        if is_searched(existing, templates[n - 1]) {
            assert(all[before.len() as int] == (n - 1) as usize);
            if before.contains(i) {
                let k = choose|k: int| 0 <= k < before.len() && before[k] == i;
                assert(all[k] == i);
            }
            if all.contains(i) {
                let k = choose|k: int| 0 <= k < all.len() && all[k] == i;
                if k < before.len() {
                    assert(before[k] == i);
                }
            }
        }
    }
}

proof fn lemma_indexes_without(n: nat, listed: Seq<usize>, i: usize)
    requires
        n <= usize::MAX,
    ensures
        indexes_without(n, listed).contains(i) <==> i < n && !listed.contains(i),
    decreases n,
{
    if n > 0 {
        lemma_indexes_without((n - 1) as nat, listed, i);
        let before = indexes_without((n - 1) as nat, listed);
        let all = indexes_without(n, listed);
        if !listed.contains((n - 1) as usize) {
            assert(all[before.len() as int] == (n - 1) as usize);
            if before.contains(i) {
                let k = choose|k: int| 0 <= k < before.len() && before[k] == i;
                assert(all[k] == i);
            }
            if all.contains(i) {
                let k = choose|k: int| 0 <= k < all.len() && all[k] == i;
                if k < before.len() {
                    assert(before[k] == i);
                }
            }
        }
    }
}

proof fn lemma_last_with_id(outputs: Seq<OutputView>, id: Seq<char>)
    ensures
        match last_with_id(outputs, id) {
            Some(k) => 0 <= k < outputs.len() && outputs[k].query_id == Some(id),
            None => forall|k: int|
                0 <= k < outputs.len() ==> (#[trigger] outputs[k]).query_id != Some(id),
        },
    decreases outputs.len(),
{
    if outputs.len() > 0 {
        lemma_last_with_id(outputs.drop_last(), id);
        assert forall|k: int|
            0 <= k < outputs.len() && last_with_id(outputs, id) is None implies (
        #[trigger] outputs[k]).query_id != Some(id) by {
            if k < outputs.len() - 1 {
                assert(outputs.drop_last()[k] == outputs[k]);
            }
        }
    }
}

proof fn lemma_last_by_path(outputs: Seq<OutputView>, query: OutputView)
    ensures
        match last_by_path(outputs, query) {
            Some(k) => 0 <= k < outputs.len() && has_path_of(outputs[k], query),
            None => forall|k: int|
                0 <= k < outputs.len() ==> !has_path_of(#[trigger] outputs[k], query),
        },
    decreases outputs.len(),
{
    if outputs.len() > 0 {
        lemma_last_by_path(outputs.drop_last(), query);
        assert forall|k: int|
            0 <= k < outputs.len() && last_by_path(outputs, query) is None implies !has_path_of(
            #[trigger] outputs[k],
            query,
        ) by {
            if k < outputs.len() - 1 {
                assert(outputs.drop_last()[k] == outputs[k]);
            }
        }
    }
}

/// Whether an output of an earlier run fits a query: by its id where both have
/// one, else by its path.
pub open spec fn fits(output: OutputView, query: OutputView) -> bool {
    if output.query_id is Some && query.query_id is Some {
        output.query_id == query.query_id
    } else {
        output.query_path == query.query_path
    }
}

/// The output that is taken for a query fits it, and one is found whenever one
/// fits.
pub proof fn matched_outputs_fit_their_queries(existing: Seq<OutputView>, query: OutputView)
    ensures
        match earlier_output(existing, query) {
            Some(k) => 0 <= k < existing.len() && fits(existing[k], query),
            None => forall|k: int| 0 <= k < existing.len() ==> !fits(#[trigger] existing[k], query),
        },
{
    if let Some(id) = query.query_id {
        lemma_last_with_id(existing, id);
    }
    lemma_last_by_path(existing, query);
}

/// A resumed run searches exactly the queries that the earlier run has not
/// searched. For every other query it starts with an output of the earlier run
/// that fits the query.
pub proof fn resuming_searches_exactly_the_rest(
    templates: Seq<OutputView>,
    existing: Seq<OutputView>,
    i: usize,
)
    requires
        templates.len() <= usize::MAX,
        i < templates.len(),
    ensures
        ({
            let searched = searched_indexes(templates, existing, templates.len());
            let outputs = recovered(templates, existing, searched);
            &&& indexes_without(templates.len(), searched).contains(i) <==> !is_searched(
                existing,
                templates[i as int],
            )
            &&& is_searched(existing, templates[i as int]) ==> existing.contains(outputs[i as int])
                && fits(outputs[i as int], templates[i as int])
            &&& !is_searched(existing, templates[i as int]) ==> outputs[i as int]
                == templates[i as int]
        }),
{
    let searched = searched_indexes(templates, existing, templates.len());
    lemma_searched_indexes(templates, existing, templates.len(), i);
    lemma_indexes_without(templates.len(), searched, i);
    matched_outputs_fit_their_queries(existing, templates[i as int]);
}

/// Notes the results of a query.
pub fn record_results(output: &mut QueryOutput, found: &Vec<ScoredMemory>)
    ensures
        final(output)@ == (OutputView {
            completed: true,
            results: written_results(api::scored_views(found@)),
            ..old(output)@
        }),
{
    output.results = search_outputs(found);
    output.completed = true;
}

/// Which store a run uses.
#[derive(Clone, Copy, Debug, PartialEq, Eq, Structural)]
pub enum StoreBackendKind {
    Jsonl,
    Sqlite,
}

/// Which embedder a run uses.
#[derive(Clone, Copy, Debug, PartialEq, Eq, Structural)]
pub enum EmbeddingKind {
    Openrouter,
    Hash,
}

/// What a run needs before it can start: its settings, and which of the keys
/// it may need are set in the environment.
#[derive(Clone, Debug)]
pub struct RuntimeOptions {
    pub store_backend: StoreBackendKind,
    pub embedding: EmbeddingKind,
    pub search_mode: SearchMode,
    pub graph: bool,
    pub graph_build: bool,
    pub rerank: bool,
    pub api_key_env: String,
    pub api_key_is_set: bool,
    pub rerank_api_key_env: String,
    pub rerank_api_key_is_set: bool,
    pub graph_llm_api_key_env: String,
    pub graph_llm_api_key_is_set: bool,
}

/// What keeps a run from starting. A key is missed only where it is needed.
pub open spec fn runtime_problem(o: RuntimeOptions) -> Option<Seq<char>> {
    if o.search_mode == SearchMode::Graph && !o.graph {
        Some("--search-mode graph requires --graph"@)
    } else if o.embedding == EmbeddingKind::Openrouter && !o.api_key_is_set {
        Some("missing API key env "@ + o.api_key_env@)
    } else if o.rerank && !o.rerank_api_key_is_set {
        Some("missing rerank API key env "@ + o.rerank_api_key_env@)
    } else if o.graph_build && o.store_backend != StoreBackendKind::Sqlite {
        Some("--graph-build requires --store-backend sqlite"@)
    } else if o.graph_build && !o.graph_llm_api_key_is_set {
        Some("missing graph LLM API key env "@ + o.graph_llm_api_key_env@)
    } else {
        None
    }
}

fn missing(what: &str, name: &str) -> (r: String)
    ensures
        r@ == what@ + name@,
{
    let mut r = what.to_owned();
    r.append(name);
    r
}

/// Checks that a run can start.
pub fn check_runtime(options: &RuntimeOptions) -> (r: Result<(), String>)
    ensures
        match r {
            Ok(_) => runtime_problem(*options) is None,
            Err(e) => runtime_problem(*options) == Some(e@),
        },
{
    if options.search_mode == SearchMode::Graph && !options.graph {
        Err("--search-mode graph requires --graph".to_owned())
    } else if options.embedding == EmbeddingKind::Openrouter && !options.api_key_is_set {
        Err(missing("missing API key env ", options.api_key_env.as_str()))
    } else if options.rerank && !options.rerank_api_key_is_set {
        Err(missing("missing rerank API key env ", options.rerank_api_key_env.as_str()))
    } else if options.graph_build && options.store_backend != StoreBackendKind::Sqlite {
        Err("--graph-build requires --store-backend sqlite".to_owned())
    } else if options.graph_build && !options.graph_llm_api_key_is_set {
        Err(missing("missing graph LLM API key env ", options.graph_llm_api_key_env.as_str()))
    } else {
        Ok(())
    }
}

/// After how many items progress is reported again.
pub open spec fn log_interval(total: nat) -> nat {
    if total <= 100 {
        10
    } else if total <= 1000 {
        50
    } else {
        100
    }
}

pub fn progress_log_interval(total: usize) -> (r: usize)
    ensures
        r == log_interval(total as nat),
{
    if total <= 100 {
        10
    } else if total <= 1000 {
        50
    } else {
        100
    }
}

/// How far a run has come, and when it reports next.
#[derive(Clone, Copy, Debug, PartialEq, Eq, Structural)]
pub struct Progress {
    pub total: usize,
    pub done: usize,
    pub next_log_at: usize,
    pub last_log_done: usize,
}

impl Progress {
    /// No more is done than there is.
    pub open spec fn wf(self) -> bool {
        self.done <= self.total && self.total + 100 <= usize::MAX
    }

    pub fn new(total: usize) -> (r: Progress)
        requires
            total + 100 <= usize::MAX,
        ensures
            r.wf(),
            r == (Progress {
                total,
                done: 0,
                next_log_at: log_interval(total as nat) as usize,
                last_log_done: 0,
            }),
    {
        Progress { total, done: 0, next_log_at: progress_log_interval(total), last_log_done: 0 }
    }

    /// The progress once `count` more items are done.
    pub open spec fn after(self, count: nat) -> nat {
        api::lesser_of(self.done as nat + count, self.total as nat)
    }

    /// Counts finished items and says whether to report: at the end, at the
    /// next mark, or when the last report is too long ago.
    pub fn inc(&mut self, count: usize, overdue: bool) -> (r: bool)
        requires
            old(self).wf(),
        ensures
            final(self).wf(),
            final(self).total == old(self).total,
            final(self).done == old(self).after(count as nat),
            r == (final(self).done >= final(self).total || final(self).done
                >= old(self).next_log_at || overdue),
            final(self).last_log_done == (if r {
                final(self).done
            } else {
                old(self).last_log_done
            }),
            final(self).next_log_at == (if r {
                final(self).done + log_interval(final(self).total as nat)
            } else {
                old(self).next_log_at as int
            }),
    {
        let left: usize = self.total - self.done;
        self.done = if count >= left {
            self.total
        } else {
            self.done + count
        };
        let report = self.done >= self.total || self.done >= self.next_log_at || overdue;
        if report {
            self.last_log_done = self.done;
            self.next_log_at = self.done + progress_log_interval(self.total);
        }
        report
    }

    /// Ends the run and says whether the end is still to be reported.
    pub fn finish(&mut self) -> (r: bool)
        requires
            old(self).wf(),
        ensures
            *final(self) == (Progress { done: old(self).total, ..*old(self) }),
            r == (old(self).total > 0 && old(self).last_log_done != old(self).total),
    {
        self.done = self.total;
        self.total > 0 && self.last_log_done != self.total
    }
}

} // verus!
