//! Adding and deleting memories: what is checked before a batch is embedded,
//! the records that come of it, and the embedding profiles that a scope keeps.

use vstd::prelude::*;
use vstd::string::*;

use crate::api;
use crate::api::{
    AddMemoryRequest, AddMemoryResponse, SearchMemoryRequest, SearchMode, SearchView,
};
use crate::error::{MemoryError, MemoryErrorView};
use crate::ids::random_uuid;
use crate::json;
use crate::json::{Json, JsonView};
use crate::record;
use crate::record::{
    clone_bits, extract_scope_id, extract_scope_id_from_filter, metadata_matches,
    metadata_matches_any, MemoryRecord, RecordView,
};
use crate::search::{SearchSetup, StepView};
use crate::text;
use crate::text::{push_decimal, text_eq, trim};

verus! {

pub const DEFAULT_EMBEDDING_BATCH_SIZE: usize = 64;

/// The id that a request brings along.
pub open spec fn request_id(r: AddMemoryRequest) -> Option<Seq<char>> {
    json::opt_string(r.id)
}

/// Whether one of the requests brings an id along.
pub open spec fn id_is_taken(requests: Seq<AddMemoryRequest>, id: Seq<char>) -> bool {
    exists|i: int| 0 <= i < requests.len() && request_id(#[trigger] requests[i]) == Some(id)
}

/// What is wrong with a batch: the first request with a blank text, or with an
/// id that an earlier request brings along.
pub open spec fn batch_problem(requests: Seq<AddMemoryRequest>) -> Option<MemoryErrorView>
    decreases requests.len(),
{
    if requests.len() == 0 {
        None
    } else {
        let earlier = requests.drop_last();
        let r = requests.last();
        if batch_problem(earlier) is Some {
            batch_problem(earlier)
        } else if text::is_blank(r.text@) {
            Some(MemoryErrorView::InvalidInput("memory text must not be empty"@))
        } else {
            match request_id(r) {
                Some(id) if id_is_taken(earlier, id) => Some(
                    MemoryErrorView::InvalidInput("duplicate memory id in batch: "@ + id),
                ),
                _ => None,
            }
        }
    }
}

/// Checks a batch before it is embedded.
pub fn validate_add_requests(requests: &Vec<AddMemoryRequest>) -> (r: Result<(), MemoryError>)
    ensures
        match r {
            Ok(_) => batch_problem(requests@) is None,
            Err(e) => batch_problem(requests@) == Some(e@),
        },
{
    let mut i: usize = 0;
    assert(requests@.take(0) =~= Seq::empty());
    while i < requests.len()
        invariant
            i <= requests@.len(),
            batch_problem(requests@.take(i as int)) is None,
        decreases requests@.len() - i,
    {
        let ghost seen = requests@.take(i + 1);
        assert(seen.drop_last() =~= requests@.take(i as int));
        assert(seen.last() == requests@[i as int]);
        if trim(requests[i].text.as_str()).is_empty() {
            proof {
                lemma_problem_stays(requests@, i + 1);
            }
            return Err(MemoryError::invalid_input("memory text must not be empty"));
        }
        match &requests[i].id {
            Some(id) => {
                let mut j: usize = 0;
                while j < i
                    invariant
                        j <= i < requests@.len(),
                        requests@[i as int].id == Some(*id),
                        seen == requests@.take(i + 1),
                        seen.drop_last() == requests@.take(i as int),
                        !text::is_blank(requests@[i as int].text@),
                        batch_problem(requests@.take(i as int)) is None,
                        forall|k: int|
                            0 <= k < j ==> request_id(#[trigger] requests@[k]) != Some(id@),
                    decreases i - j,
                {
                    match &requests[j].id {
                        Some(other) => {
                            if text_eq(other.as_str(), id.as_str()) {
                                let mut message = "duplicate memory id in batch: ".to_owned();
                                message.append(id.as_str());
                                proof {
                                    assert(requests@.take(i as int)[j as int]
                                        == requests@[j as int]);
                                    assert(id_is_taken(requests@.take(i as int), id@));
                                    lemma_problem_stays(requests@, i + 1);
                                }
                                return Err(MemoryError::InvalidInput { message });
                            }
                        },
                        None => {},
                    }
                    j += 1;
                }
                assert(!id_is_taken(requests@.take(i as int), id@));
            },
            None => {},
        }
        i += 1;
    }
    assert(requests@.take(i as int) =~= requests@);
    Ok(())
}

/// What is wrong with the first requests is wrong with the batch.
proof fn lemma_problem_stays(requests: Seq<AddMemoryRequest>, n: int)
    requires
        0 <= n <= requests.len(),
        batch_problem(requests.take(n)) is Some,
    ensures
        batch_problem(requests) == batch_problem(requests.take(n)),
    decreases requests.len() - n,
{
    if n == requests.len() {
        assert(requests.take(n) =~= requests);
    } else {
        assert(requests.drop_last().take(n) =~= requests.take(n));
        lemma_problem_stays(requests.drop_last(), n);
    }
}

/// A batch that is not refused has no blank text, and no id twice.
pub proof fn accepted_batches_are_sound(requests: Seq<AddMemoryRequest>, i: int, j: int)
    requires
        batch_problem(requests) is None,
        0 <= i < j < requests.len(),
    ensures
        !text::is_blank(requests[i].text@),
        !text::is_blank(requests[j].text@),
        request_id(requests[j]) is Some ==> request_id(requests[i]) != request_id(requests[j]),
    decreases requests.len(),
{
    let earlier = requests.drop_last();
    if j < requests.len() - 1 {
        assert(earlier[i] == requests[i] && earlier[j] == requests[j]);
        accepted_batches_are_sound(earlier, i, j);
    } else {
        assert(earlier[i] == requests[i]);
        lemma_no_blank(earlier, i);
    }
}

proof fn lemma_no_blank(requests: Seq<AddMemoryRequest>, i: int)
    requires
        batch_problem(requests) is None,
        0 <= i < requests.len(),
    ensures
        !text::is_blank(requests[i].text@),
    decreases requests.len(),
{
    if i < requests.len() - 1 {
        assert(requests.drop_last()[i] == requests[i]);
        lemma_no_blank(requests.drop_last(), i);
    }
}

/// The bounds of the batches that the items from `from` up to `total` fall into:
/// each but the last has `size` items.
pub open spec fn batches(from: int, total: int, size: int) -> Seq<(int, int)>
    decreases total - from,
{
    if from >= total || size <= 0 {
        Seq::empty()
    } else {
        let to = if total - from > size {
            from + size
        } else {
            total
        };
        seq![(from, to)] + batches(to, total, size)
    }
}

pub open spec fn bounds_views(v: Seq<(usize, usize)>) -> Seq<(int, int)> {
    Seq::new(v.len(), |i: int| (v[i].0 as int, v[i].1 as int))
}

/// The bounds of the batches that `total` items fall into. A batch size of 0
/// counts as 1.
pub fn batch_bounds(total: usize, batch_size: usize) -> (r: Vec<(usize, usize)>)
    ensures
        bounds_views(r@) == batches(
            0,
            total as int,
            applied_size(batch_size as nat),
        ),
{
    let size: usize = if batch_size == 0 {
        1
    } else {
        batch_size
    };
    let mut r: Vec<(usize, usize)> = Vec::new();
    let mut from: usize = 0;
    assert(bounds_views(r@) + batches(0, total as int, size as int) =~= batches(
        0,
        total as int,
        size as int,
    ));
    while from < total
        invariant
            size > 0,
            from <= total,
            bounds_views(r@) + batches(from as int, total as int, size as int) == batches(
                0,
                total as int,
                size as int,
            ),
        decreases total - from,
    {
        let to: usize = if total - from > size {
            from + size
        } else {
            total
        };
        let ghost before = bounds_views(r@);
        r.push((from, to));
        assert(bounds_views(r@) =~= before.push((from as int, to as int)));
        assert(before.push((from as int, to as int)) + batches(to as int, total as int, size as int)
            =~= before + batches(from as int, total as int, size as int));
        from = to;
    }
    assert(bounds_views(r@) + Seq::empty() =~= bounds_views(r@));
    r
}

/// The batches follow one another without a gap from the first item to the
/// last, and none has more than `size` items.
pub proof fn batches_cover_all(from: int, total: int, size: int, i: int)
    requires
        from <= total,
        0 < size,
        0 <= i < batches(from, total, size).len(),
    ensures
        batches(from, total, size)[0].0 == from,
        batches(from, total, size).last().1 == total,
        batches(from, total, size)[i].0 < batches(from, total, size)[i].1,
        batches(from, total, size)[i].1 - batches(from, total, size)[i].0 <= size,
        i > 0 ==> batches(from, total, size)[i].0 == batches(from, total, size)[i - 1].1,
    decreases total - from,
{
    let to = if total - from > size {
        from + size
    } else {
        total
    };
    let rest = batches(to, total, size);
    let all = batches(from, total, size);
    assert(all =~= seq![(from, to)] + rest);
    if rest.len() > 0 {
        batches_cover_all(to, total, size, 0);
        assert(all.last() == rest.last());
        if i > 0 {
            batches_cover_all(to, total, size, i - 1);
            assert(all[i] == rest[i - 1]);
            if i > 1 {
                assert(all[i - 1] == rest[i - 2]);
            }
        }
    }
}

/// A batch size as it is applied: 0 counts as 1.
pub open spec fn applied_size(batch_size: nat) -> int {
    if batch_size == 0 {
        1
    } else {
        batch_size as int
    }
}

/// What an embedder gives for texts that are handed to it batch by batch, one
/// outcome after the other.
pub open spec fn embedded_in_batches<V>(
    texts: Seq<Seq<char>>,
    bounds: Seq<(int, int)>,
    embed: spec_fn(Seq<Seq<char>>) -> Seq<V>,
) -> Seq<V>
    decreases bounds.len(),
{
    if bounds.len() == 0 {
        Seq::empty()
    } else {
        embed(texts.subrange(bounds[0].0, bounds[0].1)) + embedded_in_batches(
            texts,
            bounds.drop_first(),
            embed,
        )
    }
}

/// How many items some batches hold together.
pub open spec fn batched_items(bounds: Seq<(int, int)>) -> int
    decreases bounds.len(),
{
    if bounds.len() == 0 {
        0
    } else {
        (bounds[0].1 - bounds[0].0) + batched_items(bounds.drop_first())
    }
}

proof fn lemma_batches_embed_all<V>(
    texts: Seq<Seq<char>>,
    from: int,
    size: int,
    embed: spec_fn(Seq<Seq<char>>) -> Seq<V>,
    one: spec_fn(Seq<char>) -> V,
)
    requires
        0 <= from <= texts.len(),
        size > 0,
        forall|t: Seq<Seq<char>>| #[trigger] embed(t) == t.map_values(one),
    ensures
        embedded_in_batches(texts, batches(from, texts.len() as int, size), embed) == texts.skip(
            from,
        ).map_values(one),
        batched_items(batches(from, texts.len() as int, size)) == texts.len() - from,
    decreases texts.len() - from,
{
    let total = texts.len() as int;
    let all = batches(from, total, size);
    if from >= total {
        assert(texts.skip(from).map_values(one) =~= Seq::<V>::empty());
    } else {
        let to = if total - from > size {
            from + size
        } else {
            total
        };
        lemma_batches_embed_all(texts, to, size, embed, one);
        assert(all.drop_first() =~= batches(to, total, size));
        assert(embed(texts.subrange(from, to)) == texts.subrange(from, to).map_values(one));
        assert(texts.skip(from).map_values(one) =~= texts.subrange(from, to).map_values(one)
            + texts.skip(to).map_values(one));
    }
}

/// What is embedded of some searches: their queries without the space around
/// them.
pub open spec fn query_texts(requests: Seq<SearchView>) -> Seq<Seq<char>> {
    requests.map_values(|r: SearchView| text::trimmed(r.query))
}

/// What is embedded of some searches.
pub fn search_texts(requests: &Vec<SearchMemoryRequest>) -> (r: Vec<String>)
    ensures
        text::strings(r@) == query_texts(api::search_views(requests@)),
{
    let mut r: Vec<String> = Vec::new();
    let mut i: usize = 0;
    while i < requests.len()
        invariant
            i <= requests@.len(),
            r@.len() == i,
            forall|k: int| 0 <= k < i ==> (#[trigger] r@[k])@ == text::trimmed(requests@[k].query@),
        decreases requests@.len() - i,
    {
        r.push(trim(requests[i].query.as_str()).to_owned());
        i += 1;
    }
    assert(text::strings(r@) =~= query_texts(api::search_views(requests@)));
    r
}

/// The batch size changes no result of many searches. With an embedder that
/// embeds each text by itself, every query gets the embedding that it gets
/// alone, so that whatever a search makes of a request and the embedding of its
/// query is the same; and the batches hold each query once.
pub proof fn batch_size_changes_no_search<V, R>(
    requests: Seq<SearchView>,
    batch_size: nat,
    embed: spec_fn(Seq<Seq<char>>) -> Seq<V>,
    one: spec_fn(Seq<char>) -> V,
    search: spec_fn(SearchView, V) -> R,
)
    requires
        forall|t: Seq<Seq<char>>| #[trigger] embed(t) == t.map_values(one),
    ensures
        ({
            let bounds = batches(0, requests.len() as int, applied_size(batch_size));
            let vectors = embedded_in_batches(query_texts(requests), bounds, embed);
            &&& vectors.len() == requests.len()
            &&& batched_items(bounds) == requests.len()
            &&& forall|i: int|
                0 <= i < requests.len() ==> search(requests[i], #[trigger] vectors[i]) == search(
                    requests[i],
                    one(text::trimmed(requests[i].query)),
                )
        }),
{
    let texts = query_texts(requests);
    lemma_batches_embed_all(texts, 0, applied_size(batch_size), embed, one);
    assert(texts.skip(0) =~= texts);
}

/// A search by itself embeds the text that many searches embed for it.
pub proof fn single_searches_embed_the_same(setup: SearchSetup, requests: Seq<SearchView>, i: int)
    requires
        0 <= i < requests.len(),
        setup.request@ == requests[i],
        setup.config.mode == SearchMode::Dense,
        setup.request.top_k > 0,
        !text::is_blank(requests[i].query),
    ensures
        setup.first_step() == StepView::Embed(query_texts(requests)[i]),
{
}

/// The embedding profile that is noted with a record.
pub open spec fn profile_json(
    profile_id: Seq<char>,
    model: Seq<char>,
    dimensions: u64,
) -> JsonView {
    json::json_put(
        json::json_put(
            json::json_put(
                json::empty_object(),
                "profile_id"@,
                JsonView::Text(profile_id),
            ),
            "model"@,
            JsonView::Text(model),
        ),
        "dimensions"@,
        JsonView::Unsigned(dimensions),
    )
}

pub fn embedding_profile_metadata(profile_id: &str, model: &str, dimensions: usize) -> (r: Json)
    ensures
        r@ == profile_json(profile_id@, model@, dimensions as u64),
{
    let mut r = Json::new_object();
    r.put("profile_id", Json::Text(profile_id.to_owned()));
    r.put("model", Json::Text(model.to_owned()));
    r.put("dimensions", Json::Unsigned(dimensions as u64));
    r
}

/// Metadata with the embedding profile; metadata that is no object stays as it
/// is.
pub open spec fn with_profile(metadata: JsonView, profile: JsonView) -> JsonView {
    json::json_put(metadata, "memory_core_embedding_profile"@, profile)
}

pub fn metadata_with_embedding_profile(metadata: &Json, profile: &Json) -> (r: Json)
    ensures
        r@ == with_profile(metadata@, profile@),
{
    let mut r = metadata.clone();
    let noted = profile.clone();
    r.put("memory_core_embedding_profile", noted);
    r
}

/// The id of the embedding profile that metadata notes.
pub open spec fn profile_id_of(metadata: JsonView) -> Option<Seq<char>> {
    match json::json_get(metadata, "memory_core_embedding_profile"@) {
        Some(profile) => json::json_get_text(profile, "profile_id"@),
        None => None,
    }
}

pub fn record_embedding_profile_id(record: &MemoryRecord) -> (r: Option<String>)
    ensures
        json::opt_string(r) == profile_id_of(record@.metadata),
{
    match record.metadata.get("memory_core_embedding_profile") {
        Some(profile) => match profile.get_str("profile_id") {
            Some(id) => Some(id.to_owned()),
            None => None,
        },
        None => None,
    }
}

/// A profile that is noted is found again.
pub proof fn noted_profile_is_found(metadata: JsonView, id: Seq<char>, model: Seq<char>, dims: u64)
    requires
        metadata is Object,
    ensures
        profile_id_of(with_profile(metadata, profile_json(id, model, dims))) == Some(id),
{
    reveal_strlit("profile_id");
    reveal_strlit("model");
    reveal_strlit("dimensions");
    assert("profile_id"@[0] != "model"@[0]);
    assert("profile_id"@[0] != "dimensions"@[0]);
    let p0 = json::empty_object();
    let p1 = json::json_put(p0, "profile_id"@, JsonView::Text(id));
    let p2 = json::json_put(p1, "model"@, JsonView::Text(model));
    json::put_then_get(p0, "profile_id"@, JsonView::Text(id), "profile_id"@);
    json::put_then_get(p1, "model"@, JsonView::Text(model), "profile_id"@);
    json::put_then_get(p2, "dimensions"@, JsonView::Unsigned(dims), "profile_id"@);
    json::put_then_get(
        metadata,
        "memory_core_embedding_profile"@,
        profile_json(id, model, dims),
        "memory_core_embedding_profile"@,
    );
}

/// The ids of a batch: those that the requests bring along, and a random one
/// for each request without.
pub fn memory_ids(requests: &Vec<AddMemoryRequest>) -> (r: Vec<String>)
    ensures
        r@.len() == requests@.len(),
        forall|i: int|
            0 <= i < r@.len() ==> (match request_id(requests@[i]) {
                Some(id) => (#[trigger] r@[i])@ == id,
                None => r@[i]@.len() == 36,
            }),
{
    let mut r: Vec<String> = Vec::new();
    let mut i: usize = 0;
    while i < requests.len()
        invariant
            i <= requests@.len(),
            r@.len() == i,
            forall|k: int|
                0 <= k < i ==> (match request_id(requests@[k]) {
                    Some(id) => (#[trigger] r@[k])@ == id,
                    None => r@[k]@.len() == 36,
                }),
        decreases requests@.len() - i,
    {
        let id = match &requests[i].id {
            Some(id) => id.clone(),
            None => random_uuid(),
        };
        r.push(id);
        i += 1;
    }
    r
}

/// The record of a request, under the id that it goes by.
pub open spec fn record_of(
    request: AddMemoryRequest,
    id: Seq<char>,
    embedding: Seq<u32>,
    profile: JsonView,
    now: u64,
) -> RecordView {
    RecordView {
        id,
        text: text::trimmed(request.text@),
        metadata: with_profile(request.metadata@, profile),
        embedding,
        created_at_ms: now,
        updated_at_ms: now,
    }
}

/// What is said where the embedder gave too few or too many vectors.
pub open spec fn count_mismatch(vectors: nat, requests: nat, of_what: Seq<char>) -> MemoryErrorView {
    MemoryErrorView::Embedding(
        "embedding provider returned "@ + text::decimal_text(vectors) + " vectors for "@
            + text::decimal_text(requests) + of_what,
    )
}

/// Checks that there is one vector for each request.
pub fn validate_embedding_count(vectors: usize, requests: usize, of_what: &str) -> (r: Result<
    (),
    MemoryError,
>)
    ensures
        match r {
            Ok(_) => vectors == requests,
            Err(e) => vectors != requests && e@ == count_mismatch(
                vectors as nat,
                requests as nat,
                of_what@,
            ),
        },
{
    if vectors == requests {
        return Ok(());
    }
    let mut message = "embedding provider returned ".to_owned();
    push_decimal(&mut message, vectors as u64);
    message.append(" vectors for ");
    push_decimal(&mut message, requests as u64);
    message.append(of_what);
    Err(MemoryError::Embedding { message })
}

/// The records of a batch, and the responses to its requests. There must be an
/// id and an embedding for each request.
pub fn build_records(
    requests: &Vec<AddMemoryRequest>,
    ids: &Vec<String>,
    embeddings: &Vec<Vec<u32>>,
    profile: &Json,
    now: u64,
) -> (r: Result<(Vec<AddMemoryResponse>, Vec<MemoryRecord>), MemoryError>)
    requires
        ids@.len() == requests@.len(),
    ensures
        match r {
            Ok((responses, records)) => {
                &&& embeddings@.len() == requests@.len()
                &&& responses@.len() == requests@.len()
                &&& records@.len() == requests@.len()
                &&& forall|i: int|
                    0 <= i < records@.len() ==> (#[trigger] records@[i])@ == record_of(
                        requests@[i],
                        ids@[i]@,
                        embeddings@[i]@,
                        profile@,
                        now,
                    )
                &&& forall|i: int|
                    0 <= i < records@.len() ==> {
                        &&& (#[trigger] records@[i]).id@ == ids@[i]@
                        &&& records@[i].text@ == text::trimmed(requests@[i].text@)
                        &&& records@[i].embedding@ == embeddings@[i]@
                        &&& records@[i].created_at_ms == now
                        &&& records@[i].updated_at_ms == now
                    }
                &&& forall|i: int|
                    0 <= i < responses@.len() ==> (#[trigger] responses@[i]).id@ == ids@[i]@
            },
            Err(e) => embeddings@.len() != requests@.len() && e@ == count_mismatch(
                embeddings@.len(),
                requests@.len(),
                " requests"@,
            ),
        },
{
    match validate_embedding_count(embeddings.len(), requests.len(), " requests") {
        Ok(_) => {},
        Err(e) => {
            return Err(e);
        },
    }
    let mut responses: Vec<AddMemoryResponse> = Vec::new();
    let mut records: Vec<MemoryRecord> = Vec::new();
    let mut i: usize = 0;
    while i < requests.len()
        invariant
            i <= requests@.len(),
            ids@.len() == requests@.len(),
            embeddings@.len() == requests@.len(),
            responses@.len() == i,
            records@.len() == i,
            forall|k: int|
                0 <= k < i ==> (#[trigger] records@[k])@ == record_of(
                    requests@[k],
                    ids@[k]@,
                    embeddings@[k]@,
                    profile@,
                    now,
                ),
            forall|k: int|
                0 <= k < i ==> {
                    &&& (#[trigger] records@[k]).id@ == ids@[k]@
                    &&& records@[k].text@ == text::trimmed(requests@[k].text@)
                    &&& records@[k].embedding@ == embeddings@[k]@
                    &&& records@[k].created_at_ms == now
                    &&& records@[k].updated_at_ms == now
                },
            forall|k: int| 0 <= k < i ==> (#[trigger] responses@[k]).id@ == ids@[k]@,
        decreases requests@.len() - i,
    {
        let request = &requests[i];
        responses.push(AddMemoryResponse { id: ids[i].clone() });
        records.push(
            MemoryRecord {
                id: ids[i].clone(),
                text: trim(request.text.as_str()).to_owned(),
                metadata: metadata_with_embedding_profile(&request.metadata, profile),
                embedding: clone_bits(&embeddings[i]),
                created_at_ms: now,
                updated_at_ms: now,
            },
        );
        i += 1;
    }
    Ok((responses, records))
}

/// The embedding profile that each scope is known to use.
pub open spec fn expected_profiles(v: Seq<(String, String)>) -> Map<Seq<char>, Seq<char>>
    decreases v.len(),
{
    if v.len() == 0 {
        Map::empty()
    } else {
        expected_profiles(v.drop_last()).insert(v.last().0@, v.last().1@)
    }
}

/// What is said where a profile differs from the one that is expected.
pub open spec fn profile_mismatch(
    scope: Option<Seq<char>>,
    expected: Seq<char>,
    actual: Seq<char>,
) -> MemoryErrorView {
    let name = match scope {
        Some(s) => s,
        None => "<unscoped>"@,
    };
    MemoryErrorView::Embedding(
        "embedding profile mismatch for scope `"@ + name + "`: expected `"@ + expected
            + "` got `"@ + actual + "`"@,
    )
}

pub fn embedding_profile_mismatch_error(scope_id: Option<&str>, expected: &str, actual: &str) -> (r:
    MemoryError)
    ensures
        r@ == profile_mismatch(json::opt_text(scope_id), expected@, actual@),
{
    let scope = match scope_id {
        Some(s) => s,
        None => "<unscoped>",
    };
    let mut message = "embedding profile mismatch for scope `".to_owned();
    message.append(scope);
    message.append("`: expected `");
    message.append(expected);
    message.append("` got `");
    message.append(actual);
    message.append("`");
    MemoryError::Embedding { message }
}

/// The known profiles after one more profile was seen in a scope, or the error
/// where another one is known there.
pub open spec fn with_expected(
    known: Map<Seq<char>, Seq<char>>,
    scope: Seq<char>,
    profile: Seq<char>,
) -> Result<Map<Seq<char>, Seq<char>>, MemoryErrorView> {
    if known.contains_key(scope) {
        if known[scope] == profile {
            Ok(known)
        } else {
            Err(profile_mismatch(Some(scope), known[scope], profile))
        }
    } else {
        Ok(known.insert(scope, profile))
    }
}

/// The known profiles after a record was seen. A record without a scope is of
/// no account; one without a profile counts as using `default_profile`, or is
/// of no account where there is none.
pub open spec fn with_record_profile(
    known: Map<Seq<char>, Seq<char>>,
    metadata: JsonView,
    default_profile: Option<Seq<char>>,
) -> Result<Map<Seq<char>, Seq<char>>, MemoryErrorView> {
    match json::json_get_text(metadata, "scope_id"@) {
        None => Ok(known),
        Some(scope) => {
            let profile = match profile_id_of(metadata) {
                Some(p) => Some(p),
                None => default_profile,
            };
            match profile {
                Some(p) => with_expected(known, scope, p),
                None => Ok(known),
            }
        },
    }
}

pub open spec fn with_record_profiles(
    known: Map<Seq<char>, Seq<char>>,
    records: Seq<RecordView>,
    default_profile: Option<Seq<char>>,
) -> Result<Map<Seq<char>, Seq<char>>, MemoryErrorView>
    decreases records.len(),
{
    if records.len() == 0 {
        Ok(known)
    } else {
        match with_record_profiles(known, records.drop_last(), default_profile) {
            Ok(k) => with_record_profile(k, records.last().metadata, default_profile),
            Err(e) => Err(e),
        }
    }
}

/// What is wrong with adding records to those that are stored: two records of
/// one scope with different embedding profiles.
pub open spec fn new_profiles_problem(
    stored: Seq<RecordView>,
    added: Seq<RecordView>,
    current: Seq<char>,
) -> Option<MemoryErrorView> {
    if added.len() == 0 {
        None
    } else {
        match with_record_profiles(Map::empty(), stored, None) {
            Err(e) => Some(e),
            Ok(known) => match with_record_profiles(known, added, Some(current)) {
                Err(e) => Some(e),
                Ok(_) => None,
            },
        }
    }
}

proof fn lemma_expected_profiles(v: Seq<(String, String)>, i: int)
    requires
        0 <= i < v.len(),
        forall|a: int, b: int| 0 <= a < b < v.len() ==> #[trigger] v[a].0@ != #[trigger] v[b].0@,
    ensures
        expected_profiles(v).contains_key(v[i].0@),
        expected_profiles(v)[v[i].0@] == v[i].1@,
    decreases v.len(),
{
    if i < v.len() - 1 {
        assert(v.drop_last()[i] == v[i]);
        lemma_expected_profiles(v.drop_last(), i);
        assert(v[i].0@ != v[v.len() - 1].0@);
    }
}

proof fn lemma_unexpected_profile(v: Seq<(String, String)>, scope: Seq<char>)
    requires
        forall|k: int| 0 <= k < v.len() ==> (#[trigger] v[k]).0@ != scope,
    ensures
        !expected_profiles(v).contains_key(scope),
    decreases v.len(),
{
    if v.len() > 0 {
        assert forall|k: int| 0 <= k < v.drop_last().len() implies (
        #[trigger] v.drop_last()[k]).0@ != scope by {
            assert(v.drop_last()[k] == v[k]);
        }
        lemma_unexpected_profile(v.drop_last(), scope);
        assert(v[v.len() - 1].0@ != scope);
    }
}

/// Notes the profile of a scope, or reports that another one is known there.
pub fn insert_expected_embedding_profile(
    expected_by_scope: &mut Vec<(String, String)>,
    scope_id: &str,
    profile_id: &str,
) -> (r: Result<(), MemoryError>)
    requires
        forall|a: int, b: int|
            0 <= a < b < old(expected_by_scope)@.len()
                ==> #[trigger] old(expected_by_scope)@[a].0@
                != #[trigger] old(expected_by_scope)@[b].0@,
    ensures
        forall|a: int, b: int|
            0 <= a < b < final(expected_by_scope)@.len()
                ==> #[trigger] final(expected_by_scope)@[a].0@
                != #[trigger] final(expected_by_scope)@[b].0@,
        match r {
            Ok(_) => with_expected(
                expected_profiles(old(expected_by_scope)@),
                scope_id@,
                profile_id@,
            ) == Ok::<_, MemoryErrorView>(expected_profiles(final(expected_by_scope)@)),
            Err(e) => with_expected(
                expected_profiles(old(expected_by_scope)@),
                scope_id@,
                profile_id@,
            ) == Err::<Map<Seq<char>, Seq<char>>, _>(e@),
        },
{
    let mut i: usize = 0;
    while i < expected_by_scope.len()
        invariant
            i <= expected_by_scope@.len(),
            expected_by_scope@ == old(expected_by_scope)@,
            forall|a: int, b: int|
                0 <= a < b < expected_by_scope@.len() ==> #[trigger] expected_by_scope@[a].0@
                    != #[trigger] expected_by_scope@[b].0@,
            forall|k: int| 0 <= k < i ==> (#[trigger] expected_by_scope@[k]).0@ != scope_id@,
        decreases expected_by_scope@.len() - i,
    {
        if text_eq(expected_by_scope[i].0.as_str(), scope_id) {
            proof {
                lemma_expected_profiles(expected_by_scope@, i as int);
            }
            if text_eq(expected_by_scope[i].1.as_str(), profile_id) {
                return Ok(());
            }
            return Err(
                embedding_profile_mismatch_error(
                    Some(scope_id),
                    expected_by_scope[i].1.as_str(),
                    profile_id,
                ),
            );
        }
        i += 1;
    }
    proof {
        lemma_unexpected_profile(expected_by_scope@, scope_id@);
    }
    let ghost before = expected_by_scope@;
    expected_by_scope.push((scope_id.to_owned(), profile_id.to_owned()));
    assert(expected_by_scope@.drop_last() =~= before);
    Ok(())
}

/// Notes the profiles of a list of records.
fn expect_record_profiles(
    expected_by_scope: &mut Vec<(String, String)>,
    records: &Vec<MemoryRecord>,
    default_profile: Option<&str>,
) -> (r: Result<(), MemoryError>)
    requires
        forall|a: int, b: int|
            0 <= a < b < old(expected_by_scope)@.len()
                ==> #[trigger] old(expected_by_scope)@[a].0@
                != #[trigger] old(expected_by_scope)@[b].0@,
    ensures
        forall|a: int, b: int|
            0 <= a < b < final(expected_by_scope)@.len()
                ==> #[trigger] final(expected_by_scope)@[a].0@
                != #[trigger] final(expected_by_scope)@[b].0@,
        match r {
            Ok(_) => with_record_profiles(
                expected_profiles(old(expected_by_scope)@),
                record::record_views(records@),
                json::opt_text(default_profile),
            ) == Ok::<_, MemoryErrorView>(expected_profiles(final(expected_by_scope)@)),
            Err(e) => with_record_profiles(
                expected_profiles(old(expected_by_scope)@),
                record::record_views(records@),
                json::opt_text(default_profile),
            ) == Err::<Map<Seq<char>, Seq<char>>, _>(e@),
        },
{
    let ghost all = record::record_views(records@);
    let ghost known = expected_profiles(expected_by_scope@);
    let ghost default_view = json::opt_text(default_profile);
    let mut i: usize = 0;
    assert(all.take(0) =~= Seq::empty());
    while i < records.len()
        invariant
            i <= records@.len(),
            all == record::record_views(records@),
            default_view == json::opt_text(default_profile),
            known == expected_profiles(old(expected_by_scope)@),
            forall|a: int, b: int|
                0 <= a < b < expected_by_scope@.len() ==> #[trigger] expected_by_scope@[a].0@
                    != #[trigger] expected_by_scope@[b].0@,
            with_record_profiles(known, all.take(i as int), default_view) == Ok::<
                _,
                MemoryErrorView,
            >(expected_profiles(expected_by_scope@)),
        decreases records@.len() - i,
    {
        assert(all.take(i + 1).drop_last() =~= all.take(i as int));
        assert(all.take(i + 1).last() == records@[i as int]@);
        match extract_scope_id(&records[i].metadata) {
            Some(scope) => {
                let profile = match record_embedding_profile_id(&records[i]) {
                    Some(p) => Some(p),
                    None => match default_profile {
                        Some(p) => Some(p.to_owned()),
                        None => None,
                    },
                };
                match profile {
                    Some(p) => {
                        match insert_expected_embedding_profile(
                            expected_by_scope,
                            scope.as_str(),
                            p.as_str(),
                        ) {
                            Ok(_) => {},
                            Err(e) => {
                                proof {
                                    lemma_profile_error_stays(known, all, default_view, i + 1);
                                }
                                return Err(e);
                            },
                        }
                    },
                    None => {},
                }
            },
            None => {},
        }
        i += 1;
    }
    assert(all.take(i as int) =~= all);
    Ok(())
}

proof fn lemma_profile_error_stays(
    known: Map<Seq<char>, Seq<char>>,
    records: Seq<RecordView>,
    default_profile: Option<Seq<char>>,
    n: int,
)
    requires
        0 <= n <= records.len(),
        with_record_profiles(known, records.take(n), default_profile) is Err,
    ensures
        with_record_profiles(known, records, default_profile) == with_record_profiles(
            known,
            records.take(n),
            default_profile,
        ),
    decreases records.len() - n,
{
    if n == records.len() {
        assert(records.take(n) =~= records);
    } else {
        assert(records.drop_last().take(n) =~= records.take(n));
        lemma_profile_error_stays(known, records.drop_last(), default_profile, n);
    }
}

/// Checks that the records of each scope use one embedding profile, those that
/// are stored together with those that are added.
pub fn validate_new_record_embedding_profiles(
    stored: &Vec<MemoryRecord>,
    added: &Vec<MemoryRecord>,
    current_profile_id: &str,
) -> (r: Result<(), MemoryError>)
    ensures
        match r {
            Ok(_) => new_profiles_problem(
                record::record_views(stored@),
                record::record_views(added@),
                current_profile_id@,
            ) is None,
            Err(e) => new_profiles_problem(
                record::record_views(stored@),
                record::record_views(added@),
                current_profile_id@,
            ) == Some(e@),
        },
{
    if added.is_empty() {
        return Ok(());
    }
    let mut expected: Vec<(String, String)> = Vec::new();
    match expect_record_profiles(&mut expected, stored, None) {
        Ok(_) => {},
        Err(e) => {
            return Err(e);
        },
    }
    expect_record_profiles(&mut expected, added, Some(current_profile_id))
}

/// Whether a stored record speaks against searching with the current profile:
/// it passes the filter, a scope is named by it or by the filter, and it notes
/// another profile.
pub open spec fn profile_differs(
    metadata: JsonView,
    filter: Option<JsonView>,
    current: Seq<char>,
) -> bool {
    &&& record::matches_filter(metadata, filter)
    &&& json::json_get_text(metadata, "scope_id"@) is Some || (filter is Some
        && json::json_get_text(filter->0, "scope_id"@) is Some)
    &&& profile_id_of(metadata) is Some
    &&& profile_id_of(metadata) != Some(current)
}

/// What is wrong with searching the stored records with the current profile.
pub open spec fn search_profile_problem(
    stored: Seq<RecordView>,
    filter: Option<JsonView>,
    current: Seq<char>,
) -> Option<MemoryErrorView>
    decreases stored.len(),
{
    if stored.len() == 0 {
        None
    } else if search_profile_problem(stored.drop_last(), filter, current) is Some {
        search_profile_problem(stored.drop_last(), filter, current)
    } else if profile_differs(stored.last().metadata, filter, current) {
        Some(
            profile_mismatch(
                json::json_get_text(stored.last().metadata, "scope_id"@),
                current,
                profile_id_of(stored.last().metadata)->0,
            ),
        )
    } else {
        None
    }
}

proof fn lemma_search_problem_stays(
    stored: Seq<RecordView>,
    filter: Option<JsonView>,
    current: Seq<char>,
    n: int,
)
    requires
        0 <= n <= stored.len(),
        search_profile_problem(stored.take(n), filter, current) is Some,
    ensures
        search_profile_problem(stored, filter, current) == search_profile_problem(
            stored.take(n),
            filter,
            current,
        ),
    decreases stored.len() - n,
{
    if n == stored.len() {
        assert(stored.take(n) =~= stored);
    } else {
        assert(stored.drop_last().take(n) =~= stored.take(n));
        lemma_search_problem_stays(stored.drop_last(), filter, current, n);
    }
}

/// Checks that the records that a search will see use the current embedding
/// profile.
pub fn validate_search_embedding_profile(
    stored: &Vec<MemoryRecord>,
    filter: Option<&Json>,
    current_profile_id: &str,
) -> (r: Result<(), MemoryError>)
    ensures
        match r {
            Ok(_) => search_profile_problem(
                record::record_views(stored@),
                json::opt_json(filter),
                current_profile_id@,
            ) is None,
            Err(e) => search_profile_problem(
                record::record_views(stored@),
                json::opt_json(filter),
                current_profile_id@,
            ) == Some(e@),
        },
{
    let ghost all = record::record_views(stored@);
    let ghost wanted = json::opt_json(filter);
    let filter_scope = extract_scope_id_from_filter(filter);
    let mut i: usize = 0;
    assert(all.take(0) =~= Seq::empty());
    while i < stored.len()
        invariant
            i <= stored@.len(),
            all == record::record_views(stored@),
            wanted == json::opt_json(filter),
            json::opt_string(filter_scope) == (match filter {
                Some(f) => json::json_get_text(f@, "scope_id"@),
                None => None,
            }),
            search_profile_problem(all.take(i as int), wanted, current_profile_id@) is None,
        decreases stored@.len() - i,
    {
        let ghost seen = all.take(i + 1);
        assert(seen.drop_last() =~= all.take(i as int));
        assert(seen.last() == stored@[i as int]@);
        if metadata_matches(&stored[i].metadata, filter) {
            let scope = extract_scope_id(&stored[i].metadata);
            if filter_scope.is_some() || scope.is_some() {
                match record_embedding_profile_id(&stored[i]) {
                    Some(profile) => {
                        if !text_eq(profile.as_str(), current_profile_id) {
                            proof {
                                lemma_search_problem_stays(
                                    all,
                                    wanted,
                                    current_profile_id@,
                                    i + 1,
                                );
                            }
                            let named = match &scope {
                                Some(s) => Some(s.as_str()),
                                None => None,
                            };
                            return Err(
                                embedding_profile_mismatch_error(
                                    named,
                                    current_profile_id,
                                    profile.as_str(),
                                ),
                            );
                        }
                    },
                    None => {},
                }
            }
        }
        i += 1;
    }
    assert(all.take(i as int) =~= all);
    Ok(())
}

/// The records that pass none of the filters.
pub open spec fn retained_records(records: Seq<RecordView>, filters: Seq<JsonView>) -> Seq<
    RecordView,
> {
    records.filter(|r: RecordView| !record::matches_any_filter(r.metadata, filters))
}

/// Deletes the records that pass one of the filters: the records that are
/// left, and how many are gone.
pub fn delete_by_filters(records: &Vec<MemoryRecord>, filters: &Vec<Json>) -> (r: (
    Vec<MemoryRecord>,
    usize,
))
    ensures
        record::record_views(r.0@) == retained_records(
            record::record_views(records@),
            json::json_views(filters@),
        ),
        r.1 == records@.len() - r.0@.len(),
{
    let ghost all = record::record_views(records@);
    let ghost keep = |x: RecordView|
        !record::matches_any_filter(x.metadata, json::json_views(filters@));
    let mut kept: Vec<MemoryRecord> = Vec::new();
    let mut i: usize = 0;
    assert(record::record_views(kept@) =~= Seq::empty());
    assert(all.take(0).filter(keep) =~= Seq::empty()) by {
        reveal(Seq::filter);
    }
    while i < records.len()
        invariant
            i <= records@.len(),
            kept@.len() <= i,
            all == record::record_views(records@),
            keep == (|x: RecordView|
                !record::matches_any_filter(x.metadata, json::json_views(filters@))),
            record::record_views(kept@) == all.take(i as int).filter(keep),
        decreases records@.len() - i,
    {
        let ghost before = record::record_views(kept@);
        assert(all.take(i + 1).drop_last() =~= all.take(i as int));
        assert(all.take(i + 1).last() == records@[i as int]@);
        proof {
            reveal(Seq::filter);
        }
        if !metadata_matches_any(&records[i].metadata, filters) {
            let record = records[i].clone();
            kept.push(record);
            assert(record::record_views(kept@) =~= before.push(records@[i as int]@));
        }
        i += 1;
    }
    assert(all.take(i as int) =~= all);
    assert(all.filter(keep) =~= retained_records(all, json::json_views(filters@)));
    let gone: usize = records.len() - kept.len();
    (kept, gone)
}

/// Deleting removes every record that passes a filter and no other: what is
/// left passes none, and a record that passes none is left.
pub proof fn deleting_removes_exactly_the_matches(
    records: Seq<RecordView>,
    filters: Seq<JsonView>,
    x: RecordView,
)
    ensures
        retained_records(records, filters).contains(x) <==> records.contains(x)
            && !record::matches_any_filter(x.metadata, filters),
{
    let keep = |r: RecordView| !record::matches_any_filter(r.metadata, filters);
    let left = records.filter(keep);
    if left.contains(x) {
        let i = choose|i: int| 0 <= i < left.len() && left[i] == x;
        records.lemma_filter_pred(keep, i);
        records.lemma_filter_contains_rev(keep, x);
    }
    if records.contains(x) && keep(x) {
        broadcast use vstd::seq_lib::group_filter_ensures;

        let i = choose|i: int| 0 <= i < records.len() && records[i] == x;
        assert(keep(records[i]));
    }
}

/// What is said where a record's embedding has another dimension than the
/// query's.
pub open spec fn dimension_mismatch(query_dims: nat, r: RecordView) -> MemoryErrorView {
    MemoryErrorView::Embedding(
        "embedding dimension mismatch: query has "@ + text::decimal_text(query_dims)
            + " dims but record '"@ + r.id + "' has "@ + text::decimal_text(r.embedding.len())
            + " dims"@,
    )
}

/// The records that a dense search measures, or the error for the first of
/// them whose embedding has another dimension than the query's.
pub open spec fn dense_records(
    records: Seq<RecordView>,
    filter: Option<JsonView>,
    query_dims: nat,
) -> Result<Seq<RecordView>, MemoryErrorView>
    decreases records.len(),
{
    if records.len() == 0 {
        Ok(Seq::empty())
    } else {
        match dense_records(records.drop_last(), filter, query_dims) {
            Err(e) => Err(e),
            Ok(found) => if !record::matches_filter(records.last().metadata, filter) {
                Ok(found)
            } else if records.last().embedding.len() != query_dims {
                Err(dimension_mismatch(query_dims, records.last()))
            } else {
                Ok(found.push(records.last()))
            },
        }
    }
}

proof fn lemma_dense_error_stays(
    records: Seq<RecordView>,
    filter: Option<JsonView>,
    query_dims: nat,
    n: int,
)
    requires
        0 <= n <= records.len(),
        dense_records(records.take(n), filter, query_dims) is Err,
    ensures
        dense_records(records, filter, query_dims) == dense_records(
            records.take(n),
            filter,
            query_dims,
        ),
    decreases records.len() - n,
{
    if n == records.len() {
        assert(records.take(n) =~= records);
    } else {
        assert(records.drop_last().take(n) =~= records.take(n));
        lemma_dense_error_stays(records.drop_last(), filter, query_dims, n);
    }
}

/// The records that a dense search measures against the query.
pub fn select_dense_records(
    records: &Vec<MemoryRecord>,
    filter: Option<&Json>,
    query_dims: usize,
) -> (r: Result<Vec<MemoryRecord>, MemoryError>)
    ensures
        match r {
            Ok(found) => dense_records(
                record::record_views(records@),
                json::opt_json(filter),
                query_dims as nat,
            ) == Ok::<_, MemoryErrorView>(record::record_views(found@)),
            Err(e) => dense_records(
                record::record_views(records@),
                json::opt_json(filter),
                query_dims as nat,
            ) == Err::<Seq<RecordView>, _>(e@),
        },
{
    let ghost all = record::record_views(records@);
    let ghost wanted = json::opt_json(filter);
    let mut found: Vec<MemoryRecord> = Vec::new();
    assert(record::record_views(found@) =~= Seq::empty());
    assert(all.take(0) =~= Seq::empty());
    let mut i: usize = 0;
    while i < records.len()
        invariant
            i <= records@.len(),
            all == record::record_views(records@),
            wanted == json::opt_json(filter),
            dense_records(all.take(i as int), wanted, query_dims as nat) == Ok::<
                _,
                MemoryErrorView,
            >(record::record_views(found@)),
        decreases records@.len() - i,
    {
        let ghost before = record::record_views(found@);
        assert(all.take(i + 1).drop_last() =~= all.take(i as int));
        assert(all.take(i + 1).last() == records@[i as int]@);
        if metadata_matches(&records[i].metadata, filter) {
            if records[i].embedding.len() != query_dims {
                let mut message = "embedding dimension mismatch: query has ".to_owned();
                push_decimal(&mut message, query_dims as u64);
                message.append(" dims but record '");
                message.append(records[i].id.as_str());
                message.append("' has ");
                push_decimal(&mut message, records[i].embedding.len() as u64);
                message.append(" dims");
                proof {
                    lemma_dense_error_stays(all, wanted, query_dims as nat, i + 1);
                }
                return Err(MemoryError::Embedding { message });
            }
            let record = records[i].clone();
            found.push(record);
            assert(record::record_views(found@) =~= before.push(records@[i as int]@));
        }
        i += 1;
    }
    assert(all.take(i as int) =~= all);
    Ok(found)
}

/// Whether one of the requests has a blank query.
pub open spec fn some_query_is_blank(requests: Seq<SearchMemoryRequest>) -> bool {
    exists|i: int| 0 <= i < requests.len() && text::is_blank((#[trigger] requests[i]).query@)
}

/// Checks a batch of dense searches before their queries are embedded.
pub fn validate_search_requests(requests: &Vec<SearchMemoryRequest>) -> (r: Result<
    (),
    MemoryError,
>)
    ensures
        match r {
            Ok(_) => !some_query_is_blank(requests@),
            Err(e) => some_query_is_blank(requests@) && e@ == MemoryErrorView::InvalidInput(
                "search query must not be empty"@,
            ),
        },
{
    let mut i: usize = 0;
    while i < requests.len()
        invariant
            i <= requests@.len(),
            forall|k: int| 0 <= k < i ==> !text::is_blank((#[trigger] requests@[k]).query@),
        decreases requests@.len() - i,
    {
        if trim(requests[i].query.as_str()).is_empty() {
            return Err(MemoryError::invalid_input("search query must not be empty"));
        }
        i += 1;
    }
    Ok(())
}

/// The record of a request has the text of the request without the space around
/// it, the id and the embedding that it was given, and the time as both its
/// times. Its metadata is that of the request with the profile noted; metadata
/// that is no object stays as it is.
pub proof fn records_say_what_was_asked(
    request: AddMemoryRequest,
    id: Seq<char>,
    embedding: Seq<u32>,
    profile: JsonView,
    now: u64,
    key: Seq<char>,
)
    ensures
        ({
            let r = record_of(request, id, embedding, profile, now);
            &&& r.id == id
            &&& r.text == text::trimmed(request.text@)
            &&& r.embedding == embedding
            &&& r.created_at_ms == now
            &&& r.updated_at_ms == now
            &&& !(request.metadata@ is Object) ==> r.metadata == request.metadata@
            &&& request.metadata@ is Object ==> json::json_get(
                r.metadata,
                "memory_core_embedding_profile"@,
            ) == Some(profile)
            &&& request.metadata@ is Object && key != "memory_core_embedding_profile"@
                ==> json::json_get(r.metadata, key) == json::json_get(request.metadata@, key)
        }),
{
    if request.metadata@ is Object {
        json::put_then_get(request.metadata@, "memory_core_embedding_profile"@, profile, key);
    }
}

/// Whether a request of a batch is at fault: its text is blank, or an earlier one
/// brings the same id along.
pub open spec fn is_at_fault(requests: Seq<AddMemoryRequest>, i: int) -> bool {
    text::is_blank(requests[i].text@) || (requests[i].id is Some && exists|j: int|
        0 <= j < i && (#[trigger] requests[j]).id is Some && requests[j].id->0@
            == requests[i].id->0@)
}

/// A batch is refused exactly where a request is at fault, and it is refused for
/// the first of them.
pub proof fn batches_are_refused_for_the_first_fault(requests: Seq<AddMemoryRequest>)
    ensures
        batch_problem(requests) is None <==> forall|i: int|
            0 <= i < requests.len() ==> !#[trigger] is_at_fault(requests, i),
        forall|i: int|
            0 <= i < requests.len() && #[trigger] is_at_fault(requests, i) && (forall|j: int|
                0 <= j < i ==> !#[trigger] is_at_fault(requests, j)) ==> batch_problem(requests)
                == Some(
                MemoryErrorView::InvalidInput(
                    if text::is_blank(requests[i].text@) {
                        "memory text must not be empty"@
                    } else {
                        "duplicate memory id in batch: "@ + requests[i].id->0@
                    },
                ),
            ),
    decreases requests.len(),
{
    if requests.len() > 0 {
        let front = requests.drop_last();
        let n = front.len() as int;
        batches_are_refused_for_the_first_fault(front);
        assert forall|i: int| 0 <= i < n implies #[trigger] is_at_fault(front, i) == is_at_fault(
            requests,
            i,
        ) by {
            if is_at_fault(front, i) && !text::is_blank(front[i].text@) {
                let j = choose|j: int|
                    0 <= j < i && (#[trigger] front[j]).id is Some && front[j].id->0@
                        == front[i].id->0@;
                assert(requests[j].id is Some);
            }
            if is_at_fault(requests, i) && !text::is_blank(requests[i].text@) {
                let j = choose|j: int|
                    0 <= j < i && (#[trigger] requests[j]).id is Some && requests[j].id->0@
                        == requests[i].id->0@;
                assert(front[j].id is Some);
            }
        }
        let r = requests[n];
        if r.id is Some {
            if id_is_taken(front, r.id->0@) {
                let j = choose|j: int|
                    0 <= j < front.len() && request_id(#[trigger] front[j]) == Some(r.id->0@);
                assert(requests[j].id is Some && requests[j].id->0@ == r.id->0@);
            }
            if exists|j: int|
                0 <= j < n && (#[trigger] requests[j]).id is Some && requests[j].id->0@
                    == r.id->0@ {
                let j = choose|j: int|
                    0 <= j < n && (#[trigger] requests[j]).id is Some && requests[j].id->0@
                        == r.id->0@;
                assert(request_id(front[j]) == Some(r.id->0@));
            }
        }
        if batch_problem(front) is Some {
            let i = choose|i: int| 0 <= i < front.len() && #[trigger] is_at_fault(front, i);
            assert(is_at_fault(requests, i));
        } else {
            assert forall|i: int| 0 <= i < n implies !#[trigger] is_at_fault(requests, i) by {
                assert(!is_at_fault(front, i));
            }
            assert(is_at_fault(requests, n) == (batch_problem(requests) is Some));
        }
        assert forall|i: int|
            0 <= i < requests.len() && #[trigger] is_at_fault(requests, i) && (forall|j: int|
                0 <= j < i ==> !#[trigger] is_at_fault(requests, j)) implies batch_problem(requests)
            == Some(
            MemoryErrorView::InvalidInput(
                if text::is_blank(requests[i].text@) {
                    "memory text must not be empty"@
                } else {
                    "duplicate memory id in batch: "@ + requests[i].id->0@
                },
            ),
        ) by {
            if i < n {
                assert(is_at_fault(front, i));
                assert forall|j: int| 0 <= j < i implies !#[trigger] is_at_fault(front, j) by {
                    assert(!is_at_fault(requests, j));
                }
                assert(front[i] == requests[i]);
            } else {
                assert forall|j: int| 0 <= j < n implies !#[trigger] is_at_fault(front, j) by {
                    assert(!is_at_fault(requests, j));
                }
            }
        }
    }
}

/// Whether a record is of a scope and counts as using a profile: the one that it
/// notes, or else the default, if there is one.
pub open spec fn uses_profile(
    r: RecordView,
    default_profile: Option<Seq<char>>,
    scope: Seq<char>,
    profile: Seq<char>,
) -> bool {
    &&& json::json_get(r.metadata, "scope_id"@) == Some(JsonView::Text(scope))
    &&& profile_id_of(r.metadata) == Some(profile) || (profile_id_of(r.metadata) is None
        && default_profile == Some(profile))
}

/// Whether records of one scope use one profile.
pub open spec fn profiles_agree(
    records: Seq<RecordView>,
    default_profile: Option<Seq<char>>,
) -> bool {
    forall|i: int, j: int, scope: Seq<char>, p: Seq<char>, q: Seq<char>|
        0 <= i < records.len() && 0 <= j < records.len() && #[trigger] uses_profile(
            records[i],
            default_profile,
            scope,
            p,
        ) && #[trigger] uses_profile(records[j], default_profile, scope, q) ==> p == q
}

/// Whether some known profiles speak against a record.
spec fn contradicts(
    known: Map<Seq<char>, Seq<char>>,
    r: RecordView,
    default_profile: Option<Seq<char>>,
) -> bool {
    exists|scope: Seq<char>, p: Seq<char>| #[trigger]
        uses_profile(r, default_profile, scope, p) && known.contains_key(scope) && known[scope] != p
}

proof fn lemma_record_profiles(
    known: Map<Seq<char>, Seq<char>>,
    records: Seq<RecordView>,
    default_profile: Option<Seq<char>>,
)
    ensures
        match with_record_profiles(known, records, default_profile) {
            Ok(k) => {
                &&& profiles_agree(records, default_profile)
                &&& forall|i: int|
                    0 <= i < records.len() ==> !contradicts(
                        known,
                        #[trigger] records[i],
                        default_profile,
                    )
                &&& forall|scope: Seq<char>| #[trigger]
                    known.contains_key(scope) ==> k.contains_key(scope) && k[scope] == known[scope]
                &&& forall|i: int, scope: Seq<char>, p: Seq<char>|
                    0 <= i < records.len() && #[trigger] uses_profile(
                        records[i],
                        default_profile,
                        scope,
                        p,
                    ) ==> k.contains_key(scope) && k[scope] == p
                &&& forall|scope: Seq<char>| #[trigger]
                    k.contains_key(scope) ==> known.contains_key(scope) || exists|i: int|
                        0 <= i < records.len() && uses_profile(
                            #[trigger] records[i],
                            default_profile,
                            scope,
                            k[scope],
                        )
            },
            Err(_) => !profiles_agree(records, default_profile) || exists|i: int|
                0 <= i < records.len() && contradicts(
                    known,
                    #[trigger] records[i],
                    default_profile,
                ),
        },
    decreases records.len(),
{
    if records.len() > 0 {
        let front = records.drop_last();
        let r = records.last();
        let n = front.len() as int;
        lemma_record_profiles(known, front, default_profile);
        let scope = json::json_get_text(r.metadata, "scope_id"@);
        let profile = match profile_id_of(r.metadata) {
            Some(p) => Some(p),
            None => default_profile,
        };
        assert forall|s: Seq<char>, p: Seq<char>| #[trigger]
            uses_profile(r, default_profile, s, p) <==> scope == Some(s) && profile == Some(p) by {}
        match with_record_profiles(known, front, default_profile) {
            Err(_) => {
                if !profiles_agree(front, default_profile) {
                    let (i, j, s, p, q) = choose|
                        i: int,
                        j: int,
                        s: Seq<char>,
                        p: Seq<char>,
                        q: Seq<char>,
                    |
                        0 <= i < front.len() && 0 <= j < front.len() && #[trigger] uses_profile(
                            front[i],
                            default_profile,
                            s,
                            p,
                        ) && #[trigger] uses_profile(front[j], default_profile, s, q) && p != q;
                    assert(uses_profile(records[i], default_profile, s, p));
                    assert(uses_profile(records[j], default_profile, s, q));
                } else {
                    let i = choose|i: int|
                        0 <= i < front.len() && contradicts(
                            known,
                            #[trigger] front[i],
                            default_profile,
                        );
                    assert(contradicts(known, records[i], default_profile));
                }
            },
            Ok(k) => {
                if scope is Some && profile is Some {
                    let (s, p) = (scope->0, profile->0);
                    assert(uses_profile(records[n], default_profile, s, p));
                    if k.contains_key(s) && k[s] != p {
                        if known.contains_key(s) {
                            assert(contradicts(known, records[n], default_profile));
                        } else {
                            let i = choose|i: int|
                                0 <= i < front.len() && uses_profile(
                                    #[trigger] front[i],
                                    default_profile,
                                    s,
                                    k[s],
                                );
                            assert(uses_profile(records[i], default_profile, s, k[s]));
                        }
                    } else {
                        lemma_profiles_grow(known, k, front, r, default_profile, s, p);
                    }
                } else {
                    lemma_profiles_stay(known, k, front, r, default_profile);
                }
                assert(front.push(r) =~= records);
            },
        }
    }
}

proof fn lemma_profiles_stay(
    known: Map<Seq<char>, Seq<char>>,
    k: Map<Seq<char>, Seq<char>>,
    front: Seq<RecordView>,
    r: RecordView,
    default_profile: Option<Seq<char>>,
)
    requires
        profiles_agree(front, default_profile),
        forall|i: int|
            0 <= i < front.len() ==> !contradicts(known, #[trigger] front[i], default_profile),
        forall|i: int, scope: Seq<char>, p: Seq<char>|
            0 <= i < front.len() && #[trigger] uses_profile(front[i], default_profile, scope, p)
                ==> k.contains_key(scope) && k[scope] == p,
        forall|scope: Seq<char>| #[trigger]
            k.contains_key(scope) ==> known.contains_key(scope) || exists|i: int|
                0 <= i < front.len() && uses_profile(
                    #[trigger] front[i],
                    default_profile,
                    scope,
                    k[scope],
                ),
        forall|s: Seq<char>, p: Seq<char>| !#[trigger] uses_profile(r, default_profile, s, p),
    ensures
        profiles_agree(front.push(r), default_profile),
        forall|i: int|
            0 <= i < front.push(r).len() ==> !contradicts(
                known,
                #[trigger] front.push(r)[i],
                default_profile,
            ),
        forall|i: int, scope: Seq<char>, p: Seq<char>|
            0 <= i < front.push(r).len() && #[trigger] uses_profile(
                front.push(r)[i],
                default_profile,
                scope,
                p,
            ) ==> k.contains_key(scope) && k[scope] == p,
        forall|scope: Seq<char>| #[trigger]
            k.contains_key(scope) ==> known.contains_key(scope) || exists|i: int|
                0 <= i < front.push(r).len() && uses_profile(
                    #[trigger] front.push(r)[i],
                    default_profile,
                    scope,
                    k[scope],
                ),
{
    let all = front.push(r);
    assert forall|i: int, scope: Seq<char>, p: Seq<char>|
        0 <= i < all.len() && #[trigger] uses_profile(
            all[i],
            default_profile,
            scope,
            p,
        ) implies k.contains_key(scope) && k[scope] == p by {
        if i < front.len() {
            assert(all[i] == front[i]);
            assert(uses_profile(front[i], default_profile, scope, p));
        }
    }
    assert forall|i: int| 0 <= i < all.len() implies !contradicts(
        known,
        #[trigger] all[i],
        default_profile,
    ) by {
        if i < front.len() {
            assert(all[i] == front[i]);
        }
    }
    assert forall|scope: Seq<char>| #[trigger] k.contains_key(scope) implies known.contains_key(
        scope,
    ) || exists|i: int|
        0 <= i < all.len() && uses_profile(
            #[trigger] all[i],
            default_profile,
            scope,
            k[scope],
        ) by {
        if !known.contains_key(scope) {
            let i = choose|i: int|
                0 <= i < front.len() && uses_profile(
                    #[trigger] front[i],
                    default_profile,
                    scope,
                    k[scope],
                );
            assert(uses_profile(all[i], default_profile, scope, k[scope]));
        }
    }
}

proof fn lemma_profiles_grow(
    known: Map<Seq<char>, Seq<char>>,
    k: Map<Seq<char>, Seq<char>>,
    front: Seq<RecordView>,
    r: RecordView,
    default_profile: Option<Seq<char>>,
    s: Seq<char>,
    p: Seq<char>,
)
    requires
        forall|scope: Seq<char>| #[trigger]
            known.contains_key(scope) ==> k.contains_key(scope) && k[scope] == known[scope],
        forall|i: int|
            0 <= i < front.len() ==> !contradicts(known, #[trigger] front[i], default_profile),
        forall|i: int, scope: Seq<char>, q: Seq<char>|
            0 <= i < front.len() && #[trigger] uses_profile(front[i], default_profile, scope, q)
                ==> k.contains_key(scope) && k[scope] == q,
        forall|scope: Seq<char>| #[trigger]
            k.contains_key(scope) ==> known.contains_key(scope) || exists|i: int|
                0 <= i < front.len() && uses_profile(
                    #[trigger] front[i],
                    default_profile,
                    scope,
                    k[scope],
                ),
        uses_profile(r, default_profile, s, p),
        forall|t: Seq<char>, q: Seq<char>| #[trigger]
            uses_profile(r, default_profile, t, q) ==> t == s && q == p,
        k.contains_key(s) ==> k[s] == p,
    ensures
        ({
            let all = front.push(r);
            let more = if k.contains_key(s) {
                k
            } else {
                k.insert(s, p)
            };
            &&& profiles_agree(all, default_profile)
            &&& forall|i: int|
                0 <= i < all.len() ==> !contradicts(known, #[trigger] all[i], default_profile)
            &&& forall|scope: Seq<char>| #[trigger]
                known.contains_key(scope) ==> more.contains_key(scope) && more[scope]
                    == known[scope]
            &&& forall|i: int, scope: Seq<char>, q: Seq<char>|
                0 <= i < all.len() && #[trigger] uses_profile(all[i], default_profile, scope, q)
                    ==> more.contains_key(scope) && more[scope] == q
            &&& forall|scope: Seq<char>| #[trigger]
                more.contains_key(scope) ==> known.contains_key(scope) || exists|i: int|
                    0 <= i < all.len() && uses_profile(
                        #[trigger] all[i],
                        default_profile,
                        scope,
                        more[scope],
                    )
        }),
{
    let all = front.push(r);
    let n = front.len() as int;
    let more = if k.contains_key(s) {
        k
    } else {
        k.insert(s, p)
    };
    assert forall|i: int, scope: Seq<char>, q: Seq<char>|
        0 <= i < all.len() && #[trigger] uses_profile(
            all[i],
            default_profile,
            scope,
            q,
        ) implies more.contains_key(scope) && more[scope] == q by {
        if i < n {
            assert(all[i] == front[i]);
            assert(uses_profile(front[i], default_profile, scope, q));
        }
    }
    assert(profiles_agree(all, default_profile));
    assert forall|i: int| 0 <= i < all.len() implies !contradicts(
        known,
        #[trigger] all[i],
        default_profile,
    ) by {
        if i < n {
            assert(all[i] == front[i]);
        }
    }
    assert forall|scope: Seq<char>| #[trigger] more.contains_key(scope) implies known.contains_key(
        scope,
    ) || exists|i: int|
        0 <= i < all.len() && uses_profile(
            #[trigger] all[i],
            default_profile,
            scope,
            more[scope],
        ) by {
        if !known.contains_key(scope) {
            if scope == s {
                assert(uses_profile(all[n], default_profile, s, more[s]));
            } else {
                let i = choose|i: int|
                    0 <= i < front.len() && uses_profile(
                        #[trigger] front[i],
                        default_profile,
                        scope,
                        k[scope],
                    );
                assert(uses_profile(all[i], default_profile, scope, more[scope]));
            }
        }
    }
}

/// Records are accepted exactly where no scope would hold records of different
/// embedding profiles: the stored records agree among themselves, the added ones
/// do, where those without a profile count as using the current one, and no added
/// record of a scope differs from a stored one of that scope.
pub proof fn scopes_keep_to_one_profile(
    stored: Seq<RecordView>,
    added: Seq<RecordView>,
    current: Seq<char>,
)
    requires
        added.len() > 0,
    ensures
        new_profiles_problem(stored, added, current) is None <==> {
            &&& profiles_agree(stored, None)
            &&& profiles_agree(added, Some(current))
            &&& forall|i: int, j: int, scope: Seq<char>, p: Seq<char>, q: Seq<char>|
                0 <= i < stored.len() && 0 <= j < added.len() && #[trigger] uses_profile(
                    stored[i],
                    None,
                    scope,
                    p,
                ) && #[trigger] uses_profile(added[j], Some(current), scope, q) ==> p == q
        },
{
    let none = Map::<Seq<char>, Seq<char>>::empty();
    lemma_record_profiles(none, stored, None);
    match with_record_profiles(none, stored, None) {
        Err(_) => {
            assert(!profiles_agree(stored, None));
        },
        Ok(known) => {
            lemma_record_profiles(known, added, Some(current));
            match with_record_profiles(known, added, Some(current)) {
                Err(_) => {
                    if profiles_agree(added, Some(current)) {
                        let j = choose|j: int|
                            0 <= j < added.len() && contradicts(
                                known,
                                #[trigger] added[j],
                                Some(current),
                            );
                        let (s, q) = choose|s: Seq<char>, q: Seq<char>| #[trigger]
                            uses_profile(added[j], Some(current), s, q) && known.contains_key(s)
                                && known[s] != q;
                        let i = choose|i: int|
                            0 <= i < stored.len() && uses_profile(
                                #[trigger] stored[i],
                                None,
                                s,
                                known[s],
                            );
                        assert(uses_profile(stored[i], None, s, known[s]));
                    }
                },
                Ok(_) => {
                    assert forall|i: int, j: int, scope: Seq<char>, p: Seq<char>, q: Seq<char>|
                        0 <= i < stored.len() && 0 <= j < added.len() && #[trigger] uses_profile(
                            stored[i],
                            None,
                            scope,
                            p,
                        ) && #[trigger] uses_profile(
                            added[j],
                            Some(current),
                            scope,
                            q,
                        ) implies p == q by {
                        assert(!contradicts(known, added[j], Some(current)));
                    }
                },
            }
        },
    }
}

/// A search is refused exactly where a record that passes its filter, in a scope
/// that the record or the filter names, notes another profile than the current
/// one.
pub proof fn searches_keep_to_one_profile(
    stored: Seq<RecordView>,
    filter: Option<JsonView>,
    current: Seq<char>,
)
    ensures
        search_profile_problem(stored, filter, current) is None <==> forall|i: int|
            0 <= i < stored.len() && record::matches_filter(
                (#[trigger] stored[i]).metadata,
                filter,
            ) && profile_id_of(stored[i].metadata) is Some && (json::json_get_text(
                stored[i].metadata,
                "scope_id"@,
            ) is Some || (filter is Some && json::json_get_text(filter->0, "scope_id"@) is Some))
                ==> profile_id_of(stored[i].metadata) == Some(current),
    decreases stored.len(),
{
    if stored.len() > 0 {
        let front = stored.drop_last();
        searches_keep_to_one_profile(front, filter, current);
        if search_profile_problem(front, filter, current) is Some {
            let i = choose|i: int|
                0 <= i < front.len() && profile_differs(
                    (#[trigger] front[i]).metadata,
                    filter,
                    current,
                );
            assert(stored[i] == front[i]);
        } else {
            assert forall|i: int|
                0 <= i < front.len() implies !profile_differs(
                (#[trigger] stored[i]).metadata,
                filter,
                current,
            ) by {
                assert(front[i] == stored[i]);
            }
            assert(stored[stored.len() - 1] == stored.last());
        }
    }
}

/// A dense search measures the records that pass the filter, each of them and no
/// other, in their order. It is refused where one of them has another dimension
/// than the query.
pub proof fn dense_searches_measure_what_passes(
    records: Seq<RecordView>,
    filter: Option<JsonView>,
    query_dims: nat,
)
    ensures
        match dense_records(records, filter, query_dims) {
            Ok(found) => {
                &&& found == records.filter(
                    |r: RecordView| record::matches_filter(r.metadata, filter),
                )
                &&& forall|i: int|
                    0 <= i < found.len() ==> (#[trigger] found[i]).embedding.len() == query_dims
            },
            Err(_) => exists|i: int|
                0 <= i < records.len() && record::matches_filter(
                    (#[trigger] records[i]).metadata,
                    filter,
                ) && records[i].embedding.len() != query_dims,
        },
    decreases records.len(),
{
    reveal(Seq::filter);
    if records.len() > 0 {
        let front = records.drop_last();
        dense_searches_measure_what_passes(front, filter, query_dims);
        match dense_records(front, filter, query_dims) {
            Err(_) => {
                let i = choose|i: int|
                    0 <= i < front.len() && record::matches_filter(
                        (#[trigger] front[i]).metadata,
                        filter,
                    ) && front[i].embedding.len() != query_dims;
                assert(records[i] == front[i]);
            },
            Ok(_) => {
                assert(records[records.len() - 1] == records.last());
            },
        }
    } else {
        assert(dense_records(records, filter, query_dims)->Ok_0 =~= records.filter(
            |r: RecordView| record::matches_filter(r.metadata, filter),
        ));
    }
}

} // verus!
