//! The benchmark runner: which memories and queries a dataset holds, which of
//! them are new, and to which memory space they belong.

use vstd::prelude::*;
use vstd::string::*;

use crate::json;
use crate::json::{read_json, Json, JsonView};
use crate::text;
use crate::text::{
    find_char, from_chars, parse_number, push_decimal, text_eq, text_starts_with, to_chars, trim,
};

verus! {

/// How the memory space of a memory or a query is found.
#[derive(Clone, Copy, Debug, PartialEq, Eq, Structural)]
pub enum GraphMemorySpaceMode {
    Auto,
    MetadataField,
    PathPrefix,
}

/// The settings of a run that concern the memory graph.
#[derive(Clone, Debug)]
pub struct GraphOptions {
    /// Whether the graph of the added memories is built.
    pub build: bool,
    /// Whether searches ask the graph.
    pub search: bool,
    pub memory_space_mode: GraphMemorySpaceMode,
    pub memory_space_field: String,
    pub owner_id: String,
}

/// The concurrency that an argument asks for: a positive number.
pub open spec fn concurrency_of(value: Seq<char>) -> Result<usize, Seq<char>> {
    match text::parsed_number(value) {
        Some(n) if n <= usize::MAX => if n == 0 {
            Err("must be at least 1"@)
        } else {
            Ok(n as usize)
        },
        _ => Err("must be a positive integer"@),
    }
}

/// What a result stands for whose error is a sentence.
pub open spec fn outcome<T>(r: Result<T, String>) -> Result<T, Seq<char>> {
    match r {
        Ok(v) => Ok(v),
        Err(e) => Err(e@),
    }
}

pub fn parse_graph_build_concurrency(value: &str) -> (r: Result<usize, String>)
    ensures
        outcome(r) == concurrency_of(value@),
{
    match parse_number(value, usize::MAX as u64) {
        Some(n) => if n == 0 {
            Err("must be at least 1".to_owned())
        } else {
            Ok(n as usize)
        },
        None => Err("must be a positive integer".to_owned()),
    }
}

/// The memory space that a value names under a field: a text that is not
/// blank. Anything but a text is an error.
pub open spec fn space_under(v: JsonView, field: Seq<char>) -> Result<Option<Seq<char>>, Seq<char>> {
    match json::json_get(v, field) {
        None => Ok(None),
        Some(JsonView::Text(t)) => Ok(
            if text::is_blank(t) {
                None
            } else {
                Some(text::trimmed(t))
            },
        ),
        Some(_) => Err("graph memory space field `"@ + field + "` must be a string"@),
    }
}

pub open spec fn space_outcome(r: Result<Option<String>, String>) -> Result<
    Option<Seq<char>>,
    Seq<char>,
> {
    match r {
        Ok(v) => Ok(json::opt_string(v)),
        Err(e) => Err(e@),
    }
}

pub fn metadata_string_field(value: &Json, field: &str) -> (r: Result<Option<String>, String>)
    ensures
        space_outcome(r) == space_under(value@, field@),
{
    match value.get(field) {
        None => Ok(None),
        Some(Json::Text(t)) => {
            let named = trim(t.as_str());
            if named.is_empty() {
                Ok(None)
            } else {
                Ok(Some(named.to_owned()))
            }
        },
        Some(_) => {
            let mut message = "graph memory space field `".to_owned();
            message.append(field);
            message.append("` must be a string");
            Err(message)
        },
    }
}

/// The part of a path behind `lead` and before the next closing bracket.
pub open spec fn bracketed(path: Seq<char>, lead: Seq<char>) -> Option<Seq<char>> {
    if text::starts_with(path, lead) {
        let rest = path.skip(lead.len() as int);
        let end = text::char_position(rest, ']');
        if end < rest.len() {
            Some(rest.take(end))
        } else {
            None
        }
    } else {
        None
    }
}

fn bracketed_part(path: &str, lead: &str) -> (r: Option<String>)
    ensures
        json::opt_string(r) == bracketed(path@, lead@),
{
    if !text_starts_with(path, lead) {
        return None;
    }
    let chars = to_chars(path);
    let n: usize = to_chars(lead).len();
    let end = find_char(&chars, ']', n);
    if end < chars.len() {
        let part = from_chars(&chars, n, end);
        assert(part@ =~= path@.skip(n as int).take(end - n));
        Some(part)
    } else {
        None
    }
}

/// The memory space of a path into a top-level array: one for each of its
/// items.
pub open spec fn array_space(path: Seq<char>) -> Option<Seq<char>> {
    match bracketed(path, "$["@) {
        Some(index) => match text::parsed_number(index) {
            Some(n) if n <= usize::MAX => Some("path:$["@ + index + "]"@),
            _ => None,
        },
        None => None,
    }
}

pub fn top_level_array_space(path: &str) -> (r: Option<String>)
    ensures
        json::opt_string(r) == array_space(path@),
{
    match bracketed_part(path, "$[") {
        Some(index) => match parse_number(index.as_str(), usize::MAX as u64) {
            Some(_) => {
                let mut space = "path:$[".to_owned();
                space.append(index.as_str());
                space.append("]");
                Some(space)
            },
            None => None,
        },
        None => None,
    }
}

/// The memory space of a memory.
pub open spec fn memory_space(
    path: Seq<char>,
    metadata: JsonView,
    is_prepared: bool,
    o: GraphOptions,
) -> Result<Option<Seq<char>>, Seq<char>> {
    match o.memory_space_mode {
        GraphMemorySpaceMode::MetadataField => space_under(metadata, o.memory_space_field@),
        GraphMemorySpaceMode::PathPrefix => Ok(array_space(path)),
        GraphMemorySpaceMode::Auto => if is_prepared {
            space_under(metadata, o.memory_space_field@)
        } else {
            Ok(array_space(path))
        },
    }
}

pub fn graph_memory_space_for_memory(
    path: &str,
    metadata: &Json,
    is_prepared: bool,
    options: &GraphOptions,
) -> (r: Result<Option<String>, String>)
    ensures
        space_outcome(r) == memory_space(path@, metadata@, is_prepared, *options),
{
    match options.memory_space_mode {
        GraphMemorySpaceMode::MetadataField => metadata_string_field(
            metadata,
            options.memory_space_field.as_str(),
        ),
        GraphMemorySpaceMode::PathPrefix => Ok(top_level_array_space(path)),
        GraphMemorySpaceMode::Auto => if is_prepared {
            metadata_string_field(metadata, options.memory_space_field.as_str())
        } else {
            Ok(top_level_array_space(path))
        },
    }
}

/// The memory space that a filter names.
pub open spec fn filter_space(filter: Option<JsonView>, field: Seq<char>) -> Result<
    Option<Seq<char>>,
    Seq<char>,
> {
    match filter {
        Some(f) => space_under(f, field),
        None => Ok(None),
    }
}

/// The memory space of a query.
pub open spec fn query_space(
    path: Seq<char>,
    filter: Option<JsonView>,
    is_prepared: bool,
    o: GraphOptions,
) -> Result<Option<Seq<char>>, Seq<char>> {
    match o.memory_space_mode {
        GraphMemorySpaceMode::MetadataField => filter_space(filter, o.memory_space_field@),
        GraphMemorySpaceMode::PathPrefix => Ok(array_space(path)),
        GraphMemorySpaceMode::Auto => if !is_prepared && array_space(path) is Some {
            Ok(array_space(path))
        } else {
            filter_space(filter, o.memory_space_field@)
        },
    }
}

fn filter_string_field(filter: Option<&Json>, field: &str) -> (r: Result<Option<String>, String>)
    ensures
        space_outcome(r) == filter_space(json::opt_json(filter), field@),
{
    match filter {
        Some(f) => metadata_string_field(f, field),
        None => Ok(None),
    }
}

pub fn graph_memory_space_for_query(
    path: &str,
    filter: Option<&Json>,
    is_prepared: bool,
    options: &GraphOptions,
) -> (r: Result<Option<String>, String>)
    ensures
        space_outcome(r) == query_space(path@, json::opt_json(filter), is_prepared, *options),
{
    match options.memory_space_mode {
        GraphMemorySpaceMode::MetadataField => filter_string_field(
            filter,
            options.memory_space_field.as_str(),
        ),
        GraphMemorySpaceMode::PathPrefix => Ok(top_level_array_space(path)),
        GraphMemorySpaceMode::Auto => {
            if !is_prepared {
                let space = top_level_array_space(path);
                if space.is_some() {
                    return Ok(space);
                }
            }
            filter_string_field(filter, options.memory_space_field.as_str())
        },
    }
}

/// The space that a prepared memory goes to by its metadata is the space that
/// a prepared query with the same field in its filter looks into.
pub proof fn prepared_queries_reach_their_memories(
    memory_path: Seq<char>,
    metadata: JsonView,
    query_path: Seq<char>,
    filter: JsonView,
    o: GraphOptions,
)
    requires
        o.memory_space_mode != GraphMemorySpaceMode::PathPrefix,
        json::json_get(metadata, o.memory_space_field@) == json::json_get(
            filter,
            o.memory_space_field@,
        ),
    ensures
        memory_space(memory_path, metadata, true, o) == query_space(
            query_path,
            Some(filter),
            true,
            o,
        ),
{
}

/// The id that a result goes by: the one that its metadata notes, if that is
/// not blank, or else the record's.
pub open spec fn output_id(record_id: Seq<char>, metadata: JsonView) -> Seq<char> {
    match json::json_get_text(metadata, "benchmark_memory_id"@) {
        Some(id) if !text::is_blank(id) => id,
        _ => record_id,
    }
}

pub fn search_output_id(record_id: &str, metadata: &Json) -> (r: String)
    ensures
        r@ == output_id(record_id@, metadata@),
{
    match metadata.get_str("benchmark_memory_id") {
        Some(id) => if trim(id).is_empty() {
            record_id.to_owned()
        } else {
            id.to_owned()
        },
        None => record_id.to_owned(),
    }
}

/// An object with `value` under `key` unless it holds something there.
pub open spec fn with_default(v: JsonView, key: Seq<char>, value: JsonView) -> JsonView {
    if json::json_get(v, key) is Some {
        v
    } else {
        json::json_put(v, key, value)
    }
}

pub fn insert_default_metadata(target: &mut Json, key: &str, value: Json)
    ensures
        final(target)@ == with_default(old(target)@, key@, value@),
{
    if target.get(key).is_none() {
        target.put(key, value);
    }
}

/// An object with the first `n` members of another put into it.
pub open spec fn with_members(v: JsonView, members: Seq<(Seq<char>, JsonView)>) -> JsonView
    decreases members.len(),
{
    if members.len() == 0 {
        v
    } else {
        json::json_put(
            with_members(v, members.drop_last()),
            members.last().0,
            members.last().1,
        )
    }
}

/// `target` with the members of `extra`, which take precedence. Unless both
/// are objects, `target` stays as it is.
pub open spec fn merged_metadata(target: JsonView, extra: JsonView) -> JsonView {
    match extra {
        JsonView::Object(members) => if target is Object {
            with_members(target, members)
        } else {
            target
        },
        _ => target,
    }
}

proof fn lemma_with_members_is_object(v: JsonView, members: Seq<(Seq<char>, JsonView)>)
    requires
        v is Object,
    ensures
        with_members(v, members) is Object,
    decreases members.len(),
{
    if members.len() > 0 {
        lemma_with_members_is_object(v, members.drop_last());
    }
}

pub fn merge_metadata(target: &mut Json, extra: &Json)
    ensures
        final(target)@ == merged_metadata(old(target)@, extra@),
{
    match extra {
        Json::Object(members) => {
            proof {
                json::lemma_object_view(*members);
            }
            if !target.is_object() {
                return;
            }
            let ghost all = json::member_views(members@);
            let ghost start = target@;
            let mut i: usize = 0;
            assert(all.take(0) =~= Seq::empty());
            while i < members.len()
                invariant
                    i <= members@.len(),
                    all == json::member_views(members@),
                    target@ == with_members(start, all.take(i as int)),
                decreases members@.len() - i,
            {
                assert(all.take(i + 1).drop_last() =~= all.take(i as int));
                assert(all.take(i + 1).last() == all[i as int]);
                let value = members[i].1.clone();
                target.put(members[i].0.as_str(), value);
                i += 1;
            }
            assert(all.take(i as int) =~= all);
        },
        _ => {},
    }
}

/// A member of merged metadata is that of the metadata that takes precedence,
/// and where that has none, the one that was there.
pub proof fn merged_metadata_prefers_extra(
    target: JsonView,
    members: Seq<(Seq<char>, JsonView)>,
    key: Seq<char>,
)
    requires
        target is Object,
        json::sorted_keys(members),
    ensures
        json::json_get(merged_metadata(target, JsonView::Object(members)), key) == (
        match json::member_get(members, key) {
            Some(v) => Some(v),
            None => json::json_get(target, key),
        }),
    decreases members.len(),
{
    if members.len() > 0 {
        let front = members.drop_last();
        assert(json::sorted_keys(front)) by {
            assert forall|i: int, j: int| 0 <= i < j < front.len() implies text::text_before(
                #[trigger] front[i].0,
                #[trigger] front[j].0,
            ) by {
                assert(front[i] == members[i] && front[j] == members[j]);
            }
        }
        merged_metadata_prefers_extra(target, front, key);
        lemma_with_members_is_object(target, front);
        let last = members.last();
        json::put_then_get(with_members(target, front), last.0, last.1, key);
        json::lemma_member_index_bounds(members, key);
        json::lemma_member_index_bounds(front, key);
        let i = json::member_index(members, key);
        let f = json::member_index(front, key);
        if key == last.0 {
            if i < members.len() - 1 {
                assert(text::text_before(members[i].0, members[members.len() - 1].0));
                text::text_before_is_total(key, key);
            } else if i == members.len() {
                assert(members[members.len() - 1].0 != key);
            }
        } else {
            if f < front.len() {
                assert(members[f] == front[f]);
                if i < f {
                    assert(front[i] == members[i]);
                } else if f < i {
                    assert(members[f].0 != key);
                }
            } else if i < members.len() {
                assert(i < front.len());
                assert(front[i] == members[i]);
            }
        }
    }
}

/// The metadata of a prepared memory: what is not noted is added.
pub open spec fn prepared_metadata(
    metadata: JsonView,
    memory_id: Seq<char>,
    dataset: Seq<char>,
    path: Seq<char>,
    field: Seq<char>,
) -> JsonView {
    let a = with_default(metadata, "benchmark_memory_id"@, JsonView::Text(memory_id));
    let b = with_default(a, "dataset"@, JsonView::Text(dataset));
    let c = with_default(b, "path"@, JsonView::Text(path));
    with_default(c, "field"@, JsonView::Text(field))
}

pub fn prepared_memory_metadata(
    metadata: &Json,
    memory_id: &str,
    dataset: &str,
    path: &str,
    field: &str,
) -> (r: Json)
    ensures
        r@ == prepared_metadata(metadata@, memory_id@, dataset@, path@, field@),
{
    let mut r = metadata.clone();
    insert_default_metadata(
        &mut r,
        "benchmark_memory_id",
        Json::Text(memory_id.to_owned()),
    );
    insert_default_metadata(&mut r, "dataset", Json::Text(dataset.to_owned()));
    insert_default_metadata(&mut r, "path", Json::Text(path.to_owned()));
    insert_default_metadata(&mut r, "field", Json::Text(field.to_owned()));
    r
}

/// Checks that a filter is an object.
pub fn check_filter(filter: &Json) -> (r: Result<(), String>)
    ensures
        match r {
            Ok(_) => filter@ is Object,
            Err(e) => !(filter@ is Object) && e@
                == "--filter must be a JSON object, for example: {\"shared_context_id\":\"...\"}"@,
        },
{
    if filter.is_object() {
        Ok(())
    } else {
        Err(
            "--filter must be a JSON object, for example: {\"shared_context_id\":\"...\"}".to_owned(),
        )
    }
}

/// What a filter on the command line says, or what is wrong with it, given what
/// its text is read as.
pub open spec fn filter_outcome(
    raw: Seq<char>,
    parsed: Result<JsonView, Seq<char>>,
) -> Result<JsonView, Seq<char>> {
    match parsed {
        Ok(v) => if v is Object {
            Ok(v)
        } else {
            Err("--filter must be a JSON object, for example: {\"shared_context_id\":\"...\"}"@)
        },
        Err(e) => Err("invalid --filter JSON: "@ + raw + ": "@ + e),
    }
}

/// What follows from what a filter is read as.
pub fn judge_filter(raw: &str, parsed: Result<Json, String>) -> (r: Result<Json, String>)
    ensures
        filter_outcome(
            raw@,
            match parsed {
                Ok(v) => Ok(v@),
                Err(e) => Err(e@),
            },
        ) == (match r {
            Ok(v) => Ok::<JsonView, Seq<char>>(v@),
            Err(e) => Err(e@),
        }),
{
    match parsed {
        Ok(filter) => match check_filter(&filter) {
            Ok(_) => Ok(filter),
            Err(e) => Err(e),
        },
        Err(e) => {
            let mut message = "invalid --filter JSON: ".to_owned();
            message.append(raw);
            message.append(": ");
            message.append(e.as_str());
            Err(message)
        },
    }
}

/// Reads the filter of the command line, which must be a JSON object.
pub fn parse_filter(raw: Option<&str>) -> (r: Result<Option<Json>, String>)
    ensures
        match raw {
            None => r == Ok::<Option<Json>, String>(None),
            Some(t) => filter_outcome(t@, json::parsed_json(t@)) == (match r {
                Ok(Some(v)) => Ok::<JsonView, Seq<char>>(v@),
                Ok(None) => Ok(JsonView::Null),
                Err(e) => Err(e@),
            }) && r != Ok::<Option<Json>, String>(None),
        },
{
    match raw {
        None => Ok(None),
        Some(t) => match judge_filter(t, read_json(t)) {
            Ok(filter) => Ok(Some(filter)),
            Err(e) => Err(e),
        },
    }
}

/// Whether a dataset is in the prepared form.
pub fn is_prepared_schema_v1(value: &Json) -> (r: bool)
    ensures
        r == (json::json_get_text(value@, "schema_version"@) == Some("benchmark-prepared-v1"@)),
{
    match value.get_str("schema_version") {
        Some(version) => text_eq(version, "benchmark-prepared-v1"),
        None => false,
    }
}

/// The object that a value holds under a field; anything else that stands
/// there is an error.
pub open spec fn object_under(v: JsonView, field: Seq<char>, context: Seq<char>) -> Result<
    Option<JsonView>,
    Seq<char>,
> {
    match json::json_get(v, field) {
        None => Ok(None),
        Some(o) => if o is Object {
            Ok(Some(o))
        } else {
            Err(context + "."@ + field + " must be a JSON object when present"@)
        },
    }
}

pub open spec fn opt_owned(o: Option<Json>) -> Option<JsonView> {
    match o {
        Some(v) => Some(v@),
        None => None,
    }
}

pub fn optional_object_field(object: &Json, field: &str, context: &str) -> (r: Result<
    Option<Json>,
    String,
>)
    ensures
        match r {
            Ok(o) => object_under(object@, field@, context@) == Ok::<_, Seq<char>>(opt_owned(o)),
            Err(e) => object_under(object@, field@, context@) == Err::<Option<JsonView>, _>(e@),
        },
{
    match object.get(field) {
        None => Ok(None),
        Some(value) => if value.is_object() {
            Ok(Some(value.clone()))
        } else {
            let mut message = context.to_owned();
            message.append(".");
            message.append(field);
            message.append(" must be a JSON object when present");
            Err(message)
        },
    }
}

/// A text of a dataset, with the path to it.
#[derive(Debug)]
pub struct TextItem {
    pub path: String,
    pub field: String,
    pub text: String,
    pub metadata: Json,
}

/// What a [`TextItem`] stands for.
pub struct TextItemView {
    pub path: Seq<char>,
    pub field: Seq<char>,
    pub text: Seq<char>,
    pub metadata: JsonView,
}

impl View for TextItem {
    type V = TextItemView;

    open spec fn view(&self) -> TextItemView {
        TextItemView {
            path: self.path@,
            field: self.field@,
            text: self.text@,
            metadata: self.metadata@,
        }
    }
}

pub open spec fn item_views(v: Seq<TextItem>) -> Seq<TextItemView> {
    Seq::new(v.len(), |i: int| v[i]@)
}

/// The turn of the conversation that a path leads into.
pub open spec fn conversation_index(path: Seq<char>) -> Option<u64> {
    match bracketed(path, "$.conversation["@) {
        Some(index) => match text::parsed_number(index) {
            Some(n) if n <= u64::MAX => Some(n as u64),
            _ => None,
        },
        None => None,
    }
}

pub fn parse_conversation_index(path: &str) -> (r: Option<u64>)
    ensures
        r == conversation_index(path@),
{
    match bracketed_part(path, "$.conversation[") {
        Some(index) => parse_number(index.as_str(), u64::MAX),
        None => None,
    }
}

/// An object with the member of another under `key`, if it has one.
pub open spec fn with_member_of(v: JsonView, source: JsonView, key: Seq<char>) -> JsonView {
    match json::json_get(source, key) {
        Some(value) => json::json_put(v, key, value),
        None => v,
    }
}

/// What is noted of a text of a conversation: its turn, its speaker and the
/// context that it shares. Of any other text nothing is noted.
pub open spec fn item_metadata(object: JsonView, item_path: Seq<char>) -> JsonView {
    match conversation_index(item_path) {
        Some(n) => json::json_put(
            with_member_of(
                with_member_of(json::empty_object(), object, "shared_context_id"@),
                object,
                "speaker"@,
            ),
            "conversation_index"@,
            JsonView::Unsigned(n),
        ),
        None => json::empty_object(),
    }
}

fn copy_member(target: &mut Json, source: &Json, key: &str)
    ensures
        final(target)@ == with_member_of(old(target)@, source@, key@),
{
    match source.get(key) {
        Some(value) => {
            let copy = value.clone();
            target.put(key, copy);
        },
        None => {},
    }
}

pub fn collect_item_metadata(object: &Json, item_path: &str) -> (r: Json)
    ensures
        r@ == item_metadata(object@, item_path@),
{
    let mut r = Json::new_object();
    match parse_conversation_index(item_path) {
        Some(n) => {
            copy_member(&mut r, object, "shared_context_id");
            copy_member(&mut r, object, "speaker");
            r.put("conversation_index", Json::Unsigned(n));
        },
        None => {},
    }
    r
}

/// The texts that an object holds under the first `n` fields, in the order of
/// the fields: those that are not blank.
pub open spec fn own_texts(v: JsonView, path: Seq<char>, fields: Seq<Seq<char>>) -> Seq<
    TextItemView,
>
    decreases fields.len(),
{
    if fields.len() == 0 {
        Seq::empty()
    } else {
        let before = own_texts(v, path, fields.drop_last());
        let field = fields.last();
        match json::json_get_text(v, field) {
            Some(t) if !text::is_blank(t) => {
                let item_path = path + "."@ + field;
                before.push(
                    TextItemView {
                        path: item_path,
                        field,
                        text: text::trimmed(t),
                        metadata: item_metadata(v, item_path),
                    },
                )
            },
            _ => before,
        }
    }
}

/// The texts that a value holds under the fields, at any depth: those of an
/// object before those of its members, members and items in their order.
pub open spec fn texts_in(v: JsonView, path: Seq<char>, fields: Seq<Seq<char>>) -> Seq<
    TextItemView,
>
    decreases v, 1nat, 0nat,
{
    match v {
        JsonView::Object(members) => own_texts(v, path, fields) + texts_in_members(
            v,
            path,
            fields,
            members.len(),
        ),
        JsonView::Array(items) => texts_in_items(v, path, fields, items.len()),
        _ => Seq::empty(),
    }
}

/// The texts in the first `n` members of an object.
pub open spec fn texts_in_members(
    v: JsonView,
    path: Seq<char>,
    fields: Seq<Seq<char>>,
    n: nat,
) -> Seq<TextItemView>
    decreases v, 0nat, n,
{
    match v {
        JsonView::Object(members) => if n == 0 || n > members.len() {
            Seq::empty()
        } else {
            texts_in_members(v, path, fields, (n - 1) as nat) + texts_in(
                members[n - 1].1,
                path + "."@ + members[n - 1].0,
                fields,
            )
        },
        _ => Seq::empty(),
    }
}

/// The texts in the first `n` items of an array.
pub open spec fn texts_in_items(
    v: JsonView,
    path: Seq<char>,
    fields: Seq<Seq<char>>,
    n: nat,
) -> Seq<TextItemView>
    decreases v, 0nat, n,
{
    match v {
        JsonView::Array(items) => if n == 0 || n > items.len() {
            Seq::empty()
        } else {
            texts_in_items(v, path, fields, (n - 1) as nat) + texts_in(
                items[n - 1],
                path + "["@ + text::decimal_text((n - 1) as nat) + "]"@,
                fields,
            )
        },
        _ => Seq::empty(),
    }
}

fn member_path(path: &str, key: &str) -> (r: String)
    ensures
        r@ == path@ + "."@ + key@,
{
    let mut r = path.to_owned();
    r.append(".");
    r.append(key);
    r
}

fn item_path(path: &str, index: usize) -> (r: String)
    ensures
        r@ == path@ + "["@ + text::decimal_text(index as nat) + "]"@,
{
    let mut r = path.to_owned();
    r.append("[");
    push_decimal(&mut r, index as u64);
    r.append("]");
    r
}

/// Appends the texts that a value holds under the fields.
pub fn collect_field_texts(
    value: &Json,
    path: &str,
    fields: &Vec<String>,
    output: &mut Vec<TextItem>,
)
    ensures
        item_views(final(output)@) == item_views(old(output)@) + texts_in(
            value@,
            path@,
            text::strings(fields@),
        ),
    decreases value,
{
    let ghost start = item_views(output@);
    let ghost names = text::strings(fields@);
    match value {
        Json::Object(members) => {
            proof {
                json::lemma_object_view(*members);
            }
            let mut f: usize = 0;
            assert(names.take(0) =~= Seq::empty());
            assert(start + own_texts(value@, path@, names.take(0)) =~= start);
            while f < fields.len()
                invariant
                    f <= fields@.len(),
                    names == text::strings(fields@),
                    item_views(output@) == start + own_texts(value@, path@, names.take(f as int)),
                decreases fields@.len() - f,
            {
                let ghost before = item_views(output@);
                assert(names.take(f + 1).drop_last() =~= names.take(f as int));
                assert(names.take(f + 1).last() == fields@[f as int]@);
                match value.get_str(fields[f].as_str()) {
                    Some(t) => {
                        let trimmed = trim(t);
                        if !trimmed.is_empty() {
                            let at = member_path(path, fields[f].as_str());
                            let item = TextItem {
                                metadata: collect_item_metadata(value, at.as_str()),
                                path: at,
                                field: fields[f].clone(),
                                text: trimmed.to_owned(),
                            };
                            output.push(item);
                            assert(item_views(output@) =~= before.push(item@));
                        }
                    },
                    None => {},
                }
                assert(item_views(output@) =~= start + own_texts(
                    value@,
                    path@,
                    names.take(f + 1),
                ));
                f += 1;
            }
            assert(names.take(f as int) =~= names);
            let ghost own = item_views(output@);
            let mut i: usize = 0;
            assert(own + texts_in_members(value@, path@, names, 0) =~= own);
            while i < members.len()
                invariant
                    i <= members@.len(),
                    names == text::strings(fields@),
                    *value == Json::Object(*members),
                    value@ == JsonView::Object(json::member_views(members@)),
                    item_views(output@) == own + texts_in_members(value@, path@, names, i as nat),
                decreases members@.len() - i,
            {
                assert(decreases_to!(*value => value->Object_0@[i as int].1));
                assert(json::member_views(members@)[i as int] == (
                    members@[i as int].0@,
                    members@[i as int].1@,
                ));
                let at = member_path(path, members[i].0.as_str());
                collect_field_texts(&members[i].1, at.as_str(), fields, output);
                i += 1;
                assert(item_views(output@) =~= own + texts_in_members(
                    value@,
                    path@,
                    names,
                    i as nat,
                ));
            }
        },
        Json::Array(items) => {
            proof {
                json::lemma_array_view(*items);
            }
            let mut i: usize = 0;
            assert(start + texts_in_items(value@, path@, names, 0) =~= start);
            while i < items.len()
                invariant
                    i <= items@.len(),
                    names == text::strings(fields@),
                    *value == Json::Array(*items),
                    value@ == JsonView::Array(json::json_views(items@)),
                    item_views(output@) == start + texts_in_items(value@, path@, names, i as nat),
                decreases items@.len() - i,
            {
                assert(decreases_to!(*value => value->Array_0@[i as int]));
                assert(json::json_views(items@)[i as int] == items@[i as int]@);
                let at = item_path(path, i);
                collect_field_texts(&items[i], at.as_str(), fields, output);
                i += 1;
                assert(item_views(output@) =~= start + texts_in_items(
                    value@,
                    path@,
                    names,
                    i as nat,
                ));
            }
        },
        _ => {},
    }
    assert(item_views(output@) =~= start + texts_in(value@, path@, names));
}

} // verus!
