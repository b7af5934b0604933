//! Memory records and the filters on their metadata.

use vstd::prelude::*;

use crate::json;
use crate::json::{Json, JsonView};

verus! {

/// A stored memory. The components of the embedding stand as their IEEE-754
/// bits.
#[derive(Debug)]
pub struct MemoryRecord {
    pub id: String,
    pub text: String,
    pub metadata: Json,
    pub embedding: Vec<u32>,
    pub created_at_ms: u64,
    pub updated_at_ms: u64,
}

/// What a [`MemoryRecord`] stands for.
pub struct RecordView {
    pub id: Seq<char>,
    pub text: Seq<char>,
    pub metadata: JsonView,
    pub embedding: Seq<u32>,
    pub created_at_ms: u64,
    pub updated_at_ms: u64,
}

impl View for MemoryRecord {
    type V = RecordView;

    open spec fn view(&self) -> RecordView {
        RecordView {
            id: self.id@,
            text: self.text@,
            metadata: self.metadata@,
            embedding: self.embedding@,
            created_at_ms: self.created_at_ms,
            updated_at_ms: self.updated_at_ms,
        }
    }
}

/// The records that a list holds.
pub open spec fn record_views(v: Seq<MemoryRecord>) -> Seq<RecordView> {
    Seq::new(v.len(), |i: int| v[i]@)
}

/// A copy of an embedding.
pub fn clone_bits(v: &Vec<u32>) -> (r: Vec<u32>)
    ensures
        r@ == v@,
{
    let mut r: Vec<u32> = Vec::new();
    let mut i: usize = 0;
    while i < v.len()
        invariant
            i <= v@.len(),
            r@ == v@.take(i as int),
        decreases v@.len() - i,
    {
        r.push(v[i]);
        i += 1;
        assert(r@ =~= v@.take(i as int));
    }
    assert(v@.take(i as int) =~= v@);
    r
}

impl Clone for MemoryRecord {
    fn clone(&self) -> (r: Self)
        ensures
            r@ == self@,
    {
        MemoryRecord {
            id: self.id.clone(),
            text: self.text.clone(),
            metadata: self.metadata.clone(),
            embedding: clone_bits(&self.embedding),
            created_at_ms: self.created_at_ms,
            updated_at_ms: self.updated_at_ms,
        }
    }
}

/// The scope that metadata names under `scope_id`.
pub fn extract_scope_id(metadata: &Json) -> (r: Option<String>)
    ensures
        json::opt_string(r) == json::json_get_text(metadata@, "scope_id"@),
{
    match metadata.get_str("scope_id") {
        Some(scope) => Some(scope.to_owned()),
        None => None,
    }
}

/// The scope that a filter names under `scope_id`.
pub fn extract_scope_id_from_filter(filter: Option<&Json>) -> (r: Option<String>)
    ensures
        json::opt_string(r) == (match filter {
            Some(f) => json::json_get_text(f@, "scope_id"@),
            None => None,
        }),
{
    match filter {
        Some(f) => extract_scope_id(f),
        None => None,
    }
}

/// Whether metadata passes a filter. Every member of the filter must be found
/// in the metadata with the same value. No filter, and a filter that is no
/// object, lets everything pass; metadata that is no object passes no other
/// filter.
pub open spec fn matches_filter(metadata: JsonView, filter: Option<JsonView>) -> bool {
    match filter {
        Some(JsonView::Object(wanted)) => {
            &&& metadata is Object
            &&& forall|i: int|
                0 <= i < wanted.len() ==> (match json::json_get(metadata, (#[trigger] wanted[i]).0) {
                    Some(v) => json::same_value(v, wanted[i].1),
                    None => false,
                })
        },
        _ => true,
    }
}

/// Whether metadata passes one of several filters.
pub open spec fn matches_any_filter(metadata: JsonView, filters: Seq<JsonView>) -> bool {
    exists|i: int| 0 <= i < filters.len() && matches_filter(metadata, Some(#[trigger] filters[i]))
}

pub fn metadata_matches(metadata: &Json, filter: Option<&Json>) -> (r: bool)
    ensures
        r == matches_filter(metadata@, json::opt_json(filter)),
{
    let f = match filter {
        Some(f) => f,
        None => {
            return true;
        },
    };
    match f {
        Json::Object(wanted) => {
            proof {
                json::lemma_object_view(*wanted);
            }
            if !metadata.is_object() {
                return false;
            }
            let ghost all = json::member_views(wanted@);
            let mut i: usize = 0;
            while i < wanted.len()
                invariant
                    i <= wanted@.len(),
                    metadata@ is Object,
                    all == json::member_views(wanted@),
                    filter == Some(f),
                    f@ == JsonView::Object(all),
                    forall|k: int|
                        0 <= k < i ==> (match json::json_get(metadata@, (#[trigger] all[k]).0) {
                            Some(v) => json::same_value(v, all[k].1),
                            None => false,
                        }),
                decreases wanted@.len() - i,
            {
                assert(all[i as int] == (wanted@[i as int].0@, wanted@[i as int].1@));
                match metadata.get(wanted[i].0.as_str()) {
                    Some(v) => {
                        if !v.same(&wanted[i].1) {
                            return false;
                        }
                    },
                    None => {
                        return false;
                    },
                }
                i += 1;
            }
            true
        },
        _ => true,
    }
}

pub fn metadata_matches_any(metadata: &Json, filters: &Vec<Json>) -> (r: bool)
    ensures
        r == matches_any_filter(metadata@, json::json_views(filters@)),
{
    let mut i: usize = 0;
    while i < filters.len()
        invariant
            i <= filters@.len(),
            forall|k: int|
                0 <= k < i ==> !matches_filter(
                    metadata@,
                    Some(#[trigger] json::json_views(filters@)[k]),
                ),
        decreases filters@.len() - i,
    {
        assert(json::json_views(filters@)[i as int] == filters@[i as int]@);
        if metadata_matches(metadata, Some(&filters[i])) {
            return true;
        }
        i += 1;
    }
    false
}

/// A filter with more members lets no more through: what passes a filter
/// passes it without its last member too.
pub proof fn longer_filters_are_stricter(
    metadata: JsonView,
    wanted: Seq<(Seq<char>, JsonView)>,
)
    requires
        wanted.len() > 0,
        matches_filter(metadata, Some(JsonView::Object(wanted))),
    ensures
        matches_filter(metadata, Some(JsonView::Object(wanted.drop_last()))),
{
    let fewer = wanted.drop_last();
    assert forall|i: int| 0 <= i < fewer.len() implies (match json::json_get(
        metadata,
        (#[trigger] fewer[i]).0,
    ) {
        Some(v) => json::same_value(v, fewer[i].1),
        None => false,
    }) by {
        assert(fewer[i] == wanted[i]);
    }
}

/// Metadata passes a filter that is an object exactly where it is an object too
/// and holds, under each key of the filter, what the filter holds. It passes any
/// other filter, and none at all.
pub proof fn filters_demand_what_they_hold(metadata: JsonView, filter: Option<JsonView>)
    ensures
        matches_filter(metadata, None),
        filter is Some && !(filter->0 is Object) ==> matches_filter(metadata, filter),
        filter is Some && filter->0 is Object ==> (matches_filter(metadata, filter) <==> metadata
            is Object && forall|i: int|
            0 <= i < filter->0->Object_0.len() ==> holds_same(
                metadata,
                (#[trigger] filter->0->Object_0[i]).0,
                filter->0->Object_0[i].1,
            )),
{
    if filter is Some && filter->0 is Object {
        let wanted = filter->0->Object_0;
        if matches_filter(metadata, filter) {
            assert forall|i: int| 0 <= i < wanted.len() implies holds_same(
                metadata,
                (#[trigger] wanted[i]).0,
                wanted[i].1,
            ) by {
                let v = json::json_get(metadata, wanted[i].0)->0;
                assert(json::same_value(v, wanted[i].1));
            }
        } else if metadata is Object && forall|i: int|
            0 <= i < wanted.len() ==> holds_same(metadata, (#[trigger] wanted[i]).0, wanted[i].1) {
            assert forall|i: int| 0 <= i < wanted.len() implies (match json::json_get(
                metadata,
                (#[trigger] wanted[i]).0,
            ) {
                Some(v) => json::same_value(v, wanted[i].1),
                None => false,
            }) by {
                assert(holds_same(metadata, wanted[i].0, wanted[i].1));
            }
        }
    }
}

/// Whether metadata holds a value under a key.
pub open spec fn holds_same(metadata: JsonView, key: Seq<char>, value: JsonView) -> bool {
    exists|v: JsonView|
        json::json_get(metadata, key) == Some(v) && #[trigger] json::same_value(v, value)
}

} // verus!
