//! JSON values, as the metadata of memories and requests holds them.

use vstd::prelude::*;
use vstd::string::*;

use crate::text;
use crate::text::{text_eq, text_less};

verus! {

/// A JSON value. A number is a natural number, a negative integer, or a
/// floating-point number by its shortest decimal text, the one that it is
/// printed with. An object lists its members, each under a key of its own.
#[derive(Debug)]
pub enum Json {
    Null,
    Bool(bool),
    Unsigned(u64),
    Negative(i64),
    Float(String),
    Text(String),
    Array(Vec<Json>),
    Object(Vec<(String, Json)>),
}

/// What a [`Json`] value stands for.
pub enum JsonView {
    Null,
    Bool(bool),
    Unsigned(u64),
    Negative(i64),
    Float(Seq<char>),
    Text(Seq<char>),
    Array(Seq<JsonView>),
    Object(Seq<(Seq<char>, JsonView)>),
}

pub open spec fn json_view(j: Json) -> JsonView
    decreases j,
{
    match j {
        Json::Null => JsonView::Null,
        Json::Bool(b) => JsonView::Bool(b),
        Json::Unsigned(n) => JsonView::Unsigned(n),
        Json::Negative(n) => JsonView::Negative(n),
        Json::Float(t) => JsonView::Float(t@),
        Json::Text(t) => JsonView::Text(t@),
        Json::Array(items) => JsonView::Array(
            Seq::new(
                items@.len(),
                |i: int|
                    if 0 <= i < items@.len() {
                        json_view(items@[i])
                    } else {
                        JsonView::Null
                    },
            ),
        ),
        Json::Object(members) => JsonView::Object(
            Seq::new(
                members@.len(),
                |i: int|
                    if 0 <= i < members@.len() {
                        (members@[i].0@, json_view(members@[i].1))
                    } else {
                        (Seq::empty(), JsonView::Null)
                    },
            ),
        ),
    }
}

impl View for Json {
    type V = JsonView;

    open spec fn view(&self) -> JsonView {
        json_view(*self)
    }
}

/// The values that a list of JSON values stands for.
pub open spec fn json_views(items: Seq<Json>) -> Seq<JsonView> {
    Seq::new(items.len(), |i: int| items[i]@)
}

/// The members that a list of object members stands for.
pub open spec fn member_views(members: Seq<(String, Json)>) -> Seq<(Seq<char>, JsonView)> {
    Seq::new(members.len(), |i: int| (members[i].0@, members[i].1@))
}

pub proof fn lemma_array_view(items: Vec<Json>)
    ensures
        Json::Array(items)@ == JsonView::Array(json_views(items@)),
{
    let v = Json::Array(items)@->Array_0;
    assert(v =~= json_views(items@));
}

pub proof fn lemma_object_view(members: Vec<(String, Json)>)
    ensures
        Json::Object(members)@ == JsonView::Object(member_views(members@)),
{
    let v = Json::Object(members)@->Object_0;
    assert(v =~= member_views(members@));
}

/// The position of the first member under `key`, or the number of members.
pub open spec fn member_index(members: Seq<(Seq<char>, JsonView)>, key: Seq<char>) -> int
    decreases members.len(),
{
    if members.len() == 0 || members[0].0 == key {
        0
    } else {
        1 + member_index(members.drop_first(), key)
    }
}

impl Clone for Json {
    fn clone(&self) -> (r: Self)
        ensures
            r@ == self@,
        decreases self,
    {
        match self {
            Json::Null => Json::Null,
            Json::Bool(b) => Json::Bool(*b),
            Json::Unsigned(n) => Json::Unsigned(*n),
            Json::Negative(n) => Json::Negative(*n),
            Json::Float(t) => Json::Float(t.clone()),
            Json::Text(t) => Json::Text(t.clone()),
            Json::Array(items) => {
                let mut copy: Vec<Json> = Vec::new();
                let mut i: usize = 0;
                while i < items.len()
                    invariant
                        i <= items@.len(),
                        copy@.len() == i,
                        *self == Json::Array(*items),
                        forall|k: int| 0 <= k < i ==> #[trigger] copy@[k]@ == items@[k]@,
                    decreases items@.len() - i,
                {
                    assert(decreases_to!(*self => self->Array_0@[i as int]));
                    let item = items[i].clone();
                    copy.push(item);
                    i += 1;
                }
                proof {
                    lemma_array_view(*items);
                    lemma_array_view(copy);
                    assert(json_views(copy@) =~= json_views(items@));
                }
                Json::Array(copy)
            },
            Json::Object(members) => {
                let mut copy: Vec<(String, Json)> = Vec::new();
                let mut i: usize = 0;
                while i < members.len()
                    invariant
                        i <= members@.len(),
                        copy@.len() == i,
                        *self == Json::Object(*members),
                        forall|k: int|
                            0 <= k < i ==> #[trigger] copy@[k].0@ == members@[k].0@ && copy@[k].1@
                                == members@[k].1@,
                    decreases members@.len() - i,
                {
                    let key = members[i].0.clone();
                    assert(decreases_to!(*self => self->Object_0@[i as int].1));
                    let value = members[i].1.clone();
                    copy.push((key, value));
                    i += 1;
                }
                proof {
                    lemma_object_view(*members);
                    lemma_object_view(copy);
                    assert(member_views(copy@) =~= member_views(members@));
                }
                Json::Object(copy)
            },
        }
    }
}

/// The value of the first member under `key`.
pub open spec fn member_get(
    members: Seq<(Seq<char>, JsonView)>,
    key: Seq<char>,
) -> Option<JsonView> {
    let i = member_index(members, key);
    if i < members.len() {
        Some(members[i].1)
    } else {
        None
    }
}

/// How many members stand before the place of `key` in alphabetical order.
pub open spec fn member_slot(members: Seq<(Seq<char>, JsonView)>, key: Seq<char>) -> int
    decreases members.len(),
{
    if members.len() == 0 || !text::text_before(members[0].0, key) {
        0
    } else {
        1 + member_slot(members.drop_first(), key)
    }
}

/// The members with `value` under `key`: in the place of the member that was
/// there, or else where the alphabetical order of the keys puts it.
pub open spec fn member_put(
    members: Seq<(Seq<char>, JsonView)>,
    key: Seq<char>,
    value: JsonView,
) -> Seq<(Seq<char>, JsonView)> {
    let i = member_index(members, key);
    if i < members.len() {
        members.update(i, (key, value))
    } else {
        members.insert(member_slot(members, key), (key, value))
    }
}

/// The keys are in alphabetical order, and none occurs twice.
pub open spec fn sorted_keys(members: Seq<(Seq<char>, JsonView)>) -> bool {
    forall|i: int, j: int|
        0 <= i < j < members.len() ==> text::text_before(
            #[trigger] members[i].0,
            #[trigger] members[j].0,
        )
}

/// The members without the one under `key`.
pub open spec fn member_without(
    members: Seq<(Seq<char>, JsonView)>,
    key: Seq<char>,
) -> Seq<(Seq<char>, JsonView)> {
    let i = member_index(members, key);
    if i < members.len() {
        members.remove(i)
    } else {
        members
    }
}

/// What an object holds under `key`; any other value holds nothing.
pub open spec fn json_get(v: JsonView, key: Seq<char>) -> Option<JsonView> {
    match v {
        JsonView::Object(members) => member_get(members, key),
        _ => None,
    }
}

/// The text that an object holds under `key`.
pub open spec fn json_get_text(v: JsonView, key: Seq<char>) -> Option<Seq<char>> {
    match json_get(v, key) {
        Some(JsonView::Text(t)) => Some(t),
        _ => None,
    }
}

/// An object with `value` under `key`; any other value as it was.
pub open spec fn json_put(v: JsonView, key: Seq<char>, value: JsonView) -> JsonView {
    match v {
        JsonView::Object(members) => JsonView::Object(member_put(members, key, value)),
        _ => v,
    }
}

/// An object without the member under `key`; any other value as it was.
pub open spec fn json_without(v: JsonView, key: Seq<char>) -> JsonView {
    match v {
        JsonView::Object(members) => JsonView::Object(member_without(members, key)),
        _ => v,
    }
}

/// The object without members.
pub open spec fn empty_object() -> JsonView {
    JsonView::Object(Seq::empty())
}

/// The value if it is an object, else the object without members.
pub open spec fn as_object_or_empty(v: JsonView) -> JsonView {
    if v is Object {
        v
    } else {
        empty_object()
    }
}

pub open spec fn opt_json(o: Option<&Json>) -> Option<JsonView> {
    match o {
        Some(v) => Some(v@),
        None => None,
    }
}

pub open spec fn opt_text(o: Option<&str>) -> Option<Seq<char>> {
    match o {
        Some(v) => Some(v@),
        None => None,
    }
}

pub open spec fn opt_string(o: Option<String>) -> Option<Seq<char>> {
    match o {
        Some(v) => Some(v@),
        None => None,
    }
}

/// The text of a floating-point zero of either sign.
pub open spec fn is_float_zero(text: Seq<char>) -> bool {
    text == "0.0"@ || text == "-0.0"@
}

/// Equality of two JSON values: the order of an object's members is of no
/// account, nor is the sign of a floating-point zero.
pub open spec fn same_value(a: JsonView, b: JsonView) -> bool
    decreases a,
{
    match (a, b) {
        (JsonView::Float(x), JsonView::Float(y)) => x == y || (is_float_zero(x)
            && is_float_zero(y)),
        (JsonView::Array(x), JsonView::Array(y)) => {
            &&& x.len() == y.len()
            &&& forall|i: int| #![trigger x[i]] 0 <= i < x.len() ==> same_value(x[i], y[i])
        },
        (JsonView::Object(x), JsonView::Object(y)) => {
            &&& x.len() == y.len()
            &&& forall|i: int|
                #![trigger x[i]]
                0 <= i < x.len() ==> {
                    &&& member_index(y, x[i].0) < y.len()
                    &&& same_value(x[i].1, y[member_index(y, x[i].0)].1)
                }
        },
        _ => a == b,
    }
}

pub proof fn lemma_member_index_bounds(members: Seq<(Seq<char>, JsonView)>, key: Seq<char>)
    ensures
        0 <= member_index(members, key) <= members.len(),
        member_index(members, key) < members.len() ==> members[member_index(members, key)].0 == key,
        forall|k: int|
            0 <= k < member_index(members, key) ==> (#[trigger] members[k]).0 != key,
    decreases members.len(),
{
    if members.len() == 0 || members[0].0 == key {
    } else {
        let rest = members.drop_first();
        lemma_member_index_bounds(rest, key);
        assert forall|k: int| 0 <= k < member_index(members, key) implies (
        #[trigger] members[k]).0 != key by {
            if k > 0 {
                assert(members[k] == rest[k - 1]);
            }
        }
    }
}

proof fn lemma_member_index_is(members: Seq<(Seq<char>, JsonView)>, key: Seq<char>, i: int)
    requires
        0 <= i <= members.len(),
        i < members.len() ==> members[i].0 == key,
        forall|k: int| 0 <= k < i ==> (#[trigger] members[k]).0 != key,
    ensures
        member_index(members, key) == i,
{
    lemma_member_index_bounds(members, key);
    let m = member_index(members, key);
    if m < i {
        assert(members[m].0 != key);
    } else if i < m {
        assert(members[i].0 != key);
    }
}

pub proof fn lemma_member_slot_bounds(members: Seq<(Seq<char>, JsonView)>, key: Seq<char>)
    ensures
        0 <= member_slot(members, key) <= members.len(),
        member_slot(members, key) < members.len() ==> !text::text_before(
            members[member_slot(members, key)].0,
            key,
        ),
        forall|k: int|
            0 <= k < member_slot(members, key) ==> text::text_before(
                (#[trigger] members[k]).0,
                key,
            ),
    decreases members.len(),
{
    if members.len() > 0 && text::text_before(members[0].0, key) {
        let rest = members.drop_first();
        lemma_member_slot_bounds(rest, key);
        assert forall|k: int| 0 <= k < member_slot(members, key) implies text::text_before(
            (#[trigger] members[k]).0,
            key,
        ) by {
            if k > 0 {
                assert(members[k] == rest[k - 1]);
            }
        }
    }
}

proof fn lemma_member_slot_is(members: Seq<(Seq<char>, JsonView)>, key: Seq<char>, i: int)
    requires
        0 <= i <= members.len(),
        i < members.len() ==> !text::text_before(members[i].0, key),
        forall|k: int| 0 <= k < i ==> text::text_before((#[trigger] members[k]).0, key),
    ensures
        member_slot(members, key) == i,
{
    lemma_member_slot_bounds(members, key);
    let m = member_slot(members, key);
    if m < i {
        assert(text::text_before(members[m].0, key));
    } else if i < m {
        assert(text::text_before(members[i].0, key));
    }
}

/// What is put under a key is found under it, and every other key keeps what
/// it had.
pub proof fn put_then_get(v: JsonView, key: Seq<char>, value: JsonView, other: Seq<char>)
    requires
        v is Object,
    ensures
        json_get(json_put(v, key, value), key) == Some(value),
        other != key ==> json_get(json_put(v, key, value), other) == json_get(v, other),
{
    let members = v->Object_0;
    let put = member_put(members, key, value);
    let i = member_index(members, key);
    let slot = member_slot(members, key);
    lemma_member_index_bounds(members, key);
    lemma_member_slot_bounds(members, key);
    if i < members.len() {
        assert forall|k: int| 0 <= k < i implies (#[trigger] put[k]).0 != key by {
            assert(put[k] == members[k]);
        }
        lemma_member_index_is(put, key, i);
    } else {
        assert forall|k: int| 0 <= k < slot implies (#[trigger] put[k]).0 != key by {
            assert(put[k] == members[k]);
        }
        assert(put[slot] == (key, value));
        lemma_member_index_is(put, key, slot);
    }
    if other != key {
        let j = member_index(members, other);
        lemma_member_index_bounds(members, other);
        if i < members.len() {
            assert forall|k: int| 0 <= k < j implies (#[trigger] put[k]).0 != other by {
                if k != i {
                    assert(put[k] == members[k]);
                }
            }
            if j < members.len() {
                assert(put[j] == members[j]);
            }
            lemma_member_index_is(put, other, j);
        } else {
            let j2 = if j < slot {
                j
            } else {
                j + 1
            };
            assert forall|k: int| 0 <= k < j2 implies (#[trigger] put[k]).0 != other by {
                if k < slot {
                    assert(put[k] == members[k]);
                } else if k > slot {
                    assert(put[k] == members[k - 1]);
                }
            }
            if j < members.len() {
                assert(put[j2] == members[j]);
            }
            lemma_member_index_is(put, other, j2);
        }
    }
}

/// An object's keys stay in order, one member for each, when a member is put
/// or removed; a removed key holds nothing.
pub proof fn put_and_remove_keep_keys_sorted(
    members: Seq<(Seq<char>, JsonView)>,
    key: Seq<char>,
    value: JsonView,
)
    requires
        sorted_keys(members),
    ensures
        sorted_keys(member_put(members, key, value)),
        sorted_keys(member_without(members, key)),
        member_get(member_without(members, key), key) is None,
{
    lemma_member_index_bounds(members, key);
    lemma_member_slot_bounds(members, key);
    let put = member_put(members, key, value);
    let i = member_index(members, key);
    let slot = member_slot(members, key);
    assert forall|a: int, b: int| 0 <= a < b < put.len() implies text::text_before(
        #[trigger] put[a].0,
        #[trigger] put[b].0,
    ) by {
        if i < members.len() {
            assert(put[a].0 == members[a].0 && put[b].0 == members[b].0);
        } else {
            if slot < members.len() {
                assert(members[slot].0 != key);
                text::text_before_is_total(members[slot].0, key);
            }
            if b < slot {
                assert(put[a] == members[a] && put[b] == members[b]);
            } else if b == slot {
                assert(put[a] == members[a]);
            } else {
                assert(put[b] == members[b - 1]);
                if b - 1 > slot {
                    text::text_before_is_transitive(key, members[slot].0, members[b - 1].0);
                }
                if a < slot {
                    assert(put[a] == members[a]);
                } else if a > slot {
                    assert(put[a] == members[a - 1]);
                }
            }
        }
    }
    let without = member_without(members, key);
    if i < members.len() {
        assert forall|a: int, b: int| 0 <= a < b < without.len() implies text::text_before(
            #[trigger] without[a].0,
            #[trigger] without[b].0,
        ) by {
            let a0 = if a < i { a } else { a + 1 };
            let b0 = if b < i { b } else { b + 1 };
            assert(without[a] == members[a0]);
            assert(without[b] == members[b0]);
        }
        assert forall|k: int| 0 <= k < without.len() implies (#[trigger] without[k]).0 != key by {
            let k0 = if k < i { k } else { k + 1 };
            assert(without[k] == members[k0]);
            text::text_before_is_total(key, key);
            if k0 < i {
                assert(text::text_before(members[k0].0, members[i].0));
            } else {
                assert(text::text_before(members[i].0, members[k0].0));
            }
        }
        lemma_member_index_is(without, key, without.len() as int);
    }
}

/// How many members stand before the place of `key` in alphabetical order.
fn find_slot(members: &Vec<(String, Json)>, key: &str) -> (r: usize)
    ensures
        r == member_slot(member_views(members@), key@),
        r <= members@.len(),
{
    let mut i: usize = 0;
    while i < members.len()
        invariant
            i <= members@.len(),
            forall|k: int|
                0 <= k < i ==> text::text_before((#[trigger] member_views(members@)[k]).0, key@),
        decreases members@.len() - i,
    {
        if !text_less(members[i].0.as_str(), key) {
            assert(!text::text_before(member_views(members@)[i as int].0, key@));
            proof {
                lemma_member_slot_is(member_views(members@), key@, i as int);
            }
            return i;
        }
        i += 1;
    }
    proof {
        lemma_member_slot_is(member_views(members@), key@, i as int);
    }
    i
}

/// The position of the first member under `key`, or the number of members.
fn find_member(members: &Vec<(String, Json)>, key: &str) -> (r: usize)
    ensures
        r == member_index(member_views(members@), key@),
        r <= members@.len(),
{
    let mut i: usize = 0;
    while i < members.len()
        invariant
            i <= members@.len(),
            forall|k: int| 0 <= k < i ==> (#[trigger] member_views(members@)[k]).0 != key@,
        decreases members@.len() - i,
    {
        if text_eq(members[i].0.as_str(), key) {
            assert(member_views(members@)[i as int].0 == key@);
            proof {
                lemma_member_index_is(member_views(members@), key@, i as int);
            }
            return i;
        }
        i += 1;
    }
    proof {
        lemma_member_index_is(member_views(members@), key@, i as int);
    }
    i
}

impl Json {
    /// Equality of two values.
    pub fn same(&self, other: &Json) -> (r: bool)
        ensures
            r == same_value(self@, other@),
        decreases self,
    {
        match (self, other) {
            (Json::Null, Json::Null) => true,
            (Json::Bool(x), Json::Bool(y)) => *x == *y,
            (Json::Unsigned(x), Json::Unsigned(y)) => *x == *y,
            (Json::Negative(x), Json::Negative(y)) => *x == *y,
            (Json::Float(x), Json::Float(y)) => text_eq(x.as_str(), y.as_str()) || ((text_eq(
                x.as_str(),
                "0.0",
            ) || text_eq(x.as_str(), "-0.0")) && (text_eq(y.as_str(), "0.0") || text_eq(
                y.as_str(),
                "-0.0",
            ))),
            (Json::Text(x), Json::Text(y)) => text_eq(x.as_str(), y.as_str()),
            (Json::Array(x), Json::Array(y)) => {
                proof {
                    lemma_array_view(*x);
                    lemma_array_view(*y);
                }
                if x.len() != y.len() {
                    return false;
                }
                let mut i: usize = 0;
                while i < x.len()
                    invariant
                        i <= x@.len(),
                        x@.len() == y@.len(),
                        *self == Json::Array(*x),
                        self@ == JsonView::Array(json_views(x@)),
                        other@ == JsonView::Array(json_views(y@)),
                        forall|k: int|
                            0 <= k < i ==> same_value(
                                #[trigger] json_views(x@)[k],
                                json_views(y@)[k],
                            ),
                    decreases x@.len() - i,
                {
                    assert(decreases_to!(*self => self->Array_0@[i as int]));
                    assert(json_views(x@)[i as int] == x@[i as int]@);
                    if !x[i].same(&y[i]) {
                        return false;
                    }
                    i += 1;
                }
                true
            },
            (Json::Object(x), Json::Object(y)) => {
                proof {
                    lemma_object_view(*x);
                    lemma_object_view(*y);
                }
                if x.len() != y.len() {
                    return false;
                }
                let mut i: usize = 0;
                while i < x.len()
                    invariant
                        i <= x@.len(),
                        x@.len() == y@.len(),
                        *self == Json::Object(*x),
                        self@ == JsonView::Object(member_views(x@)),
                        other@ == JsonView::Object(member_views(y@)),
                        forall|k: int|
                            #![trigger member_views(x@)[k]]
                            0 <= k < i ==> {
                                let at = member_index(member_views(y@), member_views(x@)[k].0);
                                &&& at < y@.len()
                                &&& same_value(member_views(x@)[k].1, member_views(y@)[at].1)
                            },
                    decreases x@.len() - i,
                {
                    assert(decreases_to!(*self => self->Object_0@[i as int].1));
                    assert(member_views(x@)[i as int] == (x@[i as int].0@, x@[i as int].1@));
                    let at = find_member(y, x[i].0.as_str());
                    if at == y.len() || !x[i].1.same(&y[at].1) {
                        return false;
                    }
                    i += 1;
                }
                true
            },
            _ => false,
        }
    }

    /// What an object holds under `key`.
    pub fn get(&self, key: &str) -> (r: Option<&Json>)
        ensures
            opt_json(r) == json_get(self@, key@),
    {
        match self {
            Json::Object(members) => {
                proof {
                    lemma_object_view(*members);
                }
                let i = find_member(members, key);
                if i < members.len() {
                    Some(&members[i].1)
                } else {
                    None
                }
            },
            _ => None,
        }
    }

    /// The text that an object holds under `key`.
    pub fn get_str(&self, key: &str) -> (r: Option<&str>)
        ensures
            opt_text(r) == json_get_text(self@, key@),
    {
        match self.get(key) {
            Some(Json::Text(t)) => Some(t.as_str()),
            _ => None,
        }
    }

    pub fn as_str(&self) -> (r: Option<&str>)
        ensures
            opt_text(r) == (match self@ {
                JsonView::Text(t) => Some(t),
                _ => None,
            }),
    {
        match self {
            Json::Text(t) => Some(t.as_str()),
            _ => None,
        }
    }

    pub fn as_u64(&self) -> (r: Option<u64>)
        ensures
            r == (match self@ {
                JsonView::Unsigned(n) => Some(n),
                _ => None,
            }),
    {
        match self {
            Json::Unsigned(n) => Some(*n),
            _ => None,
        }
    }

    pub fn as_i64(&self) -> (r: Option<i64>)
        ensures
            r == (match self@ {
                JsonView::Unsigned(n) if n <= i64::MAX => Some(n as i64),
                JsonView::Negative(n) => Some(n),
                _ => None,
            }),
    {
        match self {
            Json::Unsigned(n) => if *n <= i64::MAX as u64 {
                Some(*n as i64)
            } else {
                None
            },
            Json::Negative(n) => Some(*n),
            _ => None,
        }
    }

    pub fn is_object(&self) -> (r: bool)
        ensures
            r == (self@ is Object),
    {
        match self {
            Json::Object(_) => true,
            _ => false,
        }
    }

    /// The object without members.
    pub fn new_object() -> (r: Json)
        ensures
            r@ == empty_object(),
    {
        let members: Vec<(String, Json)> = Vec::new();
        proof {
            lemma_object_view(members);
            assert(member_views(members@) =~= Seq::empty());
        }
        Json::Object(members)
    }

    /// Turns anything but an object into the object without members.
    pub fn ensure_object(&mut self)
        ensures
            final(self)@ == as_object_or_empty(old(self)@),
    {
        if !self.is_object() {
            *self = Json::new_object();
        }
    }

    /// Puts `value` under `key` where the value is an object.
    pub fn put(&mut self, key: &str, value: Json)
        ensures
            final(self)@ == json_put(old(self)@, key@, value@),
    {
        match self {
            Json::Object(members) => {
                let ghost before = *members;
                proof {
                    lemma_object_view(before);
                }
                let i = find_member(members, key);
                let name = key.to_owned();
                if i < members.len() {
                    members.set(i, (name, value));
                } else {
                    let slot = find_slot(members, key);
                    members.insert(slot, (name, value));
                }
                proof {
                    lemma_object_view(*members);
                    assert(member_views(members@) =~= member_put(
                        member_views(before@),
                        key@,
                        value@,
                    ));
                }
            },
            _ => {},
        }
    }

    /// Removes the member under `key` where the value is an object.
    pub fn remove(&mut self, key: &str)
        ensures
            final(self)@ == json_without(old(self)@, key@),
    {
        match self {
            Json::Object(members) => {
                let ghost before = *members;
                proof {
                    lemma_object_view(before);
                }
                let i = find_member(members, key);
                if i < members.len() {
                    let _ = members.remove(i);
                }
                proof {
                    lemma_object_view(*members);
                    assert(member_views(members@) =~= member_without(
                        member_views(before@),
                        key@,
                    ));
                }
            },
            _ => {},
        }
    }
}

pub open spec fn hex_digit(n: int) -> char {
    if n < 10 {
        (('0' as int) + n) as char
    } else {
        (('a' as int) + n - 10) as char
    }
}

/// How a character is written inside a JSON string.
pub open spec fn escaped_char(c: char) -> Seq<char> {
    if c == '"' {
        seq!['\\', '"']
    } else if c == '\\' {
        seq!['\\', '\\']
    } else if c == '\u{8}' {
        seq!['\\', 'b']
    } else if c == '\u{c}' {
        seq!['\\', 'f']
    } else if c == '\n' {
        seq!['\\', 'n']
    } else if c == '\r' {
        seq!['\\', 'r']
    } else if c == '\t' {
        seq!['\\', 't']
    } else if (c as u32) < 0x20 {
        seq!['\\', 'u', '0', '0', hex_digit(c as int / 16), hex_digit(c as int % 16)]
    } else {
        seq![c]
    }
}

/// How a text is written inside a JSON string, without the quotes.
pub open spec fn escaped_text(s: Seq<char>) -> Seq<char>
    decreases s.len(),
{
    if s.len() == 0 {
        Seq::empty()
    } else {
        escaped_text(s.drop_last()) + escaped_char(s.last())
    }
}

/// A text as a JSON string.
pub open spec fn quoted_text(s: Seq<char>) -> Seq<char> {
    (seq!['"'] + escaped_text(s)).push('"')
}

/// Texts as JSON strings, separated by commas.
pub open spec fn quoted_list(items: Seq<Seq<char>>) -> Seq<char>
    decreases items.len(),
{
    if items.len() == 0 {
        Seq::empty()
    } else if items.len() == 1 {
        quoted_text(items[0])
    } else {
        quoted_list(items.drop_last()).push(',') + quoted_text(items.last())
    }
}

/// A list of texts as a compact JSON array.
pub open spec fn list_text(items: Seq<Seq<char>>) -> Seq<char> {
    (seq!['['] + quoted_list(items)).push(']')
}

/// The form in which `serde_json` holds a JSON value.
#[verifier::external_type_specification]
#[verifier::external_body]
pub struct ExValue(serde_json::Value);

/// A value in the form in which `serde_json` holds it. The text of a
/// floating-point number is read by `str::parse`; one that is no finite number
/// becomes null.
#[verifier::external_body]
fn to_value(v: &Json) -> (r: serde_json::Value) {
    match v {
        Json::Null => serde_json::Value::Null,
        Json::Bool(b) => serde_json::Value::from(*b),
        Json::Unsigned(n) => serde_json::Value::from(*n),
        Json::Negative(n) => serde_json::Value::from(*n),
        Json::Float(t) => serde_json::Value::from(t.parse().ok().and_then(serde_json::Number::from_f64)),
        Json::Text(t) => serde_json::Value::from(t.as_str()),
        Json::Array(items) => items.iter().map(to_value).collect(),
        Json::Object(members) => members.iter().map(|m| (m.0.clone(), to_value(&m.1))).collect(),
    }
}

/// A value that `serde_json` holds. A number is natural, negative, or else by
/// the text that `serde_json` prints it with; the members of an object go by
/// their keys.
#[verifier::external_body]
fn from_value(v: serde_json::Value) -> (r: Json) {
    match v {
        serde_json::Value::Null => Json::Null,
        serde_json::Value::Bool(b) => Json::Bool(b),
        serde_json::Value::Number(n) => match (n.as_u64(), n.as_i64()) {
            (Some(n), _) => Json::Unsigned(n),
            (None, Some(n)) => Json::Negative(n),
            (None, None) => Json::Float(n.to_string()),
        },
        serde_json::Value::String(t) => Json::Text(t),
        serde_json::Value::Array(items) => Json::Array(items.into_iter().map(from_value).collect()),
        serde_json::Value::Object(m) => Json::Object(m.into_iter().map(|(k, v)| (k, from_value(v))).collect()),
    }
}

/// What `serde_json` prints of a value in its compact form.
pub uninterp spec fn compact_text(v: JsonView) -> Seq<char>;

/// What `serde_json` prints of a value in its pretty form.
pub uninterp spec fn pretty_text(v: JsonView) -> Seq<char>;

/// What `serde_json` reads from a text: a value, or the report why the text is
/// not JSON.
pub uninterp spec fn parsed_json(s: Seq<char>) -> Result<JsonView, Seq<char>>;

/// `serde_json::to_string` of a value, which cannot fail. What it prints is kept
/// as a name of the value.
#[verifier::external_body]
fn compact_print(v: &Json) -> (r: String)
    ensures
        r@ == compact_text(v@),
{
    serde_json::to_string(&to_value(v)).expect("a value is written as JSON")
}

/// `serde_json::to_string_pretty` of a value, which cannot fail. What it prints
/// is kept as a name of the value.
#[verifier::external_body]
fn pretty_print(v: &Json) -> (r: String)
    ensures
        r@ == pretty_text(v@),
{
    serde_json::to_string_pretty(&to_value(v)).expect("a value is written as JSON")
}

/// `serde_json::from_str` into a `serde_json::Value`. What it reads, or reports,
/// is kept as a name of the text.
#[verifier::external_body]
fn parse_value(s: &str) -> (r: Result<Json, String>)
    ensures
        parsed_json(s@) == (match r {
            Ok(v) => Ok::<JsonView, Seq<char>>(v@),
            Err(e) => Err(e@),
        }),
{
    serde_json::from_str(s).map(from_value).map_err(|e| e.to_string())
}

/// What is wrong with a text that should be JSON, if anything is.
pub open spec fn json_error(s: Seq<char>) -> Option<Seq<char>> {
    match parsed_json(s) {
        Ok(_) => None,
        Err(e) => Some(e),
    }
}

/// Reads a JSON text, or reports why it is none.
pub fn read_json(content: &str) -> (r: Result<Json, String>)
    ensures
        match r {
            Ok(v) => parsed_json(content@) == Ok::<JsonView, Seq<char>>(v@),
            Err(e) => parsed_json(content@) == Err::<JsonView, Seq<char>>(e@),
        },
{
    parse_value(content)
}

impl Json {
    /// The value in its compact form.
    pub fn serialize(&self) -> (r: String)
        ensures
            r@ == compact_text(self@),
    {
        compact_print(self)
    }

    /// The value in its pretty form.
    pub fn serialize_pretty(&self) -> (r: String)
        ensures
            r@ == pretty_text(self@),
    {
        pretty_print(self)
    }
}

/// Removing a member leaves every other one, and nothing under its key where the
/// keys differ.
pub proof fn remove_then_get(
    members: Seq<(Seq<char>, JsonView)>,
    key: Seq<char>,
    other: Seq<char>,
)
    requires
        sorted_keys(members),
    ensures
        json_get(json_without(JsonView::Object(members), key), key) is None,
        other != key ==> json_get(json_without(JsonView::Object(members), key), other)
            == json_get(JsonView::Object(members), other),
{
    let i = member_index(members, key);
    let left = member_without(members, key);
    lemma_member_index_bounds(members, key);
    lemma_member_index_bounds(left, key);
    lemma_member_index_bounds(members, other);
    lemma_member_index_bounds(left, other);
    if i < members.len() {
        let j = member_index(left, key);
        if j < left.len() {
            let k = if j < i {
                j
            } else {
                j + 1
            };
            assert(left[j] == members[k]);
            if k < i {
                assert(text::text_before(members[k].0, members[i].0));
            } else {
                assert(text::text_before(members[i].0, members[k].0));
            }
            text::text_before_is_total(key, key);
        }
        if other != key {
            let a = member_index(members, other);
            let b = member_index(left, other);
            if a < members.len() {
                let to = if a < i {
                    a
                } else {
                    a - 1
                };
                assert(left[to] == members[a]);
                assert(b <= to);
                let back = if b < i {
                    b
                } else {
                    b + 1
                };
                assert(left[b] == members[back]);
                assert(a <= back);
            } else if b < left.len() {
                let back = if b < i {
                    b
                } else {
                    b + 1
                };
                assert(left[b] == members[back]);
            }
        }
    }
}

/// Values of different kinds are never the same, and texts, truth values and whole
/// numbers are the same only where they are equal.
pub proof fn plain_values_are_the_same_when_equal(a: JsonView, b: JsonView)
    ensures
        !(a is Float || a is Array || a is Object) ==> (same_value(a, b) <==> a == b),
        a is Array && same_value(a, b) ==> b is Array && a->Array_0.len() == b->Array_0.len(),
        a is Object && same_value(a, b) ==> b is Object && a->Object_0.len() == b->Object_0.len(),
        a is Float && same_value(a, b) ==> b is Float,
        a is Float && a == b ==> same_value(a, b),
{
}

/// A text is written character by character: what ends a string or starts an escape
/// is escaped, and printable characters are themselves.
pub proof fn texts_are_escaped_character_by_character(a: Seq<char>, c: char)
    ensures
        escaped_text(a.push(c)) == escaped_text(a) + escaped_char(c),
        escaped_char('"') == seq!['\\', '"'],
        escaped_char('\\') == seq!['\\', '\\'],
        (c as u32) >= 0x20 && c != '"' && c != '\\' ==> escaped_char(c) == seq![c],
        (c as u32) < 0x20 ==> escaped_char(c).len() >= 2 && escaped_char(c)[0] == '\\',
{
    assert(a.push(c).drop_last() =~= a);
}

} // verus!
