//! The types of entities and relations that the memory graph knows.

use vstd::prelude::*;

use crate::json;
use crate::text;
use crate::text::text_eq;

verus! {

/// A relation between entities.
#[derive(Clone, Debug)]
pub struct GraphPredicate {
    pub name: String,
    pub description: String,
    pub temporal_kind: Option<String>,
    pub cardinality: Option<String>,
    pub overlap_allowed: Option<bool>,
    pub symmetric: bool,
}

/// The entity types and relations that are registered.
#[derive(Clone, Debug)]
pub struct GraphTypeRegistry {
    pub version: String,
    pub entity_types: Vec<String>,
    pub predicates: Vec<GraphPredicate>,
}

/// What a [`GraphPredicate`] stands for.
pub struct PredicateView {
    pub name: Seq<char>,
    pub description: Seq<char>,
    pub temporal_kind: Option<Seq<char>>,
    pub cardinality: Option<Seq<char>>,
    pub overlap_allowed: Option<bool>,
    pub symmetric: bool,
}

impl View for GraphPredicate {
    type V = PredicateView;

    open spec fn view(&self) -> PredicateView {
        PredicateView {
            name: self.name@,
            description: self.description@,
            temporal_kind: json::opt_string(self.temporal_kind),
            cardinality: json::opt_string(self.cardinality),
            overlap_allowed: self.overlap_allowed,
            symmetric: self.symmetric,
        }
    }
}

/// What a [`GraphTypeRegistry`] stands for.
pub struct RegistryView {
    pub version: Seq<char>,
    pub entity_types: Seq<Seq<char>>,
    pub predicates: Seq<PredicateView>,
}

impl View for GraphTypeRegistry {
    type V = RegistryView;

    open spec fn view(&self) -> RegistryView {
        RegistryView {
            version: self.version@,
            entity_types: text::strings(self.entity_types@),
            predicates: predicate_views(self.predicates@),
        }
    }
}

pub open spec fn predicate_views(v: Seq<GraphPredicate>) -> Seq<PredicateView> {
    Seq::new(v.len(), |i: int| v[i]@)
}

/// A relation of which several may hold at a time, or one.
pub open spec fn predicate_of(
    name: Seq<char>,
    description: Seq<char>,
    temporal_kind: Seq<char>,
    cardinality: Seq<char>,
    overlap_allowed: bool,
    symmetric: bool,
) -> PredicateView {
    PredicateView {
        name,
        description,
        temporal_kind: Some(temporal_kind),
        cardinality: Some(cardinality),
        overlap_allowed: Some(overlap_allowed),
        symmetric,
    }
}

/// The registry that stands where none is configured.
pub open spec fn default_registry() -> RegistryView {
    RegistryView {
        version: "graph-type-registry-v2"@,
        entity_types: seq![
            "PERSON"@,
            "LOCATION"@,
            "ORGANIZATION"@,
            "PROJECT"@,
            "EVENT"@,
            "ACTIVITY"@,
            "OBJECT"@,
            "PREFERENCE"@,
            "TIME"@,
            "GROUP"@,
            "CONCEPT"@,
        ],
        predicates: default_predicates(),
    }
}

pub open spec fn default_predicates() -> Seq<PredicateView> {
    seq![
        predicate_of(
            "LIVES_IN"@,
            "A person currently or historically lives in a location."@,
            "state"@,
            "single"@,
            false,
            false,
        ),
        predicate_of(
            "WORKS_AT"@,
            "A person works at or is professionally affiliated with an organization."@,
            "state"@,
            "many"@,
            true,
            false,
        ),
        predicate_of(
            "STUDIES_AT"@,
            "A person studies at or attends an educational organization."@,
            "state"@,
            "many"@,
            true,
            false,
        ),
        predicate_of(
            "FAMILY_OF"@,
            "Two people have a family relationship."@,
            "state"@,
            "many"@,
            true,
            true,
        ),
        predicate_of(
            "FRIEND_OF"@,
            "Two people have a friendship or close social relationship."@,
            "state"@,
            "many"@,
            true,
            true,
        ),
        predicate_of(
            "LIKES"@,
            "A person likes, prefers, or enjoys an entity, activity, topic, or object."@,
            "state"@,
            "many"@,
            true,
            false,
        ),
        predicate_of(
            "DISLIKES"@,
            "A person dislikes or avoids an entity, activity, topic, or object."@,
            "state"@,
            "many"@,
            true,
            false,
        ),
        predicate_of(
            "VISITED"@,
            "A person visited a location."@,
            "event"@,
            "many"@,
            true,
            false,
        ),
        predicate_of(
            "ATTENDED"@,
            "A person attended an event, meeting, appointment, or gathering."@,
            "event"@,
            "many"@,
            true,
            false,
        ),
        predicate_of(
            "PARTICIPATED_IN"@,
            "A person participated in an event, activity, project, or program."@,
            "event"@,
            "many"@,
            true,
            false,
        ),
        predicate_of(
            "HAS_PREFERENCE"@,
            "A person has an expressed preference, habit, or recurring choice."@,
            "state"@,
            "many"@,
            true,
            false,
        ),
        predicate_of(
            "HAS_ATTRIBUTE"@,
            "An entity has a stable attribute, role, status, or descriptive property."@,
            "state"@,
            "many"@,
            true,
            false,
        ),
        predicate_of(
            "MENTIONED"@,
            "A record or person mentions an entity, topic, event, or time."@,
            "event"@,
            "many"@,
            true,
            false,
        ),
        predicate_of(
            "RELATED_TO"@,
            "A grounded relationship exists but does not fit a more specific registered predicate."@,
            "association"@,
            "many"@,
            true,
            false,
        ),
    ]
}

fn predicate(
    name: &str,
    description: &str,
    temporal_kind: &str,
    cardinality: &str,
    overlap_allowed: bool,
    symmetric: bool,
) -> (r: GraphPredicate)
    ensures
        r@ == predicate_of(
            name@,
            description@,
            temporal_kind@,
            cardinality@,
            overlap_allowed,
            symmetric,
        ),
{
    GraphPredicate {
        name: name.to_owned(),
        description: description.to_owned(),
        temporal_kind: Some(temporal_kind.to_owned()),
        cardinality: Some(cardinality.to_owned()),
        overlap_allowed: Some(overlap_allowed),
        symmetric,
    }
}

/// The first predicate with a name.
pub open spec fn predicate_named(predicates: Seq<PredicateView>, name: Seq<char>) -> Option<
    PredicateView,
>
    decreases predicates.len(),
{
    if predicates.len() == 0 {
        None
    } else if predicates[0].name == name {
        Some(predicates[0])
    } else {
        predicate_named(predicates.drop_first(), name)
    }
}

impl GraphTypeRegistry {
    /// The registry that stands where none is configured.
    pub fn new_default() -> (r: Self)
        ensures
            r@ == default_registry(),
    {
        let entity_types: Vec<String> = vec![
            "PERSON".to_owned(),
            "LOCATION".to_owned(),
            "ORGANIZATION".to_owned(),
            "PROJECT".to_owned(),
            "EVENT".to_owned(),
            "ACTIVITY".to_owned(),
            "OBJECT".to_owned(),
            "PREFERENCE".to_owned(),
            "TIME".to_owned(),
            "GROUP".to_owned(),
            "CONCEPT".to_owned(),
        ];
        let predicates: Vec<GraphPredicate> = vec![
            predicate(
                "LIVES_IN",
                "A person currently or historically lives in a location.",
                "state",
                "single",
                false,
                false,
            ),
            predicate(
                "WORKS_AT",
                "A person works at or is professionally affiliated with an organization.",
                "state",
                "many",
                true,
                false,
            ),
            predicate(
                "STUDIES_AT",
                "A person studies at or attends an educational organization.",
                "state",
                "many",
                true,
                false,
            ),
            predicate(
                "FAMILY_OF",
                "Two people have a family relationship.",
                "state",
                "many",
                true,
                true,
            ),
            predicate(
                "FRIEND_OF",
                "Two people have a friendship or close social relationship.",
                "state",
                "many",
                true,
                true,
            ),
            predicate(
                "LIKES",
                "A person likes, prefers, or enjoys an entity, activity, topic, or object.",
                "state",
                "many",
                true,
                false,
            ),
            predicate(
                "DISLIKES",
                "A person dislikes or avoids an entity, activity, topic, or object.",
                "state",
                "many",
                true,
                false,
            ),
            predicate(
                "VISITED",
                "A person visited a location.",
                "event",
                "many",
                true,
                false,
            ),
            predicate(
                "ATTENDED",
                "A person attended an event, meeting, appointment, or gathering.",
                "event",
                "many",
                true,
                false,
            ),
            predicate(
                "PARTICIPATED_IN",
                "A person participated in an event, activity, project, or program.",
                "event",
                "many",
                true,
                false,
            ),
            predicate(
                "HAS_PREFERENCE",
                "A person has an expressed preference, habit, or recurring choice.",
                "state",
                "many",
                true,
                false,
            ),
            predicate(
                "HAS_ATTRIBUTE",
                "An entity has a stable attribute, role, status, or descriptive property.",
                "state",
                "many",
                true,
                false,
            ),
            predicate(
                "MENTIONED",
                "A record or person mentions an entity, topic, event, or time.",
                "event",
                "many",
                true,
                false,
            ),
            predicate(
                "RELATED_TO",
                "A grounded relationship exists but does not fit a more specific registered predicate.",
                "association",
                "many",
                true,
                false,
            ),
        ];
        assert(text::strings(entity_types@) =~= default_registry().entity_types);
        assert(predicate_views(predicates@) =~= default_predicates());
        GraphTypeRegistry {
            version: "graph-type-registry-v2".to_owned(),
            entity_types,
            predicates,
        }
    }

    /// The predicate with a name.
    pub fn predicate(&self, name: &str) -> (r: Option<&GraphPredicate>)
        ensures
            match r {
                Some(p) => predicate_named(self@.predicates, name@) == Some(p@),
                None => predicate_named(self@.predicates, name@) is None,
            },
    {
        let ghost all = self@.predicates;
        let mut i: usize = 0;
        assert(all.skip(0) =~= all);
        while i < self.predicates.len()
            invariant
                i <= self.predicates@.len(),
                all == predicate_views(self.predicates@),
                predicate_named(all, name@) == predicate_named(all.skip(i as int), name@),
            decreases self.predicates@.len() - i,
        {
            assert(all.skip(i as int)[0] == self.predicates@[i as int]@);
            if text_eq(self.predicates[i].name.as_str(), name) {
                return Some(&self.predicates[i]);
            }
            assert(all.skip(i as int).drop_first() =~= all.skip(i + 1));
            i += 1;
        }
        None
    }
}

impl Default for GraphTypeRegistry {
    fn default() -> (r: Self)
        ensures
            r@ == default_registry(),
    {
        GraphTypeRegistry::new_default()
    }
}

/// The relation that stands for every relation without a name of its own is
/// registered by default.
pub proof fn fallback_is_registered()
    ensures
        predicate_named(default_predicates(), "RELATED_TO"@) == Some(default_predicates()[13]),
{
    let all = default_predicates();
    reveal_strlit("RELATED_TO");
    reveal_strlit("LIVES_IN");
    reveal_strlit("WORKS_AT");
    reveal_strlit("STUDIES_AT");
    reveal_strlit("FAMILY_OF");
    reveal_strlit("FRIEND_OF");
    reveal_strlit("LIKES");
    reveal_strlit("DISLIKES");
    reveal_strlit("VISITED");
    reveal_strlit("ATTENDED");
    reveal_strlit("PARTICIPATED_IN");
    reveal_strlit("HAS_PREFERENCE");
    reveal_strlit("HAS_ATTRIBUTE");
    reveal_strlit("MENTIONED");
    assert(all[13].name == "RELATED_TO"@);
    assert forall|i: int| 0 <= i < 13 implies (#[trigger] all[i]).name != "RELATED_TO"@ by {
        assert(all[i].name.len() != 10 || all[i].name[0] != 'R');
    }
    lemma_predicate_named(all, "RELATED_TO"@, 13);
}

proof fn lemma_predicate_named(predicates: Seq<PredicateView>, name: Seq<char>, i: int)
    requires
        0 <= i < predicates.len(),
        predicates[i].name == name,
        forall|k: int| 0 <= k < i ==> (#[trigger] predicates[k]).name != name,
    ensures
        predicate_named(predicates, name) == Some(predicates[i]),
    decreases i,
{
    if i > 0 {
        let rest = predicates.drop_first();
        assert(predicates[0].name != name);
        assert forall|k: int| 0 <= k < i - 1 implies (#[trigger] rest[k]).name != name by {
            assert(rest[k] == predicates[k + 1]);
        }
        lemma_predicate_named(rest, name, i - 1);
    }
}

} // verus!
