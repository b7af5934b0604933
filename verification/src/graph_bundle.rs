//! The context that a question to the graph brings back: the facts that it found
//! and, each once, the records, entities and rows that belong to them.

use vstd::prelude::*;
use vstd::string::*;

use crate::api::GraphRetrieveContextRequest;
use crate::graph_types;
use crate::graph_types::{
    Entity, EntityView, Fact, FactContextUnit, FactUnitView, FactView, GraphMemoryRecord,
    GraphRecordView,
};
use crate::json;
use crate::scan;
use crate::text;
use crate::text::{clone_strings, holds_text, lemma_strings_push};

verus! {

/// Where each of some ids stands first.
pub open spec fn first_positions(ids: Seq<Seq<char>>) -> Seq<int>
    decreases ids.len(),
{
    if ids.len() == 0 {
        Seq::empty()
    } else if ids.drop_last().contains(ids.last()) {
        first_positions(ids.drop_last())
    } else {
        first_positions(ids.drop_last()).push(ids.len() - 1)
    }
}

proof fn lemma_first_position_bounds(ids: Seq<Seq<char>>, k: int)
    requires
        0 <= k < first_positions(ids).len(),
    ensures
        0 <= first_positions(ids)[k] < ids.len(),
    decreases ids.len(),
{
    let t = ids.drop_last();
    if k < first_positions(t).len() {
        lemma_first_position_bounds(t, k);
    }
}

proof fn lemma_push_contains(s: Seq<Seq<char>>, a: Seq<char>, x: Seq<char>)
    ensures
        s.push(a).contains(x) == (s.contains(x) || a == x),
{
    let p = s.push(a);
    if s.contains(x) {
        let i = choose|i: int| 0 <= i < s.len() && s[i] == x;
        assert(p[i] == x);
    }
    if a == x {
        assert(p[s.len() as int] == x);
    }
    if p.contains(x) {
        let i = choose|i: int| 0 <= i < p.len() && p[i] == x;
        if i < s.len() {
            assert(s[i] == x);
        }
    }
}

proof fn lemma_first_positions_differ(ids: Seq<Seq<char>>, j: int, k: int)
    requires
        0 <= j < k < first_positions(ids).len(),
    ensures
        ids[first_positions(ids)[j]] != ids[first_positions(ids)[k]],
    decreases ids.len(),
{
    let t = ids.drop_last();
    lemma_first_position_bounds(t, j);
    let at = first_positions(t)[j];
    assert(t[at] == ids[at]);
    if k < first_positions(t).len() {
        lemma_first_position_bounds(t, k);
        lemma_first_positions_differ(t, j, k);
    } else {
        assert(t.contains(t[at]));
    }
}

proof fn lemma_first_position_of(ids: Seq<Seq<char>>, i: int) -> (k: int)
    requires
        0 <= i < ids.len(),
    ensures
        0 <= k < first_positions(ids).len(),
        ids[first_positions(ids)[k]] == ids[i],
    decreases ids.len(),
{
    let t = ids.drop_last();
    if i < t.len() {
        let k = lemma_first_position_of(t, i);
        lemma_first_position_bounds(t, k);
        k
    } else if t.contains(ids.last()) {
        let w = choose|w: int| 0 <= w < t.len() && t[w] == ids.last();
        let k = lemma_first_position_of(t, w);
        lemma_first_position_bounds(t, k);
        k
    } else {
        first_positions(t).len() as int
    }
}

/// Where each of some ids stands first.
pub fn first_of_each(ids: &Vec<String>) -> (r: Vec<usize>)
    ensures
        scan::places(r@) == first_positions(text::strings(ids@)),
{
    let ghost all = text::strings(ids@);
    let mut r: Vec<usize> = Vec::new();
    let mut seen: Vec<String> = Vec::new();
    let mut i: usize = 0;
    proof {
        assert(scan::places(r@) =~= Seq::<int>::empty());
        assert(text::strings(seen@) =~= Seq::<Seq<char>>::empty());
    }
    while i < ids.len()
        invariant
            i <= ids@.len(),
            all == text::strings(ids@),
            scan::places(r@) == first_positions(all.take(i as int)),
            forall|x: Seq<char>|
                #![trigger text::strings(seen@).contains(x)]
                text::strings(seen@).contains(x) == all.take(i as int).contains(x),
        decreases ids@.len() - i,
    {
        proof {
            assert(all.take(i + 1).drop_last() =~= all.take(i as int));
            assert(all.take(i + 1).last() == ids@[i as int]@);
        }
        let id = ids[i].as_str();
        if !holds_text(&seen, id) {
            let ghost before = seen@;
            let ghost kept = r@;
            let copy = id.to_owned();
            seen.push(copy);
            r.push(i);
            proof {
                text::lemma_strings_push(before, copy);
                assert(scan::places(r@) =~= scan::places(kept).push(i as int));
                assert forall|x: Seq<char>|
                    #![trigger text::strings(seen@).contains(x)]
                    text::strings(seen@).contains(x) == all.take(i + 1).contains(x) by {
                    lemma_push_contains(text::strings(before), copy@, x);
                    lemma_push_contains(all.take(i as int), id@, x);
                    assert(all.take(i + 1) =~= all.take(i as int).push(id@));
                    assert(text::strings(before).contains(x) == all.take(i as int).contains(x));
                }
            }
        } else {
            proof {
                assert forall|x: Seq<char>|
                    #![trigger text::strings(seen@).contains(x)]
                    text::strings(seen@).contains(x) == all.take(i + 1).contains(x) by {
                    lemma_push_contains(all.take(i as int), id@, x);
                    assert(all.take(i + 1) =~= all.take(i as int).push(id@));
                }
            }
        }
        i += 1;
    }
    assert(all.take(i as int) =~= all);
    r
}

/// A bundle holds each of its members once, and misses none.
pub proof fn bundles_hold_each_member_once(ids: Seq<Seq<char>>, i: int)
    requires
        0 <= i < ids.len(),
    ensures
        forall|j: int, k: int|
            0 <= j < k < first_positions(ids).len() ==> ids[#[trigger] first_positions(ids)[j]]
                != ids[#[trigger] first_positions(ids)[k]],
        exists|k: int|
            0 <= k < first_positions(ids).len() && ids[#[trigger] first_positions(ids)[k]]
                == ids[i],
{
    assert forall|j: int, k: int| 0 <= j < k < first_positions(ids).len() implies ids[#[trigger]
    first_positions(ids)[j]] != ids[#[trigger] first_positions(ids)[k]] by {
        lemma_first_positions_differ(ids, j, k);
    }
    let k = lemma_first_position_of(ids, i);
    assert(ids[first_positions(ids)[k]] == ids[i]);
}

/// The values at some places.
pub open spec fn picked<T>(s: Seq<T>, places: Seq<int>) -> Seq<T> {
    Seq::new(places.len(), |i: int| s[places[i]])
}

/// The records that support facts, fact by fact.
pub open spec fn evidence_of(units: Seq<FactUnitView>) -> Seq<GraphRecordView>
    decreases units.len(),
{
    if units.len() == 0 {
        Seq::empty()
    } else {
        evidence_of(units.drop_last()) + units.last().evidence_records
    }
}

/// The entities that facts are about, fact by fact.
pub open spec fn entities_of(units: Seq<FactUnitView>) -> Seq<EntityView>
    decreases units.len(),
{
    if units.len() == 0 {
        Seq::empty()
    } else {
        entities_of(units.drop_last()) + seq![units.last().subject, units.last().object]
    }
}

pub open spec fn record_ids(records: Seq<GraphRecordView>) -> Seq<Seq<char>> {
    Seq::new(records.len(), |i: int| records[i].id)
}

pub open spec fn entity_ids(entities: Seq<EntityView>) -> Seq<Seq<char>> {
    Seq::new(entities.len(), |i: int| entities[i].id)
}

pub open spec fn fact_ids(facts: Seq<FactView>) -> Seq<Seq<char>> {
    Seq::new(facts.len(), |i: int| facts[i].id)
}

pub open spec fn entity_views(v: Seq<Entity>) -> Seq<EntityView> {
    Seq::new(v.len(), |i: int| v[i]@)
}

/// What belongs to the facts of a context.
#[derive(Debug)]
pub struct BundleMembers {
    pub records: Vec<GraphMemoryRecord>,
    pub entities: Vec<Entity>,
    pub facts: Vec<Fact>,
    pub paths: Vec<Vec<String>>,
}

pub open spec fn path_views(v: Seq<Vec<String>>) -> Seq<Seq<Seq<char>>> {
    Seq::new(v.len(), |i: int| text::strings(v[i]@))
}

/// Whether members are those of some facts: each record, each entity and each
/// row of a fact once, and the path to each fact.
pub open spec fn are_members(
    m: BundleMembers,
    units: Seq<FactUnitView>,
    loaded: Seq<FactView>,
) -> bool {
    &&& graph_types::graph_record_views(m.records@) == picked(
        evidence_of(units),
        first_positions(record_ids(evidence_of(units))),
    )
    &&& entity_views(m.entities@) == picked(
        entities_of(units),
        first_positions(entity_ids(entities_of(units))),
    )
    &&& graph_types::fact_views(m.facts@) == picked(loaded, first_positions(fact_ids(loaded)))
    &&& path_views(m.paths@) == Seq::new(units.len(), |i: int| units[i].path)
}

/// The records that support facts, fact by fact, with their ids.
fn gather_records(units: &Vec<FactContextUnit>) -> (r: (Vec<GraphMemoryRecord>, Vec<String>))
    ensures
        graph_types::graph_record_views(r.0@) == evidence_of(
            graph_types::fact_unit_views(units@),
        ),
        text::strings(r.1@) == record_ids(graph_types::graph_record_views(r.0@)),
{
    let ghost all = graph_types::fact_unit_views(units@);
    let mut records: Vec<GraphMemoryRecord> = Vec::new();
    let mut ids: Vec<String> = Vec::new();
    let mut i: usize = 0;
    proof {
        assert(graph_types::graph_record_views(records@) =~= Seq::<GraphRecordView>::empty());
        assert(text::strings(ids@) =~= Seq::<Seq<char>>::empty());
    }
    while i < units.len()
        invariant
            i <= units@.len(),
            all == graph_types::fact_unit_views(units@),
            graph_types::graph_record_views(records@) == evidence_of(all.take(i as int)),
            text::strings(ids@) =~= record_ids(graph_types::graph_record_views(records@)),
        decreases units@.len() - i,
    {
        let evidence = &units[i].evidence_records;
        let ghost start = graph_types::graph_record_views(records@);
        let ghost these = graph_types::graph_record_views(evidence@);
        let mut j: usize = 0;
        assert(start + these.take(0) =~= start);
        while j < evidence.len()
            invariant
                j <= evidence@.len(),
                these == graph_types::graph_record_views(evidence@),
                graph_types::graph_record_views(records@) == start + these.take(j as int),
                text::strings(ids@) =~= record_ids(graph_types::graph_record_views(records@)),
            decreases evidence@.len() - j,
        {
            let ghost before = records@;
            let ghost before_ids = ids@;
            let record = evidence[j].clone();
            let id = record.id.clone();
            ids.push(id);
            records.push(record);
            proof {
                lemma_strings_push(before_ids, id);
                assert(these[j as int] == record@);
                assert(graph_types::graph_record_views(records@)
                    =~= graph_types::graph_record_views(before).push(record@));
                assert(start + these.take(j + 1) =~= (start + these.take(j as int)).push(
                    record@,
                ));
            }
            j += 1;
        }
        proof {
            assert(these.take(j as int) =~= these);
            assert(all.take(i + 1).drop_last() =~= all.take(i as int));
            assert(all.take(i + 1).last() == units@[i as int]@);
        }
        i += 1;
    }
    assert(all.take(i as int) =~= all);
    (records, ids)
}

/// The entities that facts are about, fact by fact, with their ids.
fn gather_entities(units: &Vec<FactContextUnit>) -> (r: (Vec<Entity>, Vec<String>))
    ensures
        entity_views(r.0@) == entities_of(graph_types::fact_unit_views(units@)),
        text::strings(r.1@) == entity_ids(entity_views(r.0@)),
{
    let ghost all = graph_types::fact_unit_views(units@);
    let mut entities: Vec<Entity> = Vec::new();
    let mut ids: Vec<String> = Vec::new();
    let mut i: usize = 0;
    proof {
        assert(entity_views(entities@) =~= Seq::<EntityView>::empty());
        assert(text::strings(ids@) =~= Seq::<Seq<char>>::empty());
    }
    while i < units.len()
        invariant
            i <= units@.len(),
            all == graph_types::fact_unit_views(units@),
            entity_views(entities@) == entities_of(all.take(i as int)),
            text::strings(ids@) =~= entity_ids(entity_views(entities@)),
        decreases units@.len() - i,
    {
        let ghost before = entities@;
        let ghost before_ids = ids@;
        let subject = units[i].subject_entity.clone();
        let object = units[i].object_entity.clone();
        let subject_id = subject.id.clone();
        let object_id = object.id.clone();
        ids.push(subject_id);
        ids.push(object_id);
        entities.push(subject);
        entities.push(object);
        proof {
            lemma_strings_push(before_ids, subject_id);
            lemma_strings_push(before_ids.push(subject_id), object_id);
            assert(all.take(i + 1).drop_last() =~= all.take(i as int));
            assert(all.take(i + 1).last() == units@[i as int]@);
            assert(entity_views(entities@) =~= entity_views(before) + seq![subject@, object@]);
        }
        i += 1;
    }
    assert(all.take(i as int) =~= all);
    (entities, ids)
}

/// Each of some facts once.
fn distinct_rows(loaded: &Vec<Fact>) -> (r: Vec<Fact>)
    ensures
        graph_types::fact_views(r@) == picked(
            graph_types::fact_views(loaded@),
            first_positions(fact_ids(graph_types::fact_views(loaded@))),
        ),
{
    let ghost all = graph_types::fact_views(loaded@);
    let mut ids: Vec<String> = Vec::new();
    let mut i: usize = 0;
    while i < loaded.len()
        invariant
            i <= loaded@.len(),
            ids@.len() == i,
            forall|k: int| 0 <= k < i ==> (#[trigger] ids@[k])@ == loaded@[k].id@,
        decreases loaded@.len() - i,
    {
        ids.push(loaded[i].id.clone());
        i += 1;
    }
    assert(text::strings(ids@) =~= fact_ids(all));
    let places = first_of_each(&ids);
    let ghost picks = scan::places(places@);
    let mut rows: Vec<Fact> = Vec::new();
    let mut j: usize = 0;
    while j < places.len()
        invariant
            j <= places@.len(),
            picks == scan::places(places@),
            picks == first_positions(fact_ids(all)),
            all == graph_types::fact_views(loaded@),
            graph_types::fact_views(rows@) =~= picked(all, picks).take(j as int),
        decreases places@.len() - j,
    {
        proof {
            lemma_first_position_bounds(fact_ids(all), j as int);
            assert(picks[j as int] == places@[j as int]);
        }
        let ghost before = rows@;
        let row = loaded[places[j]].clone();
        rows.push(row);
        assert(graph_types::fact_views(rows@) =~= graph_types::fact_views(before).push(row@));
        j += 1;
    }
    assert(graph_types::fact_views(rows@) =~= picked(all, picks));
    rows
}

/// What belongs to the facts of a context, each record, each entity and each row
/// of a fact once.
pub fn collect_bundle_members(units: &Vec<FactContextUnit>, loaded: &Vec<Fact>) -> (r:
    BundleMembers)
    ensures
        are_members(
            r,
            graph_types::fact_unit_views(units@),
            graph_types::fact_views(loaded@),
        ),
{
    let ghost all = graph_types::fact_unit_views(units@);
    let (found, found_ids) = gather_records(units);
    let places = first_of_each(&found_ids);
    let ghost picks = scan::places(places@);
    let ghost seen = graph_types::graph_record_views(found@);
    let mut records: Vec<GraphMemoryRecord> = Vec::new();
    let mut i: usize = 0;
    while i < places.len()
        invariant
            i <= places@.len(),
            picks == scan::places(places@),
            picks == first_positions(record_ids(seen)),
            seen == graph_types::graph_record_views(found@),
            graph_types::graph_record_views(records@) =~= picked(seen, picks).take(i as int),
        decreases places@.len() - i,
    {
        proof {
            lemma_first_position_bounds(record_ids(seen), i as int);
            assert(picks[i as int] == places@[i as int]);
        }
        let ghost before = records@;
        let record = found[places[i]].clone();
        records.push(record);
        assert(graph_types::graph_record_views(records@) =~= graph_types::graph_record_views(
            before,
        ).push(record@));
        i += 1;
    }
    assert(graph_types::graph_record_views(records@) =~= picked(seen, picks));

    let (named, named_ids) = gather_entities(units);
    let spots = first_of_each(&named_ids);
    let ghost marks = scan::places(spots@);
    let ghost met = entity_views(named@);
    let mut entities: Vec<Entity> = Vec::new();
    let mut j: usize = 0;
    while j < spots.len()
        invariant
            j <= spots@.len(),
            marks == scan::places(spots@),
            marks == first_positions(entity_ids(met)),
            met == entity_views(named@),
            entity_views(entities@) =~= picked(met, marks).take(j as int),
        decreases spots@.len() - j,
    {
        proof {
            lemma_first_position_bounds(entity_ids(met), j as int);
            assert(marks[j as int] == spots@[j as int]);
        }
        let ghost before = entities@;
        let entity = named[spots[j]].clone();
        entities.push(entity);
        assert(entity_views(entities@) =~= entity_views(before).push(entity@));
        j += 1;
    }
    assert(entity_views(entities@) =~= picked(met, marks));

    let ghost ways = Seq::new(all.len(), |i: int| all[i].path);
    let mut paths: Vec<Vec<String>> = Vec::new();
    let mut k: usize = 0;
    while k < units.len()
        invariant
            k <= units@.len(),
            all == graph_types::fact_unit_views(units@),
            ways == Seq::new(all.len(), |i: int| all[i].path),
            path_views(paths@) =~= ways.take(k as int),
        decreases units@.len() - k,
    {
        let ghost before = paths@;
        let path = clone_strings(&units[k].path);
        paths.push(path);
        proof {
            assert(all[k as int] == units@[k as int]@);
            assert(path_views(paths@) =~= path_views(before).push(text::strings(path@)));
        }
        k += 1;
    }
    assert(path_views(paths@) =~= ways);
    BundleMembers { records, entities, facts: distinct_rows(loaded), paths }
}

/// What a question to the graph brings back.
#[derive(Debug)]
pub struct ContextBundle {
    pub query: String,
    pub memory_space_id: String,
    pub reference_time_ms: u64,
    pub fact_context_units: Vec<FactContextUnit>,
    pub members: BundleMembers,
    pub degraded_reason: Option<String>,
}

/// The context that a question brings back, given the facts that were found for
/// it with their rows, or none where the question has no words to look for.
pub fn context_bundle(
    request: &GraphRetrieveContextRequest,
    found: Option<(Vec<FactContextUnit>, Vec<Fact>)>,
    now: u64,
) -> (r: ContextBundle)
    ensures
        r.query@ == request.query@,
        r.memory_space_id@ == request.memory_space_id@,
        r.reference_time_ms == match request.reference_time_ms {
            Some(t) => t,
            None => now,
        },
        match found {
            Some((units, loaded)) => {
                &&& r.fact_context_units@ == units@
                &&& r.degraded_reason is None
                &&& are_members(
                    r.members,
                    graph_types::fact_unit_views(units@),
                    graph_types::fact_views(loaded@),
                )
            },
            None => {
                &&& r.fact_context_units@.len() == 0
                &&& json::opt_string(r.degraded_reason) == Some(
                    "query produced no graph retrieval terms"@,
                )
                &&& are_members(r.members, Seq::empty(), Seq::empty())
            },
        },
{
    let reference_time_ms = match request.reference_time_ms {
        Some(t) => t,
        None => now,
    };
    let mut degraded_reason: Option<String> = None;
    let (fact_context_units, loaded) = match found {
        Some(found) => found,
        None => {
            degraded_reason = Some("query produced no graph retrieval terms".to_owned());
            (Vec::new(), Vec::new())
        },
    };
    let members = collect_bundle_members(&fact_context_units, &loaded);
    proof {
        if found is None {
            assert(graph_types::fact_unit_views(fact_context_units@) =~= Seq::empty());
            assert(graph_types::fact_views(loaded@) =~= Seq::empty());
        }
    }
    ContextBundle {
        query: request.query.clone(),
        memory_space_id: request.memory_space_id.clone(),
        reference_time_ms,
        fact_context_units,
        members,
        degraded_reason,
    }
}

/// What is taken into a bundle is each member where it stands first, in that order.
pub proof fn members_are_taken_where_they_stand_first(ids: Seq<Seq<char>>, k: int, j: int)
    requires
        0 <= k < first_positions(ids).len(),
    ensures
        0 <= first_positions(ids)[k] < ids.len(),
        0 <= j < first_positions(ids)[k] ==> ids[j] != ids[first_positions(ids)[k]],
        j < k && 0 <= j ==> first_positions(ids)[j] < first_positions(ids)[k],
    decreases ids.len(),
{
    if ids.len() > 0 {
        let t = ids.drop_last();
        if k < first_positions(t).len() {
            members_are_taken_where_they_stand_first(t, k, j);
            let p = first_positions(t)[k];
            assert(t[p] == ids[p]);
            if 0 <= j < p {
                assert(t[j] == ids[j]);
            }
        } else {
            if 0 <= j < t.len() {
                assert(t[j] == ids[j]);
                assert(t.contains(t[j]));
            }
            if 0 <= j < k {
                members_are_taken_where_they_stand_first(t, j, 0);
            }
        }
    }
}

/// A bundle has the evidence of every fact, and its subject and its object, fact by
/// fact.
pub proof fn facts_bring_their_members(a: Seq<FactUnitView>, u: FactUnitView)
    ensures
        evidence_of(a.push(u)) == evidence_of(a) + u.evidence_records,
        entities_of(a.push(u)) == entities_of(a).push(u.subject).push(u.object),
        evidence_of(Seq::empty()).len() == 0,
        entities_of(Seq::empty()).len() == 0,
{
    assert(a.push(u).drop_last() =~= a);
    assert(entities_of(a) + seq![u.subject, u.object] =~= entities_of(a).push(u.subject).push(
        u.object,
    ));
}

} // verus!
