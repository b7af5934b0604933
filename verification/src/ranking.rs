//! The order of search results, and the fusion of the dense and the keyword
//! channel.

use vstd::prelude::*;

use crate::api;
use crate::api::{ScoredMemory, ScoredView};
use crate::record::{MemoryRecord, RecordView};
use crate::text;
use crate::text::{text_eq, text_less};

verus! {

/// Whether `a` is listed before `b`: the higher score first, equal scores in
/// the alphabetical order of the record ids.
pub open spec fn ranks_before(a: ScoredView, b: ScoredView) -> bool {
    a.score > b.score || (a.score == b.score && text::text_before(a.record.id, b.record.id))
}

/// A ranked list with one more result, behind those that it does not precede.
pub open spec fn insert_ranked(s: Seq<ScoredView>, x: ScoredView) -> Seq<ScoredView>
    decreases s.len(),
{
    if s.len() == 0 || !ranks_before(x, s.last()) {
        s.push(x)
    } else {
        insert_ranked(s.drop_last(), x).push(s.last())
    }
}

/// The results in order; results that do not differ in score and id keep the
/// order in which they came.
pub open spec fn ranked(s: Seq<ScoredView>) -> Seq<ScoredView>
    decreases s.len(),
{
    if s.len() == 0 {
        s
    } else {
        insert_ranked(ranked(s.drop_last()), s.last())
    }
}

/// The first `limit` of the results in order.
pub open spec fn top_ranked(s: Seq<ScoredView>, limit: nat) -> Seq<ScoredView> {
    ranked(s).take(api::lesser_of(limit, s.len()) as int)
}

/// No result precedes one that is listed before it.
pub open spec fn in_rank_order(s: Seq<ScoredView>) -> bool {
    forall|i: int, j: int| 0 <= i < j < s.len() ==> !ranks_before(#[trigger] s[j], #[trigger] s[i])
}

pub proof fn ranks_before_is_transitive(a: ScoredView, b: ScoredView, c: ScoredView)
    requires
        ranks_before(a, b),
        ranks_before(b, c),
    ensures
        ranks_before(a, c),
{
    if a.score == b.score && b.score == c.score {
        text::text_before_is_transitive(a.record.id, b.record.id, c.record.id);
    }
}

/// Not preceding is transitive too.
proof fn lemma_not_before(a: ScoredView, b: ScoredView, c: ScoredView)
    requires
        !ranks_before(b, a),
        !ranks_before(c, b),
    ensures
        !ranks_before(c, a),
{
    if ranks_before(c, a) {
        text::text_before_is_total(a.record.id, b.record.id);
        text::text_before_is_total(b.record.id, c.record.id);
        text::text_before_is_total(a.record.id, c.record.id);
        if a.score == b.score && b.score == c.score {
            if a.record.id != b.record.id && b.record.id != c.record.id {
                text::text_before_is_transitive(a.record.id, b.record.id, c.record.id);
            }
        }
    }
}

proof fn lemma_insert_ranked(s: Seq<ScoredView>, x: ScoredView)
    requires
        in_rank_order(s),
    ensures
        in_rank_order(insert_ranked(s, x)),
        insert_ranked(s, x).to_multiset() == s.to_multiset().insert(x),
        insert_ranked(s, x).len() == s.len() + 1,
    decreases s.len(),
{
    broadcast use vstd::seq_lib::group_to_multiset_ensures;
    let r = insert_ranked(s, x);
    if s.len() == 0 || !ranks_before(x, s.last()) {
        assert forall|i: int, j: int| 0 <= i < j < r.len() implies !ranks_before(
            #[trigger] r[j],
            #[trigger] r[i],
        ) by {
            if j == s.len() && i < s.len() - 1 {
                lemma_not_before(s[i], s.last(), x);
            }
        }
    } else {
        let front = s.drop_last();
        assert(in_rank_order(front)) by {
            assert forall|i: int, j: int| 0 <= i < j < front.len() implies !ranks_before(
                #[trigger] front[j],
                #[trigger] front[i],
            ) by {
                assert(front[i] == s[i] && front[j] == s[j]);
            }
        }
        lemma_insert_ranked(front, x);
        let inner = insert_ranked(front, x);
        assert(s =~= front.push(s.last()));
        assert forall|i: int| 0 <= i < inner.len() implies !ranks_before(
            s.last(),
            #[trigger] inner[i],
        ) by {
            assert(inner.to_multiset().contains(inner[i]));
            assert(front.to_multiset().insert(x).contains(inner[i]));
            if inner[i] == x {
                if ranks_before(s.last(), x) {
                    ranks_before_is_transitive(x, s.last(), x);
                    text::text_before_is_total(x.record.id, x.record.id);
                }
            } else {
                assert(front.to_multiset().contains(inner[i]));
                assert(front.contains(inner[i]));
                let k = front.index_of(inner[i]);
                assert(front[k] == inner[i] && s[k] == front[k]);
            }
        }
        assert(front.push(s.last()).to_multiset() =~= front.to_multiset().insert(s.last()));
        assert(r.to_multiset() =~= s.to_multiset().insert(x));
    }
}

/// Ranking puts the results in order and neither drops nor adds any.
pub proof fn ranking_orders_and_keeps_all(s: Seq<ScoredView>)
    ensures
        in_rank_order(ranked(s)),
        ranked(s).to_multiset() == s.to_multiset(),
        ranked(s).len() == s.len(),
    decreases s.len(),
{
    broadcast use vstd::seq_lib::group_to_multiset_ensures;
    if s.len() > 0 {
        ranking_orders_and_keeps_all(s.drop_last());
        lemma_insert_ranked(ranked(s.drop_last()), s.last());
        assert(s =~= s.drop_last().push(s.last()));
    }
}

/// Whether two lists hold the same records, and order them by their scores in the
/// same way, whatever the scores are.
pub open spec fn same_order(a: Seq<ScoredView>, b: Seq<ScoredView>) -> bool {
    &&& a.len() == b.len()
    &&& forall|i: int| 0 <= i < a.len() ==> (#[trigger] a[i]).record == b[i].record
    &&& forall|i: int, j: int|
        #![trigger a[i], a[j]]
        0 <= i < a.len() && 0 <= j < a.len() ==> (a[i].score > a[j].score) == (b[i].score
            > b[j].score)
}

/// The results at some places.
pub open spec fn at_places(s: Seq<ScoredView>, places: Seq<int>) -> Seq<ScoredView> {
    Seq::new(places.len(), |k: int| s[places[k]])
}

proof fn lemma_insert_same(
    s: Seq<ScoredView>,
    t: Seq<ScoredView>,
    x: ScoredView,
    y: ScoredView,
) -> (k: int)
    requires
        s.len() == t.len(),
        forall|i: int|
            0 <= i < s.len() ==> ranks_before(x, #[trigger] s[i]) == ranks_before(y, t[i]),
    ensures
        0 <= k <= s.len(),
        insert_ranked(s, x) == s.insert(k, x),
        insert_ranked(t, y) == t.insert(k, y),
    decreases s.len(),
{
    if s.len() == 0 {
        assert(s.insert(0, x) =~= s.push(x));
        assert(t.insert(0, y) =~= t.push(y));
        0
    } else {
        assert(ranks_before(x, s[s.len() - 1]) == ranks_before(y, t[s.len() - 1]));
        if !ranks_before(x, s.last()) {
            let n = s.len() as int;
            assert(s.insert(n, x) =~= s.push(x));
            assert(t.insert(n, y) =~= t.push(y));
            n
        } else {
            let s1 = s.drop_last();
            let t1 = t.drop_last();
            assert forall|i: int| 0 <= i < s1.len() implies ranks_before(x, #[trigger] s1[i])
                == ranks_before(y, t1[i]) by {
                assert(s1[i] == s[i] && t1[i] == t[i]);
            }
            let k = lemma_insert_same(s1, t1, x, y);
            assert(s1.insert(k, x).push(s.last()) =~= s.insert(k, x));
            assert(t1.insert(k, y).push(t.last()) =~= t.insert(k, y));
            k
        }
    }
}

/// Lists that order the same records in the same way are ranked by one and the
/// same rearrangement.
proof fn lemma_ranked_alike(a: Seq<ScoredView>, b: Seq<ScoredView>) -> (p: Seq<int>)
    requires
        same_order(a, b),
    ensures
        p.len() == a.len(),
        forall|k: int| 0 <= k < p.len() ==> 0 <= #[trigger] p[k] < a.len(),
        ranked(a) == at_places(a, p),
        ranked(b) == at_places(b, p),
    decreases a.len(),
{
    if a.len() == 0 {
        assert(a =~= at_places(a, Seq::empty()));
        assert(b =~= at_places(b, Seq::empty()));
        Seq::empty()
    } else {
        let a1 = a.drop_last();
        let b1 = b.drop_last();
        assert forall|i: int, j: int|
            #![trigger a1[i], a1[j]]
            0 <= i < a1.len() && 0 <= j < a1.len() implies (a1[i].score > a1[j].score) == (
        b1[i].score > b1[j].score) by {
            assert(a1[i] == a[i] && a1[j] == a[j] && b1[i] == b[i] && b1[j] == b[j]);
        }
        assert forall|i: int| 0 <= i < a1.len() implies (#[trigger] a1[i]).record
            == b1[i].record by {
            assert(a1[i] == a[i] && b1[i] == b[i]);
        }
        let p1 = lemma_ranked_alike(a1, b1);
        let s = ranked(a1);
        let t = ranked(b1);
        let n = a.len() - 1;
        assert forall|i: int| 0 <= i < s.len() implies ranks_before(a.last(), #[trigger] s[i])
            == ranks_before(b.last(), t[i]) by {
            let q = p1[i];
            assert(s[i] == a[q] && t[i] == b[q]);
            assert(a[n].record == b[n].record && a[q].record == b[q].record);
            assert((a[n].score > a[q].score) == (b[n].score > b[q].score));
            assert((a[q].score > a[n].score) == (b[q].score > b[n].score));
        }
        let k = lemma_insert_same(s, t, a.last(), b.last());
        let p = p1.insert(k, n);
        assert(at_places(a, p) =~= s.insert(k, a.last()));
        assert(at_places(b, p) =~= t.insert(k, b.last()));
        p
    }
}

/// Ranking goes by the order of the scores alone: lists that order the same
/// records in the same way are ranked alike, whatever the scale of their scores.
pub proof fn ranking_ignores_the_scale_of_scores(
    a: Seq<ScoredView>,
    b: Seq<ScoredView>,
    limit: nat,
)
    requires
        same_order(a, b),
    ensures
        same_order(ranked(a), ranked(b)),
        same_order(top_ranked(a, limit), top_ranked(b, limit)),
{
    let p = lemma_ranked_alike(a, b);
    let s = ranked(a);
    let t = ranked(b);
    assert forall|i: int, j: int|
        #![trigger s[i], s[j]]
        0 <= i < s.len() && 0 <= j < s.len() implies (s[i].score > s[j].score) == (t[i].score
        > t[j].score) by {
        assert(s[i] == a[p[i]] && s[j] == a[p[j]]);
        assert(t[i] == b[p[i]] && t[j] == b[p[j]]);
    }
    assert forall|i: int| 0 <= i < s.len() implies (#[trigger] s[i]).record == t[i].record by {
        assert(s[i] == a[p[i]] && t[i] == b[p[i]]);
    }
    let m = api::lesser_of(limit, a.len()) as int;
    let u = s.take(m);
    let v = t.take(m);
    assert forall|i: int, j: int|
        #![trigger u[i], u[j]]
        0 <= i < u.len() && 0 <= j < u.len() implies (u[i].score > u[j].score) == (v[i].score
        > v[j].score) by {
        assert(u[i] == s[i] && u[j] == s[j] && v[i] == t[i] && v[j] == t[j]);
    }
    assert forall|i: int| 0 <= i < u.len() implies (#[trigger] u[i]).record == v[i].record by {
        assert(u[i] == s[i] && v[i] == t[i]);
    }
}

/// No result that is left out of the first `limit` precedes one that is kept.
pub proof fn top_results_precede_the_rest(s: Seq<ScoredView>, limit: nat, kept: int, left: int)
    requires
        0 <= kept < api::lesser_of(limit, s.len()),
        limit <= left < s.len(),
    ensures
        top_ranked(s, limit)[kept] == ranked(s)[kept],
        !ranks_before(ranked(s)[left], top_ranked(s, limit)[kept]),
{
    ranking_orders_and_keeps_all(s);
}

proof fn lemma_insert_ranked_at(s: Seq<ScoredView>, x: ScoredView, i: int)
    requires
        0 <= i <= s.len(),
        i > 0 ==> !ranks_before(x, s[i - 1]),
        forall|k: int| i <= k < s.len() ==> ranks_before(x, #[trigger] s[k]),
    ensures
        insert_ranked(s, x) == s.insert(i, x),
    decreases s.len() - i,
{
    if i == s.len() {
        assert(s.insert(i, x) =~= s.push(x));
    } else {
        assert(ranks_before(x, s[s.len() - 1]));
        let front = s.drop_last();
        assert forall|k: int| i <= k < front.len() implies ranks_before(x, #[trigger] front[k]) by {
            assert(front[k] == s[k]);
        }
        lemma_insert_ranked_at(front, x, i);
        assert(front.insert(i, x).push(s.last()) =~= s.insert(i, x));
    }
}

fn listed_before(a: &ScoredMemory, b: &ScoredMemory) -> (r: bool)
    ensures
        r == ranks_before(a@, b@),
{
    a.score > b.score || (a.score == b.score && text_less(
        a.record.id.as_str(),
        b.record.id.as_str(),
    ))
}

fn insert_result(results: &mut Vec<ScoredMemory>, x: ScoredMemory)
    ensures
        api::scored_views(final(results)@) == insert_ranked(api::scored_views(old(results)@), x@),
{
    let ghost before = api::scored_views(results@);
    let mut i: usize = results.len();
    while i > 0 && listed_before(&x, &results[i - 1])
        invariant
            i <= results@.len(),
            before == api::scored_views(results@),
            forall|k: int| i <= k < before.len() ==> ranks_before(x@, #[trigger] before[k]),
        ensures
            i <= results@.len(),
            before == api::scored_views(results@),
            forall|k: int| i <= k < before.len() ==> ranks_before(x@, #[trigger] before[k]),
            i > 0 ==> !ranks_before(x@, before[i - 1]),
        decreases i,
    {
        assert(before[i - 1] == results@[i - 1]@);
        i -= 1;
    }
    proof {
        lemma_insert_ranked_at(before, x@, i as int);
    }
    results.insert(i, x);
    assert(api::scored_views(results@) =~= before.insert(i as int, x@));
}

/// Puts results in order.
pub fn sort_scored_desc(results: Vec<ScoredMemory>) -> (r: Vec<ScoredMemory>)
    ensures
        api::scored_views(r@) == ranked(api::scored_views(results@)),
        r@.len() == results@.len(),
{
    let ghost all = api::scored_views(results@);
    let mut sorted: Vec<ScoredMemory> = Vec::new();
    let mut i: usize = 0;
    assert(api::scored_views(sorted@) =~= Seq::empty());
    assert(all.take(0) =~= Seq::empty());
    while i < results.len()
        invariant
            i <= results@.len(),
            all == api::scored_views(results@),
            api::scored_views(sorted@) == ranked(all.take(i as int)),
        decreases results@.len() - i,
    {
        assert(all.take(i + 1).drop_last() =~= all.take(i as int));
        let x = results[i].clone();
        insert_result(&mut sorted, x);
        i += 1;
    }
    assert(all.take(i as int) =~= all);
    proof {
        ranking_orders_and_keeps_all(all);
        assert(sorted@.len() == api::scored_views(sorted@).len());
    }
    sorted
}

/// The first `limit` of the results in order.
pub fn rank_results(results: Vec<ScoredMemory>, limit: usize) -> (r: Vec<ScoredMemory>)
    ensures
        api::scored_views(r@) == top_ranked(api::scored_views(results@), limit as nat),
{
    let ghost all = api::scored_views(results@);
    let mut sorted = sort_scored_desc(results);
    truncate_results(&mut sorted, limit);
    assert(api::scored_views(sorted@) =~= top_ranked(all, limit as nat));
    sorted
}

/// Keeps the first `limit` results.
pub fn truncate_results(results: &mut Vec<ScoredMemory>, limit: usize)
    ensures
        api::scored_views(final(results)@) == api::scored_views(old(results)@).take(
            api::lesser_of(limit as nat, old(results)@.len()) as int,
        ),
{
    let ghost before = results@;
    results.truncate(limit);
    assert(api::scored_views(results@) =~= api::scored_views(before).take(
        api::lesser_of(limit as nat, before.len()) as int,
    ));
}

/// A record that the dense channel, the keyword channel or both have found.
#[derive(Debug)]
pub struct HybridCandidate {
    pub record: MemoryRecord,
    pub dense_score: Option<i32>,
    pub bm25_score: Option<i32>,
}

/// What a [`HybridCandidate`] stands for.
pub struct HybridView {
    pub record: RecordView,
    pub dense_score: Option<i32>,
    pub bm25_score: Option<i32>,
}

impl View for HybridCandidate {
    type V = HybridView;

    open spec fn view(&self) -> HybridView {
        HybridView {
            record: self.record@,
            dense_score: self.dense_score,
            bm25_score: self.bm25_score,
        }
    }
}

pub open spec fn hybrid_views(v: Seq<HybridCandidate>) -> Seq<HybridView> {
    Seq::new(v.len(), |i: int| v[i]@)
}

/// The position of the first candidate with an id, or the number of candidates.
pub open spec fn hybrid_index(s: Seq<HybridView>, id: Seq<char>) -> int
    decreases s.len(),
{
    if s.len() == 0 || s[0].record.id == id {
        0
    } else {
        1 + hybrid_index(s.drop_first(), id)
    }
}

/// The candidates after one more find of the dense channel: it takes the place
/// of an earlier find of the same record.
pub open spec fn with_dense(s: Seq<HybridView>, x: ScoredView) -> Seq<HybridView> {
    let i = hybrid_index(s, x.record.id);
    let found = HybridView {
        record: x.record,
        dense_score: Some(x.score as i32),
        bm25_score: None,
    };
    if i < s.len() {
        s.update(i, found)
    } else {
        s.push(found)
    }
}

/// The candidates after one more find of the keyword channel: it adds its score
/// to a record that is there already.
pub open spec fn with_bm25(s: Seq<HybridView>, x: ScoredView) -> Seq<HybridView> {
    let i = hybrid_index(s, x.record.id);
    if i < s.len() {
        s.update(i, HybridView { bm25_score: Some(x.score as i32), ..s[i] })
    } else {
        s.push(
            HybridView {
                record: x.record,
                dense_score: None,
                bm25_score: Some(x.score as i32),
            },
        )
    }
}

pub open spec fn merged_dense(dense: Seq<ScoredView>) -> Seq<HybridView>
    decreases dense.len(),
{
    if dense.len() == 0 {
        Seq::empty()
    } else {
        with_dense(merged_dense(dense.drop_last()), dense.last())
    }
}

/// The candidates of both channels, one for each record.
pub open spec fn merged_channels(dense: Seq<ScoredView>, bm25: Seq<ScoredView>) -> Seq<HybridView>
    decreases bm25.len(),
{
    if bm25.len() == 0 {
        merged_dense(dense)
    } else {
        with_bm25(merged_channels(dense, bm25.drop_last()), bm25.last())
    }
}

pub open spec fn distinct_candidates(s: Seq<HybridView>) -> bool {
    forall|i: int, j: int|
        0 <= i < j < s.len() ==> #[trigger] s[i].record.id != #[trigger] s[j].record.id
}

proof fn lemma_hybrid_index(s: Seq<HybridView>, id: Seq<char>)
    ensures
        0 <= hybrid_index(s, id) <= s.len(),
        hybrid_index(s, id) < s.len() ==> s[hybrid_index(s, id)].record.id == id,
        forall|k: int| 0 <= k < hybrid_index(s, id) ==> (#[trigger] s[k]).record.id != id,
    decreases s.len(),
{
    if s.len() > 0 && s[0].record.id != id {
        let rest = s.drop_first();
        lemma_hybrid_index(rest, id);
        assert forall|k: int| 0 <= k < hybrid_index(s, id) implies (#[trigger] s[k]).record.id
            != id by {
            if k > 0 {
                assert(s[k] == rest[k - 1]);
            }
        }
    }
}

/// Merging the channels leaves one candidate for each record, and loses none:
/// every find of either channel is among the candidates.
pub proof fn merging_keeps_each_record_once(dense: Seq<ScoredView>, bm25: Seq<ScoredView>)
    ensures
        distinct_candidates(merged_channels(dense, bm25)),
        forall|i: int|
            0 <= i < dense.len() ==> hybrid_index(
                merged_channels(dense, bm25),
                (#[trigger] dense[i]).record.id,
            ) < merged_channels(dense, bm25).len(),
        forall|i: int|
            0 <= i < bm25.len() ==> hybrid_index(
                merged_channels(dense, bm25),
                (#[trigger] bm25[i]).record.id,
            ) < merged_channels(dense, bm25).len(),
    decreases dense.len() + bm25.len(),
{
    if bm25.len() > 0 {
        let before = merged_channels(dense, bm25.drop_last());
        merging_keeps_each_record_once(dense, bm25.drop_last());
        let after = merged_channels(dense, bm25);
        lemma_hybrid_index(before, bm25.last().record.id);
        assert forall|id: Seq<char>| #[trigger] hybrid_index(before, id) < before.len() || id
            == bm25.last().record.id implies hybrid_index(after, id) < after.len() by {
            lemma_hybrid_index(before, id);
            lemma_hybrid_index(after, id);
            if hybrid_index(before, id) < before.len() {
                assert(after[hybrid_index(before, id)].record.id == id);
            } else {
                assert(after[before.len() as int].record.id == id);
            }
        }
        assert forall|i: int| 0 <= i < dense.len() implies hybrid_index(
            after,
            (#[trigger] dense[i]).record.id,
        ) < after.len() by {
            assert(hybrid_index(before, dense[i].record.id) < before.len());
        }
        assert forall|i: int| 0 <= i < bm25.len() implies hybrid_index(
            after,
            (#[trigger] bm25[i]).record.id,
        ) < after.len() by {
            if i < bm25.len() - 1 {
                assert(bm25[i] == bm25.drop_last()[i]);
                assert(hybrid_index(before, bm25[i].record.id) < before.len());
            } else {
                assert(hybrid_index(before, bm25[i].record.id) <= before.len() || true);
            }
        }
    } else if dense.len() > 0 {
        let before = merged_dense(dense.drop_last());
        merging_keeps_each_record_once(dense.drop_last(), bm25);
        assert(merged_channels(dense.drop_last(), bm25) == before);
        let after = merged_dense(dense);
        lemma_hybrid_index(before, dense.last().record.id);
        assert forall|i: int| 0 <= i < dense.len() implies hybrid_index(
            after,
            (#[trigger] dense[i]).record.id,
        ) < after.len() by {
            let id = dense[i].record.id;
            lemma_hybrid_index(before, id);
            lemma_hybrid_index(after, id);
            if i < dense.len() - 1 {
                assert(dense[i] == dense.drop_last()[i]);
                assert(after[hybrid_index(before, id)].record.id == id);
            } else if hybrid_index(before, id) < before.len() {
                assert(after[hybrid_index(before, id)].record.id == id);
            } else {
                assert(after[before.len() as int].record.id == id);
            }
        }
    }
}

fn find_candidate(candidates: &Vec<HybridCandidate>, id: &str) -> (r: usize)
    ensures
        r == hybrid_index(hybrid_views(candidates@), id@),
        r <= candidates@.len(),
{
    let ghost all = hybrid_views(candidates@);
    let mut i: usize = 0;
    assert(all.skip(0) =~= all);
    while i < candidates.len()
        invariant
            i <= candidates@.len(),
            all == hybrid_views(candidates@),
            hybrid_index(all, id@) == i + hybrid_index(all.skip(i as int), id@),
        decreases candidates@.len() - i,
    {
        assert(all.skip(i as int)[0] == candidates@[i as int]@);
        if text_eq(candidates[i].record.id.as_str(), id) {
            return i;
        }
        assert(all.skip(i as int).drop_first() =~= all.skip(i + 1));
        i += 1;
    }
    i
}

/// The candidates of the dense and the keyword channel, one for each record.
pub fn merge_hybrid_candidates(dense: &Vec<ScoredMemory>, bm25: &Vec<ScoredMemory>) -> (r: Vec<
    HybridCandidate,
>)
    ensures
        hybrid_views(r@) == merged_channels(
            api::scored_views(dense@),
            api::scored_views(bm25@),
        ),
{
    let ghost d = api::scored_views(dense@);
    let ghost b = api::scored_views(bm25@);
    let mut merged: Vec<HybridCandidate> = Vec::new();
    let mut i: usize = 0;
    assert(hybrid_views(merged@) =~= Seq::empty());
    assert(d.take(0) =~= Seq::empty());
    while i < dense.len()
        invariant
            i <= dense@.len(),
            d == api::scored_views(dense@),
            hybrid_views(merged@) == merged_dense(d.take(i as int)),
        decreases dense@.len() - i,
    {
        assert(d.take(i + 1).drop_last() =~= d.take(i as int));
        assert(d.take(i + 1).last() == dense@[i as int]@);
        let ghost before = hybrid_views(merged@);
        let at = find_candidate(&merged, dense[i].record.id.as_str());
        let found = HybridCandidate {
            record: dense[i].record.clone(),
            dense_score: Some(dense[i].score),
            bm25_score: None,
        };
        if at < merged.len() {
            merged.set(at, found);
        } else {
            merged.push(found);
        }
        assert(hybrid_views(merged@) =~= with_dense(before, dense@[i as int]@));
        i += 1;
    }
    assert(d.take(i as int) =~= d);
    assert(b.take(0) =~= Seq::empty());
    let mut j: usize = 0;
    while j < bm25.len()
        invariant
            j <= bm25@.len(),
            b == api::scored_views(bm25@),
            hybrid_views(merged@) == merged_channels(d, b.take(j as int)),
        decreases bm25@.len() - j,
    {
        assert(b.take(j + 1).drop_last() =~= b.take(j as int));
        assert(b.take(j + 1).last() == bm25@[j as int]@);
        let ghost before = hybrid_views(merged@);
        let at = find_candidate(&merged, bm25[j].record.id.as_str());
        if at < merged.len() {
            let found = HybridCandidate {
                record: merged[at].record.clone(),
                dense_score: merged[at].dense_score,
                bm25_score: Some(bm25[j].score),
            };
            assert(before[at as int] == merged@[at as int]@);
            merged.set(at, found);
        } else {
            merged.push(
                HybridCandidate {
                    record: bm25[j].record.clone(),
                    dense_score: None,
                    bm25_score: Some(bm25[j].score),
                },
            );
        }
        assert(hybrid_views(merged@) =~= with_bm25(before, bm25@[j as int]@));
        j += 1;
    }
    assert(b.take(j as int) =~= b);
    merged
}

/// The candidates with their fused scores.
pub open spec fn with_scores(candidates: Seq<HybridView>, scores: Seq<i32>) -> Seq<ScoredView> {
    Seq::new(
        candidates.len(),
        |i: int| ScoredView { record: candidates[i].record, score: scores[i] as int },
    )
}

/// The best `top_k` candidates by their fused scores; `scores` holds one for
/// each candidate.
pub fn fuse_hybrid_candidates(
    candidates: &Vec<HybridCandidate>,
    scores: &Vec<i32>,
    top_k: usize,
) -> (r: Vec<ScoredMemory>)
    requires
        scores@.len() == candidates@.len(),
    ensures
        api::scored_views(r@) == top_ranked(
            with_scores(hybrid_views(candidates@), scores@),
            top_k as nat,
        ),
{
    let mut scored: Vec<ScoredMemory> = Vec::new();
    let mut i: usize = 0;
    while i < candidates.len()
        invariant
            i <= candidates@.len(),
            scores@.len() == candidates@.len(),
            scored@.len() == i,
            forall|k: int|
                0 <= k < i ==> (#[trigger] scored@[k])@ == (ScoredView {
                    record: candidates@[k]@.record,
                    score: scores@[k] as int,
                }),
        decreases candidates@.len() - i,
    {
        scored.push(ScoredMemory { record: candidates[i].record.clone(), score: scores[i] });
        i += 1;
    }
    assert(api::scored_views(scored@) =~= with_scores(hybrid_views(candidates@), scores@));
    rank_results(scored, top_k)
}

/// Whether a find is the last one of its record.
pub open spec fn is_last_find(finds: Seq<ScoredView>, id: Seq<char>, j: int) -> bool {
    &&& 0 <= j < finds.len()
    &&& finds[j].record.id == id
    &&& forall|l: int| j < l < finds.len() ==> (#[trigger] finds[l]).record.id != id
}

/// Whether a find is the first one of its record.
pub open spec fn is_first_find(finds: Seq<ScoredView>, id: Seq<char>, j: int) -> bool {
    &&& 0 <= j < finds.len()
    &&& finds[j].record.id == id
    &&& forall|l: int| 0 <= l < j ==> (#[trigger] finds[l]).record.id != id
}

/// Whether finds hold a record.
pub open spec fn is_found(finds: Seq<ScoredView>, id: Seq<char>) -> bool {
    exists|j: int| 0 <= j < finds.len() && (#[trigger] finds[j]).record.id == id
}

/// Whether a score is that of the last find of a record; there is none where the
/// record was not found.
pub open spec fn is_last_score(finds: Seq<ScoredView>, id: Seq<char>, score: Option<i32>) -> bool {
    match score {
        Some(v) => exists|j: int| #[trigger]
            is_last_find(finds, id, j) && v == finds[j].score as i32,
        None => !is_found(finds, id),
    }
}

/// Whether a candidate is what two channels say of its record.
pub open spec fn is_candidate_of(
    c: HybridView,
    dense: Seq<ScoredView>,
    bm25: Seq<ScoredView>,
) -> bool {
    let id = c.record.id;
    &&& is_last_score(dense, id, c.dense_score)
    &&& is_last_score(bm25, id, c.bm25_score)
    &&& if is_found(dense, id) {
        exists|j: int| #[trigger] is_last_find(dense, id, j) && c.record == dense[j].record
    } else {
        exists|j: int| #[trigger] is_first_find(bm25, id, j) && c.record == bm25[j].record
    }
}

proof fn lemma_found_grows(finds: Seq<ScoredView>, id: Seq<char>)
    requires
        finds.len() > 0,
    ensures
        is_found(finds, id) <==> is_found(finds.drop_last(), id) || finds.last().record.id == id,
{
    let front = finds.drop_last();
    if is_found(front, id) {
        let j = choose|j: int| 0 <= j < front.len() && (#[trigger] front[j]).record.id == id;
        assert(finds[j].record.id == id);
    }
    if finds.last().record.id == id {
        assert(finds[finds.len() - 1].record.id == id);
    }
    if is_found(finds, id) {
        let j = choose|j: int| 0 <= j < finds.len() && (#[trigger] finds[j]).record.id == id;
        if j < front.len() {
            assert(front[j].record.id == id);
        }
    }
}

proof fn lemma_finds_stay(finds: Seq<ScoredView>, id: Seq<char>, j: int)
    requires
        finds.len() > 0,
    ensures
        is_last_find(finds.drop_last(), id, j) && finds.last().record.id != id ==> is_last_find(
            finds,
            id,
            j,
        ),
        is_first_find(finds.drop_last(), id, j) ==> is_first_find(finds, id, j),
{
    let front = finds.drop_last();
    if is_last_find(front, id, j) && finds.last().record.id != id {
        assert forall|l: int| j < l < finds.len() implies (#[trigger] finds[l]).record.id != id by {
            if l < front.len() {
                assert(front[l].record.id != id);
            }
        }
    }
    if is_first_find(front, id, j) {
        assert forall|l: int| 0 <= l < j implies (#[trigger] finds[l]).record.id != id by {
            assert(front[l].record.id != id);
        }
    }
}

proof fn lemma_merged_candidate(dense: Seq<ScoredView>, bm25: Seq<ScoredView>, k: int)
    requires
        0 <= k < merged_channels(dense, bm25).len(),
    ensures
        is_candidate_of(merged_channels(dense, bm25)[k], dense, bm25),
    decreases bm25.len(), dense.len(),
{
    let all = merged_channels(dense, bm25);
    let c = all[k];
    let id = c.record.id;
    if bm25.len() > 0 {
        let front = bm25.drop_last();
        let x = bm25.last();
        let before = merged_channels(dense, front);
        merging_keeps_each_record_once(dense, front);
        lemma_hybrid_index(before, x.record.id);
        lemma_found_grows(bm25, id);
        let at = hybrid_index(before, x.record.id);
        if k < before.len() {
            lemma_merged_candidate(dense, front, k);
            let b = before[k];
            assert(b.record == c.record && b.dense_score == c.dense_score);
            if !is_found(dense, id) {
                let j = choose|j: int| #[trigger]
                    is_first_find(front, id, j) && b.record == front[j].record;
                lemma_finds_stay(bm25, id, j);
                assert(is_first_find(bm25, id, j) && c.record == bm25[j].record);
            }
            if k == at {
                assert(is_last_find(bm25, id, bm25.len() - 1));
            } else {
                assert(x.record.id != id) by {
                    if at < before.len() {
                        if k < at {
                            assert(before[k].record.id != before[at].record.id);
                        } else {
                            assert(before[at].record.id != before[k].record.id);
                        }
                    }
                }
                if b.bm25_score is Some {
                    let j = choose|j: int| #[trigger]
                        is_last_find(front, id, j) && b.bm25_score->0 == front[j].score as i32;
                    lemma_finds_stay(bm25, id, j);
                    assert(is_last_find(bm25, id, j) && b.bm25_score->0 == bm25[j].score as i32);
                }
            }
        } else {
            assert(at == before.len() && id == x.record.id);
            assert(!is_found(dense, id)) by {
                if is_found(dense, id) {
                    let j = choose|j: int|
                        0 <= j < dense.len() && (#[trigger] dense[j]).record.id == id;
                    assert(hybrid_index(before, dense[j].record.id) < before.len());
                }
            }
            assert forall|l: int| 0 <= l < front.len() implies (#[trigger] bm25[l]).record.id
                != id by {
                assert(front[l] == bm25[l]);
                assert(hybrid_index(before, front[l].record.id) < before.len());
            }
            assert(is_first_find(bm25, id, bm25.len() - 1));
            assert(is_last_find(bm25, id, bm25.len() - 1));
        }
    } else {
        let front = dense.drop_last();
        let x = dense.last();
        let before = merged_dense(front);
        assert(before == merged_channels(front, bm25));
        merging_keeps_each_record_once(front, bm25);
        lemma_hybrid_index(before, x.record.id);
        lemma_found_grows(dense, id);
        let at = hybrid_index(before, x.record.id);
        if k == at {
            assert(is_last_find(dense, id, dense.len() - 1));
        } else {
            lemma_merged_candidate(front, bm25, k);
            assert(before[k] == c);
            assert(x.record.id != id) by {
                if at < before.len() {
                    if k < at {
                        assert(before[k].record.id != before[at].record.id);
                    } else {
                        assert(before[at].record.id != before[k].record.id);
                    }
                }
            }
            assert(is_found(front, id)) by {
                if !is_found(front, id) {
                    let j = choose|j: int| #[trigger]
                        is_first_find(bm25, id, j) && c.record == bm25[j].record;
                    assert(false);
                }
            }
            let j = choose|j: int| #[trigger]
                is_last_find(front, id, j) && c.record == front[j].record;
            lemma_finds_stay(dense, id, j);
            assert(is_last_find(dense, id, j) && c.record == dense[j].record);
            let i = choose|i: int| #[trigger]
                is_last_find(front, id, i) && c.dense_score->0 == front[i].score as i32;
            lemma_finds_stay(dense, id, i);
            assert(is_last_find(dense, id, i) && c.dense_score->0 == dense[i].score as i32);
        }
    }
}

/// A candidate carries what each channel says of its record: the score of the
/// last find of the dense channel and that of the last find of the keyword
/// channel, and no score of a channel that has not found it. The record is as the
/// dense channel found it, or else as the keyword channel found it first.
pub proof fn candidates_carry_both_scores(dense: Seq<ScoredView>, bm25: Seq<ScoredView>, k: int)
    requires
        0 <= k < merged_channels(dense, bm25).len(),
    ensures
        is_candidate_of(merged_channels(dense, bm25)[k], dense, bm25),
{
    lemma_merged_candidate(dense, bm25, k);
}

/// There is exactly one candidate for every record that a channel has found, and
/// none for any other.
pub proof fn candidates_are_the_finds(dense: Seq<ScoredView>, bm25: Seq<ScoredView>, id: Seq<char>)
    ensures
        (exists|k: int|
            0 <= k < merged_channels(dense, bm25).len() && (#[trigger] merged_channels(
                dense,
                bm25,
            )[k]).record.id == id) <==> is_found(dense, id) || is_found(bm25, id),
        forall|i: int, j: int|
            0 <= i < j < merged_channels(dense, bm25).len() ==> (#[trigger] merged_channels(
                dense,
                bm25,
            )[i]).record.id != (#[trigger] merged_channels(dense, bm25)[j]).record.id,
{
    let all = merged_channels(dense, bm25);
    merging_keeps_each_record_once(dense, bm25);
    lemma_hybrid_index(all, id);
    if is_found(dense, id) {
        let j = choose|j: int| 0 <= j < dense.len() && (#[trigger] dense[j]).record.id == id;
        assert(hybrid_index(all, dense[j].record.id) < all.len());
    }
    if is_found(bm25, id) {
        let j = choose|j: int| 0 <= j < bm25.len() && (#[trigger] bm25[j]).record.id == id;
        assert(hybrid_index(all, bm25[j].record.id) < all.len());
    }
    if exists|k: int| 0 <= k < all.len() && (#[trigger] all[k]).record.id == id {
        let k = choose|k: int| 0 <= k < all.len() && (#[trigger] all[k]).record.id == id;
        lemma_merged_candidate(dense, bm25, k);
        if !is_found(dense, id) {
            let j = choose|j: int| #[trigger]
                is_first_find(bm25, id, j) && all[k].record == bm25[j].record;
            assert(bm25[j].record.id == id);
        }
    }
}

/// Whether one result may stand before another: its score is higher, or as high
/// with an id that does not come later in the alphabet.
pub open spec fn may_stand_before(a: ScoredView, b: ScoredView) -> bool {
    a.score > b.score || (a.score == b.score && (a.record.id == b.record.id || text::text_before(
        a.record.id,
        b.record.id,
    )))
}

/// The results that are kept are as many as wanted, as far as there are any; they
/// are some of those given; they go from the highest score to the lowest, equal
/// scores by their ids; and none that is left out has a higher score than one
/// that is kept.
pub proof fn top_results_have_the_highest_scores(s: Seq<ScoredView>, limit: nat)
    ensures
        top_ranked(s, limit).len() == (if limit < s.len() {
            limit
        } else {
            s.len()
        }),
        top_ranked(s, limit).to_multiset().subset_of(s.to_multiset()),
        forall|i: int, j: int|
            0 <= i < j < top_ranked(s, limit).len() ==> may_stand_before(
                #[trigger] top_ranked(s, limit)[i],
                #[trigger] top_ranked(s, limit)[j],
            ),
        forall|x: ScoredView, i: int|
            0 <= i < top_ranked(s, limit).len() && #[trigger] s.to_multiset().count(x)
                > top_ranked(s, limit).to_multiset().count(x) ==> may_stand_before(
                #[trigger] top_ranked(s, limit)[i],
                x,
            ),
{
    broadcast use vstd::seq_lib::group_to_multiset_ensures;

    let all = ranked(s);
    let top = top_ranked(s, limit);
    let rest = all.skip(top.len() as int);
    ranking_orders_and_keeps_all(s);
    assert(all =~= top + rest);
    vstd::seq_lib::lemma_multiset_commutative(top, rest);
    assert forall|i: int, j: int| 0 <= i < j < all.len() implies may_stand_before(
        #[trigger] all[i],
        #[trigger] all[j],
    ) by {
        assert(!ranks_before(all[j], all[i]));
        text::text_before_is_total(all[i].record.id, all[j].record.id);
    }
    assert forall|i: int, j: int| 0 <= i < j < top.len() implies may_stand_before(
        #[trigger] top[i],
        #[trigger] top[j],
    ) by {
        assert(may_stand_before(all[i], all[j]));
    }
    assert forall|x: ScoredView, i: int|
        0 <= i < top.len() && #[trigger] s.to_multiset().count(x) > top.to_multiset().count(
            x,
        ) implies may_stand_before(#[trigger] top[i], x) by {
        assert(s.to_multiset() == top.to_multiset().add(rest.to_multiset()));
        assert(rest.to_multiset().count(x) > 0);
        assert(rest.contains(x));
        let j = choose|j: int| 0 <= j < rest.len() && rest[j] == x;
        assert(all[top.len() + j] == x);
        assert(may_stand_before(all[i], all[top.len() + j]));
    }
}

/// A fused result is a candidate with the score that was computed for it.
pub proof fn fused_results_keep_their_scores(
    candidates: Seq<HybridView>,
    scores: Seq<i32>,
    top_k: nat,
    r: int,
)
    requires
        scores.len() == candidates.len(),
        0 <= r < top_ranked(with_scores(candidates, scores), top_k).len(),
    ensures
        exists|i: int|
            0 <= i < candidates.len() && #[trigger] candidates[i].record == top_ranked(
                with_scores(candidates, scores),
                top_k,
            )[r].record && scores[i] == top_ranked(with_scores(candidates, scores), top_k)[r].score,
{
    broadcast use vstd::seq_lib::group_to_multiset_ensures;

    let all = with_scores(candidates, scores);
    let top = top_ranked(all, top_k);
    ranking_orders_and_keeps_all(all);
    assert(ranked(all).contains(top[r])) by {
        assert(ranked(all)[r] == top[r]);
    }
    assert(ranked(all).to_multiset().count(top[r]) > 0);
    assert(all.contains(top[r]));
    let i = choose|i: int| 0 <= i < all.len() && all[i] == top[r];
    assert(candidates[i].record == top[r].record);
}

} // verus!
