//! How the graph answers a query: the full-text query, the seeds that it finds,
//! the facts that they lead to, and the context that these bring along.

use vstd::prelude::*;
use vstd::string::*;

use crate::api::{GraphRetrieveContextRequest, MAX_GRAPH_RETRIEVAL_QUERY_BYTES};
use crate::error::{MemoryError, MemoryErrorView};
use crate::order;
use crate::order::{sort_stable, Ordered};
use crate::text;
use crate::text::{
    clone_strings, holds_text, join_texts, push_decimal, split_words, text_eq, text_less,
    text_starts_with, to_chars, trim, utf8_len,
};

verus! {

/// The most terms that a full-text query has.
pub const MAX_GRAPH_FTS_QUERY_TERMS: usize = 256;

/// A text with each of its quotes doubled.
pub open spec fn doubled_quotes(s: Seq<char>) -> Seq<char>
    decreases s.len(),
{
    if s.len() == 0 {
        Seq::empty()
    } else if s.last() == '"' {
        doubled_quotes(s.drop_last()) + seq!['"', '"']
    } else {
        doubled_quotes(s.drop_last()).push(s.last())
    }
}

/// A term of a full-text query: the word in quotes.
pub open spec fn quoted_term(word: Seq<char>) -> Seq<char> {
    (seq!['"'] + doubled_quotes(word)).push('"')
}

pub open spec fn quoted_terms(words: Seq<Seq<char>>) -> Seq<Seq<char>> {
    Seq::new(words.len(), |i: int| quoted_term(words[i]))
}

/// The words that a full-text query looks for.
pub open spec fn query_words(query: Seq<char>) -> Seq<Seq<char>> {
    let words = text::words_of(query);
    if words.len() <= MAX_GRAPH_FTS_QUERY_TERMS {
        words
    } else {
        words.take(MAX_GRAPH_FTS_QUERY_TERMS as int)
    }
}

/// The full-text query for any of the words of a query.
pub open spec fn fts_query_of(query: Seq<char>) -> Option<Seq<char>> {
    if text::words_of(query).len() == 0 {
        None
    } else {
        Some(text::joined(quoted_terms(query_words(query)), " OR "@))
    }
}

fn quote_term(word: &str) -> (r: String)
    ensures
        r@ == quoted_term(word@),
{
    let chars = to_chars(word);
    let mut r = String::new();
    r.push('"');
    let mut i: usize = 0;
    while i < chars.len()
        invariant
            i <= chars@.len(),
            r@ == seq!['"'] + doubled_quotes(chars@.take(i as int)),
        decreases chars@.len() - i,
    {
        assert(chars@.take(i + 1).drop_last() =~= chars@.take(i as int));
        let c = chars[i];
        r.push(c);
        if c == '"' {
            r.push('"');
        }
        assert(r@ =~= seq!['"'] + doubled_quotes(chars@.take(i + 1)));
        i += 1;
    }
    assert(chars@.take(i as int) =~= word@);
    r.push('"');
    r
}

/// The full-text query for any of the words of a query, of which no more than
/// the first [`MAX_GRAPH_FTS_QUERY_TERMS`] count. There is none without words.
pub fn graph_fts_query(query: &str) -> (r: Option<String>)
    ensures
        match r {
            Some(q) => fts_query_of(query@) == Some(q@),
            None => fts_query_of(query@) is None,
        },
{
    let words = split_words(query);
    if words.len() == 0 {
        return None;
    }
    let ghost all = text::words_of(query@);
    let mut terms: Vec<String> = Vec::new();
    let mut i: usize = 0;
    while i < words.len() && i < MAX_GRAPH_FTS_QUERY_TERMS
        invariant
            i <= words@.len(),
            i <= MAX_GRAPH_FTS_QUERY_TERMS,
            text::strings(words@) == all,
            text::strings(terms@) == quoted_terms(all.take(i as int)),
        decreases words@.len() - i,
    {
        let ghost before = terms@;
        let term = quote_term(words[i].as_str());
        terms.push(term);
        proof {
            text::lemma_strings_push(before, term);
            assert(words@[i as int]@ == all[i as int]);
            assert(quoted_terms(all.take(i + 1)) =~= quoted_terms(all.take(i as int)).push(
                term@,
            ));
        }
        i += 1;
    }
    assert(all.take(i as int) =~= query_words(query@));
    Some(join_texts(&terms, " OR "))
}

/// What a retrieval comes to before the graph is read.
pub open spec fn retrieval_query_of(query: Seq<char>) -> Result<Option<Seq<char>>, MemoryErrorView> {
    if text::is_blank(query) {
        Err(MemoryErrorView::InvalidInput("graph retrieval query must not be empty"@))
    } else if text::byte_len(text::trimmed(query)) > MAX_GRAPH_RETRIEVAL_QUERY_BYTES {
        Err(
            MemoryErrorView::InvalidInput(
                "graph retrieval query must be at most 4096 bytes"@,
            ),
        )
    } else {
        Ok(fts_query_of(text::trimmed(query)))
    }
}

/// The full-text query of a retrieval. A blank query and one of more than
/// [`MAX_GRAPH_RETRIEVAL_QUERY_BYTES`] bytes are refused.
pub fn retrieval_fts_query(request: &GraphRetrieveContextRequest) -> (r: Result<
    Option<String>,
    MemoryError,
>)
    ensures
        match r {
            Ok(q) => retrieval_query_of(request.query@) == Ok::<_, MemoryErrorView>(
                crate::json::opt_string(q),
            ),
            Err(e) => retrieval_query_of(request.query@) == Err::<Option<Seq<char>>, _>(e@),
        },
{
    let query = trim(request.query.as_str());
    if query.is_empty() {
        return Err(MemoryError::invalid_input("graph retrieval query must not be empty"));
    }
    if utf8_len(query) > MAX_GRAPH_RETRIEVAL_QUERY_BYTES {
        return Err(
            MemoryError::invalid_input("graph retrieval query must be at most 4096 bytes"),
        );
    }
    Ok(graph_fts_query(query))
}

/// What a seed is.
#[derive(Clone, Copy, Debug, PartialEq, Eq, Structural)]
pub enum GraphSeedKind {
    Entity,
    Fact,
}

/// An entity or a fact that a query has found. The score stands as its place in
/// the order of scores.
#[derive(Debug)]
pub struct GraphSeed {
    pub kind: GraphSeedKind,
    pub id: String,
    pub score: i32,
}

/// What a [`GraphSeed`] stands for.
pub struct SeedView {
    pub kind: GraphSeedKind,
    pub id: Seq<char>,
    pub score: i32,
}

impl View for GraphSeed {
    type V = SeedView;

    open spec fn view(&self) -> SeedView {
        SeedView { kind: self.kind, id: self.id@, score: self.score }
    }
}

pub open spec fn seed_views(v: Seq<GraphSeed>) -> Seq<SeedView> {
    Seq::new(v.len(), |i: int| v[i]@)
}

/// Appends the seeds of one search, best first, with the scores of their ranks.
pub fn append_ranked_seeds(
    kind: GraphSeedKind,
    ids: &Vec<String>,
    scores: &Vec<i32>,
    seeds: &mut Vec<GraphSeed>,
)
    requires
        ids@.len() <= scores@.len(),
    ensures
        seed_views(final(seeds)@) == seed_views(old(seeds)@) + Seq::new(
            ids@.len(),
            |i: int| SeedView { kind, id: ids@[i]@, score: scores@[i] },
        ),
{
    let ghost added = Seq::new(
        ids@.len(),
        |i: int| SeedView { kind, id: ids@[i]@, score: scores@[i] },
    );
    let ghost first = seed_views(seeds@);
    let mut i: usize = 0;
    assert(first + added.take(0) =~= first);
    while i < ids.len()
        invariant
            i <= ids@.len(),
            ids@.len() <= scores@.len(),
            added == Seq::new(
                ids@.len(),
                |i: int| SeedView { kind, id: ids@[i]@, score: scores@[i] },
            ),
            seed_views(seeds@) == first + added.take(i as int),
        decreases ids@.len() - i,
    {
        let ghost before = seeds@;
        seeds.push(GraphSeed { kind, id: ids[i].clone(), score: scores[i] });
        proof {
            assert(seed_views(seeds@) =~= seed_views(before).push(added[i as int]));
            assert(first + added.take(i + 1) =~= (first + added.take(i as int)).push(
                added[i as int],
            ));
        }
        i += 1;
    }
    assert(added.take(i as int) =~= added);
}

/// Where the seed of a kind and id stands, or the length of the list.
pub open spec fn seed_index(s: Seq<SeedView>, kind: GraphSeedKind, id: Seq<char>) -> int
    decreases s.len(),
{
    if s.len() == 0 {
        0
    } else if s[0].kind == kind && s[0].id == id {
        0
    } else {
        1 + seed_index(s.drop_first(), kind, id)
    }
}

/// Seeds with one more. A seed that is there already keeps its place and its
/// better score.
pub open spec fn with_seed(s: Seq<SeedView>, x: SeedView) -> Seq<SeedView> {
    let k = seed_index(s, x.kind, x.id);
    if k < s.len() {
        s.update(
            k,
            SeedView {
                score: if x.score > s[k].score {
                    x.score
                } else {
                    s[k].score
                },
                ..s[k]
            },
        )
    } else {
        s.push(x)
    }
}

/// Each seed once, with its best score.
pub open spec fn merged_seeds(s: Seq<SeedView>) -> Seq<SeedView>
    decreases s.len(),
{
    if s.len() == 0 {
        Seq::empty()
    } else {
        with_seed(merged_seeds(s.drop_last()), s.last())
    }
}

proof fn lemma_seed_index(s: Seq<SeedView>, kind: GraphSeedKind, id: Seq<char>)
    ensures
        0 <= seed_index(s, kind, id) <= s.len(),
        seed_index(s, kind, id) < s.len() ==> s[seed_index(s, kind, id)].kind == kind
            && s[seed_index(s, kind, id)].id == id,
        forall|i: int|
            0 <= i < seed_index(s, kind, id) ==> !((#[trigger] s[i]).kind == kind && s[i].id
                == id),
    decreases s.len(),
{
    if s.len() > 0 && !(s[0].kind == kind && s[0].id == id) {
        lemma_seed_index(s.drop_first(), kind, id);
        let k = seed_index(s.drop_first(), kind, id);
        assert forall|i: int| 0 <= i < k + 1 implies !((#[trigger] s[i]).kind == kind && s[i].id
            == id) by {
            if i > 0 {
                assert(s[i] == s.drop_first()[i - 1]);
            }
        }
    }
}

/// Whether each seed stands once.
pub open spec fn distinct_seeds(s: Seq<SeedView>) -> bool {
    forall|i: int, j: int|
        0 <= i < j < s.len() ==> !((#[trigger] s[i]).kind == (#[trigger] s[j]).kind && s[i].id
            == s[j].id)
}

proof fn lemma_merged_seeds(s: Seq<SeedView>)
    ensures
        distinct_seeds(merged_seeds(s)),
        forall|i: int|
            #![trigger s[i]]
            0 <= i < s.len() ==> exists|k: int|
                0 <= k < merged_seeds(s).len() && (#[trigger] merged_seeds(s)[k]).kind == s[i].kind
                    && merged_seeds(s)[k].id == s[i].id && merged_seeds(s)[k].score >= s[i].score,
    decreases s.len(),
{
    if s.len() > 0 {
        let t = s.drop_last();
        let x = s.last();
        lemma_merged_seeds(t);
        let m = merged_seeds(t);
        let r = merged_seeds(s);
        lemma_seed_index(m, x.kind, x.id);
        let k = seed_index(m, x.kind, x.id);
        assert forall|i: int| #![trigger s[i]] 0 <= i < s.len() implies exists|k: int|
            0 <= k < r.len() && (#[trigger] r[k]).kind == s[i].kind && r[k].id == s[i].id
                && r[k].score >= s[i].score by {
            if i < t.len() {
                assert(t[i] == s[i]);
                let j = choose|j: int|
                    0 <= j < m.len() && (#[trigger] m[j]).kind == t[i].kind && m[j].id == t[i].id
                        && m[j].score >= t[i].score;
                assert(r[j].kind == s[i].kind);
            } else if k < m.len() {
                assert(r[k].kind == s[i].kind);
            } else {
                assert(r[m.len() as int].kind == s[i].kind);
            }
        }
    }
}

/// Merging keeps each seed once, with the best of its scores.
pub proof fn merging_keeps_each_seed_once(s: Seq<SeedView>, i: int)
    requires
        0 <= i < s.len(),
    ensures
        distinct_seeds(merged_seeds(s)),
        exists|k: int|
            0 <= k < merged_seeds(s).len() && (#[trigger] merged_seeds(s)[k]).kind == s[i].kind
                && merged_seeds(s)[k].id == s[i].id && merged_seeds(s)[k].score >= s[i].score,
{
    lemma_merged_seeds(s);
}

impl Ordered for GraphSeed {
    /// Higher scores go first, and among equal scores the lesser id.
    open spec fn precedes(&self, other: &Self) -> bool {
        self.score > other.score || (self.score == other.score && text::text_before(
            self.id@,
            other.id@,
        ))
    }

    proof fn order_is_weak(a: &Self, b: &Self, c: &Self) {
        lemma_text_order(a.id@, b.id@, c.id@);
    }

    fn goes_before(&self, other: &Self) -> (r: bool) {
        self.score > other.score || (self.score == other.score && text_less(
            self.id.as_str(),
            other.id.as_str(),
        ))
    }
}

pub proof fn lemma_text_order(a: Seq<char>, b: Seq<char>, c: Seq<char>)
    ensures
        !(text::text_before(a, b) && text::text_before(b, a)),
        !text::text_before(b, a) && !text::text_before(c, b) ==> !text::text_before(c, a),
{
    text::text_before_is_total(a, b);
    text::text_before_is_total(b, c);
    text::text_before_is_total(a, c);
    if text::text_before(c, a) {
        if text::text_before(a, b) {
            text::text_before_is_transitive(c, a, b);
        }
    }
}

fn find_seed(seeds: &Vec<GraphSeed>, kind: GraphSeedKind, id: &str) -> (r: usize)
    ensures
        r == seed_index(seed_views(seeds@), kind, id@),
        r <= seeds@.len(),
{
    let ghost s = seed_views(seeds@);
    proof {
        lemma_seed_index(s, kind, id@);
        assert(s.skip(0) =~= s);
    }
    let mut i: usize = 0;
    while i < seeds.len()
        invariant
            i <= seeds@.len(),
            s == seed_views(seeds@),
            seed_index(s, kind, id@) == i + seed_index(s.skip(i as int), kind, id@),
            seed_index(s, kind, id@) <= s.len(),
        decreases seeds@.len() - i,
    {
        assert(s.skip(i as int)[0] == seeds@[i as int]@);
        if seeds[i].kind == kind && text_eq(seeds[i].id.as_str(), id) {
            return i;
        }
        assert(s.skip(i as int).drop_first() =~= s.skip(i + 1));
        i += 1;
    }
    i
}

/// The seeds of all searches: each once with its best score, the best first, as
/// many as the limit allows.
pub fn merge_seeds(seeds: Vec<GraphSeed>, limit: usize) -> (r: Vec<GraphSeed>)
    ensures
        exists|m: Seq<GraphSeed>|
            seed_views(m) == merged_seeds(seed_views(seeds@)) && r@ == order::in_order(
                m,
            ).take(
                if limit < m.len() {
                    limit as int
                } else {
                    m.len() as int
                },
            ),
{
    let ghost s = seed_views(seeds@);
    let mut merged: Vec<GraphSeed> = Vec::new();
    let mut i: usize = 0;
    assert(seed_views(merged@) =~= Seq::<SeedView>::empty());
    while i < seeds.len()
        invariant
            i <= seeds@.len(),
            s == seed_views(seeds@),
            seed_views(merged@) == merged_seeds(s.take(i as int)),
        decreases seeds@.len() - i,
    {
        let seed = &seeds[i];
        let ghost before = merged@;
        proof {
            assert(s.take(i + 1).drop_last() =~= s.take(i as int));
            assert(s.take(i + 1).last() == seed@);
        }
        let k = find_seed(&merged, seed.kind, seed.id.as_str());
        if k < merged.len() {
            let score = if seed.score > merged[k].score {
                seed.score
            } else {
                merged[k].score
            };
            let id = merged[k].id.clone();
            let kind = merged[k].kind;
            merged.set(k, GraphSeed { kind, id, score });
        } else {
            merged.push(GraphSeed { kind: seed.kind, id: seed.id.clone(), score: seed.score });
        }
        assert(seed_views(merged@) =~= with_seed(seed_views(before), seed@));
        i += 1;
    }
    assert(s.take(i as int) =~= s);
    let ghost m = merged@;
    let mut r = sort_stable(merged);
    proof {
        order::sorting_orders_and_keeps_all(m);
    }
    r.truncate(limit);
    r
}

/// A fact that seeds lead to, by a path. The score stands as its place in the
/// order of scores.
#[derive(Debug)]
pub struct FactCandidate {
    pub fact_id: String,
    pub score: i32,
    pub path: Vec<String>,
    pub recorded_at_ms: u64,
}

/// What a [`FactCandidate`] stands for.
pub struct FactFindView {
    pub fact_id: Seq<char>,
    pub score: i32,
    pub path: Seq<Seq<char>>,
    pub recorded_at_ms: u64,
}

impl View for FactCandidate {
    type V = FactFindView;

    open spec fn view(&self) -> FactFindView {
        FactFindView {
            fact_id: self.fact_id@,
            score: self.score,
            path: text::strings(self.path@),
            recorded_at_ms: self.recorded_at_ms,
        }
    }
}

pub open spec fn fact_find_views(v: Seq<FactCandidate>) -> Seq<FactFindView> {
    Seq::new(v.len(), |i: int| v[i]@)
}

/// An active fact of the graph and when it was recorded.
#[derive(Debug)]
pub struct FactRow {
    pub fact_id: String,
    pub recorded_at_ms: u64,
}

/// The path from a seed to a fact.
pub open spec fn seed_path(seed: SeedView, fact_id: Seq<char>) -> Seq<Seq<char>> {
    match seed.kind {
        GraphSeedKind::Fact => seq!["fact:"@ + seed.id],
        GraphSeedKind::Entity => seq!["entity:"@ + seed.id, "fact:"@ + fact_id],
    }
}

fn prefixed(lead: &str, id: &str) -> (r: String)
    ensures
        r@ == lead@ + id@,
{
    let mut r = lead.to_owned();
    r.append(id);
    r
}

/// The candidate that a seed leads to in one of its active facts.
pub fn seed_candidate(seed: &GraphSeed, row: &FactRow) -> (r: FactCandidate)
    ensures
        r@ == (FactFindView {
            fact_id: match seed.kind {
                GraphSeedKind::Fact => seed.id@,
                GraphSeedKind::Entity => row.fact_id@,
            },
            score: seed.score,
            path: seed_path(seed@, row.fact_id@),
            recorded_at_ms: row.recorded_at_ms,
        }),
{
    let mut path: Vec<String> = Vec::new();
    let fact_id = match seed.kind {
        GraphSeedKind::Fact => {
            path.push(prefixed("fact:", seed.id.as_str()));
            seed.id.clone()
        },
        GraphSeedKind::Entity => {
            path.push(prefixed("entity:", seed.id.as_str()));
            path.push(prefixed("fact:", row.fact_id.as_str()));
            row.fact_id.clone()
        },
    };
    assert(text::strings(path@) =~= seed_path(seed@, row.fact_id@));
    FactCandidate { fact_id, score: seed.score, path, recorded_at_ms: row.recorded_at_ms }
}

/// How direct a path is: one that starts at a fact is the most direct, then one
/// that starts at an entity.
pub open spec fn path_rank(path: Seq<Seq<char>>) -> int {
    if path.len() > 0 && text::starts_with(path[0], "fact:"@) {
        0
    } else if path.len() > 0 && text::starts_with(path[0], "entity:"@) {
        1
    } else {
        2
    }
}

/// The order of lists of texts, by their first difference.
pub open spec fn texts_before(a: Seq<Seq<char>>, b: Seq<Seq<char>>) -> bool
    decreases a.len(),
{
    if b.len() == 0 {
        false
    } else if a.len() == 0 {
        true
    } else if a[0] == b[0] {
        texts_before(a.drop_first(), b.drop_first())
    } else {
        text::text_before(a[0], b[0])
    }
}

/// Whether a candidate for a fact is better than one that is there: by its
/// score, or where the scores are too close to tell, by its path.
pub open spec fn is_better(x: FactFindView, there: FactFindView, tied: bool) -> bool {
    x.score > there.score || (tied && (path_rank(x.path) < path_rank(there.path) || (path_rank(
        x.path,
    ) == path_rank(there.path) && texts_before(x.path, there.path))))
}

/// Where the candidate for a fact stands, or the length of the list.
pub open spec fn fact_index(s: Seq<FactFindView>, id: Seq<char>) -> int
    decreases s.len(),
{
    if s.len() == 0 {
        0
    } else if s[0].fact_id == id {
        0
    } else {
        1 + fact_index(s.drop_first(), id)
    }
}

/// Candidates with one more, which takes the place of another for the same fact
/// only where it is better.
pub open spec fn with_candidate(s: Seq<FactFindView>, x: FactFindView, tied: bool) -> Seq<
    FactFindView,
> {
    let k = fact_index(s, x.fact_id);
    if k < s.len() {
        if is_better(x, s[k], tied) {
            s.update(k, x)
        } else {
            s
        }
    } else {
        s.push(x)
    }
}

proof fn lemma_fact_index(s: Seq<FactFindView>, id: Seq<char>)
    ensures
        0 <= fact_index(s, id) <= s.len(),
        fact_index(s, id) < s.len() ==> s[fact_index(s, id)].fact_id == id,
        forall|i: int| 0 <= i < fact_index(s, id) ==> (#[trigger] s[i]).fact_id != id,
    decreases s.len(),
{
    if s.len() > 0 && s[0].fact_id != id {
        lemma_fact_index(s.drop_first(), id);
        assert forall|i: int| 0 <= i < fact_index(s, id) implies (#[trigger] s[i]).fact_id
            != id by {
            if i > 0 {
                assert(s[i] == s.drop_first()[i - 1]);
            }
        }
    }
}

/// Whether each fact stands once.
pub open spec fn distinct_fact_finds(s: Seq<FactFindView>) -> bool {
    forall|i: int, j: int|
        0 <= i < j < s.len() ==> (#[trigger] s[i]).fact_id != (#[trigger] s[j]).fact_id
}

/// Adding a candidate never makes a fact stand twice and never loses a fact. It
/// lowers no score, but where the two scores are too close to tell.
pub proof fn candidates_stay_distinct(s: Seq<FactFindView>, x: FactFindView, tied: bool, i: int)
    requires
        distinct_fact_finds(s),
        0 <= i < s.len(),
    ensures
        distinct_fact_finds(with_candidate(s, x, tied)),
        with_candidate(s, x, tied)[i].fact_id == s[i].fact_id,
        with_candidate(s, x, tied)[i].score >= s[i].score || tied,
{
    lemma_fact_index(s, x.fact_id);
}

fn fact_path_rank(path: &Vec<String>) -> (r: usize)
    ensures
        r == path_rank(text::strings(path@)),
{
    if path.len() == 0 {
        return 2;
    }
    if text_starts_with(path[0].as_str(), "fact:") {
        0
    } else if text_starts_with(path[0].as_str(), "entity:") {
        1
    } else {
        2
    }
}

fn path_less(a: &Vec<String>, b: &Vec<String>) -> (r: bool)
    ensures
        r == texts_before(text::strings(a@), text::strings(b@)),
{
    let ghost sa = text::strings(a@);
    let ghost sb = text::strings(b@);
    let mut i: usize = 0;
    proof {
        assert(sa.skip(0) =~= sa);
        assert(sb.skip(0) =~= sb);
    }
    while i < a.len() && i < b.len()
        invariant
            i <= a@.len(),
            i <= b@.len(),
            sa == text::strings(a@),
            sb == text::strings(b@),
            texts_before(sa, sb) == texts_before(sa.skip(i as int), sb.skip(i as int)),
        decreases a@.len() - i,
    {
        proof {
            assert(sa.skip(i as int)[0] == a@[i as int]@);
            assert(sb.skip(i as int)[0] == b@[i as int]@);
            assert(sa.skip(i as int).drop_first() =~= sa.skip(i + 1));
            assert(sb.skip(i as int).drop_first() =~= sb.skip(i + 1));
        }
        if !text_eq(a[i].as_str(), b[i].as_str()) {
            return text_less(a[i].as_str(), b[i].as_str());
        }
        i += 1;
    }
    i < b.len()
}

fn find_fact(candidates: &Vec<FactCandidate>, id: &str) -> (r: usize)
    ensures
        r == fact_index(fact_find_views(candidates@), id@),
        r <= candidates@.len(),
{
    let ghost s = fact_find_views(candidates@);
    proof {
        lemma_fact_index(s, id@);
        assert(s.skip(0) =~= s);
    }
    let mut i: usize = 0;
    while i < candidates.len()
        invariant
            i <= candidates@.len(),
            s == fact_find_views(candidates@),
            fact_index(s, id@) == i + fact_index(s.skip(i as int), id@),
            fact_index(s, id@) <= s.len(),
        decreases candidates@.len() - i,
    {
        assert(s.skip(i as int)[0] == candidates@[i as int]@);
        if text_eq(candidates[i].fact_id.as_str(), id) {
            return i;
        }
        assert(s.skip(i as int).drop_first() =~= s.skip(i + 1));
        i += 1;
    }
    i
}

/// Adds a candidate, given whether its score and that of the candidate that is
/// there for its fact are too close to tell.
pub fn upsert_fact_candidate(
    candidates: &mut Vec<FactCandidate>,
    candidate: FactCandidate,
    tied: bool,
)
    ensures
        fact_find_views(final(candidates)@) == with_candidate(
            fact_find_views(old(candidates)@),
            candidate@,
            tied,
        ),
{
    let ghost before = fact_find_views(candidates@);
    let k = find_fact(candidates, candidate.fact_id.as_str());
    if k < candidates.len() {
        let there = &candidates[k];
        let better = if candidate.score > there.score {
            true
        } else if !tied {
            false
        } else {
            let rank = fact_path_rank(&candidate.path);
            let there_rank = fact_path_rank(&there.path);
            rank < there_rank || (rank == there_rank && path_less(&candidate.path, &there.path))
        };
        if better {
            candidates.set(k, candidate);
        }
    } else {
        candidates.push(candidate);
    }
    assert(fact_find_views(candidates@) =~= with_candidate(before, candidate@, tied));
}

impl Ordered for FactCandidate {
    /// Higher scores go first, among equal scores the facts that were recorded
    /// first, and among these the lesser id.
    open spec fn precedes(&self, other: &Self) -> bool {
        self.score > other.score || (self.score == other.score && (self.recorded_at_ms
            < other.recorded_at_ms || (self.recorded_at_ms == other.recorded_at_ms
            && text::text_before(self.fact_id@, other.fact_id@))))
    }

    proof fn order_is_weak(a: &Self, b: &Self, c: &Self) {
        lemma_text_order(a.fact_id@, b.fact_id@, c.fact_id@);
    }

    fn goes_before(&self, other: &Self) -> (r: bool) {
        self.score > other.score || (self.score == other.score && (self.recorded_at_ms
            < other.recorded_at_ms || (self.recorded_at_ms == other.recorded_at_ms
            && text_less(self.fact_id.as_str(), other.fact_id.as_str()))))
    }
}

/// The best candidates, the best first.
pub fn rank_fact_candidates(candidates: Vec<FactCandidate>, limit: usize) -> (r: Vec<
    FactCandidate,
>)
    ensures
        r@ == order::in_order(candidates@).take(
            if limit < candidates@.len() {
                limit as int
            } else {
                candidates@.len() as int
            },
        ),
{
    proof {
        order::sorting_orders_and_keeps_all(candidates@);
    }
    let mut r = sort_stable(candidates);
    r.truncate(limit);
    r
}

/// What a seed leads to in its active facts.
pub open spec fn seed_finds(seed: SeedView, rows: Seq<FactRow>) -> Seq<FactFindView> {
    Seq::new(
        rows.len(),
        |i: int|
            FactFindView {
                fact_id: match seed.kind {
                    GraphSeedKind::Fact => seed.id,
                    GraphSeedKind::Entity => rows[i].fact_id@,
                },
                score: seed.score,
                path: seed_path(seed, rows[i].fact_id@),
                recorded_at_ms: rows[i].recorded_at_ms,
            },
    )
}

/// Whether two scores are too close to tell apart.
pub open spec fn are_tied(ties: Seq<(i32, i32)>, a: i32, b: i32) -> bool {
    ties.contains((a, b))
}

/// Candidates with one more, given which scores are too close to tell apart.
pub open spec fn with_find(s: Seq<FactFindView>, x: FactFindView, ties: Seq<(i32, i32)>) -> Seq<
    FactFindView,
> {
    let k = fact_index(s, x.fact_id);
    with_candidate(s, x, k < s.len() && are_tied(ties, x.score, s[k].score))
}

pub open spec fn with_finds(
    s: Seq<FactFindView>,
    finds: Seq<FactFindView>,
    ties: Seq<(i32, i32)>,
) -> Seq<FactFindView>
    decreases finds.len(),
{
    if finds.len() == 0 {
        s
    } else {
        with_find(with_finds(s, finds.drop_last(), ties), finds.last(), ties)
    }
}

pub open spec fn row_views(rows: Seq<Vec<FactRow>>) -> Seq<Seq<FactRow>> {
    Seq::new(rows.len(), |i: int| rows[i]@)
}

/// The facts that seeds lead to, each with its best find.
pub open spec fn expanded_facts(
    seeds: Seq<SeedView>,
    rows: Seq<Seq<FactRow>>,
    ties: Seq<(i32, i32)>,
) -> Seq<FactFindView>
    decreases seeds.len(),
{
    if seeds.len() == 0 {
        Seq::empty()
    } else {
        with_finds(
            expanded_facts(seeds.drop_last(), rows.drop_last(), ties),
            seed_finds(seeds.last(), rows.last()),
            ties,
        )
    }
}

fn holds_tie(ties: &Vec<(i32, i32)>, a: i32, b: i32) -> (r: bool)
    ensures
        r == are_tied(ties@, a, b),
{
    let mut i: usize = 0;
    while i < ties.len()
        invariant
            i <= ties@.len(),
            forall|k: int| 0 <= k < i ==> ties@[k] != (a, b),
        decreases ties@.len() - i,
    {
        if ties[i].0 == a && ties[i].1 == b {
            assert(ties@[i as int] == (a, b));
            return true;
        }
        i += 1;
    }
    false
}

/// The facts that seeds lead to, the best first, as many as the limit allows,
/// given the active facts of each seed and which scores are too close to tell
/// apart.
pub fn expand_seed_facts(
    seeds: &Vec<GraphSeed>,
    rows: &Vec<Vec<FactRow>>,
    ties: &Vec<(i32, i32)>,
    limit: usize,
) -> (r: Vec<FactCandidate>)
    requires
        seeds@.len() == rows@.len(),
    ensures
        exists|m: Seq<FactCandidate>|
            fact_find_views(m) == expanded_facts(
                seed_views(seeds@),
                row_views(rows@),
                ties@,
            ) && r@ == order::in_order(m).take(
                if limit < m.len() {
                    limit as int
                } else {
                    m.len() as int
                },
            ),
{
    let ghost all = seed_views(seeds@);
    let ghost facts = row_views(rows@);
    let mut candidates: Vec<FactCandidate> = Vec::new();
    let mut i: usize = 0;
    assert(fact_find_views(candidates@) =~= Seq::<FactFindView>::empty());
    assert(all.take(0) =~= Seq::<SeedView>::empty());
    while i < seeds.len()
        invariant
            i <= seeds@.len(),
            seeds@.len() == rows@.len(),
            all == seed_views(seeds@),
            facts == row_views(rows@),
            fact_find_views(candidates@) == expanded_facts(
                all.take(i as int),
                facts.take(i as int),
                ties@,
            ),
        decreases seeds@.len() - i,
    {
        let seed = &seeds[i];
        let ghost start = fact_find_views(candidates@);
        let ghost finds = seed_finds(seed@, rows@[i as int]@);
        let mut j: usize = 0;
        assert(finds.take(0) =~= Seq::<FactFindView>::empty());
        while j < rows[i].len()
            invariant
                i < seeds@.len(),
                seeds@.len() == rows@.len(),
                j <= rows@[i as int]@.len(),
                *seed == seeds@[i as int],
                finds == seed_finds(seed@, rows@[i as int]@),
                fact_find_views(candidates@) == with_finds(start, finds.take(j as int), ties@),
            decreases rows@[i as int]@.len() - j,
        {
            let candidate = seed_candidate(seed, &rows[i][j]);
            let ghost before = fact_find_views(candidates@);
            proof {
                assert(finds.take(j + 1).drop_last() =~= finds.take(j as int));
                assert(finds.take(j + 1).last() == candidate@);
            }
            let k = find_fact(&candidates, candidate.fact_id.as_str());
            let tied = if k < candidates.len() {
                assert(before[k as int] == candidates@[k as int]@);
                holds_tie(ties, candidate.score, candidates[k].score)
            } else {
                false
            };
            upsert_fact_candidate(&mut candidates, candidate, tied);
            j += 1;
        }
        proof {
            assert(finds.take(j as int) =~= finds);
            assert(all.take(i + 1).drop_last() =~= all.take(i as int));
            assert(facts.take(i + 1).drop_last() =~= facts.take(i as int));
            assert(all.take(i + 1).last() == seed@);
            assert(facts.take(i + 1).last() == rows@[i as int]@);
        }
        i += 1;
    }
    assert(all.take(i as int) =~= all);
    assert(facts.take(i as int) =~= facts);
    rank_fact_candidates(candidates, limit)
}

proof fn lemma_finds_stay_distinct(
    s: Seq<FactFindView>,
    finds: Seq<FactFindView>,
    ties: Seq<(i32, i32)>,
)
    requires
        distinct_fact_finds(s),
    ensures
        distinct_fact_finds(with_finds(s, finds, ties)),
    decreases finds.len(),
{
    if finds.len() > 0 {
        lemma_finds_stay_distinct(s, finds.drop_last(), ties);
        lemma_fact_index(with_finds(s, finds.drop_last(), ties), finds.last().fact_id);
    }
}

/// Following seeds to their facts finds each fact once, whatever leads to it.
pub proof fn seeds_lead_to_each_fact_once(
    seeds: Seq<SeedView>,
    rows: Seq<Seq<FactRow>>,
    ties: Seq<(i32, i32)>,
)
    ensures
        distinct_fact_finds(expanded_facts(seeds, rows, ties)),
    decreases seeds.len(),
{
    if seeds.len() > 0 {
        seeds_lead_to_each_fact_once(seeds.drop_last(), rows.drop_last(), ties);
        lemma_finds_stay_distinct(
            expanded_facts(seeds.drop_last(), rows.drop_last(), ties),
            seed_finds(seeds.last(), rows.last()),
            ties,
        );
    }
}

/// A path that also names the records which support its fact, each once.
pub open spec fn with_records(path: Seq<Seq<char>>, record_ids: Seq<Seq<char>>) -> Seq<Seq<char>>
    decreases record_ids.len(),
{
    if record_ids.len() == 0 {
        path
    } else {
        let earlier = with_records(path, record_ids.drop_last());
        let step = "record:"@ + record_ids.last();
        if earlier.contains(step) {
            earlier
        } else {
            earlier.push(step)
        }
    }
}

/// The path of a candidate with the records that support its fact.
pub fn path_with_records(path: &Vec<String>, record_ids: &Vec<String>) -> (r: Vec<String>)
    ensures
        text::strings(r@) == with_records(text::strings(path@), text::strings(record_ids@)),
{
    let ghost ids = text::strings(record_ids@);
    let mut r = clone_strings(path);
    let mut i: usize = 0;
    while i < record_ids.len()
        invariant
            i <= record_ids@.len(),
            ids == text::strings(record_ids@),
            text::strings(r@) == with_records(text::strings(path@), ids.take(i as int)),
        decreases record_ids@.len() - i,
    {
        proof {
            assert(ids.take(i + 1).drop_last() =~= ids.take(i as int));
            assert(ids.take(i + 1).last() == record_ids@[i as int]@);
        }
        let step = prefixed("record:", record_ids[i].as_str());
        if !holds_text(&r, step.as_str()) {
            let ghost before = r@;
            r.push(step);
            proof {
                text::lemma_strings_push(before, step);
            }
        }
        i += 1;
    }
    assert(ids.take(i as int) =~= ids);
    r
}

/// Whether a fact holds.
#[derive(Clone, Copy, Debug, PartialEq, Eq, Structural)]
pub enum FactStatus {
    Active,
    Superseded,
    Retracted,
    Unsupported,
}

/// The name under which a status is stored.
pub open spec fn status_name(status: FactStatus) -> Seq<char> {
    match status {
        FactStatus::Active => "active"@,
        FactStatus::Superseded => "superseded"@,
        FactStatus::Retracted => "retracted"@,
        FactStatus::Unsupported => "unsupported"@,
    }
}

/// Reads a stored status.
pub fn parse_fact_status(status: &str) -> (r: Result<FactStatus, MemoryError>)
    ensures
        match r {
            Ok(s) => status@ == status_name(s),
            Err(e) => {
                &&& forall|s: FactStatus| status@ != #[trigger] status_name(s)
                &&& e@ == MemoryErrorView::StoreBackend(
                    "unknown graph fact status '"@ + status@ + "'"@,
                )
            },
        },
{
    if text_eq(status, "active") {
        Ok(FactStatus::Active)
    } else if text_eq(status, "superseded") {
        Ok(FactStatus::Superseded)
    } else if text_eq(status, "retracted") {
        Ok(FactStatus::Retracted)
    } else if text_eq(status, "unsupported") {
        Ok(FactStatus::Unsupported)
    } else {
        let mut message = "unknown graph fact status '".to_owned();
        message.append(status);
        message.append("'");
        Err(MemoryError::StoreBackend { message })
    }
}

/// The bytes of a number, the least first.
pub open spec fn le_bytes(n: u32) -> Seq<u8> {
    seq![
        (n % 256) as u8,
        (n / 256 % 256) as u8,
        (n / 65536 % 256) as u8,
        (n / 16777216) as u8,
    ]
}

/// The number that four bytes stand for, the least first.
pub open spec fn le_number(a: u8, b: u8, c: u8, d: u8) -> int {
    a + 256 * b + 65536 * c + 16777216 * d
}

/// How an embedding is stored.
pub open spec fn blob_of(embedding: Seq<u32>) -> Seq<u8>
    decreases embedding.len(),
{
    if embedding.len() == 0 {
        Seq::empty()
    } else {
        blob_of(embedding.drop_last()) + le_bytes(embedding.last())
    }
}

/// The embedding that bytes stand for, four to a component.
pub open spec fn embedding_of(bytes: Seq<u8>) -> Seq<u32> {
    Seq::new(
        bytes.len() / 4,
        |i: int|
            le_number(bytes[4 * i], bytes[4 * i + 1], bytes[4 * i + 2], bytes[4 * i + 3]) as u32,
    )
}

/// How an embedding is stored: the IEEE-754 bits of its components, as bytes
/// from the least to the greatest.
pub fn embedding_to_blob(embedding: &Vec<u32>) -> (r: Vec<u8>)
    ensures
        r@ == blob_of(embedding@),
{
    let mut r: Vec<u8> = Vec::new();
    let mut i: usize = 0;
    while i < embedding.len()
        invariant
            i <= embedding@.len(),
            r@ == blob_of(embedding@.take(i as int)),
        decreases embedding@.len() - i,
    {
        assert(embedding@.take(i + 1).drop_last() =~= embedding@.take(i as int));
        let n = embedding[i];
        let ghost before = r@;
        r.push((n % 256) as u8);
        r.push((n / 256 % 256) as u8);
        r.push((n / 65536 % 256) as u8);
        r.push((n / 16777216) as u8);
        assert(r@ =~= before + le_bytes(n));
        i += 1;
    }
    assert(embedding@.take(i as int) =~= embedding@);
    r
}

/// A number, with its sign where it is negative.
pub open spec fn signed_text(n: int) -> Seq<char> {
    if n < 0 {
        seq!['-'] + text::decimal_text((-n) as nat)
    } else {
        text::decimal_text(n as nat)
    }
}

fn push_signed(out: &mut String, n: i64)
    ensures
        final(out)@ == old(out)@ + signed_text(n as int),
{
    let ghost before = out@;
    if n < 0 {
        out.push('-');
        let magnitude: u64 = (-(n as i128)) as u64;
        push_decimal(out, magnitude);
        assert(out@ =~= before + (seq!['-'] + text::decimal_text(magnitude as nat)));
    } else {
        push_decimal(out, n as u64);
    }
}

/// What reading a stored embedding comes to.
pub open spec fn read_embedding(bytes: Option<Seq<u8>>, dims: Option<i64>, id: Seq<char>) -> Result<
    Option<Seq<u32>>,
    MemoryErrorView,
> {
    match bytes {
        None => Ok(None),
        Some(bytes) => if bytes.len() % 4 != 0 {
            Err(
                MemoryErrorView::StoreBackend(
                    "invalid embedding blob length for graph record '"@ + id + "': "@
                        + text::decimal_text(bytes.len()),
                ),
            )
        } else if dims is Some && dims->0 != bytes.len() / 4 {
            Err(
                MemoryErrorView::StoreBackend(
                    "embedding dims mismatch for graph record '"@ + id + "': blob has "@
                        + text::decimal_text(bytes.len() / 4) + " dims but stored dims is "@
                        + signed_text(dims->0 as int),
                ),
            )
        } else {
            Ok(Some(embedding_of(bytes)))
        },
    }
}

/// Reads a stored embedding, which must be whole and have the dimensions that
/// are stored beside it.
pub fn blob_to_embedding(bytes: Option<&Vec<u8>>, expected_dims: Option<i64>, record_id: &str) -> (r:
    Result<Option<Vec<u32>>, MemoryError>)
    ensures
        match r {
            Ok(v) => read_embedding(
                match bytes {
                    Some(b) => Some(b@),
                    None => None,
                },
                expected_dims,
                record_id@,
            ) == Ok::<_, MemoryErrorView>(
                match v {
                    Some(v) => Some(v@),
                    None => None,
                },
            ),
            Err(e) => read_embedding(
                match bytes {
                    Some(b) => Some(b@),
                    None => None,
                },
                expected_dims,
                record_id@,
            ) == Err::<Option<Seq<u32>>, _>(e@),
        },
{
    let bytes = match bytes {
        Some(bytes) => bytes,
        None => return Ok(None),
    };
    let len = bytes.len();
    if len % 4 != 0 {
        let mut message = "invalid embedding blob length for graph record '".to_owned();
        message.append(record_id);
        message.append("': ");
        push_decimal(&mut message, len as u64);
        return Err(MemoryError::StoreBackend { message });
    }
    let dims = len / 4;
    match expected_dims {
        Some(expected) => {
            if expected as i128 != dims as i128 {
                let mut message = "embedding dims mismatch for graph record '".to_owned();
                message.append(record_id);
                message.append("': blob has ");
                push_decimal(&mut message, dims as u64);
                message.append(" dims but stored dims is ");
                push_signed(&mut message, expected);
                return Err(MemoryError::StoreBackend { message });
            }
        },
        None => {},
    }
    let ghost all = embedding_of(bytes@);
    let mut v: Vec<u32> = Vec::new();
    let mut i: usize = 0;
    while i < dims
        invariant
            i <= dims,
            len == bytes@.len(),
            dims == len / 4,
            len % 4 == 0,
            all == embedding_of(bytes@),
            v@ == all.take(i as int),
        decreases dims - i,
    {
        let at = 4 * i;
        let n: u32 = bytes[at] as u32 + 256 * (bytes[at + 1] as u32) + 65536 * (bytes[at
            + 2] as u32) + 16777216 * (bytes[at + 3] as u32);
        v.push(n);
        assert(n == all[i as int]);
        assert(v@ =~= all.take(i + 1));
        i += 1;
    }
    assert(all.take(i as int) =~= all);
    Ok(Some(v))
}

proof fn lemma_blob_len(e: Seq<u32>)
    ensures
        blob_of(e).len() == 4 * e.len(),
    decreases e.len(),
{
    if e.len() > 0 {
        lemma_blob_len(e.drop_last());
    }
}

proof fn lemma_blob_at(e: Seq<u32>, i: int)
    requires
        0 <= i < e.len(),
    ensures
        blob_of(e).len() == 4 * e.len(),
        blob_of(e)[4 * i] == le_bytes(e[i])[0],
        blob_of(e)[4 * i + 1] == le_bytes(e[i])[1],
        blob_of(e)[4 * i + 2] == le_bytes(e[i])[2],
        blob_of(e)[4 * i + 3] == le_bytes(e[i])[3],
    decreases e.len(),
{
    lemma_blob_len(e);
    lemma_blob_len(e.drop_last());
    if i < e.len() - 1 {
        lemma_blob_at(e.drop_last(), i);
        assert(e.drop_last()[i] == e[i]);
    }
}

/// An embedding that is stored is read back as it was.
pub proof fn stored_embeddings_are_read_back(e: Seq<u32>, dims: Option<i64>, id: Seq<char>)
    requires
        dims is Some ==> dims->0 == e.len(),
    ensures
        read_embedding(Some(blob_of(e)), dims, id) == Ok::<_, MemoryErrorView>(Some(e)),
{
    lemma_blob_len(e);
    let back = embedding_of(blob_of(e));
    assert forall|i: int| 0 <= i < e.len() implies back[i] == e[i] by {
        lemma_blob_at(e, i);
        let n = e[i];
        assert(n == n % 256 + 256 * (n / 256 % 256) + 65536 * (n / 65536 % 256) + 16777216 * (n
            / 16777216));
    }
    assert(back =~= e);
}

proof fn lemma_merged_scores(s: Seq<SeedView>, k: int)
    requires
        0 <= k < merged_seeds(s).len(),
    ensures
        exists|i: int|
            0 <= i < s.len() && (#[trigger] s[i]).kind == merged_seeds(s)[k].kind && s[i].id
                == merged_seeds(s)[k].id && s[i].score == merged_seeds(s)[k].score,
        forall|i: int|
            0 <= i < s.len() && (#[trigger] s[i]).kind == merged_seeds(s)[k].kind && s[i].id
                == merged_seeds(s)[k].id ==> s[i].score <= merged_seeds(s)[k].score,
    decreases s.len(),
{
    let front = s.drop_last();
    let x = s.last();
    let before = merged_seeds(front);
    let m = merged_seeds(s)[k];
    lemma_merged_seeds(front);
    lemma_merged_seeds(s);
    let n = s.len() - 1;
    if k < before.len() {
        lemma_merged_scores(front, k);
        let i = choose|i: int|
            0 <= i < front.len() && (#[trigger] front[i]).kind == before[k].kind && front[i].id
                == before[k].id && front[i].score == before[k].score;
        assert(s[i] == front[i]);
        assert(s[n] == x);
        lemma_seed_index(before, x.kind, x.id);
        if seed_index(before, x.kind, x.id) == k && x.score > before[k].score {
            assert(s[n].kind == m.kind && s[n].id == m.id && s[n].score == m.score);
        } else {
            assert(s[i].kind == m.kind && s[i].id == m.id && s[i].score == m.score);
        }
        assert forall|j: int|
            0 <= j < s.len() && (#[trigger] s[j]).kind == m.kind && s[j].id
                == m.id implies s[j].score <= m.score by {
            if j < n {
                assert(front[j] == s[j]);
            } else if !(seed_index(before, x.kind, x.id) == k) {
                let j2 = seed_index(before, x.kind, x.id);
                lemma_seed_index(before, x.kind, x.id);
                if j2 < k {
                    assert(!(before[j2].kind == before[k].kind && before[j2].id == before[k].id));
                }
            }
        }
    } else {
        lemma_seed_index(before, x.kind, x.id);
        assert(s[n] == x);
        assert forall|j: int|
            0 <= j < s.len() && (#[trigger] s[j]).kind == m.kind && s[j].id
                == m.id implies s[j].score <= m.score by {
            if j < n {
                assert(front[j] == s[j]);
                merging_keeps_each_seed_once(front, j);
                let q = choose|q: int|
                    0 <= q < before.len() && (#[trigger] before[q]).kind == front[j].kind
                        && before[q].id == front[j].id && before[q].score >= front[j].score;
                assert(before[q].kind == x.kind && before[q].id == x.id);
            }
        }
    }
}

/// A merged seed is one of those given, and has the highest score of those of its
/// kind and id.
pub proof fn merged_seeds_have_their_best_scores(s: Seq<SeedView>, k: int)
    requires
        0 <= k < merged_seeds(s).len(),
    ensures
        exists|i: int| 0 <= i < s.len() && #[trigger] s[i] == merged_seeds(s)[k],
        forall|i: int|
            0 <= i < s.len() && (#[trigger] s[i]).kind == merged_seeds(s)[k].kind && s[i].id
                == merged_seeds(s)[k].id ==> s[i].score <= merged_seeds(s)[k].score,
{
    lemma_merged_scores(s, k);
    let i = choose|i: int|
        0 <= i < s.len() && (#[trigger] s[i]).kind == merged_seeds(s)[k].kind && s[i].id
            == merged_seeds(s)[k].id && s[i].score == merged_seeds(s)[k].score;
    assert(s[i] == merged_seeds(s)[k]);
}

/// Seeds go from the highest score to the lowest, equal scores by their ids, and
/// none is lost.
pub proof fn seeds_go_by_their_scores(s: Seq<GraphSeed>, i: int, j: int)
    requires
        0 <= i < j < s.len(),
    ensures
        order::in_order(s).to_multiset() == s.to_multiset(),
        order::in_order(s).len() == s.len(),
        ({
            let (a, b) = (order::in_order(s)[i], order::in_order(s)[j]);
            a.score > b.score || (a.score == b.score && (a.id@ == b.id@ || text::text_before(
                a.id@,
                b.id@,
            )))
        }),
{
    order::sorting_orders_and_keeps_all(s);
    let (a, b) = (order::in_order(s)[i], order::in_order(s)[j]);
    assert(!b.precedes(&a));
    text::text_before_is_total(a.id@, b.id@);
}

/// Facts go from the highest score to the lowest, equal scores by the time at
/// which they were recorded and then by their ids, and none is lost.
pub proof fn facts_go_by_their_scores(s: Seq<FactCandidate>, i: int, j: int)
    requires
        0 <= i < j < s.len(),
    ensures
        order::in_order(s).to_multiset() == s.to_multiset(),
        order::in_order(s).len() == s.len(),
        ({
            let (a, b) = (order::in_order(s)[i], order::in_order(s)[j]);
            a.score > b.score || (a.score == b.score && (a.recorded_at_ms < b.recorded_at_ms || (
            a.recorded_at_ms == b.recorded_at_ms && (a.fact_id@ == b.fact_id@ || text::text_before(
                a.fact_id@,
                b.fact_id@,
            )))))
        }),
{
    order::sorting_orders_and_keeps_all(s);
    let (a, b) = (order::in_order(s)[i], order::in_order(s)[j]);
    assert(!b.precedes(&a));
    text::text_before_is_total(a.fact_id@, b.fact_id@);
}

/// Whether a find is that of a row that a seed leads to. A seed that is a fact
/// leads to itself; one that is an entity leads to the facts about it, by way of
/// the entity. The find has the score of the seed.
pub open spec fn is_find_of(f: FactFindView, seed: SeedView, row: FactRow) -> bool {
    &&& f.score == seed.score
    &&& f.recorded_at_ms == row.recorded_at_ms
    &&& seed.kind == GraphSeedKind::Fact ==> f.fact_id == seed.id && f.path == seq![
        "fact:"@ + seed.id,
    ]
    &&& seed.kind == GraphSeedKind::Entity ==> f.fact_id == row.fact_id@ && f.path == seq![
        "entity:"@ + seed.id,
        "fact:"@ + row.fact_id@,
    ]
}

/// The fact that a row of a seed stands for.
pub open spec fn found_id(seed: SeedView, row: FactRow) -> Seq<char> {
    if seed.kind == GraphSeedKind::Fact {
        seed.id
    } else {
        row.fact_id@
    }
}

/// Whether there is a find of a fact.
pub open spec fn has_fact(s: Seq<FactFindView>, id: Seq<char>) -> bool {
    exists|k: int| 0 <= k < s.len() && (#[trigger] s[k]).fact_id == id
}

/// Whether a find comes from one of the seeds.
pub open spec fn is_some_find(
    f: FactFindView,
    seeds: Seq<SeedView>,
    rows: Seq<Seq<FactRow>>,
) -> bool {
    exists|a: int, r: int|
        0 <= a < seeds.len() && 0 <= r < rows[a].len() && #[trigger] is_find_of(
            f,
            seeds[a],
            rows[a][r],
        )
}

proof fn lemma_with_finds(s: Seq<FactFindView>, finds: Seq<FactFindView>, ties: Seq<(i32, i32)>)
    ensures
        ({
            let r = with_finds(s, finds, ties);
            &&& forall|k: int|
                0 <= k < r.len() ==> s.contains(#[trigger] r[k]) || finds.contains(r[k])
            &&& forall|id: Seq<char>| #[trigger] has_fact(s, id) ==> has_fact(r, id)
            &&& forall|i: int| 0 <= i < finds.len() ==> has_fact(r, (#[trigger] finds[i]).fact_id)
        }),
    decreases finds.len(),
{
    if finds.len() > 0 {
        let front = finds.drop_last();
        let x = finds.last();
        lemma_with_finds(s, front, ties);
        let before = with_finds(s, front, ties);
        let r = with_finds(s, finds, ties);
        let k0 = fact_index(before, x.fact_id);
        lemma_fact_index(before, x.fact_id);
        assert(finds[finds.len() - 1] == x);
        assert forall|k: int| 0 <= k < r.len() implies s.contains(#[trigger] r[k])
            || finds.contains(r[k]) by {
            if k < before.len() && r[k] == before[k] {
                if front.contains(before[k]) {
                    let q = front.index_of(before[k]);
                    assert(finds[q] == before[k]);
                }
            } else {
                assert(r[k] == x);
            }
        }
        assert forall|id: Seq<char>| #[trigger] has_fact(before, id) implies has_fact(r, id) by {
            let k = choose|k: int| 0 <= k < before.len() && (#[trigger] before[k]).fact_id == id;
            assert(r[k].fact_id == id);
        }
        assert forall|i: int| 0 <= i < finds.len() implies has_fact(
            r,
            (#[trigger] finds[i]).fact_id,
        ) by {
            if i < front.len() {
                assert(front[i] == finds[i]);
                assert(has_fact(before, front[i].fact_id));
            } else if k0 < before.len() {
                assert(r[k0].fact_id == x.fact_id);
            } else {
                assert(r[before.len() as int].fact_id == x.fact_id);
            }
        }
    }
}

/// Every fact that seeds lead to comes from a row of one of them, with its score
/// and by its path; and every row of every seed has its fact among them.
pub proof fn seeds_lead_to_their_facts(
    seeds: Seq<SeedView>,
    rows: Seq<Seq<FactRow>>,
    ties: Seq<(i32, i32)>,
)
    requires
        seeds.len() == rows.len(),
    ensures
        forall|k: int|
            0 <= k < expanded_facts(seeds, rows, ties).len() ==> is_some_find(
                #[trigger] expanded_facts(seeds, rows, ties)[k],
                seeds,
                rows,
            ),
        forall|a: int, r: int|
            0 <= a < seeds.len() && 0 <= r < rows[a].len() ==> has_fact(
                expanded_facts(seeds, rows, ties),
                found_id(seeds[a], #[trigger] rows[a][r]),
            ),
    decreases seeds.len(),
{
    if seeds.len() > 0 {
        let (sf, rf) = (seeds.drop_last(), rows.drop_last());
        let n = seeds.len() - 1;
        seeds_lead_to_their_facts(sf, rf, ties);
        let before = expanded_facts(sf, rf, ties);
        let finds = seed_finds(seeds.last(), rows.last());
        let all = expanded_facts(seeds, rows, ties);
        lemma_with_finds(before, finds, ties);
        assert forall|k: int| 0 <= k < all.len() implies is_some_find(
            #[trigger] all[k],
            seeds,
            rows,
        ) by {
            if before.contains(all[k]) {
                let q = before.index_of(all[k]);
                assert(is_some_find(before[q], sf, rf));
                let (a, r) = choose|a: int, r: int|
                    0 <= a < sf.len() && 0 <= r < rf[a].len() && #[trigger] is_find_of(
                        before[q],
                        sf[a],
                        rf[a][r],
                    );
                assert(is_find_of(all[k], seeds[a], rows[a][r]));
            } else {
                let r = finds.index_of(all[k]);
                assert(is_find_of(finds[r], seeds[n], rows[n][r]));
            }
        }
        assert forall|a: int, r: int|
            0 <= a < seeds.len() && 0 <= r < rows[a].len() implies has_fact(
            all,
            found_id(seeds[a], #[trigger] rows[a][r]),
        ) by {
            if a < n {
                assert(has_fact(before, found_id(sf[a], rf[a][r])));
            } else {
                assert(finds[r].fact_id == found_id(seeds[n], rows[n][r]));
                assert(has_fact(all, finds[r].fact_id));
            }
        }
    }
}

/// Of two finds of one fact the better one stays: the one with the higher score;
/// where the scores are too close to tell, the one whose path is more direct.
pub proof fn better_finds_stay(s: Seq<FactFindView>, x: FactFindView, tied: bool, k: int)
    requires
        distinct_fact_finds(s),
        0 <= k < s.len(),
        s[k].fact_id == x.fact_id,
    ensures
        x.score > s[k].score ==> with_candidate(s, x, tied)[k] == x,
        x.score <= s[k].score && !tied ==> with_candidate(s, x, tied)[k] == s[k],
        x.score <= s[k].score && tied && path_rank(x.path) < path_rank(s[k].path)
            ==> with_candidate(s, x, tied)[k] == x,
        x.score <= s[k].score && tied && path_rank(x.path) > path_rank(s[k].path)
            ==> with_candidate(s, x, tied)[k] == s[k],
        forall|i: int|
            0 <= i < s.len() && i != k ==> #[trigger] with_candidate(s, x, tied)[i] == s[i],
        with_candidate(s, x, tied).len() == s.len(),
{
    lemma_fact_index(s, x.fact_id);
    let at = fact_index(s, x.fact_id);
    if at < k {
        assert(s[at].fact_id != s[k].fact_id);
    }
}

/// The path of a fact names the records that support it after its own steps, each
/// of them once, in their order.
pub proof fn paths_name_their_records(path: Seq<Seq<char>>, record_ids: Seq<Seq<char>>, i: int)
    requires
        0 <= i < record_ids.len(),
    ensures
        path.is_prefix_of(with_records(path, record_ids)),
        with_records(path, record_ids).contains("record:"@ + record_ids[i]),
        forall|k: int|
            path.len() <= k < with_records(path, record_ids).len() ==> exists|j: int|
                0 <= j < record_ids.len() && #[trigger] with_records(path, record_ids)[k]
                    == "record:"@ + #[trigger] record_ids[j],
        forall|j: int, k: int|
            path.len() <= k < with_records(path, record_ids).len() && 0 <= j < k
                ==> #[trigger] with_records(path, record_ids)[j] != #[trigger] with_records(
                path,
                record_ids,
            )[k],
    decreases record_ids.len(),
{
    let front = record_ids.drop_last();
    let before = with_records(path, front);
    let all = with_records(path, record_ids);
    let step = "record:"@ + record_ids.last();
    let n = record_ids.len() - 1;
    if front.len() > 0 {
        paths_name_their_records(
            path,
            front,
            if i < n {
                i
            } else {
                0
            },
        );
    } else {
        assert(before == path);
    }
    if i < n {
        assert(front[i] == record_ids[i]);
        let q = before.index_of("record:"@ + record_ids[i]);
        assert(all[q] == before[q]);
    } else if !before.contains(step) {
        assert(all[before.len() as int] == step);
    }
    assert(path =~= all.take(path.len() as int));
    assert forall|k: int| path.len() <= k < all.len() implies exists|j: int|
        0 <= j < record_ids.len() && #[trigger] all[k] == "record:"@ + #[trigger] record_ids[j] by {
        if k < before.len() {
            let j = choose|j: int|
                0 <= j < front.len() && before[k] == "record:"@ + #[trigger] front[j];
            assert(all[k] == "record:"@ + record_ids[j]);
        } else {
            assert(all[k] == "record:"@ + record_ids[n]);
        }
    }
    assert forall|j: int, k: int|
        path.len() <= k < all.len() && 0 <= j < k implies #[trigger] all[j] != #[trigger] all[k] by {
        if k < before.len() {
            assert(before[j] != before[k]);
        } else {
            assert(before[j] == all[j]);
        }
    }
}

proof fn lemma_quotes_behind(a: Seq<char>, b: Seq<char>)
    ensures
        doubled_quotes(a + b) == doubled_quotes(a) + doubled_quotes(b),
    decreases b.len(),
{
    if b.len() == 0 {
        assert(a + b =~= a);
        assert(doubled_quotes(a) + Seq::<char>::empty() =~= doubled_quotes(a));
    } else {
        let t = b.drop_last();
        lemma_quotes_behind(a, t);
        assert((a + b).drop_last() =~= a + t);
        assert((a + b).last() == b.last());
        assert((doubled_quotes(a) + doubled_quotes(t)).push(b.last()) =~= doubled_quotes(a)
            + doubled_quotes(t).push(b.last()));
        assert((doubled_quotes(a) + doubled_quotes(t)) + seq!['"', '"'] =~= doubled_quotes(a) + (
        doubled_quotes(t) + seq!['"', '"']));
    }
}

/// Quotes are doubled wherever they stand, and nothing else is changed.
pub proof fn quotes_are_doubled(a: Seq<char>, b: Seq<char>, c: char)
    ensures
        doubled_quotes(a + b) == doubled_quotes(a) + doubled_quotes(b),
        c != '"' ==> doubled_quotes(seq![c]) == seq![c],
        doubled_quotes(seq!['"']) == seq!['"', '"'],
{
    lemma_quotes_behind(a, b);
    let none = Seq::<char>::empty();
    assert(seq![c].drop_last() =~= none);
    assert(seq!['"'].drop_last() =~= none);
    assert(doubled_quotes(none) == none);
    assert(none.push(c) =~= seq![c]);
    assert(none + seq!['"', '"'] =~= seq!['"', '"']);
}

/// A full-text query looks for any of the first words of a query, each in quotes.
pub proof fn queries_look_for_their_words(query: Seq<char>)
    ensures
        ({
            let words = text::words_of(query);
            let n = if words.len() < MAX_GRAPH_FTS_QUERY_TERMS {
                words.len() as int
            } else {
                MAX_GRAPH_FTS_QUERY_TERMS as int
            };
            &&& words.len() == 0 ==> fts_query_of(query) is None
            &&& words.len() > 0 ==> fts_query_of(query) == Some(
                text::joined(
                    words.take(n).map_values(
                        |w: Seq<char>| seq!['"'] + doubled_quotes(w) + seq!['"'],
                    ),
                    " OR "@,
                ),
            )
        }),
{
    let words = text::words_of(query);
    let n = if words.len() < MAX_GRAPH_FTS_QUERY_TERMS {
        words.len() as int
    } else {
        MAX_GRAPH_FTS_QUERY_TERMS as int
    };
    let looked = query_words(query);
    assert(looked =~= words.take(n));
    let at = |w: Seq<char>| seq!['"'] + doubled_quotes(w) + seq!['"'];
    assert forall|i: int| 0 <= i < looked.len() implies #[trigger] quoted_terms(looked)[i]
        == looked.map_values(at)[i] by {
        let w = looked[i];
        assert((seq!['"'] + doubled_quotes(w)).push('"') =~= seq!['"'] + doubled_quotes(w)
            + seq!['"']);
    }
    assert(quoted_terms(looked) =~= looked.map_values(at));
}

/// A retrieval is refused for a blank query, else for one that is too long when it
/// is trimmed, and for nothing else.
pub proof fn retrievals_are_refused_for_a_reason(query: Seq<char>)
    ensures
        ({
            let r = retrieval_query_of(query);
            let t = text::trimmed(query);
            &&& t.len() == 0 ==> r == Err::<Option<Seq<char>>, MemoryErrorView>(
                MemoryErrorView::InvalidInput("graph retrieval query must not be empty"@),
            )
            &&& t.len() > 0 && text::byte_len(t) > MAX_GRAPH_RETRIEVAL_QUERY_BYTES ==> r == Err::<
                Option<Seq<char>>,
                MemoryErrorView,
            >(
                MemoryErrorView::InvalidInput(
                    "graph retrieval query must be at most 4096 bytes"@,
                ),
            )
            &&& t.len() > 0 && text::byte_len(t) <= MAX_GRAPH_RETRIEVAL_QUERY_BYTES ==> r == Ok::<
                Option<Seq<char>>,
                MemoryErrorView,
            >(fts_query_of(t))
        }),
{
}

} // verus!
