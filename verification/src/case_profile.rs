//! What chunks and documents are indexed as: their title, keywords, questions
//! and context count more than their bare text.

use vstd::prelude::*;
use vstd::string::*;

use crate::api::AddMemoryRequest;
use crate::case_model::{Chunk, ChunkView, StoredDocument, StoredDocumentView};
use crate::case_summary;
use crate::case_summary::{document_title, representative_context_lines};
use crate::case_terms;
use crate::case_terms::{
    build_search_index_text, holds_digit, is_ascii_identifier_term, is_search_stop_term,
    lexical_tokens, push_unique_limited, version_like_terms,
};
use crate::graph_context;
use crate::graph_context::{put_member, text_json, text_list_json};
use crate::json;
use crate::json::{Json, JsonView};
use crate::manager;
use crate::order;
use crate::order::{sort_stable, Ordered};
use crate::record;
use crate::scan::char_count;
use crate::text;
use crate::text::{join_texts, lemma_strings_push, text_eq, to_chars, trim};

verus! {

pub const CHUNKING_STRATEGY: &'static str = "parser_node_chunking_v2";

pub const CHUNK_RECORD_KIND: &'static str = "chunk";

pub const DOCUMENT_SUMMARY_RECORD_KIND: &'static str = "document_summary";

pub const MEMORY_INDEX_NAMESPACE: &'static str = "memory-cases";

pub const SEARCH_PROFILE_MAX_KEYWORDS: usize = 32;

pub const SEARCH_PROFILE_MAX_QUESTIONS: usize = 8;

/// Whether a term can be a keyword.
pub open spec fn can_be_keyword(t: Seq<char>) -> bool {
    t.len() >= 2 && !case_terms::is_stop_term(t)
}

/// How much one occurrence of a term counts, in quarters: identifiers, digits
/// and length count more.
pub open spec fn keyword_quarters(t: Seq<char>) -> nat {
    (4 + (if case_terms::is_identifier(t) {
        6int
    } else {
        0
    }) + (if case_terms::has_digit(t) {
        4int
    } else {
        0
    }) + (if t.len() >= 3 {
        2int
    } else {
        0
    }) + (if t.len() >= 6 {
        1int
    } else {
        0
    })) as nat
}

fn profile_keyword_quarters(t: &str) -> (r: u64)
    ensures
        r == keyword_quarters(t@),
        r <= 17,
{
    let chars = char_count(t);
    let mut score: u64 = 4;
    if is_ascii_identifier_term(t) {
        score += 6;
    }
    if holds_digit(t) {
        score += 4;
    }
    if chars >= 3 {
        score += 2;
    }
    if chars >= 6 {
        score += 1;
    }
    score
}

/// How often a term occurs among tokens.
pub open spec fn occurrences(tokens: Seq<Seq<char>>, t: Seq<char>) -> nat
    decreases tokens.len(),
{
    if tokens.len() == 0 {
        0
    } else {
        occurrences(tokens.drop_last(), t) + (if tokens.last() == t {
            1nat
        } else {
            0nat
        })
    }
}

/// A keyword by what it counts, how often it occurs, and where it occurs first.
#[derive(Clone, Copy, Debug, PartialEq, Eq, Structural)]
pub struct KeywordRank {
    pub score: u128,
    pub count: usize,
    pub first: usize,
}

impl Ordered for KeywordRank {
    /// What counts more goes first, then what occurs more often, then what occurs
    /// earlier.
    open spec fn precedes(&self, other: &Self) -> bool {
        self.score > other.score || (self.score == other.score && (self.count > other.count || (
        self.count == other.count && self.first < other.first)))
    }

    proof fn order_is_weak(a: &Self, b: &Self, c: &Self) {
    }

    fn goes_before(&self, other: &Self) -> (r: bool) {
        self.score > other.score || (self.score == other.score && (self.count > other.count || (
        self.count == other.count && self.first < other.first)))
    }
}

/// The rank of the term that occurs first at a place among tokens.
pub open spec fn rank_at(tokens: Seq<Seq<char>>, first: int) -> KeywordRank {
    let count = occurrences(tokens, tokens[first]);
    KeywordRank {
        score: (count * keyword_quarters(tokens[first])) as u128,
        count: count as usize,
        first: first as usize,
    }
}

/// The ranks of the terms that occur first among the first `n` tokens.
pub open spec fn keyword_ranks(tokens: Seq<Seq<char>>, n: nat) -> Seq<KeywordRank>
    decreases n,
{
    if n == 0 {
        Seq::empty()
    } else {
        let earlier = keyword_ranks(tokens, (n - 1) as nat);
        if can_be_keyword(tokens[n - 1]) && !tokens.take(n - 1).contains(tokens[n - 1]) {
            earlier.push(rank_at(tokens, n - 1))
        } else {
            earlier
        }
    }
}

/// The terms of a text, those that count most first.
pub open spec fn ranked_terms(s: Seq<char>) -> Seq<Seq<char>> {
    let tokens = case_terms::tokens_of(s);
    let ranked = order::in_order(keyword_ranks(tokens, tokens.len()));
    Seq::new(ranked.len(), |i: int| tokens[ranked[i].first as int])
}

proof fn lemma_occurrences_bound(tokens: Seq<Seq<char>>, t: Seq<char>)
    ensures
        occurrences(tokens, t) <= tokens.len(),
    decreases tokens.len(),
{
    if tokens.len() > 0 {
        lemma_occurrences_bound(tokens.drop_last(), t);
    }
}

fn count_occurrences(tokens: &Vec<String>, t: &str) -> (r: usize)
    ensures
        r == occurrences(text::strings(tokens@), t@),
{
    let ghost all = text::strings(tokens@);
    let mut n: usize = 0;
    let mut i: usize = 0;
    while i < tokens.len()
        invariant
            i <= tokens@.len(),
            all == text::strings(tokens@),
            n <= i,
            n == occurrences(all.take(i as int), t@),
        decreases tokens@.len() - i,
    {
        proof {
            assert(all.take(i + 1).drop_last() =~= all.take(i as int));
            assert(all.take(i + 1).last() == tokens@[i as int]@);
        }
        if text_eq(tokens[i].as_str(), t) {
            n += 1;
        }
        i += 1;
    }
    assert(all.take(i as int) =~= all);
    n
}

fn occurs_before(tokens: &Vec<String>, n: usize, t: &str) -> (r: bool)
    requires
        n <= tokens@.len(),
    ensures
        r == text::strings(tokens@).take(n as int).contains(t@),
{
    let ghost head = text::strings(tokens@).take(n as int);
    let mut i: usize = 0;
    while i < n
        invariant
            i <= n <= tokens@.len(),
            head == text::strings(tokens@).take(n as int),
            forall|k: int| 0 <= k < i ==> #[trigger] head[k] != t@,
        decreases n - i,
    {
        assert(head[i as int] == tokens@[i as int]@);
        if text_eq(tokens[i].as_str(), t) {
            return true;
        }
        i += 1;
    }
    false
}

fn ranked_profile_terms(s: &str) -> (r: Vec<String>)
    ensures
        text::strings(r@) == ranked_terms(s@),
{
    let tokens = lexical_tokens(s);
    let ghost all = text::strings(tokens@);
    let mut ranks: Vec<KeywordRank> = Vec::new();
    let mut i: usize = 0;
    while i < tokens.len()
        invariant
            i <= tokens@.len(),
            all == text::strings(tokens@),
            ranks@ == keyword_ranks(all, i as nat),
            forall|k: int| 0 <= k < ranks@.len() ==> (#[trigger] ranks@[k]).first < tokens@.len(),
        decreases tokens@.len() - i,
    {
        let t = tokens[i].as_str();
        assert(all[i as int] == t@);
        if char_count(t) >= 2 && !is_search_stop_term(t) && !occurs_before(&tokens, i, t) {
            let count = count_occurrences(&tokens, t);
            let quarters = profile_keyword_quarters(t);
            proof {
                assert(count * quarters <= 0xffff_ffff_ffff_ffff * 17) by (nonlinear_arith)
                    requires
                        0 <= count <= 0xffff_ffff_ffff_ffff,
                        0 <= quarters <= 17,
                ;
            }
            let score: u128 = (count as u128) * (quarters as u128);
            ranks.push(KeywordRank { score, count, first: i });
        }
        i += 1;
    }
    let ghost unsorted = ranks@;
    let ranked = sort_stable(ranks);
    let ghost wanted = Seq::new(ranked@.len(), |i: int| all[ranked@[i].first as int]);
    proof {
        order::sorting_orders_and_keeps_all(unsorted);
        assert forall|k: int| 0 <= k < ranked@.len() implies (#[trigger] ranked@[k]).first
            < tokens@.len() by {
            lemma_sorted_rank(unsorted, k);
        }
    }
    let mut terms: Vec<String> = Vec::new();
    let mut j: usize = 0;
    assert(text::strings(terms@) =~= wanted.take(0));
    while j < ranked.len()
        invariant
            j <= ranked@.len(),
            all == text::strings(tokens@),
            wanted == Seq::new(ranked@.len(), |i: int| all[ranked@[i].first as int]),
            forall|k: int| 0 <= k < ranked@.len() ==> (#[trigger] ranked@[k]).first < tokens@.len(),
            text::strings(terms@) == wanted.take(j as int),
        decreases ranked@.len() - j,
    {
        let ghost before = terms@;
        let k = ranked[j].first;
        let copy = tokens[k].clone();
        terms.push(copy);
        proof {
            lemma_strings_push(before, copy);
            assert(wanted.take(j + 1) =~= wanted.take(j as int).push(copy@));
        }
        j += 1;
    }
    assert(wanted.take(j as int) =~= wanted);
    terms
}

proof fn lemma_sorted_rank(s: Seq<KeywordRank>, i: int)
    requires
        0 <= i < order::in_order(s).len(),
    ensures
        exists|k: int| 0 <= k < s.len() && s[k] == order::in_order(s)[i],
{
    broadcast use vstd::seq_lib::group_to_multiset_ensures;

    order::sorting_orders_and_keeps_all(s);
    let t = order::in_order(s);
    assert(t.contains(t[i]));
    assert(t.to_multiset().count(t[i]) > 0);
    assert(s.to_multiset().count(t[i]) > 0);
    assert(s.contains(t[i]));
}

/// Values with others, each once, up to a limit.
pub open spec fn with_uniques(values: Seq<Seq<char>>, more: Seq<Seq<char>>, limit: nat) -> Seq<
    Seq<char>,
>
    decreases more.len(),
{
    if more.len() == 0 {
        values
    } else {
        case_terms::with_unique(
            with_uniques(values, more.drop_last(), limit),
            more.last(),
            limit,
        )
    }
}

fn push_uniques(values: &mut Vec<String>, more: &Vec<String>, limit: usize)
    ensures
        text::strings(final(values)@) == with_uniques(
            text::strings(old(values)@),
            text::strings(more@),
            limit as nat,
        ),
{
    let ghost first = text::strings(values@);
    let ghost all = text::strings(more@);
    let mut i: usize = 0;
    assert(all.take(0) =~= Seq::<Seq<char>>::empty());
    while i < more.len()
        invariant
            i <= more@.len(),
            all == text::strings(more@),
            text::strings(values@) == with_uniques(first, all.take(i as int), limit as nat),
        decreases more@.len() - i,
    {
        proof {
            assert(all.take(i + 1).drop_last() =~= all.take(i as int));
            assert(all.take(i + 1).last() == more@[i as int]@);
        }
        push_unique_limited(values, more[i].as_str(), limit);
        i += 1;
    }
    assert(all.take(i as int) =~= all);
}

/// The keywords of a text: its version numbers, then the terms that count most.
pub open spec fn keywords_of(s: Seq<char>) -> Seq<Seq<char>> {
    let lower = text::lowercase_text(text::trimmed(s));
    let limit = SEARCH_PROFILE_MAX_KEYWORDS as nat;
    with_uniques(
        with_uniques(Seq::empty(), case_terms::versions_of(lower), limit),
        ranked_terms(lower),
        limit,
    )
}

/// The keywords of a text.
pub fn important_keywords_for_text(s: &str) -> (r: Vec<String>)
    ensures
        text::strings(r@) == keywords_of(s@),
{
    let lower = trim(s).to_lowercase();
    let mut keywords: Vec<String> = Vec::new();
    assert(text::strings(keywords@) =~= Seq::<Seq<char>>::empty());
    let versions = version_like_terms(lower.as_str());
    push_uniques(&mut keywords, &versions, SEARCH_PROFILE_MAX_KEYWORDS);
    let terms = ranked_profile_terms(lower.as_str());
    push_uniques(&mut keywords, &terms, SEARCH_PROFILE_MAX_KEYWORDS);
    keywords
}

/// Whether a character ends a sentence that is no question.
pub open spec fn ends_statement(c: char) -> bool {
    c == '\n' || c == '。' || c == '！' || c == '!' || c == '；' || c == ';'
}

/// The questions that are asked, and the sentence that the text ends in.
pub open spec fn questions_state(s: Seq<char>) -> (Seq<Seq<char>>, Seq<char>)
    decreases s.len(),
{
    if s.len() == 0 {
        (Seq::empty(), Seq::empty())
    } else {
        let (questions, sentence) = questions_state(s.drop_last());
        let c = s.last();
        let more = sentence.push(c);
        if c == '?' || c == '？' {
            (
                case_terms::with_unique(questions, more, SEARCH_PROFILE_MAX_QUESTIONS as nat),
                Seq::empty(),
            )
        } else if ends_statement(c) {
            (questions, Seq::empty())
        } else {
            (questions, more)
        }
    }
}

/// The questions that a text asks.
pub fn explicit_questions_for_text(content: &str) -> (r: Vec<String>)
    ensures
        text::strings(r@) == questions_state(content@).0,
{
    let chars = to_chars(content);
    let mut questions: Vec<String> = Vec::new();
    let mut sentence = String::new();
    let mut i: usize = 0;
    assert(text::strings(questions@) =~= Seq::<Seq<char>>::empty());
    while i < chars.len()
        invariant
            i <= chars@.len(),
            questions_state(chars@.take(i as int)) == (text::strings(questions@), sentence@),
        decreases chars@.len() - i,
    {
        assert(chars@.take(i + 1).drop_last() =~= chars@.take(i as int));
        let c = chars[i];
        sentence.push(c);
        if c == '?' || c == '？' {
            push_unique_limited(
                &mut questions,
                sentence.as_str(),
                SEARCH_PROFILE_MAX_QUESTIONS,
            );
            sentence = String::new();
            assert(sentence@ =~= Seq::<char>::empty());
        } else if c == '\n' || c == '。' || c == '！' || c == '!' || c == '；' || c == ';' {
            sentence = String::new();
            assert(sentence@ =~= Seq::<char>::empty());
        }
        i += 1;
    }
    assert(chars@.take(i as int) =~= content@);
    questions
}

/// Parts with others, the blank ones left out.
pub open spec fn with_parts(parts: Seq<Seq<char>>, more: Seq<Seq<char>>) -> Seq<Seq<char>>
    decreases more.len(),
{
    if more.len() == 0 {
        parts
    } else {
        case_summary::with_filled(with_parts(parts, more.drop_last()), more.last())
    }
}

fn push_index_part(parts: &mut Vec<String>, t: &str)
    ensures
        text::strings(final(parts)@) == case_summary::with_filled(
            text::strings(old(parts)@),
            t@,
        ),
{
    let t = trim(t);
    if !t.is_empty() {
        let ghost before = parts@;
        let copy = t.to_owned();
        parts.push(copy);
        proof {
            lemma_strings_push(before, copy);
        }
    }
}

/// What is put in front of a text as its context: the title, the keywords and
/// the lines that say the most.
pub open spec fn context_of(title: Seq<char>, content: Seq<char>, keywords: Seq<Seq<char>>) -> Seq<
    char,
> {
    text::joined(
        with_parts(
            case_summary::with_filled(
                case_summary::with_filled(Seq::empty(), title),
                text::joined(keywords, " "@),
            ),
            case_summary::best_lines(content),
        ),
        "\n"@,
    )
}

fn build_context_profile_text(title: &str, content: &str, keywords: &Vec<String>) -> (r: String)
    ensures
        r@ == context_of(title@, content@, text::strings(keywords@)),
{
    let mut parts: Vec<String> = Vec::new();
    assert(text::strings(parts@) =~= Seq::<Seq<char>>::empty());
    push_index_part(&mut parts, title);
    let joined = join_texts(keywords, " ");
    push_index_part(&mut parts, joined.as_str());
    let lines = representative_context_lines(content);
    let ghost first = text::strings(parts@);
    let ghost all = text::strings(lines@);
    let mut i: usize = 0;
    assert(all.take(0) =~= Seq::<Seq<char>>::empty());
    while i < lines.len()
        invariant
            i <= lines@.len(),
            all == text::strings(lines@),
            text::strings(parts@) == with_parts(first, all.take(i as int)),
        decreases lines@.len() - i,
    {
        proof {
            assert(all.take(i + 1).drop_last() =~= all.take(i as int));
            assert(all.take(i + 1).last() == lines@[i as int]@);
        }
        push_index_part(&mut parts, lines[i].as_str());
        i += 1;
    }
    assert(all.take(i as int) =~= all);
    join_texts(&parts, "\n")
}

/// What a text is indexed by.
#[derive(Debug)]
pub struct SearchIndexProfile {
    pub title_tks: String,
    pub important_kwd: Vec<String>,
    pub important_tks: String,
    pub question_tks: String,
    pub context_tks: String,
}

/// What a [`SearchIndexProfile`] stands for.
pub struct ProfileView {
    pub title_tks: Seq<char>,
    pub important_kwd: Seq<Seq<char>>,
    pub important_tks: Seq<char>,
    pub question_tks: Seq<char>,
    pub context_tks: Seq<char>,
}

impl View for SearchIndexProfile {
    type V = ProfileView;

    open spec fn view(&self) -> ProfileView {
        ProfileView {
            title_tks: self.title_tks@,
            important_kwd: text::strings(self.important_kwd@),
            important_tks: self.important_tks@,
            question_tks: self.question_tks@,
            context_tks: self.context_tks@,
        }
    }
}

/// What a text of a document is indexed by.
pub open spec fn profile_of(name: Seq<char>, content: Seq<char>) -> ProfileView {
    let title = case_summary::title_of(name);
    let keywords = keywords_of(title.push('\n') + content);
    ProfileView {
        title_tks: case_terms::index_text(title),
        important_kwd: keywords,
        important_tks: case_terms::index_text(text::joined(keywords, " "@)),
        question_tks: case_terms::index_text(
            text::joined(questions_state(content).0, " "@),
        ),
        context_tks: case_terms::index_text(context_of(title, content, keywords)),
    }
}

/// What a text of a document is indexed by.
pub fn build_search_index_profile(document: &StoredDocument, content: &str) -> (r:
    SearchIndexProfile)
    ensures
        r@ == profile_of(document.name@, content@),
{
    let title = document_title(document.name.as_str());
    let mut combined = title.clone();
    combined.push('\n');
    combined.append(content);
    let keywords = important_keywords_for_text(combined.as_str());
    let context = build_context_profile_text(title.as_str(), content, &keywords);
    let questions = explicit_questions_for_text(content);
    let joined_keywords = join_texts(&keywords, " ");
    let joined_questions = join_texts(&questions, " ");
    SearchIndexProfile {
        title_tks: build_search_index_text(title.as_str()),
        important_tks: build_search_index_text(joined_keywords.as_str()),
        question_tks: build_search_index_text(joined_questions.as_str()),
        context_tks: build_search_index_text(context.as_str()),
        important_kwd: keywords,
    }
}

/// What a text is indexed as: its title counts twice, its keywords three times,
/// its questions and its context twice, and itself once.
pub open spec fn weighted_text(content: Seq<char>, p: ProfileView) -> Seq<char> {
    text::joined(
        with_parts(
            Seq::empty(),
            seq![
                p.title_tks,
                p.title_tks,
                p.important_tks,
                p.important_tks,
                p.important_tks,
                p.question_tks,
                p.question_tks,
                p.context_tks,
                p.context_tks,
                case_terms::index_text(content),
            ],
        ),
        " "@,
    )
}

proof fn lemma_with_parts_push(parts: Seq<Seq<char>>, more: Seq<Seq<char>>, t: Seq<char>)
    ensures
        with_parts(parts, more.push(t)) == case_summary::with_filled(with_parts(parts, more), t),
{
    assert(more.push(t).drop_last() =~= more);
}

fn push_part(parts: &mut Vec<String>, Ghost(more): Ghost<Seq<Seq<char>>>, t: &str)
    requires
        text::strings(old(parts)@) == with_parts(Seq::empty(), more),
    ensures
        text::strings(final(parts)@) == with_parts(Seq::empty(), more.push(t@)),
{
    proof {
        lemma_with_parts_push(Seq::empty(), more, t@);
    }
    push_index_part(parts, t);
}

/// What a text is indexed as.
pub fn build_weighted_search_index_text(content: &str, profile: &SearchIndexProfile) -> (r: String)
    ensures
        r@ == weighted_text(content@, profile@),
{
    let mut parts: Vec<String> = Vec::new();
    let ghost m0: Seq<Seq<char>> = Seq::empty();
    assert(text::strings(parts@) =~= m0);
    push_part(&mut parts, Ghost(m0), profile.title_tks.as_str());
    let ghost m1 = m0.push(profile.title_tks@);
    push_part(&mut parts, Ghost(m1), profile.title_tks.as_str());
    let ghost m2 = m1.push(profile.title_tks@);
    push_part(&mut parts, Ghost(m2), profile.important_tks.as_str());
    let ghost m3 = m2.push(profile.important_tks@);
    push_part(&mut parts, Ghost(m3), profile.important_tks.as_str());
    let ghost m4 = m3.push(profile.important_tks@);
    push_part(&mut parts, Ghost(m4), profile.important_tks.as_str());
    let ghost m5 = m4.push(profile.important_tks@);
    push_part(&mut parts, Ghost(m5), profile.question_tks.as_str());
    let ghost m6 = m5.push(profile.question_tks@);
    push_part(&mut parts, Ghost(m6), profile.question_tks.as_str());
    let ghost m7 = m6.push(profile.question_tks@);
    push_part(&mut parts, Ghost(m7), profile.context_tks.as_str());
    let ghost m8 = m7.push(profile.context_tks@);
    push_part(&mut parts, Ghost(m8), profile.context_tks.as_str());
    let ghost m9 = m8.push(profile.context_tks@);
    let own = build_search_index_text(content);
    push_part(&mut parts, Ghost(m9), own.as_str());
    proof {
        assert(m9.push(own@) =~= seq![
            profile.title_tks@,
            profile.title_tks@,
            profile.important_tks@,
            profile.important_tks@,
            profile.important_tks@,
            profile.question_tks@,
            profile.question_tks@,
            profile.context_tks@,
            profile.context_tks@,
            own@,
        ]);
    }
    join_texts(&parts, " ")
}

pub open spec fn index_list(v: Seq<usize>) -> JsonView {
    JsonView::Array(Seq::new(v.len(), |i: int| JsonView::Unsigned(v[i] as u64)))
}

/// A list of numbers as a JSON array.
pub fn index_list_json(v: &Vec<usize>) -> (r: Json)
    ensures
        r@ == index_list(v@),
{
    let mut list: Vec<Json> = Vec::new();
    let mut i: usize = 0;
    while i < v.len()
        invariant
            i <= v@.len(),
            list@.len() == i,
            forall|k: int| 0 <= k < i ==> (#[trigger] list@[k])@ == JsonView::Unsigned(v@[k] as u64),
        decreases v@.len() - i,
    {
        list.push(Json::Unsigned(v[i] as u64));
        i += 1;
    }
    proof {
        json::lemma_array_view(list);
        assert(json::json_views(list@) =~= index_list(v@)->Array_0);
    }
    Json::Array(list)
}

/// What is noted about a chunk in the index.
pub open spec fn chunk_metadata(d: StoredDocumentView, c: ChunkView, p: ProfileView) -> JsonView {
    graph_context::object_of(
        seq![
            ("memory_index_namespace"@, JsonView::Text(MEMORY_INDEX_NAMESPACE@)),
            ("scope_id"@, JsonView::Text(c.dataset_id)),
            ("dataset_id"@, JsonView::Text(c.dataset_id)),
            ("document_id"@, JsonView::Text(c.document_id)),
            ("chunk_id"@, JsonView::Text(c.id)),
            ("chunk_index"@, JsonView::Unsigned(c.chunk_index as u64)),
            ("chunking_strategy"@, JsonView::Text(CHUNKING_STRATEGY@)),
            ("record_kind"@, JsonView::Text(CHUNK_RECORD_KIND@)),
            ("chunk_type"@, JsonView::Text(c.chunk_type)),
            ("chunk_char_count"@, JsonView::Unsigned(c.content.len() as u64)),
            ("chunk_token_count"@, JsonView::Unsigned(c.token_count as u64)),
            ("parse_topology"@, JsonView::Text(c.parse_topology)),
            ("source_node_indices"@, index_list(c.source_node_indices)),
            ("available"@, JsonView::Bool(c.available)),
            ("source_name"@, JsonView::Text(d.name)),
            ("source_path"@, JsonView::Text(d.file_path)),
            ("title_tks"@, JsonView::Text(p.title_tks)),
            ("important_kwd"@, graph_context::text_list(p.important_kwd)),
            ("important_tks"@, JsonView::Text(p.important_tks)),
            ("question_tks"@, JsonView::Text(p.question_tks)),
            ("context_tks"@, JsonView::Text(p.context_tks)),
        ],
    )
}

/// What is noted about the summary of a document in the index.
pub open spec fn summary_metadata(
    d: StoredDocumentView,
    chunk_count: usize,
    source: Seq<char>,
    p: ProfileView,
) -> JsonView {
    graph_context::object_of(
        seq![
            ("memory_index_namespace"@, JsonView::Text(MEMORY_INDEX_NAMESPACE@)),
            ("scope_id"@, JsonView::Text(d.dataset_id)),
            ("dataset_id"@, JsonView::Text(d.dataset_id)),
            ("document_id"@, JsonView::Text(d.id)),
            ("chunking_strategy"@, JsonView::Text(CHUNKING_STRATEGY@)),
            ("record_kind"@, JsonView::Text(DOCUMENT_SUMMARY_RECORD_KIND@)),
            ("document_summary_source"@, JsonView::Text(source)),
            ("chunk_count"@, JsonView::Unsigned(chunk_count as u64)),
            ("available"@, JsonView::Bool(false)),
            ("source_name"@, JsonView::Text(d.name)),
            ("source_path"@, JsonView::Text(d.file_path)),
            ("title_tks"@, JsonView::Text(p.title_tks)),
            ("important_kwd"@, graph_context::text_list(p.important_kwd)),
            ("important_tks"@, JsonView::Text(p.important_tks)),
            ("question_tks"@, JsonView::Text(p.question_tks)),
            ("context_tks"@, JsonView::Text(p.context_tks)),
        ],
    )
}

/// The record that a chunk is indexed as.
pub fn build_chunk_memory_request(document: &StoredDocument, chunk: &Chunk) -> (r: AddMemoryRequest)
    ensures
        json::opt_string(r.id) == Some(chunk.id@),
        r.text@ == weighted_text(chunk.content@, profile_of(document.name@, chunk.content@)),
        r.metadata@ == chunk_metadata(
            document@,
            chunk@,
            profile_of(document.name@, chunk.content@),
        ),
{
    let profile = build_search_index_profile(document, chunk.content.as_str());
    let mut object = Json::new_object();
    let ghost m0: Seq<(Seq<char>, JsonView)> = Seq::empty();
    put_member(&mut object, Ghost(m0), "memory_index_namespace", text_json(MEMORY_INDEX_NAMESPACE));
    let ghost m1 = m0.push(("memory_index_namespace"@, JsonView::Text(MEMORY_INDEX_NAMESPACE@)));
    put_member(&mut object, Ghost(m1), "scope_id", text_json(chunk.dataset_id.as_str()));
    let ghost m2 = m1.push(("scope_id"@, JsonView::Text(chunk@.dataset_id)));
    put_member(&mut object, Ghost(m2), "dataset_id", text_json(chunk.dataset_id.as_str()));
    let ghost m3 = m2.push(("dataset_id"@, JsonView::Text(chunk@.dataset_id)));
    put_member(&mut object, Ghost(m3), "document_id", text_json(chunk.document_id.as_str()));
    let ghost m4 = m3.push(("document_id"@, JsonView::Text(chunk@.document_id)));
    put_member(&mut object, Ghost(m4), "chunk_id", text_json(chunk.id.as_str()));
    let ghost m5 = m4.push(("chunk_id"@, JsonView::Text(chunk@.id)));
    put_member(&mut object, Ghost(m5), "chunk_index", Json::Unsigned(chunk.chunk_index as u64));
    let ghost m6 = m5.push(("chunk_index"@, JsonView::Unsigned(chunk@.chunk_index as u64)));
    put_member(&mut object, Ghost(m6), "chunking_strategy", text_json(CHUNKING_STRATEGY));
    let ghost m7 = m6.push(("chunking_strategy"@, JsonView::Text(CHUNKING_STRATEGY@)));
    put_member(&mut object, Ghost(m7), "record_kind", text_json(CHUNK_RECORD_KIND));
    let ghost m8 = m7.push(("record_kind"@, JsonView::Text(CHUNK_RECORD_KIND@)));
    put_member(&mut object, Ghost(m8), "chunk_type", text_json(chunk.chunk_type.as_str()));
    let ghost m9 = m8.push(("chunk_type"@, JsonView::Text(chunk@.chunk_type)));
    put_member(&mut object, Ghost(m9), "chunk_char_count", Json::Unsigned(char_count(chunk.content.as_str()) as u64));
    let ghost m10 = m9.push(("chunk_char_count"@, JsonView::Unsigned(chunk@.content.len() as u64)));
    put_member(&mut object, Ghost(m10), "chunk_token_count", Json::Unsigned(chunk.token_count as u64));
    let ghost m11 = m10.push(("chunk_token_count"@, JsonView::Unsigned(chunk@.token_count as u64)));
    put_member(&mut object, Ghost(m11), "parse_topology", text_json(chunk.parse_topology.as_str()));
    let ghost m12 = m11.push(("parse_topology"@, JsonView::Text(chunk@.parse_topology)));
    put_member(&mut object, Ghost(m12), "source_node_indices", index_list_json(&chunk.source_node_indices));
    let ghost m13 = m12.push(("source_node_indices"@, index_list(chunk@.source_node_indices)));
    put_member(&mut object, Ghost(m13), "available", Json::Bool(chunk.available));
    let ghost m14 = m13.push(("available"@, JsonView::Bool(chunk@.available)));
    put_member(&mut object, Ghost(m14), "source_name", text_json(document.name.as_str()));
    let ghost m15 = m14.push(("source_name"@, JsonView::Text(document@.name)));
    put_member(&mut object, Ghost(m15), "source_path", text_json(document.file_path.as_str()));
    let ghost m16 = m15.push(("source_path"@, JsonView::Text(document@.file_path)));
    put_member(&mut object, Ghost(m16), "title_tks", text_json(profile.title_tks.as_str()));
    let ghost m17 = m16.push(("title_tks"@, JsonView::Text(profile@.title_tks)));
    put_member(&mut object, Ghost(m17), "important_kwd", text_list_json(&profile.important_kwd));
    let ghost m18 = m17.push(("important_kwd"@, graph_context::text_list(profile@.important_kwd)));
    put_member(&mut object, Ghost(m18), "important_tks", text_json(profile.important_tks.as_str()));
    let ghost m19 = m18.push(("important_tks"@, JsonView::Text(profile@.important_tks)));
    put_member(&mut object, Ghost(m19), "question_tks", text_json(profile.question_tks.as_str()));
    let ghost m20 = m19.push(("question_tks"@, JsonView::Text(profile@.question_tks)));
    put_member(&mut object, Ghost(m20), "context_tks", text_json(profile.context_tks.as_str()));
    let ghost m21 = m20.push(("context_tks"@, JsonView::Text(profile@.context_tks)));
    proof {
        assert(m21 =~= seq![
            ("memory_index_namespace"@, JsonView::Text(MEMORY_INDEX_NAMESPACE@)),
            ("scope_id"@, JsonView::Text(chunk@.dataset_id)),
            ("dataset_id"@, JsonView::Text(chunk@.dataset_id)),
            ("document_id"@, JsonView::Text(chunk@.document_id)),
            ("chunk_id"@, JsonView::Text(chunk@.id)),
            ("chunk_index"@, JsonView::Unsigned(chunk@.chunk_index as u64)),
            ("chunking_strategy"@, JsonView::Text(CHUNKING_STRATEGY@)),
            ("record_kind"@, JsonView::Text(CHUNK_RECORD_KIND@)),
            ("chunk_type"@, JsonView::Text(chunk@.chunk_type)),
            ("chunk_char_count"@, JsonView::Unsigned(chunk@.content.len() as u64)),
            ("chunk_token_count"@, JsonView::Unsigned(chunk@.token_count as u64)),
            ("parse_topology"@, JsonView::Text(chunk@.parse_topology)),
            ("source_node_indices"@, index_list(chunk@.source_node_indices)),
            ("available"@, JsonView::Bool(chunk@.available)),
            ("source_name"@, JsonView::Text(document@.name)),
            ("source_path"@, JsonView::Text(document@.file_path)),
            ("title_tks"@, JsonView::Text(profile@.title_tks)),
            ("important_kwd"@, graph_context::text_list(profile@.important_kwd)),
            ("important_tks"@, JsonView::Text(profile@.important_tks)),
            ("question_tks"@, JsonView::Text(profile@.question_tks)),
            ("context_tks"@, JsonView::Text(profile@.context_tks)),
        ]);
    }
    AddMemoryRequest {
        id: Some(chunk.id.clone()),
        text: build_weighted_search_index_text(chunk.content.as_str(), &profile),
        metadata: object,
    }
}

/// The identifier of the record that a document's summary is indexed as.
pub open spec fn summary_id(document_id: Seq<char>) -> Seq<char> {
    document_id + "_document_summary"@
}

pub fn document_summary_memory_id(document_id: &str) -> (r: String)
    ensures
        r@ == summary_id(document_id@),
{
    let mut r = document_id.to_owned();
    r.append("_document_summary");
    r
}

/// The record that the summary of a document is indexed as.
pub fn build_document_summary_memory_request(
    document: &StoredDocument,
    chunk_count: usize,
    search_text: &str,
    source: &str,
) -> (r: AddMemoryRequest)
    ensures
        json::opt_string(r.id) == Some(summary_id(document.id@)),
        r.text@ == weighted_text(search_text@, profile_of(document.name@, search_text@)),
        r.metadata@ == summary_metadata(
            document@,
            chunk_count,
            source@,
            profile_of(document.name@, search_text@),
        ),
{
    let profile = build_search_index_profile(document, search_text);
    let mut object = Json::new_object();
    let ghost m0: Seq<(Seq<char>, JsonView)> = Seq::empty();
    put_member(&mut object, Ghost(m0), "memory_index_namespace", text_json(MEMORY_INDEX_NAMESPACE));
    let ghost m1 = m0.push(("memory_index_namespace"@, JsonView::Text(MEMORY_INDEX_NAMESPACE@)));
    put_member(&mut object, Ghost(m1), "scope_id", text_json(document.dataset_id.as_str()));
    let ghost m2 = m1.push(("scope_id"@, JsonView::Text(document@.dataset_id)));
    put_member(&mut object, Ghost(m2), "dataset_id", text_json(document.dataset_id.as_str()));
    let ghost m3 = m2.push(("dataset_id"@, JsonView::Text(document@.dataset_id)));
    put_member(&mut object, Ghost(m3), "document_id", text_json(document.id.as_str()));
    let ghost m4 = m3.push(("document_id"@, JsonView::Text(document@.id)));
    put_member(&mut object, Ghost(m4), "chunking_strategy", text_json(CHUNKING_STRATEGY));
    let ghost m5 = m4.push(("chunking_strategy"@, JsonView::Text(CHUNKING_STRATEGY@)));
    put_member(&mut object, Ghost(m5), "record_kind", text_json(DOCUMENT_SUMMARY_RECORD_KIND));
    let ghost m6 = m5.push(("record_kind"@, JsonView::Text(DOCUMENT_SUMMARY_RECORD_KIND@)));
    put_member(&mut object, Ghost(m6), "document_summary_source", text_json(source));
    let ghost m7 = m6.push(("document_summary_source"@, JsonView::Text(source@)));
    put_member(&mut object, Ghost(m7), "chunk_count", Json::Unsigned(chunk_count as u64));
    let ghost m8 = m7.push(("chunk_count"@, JsonView::Unsigned(chunk_count as u64)));
    put_member(&mut object, Ghost(m8), "available", Json::Bool(false));
    let ghost m9 = m8.push(("available"@, JsonView::Bool(false)));
    put_member(&mut object, Ghost(m9), "source_name", text_json(document.name.as_str()));
    let ghost m10 = m9.push(("source_name"@, JsonView::Text(document@.name)));
    put_member(&mut object, Ghost(m10), "source_path", text_json(document.file_path.as_str()));
    let ghost m11 = m10.push(("source_path"@, JsonView::Text(document@.file_path)));
    put_member(&mut object, Ghost(m11), "title_tks", text_json(profile.title_tks.as_str()));
    let ghost m12 = m11.push(("title_tks"@, JsonView::Text(profile@.title_tks)));
    put_member(&mut object, Ghost(m12), "important_kwd", text_list_json(&profile.important_kwd));
    let ghost m13 = m12.push(("important_kwd"@, graph_context::text_list(profile@.important_kwd)));
    put_member(&mut object, Ghost(m13), "important_tks", text_json(profile.important_tks.as_str()));
    let ghost m14 = m13.push(("important_tks"@, JsonView::Text(profile@.important_tks)));
    put_member(&mut object, Ghost(m14), "question_tks", text_json(profile.question_tks.as_str()));
    let ghost m15 = m14.push(("question_tks"@, JsonView::Text(profile@.question_tks)));
    put_member(&mut object, Ghost(m15), "context_tks", text_json(profile.context_tks.as_str()));
    let ghost m16 = m15.push(("context_tks"@, JsonView::Text(profile@.context_tks)));
    proof {
        assert(m16 =~= seq![
            ("memory_index_namespace"@, JsonView::Text(MEMORY_INDEX_NAMESPACE@)),
            ("scope_id"@, JsonView::Text(document@.dataset_id)),
            ("dataset_id"@, JsonView::Text(document@.dataset_id)),
            ("document_id"@, JsonView::Text(document@.id)),
            ("chunking_strategy"@, JsonView::Text(CHUNKING_STRATEGY@)),
            ("record_kind"@, JsonView::Text(DOCUMENT_SUMMARY_RECORD_KIND@)),
            ("document_summary_source"@, JsonView::Text(source@)),
            ("chunk_count"@, JsonView::Unsigned(chunk_count as u64)),
            ("available"@, JsonView::Bool(false)),
            ("source_name"@, JsonView::Text(document@.name)),
            ("source_path"@, JsonView::Text(document@.file_path)),
            ("title_tks"@, JsonView::Text(profile@.title_tks)),
            ("important_kwd"@, graph_context::text_list(profile@.important_kwd)),
            ("important_tks"@, JsonView::Text(profile@.important_tks)),
            ("question_tks"@, JsonView::Text(profile@.question_tks)),
            ("context_tks"@, JsonView::Text(profile@.context_tks)),
        ]);
    }
    AddMemoryRequest {
        id: Some(document_summary_memory_id(document.id.as_str())),
        text: build_weighted_search_index_text(search_text, &profile),
        metadata: object,
    }
}

/// The filters that find the records of a document in the index.
pub open spec fn delete_filters(dataset_id: Seq<char>, document_id: Seq<char>) -> Seq<JsonView> {
    seq![
        graph_context::object_of(
            seq![
                ("memory_index_namespace"@, JsonView::Text(MEMORY_INDEX_NAMESPACE@)),
                ("dataset_id"@, JsonView::Text(dataset_id)),
                ("document_id"@, JsonView::Text(document_id)),
            ],
        ),
        graph_context::object_of(
            seq![
                ("chunking_strategy"@, JsonView::Text(CHUNKING_STRATEGY@)),
                ("dataset_id"@, JsonView::Text(dataset_id)),
                ("document_id"@, JsonView::Text(document_id)),
            ],
        ),
    ]
}

fn document_filter(key: &str, value: &str, dataset_id: &str, document_id: &str) -> (r: Json)
    ensures
        r@ == graph_context::object_of(
            seq![
                (key@, JsonView::Text(value@)),
                ("dataset_id"@, JsonView::Text(dataset_id@)),
                ("document_id"@, JsonView::Text(document_id@)),
            ],
        ),
{
    let mut object = Json::new_object();
    let ghost m0: Seq<(Seq<char>, JsonView)> = Seq::empty();
    put_member(&mut object, Ghost(m0), key, text_json(value));
    let ghost m1 = m0.push((key@, JsonView::Text(value@)));
    put_member(&mut object, Ghost(m1), "dataset_id", text_json(dataset_id));
    let ghost m2 = m1.push(("dataset_id"@, JsonView::Text(dataset_id@)));
    put_member(&mut object, Ghost(m2), "document_id", text_json(document_id));
    proof {
        assert(m2.push(("document_id"@, JsonView::Text(document_id@))) =~= seq![
            (key@, JsonView::Text(value@)),
            ("dataset_id"@, JsonView::Text(dataset_id@)),
            ("document_id"@, JsonView::Text(document_id@)),
        ]);
    }
    object
}

/// The filters that find the records of a document in the index.
pub fn document_memory_delete_filters(dataset_id: &str, document_id: &str) -> (r: Vec<Json>)
    ensures
        json::json_views(r@) == delete_filters(dataset_id@, document_id@),
{
    let mut r: Vec<Json> = Vec::new();
    r.push(
        document_filter("memory_index_namespace", MEMORY_INDEX_NAMESPACE, dataset_id, document_id),
    );
    r.push(document_filter("chunking_strategy", CHUNKING_STRATEGY, dataset_id, document_id));
    assert(json::json_views(r@) =~= delete_filters(dataset_id@, document_id@));
    r
}

/// The last member under a key is what an object holds under it.
pub proof fn lemma_object_of_get(members: Seq<(Seq<char>, JsonView)>, i: int)
    requires
        0 <= i < members.len(),
        forall|j: int| i < j < members.len() ==> (#[trigger] members[j]).0 != members[i].0,
    ensures
        graph_context::object_of(members) is Object,
        json::json_get(graph_context::object_of(members), members[i].0) == Some(members[i].1),
    decreases members.len(),
{
    let t = members.drop_last();
    lemma_object_of_is_object(t);
    json::put_then_get(
        graph_context::object_of(t),
        members.last().0,
        members.last().1,
        members[i].0,
    );
    if i < t.len() {
        assert(members[members.len() - 1].0 != members[i].0);
        assert forall|j: int| i < j < t.len() implies (#[trigger] t[j]).0 != t[i].0 by {
            assert(t[j] == members[j]);
        }
        lemma_object_of_get(t, i);
    }
}

proof fn lemma_object_of_is_object(members: Seq<(Seq<char>, JsonView)>)
    ensures
        graph_context::object_of(members) is Object,
    decreases members.len(),
{
    if members.len() > 0 {
        lemma_object_of_is_object(members.drop_last());
    }
}

/// Every member of an object is one of those that were put.
proof fn lemma_object_of_members(members: Seq<(Seq<char>, JsonView)>, k: int) -> (j: int)
    requires
        graph_context::object_of(members) is Object,
        0 <= k < graph_context::object_of(members)->Object_0.len(),
    ensures
        0 <= j < members.len(),
        members[j] == graph_context::object_of(members)->Object_0[k],
    decreases members.len(),
{
    let t = members.drop_last();
    lemma_object_of_is_object(t);
    let before = graph_context::object_of(t)->Object_0;
    let after = graph_context::object_of(members)->Object_0;
    let key = members.last().0;
    let value = members.last().1;
    let i = json::member_index(before, key);
    json::lemma_member_index_bounds(before, key);
    if i < before.len() {
        if k == i {
            assert(after[k] == (key, value));
            members.len() - 1
        } else {
            assert(after[k] == before[k]);
            lemma_object_of_members(t, k)
        }
    } else {
        let slot = json::member_slot(before, key);
        json::lemma_member_slot_bounds(before, key);
        if k < slot {
            assert(after[k] == before[k]);
            lemma_object_of_members(t, k)
        } else if k == slot {
            assert(after[k] == (key, value));
            members.len() - 1
        } else {
            assert(after[k] == before[k - 1]);
            lemma_object_of_members(t, k - 1)
        }
    }
}

proof fn lemma_filter_keys()
    ensures
        "dataset_id"@ != "document_id"@,
        "memory_index_namespace"@ != "dataset_id"@,
        "memory_index_namespace"@ != "document_id"@,
        "chunking_strategy"@ != "dataset_id"@,
        "chunking_strategy"@ != "document_id"@,
{
    reveal_strlit("dataset_id");
    reveal_strlit("document_id");
    reveal_strlit("memory_index_namespace");
    reveal_strlit("chunking_strategy");
    assert("dataset_id"@.len() == 10);
    assert("document_id"@.len() == 11);
    assert("memory_index_namespace"@.len() == 22);
    assert("chunking_strategy"@.len() == 17);
}

/// A filter of three members passes metadata that holds them, and no other.
proof fn lemma_filter_of_three(
    metadata: JsonView,
    key: Seq<char>,
    value: Seq<char>,
    dataset_id: Seq<char>,
    document_id: Seq<char>,
)
    requires
        metadata is Object,
        key != "dataset_id"@,
        key != "document_id"@,
    ensures
        record::matches_filter(
            metadata,
            Some(
                graph_context::object_of(
                    seq![
                        (key, JsonView::Text(value)),
                        ("dataset_id"@, JsonView::Text(dataset_id)),
                        ("document_id"@, JsonView::Text(document_id)),
                    ],
                ),
            ),
        ) == (json::json_get(metadata, key) == Some(JsonView::Text(value)) && json::json_get(
            metadata,
            "dataset_id"@,
        ) == Some(JsonView::Text(dataset_id)) && json::json_get(metadata, "document_id"@) == Some(
            JsonView::Text(document_id),
        )),
{
    let members = seq![
        (key, JsonView::Text(value)),
        ("dataset_id"@, JsonView::Text(dataset_id)),
        ("document_id"@, JsonView::Text(document_id)),
    ];
    let filter = graph_context::object_of(members);
    lemma_filter_keys();
    lemma_object_of_get(members, 0);
    lemma_object_of_get(members, 1);
    lemma_object_of_get(members, 2);
    let wanted = filter->Object_0;
    json::lemma_member_index_bounds(wanted, key);
    json::lemma_member_index_bounds(wanted, "dataset_id"@);
    json::lemma_member_index_bounds(wanted, "document_id"@);
    let a = json::member_index(wanted, key);
    let b = json::member_index(wanted, "dataset_id"@);
    let c = json::member_index(wanted, "document_id"@);
    assert(wanted[a] == (key, JsonView::Text(value)));
    assert(wanted[b] == ("dataset_id"@, JsonView::Text(dataset_id)));
    assert(wanted[c] == ("document_id"@, JsonView::Text(document_id)));
    if json::json_get(metadata, key) == Some(JsonView::Text(value)) && json::json_get(
        metadata,
        "dataset_id"@,
    ) == Some(JsonView::Text(dataset_id)) && json::json_get(metadata, "document_id"@) == Some(
        JsonView::Text(document_id),
    ) {
        assert forall|i: int| 0 <= i < wanted.len() implies (match json::json_get(
            metadata,
            (#[trigger] wanted[i]).0,
        ) {
            Some(v) => json::same_value(v, wanted[i].1),
            None => false,
        }) by {
            let j = lemma_object_of_members(members, i);
            assert(members[j] == wanted[i]);
        }
    }
}

/// Whether metadata is that of a record of a document in the index.
pub open spec fn is_record_of(
    metadata: JsonView,
    dataset_id: Seq<char>,
    document_id: Seq<char>,
) -> bool {
    &&& metadata is Object
    &&& json::json_get(metadata, "memory_index_namespace"@) == Some(
        JsonView::Text(MEMORY_INDEX_NAMESPACE@),
    )
    &&& json::json_get(metadata, "chunking_strategy"@) == Some(JsonView::Text(CHUNKING_STRATEGY@))
    &&& json::json_get(metadata, "dataset_id"@) == Some(JsonView::Text(dataset_id))
    &&& json::json_get(metadata, "document_id"@) == Some(JsonView::Text(document_id))
}

proof fn lemma_filters_find_records(
    metadata: JsonView,
    own_dataset: Seq<char>,
    own_document: Seq<char>,
    dataset_id: Seq<char>,
    document_id: Seq<char>,
)
    requires
        is_record_of(metadata, own_dataset, own_document),
    ensures
        record::matches_any_filter(metadata, delete_filters(dataset_id, document_id)) == (
        own_dataset == dataset_id && own_document == document_id),
{
    lemma_filter_keys();
    lemma_filter_of_three(
        metadata,
        "memory_index_namespace"@,
        MEMORY_INDEX_NAMESPACE@,
        dataset_id,
        document_id,
    );
    lemma_filter_of_three(
        metadata,
        "chunking_strategy"@,
        CHUNKING_STRATEGY@,
        dataset_id,
        document_id,
    );
    let filters = delete_filters(dataset_id, document_id);
    if own_dataset == dataset_id && own_document == document_id {
        assert(record::matches_filter(metadata, Some(filters[0])));
    }
}

proof fn lemma_profile_key()
    ensures
        "memory_core_embedding_profile"@ != "memory_index_namespace"@,
        "memory_core_embedding_profile"@ != "chunking_strategy"@,
        "memory_core_embedding_profile"@ != "dataset_id"@,
        "memory_core_embedding_profile"@ != "document_id"@,
{
    reveal_strlit("memory_core_embedding_profile");
    reveal_strlit("dataset_id");
    reveal_strlit("document_id");
    reveal_strlit("memory_index_namespace");
    reveal_strlit("chunking_strategy");
    assert("memory_core_embedding_profile"@.len() == 29);
    assert("dataset_id"@.len() == 10);
    assert("document_id"@.len() == 11);
    assert("memory_index_namespace"@.len() == 22);
    assert("chunking_strategy"@.len() == 17);
}

proof fn lemma_profile_keeps_record(
    metadata: JsonView,
    profile: JsonView,
    dataset_id: Seq<char>,
    document_id: Seq<char>,
)
    requires
        is_record_of(metadata, dataset_id, document_id),
    ensures
        is_record_of(manager::with_profile(metadata, profile), dataset_id, document_id),
{
    lemma_profile_key();
    let key = "memory_core_embedding_profile"@;
    json::put_then_get(metadata, key, profile, "memory_index_namespace"@);
    json::put_then_get(metadata, key, profile, "chunking_strategy"@);
    json::put_then_get(metadata, key, profile, "dataset_id"@);
    json::put_then_get(metadata, key, profile, "document_id"@);
}

proof fn lemma_chunk_keys(d: StoredDocumentView, c: ChunkView, p: ProfileView)
    ensures
        is_record_of(chunk_metadata(d, c, p), c.dataset_id, c.document_id),
{
    reveal_strlit("memory_index_namespace");
    reveal_strlit("scope_id");
    reveal_strlit("dataset_id");
    reveal_strlit("document_id");
    reveal_strlit("chunk_id");
    reveal_strlit("chunk_index");
    reveal_strlit("chunking_strategy");
    reveal_strlit("record_kind");
    reveal_strlit("chunk_type");
    reveal_strlit("chunk_char_count");
    reveal_strlit("chunk_token_count");
    reveal_strlit("parse_topology");
    reveal_strlit("source_node_indices");
    reveal_strlit("available");
    reveal_strlit("source_name");
    reveal_strlit("source_path");
    reveal_strlit("title_tks");
    reveal_strlit("important_kwd");
    reveal_strlit("important_tks");
    reveal_strlit("question_tks");
    reveal_strlit("context_tks");
    assert("memory_index_namespace"@.len() == 22);
    assert("scope_id"@.len() == 8);
    assert("dataset_id"@.len() == 10);
    assert("document_id"@.len() == 11);
    assert("chunk_id"@.len() == 8);
    assert("chunk_index"@.len() == 11);
    assert("chunking_strategy"@.len() == 17);
    assert("record_kind"@.len() == 11);
    assert("chunk_type"@.len() == 10);
    assert("chunk_char_count"@.len() == 16);
    assert("chunk_token_count"@.len() == 17);
    assert("parse_topology"@.len() == 14);
    assert("source_node_indices"@.len() == 19);
    assert("available"@.len() == 9);
    assert("source_name"@.len() == 11);
    assert("source_path"@.len() == 11);
    assert("title_tks"@.len() == 9);
    assert("important_kwd"@.len() == 13);
    assert("important_tks"@.len() == 13);
    assert("question_tks"@.len() == 12);
    assert("context_tks"@.len() == 11);
    assert("dataset_id"@[0] == 'd');
    assert("document_id"@[0] == 'd');
    assert("chunk_index"@[0] == 'c');
    assert("record_kind"@[0] == 'r');
    assert("chunk_type"@[0] == 'c');
    assert("source_name"@[0] == 's');
    assert("source_path"@[0] == 's');
    assert("context_tks"@[0] == 'c');
    assert("chunking_strategy"@[5] == 'i');
    assert("chunk_token_count"@[5] == '_');
    let members = seq![
        ("memory_index_namespace"@, JsonView::Text(MEMORY_INDEX_NAMESPACE@)),
        ("scope_id"@, JsonView::Text(c.dataset_id)),
        ("dataset_id"@, JsonView::Text(c.dataset_id)),
        ("document_id"@, JsonView::Text(c.document_id)),
        ("chunk_id"@, JsonView::Text(c.id)),
        ("chunk_index"@, JsonView::Unsigned(c.chunk_index as u64)),
        ("chunking_strategy"@, JsonView::Text(CHUNKING_STRATEGY@)),
        ("record_kind"@, JsonView::Text(CHUNK_RECORD_KIND@)),
        ("chunk_type"@, JsonView::Text(c.chunk_type)),
        ("chunk_char_count"@, JsonView::Unsigned(c.content.len() as u64)),
        ("chunk_token_count"@, JsonView::Unsigned(c.token_count as u64)),
        ("parse_topology"@, JsonView::Text(c.parse_topology)),
        ("source_node_indices"@, index_list(c.source_node_indices)),
        ("available"@, JsonView::Bool(c.available)),
        ("source_name"@, JsonView::Text(d.name)),
        ("source_path"@, JsonView::Text(d.file_path)),
        ("title_tks"@, JsonView::Text(p.title_tks)),
        ("important_kwd"@, graph_context::text_list(p.important_kwd)),
        ("important_tks"@, JsonView::Text(p.important_tks)),
        ("question_tks"@, JsonView::Text(p.question_tks)),
        ("context_tks"@, JsonView::Text(p.context_tks)),
    ];
    assert(chunk_metadata(d, c, p) == graph_context::object_of(members));
    lemma_object_of_get(members, 0);
    lemma_object_of_get(members, 2);
    lemma_object_of_get(members, 3);
    lemma_object_of_get(members, 6);
}

proof fn lemma_summary_keys(
    d: StoredDocumentView,
    chunk_count: usize,
    source: Seq<char>,
    p: ProfileView,
)
    ensures
        is_record_of(summary_metadata(d, chunk_count, source, p), d.dataset_id, d.id),
{
    reveal_strlit("memory_index_namespace");
    reveal_strlit("scope_id");
    reveal_strlit("dataset_id");
    reveal_strlit("document_id");
    reveal_strlit("chunking_strategy");
    reveal_strlit("record_kind");
    reveal_strlit("document_summary_source");
    reveal_strlit("chunk_count");
    reveal_strlit("available");
    reveal_strlit("source_name");
    reveal_strlit("source_path");
    reveal_strlit("title_tks");
    reveal_strlit("important_kwd");
    reveal_strlit("important_tks");
    reveal_strlit("question_tks");
    reveal_strlit("context_tks");
    assert("memory_index_namespace"@.len() == 22);
    assert("scope_id"@.len() == 8);
    assert("dataset_id"@.len() == 10);
    assert("document_id"@.len() == 11);
    assert("chunking_strategy"@.len() == 17);
    assert("record_kind"@.len() == 11);
    assert("document_summary_source"@.len() == 23);
    assert("chunk_count"@.len() == 11);
    assert("available"@.len() == 9);
    assert("source_name"@.len() == 11);
    assert("source_path"@.len() == 11);
    assert("title_tks"@.len() == 9);
    assert("important_kwd"@.len() == 13);
    assert("important_tks"@.len() == 13);
    assert("question_tks"@.len() == 12);
    assert("context_tks"@.len() == 11);
    assert("dataset_id"@[0] == 'd');
    assert("document_id"@[0] == 'd');
    assert("record_kind"@[0] == 'r');
    assert("chunk_count"@[0] == 'c');
    assert("source_name"@[0] == 's');
    assert("source_path"@[0] == 's');
    assert("context_tks"@[0] == 'c');
    let members = seq![
        ("memory_index_namespace"@, JsonView::Text(MEMORY_INDEX_NAMESPACE@)),
        ("scope_id"@, JsonView::Text(d.dataset_id)),
        ("dataset_id"@, JsonView::Text(d.dataset_id)),
        ("document_id"@, JsonView::Text(d.id)),
        ("chunking_strategy"@, JsonView::Text(CHUNKING_STRATEGY@)),
        ("record_kind"@, JsonView::Text(DOCUMENT_SUMMARY_RECORD_KIND@)),
        ("document_summary_source"@, JsonView::Text(source)),
        ("chunk_count"@, JsonView::Unsigned(chunk_count as u64)),
        ("available"@, JsonView::Bool(false)),
        ("source_name"@, JsonView::Text(d.name)),
        ("source_path"@, JsonView::Text(d.file_path)),
        ("title_tks"@, JsonView::Text(p.title_tks)),
        ("important_kwd"@, graph_context::text_list(p.important_kwd)),
        ("important_tks"@, JsonView::Text(p.important_tks)),
        ("question_tks"@, JsonView::Text(p.question_tks)),
        ("context_tks"@, JsonView::Text(p.context_tks)),
    ];
    assert(summary_metadata(d, chunk_count, source, p) == graph_context::object_of(members));
    lemma_object_of_get(members, 0);
    lemma_object_of_get(members, 2);
    lemma_object_of_get(members, 3);
    lemma_object_of_get(members, 4);
}

/// The filters of a document find its chunks in the index, whatever embedding
/// profile they are stored with, and the chunks of no other document.
pub proof fn filters_find_the_chunks_of_a_document(
    d: StoredDocumentView,
    c: ChunkView,
    p: ProfileView,
    profile: JsonView,
    dataset_id: Seq<char>,
    document_id: Seq<char>,
)
    ensures
        record::matches_any_filter(
            manager::with_profile(chunk_metadata(d, c, p), profile),
            delete_filters(dataset_id, document_id),
        ) == (c.dataset_id == dataset_id && c.document_id == document_id),
{
    lemma_chunk_keys(d, c, p);
    let metadata = chunk_metadata(d, c, p);
    lemma_profile_keeps_record(metadata, profile, c.dataset_id, c.document_id);
    lemma_filters_find_records(
        manager::with_profile(metadata, profile),
        c.dataset_id,
        c.document_id,
        dataset_id,
        document_id,
    );
}

/// The filters of a document find its summary in the index, and the summary of
/// no other document.
pub proof fn filters_find_the_summary_of_a_document(
    d: StoredDocumentView,
    chunk_count: usize,
    source: Seq<char>,
    p: ProfileView,
    profile: JsonView,
    dataset_id: Seq<char>,
    document_id: Seq<char>,
)
    ensures
        record::matches_any_filter(
            manager::with_profile(summary_metadata(d, chunk_count, source, p), profile),
            delete_filters(dataset_id, document_id),
        ) == (d.dataset_id == dataset_id && d.id == document_id),
{
    lemma_summary_keys(d, chunk_count, source, p);
    let metadata = summary_metadata(d, chunk_count, source, p);
    lemma_profile_keeps_record(metadata, profile, d.dataset_id, d.id);
    lemma_filters_find_records(
        manager::with_profile(metadata, profile),
        d.dataset_id,
        d.id,
        dataset_id,
        document_id,
    );
}

} // verus!
