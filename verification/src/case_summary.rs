//! What a document is summed up as: the lines that say the most about it.

use vstd::prelude::*;
use vstd::string::*;

use crate::case_model;
use crate::case_model::{Chunk, ChunkView, StoredDocument};
use crate::case_overlap;
use crate::case_overlap::retrieval_terms;
use crate::case_terms;
use crate::case_terms::{holds_digit, version_like_terms};
use crate::order;
use crate::order::{sort_stable, Ordered};
use crate::scan;
use crate::scan::{char_count, path_stem};
use crate::text;
use crate::text::{
    from_chars, join_texts, lemma_strings_push, push_decimal, split_words, text_eq, text_lines,
    to_chars, trim,
};

verus! {

pub const DOCUMENT_SUMMARY_MAX_CHARS: usize = 6000;

pub const DOCUMENT_SUMMARY_BODY_MAX_CHARS: usize = 1200;

pub const DOCUMENT_SUMMARY_CANDIDATE_MAX_CHARS: usize = 180;

pub const DOCUMENT_SUMMARY_MAX_LINES: usize = 8;

pub const LLM_DOCUMENT_SUMMARY_SOURCE_MAX_CHARS: usize = 12000;

pub const SEARCH_PROFILE_MAX_CONTEXT_LINES: usize = 4;

/// The start of a text, with three dots where more follows.
pub open spec fn truncated(s: Seq<char>, max: nat) -> Seq<char> {
    if s.len() > max {
        s.take(max as int) + "..."@
    } else {
        s
    }
}

/// The start of a text, with three dots where more follows.
pub fn truncate_chars(s: &str, max_chars: usize) -> (r: String)
    ensures
        r@ == truncated(s@, max_chars as nat),
{
    let chars = to_chars(s);
    if chars.len() > max_chars {
        let mut r = from_chars(&chars, 0, max_chars);
        assert(r@ =~= s@.take(max_chars as int));
        r.append("...");
        r
    } else {
        s.to_owned()
    }
}

/// The title of a document: its name without the extension.
pub open spec fn title_of(name: Seq<char>) -> Seq<char> {
    match scan::stem_of(name) {
        Some(stem) => text::trimmed(stem),
        None => text::trimmed(name),
    }
}

/// The title of a document.
pub fn document_title(name: &str) -> (r: String)
    ensures
        r@ == title_of(name@),
{
    match path_stem(name) {
        Some(stem) => trim(stem.as_str()).to_owned(),
        None => trim(name).to_owned(),
    }
}

/// Whether a character ends a sentence of a summary.
pub open spec fn ends_summary_sentence(c: char) -> bool {
    c == '。' || c == '！' || c == '？' || c == '；' || c == '!' || c == '?' || c == ';'
}

fn is_summary_mark(c: char) -> (r: bool)
    ensures
        r == ends_summary_sentence(c),
{
    c == '。' || c == '！' || c == '？' || c == '；' || c == '!' || c == '?' || c == ';'
}

pub open spec fn with_filled(texts: Seq<Seq<char>>, t: Seq<char>) -> Seq<Seq<char>> {
    if text::is_blank(t) {
        texts
    } else {
        texts.push(text::trimmed(t))
    }
}

/// The sentences that are complete, and the one that the text ends in.
pub open spec fn summary_sentences_state(s: Seq<char>) -> (Seq<Seq<char>>, Seq<char>)
    decreases s.len(),
{
    if s.len() == 0 {
        (Seq::empty(), Seq::empty())
    } else {
        let (done, current) = summary_sentences_state(s.drop_last());
        let more = current.push(s.last());
        if ends_summary_sentence(s.last()) {
            (with_filled(done, more), Seq::empty())
        } else {
            (done, more)
        }
    }
}

/// The sentences of a long paragraph.
pub open spec fn summary_sentences(s: Seq<char>) -> Seq<Seq<char>> {
    let (done, current) = summary_sentences_state(s);
    with_filled(done, current)
}

fn push_filled(texts: &mut Vec<String>, t: &str)
    ensures
        text::strings(final(texts)@) == with_filled(text::strings(old(texts)@), t@),
{
    let t = trim(t);
    if !t.is_empty() {
        let ghost before = texts@;
        let copy = t.to_owned();
        texts.push(copy);
        proof {
            lemma_strings_push(before, copy);
        }
    }
}

fn split_document_summary_sentences(s: &str) -> (r: Vec<String>)
    ensures
        text::strings(r@) == summary_sentences(s@),
{
    let chars = to_chars(s);
    let mut done: Vec<String> = Vec::new();
    let mut current = String::new();
    let mut i: usize = 0;
    assert(text::strings(done@) =~= Seq::<Seq<char>>::empty());
    while i < chars.len()
        invariant
            i <= chars@.len(),
            summary_sentences_state(chars@.take(i as int)) == (text::strings(done@), current@),
        decreases chars@.len() - i,
    {
        assert(chars@.take(i + 1).drop_last() =~= chars@.take(i as int));
        let c = chars[i];
        current.push(c);
        if is_summary_mark(c) {
            push_filled(&mut done, current.as_str());
            current = String::new();
            assert(current@ =~= Seq::<char>::empty());
        }
        i += 1;
    }
    assert(chars@.take(i as int) =~= s@);
    push_filled(&mut done, current.as_str());
    done
}

/// What the lines of a text offer to a summary: short lines as they are, long
/// ones sentence by sentence.
pub open spec fn offered_lines(lines: Seq<Seq<char>>) -> Seq<Seq<char>>
    decreases lines.len(),
{
    if lines.len() == 0 {
        Seq::empty()
    } else {
        let earlier = offered_lines(lines.drop_last());
        let t = text::trimmed(lines.last());
        if t.len() == 0 {
            earlier
        } else if t.len() <= DOCUMENT_SUMMARY_CANDIDATE_MAX_CHARS {
            earlier.push(t)
        } else {
            earlier + summary_sentences(t)
        }
    }
}

/// What a text offers to a summary.
pub open spec fn offered_texts(content: Seq<char>) -> Seq<Seq<char>> {
    let offered = offered_lines(text::lines_of(content));
    if offered.len() == 0 {
        with_filled(offered, content)
    } else {
        offered
    }
}

fn document_summary_candidate_texts(content: &str) -> (r: Vec<String>)
    ensures
        text::strings(r@) == offered_texts(content@),
{
    let lines = text_lines(content);
    let ghost all = text::strings(lines@);
    let mut texts: Vec<String> = Vec::new();
    let mut i: usize = 0;
    assert(text::strings(texts@) =~= Seq::<Seq<char>>::empty());
    while i < lines.len()
        invariant
            i <= lines@.len(),
            all == text::strings(lines@),
            text::strings(texts@) == offered_lines(all.take(i as int)),
        decreases lines@.len() - i,
    {
        proof {
            assert(all.take(i + 1).drop_last() =~= all.take(i as int));
            assert(all.take(i + 1).last() == lines@[i as int]@);
        }
        let t = trim(lines[i].as_str());
        if !t.is_empty() {
            let ghost before = texts@;
            if char_count(t) <= DOCUMENT_SUMMARY_CANDIDATE_MAX_CHARS {
                let copy = t.to_owned();
                texts.push(copy);
                proof {
                    lemma_strings_push(before, copy);
                }
            } else {
                let mut sentences = split_document_summary_sentences(t);
                let ghost more = sentences@;
                texts.append(&mut sentences);
                assert(text::strings(texts@) =~= text::strings(before) + text::strings(more));
            }
        }
        i += 1;
    }
    assert(all.take(i as int) =~= all);
    if texts.len() == 0 {
        push_filled(&mut texts, content);
    }
    texts
}

/// A text as a candidate line: its words with single spaces, not too long; none
/// where it has fewer than two characters.
pub open spec fn candidate_line(s: Seq<char>) -> Option<Seq<char>> {
    let t = text::trimmed(text::joined(text::words_of(s), " "@));
    if t.len() < 2 {
        None
    } else {
        Some(truncated(t, DOCUMENT_SUMMARY_CANDIDATE_MAX_CHARS as nat))
    }
}

fn normalize_document_summary_candidate(s: &str) -> (r: Option<String>)
    ensures
        crate::json::opt_string(r) == candidate_line(s@),
{
    let words = split_words(s);
    let joined = join_texts(&words, " ");
    let t = trim(joined.as_str());
    if char_count(t) < 2 {
        return None;
    }
    Some(truncate_chars(t, DOCUMENT_SUMMARY_CANDIDATE_MAX_CHARS))
}

/// Whether a line looks like a heading: short and without a mark that ends a
/// sentence.
pub open spec fn looks_like_heading(s: Seq<char>) -> bool {
    s.len() <= 40 && forall|i: int|
        0 <= i < s.len() ==> !(ends_summary_sentence(#[trigger] s[i]) || s[i] == '.')
}

fn looks_like_document_summary_heading(s: &str) -> (r: bool)
    ensures
        r == looks_like_heading(s@),
{
    let chars = to_chars(s);
    if chars.len() > 40 {
        return false;
    }
    let mut i: usize = 0;
    while i < chars.len()
        invariant
            i <= chars@.len(),
            chars@ == s@,
            s@.len() <= 40,
            forall|k: int|
                0 <= k < i ==> !(ends_summary_sentence(#[trigger] s@[k]) || s@[k] == '.'),
        decreases chars@.len() - i,
    {
        let c = chars[i];
        if is_summary_mark(c) || c == '.' {
            assert(ends_summary_sentence(s@[i as int]) || s@[i as int] == '.');
            return false;
        }
        i += 1;
    }
    true
}

pub open spec fn some_identifier(terms: Seq<Seq<char>>) -> bool {
    exists|i: int| 0 <= i < terms.len() && case_terms::is_identifier(#[trigger] terms[i])
}

pub open spec fn points(holds: bool, n: int) -> int {
    if holds {
        n
    } else {
        0
    }
}

/// What a line is scored by.
#[derive(Clone, Copy, Debug, PartialEq, Eq, Structural)]
pub struct LineSignals {
    pub heading: bool,
    pub terms: usize,
    pub identifier: bool,
    pub digit: bool,
    pub version: bool,
    pub chars: usize,
    pub first_chunk: bool,
}

/// How much a line with some signals says about its document.
pub open spec fn signal_score(g: LineSignals) -> int {
    points(g.heading, 8) + (if g.terms < 8 {
        g.terms as int
    } else {
        8
    }) + points(g.identifier, 3) + points(g.digit, 2) + points(g.version, 3) + length_score(
        g.chars as int,
    ) + points(g.chars < 6 && !g.heading, -2) + points(g.first_chunk, 1)
}

/// The signals of a line.
pub open spec fn line_signals(s: Seq<char>, chunk_index: nat) -> LineSignals {
    LineSignals {
        heading: looks_like_heading(s),
        terms: case_overlap::terms_of(s).len() as usize,
        identifier: some_identifier(case_overlap::terms_of(s)),
        digit: case_terms::has_digit(s),
        version: case_terms::versions_of(s).len() > 0,
        chars: s.len() as usize,
        first_chunk: chunk_index == 0,
    }
}

/// How much a line says about its document.
pub open spec fn line_score(s: Seq<char>, chunk_index: nat) -> int {
    signal_score(line_signals(s, chunk_index))
}

fn points_if(holds: bool, n: i32) -> (r: i32)
    requires
        -8 <= n <= 8,
    ensures
        r == points(holds, n as int),
        -8 <= r <= 8,
{
    if holds {
        n
    } else {
        0
    }
}

/// How much the length of a line says about it.
pub open spec fn length_score(chars: int) -> int {
    if 20 <= chars <= 120 {
        4
    } else if chars <= 80 {
        3
    } else {
        points(chars > DOCUMENT_SUMMARY_CANDIDATE_MAX_CHARS, -4)
    }
}

fn weigh_length(chars: usize) -> (r: i32)
    ensures
        r == length_score(chars as int),
        -8 <= r <= 8,
{
    if 20 <= chars && chars <= 120 {
        4
    } else if chars <= 80 {
        3
    } else {
        points_if(chars > DOCUMENT_SUMMARY_CANDIDATE_MAX_CHARS, -4)
    }
}

fn weigh_signals(g: LineSignals) -> (r: i32)
    ensures
        r == signal_score(g),
{
    let heading = points_if(g.heading, 8);
    let terms: i32 = if g.terms < 8 {
        g.terms as i32
    } else {
        8
    };
    let identifier = points_if(g.identifier, 3);
    let digit = points_if(g.digit, 2);
    let version = points_if(g.version, 3);
    let length = weigh_length(g.chars);
    let short = points_if(g.chars < 6 && !g.heading, -2);
    let first = points_if(g.first_chunk, 1);
    heading + terms + identifier + digit + version + length + short + first
}

fn document_summary_candidate_score(s: &str, chunk_index: usize) -> (r: i32)
    ensures
        r == line_score(s@, chunk_index as nat),
{
    let terms = retrieval_terms(s);
    let versions = version_like_terms(s);
    assert(text::strings(versions@).len() == versions@.len());
    weigh_signals(
        LineSignals {
            heading: looks_like_document_summary_heading(s),
            terms: terms.len(),
            identifier: terms.holds_identifier(),
            digit: holds_digit(s),
            version: versions.len() > 0,
            chars: char_count(s),
            first_chunk: chunk_index == 0,
        },
    )
}

/// A candidate line by its score and its place.
#[derive(Clone, Copy, Debug, PartialEq, Eq, Structural)]
pub struct LineRank {
    pub score: i32,
    pub order: usize,
}

impl Ordered for LineRank {
    /// Higher scores go first, and among equal scores the earlier line.
    open spec fn precedes(&self, other: &Self) -> bool {
        self.score > other.score || (self.score == other.score && self.order < other.order)
    }

    proof fn order_is_weak(a: &Self, b: &Self, c: &Self) {
    }

    fn goes_before(&self, other: &Self) -> (r: bool) {
        self.score > other.score || (self.score == other.score && self.order < other.order)
    }
}

/// The ranks of lines by their scores; where a signal is demanded, only of those
/// that score above zero.
pub open spec fn ranks_of(scores: Seq<i32>, require_signal: bool) -> Seq<LineRank>
    decreases scores.len(),
{
    if scores.len() == 0 {
        Seq::empty()
    } else {
        let earlier = ranks_of(scores.drop_last(), require_signal);
        if !require_signal || scores.last() > 0 {
            earlier.push(LineRank { score: scores.last(), order: (scores.len() - 1) as usize })
        } else {
            earlier
        }
    }
}

fn rank_lines(scores: &Vec<i32>, require_signal: bool) -> (r: Vec<LineRank>)
    ensures
        r@ == ranks_of(scores@, require_signal),
        forall|i: int| 0 <= i < r@.len() ==> (#[trigger] r@[i]).order < scores@.len(),
{
    let mut r: Vec<LineRank> = Vec::new();
    let mut i: usize = 0;
    while i < scores.len()
        invariant
            i <= scores@.len(),
            r@ == ranks_of(scores@.take(i as int), require_signal),
            forall|k: int| 0 <= k < r@.len() ==> (#[trigger] r@[k]).order < i,
        decreases scores@.len() - i,
    {
        assert(scores@.take(i + 1).drop_last() =~= scores@.take(i as int));
        if !require_signal || scores[i] > 0 {
            r.push(LineRank { score: scores[i], order: i });
        }
        i += 1;
    }
    assert(scores@.take(i as int) =~= scores@);
    r
}

/// The lines that are picked, and their length in all. Lines are picked as long
/// as there is room; a line is not picked twice.
pub open spec fn picks(ranked: Seq<LineRank>, lines: Seq<Seq<char>>) -> (Seq<int>, nat)
    decreases ranked.len(),
{
    if ranked.len() == 0 {
        (Seq::empty(), 0)
    } else {
        let (picked, total) = picks(ranked.drop_last(), lines);
        let k = ranked.last().order as int;
        let line = lines[k];
        if picked.len() >= DOCUMENT_SUMMARY_MAX_LINES || is_picked(picked, lines, line) || (total
            > 0 && total + line.len() > DOCUMENT_SUMMARY_BODY_MAX_CHARS) {
            (picked, total)
        } else {
            (picked.push(k), total + line.len())
        }
    }
}

pub open spec fn is_picked(picked: Seq<int>, lines: Seq<Seq<char>>, line: Seq<char>) -> bool {
    exists|i: int| 0 <= i < picked.len() && lines[#[trigger] picked[i]] == line
}

/// The picked lines among the first `n`, in their order.
pub open spec fn picked_lines(lines: Seq<Seq<char>>, picked: Seq<int>, n: nat) -> Seq<Seq<char>>
    decreases n,
{
    if n == 0 {
        Seq::empty()
    } else {
        let earlier = picked_lines(lines, picked, (n - 1) as nat);
        if picked.contains(n - 1) {
            earlier.push(lines[n - 1])
        } else {
            earlier
        }
    }
}

/// The lines that sum a document up, in their order.
pub open spec fn selected_lines(
    lines: Seq<Seq<char>>,
    scores: Seq<i32>,
    require_signal: bool,
) -> Seq<Seq<char>> {
    picked_lines(
        lines,
        picks(order::in_order(ranks_of(scores, require_signal)), lines).0,
        lines.len(),
    )
}

fn line_is_picked(picked: &Vec<usize>, lines: &Vec<String>, line: &str) -> (r: bool)
    requires
        forall|i: int| 0 <= i < picked@.len() ==> (#[trigger] picked@[i]) < lines@.len(),
    ensures
        r == is_picked(scan::places(picked@), text::strings(lines@), line@),
{
    let ghost p = scan::places(picked@);
    let ghost all = text::strings(lines@);
    let mut i: usize = 0;
    while i < picked.len()
        invariant
            i <= picked@.len(),
            p == scan::places(picked@),
            all == text::strings(lines@),
            forall|i: int| 0 <= i < picked@.len() ==> (#[trigger] picked@[i]) < lines@.len(),
            forall|k: int| 0 <= k < i ==> all[#[trigger] p[k]] != line@,
        decreases picked@.len() - i,
    {
        let k = picked[i];
        assert(p[i as int] == k as int);
        if text_eq(lines[k].as_str(), line) {
            assert(all[p[i as int]] == line@);
            return true;
        }
        i += 1;
    }
    false
}

fn select_lines(lines: &Vec<String>, picked: &Vec<usize>) -> (r: Vec<String>)
    ensures
        text::strings(r@) == picked_lines(
            text::strings(lines@),
            scan::places(picked@),
            lines@.len(),
        ),
{
    let ghost all = text::strings(lines@);
    let ghost p = scan::places(picked@);
    let mut r: Vec<String> = Vec::new();
    let mut i: usize = 0;
    assert(text::strings(r@) =~= Seq::<Seq<char>>::empty());
    while i < lines.len()
        invariant
            i <= lines@.len(),
            all == text::strings(lines@),
            p == scan::places(picked@),
            text::strings(r@) == picked_lines(all, p, i as nat),
        decreases lines@.len() - i,
    {
        if scan::holds_place(picked, i) {
            let ghost before = r@;
            let copy = lines[i].clone();
            r.push(copy);
            proof {
                lemma_strings_push(before, copy);
            }
        }
        i += 1;
    }
    r
}

/// The lines that sum a document up, in their order.
pub fn select_document_summary_candidates(
    lines: &Vec<String>,
    scores: &Vec<i32>,
    require_signal: bool,
) -> (r: Vec<String>)
    requires
        lines@.len() == scores@.len(),
    ensures
        text::strings(r@) == selected_lines(text::strings(lines@), scores@, require_signal),
{
    let ghost all = text::strings(lines@);
    let ranks = rank_lines(scores, require_signal);
    let ghost unsorted = ranks@;
    let ranked = sort_stable(ranks);
    proof {
        order::sorting_orders_and_keeps_all(unsorted);
        assert forall|i: int| 0 <= i < ranked@.len() implies (#[trigger] ranked@[i]).order
            < lines@.len() by {
            lemma_sorted_member(unsorted, i);
        }
    }
    let mut picked: Vec<usize> = Vec::new();
    let mut total: usize = 0;
    let mut i: usize = 0;
    assert(scan::places(picked@) =~= Seq::<int>::empty());
    while i < ranked.len()
        invariant
            i <= ranked@.len(),
            all == text::strings(lines@),
            forall|k: int| 0 <= k < ranked@.len() ==> (#[trigger] ranked@[k]).order < lines@.len(),
            forall|k: int| 0 <= k < picked@.len() ==> (#[trigger] picked@[k]) < lines@.len(),
            picks(ranked@.take(i as int), all) == (scan::places(picked@), total as nat),
        decreases ranked@.len() - i,
    {
        assert(ranked@.take(i + 1).drop_last() =~= ranked@.take(i as int));
        let k = ranked[i].order;
        let chars = char_count(lines[k].as_str());
        let full = total > 0 && (chars > DOCUMENT_SUMMARY_BODY_MAX_CHARS || total
            > DOCUMENT_SUMMARY_BODY_MAX_CHARS - chars);
        if picked.len() < DOCUMENT_SUMMARY_MAX_LINES && !line_is_picked(
            &picked,
            lines,
            lines[k].as_str(),
        ) && !full {
            let ghost before = picked@;
            picked.push(k);
            total = total + chars;
            assert(scan::places(picked@) =~= scan::places(before).push(k as int));
        }
        i += 1;
    }
    assert(ranked@.take(i as int) =~= ranked@);
    select_lines(lines, &picked)
}

proof fn lemma_sorted_member(s: Seq<LineRank>, i: int)
    requires
        0 <= i < order::in_order(s).len(),
    ensures
        exists|k: int| 0 <= k < s.len() && s[k] == order::in_order(s)[i],
{
    broadcast use vstd::seq_lib::group_to_multiset_ensures;

    order::sorting_orders_and_keeps_all(s);
    let t = order::in_order(s);
    assert(t.contains(t[i]));
    assert(t.to_multiset().count(t[i]) > 0);
    assert(s.to_multiset().count(t[i]) > 0);
    assert(s.contains(t[i]));
}

/// The candidate lines among texts.
pub open spec fn candidate_lines(texts: Seq<Seq<char>>) -> Seq<Seq<char>>
    decreases texts.len(),
{
    if texts.len() == 0 {
        Seq::empty()
    } else {
        let earlier = candidate_lines(texts.drop_last());
        match candidate_line(texts.last()) {
            Some(line) => earlier.push(line),
            None => earlier,
        }
    }
}

/// The candidate lines of a text.
pub open spec fn lines_offered(content: Seq<char>) -> Seq<Seq<char>> {
    candidate_lines(offered_texts(content))
}

fn offer_lines(content: &str) -> (r: Vec<String>)
    ensures
        text::strings(r@) == lines_offered(content@),
{
    let texts = document_summary_candidate_texts(content);
    let ghost all = text::strings(texts@);
    let mut lines: Vec<String> = Vec::new();
    let mut i: usize = 0;
    assert(text::strings(lines@) =~= Seq::<Seq<char>>::empty());
    while i < texts.len()
        invariant
            i <= texts@.len(),
            all == text::strings(texts@),
            text::strings(lines@) == candidate_lines(all.take(i as int)),
        decreases texts@.len() - i,
    {
        proof {
            assert(all.take(i + 1).drop_last() =~= all.take(i as int));
            assert(all.take(i + 1).last() == texts@[i as int]@);
        }
        match normalize_document_summary_candidate(texts[i].as_str()) {
            Some(line) => {
                let ghost before = lines@;
                lines.push(line);
                proof {
                    lemma_strings_push(before, line);
                }
            },
            None => {},
        }
        i += 1;
    }
    assert(all.take(i as int) =~= all);
    lines
}

/// The scores of lines of a chunk.
pub open spec fn line_scores(lines: Seq<Seq<char>>, chunk_index: nat) -> Seq<i32> {
    Seq::new(lines.len(), |i: int| line_score(lines[i], chunk_index) as i32)
}

fn score_lines(lines: &Vec<String>, chunk_index: usize) -> (r: Vec<i32>)
    ensures
        r@ == line_scores(text::strings(lines@), chunk_index as nat),
{
    let mut scores: Vec<i32> = Vec::new();
    let ghost all = text::strings(lines@);
    let mut i: usize = 0;
    while i < lines.len()
        invariant
            i <= lines@.len(),
            all == text::strings(lines@),
            scores@ == line_scores(all, chunk_index as nat).take(i as int),
        decreases lines@.len() - i,
    {
        let score = document_summary_candidate_score(lines[i].as_str(), chunk_index);
        scores.push(score);
        proof {
            assert(all[i as int] == lines@[i as int]@);
            assert(scores@ =~= line_scores(all, chunk_index as nat).take(i + 1));
        }
        i += 1;
    }
    assert(scores@ =~= line_scores(all, chunk_index as nat));
    scores
}

/// The candidate lines of chunks, one chunk after the other.
pub open spec fn body_lines(chunks: Seq<ChunkView>) -> Seq<Seq<char>>
    decreases chunks.len(),
{
    if chunks.len() == 0 {
        Seq::empty()
    } else {
        body_lines(chunks.drop_last()) + lines_offered(chunks.last().content)
    }
}

/// Their scores.
pub open spec fn body_scores(chunks: Seq<ChunkView>) -> Seq<i32>
    decreases chunks.len(),
{
    if chunks.len() == 0 {
        Seq::empty()
    } else {
        body_scores(chunks.drop_last()) + line_scores(
            lines_offered(chunks.last().content),
            chunks.last().chunk_index as nat,
        )
    }
}

/// The lines that sum chunks up: those that say something, or any where none
/// does.
pub open spec fn body_summary(chunks: Seq<ChunkView>) -> Seq<Seq<char>> {
    let telling = selected_lines(body_lines(chunks), body_scores(chunks), true);
    if telling.len() == 0 {
        selected_lines(body_lines(chunks), body_scores(chunks), false)
    } else {
        telling
    }
}

/// The lines that sum chunks up.
pub fn build_document_body_summary(chunks: &Vec<Chunk>) -> (r: Vec<String>)
    ensures
        text::strings(r@) == body_summary(case_model::chunk_views(chunks@)),
{
    let ghost all = case_model::chunk_views(chunks@);
    let mut lines: Vec<String> = Vec::new();
    let mut scores: Vec<i32> = Vec::new();
    let mut i: usize = 0;
    assert(text::strings(lines@) =~= Seq::<Seq<char>>::empty());
    while i < chunks.len()
        invariant
            i <= chunks@.len(),
            all == case_model::chunk_views(chunks@),
            lines@.len() == scores@.len(),
            text::strings(lines@) == body_lines(all.take(i as int)),
            scores@ == body_scores(all.take(i as int)),
        decreases chunks@.len() - i,
    {
        proof {
            assert(all.take(i + 1).drop_last() =~= all.take(i as int));
            assert(all.take(i + 1).last() == chunks@[i as int]@);
        }
        let mut more = offer_lines(chunks[i].content.as_str());
        let mut more_scores = score_lines(&more, chunks[i].chunk_index);
        let ghost before = lines@;
        let ghost added = more@;
        lines.append(&mut more);
        scores.append(&mut more_scores);
        assert(text::strings(lines@) =~= text::strings(before) + text::strings(added));
        i += 1;
    }
    assert(all.take(i as int) =~= all);
    let telling = select_document_summary_candidates(&lines, &scores, true);
    if telling.len() == 0 {
        select_document_summary_candidates(&lines, &scores, false)
    } else {
        telling
    }
}

pub open spec fn zeros(n: nat) -> Seq<i32> {
    Seq::new(n, |i: int| 0i32)
}

/// The lines of a summary that was written elsewhere.
pub open spec fn summary_lines(s: Seq<char>) -> Seq<Seq<char>> {
    selected_lines(lines_offered(s), zeros(lines_offered(s).len()), false)
}

/// The lines of a summary that was written elsewhere.
pub fn document_summary_lines_from_text(s: &str) -> (r: Vec<String>)
    ensures
        text::strings(r@) == summary_lines(s@),
{
    let lines = offer_lines(s);
    let mut scores: Vec<i32> = Vec::new();
    let mut i: usize = 0;
    while i < lines.len()
        invariant
            i <= lines@.len(),
            scores@ == zeros(i as nat),
        decreases lines@.len() - i,
    {
        scores.push(0);
        i += 1;
        assert(scores@ =~= zeros(i as nat));
    }
    select_document_summary_candidates(&lines, &scores, false)
}

/// The best lines of a text, in their order.
pub open spec fn best_lines(content: Seq<char>) -> Seq<Seq<char>> {
    let lines = lines_offered(content);
    let ranked = order::in_order(ranks_of(line_scores(lines, 0), false));
    let n = if ranked.len() < SEARCH_PROFILE_MAX_CONTEXT_LINES {
        ranked.len() as int
    } else {
        SEARCH_PROFILE_MAX_CONTEXT_LINES as int
    };
    picked_lines(lines, Seq::new(n as nat, |i: int| ranked[i].order as int), lines.len())
}

/// The best lines of a text, in their order.
pub fn representative_context_lines(content: &str) -> (r: Vec<String>)
    ensures
        text::strings(r@) == best_lines(content@),
{
    let lines = offer_lines(content);
    let scores = score_lines(&lines, 0);
    let ranked = sort_stable(rank_lines(&scores, false));
    let ghost n = if ranked@.len() < SEARCH_PROFILE_MAX_CONTEXT_LINES {
        ranked@.len() as int
    } else {
        SEARCH_PROFILE_MAX_CONTEXT_LINES as int
    };
    let ghost wanted = Seq::new(n as nat, |i: int| ranked@[i].order as int);
    let mut picked: Vec<usize> = Vec::new();
    let mut i: usize = 0;
    assert(scan::places(picked@) =~= wanted.take(0));
    while i < ranked.len() && i < SEARCH_PROFILE_MAX_CONTEXT_LINES
        invariant
            i <= ranked@.len(),
            i <= SEARCH_PROFILE_MAX_CONTEXT_LINES,
            n == (if ranked@.len() < SEARCH_PROFILE_MAX_CONTEXT_LINES {
                ranked@.len() as int
            } else {
                SEARCH_PROFILE_MAX_CONTEXT_LINES as int
            }),
            wanted == Seq::new(n as nat, |i: int| ranked@[i].order as int),
            scan::places(picked@) == wanted.take(i as int),
        decreases ranked@.len() - i,
    {
        let ghost before = picked@;
        picked.push(ranked[i].order);
        proof {
            assert(scan::places(picked@) =~= scan::places(before).push(wanted[i as int]));
            assert(wanted.take(i + 1) =~= wanted.take(i as int).push(wanted[i as int]));
        }
        i += 1;
    }
    assert(wanted.take(i as int) =~= wanted);
    select_lines(&lines, &picked)
}

/// A text with as much of another behind it as a limit allows.
pub open spec fn limited(s: Seq<char>, more: Seq<char>, max: nat) -> Seq<char> {
    if s.len() >= max {
        s
    } else if s.len() + more.len() <= max {
        s + more
    } else {
        s + more.take(max - s.len())
    }
}

/// A text with as much of a line below it as a limit allows.
pub open spec fn with_limited_line(s: Seq<char>, line: Seq<char>, max: nat) -> Seq<char> {
    if s.len() >= max {
        s
    } else if s.len() == 0 {
        limited(s, line, max)
    } else {
        limited(limited(s, "\n"@, max), line, max)
    }
}

fn push_limited_text(s: &mut String, more: &str, max_chars: usize)
    ensures
        final(s)@ == limited(old(s)@, more@, max_chars as nat),
{
    let current = char_count(s.as_str());
    if current >= max_chars {
        return;
    }
    let remaining = max_chars - current;
    let chars = to_chars(more);
    if chars.len() <= remaining {
        s.append(more);
    } else {
        let part = from_chars(&chars, 0, remaining);
        assert(part@ =~= more@.take(remaining as int));
        s.append(part.as_str());
    }
}

fn push_limited_line(s: &mut String, line: &str, max_chars: usize)
    ensures
        final(s)@ == with_limited_line(old(s)@, line@, max_chars as nat),
{
    if char_count(s.as_str()) >= max_chars {
        return;
    }
    if !s.as_str().is_empty() {
        push_limited_text(s, "\n", max_chars);
    }
    push_limited_text(s, line, max_chars);
}

/// A text with numbered summary lines below it.
pub open spec fn with_summary_lines(s: Seq<char>, lines: Seq<Seq<char>>) -> Seq<char>
    decreases lines.len(),
{
    if lines.len() == 0 {
        s
    } else {
        with_limited_line(
            with_summary_lines(s, lines.drop_last()),
            "摘要"@ + text::decimal_text((lines.len() - 1) as nat) + ": "@ + lines.last(),
            DOCUMENT_SUMMARY_MAX_CHARS as nat,
        )
    }
}

/// What a document is searched as: its name, its title and its summary.
pub open spec fn document_text(name: Seq<char>, lines: Seq<Seq<char>>) -> Seq<char> {
    let max = DOCUMENT_SUMMARY_MAX_CHARS as nat;
    let n = text::trimmed(name);
    let named = with_limited_line(Seq::empty(), "文档标题: "@ + n, max);
    let titled = if title_of(name) != n {
        with_limited_line(named, "文档主题: "@ + title_of(name), max)
    } else {
        named
    };
    let headed = if lines.len() > 0 {
        with_limited_line(titled, "正文摘要:"@, max)
    } else {
        titled
    };
    text::trimmed(with_summary_lines(headed, lines))
}

/// What a document is searched as, given the lines of its summary.
pub fn build_document_search_text_from_summary_lines(
    document: &StoredDocument,
    lines: &Vec<String>,
) -> (r: String)
    ensures
        r@ == document_text(document.name@, text::strings(lines@)),
{
    let title = document_title(document.name.as_str());
    let name = trim(document.name.as_str());
    let mut s = String::new();
    assert(s@ =~= Seq::<char>::empty());
    let mut first = "文档标题: ".to_owned();
    first.append(name);
    push_limited_line(&mut s, first.as_str(), DOCUMENT_SUMMARY_MAX_CHARS);
    if !text_eq(title.as_str(), name) {
        let mut second = "文档主题: ".to_owned();
        second.append(title.as_str());
        push_limited_line(&mut s, second.as_str(), DOCUMENT_SUMMARY_MAX_CHARS);
    }
    if lines.len() > 0 {
        push_limited_line(&mut s, "正文摘要:", DOCUMENT_SUMMARY_MAX_CHARS);
    }
    let ghost headed = s@;
    let ghost all = text::strings(lines@);
    let mut i: usize = 0;
    assert(all.take(0) =~= Seq::<Seq<char>>::empty());
    while i < lines.len()
        invariant
            i <= lines@.len(),
            all == text::strings(lines@),
            s@ == with_summary_lines(headed, all.take(i as int)),
        decreases lines@.len() - i,
    {
        proof {
            assert(all.take(i + 1).drop_last() =~= all.take(i as int));
            assert(all.take(i + 1).last() == lines@[i as int]@);
        }
        let mut line = "摘要".to_owned();
        push_decimal(&mut line, i as u64);
        line.append(": ");
        line.append(lines[i].as_str());
        push_limited_line(&mut s, line.as_str(), DOCUMENT_SUMMARY_MAX_CHARS);
        i += 1;
    }
    assert(all.take(i as int) =~= all);
    trim(s.as_str()).to_owned()
}

/// What a document is searched as, by the lines that sum it up.
pub fn build_document_search_text(document: &StoredDocument, chunks: &Vec<Chunk>) -> (r: String)
    ensures
        r@ == document_text(document.name@, body_summary(case_model::chunk_views(chunks@))),
{
    let lines = build_document_body_summary(chunks);
    build_document_search_text_from_summary_lines(document, &lines)
}

/// What a document is searched as, and where its summary comes from: from a
/// summary that was written elsewhere where that has lines, else from its chunks.
pub fn choose_document_search_text(
    document: &StoredDocument,
    chunks: &Vec<Chunk>,
    written: Option<&str>,
) -> (r: (String, &'static str))
    ensures
        if written is Some && summary_lines(written->0@).len() > 0 {
            r.0@ == document_text(document.name@, summary_lines(written->0@)) && r.1@ == "llm"@
        } else {
            r.0@ == document_text(
                document.name@,
                body_summary(case_model::chunk_views(chunks@)),
            ) && r.1@ == "offline"@
        },
{
    match written {
        Some(s) => {
            let lines = document_summary_lines_from_text(s);
            if lines.len() > 0 {
                assert(text::strings(lines@).len() > 0);
                return (build_document_search_text_from_summary_lines(document, &lines), "llm");
            }
            assert(text::strings(lines@).len() == 0);
        },
        None => {},
    }
    (build_document_search_text(document, chunks), "offline")
}

/// The chunks of a document as they are handed out to be summed up.
pub open spec fn numbered_chunks(chunks: Seq<ChunkView>) -> Seq<char>
    decreases chunks.len(),
{
    if chunks.len() == 0 {
        Seq::empty()
    } else {
        let c = chunks.last();
        with_limited_line(
            numbered_chunks(chunks.drop_last()),
            "片段"@ + text::decimal_text(c.chunk_index as nat) + ":\n"@ + text::trimmed(c.content),
            LLM_DOCUMENT_SUMMARY_SOURCE_MAX_CHARS as nat,
        )
    }
}

/// The chunks of a document as they are handed out to be summed up.
pub fn build_llm_document_summary_source(chunks: &Vec<Chunk>) -> (r: String)
    ensures
        r@ == text::trimmed(numbered_chunks(case_model::chunk_views(chunks@))),
{
    let ghost all = case_model::chunk_views(chunks@);
    let mut s = String::new();
    let mut i: usize = 0;
    assert(s@ =~= Seq::<char>::empty());
    while i < chunks.len()
        invariant
            i <= chunks@.len(),
            all == case_model::chunk_views(chunks@),
            s@ == numbered_chunks(all.take(i as int)),
        decreases chunks@.len() - i,
    {
        proof {
            assert(all.take(i + 1).drop_last() =~= all.take(i as int));
            assert(all.take(i + 1).last() == chunks@[i as int]@);
        }
        let mut line = "片段".to_owned();
        push_decimal(&mut line, chunks[i].chunk_index as u64);
        line.append(":\n");
        line.append(trim(chunks[i].content.as_str()));
        push_limited_line(&mut s, line.as_str(), LLM_DOCUMENT_SUMMARY_SOURCE_MAX_CHARS);
        i += 1;
    }
    assert(all.take(i as int) =~= all);
    trim(s.as_str()).to_owned()
}

proof fn lemma_picks_are_few(ranked: Seq<LineRank>, lines: Seq<Seq<char>>)
    ensures
        picks(ranked, lines).0.len() <= DOCUMENT_SUMMARY_MAX_LINES,
    decreases ranked.len(),
{
    if ranked.len() > 0 {
        lemma_picks_are_few(ranked.drop_last(), lines);
    }
}

spec fn picks_below(picked: Seq<int>, n: int) -> Seq<int>
    decreases picked.len(),
{
    if picked.len() == 0 {
        Seq::empty()
    } else if picked.last() < n {
        picks_below(picked.drop_last(), n).push(picked.last())
    } else {
        picks_below(picked.drop_last(), n)
    }
}

proof fn lemma_picks_below(picked: Seq<int>, n: int)
    ensures
        picks_below(picked, n).len() <= picks_below(picked, n + 1).len(),
        picked.contains(n) ==> picks_below(picked, n).len() < picks_below(picked, n + 1).len(),
        picks_below(picked, n).len() <= picked.len(),
    decreases picked.len(),
{
    if picked.len() > 0 {
        let t = picked.drop_last();
        lemma_picks_below(t, n);
        if picked.contains(n) && picked.last() != n {
            let i = choose|i: int| 0 <= i < picked.len() && picked[i] == n;
            assert(t[i] == n);
        }
    }
}

proof fn lemma_picked_lines_count(lines: Seq<Seq<char>>, picked: Seq<int>, n: nat)
    ensures
        picked_lines(lines, picked, n).len() <= picks_below(picked, n as int).len(),
    decreases n,
{
    if n > 0 {
        lemma_picked_lines_count(lines, picked, (n - 1) as nat);
        lemma_picks_below(picked, n - 1);
    }
}

/// A summary has no more lines than a summary may have.
pub proof fn summaries_are_short(lines: Seq<Seq<char>>, scores: Seq<i32>, require_signal: bool)
    ensures
        selected_lines(lines, scores, require_signal).len() <= DOCUMENT_SUMMARY_MAX_LINES,
{
    let ranked = order::in_order(ranks_of(scores, require_signal));
    lemma_picks_are_few(ranked, lines);
    let picked = picks(ranked, lines).0;
    lemma_picked_lines_count(lines, picked, lines.len());
    lemma_picks_below(picked, lines.len() as int);
}

proof fn lemma_picked_lines_are_lines(lines: Seq<Seq<char>>, picked: Seq<int>, n: nat, i: int)
    requires
        n <= lines.len(),
        0 <= i < picked_lines(lines, picked, n).len(),
    ensures
        lines.contains(picked_lines(lines, picked, n)[i]),
    decreases n,
{
    let earlier = picked_lines(lines, picked, (n - 1) as nat);
    if i < earlier.len() {
        lemma_picked_lines_are_lines(lines, picked, (n - 1) as nat, i);
    } else {
        assert(lines.contains(lines[n - 1]));
    }
}

/// Every line of a summary is a line of what it sums up.
pub proof fn summaries_add_nothing(
    lines: Seq<Seq<char>>,
    scores: Seq<i32>,
    require_signal: bool,
    i: int,
)
    requires
        0 <= i < selected_lines(lines, scores, require_signal).len(),
    ensures
        lines.contains(selected_lines(lines, scores, require_signal)[i]),
{
    let picked = picks(order::in_order(ranks_of(scores, require_signal)), lines).0;
    lemma_picked_lines_are_lines(lines, picked, lines.len(), i);
}

proof fn lemma_limited_len(s: Seq<char>, line: Seq<char>, max: nat)
    requires
        s.len() <= max,
    ensures
        with_limited_line(s, line, max).len() <= max,
{
}

proof fn lemma_summary_lines_len(s: Seq<char>, lines: Seq<Seq<char>>)
    requires
        s.len() <= DOCUMENT_SUMMARY_MAX_CHARS,
    ensures
        with_summary_lines(s, lines).len() <= DOCUMENT_SUMMARY_MAX_CHARS,
    decreases lines.len(),
{
    if lines.len() > 0 {
        lemma_summary_lines_len(s, lines.drop_last());
    }
}

/// What a document is searched as never grows beyond its limit.
pub proof fn document_texts_are_bounded(name: Seq<char>, lines: Seq<Seq<char>>)
    ensures
        document_text(name, lines).len() <= DOCUMENT_SUMMARY_MAX_CHARS,
{
    let max = DOCUMENT_SUMMARY_MAX_CHARS as nat;
    let n = text::trimmed(name);
    let named = with_limited_line(Seq::empty(), "文档标题: "@ + n, max);
    lemma_limited_len(Seq::empty(), "文档标题: "@ + n, max);
    let titled = if title_of(name) != n {
        with_limited_line(named, "文档主题: "@ + title_of(name), max)
    } else {
        named
    };
    lemma_limited_len(named, "文档主题: "@ + title_of(name), max);
    let headed = if lines.len() > 0 {
        with_limited_line(titled, "正文摘要:"@, max)
    } else {
        titled
    };
    lemma_limited_len(titled, "正文摘要:"@, max);
    lemma_summary_lines_len(headed, lines);
    let whole = with_summary_lines(headed, lines);
    let lo = text::lemma_trim_start_bounds(whole);
    let hi = text::lemma_trim_end_bounds(text::trim_start(whole));
}

} // verus!
