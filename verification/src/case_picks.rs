//! What summaries and profiles pick out of a document.

use vstd::prelude::*;

use crate::case_model::ChunkView;
use crate::case_profile;
use crate::case_profile::KeywordRank;
use crate::case_summary;
use crate::case_summary::{
    is_picked, picked_lines, picks, ranks_of, LineRank, LineSignals,
    DOCUMENT_SUMMARY_BODY_MAX_CHARS, DOCUMENT_SUMMARY_CANDIDATE_MAX_CHARS,
    DOCUMENT_SUMMARY_MAX_LINES, SEARCH_PROFILE_MAX_CONTEXT_LINES,
};
use crate::case_terms;
use crate::order;
use crate::order::Ordered;
use crate::text;

verus! {

/// Lines are ranked by their scores, the highest first, and lines of one score in
/// the order of the text.
pub proof fn lines_go_by_their_scores(s: Seq<LineRank>, i: int, j: int)
    requires
        0 <= i < j < order::in_order(s).len(),
    ensures
        order::in_order(s)[i].score >= order::in_order(s)[j].score,
        order::in_order(s)[i].score == order::in_order(s)[j].score ==> order::in_order(s)[i].order
            <= order::in_order(s)[j].order,
{
    order::sorting_orders_and_keeps_all(s);
    assert(!order::in_order(s)[j].precedes(&order::in_order(s)[i]));
}

/// Every line has a rank with its score and its place, but for those without a
/// signal where one is demanded.
pub proof fn lines_are_ranked(scores: Seq<i32>, require_signal: bool, i: int, r: LineRank)
    requires
        scores.len() <= usize::MAX,
    ensures
        ranks_of(scores, require_signal).contains(r) <==> r.order < scores.len() && r.score
            == scores[r.order as int] && (require_signal ==> r.score > 0),
    decreases scores.len(),
{
    let after = ranks_of(scores, require_signal);
    if scores.len() > 0 {
        let t = scores.drop_last();
        let before = ranks_of(t, require_signal);
        lines_are_ranked(t, require_signal, i, r);
        if before.contains(r) {
            let k = choose|k: int| 0 <= k < before.len() && before[k] == r;
            assert(after[k] == r);
        }
        if after.contains(r) {
            let k = choose|k: int| 0 <= k < after.len() && after[k] == r;
            if k < before.len() {
                assert(before[k] == r);
            }
        }
        if r.order == t.len() && r.score == scores.last() && (require_signal ==> r.score > 0) {
            assert(after[before.len() as int] == r);
        }
    }
}

/// How long some lines are together.
pub open spec fn length_of(picked: Seq<int>, lines: Seq<Seq<char>>) -> nat
    decreases picked.len(),
{
    if picked.len() == 0 {
        0
    } else {
        length_of(picked.drop_last(), lines) + lines[picked.last()].len()
    }
}

/// A line of those that are ranked is picked, or its text is picked already, or
/// there is no room left for it, by number or by length: no line is left out for
/// another reason. The first is always picked, none is picked twice, and together
/// they are not too long unless there is only one.
pub proof fn picks_leave_no_room(ranked: Seq<LineRank>, lines: Seq<Seq<char>>, i: int)
    requires
        0 <= i < ranked.len(),
    ensures
        ({
            let (picked, total) = picks(ranked, lines);
            let line = lines[ranked[i].order as int];
            &&& total == length_of(picked, lines)
            &&& picked.len() <= DOCUMENT_SUMMARY_MAX_LINES
            &&& picked.len() > 0 && picked[0] == ranked[0].order
            &&& total <= DOCUMENT_SUMMARY_BODY_MAX_CHARS || is_long_alone(picked, lines)
            &&& is_picked(picked, lines, line) || picked.len() == DOCUMENT_SUMMARY_MAX_LINES
                || total + line.len() > DOCUMENT_SUMMARY_BODY_MAX_CHARS
            &&& forall|a: int, b: int|
                #![trigger picked[a], picked[b]]
                0 <= a < b < picked.len() ==> lines[picked[a]] != lines[picked[b]]
        }),
    decreases ranked.len(),
{
    let (picked, total) = picks(ranked, lines);
    let t = ranked.drop_last();
    let (before, sum) = picks(t, lines);
    let k = ranked.last().order as int;
    if t.len() > 0 {
        picks_leave_no_room(
            t,
            lines,
            if i < t.len() {
                i
            } else {
                0
            },
        );
        assert(t[0] == ranked[0]);
    }
    if i < t.len() {
        assert(t[i] == ranked[i]);
    }
    assert(sum == length_of(before, lines));
    if picked.len() > before.len() {
        assert(picked.drop_last() =~= before);
        assert(picked[before.len() as int] == k);
        assert forall|a: int, b: int|
            #![trigger picked[a], picked[b]]
            0 <= a < b < picked.len() implies lines[picked[a]] != lines[picked[b]] by {
            assert(picked[a] == before[a]);
            if b < before.len() {
                assert(picked[b] == before[b]);
            } else {
                assert(lines[before[a]] != lines[k]);
            }
        }
        if i < t.len() && is_picked(before, lines, lines[ranked[i].order as int]) {
            let q = choose|q: int|
                0 <= q < before.len() && lines[#[trigger] before[q]]
                    == lines[ranked[i].order as int];
            assert(lines[picked[q]] == lines[ranked[i].order as int]);
        }
        if i == t.len() {
            assert(lines[picked[before.len() as int]] == lines[k]);
        }
        if t.len() > 0 {
            assert(picked[0] == before[0]);
        }
        assert(length_of(picked, lines) == sum + lines[k].len());
        if sum == 0 {
            assert(length_of(picked, lines) == lines[picked[before.len() as int]].len());
            assert(is_long_alone(picked, lines));
        }
    }
}

/// Whether one line is all that is picked, and it has no blank text.
pub open spec fn is_long_alone(picked: Seq<int>, lines: Seq<Seq<char>>) -> bool {
    exists|k: int|
        0 <= k < picked.len() && length_of(picked, lines) == lines[#[trigger] picked[k]].len()
}

/// The lines that are picked come in the order of the text, each of them.
pub proof fn picked_lines_keep_their_order(lines: Seq<Seq<char>>, picked: Seq<int>, n: nat)
    ensures
        picked_lines(lines, picked, n) == Seq::new(n, |i: int| i).filter(
            |i: int| picked.contains(i),
        ).map_values(|i: int| lines[i]),
    decreases n,
{
    reveal(Seq::filter);
    let all = Seq::new(n, |i: int| i);
    let at = |i: int| lines[i];
    if n > 0 {
        let m = (n - 1) as nat;
        picked_lines_keep_their_order(lines, picked, m);
        assert(all.drop_last() =~= Seq::new(m, |i: int| i));
        let kept = Seq::new(m, |i: int| i).filter(|i: int| picked.contains(i));
        assert(kept.push(n - 1).map_values(at) =~= kept.map_values(at).push(lines[n - 1]));
    } else {
        assert(all.filter(|i: int| picked.contains(i)).map_values(at) =~= Seq::empty());
    }
}

/// The best lines of a text are the first of its ranked lines, four at most, in
/// the order of the text.
pub proof fn best_lines_are_the_first_ranks(content: Seq<char>)
    ensures
        ({
            let lines = case_summary::lines_offered(content);
            let ranked = order::in_order(ranks_of(case_summary::line_scores(lines, 0), false));
            let n = if ranked.len() < SEARCH_PROFILE_MAX_CONTEXT_LINES {
                ranked.len()
            } else {
                SEARCH_PROFILE_MAX_CONTEXT_LINES as nat
            };
            case_summary::best_lines(content) == picked_lines(
                lines,
                ranked.take(n as int).map_values(|r: LineRank| r.order as int),
                lines.len(),
            )
        }),
{
    let lines = case_summary::lines_offered(content);
    let ranked = order::in_order(ranks_of(case_summary::line_scores(lines, 0), false));
    let n = if ranked.len() < SEARCH_PROFILE_MAX_CONTEXT_LINES {
        ranked.len()
    } else {
        SEARCH_PROFILE_MAX_CONTEXT_LINES as nat
    };
    assert(Seq::new(n, |i: int| ranked[i].order as int) =~= ranked.take(n as int).map_values(
        |r: LineRank| r.order as int,
    ));
}

/// Each signal of a line counts by itself: a heading by eight, an identifier by
/// three, a digit by two, a version number by three and the first chunk by one,
/// and every term by one, up to eight.
pub proof fn signals_count_by_themselves(g: LineSignals)
    ensures
        case_summary::signal_score(LineSignals { identifier: true, ..g })
            == case_summary::signal_score(LineSignals { identifier: false, ..g }) + 3,
        case_summary::signal_score(LineSignals { digit: true, ..g }) == case_summary::signal_score(
            LineSignals { digit: false, ..g },
        ) + 2,
        case_summary::signal_score(LineSignals { version: true, ..g })
            == case_summary::signal_score(LineSignals { version: false, ..g }) + 3,
        case_summary::signal_score(LineSignals { first_chunk: true, ..g })
            == case_summary::signal_score(LineSignals { first_chunk: false, ..g }) + 1,
        g.chars >= 6 ==> case_summary::signal_score(LineSignals { heading: true, ..g })
            == case_summary::signal_score(LineSignals { heading: false, ..g }) + 8,
        g.chars < 6 ==> case_summary::signal_score(LineSignals { heading: true, ..g })
            == case_summary::signal_score(LineSignals { heading: false, ..g }) + 10,
        g.terms < 8 ==> case_summary::signal_score(
            LineSignals { terms: (g.terms + 1) as usize, ..g },
        ) == case_summary::signal_score(g) + 1,
        g.terms >= 8 ==> case_summary::signal_score(LineSignals { terms: 8, ..g })
            == case_summary::signal_score(g),
        case_summary::signal_score(
            LineSignals {
                heading: false,
                terms: 0,
                identifier: false,
                digit: false,
                version: false,
                chars: g.chars,
                first_chunk: false,
            },
        ) == (if g.chars < 6 {
            1int
        } else if g.chars < 20 {
            3
        } else if g.chars <= 120 {
            4
        } else if g.chars <= 180 {
            0
        } else {
            -4
        }),
{
}

/// The signals of a line are read off the line itself.
pub proof fn signals_are_those_of_the_line(s: Seq<char>, chunk_index: nat)
    requires
        s.len() <= usize::MAX,
        crate::case_overlap::terms_of(s).len() <= usize::MAX,
    ensures
        ({
            let g = case_summary::line_signals(s, chunk_index);
            &&& g.chars == s.len()
            &&& g.terms == crate::case_overlap::terms_of(s).len()
            &&& g.digit <==> exists|i: int| 0 <= i < s.len() && '0' <= #[trigger] s[i] <= '9'
            &&& g.version <==> case_terms::versions_of(s).len() > 0
            &&& g.first_chunk <==> chunk_index == 0
            &&& g.heading ==> s.len() <= 40 && !s.contains('。') && !s.contains('.') && !s.contains(
                '?',
            ) && !s.contains('!') && !s.contains(';')
            &&& g.identifier <==> exists|i: int|
                0 <= i < crate::case_overlap::terms_of(s).len() && case_terms::is_identifier(
                    #[trigger] crate::case_overlap::terms_of(s)[i],
                )
        }),
{
    let g = case_summary::line_signals(s, chunk_index);
    if g.digit {
        let i = choose|i: int| 0 <= i < s.len() && text::ascii_digit(#[trigger] s[i]);
        assert('0' <= s[i] <= '9');
    }
    if exists|i: int| 0 <= i < s.len() && '0' <= #[trigger] s[i] <= '9' {
        let i = choose|i: int| 0 <= i < s.len() && '0' <= #[trigger] s[i] <= '9';
        assert(text::ascii_digit(s[i]));
    }
    if g.heading {
        assert forall|c: char| #[trigger] s.contains(c) implies !(
        case_summary::ends_summary_sentence(c) || c == '.') by {
            let i = choose|i: int| 0 <= i < s.len() && s[i] == c;
            assert(s[i] == c);
        }
    }
}

/// What is cut is a start of the text with three dots behind it; what is short
/// enough stays.
pub proof fn cuts_keep_the_start(s: Seq<char>, max: nat)
    ensures
        s.len() <= max ==> case_summary::truncated(s, max) == s,
        s.len() > max ==> case_summary::truncated(s, max).len() == max + 3
            && case_summary::truncated(s, max).take(max as int) == s.take(max as int)
            && case_summary::truncated(s, max).skip(max as int) == "..."@,
{
    reveal_strlit("...");
    if s.len() > max {
        let r = case_summary::truncated(s, max);
        assert(r.take(max as int) =~= s.take(max as int));
        assert(r.skip(max as int) =~= "..."@);
    }
}

/// A line is a candidate if and only if its words, with single spaces between
/// them, have two characters or more; a long one is cut.
pub proof fn candidates_have_two_characters(s: Seq<char>)
    ensures
        ({
            let t = text::trimmed(text::joined(text::words_of(s), " "@));
            let line = case_summary::candidate_line(s);
            &&& line is Some <==> t.len() >= 2
            &&& 2 <= t.len() <= DOCUMENT_SUMMARY_CANDIDATE_MAX_CHARS ==> line == Some(t)
            &&& t.len() > DOCUMENT_SUMMARY_CANDIDATE_MAX_CHARS ==> line is Some && line->0.len()
                == DOCUMENT_SUMMARY_CANDIDATE_MAX_CHARS + 3 && line->0.take(
                DOCUMENT_SUMMARY_CANDIDATE_MAX_CHARS as int,
            ) == t.take(DOCUMENT_SUMMARY_CANDIDATE_MAX_CHARS as int)
        }),
{
    let t = text::trimmed(text::joined(text::words_of(s), " "@));
    cuts_keep_the_start(t, DOCUMENT_SUMMARY_CANDIDATE_MAX_CHARS as nat);
}

/// Lines are offered one after the other: a short line as it is, trimmed, a long
/// one sentence by sentence, and a blank one not at all.
pub proof fn lines_are_offered_in_turn(a: Seq<Seq<char>>, line: Seq<char>, b: Seq<Seq<char>>)
    ensures
        ({
            let t = text::trimmed(line);
            let own = case_summary::offered_lines(seq![line]);
            &&& case_summary::offered_lines(a + b) == case_summary::offered_lines(a)
                + case_summary::offered_lines(b)
            &&& t.len() == 0 ==> own.len() == 0
            &&& 0 < t.len() <= DOCUMENT_SUMMARY_CANDIDATE_MAX_CHARS ==> own == seq![t]
            &&& t.len() > DOCUMENT_SUMMARY_CANDIDATE_MAX_CHARS ==> own
                == case_summary::summary_sentences(t)
        }),
{
    lemma_offered_behind(a, b);
    let none = Seq::<Seq<char>>::empty();
    assert(seq![line].drop_last() =~= none);
    assert(seq![line].last() == line);
    assert(case_summary::offered_lines(none) == none);
    let t = text::trimmed(line);
    assert(none.push(t) =~= seq![t]);
    assert(none + case_summary::summary_sentences(t) =~= case_summary::summary_sentences(t));
}

proof fn lemma_offered_behind(a: Seq<Seq<char>>, b: Seq<Seq<char>>)
    ensures
        case_summary::offered_lines(a + b) == case_summary::offered_lines(a)
            + case_summary::offered_lines(b),
    decreases b.len(),
{
    let front = case_summary::offered_lines(a);
    if b.len() == 0 {
        assert(a + b =~= a);
        assert(front + Seq::<Seq<char>>::empty() =~= front);
    } else {
        lemma_offered_behind(a, b.drop_last());
        assert((a + b).drop_last() =~= a + b.drop_last());
        assert((a + b).last() == b.last());
        let own = case_summary::offered_lines(b.drop_last());
        let t = text::trimmed(b.last());
        assert((front + own).push(t) =~= front + own.push(t));
        assert((front + own) + case_summary::summary_sentences(t) =~= front + (own
            + case_summary::summary_sentences(t)));
    }
}

/// The lines of chunks and their scores come chunk by chunk, and every line has
/// the score that it has in its chunk.
pub proof fn body_lines_have_their_scores(chunks: Seq<ChunkView>, c: ChunkView, i: int)
    requires
        0 <= i < case_summary::lines_offered(c.content).len(),
    ensures
        ({
            let all = chunks.push(c);
            let n = case_summary::body_lines(chunks).len();
            let lines = case_summary::lines_offered(c.content);
            &&& case_summary::body_lines(chunks).len() == case_summary::body_scores(chunks).len()
            &&& case_summary::body_lines(all).len() == n + lines.len()
            &&& case_summary::body_lines(all).take(n as int) == case_summary::body_lines(chunks)
            &&& case_summary::body_scores(all).take(n as int) == case_summary::body_scores(chunks)
            &&& case_summary::body_lines(all)[n + i] == lines[i]
            &&& case_summary::body_scores(all)[n + i] == case_summary::signal_score(
                case_summary::line_signals(lines[i], c.chunk_index as nat),
            ) as i32
        }),
{
    let all = chunks.push(c);
    lemma_scores_match(chunks);
    assert(all.drop_last() =~= chunks);
    let n = case_summary::body_lines(chunks).len();
    assert(case_summary::body_lines(all).take(n as int) =~= case_summary::body_lines(chunks));
    assert(case_summary::body_scores(all).take(n as int) =~= case_summary::body_scores(chunks));
}

proof fn lemma_scores_match(chunks: Seq<ChunkView>)
    ensures
        case_summary::body_lines(chunks).len() == case_summary::body_scores(chunks).len(),
    decreases chunks.len(),
{
    if chunks.len() > 0 {
        lemma_scores_match(chunks.drop_last());
    }
}

/// What is put behind a text is a start of the addition, as long as the limit
/// allows and no longer.
pub proof fn additions_are_cut_at_the_limit(s: Seq<char>, more: Seq<char>, max: nat)
    requires
        s.len() <= max,
    ensures
        ({
            let r = case_summary::limited(s, more, max);
            &&& r.len() <= max
            &&& s == r.take(s.len() as int)
            &&& r.skip(s.len() as int) == more.take(r.len() - s.len())
            &&& r.len() == max || r.len() == s.len() + more.len()
        }),
{
    let r = case_summary::limited(s, more, max);
    assert(r.take(s.len() as int) =~= s);
    assert(r.skip(s.len() as int) =~= more.take(r.len() - s.len()));
}

/// Keywords are ranked by what they count, then by how often they occur, then by
/// where they occur first.
pub proof fn keywords_go_by_what_they_count(s: Seq<KeywordRank>, i: int, j: int)
    requires
        0 <= i < j < order::in_order(s).len(),
    ensures
        ({
            let (a, b) = (order::in_order(s)[i], order::in_order(s)[j]);
            &&& a.score >= b.score
            &&& a.score == b.score ==> a.count >= b.count
            &&& a.score == b.score && a.count == b.count ==> a.first <= b.first
        }),
{
    order::sorting_orders_and_keeps_all(s);
    assert(!order::in_order(s)[j].precedes(&order::in_order(s)[i]));
}

/// Whether a rank is that of a term where it occurs first.
pub open spec fn is_rank_in(r: KeywordRank, tokens: Seq<Seq<char>>, n: nat, first: int) -> bool {
    &&& 0 <= first < n
    &&& r == case_profile::rank_at(tokens, first)
    &&& tokens[first].len() >= 2 && !case_terms::is_stop_term(tokens[first])
    &&& forall|k: int| 0 <= k < first ==> #[trigger] tokens[k] != tokens[first]
}

/// A term is ranked once, where it occurs first, if it has two characters or more
/// and is no stop term; no other rank is given.
pub proof fn terms_are_ranked_once(tokens: Seq<Seq<char>>, n: nat, r: KeywordRank)
    requires
        n <= tokens.len(),
    ensures
        case_profile::keyword_ranks(tokens, n).contains(r) <==> exists|first: int|
            #[trigger] is_rank_in(r, tokens, n, first),
    decreases n,
{
    let after = case_profile::keyword_ranks(tokens, n);
    if n > 0 {
        let m = (n - 1) as nat;
        let before = case_profile::keyword_ranks(tokens, m);
        terms_are_ranked_once(tokens, m, r);
        let t = tokens.take(n - 1);
        assert(!t.contains(tokens[n - 1]) <==> forall|k: int|
            0 <= k < n - 1 ==> #[trigger] tokens[k] != tokens[n - 1]) by {
            if t.contains(tokens[n - 1]) {
                let k = choose|k: int| 0 <= k < t.len() && t[k] == tokens[n - 1];
                assert(tokens[k] == tokens[n - 1]);
            } else {
                assert forall|k: int| 0 <= k < n - 1 implies #[trigger] tokens[k]
                    != tokens[n - 1] by {
                    assert(t[k] == tokens[k]);
                    assert(t.contains(t[k]));
                }
            }
        }
        if before.contains(r) {
            let k = choose|k: int| 0 <= k < before.len() && before[k] == r;
            assert(after[k] == r);
            let first = choose|first: int| #[trigger] is_rank_in(r, tokens, m, first);
            assert(is_rank_in(r, tokens, n, first));
        }
        if after.contains(r) {
            let k = choose|k: int| 0 <= k < after.len() && after[k] == r;
            if k < before.len() {
                assert(before[k] == r);
            } else {
                assert(is_rank_in(r, tokens, n, n - 1));
            }
        }
        if exists|first: int| #[trigger] is_rank_in(r, tokens, n, first) {
            let first = choose|first: int| #[trigger] is_rank_in(r, tokens, n, first);
            if first < m {
                assert(is_rank_in(r, tokens, m, first));
            } else {
                assert(after[before.len() as int] == r);
            }
        }
    }
}

/// How much a term counts grows with every occurrence and by what the term is: an
/// identifier by six quarters, a digit by four, three characters by two and six
/// by one more, and any term by four.
pub proof fn terms_count_for_what_they_are(t: Seq<char>)
    ensures
        ({
            let q = case_profile::keyword_quarters(t);
            let length = if t.len() >= 6 {
                3int
            } else if t.len() >= 3 {
                2
            } else {
                0
            };
            &&& case_terms::is_identifier(t) && case_terms::has_digit(t) ==> q == 14 + length
            &&& case_terms::is_identifier(t) && !case_terms::has_digit(t) ==> q == 10 + length
            &&& !case_terms::is_identifier(t) && case_terms::has_digit(t) ==> q == 8 + length
            &&& !case_terms::is_identifier(t) && !case_terms::has_digit(t) ==> q == 4 + length
        }),
{
}

/// How often a term occurs is the number of tokens that it equals.
pub proof fn occurrences_are_counted(tokens: Seq<Seq<char>>, t: Seq<char>)
    ensures
        case_profile::occurrences(tokens, t) == tokens.filter(|x: Seq<char>| x == t).len(),
    decreases tokens.len(),
{
    reveal(Seq::filter);
    if tokens.len() > 0 {
        occurrences_are_counted(tokens.drop_last(), t);
    }
}

/// A document without lines offers its whole text, trimmed, unless it is blank; any
/// other offers what its lines offer.
pub proof fn texts_are_offered_by_lines(content: Seq<char>)
    ensures
        ({
            let offered = case_summary::offered_lines(text::lines_of(content));
            &&& offered.len() > 0 ==> case_summary::offered_texts(content) == offered
            &&& offered.len() == 0 && text::is_blank(content) ==> case_summary::offered_texts(
                content,
            ).len() == 0
            &&& offered.len() == 0 && !text::is_blank(content) ==> case_summary::offered_texts(
                content,
            ) == seq![text::trimmed(content)]
        }),
{
    let offered = case_summary::offered_lines(text::lines_of(content));
    if offered.len() == 0 {
        assert(offered.push(text::trimmed(content)) =~= seq![text::trimmed(content)]);
    }
}

/// A body is summed up by its lines with a signal, or by any of its lines where none
/// of these is picked.
pub proof fn lines_with_a_signal_are_preferred(chunks: Seq<ChunkView>)
    ensures
        ({
            let lines = case_summary::body_lines(chunks);
            let scores = case_summary::body_scores(chunks);
            let telling = case_summary::selected_lines(lines, scores, true);
            &&& telling.len() > 0 ==> case_summary::body_summary(chunks) == telling
            &&& telling.len() == 0 ==> case_summary::body_summary(chunks)
                == case_summary::selected_lines(lines, scores, false)
        }),
{
}

/// The lines of a summary are numbered from zero on, each below the one before.
pub proof fn summary_lines_are_numbered(s: Seq<char>, lines: Seq<Seq<char>>, line: Seq<char>)
    ensures
        case_summary::with_summary_lines(s, lines.push(line)) == case_summary::with_limited_line(
            case_summary::with_summary_lines(s, lines),
            "摘要"@ + text::decimal_text(lines.len()) + ": "@ + line,
            6000,
        ),
        case_summary::with_summary_lines(s, Seq::empty()) == s,
{
    assert(lines.push(line).drop_last() =~= lines);
    assert((lines.push(line).len() - 1) as nat == lines.len());
}

/// Candidate lines are taken text by text, in their order.
pub proof fn candidates_are_taken_text_by_text(texts: Seq<Seq<char>>, t: Seq<char>)
    ensures
        case_summary::candidate_lines(texts.push(t)) == (match case_summary::candidate_line(t) {
            Some(line) => case_summary::candidate_lines(texts).push(line),
            None => case_summary::candidate_lines(texts),
        }),
        case_summary::candidate_lines(Seq::empty()).len() == 0,
{
    assert(texts.push(t).drop_last() =~= texts);
}

/// The chunks that a model sums up are shown in their order, each under its number
/// and without the space around it.
pub proof fn chunks_are_shown_to_be_summed_up(chunks: Seq<ChunkView>, c: ChunkView)
    ensures
        case_summary::numbered_chunks(chunks.push(c)) == case_summary::with_limited_line(
            case_summary::numbered_chunks(chunks),
            "片段"@ + text::decimal_text(c.chunk_index as nat) + ":\n"@ + text::trimmed(c.content),
            12000,
        ),
{
    assert(chunks.push(c).drop_last() =~= chunks);
}

} // verus!
