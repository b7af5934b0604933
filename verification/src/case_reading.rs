//! What is read out of texts: tokens, version numbers, terms, sentences and
//! questions.

use vstd::prelude::*;

use crate::case_overlap;
use crate::case_profile;
use crate::case_summary;
use crate::case_terms;
use crate::case_terms::LexState;
use crate::scan;
use crate::text;
use crate::text_parts;

verus! {

/// Whether a character stands in no token.
pub open spec fn parts_tokens(c: char) -> bool {
    !text::ascii_letter(c) && !text::ascii_digit(c) && c != '_' && c != '-'
        && !text::char_alphanumeric(c)
}

/// Whether a character is a token by itself.
pub open spec fn is_sign(c: char) -> bool {
    text::char_alphanumeric(c) && !text::ascii_letter(c) && !text::ascii_digit(c) && c != '_' && c
        != '-'
}

proof fn lemma_lexed_behind(a: Seq<char>, b: Seq<char>)
    requires
        case_terms::lex_state(a).segment.len() == 0,
        case_terms::lex_state(a).run.len() == 0,
    ensures
        ({
            let all = case_terms::lex_state(a + b);
            let own = case_terms::lex_state(b);
            &&& all.tokens == case_terms::lex_state(a).tokens + own.tokens
            &&& all.segment == own.segment
            &&& all.run == own.run
        }),
    decreases b.len(),
{
    let front = case_terms::lex_state(a).tokens;
    if b.len() == 0 {
        assert(a + b =~= a);
        let own = case_terms::lex_state(b);
        assert(front + own.tokens =~= front);
        assert(case_terms::lex_state(a).segment =~= own.segment);
        assert(case_terms::lex_state(a).run =~= own.run);
    } else {
        lemma_lexed_behind(a, b.drop_last());
        assert((a + b).drop_last() =~= a + b.drop_last());
        assert((a + b).last() == b.last());
        let own = case_terms::lex_state(b.drop_last());
        lemma_ended_behind(front, own);
        lemma_ended_behind(front, case_terms::run_ended(own));
    }
}

proof fn lemma_ended_behind(front: Seq<Seq<char>>, own: LexState)
    ensures
        ({
            let all = LexState { tokens: front + own.tokens, ..own };
            &&& case_terms::run_ended(all) == (LexState {
                tokens: front + case_terms::run_ended(own).tokens,
                ..case_terms::run_ended(own)
            })
            &&& case_terms::segment_ended(all) == (LexState {
                tokens: front + case_terms::segment_ended(own).tokens,
                ..case_terms::segment_ended(own)
            })
        }),
{
    let s = own.segment;
    assert(front + own.tokens + s + case_terms::pairs(s) + case_terms::triples(s) =~= front + (
    own.tokens + s + case_terms::pairs(s) + case_terms::triples(s)));
}

/// What stands in no token parts tokens: the tokens of two texts with it between
/// them are those of the one and then those of the other.
pub proof fn separators_part_tokens(a: Seq<char>, c: char, b: Seq<char>)
    requires
        parts_tokens(c),
    ensures
        case_terms::tokens_of(a.push(c) + b) == case_terms::tokens_of(a) + case_terms::tokens_of(
            b,
        ),
{
    let front = a.push(c);
    assert(front.drop_last() =~= a);
    let st = case_terms::lex_state(front);
    assert(st.tokens == case_terms::tokens_of(a));
    lemma_run_is_over(case_terms::lex_state(a));
    lemma_lexed_behind(front, b);
    let own = case_terms::lex_state(b);
    lemma_ended_behind(st.tokens, own);
    lemma_ended_behind(st.tokens, case_terms::run_ended(own));
}

proof fn lemma_run_is_over(st: LexState)
    ensures
        case_terms::run_ended(st).run.len() == 0,
        case_terms::segment_ended(case_terms::run_ended(st)).run.len() == 0,
        case_terms::segment_ended(case_terms::run_ended(st)).segment.len() == 0,
{
}

/// A text in lower case, as far as it is ASCII.
pub open spec fn lowered(s: Seq<char>) -> Seq<char> {
    Seq::new(s.len(), |i: int| text::ascii_lowered(s[i]))
}

proof fn lemma_lexed_run(s: Seq<char>)
    requires
        forall|i: int| 0 <= i < s.len() ==> case_terms::in_run(#[trigger] s[i]),
    ensures
        case_terms::lex_state(s) == (LexState {
            tokens: Seq::empty(),
            segment: Seq::empty(),
            run: lowered(s),
        }),
    decreases s.len(),
{
    if s.len() > 0 {
        let t = s.drop_last();
        assert forall|i: int| 0 <= i < t.len() implies case_terms::in_run(#[trigger] t[i]) by {
            assert(t[i] == s[i]);
        }
        lemma_lexed_run(t);
        assert(case_terms::in_run(s[s.len() - 1]));
        assert(lowered(t).push(text::ascii_lowered(s.last())) =~= lowered(s));
    } else {
        assert(lowered(s) =~= Seq::empty());
    }
}

proof fn lemma_one_token(run: Seq<char>, token: Seq<char>)
    ensures
        run.len() > 0 ==> case_terms::segment_ended(
            LexState { tokens: Seq::empty(), segment: seq![token], run: Seq::empty() },
        ).tokens == seq![token],
{
    assert(Seq::<Seq<char>>::empty() + seq![token] + case_terms::pairs(seq![token])
        + case_terms::triples(seq![token]) =~= seq![token]);
}

/// A word of ASCII letters, digits and underscores is one token, in lower case.
pub proof fn ascii_words_are_tokens(s: Seq<char>)
    requires
        s.len() > 0,
        forall|i: int| 0 <= i < s.len() ==> case_terms::in_identifier(#[trigger] s[i]),
    ensures
        case_terms::tokens_of(s) == seq![lowered(s)],
{
    lemma_lexed_run(s);
    let run = lowered(s);
    assert forall|i: int| 0 <= i < run.len() implies !seq!['-'].contains(#[trigger] run[i]) by {
        let c = s[i];
        assert(case_terms::in_identifier(c));
        assert(seq!['-'].contains(run[i]) ==> run[i] == '-');
    }
    text_parts::texts_without_marks_are_pieces(run, seq!['-']);
    assert(Seq::<Seq<char>>::empty().push(run) =~= seq![run]);
    lemma_one_token(run, run);
}

/// Two words of ASCII letters and digits with a hyphen between them are one
/// token without the hyphen.
pub proof fn hyphens_tie_words(a: Seq<char>, b: Seq<char>)
    requires
        a.len() > 0,
        b.len() > 0,
        forall|i: int| 0 <= i < a.len() ==> case_terms::in_identifier(#[trigger] a[i]),
        forall|i: int| 0 <= i < b.len() ==> case_terms::in_identifier(#[trigger] b[i]),
    ensures
        case_terms::tokens_of(a.push('-') + b) == seq![lowered(a) + lowered(b)],
{
    let s = a.push('-') + b;
    assert forall|i: int| 0 <= i < s.len() implies case_terms::in_run(#[trigger] s[i]) by {
        if i < a.len() {
            assert(s[i] == a[i]);
        } else if i > a.len() {
            assert(s[i] == b[i - a.len() - 1]);
        }
    }
    lemma_lexed_run(s);
    let (la, lb) = (lowered(a), lowered(b));
    assert(lowered(s) =~= la.push('-') + lb);
    assert forall|i: int| 0 <= i < la.len() implies !seq!['-'].contains(#[trigger] la[i]) by {
        assert(case_terms::in_identifier(a[i]));
        assert(seq!['-'].contains(la[i]) ==> la[i] == '-');
    }
    assert forall|i: int| 0 <= i < lb.len() implies !seq!['-'].contains(#[trigger] lb[i]) by {
        assert(case_terms::in_identifier(b[i]));
        assert(seq!['-'].contains(lb[i]) ==> lb[i] == '-');
    }
    assert(seq!['-'].contains('-')) by {
        assert(seq!['-'][0] == '-');
    }
    text_parts::texts_without_marks_are_pieces(la, seq!['-']);
    text_parts::texts_without_marks_are_pieces(lb, seq!['-']);
    text_parts::marks_part_pieces(la, '-', lb, seq!['-']);
    let parts = seq![la] + seq![lb];
    assert(scan::pieces_of(lowered(s), seq!['-']) == parts);
    reveal_strlit("");
    text_parts::joining_goes_part_by_part(seq![la], seq![lb], ""@);
    text_parts::joining_goes_part_by_part(seq![lb], seq![la], ""@);
    assert(text::joined(parts, ""@) =~= la + lb);
    assert(Seq::<Seq<char>>::empty().push(la + lb) =~= seq![la + lb]);
    lemma_one_token(lowered(s), la + lb);
}

proof fn lemma_lexed_signs(s: Seq<char>)
    requires
        forall|i: int| 0 <= i < s.len() ==> is_sign(#[trigger] s[i]),
    ensures
        case_terms::lex_state(s) == (LexState {
            tokens: Seq::empty(),
            segment: Seq::new(s.len(), |i: int| seq![s[i]]),
            run: Seq::empty(),
        }),
    decreases s.len(),
{
    let all = Seq::new(s.len(), |i: int| seq![s[i]]);
    if s.len() > 0 {
        let t = s.drop_last();
        assert forall|i: int| 0 <= i < t.len() implies is_sign(#[trigger] t[i]) by {
            assert(t[i] == s[i]);
        }
        lemma_lexed_signs(t);
        assert(is_sign(s[s.len() - 1]));
        assert(Seq::new(t.len(), |i: int| seq![t[i]]).push(seq![s.last()]) =~= all);
    } else {
        assert(all =~= Seq::empty());
    }
}

/// Letters beyond ASCII are tokens one by one, and where they stand together also
/// by twos and by threes.
pub proof fn signs_are_read_together(s: Seq<char>)
    requires
        s.len() >= 3,
        forall|i: int| 0 <= i < s.len() ==> is_sign(#[trigger] s[i]),
    ensures
        case_terms::tokens_of(s) == Seq::new(s.len(), |i: int| s.subrange(i, i + 1)) + Seq::new(
            (s.len() - 1) as nat,
            |i: int| s.subrange(i, i + 2),
        ) + Seq::new((s.len() - 2) as nat, |i: int| s.subrange(i, i + 3)),
{
    lemma_lexed_signs(s);
    let segment = Seq::new(s.len(), |i: int| seq![s[i]]);
    let one = Seq::new(s.len(), |i: int| s.subrange(i, i + 1));
    let two = Seq::new((s.len() - 1) as nat, |i: int| s.subrange(i, i + 2));
    let three = Seq::new((s.len() - 2) as nat, |i: int| s.subrange(i, i + 3));
    assert forall|i: int| 0 <= i < s.len() implies #[trigger] segment[i] == one[i] by {
        assert(seq![s[i]] =~= s.subrange(i, i + 1));
    }
    assert(segment =~= one);
    assert forall|i: int| 0 <= i < s.len() - 1 implies #[trigger] case_terms::pairs(segment)[i]
        == two[i] by {
        assert(seq![s[i]] + seq![s[i + 1]] =~= s.subrange(i, i + 2));
    }
    assert(case_terms::pairs(segment) =~= two);
    assert forall|i: int| 0 <= i < s.len() - 2 implies #[trigger] case_terms::triples(segment)[i]
        == three[i] by {
        assert(seq![s[i]] + seq![s[i + 1]] + seq![s[i + 2]] =~= s.subrange(i, i + 3));
    }
    assert(case_terms::triples(segment) =~= three);
    assert(Seq::<Seq<char>>::empty() + segment =~= segment);
}

/// Adding a value keeps those that are there, and adds it trimmed at the end,
/// unless it is blank or there already or the list is full.
pub proof fn values_are_added_once(values: Seq<Seq<char>>, value: Seq<char>, limit: nat)
    requires
        values.no_duplicates(),
    ensures
        ({
            let after = case_terms::with_unique(values, value, limit);
            let t = text::trimmed(value);
            &&& after.no_duplicates()
            &&& after.len() <= values.len() + 1
            &&& values =~= after.take(values.len() as int)
            &&& after.len() > values.len() ==> after.last() == t && after.len() <= limit
            &&& t.len() > 0 && values.len() < limit ==> after.contains(t)
            &&& t.len() == 0 ==> after == values
        }),
{
    let after = case_terms::with_unique(values, value, limit);
    let t = text::trimmed(value);
    if after.len() > values.len() {
        assert(after[values.len() as int] == t);
        assert forall|i: int, j: int| 0 <= i < after.len() && 0 <= j < after.len() && i
            != j implies after[i] != after[j] by {
            if i == values.len() {
                assert(values.contains(values[j]));
            } else if j == values.len() {
                assert(values.contains(values[i]));
            }
        }
    }
}

/// Whether a value is among texts when each is trimmed.
pub open spec fn is_offered(more: Seq<Seq<char>>, v: Seq<char>) -> bool {
    v.len() > 0 && exists|i: int| 0 <= i < more.len() && text::trimmed(#[trigger] more[i]) == v
}

/// Adding values one by one gives a list in which each stands once, those that
/// were there first, up to the limit; what is missing is blank or found no room.
pub proof fn lists_hold_each_value_once(
    values: Seq<Seq<char>>,
    more: Seq<Seq<char>>,
    limit: nat,
    v: Seq<char>,
)
    requires
        values.no_duplicates(),
        values.len() <= limit,
    ensures
        ({
            let after = case_profile::with_uniques(values, more, limit);
            &&& after.no_duplicates()
            &&& after.len() <= limit
            &&& after.len() >= values.len()
            &&& values =~= after.take(values.len() as int)
            &&& after.contains(v) ==> values.contains(v) || is_offered(more, v)
            &&& is_offered(more, v) && after.len() < limit ==> after.contains(v)
        }),
    decreases more.len(),
{
    let after = case_profile::with_uniques(values, more, limit);
    if more.len() > 0 {
        let t = more.drop_last();
        let before = case_profile::with_uniques(values, t, limit);
        lists_hold_each_value_once(values, t, limit, v);
        values_are_added_once(before, more.last(), limit);
        assert(after.take(values.len() as int) =~= before.take(values.len() as int));
        if after.contains(v) {
            let k = choose|k: int| 0 <= k < after.len() && after[k] == v;
            if k < before.len() {
                assert(before[k] == after.take(before.len() as int)[k]);
                assert(before.contains(v));
                if is_offered(t, v) {
                    let i = choose|i: int| 0 <= i < t.len() && text::trimmed(#[trigger] t[i]) == v;
                    assert(more[i] == t[i]);
                }
            } else {
                assert(text::trimmed(more[more.len() - 1]) == v);
            }
        }
        if is_offered(more, v) && after.len() < limit {
            let i = choose|i: int| 0 <= i < more.len() && text::trimmed(#[trigger] more[i]) == v;
            if i < t.len() {
                assert(t[i] == more[i]);
                assert(is_offered(t, v));
                let k = choose|k: int| 0 <= k < before.len() && before[k] == v;
                assert(after.take(before.len() as int)[k] == v);
                assert(after[k] == v);
            }
        }
    } else {
        assert(after.take(values.len() as int) =~= values);
    }
}

/// The keywords of a text stand there once each and are not too many, and its
/// version numbers come first.
pub proof fn keywords_are_few_and_differ(s: Seq<char>, v: Seq<char>)
    ensures
        ({
            let words = case_profile::keywords_of(s);
            let lower = text::lowercase_text(text::trimmed(s));
            let versions = case_profile::with_uniques(
                Seq::empty(),
                case_terms::versions_of(lower),
                case_profile::SEARCH_PROFILE_MAX_KEYWORDS as nat,
            );
            &&& words.no_duplicates()
            &&& words.len() <= case_profile::SEARCH_PROFILE_MAX_KEYWORDS
            &&& versions == words.take(versions.len() as int)
            &&& words.contains(v) ==> is_offered(case_terms::versions_of(lower), v) || is_offered(
                case_profile::ranked_terms(lower),
                v,
            )
            &&& words.len() < case_profile::SEARCH_PROFILE_MAX_KEYWORDS && (is_offered(
                case_terms::versions_of(lower),
                v,
            ) || is_offered(case_profile::ranked_terms(lower), v)) ==> words.contains(v)
        }),
{
    let lower = text::lowercase_text(text::trimmed(s));
    let limit = case_profile::SEARCH_PROFILE_MAX_KEYWORDS as nat;
    let none = Seq::<Seq<char>>::empty();
    let first = case_profile::with_uniques(none, case_terms::versions_of(lower), limit);
    lists_hold_each_value_once(none, case_terms::versions_of(lower), limit, v);
    lists_hold_each_value_once(first, case_profile::ranked_terms(lower), limit, v);
    let words = case_profile::keywords_of(s);
    if first.contains(v) {
        let k = choose|k: int| 0 <= k < first.len() && first[k] == v;
        assert(words.take(first.len() as int)[k] == v);
        assert(words[k] == v);
    }
}

/// The terms that say something are those of two characters or more that are no
/// stop terms, in their order.
pub proof fn telling_terms_say_something(tokens: Seq<Seq<char>>)
    ensures
        case_overlap::telling_terms(tokens) == tokens.filter(
            |t: Seq<char>| t.len() >= 2 && !case_terms::is_stop_term(t),
        ),
    decreases tokens.len(),
{
    reveal(Seq::filter);
    if tokens.len() > 0 {
        telling_terms_say_something(tokens.drop_last());
    }
}

/// The specific terms are those of five characters or more and those with a
/// digit, in their order.
pub proof fn specific_terms_are_long_or_have_digits(terms: Seq<Seq<char>>)
    ensures
        case_overlap::specific_terms(terms) == terms.filter(
            |t: Seq<char>| t.len() >= 5 || case_terms::has_digit(t),
        ),
    decreases terms.len(),
{
    reveal(Seq::filter);
    if terms.len() > 0 {
        specific_terms_are_long_or_have_digits(terms.drop_last());
    }
}

/// Taking each value once keeps every value, adds none and repeats none.
pub proof fn each_value_is_kept_once(values: Seq<Seq<char>>, v: Seq<char>)
    ensures
        case_overlap::each_once(values).no_duplicates(),
        case_overlap::each_once(values).contains(v) <==> values.contains(v),
    decreases values.len(),
{
    if values.len() > 0 {
        let t = values.drop_last();
        each_value_is_kept_once(t, v);
        each_value_is_kept_once(t, values.last());
        lemma_new_value(case_overlap::each_once(t), values.last(), v);
        if values.contains(v) {
            let k = choose|k: int| 0 <= k < values.len() && values[k] == v;
            if k < t.len() {
                assert(t[k] == v);
            }
        }
        if t.contains(v) {
            let k = choose|k: int| 0 <= k < t.len() && t[k] == v;
            assert(values[k] == v);
        }
        assert(values.contains(values[values.len() - 1]));
    }
}

proof fn lemma_new_value(values: Seq<Seq<char>>, value: Seq<char>, v: Seq<char>)
    requires
        values.no_duplicates(),
    ensures
        case_terms::with_new(values, value).no_duplicates(),
        case_terms::with_new(values, value).contains(v) <==> values.contains(v) || v == value,
{
    let after = case_terms::with_new(values, value);
    if values.contains(value) {
    } else {
        assert(after[values.len() as int] == value);
        assert forall|i: int, j: int| 0 <= i < after.len() && 0 <= j < after.len() && i
            != j implies after[i] != after[j] by {
            if i == values.len() {
                assert(values.contains(values[j]));
            } else if j == values.len() {
                assert(values.contains(values[i]));
            }
        }
        if values.contains(v) {
            let k = choose|k: int| 0 <= k < values.len() && values[k] == v;
            assert(after[k] == v);
        }
        if after.contains(v) {
            let k = choose|k: int| 0 <= k < after.len() && after[k] == v;
            if k < values.len() {
                assert(values[k] == v);
            }
        }
    }
}

/// The identifiers among tokens are those with a letter and nothing but letters,
/// digits and underscores that are no stop terms and have three characters or a
/// digit; each stands there once.
pub proof fn identifiers_are_found_once(tokens: Seq<Seq<char>>, v: Seq<char>)
    ensures
        case_terms::identifiers_of(tokens).no_duplicates(),
        case_terms::identifiers_of(tokens).contains(v) <==> tokens.contains(v)
            && case_terms::is_identifier(v) && !case_terms::is_stop_term(v) && (v.len() >= 3
            || case_terms::has_digit(v)),
    decreases tokens.len(),
{
    if tokens.len() > 0 {
        let t = tokens.drop_last();
        identifiers_are_found_once(t, v);
        lemma_new_value(case_terms::identifiers_of(t), tokens.last(), v);
        if tokens.contains(v) {
            let k = choose|k: int| 0 <= k < tokens.len() && tokens[k] == v;
            if k < t.len() {
                assert(t[k] == v);
            }
        }
        if t.contains(v) {
            let k = choose|k: int| 0 <= k < t.len() && t[k] == v;
            assert(tokens[k] == v);
        }
        assert(tokens.contains(tokens[tokens.len() - 1]));
    }
}

/// The terms of a text are its telling tokens and version tokens, each once.
pub proof fn terms_are_telling_and_differ(s: Seq<char>, v: Seq<char>)
    ensures
        ({
            let t = text::trimmed(s);
            &&& case_overlap::terms_of(s).no_duplicates()
            &&& case_overlap::terms_of(s).contains(v) <==> (v.len() >= 2
                && !case_terms::is_stop_term(v) && (case_terms::tokens_of(t).contains(v)
                || case_terms::version_tokens(case_terms::versions_of(t)).contains(v)))
        }),
{
    let t = text::trimmed(s);
    let (a, b) = (
        case_terms::tokens_of(t),
        case_terms::version_tokens(case_terms::versions_of(t)),
    );
    each_value_is_kept_once(case_overlap::telling_terms(a + b), v);
    lemma_telling(a + b, v);
    if a.contains(v) {
        let k = choose|k: int| 0 <= k < a.len() && a[k] == v;
        assert((a + b)[k] == v);
    }
    if b.contains(v) {
        let k = choose|k: int| 0 <= k < b.len() && b[k] == v;
        assert((a + b)[a.len() + k] == v);
    }
    if (a + b).contains(v) {
        let k = choose|k: int| 0 <= k < (a + b).len() && (a + b)[k] == v;
        if k < a.len() {
            assert(a[k] == v);
        } else {
            assert(b[k - a.len()] == v);
        }
    }
}

proof fn lemma_telling(tokens: Seq<Seq<char>>, v: Seq<char>)
    ensures
        case_overlap::telling_terms(tokens).contains(v) <==> tokens.contains(v) && v.len() >= 2
            && !case_terms::is_stop_term(v),
    decreases tokens.len(),
{
    if tokens.len() > 0 {
        let t = tokens.drop_last();
        lemma_telling(t, v);
        let before = case_overlap::telling_terms(t);
        let after = case_overlap::telling_terms(tokens);
        if tokens.contains(v) {
            let k = choose|k: int| 0 <= k < tokens.len() && tokens[k] == v;
            if k < t.len() {
                assert(t[k] == v);
            } else if v.len() >= 2 && !case_terms::is_stop_term(v) {
                assert(after[before.len() as int] == v);
            }
        }
        if before.contains(v) {
            let k = choose|k: int| 0 <= k < before.len() && before[k] == v;
            assert(after[k] == v);
            let q = choose|q: int| 0 <= q < t.len() && t[q] == v;
            assert(tokens[q] == v);
        }
        if after.contains(v) {
            let k = choose|k: int| 0 <= k < after.len() && after[k] == v;
            if k < before.len() {
                assert(before[k] == v);
            } else {
                assert(tokens[tokens.len() - 1] == v);
            }
        }
    }
}

/// The number of terms that are matched is that of the terms that are among the
/// candidates or alike to one of them, and the number that are shared is that of
/// the terms that are among them.
pub proof fn matches_are_counted(query: Seq<Seq<char>>, candidates: Seq<Seq<char>>)
    ensures
        case_overlap::matched_count(query, candidates) == query.filter(
            |t: Seq<char>|
                candidates.contains(t) || exists|i: int|
                    0 <= i < candidates.len() && case_overlap::alike(t, #[trigger] candidates[i]),
        ).len(),
        case_overlap::shared_count(query, candidates) == query.filter(
            |t: Seq<char>| candidates.contains(t),
        ).len(),
    decreases query.len(),
{
    reveal(Seq::filter);
    if query.len() > 0 {
        matches_are_counted(query.drop_last(), candidates);
    }
}

/// Whether a text has no mark that ends a sentence of a summary.
pub open spec fn is_open_sentence(s: Seq<char>) -> bool {
    forall|i: int| 0 <= i < s.len() ==> !is_sentence_end(#[trigger] s[i])
}

/// Whether a character is a full stop, an exclamation mark, a question mark or a
/// semicolon that ends a sentence of a summary.
pub open spec fn is_sentence_end(c: char) -> bool {
    seq!['。', '！', '？', '；', '!', '?', ';'].contains(c)
}

proof fn lemma_sentence_ends(c: char)
    ensures
        is_sentence_end(c) == case_summary::ends_summary_sentence(c),
{
    let all = seq!['。', '！', '？', '；', '!', '?', ';'];
    assert(all[0] == '。' && all[1] == '！' && all[2] == '？' && all[3] == '；' && all[4] == '!'
        && all[5] == '?' && all[6] == ';');
}

proof fn lemma_open_sentence(s: Seq<char>)
    requires
        is_open_sentence(s),
    ensures
        case_summary::summary_sentences_state(s) == (Seq::<Seq<char>>::empty(), s),
    decreases s.len(),
{
    if s.len() > 0 {
        let t = s.drop_last();
        assert forall|i: int| 0 <= i < t.len() implies !is_sentence_end(#[trigger] t[i]) by {
            assert(t[i] == s[i]);
        }
        lemma_open_sentence(t);
        lemma_sentence_ends(s[s.len() - 1]);
        assert(!is_sentence_end(s[s.len() - 1]));
        assert(t.push(s.last()) =~= s);
    } else {
        assert(s =~= Seq::empty());
    }
}

proof fn lemma_filled_behind(front: Seq<Seq<char>>, own: Seq<Seq<char>>, t: Seq<char>)
    ensures
        case_summary::with_filled(front + own, t) == front + case_summary::with_filled(own, t),
{
    assert((front + own).push(text::trimmed(t)) =~= front + own.push(text::trimmed(t)));
}

proof fn lemma_sentences_behind(a: Seq<char>, b: Seq<char>)
    requires
        case_summary::summary_sentences_state(a).1.len() == 0,
    ensures
        ({
            let all = case_summary::summary_sentences_state(a + b);
            let own = case_summary::summary_sentences_state(b);
            &&& all.0 == case_summary::summary_sentences_state(a).0 + own.0
            &&& all.1 == own.1
        }),
    decreases b.len(),
{
    let front = case_summary::summary_sentences_state(a).0;
    if b.len() == 0 {
        assert(a + b =~= a);
        assert(front + Seq::<Seq<char>>::empty() =~= front);
        assert(case_summary::summary_sentences_state(a).1 =~= Seq::empty());
    } else {
        lemma_sentences_behind(a, b.drop_last());
        assert((a + b).drop_last() =~= a + b.drop_last());
        assert((a + b).last() == b.last());
        let (own, current) = case_summary::summary_sentences_state(b.drop_last());
        lemma_filled_behind(front, own, current.push(b.last()));
    }
}

/// A mark that ends a sentence ends it: a text that starts with a sentence and
/// its mark has this sentence, trimmed, and then those of the rest; a text
/// without such a mark is one sentence. Blank sentences are left out.
pub proof fn sentences_end_at_their_marks(a: Seq<char>, c: char, b: Seq<char>)
    requires
        is_open_sentence(a),
        is_sentence_end(c),
    ensures
        case_summary::summary_sentences(a.push(c) + b) == (if text::is_blank(a.push(c)) {
            Seq::<Seq<char>>::empty()
        } else {
            seq![text::trimmed(a.push(c))]
        }) + case_summary::summary_sentences(b),
        case_summary::summary_sentences(a) == (if text::is_blank(a) {
            Seq::<Seq<char>>::empty()
        } else {
            seq![text::trimmed(a)]
        }),
{
    lemma_open_sentence(a);
    lemma_sentence_ends(c);
    let front = a.push(c);
    assert(front.drop_last() =~= a);
    lemma_sentences_behind(front, b);
    let (own, current) = case_summary::summary_sentences_state(b);
    let first = case_summary::summary_sentences_state(front).0;
    lemma_filled_behind(first, own, current);
    assert(Seq::<Seq<char>>::empty().push(text::trimmed(front)) =~= seq![text::trimmed(front)]);
    assert(Seq::<Seq<char>>::empty().push(text::trimmed(a)) =~= seq![text::trimmed(a)]);
}

/// Whether a character asks.
pub open spec fn asks(c: char) -> bool {
    c == '?' || c == '？'
}

/// Whether a character ends a sentence, whether it asks or not.
pub open spec fn ends_any(c: char) -> bool {
    asks(c) || seq!['\n', '。', '！', '!', '；', ';'].contains(c)
}

proof fn lemma_statement_ends(c: char)
    ensures
        ends_any(c) == (asks(c) || case_profile::ends_statement(c)),
{
    let all = seq!['\n', '。', '！', '!', '；', ';'];
    assert(all[0] == '\n' && all[1] == '。' && all[2] == '！' && all[3] == '!' && all[4] == '；'
        && all[5] == ';');
}

proof fn lemma_question_goes_on(a: Seq<char>, b: Seq<char>)
    requires
        case_profile::questions_state(a).1.len() == 0,
        forall|i: int| 0 <= i < b.len() ==> !ends_any(#[trigger] b[i]),
    ensures
        case_profile::questions_state(a + b) == (case_profile::questions_state(a).0, b),
    decreases b.len(),
{
    if b.len() == 0 {
        assert(a + b =~= a);
        assert(case_profile::questions_state(a).1 =~= b);
    } else {
        let t = b.drop_last();
        assert forall|i: int| 0 <= i < t.len() implies !ends_any(#[trigger] t[i]) by {
            assert(t[i] == b[i]);
        }
        lemma_question_goes_on(a, t);
        lemma_statement_ends(b[b.len() - 1]);
        assert(!ends_any(b[b.len() - 1]));
        assert((a + b).drop_last() =~= a + t);
        assert((a + b).last() == b.last());
        assert(t.push(b.last()) =~= b);
    }
}

/// A sentence is asked as a question if and only if its mark asks: behind the end
/// of a sentence, the next sentence joins the questions, trimmed, where its mark
/// asks and it is new and there is room, and nothing else does.
pub proof fn questions_end_with_their_marks(a: Seq<char>, b: Seq<char>, c: char)
    requires
        a.len() == 0 || ends_any(a.last()),
        forall|i: int| 0 <= i < b.len() ==> !ends_any(#[trigger] b[i]),
        ends_any(c),
    ensures
        ({
            let before = case_profile::questions_state(a).0;
            let after = case_profile::questions_state(a + b.push(c)).0;
            let q = text::trimmed(b.push(c));
            &&& asks(c) && q.len() > 0 && before.len() < case_profile::SEARCH_PROFILE_MAX_QUESTIONS
                && !before.contains(q) ==> after == before.push(q)
            &&& !(asks(c) && q.len() > 0 && before.len()
                < case_profile::SEARCH_PROFILE_MAX_QUESTIONS && !before.contains(q)) ==> after
                == before
            &&& case_profile::questions_state(a + b).0 == before
        }),
{
    if a.len() > 0 {
        lemma_statement_ends(a.last());
    }
    lemma_question_goes_on(a, b);
    lemma_statement_ends(c);
    let all = a + b.push(c);
    assert(all.drop_last() =~= a + b);
    assert(all.last() == c);
}

proof fn lemma_version_run(s: Seq<char>)
    requires
        forall|i: int| 0 <= i < s.len() ==> case_terms::in_version(#[trigger] s[i]),
    ensures
        case_terms::versions_state(s) == (Seq::<Seq<char>>::empty(), s),
    decreases s.len(),
{
    if s.len() > 0 {
        let t = s.drop_last();
        assert forall|i: int| 0 <= i < t.len() implies case_terms::in_version(#[trigger] t[i]) by {
            assert(t[i] == s[i]);
        }
        lemma_version_run(t);
        assert(case_terms::in_version(s[s.len() - 1]));
        assert(t.push(s.last()) =~= s);
    } else {
        assert(s =~= Seq::empty());
    }
}

/// Two groups of digits with a dot, a hyphen or an underscore between them are a
/// version number, written with a dot.
pub proof fn groups_of_digits_are_versions(a: Seq<char>, mark: char, b: Seq<char>)
    requires
        a.len() > 0,
        b.len() > 0,
        forall|i: int| 0 <= i < a.len() ==> text::ascii_digit(#[trigger] a[i]),
        forall|i: int| 0 <= i < b.len() ==> text::ascii_digit(#[trigger] b[i]),
        mark == '.' || mark == '-' || mark == '_',
    ensures
        case_terms::version_of(a.push(mark) + b) == Some(a.push('.') + b),
{
    let set = case_terms::version_marks();
    assert(set[0] == '.' && set[1] == '-' && set[2] == '_');
    assert forall|i: int| 0 <= i < a.len() implies !set.contains(#[trigger] a[i]) by {
        assert(text::ascii_digit(a[i]));
    }
    assert forall|i: int| 0 <= i < b.len() implies !set.contains(#[trigger] b[i]) by {
        assert(text::ascii_digit(b[i]));
    }
    assert(set.contains(mark));
    text_parts::texts_without_marks_are_pieces(a, set);
    text_parts::texts_without_marks_are_pieces(b, set);
    text_parts::marks_part_pieces(a, mark, b, set);
    let groups = seq![a] + seq![b];
    assert(scan::pieces_of(a.push(mark) + b, set) == groups);
    assert forall|i: int| 0 <= i < groups.len() implies text::all_digits(#[trigger] groups[i]) by {
        if i == 0 {
            assert(groups[i] == a);
        } else {
            assert(groups[i] == b);
        }
    }
    reveal_strlit(".");
    text_parts::joining_goes_part_by_part(seq![a], seq![b], "."@);
    text_parts::joining_goes_part_by_part(seq![b], seq![a], "."@);
    assert(text::joined(groups, "."@) =~= a.push('.') + b);
}

/// A text of nothing but digits and the marks between them has the version number
/// that it is, and no other.
pub proof fn single_runs_are_single_versions(run: Seq<char>)
    requires
        forall|i: int| 0 <= i < run.len() ==> case_terms::in_version(#[trigger] run[i]),
    ensures
        case_terms::version_of(run) is None ==> case_terms::versions_of(run).len() == 0,
        case_terms::version_of(run) is Some && text::trimmed(case_terms::version_of(run)->0).len()
            > 0 ==> case_terms::versions_of(run) == seq![
            text::trimmed(case_terms::version_of(run)->0),
        ],
{
    lemma_version_run(run);
    if case_terms::version_of(run) is Some {
        let v = text::trimmed(case_terms::version_of(run)->0);
        assert(!Seq::<Seq<char>>::empty().contains(v));
        assert(Seq::<Seq<char>>::empty().push(v) =~= seq![v]);
    }
}

/// The digits of a text are its characters that are digits, in their order.
pub proof fn digits_are_kept(s: Seq<char>)
    ensures
        case_terms::digits_of(s) == s.filter(|c: char| '0' <= c <= '9'),
    decreases s.len(),
{
    reveal(Seq::filter);
    if s.len() > 0 {
        digits_are_kept(s.drop_last());
    }
}

/// Terms are alike only where they agree at both ends, or at one where they are not
/// of one length; where they do, and differ by one edit at most, and both may be
/// misspelt, they are alike.
pub proof fn alike_terms_agree_at_their_ends(a: Seq<char>, b: Seq<char>)
    requires
        a.len() > 0,
        b.len() > 0,
    ensures
        case_overlap::alike(a, b) && a.len() == b.len() ==> a[0] == b[0] && a.last() == b.last(),
        case_overlap::alike(a, b) && a.len() != b.len() ==> a[0] == b[0] || a.last() == b.last(),
        case_overlap::alike(a, b) ==> a.len() >= 3 && b.len() >= 3 && !case_terms::is_stop_term(a)
            && !case_terms::is_stop_term(b),
        case_overlap::alike(a, b) ==> -1 <= a.len() - b.len() <= 1,
        case_overlap::is_fuzzy(a) && case_overlap::is_fuzzy(b) && a[0] == b[0] && a.last()
            == b.last() && case_overlap::within_one_edit(a, b) ==> case_overlap::alike(a, b),
        case_overlap::is_fuzzy(a) && case_overlap::is_fuzzy(b) && a.len() != b.len() && (a[0]
            == b[0] || a.last() == b.last()) && case_overlap::within_one_edit(a, b)
            ==> case_overlap::alike(a, b),
        a.len() >= 3 && !case_terms::is_stop_term(a) && a[0] >= '\u{80}' ==> case_overlap::is_fuzzy(
            a,
        ),
{
    if a[0] >= '\u{80}' {
        assert(!text::is_ascii_char(a[0]));
    }
}

/// A text is indexed as its tokens and twice as its version tokens, with spaces
/// between them, or as itself where it has none.
pub proof fn texts_are_indexed_by_tokens(s: Seq<char>)
    ensures
        ({
            let t = text::trimmed(s);
            let versions = case_terms::version_tokens(case_terms::versions_of(t));
            let all = case_terms::tokens_of(t) + versions + versions;
            &&& all.len() > 0 ==> case_terms::index_text(s) == text::joined(all, " "@)
            &&& all.len() == 0 ==> case_terms::index_text(s) == text::trimmed(t)
        }),
{
}

/// A query with two identifiers or more and no version number is searched by its
/// identifiers alone, any other query as it would be indexed.
pub proof fn queries_go_by_their_identifiers(s: Seq<char>)
    ensures
        ({
            let t = text::trimmed(s);
            let versions = case_terms::versions_of(t);
            let twice = case_terms::version_tokens(versions);
            let names = case_terms::identifiers_of(case_terms::tokens_of(t) + twice + twice);
            &&& versions.len() == 0 && names.len() >= 2 ==> case_terms::query_text(s)
                == text::joined(names, " "@)
            &&& versions.len() > 0 || names.len() < 2 ==> case_terms::query_text(s)
                == case_terms::index_text(s)
        }),
{
    text::trimming_is_final(s);
}

/// The version numbers that are written together are those of two digits or more,
/// each as its digits, in their order.
pub proof fn versions_are_written_together(versions: Seq<Seq<char>>)
    ensures
        case_terms::compact_versions(versions) == versions.map_values(
            |v: Seq<char>| case_terms::digits_of(v),
        ).filter(|d: Seq<char>| d.len() >= 2),
    decreases versions.len(),
{
    reveal(Seq::filter);
    let at = |v: Seq<char>| case_terms::digits_of(v);
    if versions.len() > 0 {
        versions_are_written_together(versions.drop_last());
        assert(versions.map_values(at).drop_last() =~= versions.drop_last().map_values(at));
        assert(versions.map_values(at).last() == case_terms::digits_of(versions.last()));
    } else {
        assert(versions.map_values(at).filter(|d: Seq<char>| d.len() >= 2) =~= Seq::empty());
    }
}

/// Whether a value is a version number or one written together.
pub open spec fn is_version_token(versions: Seq<Seq<char>>, v: Seq<char>) -> bool {
    v.len() > 0 && exists|i: int|
        0 <= i < versions.len() && (text::trimmed(#[trigger] versions[i]) == v || (
        case_terms::digits_of(versions[i]).len() >= 2 && text::trimmed(
            case_terms::digits_of(versions[i]),
        ) == v))
}

/// The version tokens are the version numbers as they are and written together,
/// each once.
pub proof fn version_tokens_are_both_forms(versions: Seq<Seq<char>>, v: Seq<char>)
    requires
        2 * versions.len() < usize::MAX,
    ensures
        case_terms::version_tokens(versions).no_duplicates(),
        case_terms::version_tokens(versions).len() <= 2 * versions.len(),
        case_terms::version_tokens(versions).contains(v) <==> is_version_token(versions, v),
    decreases versions.len(),
{
    let max = usize::MAX as nat;
    let after = case_terms::version_tokens(versions);
    if versions.len() > 0 {
        let t = versions.drop_last();
        let n = versions.len() - 1;
        let before = case_terms::version_tokens(t);
        version_tokens_are_both_forms(t, v);
        let one = case_terms::with_unique(before, versions.last(), max);
        values_are_added_once(before, versions.last(), max);
        lemma_value_added(before, versions.last(), max, v);
        if case_terms::digits_of(versions.last()).len() >= 2 {
            values_are_added_once(one, case_terms::digits_of(versions.last()), max);
            lemma_value_added(one, case_terms::digits_of(versions.last()), max, v);
        }
        if is_version_token(t, v) {
            let i = choose|i: int|
                0 <= i < t.len() && (text::trimmed(#[trigger] t[i]) == v || (case_terms::digits_of(
                    t[i],
                ).len() >= 2 && text::trimmed(case_terms::digits_of(t[i])) == v));
            assert(versions[i] == t[i]);
        }
        if is_version_token(versions, v) {
            let i = choose|i: int|
                0 <= i < versions.len() && (text::trimmed(#[trigger] versions[i]) == v || (
                case_terms::digits_of(versions[i]).len() >= 2 && text::trimmed(
                    case_terms::digits_of(versions[i]),
                ) == v));
            if i < n {
                assert(t[i] == versions[i]);
            }
        }
        assert(versions[n] == versions.last());
    }
}

proof fn lemma_value_added(values: Seq<Seq<char>>, value: Seq<char>, limit: nat, v: Seq<char>)
    requires
        values.no_duplicates(),
        values.len() < limit,
    ensures
        case_terms::with_unique(values, value, limit).contains(v) <==> (values.contains(v) || (
        v.len() > 0 && v == text::trimmed(value))),
{
    let after = case_terms::with_unique(values, value, limit);
    values_are_added_once(values, value, limit);
    if values.contains(v) {
        let k = choose|k: int| 0 <= k < values.len() && values[k] == v;
        assert(after.take(values.len() as int)[k] == v);
        assert(after[k] == v);
    }
    if after.contains(v) {
        let k = choose|k: int| 0 <= k < after.len() && after[k] == v;
        if k < values.len() {
            assert(after.take(values.len() as int)[k] == v);
            assert(values[k] == v);
        }
    }
}

/// What a result must share are the specific identifiers and version numbers of a
/// query, each once, where there are two or more of them.
pub proof fn required_terms_are_specific(query: Seq<char>, v: Seq<char>)
    ensures
        ({
            let t = text::trimmed(query);
            let names = case_terms::identifiers_of(case_terms::tokens_of(t));
            let versions = case_terms::compact_versions(case_terms::versions_of(t));
            let specific = (names + versions).filter(
                |w: Seq<char>| w.len() >= 5 || case_terms::has_digit(w),
            );
            let required = case_overlap::required_terms(query);
            &&& required.no_duplicates()
            &&& specific.len() < 2 ==> required.len() == 0
            &&& specific.len() >= 2 ==> (required.contains(v) <==> specific.contains(v))
        }),
{
    let t = text::trimmed(query);
    let names = case_terms::identifiers_of(case_terms::tokens_of(t));
    let versions = case_terms::compact_versions(case_terms::versions_of(t));
    specific_terms_are_long_or_have_digits(names + versions);
    each_value_is_kept_once(case_overlap::specific_terms(names + versions), v);
}

/// A text shares what tells much if and only if one of its terms is a term of the
/// query and is an identifier or has three characters or more.
pub proof fn distinctive_terms_are_shared(query: Seq<Seq<char>>, candidate: Seq<char>)
    ensures
        case_overlap::shares_distinctive(query, candidate) <==> case_overlap::terms_of(
            candidate,
        ).filter(
            |t: Seq<char>| query.contains(t) && (case_terms::is_identifier(t) || t.len() >= 3),
        ).len() > 0,
{
    let terms = case_overlap::terms_of(candidate);
    let p = |t: Seq<char>| query.contains(t) && (case_terms::is_identifier(t) || t.len() >= 3);
    if case_overlap::shares_distinctive(query, candidate) {
        let i = choose|i: int|
            0 <= i < terms.len() && query.contains(#[trigger] terms[i])
                && case_overlap::is_distinctive(terms[i]);
        lemma_kept(terms, p, i);
    }
    if terms.filter(p).len() > 0 {
        let i = lemma_keeper(terms, p);
        assert(query.contains(terms[i]) && case_overlap::is_distinctive(terms[i]));
    }
}

proof fn lemma_kept(s: Seq<Seq<char>>, p: spec_fn(Seq<char>) -> bool, i: int)
    requires
        0 <= i < s.len(),
        p(s[i]),
    ensures
        s.filter(p).len() > 0,
    decreases s.len(),
{
    reveal(Seq::filter);
    if i < s.len() - 1 {
        assert(s.drop_last()[i] == s[i]);
        lemma_kept(s.drop_last(), p, i);
    }
}

proof fn lemma_keeper(s: Seq<Seq<char>>, p: spec_fn(Seq<char>) -> bool) -> (i: int)
    requires
        s.filter(p).len() > 0,
    ensures
        0 <= i < s.len(),
        p(s[i]),
    decreases s.len(),
{
    reveal(Seq::filter);
    if p(s.last()) {
        s.len() - 1
    } else {
        let i = lemma_keeper(s.drop_last(), p);
        assert(s.drop_last()[i] == s[i]);
        i
    }
}

/// The terms that say too little to be searched for.
pub open spec fn stop_terms() -> Seq<Seq<char>> {
    seq![
        "为什么"@,
        "怎么办"@,
        "怎么"@,
        "什么"@,
        "哪些"@,
        "可能"@,
        "原因"@,
        "问题"@,
        "处理"@,
        "修复"@,
        "排查"@,
        "故障"@,
        "异常"@,
        "业务"@,
        "系统"@,
        "一直"@,
        "失败"@,
    ]
}

/// A term says too little if and only if it is one of the stop terms, as a whole.
pub proof fn stop_terms_are_those_listed(t: Seq<char>)
    ensures
        case_terms::is_stop_term(t) <==> stop_terms().contains(t),
{
    let k = stop_terms();
    assert(k[0] == "为什么"@ && k[1] == "怎么办"@ && k[2] == "怎么"@ && k[3] == "什么"@ && k[4]
        == "哪些"@ && k[5] == "可能"@ && k[6] == "原因"@ && k[7] == "问题"@ && k[8] == "处理"@ && k[9]
        == "修复"@ && k[10] == "排查"@ && k[11] == "故障"@ && k[12] == "异常"@ && k[13] == "业务"@
        && k[14] == "系统"@ && k[15] == "一直"@ && k[16] == "失败"@);
    if k.contains(t) {
        let i = choose|i: int| 0 <= i < k.len() && k[i] == t;
        assert(0 <= i < 17);
        assert(i == 0 || i == 1 || i == 2 || i == 3 || i == 4 || i == 5 || i == 6 || i == 7 || i == 8
            || i == 9 || i == 10 || i == 11 || i == 12 || i == 13 || i == 14 || i == 15 || i == 16);
    }
}

/// An identifier has an ASCII letter and nothing but ASCII letters, digits and
/// underscores.
pub proof fn identifiers_are_made_of_letters(t: Seq<char>, i: int)
    requires
        0 <= i < t.len(),
    ensures
        case_terms::is_identifier(t) ==> ('a' <= t[i] <= 'z' || 'A' <= t[i] <= 'Z' || '0' <= t[i]
            <= '9' || t[i] == '_'),
        case_terms::is_identifier(t) ==> case_terms::has_letter(t),
        ('a' <= t[i] <= 'z' || 'A' <= t[i] <= 'Z') ==> case_terms::has_letter(t),
        '0' <= t[i] <= '9' ==> case_terms::has_digit(t),
{
    if 'a' <= t[i] <= 'z' || 'A' <= t[i] <= 'Z' {
        assert(text::ascii_letter(t[i]));
    }
    if '0' <= t[i] <= '9' {
        assert(text::ascii_digit(t[i]));
    }
    if case_terms::is_identifier(t) {
        assert(case_terms::in_identifier(t[i]));
    }
}

/// Whether a value is the version number that a run is.
pub open spec fn is_version_of(run: Seq<char>, v: Seq<char>) -> bool {
    case_terms::version_of(run) is Some && v.len() > 0 && v == text::trimmed(
        case_terms::version_of(run)->0,
    )
}

proof fn lemma_version_added(terms: Seq<Seq<char>>, run: Seq<char>, v: Seq<char>)
    requires
        terms.no_duplicates(),
        terms.len() < usize::MAX,
    ensures
        case_terms::with_version(terms, run).no_duplicates(),
        case_terms::with_version(terms, run).len() <= terms.len() + 1,
        case_terms::with_version(terms, run).contains(v) <==> (terms.contains(v) || is_version_of(
            run,
            v,
        )),
{
    if case_terms::version_of(run) is Some {
        let value = case_terms::version_of(run)->0;
        values_are_added_once(terms, value, usize::MAX as nat);
        lemma_value_added(terms, value, usize::MAX as nat, v);
    }
}

proof fn lemma_versions_are_few(s: Seq<char>)
    requires
        s.len() < usize::MAX,
    ensures
        case_terms::versions_state(s).0.no_duplicates(),
        case_terms::versions_state(s).0.len() <= s.len(),
    decreases s.len(),
{
    if s.len() > 0 {
        let t = s.drop_last();
        lemma_versions_are_few(t);
        let (terms, run) = case_terms::versions_state(t);
        lemma_version_added(terms, run, run);
    }
}

proof fn lemma_versions_behind(front: Seq<char>, b: Seq<char>, v: Seq<char>)
    requires
        front.len() + b.len() < usize::MAX,
        case_terms::versions_state(front).1.len() == 0,
    ensures
        ({
            let all = case_terms::versions_state(front + b);
            let own = case_terms::versions_state(b);
            &&& all.1 == own.1
            &&& all.0.contains(v) <==> (case_terms::versions_state(front).0.contains(v)
                || own.0.contains(v))
        }),
    decreases b.len(),
{
    let first = case_terms::versions_state(front).0;
    if b.len() == 0 {
        assert(front + b =~= front);
        assert(case_terms::versions_state(front).1 =~= case_terms::versions_state(b).1);
        assert(!Seq::<Seq<char>>::empty().contains(v));
    } else {
        let t = b.drop_last();
        lemma_versions_behind(front, t, v);
        assert((front + b).drop_last() =~= front + t);
        assert((front + b).last() == b.last());
        lemma_versions_are_few(front + t);
        lemma_versions_are_few(t);
        let run = case_terms::versions_state(t).1;
        lemma_version_added(case_terms::versions_state(front + t).0, run, v);
        lemma_version_added(case_terms::versions_state(t).0, run, v);
    }
}

/// What stands in no version number parts them: a text has a version number if it
/// stands before such a character or behind it.
pub proof fn separators_part_versions(a: Seq<char>, c: char, b: Seq<char>, v: Seq<char>)
    requires
        !('0' <= c <= '9') && c != '.' && c != '-' && c != '_',
        a.len() + b.len() + 1 < usize::MAX,
    ensures
        case_terms::versions_of(a.push(c) + b).contains(v) <==> (case_terms::versions_of(
            a,
        ).contains(v) || case_terms::versions_of(b).contains(v)),
        case_terms::versions_of(a).no_duplicates(),
{
    let front = a.push(c);
    assert(front.drop_last() =~= a);
    assert(case_terms::versions_state(front).0 == case_terms::versions_of(a));
    lemma_versions_behind(front, b, v);
    lemma_versions_are_few(front + b);
    lemma_versions_are_few(b);
    lemma_versions_are_few(a);
    let run = case_terms::versions_state(b).1;
    lemma_version_added(case_terms::versions_state(front + b).0, run, v);
    lemma_version_added(case_terms::versions_state(b).0, run, v);
    lemma_version_added(case_terms::versions_state(a).0, case_terms::versions_state(a).1, v);
}

} // verus!
