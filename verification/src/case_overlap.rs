//! Whether a text that was recalled has enough in common with the query.

use vstd::prelude::*;
use vstd::string::*;

use crate::case_terms;
use crate::case_terms::{
    ascii_identifier_terms_from_tokens, compact_version_search_tokens, holds_digit,
    is_ascii_identifier_term, is_search_stop_term, lexical_tokens, push_new,
    version_search_tokens, MIN_ASCII_IDENTIFIER_OVERLAP_TERMS, MIN_ASCII_IDENTIFIER_QUERY_TERMS,
    MIN_GENERAL_QUERY_OVERLAP_TERMS,
};
use crate::scan::char_count;
use crate::text;
use crate::text::{char_code, holds_text, text_eq, to_chars, trim};

verus! {

/// Terms, each once, in the order in which they were found.
#[derive(Debug)]
pub struct TermSet {
    terms: Vec<String>,
}

impl View for TermSet {
    type V = Seq<Seq<char>>;

    closed spec fn view(&self) -> Seq<Seq<char>> {
        text::strings(self.terms@)
    }
}

impl TermSet {
    /// Each term stands once.
    #[verifier::type_invariant]
    spec fn is_sound(self) -> bool {
        text::strings(self.terms@).no_duplicates()
    }

    /// No terms.
    pub fn new() -> (r: Self)
        ensures
            r@ == Seq::<Seq<char>>::empty(),
    {
        let r = TermSet { terms: Vec::new() };
        assert(r@ =~= Seq::<Seq<char>>::empty());
        r
    }

    /// How many terms there are.
    pub fn len(&self) -> (r: usize)
        ensures
            r == self@.len(),
    {
        self.terms.len()
    }

    /// Whether one of the terms is an identifier.
    pub fn holds_identifier(&self) -> (r: bool)
        ensures
            r == exists|i: int|
                0 <= i < self@.len() && case_terms::is_identifier(#[trigger] self@[i]),
    {
        let mut i: usize = 0;
        while i < self.terms.len()
            invariant
                i <= self.terms@.len(),
                self@ == text::strings(self.terms@),
                forall|k: int| 0 <= k < i ==> !case_terms::is_identifier(#[trigger] self@[k]),
            decreases self.terms@.len() - i,
        {
            assert(self@[i as int] == self.terms@[i as int]@);
            if is_ascii_identifier_term(self.terms[i].as_str()) {
                return true;
            }
            i += 1;
        }
        false
    }

    /// Whether a term is there.
    pub fn contains(&self, term: &str) -> (r: bool)
        ensures
            r == self@.contains(term@),
    {
        holds_text(&self.terms, term)
    }
}

/// Each text of a list once.
pub open spec fn each_once(values: Seq<Seq<char>>) -> Seq<Seq<char>>
    decreases values.len(),
{
    if values.len() == 0 {
        Seq::empty()
    } else {
        case_terms::with_new(each_once(values.drop_last()), values.last())
    }
}

proof fn lemma_each_once(values: Seq<Seq<char>>)
    ensures
        each_once(values).no_duplicates(),
        forall|x: Seq<char>| #[trigger] each_once(values).contains(x) == values.contains(x),
    decreases values.len(),
{
    if values.len() > 0 {
        let t = values.drop_last();
        let v = values.last();
        lemma_each_once(t);
        let earlier = each_once(t);
        let all = each_once(values);
        assert forall|x: Seq<char>| #[trigger] all.contains(x) == values.contains(x) by {
            assert(earlier.contains(x) == t.contains(x));
            if values.contains(x) {
                let i = choose|i: int| 0 <= i < values.len() && values[i] == x;
                if i < t.len() {
                    assert(t[i] == x);
                    let k = choose|k: int| 0 <= k < earlier.len() && earlier[k] == x;
                    assert(all[k] == x);
                } else if earlier.contains(v) {
                    assert(all.contains(x));
                } else {
                    assert(all[earlier.len() as int] == x);
                }
            }
            if all.contains(x) {
                let k = choose|k: int| 0 <= k < all.len() && all[k] == x;
                if k < earlier.len() {
                    assert(earlier[k] == x);
                    assert(t.contains(x));
                    let i = choose|i: int| 0 <= i < t.len() && t[i] == x;
                    assert(values[i] == x);
                } else {
                    assert(values[values.len() - 1] == x);
                }
            }
        }
    } else {
        assert(each_once(values) =~= values);
    }
}

fn set_of(values: &Vec<String>) -> (r: TermSet)
    ensures
        r@ == each_once(text::strings(values@)),
{
    let ghost all = text::strings(values@);
    let mut terms: Vec<String> = Vec::new();
    let mut i: usize = 0;
    assert(text::strings(terms@) =~= Seq::<Seq<char>>::empty());
    while i < values.len()
        invariant
            i <= values@.len(),
            all == text::strings(values@),
            text::strings(terms@) == each_once(all.take(i as int)),
        decreases values@.len() - i,
    {
        proof {
            assert(all.take(i + 1).drop_last() =~= all.take(i as int));
            assert(all.take(i + 1).last() == values@[i as int]@);
        }
        push_new(&mut terms, values[i].as_str());
        i += 1;
    }
    proof {
        assert(all.take(i as int) =~= all);
        lemma_each_once(all);
    }
    TermSet { terms }
}

/// The terms among tokens that say something.
pub open spec fn telling_terms(tokens: Seq<Seq<char>>) -> Seq<Seq<char>>
    decreases tokens.len(),
{
    if tokens.len() == 0 {
        Seq::empty()
    } else {
        let earlier = telling_terms(tokens.drop_last());
        if tokens.last().len() >= 2 && !case_terms::is_stop_term(tokens.last()) {
            earlier.push(tokens.last())
        } else {
            earlier
        }
    }
}

/// The terms that a text is matched by, each once, in the order of the text.
pub open spec fn terms_of(s: Seq<char>) -> Seq<Seq<char>> {
    let t = text::trimmed(s);
    each_once(
        telling_terms(
            case_terms::tokens_of(t) + case_terms::version_tokens(case_terms::versions_of(t)),
        ),
    )
}

/// The terms that a text is matched by.
pub fn retrieval_terms(s: &str) -> (r: TermSet)
    ensures
        r@ == terms_of(s@),
{
    let normalized = trim(s);
    let mut tokens = lexical_tokens(normalized);
    let ghost lexical = tokens@;
    let mut versions = version_search_tokens(normalized);
    let ghost more = versions@;
    tokens.append(&mut versions);
    let ghost all = text::strings(tokens@);
    assert(all =~= text::strings(lexical) + text::strings(more));
    let mut telling: Vec<String> = Vec::new();
    let mut i: usize = 0;
    assert(text::strings(telling@) =~= Seq::<Seq<char>>::empty());
    while i < tokens.len()
        invariant
            i <= tokens@.len(),
            all == text::strings(tokens@),
            text::strings(telling@) == telling_terms(all.take(i as int)),
        decreases tokens@.len() - i,
    {
        proof {
            assert(all.take(i + 1).drop_last() =~= all.take(i as int));
            assert(all.take(i + 1).last() == tokens@[i as int]@);
        }
        let t = tokens[i].as_str();
        if char_count(t) >= 2 && !is_search_stop_term(t) {
            let ghost before = telling@;
            let copy = t.to_owned();
            telling.push(copy);
            proof {
                text::lemma_strings_push(before, copy);
            }
        }
        i += 1;
    }
    assert(all.take(i as int) =~= all);
    set_of(&telling)
}

/// The specific ones of some terms.
pub open spec fn specific_terms(terms: Seq<Seq<char>>) -> Seq<Seq<char>>
    decreases terms.len(),
{
    if terms.len() == 0 {
        Seq::empty()
    } else if case_terms::is_specific(terms.last()) {
        specific_terms(terms.drop_last()).push(terms.last())
    } else {
        specific_terms(terms.drop_last())
    }
}

/// The terms of a query that results must share: its specific identifiers and
/// version numbers, where there are enough of them.
pub open spec fn required_terms(query: Seq<char>) -> Seq<Seq<char>> {
    let t = text::trimmed(query);
    let specific = specific_terms(
        case_terms::identifiers_of(case_terms::tokens_of(t)) + case_terms::compact_versions(
            case_terms::versions_of(t),
        ),
    );
    if specific.len() < MIN_ASCII_IDENTIFIER_QUERY_TERMS {
        Seq::empty()
    } else {
        each_once(specific)
    }
}

/// The terms of a query that results must share.
pub fn required_ascii_overlap_terms(query: &str) -> (r: TermSet)
    ensures
        r@ == required_terms(query@),
{
    let normalized = trim(query);
    let tokens = lexical_tokens(normalized);
    let mut terms = ascii_identifier_terms_from_tokens(&tokens);
    let ghost identifiers = terms@;
    let mut versions = compact_version_search_tokens(normalized);
    let ghost more = versions@;
    terms.append(&mut versions);
    let ghost all = text::strings(terms@);
    assert(all =~= text::strings(identifiers) + text::strings(more));
    let mut specific: Vec<String> = Vec::new();
    let mut i: usize = 0;
    assert(text::strings(specific@) =~= Seq::<Seq<char>>::empty());
    while i < terms.len()
        invariant
            i <= terms@.len(),
            all == text::strings(terms@),
            text::strings(specific@) == specific_terms(all.take(i as int)),
        decreases terms@.len() - i,
    {
        proof {
            assert(all.take(i + 1).drop_last() =~= all.take(i as int));
            assert(all.take(i + 1).last() == terms@[i as int]@);
        }
        let t = terms[i].as_str();
        if char_count(t) >= 5 || holds_digit(t) {
            let ghost before = specific@;
            let copy = t.to_owned();
            specific.push(copy);
            proof {
                text::lemma_strings_push(before, copy);
            }
        }
        i += 1;
    }
    assert(all.take(i as int) =~= all);
    if specific.len() < MIN_ASCII_IDENTIFIER_QUERY_TERMS {
        return TermSet::new();
    }
    set_of(&specific)
}

/// Whether a term may be misspelt and still count: three characters or more, not
/// all of them ASCII.
pub open spec fn is_fuzzy(t: Seq<char>) -> bool {
    t.len() >= 3 && !case_terms::is_stop_term(t) && exists|i: int|
        0 <= i < t.len() && !text::is_ascii_char(#[trigger] t[i])
}

fn is_fuzzy_retrieval_term(t: &str) -> (r: bool)
    ensures
        r == is_fuzzy(t@),
{
    let chars = to_chars(t);
    if chars.len() < 3 || is_search_stop_term(t) {
        return false;
    }
    let mut i: usize = 0;
    while i < chars.len()
        invariant
            i <= chars@.len(),
            chars@ == t@,
            t@.len() >= 3,
            !case_terms::is_stop_term(t@),
            forall|k: int| 0 <= k < i ==> text::is_ascii_char(#[trigger] t@[k]),
        decreases chars@.len() - i,
    {
        if char_code(chars[i]) >= 0x80 {
            assert(!text::is_ascii_char(t@[i as int]));
            return true;
        }
        i += 1;
    }
    false
}

/// Whether two terms agree at their ends: at both where they are of equal
/// length, else at one of them.
pub open spec fn share_boundary(a: Seq<char>, b: Seq<char>) -> bool {
    a.len() > 0 && b.len() > 0 && (if a.len() == b.len() {
        a[0] == b[0] && a.last() == b.last()
    } else {
        a[0] == b[0] || a.last() == b.last()
    })
}

fn fuzzy_terms_have_stable_boundary(a: &str, b: &str) -> (r: bool)
    ensures
        r == share_boundary(a@, b@),
{
    let a = to_chars(a);
    let b = to_chars(b);
    let m = a.len();
    let n = b.len();
    if m == 0 || n == 0 {
        return false;
    }
    if m == n {
        a[0] == b[0] && a[m - 1] == b[n - 1]
    } else {
        a[0] == b[0] || a[m - 1] == b[n - 1]
    }
}

/// Whether one character more is all that sets `longer` apart.
pub open spec fn lacks_one(shorter: Seq<char>, longer: Seq<char>) -> bool {
    exists|k: int| 0 <= k < longer.len() && #[trigger] longer.remove(k) == shorter
}

/// Whether at most one character is changed, added or left out between two
/// terms.
pub open spec fn within_one_edit(a: Seq<char>, b: Seq<char>) -> bool {
    ||| a == b
    ||| a.len() == b.len() && exists|k: int|
        0 <= k < a.len() && #[trigger] a.update(k, b[k]) == b
    ||| a.len() + 1 == b.len() && lacks_one(a, b)
    ||| b.len() + 1 == a.len() && lacks_one(b, a)
}

fn first_difference(a: &Vec<char>, b: &Vec<char>) -> (r: usize)
    ensures
        r <= a@.len(),
        r <= b@.len(),
        forall|i: int| 0 <= i < r ==> a@[i] == b@[i],
        r < a@.len() && r < b@.len() ==> a@[r as int] != b@[r as int],
{
    let mut i: usize = 0;
    while i < a.len() && i < b.len()
        invariant
            i <= a@.len(),
            i <= b@.len(),
            forall|k: int| 0 <= k < i ==> a@[k] == b@[k],
        decreases a@.len() - i,
    {
        if a[i] != b[i] {
            return i;
        }
        i += 1;
    }
    i
}

fn agree_from(a: &Vec<char>, i: usize, b: &Vec<char>, j: usize) -> (r: bool)
    requires
        i <= a@.len(),
        j <= b@.len(),
        a@.len() - i == b@.len() - j,
    ensures
        r == (a@.skip(i as int) == b@.skip(j as int)),
{
    let n = a.len();
    let m = b.len();
    let mut k: usize = 0;
    while k < n - i
        invariant
            k <= n - i,
            n == a@.len(),
            m == b@.len(),
            i <= n,
            j <= m,
            n - i == m - j,
            forall|q: int|
                0 <= q < k ==> #[trigger] a@.skip(i as int)[q] == b@.skip(j as int)[q],
        decreases n - k,
    {
        if a[i + k] != b[j + k] {
            assert(a@.skip(i as int)[k as int] != b@.skip(j as int)[k as int]);
            return false;
        }
        k += 1;
    }
    assert(a@.skip(i as int) =~= b@.skip(j as int));
    true
}

fn lacks_one_char(shorter: &Vec<char>, longer: &Vec<char>) -> (r: bool)
    requires
        shorter@.len() + 1 == longer@.len(),
    ensures
        r == lacks_one(shorter@, longer@),
{
    let p = first_difference(shorter, longer);
    let n = longer.len();
    let ghost s = shorter@;
    let ghost l = longer@;
    let r = agree_from(shorter, p, longer, p + 1);
    proof {
        if r {
            assert forall|i: int| p <= i < s.len() implies #[trigger] s[i] == l[i + 1] by {
                assert(s.skip(p as int)[i - p] == l.skip(p + 1)[i - p]);
            }
            assert(l.remove(p as int) =~= s);
        } else if lacks_one(s, l) {
            let k = choose|k: int| 0 <= k < l.len() && #[trigger] l.remove(k) == s;
            assert(p >= k) by {
                if p < k {
                    assert(l.remove(k)[p as int] == l[p as int]);
                }
            }
            assert forall|i: int| 0 <= i < s.len() - p implies #[trigger] s.skip(p as int)[i] == l.skip(
                p + 1,
            )[i] by {
                assert(l.remove(k)[i + p] == l[i + p + 1]);
            }
            assert(s.skip(p as int) =~= l.skip(p + 1));
            assert(false);
        }
    }
    r
}

/// Whether at most one character is changed, added or left out between two
/// terms.
pub fn edit_distance_at_most_one(a: &str, b: &str) -> (r: bool)
    ensures
        r == within_one_edit(a@, b@),
{
    if text_eq(a, b) {
        return true;
    }
    let left = to_chars(a);
    let right = to_chars(b);
    let m = left.len();
    let n = right.len();
    if m == n {
        let p = first_difference(&left, &right);
        proof {
            if p == m {
                assert(a@ =~= b@);
            }
        }
        let r = agree_from(&left, p + 1, &right, p + 1);
        proof {
            if r {
                assert forall|i: int| p < i < m implies a@[i] == b@[i] by {
                    assert(a@.skip(p + 1)[i - p - 1] == b@.skip(p + 1)[i - p - 1]);
                }
                assert(a@.update(p as int, b@[p as int]) =~= b@);
            } else if exists|k: int| 0 <= k < a@.len() && #[trigger] a@.update(k, b@[k]) == b@ {
                let k = choose|k: int| 0 <= k < a@.len() && #[trigger] a@.update(k, b@[k]) == b@;
                assert(p == k) by {
                    if p != k {
                        assert(a@.update(k, b@[k])[p as int] == a@[p as int]);
                    }
                }
                assert forall|i: int| 0 <= i < m - p - 1 implies #[trigger] a@.skip(p + 1)[i] == b@.skip(
                    p + 1,
                )[i] by {
                    assert(a@.update(k, b@[k])[i + p + 1] == a@[i + p + 1]);
                }
                assert(a@.skip(p + 1) =~= b@.skip(p + 1));
                assert(false);
            }
        }
        return r;
    }
    if m < n && n - m == 1 {
        return lacks_one_char(&left, &right);
    }
    if n < m && m - n == 1 {
        return lacks_one_char(&right, &left);
    }
    false
}

/// Whether two terms may be the same, one of them misspelt.
pub open spec fn alike(a: Seq<char>, b: Seq<char>) -> bool {
    is_fuzzy(a) && is_fuzzy(b) && share_boundary(a, b) && within_one_edit(a, b)
}

/// Whether a term is among candidates, or alike to one of them.
pub open spec fn is_matched(t: Seq<char>, candidates: Seq<Seq<char>>) -> bool {
    candidates.contains(t) || exists|i: int|
        0 <= i < candidates.len() && alike(t, #[trigger] candidates[i])
}

/// How many terms of a query are matched by candidates.
pub open spec fn matched_count(query: Seq<Seq<char>>, candidates: Seq<Seq<char>>) -> nat
    decreases query.len(),
{
    if query.len() == 0 {
        0
    } else {
        matched_count(query.drop_last(), candidates) + (if is_matched(query.last(), candidates) {
            1nat
        } else {
            0nat
        })
    }
}

/// How many terms of a query are among candidates.
pub open spec fn shared_count(query: Seq<Seq<char>>, candidates: Seq<Seq<char>>) -> nat
    decreases query.len(),
{
    if query.len() == 0 {
        0
    } else {
        shared_count(query.drop_last(), candidates) + (if candidates.contains(query.last()) {
            1nat
        } else {
            0nat
        })
    }
}

fn term_is_matched(t: &str, candidates: &TermSet) -> (r: bool)
    ensures
        r == is_matched(t@, candidates@),
{
    if candidates.contains(t) {
        return true;
    }
    if !is_fuzzy_retrieval_term(t) {
        return false;
    }
    let mut i: usize = 0;
    while i < candidates.terms.len()
        invariant
            i <= candidates.terms@.len(),
            candidates@ == text::strings(candidates.terms@),
            !candidates@.contains(t@),
            is_fuzzy(t@),
            forall|k: int| 0 <= k < i ==> !alike(t@, #[trigger] candidates@[k]),
        decreases candidates.terms@.len() - i,
    {
        let c = candidates.terms[i].as_str();
        if is_fuzzy_retrieval_term(c) && fuzzy_terms_have_stable_boundary(t, c)
            && edit_distance_at_most_one(t, c) {
            assert(alike(t@, candidates@[i as int]));
            return true;
        }
        assert(candidates@[i as int] == c@);
        i += 1;
    }
    false
}

/// How many terms of a query are matched by candidates, exactly or nearly.
pub fn retrieval_overlap_count(query: &TermSet, candidates: &TermSet) -> (r: usize)
    ensures
        r == matched_count(query@, candidates@),
{
    let ghost q = query@;
    let mut n: usize = 0;
    let mut i: usize = 0;
    while i < query.terms.len()
        invariant
            i <= query.terms@.len(),
            q == text::strings(query.terms@),
            n <= i,
            n == matched_count(q.take(i as int), candidates@),
        decreases query.terms@.len() - i,
    {
        proof {
            assert(q.take(i + 1).drop_last() =~= q.take(i as int));
            assert(q.take(i + 1).last() == query.terms@[i as int]@);
        }
        if term_is_matched(query.terms[i].as_str(), candidates) {
            n += 1;
        }
        i += 1;
    }
    assert(q.take(i as int) =~= q);
    n
}

fn shared_terms(query: &TermSet, candidates: &TermSet) -> (r: usize)
    ensures
        r == shared_count(query@, candidates@),
{
    let ghost q = query@;
    let mut n: usize = 0;
    let mut i: usize = 0;
    while i < query.terms.len()
        invariant
            i <= query.terms@.len(),
            q == text::strings(query.terms@),
            n <= i,
            n == shared_count(q.take(i as int), candidates@),
        decreases query.terms@.len() - i,
    {
        proof {
            assert(q.take(i + 1).drop_last() =~= q.take(i as int));
            assert(q.take(i + 1).last() == query.terms@[i as int]@);
        }
        if candidates.contains(query.terms[i].as_str()) {
            n += 1;
        }
        i += 1;
    }
    assert(q.take(i as int) =~= q);
    n
}

/// How many of the required terms a result must share.
pub open spec fn required_share(count: nat) -> nat {
    if count < MIN_ASCII_IDENTIFIER_OVERLAP_TERMS {
        count
    } else {
        MIN_ASCII_IDENTIFIER_OVERLAP_TERMS as nat
    }
}

/// Whether a text has enough in common with a query: enough of the required
/// terms where there are any, else enough of all terms.
pub open spec fn overlaps(
    query: Seq<Seq<char>>,
    required: Seq<Seq<char>>,
    candidate: Seq<char>,
) -> bool {
    if required.len() > 0 {
        shared_count(required, terms_of(candidate)) >= required_share(required.len())
    } else if query.len() <= MIN_GENERAL_QUERY_OVERLAP_TERMS {
        matched_count(query, terms_of(candidate)) > 0
    } else {
        matched_count(query, terms_of(candidate)) >= MIN_GENERAL_QUERY_OVERLAP_TERMS
    }
}

/// Whether a text has enough in common with a query.
pub fn has_retrieval_overlap(query: &TermSet, required: &TermSet, candidate: &str) -> (r: bool)
    ensures
        r == overlaps(query@, required@, candidate@),
{
    let terms = retrieval_terms(candidate);
    let demanded = required.len();
    if demanded > 0 {
        let needed = if demanded < MIN_ASCII_IDENTIFIER_OVERLAP_TERMS {
            demanded
        } else {
            MIN_ASCII_IDENTIFIER_OVERLAP_TERMS
        };
        return shared_terms(required, &terms) >= needed;
    }
    let overlap = retrieval_overlap_count(query, &terms);
    if query.len() <= MIN_GENERAL_QUERY_OVERLAP_TERMS {
        overlap > 0
    } else {
        overlap >= MIN_GENERAL_QUERY_OVERLAP_TERMS
    }
}

/// Whether a term tells much by itself.
pub open spec fn is_distinctive(t: Seq<char>) -> bool {
    case_terms::is_identifier(t) || t.len() >= 3
}

/// Whether a text shares a term with a query that tells much by itself.
pub open spec fn shares_distinctive(query: Seq<Seq<char>>, candidate: Seq<char>) -> bool {
    exists|i: int|
        0 <= i < terms_of(candidate).len() && query.contains(#[trigger] terms_of(candidate)[i])
            && is_distinctive(terms_of(candidate)[i])
}

/// Whether a result that scores near the best one may stay for a single term
/// that tells much, where the query demands no terms.
pub fn has_high_confidence_distinctive_overlap(
    query: &TermSet,
    required: &TermSet,
    candidate: &str,
    near_best: bool,
) -> (r: bool)
    ensures
        r == (required@.len() == 0 && near_best && shares_distinctive(query@, candidate@)),
{
    if required.len() > 0 || !near_best {
        return false;
    }
    let terms = retrieval_terms(candidate);
    let mut i: usize = 0;
    while i < terms.terms.len()
        invariant
            i <= terms.terms@.len(),
            terms@ == text::strings(terms.terms@),
            terms@ == terms_of(candidate@),
            required@.len() == 0,
            near_best,
            forall|k: int|
                0 <= k < i ==> !(query@.contains(#[trigger] terms@[k]) && is_distinctive(
                    terms@[k],
                )),
        decreases terms.terms@.len() - i,
    {
        let t = terms.terms[i].as_str();
        assert(terms@[i as int] == t@);
        if query.contains(t) && (is_ascii_identifier_term(t) || char_count(t) >= 3) {
            return true;
        }
        i += 1;
    }
    false
}

proof fn lemma_prefix_count(query: Seq<Seq<char>>, candidates: Seq<Seq<char>>)
    ensures
        shared_count(query, candidates) <= matched_count(query, candidates) <= query.len(),
    decreases query.len(),
{
    if query.len() > 0 {
        lemma_prefix_count(query.drop_last(), candidates);
    }
}

/// Terms that are shared are also matched, and no more terms are matched than
/// the query has.
pub proof fn shared_terms_are_matched(query: Seq<Seq<char>>, candidates: Seq<Seq<char>>)
    ensures
        shared_count(query, candidates) <= matched_count(query, candidates) <= query.len(),
{
    lemma_prefix_count(query, candidates);
}

proof fn lemma_all_shared(query: Seq<Seq<char>>, candidates: Seq<Seq<char>>)
    requires
        forall|i: int| 0 <= i < query.len() ==> candidates.contains(#[trigger] query[i]),
    ensures
        shared_count(query, candidates) == query.len(),
        matched_count(query, candidates) == query.len(),
    decreases query.len(),
{
    if query.len() > 0 {
        let t = query.drop_last();
        assert forall|i: int| 0 <= i < t.len() implies candidates.contains(#[trigger] t[i]) by {
            assert(t[i] == query[i]);
        }
        lemma_all_shared(t, candidates);
        assert(candidates.contains(query[query.len() - 1]));
    }
}

/// A text always has enough in common with itself: a query finds its own text,
/// as long as it has terms and demands none but its own.
pub proof fn texts_overlap_themselves(s: Seq<char>, required: Seq<Seq<char>>)
    requires
        terms_of(s).len() > 0,
        forall|i: int| 0 <= i < required.len() ==> terms_of(s).contains(#[trigger] required[i]),
    ensures
        overlaps(terms_of(s), required, s),
{
    let terms = terms_of(s);
    assert forall|i: int| 0 <= i < terms.len() implies terms.contains(#[trigger] terms[i]) by {}
    lemma_all_shared(terms, terms);
    lemma_all_shared(required, terms);
}

/// Alikeness goes both ways.
pub proof fn being_alike_is_mutual(a: Seq<char>, b: Seq<char>)
    ensures
        alike(a, b) == alike(b, a),
{
    if within_one_edit(a, b) {
        lemma_edit_is_mutual(a, b);
    }
    if within_one_edit(b, a) {
        lemma_edit_is_mutual(b, a);
    }
}

proof fn lemma_edit_is_mutual(a: Seq<char>, b: Seq<char>)
    requires
        within_one_edit(a, b),
    ensures
        within_one_edit(b, a),
{
    if a != b && a.len() == b.len() {
        let k = choose|k: int| 0 <= k < a.len() && #[trigger] a.update(k, b[k]) == b;
        assert forall|i: int| 0 <= i < a.len() && i != k implies a[i] == b[i] by {
            assert(a.update(k, b[k])[i] == a[i]);
        }
        assert(b.update(k, a[k]) =~= a);
    }
}

} // verus!
