//! The terms that texts are indexed and searched by.

use vstd::prelude::*;
use vstd::string::*;

use crate::scan;
use crate::scan::{char_count, split_pieces};
use crate::text;
use crate::text::{
    char_code, holds_text, join_texts, lemma_strings_push, text_eq, to_chars, trim,
};

verus! {

pub const VERSION_SEARCH_TOKEN_WEIGHT: usize = 2;

pub const MIN_GENERAL_QUERY_OVERLAP_TERMS: usize = 2;

pub const MIN_ASCII_IDENTIFIER_QUERY_TERMS: usize = 2;

pub const MIN_ASCII_IDENTIFIER_OVERLAP_TERMS: usize = 2;

/// How many candidates are recalled at least.
pub const RAGFLOW_STYLE_RECALL_TOP_K: usize = 1024;

/// How many candidates are recalled for a number of results.
pub fn document_recall_candidate_top_k(top_k: usize) -> (r: usize)
    ensures
        r == (if top_k >= RAGFLOW_STYLE_RECALL_TOP_K {
            top_k
        } else {
            RAGFLOW_STYLE_RECALL_TOP_K
        }),
{
    if top_k >= RAGFLOW_STYLE_RECALL_TOP_K {
        top_k
    } else {
        RAGFLOW_STYLE_RECALL_TOP_K
    }
}

/// Whether a character is an ASCII letter or digit.
pub open spec fn ascii_alnum(c: char) -> bool {
    text::ascii_letter(c) || text::ascii_digit(c)
}

fn is_ascii_digit(c: char) -> (r: bool)
    ensures
        r == text::ascii_digit(c),
{
    let n = char_code(c);
    0x30 <= n && n <= 0x39
}

fn is_ascii_letter(c: char) -> (r: bool)
    ensures
        r == text::ascii_letter(c),
{
    let n = char_code(c);
    (0x41 <= n && n <= 0x5a) || (0x61 <= n && n <= 0x7a)
}

/// Whether a character belongs to a run of ASCII.
pub open spec fn in_run(c: char) -> bool {
    ascii_alnum(c) || c == '_' || c == '-'
}

/// What is read of a text so far: the tokens that are complete, the segment that
/// may go on, and the run of ASCII that it ends in.
pub struct LexState {
    pub tokens: Seq<Seq<char>>,
    pub segment: Seq<Seq<char>>,
    pub run: Seq<char>,
}

/// What a run of ASCII is read as: hyphens between its parts are left out.
pub open spec fn run_token(run: Seq<char>) -> Seq<char> {
    let parts = scan::pieces_of(run, seq!['-']);
    if parts.len() <= 1 {
        run
    } else {
        text::joined(parts, ""@)
    }
}

pub open spec fn run_ended(st: LexState) -> LexState {
    if st.run.len() == 0 {
        st
    } else {
        LexState { segment: st.segment.push(run_token(st.run)), run: Seq::empty(), ..st }
    }
}

/// Each two neighbours of a segment as one token.
pub open spec fn pairs(segment: Seq<Seq<char>>) -> Seq<Seq<char>> {
    if segment.len() < 2 {
        Seq::empty()
    } else {
        Seq::new((segment.len() - 1) as nat, |i: int| segment[i] + segment[i + 1])
    }
}

/// Each three neighbours of a segment as one token.
pub open spec fn triples(segment: Seq<Seq<char>>) -> Seq<Seq<char>> {
    if segment.len() < 3 {
        Seq::empty()
    } else {
        Seq::new(
            (segment.len() - 2) as nat,
            |i: int| segment[i] + segment[i + 1] + segment[i + 2],
        )
    }
}

pub open spec fn segment_ended(st: LexState) -> LexState {
    LexState {
        tokens: st.tokens + st.segment + pairs(st.segment) + triples(st.segment),
        segment: Seq::empty(),
        ..st
    }
}

/// What is read after one more character.
pub open spec fn after_char(st: LexState, c: char) -> LexState {
    if in_run(c) {
        LexState { run: st.run.push(text::ascii_lowered(c)), ..st }
    } else {
        let ended = run_ended(st);
        if text::char_alphanumeric(c) {
            LexState { segment: ended.segment.push(seq![c]), ..ended }
        } else {
            segment_ended(ended)
        }
    }
}

pub open spec fn lex_state(s: Seq<char>) -> LexState
    decreases s.len(),
{
    if s.len() == 0 {
        LexState { tokens: Seq::empty(), segment: Seq::empty(), run: Seq::empty() }
    } else {
        after_char(lex_state(s.drop_last()), s.last())
    }
}

/// The tokens of a text. ASCII is read in lower-case runs, and every other
/// letter by itself; what stands together is also read in pairs and triples.
pub open spec fn tokens_of(s: Seq<char>) -> Seq<Seq<char>> {
    segment_ended(run_ended(lex_state(s))).tokens
}

fn hyphen() -> (r: Vec<char>)
    ensures
        r@ == seq!['-'],
{
    let mut set: Vec<char> = Vec::new();
    set.push('-');
    set
}

fn end_run(run: &str, segment: &mut Vec<String>)
    ensures
        text::strings(final(segment)@) == (if run@.len() == 0 {
            text::strings(old(segment)@)
        } else {
            text::strings(old(segment)@).push(run_token(run@))
        }),
{
    if run.is_empty() {
        return;
    }
    let parts = split_pieces(run, &hyphen());
    let token = if parts.len() <= 1 {
        run.to_owned()
    } else {
        join_texts(&parts, "")
    };
    let ghost before = segment@;
    segment.push(token);
    proof {
        lemma_strings_push(before, token);
    }
}

fn end_segment(segment: &Vec<String>, tokens: &mut Vec<String>)
    ensures
        text::strings(final(tokens)@) == text::strings(old(tokens)@) + text::strings(segment@)
            + pairs(text::strings(segment@)) + triples(text::strings(segment@)),
{
    let ghost first = text::strings(tokens@);
    let ghost seg = text::strings(segment@);
    let n = segment.len();
    let mut i: usize = 0;
    assert(first + seg.take(0) =~= first);
    while i < n
        invariant
            i <= n,
            n == segment@.len(),
            seg == text::strings(segment@),
            text::strings(tokens@) == first + seg.take(i as int),
        decreases n - i,
    {
        let ghost before = tokens@;
        let copy = segment[i].clone();
        tokens.push(copy);
        proof {
            lemma_strings_push(before, copy);
            assert(first + seg.take(i + 1) =~= (first + seg.take(i as int)).push(copy@));
        }
        i += 1;
    }
    assert(seg.take(i as int) =~= seg);
    let ghost second = first + seg;
    i = 0;
    assert(second + pairs(seg).take(0) =~= second);
    while n >= 2 && i < n - 1
        invariant
            n == segment@.len(),
            n < 2 ==> i == 0,
            n >= 2 ==> i <= n - 1,
            seg == text::strings(segment@),
            text::strings(tokens@) == second + pairs(seg).take(i as int),
        decreases n - i,
    {
        let ghost before = tokens@;
        let mut token = segment[i].clone();
        token.append(segment[i + 1].as_str());
        tokens.push(token);
        proof {
            lemma_strings_push(before, token);
            assert(token@ == pairs(seg)[i as int]);
            assert(second + pairs(seg).take(i + 1) =~= (second + pairs(seg).take(i as int)).push(
                token@,
            ));
        }
        i += 1;
    }
    assert(pairs(seg).take(i as int) =~= pairs(seg));
    let ghost third = second + pairs(seg);
    i = 0;
    assert(third + triples(seg).take(0) =~= third);
    while n >= 3 && i < n - 2
        invariant
            n == segment@.len(),
            n < 3 ==> i == 0,
            n >= 3 ==> i <= n - 2,
            seg == text::strings(segment@),
            text::strings(tokens@) == third + triples(seg).take(i as int),
        decreases n - i,
    {
        let ghost before = tokens@;
        let mut token = segment[i].clone();
        token.append(segment[i + 1].as_str());
        token.append(segment[i + 2].as_str());
        tokens.push(token);
        proof {
            lemma_strings_push(before, token);
            assert(token@ == triples(seg)[i as int]);
            assert(third + triples(seg).take(i + 1) =~= (third + triples(seg).take(
                i as int,
            )).push(token@));
        }
        i += 1;
    }
    assert(triples(seg).take(i as int) =~= triples(seg));
}

/// The tokens of a text.
pub fn lexical_tokens(s: &str) -> (r: Vec<String>)
    ensures
        text::strings(r@) == tokens_of(s@),
{
    let chars = to_chars(s);
    let mut tokens: Vec<String> = Vec::new();
    let mut segment: Vec<String> = Vec::new();
    let mut run = String::new();
    let mut i: usize = 0;
    proof {
        assert(text::strings(tokens@) =~= Seq::<Seq<char>>::empty());
        assert(text::strings(segment@) =~= Seq::<Seq<char>>::empty());
    }
    while i < chars.len()
        invariant
            i <= chars@.len(),
            lex_state(chars@.take(i as int)) == (LexState {
                tokens: text::strings(tokens@),
                segment: text::strings(segment@),
                run: run@,
            }),
        decreases chars@.len() - i,
    {
        assert(chars@.take(i + 1).drop_last() =~= chars@.take(i as int));
        let c = chars[i];
        if is_ascii_letter(c) || is_ascii_digit(c) || c == '_' || c == '-' {
            run.push(c.to_ascii_lowercase());
        } else {
            proof {
                if run@.len() == 0 {
                    assert(run@ =~= Seq::<char>::empty());
                }
            }
            end_run(run.as_str(), &mut segment);
            run = String::new();
            assert(run@ =~= Seq::<char>::empty());
            if c.is_alphanumeric() {
                let mut single = String::new();
                single.push(c);
                let ghost before = segment@;
                segment.push(single);
                proof {
                    lemma_strings_push(before, single);
                    assert(single@ =~= seq![c]);
                }
            } else {
                end_segment(&segment, &mut tokens);
                segment = Vec::new();
                assert(text::strings(segment@) =~= Seq::<Seq<char>>::empty());
            }
        }
        i += 1;
    }
    assert(chars@.take(i as int) =~= s@);
    end_run(run.as_str(), &mut segment);
    end_segment(&segment, &mut tokens);
    tokens
}

/// Values with one more, unless it is blank or there already or the limit is
/// reached.
pub open spec fn with_unique(values: Seq<Seq<char>>, value: Seq<char>, limit: nat) -> Seq<
    Seq<char>,
> {
    let t = text::trimmed(value);
    if t.len() == 0 || values.len() >= limit || values.contains(t) {
        values
    } else {
        values.push(t)
    }
}

pub fn push_unique_limited(values: &mut Vec<String>, value: &str, limit: usize)
    ensures
        text::strings(final(values)@) == with_unique(
            text::strings(old(values)@),
            value@,
            limit as nat,
        ),
{
    let t = trim(value);
    if t.is_empty() || values.len() >= limit {
        return;
    }
    if holds_text(values, t) {
        return;
    }
    let ghost before = values@;
    let copy = t.to_owned();
    values.push(copy);
    proof {
        lemma_strings_push(before, copy);
    }
}

/// Whether a character can stand in a version number.
pub open spec fn in_version(c: char) -> bool {
    text::ascii_digit(c) || c == '.' || c == '-' || c == '_'
}

pub open spec fn version_marks() -> Seq<char> {
    seq!['.', '-', '_']
}

/// The version number that a run is: two or more groups of digits.
pub open spec fn version_of(run: Seq<char>) -> Option<Seq<char>> {
    let groups = scan::pieces_of(run, version_marks());
    if groups.len() >= 2 && forall|i: int|
        0 <= i < groups.len() ==> text::all_digits(#[trigger] groups[i]) {
        Some(text::joined(groups, "."@))
    } else {
        None
    }
}

pub open spec fn with_version(terms: Seq<Seq<char>>, run: Seq<char>) -> Seq<Seq<char>> {
    match version_of(run) {
        Some(v) => with_unique(terms, v, usize::MAX as nat),
        None => terms,
    }
}

/// The version numbers that are complete, and the run that the text ends in.
pub open spec fn versions_state(s: Seq<char>) -> (Seq<Seq<char>>, Seq<char>)
    decreases s.len(),
{
    if s.len() == 0 {
        (Seq::empty(), Seq::empty())
    } else {
        let (terms, run) = versions_state(s.drop_last());
        if in_version(s.last()) {
            (terms, run.push(s.last()))
        } else {
            (with_version(terms, run), Seq::empty())
        }
    }
}

/// The version numbers of a text, each once.
pub open spec fn versions_of(s: Seq<char>) -> Seq<Seq<char>> {
    let (terms, run) = versions_state(s);
    with_version(terms, run)
}

fn marks() -> (r: Vec<char>)
    ensures
        r@ == version_marks(),
{
    let mut set: Vec<char> = Vec::new();
    set.push('.');
    set.push('-');
    set.push('_');
    set
}

fn is_digits(s: &str) -> (r: bool)
    ensures
        r == text::all_digits(s@),
{
    let chars = to_chars(s);
    let mut i: usize = 0;
    while i < chars.len()
        invariant
            i <= chars@.len(),
            chars@ == s@,
            forall|k: int| 0 <= k < i ==> text::ascii_digit(#[trigger] s@[k]),
        decreases chars@.len() - i,
    {
        if !is_ascii_digit(chars[i]) {
            assert(!text::ascii_digit(s@[i as int]));
            return false;
        }
        i += 1;
    }
    true
}

fn normalize_version_like_term(run: &str) -> (r: Option<String>)
    ensures
        crate::json::opt_string(r) == version_of(run@),
{
    let groups = split_pieces(run, &marks());
    let ghost all = text::strings(groups@);
    if groups.len() < 2 {
        return None;
    }
    let mut i: usize = 0;
    while i < groups.len()
        invariant
            i <= groups@.len(),
            all == text::strings(groups@),
            all == scan::pieces_of(run@, version_marks()),
            forall|k: int| 0 <= k < i ==> text::all_digits(#[trigger] all[k]),
        decreases groups@.len() - i,
    {
        if !is_digits(groups[i].as_str()) {
            assert(!text::all_digits(all[i as int]));
            return None;
        }
        assert(all[i as int] == groups@[i as int]@);
        i += 1;
    }
    Some(join_texts(&groups, "."))
}

fn push_version_like_term(terms: &mut Vec<String>, run: &str)
    ensures
        text::strings(final(terms)@) == with_version(text::strings(old(terms)@), run@),
{
    match normalize_version_like_term(run) {
        Some(v) => push_unique_limited(terms, v.as_str(), usize::MAX),
        None => {},
    }
}

/// The version numbers of a text, each once.
pub fn version_like_terms(s: &str) -> (r: Vec<String>)
    ensures
        text::strings(r@) == versions_of(s@),
{
    let chars = to_chars(s);
    let mut terms: Vec<String> = Vec::new();
    let mut run = String::new();
    let mut i: usize = 0;
    assert(text::strings(terms@) =~= Seq::<Seq<char>>::empty());
    while i < chars.len()
        invariant
            i <= chars@.len(),
            versions_state(chars@.take(i as int)) == (text::strings(terms@), run@),
        decreases chars@.len() - i,
    {
        assert(chars@.take(i + 1).drop_last() =~= chars@.take(i as int));
        let c = chars[i];
        if is_ascii_digit(c) || c == '.' || c == '-' || c == '_' {
            run.push(c);
        } else {
            push_version_like_term(&mut terms, run.as_str());
            run = String::new();
            assert(run@ =~= Seq::<char>::empty());
        }
        i += 1;
    }
    assert(chars@.take(i as int) =~= s@);
    push_version_like_term(&mut terms, run.as_str());
    terms
}

/// The digits of a text.
pub open spec fn digits_of(s: Seq<char>) -> Seq<char>
    decreases s.len(),
{
    if s.len() == 0 {
        Seq::empty()
    } else if text::ascii_digit(s.last()) {
        digits_of(s.drop_last()).push(s.last())
    } else {
        digits_of(s.drop_last())
    }
}

/// A version number written together.
pub open spec fn compact_version(version: Seq<char>) -> Option<Seq<char>> {
    if digits_of(version).len() >= 2 {
        Some(digits_of(version))
    } else {
        None
    }
}

fn compact_version_search_token(version: &str) -> (r: Option<String>)
    ensures
        crate::json::opt_string(r) == compact_version(version@),
{
    let chars = to_chars(version);
    let mut compact = String::new();
    let mut n: usize = 0;
    let mut i: usize = 0;
    while i < chars.len()
        invariant
            i <= chars@.len(),
            n <= i,
            n == compact@.len(),
            compact@ == digits_of(chars@.take(i as int)),
        decreases chars@.len() - i,
    {
        assert(chars@.take(i + 1).drop_last() =~= chars@.take(i as int));
        if is_ascii_digit(chars[i]) {
            compact.push(chars[i]);
            n += 1;
        }
        i += 1;
    }
    assert(chars@.take(i as int) =~= version@);
    if n >= 2 {
        Some(compact)
    } else {
        None
    }
}

/// Each version number as it is and written together.
pub open spec fn version_tokens(versions: Seq<Seq<char>>) -> Seq<Seq<char>>
    decreases versions.len(),
{
    if versions.len() == 0 {
        Seq::empty()
    } else {
        let with_it = with_unique(
            version_tokens(versions.drop_last()),
            versions.last(),
            usize::MAX as nat,
        );
        match compact_version(versions.last()) {
            Some(c) => with_unique(with_it, c, usize::MAX as nat),
            None => with_it,
        }
    }
}

pub fn version_search_tokens(s: &str) -> (r: Vec<String>)
    ensures
        text::strings(r@) == version_tokens(versions_of(s@)),
{
    let versions = version_like_terms(s);
    let ghost all = text::strings(versions@);
    let mut tokens: Vec<String> = Vec::new();
    let mut i: usize = 0;
    assert(text::strings(tokens@) =~= Seq::<Seq<char>>::empty());
    while i < versions.len()
        invariant
            i <= versions@.len(),
            all == text::strings(versions@),
            text::strings(tokens@) == version_tokens(all.take(i as int)),
        decreases versions@.len() - i,
    {
        proof {
            assert(all.take(i + 1).drop_last() =~= all.take(i as int));
            assert(all.take(i + 1).last() == versions@[i as int]@);
        }
        push_unique_limited(&mut tokens, versions[i].as_str(), usize::MAX);
        match compact_version_search_token(versions[i].as_str()) {
            Some(c) => push_unique_limited(&mut tokens, c.as_str(), usize::MAX),
            None => {},
        }
        i += 1;
    }
    assert(all.take(i as int) =~= all);
    tokens
}

/// Version numbers written together, one for each that can be.
pub open spec fn compact_versions(versions: Seq<Seq<char>>) -> Seq<Seq<char>>
    decreases versions.len(),
{
    if versions.len() == 0 {
        Seq::empty()
    } else {
        let earlier = compact_versions(versions.drop_last());
        match compact_version(versions.last()) {
            Some(c) => earlier.push(c),
            None => earlier,
        }
    }
}

pub fn compact_version_search_tokens(s: &str) -> (r: Vec<String>)
    ensures
        text::strings(r@) == compact_versions(versions_of(s@)),
{
    let versions = version_like_terms(s);
    let ghost all = text::strings(versions@);
    let mut tokens: Vec<String> = Vec::new();
    let mut i: usize = 0;
    assert(text::strings(tokens@) =~= Seq::<Seq<char>>::empty());
    while i < versions.len()
        invariant
            i <= versions@.len(),
            all == text::strings(versions@),
            text::strings(tokens@) == compact_versions(all.take(i as int)),
        decreases versions@.len() - i,
    {
        proof {
            assert(all.take(i + 1).drop_last() =~= all.take(i as int));
            assert(all.take(i + 1).last() == versions@[i as int]@);
        }
        match compact_version_search_token(versions[i].as_str()) {
            Some(c) => {
                let ghost before = tokens@;
                tokens.push(c);
                proof {
                    lemma_strings_push(before, c);
                }
            },
            None => {},
        }
        i += 1;
    }
    assert(all.take(i as int) =~= all);
    tokens
}

/// Whether a term says too little to be searched for.
pub open spec fn is_stop_term(t: Seq<char>) -> bool {
    t == "为什么"@ || t == "怎么办"@ || t == "怎么"@ || t == "什么"@ || t == "哪些"@ || t
        == "可能"@ || t == "原因"@ || t == "问题"@ || t == "处理"@ || t == "修复"@ || t
        == "排查"@ || t == "故障"@ || t == "异常"@ || t == "业务"@ || t == "系统"@ || t
        == "一直"@ || t == "失败"@
}

pub fn is_search_stop_term(t: &str) -> (r: bool)
    ensures
        r == is_stop_term(t@),
{
    text_eq(t, "为什么") || text_eq(t, "怎么办") || text_eq(t, "怎么") || text_eq(t, "什么")
        || text_eq(t, "哪些") || text_eq(t, "可能") || text_eq(t, "原因") || text_eq(t, "问题")
        || text_eq(t, "处理") || text_eq(t, "修复") || text_eq(t, "排查") || text_eq(t, "故障")
        || text_eq(t, "异常") || text_eq(t, "业务") || text_eq(t, "系统") || text_eq(t, "一直")
        || text_eq(t, "失败")
}

pub open spec fn has_digit(t: Seq<char>) -> bool {
    exists|i: int| 0 <= i < t.len() && text::ascii_digit(#[trigger] t[i])
}

pub open spec fn has_letter(t: Seq<char>) -> bool {
    exists|i: int| 0 <= i < t.len() && text::ascii_letter(#[trigger] t[i])
}

pub open spec fn in_identifier(c: char) -> bool {
    ascii_alnum(c) || c == '_'
}

/// Whether a term is an identifier: ASCII letters, digits and underscores with
/// at least one letter.
pub open spec fn is_identifier(t: Seq<char>) -> bool {
    has_letter(t) && forall|i: int| 0 <= i < t.len() ==> in_identifier(#[trigger] t[i])
}

pub fn holds_digit(t: &str) -> (r: bool)
    ensures
        r == has_digit(t@),
{
    let chars = to_chars(t);
    let mut i: usize = 0;
    while i < chars.len()
        invariant
            i <= chars@.len(),
            chars@ == t@,
            forall|k: int| 0 <= k < i ==> !text::ascii_digit(#[trigger] t@[k]),
        decreases chars@.len() - i,
    {
        if is_ascii_digit(chars[i]) {
            assert(text::ascii_digit(t@[i as int]));
            return true;
        }
        i += 1;
    }
    false
}

pub fn is_ascii_identifier_term(t: &str) -> (r: bool)
    ensures
        r == is_identifier(t@),
{
    let chars = to_chars(t);
    let mut letter = false;
    let mut i: usize = 0;
    while i < chars.len()
        invariant
            i <= chars@.len(),
            chars@ == t@,
            forall|k: int| 0 <= k < i ==> in_identifier(#[trigger] t@[k]),
            letter == exists|k: int| 0 <= k < i && text::ascii_letter(#[trigger] t@[k]),
        decreases chars@.len() - i,
    {
        let c = chars[i];
        assert(t@[i as int] == c);
        if is_ascii_letter(c) {
            letter = true;
        } else if !(is_ascii_digit(c) || c == '_') {
            assert(!in_identifier(t@[i as int]));
            return false;
        }
        i += 1;
    }
    letter
}

/// Whether a term is long or odd enough to be searched for by itself.
pub open spec fn is_search_identifier(t: Seq<char>) -> bool {
    is_identifier(t) && !is_stop_term(t) && (t.len() >= 3 || has_digit(t))
}

/// Whether a term is specific enough to be demanded of a result.
pub open spec fn is_specific(t: Seq<char>) -> bool {
    t.len() >= 5 || has_digit(t)
}

/// Texts with one more, unless it is there already.
pub open spec fn with_new(values: Seq<Seq<char>>, value: Seq<char>) -> Seq<Seq<char>> {
    if values.contains(value) {
        values
    } else {
        values.push(value)
    }
}

/// The identifiers among tokens, each once.
pub open spec fn identifiers_of(tokens: Seq<Seq<char>>) -> Seq<Seq<char>>
    decreases tokens.len(),
{
    if tokens.len() == 0 {
        Seq::empty()
    } else {
        let earlier = identifiers_of(tokens.drop_last());
        if is_search_identifier(tokens.last()) {
            with_new(earlier, tokens.last())
        } else {
            earlier
        }
    }
}

pub fn push_new(values: &mut Vec<String>, value: &str)
    ensures
        text::strings(final(values)@) == with_new(text::strings(old(values)@), value@),
{
    if !holds_text(values, value) {
        let ghost before = values@;
        let copy = value.to_owned();
        values.push(copy);
        proof {
            lemma_strings_push(before, copy);
        }
    }
}

pub fn ascii_identifier_terms_from_tokens(tokens: &Vec<String>) -> (r: Vec<String>)
    ensures
        text::strings(r@) == identifiers_of(text::strings(tokens@)),
{
    let ghost all = text::strings(tokens@);
    let mut r: Vec<String> = Vec::new();
    let mut i: usize = 0;
    assert(text::strings(r@) =~= Seq::<Seq<char>>::empty());
    while i < tokens.len()
        invariant
            i <= tokens@.len(),
            all == text::strings(tokens@),
            text::strings(r@) == identifiers_of(all.take(i as int)),
        decreases tokens@.len() - i,
    {
        proof {
            assert(all.take(i + 1).drop_last() =~= all.take(i as int));
            assert(all.take(i + 1).last() == tokens@[i as int]@);
        }
        let t = tokens[i].as_str();
        if is_ascii_identifier_term(t) && !is_search_stop_term(t) && (char_count(t) >= 3
            || holds_digit(t)) {
            push_new(&mut r, t);
        }
        i += 1;
    }
    assert(all.take(i as int) =~= all);
    r
}

/// The tokens that a text is indexed by: version numbers count more.
pub open spec fn index_tokens(s: Seq<char>) -> Seq<Seq<char>> {
    let versions = version_tokens(versions_of(s));
    tokens_of(s) + versions + versions
}

pub open spec fn tokens_text(s: Seq<char>, tokens: Seq<Seq<char>>) -> Seq<char> {
    if tokens.len() == 0 {
        text::trimmed(s)
    } else {
        text::joined(tokens, " "@)
    }
}

/// What a text is indexed as.
pub open spec fn index_text(s: Seq<char>) -> Seq<char> {
    let t = text::trimmed(s);
    tokens_text(t, index_tokens(t))
}

/// What a query is searched as: by its identifiers alone where it has enough of
/// them and names no version.
pub open spec fn query_text(s: Seq<char>) -> Seq<char> {
    let t = text::trimmed(s);
    let identifiers = identifiers_of(index_tokens(t));
    if versions_of(t).len() == 0 && identifiers.len() >= MIN_ASCII_IDENTIFIER_QUERY_TERMS {
        text::joined(identifiers, " "@)
    } else {
        tokens_text(t, index_tokens(t))
    }
}

fn weighted_tokens(s: &str) -> (r: Vec<String>)
    ensures
        text::strings(r@) == index_tokens(s@),
{
    let mut tokens = lexical_tokens(s);
    let ghost lexical = tokens@;
    let mut first = version_search_tokens(s);
    let mut second = version_search_tokens(s);
    let ghost versions = first@;
    let ghost again = second@;
    tokens.append(&mut first);
    tokens.append(&mut second);
    assert(text::strings(tokens@) =~= text::strings(lexical) + text::strings(versions)
        + text::strings(again));
    tokens
}

fn search_text_from_tokens(normalized: &str, tokens: &Vec<String>) -> (r: String)
    ensures
        r@ == tokens_text(normalized@, text::strings(tokens@)),
{
    if tokens.len() == 0 {
        trim(normalized).to_owned()
    } else {
        join_texts(tokens, " ")
    }
}

/// What a text is indexed as.
pub fn build_search_index_text(s: &str) -> (r: String)
    ensures
        r@ == index_text(s@),
{
    let normalized = trim(s);
    let tokens = weighted_tokens(normalized);
    search_text_from_tokens(normalized, &tokens)
}

/// What a query is searched as.
pub fn build_search_query_text(s: &str) -> (r: String)
    ensures
        r@ == query_text(s@),
{
    let normalized = trim(s);
    let tokens = weighted_tokens(normalized);
    let versions = version_like_terms(normalized);
    let identifiers = ascii_identifier_terms_from_tokens(&tokens);
    if versions.len() == 0 && identifiers.len() >= MIN_ASCII_IDENTIFIER_QUERY_TERMS {
        join_texts(&identifiers, " ")
    } else {
        search_text_from_tokens(normalized, &tokens)
    }
}

} // verus!
