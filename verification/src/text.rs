//! Text as sequences of characters: the few facts taken from the standard
//! library, and the string operations the rest of the crate is built on.

use vstd::prelude::*;
use vstd::string::*;
use vstd::utf8::*;

verus! {

/// The characters with the Unicode property White_Space.
pub open spec fn char_whitespace(c: char) -> bool {
    ascii_space(c) || c == '\u{85}' || c == '\u{a0}' || c == '\u{1680}' || '\u{2000}' <= c
        <= '\u{200a}' || c == '\u{2028}' || c == '\u{2029}' || c == '\u{202f}' || c
        == '\u{205f}' || c == '\u{3000}'
}

/// What `char::is_alphanumeric` answers.
pub uninterp spec fn char_alphanumeric(c: char) -> bool;

/// What `str::to_lowercase` gives for a text.
pub uninterp spec fn lowercase_text(s: Seq<char>) -> Seq<char>;

pub open spec fn ascii_space(c: char) -> bool {
    '\u{9}' <= c <= '\u{d}' || c == ' '
}

pub open spec fn ascii_digit(c: char) -> bool {
    '0' <= c <= '9'
}

pub open spec fn ascii_upper(c: char) -> bool {
    'A' <= c <= 'Z'
}

pub open spec fn ascii_lower(c: char) -> bool {
    'a' <= c <= 'z'
}

pub open spec fn ascii_letter(c: char) -> bool {
    ascii_upper(c) || ascii_lower(c)
}

pub open spec fn is_ascii_char(c: char) -> bool {
    c < '\u{80}'
}

/// The lower-case form of an ASCII capital; any other character is itself.
pub open spec fn ascii_lowered(c: char) -> char {
    if ascii_upper(c) {
        ((c as u32) + 32) as char
    } else {
        c
    }
}

/// `char::is_whitespace` tells whether a character has the Unicode property
/// White_Space. The Unicode Character Database lists the 25 that do.
pub assume_specification[ char::is_whitespace ](c: char) -> (r: bool)
    ensures
        r == char_whitespace(c),
;

/// `char::is_alphanumeric` is the Unicode property Alphabetic or a numeric
/// general category. It is kept as a name, with its ASCII part spelled out.
pub assume_specification[ char::is_alphanumeric ](c: char) -> (r: bool)
    ensures
        r == char_alphanumeric(c),
        is_ascii_char(c) ==> r == (ascii_letter(c) || ascii_digit(c)),
;

/// `str::to_lowercase` maps a text by the Unicode lower-case rules. It is kept
/// as a name; on an ASCII text it lowers the capitals and keeps the rest.
pub assume_specification[ str::to_lowercase ](s: &str) -> (r: String)
    ensures
        r@ == lowercase_text(s@),
        is_ascii_chars(s@) ==> r@ == s@.map_values(|c: char| ascii_lowered(c)),
;

/// `String::push` appends one character.
pub assume_specification[ String::push ](s: &mut String, c: char)
    ensures
        final(s)@ == old(s)@.push(c),
;

/// The characters of a text.
pub fn to_chars(s: &str) -> (r: Vec<char>)
    ensures
        r@ == s@,
{
    let mut r: Vec<char> = Vec::new();
    for c in it: s.chars()
        invariant
            it.seq() == s@,
            r@ == s@.take(it.index() as int),
    {
        r.push(c);
        assert(r@ =~= s@.take(it.index() + 1));
    }
    assert(s@.take(s@.len() as int) =~= s@);
    r
}

/// The text of the characters from `from` up to `to`.
pub fn from_chars(chars: &Vec<char>, from: usize, to: usize) -> (r: String)
    requires
        from <= to <= chars@.len(),
    ensures
        r@ == chars@.subrange(from as int, to as int),
{
    let mut r = String::new();
    let mut i: usize = from;
    while i < to
        invariant
            from <= i <= to <= chars@.len(),
            r@ == chars@.subrange(from as int, i as int),
        decreases to - i,
    {
        r.push(chars[i]);
        i += 1;
        assert(r@ =~= chars@.subrange(from as int, i as int));
    }
    r
}

/// Equality of two texts.
pub fn text_eq(a: &str, b: &str) -> (r: bool)
    ensures
        r == (a@ == b@),
{
    let x = a.as_bytes();
    let y = b.as_bytes();
    proof {
        encode_utf8_decode_utf8(a@);
        encode_utf8_decode_utf8(b@);
    }
    if x.len() != y.len() {
        return false;
    }
    let mut i: usize = 0;
    while i < x.len()
        invariant
            x@.len() == y@.len(),
            i <= x@.len(),
            x@.take(i as int) == y@.take(i as int),
            x@ == encode_utf8(a@),
            y@ == encode_utf8(b@),
        decreases x@.len() - i,
    {
        if x[i] != y[i] {
            assert(x@[i as int] != y@[i as int]);
            return false;
        }
        i += 1;
        assert(x@.take(i as int) =~= y@.take(i as int));
    }
    assert(x@ =~= x@.take(i as int));
    assert(y@ =~= y@.take(i as int));
    true
}

/// The text without the whitespace at its start.
pub open spec fn trim_start(s: Seq<char>) -> Seq<char>
    decreases s.len(),
{
    if s.len() > 0 && char_whitespace(s[0]) {
        trim_start(s.drop_first())
    } else {
        s
    }
}

/// The text without the whitespace at its end.
pub open spec fn trim_end(s: Seq<char>) -> Seq<char>
    decreases s.len(),
{
    if s.len() > 0 && char_whitespace(s.last()) {
        trim_end(s.drop_last())
    } else {
        s
    }
}

/// The text without the whitespace at either end.
pub open spec fn trimmed(s: Seq<char>) -> Seq<char> {
    trim_end(trim_start(s))
}

/// Whether there is nothing but whitespace in the text.
pub open spec fn is_blank(s: Seq<char>) -> bool {
    trimmed(s).len() == 0
}

pub proof fn lemma_trim_start_at(s: Seq<char>, lo: int)
    requires
        0 <= lo <= s.len(),
        forall|k: int| 0 <= k < lo ==> char_whitespace(#[trigger] s[k]),
        lo < s.len() ==> !char_whitespace(s[lo]),
    ensures
        trim_start(s) == s.skip(lo),
    decreases lo,
{
    if lo == 0 {
        assert(s.skip(0) =~= s);
    } else {
        let rest = s.drop_first();
        assert forall|k: int| 0 <= k < lo - 1 implies char_whitespace(#[trigger] rest[k]) by {
            assert(rest[k] == s[k + 1]);
        }
        assert(s[0] == s[0] && char_whitespace(s[0]));
        lemma_trim_start_at(rest, lo - 1);
        assert(rest.skip(lo - 1) =~= s.skip(lo));
    }
}

pub proof fn lemma_trim_end_at(s: Seq<char>, hi: int)
    requires
        0 <= hi <= s.len(),
        forall|k: int| hi <= k < s.len() ==> char_whitespace(#[trigger] s[k]),
        hi > 0 ==> !char_whitespace(s[hi - 1]),
    ensures
        trim_end(s) == s.take(hi),
    decreases s.len() - hi,
{
    if hi == s.len() {
        assert(s.take(hi) =~= s);
    } else {
        let rest = s.drop_last();
        assert forall|k: int| hi <= k < rest.len() implies char_whitespace(#[trigger] rest[k]) by {
            assert(rest[k] == s[k]);
        }
        assert(char_whitespace(s[s.len() - 1]));
        lemma_trim_end_at(rest, hi);
        assert(rest.take(hi) =~= s.take(hi));
    }
}

/// Where trimming cuts: the bounds of the part that is kept.
pub proof fn lemma_trim_start_bounds(s: Seq<char>) -> (lo: int)
    ensures
        0 <= lo <= s.len(),
        trim_start(s) == s.skip(lo),
        forall|k: int| 0 <= k < lo ==> char_whitespace(#[trigger] s[k]),
        lo < s.len() ==> !char_whitespace(s[lo]),
    decreases s.len(),
{
    if s.len() > 0 && char_whitespace(s[0]) {
        let rest = s.drop_first();
        let lo = lemma_trim_start_bounds(rest);
        assert(rest.skip(lo) =~= s.skip(lo + 1));
        assert forall|k: int| 0 <= k < lo + 1 implies char_whitespace(#[trigger] s[k]) by {
            if k > 0 {
                assert(s[k] == rest[k - 1]);
            }
        }
        lo + 1
    } else {
        assert(s.skip(0) =~= s);
        0
    }
}

pub proof fn lemma_trim_end_bounds(s: Seq<char>) -> (hi: int)
    ensures
        0 <= hi <= s.len(),
        trim_end(s) == s.take(hi),
        forall|k: int| hi <= k < s.len() ==> char_whitespace(#[trigger] s[k]),
        hi > 0 ==> !char_whitespace(s[hi - 1]),
    decreases s.len(),
{
    if s.len() > 0 && char_whitespace(s.last()) {
        let rest = s.drop_last();
        let hi = lemma_trim_end_bounds(rest);
        assert(rest.take(hi) =~= s.take(hi));
        assert forall|k: int| hi <= k < s.len() implies char_whitespace(#[trigger] s[k]) by {
            if k < s.len() - 1 {
                assert(s[k] == rest[k]);
            }
        }
        hi
    } else {
        assert(s.take(s.len() as int) =~= s);
        s.len() as int
    }
}

/// A trimmed text neither starts nor ends with whitespace, and trimming it
/// again changes nothing.
pub proof fn trimming_is_final(s: Seq<char>)
    ensures
        trimmed(s).len() > 0 ==> !char_whitespace(trimmed(s)[0]) && !char_whitespace(
            trimmed(s).last(),
        ),
        trimmed(trimmed(s)) == trimmed(s),
        trimmed(s).len() <= s.len(),
{
    let lo = lemma_trim_start_bounds(s);
    let t = trim_start(s);
    let hi = lemma_trim_end_bounds(t);
    let r = t.take(hi);
    if hi > 0 {
        assert(r[0] == s[lo]);
        assert(r.last() == t[hi - 1]);
    }
    assert(trim_start(r) == r);
    assert(trim_end(r) == r);
}

/// The text without the whitespace at either end.
pub fn trim<'a>(s: &'a str) -> (r: &'a str)
    ensures
        r@ == trimmed(s@),
{
    let chars = to_chars(s);
    let n: usize = chars.len();
    let mut lo: usize = 0;
    while lo < n && chars[lo].is_whitespace()
        invariant
            n == chars@.len(),
            lo <= n,
            forall|k: int| 0 <= k < lo ==> char_whitespace(#[trigger] chars@[k]),
        ensures
            lo <= n,
            forall|k: int| 0 <= k < lo ==> char_whitespace(#[trigger] chars@[k]),
            lo < n ==> !char_whitespace(chars@[lo as int]),
        decreases n - lo,
    {
        lo += 1;
    }
    let mut hi: usize = n;
    while hi > lo && chars[hi - 1].is_whitespace()
        invariant
            n == chars@.len(),
            lo <= hi <= n,
            forall|k: int| hi <= k < n ==> char_whitespace(#[trigger] chars@[k]),
        ensures
            lo <= hi <= n,
            forall|k: int| hi <= k < n ==> char_whitespace(#[trigger] chars@[k]),
            hi > lo ==> !char_whitespace(chars@[hi - 1]),
        decreases hi - lo,
    {
        hi -= 1;
    }
    proof {
        lemma_trim_start_at(s@, lo as int);
        let t = s@.skip(lo as int);
        assert forall|k: int| hi - lo <= k < t.len() implies char_whitespace(#[trigger] t[k]) by {
            assert(t[k] == chars@[k + lo]);
        }
        if hi > lo {
            assert(t[hi - lo - 1] == chars@[hi - 1]);
        }
        lemma_trim_end_at(t, hi - lo);
        assert(t.take(hi - lo) =~= s@.subrange(lo as int, hi as int));
    }
    s.substring_char(lo, hi)
}

/// Strict alphabetical order of two texts, by the code points of their
/// characters.
pub open spec fn text_before(a: Seq<char>, b: Seq<char>) -> bool
    decreases a.len(),
{
    if b.len() == 0 {
        false
    } else if a.len() == 0 {
        true
    } else if a[0] != b[0] {
        a[0] < b[0]
    } else {
        text_before(a.drop_first(), b.drop_first())
    }
}

/// A text comes before another where it has the lesser character at the first
/// place at which they differ, or is a start of the other and shorter.
pub proof fn text_before_goes_by_the_first_difference(a: Seq<char>, b: Seq<char>)
    ensures
        text_before(a, b) <==> exists|k: int| #[trigger] differ_first_at(a, b, k),
    decreases a.len(),
{
    if a.len() > 0 && b.len() > 0 && a[0] == b[0] {
        let (p, q) = (a.drop_first(), b.drop_first());
        text_before_goes_by_the_first_difference(p, q);
        if text_before(p, q) {
            let k = choose|k: int| #[trigger] differ_first_at(p, q, k);
            assert forall|i: int| 0 <= i < k + 1 implies #[trigger] a[i] == b[i] by {
                if i > 0 {
                    assert(p[i - 1] == q[i - 1]);
                }
            }
            assert(differ_first_at(a, b, k + 1));
        }
        if exists|k: int| #[trigger] differ_first_at(a, b, k) {
            let k = choose|k: int| #[trigger] differ_first_at(a, b, k);
            assert(k > 0);
            assert forall|i: int| 0 <= i < k - 1 implies #[trigger] p[i] == q[i] by {
                assert(a[i + 1] == b[i + 1]);
            }
            assert(differ_first_at(p, q, k - 1));
        }
    } else {
        if text_before(a, b) {
            assert(differ_first_at(a, b, 0));
        }
        if exists|k: int| #[trigger] differ_first_at(a, b, k) {
            let k = choose|k: int| #[trigger] differ_first_at(a, b, k);
            if k > 0 {
                assert(a[0] == b[0]);
            }
        }
    }
}

/// Whether `a` has the lesser character, or ends, at the first place at which it
/// differs from `b`.
pub open spec fn differ_first_at(a: Seq<char>, b: Seq<char>, k: int) -> bool {
    &&& 0 <= k <= a.len()
    &&& k < b.len()
    &&& forall|i: int| 0 <= i < k ==> #[trigger] a[i] == b[i]
    &&& k == a.len() || a[k] < b[k]
}

/// Of two different texts exactly one comes before the other.
pub proof fn text_before_is_total(a: Seq<char>, b: Seq<char>)
    ensures
        a != b ==> text_before(a, b) != text_before(b, a),
        !text_before(a, a),
    decreases a.len(),
{
    if a.len() > 0 {
        text_before_is_total(a.drop_first(), a.drop_first());
    }
    if a.len() > 0 && b.len() > 0 && a[0] == b[0] {
        text_before_is_total(a.drop_first(), b.drop_first());
        if a.drop_first() == b.drop_first() {
            assert(a =~= seq![a[0]] + a.drop_first());
            assert(b =~= seq![b[0]] + b.drop_first());
        }
    } else if a.len() == 0 && b.len() == 0 {
        assert(a =~= b);
    }
}

/// The alphabetical order is transitive.
pub proof fn text_before_is_transitive(a: Seq<char>, b: Seq<char>, c: Seq<char>)
    requires
        text_before(a, b),
        text_before(b, c),
    ensures
        text_before(a, c),
    decreases a.len(),
{
    if a.len() > 0 && a[0] == b[0] && b[0] == c[0] {
        text_before_is_transitive(a.drop_first(), b.drop_first(), c.drop_first());
    }
}

/// The code point of a character.
pub fn char_code(c: char) -> (r: u32)
    ensures
        r == c as int,
        r == c as u32,
{
    c as u32
}

/// The order of two characters by their code points.
pub fn char_before(a: char, b: char) -> (r: bool)
    ensures
        r == (a < b),
{
    (a as u32) < (b as u32)
}

/// Strict alphabetical order of two texts.
pub fn text_less(a: &str, b: &str) -> (r: bool)
    ensures
        r == text_before(a@, b@),
{
    let x = to_chars(a);
    let y = to_chars(b);
    let mut i: usize = 0;
    assert(x@.skip(0) =~= x@);
    assert(y@.skip(0) =~= y@);
    while i < x.len() && i < y.len()
        invariant
            i <= x@.len(),
            i <= y@.len(),
            x@ == a@,
            y@ == b@,
            text_before(x@, y@) == text_before(x@.skip(i as int), y@.skip(i as int)),
        decreases x@.len() - i,
    {
        if x[i] != y[i] {
            assert(x@.skip(i as int)[0] == x@[i as int]);
            assert(y@.skip(i as int)[0] == y@[i as int]);
            return char_before(x[i], y[i]);
        }
        assert(x@.skip(i as int).drop_first() =~= x@.skip(i + 1));
        assert(y@.skip(i as int).drop_first() =~= y@.skip(i + 1));
        i += 1;
    }
    i < y.len()
}

/// Whether `p` stands in `s` at position `i`.
pub open spec fn stands_at(s: Seq<char>, p: Seq<char>, i: int) -> bool {
    0 <= i && i + p.len() <= s.len() && s.subrange(i, i + p.len()) == p
}

pub open spec fn starts_with(s: Seq<char>, p: Seq<char>) -> bool {
    stands_at(s, p, 0)
}

pub open spec fn ends_with(s: Seq<char>, p: Seq<char>) -> bool {
    stands_at(s, p, s.len() - p.len())
}

/// Whether `p` stands anywhere in `s`.
pub open spec fn contains_text(s: Seq<char>, p: Seq<char>) -> bool {
    exists|i: int| #[trigger] stands_at(s, p, i)
}

/// Whether the characters of `p` stand in `s` from `i` on.
pub fn chars_stand_at(s: &Vec<char>, p: &Vec<char>, i: usize) -> (r: bool)
    ensures
        r == stands_at(s@, p@, i as int),
{
    if i > s.len() || p.len() > s.len() - i {
        return false;
    }
    let mut k: usize = 0;
    while k < p.len()
        invariant
            k <= p@.len(),
            i + p@.len() <= s@.len() <= usize::MAX,
            forall|j: int| 0 <= j < k ==> s@[i + j] == #[trigger] p@[j],
        decreases p@.len() - k,
    {
        if s[i + k] != p[k] {
            assert(s@.subrange(i as int, i + p@.len())[k as int] == s@[i + k]);
            return false;
        }
        k += 1;
    }
    assert(s@.subrange(i as int, i + p@.len()) =~= p@);
    true
}

/// The first position from `from` on where `p` stands in `s`.
pub fn find_chars(s: &Vec<char>, p: &Vec<char>, from: usize) -> (r: Option<usize>)
    ensures
        match r {
            Some(i) => {
                &&& from <= i
                &&& stands_at(s@, p@, i as int)
                &&& forall|j: int| from <= j < i ==> !#[trigger] stands_at(s@, p@, j)
            },
            None => forall|j: int| from <= j ==> !#[trigger] stands_at(s@, p@, j),
        },
{
    let mut i: usize = from;
    while i <= s.len() && p.len() <= s.len() - i
        invariant
            from <= i,
            forall|j: int| from <= j < i ==> !#[trigger] stands_at(s@, p@, j),
        decreases s@.len() + 1 - i,
    {
        if chars_stand_at(s, p, i) {
            return Some(i);
        }
        if i == s.len() {
            assert forall|j: int| from <= j implies !#[trigger] stands_at(s@, p@, j) by {
                if j > i {
                    assert(j + p@.len() > s@.len());
                }
            }
            return None;
        }
        i += 1;
    }
    None
}

pub fn text_contains(s: &str, p: &str) -> (r: bool)
    ensures
        r == contains_text(s@, p@),
{
    let x = to_chars(s);
    let y = to_chars(p);
    match find_chars(&x, &y, 0) {
        Some(i) => true,
        None => {
            assert forall|j: int| !#[trigger] stands_at(s@, p@, j) by {
                if j >= 0 {
                    assert(!stands_at(x@, y@, j));
                }
            }
            false
        },
    }
}

pub fn text_starts_with(s: &str, p: &str) -> (r: bool)
    ensures
        r == starts_with(s@, p@),
{
    let x = to_chars(s);
    let y = to_chars(p);
    chars_stand_at(&x, &y, 0)
}

pub fn text_ends_with(s: &str, p: &str) -> (r: bool)
    ensures
        r == ends_with(s@, p@),
{
    let x = to_chars(s);
    let y = to_chars(p);
    if y.len() > x.len() {
        return false;
    }
    chars_stand_at(&x, &y, x.len() - y.len())
}

/// The decimal digit of a number below ten.
pub open spec fn digit_char(n: nat) -> char {
    (('0' as int) + n) as char
}

/// A number in decimal notation.
pub open spec fn decimal_text(n: nat) -> Seq<char>
    decreases n,
{
    if n < 10 {
        seq![digit_char(n)]
    } else {
        decimal_text(n / 10).push(digit_char(n % 10))
    }
}

/// Appends a number in decimal notation.
pub fn push_decimal(out: &mut String, n: u64)
    ensures
        final(out)@ == old(out)@ + decimal_text(n as nat),
    decreases n,
{
    let ghost before = out@;
    if n >= 10 {
        push_decimal(out, n / 10);
    }
    let d: u64 = n % 10;
    let c: char = if d == 0 {
        '0'
    } else if d == 1 {
        '1'
    } else if d == 2 {
        '2'
    } else if d == 3 {
        '3'
    } else if d == 4 {
        '4'
    } else if d == 5 {
        '5'
    } else if d == 6 {
        '6'
    } else if d == 7 {
        '7'
    } else if d == 8 {
        '8'
    } else {
        '9'
    };
    assert(c == digit_char(d as nat));
    out.push(c);
    assert(out@ =~= before + decimal_text(n as nat));
}

/// The texts that a list of strings holds.
pub open spec fn strings(v: Seq<String>) -> Seq<Seq<char>> {
    Seq::new(v.len(), |i: int| v[i]@)
}

pub proof fn lemma_strings_push(v: Seq<String>, s: String)
    ensures
        strings(v.push(s)) == strings(v).push(s@),
{
    assert(strings(v.push(s)) =~= strings(v).push(s@));
}

/// A copy of a list of strings.
pub fn clone_strings(v: &Vec<String>) -> (r: Vec<String>)
    ensures
        strings(r@) == strings(v@),
{
    let mut r: Vec<String> = Vec::new();
    let mut i: usize = 0;
    while i < v.len()
        invariant
            i <= v@.len(),
            r@.len() == i,
            forall|k: int| 0 <= k < i ==> (#[trigger] r@[k])@ == v@[k]@,
        decreases v@.len() - i,
    {
        r.push(v[i].clone());
        i += 1;
    }
    assert(strings(r@) =~= strings(v@));
    r
}

/// A copy of an optional string.
pub fn clone_opt(o: &Option<String>) -> (r: Option<String>)
    ensures
        r == *o,
{
    match o {
        Some(s) => Some(s.clone()),
        None => None,
    }
}

/// Whether a list of strings holds a text.
pub fn holds_text(v: &Vec<String>, s: &str) -> (r: bool)
    ensures
        r == strings(v@).contains(s@),
{
    let mut i: usize = 0;
    while i < v.len()
        invariant
            i <= v@.len(),
            forall|k: int| 0 <= k < i ==> (#[trigger] strings(v@)[k]) != s@,
        decreases v@.len() - i,
    {
        if text_eq(v[i].as_str(), s) {
            assert(strings(v@)[i as int] == s@);
            return true;
        }
        i += 1;
    }
    false
}

/// The parts of a text between the occurrences of `c`.
pub open spec fn split_on(s: Seq<char>, c: char) -> Seq<Seq<char>>
    decreases s.len(),
{
    if s.len() == 0 {
        seq![Seq::empty()]
    } else {
        let parts = split_on(s.drop_last(), c);
        if s.last() == c {
            parts.push(Seq::empty())
        } else {
            parts.drop_last().push(parts.last().push(s.last()))
        }
    }
}

pub proof fn lemma_split_on_len(s: Seq<char>, c: char)
    ensures
        split_on(s, c).len() >= 1,
    decreases s.len(),
{
    if s.len() > 0 {
        lemma_split_on_len(s.drop_last(), c);
    }
}

/// The parts of a text between the occurrences of `c`.
pub fn split_text(s: &str, c: char) -> (r: Vec<String>)
    ensures
        strings(r@) == split_on(s@, c),
        r@.len() >= 1,
{
    let chars = to_chars(s);
    let mut done: Vec<String> = Vec::new();
    let mut part = String::new();
    let mut i: usize = 0;
    assert(split_on(chars@.take(0), c) =~= strings(done@).push(part@));
    while i < chars.len()
        invariant
            i <= chars@.len(),
            split_on(chars@.take(i as int), c) == strings(done@).push(part@),
        decreases chars@.len() - i,
    {
        let ghost before = done@;
        let ghost cut = part@;
        assert(chars@.take(i + 1).drop_last() =~= chars@.take(i as int));
        assert(chars@.take(i + 1).last() == chars@[i as int]);
        if chars[i] == c {
            done.push(part);
            part = String::new();
            proof {
                lemma_strings_push(before, done@.last());
                assert(done@ =~= before.push(done@.last()));
            }
            assert(split_on(chars@.take(i + 1), c) =~= strings(done@).push(part@));
        } else {
            part.push(chars[i]);
            assert(strings(done@).push(cut).drop_last() =~= strings(done@));
            assert(split_on(chars@.take(i + 1), c) =~= strings(done@).push(part@));
        }
        i += 1;
    }
    assert(chars@.take(i as int) =~= s@);
    let ghost before = done@;
    done.push(part);
    proof {
        lemma_strings_push(before, done@.last());
        assert(done@ =~= before.push(done@.last()));
    }
    done
}

/// The text without one trailing carriage return.
pub open spec fn without_cr(s: Seq<char>) -> Seq<char> {
    if s.len() > 0 && s.last() == '\r' {
        s.drop_last()
    } else {
        s
    }
}

/// The lines of a text: the parts between line feeds, each without the
/// carriage return before its line feed; nothing stands behind a last line
/// feed.
pub open spec fn lines_of(s: Seq<char>) -> Seq<Seq<char>> {
    let parts = split_on(s, '\n');
    let ended = parts.drop_last().map_values(|p: Seq<char>| without_cr(p));
    if parts.last().len() == 0 {
        ended
    } else {
        ended.push(parts.last())
    }
}

/// The lines of a text.
pub fn text_lines(s: &str) -> (r: Vec<String>)
    ensures
        strings(r@) == lines_of(s@),
{
    let mut parts = split_text(s, '\n');
    let ghost all = strings(parts@);
    let last = parts.pop();
    let mut r: Vec<String> = Vec::new();
    let mut i: usize = 0;
    while i < parts.len()
        invariant
            i <= parts@.len(),
            parts@.len() == all.len() - 1,
            r@.len() == i,
            forall|k: int| 0 <= k < parts@.len() ==> (#[trigger] parts@[k])@ == all[k],
            forall|k: int| 0 <= k < i ==> (#[trigger] r@[k])@ == without_cr(all[k]),
        decreases parts@.len() - i,
    {
        let chars = to_chars(parts[i].as_str());
        let n: usize = chars.len();
        if n > 0 && chars[n - 1] == '\r' {
            let cut = from_chars(&chars, 0, n - 1);
            assert(cut@ =~= without_cr(all[i as int]));
            r.push(cut);
        } else {
            r.push(parts[i].clone());
        }
        i += 1;
    }
    let ghost ended = all.drop_last().map_values(|p: Seq<char>| without_cr(p));
    assert(strings(r@) =~= ended);
    match last {
        Some(line) => {
            assert(line@ == all.last());
            if !line.as_str().is_empty() {
                let ghost before = r@;
                r.push(line);
                proof {
                    lemma_strings_push(before, line);
                }
            }
        },
        None => {},
    }
    r
}

/// The words that are complete behind a prefix of a text, and the word that
/// the prefix ends in.
pub open spec fn words_state(s: Seq<char>) -> (Seq<Seq<char>>, Seq<char>)
    decreases s.len(),
{
    if s.len() == 0 {
        (Seq::empty(), Seq::empty())
    } else {
        let (done, word) = words_state(s.drop_last());
        if !char_whitespace(s.last()) {
            (done, word.push(s.last()))
        } else if word.len() == 0 {
            (done, word)
        } else {
            (done.push(word), Seq::empty())
        }
    }
}

/// The words of a text: its longest parts without whitespace.
pub open spec fn words_of(s: Seq<char>) -> Seq<Seq<char>> {
    let (done, word) = words_state(s);
    if word.len() == 0 {
        done
    } else {
        done.push(word)
    }
}

/// The words of a text.
pub fn split_words(s: &str) -> (r: Vec<String>)
    ensures
        strings(r@) == words_of(s@),
{
    let chars = to_chars(s);
    let mut done: Vec<String> = Vec::new();
    let mut word = String::new();
    let mut i: usize = 0;
    assert(strings(done@) =~= Seq::empty());
    while i < chars.len()
        invariant
            i <= chars@.len(),
            words_state(chars@.take(i as int)) == (strings(done@), word@),
        decreases chars@.len() - i,
    {
        let ghost before = done@;
        assert(chars@.take(i + 1).drop_last() =~= chars@.take(i as int));
        if !chars[i].is_whitespace() {
            word.push(chars[i]);
        } else if !word.as_str().is_empty() {
            done.push(word);
            word = String::new();
            proof {
                lemma_strings_push(before, done@.last());
                assert(done@ =~= before.push(done@.last()));
            }
        }
        i += 1;
    }
    assert(chars@.take(i as int) =~= s@);
    if !word.as_str().is_empty() {
        let ghost before = done@;
        done.push(word);
        proof {
            lemma_strings_push(before, word);
        }
    }
    done
}

/// The parts one after the other, with `sep` between them.
pub open spec fn joined(parts: Seq<Seq<char>>, sep: Seq<char>) -> Seq<char>
    decreases parts.len(),
{
    if parts.len() == 0 {
        Seq::empty()
    } else if parts.len() == 1 {
        parts[0]
    } else {
        joined(parts.drop_last(), sep) + sep + parts.last()
    }
}

/// The parts one after the other, with `sep` between them.
pub fn join_texts(parts: &Vec<String>, sep: &str) -> (r: String)
    ensures
        r@ == joined(strings(parts@), sep@),
{
    let mut r = String::new();
    let ghost all = strings(parts@);
    let mut i: usize = 0;
    assert(joined(all.take(0), sep@) =~= Seq::empty());
    while i < parts.len()
        invariant
            i <= parts@.len(),
            all == strings(parts@),
            r@ == joined(all.take(i as int), sep@),
        decreases parts@.len() - i,
    {
        if i > 0 {
            r.append(sep);
        }
        r.append(parts[i].as_str());
        assert(all.take(i + 1).drop_last() =~= all.take(i as int));
        assert(all.take(i + 1).last() == parts@[i as int]@);
        i += 1;
        assert(r@ =~= joined(all.take(i as int), sep@));
    }
    assert(all.take(i as int) =~= all);
    r
}

/// The number of bytes that a character takes in UTF-8.
pub open spec fn utf8_width(c: char) -> nat {
    if (c as u32) < 0x80 {
        1
    } else if (c as u32) < 0x800 {
        2
    } else if (c as u32) < 0x10000 {
        3
    } else {
        4
    }
}

/// The number of bytes that a text takes in UTF-8.
pub open spec fn byte_len(s: Seq<char>) -> nat
    decreases s.len(),
{
    if s.len() == 0 {
        0
    } else {
        byte_len(s.drop_last()) + utf8_width(s.last())
    }
}

proof fn lemma_byte_len_front(s: Seq<char>)
    requires
        s.len() > 0,
    ensures
        byte_len(s) == utf8_width(s[0]) + byte_len(s.drop_first()),
    decreases s.len(),
{
    if s.len() == 1 {
        assert(s.drop_last() =~= Seq::empty());
        assert(s.drop_first() =~= Seq::empty());
    } else {
        lemma_byte_len_front(s.drop_last());
        assert(s.drop_last().drop_first() =~= s.drop_first().drop_last());
    }
}

/// The byte length is the length of the UTF-8 encoding.
pub proof fn lemma_byte_len(s: Seq<char>)
    ensures
        encode_utf8(s).len() == byte_len(s),
    decreases s.len(),
{
    if s.len() > 0 {
        lemma_byte_len(s.drop_first());
        lemma_byte_len_front(s);
        encode_utf8_first_scalar(s);
        char_is_scalar(s[0]);
    }
}

/// The number of bytes that a text takes in UTF-8.
pub fn utf8_len(s: &str) -> (r: usize)
    ensures
        r == byte_len(s@),
{
    let bytes = s.as_bytes();
    proof {
        lemma_byte_len(s@);
    }
    bytes.len()
}

pub open spec fn digit_value(c: char) -> nat {
    (c as int - '0' as int) as nat
}

/// The value of a row of digits.
pub open spec fn digits_value(s: Seq<char>) -> nat
    decreases s.len(),
{
    if s.len() == 0 {
        0
    } else {
        digits_value(s.drop_last()) * 10 + digit_value(s.last())
    }
}

pub open spec fn all_digits(s: Seq<char>) -> bool {
    forall|k: int| 0 <= k < s.len() ==> ascii_digit(#[trigger] s[k])
}

/// A text without one leading plus sign, unless it is the whole text.
pub open spec fn without_plus(s: Seq<char>) -> Seq<char> {
    if s.len() > 1 && s[0] == '+' {
        s.drop_first()
    } else {
        s
    }
}

/// The natural number that a text denotes: a row of digits, which a plus sign
/// may precede.
pub open spec fn parsed_number(s: Seq<char>) -> Option<nat> {
    let t = without_plus(s);
    if t.len() > 0 && all_digits(t) {
        Some(digits_value(t))
    } else {
        None
    }
}

proof fn lemma_digits_value_grows(s: Seq<char>, n: int)
    requires
        0 <= n <= s.len(),
    ensures
        digits_value(s.take(n)) <= digits_value(s),
    decreases s.len() - n,
{
    if n == s.len() {
        assert(s.take(n) =~= s);
    } else {
        assert(s.drop_last().take(n) =~= s.take(n));
        lemma_digits_value_grows(s.drop_last(), n);
    }
}

/// The natural number up to `max` that a text denotes.
pub fn parse_number(s: &str, max: u64) -> (r: Option<u64>)
    ensures
        r == (match parsed_number(s@) {
            Some(v) if v <= max => Some(v as u64),
            _ => None,
        }),
{
    let chars = to_chars(s);
    let n: usize = chars.len();
    let start: usize = if n > 1 && chars[0] == '+' {
        1
    } else {
        0
    };
    let ghost t = without_plus(s@);
    assert(t =~= chars@.skip(start as int));
    if start == n {
        return None;
    }
    let mut value: u64 = 0;
    let mut i: usize = start;
    assert(t.take(0) =~= Seq::empty());
    while i < n
        invariant
            n == chars@.len(),
            start <= i <= n,
            start <= 1,
            t == chars@.skip(start as int),
            t == without_plus(s@),
            value <= max,
            value == digits_value(t.take(i - start)),
            forall|k: int| 0 <= k < i - start ==> ascii_digit(#[trigger] t[k]),
        decreases n - i,
    {
        let c: char = chars[i];
        assert(t[i - start] == c);
        let code: u32 = char_code(c);
        if code < 48 || code > 57 {
            assert(!ascii_digit(t[i - start]));
            return None;
        }
        let d: u64 = (code - 48) as u64;
        proof {
            assert(t.take(i + 1 - start).drop_last() =~= t.take(i - start));
            assert(t.take(i + 1 - start).last() == c);
            assert(digits_value(t.take(i + 1 - start)) == value * 10 + d);
            lemma_digits_value_grows(t, i + 1 - start);
        }
        if d > max || value > (max - d) / 10 {
            assert(value * 10 + d > max) by (nonlinear_arith)
                requires
                    d > max || value > (max - d) / 10,
            ;
            return None;
        }
        assert(value * 10 + d <= max) by (nonlinear_arith)
            requires
                d <= max,
                value <= (max - d) / 10,
        ;
        value = value * 10 + d;
        i += 1;
    }
    assert(t.take(n - start) =~= t);
    Some(value)
}

/// The first position of a character, or the length of the text.
pub open spec fn char_position(s: Seq<char>, c: char) -> int
    decreases s.len(),
{
    if s.len() == 0 || s[0] == c {
        0
    } else {
        1 + char_position(s.drop_first(), c)
    }
}

/// The first position of a character from `from` on, or the length.
pub fn find_char(s: &Vec<char>, c: char, from: usize) -> (r: usize)
    requires
        from <= s@.len(),
    ensures
        from <= r <= s@.len(),
        r == from + char_position(s@.skip(from as int), c),
        r < s@.len() ==> s@[r as int] == c,
        forall|k: int| from <= k < r ==> #[trigger] s@[k] != c,
{
    let mut i: usize = from;
    while i < s.len()
        invariant
            from <= i <= s@.len(),
            forall|k: int| from <= k < i ==> #[trigger] s@[k] != c,
            char_position(s@.skip(from as int), c) == i - from + char_position(
                s@.skip(i as int),
                c,
            ),
        decreases s@.len() - i,
    {
        assert(s@.skip(i as int)[0] == s@[i as int]);
        if s[i] == c {
            return i;
        }
        assert(s@.skip(i as int).drop_first() =~= s@.skip(i + 1));
        i += 1;
    }
    i
}

/// How many of the first characters fit into `b` bytes.
pub open spec fn prefix_chars(s: Seq<char>, b: nat) -> nat
    decreases s.len(),
{
    if s.len() == 0 || b < utf8_width(s[0]) {
        0
    } else {
        1 + prefix_chars(s.drop_first(), (b - utf8_width(s[0])) as nat)
    }
}

/// Whether a byte offset stands between two characters, or at an end.
pub open spec fn is_boundary(s: Seq<char>, b: nat) -> bool {
    byte_len(s.take(prefix_chars(s, b) as int)) == b
}

/// The text between two byte offsets.
pub open spec fn byte_slice(s: Seq<char>, start: nat, end: nat) -> Seq<char> {
    s.subrange(prefix_chars(s, start) as int, prefix_chars(s, end) as int)
}

pub proof fn lemma_prefix_chars(s: Seq<char>, b: nat)
    ensures
        prefix_chars(s, b) <= s.len(),
        byte_len(s.take(prefix_chars(s, b) as int)) <= b,
    decreases s.len(),
{
    if s.len() == 0 || b < utf8_width(s[0]) {
        assert(s.take(0) =~= Seq::empty());
    } else {
        let rest = s.drop_first();
        let w = utf8_width(s[0]);
        lemma_prefix_chars(rest, (b - w) as nat);
        let k = prefix_chars(s, b) as int;
        lemma_byte_len_front(s.take(k));
        assert(s.take(k).drop_first() =~= rest.take(k - 1));
    }
}

/// The bytes of the first `k` characters end where character `k` starts.
pub proof fn lemma_prefix_chars_of_len(s: Seq<char>, k: int)
    requires
        0 <= k <= s.len(),
    ensures
        prefix_chars(s, byte_len(s.take(k))) == k,
        is_boundary(s, byte_len(s.take(k))),
    decreases k,
{
    if k == 0 {
        assert(s.take(0) =~= Seq::empty());
        if s.len() > 0 {
            assert(utf8_width(s[0]) > 0);
        }
    } else {
        let rest = s.drop_first();
        lemma_byte_len_front(s.take(k));
        assert(s.take(k).drop_first() =~= rest.take(k - 1));
        lemma_prefix_chars_of_len(rest, k - 1);
    }
}

pub proof fn lemma_byte_len_add(a: Seq<char>, b: Seq<char>)
    ensures
        byte_len(a + b) == byte_len(a) + byte_len(b),
    decreases b.len(),
{
    if b.len() == 0 {
        assert(a + b =~= a);
    } else {
        lemma_byte_len_add(a, b.drop_last());
        assert((a + b).drop_last() =~= a + b.drop_last());
    }
}

pub proof fn lemma_byte_len_at_least(s: Seq<char>)
    ensures
        byte_len(s) >= s.len(),
    decreases s.len(),
{
    if s.len() > 0 {
        lemma_byte_len_at_least(s.drop_last());
    }
}

/// The width of a character in UTF-8.
pub fn char_width(c: char) -> (r: usize)
    ensures
        r == utf8_width(c),
        1 <= r <= 4,
{
    let code: u32 = char_code(c);
    if code < 0x80 {
        1
    } else if code < 0x800 {
        2
    } else if code < 0x10000 {
        3
    } else {
        4
    }
}

/// The character that starts at a byte offset, by its position; nothing where
/// the offset stands inside a character or behind the text.
pub fn char_at_byte(s: &Vec<char>, byte: usize) -> (r: Option<usize>)
    ensures
        match r {
            Some(k) => is_boundary(s@, byte as nat) && k == prefix_chars(s@, byte as nat) && k
                <= s@.len(),
            None => !is_boundary(s@, byte as nat),
        },
{
    let mut k: usize = 0;
    let mut bytes: usize = 0;
    assert(s@.take(0) =~= Seq::empty());
    assert(s@.skip(0) =~= s@);
    while k < s.len() && bytes < byte
        invariant
            k <= s@.len(),
            bytes <= byte,
            bytes == byte_len(s@.take(k as int)),
            prefix_chars(s@, byte as nat) == k + prefix_chars(
                s@.skip(k as int),
                (byte - bytes) as nat,
            ),
        decreases s@.len() - k,
    {
        let w = char_width(s[k]);
        assert(s@.skip(k as int)[0] == s@[k as int]);
        if byte - bytes < w {
            return None;
        }
        assert(s@.take(k + 1).drop_last() =~= s@.take(k as int));
        assert(s@.skip(k as int).drop_first() =~= s@.skip(k + 1));
        bytes = bytes + w;
        k += 1;
    }
    proof {
        let rest = s@.skip(k as int);
        if rest.len() > 0 {
            assert(utf8_width(rest[0]) > 0);
        }
    }
    if bytes == byte {
        Some(k)
    } else {
        None
    }
}

/// The number of bytes of the first `k` characters.
pub fn byte_of_char(s: &Vec<char>, k: usize) -> (r: usize)
    requires
        k <= s@.len(),
        byte_len(s@) <= usize::MAX,
    ensures
        r == byte_len(s@.take(k as int)),
{
    let mut i: usize = 0;
    let mut bytes: usize = 0;
    assert(s@.take(0) =~= Seq::empty());
    while i < k
        invariant
            i <= k <= s@.len(),
            byte_len(s@) <= usize::MAX,
            bytes == byte_len(s@.take(i as int)),
        decreases k - i,
    {
        proof {
            assert(s@.take(i + 1).drop_last() =~= s@.take(i as int));
            assert(s@ =~= s@.take(i + 1) + s@.skip(i + 1));
            lemma_byte_len_add(s@.take(i + 1), s@.skip(i + 1));
        }
        bytes = bytes + char_width(s[i]);
        i += 1;
    }
    bytes
}

/// An ASCII small letter as its capital; any other character as it is.
pub open spec fn ascii_raised(c: char) -> char {
    if ascii_lower(c) {
        ((c as u32) - 32) as char
    } else {
        c
    }
}

/// A text with its ASCII small letters as capitals.
pub open spec fn ascii_upper_text(s: Seq<char>) -> Seq<char> {
    s.map_values(|c: char| ascii_raised(c))
}

/// A text with its ASCII capitals as small letters.
pub open spec fn ascii_lower_text(s: Seq<char>) -> Seq<char> {
    s.map_values(|c: char| ascii_lowered(c))
}

/// `char::to_ascii_uppercase` turns an ASCII small letter into its capital and
/// keeps every other character.
pub assume_specification[ char::to_ascii_uppercase ](c: &char) -> (r: char)
    ensures
        r == ascii_raised(*c),
;

/// `char::to_ascii_lowercase` turns an ASCII capital into the small letter and
/// keeps every other character.
pub assume_specification[ char::to_ascii_lowercase ](c: &char) -> (r: char)
    ensures
        r == ascii_lowered(*c),
;

pub fn upper_ascii(s: &str) -> (r: String)
    ensures
        r@ == ascii_upper_text(s@),
{
    let chars = to_chars(s);
    let mut r = String::new();
    let mut i: usize = 0;
    while i < chars.len()
        invariant
            i <= chars@.len(),
            r@ == ascii_upper_text(chars@.take(i as int)),
        decreases chars@.len() - i,
    {
        r.push(chars[i].to_ascii_uppercase());
        i += 1;
        assert(r@ =~= ascii_upper_text(chars@.take(i as int)));
    }
    assert(chars@.take(i as int) =~= s@);
    r
}

pub fn lower_ascii(s: &str) -> (r: String)
    ensures
        r@ == ascii_lower_text(s@),
{
    let chars = to_chars(s);
    let mut r = String::new();
    let mut i: usize = 0;
    while i < chars.len()
        invariant
            i <= chars@.len(),
            r@ == ascii_lower_text(chars@.take(i as int)),
        decreases chars@.len() - i,
    {
        r.push(chars[i].to_ascii_lowercase());
        i += 1;
        assert(r@ =~= ascii_lower_text(chars@.take(i as int)));
    }
    assert(chars@.take(i as int) =~= s@);
    r
}

/// Whether two texts differ at most in the case of ASCII letters.
pub open spec fn same_ignoring_case(a: Seq<char>, b: Seq<char>) -> bool {
    ascii_lower_text(a) == ascii_lower_text(b)
}

pub fn eq_ignoring_case(a: &str, b: &str) -> (r: bool)
    ensures
        r == same_ignoring_case(a@, b@),
{
    let x = lower_ascii(a);
    let y = lower_ascii(b);
    text_eq(x.as_str(), y.as_str())
}

/// What `char::to_lowercase` gives for a character.
pub uninterp spec fn lowercase_char(c: char) -> Seq<char>;

/// `char::to_lowercase`, printed: the lower-case form of a character by the
/// Unicode rules, which may have several characters. It is kept as a name; an
/// ASCII capital becomes the small letter, and other ASCII characters stay.
#[verifier::external_body]
pub(crate) fn char_to_lowercase(c: char) -> (r: String)
    ensures
        r@ == lowercase_char(c),
        is_ascii_char(c) ==> r@ == seq![ascii_lowered(c)],
{
    c.to_lowercase().to_string()
}

/// The first position from `from` on where `p` stands in `s`.
pub open spec fn first_position(s: Seq<char>, p: Seq<char>, from: int) -> Option<int>
    decreases s.len() + 1 - from,
{
    if from > s.len() {
        None
    } else if stands_at(s, p, from) {
        Some(from)
    } else {
        first_position(s, p, from + 1)
    }
}

pub proof fn lemma_first_position(s: Seq<char>, p: Seq<char>, from: int)
    requires
        0 <= from,
    ensures
        match first_position(s, p, from) {
            Some(i) => from <= i && stands_at(s, p, i) && forall|j: int|
                from <= j < i ==> !#[trigger] stands_at(s, p, j),
            None => forall|j: int| from <= j ==> !#[trigger] stands_at(s, p, j),
        },
    decreases s.len() + 1 - from,
{
    if from <= s.len() && !stands_at(s, p, from) {
        lemma_first_position(s, p, from + 1);
    }
}

/// The first position where `p` stands in `s`.
pub fn find_text(s: &Vec<char>, p: &Vec<char>) -> (r: Option<usize>)
    ensures
        match r {
            Some(i) => first_position(s@, p@, 0) == Some(i as int),
            None => first_position(s@, p@, 0) is None,
        },
{
    let r = find_chars(s, p, 0);
    proof {
        lemma_first_position(s@, p@, 0);
        match (r, first_position(s@, p@, 0)) {
            (Some(a), Some(b)) => {
                if a < b {
                    assert(!stands_at(s@, p@, a as int));
                } else if b < a {
                    assert(!stands_at(s@, p@, b));
                }
            },
            (Some(a), None) => {
                assert(!stands_at(s@, p@, a as int));
            },
            (None, Some(b)) => {
                assert(!stands_at(s@, p@, b));
            },
            (None, None) => {},
        }
    }
    r
}

/// The decimal notation of a number denotes that number.
pub proof fn lemma_decimal_text_value(n: nat)
    ensures
        digits_value(decimal_text(n)) == n,
        decimal_text(n).len() >= 1,
        all_digits(decimal_text(n)),
    decreases n,
{
    if n < 10 {
        let s = decimal_text(n);
        assert(s.drop_last() =~= Seq::empty());
        assert(digits_value(s.drop_last()) == 0);
        assert(digit_value(digit_char(n)) == n);
    } else {
        lemma_decimal_text_value(n / 10);
        let s = decimal_text(n);
        assert(s.drop_last() =~= decimal_text(n / 10));
        assert(digit_value(digit_char(n % 10)) == n % 10);
        assert forall|k: int| 0 <= k < s.len() implies ascii_digit(#[trigger] s[k]) by {
            if k < s.len() - 1 {
                assert(s[k] == decimal_text(n / 10)[k]);
            }
        }
    }
}

/// Different numbers have different decimal notations.
pub proof fn decimal_texts_differ(a: nat, b: nat)
    requires
        decimal_text(a) == decimal_text(b),
    ensures
        a == b,
{
    lemma_decimal_text_value(a);
    lemma_decimal_text_value(b);
}

/// The decimal notation of a number is read back as that number.
pub proof fn decimal_texts_are_read_back(n: nat)
    ensures
        parsed_number(decimal_text(n)) == Some(n),
{
    lemma_decimal_text_value(n);
    let s = decimal_text(n);
    assert(ascii_digit(s[0]));
}

/// A text is a number if and only if it is a row of digits, with or without a plus
/// sign before it; a digit more makes it ten times as much and the digit.
pub proof fn numbers_are_rows_of_digits(s: Seq<char>, d: nat)
    requires
        d < 10,
    ensures
        all_digits(s) ==> digits_value(s.push(digit_char(d))) == 10 * digits_value(s) + d,
        s.len() > 0 && all_digits(s) ==> parsed_number(s) == Some(digits_value(s))
            && parsed_number(seq!['+'] + s) == Some(digits_value(s)),
        s.len() == 0 ==> parsed_number(s) is None,
        s.len() > 0 && s[0] != '+' && !all_digits(s) ==> parsed_number(s) is None,
{
    assert(s.push(digit_char(d)).drop_last() =~= s);
    assert(digit_value(digit_char(d)) == d);
    if s.len() > 0 && all_digits(s) {
        assert(ascii_digit(s[0]));
        let p = seq!['+'] + s;
        assert(p[0] == '+');
        assert(p.drop_first() =~= s);
        assert(p.skip(1) =~= s);
    }
}

} // verus!
