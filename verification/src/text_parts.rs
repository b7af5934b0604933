//! What the parts are that texts are taken apart into.

use vstd::prelude::*;

use crate::scan;
use crate::text;

verus! {

/// Trimming takes whitespace from both ends and leaves none there.
pub proof fn trimming_takes_the_ends(s: Seq<char>) -> (ends: (int, int))
    ensures
        0 <= ends.0 <= ends.1 <= s.len(),
        text::trimmed(s) == s.subrange(ends.0, ends.1),
        forall|i: int|
            0 <= i < s.len() && !(ends.0 <= i < ends.1) ==> text::char_whitespace(#[trigger] s[i]),
        ends.0 < ends.1 ==> !text::char_whitespace(s[ends.0]) && !text::char_whitespace(
            s[ends.1 - 1],
        ),
{
    let front = text::trim_start(s);
    let lo = text::lemma_trim_start_bounds(s);
    let hi = text::lemma_trim_end_bounds(front);
    assert(text::trimmed(s) =~= s.subrange(lo, lo + hi));
    assert forall|i: int| 0 <= i < s.len() && !(lo <= i < lo + hi) implies text::char_whitespace(
        #[trigger] s[i],
    ) by {
        if i >= lo {
            assert(front[i - lo] == s[i]);
        }
    }
    if 0 < hi {
        assert(front[0] == s[lo]);
        assert(front[hi - 1] == s[lo + hi - 1]);
    }
    (lo, lo + hi)
}

/// Splitting leaves no separator in a part, and joining the parts with it gives
/// the text back.
pub proof fn splitting_is_undone_by_joining(s: Seq<char>, c: char, i: int)
    requires
        0 <= i < text::split_on(s, c).len(),
    ensures
        text::joined(text::split_on(s, c), seq![c]) == s,
        !text::split_on(s, c)[i].contains(c),
    decreases s.len(),
{
    let all = text::split_on(s, c);
    if s.len() == 0 {
        assert(all[0].len() == 0);
        assert(text::joined(all, seq![c]) =~= s);
    } else {
        let t = s.drop_last();
        let parts = text::split_on(t, c);
        text::lemma_split_on_len(t, c);
        splitting_is_undone_by_joining(t, c, 0);
        if s.last() == c {
            if i < parts.len() {
                splitting_is_undone_by_joining(t, c, i);
            }
            assert(all.drop_last() =~= parts);
            assert(text::joined(all, seq![c]) =~= s);
        } else {
            assert(all.drop_last() =~= parts.drop_last());
            assert(all.last() == parts.last().push(s.last()));
            if all.len() == 1 {
                assert(parts[0] == t);
                assert(all[0] =~= s);
            } else {
                let front = text::joined(parts.drop_last(), seq![c]) + seq![c];
                assert(front + parts.last() == t);
                assert(text::joined(all, seq![c]) == front + all.last());
                assert(front + all.last() =~= t.push(s.last()));
                assert(t.push(s.last()) =~= s);
            }
            if i < parts.len() - 1 {
                splitting_is_undone_by_joining(t, c, i);
                assert(all[i] == parts[i]);
            } else {
                splitting_is_undone_by_joining(t, c, parts.len() - 1);
                if all[i].contains(c) {
                    let k = choose|k: int| 0 <= k < all[i].len() && all[i][k] == c;
                    if k < parts.last().len() {
                        assert(parts.last()[k] == c);
                    }
                }
            }
        }
    }
}

/// The lines of a text are its parts between line feeds, without the carriage
/// return before a line feed; a line feed at the end begins no line.
pub proof fn lines_stand_between_feeds(s: Seq<char>)
    ensures
        ({
            let parts = text::split_on(s, '\n');
            let lines = text::lines_of(s);
            let n = parts.len() - 1;
            &&& n >= 0
            &&& lines.len() == n || lines.len() == n + 1
            &&& lines.len() == n <==> parts[n].len() == 0
            &&& lines.len() == n + 1 ==> lines[n] == parts[n]
            &&& forall|i: int|
                0 <= i < n ==> (if parts[i].len() > 0 && parts[i].last() == '\r' {
                    parts[i] == (#[trigger] lines[i]).push('\r')
                } else {
                    lines[i] == parts[i]
                })
        }),
{
    text::lemma_split_on_len(s, '\n');
    let parts = text::split_on(s, '\n');
    let lines = text::lines_of(s);
    let n = parts.len() - 1;
    assert forall|i: int| 0 <= i < n implies (if parts[i].len() > 0 && parts[i].last() == '\r' {
        parts[i] == (#[trigger] lines[i]).push('\r')
    } else {
        lines[i] == parts[i]
    }) by {
        assert(lines[i] == text::without_cr(parts[i]));
        if parts[i].len() > 0 && parts[i].last() == '\r' {
            assert(parts[i].drop_last().push('\r') =~= parts[i]);
        }
    }
}

proof fn lemma_words_behind(a: Seq<char>, b: Seq<char>)
    requires
        text::words_state(a).1.len() == 0,
    ensures
        text::words_state(a + b).0 == text::words_state(a).0 + text::words_state(b).0,
        text::words_state(a + b).1 == text::words_state(b).1,
    decreases b.len(),
{
    if b.len() == 0 {
        assert(a + b =~= a);
        assert(text::words_state(b).0.len() == 0);
        assert(text::words_state(a).0 + text::words_state(b).0 =~= text::words_state(a).0);
        assert(text::words_state(a).1 =~= text::words_state(b).1);
    } else {
        lemma_words_behind(a, b.drop_last());
        assert((a + b).drop_last() =~= a + b.drop_last());
        assert((a + b).last() == b.last());
        let d = text::words_state(a).0;
        let (done, word) = text::words_state(b.drop_last());
        assert((d + done).push(word) =~= d + done.push(word));
    }
}

/// Whitespace parts words: the words of two texts with whitespace between them
/// are those of the one and then those of the other.
pub proof fn whitespace_parts_words(a: Seq<char>, c: char, b: Seq<char>)
    requires
        text::char_whitespace(c),
    ensures
        text::words_of(a.push(c) + b) == text::words_of(a) + text::words_of(b),
{
    let front = a.push(c);
    assert(front.drop_last() =~= a);
    assert(text::words_state(front).0 =~= text::words_of(a));
    lemma_words_behind(front, b);
    let d = text::words_of(a);
    let (done, word) = text::words_state(b);
    assert((d + done).push(word) =~= d + done.push(word));
}

/// A text without whitespace is one word.
pub proof fn texts_without_whitespace_are_words(s: Seq<char>)
    requires
        s.len() > 0,
        forall|i: int| 0 <= i < s.len() ==> !text::char_whitespace(#[trigger] s[i]),
    ensures
        text::words_of(s) == seq![s],
    decreases s.len(),
{
    lemma_one_word(s);
    assert(Seq::<Seq<char>>::empty().push(s) =~= seq![s]);
}

proof fn lemma_one_word(s: Seq<char>)
    requires
        forall|i: int| 0 <= i < s.len() ==> !text::char_whitespace(#[trigger] s[i]),
    ensures
        text::words_state(s) == (Seq::<Seq<char>>::empty(), s),
    decreases s.len(),
{
    if s.len() > 0 {
        let t = s.drop_last();
        assert forall|i: int| 0 <= i < t.len() implies !text::char_whitespace(#[trigger] t[i]) by {
            assert(t[i] == s[i]);
        }
        lemma_one_word(t);
        assert(t.push(s.last()) =~= s);
        assert(!text::char_whitespace(s[s.len() - 1]));
    } else {
        assert(s =~= Seq::empty());
    }
}

/// A text with nothing in it has no words.
pub proof fn empty_texts_have_no_words()
    ensures
        text::words_of(Seq::empty()).len() == 0,
{
}

proof fn lemma_pieces_behind(a: Seq<char>, b: Seq<char>, set: Seq<char>)
    requires
        scan::pieces_state(a, set).1.len() == 0,
    ensures
        scan::pieces_state(a + b, set).0 == scan::pieces_state(a, set).0 + scan::pieces_state(
            b,
            set,
        ).0,
        scan::pieces_state(a + b, set).1 == scan::pieces_state(b, set).1,
    decreases b.len(),
{
    if b.len() == 0 {
        assert(a + b =~= a);
        assert(scan::pieces_state(a, set).0 + scan::pieces_state(b, set).0 =~= scan::pieces_state(
            a,
            set,
        ).0);
        assert(scan::pieces_state(a, set).1 =~= scan::pieces_state(b, set).1);
    } else {
        lemma_pieces_behind(a, b.drop_last(), set);
        assert((a + b).drop_last() =~= a + b.drop_last());
        assert((a + b).last() == b.last());
        let d = scan::pieces_state(a, set).0;
        let (done, piece) = scan::pieces_state(b.drop_last(), set);
        assert((d + done).push(piece) =~= d + done.push(piece));
    }
}

/// A character of the set parts pieces: the pieces of two texts with it between
/// them are those of the one and then those of the other.
pub proof fn marks_part_pieces(a: Seq<char>, c: char, b: Seq<char>, set: Seq<char>)
    requires
        set.contains(c),
    ensures
        scan::pieces_of(a.push(c) + b, set) == scan::pieces_of(a, set) + scan::pieces_of(b, set),
{
    let front = a.push(c);
    assert(front.drop_last() =~= a);
    assert(scan::pieces_state(front, set).0 =~= scan::pieces_of(a, set));
    lemma_pieces_behind(front, b, set);
    let d = scan::pieces_of(a, set);
    let (done, piece) = scan::pieces_state(b, set);
    assert((d + done).push(piece) =~= d + done.push(piece));
}

proof fn lemma_one_piece(s: Seq<char>, set: Seq<char>)
    requires
        forall|i: int| 0 <= i < s.len() ==> !set.contains(#[trigger] s[i]),
    ensures
        scan::pieces_state(s, set) == (Seq::<Seq<char>>::empty(), s),
    decreases s.len(),
{
    if s.len() > 0 {
        let t = s.drop_last();
        assert forall|i: int| 0 <= i < t.len() implies !set.contains(#[trigger] t[i]) by {
            assert(t[i] == s[i]);
        }
        lemma_one_piece(t, set);
        assert(t.push(s.last()) =~= s);
        assert(!set.contains(s[s.len() - 1]));
    } else {
        assert(s =~= Seq::empty());
    }
}

/// A text without characters of the set is one piece, or none where it is empty.
pub proof fn texts_without_marks_are_pieces(s: Seq<char>, set: Seq<char>)
    requires
        forall|i: int| 0 <= i < s.len() ==> !set.contains(#[trigger] s[i]),
    ensures
        s.len() > 0 ==> scan::pieces_of(s, set) == seq![s],
        s.len() == 0 ==> scan::pieces_of(s, set).len() == 0,
{
    lemma_one_piece(s, set);
    assert(Seq::<Seq<char>>::empty().push(s) =~= seq![s]);
}

/// Joining puts the separator between two lists of parts, where both have some.
pub proof fn joining_goes_part_by_part(a: Seq<Seq<char>>, b: Seq<Seq<char>>, sep: Seq<char>)
    ensures
        a.len() > 0 && b.len() > 0 ==> text::joined(a + b, sep) == text::joined(a, sep) + sep
            + text::joined(b, sep),
        a.len() == 1 ==> text::joined(a, sep) == a[0],
        a.len() == 0 ==> text::joined(a, sep).len() == 0,
    decreases b.len(),
{
    if a.len() > 0 && b.len() > 0 {
        let t = b.drop_last();
        joining_goes_part_by_part(a, t, sep);
        assert((a + b).drop_last() =~= a + t);
        assert((a + b).last() == b.last());
        if t.len() == 0 {
            assert(a + t =~= a);
            assert(b.last() == b[0]);
        } else {
            assert(text::joined(a + b, sep) =~= text::joined(a, sep) + sep + text::joined(b, sep));
        }
    }
}

/// Stripping takes characters of the set from both ends and leaves none there.
pub proof fn stripping_takes_the_ends(s: Seq<char>, set: Seq<char>) -> (ends: (int, int))
    ensures
        0 <= ends.0 <= ends.1 <= s.len(),
        scan::stripped(s, set) == s.subrange(ends.0, ends.1),
        forall|i: int|
            0 <= i < s.len() && !(ends.0 <= i < ends.1) ==> set.contains(#[trigger] s[i]),
        ends.0 < ends.1 ==> !set.contains(s[ends.0]) && !set.contains(s[ends.1 - 1]),
{
    let front = scan::strip_front(s, set);
    let lo = lemma_strip_front(s, set);
    let hi = lemma_strip_back(front, set);
    assert(scan::stripped(s, set) =~= s.subrange(lo, lo + hi));
    assert forall|i: int| 0 <= i < s.len() && !(lo <= i < lo + hi) implies set.contains(
        #[trigger] s[i],
    ) by {
        if i >= lo {
            assert(front[i - lo] == s[i]);
        }
    }
    if 0 < hi {
        assert(front[0] == s[lo]);
        assert(front[hi - 1] == s[lo + hi - 1]);
    }
    (lo, lo + hi)
}

proof fn lemma_strip_front(s: Seq<char>, set: Seq<char>) -> (lo: int)
    ensures
        0 <= lo <= s.len(),
        scan::strip_front(s, set) == s.skip(lo),
        forall|i: int| 0 <= i < lo ==> set.contains(#[trigger] s[i]),
        lo < s.len() ==> !set.contains(s[lo]),
    decreases s.len(),
{
    if s.len() > 0 && set.contains(s[0]) {
        let t = s.drop_first();
        let k = lemma_strip_front(t, set);
        assert(t.skip(k) =~= s.skip(k + 1));
        assert forall|i: int| 0 <= i < k + 1 implies set.contains(#[trigger] s[i]) by {
            if i > 0 {
                assert(t[i - 1] == s[i]);
            }
        }
        if k < t.len() {
            assert(t[k] == s[k + 1]);
        }
        k + 1
    } else {
        assert(s.skip(0) =~= s);
        0
    }
}

proof fn lemma_strip_back(s: Seq<char>, set: Seq<char>) -> (hi: int)
    ensures
        0 <= hi <= s.len(),
        scan::strip_back(s, set) == s.take(hi),
        forall|i: int| hi <= i < s.len() ==> set.contains(#[trigger] s[i]),
        hi > 0 ==> !set.contains(s[hi - 1]),
    decreases s.len(),
{
    if s.len() > 0 && set.contains(s.last()) {
        let t = s.drop_last();
        let k = lemma_strip_back(t, set);
        assert(t.take(k) =~= s.take(k));
        assert forall|i: int| k <= i < s.len() implies set.contains(#[trigger] s[i]) by {
            if i < t.len() {
                assert(t[i] == s[i]);
            }
        }
        k
    } else {
        assert(s.take(s.len() as int) =~= s);
        s.len() as int
    }
}

} // verus!
