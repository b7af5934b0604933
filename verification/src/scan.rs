//! Taking texts apart by sets of characters, and paths into their parts.

use vstd::prelude::*;
use vstd::string::*;

use crate::json;
use crate::text;
use crate::text::{from_chars, lemma_strings_push, to_chars};

verus! {

/// How many characters a text has.
pub fn char_count(s: &str) -> (r: usize)
    ensures
        r == s@.len(),
{
    to_chars(s).len()
}

fn is_in(set: &Vec<char>, c: char) -> (r: bool)
    ensures
        r == set@.contains(c),
{
    let mut i: usize = 0;
    while i < set.len()
        invariant
            i <= set@.len(),
            forall|k: int| 0 <= k < i ==> set@[k] != c,
        decreases set@.len() - i,
    {
        if set[i] == c {
            return true;
        }
        i += 1;
    }
    false
}

/// Positions as mathematical numbers.
pub open spec fn places(v: Seq<usize>) -> Seq<int> {
    Seq::new(v.len(), |i: int| v[i] as int)
}

/// Whether a position is listed.
pub fn holds_place(v: &Vec<usize>, x: usize) -> (r: bool)
    ensures
        r == places(v@).contains(x as int),
{
    let mut i: usize = 0;
    while i < v.len()
        invariant
            i <= v@.len(),
            forall|k: int| 0 <= k < i ==> v@[k] != x,
        decreases v@.len() - i,
    {
        if v[i] == x {
            assert(places(v@)[i as int] == x as int);
            return true;
        }
        i += 1;
    }
    assert forall|k: int| 0 <= k < places(v@).len() implies places(v@)[k] != x as int by {
        assert(v@[k] != x);
    }
    false
}

/// A text without the characters of a set at its start.
pub open spec fn strip_front(s: Seq<char>, set: Seq<char>) -> Seq<char>
    decreases s.len(),
{
    if s.len() > 0 && set.contains(s[0]) {
        strip_front(s.drop_first(), set)
    } else {
        s
    }
}

/// A text without the characters of a set at its end.
pub open spec fn strip_back(s: Seq<char>, set: Seq<char>) -> Seq<char>
    decreases s.len(),
{
    if s.len() > 0 && set.contains(s.last()) {
        strip_back(s.drop_last(), set)
    } else {
        s
    }
}

/// A text without the characters of a set at either end.
pub open spec fn stripped(s: Seq<char>, set: Seq<char>) -> Seq<char> {
    strip_back(strip_front(s, set), set)
}

/// Takes the characters of a set off both ends of a text.
pub fn strip_chars(s: &str, set: &Vec<char>) -> (r: String)
    ensures
        r@ == stripped(s@, set@),
{
    let chars = to_chars(s);
    let n = chars.len();
    let mut lo: usize = 0;
    assert(s@.skip(0) =~= s@);
    while lo < n && is_in(set, chars[lo])
        invariant
            lo <= n,
            n == chars@.len(),
            chars@ == s@,
            strip_front(s@, set@) == strip_front(s@.skip(lo as int), set@),
        ensures
            lo <= n,
            strip_front(s@, set@) == strip_front(s@.skip(lo as int), set@),
            lo == n || !set@.contains(s@[lo as int]),
        decreases n - lo,
    {
        assert(s@.skip(lo as int).drop_first() =~= s@.skip(lo + 1));
        lo += 1;
    }
    let ghost front = s@.skip(lo as int);
    proof {
        if lo < n {
            assert(front[0] == s@[lo as int]);
        }
        assert(strip_front(s@, set@) == front);
    }
    let mut hi: usize = n;
    assert(s@.subrange(lo as int, hi as int) =~= front);
    while hi > lo && is_in(set, chars[hi - 1])
        invariant
            lo <= hi <= n,
            n == chars@.len(),
            chars@ == s@,
            strip_back(front, set@) == strip_back(s@.subrange(lo as int, hi as int), set@),
        ensures
            lo <= hi <= n,
            strip_back(front, set@) == strip_back(s@.subrange(lo as int, hi as int), set@),
            hi == lo || !set@.contains(s@[hi - 1]),
        decreases hi,
    {
        assert(s@.subrange(lo as int, hi as int).drop_last() =~= s@.subrange(lo as int, hi - 1));
        hi -= 1;
    }
    from_chars(&chars, lo, hi)
}

/// Takes the whitespace off the end of a text.
pub fn trim_text_end(s: &str) -> (r: String)
    ensures
        r@ == text::trim_end(s@),
{
    let chars = to_chars(s);
    let mut hi: usize = chars.len();
    assert(s@.take(hi as int) =~= s@);
    while hi > 0 && chars[hi - 1].is_whitespace()
        invariant
            hi <= chars@.len(),
            chars@ == s@,
            text::trim_end(s@) == text::trim_end(s@.take(hi as int)),
        ensures
            hi <= chars@.len(),
            text::trim_end(s@) == text::trim_end(s@.take(hi as int)),
            hi == 0 || !text::char_whitespace(s@[hi - 1]),
        decreases hi,
    {
        assert(s@.take(hi as int).drop_last() =~= s@.take(hi - 1));
        hi -= 1;
    }
    let r = from_chars(&chars, 0, hi);
    assert(r@ =~= s@.take(hi as int));
    r
}

/// Takes the whitespace off the start of a text.
pub fn trim_text_start(s: &str) -> (r: String)
    ensures
        r@ == text::trim_start(s@),
{
    let chars = to_chars(s);
    let n = chars.len();
    let mut lo: usize = 0;
    assert(s@.skip(0) =~= s@);
    while lo < n && chars[lo].is_whitespace()
        invariant
            lo <= n,
            n == chars@.len(),
            chars@ == s@,
            text::trim_start(s@) == text::trim_start(s@.skip(lo as int)),
        ensures
            lo <= n,
            text::trim_start(s@) == text::trim_start(s@.skip(lo as int)),
            lo == n || !text::char_whitespace(s@[lo as int]),
        decreases n - lo,
    {
        assert(s@.skip(lo as int).drop_first() =~= s@.skip(lo + 1));
        lo += 1;
    }
    let r = from_chars(&chars, lo, n);
    assert(r@ =~= s@.skip(lo as int));
    r
}

/// The pieces that are complete behind a prefix of a text, and the piece that
/// the prefix ends in.
pub open spec fn pieces_state(s: Seq<char>, set: Seq<char>) -> (Seq<Seq<char>>, Seq<char>)
    decreases s.len(),
{
    if s.len() == 0 {
        (Seq::empty(), Seq::empty())
    } else {
        let (done, piece) = pieces_state(s.drop_last(), set);
        if !set.contains(s.last()) {
            (done, piece.push(s.last()))
        } else if piece.len() == 0 {
            (done, piece)
        } else {
            (done.push(piece), Seq::empty())
        }
    }
}

/// The pieces of a text: its longest parts without characters of a set.
pub open spec fn pieces_of(s: Seq<char>, set: Seq<char>) -> Seq<Seq<char>> {
    let (done, piece) = pieces_state(s, set);
    if piece.len() == 0 {
        done
    } else {
        done.push(piece)
    }
}

/// The pieces of a text.
pub fn split_pieces(s: &str, set: &Vec<char>) -> (r: Vec<String>)
    ensures
        text::strings(r@) == pieces_of(s@, set@),
{
    let chars = to_chars(s);
    let mut done: Vec<String> = Vec::new();
    let mut piece = String::new();
    let mut i: usize = 0;
    assert(text::strings(done@) =~= Seq::empty());
    while i < chars.len()
        invariant
            i <= chars@.len(),
            pieces_state(chars@.take(i as int), set@) == (text::strings(done@), piece@),
        decreases chars@.len() - i,
    {
        let ghost before = done@;
        assert(chars@.take(i + 1).drop_last() =~= chars@.take(i as int));
        if !is_in(set, chars[i]) {
            piece.push(chars[i]);
        } else if !piece.as_str().is_empty() {
            done.push(piece);
            piece = String::new();
            proof {
                lemma_strings_push(before, done@.last());
                assert(done@ =~= before.push(done@.last()));
            }
        }
        i += 1;
    }
    assert(chars@.take(i as int) =~= s@);
    if !piece.as_str().is_empty() {
        let ghost before = done@;
        done.push(piece);
        proof {
            lemma_strings_push(before, piece);
        }
    }
    done
}

/// The part of a text behind its last slash.
pub open spec fn behind_last_slash(s: Seq<char>) -> Seq<char>
    decreases s.len(),
{
    if s.len() == 0 || s.last() == '/' {
        Seq::empty()
    } else {
        behind_last_slash(s.drop_last()).push(s.last())
    }
}

/// The file name that a path ends in. Slashes and single dots at its end do not
/// count; the names of the present and the parent directory are none.
pub open spec fn file_name_of(path: Seq<char>) -> Option<Seq<char>>
    decreases path.len(),
{
    if path.len() > 0 && path.last() == '/' {
        file_name_of(path.drop_last())
    } else if path.len() > 1 && path.last() == '.' && path[path.len() - 2] == '/' {
        file_name_of(path.drop_last())
    } else {
        let name = behind_last_slash(path);
        if name.len() == 0 || name == seq!['.'] || name == seq!['.', '.'] {
            None
        } else {
            Some(name)
        }
    }
}

/// Where the last dot of a text stands, or -1.
pub open spec fn last_dot(s: Seq<char>) -> int
    decreases s.len(),
{
    if s.len() == 0 {
        -1
    } else if s.last() == '.' {
        s.len() - 1
    } else {
        last_dot(s.drop_last())
    }
}

/// The extension of a file name: what stands behind its last dot, unless that
/// dot is its first character.
pub open spec fn extension_of(path: Seq<char>) -> Option<Seq<char>> {
    match file_name_of(path) {
        Some(name) => if last_dot(name) <= 0 {
            None
        } else {
            Some(name.skip(last_dot(name) + 1))
        },
        None => None,
    }
}

/// A file name without its extension and the dot before it.
pub open spec fn stem_of(path: Seq<char>) -> Option<Seq<char>> {
    match file_name_of(path) {
        Some(name) => if last_dot(name) <= 0 {
            Some(name)
        } else {
            Some(name.take(last_dot(name)))
        },
        None => None,
    }
}

proof fn lemma_behind_last_slash(s: Seq<char>, k: int)
    requires
        0 <= k <= s.len(),
        forall|i: int| k <= i < s.len() ==> s[i] != '/',
        k == 0 || s[k - 1] == '/',
    ensures
        behind_last_slash(s) == s.skip(k),
    decreases s.len(),
{
    if k < s.len() {
        lemma_behind_last_slash(s.drop_last(), k);
        assert(s.drop_last().skip(k).push(s.last()) =~= s.skip(k));
    } else {
        assert(s.skip(k) =~= Seq::<char>::empty());
    }
}

/// The file name that a path ends in.
pub fn path_file_name(path: &str) -> (r: Option<String>)
    ensures
        json::opt_string(r) == file_name_of(path@),
{
    let chars = to_chars(path);
    let mut n: usize = chars.len();
    assert(path@.take(n as int) =~= path@);
    while n > 0 && (chars[n - 1] == '/' || (n > 1 && chars[n - 1] == '.' && chars[n - 2] == '/'))
        invariant
            n <= chars@.len(),
            chars@ == path@,
            file_name_of(path@) == file_name_of(path@.take(n as int)),
        ensures
            n <= chars@.len(),
            file_name_of(path@) == file_name_of(path@.take(n as int)),
            n == 0 || !(path@[n - 1] == '/' || (n > 1 && path@[n - 1] == '.' && path@[n - 2]
                == '/')),
        decreases n,
    {
        assert(path@.take(n as int).drop_last() =~= path@.take(n - 1));
        n -= 1;
    }
    let ghost p = path@.take(n as int);
    let mut k: usize = n;
    while k > 0 && chars[k - 1] != '/'
        invariant
            k <= n <= chars@.len(),
            chars@ == path@,
            p == path@.take(n as int),
            forall|i: int| k <= i < n ==> p[i] != '/',
        ensures
            k <= n,
            forall|i: int| k <= i < n ==> p[i] != '/',
            k == 0 || p[k - 1] == '/',
        decreases k,
    {
        k -= 1;
    }
    proof {
        lemma_behind_last_slash(p, k as int);
    }
    let name = from_chars(&chars, k, n);
    assert(name@ =~= p.skip(k as int));
    let len = n - k;
    if len == 0 {
        return None;
    }
    if len == 1 && chars[k] == '.' {
        assert(name@ =~= seq!['.']);
        return None;
    }
    if len == 2 && chars[k] == '.' && chars[k + 1] == '.' {
        assert(name@ =~= seq!['.', '.']);
        return None;
    }
    proof {
        assert(name@[0] == chars@[k as int]);
        if len >= 2 {
            assert(name@[1] == chars@[k + 1]);
        }
    }
    Some(name)
}

fn find_last_dot(chars: &Vec<char>) -> (r: Option<usize>)
    ensures
        match r {
            Some(i) => last_dot(chars@) == i && i < chars@.len(),
            None => last_dot(chars@) == -1,
        },
{
    let mut n: usize = chars.len();
    assert(chars@.take(n as int) =~= chars@);
    while n > 0
        invariant
            n <= chars@.len(),
            last_dot(chars@) == last_dot(chars@.take(n as int)),
        decreases n,
    {
        assert(chars@.take(n as int).drop_last() =~= chars@.take(n - 1));
        n -= 1;
        if chars[n] == '.' {
            return Some(n);
        }
    }
    None
}

/// The extension of the file that a path names.
pub fn path_extension(path: &str) -> (r: Option<String>)
    ensures
        json::opt_string(r) == extension_of(path@),
{
    match path_file_name(path) {
        Some(name) => {
            let chars = to_chars(name.as_str());
            let n = chars.len();
            match find_last_dot(&chars) {
                Some(i) => if i == 0 {
                    None
                } else {
                    let r = from_chars(&chars, i + 1, n);
                    assert(r@ =~= name@.skip(i + 1));
                    Some(r)
                },
                None => None,
            }
        },
        None => None,
    }
}

/// The name of the file that a path names, without its extension.
pub fn path_stem(path: &str) -> (r: Option<String>)
    ensures
        json::opt_string(r) == stem_of(path@),
{
    match path_file_name(path) {
        Some(name) => {
            let chars = to_chars(name.as_str());
            match find_last_dot(&chars) {
                Some(i) => if i == 0 {
                    Some(name)
                } else {
                    let r = from_chars(&chars, 0, i);
                    assert(r@ =~= name@.take(i as int));
                    Some(r)
                },
                None => Some(name),
            }
        },
        None => None,
    }
}

/// A path with another behind it; one that starts with a slash takes its place.
pub open spec fn joined_path(base: Seq<char>, part: Seq<char>) -> Seq<char> {
    if part.len() > 0 && part[0] == '/' {
        part
    } else if base.len() > 0 && base.last() != '/' {
        base.push('/') + part
    } else {
        base + part
    }
}

/// A path with another behind it.
pub fn path_join(base: &str, part: &str) -> (r: String)
    ensures
        r@ == joined_path(base@, part@),
{
    let head = to_chars(part);
    if head.len() > 0 && head[0] == '/' {
        return part.to_owned();
    }
    let chars = to_chars(base);
    let n = chars.len();
    let mut r = base.to_owned();
    if n > 0 && chars[n - 1] != '/' {
        r.push('/');
    }
    r.append(part);
    r
}

} // verus!
