//! What the nodes of a Markdown document say about its lines: under which
//! headings a line stands, and that no line is lost.

use vstd::prelude::*;
use vstd::string::*;

use crate::case_parser;
use crate::case_parser::{MarkdownView, NodeView, ParseNodeType};
use crate::scan;
use crate::text;

verus! {

/// How many of the first `n` lines open or close a block of code.
pub open spec fn fences_before(lines: Seq<Seq<char>>, n: int) -> nat
    decreases n,
{
    if n <= 0 {
        0
    } else {
        fences_before(lines, n - 1) + (if is_fence_line(lines[n - 1]) {
            1nat
        } else {
            0nat
        })
    }
}

/// Whether a line starts with three backquotes or tildes.
pub open spec fn is_fence_line(line: Seq<char>) -> bool {
    let t = text::trimmed(line);
    t.len() >= 3 && ((t[0] == '`' && t[1] == '`' && t[2] == '`') || (t[0] == '~' && t[1] == '~'
        && t[2] == '~'))
}

/// Whether a line stands in a block of code: an odd number of fences goes before
/// it.
pub open spec fn is_code_line(lines: Seq<Seq<char>>, j: int) -> bool {
    fences_before(lines, j) % 2 == 1 && !is_fence_line(lines[j])
}

/// Whether a line has a level and a title of a heading: as many hash signs as its
/// level, one to six, then space, then the title.
pub open spec fn is_heading_text(line: Seq<char>, level: nat, title: Seq<char>) -> bool {
    let t = text::trimmed(line);
    &&& 1 <= level <= 6
    &&& level < t.len()
    &&& forall|i: int| 0 <= i < level ==> #[trigger] t[i] == '#'
    &&& text::char_whitespace(t[level as int])
    &&& !text::is_blank(title)
    &&& title == text::trimmed(t.skip(level as int))
}

/// Whether a line of a document is a heading of a level and a title.
pub open spec fn is_heading(
    lines: Seq<Seq<char>>,
    j: int,
    level: nat,
    title: Seq<char>,
) -> bool {
    fences_before(lines, j) % 2 == 0 && !is_fence_line(lines[j]) && is_heading_text(
        lines[j],
        level,
        title,
    )
}

/// Whether a line of a document is a heading of a level or of one above it.
pub open spec fn closes_level(lines: Seq<Seq<char>>, j: int, level: nat) -> bool {
    exists|l: nat, t: Seq<char>| l <= level && #[trigger] is_heading(lines, j, l, t)
}

/// Whether the line `h` is a heading that the line `n` stands under: no heading
/// of its level or above comes between them.
pub open spec fn is_open_heading(
    lines: Seq<Seq<char>>,
    h: int,
    n: int,
    level: nat,
    title: Seq<char>,
) -> bool {
    &&& 0 <= h < n
    &&& is_heading(lines, h, level, title)
    &&& forall|j: int| h < j < n ==> !#[trigger] closes_level(lines, j, level)
}

/// Whether the line `n` stands under a heading.
pub open spec fn is_open(lines: Seq<Seq<char>>, n: int, level: nat, title: Seq<char>) -> bool {
    exists|h: int| #[trigger] is_open_heading(lines, h, n, level, title)
}

/// Whether some headings are those that the line `n` stands under, from the first
/// to the last: their levels rise, and each of them is open.
pub open spec fn are_open_headings(
    lines: Seq<Seq<char>>,
    n: int,
    headings: Seq<(nat, Seq<char>)>,
) -> bool {
    &&& forall|i: int, k: int|
        0 <= i < k < headings.len() ==> (#[trigger] headings[i]).0 < (#[trigger] headings[k]).0
    &&& forall|i: int|
        0 <= i < headings.len() ==> is_open(lines, n, (#[trigger] headings[i]).0, headings[i].1)
    &&& forall|h: int, level: nat, title: Seq<char>| #[trigger]
        is_open_heading(lines, h, n, level, title) ==> headings.contains((level, title))
}

proof fn lemma_fence(line: Seq<char>)
    ensures
        is_fence_line(line) == case_parser::is_fence(text::trimmed(line)),
{
    reveal_strlit("```");
    reveal_strlit("~~~");
    let t = text::trimmed(line);
    if t.len() >= 3 {
        assert(t.subrange(0, 3) =~= seq![t[0], t[1], t[2]]);
        assert("```"@ =~= seq!['`', '`', '`']);
        assert("~~~"@ =~= seq!['~', '~', '~']);
        if case_parser::is_fence(t) {
            let s = t.subrange(0, 3);
            assert(s[0] == t[0] && s[1] == t[1] && s[2] == t[2]);
        }
    }
}

proof fn lemma_leading_hashes(s: Seq<char>)
    ensures
        case_parser::leading_hashes(s) <= s.len(),
        forall|i: int| 0 <= i < case_parser::leading_hashes(s) ==> #[trigger] s[i] == '#',
        case_parser::leading_hashes(s) < s.len() ==> s[case_parser::leading_hashes(s) as int]
            != '#',
    decreases s.len(),
{
    if s.len() > 0 && s[0] == '#' {
        let rest = s.drop_first();
        lemma_leading_hashes(rest);
        let n = case_parser::leading_hashes(s);
        assert forall|i: int| 0 <= i < n implies #[trigger] s[i] == '#' by {
            if i > 0 {
                assert(rest[i - 1] == s[i]);
            }
        }
        if n < s.len() {
            assert(rest[n - 1] == s[n as int]);
        }
    }
}

proof fn lemma_heading(line: Seq<char>, level: nat, title: Seq<char>)
    ensures
        is_heading_text(line, level, title) <==> case_parser::heading_of(text::trimmed(line))
            == Some((level, title)),
{
    let t = text::trimmed(line);
    let n = case_parser::leading_hashes(t);
    lemma_leading_hashes(t);
    if is_heading_text(line, level, title) {
        assert(level == n) by {
            if n < level {
                assert(t[n as int] == '#');
            }
            if level < n {
                assert(t[level as int] == '#');
            }
        }
        text::trimming_is_final(t.skip(level as int));
    }
    if case_parser::heading_of(t) == Some((level, title)) {
        text::trimming_is_final(t.skip(level as int));
    }
}

proof fn lemma_fences(lines: Seq<Seq<char>>, more: Seq<Seq<char>>, n: int)
    requires
        0 <= n <= lines.len(),
        n <= more.len(),
        forall|i: int| 0 <= i < n ==> #[trigger] lines[i] == more[i],
    ensures
        fences_before(lines, n) == fences_before(more, n),
    decreases n,
{
    if n > 0 {
        lemma_fences(lines, more, n - 1);
        assert(lines[n - 1] == more[n - 1]);
    }
}

/// After the first `n` lines, a block of code is open just where an odd number
/// of fences was met, and the open headings are those that the next line stands
/// under.
proof fn lemma_headings(lines: Seq<Seq<char>>, n: int)
    requires
        0 <= n <= lines.len(),
    ensures
        ({
            let m = case_parser::after_lines(lines.take(n));
            &&& m.in_code == (fences_before(lines, n) % 2 == 1)
            &&& are_open_headings(lines, n, m.headings)
        }),
    decreases n,
{
    let m = case_parser::after_lines(lines.take(n));
    if n > 0 {
        lemma_headings(lines, n - 1);
        assert(lines.take(n).drop_last() =~= lines.take(n - 1));
        let before = case_parser::after_lines(lines.take(n - 1));
        let line = lines[n - 1];
        assert(lines.take(n).last() == line);
        let t = text::trimmed(line);
        lemma_fence(line);
        lemma_ends_keep_headings(before);
        lemma_ends_keep_headings(case_parser::paragraph_ended(before));
        lemma_ends_keep_headings(case_parser::table_ended(case_parser::paragraph_ended(before)));
        if !before.in_code && !is_fence_line(line) && case_parser::heading_of(t) is Some {
            let (level, title) = case_parser::heading_of(t)->0;
            lemma_heading(line, level, title);
            assert(is_heading(lines, n - 1, level, title));
            lemma_new_heading(lines, n, before.headings, level, title);
            assert(m.headings == case_parser::open_headings(before.headings, level).push(
                (level, title),
            ));
        } else {
            assert(m.headings == before.headings);
            assert forall|l: nat, x: Seq<char>| !#[trigger] is_heading(lines, n - 1, l, x) by {
                lemma_heading(line, l, x);
            }
            assert forall|l: nat| !#[trigger] closes_level(lines, n - 1, l) by {}
            assert forall|i: int| 0 <= i < m.headings.len() implies is_open(
                lines,
                n,
                (#[trigger] m.headings[i]).0,
                m.headings[i].1,
            ) by {
                assert(is_open(lines, n - 1, m.headings[i].0, m.headings[i].1));
                let h = choose|h: int| #[trigger]
                    is_open_heading(lines, h, n - 1, m.headings[i].0, m.headings[i].1);
                assert(is_open_heading(lines, h, n, m.headings[i].0, m.headings[i].1));
            }
            assert forall|h: int, l: nat, x: Seq<char>| #[trigger]
                is_open_heading(lines, h, n, l, x) implies m.headings.contains((l, x)) by {
                assert(is_open_heading(lines, h, n - 1, l, x));
            }
        }
    }
}

proof fn lemma_ends_keep_headings(m: MarkdownView)
    ensures
        case_parser::paragraph_ended(m).headings == m.headings,
        case_parser::table_ended(m).headings == m.headings,
        case_parser::code_ended(m).headings == m.headings,
        case_parser::paragraph_ended(m).in_code == m.in_code,
        case_parser::table_ended(m).in_code == m.in_code,
        case_parser::code_ended(m).in_code == m.in_code,
{
    lemma_rows_keep_headings(MarkdownView { table: Seq::empty(), ..m }, m.table);
}

proof fn lemma_rows_keep_headings(m: MarkdownView, rows: Seq<Seq<char>>)
    ensures
        case_parser::with_rows(m, rows).headings == m.headings,
        case_parser::with_rows(m, rows).in_code == m.in_code,
        case_parser::with_rows(m, rows).paragraph == m.paragraph,
        case_parser::with_rows(m, rows).table == m.table,
        case_parser::with_rows(m, rows).code == m.code,
    decreases rows.len(),
{
    if rows.len() > 0 {
        lemma_rows_keep_headings(m, rows.drop_last());
    }
}

proof fn lemma_open_headings(headings: Seq<(nat, Seq<char>)>, level: nat)
    requires
        forall|i: int, k: int|
            0 <= i < k < headings.len() ==> (#[trigger] headings[i]).0 < (#[trigger] headings[k]).0,
    ensures
        ({
            let kept = case_parser::open_headings(headings, level);
            &&& kept.len() <= headings.len()
            &&& kept == headings.take(kept.len() as int)
            &&& forall|i: int| 0 <= i < kept.len() ==> (#[trigger] headings[i]).0 < level
            &&& forall|i: int| kept.len() <= i < headings.len() ==> (#[trigger] headings[i]).0 >= level
        }),
    decreases headings.len(),
{
    let kept = case_parser::open_headings(headings, level);
    if headings.len() == 0 {
        assert(kept =~= headings.take(0));
    } else {
        let front = headings.drop_last();
        assert forall|i: int, k: int| 0 <= i < k < front.len() implies (#[trigger] front[i]).0 < (
        #[trigger] front[k]).0 by {
            assert(headings[i].0 < headings[k].0);
        }
        lemma_open_headings(front, level);
        let before = case_parser::open_headings(front, level);
        let n = before.len() as int;
        let last = headings.len() - 1;
        if headings.last().0 < level {
            assert forall|i: int| 0 <= i < front.len() implies (#[trigger] front[i]).0 < level by {
                assert(headings[i].0 < headings[last].0);
            }
            assert(n == front.len()) by {
                if n < front.len() {
                    assert(front[n].0 >= level);
                }
            }
            assert(kept =~= headings.take(kept.len() as int));
        } else {
            assert(kept =~= headings.take(n));
        }
        assert forall|i: int| 0 <= i < kept.len() implies (#[trigger] headings[i]).0 < level by {
            if i < n {
                assert(front[i] == headings[i]);
            }
        }
        assert forall|i: int| kept.len() <= i < headings.len() implies (#[trigger] headings[i]).0
            >= level by {
            if i < front.len() {
                assert(front[i] == headings[i]);
            }
        }
    }
}

proof fn lemma_new_heading(
    lines: Seq<Seq<char>>,
    n: int,
    headings: Seq<(nat, Seq<char>)>,
    level: nat,
    title: Seq<char>,
)
    requires
        0 < n <= lines.len(),
        are_open_headings(lines, n - 1, headings),
        is_heading(lines, n - 1, level, title),
    ensures
        are_open_headings(
            lines,
            n,
            case_parser::open_headings(headings, level).push((level, title)),
        ),
{
    lemma_open_headings(headings, level);
    let kept = case_parser::open_headings(headings, level);
    let all = kept.push((level, title));
    assert forall|l: nat| #[trigger] closes_level(lines, n - 1, l) <==> level <= l by {
        if level <= l {
            assert(is_heading(lines, n - 1, level, title));
        }
        if closes_level(lines, n - 1, l) {
            let (p, x) = choose|p: nat, x: Seq<char>|
                p <= l && #[trigger] is_heading(lines, n - 1, p, x);
            lemma_heading(lines[n - 1], p, x);
            lemma_heading(lines[n - 1], level, title);
        }
    }
    assert forall|i: int, k: int| 0 <= i < k < all.len() implies (#[trigger] all[i]).0 < (
    #[trigger] all[k]).0 by {
        assert(all[i] == headings[i]);
        if k < kept.len() {
            assert(headings[i].0 < headings[k].0);
        }
    }
    assert forall|i: int| 0 <= i < all.len() implies is_open(
        lines,
        n,
        (#[trigger] all[i]).0,
        all[i].1,
    ) by {
        if i < kept.len() {
            assert(all[i] == headings[i]);
            assert(is_open(lines, n - 1, headings[i].0, headings[i].1));
            let h = choose|h: int| #[trigger]
                is_open_heading(lines, h, n - 1, headings[i].0, headings[i].1);
            assert forall|j: int| h < j < n implies !#[trigger] closes_level(
                lines,
                j,
                all[i].0,
            ) by {}
            assert(is_open_heading(lines, h, n, all[i].0, all[i].1));
        } else {
            assert(is_open_heading(lines, n - 1, n, level, title));
        }
    }
    assert forall|h: int, l: nat, x: Seq<char>| #[trigger]
        is_open_heading(lines, h, n, l, x) implies all.contains((l, x)) by {
        if h == n - 1 {
            lemma_heading(lines[h], l, x);
            lemma_heading(lines[h], level, title);
            assert(all[kept.len() as int] == (l, x));
        } else {
            assert(!closes_level(lines, n - 1, l));
            assert(is_open_heading(lines, h, n - 1, l, x));
            let i = choose|i: int| 0 <= i < headings.len() && headings[i] == (l, x);
            assert(i < kept.len()) by {
                if i >= kept.len() {
                    assert(headings[i].0 >= level);
                }
            }
            assert(all[i] == (l, x));
        }
    }
}

/// The headings that a line stands under have rising levels. They are exactly
/// the headings before it that no later heading of the same level or above has
/// closed.
pub proof fn headings_close_their_own_level(lines: Seq<Seq<char>>, n: int)
    requires
        0 <= n <= lines.len(),
    ensures
        are_open_headings(lines, n, case_parser::after_lines(lines.take(n)).headings),
{
    lemma_headings(lines, n);
}

/// A heading leaves open just those before it that are of a level above its own,
/// which are the first ones, and comes last itself.
pub proof fn headings_stay_open_above(
    lines: Seq<Seq<char>>,
    n: int,
    level: nat,
    title: Seq<char>,
)
    requires
        0 <= n < lines.len(),
        is_heading(lines, n, level, title),
    ensures
        ({
            let before = case_parser::after_lines(lines.take(n)).headings;
            let after = case_parser::after_lines(lines.take(n + 1)).headings;
            let kept = after.len() - 1;
            &&& 0 <= kept <= before.len()
            &&& after == before.take(kept).push((level, title))
            &&& forall|i: int| 0 <= i < kept ==> (#[trigger] before[i]).0 < level
            &&& forall|i: int| kept <= i < before.len() ==> (#[trigger] before[i]).0 >= level
        }),
{
    lemma_headings(lines, n);
    let m = case_parser::after_lines(lines.take(n));
    assert(lines.take(n + 1).drop_last() =~= lines.take(n));
    assert(lines.take(n + 1).last() == lines[n]);
    lemma_fence(lines[n]);
    lemma_heading(lines[n], level, title);
    lemma_ends_keep_headings(m);
    lemma_ends_keep_headings(case_parser::paragraph_ended(m));
    lemma_open_headings(m.headings, level);
}

/// What a node is given by the headings that it stands under: the last of them is
/// its title and its level, and their titles lead its content.
pub open spec fn stands_under(n: NodeView, headings: Seq<(nat, Seq<char>)>) -> bool {
    if headings.len() == 0 {
        n.level == 0 && n.title is None
    } else {
        &&& n.level == headings.last().0
        &&& n.title == Some(headings.last().1)
        &&& text::starts_with(
            n.content,
            text::joined(case_parser::titles(headings), " > "@) + "\n\n"@,
        )
    }
}

/// Whether a node of a type under some headings holds a text.
pub open spec fn is_held(
    nodes: Seq<NodeView>,
    t: Seq<char>,
    node_type: ParseNodeType,
    headings: Seq<(nat, Seq<char>)>,
) -> bool {
    exists|k: int|
        0 <= k < nodes.len() && (#[trigger] nodes[k]).node_type == node_type && text::contains_text(
            nodes[k].content,
            t,
        ) && stands_under(nodes[k], headings)
}

/// Whether a text is a cell of a row of a table that is no rule.
pub open spec fn is_cell(row: Seq<char>, t: Seq<char>) -> bool {
    !case_parser::is_table_rule(row) && exists|i: int|
        0 <= i < text::split_on(scan::stripped(row, seq!['|']), '|').len() && text::trimmed(
            #[trigger] text::split_on(scan::stripped(row, seq!['|']), '|')[i],
        ) == t
}

/// Whether a line of a document has a text to be kept in a node of a type. In a
/// block of code it is the line itself; a row of a table has its cells; any other
/// line that is no heading is text. The space around a text does not count.
pub open spec fn says(
    lines: Seq<Seq<char>>,
    j: int,
    t: Seq<char>,
    node_type: ParseNodeType,
) -> bool {
    let line = text::trimmed(lines[j]);
    &&& t.len() > 0
    &&& !is_fence_line(lines[j])
    &&& match node_type {
        ParseNodeType::Code => is_code_line(lines, j) && t == line,
        ParseNodeType::Table => !is_code_line(lines, j) && case_parser::is_table_row(line)
            && is_cell(line, t),
        ParseNodeType::Text => !is_code_line(lines, j) && t == line
            && !case_parser::is_table_row(line) && forall|l: nat, x: Seq<char>|
            !#[trigger] is_heading_text(lines[j], l, x),
    }
}

spec fn in_buffer(m: MarkdownView, t: Seq<char>, node_type: ParseNodeType) -> bool {
    match node_type {
        ParseNodeType::Text => m.paragraph.contains(t),
        ParseNodeType::Code => exists|k: int|
            0 <= k < m.code.len() && text::trimmed(#[trigger] m.code[k]) == t,
        ParseNodeType::Table => exists|k: int|
            0 <= k < m.table.len() && is_cell(#[trigger] m.table[k], t),
    }
}

spec fn is_kept(
    m: MarkdownView,
    t: Seq<char>,
    node_type: ParseNodeType,
    headings: Seq<(nat, Seq<char>)>,
) -> bool {
    is_held(m.nodes, t, node_type, headings) || (m.headings == headings && in_buffer(
        m,
        t,
        node_type,
    ))
}

proof fn lemma_part_is_contained(parts: Seq<Seq<char>>, sep: Seq<char>, i: int) -> (p: int)
    requires
        0 <= i < parts.len(),
    ensures
        text::stands_at(text::joined(parts, sep), parts[i], p),
    decreases parts.len(),
{
    let all = text::joined(parts, sep);
    if parts.len() == 1 {
        assert(all.subrange(0, all.len() as int) =~= all);
        0
    } else {
        let front = text::joined(parts.drop_last(), sep);
        if i == parts.len() - 1 {
            let p = (front + sep).len() as int;
            assert(all.subrange(p, p + parts[i].len()) =~= parts[i]);
            p
        } else {
            assert(parts.drop_last()[i] == parts[i]);
            let p = lemma_part_is_contained(parts.drop_last(), sep, i);
            assert(all.subrange(p, p + parts[i].len()) =~= front.subrange(
                p,
                p + parts[i].len(),
            ));
            p
        }
    }
}

proof fn lemma_contains_part(s: Seq<char>, p: int, part: Seq<char>, q: int, t: Seq<char>)
    requires
        text::stands_at(s, part, p),
        text::stands_at(part, t, q),
    ensures
        text::stands_at(s, t, p + q),
{
    assert(s.subrange(p + q, p + q + t.len()) =~= s.subrange(p, p + part.len()).subrange(
        q,
        q + t.len(),
    ));
}

/// A text that neither starts nor ends with space survives trimming.
proof fn lemma_survives_trimming(s: Seq<char>, p: int, t: Seq<char>)
    requires
        text::stands_at(s, t, p),
        t.len() > 0,
        text::trimmed(t) == t,
    ensures
        text::contains_text(text::trimmed(s), t),
{
    text::trimming_is_final(t);
    let sub = s.subrange(p, p + t.len());
    assert(sub[0] == s[p] && sub[t.len() - 1] == s[p + t.len() - 1]);
    let lo = text::lemma_trim_start_bounds(s);
    let front = text::trim_start(s);
    let hi = text::lemma_trim_end_bounds(front);
    assert(lo <= p) by {
        if lo > p {
            assert(text::char_whitespace(s[p]));
        }
    }
    assert(front[p + t.len() - 1 - lo] == s[p + t.len() - 1]);
    assert(p + t.len() - lo <= hi) by {
        if p + t.len() - lo > hi {
            assert(text::char_whitespace(front[p + t.len() - 1 - lo]));
        }
    }
    let r = text::trimmed(s);
    assert(r.subrange(p - lo, p - lo + t.len()) =~= sub);
    assert(text::stands_at(r, t, p - lo));
}

proof fn lemma_trimmed_is_contained(s: Seq<char>) -> (p: int)
    ensures
        text::stands_at(s, text::trimmed(s), p),
{
    let lo = text::lemma_trim_start_bounds(s);
    let hi = text::lemma_trim_end_bounds(text::trim_start(s));
    assert(s.subrange(lo, lo + hi) =~= text::trimmed(s));
    lo
}

/// A node that is made of a content holds what the content holds.
proof fn lemma_node_holds(
    m: MarkdownView,
    node_type: ParseNodeType,
    content: Seq<char>,
    t: Seq<char>,
    p: int,
)
    requires
        t.len() > 0,
        text::trimmed(t) == t,
        text::stands_at(content, t, p),
    ensures
        is_held(case_parser::with_node(m, node_type, content).nodes, t, node_type, m.headings),
{
    let nodes = case_parser::with_node(m, node_type, content).nodes;
    let k = m.nodes.len() as int;
    let n = nodes[k];
    let body = text::trimmed(content);
    lemma_survives_trimming(content, p, t);
    let q = choose|q: int| #[trigger] text::stands_at(body, t, q);
    if m.headings.len() == 0 {
        assert(text::stands_at(n.content, t, q));
    } else {
        let lead = text::joined(case_parser::titles(m.headings), " > "@) + "\n\n"@;
        assert(n.content == lead + body);
        assert(n.content.subrange(lead.len() as int, lead.len() as int + body.len()) =~= body);
        assert(text::stands_at(n.content, body, lead.len() as int));
        lemma_contains_part(n.content, lead.len() as int, body, q, t);
        assert(n.content.subrange(0, lead.len() as int) =~= lead);
        assert(text::stands_at(n.content, lead, 0));
    }
    assert(text::contains_text(n.content, t));
    assert(stands_under(n, m.headings));
}

proof fn lemma_held_stays(
    nodes: Seq<NodeView>,
    n: NodeView,
    t: Seq<char>,
    node_type: ParseNodeType,
    headings: Seq<(nat, Seq<char>)>,
)
    requires
        is_held(nodes, t, node_type, headings),
    ensures
        is_held(nodes.push(n), t, node_type, headings),
{
    let k = choose|k: int|
        0 <= k < nodes.len() && (#[trigger] nodes[k]).node_type == node_type && text::contains_text(
            nodes[k].content,
            t,
        ) && stands_under(nodes[k], headings);
    assert(nodes.push(n)[k] == nodes[k]);
}

proof fn lemma_paragraph_ended_keeps(
    m: MarkdownView,
    t: Seq<char>,
    node_type: ParseNodeType,
    headings: Seq<(nat, Seq<char>)>,
)
    requires
        t.len() > 0,
        text::trimmed(t) == t,
        is_kept(m, t, node_type, headings),
    ensures
        is_kept(case_parser::paragraph_ended(m), t, node_type, headings),
        is_held(m.nodes, t, node_type, headings) ==> is_held(
            case_parser::paragraph_ended(m).nodes,
            t,
            node_type,
            headings,
        ),
        node_type == ParseNodeType::Text ==> is_held(
            case_parser::paragraph_ended(m).nodes,
            t,
            node_type,
            headings,
        ),
{
    let all = text::joined(m.paragraph, "\n"@);
    let content = text::trimmed(all);
    let closed = MarkdownView { paragraph: Seq::empty(), ..m };
    let r = case_parser::paragraph_ended(m);
    assert(r.table == m.table && r.code == m.code && r.headings == m.headings);
    if is_held(m.nodes, t, node_type, headings) {
        if r.nodes != m.nodes {
            lemma_held_stays(m.nodes, r.nodes.last(), t, node_type, headings);
            assert(r.nodes =~= m.nodes.push(r.nodes.last()));
        }
    } else if node_type == ParseNodeType::Text {
        let i = m.paragraph.index_of(t);
        let p = lemma_part_is_contained(m.paragraph, "\n"@, i);
        lemma_survives_trimming(all, p, t);
        let q = choose|q: int| #[trigger] text::stands_at(content, t, q);
        lemma_node_holds(closed, ParseNodeType::Text, content, t, q);
    }
}

proof fn lemma_code_ended_keeps(
    m: MarkdownView,
    t: Seq<char>,
    node_type: ParseNodeType,
    headings: Seq<(nat, Seq<char>)>,
)
    requires
        t.len() > 0,
        text::trimmed(t) == t,
        is_kept(m, t, node_type, headings),
    ensures
        is_kept(case_parser::code_ended(m), t, node_type, headings),
        is_held(m.nodes, t, node_type, headings) ==> is_held(
            case_parser::code_ended(m).nodes,
            t,
            node_type,
            headings,
        ),
        node_type == ParseNodeType::Code ==> is_held(
            case_parser::code_ended(m).nodes,
            t,
            node_type,
            headings,
        ),
{
    let all = text::joined(m.code, "\n"@);
    let content = text::trimmed(all);
    let closed = MarkdownView { code: Seq::empty(), ..m };
    let r = case_parser::code_ended(m);
    assert(r.table == m.table && r.paragraph == m.paragraph && r.headings == m.headings);
    if is_held(m.nodes, t, node_type, headings) {
        if r.nodes != m.nodes {
            lemma_held_stays(m.nodes, r.nodes.last(), t, node_type, headings);
            assert(r.nodes =~= m.nodes.push(r.nodes.last()));
        }
    } else if node_type == ParseNodeType::Code {
        let i = choose|i: int| 0 <= i < m.code.len() && text::trimmed(#[trigger] m.code[i]) == t;
        let p = lemma_part_is_contained(m.code, "\n"@, i);
        let o = lemma_trimmed_is_contained(m.code[i]);
        lemma_contains_part(all, p, m.code[i], o, t);
        lemma_survives_trimming(all, p + o, t);
        let q = choose|q: int| #[trigger] text::stands_at(content, t, q);
        lemma_node_holds(closed, ParseNodeType::Code, content, t, q);
    }
}

proof fn lemma_cell_is_filled(parts: Seq<Seq<char>>, i: int) -> (k: int)
    requires
        0 <= i < parts.len(),
        !text::is_blank(parts[i]),
    ensures
        0 <= k < case_parser::filled_cells(parts).len(),
        case_parser::filled_cells(parts)[k] == text::trimmed(parts[i]),
    decreases parts.len(),
{
    let front = parts.drop_last();
    if i == parts.len() - 1 {
        case_parser::filled_cells(parts).len() - 1
    } else {
        assert(front[i] == parts[i]);
        lemma_cell_is_filled(front, i)
    }
}

proof fn lemma_rows_keep(
    m: MarkdownView,
    rows: Seq<Seq<char>>,
    t: Seq<char>,
    node_type: ParseNodeType,
    headings: Seq<(nat, Seq<char>)>,
)
    requires
        t.len() > 0,
        text::trimmed(t) == t,
        is_held(m.nodes, t, node_type, headings) || (node_type == ParseNodeType::Table
            && m.headings == headings && exists|k: int|
            0 <= k < rows.len() && is_cell(#[trigger] rows[k], t)),
    ensures
        is_held(case_parser::with_rows(m, rows).nodes, t, node_type, headings),
    decreases rows.len(),
{
    if rows.len() > 0 {
        let front = rows.drop_last();
        let row = rows.last();
        let before = case_parser::with_rows(m, front);
        let r = case_parser::with_rows(m, rows);
        lemma_rows_keep_headings(m, front);
        if is_held(m.nodes, t, node_type, headings) || exists|k: int|
            0 <= k < front.len() && is_cell(#[trigger] front[k], t) {
            lemma_rows_keep(m, front, t, node_type, headings);
            if r.nodes != before.nodes {
                lemma_held_stays(before.nodes, r.nodes.last(), t, node_type, headings);
                assert(r.nodes =~= before.nodes.push(r.nodes.last()));
            }
        } else {
            let k = choose|k: int| 0 <= k < rows.len() && is_cell(#[trigger] rows[k], t);
            if k < front.len() {
                assert(is_cell(front[k], t));
            }
            let parts = text::split_on(scan::stripped(row, seq!['|']), '|');
            let i = choose|i: int| 0 <= i < parts.len() && text::trimmed(#[trigger] parts[i]) == t;
            let c = lemma_cell_is_filled(parts, i);
            let cells = case_parser::filled_cells(parts);
            let p = lemma_part_is_contained(cells, " | "@, c);
            assert(case_parser::row_text(row).len() > 0);
            lemma_node_holds(before, ParseNodeType::Table, case_parser::row_text(row), t, p);
        }
    }
}

proof fn lemma_table_ended_keeps(
    m: MarkdownView,
    t: Seq<char>,
    node_type: ParseNodeType,
    headings: Seq<(nat, Seq<char>)>,
)
    requires
        t.len() > 0,
        text::trimmed(t) == t,
        is_kept(m, t, node_type, headings),
    ensures
        is_kept(case_parser::table_ended(m), t, node_type, headings),
        is_held(m.nodes, t, node_type, headings) ==> is_held(
            case_parser::table_ended(m).nodes,
            t,
            node_type,
            headings,
        ),
        node_type == ParseNodeType::Table ==> is_held(
            case_parser::table_ended(m).nodes,
            t,
            node_type,
            headings,
        ),
{
    let closed = MarkdownView { table: Seq::empty(), ..m };
    lemma_rows_keep_headings(closed, m.table);
    if is_held(m.nodes, t, node_type, headings) || node_type == ParseNodeType::Table {
        lemma_rows_keep(closed, m.table, t, node_type, headings);
    }
}

proof fn lemma_line_keeps(
    m: MarkdownView,
    line: Seq<char>,
    t: Seq<char>,
    node_type: ParseNodeType,
    headings: Seq<(nat, Seq<char>)>,
)
    requires
        t.len() > 0,
        text::trimmed(t) == t,
        is_kept(m, t, node_type, headings),
        node_type == ParseNodeType::Code && !is_held(m.nodes, t, node_type, headings)
            ==> m.in_code,
    ensures
        is_kept(case_parser::after_line(m, line), t, node_type, headings),
        node_type == ParseNodeType::Code && !is_held(
            case_parser::after_line(m, line).nodes,
            t,
            node_type,
            headings,
        ) ==> case_parser::after_line(m, line).in_code,
{
    let r = case_parser::after_line(m, line);
    let x = text::trimmed(line);
    let p = case_parser::paragraph_ended(m);
    lemma_paragraph_ended_keeps(m, t, node_type, headings);
    lemma_table_ended_keeps(p, t, node_type, headings);
    lemma_table_ended_keeps(m, t, node_type, headings);
    lemma_code_ended_keeps(m, t, node_type, headings);
    lemma_ends_keep_headings(m);
    lemma_ends_keep_headings(p);
    if case_parser::is_fence(x) {
        if m.in_code {
            let c = case_parser::code_ended(m);
            assert(r.nodes == c.nodes && r.headings == c.headings && r.paragraph == c.paragraph
                && r.table == c.table && r.code == c.code);
            assert(in_buffer(r, t, node_type) == in_buffer(c, t, node_type));
        } else {
            let c = case_parser::table_ended(p);
            assert(in_buffer(r, t, node_type) == in_buffer(c, t, node_type));
        }
    } else if m.in_code {
        assert(r.nodes == m.nodes && r.headings == m.headings && r.paragraph == m.paragraph
            && r.table == m.table);
        if !is_held(m.nodes, t, node_type, headings) && node_type == ParseNodeType::Code {
            let k = choose|k: int| 0 <= k < m.code.len() && text::trimmed(#[trigger] m.code[k]) == t;
            assert(r.code[k] == m.code[k]);
        }
    } else if case_parser::heading_of(x) is Some {
    } else if x.len() == 0 {
    } else if case_parser::is_table_row(x) {
        if !is_held(p.nodes, t, node_type, headings) && node_type == ParseNodeType::Table {
            let k = choose|k: int| 0 <= k < p.table.len() && is_cell(#[trigger] p.table[k], t);
            assert(r.table[k] == p.table[k]);
        }
    } else {
        let c = case_parser::table_ended(m);
        if !is_held(c.nodes, t, node_type, headings) && node_type == ParseNodeType::Text {
            let k = c.paragraph.index_of(t);
            assert(r.paragraph[k] == t);
        }
    }
}

proof fn lemma_line_says(lines: Seq<Seq<char>>, j: int, t: Seq<char>, node_type: ParseNodeType)
    requires
        0 <= j < lines.len(),
        says(lines, j, t, node_type),
    ensures
        text::trimmed(t) == t,
        ({
            let before = case_parser::after_lines(lines.take(j));
            let m = case_parser::after_lines(lines.take(j + 1));
            &&& is_kept(m, t, node_type, before.headings)
            &&& node_type == ParseNodeType::Code ==> m.in_code
        }),
{
    let before = case_parser::after_lines(lines.take(j));
    let m = case_parser::after_lines(lines.take(j + 1));
    let x = text::trimmed(lines[j]);
    assert(lines.take(j + 1).drop_last() =~= lines.take(j));
    assert(lines.take(j + 1).last() == lines[j]);
    lemma_headings(lines, j);
    lemma_fence(lines[j]);
    text::trimming_is_final(lines[j]);
    lemma_ends_keep_headings(before);
    match node_type {
        ParseNodeType::Code => {
            assert(m.code[before.code.len() as int] == lines[j]);
        },
        ParseNodeType::Table => {
            let parts = text::split_on(scan::stripped(x, seq!['|']), '|');
            let i = choose|i: int| 0 <= i < parts.len() && text::trimmed(#[trigger] parts[i]) == t;
            text::trimming_is_final(parts[i]);
            assert(case_parser::heading_of(x) is None) by {
                if case_parser::heading_of(x) is Some {
                    let (l, y) = case_parser::heading_of(x)->0;
                    lemma_leading_hashes(x);
                    assert(x[0] == '#');
                }
            }
            let p = case_parser::paragraph_ended(before);
            assert(m.table[p.table.len() as int] == x);
        },
        ParseNodeType::Text => {
            assert(case_parser::heading_of(x) is None) by {
                if case_parser::heading_of(x) is Some {
                    let (l, y) = case_parser::heading_of(x)->0;
                    lemma_heading(lines[j], l, y);
                    assert(is_heading_text(lines[j], l, y));
                }
            }
            let c = case_parser::table_ended(before);
            assert(m.paragraph[c.paragraph.len() as int] == t);
        },
    }
}

proof fn lemma_lines_keep(
    lines: Seq<Seq<char>>,
    j: int,
    n: int,
    t: Seq<char>,
    node_type: ParseNodeType,
)
    requires
        0 <= j < n <= lines.len(),
        says(lines, j, t, node_type),
    ensures
        text::trimmed(t) == t,
        ({
            let m = case_parser::after_lines(lines.take(n));
            let headings = case_parser::after_lines(lines.take(j)).headings;
            &&& is_kept(m, t, node_type, headings)
            &&& node_type == ParseNodeType::Code && !is_held(m.nodes, t, node_type, headings)
                ==> m.in_code
        }),
    decreases n,
{
    if n == j + 1 {
        lemma_line_says(lines, j, t, node_type);
    } else {
        lemma_lines_keep(lines, j, n - 1, t, node_type);
        assert(lines.take(n).drop_last() =~= lines.take(n - 1));
        assert(lines.take(n).last() == lines[n - 1]);
        lemma_line_keeps(
            case_parser::after_lines(lines.take(n - 1)),
            lines[n - 1],
            t,
            node_type,
            case_parser::after_lines(lines.take(j)).headings,
        );
    }
}

/// No line of a Markdown document is lost. What a line says, as text, as code or
/// as the cells of a row, is held by a node of that type, and the node stands
/// under the headings that the line stands under.
pub proof fn nodes_hold_every_line(
    content: Seq<char>,
    j: int,
    t: Seq<char>,
    node_type: ParseNodeType,
)
    requires
        0 <= j < text::lines_of(content).len(),
        says(text::lines_of(content), j, t, node_type),
    ensures
        exists|headings: Seq<(nat, Seq<char>)>| #[trigger]
            are_open_headings(text::lines_of(content), j, headings) && is_held(
                case_parser::markdown_nodes(content),
                t,
                node_type,
                headings,
            ),
{
    let lines = text::lines_of(content);
    let n = lines.len() as int;
    let m = case_parser::after_lines(lines.take(n));
    let headings = case_parser::after_lines(lines.take(j)).headings;
    lemma_headings(lines, j);
    lemma_lines_keep(lines, j, n, t, node_type);
    assert(lines.take(n) =~= lines);
    let p = case_parser::paragraph_ended(m);
    let c = case_parser::table_ended(p);
    lemma_paragraph_ended_keeps(m, t, node_type, headings);
    lemma_table_ended_keeps(p, t, node_type, headings);
    lemma_code_ended_keeps(c, t, node_type, headings);
    lemma_ends_keep_headings(m);
    lemma_ends_keep_headings(p);
    if node_type == ParseNodeType::Text {
        lemma_table_held(p, t, node_type, headings);
        lemma_code_held(c, t, node_type, headings);
    } else if node_type == ParseNodeType::Table {
        lemma_code_held(c, t, node_type, headings);
    } else {
        lemma_code_line_held(m, t, headings);
    }
    assert(is_held(case_parser::markdown_nodes(content), t, node_type, headings));
}

proof fn lemma_table_held(
    m: MarkdownView,
    t: Seq<char>,
    node_type: ParseNodeType,
    headings: Seq<(nat, Seq<char>)>,
)
    requires
        t.len() > 0,
        text::trimmed(t) == t,
        is_held(m.nodes, t, node_type, headings),
    ensures
        is_held(case_parser::table_ended(m).nodes, t, node_type, headings),
{
    lemma_rows_keep(MarkdownView { table: Seq::empty(), ..m }, m.table, t, node_type, headings);
}

proof fn lemma_code_held(
    m: MarkdownView,
    t: Seq<char>,
    node_type: ParseNodeType,
    headings: Seq<(nat, Seq<char>)>,
)
    requires
        is_held(m.nodes, t, node_type, headings),
    ensures
        is_held(case_parser::code_ended(m).nodes, t, node_type, headings),
{
    let r = case_parser::code_ended(m);
    if r.nodes != m.nodes {
        lemma_held_stays(m.nodes, r.nodes.last(), t, node_type, headings);
        assert(r.nodes =~= m.nodes.push(r.nodes.last()));
    }
}

proof fn lemma_code_line_held(m: MarkdownView, t: Seq<char>, headings: Seq<(nat, Seq<char>)>)
    requires
        t.len() > 0,
        text::trimmed(t) == t,
        is_kept(m, t, ParseNodeType::Code, headings),
        !is_held(m.nodes, t, ParseNodeType::Code, headings) ==> m.in_code,
    ensures
        is_held(case_parser::document_ended(m).nodes, t, ParseNodeType::Code, headings),
{
    let p = case_parser::paragraph_ended(m);
    let c = case_parser::table_ended(p);
    lemma_paragraph_ended_keeps(m, t, ParseNodeType::Code, headings);
    lemma_table_ended_keeps(p, t, ParseNodeType::Code, headings);
    lemma_ends_keep_headings(m);
    lemma_ends_keep_headings(p);
    if is_held(m.nodes, t, ParseNodeType::Code, headings) {
        if p.nodes != m.nodes {
            lemma_held_stays(m.nodes, p.nodes.last(), t, ParseNodeType::Code, headings);
            assert(p.nodes =~= m.nodes.push(p.nodes.last()));
        }
        lemma_table_held(p, t, ParseNodeType::Code, headings);
        lemma_code_held(c, t, ParseNodeType::Code, headings);
    } else {
        lemma_code_ended_keeps(c, t, ParseNodeType::Code, headings);
    }
}

} // verus!
