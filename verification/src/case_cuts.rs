//! Where the chunker cuts and where it joins.

use vstd::prelude::*;

use crate::case_chunker;
use crate::case_chunker::{
    after_sentence, ascii_count, chunks_of, counted, fitting_len, fitting_prefix, joined_segments,
    merged_pieces, pending_ended, sentences_of, sentences_state, spaced, starting_pieces,
    with_piece, CutView, PartView, PieceView, RoughTokenCounter, TokenCounter,
};
use crate::case_parser::{NodeView, ParseNodeType, ParseTopology};
use crate::text;

verus! {

/// Whether a chunk says how its document was read and how many tokens it has, and
/// has no space around it.
pub open spec fn is_counted<C: TokenCounter>(
    p: PartView,
    topology: ParseTopology,
    counter: C,
) -> bool {
    &&& counter.tokens(p.content) == Ok::<nat, Seq<char>>(p.token_count)
    &&& p.parse_topology == topology
    &&& p.content.len() > 0
    &&& text::trimmed(p.content) == p.content
}

proof fn lemma_counted<C: TokenCounter>(
    pieces: Seq<PieceView>,
    topology: ParseTopology,
    counter: C,
    i: int,
)
    requires
        counted(pieces, topology, counter) is Ok,
        0 <= i < counted(pieces, topology, counter)->Ok_0.len(),
    ensures
        is_counted(counted(pieces, topology, counter)->Ok_0[i], topology, counter),
    decreases pieces.len(),
{
    let t = pieces.drop_last();
    let before = counted(t, topology, counter)->Ok_0;
    if i < before.len() {
        lemma_counted(t, topology, counter, i);
    } else {
        text::trimming_is_final(pieces.last().content);
    }
}

/// Every chunk has the number of tokens that are counted in it, says how its
/// document was read, and is neither blank nor with space around it.
pub proof fn chunks_are_counted<C: TokenCounter>(
    nodes: Seq<NodeView>,
    topology: ParseTopology,
    max_tokens: nat,
    counter: C,
    i: int,
)
    requires
        chunks_of(nodes, topology, max_tokens, counter) is Ok,
        0 <= i < chunks_of(nodes, topology, max_tokens, counter)->Ok_0.len(),
    ensures
        is_counted(
            chunks_of(nodes, topology, max_tokens, counter)->Ok_0[i],
            topology,
            counter,
        ),
{
    let max = case_chunker::budget(max_tokens);
    let merged = merged_pieces(starting_pieces(nodes), max, counter)->Ok_0;
    let cut = case_chunker::after_pieces(merged, max, counter)->Ok_0;
    lemma_counted(pending_ended(cut).chunks, topology, counter, i);
}

/// Whether a piece is what a node starts as.
pub open spec fn is_piece_of(p: PieceView, n: NodeView) -> bool {
    &&& p.content == text::trimmed(n.content)
    &&& p.content.len() > 0
    &&& p.node_type == n.node_type
    &&& p.is_need_space == n.is_need_space
    &&& p.is_need_newline == n.is_need_newline
    &&& p.sources == seq![n.index]
}

/// Pieces start from the nodes that are not blank, one for each, in their order.
pub proof fn pieces_start_from_nodes(nodes: Seq<NodeView>, i: int)
    requires
        0 <= i < starting_pieces(nodes).len(),
    ensures
        ({
            let filled = nodes.filter(|n: NodeView| !text::is_blank(n.content));
            starting_pieces(nodes).len() == filled.len() && is_piece_of(
                starting_pieces(nodes)[i],
                filled[i],
            )
        }),
    decreases nodes.len(),
{
    reveal(Seq::filter);
    let t = nodes.drop_last();
    lemma_as_many_pieces(nodes);
    lemma_as_many_pieces(t);
    if i < starting_pieces(t).len() {
        pieces_start_from_nodes(t, i);
    }
}

proof fn lemma_as_many_pieces(nodes: Seq<NodeView>)
    ensures
        starting_pieces(nodes).len() == nodes.filter(
            |n: NodeView| !text::is_blank(n.content),
        ).len(),
    decreases nodes.len(),
{
    reveal(Seq::filter);
    if nodes.len() > 0 {
        lemma_as_many_pieces(nodes.drop_last());
    }
}

/// A piece that needs a line of its own stands behind one line feed, a piece that
/// needs space behind one space, and any other directly behind the text.
pub proof fn pieces_stand_where_they_need(left: Seq<char>, right: PieceView)
    ensures
        right.is_need_newline ==> spaced(left, right) == text::trim_end(left) + seq!['\n']
            + text::trim_start(right.content),
        !right.is_need_newline && right.is_need_space ==> spaced(left, right) == text::trim_end(
            left,
        ) + seq![' '] + text::trim_start(right.content),
        !right.is_need_newline && !right.is_need_space ==> spaced(left, right) == left
            + right.content,
{
    let l = text::trim_end(left);
    let r = text::trim_start(right.content);
    assert(l.push('\n') + r =~= l + seq!['\n'] + r);
    assert(l.push(' ') + r =~= l + seq![' '] + r);
}

/// Texts that follow each other become one piece if and only if they fit the
/// budget together; anything else stays a piece by itself. What joins keeps the
/// kind of what it joins, and names the sources of both.
pub proof fn texts_join_where_they_fit<C: TokenCounter>(
    pieces: Seq<PieceView>,
    piece: PieceView,
    max: nat,
    counter: C,
)
    requires
        with_piece(pieces, piece, max, counter) is Ok,
    ensures
        ({
            let after = with_piece(pieces, piece, max, counter)->Ok_0;
            let last = pieces.last();
            let texts = pieces.len() > 0 && last.node_type == ParseNodeType::Text
                && piece.node_type == ParseNodeType::Text;
            let fits = texts && counter.tokens(spaced(last.content, piece))->Ok_0 <= max;
            &&& fits <==> after.len() == pieces.len()
            &&& !fits ==> after == pieces.push(piece)
            &&& fits ==> {
                &&& after.drop_last() == pieces.drop_last()
                &&& after.last().content == spaced(last.content, piece)
                &&& after.last().node_type == ParseNodeType::Text
                &&& after.last().is_need_space == last.is_need_space
                &&& after.last().is_need_newline == last.is_need_newline
                &&& names_both(after.last().sources, last.sources, piece.sources)
            }
        }),
{
    let after = with_piece(pieces, piece, max, counter)->Ok_0;
    let last = pieces.last();
    if pieces.len() > 0 && after.len() == pieces.len() {
        assert(after.drop_last() =~= pieces.drop_last());
        lemma_names_both(last.sources, piece.sources);
    }
}

proof fn lemma_sources(sources: Seq<int>, more: Seq<int>, x: int)
    ensures
        case_chunker::with_sources(sources, more).contains(x) <==> sources.contains(x)
            || more.contains(x),
    decreases more.len(),
{
    let after = case_chunker::with_sources(sources, more);
    if more.len() > 0 {
        let t = more.drop_last();
        let before = case_chunker::with_sources(sources, t);
        lemma_sources(sources, t, x);
        if more.contains(x) {
            let k = choose|k: int| 0 <= k < more.len() && more[k] == x;
            if k < t.len() {
                assert(t[k] == x);
            } else if after.len() > before.len() {
                assert(after[before.len() as int] == x);
            }
        }
        if before.contains(x) {
            let k = choose|k: int| 0 <= k < before.len() && before[k] == x;
            assert(after[k] == x);
        }
        if after.contains(x) {
            let k = choose|k: int| 0 <= k < after.len() && after[k] == x;
            if k < before.len() {
                assert(before[k] == x);
            } else {
                assert(more[more.len() - 1] == x);
            }
        }
        if t.contains(x) {
            let k = choose|k: int| 0 <= k < t.len() && t[k] == x;
            assert(more[k] == x);
        }
    }
}

/// Whether sources are those of two lists.
pub open spec fn names_both(sources: Seq<int>, a: Seq<int>, b: Seq<int>) -> bool {
    forall|x: int| #[trigger] sources.contains(x) <==> (a.contains(x) || b.contains(x))
}

proof fn lemma_names_both(a: Seq<int>, b: Seq<int>)
    ensures
        names_both(case_chunker::with_sources(a, b), a, b),
{
    let all = case_chunker::with_sources(a, b);
    assert forall|x: int| #[trigger] all.contains(x) == (a.contains(x) || b.contains(x)) by {
        lemma_sources(a, b, x);
    }
}

/// A sentence joins the text that grows if and only if they fit the budget
/// together; else that text ends, and the sentence starts the next one.
pub proof fn sentences_join_where_they_fit<C: TokenCounter>(
    c: CutView,
    sentence: Seq<char>,
    sources: Seq<int>,
    max: nat,
    counter: C,
)
    requires
        after_sentence(c, sentence, sources, max, counter) is Ok,
    ensures
        ({
            let after = after_sentence(c, sentence, sources, max, counter)->Ok_0;
            let p = c.pending->0;
            let both = joined_segments(p.content, sentence);
            c.pending is Some && counter.tokens(both)->Ok_0 <= max ==> {
                &&& after.chunks == c.chunks
                &&& after.pending is Some
                &&& after.pending->0.content == both
                &&& after.pending->0.node_type == p.node_type
                &&& names_both(after.pending->0.sources, p.sources, sources)
            }
        }),
        ({
            let after = after_sentence(c, sentence, sources, max, counter)->Ok_0;
            let p = c.pending->0;
            let both = joined_segments(p.content, sentence);
            c.pending is Some && counter.tokens(both)->Ok_0 > max ==> {
                &&& after.pending == Some(case_chunker::text_piece(sentence, sources))
                &&& text::is_blank(p.content) ==> after.chunks == c.chunks
                &&& !text::is_blank(p.content) ==> after.chunks == c.chunks.push(
                    PieceView { content: text::trimmed(p.content), ..p },
                )
            }
        }),
        c.pending is None ==> after_sentence(c, sentence, sources, max, counter)->Ok_0 == (CutView {
            chunks: c.chunks,
            pending: Some(case_chunker::text_piece(sentence, sources)),
        }),
{
    let after = after_sentence(c, sentence, sources, max, counter)->Ok_0;
    if c.pending is Some {
        let p = c.pending->0;
        let ended = pending_ended(c);
        if !text::is_blank(p.content) {
            let last = PieceView { content: text::trimmed(p.content), ..p };
            assert(ended.chunks == c.chunks.push(last));
            assert(ended.chunks.drop_last() =~= c.chunks);
            assert(ended.chunks.last() == last);
        } else {
            assert(ended.chunks == c.chunks);
        }
        if counter.tokens(joined_segments(p.content, sentence))->Ok_0 > max {
            assert(after.chunks == ended.chunks);
            assert(after.pending == Some(case_chunker::text_piece(sentence, sources)));
        } else {
            assert(after.chunks == c.chunks);
            assert(after.pending->0.content == joined_segments(p.content, sentence));
            assert(after.pending->0.sources == case_chunker::with_sources(p.sources, sources));
            lemma_names_both(p.sources, sources);
        }
    } else {
        assert(after.pending == Some(case_chunker::text_piece(sentence, sources)));
        assert(after.chunks == c.chunks);
    }
}

/// Whether a character closes a segment, so that the next follows directly.
pub open spec fn closes(c: char) -> bool {
    seq!['。', '！', '？', '!', '?', '；', ';', '.'].contains(c)
}

/// Segments are joined directly where the first is closed, else with a line feed
/// between them; whitespace where they meet is left out.
pub proof fn segments_are_joined_by_their_ends(left: Seq<char>, right: Seq<char>)
    ensures
        ({
            let l = text::trim_end(left);
            let r = text::trim_start(right);
            let both = joined_segments(left, right);
            &&& l.len() == 0 || r.len() == 0 ==> both == l + r
            &&& l.len() > 0 && r.len() > 0 && closes(l.last()) ==> both == l + r
            &&& l.len() > 0 && r.len() > 0 && !closes(l.last()) ==> both == l + seq!['\n'] + r
        }),
{
    let l = text::trim_end(left);
    let r = text::trim_start(right);
    let all = seq!['。', '！', '？', '!', '?', '；', ';', '.'];
    assert(all[0] == '。' && all[1] == '！' && all[2] == '？' && all[3] == '!' && all[4] == '?'
        && all[5] == '；' && all[6] == ';' && all[7] == '.');
    if l.len() == 0 {
        assert(l + r =~= r);
    } else if r.len() == 0 {
        assert(l + r =~= l);
    } else if !closes(l.last()) {
        assert(l.push('\n') + r =~= l + seq!['\n'] + r);
    }
}

/// The abbreviations whose last period ends no sentence.
pub open spec fn abbreviations() -> Seq<Seq<char>> {
    seq![
        "e.g."@,
        "i.e."@,
        "U.S."@,
        "U.K."@,
        "A.M."@,
        "P.M."@,
        "a.m."@,
        "p.m."@,
        "Inc."@,
        "Ltd."@,
        "No."@,
        "vs."@,
        "approx."@,
        "Dr."@,
        "Mr."@,
        "Ms."@,
        "Prof."@,
    ]
}

/// Whether a text has an abbreviation that ends at its character `i`.
pub open spec fn ends_abbreviation(s: Seq<char>, i: int, k: int) -> bool {
    let a = abbreviations()[k];
    &&& 0 <= k < abbreviations().len()
    &&& a.len() <= i + 1 <= s.len()
    &&& s.subrange(i + 1 - a.len(), i + 1) == a
}

/// A sentence ends at a mark that always ends one, and at a period before
/// whitespace or at the end that ends no abbreviation, and nowhere else.
pub proof fn sentences_end_at_marks_and_periods(s: Seq<char>, i: int)
    requires
        0 <= i < s.len(),
    ensures
        case_chunker::is_sentence_end(s, i) <==> (seq!['。', '！', '？', '!', '?', '；', ';'].contains(
            s[i],
        ) || (s[i] == '.' && (i == s.len() - 1 || text::char_whitespace(s[i + 1])) && forall|k: int|
            !#[trigger] ends_abbreviation(s, i, k))),
{
    let all = seq!['。', '！', '？', '!', '?', '；', ';'];
    assert(all[0] == '。' && all[1] == '！' && all[2] == '？' && all[3] == '!' && all[4] == '?'
        && all[5] == '；' && all[6] == ';');
    let list = abbreviations();
    assert(list.len() == 17);
    if case_chunker::is_protected(s, i) {
        assert(exists|k: int| #[trigger] ends_abbreviation(s, i, k)) by {
            assert forall|k: int|
                0 <= k < 17 && case_chunker::ends_at(
                    s,
                    i,
                    #[trigger] list[k],
                ) implies ends_abbreviation(s, i, k) by {}
            lemma_protected(s, i);
            let k = choose|k: int| 0 <= k < 17 && case_chunker::ends_at(s, i, #[trigger] list[k]);
            assert(ends_abbreviation(s, i, k));
        }
    } else {
        assert forall|k: int| !#[trigger] ends_abbreviation(s, i, k) by {
            if ends_abbreviation(s, i, k) {
                assert(case_chunker::ends_at(s, i, list[k]));
                lemma_protected(s, i);
            }
        }
    }
}

proof fn lemma_protected(s: Seq<char>, i: int)
    ensures
        case_chunker::is_protected(s, i) <==> exists|k: int|
            0 <= k < 17 && case_chunker::ends_at(s, i, #[trigger] abbreviations()[k]),
{
    let list = abbreviations();
    assert(list[0] == "e.g."@ && list[1] == "i.e."@ && list[2] == "U.S."@ && list[3] == "U.K."@
        && list[4] == "A.M."@ && list[5] == "P.M."@ && list[6] == "a.m."@ && list[7] == "p.m."@
        && list[8] == "Inc."@ && list[9] == "Ltd."@ && list[10] == "No."@ && list[11] == "vs."@
        && list[12] == "approx."@ && list[13] == "Dr."@ && list[14] == "Mr."@ && list[15]
        == "Ms."@ && list[16] == "Prof."@);
    if exists|k: int| 0 <= k < 17 && case_chunker::ends_at(s, i, #[trigger] list[k]) {
        let k = choose|k: int| 0 <= k < 17 && case_chunker::ends_at(s, i, #[trigger] list[k]);
        assert(k == 0 || k == 1 || k == 2 || k == 3 || k == 4 || k == 5 || k == 6 || k == 7 || k
            == 8 || k == 9 || k == 10 || k == 11 || k == 12 || k == 13 || k == 14 || k == 15 || k
            == 16);
    }
}

/// A sentence reaches from the end of the one before to the next end, and is
/// trimmed; blank ones are left out.
pub proof fn sentences_reach_from_end_to_end(s: Seq<char>, n: nat)
    requires
        n <= s.len(),
    ensures
        ({
            let (done, start) = sentences_state(s, n);
            &&& 0 <= start <= n
            &&& start > 0 ==> case_chunker::is_sentence_end(s, start - 1)
            &&& forall|i: int|
                start <= i < n ==> !#[trigger] case_chunker::is_sentence_end(s, i)
            &&& n < s.len() && case_chunker::is_sentence_end(s, n as int) && !text::is_blank(
                s.subrange(start, n as int + 1),
            ) ==> sentences_state(s, n + 1).0 == done.push(
                text::trimmed(s.subrange(start, n as int + 1)),
            )
            &&& n < s.len() && (!case_chunker::is_sentence_end(s, n as int) || text::is_blank(
                s.subrange(start, n as int + 1),
            )) ==> sentences_state(s, n + 1).0 == done
            &&& n == s.len() && text::is_blank(s.skip(start)) ==> sentences_of(s) == done
            &&& n == s.len() && !text::is_blank(s.skip(start)) ==> sentences_of(s) == done.push(
                text::trimmed(s.skip(start)),
            )
        }),
    decreases n,
{
    if n > 0 {
        sentences_reach_from_end_to_end(s, (n - 1) as nat);
    }
}

/// The search for what fits ends at a border: that many characters fit, or it is
/// where the search began, and one more does not, or it is where the search ended.
pub proof fn what_fits_is_found<C: TokenCounter>(
    s: Seq<char>,
    lo: nat,
    hi: nat,
    max: nat,
    counter: C,
)
    requires
        lo < hi,
        fitting_len(s, lo, hi, max, counter) is Ok,
    ensures
        ({
            let k = fitting_len(s, lo, hi, max, counter)->Ok_0;
            &&& lo <= k < hi
            &&& k == lo || (counter.tokens(s.take(k as int)) is Ok && counter.tokens(
                s.take(k as int),
            )->Ok_0 <= max)
            &&& k + 1 == hi || (counter.tokens(s.take(k as int + 1)) is Ok && counter.tokens(
                s.take(k as int + 1),
            )->Ok_0 > max)
        }),
    decreases hi - lo,
{
    if lo + 1 < hi {
        let mid = ((lo + hi) / 2) as nat;
        let n = counter.tokens(s.take(mid as int))->Ok_0;
        if n <= max {
            what_fits_is_found(s, mid, hi, max, counter);
        } else {
            what_fits_is_found(s, lo, mid, max, counter);
        }
    }
}

/// The start of a text that is cut off is all of it where it fits; else it is a
/// prefix that ends where one more character would not fit, trimmed, or a single
/// character where nothing fits.
pub proof fn starts_are_as_long_as_fits<C: TokenCounter>(s: Seq<char>, max: nat, counter: C)
    requires
        fitting_prefix(s, max, counter) is Ok,
        s.len() > 0,
    ensures
        ({
            let start = fitting_prefix(s, max, counter)->Ok_0;
            let whole = counter.tokens(s)->Ok_0;
            let k = fitting_len(s, 0, s.len(), max, counter)->Ok_0;
            &&& whole <= max ==> start == text::trimmed(s)
            &&& whole > max ==> {
                &&& k < s.len()
                &&& k + 1 < s.len() ==> counter.tokens(s.take(k as int + 1))->Ok_0 > max
                &&& !text::is_blank(s.take(k as int)) ==> start == text::trimmed(
                    s.take(k as int),
                )
                &&& text::is_blank(s.take(k as int)) ==> start == s.take(1)
            }
        }),
{
    if counter.tokens(s)->Ok_0 > max {
        what_fits_is_found(s, 0, s.len(), max, counter);
    }
}

/// The rough count is one for every character beyond ASCII, and one for every
/// four ASCII characters, rounded up.
pub proof fn four_letters_make_a_token(counter: RoughTokenCounter, s: Seq<char>)
    ensures
        ({
            let ascii = s.filter(|c: char| c < '\u{80}').len();
            &&& counter.tokens(s) is Ok
            &&& 4 * (counter.tokens(s)->Ok_0 - (s.len() - ascii)) >= ascii
            &&& 4 * (counter.tokens(s)->Ok_0 - (s.len() - ascii)) < ascii + 4
        }),
{
    lemma_ascii_characters(s);
}

proof fn lemma_ascii_characters(s: Seq<char>)
    ensures
        ascii_count(s) == s.filter(|c: char| c < '\u{80}').len(),
        ascii_count(s) <= s.len(),
    decreases s.len(),
{
    reveal(Seq::filter);
    if s.len() > 0 {
        lemma_ascii_characters(s.drop_last());
    }
}

/// A text is cut start by start: the first piece is the start that fits, and the
/// rest is cut in the same way, without the space before it.
pub proof fn texts_are_cut_start_by_start<C: TokenCounter>(s: Seq<char>, max: nat, counter: C)
    requires
        case_chunker::cut_to_fit(s, max, counter) is Ok,
    ensures
        ({
            let cut = case_chunker::cut_to_fit(s, max, counter)->Ok_0;
            let start = fitting_prefix(s, max, counter)->Ok_0;
            &&& text::is_blank(s) ==> cut.len() == 0
            &&& !text::is_blank(s) && 0 < start.len() <= s.len() ==> {
                &&& cut.len() > 0
                &&& cut[0] == start
                &&& case_chunker::cut_to_fit(
                    text::trim_start(s.skip(start.len() as int)),
                    max,
                    counter,
                ) == Ok::<Seq<Seq<char>>, Seq<char>>(cut.skip(1))
            }
        }),
{
    let cut = case_chunker::cut_to_fit(s, max, counter)->Ok_0;
    let start = fitting_prefix(s, max, counter)->Ok_0;
    if !text::is_blank(s) && 0 < start.len() <= s.len() {
        case_chunker::lemma_trim_start_len(s.skip(start.len() as int));
        let rest = case_chunker::cut_to_fit(
            text::trim_start(s.skip(start.len() as int)),
            max,
            counter,
        )->Ok_0;
        assert(cut == seq![start] + rest);
        assert(cut.skip(1) =~= rest);
    }
}

/// A sentence that fits stays whole, and only one that does not is cut.
pub proof fn only_long_sentences_are_cut<C: TokenCounter>(
    a: Seq<Seq<char>>,
    sentence: Seq<char>,
    max: nat,
    counter: C,
)
    requires
        case_chunker::fitting_sentences(a.push(sentence), max, counter) is Ok,
    ensures
        ({
            let before = case_chunker::fitting_sentences(a, max, counter)->Ok_0;
            let after = case_chunker::fitting_sentences(a.push(sentence), max, counter)->Ok_0;
            let n = counter.tokens(sentence)->Ok_0;
            &&& case_chunker::fitting_sentences(a, max, counter) is Ok
            &&& n <= max ==> after == before.push(sentence)
            &&& n > max ==> after == before + case_chunker::cut_to_fit(
                sentence,
                max,
                counter,
            )->Ok_0
        }),
{
    assert(a.push(sentence).drop_last() =~= a);
}

/// A piece that is not text ends the text that grows and stands by itself; text
/// goes on sentence by sentence, or as a whole, trimmed, where it has none.
pub proof fn pieces_go_on_sentence_by_sentence<C: TokenCounter>(
    c: CutView,
    piece: PieceView,
    max: nat,
    counter: C,
)
    ensures
        ({
            let after = case_chunker::after_piece(c, piece, max, counter);
            let found = sentences_of(piece.content);
            let whole = if found.len() == 0 {
                seq![text::trimmed(piece.content)]
            } else {
                found
            };
            let fitting = case_chunker::fitting_sentences(whole, max, counter);
            &&& piece.node_type != ParseNodeType::Text ==> after is Ok && after->Ok_0.pending is None
                && after->Ok_0.chunks == pending_ended(c).chunks.push(piece)
            &&& piece.node_type == ParseNodeType::Text && fitting is Ok ==> after
                == case_chunker::after_sentences(c, fitting->Ok_0, piece.sources, max, counter)
            &&& piece.node_type == ParseNodeType::Text && fitting is Err ==> after is Err
        }),
{
}

} // verus!
