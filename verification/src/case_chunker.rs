//! Cutting documents into chunks that fit a token budget.

use vstd::prelude::*;
use vstd::string::*;

use crate::case_parser;
use crate::case_parser::{NodeView, ParseNode, ParseNodeType, ParseResult, ParseTopology};
use crate::scan;
use crate::scan::{trim_text_end, trim_text_start};
use crate::text;
use crate::text::{char_code, chars_stand_at, from_chars, lemma_strings_push, to_chars, trim};

verus! {

/// Why tokens could not be counted.
#[derive(Debug)]
pub struct CountError {
    pub message: String,
}

/// Counts the tokens of a text. The count is a function of the text.
pub trait TokenCounter: Sized {
    /// How many tokens a text has, or why they cannot be counted.
    spec fn tokens(&self, s: Seq<char>) -> Result<nat, Seq<char>>;

    fn count_tokens(&self, s: &str) -> (r: Result<usize, CountError>)
        ensures
            match r {
                Ok(n) => self.tokens(s@) == Ok::<nat, Seq<char>>(n as nat),
                Err(e) => self.tokens(s@) == Err::<nat, Seq<char>>(e.message@),
            },
    ;
}

/// A rough count: four ASCII characters make a token, and each other character
/// makes one.
#[derive(Clone, Copy, Debug)]
pub struct RoughTokenCounter;

/// How many ASCII characters a text has.
pub open spec fn ascii_count(s: Seq<char>) -> nat
    decreases s.len(),
{
    if s.len() == 0 {
        0
    } else {
        ascii_count(s.drop_last()) + (if text::is_ascii_char(s.last()) {
            1nat
        } else {
            0nat
        })
    }
}

proof fn lemma_ascii_count(s: Seq<char>)
    ensures
        ascii_count(s) <= s.len(),
    decreases s.len(),
{
    if s.len() > 0 {
        lemma_ascii_count(s.drop_last());
    }
}

impl TokenCounter for RoughTokenCounter {
    open spec fn tokens(&self, s: Seq<char>) -> Result<nat, Seq<char>> {
        Ok((s.len() - ascii_count(s) + (ascii_count(s) + 3) / 4) as nat)
    }

    fn count_tokens(&self, s: &str) -> (r: Result<usize, CountError>) {
        let chars = to_chars(s);
        let n = chars.len();
        let mut ascii: usize = 0;
        let mut i: usize = 0;
        while i < n
            invariant
                i <= n,
                n == chars@.len(),
                ascii <= i,
                ascii == ascii_count(chars@.take(i as int)),
            decreases n - i,
        {
            assert(chars@.take(i + 1).drop_last() =~= chars@.take(i as int));
            if char_code(chars[i]) < 0x80 {
                ascii += 1;
            }
            i += 1;
        }
        assert(chars@.take(i as int) =~= s@);
        let quarters: usize = ascii / 4 + (if ascii % 4 == 0 {
            0usize
        } else {
            1usize
        });
        Ok(n - ascii + quarters)
    }
}

/// How documents are cut.
#[derive(Debug)]
pub struct ChunkerConfig<C> {
    pub max_tokens: usize,
    pub token_counter: C,
}

/// A chunk of a document.
#[derive(Debug)]
pub struct ChunkPart {
    pub content: String,
    pub chunk_type: ParseNodeType,
    pub parse_topology: ParseTopology,
    pub token_count: usize,
    pub source_node_indices: Vec<usize>,
}

/// What a [`ChunkPart`] stands for.
pub struct PartView {
    pub content: Seq<char>,
    pub chunk_type: ParseNodeType,
    pub parse_topology: ParseTopology,
    pub token_count: nat,
    pub sources: Seq<int>,
}

impl View for ChunkPart {
    type V = PartView;

    open spec fn view(&self) -> PartView {
        PartView {
            content: self.content@,
            chunk_type: self.chunk_type,
            parse_topology: self.parse_topology,
            token_count: self.token_count as nat,
            sources: scan::places(self.source_node_indices@),
        }
    }
}

pub open spec fn part_views(v: Seq<ChunkPart>) -> Seq<PartView> {
    Seq::new(v.len(), |i: int| v[i]@)
}

/// A piece on its way to becoming a chunk, and the nodes that it comes from.
#[derive(Debug)]
struct ChunkNode {
    content: String,
    node_type: ParseNodeType,
    is_need_space: bool,
    is_need_newline: bool,
    source_node_indices: Vec<usize>,
}

/// What a piece on its way to becoming a chunk stands for.
pub struct PieceView {
    pub content: Seq<char>,
    pub node_type: ParseNodeType,
    pub is_need_space: bool,
    pub is_need_newline: bool,
    pub sources: Seq<int>,
}

impl View for ChunkNode {
    type V = PieceView;

    closed spec fn view(&self) -> PieceView {
        PieceView {
            content: self.content@,
            node_type: self.node_type,
            is_need_space: self.is_need_space,
            is_need_newline: self.is_need_newline,
            sources: scan::places(self.source_node_indices@),
        }
    }
}

spec fn piece_views(v: Seq<ChunkNode>) -> Seq<PieceView> {
    Seq::new(v.len(), |i: int| v[i]@)
}

/// The pieces that a document starts from: its nodes that are not blank.
pub open spec fn starting_pieces(nodes: Seq<NodeView>) -> Seq<PieceView>
    decreases nodes.len(),
{
    if nodes.len() == 0 {
        Seq::empty()
    } else {
        let earlier = starting_pieces(nodes.drop_last());
        let node = nodes.last();
        if text::is_blank(node.content) {
            earlier
        } else {
            earlier.push(
                PieceView {
                    content: text::trimmed(node.content),
                    node_type: node.node_type,
                    is_need_space: node.is_need_space,
                    is_need_newline: node.is_need_newline,
                    sources: seq![node.index],
                },
            )
        }
    }
}

/// Sources with others, each once.
pub open spec fn with_sources(sources: Seq<int>, more: Seq<int>) -> Seq<int>
    decreases more.len(),
{
    if more.len() == 0 {
        sources
    } else {
        let earlier = with_sources(sources, more.drop_last());
        if earlier.contains(more.last()) {
            earlier
        } else {
            earlier.push(more.last())
        }
    }
}

/// A text followed by a piece, with the space that the piece needs before it.
pub open spec fn spaced(left: Seq<char>, right: PieceView) -> Seq<char> {
    if right.is_need_newline {
        text::trim_end(left).push('\n') + text::trim_start(right.content)
    } else if right.is_need_space {
        text::trim_end(left).push(' ') + text::trim_start(right.content)
    } else {
        left + right.content
    }
}

/// Pieces with one more. Neighbouring texts become one piece where both fit the
/// budget.
pub open spec fn with_piece<C: TokenCounter>(
    pieces: Seq<PieceView>,
    piece: PieceView,
    max: nat,
    counter: C,
) -> Result<Seq<PieceView>, Seq<char>> {
    if piece.node_type != ParseNodeType::Text || pieces.len() == 0 || pieces.last().node_type
        != ParseNodeType::Text {
        Ok(pieces.push(piece))
    } else {
        let both = spaced(pieces.last().content, piece);
        match counter.tokens(both) {
            Err(e) => Err(e),
            Ok(n) => if n <= max {
                Ok(
                    pieces.drop_last().push(
                        PieceView {
                            content: both,
                            sources: with_sources(pieces.last().sources, piece.sources),
                            ..pieces.last()
                        },
                    ),
                )
            } else {
                Ok(pieces.push(piece))
            },
        }
    }
}

pub open spec fn merged_pieces<C: TokenCounter>(
    pieces: Seq<PieceView>,
    max: nat,
    counter: C,
) -> Result<Seq<PieceView>, Seq<char>>
    decreases pieces.len(),
{
    if pieces.len() == 0 {
        Ok(Seq::empty())
    } else {
        match merged_pieces(pieces.drop_last(), max, counter) {
            Err(e) => Err(e),
            Ok(earlier) => with_piece(earlier, pieces.last(), max, counter),
        }
    }
}

/// Whether a text ends in `p` at its character `i`.
pub open spec fn ends_at(s: Seq<char>, i: int, p: Seq<char>) -> bool {
    text::stands_at(s, p, i + 1 - p.len())
}

/// Whether the period at `i` belongs to an abbreviation.
pub open spec fn is_protected(s: Seq<char>, i: int) -> bool {
    ends_at(s, i, "e.g."@) || ends_at(s, i, "i.e."@) || ends_at(s, i, "U.S."@) || ends_at(
        s,
        i,
        "U.K."@,
    ) || ends_at(s, i, "A.M."@) || ends_at(s, i, "P.M."@) || ends_at(s, i, "a.m."@) || ends_at(
        s,
        i,
        "p.m."@,
    ) || ends_at(s, i, "Inc."@) || ends_at(s, i, "Ltd."@) || ends_at(s, i, "No."@) || ends_at(
        s,
        i,
        "vs."@,
    ) || ends_at(s, i, "approx."@) || ends_at(s, i, "Dr."@) || ends_at(s, i, "Mr."@) || ends_at(
        s,
        i,
        "Ms."@,
    ) || ends_at(s, i, "Prof."@)
}

/// Whether a character always ends a sentence.
pub open spec fn ends_sentence(c: char) -> bool {
    c == '。' || c == '！' || c == '？' || c == '!' || c == '?' || c == '；' || c == ';'
}

/// Whether a sentence ends at the character `i`. A period ends one before space
/// or at the end, unless it belongs to an abbreviation.
pub open spec fn is_sentence_end(s: Seq<char>, i: int) -> bool {
    ends_sentence(s[i]) || (s[i] == '.' && (i + 1 >= s.len() || text::char_whitespace(s[i + 1]))
        && !is_protected(s, i))
}

/// The sentences that end within the first `n` characters, and where the next
/// one starts.
pub open spec fn sentences_state(s: Seq<char>, n: nat) -> (Seq<Seq<char>>, int)
    decreases n,
{
    if n == 0 {
        (Seq::empty(), 0)
    } else {
        let (done, start) = sentences_state(s, (n - 1) as nat);
        if !is_sentence_end(s, n - 1) {
            (done, start)
        } else {
            let sentence = text::trimmed(s.subrange(start, n as int));
            if sentence.len() == 0 {
                (done, n as int)
            } else {
                (done.push(sentence), n as int)
            }
        }
    }
}

/// The sentences of a text.
pub open spec fn sentences_of(s: Seq<char>) -> Seq<Seq<char>> {
    let (done, start) = sentences_state(s, s.len());
    let tail = text::trimmed(s.skip(start));
    if tail.len() == 0 {
        done
    } else {
        done.push(tail)
    }
}

/// Where a search between a prefix that fits and one that does not comes to.
pub open spec fn fitting_len<C: TokenCounter>(
    s: Seq<char>,
    lo: nat,
    hi: nat,
    max: nat,
    counter: C,
) -> Result<nat, Seq<char>>
    decreases hi - lo,
{
    if lo + 1 < hi {
        let mid = ((lo + hi) / 2) as nat;
        match counter.tokens(s.take(mid as int)) {
            Err(e) => Err(e),
            Ok(n) => if n <= max {
                fitting_len(s, mid, hi, max, counter)
            } else {
                fitting_len(s, lo, mid, max, counter)
            },
        }
    } else {
        Ok(lo)
    }
}

/// The start of a text that fits the budget: all of it, or a prefix, or at least
/// its first character.
pub open spec fn fitting_prefix<C: TokenCounter>(s: Seq<char>, max: nat, counter: C) -> Result<
    Seq<char>,
    Seq<char>,
> {
    match counter.tokens(s) {
        Err(e) => Err(e),
        Ok(n) => if n <= max {
            Ok(text::trimmed(s))
        } else {
            match fitting_len(s, 0, s.len(), max, counter) {
                Err(e) => Err(e),
                Ok(k) => {
                    let prefix = text::trimmed(s.take(k as int));
                    if prefix.len() > 0 {
                        Ok(prefix)
                    } else if s.len() > 0 {
                        Ok(s.take(1))
                    } else {
                        Ok(Seq::empty())
                    }
                },
            }
        },
    }
}

/// A text cut into starts that fit the budget.
pub open spec fn cut_to_fit<C: TokenCounter>(s: Seq<char>, max: nat, counter: C) -> Result<
    Seq<Seq<char>>,
    Seq<char>,
>
    decreases s.len(),
{
    if text::is_blank(s) {
        Ok(Seq::empty())
    } else {
        match fitting_prefix(s, max, counter) {
            Err(e) => Err(e),
            Ok(prefix) => if prefix.len() == 0 || prefix.len() > s.len() {
                Ok(Seq::empty())
            } else {
                proof {
                    lemma_trim_start_len(s.skip(prefix.len() as int));
                }
                match cut_to_fit(text::trim_start(s.skip(prefix.len() as int)), max, counter) {
                    Err(e) => Err(e),
                    Ok(rest) => Ok(seq![prefix] + rest),
                }
            },
        }
    }
}

pub proof fn lemma_trim_start_len(s: Seq<char>)
    ensures
        text::trim_start(s).len() <= s.len(),
    decreases s.len(),
{
    if s.len() > 0 && text::char_whitespace(s[0]) {
        lemma_trim_start_len(s.drop_first());
    }
}

/// Sentences, those that exceed the budget cut to fit.
pub open spec fn fitting_sentences<C: TokenCounter>(
    sentences: Seq<Seq<char>>,
    max: nat,
    counter: C,
) -> Result<Seq<Seq<char>>, Seq<char>>
    decreases sentences.len(),
{
    if sentences.len() == 0 {
        Ok(Seq::empty())
    } else {
        match fitting_sentences(sentences.drop_last(), max, counter) {
            Err(e) => Err(e),
            Ok(earlier) => {
                let sentence = sentences.last();
                match counter.tokens(sentence) {
                    Err(e) => Err(e),
                    Ok(n) => if n <= max {
                        Ok(earlier.push(sentence))
                    } else {
                        match cut_to_fit(sentence, max, counter) {
                            Err(e) => Err(e),
                            Ok(cut) => Ok(earlier + cut),
                        }
                    },
                }
            },
        }
    }
}

/// The sentences of a text, or the whole text where there are none.
pub open spec fn sentences_or_text(s: Seq<char>) -> Seq<Seq<char>> {
    if sentences_of(s).len() == 0 {
        seq![text::trimmed(s)]
    } else {
        sentences_of(s)
    }
}

/// Whether a character ends a segment that the next can follow directly.
pub open spec fn closes_segment(c: char) -> bool {
    ends_sentence(c) || c == '.'
}

/// Two segments of text as one.
pub open spec fn joined_segments(left: Seq<char>, right: Seq<char>) -> Seq<char> {
    let l = text::trim_end(left);
    let r = text::trim_start(right);
    if l.len() == 0 {
        r
    } else if r.len() == 0 {
        l
    } else if closes_segment(l.last()) {
        l + r
    } else {
        l.push('\n') + r
    }
}

/// The chunks that are complete, and the text that may still grow.
pub struct CutView {
    pub chunks: Seq<PieceView>,
    pub pending: Option<PieceView>,
}

/// The end of a growing text.
pub open spec fn pending_ended(c: CutView) -> CutView {
    match c.pending {
        None => c,
        Some(p) => {
            let content = text::trimmed(p.content);
            CutView {
                chunks: if content.len() == 0 {
                    c.chunks
                } else {
                    c.chunks.push(PieceView { content, ..p })
                },
                pending: None,
            }
        },
    }
}

/// A piece of text by itself.
pub open spec fn text_piece(content: Seq<char>, sources: Seq<int>) -> PieceView {
    PieceView {
        content,
        node_type: ParseNodeType::Text,
        is_need_space: false,
        is_need_newline: true,
        sources,
    }
}

/// What a sentence adds: it joins the growing text where both fit the budget.
pub open spec fn after_sentence<C: TokenCounter>(
    c: CutView,
    sentence: Seq<char>,
    sources: Seq<int>,
    max: nat,
    counter: C,
) -> Result<CutView, Seq<char>> {
    match c.pending {
        None => Ok(CutView { pending: Some(text_piece(sentence, sources)), ..c }),
        Some(p) => {
            let both = joined_segments(p.content, sentence);
            match counter.tokens(both) {
                Err(e) => Err(e),
                Ok(n) => if n > max {
                    Ok(
                        CutView {
                            pending: Some(text_piece(sentence, sources)),
                            ..pending_ended(c)
                        },
                    )
                } else {
                    Ok(
                        CutView {
                            pending: Some(
                                PieceView {
                                    content: both,
                                    sources: with_sources(p.sources, sources),
                                    ..p
                                },
                            ),
                            ..c
                        },
                    )
                },
            }
        },
    }
}

pub open spec fn after_sentences<C: TokenCounter>(
    c: CutView,
    sentences: Seq<Seq<char>>,
    sources: Seq<int>,
    max: nat,
    counter: C,
) -> Result<CutView, Seq<char>>
    decreases sentences.len(),
{
    if sentences.len() == 0 {
        Ok(c)
    } else {
        match after_sentences(c, sentences.drop_last(), sources, max, counter) {
            Err(e) => Err(e),
            Ok(earlier) => after_sentence(earlier, sentences.last(), sources, max, counter),
        }
    }
}

/// What a piece adds: one that is not text stands by itself, and text goes on
/// sentence by sentence.
pub open spec fn after_piece<C: TokenCounter>(
    c: CutView,
    piece: PieceView,
    max: nat,
    counter: C,
) -> Result<CutView, Seq<char>> {
    if piece.node_type != ParseNodeType::Text {
        let ended = pending_ended(c);
        Ok(CutView { chunks: ended.chunks.push(piece), ..ended })
    } else {
        match fitting_sentences(sentences_or_text(piece.content), max, counter) {
            Err(e) => Err(e),
            Ok(sentences) => after_sentences(c, sentences, piece.sources, max, counter),
        }
    }
}

pub open spec fn after_pieces<C: TokenCounter>(pieces: Seq<PieceView>, max: nat, counter: C) -> Result<
    CutView,
    Seq<char>,
>
    decreases pieces.len(),
{
    if pieces.len() == 0 {
        Ok(CutView { chunks: Seq::empty(), pending: None })
    } else {
        match after_pieces(pieces.drop_last(), max, counter) {
            Err(e) => Err(e),
            Ok(c) => after_piece(c, pieces.last(), max, counter),
        }
    }
}

/// The chunks of pieces: those that are not blank, with their token counts.
pub open spec fn counted<C: TokenCounter>(
    pieces: Seq<PieceView>,
    topology: ParseTopology,
    counter: C,
) -> Result<Seq<PartView>, Seq<char>>
    decreases pieces.len(),
{
    if pieces.len() == 0 {
        Ok(Seq::empty())
    } else {
        match counted(pieces.drop_last(), topology, counter) {
            Err(e) => Err(e),
            Ok(earlier) => {
                let p = pieces.last();
                let content = text::trimmed(p.content);
                if content.len() == 0 {
                    Ok(earlier)
                } else {
                    match counter.tokens(content) {
                        Err(e) => Err(e),
                        Ok(n) => Ok(
                            earlier.push(
                                PartView {
                                    content,
                                    chunk_type: p.node_type,
                                    parse_topology: topology,
                                    token_count: n,
                                    sources: p.sources,
                                },
                            ),
                        ),
                    }
                }
            },
        }
    }
}

/// The budget that counts: at least one token.
pub open spec fn budget(max_tokens: nat) -> nat {
    if max_tokens == 0 {
        1
    } else {
        max_tokens
    }
}

/// The chunks of a document.
pub open spec fn chunks_of<C: TokenCounter>(
    nodes: Seq<NodeView>,
    topology: ParseTopology,
    max_tokens: nat,
    counter: C,
) -> Result<Seq<PartView>, Seq<char>> {
    let max = budget(max_tokens);
    match merged_pieces(starting_pieces(nodes), max, counter) {
        Err(e) => Err(e),
        Ok(merged) => match after_pieces(merged, max, counter) {
            Err(e) => Err(e),
            Ok(cut) => counted(pending_ended(cut).chunks, topology, counter),
        },
    }
}

fn start_pieces(nodes: &Vec<ParseNode>) -> (r: Vec<ChunkNode>)
    ensures
        piece_views(r@) == starting_pieces(case_parser::node_views(nodes@)),
{
    let ghost all = case_parser::node_views(nodes@);
    let mut r: Vec<ChunkNode> = Vec::new();
    let mut i: usize = 0;
    assert(piece_views(r@) =~= Seq::<PieceView>::empty());
    while i < nodes.len()
        invariant
            i <= nodes@.len(),
            all == case_parser::node_views(nodes@),
            piece_views(r@) == starting_pieces(all.take(i as int)),
        decreases nodes@.len() - i,
    {
        let node = &nodes[i];
        proof {
            assert(all.take(i + 1).drop_last() =~= all.take(i as int));
            assert(all.take(i + 1).last() == node@);
        }
        let content = trim(node.content.as_str());
        if !content.is_empty() {
            let ghost before = r@;
            let mut sources: Vec<usize> = Vec::new();
            sources.push(node.index);
            let piece = ChunkNode {
                content: content.to_owned(),
                node_type: node.node_type,
                is_need_space: node.is_need_space,
                is_need_newline: node.is_need_newline,
                source_node_indices: sources,
            };
            assert(piece@.sources =~= seq![node.index as int]);
            r.push(piece);
            assert(piece_views(r@) =~= piece_views(before).push(piece@));
        }
        i += 1;
    }
    assert(all.take(i as int) =~= all);
    r
}

fn extend_unique(target: &mut Vec<usize>, values: &Vec<usize>)
    ensures
        scan::places(final(target)@) == with_sources(scan::places(old(target)@), scan::places(values@)),
{
    let ghost first = scan::places(target@);
    let ghost more = scan::places(values@);
    let mut i: usize = 0;
    assert(more.take(0) =~= Seq::<int>::empty());
    while i < values.len()
        invariant
            i <= values@.len(),
            more == scan::places(values@),
            scan::places(target@) == with_sources(first, more.take(i as int)),
        decreases values@.len() - i,
    {
        proof {
            assert(more.take(i + 1).drop_last() =~= more.take(i as int));
            assert(more.take(i + 1).last() == values@[i as int] as int);
        }
        if !scan::holds_place(target, values[i]) {
            let ghost before = target@;
            target.push(values[i]);
            assert(scan::places(target@) =~= scan::places(before).push(values@[i as int] as int));
        }
        i += 1;
    }
    assert(more.take(i as int) =~= more);
}

fn clone_positions(v: &Vec<usize>) -> (r: Vec<usize>)
    ensures
        r@ == v@,
{
    let mut r: Vec<usize> = Vec::new();
    let mut i: usize = 0;
    while i < v.len()
        invariant
            i <= v@.len(),
            r@ == v@.take(i as int),
        decreases v@.len() - i,
    {
        r.push(v[i]);
        i += 1;
        assert(r@ =~= v@.take(i as int));
    }
    assert(v@.take(i as int) =~= v@);
    r
}

fn join_with_node_spacing(left: &str, right: &ChunkNode) -> (r: String)
    ensures
        r@ == spaced(left@, right@),
{
    if right.is_need_newline {
        let mut r = trim_text_end(left);
        r.push('\n');
        r.append(trim_text_start(right.content.as_str()).as_str());
        r
    } else if right.is_need_space {
        let mut r = trim_text_end(left);
        r.push(' ');
        r.append(trim_text_start(right.content.as_str()).as_str());
        r
    } else {
        let mut r = left.to_owned();
        r.append(right.content.as_str());
        r
    }
}

proof fn lemma_merge_error_stays<C: TokenCounter>(
    pieces: Seq<PieceView>,
    max: nat,
    counter: C,
    n: int,
)
    requires
        0 <= n <= pieces.len(),
        merged_pieces(pieces.take(n), max, counter) is Err,
    ensures
        merged_pieces(pieces, max, counter) == merged_pieces(pieces.take(n), max, counter),
    decreases pieces.len() - n,
{
    if n < pieces.len() {
        assert(pieces.take(n + 1).drop_last() =~= pieces.take(n));
        lemma_merge_error_stays(pieces, max, counter, n + 1);
    } else {
        assert(pieces.take(n) =~= pieces);
    }
}

fn clone_piece(p: &ChunkNode) -> (r: ChunkNode)
    ensures
        r@ == p@,
{
    ChunkNode {
        content: p.content.clone(),
        node_type: p.node_type,
        is_need_space: p.is_need_space,
        is_need_newline: p.is_need_newline,
        source_node_indices: clone_positions(&p.source_node_indices),
    }
}

fn merge_adjacent_text_nodes<C: TokenCounter>(
    pieces: &Vec<ChunkNode>,
    max_tokens: usize,
    counter: &C,
) -> (r: Result<Vec<ChunkNode>, CountError>)
    ensures
        match r {
            Ok(v) => merged_pieces(piece_views(pieces@), max_tokens as nat, *counter)
                == Ok::<_, Seq<char>>(piece_views(v@)),
            Err(e) => merged_pieces(piece_views(pieces@), max_tokens as nat, *counter) == Err::<
                Seq<PieceView>,
                _,
            >(e.message@),
        },
{
    let ghost all = piece_views(pieces@);
    let ghost max = max_tokens as nat;
    let mut merged: Vec<ChunkNode> = Vec::new();
    let mut i: usize = 0;
    assert(piece_views(merged@) =~= Seq::<PieceView>::empty());
    while i < pieces.len()
        invariant
            i <= pieces@.len(),
            all == piece_views(pieces@),
            max == max_tokens as nat,
            merged_pieces(all.take(i as int), max, *counter) == Ok::<_, Seq<char>>(
                piece_views(merged@),
            ),
        decreases pieces@.len() - i,
    {
        let piece = &pieces[i];
        let ghost before = merged@;
        proof {
            assert(all.take(i + 1).drop_last() =~= all.take(i as int));
            assert(all.take(i + 1).last() == piece@);
        }
        let n = merged.len();
        if piece.node_type != ParseNodeType::Text || n == 0 || merged[n - 1].node_type
            != ParseNodeType::Text {
            let copy = clone_piece(piece);
            merged.push(copy);
            assert(piece_views(merged@) =~= piece_views(before).push(piece@));
        } else {
            proof {
                assert(piece_views(before).last() == before[n - 1]@);
            }
            let both = join_with_node_spacing(merged[n - 1].content.as_str(), piece);
            match counter.count_tokens(both.as_str()) {
                Err(e) => {
                    proof {
                        lemma_merge_error_stays(all, max, *counter, i + 1);
                    }
                    return Err(e);
                },
                Ok(count) => {
                    if count <= max_tokens {
                        let mut sources = clone_positions(&merged[n - 1].source_node_indices);
                        extend_unique(&mut sources, &piece.source_node_indices);
                        let joined = ChunkNode {
                            content: both,
                            node_type: merged[n - 1].node_type,
                            is_need_space: merged[n - 1].is_need_space,
                            is_need_newline: merged[n - 1].is_need_newline,
                            source_node_indices: sources,
                        };
                        merged.set(n - 1, joined);
                        assert(piece_views(merged@) =~= piece_views(before).drop_last().push(
                            joined@,
                        ));
                    } else {
                        let copy = clone_piece(piece);
                        merged.push(copy);
                        assert(piece_views(merged@) =~= piece_views(before).push(piece@));
                    }
                },
            }
        }
        i += 1;
    }
    assert(all.take(i as int) =~= all);
    Ok(merged)
}

fn ends_in(chars: &Vec<char>, i: usize, p: &str) -> (r: bool)
    requires
        i < chars@.len(),
    ensures
        r == ends_at(chars@, i as int, p@),
{
    let pattern = to_chars(p);
    let n = pattern.len();
    let len = chars.len();
    assert(i < len);
    if n > i + 1 {
        return false;
    }
    chars_stand_at(chars, &pattern, i + 1 - n)
}

fn ends_with_protected_period(chars: &Vec<char>, i: usize) -> (r: bool)
    requires
        i < chars@.len(),
    ensures
        r == is_protected(chars@, i as int),
{
    ends_in(chars, i, "e.g.") || ends_in(chars, i, "i.e.") || ends_in(chars, i, "U.S.") || ends_in(
        chars,
        i,
        "U.K.",
    ) || ends_in(chars, i, "A.M.") || ends_in(chars, i, "P.M.") || ends_in(chars, i, "a.m.")
        || ends_in(chars, i, "p.m.") || ends_in(chars, i, "Inc.") || ends_in(chars, i, "Ltd.")
        || ends_in(chars, i, "No.") || ends_in(chars, i, "vs.") || ends_in(chars, i, "approx.")
        || ends_in(chars, i, "Dr.") || ends_in(chars, i, "Mr.") || ends_in(chars, i, "Ms.")
        || ends_in(chars, i, "Prof.")
}

fn is_sentence_mark(c: char) -> (r: bool)
    ensures
        r == ends_sentence(c),
{
    c == '。' || c == '！' || c == '？' || c == '!' || c == '?' || c == '；' || c == ';'
}

fn is_sentence_boundary(chars: &Vec<char>, i: usize) -> (r: bool)
    requires
        i < chars@.len(),
    ensures
        r == is_sentence_end(chars@, i as int),
{
    let c = chars[i];
    if is_sentence_mark(c) {
        return true;
    }
    if c != '.' {
        return false;
    }
    let n = chars.len();
    let followed = i + 1 >= n || chars[i + 1].is_whitespace();
    followed && !ends_with_protected_period(chars, i)
}

proof fn lemma_sentences_start(s: Seq<char>, n: nat)
    requires
        n <= s.len(),
    ensures
        0 <= sentences_state(s, n).1 <= n,
    decreases n,
{
    if n > 0 {
        lemma_sentences_start(s, (n - 1) as nat);
    }
}

/// The sentences of a text.
pub fn split_sentences(content: &str) -> (r: Vec<String>)
    ensures
        text::strings(r@) == sentences_of(content@),
{
    let chars = to_chars(content);
    let n = chars.len();
    let mut sentences: Vec<String> = Vec::new();
    let mut start: usize = 0;
    let mut i: usize = 0;
    assert(text::strings(sentences@) =~= Seq::<Seq<char>>::empty());
    while i < n
        invariant
            start <= i <= n,
            n == chars@.len(),
            chars@ == content@,
            sentences_state(chars@, i as nat) == (text::strings(sentences@), start as int),
        decreases n - i,
    {
        if is_sentence_boundary(&chars, i) {
            let raw = from_chars(&chars, start, i + 1);
            let sentence = trim(raw.as_str());
            if !sentence.is_empty() {
                let ghost before = sentences@;
                let copy = sentence.to_owned();
                sentences.push(copy);
                proof {
                    lemma_strings_push(before, copy);
                }
            }
            start = i + 1;
        }
        i += 1;
    }
    let raw = from_chars(&chars, start, n);
    assert(raw@ =~= content@.skip(start as int));
    let tail = trim(raw.as_str());
    if !tail.is_empty() {
        let ghost before = sentences@;
        let copy = tail.to_owned();
        sentences.push(copy);
        proof {
            lemma_strings_push(before, copy);
        }
    }
    sentences
}

/// The start of a text that fits the budget.
pub fn take_token_prefix<C: TokenCounter>(content: &str, max_tokens: usize, counter: &C) -> (r: Result<
    String,
    CountError,
>)
    ensures
        match r {
            Ok(p) => fitting_prefix(content@, max_tokens as nat, *counter) == Ok::<_, Seq<char>>(
                p@,
            ),
            Err(e) => fitting_prefix(content@, max_tokens as nat, *counter) == Err::<Seq<char>, _>(
                e.message@,
            ),
        },
{
    let ghost max = max_tokens as nat;
    match counter.count_tokens(content) {
        Err(e) => return Err(e),
        Ok(n) => {
            if n <= max_tokens {
                return Ok(trim(content).to_owned());
            }
        },
    }
    let chars = to_chars(content);
    let mut left: usize = 0;
    let mut right: usize = chars.len();
    while left < right && right - left > 1
        invariant
            left <= right <= chars@.len(),
            chars@ == content@,
            max == max_tokens as nat,
            counter.tokens(content@) is Ok,
            counter.tokens(content@)->Ok_0 > max,
            fitting_len(content@, 0, content@.len(), max, *counter) == fitting_len(
                content@,
                left as nat,
                right as nat,
                max,
                *counter,
            ),
        decreases right - left,
    {
        let mid: usize = left + (right - left) / 2;
        assert(mid == (left + right) / 2);
        let part = from_chars(&chars, 0, mid);
        assert(part@ =~= content@.take(mid as int));
        match counter.count_tokens(part.as_str()) {
            Err(e) => return Err(e),
            Ok(n) => {
                if n <= max_tokens {
                    left = mid;
                } else {
                    right = mid;
                }
            },
        }
    }
    let part = from_chars(&chars, 0, left);
    assert(part@ =~= content@.take(left as int));
    let prefix = trim(part.as_str());
    if !prefix.is_empty() {
        return Ok(prefix.to_owned());
    }
    if chars.len() > 0 {
        let first = from_chars(&chars, 0, 1);
        assert(first@ =~= content@.take(1));
        Ok(first)
    } else {
        let empty = String::new();
        assert(empty@ =~= Seq::<char>::empty());
        Ok(empty)
    }
}

spec fn led_by(lead: Seq<Seq<char>>, rest: Result<Seq<Seq<char>>, Seq<char>>) -> Result<
    Seq<Seq<char>>,
    Seq<char>,
> {
    match rest {
        Ok(tail) => Ok(lead + tail),
        Err(e) => Err(e),
    }
}

fn cut_sentence<C: TokenCounter>(sentence: &str, max_tokens: usize, counter: &C) -> (r: Result<
    Vec<String>,
    CountError,
>)
    ensures
        match r {
            Ok(v) => cut_to_fit(sentence@, max_tokens as nat, *counter) == Ok::<_, Seq<char>>(
                text::strings(v@),
            ),
            Err(e) => cut_to_fit(sentence@, max_tokens as nat, *counter) == Err::<
                Seq<Seq<char>>,
                _,
            >(e.message@),
        },
{
    let ghost max = max_tokens as nat;
    let ghost whole = cut_to_fit(sentence@, max, *counter);
    let mut rest = sentence.to_owned();
    let mut done: Vec<String> = Vec::new();
    proof {
        assert(text::strings(done@) =~= Seq::<Seq<char>>::empty());
        match whole {
            Ok(t) => {
                assert(text::strings(done@) + t =~= t);
            },
            Err(_) => {},
        }
    }
    while !trim(rest.as_str()).is_empty()
        invariant
            max == max_tokens as nat,
            whole == cut_to_fit(sentence@, max, *counter),
            led_by(text::strings(done@), cut_to_fit(rest@, max, *counter)) == whole,
        ensures
            led_by(text::strings(done@), cut_to_fit(rest@, max, *counter)) == whole,
            text::is_blank(rest@),
        decreases rest@.len(),
    {
        let prefix = match take_token_prefix(rest.as_str(), max_tokens, counter) {
            Ok(prefix) => prefix,
            Err(e) => return Err(e),
        };
        let chars = to_chars(rest.as_str());
        let n = scan::char_count(prefix.as_str());
        if n == 0 || n > chars.len() {
            assert(text::strings(done@) + Seq::<Seq<char>>::empty() =~= text::strings(done@));
            return Ok(done);
        }
        let behind = from_chars(&chars, n, chars.len());
        assert(behind@ =~= rest@.skip(n as int));
        let next = trim_text_start(behind.as_str());
        let ghost before = done@;
        done.push(prefix);
        proof {
            lemma_trim_start_len(behind@);
            lemma_strings_push(before, prefix);
            match cut_to_fit(next@, max, *counter) {
                Ok(t) => {
                    assert(text::strings(before) + (seq![prefix@] + t) =~= text::strings(done@)
                        + t);
                },
                Err(_) => {},
            }
        }
        rest = next;
    }
    assert(text::strings(done@) + Seq::<Seq<char>>::empty() =~= text::strings(done@));
    Ok(done)
}

proof fn lemma_fitting_error_stays<C: TokenCounter>(
    sentences: Seq<Seq<char>>,
    max: nat,
    counter: C,
    n: int,
)
    requires
        0 <= n <= sentences.len(),
        fitting_sentences(sentences.take(n), max, counter) is Err,
    ensures
        fitting_sentences(sentences, max, counter) == fitting_sentences(
            sentences.take(n),
            max,
            counter,
        ),
    decreases sentences.len() - n,
{
    if n < sentences.len() {
        assert(sentences.take(n + 1).drop_last() =~= sentences.take(n));
        lemma_fitting_error_stays(sentences, max, counter, n + 1);
    } else {
        assert(sentences.take(n) =~= sentences);
    }
}

fn split_node_into_budgeted_sentences<C: TokenCounter>(
    content: &str,
    max_tokens: usize,
    counter: &C,
) -> (r: Result<Vec<String>, CountError>)
    ensures
        match r {
            Ok(v) => fitting_sentences(sentences_or_text(content@), max_tokens as nat, *counter)
                == Ok::<_, Seq<char>>(text::strings(v@)),
            Err(e) => fitting_sentences(sentences_or_text(content@), max_tokens as nat, *counter)
                == Err::<Seq<Seq<char>>, _>(e.message@),
        },
{
    let mut sentences = split_sentences(content);
    if sentences.len() == 0 {
        sentences.push(trim(content).to_owned());
        assert(text::strings(sentences@) =~= seq![text::trimmed(content@)]);
    }
    let ghost all = sentences_or_text(content@);
    let ghost max = max_tokens as nat;
    let mut r: Vec<String> = Vec::new();
    let mut i: usize = 0;
    assert(text::strings(r@) =~= Seq::<Seq<char>>::empty());
    while i < sentences.len()
        invariant
            i <= sentences@.len(),
            all == text::strings(sentences@),
            all == sentences_or_text(content@),
            max == max_tokens as nat,
            fitting_sentences(all.take(i as int), max, *counter) == Ok::<_, Seq<char>>(
                text::strings(r@),
            ),
        decreases sentences@.len() - i,
    {
        proof {
            assert(all.take(i + 1).drop_last() =~= all.take(i as int));
            assert(all.take(i + 1).last() == sentences@[i as int]@);
        }
        let ghost before = r@;
        match counter.count_tokens(sentences[i].as_str()) {
            Err(e) => {
                proof {
                    lemma_fitting_error_stays(all, max, *counter, i + 1);
                }
                return Err(e);
            },
            Ok(n) => {
                if n <= max_tokens {
                    let copy = sentences[i].clone();
                    r.push(copy);
                    proof {
                        lemma_strings_push(before, copy);
                    }
                } else {
                    match cut_sentence(sentences[i].as_str(), max_tokens, counter) {
                        Err(e) => {
                            proof {
                                lemma_fitting_error_stays(all, max, *counter, i + 1);
                            }
                            return Err(e);
                        },
                        Ok(mut cut) => {
                            let ghost cuts = cut@;
                            r.append(&mut cut);
                            assert(text::strings(r@) =~= text::strings(before) + text::strings(
                                cuts,
                            ));
                        },
                    }
                }
            },
        }
        i += 1;
    }
    assert(all.take(i as int) =~= all);
    Ok(r)
}

/// Two segments of text as one: directly behind a mark that ends a sentence, on
/// a line of its own behind anything else.
pub fn join_budgeted_text_segments(left: &str, right: &str) -> (r: String)
    ensures
        r@ == joined_segments(left@, right@),
{
    let l = trim_text_end(left);
    let r = trim_text_start(right);
    if l.as_str().is_empty() {
        return r;
    }
    if r.as_str().is_empty() {
        return l;
    }
    let chars = to_chars(l.as_str());
    let last = chars[chars.len() - 1];
    let mut out = l;
    if !(is_sentence_mark(last) || last == '.') {
        out.push('\n');
    }
    out.append(r.as_str());
    out
}

/// The chunks that are complete, and the text that may still grow.
struct Cut {
    chunks: Vec<ChunkNode>,
    pending: Option<ChunkNode>,
}

impl View for Cut {
    type V = CutView;

    closed spec fn view(&self) -> CutView {
        CutView {
            chunks: piece_views(self.chunks@),
            pending: match self.pending {
                Some(p) => Some(p@),
                None => None,
            },
        }
    }
}

impl Cut {
    fn flush_pending_text(&mut self)
        ensures
            final(self)@ == pending_ended(old(self)@),
    {
        let ghost before = self.chunks@;
        match self.pending.take() {
            None => {},
            Some(p) => {
                let content = trim(p.content.as_str()).to_owned();
                if !content.as_str().is_empty() {
                    let piece = ChunkNode {
                        content,
                        node_type: p.node_type,
                        is_need_space: p.is_need_space,
                        is_need_newline: p.is_need_newline,
                        source_node_indices: p.source_node_indices,
                    };
                    self.chunks.push(piece);
                    assert(piece_views(self.chunks@) =~= piece_views(before).push(piece@));
                }
            },
        }
    }

    fn push_sentence<C: TokenCounter>(
        &mut self,
        sentence: String,
        sources: &Vec<usize>,
        max_tokens: usize,
        counter: &C,
    ) -> (r: Result<(), CountError>)
        ensures
            match r {
                Ok(_) => after_sentence(
                    old(self)@,
                    sentence@,
                    scan::places(sources@),
                    max_tokens as nat,
                    *counter,
                ) == Ok::<_, Seq<char>>(final(self)@),
                Err(e) => after_sentence(
                    old(self)@,
                    sentence@,
                    scan::places(sources@),
                    max_tokens as nat,
                    *counter,
                ) == Err::<CutView, _>(e.message@),
            },
    {
        let ghost before = self@;
        match self.pending.take() {
            None => {
                self.pending = Some(
                    ChunkNode {
                        content: sentence,
                        node_type: ParseNodeType::Text,
                        is_need_space: false,
                        is_need_newline: true,
                        source_node_indices: clone_positions(sources),
                    },
                );
                Ok(())
            },
            Some(p) => {
                let both = join_budgeted_text_segments(p.content.as_str(), sentence.as_str());
                match counter.count_tokens(both.as_str()) {
                    Err(e) => Err(e),
                    Ok(n) => {
                        if n > max_tokens {
                            self.pending = Some(p);
                            assert(self@ == before);
                            self.flush_pending_text();
                            self.pending = Some(
                                ChunkNode {
                                    content: sentence,
                                    node_type: ParseNodeType::Text,
                                    is_need_space: false,
                                    is_need_newline: true,
                                    source_node_indices: clone_positions(sources),
                                },
                            );
                        } else {
                            let mut joined_sources = clone_positions(&p.source_node_indices);
                            extend_unique(&mut joined_sources, sources);
                            self.pending = Some(
                                ChunkNode {
                                    content: both,
                                    node_type: p.node_type,
                                    is_need_space: p.is_need_space,
                                    is_need_newline: p.is_need_newline,
                                    source_node_indices: joined_sources,
                                },
                            );
                        }
                        Ok(())
                    },
                }
            },
        }
    }
}

proof fn lemma_sentences_error_stays<C: TokenCounter>(
    c: CutView,
    sentences: Seq<Seq<char>>,
    sources: Seq<int>,
    max: nat,
    counter: C,
    n: int,
)
    requires
        0 <= n <= sentences.len(),
        after_sentences(c, sentences.take(n), sources, max, counter) is Err,
    ensures
        after_sentences(c, sentences, sources, max, counter) == after_sentences(
            c,
            sentences.take(n),
            sources,
            max,
            counter,
        ),
    decreases sentences.len() - n,
{
    if n < sentences.len() {
        assert(sentences.take(n + 1).drop_last() =~= sentences.take(n));
        lemma_sentences_error_stays(c, sentences, sources, max, counter, n + 1);
    } else {
        assert(sentences.take(n) =~= sentences);
    }
}

proof fn lemma_pieces_error_stays<C: TokenCounter>(
    pieces: Seq<PieceView>,
    max: nat,
    counter: C,
    n: int,
)
    requires
        0 <= n <= pieces.len(),
        after_pieces(pieces.take(n), max, counter) is Err,
    ensures
        after_pieces(pieces, max, counter) == after_pieces(pieces.take(n), max, counter),
    decreases pieces.len() - n,
{
    if n < pieces.len() {
        assert(pieces.take(n + 1).drop_last() =~= pieces.take(n));
        lemma_pieces_error_stays(pieces, max, counter, n + 1);
    } else {
        assert(pieces.take(n) =~= pieces);
    }
}

fn push_sentences<C: TokenCounter>(
    cut: &mut Cut,
    sentences: &Vec<String>,
    sources: &Vec<usize>,
    max_tokens: usize,
    counter: &C,
) -> (r: Result<(), CountError>)
    ensures
        match r {
            Ok(_) => after_sentences(
                old(cut)@,
                text::strings(sentences@),
                scan::places(sources@),
                max_tokens as nat,
                *counter,
            ) == Ok::<_, Seq<char>>(final(cut)@),
            Err(e) => after_sentences(
                old(cut)@,
                text::strings(sentences@),
                scan::places(sources@),
                max_tokens as nat,
                *counter,
            ) == Err::<CutView, _>(e.message@),
        },
{
    let ghost first = cut@;
    let ghost all = text::strings(sentences@);
    let ghost max = max_tokens as nat;
    let ghost src = scan::places(sources@);
    let mut i: usize = 0;
    assert(all.take(0) =~= Seq::<Seq<char>>::empty());
    while i < sentences.len()
        invariant
            i <= sentences@.len(),
            all == text::strings(sentences@),
            max == max_tokens as nat,
            src == scan::places(sources@),
            first == old(cut)@,
            after_sentences(first, all.take(i as int), src, max, *counter) == Ok::<_, Seq<char>>(
                cut@,
            ),
        decreases sentences@.len() - i,
    {
        proof {
            assert(all.take(i + 1).drop_last() =~= all.take(i as int));
            assert(all.take(i + 1).last() == sentences@[i as int]@);
        }
        let copy = sentences[i].clone();
        match cut.push_sentence(copy, sources, max_tokens, counter) {
            Ok(_) => {},
            Err(e) => {
                proof {
                    lemma_sentences_error_stays(first, all, src, max, *counter, i + 1);
                }
                return Err(e);
            },
        }
        i += 1;
    }
    assert(all.take(i as int) =~= all);
    Ok(())
}

fn split_text_nodes<C: TokenCounter>(
    pieces: &Vec<ChunkNode>,
    max_tokens: usize,
    counter: &C,
) -> (r: Result<Vec<ChunkNode>, CountError>)
    ensures
        match r {
            Ok(v) => after_pieces(piece_views(pieces@), max_tokens as nat, *counter) is Ok
                && piece_views(v@) == pending_ended(
                after_pieces(piece_views(pieces@), max_tokens as nat, *counter)->Ok_0,
            ).chunks,
            Err(e) => after_pieces(piece_views(pieces@), max_tokens as nat, *counter) == Err::<
                CutView,
                _,
            >(e.message@),
        },
{
    let ghost all = piece_views(pieces@);
    let ghost max = max_tokens as nat;
    let mut cut = Cut { chunks: Vec::new(), pending: None };
    let mut i: usize = 0;
    assert(cut@.chunks =~= Seq::<PieceView>::empty());
    while i < pieces.len()
        invariant
            i <= pieces@.len(),
            all == piece_views(pieces@),
            max == max_tokens as nat,
            after_pieces(all.take(i as int), max, *counter) == Ok::<_, Seq<char>>(cut@),
        decreases pieces@.len() - i,
    {
        let piece = &pieces[i];
        proof {
            assert(all.take(i + 1).drop_last() =~= all.take(i as int));
            assert(all.take(i + 1).last() == piece@);
        }
        if piece.node_type != ParseNodeType::Text {
            cut.flush_pending_text();
            let ghost before = cut.chunks@;
            let copy = clone_piece(piece);
            cut.chunks.push(copy);
            assert(piece_views(cut.chunks@) =~= piece_views(before).push(piece@));
        } else {
            let sentences = match split_node_into_budgeted_sentences(
                piece.content.as_str(),
                max_tokens,
                counter,
            ) {
                Ok(v) => v,
                Err(e) => {
                    proof {
                        lemma_pieces_error_stays(all, max, *counter, i + 1);
                    }
                    return Err(e);
                },
            };
            match push_sentences(
                &mut cut,
                &sentences,
                &piece.source_node_indices,
                max_tokens,
                counter,
            ) {
                Ok(_) => {},
                Err(e) => {
                    proof {
                        lemma_pieces_error_stays(all, max, *counter, i + 1);
                    }
                    return Err(e);
                },
            }
        }
        i += 1;
    }
    assert(all.take(i as int) =~= all);
    cut.flush_pending_text();
    Ok(cut.chunks)
}

proof fn lemma_counted_error_stays<C: TokenCounter>(
    pieces: Seq<PieceView>,
    topology: ParseTopology,
    counter: C,
    n: int,
)
    requires
        0 <= n <= pieces.len(),
        counted(pieces.take(n), topology, counter) is Err,
    ensures
        counted(pieces, topology, counter) == counted(pieces.take(n), topology, counter),
    decreases pieces.len() - n,
{
    if n < pieces.len() {
        assert(pieces.take(n + 1).drop_last() =~= pieces.take(n));
        lemma_counted_error_stays(pieces, topology, counter, n + 1);
    } else {
        assert(pieces.take(n) =~= pieces);
    }
}

/// Cuts a document into chunks that fit a token budget: neighbouring texts are
/// merged, and texts that exceed the budget are cut, between sentences where
/// that is enough. Code and rows of tables stand by themselves.
pub fn chunk_parse_result<C: TokenCounter>(parse_result: ParseResult, config: ChunkerConfig<C>) -> (r:
    Result<Vec<ChunkPart>, CountError>)
    ensures
        match r {
            Ok(v) => chunks_of(
                case_parser::node_views(parse_result.nodes@),
                parse_result.topology,
                config.max_tokens as nat,
                config.token_counter,
            ) == Ok::<_, Seq<char>>(part_views(v@)),
            Err(e) => chunks_of(
                case_parser::node_views(parse_result.nodes@),
                parse_result.topology,
                config.max_tokens as nat,
                config.token_counter,
            ) == Err::<Seq<PartView>, _>(e.message@),
        },
{
    let max_tokens: usize = if config.max_tokens == 0 {
        1
    } else {
        config.max_tokens
    };
    let counter = &config.token_counter;
    let topology = parse_result.topology;
    let pieces = start_pieces(&parse_result.nodes);
    let merged = match merge_adjacent_text_nodes(&pieces, max_tokens, counter) {
        Ok(v) => v,
        Err(e) => return Err(e),
    };
    let chunks = match split_text_nodes(&merged, max_tokens, counter) {
        Ok(v) => v,
        Err(e) => return Err(e),
    };
    let ghost all = piece_views(chunks@);
    let ghost nodes = case_parser::node_views(parse_result.nodes@);
    proof {
        assert(chunks_of(nodes, topology, config.max_tokens as nat, *counter) == counted(
            all,
            topology,
            *counter,
        ));
    }
    let mut parts: Vec<ChunkPart> = Vec::new();
    let mut i: usize = 0;
    assert(part_views(parts@) =~= Seq::<PartView>::empty());
    while i < chunks.len()
        invariant
            i <= chunks@.len(),
            all == piece_views(chunks@),
            nodes == case_parser::node_views(parse_result.nodes@),
            topology == parse_result.topology,
            *counter == config.token_counter,
            chunks_of(nodes, topology, config.max_tokens as nat, *counter) == counted(
                all,
                topology,
                *counter,
            ),
            counted(all.take(i as int), topology, *counter) == Ok::<_, Seq<char>>(
                part_views(parts@),
            ),
        decreases chunks@.len() - i,
    {
        let piece = &chunks[i];
        proof {
            assert(all.take(i + 1).drop_last() =~= all.take(i as int));
            assert(all.take(i + 1).last() == piece@);
        }
        let content = trim(piece.content.as_str());
        if !content.is_empty() {
            match counter.count_tokens(content) {
                Err(e) => {
                    proof {
                        lemma_counted_error_stays(all, topology, *counter, i + 1);
                    }
                    return Err(e);
                },
                Ok(n) => {
                    let ghost before = parts@;
                    let part = ChunkPart {
                        content: content.to_owned(),
                        chunk_type: piece.node_type,
                        parse_topology: topology,
                        token_count: n,
                        source_node_indices: clone_positions(&piece.source_node_indices),
                    };
                    parts.push(part);
                    assert(part_views(parts@) =~= part_views(before).push(part@));
                },
            }
        }
        i += 1;
    }
    assert(all.take(i as int) =~= all);
    Ok(parts)
}

/// Whether a character is part of the text proper.
pub open spec fn is_solid(c: char) -> bool {
    !text::char_whitespace(c)
}

/// The text proper: a text without its whitespace.
pub open spec fn solid(s: Seq<char>) -> Seq<char>
    decreases s.len(),
{
    if s.len() == 0 {
        Seq::empty()
    } else if is_solid(s.last()) {
        solid(s.drop_last()).push(s.last())
    } else {
        solid(s.drop_last())
    }
}

/// The text proper of several texts.
pub open spec fn solid_all(texts: Seq<Seq<char>>) -> Seq<char>
    decreases texts.len(),
{
    if texts.len() == 0 {
        Seq::empty()
    } else {
        solid_all(texts.drop_last()) + solid(texts.last())
    }
}

proof fn lemma_solid_add(a: Seq<char>, b: Seq<char>)
    ensures
        solid(a + b) == solid(a) + solid(b),
    decreases b.len(),
{
    if b.len() == 0 {
        assert(a + b =~= a);
        assert(solid(a) + solid(b) =~= solid(a));
    } else {
        lemma_solid_add(a, b.drop_last());
        assert((a + b).drop_last() =~= a + b.drop_last());
        assert((a + b).last() == b.last());
        if is_solid(b.last()) {
            assert(solid(a + b) =~= solid(a) + solid(b));
        }
    }
}

proof fn lemma_blank_has_no_solid(s: Seq<char>)
    requires
        forall|k: int| 0 <= k < s.len() ==> text::char_whitespace(#[trigger] s[k]),
    ensures
        solid(s) == Seq::<char>::empty(),
    decreases s.len(),
{
    if s.len() > 0 {
        let t = s.drop_last();
        assert forall|k: int| 0 <= k < t.len() implies text::char_whitespace(#[trigger] t[k]) by {
            assert(t[k] == s[k]);
        }
        lemma_blank_has_no_solid(t);
        assert(text::char_whitespace(s[s.len() - 1]));
    }
}

proof fn lemma_trim_keeps_solid(s: Seq<char>)
    ensures
        solid(text::trim_start(s)) == solid(s),
        solid(text::trim_end(s)) == solid(s),
{
    let lo = text::lemma_trim_start_bounds(s);
    assert(s =~= s.take(lo) + s.skip(lo));
    lemma_solid_add(s.take(lo), s.skip(lo));
    assert forall|k: int| 0 <= k < s.take(lo).len() implies text::char_whitespace(
        #[trigger] s.take(lo)[k],
    ) by {
        assert(s.take(lo)[k] == s[k]);
    }
    lemma_blank_has_no_solid(s.take(lo));
    assert(solid(s) =~= solid(s.skip(lo)));
    let hi = text::lemma_trim_end_bounds(s);
    assert(s =~= s.take(hi) + s.skip(hi));
    lemma_solid_add(s.take(hi), s.skip(hi));
    assert forall|k: int| 0 <= k < s.skip(hi).len() implies text::char_whitespace(
        #[trigger] s.skip(hi)[k],
    ) by {
        assert(s.skip(hi)[k] == s[k + hi]);
    }
    lemma_blank_has_no_solid(s.skip(hi));
    assert(solid(s) =~= solid(s.take(hi)));
}

proof fn lemma_trimmed_keeps_solid(s: Seq<char>)
    ensures
        solid(text::trimmed(s)) == solid(s),
        text::is_blank(s) ==> solid(s) == Seq::<char>::empty(),
{
    lemma_trim_keeps_solid(s);
    lemma_trim_keeps_solid(text::trim_start(s));
}

proof fn lemma_solid_all_push(texts: Seq<Seq<char>>, t: Seq<char>)
    ensures
        solid_all(texts.push(t)) == solid_all(texts) + solid(t),
{
    assert(texts.push(t).drop_last() =~= texts);
}

proof fn lemma_solid_of_one(t: Seq<char>)
    ensures
        solid_all(seq![t]) == solid(t),
{
    let none = Seq::<Seq<char>>::empty();
    lemma_solid_all_push(none, t);
    assert(none.push(t) =~= seq![t]);
    assert(solid_all(none) =~= Seq::<char>::empty());
    assert(solid_all(none) + solid(t) =~= solid(t));
}

proof fn lemma_solid_all_add(a: Seq<Seq<char>>, b: Seq<Seq<char>>)
    ensures
        solid_all(a + b) == solid_all(a) + solid_all(b),
    decreases b.len(),
{
    if b.len() == 0 {
        assert(a + b =~= a);
        assert(solid_all(a) + solid_all(b) =~= solid_all(a));
    } else {
        lemma_solid_all_add(a, b.drop_last());
        assert((a + b).drop_last() =~= a + b.drop_last());
        assert((a + b).last() == b.last());
        assert(solid_all(a + b) =~= solid_all(a) + solid_all(b));
    }
}

pub open spec fn piece_contents(pieces: Seq<PieceView>) -> Seq<Seq<char>> {
    Seq::new(pieces.len(), |i: int| pieces[i].content)
}

pub open spec fn node_contents(nodes: Seq<NodeView>) -> Seq<Seq<char>> {
    Seq::new(nodes.len(), |i: int| nodes[i].content)
}

pub open spec fn part_contents(parts: Seq<PartView>) -> Seq<Seq<char>> {
    Seq::new(parts.len(), |i: int| parts[i].content)
}

proof fn lemma_start_keeps_solid(nodes: Seq<NodeView>)
    ensures
        solid_all(piece_contents(starting_pieces(nodes))) == solid_all(node_contents(nodes)),
    decreases nodes.len(),
{
    if nodes.len() == 0 {
        assert(piece_contents(starting_pieces(nodes)) =~= Seq::<Seq<char>>::empty());
        assert(node_contents(nodes) =~= Seq::<Seq<char>>::empty());
    } else {
        let t = nodes.drop_last();
        lemma_start_keeps_solid(t);
        assert(node_contents(nodes).drop_last() =~= node_contents(t));
        lemma_trimmed_keeps_solid(nodes.last().content);
        if !text::is_blank(nodes.last().content) {
            let earlier = starting_pieces(t);
            assert(piece_contents(starting_pieces(nodes)) =~= piece_contents(earlier).push(
                text::trimmed(nodes.last().content),
            ));
            lemma_solid_all_push(
                piece_contents(earlier),
                text::trimmed(nodes.last().content),
            );
        } else {
            assert(solid_all(node_contents(nodes)) =~= solid_all(node_contents(t)));
        }
    }
}

proof fn lemma_mark_between(a: Seq<char>, c: char, b: Seq<char>)
    requires
        !is_solid(c),
    ensures
        solid(a.push(c) + b) == solid(a) + solid(b),
{
    lemma_solid_add(a.push(c), b);
    assert(a.push(c).drop_last() =~= a);
}

proof fn lemma_spaced_keeps_solid(left: Seq<char>, right: PieceView)
    ensures
        solid(spaced(left, right)) == solid(left) + solid(right.content),
{
    lemma_trim_keeps_solid(left);
    lemma_trim_keeps_solid(right.content);
    if right.is_need_newline {
        lemma_mark_between(text::trim_end(left), '\n', text::trim_start(right.content));
    } else if right.is_need_space {
        lemma_mark_between(text::trim_end(left), ' ', text::trim_start(right.content));
    } else {
        lemma_solid_add(left, right.content);
    }
}

proof fn lemma_merging_keeps_solid<C: TokenCounter>(pieces: Seq<PieceView>, max: nat, counter: C)
    requires
        merged_pieces(pieces, max, counter) is Ok,
    ensures
        solid_all(piece_contents(merged_pieces(pieces, max, counter)->Ok_0)) == solid_all(
            piece_contents(pieces),
        ),
    decreases pieces.len(),
{
    if pieces.len() == 0 {
        assert(piece_contents(Seq::<PieceView>::empty()) =~= Seq::<Seq<char>>::empty());
        assert(piece_contents(pieces) =~= Seq::<Seq<char>>::empty());
    } else {
        let t = pieces.drop_last();
        let x = pieces.last();
        lemma_merging_keeps_solid(t, max, counter);
        let m = merged_pieces(t, max, counter)->Ok_0;
        let r = merged_pieces(pieces, max, counter)->Ok_0;
        assert(piece_contents(pieces) =~= piece_contents(t).push(x.content));
        lemma_solid_all_push(piece_contents(t), x.content);
        if r == m.push(x) {
            assert(piece_contents(r) =~= piece_contents(m).push(x.content));
            lemma_solid_all_push(piece_contents(m), x.content);
        } else {
            let both = spaced(m.last().content, x);
            let front = m.drop_last();
            assert(piece_contents(r) =~= piece_contents(front).push(both));
            lemma_solid_all_push(piece_contents(front), both);
            assert(piece_contents(m) =~= piece_contents(front).push(m.last().content));
            lemma_solid_all_push(piece_contents(front), m.last().content);
            lemma_spaced_keeps_solid(m.last().content, x);
            assert(solid_all(piece_contents(r)) =~= solid_all(piece_contents(pieces)));
        }
    }
}

proof fn lemma_sentences_keep_solid(s: Seq<char>, n: nat)
    requires
        n <= s.len(),
    ensures
        0 <= sentences_state(s, n).1 <= n,
        solid_all(sentences_state(s, n).0) == solid(s.take(sentences_state(s, n).1)),
    decreases n,
{
    if n == 0 {
        assert(s.take(0) =~= Seq::<char>::empty());
    } else {
        lemma_sentences_keep_solid(s, (n - 1) as nat);
        let (done, start) = sentences_state(s, (n - 1) as nat);
        if is_sentence_end(s, n - 1) {
            let raw = s.subrange(start, n as int);
            assert(s.take(n as int) =~= s.take(start) + raw);
            lemma_solid_add(s.take(start), raw);
            lemma_trimmed_keeps_solid(raw);
            lemma_solid_all_push(done, text::trimmed(raw));
            assert(solid_all(sentences_state(s, n).0) =~= solid(s.take(n as int)));
        }
    }
}

proof fn lemma_sentences_of_keep_solid(s: Seq<char>)
    ensures
        solid_all(sentences_or_text(s)) == solid(s),
        forall|i: int|
            0 <= i < sentences_or_text(s).len() ==> text::trim_start(
                #[trigger] sentences_or_text(s)[i],
            ) == sentences_or_text(s)[i],
{
    let (done, start) = sentences_state(s, s.len());
    lemma_sentences_keep_solid(s, s.len());
    lemma_sentences_are_trimmed(s, s.len());
    let raw = s.skip(start);
    assert(s =~= s.take(start) + raw);
    lemma_solid_add(s.take(start), raw);
    lemma_trimmed_keeps_solid(raw);
    text::trimming_is_final(raw);
    text::trimming_is_final(s);
    lemma_solid_all_push(done, text::trimmed(raw));
    lemma_trimmed_is_front_trimmed(raw);
    lemma_trimmed_is_front_trimmed(s);
    if sentences_of(s).len() == 0 {
        lemma_trimmed_keeps_solid(s);
        lemma_solid_of_one(text::trimmed(s));
    } else {
        assert(solid_all(sentences_of(s)) =~= solid(s));
    }
}

proof fn lemma_trimmed_is_front_trimmed(s: Seq<char>)
    ensures
        text::trim_start(text::trimmed(s)) == text::trimmed(s),
{
    let lo = text::lemma_trim_start_bounds(s);
    let front = text::trim_start(s);
    let hi = text::lemma_trim_end_bounds(front);
    if hi > 0 {
        assert(text::trimmed(s)[0] == front[0]);
        assert(front[0] == s[lo]);
    }
}

proof fn lemma_sentences_are_trimmed(s: Seq<char>, n: nat)
    requires
        n <= s.len(),
    ensures
        forall|i: int|
            0 <= i < sentences_state(s, n).0.len() ==> text::trim_start(
                #[trigger] sentences_state(s, n).0[i],
            ) == sentences_state(s, n).0[i],
    decreases n,
{
    if n > 0 {
        lemma_sentences_are_trimmed(s, (n - 1) as nat);
        let (done, start) = sentences_state(s, (n - 1) as nat);
        lemma_trimmed_is_front_trimmed(s.subrange(start, n as int));
        let r = sentences_state(s, n).0;
        assert forall|i: int| 0 <= i < r.len() implies text::trim_start(#[trigger] r[i])
            == r[i] by {
            if i < done.len() {
                assert(r[i] == done[i]);
            }
        }
    }
}

/// The start of a text that does not start with whitespace is a prefix of it,
/// and not empty where the text is not blank.
proof fn lemma_prefix_is_prefix<C: TokenCounter>(s: Seq<char>, max: nat, counter: C)
    requires
        text::trim_start(s) == s,
        !text::is_blank(s),
        fitting_prefix(s, max, counter) is Ok,
    ensures
        0 < fitting_prefix(s, max, counter)->Ok_0.len() <= s.len(),
        fitting_prefix(s, max, counter)->Ok_0 == s.take(
            fitting_prefix(s, max, counter)->Ok_0.len() as int,
        ),
{
    let lo = text::lemma_trim_start_bounds(s);
    assert(lo == 0);
    assert(s.len() > 0 && !text::char_whitespace(s[0]));
    let hi = text::lemma_trim_end_bounds(s);
    assert(s.take(hi) == text::trimmed(s));
    if counter.tokens(s)->Ok_0 > max {
        let k = fitting_len(s, 0, s.len(), max, counter)->Ok_0;
        lemma_fitting_len_bounds(s, 0, s.len(), max, counter);
        let part = s.take(k as int);
        if k > 0 {
            assert(part[0] == s[0]);
            assert(text::trim_start(part) == part);
            let h = text::lemma_trim_end_bounds(part);
            assert(part.take(h) =~= s.take(h));
        } else {
            assert(part =~= Seq::<char>::empty());
        }
    }
}

proof fn lemma_fitting_len_bounds<C: TokenCounter>(
    s: Seq<char>,
    lo: nat,
    hi: nat,
    max: nat,
    counter: C,
)
    requires
        lo <= hi <= s.len(),
        fitting_len(s, lo, hi, max, counter) is Ok,
    ensures
        lo <= fitting_len(s, lo, hi, max, counter)->Ok_0 <= hi,
        fitting_len(s, lo, hi, max, counter)->Ok_0 == lo || (counter.tokens(
            s.take(fitting_len(s, lo, hi, max, counter)->Ok_0 as int),
        ) is Ok && counter.tokens(
            s.take(fitting_len(s, lo, hi, max, counter)->Ok_0 as int),
        )->Ok_0 <= max),
    decreases hi - lo,
{
    if lo + 1 < hi {
        let mid = ((lo + hi) / 2) as nat;
        if counter.tokens(s.take(mid as int))->Ok_0 <= max {
            lemma_fitting_len_bounds(s, mid, hi, max, counter);
        } else {
            lemma_fitting_len_bounds(s, lo, mid, max, counter);
        }
    }
}

proof fn lemma_cutting_keeps_solid<C: TokenCounter>(s: Seq<char>, max: nat, counter: C)
    requires
        text::trim_start(s) == s,
        cut_to_fit(s, max, counter) is Ok,
    ensures
        solid_all(cut_to_fit(s, max, counter)->Ok_0) == solid(s),
    decreases s.len(),
{
    lemma_trimmed_keeps_solid(s);
    if !text::is_blank(s) {
        lemma_prefix_is_prefix(s, max, counter);
        let prefix = fitting_prefix(s, max, counter)->Ok_0;
        let n = prefix.len() as int;
        let behind = s.skip(n);
        let rest = text::trim_start(behind);
        lemma_trim_start_len(behind);
        lemma_trim_start_is_final(behind);
        lemma_cutting_keeps_solid(rest, max, counter);
        let tail = cut_to_fit(rest, max, counter)->Ok_0;
        assert(s =~= prefix + behind);
        lemma_solid_add(prefix, behind);
        lemma_trim_keeps_solid(behind);
        lemma_solid_all_add(seq![prefix], tail);
        lemma_solid_of_one(prefix);
    }
}

proof fn lemma_trim_start_is_final(s: Seq<char>)
    ensures
        text::trim_start(text::trim_start(s)) == text::trim_start(s),
    decreases s.len(),
{
    if s.len() > 0 && text::char_whitespace(s[0]) {
        lemma_trim_start_is_final(s.drop_first());
    }
}

proof fn lemma_fitting_keeps_solid<C: TokenCounter>(
    sentences: Seq<Seq<char>>,
    max: nat,
    counter: C,
)
    requires
        forall|i: int|
            0 <= i < sentences.len() ==> text::trim_start(#[trigger] sentences[i])
                == sentences[i],
        fitting_sentences(sentences, max, counter) is Ok,
    ensures
        solid_all(fitting_sentences(sentences, max, counter)->Ok_0) == solid_all(sentences),
    decreases sentences.len(),
{
    if sentences.len() > 0 {
        let t = sentences.drop_last();
        let x = sentences.last();
        assert forall|i: int| 0 <= i < t.len() implies text::trim_start(#[trigger] t[i])
            == t[i] by {
            assert(t[i] == sentences[i]);
        }
        lemma_fitting_keeps_solid(t, max, counter);
        let earlier = fitting_sentences(t, max, counter)->Ok_0;
        assert(text::trim_start(sentences[sentences.len() - 1]) == x);
        if counter.tokens(x)->Ok_0 <= max {
            lemma_solid_all_push(earlier, x);
        } else {
            lemma_cutting_keeps_solid(x, max, counter);
            lemma_solid_all_add(earlier, cut_to_fit(x, max, counter)->Ok_0);
        }
    }
}

proof fn lemma_segments_keep_solid(left: Seq<char>, right: Seq<char>)
    ensures
        solid(joined_segments(left, right)) == solid(left) + solid(right),
{
    lemma_trim_keeps_solid(left);
    lemma_trim_keeps_solid(right);
    let l = text::trim_end(left);
    let r = text::trim_start(right);
    if l.len() == 0 {
        assert(solid(l) + solid(r) =~= solid(r));
    } else if r.len() == 0 {
        assert(solid(l) + solid(r) =~= solid(l));
    } else if closes_segment(l.last()) {
        lemma_solid_add(l, r);
    } else {
        lemma_mark_between(l, '\n', r);
    }
}

/// The text proper of what is cut so far.
pub open spec fn solid_cut(c: CutView) -> Seq<char> {
    solid_all(piece_contents(c.chunks)) + (match c.pending {
        Some(p) => solid(p.content),
        None => Seq::empty(),
    })
}

proof fn lemma_ending_keeps_solid(c: CutView)
    ensures
        solid_cut(pending_ended(c)) == solid_cut(c),
        pending_ended(c).pending is None,
{
    match c.pending {
        None => {},
        Some(p) => {
            lemma_trimmed_keeps_solid(p.content);
            let content = text::trimmed(p.content);
            if content.len() > 0 {
                let r = pending_ended(c).chunks;
                assert(piece_contents(r) =~= piece_contents(c.chunks).push(content));
                lemma_solid_all_push(piece_contents(c.chunks), content);
            }
            assert(solid_cut(pending_ended(c)) =~= solid_cut(c));
        },
    }
}

proof fn lemma_sentence_adds_solid<C: TokenCounter>(
    c: CutView,
    sentence: Seq<char>,
    sources: Seq<int>,
    max: nat,
    counter: C,
)
    requires
        after_sentence(c, sentence, sources, max, counter) is Ok,
    ensures
        solid_cut(after_sentence(c, sentence, sources, max, counter)->Ok_0) == solid_cut(c)
            + solid(sentence),
{
    let r = after_sentence(c, sentence, sources, max, counter)->Ok_0;
    match c.pending {
        None => {
            assert(solid_cut(r) =~= solid_cut(c) + solid(sentence));
        },
        Some(p) => {
            lemma_segments_keep_solid(p.content, sentence);
            lemma_ending_keeps_solid(c);
            assert(solid_cut(r) =~= solid_cut(c) + solid(sentence));
        },
    }
}

proof fn lemma_sentences_add_solid<C: TokenCounter>(
    c: CutView,
    sentences: Seq<Seq<char>>,
    sources: Seq<int>,
    max: nat,
    counter: C,
)
    requires
        after_sentences(c, sentences, sources, max, counter) is Ok,
    ensures
        solid_cut(after_sentences(c, sentences, sources, max, counter)->Ok_0) == solid_cut(c)
            + solid_all(sentences),
    decreases sentences.len(),
{
    if sentences.len() == 0 {
        assert(solid_cut(c) + solid_all(sentences) =~= solid_cut(c));
    } else {
        lemma_sentences_add_solid(c, sentences.drop_last(), sources, max, counter);
        let earlier = after_sentences(c, sentences.drop_last(), sources, max, counter)->Ok_0;
        lemma_sentence_adds_solid(earlier, sentences.last(), sources, max, counter);
        assert(solid_cut(after_sentences(c, sentences, sources, max, counter)->Ok_0)
            =~= solid_cut(c) + solid_all(sentences));
    }
}

proof fn lemma_pieces_keep_solid<C: TokenCounter>(pieces: Seq<PieceView>, max: nat, counter: C)
    requires
        after_pieces(pieces, max, counter) is Ok,
    ensures
        solid_cut(after_pieces(pieces, max, counter)->Ok_0) == solid_all(piece_contents(pieces)),
    decreases pieces.len(),
{
    let r = after_pieces(pieces, max, counter)->Ok_0;
    if pieces.len() == 0 {
        assert(piece_contents(pieces) =~= Seq::<Seq<char>>::empty());
        assert(piece_contents(r.chunks) =~= Seq::<Seq<char>>::empty());
        assert(solid_cut(r) =~= Seq::<char>::empty());
    } else {
        let t = pieces.drop_last();
        let x = pieces.last();
        lemma_pieces_keep_solid(t, max, counter);
        let c = after_pieces(t, max, counter)->Ok_0;
        assert(piece_contents(pieces) =~= piece_contents(t).push(x.content));
        lemma_solid_all_push(piece_contents(t), x.content);
        if x.node_type != ParseNodeType::Text {
            lemma_ending_keeps_solid(c);
            let ended = pending_ended(c);
            assert(piece_contents(r.chunks) =~= piece_contents(ended.chunks).push(x.content));
            lemma_solid_all_push(piece_contents(ended.chunks), x.content);
            assert(solid_cut(r) =~= solid_cut(c) + solid(x.content));
        } else {
            lemma_sentences_of_keep_solid(x.content);
            lemma_fitting_keeps_solid(sentences_or_text(x.content), max, counter);
            let sentences = fitting_sentences(
                sentences_or_text(x.content),
                max,
                counter,
            )->Ok_0;
            lemma_sentences_add_solid(c, sentences, x.sources, max, counter);
        }
    }
}

proof fn lemma_counting_keeps_solid<C: TokenCounter>(
    pieces: Seq<PieceView>,
    topology: ParseTopology,
    counter: C,
)
    requires
        counted(pieces, topology, counter) is Ok,
    ensures
        solid_all(part_contents(counted(pieces, topology, counter)->Ok_0)) == solid_all(
            piece_contents(pieces),
        ),
    decreases pieces.len(),
{
    let r = counted(pieces, topology, counter)->Ok_0;
    if pieces.len() == 0 {
        assert(part_contents(r) =~= Seq::<Seq<char>>::empty());
        assert(piece_contents(pieces) =~= Seq::<Seq<char>>::empty());
    } else {
        let t = pieces.drop_last();
        let x = pieces.last();
        lemma_counting_keeps_solid(t, topology, counter);
        let earlier = counted(t, topology, counter)->Ok_0;
        assert(piece_contents(pieces) =~= piece_contents(t).push(x.content));
        lemma_solid_all_push(piece_contents(t), x.content);
        lemma_trimmed_keeps_solid(x.content);
        let content = text::trimmed(x.content);
        if content.len() > 0 {
            assert(part_contents(r) =~= part_contents(earlier).push(content));
            lemma_solid_all_push(part_contents(earlier), content);
        } else {
            assert(solid_all(piece_contents(pieces)) =~= solid_all(piece_contents(t)));
        }
    }
}

/// Chunking loses no text and adds none: but for whitespace, the chunks of a
/// document one after the other are its nodes one after the other.
pub proof fn chunking_loses_no_text<C: TokenCounter>(
    nodes: Seq<NodeView>,
    topology: ParseTopology,
    max_tokens: nat,
    counter: C,
)
    requires
        chunks_of(nodes, topology, max_tokens, counter) is Ok,
    ensures
        solid_all(part_contents(chunks_of(nodes, topology, max_tokens, counter)->Ok_0))
            == solid_all(node_contents(nodes)),
{
    let max = budget(max_tokens);
    lemma_start_keeps_solid(nodes);
    let pieces = starting_pieces(nodes);
    lemma_merging_keeps_solid(pieces, max, counter);
    let merged = merged_pieces(pieces, max, counter)->Ok_0;
    lemma_pieces_keep_solid(merged, max, counter);
    let cut = after_pieces(merged, max, counter)->Ok_0;
    lemma_ending_keeps_solid(cut);
    let ended = pending_ended(cut);
    assert(solid_cut(ended) =~= solid_all(piece_contents(ended.chunks)));
    lemma_counting_keeps_solid(ended.chunks, topology, counter);
}

/// A block that is kept whole: its content, what it is, and the nodes that it
/// comes from.
pub type BlockView = (Seq<char>, ParseNodeType, Seq<int>);

/// The code and the tables among nodes, each without the space around it; blank
/// ones are left out.
pub open spec fn node_blocks(nodes: Seq<NodeView>) -> Seq<BlockView>
    decreases nodes.len(),
{
    if nodes.len() == 0 {
        Seq::empty()
    } else {
        let earlier = node_blocks(nodes.drop_last());
        let n = nodes.last();
        if n.node_type == ParseNodeType::Text || text::is_blank(n.content) {
            earlier
        } else {
            earlier.push((text::trimmed(n.content), n.node_type, seq![n.index]))
        }
    }
}

/// The code and the tables among chunks.
pub open spec fn part_blocks(parts: Seq<PartView>) -> Seq<BlockView>
    decreases parts.len(),
{
    if parts.len() == 0 {
        Seq::empty()
    } else {
        let earlier = part_blocks(parts.drop_last());
        let p = parts.last();
        if p.chunk_type == ParseNodeType::Text {
            earlier
        } else {
            earlier.push((p.content, p.chunk_type, p.sources))
        }
    }
}

spec fn piece_blocks(pieces: Seq<PieceView>) -> Seq<BlockView>
    decreases pieces.len(),
{
    if pieces.len() == 0 {
        Seq::empty()
    } else {
        let earlier = piece_blocks(pieces.drop_last());
        let p = pieces.last();
        if p.node_type == ParseNodeType::Text {
            earlier
        } else {
            earlier.push((p.content, p.node_type, p.sources))
        }
    }
}

proof fn lemma_piece_blocks_push(pieces: Seq<PieceView>, p: PieceView)
    ensures
        piece_blocks(pieces.push(p)) == (if p.node_type == ParseNodeType::Text {
            piece_blocks(pieces)
        } else {
            piece_blocks(pieces).push((p.content, p.node_type, p.sources))
        }),
{
    assert(pieces.push(p).drop_last() =~= pieces);
}

spec fn trimmed_blocks(blocks: Seq<BlockView>) -> bool {
    forall|i: int|
        0 <= i < blocks.len() ==> (#[trigger] blocks[i]).0.len() > 0 && text::trimmed(blocks[i].0)
            == blocks[i].0
}

proof fn lemma_start_keeps_blocks(nodes: Seq<NodeView>)
    ensures
        piece_blocks(starting_pieces(nodes)) == node_blocks(nodes),
        trimmed_blocks(node_blocks(nodes)),
    decreases nodes.len(),
{
    if nodes.len() > 0 {
        lemma_start_keeps_blocks(nodes.drop_last());
        let n = nodes.last();
        text::trimming_is_final(n.content);
        if !text::is_blank(n.content) {
            let earlier = starting_pieces(nodes.drop_last());
            lemma_piece_blocks_push(earlier, starting_pieces(nodes).last());
            assert(starting_pieces(nodes) =~= earlier.push(starting_pieces(nodes).last()));
        }
    }
}

proof fn lemma_merging_keeps_blocks<C: TokenCounter>(pieces: Seq<PieceView>, max: nat, counter: C)
    requires
        merged_pieces(pieces, max, counter) is Ok,
    ensures
        piece_blocks(merged_pieces(pieces, max, counter)->Ok_0) == piece_blocks(pieces),
    decreases pieces.len(),
{
    if pieces.len() > 0 {
        lemma_merging_keeps_blocks(pieces.drop_last(), max, counter);
        let m = merged_pieces(pieces.drop_last(), max, counter)->Ok_0;
        let r = merged_pieces(pieces, max, counter)->Ok_0;
        let x = pieces.last();
        if r == m.push(x) {
            lemma_piece_blocks_push(m, x);
        } else {
            assert(r =~= m.drop_last().push(r.last()));
            lemma_piece_blocks_push(m.drop_last(), r.last());
        }
    }
}

proof fn lemma_ending_keeps_blocks(c: CutView)
    requires
        c.pending is Some ==> c.pending->0.node_type == ParseNodeType::Text,
    ensures
        piece_blocks(pending_ended(c).chunks) == piece_blocks(c.chunks),
{
    if c.pending is Some {
        let p = c.pending->0;
        lemma_piece_blocks_push(
            c.chunks,
            PieceView { content: text::trimmed(p.content), ..p },
        );
    }
}

proof fn lemma_sentences_keep_blocks<C: TokenCounter>(
    c: CutView,
    sentences: Seq<Seq<char>>,
    sources: Seq<int>,
    max: nat,
    counter: C,
)
    requires
        c.pending is Some ==> c.pending->0.node_type == ParseNodeType::Text,
        after_sentences(c, sentences, sources, max, counter) is Ok,
    ensures
        ({
            let r = after_sentences(c, sentences, sources, max, counter)->Ok_0;
            &&& piece_blocks(r.chunks) == piece_blocks(c.chunks)
            &&& r.pending is Some ==> r.pending->0.node_type == ParseNodeType::Text
        }),
    decreases sentences.len(),
{
    if sentences.len() > 0 {
        lemma_sentences_keep_blocks(c, sentences.drop_last(), sources, max, counter);
        lemma_ending_keeps_blocks(
            after_sentences(c, sentences.drop_last(), sources, max, counter)->Ok_0,
        );
    }
}

proof fn lemma_pieces_keep_blocks<C: TokenCounter>(pieces: Seq<PieceView>, max: nat, counter: C)
    requires
        after_pieces(pieces, max, counter) is Ok,
    ensures
        ({
            let r = after_pieces(pieces, max, counter)->Ok_0;
            &&& piece_blocks(r.chunks) == piece_blocks(pieces)
            &&& r.pending is Some ==> r.pending->0.node_type == ParseNodeType::Text
        }),
    decreases pieces.len(),
{
    if pieces.len() > 0 {
        lemma_pieces_keep_blocks(pieces.drop_last(), max, counter);
        let c = after_pieces(pieces.drop_last(), max, counter)->Ok_0;
        let x = pieces.last();
        if x.node_type != ParseNodeType::Text {
            lemma_ending_keeps_blocks(c);
            lemma_piece_blocks_push(pending_ended(c).chunks, x);
        } else {
            lemma_sentences_keep_blocks(
                c,
                fitting_sentences(sentences_or_text(x.content), max, counter)->Ok_0,
                x.sources,
                max,
                counter,
            );
        }
    }
}

proof fn lemma_counting_keeps_blocks<C: TokenCounter>(
    pieces: Seq<PieceView>,
    topology: ParseTopology,
    counter: C,
)
    requires
        trimmed_blocks(piece_blocks(pieces)),
        counted(pieces, topology, counter) is Ok,
    ensures
        part_blocks(counted(pieces, topology, counter)->Ok_0) == piece_blocks(pieces),
    decreases pieces.len(),
{
    if pieces.len() > 0 {
        let t = pieces.drop_last();
        let x = pieces.last();
        let blocks = piece_blocks(pieces);
        assert forall|i: int| 0 <= i < piece_blocks(t).len() implies (#[trigger] piece_blocks(
            t,
        )[i]).0.len() > 0 && text::trimmed(piece_blocks(t)[i].0) == piece_blocks(t)[i].0 by {
            assert(blocks[i] == piece_blocks(t)[i]);
        }
        lemma_counting_keeps_blocks(t, topology, counter);
        let earlier = counted(t, topology, counter)->Ok_0;
        let all = counted(pieces, topology, counter)->Ok_0;
        if x.node_type != ParseNodeType::Text {
            assert(blocks[blocks.len() - 1].0 == x.content);
        }
        if text::trimmed(x.content).len() > 0 {
            assert(all.drop_last() =~= earlier);
        }
    }
}

/// Code and tables are kept whole. The chunks that are code or tables are, one
/// for one and in order, the nodes of the document that are, but for the space
/// around them and for blank ones; each comes from its own node alone.
pub proof fn blocks_are_kept_whole<C: TokenCounter>(
    nodes: Seq<NodeView>,
    topology: ParseTopology,
    max_tokens: nat,
    counter: C,
)
    requires
        chunks_of(nodes, topology, max_tokens, counter) is Ok,
    ensures
        part_blocks(chunks_of(nodes, topology, max_tokens, counter)->Ok_0) == node_blocks(nodes),
{
    let max = budget(max_tokens);
    lemma_start_keeps_blocks(nodes);
    let pieces = starting_pieces(nodes);
    lemma_merging_keeps_blocks(pieces, max, counter);
    let merged = merged_pieces(pieces, max, counter)->Ok_0;
    lemma_pieces_keep_blocks(merged, max, counter);
    let cut = after_pieces(merged, max, counter)->Ok_0;
    lemma_ending_keeps_blocks(cut);
    lemma_counting_keeps_blocks(pending_ended(cut).chunks, topology, counter);
}

/// Whether sources are named, each once, and each is the index of a node that is
/// not blank.
pub open spec fn sound_sources(sources: Seq<int>, nodes: Seq<NodeView>) -> bool {
    &&& sources.len() > 0
    &&& sources.no_duplicates()
    &&& forall|j: int|
        0 <= j < sources.len() ==> is_index_of(#[trigger] sources[j], nodes)
}

/// Whether a number is the index of a node that is not blank.
pub open spec fn is_index_of(index: int, nodes: Seq<NodeView>) -> bool {
    exists|i: int|
        0 <= i < nodes.len() && (#[trigger] nodes[i]).index == index && !text::is_blank(
            nodes[i].content,
        )
}

proof fn lemma_sources_join(sources: Seq<int>, more: Seq<int>, nodes: Seq<NodeView>)
    requires
        sound_sources(sources, nodes),
        forall|j: int| 0 <= j < more.len() ==> is_index_of(#[trigger] more[j], nodes),
    ensures
        sound_sources(with_sources(sources, more), nodes),
        forall|x: int|
            sources.contains(x) || more.contains(x) ==> #[trigger] with_sources(
                sources,
                more,
            ).contains(x),
    decreases more.len(),
{
    let all = with_sources(sources, more);
    if more.len() > 0 {
        let front = more.drop_last();
        assert forall|j: int| 0 <= j < front.len() implies is_index_of(
            #[trigger] front[j],
            nodes,
        ) by {
            assert(front[j] == more[j]);
        }
        lemma_sources_join(sources, front, nodes);
        let earlier = with_sources(sources, front);
        assert(is_index_of(more[more.len() - 1], nodes));
        if !earlier.contains(more.last()) {
            assert forall|j: int| 0 <= j < all.len() implies is_index_of(
                #[trigger] all[j],
                nodes,
            ) by {
                if j < earlier.len() {
                    assert(all[j] == earlier[j]);
                }
            }
            assert(all[earlier.len() as int] == more.last());
        }
        assert forall|x: int| sources.contains(x) || more.contains(x) implies #[trigger] all.contains(
            x,
        ) by {
            if more.contains(x) && x != more.last() {
                let j = choose|j: int| 0 <= j < more.len() && more[j] == x;
                assert(front[j] == x);
            }
            if x != more.last() || earlier.contains(x) {
                assert(earlier.contains(x));
                let k = choose|k: int| 0 <= k < earlier.len() && earlier[k] == x;
                assert(all[k] == x);
            }
        }
    }
}

spec fn sound_pieces(pieces: Seq<PieceView>, nodes: Seq<NodeView>) -> bool {
    forall|i: int|
        0 <= i < pieces.len() ==> sound_sources((#[trigger] pieces[i]).sources, nodes)
}

spec fn sound_cut(c: CutView, nodes: Seq<NodeView>) -> bool {
    sound_pieces(c.chunks, nodes) && (c.pending is Some ==> sound_sources(
        c.pending->0.sources,
        nodes,
    ))
}

proof fn lemma_start_has_sources(nodes: Seq<NodeView>, n: int)
    requires
        0 <= n <= nodes.len(),
    ensures
        sound_pieces(starting_pieces(nodes.take(n)), nodes),
    decreases n,
{
    if n > 0 {
        lemma_start_has_sources(nodes, n - 1);
        assert(nodes.take(n).drop_last() =~= nodes.take(n - 1));
        let node = nodes[n - 1];
        if !text::is_blank(node.content) {
            let s = seq![node.index];
            assert(is_index_of(s[0], nodes));
            assert(sound_sources(s, nodes));
        }
    }
}

proof fn lemma_merging_has_sources<C: TokenCounter>(
    pieces: Seq<PieceView>,
    max: nat,
    counter: C,
    nodes: Seq<NodeView>,
)
    requires
        sound_pieces(pieces, nodes),
        merged_pieces(pieces, max, counter) is Ok,
    ensures
        sound_pieces(merged_pieces(pieces, max, counter)->Ok_0, nodes),
    decreases pieces.len(),
{
    if pieces.len() > 0 {
        let t = pieces.drop_last();
        assert forall|i: int| 0 <= i < t.len() implies sound_sources(
            (#[trigger] t[i]).sources,
            nodes,
        ) by {
            assert(t[i] == pieces[i]);
        }
        lemma_merging_has_sources(t, max, counter, nodes);
        let m = merged_pieces(t, max, counter)->Ok_0;
        let r = merged_pieces(pieces, max, counter)->Ok_0;
        let x = pieces.last();
        assert(sound_sources(pieces[pieces.len() - 1].sources, nodes));
        if r != m.push(x) {
            assert(sound_sources(m[m.len() - 1].sources, nodes));
            lemma_sources_join(m.last().sources, x.sources, nodes);
            assert forall|i: int| 0 <= i < r.len() implies sound_sources(
                (#[trigger] r[i]).sources,
                nodes,
            ) by {
                if i < r.len() - 1 {
                    assert(r[i] == m[i]);
                }
            }
        }
    }
}

proof fn lemma_ending_has_sources(c: CutView, nodes: Seq<NodeView>)
    requires
        sound_cut(c, nodes),
    ensures
        sound_cut(pending_ended(c), nodes),
{
}

proof fn lemma_sentences_have_sources<C: TokenCounter>(
    c: CutView,
    sentences: Seq<Seq<char>>,
    sources: Seq<int>,
    max: nat,
    counter: C,
    nodes: Seq<NodeView>,
)
    requires
        sound_cut(c, nodes),
        sound_sources(sources, nodes),
        after_sentences(c, sentences, sources, max, counter) is Ok,
    ensures
        sound_cut(after_sentences(c, sentences, sources, max, counter)->Ok_0, nodes),
    decreases sentences.len(),
{
    if sentences.len() > 0 {
        lemma_sentences_have_sources(c, sentences.drop_last(), sources, max, counter, nodes);
        let earlier = after_sentences(c, sentences.drop_last(), sources, max, counter)->Ok_0;
        lemma_ending_has_sources(earlier, nodes);
        if earlier.pending is Some {
            lemma_sources_join(earlier.pending->0.sources, sources, nodes);
        }
    }
}

proof fn lemma_pieces_have_sources<C: TokenCounter>(
    pieces: Seq<PieceView>,
    max: nat,
    counter: C,
    nodes: Seq<NodeView>,
)
    requires
        sound_pieces(pieces, nodes),
        after_pieces(pieces, max, counter) is Ok,
    ensures
        sound_cut(after_pieces(pieces, max, counter)->Ok_0, nodes),
    decreases pieces.len(),
{
    if pieces.len() > 0 {
        let t = pieces.drop_last();
        assert forall|i: int| 0 <= i < t.len() implies sound_sources(
            (#[trigger] t[i]).sources,
            nodes,
        ) by {
            assert(t[i] == pieces[i]);
        }
        lemma_pieces_have_sources(t, max, counter, nodes);
        let c = after_pieces(t, max, counter)->Ok_0;
        let x = pieces.last();
        assert(sound_sources(pieces[pieces.len() - 1].sources, nodes));
        if x.node_type != ParseNodeType::Text {
            lemma_ending_has_sources(c, nodes);
        } else {
            lemma_sentences_have_sources(
                c,
                fitting_sentences(sentences_or_text(x.content), max, counter)->Ok_0,
                x.sources,
                max,
                counter,
                nodes,
            );
        }
    }
}

proof fn lemma_counting_has_sources<C: TokenCounter>(
    pieces: Seq<PieceView>,
    topology: ParseTopology,
    counter: C,
    nodes: Seq<NodeView>,
)
    requires
        sound_pieces(pieces, nodes),
        counted(pieces, topology, counter) is Ok,
    ensures
        forall|k: int|
            0 <= k < counted(pieces, topology, counter)->Ok_0.len() ==> sound_sources(
                (#[trigger] counted(pieces, topology, counter)->Ok_0[k]).sources,
                nodes,
            ),
    decreases pieces.len(),
{
    if pieces.len() > 0 {
        let t = pieces.drop_last();
        assert forall|i: int| 0 <= i < t.len() implies sound_sources(
            (#[trigger] t[i]).sources,
            nodes,
        ) by {
            assert(t[i] == pieces[i]);
        }
        lemma_counting_has_sources(t, topology, counter, nodes);
        let earlier = counted(t, topology, counter)->Ok_0;
        let all = counted(pieces, topology, counter)->Ok_0;
        assert(sound_sources(pieces[pieces.len() - 1].sources, nodes));
        assert forall|k: int| 0 <= k < all.len() implies sound_sources(
            (#[trigger] all[k]).sources,
            nodes,
        ) by {
            if k < earlier.len() {
                assert(all[k] == earlier[k]);
            }
        }
    }
}

/// Every chunk names the nodes that it comes from, at least one, each once, and
/// none that is blank.
pub proof fn chunks_name_their_sources<C: TokenCounter>(
    nodes: Seq<NodeView>,
    topology: ParseTopology,
    max_tokens: nat,
    counter: C,
    k: int,
)
    requires
        chunks_of(nodes, topology, max_tokens, counter) is Ok,
        0 <= k < chunks_of(nodes, topology, max_tokens, counter)->Ok_0.len(),
    ensures
        sound_sources(chunks_of(nodes, topology, max_tokens, counter)->Ok_0[k].sources, nodes),
{
    let max = budget(max_tokens);
    lemma_start_has_sources(nodes, nodes.len() as int);
    assert(nodes.take(nodes.len() as int) =~= nodes);
    let pieces = starting_pieces(nodes);
    lemma_merging_has_sources(pieces, max, counter, nodes);
    let merged = merged_pieces(pieces, max, counter)->Ok_0;
    lemma_pieces_have_sources(merged, max, counter, nodes);
    let cut = after_pieces(merged, max, counter)->Ok_0;
    lemma_ending_has_sources(cut, nodes);
    lemma_counting_has_sources(pending_ended(cut).chunks, topology, counter, nodes);
}

proof fn lemma_solid_is_not_blank(s: Seq<char>)
    ensures
        text::is_blank(s) <==> solid(s).len() == 0,
{
    lemma_trimmed_keeps_solid(s);
    let t = text::trimmed(s);
    if t.len() > 0 {
        text::trimming_is_final(s);
        let front = t.take(1);
        assert(t =~= front + t.skip(1));
        lemma_solid_add(front, t.skip(1));
        assert(front.drop_last() =~= Seq::<char>::empty());
        assert(solid(Seq::<char>::empty()) =~= Seq::<char>::empty());
        assert(front.last() == t[0]);
        assert(solid(front) == solid(front.drop_last()).push(t[0]));
    }
}

/// Whether a piece with text proper comes from a node.
spec fn stems_from(p: PieceView, x: int) -> bool {
    solid(p.content).len() > 0 && p.sources.contains(x)
}

spec fn some_stems_from(pieces: Seq<PieceView>, x: int) -> bool {
    exists|i: int| 0 <= i < pieces.len() && stems_from(#[trigger] pieces[i], x)
}

spec fn cut_stems_from(c: CutView, x: int) -> bool {
    some_stems_from(c.chunks, x) || (c.pending is Some && stems_from(c.pending->0, x))
}

proof fn lemma_stems_push(pieces: Seq<PieceView>, p: PieceView, x: int)
    ensures
        some_stems_from(pieces.push(p), x) <==> some_stems_from(pieces, x) || stems_from(p, x),
{
    let all = pieces.push(p);
    if some_stems_from(pieces, x) {
        let i = choose|i: int| 0 <= i < pieces.len() && stems_from(#[trigger] pieces[i], x);
        assert(stems_from(all[i], x));
    }
    if stems_from(p, x) {
        assert(stems_from(all[pieces.len() as int], x));
    }
    if some_stems_from(all, x) {
        let i = choose|i: int| 0 <= i < all.len() && stems_from(#[trigger] all[i], x);
        if i < pieces.len() {
            assert(stems_from(pieces[i], x));
        }
    }
}

proof fn lemma_start_stems(nodes: Seq<NodeView>, i: int)
    requires
        0 <= i < nodes.len(),
        !text::is_blank(nodes[i].content),
    ensures
        some_stems_from(starting_pieces(nodes), nodes[i].index),
    decreases nodes.len(),
{
    let x = nodes[i].index;
    let t = nodes.drop_last();
    let n = nodes.last();
    if !text::is_blank(n.content) {
        let p = starting_pieces(nodes).last();
        assert(starting_pieces(nodes) =~= starting_pieces(t).push(p));
        lemma_stems_push(starting_pieces(t), p, x);
        if i == nodes.len() - 1 {
            lemma_trimmed_keeps_solid(n.content);
            lemma_solid_is_not_blank(n.content);
            assert(p.sources[0] == x);
        }
    }
    if i < nodes.len() - 1 {
        assert(t[i] == nodes[i]);
        lemma_start_stems(t, i);
    }
}

proof fn lemma_with_sources_keeps(sources: Seq<int>, more: Seq<int>, x: int)
    ensures
        with_sources(sources, more).contains(x) <==> sources.contains(x) || more.contains(x),
    decreases more.len(),
{
    if more.len() > 0 {
        let front = more.drop_last();
        lemma_with_sources_keeps(sources, front, x);
        let earlier = with_sources(sources, front);
        let all = with_sources(sources, more);
        assert(more[more.len() - 1] == more.last());
        if front.contains(x) {
            let j = choose|j: int| 0 <= j < front.len() && front[j] == x;
            assert(more[j] == x);
        }
        if more.contains(x) && x != more.last() {
            let j = choose|j: int| 0 <= j < more.len() && more[j] == x;
            assert(front[j] == x);
        }
        if !earlier.contains(more.last()) {
            assert(all[earlier.len() as int] == more.last());
            if earlier.contains(x) {
                let j = choose|j: int| 0 <= j < earlier.len() && earlier[j] == x;
                assert(all[j] == x);
            }
            if all.contains(x) && x != more.last() {
                let j = choose|j: int| 0 <= j < all.len() && all[j] == x;
                assert(earlier[j] == x);
            }
        }
    }
}

proof fn lemma_merging_stems<C: TokenCounter>(
    pieces: Seq<PieceView>,
    max: nat,
    counter: C,
    x: int,
)
    requires
        merged_pieces(pieces, max, counter) is Ok,
        some_stems_from(pieces, x),
    ensures
        some_stems_from(merged_pieces(pieces, max, counter)->Ok_0, x),
    decreases pieces.len(),
{
    let t = pieces.drop_last();
    let p = pieces.last();
    assert(pieces =~= t.push(p));
    lemma_stems_push(t, p, x);
    if some_stems_from(t, x) {
        lemma_merging_stems(t, max, counter, x);
    }
    let m = merged_pieces(t, max, counter)->Ok_0;
    let r = merged_pieces(pieces, max, counter)->Ok_0;
    if r == m.push(p) {
        lemma_stems_push(m, p, x);
    } else {
        let front = m.drop_last();
        let both = r.last();
        assert(m =~= front.push(m.last()));
        assert(r =~= front.push(both));
        lemma_stems_push(front, m.last(), x);
        lemma_stems_push(front, both, x);
        lemma_spaced_keeps_solid(m.last().content, p);
        lemma_with_sources_keeps(m.last().sources, p.sources, x);
    }
}

proof fn lemma_ending_stems(c: CutView, x: int)
    requires
        cut_stems_from(c, x),
    ensures
        some_stems_from(pending_ended(c).chunks, x),
{
    if c.pending is Some {
        let p = c.pending->0;
        let done = PieceView { content: text::trimmed(p.content), ..p };
        lemma_trimmed_keeps_solid(p.content);
        lemma_solid_is_not_blank(p.content);
        lemma_stems_push(c.chunks, done, x);
    }
}

proof fn lemma_sentences_stem<C: TokenCounter>(
    c: CutView,
    sentences: Seq<Seq<char>>,
    sources: Seq<int>,
    max: nat,
    counter: C,
    x: int,
)
    requires
        after_sentences(c, sentences, sources, max, counter) is Ok,
        cut_stems_from(c, x) || (solid_all(sentences).len() > 0 && sources.contains(x)),
    ensures
        cut_stems_from(after_sentences(c, sentences, sources, max, counter)->Ok_0, x),
    decreases sentences.len(),
{
    if sentences.len() > 0 {
        let t = sentences.drop_last();
        let sentence = sentences.last();
        let earlier = after_sentences(c, t, sources, max, counter)->Ok_0;
        if cut_stems_from(c, x) || solid_all(t).len() > 0 {
            lemma_sentences_stem(c, t, sources, max, counter, x);
            lemma_ending_stems(earlier, x);
        } else {
            assert(solid_all(sentences) == solid_all(t) + solid(sentence));
            assert(solid(sentence).len() > 0);
        }
        if earlier.pending is Some {
            let p = earlier.pending->0;
            lemma_segments_keep_solid(p.content, sentence);
            lemma_with_sources_keeps(p.sources, sources, x);
        }
    }
}

proof fn lemma_pieces_stem<C: TokenCounter>(pieces: Seq<PieceView>, max: nat, counter: C, x: int)
    requires
        after_pieces(pieces, max, counter) is Ok,
        some_stems_from(pieces, x),
    ensures
        cut_stems_from(after_pieces(pieces, max, counter)->Ok_0, x),
    decreases pieces.len(),
{
    let t = pieces.drop_last();
    let p = pieces.last();
    assert(pieces =~= t.push(p));
    lemma_stems_push(t, p, x);
    if some_stems_from(t, x) {
        lemma_pieces_stem(t, max, counter, x);
    }
    let c = after_pieces(t, max, counter)->Ok_0;
    if p.node_type != ParseNodeType::Text {
        if cut_stems_from(c, x) {
            lemma_ending_stems(c, x);
        }
        lemma_stems_push(pending_ended(c).chunks, p, x);
    } else {
        lemma_sentences_of_keep_solid(p.content);
        lemma_fitting_keeps_solid(sentences_or_text(p.content), max, counter);
        lemma_sentences_stem(
            c,
            fitting_sentences(sentences_or_text(p.content), max, counter)->Ok_0,
            p.sources,
            max,
            counter,
            x,
        );
    }
}

proof fn lemma_counting_stems<C: TokenCounter>(
    pieces: Seq<PieceView>,
    topology: ParseTopology,
    counter: C,
    x: int,
) -> (k: int)
    requires
        counted(pieces, topology, counter) is Ok,
        some_stems_from(pieces, x),
    ensures
        0 <= k < counted(pieces, topology, counter)->Ok_0.len(),
        counted(pieces, topology, counter)->Ok_0[k].sources.contains(x),
    decreases pieces.len(),
{
    let t = pieces.drop_last();
    let p = pieces.last();
    assert(pieces =~= t.push(p));
    lemma_stems_push(t, p, x);
    let earlier = counted(t, topology, counter)->Ok_0;
    let all = counted(pieces, topology, counter)->Ok_0;
    if stems_from(p, x) {
        lemma_solid_is_not_blank(p.content);
        assert(all == earlier.push(all.last()));
        all.len() - 1
    } else {
        let k = lemma_counting_stems(t, topology, counter, x);
        assert(all[k] == earlier[k]);
        k
    }
}

/// Every node that is not blank is a source of some chunk.
pub proof fn every_node_is_in_a_chunk<C: TokenCounter>(
    nodes: Seq<NodeView>,
    topology: ParseTopology,
    max_tokens: nat,
    counter: C,
    i: int,
)
    requires
        chunks_of(nodes, topology, max_tokens, counter) is Ok,
        0 <= i < nodes.len(),
        !text::is_blank(nodes[i].content),
    ensures
        exists|k: int|
            0 <= k < chunks_of(nodes, topology, max_tokens, counter)->Ok_0.len() && (
            #[trigger] chunks_of(nodes, topology, max_tokens, counter)->Ok_0[k]).sources.contains(
                nodes[i].index,
            ),
{
    let max = budget(max_tokens);
    let x = nodes[i].index;
    lemma_start_stems(nodes, i);
    let pieces = starting_pieces(nodes);
    lemma_merging_stems(pieces, max, counter, x);
    let merged = merged_pieces(pieces, max, counter)->Ok_0;
    lemma_pieces_stem(merged, max, counter, x);
    let cut = after_pieces(merged, max, counter)->Ok_0;
    lemma_ending_stems(cut, x);
    let k = lemma_counting_stems(pending_ended(cut).chunks, topology, counter, x);
    assert(chunks_of(nodes, topology, max_tokens, counter)->Ok_0[k].sources.contains(x));
}

/// Whether a counter counts no more tokens in a text without the space around
/// it.
pub open spec fn counts_fairly<C: TokenCounter>(counter: C) -> bool {
    forall|s: Seq<char>|
        (#[trigger] counter.tokens(s)) is Ok ==> counter.tokens(text::trimmed(s)) is Ok
            && counter.tokens(text::trimmed(s))->Ok_0 <= counter.tokens(s)->Ok_0
}

spec fn fits<C: TokenCounter>(s: Seq<char>, max: nat, counter: C) -> bool {
    s.len() <= 1 || (counter.tokens(s) is Ok && counter.tokens(s)->Ok_0 <= max)
}

proof fn lemma_trimmed_fits<C: TokenCounter>(s: Seq<char>, max: nat, counter: C)
    requires
        counts_fairly(counter),
        fits(s, max, counter),
    ensures
        fits(text::trimmed(s), max, counter),
{
    let lo = text::lemma_trim_start_bounds(s);
    let hi = text::lemma_trim_end_bounds(text::trim_start(s));
    assert(text::trimmed(s).len() <= s.len());
}

proof fn lemma_prefix_fits<C: TokenCounter>(s: Seq<char>, max: nat, counter: C)
    requires
        counts_fairly(counter),
        max >= 1,
        !text::is_blank(s),
        fitting_prefix(s, max, counter) is Ok,
    ensures
        fits(fitting_prefix(s, max, counter)->Ok_0, max, counter),
{
    let hi = text::lemma_trim_start_bounds(s);
    if s.len() == 0 {
        assert(text::trim_start(s) =~= s);
        assert(text::trimmed(s) =~= s);
    }
    if counter.tokens(s)->Ok_0 <= max {
        lemma_trimmed_fits(s, max, counter);
    } else {
        let k = fitting_len(s, 0, s.len(), max, counter)->Ok_0;
        lemma_fitting_len_bounds(s, 0, s.len(), max, counter);
        let part = s.take(k as int);
        if text::trimmed(part).len() > 0 {
            if k == 0 {
                assert(part =~= Seq::<char>::empty());
                assert(text::trim_start(part) =~= part);
                assert(text::trimmed(part) =~= part);
            }
            lemma_trimmed_fits(part, max, counter);
        } else {
            assert(s.take(1).len() == 1);
        }
    }
}

proof fn lemma_cuts_fit<C: TokenCounter>(s: Seq<char>, max: nat, counter: C)
    requires
        counts_fairly(counter),
        max >= 1,
        cut_to_fit(s, max, counter) is Ok,
    ensures
        forall|i: int|
            0 <= i < cut_to_fit(s, max, counter)->Ok_0.len() ==> fits(
                #[trigger] cut_to_fit(s, max, counter)->Ok_0[i],
                max,
                counter,
            ),
    decreases s.len(),
{
    if !text::is_blank(s) {
        let prefix = fitting_prefix(s, max, counter)->Ok_0;
        if 0 < prefix.len() <= s.len() {
            lemma_prefix_fits(s, max, counter);
            let behind = s.skip(prefix.len() as int);
            lemma_trim_start_len(behind);
            let rest = text::trim_start(behind);
            lemma_cuts_fit(rest, max, counter);
            let tail = cut_to_fit(rest, max, counter)->Ok_0;
            let all = cut_to_fit(s, max, counter)->Ok_0;
            assert forall|i: int| 0 <= i < all.len() implies fits(
                #[trigger] all[i],
                max,
                counter,
            ) by {
                if i > 0 {
                    assert(all[i] == tail[i - 1]);
                }
            }
        }
    }
}

proof fn lemma_sentences_fit<C: TokenCounter>(sentences: Seq<Seq<char>>, max: nat, counter: C)
    requires
        counts_fairly(counter),
        max >= 1,
        fitting_sentences(sentences, max, counter) is Ok,
    ensures
        forall|i: int|
            0 <= i < fitting_sentences(sentences, max, counter)->Ok_0.len() ==> fits(
                #[trigger] fitting_sentences(sentences, max, counter)->Ok_0[i],
                max,
                counter,
            ),
    decreases sentences.len(),
{
    if sentences.len() > 0 {
        lemma_sentences_fit(sentences.drop_last(), max, counter);
        let earlier = fitting_sentences(sentences.drop_last(), max, counter)->Ok_0;
        let all = fitting_sentences(sentences, max, counter)->Ok_0;
        let x = sentences.last();
        if counter.tokens(x)->Ok_0 > max {
            lemma_cuts_fit(x, max, counter);
        }
        assert forall|i: int| 0 <= i < all.len() implies fits(#[trigger] all[i], max, counter) by {
            if i < earlier.len() {
                assert(all[i] == earlier[i]);
            } else if counter.tokens(x)->Ok_0 > max {
                let cut = cut_to_fit(x, max, counter)->Ok_0;
                assert(all[i] == cut[i - earlier.len()]);
            }
        }
    }
}

spec fn cut_fits<C: TokenCounter>(c: CutView, max: nat, counter: C) -> bool {
    &&& forall|i: int|
        0 <= i < c.chunks.len() && (#[trigger] c.chunks[i]).node_type == ParseNodeType::Text
            ==> fits(c.chunks[i].content, max, counter)
    &&& c.pending is Some ==> fits(c.pending->0.content, max, counter)
}

proof fn lemma_ended_fits<C: TokenCounter>(c: CutView, max: nat, counter: C)
    requires
        counts_fairly(counter),
        cut_fits(c, max, counter),
    ensures
        cut_fits(pending_ended(c), max, counter),
{
    if c.pending is Some {
        lemma_trimmed_fits(c.pending->0.content, max, counter);
    }
}

proof fn lemma_after_sentences_fits<C: TokenCounter>(
    c: CutView,
    sentences: Seq<Seq<char>>,
    sources: Seq<int>,
    max: nat,
    counter: C,
)
    requires
        counts_fairly(counter),
        cut_fits(c, max, counter),
        forall|i: int|
            0 <= i < sentences.len() ==> fits(#[trigger] sentences[i], max, counter),
        after_sentences(c, sentences, sources, max, counter) is Ok,
    ensures
        cut_fits(after_sentences(c, sentences, sources, max, counter)->Ok_0, max, counter),
    decreases sentences.len(),
{
    if sentences.len() > 0 {
        let t = sentences.drop_last();
        assert forall|i: int| 0 <= i < t.len() implies fits(#[trigger] t[i], max, counter) by {
            assert(t[i] == sentences[i]);
        }
        lemma_after_sentences_fits(c, t, sources, max, counter);
        let earlier = after_sentences(c, t, sources, max, counter)->Ok_0;
        lemma_ended_fits(earlier, max, counter);
        assert(fits(sentences[sentences.len() - 1], max, counter));
    }
}

proof fn lemma_after_pieces_fits<C: TokenCounter>(pieces: Seq<PieceView>, max: nat, counter: C)
    requires
        counts_fairly(counter),
        max >= 1,
        after_pieces(pieces, max, counter) is Ok,
    ensures
        cut_fits(after_pieces(pieces, max, counter)->Ok_0, max, counter),
    decreases pieces.len(),
{
    if pieces.len() > 0 {
        lemma_after_pieces_fits(pieces.drop_last(), max, counter);
        let c = after_pieces(pieces.drop_last(), max, counter)->Ok_0;
        let x = pieces.last();
        if x.node_type != ParseNodeType::Text {
            lemma_ended_fits(c, max, counter);
        } else {
            lemma_sentences_fit(sentences_or_text(x.content), max, counter);
            lemma_after_sentences_fits(
                c,
                fitting_sentences(sentences_or_text(x.content), max, counter)->Ok_0,
                x.sources,
                max,
                counter,
            );
        }
    }
}

/// Whether a chunk fits the budget, or is a single character, which cannot be cut.
pub open spec fn part_fits(p: PartView, max: nat) -> bool {
    p.token_count <= max || p.content.len() == 1
}

proof fn lemma_counted_fits<C: TokenCounter>(
    pieces: Seq<PieceView>,
    topology: ParseTopology,
    max: nat,
    counter: C,
)
    requires
        counts_fairly(counter),
        forall|i: int|
            0 <= i < pieces.len() && (#[trigger] pieces[i]).node_type == ParseNodeType::Text
                ==> fits(pieces[i].content, max, counter),
        counted(pieces, topology, counter) is Ok,
    ensures
        forall|i: int|
            0 <= i < counted(pieces, topology, counter)->Ok_0.len() && (#[trigger] counted(
                pieces,
                topology,
                counter,
            )->Ok_0[i]).chunk_type == ParseNodeType::Text ==> part_fits(
                counted(pieces, topology, counter)->Ok_0[i],
                max,
            ),
    decreases pieces.len(),
{
    if pieces.len() > 0 {
        let t = pieces.drop_last();
        assert forall|i: int|
            0 <= i < t.len() && (#[trigger] t[i]).node_type
                == ParseNodeType::Text implies fits(t[i].content, max, counter) by {
            assert(t[i] == pieces[i]);
        }
        lemma_counted_fits(t, topology, max, counter);
        let x = pieces.last();
        assert(x == pieces[pieces.len() - 1]);
        if x.node_type == ParseNodeType::Text {
            lemma_trimmed_fits(x.content, max, counter);
        }
        let earlier = counted(t, topology, counter)->Ok_0;
        let all = counted(pieces, topology, counter)->Ok_0;
        assert forall|i: int|
            0 <= i < all.len() && (#[trigger] all[i]).chunk_type
                == ParseNodeType::Text implies part_fits(all[i], max) by {
            if i < earlier.len() {
                assert(all[i] == earlier[i]);
            }
        }
    }
}

/// No chunk of text exceeds the budget unless it is a single character, with any
/// counter that counts fairly.
pub proof fn text_chunks_fit_the_budget<C: TokenCounter>(
    nodes: Seq<NodeView>,
    topology: ParseTopology,
    max_tokens: nat,
    counter: C,
    i: int,
)
    requires
        counts_fairly(counter),
        chunks_of(nodes, topology, max_tokens, counter) is Ok,
        0 <= i < chunks_of(nodes, topology, max_tokens, counter)->Ok_0.len(),
        chunks_of(nodes, topology, max_tokens, counter)->Ok_0[i].chunk_type
            == ParseNodeType::Text,
    ensures
        part_fits(
            chunks_of(nodes, topology, max_tokens, counter)->Ok_0[i],
            budget(max_tokens),
        ),
{
    let max = budget(max_tokens);
    let merged = merged_pieces(starting_pieces(nodes), max, counter)->Ok_0;
    lemma_after_pieces_fits(merged, max, counter);
    let cut = after_pieces(merged, max, counter)->Ok_0;
    lemma_ended_fits(cut, max, counter);
    lemma_counted_fits(pending_ended(cut).chunks, topology, max, counter);
}

proof fn lemma_part_counts(s: Seq<char>, a: int, b: int)
    requires
        0 <= a <= b <= s.len(),
    ensures
        ascii_count(s.subrange(a, b)) <= ascii_count(s),
        b - a - ascii_count(s.subrange(a, b)) <= s.len() - ascii_count(s),
    decreases s.len(),
{
    let p = s.subrange(a, b);
    lemma_ascii_count(s);
    lemma_ascii_count(p);
    if a == b {
        assert(p =~= Seq::<char>::empty());
    } else if b < s.len() {
        lemma_part_counts(s.drop_last(), a, b);
        assert(s.drop_last().subrange(a, b) =~= p);
    } else {
        lemma_part_counts(s.drop_last(), a, b - 1);
        assert(s.drop_last().subrange(a, b - 1) =~= p.drop_last());
        assert(p.last() == s.last());
    }
}

/// The rough counter counts fairly, and at most one token in a single character.
pub proof fn rough_counts_are_fair(counter: RoughTokenCounter)
    ensures
        counts_fairly(counter),
        forall|s: Seq<char>|
            s.len() == 1 ==> (#[trigger] counter.tokens(s)) is Ok && counter.tokens(s)->Ok_0 <= 1,
{
    assert forall|s: Seq<char>| (#[trigger] counter.tokens(s)) is Ok implies counter.tokens(
        text::trimmed(s),
    ) is Ok && counter.tokens(text::trimmed(s))->Ok_0 <= counter.tokens(s)->Ok_0 by {
        let lo = text::lemma_trim_start_bounds(s);
        let front = text::trim_start(s);
        let hi = text::lemma_trim_end_bounds(front);
        assert(text::trimmed(s) =~= s.subrange(lo, lo + hi));
        lemma_part_counts(s, lo, lo + hi);
        lemma_ascii_count(s);
        lemma_ascii_count(text::trimmed(s));
    }
    assert forall|s: Seq<char>| s.len() == 1 implies (#[trigger] counter.tokens(s)) is Ok
        && counter.tokens(s)->Ok_0 <= 1 by {
        lemma_ascii_count(s);
        assert(s.drop_last() =~= Seq::<char>::empty());
        assert(ascii_count(s.drop_last()) == 0);
    }
}

} // verus!
