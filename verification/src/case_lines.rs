//! What single lines do to a document that is read.

use vstd::prelude::*;

use crate::case_model::ChunkView;
use crate::case_parser;
use crate::case_parser::{
    after_line, code_ended, document_format, filled_cells, is_table_rule, mime_format,
    paragraph_ended, path_format, row_text, stacked_lines, table_ended, text_nodes,
    under_headings, DocumentFormat, MarkdownView, NodeView, ParseNodeType,
};
use crate::case_overlap;
use crate::case_retrieval;
use crate::scan;
use crate::text;

verus! {

/// A document has the format of its media type where that names one, else that of
/// its path, else that of its file name.
pub proof fn formats_go_by_type_then_path_then_name(
    path: Seq<char>,
    mime_type: Option<Seq<char>>,
    file_name: Option<Seq<char>>,
)
    ensures
        ({
            let f = document_format(path, mime_type, file_name);
            let typed = mime_type is Some && mime_format(mime_type->0) is Some;
            let named = file_name is Some && path_format(file_name->0) is Some;
            &&& typed ==> f == mime_format(mime_type->0)->0
            &&& !typed && path_format(path) is Some ==> f == path_format(path)->0
            &&& !typed && path_format(path) is None && named ==> f == path_format(file_name->0)->0
            &&& !typed && path_format(path) is None && !named ==> f == DocumentFormat::Unknown
        }),
{
}

/// The media types of Markdown and of plain text name their formats, whatever
/// their case and their parameters; others name none. So do the extensions.
pub proof fn types_and_extensions_name_formats(mime_type: Seq<char>, path: Seq<char>)
    ensures
        ({
            let t = text::ascii_lower_text(text::trimmed(text::split_on(mime_type, ';')[0]));
            let e = text::ascii_lower_text(scan::extension_of(path)->0);
            let has = scan::extension_of(path) is Some;
            let markdown = t == "text/markdown"@ || t == "text/x-markdown"@ || t
                == "application/x-markdown"@;
            let md = has && (e == "md"@ || e == "markdown"@ || e == "mdx"@);
            let txt = has && (e == "txt"@ || e == "text"@ || e == "log"@);
            &&& markdown ==> mime_format(mime_type) == Some(DocumentFormat::Markdown)
            &&& !markdown && t == "text/plain"@ ==> mime_format(mime_type) == Some(
                DocumentFormat::Text,
            )
            &&& !markdown && t != "text/plain"@ ==> mime_format(mime_type) is None
            &&& md ==> path_format(path) == Some(DocumentFormat::Markdown)
            &&& !md && txt ==> path_format(path) == Some(DocumentFormat::Text)
            &&& !md && !txt ==> path_format(path) is None
        }),
{
}

/// Whether a node is put behind the nodes of a document, under the headings that
/// are open.
pub open spec fn adds_node(
    before: Seq<NodeView>,
    after: Seq<NodeView>,
    headings: Seq<(nat, Seq<char>)>,
    node_type: ParseNodeType,
    content: Seq<char>,
) -> bool {
    let n = after.last();
    &&& after.len() == before.len() + 1
    &&& after.drop_last() == before
    &&& n.index == before.len()
    &&& n.node_type == node_type
    &&& n.content == under_headings(headings, content)
    &&& headings.len() == 0 ==> n.level == 0 && n.title is None
    &&& headings.len() > 0 ==> n.level == headings.last().0 && n.title == Some(headings.last().1)
}

/// A paragraph ends as one node that holds its lines, one below the other, unless
/// they are blank; nothing else changes.
pub proof fn paragraphs_end_as_one_node(m: MarkdownView)
    ensures
        ({
            let after = paragraph_ended(m);
            let content = text::trimmed(text::joined(m.paragraph, "\n"@));
            &&& after.paragraph.len() == 0
            &&& after.headings == m.headings && after.table == m.table && after.code == m.code
            &&& after.in_code == m.in_code
            &&& m.paragraph.len() == 0 || content.len() == 0 ==> after.nodes == m.nodes
            &&& m.paragraph.len() > 0 && content.len() > 0 ==> adds_node(
                m.nodes,
                after.nodes,
                m.headings,
                ParseNodeType::Text,
                content,
            )
        }),
{
    let after = paragraph_ended(m);
    if after.nodes.len() > m.nodes.len() {
        assert(after.nodes.drop_last() =~= m.nodes);
    }
}

/// A block of code ends as one node that holds its lines as they are, one below
/// the other, unless they are blank; nothing else changes.
pub proof fn code_ends_as_one_node(m: MarkdownView)
    ensures
        ({
            let after = code_ended(m);
            let content = text::trimmed(text::joined(m.code, "\n"@));
            &&& after.code.len() == 0
            &&& after.headings == m.headings && after.table == m.table && after.paragraph
                == m.paragraph
            &&& m.code.len() == 0 || content.len() == 0 ==> after.nodes == m.nodes
            &&& m.code.len() > 0 && content.len() > 0 ==> adds_node(
                m.nodes,
                after.nodes,
                m.headings,
                ParseNodeType::Code,
                content,
            )
        }),
{
    let after = code_ended(m);
    if after.nodes.len() > m.nodes.len() {
        assert(after.nodes.drop_last() =~= m.nodes);
    }
}

/// A table ends as one node for each row that says something and is no rule, in
/// their order.
pub proof fn tables_end_row_by_row(m: MarkdownView, row: Seq<char>)
    ensures
        ({
            let before = case_parser::with_rows(m, m.table);
            let after = case_parser::with_rows(m, m.table.push(row));
            let silent = is_table_rule(row) || row_text(row).len() == 0;
            &&& silent ==> after == before
            &&& !silent ==> adds_node(
                before.nodes,
                after.nodes,
                before.headings,
                ParseNodeType::Table,
                row_text(row),
            )
            &&& table_ended(m).table.len() == 0
            &&& table_ended(m).paragraph == m.paragraph && table_ended(m).code == m.code
        }),
{
    assert(m.table.push(row).drop_last() =~= m.table);
    let before = case_parser::with_rows(m, m.table);
    let after = case_parser::with_rows(m, m.table.push(row));
    if after.nodes.len() > before.nodes.len() {
        assert(after.nodes.drop_last() =~= before.nodes);
    }
    lemma_rows_leave_lines(MarkdownView { table: Seq::empty(), ..m }, m.table);
}

proof fn lemma_rows_leave_lines(m: MarkdownView, rows: Seq<Seq<char>>)
    ensures
        case_parser::with_rows(m, rows).paragraph == m.paragraph,
        case_parser::with_rows(m, rows).code == m.code,
        case_parser::with_rows(m, rows).table == m.table,
        case_parser::with_rows(m, rows).in_code == m.in_code,
        case_parser::with_rows(m, rows).headings == m.headings,
    decreases rows.len(),
{
    if rows.len() > 0 {
        lemma_rows_leave_lines(m, rows.drop_last());
    }
}

/// Whether a trimmed line starts with a fence.
pub open spec fn has_fence(t: Seq<char>) -> bool {
    t.len() >= 3 && (t.take(3) == "```"@ || t.take(3) == "~~~"@)
}

/// Outside of code, a blank line ends the paragraph and the table, a row between
/// two bars ends the paragraph and joins the table, and any other line that is no
/// heading ends the table and joins the paragraph. In code, every line is kept as
/// it is. A fence opens or closes the code.
pub proof fn lines_join_their_block(m: MarkdownView, line: Seq<char>)
    ensures
        ({
            let t = text::trimmed(line);
            let after = after_line(m, line);
            let plain = !m.in_code && !has_fence(t);
            let bars = t.len() >= 2 && t[0] == '|' && t.last() == '|';
            let words = t.len() > 0 && t[0] != '#';
            &&& has_fence(t) ==> after.in_code == !m.in_code
            &&& has_fence(t) && m.in_code ==> after.nodes == code_ended(m).nodes
                && after.code.len() == 0
            &&& has_fence(t) && !m.in_code ==> after.nodes == table_ended(
                paragraph_ended(m),
            ).nodes && after.paragraph.len() == 0 && after.table.len() == 0
            &&& m.in_code && !has_fence(t) ==> after == (MarkdownView {
                code: m.code.push(line),
                ..m
            })
            &&& plain && t.len() == 0 ==> after.paragraph.len() == 0 && after.table.len() == 0
                && after.nodes == table_ended(paragraph_ended(m)).nodes && after.headings
                == m.headings
            &&& plain && bars && words ==> after.table == m.table.push(t)
                && after.paragraph.len() == 0 && after.nodes == paragraph_ended(m).nodes
            &&& plain && !bars && words ==> after.paragraph == m.paragraph.push(t)
                && after.table.len() == 0 && after.nodes == table_ended(m).nodes
            &&& plain ==> !after.in_code
        }),
{
    let t = text::trimmed(line);
    reveal_strlit("```");
    reveal_strlit("~~~");
    assert("```"@.len() == 3 && "~~~"@.len() == 3);
    if t.len() >= 3 {
        assert(t.take(3) =~= t.subrange(0, 3));
    }
    assert(case_parser::is_fence(t) == has_fence(t));
    if t.len() > 0 && t[0] != '#' {
        assert(case_parser::leading_hashes(t) == 0);
    }
    if t.len() == 0 {
        assert(case_parser::leading_hashes(t) == 0);
    }
    paragraphs_end_as_one_node(m);
    code_ends_as_one_node(m);
    lemma_rows_leave_lines(MarkdownView { table: Seq::empty(), ..m }, m.table);
    let p = paragraph_ended(m);
    lemma_rows_leave_lines(MarkdownView { table: Seq::empty(), ..p }, p.table);
}

/// A piece of content stands below the titles of its headings, from the highest to
/// the lowest.
pub proof fn content_stands_below_its_titles(
    headings: Seq<(nat, Seq<char>)>,
    content: Seq<char>,
)
    ensures
        headings.len() == 0 ==> under_headings(headings, content) == text::trimmed(content),
        headings.len() > 0 ==> under_headings(headings, content) == text::joined(
            headings.map_values(|h: (nat, Seq<char>)| h.1),
            " > "@,
        ) + "\n\n"@ + text::trimmed(content),
{
    assert(case_parser::titles(headings) =~= headings.map_values(|h: (nat, Seq<char>)| h.1));
}

proof fn lemma_cells(parts: Seq<Seq<char>>)
    ensures
        filled_cells(parts) == parts.filter(|t: Seq<char>| !text::is_blank(t)).map_values(
            |t: Seq<char>| text::trimmed(t),
        ),
    decreases parts.len(),
{
    reveal(Seq::filter);
    let at = |t: Seq<char>| text::trimmed(t);
    if parts.len() > 0 {
        let t = parts.drop_last();
        lemma_cells(t);
        let kept = t.filter(|t: Seq<char>| !text::is_blank(t));
        assert(kept.push(parts.last()).map_values(at) =~= kept.map_values(at).push(
            text::trimmed(parts.last()),
        ));
    } else {
        assert(parts.filter(|t: Seq<char>| !text::is_blank(t)).map_values(at) =~= Seq::empty());
    }
}

/// A row of a table is read as its cells that are not blank, trimmed, with bars
/// between them.
pub proof fn rows_are_read_cell_by_cell(line: Seq<char>)
    ensures
        row_text(line) == text::joined(
            text::split_on(scan::stripped(line, seq!['|']), '|').filter(
                |t: Seq<char>| !text::is_blank(t),
            ).map_values(|t: Seq<char>| text::trimmed(t)),
            " | "@,
        ),
{
    lemma_cells(text::split_on(scan::stripped(line, seq!['|']), '|'));
}

/// A plain text is one node, which holds its lines one below the other, each
/// without the space at its end; a blank text is none.
pub proof fn plain_texts_are_one_node(content: Seq<char>)
    ensures
        ({
            let lines = text::lines_of(content);
            let nodes = text_nodes(content);
            let body = text::trimmed(
                text::joined(lines.map_values(|l: Seq<char>| text::trim_end(l)), "\n"@),
            );
            let starts = lines.len() > 0 && text::trim_end(lines[0]).len() > 0;
            &&& nodes.len() <= 1
            &&& starts && body.len() > 0 ==> nodes.len() == 1
            &&& starts && nodes.len() == 1 ==> nodes[0].content == body
            &&& lines.len() == 0 ==> nodes.len() == 0
            &&& nodes.len() == 1 ==> nodes[0].node_type == ParseNodeType::Text && nodes[0].index
                == 0 && nodes[0].level == 0 && nodes[0].title is None
        }),
{
    let lines = text::lines_of(content);
    if lines.len() > 0 && text::trim_end(lines[0]).len() > 0 {
        lemma_stacked(lines);
    }
    if lines.len() == 0 {
        assert(stacked_lines(lines).len() == 0);
        text::trimming_is_final(stacked_lines(lines));
    }
}

proof fn lemma_stacked(lines: Seq<Seq<char>>)
    requires
        lines.len() > 0,
        text::trim_end(lines[0]).len() > 0,
    ensures
        stacked_lines(lines) == text::joined(
            lines.map_values(|l: Seq<char>| text::trim_end(l)),
            "\n"@,
        ),
        stacked_lines(lines).len() > 0,
    decreases lines.len(),
{
    reveal_strlit("\n");
    let at = |l: Seq<char>| text::trim_end(l);
    let all = lines.map_values(at);
    let t = lines.drop_last();
    if t.len() > 0 {
        lemma_stacked(t);
        assert(all.drop_last() =~= t.map_values(at));
        assert(all.last() == text::trim_end(lines.last()));
        let above = stacked_lines(t);
        assert(above.push('\n') + text::trim_end(lines.last()) =~= above + "\n"@ + text::trim_end(
            lines.last(),
        ));
    } else {
        assert(stacked_lines(t).len() == 0);
        assert(stacked_lines(t) + text::trim_end(lines.last()) =~= all[0]);
    }
}

/// A result stays where a query has no terms, where it has enough in common with
/// it, or where it is near the best, nothing is required, and it shares a term that
/// tells much by itself.
pub proof fn related_results_stay(query: Seq<char>, words: Seq<char>, near_best: bool)
    ensures
        ({
            let terms = case_overlap::terms_of(query);
            let required = case_overlap::required_terms(query);
            let related = case_retrieval::is_related(query, words, near_best);
            &&& terms.len() == 0 ==> related
            &&& case_overlap::overlaps(terms, required, words) ==> related
            &&& required.len() > 0 && terms.len() > 0 && related ==> case_overlap::overlaps(
                terms,
                required,
                words,
            )
            &&& !near_best && terms.len() > 0 && related ==> case_overlap::overlaps(
                terms,
                required,
                words,
            )
            &&& required.len() == 0 && near_best && case_overlap::shares_distinctive(terms, words)
                ==> related
        }),
{
}

/// A text overlaps a query if it shares as many of the required terms as are
/// demanded, where any are required; else if it matches as many of the terms as
/// are demanded, or one where there are few.
pub proof fn overlaps_are_counted(
    query: Seq<Seq<char>>,
    required: Seq<Seq<char>>,
    candidate: Seq<char>,
)
    ensures
        ({
            let terms = case_overlap::terms_of(candidate);
            let shared = required.filter(|t: Seq<char>| terms.contains(t)).len();
            let matched = case_overlap::matched_count(query, terms);
            let r = case_overlap::overlaps(query, required, candidate);
            &&& required.len() > 0 ==> (r <==> shared == required.len() || shared
                >= 2)
            &&& required.len() == 0 && query.len() <= 2
                ==> (r <==> matched > 0)
            &&& required.len() == 0 && query.len() > 2
                ==> (r <==> matched >= 2)
        }),
{
    let terms = case_overlap::terms_of(candidate);
    crate::case_reading::matches_are_counted(required, terms);
    lemma_filter_is_shorter(required, |t: Seq<char>| terms.contains(t));
}

proof fn lemma_filter_is_shorter(s: Seq<Seq<char>>, p: spec_fn(Seq<char>) -> bool)
    ensures
        s.filter(p).len() <= s.len(),
    decreases s.len(),
{
    reveal(Seq::filter);
    if s.len() > 0 {
        lemma_filter_is_shorter(s.drop_last(), p);
    }
}

/// The chunks that can be returned are those that are available, and the lines
/// that count are those that are not blank.
pub proof fn what_can_be_returned_is_counted(chunks: Seq<ChunkView>, lines: Seq<Seq<char>>)
    ensures
        case_retrieval::available_count(chunks) == chunks.filter(|c: ChunkView| c.available).len(),
        case_retrieval::filled_line_count(lines) == lines.filter(
            |t: Seq<char>| !text::is_blank(t),
        ).len(),
{
    lemma_available(chunks);
    lemma_filled(lines);
}

proof fn lemma_available(chunks: Seq<ChunkView>)
    ensures
        case_retrieval::available_count(chunks) == chunks.filter(|c: ChunkView| c.available).len(),
    decreases chunks.len(),
{
    reveal(Seq::filter);
    if chunks.len() > 0 {
        lemma_available(chunks.drop_last());
    }
}

proof fn lemma_filled(lines: Seq<Seq<char>>)
    ensures
        case_retrieval::filled_line_count(lines) == lines.filter(
            |t: Seq<char>| !text::is_blank(t),
        ).len(),
    decreases lines.len(),
{
    reveal(Seq::filter);
    if lines.len() > 0 {
        lemma_filled(lines.drop_last());
    }
}

/// A row is a rule of a table if there is something between its bars, and nothing
/// but hyphens, colons, bars and whitespace.
pub proof fn rules_are_made_of_hyphens(line: Seq<char>)
    ensures
        ({
            let inner = text::trimmed(scan::stripped(line, seq!['|']));
            is_table_rule(line) <==> inner.len() > 0 && forall|i: int|
                0 <= i < inner.len() ==> (seq!['-', ':', '|'].contains(#[trigger] inner[i])
                    || text::char_whitespace(inner[i]))
        }),
{
    let all = seq!['-', ':', '|'];
    assert(all[0] == '-' && all[1] == ':' && all[2] == '|');
    let inner = text::trimmed(scan::stripped(line, seq!['|']));
    assert forall|c: char| #[trigger] all.contains(c) implies c == '-' || c == ':' || c == '|' by {
        let i = choose|i: int| 0 <= i < all.len() && all[i] == c;
        assert(i == 0 || i == 1 || i == 2);
    }
    if is_table_rule(line) {
        assert forall|i: int| 0 <= i < inner.len() implies (all.contains(#[trigger] inner[i])
            || text::char_whitespace(inner[i])) by {
            assert(case_parser::rules(inner[i]));
        }
    }
}

/// The title of a document is its file name without the extension, trimmed.
pub proof fn titles_are_names_without_extension(stem: Seq<char>, ext: Seq<char>)
    requires
        stem.len() > 0,
        !ext.contains('.'),
        crate::case_course::is_plain_name(stem.push('.') + ext),
    ensures
        crate::case_summary::title_of(stem.push('.') + ext) == text::trimmed(stem),
{
    crate::case_course::extensions_stand_behind_the_last_dot(stem, ext);
}

} // verus!
