//! Reading documents: their formats, and the nodes that they are taken apart
//! into.

use vstd::prelude::*;
use vstd::string::*;

use crate::json;
use crate::scan;
use crate::scan::{path_extension, strip_chars};
use crate::text;
use crate::text::{
    join_texts, lemma_strings_push, lower_ascii, split_text, text_eq, text_lines, text_starts_with,
    to_chars, trim,
};

verus! {

/// What a document is written in.
#[derive(Clone, Copy, Debug, PartialEq, Eq, Structural)]
pub enum DocumentFormat {
    Markdown,
    Text,
    Unknown,
}

/// The format that a media type names. Parameters and letter case do not count.
pub open spec fn mime_format(mime_type: Seq<char>) -> Option<DocumentFormat> {
    let t = text::ascii_lower_text(text::trimmed(text::split_on(mime_type, ';')[0]));
    if t == "text/markdown"@ || t == "text/x-markdown"@ || t == "application/x-markdown"@ {
        Some(DocumentFormat::Markdown)
    } else if t == "text/plain"@ {
        Some(DocumentFormat::Text)
    } else {
        None
    }
}

/// The format that the extension of a path names.
pub open spec fn path_format(path: Seq<char>) -> Option<DocumentFormat> {
    match scan::extension_of(path) {
        Some(extension) => {
            let e = text::ascii_lower_text(extension);
            if e == "md"@ || e == "markdown"@ || e == "mdx"@ {
                Some(DocumentFormat::Markdown)
            } else if e == "txt"@ || e == "text"@ || e == "log"@ {
                Some(DocumentFormat::Text)
            } else {
                None
            }
        },
        None => None,
    }
}

/// The format of a document: by its media type, else by its path, else by its
/// file name.
pub open spec fn document_format(
    path: Seq<char>,
    mime_type: Option<Seq<char>>,
    file_name: Option<Seq<char>>,
) -> DocumentFormat {
    let by_mime = match mime_type {
        Some(t) => mime_format(t),
        None => None,
    };
    let by_name = match file_name {
        Some(n) => path_format(n),
        None => None,
    };
    match by_mime {
        Some(f) => f,
        None => match path_format(path) {
            Some(f) => f,
            None => match by_name {
                Some(f) => f,
                None => DocumentFormat::Unknown,
            },
        },
    }
}

fn format_from_mime_type(mime_type: &str) -> (r: Option<DocumentFormat>)
    ensures
        r == mime_format(mime_type@),
{
    let parts = split_text(mime_type, ';');
    proof {
        text::lemma_split_on_len(mime_type@, ';');
        assert(text::strings(parts@)[0] == parts@[0]@);
    }
    let t = lower_ascii(trim(parts[0].as_str()));
    if text_eq(t.as_str(), "text/markdown") || text_eq(t.as_str(), "text/x-markdown") || text_eq(
        t.as_str(),
        "application/x-markdown",
    ) {
        Some(DocumentFormat::Markdown)
    } else if text_eq(t.as_str(), "text/plain") {
        Some(DocumentFormat::Text)
    } else {
        None
    }
}

fn format_from_path(path: &str) -> (r: Option<DocumentFormat>)
    ensures
        r == path_format(path@),
{
    match path_extension(path) {
        Some(extension) => {
            let e = lower_ascii(extension.as_str());
            if text_eq(e.as_str(), "md") || text_eq(e.as_str(), "markdown") || text_eq(
                e.as_str(),
                "mdx",
            ) {
                Some(DocumentFormat::Markdown)
            } else if text_eq(e.as_str(), "txt") || text_eq(e.as_str(), "text") || text_eq(
                e.as_str(),
                "log",
            ) {
                Some(DocumentFormat::Text)
            } else {
                None
            }
        },
        None => None,
    }
}

impl DocumentFormat {
    /// The format of a document: by its media type, else by its path, else by
    /// its file name.
    pub fn from_metadata(path: &str, mime_type: Option<&str>, file_name: Option<&str>) -> (r: Self)
        ensures
            r == document_format(path@, json::opt_text(mime_type), json::opt_text(file_name)),
    {
        match mime_type {
            Some(t) => match format_from_mime_type(t) {
                Some(format) => return format,
                None => {},
            },
            None => {},
        }
        match format_from_path(path) {
            Some(format) => return format,
            None => {},
        }
        match file_name {
            Some(n) => match format_from_path(n) {
                Some(format) => return format,
                None => {},
            },
            None => {},
        }
        DocumentFormat::Unknown
    }
}

/// How the nodes of a document hang together.
#[derive(Clone, Copy, Debug, PartialEq, Eq, Structural)]
pub enum ParseTopology {
    List,
}

impl ParseTopology {
    pub open spec fn name(self) -> Seq<char> {
        match self {
            ParseTopology::List => "list"@,
        }
    }

    pub fn as_str(self) -> (r: &'static str)
        ensures
            r@ == self.name(),
    {
        match self {
            ParseTopology::List => "list",
        }
    }
}

/// What a node of a document is.
#[derive(Clone, Copy, Debug, PartialEq, Eq, Structural)]
pub enum ParseNodeType {
    Text,
    Code,
    Table,
}

impl ParseNodeType {
    pub open spec fn name(self) -> Seq<char> {
        match self {
            ParseNodeType::Text => "text"@,
            ParseNodeType::Code => "code"@,
            ParseNodeType::Table => "table"@,
        }
    }

    pub fn as_str(self) -> (r: &'static str)
        ensures
            r@ == self.name(),
    {
        match self {
            ParseNodeType::Text => "text",
            ParseNodeType::Code => "code",
            ParseNodeType::Table => "table",
        }
    }
}

/// A piece of a document.
#[derive(Debug)]
pub struct ParseNode {
    pub index: usize,
    pub content: String,
    pub node_type: ParseNodeType,
    pub level: usize,
    pub title: Option<String>,
    pub parent_index: Option<usize>,
    pub is_need_space: bool,
    pub is_need_newline: bool,
}

/// What a [`ParseNode`] stands for.
pub struct NodeView {
    pub index: int,
    pub content: Seq<char>,
    pub node_type: ParseNodeType,
    pub level: int,
    pub title: Option<Seq<char>>,
    pub parent_index: Option<usize>,
    pub is_need_space: bool,
    pub is_need_newline: bool,
}

impl View for ParseNode {
    type V = NodeView;

    open spec fn view(&self) -> NodeView {
        NodeView {
            index: self.index as int,
            content: self.content@,
            node_type: self.node_type,
            level: self.level as int,
            title: json::opt_string(self.title),
            parent_index: self.parent_index,
            is_need_space: self.is_need_space,
            is_need_newline: self.is_need_newline,
        }
    }
}

pub open spec fn node_views(v: Seq<ParseNode>) -> Seq<NodeView> {
    Seq::new(v.len(), |i: int| v[i]@)
}

/// A document taken apart.
#[derive(Debug)]
pub struct ParseResult {
    pub format: DocumentFormat,
    pub topology: ParseTopology,
    pub nodes: Vec<ParseNode>,
}

/// How many hash signs a line starts with.
pub open spec fn leading_hashes(s: Seq<char>) -> nat
    decreases s.len(),
{
    if s.len() > 0 && s[0] == '#' {
        1 + leading_hashes(s.drop_first())
    } else {
        0
    }
}

/// The heading that a line is: up to six hash signs, space, and a title.
pub open spec fn heading_of(line: Seq<char>) -> Option<(nat, Seq<char>)> {
    let level = leading_hashes(line);
    if 1 <= level <= 6 && level < line.len() && text::char_whitespace(line[level as int])
        && !text::is_blank(line.skip(level as int)) {
        Some((level, text::trimmed(line.skip(level as int))))
    } else {
        None
    }
}

/// Whether a line opens or closes a block of code.
pub open spec fn is_fence(line: Seq<char>) -> bool {
    text::starts_with(line, "```"@) || text::starts_with(line, "~~~"@)
}

/// Whether a line is a row of a table: it stands between two bars.
pub open spec fn is_table_row(line: Seq<char>) -> bool {
    line.len() >= 2 && line[0] == '|' && line.last() == '|'
}

/// Whether a row only separates the head of a table from its body.
pub open spec fn is_table_rule(line: Seq<char>) -> bool {
    let content = text::trimmed(scan::stripped(line, seq!['|']));
    content.len() > 0 && forall|i: int|
        0 <= i < content.len() ==> rules(#[trigger] content[i])
}

/// Whether a character can stand in the rule of a table.
pub open spec fn rules(c: char) -> bool {
    c == '-' || c == ':' || c == '|' || text::char_whitespace(c)
}

/// The cells of a row that are not blank.
pub open spec fn filled_cells(parts: Seq<Seq<char>>) -> Seq<Seq<char>>
    decreases parts.len(),
{
    if parts.len() == 0 {
        Seq::empty()
    } else if text::is_blank(parts.last()) {
        filled_cells(parts.drop_last())
    } else {
        filled_cells(parts.drop_last()).push(text::trimmed(parts.last()))
    }
}

/// A row of a table as text.
pub open spec fn row_text(line: Seq<char>) -> Seq<char> {
    text::joined(
        filled_cells(text::split_on(scan::stripped(line, seq!['|']), '|')),
        " | "@,
    )
}

pub open spec fn titles(headings: Seq<(nat, Seq<char>)>) -> Seq<Seq<char>> {
    Seq::new(headings.len(), |i: int| headings[i].1)
}

/// A piece of content under its headings.
pub open spec fn under_headings(headings: Seq<(nat, Seq<char>)>, content: Seq<char>) -> Seq<char> {
    if headings.len() == 0 {
        text::trimmed(content)
    } else {
        text::joined(titles(headings), " > "@) + "\n\n"@ + text::trimmed(content)
    }
}

/// The headings that stay open under one of a level.
pub open spec fn open_headings(headings: Seq<(nat, Seq<char>)>, level: nat) -> Seq<
    (nat, Seq<char>),
>
    decreases headings.len(),
{
    if headings.len() == 0 {
        Seq::empty()
    } else if headings.last().0 < level {
        open_headings(headings.drop_last(), level).push(headings.last())
    } else {
        open_headings(headings.drop_last(), level)
    }
}

/// What is known of a Markdown document up to a line.
pub struct MarkdownView {
    pub headings: Seq<(nat, Seq<char>)>,
    pub paragraph: Seq<Seq<char>>,
    pub table: Seq<Seq<char>>,
    pub code: Seq<Seq<char>>,
    pub in_code: bool,
    pub nodes: Seq<NodeView>,
}

pub open spec fn new_markdown() -> MarkdownView {
    MarkdownView {
        headings: Seq::empty(),
        paragraph: Seq::empty(),
        table: Seq::empty(),
        code: Seq::empty(),
        in_code: false,
        nodes: Seq::empty(),
    }
}

/// The document with one more node.
pub open spec fn with_node(m: MarkdownView, node_type: ParseNodeType, content: Seq<char>) ->
    MarkdownView {
    MarkdownView {
        nodes: m.nodes.push(
            NodeView {
                index: m.nodes.len() as int,
                content: under_headings(m.headings, content),
                node_type,
                level: if m.headings.len() == 0 {
                    0
                } else {
                    m.headings.last().0 as int
                },
                title: if m.headings.len() == 0 {
                    None
                } else {
                    Some(m.headings.last().1)
                },
                parent_index: None,
                is_need_space: false,
                is_need_newline: true,
            },
        ),
        ..m
    }
}

/// The end of a paragraph.
pub open spec fn paragraph_ended(m: MarkdownView) -> MarkdownView {
    let content = text::trimmed(text::joined(m.paragraph, "\n"@));
    let closed = MarkdownView { paragraph: Seq::empty(), ..m };
    if m.paragraph.len() == 0 || content.len() == 0 {
        closed
    } else {
        with_node(closed, ParseNodeType::Text, content)
    }
}

/// The document with a node for each row of a table that says something.
pub open spec fn with_rows(m: MarkdownView, rows: Seq<Seq<char>>) -> MarkdownView
    decreases rows.len(),
{
    if rows.len() == 0 {
        m
    } else {
        let earlier = with_rows(m, rows.drop_last());
        let row = rows.last();
        if is_table_rule(row) || row_text(row).len() == 0 {
            earlier
        } else {
            with_node(earlier, ParseNodeType::Table, row_text(row))
        }
    }
}

/// The end of a table.
pub open spec fn table_ended(m: MarkdownView) -> MarkdownView {
    with_rows(MarkdownView { table: Seq::empty(), ..m }, m.table)
}

/// The end of a block of code.
pub open spec fn code_ended(m: MarkdownView) -> MarkdownView {
    let content = text::trimmed(text::joined(m.code, "\n"@));
    let closed = MarkdownView { code: Seq::empty(), ..m };
    if m.code.len() == 0 || content.len() == 0 {
        closed
    } else {
        with_node(closed, ParseNodeType::Code, content)
    }
}

/// What is known of a document after one more line.
pub open spec fn after_line(m: MarkdownView, line: Seq<char>) -> MarkdownView {
    let t = text::trimmed(line);
    if is_fence(t) {
        if m.in_code {
            MarkdownView { in_code: false, ..code_ended(m) }
        } else {
            MarkdownView { in_code: true, ..table_ended(paragraph_ended(m)) }
        }
    } else if m.in_code {
        MarkdownView { code: m.code.push(line), ..m }
    } else if heading_of(t) is Some {
        let (level, title) = heading_of(t)->0;
        let closed = table_ended(paragraph_ended(m));
        MarkdownView {
            headings: open_headings(closed.headings, level).push((level, title)),
            ..closed
        }
    } else if t.len() == 0 {
        table_ended(paragraph_ended(m))
    } else if is_table_row(t) {
        let closed = paragraph_ended(m);
        MarkdownView { table: closed.table.push(t), ..closed }
    } else {
        let closed = table_ended(m);
        MarkdownView { paragraph: closed.paragraph.push(t), ..closed }
    }
}

pub open spec fn after_lines(lines: Seq<Seq<char>>) -> MarkdownView
    decreases lines.len(),
{
    if lines.len() == 0 {
        new_markdown()
    } else {
        after_line(after_lines(lines.drop_last()), lines.last())
    }
}

/// The end of a document.
pub open spec fn document_ended(m: MarkdownView) -> MarkdownView {
    let closed = table_ended(paragraph_ended(m));
    if closed.in_code {
        code_ended(closed)
    } else {
        closed
    }
}

/// The nodes of a Markdown document.
pub open spec fn markdown_nodes(content: Seq<char>) -> Seq<NodeView> {
    document_ended(after_lines(text::lines_of(content))).nodes
}

/// Lines one below the other, without the space at their ends. Empty lines at
/// the start leave no trace.
pub open spec fn stacked_lines(lines: Seq<Seq<char>>) -> Seq<char>
    decreases lines.len(),
{
    if lines.len() == 0 {
        Seq::empty()
    } else {
        let above = stacked_lines(lines.drop_last());
        (if above.len() == 0 {
            above
        } else {
            above.push('\n')
        }) + text::trim_end(lines.last())
    }
}

/// The nodes of a plain text: itself, unless it is blank.
pub open spec fn text_nodes(content: Seq<char>) -> Seq<NodeView> {
    let body = text::trimmed(stacked_lines(text::lines_of(content)));
    if body.len() == 0 {
        Seq::empty()
    } else {
        seq![
            NodeView {
                index: 0,
                content: body,
                node_type: ParseNodeType::Text,
                level: 0,
                title: None,
                parent_index: None,
                is_need_space: false,
                is_need_newline: true,
            },
        ]
    }
}

fn markdown_heading(line: &str) -> (r: Option<(usize, String)>)
    ensures
        match r {
            Some((level, title)) => heading_of(line@) == Some((level as nat, title@)),
            None => heading_of(line@) is None,
        },
{
    let chars = to_chars(line);
    let n = chars.len();
    let mut level: usize = 0;
    assert(line@.skip(0) =~= line@);
    while level < n && chars[level] == '#'
        invariant
            level <= n,
            n == chars@.len(),
            chars@ == line@,
            leading_hashes(line@) == level + leading_hashes(line@.skip(level as int)),
        ensures
            level <= n,
            leading_hashes(line@) == level,
        decreases n - level,
    {
        assert(line@.skip(level as int).drop_first() =~= line@.skip(level + 1));
        level += 1;
    }
    if level < 1 || level > 6 || level >= n {
        return None;
    }
    if !chars[level].is_whitespace() {
        return None;
    }
    let rest = text::from_chars(&chars, level, n);
    assert(rest@ =~= line@.skip(level as int));
    let title = trim(rest.as_str());
    if title.is_empty() {
        None
    } else {
        Some((level, title.to_owned()))
    }
}

fn is_code_fence(line: &str) -> (r: bool)
    ensures
        r == is_fence(line@),
{
    text_starts_with(line, "```") || text_starts_with(line, "~~~")
}

fn is_markdown_table_line(line: &str) -> (r: bool)
    ensures
        r == is_table_row(line@),
{
    let chars = to_chars(line);
    let n = chars.len();
    n >= 2 && chars[0] == '|' && chars[n - 1] == '|'
}

fn bar() -> (r: Vec<char>)
    ensures
        r@ == seq!['|'],
{
    let mut set: Vec<char> = Vec::new();
    set.push('|');
    set
}

fn is_markdown_table_separator(line: &str) -> (r: bool)
    ensures
        r == is_table_rule(line@),
{
    let inner = strip_chars(line, &bar());
    let content = trim(inner.as_str());
    let chars = to_chars(content);
    let mut i: usize = 0;
    while i < chars.len()
        invariant
            i <= chars@.len(),
            chars@ == text::trimmed(scan::stripped(line@, seq!['|'])),
            forall|k: int| 0 <= k < i ==> rules(#[trigger] chars@[k]),
        decreases chars@.len() - i,
    {
        let c = chars[i];
        if !(c == '-' || c == ':' || c == '|' || c.is_whitespace()) {
            assert(!rules(chars@[i as int]));
            return false;
        }
        i += 1;
    }
    chars.len() > 0
}

fn table_row_text(line: &str) -> (r: String)
    ensures
        r@ == row_text(line@),
{
    let inner = strip_chars(line, &bar());
    let parts = split_text(inner.as_str(), '|');
    let ghost all = text::strings(parts@);
    let mut cells: Vec<String> = Vec::new();
    let mut i: usize = 0;
    assert(text::strings(cells@) =~= Seq::<Seq<char>>::empty());
    while i < parts.len()
        invariant
            i <= parts@.len(),
            all == text::strings(parts@),
            text::strings(cells@) == filled_cells(all.take(i as int)),
        decreases parts@.len() - i,
    {
        proof {
            assert(all.take(i + 1).drop_last() =~= all.take(i as int));
            assert(all.take(i + 1).last() == parts@[i as int]@);
        }
        let cell = trim(parts[i].as_str());
        if !cell.is_empty() {
            let ghost before = cells@;
            let copy = cell.to_owned();
            cells.push(copy);
            proof {
                lemma_strings_push(before, copy);
            }
        }
        i += 1;
    }
    assert(all.take(i as int) =~= all);
    join_texts(&cells, " | ")
}

pub open spec fn heading_views(v: Seq<(usize, String)>) -> Seq<(nat, Seq<char>)> {
    Seq::new(v.len(), |i: int| (v[i].0 as nat, v[i].1@))
}

/// Takes a Markdown document apart, line by line.
#[derive(Debug)]
pub struct MarkdownNodeParser {
    heading_path: Vec<(usize, String)>,
    paragraph_lines: Vec<String>,
    table_lines: Vec<String>,
    code_lines: Vec<String>,
    in_code_fence: bool,
    nodes: Vec<ParseNode>,
}

impl View for MarkdownNodeParser {
    type V = MarkdownView;

    closed spec fn view(&self) -> MarkdownView {
        MarkdownView {
            headings: heading_views(self.heading_path@),
            paragraph: text::strings(self.paragraph_lines@),
            table: text::strings(self.table_lines@),
            code: text::strings(self.code_lines@),
            in_code: self.in_code_fence,
            nodes: node_views(self.nodes@),
        }
    }
}

impl MarkdownNodeParser {
    /// A parser before the first line.
    pub fn new() -> (r: Self)
        ensures
            r@ == new_markdown(),
    {
        let r = MarkdownNodeParser {
            heading_path: Vec::new(),
            paragraph_lines: Vec::new(),
            table_lines: Vec::new(),
            code_lines: Vec::new(),
            in_code_fence: false,
            nodes: Vec::new(),
        };
        proof {
            assert(r@.headings =~= new_markdown().headings);
            assert(r@.paragraph =~= new_markdown().paragraph);
            assert(r@.table =~= new_markdown().table);
            assert(r@.code =~= new_markdown().code);
            assert(r@.nodes =~= new_markdown().nodes);
        }
        r
    }

    fn with_heading_path(&self, content: &str) -> (r: String)
        ensures
            r@ == under_headings(self@.headings, content@),
    {
        let n = self.heading_path.len();
        if n == 0 {
            return trim(content).to_owned();
        }
        let ghost all = titles(self@.headings);
        let mut parts: Vec<String> = Vec::new();
        let mut i: usize = 0;
        assert(text::strings(parts@) =~= all.take(0));
        while i < n
            invariant
                i <= n,
                n == self.heading_path@.len(),
                all == titles(self@.headings),
                text::strings(parts@) == all.take(i as int),
            decreases n - i,
        {
            let ghost before = parts@;
            let title = self.heading_path[i].1.clone();
            parts.push(title);
            proof {
                lemma_strings_push(before, title);
                assert(all.take(i + 1) =~= all.take(i as int).push(title@));
            }
            i += 1;
        }
        assert(all.take(i as int) =~= all);
        let mut r = join_texts(&parts, " > ");
        r.append("\n\n");
        r.append(trim(content));
        r
    }

    fn push_node(&mut self, node_type: ParseNodeType, content: &str)
        ensures
            final(self)@ == with_node(old(self)@, node_type, content@),
    {
        let ghost before = self@;
        let full = self.with_heading_path(content);
        let n = self.heading_path.len();
        let (level, title): (usize, Option<String>) = if n == 0 {
            (0, None)
        } else {
            (self.heading_path[n - 1].0, Some(self.heading_path[n - 1].1.clone()))
        };
        let index: usize = self.nodes.len();
        let node = ParseNode {
            index,
            content: full,
            node_type,
            level,
            title,
            parent_index: None,
            is_need_space: false,
            is_need_newline: true,
        };
        let ghost nodes = self.nodes@;
        self.nodes.push(node);
        proof {
            assert(node_views(self.nodes@) =~= node_views(nodes).push(node@));
            assert(self@ == with_node(before, node_type, content@));
        }
    }

    fn flush_paragraph(&mut self)
        ensures
            final(self)@ == paragraph_ended(old(self)@),
    {
        if self.paragraph_lines.len() == 0 {
            assert(self@.paragraph =~= Seq::<Seq<char>>::empty());
            return;
        }
        let joined = join_texts(&self.paragraph_lines, "\n");
        let content = trim(joined.as_str());
        self.paragraph_lines.clear();
        assert(self@.paragraph =~= Seq::<Seq<char>>::empty());
        if !content.is_empty() {
            self.push_node(ParseNodeType::Text, content);
        }
    }

    fn flush_table(&mut self)
        ensures
            final(self)@ == table_ended(old(self)@),
    {
        let ghost before = self@;
        let ghost rows = before.table;
        let mut lines: Vec<String> = Vec::new();
        lines.append(&mut self.table_lines);
        let ghost closed = MarkdownView { table: Seq::empty(), ..before };
        proof {
            assert(text::strings(lines@) =~= rows);
            assert(self@.table =~= Seq::<Seq<char>>::empty());
        }
        let mut i: usize = 0;
        while i < lines.len()
            invariant
                i <= lines@.len(),
                text::strings(lines@) == rows,
                self@ == with_rows(closed, rows.take(i as int)),
            decreases lines@.len() - i,
        {
            proof {
                assert(rows.take(i + 1).drop_last() =~= rows.take(i as int));
                assert(rows.take(i + 1).last() == lines@[i as int]@);
            }
            let line = lines[i].as_str();
            if !is_markdown_table_separator(line) {
                let row = table_row_text(line);
                if !row.as_str().is_empty() {
                    self.push_node(ParseNodeType::Table, row.as_str());
                }
            }
            i += 1;
        }
        assert(rows.take(i as int) =~= rows);
    }

    fn flush_code(&mut self)
        ensures
            final(self)@ == code_ended(old(self)@),
    {
        if self.code_lines.len() == 0 {
            assert(self@.code =~= Seq::<Seq<char>>::empty());
            return;
        }
        let joined = join_texts(&self.code_lines, "\n");
        let content = trim(joined.as_str());
        self.code_lines.clear();
        assert(self@.code =~= Seq::<Seq<char>>::empty());
        if !content.is_empty() {
            self.push_node(ParseNodeType::Code, content);
        }
    }

    fn open_heading(&mut self, level: usize, title: String)
        ensures
            final(self)@ == (MarkdownView {
                headings: open_headings(old(self)@.headings, level as nat).push(
                    (level as nat, title@),
                ),
                ..old(self)@
            }),
    {
        let ghost all = self@.headings;
        let mut kept: Vec<(usize, String)> = Vec::new();
        let mut i: usize = 0;
        assert(heading_views(kept@) =~= Seq::<(nat, Seq<char>)>::empty());
        while i < self.heading_path.len()
            invariant
                i <= self.heading_path@.len(),
                all == heading_views(self.heading_path@),
                heading_views(kept@) == open_headings(all.take(i as int), level as nat),
            decreases self.heading_path@.len() - i,
        {
            proof {
                assert(all.take(i + 1).drop_last() =~= all.take(i as int));
                assert(all.take(i + 1).last() == all[i as int]);
            }
            if self.heading_path[i].0 < level {
                let ghost before = kept@;
                let entry = (self.heading_path[i].0, self.heading_path[i].1.clone());
                kept.push(entry);
                assert(heading_views(kept@) =~= heading_views(before).push(all[i as int]));
            }
            i += 1;
        }
        assert(all.take(i as int) =~= all);
        let ghost before = kept@;
        kept.push((level, title));
        assert(heading_views(kept@) =~= heading_views(before).push((level as nat, title@)));
        self.heading_path = kept;
    }

    /// Takes one more line.
    pub fn push_line(&mut self, line: &str)
        ensures
            final(self)@ == after_line(old(self)@, line@),
    {
        let trimmed = trim(line);
        if is_code_fence(trimmed) {
            if self.in_code_fence {
                self.flush_code();
                self.in_code_fence = false;
            } else {
                self.flush_paragraph();
                self.flush_table();
                self.in_code_fence = true;
            }
            return;
        }
        if self.in_code_fence {
            let ghost before = self.code_lines@;
            let copy = line.to_owned();
            self.code_lines.push(copy);
            proof {
                lemma_strings_push(before, copy);
            }
            return;
        }
        match markdown_heading(trimmed) {
            Some((level, title)) => {
                self.flush_paragraph();
                self.flush_table();
                self.open_heading(level, title);
                return;
            },
            None => {},
        }
        if trimmed.is_empty() {
            self.flush_paragraph();
            self.flush_table();
            return;
        }
        if is_markdown_table_line(trimmed) {
            self.flush_paragraph();
            let ghost before = self.table_lines@;
            let copy = trimmed.to_owned();
            self.table_lines.push(copy);
            proof {
                lemma_strings_push(before, copy);
            }
            return;
        }
        self.flush_table();
        let ghost before = self.paragraph_lines@;
        let copy = trimmed.to_owned();
        self.paragraph_lines.push(copy);
        proof {
            lemma_strings_push(before, copy);
        }
    }

    /// The nodes of the document that ends here.
    pub fn finish(self) -> (r: Vec<ParseNode>)
        ensures
            node_views(r@) == document_ended(self@).nodes,
    {
        let mut parser = self;
        parser.flush_paragraph();
        parser.flush_table();
        if parser.in_code_fence {
            parser.flush_code();
        }
        parser.nodes
    }
}

/// Why a document could not be parsed.
#[derive(Debug)]
pub enum ParseError {
    /// Its format is not one of those that are read.
    Unsupported { message: String },
}

/// The report on a document whose format is not read.
pub open spec fn unsupported_message(path: Seq<char>) -> Seq<char> {
    "unsupported document format for parsing: path="@ + path
}

/// The nodes of a document in a format that is read.
pub open spec fn nodes_of(content: Seq<char>, format: DocumentFormat) -> Seq<NodeView> {
    match format {
        DocumentFormat::Markdown => markdown_nodes(content),
        _ => text_nodes(content),
    }
}

/// Takes documents apart.
#[derive(Debug)]
pub struct ParserEngine;

impl ParserEngine {
    /// Takes the content of a file apart, in the format that its media type, its
    /// path or its name says.
    pub fn parse_file(
        path: &str,
        mime_type: Option<&str>,
        file_name: Option<&str>,
        content: &str,
    ) -> (r: Result<ParseResult, ParseError>)
        ensures
            ({
                let format = document_format(
                    path@,
                    json::opt_text(mime_type),
                    json::opt_text(file_name),
                );
                match r {
                    Ok(parsed) => format != DocumentFormat::Unknown && parsed.format == format
                        && parsed.topology == ParseTopology::List && node_views(parsed.nodes@)
                        == nodes_of(content@, format),
                    Err(ParseError::Unsupported { message }) => format == DocumentFormat::Unknown
                        && message@ == unsupported_message(path@),
                }
            }),
    {
        let format = DocumentFormat::from_metadata(path, mime_type, file_name);
        Self::parse_file_as(path, format, content)
    }

    /// Takes the content of a file apart in a format.
    pub fn parse_file_as(path: &str, format: DocumentFormat, content: &str) -> (r: Result<
        ParseResult,
        ParseError,
    >)
        ensures
            match r {
                Ok(parsed) => format != DocumentFormat::Unknown && parsed.format == format
                    && parsed.topology == ParseTopology::List && node_views(parsed.nodes@)
                    == nodes_of(content@, format),
                Err(ParseError::Unsupported { message }) => format == DocumentFormat::Unknown
                    && message@ == unsupported_message(path@),
            },
    {
        match format {
            DocumentFormat::Markdown => Ok(Self::parse_markdown_reader(content)),
            DocumentFormat::Text => Ok(Self::parse_text_reader(content)),
            DocumentFormat::Unknown => {
                let mut message = "unsupported document format for parsing: path=".to_owned();
                message.append(path);
                Err(ParseError::Unsupported { message })
            },
        }
    }

    /// Takes a Markdown document apart.
    pub fn parse_markdown_reader(content: &str) -> (r: ParseResult)
        ensures
            r.format == DocumentFormat::Markdown,
            r.topology == ParseTopology::List,
            node_views(r.nodes@) == markdown_nodes(content@),
    {
        let lines = text_lines(content);
        let ghost all = text::strings(lines@);
        let mut parser = MarkdownNodeParser::new();
        let mut i: usize = 0;
        while i < lines.len()
            invariant
                i <= lines@.len(),
                all == text::strings(lines@),
                parser@ == after_lines(all.take(i as int)),
            decreases lines@.len() - i,
        {
            proof {
                assert(all.take(i + 1).drop_last() =~= all.take(i as int));
                assert(all.take(i + 1).last() == lines@[i as int]@);
            }
            parser.push_line(lines[i].as_str());
            i += 1;
        }
        assert(all.take(i as int) =~= all);
        ParseResult {
            format: DocumentFormat::Markdown,
            topology: ParseTopology::List,
            nodes: parser.finish(),
        }
    }

    /// Takes a plain text: it is one node, unless it is blank.
    pub fn parse_text_reader(content: &str) -> (r: ParseResult)
        ensures
            r.format == DocumentFormat::Text,
            r.topology == ParseTopology::List,
            node_views(r.nodes@) == text_nodes(content@),
    {
        let lines = text_lines(content);
        let ghost all = text::strings(lines@);
        let mut stacked = String::new();
        let mut i: usize = 0;
        while i < lines.len()
            invariant
                i <= lines@.len(),
                all == text::strings(lines@),
                stacked@ == stacked_lines(all.take(i as int)),
            decreases lines@.len() - i,
        {
            proof {
                assert(all.take(i + 1).drop_last() =~= all.take(i as int));
                assert(all.take(i + 1).last() == lines@[i as int]@);
            }
            if !stacked.as_str().is_empty() {
                stacked.push('\n');
            }
            let line = scan::trim_text_end(lines[i].as_str());
            stacked.append(line.as_str());
            i += 1;
        }
        assert(all.take(i as int) =~= all);
        let body = trim(stacked.as_str());
        let mut nodes: Vec<ParseNode> = Vec::new();
        if !body.is_empty() {
            nodes.push(
                ParseNode {
                    index: 0,
                    content: body.to_owned(),
                    node_type: ParseNodeType::Text,
                    level: 0,
                    title: None,
                    parent_index: None,
                    is_need_space: false,
                    is_need_newline: true,
                },
            );
        }
        assert(node_views(nodes@) =~= text_nodes(content@));
        ParseResult { format: DocumentFormat::Text, topology: ParseTopology::List, nodes }
    }
}

/// Whether a node is as every document yields it. It is not blank and has no
/// space around it. It stands under a heading of its level, at most the sixth,
/// or under none at level 0. It belongs to no other node, and in a text it
/// starts a line of its own.
pub open spec fn sound_node(n: NodeView) -> bool {
    &&& !text::is_blank(n.content)
    &&& text::trimmed(n.content) == n.content
    &&& 0 <= n.level <= 6
    &&& n.level == 0 <==> n.title is None
    &&& n.title is Some ==> !text::is_blank(n.title->0)
    &&& n.parent_index is None
    &&& !n.is_need_space
    &&& n.is_need_newline
}

/// Whether the nodes of a document are numbered, and each of them is sound.
pub open spec fn sound_nodes(nodes: Seq<NodeView>) -> bool {
    forall|i: int|
        0 <= i < nodes.len() ==> (#[trigger] nodes[i]).index == i && sound_node(nodes[i])
}

spec fn sound_headings(headings: Seq<(nat, Seq<char>)>) -> bool {
    forall|i: int|
        0 <= i < headings.len() ==> 1 <= (#[trigger] headings[i]).0 <= 6 && !text::is_blank(
            headings[i].1,
        ) && text::trimmed(headings[i].1) == headings[i].1
}

spec fn sound_markdown(m: MarkdownView) -> bool {
    sound_nodes(m.nodes) && sound_headings(m.headings)
}

proof fn lemma_own_trim(s: Seq<char>)
    requires
        s.len() > 0,
        !text::char_whitespace(s[0]),
        !text::char_whitespace(s.last()),
    ensures
        text::trimmed(s) == s,
        !text::is_blank(s),
{
    assert(text::trim_start(s) == s);
    assert(text::trim_end(s) == s);
}

proof fn lemma_under_headings(headings: Seq<(nat, Seq<char>)>, content: Seq<char>)
    requires
        sound_headings(headings),
        text::trimmed(content).len() > 0,
    ensures
        text::trimmed(under_headings(headings, content)) == under_headings(headings, content),
        !text::is_blank(under_headings(headings, content)),
{
    let body = text::trimmed(content);
    text::trimming_is_final(content);
    if headings.len() > 0 {
        let first = headings[0].1;
        text::trimming_is_final(first);
        lemma_joined_start(titles(headings), " > "@);
        let all = under_headings(headings, content);
        assert(all[0] == first[0]);
        assert(all.last() == body.last());
        lemma_own_trim(all);
    }
}

proof fn lemma_with_node_is_sound(m: MarkdownView, node_type: ParseNodeType, content: Seq<char>)
    requires
        sound_markdown(m),
        text::trimmed(content).len() > 0,
    ensures
        sound_markdown(with_node(m, node_type, content)),
{
    lemma_under_headings(m.headings, content);
    let r = with_node(m, node_type, content).nodes;
    if m.headings.len() > 0 {
        assert(1 <= m.headings[m.headings.len() - 1].0 <= 6);
    }
    assert forall|i: int| 0 <= i < r.len() implies (#[trigger] r[i]).index == i && sound_node(
        r[i],
    ) by {
        if i < m.nodes.len() {
            assert(r[i] == m.nodes[i]);
        }
    }
}

proof fn lemma_trimmed_stays(s: Seq<char>)
    requires
        text::trimmed(s).len() > 0,
    ensures
        text::trimmed(text::trimmed(s)).len() > 0,
{
    text::trimming_is_final(s);
}

proof fn lemma_trim_keeps_solid_start(s: Seq<char>)
    requires
        s.len() > 0,
        !text::char_whitespace(s[0]),
    ensures
        text::trimmed(s).len() > 0,
{
    assert(text::trim_start(s) == s);
    let hi = text::lemma_trim_end_bounds(s);
    if hi == 0 {
        assert(text::char_whitespace(s[0]));
    }
}

proof fn lemma_cells_are_solid(parts: Seq<Seq<char>>)
    ensures
        forall|i: int|
            0 <= i < filled_cells(parts).len() ==> (#[trigger] filled_cells(parts)[i]).len() > 0
                && !text::char_whitespace(filled_cells(parts)[i][0]),
    decreases parts.len(),
{
    if parts.len() > 0 {
        lemma_cells_are_solid(parts.drop_last());
        let cell = parts.last();
        if !text::is_blank(cell) {
            let lo = text::lemma_trim_start_bounds(cell);
            let front = text::trim_start(cell);
            let hi = text::lemma_trim_end_bounds(front);
            assert(front[0] == cell[lo]);
            assert(text::trimmed(cell)[0] == front[0]);
            let earlier = filled_cells(parts.drop_last());
            let all = filled_cells(parts);
            assert forall|i: int| 0 <= i < all.len() implies (#[trigger] all[i]).len() > 0
                && !text::char_whitespace(all[i][0]) by {
                if i < earlier.len() {
                    assert(all[i] == earlier[i]);
                }
            }
        }
    }
}

proof fn lemma_joined_start(parts: Seq<Seq<char>>, sep: Seq<char>)
    requires
        parts.len() > 0,
        parts[0].len() > 0,
    ensures
        text::joined(parts, sep).len() > 0,
        text::joined(parts, sep)[0] == parts[0][0],
    decreases parts.len(),
{
    if parts.len() > 1 {
        lemma_joined_start(parts.drop_last(), sep);
    }
}

proof fn lemma_with_rows_is_sound(m: MarkdownView, rows: Seq<Seq<char>>)
    requires
        sound_markdown(m),
    ensures
        sound_markdown(with_rows(m, rows)),
    decreases rows.len(),
{
    if rows.len() > 0 {
        lemma_with_rows_is_sound(m, rows.drop_last());
        let earlier = with_rows(m, rows.drop_last());
        let row = rows.last();
        if !is_table_rule(row) && row_text(row).len() > 0 {
            let cells = filled_cells(text::split_on(scan::stripped(row, seq!['|']), '|'));
            lemma_cells_are_solid(text::split_on(scan::stripped(row, seq!['|']), '|'));
            assert(cells.len() > 0);
            assert(cells[0].len() > 0);
            lemma_joined_start(cells, " | "@);
            lemma_trim_keeps_solid_start(row_text(row));
            lemma_with_node_is_sound(earlier, ParseNodeType::Table, row_text(row));
        }
    }
}

proof fn lemma_ends_are_sound(m: MarkdownView)
    requires
        sound_markdown(m),
    ensures
        sound_markdown(paragraph_ended(m)),
        sound_markdown(table_ended(m)),
        sound_markdown(code_ended(m)),
{
    let p = text::trimmed(text::joined(m.paragraph, "\n"@));
    if m.paragraph.len() > 0 && p.len() > 0 {
        lemma_trimmed_stays(text::joined(m.paragraph, "\n"@));
        lemma_with_node_is_sound(
            MarkdownView { paragraph: Seq::empty(), ..m },
            ParseNodeType::Text,
            p,
        );
    }
    lemma_with_rows_is_sound(MarkdownView { table: Seq::empty(), ..m }, m.table);
    let c = text::trimmed(text::joined(m.code, "\n"@));
    if m.code.len() > 0 && c.len() > 0 {
        lemma_trimmed_stays(text::joined(m.code, "\n"@));
        lemma_with_node_is_sound(
            MarkdownView { code: Seq::empty(), ..m },
            ParseNodeType::Code,
            c,
        );
    }
}

proof fn lemma_open_headings_are_sound(headings: Seq<(nat, Seq<char>)>, level: nat)
    requires
        sound_headings(headings),
    ensures
        sound_headings(open_headings(headings, level)),
    decreases headings.len(),
{
    if headings.len() > 0 {
        let front = headings.drop_last();
        assert forall|i: int| 0 <= i < front.len() implies 1 <= (#[trigger] front[i]).0 <= 6
            && !text::is_blank(front[i].1) && text::trimmed(front[i].1) == front[i].1 by {
            assert(front[i] == headings[i]);
        }
        lemma_open_headings_are_sound(front, level);
        assert(1 <= headings[headings.len() - 1].0 <= 6);
    }
}

proof fn lemma_lines_are_sound(lines: Seq<Seq<char>>)
    ensures
        sound_markdown(after_lines(lines)),
    decreases lines.len(),
{
    if lines.len() > 0 {
        lemma_lines_are_sound(lines.drop_last());
        let m = after_lines(lines.drop_last());
        lemma_ends_are_sound(m);
        lemma_ends_are_sound(paragraph_ended(m));
        let t = text::trimmed(lines.last());
        if heading_of(t) is Some {
            let (level, title) = heading_of(t)->0;
            let closed = table_ended(paragraph_ended(m));
            lemma_open_headings_are_sound(closed.headings, level);
            text::trimming_is_final(t.skip(level as int));
            let all = open_headings(closed.headings, level).push((level, title));
            assert(sound_headings(all));
        }
    }
}

/// The nodes of every document are numbered in order, and each of them is sound.
/// A plain text is one node of text under no heading, or none.
pub proof fn nodes_are_numbered_and_filled(content: Seq<char>, format: DocumentFormat)
    ensures
        sound_nodes(nodes_of(content, format)),
        format == DocumentFormat::Text ==> nodes_of(content, format).len() <= 1 && forall|i: int|
            0 <= i < nodes_of(content, format).len() ==> (#[trigger] nodes_of(
                content,
                format,
            )[i]).node_type == ParseNodeType::Text && nodes_of(content, format)[i].level == 0,
{
    text::trimming_is_final(stacked_lines(text::lines_of(content)));
    let m = after_lines(text::lines_of(content));
    lemma_lines_are_sound(text::lines_of(content));
    lemma_ends_are_sound(m);
    lemma_ends_are_sound(paragraph_ended(m));
    lemma_ends_are_sound(table_ended(paragraph_ended(m)));
}

} // verus!
