use ram_a::case_parser::{
    DocumentFormat, ParseError, ParseNodeType, ParseTopology, ParserEngine,
};

#[test]
fn detects_format_from_mime_before_extension() {
    let format = DocumentFormat::from_metadata(
        "release-notes.txt",
        Some("text/markdown; charset=utf-8"),
        None,
    );

    assert_eq!(format, DocumentFormat::Markdown);
}

#[test]
fn ignores_unsupported_future_dispatch_formats() {
    let cases = [
        ("page.html", None),
        ("payload.json", None),
        ("manual.pdf", None),
        ("brief.docx", None),
        ("sheet.xlsx", None),
        ("slides.pptx", None),
        ("table.csv", None),
        (
            "upload.bin",
            Some("application/vnd.openxmlformats-officedocument.wordprocessingml.document"),
        ),
    ];

    for (path, mime_type) in cases {
        assert_eq!(
            DocumentFormat::from_metadata(path, mime_type, None),
            DocumentFormat::Unknown
        );
    }
}

#[test]
fn known_unimplemented_formats_return_unsupported() {
    let error = ParserEngine::parse_file_as("missing.pdf", DocumentFormat::Unknown, "")
        .expect_err("unknown parsing should be a placeholder");

    assert!(matches!(error, ParseError::Unsupported { .. }));
}

#[test]
fn text_reader_returns_one_text_parse_node() {
    let result = ParserEngine::parse_text_reader("alpha\nbeta");

    assert_eq!(result.format, DocumentFormat::Text);
    assert_eq!(result.topology, ParseTopology::List);
    assert_eq!(result.nodes.len(), 1);
    assert_eq!(result.nodes[0].node_type, ParseNodeType::Text);
    assert_eq!(result.nodes[0].content, "alpha\nbeta");
}

#[test]
fn markdown_reader_emits_typed_parse_nodes() {
    let result = ParserEngine::parse_markdown_reader(
        "# T\n\npara\n\n```rust\nfn main() {}\n```\n\n| key | value |\n| --- | --- |\n| a | b |",
    );

    let node_types = result
        .nodes
        .iter()
        .map(|node| node.node_type)
        .collect::<Vec<_>>();

    assert_eq!(
        node_types,
        vec![
            ParseNodeType::Text,
            ParseNodeType::Code,
            ParseNodeType::Table,
            ParseNodeType::Table,
        ]
    );
    assert_eq!(result.nodes[0].content, "T\n\npara");
    assert_eq!(result.nodes[1].content, "T\n\nfn main() {}");
}

#[test]
fn nodes_stand_under_their_headings() {
    let parsed = ParserEngine::parse_markdown_reader(
        "intro\n\n###### Deep\n\nbody\n\n####### seven\n\n# Top\n\n```\n\n```\n| x |\n",
    );
    let nodes = parsed
        .nodes
        .iter()
        .map(|node| (node.content.as_str(), node.level, node.title.as_deref()))
        .collect::<Vec<_>>();
    assert_eq!(
        nodes,
        vec![
            ("intro", 0, None),
            ("Deep\n\nbody", 6, Some("Deep")),
            ("Deep\n\n####### seven", 6, Some("Deep")),
            ("Top\n\nx", 1, Some("Top")),
        ]
    );
    for (index, node) in parsed.nodes.iter().enumerate() {
        assert_eq!(node.index, index);
        assert_eq!(node.content.trim(), node.content);
        assert!(node.is_need_newline && !node.is_need_space && node.parent_index.is_none());
    }
}
