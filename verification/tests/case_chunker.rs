use ram_a::case_chunker::{
    chunk_parse_result, join_budgeted_text_segments, ChunkPart, ChunkerConfig, RoughTokenCounter,
};
use ram_a::case_parser::{ParseNodeType, ParseTopology, ParserEngine};

fn contents(parts: Vec<ChunkPart>) -> Vec<String> {
    parts.into_iter().map(|part| part.content).collect()
}

fn config(max_tokens: usize) -> ChunkerConfig<RoughTokenCounter> {
    ChunkerConfig { max_tokens, token_counter: RoughTokenCounter }
}

fn chunk_markdown_str(text: &str, config: ChunkerConfig<RoughTokenCounter>) -> Vec<String> {
    let parse_result = ParserEngine::parse_markdown_reader(text);
    contents(chunk_parse_result(parse_result, config).unwrap())
}

fn chunk_text_str(text: &str, config: ChunkerConfig<RoughTokenCounter>) -> Vec<String> {
    let parse_result = ParserEngine::parse_text_reader(text);
    contents(chunk_parse_result(parse_result, config).unwrap())
}

#[test]
fn text_reader_splits_one_large_text_node_by_sentence_budget() {
    let chunks = chunk_text_str("第一句。第二句。第三句。", config(4));

    assert_eq!(chunks, vec!["第一句。", "第二句。", "第三句。"]);
}

#[test]
fn text_reader_splits_long_sentence_by_token_prefix() {
    let chunks = chunk_text_str("abcdefghij", config(2));

    assert_eq!(chunks, vec!["abcdefgh", "ij"]);
}

#[test]
fn text_reader_merges_short_sentences_until_budget() {
    let chunks = chunk_text_str("甲。乙。丙。", config(4));

    assert_eq!(chunks, vec!["甲。乙。", "丙。"]);
}

#[test]
fn budgeted_text_merge_keeps_boundary_after_prefix_split() {
    assert_eq!(
        join_budgeted_text_segments("故障可稳定复现于101核", "问题根因\n\n栈空间不足。"),
        "故障可稳定复现于101核\n问题根因\n\n栈空间不足。"
    );
    assert_eq!(join_budgeted_text_segments("甲。", "乙。"), "甲。乙。");
}

#[test]
fn markdown_injects_heading_path_into_leaf_chunks() {
    let chunks = chunk_markdown_str("# A\n\nalpha\n\n## B\n\nbeta", config(64));

    assert_eq!(chunks, vec!["A\n\nalpha\nA > B\n\nbeta"]);
}

#[test]
fn markdown_table_rows_become_independent_nodes() {
    let chunks = chunk_markdown_str("# T\n\n| key | value |\n| --- | --- |\n| a | b |", config(64));

    assert_eq!(chunks, vec!["T\n\nkey | value", "T\n\na | b"]);
}

#[test]
fn markdown_code_nodes_are_not_merged_with_text() {
    let chunks = chunk_markdown_str(
        "# T\n\npara\n\n```rust\nfn main() {}\n```\n\nafter",
        config(64),
    );

    assert_eq!(
        chunks,
        vec!["T\n\npara", "T\n\nfn main() {}", "T\n\nafter"]
    );
}

#[test]
fn chunk_parts_keep_parser_node_metadata() {
    let parse_result = ParserEngine::parse_markdown_reader(
        "# T\n\npara\n\n| key | value |\n| --- | --- |",
    );
    let chunks = chunk_parse_result(parse_result, config(64));

    let chunks = chunks.unwrap();
    assert_eq!(chunks[0].chunk_type, ParseNodeType::Text);
    assert_eq!(chunks[0].parse_topology, ParseTopology::List);
    assert_eq!(chunks[0].source_node_indices, vec![0]);
    assert_eq!(chunks[1].chunk_type, ParseNodeType::Table);
    assert_eq!(chunks[1].source_node_indices, vec![1]);
}

#[test]
fn clamps_zero_max_tokens() {
    let chunks = chunk_text_str("ab", config(0));

    assert_eq!(chunks, vec!["ab"]);
}

#[test]
fn code_and_tables_stay_whole_and_every_node_is_a_source() {
    let text = "# A\n\nalpha beta gamma delta\n\n```\nlet x = 1;\n\nlet y = 2;\n```\n\n| a | b |\n|---|---|\n| 1 | 2 |\n\nomega";
    let parsed = ParserEngine::parse_markdown_reader(text);
    let nodes = parsed
        .nodes
        .iter()
        .map(|node| (node.content.clone(), node.node_type, node.index))
        .collect::<Vec<_>>();
    let parts = chunk_parse_result(parsed, config(2)).unwrap();
    let whole = parts
        .iter()
        .filter(|part| part.chunk_type != ParseNodeType::Text)
        .map(|part| (part.content.clone(), part.chunk_type, part.source_node_indices[0]))
        .collect::<Vec<_>>();
    let blocks = nodes
        .iter()
        .filter(|node| node.1 != ParseNodeType::Text)
        .cloned()
        .collect::<Vec<_>>();
    assert_eq!(whole, blocks);
    assert_eq!(blocks.len(), 3);
    assert_eq!(blocks[0].0, "A\n\nlet x = 1;\n\nlet y = 2;");
    for part in &parts {
        assert!(!part.source_node_indices.is_empty());
    }
    for (_, _, index) in &nodes {
        assert!(parts.iter().any(|part| part.source_node_indices.contains(index)));
    }
}
