use std::collections::HashMap;

use ram_a::api::{score_bits, score_rank, ScoredMemory};
use ram_a::case_model::{Chunk, StoredDocument};
use ram_a::case_overlap::{
    has_high_confidence_distinctive_overlap, has_retrieval_overlap, required_ascii_overlap_terms,
    retrieval_terms, TermSet,
};
use ram_a::case_profile::{build_chunk_memory_request, explicit_questions_for_text};
use ram_a::case_retrieval::{
    append_document_chunks, append_document_chunks_with_context, chunk_signals,
    competitive_document_hits, filter_low_relevance_results, ranked_chunk_indices,
    DocumentRetrievalHit, RetrievedDocument, MIN_RELEVANCE_PLACE,
};
use ram_a::case_summary::{
    build_document_body_summary, build_document_search_text,
    build_document_search_text_from_summary_lines, build_llm_document_summary_source,
    document_summary_lines_from_text,
};
use ram_a::case_terms::{
    build_search_index_text, build_search_query_text, document_recall_candidate_top_k,
    RAGFLOW_STYLE_RECALL_TOP_K,
};
use ram_a::json::Json;
use ram_a::record::MemoryRecord;

const MIN_RELEVANCE_SCORE: f32 = 0.45;

fn place(score: f32) -> i32 {
    score_rank(score.to_bits())
}

fn score(place: i32) -> f32 {
    f32::from_bits(score_bits(place))
}

fn chunk(id: &str, index: usize, content: &str) -> Chunk {
    Chunk {
        id: id.to_string(),
        dataset_id: "dataset".to_string(),
        document_id: "document".to_string(),
        chunk_index: index,
        content: content.to_string(),
        chunk_type: "text".to_string(),
        token_count: content.chars().count(),
        parse_topology: "list".to_string(),
        source_node_indices: vec![index],
        available: true,
        created_at_ms: 1,
        updated_at_ms: 1,
    }
}

fn scored_memory(id: &str, text: &str, score: f32) -> ScoredMemory {
    ScoredMemory {
        record: MemoryRecord {
            id: id.to_string(),
            text: text.to_string(),
            metadata: Json::new_object(),
            embedding: Vec::new(),
            created_at_ms: 1,
            updated_at_ms: 1,
        },
        score: place(score),
    }
}

fn rank_score(query: &str, index: usize, chunk: &Chunk, chunk_scores: &HashMap<String, f32>) -> f32 {
    let signals = chunk_signals(&retrieval_terms(query), &chunk.content);
    let raw = chunk_scores.get(&chunk.id).copied().unwrap_or(0.0);
    let overlap = if signals.query_terms == 0 {
        0.0
    } else {
        signals.overlap as f32 / signals.query_terms as f32
    };
    let structure = if signals.terms == 0 {
        0.0
    } else {
        let mut score = (signals.terms as f32 / 80.0).min(0.25);
        if signals.has_identifier {
            score += 0.08;
        }
        if signals.has_version {
            score += 0.08;
        }
        if signals.many_lines {
            score += 0.04;
        }
        score.min(0.4)
    };
    let intro = if index == 0 && overlap > 0.0 { 0.05 } else { 0.0 };
    raw * 2.0 + overlap + structure + intro
}

fn ranked(query: &str, chunks: &[Chunk], chunk_scores: &HashMap<String, f32>) -> Vec<usize> {
    let scores = chunks
        .iter()
        .enumerate()
        .map(|(index, chunk)| place(rank_score(query, index, chunk, chunk_scores)))
        .collect::<Vec<_>>();
    ranked_chunk_indices(&scores)
}

fn retrieved(
    document: StoredDocument,
    chunks: Vec<Chunk>,
    query: &str,
    chunk_scores: &HashMap<String, f32>,
    base_score: f32,
) -> RetrievedDocument {
    let ranked = ranked(query, &chunks, chunk_scores);
    let scores = (0..ranked.len())
        .map(|rank| place((base_score - (rank as f32 * 0.001)).max(0.0)))
        .collect();
    RetrievedDocument { document, chunks, ranked, scores }
}

#[test]
fn document_summary_keeps_title_topic_and_body_summary_without_question_bridges() {
    let document = StoredDocument {
        id: "document".to_string(),
        dataset_id: "dataset".to_string(),
        name: "101号CPU核因栈空间不足导致系统挂死.md".to_string(),
        file_path: "/tmp/101号CPU核因栈空间不足导致系统挂死.md".to_string(),
        mime_type: Some("text/markdown".to_string()),
    };
    let chunks = vec![chunk(
        "document_chunk_0",
        0,
        "问题根因\n\n栈空间不足，触发 Insufficient stack space。",
    )];

    let summary = build_document_search_text(&document, &chunks);

    assert!(summary.contains("文档标题: 101号CPU核因栈空间不足导致系统挂死.md"));
    assert!(summary.contains("文档主题: 101号CPU核因栈空间不足导致系统挂死"));
    assert!(summary.contains("问题根因"));
    assert!(!summary.contains("相关问法:"));
    assert!(!summary.contains("101号CPU核为什么会导致系统挂死？"));
}

#[test]
fn document_summary_uses_compact_body_summary() {
    let document = StoredDocument {
        id: "document".to_string(),
        dataset_id: "dataset".to_string(),
        name: "苹果手机中软件安装方法.txt".to_string(),
        file_path: "/tmp/苹果手机中软件安装方法.txt".to_string(),
        mime_type: Some("text/plain".to_string()),
    };
    let chunks = vec![
        chunk(
            "document_chunk_0",
            0,
            "背景说明\n\n这是一段很长的铺垫文字，没有直接说明操作步骤，只是描述资料来源和适用范围。",
        ),
        chunk(
            "document_chunk_1",
            1,
            "处理方案\n\n打开 App Store，搜索要安装的软件，点击获取并完成验证。",
        ),
    ];

    let summary = build_document_search_text(&document, &chunks);

    assert!(summary.contains("文档标题: 苹果手机中软件安装方法.txt"));
    assert!(summary.contains("正文摘要:"));
    assert!(summary.contains("处理方案"));
    assert!(summary.contains("点击获取"));
    assert!(!summary.contains("文档内容:"));
    assert!(!summary.contains("片段0:"));
}

#[test]
fn document_search_text_can_use_llm_summary_lines() {
    let document = StoredDocument {
        id: "document".to_string(),
        dataset_id: "dataset".to_string(),
        name: "D17-网关日志-错误码.log".to_string(),
        file_path: "/tmp/D17-网关日志-错误码.log".to_string(),
        mime_type: Some("text/plain".to_string()),
    };
    let summary_lines = document_summary_lines_from_text(
        "gateway 到 payment-api 出现 tls handshake timeout。\n临时处理是 rotate gateway certificate bundle 并 restart envoy sidecar。",
    );

    let summary = build_document_search_text_from_summary_lines(&document, &summary_lines);

    assert!(summary.contains("文档标题: D17-网关日志-错误码.log"));
    assert!(summary.contains("文档主题: D17-网关日志-错误码"));
    assert!(summary.contains("正文摘要:"));
    assert!(summary.contains("payment-api"));
    assert!(summary.contains("restart envoy sidecar"));
}

#[test]
fn llm_document_summary_source_keeps_chunk_order() {
    let chunks = vec![
        chunk("document_chunk_0", 0, "第一段现象"),
        chunk("document_chunk_1", 1, "第二段处理方案"),
    ];

    let source = build_llm_document_summary_source(&chunks);

    assert!(source.contains("片段0:\n第一段现象"));
    assert!(source.contains("片段1:\n第二段处理方案"));
    assert!(
        source.find("片段0").expect("chunk 0 marker")
            < source.find("片段1").expect("chunk 1 marker")
    );
}

#[test]
fn document_summary_falls_back_when_body_has_no_signal_terms() {
    let chunks = vec![chunk("document_chunk_0", 0, "alpha beta gamma")];

    let lines = build_document_body_summary(&chunks);

    assert_eq!(lines, vec!["alpha beta gamma"]);
}

#[test]
fn search_index_text_tokenizes_cjk_and_ascii_runs() {
    let index_text = build_search_index_text("101号CPU核为什么会导致系统挂死？");

    assert!(index_text.contains("101"));
    assert!(index_text.contains("cpu"));
    assert!(index_text.contains("系统"));
    assert!(index_text.contains("挂死"));
    assert!(index_text.contains("101号cpu"));
}

#[test]
fn search_index_text_keeps_unseen_cjk_terms_without_fixed_replacements() {
    let index_text = build_search_index_text("Windows 上蓝芽键盘一直转圈");

    assert!(index_text.contains("蓝芽"));
    assert!(index_text.contains("键盘"));
}

#[test]
fn search_index_text_normalizes_wifi_hyphenation() {
    let index_text = build_search_index_text("家里 Wi-Fi 很慢");

    assert!(index_text.contains("wifi"));
    assert!(!index_text.contains("wi-fi"));
}

#[test]
fn search_query_text_prefers_ascii_identifiers_for_mixed_abbreviations() {
    let query_text =
        build_search_query_text("VPN 登录一直让 2FA，提示 MFA token expired，怎么处理？");

    assert_eq!(query_text, "vpn 2fa mfa token expired");
}

#[test]
fn versioned_query_keeps_non_ascii_terms_in_search_text() {
    let query_text = build_search_query_text("openEuler 26.03 LTS 的正式发布时间和生命周期计划是什么？");

    assert!(query_text.contains("openeuler"));
    assert!(query_text.contains("lts"));
    assert!(query_text.contains("26"));
    assert!(query_text.contains("2603"));
    assert!(query_text.contains("正式"));
    assert!(query_text.contains("发布"));
    assert!(query_text.contains("生命"));
    assert!(query_text.contains("计划"));
}

#[test]
fn document_recall_candidate_top_k_uses_ragflow_style_candidate_pool() {
    assert_eq!(document_recall_candidate_top_k(5), RAGFLOW_STYLE_RECALL_TOP_K);
    assert_eq!(
        document_recall_candidate_top_k(RAGFLOW_STYLE_RECALL_TOP_K + 1),
        RAGFLOW_STYLE_RECALL_TOP_K + 1
    );
}

#[test]
fn document_diversity_keeps_only_competitive_retrieval_hits() {
    let hit = |document_id: &str, best_score: f32| DocumentRetrievalHit {
        document_id: document_id.to_string(),
        best_score: place(best_score),
        first_seen_rank: 0,
        chunk_scores: Vec::new(),
    };

    let hits = vec![hit("best", 1.0), hit("competitive", 0.9), hit("weak", 0.6)];
    let best = hits.iter().map(|hit| score(hit.best_score)).fold(0.0f32, f32::max);
    let competitive = hits
        .iter()
        .map(|hit| score(hit.best_score) >= best * 0.85)
        .collect::<Vec<_>>();
    let hits = competitive_document_hits(hits, &competitive);

    assert_eq!(
        hits.into_iter()
            .map(|hit| hit.document_id)
            .collect::<Vec<_>>(),
        vec!["best", "competitive"]
    );
}

#[test]
fn chunk_memory_request_adds_generic_profile_fields() {
    let document = StoredDocument {
        id: "document".to_string(),
        dataset_id: "dataset".to_string(),
        name: "社区案例-openEuler空指针Oops.txt".to_string(),
        file_path: "/tmp/社区案例-openEuler空指针Oops.txt".to_string(),
        mime_type: Some("text/plain".to_string()),
    };
    let chunk = chunk(
        "document_chunk_0",
        0,
        "openEuler 24.03 LTS SP2 触发空指针 Oops。问题根因是 BPF 统计路径访问已释放 namespace。解决方案是应用修复补丁。",
    );

    let request = build_chunk_memory_request(&document, &chunk);

    assert!(request.metadata.get("title_tks").is_some());
    assert!(request.metadata.get("important_kwd").is_some());
    assert!(request.metadata.get("important_tks").is_some());
    assert!(request.metadata.get("question_tks").is_some());
    assert!(request.metadata.get("context_tks").is_some());
    assert!(request.metadata.get("version_terms").is_none());
    assert!(request.text.contains("openeuler"));
    assert!(request.text.contains("oops"));
    assert!(request.text.contains("24.03"));
    assert!(request.text.contains("2403"));
}

#[test]
fn retrieval_overlap_requires_identifier_match_for_mixed_abbreviations() {
    let query = "VPN 登录一直让 2FA，提示 MFA token expired，怎么处理？";
    let query_terms = retrieval_terms(query);
    let required_ascii_terms = required_ascii_overlap_terms(query);

    assert!(!required_ascii_terms.contains("vpn"));
    assert!(!required_ascii_terms.contains("mfa"));
    assert!(required_ascii_terms.contains("2fa"));
    assert!(required_ascii_terms.contains("token"));
    assert!(required_ascii_terms.contains("expired"));
    assert!(has_retrieval_overlap(
        &query_terms,
        &required_ascii_terms,
        "The client displays MFA token expired and then asks for 2FA again."
    ));
    assert!(!has_retrieval_overlap(
        &query_terms,
        &required_ascii_terms,
        "终端记录：SSH 登录提示主机指纹变更，Host key verification failed."
    ));
}

#[test]
fn retrieval_overlap_rejects_single_generic_term_for_long_queries() {
    let query = "多肉植物多久浇一次水比较好？";
    let query_terms = retrieval_terms(query);
    let required_ascii_terms = required_ascii_overlap_terms(query);

    assert!(!has_retrieval_overlap(
        &query_terms,
        &required_ascii_terms,
        "处理办法是手机开关一次飞行模式，最后重启路由器 DNS 代理服务。"
    ));
}

#[test]
fn high_scoring_candidate_allows_single_distinctive_overlap() {
    let query = "家里 Wi-Fi 很慢，可能有哪些原因？";
    let query_terms = retrieval_terms(query);
    let required_ascii_terms = TermSet::new();

    assert!(has_high_confidence_distinctive_overlap(
        &query_terms,
        &required_ascii_terms,
        "排查时发现路由器 DNS 代理缓存异常。这个问题看起来像 Wi-Fi 慢。",
        0.64f32 >= 0.7f32 * 0.85,
    ));
    assert!(!has_high_confidence_distinctive_overlap(
        &query_terms,
        &required_ascii_terms,
        "排查时发现路由器 DNS 代理缓存异常。这个问题看起来像 Wi-Fi 慢。",
        0.4f32 >= 0.7f32 * 0.85,
    ));
}

#[test]
fn search_profile_indexes_explicit_questions_without_intent_terms() {
    let questions = explicit_questions_for_text(
        "常见故障说明。设备为什么离线？\n重启以后是否恢复？最后是附录。",
    );

    assert_eq!(
        questions,
        vec!["设备为什么离线？", "重启以后是否恢复？"]
    );
}

#[test]
fn versioned_query_requires_compact_version_overlap() {
    let query = "openEuler 26.03 LTS 的正式发布时间和生命周期计划是什么？";
    let query_terms = retrieval_terms(query);
    let required_ascii_terms = required_ascii_overlap_terms(query);

    assert!(required_ascii_terms.contains("openeuler"));
    assert!(required_ascii_terms.contains("2603"));
    assert!(!has_retrieval_overlap(
        &query_terms,
        &required_ascii_terms,
        "openEuler 24.03 LTS SP2 问题根因和解决方案",
    ));
    assert!(has_retrieval_overlap(
        &query_terms,
        &required_ascii_terms,
        "openEuler 26.03 LTS 正式发布时间 生命周期计划",
    ));
}

#[test]
fn retrieval_overlap_requires_multiple_identifier_matches_for_numeric_clues() {
    let query = "路由器发烫后 5GHz 从 866Mbps 降到 72Mbps，Wi-Fi 变慢怎么办？";
    let query_terms = retrieval_terms(query);
    let required_ascii_terms = required_ascii_overlap_terms(query);

    assert!(required_ascii_terms.contains("5ghz"));
    assert!(required_ascii_terms.contains("866mbps"));
    assert!(required_ascii_terms.contains("72mbps"));
    assert!(has_retrieval_overlap(
        &query_terms,
        &required_ascii_terms,
        "管理页显示 5GHz 协商速率从 866Mbps 降到 72Mbps，根因是路由器过热降频。"
    ));
    assert!(!has_retrieval_overlap(
        &query_terms,
        &required_ascii_terms,
        "家里 Wi-Fi 变慢：路由器信道拥挤。优先连接 5GHz Wi-Fi。"
    ));
}

#[test]
fn retrieval_overlap_filters_unrelated_candidates() {
    let query = "古典吉他琴弦张力和指板保养方法";
    let query_terms = retrieval_terms(query);
    let required_ascii_terms = required_ascii_overlap_terms(query);

    assert!(!has_retrieval_overlap(
        &query_terms,
        &required_ascii_terms,
        "数据库请求偶发超时，根因是 NUMA 本地回收和 direct reclaim。"
    ));
}

#[test]
fn retrieval_overlap_keeps_bluetooth_typo_candidate() {
    let query = "Windows 上蓝芽键盘一直转圈，配对失败怎么办？";
    let query_terms = retrieval_terms(query);
    let required_ascii_terms = required_ascii_overlap_terms(query);

    assert!(has_retrieval_overlap(
        &query_terms,
        &required_ascii_terms,
        "客户说新换的蓝牙键盘在 Windows 上能看到设备名，但点击连接后一直转圈。"
    ));
}

#[test]
fn retrieval_overlap_filters_generic_failure_only_candidates() {
    let query = "Windows 上蓝芽键盘一直转圈，配对失败怎么办？";
    let query_terms = retrieval_terms(query);
    let required_ascii_terms = required_ascii_overlap_terms(query);

    assert!(!has_retrieval_overlap(
        &query_terms,
        &required_ascii_terms,
        "文档标题: IRQ 352 亲和性修改失败\n业务侧希望把该中断固定到 NUMA node1，但手动写入一直不生效。"
    ));
}

#[test]
fn retrieval_overlap_keeps_weakly_related_symptom_candidates() {
    let query = "数据库请求为什么偶发超时，CPU和磁盘都不高？";
    let query_terms = retrieval_terms(query);
    let required_ascii_terms = required_ascii_overlap_terms(query);

    assert!(has_retrieval_overlap(
        &query_terms,
        &required_ascii_terms,
        "文档标题: 数据库因NUMA本地回收导致响应超时\n问题现象: SQL 执行超过阈值。"
    ));
}

#[test]
fn relevance_threshold_returns_at_most_top_k_without_filling_low_scores() {
    let results = filter_low_relevance_results(vec![
        scored_memory("strong", "扫描仪 ADF 自动进纸歪斜", 0.7),
        scored_memory("edge", "扫描仪 走纸传感器校准", MIN_RELEVANCE_SCORE),
        scored_memory("weak", "蓝牙键盘配对失败", MIN_RELEVANCE_SCORE - 0.001),
    ]);

    assert_eq!(
        results
            .iter()
            .map(|scored| scored.record.id.as_str())
            .collect::<Vec<_>>(),
        vec!["strong", "edge"]
    );
}

#[test]
fn expanded_chunks_do_not_return_scores_below_relevance_threshold() {
    let document = StoredDocument {
        id: "document".to_string(),
        dataset_id: "dataset".to_string(),
        name: "scanner.txt".to_string(),
        file_path: "/tmp/scanner.txt".to_string(),
        mime_type: Some("text/plain".to_string()),
    };
    let chunks = vec![
        chunk("document_chunk_0", 0, "扫描仪 ADF 自动进纸歪斜"),
        chunk("document_chunk_1", 1, "走纸传感器校准"),
    ];
    let mut output = Vec::new();
    let mut seen_chunks = Vec::new();

    let document = retrieved(
        document,
        chunks,
        "扫描仪 ADF 自动进纸歪斜",
        &HashMap::new(),
        MIN_RELEVANCE_SCORE,
    );
    append_document_chunks(&mut output, &mut seen_chunks, &document, 2, None);

    assert_eq!(output.len(), 1);
    assert_eq!(output[0].chunk_id, "document_chunk_0");
    assert_eq!(score(output[0].score), MIN_RELEVANCE_SCORE);
    assert_eq!(output[0].score, MIN_RELEVANCE_PLACE);
}

#[test]
fn ranked_chunk_indices_keep_document_order_without_signals() {
    let chunks = vec![
        chunk("document_chunk_0", 0, "root cause"),
        chunk("document_chunk_1", 1, "solution"),
        chunk("document_chunk_2", 2, "appendix"),
    ];

    assert_eq!(
        ranked("", &chunks, &HashMap::new()),
        vec![0, 1, 2]
    );
}

#[test]
fn solution_query_keeps_postposed_answer_chunk_inside_top_k() {
    let document = StoredDocument {
        id: "document".to_string(),
        dataset_id: "dataset".to_string(),
        name: "会议室投屏延迟长记录.txt".to_string(),
        file_path: "/tmp/会议室投屏延迟长记录.txt".to_string(),
        mime_type: Some("text/plain".to_string()),
    };
    let chunks = vec![
        chunk(
            "document_chunk_0",
            0,
            "会议室投屏在周会时出现延迟，主持人的电脑画面每隔十秒会停顿一下，鼠标移动也会慢半拍，但本地播放视频没有问题，投屏盒子没有重启记录。",
        ),
        chunk(
            "document_chunk_1",
            1,
            "第二轮检查会议室无线环境，2.4GHz 上有很多访客设备，5GHz 信号强度正常，测速下载也不低，只有无线投屏协议的发现和维持连接过程抖动明显。",
        ),
        chunk(
            "document_chunk_2",
            2,
            "第三轮查看交换机和路由器日志，发现投屏盒子的组播发现包被频繁转发到访客网络，旁边的会议平板也在重复广播屏幕镜像服务，导致投屏盒子处理队列堆积。临时缓解时把主持人的电脑固定连接 5GHz，并关闭会议平板的屏幕镜像广播，投屏停顿次数减少，但长会里仍然会偶发卡住。",
        ),
        chunk(
            "document_chunk_3",
            3,
            "最终处理是在路由器里关闭组播增强，给投屏盒子所在 VLAN 开启 IGMP Snooping，把访客网络与办公网络隔离，并给投屏盒子固定 DHCP 地址，复测一小时没有再出现画面停顿。",
        ),
    ];
    let mut chunk_scores = HashMap::new();
    chunk_scores.insert("document_chunk_0".to_string(), 0.7);
    chunk_scores.insert("document_chunk_1".to_string(), 0.699);
    chunk_scores.insert("document_chunk_2".to_string(), 0.698);
    let mut output = Vec::new();
    let mut seen_chunks = Vec::new();

    let document = retrieved(
        document,
        chunks,
        "会议室投屏画面每隔十秒停顿，鼠标也有延迟，怎么处理？",
        &chunk_scores,
        0.7,
    );
    append_document_chunks_with_context(
        &mut output,
        &mut seen_chunks,
        &document,
        3,
        None,
        true,
    );

    let returned_ids = output
        .iter()
        .map(|chunk| chunk.chunk_id.as_str())
        .collect::<Vec<_>>();
    assert!(output.len() <= 3);
    assert!(returned_ids.contains(&"document_chunk_0"));
    assert!(returned_ids.contains(&"document_chunk_2"));
    assert!(!returned_ids.contains(&"document_chunk_1"));

    let reference_text = output
        .iter()
        .map(|chunk| chunk.content.as_str())
        .collect::<Vec<_>>()
        .join("\n");
    assert!(reference_text.contains("每隔十秒"));
    assert!(reference_text.contains("组播发现包"));
    assert!(reference_text.contains("关闭组播增强"));
    assert!(reference_text.contains("IGMP Snooping"));
    assert!(reference_text.contains("固定 DHCP 地址"));
}

#[test]
fn ranked_chunk_indices_prefer_raw_hits_before_unmatched_neighbors() {
    let chunks = vec![
        chunk("document_chunk_0", 0, "root cause"),
        chunk("document_chunk_1", 1, "solution"),
        chunk("document_chunk_2", 2, "appendix"),
    ];
    let mut chunk_scores = HashMap::new();
    chunk_scores.insert("document_chunk_1".to_string(), 0.9);

    assert_eq!(
        ranked("neutral query", &chunks, &chunk_scores),
        vec![1, 0, 2]
    );
}

#[test]
fn chunk_ranking_keeps_direct_evidence_before_adjacent_context() {
    let chunks = vec![
        chunk(
            "document_chunk_0",
            0,
            "晚饭后手机显示 Wi-Fi 满格，路由器测速也正常，但是公司系统和部分网站经常打不开。排查时发现路由器 DNS 代理缓存异常。",
        ),
        chunk(
            "document_chunk_1",
            1,
            "处理办法是把路由器 DNS 改为运营商自动获取或可信公共 DNS，在电脑上执行 ipconfig /flushdns，最后重启路由器的 DNS 代理服务。",
        ),
    ];
    let mut chunk_scores = HashMap::new();
    chunk_scores.insert("document_chunk_0".to_string(), 0.55);

    assert_eq!(
        ranked("家里 Wi-Fi 很慢，可能有哪些原因？", &chunks, &chunk_scores),
        vec![0, 1]
    );
}

#[test]
fn context_window_covers_adjacent_chunks_without_punctuation_rules() {
    let document = StoredDocument {
        id: "document".to_string(),
        dataset_id: "dataset".to_string(),
        name: "WiFi慢因为有人后台上传.md".to_string(),
        file_path: "/tmp/WiFi慢因为有人后台上传.md".to_string(),
        mime_type: Some("text/plain".to_string()),
    };
    let chunks = vec![
        chunk(
            "document_chunk_0",
            0,
            "解决方案\n\n登录路由器后台查看上行流量排行，暂停网盘同步和游戏更新；",
        ),
        chunk(
            "document_chunk_1",
            1,
            "给云备份设置限速，或者开启路由器 QoS，优先保证网页和视频。",
        ),
    ];
    let mut output = Vec::new();
    let mut seen_chunks = Vec::new();
    let chunk_scores = HashMap::from([("document_chunk_0".to_string(), 0.7)]);

    let document = retrieved(
        document,
        chunks,
        "家里 Wi-Fi 很慢",
        &chunk_scores,
        0.7,
    );
    append_document_chunks_with_context(
        &mut output,
        &mut seen_chunks,
        &document,
        1,
        Some(1),
        true,
    );

    assert_eq!(output.len(), 1);
    assert_eq!(output[0].chunk_id, "document_chunk_0");
    assert!(output[0].content.contains("暂停网盘同步"));
    assert!(output[0].content.contains("路由器 QoS"));
    assert_eq!(
        output[0].context_chunk_ids,
        vec!["document_chunk_0", "document_chunk_1"]
    );
    assert_eq!(seen_chunks.len(), 2);
}
