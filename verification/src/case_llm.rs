//! Summaries of documents that a language model writes: what it is asked, and
//! what is taken from its answer.

use vstd::prelude::*;
use vstd::string::*;

use crate::case_model::CaseError;
use crate::case_summary;
use crate::case_summary::truncate_chars;
use crate::embedding;
use crate::embedding::{service_url, trim_slashes};
use crate::text;
use crate::text::{join_texts, lemma_strings_push, text_lines, trim};

verus! {

/// The longest summary that is asked for, in tokens.
pub const SUMMARY_MAX_OUTPUT_TOKENS: u32 = 512;

/// How much of an answer is shown when it cannot be used.
pub const MAX_BODY_PREVIEW_CHARS: usize = 300;

/// The service that writes summaries.
#[derive(Clone, Debug)]
pub struct DocumentSummaryClient {
    pub api_key: String,
    pub base_url: String,
    pub model: String,
    pub timeout_ms: u64,
}

impl DocumentSummaryClient {
    /// A service at an address; slashes at its end do not count.
    pub fn new(api_key: &str, base_url: &str, model: &str, timeout_ms: u64) -> (r: Self)
        ensures
            r.api_key@ == api_key@,
            r.base_url@ == embedding::without_slashes(base_url@),
            r.model@ == model@,
            r.timeout_ms == timeout_ms,
    {
        DocumentSummaryClient {
            api_key: api_key.to_owned(),
            base_url: trim_slashes(base_url),
            model: model.to_owned(),
            timeout_ms,
        }
    }

    /// The address that is asked.
    pub fn chat_completions_url(&self) -> (r: String)
        ensures
            r@ == embedding::endpoint_url(self.base_url@, "/chat/completions"@),
    {
        service_url(self.base_url.as_str(), "/chat/completions")
    }
}

#[derive(Debug)]
pub struct SummaryMessage {
    pub role: String,
    pub content: String,
}

/// What a model is asked. The temperature is always zero.
#[derive(Debug)]
pub struct SummaryRequest {
    pub model: String,
    pub messages: Vec<SummaryMessage>,
    pub max_tokens: u32,
}

pub const SUMMARY_INSTRUCTIONS: &'static str =
    "你是文档检索系统的摘要器。请只根据输入文档生成用于检索召回的摘要，不要编造。优先保留错误码、命令、服务名、产品名、英文缩写、日志短语、根因和处理动作。输出纯文本，不要 Markdown。";

/// What a model is asked for the summary of a document.
pub fn summary_request_body(model: &str, document_name: &str, content: &str) -> (r: SummaryRequest)
    ensures
        r.model@ == model@,
        r.max_tokens == SUMMARY_MAX_OUTPUT_TOKENS,
        r.messages@.len() == 2,
        r.messages@[0].role@ == "system"@,
        r.messages@[0].content@ == SUMMARY_INSTRUCTIONS@,
        r.messages@[1].role@ == "user"@,
        r.messages@[1].content@ == "文档名: "@ + document_name@ + "\n\n文档内容:\n"@ + content@,
{
    let mut question = "文档名: ".to_owned();
    question.append(document_name);
    question.append("\n\n文档内容:\n");
    question.append(content);
    let mut messages: Vec<SummaryMessage> = Vec::new();
    messages.push(
        SummaryMessage { role: "system".to_owned(), content: SUMMARY_INSTRUCTIONS.to_owned() },
    );
    messages.push(SummaryMessage { role: "user".to_owned(), content: question });
    SummaryRequest { model: model.to_owned(), messages, max_tokens: SUMMARY_MAX_OUTPUT_TOKENS }
}

/// The lines that say something, without the space around them.
pub open spec fn filled_lines(lines: Seq<Seq<char>>) -> Seq<Seq<char>>
    decreases lines.len(),
{
    if lines.len() == 0 {
        Seq::empty()
    } else if text::is_blank(lines.last()) {
        filled_lines(lines.drop_last())
    } else {
        filled_lines(lines.drop_last()).push(text::trimmed(lines.last()))
    }
}

pub open spec fn cleaned_summary(s: Seq<char>) -> Seq<char> {
    text::joined(filled_lines(text::lines_of(s)), "\n"@)
}

/// A summary without blank lines and without the space around its lines.
pub fn clean_summary_text(summary: &str) -> (r: String)
    ensures
        r@ == cleaned_summary(summary@),
{
    let lines = text_lines(summary);
    let ghost all = text::strings(lines@);
    let mut kept: Vec<String> = Vec::new();
    let mut i: usize = 0;
    assert(text::strings(kept@) =~= Seq::<Seq<char>>::empty());
    while i < lines.len()
        invariant
            i <= lines@.len(),
            all == text::strings(lines@),
            text::strings(kept@) == filled_lines(all.take(i as int)),
        decreases lines@.len() - i,
    {
        proof {
            assert(all.take(i + 1).drop_last() =~= all.take(i as int));
            assert(all.take(i + 1).last() == lines@[i as int]@);
        }
        let line = trim(lines[i].as_str());
        if !line.is_empty() {
            let ghost before = kept@;
            let line = line.to_owned();
            kept.push(line);
            proof {
                lemma_strings_push(before, line);
            }
        }
        i += 1;
    }
    assert(all.take(i as int) =~= all);
    join_texts(&kept, "\n")
}

/// What is shown of an answer that cannot be used.
pub fn preview_summary_body(body: &str) -> (r: String)
    ensures
        r@ == case_summary::truncated(body@, MAX_BODY_PREVIEW_CHARS as nat),
{
    truncate_chars(body, MAX_BODY_PREVIEW_CHARS)
}

/// The error that the status of an answer reports.
pub fn summary_status_error(status: &str, body: &str) -> (r: CaseError)
    ensures
        r.message@ == "document summary LLM returned HTTP "@ + status@ + ": "@
            + case_summary::truncated(body@, MAX_BODY_PREVIEW_CHARS as nat),
{
    let mut message = "document summary LLM returned HTTP ".to_owned();
    message.append(status);
    message.append(": ");
    let preview = preview_summary_body(body);
    message.append(preview.as_str());
    CaseError { message }
}

/// The error of an answer that cannot be read.
pub fn summary_decode_error(body: &str) -> (r: CaseError)
    ensures
        r.message@ == "failed to decode document summary LLM response: "@
            + case_summary::truncated(body@, MAX_BODY_PREVIEW_CHARS as nat),
{
    let mut message = "failed to decode document summary LLM response: ".to_owned();
    let preview = preview_summary_body(body);
    message.append(preview.as_str());
    CaseError { message }
}

/// The summary in the choices that a model gives: its first, cleaned.
pub open spec fn first_summary(choices: Seq<Seq<char>>) -> Seq<char> {
    if choices.len() == 0 {
        cleaned_summary(Seq::empty())
    } else {
        cleaned_summary(choices[0])
    }
}

/// The summary in the choices that a model gives.
pub fn read_summary(choices: &Vec<String>) -> (r: Result<String, CaseError>)
    ensures
        match r {
            Ok(s) => s@ == first_summary(text::strings(choices@)) && s@.len() > 0,
            Err(e) => first_summary(text::strings(choices@)).len() == 0 && e.message@
                == "document summary LLM returned empty content"@,
        },
{
    let summary = if choices.len() == 0 {
        let none = String::new();
        assert(none@ =~= Seq::<char>::empty());
        clean_summary_text(none.as_str())
    } else {
        assert(text::strings(choices@)[0] == choices@[0]@);
        clean_summary_text(choices[0].as_str())
    };
    if summary.as_str().is_empty() {
        return Err(CaseError::new("document summary LLM returned empty content"));
    }
    Ok(summary)
}

} // verus!
