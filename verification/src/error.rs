//! The errors of the memory library.

use vstd::prelude::*;
use vstd::string::*;

verus! {

/// Why an operation on memories failed. The errors of the storage, the database
/// and the JSON reader are carried by their messages.
#[derive(Clone, Debug)]
pub enum MemoryError {
    InvalidInput { message: String },
    Embedding { message: String },
    Rerank { message: String },
    Extraction { message: String },
    Store { message: String },
    Sqlite { message: String },
    StoreBackend { message: String },
    Json { message: String },
}

pub type MemoryResult<T> = Result<T, MemoryError>;

/// What a [`MemoryError`] stands for.
pub enum MemoryErrorView {
    InvalidInput(Seq<char>),
    Embedding(Seq<char>),
    Rerank(Seq<char>),
    Extraction(Seq<char>),
    Store(Seq<char>),
    Sqlite(Seq<char>),
    StoreBackend(Seq<char>),
    Json(Seq<char>),
}

impl View for MemoryError {
    type V = MemoryErrorView;

    open spec fn view(&self) -> MemoryErrorView {
        match self {
            MemoryError::InvalidInput { message } => MemoryErrorView::InvalidInput(message@),
            MemoryError::Embedding { message } => MemoryErrorView::Embedding(message@),
            MemoryError::Rerank { message } => MemoryErrorView::Rerank(message@),
            MemoryError::Extraction { message } => MemoryErrorView::Extraction(message@),
            MemoryError::Store { message } => MemoryErrorView::Store(message@),
            MemoryError::Sqlite { message } => MemoryErrorView::Sqlite(message@),
            MemoryError::StoreBackend { message } => MemoryErrorView::StoreBackend(message@),
            MemoryError::Json { message } => MemoryErrorView::Json(message@),
        }
    }
}

/// The sentence that reports an error.
pub open spec fn error_sentence(e: MemoryErrorView) -> Seq<char> {
    match e {
        MemoryErrorView::InvalidInput(m) => "invalid input: "@ + m,
        MemoryErrorView::Embedding(m) => "embedding error: "@ + m,
        MemoryErrorView::Rerank(m) => "rerank error: "@ + m,
        MemoryErrorView::Extraction(m) => "extraction error: "@ + m,
        MemoryErrorView::Store(m) => "store error: "@ + m,
        MemoryErrorView::Sqlite(m) => "sqlite error: "@ + m,
        MemoryErrorView::StoreBackend(m) => "store backend error: "@ + m,
        MemoryErrorView::Json(m) => "json error: "@ + m,
    }
}

impl MemoryError {
    pub fn invalid_input(message: &str) -> (r: MemoryError)
        ensures
            r@ == MemoryErrorView::InvalidInput(message@),
    {
        MemoryError::InvalidInput { message: message.to_owned() }
    }

    pub fn embedding(message: &str) -> (r: MemoryError)
        ensures
            r@ == MemoryErrorView::Embedding(message@),
    {
        MemoryError::Embedding { message: message.to_owned() }
    }

    pub fn store_backend(message: &str) -> (r: MemoryError)
        ensures
            r@ == MemoryErrorView::StoreBackend(message@),
    {
        MemoryError::StoreBackend { message: message.to_owned() }
    }

    /// The sentence that reports the error.
    pub fn to_text(&self) -> (r: String)
        ensures
            r@ == error_sentence(self@),
    {
        let (lead, message) = match self {
            MemoryError::InvalidInput { message } => ("invalid input: ", message),
            MemoryError::Embedding { message } => ("embedding error: ", message),
            MemoryError::Rerank { message } => ("rerank error: ", message),
            MemoryError::Extraction { message } => ("extraction error: ", message),
            MemoryError::Store { message } => ("store error: ", message),
            MemoryError::Sqlite { message } => ("sqlite error: ", message),
            MemoryError::StoreBackend { message } => ("store backend error: ", message),
            MemoryError::Json { message } => ("json error: ", message),
        };
        let mut r = lead.to_owned();
        r.append(message.as_str());
        r
    }

    /// Whether a failed graph retrieval may succeed when it is tried again: a
    /// wrong request, a wrong backend and malformed JSON stay wrong.
    pub fn graph_retrieval_error_retriable(&self) -> (r: bool)
        ensures
            r == !(self@ is InvalidInput || self@ is StoreBackend || self@ is Json),
    {
        match self {
            MemoryError::InvalidInput { .. } => false,
            MemoryError::StoreBackend { .. } => false,
            MemoryError::Json { .. } => false,
            _ => true,
        }
    }
}

/// The sentence on an error says what kind of error it is and then what it reports.
pub proof fn sentences_name_the_kind(message: Seq<char>)
    ensures
        error_sentence(MemoryErrorView::InvalidInput(message)) == "invalid input: "@ + message,
        error_sentence(MemoryErrorView::Embedding(message)) == "embedding error: "@ + message,
        error_sentence(MemoryErrorView::Rerank(message)) == "rerank error: "@ + message,
        error_sentence(MemoryErrorView::Extraction(message)) == "extraction error: "@ + message,
        error_sentence(MemoryErrorView::Store(message)) == "store error: "@ + message,
        error_sentence(MemoryErrorView::Sqlite(message)) == "sqlite error: "@ + message,
        error_sentence(MemoryErrorView::StoreBackend(message)) == "store backend error: "@
            + message,
        error_sentence(MemoryErrorView::Json(message)) == "json error: "@ + message,
{
}

} // verus!
