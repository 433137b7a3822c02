//! The error every fallible library operation returns.

use vstd::prelude::*;

verus! {

/// The error of every fallible library operation. Each variant carries
/// the plain values that name what went wrong.
#[derive(Clone, Debug, PartialEq, Eq)]
pub enum JevError {
    /// HTTP transport failure (connect, timeout, malformed status line).
    Transport(String),
    /// The API key is missing or the server rejected it (401).
    Unauthorized,
    /// The API rejected the request body (422): invalid question shape.
    InvalidRequest(String),
    /// Rate limited (429) and retries are exhausted.
    RateLimited {
        /// Retry attempts made before giving up.
        retries: u32,
    },
    /// Service overloaded (529) and retries are exhausted.
    Overloaded {
        /// Retry attempts made before giving up.
        retries: u32,
    },
    /// An answer arrived for a question that was not asked.
    UnknownQuestion {
        /// The offending question id.
        id: String,
    },
    /// An option key that the question did not declare.
    UnknownOption {
        /// The offending option key.
        option: String,
        /// The question it arrived under.
        id: String,
    },
    /// An asked question received no answer.
    MissingAnswer {
        /// The question that went unanswered.
        id: String,
    },
    /// The answer's primitive type does not match the question's.
    AnswerTypeMismatch {
        /// The question id.
        id: String,
        /// What the question declared.
        expected: &'static str,
        /// What the answer contained.
        got: &'static str,
    },
    /// Runtime-supplied criteria were never provided.
    MissingCriteria {
        /// The question left unfilled.
        id: String,
    },
    /// A decision was built without a state payload.
    MissingState,
    /// An instruction backtick reference whose root segment is neither a
    /// serialized state key nor the question's own option/data key.
    DanglingStateRef {
        /// The question whose instructions carry the reference.
        question: String,
        /// The dangling reference token.
        reference: String,
    },
    /// Schema invariant violation (cardinality, duplicate ids, editor shape).
    Schema(String),
    /// An answer that is well-typed JSON but semantically wrong.
    MalformedAnswer {
        /// The question id.
        id: String,
        /// What precisely was wrong.
        detail: String,
    },
    /// The caller cancelled the evaluation.
    Cancelled,
}

/// A [`JevError`] with its strings read as character sequences: what
/// contracts compare errors by.
pub enum ErrorView {
    Transport(Seq<char>),
    Unauthorized,
    InvalidRequest(Seq<char>),
    RateLimited { retries: u32 },
    Overloaded { retries: u32 },
    UnknownQuestion { id: Seq<char> },
    UnknownOption { option: Seq<char>, id: Seq<char> },
    MissingAnswer { id: Seq<char> },
    AnswerTypeMismatch { id: Seq<char>, expected: Seq<char>, got: Seq<char> },
    MissingCriteria { id: Seq<char> },
    MissingState,
    DanglingStateRef { question: Seq<char>, reference: Seq<char> },
    Schema(Seq<char>),
    MalformedAnswer { id: Seq<char>, detail: Seq<char> },
    Cancelled,
}

impl View for JevError {
    type V = ErrorView;

    open spec fn view(&self) -> ErrorView {
        match self {
            JevError::Transport(m) => ErrorView::Transport(m@),
            JevError::Unauthorized => ErrorView::Unauthorized,
            JevError::InvalidRequest(m) => ErrorView::InvalidRequest(m@),
            JevError::RateLimited { retries } => ErrorView::RateLimited { retries: *retries },
            JevError::Overloaded { retries } => ErrorView::Overloaded { retries: *retries },
            JevError::UnknownQuestion { id } => ErrorView::UnknownQuestion { id: id@ },
            JevError::UnknownOption { option, id } => ErrorView::UnknownOption { option: option@, id: id@ },
            JevError::MissingAnswer { id } => ErrorView::MissingAnswer { id: id@ },
            JevError::AnswerTypeMismatch { id, expected, got } => ErrorView::AnswerTypeMismatch { id: id@, expected: expected@, got: got@ },
            JevError::MissingCriteria { id } => ErrorView::MissingCriteria { id: id@ },
            JevError::MissingState => ErrorView::MissingState,
            JevError::DanglingStateRef { question, reference } => ErrorView::DanglingStateRef { question: question@, reference: reference@ },
            JevError::Schema(m) => ErrorView::Schema(m@),
            JevError::MalformedAnswer { id, detail } => ErrorView::MalformedAnswer { id: id@, detail: detail@ },
            JevError::Cancelled => ErrorView::Cancelled,
        }
    }
}

/// Result alias used throughout the crate.
pub type JevResult<T> = Result<T, JevError>;

} // verus!
