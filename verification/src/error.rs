//! What can go wrong at the command line.
use vstd::prelude::*;

verus! {

#[derive(Debug)]
pub enum DbError {
    KeyNotFound,
    InvalidCommand(String),
    /// The store failed, and said why.
    Io(String),
}

/// The same, as contracts speak of it.
pub enum ErrorView {
    KeyNotFound,
    InvalidCommand(Seq<char>),
    Io(Seq<char>),
}

impl View for DbError {
    type V = ErrorView;

    open spec fn view(&self) -> ErrorView {
        match *self {
            DbError::KeyNotFound => ErrorView::KeyNotFound,
            DbError::InvalidCommand(t) => ErrorView::InvalidCommand(t@),
            DbError::Io(t) => ErrorView::Io(t@),
        }
    }
}

impl DbError {
    /// The error in words.
    pub fn message(&self) -> (r: String)
        ensures
            r@ == (match self@ {
                ErrorView::KeyNotFound => "key not found"@,
                ErrorView::InvalidCommand(t) => "invalid command: "@ + t,
                ErrorView::Io(t) => "io error: "@ + t,
            }),
    {
        match self {
            DbError::KeyNotFound => "key not found".to_string(),
            DbError::InvalidCommand(t) => "invalid command: ".to_string().concat(t.as_str()),
            DbError::Io(t) => "io error: ".to_string().concat(t.as_str()),
        }
    }
}

pub type Result<T> = std::result::Result<T, DbError>;

/// What is shown of an error is what it holds.
pub proof fn errors_are_shown_whole(e: DbError)
    ensures
        e@ == (match e {
            DbError::KeyNotFound => ErrorView::KeyNotFound,
            DbError::InvalidCommand(t) => ErrorView::InvalidCommand(t@),
            DbError::Io(t) => ErrorView::Io(t@),
        }),
{
}

} // verus!
