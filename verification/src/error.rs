//! What can go wrong.

use vstd::prelude::*;
use vstd::string::*;

use crate::ident::{hyphenated, Uuid};

verus! {

/// Errors of the store.
#[derive(Debug)]
pub enum Error {
    /// The underlying storage refused an operation.
    Storage { message: String },
    /// The database file could not be opened at the requested path.
    OpenDatabase { path: String, message: String },
    /// A stored row holds data that cannot be interpreted. Indicates corruption
    /// or an out-of-sync schema, not a user error.
    CorruptRow { table: &'static str, detail: String },
    /// No thought has this identifier, or it has been deleted.
    NotFound { id: Uuid },
    /// The operation needs an embedder and none is attached.
    NoEmbedder,
    /// The embedder failed.
    Embedding { detail: String },
    /// The embedding model could not be loaded.
    ModelLoad { detail: String },
    /// The system clock stands before 1970 or beyond what 64 bits of
    /// milliseconds can express.
    Clock,
}

pub type Result<T> = std::result::Result<T, Error>;

/// The text of an error.
pub open spec fn error_text(e: Error) -> Seq<char> {
    match e {
        Error::Storage { message } => "storage error: "@ + message@,
        Error::OpenDatabase { path, message } => "could not open database at "@ + path@ + ": "@
            + message@,
        Error::CorruptRow { table, detail } => "corrupt row in `"@ + table@ + "`: "@ + detail@,
        Error::NotFound { id } => "no thought with id "@ + hyphenated(id@),
        Error::NoEmbedder => "no embedder is attached"@,
        Error::Embedding { detail } => "embedding failed: "@ + detail@,
        Error::ModelLoad { detail } => "could not load the embedding model: "@ + detail@,
        Error::Clock => "system clock is out of range"@,
    }
}

/// The two strings, one after the other.
pub(crate) fn joined(a: &str, b: &str) -> (out: String)
    ensures
        out@ == a@ + b@,
{
    let mut out = a.to_owned();
    out.append(b);
    out
}

impl Error {
    /// The text of the error.
    pub fn text(&self) -> (out: String)
        ensures
            out@ == error_text(*self),
    {
        match self {
            Error::Storage { message } => joined("storage error: ", message.as_str()),
            Error::OpenDatabase { path, message } => {
                let mut out = joined("could not open database at ", path.as_str());
                out.append(": ");
                out.append(message.as_str());
                out
            },
            Error::CorruptRow { table, detail } => {
                let mut out = joined("corrupt row in `", table);
                out.append("`: ");
                out.append(detail.as_str());
                out
            },
            Error::NotFound { id } => joined("no thought with id ", id.text().as_str()),
            Error::NoEmbedder => "no embedder is attached".to_owned(),
            Error::Embedding { detail } => joined("embedding failed: ", detail.as_str()),
            Error::ModelLoad { detail } => joined(
                "could not load the embedding model: ",
                detail.as_str(),
            ),
            Error::Clock => "system clock is out of range".to_owned(),
        }
    }
}

} // verus!
