use vstd::prelude::*;
use vstd::string::StringExecFns;

verus! {

/// The ways a store operation can fail.
#[derive(Debug, Clone)]
pub enum ApiError {
    /// No record has the queried title.
    NotFound,
    /// A record with the same title is already stored; nothing was written.
    AlreadyExists,
    /// Writing the document reported zero bytes written.
    FailedSaving,
    /// The backing file could not be opened, read or written; holds the cause.
    Io(String),
    /// The backing document is not a well-formed collection.
    Parse,
}

impl ApiError {
    /// The HTTP status that reports this error.
    pub fn status_code(&self) -> (r: u16)
        ensures
            r == match self {
                ApiError::NotFound => 404u16,
                ApiError::AlreadyExists => 400u16,
                _ => 500u16,
            },
    {
        match self {
            ApiError::NotFound => 404,
            ApiError::AlreadyExists => 400,
            _ => 500,
        }
    }

    /// The message sent with the status; an I/O failure reports its cause.
    pub fn message(&self) -> (r: String)
        ensures
            r@ == match self {
                ApiError::NotFound => "Entry not found"@,
                ApiError::AlreadyExists => "The item with the same title already exists"@,
                ApiError::Io(cause) => cause@,
                _ => "Internal server error"@,
            },
    {
        match self {
            ApiError::NotFound => String::from_str("Entry not found"),
            ApiError::AlreadyExists => String::from_str("The item with the same title already exists"),
            ApiError::Io(cause) => cause.clone(),
            _ => String::from_str("Internal server error"),
        }
    }
}

} // verus!
