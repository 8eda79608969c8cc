//! Errors of the storage commands.
use vstd::prelude::*;
use vstd::string::*;

verus! {

/// Why a request or a command was refused.
#[derive(Debug, PartialEq)]
pub enum StorageError {
    IncorrectRequest,
    CommandNotAvailable(String),
    CommandInternalError(String),
    CommandSyntaxError(String),
}

/// The content of a storage error, with its text as characters.
pub enum StorageErrorView {
    IncorrectRequest,
    CommandNotAvailable(Seq<char>),
    CommandInternalError(Seq<char>),
    CommandSyntaxError(Seq<char>),
}

impl View for StorageError {
    type V = StorageErrorView;

    open spec fn view(&self) -> StorageErrorView {
        match self {
            StorageError::IncorrectRequest => StorageErrorView::IncorrectRequest,
            StorageError::CommandNotAvailable(c) => StorageErrorView::CommandNotAvailable(c@),
            StorageError::CommandInternalError(c) => StorageErrorView::CommandInternalError(c@),
            StorageError::CommandSyntaxError(c) => StorageErrorView::CommandSyntaxError(c@),
        }
    }
}

/// The result of a storage command.
pub type StorageResult<T> = Result<T, StorageError>;

/// The text that describes a storage error to a person.
pub open spec fn storage_error_message(e: StorageErrorView) -> Seq<char> {
    match e {
        StorageErrorView::IncorrectRequest => "The client sent an incorrect request!"@,
        StorageErrorView::CommandNotAvailable(c) => "The request command "@ + c
            + " is not available!"@,
        StorageErrorView::CommandInternalError(c) => "Internal error while processing "@ + c
            + "!"@,
        StorageErrorView::CommandSyntaxError(c) => "Syntax error while processing "@ + c + "!"@,
    }
}

impl StorageError {
    /// Describes the error to a person.
    pub fn message(&self) -> (r: String)
        ensures
            r@ == storage_error_message(self@),
    {
        match self {
            StorageError::IncorrectRequest => String::from_str("The client sent an incorrect request!"),
            StorageError::CommandNotAvailable(c) => {
                let mut s = String::from_str("The request command ");
                s.append(c.as_str());
                s.append(" is not available!");
                s
            },
            StorageError::CommandInternalError(c) => {
                let mut s = String::from_str("Internal error while processing ");
                s.append(c.as_str());
                s.append("!");
                s
            },
            StorageError::CommandSyntaxError(c) => {
                let mut s = String::from_str("Syntax error while processing ");
                s.append(c.as_str());
                s.append("!");
                s
            },
        }
    }
}

} // verus!
