//! Errors of the RESP parser.
use vstd::prelude::*;
use vstd::string::*;

use crate::decimal::{decimal, signed_decimal};
use crate::text::{decimal_string, unsigned_decimal_string};

verus! {

/// The length announced in a RESP header.
pub type RESPLength = i32;

/// Why a RESP buffer could not be parsed.
#[derive(Debug, PartialEq, Eq, Structural)]
pub enum RESPError {
    FromUtf8,
    OutOfBounds(usize),
    Unknown,
    WrongType,
    IncorrectLength(RESPLength),
    ParseInt,
}

/// The result of a RESP parsing step.
pub type RESPResult<T> = Result<T, RESPError>;

/// The text that describes an error to a person.
pub open spec fn resp_error_message(e: RESPError) -> Seq<char> {
    match e {
        RESPError::FromUtf8 => "Cannot convert from UTF-8"@,
        RESPError::OutOfBounds(index) => "Out of bounds at index "@ + decimal(index as nat),
        RESPError::WrongType => "Wrong prefix for RESP type"@,
        RESPError::Unknown => "Unknown formate for RESP stirng"@,
        RESPError::IncorrectLength(length) => "Incorrect length "@ + signed_decimal(length as int),
        RESPError::ParseInt => "Cannot parse string into integer"@,
    }
}

impl RESPError {
    /// Describes the error to a person.
    pub fn message(&self) -> (r: String)
        ensures
            r@ == resp_error_message(*self),
    {
        match self {
            RESPError::FromUtf8 => String::from_str("Cannot convert from UTF-8"),
            RESPError::OutOfBounds(index) => {
                let mut s = String::from_str("Out of bounds at index ");
                let digits = unsigned_decimal_string(*index as u64);
                s.append(digits.as_str());
                s
            },
            RESPError::WrongType => String::from_str("Wrong prefix for RESP type"),
            RESPError::Unknown => String::from_str("Unknown formate for RESP stirng"),
            RESPError::IncorrectLength(length) => {
                let mut s = String::from_str("Incorrect length ");
                let digits = decimal_string(*length as i64);
                s.append(digits.as_str());
                s
            },
            RESPError::ParseInt => String::from_str("Cannot parse string into integer"),
        }
    }
}

} // verus!
