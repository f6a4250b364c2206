//! The failures that an operation can report.

use vstd::prelude::*;

verus! {

#[derive(Debug, Clone, Copy, PartialEq, Eq)]
pub enum Error {
    InvalidJsonb,
    InvalidJsonbHeader,
    InvalidJsonbJEntry,
    InvalidEOF,
    InvalidJson,
    InvalidJsonPath,
    InvalidJsonType,
    InvalidCast,
    InvalidNumber,
    InvalidObject,
    ObjectDuplicateKey,
}

impl Error {
    /// The name of the failure.
    pub fn message(&self) -> (r: &'static str)
        ensures
            r@ == self.message_spec()@,
    {
        match self {
            Error::InvalidJsonb => "invalid jsonb",
            Error::InvalidJsonbHeader => "invalid jsonb header",
            Error::InvalidJsonbJEntry => "invalid jsonb jentry",
            Error::InvalidEOF => "invalid eof",
            Error::InvalidJson => "invalid json",
            Error::InvalidJsonPath => "invalid json path",
            Error::InvalidJsonType => "invalid json type",
            Error::InvalidCast => "invalid cast",
            Error::InvalidNumber => "invalid number",
            Error::InvalidObject => "invalid object",
            Error::ObjectDuplicateKey => "object duplicate key",
        }
    }

    pub open spec fn message_spec(&self) -> &'static str {
        match self {
            Error::InvalidJsonb => "invalid jsonb",
            Error::InvalidJsonbHeader => "invalid jsonb header",
            Error::InvalidJsonbJEntry => "invalid jsonb jentry",
            Error::InvalidEOF => "invalid eof",
            Error::InvalidJson => "invalid json",
            Error::InvalidJsonPath => "invalid json path",
            Error::InvalidJsonType => "invalid json type",
            Error::InvalidCast => "invalid cast",
            Error::InvalidNumber => "invalid number",
            Error::InvalidObject => "invalid object",
            Error::ObjectDuplicateKey => "object duplicate key",
        }
    }
}

} // verus!
