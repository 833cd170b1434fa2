//! The two ways in which an operation on a parser fails.
use vstd::prelude::*;

verus! {

/// The error of a failed UTF-8 decoding, as the standard library reports it.
/// Nothing is known of what it holds.
#[verifier::external_type_specification]
#[verifier::external_body]
pub struct ExUtf8Error(core::str::Utf8Error);

/// Why an operation on the buffer or its cursor failed.
#[derive(Debug, Clone, Copy, PartialEq, Eq)]
pub enum IoErrorKind {
    /// A read asked for more bytes than lie between the cursor and the end.
    UnexpectedEof,
    /// A seek to a negative or unrepresentable position, or a write that
    /// would end beyond the largest buffer the machine can address.
    InvalidInput,
    /// A failure outside the buffer, such as one of the file system. No
    /// operation of this library reports it.
    Other,
}

/// The error of a parser operation.
#[derive(Debug, Clone, Copy, PartialEq, Eq)]
pub enum BinaryParserError {
    /// The buffer or its cursor could not serve the request.
    Io(IoErrorKind),
    /// Bytes that were read as a string are not valid UTF-8.
    Utf8(core::str::Utf8Error),
}

impl BinaryParserError {
    /// A short description of the error.
    pub fn message(&self) -> (text: String)
        ensures
            text@ == (match self {
                BinaryParserError::Io(_) => "IO error"@,
                BinaryParserError::Utf8(_) => "UTF8 parse error"@,
            }),
    {
        match self {
            BinaryParserError::Io(_) => "IO error".to_owned(),
            BinaryParserError::Utf8(_) => "UTF8 parse error".to_owned(),
        }
    }
}

} // verus!
