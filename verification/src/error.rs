//! The errors this crate reports.

use vstd::prelude::*;

verus! {

/// What can go wrong when building or reading a document. No partial result
/// accompanies an error: a failed parse yields no value at all.
#[derive(Debug, Clone, Copy, PartialEq, Eq, Structural)]
pub enum JsonError {
    /// Malformed JSON text.
    Parse,
    /// Bytes that are not valid UTF-8.
    Encoding,
    /// A typed read asked for a shape the value does not have.
    TypeMismatch,
    /// An operation the design rules out, such as decoding into an enum.
    Unsupported,
    /// A reusable map was asked to parse while a borrow of it was still live.
    Misuse,
}

impl JsonError {
    /// A short description of the error.
    pub fn describe(&self) -> (r: &'static str)
        ensures
            r@.len() > 0,
    {
        let msg = match self {
            JsonError::Parse => "malformed JSON text",
            JsonError::Encoding => "invalid UTF-8",
            JsonError::TypeMismatch => "value has a different shape",
            JsonError::Unsupported => "operation not supported",
            JsonError::Misuse => "reusable map is already borrowed",
        };
        proof {
            reveal_strlit("malformed JSON text");
            reveal_strlit("invalid UTF-8");
            reveal_strlit("value has a different shape");
            reveal_strlit("operation not supported");
            reveal_strlit("reusable map is already borrowed");
        }
        msg
    }
}

} // verus!
