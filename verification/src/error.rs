//! The positioned error that the parser reports: a 1-based line number, the
//! verbatim offending line, and a human-readable message. Parsing stops at
//! the first error; no recovery state is carried.
use vstd::prelude::*;

verus! {

/// A syntax or shape error raised while parsing ORT text.
#[derive(Debug)]
pub struct OrtError {
    /// 1-based number of the offending source line.
    pub line: usize,
    /// The verbatim text of the offending line.
    pub code: String,
    /// Human-readable description of what went wrong.
    pub message: String,
}

impl OrtError {
    /// Builds an error from its three parts, unchanged.
    pub fn new(line: usize, code: String, message: String) -> (r: Self)
        ensures
            r.line == line,
            r.code@ == code@,
            r.message@ == message@,
    {
        Self { line, code, message }
    }
}

pub type OrtResult<T> = Result<T, OrtError>;

} // verus!
