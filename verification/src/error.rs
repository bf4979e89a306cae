//! The error taxonomy of the pipeline. Every stage fails fast: the first
//! error aborts the run, and each variant carries enough of the offending
//! input to diagnose it.

use vstd::prelude::*;

verus! {

/// An error of the data pipeline.
///
/// - `Transport`: a network or HTTP failure during a fetch (raised by the
///   unverified shell around the library, never by the library itself).
/// - `Decode`: a response body does not match the expected shape.
/// - `InvalidValue`: a metric field held a string other than the recognized
///   missing-value marker; carries that string.
/// - `NotFound`: a named resource is absent from a resource index; carries
///   the requested name.
/// - `MissingReference`: a fact row's code does not exist in its lookup
///   table; carries the code and the table's name.
/// - `InvalidYear`: a period label is not parseable as an unsigned integer
///   year; carries the label.
#[derive(Debug)]
pub enum PipelineError {
    Transport(String),
    Decode(String),
    InvalidValue(String),
    NotFound(String),
    MissingReference { code: String, table: String },
    InvalidYear(String),
}

impl PipelineError {
    /// A short machine-readable tag for the variant, usable by callers that
    /// only need to tell the kinds apart.
    pub fn kind(&self) -> (r: &'static str)
        ensures
            r@ == self.kind_spec(),
    {
        match self {
            PipelineError::Transport(_) => "transport",
            PipelineError::Decode(_) => "decode",
            PipelineError::InvalidValue(_) => "invalid value",
            PipelineError::NotFound(_) => "not found",
            PipelineError::MissingReference { .. } => "missing reference",
            PipelineError::InvalidYear(_) => "invalid year",
        }
    }

    /// The tag that `kind` returns, as a sequence of characters.
    pub open spec fn kind_spec(&self) -> Seq<char> {
        match self {
            PipelineError::Transport(_) => "transport"@,
            PipelineError::Decode(_) => "decode"@,
            PipelineError::InvalidValue(_) => "invalid value"@,
            PipelineError::NotFound(_) => "not found"@,
            PipelineError::MissingReference { .. } => "missing reference"@,
            PipelineError::InvalidYear(_) => "invalid year"@,
        }
    }
}

} // verus!
