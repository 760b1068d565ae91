//! The fatal conditions of the pipeline.  Every stage reports them as a
//! result instead of terminating; only the outermost driver may abort.

use vstd::prelude::*;

verus! {

/// A dataset-integrity violation: the input dump or an intermediate file
/// breaks its assumed contract.  There is no partial-success mode.
#[derive(Clone, Copy, PartialEq, Eq, Structural, Debug)]
pub enum PipelineError {
    /// A record could not be decoded; the position is the byte offset
    /// reported by the scanner.
    MalformedRecord { position: u64 },
    /// The input ended before one whole record could be decoded.
    TruncatedRecord { position: u64 },
    /// A record carries a content license outside the allow-listed set.
    DisallowedLicense { position: u64 },
    /// A line of an intermediate file lacks the expected fields.
    MalformedLine { line: usize },
    /// A requested split ratio could not be read or sums to zero.
    BadSplitSpec,
}

} // verus!
