use vstd::prelude::*;

verus! {

/// Failures of the cleanup pipeline and of surface ingestion. Every failure
/// is terminal for the current pipeline run; callers that read from a file
/// attach the offending path when reporting.
#[derive(Clone, Copy, PartialEq, Eq, Structural, Debug)]
pub enum MeshError {
    /// A degenerate element cannot be reduced without topological splitting
    /// (non-splitting resolver mode).
    UnsplittableDegeneracy,
    /// A degenerate element matches no entry of the collapse tables; it is
    /// reported rather than silently passed through or distorted.
    UnhandledDegeneracy,
    /// The file extension names a reader that does not exist.
    UnsupportedFormat,
    /// Surface text that does not follow the ingestion grammar.
    Malformed,
    /// Surface text that ends before the grammar is complete.
    Truncated,
    /// A parsed coordinate does not fit the fixed-point coordinate range.
    NumberOutOfRange,
}

} // verus!
