use vstd::prelude::*;

verus! {

/// Why a measurement description could not be evaluated.
#[derive(Debug, Clone, Copy, PartialEq, Eq, Structural)]
pub enum ErrorKind {
    /// A line starts with a character that no record kind uses.
    BadLineStart,
    /// A component names an unknown source code.
    BadSource,
    /// A component names an unknown distribution code.
    BadDistribution,
    /// A unit starts with a character that is no SI prefix.
    BadPrefix,
    /// A power of ten has no SI prefix.
    BadMagnitude,
    /// A Type A evaluation lists fewer than two readings.
    TooFewSamples,
    /// A numeric field is malformed or out of the representable range.
    BadNumber,
    /// An intermediate quantity exceeds the range of exact arithmetic.
    OutOfRange,
    /// A row lacks a required field.
    MissingField,
    /// The file holds no measurement header row.
    MissingHeader,
    /// The components combine to a zero uncertainty, which has no prefix band.
    ZeroUncertainty,
}

} // verus!
