//! Numbers and errors shared by every stage of the pipeline.

use vstd::prelude::*;

verus! {

/// A fixed-point real: the integer `n` stands for `n * 1e-8`.
///
/// Two numbers are the same value exactly when they are the same integer, so
/// a number is its own class key.
pub type Numeric = i64;

/// How many units make up the real number one.
pub const NUMERIC_SCALE: i64 = 100_000_000;

/// The tolerance of every comparison, one unit of the last digit.
pub const NUMERIC_DIGIT_PRECISION: Numeric = 1;

/// What can go wrong at the boundary of the core.
#[derive(Clone, Copy, Debug, PartialEq, Eq, Structural)]
pub enum PipelineError {
    /// A configuration value is unknown or unusable.
    InvalidConfig,
    /// A partitioner was given parameters it cannot work with.
    InvalidParams,
    /// No strategy, model, evaluator or stage goes by the given name.
    NotFound,
    /// Two sequences that must pair up have different lengths.
    ShapeMismatch,
    /// There is nothing to train on or to read from.
    EmptyInput,
    /// An index points outside a row or a table.
    OutOfBounds,
    /// The tuning grid holds no combination.
    NoCandidates,
    /// A text does not stand for a number, or the number does not fit.
    Numeric,
}

impl PipelineError {
    /// The kind of the error with a short explanation, for a one-line report.
    pub fn message(&self) -> (text: &'static str)
        ensures
            text@ == Self::message_of(*self),
    {
        match self {
            PipelineError::InvalidConfig => "InvalidConfig: unknown or unusable configuration",
            PipelineError::InvalidParams => "InvalidParams: unusable partitioner parameters",
            PipelineError::NotFound => "NotFound: nothing goes by that name",
            PipelineError::ShapeMismatch => "ShapeMismatch: lengths differ",
            PipelineError::EmptyInput => "EmptyInput: nothing to work on",
            PipelineError::OutOfBounds => "OutOfBounds: index outside the data",
            PipelineError::NoCandidates => "NoCandidates: the tuning grid is empty",
            PipelineError::Numeric => "Numeric: not a usable number",
        }
    }

    /// The text that `message` returns for `error`.
    pub open spec fn message_of(error: PipelineError) -> Seq<char> {
        match error {
            PipelineError::InvalidConfig => "InvalidConfig: unknown or unusable configuration"@,
            PipelineError::InvalidParams => "InvalidParams: unusable partitioner parameters"@,
            PipelineError::NotFound => "NotFound: nothing goes by that name"@,
            PipelineError::ShapeMismatch => "ShapeMismatch: lengths differ"@,
            PipelineError::EmptyInput => "EmptyInput: nothing to work on"@,
            PipelineError::OutOfBounds => "OutOfBounds: index outside the data"@,
            PipelineError::NoCandidates => "NoCandidates: the tuning grid is empty"@,
            PipelineError::Numeric => "Numeric: not a usable number"@,
        }
    }
}

} // verus!
