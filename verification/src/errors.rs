//! Error taxonomy of the pipeline. Every failure aborts the whole request:
//! no partial record is ever produced.
use vstd::prelude::*;

verus! {

/// The caption field whose range or shape check failed.
#[derive(Clone, Copy, Debug, PartialEq, Eq, Structural)]
pub enum DateField {
    Day,
    Year,
}

/// A pipeline failure.
#[derive(Clone, Copy, Debug, PartialEq, Eq, Structural)]
pub enum PipelineError {
    /// The expected document or caption structure is absent
    /// (a caption with fewer than six tokens, or no record where one is required).
    Parse,
    /// The document yielded a different number of download links than captions.
    Mismatch { links: usize, captions: usize },
    /// A day outside 1..=31, or a year that is not exactly four ASCII digits.
    Validation { field: DateField },
    /// A month name outside the twelve-entry table, in strict mode.
    UnknownMonth,
}

} // verus!
