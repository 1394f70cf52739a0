//! The closed set of fatal run errors.
//!
//! A skipped row is not an error: it is reported as a diagnostic and the
//! run continues. The errors here all abort the run before any tabular
//! output is produced.
use vstd::prelude::*;

verus! {

/// A fatal error of one run.
pub enum PipelineError {
    /// A transaction's date text is not a valid `YYYY-MM-DD` date.
    DateParseFailure { date: String },
    /// The tabular source cannot be opened or holds no readable sheet.
    SourceUnavailable { message: String },
    /// The output destination cannot be opened or written.
    SinkFailure { message: String },
}

/// The human-readable description of a fatal error.
pub open spec fn error_message(e: PipelineError) -> Seq<char> {
    match e {
        PipelineError::DateParseFailure { date } => ("could not parse date: ")@ + date@,
        PipelineError::SourceUnavailable { message } => ("could not read source: ")@ + message@,
        PipelineError::SinkFailure { message } => ("could not write output: ")@ + message@,
    }
}

impl PipelineError {
    /// Renders the error for reporting.
    pub fn message(&self) -> (r: String)
        ensures
            r@ == error_message(*self),
    {
        match self {
            PipelineError::DateParseFailure { date } => {
                let mut m = String::from_str("could not parse date: ");
                m.append(date.as_str());
                proof {
                    assert(m@ =~= error_message(*self));
                }
                m
            },
            PipelineError::SourceUnavailable { message } => {
                let mut m = String::from_str("could not read source: ");
                m.append(message.as_str());
                proof {
                    assert(m@ =~= error_message(*self));
                }
                m
            },
            PipelineError::SinkFailure { message } => {
                let mut m = String::from_str("could not write output: ");
                m.append(message.as_str());
                proof {
                    assert(m@ =~= error_message(*self));
                }
                m
            },
        }
    }
}

} // verus!
