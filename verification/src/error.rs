//! The library's errors.

use vstd::prelude::*;

verus! {

/// What went wrong.
#[derive(Debug)]
pub enum Error {
    /// A setting (e.g. of an operator) is out of its range.
    InvalidSetting {
        /// The name of the setting, e.g. `"tournament_size"`.
        setting: &'static str,
        /// Why it's invalid.
        reason: String,
    },
    /// A genome doesn't fit its representation, e.g. a permutation with a repeated gene.
    InvalidGenome {
        /// Why it's invalid.
        reason: String,
    },
    /// A fitness value is NaN.
    NanFitness,
    /// A fitness can't be, e.g. a negative constraint violation.
    InvalidFitness {
        /// Why it's invalid.
        reason: String,
    },
    /// A setting that has no default was not given, e.g. the population size.
    MissingSetting {
        /// The name of the setting.
        setting: &'static str,
    },
    /// Scores were told to an algorithm that asked for none.
    TellWithoutAsk,
    /// The number of scores told is not the number of solutions asked for.
    FitnessCount {
        /// The number asked for.
        expected: usize,
        /// The number told.
        got: usize,
    },
}

/// The library's `Result`.
pub type Result<T> = core::result::Result<T, Error>;

impl Error {
    /// Whether this is an [`Error::MissingSetting`] for `name`.
    pub open spec fn is_missing_setting(self, name: &'static str) -> bool {
        self matches Error::MissingSetting { setting } && setting@ == name@
    }

    /// Whether this is an [`Error::InvalidSetting`] for `name`.
    pub open spec fn is_invalid_setting(self, name: &'static str) -> bool {
        self matches Error::InvalidSetting { setting, .. } && setting@ == name@
    }
}

/// A reason made of a fixed text, as a `String`.
pub(crate) fn reason(text: &str) -> (r: String)
    ensures
        r@ == text@,
{
    let r = text.to_string();
    proof {
        vstd::string::to_string_from_display_ensures_for_str(text, r);
    }
    r
}

/// The reason for a count outside `low..=high` (formatted with `format!`).
#[verifier::external_body]
pub(crate) fn reason_between(low: usize, high: usize, got: usize) -> String {
    format!("must be between {low} and {high}, got {got}")
}

/// A reason made of a text and the count it's about (formatted with `format!`).
#[verifier::external_body]
pub(crate) fn reason_got(text: &str, got: usize) -> String {
    format!("{text}, got {got}")
}

/// A reason made of a text, a limit, the text after it and the count beyond it (formatted with
/// `format!`).
#[verifier::external_body]
pub(crate) fn reason_limit_got(text: &str, limit: usize, after: &str, got: usize) -> String {
    format!("{text} {limit}{after}, got {got}")
}

} // verus!
