//! The ways in which a selector can refuse its input.

use vstd::prelude::*;

verus! {

/// Why a selector could not be built, reconfigured or run.
#[derive(Clone, Copy, Debug, PartialEq, Eq, Structural)]
pub enum StatfeedError {
    /// The list of options is empty, or a vector or matrix does not have one
    /// entry per decision and, within a decision, one per option.
    InvalidConfiguration,
    /// At some decision no option is both acceptable and of positive weight.
    NoAcceptableOption,
    /// Settling some decision would push a statistic beyond
    /// [`crate::fixed::STAT_LIMIT`].
    StatisticsOverflow,
}

} // verus!
