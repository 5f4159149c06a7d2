//! How an integration run can end.

use vstd::prelude::*;

verus! {

/// The outcome of an integration run. Every outcome but the first two comes
/// with the best result and error estimate that the run has reached.
#[derive(Clone, Copy, Debug, PartialEq, Eq, Structural)]
pub enum Status {
    /// A parameter was rejected before the integrand was evaluated.
    InvalidParameter,
    /// The requested tolerances are below what the arithmetic can deliver.
    ToleranceUnreachable,
    /// The error estimate has reached the tolerance.
    Converged,
    /// Round-off error keeps the error estimate from falling.
    RoundoffLimited,
    /// A subinterval has become too small to bisect.
    IntegrandSingular,
    /// The budget of subintervals is used up.
    IterationLimitReached,
    /// The extrapolation table no longer improves the estimate.
    ExtrapolationRoundoff,
    /// The integral diverges, or converges too slowly to tell.
    Divergent,
    /// The run failed for none of the reasons above.
    GenericFailure,
}

/// The status that an error code of an extrapolating run stands for.
///
/// Code 0 is success and code 1 the exhausted budget. Codes 2 and 3 both stand
/// for round-off in the sum, 4 for a subinterval too small to bisect, 5 for
/// round-off in the extrapolation table, and 6 for divergence. Any other code
/// is a failure without a name.
pub open spec fn status_of(error_type: int) -> Status {
    if error_type == 0 {
        Status::Converged
    } else if error_type == 1 {
        Status::IterationLimitReached
    } else if error_type == 2 || error_type == 3 {
        Status::RoundoffLimited
    } else if error_type == 4 {
        Status::IntegrandSingular
    } else if error_type == 5 {
        Status::ExtrapolationRoundoff
    } else if error_type == 6 {
        Status::Divergent
    } else {
        Status::GenericFailure
    }
}

/// Maps the error code of an extrapolating run to its status.
pub fn return_error(error_type: i32) -> (status: Status)
    ensures
        status == status_of(error_type as int),
{
    let code: i32 = if error_type > 2 {
        error_type - 1
    } else {
        error_type
    };
    match code {
        0 => Status::Converged,
        1 => Status::IterationLimitReached,
        2 => Status::RoundoffLimited,
        3 => Status::IntegrandSingular,
        4 => Status::ExtrapolationRoundoff,
        5 => Status::Divergent,
        _ => Status::GenericFailure,
    }
}

} // verus!
