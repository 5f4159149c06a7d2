//! The checks that a run makes before it evaluates the integrand, and the
//! test of the first estimate.

use vstd::prelude::*;
use crate::arithmetic::{computes, times, yields, Estimate, Op};
use crate::double::Double;
use crate::status::Status;

verus! {

/// Bit pattern of fifty times the machine epsilon.
pub const RELATIVE_FLOOR_BITS: u64 = 0x3d09_0000_0000_0000;

/// Bit pattern of `0.5e-28`.
pub const RELATIVE_MINIMUM_BITS: u64 = 0x3a0f_b0f6_be50_6019;

/// The tolerances ask for more than the arithmetic can deliver: no absolute
/// tolerance above zero is given, and the relative one is below fifty times the
/// machine epsilon or below `0.5e-28`.
pub open spec fn tolerance_unreachable(epsabs: Double, epsrel: Double) -> bool {
    epsabs.le_spec(Double { bits: 0 }) && (epsrel.lt_spec(Double { bits: RELATIVE_FLOOR_BITS })
        || epsrel.lt_spec(Double { bits: RELATIVE_MINIMUM_BITS }))
}

/// Why a run with a budget of `limit` subintervals, in a workspace of the given
/// capacity, cannot start; `None` if it can.
pub open spec fn rejection(capacity: int, limit: int, epsabs: Double, epsrel: Double) -> Option<Status> {
    if limit > capacity {
        Some(Status::InvalidParameter)
    } else if tolerance_unreachable(epsabs, epsrel) {
        Some(Status::ToleranceUnreachable)
    } else {
        None
    }
}

/// Each point is at least the one before it.
pub open spec fn ascending(pts: Seq<Double>) -> bool {
    forall|i: int| 0 <= i < pts.len() - 1 ==> !(#[trigger] pts[i + 1]).lt_spec(pts[i])
}

/// Why a run over the ranges between the points `pts` cannot start; `None` if
/// it can.
pub open spec fn rejection_with_points(
    capacity: int,
    limit: int,
    pts: Seq<Double>,
    epsabs: Double,
    epsrel: Double,
) -> Option<Status> {
    if limit > capacity {
        Some(Status::InvalidParameter)
    } else if pts.len() > capacity {
        Some(Status::InvalidParameter)
    } else if tolerance_unreachable(epsabs, epsrel) {
        Some(Status::ToleranceUnreachable)
    } else if !ascending(pts) {
        Some(Status::InvalidParameter)
    } else {
        None
    }
}

/// Checks the parameters of a run over one range.
pub fn validate(capacity: usize, limit: usize, epsabs: Double, epsrel: Double) -> (r: Option<Status>)
    ensures
        r == rejection(capacity as int, limit as int, epsabs, epsrel),
{
    if limit > capacity {
        return Some(Status::InvalidParameter);
    }
    if epsabs.le(Double { bits: 0 }) && (epsrel.lt(Double { bits: RELATIVE_FLOOR_BITS }) || epsrel.lt(
        Double { bits: RELATIVE_MINIMUM_BITS },
    )) {
        return Some(Status::ToleranceUnreachable);
    }
    None
}

/// Checks the parameters of a run over the ranges between the points `pts`.
pub fn validate_with_points(
    capacity: usize,
    limit: usize,
    pts: &Vec<Double>,
    epsabs: Double,
    epsrel: Double,
) -> (r: Option<Status>)
    ensures
        r == rejection_with_points(capacity as int, limit as int, pts@, epsabs, epsrel),
{
    if limit > capacity {
        return Some(Status::InvalidParameter);
    }
    if pts.len() > capacity {
        return Some(Status::InvalidParameter);
    }
    if epsabs.le(Double { bits: 0 }) && (epsrel.lt(Double { bits: RELATIVE_FLOOR_BITS }) || epsrel.lt(
        Double { bits: RELATIVE_MINIMUM_BITS },
    )) {
        return Some(Status::ToleranceUnreachable);
    }
    let n: usize = pts.len();
    if n < 2 {
        return None;
    }
    let mut i: usize = 0;
    while i < n - 1
        invariant
            2 <= n == pts@.len(),
            i <= n - 1,
            limit <= capacity,
            n <= capacity,
            !tolerance_unreachable(epsabs, epsrel),
            forall|k: int| 0 <= k < i ==> !(#[trigger] pts@[k + 1]).lt_spec(pts@[k]),
        decreases n - i,
    {
        if pts[i + 1].lt(pts[i]) {
            assert(pts@[i as int + 1].lt_spec(pts@[i as int]));
            return Some(Status::InvalidParameter);
        }
        i += 1;
    }
    None
}

/// What the first estimate of a run is made of.
#[derive(Clone, Copy, Debug)]
pub struct FirstEstimate {
    /// Estimate of the integral over the whole range.
    pub result: Double,
    /// Estimate of its absolute error.
    pub abserr: Double,
    /// Estimate of the integral of the distance of the integrand from its mean.
    /// A run over several ranges has no such estimate and does not read it.
    pub resasc: Double,
    /// The relative tolerance times the magnitude of `result`.
    pub scaled: Double,
    /// The level of round-off: a multiple of the machine epsilon times the
    /// estimate of the integral of the magnitude of the integrand.
    pub roundoff: Double,
}

impl FirstEstimate {
    /// The first estimate is made of the estimate `e` of the rule: its result,
    /// error and `resasc` are those of `e`, `scaled` is `epsrel` times the
    /// magnitude of the result, and `roundoff` is `level` times `resabs`.
    pub open spec fn made_of<A: Fn(Op, Double, Double) -> Double>(
        self,
        arithmetic: A,
        e: Estimate,
        epsrel: Double,
        level: Double,
    ) -> bool {
        &&& self.result == e.result
        &&& self.abserr == e.abserr
        &&& self.resasc == e.resasc
        &&& yields(arithmetic, Op::Mul, epsrel, e.result.abs_spec(), self.scaled)
        &&& yields(arithmetic, Op::Mul, level, e.resabs, self.roundoff)
    }

    /// Makes the first estimate of a run of the estimate `e` of the rule over
    /// the whole range.
    pub fn of<A: Fn(Op, Double, Double) -> Double>(
        arithmetic: &A,
        e: &Estimate,
        epsrel: Double,
        level: Double,
    ) -> (first: FirstEstimate)
        requires
            computes(*arithmetic),
        ensures
            first.made_of(*arithmetic, *e, epsrel, level),
    {
        FirstEstimate {
            result: e.result,
            abserr: e.abserr,
            resasc: e.resasc,
            scaled: times(arithmetic, epsrel, e.result.abs()),
            roundoff: times(arithmetic, level, e.resabs),
        }
    }

    /// The tolerance that the first estimate is held to.
    pub open spec fn tolerance(self, epsabs: Double) -> Double {
        epsabs.max_spec(self.scaled)
    }

    /// How a run ends on its first estimate; `None` if it goes on to bisect.
    ///
    /// It ends as limited by round-off if the error is within the level of
    /// round-off and above the tolerance. It has converged if the error is within
    /// the tolerance; a run over one range (`single`) asks in addition that the
    /// error is not equal to `resasc`, and also accepts an error of zero. With a
    /// budget of one subinterval it has used up its budget.
    pub open spec fn verdict(self, epsabs: Double, limit: int, single: bool) -> Option<Status> {
        let tolerance = self.tolerance(epsabs);
        if self.abserr.le_spec(self.roundoff) && self.abserr.gt_spec(tolerance) {
            Some(Status::RoundoffLimited)
        } else if single && ((self.abserr.le_spec(tolerance) && self.abserr.ne_spec(self.resasc))
            || self.abserr.eq_spec(Double { bits: 0 })) {
            Some(Status::Converged)
        } else if !single && self.abserr.le_spec(tolerance) {
            Some(Status::Converged)
        } else if limit == 1 {
            Some(Status::IterationLimitReached)
        } else {
            None
        }
    }

    /// Tests the first estimate of a run.
    pub fn test(&self, epsabs: Double, limit: usize, single: bool) -> (r: Option<Status>)
        ensures
            r == self.verdict(epsabs, limit as int, single),
    {
        let tolerance = epsabs.max(self.scaled);
        if self.abserr.le(self.roundoff) && self.abserr.gt(tolerance) {
            Some(Status::RoundoffLimited)
        } else if single && ((self.abserr.le(tolerance) && self.abserr.ne(self.resasc)) || self.abserr.eq(
            Double { bits: 0 },
        )) {
            Some(Status::Converged)
        } else if !single && self.abserr.le(tolerance) {
            Some(Status::Converged)
        } else if limit == 1 {
            Some(Status::IterationLimitReached)
        } else {
            None
        }
    }
}

} // verus!
