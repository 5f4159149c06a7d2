use adaptive_quadrature::double::Double;
use adaptive_quadrature::parameters::{validate, validate_with_points, FirstEstimate};
use adaptive_quadrature::status::{return_error, Status};

fn d(x: f64) -> Double {
    Double::from_bits(x.to_bits())
}

fn points(xs: &[f64]) -> Vec<Double> {
    xs.iter().map(|&x| d(x)).collect()
}

fn estimate(abserr: f64, resasc: f64, scaled: f64, roundoff: f64) -> FirstEstimate {
    FirstEstimate {
        result: d(1.0),
        abserr: d(abserr),
        resasc: d(resasc),
        scaled: d(scaled),
        roundoff: d(roundoff),
    }
}

#[test]
fn every_error_code_has_its_status() {
    assert_eq!(return_error(0), Status::Converged);
    assert_eq!(return_error(1), Status::IterationLimitReached);
    assert_eq!(return_error(2), Status::RoundoffLimited);
    assert_eq!(return_error(3), Status::RoundoffLimited);
    assert_eq!(return_error(4), Status::IntegrandSingular);
    assert_eq!(return_error(5), Status::ExtrapolationRoundoff);
    assert_eq!(return_error(6), Status::Divergent);
    assert_eq!(return_error(7), Status::GenericFailure);
    assert_eq!(return_error(-1), Status::GenericFailure);
    assert_eq!(return_error(i32::MAX), Status::GenericFailure);
    assert_eq!(return_error(i32::MIN), Status::GenericFailure);
}

#[test]
fn a_budget_within_the_capacity_and_reachable_tolerances_pass() {
    assert_eq!(validate(10, 10, d(1e-10), d(0.0)), None);
    assert_eq!(validate(10, 1, d(0.0), d(1e-10)), None);
    assert_eq!(validate(10, 0, d(1.0), d(1.0)), None);
}

#[test]
fn a_budget_above_the_capacity_is_invalid() {
    assert_eq!(validate(10, 11, d(1e-10), d(0.0)), Some(Status::InvalidParameter));
    assert_eq!(validate(10, 11, d(0.0), d(0.0)), Some(Status::InvalidParameter));
}

#[test]
fn the_relative_tolerance_alone_must_reach_fifty_epsilon() {
    let floor = 50.0 * f64::EPSILON;
    assert_eq!(validate(10, 10, d(0.0), d(0.0)), Some(Status::ToleranceUnreachable));
    assert_eq!(validate(10, 10, d(0.0), d(1e-14)), Some(Status::ToleranceUnreachable));
    assert_eq!(validate(10, 10, d(-1.0), d(1e-15)), Some(Status::ToleranceUnreachable));
    assert_eq!(validate(10, 10, d(0.0), d(-1.0)), Some(Status::ToleranceUnreachable));
    assert_eq!(validate(10, 10, d(-0.0), d(0.0)), Some(Status::ToleranceUnreachable));
    assert_eq!(validate(10, 10, d(0.0), d(floor)), None);
    assert_eq!(validate(10, 10, d(0.0), d(1.2e-14)), None);
    assert_eq!(validate(10, 10, d(5e-324), d(0.0)), None);
    assert_eq!(validate(10, 10, d(f64::NAN), d(0.0)), None);
    assert_eq!(validate(10, 10, d(0.0), d(f64::NAN)), None);
}

#[test]
fn points_must_fit_the_capacity_and_ascend() {
    assert_eq!(validate_with_points(10, 10, &points(&[0.0, 1.0, 2.0]), d(1e-10), d(0.0)), None);
    assert_eq!(validate_with_points(10, 10, &points(&[0.0, 1.0, 1.0, 2.0]), d(1e-10), d(0.0)), None);
    assert_eq!(validate_with_points(10, 10, &points(&[0.0]), d(1e-10), d(0.0)), None);
    assert_eq!(validate_with_points(10, 10, &points(&[]), d(1e-10), d(0.0)), None);
    assert_eq!(
        validate_with_points(10, 10, &points(&[0.0, 2.0, 1.0]), d(1e-10), d(0.0)),
        Some(Status::InvalidParameter)
    );
    assert_eq!(
        validate_with_points(10, 10, &points(&[0.0, 1.0, 2.0, 1.5]), d(1e-10), d(0.0)),
        Some(Status::InvalidParameter)
    );
    assert_eq!(
        validate_with_points(3, 3, &points(&[0.0, 1.0, 2.0, 3.0]), d(1e-10), d(0.0)),
        Some(Status::InvalidParameter)
    );
    assert_eq!(validate_with_points(3, 3, &points(&[0.0, 1.0, 2.0]), d(1e-10), d(0.0)), None);
    assert_eq!(
        validate_with_points(3, 4, &points(&[0.0, 1.0]), d(1e-10), d(0.0)),
        Some(Status::InvalidParameter)
    );
}

#[test]
fn the_tolerances_are_checked_before_the_order_of_the_points() {
    assert_eq!(
        validate_with_points(10, 10, &points(&[0.0, 2.0, 1.0]), d(0.0), d(0.0)),
        Some(Status::ToleranceUnreachable)
    );
    assert_eq!(
        validate_with_points(2, 10, &points(&[0.0, 2.0, 1.0]), d(0.0), d(0.0)),
        Some(Status::InvalidParameter)
    );
}

#[test]
fn an_error_at_the_level_of_round_off_above_the_tolerance_cannot_be_improved() {
    // tolerance: max(1e-12, 1e-13)
    let e = estimate(1e-10, 0.5, 1e-13, 1e-9);
    assert_eq!(e.test(d(1e-12), 100, true), Some(Status::RoundoffLimited));
    assert_eq!(e.test(d(1e-12), 100, false), Some(Status::RoundoffLimited));
    assert_eq!(e.test(d(1e-12), 1, true), Some(Status::RoundoffLimited));
}

#[test]
fn an_error_within_the_tolerance_has_converged() {
    let e = estimate(1e-10, 0.5, 1e-9, 1e-14);
    assert_eq!(e.test(d(0.0), 100, true), Some(Status::Converged));
    assert_eq!(e.test(d(0.0), 100, false), Some(Status::Converged));
    // the larger of the two tolerances counts
    let e = estimate(1e-10, 0.5, 1e-12, 1e-14);
    assert_eq!(e.test(d(1e-9), 100, true), Some(Status::Converged));
    assert_eq!(e.test(d(1e-11), 100, true), None);
}

#[test]
fn an_error_equal_to_resasc_is_not_trusted_over_one_range() {
    let e = estimate(1e-10, 1e-10, 1e-9, 1e-14);
    assert_eq!(e.test(d(0.0), 100, true), None);
    assert_eq!(e.test(d(0.0), 1, true), Some(Status::IterationLimitReached));
    assert_eq!(e.test(d(0.0), 100, false), Some(Status::Converged));
}

#[test]
fn an_error_of_zero_has_converged_over_one_range() {
    let e = estimate(0.0, 0.0, 1e-9, -1.0);
    assert_eq!(e.test(d(0.0), 100, true), Some(Status::Converged));
    // over several ranges the error must be within the tolerance
    let e = estimate(0.0, 0.0, f64::NAN, -1.0);
    assert_eq!(e.test(d(f64::NAN), 100, true), Some(Status::Converged));
    assert_eq!(e.test(d(f64::NAN), 100, false), None);
}

#[test]
fn a_budget_of_one_is_used_up_by_the_first_estimate() {
    let e = estimate(1e-3, 0.5, 1e-9, 1e-14);
    assert_eq!(e.test(d(1e-9), 1, true), Some(Status::IterationLimitReached));
    assert_eq!(e.test(d(1e-9), 1, false), Some(Status::IterationLimitReached));
    assert_eq!(e.test(d(1e-9), 2, true), None);
    assert_eq!(e.test(d(1e-9), 2, false), None);
}
