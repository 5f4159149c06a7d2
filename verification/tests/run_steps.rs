use adaptive_quadrature::double::Double;
use adaptive_quadrature::parameters::FirstEstimate;
use adaptive_quadrature::qag::{Bisection, PlainRun};
use adaptive_quadrature::qagp::{seed, Piece};
use adaptive_quadrature::qags::{Closing, Extrapolation, ExtrapolatedRun, LargeIntervals, Next, Verdict};
use adaptive_quadrature::status::Status;
use adaptive_quadrature::table::ExtrapolationTable;
use adaptive_quadrature::workspace::IntegrationWorkspace;

fn d(x: f64) -> Double {
    Double::from_bits(x.to_bits())
}

fn f(x: Double) -> f64 {
    f64::from_bits(x.to_bits())
}

fn first(result: f64, abserr: f64, scaled: f64) -> FirstEstimate {
    FirstEstimate {
        result: d(result),
        abserr: d(abserr),
        resasc: d(0.5),
        scaled: d(scaled),
        roundoff: d(0.0),
    }
}

fn workspace(limit: u64, result: f64, abserr: f64) -> IntegrationWorkspace {
    let mut ws = IntegrationWorkspace::new(limit).unwrap();
    ws.initialise(d(0.0), d(1.0));
    ws.set_initial_result(d(result), d(abserr));
    ws
}

/// A report on the bisection of the current subinterval into halves with the
/// errors `error1` and `error2`, which do not stagnate, are reliable, and are
/// not too small; `errsum` is the new sum of errors and `scaled` the tolerance.
fn halves(ws: &IntegrationWorkspace, error1: f64, error2: f64, errsum: f64, scaled: f64) -> Bisection {
    let (mut a, mut b, mut r, mut e) = (d(0.0), d(0.0), d(0.0), d(0.0));
    ws.retrieve(&mut a, &mut b, &mut r, &mut e);
    let (a, b, r) = (f(a), f(b), f(r));
    let mid = 0.5 * (a + b);
    Bisection {
        mid: d(mid),
        area1: d(0.5 * r),
        error1: d(error1),
        resasc1: d(error1 + 1.0),
        area2: d(0.5 * r),
        error2: d(error2),
        resasc2: d(error2 + 1.0),
        area12: d(r),
        error12: d(error1 + error2),
        errsum: d(errsum),
        area: d(1.0),
        scaled: d(scaled),
        delta: d(0.0),
        delta_bound: d(-1.0),
        error_floor: d(0.0),
        small: d(-1.0),
    }
}

#[test]
fn a_plain_run_starts_with_the_first_estimate() {
    let run = PlainRun::start(d(1e-3), 7, &first(1.0, 0.5, 1e-2));
    assert_eq!(run.limit, 7);
    assert_eq!(run.iteration, 1);
    assert_eq!(run.roundoff_type1, 0);
    assert_eq!(run.roundoff_type2, 0);
    assert_eq!(run.error_type, 0);
    assert_eq!(f(run.errsum), 0.5);
    assert_eq!(f(run.tolerance), 1e-2);
    assert_eq!(f(run.epsabs), 1e-3);
    // a run that has not reached the tolerance, has met no error and has budget
    // left has no better status than failure
    assert_eq!(run.status(), Status::GenericFailure);
}

#[test]
fn a_plain_run_goes_on_until_the_error_is_within_the_tolerance() {
    let mut ws = workspace(10, 1.0, 0.5);
    let mut run = PlainRun::start(d(1e-3), 10, &first(1.0, 0.5, 1e-2));
    let m = halves(&ws, 0.2, 0.1, 0.3, 1e-2);
    assert!(run.bisect(&mut ws, &m));
    assert_eq!(run.iteration, 2);
    assert_eq!(ws.size(), 2);
    assert_eq!(f(run.errsum), 0.3);
    assert_eq!(f(run.tolerance), 1e-2);
    let m = halves(&ws, 0.004, 0.003, 0.007, 1e-4);
    assert!(run.bisect(&mut ws, &m));
    assert_eq!(f(run.tolerance), 1e-3);
    let m = halves(&ws, 0.0004, 0.0003, 0.001, 1e-4);
    assert!(!run.bisect(&mut ws, &m));
    assert_eq!(run.iteration, 4);
    assert_eq!(ws.size(), 4);
    assert_eq!(run.error_type, 0);
    assert_eq!(run.status(), Status::Converged);
}

#[test]
fn a_plain_run_stops_when_its_budget_is_used_up() {
    let mut ws = workspace(10, 1.0, 0.5);
    let mut run = PlainRun::start(d(1e-3), 3, &first(1.0, 0.5, 0.0));
    let m = halves(&ws, 0.2, 0.1, 0.3, 0.0);
    assert!(run.bisect(&mut ws, &m));
    let m = halves(&ws, 0.1, 0.1, 0.3, 0.0);
    assert!(!run.bisect(&mut ws, &m));
    assert_eq!(run.iteration, 3);
    assert_eq!(ws.size(), 3);
    assert_eq!(run.status(), Status::IterationLimitReached);
}

#[test]
fn six_stagnating_bisections_end_a_plain_run() {
    let mut ws = workspace(100, 1.0, 1.0);
    let mut run = PlainRun::start(d(1e-3), 100, &first(1.0, 1.0, 0.0));
    for k in 1..=6 {
        let mut m = halves(&ws, 0.3, 0.3, 1.0, 0.0);
        m.delta = d(-0.5);
        m.delta_bound = d(0.5);
        m.error_floor = d(0.6);
        let more = run.bisect(&mut ws, &m);
        assert_eq!(run.roundoff_type1, k);
        assert_eq!(more, k < 6);
    }
    assert_eq!(run.roundoff_type2, 0);
    assert_eq!(run.error_type, 2);
    assert_eq!(run.status(), Status::RoundoffLimited);
}

#[test]
fn halves_do_not_stagnate_if_they_change_the_estimate_or_lower_the_error() {
    let mut ws = workspace(100, 1.0, 1.0);
    let mut run = PlainRun::start(d(1e-3), 100, &first(1.0, 1.0, 0.0));
    let mut m = halves(&ws, 0.3, 0.3, 1.0, 0.0);
    m.delta = d(0.5000001);
    m.delta_bound = d(0.5);
    m.error_floor = d(0.6);
    assert!(run.bisect(&mut ws, &m));
    assert_eq!(run.roundoff_type1, 0);
    let mut m = halves(&ws, 0.3, 0.3, 1.0, 0.0);
    m.delta = d(0.5);
    m.delta_bound = d(0.5);
    m.error_floor = d(0.6000001);
    assert!(run.bisect(&mut ws, &m));
    assert_eq!(run.roundoff_type1, 0);
    // nor do halves whose error is no more than resasc
    let mut m = halves(&ws, 0.3, 0.3, 1.0, 0.0);
    m.delta_bound = d(0.5);
    m.resasc2 = d(0.3);
    assert!(run.bisect(&mut ws, &m));
    assert_eq!(run.roundoff_type1, 0);
    let mut m = halves(&ws, 0.3, 0.3, 1.0, 0.0);
    m.delta_bound = d(0.5);
    assert!(run.bisect(&mut ws, &m));
    assert_eq!(run.roundoff_type1, 1);
}

#[test]
fn twenty_late_bisections_that_raise_the_error_end_a_plain_run() {
    let mut ws = workspace(100, 1.0, 1.0);
    let mut run = PlainRun::start(d(1e-3), 100, &first(1.0, 1.0, 0.0));
    for k in 1..=29 {
        let error = 2.0 + k as f64;
        let m = halves(&ws, error, error, 1.0, 0.0);
        let more = run.bisect(&mut ws, &m);
        assert_eq!(run.roundoff_type2, if k < 10 { 0 } else { k - 9 });
        assert_eq!(more, k < 29);
    }
    assert_eq!(run.roundoff_type1, 0);
    assert_eq!(run.error_type, 2);
    assert_eq!(run.status(), Status::RoundoffLimited);
}

#[test]
fn a_subinterval_too_small_to_bisect_ends_a_plain_run() {
    let mut ws = workspace(100, 1.0, 1.0);
    let mut run = PlainRun::start(d(1e-3), 100, &first(1.0, 1.0, 0.0));
    let mut m = halves(&ws, 0.3, 0.3, 1.0, 0.0);
    m.small = d(1.0);
    assert!(!run.bisect(&mut ws, &m));
    assert_eq!(run.error_type, 3);
    assert_eq!(run.status(), Status::IntegrandSingular);
    // below the tolerance it does not matter
    let mut ws = workspace(100, 1.0, 1.0);
    let mut run = PlainRun::start(d(1e-3), 100, &first(1.0, 1.0, 0.0));
    let mut m = halves(&ws, 0.3, 0.3, 1e-4, 0.0);
    m.small = d(1.0);
    assert!(!run.bisect(&mut ws, &m));
    assert_eq!(run.error_type, 0);
    assert_eq!(run.status(), Status::Converged);
    // the bounds are compared by magnitude
    let mut ws = workspace(100, 1.0, 1.0);
    let mut run = PlainRun::start(d(1e-3), 100, &first(1.0, 1.0, 0.0));
    let mut m = halves(&ws, 0.3, 0.3, 1.0, 0.0);
    m.small = d(0.999);
    assert!(run.bisect(&mut ws, &m));
}

#[test]
fn an_extrapolating_run_starts_with_the_first_estimate_in_the_table() {
    let mut table = ExtrapolationTable::new();
    table.append(d(42.0));
    let run = ExtrapolatedRun::start(d(1e-3), 10, &first(-2.0, 0.5, 1e-2), d(1.5), &mut table);
    assert_eq!(table.len(), 1);
    assert_eq!(table.passes(), 0);
    assert_eq!(f(table.entry(0)), -2.0);
    assert!(!run.seeded);
    assert_eq!(run.intervals, 1);
    assert_eq!(run.limit, 10);
    assert_eq!(run.iteration, 1);
    assert_eq!((run.roundoff_type1, run.roundoff_type2, run.roundoff_type3), (0, 0, 0));
    assert_eq!(run.error_type, 0);
    assert!(!run.error_type2);
    assert!(!run.extrapolate);
    assert!(!run.disallow_extrapolation);
    assert_eq!(run.ktmin, 0);
    assert!(run.positive_integrand);
    assert_eq!(f(run.area), -2.0);
    assert_eq!(f(run.errsum), 0.5);
    assert_eq!(f(run.tolerance), 1e-2);
    assert_eq!(f(run.res_ext), -2.0);
    assert_eq!(f(run.err_ext), f64::MAX);
    let run = ExtrapolatedRun::start(d(1e-3), 10, &first(-2.0, 0.5, 1e-2), d(2.5), &mut table);
    assert!(!run.positive_integrand);
}

#[test]
fn a_seeded_run_starts_one_iteration_short_of_its_ranges() {
    let mut table = ExtrapolationTable::new();
    let run = ExtrapolatedRun::start_seeded(d(1e-3), 10, 4, &first(3.0, 0.5, 1e-2), d(0.75), d(2.0), &mut table);
    assert!(run.seeded);
    assert_eq!(run.intervals, 4);
    assert_eq!(run.iteration, 3);
    assert_eq!(f(run.errsum), 0.75);
    assert_eq!(f(run.error_over_large_intervals), 0.75);
    assert_eq!(f(run.ertest), 1e-2);
    assert_eq!(f(run.tolerance), 1e-2);
    assert_eq!(f(run.area), 3.0);
    assert_eq!(f(run.err_ext), f64::MAX);
    assert_eq!(table.len(), 1);
    assert_eq!(f(table.entry(0)), 3.0);
}

fn large(without_parent: f64, with_halves: f64) -> LargeIntervals {
    LargeIntervals { without_parent: d(without_parent), with_halves: d(with_halves) }
}

/// A run over one range after two bisections, the second of which has made
/// the run turn to the larger subintervals.
fn turned() -> (ExtrapolatedRun, IntegrationWorkspace, ExtrapolationTable) {
    let mut ws = workspace(20, 1.0, 1.0);
    let mut table = ExtrapolationTable::new();
    let mut run = ExtrapolatedRun::start(d(0.0), 20, &first(1.0, 1.0, 1e-3), d(0.5), &mut table);
    let mut m = halves(&ws, 0.5, 0.1, 0.6, 1e-3);
    m.area = d(1.25);
    assert_eq!(run.after_bisection(&mut ws, &mut table, &m, &large(7.0, 8.0)), Next::Bisect);
    assert_eq!(run.iteration, 2);
    assert_eq!(f(run.error_over_large_intervals), 0.6);
    assert_eq!(f(run.ertest), 1e-3);
    assert_eq!(table.len(), 2);
    assert_eq!(f(table.entry(1)), 1.25);
    assert!(!run.extrapolate);
    let mut m = halves(&ws, 0.3, 0.05, 0.45, 1e-3);
    m.area = d(1.5);
    // the halves are among the smallest subintervals, and so is the current one
    assert_eq!(run.after_bisection(&mut ws, &mut table, &m, &large(0.25, 0.5)), Next::Bisect);
    assert_eq!(run.iteration, 3);
    assert_eq!(f(run.error_over_large_intervals), 0.25);
    assert!(run.extrapolate);
    assert_eq!(ws.nrmax(), 1);
    assert_eq!(ws.current(), 1);
    assert_eq!(table.len(), 2);
    (run, ws, table)
}

#[test]
fn a_run_turns_to_the_larger_subintervals_when_the_current_one_is_smallest() {
    turned();
}

#[test]
fn a_run_goes_on_bisecting_while_the_current_subinterval_is_large() {
    let mut ws = workspace(20, 1.0, 1.0);
    let mut table = ExtrapolationTable::new();
    let mut run = ExtrapolatedRun::start(d(0.0), 20, &first(1.0, 1.0, 1e-3), d(0.5), &mut table);
    let m = halves(&ws, 0.5, 0.4, 0.9, 1e-3);
    assert_eq!(run.after_bisection(&mut ws, &mut table, &m, &large(7.0, 8.0)), Next::Bisect);
    // the lower half is bisected; the upper half, now at the head, is larger
    let m = halves(&ws, 0.1, 0.05, 0.55, 1e-3);
    assert_eq!(run.after_bisection(&mut ws, &mut table, &m, &large(0.25, 0.5)), Next::Bisect);
    assert_eq!(ws.current(), 1);
    assert!(!run.extrapolate);
    assert_eq!(ws.nrmax(), 0);
    assert_eq!(f(run.error_over_large_intervals), 0.25);
}

#[test]
fn the_error_of_halves_above_the_deepest_level_counts_as_large() {
    let pieces: Vec<Piece> = [1.0, 0.9]
        .iter()
        .enumerate()
        .map(|(k, &e)| Piece { a: d(k as f64), b: d(k as f64 + 1.0), result: d(1.0), error: d(e), resasc: d(0.5) })
        .collect();
    let mut ws = IntegrationWorkspace::new(100).unwrap();
    seed(&mut ws, &pieces, d(1.9));
    let mut table = ExtrapolationTable::new();
    let mut run = ExtrapolatedRun::start_seeded(d(0.0), 100, 2, &first(2.0, 1.9, 1e-3), d(1.9), d(0.5), &mut table);
    // the first range is bisected twice, without any extrapolation
    run.disallow_extrapolation = true;
    let m = halves(&ws, 0.95, 0.1, 1.95, 1e-3);
    assert_eq!(run.after_bisection(&mut ws, &mut table, &m, &large(7.0, 8.0)), Next::Bisect);
    assert_eq!(ws.current(), 0);
    let m = halves(&ws, 0.2, 0.1, 1.3, 1e-3);
    assert_eq!(run.after_bisection(&mut ws, &mut table, &m, &large(7.0, 8.0)), Next::Bisect);
    assert_eq!(ws.maximum_level(), 2);
    assert_eq!(f(run.error_over_large_intervals), 1.9);
    // the second range is at the head; its halves are at level 1
    run.disallow_extrapolation = false;
    assert_eq!(ws.current(), 1);
    let m = halves(&ws, 0.3, 0.2, 0.9, 1e-3);
    assert_eq!(run.after_bisection(&mut ws, &mut table, &m, &large(0.125, 0.375)), Next::Bisect);
    assert_eq!(f(run.error_over_large_intervals), 0.375);
    assert!(!run.extrapolate);
    assert_eq!(ws.current(), 1);
}

#[test]
fn a_pass_is_due_when_no_larger_subinterval_is_left() {
    let (mut run, mut ws, mut table) = turned();
    let mut m = halves(&ws, 0.04, 0.03, 0.42, 1e-3);
    m.area = d(1.75);
    assert_eq!(run.after_bisection(&mut ws, &mut table, &m, &large(0.15, 0.22)), Next::Extrapolate);
    assert_eq!(run.iteration, 4);
    assert_eq!(ws.size(), 4);
    assert_eq!(f(run.error_over_large_intervals), 0.15);
    assert_eq!(ws.nrmax(), 4);
    assert_eq!(ws.current(), 3);
    assert_eq!(table.len(), 3);
    assert_eq!(f(table.entry(2)), 1.75);
    assert!(run.extrapolate);

    // the pass improves on the best result but not to within the tolerance
    let x = Extrapolation { reseps: d(2.0), abseps: d(0.125), stall_bound: d(1.0), scaled: d(1e-2) };
    assert_eq!(run.after_extrapolation(&mut ws, &table, &x), Next::Bisect);
    assert_eq!(f(run.res_ext), 2.0);
    assert_eq!(f(run.err_ext), 0.125);
    assert_eq!(f(run.correc), 0.15);
    assert_eq!(f(run.ertest), 1e-2);
    assert_eq!(run.ktmin, 0);
    assert_eq!(run.error_type, 0);
    assert!(!run.extrapolate);
    assert!(!run.disallow_extrapolation);
    assert_eq!(f(run.error_over_large_intervals), 0.42);
    assert_eq!(ws.nrmax(), 0);
    assert_eq!(ws.current(), ws.order_at(0));
}

#[test]
fn a_pass_is_due_when_the_error_over_the_larger_subintervals_is_small() {
    let (mut run, mut ws, mut table) = turned();
    let m = halves(&ws, 0.04, 0.03, 0.42, 1e-3);
    assert_eq!(run.after_bisection(&mut ws, &mut table, &m, &large(1e-4, 0.22)), Next::Extrapolate);
    // the cursor stays where the reordering has left it
    assert_eq!(ws.nrmax(), 1);
    assert_eq!(table.len(), 3);
}

#[test]
fn a_pass_within_its_tolerance_ends_the_loop() {
    let (mut run, mut ws, mut table) = turned();
    let m = halves(&ws, 0.04, 0.03, 0.42, 1e-3);
    assert_eq!(run.after_bisection(&mut ws, &mut table, &m, &large(0.15, 0.22)), Next::Extrapolate);
    let x = Extrapolation { reseps: d(2.0), abseps: d(1e-3), stall_bound: d(1.0), scaled: d(1e-2) };
    assert_eq!(run.after_extrapolation(&mut ws, &table, &x), Next::Conclude);
    assert_eq!(f(run.res_ext), 2.0);
    assert_eq!(f(run.err_ext), 1e-3);
    assert!(run.extrapolate);
    assert_eq!(ws.nrmax(), 4);
    let c = Closing {
        corrected: d(0.0),
        relative_extrapolated: d(0.0),
        relative_corrected: d(0.0),
        relative_summed: d(0.0),
        divergence_floor: d(0.0),
        ratio: d(1.0),
    };
    assert_eq!(run.conclude(&c), Verdict { extrapolated: true, status: Status::Converged });
}

#[test]
fn a_pass_that_does_not_improve_is_counted() {
    let (mut run, mut ws, mut table) = turned();
    let m = halves(&ws, 0.04, 0.03, 0.42, 1e-3);
    run.after_bisection(&mut ws, &mut table, &m, &large(0.15, 0.22));
    run.err_ext = d(0.5);
    run.res_ext = d(3.0);
    let x = Extrapolation { reseps: d(2.0), abseps: d(0.5), stall_bound: d(1.0), scaled: d(1e-2) };
    assert_eq!(run.after_extrapolation(&mut ws, &table, &x), Next::Bisect);
    assert_eq!(run.ktmin, 1);
    assert_eq!(f(run.res_ext), 3.0);
    assert_eq!(f(run.err_ext), 0.5);
    assert_eq!(f(run.ertest), 1e-3);
}

#[test]
fn a_table_left_with_one_entry_rules_out_further_passes() {
    let (mut run, mut ws, mut table) = turned();
    let m = halves(&ws, 0.04, 0.03, 0.42, 1e-3);
    run.after_bisection(&mut ws, &mut table, &m, &large(0.15, 0.22));
    let mut short = ExtrapolationTable::new();
    short.append(d(1.0));
    let x = Extrapolation { reseps: d(2.0), abseps: d(0.125), stall_bound: d(1.0), scaled: d(1e-2) };
    assert_eq!(run.after_extrapolation(&mut ws, &short, &x), Next::Bisect);
    assert!(run.disallow_extrapolation);
    // from now on the run only bisects
    for _ in 0..3 {
        let m = halves(&ws, 0.04, 0.03, 0.42, 1e-3);
        assert_eq!(run.after_bisection(&mut ws, &mut table, &m, &large(9.0, 9.0)), Next::Bisect);
        assert!(!run.extrapolate);
        assert_eq!(ws.nrmax(), 0);
        assert_eq!(f(run.error_over_large_intervals), 0.42);
    }
    assert_eq!(table.len(), 3);
}

#[test]
fn six_passes_without_improvement_and_a_small_error_end_the_loop() {
    let (mut run, mut ws, mut table) = turned();
    let m = halves(&ws, 0.04, 0.03, 0.42, 1e-3);
    run.after_bisection(&mut ws, &mut table, &m, &large(0.15, 0.22));
    run.ktmin = 4;
    run.err_ext = d(1e-6);
    let x = Extrapolation { reseps: d(2.0), abseps: d(0.5), stall_bound: d(1e-3), scaled: d(1e-9) };
    let mut again = run;
    assert_eq!(again.after_extrapolation(&mut ws, &table, &x), Next::Bisect);
    assert_eq!(again.ktmin, 5);
    assert_eq!(again.error_type, 0);
    run.ktmin = 5;
    let mut ws2 = workspace(20, 1.0, 1.0);
    ws2.update(d(0.0), d(0.5), d(0.5), d(0.5), d(0.5), d(1.0), d(0.5), d(0.1));
    ws2.update(d(0.0), d(0.25), d(0.5), d(0.5), d(0.25), d(0.5), d(0.5), d(0.1));
    ws2.update(d(0.0), d(0.125), d(0.5), d(0.5), d(0.125), d(0.25), d(0.5), d(0.1));
    assert_eq!(run.after_extrapolation(&mut ws2, &table, &x), Next::Conclude);
    assert_eq!(run.ktmin, 6);
    assert_eq!(run.error_type, 5);
    let c = Closing {
        corrected: d(0.0),
        relative_extrapolated: d(1e-6),
        relative_corrected: d(0.0),
        relative_summed: d(1e-3),
        divergence_floor: d(0.0),
        ratio: d(1.0),
    };
    assert_eq!(run.conclude(&c), Verdict { extrapolated: true, status: Status::ExtrapolationRoundoff });
}

#[test]
fn a_run_finishes_when_the_sum_of_the_errors_is_within_the_tolerance() {
    let mut ws = workspace(20, 1.0, 1.0);
    let mut table = ExtrapolationTable::new();
    let mut run = ExtrapolatedRun::start(d(0.0), 20, &first(1.0, 1.0, 1e-3), d(0.5), &mut table);
    let m = halves(&ws, 0.0005, 0.0005, 0.001, 1e-3);
    assert_eq!(run.after_bisection(&mut ws, &mut table, &m, &large(0.0, 0.0)), Next::Finish);
    assert_eq!(run.finish(), Status::Converged);
    assert_eq!(ws.size(), 2);
    assert_eq!(table.len(), 1);
    // a subinterval too small to bisect shows in the status even so
    let mut ws = workspace(20, 1.0, 1.0);
    let mut run = ExtrapolatedRun::start(d(0.0), 20, &first(1.0, 1.0, 1e-3), d(0.5), &mut table);
    let mut m = halves(&ws, 0.0005, 0.0005, 0.001, 1e-3);
    m.small = d(1.0);
    assert_eq!(run.after_bisection(&mut ws, &mut table, &m, &large(0.0, 0.0)), Next::Finish);
    assert_eq!(run.error_type, 4);
    assert_eq!(run.finish(), Status::IntegrandSingular);
}

#[test]
fn a_subinterval_too_small_to_bisect_ends_the_loop() {
    let mut ws = workspace(20, 1.0, 1.0);
    let mut table = ExtrapolationTable::new();
    let mut run = ExtrapolatedRun::start(d(0.0), 20, &first(1.0, 1.0, 1e-3), d(0.5), &mut table);
    let mut m = halves(&ws, 0.5, 0.4, 0.9, 1e-3);
    m.small = d(1.0);
    assert_eq!(run.after_bisection(&mut ws, &mut table, &m, &large(0.0, 0.0)), Next::Conclude);
    assert_eq!(run.error_type, 4);
    let c = Closing {
        corrected: d(0.0),
        relative_extrapolated: d(0.0),
        relative_corrected: d(0.0),
        relative_summed: d(0.0),
        divergence_floor: d(0.0),
        ratio: d(1.0),
    };
    // without an extrapolated result the sum is returned
    assert_eq!(run.conclude(&c), Verdict { extrapolated: false, status: Status::IntegrandSingular });
}

#[test]
fn the_budget_leaves_one_subinterval_unused() {
    let mut ws = workspace(20, 1.0, 1.0);
    let mut table = ExtrapolationTable::new();
    let mut run = ExtrapolatedRun::start(d(0.0), 4, &first(1.0, 1.0, 1e-3), d(0.5), &mut table);
    let m = halves(&ws, 0.5, 0.4, 0.9, 1e-3);
    assert_eq!(run.after_bisection(&mut ws, &mut table, &m, &large(0.0, 0.0)), Next::Bisect);
    let m = halves(&ws, 0.3, 0.1, 0.8, 1e-3);
    assert_eq!(run.after_bisection(&mut ws, &mut table, &m, &large(0.0, 0.0)), Next::Conclude);
    assert_eq!(run.iteration, 3);
    assert_eq!(ws.size(), 3);
    assert_eq!(run.error_type, 1);
    let c = Closing {
        corrected: d(0.0),
        relative_extrapolated: d(0.0),
        relative_corrected: d(0.0),
        relative_summed: d(0.0),
        divergence_floor: d(0.0),
        ratio: d(1.0),
    };
    assert_eq!(run.conclude(&c), Verdict { extrapolated: false, status: Status::IterationLimitReached });
}

#[test]
fn stagnating_bisections_are_counted_apart_while_the_run_extrapolates() {
    let (mut run, mut ws, mut table) = turned();
    assert!(run.extrapolate);
    for k in 1..=5 {
        let mut m = halves(&ws, 0.3, 0.3, 0.9, 1e-3);
        m.delta_bound = d(0.0);
        run.extrapolate = true;
        run.after_bisection(&mut ws, &mut table, &m, &large(0.0, 0.0));
        assert_eq!(run.roundoff_type2, k);
        assert_eq!(run.roundoff_type1, 0);
        assert_eq!(run.error_type2, k >= 5);
        ws.reset_nrmax();
    }
    assert_eq!(run.error_type, 0);
    // ten stagnating bisections in all set the error code
    for k in 1..=5 {
        let mut m = halves(&ws, 0.3, 0.3, 0.9, 1e-3);
        m.delta_bound = d(0.0);
        run.extrapolate = false;
        run.disallow_extrapolation = true;
        let next = run.after_bisection(&mut ws, &mut table, &m, &large(0.0, 0.0));
        assert_eq!(run.roundoff_type1, k);
        assert_eq!(next, if k < 5 { Next::Bisect } else { Next::Conclude });
    }
    assert_eq!(run.error_type, 2);
}

#[test]
fn late_bisections_that_raise_the_error_are_counted() {
    let mut ws = workspace(100, 1.0, 1.0);
    let mut table = ExtrapolationTable::new();
    let mut run = ExtrapolatedRun::start(d(0.0), 100, &first(1.0, 1.0, 1e-3), d(0.5), &mut table);
    run.disallow_extrapolation = true;
    let mut last = Next::Bisect;
    for k in 1..=29 {
        let error = 2.0 + k as f64;
        let m = halves(&ws, error, error, 1.0, 1e-3);
        last = run.after_bisection(&mut ws, &mut table, &m, &large(0.0, 0.0));
        // the count of iterations is k + 1 and must be above ten
        assert_eq!(run.roundoff_type3, if k < 10 { 0 } else { k - 9 });
    }
    assert_eq!(last, Next::Conclude);
    assert_eq!(run.error_type, 2);
    // a seeded run counts from the start if it has ten ranges or more
    for (intervals, counted) in [(9usize, 0usize), (10, 1)] {
        let pieces: Vec<Piece> = (0..intervals)
            .map(|k| Piece { a: d(k as f64), b: d(k as f64 + 1.0), result: d(1.0), error: d(1.0), resasc: d(0.5) })
            .collect();
        let mut ws = IntegrationWorkspace::new(100).unwrap();
        seed(&mut ws, &pieces, d(10.0));
        let mut run =
            ExtrapolatedRun::start_seeded(d(0.0), 100, intervals, &first(1.0, 1.0, 1e-3), d(10.0), d(0.5), &mut table);
        let m = halves(&ws, 3.0, 3.0, 15.0, 1e-3);
        run.after_bisection(&mut ws, &mut table, &m, &large(0.0, 0.0));
        assert_eq!(run.roundoff_type3, counted);
        assert_eq!(run.iteration, intervals);
        assert_eq!(ws.size(), intervals + 1);
    }
}

#[test]
fn a_seeded_run_waits_for_a_third_entry_before_its_first_pass() {
    let pieces = vec![Piece { a: d(0.0), b: d(1.0), result: d(2.0), error: d(2.0), resasc: d(0.5) }];
    let mut ws = IntegrationWorkspace::new(100).unwrap();
    seed(&mut ws, &pieces, d(2.0));
    let mut table = ExtrapolationTable::new();
    let mut run = ExtrapolatedRun::start_seeded(d(0.0), 100, 1, &first(2.0, 2.0, 1e-3), d(2.0), d(0.5), &mut table);
    assert_eq!(run.iteration, 0);
    // the halves are the smallest subintervals and the error over the larger
    // ones is small: the sum goes into the table, but two entries are not enough
    let mut m = halves(&ws, 0.3, 0.2, 0.5, 1e-3);
    m.area = d(2.5);
    assert_eq!(run.after_bisection(&mut ws, &mut table, &m, &large(1e-4, 0.5)), Next::Bisect);
    assert_eq!(run.iteration, 1);
    assert_eq!(table.len(), 2);
    assert_eq!(f(table.entry(1)), 2.5);
    assert!(!run.extrapolate);
    assert_eq!(f(run.error_over_large_intervals), 0.5);
    assert_eq!(ws.nrmax(), 0);
    assert_eq!(ws.current(), 0);
    // the upper half, now at the head, is larger than the new halves
    let m = halves(&ws, 0.05, 0.04, 0.29, 1e-3);
    assert_eq!(run.after_bisection(&mut ws, &mut table, &m, &large(1e-4, 0.5)), Next::Bisect);
    assert_eq!(table.len(), 2);
    assert_eq!(ws.current(), 1);
    let mut m = halves(&ws, 0.03, 0.02, 0.14, 1e-3);
    m.area = d(2.75);
    assert_eq!(run.after_bisection(&mut ws, &mut table, &m, &large(1e-4, 0.5)), Next::Extrapolate);
    assert_eq!(table.len(), 3);
    assert_eq!(f(table.entry(2)), 2.75);
    assert_eq!(run.iteration, 3);
    assert_eq!(ws.size(), 4);
}

fn closing(ratio: f64) -> Closing {
    Closing {
        corrected: d(0.0),
        relative_extrapolated: d(0.0),
        relative_corrected: d(0.0),
        relative_summed: d(0.0),
        divergence_floor: d(0.0),
        ratio: d(ratio),
    }
}

fn concluded(area: f64, errsum: f64, res_ext: f64, err_ext: f64) -> ExtrapolatedRun {
    let mut table = ExtrapolationTable::new();
    let mut run = ExtrapolatedRun::start(d(0.0), 20, &first(1.0, 1.0, 1e-3), d(0.5), &mut table);
    run.iteration = 5;
    run.area = d(area);
    run.errsum = d(errsum);
    run.res_ext = d(res_ext);
    run.err_ext = d(err_ext);
    run
}

#[test]
fn without_an_extrapolated_result_the_sum_is_returned() {
    let mut run = concluded(1.0, 0.1, 1.0, f64::MAX);
    assert_eq!(run.conclude(&closing(1.0)), Verdict { extrapolated: false, status: Status::Converged });
    run.error_type = 1;
    assert_eq!(run.conclude(&closing(1.0)), Verdict { extrapolated: false, status: Status::IterationLimitReached });
    run.error_type = 2;
    assert_eq!(run.conclude(&closing(1.0)), Verdict { extrapolated: false, status: Status::RoundoffLimited });
}

#[test]
fn an_extrapolated_result_is_tested_for_divergence() {
    let run = concluded(1.0, 0.1, 1.0, 1e-6);
    assert_eq!(run.conclude(&closing(1.0)), Verdict { extrapolated: true, status: Status::Converged });
    assert_eq!(run.conclude(&closing(0.01)), Verdict { extrapolated: true, status: Status::Converged });
    assert_eq!(run.conclude(&closing(100.0)), Verdict { extrapolated: true, status: Status::Converged });
    assert_eq!(run.conclude(&closing(0.0099)), Verdict { extrapolated: true, status: Status::Divergent });
    assert_eq!(run.conclude(&closing(100.1)), Verdict { extrapolated: true, status: Status::Divergent });
    assert_eq!(run.conclude(&closing(-1.0)), Verdict { extrapolated: true, status: Status::Divergent });
    // the sum of the errors above the magnitude of the sum of the estimates
    let run = concluded(-1.0, 1.5, 1.0, 1e-6);
    assert_eq!(run.conclude(&closing(1.0)), Verdict { extrapolated: true, status: Status::Divergent });
    let run = concluded(-1.0, 1.0, 1.0, 1e-6);
    assert_eq!(run.conclude(&closing(1.0)), Verdict { extrapolated: true, status: Status::Converged });
}

#[test]
fn an_integrand_that_changes_sign_is_spared_the_test_when_the_results_are_small() {
    let mut run = concluded(-0.25, 0.5, 0.125, 1e-6);
    run.positive_integrand = false;
    let mut c = closing(1000.0);
    c.divergence_floor = d(0.26);
    assert_eq!(run.conclude(&c), Verdict { extrapolated: true, status: Status::Converged });
    c.divergence_floor = d(0.25);
    assert_eq!(run.conclude(&c), Verdict { extrapolated: true, status: Status::Divergent });
    c.divergence_floor = d(0.26);
    run.positive_integrand = true;
    assert_eq!(run.conclude(&c), Verdict { extrapolated: true, status: Status::Divergent });
}

#[test]
fn after_an_error_the_result_of_smaller_relative_error_is_returned() {
    let mut run = concluded(1.0, 0.1, 2.0, 1e-2);
    run.error_type = 1;
    let mut c = closing(2.0);
    c.relative_extrapolated = d(0.5e-2);
    c.relative_summed = d(0.1);
    assert_eq!(run.conclude(&c), Verdict { extrapolated: true, status: Status::IterationLimitReached });
    c.relative_summed = d(0.5e-2);
    assert_eq!(run.conclude(&c), Verdict { extrapolated: true, status: Status::IterationLimitReached });
    c.relative_summed = d(0.4e-2);
    assert_eq!(run.conclude(&c), Verdict { extrapolated: false, status: Status::IterationLimitReached });
    // the divergence test can still override the status
    c.relative_summed = d(0.1);
    c.ratio = d(1000.0);
    assert_eq!(run.conclude(&c), Verdict { extrapolated: true, status: Status::Divergent });
}

#[test]
fn the_second_error_flag_corrects_the_extrapolated_error() {
    let mut run = concluded(1.0, 0.1, 2.0, 1e-2);
    run.error_type2 = true;
    let mut c = closing(2.0);
    c.relative_extrapolated = d(0.0);
    c.relative_corrected = d(0.2);
    c.relative_summed = d(0.1);
    // alone it stands for round-off
    assert_eq!(run.conclude(&c), Verdict { extrapolated: false, status: Status::RoundoffLimited });
    c.relative_corrected = d(0.05);
    assert_eq!(run.conclude(&c), Verdict { extrapolated: true, status: Status::RoundoffLimited });
    run.error_type = 4;
    assert_eq!(run.conclude(&c), Verdict { extrapolated: true, status: Status::IntegrandSingular });
}

#[test]
fn with_a_result_of_zero_the_absolute_errors_are_compared() {
    let mut run = concluded(0.0, 0.1, 2.0, 0.2);
    run.error_type = 1;
    let c = closing(f64::INFINITY);
    assert_eq!(run.conclude(&c), Verdict { extrapolated: false, status: Status::IterationLimitReached });
    // the sum is zero and has the larger error: no test for divergence
    let mut run = concluded(0.0, 0.3, 2.0, 0.2);
    run.error_type = 1;
    assert_eq!(run.conclude(&c), Verdict { extrapolated: true, status: Status::IterationLimitReached });
    // the extrapolated result is zero, the sum is not
    let mut run = concluded(1.0, 0.3, 0.0, 0.2);
    run.error_type = 1;
    assert_eq!(run.conclude(&closing(0.0)), Verdict { extrapolated: true, status: Status::Divergent });
    let mut run = concluded(1.0, 0.3, 0.0, 0.2);
    run.error_type = 1;
    run.error_type2 = true;
    let mut c = closing(1.0);
    c.corrected = d(0.4);
    assert_eq!(run.conclude(&c), Verdict { extrapolated: false, status: Status::IterationLimitReached });
}

#[test]
fn seeding_replaces_unreliable_errors_and_sorts() {
    let pieces = vec![
        Piece { a: d(0.0), b: d(1.0), result: d(1.0), error: d(0.5), resasc: d(0.25) },
        Piece { a: d(1.0), b: d(2.0), result: d(2.0), error: d(0.25), resasc: d(0.25) },
        Piece { a: d(2.0), b: d(3.0), result: d(3.0), error: d(0.0), resasc: d(0.0) },
        Piece { a: d(3.0), b: d(4.0), result: d(4.0), error: d(0.75), resasc: d(0.5) },
    ];
    let mut ws = IntegrationWorkspace::new(10).unwrap();
    ws.initialise(d(5.0), d(6.0));
    ws.set_initial_result(d(1.0), d(1.0));
    ws.update(d(5.0), d(5.5), d(0.5), d(0.5), d(5.5), d(6.0), d(0.5), d(0.5));
    seed(&mut ws, &pieces, d(1.5));
    assert_eq!(ws.size(), 4);
    assert_eq!(ws.nrmax(), 0);
    assert_eq!(ws.maximum_level(), 0);
    let stored: Vec<(f64, f64, f64, f64, usize)> = (0..4)
        .map(|k| {
            let s = ws.interval(k);
            (f(s.a), f(s.b), f(s.result), f(s.error), s.level)
        })
        .collect();
    assert_eq!(
        stored,
        vec![(0.0, 1.0, 1.0, 0.5, 0), (1.0, 2.0, 2.0, 1.5, 0), (2.0, 3.0, 3.0, 0.0, 0), (3.0, 4.0, 4.0, 0.75, 0)]
    );
    assert_eq!((0..4).map(|k| ws.order_at(k)).collect::<Vec<_>>(), vec![1, 3, 0, 2]);
    assert_eq!(ws.current(), 1);
}
