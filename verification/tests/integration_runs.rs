use std::cell::{Cell, RefCell};

use adaptive_quadrature::arithmetic::{Estimate, Op};
use adaptive_quadrature::double::Double;
use adaptive_quadrature::status::Status;
use adaptive_quadrature::workspace::IntegrationWorkspace;

const EPS: f64 = f64::EPSILON;

fn d(x: f64) -> Double {
    Double::from_bits(x.to_bits())
}

fn f(x: Double) -> f64 {
    f64::from_bits(x.to_bits())
}

/// The arithmetic of the machine.
fn arithmetic(op: Op, x: Double, y: Double) -> Double {
    let (x, y) = (f(x), f(y));
    d(match op {
        Op::Add => x + y,
        Op::Sub => x - y,
        Op::Mul => x * y,
        Op::Div => x / y,
    })
}

struct Counted<'a> {
    f: &'a dyn Fn(f64) -> f64,
    calls: &'a Cell<usize>,
}

impl<'a> Counted<'a> {
    fn at(&self, x: f64) -> f64 {
        self.calls.set(self.calls.get() + 1);
        (self.f)(x)
    }
}

const XGK: [f64; 11] = [
    0.995657163025808080735527280689003,
    0.973906528517171720077964012084452,
    0.930157491355708226001207180059508,
    0.865063366688984510732096688423493,
    0.780817726586416897063717578345042,
    0.679409568299024406234327365114874,
    0.562757134668604683339000099272694,
    0.433395394129247190799265943165784,
    0.294392862701460198131126603103866,
    0.148874338981631210884826001129720,
    0.000000000000000000000000000000000,
];

const WG: [f64; 5] = [
    0.066671344308688137593568809893332,
    0.149451349150580593145776339657697,
    0.219086362515982043995534934228163,
    0.269266719309996355091226921569469,
    0.295524224714752870173815619188769,
];

const WGK: [f64; 11] = [
    0.011694638867371874278064396062192,
    0.032558162307964727478818972459390,
    0.054755896574351996031381300244580,
    0.075039674810919952767043140916190,
    0.093125454583697605535065465083366,
    0.109387158802297641899210590325805,
    0.123491976262065851077958109585166,
    0.134709217311473325928054001771707,
    0.142775938577060080797094273138717,
    0.147739104901338491374841515972068,
    0.149445554002916905664936468389821,
];

fn rescale_error(err: f64, result_abs: f64, result_asc: f64) -> f64 {
    let mut err = err.abs();
    if result_asc != 0.0 && err != 0.0 {
        let scale = (200.0 * err / result_asc).powf(1.5);
        if scale < 1.0 {
            err = result_asc * scale;
        } else {
            err = result_asc;
        }
    }
    if result_abs > f64::MIN_POSITIVE / (50.0 * EPS) {
        let min_err = 50.0 * EPS * result_abs;
        if min_err > err {
            err = min_err;
        }
    }
    err
}

/// The 21-point Gauss-Kronrod rule.
fn qk21(g: &Counted, a: f64, b: f64) -> Estimate {
    let n = 11;
    let center = 0.5 * (a + b);
    let half_length = 0.5 * (b - a);
    let abs_half_length = half_length.abs();
    let f_center = g.at(center);
    let mut result_gauss = 0.0;
    let mut result_kronrod = f_center * WGK[n - 1];
    let mut result_abs = result_kronrod.abs();
    let mut fv1 = [0.0f64; 11];
    let mut fv2 = [0.0f64; 11];
    for j in 0..(n - 1) / 2 {
        let jtw = j * 2 + 1;
        let abscissa = half_length * XGK[jtw];
        let fval1 = g.at(center - abscissa);
        let fval2 = g.at(center + abscissa);
        let fsum = fval1 + fval2;
        fv1[jtw] = fval1;
        fv2[jtw] = fval2;
        result_gauss += WG[j] * fsum;
        result_kronrod += WGK[jtw] * fsum;
        result_abs += WGK[jtw] * (fval1.abs() + fval2.abs());
    }
    for j in 0..n / 2 {
        let jtwm1 = j * 2;
        let abscissa = half_length * XGK[jtwm1];
        let fval1 = g.at(center - abscissa);
        let fval2 = g.at(center + abscissa);
        fv1[jtwm1] = fval1;
        fv2[jtwm1] = fval2;
        result_kronrod += WGK[jtwm1] * (fval1 + fval2);
        result_abs += WGK[jtwm1] * (fval1.abs() + fval2.abs());
    }
    let mean = result_kronrod * 0.5;
    let mut result_asc = WGK[n - 1] * (f_center - mean).abs();
    for j in 0..n - 1 {
        result_asc += WGK[j] * ((fv1[j] - mean).abs() + (fv2[j] - mean).abs());
    }
    let err = (result_kronrod - result_gauss) * half_length;
    result_kronrod *= half_length;
    result_abs *= abs_half_length;
    result_asc *= abs_half_length;
    Estimate {
        result: d(result_kronrod),
        abserr: d(rescale_error(err, result_abs, result_asc)),
        resabs: d(result_abs),
        resasc: d(result_asc),
    }
}

/// The bounds of the active subintervals, sorted, must run from `lo` to `hi`
/// without gap or overlap; the list must be a permutation of the active slots.
fn check_workspace(ws: &IntegrationWorkspace, lo: f64, hi: f64) {
    let size = ws.size();
    assert!(size <= ws.limit());
    let mut pieces: Vec<(f64, f64)> = (0..size).map(|s| (f(ws.interval(s).a), f(ws.interval(s).b))).collect();
    pieces.sort_by(|x, y| x.partial_cmp(y).unwrap());
    assert_eq!(pieces[0].0, lo);
    assert_eq!(pieces[size - 1].1, hi);
    for k in 1..size {
        assert_eq!(pieces[k - 1].1, pieces[k].0);
    }
    let mut seen = vec![false; size];
    for k in 0..size {
        let slot = ws.order_at(k);
        assert!(slot < size && !seen[slot]);
        seen[slot] = true;
    }
}

struct Outcome {
    result: f64,
    abserr: f64,
    status: Status,
    last: usize,
    neval: usize,
}

fn rejected(status: Status) -> bool {
    status == Status::InvalidParameter || status == Status::ToleranceUnreachable
}

fn qag(ws: &mut IntegrationWorkspace, fun: &dyn Fn(f64) -> f64, a: f64, b: f64, epsabs: f64, epsrel: f64, limit: usize) -> Outcome {
    let calls = Cell::new(0);
    let g = Counted { f: fun, calls: &calls };
    let rule = |a: Double, b: Double| qk21(&g, f(a), f(b));
    let (mut result, mut abserr) = (d(-1.0), d(-1.0));
    let status = ws.qag(&rule, &arithmetic, d(a), d(b), d(epsabs), d(epsrel), limit, &mut result, &mut abserr);
    if !rejected(status) {
        check_workspace(ws, a, b);
    }
    Outcome { result: f(result), abserr: f(abserr), status, last: ws.size(), neval: calls.get() }
}

fn qags(ws: &mut IntegrationWorkspace, fun: &dyn Fn(f64) -> f64, a: f64, b: f64, epsabs: f64, epsrel: f64, limit: usize) -> Outcome {
    let calls = Cell::new(0);
    let g = Counted { f: fun, calls: &calls };
    let rule = |a: Double, b: Double| qk21(&g, f(a), f(b));
    let (mut result, mut abserr) = (d(-1.0), d(-1.0));
    let status = ws.qags(&rule, &arithmetic, d(a), d(b), d(epsabs), d(epsrel), limit, &mut result, &mut abserr);
    if !rejected(status) {
        check_workspace(ws, a, b);
    }
    Outcome { result: f(result), abserr: f(abserr), status, last: ws.size(), neval: calls.get() }
}

fn qagp(ws: &mut IntegrationWorkspace, fun: &dyn Fn(f64) -> f64, pts: &[f64], epsabs: f64, epsrel: f64, limit: usize) -> Outcome {
    let calls = Cell::new(0);
    let g = Counted { f: fun, calls: &calls };
    let rule = |a: Double, b: Double| qk21(&g, f(a), f(b));
    let points: Vec<Double> = pts.iter().map(|&x| d(x)).collect();
    let (mut result, mut abserr) = (d(-1.0), d(-1.0));
    let status = ws.qagp(&rule, &arithmetic, &points, d(epsabs), d(epsrel), limit, &mut result, &mut abserr);
    if !rejected(status) {
        check_workspace(ws, pts[0], pts[pts.len() - 1]);
    }
    Outcome { result: f(result), abserr: f(abserr), status, last: ws.size(), neval: calls.get() }
}

fn close(x: f64, y: f64, rel: f64) -> bool {
    (x - y).abs() <= rel * x.abs().max(y.abs())
}

#[test]
fn the_rule_integrates_polynomials_exactly() {
    let calls = Cell::new(0);
    let g = Counted { f: &|x: f64| 3.0 * x * x + 1.0, calls: &calls };
    let e = qk21(&g, 0.0, 2.0);
    assert!(close(f(e.result), 10.0, 1e-15));
    assert!(f(e.abserr) < 1e-12);
    assert!(close(f(e.resabs), 10.0, 1e-15));
    assert_eq!(calls.get(), 21);
}

#[test]
fn a_constant_is_integrated_exactly_on_the_first_estimate() {
    for &(c, a, b) in [(2.5, 0.0, 4.0), (-1.0, -3.0, 1.5), (7.0, 10.0, 10.5)].iter() {
        let fun = move |_x: f64| c;
        let mut ws = IntegrationWorkspace::new(50).unwrap();
        let r = qag(&mut ws, &fun, a, b, 1e-10, 0.0, 50);
        assert_eq!(r.status, Status::Converged);
        assert!(close(r.result, c * (b - a), 4.0 * EPS));
        assert!(r.abserr < 1e-10);
        assert_eq!(r.last, 1);
        let mut ws = IntegrationWorkspace::new(50).unwrap();
        let r = qags(&mut ws, &fun, a, b, 1e-10, 0.0, 50);
        assert_eq!(r.status, Status::Converged);
        assert!(close(r.result, c * (b - a), 4.0 * EPS));
        assert!(r.abserr < 1e-10);
        assert_eq!(r.last, 1);
        let mut ws = IntegrationWorkspace::new(50).unwrap();
        let r = qagp(&mut ws, &fun, &[a, 0.5 * (a + b), b], 1e-10, 0.0, 50);
        assert_eq!(r.status, Status::Converged);
        assert!(close(r.result, c * (b - a), 4.0 * EPS));
        assert!(r.abserr < 1e-10);
        assert_eq!(r.neval, 42);
    }
}

#[test]
fn zero_tolerances_are_rejected_before_the_integrand_is_evaluated() {
    let fun = |_x: f64| -> f64 { panic!("the integrand must not be evaluated") };
    let mut ws = IntegrationWorkspace::new(10).unwrap();
    assert_eq!(qag(&mut ws, &fun, 0.0, 1.0, 0.0, 0.0, 10).status, Status::ToleranceUnreachable);
    assert_eq!(qags(&mut ws, &fun, 0.0, 1.0, 0.0, 0.0, 10).status, Status::ToleranceUnreachable);
    assert_eq!(qagp(&mut ws, &fun, &[0.0, 0.5, 1.0], 0.0, 0.0, 10).status, Status::ToleranceUnreachable);
}

#[test]
fn a_budget_above_the_capacity_is_rejected() {
    let fun = |_x: f64| -> f64 { panic!("the integrand must not be evaluated") };
    let mut ws = IntegrationWorkspace::new(10).unwrap();
    assert_eq!(qag(&mut ws, &fun, 0.0, 1.0, 1e-6, 0.0, 11).status, Status::InvalidParameter);
    assert_eq!(qags(&mut ws, &fun, 0.0, 1.0, 1e-6, 0.0, 11).status, Status::InvalidParameter);
    assert_eq!(qagp(&mut ws, &fun, &[0.0, 1.0], 1e-6, 0.0, 11).status, Status::InvalidParameter);
}

#[test]
fn break_points_out_of_order_are_rejected() {
    let fun = |_x: f64| -> f64 { panic!("the integrand must not be evaluated") };
    let mut ws = IntegrationWorkspace::new(10).unwrap();
    assert_eq!(qagp(&mut ws, &fun, &[0.0, 0.7, 0.3, 1.0], 1e-6, 0.0, 10).status, Status::InvalidParameter);
    let many: Vec<f64> = (0..11).map(|k| k as f64).collect();
    assert_eq!(qagp(&mut ws, &fun, &many, 1e-6, 0.0, 10).status, Status::InvalidParameter);
}

#[test]
fn plain_bisection_of_a_smooth_integrand_with_an_endpoint_singularity() {
    // x^2.6 log(1/x) over (0, 1) is 1 / 3.6^2
    let alpha = 2.6;
    let fun = move |x: f64| x.powf(alpha) * (1.0 / x).ln();
    let mut ws = IntegrationWorkspace::new(1000).unwrap();
    let r = qag(&mut ws, &fun, 0.0, 1.0, 1e-10, 0.0, 1000);
    assert_eq!(r.status, Status::Converged);
    assert!((r.result - 1.0 / (3.6 * 3.6)).abs() <= r.abserr);
    assert!(r.abserr <= 1e-10);
    assert_eq!(r.last, 4);
    assert_eq!(r.neval, 147);
    let mut ws = IntegrationWorkspace::new(1000).unwrap();
    let r = qag(&mut ws, &fun, 0.0, 1.0, 0.0, 1e-10, 1000);
    assert_eq!(r.status, Status::Converged);
    assert!(close(r.result, 7.716049382715789440e-02, 1e-14));
    assert!(close(r.abserr, 2.216394961010438404e-12, 1e-5));
    assert_eq!(r.last, 5);
    assert_eq!(r.neval, 189);
}

#[test]
fn extrapolation_of_the_same_integrand() {
    let alpha = 2.6;
    let fun = move |x: f64| x.powf(alpha) * (1.0 / x).ln();
    let mut ws = IntegrationWorkspace::new(1000).unwrap();
    let r = qags(&mut ws, &fun, 0.0, 1.0, 0.0, 1e-10, 1000);
    assert_eq!(r.status, Status::Converged);
    assert!(close(r.result, 7.716049382715789440e-02, 1e-14));
    assert!(close(r.abserr, 2.216394961010438404e-12, 1e-5));
    assert_eq!(r.last, 5);
    assert_eq!(r.neval, 189);
}

#[test]
fn extrapolation_beats_plain_bisection_on_an_inverse_square_root() {
    let fun = |x: f64| 1.0 / x.sqrt();
    let limit = 30;
    let mut ws = IntegrationWorkspace::new(limit as u64).unwrap();
    let plain = qag(&mut ws, &fun, 0.0, 1.0, 0.0, 1e-10, limit);
    let mut ws = IntegrationWorkspace::new(limit as u64).unwrap();
    let accelerated = qags(&mut ws, &fun, 0.0, 1.0, 0.0, 1e-10, limit);
    assert_eq!(accelerated.status, Status::Converged);
    assert!(accelerated.last < limit);
    assert!(close(accelerated.result, 2.0, 1e-10));
    assert!(accelerated.abserr < plain.abserr);
}

#[test]
fn a_break_point_at_a_jump_saves_bisections() {
    let x0 = 0.3;
    let fun = move |x: f64| if x < x0 { x.exp() } else { 2.0 + x.cos() };
    let exact = (x0.exp() - 1.0) + 2.0 * (1.0 - x0) + (1.0f64.sin() - x0.sin());
    let mut ws = IntegrationWorkspace::new(200).unwrap();
    let seeded = qagp(&mut ws, &fun, &[0.0, x0, 1.0], 0.0, 1e-10, 200);
    let mut ws = IntegrationWorkspace::new(200).unwrap();
    let unseeded = qags(&mut ws, &fun, 0.0, 1.0, 0.0, 1e-10, 200);
    assert_eq!(seeded.status, Status::Converged);
    assert_eq!(unseeded.status, Status::Converged);
    assert!(close(seeded.result, exact, 1e-10));
    assert!(close(unseeded.result, exact, 1e-10));
    assert!(seeded.last < unseeded.last);
    assert!(seeded.neval < unseeded.neval);
}

#[test]
fn a_divergent_integral_is_not_reported_as_converged() {
    let fun = |x: f64| 1.0 / x;
    let mut ws = IntegrationWorkspace::new(2000).unwrap();
    let r = qags(&mut ws, &fun, 0.0, 1.0, 0.0, 1e-8, 2000);
    assert!(matches!(r.status, Status::Divergent | Status::RoundoffLimited | Status::IntegrandSingular));
    for limit in [2usize, 3, 5, 10, 50, 200] {
        let mut ws = IntegrationWorkspace::new(2000).unwrap();
        let r = qags(&mut ws, &fun, 0.0, 1.0, 0.0, 1e-8, limit);
        assert_ne!(r.status, Status::Converged);
        let mut ws = IntegrationWorkspace::new(2000).unwrap();
        let r = qag(&mut ws, &fun, 0.0, 1.0, 0.0, 1e-8, limit);
        assert_ne!(r.status, Status::Converged);
    }
}

#[test]
fn two_runs_on_fresh_workspaces_agree_to_the_bit() {
    let fun = |x: f64| (1.0 / x.sqrt()) * (10.0 * x).sin().abs();
    let mut first = IntegrationWorkspace::new(100).unwrap();
    let mut second = IntegrationWorkspace::new(100).unwrap();
    let r1 = qags(&mut first, &fun, 0.0, 1.0, 0.0, 1e-8, 100);
    let r2 = qags(&mut second, &fun, 0.0, 1.0, 0.0, 1e-8, 100);
    assert_eq!(r1.result.to_bits(), r2.result.to_bits());
    assert_eq!(r1.abserr.to_bits(), r2.abserr.to_bits());
    assert_eq!(r1.status, r2.status);
    let r3 = qags(&mut first, &fun, 0.0, 1.0, 0.0, 1e-8, 100);
    assert_eq!(r1.result.to_bits(), r3.result.to_bits());
    assert_eq!(r1.abserr.to_bits(), r3.abserr.to_bits());
    assert_eq!(r1.status, r3.status);
}

#[test]
fn a_budget_of_one_ends_after_the_first_estimate() {
    let fun = |x: f64| 1.0 / x.sqrt();
    let mut ws = IntegrationWorkspace::new(10).unwrap();
    assert_eq!(qag(&mut ws, &fun, 0.0, 1.0, 0.0, 1e-10, 1).status, Status::IterationLimitReached);
    assert_eq!(qags(&mut ws, &fun, 0.0, 1.0, 0.0, 1e-10, 1).status, Status::IterationLimitReached);
    assert_eq!(qagp(&mut ws, &fun, &[0.0, 1.0], 0.0, 1e-10, 1).status, Status::IterationLimitReached);
}

#[test]
fn a_small_budget_is_used_up() {
    let fun = |x: f64| 1.0 / x.sqrt();
    let mut ws = IntegrationWorkspace::new(10).unwrap();
    let r = qag(&mut ws, &fun, 0.0, 1.0, 0.0, 1e-12, 5);
    assert_eq!(r.status, Status::IterationLimitReached);
    assert_eq!(r.last, 5);
    let r = qags(&mut ws, &fun, 0.0, 1.0, 0.0, 2e-14, 4);
    assert_eq!(r.status, Status::IterationLimitReached);
    assert_eq!(r.last, 3);
}

#[test]
fn singular_points_inside_the_range() {
    // x^3 log |(x^2 - 1)(x^2 - 2)| over (0, 3), singular at 1 and sqrt(2)
    let fun = |x: f64| {
        let x2 = x * x;
        let x3 = x * x2;
        x3 * ((x2 - 1.0) * (x2 - 2.0)).abs().ln()
    };
    let mut ws = IntegrationWorkspace::new(1000).unwrap();
    let r = qagp(&mut ws, &fun, &[0.0, 1.0, 2.0f64.sqrt(), 3.0], 0.0, 1.0e-3, 1000);
    assert_eq!(r.status, Status::Converged);
    assert!(close(r.result, 52.740748383471444998, 1.0e-3));
    assert!(close(r.result, 5.274080611672716401e+01, 1e-14));
    assert!(close(r.abserr, 1.755703848687062418e-04, 1e-5));
    assert_eq!(r.last, 20);
    assert_eq!(r.neval, 777);
}

fn estimate(result: f64, abserr: f64, resabs: f64, resasc: f64) -> Estimate {
    Estimate { result: d(result), abserr: d(abserr), resabs: d(resabs), resasc: d(resasc) }
}

#[test]
fn one_bisection_brings_a_plain_run_within_the_tolerance() {
    let asked: RefCell<Vec<(f64, f64)>> = RefCell::new(Vec::new());
    let rule = |a: Double, b: Double| {
        let (a, b) = (f(a), f(b));
        asked.borrow_mut().push((a, b));
        estimate(a * (b - a), (b - a) * (b - a) / 4.0, a.abs() * (b - a), 1.0)
    };
    let mut ws = IntegrationWorkspace::new(10).unwrap();
    let (mut result, mut abserr) = (d(-1.0), d(-1.0));
    let status = ws.qag(&rule, &arithmetic, d(0.0), d(1.0), d(0.2), d(0.0), 10, &mut result, &mut abserr);
    assert_eq!(status, Status::Converged);
    assert_eq!(f(result), 0.25);
    assert_eq!(f(abserr), 0.125);
    assert_eq!(ws.size(), 2);
    assert_eq!(*asked.borrow(), vec![(0.0, 1.0), (0.0, 0.5), (0.5, 1.0)]);
}

#[test]
fn a_constant_converges_on_the_ranges_between_the_points() {
    let asked: RefCell<Vec<(f64, f64)>> = RefCell::new(Vec::new());
    let rule = |a: Double, b: Double| {
        let (a, b) = (f(a), f(b));
        asked.borrow_mut().push((a, b));
        estimate(2.0 * (b - a), 0.0, 2.0 * (b - a), 0.0)
    };
    let mut ws = IntegrationWorkspace::new(10).unwrap();
    let (mut result, mut abserr) = (d(-1.0), d(-1.0));
    let pts = vec![d(0.0), d(1.0), d(3.0)];
    let status = ws.qagp(&rule, &arithmetic, &pts, d(1e-10), d(0.0), 10, &mut result, &mut abserr);
    assert_eq!(status, Status::Converged);
    assert_eq!(f(result), 6.0);
    assert_eq!(f(abserr), 0.0);
    assert_eq!(ws.size(), 2);
    assert_eq!(*asked.borrow(), vec![(0.0, 1.0), (1.0, 3.0)]);
}

#[test]
fn a_range_with_an_unreliable_error_is_bisected_first() {
    let asked: RefCell<Vec<(f64, f64)>> = RefCell::new(Vec::new());
    let rule = |a: Double, b: Double| {
        let (a, b) = (f(a), f(b));
        asked.borrow_mut().push((a, b));
        if (a, b) == (0.0, 1.0) {
            estimate(1.0, 0.125, 1.0, 0.125)
        } else if (a, b) == (1.0, 2.0) {
            estimate(1.0, 0.25, 1.0, 0.0)
        } else {
            estimate(b - a, 0.0, b - a, 0.0)
        }
    };
    let mut ws = IntegrationWorkspace::new(10).unwrap();
    let (mut result, mut abserr) = (d(-1.0), d(-1.0));
    let pts = vec![d(0.0), d(1.0), d(2.0)];
    let status = ws.qagp(&rule, &arithmetic, &pts, d(0.3), d(0.0), 10, &mut result, &mut abserr);
    assert_eq!(status, Status::Converged);
    assert_eq!(f(result), 2.0);
    assert_eq!(f(abserr), 0.25);
    assert_eq!(ws.size(), 3);
    assert_eq!(*asked.borrow(), vec![(0.0, 1.0), (1.0, 2.0), (0.0, 0.5), (0.5, 1.0)]);
    // every point is still a bound of a subinterval
    for x in [0.0, 1.0, 2.0] {
        assert!((0..ws.size()).any(|k| f(ws.interval(k).a) == x || f(ws.interval(k).b) == x));
    }
}

#[test]
fn a_run_is_a_function_of_what_the_rule_and_the_arithmetic_return() {
    let fun = |x: f64| (1.0 / x.sqrt()) * (3.0 * x).cos();
    let mut outcomes = Vec::new();
    for _ in 0..2 {
        let mut ws = IntegrationWorkspace::new(60).unwrap();
        let a = qag(&mut ws, &fun, 0.0, 1.0, 0.0, 1e-9, 60);
        let plain: Vec<usize> = (0..ws.size()).map(|k| ws.order_at(k)).collect();
        let mut ws = IntegrationWorkspace::new(60).unwrap();
        let b = qagp(&mut ws, &fun, &[0.0, 0.25, 1.0], 0.0, 1e-9, 60);
        let seeded: Vec<usize> = (0..ws.size()).map(|k| ws.order_at(k)).collect();
        let mut ws = IntegrationWorkspace::new(60).unwrap();
        let c = qags(&mut ws, &fun, 0.0, 1.0, 0.0, 1e-9, 60);
        let extrapolated: Vec<usize> = (0..ws.size()).map(|k| ws.order_at(k)).collect();
        outcomes.push((a.result.to_bits(), a.abserr.to_bits(), a.status, plain));
        outcomes.push((b.result.to_bits(), b.abserr.to_bits(), b.status, seeded));
        outcomes.push((c.result.to_bits(), c.abserr.to_bits(), c.status, extrapolated));
    }
    assert_eq!(outcomes[0], outcomes[3]);
    assert_eq!(outcomes[1], outcomes[4]);
    assert_eq!(outcomes[2], outcomes[5]);
}
