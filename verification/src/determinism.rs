//! Runs are functions of what the rule and the arithmetic return.
//!
//! The library asks the caller's rule and arithmetic and is bound to nothing
//! about their answers. If they answer each question in one way only, each of
//! the three integrations has one outcome only: the workspace it leaves, its
//! result, its error estimate and its status are fixed by its arguments and by
//! the workspace it is entered with. So has a pass over the extrapolation
//! table.

use vstd::prelude::*;
use crate::arithmetic::{
    is_sum, sums, yields, Estimate, Op, FIFTY_EPSILON_BITS, FIVE_EPSILON_BITS, HUNDRED_EPSILON_BITS,
};
use crate::double::Double;
use crate::parameters::FirstEstimate;
use crate::qag::{integrated, Bisection, PlainRun};
use crate::qagp::{adds_up, asked, integrated_from_points, pieces_of, seeded, seeded_run};
use crate::qags::{integrated_with_extrapolation, Closing, ExtrapolatedRun, Next, Round, POSITIVITY_BITS};
use crate::status::Status;
use crate::table::{Pass, Phase, StepEntries, StepQuantities, TableView};
use crate::workspace::{Subinterval, WorkspaceView};

verus! {

/// The arithmetic answers each question in one way only.
#[verifier::opaque]
pub open spec fn single_valued<A: Fn(Op, Double, Double) -> Double>(arithmetic: A) -> bool {
    forall|op: Op, x: Double, y: Double, r1: Double, r2: Double|
        #[trigger] yields(arithmetic, op, x, y, r1) && #[trigger] yields(arithmetic, op, x, y, r2) ==> r1 == r2
}

/// The rule gives one estimate only over each range.
#[verifier::opaque]
pub open spec fn single_estimate<R: Fn(Double, Double) -> Estimate>(rule: R) -> bool {
    forall|a: Double, b: Double, e1: Estimate, e2: Estimate|
        #[trigger] call_ensures(rule, (a, b), e1) && #[trigger] call_ensures(rule, (a, b), e2) ==> e1 == e2
}

proof fn lemma_partial_sums_agree<A: Fn(Op, Double, Double) -> Double>(
    arithmetic: A,
    terms: Seq<Double>,
    partial: Seq<Double>,
    other: Seq<Double>,
    k: int,
)
    requires
        single_valued(arithmetic),
        sums(arithmetic, terms, partial),
        sums(arithmetic, terms, other),
        0 <= k <= terms.len(),
    ensures
        partial[k] == other[k],
    decreases k,
{
    reveal(single_valued);
    if k > 0 {
        lemma_partial_sums_agree(arithmetic, terms, partial, other, k - 1);
        assert(yields(arithmetic, Op::Add, partial[k - 1], terms[k - 1], partial[k]));
        assert(yields(arithmetic, Op::Add, other[k - 1], terms[k - 1], other[k]));
    }
}

/// With an arithmetic that answers in one way only, a sum has one value only.
pub proof fn lemma_sum_single_valued<A: Fn(Op, Double, Double) -> Double>(
    arithmetic: A,
    terms: Seq<Double>,
    r1: Double,
    r2: Double,
)
    requires
        single_valued(arithmetic),
        is_sum(arithmetic, terms, r1),
        is_sum(arithmetic, terms, r2),
    ensures
        r1 == r2,
{
    let partial = choose|p: Seq<Double>| #[trigger] sums(arithmetic, terms, p) && r1 == p[terms.len() as int];
    let other = choose|p: Seq<Double>| #[trigger] sums(arithmetic, terms, p) && r2 == p[terms.len() as int];
    lemma_partial_sums_agree(arithmetic, terms, partial, other, terms.len() as int);
}

/// With a rule and an arithmetic that answer in one way only, the bisection of
/// a subinterval is measured in one way only.
pub proof fn lemma_measured_single_valued<R: Fn(Double, Double) -> Estimate, A: Fn(Op, Double, Double) -> Double>(
    rule: R,
    arithmetic: A,
    parent: Subinterval,
    area: Double,
    errsum: Double,
    epsrel: Double,
    plain: bool,
    m1: Bisection,
    m2: Bisection,
)
    requires
        single_estimate(rule),
        single_valued(arithmetic),
        m1.measured(rule, arithmetic, parent, area, errsum, epsrel, plain),
        m2.measured(rule, arithmetic, parent, area, errsum, epsrel, plain),
    ensures
        m1 == m2,
{
    reveal(single_valued);
    reveal(single_estimate);
    assert(m1.mid == m2.mid);
    assert(m1.area1 == m2.area1 && m1.error1 == m2.error1 && m1.resasc1 == m2.resasc1);
    assert(m1.area2 == m2.area2 && m1.error2 == m2.error2 && m1.resasc2 == m2.resasc2);
    assert(m1.area12 == m2.area12);
    assert(m1.error12 == m2.error12);
    assert(m1.errsum == m2.errsum);
    assert(m1.area == m2.area);
    assert(m1.scaled == m2.scaled);
    assert(m1.delta == m2.delta);
    assert(m1.delta_bound == m2.delta_bound);
    assert(m1.error_floor == m2.error_floor);
    assert(m1.small == m2.small);
}

#[verifier::spinoff_prover]
proof fn lemma_bisections_agree<R: Fn(Double, Double) -> Estimate, A: Fn(Op, Double, Double) -> Double>(
    started: PlainRun,
    rule: R,
    arithmetic: A,
    w: WorkspaceView,
    epsrel: Double,
    ms1: Seq<Bisection>,
    ms2: Seq<Bisection>,
    k: int,
)
    requires
        single_estimate(rule),
        single_valued(arithmetic),
        started.bisections(rule, arithmetic, w, epsrel, ms1),
        started.bisections(rule, arithmetic, w, epsrel, ms2),
        0 <= k <= ms1.len(),
        k <= ms2.len(),
    ensures
        ms1.take(k) == ms2.take(k),
    decreases k,
{
    if k == 0 {
        assert(ms1.take(0) =~= ms2.take(0));
    } else {
        lemma_bisections_agree(started, rule, arithmetic, w, epsrel, ms1, ms2, k - 1);
        if k >= 2 {
            lemma_bisections_agree(started, rule, arithmetic, w, epsrel, ms1, ms2, k - 2);
            assert(ms1.take(k - 1)[k - 2] == ms1[k - 2]);
            assert(ms2.take(k - 1)[k - 2] == ms2[k - 2]);
        }
        let at = started.after(w, ms1.take(k - 1));
        let area = started.area_before(w.slots[0].result, ms1, k - 1);
        assert(area == started.area_before(w.slots[0].result, ms2, k - 1));
        assert(started.bisection_at(rule, arithmetic, w, epsrel, ms1, k - 1));
        assert(started.bisection_at(rule, arithmetic, w, epsrel, ms2, k - 1));
        assert(at.0.bisection_made(rule, arithmetic, at.1, area, epsrel, ms1[k - 1]));
        assert(at.0.bisection_made(rule, arithmetic, at.1, area, epsrel, ms2[k - 1]));
        reveal(PlainRun::bisection_made);
        lemma_measured_single_valued(
            rule,
            arithmetic,
            at.1.slots[at.1.current as int],
            area,
            at.0.errsum,
            epsrel,
            true,
            ms1[k - 1],
            ms2[k - 1],
        );
        assert(ms1.take(k) =~= ms1.take(k - 1).push(ms1[k - 1]));
        assert(ms2.take(k) =~= ms2.take(k - 1).push(ms2[k - 1]));
    }
}

#[verifier::spinoff_prover]
proof fn lemma_traces_agree<R: Fn(Double, Double) -> Estimate, A: Fn(Op, Double, Double) -> Double>(
    started: PlainRun,
    rule: R,
    arithmetic: A,
    w: WorkspaceView,
    epsrel: Double,
    ms1: Seq<Bisection>,
    ms2: Seq<Bisection>,
)
    requires
        single_estimate(rule),
        single_valued(arithmetic),
        started.bisections(rule, arithmetic, w, epsrel, ms1),
        started.bisections(rule, arithmetic, w, epsrel, ms2),
        ms1.len() >= 1,
        ms2.len() >= 1,
        !started.after(w, ms1).0.proceeds(),
        !started.after(w, ms2).0.proceeds(),
    ensures
        ms1 == ms2,
{
    let n = if ms1.len() <= ms2.len() {
        ms1.len() as int
    } else {
        ms2.len() as int
    };
    lemma_bisections_agree(started, rule, arithmetic, w, epsrel, ms1, ms2, n);
    assert(ms1.take(ms1.len() as int) =~= ms1);
    assert(ms2.take(ms2.len() as int) =~= ms2);
    if ms1.len() < ms2.len() {
        assert(ms2.take(n) == ms1);
        assert(started.bisection_at(rule, arithmetic, w, epsrel, ms2, n));
    } else if ms2.len() < ms1.len() {
        assert(ms1.take(n) == ms2);
        assert(started.bisection_at(rule, arithmetic, w, epsrel, ms1, n));
    }
}

/// With a rule and an arithmetic that answer in one way only, a plain run has
/// one outcome only: two runs from the same start leave the same workspace and
/// return the same result, the same error and the same status.
#[verifier::spinoff_prover]
pub proof fn lemma_plain_run_single_valued<R: Fn(Double, Double) -> Estimate, A: Fn(Op, Double, Double) -> Double>(
    started: PlainRun,
    rule: R,
    arithmetic: A,
    w: WorkspaceView,
    epsrel: Double,
    after1: WorkspaceView,
    result1: Double,
    abserr1: Double,
    status1: Status,
    after2: WorkspaceView,
    result2: Double,
    abserr2: Double,
    status2: Status,
)
    requires
        single_estimate(rule),
        single_valued(arithmetic),
        started.ran(rule, arithmetic, w, epsrel, after1, result1, abserr1, status1),
        started.ran(rule, arithmetic, w, epsrel, after2, result2, abserr2, status2),
    ensures
        after1 == after2,
        result1 == result2,
        abserr1 == abserr2,
        status1 == status2,
{
    let ms1 = choose|ms: Seq<Bisection>| #[trigger]
        started.bisections(rule, arithmetic, w, epsrel, ms) && ms.len() >= 1 && started.after(w, ms).1 == after1
            && !started.after(w, ms).0.proceeds() && status1 == started.after(w, ms).0.outcome() && abserr1
            == started.after(w, ms).0.errsum && is_sum(arithmetic, after1.active_results(), result1);
    let ms2 = choose|ms: Seq<Bisection>| #[trigger]
        started.bisections(rule, arithmetic, w, epsrel, ms) && ms.len() >= 1 && started.after(w, ms).1 == after2
            && !started.after(w, ms).0.proceeds() && status2 == started.after(w, ms).0.outcome() && abserr2
            == started.after(w, ms).0.errsum && is_sum(arithmetic, after2.active_results(), result2);
    lemma_traces_agree(started, rule, arithmetic, w, epsrel, ms1, ms2);
    lemma_sum_single_valued(arithmetic, after1.active_results(), result1, result2);
}

/// With a rule and an arithmetic that answer in one way only, a plain
/// integration is a function of its arguments and of the workspace it is
/// entered with: two of them on the same arguments leave the same workspace and
/// return the same result, the same error and the same status.
pub proof fn lemma_plain_integration_single_valued<R: Fn(Double, Double) -> Estimate, A: Fn(Op, Double, Double) -> Double>(
    rule: R,
    arithmetic: A,
    before: WorkspaceView,
    a: Double,
    b: Double,
    epsabs: Double,
    epsrel: Double,
    limit: usize,
    after1: WorkspaceView,
    result1: Double,
    abserr1: Double,
    status1: Status,
    after2: WorkspaceView,
    result2: Double,
    abserr2: Double,
    status2: Status,
)
    requires
        single_estimate(rule),
        single_valued(arithmetic),
        integrated(rule, arithmetic, before, a, b, epsabs, epsrel, limit, after1, result1, abserr1, status1),
        integrated(rule, arithmetic, before, a, b, epsabs, epsrel, limit, after2, result2, abserr2, status2),
    ensures
        after1 == after2,
        result1 == result2,
        abserr1 == abserr2,
        status1 == status2,
{
    let level = Double { bits: FIFTY_EPSILON_BITS };
    let (whole1, first1) = choose|whole: Estimate, first: FirstEstimate| #[trigger]
        call_ensures(rule, (a, b), whole) && #[trigger] first.made_of(arithmetic, whole, epsrel, level)
            && match first.verdict(epsabs, limit as int, true) {
            Some(s) => status1 == s && result1 == whole.result && abserr1 == whole.abserr && after1
                == WorkspaceView::opened(before.limit, a, b, whole.result, whole.abserr, before.slots, before.order),
            None => after1.size >= 2 && PlainRun::started(epsabs, limit, first).ran(
                rule,
                arithmetic,
                WorkspaceView::opened(before.limit, a, b, whole.result, whole.abserr, before.slots, before.order),
                epsrel,
                after1,
                result1,
                abserr1,
                status1,
            ),
        };
    let (whole2, first2) = choose|whole: Estimate, first: FirstEstimate| #[trigger]
        call_ensures(rule, (a, b), whole) && #[trigger] first.made_of(arithmetic, whole, epsrel, level)
            && match first.verdict(epsabs, limit as int, true) {
            Some(s) => status2 == s && result2 == whole.result && abserr2 == whole.abserr && after2
                == WorkspaceView::opened(before.limit, a, b, whole.result, whole.abserr, before.slots, before.order),
            None => after2.size >= 2 && PlainRun::started(epsabs, limit, first).ran(
                rule,
                arithmetic,
                WorkspaceView::opened(before.limit, a, b, whole.result, whole.abserr, before.slots, before.order),
                epsrel,
                after2,
                result2,
                abserr2,
                status2,
            ),
        };
    assert(whole1 == whole2) by {
        reveal(single_estimate);
    }
    assert(first1 == first2) by {
        reveal(single_valued);
    }
    if first1.verdict(epsabs, limit as int, true) is None {
        lemma_plain_run_single_valued(
            PlainRun::started(epsabs, limit, first1),
            rule,
            arithmetic,
            WorkspaceView::opened(before.limit, a, b, whole1.result, whole1.abserr, before.slots, before.order),
            epsrel,
            after1,
            result1,
            abserr1,
            status1,
            after2,
            result2,
            abserr2,
            status2,
        );
    }
}

/// With an arithmetic that answers in one way only, the quantities of a step
/// are formed of its entries in one way only.
pub proof fn lemma_step_single_valued<A: Fn(Op, Double, Double) -> Double>(
    arithmetic: A,
    e: StepEntries,
    q1: StepQuantities,
    q2: StepQuantities,
)
    requires
        single_valued(arithmetic),
        q1.made_of(arithmetic, e),
        q2.made_of(arithmetic, e),
    ensures
        q1 == q2,
{
    reveal(single_valued);
    assert(q1.delta1 == q2.delta1 && q1.delta2 == q2.delta2 && q1.delta3 == q2.delta3);
    assert(q1.tol1 == q2.tol1 && q1.tol2 == q2.tol2 && q1.tol3 == q2.tol3);
    assert(q1.err23 == q2.err23);
    assert(q1.floor2 == q2.floor2);
    assert(q1.ss == q2.ss);
    assert(q1.ss_e1 == q2.ss_e1);
    assert(q1.res == q2.res);
    assert(q1.error == q2.error);
}

#[verifier::spinoff_prover]
proof fn lemma_steps_agree<A: Fn(Op, Double, Double) -> Double>(
    first: Pass,
    arithmetic: A,
    t: TableView,
    qs1: Seq<StepQuantities>,
    qs2: Seq<StepQuantities>,
    k: int,
)
    requires
        single_valued(arithmetic),
        first.steps(arithmetic, t, qs1),
        first.steps(arithmetic, t, qs2),
        0 <= k <= qs1.len(),
        k <= qs2.len(),
    ensures
        qs1.take(k) == qs2.take(k),
    decreases k,
{
    if k == 0 {
        assert(qs1.take(0) =~= qs2.take(0));
    } else {
        lemma_steps_agree(first, arithmetic, t, qs1, qs2, k - 1);
        let at = first.after(t, qs1.take(k - 1));
        assert(first.step_at(arithmetic, t, qs1, k - 1));
        assert(first.step_at(arithmetic, t, qs2, k - 1));
        lemma_step_single_valued(arithmetic, at.0.entries(at.1), qs1[k - 1], qs2[k - 1]);
        assert(qs1.take(k) =~= qs1.take(k - 1).push(qs1[k - 1]));
        assert(qs2.take(k) =~= qs2.take(k - 1).push(qs2[k - 1]));
    }
}

/// With an arithmetic that answers in one way only, the error estimate of a
/// pass that ran to the end has one value only.
pub proof fn lemma_error_of_pass_single_valued<A: Fn(Op, Double, Double) -> Double>(
    arithmetic: A,
    t: TableView,
    result: Double,
    abserr1: Double,
    abserr2: Double,
)
    requires
        single_valued(arithmetic),
        t.error_of_pass(arithmetic, result, abserr1),
        t.error_of_pass(arithmetic, result, abserr2),
    ensures
        abserr1 == abserr2,
{
    reveal(single_valued);
    let (s1, f1) = choose|spread: Double, floor: Double|
        #[trigger] t.spread_of(arithmetic, result, spread) && #[trigger] yields(
            arithmetic,
            Op::Mul,
            Double { bits: FIVE_EPSILON_BITS },
            result.abs_spec(),
            floor,
        ) && abserr1 == (if t.nres < 3 {
            Double::largest_spec()
        } else {
            spread
        }).max_spec(floor);
    let (s2, f2) = choose|spread: Double, floor: Double|
        #[trigger] t.spread_of(arithmetic, result, spread) && #[trigger] yields(
            arithmetic,
            Op::Mul,
            Double { bits: FIVE_EPSILON_BITS },
            result.abs_spec(),
            floor,
        ) && abserr2 == (if t.nres < 3 {
            Double::largest_spec()
        } else {
            spread
        }).max_spec(floor);
    assert(f1 == f2);
    assert(s1 == s2);
}

/// With an arithmetic that answers in one way only, a pass over the table has
/// one outcome only: two passes over the same table leave the same table and
/// return the same result and the same error estimate.
#[verifier::spinoff_prover]
pub proof fn lemma_pass_single_valued<A: Fn(Op, Double, Double) -> Double>(
    arithmetic: A,
    t: TableView,
    after1: TableView,
    r1: (Double, Double),
    after2: TableView,
    r2: (Double, Double),
)
    requires
        single_valued(arithmetic),
        t.transformed(arithmetic, after1, r1),
        t.transformed(arithmetic, after2, r2),
    ensures
        after1 == after2,
        r1 == r2,
{
    if t.n < 3 {
        reveal(single_valued);
    } else {
        let first = Pass::begun(t);
        let b = t.begun();
        let qs1 = choose|qs: Seq<StepQuantities>| #[trigger]
            first.steps(arithmetic, b, qs) && first.ended(arithmetic, b, qs, after1, r1);
        let qs2 = choose|qs: Seq<StepQuantities>| #[trigger]
            first.steps(arithmetic, b, qs) && first.ended(arithmetic, b, qs, after2, r2);
        let n = if qs1.len() <= qs2.len() {
            qs1.len() as int
        } else {
            qs2.len() as int
        };
        lemma_steps_agree(first, arithmetic, b, qs1, qs2, n);
        assert(qs1.take(qs1.len() as int) =~= qs1);
        assert(qs2.take(qs2.len() as int) =~= qs2);
        if qs1.len() < qs2.len() {
            assert(qs2.take(n) == qs1);
            assert(first.step_at(arithmetic, b, qs2, n));
        } else if qs2.len() < qs1.len() {
            assert(qs1.take(n) == qs2);
            assert(first.step_at(arithmetic, b, qs1, n));
        } else {
            assert(qs1 == qs2);
            let end = first.after(b, qs1);
            if end.0.phase == Phase::Compacting {
                lemma_error_of_pass_single_valued(arithmetic, end.1, r1.0, r1.1, r2.1);
            }
        }
    }
}

/// With a rule and an arithmetic that answer in one way only, a round of an
/// extrapolating run leads to one state only.
#[verifier::spinoff_prover]
pub proof fn lemma_round_single_valued<R: Fn(Double, Double) -> Estimate, A: Fn(Op, Double, Double) -> Double>(
    run: ExtrapolatedRun,
    rule: R,
    arithmetic: A,
    w: WorkspaceView,
    t: TableView,
    epsrel: Double,
    r1: Round,
    r2: Round,
)
    requires
        single_estimate(rule),
        single_valued(arithmetic),
        run.round_made(rule, arithmetic, w, t, epsrel, r1),
        run.round_made(rule, arithmetic, w, t, epsrel, r2),
    ensures
        run.round(w, t, r1) == run.round(w, t, r2),
{
    reveal(ExtrapolatedRun::round_made);
    reveal(ExtrapolatedRun::round);
    let parent = w.slots[w.current as int];
    lemma_measured_single_valued(rule, arithmetic, parent, run.area, run.errsum, epsrel, false, r1.m, r2.m);
    assert(r1.large == r2.large) by {
        reveal(single_valued);
    }
    let b = run.bisected(w, t, r1.m, r1.large);
    if b.3 == Next::Extrapolate {
        lemma_pass_single_valued(
            arithmetic,
            b.2,
            r1.passed,
            (r1.x.reseps, r1.x.abseps),
            r2.passed,
            (r2.x.reseps, r2.x.abseps),
        );
        assert(r1.x == r2.x) by {
            reveal(single_valued);
        }
    }
}

#[verifier::spinoff_prover]
proof fn lemma_rounds_agree<R: Fn(Double, Double) -> Estimate, A: Fn(Op, Double, Double) -> Double>(
    start: ExtrapolatedRun,
    rule: R,
    arithmetic: A,
    w: WorkspaceView,
    t: TableView,
    epsrel: Double,
    rs1: Seq<Round>,
    rs2: Seq<Round>,
    k: int,
)
    requires
        single_estimate(rule),
        single_valued(arithmetic),
        start.rounds(rule, arithmetic, w, t, epsrel, rs1),
        start.rounds(rule, arithmetic, w, t, epsrel, rs2),
        0 <= k <= rs1.len(),
        k <= rs2.len(),
    ensures
        start.after_rounds(w, t, rs1.take(k)) == start.after_rounds(w, t, rs2.take(k)),
    decreases k,
{
    if k > 0 {
        lemma_rounds_agree(start, rule, arithmetic, w, t, epsrel, rs1, rs2, k - 1);
        let at = start.after_rounds(w, t, rs1.take(k - 1));
        assert(start.round_at(rule, arithmetic, w, t, epsrel, rs1, k - 1));
        assert(start.round_at(rule, arithmetic, w, t, epsrel, rs2, k - 1));
        lemma_round_single_valued(at.0, rule, arithmetic, at.1, at.2, epsrel, rs1[k - 1], rs2[k - 1]);
        assert(rs1.take(k).drop_last() =~= rs1.take(k - 1));
        assert(rs2.take(k).drop_last() =~= rs2.take(k - 1));
        assert(rs1.take(k).last() == rs1[k - 1]);
        assert(rs2.take(k).last() == rs2[k - 1]);
    }
}

/// With a rule and an arithmetic that answer in one way only, a run that has
/// ended in a given state has one outcome only.
pub proof fn lemma_ended_single_valued<R: Fn(Double, Double) -> Estimate, A: Fn(Op, Double, Double) -> Double>(
    run: ExtrapolatedRun,
    rule: R,
    arithmetic: A,
    w: WorkspaceView,
    t: TableView,
    next: Next,
    epsrel: Double,
    resabs0: Double,
    after1: WorkspaceView,
    result1: Double,
    abserr1: Double,
    status1: Status,
    after2: WorkspaceView,
    result2: Double,
    abserr2: Double,
    status2: Status,
)
    requires
        single_estimate(rule),
        single_valued(arithmetic),
        run.ended(rule, arithmetic, w, t, next, epsrel, resabs0, after1, result1, abserr1, status1),
        run.ended(rule, arithmetic, w, t, next, epsrel, resabs0, after2, result2, abserr2, status2),
    ensures
        after1 == after2,
        result1 == result2,
        abserr1 == abserr2,
        status1 == status2,
{
    match next {
        Next::Finish => {
            lemma_sum_single_valued(arithmetic, after1.active_results(), result1, result2);
        },
        Next::Conclude => {
            let c1 = choose|c: Closing| #[trigger]
                c.made_of(arithmetic, run, resabs0) && status1 == run.verdict(c).status && if run.verdict(
                    c,
                ).extrapolated {
                    result1 == run.res_ext && abserr1 == run.err_ext
                } else {
                    abserr1 == run.errsum && is_sum(arithmetic, after1.active_results(), result1)
                };
            let c2 = choose|c: Closing| #[trigger]
                c.made_of(arithmetic, run, resabs0) && status2 == run.verdict(c).status && if run.verdict(
                    c,
                ).extrapolated {
                    result2 == run.res_ext && abserr2 == run.err_ext
                } else {
                    abserr2 == run.errsum && is_sum(arithmetic, after2.active_results(), result2)
                };
            assert(c1 == c2) by {
                reveal(single_valued);
            }
            if !run.verdict(c1).extrapolated {
                lemma_sum_single_valued(arithmetic, after1.active_results(), result1, result2);
            }
        },
        Next::Bisect => {
            let parent = w.slots[w.current as int];
            let m1 = choose|m: Bisection| #[trigger]
                m.measured(rule, arithmetic, parent, run.area, run.errsum, epsrel, false) && after1 == m.stored(w)
                    && abserr1 == m.errsum;
            let m2 = choose|m: Bisection| #[trigger]
                m.measured(rule, arithmetic, parent, run.area, run.errsum, epsrel, false) && after2 == m.stored(w)
                    && abserr2 == m.errsum;
            lemma_measured_single_valued(rule, arithmetic, parent, run.area, run.errsum, epsrel, false, m1, m2);
            lemma_sum_single_valued(arithmetic, after1.active_results(), result1, result2);
        },
        Next::Extrapolate => {},
    }
}

/// With a rule and an arithmetic that answer in one way only, an extrapolating
/// run has one outcome only: two runs from the same start leave the same
/// workspace and return the same result, the same error and the same status.
#[verifier::spinoff_prover]
pub proof fn lemma_extrapolated_run_single_valued<R: Fn(Double, Double) -> Estimate, A: Fn(Op, Double, Double) -> Double>(
    start: ExtrapolatedRun,
    rule: R,
    arithmetic: A,
    w: WorkspaceView,
    t: TableView,
    epsrel: Double,
    resabs0: Double,
    after1: WorkspaceView,
    result1: Double,
    abserr1: Double,
    status1: Status,
    after2: WorkspaceView,
    result2: Double,
    abserr2: Double,
    status2: Status,
)
    requires
        single_estimate(rule),
        single_valued(arithmetic),
        start.ran(rule, arithmetic, w, t, epsrel, resabs0, after1, result1, abserr1, status1),
        start.ran(rule, arithmetic, w, t, epsrel, resabs0, after2, result2, abserr2, status2),
    ensures
        after1 == after2,
        result1 == result2,
        abserr1 == abserr2,
        status1 == status2,
{
    let rs1 = choose|rs: Seq<Round>| #[trigger]
        start.rounds(rule, arithmetic, w, t, epsrel, rs) && start.after_rounds(w, t, rs).0.ended(
            rule,
            arithmetic,
            start.after_rounds(w, t, rs).1,
            start.after_rounds(w, t, rs).2,
            start.after_rounds(w, t, rs).3,
            epsrel,
            resabs0,
            after1,
            result1,
            abserr1,
            status1,
        );
    let rs2 = choose|rs: Seq<Round>| #[trigger]
        start.rounds(rule, arithmetic, w, t, epsrel, rs) && start.after_rounds(w, t, rs).0.ended(
            rule,
            arithmetic,
            start.after_rounds(w, t, rs).1,
            start.after_rounds(w, t, rs).2,
            start.after_rounds(w, t, rs).3,
            epsrel,
            resabs0,
            after2,
            result2,
            abserr2,
            status2,
        );
    let n = if rs1.len() <= rs2.len() {
        rs1.len() as int
    } else {
        rs2.len() as int
    };
    lemma_rounds_agree(start, rule, arithmetic, w, t, epsrel, rs1, rs2, n);
    assert(rs1.take(rs1.len() as int) =~= rs1);
    assert(rs2.take(rs2.len() as int) =~= rs2);
    if rs1.len() < rs2.len() {
        assert(start.round_at(rule, arithmetic, w, t, epsrel, rs2, n));
        reveal(ExtrapolatedRun::round_made);
    } else if rs2.len() < rs1.len() {
        assert(start.round_at(rule, arithmetic, w, t, epsrel, rs1, n));
        reveal(ExtrapolatedRun::round_made);
    } else {
        let end = start.after_rounds(w, t, rs1);
        lemma_ended_single_valued(
            end.0,
            rule,
            arithmetic,
            end.1,
            end.2,
            end.3,
            epsrel,
            resabs0,
            after1,
            result1,
            abserr1,
            status1,
            after2,
            result2,
            abserr2,
            status2,
        );
    }
}

/// The run that follows the first estimate `first` of an integration with
/// extrapolation, made of the estimate `whole` over the whole range, has left
/// the workspace `after` and returned `result`, `abserr` and `status`.
spec fn followed<R: Fn(Double, Double) -> Estimate, A: Fn(Op, Double, Double) -> Double>(
    rule: R,
    arithmetic: A,
    opened: WorkspaceView,
    whole: Estimate,
    first: FirstEstimate,
    epsabs: Double,
    epsrel: Double,
    limit: usize,
    after: WorkspaceView,
    result: Double,
    abserr: Double,
    status: Status,
) -> bool {
    exists|floor: Double| #[trigger]
        yields(arithmetic, Op::Mul, Double { bits: POSITIVITY_BITS }, whole.resabs, floor)
            && ExtrapolatedRun::started(epsabs, limit, first, floor).ran(
            rule,
            arithmetic,
            opened,
            TableView::holding(first.result),
            epsrel,
            whole.resabs,
            after,
            result,
            abserr,
            status,
        )
}

proof fn lemma_followed_single_valued<R: Fn(Double, Double) -> Estimate, A: Fn(Op, Double, Double) -> Double>(
    rule: R,
    arithmetic: A,
    opened: WorkspaceView,
    whole: Estimate,
    first: FirstEstimate,
    epsabs: Double,
    epsrel: Double,
    limit: usize,
    after1: WorkspaceView,
    result1: Double,
    abserr1: Double,
    status1: Status,
    after2: WorkspaceView,
    result2: Double,
    abserr2: Double,
    status2: Status,
)
    requires
        single_estimate(rule),
        single_valued(arithmetic),
        followed(rule, arithmetic, opened, whole, first, epsabs, epsrel, limit, after1, result1, abserr1, status1),
        followed(rule, arithmetic, opened, whole, first, epsabs, epsrel, limit, after2, result2, abserr2, status2),
    ensures
        after1 == after2,
        result1 == result2,
        abserr1 == abserr2,
        status1 == status2,
{
    let positivity = Double { bits: POSITIVITY_BITS };
    let table = TableView::holding(first.result);
    let f1 = choose|floor: Double| #[trigger]
        yields(arithmetic, Op::Mul, positivity, whole.resabs, floor) && ExtrapolatedRun::started(
            epsabs,
            limit,
            first,
            floor,
        ).ran(rule, arithmetic, opened, table, epsrel, whole.resabs, after1, result1, abserr1, status1);
    let f2 = choose|floor: Double| #[trigger]
        yields(arithmetic, Op::Mul, positivity, whole.resabs, floor) && ExtrapolatedRun::started(
            epsabs,
            limit,
            first,
            floor,
        ).ran(rule, arithmetic, opened, table, epsrel, whole.resabs, after2, result2, abserr2, status2);
    assert(f1 == f2) by {
        reveal(single_valued);
    }
    lemma_extrapolated_run_single_valued(
        ExtrapolatedRun::started(epsabs, limit, first, f1),
        rule,
        arithmetic,
        opened,
        table,
        epsrel,
        whole.resabs,
        after1,
        result1,
        abserr1,
        status1,
        after2,
        result2,
        abserr2,
        status2,
    );
}

/// With a rule and an arithmetic that answer in one way only, an integration
/// with extrapolation is a function of its arguments and of the workspace it is
/// entered with: two of them on the same arguments leave the same workspace and
/// return the same result, the same error and the same status.
pub proof fn lemma_extrapolated_integration_single_valued<R: Fn(Double, Double) -> Estimate, A: Fn(Op, Double, Double) -> Double>(
    rule: R,
    arithmetic: A,
    before: WorkspaceView,
    a: Double,
    b: Double,
    epsabs: Double,
    epsrel: Double,
    limit: usize,
    after1: WorkspaceView,
    result1: Double,
    abserr1: Double,
    status1: Status,
    after2: WorkspaceView,
    result2: Double,
    abserr2: Double,
    status2: Status,
)
    requires
        single_estimate(rule),
        single_valued(arithmetic),
        integrated_with_extrapolation(
            rule,
            arithmetic,
            before,
            a,
            b,
            epsabs,
            epsrel,
            limit,
            after1,
            result1,
            abserr1,
            status1,
        ),
        integrated_with_extrapolation(
            rule,
            arithmetic,
            before,
            a,
            b,
            epsabs,
            epsrel,
            limit,
            after2,
            result2,
            abserr2,
            status2,
        ),
    ensures
        after1 == after2,
        result1 == result2,
        abserr1 == abserr2,
        status1 == status2,
{
    let level = Double { bits: HUNDRED_EPSILON_BITS };
    let (whole1, first1) = choose|whole: Estimate, first: FirstEstimate| #[trigger]
        call_ensures(rule, (a, b), whole) && #[trigger] first.made_of(arithmetic, whole, epsrel, level)
            && match first.verdict(epsabs, limit as int, true) {
            Some(s) => status1 == s && result1 == whole.result && abserr1 == whole.abserr && after1
                == WorkspaceView::opened(before.limit, a, b, whole.result, whole.abserr, before.slots, before.order),
            None => after1.size >= 2 && followed(
                rule,
                arithmetic,
                WorkspaceView::opened(before.limit, a, b, whole.result, whole.abserr, before.slots, before.order),
                whole,
                first,
                epsabs,
                epsrel,
                limit,
                after1,
                result1,
                abserr1,
                status1,
            ),
        };
    let (whole2, first2) = choose|whole: Estimate, first: FirstEstimate| #[trigger]
        call_ensures(rule, (a, b), whole) && #[trigger] first.made_of(arithmetic, whole, epsrel, level)
            && match first.verdict(epsabs, limit as int, true) {
            Some(s) => status2 == s && result2 == whole.result && abserr2 == whole.abserr && after2
                == WorkspaceView::opened(before.limit, a, b, whole.result, whole.abserr, before.slots, before.order),
            None => after2.size >= 2 && followed(
                rule,
                arithmetic,
                WorkspaceView::opened(before.limit, a, b, whole.result, whole.abserr, before.slots, before.order),
                whole,
                first,
                epsabs,
                epsrel,
                limit,
                after2,
                result2,
                abserr2,
                status2,
            ),
        };
    assert(whole1 == whole2) by {
        reveal(single_estimate);
    }
    assert(first1 == first2) by {
        reveal(single_valued);
    }
    if first1.verdict(epsabs, limit as int, true) is None {
        lemma_followed_single_valued(
            rule,
            arithmetic,
            WorkspaceView::opened(before.limit, a, b, whole1.result, whole1.abserr, before.slots, before.order),
            whole1,
            first1,
            epsabs,
            epsrel,
            limit,
            after1,
            result1,
            abserr1,
            status1,
            after2,
            result2,
            abserr2,
            status2,
        );
    }
}

/// With a rule that answers in one way only, the estimates over the ranges
/// between the points are one sequence only.
pub proof fn lemma_asked_single_valued<R: Fn(Double, Double) -> Estimate>(
    rule: R,
    pts: Seq<Double>,
    es1: Seq<Estimate>,
    es2: Seq<Estimate>,
)
    requires
        single_estimate(rule),
        asked(rule, pts, es1),
        asked(rule, pts, es2),
    ensures
        es1 == es2,
{
    reveal(single_estimate);
    assert forall|k: int| 0 <= k < es1.len() implies es1[k] == es2[k] by {
        assert(call_ensures(rule, (pts[k], pts[k + 1]), es1[k]));
        assert(call_ensures(rule, (pts[k], pts[k + 1]), es2[k]));
    }
    assert(es1 =~= es2);
}

/// With an arithmetic that answers in one way only, estimates add up in one
/// way only.
pub proof fn lemma_adds_up_single_valued<A: Fn(Op, Double, Double) -> Double>(
    arithmetic: A,
    es: Seq<Estimate>,
    whole1: Estimate,
    whole2: Estimate,
)
    requires
        single_valued(arithmetic),
        adds_up(arithmetic, es, whole1),
        adds_up(arithmetic, es, whole2),
    ensures
        whole1 == whole2,
{
    lemma_sum_single_valued(arithmetic, Seq::new(es.len(), |k: int| es[k].result), whole1.result, whole2.result);
    lemma_sum_single_valued(arithmetic, Seq::new(es.len(), |k: int| es[k].abserr), whole1.abserr, whole2.abserr);
    lemma_sum_single_valued(arithmetic, Seq::new(es.len(), |k: int| es[k].resabs), whole1.resabs, whole2.resabs);
}

proof fn lemma_seeded_run_single_valued<R: Fn(Double, Double) -> Estimate, A: Fn(Op, Double, Double) -> Double>(
    rule: R,
    arithmetic: A,
    w: WorkspaceView,
    pts: Seq<Double>,
    es: Seq<Estimate>,
    whole: Estimate,
    first: FirstEstimate,
    epsabs: Double,
    epsrel: Double,
    limit: usize,
    after1: WorkspaceView,
    result1: Double,
    abserr1: Double,
    status1: Status,
    after2: WorkspaceView,
    result2: Double,
    abserr2: Double,
    status2: Status,
)
    requires
        single_estimate(rule),
        single_valued(arithmetic),
        seeded_run(rule, arithmetic, w, pts, es, whole, first, epsabs, epsrel, limit, after1, result1, abserr1, status1),
        seeded_run(rule, arithmetic, w, pts, es, whole, first, epsabs, epsrel, limit, after2, result2, abserr2, status2),
    ensures
        after1 == after2,
        result1 == result2,
        abserr1 == abserr2,
        status1 == status2,
{
    let begun = seeded(w, pieces_of(pts, es), whole.abserr);
    let positivity = Double { bits: POSITIVITY_BITS };
    let table = TableView::holding(first.result);
    let count = es.len() as usize;
    let (e1, f1) = choose|errsum: Double, floor: Double|
        #[trigger] is_sum(arithmetic, begun.active_errors(), errsum) && #[trigger] yields(
            arithmetic,
            Op::Mul,
            positivity,
            whole.resabs,
            floor,
        ) && ExtrapolatedRun::started_seeded(epsabs, limit, count, first, errsum, floor).ran(
            rule,
            arithmetic,
            begun,
            table,
            epsrel,
            whole.resabs,
            after1,
            result1,
            abserr1,
            status1,
        );
    let (e2, f2) = choose|errsum: Double, floor: Double|
        #[trigger] is_sum(arithmetic, begun.active_errors(), errsum) && #[trigger] yields(
            arithmetic,
            Op::Mul,
            positivity,
            whole.resabs,
            floor,
        ) && ExtrapolatedRun::started_seeded(epsabs, limit, count, first, errsum, floor).ran(
            rule,
            arithmetic,
            begun,
            table,
            epsrel,
            whole.resabs,
            after2,
            result2,
            abserr2,
            status2,
        );
    lemma_sum_single_valued(arithmetic, begun.active_errors(), e1, e2);
    assert(f1 == f2) by {
        reveal(single_valued);
    }
    lemma_extrapolated_run_single_valued(
        ExtrapolatedRun::started_seeded(epsabs, limit, count, first, e1, f1),
        rule,
        arithmetic,
        begun,
        table,
        epsrel,
        whole.resabs,
        after1,
        result1,
        abserr1,
        status1,
        after2,
        result2,
        abserr2,
        status2,
    );
}

/// With a rule and an arithmetic that answer in one way only, an integration
/// from the ranges between known points is a function of its arguments and of
/// the workspace it is entered with: two of them on the same arguments leave
/// the same workspace and return the same result, the same error and the same
/// status.
pub proof fn lemma_integration_from_points_single_valued<R: Fn(Double, Double) -> Estimate, A: Fn(Op, Double, Double) -> Double>(
    rule: R,
    arithmetic: A,
    before: WorkspaceView,
    pts: Seq<Double>,
    epsabs: Double,
    epsrel: Double,
    limit: usize,
    after1: WorkspaceView,
    result1: Double,
    abserr1: Double,
    status1: Status,
    after2: WorkspaceView,
    result2: Double,
    abserr2: Double,
    status2: Status,
)
    requires
        single_estimate(rule),
        single_valued(arithmetic),
        integrated_from_points(rule, arithmetic, before, pts, epsabs, epsrel, limit, after1, result1, abserr1, status1),
        integrated_from_points(rule, arithmetic, before, pts, epsabs, epsrel, limit, after2, result2, abserr2, status2),
    ensures
        after1 == after2,
        result1 == result2,
        abserr1 == abserr2,
        status1 == status2,
{
    let level = Double { bits: HUNDRED_EPSILON_BITS };
    let (es1, whole1, first1) = choose|es: Seq<Estimate>, whole: Estimate, first: FirstEstimate|
        #[trigger] asked(rule, pts, es) && #[trigger] adds_up(arithmetic, es, whole) && #[trigger] first.made_of(
            arithmetic,
            whole,
            epsrel,
            level,
        ) && match first.verdict(epsabs, limit as int, false) {
            Some(s) => status1 == s && result1 == whole.result && abserr1 == whole.abserr && after1 == seeded(
                before,
                pieces_of(pts, es),
                whole.abserr,
            ),
            None => after1.size >= pts.len() && seeded_run(
                rule,
                arithmetic,
                before,
                pts,
                es,
                whole,
                first,
                epsabs,
                epsrel,
                limit,
                after1,
                result1,
                abserr1,
                status1,
            ),
        };
    let (es2, whole2, first2) = choose|es: Seq<Estimate>, whole: Estimate, first: FirstEstimate|
        #[trigger] asked(rule, pts, es) && #[trigger] adds_up(arithmetic, es, whole) && #[trigger] first.made_of(
            arithmetic,
            whole,
            epsrel,
            level,
        ) && match first.verdict(epsabs, limit as int, false) {
            Some(s) => status2 == s && result2 == whole.result && abserr2 == whole.abserr && after2 == seeded(
                before,
                pieces_of(pts, es),
                whole.abserr,
            ),
            None => after2.size >= pts.len() && seeded_run(
                rule,
                arithmetic,
                before,
                pts,
                es,
                whole,
                first,
                epsabs,
                epsrel,
                limit,
                after2,
                result2,
                abserr2,
                status2,
            ),
        };
    lemma_asked_single_valued(rule, pts, es1, es2);
    lemma_adds_up_single_valued(arithmetic, es1, whole1, whole2);
    assert(first1 == first2) by {
        reveal(single_valued);
    }
    if first1.verdict(epsabs, limit as int, false) is None {
        lemma_seeded_run_single_valued(
            rule,
            arithmetic,
            before,
            pts,
            es1,
            whole1,
            first1,
            epsabs,
            epsrel,
            limit,
            after1,
            result1,
            abserr1,
            status1,
            after2,
            result2,
            abserr2,
            status2,
        );
    }
}

} // verus!
