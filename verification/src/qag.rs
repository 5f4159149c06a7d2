//! Plain adaptive bisection.
//!
//! `IntegrationWorkspace::qag` runs a whole integration. Its steps are public:
//! a [`Bisection`] holds what the rule and the arithmetic make of the halves of
//! a subinterval, and a [`PlainRun`] takes it in, counts the signs of round-off,
//! stores the halves in the workspace and says whether to go on.

use vstd::prelude::*;
use crate::arithmetic::{
    computes, errors_are_numbers, estimates, halfway, is_halfway, is_replaced, is_sum, minus, plus,
    replaced, times, yields, Estimate, Op, FIFTY_EPSILON_BITS,
};
use crate::double::Double;
use crate::parameters::{rejection, validate, FirstEstimate};
use crate::partition::{lemma_bisection_keeps_bounds, lemma_single_interval_partitions};
use crate::status::Status;
use crate::workspace::{IntegrationWorkspace, Subinterval, WorkspaceView};

verus! {

/// What a run takes in after the current subinterval has been bisected: the
/// estimates over both halves and the sums and bounds formed of them.
#[derive(Clone, Copy, Debug)]
pub struct Bisection {
    /// The point at which the subinterval was cut in two.
    pub mid: Double,
    /// Estimate, error and `resasc` of the lower half.
    pub area1: Double,
    pub error1: Double,
    pub resasc1: Double,
    /// Estimate, error and `resasc` of the upper half.
    pub area2: Double,
    pub error2: Double,
    pub resasc2: Double,
    /// `area1 + area2`
    pub area12: Double,
    /// `error1 + error2`
    pub error12: Double,
    /// The sum of the errors of all subintervals, the two halves in place of
    /// their parent.
    pub errsum: Double,
    /// The sum of the estimates of all subintervals, likewise.
    pub area: Double,
    /// The relative tolerance times the magnitude of `area`.
    pub scaled: Double,
    /// The estimate of the parent less `area12`.
    pub delta: Double,
    /// `1.0e-5` times the magnitude of `area12`.
    pub delta_bound: Double,
    /// `0.99` times the error of the parent.
    pub error_floor: Double,
    /// The magnitude below which the bounds cannot be told apart:
    /// `(1 + 100 eps) * (|mid| + 1000 u)`, with `eps` the machine epsilon and `u`
    /// the smallest normal number.
    pub small: Double,
}

/// Bit pattern of `1.0e-5`.
pub const STAGNATION_BITS: u64 = 0x3ee4_f8b5_88e3_68f1;

/// Bit pattern of `0.99`.
pub const ERROR_SHARE_BITS: u64 = 0x3fef_ae14_7ae1_47ae;

/// Bit pattern of one plus a hundred times the machine epsilon.
pub const SMALL_FACTOR_BITS: u64 = 0x3ff0_0000_0000_0064;

/// Bit pattern of a thousand times the smallest normal number.
pub const SMALL_OFFSET_BITS: u64 = 0x00af_4000_0000_0000;

impl Bisection {
    /// The report is what the rule and the arithmetic give for the bisection of
    /// `parent`, with `area` and `errsum` the sums of the estimates and the
    /// errors before it and `epsrel` the relative tolerance.
    ///
    /// The subinterval is cut halfway, and the rule is applied to both halves.
    /// In the sums the parent gives way to the halves; a plain run forms the
    /// difference first. The tolerance is scaled by the magnitude of the new sum
    /// of the estimates.
    pub open spec fn measured<R: Fn(Double, Double) -> Estimate, A: Fn(Op, Double, Double) -> Double>(
        self,
        rule: R,
        arithmetic: A,
        parent: Subinterval,
        area: Double,
        errsum: Double,
        epsrel: Double,
        plain: bool,
    ) -> bool {
        &&& is_halfway(arithmetic, parent.a, parent.b, self.mid)
        &&& exists|lower: Estimate| #[trigger]
            call_ensures(rule, (parent.a, self.mid), lower) && self.area1 == lower.result && self.error1
                == lower.abserr && self.resasc1 == lower.resasc
        &&& exists|upper: Estimate| #[trigger]
            call_ensures(rule, (self.mid, parent.b), upper) && self.area2 == upper.result && self.error2
                == upper.abserr && self.resasc2 == upper.resasc
        &&& yields(arithmetic, Op::Add, self.area1, self.area2, self.area12)
        &&& yields(arithmetic, Op::Add, self.error1, self.error2, self.error12)
        &&& is_replaced(arithmetic, errsum, self.error12, parent.error, plain, self.errsum)
        &&& is_replaced(arithmetic, area, self.area12, parent.result, plain, self.area)
        &&& yields(arithmetic, Op::Mul, epsrel, self.area.abs_spec(), self.scaled)
        &&& yields(arithmetic, Op::Sub, parent.result, self.area12, self.delta)
        &&& yields(arithmetic, Op::Mul, Double { bits: STAGNATION_BITS }, self.area12.abs_spec(), self.delta_bound)
        &&& yields(arithmetic, Op::Mul, Double { bits: ERROR_SHARE_BITS }, parent.error, self.error_floor)
        &&& exists|t: Double| #[trigger]
            yields(arithmetic, Op::Add, self.mid.abs_spec(), Double { bits: SMALL_OFFSET_BITS }, t) && yields(
                arithmetic,
                Op::Mul,
                Double { bits: SMALL_FACTOR_BITS },
                t,
                self.small,
            )
    }

    /// Bisects `parent`: cuts it halfway, applies the rule to both halves, and
    /// forms what a run asks of a bisection.
    pub fn measure<R: Fn(Double, Double) -> Estimate, A: Fn(Op, Double, Double) -> Double>(
        rule: &R,
        arithmetic: &A,
        parent: &Subinterval,
        area: Double,
        errsum: Double,
        epsrel: Double,
        plain: bool,
    ) -> (m: Bisection)
        requires
            estimates(*rule),
            computes(*arithmetic),
        ensures
            m.measured(*rule, *arithmetic, *parent, area, errsum, epsrel, plain),
    {
        let mid = halfway(arithmetic, parent.a, parent.b);
        let lower = rule(parent.a, mid);
        let upper = rule(mid, parent.b);
        let area12 = plus(arithmetic, lower.result, upper.result);
        let error12 = plus(arithmetic, lower.abserr, upper.abserr);
        let new_errsum = replaced(arithmetic, errsum, error12, parent.error, plain);
        let new_area = replaced(arithmetic, area, area12, parent.result, plain);
        let offset = plus(arithmetic, mid.abs(), Double { bits: SMALL_OFFSET_BITS });
        Bisection {
            mid,
            area1: lower.result,
            error1: lower.abserr,
            resasc1: lower.resasc,
            area2: upper.result,
            error2: upper.abserr,
            resasc2: upper.resasc,
            area12,
            error12,
            errsum: new_errsum,
            area: new_area,
            scaled: times(arithmetic, epsrel, new_area.abs()),
            delta: minus(arithmetic, parent.result, area12),
            delta_bound: times(arithmetic, Double { bits: STAGNATION_BITS }, area12.abs()),
            error_floor: times(arithmetic, Double { bits: ERROR_SHARE_BITS }, parent.error),
            small: times(arithmetic, Double { bits: SMALL_FACTOR_BITS }, offset),
        }
    }

    /// Both halves have an error estimate of their own, not just `resasc`.
    pub open spec fn reliable(self) -> bool {
        self.resasc1.ne_spec(self.error1) && self.resasc2.ne_spec(self.error2)
    }

    /// The halves add up to the parent's estimate within `delta_bound`, yet
    /// their error is not below `error_floor`: a sign of round-off.
    pub open spec fn stagnates(self) -> bool {
        self.delta.abs_spec().le_spec(self.delta_bound) && self.error12.ge_spec(self.error_floor)
    }

    /// The bounds of the parent are both within `small` of zero: the
    /// subinterval is too small to bisect.
    pub open spec fn too_small(self, parent: Subinterval) -> bool {
        parent.a.abs_spec().le_spec(self.small) && parent.b.abs_spec().le_spec(self.small)
    }

    /// The tolerance after the bisection.
    pub open spec fn tolerance(self, epsabs: Double) -> Double {
        epsabs.max_spec(self.scaled)
    }

    /// The workspace after the halves of its current subinterval have been
    /// stored.
    pub open spec fn stored(self, w: WorkspaceView) -> WorkspaceView {
        let parent = w.slots[w.current as int];
        w.bisected(
            parent.a,
            self.mid,
            self.area1,
            self.error1,
            self.mid,
            parent.b,
            self.area2,
            self.error2,
        ).reordered()
    }

    pub fn is_reliable(&self) -> (r: bool)
        ensures
            r == self.reliable(),
    {
        self.resasc1.ne(self.error1) && self.resasc2.ne(self.error2)
    }

    pub fn is_stagnant(&self) -> (r: bool)
        ensures
            r == self.stagnates(),
    {
        self.delta.abs().le(self.delta_bound) && self.error12.ge(self.error_floor)
    }

    pub fn is_too_small(&self, parent: &Subinterval) -> (r: bool)
        ensures
            r == self.too_small(*parent),
    {
        parent.a.abs().le(self.small) && parent.b.abs().le(self.small)
    }
}

/// The state of a run of plain adaptive bisection.
#[derive(Clone, Copy, Debug)]
pub struct PlainRun {
    /// The absolute tolerance.
    pub epsabs: Double,
    /// The budget: the largest number of subintervals.
    pub limit: usize,
    /// The number of subintervals in use.
    pub iteration: usize,
    /// How often a bisection has left estimate and error where they were.
    pub roundoff_type1: usize,
    /// How often, from the tenth subinterval on, a bisection has raised the error.
    pub roundoff_type2: usize,
    /// 0 while nothing is wrong, 2 for round-off, 3 for a subinterval too small
    /// to bisect.
    pub error_type: i32,
    /// The sum of the errors of all subintervals.
    pub errsum: Double,
    /// The tolerance that `errsum` is held to.
    pub tolerance: Double,
}

impl PlainRun {
    pub open spec fn wf(self) -> bool {
        &&& 1 <= self.iteration <= self.limit
        &&& self.roundoff_type1 <= self.iteration
        &&& self.roundoff_type2 <= self.iteration
    }

    /// The run works on the workspace `w`: the subintervals in use are the
    /// active ones, the budget is within the capacity, and the cursor is on the
    /// head of the priority list.
    pub open spec fn attached(self, w: WorkspaceView) -> bool {
        &&& w.wf()
        &&& w.size == self.iteration
        &&& self.limit <= w.limit
        &&& w.nrmax == 0
    }

    /// The run at its start, after a first estimate that did not end it.
    pub open spec fn started(epsabs: Double, limit: usize, first: FirstEstimate) -> PlainRun {
        PlainRun {
            epsabs,
            limit,
            iteration: 1,
            roundoff_type1: 0,
            roundoff_type2: 0,
            error_type: 0,
            errsum: first.abserr,
            tolerance: first.tolerance(epsabs),
        }
    }

    /// Whether the run goes on to bisect: the budget is not used up, nothing is
    /// wrong, and the error is above the tolerance.
    pub open spec fn proceeds(self) -> bool {
        self.iteration < self.limit && self.error_type == 0 && self.errsum.gt_spec(self.tolerance)
    }

    /// The run after the bisection `m` of the subinterval `parent`.
    ///
    /// Round-off is suspected six times over if the halves stagnate, and twenty
    /// times over if their error exceeds the parent's from the tenth subinterval
    /// on; both count only while the halves have error estimates of their own.
    /// While the error is above the tolerance, a suspicion confirmed so often
    /// ends the run, and so does a subinterval too small to bisect.
    pub open spec fn advanced(self, parent: Subinterval, m: Bisection) -> PlainRun {
        let type1 = if m.reliable() && m.stagnates() {
            self.roundoff_type1 + 1
        } else {
            self.roundoff_type1 as int
        };
        let type2 = if m.reliable() && self.iteration >= 10 && m.error12.gt_spec(parent.error) {
            self.roundoff_type2 + 1
        } else {
            self.roundoff_type2 as int
        };
        let tolerance = m.tolerance(self.epsabs);
        let above = m.errsum.gt_spec(tolerance);
        PlainRun {
            iteration: (self.iteration + 1) as usize,
            roundoff_type1: type1 as usize,
            roundoff_type2: type2 as usize,
            error_type: if above && m.too_small(parent) {
                3
            } else if above && (type1 >= 6 || type2 >= 20) {
                2
            } else {
                self.error_type
            },
            errsum: m.errsum,
            tolerance,
            ..self
        }
    }

    /// The run and the workspace after the bisections `ms`, one after the
    /// other, from this run and the workspace `w`.
    pub open spec fn after(self, w: WorkspaceView, ms: Seq<Bisection>) -> (PlainRun, WorkspaceView)
        decreases ms.len(),
    {
        if ms.len() == 0 {
            (self, w)
        } else {
            let before = self.after(w, ms.drop_last());
            before.0.bisection(before.1, ms.last())
        }
    }

    /// The run and the workspace after the bisection `m` of the current
    /// subinterval of `w`.
    #[verifier::opaque]
    pub open spec fn bisection(self, w: WorkspaceView, m: Bisection) -> (PlainRun, WorkspaceView) {
        (self.advanced(w.slots[w.current as int], m), m.stored(w))
    }

    /// The bisection `m` is what the rule and the arithmetic give for the
    /// current subinterval of `w`, with `area` the sum of the estimates and the
    /// sum of the errors as the run has it.
    #[verifier::opaque]
    pub open spec fn bisection_made<R: Fn(Double, Double) -> Estimate, A: Fn(Op, Double, Double) -> Double>(
        self,
        rule: R,
        arithmetic: A,
        w: WorkspaceView,
        area: Double,
        epsrel: Double,
        m: Bisection,
    ) -> bool {
        m.measured(rule, arithmetic, w.slots[w.current as int], area, self.errsum, epsrel, true)
    }

    /// The sum of the estimates before the bisection `k` of `ms`: that of the
    /// bisection before it, and of the first estimate before the first.
    pub open spec fn area_before(self, first: Double, ms: Seq<Bisection>, k: int) -> Double {
        if k == 0 {
            first
        } else {
            ms[k - 1].area
        }
    }

    /// The bisection `k` of `ms` is what the rule and the arithmetic give for
    /// the subinterval that is current when it is made, with the sums as the
    /// run then has them; and the run proceeds before it unless it is the first.
    pub open spec fn bisection_at<R: Fn(Double, Double) -> Estimate, A: Fn(Op, Double, Double) -> Double>(
        self,
        rule: R,
        arithmetic: A,
        w: WorkspaceView,
        epsrel: Double,
        ms: Seq<Bisection>,
        k: int,
    ) -> bool {
        &&& k > 0 ==> self.after(w, ms.take(k)).0.proceeds()
        &&& self.after(w, ms.take(k)).0.bisection_made(
            rule,
            arithmetic,
            self.after(w, ms.take(k)).1,
            self.area_before(w.slots[0].result, ms, k),
            epsrel,
            ms[k],
        )
    }

    /// Each of the bisections `ms` is made in the state that the bisections
    /// before it have left.
    pub open spec fn bisections<R: Fn(Double, Double) -> Estimate, A: Fn(Op, Double, Double) -> Double>(
        self,
        rule: R,
        arithmetic: A,
        w: WorkspaceView,
        epsrel: Double,
        ms: Seq<Bisection>,
    ) -> bool {
        forall|k: int| 0 <= k < ms.len() ==> #[trigger] self.bisection_at(rule, arithmetic, w, epsrel, ms, k)
    }

    /// This run, started on the workspace `w` with its single subinterval, has
    /// run to its end: it has made one bisection and then one more for as long
    /// as it proceeded. It has left the workspace `after`, and `result`, `abserr`
    /// and `status` are what it returns: the sum of the results of the
    /// subintervals, the sum of their errors as the run has it, and its outcome.
    pub open spec fn ran<R: Fn(Double, Double) -> Estimate, A: Fn(Op, Double, Double) -> Double>(
        self,
        rule: R,
        arithmetic: A,
        w: WorkspaceView,
        epsrel: Double,
        after: WorkspaceView,
        result: Double,
        abserr: Double,
        status: Status,
    ) -> bool {
        exists|ms: Seq<Bisection>| #[trigger]
            self.bisections(rule, arithmetic, w, epsrel, ms) && ms.len() >= 1 && self.after(w, ms).1 == after
                && !self.after(w, ms).0.proceeds() && status == self.after(w, ms).0.outcome() && abserr
                == self.after(w, ms).0.errsum && is_sum(arithmetic, after.active_results(), result)
    }

    /// How the run has ended.
    pub open spec fn outcome(self) -> Status {
        if self.errsum.le_spec(self.tolerance) {
            Status::Converged
        } else if self.error_type == 2 {
            Status::RoundoffLimited
        } else if self.error_type == 3 {
            Status::IntegrandSingular
        } else if self.iteration == self.limit {
            Status::IterationLimitReached
        } else {
            Status::GenericFailure
        }
    }

    /// Starts a run after a first estimate that did not end it.
    pub fn start(epsabs: Double, limit: usize, first: &FirstEstimate) -> (run: PlainRun)
        requires
            1 <= limit,
        ensures
            run == Self::started(epsabs, limit, *first),
            run.wf(),
    {
        PlainRun {
            epsabs,
            limit,
            iteration: 1,
            roundoff_type1: 0,
            roundoff_type2: 0,
            error_type: 0,
            errsum: first.abserr,
            tolerance: epsabs.max(first.scaled),
        }
    }

    /// Takes in the bisection `m` of the current subinterval: updates the
    /// counters and the sums, stores the halves in the workspace, and returns
    /// whether the run goes on to bisect.
    pub fn bisect(&mut self, ws: &mut IntegrationWorkspace, m: &Bisection) -> (more: bool)
        requires
            old(self).wf(),
            old(self).attached(old(ws)@),
            old(self).iteration < old(self).limit,
        ensures
            *final(self) == old(self).advanced(old(ws)@.slots[old(ws)@.current as int], *m),
            final(ws)@ == m.stored(old(ws)@),
            more == final(self).proceeds(),
            final(self).wf(),
            final(self).attached(final(ws)@),
            final(ws)@.is_permutation(),
            old(ws)@.ranked() && !m.error1.is_nan() && !m.error2.is_nan() ==> final(ws)@.ranked(),
            forall|lo: Double, hi: Double| old(ws)@.partitions(lo, hi) ==> #[trigger] final(ws)@.partitions(lo, hi),
            final(ws)@.keeps_bounds_of(old(ws)@),
    {
        let parent: Subinterval = ws.interval(ws.current());
        proof {
            lemma_bisection_keeps_bounds(
                ws@,
                parent.a,
                m.mid,
                m.area1,
                m.error1,
                m.mid,
                parent.b,
                m.area2,
                m.error2,
            );
        }
        if m.is_reliable() {
            if m.is_stagnant() {
                self.roundoff_type1 += 1;
            }
            if self.iteration >= 10 && m.error12.gt(parent.error) {
                self.roundoff_type2 += 1;
            }
        }
        self.tolerance = self.epsabs.max(m.scaled);
        self.errsum = m.errsum;
        if self.errsum.gt(self.tolerance) {
            if self.roundoff_type1 >= 6 || self.roundoff_type2 >= 20 {
                self.error_type = 2;
            }
            if m.is_too_small(&parent) {
                self.error_type = 3;
            }
        }
        ws.update(parent.a, m.mid, m.area1, m.error1, m.mid, parent.b, m.area2, m.error2);
        self.iteration += 1;
        self.iteration < self.limit && self.error_type == 0 && self.errsum.gt(self.tolerance)
    }

    /// The status with which the run has ended. Its result is the sum of the
    /// estimates of the active subintervals, and its error estimate `errsum`.
    pub fn status(&self) -> (s: Status)
        ensures
            s == self.outcome(),
    {
        if self.errsum.le(self.tolerance) {
            Status::Converged
        } else if self.error_type == 2 {
            Status::RoundoffLimited
        } else if self.error_type == 3 {
            Status::IntegrandSingular
        } else if self.iteration == self.limit {
            Status::IterationLimitReached
        } else {
            Status::GenericFailure
        }
    }
}

/// A plain integration over `(a, b)` within `limit` subintervals, entered with
/// the workspace `before`, has left the workspace `after` and returned `result`,
/// `abserr` and `status`.
///
/// The rule has given `whole` over the whole range, and `first` is made of it
/// with fifty times the machine epsilon as the level of round-off. Where the
/// run ends on that estimate, the status is its verdict, the result and the
/// error are those of `whole`, and the workspace holds the whole range with
/// them. Otherwise the workspace holds at least two subintervals, and the run
/// that starts from `first` has run to its end from the workspace that holds
/// the whole range.
pub open spec fn integrated<R: Fn(Double, Double) -> Estimate, A: Fn(Op, Double, Double) -> Double>(
    rule: R,
    arithmetic: A,
    before: WorkspaceView,
    a: Double,
    b: Double,
    epsabs: Double,
    epsrel: Double,
    limit: usize,
    after: WorkspaceView,
    result: Double,
    abserr: Double,
    status: Status,
) -> bool {
    exists|whole: Estimate, first: FirstEstimate| #[trigger]
        call_ensures(rule, (a, b), whole) && #[trigger] first.made_of(
            arithmetic,
            whole,
            epsrel,
            Double { bits: FIFTY_EPSILON_BITS },
        ) && match first.verdict(epsabs, limit as int, true) {
            Some(s) => status == s && result == whole.result && abserr == whole.abserr && after
                == WorkspaceView::opened(before.limit, a, b, whole.result, whole.abserr, before.slots, before.order),
            None => after.size >= 2 && PlainRun::started(epsabs, limit, first).ran(
                rule,
                arithmetic,
                WorkspaceView::opened(before.limit, a, b, whole.result, whole.abserr, before.slots, before.order),
                epsrel,
                after,
                result,
                abserr,
                status,
            ),
        }
}

impl IntegrationWorkspace {
    /// Integrates over the range from `a` to `b` by plain adaptive bisection,
    /// until the error estimate is within `epsabs` or within `epsrel` times the
    /// magnitude of the result, with at most `limit` subintervals. `rule` is the
    /// quadrature rule applied to the integrand. The result and its error
    /// estimate go to `result` and `abserr`.
    ///
    /// The parameters are checked before anything else; if they are rejected,
    /// the rule is not asked and result and error are zero. If the first
    /// estimate ends the run, result and error are those of the rule over the
    /// whole range. Otherwise the subinterval of largest error is bisected until
    /// the run ends; the result is then the sum of the results of the
    /// subintervals, the error estimate the sum of their errors as the run has it,
    /// and the status the outcome of the run. Throughout, the subintervals
    /// tile the range and their number is within `limit`; and if the rule gives
    /// no NaN for an error, the subinterval that is bisected is each time one of
    /// largest error.
    pub fn qag<R: Fn(Double, Double) -> Estimate, A: Fn(Op, Double, Double) -> Double>(
        &mut self,
        rule: &R,
        arithmetic: &A,
        a: Double,
        b: Double,
        epsabs: Double,
        epsrel: Double,
        limit: usize,
        result: &mut Double,
        abserr: &mut Double,
    ) -> (status: Status)
        requires
            estimates(*rule),
            computes(*arithmetic),
            1 <= limit,
        ensures
            final(self)@.limit == old(self)@.limit,
            final(self)@.wf(),
            rejection(old(self)@.limit as int, limit as int, epsabs, epsrel) matches Some(s) ==> {
                &&& status == s
                &&& final(result).bits == 0
                &&& final(abserr).bits == 0
                &&& final(self)@ == WorkspaceView::fresh(
                    old(self)@.limit,
                    a,
                    b,
                    old(self)@.slots,
                    old(self)@.order,
                )
            },
            rejection(old(self)@.limit as int, limit as int, epsabs, epsrel) is None ==> {
                &&& 1 <= final(self)@.size <= limit
                &&& final(self)@.partitions(a, b)
                &&& final(self)@.has_bound(a) && final(self)@.has_bound(b)
                &&& final(self)@.is_permutation()
                &&& status != Status::InvalidParameter && status != Status::ToleranceUnreachable
                    && status != Status::ExtrapolationRoundoff && status != Status::Divergent
                &&& integrated(
                    *rule,
                    *arithmetic,
                    old(self)@,
                    a,
                    b,
                    epsabs,
                    epsrel,
                    limit,
                    final(self)@,
                    *final(result),
                    *final(abserr),
                    status,
                )
                &&& errors_are_numbers(*rule) ==> final(self)@.ranked()
                &&& status == Status::IterationLimitReached ==> final(self)@.size == limit
            },
    {
        proof {
            use_type_invariant(&*self);
        }
        let zero = Double { bits: 0 };
        *result = zero;
        *abserr = zero;
        self.initialise(a, b);
        match validate(self.limit(), limit, epsabs, epsrel) {
            Some(s) => {
                return s;
            },
            None => {},
        }
        let whole = rule(a, b);
        self.set_initial_result(whole.result, whole.abserr);
        proof {
            assert(self@.slots[0].a == a && self@.slots[0].b == b);
            lemma_single_interval_partitions(self@);
            assert(self@.has_bound(a) && self@.has_bound(b));
        }
        let first = FirstEstimate::of(arithmetic, &whole, epsrel, Double { bits: FIFTY_EPSILON_BITS });
        match first.test(epsabs, limit, true) {
            Some(s) => {
                *result = whole.result;
                *abserr = whole.abserr;
                assert(integrated(
                    *rule,
                    *arithmetic,
                    old(self)@,
                    a,
                    b,
                    epsabs,
                    epsrel,
                    limit,
                    self@,
                    *result,
                    *abserr,
                    s,
                ));
                return s;
            },
            None => {},
        }
        let mut run = PlainRun::start(epsabs, limit, &first);
        let ghost opened = self@;
        let ghost started = run;
        let ghost mut ms: Seq<Bisection> = Seq::empty();
        let mut area = whole.result;
        let mut more = true;
        while more
            invariant
                estimates(*rule),
                computes(*arithmetic),
                run.wf(),
                run.attached(self@),
                run.limit == limit,
                run.epsabs == epsabs,
                self@.limit == old(self)@.limit,
                more ==> run.iteration < run.limit,
                !more ==> self@.size >= 2 && !run.proceeds() && ms.len() >= 1,
                more && ms.len() > 0 ==> run.proceeds(),
                self@.partitions(a, b),
                self@.has_bound(a) && self@.has_bound(b),
                self@.is_permutation(),
                errors_are_numbers(*rule) ==> self@.ranked(),
                started.bisections(*rule, *arithmetic, opened, epsrel, ms),
                started.after(opened, ms) == (run, self@),
                area == started.area_before(opened.slots[0].result, ms, ms.len() as int),
                opened.slots[0].result == whole.result,
            decreases limit - run.iteration + (if more { 1int } else { 0int }),
        {
            let parent = self.interval(self.current());
            let m = Bisection::measure(rule, arithmetic, &parent, area, run.errsum, epsrel, true);
            let ghost at = (run, self@);
            let ghost area_at = area;
            area = m.area;
            more = run.bisect(self, &m);
            proof {
                lemma_bisection_taken(at.0, *rule, *arithmetic, at.1, area_at, epsrel, m, (run, self@));
                lemma_bisections_push(started, *rule, *arithmetic, opened, epsrel, ms, m);
                ms = ms.push(m);
            }
        }
        *result = self.sum_results(arithmetic);
        *abserr = run.errsum;
        let status = run.status();
        assert(started.ran(*rule, *arithmetic, opened, epsrel, self@, *result, *abserr, status));
        assert(integrated(
            *rule,
            *arithmetic,
            old(self)@,
            a,
            b,
            epsabs,
            epsrel,
            limit,
            self@,
            *result,
            *abserr,
            status,
        ));
        status
    }
}

/// A bisection measured on the current subinterval, which has left the run
/// `after.0` and the workspace `after.1`, is made in the state it started from
/// and leads there.
pub proof fn lemma_bisection_taken<R: Fn(Double, Double) -> Estimate, A: Fn(Op, Double, Double) -> Double>(
    run: PlainRun,
    rule: R,
    arithmetic: A,
    w: WorkspaceView,
    area: Double,
    epsrel: Double,
    m: Bisection,
    after: (PlainRun, WorkspaceView),
)
    requires
        m.measured(rule, arithmetic, w.slots[w.current as int], area, run.errsum, epsrel, true),
        after.0 == run.advanced(w.slots[w.current as int], m),
        after.1 == m.stored(w),
    ensures
        run.bisection_made(rule, arithmetic, w, area, epsrel, m),
        run.bisection(w, m) == after,
{
    reveal(PlainRun::bisection_made);
    reveal(PlainRun::bisection);
}

/// One more bisection, made in the state that the bisections before it have
/// left, extends the bisections of a run.
#[verifier::spinoff_prover]
pub proof fn lemma_bisections_push<R: Fn(Double, Double) -> Estimate, A: Fn(Op, Double, Double) -> Double>(
    started: PlainRun,
    rule: R,
    arithmetic: A,
    w: WorkspaceView,
    epsrel: Double,
    ms: Seq<Bisection>,
    m: Bisection,
)
    requires
        started.bisections(rule, arithmetic, w, epsrel, ms),
        ms.len() > 0 ==> started.after(w, ms).0.proceeds(),
        started.after(w, ms).0.bisection_made(
            rule,
            arithmetic,
            started.after(w, ms).1,
            started.area_before(w.slots[0].result, ms, ms.len() as int),
            epsrel,
            m,
        ),
    ensures
        started.bisections(rule, arithmetic, w, epsrel, ms.push(m)),
        started.after(w, ms.push(m)) == started.after(w, ms).0.bisection(started.after(w, ms).1, m),
        started.area_before(w.slots[0].result, ms.push(m), ms.len() as int + 1) == m.area,
{
    let longer = ms.push(m);
    assert(longer.drop_last() =~= ms);
    assert(longer.last() == m);
    assert forall|k: int| 0 <= k < longer.len() implies #[trigger] started.bisection_at(
        rule,
        arithmetic,
        w,
        epsrel,
        longer,
        k,
    ) by {
        if k < ms.len() {
            assert(started.bisection_at(rule, arithmetic, w, epsrel, ms, k));
            assert(longer.take(k) =~= ms.take(k));
            assert(longer[k] == ms[k]);
            assert(started.area_before(w.slots[0].result, longer, k) == started.area_before(
                w.slots[0].result,
                ms,
                k,
            ));
        } else {
            assert(longer.take(k) =~= ms);
        }
    }
}

/// The bisections of a run leave its absolute tolerance as it was.
proof fn lemma_epsabs_kept(started: PlainRun, w: WorkspaceView, ms: Seq<Bisection>)
    ensures
        started.after(w, ms).0.epsabs == started.epsabs,
    decreases ms.len(),
{
    reveal(PlainRun::bisection);
    if ms.len() > 0 {
        lemma_epsabs_kept(started, w, ms.drop_last());
    }
}

/// A plain run that has run to its end returns the sum of the errors after its
/// last bisection, and it has converged exactly when that error is within the
/// tolerance: the larger of the absolute tolerance and the relative tolerance
/// times the magnitude of the sum of the estimates after the last bisection.
pub proof fn lemma_converged_within_tolerance<R: Fn(Double, Double) -> Estimate, A: Fn(Op, Double, Double) -> Double>(
    started: PlainRun,
    rule: R,
    arithmetic: A,
    w: WorkspaceView,
    epsrel: Double,
    after: WorkspaceView,
    result: Double,
    abserr: Double,
    status: Status,
)
    requires
        started.ran(rule, arithmetic, w, epsrel, after, result, abserr, status),
    ensures
        exists|ms: Seq<Bisection>| #[trigger]
            started.bisections(rule, arithmetic, w, epsrel, ms) && ms.len() >= 1 && abserr == ms.last().errsum
                && yields(arithmetic, Op::Mul, epsrel, ms.last().area.abs_spec(), ms.last().scaled) && (status
                == Status::Converged <==> abserr.le_spec(started.epsabs.max_spec(ms.last().scaled))),
{
    let ms = choose|ms: Seq<Bisection>| #[trigger]
        started.bisections(rule, arithmetic, w, epsrel, ms) && ms.len() >= 1 && started.after(w, ms).1 == after
            && !started.after(w, ms).0.proceeds() && status == started.after(w, ms).0.outcome() && abserr
            == started.after(w, ms).0.errsum && is_sum(arithmetic, after.active_results(), result);
    let k = ms.len() - 1;
    let m = ms[k];
    let before = started.after(w, ms.drop_last());
    assert(ms.take(k) =~= ms.drop_last());
    assert(started.bisection_at(rule, arithmetic, w, epsrel, ms, k));
    lemma_epsabs_kept(started, w, ms.drop_last());
    reveal(PlainRun::bisection);
    reveal(PlainRun::bisection_made);
    assert(started.after(w, ms).0.tolerance == started.epsabs.max_spec(m.scaled));
    assert(yields(arithmetic, Op::Mul, epsrel, m.area.abs_spec(), m.scaled));
    assert(ms.last() == m);
    assert(abserr == m.errsum);
}

} // verus!
