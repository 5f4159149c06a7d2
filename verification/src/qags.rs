//! Adaptive bisection with extrapolation.
//!
//! A run bisects like the plain one. Once the subinterval of largest error is
//! one of the smallest, it works off the larger ones first and then feeds the
//! sum of the estimates into the extrapolation table. A run can be seeded with
//! several ranges in place of one; the two differ in how they start and in a
//! few tests.
//!
//! `IntegrationWorkspace::qags` runs a whole integration, and [`run_to_end`] a
//! run that has been started. The steps are public: an [`ExtrapolatedRun`]
//! takes in each bisection and each pass over the table, and says what is to be
//! done next.

use vstd::prelude::*;
use crate::arithmetic::{
    computes, errors_are_numbers, estimates, is_sum, over, plus, times, yields, Estimate, Op,
    HUNDRED_EPSILON_BITS,
};
use crate::double::Double;
use crate::largest::lemma_in_order_by_list;
use crate::parameters::{rejection, validate, FirstEstimate};
use crate::partition::{
    lemma_bisection_keeps_bounds, lemma_bounds_by_slots, lemma_partitions_by_slots,
    lemma_single_interval_partitions,
};
use crate::qag::Bisection;
use crate::status::{return_error, status_of, Status};
use crate::table::{ExtrapolationTable, TableView, TABLE_ENTRIES};
use crate::workspace::{IntegrationWorkspace, Subinterval, WorkspaceView};

verus! {

/// Bit pattern of `0.01`.
pub const RATIO_LOW_BITS: u64 = 0x3f84_7ae1_47ae_147b;

/// Bit pattern of `100.0`.
pub const RATIO_HIGH_BITS: u64 = 0x4059_0000_0000_0000;

/// Bit pattern of `0.001`.
pub const STALL_BITS: u64 = 0x3f50_624d_d2f1_a9fc;

/// Bit pattern of one less fifty times the machine epsilon.
pub const POSITIVITY_BITS: u64 = 0x3fef_ffff_ffff_ff9c;

/// What is to be done next in a run.
#[derive(Clone, Copy, Debug, PartialEq, Eq, Structural)]
pub enum Next {
    /// Bisect the current subinterval and report the halves.
    Bisect,
    /// Run a pass over the extrapolation table and report its result.
    Extrapolate,
    /// The sum of the errors is within the tolerance: return the sum of the
    /// estimates with it, under the status that the error code stands for.
    Finish,
    /// The run has left the loop: report the closing quantities for the choice
    /// between the extrapolated result and the sum.
    Conclude,
}

/// The sum of the errors over the larger subintervals after a bisection, formed
/// both ways.
#[derive(Clone, Copy, Debug)]
pub struct LargeIntervals {
    /// The sum so far less the error of the parent.
    pub without_parent: Double,
    /// `without_parent` plus the error of both halves.
    pub with_halves: Double,
}

impl LargeIntervals {
    /// The sums are what the arithmetic gives when the error `parent` of the
    /// bisected subinterval leaves the sum `so_far` and the error `error12` of
    /// its halves joins it.
    pub open spec fn made_of<A: Fn(Op, Double, Double) -> Double>(
        self,
        arithmetic: A,
        so_far: Double,
        parent: Double,
        error12: Double,
    ) -> bool {
        &&& yields(arithmetic, Op::Add, so_far, parent.neg_spec(), self.without_parent)
        &&& yields(arithmetic, Op::Add, self.without_parent, error12, self.with_halves)
    }

    /// Forms the sum of the errors over the larger subintervals both ways.
    pub fn measure<A: Fn(Op, Double, Double) -> Double>(
        arithmetic: &A,
        so_far: Double,
        parent: Double,
        error12: Double,
    ) -> (large: LargeIntervals)
        requires
            computes(*arithmetic),
        ensures
            large.made_of(*arithmetic, so_far, parent, error12),
    {
        let without_parent = plus(arithmetic, so_far, parent.neg());
        LargeIntervals { without_parent, with_halves: plus(arithmetic, without_parent, error12) }
    }
}

/// What a run takes in after a pass over the extrapolation table.
#[derive(Clone, Copy, Debug)]
pub struct Extrapolation {
    /// The result of the pass.
    pub reseps: Double,
    /// Its error estimate.
    pub abseps: Double,
    /// `0.001` times the sum of the errors of all subintervals.
    pub stall_bound: Double,
    /// The relative tolerance times the magnitude of `reseps`.
    pub scaled: Double,
}

impl Extrapolation {
    /// The report is what the arithmetic gives for a pass with the result
    /// `reseps` and the error `abseps`, `errsum` being the sum of the errors and
    /// `epsrel` the relative tolerance.
    pub open spec fn made_of<A: Fn(Op, Double, Double) -> Double>(
        self,
        arithmetic: A,
        reseps: Double,
        abseps: Double,
        errsum: Double,
        epsrel: Double,
    ) -> bool {
        &&& self.reseps == reseps
        &&& self.abseps == abseps
        &&& yields(arithmetic, Op::Mul, Double { bits: STALL_BITS }, errsum, self.stall_bound)
        &&& yields(arithmetic, Op::Mul, epsrel, reseps.abs_spec(), self.scaled)
    }

    /// Forms what a run asks of a pass over the table.
    pub fn measure<A: Fn(Op, Double, Double) -> Double>(
        arithmetic: &A,
        reseps: Double,
        abseps: Double,
        errsum: Double,
        epsrel: Double,
    ) -> (x: Extrapolation)
        requires
            computes(*arithmetic),
        ensures
            x.made_of(*arithmetic, reseps, abseps, errsum, epsrel),
    {
        Extrapolation {
            reseps,
            abseps,
            stall_bound: times(arithmetic, Double { bits: STALL_BITS }, errsum),
            scaled: times(arithmetic, epsrel, reseps.abs()),
        }
    }
}

/// What a run takes in once it has left the loop.
#[derive(Clone, Copy, Debug)]
pub struct Closing {
    /// The error of the extrapolated result plus the correction `correc`.
    pub corrected: Double,
    /// The error of the extrapolated result over the magnitude of that result.
    pub relative_extrapolated: Double,
    /// `corrected` over the magnitude of the extrapolated result.
    pub relative_corrected: Double,
    /// The sum of the errors over the magnitude of the sum of the estimates.
    pub relative_summed: Double,
    /// `0.01` times the first estimate of the integral of the magnitude.
    pub divergence_floor: Double,
    /// The extrapolated result over the sum of the estimates.
    pub ratio: Double,
}

impl Closing {
    /// The quantities are what the arithmetic gives for the run `run`, whose
    /// first estimate of the integral of the magnitude was `resabs0`.
    pub open spec fn made_of<A: Fn(Op, Double, Double) -> Double>(
        self,
        arithmetic: A,
        run: ExtrapolatedRun,
        resabs0: Double,
    ) -> bool {
        &&& yields(arithmetic, Op::Add, run.err_ext, run.correc, self.corrected)
        &&& yields(arithmetic, Op::Div, run.err_ext, run.res_ext.abs_spec(), self.relative_extrapolated)
        &&& yields(arithmetic, Op::Div, self.corrected, run.res_ext.abs_spec(), self.relative_corrected)
        &&& yields(arithmetic, Op::Div, run.errsum, run.area.abs_spec(), self.relative_summed)
        &&& yields(arithmetic, Op::Mul, Double { bits: RATIO_LOW_BITS }, resabs0, self.divergence_floor)
        &&& yields(arithmetic, Op::Div, run.res_ext, run.area, self.ratio)
    }

    /// Forms the closing quantities of a run.
    pub fn measure<A: Fn(Op, Double, Double) -> Double>(
        arithmetic: &A,
        run: &ExtrapolatedRun,
        resabs0: Double,
    ) -> (c: Closing)
        requires
            computes(*arithmetic),
        ensures
            c.made_of(*arithmetic, *run, resabs0),
    {
        let corrected = plus(arithmetic, run.err_ext, run.correc);
        Closing {
            corrected,
            relative_extrapolated: over(arithmetic, run.err_ext, run.res_ext.abs()),
            relative_corrected: over(arithmetic, corrected, run.res_ext.abs()),
            relative_summed: over(arithmetic, run.errsum, run.area.abs()),
            divergence_floor: times(arithmetic, Double { bits: RATIO_LOW_BITS }, resabs0),
            ratio: over(arithmetic, run.res_ext, run.area),
        }
    }
}

/// Which result a run returns, and under which status.
#[derive(Clone, Copy, Debug, PartialEq, Eq, Structural)]
pub struct Verdict {
    /// True: the extrapolated result `res_ext` with its error `err_ext`.
    /// False: the sum of the estimates with the sum of the errors.
    pub extrapolated: bool,
    pub status: Status,
}

/// The state of an extrapolating run.
#[derive(Clone, Copy, Debug)]
pub struct ExtrapolatedRun {
    /// Whether the run was seeded with several ranges.
    pub seeded: bool,
    /// The number of ranges that the run began with.
    pub intervals: usize,
    /// The absolute tolerance.
    pub epsabs: Double,
    /// The budget of subintervals.
    pub limit: usize,
    /// The count of iterations: the number of subintervals in use, one less in a
    /// seeded run.
    pub iteration: usize,
    /// How often a bisection has stagnated while the run was not extrapolating.
    pub roundoff_type1: usize,
    /// How often a bisection has stagnated while it was.
    pub roundoff_type2: usize,
    /// How often a late bisection has raised the error.
    pub roundoff_type3: usize,
    /// The error code; 0 while nothing is wrong.
    pub error_type: i32,
    /// Set once bisections have stagnated five times while extrapolating.
    pub error_type2: bool,
    /// Whether the run is working off the larger subintervals.
    pub extrapolate: bool,
    /// Set once a pass has left a single entry in the table.
    pub disallow_extrapolation: bool,
    /// The number of passes since the extrapolated result last improved.
    pub ktmin: usize,
    /// Whether the first estimate shows an integrand of one sign.
    pub positive_integrand: bool,
    /// The sum of the estimates of all subintervals.
    pub area: Double,
    /// The sum of the errors of all subintervals.
    pub errsum: Double,
    /// The tolerance that `errsum` is held to.
    pub tolerance: Double,
    /// The tolerance that the error over the larger subintervals is held to.
    pub ertest: Double,
    /// The sum of the errors over the larger subintervals.
    pub error_over_large_intervals: Double,
    /// The best extrapolated result.
    pub res_ext: Double,
    /// Its error estimate.
    pub err_ext: Double,
    /// The error over the larger subintervals when `res_ext` was found.
    pub correc: Double,
}

impl ExtrapolatedRun {
    pub open spec fn wf(self) -> bool {
        &&& 1 <= self.limit
        &&& 1 <= self.intervals
        &&& self.roundoff_type1 + self.roundoff_type2 <= self.iteration
        &&& self.roundoff_type3 <= self.iteration
        &&& self.ktmin <= self.iteration
        &&& !self.seeded && self.iteration <= 2 ==> !self.extrapolate
    }

    /// The number of subintervals in use.
    pub open spec fn in_use(self) -> int {
        if self.seeded {
            self.iteration + 1
        } else {
            self.iteration as int
        }
    }

    /// The run works on the workspace `w` and is about to bisect: the
    /// subintervals in use are the active ones, there is room for one more, and
    /// the cursor is on a kept entry of the priority list, the head unless the
    /// run is working off the larger subintervals.
    pub open spec fn attached(self, w: WorkspaceView) -> bool {
        &&& w.wf()
        &&& w.cursor_valid()
        &&& w.current == w.order[w.nrmax as int]
        &&& !self.extrapolate ==> w.nrmax == 0
        &&& self.disallow_extrapolation ==> !self.extrapolate
        &&& w.size == self.in_use()
        &&& 1 <= w.size < w.limit
        &&& self.limit <= w.limit
    }

    /// The run waits for the result of a pass over the table.
    pub open spec fn awaits_pass(self, w: WorkspaceView) -> bool {
        &&& w.wf()
        &&& w.size == self.in_use()
        &&& self.limit <= w.limit
        &&& self.extrapolate
        &&& self.ktmin < self.iteration < self.limit - 1
    }

    /// Whether a bisection that raises the error counts as a sign of round-off.
    pub open spec fn late(self) -> bool {
        if self.seeded {
            self.intervals >= 10
        } else {
            self.iteration > 10
        }
    }

    /// The run after it has counted the bisection `m` of the subinterval
    /// `parent`.
    ///
    /// A stagnating bisection is counted apart for the time the run works off
    /// the larger subintervals. Ten stagnating bisections, or twenty late ones
    /// that raise the error, set error code 2; five stagnating ones in that time
    /// set the second error flag; a subinterval too small to bisect sets error
    /// code 4.
    pub open spec fn counted(self, parent: Subinterval, m: Bisection) -> ExtrapolatedRun {
        let next = ExtrapolatedRun { iteration: (self.iteration + 1) as usize, ..self };
        let stagnant = m.reliable() && m.stagnates();
        let type1 = if stagnant && !self.extrapolate {
            self.roundoff_type1 + 1
        } else {
            self.roundoff_type1 as int
        };
        let type2 = if stagnant && self.extrapolate {
            self.roundoff_type2 + 1
        } else {
            self.roundoff_type2 as int
        };
        let type3 = if m.reliable() && next.late() && m.error12.gt_spec(parent.error) {
            self.roundoff_type3 + 1
        } else {
            self.roundoff_type3 as int
        };
        ExtrapolatedRun {
            roundoff_type1: type1 as usize,
            roundoff_type2: type2 as usize,
            roundoff_type3: type3 as usize,
            error_type: if m.too_small(parent) {
                4
            } else if type1 + type2 >= 10 || type3 >= 20 {
                2
            } else {
                self.error_type
            },
            error_type2: self.error_type2 || type2 >= 5,
            area: m.area,
            errsum: m.errsum,
            tolerance: m.tolerance(self.epsabs),
            ..next
        }
    }

    /// The run back at the head of the priority list after an extrapolation.
    pub open spec fn rewound(self) -> ExtrapolatedRun {
        ExtrapolatedRun { extrapolate: false, error_over_large_intervals: self.errsum, ..self }
    }

    /// What follows once the run is back at the head of the list.
    pub open spec fn after_rewind(self) -> Next {
        if self.iteration >= self.limit {
            Next::Conclude
        } else {
            Next::Bisect
        }
    }

    /// Whether the run, having counted a bisection, goes on to work off the
    /// larger subintervals: the error over them is still above its tolerance and
    /// the second error flag is not set.
    pub open spec fn defers(self) -> bool {
        !self.error_type2 && self.error_over_large_intervals.gt_spec(self.ertest)
    }

    /// The run, the workspace, the table and the next action once the run has
    /// found that it may extrapolate; `stored` is the workspace with the halves
    /// of a parent at level `parent_level` in it.
    ///
    /// The error over the larger subintervals takes in the halves unless they
    /// are among the smallest subintervals. A run that is not yet working off the
    /// larger subintervals goes on bisecting while the current one is large, and
    /// else turns to the entry below the head of the priority list. While the
    /// error over the larger ones is above its tolerance it bisects the next of
    /// them; when there is none left, or the error is within the tolerance, the
    /// sum of the estimates goes into the table and a pass is due. A seeded run
    /// waits for a third entry before its first pass.
    pub open spec fn scheduled(
        self,
        stored: WorkspaceView,
        t: TableView,
        parent_level: int,
        large: LargeIntervals,
    ) -> (ExtrapolatedRun, WorkspaceView, TableView, Next) {
        let weighed = ExtrapolatedRun {
            error_over_large_intervals: if parent_level + 1 < stored.maximum_level {
                large.with_halves
            } else {
                large.without_parent
            },
            ..self
        };
        if !weighed.extrapolate && stored.slots[stored.current as int].level < stored.maximum_level {
            (weighed, stored, t, Next::Bisect)
        } else {
            let turned = ExtrapolatedRun { extrapolate: true, ..weighed };
            let placed = if weighed.extrapolate {
                stored
            } else {
                WorkspaceView { nrmax: 1, ..stored }
            };
            if turned.defers() && placed.advance_finds() {
                (turned, placed.advanced(), t, Next::Bisect)
            } else {
                let scanned = if turned.defers() {
                    placed.advanced()
                } else {
                    placed
                };
                let fed = TableView { n: t.n + 1, epstab: t.epstab.update(t.n as int, turned.area), ..t };
                if turned.seeded && fed.n <= 2 {
                    (
                        turned.rewound(),
                        WorkspaceView { nrmax: 0, current: scanned.order[0] as nat, ..scanned },
                        fed,
                        turned.after_rewind(),
                    )
                } else {
                    (turned, scanned, fed, Next::Extrapolate)
                }
            }
        }
    }

    /// The run, the workspace, the table and the next action after the
    /// bisection `m`, with `large` the error over the larger subintervals.
    ///
    /// The run finishes if the sum of the errors is within the tolerance. It
    /// leaves the loop on an error code, or with code 1 when the budget leaves
    /// room for no further bisection. A run over one range sets up the error
    /// over the larger subintervals and its tolerance at its second iteration,
    /// and feeds the table. Otherwise the run bisects on if extrapolation is
    /// ruled out, and else schedules it.
    pub open spec fn bisected(
        self,
        w: WorkspaceView,
        t: TableView,
        m: Bisection,
        large: LargeIntervals,
    ) -> (ExtrapolatedRun, WorkspaceView, TableView, Next) {
        let parent = w.slots[w.current as int];
        let run = self.counted(parent, m);
        let stored = m.stored(w);
        if run.errsum.le_spec(run.tolerance) {
            (run, stored, t, Next::Finish)
        } else if run.error_type != 0 {
            (run, stored, t, Next::Conclude)
        } else if run.iteration >= run.limit - 1 {
            (ExtrapolatedRun { error_type: 1, ..run }, stored, t, Next::Conclude)
        } else if !run.seeded && run.iteration == 2 {
            (
                ExtrapolatedRun { error_over_large_intervals: run.errsum, ertest: run.tolerance, ..run },
                stored,
                TableView { n: t.n + 1, epstab: t.epstab.update(t.n as int, run.area), ..t },
                Next::Bisect,
            )
        } else if run.disallow_extrapolation {
            (run, stored, t, Next::Bisect)
        } else {
            run.scheduled(stored, t, parent.level as int, large)
        }
    }

    /// The run and the next action after a pass over the table has given `x`,
    /// the table then holding `entries` entries.
    ///
    /// More than five passes without improvement, with the extrapolated error
    /// below `stall_bound`, set error code 5. A pass whose error is below the best
    /// so far becomes the best, and the run leaves the loop if that error is
    /// within its tolerance. A table left with one entry rules out further
    /// extrapolation. Unless the run leaves the loop it goes back to the head of
    /// the priority list.
    pub open spec fn extrapolated(self, x: Extrapolation, entries: int) -> (ExtrapolatedRun, Next) {
        let stalled = self.ktmin + 1 > 5 && self.err_ext.lt_spec(x.stall_bound);
        let improved = x.abseps.lt_spec(self.err_ext);
        let run = ExtrapolatedRun {
            ktmin: if improved {
                0
            } else {
                (self.ktmin + 1) as usize
            },
            error_type: if stalled {
                5
            } else {
                self.error_type
            },
            err_ext: if improved {
                x.abseps
            } else {
                self.err_ext
            },
            res_ext: if improved {
                x.reseps
            } else {
                self.res_ext
            },
            correc: if improved {
                self.error_over_large_intervals
            } else {
                self.correc
            },
            ertest: if improved {
                self.epsabs.max_spec(x.scaled)
            } else {
                self.ertest
            },
            ..self
        };
        if improved && run.err_ext.le_spec(run.ertest) {
            (run, Next::Conclude)
        } else {
            let ruled = ExtrapolatedRun {
                disallow_extrapolation: run.disallow_extrapolation || entries == 1,
                ..run
            };
            if ruled.error_type == 5 {
                (ruled, Next::Conclude)
            } else {
                (ruled.rewound(), ruled.after_rewind())
            }
        }
    }

    /// The result that the run returns once it has left the loop, and its status.
    ///
    /// Without an extrapolated result it is the sum. After an error, the sum is
    /// preferred if its relative error is the smaller one, the error of the
    /// extrapolated result being corrected if the second error flag is set. An
    /// extrapolated result that is returned is tested for divergence, unless the
    /// integrand changes sign and both results are small against the integral of
    /// its magnitude.
    pub open spec fn verdict(self, c: Closing) -> Verdict {
        let zero = Double { bits: 0 };
        let troubled = self.error_type != 0 || self.error_type2;
        let code: int = if troubled && self.error_type == 0 {
            3
        } else {
            self.error_type as int
        };
        let err_ext = if self.error_type2 {
            c.corrected
        } else {
            self.err_ext
        };
        let relative = if self.error_type2 {
            c.relative_corrected
        } else {
            c.relative_extrapolated
        };
        let both = self.res_ext.ne_spec(zero) && self.area.ne_spec(zero);
        if self.err_ext.eq_spec(Double::largest_spec()) {
            Verdict { extrapolated: false, status: status_of(self.error_type as int) }
        } else if troubled && both && relative.gt_spec(c.relative_summed) {
            Verdict { extrapolated: false, status: status_of(code) }
        } else if troubled && !both && err_ext.gt_spec(self.errsum) {
            Verdict { extrapolated: false, status: status_of(code) }
        } else if troubled && !both && self.area.eq_spec(zero) {
            Verdict { extrapolated: true, status: status_of(code) }
        } else if !self.positive_integrand && self.res_ext.abs_spec().max_spec(self.area.abs_spec()).lt_spec(
            c.divergence_floor,
        ) {
            Verdict { extrapolated: true, status: status_of(code) }
        } else if c.ratio.lt_spec(Double { bits: RATIO_LOW_BITS }) || c.ratio.gt_spec(
            Double { bits: RATIO_HIGH_BITS },
        ) || self.errsum.gt_spec(self.area.abs_spec()) {
            Verdict { extrapolated: true, status: status_of(6) }
        } else {
            Verdict { extrapolated: true, status: status_of(code) }
        }
    }

    /// The run over one range at its start.
    pub open spec fn started(epsabs: Double, limit: usize, first: FirstEstimate, positivity_floor: Double) -> ExtrapolatedRun {
        ExtrapolatedRun {
            seeded: false,
            intervals: 1,
            epsabs,
            limit,
            iteration: 1,
            roundoff_type1: 0,
            roundoff_type2: 0,
            roundoff_type3: 0,
            error_type: 0,
            error_type2: false,
            extrapolate: false,
            disallow_extrapolation: false,
            ktmin: 0,
            positive_integrand: first.result.abs_spec().ge_spec(positivity_floor),
            area: first.result,
            errsum: first.abserr,
            tolerance: first.tolerance(epsabs),
            ertest: Double { bits: 0 },
            error_over_large_intervals: Double { bits: 0 },
            res_ext: first.result,
            err_ext: Double::largest_spec(),
            correc: Double { bits: 0 },
        }
    }

    /// The run seeded with `intervals` ranges at its start, `errsum` being the
    /// sum of the errors of the ranges as the workspace holds them.
    pub open spec fn started_seeded(
        epsabs: Double,
        limit: usize,
        intervals: usize,
        first: FirstEstimate,
        errsum: Double,
        positivity_floor: Double,
    ) -> ExtrapolatedRun {
        ExtrapolatedRun {
            seeded: true,
            intervals,
            iteration: (intervals - 1) as usize,
            errsum,
            ertest: first.tolerance(epsabs),
            error_over_large_intervals: errsum,
            ..Self::started(epsabs, limit, first, positivity_floor)
        }
    }

    /// Starts a run over one range after a first estimate that did not end it,
    /// and makes that estimate the first entry of the table. `positivity_floor`
    /// is `1 - 50 eps` times the first estimate of the integral of the magnitude.
    pub fn start(
        epsabs: Double,
        limit: usize,
        first: &FirstEstimate,
        positivity_floor: Double,
        table: &mut ExtrapolationTable,
    ) -> (run: ExtrapolatedRun)
        requires
            1 <= limit,
        ensures
            run == Self::started(epsabs, limit, *first, positivity_floor),
            run.wf(),
            final(table)@ == (TableView {
                n: 1,
                nres: 0,
                epstab: old(table)@.epstab.update(0, first.result),
                ..old(table)@
            }),
            final(table)@.wf(),
    {
        table.initialise();
        table.append(first.result);
        let zero = Double { bits: 0 };
        ExtrapolatedRun {
            seeded: false,
            intervals: 1,
            epsabs,
            limit,
            iteration: 1,
            roundoff_type1: 0,
            roundoff_type2: 0,
            roundoff_type3: 0,
            error_type: 0,
            error_type2: false,
            extrapolate: false,
            disallow_extrapolation: false,
            ktmin: 0,
            positive_integrand: first.result.abs().ge(positivity_floor),
            area: first.result,
            errsum: first.abserr,
            tolerance: epsabs.max(first.scaled),
            ertest: zero,
            error_over_large_intervals: zero,
            res_ext: first.result,
            err_ext: Double::largest(),
            correc: zero,
        }
    }

    /// Starts a run seeded with `intervals` ranges after a first estimate that
    /// did not end it, and makes that estimate the first entry of the table.
    pub fn start_seeded(
        epsabs: Double,
        limit: usize,
        intervals: usize,
        first: &FirstEstimate,
        errsum: Double,
        positivity_floor: Double,
        table: &mut ExtrapolationTable,
    ) -> (run: ExtrapolatedRun)
        requires
            1 <= limit,
            1 <= intervals,
        ensures
            run == Self::started_seeded(epsabs, limit, intervals, *first, errsum, positivity_floor),
            run.wf(),
            final(table)@ == (TableView {
                n: 1,
                nres: 0,
                epstab: old(table)@.epstab.update(0, first.result),
                ..old(table)@
            }),
            final(table)@.wf(),
    {
        let single = Self::start(epsabs, limit, first, positivity_floor, table);
        ExtrapolatedRun {
            seeded: true,
            intervals,
            iteration: intervals - 1,
            errsum,
            ertest: single.tolerance,
            error_over_large_intervals: errsum,
            ..single
        }
    }

    /// Counts the bisection `m` of the subinterval `parent`.
    fn count(&mut self, parent: &Subinterval, m: &Bisection)
        requires
            old(self).wf(),
            old(self).iteration < usize::MAX,
        ensures
            *final(self) == old(self).counted(*parent, *m),
            final(self).wf(),
    {
        self.iteration += 1;
        self.errsum = m.errsum;
        self.area = m.area;
        self.tolerance = self.epsabs.max(m.scaled);
        if m.is_reliable() {
            if m.is_stagnant() {
                if !self.extrapolate {
                    self.roundoff_type1 += 1;
                } else {
                    self.roundoff_type2 += 1;
                }
            }
            let late: bool = if self.seeded {
                self.intervals >= 10
            } else {
                self.iteration > 10
            };
            if late && m.error12.gt(parent.error) {
                self.roundoff_type3 += 1;
            }
        }
        if self.roundoff_type1 + self.roundoff_type2 >= 10 || self.roundoff_type3 >= 20 {
            self.error_type = 2;
        }
        if self.roundoff_type2 >= 5 {
            self.error_type2 = true;
        }
        if m.is_too_small(parent) {
            self.error_type = 4;
        }
    }

    /// Schedules the extrapolation after a bisection whose halves are in the
    /// workspace, their parent having been at level `parent_level`.
    fn schedule(
        &mut self,
        ws: &mut IntegrationWorkspace,
        table: &mut ExtrapolationTable,
        parent_level: usize,
        large: &LargeIntervals,
    ) -> (next: Next)
        requires
            old(self).wf(),
            old(ws)@.wf(),
            old(ws)@.size == old(self).in_use(),
            old(ws)@.size >= 2,
            old(self).limit <= old(ws)@.limit,
            !old(self).extrapolate ==> old(ws)@.nrmax == 0,
            old(ws)@.current == old(ws)@.order[old(ws)@.nrmax as int],
            !old(self).disallow_extrapolation,
            old(self).seeded || old(self).iteration > 2,
            old(self).ktmin < old(self).iteration < old(self).limit - 1,
            parent_level < old(ws)@.limit,
            old(table)@.n < TABLE_ENTRIES,
        ensures
            (*final(self), final(ws)@, final(table)@, next) == old(self).scheduled(
                old(ws)@,
                old(table)@,
                parent_level as int,
                *large,
            ),
            final(self).wf(),
            final(ws)@.wf(),
            final(table)@.wf(),
            final(ws)@.slots == old(ws)@.slots,
            final(ws)@.order == old(ws)@.order,
            final(ws)@.size == old(ws)@.size,
            final(ws)@.limit == old(ws)@.limit,
            final(self).iteration == old(self).iteration,
            final(self).seeded == old(self).seeded,
            next == Next::Bisect ==> final(self).attached(final(ws)@),
            next == Next::Extrapolate ==> final(self).awaits_pass(final(ws)@) && final(table)@.n >= 1,
            next != Next::Finish,
    {
        proof {
            use_type_invariant(&*table);
        }
        self.error_over_large_intervals = if parent_level + 1 < ws.maximum_level() {
            large.with_halves
        } else {
            large.without_parent
        };
        if !self.extrapolate {
            if ws.large_interval() {
                return Next::Bisect;
            }
            self.extrapolate = true;
            ws.set_nrmax(1);
        }
        if !self.error_type2 && self.error_over_large_intervals.gt(self.ertest) {
            if ws.increase_nrmax() {
                return Next::Bisect;
            }
        }
        table.append(self.area);
        if self.seeded && table.len() <= 2 {
            ws.reset_nrmax();
            self.extrapolate = false;
            self.error_over_large_intervals = self.errsum;
            if self.iteration >= self.limit {
                return Next::Conclude;
            }
            return Next::Bisect;
        }
        Next::Extrapolate
    }

    /// Takes in the bisection `m` of the current subinterval: counts it, stores
    /// the halves in the workspace, and decides what follows. When the larger
    /// subintervals are worked off, the sum of the estimates becomes the newest
    /// entry of the table.
    pub fn after_bisection(
        &mut self,
        ws: &mut IntegrationWorkspace,
        table: &mut ExtrapolationTable,
        m: &Bisection,
        large: &LargeIntervals,
    ) -> (next: Next)
        requires
            old(self).wf(),
            old(self).attached(old(ws)@),
            old(table)@.n < TABLE_ENTRIES,
        ensures
            (*final(self), final(ws)@, final(table)@, next) == old(self).bisected(
                old(ws)@,
                old(table)@,
                *m,
                *large,
            ),
            final(self).wf(),
            final(ws)@.wf(),
            final(table)@.wf(),
            final(ws)@.size == old(ws)@.size + 1,
            final(ws)@.limit == old(ws)@.limit,
            final(ws)@.size == final(self).in_use(),
            next == Next::Bisect ==> final(self).attached(final(ws)@),
            next == Next::Bisect ==> final(self).iteration < final(self).limit - 1,
            next == Next::Extrapolate ==> final(self).awaits_pass(final(ws)@) && final(table)@.n >= 1,
            next == Next::Finish ==> final(self).errsum.le_spec(final(self).tolerance),
            final(self).limit == old(self).limit,
            final(self).seeded == old(self).seeded,
            final(self).epsabs == old(self).epsabs,
            forall|lo: Double, hi: Double| old(ws)@.partitions(lo, hi) ==> #[trigger] final(ws)@.partitions(lo, hi),
            final(ws)@.keeps_bounds_of(old(ws)@),
            old(ws)@.in_order() && !m.error1.is_nan() && !m.error2.is_nan() && (old(ws)@.nrmax == 0
                || final(ws)@.size < final(ws)@.limit / 2 + 3) ==> final(ws)@.in_order(),
    {
        proof {
            use_type_invariant(&*table);
        }
        let ghost before = ws@;
        let parent = ws.interval(ws.current());
        self.count(&parent, m);
        proof {
            lemma_bisection_keeps_bounds(
                before,
                parent.a,
                m.mid,
                m.area1,
                m.error1,
                m.mid,
                parent.b,
                m.area2,
                m.error2,
            );
        }
        ws.update(parent.a, m.mid, m.area1, m.error1, m.mid, parent.b, m.area2, m.error2);
        let ghost stored = ws@;
        let next: Next = if self.errsum.le(self.tolerance) {
            Next::Finish
        } else if self.error_type != 0 {
            Next::Conclude
        } else if self.iteration >= self.limit - 1 {
            self.error_type = 1;
            Next::Conclude
        } else if !self.seeded && self.iteration == 2 {
            self.error_over_large_intervals = self.errsum;
            self.ertest = self.tolerance;
            table.append(self.area);
            Next::Bisect
        } else if self.disallow_extrapolation {
            Next::Bisect
        } else {
            self.schedule(ws, table, parent.level, large)
        };
        proof {
            assert forall|lo: Double, hi: Double| before.partitions(lo, hi) implies #[trigger] ws@.partitions(
                lo,
                hi,
            ) by {
                assert(stored.partitions(lo, hi));
                lemma_partitions_by_slots(stored, ws@, lo, hi);
            }
            if stored.in_order() {
                lemma_in_order_by_list(stored, ws@);
            }
            lemma_bounds_by_slots(stored, ws@);
        }
        next
    }

    /// Takes in the result `x` of a pass over the table and decides what
    /// follows.
    pub fn after_extrapolation(
        &mut self,
        ws: &mut IntegrationWorkspace,
        table: &ExtrapolationTable,
        x: &Extrapolation,
    ) -> (next: Next)
        requires
            old(self).wf(),
            old(self).awaits_pass(old(ws)@),
        ensures
            (*final(self), next) == old(self).extrapolated(*x, table@.n as int),
            final(self).wf(),
            final(ws)@.wf(),
            next == Next::Conclude ==> final(ws)@ == old(ws)@,
            next != Next::Conclude ==> final(ws)@ == (WorkspaceView {
                nrmax: 0,
                current: old(ws)@.order[0] as nat,
                ..old(ws)@
            }),
            next == Next::Bisect ==> final(self).attached(final(ws)@),
            next == Next::Bisect ==> final(self).iteration < final(self).limit - 1,
            next == Next::Bisect || next == Next::Conclude,
            final(self).limit == old(self).limit,
            final(self).seeded == old(self).seeded,
            final(self).epsabs == old(self).epsabs,
            final(self).iteration == old(self).iteration,
            final(ws)@.size == old(ws)@.size,
            final(ws)@.limit == old(ws)@.limit,
            forall|lo: Double, hi: Double| old(ws)@.partitions(lo, hi) ==> #[trigger] final(ws)@.partitions(lo, hi),
            final(ws)@.slots == old(ws)@.slots,
            old(ws)@.in_order() ==> final(ws)@.in_order(),
            old(ws)@.in_order() && next == Next::Bisect ==> final(ws)@.ranked(),
    {
        let ghost before = ws@;
        self.ktmin += 1;
        if self.ktmin > 5 && self.err_ext.lt(x.stall_bound) {
            self.error_type = 5;
        }
        if x.abseps.lt(self.err_ext) {
            self.ktmin = 0;
            self.err_ext = x.abseps;
            self.res_ext = x.reseps;
            self.correc = self.error_over_large_intervals;
            self.ertest = self.epsabs.max(x.scaled);
            if self.err_ext.le(self.ertest) {
                return Next::Conclude;
            }
        }
        if table.len() == 1 {
            self.disallow_extrapolation = true;
        }
        if self.error_type == 5 {
            return Next::Conclude;
        }
        ws.reset_nrmax();
        proof {
            if before.in_order() {
                lemma_in_order_by_list(before, ws@);
            }
            assert forall|lo: Double, hi: Double| before.partitions(lo, hi) implies #[trigger] ws@.partitions(
                lo,
                hi,
            ) by {
                lemma_partitions_by_slots(before, ws@, lo, hi);
            }
        }
        self.extrapolate = false;
        self.error_over_large_intervals = self.errsum;
        if self.iteration >= self.limit {
            return Next::Conclude;
        }
        Next::Bisect
    }

    /// Decides, once the run has left the loop, which result it returns and
    /// under which status.
    pub fn conclude(&self, c: &Closing) -> (v: Verdict)
        ensures
            v == self.verdict(*c),
    {
        let zero = Double { bits: 0 };
        let mut error_type: i32 = self.error_type;
        if self.err_ext.eq(Double::largest()) {
            return Verdict { extrapolated: false, status: return_error(error_type) };
        }
        if error_type != 0 || self.error_type2 {
            let mut err_ext: Double = self.err_ext;
            let mut relative: Double = c.relative_extrapolated;
            if self.error_type2 {
                err_ext = c.corrected;
                relative = c.relative_corrected;
            }
            if error_type == 0 {
                error_type = 3;
            }
            if self.res_ext.ne(zero) && self.area.ne(zero) {
                if relative.gt(c.relative_summed) {
                    return Verdict { extrapolated: false, status: return_error(error_type) };
                }
            } else if err_ext.gt(self.errsum) {
                return Verdict { extrapolated: false, status: return_error(error_type) };
            } else if self.area.eq(zero) {
                return Verdict { extrapolated: true, status: return_error(error_type) };
            }
        }
        let max_area: Double = self.res_ext.abs().max(self.area.abs());
        if !self.positive_integrand && max_area.lt(c.divergence_floor) {
            return Verdict { extrapolated: true, status: return_error(error_type) };
        }
        if c.ratio.lt(Double { bits: RATIO_LOW_BITS }) || c.ratio.gt(Double { bits: RATIO_HIGH_BITS })
            || self.errsum.gt(self.area.abs()) {
            error_type = 6;
        }
        Verdict { extrapolated: true, status: return_error(error_type) }
    }

    /// The status under which the run returns the sum of the estimates when the
    /// sum of the errors has come within the tolerance.
    pub fn finish(&self) -> (s: Status)
        ensures
            s == status_of(self.error_type as int),
    {
        return_error(self.error_type)
    }
}

/// One round of the loop of an extrapolating run: a bisection and, if it makes
/// a pass over the table due, that pass.
pub struct Round {
    /// The bisection.
    pub m: Bisection,
    /// The error over the larger subintervals after it.
    pub large: LargeIntervals,
    /// What the run takes in after the pass, if there is one.
    pub x: Extrapolation,
    /// The table after the pass, if there is one.
    pub passed: TableView,
}

impl ExtrapolatedRun {
    /// The round `r` is what the rule and the arithmetic give in this state of
    /// the run, on the workspace `w` with the table `t`: the bisection is that of
    /// the current subinterval, with the sums as the run has them; and if the
    /// bisection makes a pass due, the pass is one over the table as the
    /// bisection leaves it.
    #[verifier::opaque]
    pub open spec fn round_made<R: Fn(Double, Double) -> Estimate, A: Fn(Op, Double, Double) -> Double>(
        self,
        rule: R,
        arithmetic: A,
        w: WorkspaceView,
        t: TableView,
        epsrel: Double,
        r: Round,
    ) -> bool {
        let parent = w.slots[w.current as int];
        let b = self.bisected(w, t, r.m, r.large);
        &&& t.n < TABLE_ENTRIES
        &&& r.m.measured(rule, arithmetic, parent, self.area, self.errsum, epsrel, false)
        &&& r.large.made_of(arithmetic, self.error_over_large_intervals, parent.error, r.m.error12)
        &&& b.3 == Next::Extrapolate ==> b.2.transformed(arithmetic, r.passed, (r.x.reseps, r.x.abseps))
            && r.x.made_of(arithmetic, r.x.reseps, r.x.abseps, b.0.errsum, epsrel)
    }

    /// The run, the workspace, the table and the next action after the round
    /// `r`.
    #[verifier::opaque]
    pub open spec fn round(self, w: WorkspaceView, t: TableView, r: Round) -> (
        ExtrapolatedRun,
        WorkspaceView,
        TableView,
        Next,
    ) {
        let b = self.bisected(w, t, r.m, r.large);
        if b.3 == Next::Extrapolate {
            let e = b.0.extrapolated(r.x, r.passed.n as int);
            (
                e.0,
                if e.1 == Next::Conclude {
                    b.1
                } else {
                    WorkspaceView { nrmax: 0, current: b.1.order[0] as nat, ..b.1 }
                },
                r.passed,
                e.1,
            )
        } else {
            b
        }
    }

    /// The run, the workspace, the table and the next action after the rounds
    /// `rs`, one after the other.
    pub open spec fn after_rounds(self, w: WorkspaceView, t: TableView, rs: Seq<Round>) -> (
        ExtrapolatedRun,
        WorkspaceView,
        TableView,
        Next,
    )
        decreases rs.len(),
    {
        if rs.len() == 0 {
            (self, w, t, Next::Bisect)
        } else {
            let before = self.after_rounds(w, t, rs.drop_last());
            before.0.round(before.1, before.2, rs.last())
        }
    }

    /// The round `k` of `rs` is made in the state that the rounds before it
    /// have left, and that state asks for a bisection.
    pub open spec fn round_at<R: Fn(Double, Double) -> Estimate, A: Fn(Op, Double, Double) -> Double>(
        self,
        rule: R,
        arithmetic: A,
        w: WorkspaceView,
        t: TableView,
        epsrel: Double,
        rs: Seq<Round>,
        k: int,
    ) -> bool {
        &&& self.after_rounds(w, t, rs.take(k)).3 == Next::Bisect
        &&& self.after_rounds(w, t, rs.take(k)).0.round_made(
            rule,
            arithmetic,
            self.after_rounds(w, t, rs.take(k)).1,
            self.after_rounds(w, t, rs.take(k)).2,
            epsrel,
            rs[k],
        )
    }

    /// Each of the rounds `rs` is made in the state that the rounds before it
    /// have left, and that state asks for a bisection.
    pub open spec fn rounds<R: Fn(Double, Double) -> Estimate, A: Fn(Op, Double, Double) -> Double>(
        self,
        rule: R,
        arithmetic: A,
        w: WorkspaceView,
        t: TableView,
        epsrel: Double,
        rs: Seq<Round>,
    ) -> bool {
        forall|k: int| 0 <= k < rs.len() ==> #[trigger] self.round_at(rule, arithmetic, w, t, epsrel, rs, k)
    }

    /// The run has ended in this state, on the workspace `w` with the table `t`
    /// and `next` as the action asked for; it has left the workspace `after`,
    /// and `result`, `abserr` and `status` are what it returns. `resabs0` is the
    /// first estimate of the integral of the magnitude.
    ///
    /// If the sum of the errors is within the tolerance, the result is the sum
    /// of the results, its error the sum of the errors, and the status that of
    /// the error code. If the run has left the loop, result, error and status
    /// are those of its verdict on the closing quantities. If a bisection is
    /// asked for but the table is full, the halves of the current subinterval
    /// are stored and the run has failed, with the sum as its result.
    pub open spec fn ended<R: Fn(Double, Double) -> Estimate, A: Fn(Op, Double, Double) -> Double>(
        self,
        rule: R,
        arithmetic: A,
        w: WorkspaceView,
        t: TableView,
        next: Next,
        epsrel: Double,
        resabs0: Double,
        after: WorkspaceView,
        result: Double,
        abserr: Double,
        status: Status,
    ) -> bool {
        match next {
            Next::Finish => {
                &&& after == w
                &&& status == status_of(self.error_type as int)
                &&& abserr == self.errsum
                &&& is_sum(arithmetic, after.active_results(), result)
            },
            Next::Conclude => {
                &&& after == w
                &&& exists|c: Closing| #[trigger]
                    c.made_of(arithmetic, self, resabs0) && status == self.verdict(c).status && if self.verdict(
                        c,
                    ).extrapolated {
                        result == self.res_ext && abserr == self.err_ext
                    } else {
                        abserr == self.errsum && is_sum(arithmetic, after.active_results(), result)
                    }
            },
            Next::Bisect => {
                &&& t.n >= TABLE_ENTRIES
                &&& status == Status::GenericFailure
                &&& is_sum(arithmetic, after.active_results(), result)
                &&& exists|m: Bisection| #[trigger]
                    m.measured(rule, arithmetic, w.slots[w.current as int], self.area, self.errsum, epsrel, false)
                        && after == m.stored(w) && abserr == m.errsum
            },
            Next::Extrapolate => false,
        }
    }

    /// This run, started on the workspace `w` with the table `t`, has run to
    /// its end, round by round; it has left the workspace `after`, and `result`,
    /// `abserr` and `status` are what it returns.
    pub open spec fn ran<R: Fn(Double, Double) -> Estimate, A: Fn(Op, Double, Double) -> Double>(
        self,
        rule: R,
        arithmetic: A,
        w: WorkspaceView,
        t: TableView,
        epsrel: Double,
        resabs0: Double,
        after: WorkspaceView,
        result: Double,
        abserr: Double,
        status: Status,
    ) -> bool {
        exists|rs: Seq<Round>| #[trigger]
            self.rounds(rule, arithmetic, w, t, epsrel, rs) && self.after_rounds(w, t, rs).0.ended(
                rule,
                arithmetic,
                self.after_rounds(w, t, rs).1,
                self.after_rounds(w, t, rs).2,
                self.after_rounds(w, t, rs).3,
                epsrel,
                resabs0,
                after,
                result,
                abserr,
                status,
            )
    }
}

/// A round whose bisection has left `b`, and whose pass, if one was due, has
/// left `e`, is made in the state it started from and leads to `e`.
pub proof fn lemma_round_taken<R: Fn(Double, Double) -> Estimate, A: Fn(Op, Double, Double) -> Double>(
    run: ExtrapolatedRun,
    rule: R,
    arithmetic: A,
    w: WorkspaceView,
    t: TableView,
    epsrel: Double,
    r: Round,
    b: (ExtrapolatedRun, WorkspaceView, TableView, Next),
    e: (ExtrapolatedRun, WorkspaceView, TableView, Next),
)
    requires
        t.n < TABLE_ENTRIES,
        r.m.measured(rule, arithmetic, w.slots[w.current as int], run.area, run.errsum, epsrel, false),
        r.large.made_of(arithmetic, run.error_over_large_intervals, w.slots[w.current as int].error, r.m.error12),
        b == run.bisected(w, t, r.m, r.large),
        b.3 != Next::Extrapolate ==> e == b,
        b.3 == Next::Extrapolate ==> {
            &&& b.2.transformed(arithmetic, r.passed, (r.x.reseps, r.x.abseps))
            &&& r.x.made_of(arithmetic, r.x.reseps, r.x.abseps, b.0.errsum, epsrel)
            &&& (e.0, e.3) == b.0.extrapolated(r.x, r.passed.n as int)
            &&& e.2 == r.passed
            &&& e.3 == Next::Conclude ==> e.1 == b.1
            &&& e.3 != Next::Conclude ==> e.1 == (WorkspaceView { nrmax: 0, current: b.1.order[0] as nat, ..b.1 })
        },
    ensures
        run.round_made(rule, arithmetic, w, t, epsrel, r),
        run.round(w, t, r) == e,
{
    reveal(ExtrapolatedRun::round_made);
    reveal(ExtrapolatedRun::round);
}

/// One more round, made in the state that the rounds before it have left,
/// extends the rounds of a run.
#[verifier::spinoff_prover]
pub proof fn lemma_rounds_push<R: Fn(Double, Double) -> Estimate, A: Fn(Op, Double, Double) -> Double>(
    start: ExtrapolatedRun,
    rule: R,
    arithmetic: A,
    w: WorkspaceView,
    t: TableView,
    epsrel: Double,
    rs: Seq<Round>,
    r: Round,
)
    requires
        start.rounds(rule, arithmetic, w, t, epsrel, rs),
        start.after_rounds(w, t, rs).3 == Next::Bisect,
        start.after_rounds(w, t, rs).0.round_made(
            rule,
            arithmetic,
            start.after_rounds(w, t, rs).1,
            start.after_rounds(w, t, rs).2,
            epsrel,
            r,
        ),
    ensures
        start.rounds(rule, arithmetic, w, t, epsrel, rs.push(r)),
        start.after_rounds(w, t, rs.push(r)) == start.after_rounds(w, t, rs).0.round(
            start.after_rounds(w, t, rs).1,
            start.after_rounds(w, t, rs).2,
            r,
        ),
{
    let longer = rs.push(r);
    assert(longer.drop_last() =~= rs);
    assert(longer.last() == r);
    assert forall|k: int| 0 <= k < longer.len() implies #[trigger] start.round_at(
        rule,
        arithmetic,
        w,
        t,
        epsrel,
        longer,
        k,
    ) by {
        if k < rs.len() {
            assert(start.round_at(rule, arithmetic, w, t, epsrel, rs, k));
            assert(longer.take(k) =~= rs.take(k));
            assert(longer[k] == rs[k]);
        } else {
            assert(longer.take(k) =~= rs);
        }
    }
}

/// Runs the extrapolating run `start` on the workspace to its end and returns
/// its status; the result and its error estimate go to `result` and `abserr`.
/// `resabs0` is the first estimate of the integral of the magnitude.
///
/// The run bisects until the sum of the errors is within the tolerance, and the
/// result is then the sum of the results; or until it leaves the loop, and the
/// result is then the extrapolated one or the sum, as the run concludes. A table too full to take another entry ends the run as failed,
/// with the sum as its result.
pub fn run_to_end<R: Fn(Double, Double) -> Estimate, A: Fn(Op, Double, Double) -> Double>(
    ws: &mut IntegrationWorkspace,
    rule: &R,
    arithmetic: &A,
    start: ExtrapolatedRun,
    table: ExtrapolationTable,
    epsrel: Double,
    resabs0: Double,
    result: &mut Double,
    abserr: &mut Double,
) -> (status: Status)
    requires
        estimates(*rule),
        computes(*arithmetic),
        start.wf(),
        start.attached(old(ws)@),
        !start.seeded ==> start.iteration < start.limit,
    ensures
        final(ws)@.wf(),
        final(ws)@.is_permutation(),
        final(ws)@.limit == old(ws)@.limit,
        old(ws)@.size < final(ws)@.size <= final(ws)@.limit,
        !start.seeded ==> final(ws)@.size <= start.limit,
        final(ws)@.size <= start.limit || final(ws)@.size == old(ws)@.size + 1,
        forall|lo: Double, hi: Double| old(ws)@.partitions(lo, hi) ==> #[trigger] final(ws)@.partitions(lo, hi),
        final(ws)@.keeps_bounds_of(old(ws)@),
        status != Status::InvalidParameter && status != Status::ToleranceUnreachable,
        errors_are_numbers(*rule) && old(ws)@.in_order() && start.limit < old(ws)@.limit / 2 + 3 && old(
            ws,
        )@.size + 1 < old(ws)@.limit / 2 + 3 ==> final(ws)@.in_order(),
        start.ran(
            *rule,
            *arithmetic,
            old(ws)@,
            table@,
            epsrel,
            resabs0,
            final(ws)@,
            *final(result),
            *final(abserr),
            status,
        ),
{
    let ghost before = ws@;
    let ghost t0 = table@;
    let ghost mut rs: Seq<Round> = Seq::empty();
    let mut run = start;
    let mut tab = table;
    let mut next = Next::Bisect;
    while next == Next::Bisect
        invariant
            before == old(ws)@,
            t0 == table@,
            estimates(*rule),
            computes(*arithmetic),
            run.wf(),
            run.limit == start.limit,
            run.seeded == start.seeded,
            run.epsabs == start.epsabs,
            ws@.wf(),
            ws@.limit == before.limit,
            before.size <= ws@.size <= ws@.limit,
            rs.len() > 0 ==> before.size < ws@.size,
            rs.len() == 0 ==> ws@.size == before.size,
            next != Next::Bisect ==> rs.len() > 0,
            next != Next::Extrapolate,
            next == Next::Finish ==> run.errsum.le_spec(run.tolerance),
            ws@.size == run.in_use(),
            !start.seeded ==> ws@.size <= start.limit,
            ws@.size <= start.limit || ws@.size <= before.size + 1,
            next == Next::Bisect && !start.seeded ==> run.iteration < start.limit,
            next == Next::Bisect ==> run.iteration < start.limit - 1 || rs.len() == 0,
            errors_are_numbers(*rule) && before.in_order() && start.limit < before.limit / 2 + 3
                && before.size + 1 < before.limit / 2 + 3 ==> ws@.in_order(),
            next == Next::Bisect ==> run.attached(ws@),
            forall|lo: Double, hi: Double| before.partitions(lo, hi) ==> #[trigger] ws@.partitions(lo, hi),
            ws@.keeps_bounds_of(before),
            start.rounds(*rule, *arithmetic, before, t0, epsrel, rs),
            start.after_rounds(before, t0, rs) == (run, ws@, tab@, next),
        decreases ws@.limit - ws@.size + (if next == Next::Bisect { 1int } else { 0int }),
    {
        let parent = ws.interval(ws.current());
        let m = Bisection::measure(rule, arithmetic, &parent, run.area, run.errsum, epsrel, false);
        let large = LargeIntervals::measure(arithmetic, run.error_over_large_intervals, parent.error, m.error12);
        if tab.len() >= TABLE_ENTRIES {
            // the table can take no further entry: the halves are stored and
            // the run ends
            let ghost full = ws@;
            proof {
                lemma_bisection_keeps_bounds(
                    full,
                    parent.a,
                    m.mid,
                    m.area1,
                    m.error1,
                    m.mid,
                    parent.b,
                    m.area2,
                    m.error2,
                );
            }
            ws.update(parent.a, m.mid, m.area1, m.error1, m.mid, parent.b, m.area2, m.error2);
            *result = ws.sum_results(arithmetic);
            *abserr = m.errsum;
            assert(ws@ == m.stored(full));
            assert(run.ended(
                *rule,
                *arithmetic,
                full,
                tab@,
                Next::Bisect,
                epsrel,
                resabs0,
                ws@,
                *result,
                *abserr,
                Status::GenericFailure,
            ));
            return Status::GenericFailure;
        }
        let ghost at = (run, ws@, tab@);
        next = run.after_bisection(ws, &mut tab, &m, &large);
        let ghost b = (run, ws@, tab@, next);
        let ghost stored = ws@;
        let mut x = Extrapolation { reseps: m.mid, abseps: m.mid, stall_bound: m.mid, scaled: m.mid };
        if next == Next::Extrapolate {
            let pass = tab.transform(arithmetic);
            x = Extrapolation::measure(arithmetic, pass.0, pass.1, run.errsum, epsrel);
            next = run.after_extrapolation(ws, &tab, &x);
        }
        proof {
            lemma_bounds_by_slots(stored, ws@);
            let round = Round { m, large, x, passed: tab@ };
            lemma_round_taken(at.0, *rule, *arithmetic, at.1, at.2, epsrel, round, b, (run, ws@, tab@, next));
            lemma_rounds_push(start, *rule, *arithmetic, before, t0, epsrel, rs, round);
            rs = rs.push(round);
        }
    }
    if next == Next::Finish {
        *result = ws.sum_results(arithmetic);
        *abserr = run.errsum;
        let status = run.finish();
        assert(run.ended(
            *rule,
            *arithmetic,
            ws@,
            tab@,
            next,
            epsrel,
            resabs0,
            ws@,
            *result,
            *abserr,
            status,
        ));
        return status;
    }
    let closing = Closing::measure(arithmetic, &run, resabs0);
    let verdict = run.conclude(&closing);
    if verdict.extrapolated {
        *result = run.res_ext;
        *abserr = run.err_ext;
    } else {
        *result = ws.sum_results(arithmetic);
        *abserr = run.errsum;
    }
    assert(run.ended(
        *rule,
        *arithmetic,
        ws@,
        tab@,
        next,
        epsrel,
        resabs0,
        ws@,
        *result,
        *abserr,
        verdict.status,
    ));
    verdict.status
}

/// An integration with extrapolation over `(a, b)` within `limit`
/// subintervals, entered with the workspace `before`, has left the workspace
/// `after` and returned `result`, `abserr` and `status`.
///
/// The rule has given `whole` over the whole range, and `first` is made of it
/// with a hundred times the machine epsilon as the level of round-off. Where
/// the run ends on that estimate, the status is its verdict, the result and
/// the error are those of `whole`, and the workspace holds the whole range with
/// them. Otherwise the workspace holds at least two subintervals, and the run
/// that starts from `first` has run to its end from the workspace that holds
/// the whole range and the table that holds the first result.
pub open spec fn integrated_with_extrapolation<R: Fn(Double, Double) -> Estimate, A: Fn(Op, Double, Double) -> Double>(
    rule: R,
    arithmetic: A,
    before: WorkspaceView,
    a: Double,
    b: Double,
    epsabs: Double,
    epsrel: Double,
    limit: usize,
    after: WorkspaceView,
    result: Double,
    abserr: Double,
    status: Status,
) -> bool {
    exists|whole: Estimate, first: FirstEstimate| #[trigger]
        call_ensures(rule, (a, b), whole) && #[trigger] first.made_of(
            arithmetic,
            whole,
            epsrel,
            Double { bits: HUNDRED_EPSILON_BITS },
        ) && match first.verdict(epsabs, limit as int, true) {
            Some(s) => status == s && result == whole.result && abserr == whole.abserr && after
                == WorkspaceView::opened(before.limit, a, b, whole.result, whole.abserr, before.slots, before.order),
            None => after.size >= 2 && exists|floor: Double| #[trigger]
                yields(arithmetic, Op::Mul, Double { bits: POSITIVITY_BITS }, whole.resabs, floor)
                    && ExtrapolatedRun::started(epsabs, limit, first, floor).ran(
                    rule,
                    arithmetic,
                    WorkspaceView::opened(
                        before.limit,
                        a,
                        b,
                        whole.result,
                        whole.abserr,
                        before.slots,
                        before.order,
                    ),
                    TableView::holding(first.result),
                    epsrel,
                    whole.resabs,
                    after,
                    result,
                    abserr,
                    status,
                ),
        }
}

impl IntegrationWorkspace {
    /// Integrates over the range from `a` to `b` by adaptive bisection with
    /// extrapolation, until the error estimate is within `epsabs` or within
    /// `epsrel` times the magnitude of the result, with at most `limit`
    /// subintervals. `rule` is the quadrature rule applied to the integrand. The
    /// result and its error estimate go to `result` and `abserr`.
    ///
    /// The parameters are checked before anything else; if they are rejected,
    /// the rule is not asked and result and error are zero. If the first
    /// estimate ends the run, result and error are those of the rule over the
    /// whole range. Otherwise result, error and status are those with which the
    /// run ends. Throughout, the subintervals tile the range and their number
    /// is within `limit`; and if the rule gives no NaN for an error and `limit`
    /// is small enough for the whole priority list to be kept, the list stays in
    /// order of decreasing error.
    pub fn qags<R: Fn(Double, Double) -> Estimate, A: Fn(Op, Double, Double) -> Double>(
        &mut self,
        rule: &R,
        arithmetic: &A,
        a: Double,
        b: Double,
        epsabs: Double,
        epsrel: Double,
        limit: usize,
        result: &mut Double,
        abserr: &mut Double,
    ) -> (status: Status)
        requires
            estimates(*rule),
            computes(*arithmetic),
            1 <= limit,
        ensures
            final(self)@.limit == old(self)@.limit,
            final(self)@.wf(),
            rejection(old(self)@.limit as int, limit as int, epsabs, epsrel) matches Some(s) ==> {
                &&& status == s
                &&& final(result).bits == 0
                &&& final(abserr).bits == 0
                &&& final(self)@ == WorkspaceView::fresh(
                    old(self)@.limit,
                    a,
                    b,
                    old(self)@.slots,
                    old(self)@.order,
                )
            },
            rejection(old(self)@.limit as int, limit as int, epsabs, epsrel) is None ==> {
                &&& 1 <= final(self)@.size <= limit
                &&& final(self)@.partitions(a, b)
                &&& final(self)@.has_bound(a) && final(self)@.has_bound(b)
                &&& final(self)@.is_permutation()
                &&& status != Status::InvalidParameter && status != Status::ToleranceUnreachable
                &&& integrated_with_extrapolation(
                    *rule,
                    *arithmetic,
                    old(self)@,
                    a,
                    b,
                    epsabs,
                    epsrel,
                    limit,
                    final(self)@,
                    *final(result),
                    *final(abserr),
                    status,
                )
                &&& errors_are_numbers(*rule) && limit < final(self)@.limit / 2 + 3 ==> final(self)@.in_order()
            },
    {
        proof {
            use_type_invariant(&*self);
        }
        let zero = Double { bits: 0 };
        self.initialise(a, b);
        *result = zero;
        *abserr = zero;
        match validate(self.limit(), limit, epsabs, epsrel) {
            Some(s) => {
                return s;
            },
            None => {},
        }
        let whole = rule(a, b);
        self.set_initial_result(whole.result, whole.abserr);
        proof {
            assert(self@.slots[0].a == a && self@.slots[0].b == b);
            lemma_single_interval_partitions(self@);
            assert(self@.has_bound(a) && self@.has_bound(b));
        }
        let first = FirstEstimate::of(arithmetic, &whole, epsrel, Double { bits: HUNDRED_EPSILON_BITS });
        match first.test(epsabs, limit, true) {
            Some(s) => {
                *result = whole.result;
                *abserr = whole.abserr;
                assert(integrated_with_extrapolation(
                    *rule,
                    *arithmetic,
                    old(self)@,
                    a,
                    b,
                    epsabs,
                    epsrel,
                    limit,
                    self@,
                    *result,
                    *abserr,
                    s,
                ));
                return s;
            },
            None => {},
        }
        let mut table = ExtrapolationTable::new();
        let positivity_floor = times(arithmetic, Double { bits: POSITIVITY_BITS }, whole.resabs);
        let run = ExtrapolatedRun::start(epsabs, limit, &first, positivity_floor, &mut table);
        assert(table@.epstab =~= TableView::holding(first.result).epstab);
        assert(table@ == TableView::holding(first.result));
        let ghost opened = self@;
        let status = run_to_end(self, rule, arithmetic, run, table, epsrel, whole.resabs, result, abserr);
        assert(yields(*arithmetic, Op::Mul, Double { bits: POSITIVITY_BITS }, whole.resabs, positivity_floor));
        assert(ExtrapolatedRun::started(epsabs, limit, first, positivity_floor).ran(
            *rule,
            *arithmetic,
            opened,
            TableView::holding(first.result),
            epsrel,
            whole.resabs,
            self@,
            *result,
            *abserr,
            status,
        ));
        assert(integrated_with_extrapolation(
            *rule,
            *arithmetic,
            old(self)@,
            a,
            b,
            epsabs,
            epsrel,
            limit,
            self@,
            *result,
            *abserr,
            status,
        ));
        status
    }
}

} // verus!
