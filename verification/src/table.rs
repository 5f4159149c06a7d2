//! The extrapolation table of the epsilon algorithm.
//!
//! `transform` runs a pass over the table. A pass works from the newest entry
//! towards the oldest. Each step combines four entries into a new one: the
//! numeric quantities of the step (differences, tolerances, the new entry and
//! its error) are formed from the four entries, and the table compares them and
//! stores the result. The steps are public, for callers that run a pass
//! themselves.

use vstd::prelude::*;
use crate::arithmetic::{
    computes, minus, over, plus, times, yields, Op, EPSILON_BITS, FIVE_EPSILON_BITS, ONE_BITS,
};
use crate::double::Double;

verus! {

/// Number of storage places of a table.
pub const TABLE_SLOTS: usize = 52;

/// The largest number of entries a table may hold when a pass begins.
pub const TABLE_ENTRIES: usize = 50;

/// A pass that would leave its last entry at this index leaves it one lower.
pub const TABLE_CAP: usize = 49;

/// Bit pattern of `1.0e-4`: a step whose combined reciprocal differences,
/// scaled by the middle entry, are not above it in magnitude ends the pass.
pub const IRREGULAR_BITS: u64 = 0x3f1a_36e2_eb1c_432d;

/// The mathematical content of an [`ExtrapolationTable`].
pub struct TableView {
    /// Number of entries.
    pub n: nat,
    /// Number of passes that ran to the end, counted up to the largest `usize`.
    pub nres: nat,
    /// The storage, `TABLE_SLOTS` places; the first `n` are the entries.
    pub epstab: Seq<Double>,
    /// The results of the last three passes, oldest first.
    pub res3la: Seq<Double>,
}

/// Where a pass stands.
#[derive(Clone, Copy, Debug, PartialEq, Eq, Structural)]
pub enum Phase {
    /// The next step is to be taken.
    Stepping,
    /// The steps are over and the table is to be compacted.
    Compacting,
    /// The pass has ended with its result; the table stays as it is.
    Returned,
}

/// The state of one pass of the epsilon algorithm over a table.
#[derive(Clone, Copy, Debug)]
pub struct Pass {
    /// Index of the newest entry when the pass began.
    pub last: usize,
    /// Number of steps taken.
    pub step: usize,
    /// Index at which the last entry will stand after the pass.
    pub n_final: usize,
    /// Best result so far.
    pub result: Double,
    /// Error estimate of the best result so far.
    pub abserr: Double,
    pub phase: Phase,
}

/// The four entries that a step combines: `e0`, `e1`, `e2` in the order of
/// their age, oldest first, and `e3`, the entry that the step replaces.
#[derive(Clone, Copy, Debug)]
pub struct StepEntries {
    pub e0: Double,
    pub e1: Double,
    pub e2: Double,
    pub e3: Double,
}

/// The numeric quantities of a step, formed from its entries.
#[derive(Clone, Copy, Debug)]
pub struct StepQuantities {
    /// `e1 - e3`
    pub delta1: Double,
    /// `e2 - e1`
    pub delta2: Double,
    /// `e1 - e0`
    pub delta3: Double,
    /// `(1 / delta1 + 1 / delta2) - 1 / delta3`
    pub ss: Double,
    /// `|e1 - e3|`
    pub err1: Double,
    /// `max(|e1|, |e3|)` times the machine epsilon
    pub tol1: Double,
    /// `|e2 - e1|`
    pub err2: Double,
    /// `max(|e2|, |e1|)` times the machine epsilon
    pub tol2: Double,
    /// `|e1 - e0|`
    pub err3: Double,
    /// `max(|e1|, |e0|)` times the machine epsilon
    pub tol3: Double,
    /// `err2 + err3`
    pub err23: Double,
    /// five times the machine epsilon times `|e2|`
    pub floor2: Double,
    /// `ss * e1`
    pub ss_e1: Double,
    /// The new entry, `e1 + 1 / ss`
    pub res: Double,
    /// `err2 + |res - e2| + err3`
    pub error: Double,
}

impl StepQuantities {
    /// The quantities are what the arithmetic gives for the entries `e`.
    pub open spec fn made_of<A: Fn(Op, Double, Double) -> Double>(self, arithmetic: A, e: StepEntries) -> bool {
        let one = Double { bits: ONE_BITS };
        let eps = Double { bits: EPSILON_BITS };
        &&& yields(arithmetic, Op::Sub, e.e1, e.e3, self.delta1)
        &&& yields(arithmetic, Op::Sub, e.e2, e.e1, self.delta2)
        &&& yields(arithmetic, Op::Sub, e.e1, e.e0, self.delta3)
        &&& self.err1 == self.delta1.abs_spec()
        &&& self.err2 == self.delta2.abs_spec()
        &&& self.err3 == self.delta3.abs_spec()
        &&& yields(arithmetic, Op::Mul, e.e1.abs_spec().max_spec(e.e3.abs_spec()), eps, self.tol1)
        &&& yields(arithmetic, Op::Mul, e.e2.abs_spec().max_spec(e.e1.abs_spec()), eps, self.tol2)
        &&& yields(arithmetic, Op::Mul, e.e1.abs_spec().max_spec(e.e0.abs_spec()), eps, self.tol3)
        &&& yields(arithmetic, Op::Add, self.err2, self.err3, self.err23)
        &&& yields(arithmetic, Op::Mul, Double { bits: FIVE_EPSILON_BITS }, e.e2.abs_spec(), self.floor2)
        &&& Self::curvature(arithmetic, self.delta1, self.delta2, self.delta3, self.ss)
        &&& yields(arithmetic, Op::Mul, self.ss, e.e1, self.ss_e1)
        &&& Self::extrapolated(arithmetic, e.e1, self.ss, self.res)
        &&& Self::error_of(arithmetic, self.err2, self.res, e.e2, self.err3, self.error)
    }

    /// `ss` is `(1 / delta1 + 1 / delta2) - 1 / delta3`.
    pub open spec fn curvature<A: Fn(Op, Double, Double) -> Double>(
        arithmetic: A,
        delta1: Double,
        delta2: Double,
        delta3: Double,
        ss: Double,
    ) -> bool {
        let one = Double { bits: ONE_BITS };
        exists|r1: Double, r2: Double, r3: Double, t: Double|
            yields(arithmetic, Op::Div, one, delta1, r1) && yields(arithmetic, Op::Div, one, delta2, r2)
                && #[trigger] yields(arithmetic, Op::Div, one, delta3, r3) && #[trigger] yields(
                arithmetic,
                Op::Add,
                r1,
                r2,
                t,
            ) && yields(arithmetic, Op::Sub, t, r3, ss)
    }

    /// `res` is `e1 + 1 / ss`.
    pub open spec fn extrapolated<A: Fn(Op, Double, Double) -> Double>(
        arithmetic: A,
        e1: Double,
        ss: Double,
        res: Double,
    ) -> bool {
        exists|r: Double| #[trigger]
            yields(arithmetic, Op::Div, Double { bits: ONE_BITS }, ss, r) && yields(arithmetic, Op::Add, e1, r, res)
    }

    /// `error` is `(err2 + |res - e2|) + err3`.
    pub open spec fn error_of<A: Fn(Op, Double, Double) -> Double>(
        arithmetic: A,
        err2: Double,
        res: Double,
        e2: Double,
        err3: Double,
        error: Double,
    ) -> bool {
        exists|c: Double, t: Double|
            yields(arithmetic, Op::Sub, res, e2, c) && #[trigger] yields(arithmetic, Op::Add, err2, c.abs_spec(), t)
                && yields(arithmetic, Op::Add, t, err3, error)
    }

    /// Forms the quantities of a step from its entries.
    pub fn of<A: Fn(Op, Double, Double) -> Double>(arithmetic: &A, e: &StepEntries) -> (q: StepQuantities)
        requires
            computes(*arithmetic),
        ensures
            q.made_of(*arithmetic, *e),
    {
        let one = Double { bits: ONE_BITS };
        let eps = Double { bits: EPSILON_BITS };
        let e1abs = e.e1.abs();
        let delta2 = minus(arithmetic, e.e2, e.e1);
        let err2 = delta2.abs();
        let tol2 = times(arithmetic, e.e2.abs().max(e1abs), eps);
        let delta3 = minus(arithmetic, e.e1, e.e0);
        let err3 = delta3.abs();
        let tol3 = times(arithmetic, e1abs.max(e.e0.abs()), eps);
        let delta1 = minus(arithmetic, e.e1, e.e3);
        let err1 = delta1.abs();
        let tol1 = times(arithmetic, e1abs.max(e.e3.abs()), eps);
        let r1 = over(arithmetic, one, delta1);
        let r2 = over(arithmetic, one, delta2);
        let r3 = over(arithmetic, one, delta3);
        let t = plus(arithmetic, r1, r2);
        let ss = minus(arithmetic, t, r3);
        let r = over(arithmetic, one, ss);
        let res = plus(arithmetic, e.e1, r);
        let c = minus(arithmetic, res, e.e2);
        let u = plus(arithmetic, err2, c.abs());
        let error = plus(arithmetic, u, err3);
        assert(Self::curvature(*arithmetic, delta1, delta2, delta3, ss));
        assert(Self::extrapolated(*arithmetic, e.e1, ss, res));
        assert(Self::error_of(*arithmetic, err2, res, e.e2, err3, error));
        StepQuantities {
            delta1,
            delta2,
            delta3,
            ss,
            err1,
            tol1,
            err2,
            tol2,
            err3,
            tol3,
            err23: plus(arithmetic, err2, err3),
            floor2: times(arithmetic, Double { bits: FIVE_EPSILON_BITS }, e.e2.abs()),
            ss_e1: times(arithmetic, ss, e.e1),
            res,
            error,
        }
    }
}

/// The pairs of places moved two down: every place of the parity of `last`, up
/// to `last` itself, takes the entry two places further on.
pub open spec fn pairs_shifted(epstab: Seq<Double>, last: int) -> Seq<Double> {
    Seq::new(
        epstab.len(),
        |t: int|
            if t % 2 == last % 2 && t <= last {
                epstab[t + 2]
            } else {
                epstab[t]
            },
    )
}

/// The `count` entries from place `from` on moved to the front.
pub open spec fn moved_to_front(epstab: Seq<Double>, from: int, count: int) -> Seq<Double> {
    Seq::new(
        epstab.len(),
        |t: int|
            if t < count {
                epstab[from + t]
            } else {
                epstab[t]
            },
    )
}

/// The table's storage after a pass that began with its newest entry at `last`
/// and leaves its last entry at `n_final`.
pub open spec fn compacted(epstab: Seq<Double>, last: int, n_final: int) -> Seq<Double> {
    if last != n_final {
        moved_to_front(pairs_shifted(epstab, last), last - n_final, n_final + 1)
    } else {
        pairs_shifted(epstab, last)
    }
}

impl TableView {
    /// The table has as many entries, has counted as many passes and holds the
    /// same last results as `before`: a pass over it has ended early.
    pub open spec fn keeps_count_of(self, before: TableView) -> bool {
        &&& self.n == before.n
        &&& self.nres == before.nres
        &&& self.res3la == before.res3la
    }

    /// `spread` is the sum of the distances of `result` from the last three
    /// results, the newest first.
    pub open spec fn spread_of<A: Fn(Op, Double, Double) -> Double>(
        self,
        arithmetic: A,
        result: Double,
        spread: Double,
    ) -> bool {
        exists|d2: Double, d1: Double, d0: Double, t: Double|
            yields(arithmetic, Op::Sub, result, self.res3la[2], d2) && yields(
                arithmetic,
                Op::Sub,
                result,
                self.res3la[1],
                d1,
            ) && #[trigger] yields(arithmetic, Op::Sub, result, self.res3la[0], d0) && #[trigger] yields(
                arithmetic,
                Op::Add,
                d2.abs_spec(),
                d1.abs_spec(),
                t,
            ) && yields(arithmetic, Op::Add, t, d0.abs_spec(), spread)
    }

    /// `abserr` is the error estimate of a pass over this table that ran to the
    /// end with the result `result`: the largest number until three passes have
    /// run to the end, the spread of the last three results after that, and
    /// either way at least five times the machine epsilon times the magnitude of
    /// the result.
    pub open spec fn error_of_pass<A: Fn(Op, Double, Double) -> Double>(
        self,
        arithmetic: A,
        result: Double,
        abserr: Double,
    ) -> bool {
        exists|spread: Double, floor: Double|
            #[trigger] self.spread_of(arithmetic, result, spread) && #[trigger] yields(
                arithmetic,
                Op::Mul,
                Double { bits: FIVE_EPSILON_BITS },
                result.abs_spec(),
                floor,
            ) && abserr == (if self.nres < 3 {
                Double::largest_spec()
            } else {
                spread
            }).max_spec(floor)
    }

    /// The table of three entries or more once a pass over it has begun: the
    /// newest entry has moved two places on and the largest number has taken its
    /// place.
    pub open spec fn begun(self) -> TableView {
        TableView {
            epstab: self.epstab.update(self.n as int + 1, self.epstab[self.n - 1]).update(
                self.n - 1,
                Double::largest_spec(),
            ),
            ..self
        }
    }

    /// A pass over this table, which has three entries or more, has made
    /// `after` of it and returned `r`, its result and error estimate.
    ///
    /// The pass takes its steps one after the other from the table as begun,
    /// each with the quantities that the arithmetic gives for its entries, until
    /// a step ends them. If the pass has ended early, table, result and error are
    /// as that step left them. If the steps are over, the table has been closed,
    /// the result is the best of the steps, and the error is that of a pass that
    /// ran to the end.
    pub open spec fn passed<A: Fn(Op, Double, Double) -> Double>(
        self,
        arithmetic: A,
        after: TableView,
        r: (Double, Double),
    ) -> bool {
        exists|qs: Seq<StepQuantities>| #[trigger]
            Pass::begun(self).steps(arithmetic, self.begun(), qs) && Pass::begun(self).ended(
                arithmetic,
                self.begun(),
                qs,
                after,
                r,
            )
    }

    /// A pass over this table has made `after` of it and returned `r`, its
    /// result and error estimate. With fewer than three entries the table stays
    /// as it is, the result is the newest entry, and its error estimate is five
    /// times the machine epsilon times its magnitude.
    pub open spec fn transformed<A: Fn(Op, Double, Double) -> Double>(
        self,
        arithmetic: A,
        after: TableView,
        r: (Double, Double),
    ) -> bool {
        if self.n < 3 {
            &&& after == self
            &&& r.0 == self.epstab[self.n - 1]
            &&& yields(arithmetic, Op::Mul, Double { bits: FIVE_EPSILON_BITS }, r.0.abs_spec(), r.1)
        } else {
            self.passed(arithmetic, after, r)
        }
    }

    /// The table without its entries and without a count of passes.
    pub open spec fn emptied(self) -> TableView {
        TableView { n: 0, nres: 0, ..self }
    }

    /// The table that holds `y` as its only entry and nothing else.
    pub open spec fn holding(y: Double) -> TableView {
        TableView {
            n: 1,
            nres: 0,
            epstab: Seq::new(
                TABLE_SLOTS as nat,
                |k: int|
                    if k == 0 {
                        y
                    } else {
                        Double { bits: 0 }
                    },
            ),
            res3la: Seq::new(3, |k: int| Double { bits: 0 }),
        }
    }

    /// The table is what a pass that ran to the end with the result `result`
    /// has made of `before`, as far as its counts and last results go.
    pub open spec fn follows_full_pass(self, before: TableView, result: Double) -> bool {
        &&& 3 <= before.n
        &&& self.n <= TABLE_CAP
        &&& self.nres == (if before.nres < usize::MAX {
            before.nres + 1
        } else {
            before.nres
        })
        &&& self.res3la == (if before.nres < 3 {
            before.res3la.update(before.nres as int, result)
        } else {
            seq![before.res3la[1], before.res3la[2], result]
        })
    }

    pub open spec fn wf(self) -> bool {
        &&& self.epstab.len() == TABLE_SLOTS
        &&& self.res3la.len() == 3
        &&& self.n <= TABLE_ENTRIES
        &&& self.nres <= usize::MAX
    }
}

impl Pass {
    /// The pass over the table `t` of three entries or more, at its beginning.
    pub open spec fn begun(t: TableView) -> Pass {
        Pass {
            last: (t.n - 1) as usize,
            step: 0,
            n_final: (t.n - 1) as usize,
            result: t.epstab[t.n - 1],
            abserr: Double::largest_spec(),
            phase: Phase::Stepping,
        }
    }

    /// The pass and the table after the steps with the quantities `qs`, one
    /// after the other, from this pass and the table `t`.
    pub open spec fn after(self, t: TableView, qs: Seq<StepQuantities>) -> (Pass, TableView)
        decreases qs.len(),
    {
        if qs.len() == 0 {
            (self, t)
        } else {
            let before = self.after(t, qs.drop_last());
            (before.0.stepped(before.1, qs.last()), before.0.stepped_table(before.1, qs.last()))
        }
    }

    /// The quantities `k` of `qs` are what the arithmetic gives for the entries
    /// of the step that they are taken with, and the pass is stepping then.
    pub open spec fn step_at<A: Fn(Op, Double, Double) -> Double>(
        self,
        arithmetic: A,
        t: TableView,
        qs: Seq<StepQuantities>,
        k: int,
    ) -> bool {
        &&& self.after(t, qs.take(k)).0.phase == Phase::Stepping
        &&& qs[k].made_of(arithmetic, self.after(t, qs.take(k)).0.entries(self.after(t, qs.take(k)).1))
    }

    /// Each of the quantities `qs` is what the arithmetic gives for the entries
    /// of the step that it is taken with, and the pass is stepping then.
    pub open spec fn steps<A: Fn(Op, Double, Double) -> Double>(
        self,
        arithmetic: A,
        t: TableView,
        qs: Seq<StepQuantities>,
    ) -> bool {
        forall|k: int| 0 <= k < qs.len() ==> #[trigger] self.step_at(arithmetic, t, qs, k)
    }

    /// The steps with the quantities `qs` have ended the pass, and it has made
    /// `after` of the table and returned `r`.
    pub open spec fn ended<A: Fn(Op, Double, Double) -> Double>(
        self,
        arithmetic: A,
        t: TableView,
        qs: Seq<StepQuantities>,
        after: TableView,
        r: (Double, Double),
    ) -> bool {
        let end = self.after(t, qs);
        match end.0.phase {
            Phase::Stepping => false,
            Phase::Returned => after == end.1 && r.0 == end.0.result && r.1 == end.0.abserr,
            Phase::Compacting => after == end.0.closed_table(end.1) && r.0 == end.0.result && end.1.error_of_pass(
                arithmetic,
                r.0,
                r.1,
            ),
        }
    }

    /// The pass belongs to the table `t` and its counters are in range.
    pub open spec fn wf(self, t: TableView) -> bool {
        &&& t.wf()
        &&& self.last + 1 == t.n
        &&& self.n_final <= self.last
        &&& self.step <= self.last / 2
        &&& self.phase == Phase::Stepping ==> 2 <= self.last && self.step < self.last / 2 && self.n_final
            == self.last
        &&& self.phase == Phase::Compacting ==> 2 <= self.last
    }

    /// The places of the entries that the next step combines.
    pub open spec fn entries(self, t: TableView) -> StepEntries {
        let base = self.last - 2 * self.step;
        StepEntries { e0: t.epstab[base - 2], e1: t.epstab[base - 1], e2: t.epstab[base + 2], e3: t.epstab[base] }
    }

    /// The newest three entries agree to machine accuracy.
    pub open spec fn converged(q: StepQuantities) -> bool {
        q.err2.le_spec(q.tol2) && q.err3.le_spec(q.tol3)
    }

    /// Two of the entries are too close, or the step is too irregular, for the
    /// rest of the table to be used.
    pub open spec fn truncates(q: StepQuantities) -> bool {
        ||| q.err1.le_spec(q.tol1)
        ||| q.err2.le_spec(q.tol2)
        ||| q.err3.le_spec(q.tol3)
        ||| q.ss_e1.abs_spec().le_spec(Double { bits: IRREGULAR_BITS })
    }

    /// The pass after one step with the quantities `q`.
    pub open spec fn stepped(self, t: TableView, q: StepQuantities) -> Pass {
        if Self::converged(q) {
            Pass { result: self.entries(t).e2, abserr: q.err23.max_spec(q.floor2), phase: Phase::Returned, ..self }
        } else if Self::truncates(q) {
            Pass { n_final: (2 * self.step) as usize, phase: Phase::Compacting, ..self }
        } else {
            let better = q.error.le_spec(self.abserr);
            Pass {
                step: (self.step + 1) as usize,
                result: if better {
                    q.res
                } else {
                    self.result
                },
                abserr: if better {
                    q.error
                } else {
                    self.abserr
                },
                phase: if self.step + 1 == self.last / 2 {
                    Phase::Compacting
                } else {
                    Phase::Stepping
                },
                ..self
            }
        }
    }

    /// The table after one step with the quantities `q`.
    pub open spec fn stepped_table(self, t: TableView, q: StepQuantities) -> TableView {
        let base = self.last - 2 * self.step;
        if Self::converged(q) {
            t
        } else if Self::truncates(q) {
            TableView { epstab: t.epstab.update(base, self.entries(t).e1), ..t }
        } else {
            TableView { epstab: t.epstab.update(base, q.res), ..t }
        }
    }

    /// Index at which the last entry stands after the pass.
    pub open spec fn final_index(self) -> int {
        if self.n_final == TABLE_CAP {
            2 * (TABLE_CAP / 2) as int
        } else {
            self.n_final as int
        }
    }

    /// The table after the pass has been closed.
    pub open spec fn closed_table(self, t: TableView) -> TableView {
        TableView {
            n: (self.final_index() + 1) as nat,
            nres: if t.nres < usize::MAX {
                t.nres + 1
            } else {
                t.nres
            },
            epstab: compacted(t.epstab, self.last as int, self.final_index()),
            res3la: if t.nres < 3 {
                t.res3la.update(t.nres as int, self.result)
            } else {
                seq![t.res3la[1], t.res3la[2], self.result]
            },
        }
    }
}

/// The bounded sequence of partial results that the epsilon algorithm
/// accelerates, with the results of its last three passes.
pub struct ExtrapolationTable {
    n: usize,
    nres: usize,
    epstab: Vec<Double>,
    res3la: Vec<Double>,
}

impl View for ExtrapolationTable {
    type V = TableView;

    closed spec fn view(&self) -> TableView {
        TableView { n: self.n as nat, nres: self.nres as nat, epstab: self.epstab@, res3la: self.res3la@ }
    }
}

impl ExtrapolationTable {
    #[verifier::type_invariant]
    pub(crate) open spec fn well_formed(self) -> bool {
        self@.wf()
    }

    /// An empty table.
    pub fn new() -> (t: ExtrapolationTable)
        ensures
            t@ == TableView::holding(Double { bits: 0 }).emptied(),
            t@.wf(),
            t@.n == 0,
            t@.nres == 0,
            forall|k: int| 0 <= k < TABLE_SLOTS ==> (#[trigger] t@.epstab[k]).bits == 0,
            forall|k: int| 0 <= k < 3 ==> (#[trigger] t@.res3la[k]).bits == 0,
    {
        let zero = Double { bits: 0 };
        let mut epstab: Vec<Double> = Vec::new();
        let mut k: usize = 0;
        while k < TABLE_SLOTS
            invariant
                k <= TABLE_SLOTS,
                zero.bits == 0,
                epstab@.len() == k,
                forall|t: int| 0 <= t < k ==> (#[trigger] epstab@[t]).bits == 0,
            decreases TABLE_SLOTS - k,
        {
            epstab.push(zero);
            k += 1;
        }
        let mut res3la: Vec<Double> = Vec::new();
        res3la.push(zero);
        res3la.push(zero);
        res3la.push(zero);
        assert(epstab@ =~= TableView::holding(zero).epstab);
        assert(res3la@ =~= TableView::holding(zero).res3la);
        ExtrapolationTable { n: 0, nres: 0, epstab, res3la }
    }

    /// Empties the table and forgets the results of earlier passes.
    pub fn initialise(&mut self)
        ensures
            final(self)@ == (TableView { n: 0, nres: 0, ..old(self)@ }),
            final(self)@.wf(),
    {
        proof {
            use_type_invariant(&*self);
        }
        self.n = 0;
        self.nres = 0;
    }

    /// Number of entries.
    pub fn len(&self) -> (n: usize)
        ensures
            n == self@.n,
            n <= TABLE_ENTRIES,
    {
        proof {
            use_type_invariant(self);
        }
        self.n
    }

    /// Number of passes that ran to the end.
    pub fn passes(&self) -> (n: usize)
        ensures
            n == self@.nres,
    {
        self.nres
    }

    /// The entry at place `k` of the storage.
    pub fn entry(&self, k: usize) -> (e: Double)
        requires
            k < TABLE_SLOTS,
        ensures
            e == self@.epstab[k as int],
    {
        proof {
            use_type_invariant(self);
        }
        self.epstab[k]
    }

    /// The result of one of the last three passes, `k = 0` being the oldest.
    pub fn recent(&self, k: usize) -> (e: Double)
        requires
            k < 3,
        ensures
            e == self@.res3la[k as int],
    {
        proof {
            use_type_invariant(self);
        }
        self.res3la[k]
    }

    /// Appends `y` as the newest entry.
    pub fn append(&mut self, y: Double)
        requires
            old(self)@.n < TABLE_ENTRIES,
        ensures
            final(self)@ == (TableView {
                n: old(self)@.n + 1,
                epstab: old(self)@.epstab.update(old(self)@.n as int, y),
                ..old(self)@
            }),
            final(self)@.wf(),
    {
        proof {
            use_type_invariant(&*self);
        }
        let n: usize = self.n;
        self.epstab[n] = y;
        self.n += 1;
    }

    /// Begins a pass over a table of at least one entry. `floor` is five times
    /// the machine epsilon times the magnitude of the newest entry.
    ///
    /// With fewer than three entries there is nothing to combine: the pass has
    /// ended, its result is the newest entry and its error is `floor`. Otherwise
    /// the newest entry moves two places on and the largest number takes its
    /// place.
    pub fn begin_pass(&mut self, floor: Double) -> (pass: Pass)
        requires
            1 <= old(self)@.n,
        ensures
            pass.wf(final(self)@),
            pass.last == old(self)@.n - 1,
            pass.step == 0,
            pass.n_final == pass.last,
            pass.result == old(self)@.epstab[pass.last as int],
            old(self)@.n < 3 ==> {
                &&& final(self)@ == old(self)@
                &&& pass.phase == Phase::Returned
                &&& pass.abserr == floor
            },
            old(self)@.n >= 3 ==> {
                &&& final(self)@ == old(self)@.begun()
                &&& pass == Pass::begun(old(self)@)
            },
    {
        proof {
            use_type_invariant(&*self);
        }
        let last: usize = self.n - 1;
        let current: Double = self.epstab[last];
        let largest = Double::largest();
        if last < 2 {
            return Pass {
                last,
                step: 0,
                n_final: last,
                result: current,
                abserr: floor,
                phase: Phase::Returned,
            };
        }
        self.epstab[last + 2] = current;
        self.epstab[last] = largest;
        assert(self.epstab@ =~= old(self)@.begun().epstab);
        Pass { last, step: 0, n_final: last, result: current, abserr: largest, phase: Phase::Stepping }
    }

    /// The four entries that the next step of the pass combines.
    pub fn step_entries(&self, pass: &Pass) -> (e: StepEntries)
        requires
            pass.wf(self@),
            pass.phase == Phase::Stepping,
        ensures
            e == pass.entries(self@),
    {
        let base: usize = pass.last - 2 * pass.step;
        StepEntries {
            e0: self.epstab[base - 2],
            e1: self.epstab[base - 1],
            e2: self.epstab[base + 2],
            e3: self.epstab[base],
        }
    }

    /// Takes one step of the pass with the quantities `q`, formed from
    /// `step_entries`.
    ///
    /// If the newest three entries agree to machine accuracy the pass ends with
    /// the newest as its result. If two entries are too close or the step is too
    /// irregular, the older part of the table is given up and the steps are
    /// over. Otherwise the new entry is stored, and it becomes the result of the
    /// pass if its error is not above that of the best one so far.
    pub fn apply_step(&mut self, pass: &mut Pass, q: &StepQuantities)
        requires
            old(pass).wf(old(self)@),
            old(pass).phase == Phase::Stepping,
        ensures
            *final(pass) == old(pass).stepped(old(self)@, *q),
            final(self)@ == old(pass).stepped_table(old(self)@, *q),
            final(pass).wf(final(self)@),
    {
        let ghost before = self.epstab@;
        let base: usize = pass.last - 2 * pass.step;
        let e1: Double = self.epstab[base - 1];
        let e2: Double = self.epstab[base + 2];
        let close2: bool = q.err2.le(q.tol2);
        let close3: bool = q.err3.le(q.tol3);
        if close2 && close3 {
            pass.result = e2;
            pass.abserr = q.err23.max(q.floor2);
            pass.phase = Phase::Returned;
            return ;
        }
        self.epstab[base] = e1;
        if q.err1.le(q.tol1) || close2 || close3 || q.ss_e1.abs().le(Double { bits: IRREGULAR_BITS }) {
            pass.n_final = 2 * pass.step;
            pass.phase = Phase::Compacting;
            return ;
        }
        self.epstab[base] = q.res;
        assert(self.epstab@ =~= before.update(base as int, q.res));
        if q.error.le(pass.abserr) {
            pass.abserr = q.error;
            pass.result = q.res;
        }
        pass.step = pass.step + 1;
        if pass.step == pass.last / 2 {
            pass.phase = Phase::Compacting;
        }
    }

    /// Closes a pass whose steps are over: compacts the table, records the
    /// result among the last three, and returns the result with its error
    /// estimate.
    ///
    /// `spread` is the sum of the distances of the result from the last three
    /// results, and `floor` five times the machine epsilon times the magnitude of
    /// the result. Until three passes have ended the estimate is the largest
    /// number; after that it is `spread`; either way it is at least `floor`.
    pub fn end_pass(&mut self, pass: &Pass, spread: Double, floor: Double) -> (r: (Double, Double))
        requires
            pass.wf(old(self)@),
            pass.phase == Phase::Compacting,
        ensures
            final(self)@ == pass.closed_table(old(self)@),
            final(self)@.wf(),
            1 <= final(self)@.n <= TABLE_CAP,
            final(self)@.n <= old(self)@.n,
            r.0 == pass.result,
            r.1 == (if old(self)@.nres < 3 {
                Double::largest_spec()
            } else {
                spread
            }).max_spec(floor),
    {
        let ghost before = self@;
        let last: usize = pass.last;
        let newelm: usize = last / 2;
        let n_final: usize = if pass.n_final == TABLE_CAP {
            2 * (TABLE_CAP / 2)
        } else {
            pass.n_final
        };
        let start: usize = last % 2;
        let mut i: usize = 0;
        while i <= newelm
            invariant
                i <= newelm + 1,
                newelm == last / 2,
                start == last % 2,
                last <= TABLE_CAP,
                self@.wf(),
                self.epstab@.len() == TABLE_SLOTS,
                self@ == (TableView { epstab: self.epstab@, ..before }),
                forall|t: int|
                    0 <= t < TABLE_SLOTS ==> #[trigger] self.epstab@[t] == if t % 2 == last % 2 && t < 2 * i
                        + start {
                        before.epstab[t + 2]
                    } else {
                        before.epstab[t]
                    },
            decreases newelm + 1 - i,
        {
            let next: Double = self.epstab[start + 2 * i + 2];
            self.epstab[start + 2 * i] = next;
            i += 1;
        }
        assert(self.epstab@ =~= pairs_shifted(before.epstab, last as int));
        let ghost paired = self.epstab@;
        if last != n_final {
            let from: usize = last - n_final;
            let mut k: usize = 0;
            while k <= n_final
                invariant
                    k <= n_final + 1,
                    n_final < last <= TABLE_CAP,
                    from == last - n_final,
                    self@.wf(),
                    self.epstab@.len() == TABLE_SLOTS,
                    paired.len() == TABLE_SLOTS,
                    self@ == (TableView { epstab: self.epstab@, ..before }),
                    forall|t: int|
                        0 <= t < TABLE_SLOTS ==> #[trigger] self.epstab@[t] == if t < k {
                            paired[from + t]
                        } else {
                            paired[t]
                        },
                decreases n_final + 1 - k,
            {
                let moved: Double = self.epstab[from + k];
                self.epstab[k] = moved;
                k += 1;
            }
            assert(self.epstab@ =~= moved_to_front(paired, from as int, n_final + 1));
        }
        self.n = n_final + 1;

        let largest = Double::largest();
        let estimate: Double;
        if self.nres < 3 {
            let at: usize = self.nres;
            self.res3la[at] = pass.result;
            estimate = largest;
        } else {
            estimate = spread;
            let second: Double = self.res3la[1];
            let third: Double = self.res3la[2];
            self.res3la[0] = second;
            self.res3la[1] = third;
            self.res3la[2] = pass.result;
            assert(self.res3la@ =~= seq![before.res3la[1], before.res3la[2], pass.result]);
        }
        if self.nres < usize::MAX {
            self.nres += 1;
        }
        (pass.result, estimate.max(floor))
    }

    /// Runs one pass of the epsilon algorithm over the table and returns its
    /// result with an error estimate.
    ///
    /// With fewer than three entries the result is the newest entry, its error
    /// estimate is five times the machine epsilon times its magnitude, and the
    /// table stays as it is. Otherwise
    /// the pass steps through the table from the newest entry on. It either ends
    /// early, on three entries that agree to machine accuracy, and leaves the
    /// number of entries as it was; or it compacts the table, to at most
    /// `TABLE_CAP` entries, and counts as a pass that ran to the end.
    pub fn transform<A: Fn(Op, Double, Double) -> Double>(&mut self, arithmetic: &A) -> (r: (Double, Double))
        requires
            computes(*arithmetic),
            1 <= old(self)@.n,
        ensures
            final(self)@.wf(),
            1 <= final(self)@.n <= old(self)@.n,
            final(self)@.res3la.len() == 3,
            old(self)@.transformed(*arithmetic, final(self)@, r),
            final(self)@.keeps_count_of(old(self)@) || (final(self)@.follows_full_pass(old(self)@, r.0) && old(
                self,
            )@.error_of_pass(*arithmetic, r.0, r.1)),
    {
        proof {
            use_type_invariant(&*self);
        }
        let newest = self.entry(self.len() - 1);
        let floor = times(arithmetic, Double { bits: FIVE_EPSILON_BITS }, newest.abs());
        let mut pass = self.begin_pass(floor);
        if pass.phase == Phase::Returned {
            return (pass.result, pass.abserr);
        }
        let ghost first = pass;
        let ghost begun = self@;
        let ghost mut qs: Seq<StepQuantities> = Seq::empty();
        while pass.phase == Phase::Stepping
            invariant
                computes(*arithmetic),
                pass.wf(self@),
                3 <= begun.n,
                first == Pass::begun(old(self)@),
                begun == old(self)@.begun(),
                begun.n == old(self)@.n,
                begun.nres == old(self)@.nres,
                begun.res3la == old(self)@.res3la,
                self@.n == begun.n,
                self@.nres == begun.nres,
                self@.res3la == begun.res3la,
                first.steps(*arithmetic, begun, qs),
                first.after(begun, qs) == (pass, self@),
            decreases
                    pass.last / 2 - pass.step + (if pass.phase == Phase::Stepping {
                        1int
                    } else {
                        0int
                    }),
        {
            let e = self.step_entries(&pass);
            let q = StepQuantities::of(arithmetic, &e);
            proof {
                lemma_steps_push(first, *arithmetic, begun, qs, q);
                qs = qs.push(q);
            }
            self.apply_step(&mut pass, &q);
        }
        if pass.phase == Phase::Returned {
            assert(first.ended(*arithmetic, begun, qs, self@, (pass.result, pass.abserr)));
            return (pass.result, pass.abserr);
        }
        let result = pass.result;
        let d2 = minus(arithmetic, result, self.recent(2)).abs();
        let d1 = minus(arithmetic, result, self.recent(1)).abs();
        let d0 = minus(arithmetic, result, self.recent(0)).abs();
        let spread = plus(arithmetic, plus(arithmetic, d2, d1), d0);
        let floor = times(arithmetic, Double { bits: FIVE_EPSILON_BITS }, result.abs());
        let ghost closing = self@;
        assert(closing.spread_of(*arithmetic, result, spread));
        assert(old(self)@.spread_of(*arithmetic, result, spread));
        let r = self.end_pass(&pass, spread, floor);
        assert(closing.error_of_pass(*arithmetic, r.0, r.1));
        assert(old(self)@.error_of_pass(*arithmetic, r.0, r.1));
        assert(first.ended(*arithmetic, begun, qs, self@, r));
        r
    }
}

/// One more step, with the quantities that the arithmetic gives for its
/// entries, extends the steps of a pass.
#[verifier::spinoff_prover]
pub proof fn lemma_steps_push<A: Fn(Op, Double, Double) -> Double>(
    first: Pass,
    arithmetic: A,
    t: TableView,
    qs: Seq<StepQuantities>,
    q: StepQuantities,
)
    requires
        first.steps(arithmetic, t, qs),
        first.after(t, qs).0.phase == Phase::Stepping,
        q.made_of(arithmetic, first.after(t, qs).0.entries(first.after(t, qs).1)),
    ensures
        first.steps(arithmetic, t, qs.push(q)),
        first.after(t, qs.push(q)) == (
            first.after(t, qs).0.stepped(first.after(t, qs).1, q),
            first.after(t, qs).0.stepped_table(first.after(t, qs).1, q),
        ),
{
    let longer = qs.push(q);
    assert(longer.drop_last() =~= qs);
    assert(longer.last() == q);
    assert forall|k: int| 0 <= k < longer.len() implies #[trigger] first.step_at(arithmetic, t, longer, k) by {
        if k < qs.len() {
            assert(first.step_at(arithmetic, t, qs, k));
            assert(longer.take(k) =~= qs.take(k));
            assert(longer[k] == qs[k]);
        } else {
            assert(longer.take(k) =~= qs);
        }
    }
}

/// `abserr` is not below five times the machine epsilon times the magnitude of
/// `result`, as the arithmetic gives that product, if the product is a number.
pub open spec fn floored<A: Fn(Op, Double, Double) -> Double>(arithmetic: A, result: Double, abserr: Double) -> bool {
    exists|floor: Double| #[trigger]
        yields(arithmetic, Op::Mul, Double { bits: FIVE_EPSILON_BITS }, result.abs_spec(), floor) && (floor.is_nan()
            || floor.le_spec(abserr))
}

/// The error estimate of a pass is never below five times the machine epsilon
/// times the magnitude of its result, however the pass has ended.
pub proof fn lemma_pass_error_floored<A: Fn(Op, Double, Double) -> Double>(
    arithmetic: A,
    t: TableView,
    after: TableView,
    r: (Double, Double),
)
    requires
        t.transformed(arithmetic, after, r),
    ensures
        floored(arithmetic, r.0, r.1),
{
    let five = Double { bits: FIVE_EPSILON_BITS };
    if t.n < 3 {
        assert(yields(arithmetic, Op::Mul, five, r.0.abs_spec(), r.1));
    } else {
        let first = Pass::begun(t);
        let b = t.begun();
        let qs = choose|qs: Seq<StepQuantities>| #[trigger]
            first.steps(arithmetic, b, qs) && first.ended(arithmetic, b, qs, after, r);
        let end = first.after(b, qs);
        if end.0.phase == Phase::Returned {
            let k = qs.len() - 1;
            assert(qs.len() > 0);
            let before = first.after(b, qs.drop_last());
            assert(qs.take(k) =~= qs.drop_last());
            assert(first.step_at(arithmetic, b, qs, k));
            let q = qs[k];
            assert(Pass::converged(q));
            assert(yields(arithmetic, Op::Mul, five, r.0.abs_spec(), q.floor2));
            assert(r.1 == q.err23.max_spec(q.floor2));
        } else {
            let (spread, floor) = choose|spread: Double, floor: Double|
                #[trigger] end.1.spread_of(arithmetic, r.0, spread) && #[trigger] yields(
                    arithmetic,
                    Op::Mul,
                    five,
                    r.0.abs_spec(),
                    floor,
                ) && r.1 == (if end.1.nres < 3 {
                    Double::largest_spec()
                } else {
                    spread
                }).max_spec(floor);
            assert(floor.is_nan() || floor.le_spec(r.1));
        }
    }
}

} // verus!
