//! Seeding a workspace with the ranges between known break points.

use vstd::prelude::*;
use crate::arithmetic::{
    computes, estimates, is_sum, sum, times, yields, Estimate, Op, HUNDRED_EPSILON_BITS,
};
use crate::double::Double;
use crate::parameters::{rejection_with_points, validate_with_points, FirstEstimate};
use crate::qags::{run_to_end, ExtrapolatedRun, POSITIVITY_BITS};
use crate::table::TableView;
use crate::status::Status;
use crate::table::ExtrapolationTable;
use crate::partition::{lemma_append_partitions, lemma_partitions_by_slots, lemma_single_interval_partitions};
use crate::ordering::selection_sorted;
use crate::workspace::{IntegrationWorkspace, Subinterval, WorkspaceView};

verus! {

/// One of the ranges that a run is seeded with, and the estimates over it.
#[derive(Clone, Copy, Debug)]
pub struct Piece {
    pub a: Double,
    pub b: Double,
    /// Estimate of the integral over the range.
    pub result: Double,
    /// Estimate of its absolute error.
    pub error: Double,
    /// Estimate of the integral of the distance of the integrand from its mean.
    pub resasc: Double,
}

impl Piece {
    /// The error estimate equals `resasc` and is not zero: it says nothing of
    /// how the integrand behaves over the range.
    pub open spec fn unreliable(self) -> bool {
        self.error.eq_spec(self.resasc) && self.error.ne_spec(Double { bits: 0 })
    }

    /// The subinterval that the workspace holds for the range: an unreliable
    /// error estimate is replaced by `abserr0`, the error of all ranges together.
    pub open spec fn stored(self, abserr0: Double) -> Subinterval {
        Subinterval {
            a: self.a,
            b: self.b,
            result: self.result,
            error: if self.unreliable() {
                abserr0
            } else {
                self.error
            },
            level: 0,
        }
    }

    pub fn is_unreliable(&self) -> (r: bool)
        ensures
            r == self.unreliable(),
    {
        self.error.eq(self.resasc) && self.error.ne(Double { bits: 0 })
    }
}

/// Each range ends where the next one starts.
pub open spec fn chained(pieces: Seq<Piece>) -> bool {
    forall|i: int| 0 <= i < pieces.len() - 1 ==> (#[trigger] pieces[i]).b == pieces[i + 1].a
}

/// The storage of a workspace with the ranges `pieces` in its first slots, each
/// as the workspace holds it.
pub open spec fn seeded_slots(slots: Seq<Subinterval>, pieces: Seq<Piece>, abserr0: Double) -> Seq<Subinterval> {
    Seq::new(
        slots.len(),
        |k: int|
            if k < pieces.len() {
                pieces[k].stored(abserr0)
            } else {
                slots[k]
            },
    )
}

/// The workspace `w` seeded with the ranges `pieces`: they are its active
/// subintervals, in their order and at level 0, and the priority list is sorted
/// by their errors from the list that names them in their order.
pub open spec fn seeded(w: WorkspaceView, pieces: Seq<Piece>, abserr0: Double) -> WorkspaceView {
    let slots = seeded_slots(w.slots, pieces, abserr0);
    let order = selection_sorted(
        slots,
        Seq::new(
            w.limit,
            |k: int|
                if k < pieces.len() {
                    k as usize
                } else {
                    w.order[k]
                },
        ),
        0,
        pieces.len() as int,
    );
    WorkspaceView {
        limit: w.limit,
        size: pieces.len(),
        nrmax: 0,
        current: order[0] as nat,
        maximum_level: 0,
        slots,
        order,
    }
}

/// The estimates `es` are what the rule gives over the ranges between the
/// points `pts`, in their order.
pub open spec fn asked<R: Fn(Double, Double) -> Estimate>(rule: R, pts: Seq<Double>, es: Seq<Estimate>) -> bool {
    &&& es.len() == pts.len() - 1
    &&& forall|k: int| 0 <= k < es.len() ==> call_ensures(rule, (pts[k], pts[k + 1]), #[trigger] es[k])
}

/// The ranges between the points `pts` with the estimates `es` over them.
pub open spec fn pieces_of(pts: Seq<Double>, es: Seq<Estimate>) -> Seq<Piece> {
    Seq::new(
        es.len(),
        |k: int|
            Piece { a: pts[k], b: pts[k + 1], result: es[k].result, error: es[k].abserr, resasc: es[k].resasc },
    )
}

/// `whole` adds up the estimates `es`: its result, its error and its integral
/// of the magnitude are the sums of theirs, and it has no `resasc`.
pub open spec fn adds_up<A: Fn(Op, Double, Double) -> Double>(arithmetic: A, es: Seq<Estimate>, whole: Estimate) -> bool {
    &&& is_sum(arithmetic, Seq::new(es.len(), |k: int| es[k].result), whole.result)
    &&& is_sum(arithmetic, Seq::new(es.len(), |k: int| es[k].abserr), whole.abserr)
    &&& is_sum(arithmetic, Seq::new(es.len(), |k: int| es[k].resabs), whole.resabs)
    &&& whole.resasc.bits == 0
}

/// A run seeded with the ranges between the points `pts` has been started on
/// the workspace `w` and has run to its end: the workspace was seeded with the
/// ranges and the estimates `es` over them, the run started from the sum of the
/// errors of the ranges as the workspace holds them, and ran round by round.
pub open spec fn seeded_run<R: Fn(Double, Double) -> Estimate, A: Fn(Op, Double, Double) -> Double>(
    rule: R,
    arithmetic: A,
    w: WorkspaceView,
    pts: Seq<Double>,
    es: Seq<Estimate>,
    whole: Estimate,
    first: FirstEstimate,
    epsabs: Double,
    epsrel: Double,
    limit: usize,
    after: WorkspaceView,
    result: Double,
    abserr: Double,
    status: Status,
) -> bool {
    let begun = seeded(w, pieces_of(pts, es), whole.abserr);
    exists|errsum: Double, floor: Double|
        #[trigger] is_sum(arithmetic, begun.active_errors(), errsum) && #[trigger] yields(
            arithmetic,
            Op::Mul,
            Double { bits: POSITIVITY_BITS },
            whole.resabs,
            floor,
        ) && ExtrapolatedRun::started_seeded(epsabs, limit, es.len() as usize, first, errsum, floor).ran(
            rule,
            arithmetic,
            begun,
            TableView::holding(first.result),
            epsrel,
            whole.resabs,
            after,
            result,
            abserr,
            status,
        )
}

/// Makes the ranges `pieces` the active subintervals of the workspace, in
/// their order and at level 0, and sorts the priority list by their errors.
/// `abserr0` stands in for the error of each range whose own estimate is
/// unreliable.
#[verifier::spinoff_prover]
pub fn seed(ws: &mut IntegrationWorkspace, pieces: &Vec<Piece>, abserr0: Double)
    requires
        1 <= pieces@.len() <= old(ws)@.limit,
    ensures
        final(ws)@ == seeded(old(ws)@, pieces@, abserr0),
        final(ws)@.wf(),
        final(ws)@.is_permutation(),
        final(ws)@.cursor_valid(),
        final(ws)@.limit == old(ws)@.limit,
        final(ws)@.size == pieces@.len(),
        final(ws)@.nrmax == 0,
        final(ws)@.maximum_level == 0,
        final(ws)@.current == final(ws)@.order[0],
        forall|i: int| 0 <= i < pieces@.len() ==> #[trigger] final(ws)@.slots[i] == pieces@[i].stored(abserr0),
        forall|i: int| pieces@.len() <= i < old(ws)@.limit ==> #[trigger] final(ws)@.slots[i] == old(ws)@.slots[i],
        forall|i: int| pieces@.len() <= i < old(ws)@.limit ==> #[trigger] final(ws)@.order[i] == old(ws)@.order[i],
        final(ws)@.order == selection_sorted(
            final(ws)@.slots,
            Seq::new(
                old(ws)@.limit,
                |k: int|
                    if k < pieces@.len() {
                        k as usize
                    } else {
                        old(ws)@.order[k]
                    },
            ),
            0,
            pieces@.len() as int,
        ),
        final(ws)@.errors_ordered() ==> final(ws)@.descending(final(ws)@.size as int),
        final(ws)@.errors_are_numbers() ==> final(ws)@.ranked(),
        chained(pieces@) ==> final(ws)@.partitions(pieces@[0].a, pieces@[pieces@.len() - 1].b),
{
    proof {
        use_type_invariant(&*ws);
    }
    let ghost before = ws@;
    let zero = Double { bits: 0 };
    ws.initialise(zero, zero);
    let n: usize = pieces.len();
    let mut i: usize = 0;
    while i < n
        invariant
            i <= n == pieces@.len(),
            1 <= n <= before.limit,
            ws@.wf(),
            ws@.is_permutation(),
            ws@.limit == before.limit,
            ws@.size == i,
            ws@.nrmax == 0,
            ws@.maximum_level == 0,
            forall|k: int| 0 <= k < i ==> #[trigger] ws@.slots[k] == pieces@[k].stored(abserr0),
            forall|k: int| n <= k < before.limit ==> #[trigger] ws@.slots[k] == before.slots[k],
            forall|k: int| n <= k < before.limit ==> #[trigger] ws@.order[k] == before.order[k],
            forall|k: int| 0 <= k < i ==> #[trigger] ws@.order[k] == k,
            chained(pieces@) && i > 0 ==> ws@.partitions(pieces@[0].a, pieces@[i - 1].b),
        decreases n - i,
    {
        let piece: Piece = pieces[i];
        let error: Double = if piece.is_unreliable() {
            abserr0
        } else {
            piece.error
        };
        let ghost filled = ws@;
        ws.append_interval(piece.a, piece.b, piece.result, error);
        proof {
            if chained(pieces@) {
                if i == 0 {
                    lemma_single_interval_partitions(ws@);
                } else {
                    assert(pieces@[i - 1].b == pieces@[i as int].a);
                    lemma_append_partitions(
                        filled,
                        pieces@[0].a,
                        pieces@[i - 1].b,
                        piece.b,
                        piece.result,
                        error,
                    );
                }
            }
        }
        i += 1;
    }
    let ghost filled = ws@;
    assert(filled.errors_are_numbers() <== (forall|k: int|
        0 <= k < n ==> !(#[trigger] pieces@[k]).stored(abserr0).error.is_nan())) by {
        if forall|k: int| 0 <= k < n ==> !(#[trigger] pieces@[k]).stored(abserr0).error.is_nan() {
            assert forall|k: int| 0 <= k < n implies !(#[trigger] filled.slots[k]).error.is_nan() by {
                assert(!pieces@[k].stored(abserr0).error.is_nan());
            }
        }
    }
    assert(filled.order =~= Seq::new(
        before.limit,
        |k: int|
            if k < n {
                k as usize
            } else {
                before.order[k]
            },
    ));
    ws.sort_results();
    proof {
        if chained(pieces@) {
            lemma_partitions_by_slots(filled, ws@, pieces@[0].a, pieces@[n - 1].b);
        }
        assert(ws@.slots == filled.slots);
        assert(ws@.slots =~= seeded_slots(before.slots, pieces@, abserr0));
        assert(filled.errors_ordered() <== ws@.errors_ordered()) by {
            if ws@.errors_ordered() {
                assert forall|k: int| 0 <= k < n implies !(#[trigger] filled.error_at(k)).is_nan() by {
                    crate::ordering::lemma_permutation_names_every_slot(ws@, k);
                    let j = choose|j: int| 0 <= j < ws@.size && ws@.order[j] == k;
                    assert(ws@.error_at(j) == filled.error_at(k));
                }
            }
        }
    }
}

/// An integration from the ranges between the points `pts`, within `limit`
/// subintervals, entered with the workspace `before`, has left the workspace
/// `after` and returned `result`, `abserr` and `status`.
///
/// The rule has given the estimates `es` over the ranges, `whole` adds them up,
/// and `first` is made of `whole` with a hundred times the machine epsilon as
/// the level of round-off. Where the run ends on that estimate, the status is
/// its verdict, the result and the error are those of `whole`, and the
/// workspace is the one seeded with the ranges. Otherwise the workspace holds
/// at least as many subintervals as there are points, and the seeded run has
/// run to its end.
pub open spec fn integrated_from_points<R: Fn(Double, Double) -> Estimate, A: Fn(Op, Double, Double) -> Double>(
    rule: R,
    arithmetic: A,
    before: WorkspaceView,
    pts: Seq<Double>,
    epsabs: Double,
    epsrel: Double,
    limit: usize,
    after: WorkspaceView,
    result: Double,
    abserr: Double,
    status: Status,
) -> bool {
    exists|es: Seq<Estimate>, whole: Estimate, first: FirstEstimate|
        #[trigger] asked(rule, pts, es) && #[trigger] adds_up(arithmetic, es, whole) && #[trigger] first.made_of(
            arithmetic,
            whole,
            epsrel,
            Double { bits: HUNDRED_EPSILON_BITS },
        ) && match first.verdict(epsabs, limit as int, false) {
            Some(s) => status == s && result == whole.result && abserr == whole.abserr && after == seeded(
                before,
                pieces_of(pts, es),
                whole.abserr,
            ),
            None => after.size >= pts.len() && seeded_run(
                rule,
                arithmetic,
                before,
                pts,
                es,
                whole,
                first,
                epsabs,
                epsrel,
                limit,
                after,
                result,
                abserr,
                status,
            ),
        }
}

impl IntegrationWorkspace {
    /// Integrates over the range from the first to the last of the points
    /// `pts` by adaptive bisection with extrapolation, starting from the ranges
    /// between the points: the places where the integrand is known to be
    /// singular. The points ascend. The result and its error estimate go to
    /// `result` and `abserr`.
    ///
    /// The parameters are checked before anything else; if they are rejected,
    /// the rule is not asked, the workspace stays as it is, and result and error
    /// are zero. Otherwise the run starts from the estimates of the rule over
    /// each of the ranges; if it goes on to bisect, result, error and status are
    /// those with which the run ends. Throughout, the subintervals tile the
    /// range.
    pub fn qagp<R: Fn(Double, Double) -> Estimate, A: Fn(Op, Double, Double) -> Double>(
        &mut self,
        rule: &R,
        arithmetic: &A,
        pts: &Vec<Double>,
        epsabs: Double,
        epsrel: Double,
        limit: usize,
        result: &mut Double,
        abserr: &mut Double,
    ) -> (status: Status)
        requires
            estimates(*rule),
            computes(*arithmetic),
            1 <= limit,
            2 <= pts@.len(),
        ensures
            final(self)@.limit == old(self)@.limit,
            rejection_with_points(old(self)@.limit as int, limit as int, pts@, epsabs, epsrel) matches Some(s)
                ==> {
                &&& status == s
                &&& final(result).bits == 0
                &&& final(abserr).bits == 0
                &&& final(self)@ == old(self)@
            },
            rejection_with_points(old(self)@.limit as int, limit as int, pts@, epsabs, epsrel) is None ==> {
                &&& final(self)@.wf()
                &&& pts@.len() - 1 <= final(self)@.size <= final(self)@.limit
                &&& final(self)@.size <= limit || final(self)@.size <= pts@.len()
                &&& final(self)@.partitions(pts@[0], pts@[pts@.len() - 1])
                &&& forall|k: int| 0 <= k < pts@.len() ==> final(self)@.has_bound(#[trigger] pts@[k])
                &&& final(self)@.is_permutation()
                &&& status != Status::InvalidParameter && status != Status::ToleranceUnreachable
                &&& integrated_from_points(
                    *rule,
                    *arithmetic,
                    old(self)@,
                    pts@,
                    epsabs,
                    epsrel,
                    limit,
                    final(self)@,
                    *final(result),
                    *final(abserr),
                    status,
                )
            },
    {
        proof {
            use_type_invariant(&*self);
        }
        let zero = Double { bits: 0 };
        *result = zero;
        *abserr = zero;
        match validate_with_points(self.limit(), limit, pts, epsabs, epsrel) {
            Some(s) => {
                return s;
            },
            None => {},
        }
        let nint: usize = pts.len() - 1;
        let ghost before = self@;
        let ghost mut es: Seq<Estimate> = Seq::empty();
        let mut results: Vec<Double> = Vec::new();
        let mut errors: Vec<Double> = Vec::new();
        let mut magnitudes: Vec<Double> = Vec::new();
        let mut pieces: Vec<Piece> = Vec::new();
        let mut i: usize = 0;
        while i < nint
            invariant
                estimates(*rule),
                nint + 1 == pts@.len(),
                i <= nint,
                es.len() == i,
                pieces@.len() == i,
                results@.len() == i,
                errors@.len() == i,
                magnitudes@.len() == i,
                forall|k: int| 0 <= k < i ==> call_ensures(*rule, (pts@[k], pts@[k + 1]), #[trigger] es[k]),
                forall|k: int| 0 <= k < i ==> #[trigger] results@[k] == es[k].result,
                forall|k: int| 0 <= k < i ==> #[trigger] errors@[k] == es[k].abserr,
                forall|k: int| 0 <= k < i ==> #[trigger] magnitudes@[k] == es[k].resabs,
                forall|k: int|
                    0 <= k < i ==> #[trigger] pieces@[k] == (Piece {
                        a: pts@[k],
                        b: pts@[k + 1],
                        result: es[k].result,
                        error: es[k].abserr,
                        resasc: es[k].resasc,
                    }),
            decreases nint - i,
        {
            let e = rule(pts[i], pts[i + 1]);
            proof {
                es = es.push(e);
            }
            results.push(e.result);
            errors.push(e.abserr);
            magnitudes.push(e.resabs);
            pieces.push(Piece { a: pts[i], b: pts[i + 1], result: e.result, error: e.abserr, resasc: e.resasc });
            i += 1;
        }
        let result0 = sum(arithmetic, &results);
        let abserr0 = sum(arithmetic, &errors);
        let resabs0 = sum(arithmetic, &magnitudes);
        let whole = Estimate { result: result0, abserr: abserr0, resabs: resabs0, resasc: zero };
        proof {
            assert(results@ =~= Seq::new(es.len(), |k: int| es[k].result));
            assert(errors@ =~= Seq::new(es.len(), |k: int| es[k].abserr));
            assert(magnitudes@ =~= Seq::new(es.len(), |k: int| es[k].resabs));
            assert(pieces@ =~= pieces_of(pts@, es));
            assert(asked(*rule, pts@, es));
            assert(adds_up(*arithmetic, es, whole));
            assert(chained(pieces@));
        }
        seed(self, &pieces, abserr0);
        let ghost begun = self@;
        assert forall|k: int| 0 <= k < pts@.len() implies begun.has_bound(#[trigger] pts@[k]) by {
            if k < nint {
                assert(begun.slots[k].a == pts@[k]);
            } else {
                assert(begun.slots[k - 1].b == pts@[k]);
            }
        }

        let mut stored: Vec<Double> = Vec::new();
        let mut k: usize = 0;
        while k < nint
            invariant
                k <= nint,
                nint == self@.size,
                self@ == begun,
                begun.wf(),
                stored@.len() == k,
                forall|j: int| 0 <= j < k ==> #[trigger] stored@[j] == begun.slots[j].error,
            decreases nint - k,
        {
            stored.push(self.interval(k).error);
            k += 1;
        }
        let errsum = sum(arithmetic, &stored);
        assert(stored@ =~= begun.active_errors());

        let first = FirstEstimate::of(arithmetic, &whole, epsrel, Double { bits: HUNDRED_EPSILON_BITS });
        match first.test(epsabs, limit, false) {
            Some(s) => {
                *result = result0;
                *abserr = abserr0;
                assert(integrated_from_points(
                    *rule,
                    *arithmetic,
                    before,
                    pts@,
                    epsabs,
                    epsrel,
                    limit,
                    self@,
                    *result,
                    *abserr,
                    s,
                ));
                return s;
            },
            None => {},
        }
        let mut table = ExtrapolationTable::new();
        let positivity_floor = times(arithmetic, Double { bits: POSITIVITY_BITS }, resabs0);
        let run = ExtrapolatedRun::start_seeded(
            epsabs,
            limit,
            nint,
            &first,
            errsum,
            positivity_floor,
            &mut table,
        );
        assert(table@.epstab =~= TableView::holding(first.result).epstab);
        assert(table@ == TableView::holding(first.result));
        let status = run_to_end(self, rule, arithmetic, run, table, epsrel, resabs0, result, abserr);
        assert(seeded_run(
            *rule,
            *arithmetic,
            before,
            pts@,
            es,
            whole,
            first,
            epsabs,
            epsrel,
            limit,
            self@,
            *result,
            *abserr,
            status,
        ));
        assert(integrated_from_points(
            *rule,
            *arithmetic,
            before,
            pts@,
            epsabs,
            epsrel,
            limit,
            self@,
            *result,
            *abserr,
            status,
        ));
        status
    }
}

} // verus!
