//! The subinterval workspace: a fixed-capacity arena of subintervals and a
//! priority ordering over them.

use vstd::prelude::*;
use crate::arithmetic::{computes, is_sum, sum, Op};
use crate::double::Double;
use crate::ordering::{
    demote_stop, exchanged, largest_from, lemma_reordered_wf, lemma_swap_rearranges,
    lemma_update_sorted, promote_stop, scan_stop, selection_sorted, shifted_down, shifted_up, slid,
    slide_stop,
};
use crate::largest::{lemma_sorted_permutation_leads, lemma_update_in_order, lemma_update_ranked};
use crate::partition::lemma_bisection_partitions;

verus! {

/// One piece of the partition of the integration range.
#[derive(Clone, Copy, Debug)]
pub struct Subinterval {
    /// Lower bound.
    pub a: Double,
    /// Upper bound.
    pub b: Double,
    /// Local estimate of the integral.
    pub result: Double,
    /// Local estimate of the absolute error.
    pub error: Double,
    /// Number of bisections that produced this piece.
    pub level: usize,
}

/// The mathematical content of an [`IntegrationWorkspace`].
///
/// `slots` and `order` always have `limit` entries; the first `size` slots are
/// the active subintervals. Entries beyond the active ones are storage that is
/// kept as it was last written.
pub struct WorkspaceView {
    /// Capacity: the largest number of subintervals the workspace can hold.
    pub limit: nat,
    /// Number of active subintervals.
    pub size: nat,
    /// Cursor into `order`.
    pub nrmax: nat,
    /// Slot of the subinterval that `retrieve` hands out.
    pub current: nat,
    /// Deepest bisection level among the active subintervals.
    pub maximum_level: nat,
    pub slots: Seq<Subinterval>,
    pub order: Seq<usize>,
}

/// How many leading entries of `order` are kept in order of decreasing error
/// for `size` active subintervals in a workspace of capacity `limit`.
///
/// While more than about half of the capacity is free every entry is kept so.
/// After that only as many entries are as bisections can still take place, plus
/// three; the entries after them are in no particular order.
pub open spec fn kept(size: int, limit: int) -> int {
    if size < limit / 2 + 3 {
        size
    } else {
        limit - size + 3
    }
}

impl WorkspaceView {
    /// The sizes of the storage agree with the capacity, and every index held
    /// anywhere names a slot.
    pub open spec fn allocated(self) -> bool {
        &&& 1 <= self.limit <= usize::MAX
        &&& self.slots.len() == self.limit
        &&& self.order.len() == self.limit
        &&& self.size <= self.limit
        &&& self.nrmax <= self.limit
        &&& self.current < self.limit
        &&& forall|k: int| 0 <= k < self.limit ==> #[trigger] self.order[k] < self.limit
    }

    /// The first `n` entries of `order` are pairwise different slots below `bound`.
    pub open spec fn distinct_prefix(self, n: int, bound: int) -> bool {
        &&& forall|k: int| 0 <= k < n ==> #[trigger] self.order[k] < bound
        &&& forall|j: int, k: int| 0 <= j < k < n ==> self.order[j] != self.order[k]
    }

    /// `order[0..size)` is a permutation of `0..size`.
    pub open spec fn is_permutation(self) -> bool {
        self.distinct_prefix(self.size as int, self.size as int)
    }

    /// The invariant of the workspace.
    pub open spec fn wf(self) -> bool {
        &&& self.allocated()
        &&& self.size == 0 ==> {
            &&& self.current == 0
            &&& self.order[0] == 0
            &&& self.maximum_level == 0
            &&& self.slots[0].level == 0
        }
        &&& self.size > 0 ==> self.current < self.size && self.maximum_level < self.size
        &&& forall|k: int| 0 <= k < self.size ==> (#[trigger] self.slots[k]).level <= self.maximum_level
        &&& self.is_permutation()
    }

    /// The cursor names one of the entries of `order` that are kept in order.
    pub open spec fn cursor_valid(self) -> bool {
        self.nrmax < kept(self.size as int, self.limit as int)
    }

    /// The workspace right after construction or `initialise(a, b)`.
    pub open spec fn fresh(limit: nat, a: Double, b: Double, slots: Seq<Subinterval>, order: Seq<usize>) -> WorkspaceView {
        WorkspaceView {
            limit,
            size: 0,
            nrmax: 0,
            current: 0,
            maximum_level: 0,
            slots: slots.update(
                0,
                Subinterval { a, b, result: Double { bits: 0 }, error: Double { bits: 0 }, level: 0 },
            ),
            order: order.update(0, 0usize),
        }
    }

    /// The state after the first estimate has been recorded: subinterval 0 has
    /// the result and the error, and is the one active subinterval.
    pub open spec fn first_set(self, result: Double, error: Double) -> WorkspaceView {
        WorkspaceView {
            size: 1,
            slots: self.slots.update(0, Subinterval { result, error, ..self.slots[0] }),
            ..self
        }
    }

    /// The workspace with the single subinterval `[a, b]` and its first
    /// estimate, made of storage of capacity `limit`.
    pub open spec fn opened(
        limit: nat,
        a: Double,
        b: Double,
        result: Double,
        error: Double,
        slots: Seq<Subinterval>,
        order: Seq<usize>,
    ) -> WorkspaceView {
        Self::fresh(limit, a, b, slots, order).first_set(result, error)
    }

    /// The state after the two halves of the current subinterval have been
    /// stored, before the priority list is restored.
    pub open spec fn bisected(
        self,
        a1: Double,
        b1: Double,
        area1: Double,
        error1: Double,
        a2: Double,
        b2: Double,
        area2: Double,
        error2: Double,
    ) -> WorkspaceView {
        let parent = self.slots[self.current as int];
        let level = (parent.level + 1) as usize;
        let first = Subinterval { a: a1, b: b1, result: area1, error: error1, level };
        let second = Subinterval { a: a2, b: b2, result: area2, error: error2, level };
        let slots = if error2.gt_spec(error1) {
            self.slots.update(self.current as int, Subinterval { b: parent.b, ..second }).update(
                self.size as int,
                first,
            )
        } else {
            self.slots.update(self.current as int, Subinterval { a: parent.a, ..first }).update(
                self.size as int,
                second,
            )
        };
        WorkspaceView {
            size: self.size + 1,
            maximum_level: if level > self.maximum_level {
                level as nat
            } else {
                self.maximum_level
            },
            slots,
            ..self
        }
    }

    /// The results of the active subintervals, in the order of their slots.
    pub open spec fn active_results(self) -> Seq<Double> {
        Seq::new(self.size, |k: int| self.slots[k].result)
    }

    /// The errors of the active subintervals, in the order of their slots.
    pub open spec fn active_errors(self) -> Seq<Double> {
        Seq::new(self.size, |k: int| self.slots[k].error)
    }

    /// The active part of the priority list.
    pub open spec fn active_order(self) -> Seq<usize> {
        self.order.subrange(0, self.size as int)
    }

    /// None of the error estimates that the active part of the list names is a NaN.
    pub open spec fn errors_ordered(self) -> bool {
        forall|k: int| 0 <= k < self.size ==> !(#[trigger] self.error_at(k)).is_nan()
    }

    /// The errors named by the first `n` entries of the list do not increase.
    pub open spec fn descending(self, n: int) -> bool {
        forall|j: int, k: int| 0 <= j < k < n ==> self.error_at(j).ge_spec(self.error_at(k))
    }

    /// The state after one more subinterval has been appended as it is, at
    /// level 0 and last in the list.
    pub open spec fn appended(self, a: Double, b: Double, result: Double, error: Double) -> WorkspaceView {
        WorkspaceView {
            size: self.size + 1,
            slots: self.slots.update(self.size as int, Subinterval { a, b, result, error, level: 0 }),
            order: self.order.update(self.size as int, self.size as usize),
            ..self
        }
    }

    /// The error estimate of the subinterval that `order[k]` names.
    pub open spec fn error_at(self, k: int) -> Double {
        self.slots[self.order[k] as int].error
    }
}

/// Stores `value` at position `k` of the list.
fn put(order: &mut Vec<usize>, k: usize, value: usize)
    requires
        k < old(order)@.len(),
    ensures
        final(order)@ == old(order)@.update(k as int, value),
    no_unwind
{
    order[k] = value;
}

/// A capacity-bounded collection of subintervals with a priority ordering.
pub struct IntegrationWorkspace {
    limit: usize,
    size: usize,
    nrmax: usize,
    current: usize,
    maximum_level: usize,
    slots: Vec<Subinterval>,
    order: Vec<usize>,
}

impl View for IntegrationWorkspace {
    type V = WorkspaceView;

    closed spec fn view(&self) -> WorkspaceView {
        WorkspaceView {
            limit: self.limit as nat,
            size: self.size as nat,
            nrmax: self.nrmax as nat,
            current: self.current as nat,
            maximum_level: self.maximum_level as nat,
            slots: self.slots@,
            order: self.order@,
        }
    }
}

impl IntegrationWorkspace {
    #[verifier::type_invariant]
    pub(crate) open spec fn well_allocated(self) -> bool {
        self@.allocated()
    }

    /// Allocates a workspace that can hold `n` subintervals. There is no
    /// workspace of capacity zero, nor one whose capacity the machine cannot
    /// address.
    pub fn new(n: u64) -> (r: Option<IntegrationWorkspace>)
        ensures
            r is Some <==> 1 <= n <= usize::MAX,
            r matches Some(w) ==> {
                &&& w@.wf()
                &&& w@.limit == n
                &&& w@.size == 0
                &&& w@.nrmax == 0
                &&& w@.current == 0
                &&& w@.maximum_level == 0
                &&& forall|k: int| 0 <= k < n ==> #[trigger] w@.order[k] == 0
                &&& forall|k: int|
                    0 <= k < n ==> #[trigger] w@.slots[k] == (Subinterval {
                        a: Double { bits: 0 },
                        b: Double { bits: 0 },
                        result: Double { bits: 0 },
                        error: Double { bits: 0 },
                        level: 0,
                    })
            },
    {
        if n == 0 || n > usize::MAX as u64 {
            return None;
        }
        let limit: usize = n as usize;
        let zero = Double { bits: 0 };
        let blank = Subinterval { a: zero, b: zero, result: zero, error: zero, level: 0 };
        let mut slots: Vec<Subinterval> = Vec::new();
        let mut order: Vec<usize> = Vec::new();
        let mut k: usize = 0;
        while k < limit
            invariant
                k <= limit,
                slots@.len() == k,
                order@.len() == k,
                forall|t: int| 0 <= t < k ==> #[trigger] order@[t] == 0,
                forall|t: int| 0 <= t < k ==> #[trigger] slots@[t] == blank,
            decreases limit - k,
        {
            slots.push(blank);
            order.push(0);
            k += 1;
        }
        Some(IntegrationWorkspace { limit, size: 0, nrmax: 0, current: 0, maximum_level: 0, slots, order })
    }

    pub fn limit(&self) -> (r: usize)
        ensures
            r == self@.limit,
    {
        self.limit
    }

    pub fn size(&self) -> (r: usize)
        ensures
            r == self@.size,
    {
        self.size
    }

    pub fn nrmax(&self) -> (r: usize)
        ensures
            r == self@.nrmax,
    {
        self.nrmax
    }

    /// The slot of the subinterval that `retrieve` hands out.
    pub fn current(&self) -> (r: usize)
        ensures
            r == self@.current,
    {
        self.current
    }

    pub fn maximum_level(&self) -> (r: usize)
        ensures
            r == self@.maximum_level,
    {
        self.maximum_level
    }

    /// Resets the workspace to the single subinterval `[a, b]` with zero result
    /// and error. The subinterval counts as active once its first result is set.
    pub fn initialise(&mut self, a: Double, b: Double)
        ensures
            final(self)@ == WorkspaceView::fresh(old(self)@.limit, a, b, old(self)@.slots, old(self)@.order),
            final(self)@.wf(),
            final(self)@.slots[0] == (Subinterval {
                a,
                b,
                result: Double { bits: 0 },
                error: Double { bits: 0 },
                level: 0,
            }),
            final(self)@.order[0] == 0,
            final(self)@.size == 0,
            final(self)@.nrmax == 0,
            final(self)@.limit == old(self)@.limit,
    {
        proof {
            use_type_invariant(&*self);
        }
        let zero = Double { bits: 0 };
        self.size = 0;
        self.nrmax = 0;
        self.current = 0;
        self.slots[0] = Subinterval { a, b, result: zero, error: zero, level: 0 };
        put(&mut self.order, 0, 0);
        self.maximum_level = 0;
    }

    /// Records the first estimate as the result and error of subinterval 0, which
    /// becomes the one active subinterval.
    pub fn set_initial_result(&mut self, result: Double, error: Double)
        requires
            old(self)@.wf(),
            old(self)@.size <= 1,
        ensures
            final(self)@ == old(self)@.first_set(result, error),
            final(self)@.wf(),
            final(self)@.is_permutation(),
            final(self)@.slots[0] == (Subinterval { result, error, ..old(self)@.slots[0] }),
            old(self)@.nrmax == 0 && !error.is_nan() ==> final(self)@.ranked(),
    {
        self.size = 1;
        let s = self.slots[0];
        self.slots[0] = Subinterval { a: s.a, b: s.b, result, error, level: s.level };
        proof {
            if old(self)@.nrmax == 0 && !error.is_nan() {
                lemma_sorted_permutation_leads(self@);
            }
        }
    }

    /// Hands out the bounds, result and error of the current subinterval.
    pub fn retrieve(&self, a: &mut Double, b: &mut Double, r: &mut Double, e: &mut Double)
        ensures
            *final(a) == self@.slots[self@.current as int].a,
            *final(b) == self@.slots[self@.current as int].b,
            *final(r) == self@.slots[self@.current as int].result,
            *final(e) == self@.slots[self@.current as int].error,
    {
        proof {
            use_type_invariant(self);
        }
        let s = self.slots[self.current];
        *a = s.a;
        *b = s.b;
        *r = s.result;
        *e = s.error;
    }

    /// The results of the active subintervals, in the order of their slots.
    pub fn results(&self) -> (r: Vec<Double>)
        ensures
            r@.len() == self@.size,
            forall|k: int| 0 <= k < self@.size ==> #[trigger] r@[k] == self@.slots[k].result,
    {
        proof {
            use_type_invariant(self);
        }
        let mut r: Vec<Double> = Vec::new();
        let mut k: usize = 0;
        while k < self.size
            invariant
                self@.allocated(),
                k <= self.size,
                r@.len() == k,
                forall|t: int| 0 <= t < k ==> #[trigger] r@[t] == self@.slots[t].result,
            decreases self.size - k,
        {
            r.push(self.slots[k].result);
            k += 1;
        }
        r
    }

    /// The sum of the results of the active subintervals, added up in the
    /// order of their slots.
    pub fn sum_results<A: Fn(Op, Double, Double) -> Double>(&self, arithmetic: &A) -> (r: Double)
        requires
            computes(*arithmetic),
        ensures
            is_sum(*arithmetic, self@.active_results(), r),
    {
        let results = self.results();
        assert(results@ =~= self@.active_results());
        sum(arithmetic, &results)
    }

    /// Restores the priority list after a subinterval has been added in the
    /// newest slot: the bisected subinterval moves to its place among the kept
    /// entries, and the newest one is inserted from below.
    pub fn qpsrt(&mut self)
        requires
            old(self)@.pending(),
        ensures
            final(self)@ == old(self)@.reordered(),
            final(self)@.wf(),
            final(self)@.is_permutation(),
            final(self)@.cursor_valid() || old(self)@.nrmax > final(self)@.top(),
            final(self)@.current == final(self)@.order[final(self)@.nrmax as int],
            final(self)@.nrmax <= old(self)@.nrmax,
    {
        let ghost before = self@;
        let ghost o = self.order@;
        let ghost slots = self.slots@;
        proof {
            lemma_reordered_wf(before);
        }
        let last: usize = self.size - 1;
        let limit: usize = self.limit;
        let n: usize = self.nrmax;
        let mut i_nrmax: usize = n;
        let i_maxerr: usize = self.order[i_nrmax];

        if last < 2 {
            put(&mut self.order, 0, 0);
            put(&mut self.order, 1, 1);
            self.current = i_maxerr;
            return ;
        }
        let errmax: Double = self.slots[i_maxerr].error;

        while i_nrmax > 0 && errmax.gt(self.slots[self.order[i_nrmax - 1]].error)
            invariant
                before.pending(),
                self@.allocated(),
                i_nrmax <= n < limit,
                self.slots@ == slots,
                self.order@ == slid(o, i_nrmax as int, n as int),
                slide_stop(slots, o, errmax, i_nrmax as int) == slide_stop(slots, o, errmax, n as int),
                self@ == (WorkspaceView { order: self.order@, ..before }),
                o == before.order,
                slots == before.slots,
                limit == before.limit,
            decreases i_nrmax,
        {
            let above: usize = self.order[i_nrmax - 1];
            put(&mut self.order, i_nrmax, above);
            i_nrmax -= 1;
            assert(self.order@ =~= slid(o, i_nrmax as int, n as int));
        }
        let ghost j = i_nrmax as int;
        let ghost o1 = self.order@;

        let top: usize = if last < limit / 2 + 2 {
            last
        } else {
            limit - last + 1
        };
        assert(top == before.top());

        let mut i: usize = i_nrmax + 1;
        while i < top && errmax.lt(self.slots[self.order[i]].error)
            invariant
                before.pending(),
                self@.allocated(),
                0 <= j,
                j + 1 <= i,
                i <= top || i == j + 1,
                j <= n < limit,
                top <= last < limit,
                self.slots@ == slots,
                self.order@ == shifted_up(o1, j, i as int),
                o1.len() == limit,
                forall|k: int| 0 <= k < limit ==> #[trigger] o1[k] < limit,
                promote_stop(slots, o1, errmax, top as int, i as int) == promote_stop(
                    slots,
                    o1,
                    errmax,
                    top as int,
                    j + 1,
                ),
                self@ == (WorkspaceView { order: self.order@, ..before }),
                slots == before.slots,
                limit == before.limit,
            decreases top - i,
        {
            let below: usize = self.order[i];
            put(&mut self.order, i - 1, below);
            i += 1;
            assert(self.order@ =~= shifted_up(o1, j, i as int));
        }
        put(&mut self.order, i - 1, i_maxerr);
        let ghost p = i as int;
        let ghost o2 = self.order@;
        let displaced: usize = self.order[top];

        let errmin: Double = self.slots[last].error;
        let mut q: usize = top;
        while q >= i && errmin.ge(self.slots[self.order[q - 1]].error)
            invariant
                before.pending(),
                self@.allocated(),
                1 <= i,
                p == i,
                q <= top <= last < limit,
                self.slots@ == slots,
                self.order@ == shifted_down(o2, q as int, top as int),
                o2.len() == limit,
                forall|k: int| 0 <= k < limit ==> #[trigger] o2[k] < limit,
                demote_stop(slots, o2, errmin, p - 1, q as int) == demote_stop(
                    slots,
                    o2,
                    errmin,
                    p - 1,
                    top as int,
                ),
                self@ == (WorkspaceView { order: self.order@, ..before }),
                slots == before.slots,
                limit == before.limit,
            decreases q,
        {
            let above: usize = self.order[q - 1];
            put(&mut self.order, q, above);
            q -= 1;
            assert(self.order@ =~= shifted_down(o2, q as int, top as int));
        }
        put(&mut self.order, q, last);
        if top < last {
            put(&mut self.order, last, displaced);
        }

        self.current = self.order[i_nrmax];
        self.nrmax = i_nrmax;
    }

    /// Replaces the current subinterval by its two halves `[a1, b1]` and
    /// `[a2, b2]`. The half with the larger error takes the slot of the parent and
    /// keeps the bound that it shares with it; the other one goes in the newest
    /// slot. Then the priority list is restored.
    pub fn update(
        &mut self,
        a1: Double,
        b1: Double,
        area1: Double,
        error1: Double,
        a2: Double,
        b2: Double,
        area2: Double,
        error2: Double,
    )
        requires
            old(self)@.wf(),
            old(self)@.nrmax < old(self)@.size,
            1 <= old(self)@.size < old(self)@.limit,
        ensures
            final(self)@ == old(self)@.bisected(a1, b1, area1, error1, a2, b2, area2, error2).reordered(),
            final(self)@.wf(),
            final(self)@.size == old(self)@.size + 1,
            final(self)@.limit == old(self)@.limit,
            final(self)@.size <= final(self)@.limit,
            final(self)@.cursor_valid() || old(self)@.nrmax > final(self)@.top(),
            final(self)@.current == final(self)@.order[final(self)@.nrmax as int],
            final(self)@.nrmax <= old(self)@.nrmax,
            final(self)@.is_permutation(),
            forall|lo: Double, hi: Double|
                old(self)@.partitions(lo, hi) && a1 == old(self)@.slots[old(self)@.current as int].a && b1
                    == a2 && b2 == old(self)@.slots[old(self)@.current as int].b
                    ==> #[trigger] final(self)@.partitions(lo, hi),
            old(self)@.sorted() && old(self)@.current == old(self)@.order[old(self)@.nrmax as int]
                && !error1.is_nan() && !error2.is_nan() && old(self)@.nrmax < final(self)@.top()
                ==> final(self)@.sorted(),
            old(self)@.ranked() && !error1.is_nan() && !error2.is_nan() ==> final(self)@.ranked(),
            old(self)@.in_order() && old(self)@.current == old(self)@.order[old(self)@.nrmax as int]
                && !error1.is_nan() && !error2.is_nan() && (final(self)@.size < final(self)@.limit / 2 + 3
                || old(self)@.nrmax == 0) ==> final(self)@.in_order(),
    {
        let ghost before = self@;
        let i_max: usize = self.current;
        let i_new: usize = self.size;
        let parent: Subinterval = self.slots[i_max];
        let new_level: usize = parent.level + 1;

        if error2.gt(error1) {
            self.slots[i_max] = Subinterval { a: a2, b: parent.b, result: area2, error: error2, level: new_level };
            self.slots[i_new] = Subinterval { a: a1, b: b1, result: area1, error: error1, level: new_level };
        } else {
            self.slots[i_max] = Subinterval { a: parent.a, b: b1, result: area1, error: error1, level: new_level };
            self.slots[i_new] = Subinterval { a: a2, b: b2, result: area2, error: error2, level: new_level };
        }
        self.size += 1;
        if new_level > self.maximum_level {
            self.maximum_level = new_level;
        }
        self.qpsrt();
        proof {
            assert forall|lo: Double, hi: Double|
                before.partitions(lo, hi) && a1 == before.slots[before.current as int].a && b1 == a2 && b2
                    == before.slots[before.current as int].b implies #[trigger] self@.partitions(lo, hi) by {
                lemma_bisection_partitions(before, lo, hi, a1, b1, area1, error1, a2, b2, area2, error2);
            }
            if before.sorted() && before.current == before.order[before.nrmax as int] && !error1.is_nan()
                && !error2.is_nan() && before.nrmax < kept(before.size as int + 1, before.limit as int) - 1 {
                lemma_update_sorted(before, a1, b1, area1, error1, a2, b2, area2, error2);
            }
            if before.ranked() && !error1.is_nan() && !error2.is_nan() {
                lemma_update_ranked(before, a1, b1, area1, error1, a2, b2, area2, error2);
            }
            if before.in_order() && before.current == before.order[before.nrmax as int] && !error1.is_nan()
                && !error2.is_nan() && (before.size + 1 < before.limit / 2 + 3 || before.nrmax == 0) {
                lemma_update_in_order(before, a1, b1, area1, error1, a2, b2, area2, error2);
            }
        }
    }

    /// Sorts the active part of the priority list from scratch, by decreasing
    /// error, and makes its first entry the current subinterval.
    pub fn sort_results(&mut self)
        ensures
            final(self)@ == (WorkspaceView {
                order: selection_sorted(old(self)@.slots, old(self)@.order, 0, old(self)@.size as int),
                current: final(self)@.order[0] as nat,
                ..old(self)@
            }),
            final(self)@.allocated(),
            final(self)@.active_order().to_multiset() == old(self)@.active_order().to_multiset(),
            forall|k: int| old(self)@.size <= k < old(self)@.limit ==> final(self)@.order[k] == old(self)@.order[k],
            old(self)@.errors_ordered() ==> final(self)@.descending(final(self)@.size as int),
            old(self)@.is_permutation() ==> final(self)@.is_permutation(),
            old(self)@.wf() ==> final(self)@.wf(),
            old(self)@.wf() && old(self)@.errors_are_numbers() && old(self)@.nrmax == 0 ==> final(self)@.ranked(),
    {
        proof {
            use_type_invariant(&*self);
        }
        let ghost before = self@;
        let nint: usize = self.size;
        let mut i: usize = 0;
        while i < nint
            invariant
                before.allocated(),
                i <= nint == before.size,
                self@ == (WorkspaceView { order: self.order@, ..before }),
                self@.allocated(),
                selection_sorted(before.slots, self.order@, i as int, nint as int) == selection_sorted(
                    before.slots,
                    before.order,
                    0,
                    nint as int,
                ),
                self@.active_order().to_multiset() == before.active_order().to_multiset(),
                forall|k: int| nint <= k < before.limit ==> self.order@[k] == before.order[k],
                before.errors_ordered() ==> self@.errors_ordered(),
                before.is_permutation() ==> self@.is_permutation(),
                before.errors_ordered() ==> forall|j: int, k: int|
                    0 <= j < i && j < k < nint ==> self@.error_at(j).ge_spec(self@.error_at(k)),
            decreases nint - i,
        {
            let mut j_max: usize = i;
            let mut e1: Double = self.slots[self.order[i]].error;
            let mut j: usize = i + 1;
            while j < nint
                invariant
                    self@.allocated(),
                    i <= j_max < j <= nint == self@.size,
                    e1 == self@.error_at(j_max as int),
                    largest_from(self@.slots, self@.order, j_max as int, j as int, nint as int)
                        == largest_from(self@.slots, self@.order, i as int, i + 1, nint as int),
                    self@.errors_ordered() ==> forall|k: int|
                        i <= k < j ==> e1.ge_spec(#[trigger] self@.error_at(k)),
                decreases nint - j,
            {
                let e2: Double = self.slots[self.order[j]].error;
                if e2.ge(e1) {
                    j_max = j;
                    e1 = e2;
                }
                j += 1;
            }
            let ghost unsorted = self@;
            assert(j_max == largest_from(unsorted.slots, unsorted.order, i as int, i + 1, nint as int));
            if j_max != i {
                let first: usize = self.order[i];
                let largest: usize = self.order[j_max];
                put(&mut self.order, i, largest);
                put(&mut self.order, j_max, first);
                proof {
                    lemma_swap_rearranges(unsorted.order, i as int, j_max as int, nint as int);
                    assert forall|k: int| 0 <= k < nint implies #[trigger] self@.error_at(k) == unsorted.error_at(
                        if k == i {
                            j_max as int
                        } else if k == j_max {
                            i as int
                        } else {
                            k
                        },
                    ) by {}
                }
            }
            assert(self.order@ =~= exchanged(unsorted.order, i as int, j_max as int));
            i += 1;
        }
        let ghost sorted = self@;
        self.current = self.order[0];
        proof {
            if before.errors_ordered() {
                assert forall|j: int, k: int| 0 <= j < k < nint implies self@.error_at(j).ge_spec(
                    self@.error_at(k),
                ) by {
                    assert(self@.error_at(j) == sorted.error_at(j));
                    assert(self@.error_at(k) == sorted.error_at(k));
                }
            }
            if before.wf() && before.errors_are_numbers() && before.nrmax == 0 {
                assert(before.errors_ordered()) by {
                    assert forall|k: int| 0 <= k < before.size implies !(#[trigger] before.error_at(k)).is_nan() by {
                        assert(before.order[k] < before.size);
                    }
                }
                lemma_sorted_permutation_leads(self@);
            }
        }
    }

    /// Appends `[a, b]` with its estimates as one more subinterval at level 0,
    /// last in the priority list.
    pub fn append_interval(&mut self, a: Double, b: Double, result: Double, error: Double)
        requires
            old(self)@.wf(),
            old(self)@.size < old(self)@.limit,
        ensures
            final(self)@ == old(self)@.appended(a, b, result, error),
            final(self)@.wf(),
            final(self)@.is_permutation(),
    {
        let i_new: usize = self.size;
        self.slots[i_new] = Subinterval { a, b, result, error, level: 0 };
        put(&mut self.order, i_new, i_new);
        self.size += 1;
    }

    /// Whether the current subinterval is larger than the smallest ones: its
    /// level is below the deepest one reached.
    pub fn large_interval(&self) -> (r: bool)
        ensures
            r == (self@.slots[self@.current as int].level < self@.maximum_level),
    {
        proof {
            use_type_invariant(self);
        }
        self.slots[self.current].level < self.maximum_level
    }

    /// Moves the cursor to position `k` of the priority list.
    pub fn set_nrmax(&mut self, k: usize)
        requires
            k <= old(self)@.limit,
        ensures
            final(self)@ == (WorkspaceView { nrmax: k as nat, ..old(self)@ }),
    {
        proof {
            use_type_invariant(&*self);
        }
        self.nrmax = k;
    }

    /// Puts the cursor back on the head of the priority list and makes the
    /// subinterval named there the current one.
    pub fn reset_nrmax(&mut self)
        ensures
            final(self)@ == (WorkspaceView { nrmax: 0, current: old(self)@.order[0] as nat, ..old(self)@ }),
            final(self)@.allocated(),
            old(self)@.wf() ==> final(self)@.wf(),
            old(self)@.wf() && final(self)@.size >= 1 ==> final(self)@.cursor_valid(),
    {
        proof {
            use_type_invariant(&*self);
        }
        self.nrmax = 0;
        self.current = self.order[0];
    }

    /// Moves the cursor down the kept entries of the priority list, from where
    /// it stands, to the first one that names a subinterval above the deepest
    /// level, and makes that subinterval the current one. Returns whether there
    /// is one; if not, the cursor ends just below the last entry looked at.
    pub fn increase_nrmax(&mut self) -> (found: bool)
        requires
            old(self)@.wf(),
            old(self)@.size >= 1,
        ensures
            final(self)@ == old(self)@.advanced(),
            found == old(self)@.advance_finds(),
            final(self)@.wf(),
            found ==> final(self)@.cursor_valid(),
            found ==> final(self)@.current == final(self)@.order[final(self)@.nrmax as int],
    {
        let ghost before = self@;
        let last: usize = self.size - 1;
        let limit: usize = self.limit;
        let jupbnd: usize = if last > 1 + limit / 2 {
            limit - last + 1
        } else {
            last
        };
        assert(jupbnd == before.top());
        let mut k: usize = self.nrmax;
        while k <= jupbnd
            invariant
                before == old(self)@,
                before.wf(),
                before.size >= 1,
                jupbnd == before.top(),
                before.nrmax <= k,
                k == self.nrmax,
                k <= jupbnd + 1 || k == before.nrmax,
                scan_stop(before.slots, before.order, before.maximum_level as int, k as int, jupbnd as int)
                    == scan_stop(
                    before.slots,
                    before.order,
                    before.maximum_level as int,
                    before.nrmax as int,
                    jupbnd as int,
                ),
                self@ == (WorkspaceView { nrmax: self@.nrmax, current: self@.current, ..before }),
                self@.current == if k == before.nrmax {
                    before.current
                } else {
                    before.order[k - 1] as nat
                },
            decreases jupbnd + 1 - k,
        {
            let i_max: usize = self.order[self.nrmax];
            self.current = i_max;
            if self.slots[i_max].level < self.maximum_level {
                assert(scan_stop(
                    before.slots,
                    before.order,
                    before.maximum_level as int,
                    k as int,
                    jupbnd as int,
                ) == k);
                return true;
            }
            self.nrmax += 1;
            k += 1;
        }
        false
    }

    /// The slot that position `k` of the priority list names.
    pub fn order_at(&self, k: usize) -> (r: usize)
        requires
            k < self@.limit,
        ensures
            r == self@.order[k as int],
    {
        proof {
            use_type_invariant(self);
        }
        self.order[k]
    }

    /// The subinterval in slot `k`.
    pub fn interval(&self, k: usize) -> (r: Subinterval)
        requires
            k < self@.limit,
        ensures
            r == self@.slots[k as int],
    {
        proof {
            use_type_invariant(self);
        }
        self.slots[k]
    }
}

} // verus!
