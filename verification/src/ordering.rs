//! What the reordering step does to the priority list, stated on sequences.
//!
//! After a bisection the subinterval that was bisected holds the larger of the
//! two new error estimates, in its old slot, and the newest slot holds the
//! smaller one. The step moves the first to its place among the leading entries
//! of the list and inserts the second from below. The list stays a permutation
//! of the active slots throughout.

use vstd::prelude::*;
use vstd::set_lib::{lemma_int_range, lemma_subset_equality, set_int_range};
use crate::double::Double;
use crate::workspace::{kept, Subinterval, WorkspaceView};

verus! {

/// Where the scan towards the head stops: it starts at position `n` and moves
/// up while `errmax` exceeds the error of the entry just above.
pub open spec fn slide_stop(slots: Seq<Subinterval>, order: Seq<usize>, errmax: Double, n: int) -> int
    decreases n,
{
    if n > 0 && errmax.gt_spec(slots[order[n - 1] as int].error) {
        slide_stop(slots, order, errmax, n - 1)
    } else {
        n
    }
}

/// The entries at positions `j..n` moved one place down, to `j + 1..=n`.
pub open spec fn slid(order: Seq<usize>, j: int, n: int) -> Seq<usize> {
    Seq::new(
        order.len(),
        |t: int|
            if j < t <= n {
                order[t - 1]
            } else {
                order[t]
            },
    )
}

/// Where the scan towards the tail stops: it starts at position `i` and moves
/// down while it is above `top` and `errmax` is less than the error of the entry
/// at the position.
pub open spec fn promote_stop(
    slots: Seq<Subinterval>,
    order: Seq<usize>,
    errmax: Double,
    top: int,
    i: int,
) -> int
    decreases top - i,
{
    if i < top && errmax.lt_spec(slots[order[i] as int].error) {
        promote_stop(slots, order, errmax, top, i + 1)
    } else {
        i
    }
}

/// The entries at positions `j + 1..p` moved one place up, to `j..p - 1`.
pub open spec fn shifted_up(order: Seq<usize>, j: int, p: int) -> Seq<usize> {
    Seq::new(
        order.len(),
        |t: int|
            if j <= t < p - 1 {
                order[t + 1]
            } else {
                order[t]
            },
    )
}

/// Where the scan from the bottom stops: it starts at position `q` and moves up
/// while it is below `floor` and `errmin` is at least the error of the entry
/// just above.
pub open spec fn demote_stop(
    slots: Seq<Subinterval>,
    order: Seq<usize>,
    errmin: Double,
    floor: int,
    q: int,
) -> int
    decreases q,
{
    if q > floor && q > 0 && errmin.ge_spec(slots[order[q - 1] as int].error) {
        demote_stop(slots, order, errmin, floor, q - 1)
    } else {
        q
    }
}

/// The entries at positions `q..top` moved one place down, to `q + 1..=top`.
pub open spec fn shifted_down(order: Seq<usize>, q: int, top: int) -> Seq<usize> {
    Seq::new(
        order.len(),
        |t: int|
            if q < t <= top {
                order[t - 1]
            } else {
                order[t]
            },
    )
}

/// The position of an entry of largest error among position `best` and the
/// positions `j..n`. The scan moves to a later entry whenever its error is at
/// least the largest so far, so of several largest entries it finds the last.
pub open spec fn largest_from(slots: Seq<Subinterval>, order: Seq<usize>, best: int, j: int, n: int) -> int
    decreases n - j,
{
    if j >= n {
        best
    } else if slots[order[j] as int].error.ge_spec(slots[order[best] as int].error) {
        largest_from(slots, order, j, j + 1, n)
    } else {
        largest_from(slots, order, best, j + 1, n)
    }
}

/// The list with the entries at positions `i` and `j` exchanged.
pub open spec fn exchanged(order: Seq<usize>, i: int, j: int) -> Seq<usize> {
    order.update(i, order[j]).update(j, order[i])
}

/// The list after a selection sort of the positions `i..n`: the entry of
/// largest error among them is exchanged with the one at `i`, and so on from
/// `i + 1`.
pub open spec fn selection_sorted(slots: Seq<Subinterval>, order: Seq<usize>, i: int, n: int) -> Seq<usize>
    decreases n - i,
{
    if i >= n {
        order
    } else {
        selection_sorted(slots, exchanged(order, i, largest_from(slots, order, i, i + 1, n)), i + 1, n)
    }
}

/// Where the cursor stops: it starts at position `k` and moves down while it is
/// not below `bound` and the subinterval named at the position is at the
/// deepest level.
pub open spec fn scan_stop(
    slots: Seq<Subinterval>,
    order: Seq<usize>,
    maximum_level: int,
    k: int,
    bound: int,
) -> int
    decreases bound + 1 - k,
{
    if k <= bound && !(slots[order[k] as int].level < maximum_level) {
        scan_stop(slots, order, maximum_level, k + 1, bound)
    } else {
        k
    }
}

impl WorkspaceView {
    /// Whether advancing the cursor finds a subinterval above the deepest level
    /// among the kept entries at or below the cursor.
    pub open spec fn advance_finds(self) -> bool {
        scan_stop(self.slots, self.order, self.maximum_level as int, self.nrmax as int, self.top())
            <= self.top()
    }

    /// The state after the cursor has been advanced.
    pub open spec fn advanced(self) -> WorkspaceView {
        let stop = scan_stop(self.slots, self.order, self.maximum_level as int, self.nrmax as int, self.top());
        if stop <= self.top() {
            WorkspaceView { nrmax: stop as nat, current: self.order[stop] as nat, ..self }
        } else if stop == self.nrmax {
            self
        } else {
            WorkspaceView { nrmax: stop as nat, current: self.order[stop - 1] as nat, ..self }
        }
    }

    /// The last position of `order` that the reordering step keeps exact.
    pub open spec fn top(self) -> int {
        kept(self.size as int, self.limit as int) - 1
    }

    /// The state in which the reordering step is due: a subinterval has just been
    /// added in slot `size - 1`, and the list is still the one of the `size - 1`
    /// subintervals before it. With a single subinterval, which nothing was added
    /// to, the list is the one of that subinterval.
    pub open spec fn pending(self) -> bool {
        &&& self.allocated()
        &&& 1 <= self.size
        &&& 2 <= self.limit
        &&& self.maximum_level < self.size
        &&& forall|k: int| 0 <= k < self.size ==> (#[trigger] self.slots[k]).level <= self.maximum_level
        &&& self.size == 1 ==> self.nrmax == 0 && self.order[0] == 0
        &&& self.size >= 2 ==> {
            &&& self.nrmax < self.size - 1
            &&& self.distinct_prefix(self.size - 1, self.size - 1)
        }
    }

    /// The state after the reordering step. With fewer than three subintervals
    /// the list is set to the first two slots in their order; the subinterval
    /// under the cursor becomes the current one. Otherwise the bisected
    /// subinterval and the newest one are put in their places among the entries
    /// up to `top`, and the entry that this pushes out of those goes to the end
    /// of the list.
    pub open spec fn reordered(self) -> WorkspaceView {
        let last = self.size - 1;
        let n = self.nrmax as int;
        let m = self.order[n];
        if last < 2 {
            WorkspaceView { order: self.order.update(0, 0usize).update(1, 1usize), current: m as nat, ..self }
        } else {
            let errmax = self.slots[m as int].error;
            let j = slide_stop(self.slots, self.order, errmax, n);
            let o1 = slid(self.order, j, n);
            let top = self.top();
            let p = promote_stop(self.slots, o1, errmax, top, j + 1);
            let o2 = shifted_up(o1, j, p).update(p - 1, m);
            let errmin = self.slots[last].error;
            let q = demote_stop(self.slots, o2, errmin, p - 1, top);
            let o3 = shifted_down(o2, q, top).update(q, last as usize);
            let o4 = if top < last {
                o3.update(last, o2[top])
            } else {
                o3
            };
            WorkspaceView { order: o4, nrmax: j as nat, current: o4[j] as nat, ..self }
        }
    }
}

/// Exchanging two of the first `n` entries of a list rearranges those entries.
pub proof fn lemma_swap_rearranges(order: Seq<usize>, i: int, j: int, n: int)
    requires
        0 <= i < n <= order.len(),
        0 <= j < n,
    ensures
        order.update(i, order[j]).update(j, order[i]).subrange(0, n).to_multiset() == order.subrange(
            0,
            n,
        ).to_multiset(),
{
    broadcast use {vstd::seq_lib::to_multiset_update, vstd::multiset::group_multiset_axioms};

    let head = order.subrange(0, n);
    head.to_multiset_ensures();
    let swapped = order.update(i, order[j]).update(j, order[i]).subrange(0, n);
    assert(swapped =~= head.update(i, head[j]).update(j, head[i]));
    assert(head.update(i, head[j]).to_multiset() == head.to_multiset().insert(head[j]).remove(head[i]));
    assert(head.update(i, head[j]).update(j, head[i]).to_multiset() == head.update(
        i,
        head[j],
    ).to_multiset().insert(head[i]).remove(head.update(i, head[j])[j]));
    assert(swapped.to_multiset() =~= head.to_multiset());
}

/// The scan towards the head stops between the head and where it started.
pub proof fn lemma_slide_stop_bounds(slots: Seq<Subinterval>, order: Seq<usize>, errmax: Double, n: int)
    requires
        0 <= n,
    ensures
        0 <= slide_stop(slots, order, errmax, n) <= n,
    decreases n,
{
    if n > 0 && errmax.gt_spec(slots[order[n - 1] as int].error) {
        lemma_slide_stop_bounds(slots, order, errmax, n - 1);
    }
}

/// The scan towards the tail stops between where it started and `top`, or
/// where it started if that is beyond `top`.
pub proof fn lemma_promote_stop_bounds(
    slots: Seq<Subinterval>,
    order: Seq<usize>,
    errmax: Double,
    top: int,
    i: int,
)
    ensures
        i <= promote_stop(slots, order, errmax, top, i),
        promote_stop(slots, order, errmax, top, i) <= top || promote_stop(slots, order, errmax, top, i) == i,
    decreases top - i,
{
    if i < top && errmax.lt_spec(slots[order[i] as int].error) {
        lemma_promote_stop_bounds(slots, order, errmax, top, i + 1);
    }
}

/// The scan from the bottom stops between `floor` and where it started, or
/// where it started if that is above `floor`.
pub proof fn lemma_demote_stop_bounds(
    slots: Seq<Subinterval>,
    order: Seq<usize>,
    errmin: Double,
    floor: int,
    q: int,
)
    requires
        0 <= floor,
    ensures
        demote_stop(slots, order, errmin, floor, q) <= q,
        floor <= demote_stop(slots, order, errmin, floor, q) || demote_stop(slots, order, errmin, floor, q) == q,
    decreases q,
{
    if q > floor && q > 0 && errmin.ge_spec(slots[order[q - 1] as int].error) {
        lemma_demote_stop_bounds(slots, order, errmin, floor, q - 1);
    }
}

/// The position of the old list whose entry stands at position `s` once the
/// bisected subinterval has moved from position `n` to position `p - 1`, the
/// scan towards the head having stopped at `j`.
pub open spec fn source(j: int, n: int, p: int, s: int) -> int {
    if s == p - 1 {
        n
    } else if j <= s < p - 1 {
        if s + 1 <= n {
            s
        } else {
            s + 1
        }
    } else if j < s <= n {
        s - 1
    } else {
        s
    }
}

/// The reordering step re-establishes the invariant of the workspace: the list
/// is again a permutation of the active slots. It leaves the cursor on a kept
/// entry unless it stood beyond the last one.
pub proof fn lemma_reordered_wf(v: WorkspaceView)
    requires
        v.pending(),
    ensures
        v.reordered().wf(),
        v.reordered().cursor_valid() || v.nrmax > v.top(),
        v.reordered().current == v.reordered().order[v.reordered().nrmax as int],
        v.reordered().nrmax <= v.nrmax,
{
    let last = v.size - 1;
    let n = v.nrmax as int;
    let m = v.order[n];
    if last < 2 {
    } else {
        let errmax = v.slots[m as int].error;
        let j = slide_stop(v.slots, v.order, errmax, n);
        let o1 = slid(v.order, j, n);
        let top = v.top();
        let p = promote_stop(v.slots, o1, errmax, top, j + 1);
        let o2 = shifted_up(o1, j, p).update(p - 1, m);
        let errmin = v.slots[last].error;
        let q = demote_stop(v.slots, o2, errmin, p - 1, top);
        let o3 = shifted_down(o2, q, top).update(q, last as usize);
        let o4 = if top < last {
            o3.update(last, o2[top])
        } else {
            o3
        };
        lemma_slide_stop_bounds(v.slots, v.order, errmax, n);
        lemma_promote_stop_bounds(v.slots, o1, errmax, top, j + 1);
        lemma_demote_stop_bounds(v.slots, o2, errmin, p - 1, top);
        let w = v.reordered();
        assert(w.order == o4);
        assert(2 <= top <= last);
        assert(n < last);
        assert(0 <= j <= n);
        assert(j + 1 <= p <= last);
        assert(0 <= q <= top);
        assert(forall|s: int| 0 <= s < last ==> #[trigger] o2[s] == v.order[source(j, n, p, s)]);
        assert(forall|s: int| 0 <= s < last ==> 0 <= #[trigger] source(j, n, p, s) < last);
        assert(forall|s: int, t: int| 0 <= s < t < last ==> source(j, n, p, s) != source(j, n, p, t));
        assert(forall|s: int| 0 <= s < last ==> #[trigger] o2[s] < last);
        assert forall|s: int, t: int| 0 <= s < t < last implies o2[s] != o2[t] by {
            let a = source(j, n, p, s);
            let b = source(j, n, p, t);
            assert(o2[s] == v.order[a]);
            assert(o2[t] == v.order[b]);
            assert(a != b);
        }
        assert forall|t: int| 0 <= t <= last implies #[trigger] o4[t] < v.size by {
            let g = landed(q, top, last, t);
            if t != q {
                assert(o4[t] == o2[g]);
            }
        }
        assert forall|s: int, t: int| 0 <= s < t <= last implies o4[s] != o4[t] by {
            let a = landed(q, top, last, s);
            let b = landed(q, top, last, t);
            if s != q && t != q {
                assert(o4[s] == o2[a]);
                assert(o4[t] == o2[b]);
                assert(a != b);
            } else if s == q {
                assert(o4[t] == o2[b]);
            } else {
                assert(o4[s] == o2[a]);
            }
        }
        assert(w.allocated());
        assert(w.is_permutation());
    }
}

/// The position, in the list with the bisected subinterval in its place, of
/// the entry that stands at position `t` once the newest subinterval has been
/// put in at `q` and the entry pushed out at `top` has gone to the end.
pub open spec fn landed(q: int, top: int, last: int, t: int) -> int {
    if q < t <= top {
        t - 1
    } else if t == last && top < last {
        top
    } else {
        t
    }
}

/// The rank of the error of the subinterval that `order[k]` names.
pub open spec fn rank_at(slots: Seq<Subinterval>, order: Seq<usize>, k: int) -> int {
    slots[order[k] as int].error.rank()
}

/// Every entry that the scan towards the head passed has an error below
/// `errmax`, and the entry at which it stopped has not.
pub proof fn lemma_slide_stop_passed(slots: Seq<Subinterval>, order: Seq<usize>, errmax: Double, n: int)
    requires
        0 <= n,
    ensures
        forall|t: int|
            slide_stop(slots, order, errmax, n) <= t < n ==> errmax.gt_spec(
                #[trigger] slots[order[t] as int].error,
            ),
        slide_stop(slots, order, errmax, n) > 0 ==> !errmax.gt_spec(
            slots[order[slide_stop(slots, order, errmax, n) - 1] as int].error,
        ),
    decreases n,
{
    if n > 0 && errmax.gt_spec(slots[order[n - 1] as int].error) {
        lemma_slide_stop_passed(slots, order, errmax, n - 1);
    }
}

/// Every entry that the scan towards the tail passed has an error above
/// `errmax`, and the entry at which it stopped above `top` has not.
pub proof fn lemma_promote_stop_passed(
    slots: Seq<Subinterval>,
    order: Seq<usize>,
    errmax: Double,
    top: int,
    i: int,
)
    ensures
        forall|t: int|
            i <= t < promote_stop(slots, order, errmax, top, i) ==> errmax.lt_spec(
                #[trigger] slots[order[t] as int].error,
            ),
        promote_stop(slots, order, errmax, top, i) < top ==> !errmax.lt_spec(
            slots[order[promote_stop(slots, order, errmax, top, i)] as int].error,
        ),
    decreases top - i,
{
    if i < top && errmax.lt_spec(slots[order[i] as int].error) {
        lemma_promote_stop_passed(slots, order, errmax, top, i + 1);
    }
}

/// Every entry that the scan from the bottom passed has an error of at most
/// `errmin`, and the entry at which it stopped below `floor` has not.
pub proof fn lemma_demote_stop_passed(
    slots: Seq<Subinterval>,
    order: Seq<usize>,
    errmin: Double,
    floor: int,
    q: int,
)
    requires
        0 <= floor,
    ensures
        forall|t: int|
            demote_stop(slots, order, errmin, floor, q) <= t < q ==> errmin.ge_spec(
                #[trigger] slots[order[t] as int].error,
            ),
        demote_stop(slots, order, errmin, floor, q) > floor ==> !errmin.ge_spec(
            slots[order[demote_stop(slots, order, errmin, floor, q) - 1] as int].error,
        ),
    decreases q,
{
    if q > floor && q > 0 && errmin.ge_spec(slots[order[q - 1] as int].error) {
        lemma_demote_stop_passed(slots, order, errmin, floor, q - 1);
    }
}

impl WorkspaceView {
    /// The kept entries of the priority list name errors that are numbers and do
    /// not increase.
    pub open spec fn sorted(self) -> bool {
        &&& forall|k: int|
            0 <= k < kept(self.size as int, self.limit as int) ==> !(#[trigger] self.error_at(k)).is_nan()
        &&& self.descending(kept(self.size as int, self.limit as int))
    }

    /// The list as the reordering step expects it when it is to come out sorted:
    /// apart from the entry under the cursor, whose error has changed, the
    /// entries kept so far are sorted; the newest error is a number and at most
    /// the changed one; and the cursor lies above the last entry to be kept.
    pub open spec fn sorted_apart_from_cursor(self) -> bool {
        let old_kept = kept(self.size - 1, self.limit as int);
        let n = self.nrmax as int;
        &&& n < self.top()
        &&& forall|k: int| 0 <= k < old_kept ==> !(#[trigger] self.error_at(k)).is_nan()
        &&& forall|j: int, k: int|
            0 <= j < k < old_kept && j != n && k != n ==> self.error_at(j).ge_spec(self.error_at(k))
        &&& self.slots[self.size - 1].error.le_spec(self.error_at(n))
    }
}

/// The reordering step sorts: from a list that is sorted apart from the entry
/// under the cursor it makes one whose kept entries are sorted.
pub proof fn lemma_reordered_sorted(v: WorkspaceView)
    requires
        v.pending(),
        v.sorted_apart_from_cursor(),
    ensures
        v.reordered().sorted(),
{
    let last = v.size - 1;
    let n = v.nrmax as int;
    let m = v.order[n];
    let old_kept = kept(last, v.limit as int);
    let w = v.reordered();
    if last < 2 {
        assert(w.error_at(0) == v.error_at(0));
        assert(w.error_at(1) == v.slots[1].error);
    } else {
        let errmax = v.slots[m as int].error;
        let j = slide_stop(v.slots, v.order, errmax, n);
        let o1 = slid(v.order, j, n);
        let top = v.top();
        let p = promote_stop(v.slots, o1, errmax, top, j + 1);
        let o2 = shifted_up(o1, j, p).update(p - 1, m);
        let errmin = v.slots[last].error;
        let q = demote_stop(v.slots, o2, errmin, p - 1, top);
        let o3 = shifted_down(o2, q, top).update(q, last as usize);
        lemma_slide_stop_bounds(v.slots, v.order, errmax, n);
        lemma_promote_stop_bounds(v.slots, o1, errmax, top, j + 1);
        lemma_demote_stop_bounds(v.slots, o2, errmin, p - 1, top);
        lemma_slide_stop_passed(v.slots, v.order, errmax, n);
        lemma_promote_stop_passed(v.slots, o1, errmax, top, j + 1);
        lemma_demote_stop_passed(v.slots, o2, errmin, p - 1, top);
        assert(forall|t: int| 0 <= t <= top ==> #[trigger] w.order[t] == o3[t]);
        assert(2 <= top <= last);
        assert(top <= old_kept);
        assert(0 <= j <= n < top);
        assert(j + 1 <= p <= top);
        assert(p - 1 <= q <= top);
        assert(errmax == v.error_at(n));
        assert(!errmax.is_nan() && !errmin.is_nan());
        assert(forall|s: int| 0 <= s < top ==> #[trigger] o2[s] == v.order[source(j, n, p, s)]);
        assert forall|s: int| 0 <= s < top implies !(#[trigger] v.slots[o2[s] as int].error).is_nan() by {
            assert(o2[s] == v.order[source(j, n, p, s)]);
            assert(v.slots[o2[s] as int].error == v.error_at(source(j, n, p, s)));
        }
        // the entries above the place of the bisected subinterval are not below it
        assert forall|s: int| 0 <= s < p - 1 implies #[trigger] rank_at(v.slots, o2, s) >= errmax.rank() by {
            if s >= j {
                assert(o2[s] == o1[s + 1]);
                assert(errmax.lt_spec(v.slots[o1[s + 1] as int].error));
            } else {
                assert(o2[s] == v.order[s]);
                assert(v.slots[o2[s] as int].error == v.error_at(s));
                assert(v.slots[v.order[j - 1] as int].error == v.error_at(j - 1));
                if s < j - 1 {
                    assert(v.error_at(s).ge_spec(v.error_at(j - 1)));
                }
            }
        }
        // the entries below it are not above it
        assert forall|s: int| p <= s < top implies #[trigger] rank_at(v.slots, o2, s) <= errmax.rank() by {
            assert(o2[s] == o1[s]);
            assert(o2[s] == v.order[source(j, n, p, s)]);
            assert(v.slots[o2[s] as int].error == v.error_at(source(j, n, p, s)));
            if j < n {
                assert(p == j + 1) by {
                    assert(o1[j + 1] == v.order[j]);
                    assert(errmax.gt_spec(v.slots[v.order[j] as int].error));
                }
                assert(v.slots[v.order[j] as int].error == v.error_at(j));
                if source(j, n, p, s) > j {
                    assert(v.error_at(j).ge_spec(v.error_at(source(j, n, p, s))));
                }
            } else {
                assert(o1[p] == v.order[p]);
                assert(v.slots[o1[p] as int].error == v.error_at(p));
                if s > p {
                    assert(v.error_at(p).ge_spec(v.error_at(s)));
                }
            }
        }
        assert forall|s: int, t: int| 0 <= s < t < top implies rank_at(v.slots, o2, s) >= rank_at(v.slots, o2, t) by {
            if s == p - 1 {
            } else if t == p - 1 {
            } else {
                let a = source(j, n, p, s);
                let b = source(j, n, p, t);
                assert(o2[s] == v.order[a]);
                assert(o2[t] == v.order[b]);
                assert(v.slots[o2[s] as int].error == v.error_at(a));
                assert(v.slots[o2[t] as int].error == v.error_at(b));
                assert(a < b);
                assert(v.error_at(a).ge_spec(v.error_at(b)));
            }
        }
        assert(errmin.rank() <= errmax.rank());
        assert forall|s: int| 0 <= s < q implies #[trigger] rank_at(v.slots, o2, s) >= errmin.rank() by {
            if q > p - 1 {
                assert(!errmin.ge_spec(v.slots[o2[q - 1] as int].error));
                if s < q - 1 {
                    assert(rank_at(v.slots, o2, s) >= rank_at(v.slots, o2, q - 1));
                }
            } else {
                assert(rank_at(v.slots, o2, s) >= errmax.rank());
            }
        }
        assert forall|s: int| q <= s < top implies #[trigger] rank_at(v.slots, o2, s) <= errmin.rank() by {
            assert(errmin.ge_spec(v.slots[o2[s] as int].error));
        }
        assert forall|t: int| 0 <= t <= top implies !(#[trigger] w.error_at(t)).is_nan() by {
            assert(w.order[t] == o3[t]);
            if t == q {
                assert(o3[t] == last);
            } else if t > q {
                assert(o3[t] == o2[t - 1]);
            } else {
                assert(o3[t] == o2[t]);
            }
        }
        assert forall|s: int, t: int| 0 <= s < t <= top implies w.error_at(s).ge_spec(w.error_at(t)) by {
            assert(w.order[s] == o3[s]);
            assert(w.order[t] == o3[t]);
            let a = if q < s { s - 1 } else { s };
            let b = if q < t { t - 1 } else { t };
            if s == q {
                assert(o3[s] == last);
                assert(o3[t] == o2[b]);
                assert(rank_at(v.slots, o2, b) <= errmin.rank());
            } else if t == q {
                assert(o3[t] == last);
                assert(o3[s] == o2[a]);
                assert(rank_at(v.slots, o2, a) >= errmin.rank());
            } else {
                assert(o3[s] == o2[a]);
                assert(o3[t] == o2[b]);
                assert(rank_at(v.slots, o2, a) >= rank_at(v.slots, o2, b));
            }
        }
    }
}

/// Bisection keeps the priority list sorted: if the kept entries are sorted and
/// the current subinterval is the one under the cursor, then after it has been
/// replaced by two halves whose errors are numbers, the kept entries are sorted
/// again, provided the cursor lies above the last entry that is then kept.
pub proof fn lemma_update_sorted(
    v: WorkspaceView,
    a1: Double,
    b1: Double,
    area1: Double,
    error1: Double,
    a2: Double,
    b2: Double,
    area2: Double,
    error2: Double,
)
    requires
        v.wf(),
        1 <= v.size < v.limit,
        v.nrmax < kept(v.size as int, v.limit as int),
        v.nrmax < kept(v.size as int + 1, v.limit as int) - 1,
        v.current == v.order[v.nrmax as int],
        v.sorted(),
        !error1.is_nan(),
        !error2.is_nan(),
    ensures
        v.bisected(a1, b1, area1, error1, a2, b2, area2, error2).reordered().sorted(),
{
    let u = v.bisected(a1, b1, area1, error1, a2, b2, area2, error2);
    let n = v.nrmax as int;
    let old_kept = kept(v.size as int, v.limit as int);
    assert(u.pending());
    assert forall|k: int| 0 <= k < old_kept && k != n implies #[trigger] u.error_at(k) == v.error_at(k) by {
        assert(v.order[k] < v.size);
        assert(v.order[k] != v.order[n]);
    }
    assert forall|j: int, k: int| 0 <= j < k < old_kept && j != n && k != n implies u.error_at(j).ge_spec(
        u.error_at(k),
    ) by {
        assert(v.error_at(j).ge_spec(v.error_at(k)));
    }
    assert(u.sorted_apart_from_cursor());
    lemma_reordered_sorted(u);
}

/// In a permutation of `0..size` every active slot is named by some entry.
pub proof fn lemma_permutation_names_every_slot(v: WorkspaceView, slot: int)
    requires
        v.allocated(),
        v.is_permutation(),
        0 <= slot < v.size,
    ensures
        exists|k: int| 0 <= k < v.size && v.order[k] == slot,
{
    let n = v.size as int;
    let named = Seq::new(v.size, |k: int| v.order[k] as int);
    assert(named.no_duplicates());
    named.unique_seq_to_set();
    lemma_int_range(0, n);
    assert(named.to_set().subset_of(set_int_range(0, n))) by {
        assert forall|x: int| named.to_set().contains(x) implies set_int_range(0, n).contains(x) by {
            let k = choose|k: int| 0 <= k < named.len() && named[k] == x;
            assert(v.order[k] < v.size);
        }
    }
    vstd::seq_lib::seq_to_set_is_finite(named);
    lemma_subset_equality(named.to_set(), set_int_range(0, n));
    assert(set_int_range(0, n).contains(slot));
    assert(named.to_set().contains(slot));
    let k = choose|k: int| 0 <= k < named.len() && named[k] == slot;
    assert(v.order[k] == slot);
}

/// The active part of the priority list is a permutation of the active slots.
pub proof fn lemma_order_is_permutation(v: WorkspaceView)
    requires
        v.wf(),
    ensures
        v.is_permutation(),
{
}

/// A workspace never holds more subintervals than its capacity.
pub proof fn lemma_size_within_capacity(v: WorkspaceView)
    requires
        v.wf(),
    ensures
        v.size <= v.limit,
{
}

} // verus!
