//! The head of the priority list names a subinterval of largest error.
//!
//! Near the capacity of the workspace the list keeps only its leading entries
//! in order, and of those only the first ones are sure to be larger than
//! everything after them. This is enough: each bisection takes the head, and
//! there are never fewer such entries than bisections that can still take place.

use vstd::prelude::*;
use crate::double::Double;
use crate::ordering::{
    demote_stop, lemma_demote_stop_bounds, lemma_demote_stop_passed, lemma_permutation_names_every_slot,
    lemma_promote_stop_bounds, lemma_promote_stop_passed, lemma_reordered_sorted, lemma_reordered_wf,
    lemma_update_sorted, promote_stop, shifted_down, shifted_up, slid,
};
use crate::workspace::{kept, Subinterval, WorkspaceView};

verus! {

/// How many leading entries of the list name subintervals that are at least as
/// large, by their error, as every subinterval that the list does not name
/// before them: all entries while the whole list is kept in order, and two
/// fewer than are kept in order after that.
pub open spec fn leading(size: int, limit: int) -> int {
    if size < limit / 2 + 3 {
        size
    } else {
        limit - size + 1
    }
}

/// The slot `s` is not named by any of the entries `0..=k`.
pub open spec fn outside(order: Seq<usize>, k: int, s: int) -> bool {
    forall|t: int| 0 <= t <= k ==> #[trigger] order[t] != s
}

impl WorkspaceView {
    /// The error of every active subinterval is a number.
    pub open spec fn errors_are_numbers(self) -> bool {
        forall|s: int| 0 <= s < self.size ==> !(#[trigger] self.slots[s]).error.is_nan()
    }

    /// Each of the entries `from..to` names a subinterval whose error is at
    /// least that of every active subinterval below `bound` that the list does
    /// not name up to that entry.
    pub open spec fn dominates(self, from: int, to: int, bound: int) -> bool {
        forall|k: int, s: int|
            from <= k < to && 0 <= s < bound && #[trigger] outside(self.order, k, s) ==> self.error_at(
                k,
            ).rank() >= self.slots[s].error.rank()
    }

    /// The leading entries of the list dominate the active subintervals.
    pub open spec fn leads(self) -> bool {
        self.dominates(0, leading(self.size as int, self.limit as int), self.size as int)
    }

    /// The list is in order: all errors are numbers, the kept entries are
    /// sorted, and the leading ones dominate.
    pub open spec fn in_order(self) -> bool {
        &&& self.errors_are_numbers()
        &&& self.sorted()
        &&& self.leads()
    }

    /// The list is in order and the subinterval at its head is the current one.
    pub open spec fn ranked(self) -> bool {
        &&& self.in_order()
        &&& self.nrmax == 0
        &&& self.current == self.order[0]
    }
}

/// The place in the new list of the entry that stood at place `t` of the old
/// one, when the head has moved to place `p - 1` and the newest subinterval has
/// been put in at place `q`.
pub open spec fn lands(p: int, q: int, t: int) -> int {
    let u = if t < p {
        t - 1
    } else {
        t
    };
    if u < q {
        u
    } else {
        u + 1
    }
}

/// The reordering step, with the cursor on the head, keeps the leading entries
/// dominant.
pub proof fn lemma_reordered_leads(v: WorkspaceView)
    requires
        v.pending(),
        v.nrmax == 0,
        v.errors_are_numbers(),
        v.sorted_apart_from_cursor(),
        v.dominates(1, leading(v.size - 1, v.limit as int), v.size - 1),
    ensures
        v.reordered().leads(),
{
    let last = v.size - 1;
    let m = v.order[0];
    let w = v.reordered();
    lemma_reordered_wf(v);
    lemma_reordered_sorted(v);
    let top = v.top();
    if v.size < v.limit / 2 + 3 {
        // the whole list is kept and sorted
        assert(w.is_permutation());
        assert forall|k: int, s: int|
            0 <= k < v.size && 0 <= s < v.size && #[trigger] outside(w.order, k, s) implies w.error_at(k).rank()
            >= w.slots[s].error.rank() by {
            lemma_permutation_names_every_slot(w, s);
            let t = choose|t: int| 0 <= t < w.size && w.order[t] == s;
            assert(t > k);
            assert(w.error_at(k).ge_spec(w.error_at(t)));
        }
    } else {
        let o = v.order;
        let errmax = v.slots[m as int].error;
        let errmin = v.slots[last].error;
        assert(slid(o, 0, 0) =~= o);
        let p = promote_stop(v.slots, o, errmax, top, 1);
        let o2 = shifted_up(o, 0, p).update(p - 1, m);
        let q = demote_stop(v.slots, o2, errmin, p - 1, top);
        let o3 = shifted_down(o2, q, top).update(q, last as usize);
        lemma_promote_stop_bounds(v.slots, o, errmax, top, 1);
        lemma_demote_stop_bounds(v.slots, o2, errmin, p - 1, top);
        lemma_promote_stop_passed(v.slots, o, errmax, top, 1);
        lemma_demote_stop_passed(v.slots, o2, errmin, p - 1, top);
        assert(forall|t: int| 0 <= t <= top ==> #[trigger] w.order[t] == o3[t]);
        assert(w.slots == v.slots);
        let old_leading = leading(last, v.limit as int);
        assert(3 <= top + 1 <= last);
        assert(top <= old_leading);
        assert(1 <= p <= top);
        assert(p - 1 <= q <= top);
        assert(errmax == v.error_at(0));
        assert(!errmax.is_nan() && !errmin.is_nan());
        assert(errmin.rank() <= errmax.rank());
        let pm = if p - 1 < q {
            p - 1
        } else {
            p
        };
        assert(o3[pm] == m);
        assert(o3[q] == last);
        // where the old entries stand
        assert forall|t: int| 1 <= t < top implies 0 <= lands(p, q, t) <= top && #[trigger] o3[lands(p, q, t)]
            == o[t] by {}
        // the old entries below the place where the head went are not above it
        assert forall|s: int| p < top && 0 <= s < last && s != m && outside(o, p - 1, s) implies errmax.rank()
            >= (#[trigger] v.slots[s]).error.rank() by {
            if p < top {
                assert(!errmax.lt_spec(v.slots[o[p] as int].error));
                assert(v.error_at(p) == v.slots[o[p] as int].error);
                if o[p] != s {
                    assert forall|t: int| 0 <= t <= p implies #[trigger] o[t] != s by {
                        if t < p {
                            assert(outside(o, p - 1, s));
                        }
                    }
                    assert(outside(o, p, s));
                }
            }
        }
        assert forall|k: int, s: int|
            0 <= k < top - 1 && 0 <= s < v.size && #[trigger] outside(w.order, k, s) implies w.error_at(
            k,
        ).rank() >= w.slots[s].error.rank() by {
            assert(w.order[k] == o3[k]);
            assert forall|t: int| 0 <= t <= k implies #[trigger] o3[t] != s by {
                assert(w.order[t] == o3[t]);
            }
            assert(outside(o3, k, s));
            // no old entry that stands at or above place k names s
            assert forall|t: int| 1 <= t < top && lands(p, q, t) <= k implies #[trigger] o[t] != s by {
                assert(o3[lands(p, q, t)] == o[t]);
            }
            if k == q {
                // the newest subinterval: the scan from the bottom has passed place q
                let x = o2[q];
                assert(errmin.ge_spec(v.slots[x as int].error));
                if s == m {
                    assert(q == p - 1);
                } else if q == p - 1 {
                    assert forall|t: int| 0 <= t <= p - 1 implies #[trigger] o[t] != s by {
                        if t >= 1 {
                            assert(lands(p, q, t) <= k);
                        }
                    }
                    assert(outside(o, p - 1, s));
                } else {
                    let i = if q < p - 1 {
                        q + 1
                    } else {
                        q
                    };
                    assert(x == o[i]);
                    assert(v.error_at(i) == v.slots[x as int].error);
                    if s != x {
                        assert forall|t: int| 0 <= t <= i implies #[trigger] o[t] != s by {
                            if 1 <= t < i {
                                assert(lands(p, q, t) <= k);
                            }
                        }
                        assert(outside(o, i, s));
                    }
                }
            } else if k == pm {
                // the bisected subinterval
                if s == last {
                } else {
                    assert forall|t: int| 0 <= t <= p - 1 implies #[trigger] o[t] != s by {
                        if t >= 1 {
                            assert(lands(p, q, t) <= k);
                        }
                    }
                    assert(outside(o, p - 1, s));
                }
            } else {
                // an entry of the old list
                let u = if k < q {
                    k
                } else {
                    k - 1
                };
                let i = if u < p - 1 {
                    u + 1
                } else {
                    u
                };
                assert(o3[k] == o2[u]);
                assert(o2[u] == o[i]);
                assert(lands(p, q, i) == k);
                assert(w.error_at(k) == v.error_at(i));
                if s == m {
                    assert(u < p - 1);
                    assert(errmax.lt_spec(v.slots[o[i] as int].error));
                } else if s == last {
                    assert(k < q);
                    if q > p - 1 {
                        assert(!errmin.ge_spec(v.slots[o2[q - 1] as int].error));
                        assert(w.error_at(q - 1) == v.slots[o2[q - 1] as int].error) by {
                            assert(o3[q - 1] == o2[q - 1]);
                        }
                        if k < q - 1 {
                            assert(w.error_at(k).ge_spec(w.error_at(q - 1)));
                        }
                    } else {
                        assert(errmax.lt_spec(v.slots[o[i] as int].error));
                    }
                } else {
                    assert forall|t: int| 0 <= t <= i implies #[trigger] o[t] != s by {
                        if t >= 1 {
                            assert(lands(p, q, t) <= k);
                        }
                    }
                    assert(outside(o, i, s));
                }
            }
        }
    }
}

/// The head of a list whose leading entries dominate names a subinterval of
/// largest error: no active subinterval has an error above its error.
pub proof fn lemma_head_dominates(v: WorkspaceView, slot: int)
    requires
        v.wf(),
        v.leads(),
        v.errors_are_numbers(),
        0 <= slot < v.size,
    ensures
        v.error_at(0).ge_spec(v.slots[slot].error),
{
    let head = v.order[0];
    assert(kept(v.size as int, v.limit as int) >= 1);
    assert(head < v.size);
    if head == slot {
    } else {
        assert(outside(v.order, 0, slot));
        assert(leading(v.size as int, v.limit as int) >= 1);
    }
}

/// A sorted permutation dominates throughout.
pub proof fn lemma_sorted_permutation_leads(v: WorkspaceView)
    requires
        v.wf(),
        v.is_permutation(),
        v.errors_are_numbers(),
        v.descending(v.size as int),
    ensures
        v.dominates(0, v.size as int, v.size as int),
        v.leads(),
        v.sorted(),
{
    assert forall|k: int, s: int|
        0 <= k < v.size && 0 <= s < v.size && #[trigger] outside(v.order, k, s) implies v.error_at(k).rank()
        >= v.slots[s].error.rank() by {
        lemma_permutation_names_every_slot(v, s);
        let t = choose|t: int| 0 <= t < v.size && v.order[t] == s;
        assert(t > k);
        assert(v.error_at(k).ge_spec(v.error_at(t)));
    }
    assert forall|k: int| 0 <= k < v.size implies !(#[trigger] v.error_at(k)).is_nan() by {
        assert(v.order[k] < v.size);
    }
}

/// Bisection keeps the list in order: if the list is in order with the current
/// subinterval at its head, and that subinterval is replaced by two halves
/// whose errors are numbers, the list is in order again, with a subinterval of
/// largest error at its head.
pub proof fn lemma_update_ranked(
    v: WorkspaceView,
    a1: Double,
    b1: Double,
    area1: Double,
    error1: Double,
    a2: Double,
    b2: Double,
    area2: Double,
    error2: Double,
)
    requires
        v.wf(),
        1 <= v.size < v.limit,
        v.ranked(),
        !error1.is_nan(),
        !error2.is_nan(),
    ensures
        v.bisected(a1, b1, area1, error1, a2, b2, area2, error2).reordered().ranked(),
{
    let u = v.bisected(a1, b1, area1, error1, a2, b2, area2, error2);
    let w = u.reordered();
    let m = v.order[0] as int;
    let lead = leading(v.size as int, v.limit as int);
    assert(kept(v.size as int, v.limit as int) >= 1);
    assert(lead <= kept(v.size as int, v.limit as int));
    lemma_update_sorted(v, a1, b1, area1, error1, a2, b2, area2, error2);
    assert(u.pending());
    lemma_reordered_wf(u);
    assert(u.errors_are_numbers());
    assert forall|k: int| 1 <= k < kept(v.size as int, v.limit as int) implies #[trigger] u.error_at(k)
        == v.error_at(k) by {
        assert(v.order[k] < v.size);
        assert(v.order[k] != v.order[0]);
    }
    assert forall|j: int, k: int|
        0 <= j < k < kept(v.size as int, v.limit as int) && j != 0 && k != 0 implies u.error_at(j).ge_spec(
        u.error_at(k),
    ) by {
        assert(v.error_at(j).ge_spec(v.error_at(k)));
    }
    assert forall|k: int| 0 <= k < kept(v.size as int, v.limit as int) implies !(#[trigger] u.error_at(
        k,
    )).is_nan() by {
        assert(v.order[k] < v.size);
    }
    assert(u.sorted_apart_from_cursor());
    assert forall|k: int, s: int|
        1 <= k < lead && 0 <= s < v.size && #[trigger] outside(u.order, k, s) implies u.error_at(k).rank()
        >= u.slots[s].error.rank() by {
        assert(u.order[0] != s);
        assert(u.slots[s] == v.slots[s]);
        assert(outside(v.order, k, s));
    }
    lemma_reordered_leads(u);
    assert(w.errors_are_numbers());
}

/// Bisection keeps the list in order wherever the cursor stands, as long as
/// the whole list is kept: if the list is in order and the current subinterval
/// is the one under the cursor, then after it has been replaced by two halves
/// whose errors are numbers the list is in order again.
pub proof fn lemma_update_in_order(
    v: WorkspaceView,
    a1: Double,
    b1: Double,
    area1: Double,
    error1: Double,
    a2: Double,
    b2: Double,
    area2: Double,
    error2: Double,
)
    requires
        v.wf(),
        1 <= v.size < v.limit,
        v.cursor_valid(),
        v.current == v.order[v.nrmax as int],
        v.in_order(),
        !error1.is_nan(),
        !error2.is_nan(),
        v.size + 1 < v.limit / 2 + 3 || v.nrmax == 0,
    ensures
        v.bisected(a1, b1, area1, error1, a2, b2, area2, error2).reordered().in_order(),
{
    let u = v.bisected(a1, b1, area1, error1, a2, b2, area2, error2);
    let w = u.reordered();
    if v.nrmax == 0 {
        lemma_update_ranked(v, a1, b1, area1, error1, a2, b2, area2, error2);
    } else {
        lemma_update_sorted(v, a1, b1, area1, error1, a2, b2, area2, error2);
        assert(u.pending());
        lemma_reordered_wf(u);
        assert(w.errors_are_numbers());
        assert(w.is_permutation());
        lemma_sorted_permutation_leads(w);
    }
}

/// Whether the list is in order depends on the subintervals and the list alone,
/// not on the cursor.
pub proof fn lemma_in_order_by_list(v: WorkspaceView, w: WorkspaceView)
    requires
        v.in_order(),
        v.slots == w.slots,
        v.order == w.order,
        v.size == w.size,
        v.limit == w.limit,
    ensures
        w.in_order(),
{
    assert forall|k: int| 0 <= k < kept(w.size as int, w.limit as int) implies !(#[trigger] w.error_at(
        k,
    )).is_nan() by {
        assert(w.error_at(k) == v.error_at(k));
    }
    assert forall|j: int, k: int| 0 <= j < k < kept(w.size as int, w.limit as int) implies w.error_at(
        j,
    ).ge_spec(w.error_at(k)) by {
        assert(v.error_at(j).ge_spec(v.error_at(k)));
    }
    assert forall|k: int, s: int|
        0 <= k < leading(w.size as int, w.limit as int) && 0 <= s < w.size && #[trigger] outside(
            w.order,
            k,
            s,
        ) implies w.error_at(k).rank() >= w.slots[s].error.rank() by {
        assert(outside(v.order, k, s));
        assert(w.error_at(k) == v.error_at(k));
    }
}

/// While the list is in order the current subinterval is one of largest error.
pub proof fn lemma_current_is_largest(v: WorkspaceView, slot: int)
    requires
        v.wf(),
        v.ranked(),
        0 <= slot < v.size,
    ensures
        v.slots[v.current as int].error.ge_spec(v.slots[slot].error),
{
    lemma_head_dominates(v, slot);
}

} // verus!
