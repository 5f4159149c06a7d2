//! The active subintervals tile the range of integration.

use vstd::prelude::*;
use crate::double::Double;
use crate::workspace::WorkspaceView;

verus! {

impl WorkspaceView {
    /// `chain` lists every active slot exactly once, so that the subintervals
    /// follow one another from `lo` to `hi`: the first starts at `lo`, each ends
    /// where the next starts, and the last ends at `hi`. Bounds are compared as
    /// bit patterns.
    pub open spec fn tiles(self, chain: Seq<int>, lo: Double, hi: Double) -> bool {
        &&& 1 <= self.size
        &&& chain.len() == self.size
        &&& forall|k: int| 0 <= k < self.size ==> 0 <= #[trigger] chain[k] < self.size
        &&& forall|j: int, k: int| 0 <= j < k < self.size ==> chain[j] != chain[k]
        &&& forall|s: int| 0 <= s < self.size ==> chain.contains(s)
        &&& self.slots[chain[0]].a == lo
        &&& self.slots[chain[self.size - 1]].b == hi
        &&& forall|k: int| 0 <= k < self.size - 1 ==> (#[trigger] self.slots[chain[k]]).b == self.slots[chain[k + 1]].a
    }

    /// `x` is a bound of one of the active subintervals, compared as a bit
    /// pattern.
    pub open spec fn has_bound(self, x: Double) -> bool {
        exists|k: int| 0 <= k < self.size && ((#[trigger] self.slots[k]).a == x || self.slots[k].b == x)
    }

    /// Every bound of an active subintervals of `before` is one of this
    /// workspace too.
    pub open spec fn keeps_bounds_of(self, before: WorkspaceView) -> bool {
        forall|x: Double| before.has_bound(x) ==> #[trigger] self.has_bound(x)
    }

    /// The active subintervals tile the range from `lo` to `hi` without gap or
    /// overlap.
    pub open spec fn partitions(self, lo: Double, hi: Double) -> bool {
        exists|chain: Seq<int>| self.tiles(chain, lo, hi)
    }
}

/// Whether the active subintervals tile a range depends on them alone, not on
/// the priority list.
pub proof fn lemma_partitions_by_slots(v: WorkspaceView, w: WorkspaceView, lo: Double, hi: Double)
    requires
        v.partitions(lo, hi),
        v.slots == w.slots,
        v.size == w.size,
    ensures
        w.partitions(lo, hi),
{
    let chain = choose|chain: Seq<int>| v.tiles(chain, lo, hi);
    assert(w.tiles(chain, lo, hi));
}

/// A workspace with one active subinterval is tiled by it.
pub proof fn lemma_single_interval_partitions(v: WorkspaceView)
    requires
        v.size == 1,
    ensures
        v.partitions(v.slots[0].a, v.slots[0].b),
{
    let chain = seq![0int];
    assert(chain[0] == 0);
    assert(chain.contains(0));
    assert(v.tiles(chain, v.slots[0].a, v.slots[0].b));
}

/// Appending a subinterval that starts where the tiling ends extends the tiling
/// to the end of that subinterval.
pub proof fn lemma_append_partitions(
    v: WorkspaceView,
    lo: Double,
    hi: Double,
    b: Double,
    result: Double,
    error: Double,
)
    requires
        v.allocated(),
        v.size < v.limit,
        v.partitions(lo, hi),
    ensures
        v.appended(hi, b, result, error).partitions(lo, b),
{
    let chain = choose|chain: Seq<int>| v.tiles(chain, lo, hi);
    let w = v.appended(hi, b, result, error);
    let longer = chain.push(v.size as int);
    assert forall|s: int| 0 <= s < w.size implies longer.contains(s) by {
        if s < v.size {
            assert(chain.contains(s));
            let k = choose|k: int| 0 <= k < chain.len() && chain[k] == s;
            assert(longer[k] == s);
        } else {
            assert(longer[v.size as int] == s);
        }
    }
    assert forall|k: int| 0 <= k < w.size - 1 implies (#[trigger] w.slots[longer[k]]).b == w.slots[longer[k
        + 1]].a by {
        if k < v.size - 1 {
            assert(v.slots[chain[k]].b == v.slots[chain[k + 1]].a);
        }
    }
    assert(w.tiles(longer, lo, b));
}

/// The chain `chain` with the slot `fresh` put in at position `at`.
pub open spec fn with_link(chain: Seq<int>, at: int, fresh: int) -> Seq<int> {
    Seq::new(
        chain.len() + 1,
        |k: int|
            if k < at {
                chain[k]
            } else if k == at {
                fresh
            } else {
                chain[k - 1]
            },
    )
}

/// A chain that lists the slots below `n` once each, with `n` put in, lists the
/// slots up to `n` once each.
pub proof fn lemma_with_link_lists(chain: Seq<int>, at: int, n: int)
    requires
        chain.len() == n,
        0 <= at <= n,
        forall|k: int| 0 <= k < n ==> 0 <= #[trigger] chain[k] < n,
        forall|j: int, k: int| 0 <= j < k < n ==> chain[j] != chain[k],
        forall|s: int| 0 <= s < n ==> chain.contains(s),
    ensures
        forall|k: int| 0 <= k < n + 1 ==> 0 <= #[trigger] with_link(chain, at, n)[k] < n + 1,
        forall|j: int, k: int| 0 <= j < k < n + 1 ==> with_link(chain, at, n)[j] != with_link(chain, at, n)[k],
        forall|s: int| 0 <= s < n + 1 ==> with_link(chain, at, n).contains(s),
{
    let longer = with_link(chain, at, n);
    assert forall|s: int| 0 <= s < n + 1 implies longer.contains(s) by {
        if s < n {
            assert(chain.contains(s));
            let k = choose|k: int| 0 <= k < chain.len() && chain[k] == s;
            if k < at {
                assert(longer[k] == s);
            } else {
                assert(longer[k + 1] == s);
            }
        } else {
            assert(longer[at] == s);
        }
    }
    assert forall|j: int, k: int| 0 <= j < k < n + 1 implies longer[j] != longer[k] by {
        let jj = if j < at {
            j
        } else {
            j - 1
        };
        let kk = if k < at {
            k
        } else {
            k - 1
        };
        if j != at && k != at {
            assert(chain[jj] != chain[kk]);
        } else if j == at {
            assert(longer[k] == chain[kk]);
        } else {
            assert(longer[j] == chain[jj]);
        }
    }
}

/// Bisection keeps the tiling: when the current subinterval is replaced by two
/// halves that start where it starts, meet, and end where it ends, the active
/// subintervals tile the same range as before.
pub proof fn lemma_bisection_partitions(
    v: WorkspaceView,
    lo: Double,
    hi: Double,
    a1: Double,
    b1: Double,
    area1: Double,
    error1: Double,
    a2: Double,
    b2: Double,
    area2: Double,
    error2: Double,
)
    requires
        v.allocated(),
        1 <= v.size < v.limit,
        v.current < v.size,
        v.partitions(lo, hi),
        a1 == v.slots[v.current as int].a,
        b1 == a2,
        b2 == v.slots[v.current as int].b,
    ensures
        v.bisected(a1, b1, area1, error1, a2, b2, area2, error2).partitions(lo, hi),
        v.bisected(a1, b1, area1, error1, a2, b2, area2, error2).reordered().partitions(lo, hi),
{
    let chain = choose|chain: Seq<int>| v.tiles(chain, lo, hi);
    let w = v.bisected(a1, b1, area1, error1, a2, b2, area2, error2);
    let parent = v.current as int;
    let n = v.size as int;
    assert(chain.contains(parent));
    let pos = choose|k: int| 0 <= k < chain.len() && chain[k] == parent;
    let upper_first = error2.gt_spec(error1);
    let at = if upper_first {
        pos
    } else {
        pos + 1
    };
    let longer = with_link(chain, at, n);
    lemma_with_link_lists(chain, at, n);
    // every slot but the parent's and the newest holds what it held
    assert forall|k: int| 0 <= k < n && k != pos implies w.slots[#[trigger] chain[k]] == v.slots[chain[k]] by {
        assert(chain[k] != chain[pos]);
    }
    let low = if upper_first {
        n
    } else {
        parent
    };
    let high = if upper_first {
        parent
    } else {
        n
    };
    assert(w.slots[low].a == a1 && w.slots[low].b == b1);
    assert(w.slots[high].a == a2 && w.slots[high].b == b2);
    assert(longer[pos] == low && longer[pos + 1] == high);
    assert forall|k: int| 0 <= k < n + 1 && k != pos && k != pos + 1 implies w.slots[#[trigger] longer[k]]
        == v.slots[chain[if k < pos {
        k
    } else {
        k - 1
    }]] by {}
    assert(w.slots[longer[0]].a == lo) by {
        if pos == 0 {
        } else {
            assert(w.slots[longer[0]] == v.slots[chain[0]]);
        }
    }
    assert(w.slots[longer[n]].b == hi) by {
        if pos == n - 1 {
        } else {
            assert(w.slots[longer[n]] == v.slots[chain[n - 1]]);
        }
    }
    assert forall|k: int| 0 <= k < n implies (#[trigger] w.slots[longer[k]]).b == w.slots[longer[k + 1]].a by {
        if k + 1 < pos {
            assert(w.slots[longer[k]] == v.slots[chain[k]]);
            assert(w.slots[longer[k + 1]] == v.slots[chain[k + 1]]);
            assert(v.slots[chain[k]].b == v.slots[chain[k + 1]].a);
        } else if k + 1 == pos {
            assert(w.slots[longer[k]] == v.slots[chain[k]]);
            assert(v.slots[chain[k]].b == v.slots[chain[k + 1]].a);
        } else if k == pos {
        } else if k == pos + 1 {
            assert(w.slots[longer[k + 1]] == v.slots[chain[k]]);
            assert(v.slots[chain[k - 1]].b == v.slots[chain[k]].a);
        } else {
            assert(w.slots[longer[k]] == v.slots[chain[k - 1]]);
            assert(w.slots[longer[k + 1]] == v.slots[chain[k]]);
            assert(v.slots[chain[k - 1]].b == v.slots[chain[k]].a);
        }
    }
    assert(w.tiles(longer, lo, hi));
    let r = w.reordered();
    assert(r.slots == w.slots && r.size == w.size);
    lemma_partitions_by_slots(w, r, lo, hi);
}

/// Bisection replaces the error of the parent by the errors of its halves and
/// leaves every other error as it was: the larger one stands in the parent's
/// slot, the other one in the newest slot.
pub proof fn lemma_bisection_replaces_parent(
    v: WorkspaceView,
    a1: Double,
    b1: Double,
    area1: Double,
    error1: Double,
    a2: Double,
    b2: Double,
    area2: Double,
    error2: Double,
)
    requires
        v.wf(),
        1 <= v.size < v.limit,
    ensures
        ({
            let w = v.bisected(a1, b1, area1, error1, a2, b2, area2, error2).reordered();
            &&& w.size == v.size + 1
            &&& forall|k: int| 0 <= k < v.size && k != v.current ==> #[trigger] w.slots[k] == v.slots[k]
            &&& w.slots[v.current as int].error == (if error2.gt_spec(error1) {
                error2
            } else {
                error1
            })
            &&& w.slots[v.size as int].error == (if error2.gt_spec(error1) {
                error1
            } else {
                error2
            })
            &&& w.slots[v.current as int].level == v.slots[v.current as int].level + 1
            &&& w.slots[v.size as int].level == v.slots[v.current as int].level + 1
        }),
{
}

/// Bisection keeps every bound: when the current subinterval is replaced by two
/// halves that start where it starts and end where it ends, each bound of an
/// active subinterval is still one afterwards.
pub proof fn lemma_bisection_keeps_bounds(
    v: WorkspaceView,
    a1: Double,
    b1: Double,
    area1: Double,
    error1: Double,
    a2: Double,
    b2: Double,
    area2: Double,
    error2: Double,
)
    requires
        v.allocated(),
        1 <= v.size < v.limit,
        v.current < v.size,
        a1 == v.slots[v.current as int].a,
        b2 == v.slots[v.current as int].b,
    ensures
        v.bisected(a1, b1, area1, error1, a2, b2, area2, error2).reordered().keeps_bounds_of(v),
{
    let u = v.bisected(a1, b1, area1, error1, a2, b2, area2, error2);
    let w = u.reordered();
    assert(w.slots == u.slots && w.size == u.size);
    assert forall|x: Double| v.has_bound(x) implies #[trigger] w.has_bound(x) by {
        let k = choose|k: int| 0 <= k < v.size && ((#[trigger] v.slots[k]).a == x || v.slots[k].b == x);
        if k != v.current {
            assert(w.slots[k] == v.slots[k]);
        } else if error2.gt_spec(error1) {
            if v.slots[k].a == x {
                assert(w.slots[v.size as int].a == x);
            } else {
                assert(w.slots[k].b == x);
            }
        } else {
            if v.slots[k].a == x {
                assert(w.slots[k].a == x);
            } else {
                assert(w.slots[v.size as int].b == x);
            }
        }
    }
}

/// A workspace with the same active subintervals has the same bounds.
pub proof fn lemma_bounds_by_slots(v: WorkspaceView, w: WorkspaceView)
    requires
        v.slots == w.slots,
        v.size == w.size,
    ensures
        w.keeps_bounds_of(v),
{
    assert forall|x: Double| v.has_bound(x) implies #[trigger] w.has_bound(x) by {
        let k = choose|k: int| 0 <= k < v.size && ((#[trigger] v.slots[k]).a == x || v.slots[k].b == x);
        assert(w.slots[k].a == x || w.slots[k].b == x);
    }
}

} // verus!
