//! Detection of Hall intervals over the bounds of a set of integer decisions.
//!
//! A set of decisions whose domains lie in an interval of as many values as there are
//! decisions in the set (a Hall interval) uses up every value of the interval, so that any
//! other decision that starts inside the interval starts at its end instead.
//!
//! The decisions are visited by increasing upper bound. The critical bounds are grouped by
//! two forests of pointers: one tells which capacities are used up, the other which Hall
//! intervals have been found.

use vstd::prelude::*;

use crate::solver::view::IntVal;

verus! {

/// Follow the pointers from `s` for as long as they increase.
pub open spec fn climb(transition: Seq<usize>, s: int) -> int
    decreases transition.len() - s,
{
    if 0 <= s < transition.len() && s < transition[s] < transition.len() {
        climb(transition, transition[s] as int)
    } else {
        s
    }
}

/// Whether the path from `start` reaches `end` in `steps` steps, when each pointer on the way
/// is replaced by `to` once it was followed.
pub open spec fn path_ends(
    transition: Seq<usize>,
    start: int,
    end: int,
    to: usize,
    steps: nat,
) -> bool
    decreases steps,
{
    if start == end {
        steps == 0
    } else {
        &&& steps > 0
        &&& 0 <= start < transition.len()
        &&& path_ends(
            transition.update(start, to),
            transition[start] as int,
            end,
            to,
            (steps - 1) as nat,
        )
    }
}

/// The pointers after each one on the path from `start` to `end` was replaced by `to`.
pub open spec fn path_updated(
    transition: Seq<usize>,
    start: int,
    end: int,
    to: usize,
    steps: nat,
) -> Seq<usize>
    decreases steps,
{
    if start == end || steps == 0 {
        transition
    } else {
        path_updated(
            transition.update(start, to),
            transition[start] as int,
            end,
            to,
            (steps - 1) as nat,
        )
    }
}

/// Follows the path given by `transition` from `start` until it stops increasing.
pub fn path_max(transition: &Vec<usize>, start: usize) -> (r: usize)
    requires
        start < transition.len(),
        forall|k: int| 0 <= k < transition.len() ==> #[trigger] transition[k] < transition.len(),
    ensures
        r == climb(transition@, start as int),
        start <= r < transition.len(),
{
    let mut cur: usize = start;
    while transition[cur] > cur
        invariant
            start <= cur < transition.len(),
            climb(transition@, start as int) == climb(transition@, cur as int),
            forall|k: int|
                0 <= k < transition.len() ==> #[trigger] transition[k] < transition.len(),
        decreases transition.len() - cur,
    {
        cur = transition[cur];
    }
    cur
}

/// Sets every pointer on the path of `transition` from `start` to `end` to `to`.
pub fn path_set(transition: &mut Vec<usize>, start: usize, end: usize, to: usize)
    requires
        exists|steps: nat| path_ends(old(transition)@, start as int, end as int, to, steps),
    ensures
        forall|steps: nat| #[trigger]
            path_ends(old(transition)@, start as int, end as int, to, steps)
                ==> final(transition)@ == path_updated(
                old(transition)@,
                start as int,
                end as int,
                to,
                steps,
            ),
{
    let ghost total: nat = choose|steps: nat|
        path_ends(old(transition)@, start as int, end as int, to, steps);
    let ghost mut left: nat = total;
    proof {
        lemma_path_steps_unique(transition@, start as int, end as int, to);
    }
    let mut cur: usize = start;
    while cur != end
        invariant
            path_ends(transition@, cur as int, end as int, to, left),
            path_ends(old(transition)@, start as int, end as int, to, total),
            path_updated(transition@, cur as int, end as int, to, left) == path_updated(
                old(transition)@,
                start as int,
                end as int,
                to,
                total,
            ),
        decreases left,
    {
        let last: usize = cur;
        cur = transition[cur];
        transition.set(last, to);
        proof {
            left = (left - 1) as nat;
        }
    }
    proof {
        assert forall|steps: nat| #[trigger]
            path_ends(old(transition)@, start as int, end as int, to, steps) implies steps
            == total by {
            lemma_path_steps_unique(old(transition)@, start as int, end as int, to);
        }
    }
}

/// The number of steps of a path is determined by its ends.
proof fn lemma_path_steps_unique(transition: Seq<usize>, start: int, end: int, to: usize)
    ensures
        forall|k: nat, l: nat|
            path_ends(transition, start, end, to, k) && path_ends(transition, start, end, to, l)
                ==> k == l,
{
    assert forall|k: nat, l: nat|
        path_ends(transition, start, end, to, k) && path_ends(
            transition,
            start,
            end,
            to,
            l,
        ) implies k == l by {
        lemma_path_steps_equal(transition, start, end, to, k, l);
    }
}

proof fn lemma_path_steps_equal(
    transition: Seq<usize>,
    start: int,
    end: int,
    to: usize,
    k: nat,
    l: nat,
)
    requires
        path_ends(transition, start, end, to, k),
        path_ends(transition, start, end, to, l),
    ensures
        k == l,
    decreases k,
{
    if start != end {
        lemma_path_steps_equal(
            transition.update(start, to),
            transition[start] as int,
            end,
            to,
            (k - 1) as nat,
            (l - 1) as nat,
        );
    }
}


/// The number of the first `n` decisions that start at a rank in `lo..hi`.
pub open spec fn starts(x: Seq<int>, n: int, lo: int, hi: int) -> int
    decreases n,
{
    if n <= 0 {
        0
    } else {
        starts(x, n - 1, lo, hi) + if lo <= x[n - 1] < hi {
            1int
        } else {
            0int
        }
    }
}

/// The number of the first `n` decisions whose ranks lie between `lo` and `hi`.
pub open spec fn within(x: Seq<int>, y: Seq<int>, n: int, lo: int, hi: int) -> int
    decreases n,
{
    if n <= 0 {
        0
    } else {
        within(x, y, n - 1, lo, hi) + if lo <= x[n - 1] && y[n - 1] <= hi {
            1int
        } else {
            0int
        }
    }
}

proof fn lemma_starts_split(x: Seq<int>, n: int, lo: int, mid: int, hi: int)
    requires
        lo <= mid <= hi,
    ensures
        starts(x, n, lo, hi) == starts(x, n, lo, mid) + starts(x, n, mid, hi),
    decreases n,
{
    if n > 0 {
        lemma_starts_split(x, n - 1, lo, mid, hi);
    }
}

proof fn lemma_starts_nonnegative(x: Seq<int>, n: int, lo: int, hi: int)
    ensures
        starts(x, n, lo, hi) >= 0,
        lo >= hi ==> starts(x, n, lo, hi) == 0,
    decreases n,
{
    if n > 0 {
        lemma_starts_nonnegative(x, n - 1, lo, hi);
    }
}

proof fn lemma_within_nonnegative(x: Seq<int>, y: Seq<int>, n: int, lo: int, hi: int)
    ensures
        within(x, y, n, lo, hi) >= 0,
    decreases n,
{
    if n > 0 {
        lemma_within_nonnegative(x, y, n - 1, lo, hi);
    }
}

/// Fewer decisions lie within an interval than start in it, and the numbers agree where no
/// decision ends after the interval.
proof fn lemma_within_starts(x: Seq<int>, y: Seq<int>, n: int, lo: int, hi: int)
    requires
        n <= x.len(),
        x.len() == y.len(),
        forall|i: int| 0 <= i < n ==> #[trigger] x[i] < y[i],
    ensures
        within(x, y, n, lo, hi) <= starts(x, n, lo, hi),
        (forall|i: int| 0 <= i < n ==> #[trigger] y[i] <= hi) ==> within(x, y, n, lo, hi)
            == starts(x, n, lo, hi),
    decreases n,
{
    if n > 0 {
        assert(x[n - 1] < y[n - 1]);
        lemma_within_starts(x, y, n - 1, lo, hi);
    }
}

/// The count within an interval splits by where the decisions start.
proof fn lemma_within_split(x: Seq<int>, y: Seq<int>, n: int, lo: int, mid: int, hi: int)
    requires
        lo <= mid,
    ensures
        within(x, y, n, lo, hi) <= starts(x, n, lo, mid) + within(x, y, n, mid, hi),
        within(x, y, n, mid, hi) <= within(x, y, n, lo, hi),
    decreases n,
{
    if n > 0 {
        lemma_within_split(x, y, n - 1, lo, mid, hi);
    }
}

/// No decision starts outside the range of ranks that the first `n` decisions use.
proof fn lemma_starts_beyond(x: Seq<int>, n: int, lo: int, hi: int, top: int)
    requires
        n <= x.len(),
        lo <= top <= hi,
        forall|i: int| 0 <= i < n ==> #[trigger] x[i] < top,
    ensures
        starts(x, n, lo, hi) == starts(x, n, lo, top),
    decreases n,
{
    if n > 0 {
        assert(x[n - 1] < top);
        lemma_starts_beyond(x, n - 1, lo, hi, top);
    }
}

/// The critical bounds and the ranks of the decisions by increasing upper bound: `bounds` is
/// strictly increasing, and its last step is wider than one value.
#[verifier::opaque]
pub open spec fn ranked(bounds: Seq<int>, x: Seq<int>, y: Seq<int>, m: int) -> bool {
    &&& m >= 2
    &&& bounds.len() > m
    &&& forall|k: int, l: int| 0 <= k < l <= m ==> #[trigger] bounds[k] < #[trigger] bounds[l]
    &&& bounds[m] - bounds[m - 1] >= 2
    &&& x.len() == y.len()
    &&& forall|i: int| 0 <= i < x.len() ==> 1 <= #[trigger] x[i] < y[i] < m
    &&& forall|i: int, j: int| 0 <= i <= j < y.len() ==> #[trigger] y[i] <= #[trigger] y[j]
}

/// Pointers `t` on `0..=m` form consecutive groups, each with its largest member as `root`.
/// A member points towards its root, and a root to the root of the group before it.
pub open spec fn grouped(t: Seq<usize>, root: Seq<int>, m: int) -> bool {
    &&& m >= 0
    &&& t.len() == m + 1
    &&& root.len() == m + 1
    &&& root[0] == 0
    &&& forall|k: int| 0 <= k <= m ==> k <= #[trigger] root[k] <= m && root[root[k]] == root[k]
    &&& forall|k: int, l: int|
        0 <= k <= l <= m && l <= root[k] ==> #[trigger] root[l] == #[trigger] root[k]
    &&& forall|k: int|
        0 <= k <= m && root[k] > k ==> k < #[trigger] t[k] <= root[k]
    &&& forall|k: int|
        1 <= k <= m && root[k] == k ==> 0 <= #[trigger] t[k] < k && root[t[k] as int] == t[k]
    &&& forall|k: int, l: int|
        1 <= k <= m && root[k] == k && (#[trigger] t[k]) < l <= k ==> #[trigger] root[l] == k
    &&& t[0] == 0
}

proof fn lemma_climb_root(t: Seq<usize>, root: Seq<int>, m: int, s: int)
    requires
        grouped(t, root, m),
        0 <= s <= m,
    ensures
        climb(t, s) == root[s],
    decreases m - s,
{
    if root[s] > s {
        lemma_climb_root(t, root, m, t[s] as int);
    } else if s > 0 {
        assert(t[s] < s);
    }
}

/// The path from a member to its root ends, and shortening it keeps the groups.
proof fn lemma_compress(t: Seq<usize>, root: Seq<int>, m: int, s: int, z: usize) -> (steps: nat)
    requires
        grouped(t, root, m),
        0 <= s <= m,
        z == root[s],
    ensures
        path_ends(t, s, z as int, z, steps),
        grouped(path_updated(t, s, z as int, z, steps), root, m),
        forall|k: int|
            0 <= k <= m && root[k] == k ==> #[trigger] path_updated(t, s, z as int, z, steps)[k]
                == t[k],
    decreases m - s,
{
    if s == z {
        0
    } else {
        let u = t.update(s, z);
        assert(grouped(u, root, m));
        let rest = lemma_compress(u, root, m, t[s] as int, z);
        rest + 1
    }
}

/// Merging the groups between two roots into the group of the larger one: the path down the
/// roots ends, and leaves every root on the way pointing at the larger one.
proof fn lemma_merge_down(
    t: Seq<usize>,
    orig: Seq<usize>,
    root: Seq<int>,
    m: int,
    low: int,
    cur: int,
    high: usize,
) -> (steps: nat)
    requires
        grouped(orig, root, m),
        t.len() == orig.len(),
        forall|k: int| 0 <= k <= cur ==> #[trigger] t[k] == orig[k],
        0 <= low <= cur < high <= m,
        root[low] == low,
        root[cur] == cur,
        root[high as int] == high,
    ensures
        path_ends(t, cur, low, high, steps),
        path_updated(t, cur, low, high, steps).len() == t.len(),
        forall|k: int|
            0 <= k <= m && (k <= low || k > cur || root[k] > k)
                ==> #[trigger] path_updated(t, cur, low, high, steps)[k] == t[k],
        forall|k: int|
            low < k <= cur && root[k] == k ==> #[trigger] path_updated(
                t,
                cur,
                low,
                high,
                steps,
            )[k] == high,
    decreases cur,
{
    if cur == low {
        0
    } else {
        let u = t.update(cur, high);
        let next = t[cur] as int;
        assert(orig[cur] < cur);
        if next < low {
            assert(root[low] == cur);
        }
        let rest = lemma_merge_down(u, orig, root, m, low, next, high);
        assert forall|k: int| low < k <= cur && root[k] == k implies #[trigger] path_updated(
            t,
            cur,
            low,
            high,
            rest + 1,
        )[k] == high by {
            if next < k < cur {
                assert(root[k] == cur);
            }
        }
        rest + 1
    }
}


/// The capacities after `n` decisions were placed: the root of a group holds what is left of
/// the values of its group, which is never nothing, and every proper prefix of a group is
/// used up.
#[verifier::opaque]
pub open spec fn capacities(
    bounds: Seq<int>,
    x: Seq<int>,
    m: int,
    n: int,
    t: Seq<usize>,
    d: Seq<IntVal>,
    root: Seq<int>,
) -> bool {
    &&& grouped(t, root, m)
    &&& d.len() == m + 1
    &&& forall|z: int|
        1 <= z <= m && root[z] == z ==> #[trigger] d[z] >= 1 && d[z] == bounds[z]
            - bounds[t[z] as int] - starts(x, n, t[z] as int, z)
    &&& forall|k: int| 1 <= k <= m && root[k] > k ==> #[trigger] d[k] == 0
    &&& forall|k: int|
        1 <= k <= m && (#[trigger] root[k]) > k ==> starts(x, n, t[root[k]] as int, k)
            >= bounds[k] - bounds[t[root[k]] as int]
}

/// No interval of ranks holds more of the first `n` decisions than it has values.
#[verifier::opaque]
pub open spec fn uncrowded(
    bounds: Seq<int>,
    x: Seq<int>,
    y: Seq<int>,
    m: int,
    n: int,
) -> bool {
    forall|a: int, b: int|
        0 <= a < b < m ==> #[trigger] within(x, y, n, a, b) <= bounds[b] - bounds[a]
}

/// Merge the group with root `z` into the group after it.
pub open spec fn merged(root: Seq<int>, z: int) -> Seq<int> {
    Seq::new(
        root.len(),
        |k: int|
            if root[k] == z {
                root[z + 1]
            } else {
                root[k]
            },
    )
}

/// Placing a decision in a group with more than one value left.
proof fn lemma_place_kept(
    bounds: Seq<int>,
    x: Seq<int>,
    y: Seq<int>,
    m: int,
    n: int,
    t: Seq<usize>,
    d: Seq<IntVal>,
    root: Seq<int>,
    e: Seq<IntVal>,
)
    requires
        ranked(bounds, x, y, m),
        0 <= n < x.len(),
        capacities(bounds, x, m, n, t, d, root),
        d[root[x[n] + 1]] > 1,
        e == d.update(root[x[n] + 1], (d[root[x[n] + 1]] - 1) as IntVal),
    ensures
        capacities(bounds, x, m, n + 1, t, e, root),
{
    reveal(ranked);
    reveal(capacities);
    let z = root[x[n] + 1];
    assert(x[n] >= 1);
    assert(z > x[n]);
    if t[z] > x[n] {
        assert(root[t[z] as int] == z);
    }
    assert forall|w: int| 1 <= w <= m && root[w] == w implies #[trigger] e[w] >= 1 && e[w]
        == bounds[w] - bounds[t[w] as int] - starts(x, n + 1, t[w] as int, w) by {
        assert(d[w] >= 1);
        if w != z {
            if t[w] <= x[n] < w {
                assert(root[x[n] + 1] == w);
            }
        }
    }
    assert forall|k: int| 1 <= k <= m && (#[trigger] root[k]) > k implies starts(
        x,
        n + 1,
        t[root[k]] as int,
        k,
    ) >= bounds[k] - bounds[t[root[k]] as int] by {}
}

/// Placing a decision that takes the last value of a group.
proof fn lemma_place_merged(
    bounds: Seq<int>,
    x: Seq<int>,
    y: Seq<int>,
    m: int,
    n: int,
    t: Seq<usize>,
    d: Seq<IntVal>,
    root: Seq<int>,
)
    requires
        ranked(bounds, x, y, m),
        0 <= n < x.len(),
        capacities(bounds, x, m, n, t, d, root),
        uncrowded(bounds, x, y, m, n),
        d[root[x[n] + 1]] == 1,
        m < usize::MAX,
    ensures
        ({
            let z = root[x[n] + 1];
            let j = t[z];
            let u = root[z + 1];
            &&& z < m
            &&& u > z
            &&& root[u] == u
            &&& grouped(t.update(z, (z + 1) as usize).update(u, j), merged(root, z), m)
            &&& capacities(
                bounds,
                x,
                m,
                n + 1,
                t.update(z, (z + 1) as usize).update(u, j),
                d.update(z, 0),
                merged(root, z),
            )
        }),
{
    reveal(ranked);
    reveal(capacities);
    reveal(uncrowded);
    let z = root[x[n] + 1];
    let j = t[z];
    assert(1 <= x[n] < y[n] < m);
    assert(z > x[n]);
    if j > x[n] {
        assert(root[j as int] == z);
    }
    assert(d[z] == bounds[z] - bounds[j as int] - starts(x, n, j as int, z));
    assert(starts(x, n + 1, j as int, z) == bounds[z] - bounds[j as int]);
    if z == m {
        assert forall|i: int| 0 <= i < n + 1 implies #[trigger] y[i] <= m - 1 by {
            assert(x[i] < y[i]);
        }
        assert forall|i: int| 0 <= i < n + 1 implies #[trigger] x[i] < m - 1 by {
            assert(x[i] < y[i]);
        }
        lemma_within_starts(x, y, n + 1, j as int, m - 1);
        lemma_starts_beyond(x, n + 1, j as int, m, m - 1);
        assert(within(x, y, n, j as int, m - 1) <= bounds[m - 1] - bounds[j as int]);
        assert(within(x, y, n + 1, j as int, m - 1) <= within(x, y, n, j as int, m - 1) + 1);
        assert(false);
    }
    let u = root[z + 1];
    if t[u] < z {
        assert(root[z] == u);
    }
    if t[u] > z {
        assert(root[t[u] as int] == u);
    }
    assert(t[u] == z);
    let t2 = t.update(z, (z + 1) as usize).update(u, j);
    let root2 = merged(root, z);
    let d2 = d.update(z, 0);
    assert(root[0] == 0);
    assert forall|k: int| 0 <= k <= m implies root2[k] == root[k] || (root[k] == z && root2[k]
        == u) by {}
    assert forall|k: int| j < k <= u && 0 <= k implies #[trigger] root2[k] == u by {
        if k <= z {
            assert(root[k] == z);
        } else {
            assert(root[k] == u);
        }
    }
    assert(grouped(t2, root2, m)) by {
        assert forall|k: int| 0 <= k <= m implies k <= #[trigger] root2[k] <= m
            && root2[root2[k]] == root2[k] by {
            assert(k <= root[k] <= m && root[root[k]] == root[k]);
        }
        assert forall|k: int, l: int| 0 <= k <= l <= m && l <= root2[k] implies #[trigger] root2[l]
            == #[trigger] root2[k] by {
            assert(k <= root[k]);
            assert(l <= root[l]);
            if l <= root[k] {
                assert(root[l] == root[k]);
            } else {
                assert(root[k] == z);
                assert(j < l);
            }
        }
        assert forall|k: int| 0 <= k <= m && root2[k] > k implies k < #[trigger] t2[k]
            <= root2[k] by {
            assert(root[k] > k ==> k < t[k] <= root[k]);
        }
        assert forall|k: int| 1 <= k <= m && root2[k] == k implies 0 <= #[trigger] t2[k] < k
            && root2[t2[k] as int] == t2[k] by {
            assert(k <= root[k]);
            assert(root[k] == k);
            assert(0 <= t[k] < k && root[t[k] as int] == t[k]);
            if k == u {
                assert(root[j as int] == j);
            } else {
                if t[k] == z {
                    assert(root[z + 1] == k);
                }
            }
        }
        assert forall|k: int, l: int|
            1 <= k <= m && root2[k] == k && (#[trigger] t2[k]) < l <= k implies #[trigger] root2[l]
            == k by {
            assert(k <= root[k]);
            assert(root[k] == k);
            if k != u {
                assert(root[l] == k);
            }
        }
    }
    assert forall|w: int| 1 <= w <= m && root2[w] == w implies #[trigger] d2[w] >= 1 && d2[w]
        == bounds[w] - bounds[t2[w] as int] - starts(x, n + 1, t2[w] as int, w) by {
        assert(w <= root[w]);
        assert(root[w] == w);
        assert(d[w] >= 1);
        if w == u {
            lemma_starts_split(x, n + 1, j as int, z, u);
            assert(starts(x, n + 1, z, u) == starts(x, n, z, u));
        } else {
            if t[w] <= x[n] < w {
                assert(root[x[n] + 1] == w);
            }
        }
    }
    assert forall|k: int| 1 <= k <= m && root2[k] > k implies #[trigger] d2[k] == 0 by {
        if root[k] == k {
            assert(k == z);
        }
        assert(root[k] > k ==> d[k] == 0);
    }
    assert forall|k: int| 1 <= k <= m && (#[trigger] root2[k]) > k implies starts(
        x,
        n + 1,
        t2[root2[k]] as int,
        k,
    ) >= bounds[k] - bounds[t2[root2[k]] as int] by {
        if root[k] > k {
            assert(starts(x, n, t[root[k]] as int, k) >= bounds[k] - bounds[t[root[k]] as int]);
            if root2[k] == u {
                if root[k] == u {
                    if k < z {
                        assert(root[z] == u);
                    }
                    lemma_starts_split(x, n + 1, j as int, z, k);
                }
            } else {
                assert(root2[k] == root[k]);
            }
        } else {
            assert(k == z);
        }
    }
}


/// The Hall intervals of the first `n` decisions: every group of `h` that has more than its
/// root is a Hall interval, and every Hall interval lies in such a group.
#[verifier::opaque]
pub open spec fn halls(
    bounds: Seq<int>,
    x: Seq<int>,
    y: Seq<int>,
    m: int,
    n: int,
    root: Seq<int>,
    h: Seq<usize>,
    hroot: Seq<int>,
) -> bool {
    &&& grouped(h, hroot, m)
    &&& forall|k: int|
        1 <= k <= m && (#[trigger] hroot[k]) > k ==> {
            &&& within(x, y, n, h[hroot[k]] + 1, hroot[k]) == bounds[hroot[k]]
                - bounds[h[hroot[k]] + 1]
            &&& n > 0
            &&& hroot[k] <= y[n - 1]
            &&& root[k + 1] > k + 1
        }
    &&& forall|a: int, b: int, k: int|
        1 <= a <= k < b < m && #[trigger] within(x, y, n, a, b) == bounds[b] - bounds[a]
            ==> #[trigger] hroot[k] >= b
}

/// The roots after the members of `lo..=hi` were merged.
pub open spec fn covered(root: Seq<int>, lo: int, hi: int) -> Seq<int> {
    Seq::new(
        root.len(),
        |k: int|
            if lo <= k <= hi {
                hi
            } else {
                root[k]
            },
    )
}

proof fn lemma_cover(h: Seq<usize>, hroot: Seq<int>, m: int, j: int, y: usize) -> (steps: nat)
    requires
        grouped(h, hroot, m),
        1 <= j <= y <= m,
        hroot[j - 1] == j - 1,
        hroot[y as int] == y,
    ensures
        path_ends(h, h[y as int] as int, j - 1, y, steps),
        path_updated(h, h[y as int] as int, j - 1, y, steps).len() == m + 1,
        ({
            let g = path_updated(h, h[y as int] as int, j - 1, y, steps).update(
                y as int,
                (j - 1) as usize,
            );
            &&& grouped(g, covered(hroot, j, y as int), m)
            &&& g[y as int] == j - 1
            &&& forall|k: int| 0 <= k <= m && (k < j || k > y) ==> #[trigger] g[k] == h[k]
        }),
{
    let cur = h[y as int] as int;
    assert(0 <= cur < y && hroot[cur] == cur);
    if cur < j - 1 {
        assert(hroot[j - 1] == y);
    }
    let steps = lemma_merge_down(h, h, hroot, m, j - 1, cur, y);
    let f = path_updated(h, cur, j - 1, y, steps);
    let g = f.update(y as int, (j - 1) as usize);
    let r = covered(hroot, j, y as int);
    assert forall|k: int| 0 <= k <= m && (k < j || k > y) implies #[trigger] g[k] == h[k] by {
        assert(f[k] == h[k]);
    }
    assert forall|k: int| 0 <= k <= y implies #[trigger] hroot[k] <= y by {
        if hroot[k] > y {
            assert(hroot[y as int] == hroot[k]);
        }
    }
    assert forall|k: int| 0 <= k < j implies #[trigger] hroot[k] < j by {
        if hroot[k] > j - 1 {
            assert(hroot[j - 1] == hroot[k]);
        }
    }
    assert forall|k: int| 0 <= k <= m implies k <= #[trigger] r[k] <= m && r[r[k]] == r[k] by {
        assert(k <= hroot[k] <= m && hroot[hroot[k]] == hroot[k]);
    }
    assert forall|k: int, l: int| 0 <= k <= l <= m && l <= r[k] implies #[trigger] r[l]
        == #[trigger] r[k] by {
        assert(k <= hroot[k]);
        if k < j {
            assert(hroot[k] < j);
            assert(hroot[l] == hroot[k]);
        } else if k > y {
            assert(hroot[l] == hroot[k]);
        }
    }
    assert forall|k: int| 0 <= k <= m && r[k] > k implies k < #[trigger] g[k] <= r[k] by {
        assert(hroot[k] > k ==> k < h[k] <= hroot[k]);
        if j <= k < y {
            assert(hroot[k] <= y);
            if hroot[k] == k {
                if cur < k {
                    assert(hroot[k] == y);
                }
                assert(f[k] == y);
            } else {
                assert(k <= hroot[k]);
                assert(f[k] == h[k]);
            }
        }
    }
    assert forall|k: int| 1 <= k <= m && r[k] == k implies 0 <= #[trigger] g[k] < k
        && r[g[k] as int] == g[k] by {
        if k < j || k > y {
            assert(hroot[k] == k);
            assert(0 <= h[k] < k && hroot[h[k] as int] == h[k]);
            if j <= h[k] <= y && h[k] < y {
                assert(hroot[y as int] == k);
            }
        }
    }
    assert forall|k: int, l: int|
        1 <= k <= m && r[k] == k && (#[trigger] g[k]) < l <= k implies #[trigger] r[l] == k by {
        if k < j || k > y {
            assert(hroot[l] == k);
            if l <= y && k > y {
                assert(hroot[l] <= y);
            }
        }
    }
    steps
}

/// Between two roots some value is left.
proof fn lemma_roots_slack(
    bounds: Seq<int>,
    x: Seq<int>,
    y: Seq<int>,
    m: int,
    n: int,
    t: Seq<usize>,
    d: Seq<IntVal>,
    root: Seq<int>,
    lo: int,
    hi: int,
)
    requires
        ranked(bounds, x, y, m),
        capacities(bounds, x, m, n, t, d, root),
        0 <= lo < hi <= m,
        root[lo] == lo,
        root[hi] == hi,
    ensures
        starts(x, n, lo, hi) < bounds[hi] - bounds[lo],
    decreases hi,
{
    reveal(ranked);
    reveal(capacities);
    let mid = t[hi] as int;
    assert(d[hi] >= 1);
    assert(mid < hi && root[mid] == mid);
    if mid < lo {
        assert(root[lo] == hi);
    }
    if mid > lo {
        lemma_roots_slack(bounds, x, y, m, n, t, d, root, lo, mid);
        lemma_starts_split(x, n, lo, mid, hi);
    }
}

/// No interval becomes crowded by a decision that does not start in a Hall interval that
/// reaches its end.
proof fn lemma_stays_uncrowded(
    bounds: Seq<int>,
    x: Seq<int>,
    y: Seq<int>,
    m: int,
    n: int,
    root: Seq<int>,
    h: Seq<usize>,
    hroot: Seq<int>,
)
    requires
        ranked(bounds, x, y, m),
        0 <= n < x.len(),
        uncrowded(bounds, x, y, m, n),
        halls(bounds, x, y, m, n, root, h, hroot),
        hroot[x[n]] < y[n],
    ensures
        uncrowded(bounds, x, y, m, n + 1),
{
    reveal(ranked);
    reveal(halls);
    reveal(uncrowded);
    assert forall|a: int, b: int| 0 <= a < b < m implies #[trigger] within(x, y, n + 1, a, b)
        <= bounds[b] - bounds[a] by {
        assert(within(x, y, n, a, b) <= bounds[b] - bounds[a]);
        assert(1 <= x[n] < y[n]);
        if a <= x[n] && y[n] <= b {
            if a == 0 {
                lemma_within_split(x, y, n, 0, 1, b);
                lemma_no_starts(x, n, 0, 1);
                assert(within(x, y, n, 1, b) <= bounds[b] - bounds[1]);
                assert(bounds[0] < bounds[1]);
            } else if within(x, y, n, a, b) == bounds[b] - bounds[a] {
                assert(hroot[x[n]] >= b);
            }
        }
    }
}

proof fn lemma_no_starts(x: Seq<int>, n: int, lo: int, hi: int)
    requires
        n <= x.len(),
        forall|i: int| 0 <= i < n ==> #[trigger] x[i] >= hi,
    ensures
        starts(x, n, lo, hi) == 0,
    decreases n,
{
    if n > 0 {
        assert(x[n - 1] >= hi);
        lemma_no_starts(x, n - 1, lo, hi);
    }
}

/// The first critical bound always keeps its capacity.
proof fn lemma_first_root(
    bounds: Seq<int>,
    x: Seq<int>,
    y: Seq<int>,
    m: int,
    n: int,
    t: Seq<usize>,
    d: Seq<IntVal>,
    root: Seq<int>,
)
    requires
        ranked(bounds, x, y, m),
        0 <= n <= x.len(),
        capacities(bounds, x, m, n, t, d, root),
    ensures
        root[1] == 1,
        forall|z: int| 2 <= z <= m && root[z] == z ==> #[trigger] t[z] >= 1,
{
    reveal(ranked);
    reveal(capacities);
    if root[1] > 1 {
        let w = root[1];
        assert(root[w] == w);
        if t[w] >= 1 {
            assert(root[t[w] as int] == w);
        }
        lemma_no_starts(x, n, 0, 1);
        assert(bounds[0] < bounds[1]);
    }
    assert forall|z: int| 2 <= z <= m && root[z] == z implies #[trigger] t[z] >= 1 by {
        if t[z] < 1 {
            assert(root[1] == z);
        }
    }
}

/// A Hall interval that the decision `n` completes ends at its upper bound and lies in its
/// group, the values of which are used up until there.
proof fn lemma_new_hall(
    bounds: Seq<int>,
    x: Seq<int>,
    y: Seq<int>,
    m: int,
    n: int,
    t: Seq<usize>,
    d: Seq<IntVal>,
    root: Seq<int>,
    a: int,
    b: int,
)
    requires
        ranked(bounds, x, y, m),
        0 <= n < x.len(),
        capacities(bounds, x, m, n + 1, t, d, root),
        uncrowded(bounds, x, y, m, n + 1),
        1 <= a <= x[n],
        y[n] <= b < m,
        within(x, y, n + 1, a, b) == bounds[b] - bounds[a],
    ensures
        b == y[n],
        t[root[x[n] + 1]] <= a,
        d[root[x[n] + 1]] == bounds[root[x[n] + 1]] - bounds[b],
{
    reveal(ranked);
    reveal(capacities);
    reveal(uncrowded);
    let c = n + 1;
    let e = y[n];
    assert(1 <= x[n] < y[n] < m);
    assert forall|i: int| 0 <= i < c implies #[trigger] y[i] <= e by {}
    assert forall|i: int| 0 <= i < c implies #[trigger] x[i] < e by {
        assert(x[i] < y[i]);
        assert(y[i] <= e);
    }
    lemma_within_starts(x, y, c, a, b);
    lemma_within_starts(x, y, c, a, e);
    lemma_starts_beyond(x, c, a, b, e);
    assert(within(x, y, c, a, e) <= bounds[e] - bounds[a]);
    assert(b == e);
    let z = root[x[n] + 1];
    let j = t[z] as int;
    assert(d[z] >= 1);
    if j > x[n] {
        assert(root[j] == z);
    }
    let g = root[a + 1];
    let low = t[g] as int;
    if low > a {
        assert(root[low] == g);
    }
    assert(root[low] == low);
    if g > z {
        assert(root[x[n] + 1] == g);
    }
    assert(starts(x, c, low, a) >= bounds[a] - bounds[low]) by {
        if low < a {
            assert(root[a] == g);
        } else {
            lemma_starts_nonnegative(x, c, low, a);
        }
    }
    lemma_starts_split(x, c, low, a, e);
    assert(starts(x, c, low, e) >= bounds[e] - bounds[low]);
    if z <= e {
        lemma_roots_slack(bounds, x, y, m, c, t, d, root, low, z);
        lemma_starts_split(x, c, low, z, e);
        lemma_within_starts(x, y, c, z, e);
        if z < e {
            assert(within(x, y, c, z, e) <= bounds[e] - bounds[z]);
        } else {
            lemma_starts_nonnegative(x, c, z, e);
        }
        assert(false);
    }
    if a < j {
        if g > j {
            assert(root[j] == g);
        }
        lemma_roots_slack(bounds, x, y, m, c, t, d, root, low, j);
        lemma_starts_split(x, c, low, j, e);
        lemma_within_starts(x, y, c, j, e);
        assert(within(x, y, c, j, e) <= bounds[e] - bounds[j]);
        assert(false);
    }
    assert(g == z);
    lemma_within_starts(x, y, c, j, e);
    assert(within(x, y, c, j, e) <= bounds[e] - bounds[j]);
    lemma_starts_beyond(x, c, j, z, e);
}

/// The Hall intervals are kept by a decision that completes none.
proof fn lemma_halls_kept(
    bounds: Seq<int>,
    x: Seq<int>,
    y: Seq<int>,
    m: int,
    n: int,
    t: Seq<usize>,
    d: Seq<IntVal>,
    root: Seq<int>,
    old_root: Seq<int>,
    h: Seq<usize>,
    hroot: Seq<int>,
)
    requires
        ranked(bounds, x, y, m),
        0 <= n < x.len(),
        capacities(bounds, x, m, n + 1, t, d, root),
        uncrowded(bounds, x, y, m, n + 1),
        halls(bounds, x, y, m, n, old_root, h, hroot),
        forall|k: int| 0 <= k <= m ==> #[trigger] root[k] >= old_root[k],
        hroot[x[n]] < y[n],
        d[root[x[n] + 1]] != bounds[root[x[n] + 1]] - bounds[y[n]],
    ensures
        halls(bounds, x, y, m, n + 1, root, h, hroot),
{
    reveal(ranked);
    reveal(capacities);
    reveal(halls);
    reveal(uncrowded);
    lemma_runs_kept(bounds, x, y, m, n, root, old_root, h, hroot);
    assert forall|a: int, b: int, k: int|
        1 <= a <= k < b < m && #[trigger] within(x, y, n + 1, a, b) == bounds[b]
            - bounds[a] implies #[trigger] hroot[k] >= b by {
        if a <= x[n] && y[n] <= b {
            lemma_new_hall(bounds, x, y, m, n, t, d, root, a, b);
        } else {
            assert(within(x, y, n, a, b) == bounds[b] - bounds[a]);
        }
    }
}

proof fn lemma_runs_kept(
    bounds: Seq<int>,
    x: Seq<int>,
    y: Seq<int>,
    m: int,
    n: int,
    root: Seq<int>,
    old_root: Seq<int>,
    h: Seq<usize>,
    hroot: Seq<int>,
)
    requires
        ranked(bounds, x, y, m),
        0 <= n < x.len(),
        halls(bounds, x, y, m, n, old_root, h, hroot),
        forall|k: int| 0 <= k <= m ==> #[trigger] root[k] >= old_root[k],
        hroot[x[n]] < y[n],
    ensures
        forall|k: int|
            1 <= k <= m && (#[trigger] hroot[k]) > k ==> {
                &&& within(x, y, n + 1, h[hroot[k]] + 1, hroot[k]) == bounds[hroot[k]]
                    - bounds[h[hroot[k]] + 1]
                &&& hroot[k] <= y[n]
                &&& root[k + 1] > k + 1
            },
{
    reveal(ranked);
    reveal(halls);
    assert(1 <= x[n] < y[n] < m);
    assert forall|k: int| 1 <= k <= m && (#[trigger] hroot[k]) > k implies {
        &&& within(x, y, n + 1, h[hroot[k]] + 1, hroot[k]) == bounds[hroot[k]]
            - bounds[h[hroot[k]] + 1]
        &&& hroot[k] <= y[n]
        &&& root[k + 1] > k + 1
    } by {
        let w = hroot[k];
        let a = h[w] + 1;
        assert(hroot[w] == w);
        assert(y[n - 1] <= y[n]);
        assert(root[k + 1] >= old_root[k + 1]);
        if a <= x[n] && y[n] <= w {
            assert(hroot[x[n]] == w);
        }
    }
}

/// A decision that uses up the values of its group until its upper bound completes a Hall
/// interval, which is added to the groups.
proof fn lemma_halls_covered(
    bounds: Seq<int>,
    x: Seq<int>,
    y: Seq<int>,
    m: int,
    n: int,
    t: Seq<usize>,
    d: Seq<IntVal>,
    root: Seq<int>,
    old_root: Seq<int>,
    h: Seq<usize>,
    hroot: Seq<int>,
) -> (steps: nat)
    requires
        ranked(bounds, x, y, m),
        0 <= n < x.len(),
        m < usize::MAX,
        capacities(bounds, x, m, n + 1, t, d, root),
        uncrowded(bounds, x, y, m, n + 1),
        halls(bounds, x, y, m, n, old_root, h, hroot),
        forall|k: int| 0 <= k <= m ==> #[trigger] root[k] >= old_root[k],
        hroot[x[n]] < y[n],
        d[root[x[n] + 1]] == bounds[root[x[n] + 1]] - bounds[y[n]],
    ensures
        ({
            let e = y[n] as usize;
            let j = t[root[x[n] + 1]];
            let g = path_updated(h, h[y[n]] as int, j - 1, e, steps).update(
                y[n],
                (j - 1) as usize,
            );
            &&& 1 <= j <= x[n]
            &&& y[n] < root[x[n] + 1]
            &&& path_ends(h, h[y[n]] as int, j - 1, e, steps)
            &&& path_updated(h, h[y[n]] as int, j - 1, e, steps).len() == m + 1
            &&& halls(bounds, x, y, m, n + 1, root, g, covered(hroot, j as int, y[n]))
            &&& hroot[j - 1] == j - 1
            &&& g.len() == m + 1
            &&& g[y[n]] == j - 1
            &&& forall|k: int| 0 <= k <= m && (k < j || k > y[n]) ==> #[trigger] g[k] == h[k]
        }),
{
    reveal(ranked);
    reveal(capacities);
    reveal(halls);
    reveal(uncrowded);
    let e = y[n];
    let z = root[x[n] + 1];
    let j = t[z] as int;
    assert(1 <= x[n] < y[n] < m);
    assert(d[z] >= 1);
    assert(root[z] == z);
    assert(e < z) by {
        if z < e {
            assert(bounds[z] < bounds[e]);
        }
    }
    if j > x[n] {
        assert(root[j] == z);
    }
    lemma_first_root(bounds, x, y, m, n + 1, t, d, root);
    assert(j >= 1);
    assert(root[j] == j);
    if hroot[j - 1] > j - 1 {
        if j - 1 >= 1 {
            assert(root[j] >= old_root[j]);
        }
        assert(false);
    }
    if hroot[e] > e {
        assert(y[n - 1] <= y[n]);
        assert(false);
    }
    assert(e <= m < usize::MAX);
    let steps = lemma_cover(h, hroot, m, j, e as usize);
    let g = path_updated(h, h[e] as int, j - 1, e as usize, steps).update(e, (j - 1) as usize);
    let r = covered(hroot, j, e);
    lemma_runs_kept(bounds, x, y, m, n, root, old_root, h, hroot);
    assert forall|k: int| 1 <= k <= m && (#[trigger] r[k]) > k implies {
        &&& within(x, y, n + 1, g[r[k]] + 1, r[k]) == bounds[r[k]] - bounds[g[r[k]] + 1]
        &&& r[k] <= y[n]
        &&& root[k + 1] > k + 1
    } by {
        if j <= k <= e {
            assert(g[e] == j - 1);
            assert forall|i: int| 0 <= i < n + 1 implies #[trigger] y[i] <= e by {}
            assert forall|i: int| 0 <= i < n + 1 implies #[trigger] x[i] < e by {
                assert(x[i] < y[i]);
                assert(y[i] <= e);
            }
            lemma_within_starts(x, y, n + 1, j, e);
            lemma_starts_beyond(x, n + 1, j, z, e);
            assert(root[k + 1] == z);
        } else {
            assert(hroot[k] > k);
            let w = hroot[k];
            if k < j && w >= j - 1 {
                assert(hroot[j - 1] == hroot[k]);
            }
            assert(g[w] == h[w]);
        }
    }
    assert forall|a: int, b: int, k: int|
        1 <= a <= k < b < m && #[trigger] within(x, y, n + 1, a, b) == bounds[b]
            - bounds[a] implies #[trigger] r[k] >= b by {
        if a <= x[n] && y[n] <= b {
            lemma_new_hall(bounds, x, y, m, n, t, d, root, a, b);
        } else {
            assert(within(x, y, n, a, b) == bounds[b] - bounds[a]);
            assert(hroot[k] >= b);
            if j <= k <= e && b > e {
                assert(hroot[e] == hroot[k]);
            }
        }
    }
    steps
}


/// A lower bound that a Hall interval forces on a decision.
///
/// The decisions `members` lie in `floor..bound`, which has as many values as there are
/// members, and the decision `var` starts at or after `floor`.
#[derive(Debug)]
pub struct HallPush {
    /// Index of the decision that is pushed out of the interval.
    pub var: usize,
    /// The end of the interval, and new lower bound of the decision.
    pub bound: IntVal,
    /// The start of the interval.
    pub floor: IntVal,
    /// Indices of the decisions that use up the values of the interval.
    pub members: Vec<usize>,
}

impl HallPush {
    /// Whether the members of the interval are as many distinct decisions other than `var` as
    /// the interval has values.
    pub open spec fn tight(self, n: int) -> bool {
        &&& self.var < n
        &&& self.members.len() == self.bound - self.floor
        &&& self.members@.no_duplicates()
        &&& forall|p: int|
            0 <= p < self.members.len() ==> #[trigger] self.members[p] < n && self.members[p]
                != self.var
    }
}

/// The lower bound of `v` after the first `k` pushes.
pub open spec fn pushed(lb: Seq<IntVal>, pushes: Seq<HallPush>, k: int, v: int) -> int
    decreases k,
{
    if k <= 0 {
        lb[v] as int
    } else if pushes[k - 1].var == v {
        pushes[k - 1].bound as int
    } else {
        pushed(lb, pushes, k - 1, v)
    }
}

/// Whether the push with index `k` is justified by the bounds at that point.
pub open spec fn justified(
    lb: Seq<IntVal>,
    ub: Seq<IntVal>,
    pushes: Seq<HallPush>,
    k: int,
) -> bool {
    let push = pushes[k];
    &&& push.tight(lb.len() as int)
    &&& -0x2000_0000_0000_0000 < push.floor < push.bound <= 0x2000_0000_0000_0000
    &&& push.floor <= lb[push.var as int] < push.bound
    &&& forall|p: int|
        0 <= p < push.members.len() ==> push.floor <= pushed(
            lb,
            pushes,
            k,
            #[trigger] push.members[p] as int,
        ) && ub[push.members[p] as int] < push.bound
}

/// The values of a sequence as mathematical integers.
pub open spec fn ints(s: Seq<IntVal>) -> Seq<int> {
    s.map_values(|v: IntVal| v as int)
}

/// The ranks of the decisions in the given order.
pub open spec fn by_order(rank: Seq<usize>, order: Seq<usize>) -> Seq<int> {
    order.map_values(|v: usize| rank[v as int] as int)
}

/// Whether the bounds of each decision are found in `bounds` at its ranks, and `order` lists
/// every decision once, by increasing upper bound.
pub open spec fn ranks(
    bounds: Seq<IntVal>,
    min_rank: Seq<usize>,
    max_rank: Seq<usize>,
    order: Seq<usize>,
    lb: Seq<IntVal>,
    ub: Seq<IntVal>,
) -> bool {
    &&& min_rank.len() == lb.len()
    &&& max_rank.len() == lb.len()
    &&& ub.len() == lb.len()
    &&& order.len() == lb.len()
    &&& order.no_duplicates()
    &&& forall|i: int| 0 <= i < order.len() ==> #[trigger] order[i] < lb.len()
    &&& forall|v: int| 0 <= v < lb.len() ==> #[trigger] order.contains(v as usize)
    &&& ranked(
        ints(bounds),
        by_order(min_rank, order),
        by_order(max_rank, order),
        bounds.len() - 1,
    )
    &&& forall|v: int|
        0 <= v < lb.len() ==> #[trigger] min_rank[v] < max_rank[v] < bounds.len() - 1
    &&& forall|v: int| 0 <= v < lb.len() ==> #[trigger] lb[v] == bounds[min_rank[v] as int]
    &&& forall|v: int| 0 <= v < lb.len() ==> #[trigger] ub[v] + 1 == bounds[max_rank[v] as int]
    &&& forall|k: int|
        0 <= k < bounds.len() ==> -0x2000_0000_0000_0000 < #[trigger] bounds[k]
            <= 0x2000_0000_0000_0000
}

/// The first decision of a chain of positions in `order`.
pub open spec fn head(order: Seq<usize>, chain: Seq<int>, p: int) -> usize {
    if p < chain.len() {
        order[chain[p]]
    } else {
        usize::MAX
    }
}

/// The chains of decisions that were placed at each critical bound, latest first.
#[verifier::opaque]
pub open spec fn chained(
    m: int,
    n: int,
    bucket: Seq<usize>,
    next: Seq<usize>,
    order: Seq<usize>,
    chain: Seq<Seq<int>>,
    slot: Seq<int>,
) -> bool {
    &&& bucket.len() == m + 1
    &&& next.len() == order.len()
    &&& chain.len() == m + 1
    &&& slot.len() == n
    &&& forall|k: int| 0 <= k <= m ==> #[trigger] bucket[k] == head(order, chain[k], 0)
    &&& forall|k: int, p: int|
        0 <= k <= m && 0 <= p < chain[k].len() ==> 0 <= #[trigger] chain[k][p] < n
            && slot[chain[k][p]] == k && next[order[chain[k][p]] as int] == head(
            order,
            chain[k],
            p + 1,
        )
    &&& forall|k: int, p: int, q: int|
        0 <= k <= m && 0 <= p < q < chain[k].len() ==> #[trigger] chain[k][p]
            > #[trigger] chain[k][q]
}

/// How full the chains are, and which decisions they hold.
#[verifier::opaque]
pub open spec fn stocked(
    bounds: Seq<int>,
    x: Seq<int>,
    m: int,
    d: Seq<IntVal>,
    root: Seq<int>,
    chain: Seq<Seq<int>>,
) -> bool {
    &&& forall|k: int|
        1 <= k <= m ==> #[trigger] chain[k].len() + d[k] == bounds[k] - bounds[k - 1]
    &&& forall|k: int, p: int|
        1 <= k <= m && 0 <= p < chain[k].len() ==> root[x[#[trigger] chain[k][p]] + 1] == root[k]
            && 0 <= x[chain[k][p]] < k
}

/// The decisions in the chains of a Hall interval lie within it.
#[verifier::opaque]
pub open spec fn housed(
    x: Seq<int>,
    y: Seq<int>,
    m: int,
    h: Seq<usize>,
    hroot: Seq<int>,
    chain: Seq<Seq<int>>,
) -> bool {
    forall|k: int, l: int, p: int|
        1 <= k <= m && hroot[k] > k && h[#[trigger] hroot[k]] + 1 < l <= hroot[k] && 0 <= p
            < chain[l].len() ==> x[#[trigger] chain[l][p]] >= h[hroot[k]] + 1 && y[chain[l][p]]
            <= hroot[k]
}

proof fn lemma_climb_above(t: Seq<usize>, z: int, v: usize, s: int)
    requires
        0 <= z < s,
        z < t.len(),
    ensures
        climb(t.update(z, v), s) == climb(t, s),
    decreases t.len() - s,
{
    if 0 <= s < t.len() && s < t[s] < t.len() {
        lemma_climb_above(t, z, v, t[s] as int);
    }
}

/// Adding a decision at the front of a chain.
proof fn lemma_chain_push(
    m: int,
    n: int,
    bucket: Seq<usize>,
    next: Seq<usize>,
    order: Seq<usize>,
    chain: Seq<Seq<int>>,
    slot: Seq<int>,
    z: int,
)
    requires
        chained(m, n, bucket, next, order, chain, slot),
        0 <= n < order.len(),
        0 <= z <= m,
        order.no_duplicates(),
        forall|i: int| 0 <= i < order.len() ==> #[trigger] order[i] < order.len(),
    ensures
        chained(
            m,
            n + 1,
            bucket.update(z, order[n]),
            next.update(order[n] as int, bucket[z]),
            order,
            chain.update(z, seq![n] + chain[z]),
            slot.push(z),
        ),
{
    reveal(chained);
    let bucket2 = bucket.update(z, order[n]);
    let next2 = next.update(order[n] as int, bucket[z]);
    let chain2 = chain.update(z, seq![n] + chain[z]);
    let slot2 = slot.push(z);
    assert(order[n] < order.len());
    assert(bucket[z] == head(order, chain[z], 0));
    assert forall|k: int, p: int| 0 <= k <= m && 0 <= p < chain2[k].len() implies 0
        <= #[trigger] chain2[k][p] < n + 1 && slot2[chain2[k][p]] == k
        && next2[order[chain2[k][p]] as int] == head(order, chain2[k], p + 1) by {
        if k == z {
            if p > 0 {
                assert(chain2[k][p] == chain[k][p - 1]);
                let i = chain[k][p - 1];
                assert(0 <= i < n);
                assert(order[i] != order[n]);
                if p < chain[k].len() {
                    assert(chain2[k][p + 1] == chain[k][p]);
                }
            } else {
                assert(chain2[k][0] == n);
                if chain[k].len() > 0 {
                    assert(chain2[k][1] == chain[k][0]);
                }
            }
        } else {
            let i = chain[k][p];
            assert(0 <= i < n);
            assert(order[i] != order[n]);
        }
    }
    assert forall|k: int, p: int, q: int| 0 <= k <= m && 0 <= p < q < chain2[k].len() implies
        #[trigger] chain2[k][p] > #[trigger] chain2[k][q] by {
        if k == z {
            assert(chain2[k][q] == chain[k][q - 1]);
            if p > 0 {
                assert(chain2[k][p] == chain[k][p - 1]);
            } else {
                assert(0 <= chain[k][q - 1] < n);
            }
        }
    }
    assert forall|k: int| 0 <= k <= m implies #[trigger] bucket2[k] == head(order, chain2[k], 0) by {
        assert(bucket[k] == head(order, chain[k], 0));
        if k == z {
            assert(chain2[k][0] == n);
        }
    }
}


/// The chains stay as full as the capacities tell when a decision is placed.
proof fn lemma_stock_push(
    bounds: Seq<int>,
    x: Seq<int>,
    m: int,
    n: int,
    d: Seq<IntVal>,
    root: Seq<int>,
    root2: Seq<int>,
    chain: Seq<Seq<int>>,
    z: int,
)
    requires
        stocked(bounds, x, m, d, root, chain),
        chain.len() == m + 1,
        d.len() == m + 1,
        1 <= z <= m,
        d[z] >= 1,
        0 <= x[n] < z,
        root[x[n] + 1] == root[z],
        forall|k: int, l: int|
            0 <= k <= m && 0 <= l <= m && root[k] == root[l] ==> #[trigger] root2[k]
                == #[trigger] root2[l],
        forall|k: int, p: int|
            1 <= k <= m && 0 <= p < chain[k].len() ==> 0 <= x[#[trigger] chain[k][p]] < m,
    ensures
        stocked(
            bounds,
            x,
            m,
            d.update(z, (d[z] - 1) as IntVal),
            root2,
            chain.update(z, seq![n] + chain[z]),
        ),
{
    reveal(stocked);
    let chain2 = chain.update(z, seq![n] + chain[z]);
    let d2 = d.update(z, (d[z] - 1) as IntVal);
    assert forall|k: int| 1 <= k <= m implies #[trigger] chain2[k].len() + d2[k] == bounds[k]
        - bounds[k - 1] by {
        assert(chain[k].len() + d[k] == bounds[k] - bounds[k - 1]);
    }
    assert forall|k: int, p: int| 1 <= k <= m && 0 <= p < chain2[k].len() implies root2[x[
    #[trigger] chain2[k][p]] + 1] == root2[k] && 0 <= x[chain2[k][p]] < k by {
        if k == z {
            if p > 0 {
                assert(chain2[k][p] == chain[k][p - 1]);
            } else {
                assert(chain2[k][p] == n);
            }
        } else {
            assert(chain2[k][p] == chain[k][p]);
        }
        assert(root[x[chain2[k][p]] + 1] == root[k]);
    }
}

/// The start and the members of the Hall interval that ends at rank `w` and that a decision
/// with lower rank `x` is pushed out of, as far as the cached lower bounds need.
fn hall_members(
    bounds: &Vec<IntVal>,
    bucket: &Vec<usize>,
    next: &Vec<usize>,
    lb: &Vec<IntVal>,
    x: usize,
    w: usize,
    Ghost(n): Ghost<int>,
    Ghost(order): Ghost<Seq<usize>>,
    Ghost(chain): Ghost<Seq<Seq<int>>>,
    Ghost(slot): Ghost<Seq<int>>,
    Ghost(rank): Ghost<Seq<int>>,
    Ghost(a): Ghost<int>,
) -> (r: (IntVal, Vec<usize>, Ghost<(int, Seq<int>)>))
    requires
        chained(bounds.len() - 1, n, bucket@, next@, order, chain, slot),
        order.no_duplicates(),
        n <= order.len() == lb.len() == rank.len() < usize::MAX,
        forall|i: int| 0 <= i < order.len() ==> #[trigger] order[i] < order.len(),
        1 <= a <= x < w < bounds.len(),
        forall|k: int, l: int|
            0 <= k < l < bounds.len() ==> #[trigger] bounds[k] < #[trigger] bounds[l],
        forall|l: int|
            a < l <= w ==> #[trigger] chain[l].len() == bounds[l] - bounds[l - 1],
        forall|l: int, p: int|
            a < l <= w && 0 <= p < chain[l].len() ==> bounds[a] <= lb[order[#[trigger] chain[l][p]] as int],
        forall|v: int|
            0 <= v < lb.len() ==> 0 <= #[trigger] rank[v] < bounds.len() && lb[v]
                == bounds[rank[v]],
    ensures
        a <= r.2@.0 <= x,
        r.0 == bounds[r.2@.0],
        r.1.len() == bounds[w as int] - r.0,
        r.1@.no_duplicates(),
        r.2@.1.len() == r.1.len(),
        forall|p: int|
            0 <= p < r.1.len() ==> {
                let id = #[trigger] r.2@.1[p];
                &&& 0 <= id < n
                &&& r.1[p] == order[id]
                &&& a < slot[id] <= w
                &&& chain[slot[id]].contains(id)
                &&& r.0 <= lb[r.1[p] as int]
            },
{
    let mut floor: IntVal = bounds[x];
    let ghost mut fr: int = x as int;
    let mut k: usize = w;
    while bounds[k] > floor
        invariant
            chained(bounds.len() - 1, n, bucket@, next@, order, chain, slot),
            n <= order.len() == lb.len() == rank.len() < usize::MAX,
            forall|i: int| 0 <= i < order.len() ==> #[trigger] order[i] < order.len(),
            1 <= a <= x < w < bounds.len(),
            a <= k <= w,
            forall|k: int, l: int|
                0 <= k < l < bounds.len() ==> #[trigger] bounds[k] < #[trigger] bounds[l],
            forall|l: int, p: int|
                a < l <= w && 0 <= p < chain[l].len() ==> bounds[a] <= lb[order[#[trigger] chain[l][p]] as int],
            forall|v: int|
                0 <= v < lb.len() ==> 0 <= #[trigger] rank[v] < bounds.len() && lb[v]
                    == bounds[rank[v]],
            0 <= fr < bounds.len(),
            floor == bounds[fr],
            bounds[a] <= floor <= bounds[x as int],
            k < w ==> bounds[k + 1] > floor,
            forall|l: int, p: int|
                k < l <= w && 0 <= p < chain[l].len() ==> floor <= lb[order[#[trigger] chain[l][p]] as int],
        decreases k,
    {
        proof {
            reveal(chained);
        }
        assert(a < k);
        let mut l: usize = bucket[k];
        let ghost mut q: int = 0;
        while l != usize::MAX
            invariant
                chained(bounds.len() - 1, n, bucket@, next@, order, chain, slot),
                n <= order.len() == lb.len() == rank.len() < usize::MAX,
                forall|i: int| 0 <= i < order.len() ==> #[trigger] order[i] < order.len(),
                1 <= a <= x < w < bounds.len(),
                a < k <= w,
                0 <= q <= chain[k as int].len(),
                l == head(order, chain[k as int], q),
                forall|l: int, p: int|
                    a < l <= w && 0 <= p < chain[l].len() ==> bounds[a] <= lb[order[#[trigger] chain[l][p]] as int],
                forall|v: int|
                    0 <= v < lb.len() ==> 0 <= #[trigger] rank[v] < bounds.len() && lb[v]
                        == bounds[rank[v]],
                0 <= fr < bounds.len(),
                floor == bounds[fr],
                bounds[a] <= floor <= bounds[x as int],
                bounds[k as int] > floor,
                forall|l: int, p: int|
                    k < l <= w && 0 <= p < chain[l].len() ==> floor <= lb[order[#[trigger] chain[l][p]] as int],
                forall|p: int|
                    0 <= p < q ==> floor <= lb[order[#[trigger] chain[k as int][p]] as int],
            decreases chain[k as int].len() - q,
        {
            proof {
                reveal(chained);
                let id = chain[k as int][q];
                assert(0 <= id < n);
                assert(order[id] < order.len());
                assert(l == order[id]);
                assert(bounds[a] <= lb[order[id] as int]);
                assert(0 <= rank[l as int] < bounds.len() && lb[l as int] == bounds[rank[l as int]]);
            }
            if lb[l] < floor {
                floor = lb[l];
                proof {
                    fr = rank[l as int];
                }
            }
            l = next[l];
            proof {
                q = q + 1;
            }
        }
        assert(q == chain[k as int].len()) by {
            if q < chain[k as int].len() {
                let id = chain[k as int][q];
                assert(0 <= id < n);
                assert(order[id] < order.len());
            }
        }
        k = k - 1;
    }
    proof {
        if k == w {
            assert(bounds[x as int] < bounds[w as int]);
        }
        if fr > k {
            if fr > k + 1 {
                assert(bounds[k + 1] < bounds[fr]);
            }
            assert(false);
        }
        if fr < k {
            assert(bounds[fr] < bounds[k as int]);
        }
        assert(floor == bounds[k as int]);
        if k > x {
            assert(bounds[x as int] < bounds[k as int]);
        }
    }
    let ghost low: int = k as int;

    let mut members: Vec<usize> = Vec::new();
    let ghost mut ids: Seq<int> = Seq::empty();
    let mut k: usize = w;
    while bounds[k] > floor
        invariant
            chained(bounds.len() - 1, n, bucket@, next@, order, chain, slot),
            order.no_duplicates(),
            n <= order.len() == lb.len() < usize::MAX,
            forall|i: int| 0 <= i < order.len() ==> #[trigger] order[i] < order.len(),
            1 <= a <= low <= x < w < bounds.len(),
            low <= k <= w,
            floor == bounds[low],
            forall|k: int, l: int|
                0 <= k < l < bounds.len() ==> #[trigger] bounds[k] < #[trigger] bounds[l],
            forall|l: int|
                a < l <= w ==> #[trigger] chain[l].len() == bounds[l] - bounds[l - 1],
            forall|l: int, p: int|
                low < l <= w && 0 <= p < chain[l].len() ==> floor <= lb[order[#[trigger] chain[l][p]] as int],
            members.len() == bounds[w as int] - bounds[k as int],
            ids.len() == members.len(),
            ids.no_duplicates(),
            forall|p: int|
                0 <= p < ids.len() ==> {
                    let id = #[trigger] ids[p];
                    &&& 0 <= id < n
                    &&& members[p] == order[id]
                    &&& k < slot[id] <= w
                    &&& chain[slot[id]].contains(id)
                    &&& floor <= lb[members[p] as int]
                },
        decreases k,
    {
        proof {
            reveal(chained);
        }
        assert(low < k);
        let mut l: usize = bucket[k];
        let ghost mut q: int = 0;
        while l != usize::MAX
            invariant
                chained(bounds.len() - 1, n, bucket@, next@, order, chain, slot),
                order.no_duplicates(),
                n <= order.len() == lb.len() < usize::MAX,
                forall|i: int| 0 <= i < order.len() ==> #[trigger] order[i] < order.len(),
                1 <= a <= low <= x < w < bounds.len(),
                low < k <= w,
                0 <= q <= chain[k as int].len(),
                l == head(order, chain[k as int], q),
                forall|l: int, p: int|
                    low < l <= w && 0 <= p < chain[l].len() ==> floor <= lb[order[#[trigger] chain[l][p]] as int],
                members.len() == bounds[w as int] - bounds[k as int] + q,
                ids.len() == members.len(),
                ids.no_duplicates(),
                forall|p: int|
                    0 <= p < ids.len() ==> {
                        let id = #[trigger] ids[p];
                        &&& 0 <= id < n
                        &&& members[p] == order[id]
                        &&& k <= slot[id] <= w
                        &&& slot[id] == k ==> exists|g: int|
                            0 <= g < q && #[trigger] chain[k as int][g] == id
                        &&& chain[slot[id]].contains(id)
                        &&& floor <= lb[members[p] as int]
                    },
            decreases chain[k as int].len() - q,
        {
            let ghost id: int = chain[k as int][q];
            proof {
                reveal(chained);
                assert(0 <= id < n && slot[id] == k);
                assert(order[id] < order.len());
                assert(l == order[id]);
                assert(chain[k as int].contains(id));
                assert(floor <= lb[order[chain[k as int][q]] as int]);
                assert(!ids.contains(id)) by {
                    if ids.contains(id) {
                        let p = ids.index_of(id);
                        assert(ids[p] == id);
                        let g = choose|g: int| 0 <= g < q && #[trigger] chain[k as int][g] == id;
                        assert(chain[k as int][g] > chain[k as int][q]);
                    }
                }
            }
            members.push(l);
            proof {
                let before = ids;
                ids = ids.push(id);
                assert forall|p: int| 0 <= p < ids.len() implies {
                    let id = #[trigger] ids[p];
                    &&& 0 <= id < n
                    &&& members[p] == order[id]
                    &&& k <= slot[id] <= w
                    &&& slot[id] == k ==> exists|g: int|
                        0 <= g < q + 1 && #[trigger] chain[k as int][g] == id
                    &&& chain[slot[id]].contains(id)
                    &&& floor <= lb[members[p] as int]
                } by {
                    if p < before.len() {
                        assert(ids[p] == before[p]);
                        if slot[before[p]] == k {
                            let g = choose|g: int|
                                0 <= g < q && #[trigger] chain[k as int][g] == before[p];
                            assert(0 <= g < q + 1 && chain[k as int][g] == ids[p]);
                        }
                    } else {
                        assert(chain[k as int][q] == ids[p]);
                    }
                }
            }
            l = next[l];
            proof {
                q = q + 1;
            }
        }
        assert(q == chain[k as int].len()) by {
            if q < chain[k as int].len() {
                let id = chain[k as int][q];
                assert(0 <= id < n);
                assert(order[id] < order.len());
            }
        }
        k = k - 1;
    }
    proof {
        if k > low {
            assert(bounds[low] < bounds[k as int]);
        }
        assert forall|p: int, q: int| 0 <= p < q < members.len() implies members[p]
            != members[q] by {
            assert(ids[p] != ids[q]);
            assert(members[p] == order[ids[p]]);
            assert(members[q] == order[ids[q]]);
        }
    }
    (floor, members, Ghost((low, ids)))
}


/// Later pushes do not change what the first `k` pushes did.
proof fn lemma_pushed_prefix(lb: Seq<IntVal>, pushes: Seq<HallPush>, last: HallPush, k: int, v: int)
    requires
        k <= pushes.len(),
    ensures
        pushed(lb, pushes.push(last), k, v) == pushed(lb, pushes, k, v),
    decreases k,
{
    if k > 0 {
        lemma_pushed_prefix(lb, pushes, last, k - 1, v);
    }
}

/// Whether every decision that starts in a Hall interval of the first `n` decisions without
/// lying in it has been pushed to its end.
#[verifier::opaque]
pub open spec fn filtered(
    bounds: Seq<int>,
    x: Seq<int>,
    y: Seq<int>,
    m: int,
    n: int,
    order: Seq<usize>,
    lb: Seq<IntVal>,
    pushes: Seq<HallPush>,
) -> bool {
    forall|i: int, a: int, b: int|
        0 <= i < n && 1 <= a <= x[i] < b < y[i] && b < m && #[trigger] within(x, y, n, a, b)
            == bounds[b] - bounds[a] ==> pushed(
            lb,
            pushes,
            pushes.len() as int,
            #[trigger] order[i] as int,
        ) >= bounds[b]
}

/// The bounds after every push, where none was refused.
pub open spec fn accepted(ub: Seq<IntVal>, pushes: Seq<HallPush>) -> bool {
    forall|k: int| 0 <= k < pushes.len() ==> (#[trigger] pushes[k]).bound <= ub[pushes[k].var as int]
}


/// The capacities depend on the pointers of the roots only.
proof fn lemma_capacities_compressed(
    bounds: Seq<int>,
    x: Seq<int>,
    m: int,
    n: int,
    t: Seq<usize>,
    t2: Seq<usize>,
    d: Seq<IntVal>,
    root: Seq<int>,
)
    requires
        capacities(bounds, x, m, n, t, d, root),
        grouped(t2, root, m),
        forall|k: int| 0 <= k <= m && root[k] == k ==> #[trigger] t2[k] == t[k],
    ensures
        capacities(bounds, x, m, n, t2, d, root),
{
    reveal(capacities);
    assert forall|z: int| 1 <= z <= m && root[z] == z implies #[trigger] d[z] >= 1 && d[z]
        == bounds[z] - bounds[t2[z] as int] - starts(x, n, t2[z] as int, z) by {
        assert(t2[z] == t[z]);
    }
    assert forall|k: int| 1 <= k <= m && (#[trigger] root[k]) > k implies starts(
        x,
        n,
        t2[root[k]] as int,
        k,
    ) >= bounds[k] - bounds[t2[root[k]] as int] by {
        assert(t2[root[k]] == t[root[k]]);
    }
}

/// Whether `root2` has the groups of `root`, some of them merged.
pub open spec fn coarser(root: Seq<int>, root2: Seq<int>, m: int) -> bool {
    &&& forall|k: int| 0 <= k <= m ==> #[trigger] root2[k] >= root[k]
    &&& forall|k: int, l: int|
        0 <= k <= m && 0 <= l <= m && root[k] == root[l] ==> #[trigger] root2[k]
            == #[trigger] root2[l]
}

/// Where a decision was placed.
struct Placement {
    /// The critical bound of which the decision takes a value.
    first: usize,
    /// The critical bound that ends the group of the decision afterwards.
    z: usize,
    /// The critical bound before that group.
    j: usize,
}

/// Place the decision with lower rank `min`: it takes one of the values left in its group.
#[verifier::spinoff_prover]
fn place(
    predecessor: &mut Vec<usize>,
    diff: &mut Vec<IntVal>,
    min: usize,
    Ghost(bounds): Ghost<Seq<int>>,
    Ghost(x): Ghost<Seq<int>>,
    Ghost(y): Ghost<Seq<int>>,
    Ghost(m): Ghost<int>,
    Ghost(n): Ghost<int>,
    Ghost(root): Ghost<Seq<int>>,
) -> (r: (Placement, Ghost<Seq<int>>))
    requires
        ranked(bounds, x, y, m),
        0 <= n < x.len(),
        m < usize::MAX,
        x[n] == min,
        capacities(bounds, x, m, n, old(predecessor)@, old(diff)@, root),
        uncrowded(bounds, x, y, m, n),
    ensures
        capacities(bounds, x, m, n + 1, final(predecessor)@, final(diff)@, r.1@),
        coarser(root, r.1@, m),
        min < r.0.first <= m,
        r.0.first == root[min + 1],
        root[r.0.first as int] == r.0.first,
        old(diff).len() == m + 1,
        old(diff)[r.0.first as int] >= 1,
        final(diff)@ == old(diff)@.update(
            r.0.first as int,
            (old(diff)[r.0.first as int] - 1) as IntVal,
        ),
        r.0.z == r.1@[min + 1],
        r.0.z <= m,
        final(predecessor).len() == m + 1,
        r.0.j == final(predecessor)[r.0.z as int],
{
    let ghost t0: Seq<usize> = predecessor@;
    let ghost d0: Seq<IntVal> = diff@;
    let ghost mut root2: Seq<int> = root;
    proof {
        assert(1 <= x[n] < y[n] < m) by {
            reveal(ranked);
        }
        assert(grouped(t0, root, m) && d0.len() == m + 1) by {
            reveal(capacities);
        }
        lemma_climb_root(t0, root, m, min + 1);
        assert forall|k: int| 0 <= k < t0.len() implies #[trigger] t0[k] < t0.len() by {
            assert(root[k] <= m);
        }
    }
    let first: usize = path_max(predecessor, min + 1);
    let j: usize = predecessor[first];
    proof {
        assert(root[first as int] == first);
        assert(d0[first as int] >= 1) by {
            reveal(capacities);
        }
    }
    diff.set(first, diff[first] - 1);
    let mut z: usize = first;
    if diff[first] == 0 {
        proof {
            lemma_place_merged(bounds, x, y, m, n, t0, d0, root);
            root2 = merged(root, first as int);
            lemma_climb_above(t0, first as int, (first + 1) as usize, first + 1);
            lemma_climb_root(t0, root, m, first + 1);
        }
        predecessor.set(first, first + 1);
        proof {
            assert forall|k: int| 0 <= k < predecessor@.len() implies #[trigger] predecessor@[k]
                < predecessor@.len() by {
                assert(t0[k] < t0.len());
            }
        }
        z = path_max(predecessor, predecessor[first]);
        predecessor.set(z, j);
        assert(coarser(root, root2, m)) by {
            assert forall|k: int| 0 <= k <= m implies #[trigger] root2[k] >= root[k] by {}
        }
    } else {
        proof {
            lemma_place_kept(bounds, x, y, m, n, t0, d0, root, diff@);
        }
    }
    let ghost t1: Seq<usize> = predecessor@;
    proof {
        assert(capacities(bounds, x, m, n + 1, t1, diff@, root2));
        assert(grouped(t1, root2, m)) by {
            reveal(capacities);
        }
        assert(z == root2[min + 1]);
        assert(t1[z as int] == j);
    }
    let ghost steps: nat = lemma_compress(t1, root2, m, min + 1, z);
    path_set(predecessor, min + 1, z, z);
    proof {
        lemma_capacities_compressed(bounds, x, m, n + 1, t1, predecessor@, diff@, root2);
        assert(root2[z as int] == z);
        assert(predecessor@[z as int] == t1[z as int]);
    }
    (Placement { first, z, j }, Ghost(root2))
}


/// Placing a decision does not touch the chains of a Hall interval.
proof fn lemma_housed_push(
    bounds: Seq<int>,
    x: Seq<int>,
    y: Seq<int>,
    m: int,
    n: int,
    root: Seq<int>,
    h: Seq<usize>,
    hroot: Seq<int>,
    chain: Seq<Seq<int>>,
    first: int,
)
    requires
        halls(bounds, x, y, m, n, root, h, hroot),
        housed(x, y, m, h, hroot, chain),
        chain.len() == m + 1,
        0 <= first <= m,
        root[first] == first,
    ensures
        housed(x, y, m, h, hroot, chain.update(first, seq![n] + chain[first])),
{
    reveal(halls);
    reveal(housed);
    let chain2 = chain.update(first, seq![n] + chain[first]);
    assert forall|k: int, l: int, p: int|
        1 <= k <= m && hroot[k] > k && h[#[trigger] hroot[k]] + 1 < l <= hroot[k] && 0 <= p
            < chain2[l].len() implies x[#[trigger] chain2[l][p]] >= h[hroot[k]] + 1
        && y[chain2[l][p]] <= hroot[k] by {
        let w = hroot[k];
        assert(hroot[w] == w);
        assert(hroot[l - 1] == w);
        assert(root[l] > l);
        assert(chain2[l][p] == chain[l][p]);
    }
}

/// The Hall intervals depend on the pointers of the roots only.
proof fn lemma_halls_compressed(
    bounds: Seq<int>,
    x: Seq<int>,
    y: Seq<int>,
    m: int,
    n: int,
    root: Seq<int>,
    h: Seq<usize>,
    h2: Seq<usize>,
    hroot: Seq<int>,
    chain: Seq<Seq<int>>,
)
    requires
        halls(bounds, x, y, m, n, root, h, hroot),
        housed(x, y, m, h, hroot, chain),
        grouped(h2, hroot, m),
        forall|k: int| 0 <= k <= m && hroot[k] == k ==> #[trigger] h2[k] == h[k],
    ensures
        halls(bounds, x, y, m, n, root, h2, hroot),
        housed(x, y, m, h2, hroot, chain),
{
    reveal(halls);
    reveal(housed);
    assert forall|k: int| 1 <= k <= m && (#[trigger] hroot[k]) > k implies h2[hroot[k]]
        == h[hroot[k]] by {
        assert(hroot[hroot[k]] == hroot[k]);
    }
}

/// The chains of a new Hall interval hold decisions within it.
proof fn lemma_housed_covered(
    bounds: Seq<int>,
    x: Seq<int>,
    y: Seq<int>,
    m: int,
    n: int,
    t: Seq<usize>,
    d: Seq<IntVal>,
    root: Seq<int>,
    h: Seq<usize>,
    hroot: Seq<int>,
    g: Seq<usize>,
    chain: Seq<Seq<int>>,
)
    requires
        ranked(bounds, x, y, m),
        0 <= n < x.len(),
        capacities(bounds, x, m, n + 1, t, d, root),
        stocked(bounds, x, m, d, root, chain),
        chain.len() == m + 1,
        forall|k: int, p: int|
            0 <= k <= m && 0 <= p < chain[k].len() ==> 0 <= #[trigger] chain[k][p] <= n,
        housed(x, y, m, h, hroot, chain),
        grouped(h, hroot, m),
        hroot[t[root[x[n] + 1]] - 1] == t[root[x[n] + 1]] - 1,
        1 <= t[root[x[n] + 1]] <= x[n],
        y[n] < root[x[n] + 1],
        g.len() == m + 1,
        g[y[n]] == t[root[x[n] + 1]] - 1,
        forall|k: int|
            0 <= k <= m && (k < t[root[x[n] + 1]] || k > y[n]) ==> #[trigger] g[k] == h[k],
    ensures
        housed(x, y, m, g, covered(hroot, t[root[x[n] + 1]] as int, y[n]), chain),
{
    reveal(ranked);
    reveal(capacities);
    reveal(stocked);
    reveal(housed);
    let e = y[n];
    let z = root[x[n] + 1];
    let j = t[z] as int;
    assert(root[z] == z);
    let r = covered(hroot, j, e);
    assert forall|k: int, l: int, p: int|
        1 <= k <= m && r[k] > k && g[#[trigger] r[k]] + 1 < l <= r[k] && 0 <= p
            < chain[l].len() implies x[#[trigger] chain[l][p]] >= g[r[k]] + 1 && y[chain[l][p]]
        <= r[k] by {
        let id = chain[l][p];
        assert(0 <= id <= n);
        if j <= k <= e {
            assert(y[id] <= y[n]);
            assert(root[l] == z);
            assert(root[x[id] + 1] == root[l]);
            if x[id] + 1 <= j {
                assert(root[j] == j);
                assert(root[x[id] + 1] == root[j]);
            }
        } else {
            if k < j && hroot[k] >= j - 1 {
                assert(hroot[j - 1] == hroot[k]);
            }
            assert(g[hroot[k]] == h[hroot[k]]);
        }
    }
}

/// A decision that starts in a Hall interval without lying in it has been pushed once it was
/// visited.
proof fn lemma_filtered_step(
    bounds: Seq<int>,
    x: Seq<int>,
    y: Seq<int>,
    m: int,
    n: int,
    root: Seq<int>,
    h: Seq<usize>,
    hroot: Seq<int>,
    order: Seq<usize>,
    lb: Seq<IntVal>,
    pushes: Seq<HallPush>,
    pushes2: Seq<HallPush>,
)
    requires
        ranked(bounds, x, y, m),
        0 <= n < x.len(),
        order.len() == x.len(),
        order.no_duplicates(),
        halls(bounds, x, y, m, n, root, h, hroot),
        filtered(bounds, x, y, m, n, order, lb, pushes),
        if hroot[x[n]] > x[n] {
            &&& pushes2 == pushes.push(pushes2.last())
            &&& pushes2.last().var == order[n]
            &&& pushes2.last().bound == bounds[hroot[x[n]]]
        } else {
            pushes2 == pushes
        },
    ensures
        filtered(bounds, x, y, m, n + 1, order, lb, pushes2),
{
    reveal(ranked);
    reveal(halls);
    reveal(filtered);
    assert forall|i: int, a: int, b: int|
        0 <= i < n + 1 && 1 <= a <= x[i] < b < y[i] && b < m && #[trigger] within(
            x,
            y,
            n + 1,
            a,
            b,
        ) == bounds[b] - bounds[a] implies pushed(
        lb,
        pushes2,
        pushes2.len() as int,
        #[trigger] order[i] as int,
    ) >= bounds[b] by {
        assert(y[i] <= y[n]);
        assert(within(x, y, n, a, b) == bounds[b] - bounds[a]);
        if i < n {
            assert(order[i] != order[n]);
            if hroot[x[n]] > x[n] {
                lemma_pushed_prefix(
                    lb,
                    pushes,
                    pushes2.last(),
                    pushes.len() as int,
                    order[i] as int,
                );
            }
        } else {
            assert(hroot[x[n]] >= b);
            assert(hroot[x[n]] <= m);
            if b < hroot[x[n]] {
                assert(bounds[b] < bounds[hroot[x[n]]]);
            }
        }
    }
}


/// The push of the decision at position `n`, which starts in the Hall interval that ends at
/// rank `w`.
#[verifier::spinoff_prover]
fn push_out(
    bounds: &Vec<IntVal>,
    bucket: &Vec<usize>,
    next: &Vec<usize>,
    lb: &Vec<IntVal>,
    var: usize,
    min: usize,
    w: usize,
    Ghost(min_rank): Ghost<Seq<usize>>,
    Ghost(max_rank): Ghost<Seq<usize>>,
    Ghost(order): Ghost<Seq<usize>>,
    Ghost(first_lb): Ghost<Seq<IntVal>>,
    Ghost(ub): Ghost<Seq<IntVal>>,
    Ghost(n): Ghost<int>,
    Ghost(root0): Ghost<Seq<int>>,
    Ghost(root): Ghost<Seq<int>>,
    Ghost(diff): Ghost<Seq<IntVal>>,
    Ghost(pre): Ghost<Seq<usize>>,
    Ghost(h): Ghost<Seq<usize>>,
    Ghost(hroot): Ghost<Seq<int>>,
    Ghost(chain): Ghost<Seq<Seq<int>>>,
    Ghost(slot): Ghost<Seq<int>>,
    Ghost(rank): Ghost<Seq<int>>,
) -> (push: HallPush)
    requires
        ranks(bounds@, min_rank, max_rank, order, first_lb, ub),
        0 <= n < first_lb.len() < usize::MAX,
        var == order[n],
        min == min_rank[var as int],
        lb.len() == first_lb.len(),
        rank.len() == first_lb.len(),
        bounds.len() < usize::MAX,
        capacities(
            ints(bounds@),
            by_order(min_rank, order),
            bounds.len() - 1,
            n + 1,
            pre,
            diff,
            root,
        ),
        coarser(root0, root, bounds.len() - 1),
        halls(
            ints(bounds@),
            by_order(min_rank, order),
            by_order(max_rank, order),
            bounds.len() - 1,
            n,
            root0,
            h,
            hroot,
        ),
        chained(bounds.len() - 1, n + 1, bucket@, next@, order, chain, slot),
        stocked(ints(bounds@), by_order(min_rank, order), bounds.len() - 1, diff, root, chain),
        housed(
            by_order(min_rank, order),
            by_order(max_rank, order),
            bounds.len() - 1,
            h,
            hroot,
            chain,
        ),
        root0[slot[n]] == slot[n],
        w == hroot[min as int],
        w > min,
        forall|v: int|
            0 <= v < lb.len() ==> min_rank[v] <= #[trigger] rank[v] < bounds.len() && lb[v]
                == bounds[rank[v]],
    ensures
        push.var == var,
        push.bound == bounds[w as int],
        push.tight(lb.len() as int),
        -0x2000_0000_0000_0000 < push.floor < push.bound <= 0x2000_0000_0000_0000,
        push.floor <= first_lb[var as int] < push.bound,
        forall|p: int|
            0 <= p < push.members.len() ==> push.floor <= lb[#[trigger] push.members[p] as int]
                && ub[push.members[p] as int] < push.bound,
{
    let ghost a: int = h[w as int] + 1;
    let ghost bs: Seq<int> = ints(bounds@);
    let ghost x: Seq<int> = by_order(min_rank, order);
    let ghost y: Seq<int> = by_order(max_rank, order);
    let ghost m: int = bounds.len() - 1;
    proof {
        reveal(ranked);
        reveal(halls);
        assert(x[n] == min);
        assert(1 <= x[n] < y[n] < m);
        assert(hroot[w as int] == w);
        assert(1 <= a <= min) by {
            if h[w as int] >= min {
                assert(hroot[h[w as int] as int] == hroot[min as int]);
            }
        }
        assert forall|k: int, l: int| 0 <= k < l < bounds.len() implies #[trigger] bounds[k]
            < #[trigger] bounds[l] by {
            assert(bs[k] < bs[l]);
        }
        assert forall|l: int| a < l <= w implies root0[l] > l && root[l] > l by {
            assert(hroot[l - 1] == w);
            assert(root0[l] > l);
            assert(root[l] >= root0[l]);
        }
        assert forall|l: int| a < l <= w implies #[trigger] chain[l].len() == bounds[l] - bounds[l
            - 1] by {
            reveal(stocked);
            reveal(capacities);
            assert(root[l] > l);
            assert(diff[l] == 0);
        }
        assert forall|l: int, p: int| a < l <= w && 0 <= p < chain[l].len() implies bounds[a]
            <= lb[order[#[trigger] chain[l][p]] as int] by {
            reveal(housed);
            reveal(chained);
            let id = chain[l][p];
            assert(0 <= id < n + 1);
            assert(x[id] >= h[hroot[min as int]] + 1);
            assert(order[id] < order.len());
            let v = order[id] as int;
            assert(min_rank[v] <= rank[v] && lb[v] == bounds[rank[v]]);
            if a < rank[v] {
                assert(bounds[a] < bounds[rank[v]]);
            }
        }
    }
    let (floor, members, Ghost(found)) = hall_members(
        bounds,
        bucket,
        next,
        lb,
        min,
        w,
        Ghost(n + 1),
        Ghost(order),
        Ghost(chain),
        Ghost(slot),
        Ghost(rank),
        Ghost(a),
    );
    proof {
        let low = found.0;
        let ids = found.1;
        if low < min {
            assert(bounds[low] < bounds[min as int]);
        }
        assert(bounds[min as int] < bounds[w as int]);
        assert forall|p: int| 0 <= p < members.len() implies {
            &&& #[trigger] members[p] < lb.len()
            &&& members[p] != var
            &&& floor <= lb[members[p] as int]
            &&& ub[members[p] as int] < bounds[w as int]
        } by {
            reveal(housed);
            reveal(chained);
            let id = ids[p];
            assert(order[id] < order.len());
            let l = slot[id];
            assert(hroot[l - 1] == w);
            assert(root0[l] > l);
            assert(id != n);
            assert(order[id] != order[n]);
            let q = chain[l].index_of(id);
            assert(chain[l][q] == id);
            assert(h[hroot[min as int]] + 1 < l);
            assert(y[id] <= w);
            let v = order[id] as int;
            assert(ub[v] + 1 == bounds[max_rank[v] as int]);
            assert(y[id] == max_rank[v]);
            if y[id] < w {
                assert(bounds[y[id]] < bounds[w as int]);
            }
        }
    }
    HallPush { var, bound: bounds[w], floor, members }
}


/// The pointers before any decision is placed: every critical bound is a group of its own.
proof fn lemma_search_start(
    bounds: Seq<int>,
    x: Seq<int>,
    y: Seq<int>,
    m: int,
    t: Seq<usize>,
    d: Seq<IntVal>,
    bucket: Seq<usize>,
    next: Seq<usize>,
    order: Seq<usize>,
    lb: Seq<IntVal>,
    root: Seq<int>,
    chain: Seq<Seq<int>>,
)
    requires
        ranked(bounds, x, y, m),
        m < usize::MAX,
        root == Seq::new((m + 1) as nat, |k: int| k),
        chain == Seq::new((m + 1) as nat, |k: int| Seq::<int>::empty()),
        t.len() == m + 1,
        d.len() == m + 1,
        bucket.len() == m + 1,
        next.len() == order.len(),
        t[0] == 0,
        forall|k: int| 1 <= k <= m ==> #[trigger] t[k] == k - 1,
        forall|k: int| 1 <= k <= m ==> #[trigger] d[k] == bounds[k] - bounds[k - 1],
        forall|k: int| 0 <= k <= m ==> #[trigger] bucket[k] == usize::MAX,
    ensures
        capacities(bounds, x, m, 0, t, d, root),
        uncrowded(bounds, x, y, m, 0),
        halls(bounds, x, y, m, 0, root, t, root),
        chained(m, 0, bucket, next, order, chain, Seq::empty()),
        stocked(bounds, x, m, d, root, chain),
        housed(x, y, m, t, root, chain),
        filtered(bounds, x, y, m, 0, order, lb, Seq::empty()),
{
    reveal(ranked);
    reveal(capacities);
    reveal(uncrowded);
    reveal(halls);
    reveal(chained);
    reveal(stocked);
    reveal(housed);
    reveal(filtered);
    assert forall|k: int| 1 <= k <= m implies bounds[k - 1] < #[trigger] bounds[k] by {}
    assert(grouped(t, root, m));
    assert forall|z: int| 1 <= z <= m && root[z] == z implies #[trigger] d[z] >= 1 && d[z]
        == bounds[z] - bounds[t[z] as int] - starts(x, 0, t[z] as int, z) by {
        assert(bounds[z - 1] < bounds[z]);
        assert(t[z] == z - 1);
    }
}

/// The lower bounds that the Hall intervals of the decisions force, in the order in which they
/// are found. The search stops at the first one that exceeds an upper bound.
#[verifier::rlimit(40)]
#[verifier::spinoff_prover]
pub fn hall_pushes(
    bounds: &Vec<IntVal>,
    min_rank: &Vec<usize>,
    max_rank: &Vec<usize>,
    order: &Vec<usize>,
    lb: &Vec<IntVal>,
    ub: &Vec<IntVal>,
) -> (pushes: Vec<HallPush>)
    requires
        ranks(bounds@, min_rank@, max_rank@, order@, lb@, ub@),
        bounds.len() < usize::MAX,
        lb.len() < usize::MAX,
    ensures
        forall|k: int| 0 <= k < pushes.len() ==> #[trigger] justified(lb@, ub@, pushes@, k),
        forall|k: int|
            0 <= k < pushes.len() - 1 ==> (#[trigger] pushes[k]).bound
                <= ub[pushes[k].var as int],
        accepted(ub@, pushes@) ==> uncrowded(
            ints(bounds@),
            by_order(min_rank@, order@),
            by_order(max_rank@, order@),
            bounds.len() - 1,
            lb.len() as int,
        ) && filtered(
            ints(bounds@),
            by_order(min_rank@, order@),
            by_order(max_rank@, order@),
            bounds.len() - 1,
            lb.len() as int,
            order@,
            lb@,
            pushes@,
        ),
{
    assert(bounds.len() >= 3) by {
        reveal(ranked);
    }
    let nb: usize = bounds.len() - 1;
    let size: usize = lb.len();
    let ghost m: int = nb as int;
    let ghost bs: Seq<int> = ints(bounds@);
    let ghost x: Seq<int> = by_order(min_rank@, order@);
    let ghost y: Seq<int> = by_order(max_rank@, order@);

    let mut hall_interval: Vec<usize> = vec![0; nb + 1];
    let mut predecessor: Vec<usize> = vec![0; nb + 1];
    let mut diff: Vec<IntVal> = vec![0; nb + 1];
    let mut bucket: Vec<usize> = vec![usize::MAX; nb + 1];
    let mut next: Vec<usize> = vec![usize::MAX; size];
    let mut lb_cache: Vec<IntVal> = Vec::new();
    let mut pushes: Vec<HallPush> = Vec::new();
    let mut i: usize = 1;
    while i <= nb
        invariant
            1 <= i <= nb + 1,
            nb + 1 == bounds.len() < usize::MAX,
            ranks(bounds@, min_rank@, max_rank@, order@, lb@, ub@),
            hall_interval.len() == nb + 1,
            predecessor.len() == nb + 1,
            diff.len() == nb + 1,
            hall_interval[0] == 0,
            predecessor[0] == 0,
            forall|k: int| 1 <= k < i ==> #[trigger] hall_interval[k] == k - 1,
            forall|k: int| 1 <= k < i ==> #[trigger] predecessor[k] == k - 1,
            forall|k: int| 1 <= k < i ==> #[trigger] diff[k] == bounds[k] - bounds[k - 1],
        decreases nb + 1 - i,
    {
        hall_interval.set(i, i - 1);
        predecessor.set(i, i - 1);
        diff.set(i, bounds[i] - bounds[i - 1]);
        i = i + 1;
    }
    let mut v: usize = 0;
    while v < size
        invariant
            0 <= v <= size == lb.len(),
            lb_cache@ == lb@.take(v as int),
        decreases size - v,
    {
        lb_cache.push(lb[v]);
        v = v + 1;
        assert(lb@.take(v as int) == lb@.take(v - 1).push(lb[v - 1]));
    }
    let ghost mut root: Seq<int> = Seq::new((m + 1) as nat, |k: int| k);
    let ghost mut hroot: Seq<int> = root;
    let ghost mut chain: Seq<Seq<int>> = Seq::new((m + 1) as nat, |k: int| Seq::<int>::empty());
    let ghost mut slot: Seq<int> = Seq::empty();
    let ghost mut rank: Seq<int> = Seq::new(lb.len() as nat, |v: int| min_rank[v] as int);
    proof {
        assert(m >= 2) by {
            reveal(ranked);
        }
        assert(hall_interval@ =~= predecessor@) by {
            assert forall|k: int| 0 <= k <= m implies hall_interval@[k] == predecessor@[k] by {
                if k >= 1 {
                    assert(hall_interval[k] == k - 1);
                    assert(predecessor[k] == k - 1);
                }
            }
        }
        assert(pushes@ == Seq::<HallPush>::empty());
        lemma_search_start(
            bs,
            x,
            y,
            m,
            predecessor@,
            diff@,
            bucket@,
            next@,
            order@,
            lb@,
            root,
            chain,
        );
    }

    let mut i: usize = 0;
    while i < size
        invariant
            0 <= i <= size == lb.len() < usize::MAX,
            nb + 1 == bounds.len() < usize::MAX,
            m == nb,
            bs == ints(bounds@),
            x == by_order(min_rank@, order@),
            y == by_order(max_rank@, order@),
            ranks(bounds@, min_rank@, max_rank@, order@, lb@, ub@),
            capacities(bs, x, m, i as int, predecessor@, diff@, root),
            uncrowded(bs, x, y, m, i as int),
            halls(bs, x, y, m, i as int, root, hall_interval@, hroot),
            chained(m, i as int, bucket@, next@, order@, chain, slot),
            stocked(bs, x, m, diff@, root, chain),
            housed(x, y, m, hall_interval@, hroot, chain),
            lb_cache.len() == size,
            rank.len() == size,
            forall|v: int|
                0 <= v < size ==> min_rank[v] <= #[trigger] rank[v] < bounds.len() && lb_cache[v]
                    == bounds[rank[v]],
            forall|v: int|
                0 <= v < size ==> #[trigger] lb_cache[v] == pushed(
                    lb@,
                    pushes@,
                    pushes.len() as int,
                    v,
                ),
            forall|k: int| 0 <= k < pushes.len() ==> #[trigger] justified(lb@, ub@, pushes@, k),
            accepted(ub@, pushes@),
            filtered(bs, x, y, m, i as int, order@, lb@, pushes@),
        decreases size - i,
    {
        let var: usize = order[i];
        let max: usize = max_rank[var];
        let min: usize = min_rank[var];
        let ghost n: int = i as int;
        let ghost root0: Seq<int> = root;
        let ghost diff0: Seq<IntVal> = diff@;
        let ghost chain0: Seq<Seq<int>> = chain;
        let ghost pushes0: Seq<HallPush> = pushes@;
        proof {
            assert(x[n] == min);
            assert(y[n] == max);
            assert(1 <= x[n] < y[n] < m) by {
                reveal(ranked);
            }
            assert(grouped(hall_interval@, hroot, m)) by {
                reveal(halls);
            }
            assert(bucket.len() == m + 1 && next.len() == size && chain.len() == m + 1
                && slot.len() == n) by {
                reveal(chained);
            }
        }
        let (placement, Ghost(root2)) = place(
            &mut predecessor,
            &mut diff,
            min,
            Ghost(bs),
            Ghost(x),
            Ghost(y),
            Ghost(m),
            Ghost(n),
            Ghost(root0),
        );
        let first: usize = placement.first;
        let z: usize = placement.z;
        let j: usize = placement.j;
        proof {
            lemma_chain_push(m, n, bucket@, next@, order@, chain0, slot, first as int);
            assert forall|k: int, p: int| 1 <= k <= m && 0 <= p < chain0[k].len() implies 0
                <= x[#[trigger] chain0[k][p]] < m by {
                reveal(stocked);
            }
            lemma_stock_push(bs, x, m, n, diff0, root0, root2, chain0, first as int);
            lemma_housed_push(
                bs,
                x,
                y,
                m,
                n,
                root0,
                hall_interval@,
                hroot,
                chain0,
                first as int,
            );
            root = root2;
            chain = chain0.update(first as int, seq![n] + chain0[first as int]);
            slot = slot.push(first as int);
        }
        next.set(var, bucket[first]);
        bucket.set(first, var);

        if hall_interval[min] > min {
            proof {
                assert(hroot[min as int] > min);
                assert(hroot[hall_interval[min as int] as int] == hroot[min as int]);
                lemma_climb_root(hall_interval@, hroot, m, hall_interval[min as int] as int);
                assert forall|k: int| 0 <= k < hall_interval@.len() implies
                    #[trigger] hall_interval@[k] < hall_interval@.len() by {
                    assert(hroot[k] <= m);
                }
            }
            let w: usize = path_max(&hall_interval, hall_interval[min]);
            let push: HallPush = push_out(
                bounds,
                &bucket,
                &next,
                &lb_cache,
                var,
                min,
                w,
                Ghost(min_rank@),
                Ghost(max_rank@),
                Ghost(order@),
                Ghost(lb@),
                Ghost(ub@),
                Ghost(n),
                Ghost(root0),
                Ghost(root),
                Ghost(diff@),
                Ghost(predecessor@),
                Ghost(hall_interval@),
                Ghost(hroot),
                Ghost(chain),
                Ghost(slot),
                Ghost(rank),
            );
            let bound: IntVal = push.bound;
            proof {
                assert forall|k: int| 0 <= k <= pushes0.len() implies #[trigger] justified(
                    lb@,
                    ub@,
                    pushes0.push(push),
                    k,
                ) by {
                    let after = pushes0.push(push);
                    if k < pushes0.len() {
                        assert(justified(lb@, ub@, pushes0, k));
                        assert(after[k] == pushes0[k]);
                        assert forall|p: int| 0 <= p < after[k].members.len() implies after[k].floor
                            <= pushed(lb@, after, k, #[trigger] after[k].members[p] as int)
                            && ub@[after[k].members[p] as int] < after[k].bound by {
                            lemma_pushed_prefix(
                                lb@,
                                pushes0,
                                push,
                                k,
                                after[k].members[p] as int,
                            );
                        }
                    } else {
                        assert(after[k] == push);
                        assert forall|p: int| 0 <= p < push.members.len() implies push.floor
                            <= pushed(lb@, after, k, #[trigger] push.members[p] as int)
                            && ub@[push.members[p] as int] < push.bound by {
                            let v = push.members[p] as int;
                            assert(push.floor <= lb_cache[v]);
                            lemma_pushed_prefix(lb@, pushes0, push, k, v);
                        }
                    }
                }
            }
            pushes.push(push);
            if bound > ub[var] {
                proof {
                    assert(!accepted(ub@, pushes@)) by {
                        assert(pushes@[pushes0.len() as int].bound > ub[var as int]);
                    }
                }
                return pushes;
            }
            lb_cache.set(var, bound);
            let ghost h0: Seq<usize> = hall_interval@;
            let ghost steps: nat = lemma_compress(h0, hroot, m, min as int, w);
            path_set(&mut hall_interval, min, w, w);
            proof {
                rank = rank.update(var as int, w as int);
                lemma_filtered_step(
                    bs,
                    x,
                    y,
                    m,
                    n,
                    root0,
                    h0,
                    hroot,
                    order@,
                    lb@,
                    pushes0,
                    pushes@,
                );
                lemma_halls_compressed(
                    bs,
                    x,
                    y,
                    m,
                    n,
                    root0,
                    h0,
                    hall_interval@,
                    hroot,
                    chain,
                );
                assert forall|v: int| 0 <= v < size implies #[trigger] lb_cache[v] == pushed(
                    lb@,
                    pushes@,
                    pushes.len() as int,
                    v,
                ) by {
                    if v != var {
                        lemma_pushed_prefix(lb@, pushes0, pushes@.last(), pushes0.len() as int, v);
                    }
                }
                assert(ub[var as int] + 1 == bounds[max as int]);
                if w >= max {
                    assert(bs[max as int] <= bs[w as int]) by {
                        reveal(ranked);
                        if w > max {
                            assert(bs[max as int] < bs[w as int]);
                        }
                    }
                }
            }
        } else {
            proof {
                assert(hroot[min as int] == min);
                lemma_filtered_step(
                    bs,
                    x,
                    y,
                    m,
                    n,
                    root0,
                    hall_interval@,
                    hroot,
                    order@,
                    lb@,
                    pushes0,
                    pushes@,
                );
            }
        }
        proof {
            assert(hroot[x[n]] < y[n]);
            lemma_stays_uncrowded(bs, x, y, m, n, root0, hall_interval@, hroot);
        }
        let ghost h1: Seq<usize> = hall_interval@;
        if diff[z] == bounds[z] - bounds[max] {
            let ghost steps: nat = lemma_halls_covered(
                bs,
                x,
                y,
                m,
                n,
                predecessor@,
                diff@,
                root,
                root0,
                h1,
                hroot,
            );
            let after: usize = hall_interval[max];
            path_set(&mut hall_interval, after, j - 1, max);
            hall_interval.set(max, j - 1);
            proof {
                assert forall|k: int, p: int| 0 <= k <= m && 0 <= p < chain[k].len() implies 0
                    <= #[trigger] chain[k][p] <= n by {
                    reveal(chained);
                }
                lemma_housed_covered(
                    bs,
                    x,
                    y,
                    m,
                    n,
                    predecessor@,
                    diff@,
                    root,
                    h1,
                    hroot,
                    hall_interval@,
                    chain,
                );
                hroot = covered(hroot, j as int, max as int);
            }
        } else {
            proof {
                lemma_halls_kept(
                    bs,
                    x,
                    y,
                    m,
                    n,
                    predecessor@,
                    diff@,
                    root,
                    root0,
                    h1,
                    hroot,
                );
            }
        }
        i = i + 1;
    }
    pushes
}

} // verus!
