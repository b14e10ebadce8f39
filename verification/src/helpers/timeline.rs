//! A time line on which tasks are scheduled with preemption.
//!
//! The distinct earliest starts of the tasks, followed by a late time point, cut the time into
//! slots. Each slot has a capacity, which scheduling a task uses up from the earliest start of
//! the task on. Tasks are never removed.

use vstd::prelude::*;

use crate::helpers::sorted::{ascending, insert_value};
use crate::solver::view::{IntVal, INT_LIMIT};

verus! {

/// Disjoint sets of consecutive numbers, each represented by its greatest element.
#[derive(Debug)]
pub struct UnionFind {
    /// For each number a greater one of the same set; the greatest one points to itself.
    pub parent: Vec<usize>,
}

/// The greatest number of the set of `x`.
pub open spec fn greatest(parent: Seq<usize>, x: int) -> int
    decreases parent.len() - x,
{
    if 0 <= x < parent.len() && x < parent[x] < parent.len() {
        greatest(parent, parent[x] as int)
    } else {
        x
    }
}

/// Whether each number points to a number that is not less.
pub open spec fn upward(parent: Seq<usize>) -> bool {
    forall|x: int| 0 <= x < parent.len() ==> x <= #[trigger] parent[x] < parent.len()
}

proof fn lemma_greatest(parent: Seq<usize>, x: int)
    requires
        upward(parent),
        0 <= x < parent.len(),
    ensures
        x <= greatest(parent, x) < parent.len(),
        parent[greatest(parent, x)] == greatest(parent, x),
        greatest(parent, greatest(parent, x)) == greatest(parent, x),
    decreases parent.len() - x,
{
    if parent[x] > x {
        lemma_greatest(parent, parent[x] as int);
    }
}

/// Pointing to the greatest number of the set changes no set.
proof fn lemma_compress(parent: Seq<usize>, c: int, x: int)
    requires
        upward(parent),
        0 <= c < parent.len(),
        0 <= x < parent.len(),
    ensures
        upward(parent.update(c, greatest(parent, c) as usize)),
        greatest(parent.update(c, greatest(parent, c) as usize), x) == greatest(parent, x),
    decreases parent.len() - x,
{
    lemma_greatest(parent, c);
    let after = parent.update(c, greatest(parent, c) as usize);
    if x == c {
        let g = greatest(parent, c);
        if g > c {
            lemma_compress(parent, c, g);
        }
    } else if parent[x] > x {
        lemma_compress(parent, c, parent[x] as int);
    }
}

/// Pointing the greatest number of a set to that of another set joins the sets.
proof fn lemma_join(parent: Seq<usize>, ra: int, rb: int, x: int)
    requires
        upward(parent),
        0 <= ra < rb < parent.len(),
        parent[ra] == ra,
        parent[rb] == rb,
        0 <= x < parent.len(),
    ensures
        upward(parent.update(ra, rb as usize)),
        greatest(parent.update(ra, rb as usize), x) == if greatest(parent, x) == ra {
            rb
        } else {
            greatest(parent, x)
        },
    decreases parent.len() - x,
{
    let after = parent.update(ra, rb as usize);
    if x == ra {
        assert(greatest(after, rb) == rb);
    } else if parent[x] > x {
        lemma_join(parent, ra, rb, parent[x] as int);
    }
}

/// Whether each set is a range of numbers.
pub open spec fn contiguous(parent: Seq<usize>) -> bool {
    forall|x: int, y: int|
        0 <= x <= y <= greatest(parent, x) && y < parent.len() ==> #[trigger] greatest(parent, y)
            == #[trigger] greatest(parent, x)
}

/// Whether the sets are those of before with the sets of `a` and `b` joined, each with its
/// greatest number.
pub open spec fn joined(before: Seq<usize>, after: Seq<usize>, a: int, b: int) -> bool {
    let ra = greatest(before, a);
    let rb = greatest(before, b);
    forall|x: int|
        0 <= x < before.len() ==> #[trigger] greatest(after, x) == if greatest(before, x) == ra {
            rb
        } else {
            greatest(before, x)
        }
}

/// Where the sets are ranges, that of a number lies no further up than that of the next one.
pub proof fn lemma_neighbours_ordered(parent: Seq<usize>, a: int)
    requires
        upward(parent),
        contiguous(parent),
        0 <= a,
        a + 1 < parent.len(),
    ensures
        greatest(parent, a) <= greatest(parent, a + 1),
{
    lemma_greatest(parent, a);
    lemma_greatest(parent, a + 1);
    if greatest(parent, a) > a {
        assert(greatest(parent, a + 1) == greatest(parent, a));
    }
}

/// Joining neighbours keeps the sets ranges, each of which is represented by its greatest number.
pub proof fn lemma_neighbours_joined(before: Seq<usize>, after: Seq<usize>, a: int)
    requires
        upward(before),
        contiguous(before),
        upward(after),
        after.len() == before.len(),
        0 <= a,
        a + 1 < before.len(),
        joined(before, after, a, a + 1),
    ensures
        contiguous(after),
        forall|x: int|
            0 <= x < after.len() ==> x <= #[trigger] greatest(after, x) < after.len() && greatest(
                after,
                greatest(after, x),
            ) == greatest(after, x),
{
    let ra = greatest(before, a);
    let rb = greatest(before, a + 1);
    lemma_neighbours_ordered(before, a);
    lemma_greatest(before, a);
    lemma_greatest(before, a + 1);
    assert forall|x: int| 0 <= x < after.len() implies x <= #[trigger] greatest(after, x)
        < after.len() && greatest(after, greatest(after, x)) == greatest(after, x) by {
        lemma_greatest(after, x);
    }
    assert forall|x: int, y: int|
        0 <= x <= y <= greatest(after, x) && y < after.len() implies #[trigger] greatest(after, y)
        == #[trigger] greatest(after, x) by {
        lemma_greatest(before, x);
        lemma_greatest(before, y);
        let gx = greatest(before, x);
        if y <= gx {
            assert(greatest(before, y) == gx);
        } else {
            // The set of `x` was joined to the next one, in which `y` lies.
            assert(gx == ra);
            if ra > a {
                assert(greatest(before, a + 1) == ra);
            } else {
                assert(ra == a);
                assert(a + 1 <= y <= rb);
                assert(greatest(before, y) == rb);
            }
        }
    }
}

impl UnionFind {
    /// The sets with one number each.
    pub fn new(n: usize) -> (r: UnionFind)
        ensures
            contiguous(r.parent@),
            r.parent.len() == n,
            upward(r.parent@),
            forall|x: int| 0 <= x < n ==> #[trigger] greatest(r.parent@, x) == x,
    {
        let mut parent: Vec<usize> = Vec::new();
        let mut i: usize = 0;
        while i < n
            invariant
                i <= n,
                parent.len() == i,
                forall|x: int| 0 <= x < i ==> #[trigger] parent@[x] == x,
            decreases n - i,
        {
            parent.push(i);
            i = i + 1;
        }
        UnionFind { parent }
    }

    /// The greatest number of the set of `a`.
    pub fn find_greatest(&mut self, a: usize) -> (r: usize)
        requires
            upward(old(self).parent@),
            a < old(self).parent.len(),
        ensures
            r == greatest(old(self).parent@, a as int),
            a <= r < old(self).parent.len(),
            upward(final(self).parent@),
            final(self).parent.len() == old(self).parent.len(),
            forall|x: int|
                0 <= x < old(self).parent.len() ==> #[trigger] greatest(final(self).parent@, x)
                    == greatest(old(self).parent@, x),
            contiguous(old(self).parent@) ==> contiguous(final(self).parent@),
    {
        let ghost before = self.parent@;
        let mut root: usize = a;
        while self.parent[root] != root
            invariant
                self.parent@ == before,
                upward(before),
                a <= root < before.len(),
                greatest(before, root as int) == greatest(before, a as int),
            decreases before.len() - root,
        {
            proof {
                assert(root <= before[root as int] < before.len());
            }
            root = self.parent[root];
        }
        let mut cur: usize = a;
        while self.parent[cur] != root
            invariant
                before == old(self).parent@,
                root == greatest(before, a as int),
                a <= root < before.len(),
                before[root as int] == root,
                upward(before),
                self.parent.len() == before.len(),
                upward(self.parent@),
                forall|x: int|
                    0 <= x < before.len() ==> #[trigger] greatest(self.parent@, x) == greatest(
                        before,
                        x,
                    ),
                cur <= root,
                greatest(before, cur as int) == root,
                self.parent@[root as int] == root,
            decreases root - cur,
        {
            let ghost now = self.parent@;
            let next: usize = self.parent[cur];
            proof {
                assert(cur <= now[cur as int] < now.len());
                lemma_greatest(now, cur as int);
                assert(greatest(now, cur as int) == root);
                assert(cur != root);
                assert(next > cur) by {
                    if next == cur {
                        assert(greatest(now, cur as int) == cur);
                    }
                }
                assert(greatest(now, next as int) == root);
                lemma_greatest(now, next as int);
                assert forall|x: int| 0 <= x < now.len() implies upward(
                    now.update(cur as int, root),
                ) && #[trigger] greatest(now.update(cur as int, root), x) == greatest(now, x) by {
                    lemma_compress(now, cur as int, x);
                }
                let _ = greatest(now.update(cur as int, root), cur as int);
                assert(greatest(before, next as int) == greatest(now, next as int));
            }
            self.parent.set(cur, root);
            cur = next;
        }
        root
    }

    /// Join the sets of `a` and of a greater number `b`. Sets that are ranges stay so if the
    /// numbers are neighbours.
    pub fn union(&mut self, a: usize, b: usize)
        requires
            upward(old(self).parent@),
            a < b < old(self).parent.len(),
            greatest(old(self).parent@, a as int) <= greatest(old(self).parent@, b as int),
        ensures
            upward(final(self).parent@),
            final(self).parent.len() == old(self).parent.len(),
            joined(old(self).parent@, final(self).parent@, a as int, b as int),
            contiguous(old(self).parent@) && b == a + 1 ==> contiguous(final(self).parent@),
    {
        let ghost before = self.parent@;
        let ra: usize = self.find_greatest(a);
        let rb: usize = self.find_greatest(b);
        let ghost now = self.parent@;
        proof {
            lemma_greatest(now, a as int);
            lemma_greatest(now, b as int);
            assert(greatest(now, a as int) == ra);
            assert(greatest(now, b as int) == rb);
        }
        self.parent.set(ra, rb);
        proof {
            if ra < rb {
                assert forall|x: int| 0 <= x < now.len() implies upward(
                    now.update(ra as int, rb),
                ) && #[trigger] greatest(now.update(ra as int, rb), x) == if greatest(now, x) == ra {
                    rb as int
                } else {
                    greatest(now, x)
                } by {
                    lemma_join(now, ra as int, rb as int, x);
                }
                let _ = greatest(now.update(ra as int, rb), a as int);
            } else {
                assert(now.update(ra as int, rb) =~= now);
            }
            assert(joined(before, self.parent@, a as int, b as int));
            if contiguous(before) && b == a + 1 {
                lemma_neighbours_joined(before, self.parent@, a as int);
            }
        }
    }
}

/// The work that is left over from earlier slots when slot `a` begins, where `w` is the work
/// that is released at each time point.
pub open spec fn carry(t: Seq<IntVal>, w: Seq<int>, a: int) -> int
    decreases a,
{
    if a <= 0 {
        0
    } else {
        let over = carry(t, w, a - 1) + w[a - 1] - (t[a] - t[a - 1]);
        if over > 0 {
            over
        } else {
            0
        }
    }
}

/// The capacity that is left of slot `a`.
pub open spec fn left(t: Seq<IntVal>, w: Seq<int>, a: int) -> int {
    let rest = (t[a + 1] - t[a]) - carry(t, w, a) - w[a];
    if rest > 0 {
        rest
    } else {
        0
    }
}

/// When the work that is released at the time points up to `a` is completed, if any task is
/// released there: each time point waits for the work that was released before.
pub open spec fn finish(t: Seq<IntVal>, w: Seq<int>, on: Seq<bool>, a: int) -> Option<int>
    decreases a + 1,
{
    if a < 0 {
        None
    } else if on[a] {
        match finish(t, w, on, a - 1) {
            Some(f) => Some(
                (if f > t[a] {
                    f
                } else {
                    t[a] as int
                }) + w[a],
            ),
            None => Some(t[a] + w[a]),
        }
    } else {
        finish(t, w, on, a - 1)
    }
}

/// The work that is released at the time points from `a` up to `b`.
pub open spec fn released(w: Seq<int>, a: int, b: int) -> int
    decreases b - a + 1,
{
    if b < a {
        0
    } else {
        released(w, a, b - 1) + w[b]
    }
}

/// The completion time is the largest, over the time points where tasks are released, of the
/// time point and the work that is released from there on.
pub proof fn lemma_finish_largest(t: Seq<IntVal>, w: Seq<int>, on: Seq<bool>, a: int) -> (i: int)
    requires
        a < t.len(),
        a < w.len(),
        a < on.len(),
        finish(t, w, on, a) is Some,
        forall|x: int| 0 <= x < w.len() && !(#[trigger] on[x]) ==> w[x] == 0,
        on.len() == w.len(),
    ensures
        0 <= i <= a,
        on[i],
        finish(t, w, on, a) == Some(t[i] + released(w, i, a)),
        forall|k: int|
            0 <= k <= a && on[k] ==> t[k] + #[trigger] released(w, k, a) <= finish(t, w, on, a)->0,
    decreases a + 1,
{
    if on[a] {
        assert(released(w, a, a) == w[a]) by {
            assert(released(w, a, a - 1) == 0);
        }
        match finish(t, w, on, a - 1) {
            Some(f) => {
                let j = lemma_finish_largest(t, w, on, a - 1);
                assert(released(w, j, a) == released(w, j, a - 1) + w[a]);
                assert forall|k: int| 0 <= k <= a && on[k] implies t[k] + #[trigger] released(
                    w,
                    k,
                    a,
                ) <= finish(t, w, on, a)->0 by {
                    if k < a {
                        assert(t[k] + released(w, k, a - 1) <= f);
                    }
                }
                if f > t[a] {
                    j
                } else {
                    a
                }
            },
            None => {
                assert forall|k: int| 0 <= k <= a && on[k] implies k == a by {
                    if k < a {
                        lemma_finish_some(t, w, on, a - 1, k);
                    }
                }
                a
            },
        }
    } else {
        let j = lemma_finish_largest(t, w, on, a - 1);
        assert forall|k: int| 0 <= k <= a && on[k] implies t[k] + #[trigger] released(w, k, a)
            <= finish(t, w, on, a)->0 by {
            assert(released(w, k, a) == released(w, k, a - 1) + w[a]);
            assert(t[k] + released(w, k, a - 1) <= finish(t, w, on, a - 1)->0);
        }
        assert(released(w, j, a) == released(w, j, a - 1) + w[a]);
        j
    }
}

proof fn lemma_finish_some(t: Seq<IntVal>, w: Seq<int>, on: Seq<bool>, a: int, k: int)
    requires
        0 <= k <= a,
        on[k],
    ensures
        finish(t, w, on, a) is Some,
    decreases a,
{
    if k < a {
        lemma_finish_some(t, w, on, a - 1, k);
    }
}

/// The capacities after some work was poured into the slots from `k` on.
pub open spec fn poured(c: Seq<int>, k: int, rho: int) -> Seq<int>
    decreases c.len() - k,
{
    if k < 0 || k >= c.len() || rho <= 0 {
        c
    } else {
        let d = if c[k] < rho {
            c[k]
        } else {
            rho
        };
        poured(c.update(k, c[k] - d), k + 1, rho - d)
    }
}

/// Whether the capacities from slot `k` on are those that are left.
spec fn lefts(t: Seq<IntVal>, w: Seq<int>, c: Seq<int>) -> bool {
    &&& t.len() == c.len() + 1
    &&& w.len() == c.len()
    &&& forall|a: int| 0 <= a < c.len() ==> #[trigger] c[a] == left(t, w, a)
}

proof fn lemma_carry_same(t: Seq<IntVal>, w: Seq<int>, v: Seq<int>, k: int, a: int)
    requires
        a <= k,
        forall|x: int| 0 <= x < k ==> #[trigger] w[x] == v[x],
    ensures
        carry(t, w, a) == carry(t, v, a),
    decreases a,
{
    if a > 0 {
        lemma_carry_same(t, w, v, k, a - 1);
        assert(w[a - 1] == v[a - 1]);
    }
}

proof fn lemma_carry_after(t: Seq<IntVal>, w: Seq<int>, v: Seq<int>, k: int, a: int)
    requires
        0 <= k <= a,
        carry(t, w, k) == carry(t, v, k),
        forall|x: int| k <= x < a ==> #[trigger] w[x] == v[x],
    ensures
        carry(t, w, a) == carry(t, v, a),
    decreases a - k,
{
    if k < a {
        lemma_carry_after(t, w, v, k, a - 1);
        assert(w[a - 1] == v[a - 1]);
    }
}

/// Work that is released at a time point is poured into the slots from there on.
proof fn lemma_poured(t: Seq<IntVal>, w: Seq<int>, c: Seq<int>, k: int, rho: int)
    requires
        lefts(t, w, c),
        0 <= k < c.len(),
        rho >= 0,
        forall|a: int| 0 <= a < w.len() ==> #[trigger] w[a] >= 0,
        forall|a: int| 0 <= a < c.len() ==> (#[trigger] t[a]) < t[a + 1],
    ensures
        lefts(t, w.update(k, w[k] + rho), poured(c, k, rho)),
    decreases c.len() - k,
{
    let after = w.update(k, w[k] + rho);
    if rho == 0 {
        assert(after =~= w);
    } else {
        let d = if c[k] < rho {
            c[k]
        } else {
            rho
        };
        let c2 = c.update(k, c[k] - d);
        let w2 = w.update(k, w[k] + d);
        assert(c[k] == left(t, w, k));
        lemma_carry_same(t, w, w2, k, k);
        lemma_carry_nonneg(t, w, k);
        assert(lefts(t, w2, c2)) by {
            assert forall|a: int| 0 <= a < c2.len() implies #[trigger] c2[a] == left(t, w2, a) by {
                assert(c[a] == left(t, w, a));
                if a < k {
                    lemma_carry_same(t, w, w2, k, a);
                } else if a > k {
                    assert(d > 0 ==> carry(t, w2, k + 1) == carry(t, w, k + 1));
                    if d == 0 {
                        assert(w2 =~= w);
                    }
                    lemma_carry_after(t, w, w2, k + 1, a);
                }
            }
        }
        if k + 1 < c.len() {
            lemma_poured(t, w2, c2, k + 1, rho - d);
            let v = w2.update(k + 1, w2[k + 1] + (rho - d));
            // Work that is left over counts as released at the next time point.
            lemma_carry_same(t, after, v, k, k);
            lemma_carry_same(t, w, v, k, k);
            lemma_carry_same(t, w2, v, k, k);
            assert(carry(t, after, k + 1) == carry(t, v, k + 1) + (rho - d));
            assert forall|a: int| 0 <= a < c.len() implies #[trigger] poured(c, k, rho)[a] == left(
                t,
                after,
                a,
            ) by {
                assert(poured(c2, k + 1, rho - d)[a] == left(t, v, a));
                if a < k {
                    lemma_carry_same(t, after, v, k, a);
                } else if a > k + 1 {
                    assert(carry(t, after, k + 2) == carry(t, v, k + 2));
                    lemma_carry_after(t, after, v, k + 2, a);
                }
            }
            lemma_poured_len(c2, k + 1, rho - d);
        } else {
            assert(poured(c2, k + 1, rho - d) == c2);
            assert(poured(c, k, rho) == c2);
            assert forall|a: int| 0 <= a < c.len() implies #[trigger] c2[a] == left(t, after, a) by {
                if a < k {
                    lemma_carry_same(t, after, w, k, a);
                    assert(c[a] == left(t, w, a));
                } else {
                    lemma_carry_same(t, after, w, k, k);
                }
            }
        }
    }
}

proof fn lemma_carry_nonneg(t: Seq<IntVal>, w: Seq<int>, a: int)
    ensures
        carry(t, w, a) >= 0,
{
}

proof fn lemma_poured_len(c: Seq<int>, k: int, rho: int)
    ensures
        poured(c, k, rho).len() == c.len(),
    decreases c.len() - k,
{
    if !(k < 0 || k >= c.len() || rho <= 0) {
        let d = if c[k] < rho {
            c[k]
        } else {
            rho
        };
        lemma_poured_len(c.update(k, c[k] - d), k + 1, rho - d);
    }
}

/// Slots without capacity are skipped.
proof fn lemma_poured_skip(c: Seq<int>, k: int, j: int, rho: int)
    requires
        0 <= k <= j,
        rho >= 0,
        forall|x: int| k <= x < j && x < c.len() ==> #[trigger] c[x] == 0,
    ensures
        poured(c, k, rho) == poured(c, j, rho),
    decreases j - k,
{
    if k < j && k < c.len() && rho > 0 {
        assert(c[k] == 0);
        assert(c.update(k, c[k] - 0) =~= c);
        lemma_poured_skip(c, k + 1, j, rho);
    }
}

/// The capacity that is left from slot `k` on.
pub open spec fn free(c: Seq<int>, k: int) -> int
    decreases c.len() - k,
{
    if k < 0 || k >= c.len() {
        0
    } else {
        c[k] + free(c, k + 1)
    }
}

proof fn lemma_free_skip(c: Seq<int>, k: int, j: int)
    requires
        0 <= k <= j <= c.len(),
        forall|x: int| k <= x < j ==> #[trigger] c[x] == 0,
    ensures
        free(c, k) == free(c, j),
    decreases j - k,
{
    if k < j {
        assert(c[k] == 0);
        lemma_free_skip(c, k + 1, j);
    }
}

proof fn lemma_free_update(c: Seq<int>, k: int, v: int)
    requires
        0 <= k < c.len(),
    ensures
        free(c.update(k, v), k + 1) == free(c, k + 1),
        free(c.update(k, v), k) == free(c, k) - c[k] + v,
{
    lemma_free_after(c, c.update(k, v), k + 1);
}

proof fn lemma_free_after(c: Seq<int>, e: Seq<int>, k: int)
    requires
        0 <= k,
        c.len() == e.len(),
        forall|x: int| k <= x < c.len() ==> #[trigger] c[x] == e[x],
    ensures
        free(c, k) == free(e, k),
    decreases c.len() - k,
{
    if k < c.len() {
        assert(c[k] == e[k]);
        lemma_free_after(c, e, k + 1);
    }
}

/// The values as integers.
pub open spec fn numbers(c: Seq<IntVal>) -> Seq<int> {
    Seq::new(c.len(), |a: int| c[a] as int)
}

/// The sum of the first `k` values.
pub open spec fn total(p: Seq<IntVal>, k: int) -> int
    decreases k,
{
    if k <= 0 {
        0
    } else {
        total(p, k - 1) + p[k - 1]
    }
}

/// Whether the value is the largest one, or zero if there is none.
pub open spec fn is_max(s: Seq<IntVal>, v: int) -> bool {
    if s.len() == 0 {
        v == 0
    } else {
        (exists|k: int| 0 <= k < s.len() && #[trigger] s[k] == v) && forall|k: int|
            0 <= k < s.len() ==> #[trigger] s[k] <= v
    }
}

/// The time line of some tasks.
pub struct TimeLine {
    /// The distinct earliest starts in increasing order, and a late time point.
    pub t: Vec<IntVal>,
    /// The capacity that is left of each slot between time points.
    pub c: Vec<IntVal>,
    /// The index of the earliest start of each task.
    pub m: Vec<usize>,
    /// The slot in which the scheduled tasks are completed.
    pub e: Option<usize>,
    /// The slots that are joined with the next one, since they have no capacity left.
    pub uf: UnionFind,
    /// The work that was released at each time point.
    pub work: Ghost<Seq<int>>,
    /// Whether a task was released at each time point.
    pub on: Ghost<Seq<bool>>,
}

/// The time points of tasks: the earliest starts, and the late one.
pub open spec fn is_time_points(t: Seq<IntVal>, est: Seq<IntVal>, late: int) -> bool {
    &&& t.len() >= 1
    &&& t.last() == late
    &&& forall|a: int, b: int| 0 <= a < b < t.len() - 1 ==> #[trigger] t[a] < #[trigger] t[b]
    &&& forall|v: IntVal| #[trigger] t.drop_last().contains(v) <==> est.contains(v)
}

impl TimeLine {
    /// Whether the time points increase, and the rest fits the tasks that were scheduled.
    pub open spec fn wf(&self) -> bool {
        let n = self.c.len() as int;
        &&& self.t.len() == n + 1
        &&& self.uf.parent.len() == n + 1
        &&& upward(self.uf.parent@)
        &&& self.work@.len() == n
        &&& self.on@.len() == n
        &&& forall|a: int| 0 <= a < n ==> (#[trigger] self.t[a]) < self.t[a + 1]
        &&& forall|a: int| 0 <= a <= n ==> -2 * INT_LIMIT <= #[trigger] self.t[a] <= 2 * INT_LIMIT
        &&& forall|a: int| 0 <= a < n ==> #[trigger] self.work@[a] >= 0
        &&& forall|a: int| 0 <= a < n && !(#[trigger] self.on@[a]) ==> self.work@[a] == 0
        &&& forall|a: int| 0 <= a < n ==> #[trigger] self.c[a] == left(self.t@, self.work@, a)
        &&& forall|i: int| 0 <= i < self.m.len() ==> #[trigger] self.m[i] < n
        // A slot is joined with the next one if and only if it has no capacity left.
        &&& forall|a: int|
            0 <= a <= n ==> {
                let g = #[trigger] greatest(self.uf.parent@, a);
                &&& a <= g <= n
                &&& g < n ==> self.c[g] > 0
                &&& forall|x: int| a <= x < g ==> #[trigger] self.c[x] == 0
            }
        &&& match self.e {
            None => forall|a: int| 0 <= a < n ==> !#[trigger] self.on@[a],
            Some(e) => {
                &&& e < n
                &&& self.c[e as int] > 0
                &&& forall|a: int| 0 <= a < n && #[trigger] self.on@[a] ==> a <= e
                &&& exists|b: int|
                    0 <= b <= e && #[trigger] self.on@[b] && forall|x: int|
                        b <= x < e ==> #[trigger] self.c[x] == 0
            },
        }
    }

    /// Create the time line of the tasks with the given earliest starts, latest completion times
    /// and durations.
    pub fn new(est: &Vec<IntVal>, lct: &Vec<IntVal>, p: &Vec<IntVal>) -> (r: TimeLine)
        requires
            est.len() == lct.len(),
            est.len() == p.len(),
            forall|i: int|
                0 <= i < est.len() ==> -INT_LIMIT <= #[trigger] est[i] <= INT_LIMIT,
            forall|i: int|
                0 <= i < lct.len() ==> -INT_LIMIT <= #[trigger] lct[i] <= INT_LIMIT,
            forall|k: int|
                0 <= k <= p.len() ==> -INT_LIMIT <= #[trigger] total(p@, k) <= INT_LIMIT,
        ensures
            exists|late: int| #[trigger]
                is_max(lct@, late) && is_time_points(
                    r.t@,
                    est@,
                    late + total(p@, p.len() as int),
                ),
            r.c.len() == r.t.len() - 1,
            forall|a: int| 0 <= a < r.c.len() ==> #[trigger] r.c[a] == r.t[a + 1] - r.t[a],
            r.m.len() == est.len(),
            forall|i: int|
                0 <= i < est.len() ==> #[trigger] r.m[i] < r.c.len() && r.t[r.m[i] as int]
                    == est[i],
            r.e is None,
            forall|a: int| 0 <= a < r.c.len() ==> #[trigger] r.work@[a] == 0,
            (forall|i: int| 0 <= i < est.len() ==> #[trigger] est[i] < r.t[r.t.len() - 1])
                ==> r.wf(),
    {
        let mut t: Vec<IntVal> = Vec::new();
        let mut i: usize = 0;
        let mut late: IntVal = 0;
        let mut sum: IntVal = 0;
        while i < est.len()
            invariant
                i <= est.len(),
                est.len() == lct.len(),
                est.len() == p.len(),
                ascending(t@),
                forall|v: IntVal| #[trigger] t@.contains(v) <==> est@.take(i as int).contains(v),
                forall|i: int| 0 <= i < lct.len() ==> -INT_LIMIT <= #[trigger] lct[i] <= INT_LIMIT,
                forall|k: int|
                    0 <= k <= p.len() ==> -INT_LIMIT <= #[trigger] total(p@, k) <= INT_LIMIT,
                sum == total(p@, i as int),
                -INT_LIMIT <= late <= INT_LIMIT,
                is_max(lct@.take(i as int), late as int),
            decreases est.len() - i,
        {
            let ghost before = t@;
            insert_value(&mut t, est[i]);
            proof {
                assert(est@.take(i + 1) =~= est@.take(i as int).push(est@[i as int]));
                assert(lct@.take(i + 1) =~= lct@.take(i as int).push(lct@[i as int]));
                assert forall|v: IntVal| #[trigger]
                    t@.contains(v) <==> est@.take(i + 1).contains(v) by {
                    let now = est@.take(i as int);
                    if now.contains(v) {
                        let k = now.index_of(v);
                        assert(est@.take(i + 1)[k] == v);
                    }
                    if v == est@[i as int] {
                        assert(est@.take(i + 1)[i as int] == v);
                    }
                    if est@.take(i + 1).contains(v) {
                        let k = est@.take(i + 1).index_of(v);
                        if k < i {
                            assert(now[k] == v);
                        }
                    }
                }
                assert(total(p@, i + 1) == sum + p@[i as int]);
                assert(-INT_LIMIT <= total(p@, i + 1) <= INT_LIMIT);
            }
            sum = sum + p[i];
            let l: IntVal = lct[i];
            if i == 0 || l > late {
                late = l;
                proof {
                    assert(lct@.take(i + 1)[i as int] == late);
                }
            } else {
                proof {
                    let now = lct@.take(i as int);
                    let k = choose|k: int| 0 <= k < now.len() && #[trigger] now[k] == late;
                    assert(lct@.take(i + 1)[k] == late);
                }
            }
            i = i + 1;
        }
        let ghost starts = t@;
        proof {
            assert(est@.take(est.len() as int) =~= est@);
            assert(lct@.take(lct.len() as int) =~= lct@);
        }
        t.push(late + sum);
        proof {
            assert(t@.drop_last() =~= starts);
            assert(is_time_points(t@, est@, late + total(p@, p.len() as int)));
            assert forall|a: int| 0 <= a < t.len() implies -2 * INT_LIMIT <= #[trigger] t@[a] <= 2
                * INT_LIMIT by {
                if a < starts.len() {
                    assert(starts.contains(starts[a]));
                    let k = est@.index_of(starts[a]);
                    assert(est[k] == starts[a]);
                }
            }
        }
        let mut m: Vec<usize> = Vec::new();
        let mut j: usize = 0;
        while j < est.len()
            invariant
                j <= est.len(),
                t@.drop_last() == starts,
                t.len() == starts.len() + 1,
                ascending(starts),
                forall|v: IntVal| #[trigger] starts.contains(v) <==> est@.contains(v),
                m.len() == j,
                forall|i: int|
                    0 <= i < j ==> #[trigger] m[i] < starts.len() && starts[m[i] as int] == est[i],
            decreases est.len() - j,
        {
            let v: IntVal = est[j];
            let mut k: usize = 0;
            proof {
                assert(est@[j as int] == v);
                assert(est@.contains(v));
                assert(starts.contains(v));
            }
            let ghost at = starts.index_of(v);
            while t[k] < v
                invariant
                    t@.drop_last() == starts,
                    t.len() == starts.len() + 1,
                    k <= at,
                    0 <= at < starts.len(),
                    starts[at] == v,
                decreases at - k,
            {
                proof {
                    assert(t@.drop_last()[k as int] == t@[k as int]);
                    assert(k != at);
                }
                k = k + 1;
            }
            proof {
                assert(t@.drop_last()[k as int] == t@[k as int]);
                if k < at {
                    assert(starts[k as int] < starts[at]);
                }
            }
            m.push(k);
            j = j + 1;
        }
        let mut c: Vec<IntVal> = Vec::new();
        let mut a: usize = 0;
        while a + 1 < t.len()
            invariant
                a + 1 <= t.len(),
                c.len() == a,
                forall|a: int|
                    0 <= a < t.len() ==> -2 * INT_LIMIT <= #[trigger] t@[a] <= 2 * INT_LIMIT,
                forall|b: int| 0 <= b < a ==> #[trigger] c[b] == t[b + 1] - t[b],
            decreases t.len() - a,
        {
            c.push(t[a + 1] - t[a]);
            a = a + 1;
        }
        let uf: UnionFind = UnionFind::new(t.len());
        let ghost n = c.len() as nat;
        let r: TimeLine = TimeLine {
            t,
            c,
            m,
            e: None,
            uf,
            work: Ghost(Seq::new(n, |a: int| 0int)),
            on: Ghost(Seq::new(n, |a: int| false)),
        };
        proof {
            assert(is_max(lct@, late as int));
            assert forall|i: int| 0 <= i < est.len() implies #[trigger] r.m[i] < r.c.len()
                && r.t[r.m[i] as int] == est[i] by {
                assert(r.t@.drop_last()[r.m[i] as int] == r.t@[r.m[i] as int]);
            }
            if forall|i: int| 0 <= i < est.len() ==> #[trigger] est[i] < r.t[r.t.len() - 1] {
                assert forall|a: int| 0 <= a < n implies (#[trigger] r.t[a]) < r.t[a + 1] by {
                    assert(starts[a] == r.t@[a]);
                    if a + 1 < starts.len() {
                        assert(starts[a + 1] == r.t@[a + 1]);
                        assert(starts[a] < starts[a + 1]);
                    } else {
                        assert(starts.contains(starts[a]));
                        let k = est@.index_of(starts[a]);
                        assert(est[k] == starts[a]);
                    }
                }
                assert forall|a: int| 0 <= a < n implies #[trigger] r.c[a] == left(
                    r.t@,
                    r.work@,
                    a,
                ) by {
                    lemma_no_carry(r.t@, r.work@, a);
                }
                assert forall|a: int| 0 <= a <= n implies {
                    let g = #[trigger] greatest(r.uf.parent@, a);
                    &&& a <= g <= n
                    &&& g < n ==> r.c[g] > 0
                    &&& forall|x: int| a <= x < g ==> #[trigger] r.c[x] == 0
                } by {
                    if a < n {
                        assert(r.t[a] < r.t[a + 1]);
                    }
                }
            }
        }
        r
    }
}

proof fn lemma_no_carry(t: Seq<IntVal>, w: Seq<int>, a: int)
    requires
        0 <= a < w.len(),
        forall|x: int| 0 <= x < w.len() ==> #[trigger] w[x] == 0,
        forall|x: int| 0 <= x < a ==> (#[trigger] t[x]) < t[x + 1],
    ensures
        carry(t, w, a) == 0,
    decreases a,
{
    if a > 0 {
        lemma_no_carry(t, w, a - 1);
        assert(w[a - 1] == 0);
        assert(t[a - 1] < t[a - 1 + 1]);
    }
}

/// The work that is left over is what is completed after the slot.
proof fn lemma_finish_carry(t: Seq<IntVal>, w: Seq<int>, on: Seq<bool>, a: int)
    requires
        -1 <= a < w.len(),
        w.len() == on.len(),
        t.len() == w.len() + 1,
        forall|x: int| 0 <= x < w.len() ==> (#[trigger] t[x]) < t[x + 1],
        forall|x: int| 0 <= x < w.len() && !(#[trigger] on[x]) ==> w[x] == 0,
    ensures
        match finish(t, w, on, a) {
            Some(f) => carry(t, w, a + 1) == if f > t[a + 1] {
                f - t[a + 1]
            } else {
                0
            },
            None => carry(t, w, a + 1) == 0,
        },
        0 <= a && on[a] ==> finish(t, w, on, a) == Some(t[a] + carry(t, w, a) + w[a]),
    decreases a + 1,
{
    if a >= 0 {
        lemma_finish_carry(t, w, on, a - 1);
        assert(t[a] < t[a + 1]);
    }
}

/// Work that uses up slots is completed after them.
proof fn lemma_finish_used_up(t: Seq<IntVal>, w: Seq<int>, on: Seq<bool>, b: int, e: int)
    requires
        0 <= b < e <= w.len(),
        w.len() == on.len(),
        t.len() == w.len() + 1,
        forall|x: int| 0 <= x < w.len() ==> (#[trigger] t[x]) < t[x + 1],
        forall|x: int| 0 <= x < w.len() && !(#[trigger] on[x]) ==> w[x] == 0,
        on[b],
        forall|x: int| b <= x < e ==> #[trigger] left(t, w, x) == 0,
    ensures
        finish(t, w, on, e - 1) matches Some(f) && f >= t[e],
    decreases e - b,
{
    let x = e - 1;
    lemma_finish_carry(t, w, on, x);
    assert(left(t, w, x) == 0);
    if b < x {
        lemma_finish_used_up(t, w, on, b, x);
        lemma_finish_carry(t, w, on, x - 1);
    }
}

proof fn lemma_finish_after(t: Seq<IntVal>, w: Seq<int>, on: Seq<bool>, e: int, a: int)
    requires
        -1 <= e <= a,
        a < on.len(),
        forall|x: int| e < x <= a ==> !#[trigger] on[x],
    ensures
        finish(t, w, on, a) == finish(t, w, on, e),
    decreases a - e,
{
    if e < a {
        assert(!on[a]);
        lemma_finish_after(t, w, on, e, a - 1);
    }
}

impl TimeLine {
    /// Schedule a task from its earliest start on.
    pub fn schedule_task(&mut self, i: usize, p_i: IntVal)
        requires
            old(self).wf(),
            i < old(self).m.len(),
            p_i < free(numbers(old(self).c@), old(self).m[i as int] as int),
            0 < free(numbers(old(self).c@), old(self).m[i as int] as int),
        ensures
            final(self).wf(),
            final(self).t == old(self).t,
            final(self).m == old(self).m,
            ({
                let a = old(self).m[i as int] as int;
                let q = if p_i > 0 {
                    p_i as int
                } else {
                    0
                };
                &&& final(self).work@ == old(self).work@.update(a, old(self).work@[a] + q)
                &&& final(self).on@ == old(self).on@.update(a, true)
                &&& numbers(final(self).c@) == poured(numbers(old(self).c@), a, q)
            }),
    {
        let ghost st0 = *self;
        let ghost n = self.c.len() as int;
        let ghost c0 = numbers(self.c@);
        let ghost a = self.m[i as int] as int;
        let ghost q = if p_i > 0 {
            p_i as int
        } else {
            0
        };
        let mut rho: IntVal = p_i;
        let mut k: usize = self.uf.find_greatest(self.m[i]);
        proof {
            assert(greatest(st0.uf.parent@, a) == k);
            assert(c0 =~= numbers(self.c@));
            lemma_poured_skip(c0, a, k as int, q);
            assert forall|x: int| a <= x < k implies #[trigger] c0[x] == 0 by {
                assert(st0.c[x] == 0);
            }
            lemma_free_skip(c0, a, k as int);
            lemma_greatest(st0.uf.parent@, a);
            assert forall|x: int| 0 <= x <= n implies {
                let g = #[trigger] greatest(self.uf.parent@, x);
                &&& x <= g <= n
                &&& g < n ==> self.c[g] > 0
                &&& forall|y: int| x <= y < g ==> #[trigger] self.c[y] == 0
            } by {
                assert(greatest(st0.uf.parent@, x) == greatest(self.uf.parent@, x));
            }
            assert(greatest(self.uf.parent@, k as int) == k);
        }
        while rho > 0
            invariant
                n == self.c.len(),
                self.c.len() == st0.c.len(),
                self.t == st0.t,
                self.m == st0.m,
                self.e == st0.e,
                self.work == st0.work,
                self.on == st0.on,
                st0.wf(),
                self.uf.parent.len() == n + 1,
                upward(self.uf.parent@),
                0 <= a <= k < n,
                c0 == numbers(st0.c@),
                rho <= q,
                poured(
                    numbers(self.c@),
                    k as int,
                    if rho > 0 {
                        rho as int
                    } else {
                        0
                    },
                ) == poured(c0, a, q),
                rho < free(numbers(self.c@), k as int),
                self.c[k as int] > 0,
                greatest(self.uf.parent@, k as int) == k,
                forall|x: int| a <= x < k ==> #[trigger] self.c[x] == 0,
                forall|x: int| k < x < n ==> #[trigger] self.c[x] == st0.c[x],
                forall|x: int| 0 <= x < n && #[trigger] st0.c[x] == 0 ==> self.c[x] == 0,
                forall|x: int|
                    0 <= x <= n ==> {
                        let g = #[trigger] greatest(self.uf.parent@, x);
                        &&& x <= g <= n
                        &&& g < n ==> self.c[g] > 0
                        &&& forall|y: int| x <= y < g ==> #[trigger] self.c[y] == 0
                    },
            decreases n - k, rho,
        {
            let ghost c1 = self.c@;
            let ghost uf1 = self.uf.parent@;
            let ghost k1 = k as int;
            let ghost rho1 = rho as int;
            let have: IntVal = self.c[k];
            let delta: IntVal = if have < rho {
                have
            } else {
                rho
            };
            rho = rho - delta;
            self.c.set(k, have - delta);
            proof {
                assert(numbers(self.c@) =~= numbers(c1).update(k1, have - delta));
                lemma_free_update(numbers(c1), k1, have - delta);
                assert(poured(numbers(c1), k1, rho1) == poured(
                    numbers(self.c@),
                    k1 + 1,
                    rho as int,
                ));
            }
            if self.c[k] == 0 {
                proof {
                    assert(k + 1 <= n);
                    let g = greatest(uf1, k1 + 1);
                    assert(k1 + 1 <= g <= n);
                }
                self.uf.union(k, k + 1);
                let ghost uf2 = self.uf.parent@;
                k = self.uf.find_greatest(k);
                proof {
                    let g = greatest(uf1, k1 + 1);
                    assert(greatest(uf2, k1) == g);
                    assert(k == g);
                    lemma_greatest(uf2, k1);
                    assert(greatest(self.uf.parent@, k as int) == greatest(uf2, k as int));
                    assert forall|x: int| k1 + 1 <= x < k implies #[trigger] numbers(self.c@)[x]
                        == 0 by {
                        assert(c1[x] == 0);
                        assert(self.c[x] == c1[x]);
                    }
                    lemma_poured_skip(numbers(self.c@), k1 + 1, k as int, rho as int);
                    lemma_free_skip(numbers(self.c@), k1 + 1, k as int);
                    assert(free(numbers(self.c@), k1) == numbers(self.c@)[k1] + free(
                        numbers(self.c@),
                        k1 + 1,
                    ));
                    assert(k < n);
                    assert forall|x: int| 0 <= x <= n implies {
                        let h = #[trigger] greatest(self.uf.parent@, x);
                        &&& x <= h <= n
                        &&& h < n ==> self.c[h] > 0
                        &&& forall|y: int| x <= y < h ==> #[trigger] self.c[y] == 0
                    } by {
                        let h1 = greatest(uf1, x);
                        assert(greatest(uf2, x) == if h1 == k1 {
                            g
                        } else {
                            h1
                        });
                        assert(greatest(self.uf.parent@, x) == greatest(uf2, x));
                        assert(x <= h1 <= n);
                        assert(g < n ==> c1[g] > 0);
                        assert forall|y: int| x <= y < greatest(uf2, x) implies
                            #[trigger] self.c[y] == 0 by {
                            if y < h1 {
                                assert(c1[y] == 0);
                                assert(y != k1);
                                assert(self.c[y] == c1[y]);
                            } else if y > k1 && h1 == k1 {
                                assert(c1[y] == 0);
                                assert(self.c[y] == c1[y]);
                            }
                        }
                    }
                }
            }
        }
        proof {
            let mid = numbers(self.c@);
            assert(poured(mid, k as int, 0) == mid);
            assert(lefts(st0.t@, st0.work@, c0)) by {
                assert forall|x: int| 0 <= x < c0.len() implies #[trigger] c0[x] == left(
                    st0.t@,
                    st0.work@,
                    x,
                ) by {
                    assert(st0.c[x] == left(st0.t@, st0.work@, x));
                }
            }
            lemma_poured(st0.t@, st0.work@, c0, a, q);
        }
        let e: usize = match self.e {
            Some(e) => if e > k {
                e
            } else {
                k
            },
            None => k,
        };
        self.e = Some(e);
        proof {
            self.work@ = self.work@.update(a, self.work@[a] + q);
            self.on@ = self.on@.update(a, true);
            assert forall|x: int| 0 <= x < n implies #[trigger] self.c[x] == left(
                self.t@,
                self.work@,
                x,
            ) by {
                assert(numbers(self.c@)[x] == left(self.t@, self.work@, x));
            }
            if e == k {
                assert(self.on@[a]);
            } else {
                let b = choose|b: int|
                    0 <= b <= e && #[trigger] st0.on@[b] && forall|x: int|
                        b <= x < e ==> #[trigger] st0.c[x] == 0;
                assert(self.on@[b]);
                assert forall|x: int| b <= x < e implies #[trigger] self.c[x] == 0 by {
                    assert(st0.c[x] == 0);
                }
                assert(self.c[e as int] == st0.c[e as int]);
            }
        }
    }

    /// The earliest time by which the scheduled tasks can be completed, or the smallest value
    /// if there are none.
    pub fn earliest_completion_time(&self) -> (r: IntVal)
        requires
            self.wf(),
        ensures
            match finish(self.t@, self.work@, self.on@, self.c.len() - 1) {
                Some(f) => r == f,
                None => r == IntVal::MIN,
            },
    {
        proof {
            let n = self.c.len() as int;
            match self.e {
                None => {
                    lemma_finish_after(self.t@, self.work@, self.on@, -1, n - 1);
                },
                Some(e) => {
                    let (t, w, on) = (self.t@, self.work@, self.on@);
                    assert forall|x: int| e < x <= n - 1 implies !#[trigger] on[x] by {}
                    lemma_finish_after(t, w, on, e as int, n - 1);
                    lemma_finish_carry(t, w, on, e as int);
                    let b = choose|b: int|
                        0 <= b <= e && #[trigger] on[b] && forall|x: int|
                            b <= x < e ==> #[trigger] self.c[x] == 0;
                    assert(self.c[e as int] == left(t, w, e as int));
                    if !on[e as int] {
                        assert forall|x: int| b <= x < e implies #[trigger] left(t, w, x) == 0 by {
                            assert(self.c[x] == 0);
                        }
                        lemma_finish_used_up(t, w, on, b, e as int);
                        lemma_finish_carry(t, w, on, e - 1);
                    }
                },
            }
        }
        match self.e {
            Some(e) => self.t[e + 1] - self.c[e],
            None => IntVal::MIN,
        }
    }
}

/// How long a task takes.
pub open spec fn duration(p: IntVal) -> int {
    if p > 0 {
        p as int
    } else {
        0
    }
}

/// The sum of the values of the tasks.
pub open spec fn sum_of(f: spec_fn(int) -> int, tasks: Seq<int>) -> int
    decreases tasks.len(),
{
    if tasks.len() == 0 {
        0
    } else {
        sum_of(f, tasks.drop_last()) + f(tasks.last())
    }
}

/// The durations of the tasks that start at a time point, and zero for the others.
pub open spec fn starting(m: Seq<usize>, p: Seq<IntVal>, a: int) -> spec_fn(int) -> int {
    |i: int|
        if m[i] == a {
            duration(p[i])
        } else {
            0
        }
}

/// The durations of the tasks that start at a time point or later, and zero for the others.
pub open spec fn starting_from(m: Seq<usize>, p: Seq<IntVal>, a: int) -> spec_fn(int) -> int {
    |i: int|
        if m[i] >= a {
            duration(p[i])
        } else {
            0
        }
}

/// The durations of the tasks.
pub open spec fn durations(p: Seq<IntVal>) -> spec_fn(int) -> int {
    |i: int| duration(p[i])
}

/// Whether one of the tasks starts at a time point.
pub open spec fn some_start(m: Seq<usize>, tasks: Seq<int>, a: int) -> bool {
    exists|i: int| #[trigger] tasks.contains(i) && m[i] == a
}

/// Whether the tasks are different ones of `n` tasks.
pub open spec fn are_tasks(tasks: Seq<int>, n: int) -> bool {
    tasks.no_duplicates() && forall|i: int| #[trigger] tasks.contains(i) ==> 0 <= i < n
}

/// Whether the tasks are among the others.
pub open spec fn among(some: Seq<int>, tasks: Seq<int>) -> bool {
    some.no_duplicates() && forall|i: int| #[trigger] some.contains(i) ==> tasks.contains(i)
}

impl TimeLine {
    /// Whether the tasks, with the given durations, were scheduled, and no others.
    pub open spec fn scheduled(&self, p: Seq<IntVal>, tasks: Seq<int>) -> bool {
        &&& forall|a: int|
            0 <= a < self.c.len() ==> #[trigger] self.work@[a] == sum_of(
                starting(self.m@, p, a),
                tasks,
            )
        &&& forall|a: int|
            0 <= a < self.c.len() ==> #[trigger] self.on@[a] == some_start(self.m@, tasks, a)
    }
}

proof fn lemma_sum_remove(f: spec_fn(int) -> int, tasks: Seq<int>, j: int)
    requires
        0 <= j < tasks.len(),
    ensures
        sum_of(f, tasks) == sum_of(f, tasks.remove(j)) + f(tasks[j]),
    decreases tasks.len(),
{
    let rest = tasks.drop_last();
    if j == tasks.len() - 1 {
        assert(tasks.remove(j) =~= rest);
    } else {
        lemma_sum_remove(f, rest, j);
        assert(tasks.remove(j).drop_last() =~= rest.remove(j));
        assert(tasks.remove(j).last() == tasks.last());
        assert(rest[j] == tasks[j]);
    }
}

/// Some tasks have no larger sum than all of them.
proof fn lemma_sum_among(f: spec_fn(int) -> int, some: Seq<int>, tasks: Seq<int>)
    requires
        among(some, tasks),
        forall|i: int| #[trigger] tasks.contains(i) ==> f(i) >= 0,
    ensures
        sum_of(f, some) <= sum_of(f, tasks),
    decreases some.len(),
{
    if some.len() == 0 {
        lemma_sum_nonneg(f, tasks);
    } else {
        let x = some.last();
        assert(some.contains(x));
        let j = tasks.index_of(x);
        let less = tasks.remove(j);
        let rest = some.drop_last();
        assert(rest.no_duplicates()) by {
            assert forall|k: int, l: int| 0 <= k < l < rest.len() implies rest[k] != rest[l] by {
                assert(some[k] != some[l]);
            }
        }
        assert forall|i: int| #[trigger] rest.contains(i) implies less.contains(i) by {
            let k = rest.index_of(i);
            assert(some[k] == i);
            assert(some.contains(i));
            assert(i != x) by {
                assert(some[k] != some[some.len() - 1]);
            }
            let l = tasks.index_of(i);
            if l < j {
                assert(less[l] == i);
            } else {
                assert(less[l - 1] == i);
            }
        }
        assert forall|i: int| #[trigger] less.contains(i) implies f(i) >= 0 by {
            let k = less.index_of(i);
            assert(tasks.contains(i)) by {
                if k < j {
                    assert(tasks[k] == i);
                } else {
                    assert(tasks[k + 1] == i);
                }
            }
        }
        lemma_sum_among(f, rest, less);
        lemma_sum_remove(f, tasks, j);
    }
}

proof fn lemma_sum_nonneg(f: spec_fn(int) -> int, tasks: Seq<int>)
    requires
        forall|i: int| #[trigger] tasks.contains(i) ==> f(i) >= 0,
    ensures
        sum_of(f, tasks) >= 0,
    decreases tasks.len(),
{
    if tasks.len() > 0 {
        let rest = tasks.drop_last();
        assert forall|i: int| #[trigger] rest.contains(i) implies f(i) >= 0 by {
            let k = rest.index_of(i);
            assert(tasks[k] == i);
            assert(tasks.contains(i));
        }
        lemma_sum_nonneg(f, rest);
        assert(tasks.contains(tasks.last()));
    }
}

proof fn lemma_sum_same(f: spec_fn(int) -> int, g: spec_fn(int) -> int, tasks: Seq<int>)
    requires
        forall|i: int| #[trigger] tasks.contains(i) ==> f(i) == g(i),
    ensures
        sum_of(f, tasks) == sum_of(g, tasks),
    decreases tasks.len(),
{
    if tasks.len() > 0 {
        let rest = tasks.drop_last();
        assert forall|i: int| #[trigger] rest.contains(i) implies f(i) == g(i) by {
            let k = rest.index_of(i);
            assert(tasks[k] == i);
            assert(tasks.contains(i));
        }
        lemma_sum_same(f, g, rest);
        assert(tasks.contains(tasks.last()));
    }
}

/// A time line without work has scheduled no tasks.
pub proof fn lemma_none_scheduled(line: &TimeLine, p: Seq<IntVal>)
    requires
        line.wf(),
        line.e is None,
    ensures
        line.scheduled(p, Seq::empty()),
{
    assert forall|a: int| 0 <= a < line.c.len() implies #[trigger] line.work@[a] == sum_of(
        starting(line.m@, p, a),
        Seq::empty(),
    ) by {
        assert(!line.on@[a]);
    }
}

/// A task is scheduled after others.
pub proof fn lemma_task_scheduled(
    before: &TimeLine,
    after: &TimeLine,
    p: Seq<IntVal>,
    tasks: Seq<int>,
    i: int,
)
    requires
        before.scheduled(p, tasks),
        0 <= i < before.m.len(),
        before.m[i] < before.c.len(),
        before.work@.len() == before.c.len(),
        before.on@.len() == before.c.len(),
        after.m == before.m,
        after.c.len() == before.c.len(),
        after.work@ == before.work@.update(
            before.m[i] as int,
            before.work@[before.m[i] as int] + duration(p[i]),
        ),
        after.on@ == before.on@.update(before.m[i] as int, true),
    ensures
        after.scheduled(p, tasks.push(i)),
{
    let more = tasks.push(i);
    assert(more.drop_last() =~= tasks);
    assert forall|a: int| 0 <= a < after.c.len() implies #[trigger] after.on@[a] == some_start(
        after.m@,
        more,
        a,
    ) by {
        assert(before.on@[a] == some_start(before.m@, tasks, a));
        if some_start(before.m@, tasks, a) {
            let j = choose|j: int| #[trigger] tasks.contains(j) && before.m[j] == a;
            let k = tasks.index_of(j);
            assert(more[k] == j);
            assert(more.contains(j));
        }
        assert(more[tasks.len() as int] == i);
        assert(more.contains(i));
        if some_start(after.m@, more, a) {
            let j = choose|j: int| #[trigger] more.contains(j) && after.m[j] == a;
            let k = more.index_of(j);
            if k < tasks.len() {
                assert(tasks[k] == j);
                assert(tasks.contains(j));
            }
        }
    }
    assert forall|a: int| 0 <= a < after.c.len() implies #[trigger] after.work@[a] == sum_of(
        starting(after.m@, p, a),
        more,
    ) by {
        assert(before.work@[a] == sum_of(starting(before.m@, p, a), tasks));
    }
}

/// What is scheduled does not depend on the order of the tasks.
pub proof fn lemma_order_is_free(
    one: &TimeLine,
    two: &TimeLine,
    p: Seq<IntVal>,
    tasks: Seq<int>,
    others: Seq<int>,
)
    requires
        one.scheduled(p, tasks),
        two.scheduled(p, others),
        one.m == two.m,
        one.c.len() == two.c.len(),
        one.work@.len() == one.c.len(),
        two.work@.len() == two.c.len(),
        one.on@.len() == one.c.len(),
        two.on@.len() == two.c.len(),
        among(tasks, others),
        among(others, tasks),
    ensures
        one.work@ == two.work@,
        one.on@ == two.on@,
{
    assert forall|a: int| 0 <= a < one.c.len() implies one.work@[a] == two.work@[a] && one.on@[a]
        == two.on@[a] by {
        let f = starting(one.m@, p, a);
        lemma_sum_among(f, tasks, others);
        lemma_sum_among(f, others, tasks);
        assert(one.work@[a] == sum_of(f, tasks));
        assert(two.work@[a] == sum_of(f, others));
        assert(one.on@[a] == some_start(one.m@, tasks, a));
        assert(two.on@[a] == some_start(one.m@, others, a));
        if some_start(one.m@, tasks, a) {
            let i = choose|i: int| #[trigger] tasks.contains(i) && one.m[i] == a;
            assert(others.contains(i));
        }
        if some_start(one.m@, others, a) {
            let i = choose|i: int| #[trigger] others.contains(i) && one.m[i] == a;
            assert(tasks.contains(i));
        }
    }
    assert(one.work@ =~= two.work@);
    assert(one.on@ =~= two.on@);
}

/// The work that is released from a time point on is that of the tasks that start there or
/// later.
proof fn lemma_released_sum(
    m: Seq<usize>,
    p: Seq<IntVal>,
    tasks: Seq<int>,
    w: Seq<int>,
    a: int,
)
    requires
        0 <= a <= w.len(),
        forall|b: int| 0 <= b < w.len() ==> #[trigger] w[b] == sum_of(starting(m, p, b), tasks),
        forall|i: int| #[trigger] tasks.contains(i) ==> m[i] < w.len(),
    ensures
        released(w, a, w.len() - 1) == sum_of(starting_from(m, p, a), tasks),
    decreases w.len() - a,
{
    let n = w.len() as int;
    if a == n {
        lemma_sum_same(starting_from(m, p, a), |i: int| 0, tasks);
        lemma_sum_zero(tasks);
    } else {
        lemma_released_sum(m, p, tasks, w, a + 1);
        lemma_released_front(w, a, n - 1);
        lemma_sum_parts(m, p, tasks, a);
    }
}

proof fn lemma_sum_zero(tasks: Seq<int>)
    ensures
        sum_of(|i: int| 0, tasks) == 0,
    decreases tasks.len(),
{
    if tasks.len() > 0 {
        lemma_sum_zero(tasks.drop_last());
    }
}

proof fn lemma_sum_parts(m: Seq<usize>, p: Seq<IntVal>, tasks: Seq<int>, a: int)
    ensures
        sum_of(starting_from(m, p, a), tasks) == sum_of(starting(m, p, a), tasks) + sum_of(
            starting_from(m, p, a + 1),
            tasks,
        ),
    decreases tasks.len(),
{
    if tasks.len() > 0 {
        lemma_sum_parts(m, p, tasks.drop_last(), a);
    }
}

proof fn lemma_released_front(w: Seq<int>, a: int, b: int)
    requires
        0 <= a <= b < w.len(),
    ensures
        released(w, a, b) == w[a] + released(w, a + 1, b),
    decreases b - a,
{
    if a < b {
        lemma_released_front(w, a, b - 1);
    } else {
        assert(released(w, a, b - 1) == 0);
        assert(released(w, a + 1, b) == 0);
    }
}

proof fn lemma_sum_filter(m: Seq<usize>, p: Seq<IntVal>, tasks: Seq<int>, a: int)
    ensures
        sum_of(durations(p), tasks.filter(|i: int| m[i] >= a)) == sum_of(
            starting_from(m, p, a),
            tasks,
        ),
    decreases tasks.len(),
{
    reveal(Seq::filter);
    let keep = |i: int| m[i] >= a;
    if tasks.len() > 0 {
        let rest = tasks.drop_last();
        lemma_sum_filter(m, p, rest, a);
        if keep(tasks.last()) {
            let kept = rest.filter(keep).push(tasks.last());
            assert(kept.drop_last() =~= rest.filter(keep));
        }
    }
}

/// The completion time of scheduled tasks is the largest, over the sets of them, of the earliest
/// start of the set plus its work. Such a set is returned.
pub proof fn lemma_completion_is_largest(line: &TimeLine, p: Seq<IntVal>, tasks: Seq<int>) -> (r:
    (Seq<int>, int))
    requires
        line.wf(),
        line.scheduled(p, tasks),
        are_tasks(tasks, line.m.len() as int),
        tasks.len() > 0,
    ensures
        finish(line.t@, line.work@, line.on@, line.c.len() - 1) is Some,
        // No set of the tasks can be completed earlier than it takes.
        forall|some: Seq<int>, i: int| #[trigger]
            starts_with(line.m@, some, i) && among(some, tasks) ==> line.t[line.m[i] as int]
                + sum_of(durations(p), some) <= finish(
                line.t@,
                line.work@,
                line.on@,
                line.c.len() - 1,
            )->0,
        // One of them takes as long.
        starts_with(line.m@, r.0, r.1),
        among(r.0, tasks),
        line.t[line.m[r.1] as int] + sum_of(durations(p), r.0) == finish(
            line.t@,
            line.work@,
            line.on@,
            line.c.len() - 1,
        )->0,
{
    let n = line.c.len() as int;
    let (t, w, on, m) = (line.t@, line.work@, line.on@, line.m@);
    let first = tasks[0];
    assert(tasks.contains(first));
    assert(line.m[first] < n);
    assert(some_start(m, tasks, line.m[first] as int));
    assert(on[line.m[first] as int]);
    lemma_finish_some(t, w, on, n - 1, line.m[first] as int);
    assert forall|x: int| 0 <= x < w.len() && !(#[trigger] on[x]) implies w[x] == 0 by {}
    let a = lemma_finish_largest(t, w, on, n - 1);
    assert forall|i: int| #[trigger] tasks.contains(i) implies m[i] < w.len() by {
        assert(line.m[i] < n);
    }
    assert forall|some: Seq<int>, i: int| #[trigger]
        starts_with(m, some, i) && among(some, tasks) implies t[m[i] as int] + sum_of(
        durations(p),
        some,
    ) <= finish(t, w, on, n - 1)->0 by {
        let k = m[i] as int;
        assert(tasks.contains(i));
        assert(some_start(m, tasks, k));
        assert(on[k]);
        let g = starting_from(m, p, k);
        lemma_sum_same(durations(p), g, some);
        lemma_sum_among(g, some, tasks);
        lemma_released_sum(m, p, tasks, w, k);
        assert(t[k] + released(w, k, n - 1) <= finish(t, w, on, n - 1)->0);
    }
    let keep = |i: int| m[i] >= a;
    let late = tasks.filter(keep);
    assert(on[a] == some_start(m, tasks, a));
    let i = choose|i: int| #[trigger] tasks.contains(i) && m[i] == a;
    broadcast use vstd::seq_lib::group_filter_ensures;

    assert(late.contains(i)) by {
        assert(keep(i));
    }
    assert forall|j: int| #[trigger] late.contains(j) implies tasks.contains(j) && m[j] >= a by {
        let k = late.index_of(j);
        assert(keep(late[k]));
        lemma_filter_among(tasks, keep, k);
    }
    lemma_filter_distinct(tasks, keep);
    lemma_sum_filter(m, p, tasks, a);
    lemma_released_sum(m, p, tasks, w, a);
    (late, i)
}

/// Whether the task is one of them, and none of them starts earlier.
pub open spec fn starts_with(m: Seq<usize>, tasks: Seq<int>, i: int) -> bool {
    tasks.contains(i) && forall|j: int| #[trigger] tasks.contains(j) ==> m[j] >= m[i]
}

proof fn lemma_filter_among(tasks: Seq<int>, keep: spec_fn(int) -> bool, k: int)
    requires
        0 <= k < tasks.filter(keep).len(),
    ensures
        tasks.contains(tasks.filter(keep)[k]),
    decreases tasks.len(),
{
    reveal(Seq::filter);
    if tasks.len() > 0 {
        let rest = tasks.drop_last();
        if k < rest.filter(keep).len() {
            lemma_filter_among(rest, keep, k);
            let i = rest.index_of(rest.filter(keep)[k]);
            assert(tasks[i] == tasks.filter(keep)[k]);
        } else {
            assert(tasks[tasks.len() - 1] == tasks.filter(keep)[k]);
        }
    }
}

proof fn lemma_filter_distinct(tasks: Seq<int>, keep: spec_fn(int) -> bool)
    requires
        tasks.no_duplicates(),
    ensures
        tasks.filter(keep).no_duplicates(),
    decreases tasks.len(),
{
    reveal(Seq::filter);
    if tasks.len() > 0 {
        let rest = tasks.drop_last();
        assert(rest.no_duplicates()) by {
            assert forall|k: int, l: int| 0 <= k < l < rest.len() implies rest[k] != rest[l] by {
                assert(tasks[k] != tasks[l]);
            }
        }
        lemma_filter_distinct(rest, keep);
        let less = rest.filter(keep);
        if keep(tasks.last()) {
            assert forall|k: int, l: int| 0 <= k < l < less.push(tasks.last()).len() implies
                less.push(tasks.last())[k] != less.push(tasks.last())[l] by {
                if l == less.len() {
                    lemma_filter_among(rest, keep, k);
                    let i = rest.index_of(less[k]);
                    assert(tasks[i] != tasks[tasks.len() - 1]);
                } else {
                    assert(less[k] != less[l]);
                }
            }
        }
    }
}

/// The capacity from a slot on is what the work that was released leaves of it.
proof fn lemma_free_work(t: Seq<IntVal>, w: Seq<int>, c: Seq<int>, k: int)
    requires
        lefts(t, w, c),
        0 <= k <= c.len(),
    ensures
        free(c, k) == t[c.len() as int] - t[k] - carry(t, w, k) - released(w, k, c.len() - 1)
            + carry(t, w, c.len() as int),
    decreases c.len() - k,
{
    let n = c.len() as int;
    if k < n {
        lemma_free_work(t, w, c, k + 1);
        lemma_released_front(w, k, n - 1);
        assert(c[k] == left(t, w, k));
    }
}

proof fn lemma_carry_within(t: Seq<IntVal>, w: Seq<int>, k: int)
    requires
        0 <= k <= w.len(),
        k < t.len(),
        forall|a: int| 0 <= a < w.len() ==> #[trigger] w[a] >= 0,
        forall|a: int| 0 <= a < k ==> (#[trigger] t[a]) < t[a + 1],
    ensures
        carry(t, w, k) <= released(w, 0, k - 1),
        released(w, 0, k - 1) >= 0,
    decreases k,
{
    if k > 0 {
        lemma_carry_within(t, w, k - 1);
        assert(t[k - 1] < t[k]);
        assert(w[k - 1] >= 0);
    }
}

proof fn lemma_released_split(w: Seq<int>, k: int, b: int)
    requires
        0 <= k <= b + 1,
        b < w.len(),
    ensures
        released(w, 0, b) == released(w, 0, k - 1) + released(w, k, b),
    decreases b + 1 - k,
{
    if k <= b {
        lemma_released_split(w, k, b - 1);
    }
}

proof fn lemma_total_sum(p: Seq<IntVal>, k: int)
    requires
        0 <= k <= p.len(),
        forall|i: int| 0 <= i < p.len() ==> #[trigger] p[i] >= 0,
    ensures
        total(p, k) == sum_of(durations(p), Seq::new(k as nat, |i: int| i)),
    decreases k,
{
    if k > 0 {
        lemma_total_sum(p, k - 1);
        let all = Seq::new(k as nat, |i: int| i);
        assert(all.drop_last() =~= Seq::new((k - 1) as nat, |i: int| i));
        assert(all.last() == k - 1);
    }
}

/// A time line has room for all tasks that it was made for, in any order: for each one, whatever
/// others were scheduled before.
pub proof fn lemma_room_for_tasks(
    line: &TimeLine,
    est: Seq<IntVal>,
    p: Seq<IntVal>,
    late: int,
    tasks: Seq<int>,
    i: int,
)
    requires
        line.wf(),
        line.scheduled(p, tasks),
        line.m.len() == p.len(),
        est.len() == p.len(),
        line.t[line.t.len() - 1] == late + total(p, p.len() as int),
        are_tasks(tasks, p.len() as int),
        0 <= i < p.len(),
        !tasks.contains(i),
        line.t[line.m[i] as int] == est[i],
        est[i] < late,
        forall|j: int| 0 <= j < p.len() ==> #[trigger] p[j] >= 0,
    ensures
        p[i] < free(numbers(line.c@), line.m[i] as int),
        0 < free(numbers(line.c@), line.m[i] as int),
{
    let k = line.m[i] as int;
    assert(line.m[i] < line.c.len());
    assert(lefts(line.t@, line.work@, numbers(line.c@))) by {
        assert forall|a: int| 0 <= a < line.c.len() implies #[trigger] numbers(line.c@)[a] == left(
            line.t@,
            line.work@,
            a,
        ) by {
            assert(line.c[a] == left(line.t@, line.work@, a));
        }
    }
    assert forall|j: int| #[trigger] tasks.contains(j) implies line.m@[j] < line.c.len() by {
        assert(line.m[j] < line.c.len());
    }
    lemma_room_left(line.t@, line.work@, numbers(line.c@), line.m@, p, tasks, k);
    lemma_others_sum(p, tasks, i);
}

/// From a slot on there is no less room than all tasks leave.
proof fn lemma_room_left(
    t: Seq<IntVal>,
    w: Seq<int>,
    c: Seq<int>,
    m: Seq<usize>,
    p: Seq<IntVal>,
    tasks: Seq<int>,
    k: int,
)
    requires
        lefts(t, w, c),
        0 <= k < c.len(),
        forall|a: int| 0 <= a < w.len() ==> #[trigger] w[a] >= 0,
        forall|a: int| 0 <= a < c.len() ==> (#[trigger] t[a]) < t[a + 1],
        forall|b: int| 0 <= b < w.len() ==> #[trigger] w[b] == sum_of(starting(m, p, b), tasks),
        forall|i: int| #[trigger] tasks.contains(i) ==> m[i] < w.len(),
    ensures
        free(c, k) >= t[c.len() as int] - t[k] - sum_of(durations(p), tasks),
{
    let n = c.len() as int;
    lemma_free_work(t, w, c, k);
    lemma_carry_nonneg(t, w, n);
    lemma_carry_within(t, w, k);
    lemma_released_split(w, k, n - 1);
    lemma_released_sum(m, p, tasks, w, 0);
    lemma_sum_same(starting_from(m, p, 0), durations(p), tasks);
}

/// Other tasks take no longer than all tasks but the given one.
proof fn lemma_others_sum(p: Seq<IntVal>, tasks: Seq<int>, i: int)
    requires
        are_tasks(tasks, p.len() as int),
        0 <= i < p.len(),
        !tasks.contains(i),
        forall|j: int| 0 <= j < p.len() ==> #[trigger] p[j] >= 0,
    ensures
        sum_of(durations(p), tasks) + p[i] <= total(p, p.len() as int),
{
    let all = Seq::new(p.len(), |j: int| j);
    let more = tasks.push(i);
    assert(more.drop_last() =~= tasks);
    assert(among(more, all)) by {
        assert forall|a: int, b: int| 0 <= a < b < more.len() implies more[a] != more[b] by {
            if b == tasks.len() {
                assert(tasks.contains(tasks[a]));
            } else {
                assert(tasks[a] != tasks[b]);
            }
        }
        assert forall|j: int| #[trigger] more.contains(j) implies all.contains(j) by {
            let a = more.index_of(j);
            if a < tasks.len() {
                assert(tasks.contains(tasks[a]));
            }
            assert(all[j] == j);
        }
    }
    lemma_sum_among(durations(p), more, all);
    lemma_total_sum(p, p.len() as int);
    assert(p[i] >= 0);
}

} // verus!
