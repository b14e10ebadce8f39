//! The critical bounds of a list of decisions: their lower bounds, and the values after their
//! upper bounds, in increasing order.

use vstd::prelude::*;


use crate::constraints::hall::{
    accepted, by_order, filtered, hall_pushes, ints, justified, pushed, ranked, ranks, uncrowded,
    within, HallPush,
};
use crate::solver::view::{IntVal, INT_LIMIT};

verus! {

/// Whether `order` lists every index below `n` once.
pub open spec fn permutes(order: Seq<usize>, n: int) -> bool {
    &&& order.len() == n
    &&& order.no_duplicates()
    &&& forall|i: int| 0 <= i < order.len() ==> #[trigger] order[i] < n
    &&& forall|v: int| 0 <= v < n ==> #[trigger] order.contains(v as usize)
}

/// Whether the indices are ordered by increasing key.
pub open spec fn key_sorted(order: Seq<usize>, keys: Seq<IntVal>) -> bool {
    forall|i: int, j: int|
        0 <= i <= j < order.len() ==> keys[#[trigger] order[i] as int]
            <= keys[#[trigger] order[j] as int]
}

/// Sort the indices by their keys.
pub fn sort_by_key(order: &mut Vec<usize>, keys: &Vec<IntVal>)
    requires
        permutes(old(order)@, keys.len() as int),
    ensures
        permutes(final(order)@, keys.len() as int),
        key_sorted(final(order)@, keys@),
{
    let n: usize = order.len();
    let mut i: usize = 0;
    while i < n
        invariant
            i <= n == order.len() == keys.len(),
            permutes(order@, n as int),
            forall|a: int, b: int|
                0 <= a <= b < i ==> keys[#[trigger] order[a] as int]
                    <= keys[#[trigger] order[b] as int],
        decreases n - i,
    {
        let mut j: usize = i;
        while j > 0 && keys[order[j - 1]] > keys[order[j]]
            invariant
                j <= i < n == order.len() == keys.len(),
                permutes(order@, n as int),
                forall|a: int, b: int|
                    0 <= a <= b <= i && b != j && a != j ==> keys[#[trigger] order[a] as int]
                        <= keys[#[trigger] order[b] as int],
                forall|b: int|
                    j <= b <= i ==> keys[order[j as int] as int]
                        <= keys[#[trigger] order[b] as int],
            decreases j,
        {
            let ghost before = order@;
            let x: usize = order[j - 1];
            let y: usize = order[j];
            order.set(j - 1, y);
            order.set(j, x);
            proof {
                assert(order@ == before.update(j - 1, y).update(j as int, x));
                assert forall|v: int| 0 <= v < n implies #[trigger] order@.contains(v as usize) by {
                    assert(before.contains(v as usize));
                    let k = before.index_of(v as usize);
                    let l = if k == j - 1 {
                        j as int
                    } else if k == j {
                        j - 1
                    } else {
                        k
                    };
                    assert(order@[l] == v as usize);
                }
            }
            j = j - 1;
        }
        i = i + 1;
    }
}

/// The critical bounds of some decisions.
#[derive(Debug, PartialEq, Eq, Hash)]
pub struct Ranking {
    /// The lower bounds of the decisions.
    pub lb: Vec<IntVal>,
    /// The upper bounds of the decisions.
    pub ub: Vec<IntVal>,
    /// Indices of the decisions by increasing lower bound.
    pub min_sorted: Vec<usize>,
    /// Indices of the decisions by increasing upper bound.
    pub max_sorted: Vec<usize>,
    /// The different critical bounds, with one before and one after them.
    pub bounds: Vec<IntVal>,
    /// For each decision, the position in `bounds` of its lower bound.
    pub min_rank: Vec<usize>,
    /// For each decision, the position in `bounds` of the value after its upper bound.
    pub max_rank: Vec<usize>,
}

/// Whether the value is a lower bound, or the one after an upper bound.
pub open spec fn is_critical(lb: Seq<IntVal>, ub: Seq<IntVal>, x: int) -> bool {
    exists|v: int| 0 <= v < lb.len() && #[trigger] ends_at(lb, ub, v, x)
}

/// Whether the value is the lower bound of the decision, or the one after its upper bound.
pub open spec fn ends_at(lb: Seq<IntVal>, ub: Seq<IntVal>, v: int, x: int) -> bool {
    lb[v] == x || ub[v] + 1 == x
}

impl Ranking {
    /// The orders list every decision.
    pub open spec fn wf(&self) -> bool {
        &&& self.ub.len() == self.lb.len()
        &&& self.min_rank.len() == self.lb.len()
        &&& self.max_rank.len() == self.lb.len()
        &&& permutes(self.min_sorted@, self.lb.len() as int)
        &&& permutes(self.max_sorted@, self.lb.len() as int)
        &&& 2 * self.lb.len() + 2 < usize::MAX
    }

    /// Whether the critical bounds were found for the current bounds.
    pub open spec fn sorted(&self) -> bool {
        &&& self.wf()
        &&& ranks(
            self.bounds@,
            self.min_rank@,
            self.max_rank@,
            self.max_sorted@,
            self.lb@,
            self.ub@,
        )
        &&& key_sorted(self.min_sorted@, self.lb@)
        &&& self.bounds[1] - self.bounds[0] >= 2
        &&& self.bounds.len() <= 2 * self.lb.len() + 2
    }

    /// Whether the critical bounds are exactly the lower bounds and the values after the upper
    /// bounds, in increasing order, with one two less before them and one two more after them,
    /// and the orders are by increasing bounds.
    pub open spec fn exact(&self) -> bool {
        let k = self.bounds.len() - 2;
        &&& k >= 1
        &&& forall|a: int, b: int|
            0 <= a < b < self.bounds.len() ==> #[trigger] self.bounds[a] < #[trigger] self.bounds[b]
        &&& self.bounds[0] == self.bounds[1] - 2
        &&& self.bounds[k + 1] == self.bounds[k] + 2
        &&& forall|a: int|
            1 <= a <= k ==> is_critical(self.lb@, self.ub@, #[trigger] self.bounds[a] as int)
        &&& forall|v: int|
            0 <= v < self.lb.len() ==> 1 <= #[trigger] self.min_rank[v] <= k
                && self.bounds[self.min_rank[v] as int] == self.lb[v]
        &&& forall|v: int|
            0 <= v < self.lb.len() ==> 1 <= #[trigger] self.max_rank[v] <= k
                && self.bounds[self.max_rank[v] as int] == self.ub[v] + 1
        &&& key_sorted(self.min_sorted@, self.lb@)
        &&& key_sorted(self.max_sorted@, self.ub@)
    }

    /// Create the ranking of `n` decisions with no bounds yet.
    pub fn new(n: usize) -> (r: Ranking)
        requires
            2 * n + 2 < usize::MAX,
        ensures
            r.wf(),
            r.lb.len() == n,
    {
        let mut min_sorted: Vec<usize> = Vec::new();
        let mut max_sorted: Vec<usize> = Vec::new();
        let mut i: usize = 0;
        while i < n
            invariant
                i <= n,
                min_sorted.len() == i,
                max_sorted.len() == i,
                forall|k: int| 0 <= k < i ==> #[trigger] min_sorted[k] == k,
                forall|k: int| 0 <= k < i ==> #[trigger] max_sorted[k] == k,
            decreases n - i,
        {
            min_sorted.push(i);
            max_sorted.push(i);
            i = i + 1;
        }
        proof {
            assert forall|v: int| 0 <= v < n implies #[trigger] min_sorted@.contains(
                v as usize,
            ) by {
                assert(min_sorted@[v] == v as usize);
            }
            assert forall|v: int| 0 <= v < n implies #[trigger] max_sorted@.contains(
                v as usize,
            ) by {
                assert(max_sorted@[v] == v as usize);
            }
        }
        Ranking {
            lb: vec![0; n],
            ub: vec![0; n],
            min_sorted,
            max_sorted,
            bounds: Vec::new(),
            min_rank: vec![0; n],
            max_rank: vec![0; n],
        }
    }

    /// Sort the decisions by their bounds, and find the critical bounds.
    #[verifier::spinoff_prover]
    #[verifier::rlimit(60)]
    pub fn sort(&mut self)
        requires
            old(self).wf(),
            old(self).lb.len() > 0,
            forall|v: int|
                0 <= v < old(self).lb.len() ==> -INT_LIMIT <= #[trigger] old(self).lb[v] <= old(
                    self,
                ).ub[v] <= INT_LIMIT,
        ensures
            final(self).sorted(),
            final(self).exact(),
            final(self).lb@ == old(self).lb@,
            final(self).ub@ == old(self).ub@,
    {
        let size: usize = self.lb.len();
        sort_by_key(&mut self.min_sorted, &self.lb);
        sort_by_key(&mut self.max_sorted, &self.ub);
        let ghost lbs = self.lb@;
        let ghost ubs = self.ub@;
        let ghost mins = self.min_sorted@;
        let ghost maxs = self.max_sorted@;

        proof {
            assert forall|v: int| 0 <= v < size implies -INT_LIMIT <= #[trigger] ubs[v]
                <= INT_LIMIT by {
                assert(-INT_LIMIT <= lbs[v] <= ubs[v]);
            }
        }
        let mut min: IntVal = self.lb[self.min_sorted[0]];
        let mut max: IntVal = self.ub[self.max_sorted[0]] + 1;
        let mut last: IntVal = min - 2;
        self.bounds.clear();
        self.bounds.push(last);
        let mut i: usize = 0;
        let mut j: usize = 0;
        proof {
            assert(ubs[maxs[0] as int] + 1 > lbs[mins[0] as int]) by {
                let v = maxs[0] as int;
                assert(mins.contains(v as usize));
                let k = mins.index_of(v as usize);
                assert(lbs[mins[0] as int] <= lbs[mins[k] as int]);
                assert(lbs[v] <= ubs[v]);
            }
        }
        while j < size
            invariant
                0 < size == lbs.len() == ubs.len(),
                2 * size + 2 < usize::MAX,
                i <= size,
                j <= size,
                self.lb@ == lbs,
                self.ub@ == ubs,
                self.min_sorted@ == mins,
                self.max_sorted@ == maxs,
                permutes(mins, size as int),
                permutes(maxs, size as int),
                key_sorted(mins, lbs),
                key_sorted(maxs, ubs),
                self.min_rank.len() == size,
                self.max_rank.len() == size,
                forall|v: int|
                    0 <= v < size ==> -INT_LIMIT <= #[trigger] lbs[v] <= ubs[v] <= INT_LIMIT,
                forall|v: int| 0 <= v < size ==> -INT_LIMIT <= #[trigger] ubs[v] <= INT_LIMIT,
                i < size ==> min == lbs[mins[i as int] as int],
                j < size ==> max == ubs[maxs[j as int] as int] + 1,
                1 <= self.bounds.len() <= i + j + 1,
                i > 0 ==> self.bounds.len() >= 2,
                i == 0 ==> j == 0 && self.bounds.len() == 1 && last == min - 2 && min < max,
                last == self.bounds[self.bounds.len() - 1],
                i < size ==> last <= min,
                j < size ==> last <= max,
                forall|k: int, l: int|
                    0 <= k < l < self.bounds.len() ==> #[trigger] self.bounds[k]
                        < #[trigger] self.bounds[l],
                self.bounds.len() >= 2 ==> self.bounds[1] - self.bounds[0] == 2,
                self.bounds[0] == lbs[mins[0] as int] - 2,
                forall|k: int|
                    0 <= k < self.bounds.len() ==> -INT_LIMIT - 2 <= #[trigger] self.bounds[k]
                        <= INT_LIMIT + 1,
                i < size && j > 0 ==> lbs[mins[i as int] as int] > ubs[maxs[j - 1] as int] + 1,
                forall|k: int|
                    1 <= k < self.bounds.len() ==> is_critical(
                        lbs,
                        ubs,
                        #[trigger] self.bounds[k] as int,
                    ),
                forall|k: int|
                    0 <= k < i ==> {
                        let v = #[trigger] mins[k] as int;
                        &&& 1 <= self.min_rank[v] < self.bounds.len()
                        &&& self.bounds[self.min_rank[v] as int] == lbs[v]
                    },
                forall|k: int|
                    0 <= k < j ==> {
                        let v = #[trigger] maxs[k] as int;
                        &&& 1 <= self.max_rank[v] < self.bounds.len()
                        &&& self.bounds[self.max_rank[v] as int] == ubs[v] + 1
                    },
            decreases 2 * size - i - j,
        {
            let ghost bounds0 = self.bounds@;
            let ghost min_rank0 = self.min_rank@;
            let ghost max_rank0 = self.max_rank@;
            if i < size && min <= max {
                if min != last {
                    last = min;
                    self.bounds.push(min);
                }
                let rank: usize = self.bounds.len() - 1;
                let v: usize = self.min_sorted[i];
                self.min_rank.set(v, rank);
                proof {
                    assert(is_critical(lbs, ubs, min as int)) by {
                        assert(ends_at(lbs, ubs, v as int, min as int));
                    }
                    assert forall|k: int| 1 <= k < self.bounds.len() implies is_critical(
                        lbs,
                        ubs,
                        #[trigger] self.bounds[k] as int,
                    ) by {
                        if k < bounds0.len() {
                            assert(self.bounds[k] == bounds0[k]);
                        }
                    }
                    assert forall|k: int| 0 <= k < i implies {
                        let v = #[trigger] mins[k] as int;
                        &&& 1 <= self.min_rank[v] < self.bounds.len()
                        &&& self.bounds[self.min_rank[v] as int] == lbs[v]
                    } by {
                        assert(mins[k] != mins[i as int]);
                        assert(bounds0[min_rank0[mins[k] as int] as int] == lbs[mins[k] as int]);
                    }
                    assert forall|k: int| 0 <= k < j implies {
                        let v = #[trigger] maxs[k] as int;
                        &&& 1 <= self.max_rank[v] < self.bounds.len()
                        &&& self.bounds[self.max_rank[v] as int] == ubs[v] + 1
                    } by {
                        assert(bounds0[max_rank0[maxs[k] as int] as int] == ubs[maxs[k] as int]
                            + 1);
                    }
                }
                i = i + 1;
                if i < size {
                    assert(lbs[mins[i - 1] as int] <= lbs[mins[i as int] as int]);
                    min = self.lb[self.min_sorted[i]];
                }
            } else {
                if max != last {
                    last = max;
                    self.bounds.push(max);
                }
                let rank: usize = self.bounds.len() - 1;
                let v: usize = self.max_sorted[j];
                self.max_rank.set(v, rank);
                proof {
                    assert(is_critical(lbs, ubs, max as int)) by {
                        assert(ends_at(lbs, ubs, v as int, max as int));
                    }
                    assert forall|k: int| 1 <= k < self.bounds.len() implies is_critical(
                        lbs,
                        ubs,
                        #[trigger] self.bounds[k] as int,
                    ) by {
                        if k < bounds0.len() {
                            assert(self.bounds[k] == bounds0[k]);
                        }
                    }
                    assert forall|k: int| 0 <= k < i implies {
                        let v = #[trigger] mins[k] as int;
                        &&& 1 <= self.min_rank[v] < self.bounds.len()
                        &&& self.bounds[self.min_rank[v] as int] == lbs[v]
                    } by {
                        assert(bounds0[min_rank0[mins[k] as int] as int] == lbs[mins[k] as int]);
                    }
                    assert forall|k: int| 0 <= k < j implies {
                        let v = #[trigger] maxs[k] as int;
                        &&& 1 <= self.max_rank[v] < self.bounds.len()
                        &&& self.bounds[self.max_rank[v] as int] == ubs[v] + 1
                    } by {
                        assert(maxs[k] != maxs[j as int]);
                        assert(bounds0[max_rank0[maxs[k] as int] as int] == ubs[maxs[k] as int]
                            + 1);
                    }
                }
                j = j + 1;
                if j < size {
                    assert(ubs[maxs[j - 1] as int] <= ubs[maxs[j as int] as int]);
                    max = self.ub[self.max_sorted[j]] + 1;
                }
            }
        }
        proof {
            if i < size {
                let v = mins[i as int] as int;
                assert(maxs.contains(v as usize));
                let k = maxs.index_of(v as usize);
                assert(ubs[maxs[k] as int] <= ubs[maxs[size - 1] as int]);
                assert(lbs[v] <= ubs[v]);
            }
            assert(i == size);
        }
        let ghost bounds0 = self.bounds@;
        self.bounds.push(last + 2);
        proof {
            let m = self.bounds.len() - 1;
            assert forall|v: int| 0 <= v < size implies {
                &&& 1 <= #[trigger] self.min_rank[v] < self.max_rank[v] < m
                &&& self.bounds[self.min_rank[v] as int] == lbs[v]
                &&& self.bounds[self.max_rank[v] as int] == ubs[v] + 1
            } by {
                assert(mins.contains(v as usize));
                assert(maxs.contains(v as usize));
                let k = mins.index_of(v as usize);
                let l = maxs.index_of(v as usize);
                assert(mins[k] == v && maxs[l] == v);
                assert(lbs[v] <= ubs[v]);
                let (a, b) = (self.min_rank[v] as int, self.max_rank[v] as int);
                assert(bounds0[a] == lbs[v]);
                assert(bounds0[b] == ubs[v] + 1);
                if b < a {
                    assert(bounds0[b] < bounds0[a]);
                }
            }
            assert forall|v: int| 0 <= v < size implies #[trigger] self.lb[v]
                == self.bounds[self.min_rank[v] as int] by {}
            assert forall|v: int| 0 <= v < size implies #[trigger] self.ub[v] + 1
                == self.bounds[self.max_rank[v] as int] by {
                assert(self.min_rank[v] < self.max_rank[v]);
            }
            assert forall|a: int, b: int| 0 <= a < b < self.bounds.len() implies
                #[trigger] self.bounds[a] < #[trigger] self.bounds[b] by {
                if b == m {
                    if a < m - 1 {
                        assert(bounds0[a] < bounds0[m - 1]);
                    }
                } else {
                    assert(bounds0[a] < bounds0[b]);
                }
            }
            assert forall|v: int| 0 <= v < size implies 1 <= #[trigger] self.max_rank[v] <= m - 1
                && self.bounds[self.max_rank[v] as int] == ubs[v] + 1 by {
                assert(self.min_rank[v] < self.max_rank[v]);
            }
            assert(self.bounds.len() >= 3) by {
                assert(1 <= self.min_rank[0] < self.max_rank[0]);
            }
            let x = by_order(self.min_rank@, maxs);
            let y = by_order(self.max_rank@, maxs);
            let bs = ints(self.bounds@);
            assert(ranked(bs, x, y, m)) by {
                reveal(ranked);
                assert forall|k: int, l: int| 0 <= k < l <= m implies #[trigger] bs[k]
                    < #[trigger] bs[l] by {
                    if l == m {
                        if k < m - 1 {
                            assert(bounds0[k] < bounds0[m - 1]);
                        }
                    } else {
                        assert(bounds0[k] < bounds0[l]);
                    }
                }
                assert forall|i: int| 0 <= i < x.len() implies 1 <= #[trigger] x[i] < y[i] < m by {
                    let v = maxs[i] as int;
                    assert(self.min_rank[v] < self.max_rank[v]);
                }
                assert forall|i: int, j: int| 0 <= i <= j < y.len() implies #[trigger] y[i]
                    <= #[trigger] y[j] by {
                    let (v, w) = (maxs[i] as int, maxs[j] as int);
                    assert(self.min_rank[v] < self.max_rank[v]);
                    assert(self.min_rank[w] < self.max_rank[w]);
                    assert(ubs[v] <= ubs[w]);
                    if y[j] < y[i] {
                        assert(bs[y[j]] < bs[y[i]]);
                    }
                }
            }
        }
    }
}


impl Ranking {
    /// The ranking of the negated decisions.
    pub fn mirror(&self) -> (r: Ranking)
        requires
            self.sorted(),
        ensures
            r.sorted(),
            r.lb.len() == self.lb.len(),
            forall|v: int| 0 <= v < self.lb.len() ==> #[trigger] r.lb[v] == -self.ub[v],
            forall|v: int| 0 <= v < self.lb.len() ==> #[trigger] r.ub[v] == -self.lb[v],
    {
        let n: usize = self.lb.len();
        assert(self.bounds.len() >= 3) by {
            reveal(ranked);
        }
        let top: usize = self.bounds.len() - 1;
        let mut bounds: Vec<IntVal> = Vec::new();
        let mut k: usize = 0;
        while k <= top
            invariant
                k <= top + 1,
                top + 1 == self.bounds.len(),
                bounds.len() == k,
                self.sorted(),
                forall|l: int| 0 <= l < k ==> #[trigger] bounds[l] == 1 - self.bounds[top - l],
            decreases top + 1 - k,
        {
            bounds.push(1 - self.bounds[top - k]);
            k = k + 1;
        }
        let mut lb: Vec<IntVal> = Vec::new();
        let mut ub: Vec<IntVal> = Vec::new();
        let mut min_rank: Vec<usize> = Vec::new();
        let mut max_rank: Vec<usize> = Vec::new();
        let mut min_sorted: Vec<usize> = Vec::new();
        let mut max_sorted: Vec<usize> = Vec::new();
        let mut v: usize = 0;
        while v < n
            invariant
                v <= n == self.lb.len(),
                top + 1 == self.bounds.len(),
                self.sorted(),
                lb.len() == v,
                ub.len() == v,
                min_rank.len() == v,
                max_rank.len() == v,
                min_sorted.len() == v,
                max_sorted.len() == v,
                forall|l: int| 0 <= l < v ==> #[trigger] lb[l] == -self.ub[l],
                forall|l: int| 0 <= l < v ==> #[trigger] ub[l] == -self.lb[l],
                forall|l: int| 0 <= l < v ==> #[trigger] min_rank[l] == top - self.max_rank[l],
                forall|l: int| 0 <= l < v ==> #[trigger] max_rank[l] == top - self.min_rank[l],
                forall|l: int| 0 <= l < v ==> #[trigger] min_sorted[l] == self.max_sorted[n - 1 - l],
                forall|l: int| 0 <= l < v ==> #[trigger] max_sorted[l] == self.min_sorted[n - 1 - l],
            decreases n - v,
        {
            proof {
                assert(self.lb[v as int] == self.bounds[self.min_rank[v as int] as int]);
                assert(self.ub[v as int] + 1 == self.bounds[self.max_rank[v as int] as int]);
                assert(self.min_rank[v as int] < self.max_rank[v as int]);
            }
            lb.push(0 - self.ub[v]);
            ub.push(0 - self.lb[v]);
            min_rank.push(top - self.max_rank[v]);
            max_rank.push(top - self.min_rank[v]);
            min_sorted.push(self.max_sorted[n - 1 - v]);
            max_sorted.push(self.min_sorted[n - 1 - v]);
            v = v + 1;
        }
        let r: Ranking = Ranking {
            lb,
            ub,
            min_sorted,
            max_sorted,
            bounds,
            min_rank,
            max_rank,
        };
        proof {
            lemma_mirror_permutes(self.max_sorted@, r.min_sorted@, n as int);
            lemma_mirror_permutes(self.min_sorted@, r.max_sorted@, n as int);
            lemma_mirror_sorted(self, &r);
        }
        r
    }
}

proof fn lemma_mirror_permutes(order: Seq<usize>, mirrored: Seq<usize>, n: int)
    requires
        permutes(order, n),
        mirrored.len() == n,
        forall|l: int| 0 <= l < n ==> #[trigger] mirrored[l] == order[n - 1 - l],
    ensures
        permutes(mirrored, n),
{
    assert forall|v: int| 0 <= v < n implies #[trigger] mirrored.contains(v as usize) by {
        assert(order.contains(v as usize));
        let k = order.index_of(v as usize);
        assert(mirrored[n - 1 - k] == v as usize);
    }
    assert forall|i: int, j: int| 0 <= i < j < n implies mirrored[i] != mirrored[j] by {
        assert(order[n - 1 - i] != order[n - 1 - j]);
    }
    assert forall|i: int| 0 <= i < n implies #[trigger] mirrored[i] < n by {
        assert(order[n - 1 - i] < n);
    }
}

proof fn lemma_mirror_sorted(a: &Ranking, r: &Ranking)
    requires
        a.sorted(),
        r.lb.len() == a.lb.len(),
        r.wf(),
        r.bounds.len() == a.bounds.len(),
        forall|l: int|
            0 <= l < a.bounds.len() ==> #[trigger] r.bounds[l] == 1 - a.bounds[a.bounds.len() - 1
                - l],
        forall|l: int| 0 <= l < a.lb.len() ==> #[trigger] r.lb[l] == -a.ub[l],
        forall|l: int| 0 <= l < a.lb.len() ==> #[trigger] r.ub[l] == -a.lb[l],
        forall|l: int|
            0 <= l < a.lb.len() ==> #[trigger] r.min_rank[l] == a.bounds.len() - 1 - a.max_rank[l],
        forall|l: int|
            0 <= l < a.lb.len() ==> #[trigger] r.max_rank[l] == a.bounds.len() - 1 - a.min_rank[l],
        forall|l: int|
            0 <= l < a.lb.len() ==> #[trigger] r.min_sorted[l] == a.max_sorted[a.lb.len() - 1 - l],
        forall|l: int|
            0 <= l < a.lb.len() ==> #[trigger] r.max_sorted[l] == a.min_sorted[a.lb.len() - 1 - l],
    ensures
        r.sorted(),
{
    reveal(ranked);
    let n = a.lb.len() as int;
    let top = a.bounds.len() - 1;
    let bs = ints(a.bounds@);
    let cs = ints(r.bounds@);
    let x = by_order(r.min_rank@, r.max_sorted@);
    let y = by_order(r.max_rank@, r.max_sorted@);
    assert forall|v: int| 0 <= v < n implies 1 <= #[trigger] a.min_rank[v] by {
        assert(a.max_sorted@.contains(v as usize));
        let k = a.max_sorted@.index_of(v as usize);
        assert(by_order(a.min_rank@, a.max_sorted@)[k] >= 1);
    }
    assert forall|k: int, l: int| 0 <= k < l <= top implies #[trigger] cs[k] < #[trigger] cs[l] by {
        assert(bs[top - l] < bs[top - k]);
    }
    assert(r.bounds[1] - r.bounds[0] >= 2);
    assert forall|v: int| 0 <= v < n implies 1 <= #[trigger] r.min_rank[v] < r.max_rank[v]
        < top by {
        assert(a.min_rank[v] < a.max_rank[v] < top);
        assert(a.min_rank[v] >= 1);
    }
    assert forall|i: int| 0 <= i < n implies 1 <= #[trigger] x[i] < y[i] < top by {
        let v = r.max_sorted[i] as int;
        assert(1 <= r.min_rank[v] < r.max_rank[v] < top);
    }
    assert forall|v: int| 0 <= v < n implies #[trigger] r.lb[v] == r.bounds[r.min_rank[v] as int] by {
        assert(r.min_rank[v] < r.max_rank[v]);
        assert(a.ub[v] + 1 == a.bounds[a.max_rank[v] as int]);
    }
    assert forall|v: int| 0 <= v < n implies #[trigger] r.ub[v] + 1
        == r.bounds[r.max_rank[v] as int] by {
        assert(r.min_rank[v] < r.max_rank[v]);
        assert(a.lb[v] == a.bounds[a.min_rank[v] as int]);
    }
    assert forall|i: int, j: int| 0 <= i <= j < n implies #[trigger] y[i] <= #[trigger] y[j] by {
        let v = r.max_sorted[i] as int;
        let w = r.max_sorted[j] as int;
        assert(a.lb[a.min_sorted[n - 1 - j] as int] <= a.lb[a.min_sorted[n - 1 - i] as int]);
        assert(1 <= r.min_rank[v] < r.max_rank[v] < top);
        assert(1 <= r.min_rank[w] < r.max_rank[w] < top);
        assert(r.ub[v] <= r.ub[w]);
        if y[j] < y[i] {
            assert(cs[y[j]] < cs[y[i]]);
        }
    }
    assert forall|i: int, j: int| 0 <= i <= j < n implies r.lb[#[trigger] r.min_sorted@[i] as int]
        <= r.lb[#[trigger] r.min_sorted@[j] as int] by {
        let xs = by_order(a.max_rank@, a.max_sorted@);
        assert(xs[n - 1 - j] <= xs[n - 1 - i]);
        let v = a.max_sorted[n - 1 - i] as int;
        let w = a.max_sorted[n - 1 - j] as int;
        assert(r.min_sorted[i] == v && r.min_sorted[j] == w);
        assert(r.min_rank[v] <= r.min_rank[w]);
        assert(r.lb[v] == r.bounds[r.min_rank[v] as int]);
        assert(r.lb[w] == r.bounds[r.min_rank[w] as int]);
        if r.min_rank[v] < r.min_rank[w] {
            assert(cs[r.min_rank[v] as int] < cs[r.min_rank[w] as int]);
        }
    }
    assert(ranked(cs, x, y, top));
}

/// The decisions whose bounds lie in `p..q`.
pub open spec fn held(lb: Seq<IntVal>, ub: Seq<IntVal>, p: int, q: int) -> Set<int> {
    Set::new(|v: int| 0 <= v < lb.len() && p <= lb[v] && ub[v] < q)
}

/// Whether no interval holds more decisions than it has values, and every decision that starts
/// in an interval that is used up without lying in it has its lower bound, `after`, moved out.
pub open spec fn hall_consistent(
    lb: Seq<IntVal>,
    ub: Seq<IntVal>,
    after: Seq<int>,
) -> bool {
    forall|p: int, q: int|
        p < q ==> {
            &&& (#[trigger] held(lb, ub, p, q)).finite()
            &&& held(lb, ub, p, q).len() <= q - p
            &&& held(lb, ub, p, q).len() == q - p ==> forall|v: int|
                0 <= v < lb.len() && p <= lb[v] < q && ub[v] >= q ==> #[trigger] after[v] >= q
        }
}

/// Larger lower bounds are consistent too.
pub proof fn lemma_hall_consistent_above(
    lb: Seq<IntVal>,
    ub: Seq<IntVal>,
    after: Seq<int>,
    now: Seq<int>,
)
    requires
        hall_consistent(lb, ub, after),
        forall|v: int| 0 <= v < lb.len() ==> after[v] <= #[trigger] now[v],
    ensures
        hall_consistent(lb, ub, now),
{
    assert forall|p: int, q: int| p < q implies {
        &&& (#[trigger] held(lb, ub, p, q)).finite()
        &&& held(lb, ub, p, q).len() <= q - p
        &&& held(lb, ub, p, q).len() == q - p ==> forall|v: int|
            0 <= v < lb.len() && p <= lb[v] < q && ub[v] >= q ==> #[trigger] now[v] >= q
    } by {
        if held(lb, ub, p, q).len() == q - p {
            assert forall|v: int|
                0 <= v < lb.len() && p <= lb[v] < q && ub[v] >= q implies #[trigger] now[v] >= q by {
                assert(after[v] >= q);
            }
        }
    }
}

/// The lower bounds after all pushes.
pub open spec fn all_pushed(lb: Seq<IntVal>, pushes: Seq<HallPush>) -> Seq<int> {
    Seq::new(lb.len(), |v: int| pushed(lb, pushes, pushes.len() as int, v))
}

/// The decisions among the first `n` in order that lie in an interval.
spec fn met(order: Seq<usize>, of: Set<int>, n: int) -> Set<int>
    decreases n,
{
    if n <= 0 {
        Set::empty()
    } else if of.contains(order[n - 1] as int) {
        met(order, of, n - 1).insert(order[n - 1] as int)
    } else {
        met(order, of, n - 1)
    }
}

proof fn lemma_met(
    order: Seq<usize>,
    of: Set<int>,
    n: int,
    x: Seq<int>,
    y: Seq<int>,
    a: int,
    b: int,
)
    requires
        0 <= n <= order.len(),
        order.no_duplicates(),
        x.len() == order.len(),
        y.len() == order.len(),
        forall|i: int|
            0 <= i < n ==> of.contains(#[trigger] order[i] as int) == (a <= x[i] && y[i] <= b),
    ensures
        met(order, of, n).finite(),
        met(order, of, n).len() == within(x, y, n, a, b),
        forall|v: int|
            #[trigger] met(order, of, n).contains(v) <==> of.contains(v) && exists|i: int|
                0 <= i < n && #[trigger] order[i] == v,
    decreases n,
{
    if n > 0 {
        lemma_met(order, of, n - 1, x, y, a, b);
        let w = order[n - 1] as int;
        assert(!met(order, of, n - 1).contains(w)) by {
            if met(order, of, n - 1).contains(w) {
                let i = choose|i: int| 0 <= i < n - 1 && #[trigger] order[i] == w;
                assert(order[i] == order[n - 1]);
            }
        }
        assert(of.contains(order[n - 1] as int) == (a <= x[n - 1] && y[n - 1] <= b));
        assert forall|v: int| #[trigger] met(order, of, n).contains(v) <==> of.contains(v)
            && exists|i: int| 0 <= i < n && #[trigger] order[i] == v by {
            if met(order, of, n).contains(v) {
                if v == w {
                    assert(order[n - 1] == v);
                } else {
                    assert(met(order, of, n - 1).contains(v));
                    let i = choose|i: int| 0 <= i < n - 1 && #[trigger] order[i] == v;
                    assert(0 <= i < n && order[i] == v);
                }
            }
            if of.contains(v) && exists|i: int| 0 <= i < n && #[trigger] order[i] == v {
                let i = choose|i: int| 0 <= i < n && #[trigger] order[i] == v;
                if i < n - 1 {
                    assert(met(order, of, n - 1).contains(v));
                } else {
                    assert(v == w);
                }
            }
        }
    }
}

/// The first position from one on whose critical bound is at least `p`.
proof fn lemma_first_above(bounds: Seq<int>, p: int, k: int) -> (a: int)
    requires
        1 <= k < bounds.len(),
        bounds[k] >= p,
        forall|i: int, j: int| 0 <= i < j < bounds.len() ==> #[trigger] bounds[i] < #[trigger] bounds[j],
    ensures
        1 <= a <= k,
        bounds[a] >= p,
        forall|i: int| 1 <= i < a ==> #[trigger] bounds[i] < p,
    decreases k,
{
    if k == 1 || bounds[k - 1] < p {
        assert forall|i: int| 1 <= i < k implies #[trigger] bounds[i] < p by {
            if i < k - 1 {
                assert(bounds[i] < bounds[k - 1]);
            }
        }
        k
    } else {
        lemma_first_above(bounds, p, k - 1)
    }
}

/// The last position before `m` whose critical bound is at most `q`.
proof fn lemma_last_below(bounds: Seq<int>, q: int, k: int, m: int) -> (b: int)
    requires
        0 <= k < m < bounds.len(),
        bounds[k] <= q,
        forall|i: int, j: int| 0 <= i < j < bounds.len() ==> #[trigger] bounds[i] < #[trigger] bounds[j],
    ensures
        k <= b < m,
        bounds[b] <= q,
        forall|i: int| b < i < m ==> #[trigger] bounds[i] > q,
    decreases m - k,
{
    if k == m - 1 || bounds[k + 1] > q {
        assert forall|i: int| k < i < m implies #[trigger] bounds[i] > q by {
            if i > k + 1 {
                assert(bounds[k + 1] < bounds[i]);
            }
        }
        k
    } else {
        lemma_last_below(bounds, q, k + 1, m)
    }
}

/// What was found for the critical bounds holds for all intervals.
proof fn lemma_hall_consistent(r: &Ranking, pushes: Seq<HallPush>)
    requires
        r.sorted(),
        uncrowded(
            ints(r.bounds@),
            by_order(r.min_rank@, r.max_sorted@),
            by_order(r.max_rank@, r.max_sorted@),
            r.bounds.len() - 1,
            r.lb.len() as int,
        ),
        filtered(
            ints(r.bounds@),
            by_order(r.min_rank@, r.max_sorted@),
            by_order(r.max_rank@, r.max_sorted@),
            r.bounds.len() - 1,
            r.lb.len() as int,
            r.max_sorted@,
            r.lb@,
            pushes,
        ),
    ensures
        hall_consistent(r.lb@, r.ub@, all_pushed(r.lb@, pushes)),
{
    reveal(ranked);
    reveal(uncrowded);
    reveal(filtered);
    let after = all_pushed(r.lb@, pushes);
    let n = r.lb.len() as int;
    let m = r.bounds.len() - 1;
    let bs = ints(r.bounds@);
    let order = r.max_sorted@;
    let x = by_order(r.min_rank@, order);
    let y = by_order(r.max_rank@, order);
    assert forall|p: int, q: int| p < q implies {
        &&& (#[trigger] held(r.lb@, r.ub@, p, q)).finite()
        &&& held(r.lb@, r.ub@, p, q).len() <= q - p
        &&& held(r.lb@, r.ub@, p, q).len() == q - p ==> forall|v: int|
            0 <= v < n && p <= r.lb@[v] < q && r.ub@[v] >= q ==> #[trigger] after[v] >= q
    } by {
        let s = held(r.lb@, r.ub@, p, q);
        if forall|v: int| !s.contains(v) {
            assert(s =~= Set::empty());
        } else {
            let u = choose|v: int| s.contains(v);
            assert(r.lb[u] == r.bounds[r.min_rank[u] as int]);
            assert(r.ub[u] + 1 == r.bounds[r.max_rank[u] as int]);
            assert(r.min_rank[u] < r.max_rank[u] < m);
            assert(order.contains(u as usize));
            let ku = order.index_of(u as usize);
            assert(x[ku] >= 1);
            assert(bs[r.min_rank[u] as int] >= p);
            assert(bs[r.max_rank[u] as int] <= q);
            let a = lemma_first_above(bs, p, r.min_rank[u] as int);
            let b = lemma_last_below(bs, q, r.max_rank[u] as int, m);
            assert forall|i: int| 0 <= i < n implies s.contains(#[trigger] order[i] as int) == (a
                <= x[i] && y[i] <= b) by {
                let v = order[i] as int;
                assert(r.lb[v] == r.bounds[r.min_rank[v] as int]);
                assert(r.ub[v] + 1 == r.bounds[r.max_rank[v] as int]);
                assert(1 <= x[i] < y[i] < m);
                assert(bs[x[i]] == r.lb[v] && bs[y[i]] == r.ub[v] + 1);
                if a < x[i] {
                    assert(bs[a] < bs[x[i]]);
                }
                if y[i] < b {
                    assert(bs[y[i]] < bs[b]);
                }
            }
            lemma_met(order, s, n, x, y, a, b);
            assert(met(order, s, n) =~= s) by {
                assert forall|v: int| s.contains(v) implies met(order, s, n).contains(v) by {
                    assert(order.contains(v as usize));
                    let k = order.index_of(v as usize);
                    assert(order[k] == v);
                }
            }
            assert(within(x, y, n, a, b) <= bs[b] - bs[a]);
            if s.len() == q - p {
                assert forall|v: int|
                    0 <= v < n && p <= r.lb@[v] < q && r.ub@[v] >= q implies #[trigger] after[v]
                    >= q by {
                    assert(order.contains(v as usize));
                    let i = order.index_of(v as usize);
                    assert(order[i] == v);
                    assert(r.lb[v] == r.bounds[r.min_rank[v] as int]);
                    assert(r.ub[v] + 1 == r.bounds[r.max_rank[v] as int]);
                    assert(1 <= x[i] < y[i] < m);
                    assert(bs[x[i]] == r.lb[v] && bs[y[i]] == r.ub[v] + 1);
                    if x[i] < a {
                        assert(bs[x[i]] < p);
                    }
                    if x[i] >= b {
                        if x[i] > b {
                            assert(bs[b] < bs[x[i]]);
                        }
                    }
                    if y[i] <= b {
                        if y[i] < b {
                            assert(bs[y[i]] < bs[b]);
                        }
                    }
                }
            }
        }
    }
}

impl Ranking {
    /// The lower bounds that the Hall intervals of the decisions force.
    pub fn pushes(&self) -> (pushes: Vec<HallPush>)
        requires
            self.sorted(),
        ensures
            forall|k: int|
                0 <= k < pushes.len() ==> #[trigger] justified(self.lb@, self.ub@, pushes@, k),
            forall|k: int|
                0 <= k < pushes.len() - 1 ==> (#[trigger] pushes[k]).bound
                    <= self.ub[pushes[k].var as int],
            accepted(self.ub@, pushes@) ==> hall_consistent(
                self.lb@,
                self.ub@,
                all_pushed(self.lb@, pushes@),
            ),
    {
        let pushes: Vec<HallPush> = hall_pushes(
            &self.bounds,
            &self.min_rank,
            &self.max_rank,
            &self.max_sorted,
            &self.lb,
            &self.ub,
        );
        proof {
            if accepted(self.ub@, pushes@) {
                lemma_hall_consistent(self, pushes@);
            }
        }
        pushes
    }
}

} // verus!
