//! Literals that stand for bounds of differences of decisions.

use rustc_hash::FxHashMap;
use vstd::prelude::*;

use crate::helpers::fx::{map_get, map_insert, map_new};
use crate::solver::view::{IntVal, Lit};

verus! {

/// A literal that holds if and only if a difference is at most `d`.
#[derive(Clone, Copy, Debug, PartialEq, Eq, Hash, Structural)]
pub struct DiffLit {
    /// The bound.
    pub d: IntVal,
    /// The literal.
    pub lit: Lit,
}

/// The literals of each pair of decisions, by their bounds.
#[derive(Debug)]
pub struct DiffLits {
    /// The chain of each pair of decisions.
    pub index: FxHashMap<(usize, usize), usize>,
    /// The literals of a pair, smallest bound first.
    pub chains: Vec<Vec<DiffLit>>,
}

/// Whether the bounds of the chain increase.
pub open spec fn increasing(chain: Seq<DiffLit>) -> bool {
    forall|i: int, j: int| 0 <= i < j < chain.len() ==> #[trigger] chain[i].d < #[trigger] chain[j].d
}

/// The literal of the chain with the given bound.
pub open spec fn lit_in(chain: Seq<DiffLit>, d: int, lit: Lit) -> bool {
    exists|i: int| 0 <= i < chain.len() && #[trigger] chain[i].d == d && chain[i].lit == lit
}

/// Whether the chain has a literal with the given bound.
pub open spec fn bound_in(chain: Seq<DiffLit>, d: int) -> bool {
    exists|i: int| 0 <= i < chain.len() && #[trigger] chain[i].d == d
}

impl DiffLits {
    /// Every pair has a chain of its own, with increasing bounds.
    pub open spec fn wf(&self) -> bool {
        &&& forall|p: (usize, usize)| #[trigger]
            self.index@.dom().contains(p) ==> self.index@[p] < self.chains.len()
        &&& forall|p: (usize, usize), q: (usize, usize)|
            self.index@.dom().contains(p) && self.index@.dom().contains(q)
                && #[trigger] self.index@[p] == #[trigger] self.index@[q] ==> p == q
        &&& forall|k: int| 0 <= k < self.chains.len() ==> increasing(#[trigger] self.chains[k]@)
    }

    /// The literals of a pair.
    pub open spec fn chain(&self, x: usize, y: usize) -> Seq<DiffLit> {
        if self.index@.dom().contains((x, y)) {
            self.chains[self.index@[(x, y)] as int]@
        } else {
            Seq::empty()
        }
    }

    /// No literals.
    pub fn new() -> (r: DiffLits)
        ensures
            r.wf(),
            forall|x: usize, y: usize| #[trigger] r.chain(x, y).len() == 0,
    {
        DiffLits { index: map_new(), chains: Vec::new() }
    }

    /// The number of literals of a pair whose bounds are less than `d`.
    fn position(&self, x: usize, y: usize, d: IntVal) -> (r: usize)
        requires
            self.wf(),
        ensures
            r <= self.chain(x, y).len(),
            forall|i: int| 0 <= i < r ==> (#[trigger] self.chain(x, y)[i]).d < d,
            forall|i: int| r <= i < self.chain(x, y).len() ==> (#[trigger] self.chain(x, y)[i]).d >= d,
    {
        match map_get(&self.index, (x, y)) {
            None => 0,
            Some(k) => {
                let mut i: usize = 0;
                proof {
                    assert(increasing(self.chains[k as int]@));
                }
                while i < self.chains[k].len() && self.chains[k][i].d < d
                    invariant
                        k < self.chains.len(),
                        self.chain(x, y) == self.chains[k as int]@,
                        i <= self.chains[k as int].len(),
                        forall|j: int| 0 <= j < i ==> (#[trigger] self.chain(x, y)[j]).d < d,
                    decreases self.chains[k as int].len() - i,
                {
                    i = i + 1;
                }
                proof {
                    assert forall|j: int| i <= j < self.chain(x, y).len() implies (
                    #[trigger] self.chain(x, y)[j]).d >= d by {
                        if i < j {
                            assert(self.chains[k as int]@[i as int].d < self.chains[k as int]@[j].d);
                        }
                    }
                }
                i
            },
        }
    }

    /// The literal with the given bound.
    pub fn get(&self, x: usize, y: usize, d: IntVal) -> (r: Option<Lit>)
        requires
            self.wf(),
        ensures
            match r {
                Some(lit) => lit_in(self.chain(x, y), d as int, lit),
                None => !bound_in(self.chain(x, y), d as int),
            },
    {
        let i: usize = self.position(x, y, d);
        match map_get(&self.index, (x, y)) {
            None => None,
            Some(k) => {
                if i < self.chains[k].len() && self.chains[k][i].d == d {
                    proof {
                        assert(self.chain(x, y)[i as int].d == d);
                    }
                    Some(self.chains[k][i].lit)
                } else {
                    proof {
                        assert(increasing(self.chains[k as int]@));
                        if bound_in(self.chain(x, y), d as int) {
                            let j = choose|j: int|
                                0 <= j < self.chain(x, y).len() && #[trigger] self.chain(x, y)[j].d
                                    == d;
                            assert(self.chain(x, y)[j].d == d);
                            if i < j {
                                assert(self.chains[k as int]@[i as int].d
                                    < self.chains[k as int]@[j].d);
                                assert(self.chain(x, y)[i as int].d >= d);
                            }
                        }
                    }
                    None
                }
            },
        }
    }

    /// The literal with the largest bound less than `d`.
    pub fn below(&self, x: usize, y: usize, d: IntVal) -> (r: Option<Lit>)
        requires
            self.wf(),
        ensures
            is_below(self.chain(x, y), d as int, r),
    {
        let i: usize = self.position(x, y, d);
        match map_get(&self.index, (x, y)) {
            None => None,
            Some(k) => {
                if i == 0 {
                    None
                } else {
                    proof {
                        assert(increasing(self.chains[k as int]@));
                        assert forall|j: int|
                            0 <= j < self.chain(x, y).len() && (#[trigger] self.chain(x, y)[j]).d
                                < d implies self.chain(x, y)[j].d <= self.chain(x, y)[i - 1].d by {
                            if i <= j {
                                assert(self.chain(x, y)[j].d >= d);
                            } else if j < i - 1 {
                                assert(self.chains[k as int]@[j].d < self.chains[k as int]@[i
                                    - 1].d);
                            }
                        }
                        assert(self.chain(x, y)[i - 1].d < d);
                    }
                    Some(self.chains[k][i - 1].lit)
                }
            },
        }
    }

    /// The literal with the smallest bound greater than `d`.
    pub fn above(&self, x: usize, y: usize, d: IntVal) -> (r: Option<Lit>)
        requires
            self.wf(),
            d < IntVal::MAX,
        ensures
            is_above(self.chain(x, y), d as int, r),
    {
        let i: usize = self.position(x, y, d + 1);
        match map_get(&self.index, (x, y)) {
            None => None,
            Some(k) => {
                if i >= self.chains[k].len() {
                    None
                } else {
                    proof {
                        assert(increasing(self.chains[k as int]@));
                        assert(self.chain(x, y)[i as int].d >= d + 1);
                        assert forall|j: int|
                            0 <= j < self.chain(x, y).len() && (#[trigger] self.chain(x, y)[j]).d
                                > d implies self.chain(x, y)[j].d >= self.chain(
                            x,
                            y,
                        )[i as int].d by {
                            if j < i {
                                assert(self.chain(x, y)[j].d < d + 1);
                            } else if i < j {
                                assert(self.chains[k as int]@[i as int].d
                                    < self.chains[k as int]@[j].d);
                            }
                        }
                    }
                    Some(self.chains[k][i].lit)
                }
            },
        }
    }

    /// Add a literal for a bound that has none.
    pub fn insert(&mut self, x: usize, y: usize, d: IntVal, lit: Lit)
        requires
            old(self).wf(),
            !bound_in(old(self).chain(x, y), d as int),
        ensures
            final(self).wf(),
            forall|a: usize, b: usize|
                (a, b) != (x, y) ==> #[trigger] final(self).chain(a, b) == old(self).chain(a, b),
            forall|e: int, l: Lit|
                #![trigger lit_in(final(self).chain(x, y), e, l)]
                lit_in(final(self).chain(x, y), e, l) <==> (e == d && l == lit) || lit_in(
                    old(self).chain(x, y),
                    e,
                    l,
                ),
    {
        let ghost before = *self;
        if map_get(&self.index, (x, y)).is_none() {
            let k: usize = self.chains.len();
            self.chains.push(Vec::new());
            map_insert(&mut self.index, (x, y), k);
            proof {
                assert forall|p: (usize, usize), q: (usize, usize)|
                    self.index@.dom().contains(p) && self.index@.dom().contains(q)
                        && #[trigger] self.index@[p] == #[trigger] self.index@[q] implies p == q by {
                    if p != (x, y) && q != (x, y) {
                        assert(before.index@[p] == before.index@[q]);
                    } else if p != q {
                        let o = if p == (x, y) {
                            q
                        } else {
                            p
                        };
                        assert(before.index@.dom().contains(o));
                        assert(before.index@[o] < k);
                    }
                }
                assert forall|j: int| 0 <= j < self.chains.len() implies increasing(
                    #[trigger] self.chains[j]@,
                ) by {
                    if j < k {
                        assert(self.chains[j] == before.chains[j]);
                    }
                }
                assert forall|p: (usize, usize)| #[trigger]
                    self.index@.dom().contains(p) implies self.index@[p] < self.chains.len() by {
                    if p != (x, y) {
                        assert(before.index@.dom().contains(p));
                    }
                }
            }
        }
        let ghost mid = *self;
        proof {
            assert forall|a: usize, b: usize| #[trigger] mid.chain(a, b) == before.chain(a, b) by {
                if (a, b) != (x, y) && mid.index@.dom().contains((a, b)) {
                    assert(before.index@.dom().contains((a, b)));
                    assert(mid.chains[before.index@[(a, b)] as int]
                        == before.chains[before.index@[(a, b)] as int]);
                }
                if (a, b) == (x, y) {
                    assert(mid.chain(a, b) =~= before.chain(a, b));
                }
            }
        }
        let i: usize = self.position(x, y, d);
        match map_get(&self.index, (x, y)) {
            None => {},
            Some(k) => {
                let ghost old_chain = self.chains[k as int]@;
                let entry: DiffLit = DiffLit { d, lit };
                self.chains[k].insert(i, entry);
                proof {
                    let chain = self.chains[k as int]@;
                    assert(chain == old_chain.insert(i as int, entry));
                    assert(old_chain == mid.chain(x, y));
                    assert(increasing(chain)) by {
                        assert forall|a: int, b: int| 0 <= a < b < chain.len() implies
                            #[trigger] chain[a].d < #[trigger] chain[b].d by {
                            let (oa, ob) = (
                                if a < i {
                                    a
                                } else {
                                    a - 1
                                },
                                if b < i {
                                    b
                                } else {
                                    b - 1
                                },
                            );
                            if a != i {
                                assert(chain[a] == old_chain[oa]);
                            }
                            if b != i {
                                assert(chain[b] == old_chain[ob]);
                            }
                            if a != i && b != i {
                                assert(old_chain[oa].d < old_chain[ob].d);
                            } else if a == i {
                                assert(mid.chain(x, y)[ob].d >= d);
                                assert(mid.chain(x, y)[ob].d != d);
                            } else {
                                assert(mid.chain(x, y)[oa].d < d);
                            }
                        }
                    }
                    assert forall|j: int| 0 <= j < self.chains.len() implies increasing(
                        #[trigger] self.chains[j]@,
                    ) by {
                        if j != k {
                            assert(self.chains[j] == mid.chains[j]);
                        }
                    }
                    assert forall|a: usize, b: usize|
                        (a, b) != (x, y) implies #[trigger] self.chain(a, b) == before.chain(
                        a,
                        b,
                    ) by {
                        assert(mid.chain(a, b) == before.chain(a, b));
                        if self.index@.dom().contains((a, b)) {
                            assert(self.index@[(a, b)] != self.index@[(x, y)]);
                            assert(self.chains[self.index@[(a, b)] as int]
                                == mid.chains[self.index@[(a, b)] as int]);
                        }
                    }
                    assert forall|e: int, l: Lit|
                        #![trigger lit_in(self.chain(x, y), e, l)]
                        lit_in(self.chain(x, y), e, l) <==> (e == d && l == lit) || lit_in(
                            before.chain(x, y),
                            e,
                            l,
                        ) by {
                        assert(self.chain(x, y) == chain);
                        assert(before.chain(x, y) == mid.chain(x, y));
                        assert(chain[i as int] == entry);
                        assert(chain[i as int].d == d);
                        if lit_in(chain, e, l) {
                            let a = choose|a: int|
                                0 <= a < chain.len() && #[trigger] chain[a].d == e && chain[a].lit
                                    == l;
                            if a < i {
                                assert(old_chain[a] == chain[a]);
                            } else if a > i {
                                assert(old_chain[a - 1] == chain[a]);
                            }
                        }
                        if lit_in(old_chain, e, l) {
                            let a = choose|a: int|
                                0 <= a < old_chain.len() && #[trigger] old_chain[a].d == e
                                    && old_chain[a].lit == l;
                            if a < i {
                                assert(old_chain[a] == chain[a]);
                            } else {
                                assert(old_chain[a] == chain[a + 1]);
                            }
                        }
                    }
                }
            },
        }
    }
}

/// The literal with the largest bound less than `d`, if there is one.
pub open spec fn is_below(chain: Seq<DiffLit>, d: int, r: Option<Lit>) -> bool {
    match r {
        Some(lit) => exists|i: int|
            0 <= i < chain.len() && #[trigger] chain[i].d < d && chain[i].lit == lit && forall|j: int|
                0 <= j < chain.len() && (#[trigger] chain[j]).d < d ==> chain[j].d <= chain[i].d,
        None => forall|i: int| 0 <= i < chain.len() ==> (#[trigger] chain[i]).d >= d,
    }
}

/// The literal with the smallest bound greater than `d`, if there is one.
pub open spec fn is_above(chain: Seq<DiffLit>, d: int, r: Option<Lit>) -> bool {
    match r {
        Some(lit) => exists|i: int|
            0 <= i < chain.len() && #[trigger] chain[i].d > d && chain[i].lit == lit && forall|j: int|
                0 <= j < chain.len() && (#[trigger] chain[j]).d > d ==> chain[j].d >= chain[i].d,
        None => forall|i: int| 0 <= i < chain.len() ==> (#[trigger] chain[i]).d <= d,
    }
}

} // verus!
