//! Branching on the order of pairs of views.
//!
//! For each pair of views the search branches on whether the first one is less than the second
//! one. The literals are created when their pairs are reached.

use vstd::prelude::*;

use crate::constraints::diff_lit::{
    bound_obtained, can_obtain, decision_bound, lemma_diff_lit_meaning, lit_obtained, lits_stand, opposite_bound, reified,
};
use crate::constraints::diff_propagator::lemma_foreign_value_in_order;
use crate::constraints::difference_logic::{diff_rule, DiffLogicState};
use crate::helpers::trail::Trailed;
use crate::solver::diff_lits::lit_in;
use crate::solver::solving_context::SolvingContext;
use crate::solver::view::{BoolAssignment, BoolView, IntAssignment, IntView, Lit};

verus! {

/// What to branch on.
#[derive(Clone, Copy, Debug, PartialEq, Eq, Hash, Structural)]
pub enum Directive {
    /// There is nothing left to branch on.
    Exhausted,
    /// The view that is to hold first.
    Select(BoolView),
}

/// A brancher on the order of pairs of views.
#[derive(Debug)]
pub struct DiffLogicBrancher {
    /// The views, all with factor one.
    pub vars: Vec<IntView>,
    /// The index of the next pair, which is restored when the search backtracks.
    pub next: Trailed,
}

/// The number of pairs whose first index is less than `i`.
pub open spec fn row_start(i: int, n: int) -> int
    decreases i,
{
    if i <= 0 {
        0
    } else {
        row_start(i - 1, n) + (n - i)
    }
}

/// The number of pairs.
pub open spec fn num_pairs(n: int) -> int {
    n * (n - 1) / 2
}

/// Whether `(i, j)` is the pair with index `k`, in lexicographic order.
pub open spec fn is_pair(k: int, n: int, i: int, j: int) -> bool {
    &&& 0 <= i < j < n
    &&& k == row_start(i, n) + (j - i - 1)
}

/// The pairs of the first rows.
pub proof fn lemma_row_start(i: int, n: int)
    requires
        0 <= i <= n,
    ensures
        2 * row_start(i, n) == i * (2 * n - i - 1),
        row_start(i, n) >= 0,
    decreases i,
{
    if i > 0 {
        lemma_row_start(i - 1, n);
        assert(2 * (row_start(i - 1, n) + (n - i)) == i * (2 * n - i - 1)) by (nonlinear_arith)
            requires
                2 * row_start(i - 1, n) == (i - 1) * (2 * n - (i - 1) - 1),
        ;
    } else {
        assert(i * (2 * n - i - 1) == 0) by (nonlinear_arith)
            requires
                i == 0,
        ;
    }
}

/// There are as many pairs as all rows have.
pub proof fn lemma_num_pairs(n: int)
    requires
        0 <= n,
    ensures
        row_start(n, n) == num_pairs(n),
        2 * num_pairs(n) == n * (n - 1),
        num_pairs(n) >= 0,
{
    lemma_row_start(n, n);
    assert(n * (2 * n - n - 1) == n * (n - 1));
}

/// The index of a pair tells the pair.
pub proof fn lemma_pair_unique(k: int, n: int, i: int, j: int, a: int, b: int)
    requires
        is_pair(k, n, i, j),
        is_pair(k, n, a, b),
    ensures
        i == a,
        j == b,
{
    if i < a {
        lemma_row_order(i + 1, a, n);
    } else if a < i {
        lemma_row_order(a + 1, i, n);
    }
}

proof fn lemma_row_order(i: int, a: int, n: int)
    requires
        0 < i <= a <= n,
    ensures
        row_start(i, n) <= row_start(a, n),
        row_start(i, n) == row_start(i - 1, n) + (n - i),
    decreases a - i,
{
    if i < a {
        lemma_row_order(i, a - 1, n);
    }
}

/// Every index is that of a pair.
pub proof fn lemma_pair_index(k: int, n: int, i: int, j: int)
    requires
        is_pair(k, n, i, j),
    ensures
        0 <= k < num_pairs(n),
{
    lemma_num_pairs(n);
    lemma_row_start(i, n);
    lemma_row_order(i + 1, n, n);
}

impl DiffLogicBrancher {
    /// The pair with the given index, in lexicographic order.
    pub fn pair_at(k: usize, n: usize) -> (r: (usize, usize))
        requires
            k < num_pairs(n as int),
        ensures
            is_pair(k as int, n as int, r.0 as int, r.1 as int),
    {
        let mut i: usize = 0;
        let mut rem: usize = k;
        proof {
            lemma_num_pairs(n as int);
            assert(n >= 2) by (nonlinear_arith)
                requires
                    2 * k < n * (n - 1),
                    k >= 0,
                    n >= 0,
            ;
        }
        while rem >= n - 1 - i
            invariant
                i < n,
                k < num_pairs(n as int),
                rem == k - row_start(i as int, n as int),
            decreases n - i,
        {
            rem = rem - (n - 1 - i);
            i = i + 1;
            proof {
                lemma_num_pairs(n as int);
                if i >= n {
                    assert(row_start(n as int, n as int) <= k);
                }
            }
        }
        (i, i + 1 + rem)
    }

    /// Whether the brancher can be asked.
    pub open spec fn ready(&self, ctx: &SolvingContext, graph: &DiffLogicState) -> bool {
        let n = self.vars.len() as int;
        &&& graph.in_order(ctx)
        &&& graph.propagator_ref is Some
        &&& lits_stand(&ctx.state.diff_lits, &graph.graph)
        &&& self.next.index < ctx.trail@.len()
        &&& !graph.graph.owner@.dom().contains(self.next.index)
        &&& n * (n - 1) <= usize::MAX
        &&& forall|i: int|
            0 <= i < n ==> (#[trigger] self.vars[i]).is_diff_lit_endpoint() && ctx.has_view(
                self.vars[i],
            )
    }

    /// Whether the literal of every pair is known, or there is room for it.
    pub open spec fn has_room(&self, ctx: &SolvingContext, graph: &DiffLogicState) -> bool {
        forall|i: int, j: int|
            0 <= i < j < self.vars.len() ==> can_obtain(
                ctx,
                graph,
                (#[trigger] self.vars[i])->Linear_var,
                (#[trigger] self.vars[j])->Linear_var,
                decision_bound(self.vars[i], self.vars[j], -1),
            )
    }

    /// Whether the order of the pair is fixed.
    pub open spec fn pair_decided(&self, ctx: &SolvingContext, k: int) -> bool {
        exists|i: int, j: int, lit: Lit|
            is_pair(k, self.vars.len() as int, i, j) && #[trigger] bound_obtained(
                ctx,
                self.vars[i]->Linear_var,
                self.vars[j]->Linear_var,
                decision_bound(self.vars[i], self.vars[j], -1),
                lit,
            ) && (ctx.decides(BoolView::Lit(lit), true) || ctx.decides(BoolView::Lit(lit), false))
    }

    /// Find the next pair whose order is not fixed.
    pub fn decide(&self, ctx: &mut SolvingContext, graph: &mut DiffLogicState) -> (r: Directive)
        requires
            self.ready(old(ctx), old(graph)),
            self.has_room(old(ctx), old(graph)),
        ensures
            self.ready(final(ctx), final(graph)),
            ({
                let total = num_pairs(self.vars.len() as int);
                let start = old(ctx).trail@[self.next.index as int];
                match r {
                    Directive::Exhausted => {
                        &&& *final(graph) == *old(graph)
                        &&& final(ctx).same_but_trail(old(ctx))
                        &&& forall|k: int| start <= k < total ==> #[trigger] self.pair_decided(old(ctx), k)
                        &&& final(ctx).trail@ == old(ctx).trail@.update(
                            self.next.index as int,
                            if start < total {
                                total as usize
                            } else {
                                start
                            },
                        )
                    },
                    Directive::Select(b) => {
                        let k = final(ctx).trail@[self.next.index as int];
                        &&& start <= k < total
                        &&& forall|m: int| start <= m < k ==> #[trigger] self.pair_decided(old(ctx), m)
                        &&& !final(ctx).decides(b, true)
                        &&& !final(ctx).decides(b, false)
                        &&& final(ctx).knows(b)
                        &&& exists|mid: SolvingContext, i: int, j: int| #[trigger]
                            selected(
                                self,
                                old(ctx),
                                old(graph),
                                &mid,
                                final(ctx),
                                final(graph),
                                k as int,
                                i,
                                j,
                                b,
                            )
                        // The view tells the order of the pair.
                        &&& exists|i: int, j: int| #[trigger]
                            is_pair(k as int, self.vars.len() as int, i, j) && tells_order(
                                final(graph),
                                self.vars[i],
                                self.vars[j],
                                b,
                            )
                    },
                }
            }),
    {
        let ghost ctx0 = *ctx;
        let ghost st0 = *graph;
        let n: usize = self.vars.len();
        if n == 0 {
            proof {
                assert(num_pairs(0) == 0);
                assert(ctx.trail@.update(
                    self.next.index as int,
                    ctx.trail@[self.next.index as int],
                ) =~= ctx.trail@);
            }
            return Directive::Exhausted;
        }
        proof {
            lemma_num_pairs(n as int);
        }
        let total: usize = n * (n - 1) / 2;
        let mut k: usize = ctx.trailed(self.next);
        let ghost start = k;
        if k >= total {
            proof {
                assert(ctx.trail@.update(self.next.index as int, k) =~= ctx.trail@);
            }
            return Directive::Exhausted;
        }
        let (first, second): (usize, usize) = DiffLogicBrancher::pair_at(k, n);
        let mut i: usize = first;
        let mut j: usize = second;
        while k < total
            invariant
                n == self.vars.len(),
                total == num_pairs(n as int),
                ctx0 == *old(ctx),
                st0 == *old(graph),
                *ctx == ctx0,
                *graph == st0,
                self.ready(&ctx0, &st0),
                self.has_room(&ctx0, &st0),
                start == ctx0.trail@[self.next.index as int],
                start <= k <= total,
                k < total ==> is_pair(k as int, n as int, i as int, j as int),
                forall|m: int| start <= m < k ==> #[trigger] self.pair_decided(&ctx0, m),
            decreases total - k,
        {
            let x: IntView = self.vars[i];
            let y: IntView = self.vars[j];
            proof {
                assert(self.vars[i as int].is_diff_lit_endpoint()
                    && self.vars[j as int].is_diff_lit_endpoint());
            }
            let b: BoolView = ctx.view_diff_lit(graph, x, y, -1);
            let ghost mid = *ctx;
            let undecided: bool = ctx.val(b).is_none();
            if undecided {
                proof {
                    assert(!graph.graph.owner@.dom().contains(self.next.index));
                }
                ctx.set_trailed(self.next, k);
                proof {
                    lemma_foreign_value_in_order(graph, &mid, ctx, self.next.index);
                    assert forall|a: int| 0 <= a < n implies (
                    #[trigger] self.vars[a]).is_diff_lit_endpoint() && ctx.has_view(
                        self.vars[a],
                    ) by {
                        assert(ctx0.has_view(self.vars[a]));
                    }
                    assert(ctx.same_but_trail(&mid));
                    assert(ctx.knows(b) && !ctx.decides(b, true) && !ctx.decides(b, false)) by {
                        assert(mid.knows(b));
                    }
                    assert(ctx.trail@[self.next.index as int] == k);
                    assert(selected(
                        self,
                        &ctx0,
                        &st0,
                        &mid,
                        ctx,
                        graph,
                        k as int,
                        i as int,
                        j as int,
                        b,
                    ));
                    lemma_selected_tells_order(
                        self,
                        &ctx0,
                        &st0,
                        &mid,
                        ctx,
                        graph,
                        k as int,
                        i as int,
                        j as int,
                        b,
                    );
                }
                return Directive::Select(b);
            }
            proof {
                // A literal that was just created is not fixed.
                assert(mid == ctx0 && *graph == st0);
                assert(bound_obtained(
                    &ctx0,
                    x->Linear_var,
                    y->Linear_var,
                    decision_bound(x, y, -1),
                    b->Lit_0,
                ));
                assert(self.pair_decided(&ctx0, k as int));
            }
            k = k + 1;
            j = j + 1;
            if j >= n {
                i = i + 1;
                j = i + 1;
                proof {
                    lemma_row_order(i as int, n as int, n as int);
                    lemma_num_pairs(n as int);
                    if j >= n {
                        lemma_row_start(i as int, n as int);
                        assert(row_start(n as int, n as int) == row_start(n - 1, n as int) + 0);
                    }
                }
            }
        }
        ctx.set_trailed(self.next, total);
        proof {
            lemma_foreign_value_in_order(graph, &ctx0, ctx, self.next.index);
            assert forall|a: int| 0 <= a < n implies (
            #[trigger] self.vars[a]).is_diff_lit_endpoint() && ctx.has_view(self.vars[a]) by {
                assert(ctx0.has_view(self.vars[a]));
            }
        }
        Directive::Exhausted
    }
}

/// Whether the literal is the one that tells the order of the pair.
pub open spec fn selected(
    brancher: &DiffLogicBrancher,
    ctx0: &SolvingContext,
    st0: &DiffLogicState,
    mid: &SolvingContext,
    ctx: &SolvingContext,
    st: &DiffLogicState,
    k: int,
    i: int,
    j: int,
    b: BoolView,
) -> bool {
    &&& is_pair(k, brancher.vars.len() as int, i, j)
    &&& b is Lit
    &&& lit_obtained(
        ctx0,
        st0,
        mid,
        st,
        brancher.vars[i]->Linear_var,
        brancher.vars[j]->Linear_var,
        decision_bound(brancher.vars[i], brancher.vars[j], -1),
        b->Lit_0,
    )
    &&& reified(
        &st.graph,
        brancher.vars[i]->Linear_var,
        brancher.vars[j]->Linear_var,
        decision_bound(brancher.vars[i], brancher.vars[j], -1),
        b->Lit_0,
    )
    &&& ctx.same_but_trail(mid)
    &&& ctx.trail@ == mid.trail@.update(brancher.next.index as int, k as usize)
}

/// Whether, where the difference constraints are kept, the view holds if and only if the first
/// view is less than the second one.
pub open spec fn tells_order(st: &DiffLogicState, x: IntView, y: IntView, b: BoolView) -> bool {
    forall|ints: IntAssignment, bools: BoolAssignment| #[trigger]
        diff_rule(&st.graph)(ints, bools) ==> (b.holds(ints, bools) <==> x.eval(ints, bools)
            < y.eval(ints, bools))
}

/// Whether the domains and the difference constraints fix whether the first view is less than the
/// second one.
pub open spec fn order_fixed(
    ctx: &SolvingContext,
    st: &DiffLogicState,
    x: IntView,
    y: IntView,
) -> bool {
    ||| forall|ints: IntAssignment, bools: BoolAssignment| #[trigger]
        ctx.admits(ints, bools) && diff_rule(&st.graph)(ints, bools) ==> x.eval(ints, bools)
            < y.eval(ints, bools)
    ||| forall|ints: IntAssignment, bools: BoolAssignment| #[trigger]
        ctx.admits(ints, bools) && diff_rule(&st.graph)(ints, bools) ==> x.eval(ints, bools)
            >= y.eval(ints, bools)
}

/// The literal of a pair tells its order.
proof fn lemma_order_lit(st: &DiffLogicState, x: IntView, y: IntView, lit: Lit)
    requires
        x.is_diff_lit_endpoint(),
        y.is_diff_lit_endpoint(),
        reified(&st.graph, x->Linear_var, y->Linear_var, decision_bound(x, y, -1), lit),
    ensures
        tells_order(st, x, y, BoolView::Lit(lit)),
{
    assert forall|ints: IntAssignment, bools: BoolAssignment| #[trigger]
        diff_rule(&st.graph)(ints, bools) implies (BoolView::Lit(lit).holds(ints, bools) <==> x.eval(
        ints,
        bools,
    ) < y.eval(ints, bools)) by {
        lemma_diff_lit_meaning(
            &st.graph,
            x->Linear_var,
            y->Linear_var,
            decision_bound(x, y, -1),
            lit,
            ints,
            bools,
        );
    }
}

/// What the search is asked to branch on tells whether the first view of a pair is less than the
/// second one.
pub proof fn lemma_selected_tells_order(
    brancher: &DiffLogicBrancher,
    ctx0: &SolvingContext,
    st0: &DiffLogicState,
    mid: &SolvingContext,
    ctx: &SolvingContext,
    st: &DiffLogicState,
    k: int,
    i: int,
    j: int,
    b: BoolView,
)
    requires
        selected(brancher, ctx0, st0, mid, ctx, st, k, i, j, b),
        forall|a: int|
            0 <= a < brancher.vars.len() ==> (#[trigger] brancher.vars[a]).is_diff_lit_endpoint(),
    ensures
        0 <= i < j < brancher.vars.len(),
        tells_order(st, brancher.vars[i], brancher.vars[j], b),
{
    assert(brancher.vars[i].is_diff_lit_endpoint() && brancher.vars[j].is_diff_lit_endpoint());
    lemma_order_lit(st, brancher.vars[i], brancher.vars[j], b->Lit_0);
}

/// Where there is nothing left to branch on from the first pair on, the order of every pair of
/// views is fixed.
pub proof fn lemma_exhausted_orders_all(
    brancher: &DiffLogicBrancher,
    ctx: &SolvingContext,
    st: &DiffLogicState,
    i: int,
    j: int,
)
    requires
        brancher.ready(ctx, st),
        forall|k: int|
            0 <= k < num_pairs(brancher.vars.len() as int) ==> #[trigger] brancher.pair_decided(
                ctx,
                k,
            ),
        0 <= i < j < brancher.vars.len(),
    ensures
        order_fixed(ctx, st, brancher.vars[i], brancher.vars[j]),
{
    let n = brancher.vars.len() as int;
    let k = row_start(i, n) + (j - i - 1);
    assert(is_pair(k, n, i, j));
    lemma_pair_index(k, n, i, j);
    assert(brancher.pair_decided(ctx, k));
    let (a, c, lit) = choose|a: int, c: int, lit: Lit|
        is_pair(k, n, a, c) && #[trigger] bound_obtained(
            ctx,
            brancher.vars[a]->Linear_var,
            brancher.vars[c]->Linear_var,
            decision_bound(brancher.vars[a], brancher.vars[c], -1),
            lit,
        ) && (ctx.decides(BoolView::Lit(lit), true) || ctx.decides(BoolView::Lit(lit), false));
    lemma_pair_unique(k, n, i, j, a, c);
    let (x, y) = (brancher.vars[i], brancher.vars[j]);
    let (xv, yv, d) = (x->Linear_var, y->Linear_var, decision_bound(x, y, -1));
    let lits = ctx.state.diff_lits;
    assert(reified(&st.graph, xv, yv, d, lit)) by {
        if !lit_in(lits.chain(xv, yv), d, lit) {
            assert(lit_in(lits.chain(yv, xv), opposite_bound(d), lit.negate()));
            assert(reified(&st.graph, yv, xv, opposite_bound(d), lit.negate()));
            assert(opposite_bound(opposite_bound(d)) == d);
            assert(lit.negate().negate() == lit);
        }
    }
    lemma_order_lit(st, x, y, lit);
    let b = BoolView::Lit(lit);
    if ctx.decides(b, true) {
        assert forall|ints: IntAssignment, bools: BoolAssignment| #[trigger]
            ctx.admits(ints, bools) && diff_rule(&st.graph)(ints, bools) implies x.eval(ints, bools)
            < y.eval(ints, bools) by {
            lemma_lit_decided(ctx, lit, true, ints, bools);
        }
    } else {
        assert forall|ints: IntAssignment, bools: BoolAssignment| #[trigger]
            ctx.admits(ints, bools) && diff_rule(&st.graph)(ints, bools) implies x.eval(ints, bools)
            >= y.eval(ints, bools) by {
            lemma_lit_decided(ctx, lit, false, ints, bools);
        }
    }
}

/// A literal that is decided has its value in every assignment of the domains.
proof fn lemma_lit_decided(
    ctx: &SolvingContext,
    lit: Lit,
    value: bool,
    ints: IntAssignment,
    bools: BoolAssignment,
)
    requires
        ctx.decides(BoolView::Lit(lit), value),
        ctx.admits(ints, bools),
        lit.var < ctx.bools.len(),
    ensures
        lit.holds(bools) == value,
{
    assert(ctx.bools[lit.var as int] == Some(value != lit.negated));
}

} // verus!
