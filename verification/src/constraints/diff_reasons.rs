//! Reasons by bounds whose literals are assigned.
//!
//! The literals of integer decisions are assigned one by one, and may lag behind the domains. A
//! reason names the strongest literal from the bound that it needs up to the current one that is
//! assigned.

use vstd::prelude::*;

use crate::constraints::difference_logic::DiffLogicState;
use crate::solver::int_view::in_limits;
use crate::solver::solving_context::SolvingContext;
use crate::solver::view::{
    BoolAssignment, BoolView, IntAssignment, IntLitMeaning, IntVal, IntView,
};

verus! {

impl SolvingContext {
    /// Whether the view is assigned to hold: it is the constant, it was noted, or it was
    /// propagated.
    pub open spec fn assigned(&self, b: BoolView) -> bool {
        ||| b == BoolView::Const(true)
        ||| self.state.assigned@.contains(b)
        ||| exists|q: int|
            0 <= q < self.propagation_queue.len() && (#[trigger] self.propagation_queue[q]).lit == b
    }

    /// Note that the view was assigned to hold.
    pub fn note_assigned(&mut self, b: BoolView)
        ensures
            final(self).state.assigned@ == old(self).state.assigned@.push(b),
            final(self).ints == old(self).ints,
            final(self).bools == old(self).bools,
            final(self).propagation_queue == old(self).propagation_queue,
            final(self).trail == old(self).trail,
            final(self).current_prop == old(self).current_prop,
            final(self).state.clauses == old(self).state.clauses,
            final(self).state.diff_lits == old(self).state.diff_lits,
            final(self).state.advisors == old(self).state.advisors,
            final(self).state.int_activation == old(self).state.int_activation,
            final(self).state.bool_activation == old(self).state.bool_activation,
            final(self).state.propagator_queue == old(self).state.propagator_queue,
            final(self).state.failed == old(self).state.failed,
            final(self).state.conflict == old(self).state.conflict,
            final(self).state.statistics == old(self).state.statistics,
    {
        self.state.assigned.push(b);
    }

    /// Whether the view is assigned to hold.
    pub fn is_assigned(&self, b: BoolView) -> (r: bool)
        ensures
            r == self.assigned(b),
    {
        if b == BoolView::Const(true) {
            return true;
        }
        let mut i: usize = 0;
        while i < self.state.assigned.len()
            invariant
                i <= self.state.assigned.len(),
                forall|k: int| 0 <= k < i ==> #[trigger] self.state.assigned@[k] != b,
            decreases self.state.assigned.len() - i,
        {
            if self.state.assigned[i] == b {
                assert(self.state.assigned@[i as int] == b);
                return true;
            }
            i = i + 1;
        }
        let mut q: usize = 0;
        while q < self.propagation_queue.len()
            invariant
                q <= self.propagation_queue.len(),
                forall|k: int| 0 <= k < q ==> (#[trigger] self.propagation_queue[k]).lit != b,
            decreases self.propagation_queue.len() - q,
        {
            if self.propagation_queue[q].lit == b {
                return true;
            }
            q = q + 1;
        }
        false
    }
}

/// Whether the view means that the integer view is at least `k`, or, if `upper` is set, less than
/// `k`.
pub open spec fn tells_bound(b: BoolView, view: IntView, upper: bool, k: int) -> bool {
    forall|ints: IntAssignment, bools: BoolAssignment|
        #[trigger] b.holds(ints, bools) == if upper {
            view.eval(ints, bools) < k
        } else {
            view.eval(ints, bools) >= k
        }
}

/// Whether a literal is assigned that tells the bound.
pub open spec fn bound_assigned(ctx: &SolvingContext, view: IntView, upper: bool, k: int) -> bool {
    exists|b: BoolView| #[trigger] tells_bound(b, view, upper, k) && ctx.assigned(b)
}

/// Whether `level` is the largest lower bound from `from` up to the current one whose literal is
/// assigned, or `from` if there is none.
pub open spec fn strongest_ge(ctx: &SolvingContext, view: IntView, from: int, level: int) -> bool {
    &&& {
        ||| from <= level <= ctx.view_min(view) && bound_assigned(ctx, view, false, level)
        ||| level == from
    }
    &&& forall|k: int|
        level < k <= ctx.view_min(view) ==> !#[trigger] bound_assigned(ctx, view, false, k)
}

/// Whether `level` is the smallest strict upper bound from `from` down to the current one whose
/// literal is assigned, or `from` if there is none.
pub open spec fn strongest_lt(ctx: &SolvingContext, view: IntView, from: int, level: int) -> bool {
    &&& {
        ||| ctx.view_max(view) < level <= from && bound_assigned(ctx, view, true, level)
        ||| level == from
    }
    &&& forall|k: int|
        ctx.view_max(view) < k < level ==> !#[trigger] bound_assigned(ctx, view, true, k)
}

/// Meanings with the same values are the same.
proof fn lemma_meaning_unique(m: IntLitMeaning, n: IntLitMeaning)
    requires
        forall|x: int| #[trigger] m.holds(x) == n.holds(x),
    ensures
        m == n,
{
    let a = match m {
        IntLitMeaning::Eq(v) => v as int,
        IntLitMeaning::NotEq(v) => v as int,
        IntLitMeaning::GreaterEq(v) => v as int,
        IntLitMeaning::Less(v) => v as int,
    };
    let b = match n {
        IntLitMeaning::Eq(v) => v as int,
        IntLitMeaning::NotEq(v) => v as int,
        IntLitMeaning::GreaterEq(v) => v as int,
        IntLitMeaning::Less(v) => v as int,
    };
    assert(m.holds(a) == n.holds(a));
    assert(m.holds(b) == n.holds(b));
    assert(m.holds(a - 1) == n.holds(a - 1));
    assert(m.holds(b - 1) == n.holds(b - 1));
    assert(m.holds(a + 1) == n.holds(a + 1));
    assert(m.holds(b + 1) == n.holds(b + 1));
    let low = if a < b {
        a - 2
    } else {
        b - 2
    };
    let high = if a < b {
        b + 2
    } else {
        a + 2
    };
    assert(m.holds(low) == n.holds(low));
    assert(m.holds(high) == n.holds(high));
}

/// No meaning is constant.
proof fn lemma_meaning_varies(m: IntLitMeaning) -> (r: (int, int))
    ensures
        m.holds(r.0),
        !m.holds(r.1),
{
    match m {
        IntLitMeaning::Eq(v) => (v as int, v + 1),
        IntLitMeaning::NotEq(v) => (v + 1, v as int),
        IntLitMeaning::GreaterEq(v) => (v as int, v - 1),
        IntLitMeaning::Less(v) => (v - 1, v as int),
    }
}

/// Views that hold under the same assignments are the same.
proof fn lemma_view_unique(b: BoolView, c: BoolView)
    requires
        forall|ints: IntAssignment, bools: BoolAssignment|
            #[trigger] b.holds(ints, bools) == c.holds(ints, bools),
    ensures
        b == c,
{
    let zero: IntAssignment = |v: int| 0;
    let yes: BoolAssignment = |v: int| true;
    let no: BoolAssignment = |v: int| false;
    assert(b.holds(zero, yes) == c.holds(zero, yes));
    assert(b.holds(zero, no) == c.holds(zero, no));
    match (b, c) {
        (BoolView::Int(v, m), BoolView::Int(w, n)) => {
            let (x, y) = lemma_meaning_varies(m);
            let (p, q) = lemma_meaning_varies(n);
            if v != w {
                let ints: IntAssignment = |k: int|
                    if k == v {
                        x
                    } else {
                        q
                    };
                assert(b.holds(ints, yes) == c.holds(ints, yes));
            } else {
                assert forall|z: int| #[trigger] m.holds(z) == n.holds(z) by {
                    let ints: IntAssignment = |k: int| z;
                    assert(b.holds(ints, yes) == c.holds(ints, yes));
                }
                lemma_meaning_unique(m, n);
            }
        },
        (BoolView::Int(v, m), _) => {
            let (x, y) = lemma_meaning_varies(m);
            let high: IntAssignment = |k: int| x;
            let low: IntAssignment = |k: int| y;
            assert(b.holds(high, yes) == c.holds(high, yes));
            assert(b.holds(low, yes) == c.holds(low, yes));
        },
        (_, BoolView::Int(v, m)) => {
            let (x, y) = lemma_meaning_varies(m);
            let high: IntAssignment = |k: int| x;
            let low: IntAssignment = |k: int| y;
            assert(b.holds(high, yes) == c.holds(high, yes));
            assert(b.holds(low, yes) == c.holds(low, yes));
        },
        (BoolView::Lit(l), BoolView::Lit(k)) => {
            let one: BoolAssignment = |v: int| v == l.var;
            assert(b.holds(zero, one) == c.holds(zero, one));
        },
        _ => {},
    }
}

/// A bound whose literal is not assigned is not assigned.
proof fn lemma_bound_unassigned(
    ctx: &SolvingContext,
    lit: BoolView,
    view: IntView,
    upper: bool,
    k: int,
)
    requires
        tells_bound(lit, view, upper, k),
        !ctx.assigned(lit),
    ensures
        !bound_assigned(ctx, view, upper, k),
{
    if bound_assigned(ctx, view, upper, k) {
        let b = choose|b: BoolView| #[trigger] tells_bound(b, view, upper, k) && ctx.assigned(b);
        assert forall|ints: IntAssignment, bools: BoolAssignment| #[trigger]
            b.holds(ints, bools) == lit.holds(ints, bools) by {
            assert(lit.holds(ints, bools) == if upper {
                view.eval(ints, bools) < k
            } else {
                view.eval(ints, bools) >= k
            });
        }
        lemma_view_unique(b, lit);
    }
}

impl DiffLogicState {
    /// The literal that the view is at least a bound: the strongest one from the given bound up
    /// to the current one that is assigned, or the one of the given bound.
    pub fn relaxed_ge_lit(ctx: &SolvingContext, view: IntView, lb_val: IntVal) -> (r: BoolView)
        requires
            ctx.wf(),
            ctx.has_view(view),
            in_limits(lb_val as int),
        ensures
            ctx.knows(r),
            exists|level: int| #[trigger]
                strongest_ge(ctx, view, lb_val as int, level) && tells_bound(r, view, false, level),
    {
        let cur_min: IntVal = ctx.min(view);
        let mut level: IntVal = cur_min;
        while level > lb_val
            invariant
                ctx.wf(),
                ctx.has_view(view),
                cur_min == ctx.view_min(view),
                in_limits(cur_min as int),
                in_limits(lb_val as int),
                level <= cur_min,
                level >= lb_val || level == cur_min,
                forall|k: int|
                    level < k <= cur_min ==> !#[trigger] bound_assigned(ctx, view, false, k),
            decreases level - lb_val,
        {
            let lit: BoolView = view.lit(IntLitMeaning::GreaterEq(level));
            assert(tells_bound(lit, view, false, level as int)) by {
                assert forall|ints: IntAssignment, bools: BoolAssignment| #[trigger]
                    lit.holds(ints, bools) == (view.eval(ints, bools) >= level) by {}
            }
            if ctx.is_assigned(lit) {
                assert(strongest_ge(ctx, view, lb_val as int, level as int));
                return lit;
            }
            proof {
                lemma_bound_unassigned(ctx, lit, view, false, level as int);
            }
            level = level - 1;
        }
        let lit: BoolView = view.lit(IntLitMeaning::GreaterEq(lb_val));
        assert(tells_bound(lit, view, false, lb_val as int)) by {
            assert forall|ints: IntAssignment, bools: BoolAssignment| #[trigger]
                lit.holds(ints, bools) == (view.eval(ints, bools) >= lb_val) by {}
        }
        assert(strongest_ge(ctx, view, lb_val as int, lb_val as int));
        lit
    }

    /// The literal that the view is less than a bound: the strongest one from the given bound
    /// down to the current one that is assigned, or the one of the given bound.
    pub fn relaxed_lt_lit(ctx: &SolvingContext, view: IntView, strict_ub: IntVal) -> (r: BoolView)
        requires
            ctx.wf(),
            ctx.has_view(view),
            in_limits(strict_ub - 1),
        ensures
            ctx.knows(r),
            exists|level: int| #[trigger]
                strongest_lt(ctx, view, strict_ub as int, level) && tells_bound(
                    r,
                    view,
                    true,
                    level,
                ),
    {
        let cur_max: IntVal = ctx.max(view);
        let mut level: IntVal = cur_max + 1;
        while level < strict_ub
            invariant
                ctx.wf(),
                ctx.has_view(view),
                cur_max == ctx.view_max(view),
                in_limits(cur_max as int),
                in_limits(strict_ub - 1),
                level > cur_max,
                level <= strict_ub || level == cur_max + 1,
                forall|k: int|
                    cur_max < k < level ==> !#[trigger] bound_assigned(ctx, view, true, k),
            decreases strict_ub - level,
        {
            let lit: BoolView = view.lit(IntLitMeaning::Less(level));
            assert(tells_bound(lit, view, true, level as int)) by {
                assert forall|ints: IntAssignment, bools: BoolAssignment| #[trigger]
                    lit.holds(ints, bools) == (view.eval(ints, bools) < level) by {}
            }
            if ctx.is_assigned(lit) {
                assert(strongest_lt(ctx, view, strict_ub as int, level as int));
                return lit;
            }
            proof {
                lemma_bound_unassigned(ctx, lit, view, true, level as int);
            }
            level = level + 1;
        }
        let lit: BoolView = view.lit(IntLitMeaning::Less(strict_ub));
        assert(tells_bound(lit, view, true, strict_ub as int)) by {
            assert forall|ints: IntAssignment, bools: BoolAssignment| #[trigger]
                lit.holds(ints, bools) == (view.eval(ints, bools) < strict_ub) by {}
        }
        assert(strongest_lt(ctx, view, strict_ub as int, strict_ub as int));
        lit
    }
}

} // verus!
