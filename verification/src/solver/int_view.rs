//! Inspection and propagation of integer views.

use vstd::prelude::*;

use crate::helpers::division::{div_ceil, div_floor};
use crate::solver::reason::{Conflict, ReasonBuilder};
use crate::solver::solving_context::{IntPropCond, Rule, SolvingContext};
use crate::solver::view::{
    BoolAssignment, BoolView, IntAssignment, IntLitMeaning, IntVal, IntView, INT_LIMIT,
};

verus! {

/// Whether a value lies within what a decision can take.
pub open spec fn in_limits(v: int) -> bool {
    -INT_LIMIT <= v <= INT_LIMIT
}

/// The rule that the view is at least `v`.
pub open spec fn at_least(view: IntView, v: int) -> Rule {
    |ints: IntAssignment, bools: BoolAssignment| view.eval(ints, bools) >= v
}

/// The rule that the view is at most `v`.
pub open spec fn at_most(view: IntView, v: int) -> Rule {
    |ints: IntAssignment, bools: BoolAssignment| view.eval(ints, bools) <= v
}

/// The rule that the view is not `v`.
pub open spec fn differs(view: IntView, v: int) -> Rule {
    |ints: IntAssignment, bools: BoolAssignment| view.eval(ints, bools) != v
}

/// Products of numbers within the limits are far from the largest ones.
proof fn lemma_product_limited(a: int, b: int)
    requires
        in_limits(a),
        in_limits(b),
    ensures
        -INT_LIMIT * INT_LIMIT <= a * b <= INT_LIMIT * INT_LIMIT,
{
    assert(-INT_LIMIT * INT_LIMIT <= a * b <= INT_LIMIT * INT_LIMIT) by (nonlinear_arith)
        requires
            -INT_LIMIT <= a <= INT_LIMIT,
            -INT_LIMIT <= b <= INT_LIMIT,
    ;
}

impl SolvingContext {
    /// Whether the view is one of this context, and its values lie within the limits.
    pub open spec fn has_view(&self, view: IntView) -> bool {
        match view {
            IntView::Const(v) => in_limits(v as int),
            IntView::Linear { var, scale, offset } => {
                &&& var < self.ints.len()
                &&& scale != 0
                &&& in_limits(scale as int)
                &&& -2 * INT_LIMIT <= offset <= 2 * INT_LIMIT
                &&& in_limits(scale * self.ints[var as int].lb + offset)
                &&& in_limits(scale * self.ints[var as int].ub + offset)
            },
            IntView::Bool { lit, scale, offset } => {
                &&& lit.var < self.bools.len()
                &&& scale != 0
                &&& in_limits(offset as int)
                &&& in_limits(scale + offset)
            },
        }
    }

    /// Whether the view is one of this context, and its values lie within the limits.
    pub fn check_view(&self, view: IntView) -> (r: bool)
        requires
            self.wf(),
        ensures
            r == self.has_view(view),
    {
        match view {
            IntView::Const(v) => -INT_LIMIT <= v && v <= INT_LIMIT,
            IntView::Linear { var, scale, offset } => {
                if var >= self.ints.len() || scale == 0 || scale < -INT_LIMIT || scale > INT_LIMIT
                    || offset < -2 * INT_LIMIT || offset > 2 * INT_LIMIT {
                    return false;
                }
                let lb: IntVal = self.ints[var].lb;
                let ub: IntVal = self.ints[var].ub;
                proof {
                    assert(self.ints[var as int].wf());
                    lemma_product_limited(scale as int, lb as int);
                    lemma_product_limited(scale as int, ub as int);
                }
                let limit: i128 = INT_LIMIT as i128;
                let low: i128 = scale as i128 * lb as i128 + offset as i128;
                let high: i128 = scale as i128 * ub as i128 + offset as i128;
                -limit <= low && low <= limit && -limit <= high && high <= limit
            },
            IntView::Bool { lit, scale, offset } => {
                if lit.var >= self.bools.len() || scale == 0 || offset < -INT_LIMIT || offset
                    > INT_LIMIT {
                    return false;
                }
                let limit: i128 = INT_LIMIT as i128;
                let sum: i128 = scale as i128 + offset as i128;
                -limit <= sum && sum <= limit
            },
        }
    }

    /// The smallest value of the view.
    pub open spec fn view_min(&self, view: IntView) -> int {
        match view {
            IntView::Const(v) => v as int,
            IntView::Linear { var, scale, offset } => if scale > 0 {
                scale * self.ints[var as int].lb + offset
            } else {
                scale * self.ints[var as int].ub + offset
            },
            IntView::Bool { lit, scale, offset } => match self.bools[lit.var as int] {
                Some(b) => if b != lit.negated {
                    scale + offset
                } else {
                    offset as int
                },
                None => if scale > 0 {
                    offset as int
                } else {
                    scale + offset
                },
            },
        }
    }

    /// The largest value of the view.
    pub open spec fn view_max(&self, view: IntView) -> int {
        match view {
            IntView::Const(v) => v as int,
            IntView::Linear { var, scale, offset } => if scale > 0 {
                scale * self.ints[var as int].ub + offset
            } else {
                scale * self.ints[var as int].lb + offset
            },
            IntView::Bool { lit, scale, offset } => match self.bools[lit.var as int] {
                Some(b) => if b != lit.negated {
                    scale + offset
                } else {
                    offset as int
                },
                None => if scale > 0 {
                    scale + offset
                } else {
                    offset as int
                },
            },
        }
    }

    /// The smallest value of the view.
    pub fn min(&self, view: IntView) -> (r: IntVal)
        requires
            self.wf(),
            self.has_view(view),
        ensures
            r == self.view_min(view),
            in_limits(r as int),
    {
        match view {
            IntView::Const(v) => v,
            IntView::Linear { var, scale, offset } => {
                proof {
                    assert(self.ints[var as int].wf());
                }
                if scale > 0 {
                    scale * self.ints[var].lb + offset
                } else {
                    scale * self.ints[var].ub + offset
                }
            },
            IntView::Bool { lit, scale, offset } => match self.bools[lit.var] {
                Some(b) => if b != lit.negated {
                    scale + offset
                } else {
                    offset
                },
                None => if scale > 0 {
                    offset
                } else {
                    scale + offset
                },
            },
        }
    }

    /// The largest value of the view.
    pub fn max(&self, view: IntView) -> (r: IntVal)
        requires
            self.wf(),
            self.has_view(view),
        ensures
            r == self.view_max(view),
            in_limits(r as int),
    {
        match view {
            IntView::Const(v) => v,
            IntView::Linear { var, scale, offset } => {
                proof {
                    assert(self.ints[var as int].wf());
                }
                if scale > 0 {
                    scale * self.ints[var].ub + offset
                } else {
                    scale * self.ints[var].lb + offset
                }
            },
            IntView::Bool { lit, scale, offset } => match self.bools[lit.var] {
                Some(b) => if b != lit.negated {
                    scale + offset
                } else {
                    offset
                },
                None => if scale > 0 {
                    scale + offset
                } else {
                    offset
                },
            },
        }
    }

    /// The smallest and the largest value of the view.
    pub fn bounds(&self, view: IntView) -> (r: (IntVal, IntVal))
        requires
            self.wf(),
            self.has_view(view),
        ensures
            r.0 == self.view_min(view),
            r.1 == self.view_max(view),
            in_limits(r.0 as int),
            in_limits(r.1 as int),
            r.0 <= r.1,
    {
        proof {
            lemma_view_bounds_ordered(self, view);
        }
        (self.min(view), self.max(view))
    }

    /// The value of the view, if there is only one.
    pub fn int_val(&self, view: IntView) -> (r: Option<IntVal>)
        requires
            self.wf(),
            self.has_view(view),
        ensures
            match r {
                Some(v) => v == self.view_min(view) == self.view_max(view),
                None => self.view_min(view) < self.view_max(view),
            },
    {
        proof {
            lemma_view_bounds_ordered(self, view);
        }
        let lb: IntVal = self.min(view);
        let ub: IntVal = self.max(view);
        if lb == ub {
            Some(lb)
        } else {
            None
        }
    }
}

/// The bounds of a view are values of it, and every value lies between them.
pub proof fn lemma_view_bounds(
    ctx: &SolvingContext,
    view: IntView,
    ints: IntAssignment,
    bools: BoolAssignment,
)
    requires
        ctx.wf(),
        ctx.has_view(view),
        ctx.admits(ints, bools),
    ensures
        ctx.view_min(view) <= view.eval(ints, bools) <= ctx.view_max(view),
{
    match view {
        IntView::Linear { var, scale, offset } => {
            let d = ctx.ints[var as int];
            assert(d.has(ints(var as int)));
            let (s, x, l, u) = (scale as int, ints(var as int), d.lb as int, d.ub as int);
            assert(s > 0 ==> s * l <= s * x <= s * u) by (nonlinear_arith)
                requires
                    l <= x <= u,
            ;
            assert(s < 0 ==> s * u <= s * x <= s * l) by (nonlinear_arith)
                requires
                    l <= x <= u,
            ;
        },
        IntView::Bool { lit, scale, offset } => {
            assert(ctx.bools[lit.var as int] matches Some(v) ==> v == bools(lit.var as int));
        },
        _ => {},
    }
}

pub proof fn lemma_view_bounds_ordered(ctx: &SolvingContext, view: IntView)
    requires
        ctx.wf(),
        ctx.has_view(view),
    ensures
        ctx.view_min(view) <= ctx.view_max(view),
{
    match view {
        IntView::Linear { var, scale, offset } => {
            let d = ctx.ints[var as int];
            assert(d.wf());
            let (s, l, u) = (scale as int, d.lb as int, d.ub as int);
            assert(s > 0 ==> s * l <= s * u) by (nonlinear_arith)
                requires
                    l <= u,
            ;
            assert(s < 0 ==> s * u <= s * l) by (nonlinear_arith)
                requires
                    l <= u,
            ;
        },
        _ => {},
    }
}

/// Narrowing the domains keeps the views, and narrows their bounds.
pub proof fn lemma_view_narrowed(before: &SolvingContext, after: &SolvingContext, view: IntView)
    requires
        before.wf(),
        after.wf(),
        after.grows(before),
        after.narrows(before),
        before.has_view(view),
    ensures
        after.has_view(view),
        before.view_min(view) <= after.view_min(view),
        after.view_max(view) <= before.view_max(view),
{
    match view {
        IntView::Linear { var, scale, offset } => {
            let d = before.ints[var as int];
            let e = after.ints[var as int];
            assert(d.wf() && e.wf());
            assert(e.has(e.lb as int) && e.has(e.ub as int));
            assert(d.has(e.lb as int) && d.has(e.ub as int));
            let (s, l, u, l2, u2) = (
                scale as int,
                d.lb as int,
                d.ub as int,
                e.lb as int,
                e.ub as int,
            );
            assert(s > 0 ==> s * l <= s * l2 <= s * u2 <= s * u) by (nonlinear_arith)
                requires
                    l <= l2 <= u2 <= u,
            ;
            assert(s < 0 ==> s * u <= s * u2 <= s * l2 <= s * l) by (nonlinear_arith)
                requires
                    l <= l2 <= u2 <= u,
            ;
        },
        IntView::Bool { lit, scale, offset } => {
            assert(before.bools[lit.var as int] is Some ==> after.bools[lit.var as int]
                == before.bools[lit.var as int]);
        },
        _ => {},
    }
}

impl IntView {
    /// Whether the factor and the summand of the view lie within the limits.
    pub open spec fn bounded(self) -> bool {
        match self {
            IntView::Const(_) => true,
            IntView::Linear { scale, offset, .. } => scale != 0 && in_limits(scale as int) && -2
                * INT_LIMIT <= offset <= 2 * INT_LIMIT,
            IntView::Bool { scale, offset, .. } => in_limits(offset as int) && in_limits(
                scale + offset,
            ),
        }
    }

    /// The view that holds where the value of this view has the given meaning.
    pub fn lit(self, m: IntLitMeaning) -> (r: BoolView)
        requires
            self.bounded(),
            match m {
                IntLitMeaning::Eq(v) => -2 * INT_LIMIT <= v <= 2 * INT_LIMIT,
                IntLitMeaning::NotEq(v) => -2 * INT_LIMIT <= v <= 2 * INT_LIMIT,
                IntLitMeaning::GreaterEq(v) => -2 * INT_LIMIT <= v <= 2 * INT_LIMIT,
                IntLitMeaning::Less(v) => -2 * INT_LIMIT <= v <= 2 * INT_LIMIT,
            },
        ensures
            forall|ints: IntAssignment, bools: BoolAssignment|
                #[trigger] r.holds(ints, bools) == m.holds(self.eval(ints, bools)),
            forall|ctx: SolvingContext| ctx.has_view(self) ==> #[trigger] ctx.knows(r),
            r matches BoolView::Int(_, IntLitMeaning::Less(v)) ==> v > IntVal::MIN,
            r matches BoolView::Int(_, IntLitMeaning::GreaterEq(v)) ==> v > IntVal::MIN,
    {
        match self {
            IntView::Const(c) => BoolView::Const(meaning_holds(m, c)),
            IntView::Bool { lit, scale, offset } => {
                let on: bool = meaning_holds(m, scale + offset);
                let off: bool = meaning_holds(m, offset);
                if on && off {
                    BoolView::Const(true)
                } else if on {
                    BoolView::Lit(lit)
                } else if off {
                    BoolView::Lit(lit.negate())
                } else {
                    BoolView::Const(false)
                }
            },
            IntView::Linear { var, scale, offset } => {
                let r: Option<IntLitMeaning> = unscaled(scale, offset, m);
                match r {
                    Some(k) => BoolView::Int(var, k),
                    None => BoolView::Const(
                        match m {
                            IntLitMeaning::NotEq(_) => true,
                            _ => false,
                        },
                    ),
                }
            },
        }
    }
}

/// Whether the value has the given meaning.
fn meaning_holds(m: IntLitMeaning, x: IntVal) -> (r: bool)
    ensures
        r == m.holds(x as int),
{
    match m {
        IntLitMeaning::Eq(v) => x == v,
        IntLitMeaning::NotEq(v) => x != v,
        IntLitMeaning::GreaterEq(v) => x >= v,
        IntLitMeaning::Less(v) => x < v,
    }
}

/// The meaning for `x` of a meaning for `scale * x + offset`. There is none if the value of an
/// equality is not taken for any `x`.
fn unscaled(scale: IntVal, offset: IntVal, m: IntLitMeaning) -> (r: Option<IntLitMeaning>)
    requires
        scale != 0,
        in_limits(scale as int),
        -2 * INT_LIMIT <= offset <= 2 * INT_LIMIT,
        match m {
            IntLitMeaning::Eq(v) => -2 * INT_LIMIT <= v <= 2 * INT_LIMIT,
            IntLitMeaning::NotEq(v) => -2 * INT_LIMIT <= v <= 2 * INT_LIMIT,
            IntLitMeaning::GreaterEq(v) => -2 * INT_LIMIT <= v <= 2 * INT_LIMIT,
            IntLitMeaning::Less(v) => -2 * INT_LIMIT <= v <= 2 * INT_LIMIT,
        },
    ensures
        match r {
            Some(k) => {
                &&& forall|x: int| #[trigger] k.holds(x) == m.holds(scale * x + offset)
                &&& match k {
                    IntLitMeaning::Less(v) => v > IntVal::MIN,
                    IntLitMeaning::GreaterEq(v) => v > IntVal::MIN,
                    _ => true,
                }
            },
            None => match m {
                IntLitMeaning::Eq(_) => forall|x: int| !m.holds(#[trigger] (scale * x) + offset),
                IntLitMeaning::NotEq(_) => forall|x: int|
                    m.holds(#[trigger] (scale * x) + offset),
                _ => false,
            },
        },
{
    let v: IntVal = match m {
        IntLitMeaning::Eq(v) => v,
        IntLitMeaning::NotEq(v) => v,
        IntLitMeaning::GreaterEq(v) => v,
        IntLitMeaning::Less(v) => v,
    };
    let a: IntVal = v - offset;
    if scale > 0 {
        let up: IntVal = div_ceil(a, scale);
        proof {
            let (s, o, q, t) = (scale as int, offset as int, up as int, v as int);
            assert forall|x: int| (#[trigger] (s * x) + o >= t) == (x >= q) by {
                assert((s * x + o >= t) == (x >= q)) by (nonlinear_arith)
                    requires
                        s > 0,
                        (q - 1) * s < t - o <= q * s,
                ;
            }
            assert forall|x: int| (#[trigger] (s * x) + o == t) == (x == q && q * s == t - o) by {
                assert((s * x + o == t) == (x == q && q * s == t - o)) by (nonlinear_arith)
                    requires
                        s > 0,
                        (q - 1) * s < t - o <= q * s,
                ;
            }
            assert(up * scale <= a + scale) by (nonlinear_arith)
                requires
                    (up - 1) * scale < a,
            ;
            assert(up * scale >= a);
        }
        match m {
            IntLitMeaning::GreaterEq(_) => Some(IntLitMeaning::GreaterEq(up)),
            IntLitMeaning::Less(_) => Some(IntLitMeaning::Less(up)),
            IntLitMeaning::Eq(_) => if up * scale == a {
                Some(IntLitMeaning::Eq(up))
            } else {
                None
            },
            IntLitMeaning::NotEq(_) => if up * scale == a {
                Some(IntLitMeaning::NotEq(up))
            } else {
                None
            },
        }
    } else {
        let down: IntVal = div_floor(0 - a, 0 - scale);
        proof {
            let (s, o, q, t) = (scale as int, offset as int, down as int, v as int);
            assert forall|x: int| (#[trigger] (s * x) + o >= t) == (x <= q) by {
                assert((s * x + o >= t) == (x <= q)) by (nonlinear_arith)
                    requires
                        s < 0,
                        q * (-s) <= o - t < (q + 1) * (-s),
                ;
            }
            assert forall|x: int| (#[trigger] (s * x) + o == t) == (x == q && q * s == t - o) by {
                assert((s * x + o == t) == (x == q && q * s == t - o)) by (nonlinear_arith)
                    requires
                        s < 0,
                        q * (-s) <= o - t < (q + 1) * (-s),
                ;
            }
            assert(a <= down * scale <= a - scale) by (nonlinear_arith)
                requires
                    down * (0 - scale) <= 0 - a < (down + 1) * (0 - scale),
            ;
        }
        match m {
            IntLitMeaning::GreaterEq(_) => Some(IntLitMeaning::Less(down + 1)),
            IntLitMeaning::Less(_) => Some(IntLitMeaning::GreaterEq(down + 1)),
            IntLitMeaning::Eq(_) => if down * scale == a {
                Some(IntLitMeaning::Eq(down))
            } else {
                None
            },
            IntLitMeaning::NotEq(_) => if down * scale == a {
                Some(IntLitMeaning::NotEq(down))
            } else {
                None
            },
        }
    }
}


/// A literal of a view is decided where its meaning holds of no value, or of all values.
proof fn lemma_lit_decided(
    ctx: &SolvingContext,
    view: IntView,
    m: IntLitMeaning,
    lit: BoolView,
    b: bool,
    ints: IntAssignment,
    bools: BoolAssignment,
)
    requires
        ctx.wf(),
        ctx.has_view(view),
        ctx.knows(lit),
        forall|ints: IntAssignment, bools: BoolAssignment|
            #[trigger] lit.holds(ints, bools) == m.holds(view.eval(ints, bools)),
        ctx.decides(lit, b),
        ctx.admits(ints, bools),
    ensures
        m.holds(view.eval(ints, bools)) == b,
{
    match lit {
        BoolView::Int(v, k) => {
            assert(ctx.ints[v as int].has(ints(v as int)));
        },
        BoolView::Lit(l) => {
            assert(ctx.bools[l.var as int] is Some);
        },
        _ => {},
    }
    assert(lit.holds(ints, bools) == m.holds(view.eval(ints, bools)));
}

/// Some assignment gives the view its largest value, and some its smallest.
pub proof fn lemma_bounds_taken(ctx: &SolvingContext, view: IntView) -> (r: (
    (IntAssignment, BoolAssignment),
    (IntAssignment, BoolAssignment),
))
    requires
        ctx.wf(),
        ctx.has_view(view),
    ensures
        ctx.admits(r.0.0, r.0.1),
        view.eval(r.0.0, r.0.1) == ctx.view_min(view),
        ctx.admits(r.1.0, r.1.1),
        view.eval(r.1.0, r.1.1) == ctx.view_max(view),
{
    let lows: IntAssignment = |v: int| ctx.ints[v].lb as int;
    let highs: IntAssignment = |v: int| ctx.ints[v].ub as int;
    let low_is_min = match view {
        IntView::Linear { scale, .. } => scale > 0,
        IntView::Bool { scale, .. } => scale > 0,
        _ => true,
    };
    let target = match view {
        IntView::Bool { lit, .. } => Some(lit),
        _ => None,
    };
    let offs: BoolAssignment = |b: int|
        match ctx.bools[b] {
            Some(v) => v,
            None => match target {
                Some(l) => l.negated,
                None => false,
            },
        };
    let ons: BoolAssignment = |b: int|
        match ctx.bools[b] {
            Some(v) => v,
            None => match target {
                Some(l) => !l.negated,
                None => false,
            },
        };
    assert forall|v: int| 0 <= v < ctx.ints.len() implies (#[trigger] ctx.ints[v]).has(lows(v))
        && ctx.ints[v].has(highs(v)) by {
        assert(ctx.ints[v].wf());
    }
    assert(ctx.admits(lows, offs));
    assert(ctx.admits(highs, ons));
    if low_is_min {
        ((lows, offs), (highs, ons))
    } else {
        ((highs, ons), (lows, offs))
    }
}

impl SolvingContext {
    /// Require that the view is at least `v`, for the given reason.
    pub fn tighten_min(&mut self, view: IntView, v: IntVal, reason: ReasonBuilder) -> (r: Result<
        (),
        Conflict,
    >)
        requires
            old(self).wf(),
            old(self).has_view(view),
            -2 * INT_LIMIT <= v <= 2 * INT_LIMIT,
        ensures
            r is Err <==> old(self).view_max(view) < v,
            final(self).restricts(old(self), at_least(view, v as int), reason, r),
            r is Ok ==> final(self).has_view(view) && final(self).view_min(view) >= v,
    {
        let m: IntLitMeaning = IntLitMeaning::GreaterEq(v);
        let lit: BoolView = view.lit(m);
        let ghost before = *self;
        assert(before.knows(lit));
        let r: Result<(), Conflict> = self.require(lit, reason);
        proof {
            let rule: Rule = |ints: IntAssignment, bools: BoolAssignment| lit.holds(ints, bools);
            assert forall|ints: IntAssignment, bools: BoolAssignment|
                #[trigger] rule(ints, bools) == at_least(view, v as int)(ints, bools) by {
                assert(lit.holds(ints, bools) == m.holds(view.eval(ints, bools)));
            }
            assert(rule =~= at_least(view, v as int));
            let (_, (ints, bools)) = lemma_bounds_taken(&before, view);
            if r is Err {
                lemma_lit_decided(&before, view, m, lit, false, ints, bools);
            } else {
                lemma_view_narrowed(&before, self, view);
                let ((ints, bools), _) = lemma_bounds_taken(self, view);
                assert(rule(ints, bools));
                lemma_view_bounds(&before, view, ints, bools);
            }
        }
        r
    }

    /// Require that the view is at most `v`, for the given reason.
    pub fn tighten_max(&mut self, view: IntView, v: IntVal, reason: ReasonBuilder) -> (r: Result<
        (),
        Conflict,
    >)
        requires
            old(self).wf(),
            old(self).has_view(view),
            -2 * INT_LIMIT <= v < 2 * INT_LIMIT,
        ensures
            r is Err <==> old(self).view_min(view) > v,
            final(self).restricts(old(self), at_most(view, v as int), reason, r),
            r is Ok ==> final(self).has_view(view) && final(self).view_max(view) <= v,
    {
        let m: IntLitMeaning = IntLitMeaning::Less(v + 1);
        let lit: BoolView = view.lit(m);
        let ghost before = *self;
        assert(before.knows(lit));
        let r: Result<(), Conflict> = self.require(lit, reason);
        proof {
            let rule: Rule = |ints: IntAssignment, bools: BoolAssignment| lit.holds(ints, bools);
            assert forall|ints: IntAssignment, bools: BoolAssignment|
                #[trigger] rule(ints, bools) == at_most(view, v as int)(ints, bools) by {
                assert(lit.holds(ints, bools) == m.holds(view.eval(ints, bools)));
            }
            assert(rule =~= at_most(view, v as int));
            let ((ints, bools), _) = lemma_bounds_taken(&before, view);
            if r is Err {
                lemma_lit_decided(&before, view, m, lit, false, ints, bools);
            } else {
                lemma_view_narrowed(&before, self, view);
                let (_, (ints, bools)) = lemma_bounds_taken(self, view);
                assert(rule(ints, bools));
                lemma_view_bounds(&before, view, ints, bools);
            }
        }
        r
    }

    /// Require that the view is not `v`, for the given reason.
    pub fn remove_val(&mut self, view: IntView, v: IntVal, reason: ReasonBuilder) -> (r: Result<
        (),
        Conflict,
    >)
        requires
            old(self).wf(),
            old(self).has_view(view),
            -2 * INT_LIMIT <= v <= 2 * INT_LIMIT,
        ensures
            r is Err <==> old(self).view_min(view) == v && old(self).view_max(view) == v,
            final(self).restricts(old(self), differs(view, v as int), reason, r),
            r is Ok ==> final(self).has_view(view),
    {
        let m: IntLitMeaning = IntLitMeaning::NotEq(v);
        let lit: BoolView = view.lit(m);
        let ghost before = *self;
        assert(before.knows(lit));
        let r: Result<(), Conflict> = self.require(lit, reason);
        proof {
            let rule: Rule = |ints: IntAssignment, bools: BoolAssignment| lit.holds(ints, bools);
            assert forall|ints: IntAssignment, bools: BoolAssignment|
                #[trigger] rule(ints, bools) == differs(view, v as int)(ints, bools) by {
                assert(lit.holds(ints, bools) == m.holds(view.eval(ints, bools)));
            }
            assert(rule =~= differs(view, v as int));
            let (low, high) = lemma_bounds_taken(&before, view);
            if r is Err {
                lemma_lit_decided(&before, view, m, lit, false, low.0, low.1);
                lemma_lit_decided(&before, view, m, lit, false, high.0, high.1);
            } else {
                lemma_view_narrowed(&before, self, view);
                let ((ints, bools), _) = lemma_bounds_taken(self, view);
                assert(rule(ints, bools));
                lemma_view_bounds(&before, view, ints, bools);
            }
        }
        r
    }
}

impl SolvingContext {
    /// The literal that holds where the view is at least its smallest value.
    pub fn min_lit(&self, view: IntView) -> (r: BoolView)
        requires
            self.wf(),
            self.has_view(view),
        ensures
            forall|ints: IntAssignment, bools: BoolAssignment|
                #[trigger] r.holds(ints, bools) == (view.eval(ints, bools) >= self.view_min(view)),
            self.knows(r),
    {
        let v: IntVal = self.min(view);
        view.lit(IntLitMeaning::GreaterEq(v))
    }

    /// The literal that holds where the view is at most its largest value.
    pub fn max_lit(&self, view: IntView) -> (r: BoolView)
        requires
            self.wf(),
            self.has_view(view),
        ensures
            forall|ints: IntAssignment, bools: BoolAssignment|
                #[trigger] r.holds(ints, bools) == (view.eval(ints, bools) <= self.view_max(view)),
            self.knows(r),
    {
        let v: IntVal = self.max(view);
        view.lit(IntLitMeaning::Less(v + 1))
    }
}

impl IntPropCond {
    /// Whether the change of the view between the contexts is one that is waited for.
    pub open spec fn met(
        self,
        before: &SolvingContext,
        after: &SolvingContext,
        view: IntView,
    ) -> bool {
        let lower = after.view_min(view) > before.view_min(view);
        let upper = after.view_max(view) < before.view_max(view);
        match self {
            IntPropCond::Fixed => after.view_min(view) == after.view_max(view),
            IntPropCond::LowerBound => lower,
            IntPropCond::UpperBound => upper,
            IntPropCond::Bounds => lower || upper,
            IntPropCond::Domain => true,
        }
    }
}

} // verus!
