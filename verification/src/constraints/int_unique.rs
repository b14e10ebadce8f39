//! Propagators for the constraint that integer decisions take different values.

use vstd::prelude::*;
use vstd::set_lib::{lemma_int_range, lemma_len_subset, set_int_range};

use crate::constraints::hall::{accepted, justified, pushed, HallPush};
use crate::constraints::ranking::{
    all_pushed, hall_consistent, held, lemma_hall_consistent_above, Ranking,
};
use crate::solver::inference::{
    lemma_infers_join, lemma_infers_nothing, lemma_infers_step, lemma_narrows_admits,
};
use crate::solver::initialization::{InitializationContext, IntAdvice, IntTrigger, PriorityLevel};
use crate::solver::int_view::{
    at_least, at_most, differs, in_limits, lemma_bounds_taken, lemma_view_bounds,
    lemma_view_bounds_ordered, lemma_view_narrowed,
};
use crate::solver::reason::{Conflict, ReasonBuilder};
use crate::solver::solving_context::{IntEvent, IntPropCond, LitPropagation, Rule, SolvingContext};
use crate::solver::view::{
    all_hold, BoolAssignment, BoolView, IntAssignment, IntLitMeaning, IntVal, IntView, INT_LIMIT,
};

verus! {

/// The rule that the views take different values.
pub open spec fn all_different(vars: Seq<IntView>) -> Rule {
    |ints: IntAssignment, bools: BoolAssignment|
        forall|i: int, j: int|
            0 <= i < j < vars.len() ==> (#[trigger] vars[i]).eval(ints, bools) != (
            #[trigger] vars[j]).eval(ints, bools)
}

/// Whether every view is one of the context.
pub open spec fn has_views(ctx: &SolvingContext, vars: Seq<IntView>) -> bool {
    forall|v: int| 0 <= v < vars.len() ==> ctx.has_view(#[trigger] vars[v])
}

/// The value of the view, negated if `flip` is set.
pub open spec fn signed(
    view: IntView,
    flip: bool,
    ints: IntAssignment,
    bools: BoolAssignment,
) -> int {
    if flip {
        -view.eval(ints, bools)
    } else {
        view.eval(ints, bools)
    }
}

/// The smallest values of the views, negated if `flip` is set.
pub open spec fn signed_mins(ctx: &SolvingContext, vars: Seq<IntView>, flip: bool) -> Seq<int> {
    Seq::new(
        vars.len(),
        |v: int|
            if flip {
                -ctx.view_max(vars[v])
            } else {
                ctx.view_min(vars[v])
            },
    )
}

/// The largest values of the views, negated if `flip` is set.
pub open spec fn signed_maxs(ctx: &SolvingContext, vars: Seq<IntView>, flip: bool) -> Seq<int> {
    Seq::new(
        vars.len(),
        |v: int|
            if flip {
                -ctx.view_min(vars[v])
            } else {
                ctx.view_max(vars[v])
            },
    )
}

/// Whether the decision of the push starts at or after the start of the interval, and the
/// members lie in it.
pub open spec fn in_interval(
    vars: Seq<IntView>,
    push: HallPush,
    flip: bool,
    ints: IntAssignment,
    bools: BoolAssignment,
) -> bool {
    &&& signed(vars[push.var as int], flip, ints, bools) >= push.floor
    &&& forall|p: int|
        0 <= p < push.members.len() ==> push.floor <= signed(
            vars[#[trigger] push.members[p] as int],
            flip,
            ints,
            bools,
        ) < push.bound
}

/// Decisions that fill an interval leave no value of it to another decision.
pub proof fn lemma_pigeonhole(
    vars: Seq<IntView>,
    push: HallPush,
    flip: bool,
    ints: IntAssignment,
    bools: BoolAssignment,
)
    requires
        push.tight(vars.len() as int),
        all_different(vars)(ints, bools),
        in_interval(vars, push, flip, ints, bools),
    ensures
        signed(vars[push.var as int], flip, ints, bools) >= push.bound,
{
    let e = signed(vars[push.var as int], flip, ints, bools);
    if e < push.bound {
        let values = Seq::new(
            push.members.len() as nat,
            |p: int| signed(vars[push.members[p] as int], flip, ints, bools),
        );
        let all = values.push(e);
        assert forall|p: int, q: int| 0 <= p < q < all.len() implies all[p] != all[q] by {
            let a = push.members[p] as int;
            let b = if q < values.len() {
                push.members[q] as int
            } else {
                push.var as int
            };
            assert(a != b);
            if a < b {
                assert(vars[a].eval(ints, bools) != vars[b].eval(ints, bools));
            } else {
                assert(vars[b].eval(ints, bools) != vars[a].eval(ints, bools));
            }
        }
        all.unique_seq_to_set();
        let range = set_int_range(push.floor as int, push.bound as int);
        lemma_int_range(push.floor as int, push.bound as int);
        assert(all.to_set().subset_of(range)) by {
            assert forall|x: int| all.to_set().contains(x) implies range.contains(x) by {
                let p = choose|p: int| 0 <= p < all.len() && all[p] == x;
                if p < values.len() {
                    let _ = push.members[p];
                }
            }
        }
        lemma_len_subset(all.to_set(), range);
    }
}

/// The literal that holds where the view, negated if `flip` is set, is at least `v`.
fn lit_at_least(view: IntView, flip: bool, v: IntVal) -> (r: BoolView)
    requires
        view.bounded(),
        -2 * INT_LIMIT < v <= 2 * INT_LIMIT,
    ensures
        forall|ints: IntAssignment, bools: BoolAssignment|
            #[trigger] r.holds(ints, bools) == (signed(view, flip, ints, bools) >= v),
{
    if flip {
        view.lit(IntLitMeaning::Less(1 - v))
    } else {
        view.lit(IntLitMeaning::GreaterEq(v))
    }
}

/// The literal that holds where the view, negated if `flip` is set, is less than `v`.
fn lit_less(view: IntView, flip: bool, v: IntVal) -> (r: BoolView)
    requires
        view.bounded(),
        -2 * INT_LIMIT < v <= 2 * INT_LIMIT,
    ensures
        forall|ints: IntAssignment, bools: BoolAssignment|
            #[trigger] r.holds(ints, bools) == (signed(view, flip, ints, bools) < v),
{
    if flip {
        view.lit(IntLitMeaning::GreaterEq(1 - v))
    } else {
        view.lit(IntLitMeaning::Less(v))
    }
}

/// The reason for a push: the decision starts at or after the start of the interval, and the
/// members lie in it.
fn build_reason(vars: &Vec<IntView>, push: &HallPush, flip: bool) -> (reason: Vec<BoolView>)
    requires
        push.tight(vars.len() as int),
        forall|v: int| 0 <= v < vars.len() ==> (#[trigger] vars[v]).bounded(),
        -2 * INT_LIMIT < push.floor <= 2 * INT_LIMIT,
        -2 * INT_LIMIT < push.bound <= 2 * INT_LIMIT,
    ensures
        forall|ints: IntAssignment, bools: BoolAssignment|
            #[trigger] all_hold(reason@, ints, bools) == in_interval(
                vars@,
                *push,
                flip,
                ints,
                bools,
            ),
{
    let mut reason: Vec<BoolView> = Vec::new();
    let floor: IntVal = push.floor;
    let bound: IntVal = push.bound;
    let first: BoolView = lit_at_least(vars[push.var], flip, floor);
    reason.push(first);
    let mut p: usize = 0;
    while p < push.members.len()
        invariant
            p <= push.members.len(),
            push.tight(vars.len() as int),
            floor == push.floor,
            bound == push.bound,
            -2 * INT_LIMIT < push.floor <= 2 * INT_LIMIT,
            -2 * INT_LIMIT < push.bound <= 2 * INT_LIMIT,
            forall|v: int| 0 <= v < vars.len() ==> (#[trigger] vars[v]).bounded(),
            reason.len() == 2 * p + 1,
            forall|ints: IntAssignment, bools: BoolAssignment|
                #[trigger] reason[0].holds(ints, bools) == (signed(
                    vars[push.var as int],
                    flip,
                    ints,
                    bools,
                ) >= floor),
            forall|q: int, ints: IntAssignment, bools: BoolAssignment|
                #![trigger reason@[2 * q + 1].holds(ints, bools)]
                0 <= q < p ==> reason@[2 * q + 1].holds(ints, bools) == (signed(
                    vars[push.members[q] as int],
                    flip,
                    ints,
                    bools,
                ) >= floor),
            forall|q: int, ints: IntAssignment, bools: BoolAssignment|
                #![trigger reason@[2 * q + 2].holds(ints, bools)]
                0 <= q < p ==> reason@[2 * q + 2].holds(ints, bools) == (signed(
                    vars[push.members[q] as int],
                    flip,
                    ints,
                    bools,
                ) < bound),
        decreases push.members.len() - p,
    {
        let ghost before = reason@;
        let l: usize = push.members[p];
        let ge: BoolView = lit_at_least(vars[l], flip, floor);
        let lt: BoolView = lit_less(vars[l], flip, bound);
        reason.push(ge);
        reason.push(lt);
        proof {
            assert forall|q: int, ints: IntAssignment, bools: BoolAssignment|
                #![trigger reason@[2 * q + 1].holds(ints, bools)]
                0 <= q < p + 1 implies reason@[2 * q + 1].holds(ints, bools) == (signed(
                vars[push.members[q] as int],
                flip,
                ints,
                bools,
            ) >= floor) by {
                if q < p {
                    assert(reason@[2 * q + 1] == before[2 * q + 1]);
                    assert(before[2 * q + 1].holds(ints, bools) == (signed(
                        vars[push.members[q] as int],
                        flip,
                        ints,
                        bools,
                    ) >= floor));
                } else {
                    assert(ge.holds(ints, bools) == (signed(vars[l as int], flip, ints, bools)
                        >= floor));
                }
            }
            assert forall|q: int, ints: IntAssignment, bools: BoolAssignment|
                #![trigger reason@[2 * q + 2].holds(ints, bools)]
                0 <= q < p + 1 implies reason@[2 * q + 2].holds(ints, bools) == (signed(
                vars[push.members[q] as int],
                flip,
                ints,
                bools,
            ) < bound) by {
                if q < p {
                    assert(reason@[2 * q + 2] == before[2 * q + 2]);
                    assert(before[2 * q + 2].holds(ints, bools) == (signed(
                        vars[push.members[q] as int],
                        flip,
                        ints,
                        bools,
                    ) < bound));
                } else {
                    assert(lt.holds(ints, bools) == (signed(vars[l as int], flip, ints, bools)
                        < bound));
                }
            }
            assert(reason@[0] == before[0]);
        }
        p = p + 1;
    }
    proof {
        assert forall|ints: IntAssignment, bools: BoolAssignment|
            #[trigger] all_hold(reason@, ints, bools) == in_interval(
                vars@,
                *push,
                flip,
                ints,
                bools,
            ) by {
            if all_hold(reason@, ints, bools) {
                assert(reason@[0].holds(ints, bools));
                assert(reason[0].holds(ints, bools));
                assert forall|q: int| 0 <= q < push.members.len() implies push.floor <= signed(
                    vars@[#[trigger] push.members[q] as int],
                    flip,
                    ints,
                    bools,
                ) < push.bound by {
                    assert(reason@[2 * q + 1].holds(ints, bools));
                    assert(reason@[2 * q + 2].holds(ints, bools));
                }
            }
            if in_interval(vars@, *push, flip, ints, bools) {
                assert forall|k: int| 0 <= k < reason@.len() implies (#[trigger] reason@[k]).holds(
                    ints,
                    bools,
                ) by {
                    if k == 0 {
                        assert(reason[0].holds(ints, bools));
                    } else if k % 2 == 1 {
                        let q = k / 2;
                        assert(k == 2 * q + 1);
                        let _ = push.members[q];
                        assert(reason@[2 * q + 1].holds(ints, bools));
                    } else {
                        let q = k / 2 - 1;
                        assert(k == 2 * q + 2);
                        let _ = push.members[q];
                        assert(reason@[2 * q + 2].holds(ints, bools));
                    }
                }
            }
        }
    }
    reason
}

/// Whether the bounds of the views, negated if `flip` is set, lie within those of the ranking.
pub open spec fn ranks_views(
    ranking: &Ranking,
    ctx: &SolvingContext,
    vars: Seq<IntView>,
    flip: bool,
) -> bool {
    &&& ranking.sorted()
    &&& ranking.lb.len() == vars.len()
    &&& has_views(ctx, vars)
    &&& forall|v: int|
        0 <= v < vars.len() ==> ranking.lb[v] <= #[trigger] signed_mins(ctx, vars, flip)[v]
            && signed_maxs(ctx, vars, flip)[v] <= ranking.ub[v]
}

/// Whether the domains were narrowed by lower bounds of the views, or, if `flip` is set, by upper
/// bounds, and by nothing else.
pub open spec fn cut_only(
    before: &SolvingContext,
    after: &SolvingContext,
    vars: Seq<IntView>,
    flip: bool,
) -> bool {
    forall|ints: IntAssignment, bools: BoolAssignment|
        #[trigger] after.admits(ints, bools) <==> before.admits(ints, bools) && all_at_least(
            vars,
            flip,
            signed_mins(after, vars, flip),
            ints,
            bools,
        )
}

/// Whether the views, negated if `flip` is set, are at least the given values.
pub open spec fn all_at_least(
    vars: Seq<IntView>,
    flip: bool,
    mins: Seq<int>,
    ints: IntAssignment,
    bools: BoolAssignment,
) -> bool {
    forall|v: int|
        0 <= v < vars.len() ==> signed(#[trigger] vars[v], flip, ints, bools) >= mins[v]
}

/// Whether the views are views of the same decision.
pub open spec fn same_decision(a: IntView, b: IntView) -> bool {
    match (a, b) {
        (IntView::Linear { var: x, .. }, IntView::Linear { var: y, .. }) => x == y,
        (IntView::Bool { lit: x, .. }, IntView::Bool { lit: y, .. }) => x.var == y.var,
        _ => false,
    }
}

/// Whether no other of the views is a view of the same decision.
pub open spec fn alone(vars: Seq<IntView>, v: int) -> bool {
    forall|w: int| 0 <= w < vars.len() && w != v ==> !same_decision(#[trigger] vars[w], vars[v])
}

/// Whether the upper bounds of the views, or, if `flip` is set, their lower bounds stay. A view
/// of a decision that another view shares is left out: the bounds of the other one may be bounds
/// of this one.
pub open spec fn far_bounds_stay(
    before: &SolvingContext,
    after: &SolvingContext,
    vars: Seq<IntView>,
    flip: bool,
) -> bool {
    forall|v: int|
        0 <= v < vars.len() && #[trigger] alone(vars, v) ==> if flip {
            after.view_min(vars[v]) == before.view_min(vars[v])
        } else {
            after.view_max(vars[v]) == before.view_max(vars[v])
        }
}

proof fn lemma_cut_step(
    before: &SolvingContext,
    mid: &SolvingContext,
    after: &SolvingContext,
    vars: Seq<IntView>,
    flip: bool,
    t: int,
    bound: int,
)
    requires
        cut_only(before, mid, vars, flip),
        mid.wf(),
        after.wf(),
        after.grows(mid),
        after.narrows(mid),
        has_views(mid, vars),
        0 <= t < vars.len(),
        forall|ints: IntAssignment, bools: BoolAssignment|
            #[trigger] after.admits(ints, bools) <==> (mid.admits(ints, bools) && signed(
                vars[t],
                flip,
                ints,
                bools,
            ) >= bound),
        signed_mins(after, vars, flip)[t] >= bound,
    ensures
        cut_only(before, after, vars, flip),
{
    assert forall|ints: IntAssignment, bools: BoolAssignment| #[trigger]
        after.admits(ints, bools) <==> before.admits(ints, bools) && all_at_least(
            vars,
            flip,
            signed_mins(after, vars, flip),
            ints,
            bools,
        ) by {
        if after.admits(ints, bools) {
            assert forall|v: int| 0 <= v < vars.len() implies signed(
                #[trigger] vars[v],
                flip,
                ints,
                bools,
            ) >= signed_mins(after, vars, flip)[v] by {
                assert(mid.has_view(vars[v]));
                lemma_view_narrowed(mid, after, vars[v]);
                lemma_view_bounds(after, vars[v], ints, bools);
            }
        }
        if before.admits(ints, bools) && all_at_least(
            vars,
            flip,
            signed_mins(after, vars, flip),
            ints,
            bools,
        ) {
            assert forall|v: int| 0 <= v < vars.len() implies signed(
                #[trigger] vars[v],
                flip,
                ints,
                bools,
            ) >= signed_mins(mid, vars, flip)[v] by {
                assert(mid.has_view(vars[v]));
                lemma_view_narrowed(mid, after, vars[v]);
            }
            assert(signed(vars[t], flip, ints, bools) >= signed_mins(after, vars, flip)[t]);
        }
    }
}

/// Bounds on the other side are not touched.
proof fn lemma_far_bounds_stay(
    before: &SolvingContext,
    after: &SolvingContext,
    vars: Seq<IntView>,
    flip: bool,
)
    requires
        cut_only(before, after, vars, flip),
        before.wf(),
        after.wf(),
        after.grows(before),
        after.narrows(before),
        has_views(before, vars),
    ensures
        far_bounds_stay(before, after, vars, flip),
{
    assert forall|v: int| 0 <= v < vars.len() && #[trigger] alone(vars, v) implies if flip {
        after.view_min(vars[v]) == before.view_min(vars[v])
    } else {
        after.view_max(vars[v]) == before.view_max(vars[v])
    } by {
        let view = vars[v];
        assert(before.has_view(vars[v]));
        lemma_view_narrowed(before, after, view);
        let (low, high) = lemma_bounds_taken(before, view);
        let (ints0, bools0) = if flip {
            low
        } else {
            high
        };
        let (rest, _) = lemma_bounds_taken(after, view);
        let ints: IntAssignment = |k: int|
            if view is Linear && view->Linear_var == k {
                ints0(k)
            } else {
                rest.0(k)
            };
        let bools: BoolAssignment = |k: int|
            if view is Bool && view->Bool_lit.var == k {
                bools0(k)
            } else {
                rest.1(k)
            };
        lemma_narrows_admits(after, before, rest.0, rest.1);
        assert(before.admits(ints, bools)) by {
            assert forall|k: int| 0 <= k < before.ints.len() implies (
            #[trigger] before.ints[k]).has(ints(k)) by {
                assert(before.ints[k].has(ints0(k)) && before.ints[k].has(rest.0(k)));
            }
            assert forall|k: int| 0 <= k < before.bools.len() implies (
            #[trigger] before.bools[k] matches Some(val) ==> val == bools(k)) by {}
        }
        assert(view.eval(ints, bools) == view.eval(ints0, bools0));
        assert forall|w: int| 0 <= w < vars.len() implies signed(
            #[trigger] vars[w],
            flip,
            ints,
            bools,
        ) >= signed_mins(after, vars, flip)[w] by {
            assert(before.has_view(vars[w]));
            lemma_view_narrowed(before, after, vars[w]);
            lemma_view_bounds(after, vars[w], rest.0, rest.1);
            if w != v {
                assert(!same_decision(vars[w], vars[v]));
                assert(vars[w].eval(ints, bools) == vars[w].eval(rest.0, rest.1));
            } else {
                lemma_view_bounds(after, vars[w], rest.0, rest.1);
            }
        }
        assert(after.admits(ints, bools));
        lemma_view_bounds(after, view, ints, bools);
    }
}

/// Whether the consequence is that the view of the push lies past the interval, or, if `flip` is
/// set, before the mirrored one, for the sole reason that it starts in the interval, whose values
/// other views use up.
pub open spec fn pushed_out(
    vars: Seq<IntView>,
    flip: bool,
    push: HallPush,
    c: LitPropagation,
) -> bool {
    &&& push.tight(vars.len() as int)
    &&& forall|ints: IntAssignment, bools: BoolAssignment| #[trigger]
        c.lit.holds(ints, bools) == (signed(vars[push.var as int], flip, ints, bools)
            >= push.bound)
    &&& exists|atoms: Vec<BoolView>| #[trigger]
        ReasonBuilder::Atoms(atoms).builds(c.reason) && says_interval(vars, flip, push, atoms@)
}

/// Whether the literals say that.
pub open spec fn says_interval(
    vars: Seq<IntView>,
    flip: bool,
    push: HallPush,
    atoms: Seq<BoolView>,
) -> bool {
    forall|ints: IntAssignment, bools: BoolAssignment| #[trigger]
        all_hold(atoms, ints, bools) == in_interval(vars, push, flip, ints, bools)
}

/// Whether the consequence is of this kind, where `low` allows for lower bounds and `high` for
/// upper bounds.
pub open spec fn pushed_by_some(
    vars: Seq<IntView>,
    low: bool,
    high: bool,
    c: LitPropagation,
) -> bool {
    exists|push: HallPush, flip: bool| #[trigger]
        pushed_out(vars, flip, push, c) && if flip {
            high
        } else {
            low
        }
}

/// Whether all consequences since are of this kind.
pub open spec fn all_pushed_out(
    vars: Seq<IntView>,
    before: &SolvingContext,
    ctx: &SolvingContext,
    low: bool,
    high: bool,
) -> bool {
    forall|q: int|
        before.propagation_queue.len() <= q < ctx.propagation_queue.len() ==> pushed_by_some(
            vars,
            low,
            high,
            #[trigger] ctx.propagation_queue[q],
        )
}

/// Views are pushed out one after another.
proof fn lemma_pushed_out_join(
    vars: Seq<IntView>,
    before: &SolvingContext,
    mid: &SolvingContext,
    ctx: &SolvingContext,
    low: bool,
    high: bool,
)
    requires
        *ctx == *mid || ctx.grows(mid),
        all_pushed_out(vars, before, mid, low, high),
        all_pushed_out(vars, mid, ctx, low, high),
    ensures
        all_pushed_out(vars, before, ctx, low, high),
{
    let n = mid.propagation_queue.len() as int;
    assert forall|q: int|
        before.propagation_queue.len() <= q < ctx.propagation_queue.len() implies pushed_by_some(
        vars,
        low,
        high,
        #[trigger] ctx.propagation_queue[q],
    ) by {
        if q < n {
            if *ctx != *mid {
                assert(ctx.propagation_queue@.take(n)[q] == mid.propagation_queue[q]);
            }
            assert(pushed_by_some(vars, low, high, mid.propagation_queue[q]));
        }
    }
}

/// Bounds of one kind are bounds of some kind.
proof fn lemma_pushed_either_way(
    vars: Seq<IntView>,
    before: &SolvingContext,
    ctx: &SolvingContext,
    low: bool,
    high: bool,
)
    requires
        all_pushed_out(vars, before, ctx, low, high),
    ensures
        all_pushed_out(vars, before, ctx, true, true),
{
    assert forall|q: int|
        before.propagation_queue.len() <= q < ctx.propagation_queue.len() implies pushed_by_some(
        vars,
        true,
        true,
        #[trigger] ctx.propagation_queue[q],
    ) by {
        let c = ctx.propagation_queue[q];
        assert(pushed_by_some(vars, low, high, c));
        let (push, flip) = choose|push: HallPush, flip: bool| #[trigger]
            pushed_out(vars, flip, push, c) && if flip {
                high
            } else {
                low
            };
        assert(pushed_out(vars, flip, push, c));
    }
}

/// Propagate the bounds that the Hall intervals of the ranking force: lower bounds, or, if
/// `flip` is set, upper bounds by the ranking of the negated views.
fn filter(
    vars: &Vec<IntView>,
    ranking: &Ranking,
    flip: bool,
    ctx: &mut SolvingContext,
) -> (r: Result<(), Conflict>)
    requires
        old(ctx).wf(),
        ranks_views(ranking, old(ctx), vars@, flip),
    ensures
        final(ctx).infers(old(ctx), all_different(vars@), r),
        final(ctx).trail == old(ctx).trail,
        cut_only(old(ctx), final(ctx), vars@, flip),
        far_bounds_stay(old(ctx), final(ctx), vars@, flip),
        all_pushed_out(vars@, old(ctx), final(ctx), !flip, flip),
        r is Ok ==> hall_consistent(
            ranking.lb@,
            ranking.ub@,
            signed_mins(final(ctx), vars@, flip),
        ),
{
    let pushes: Vec<HallPush> = ranking.pushes();
    let ghost before = *ctx;
    let ghost rule = all_different(vars@);
    proof {
        lemma_infers_nothing(&before, rule);
        assert forall|v: int| 0 <= v < vars.len() implies (#[trigger] vars[v]).bounded() by {
            assert(before.has_view(vars@[v]));
        }
        assert forall|ints: IntAssignment, bools: BoolAssignment| #[trigger]
            before.admits(ints, bools) implies all_at_least(
            vars@,
            flip,
            signed_mins(&before, vars@, flip),
            ints,
            bools,
        ) by {
            assert forall|v: int| 0 <= v < vars.len() implies signed(
                #[trigger] vars@[v],
                flip,
                ints,
                bools,
            ) >= signed_mins(&before, vars@, flip)[v] by {
                assert(before.has_view(vars@[v]));
                lemma_view_bounds(&before, vars@[v], ints, bools);
            }
        }
    }
    let mut k: usize = 0;
    while k < pushes.len()
        invariant
            k <= pushes.len(),
            before == *old(ctx),
            before.wf(),
            ctx.infers(&before, rule, Ok(())),
            cut_only(&before, ctx, vars@, flip),
            all_pushed_out(vars@, &before, ctx, !flip, flip),
            has_views(&before, vars@),
            ctx.trail == before.trail,
            rule == all_different(vars@),
            ranking.sorted(),
            ranking.lb.len() == vars.len(),
            has_views(ctx, vars@),
            forall|v: int| 0 <= v < vars.len() ==> (#[trigger] vars[v]).bounded(),
            forall|v: int|
                0 <= v < vars.len() ==> pushed(ranking.lb@, pushes@, k as int, v)
                    <= #[trigger] signed_mins(ctx, vars@, flip)[v] && signed_maxs(
                    ctx,
                    vars@,
                    flip,
                )[v] <= ranking.ub[v],
            forall|v: int|
                0 <= v < vars.len() ==> ranking.lb[v] <= #[trigger] signed_mins(
                    ctx,
                    vars@,
                    flip,
                )[v],
            accepted(ranking.ub@, pushes@) ==> hall_consistent(
                ranking.lb@,
                ranking.ub@,
                all_pushed(ranking.lb@, pushes@),
            ),
            forall|k: int|
                0 <= k < pushes.len() ==> #[trigger] justified(
                    ranking.lb@,
                    ranking.ub@,
                    pushes@,
                    k,
                ),
            forall|l: int|
                0 <= l < k ==> (#[trigger] pushes[l]).bound <= ranking.ub[pushes[l].var as int],
        decreases pushes.len() - k,
    {
        let ghost mid = *ctx;
        let push: &HallPush = &pushes[k];
        let ghost target = vars@[push.var as int];
        proof {
            assert(justified(ranking.lb@, ranking.ub@, pushes@, k as int));
        }
        let reason: Vec<BoolView> = build_reason(vars, push, flip);
        let ghost builder = ReasonBuilder::Atoms(reason);
        let ghost step = if flip {
            at_most(target, -push.bound)
        } else {
            at_least(target, push.bound as int)
        };
        proof {
            assert forall|ints: IntAssignment, bools: BoolAssignment|
                #[trigger] rule(ints, bools) && builder.holds(ints, bools) implies step(
                ints,
                bools,
            ) by {
                assert(all_hold(reason@, ints, bools));
                lemma_pigeonhole(vars@, *push, flip, ints, bools);
            }
            assert forall|ints: IntAssignment, bools: BoolAssignment|
                #[trigger] mid.admits(ints, bools) implies builder.holds(ints, bools) by {
                assert(all_hold(reason@, ints, bools) == in_interval(
                    vars@,
                    *push,
                    flip,
                    ints,
                    bools,
                ));
                lemma_interval_entailed(
                    ranking,
                    vars@,
                    &mid,
                    flip,
                    pushes@,
                    k as int,
                    ints,
                    bools,
                );
            }
        }
        let view: IntView = vars[push.var];
        let bound: IntVal = push.bound;
        let r: Result<(), Conflict> = if flip {
            ctx.tighten_max(view, 0 - bound, ReasonBuilder::Atoms(reason))
        } else {
            ctx.tighten_min(view, bound, ReasonBuilder::Atoms(reason))
        };
        proof {
            lemma_infers_step(&before, &mid, ctx, rule, step, builder, r);
            assert(all_pushed_out(vars@, &mid, ctx, !flip, flip)) by {
                assert forall|q: int|
                    mid.propagation_queue.len() <= q
                        < ctx.propagation_queue.len() implies pushed_by_some(
                    vars@,
                    !flip,
                    flip,
                    #[trigger] ctx.propagation_queue[q],
                ) by {
                    let c = ctx.propagation_queue[q];
                    assert(c == ctx.propagation_queue@.last());
                    assert(builder.builds(c.reason));
                    assert(says_interval(vars@, flip, *push, builder->Atoms_0@));
                    assert forall|ints: IntAssignment, bools: BoolAssignment| #[trigger]
                        c.lit.holds(ints, bools) == (signed(
                            vars@[push.var as int],
                            flip,
                            ints,
                            bools,
                        ) >= push.bound) by {
                        assert(c.lit.holds(ints, bools) == step(ints, bools));
                    }
                    assert(pushed_out(vars@, flip, *push, c));
                }
            }
            lemma_pushed_out_join(vars@, &before, &mid, ctx, !flip, flip);
        }
        if r.is_err() {
            proof {
                lemma_far_bounds_stay(&before, ctx, vars@, flip);
            }
            return r;
        }
        proof {
            assert forall|ints: IntAssignment, bools: BoolAssignment| #[trigger]
                ctx.admits(ints, bools) <==> (mid.admits(ints, bools) && signed(
                    vars@[push.var as int],
                    flip,
                    ints,
                    bools,
                ) >= push.bound) by {
                assert(step(ints, bools) == (signed(
                    vars@[push.var as int],
                    flip,
                    ints,
                    bools,
                ) >= push.bound));
            }
            lemma_cut_step(
                &before,
                &mid,
                ctx,
                vars@,
                flip,
                push.var as int,
                push.bound as int,
            );
            assert forall|v: int| 0 <= v < vars.len() implies ctx.has_view(#[trigger] vars@[v])
                && pushed(ranking.lb@, pushes@, k + 1, v) <= signed_mins(ctx, vars@, flip)[v]
                && signed_maxs(ctx, vars@, flip)[v] <= ranking.ub[v] && ranking.lb[v]
                <= signed_mins(ctx, vars@, flip)[v] by {
                assert(mid.has_view(vars@[v]));
                lemma_view_narrowed(&mid, ctx, vars@[v]);
                assert(pushed(ranking.lb@, pushes@, k as int, v) <= signed_mins(
                    &mid,
                    vars@,
                    flip,
                )[v]);
            }
            assert(ranking.lb[push.var as int] <= signed_mins(&mid, vars@, flip)[push.var as int]);
            assert(push.bound <= ranking.ub[push.var as int]);
        }
        k = k + 1;
    }
    proof {
        assert(accepted(ranking.ub@, pushes@));
        let after = all_pushed(ranking.lb@, pushes@);
        let now = signed_mins(ctx, vars@, flip);
        assert forall|v: int| 0 <= v < ranking.lb@.len() implies after[v] <= #[trigger] now[v] by {
            assert(pushed(ranking.lb@, pushes@, k as int, v) <= signed_mins(ctx, vars@, flip)[v]);
        }
        lemma_hall_consistent_above(ranking.lb@, ranking.ub@, after, now);
        lemma_far_bounds_stay(&before, ctx, vars@, flip);
    }
    Ok(())
}

/// The reason for a push holds in the context.
proof fn lemma_interval_entailed(
    ranking: &Ranking,
    vars: Seq<IntView>,
    ctx: &SolvingContext,
    flip: bool,
    pushes: Seq<HallPush>,
    k: int,
    ints: IntAssignment,
    bools: BoolAssignment,
)
    requires
        0 <= k < pushes.len(),
        ranking.sorted(),
        ranking.lb.len() == vars.len(),
        ctx.wf(),
        has_views(ctx, vars),
        justified(ranking.lb@, ranking.ub@, pushes, k),
        forall|v: int|
            0 <= v < vars.len() ==> pushed(ranking.lb@, pushes, k, v) <= #[trigger] signed_mins(
                ctx,
                vars,
                flip,
            )[v] && signed_maxs(ctx, vars, flip)[v] <= ranking.ub[v],
        forall|v: int| 0 <= v < vars.len() ==> ranking.lb[v] <= #[trigger] signed_mins(ctx, vars, flip)[v],
        ctx.admits(ints, bools),
    ensures
        in_interval(vars, pushes[k], flip, ints, bools),
{
    let push = pushes[k];
    let v = push.var as int;
    assert(ctx.has_view(vars[v]));
    lemma_view_bounds(ctx, vars[v], ints, bools);
    assert(ranking.lb[v] <= signed_mins(ctx, vars, flip)[v]);
    assert forall|p: int| 0 <= p < push.members.len() implies push.floor <= signed(
        vars[#[trigger] push.members[p] as int],
        flip,
        ints,
        bools,
    ) < push.bound by {
        let u = push.members[p] as int;
        assert(ctx.has_view(vars[u]));
        lemma_view_bounds(ctx, vars[u], ints, bools);
        assert(push.floor <= pushed(ranking.lb@, pushes, k, u));
        assert(pushed(ranking.lb@, pushes, k, u) <= signed_mins(ctx, vars, flip)[u]);
    }
}


/// Bounds consistent propagator for different values.
#[derive(Debug, PartialEq, Eq, Hash)]
pub struct IntUniqueBounds {
    /// The views that must take different values.
    pub var: Vec<IntView>,
    /// The critical bounds of the views.
    pub ranking: Ranking,
}

/// Whether no interval holds more of the views than it has values, and no view starts or ends
/// in an interval that the others use up, judged by the bounds before and after.
pub open spec fn bounds_consistent(
    ranking: &Ranking,
    after: &SolvingContext,
    vars: Seq<IntView>,
) -> bool {
    &&& hall_consistent(ranking.lb@, ranking.ub@, signed_mins(after, vars, false))
    &&& hall_consistent(negated(ranking.ub@), negated(ranking.lb@), signed_mins(after, vars, true))
}

/// The negated values.
pub open spec fn negated(s: Seq<IntVal>) -> Seq<IntVal> {
    Seq::new(s.len(), |v: int| (-s[v]) as IntVal)
}

impl IntUniqueBounds {
    /// The ranking has a place for every view.
    pub open spec fn wf(&self) -> bool {
        &&& self.ranking.wf()
        &&& self.ranking.lb.len() == self.var.len()
    }

    /// Whether the bounds that were met on the way are consistent at the end of it.
    pub open spec fn settled(&self, first: &SolvingContext, last: &SolvingContext) -> bool {
        exists|mid: SolvingContext| #[trigger]
            self.ranked_in(&mid) && mid.between(first, last) && bounds_consistent(
                &self.ranking,
                last,
                self.var@,
            )
    }

    /// Whether the ranking holds the bounds of the views in the context.
    pub open spec fn ranked_in(&self, ctx: &SolvingContext) -> bool {
        &&& self.ranking.lb.len() == self.var.len()
        &&& self.ranking.ub.len() == self.var.len()
        &&& forall|v: int|
            0 <= v < self.var.len() ==> #[trigger] self.ranking.lb[v] == ctx.view_min(self.var[v])
        &&& forall|v: int|
            0 <= v < self.var.len() ==> #[trigger] self.ranking.ub[v] == ctx.view_max(self.var[v])
    }

    /// Create the propagator for the given views.
    pub fn new(vars: Vec<IntView>) -> (r: IntUniqueBounds)
        requires
            2 * vars.len() + 2 < usize::MAX,
        ensures
            r.wf(),
            r.var == vars,
    {
        let ranking: Ranking = Ranking::new(vars.len());
        IntUniqueBounds { var: vars, ranking }
    }

    /// Ask to be run, after other propagators, whenever a bound of a view changes.
    pub fn initialize(&self, ctx: &mut InitializationContext)
        ensures
            final(ctx).priority == PriorityLevel::Low,
            final(ctx).enqueue == old(ctx).enqueue,
            final(ctx).backtrack == old(ctx).backtrack,
            final(ctx).int_advice == old(ctx).int_advice,
            final(ctx).bool_advice == old(ctx).bool_advice,
            final(ctx).triggers@ == old(ctx).triggers@ + Seq::new(
                self.var@.len(),
                |i: int| IntTrigger { view: self.var@[i], cond: IntPropCond::Bounds },
            ),
    {
        ctx.priority = PriorityLevel::Low;
        let ghost wanted = Seq::new(
            self.var@.len(),
            |i: int| IntTrigger { view: self.var@[i], cond: IntPropCond::Bounds },
        );
        let mut i: usize = 0;
        while i < self.var.len()
            invariant
                i <= self.var.len(),
                ctx.priority == PriorityLevel::Low,
                ctx.enqueue == old(ctx).enqueue,
                ctx.backtrack == old(ctx).backtrack,
                ctx.int_advice == old(ctx).int_advice,
                ctx.bool_advice == old(ctx).bool_advice,
                wanted == Seq::new(
                    self.var@.len(),
                    |i: int| IntTrigger { view: self.var@[i], cond: IntPropCond::Bounds },
                ),
                ctx.triggers@ == old(ctx).triggers@ + wanted.take(i as int),
            decreases self.var.len() - i,
        {
            ctx.triggers.push(IntTrigger { view: self.var[i], cond: IntPropCond::Bounds });
            proof {
                assert(wanted.take(i + 1) == wanted.take(i as int).push(wanted[i as int]));
            }
            i = i + 1;
        }
        assert(wanted.take(i as int) == wanted);
    }

    /// Read the bounds of the views, and find the critical bounds.
    pub fn sort(&mut self, ctx: &SolvingContext)
        requires
            old(self).wf(),
            old(self).var.len() > 0,
            ctx.wf(),
            has_views(ctx, old(self).var@),
        ensures
            final(self).wf(),
            final(self).var == old(self).var,
            final(self).ranking.sorted(),
            final(self).ranking.exact(),
            final(self).ranked_in(ctx),
    {
        let mut i: usize = 0;
        while i < self.var.len()
            invariant
                i <= self.var.len(),
                self.var == old(self).var,
                self.var.len() > 0,
                self.wf(),
                ctx.wf(),
                has_views(ctx, self.var@),
                forall|v: int|
                    0 <= v < i ==> #[trigger] self.ranking.lb[v] == ctx.view_min(self.var[v]),
                forall|v: int|
                    0 <= v < i ==> #[trigger] self.ranking.ub[v] == ctx.view_max(self.var[v]),
                forall|v: int|
                    0 <= v < i ==> -INT_LIMIT <= #[trigger] self.ranking.lb[v]
                        <= self.ranking.ub[v] <= INT_LIMIT,
            decreases self.var.len() - i,
        {
            assert(ctx.has_view(self.var@[i as int]));
            let (lb, ub): (IntVal, IntVal) = ctx.bounds(self.var[i]);
            self.ranking.lb.set(i, lb);
            self.ranking.ub.set(i, ub);
            i = i + 1;
        }
        self.ranking.sort();
    }

    /// Raise the lower bounds of the views that start in a Hall interval.
    pub fn filter_lower(&self, ctx: &mut SolvingContext) -> (r: Result<(), Conflict>)
        requires
            old(ctx).wf(),
            ranks_views(&self.ranking, old(ctx), self.var@, false),
        ensures
            final(ctx).infers(old(ctx), all_different(self.var@), r),
            final(ctx).trail == old(ctx).trail,
            cut_only(old(ctx), final(ctx), self.var@, false),
            far_bounds_stay(old(ctx), final(ctx), self.var@, false),
            all_pushed_out(self.var@, old(ctx), final(ctx), true, false),
            r is Ok ==> hall_consistent(
                self.ranking.lb@,
                self.ranking.ub@,
                signed_mins(final(ctx), self.var@, false),
            ),
    {
        filter(&self.var, &self.ranking, false, ctx)
    }

    /// Lower the upper bounds of the views that end in a Hall interval.
    pub fn filter_upper(&self, ctx: &mut SolvingContext) -> (r: Result<(), Conflict>)
        requires
            old(ctx).wf(),
            ranks_views(&self.ranking, old(ctx), self.var@, false),
        ensures
            final(ctx).infers(old(ctx), all_different(self.var@), r),
            final(ctx).trail == old(ctx).trail,
            cut_only(old(ctx), final(ctx), self.var@, true),
            far_bounds_stay(old(ctx), final(ctx), self.var@, true),
            all_pushed_out(self.var@, old(ctx), final(ctx), false, true),
            r is Ok ==> hall_consistent(
                negated(self.ranking.ub@),
                negated(self.ranking.lb@),
                signed_mins(final(ctx), self.var@, true),
            ),
    {
        let mirrored: Ranking = self.ranking.mirror();
        proof {
            lemma_mirror_views(&self.ranking, &mirrored, ctx, self.var@);
            assert(mirrored.lb@ =~= negated(self.ranking.ub@)) by {
                assert forall|v: int| 0 <= v < self.var@.len() implies mirrored.lb@[v]
                    == #[trigger] negated(self.ranking.ub@)[v] by {
                    assert(mirrored.lb[v] == -self.ranking.ub[v]);
                }
            }
            assert(mirrored.ub@ =~= negated(self.ranking.lb@)) by {
                assert forall|v: int| 0 <= v < self.var@.len() implies mirrored.ub@[v]
                    == #[trigger] negated(self.ranking.lb@)[v] by {
                    assert(mirrored.ub[v] == -self.ranking.lb[v]);
                }
            }
        }
        filter(&self.var, &mirrored, true, ctx)
    }

    /// Tighten the bounds of the views until no view starts or ends in a Hall interval of the
    /// views as they were.
    pub fn propagate(&mut self, ctx: &mut SolvingContext) -> (r: Result<(), Conflict>)
        requires
            old(self).wf(),
            old(self).var.len() > 0,
            old(ctx).wf(),
            has_views(old(ctx), old(self).var@),
        ensures
            final(self).wf(),
            final(self).var == old(self).var,
            final(self).ranked_in(old(ctx)),
            final(ctx).infers(old(ctx), all_different(old(self).var@), r),
            final(ctx).trail == old(ctx).trail,
            has_views(final(ctx), old(self).var@),
            // Each bound is moved for the reason that an interval is used up.
            all_pushed_out(old(self).var@, old(ctx), final(ctx), true, true),
            r is Ok ==> bounds_consistent(&final(self).ranking, final(ctx), old(self).var@),
    {
        let ghost before = *ctx;
        let ghost rule = all_different(self.var@);
        self.sort(ctx);
        proof {
            assert forall|v: int| 0 <= v < self.var@.len() implies self.ranking.lb[v]
                <= #[trigger] signed_mins(ctx, self.var@, false)[v] && signed_maxs(
                ctx,
                self.var@,
                false,
            )[v] <= self.ranking.ub[v] by {
                assert(self.ranking.lb[v] == ctx.view_min(self.var[v]));
                assert(self.ranking.ub[v] == ctx.view_max(self.var[v]));
            }
        }
        let lower: Result<(), Conflict> = self.filter_lower(ctx);
        proof {
            lemma_pushed_either_way(self.var@, &before, ctx, true, false);
            lemma_views_narrowed(&before, ctx, self.var@);
        }
        if lower.is_err() {
            return lower;
        }
        let ghost mid = *ctx;
        proof {
            assert forall|v: int| 0 <= v < self.var@.len() implies self.ranking.lb[v]
                <= #[trigger] signed_mins(ctx, self.var@, false)[v] && signed_maxs(
                ctx,
                self.var@,
                false,
            )[v] <= self.ranking.ub[v] by {
                assert(self.ranking.lb[v] == before.view_min(self.var[v]));
                assert(self.ranking.ub[v] == before.view_max(self.var[v]));
                assert(before.view_min(self.var@[v]) <= mid.view_min(self.var@[v]));
            }
        }
        let r: Result<(), Conflict> = self.filter_upper(ctx);
        proof {
            lemma_infers_join(&before, &mid, ctx, rule, r);
            lemma_pushed_either_way(self.var@, &mid, ctx, false, true);
            lemma_pushed_out_join(self.var@, &before, &mid, ctx, true, true);
            lemma_views_narrowed(&mid, ctx, self.var@);
            if r is Ok {
                lemma_hall_consistent_above(
                    self.ranking.lb@,
                    self.ranking.ub@,
                    signed_mins(&mid, self.var@, false),
                    signed_mins(ctx, self.var@, false),
                );
            }
        }
        r
    }
}

/// A ranking of the views, mirrored, is one of the negated views.
proof fn lemma_mirror_views(
    ranking: &Ranking,
    mirrored: &Ranking,
    ctx: &SolvingContext,
    vars: Seq<IntView>,
)
    requires
        ranks_views(ranking, ctx, vars, false),
        mirrored.sorted(),
        mirrored.lb.len() == ranking.lb.len(),
        forall|v: int| 0 <= v < ranking.lb.len() ==> #[trigger] mirrored.lb[v] == -ranking.ub[v],
        forall|v: int| 0 <= v < ranking.lb.len() ==> #[trigger] mirrored.ub[v] == -ranking.lb[v],
    ensures
        ranks_views(mirrored, ctx, vars, true),
{
    assert forall|v: int| 0 <= v < vars.len() implies mirrored.lb[v] <= #[trigger] signed_mins(
        ctx,
        vars,
        true,
    )[v] && signed_maxs(ctx, vars, true)[v] <= mirrored.ub[v] by {
        assert(ranking.lb[v] <= signed_mins(ctx, vars, false)[v]);
        assert(signed_maxs(ctx, vars, false)[v] <= ranking.ub[v]);
        assert(mirrored.lb[v] == -ranking.ub[v]);
        assert(mirrored.ub[v] == -ranking.lb[v]);
    }
}

/// Narrowing the domains keeps the views, and narrows their bounds.
pub proof fn lemma_views_narrowed(
    before: &SolvingContext,
    after: &SolvingContext,
    vars: Seq<IntView>,
)
    requires
        before.wf(),
        after.wf(),
        after.grows(before),
        after.narrows(before),
        has_views(before, vars),
    ensures
        has_views(after, vars),
        forall|v: int|
            0 <= v < vars.len() ==> before.view_min(vars[v]) <= after.view_min(#[trigger] vars[v]),
        forall|v: int|
            0 <= v < vars.len() ==> after.view_max(#[trigger] vars[v]) <= before.view_max(vars[v]),
{
    assert forall|v: int| 0 <= v < vars.len() implies after.has_view(#[trigger] vars[v])
        && before.view_min(vars[v]) <= after.view_min(vars[v]) && after.view_max(vars[v])
        <= before.view_max(vars[v]) by {
        assert(before.has_view(vars[v]));
        lemma_view_narrowed(before, after, vars[v]);
    }
}

/// Views that are all fixed take different values wherever their bounds are consistent.
pub proof fn lemma_fixed_views_differ(lb: Seq<IntVal>, after: Seq<int>)
    requires
        hall_consistent(lb, lb, after),
    ensures
        lb.no_duplicates(),
{
    assert forall|i: int, j: int| 0 <= i < j < lb.len() implies lb[i] != lb[j] by {
        if lb[i] == lb[j] {
            let p = lb[i] as int;
            let s = held(lb, lb, p, p + 1);
            assert(s.finite() && s.len() <= 1);
            let pair = Set::<int>::empty().insert(i).insert(j);
            assert(pair.subset_of(s));
            lemma_len_subset(pair, s);
        }
    }
}


/// Value consistent propagator for different values.
#[derive(Debug, PartialEq, Eq, Hash)]
pub struct IntUniqueValue {
    /// The views that must take different values.
    pub vars: Vec<IntView>,
    /// Indices of the views that were reported to be fixed.
    pub action_list: Vec<usize>,
}

/// Whether no assignment gives the value of a view of the list to another view.
pub open spec fn values_removed(
    before: &SolvingContext,
    after: &SolvingContext,
    vars: Seq<IntView>,
    i: int,
    j: int,
) -> bool {
    forall|ints: IntAssignment, bools: BoolAssignment|
        #[trigger] after.admits(ints, bools) ==> vars[j].eval(ints, bools) != before.view_min(
            vars[i],
        )
}

/// Whether the assignment gives no view the value of a fixed view before it: the first `k` of
/// the list count for all other views, and the next one for the first `j` views.
pub open spec fn spared(
    before: &SolvingContext,
    vars: Seq<IntView>,
    list: Seq<usize>,
    k: int,
    j: int,
    ints: IntAssignment,
    bools: BoolAssignment,
) -> bool {
    forall|l: int, h: int|
        0 <= l < list.len() && 0 <= h < vars.len() && h != list[l] && (l < k || (l == k && h < j))
            ==> #[trigger] takes_not(before, vars, list[l] as int, h, ints, bools)
}

/// Whether the assignment gives the view another value than the fixed one has.
pub open spec fn takes_not(
    before: &SolvingContext,
    vars: Seq<IntView>,
    i: int,
    h: int,
    ints: IntAssignment,
    bools: BoolAssignment,
) -> bool {
    vars[h].eval(ints, bools) != before.view_min(vars[i])
}

/// Whether the domains were narrowed by those values and by nothing else.
pub open spec fn removed_only(
    before: &SolvingContext,
    after: &SolvingContext,
    vars: Seq<IntView>,
    list: Seq<usize>,
    k: int,
    j: int,
) -> bool {
    forall|ints: IntAssignment, bools: BoolAssignment|
        #[trigger] after.admits(ints, bools) <==> (before.admits(ints, bools) && spared(
            before,
            vars,
            list,
            k,
            j,
            ints,
            bools,
        ))
}

/// Whether the consequence is that a view does not take the value of a fixed view, for the sole
/// reason that the fixed view has it.
pub open spec fn removed_for_value(
    before: &SolvingContext,
    vars: Seq<IntView>,
    list: Seq<usize>,
    c: LitPropagation,
) -> bool {
    exists|l: int, h: int, lit: BoolView| #[trigger]
        removes(before, vars, list, l, h, lit, c)
}

/// Whether the consequence is that the view does not take the value of the fixed view, for the
/// reason that the literal holds.
pub open spec fn removes(
    before: &SolvingContext,
    vars: Seq<IntView>,
    list: Seq<usize>,
    l: int,
    h: int,
    lit: BoolView,
    c: LitPropagation,
) -> bool {
    let i = list[l] as int;
    let val = before.view_min(vars[i]);
    &&& 0 <= l < list.len() && 0 <= h < vars.len() && h != i
    &&& forall|ints: IntAssignment, bools: BoolAssignment|
        #[trigger] c.lit.holds(ints, bools) == (vars[h].eval(ints, bools) != val)
    &&& exists|reason: Vec<BoolView>|
        reason@ == seq![lit] && #[trigger] ReasonBuilder::Atoms(reason).builds(c.reason)
    &&& forall|ints: IntAssignment, bools: BoolAssignment|
        #[trigger] lit.holds(ints, bools) == (vars[i].eval(ints, bools) == val)
}

/// Whether another view is fixed to the value of a view that was reported to be fixed.
pub open spec fn clash(
    ctx: &SolvingContext,
    vars: Seq<IntView>,
    list: Seq<usize>,
    k: int,
    j: int,
) -> bool {
    let val = ctx.view_min(vars[list[k] as int]);
    &&& 0 <= k < list.len() && 0 <= j < vars.len() && j != list[k]
    &&& ctx.view_min(vars[j]) == val && ctx.view_max(vars[j]) == val
}

impl IntUniqueValue {
    /// Create the propagator for the given views.
    pub fn new(vars: Vec<IntView>) -> (r: IntUniqueValue)
        ensures
            r.vars == vars,
            r.action_list@ == Seq::<usize>::empty(),
    {
        IntUniqueValue { vars, action_list: Vec::new() }
    }

    /// Forget the views that were reported to be fixed.
    pub fn advise_of_backtrack(&mut self)
        ensures
            final(self).vars == old(self).vars,
            final(self).action_list@ == Seq::<usize>::empty(),
    {
        self.action_list.clear();
    }

    /// Remember that the view at index `data` was fixed. The propagator is to be run.
    pub fn advise_of_int_change(&mut self, data: u64, event: IntEvent) -> (r: bool)
        requires
            data < old(self).vars.len(),
            event == IntEvent::Fixed,
        ensures
            r,
            final(self).vars == old(self).vars,
            final(self).action_list@ == old(self).action_list@.push(data as usize),
    {
        self.action_list.push(data as usize);
        true
    }

    /// The positions from `from` on of views that are fixed, or, if `fixed` is not set, of
    /// those that are not.
    pub open spec fn positions(
        vars: Seq<IntView>,
        ctx: &SolvingContext,
        fixed: bool,
        upto: int,
    ) -> Seq<int>
        decreases upto,
    {
        if upto <= 0 {
            Seq::empty()
        } else {
            let rest = Self::positions(vars, ctx, fixed, upto - 1);
            if (ctx.view_min(vars[upto - 1]) == ctx.view_max(vars[upto - 1])) == fixed {
                rest.push(upto - 1)
            } else {
                rest
            }
        }
    }

    /// Remember the views that are fixed, in which case the propagator is to be run at once,
    /// and ask to be told, with their indices, when the others are fixed, and when the search
    /// backtracks.
    pub fn initialize(&mut self, state: &SolvingContext, ctx: &mut InitializationContext)
        requires
            state.wf(),
            has_views(state, old(self).vars@),
            old(self).vars.len() <= u64::MAX,
        ensures
            final(self).vars == old(self).vars,
            final(self).action_list@ == old(self).action_list@ + Self::positions(
                old(self).vars@,
                state,
                true,
                old(self).vars.len() as int,
            ).map_values(|i: int| i as usize),
            final(ctx).int_advice@ == old(ctx).int_advice@ + Self::positions(
                old(self).vars@,
                state,
                false,
                old(self).vars.len() as int,
            ).map_values(
                |i: int|
                    IntAdvice {
                        view: old(self).vars@[i],
                        cond: IntPropCond::Fixed,
                        data: i as u64,
                    },
            ),
            final(ctx).enqueue == (old(ctx).enqueue || Self::positions(
                old(self).vars@,
                state,
                true,
                old(self).vars.len() as int,
            ).len() > 0),
            final(ctx).backtrack,
            final(ctx).priority == old(ctx).priority,
            final(ctx).triggers == old(ctx).triggers,
            final(ctx).bool_advice == old(ctx).bool_advice,
    {
        let ghost vars = self.vars@;
        let ghost index = |i: int| i as usize;
        let ghost advice = |i: int|
            IntAdvice { view: vars[i], cond: IntPropCond::Fixed, data: i as u64 };
        let ghost list0 = self.action_list@;
        let ghost advice0 = ctx.int_advice@;
        proof {
            assert(list0 + Seq::<int>::empty().map_values(index) =~= list0);
            assert(advice0 + Seq::<int>::empty().map_values(advice) =~= advice0);
        }
        let mut i: usize = 0;
        while i < self.vars.len()
            invariant
                i <= self.vars.len(),
                self.vars == old(self).vars,
                self.vars@ == vars,
                vars.len() <= u64::MAX,
                state.wf(),
                has_views(state, vars),
                self.action_list@ == list0 + Self::positions(
                    vars,
                    state,
                    true,
                    i as int,
                ).map_values(index),
                ctx.int_advice@ == advice0 + Self::positions(
                    vars,
                    state,
                    false,
                    i as int,
                ).map_values(advice),
                ctx.enqueue == (old(ctx).enqueue || Self::positions(
                    vars,
                    state,
                    true,
                    i as int,
                ).len() > 0),
                ctx.backtrack == old(ctx).backtrack,
                ctx.priority == old(ctx).priority,
                ctx.triggers == old(ctx).triggers,
                ctx.bool_advice == old(ctx).bool_advice,
                index == (|i: int| i as usize),
                advice == (|i: int|
                    IntAdvice { view: vars[i], cond: IntPropCond::Fixed, data: i as u64 }),
            decreases self.vars.len() - i,
        {
            let ghost fixed = Self::positions(vars, state, true, i as int);
            let ghost open = Self::positions(vars, state, false, i as int);
            assert(state.has_view(vars[i as int]));
            if state.int_val(self.vars[i]).is_some() {
                self.action_list.push(i);
                ctx.enqueue = true;
                proof {
                    assert(list0 + fixed.push(i as int).map_values(index) =~= (list0
                        + fixed.map_values(index)).push(i));
                }
            } else {
                ctx.int_advice.push(
                    IntAdvice { view: self.vars[i], cond: IntPropCond::Fixed, data: i as u64 },
                );
                proof {
                    assert(advice0 + open.push(i as int).map_values(advice) =~= (advice0
                        + open.map_values(advice)).push(advice(i as int)));
                }
            }
            i = i + 1;
        }
        ctx.backtrack = true;
    }

    /// Remove the value of every view that was reported to be fixed from the other views.
    pub fn propagate(&mut self, ctx: &mut SolvingContext) -> (r: Result<(), Conflict>)
        requires
            old(ctx).wf(),
            has_views(old(ctx), old(self).vars@),
            forall|k: int|
                0 <= k < old(self).action_list.len() ==> {
                    &&& #[trigger] old(self).action_list[k] < old(self).vars.len()
                    &&& old(ctx).view_min(old(self).vars@[old(self).action_list[k] as int]) == old(
                        ctx,
                    ).view_max(old(self).vars@[old(self).action_list[k] as int])
                },
        ensures
            final(ctx).infers(old(ctx), all_different(old(self).vars@), r),
            final(ctx).trail == old(ctx).trail,
            has_views(final(ctx), old(self).vars@),
            final(self).vars == old(self).vars,
            match r {
                Ok(()) => {
                    &&& final(self).action_list@ == Seq::<usize>::empty()
                    &&& forall|k: int, j: int|
                        #![trigger old(self).action_list@[k], old(self).vars@[j]]
                        0 <= k < old(self).action_list.len() && 0 <= j < old(self).vars.len() && j
                            != old(self).action_list[k] ==> values_removed(
                            old(ctx),
                            final(ctx),
                            old(self).vars@,
                            old(self).action_list[k] as int,
                            j,
                        )
                },
                Err(_) => final(self).action_list == old(self).action_list,
            },
            // Nothing else is removed, and each value for the sole reason that a view has it.
            removed_only(
                old(ctx),
                final(ctx),
                old(self).vars@,
                old(self).action_list@,
                old(self).action_list.len() as int,
                0,
            ) || r is Err,
            all_for_values(old(ctx), final(ctx), old(self).vars@, old(self).action_list@),
            (exists|k: int, j: int| #[trigger]
                clash(old(ctx), old(self).vars@, old(self).action_list@, k, j)) ==> r is Err,
    {
        let ghost before = *ctx;
        let ghost vars = self.vars@;
        let ghost rule = all_different(vars);
        let ghost list = self.action_list@;
        proof {
            lemma_infers_nothing(&before, rule);
        }
        let mut k: usize = 0;
        while k < self.action_list.len()
            invariant
                k <= list.len(),
                *self == *old(self),
                self.action_list@ == list,
                self.vars@ == vars,
                rule == all_different(vars),
                before == *old(ctx),
                before.wf(),
                has_views(&before, vars),
                has_views(ctx, vars),
                removed_only(&before, ctx, vars, list, k as int, 0),
                all_for_values(&before, ctx, vars, list),
                ctx.infers(&before, rule, Ok(())),
                ctx.trail == before.trail,
                forall|k: int|
                    0 <= k < list.len() ==> {
                        &&& #[trigger] list[k] < vars.len()
                        &&& before.view_min(vars[list[k] as int]) == before.view_max(
                            vars[list[k] as int],
                        )
                    },
                forall|l: int, j: int|
                    #![trigger list[l], vars[j]]
                    0 <= l < k && 0 <= j < vars.len() && j != list[l] ==> values_removed(
                        &before,
                        ctx,
                        vars,
                        list[l] as int,
                        j,
                    ),
            decreases list.len() - k,
        {
            let i: usize = self.action_list[k];
            let view: IntView = self.vars[i];
            proof {
                assert(list[k as int] < vars.len());
                assert(before.has_view(vars[i as int]));
                assert(ctx.has_view(vars[i as int]));
                lemma_view_narrowed(&before, ctx, view);
            }
            let val: IntVal = ctx.min(view);
            proof {
                lemma_fixed_value(&before, ctx, view);
            }
            let lit: BoolView = view.lit(IntLitMeaning::Eq(val));
            let ghost outer = *ctx;
            let mut j: usize = 0;
            while j < self.vars.len()
                invariant
                    k < list.len(),
                    j <= vars.len(),
                    *self == *old(self),
                    self.action_list@ == list,
                    self.vars@ == vars,
                    i == list[k as int],
                    i < vars.len(),
                    view == vars[i as int],
                    val == before.view_min(view),
                    val == before.view_max(view),
                    in_limits(val as int),
                    forall|ints: IntAssignment, bools: BoolAssignment|
                        #[trigger] lit.holds(ints, bools) == (view.eval(ints, bools) == val),
                    rule == all_different(vars),
                    before == *old(ctx),
                    before.wf(),
                    has_views(&before, vars),
                    has_views(ctx, vars),
                    removed_only(&before, ctx, vars, list, k as int, j as int),
                    all_for_values(&before, ctx, vars, list),
                    ctx.infers(&before, rule, Ok(())),
                    ctx.trail == before.trail,
                    forall|l: int, j: int|
                        #![trigger list[l], vars[j]]
                        0 <= l < k && 0 <= j < vars.len() && j != list[l] ==> values_removed(
                            &before,
                            ctx,
                            vars,
                            list[l] as int,
                            j,
                        ),
                    forall|h: int|
                        0 <= h < j && h != i ==> values_removed(
                            &before,
                            ctx,
                            vars,
                            i as int,
                            h,
                        ) && #[trigger] vars[h] == vars[h],
                decreases vars.len() - j,
            {
                if j != i {
                    let ghost mid = *ctx;
                    let mut reason: Vec<BoolView> = Vec::new();
                    reason.push(lit);
                    let ghost builder = ReasonBuilder::Atoms(reason);
                    let ghost step = differs(vars[j as int], val as int);
                    proof {
                        assert(before.has_view(vars[i as int]));
                        assert(ctx.has_view(vars[j as int]));
                        assert(reason@[0] == lit);
                        assert forall|ints: IntAssignment, bools: BoolAssignment|
                            #[trigger] rule(ints, bools) && builder.holds(
                                ints,
                                bools,
                            ) implies step(ints, bools) by {
                            assert(reason@[0].holds(ints, bools));
                            if j < i {
                                assert(vars[j as int].eval(ints, bools) != vars[i as int].eval(
                                    ints,
                                    bools,
                                ));
                            } else {
                                assert(vars[i as int].eval(ints, bools) != vars[j as int].eval(
                                    ints,
                                    bools,
                                ));
                            }
                        }
                        assert forall|ints: IntAssignment, bools: BoolAssignment|
                            #[trigger] mid.admits(ints, bools) implies builder.holds(
                            ints,
                            bools,
                        ) by {
                            lemma_narrows_admits(&mid, &before, ints, bools);
                            lemma_view_bounds(&before, view, ints, bools);
                            assert(lit.holds(ints, bools));
                        }
                    }
                    let r: Result<(), Conflict> = ctx.remove_val(
                        self.vars[j],
                        val,
                        ReasonBuilder::Atoms(reason),
                    );
                    proof {
                        lemma_infers_step(&before, &mid, ctx, rule, step, builder, r);
                        lemma_views_narrowed(&before, ctx, vars);
                        lemma_all_for_values(
                            &before,
                            &mid,
                            ctx,
                            vars,
                            list,
                            k as int,
                            j as int,
                            lit,
                            reason,
                            r,
                        );
                    }
                    if r.is_err() {
                        return r;
                    }
                    proof {
                        lemma_spared_next(&before, &mid, ctx, vars, list, k as int, j as int);
                        assert forall|l: int, h: int|
                            0 <= l < list.len() && values_removed(
                                &before,
                                &mid,
                                vars,
                                list[l] as int,
                                h,
                            ) implies #[trigger] values_removed(
                            &before,
                            ctx,
                            vars,
                            list[l] as int,
                            h,
                        ) by {
                            assert forall|ints: IntAssignment, bools: BoolAssignment|
                                #[trigger] ctx.admits(ints, bools) implies vars[h].eval(
                                ints,
                                bools,
                            ) != before.view_min(vars[list[l] as int]) by {
                                assert(mid.admits(ints, bools));
                            }
                        }
                        assert(values_removed(&before, ctx, vars, i as int, j as int)) by {
                            assert forall|ints: IntAssignment, bools: BoolAssignment|
                                #[trigger] ctx.admits(ints, bools) implies vars[j as int].eval(
                                ints,
                                bools,
                            ) != before.view_min(vars[i as int]) by {
                                assert(step(ints, bools));
                            }
                        }
                    }
                } else {
                    proof {
                        lemma_spared_skip(&before, ctx, vars, list, k as int, j as int);
                    }
                }
                j = j + 1;
            }
            proof {
                lemma_spared_row(&before, ctx, vars, list, k as int);
            }
            k = k + 1;
        }
        proof {
            if exists|k: int, j: int| #[trigger] clash(&before, vars, list, k, j) {
                let (l, h) = choose|k: int, j: int| #[trigger] clash(&before, vars, list, k, j);
                assert(before.has_view(vars[h]));
                let ((ints, bools), _) = lemma_bounds_taken(ctx, vars[h]);
                lemma_narrows_admits(ctx, &before, ints, bools);
                lemma_view_bounds(&before, vars[h], ints, bools);
                assert(takes_not(&before, vars, list[l] as int, h, ints, bools));
            }
        }
        self.action_list.clear();
        Ok(())
    }
}

/// Whether every consequence since is the removal of the value of a fixed view.
pub open spec fn all_for_values(
    before: &SolvingContext,
    ctx: &SolvingContext,
    vars: Seq<IntView>,
    list: Seq<usize>,
) -> bool {
    forall|q: int|
        before.propagation_queue.len() <= q < ctx.propagation_queue.len() ==> removed_for_value(
            before,
            vars,
            list,
            #[trigger] ctx.propagation_queue[q],
        )
}

proof fn lemma_all_for_values(
    before: &SolvingContext,
    mid: &SolvingContext,
    ctx: &SolvingContext,
    vars: Seq<IntView>,
    list: Seq<usize>,
    k: int,
    j: int,
    lit: BoolView,
    reason: Vec<BoolView>,
    r: Result<(), Conflict>,
)
    requires
        all_for_values(before, mid, vars, list),
        0 <= k < list.len(),
        0 <= j < vars.len(),
        j != list[k],
        reason@ == seq![lit],
        before.view_min(vars[list[k] as int]) == before.view_max(vars[list[k] as int]),
        ctx.restricts(
            mid,
            differs(vars[j], before.view_min(vars[list[k] as int])),
            ReasonBuilder::Atoms(reason),
            r,
        ),
        forall|ints: IntAssignment, bools: BoolAssignment|
            #[trigger] lit.holds(ints, bools) == (vars[list[k] as int].eval(ints, bools)
                == before.view_min(vars[list[k] as int])),
    ensures
        all_for_values(before, ctx, vars, list),
{
    assert forall|q: int|
        before.propagation_queue.len() <= q < ctx.propagation_queue.len() implies removed_for_value(
        before,
        vars,
        list,
        #[trigger] ctx.propagation_queue[q],
    ) by {
        let n = mid.propagation_queue.len() as int;
        if q < n {
            if ctx.propagation_queue.len() > n {
                assert(ctx.propagation_queue@.take(n)[q] == mid.propagation_queue[q]);
            }
            assert(ctx.propagation_queue[q] == mid.propagation_queue[q]);
        } else {
            let c = ctx.propagation_queue[q];
            assert(c == ctx.propagation_queue@.last());
            assert(ReasonBuilder::Atoms(reason).builds(c.reason));
            let step = differs(vars[j], before.view_min(vars[list[k] as int]));
            assert forall|ints: IntAssignment, bools: BoolAssignment|
                #[trigger] c.lit.holds(ints, bools) == (vars[j].eval(ints, bools)
                    != before.view_min(vars[list[k] as int])) by {
                assert(c.lit.holds(ints, bools) == step(ints, bools));
            }
            assert(removes(before, vars, list, k, j, lit, c));
        }
    }
}

proof fn lemma_spared_next(
    before: &SolvingContext,
    mid: &SolvingContext,
    ctx: &SolvingContext,
    vars: Seq<IntView>,
    list: Seq<usize>,
    k: int,
    j: int,
)
    requires
        removed_only(before, mid, vars, list, k, j),
        0 <= k < list.len(),
        0 <= j < vars.len(),
        j != list[k],
        forall|ints: IntAssignment, bools: BoolAssignment|
            #[trigger] ctx.admits(ints, bools) <==> (mid.admits(ints, bools) && differs(
                vars[j],
                before.view_min(vars[list[k] as int]),
            )(ints, bools)),
    ensures
        removed_only(before, ctx, vars, list, k, j + 1),
{
    assert forall|ints: IntAssignment, bools: BoolAssignment| #[trigger]
        ctx.admits(ints, bools) <==> (before.admits(ints, bools) && spared(
            before,
            vars,
            list,
            k,
            j + 1,
            ints,
            bools,
        )) by {
        let now = spared(before, vars, list, k, j, ints, bools);
        let then = spared(before, vars, list, k, j + 1, ints, bools);
        if then {
            assert(takes_not(before, vars, list[k] as int, j, ints, bools));
            assert forall|l: int, h: int|
                0 <= l < list.len() && 0 <= h < vars.len() && h != list[l] && (l < k || (l == k && h
                    < j)) implies #[trigger] takes_not(
                before,
                vars,
                list[l] as int,
                h,
                ints,
                bools,
            ) by {}
            assert(now);
        }
        if now && takes_not(before, vars, list[k] as int, j, ints, bools) {
            assert forall|l: int, h: int|
                0 <= l < list.len() && 0 <= h < vars.len() && h != list[l] && (l < k || (l == k && h
                    < j + 1)) implies #[trigger] takes_not(
                before,
                vars,
                list[l] as int,
                h,
                ints,
                bools,
            ) by {}
            assert(then);
        }
    }
}

proof fn lemma_spared_skip(
    before: &SolvingContext,
    ctx: &SolvingContext,
    vars: Seq<IntView>,
    list: Seq<usize>,
    k: int,
    j: int,
)
    requires
        removed_only(before, ctx, vars, list, k, j),
        0 <= k < list.len(),
        j == list[k],
    ensures
        removed_only(before, ctx, vars, list, k, j + 1),
{
    assert forall|ints: IntAssignment, bools: BoolAssignment| #[trigger]
        spared(before, vars, list, k, j + 1, ints, bools) == spared(
            before,
            vars,
            list,
            k,
            j,
            ints,
            bools,
        ) by {
        if spared(before, vars, list, k, j, ints, bools) {
            assert forall|l: int, h: int|
                0 <= l < list.len() && 0 <= h < vars.len() && h != list[l] && (l < k || (l == k && h
                    < j + 1)) implies #[trigger] takes_not(
                before,
                vars,
                list[l] as int,
                h,
                ints,
                bools,
            ) by {}
        }
    }
}

proof fn lemma_spared_row(
    before: &SolvingContext,
    ctx: &SolvingContext,
    vars: Seq<IntView>,
    list: Seq<usize>,
    k: int,
)
    requires
        removed_only(before, ctx, vars, list, k, vars.len() as int),
        0 <= k < list.len(),
    ensures
        removed_only(before, ctx, vars, list, k + 1, 0),
{
    assert forall|ints: IntAssignment, bools: BoolAssignment| #[trigger]
        spared(before, vars, list, k + 1, 0, ints, bools) == spared(
            before,
            vars,
            list,
            k,
            vars.len() as int,
            ints,
            bools,
        ) by {
        if spared(before, vars, list, k, vars.len() as int, ints, bools) {
            assert forall|l: int, h: int|
                0 <= l < list.len() && 0 <= h < vars.len() && h != list[l] && (l < k + 1 || (l == k
                    + 1 && h < 0)) implies #[trigger] takes_not(
                before,
                vars,
                list[l] as int,
                h,
                ints,
                bools,
            ) by {}
        }
        if spared(before, vars, list, k + 1, 0, ints, bools) {
            assert forall|l: int, h: int|
                0 <= l < list.len() && 0 <= h < vars.len() && h != list[l] && (l < k || (l == k && h
                    < vars.len())) implies #[trigger] takes_not(
                before,
                vars,
                list[l] as int,
                h,
                ints,
                bools,
            ) by {}
        }
    }
}

/// A fixed view stays fixed to its value.
proof fn lemma_fixed_value(before: &SolvingContext, after: &SolvingContext, view: IntView)
    requires
        before.wf(),
        after.wf(),
        after.grows(before),
        after.narrows(before),
        before.has_view(view),
        before.view_min(view) == before.view_max(view),
    ensures
        after.view_min(view) == before.view_min(view),
        after.view_max(view) == before.view_min(view),
{
    lemma_view_narrowed(before, after, view);
    let ((ints, bools), _) = lemma_bounds_taken(after, view);
    lemma_view_bounds(after, view, ints, bools);
}

/// What simplifying a constraint showed.
#[derive(Clone, Copy, Debug, PartialEq, Eq, Hash, Structural)]
pub enum SimplificationStatus {
    /// The constraint may be simplified further.
    NoFixpoint,
    /// The constraint is kept by all assignments.
    Subsumed,
}

/// The constraint that integer views take different values.
#[derive(Debug, PartialEq, Eq, Hash)]
pub struct IntUnique {
    /// The bounds consistent propagator.
    pub bounds_prop: IntUniqueBounds,
    /// The value consistent propagator.
    pub value_prop: IntUniqueValue,
    /// Whether the bounds consistent propagator is to be used, if that was set.
    pub bounds_propagation: Option<bool>,
    /// Whether the value consistent propagator is to be used, if that was set.
    pub value_propagation: Option<bool>,
    /// Whether the propagator that compares with the last fixed point is to be used instead of
    /// the bounds consistent one, if that was set.
    pub cumulative_slack_propagation: Option<bool>,
}

/// Whether the views that were reported to be fixed are so.
pub open spec fn actions_fixed(
    ctx: &SolvingContext,
    vars: Seq<IntView>,
    action_list: Seq<usize>,
) -> bool {
    forall|k: int|
        0 <= k < action_list.len() ==> #[trigger] action_list[k] < vars.len() && ctx.view_min(
            vars[action_list[k] as int],
        ) == ctx.view_max(vars[action_list[k] as int])
}

impl IntUnique {
    /// Whether the constraints have the same views and settings.
    pub open spec fn same_settings(&self, other: &IntUnique) -> bool {
        &&& self.bounds_prop.var == other.bounds_prop.var
        &&& self.value_prop.vars == other.value_prop.vars
        &&& self.bounds_propagation == other.bounds_propagation
        &&& self.value_propagation == other.value_propagation
        &&& self.cumulative_slack_propagation == other.cumulative_slack_propagation
    }

    /// Whether the values of the views that were reported to be fixed were removed from the
    /// others.
    pub open spec fn values_gone(&self, before: &SolvingContext, after: &SolvingContext) -> bool {
        forall|k: int, j: int|
            #![trigger self.value_prop.action_list@[k], self.value_prop.vars@[j]]
            0 <= k < self.value_prop.action_list.len() && 0 <= j < self.value_prop.vars.len() && j
                != self.value_prop.action_list[k] ==> values_removed(
                before,
                after,
                self.value_prop.vars@,
                self.value_prop.action_list[k] as int,
                j,
            )
    }

    /// Whether the domains are those left when the values of the views that were reported to be
    /// fixed are removed from the others, and nothing else.
    pub open spec fn leaves(&self, before: &SolvingContext, mid: &SolvingContext) -> bool {
        removed_only(
            before,
            mid,
            self.value_prop.vars@,
            self.value_prop.action_list@,
            self.value_prop.action_list.len() as int,
            0,
        )
    }

    /// Whether the bounds that are left once the values of the views that were reported to be
    /// fixed are removed, as `then` has them, are consistent at the end.
    pub open spec fn settled(
        &self,
        then: &IntUnique,
        before: &SolvingContext,
        after: &SolvingContext,
    ) -> bool {
        exists|mid: SolvingContext|
            {
                &&& #[trigger] self.leaves(before, &mid)
                &&& mid.wf()
                &&& has_views(&mid, self.bounds_prop.var@)
                &&& mid.between(before, after)
                &&& then.bounds_prop.ranked_in(&mid)
                &&& bounds_consistent(&then.bounds_prop.ranking, after, self.bounds_prop.var@)
                &&& all_for_values(
                    before,
                    &mid,
                    self.value_prop.vars@,
                    self.value_prop.action_list@,
                )
                &&& all_pushed_out(self.bounds_prop.var@, &mid, after, true, true)
            }
    }

    /// The two propagators have the same views.
    pub open spec fn wf(&self) -> bool {
        &&& self.bounds_prop.wf()
        &&& self.bounds_prop.var@ == self.value_prop.vars@
    }

    /// The constraint on the given views, with the usual propagators.
    pub fn new(vars: Vec<IntView>) -> (r: IntUnique)
        requires
            2 * vars.len() + 2 < usize::MAX,
        ensures
            r.wf(),
            r.bounds_prop.var@ == vars@,
            r.value_prop.action_list@ == Seq::<usize>::empty(),
            r.bounds_propagation is None,
            r.value_propagation is None,
            r.cumulative_slack_propagation is None,
    {
        let copy: Vec<IntView> = copy_views(&vars);
        IntUnique {
            bounds_prop: IntUniqueBounds::new(copy),
            value_prop: IntUniqueValue::new(vars),
            bounds_propagation: None,
            value_propagation: None,
            cumulative_slack_propagation: None,
        }
    }

    /// Whether the bounds consistent propagator is to be used. By default it is.
    pub fn bounds_propagation(&self) -> (r: bool)
        ensures
            r == match self.bounds_propagation {
                Some(b) => b,
                None => true,
            },
    {
        match self.bounds_propagation {
            Some(b) => b,
            None => true,
        }
    }

    /// Whether the value consistent propagator is to be used. By default it is not.
    pub fn value_propagation(&self) -> (r: bool)
        ensures
            r == match self.value_propagation {
                Some(b) => b,
                None => false,
            },
    {
        match self.value_propagation {
            Some(b) => b,
            None => false,
        }
    }

    /// Whether the propagator that compares with the last fixed point is to be used. By default
    /// it is not.
    pub fn cumulative_slack_propagation(&self) -> (r: bool)
        ensures
            r == match self.cumulative_slack_propagation {
                Some(b) => b,
                None => false,
            },
    {
        match self.cumulative_slack_propagation {
            Some(b) => b,
            None => false,
        }
    }

    /// Ask for what both propagators ask for.
    pub fn initialize(&mut self, state: &SolvingContext, ctx: &mut InitializationContext)
        requires
            old(self).wf(),
            state.wf(),
            has_views(state, old(self).value_prop.vars@),
            old(self).value_prop.vars.len() <= u64::MAX,
        ensures
            final(self).wf(),
            final(self).bounds_prop == old(self).bounds_prop,
            final(self).same_settings(old(self)),
            final(self).value_prop.action_list@ == old(self).value_prop.action_list@
                + IntUniqueValue::positions(
                old(self).value_prop.vars@,
                state,
                true,
                old(self).value_prop.vars.len() as int,
            ).map_values(|i: int| i as usize),
            final(ctx).priority == PriorityLevel::Low,
            final(ctx).backtrack,
            final(ctx).enqueue == (old(ctx).enqueue || IntUniqueValue::positions(
                old(self).value_prop.vars@,
                state,
                true,
                old(self).value_prop.vars.len() as int,
            ).len() > 0),
            final(ctx).int_advice@ == old(ctx).int_advice@ + IntUniqueValue::positions(
                old(self).value_prop.vars@,
                state,
                false,
                old(self).value_prop.vars.len() as int,
            ).map_values(
                |i: int|
                    IntAdvice {
                        view: old(self).value_prop.vars@[i],
                        cond: IntPropCond::Fixed,
                        data: i as u64,
                    },
            ),
            final(ctx).bool_advice == old(ctx).bool_advice,
            final(ctx).triggers@ == old(ctx).triggers@ + Seq::new(
                old(self).bounds_prop.var@.len(),
                |i: int| IntTrigger { view: old(self).bounds_prop.var@[i], cond: IntPropCond::Bounds },
            ),
    {
        self.value_prop.initialize(state, ctx);
        self.bounds_prop.initialize(ctx);
    }

    /// Forget the views that were reported to be fixed.
    pub fn advise_of_backtrack(&mut self)
        ensures
            old(self).wf() ==> final(self).wf(),
            final(self).bounds_prop == old(self).bounds_prop,
            final(self).same_settings(old(self)),
            final(self).value_prop.action_list@ == Seq::<usize>::empty(),
    {
        self.value_prop.advise_of_backtrack();
    }

    /// Remember that the view at index `data` was fixed. The propagator is to be run.
    pub fn advise_of_int_change(&mut self, data: u64, event: IntEvent) -> (r: bool)
        requires
            data < old(self).value_prop.vars.len(),
            event == IntEvent::Fixed,
        ensures
            r,
            old(self).wf() ==> final(self).wf(),
            final(self).bounds_prop == old(self).bounds_prop,
            final(self).same_settings(old(self)),
            final(self).value_prop.action_list@ == old(self).value_prop.action_list@.push(
                data as usize,
            ),
    {
        self.value_prop.advise_of_int_change(data, event)
    }

    /// Remove the values of the views that were reported to be fixed from the others, and then
    /// tighten the bounds.
    pub fn propagate(&mut self, ctx: &mut SolvingContext) -> (r: Result<(), Conflict>)
        requires
            old(self).wf(),
            old(self).bounds_prop.var.len() > 0,
            old(ctx).wf(),
            has_views(old(ctx), old(self).bounds_prop.var@),
            actions_fixed(
                old(ctx),
                old(self).value_prop.vars@,
                old(self).value_prop.action_list@,
            ),
        ensures
            final(self).wf(),
            final(self).same_settings(old(self)),
            final(ctx).infers(old(ctx), all_different(old(self).bounds_prop.var@), r),
            final(ctx).trail == old(ctx).trail,
            has_views(final(ctx), old(self).bounds_prop.var@),
            r is Err ==> final(self).value_prop.action_list@ == old(self).value_prop.action_list@
                || final(self).value_prop.action_list@ == Seq::<usize>::empty(),
            r is Ok ==> {
                &&& final(self).value_prop.action_list@ == Seq::<usize>::empty()
                &&& old(self).values_gone(old(ctx), final(ctx))
                &&& old(self).settled(final(self), old(ctx), final(ctx))
            },
    {
        let ghost before = *ctx;
        let ghost rule = all_different(self.bounds_prop.var@);
        proof {
            lemma_infers_nothing(&before, rule);
        }
        if self.value_prop.action_list.len() > 0 {
            let r: Result<(), Conflict> = self.value_prop.propagate(ctx);
            if r.is_err() {
                return r;
            }
        } else {
            proof {
                assert(self.value_prop.action_list@ =~= Seq::<usize>::empty());
                assert(old(self).leaves(&before, ctx));
            }
        }
        let ghost mid = *ctx;
        let r: Result<(), Conflict> = self.bounds_prop.propagate(ctx);
        proof {
            lemma_infers_join(&before, &mid, ctx, rule, r);
            if r is Ok {
                assert(mid.between(&before, ctx));
                assert(old(self).leaves(&before, &mid));
                assert(old(self).settled(self, &before, ctx));
                assert forall|k: int, j: int|
                    #![trigger old(self).value_prop.action_list@[k], old(self).value_prop.vars@[j]]
                    0 <= k < old(self).value_prop.action_list.len() && 0 <= j < old(
                        self,
                    ).value_prop.vars.len() && j != old(
                        self,
                    ).value_prop.action_list[k] implies values_removed(
                    &before,
                    ctx,
                    old(self).value_prop.vars@,
                    old(self).value_prop.action_list[k] as int,
                    j,
                ) by {
                    assert forall|ints: IntAssignment, bools: BoolAssignment| #[trigger]
                        ctx.admits(ints, bools) implies mid.admits(ints, bools) by {
                        lemma_narrows_admits(ctx, &mid, ints, bools);
                    }
                }
            }
        }
        r
    }

    /// Propagate the constraint before the search. It is never known to be subsumed.
    pub fn simplify(&mut self, ctx: &mut SolvingContext) -> (r: Result<
        SimplificationStatus,
        Conflict,
    >)
        requires
            old(self).wf(),
            old(self).bounds_prop.var.len() > 0,
            old(ctx).wf(),
            has_views(old(ctx), old(self).bounds_prop.var@),
            actions_fixed(
                old(ctx),
                old(self).value_prop.vars@,
                old(self).value_prop.action_list@,
            ),
        ensures
            final(self).wf(),
            final(self).same_settings(old(self)),
            final(ctx).infers(
                old(ctx),
                all_different(old(self).bounds_prop.var@),
                match r {
                    Ok(_) => Ok(()),
                    Err(conflict) => Err(conflict),
                },
            ),
            r matches Ok(status) ==> {
                &&& status == SimplificationStatus::NoFixpoint
                &&& final(self).value_prop.action_list@ == Seq::<usize>::empty()
                &&& old(self).values_gone(old(ctx), final(ctx))
                &&& old(self).settled(final(self), old(ctx), final(ctx))
            },
    {
        match self.propagate(ctx) {
            Ok(()) => Ok(SimplificationStatus::NoFixpoint),
            Err(conflict) => Err(conflict),
        }
    }
}

/// Whether the view takes only values from `lo` to `hi`, once the values of the views that were
/// reported to be fixed are removed from the others.
pub open spec fn confined(
    unique: &IntUnique,
    ctx: &SolvingContext,
    v: int,
    lo: int,
    hi: int,
) -> bool {
    forall|ints: IntAssignment, bools: BoolAssignment|
        ctx.admits(ints, bools) && #[trigger] spared(
            ctx,
            unique.value_prop.vars@,
            unique.value_prop.action_list@,
            unique.value_prop.action_list.len() as int,
            0,
            ints,
            bools,
        ) ==> lo <= unique.bounds_prop.var@[v].eval(ints, bools) <= hi
}

/// Gaps count: if a run succeeds, no interval holds more views than it has values, even once the
/// values of the views that were reported to be fixed are removed from the others.
pub proof fn lemma_gaps_count(
    unique: &IntUnique,
    then: &IntUnique,
    before: &SolvingContext,
    after: &SolvingContext,
    views: Set<int>,
    lo: int,
    hi: int,
)
    requires
        unique.wf(),
        then.bounds_prop.var@ == unique.bounds_prop.var@,
        unique.settled(then, before, after),
        lo <= hi,
        forall|v: int| #[trigger]
            views.contains(v) ==> 0 <= v < unique.bounds_prop.var@.len() && confined(
                unique,
                before,
                v,
                lo,
                hi,
            ),
    ensures
        views.finite(),
        views.len() <= hi - lo + 1,
{
    let vars = unique.bounds_prop.var@;
    let mid = choose|mid: SolvingContext|
        {
            &&& #[trigger] unique.leaves(before, &mid)
            &&& mid.wf()
            &&& has_views(&mid, vars)
            &&& mid.between(before, after)
            &&& then.bounds_prop.ranked_in(&mid)
            &&& bounds_consistent(&then.bounds_prop.ranking, after, vars)
            &&& all_for_values(
                before,
                &mid,
                unique.value_prop.vars@,
                unique.value_prop.action_list@,
            )
            &&& all_pushed_out(vars, &mid, after, true, true)
        };
    let lb = then.bounds_prop.ranking.lb@;
    let ub = then.bounds_prop.ranking.ub@;
    let inside = held(lb, ub, lo, hi + 1);
    assert forall|v: int| #[trigger] views.contains(v) implies inside.contains(v) by {
        assert(mid.has_view(vars[v]));
        let (low, high) = lemma_bounds_taken(&mid, vars[v]);
        assert(mid.admits(low.0, low.1) && mid.admits(high.0, high.1));
        assert(confined(unique, before, v, lo, hi));
        assert(spared(
            before,
            unique.value_prop.vars@,
            unique.value_prop.action_list@,
            unique.value_prop.action_list.len() as int,
            0,
            low.0,
            low.1,
        ));
        assert(spared(
            before,
            unique.value_prop.vars@,
            unique.value_prop.action_list@,
            unique.value_prop.action_list.len() as int,
            0,
            high.0,
            high.1,
        ));
        assert(lb[v] == mid.view_min(vars[v]));
        assert(ub[v] == mid.view_max(vars[v]));
    }
    assert(views.subset_of(inside));
    assert(inside.finite());
    vstd::set_lib::lemma_len_subset(views, inside);
}

/// A copy of the views.
pub fn copy_views(views: &Vec<IntView>) -> (r: Vec<IntView>)
    ensures
        r@ == views@,
{
    let mut r: Vec<IntView> = Vec::new();
    let mut i: usize = 0;
    while i < views.len()
        invariant
            i <= views.len(),
            r@ == views@.take(i as int),
        decreases views.len() - i,
    {
        r.push(views[i]);
        proof {
            assert(views@.take(i + 1) =~= views@.take(i as int).push(views@[i as int]));
        }
        i = i + 1;
    }
    proof {
        assert(views@.take(views.len() as int) =~= views@);
    }
    r
}

/// The views that take only values from `p` up to, but not including, `q`.
pub open spec fn inside(ctx: &SolvingContext, vars: Seq<IntView>, p: int, q: int) -> Set<int> {
    Set::new(
        |v: int|
            0 <= v < vars.len() && p <= ctx.view_min(vars[v]) && ctx.view_max(vars[v]) < q,
    )
}

/// After bounds were propagated no interval of values was taken up by more views than it has
/// values, and where views took it up, every other view that started or ended in it has its bound
/// moved out.
pub proof fn lemma_intervals_respected(
    prop: &IntUniqueBounds,
    before: &SolvingContext,
    after: &SolvingContext,
    p: int,
    q: int,
)
    requires
        before.wf(),
        has_views(before, prop.var@),
        prop.ranked_in(before),
        bounds_consistent(&prop.ranking, after, prop.var@),
        p < q,
    ensures
        inside(before, prop.var@, p, q).finite(),
        inside(before, prop.var@, p, q).len() <= q - p,
        inside(before, prop.var@, p, q).len() == q - p ==> forall|v: int|
            0 <= v < prop.var.len() ==> {
                let view = #[trigger] prop.var[v];
                &&& p <= before.view_min(view) < q <= before.view_max(view) ==> after.view_min(view)
                    >= q
                &&& before.view_min(view) < p <= before.view_max(view) < q ==> after.view_max(view)
                    < p
            },
{
    let (lb, ub) = (prop.ranking.lb@, prop.ranking.ub@);
    let vars = prop.var@;
    let (p2, q2) = (1 - q, 1 - p);
    assert forall|v: int| 0 <= v < vars.len() implies #[trigger] lb[v] == before.view_min(vars[v])
        && ub[v] == before.view_max(vars[v]) && negated(lb)[v] == -lb[v] && negated(ub)[v]
        == -ub[v] by {
        assert(prop.ranking.lb[v] == before.view_min(prop.var[v]));
        assert(prop.ranking.ub[v] == before.view_max(prop.var[v]));
        assert(before.has_view(vars[v]));
        let ((ints, bools), _) = lemma_bounds_taken(before, vars[v]);
        lemma_view_bounds(before, vars[v], ints, bools);
    }
    let set = inside(before, vars, p, q);
    assert(held(lb, ub, p, q) =~= set) by {
        assert forall|v: int| #[trigger] held(lb, ub, p, q).contains(v) == set.contains(v) by {
            if 0 <= v < vars.len() {
                assert(lb[v] == before.view_min(vars[v]));
            }
        }
    }
    assert(held(negated(ub), negated(lb), p2, q2) =~= set) by {
        assert forall|v: int| #[trigger] held(negated(ub), negated(lb), p2, q2).contains(v)
            == set.contains(v) by {
            if 0 <= v < vars.len() {
                assert(lb[v] == before.view_min(vars[v]));
            }
        }
    }
    if set.len() == q - p {
        assert forall|v: int| 0 <= v < prop.var.len() implies {
            let view = #[trigger] prop.var[v];
            &&& p <= before.view_min(view) < q <= before.view_max(view) ==> after.view_min(view)
                >= q
            &&& before.view_min(view) < p <= before.view_max(view) < q ==> after.view_max(view) < p
        } by {
            let view = prop.var[v];
            assert(lb[v] == before.view_min(vars[v]));
            if p <= before.view_min(view) < q <= before.view_max(view) {
                assert(signed_mins(after, vars, false)[v] >= q);
            }
            if before.view_min(view) < p <= before.view_max(view) < q {
                assert(signed_mins(after, vars, true)[v] >= q2);
            }
        }
    }
}

/// The positions of fixed views, or of others, are exactly those, in increasing order: every view
/// is either acted on at once, or reported once it is fixed.
pub proof fn lemma_positions_exact(
    vars: Seq<IntView>,
    ctx: &SolvingContext,
    fixed: bool,
    upto: int,
)
    requires
        ctx.wf(),
        has_views(ctx, vars),
        0 <= upto <= vars.len(),
    ensures
        forall|i: int|
            #![trigger vars[i]]
            0 <= i < upto ==> (IntUniqueValue::positions(vars, ctx, fixed, upto).contains(i) <==> (
            ctx.view_min(vars[i]) < ctx.view_max(vars[i])) != fixed),
        forall|k: int|
            0 <= k < IntUniqueValue::positions(vars, ctx, fixed, upto).len() ==> 0
                <= #[trigger] IntUniqueValue::positions(vars, ctx, fixed, upto)[k] < upto,
        forall|k: int, l: int|
            0 <= k < l < IntUniqueValue::positions(vars, ctx, fixed, upto).len()
                ==> #[trigger] IntUniqueValue::positions(vars, ctx, fixed, upto)[k]
                < #[trigger] IntUniqueValue::positions(vars, ctx, fixed, upto)[l],
    decreases upto,
{
    let all = IntUniqueValue::positions(vars, ctx, fixed, upto);
    if upto > 0 {
        lemma_positions_exact(vars, ctx, fixed, upto - 1);
        let rest = IntUniqueValue::positions(vars, ctx, fixed, upto - 1);
        let last = vars[upto - 1];
        assert(ctx.has_view(last));
        lemma_view_bounds_ordered(ctx, last);
        assert forall|i: int|
            #![trigger vars[i]]
            0 <= i < upto implies (all.contains(i) <==> (ctx.view_min(vars[i]) < ctx.view_max(
            vars[i],
        )) != fixed) by {
            if all.contains(i) {
                let k = all.index_of(i);
                if k < rest.len() {
                    assert(rest[k] == i);
                }
            }
            if i < upto - 1 {
                if rest.contains(i) {
                    let k = rest.index_of(i);
                    assert(all[k] == i);
                }
            } else if all.len() > rest.len() {
                assert(all[rest.len() as int] == i);
            } else if rest.contains(i) {
                let k = rest.index_of(i);
                assert(rest[k] < upto - 1);
            }
        }
    }
}

/// Where all fixed views were acted on, no assignment that is left gives one of them the value of
/// another view.
pub proof fn lemma_fixed_stay_apart(
    before: &SolvingContext,
    after: &SolvingContext,
    vars: Seq<IntView>,
    list: Seq<usize>,
    i: int,
    j: int,
    ints: IntAssignment,
    bools: BoolAssignment,
)
    requires
        before.wf(),
        has_views(before, vars),
        after.grows(before),
        after.narrows(before),
        forall|v: int|
            0 <= v < vars.len() && before.view_min(#[trigger] vars[v]) == before.view_max(vars[v])
                ==> list.contains(v as usize),
        forall|k: int, h: int|
            #![trigger list[k], vars[h]]
            0 <= k < list.len() && 0 <= h < vars.len() && h != list[k] ==> values_removed(
                before,
                after,
                vars,
                list[k] as int,
                h,
            ),
        vars.len() <= usize::MAX,
        0 <= i < vars.len(),
        0 <= j < vars.len(),
        i != j,
        before.view_min(vars[i]) == before.view_max(vars[i]),
        after.admits(ints, bools),
    ensures
        vars[j].eval(ints, bools) != vars[i].eval(ints, bools),
{
    let k = list.index_of(i as usize);
    assert(list[k] == i);
    assert(values_removed(before, after, vars, list[k] as int, j));
    lemma_narrows_admits(after, before, ints, bools);
    assert(before.has_view(vars[i]));
    lemma_view_bounds(before, vars[i], ints, bools);
}

} // verus!
