//! The engine: its propagators, its branchers, and the context in which they act.

use vstd::prelude::*;

use crate::constraints::cumulative_slack::IntUniqueBoundsCumulativeSlack;
use crate::constraints::diff_lit::{lemma_in_order_narrowed, lits_stand};
use crate::constraints::diff_propagation::{gates_refused, put_off};
use crate::constraints::diff_propagator::{
    advised, lemma_in_order_same, lemma_tracked_in_order, propagation_done,
    DifferenceLogicPropagator,
};
use crate::constraints::difference_logic::{
    diff_rule, lemma_decides_narrowed, lemma_same_rule, DiffLogicState,
};
use crate::constraints::int_unique::{
    actions_fixed, all_different, all_for_values, all_pushed_out, bounds_consistent, copy_views,
    has_views, lemma_positions_exact, lemma_views_narrowed, removed_only, values_removed, IntUnique,
    IntUniqueBounds, IntUniqueValue,
};
use crate::helpers::trail::Trailed;
use crate::solver::brancher::DiffLogicBrancher;
use crate::solver::inference::none_later;
use crate::solver::initialization::{InitializationContext, IntAdvice, IntTrigger, PriorityLevel};
use crate::solver::int_view::lemma_view_bounds_ordered;
use crate::solver::reason::Conflict;
use crate::solver::solving_context::{
    Deferral, IntPropCond, Rule, SolvingContext, Statistics,
};
use crate::solver::view::{BoolAssignment, IntAssignment, IntView, INT_LIMIT};

verus! {

/// A propagator of the engine.
pub enum PropagatorKind {
    /// Bounds consistent propagation of different values.
    UniqueBounds(IntUniqueBounds),
    /// Value consistent propagation of different values.
    UniqueValue(IntUniqueValue),
    /// Bounds consistent propagation of different values that compares with the last fixed
    /// point.
    UniqueCumulativeSlack(IntUniqueBoundsCumulativeSlack),
    /// Propagation of the difference constraints of the engine.
    DifferenceLogic,
}

impl PropagatorKind {
    /// The rule that the propagator enforces.
    pub open spec fn rule(&self, diff: &DiffLogicState) -> Rule {
        match self {
            PropagatorKind::UniqueBounds(p) => all_different(p.var@),
            PropagatorKind::UniqueValue(p) => all_different(p.vars@),
            PropagatorKind::UniqueCumulativeSlack(p) => all_different(p.vars()),
            PropagatorKind::DifferenceLogic => diff_rule(&diff.graph),
        }
    }

    /// Whether the propagator can be run.
    pub open spec fn ready(&self, ctx: &SolvingContext, diff: &DiffLogicState) -> bool {
        &&& ctx.wf()
        &&& match self {
            PropagatorKind::UniqueBounds(p) => p.wf() && p.var.len() > 0 && has_views(ctx, p.var@),
            PropagatorKind::UniqueValue(p) => has_views(ctx, p.vars@) && actions_fixed(
                ctx,
                p.vars@,
                p.action_list@,
            ),
            PropagatorKind::UniqueCumulativeSlack(p) => p.wf() && p.vars().len() > 0 && has_views(
                ctx,
                p.vars(),
            ),
            PropagatorKind::DifferenceLogic => diff.in_order(ctx) && forall|b: usize| #[trigger]
                diff.fixed_bools@.contains(b) ==> ctx.decides(diff.graph.bool_vars[b as int], true)
                    || ctx.decides(diff.graph.bool_vars[b as int], false),
        }
    }

    /// What is known of the reasons that the propagator builds later.
    pub open spec fn deferral(&self, diff: &DiffLogicState, ctx: &SolvingContext) -> Deferral {
        match self {
            PropagatorKind::DifferenceLogic => put_off(diff, ctx),
            _ => none_later(),
        }
    }

    /// Whether a run without a conflict did what the propagator is for.
    pub open spec fn done(
        &self,
        ctx0: &SolvingContext,
        diff0: &DiffLogicState,
        after: &PropagatorKind,
        ctx: &SolvingContext,
        diff: &DiffLogicState,
    ) -> bool {
        match (self, after) {
            (PropagatorKind::UniqueBounds(p), PropagatorKind::UniqueBounds(q)) => {
                &&& q.var == p.var
                &&& q.ranked_in(ctx0)
                &&& bounds_consistent(&q.ranking, ctx, p.var@)
                &&& all_pushed_out(p.var@, ctx0, ctx, true, true)
            },
            (PropagatorKind::UniqueValue(p), PropagatorKind::UniqueValue(q)) => {
                &&& q.vars == p.vars
                &&& q.action_list@.len() == 0
                &&& forall|k: int, j: int|
                    #![trigger p.action_list@[k], p.vars@[j]]
                    0 <= k < p.action_list.len() && 0 <= j < p.vars.len() && j != p.action_list[k]
                        ==> values_removed(ctx0, ctx, p.vars@, p.action_list[k] as int, j)
                &&& removed_only(
                    ctx0,
                    ctx,
                    p.vars@,
                    p.action_list@,
                    p.action_list.len() as int,
                    0,
                )
                &&& all_for_values(ctx0, ctx, p.vars@, p.action_list@)
            },
            (
                PropagatorKind::UniqueCumulativeSlack(p),
                PropagatorKind::UniqueCumulativeSlack(q),
            ) => {
                &&& q.bounds.var == p.bounds.var
                &&& q.cache_valid
                &&& exists|mid: SolvingContext, full: bool| #[trigger]
                    p.ran(ctx0, q, mid, ctx, full, true)
            },
            (PropagatorKind::DifferenceLogic, PropagatorKind::DifferenceLogic) => {
                &&& propagation_done(diff0, ctx0, diff, ctx)
                &&& exists|first: int, last: int| #[trigger]
                    gates_refused(diff, ctx0, ctx, first, last) && diff0.all_told(
                        ctx0,
                        ctx,
                        first,
                    )
            },
            _ => false,
        }
    }

    /// Run the propagator.
    pub fn propagate(&mut self, ctx: &mut SolvingContext, diff: &mut DifferenceLogicPropagator)
        -> (r: Result<(), Conflict>)
        requires
            old(self).ready(old(ctx), &old(diff).graph),
        ensures
            final(ctx).infers_later(
                old(ctx),
                old(self).rule(&old(diff).graph),
                old(self).deferral(&old(diff).graph, final(ctx)),
                r,
            ),
            final(self).rule(&final(diff).graph) == old(self).rule(&old(diff).graph),
            diff_rule(&final(diff).graph.graph) == diff_rule(&old(diff).graph.graph),
            *old(self) is DifferenceLogic <==> *final(self) is DifferenceLogic,
            !(*old(self) is DifferenceLogic) ==> *final(diff) == *old(diff) && final(ctx).trail
                == old(ctx).trail,
            r is Ok ==> final(self).ready(final(ctx), &final(diff).graph),
            r is Ok ==> old(self).done(
                old(ctx),
                &old(diff).graph,
                final(self),
                final(ctx),
                &final(diff).graph,
            ),
    {
        let ghost ctx0 = *ctx;
        let ghost rule = self.rule(&diff.graph);
        match self {
            PropagatorKind::UniqueBounds(p) => p.propagate(ctx),
            PropagatorKind::UniqueValue(p) => p.propagate(ctx),
            PropagatorKind::UniqueCumulativeSlack(p) => p.propagate(ctx),
            PropagatorKind::DifferenceLogic => {
                let ghost st0 = diff.graph;
                let r: Result<(), Conflict> = diff.propagate(ctx);
                proof {
                    lemma_same_rule(&st0.graph, &diff.graph.graph);
                }
                r
            },
        }
    }
}

/// A propagator can be run after another one has narrowed the domains.
proof fn lemma_ready_narrowed(
    p: &PropagatorKind,
    before: &SolvingContext,
    ctx: &SolvingContext,
    diff: &DiffLogicState,
)
    requires
        p.ready(before, diff),
        ctx.wf(),
        ctx.grows(before),
        ctx.narrows(before),
        p is DifferenceLogic ==> ctx.trail == before.trail,
    ensures
        p.ready(ctx, diff),
{
    match p {
        PropagatorKind::UniqueBounds(q) => {
            lemma_views_narrowed(before, ctx, q.var@);
        },
        PropagatorKind::UniqueValue(q) => {
            lemma_views_narrowed(before, ctx, q.vars@);
            assert forall|k: int| 0 <= k < q.action_list.len() implies #[trigger] q.action_list@[k]
                < q.vars.len() && ctx.view_min(q.vars@[q.action_list@[k] as int]) == ctx.view_max(
                q.vars@[q.action_list@[k] as int],
            ) by {
                let v = q.action_list@[k] as int;
                assert(before.view_min(q.vars@[v]) <= ctx.view_min(q.vars@[v]));
                assert(ctx.view_max(q.vars@[v]) <= before.view_max(q.vars@[v]));
                assert(ctx.has_view(q.vars@[v]));
                lemma_view_bounds_ordered(ctx, q.vars@[v]);
            }
        },
        PropagatorKind::UniqueCumulativeSlack(q) => {
            lemma_views_narrowed(before, ctx, q.vars());
        },
        PropagatorKind::DifferenceLogic => {
            lemma_in_order_narrowed(diff, before, ctx);
            assert forall|b: usize| #[trigger] diff.fixed_bools@.contains(b) implies ctx.decides(
                diff.graph.bool_vars[b as int],
                true,
            ) || ctx.decides(diff.graph.bool_vars[b as int], false) by {
                let bv = diff.graph.bool_vars[b as int];
                assert(before.knows(diff.graph.bool_vars[b as int]));
                if before.decides(bv, true) {
                    lemma_decides_narrowed(
                        before,
                        ctx,
                        bv,
                        true,
                    );
                } else {
                    lemma_decides_narrowed(
                        before,
                        ctx,
                        bv,
                        false,
                    );
                }
            }
        },
    }
}

/// Whether a propagator can be run depends on the domains and the trail alone.
proof fn lemma_ready_same(
    p: &PropagatorKind,
    before: &SolvingContext,
    ctx: &SolvingContext,
    diff: &DiffLogicState,
)
    requires
        p.ready(before, diff),
        ctx.ints == before.ints,
        ctx.bools == before.bools,
        ctx.trail == before.trail,
    ensures
        p.ready(ctx, diff),
{
    match p {
        PropagatorKind::UniqueBounds(q) => {
            assert forall|v: int| 0 <= v < q.var@.len() implies ctx.has_view(
                #[trigger] q.var@[v],
            ) by {
                assert(before.has_view(q.var@[v]));
            }
        },
        PropagatorKind::UniqueValue(q) => {
            assert forall|v: int| 0 <= v < q.vars@.len() implies ctx.has_view(
                #[trigger] q.vars@[v],
            ) by {
                assert(before.has_view(q.vars@[v]));
            }
            assert(actions_fixed(ctx, q.vars@, q.action_list@));
        },
        PropagatorKind::UniqueCumulativeSlack(q) => {
            assert forall|v: int| 0 <= v < q.vars().len() implies ctx.has_view(
                #[trigger] q.vars()[v],
            ) by {
                assert(before.has_view(q.vars()[v]));
            }
        },
        PropagatorKind::DifferenceLogic => {
            lemma_in_order_same(diff, before, ctx);
            assert forall|b: usize| #[trigger] diff.fixed_bools@.contains(b) implies ctx.decides(
                diff.graph.bool_vars[b as int],
                true,
            ) || ctx.decides(diff.graph.bool_vars[b as int], false) by {
                let bv = diff.graph.bool_vars[b as int];
                assert(before.decides(bv, true) || before.decides(bv, false));
            }
        },
    }
}

/// The rule that all propagators enforce together.
pub open spec fn all_rules(propagators: Seq<PropagatorKind>, diff: &DiffLogicState) -> Rule {
    |ints: IntAssignment, bools: BoolAssignment|
        forall|k: int|
            0 <= k < propagators.len() ==> (#[trigger] propagators[k]).rule(diff)(ints, bools)
}

/// Whether every propagator can be run.
pub open spec fn all_ready(
    propagators: Seq<PropagatorKind>,
    ctx: &SolvingContext,
    diff: &DiffLogicState,
) -> bool {
    forall|k: int| 0 <= k < propagators.len() ==> (#[trigger] propagators[k]).ready(ctx, diff)
}

/// What a context admits depends on the domains alone.
proof fn lemma_admits_same(
    a: &SolvingContext,
    b: &SolvingContext,
    ints: IntAssignment,
    bools: BoolAssignment,
)
    requires
        a.ints == b.ints,
        a.bools == b.bools,
    ensures
        a.admits(ints, bools) == b.admits(ints, bools),
{
    if a.admits(ints, bools) {
        assert forall|v: int| 0 <= v < b.ints.len() implies (#[trigger] b.ints[v]).has(
            ints(v),
        ) by {
            assert(a.ints[v].has(ints(v)));
        }
        assert forall|k: int| 0 <= k < b.bools.len() implies (
        #[trigger] b.bools[k] matches Some(val) ==> val == bools(k)) by {
            assert(a.bools[k] == b.bools[k]);
        }
    }
    if b.admits(ints, bools) {
        assert forall|v: int| 0 <= v < a.ints.len() implies (#[trigger] a.ints[v]).has(
            ints(v),
        ) by {
            assert(b.ints[v].has(ints(v)));
        }
        assert forall|k: int| 0 <= k < a.bools.len() implies (
        #[trigger] a.bools[k] matches Some(val) ==> val == bools(k)) by {
            assert(b.bools[k] == a.bools[k]);
        }
    }
}

/// Running a propagator keeps the rules.
proof fn lemma_rules_kept(
    props1: Seq<PropagatorKind>,
    diff1: &DiffLogicState,
    props2: Seq<PropagatorKind>,
    diff2: &DiffLogicState,
    p: int,
)
    requires
        0 <= p < props1.len(),
        props2 == props1.update(p, props2[p]),
        props2[p].rule(diff2) == props1[p].rule(diff1),
        diff_rule(&diff2.graph) == diff_rule(&diff1.graph),
    ensures
        all_rules(props2, diff2) == all_rules(props1, diff1),
{
    let (a, b) = (all_rules(props2, diff2), all_rules(props1, diff1));
    assert forall|k: int| 0 <= k < props1.len() implies (#[trigger] props2[k]).rule(diff2)
        == props1[k].rule(diff1) by {}
    assert forall|ints: IntAssignment, bools: BoolAssignment|
        #[trigger] a(ints, bools) == b(ints, bools) by {
        if a(ints, bools) {
            assert forall|k: int| 0 <= k < props1.len() implies (#[trigger] props1[k]).rule(diff1)(
                ints,
                bools,
            ) by {
                assert(props2[k].rule(diff2)(ints, bools));
            }
        }
        if b(ints, bools) {
            assert forall|k: int| 0 <= k < props2.len() implies (#[trigger] props2[k]).rule(diff2)(
                ints,
                bools,
            ) by {
                assert(props1[k].rule(diff1)(ints, bools));
            }
        }
    }
    assert(a =~= b);
}

/// Every propagator can be run after one of them was run.
proof fn lemma_ready_after(
    props1: Seq<PropagatorKind>,
    ctx1: &SolvingContext,
    diff1: &DiffLogicState,
    props2: Seq<PropagatorKind>,
    ctx2: &SolvingContext,
    diff2: &DiffLogicState,
    p: int,
    k: int,
)
    requires
        0 <= p < props1.len(),
        0 <= k < props1.len(),
        props2 == props1.update(p, props2[p]),
        props1[k].ready(ctx1, diff1),
        props2[p].ready(ctx2, diff2),
        props1[p] is DifferenceLogic <==> props2[p] is DifferenceLogic,
        !(props1[p] is DifferenceLogic) ==> *diff2 == *diff1 && ctx2.trail == ctx1.trail,
        ctx2.wf(),
        ctx2.grows(ctx1),
        ctx2.narrows(ctx1),
    ensures
        props2[k].ready(ctx2, diff2),
{
    if k != p {
        if !(props1[k] is DifferenceLogic && props1[p] is DifferenceLogic) {
            lemma_ready_narrowed(&props1[k], ctx1, ctx2, diff1);
        }
    }
}

/// Whether the propagator with the number `p` was run.
pub open spec fn ran(
    props0: Seq<PropagatorKind>,
    ctx0: SolvingContext,
    diff0: DiffLogicState,
    p: int,
    props: Seq<PropagatorKind>,
    ctx: SolvingContext,
    diff: DiffLogicState,
    r: Result<(), Conflict>,
) -> bool {
    &&& 0 <= p < props0.len()
    &&& props == props0.update(p, props[p])
    &&& ctx.infers_later(&ctx0, props0[p].rule(&diff0), props0[p].deferral(&diff0, &ctx), r)
    &&& r is Ok ==> props0[p].done(&ctx0, &diff0, &props[p], &ctx, &diff)
}

/// The result of a run with the given conflict.
pub open spec fn run_result(conflict: Option<Conflict>) -> Result<(), Conflict> {
    match conflict {
        None => Ok(()),
        Some(c) => Err(c),
    }
}

/// Whether the contexts have the same domains, consequences and trail.
pub open spec fn same_domains(ctx0: SolvingContext, ctx: SolvingContext) -> bool {
    &&& ctx.ints == ctx0.ints
    &&& ctx.bools == ctx0.bools
    &&& ctx.propagation_queue == ctx0.propagation_queue
    &&& ctx.trail == ctx0.trail
}

/// Whether the propagators of the queue were run one after another, the last one with the given
/// result.
pub open spec fn ran_in_turn(
    props0: Seq<PropagatorKind>,
    ctx0: SolvingContext,
    diff0: DiffLogicState,
    queue: Seq<usize>,
    props: Seq<PropagatorKind>,
    ctx: SolvingContext,
    diff: DiffLogicState,
    r: Result<(), Conflict>,
) -> bool
    decreases queue.len(),
{
    if queue.len() == 0 {
        props == props0 && same_domains(ctx0, ctx) && diff == diff0 && r is Ok
    } else {
        exists|
            props1: Seq<PropagatorKind>,
            ctx1: SolvingContext,
            diff1: DiffLogicState,
            ctx2: SolvingContext,
        |
            ran_in_turn(props0, ctx0, diff0, queue.drop_last(), props1, ctx1, diff1, Ok(()))
                && #[trigger] ran(
                props1,
                ctx1,
                diff1,
                queue.last() as int,
                props,
                ctx2,
                diff,
                r,
            ) && same_domains(ctx2, ctx)
    }
}

/// Propagators that were run stay so when the context changes in other ways.
proof fn lemma_ran_elsewhere(
    props0: Seq<PropagatorKind>,
    ctx0: SolvingContext,
    diff0: DiffLogicState,
    queue: Seq<usize>,
    props: Seq<PropagatorKind>,
    ctx1: SolvingContext,
    ctx: SolvingContext,
    diff: DiffLogicState,
    r: Result<(), Conflict>,
)
    requires
        ran_in_turn(props0, ctx0, diff0, queue, props, ctx1, diff, r),
        same_domains(ctx1, ctx),
    ensures
        ran_in_turn(props0, ctx0, diff0, queue, props, ctx, diff, r),
{
    if queue.len() > 0 {
        let (propsm, ctxm, diffm, ctx2) = choose|
            propsm: Seq<PropagatorKind>,
            ctxm: SolvingContext,
            diffm: DiffLogicState,
            ctx2: SolvingContext,
        |
            ran_in_turn(props0, ctx0, diff0, queue.drop_last(), propsm, ctxm, diffm, Ok(()))
                && #[trigger] ran(
                propsm,
                ctxm,
                diffm,
                queue.last() as int,
                props,
                ctx2,
                diff,
                r,
            ) && same_domains(ctx2, ctx1);
        assert(same_domains(ctx2, ctx));
        assert(ran(propsm, ctxm, diffm, queue.last() as int, props, ctx2, diff, r));
    }
}

/// Another propagator is run.
proof fn lemma_ran_next(
    props0: Seq<PropagatorKind>,
    ctx0: SolvingContext,
    diff0: DiffLogicState,
    queue: Seq<usize>,
    props1: Seq<PropagatorKind>,
    ctx1: SolvingContext,
    diff1: DiffLogicState,
    p: usize,
    props: Seq<PropagatorKind>,
    ctx2: SolvingContext,
    ctx: SolvingContext,
    diff: DiffLogicState,
    r: Result<(), Conflict>,
)
    requires
        ran_in_turn(props0, ctx0, diff0, queue, props1, ctx1, diff1, Ok(())),
        ran(props1, ctx1, diff1, p as int, props, ctx2, diff, r),
        same_domains(ctx2, ctx),
    ensures
        ran_in_turn(props0, ctx0, diff0, queue.push(p), props, ctx, diff, r),
{
    let longer = queue.push(p);
    assert(longer.drop_last() =~= queue);
    assert(longer.last() == p);
    assert(ran_in_turn(props0, ctx0, diff0, longer.drop_last(), props1, ctx1, diff1, Ok(())));
    assert(ran(props1, ctx1, diff1, longer.last() as int, props, ctx2, diff, r));
}

impl SolvingContext {
    /// Run the propagators of the queue until one of them finds a conflict or a consequence, or
    /// until the queue is empty.
    pub fn run_propagators(
        &mut self,
        propagators: &mut Vec<PropagatorKind>,
        diff: &mut DifferenceLogicPropagator,
    )
        requires
            all_ready(old(propagators)@, old(self), &old(diff).graph),
            old(self).wf(),
            !old(self).state.failed,
            old(self).state.conflict is None,
            forall|i: int|
                0 <= i < old(self).state.propagator_queue.len()
                    ==> #[trigger] old(self).state.propagator_queue[i] < old(propagators).len(),
            old(self).state.statistics.propagations + old(self).state.propagator_queue.len()
                <= u64::MAX,
        ensures
            final(self).wf(),
            final(propagators).len() == old(propagators).len(),
            // Some propagators of the queue were run, in their order.
            ({
                let n = old(self).state.propagator_queue.len()
                    - final(self).state.propagator_queue.len();
                &&& 0 <= n
                &&& final(self).state.propagator_queue@ == old(self).state.propagator_queue@.skip(n)
                &&& final(self).state.statistics.propagations
                    == old(self).state.statistics.propagations + n
                &&& old(self).state.propagator_queue.len() > 0 ==> n > 0
            }),
            ran_in_turn(
                old(propagators)@,
                *old(self),
                old(diff).graph,
                old(self).state.propagator_queue@.take(
                    old(self).state.propagator_queue.len()
                        - final(self).state.propagator_queue.len(),
                ),
                final(propagators)@,
                *final(self),
                final(diff).graph,
                run_result(final(self).state.conflict),
            ),
            final(self).state.statistics.conflicts == old(self).state.statistics.conflicts,
            // The run stops for a conflict, for a consequence, or for lack of propagators.
            final(self).state.conflict is Some || final(self).propagation_queue.len() > 0
                || final(self).state.propagator_queue.len() == 0,
            final(self).state.failed == final(self).state.conflict is Some,
            // The domains get narrower, and nothing that keeps the rules is lost.
            final(self).ints.len() == old(self).ints.len(),
            final(self).bools.len() == old(self).bools.len(),
            final(self).narrows(old(self)),
            forall|ints: IntAssignment, bools: BoolAssignment|
                #[trigger] old(self).admits(ints, bools) && all_rules(
                    old(propagators)@,
                    &old(diff).graph,
                )(ints, bools) ==> final(self).admits(ints, bools) && final(self).state.conflict
                    is None,
            all_rules(final(propagators)@, &final(diff).graph) == all_rules(
                old(propagators)@,
                &old(diff).graph,
            ),
            final(self).state.conflict is None ==> all_ready(
                final(propagators)@,
                final(self),
                &final(diff).graph,
            ),
    {
        let ghost ctx0 = *self;
        let ghost props0 = propagators@;
        let ghost diff0 = diff.graph;
        let ghost rule = all_rules(propagators@, &diff.graph);
        let ghost mut n: int = 0;
        proof {
            assert(ctx0.state.propagator_queue@.skip(0) =~= ctx0.state.propagator_queue@);
        }
        while self.state.propagator_queue.len() > 0
            invariant
                ctx0 == *old(self),
                props0 == old(propagators)@,
                diff0 == old(diff).graph,
                self.wf(),
                propagators.len() == props0.len(),
                all_ready(propagators@, self, &diff.graph),
                !self.state.failed,
                self.state.conflict is None,
                0 <= n <= ctx0.state.propagator_queue.len(),
                self.state.propagator_queue@ == ctx0.state.propagator_queue@.skip(n),
                forall|i: int|
                    0 <= i < ctx0.state.propagator_queue.len()
                        ==> #[trigger] ctx0.state.propagator_queue[i] < propagators.len(),
                self.state.statistics.propagations == ctx0.state.statistics.propagations + n,
                self.state.statistics.conflicts == ctx0.state.statistics.conflicts,
                ctx0.state.statistics.propagations + ctx0.state.propagator_queue.len() <= u64::MAX,
                self.ints.len() == ctx0.ints.len(),
                self.bools.len() == ctx0.bools.len(),
                self.narrows(&ctx0),
                ran_in_turn(
                    props0,
                    ctx0,
                    diff0,
                    ctx0.state.propagator_queue@.take(n),
                    propagators@,
                    *self,
                    diff.graph,
                    Ok(()),
                ),
                rule == all_rules(props0, &diff0),
                all_rules(propagators@, &diff.graph) == rule,
                forall|ints: IntAssignment, bools: BoolAssignment|
                    #[trigger] ctx0.admits(ints, bools) && rule(ints, bools) ==> self.admits(
                        ints,
                        bools,
                    ),
                ctx0.state.propagator_queue.len() > 0 && n == 0 ==> self.state.propagator_queue.len()
                    > 0,
            decreases ctx0.state.propagator_queue.len() - n,
        {
            let ghost queue = self.state.propagator_queue@;
            let ghost ctx_s = *self;
            let p: usize = self.state.propagator_queue.remove(0);
            proof {
                assert(queue[0] == ctx0.state.propagator_queue@[n]);
                assert(self.state.propagator_queue@ =~= ctx0.state.propagator_queue@.skip(n + 1));
            }
            self.current_prop = p;
            let ghost ctx1 = *self;
            let ghost props1 = propagators@;
            let ghost diff1 = diff.graph;
            proof {
                assert forall|k: int| 0 <= k < props1.len() implies (#[trigger] props1[k]).ready(
                    &ctx1,
                    &diff1,
                ) by {
                    lemma_ready_same(&props1[k], &ctx_s, &ctx1, &diff1);
                }
                assert(props1[p as int].ready(&ctx1, &diff1));
            }
            let res: Result<(), Conflict> = propagators[p].propagate(self, diff);
            let ghost ctx2 = *self;
            let ghost props2 = propagators@;
            let ghost diff2 = diff.graph;
            self.state.statistics.propagations = self.state.statistics.propagations + 1;
            self.current_prop = usize::MAX;
            let failed: bool = res.is_err();
            proof {
                assert(props2 =~= props1.update(p as int, props2[p as int]));
                lemma_rules_kept(props1, &diff1, props2, &diff2, p as int);
                assert forall|ints: IntAssignment, bools: BoolAssignment|
                    #[trigger] ctx0.admits(ints, bools) && rule(ints, bools) implies ctx2.admits(
                    ints,
                    bools,
                ) && res is Ok by {
                    assert(ctx_s.admits(ints, bools));
                    lemma_admits_same(&ctx1, &ctx_s, ints, bools);
                    assert(all_rules(props1, &diff1)(ints, bools));
                    assert(props1[p as int].rule(&diff1)(ints, bools));
                }
                assert(ctx2.narrows(&ctx0)) by {
                    assert forall|v: int, x: int|
                        0 <= v < ctx2.ints.len() && #[trigger] ctx2.ints[v].has(
                            x,
                        ) implies ctx0.ints[v].has(x) by {
                        assert(ctx1.ints[v].has(x));
                    }
                    assert forall|b: int|
                        0 <= b < ctx2.bools.len() && (#[trigger] ctx0.bools[b]) is Some implies
                        ctx2.bools[b] == ctx0.bools[b] by {
                        assert(ctx1.bools[b] == ctx0.bools[b]);
                    }
                }
            }
            match res {
                Err(conflict) => {
                    self.state.failed = true;
                    self.state.conflict = Some(conflict);
                },
                Ok(()) => {
                    proof {
                        assert forall|k: int| 0 <= k < props2.len() implies (
                        #[trigger] props2[k]).ready(self, &diff2) by {
                            lemma_ready_after(
                                props1,
                                &ctx1,
                                &diff1,
                                props2,
                                &ctx2,
                                &diff2,
                                p as int,
                                k,
                            );
                            lemma_ready_same(&props2[k], &ctx2, self, &diff2);
                        }
                    }
                },
            }
            proof {
                assert forall|ints: IntAssignment, bools: BoolAssignment|
                    #[trigger] self.admits(ints, bools) == ctx2.admits(ints, bools) by {
                    lemma_admits_same(self, &ctx2, ints, bools);
                }
            }
            proof {
                let r = run_result(self.state.conflict);
                let queue0 = ctx0.state.propagator_queue@;
                lemma_ran_elsewhere(
                    props0,
                    ctx0,
                    diff0,
                    queue0.take(n),
                    props1,
                    ctx_s,
                    ctx1,
                    diff1,
                    Ok(()),
                );
                assert(ran(props1, ctx1, diff1, p as int, props2, ctx2, diff2, r));
                lemma_ran_next(
                    props0,
                    ctx0,
                    diff0,
                    queue0.take(n),
                    props1,
                    ctx1,
                    diff1,
                    p,
                    props2,
                    ctx2,
                    *self,
                    diff2,
                    r,
                );
                assert(queue0.take(n).push(p) =~= queue0.take(n + 1));
                n = n + 1;
            }
            if failed || self.propagation_queue.len() > 0 {
                return ;
            }
        }
    }
}

/// The engine.
pub struct Engine {
    /// The propagators.
    pub propagators: Vec<PropagatorKind>,
    /// What each propagator has asked for.
    pub requests: Vec<InitializationContext>,
    /// The branchers.
    pub branchers: Vec<DiffLogicBrancher>,
    /// The difference constraints.
    pub diff_logic: DifferenceLogicPropagator,
    /// The context in which the propagators act.
    pub context: SolvingContext,
    /// The views that the search must be able to decide.
    pub decidable: Vec<IntView>,
}

/// The rank of the propagator by its request.
pub open spec fn rank_of(requests: Seq<InitializationContext>, p: usize) -> int {
    if p < requests.len() {
        requests[p as int].priority.spec_rank()
    } else {
        PriorityLevel::Low.spec_rank()
    }
}

/// How many propagators at the start of the queue have at least the given rank.
pub open spec fn leading(
    requests: Seq<InitializationContext>,
    queue: Seq<usize>,
    rank: int,
) -> int
    decreases queue.len(),
{
    if queue.len() == 0 || rank_of(requests, queue[0]) < rank {
        0
    } else {
        1 + leading(requests, queue.drop_first(), rank)
    }
}

/// The queue with another propagator, behind those of at least its rank.
pub open spec fn queued_by_rank(
    requests: Seq<InitializationContext>,
    queue: Seq<usize>,
    p: usize,
) -> Seq<usize> {
    queue.insert(leading(requests, queue, rank_of(requests, p)), p)
}

/// Whether propagators of larger rank come first.
pub open spec fn by_rank(requests: Seq<InitializationContext>, queue: Seq<usize>) -> bool {
    forall|i: int, j: int|
        0 <= i < j < queue.len() ==> rank_of(requests, #[trigger] queue[i]) >= rank_of(
            requests,
            #[trigger] queue[j],
        )
}

proof fn lemma_leading(requests: Seq<InitializationContext>, queue: Seq<usize>, rank: int)
    ensures
        0 <= leading(requests, queue, rank) <= queue.len(),
        forall|i: int|
            0 <= i < leading(requests, queue, rank) ==> rank_of(requests, #[trigger] queue[i])
                >= rank,
        leading(requests, queue, rank) < queue.len() ==> rank_of(
            requests,
            queue[leading(requests, queue, rank)],
        ) < rank,
    decreases queue.len(),
{
    if queue.len() > 0 && rank_of(requests, queue[0]) >= rank {
        let rest = queue.drop_first();
        lemma_leading(requests, rest, rank);
        let k = leading(requests, rest, rank);
        assert forall|i: int| 0 <= i < 1 + k implies rank_of(requests, #[trigger] queue[i])
            >= rank by {
            if i > 0 {
                assert(rest[i - 1] == queue[i]);
            }
        }
        if k < rest.len() {
            assert(rest[k] == queue[k + 1]);
        }
    }
}

/// The number of leading propagators is the one before which all have the rank and behind which
/// one has not.
proof fn lemma_leading_is(
    requests: Seq<InitializationContext>,
    queue: Seq<usize>,
    rank: int,
    k: int,
)
    requires
        0 <= k <= queue.len(),
        forall|i: int| 0 <= i < k ==> rank_of(requests, #[trigger] queue[i]) >= rank,
        k < queue.len() ==> rank_of(requests, queue[k]) < rank,
    ensures
        k == leading(requests, queue, rank),
{
    lemma_leading(requests, queue, rank);
    let l = leading(requests, queue, rank);
    if l < k {
        assert(rank_of(requests, queue[l]) >= rank);
    }
    if k < l {
        assert(rank_of(requests, queue[k]) >= rank);
    }
}

/// The queue stays ordered when a propagator is added, which comes before those of smaller rank.
proof fn lemma_queued_by_rank(requests: Seq<InitializationContext>, queue: Seq<usize>, p: usize)
    requires
        by_rank(requests, queue),
    ensures
        by_rank(requests, queued_by_rank(requests, queue, p)),
        forall|q: usize| #[trigger]
            queued_by_rank(requests, queue, p).contains(q) <==> q == p || queue.contains(q),
{
    let rank = rank_of(requests, p);
    let k = leading(requests, queue, rank);
    let after = queued_by_rank(requests, queue, p);
    lemma_leading(requests, queue, rank);
    assert forall|i: int, j: int| 0 <= i < j < after.len() implies rank_of(
        requests,
        #[trigger] after[i],
    ) >= rank_of(requests, #[trigger] after[j]) by {
        let a = if i < k {
            i
        } else {
            i - 1
        };
        let b = if j < k {
            j
        } else {
            j - 1
        };
        if i == k {
            assert(after[j] == queue[b]);
            if b > k {
                assert(rank_of(requests, queue[k]) >= rank_of(requests, queue[b]));
            }
        } else if j == k {
            assert(after[i] == queue[i]);
        } else {
            assert(after[i] == queue[a] && after[j] == queue[b]);
        }
    }
    assert forall|q: usize| #[trigger] after.contains(q) <==> q == p || queue.contains(q) by {
        if after.contains(q) && q != p {
            let i = after.index_of(q);
            if i < k {
                assert(queue[i] == q);
            } else {
                assert(queue[i - 1] == q);
            }
        }
        if q == p {
            assert(after[k] == p);
        } else if queue.contains(q) {
            let i = queue.index_of(q);
            if i < k {
                assert(after[i] == q);
            } else {
                assert(after[i + 1] == q);
            }
        }
    }
}

/// Propagators are run in the order of their ranks: those that were run from the front of an
/// ordered queue have at least the rank of those that are left, and these stay ordered.
pub proof fn lemma_run_by_rank(
    requests: Seq<InitializationContext>,
    queue: Seq<usize>,
    n: int,
    p: usize,
    q: usize,
)
    requires
        by_rank(requests, queue),
        0 <= n <= queue.len(),
        queue.take(n).contains(p),
        queue.skip(n).contains(q),
    ensures
        by_rank(requests, queue.skip(n)),
        rank_of(requests, p) >= rank_of(requests, q),
{
    let i = queue.take(n).index_of(p);
    let j = queue.skip(n).index_of(q);
    assert(queue[i] == p);
    assert(queue[n + j] == q);
    assert forall|a: int, b: int| 0 <= a < b < queue.skip(n).len() implies rank_of(
        requests,
        #[trigger] queue.skip(n)[a],
    ) >= rank_of(requests, #[trigger] queue.skip(n)[b]) by {
        assert(queue[n + a] == queue.skip(n)[a]);
        assert(queue[n + b] == queue.skip(n)[b]);
    }
}

/// Whether the engine is the other one with another propagator, which is to be run if `queued`
/// is set. Nothing is said of the difference constraints.
pub open spec fn enlisted(
    before: &Engine,
    after: &Engine,
    p: PropagatorKind,
    queued: bool,
) -> bool {
    &&& after.propagators@ == before.propagators@.push(p)
    &&& after.requests.len() == before.requests.len() + 1
    &&& forall|i: int|
        0 <= i < before.requests.len() ==> #[trigger] after.requests[i] == before.requests[i]
    &&& after.branchers == before.branchers
    &&& after.decidable == before.decidable
    &&& after.context.ints == before.context.ints
    &&& after.context.bools == before.context.bools
    &&& after.context.trail == before.context.trail
    &&& after.context.propagation_queue == before.context.propagation_queue
    &&& after.context.current_prop == before.context.current_prop
    &&& after.context.state.propagator_queue@ == if queued {
        queued_by_rank(
            after.requests@,
            before.context.state.propagator_queue@,
            before.propagators.len(),
        )
    } else {
        before.context.state.propagator_queue@
    }
    &&& before.scheduled() ==> after.scheduled()
    &&& after.context.state.clauses == before.context.state.clauses
    &&& after.context.state.diff_lits == before.context.state.diff_lits
    &&& after.context.state.advisors == before.context.state.advisors
    &&& after.context.state.int_activation == before.context.state.int_activation
    &&& after.context.state.bool_activation == before.context.state.bool_activation
    &&& after.context.state.failed == before.context.state.failed
    &&& after.context.state.conflict == before.context.state.conflict
    &&& after.context.state.statistics == before.context.state.statistics
    &&& after.context.state.assigned == before.context.state.assigned
}

/// Whether the engine is the other one with another propagator, which is to be run if `queued`
/// is set.
pub open spec fn posted(before: &Engine, after: &Engine, p: PropagatorKind, queued: bool) -> bool {
    enlisted(before, after, p, queued) && after.diff_logic == before.diff_logic
}

/// Whether the request asks for a run to begin with: expressly, or by asking for runs when
/// decisions change.
pub open spec fn asks_to_start(request: InitializationContext) -> bool {
    request.enqueue || request.triggers@.len() > 0
}

impl Engine {
    /// Whether the queue holds propagators of the engine, each of them once, in the order of
    /// their priorities.
    pub open spec fn scheduled(&self) -> bool {
        let queue = self.context.state.propagator_queue@;
        &&& self.requests.len() == self.propagators.len()
        &&& forall|i: int| 0 <= i < queue.len() ==> #[trigger] queue[i] < self.propagators.len()
        &&& queue.no_duplicates()
        &&& by_rank(self.requests@, queue)
    }

    /// Whether the engine has no propagators and decisions, and nothing has happened to it.
    pub open spec fn fresh(&self) -> bool {
        &&& self.propagators@.len() == 0
        &&& self.requests@.len() == 0
        &&& self.branchers@.len() == 0
        &&& self.decidable@.len() == 0
        &&& self.context.wf()
        &&& self.context.ints@.len() == 0
        &&& self.context.bools@.len() == 0
        &&& self.context.propagation_queue@.len() == 0
        &&& self.context.trail@.len() == 0
        &&& self.context.trail.depth() == 0
        &&& self.context.current_prop == usize::MAX
        &&& self.context.state.clauses@.len() == 0
        &&& self.context.state.advisors@.len() == 0
        &&& self.context.state.int_activation@.len() == 0
        &&& self.context.state.bool_activation@.len() == 0
        &&& self.context.state.assigned@.len() == 0
        &&& self.context.state.propagator_queue@.len() == 0
        &&& self.scheduled()
        &&& !self.context.state.failed
        &&& self.context.state.conflict is None
        &&& self.context.state.statistics == (Statistics {
            conflicts: 0,
            lazy_literals: 0,
            propagations: 0,
        })
        // There are no literals for differences.
        &&& forall|x: usize, y: usize|
            #[trigger] self.context.state.diff_lits.chain(x, y).len() == 0
        &&& lits_stand(&self.context.state.diff_lits, &self.diff_logic.graph.graph)
        // The difference constraints are empty, with the usual settings, and their
        // propagator is yet to be added.
        &&& self.diff_logic.graph.in_order(&self.context)
        &&& self.diff_logic.graph.graph.size() == 0
        &&& self.diff_logic.graph.graph.edges@.len() == 0
        &&& self.diff_logic.graph.graph.bool_vars@.len() == 0
        &&& !self.diff_logic.graph.pi_initialized
        &&& forall|k: usize, upper: bool|
            !#[trigger] self.diff_logic.graph.changes(upper).contains(k)
        &&& forall|b: usize| !#[trigger] self.diff_logic.graph.fixed_bools@.contains(b)
        &&& self.diff_logic.graph.priority_bounds is None
        &&& self.diff_logic.graph.priority_booleans is None
        &&& self.diff_logic.graph.bool_reasons == 0
        &&& !self.diff_logic.graph.use_inc_imp
        &&& !self.diff_logic.graph.propagator_registered
        &&& self.diff_logic.graph.propagator_ref is None
    }

    /// An engine without propagators and decisions.
    pub fn new() -> (r: Engine)
        ensures
            r.fresh(),
    {
        let context: SolvingContext = SolvingContext::new();
        let graph: DiffLogicState = DiffLogicState::new();
        proof {
            assert(graph.in_order(&context));
        }
        Engine {
            propagators: Vec::new(),
            requests: Vec::new(),
            branchers: Vec::new(),
            diff_logic: DifferenceLogicPropagator { graph },
            context,
            decidable: Vec::new(),
        }
    }

    /// Add a propagator with its requests, and have it run if these ask for it.
    pub fn add_propagator(&mut self, p: PropagatorKind, request: InitializationContext)
        ensures
            posted(old(self), final(self), p, asks_to_start(request)),
            final(self).requests[old(self).requests.len() as int] == request,
    {
        let index: usize = self.propagators.len();
        let start: bool = request.enqueue || request.triggers.len() > 0;
        self.propagators.push(p);
        self.requests.push(request);
        proof {
            let queue = self.context.state.propagator_queue@;
            if old(self).scheduled() {
                assert forall|i: int| 0 <= i < queue.len() implies rank_of(
                    self.requests@,
                    #[trigger] queue[i],
                ) == rank_of(old(self).requests@, queue[i]) by {}
            }
        }
        if start {
            self.insert_by_rank(index);
        }
    }

    /// Put the propagator in the queue, behind those of at least its priority.
    fn insert_by_rank(&mut self, p: usize)
        ensures
            final(self).queue_differs(old(self)),
            final(self).context.state.propagator_queue@ == queued_by_rank(
                old(self).requests@,
                old(self).context.state.propagator_queue@,
                p,
            ),
            old(self).scheduled() && p < old(self).propagators.len() && !old(
                self,
            ).context.state.propagator_queue@.contains(p) ==> final(self).scheduled(),
    {
        let ghost queue = self.context.state.propagator_queue@;
        let ghost requests = self.requests@;
        let rank: u8 = self.rank(p);
        let mut k: usize = 0;
        while k < self.context.state.propagator_queue.len() && self.rank(
            self.context.state.propagator_queue[k],
        ) >= rank
            invariant
                *self == *old(self),
                queue == self.context.state.propagator_queue@,
                requests == self.requests@,
                k <= queue.len(),
                forall|i: int| 0 <= i < k ==> rank_of(requests, #[trigger] queue[i]) >= rank,
            decreases queue.len() - k,
        {
            k = k + 1;
        }
        proof {
            lemma_leading_is(requests, queue, rank as int, k as int);
        }
        self.context.state.propagator_queue.insert(k, p);
        proof {
            if old(self).scheduled() && p < self.propagators.len() {
                lemma_queued_by_rank(requests, queue, p);
                let after = self.context.state.propagator_queue@;
                assert forall|i: int| 0 <= i < after.len() implies #[trigger] after[i]
                    < self.propagators.len() by {
                    assert(after.contains(after[i]));
                    if after[i] != p {
                        let j = queue.index_of(after[i]);
                        assert(queue[j] < self.propagators.len());
                    }
                }
                if !queue.contains(p) {
                    assert forall|i: int, j: int|
                        0 <= i < after.len() && 0 <= j < after.len() && i != j implies after[i]
                        != after[j] by {
                        assert(i != k ==> queue.contains(after[i]));
                        assert(j != k ==> queue.contains(after[j]));
                    }
                }
            }
        }
    }

    /// The rank of a propagator.
    fn rank(&self, p: usize) -> (r: u8)
        ensures
            r == rank_of(self.requests@, p),
    {
        if p < self.requests.len() {
            self.requests[p].priority.rank()
        } else {
            PriorityLevel::Low.rank()
        }
    }

    /// Whether the engines differ in their queues of propagators only.
    pub open spec fn queue_differs(&self, other: &Engine) -> bool {
        &&& self.propagators == other.propagators
        &&& self.requests == other.requests
        &&& self.branchers == other.branchers
        &&& self.decidable == other.decidable
        &&& self.diff_logic == other.diff_logic
        &&& self.context.ints == other.context.ints
        &&& self.context.bools == other.context.bools
        &&& self.context.trail == other.context.trail
        &&& self.context.propagation_queue == other.context.propagation_queue
        &&& self.context.current_prop == other.context.current_prop
        &&& self.context.state.clauses == other.context.state.clauses
        &&& self.context.state.diff_lits == other.context.state.diff_lits
        &&& self.context.state.advisors == other.context.state.advisors
        &&& self.context.state.int_activation == other.context.state.int_activation
        &&& self.context.state.bool_activation == other.context.state.bool_activation
        &&& self.context.state.failed == other.context.state.failed
        &&& self.context.state.conflict == other.context.state.conflict
        &&& self.context.state.statistics == other.context.state.statistics
        &&& self.context.state.assigned == other.context.state.assigned
    }

    /// Have the propagator run, before those of smaller priority and after the others, unless it
    /// is to be run already.
    pub fn enqueue_propagator(&mut self, p: usize)
        requires
            old(self).scheduled(),
            p < old(self).propagators.len(),
        ensures
            final(self).scheduled(),
            final(self).queue_differs(old(self)),
            final(self).context.state.propagator_queue@ == if old(
                self,
            ).context.state.propagator_queue@.contains(p) {
                old(self).context.state.propagator_queue@
            } else {
                queued_by_rank(
                    old(self).requests@,
                    old(self).context.state.propagator_queue@,
                    p,
                )
            },
    {
        let mut i: usize = 0;
        while i < self.context.state.propagator_queue.len()
            invariant
                *self == *old(self),
                old(self).scheduled(),
                i <= self.context.state.propagator_queue.len(),
                forall|k: int|
                    0 <= k < i ==> #[trigger] self.context.state.propagator_queue@[k] != p,
            decreases self.context.state.propagator_queue.len() - i,
        {
            if self.context.state.propagator_queue[i] == p {
                assert(self.context.state.propagator_queue@[i as int] == p);
                return ;
            }
            i = i + 1;
        }
        self.insert_by_rank(p);
    }

    /// Ask that the search be able to decide the view.
    pub fn ensure_decidable(&mut self, view: IntView)
        ensures
            final(self).decidable@ == old(self).decidable@.push(view),
            final(self).propagators == old(self).propagators,
            final(self).requests == old(self).requests,
            final(self).branchers == old(self).branchers,
            final(self).diff_logic == old(self).diff_logic,
            final(self).context == old(self).context,
    {
        self.decidable.push(view);
    }

    /// Add the propagator of the difference constraints, unless that was done before.
    pub fn ensure_diff_logic_propagator(&mut self)
        ensures
            old(self).diff_logic.graph.propagator_registered ==> *final(self) == *old(self),
            !old(self).diff_logic.graph.propagator_registered ==> {
                &&& enlisted(old(self), final(self), PropagatorKind::DifferenceLogic, true)
                &&& final(self).diff_logic.graph.propagator_registered
                &&& final(self).diff_logic.graph.propagator_ref == Some(
                    old(self).propagators.len(),
                )
                &&& final(self).diff_logic.graph.relinked(&old(self).diff_logic.graph)
                &&& old(self).diff_logic.graph.in_order(&old(self).context)
                    ==> final(self).diff_logic.graph.in_order(&final(self).context)
                // The propagator is told of all views and gates, and of backtracking.
                &&& {
                    let request = final(self).requests[old(self).requests.len() as int];
                    &&& request.priority == match old(self).diff_logic.graph.priority_bounds {
                        Some(p) => p,
                        None => PriorityLevel::Low,
                    }
                    &&& request.enqueue
                    &&& request.backtrack
                    &&& exists|none: InitializationContext|
                        none.int_advice@.len() == 0 && none.bool_advice@.len() == 0
                            && none.triggers@.len() == 0 && #[trigger] advised(
                            &old(self).diff_logic.graph.graph,
                            &none,
                            &request,
                            true,
                            true,
                        )
                }
            },
    {
        if self.diff_logic.graph.propagator_registered {
            return ;
        }
        let ghost ctx0 = self.context;
        let ghost st0 = self.diff_logic.graph;
        let mut request: InitializationContext = InitializationContext::new();
        let index: usize = self.propagators.len();
        let ghost none = request;
        self.diff_logic.initialize(index, &mut request);
        proof {
            assert(advised(&self.diff_logic.graph.graph, &none, &request, true, true));
        }
        let ghost st1 = self.diff_logic.graph;
        self.diff_logic.graph.propagator_registered = true;
        self.add_propagator(PropagatorKind::DifferenceLogic, request);
        proof {
            if st0.in_order(&ctx0) {
                assert(st1.in_order(&ctx0));
                lemma_registered_in_order(&st1, &self.diff_logic.graph, &ctx0);
                lemma_in_order_same(&self.diff_logic.graph, &ctx0, &self.context);
            }
        }
    }
}

/// Settings do not matter to the order.
proof fn lemma_registered_in_order(g: &DiffLogicState, h: &DiffLogicState, ctx: &SolvingContext)
    requires
        g.in_order(ctx),
        h.graph == g.graph,
        h.pi == g.pi,
        h.lower_bound == g.lower_bound,
        h.upper_bound == g.upper_bound,
        h.backtrace == g.backtrace,
        h.visited == g.visited,
        h.visited_updates == g.visited_updates,
        h.lower_bound_changes == g.lower_bound_changes,
        h.upper_bound_changes == g.upper_bound_changes,
        h.lb_updates == g.lb_updates,
        h.ub_updates == g.ub_updates,
        h.fixed_bools == g.fixed_bools,
        h.pi_initialized == g.pi_initialized,
    ensures
        h.in_order(ctx),
{
    assert forall|k: int, u: bool| #[trigger] h.propagated(u, k) == g.propagated(u, k) by {}
    assert forall|k: usize, u: bool| #[trigger] h.changes(u).contains(k) implies k
        < h.graph.size() by {
        assert(g.changes(u).contains(k));
    }
    if h.pi_initialized {
        assert(h.pi_valid_but(ctx.trail@, -1));
    }
}

impl Default for Engine {
    /// An engine without propagators and decisions.
    fn default() -> (r: Engine)
        ensures
            r.fresh(),
    {
        Engine::new()
    }
}

/// Whether there is a view.
pub open spec fn some_view(vars: Seq<IntView>) -> bool {
    vars.len() > 0
}

/// Whether one of the views is fixed.
pub open spec fn some_fixed(vars: Seq<IntView>, ctx: &SolvingContext) -> bool {
    IntUniqueValue::positions(vars, ctx, true, vars.len() as int).len() > 0
}

/// The triggers for a run when bounds of the views change.
pub open spec fn bounds_triggers(vars: Seq<IntView>) -> Seq<IntTrigger> {
    Seq::new(vars.len(), |i: int| IntTrigger { view: vars[i], cond: IntPropCond::Bounds })
}

/// Whether the request is that of bounds consistent propagation: to be run when bounds change.
pub open spec fn asks_for_bounds(vars: Seq<IntView>, request: InitializationContext) -> bool {
    &&& request.priority == PriorityLevel::Low
    &&& !request.enqueue
    &&& !request.backtrack
    &&& request.triggers@ == bounds_triggers(vars)
    &&& request.int_advice@.len() == 0
    &&& request.bool_advice@.len() == 0
}

/// Whether the request is that of value consistent propagation: to be told when views that are
/// not fixed get fixed.
pub open spec fn asks_for_values(
    vars: Seq<IntView>,
    ctx: &SolvingContext,
    request: InitializationContext,
) -> bool {
    let n = vars.len() as int;
    &&& request.enqueue == (IntUniqueValue::positions(vars, ctx, true, n).len() > 0)
    &&& request.int_advice@ == IntUniqueValue::positions(vars, ctx, false, n).map_values(
        |i: int| IntAdvice { view: vars[i], cond: IntPropCond::Fixed, data: i as u64 },
    )
    &&& request.priority == PriorityLevel::Medium
    &&& request.backtrack
    &&& request.triggers@.len() == 0
    &&& request.bool_advice@.len() == 0
}

/// Whether the request is that of the propagator that compares with the last fixed point: to
/// be told of changed bounds and of backtracking, and to be run when bounds change.
pub open spec fn asks_for_changes(vars: Seq<IntView>, request: InitializationContext) -> bool {
    &&& request.priority == PriorityLevel::Low
    &&& !request.enqueue
    &&& request.backtrack
    &&& request.triggers@ == bounds_triggers(vars)
    &&& request.int_advice@ == Seq::new(
        vars.len(),
        |i: int| IntAdvice { view: vars[i], cond: IntPropCond::Bounds, data: i as u64 },
    )
    &&& request.bool_advice@.len() == 0
}

/// Whether one of the triggers of the request waits for the change of the view.
pub open spec fn triggered(
    request: InitializationContext,
    before: &SolvingContext,
    after: &SolvingContext,
    view: IntView,
) -> bool {
    exists|t: int|
        0 <= t < request.triggers.len() && (#[trigger] request.triggers[t]).view == view
            && request.triggers[t].cond.met(before, after, view)
}

/// Whether the request asks to be told of the change of the view, with the given data.
pub open spec fn told_of(
    request: InitializationContext,
    before: &SolvingContext,
    after: &SolvingContext,
    view: IntView,
    data: int,
) -> bool {
    exists|t: int|
        0 <= t < request.int_advice.len() && (#[trigger] request.int_advice[t]).view == view
            && request.int_advice[t].data == data && request.int_advice[t].cond.met(
            before,
            after,
            view,
        )
}

/// A propagator of bounds is run whenever a bound of one of its views moves. The one that compares
/// with the last fixed point is told which view it is, and of backtracking.
pub proof fn lemma_bounds_wake(
    vars: Seq<IntView>,
    request: InitializationContext,
    before: &SolvingContext,
    after: &SolvingContext,
    i: int,
)
    requires
        asks_for_bounds(vars, request) || asks_for_changes(vars, request),
        0 <= i < vars.len() <= u64::MAX,
        after.view_min(vars[i]) > before.view_min(vars[i]) || after.view_max(vars[i])
            < before.view_max(vars[i]),
    ensures
        triggered(request, before, after, vars[i]),
        asks_for_changes(vars, request) ==> told_of(request, before, after, vars[i], i)
            && request.backtrack,
{
    assert(request.triggers@[i] == bounds_triggers(vars)[i]);
    assert(request.triggers[i].view == vars[i]);
    if asks_for_changes(vars, request) {
        assert(request.int_advice[i].view == vars[i]);
    }
}

/// A propagator of values is told of every view that gets fixed, with its index, and of
/// backtracking, and is run at once if a view is fixed already.
pub proof fn lemma_values_wake(
    vars: Seq<IntView>,
    ctx: &SolvingContext,
    request: InitializationContext,
    after: &SolvingContext,
    i: int,
)
    requires
        ctx.wf(),
        has_views(ctx, vars),
        asks_for_values(vars, ctx, request),
        0 <= i < vars.len() <= u64::MAX,
        after.view_min(vars[i]) == after.view_max(vars[i]),
    ensures
        if ctx.view_min(vars[i]) < ctx.view_max(vars[i]) {
            told_of(request, ctx, after, vars[i], i)
        } else {
            request.enqueue
        },
        request.backtrack,
{
    let n = vars.len() as int;
    lemma_positions_exact(vars, ctx, true, n);
    lemma_positions_exact(vars, ctx, false, n);
    if ctx.view_min(vars[i]) < ctx.view_max(vars[i]) {
        let list = IntUniqueValue::positions(vars, ctx, false, n);
        assert(list.contains(i));
        let t = list.index_of(i);
        assert(request.int_advice[t].view == vars[i]);
    } else {
        assert(IntUniqueValue::positions(vars, ctx, true, n).contains(i));
    }
}

impl IntUniqueBounds {
    /// Create the propagator, and add it to the engine.
    pub fn post(solver: &mut Engine, vars: Vec<IntView>)
        requires
            2 * vars.len() + 2 < usize::MAX,
        ensures
            exists|p: IntUniqueBounds| p.wf() && p.var@ == vars@ && #[trigger] posted(
                old(solver),
                final(solver),
                PropagatorKind::UniqueBounds(p),
                some_view(vars@),
            ),
            asks_for_bounds(vars@, final(solver).requests[old(solver).requests.len() as int]),
    {
        let p: IntUniqueBounds = IntUniqueBounds::new(vars);
        let mut request: InitializationContext = InitializationContext::new();
        p.initialize(&mut request);
        proof {
            assert(request.triggers@ =~= bounds_triggers(vars@));
        }
        let ghost asked = request;
        let ghost added = p;
        solver.add_propagator(PropagatorKind::UniqueBounds(p), request);
        proof {
            assert(asks_to_start(asked) == some_view(vars@));
            assert(posted(
                old(solver),
                solver,
                PropagatorKind::UniqueBounds(added),
                some_view(vars@),
            ));
        }
    }
}

impl IntUniqueValue {
    /// Create the propagator, and add it to the engine.
    pub fn post(solver: &mut Engine, vars: Vec<IntView>)
        requires
            old(solver).context.wf(),
            has_views(&old(solver).context, vars@),
            vars.len() <= u64::MAX,
        ensures
            exists|p: IntUniqueValue|
                p.vars@ == vars@ && actions_fixed(&old(solver).context, vars@, p.action_list@)
                    && #[trigger] posted(
                    old(solver),
                    final(solver),
                    PropagatorKind::UniqueValue(p),
                    some_fixed(vars@, &old(solver).context),
                ),
            asks_for_values(
                vars@,
                &old(solver).context,
                final(solver).requests[old(solver).requests.len() as int],
            ),
    {
        let mut p: IntUniqueValue = IntUniqueValue::new(vars);
        let mut request: InitializationContext = InitializationContext::new();
        p.initialize(&solver.context, &mut request);
        proof {
            let all = IntUniqueValue::positions(
                vars@,
                &solver.context,
                true,
                vars.len() as int,
            );
            let index = |i: int| i as usize;
            assert(p.action_list@ =~= all.map_values(index));
            let others = IntUniqueValue::positions(
                vars@,
                &solver.context,
                false,
                vars.len() as int,
            );
            assert(request.int_advice@ =~= others.map_values(
                |i: int| IntAdvice { view: vars@[i], cond: IntPropCond::Fixed, data: i as u64 },
            ));
            assert forall|k: int|
                0 <= k < p.action_list@.len() implies #[trigger] p.action_list@[k] < vars.len()
                && solver.context.view_min(vars@[p.action_list@[k] as int])
                == solver.context.view_max(vars@[p.action_list@[k] as int]) by {
                lemma_positions(vars@, &solver.context, true, vars.len() as int, k);
            }
        }
        let ghost asked = request;
        let ghost added = p;
        solver.add_propagator(PropagatorKind::UniqueValue(p), request);
        proof {
            assert(asks_to_start(asked) == some_fixed(vars@, &old(solver).context));
            assert(posted(
                old(solver),
                solver,
                PropagatorKind::UniqueValue(added),
                some_fixed(vars@, &old(solver).context),
            ));
        }
    }
}

/// The positions are those of fixed views, or of others.
proof fn lemma_positions(vars: Seq<IntView>, ctx: &SolvingContext, fixed: bool, upto: int, k: int)
    requires
        0 <= upto <= vars.len(),
        0 <= k < IntUniqueValue::positions(vars, ctx, fixed, upto).len(),
    ensures
        0 <= IntUniqueValue::positions(vars, ctx, fixed, upto)[k] < upto,
        ({
            let v = vars[IntUniqueValue::positions(vars, ctx, fixed, upto)[k]];
            (ctx.view_min(v) == ctx.view_max(v)) == fixed
        }),
    decreases upto,
{
    if upto > 0 {
        let rest = IntUniqueValue::positions(vars, ctx, fixed, upto - 1);
        if k < rest.len() {
            lemma_positions(vars, ctx, fixed, upto - 1, k);
        }
    }
}

impl IntUniqueBoundsCumulativeSlack {
    /// Create the propagator, and add it to the engine.
    pub fn post(solver: &mut Engine, vars: Vec<IntView>)
        requires
            vars.len() <= INT_LIMIT,
            4 * vars.len() * vars.len() <= usize::MAX,
        ensures
            exists|p: IntUniqueBoundsCumulativeSlack|
                p.wf() && p.vars() == vars@ && !p.cache_valid && #[trigger] posted(
                    old(solver),
                    final(solver),
                    PropagatorKind::UniqueCumulativeSlack(p),
                    some_view(vars@),
                ),
            asks_for_changes(vars@, final(solver).requests[old(solver).requests.len() as int]),
    {
        let p: IntUniqueBoundsCumulativeSlack = IntUniqueBoundsCumulativeSlack::new(vars);
        let mut request: InitializationContext = InitializationContext::new();
        p.initialize(&mut request);
        proof {
            assert(request.triggers@ =~= bounds_triggers(vars@));
            assert(request.int_advice@ =~= Seq::new(
                vars@.len(),
                |i: int| IntAdvice { view: vars@[i], cond: IntPropCond::Bounds, data: i as u64 },
            ));
        }
        let ghost asked = request;
        let ghost added = p;
        solver.add_propagator(PropagatorKind::UniqueCumulativeSlack(p), request);
        proof {
            assert(asks_to_start(asked) == some_view(vars@));
            assert(posted(
                old(solver),
                solver,
                PropagatorKind::UniqueCumulativeSlack(added),
                some_view(vars@),
            ));
        }
    }
}

/// The views that are not fixed.
pub open spec fn unfixed(vars: Seq<IntView>, ctx: &SolvingContext, upto: int) -> Seq<IntView>
    decreases upto,
{
    if upto <= 0 {
        Seq::empty()
    } else {
        let rest = unfixed(vars, ctx, upto - 1);
        if ctx.view_min(vars[upto - 1]) == ctx.view_max(vars[upto - 1]) {
            rest
        } else {
            rest.push(vars[upto - 1])
        }
    }
}

/// Whether the propagator is a value consistent one of the views.
pub open spec fn is_value_prop(p: PropagatorKind, vars: Seq<IntView>) -> bool {
    p matches PropagatorKind::UniqueValue(q) && q.vars@ == vars
}

/// Whether the propagator is the bounds consistent one of the views that was chosen.
pub open spec fn is_bounds_prop(p: PropagatorKind, vars: Seq<IntView>, slack: bool) -> bool {
    if slack {
        p matches PropagatorKind::UniqueCumulativeSlack(q) && q.vars() == vars
    } else {
        p matches PropagatorKind::UniqueBounds(q) && q.var@ == vars
    }
}

/// Why a constraint cannot be handed to the engine.
#[derive(Debug, PartialEq, Eq)]
pub enum LoweringError {
    /// Simplifying the constraint has shown that it cannot be kept.
    Simplification(Conflict),
}

impl IntUnique {
    /// Add the propagators of the constraint to the engine. Views that are fixed are left out,
    /// since their values were removed from the others. Nothing is added for a single view. If
    /// no propagator is to be used, the bounds consistent one is used all the same. There is
    /// nothing to go wrong.
    pub fn to_solver(&self, slv: &mut Engine) -> (r: Result<(), LoweringError>)
        requires
            self.wf(),
            old(slv).context.wf(),
            has_views(&old(slv).context, self.bounds_prop.var@),
            self.bounds_prop.var.len() <= INT_LIMIT,
            4 * self.bounds_prop.var.len() * self.bounds_prop.var.len() <= usize::MAX,
        ensures
            r is Ok,
            ({
                let vars = unfixed(
                    self.bounds_prop.var@,
                    &old(slv).context,
                    self.bounds_prop.var.len() as int,
                );
                let value = self.value_propagation == Some(true);
                let slack = self.cumulative_slack_propagation == Some(true);
                let bounds = slack || self.bounds_propagation != Some(false) || !value;
                let n = old(slv).propagators.len() as int;
                if vars.len() <= 1 {
                    *final(slv) == *old(slv)
                } else {
                    &&& final(slv).propagators.len() == n + (if value {
                        1int
                    } else {
                        0int
                    }) + if bounds {
                        1int
                    } else {
                        0int
                    }
                    &&& forall|i: int|
                        0 <= i < n ==> #[trigger] final(slv).propagators[i] == old(
                            slv,
                        ).propagators[i]
                    &&& value ==> is_value_prop(final(slv).propagators[n], vars)
                    &&& bounds ==> is_bounds_prop(
                        final(slv).propagators[final(slv).propagators.len() - 1],
                        vars,
                        slack,
                    )
                    &&& value ==> asks_for_values(
                        vars,
                        &old(slv).context,
                        final(slv).requests[old(slv).requests.len() as int],
                    )
                    &&& bounds ==> {
                        let request = final(slv).requests[final(slv).requests.len() - 1];
                        if slack {
                            asks_for_changes(vars, request)
                        } else {
                            asks_for_bounds(vars, request)
                        }
                    }
                    &&& final(slv).context.trail == old(slv).context.trail
                    // None of the views is fixed, so value propagation has nothing to do yet.
                    &&& old(slv).scheduled() ==> final(slv).scheduled()
                    &&& final(slv).context.state.propagator_queue@ == if bounds {
                        queued_by_rank(
                            final(slv).requests@,
                            old(slv).context.state.propagator_queue@,
                            (final(slv).propagators.len() - 1) as usize,
                        )
                    } else {
                        old(slv).context.state.propagator_queue@
                    }
                    &&& final(slv).context.ints == old(slv).context.ints
                    &&& final(slv).context.bools == old(slv).context.bools
                    &&& final(slv).branchers == old(slv).branchers
                    &&& final(slv).diff_logic == old(slv).diff_logic
                }
            }),
            // What the propagators enforce, and what is known of fixed views, is the constraint.
            forall|ints: IntAssignment, bools: BoolAssignment| #[trigger]
                old(slv).context.admits(ints, bools) ==> (all_different(self.bounds_prop.var@)(
                    ints,
                    bools,
                ) <==> (apart_from_fixed(&old(slv).context, self.bounds_prop.var@, ints, bools)
                    && added_kept(old(slv), final(slv), ints, bools))),
    {
        let ghost slv0 = *slv;
        let ghost all = self.bounds_prop.var@;
        let mut vars: Vec<IntView> = Vec::new();
        let mut i: usize = 0;
        while i < self.bounds_prop.var.len()
            invariant
                i <= all.len(),
                all == self.bounds_prop.var@,
                *slv == slv0,
                slv.context.wf(),
                has_views(&slv.context, all),
                vars@ == unfixed(all, &slv.context, i as int),
                vars.len() <= i,
            decreases all.len() - i,
        {
            proof {
                assert(slv.context.has_view(all[i as int]));
            }
            let view: IntView = self.bounds_prop.var[i];
            if slv.context.int_val(view).is_none() {
                vars.push(view);
            }
            i = i + 1;
        }
        if vars.len() <= 1 {
            proof {
                assert forall|ints: IntAssignment, bools: BoolAssignment| #[trigger]
                    slv0.context.admits(ints, bools) implies (all_different(all)(ints, bools)
                    <==> (apart_from_fixed(&slv0.context, all, ints, bools) && added_kept(
                    &slv0,
                    slv,
                    ints,
                    bools,
                ))) by {
                    lemma_unfixed_suffice(all, &slv0.context, ints, bools);
                    assert(all_different(vars@)(ints, bools));
                }
            }
            return Ok(());
        }
        proof {
            assert(has_views(&slv.context, vars@)) by {
                assert forall|k: int| 0 <= k < vars@.len() implies slv.context.has_view(
                    #[trigger] vars@[k],
                ) by {
                    lemma_unfixed(all, &slv.context, all.len() as int, k);
                    let j = all.index_of(vars@[k]);
                    assert(slv.context.has_view(all[j]));
                }
            }
            let (n, m) = (all.len() as int, vars.len() as int);
            assert(4 * m * m <= 4 * n * n) by (nonlinear_arith)
                requires
                    0 <= m <= n,
            ;
            assert(2 * m + 2 < usize::MAX) by (nonlinear_arith)
                requires
                    m >= 0,
                    4 * m * m <= usize::MAX,
                    usize::MAX >= 0xffff_ffff,
                    m <= 0x1000_0000_0000_0000,
            ;
        }
        proof {
            if IntUniqueValue::positions(vars@, &slv.context, true, vars.len() as int).len() > 0 {
                lemma_positions(vars@, &slv.context, true, vars.len() as int, 0);
                let k = IntUniqueValue::positions(
                    vars@,
                    &slv.context,
                    true,
                    vars.len() as int,
                )[0];
                lemma_unfixed(all, &slv.context, all.len() as int, k);
            }
        }
        let ghost remaining = vars@;
        let value: bool = self.value_propagation();
        if value {
            IntUniqueValue::post(slv, copy_views(&vars));
        }
        let ghost slv1 = *slv;
        let slack: bool = self.cumulative_slack_propagation();
        let mut bounds: bool = self.bounds_propagation();
        if !value && !bounds && !slack {
            bounds = true;
        }
        if slack {
            IntUniqueBoundsCumulativeSlack::post(slv, vars);
        } else if bounds {
            IntUniqueBounds::post(slv, vars);
        }
        proof {
            let n = slv0.propagators.len() as int;
            let m = slv.propagators.len() as int;
            let diff = &slv.diff_logic.graph;
            assert forall|ints: IntAssignment, bools: BoolAssignment| #[trigger]
                slv0.context.admits(ints, bools) implies (all_different(all)(ints, bools)
                <==> (apart_from_fixed(&slv0.context, all, ints, bools) && added_kept(
                &slv0,
                slv,
                ints,
                bools,
            ))) by {
                lemma_unfixed_suffice(all, &slv0.context, ints, bools);
                assert forall|i: int| n <= i < m implies (#[trigger] slv.propagators[i]).rule(diff)(
                    ints,
                    bools,
                ) == all_different(remaining)(ints, bools) by {}
                if added_kept(&slv0, slv, ints, bools) {
                    assert(slv.propagators[m - 1].rule(diff)(ints, bools));
                }
            }
        }
        Ok(())
    }
}

/// Whether no other view has the value of a view that is fixed.
pub open spec fn apart_from_fixed(
    ctx: &SolvingContext,
    vars: Seq<IntView>,
    ints: IntAssignment,
    bools: BoolAssignment,
) -> bool {
    forall|i: int, j: int|
        0 <= i < vars.len() && 0 <= j < vars.len() && i != j && ctx.view_min(#[trigger] vars[i])
            == ctx.view_max(vars[i]) ==> (#[trigger] vars[j]).eval(ints, bools) != vars[i].eval(
            ints,
            bools,
        )
}

/// Whether the assignment keeps the rules of the propagators that were added.
pub open spec fn added_kept(
    before: &Engine,
    after: &Engine,
    ints: IntAssignment,
    bools: BoolAssignment,
) -> bool {
    forall|i: int|
        before.propagators.len() <= i < after.propagators.len() ==> (
        #[trigger] after.propagators[i]).rule(&after.diff_logic.graph)(ints, bools)
}

/// The views that are left are those that can still take different values, in their order and
/// as often as they occur.
pub proof fn lemma_unfixed_are_open(vars: Seq<IntView>, ctx: &SolvingContext)
    requires
        ctx.wf(),
        has_views(ctx, vars),
    ensures
        unfixed(vars, ctx, vars.len() as int) == vars.filter(
            |v: IntView| ctx.view_min(v) < ctx.view_max(v),
        ),
{
    lemma_unfixed_open_part(vars, ctx, vars.len() as int);
    assert(vars.take(vars.len() as int) =~= vars);
}

proof fn lemma_unfixed_open_part(vars: Seq<IntView>, ctx: &SolvingContext, upto: int)
    requires
        ctx.wf(),
        has_views(ctx, vars),
        0 <= upto <= vars.len(),
    ensures
        unfixed(vars, ctx, upto) == vars.take(upto).filter(
            |v: IntView| ctx.view_min(v) < ctx.view_max(v),
        ),
    decreases upto,
{
    reveal(Seq::filter);
    if upto > 0 {
        lemma_unfixed_open_part(vars, ctx, upto - 1);
        assert(vars.take(upto).drop_last() =~= vars.take(upto - 1));
        assert(vars.take(upto).last() == vars[upto - 1]);
        assert(ctx.has_view(vars[upto - 1]));
        lemma_view_bounds_ordered(ctx, vars[upto - 1]);
    }
}

/// Different values of the views that are not fixed, apart from the values of those that are,
/// are different values of all views, and the other way round.
pub proof fn lemma_unfixed_suffice(
    vars: Seq<IntView>,
    ctx: &SolvingContext,
    ints: IntAssignment,
    bools: BoolAssignment,
)
    ensures
        all_different(vars)(ints, bools) <==> (apart_from_fixed(ctx, vars, ints, bools)
            && all_different(unfixed(vars, ctx, vars.len() as int))(ints, bools)),
{
    let n = vars.len() as int;
    let remaining = unfixed(vars, ctx, n);
    if all_different(vars)(ints, bools) {
        assert forall|p: int, q: int| 0 <= p < q < remaining.len() implies (#[trigger] remaining[p]).eval(
            ints,
            bools,
        ) != (#[trigger] remaining[q]).eval(ints, bools) by {
            let (i, j) = lemma_unfixed_pair(vars, ctx, n, p, q);
        }
        assert forall|i: int, j: int|
            0 <= i < vars.len() && 0 <= j < vars.len() && i != j && ctx.view_min(#[trigger] vars[i])
                == ctx.view_max(vars[i]) implies (#[trigger] vars[j]).eval(ints, bools)
            != vars[i].eval(ints, bools) by {
            if i < j {
                assert(vars[i].eval(ints, bools) != vars[j].eval(ints, bools));
            } else {
                assert(vars[j].eval(ints, bools) != vars[i].eval(ints, bools));
            }
        }
    }
    if apart_from_fixed(ctx, vars, ints, bools) && all_different(remaining)(ints, bools) {
        assert forall|i: int, j: int| 0 <= i < j < vars.len() implies (#[trigger] vars[i]).eval(
            ints,
            bools,
        ) != (#[trigger] vars[j]).eval(ints, bools) by {
            if ctx.view_min(vars[i]) == ctx.view_max(vars[i]) {
                assert(vars[j].eval(ints, bools) != vars[i].eval(ints, bools));
            } else if ctx.view_min(vars[j]) == ctx.view_max(vars[j]) {
                assert(vars[i].eval(ints, bools) != vars[j].eval(ints, bools));
            } else {
                let (p, q) = lemma_unfixed_places(vars, ctx, n, i, j);
                assert(remaining[p].eval(ints, bools) != remaining[q].eval(ints, bools));
            }
        }
    }
}

/// Where two of the views that are left come from.
proof fn lemma_unfixed_pair(
    vars: Seq<IntView>,
    ctx: &SolvingContext,
    upto: int,
    p: int,
    q: int,
) -> (r: (int, int))
    requires
        0 <= upto <= vars.len(),
        0 <= p < q < unfixed(vars, ctx, upto).len(),
    ensures
        0 <= r.0 < r.1 < upto,
        vars[r.0] == unfixed(vars, ctx, upto)[p],
        vars[r.1] == unfixed(vars, ctx, upto)[q],
    decreases upto,
{
    let rest = unfixed(vars, ctx, upto - 1);
    if q < rest.len() {
        lemma_unfixed_pair(vars, ctx, upto - 1, p, q)
    } else {
        (lemma_unfixed_source(vars, ctx, upto - 1, p), upto - 1)
    }
}

proof fn lemma_unfixed_source(vars: Seq<IntView>, ctx: &SolvingContext, upto: int, p: int) -> (i:
    int)
    requires
        0 <= upto <= vars.len(),
        0 <= p < unfixed(vars, ctx, upto).len(),
    ensures
        0 <= i < upto,
        vars[i] == unfixed(vars, ctx, upto)[p],
    decreases upto,
{
    if p < unfixed(vars, ctx, upto - 1).len() {
        lemma_unfixed_source(vars, ctx, upto - 1, p)
    } else {
        upto - 1
    }
}

/// Where two views that are not fixed are among those that are left.
proof fn lemma_unfixed_places(
    vars: Seq<IntView>,
    ctx: &SolvingContext,
    upto: int,
    i: int,
    j: int,
) -> (r: (int, int))
    requires
        0 <= i < j < upto <= vars.len(),
        ctx.view_min(vars[i]) != ctx.view_max(vars[i]),
        ctx.view_min(vars[j]) != ctx.view_max(vars[j]),
    ensures
        0 <= r.0 < r.1 < unfixed(vars, ctx, upto).len(),
        unfixed(vars, ctx, upto)[r.0] == vars[i],
        unfixed(vars, ctx, upto)[r.1] == vars[j],
    decreases upto,
{
    if j == upto - 1 {
        let p = lemma_unfixed_place(vars, ctx, upto - 1, i);
        (p, unfixed(vars, ctx, upto - 1).len() as int)
    } else {
        lemma_unfixed_places(vars, ctx, upto - 1, i, j)
    }
}

proof fn lemma_unfixed_place(vars: Seq<IntView>, ctx: &SolvingContext, upto: int, i: int) -> (p:
    int)
    requires
        0 <= i < upto <= vars.len(),
        ctx.view_min(vars[i]) != ctx.view_max(vars[i]),
    ensures
        0 <= p < unfixed(vars, ctx, upto).len(),
        unfixed(vars, ctx, upto)[p] == vars[i],
    decreases upto,
{
    if i == upto - 1 {
        unfixed(vars, ctx, upto - 1).len() as int
    } else {
        lemma_unfixed_place(vars, ctx, upto - 1, i)
    }
}

/// The views that are not fixed are among the views.
proof fn lemma_unfixed(vars: Seq<IntView>, ctx: &SolvingContext, upto: int, k: int)
    requires
        0 <= upto <= vars.len(),
        0 <= k < unfixed(vars, ctx, upto).len(),
    ensures
        vars.contains(unfixed(vars, ctx, upto)[k]),
        ctx.view_min(unfixed(vars, ctx, upto)[k]) != ctx.view_max(unfixed(vars, ctx, upto)[k]),
    decreases upto,
{
    if upto > 0 {
        let rest = unfixed(vars, ctx, upto - 1);
        if k < rest.len() {
            lemma_unfixed(vars, ctx, upto - 1, k);
        } else {
            assert(vars[upto - 1] == unfixed(vars, ctx, upto)[k]);
        }
    }
}

impl DiffLogicBrancher {
    /// Add a brancher on the order of the views to the engine. Only views with factor one can be
    /// compared: the others are left out. Nothing is added unless two views are left.
    pub fn new_in(solver: &mut Engine, vars: Vec<IntView>)
        requires
            old(solver).context.wf(),
        ensures
            ({
                let kept = vars@.filter(|v: IntView| v.is_diff_lit_endpoint());
                if kept.len() < 2 {
                    *final(solver) == *old(solver)
                } else {
                    let n = old(solver).branchers.len() as int;
                    &&& final(solver).branchers.len() == n + 1
                    &&& forall|i: int|
                        0 <= i < n ==> #[trigger] final(solver).branchers[i] == old(
                            solver,
                        ).branchers[i]
                    &&& final(solver).branchers[n].vars@ == kept
                    &&& final(solver).branchers[n].next == (Trailed {
                        index: old(solver).context.trail@.len() as usize,
                    })
                    &&& final(solver).context.trail@ == old(solver).context.trail@.push(0)
                    &&& final(solver).context.same_but_trail(&old(solver).context)
                    &&& final(solver).context.wf()
                    &&& final(solver).propagators == old(solver).propagators
                    &&& final(solver).requests == old(solver).requests
                    &&& final(solver).diff_logic == old(solver).diff_logic
                    // The search must be able to decide each of the views.
                    &&& final(solver).decidable@ == old(solver).decidable@ + kept
                    // The difference constraints stay in order, and do not use the new value.
                    &&& old(solver).diff_logic.graph.in_order(&old(solver).context) ==> {
                        &&& final(solver).diff_logic.graph.in_order(&final(solver).context)
                        &&& !final(solver).diff_logic.graph.graph.owner@.dom().contains(
                            final(solver).branchers[n].next.index,
                        )
                    }
                }
            }),
    {
        let ghost keep = |v: IntView| v.is_diff_lit_endpoint();
        let ghost solver0 = *solver;
        let mut kept: Vec<IntView> = Vec::new();
        let mut i: usize = 0;
        proof {
            reveal(Seq::filter);
            assert(vars@.take(0).filter(keep) =~= Seq::<IntView>::empty());
        }
        while i < vars.len()
            invariant
                i <= vars.len(),
                kept@ == vars@.take(i as int).filter(keep),
                keep == (|v: IntView| v.is_diff_lit_endpoint()),
            decreases vars.len() - i,
        {
            proof {
                reveal(Seq::filter);
                let more = vars@.take(i + 1);
                assert(more.drop_last() =~= vars@.take(i as int));
                assert(more.last() == vars@[i as int]);
            }
            if vars[i].is_diff_lit_endpoint() {
                kept.push(vars[i]);
            }
            i = i + 1;
        }
        proof {
            assert(vars@.take(vars.len() as int) =~= vars@);
        }
        if kept.len() < 2 {
            return ;
        }
        let mut k: usize = 0;
        proof {
            assert(solver.decidable@ =~= solver0.decidable@ + kept@.take(0));
        }
        while k < kept.len()
            invariant
                k <= kept.len(),
                solver.decidable@ == solver0.decidable@ + kept@.take(k as int),
                solver.propagators == solver0.propagators,
                solver.requests == solver0.requests,
                solver.branchers == solver0.branchers,
                solver.diff_logic == solver0.diff_logic,
                solver.context == solver0.context,
            decreases kept.len() - k,
        {
            solver.ensure_decidable(kept[k]);
            proof {
                assert(kept@.take(k + 1) =~= kept@.take(k as int).push(kept@[k as int]));
                assert(solver.decidable@ =~= solver0.decidable@ + kept@.take(k + 1));
            }
            k = k + 1;
        }
        proof {
            assert(kept@.take(kept.len() as int) =~= kept@);
        }
        let ghost before_ctx = solver.context;
        let next: Trailed = solver.context.trail.track(0);
        proof {
            if solver0.diff_logic.graph.in_order(&solver0.context) {
                lemma_tracked_in_order(
                    &solver0.diff_logic.graph,
                    &before_ctx,
                    &solver.context,
                    0,
                );
            }
        }
        solver.branchers.push(DiffLogicBrancher { vars: kept, next });
    }
}

} // verus!
