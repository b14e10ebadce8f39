//! Propagators that share the state of difference constraints: one for the bounds, and one for
//! the gates.

use vstd::prelude::*;

use crate::constraints::diff_bounds::{lemma_room_limit, lemma_two_atoms};
use crate::constraints::diff_gates::gates_closed;
use crate::constraints::diff_graph::DiffEdge;
use crate::constraints::diff_paths::none_missed;
use crate::constraints::diff_propagation::{
    bounds_done, edge_of_data, gates_refused, put_off, refusal,
};
use crate::constraints::diff_propagator::{advise_bools, advise_ints, advised};
use crate::constraints::difference_logic::{
    active_potentials, advances, diff_rule, edge_kept, gate_holds, node_value, same_active,
    same_graph, DiffLogicState,
};
use crate::helpers::fx::set_new;
use crate::helpers::shortest::weight_room;
use crate::solver::initialization::{InitializationContext, PriorityLevel};
use crate::solver::int_view::lemma_view_bounds;
use crate::solver::reason::{Conflict, DeferredReason};
use crate::solver::solving_context::{subject_holds, IntEvent, SolvingContext};
use crate::solver::view::{
    all_hold, BoolAssignment, BoolView, IntAssignment, IntLitMeaning, IntVal,
};

verus! {

/// The propagator of the bounds.
#[derive(Clone, Copy, Debug, Default, PartialEq, Eq, Hash, Structural)]
pub struct DifferenceLogicBoundsShell;

/// The propagator of the gates.
#[derive(Clone, Copy, Debug, Default, PartialEq, Eq, Hash, Structural)]
pub struct DifferenceLogicBooleansShell;

/// The least value of the start and the largest value of the end of an edge that a reason for
/// its gate not to hold speaks of. One of them is a current bound, and the other one is as
/// weak as it can be.
pub open spec fn relaxed_ends(
    diff: &DiffLogicState,
    ctx: &SolvingContext,
    e: int,
    lb_fixed: bool,
) -> (int, int) {
    let edge = diff.graph.edges[e];
    if lb_fixed {
        let lb = ctx.view_min(diff.graph.nodes.int_vars[edge.from as int]);
        (lb, lb - edge.val - 1)
    } else {
        let ub = ctx.view_max(diff.graph.nodes.int_vars[edge.to as int]);
        (ub + edge.val + 1, ub)
    }
}

/// Whether the literals say that the ends of the edge lie within those values.
pub open spec fn explains_relaxed(
    diff: &DiffLogicState,
    ctx: &SolvingContext,
    e: int,
    lb_fixed: bool,
    atoms: Seq<BoolView>,
) -> bool {
    let edge = diff.graph.edges[e];
    let (low, high) = relaxed_ends(diff, ctx, e, lb_fixed);
    &&& low - high == edge.val + 1
    &&& forall|ints: IntAssignment, bools: BoolAssignment| #[trigger]
        all_hold(atoms, ints, bools) <==> (node_value(&diff.graph, edge.from as int, ints, bools)
            >= low && node_value(&diff.graph, edge.to as int, ints, bools) <= high)
}

/// A relaxed reason that was put off holds where it is built, and what it was put off for follows
/// from it.
pub proof fn lemma_put_off_relaxed(
    diff: &DiffLogicState,
    ctx: &SolvingContext,
    subject: Option<BoolView>,
    d: DeferredReason,
    atoms: Seq<BoolView>,
    ints: IntAssignment,
    bools: BoolAssignment,
)
    requires
        diff.grounded(ctx),
        2 * diff.graph.edges.len() <= u64::MAX,
        put_off(diff, ctx)(subject, d),
        explains_relaxed(diff, ctx, d.data as int / 2, d.data % 2 == 1, atoms),
    ensures
        0 <= d.data as int / 2 < diff.graph.edges.len(),
        ctx.admits(ints, bools) ==> all_hold(atoms, ints, bools),
        diff_rule(&diff.graph)(ints, bools) && all_hold(atoms, ints, bools) ==> subject_holds(
            subject,
            ints,
            bools,
        ),
{
    let e = choose|e: int| #[trigger] refusal(&diff.graph, ctx, subject, d, e);
    let edge = diff.graph.edges[e];
    diff.graph.lemma_edge(e);
    assert(ctx.has_view(diff.graph.nodes.int_vars[edge.from as int]));
    assert(ctx.has_view(diff.graph.nodes.int_vars[edge.to as int]));
    if ctx.admits(ints, bools) {
        lemma_view_bounds(ctx, diff.graph.nodes.int_vars[edge.from as int], ints, bools);
        lemma_view_bounds(ctx, diff.graph.nodes.int_vars[edge.to as int], ints, bools);
    }
    assert(subject_holds(subject, ints, bools) == !gate_holds(
        &diff.graph,
        diff.graph.edges[e],
        ints,
        bools,
    ));
    if gate_holds(&diff.graph, diff.graph.edges[e], ints, bools) && diff_rule(&diff.graph)(
        ints,
        bools,
    ) {
        assert(edge_kept(&diff.graph, diff.graph.edges[e], ints, bools));
    }
}

impl DifferenceLogicBoundsShell {
    /// Ask for the bounds of all nodes, for backtracking, and to be run at once.
    pub fn initialize(&self, diff: &DiffLogicState, ctx: &mut InitializationContext)
        ensures
            final(ctx).priority == match diff.priority_bounds {
                Some(p) => p,
                None => PriorityLevel::Medium,
            },
            final(ctx).enqueue,
            final(ctx).backtrack,
            advised(&diff.graph, old(ctx), final(ctx), true, false),
    {
        ctx.priority =
        match diff.priority_bounds {
            Some(p) => p,
            None => PriorityLevel::Medium,
        };
        advise_ints(&diff.graph, ctx);
        ctx.backtrack = true;
        ctx.enqueue = true;
    }

    /// Forget the bounds that were propagated, and which have changed.
    pub fn advise_of_backtrack(&self, diff: &mut DiffLogicState)
        requires
            old(diff).bounds_listed(),
        ensures
            final(diff).graph == old(diff).graph,
            final(diff).pi == old(diff).pi,
            final(diff).backtrace == old(diff).backtrace,
            final(diff).visited == old(diff).visited,
            final(diff).visited_updates == old(diff).visited_updates,
            final(diff).fixed_bools == old(diff).fixed_bools,
            final(diff).pi_initialized == old(diff).pi_initialized,
            final(diff).same_settings(old(diff)),
            final(diff).bounds_listed(),
            final(diff).lower_bound.len() == old(diff).lower_bound.len(),
            final(diff).upper_bound.len() == old(diff).upper_bound.len(),
            forall|k: usize, upper: bool| !#[trigger] final(diff).changes(upper).contains(k),
            forall|n: int|
                0 <= n < final(diff).lower_bound.len() ==> (#[trigger] final(diff).lower_bound[n])
                    is None,
            forall|n: int|
                0 <= n < final(diff).upper_bound.len() ==> (#[trigger] final(diff).upper_bound[n])
                    is None,
    {
        diff.reset_bounds();
    }

    /// Note that an integer view has changed. Returns whether the propagator is to be run.
    pub fn advise_of_int_change(
        &self,
        diff: &mut DiffLogicState,
        ctx: &SolvingContext,
        data: u64,
        event: IntEvent,
    ) -> (r: bool)
        requires
            old(diff).in_order(ctx),
            data < old(diff).graph.size(),
        ensures
            final(diff).in_order(ctx),
            final(diff).same_but_changes(old(diff)),
            final(diff).notes(old(diff), ctx, data as usize, event, r),
            final(diff).follows_report(old(diff), ctx, data as usize, event),
    {
        diff.advise_int_change(ctx, data as usize, event)
    }

    /// Propagate the bounds that have changed.
    pub fn propagate(&self, diff: &mut DiffLogicState, ctx: &mut SolvingContext) -> (r: Result<
        (),
        Conflict,
    >)
        requires
            old(diff).in_order(old(ctx)),
        ensures
            final(ctx).infers_later(
                old(ctx),
                diff_rule(&old(diff).graph),
                put_off(old(diff), final(ctx)),
                r,
            ),
            exists|first: int| #[trigger]
                gates_refused(
                    final(diff),
                    old(ctx),
                    final(ctx),
                    first,
                    final(ctx).propagation_queue.len() as int,
                ) && old(diff).all_told(old(ctx), final(ctx), first),
            final(diff).kept(final(ctx)),
            same_graph(&old(diff).graph, &final(diff).graph),
            same_active(&old(diff).graph, old(ctx).trail@, &final(diff).graph, final(ctx).trail@),
            final(diff).fixed_bools == old(diff).fixed_bools,
            final(diff).same_settings(old(diff)),
            r is Ok ==> {
                &&& final(diff).in_order(final(ctx))
                &&& advances(old(diff), old(ctx), final(diff), final(ctx))
                &&& bounds_done(old(diff), old(ctx), final(diff), final(ctx))
            },
            !old(diff).pi_initialized && !active_potentials(&old(diff).graph, old(ctx).trail@)
                ==> r is Err,
    {
        diff.propagate_bounds(ctx)
    }

    /// The literals that a gate was fixed for not to hold: a bound of one end of the edge, and
    /// the weakest bound of the other one that rules the edge out with it.
    pub fn explain(&self, diff: &DiffLogicState, ctx: &SolvingContext, data: u64) -> (r: Vec<
        BoolView,
    >)
        requires
            diff.grounded(ctx),
            diff.values_fit(),
            data / 2 < diff.graph.edges.len(),
        ensures
            r.len() == 2,
            explains_relaxed(diff, ctx, data as int / 2, data % 2 == 1, r@),
    {
        let lb_fixed: bool = data % 2 == 1;
        let e: usize = edge_of_data(data);
        let edge: DiffEdge = diff.graph.edges[e];
        proof {
            diff.graph.lemma_edge(e as int);
            lemma_room_limit(diff.graph.size(), diff.graph.edges.len() as int);
            assert(-weight_room(diff.graph.size(), diff.graph.edges.len() as int)
                <= diff.graph.edges[e as int].val);
            assert(ctx.has_view(diff.graph.nodes.int_vars[edge.from as int]));
            assert(ctx.has_view(diff.graph.nodes.int_vars[edge.to as int]));
        }
        let low: IntVal;
        let high: IntVal;
        if lb_fixed {
            low = ctx.min(diff.graph.nodes.int_vars[edge.from]);
            high = low - edge.val - 1;
        } else {
            high = ctx.max(diff.graph.nodes.int_vars[edge.to]);
            low = high + edge.val + 1;
        }
        let lit_from: BoolView = diff.graph.nodes.int_vars[edge.from].lit(
            IntLitMeaning::GreaterEq(low),
        );
        let lit_to: BoolView = diff.graph.nodes.int_vars[edge.to].lit(
            IntLitMeaning::Less(high + 1),
        );
        let mut r: Vec<BoolView> = Vec::new();
        r.push(lit_from);
        r.push(lit_to);
        proof {
            assert forall|ints: IntAssignment, bools: BoolAssignment| #[trigger]
                all_hold(r@, ints, bools) <==> (node_value(
                    &diff.graph,
                    edge.from as int,
                    ints,
                    bools,
                ) >= low && node_value(&diff.graph, edge.to as int, ints, bools) <= high) by {
                lemma_two_atoms(r@, ints, bools);
                assert(lit_from.holds(ints, bools) == (node_value(
                    &diff.graph,
                    edge.from as int,
                    ints,
                    bools,
                ) >= low));
                assert(lit_to.holds(ints, bools) == (node_value(
                    &diff.graph,
                    edge.to as int,
                    ints,
                    bools,
                ) < high + 1));
            }
        }
        r
    }
}

impl DifferenceLogicBooleansShell {
    /// Ask for all gates, for backtracking, and to be run at once.
    pub fn initialize(&self, diff: &DiffLogicState, ctx: &mut InitializationContext)
        ensures
            final(ctx).priority == match diff.priority_booleans {
                Some(p) => p,
                None => PriorityLevel::Low,
            },
            final(ctx).enqueue,
            final(ctx).backtrack,
            advised(&diff.graph, old(ctx), final(ctx), false, true),
    {
        ctx.priority =
        match diff.priority_booleans {
            Some(p) => p,
            None => PriorityLevel::Low,
        };
        advise_bools(&diff.graph, ctx);
        ctx.backtrack = true;
        ctx.enqueue = true;
    }

    /// Note that a gate was fixed. Returns whether the propagator is to be run.
    pub fn advise_of_bool_change(&self, diff: &mut DiffLogicState, data: u64) -> (r: bool)
        requires
            data < old(diff).graph.bool_vars.len(),
        ensures
            final(diff).same_but_fixed(old(diff)),
            final(diff).fixed_bools@ == old(diff).fixed_bools@.insert(data as usize),
            r == !old(diff).fixed_bools@.contains(data as usize),
            forall|ctx: SolvingContext|
                old(diff).in_order(&ctx) ==> #[trigger] final(diff).in_order(&ctx),
    {
        diff.advise_bool_fixed(data as usize)
    }

    /// Forget which gates were reported.
    pub fn advise_of_backtrack(&self, diff: &mut DiffLogicState)
        ensures
            final(diff).same_but_fixed(old(diff)),
            forall|b: usize| !#[trigger] final(diff).fixed_bools@.contains(b),
    {
        diff.fixed_bools = set_new();
    }

    /// Propagate the gates that were fixed.
    pub fn propagate(&self, diff: &mut DiffLogicState, ctx: &mut SolvingContext) -> (r: Result<
        (),
        Conflict,
    >)
        requires
            old(diff).in_order(old(ctx)),
            old(diff).pi_initialized,
            forall|b: usize| #[trigger]
                old(diff).fixed_bools@.contains(b) ==> old(ctx).decides(
                    old(diff).graph.bool_vars[b as int],
                    true,
                ) || old(ctx).decides(old(diff).graph.bool_vars[b as int], false),
        ensures
            final(ctx).infers(old(ctx), diff_rule(&old(diff).graph), r),
            final(diff).kept(final(ctx)),
            same_graph(&old(diff).graph, &final(diff).graph),
            final(diff).same_settings(old(diff)),
            forall|b: usize| !#[trigger] final(diff).fixed_bools@.contains(b),
            r is Ok ==> {
                &&& final(diff).in_order(final(ctx))
                &&& advances(old(diff), old(ctx), final(diff), final(ctx))
                &&& forall|b: usize| #[trigger]
                    old(diff).fixed_bools@.contains(b) ==> gates_closed(
                        final(diff),
                        final(ctx),
                        b as int,
                    )
                &&& old(diff).use_inc_imp ==> none_missed(
                    &old(diff).graph,
                    old(ctx).trail@,
                    &final(diff).graph,
                    final(ctx).trail@,
                )
                &&& forall|e: int, upper: bool|
                    #![trigger final(diff).passes(final(ctx), upper, e)]
                    0 <= e < final(diff).graph.edges.len() && final(diff).graph.active_at(
                        e,
                        final(ctx).trail@,
                    ) && (old(diff).graph.active_at(e, old(ctx).trail@) ==> old(diff).passes(
                        old(ctx),
                        upper,
                        e,
                    )) ==> final(diff).passes(final(ctx), upper, e)
            },
    {
        diff.propagate_booleans(ctx)
    }
}

} // verus!
