//! Propagation of the gates of difference constraints that were fixed.

use vstd::prelude::*;

use crate::constraints::diff_bounds::{head, lemma_near_narrowed, lemma_room_limit, tail};
use crate::constraints::diff_graph::{DiffEdge, ListKind};
use crate::constraints::diff_paths::{
    all_noticed, lemma_none_missed_join, lemma_none_missed_new, lemma_none_missed_same,
    none_missed, noticed,
};
use crate::constraints::diff_propagation::{
    active_closed, lemma_passes_later, lemma_sound_narrowed,
};
use crate::constraints::difference_logic::{
    advances, diff_rule, gate_bounded, lemma_advances_join, lemma_advances_nothing,
    lemma_decides_narrowed, lemma_same_rule, negative_cycle, same_active, same_graph, settled_edge,
    DiffLogicState,
};
use crate::helpers::fx::{set_elements, set_new};
use crate::helpers::shortest::weight_room;
use crate::solver::inference::{lemma_infers_join, lemma_infers_nothing};
use crate::solver::reason::Conflict;
use crate::solver::solving_context::SolvingContext;
use crate::solver::view::{BoolAssignment, BoolView, IntAssignment, IntVal};

verus! {

impl DiffLogicState {
    /// Whether the states have the same propagated bounds, changes and settings.
    pub open spec fn same_marks(&self, other: &DiffLogicState) -> bool {
        &&& self.lower_bound == other.lower_bound
        &&& self.upper_bound == other.upper_bound
        &&& self.lb_updates == other.lb_updates
        &&& self.ub_updates == other.ub_updates
        &&& self.lower_bound_changes == other.lower_bound_changes
        &&& self.upper_bound_changes == other.upper_bound_changes
        &&& self.fixed_bools == other.fixed_bools
        &&& self.pi_initialized == other.pi_initialized
        &&& self.same_settings(other)
    }

    /// Propagate what an edge that has just become active implies: that there is no cycle of
    /// negative value, what becomes of open edges if `check_implied` is set, and the bounds of
    /// its ends.
    #[verifier::spinoff_prover]
    fn propagate_edge_addition(&mut self, ctx: &mut SolvingContext, e: usize, check_implied: bool)
        -> (r: Result<(), Conflict>)
        requires
            old(self).grounded(old(ctx)),
            old(self).sized(),
            old(self).values_fit(),
            old(self).visits_listed(),
            old(self).bounds_sound(old(ctx)),
            e < old(self).graph.edges.len(),
            old(self).graph.active_at(e as int, old(ctx).trail@),
            old(self).pi_valid_but(old(ctx).trail@, e as int),
            forall|l: int|
                0 <= l < old(ctx).trail.depth() ==> !old(self).graph.active_at(
                    e as int,
                    #[trigger] old(ctx).trail.saved(l),
                ),
        ensures
            final(ctx).infers(old(ctx), diff_rule(&old(self).graph), r),
            final(self).same_marks(old(self)),
            final(self).grounded(final(ctx)),
            final(self).sized(),
            final(self).values_fit(),
            final(self).visits_listed(),
            final(self).bounds_sound(final(ctx)),
            final(self).pi_recovers(&final(ctx).trail),
            same_graph(&old(self).graph, &final(self).graph),
            same_active(&old(self).graph, old(ctx).trail@, &final(self).graph, final(ctx).trail@),
            negative_cycle(&old(self).graph, old(ctx).trail@, e as int) ==> r is Err,
            r is Ok ==> {
                &&& final(self).pi_valid(final(ctx).trail@)
                &&& advances(old(self), old(ctx), final(self), final(ctx))
                &&& final(self).passes(final(ctx), false, e as int)
                &&& final(self).passes(final(ctx), true, e as int)
                // Both bounds are passed on along the edge, whether they were propagated or not.
                &&& hands_on(old(self), old(ctx), final(self), final(ctx), false, e as int)
                &&& hands_on(old(self), old(ctx), final(self), final(ctx), true, e as int)
            },
            r is Ok && check_implied ==> all_noticed(
                &old(self).graph,
                old(ctx).trail@,
                e as int,
                &final(self).graph,
                final(ctx).trail@,
            ),
    {
        let ghost st0 = *self;
        let ghost ctx0 = *ctx;
        let ghost rule = diff_rule(&self.graph);
        proof {
            self.graph.lemma_edge(e as int);
            lemma_infers_nothing(&ctx0, rule);
            lemma_advances_nothing(self, ctx);
        }
        let sat: Result<bool, Conflict> = self.inc_sat(ctx, e);
        let ghost st1 = *self;
        proof {
            lemma_sound_narrowed(&st0, &ctx0, &st1, ctx);
            assert(st1.pi_valid_but(ctx.trail@, e as int));
        }
        match sat {
            Err(conflict) => {
                return Err(conflict);
            },
            Ok(fits) => {
                proof {
                    // The gating view of an active edge holds.
                    assert(fits);
                    assert(st1.pi_valid(ctx.trail@)) by {
                        assert forall|k: int|
                            0 <= k < st1.graph.edges.len() && k != -1
                                && #[trigger] st1.graph.active_at(k, ctx.trail@) implies st1.pi_keeps(
                            st1.graph.edges[k],
                        ) by {}
                    }
                }
            },
        }
        if check_implied {
            let r: Result<(), Conflict> = self.inc_imp(ctx, e);
            proof {
                lemma_sound_narrowed(&st1, &ctx0, self, ctx);
                assert(self.pi_valid_but(ctx.trail@, -1));
            }
            if r.is_err() {
                return r;
            }
        }
        let ghost st2 = *self;
        let ghost ctx2 = *ctx;
        proof {
            assert(advances(&st0, &ctx0, &st2, &ctx2)) by {
                assert(advances(&st1, &ctx0, &st2, &ctx2));
                lemma_advances_nothing(&st1, &ctx0);
            }
            assert(ctx2.infers(&ctx0, rule, Ok(())));
            lemma_same_rule(&st0.graph, &st2.graph);
            assert(st2.graph.edges[e as int].same_but_positions(st0.graph.edges[e as int]));
            assert(st0.graph.active_at(e as int, ctx0.trail@));
            assert(st2.graph.active_at(e as int, ctx2.trail@));
            st2.graph.lemma_edge(e as int);
            lemma_room_limit(st2.graph.size(), st2.graph.edges.len() as int);
            assert(-weight_room(st2.graph.size(), st2.graph.edges.len() as int)
                <= st2.graph.edges[e as int].val);
            assert(self.pi_valid_but(ctx.trail@, -1));
            lemma_infers_nothing(&ctx2, rule);
        }
        let edge: DiffEdge = self.graph.edges[e];
        let source_lb: IntVal = self.get_cur_lower_bound(ctx, edge.from);
        let lb_y: IntVal = source_lb - edge.val;
        if lb_y > self.get_cur_lower_bound(ctx, edge.to) {
            let r: Result<(), Conflict> = self.set_int_lower_bound(
                ctx,
                edge.to,
                lb_y,
                edge.bool_var,
                edge.from,
                source_lb,
                Ghost(e as int),
            );
            proof {
                lemma_infers_join(&ctx0, &ctx2, ctx, rule, r);
                lemma_sound_narrowed(&st2, &ctx2, self, ctx);
            }
            if r.is_err() {
                return r;
            }
        }
        let ghost ctx3 = *ctx;
        proof {
            assert(ctx3.infers(&ctx0, rule, Ok(())));
            assert(self.passes(&ctx3, false, e as int));
        }
        let target_ub: IntVal = self.get_cur_upper_bound(ctx, edge.to);
        let ub_x: IntVal = target_ub + edge.val;
        if ub_x < self.get_cur_upper_bound(ctx, edge.from) {
            let r: Result<(), Conflict> = self.set_int_upper_bound(
                ctx,
                edge.from,
                ub_x,
                edge.bool_var,
                edge.to,
                target_ub,
                Ghost(e as int),
            );
            proof {
                lemma_infers_join(&ctx0, &ctx3, ctx, rule, r);
                lemma_sound_narrowed(&st2, &ctx3, self, ctx);
            }
            if r.is_err() {
                return r;
            }
        }
        proof {
            lemma_near_narrowed(&st0, &ctx0, &ctx2);
            lemma_near_narrowed(&st2, &ctx2, &ctx3);
            assert(ctx.infers(&ctx3, rule, Ok(()))) by {
                lemma_infers_nothing(&ctx3, rule);
            }
            assert(ctx3.infers(&ctx2, rule, Ok(())));
            lemma_near_narrowed(&st2, &ctx3, ctx);
            assert forall|n: int, u: bool| #[trigger] self.propagated(u, n) == st0.propagated(
                u,
                n,
            ) by {}
            let (f, t) = (edge.from as int, edge.to as int);
            assert(st0.near_node(&ctx2, false, f) >= st0.near_node(&ctx0, false, f));
            assert(st0.near_node(&ctx2, true, t) >= st0.near_node(&ctx0, true, t));
            assert(st2.near_node(&ctx3, true, t) >= st2.near_node(&ctx2, true, t));
            assert(st2.near_node(ctx, false, t) >= st2.near_node(&ctx3, false, t));
            assert(self.passes(ctx, true, e as int));
            assert(ctx.infers(&ctx2, rule, Ok(()))) by {
                lemma_infers_join(&ctx2, &ctx3, ctx, rule, Ok(()));
            }
            lemma_passes_later(&st2, &ctx3, self, ctx, false);
            assert(advances(&st2, &ctx2, self, ctx));
            lemma_advances_join(&st0, &ctx0, &st2, &ctx2, self, ctx);
            if check_implied {
                assert(st1.graph == st0.graph);
                assert forall|k: int|
                    0 <= k < st0.graph.edges.len() && (#[trigger] st0.graph.edges[k]).bool_var
                        is Some implies noticed(
                    &st0.graph,
                    ctx0.trail@,
                    e as int,
                    st0.graph.edges[k],
                    self.graph.closed_at(k, ctx.trail@),
                ) by {
                    assert(st2.graph.edges[k].same_but_positions(st0.graph.edges[k]));
                    assert(st2.graph.edges[k].bool_var is Some);
                }
            }
        }
        Ok(())
    }
}

/// Whether the bound that the search started from at the start of the edge was passed on to its
/// end.
pub open spec fn hands_on(
    st0: &DiffLogicState,
    ctx0: &SolvingContext,
    st: &DiffLogicState,
    ctx: &SolvingContext,
    upper: bool,
    e: int,
) -> bool {
    let edge = st.graph.edges[e];
    st.near_node(ctx, upper, head(edge, upper)) >= st0.current(ctx0, upper, tail(edge, upper))
        - edge.val
}

/// Whether that holds of every edge that has become active.
pub open spec fn new_edges_hand_on(
    st0: &DiffLogicState,
    ctx0: &SolvingContext,
    st: &DiffLogicState,
    ctx: &SolvingContext,
) -> bool {
    forall|e: int, upper: bool|
        0 <= e < st.graph.edges.len() && st.graph.active_at(e, ctx.trail@) && !st0.graph.active_at(
            e,
            ctx0.trail@,
        ) ==> #[trigger] hands_on(st0, ctx0, st, ctx, upper, e)
}

/// Bounds that the searches start from only get tighter, and those that were passed on stay so.
pub proof fn lemma_hand_on_join(
    f: &DiffLogicState,
    ctx0: &SolvingContext,
    g: &DiffLogicState,
    ctx1: &SolvingContext,
    h: &DiffLogicState,
    ctx2: &SolvingContext,
)
    requires
        f.grounded(ctx0),
        g.grounded(ctx1),
        ctx1.wf(),
        ctx2.wf(),
        advances(f, ctx0, g, ctx1),
        advances(g, ctx1, h, ctx2),
        forall|n: int, upper: bool|
            0 <= n < f.graph.size() ==> #[trigger] g.current(ctx1, upper, n) >= f.current(
                ctx0,
                upper,
                n,
            ),
        new_edges_hand_on(f, ctx0, g, ctx1),
        new_edges_hand_on(g, ctx1, h, ctx2),
    ensures
        new_edges_hand_on(f, ctx0, h, ctx2),
{
    lemma_near_narrowed(g, ctx1, ctx2);
    assert forall|e: int, upper: bool|
        0 <= e < h.graph.edges.len() && h.graph.active_at(e, ctx2.trail@) && !f.graph.active_at(
            e,
            ctx0.trail@,
        ) implies #[trigger] hands_on(f, ctx0, h, ctx2, upper, e) by {
        g.graph.lemma_edge(e);
        assert(h.graph.edges[e].same_but_positions(g.graph.edges[e]));
        let (t, s) = (head(g.graph.edges[e], upper), tail(g.graph.edges[e], upper));
        assert(g.current(ctx1, upper, s) >= f.current(ctx0, upper, s));
        assert(g.near_node(ctx2, upper, t) >= g.near_node(ctx1, upper, t));
        if g.graph.active_at(e, ctx1.trail@) {
            assert(hands_on(f, ctx0, g, ctx1, upper, e));
        } else {
            assert(hands_on(g, ctx1, h, ctx2, upper, e));
        }
    }
}

/// What propagating gates does, as long as there is no conflict.
pub open spec fn gates_driven(
    st0: &DiffLogicState,
    ctx0: &SolvingContext,
    st: &DiffLogicState,
    ctx: &SolvingContext,
) -> bool {
    &&& st.in_order(ctx)
    &&& st.pi_initialized
    &&& ctx.infers(ctx0, diff_rule(&st0.graph), Ok(()))
    &&& advances(st0, ctx0, st, ctx)
    &&& st.same_marks(st0)
    // Bounds stay passed on, and are passed on along new active edges.
    &&& forall|e: int, upper: bool|
        #![trigger st.passes(ctx, upper, e)]
        0 <= e < st.graph.edges.len() && st.graph.active_at(e, ctx.trail@) && (st0.graph.active_at(
            e,
            ctx0.trail@,
        ) ==> st0.passes(ctx0, upper, e)) ==> st.passes(ctx, upper, e)
    &&& new_edges_hand_on(st0, ctx0, st, ctx)
}

proof fn lemma_gates_join(
    f: &DiffLogicState,
    ctx0: &SolvingContext,
    g: &DiffLogicState,
    ctx1: &SolvingContext,
    h: &DiffLogicState,
    ctx2: &SolvingContext,
)
    requires
        f.grounded(ctx0),
        gates_driven(f, ctx0, g, ctx1),
        gates_driven(g, ctx1, h, ctx2),
    ensures
        gates_driven(f, ctx0, h, ctx2),
{
    lemma_same_rule(&f.graph, &g.graph);
    lemma_infers_join(ctx0, ctx1, ctx2, diff_rule(&f.graph), Ok(()));
    lemma_advances_join(f, ctx0, g, ctx1, h, ctx2);
    lemma_near_narrowed(f, ctx0, ctx1);
    assert forall|n: int, upper: bool| 0 <= n < f.graph.size() implies #[trigger] g.current(
        ctx1,
        upper,
        n,
    ) >= f.current(ctx0, upper, n) by {
        assert(g.propagated(upper, n) == f.propagated(upper, n));
        assert(f.near_node(ctx1, upper, n) >= f.near_node(ctx0, upper, n));
    }
    lemma_hand_on_join(f, ctx0, g, ctx1, h, ctx2);
    assert forall|e: int, upper: bool|
        #![trigger h.passes(ctx2, upper, e)]
        0 <= e < h.graph.edges.len() && h.graph.active_at(e, ctx2.trail@) && (f.graph.active_at(
            e,
            ctx0.trail@,
        ) ==> f.passes(ctx0, upper, e)) implies h.passes(ctx2, upper, e) by {
        if g.graph.active_at(e, ctx1.trail@) {
            assert(g.passes(ctx1, upper, e));
        }
    }
}

proof fn lemma_gates_nothing(st: &DiffLogicState, ctx: &SolvingContext)
    requires
        st.in_order(ctx),
        st.pi_initialized,
    ensures
        gates_driven(st, ctx, st, ctx),
{
    lemma_infers_nothing(ctx, diff_rule(&st.graph));
    lemma_advances_nothing(st, ctx);
}

impl DiffLogicState {
    /// Close an edge whose gate is fixed.
    fn close_fixed(&mut self, ctx: &mut SolvingContext, e: usize)
        requires
            old(self).in_order(old(ctx)),
            old(self).pi_initialized,
            e < old(self).graph.edges.len(),
            old(self).graph.edges[e as int].bool_var is Some,
            settled_edge(old(self), old(ctx), e as int),
        ensures
            gates_driven(old(self), old(ctx), final(self), final(ctx)),
            final(ctx).same_but_trail(old(ctx)),
            final(self).graph.closed_at(e as int, final(ctx).trail@),
            same_active(&old(self).graph, old(ctx).trail@, &final(self).graph, final(ctx).trail@),
    {
        let ghost st0 = *self;
        let ghost ctx0 = *ctx;
        self.close_edge(ctx, e);
        proof {
            lemma_sound_narrowed(&st0, &ctx0, self, ctx);
            assert(self.pi_valid_but(ctx.trail@, -1));
            assert forall|k: int, u: bool| #[trigger]
                self.propagated(u, k) == st0.propagated(u, k) by {}
            lemma_passes_later(&st0, &ctx0, self, ctx, false);
            lemma_passes_later(&st0, &ctx0, self, ctx, true);
            assert forall|k: usize, upper: bool| #[trigger]
                self.changes(upper).contains(k) implies k < self.graph.size() by {
                assert(st0.changes(upper).contains(k));
            }
            assert forall|k: int|
                0 <= k < self.graph.edges.len() && #[trigger] self.graph.active_at(k, ctx.trail@)
                    && self.graph.edges[k].bool_var is Some implies self.graph.closed_at(
                k,
                ctx.trail@,
            ) by {
                assert(st0.graph.active_at(k, ctx0.trail@));
                assert(self.graph.edges[k].same_but_positions(st0.graph.edges[k]));
                assert(st0.graph.edges[k].bool_var is Some);
            }
            assert forall|k: int, upper: bool|
                #![trigger self.passes(ctx, upper, k)]
                0 <= k < self.graph.edges.len() && self.graph.active_at(k, ctx.trail@) && (
                st0.graph.active_at(k, ctx0.trail@) ==> st0.passes(
                    &ctx0,
                    upper,
                    k,
                )) implies self.passes(ctx, upper, k) by {
                assert(st0.graph.active_at(k, ctx0.trail@));
                assert(st0.passes(&ctx0, upper, k));
            }
        }
    }

    /// Make an edge active whose gate was fixed to hold, and propagate what that implies.
    #[verifier::spinoff_prover]
    fn activate_edge(&mut self, ctx: &mut SolvingContext, e: usize, check_implied: bool) -> (r:
        Result<(), Conflict>)
        requires
            old(self).in_order(old(ctx)),
            old(self).pi_initialized,
            e < old(self).graph.edges.len(),
            !old(self).graph.active_at(e as int, old(ctx).trail@),
            old(self).graph.edges[e as int].bool_var matches Some(b) && old(ctx).decides(
                old(self).graph.bool_vars[b as int],
                true,
            ),
        ensures
            final(ctx).infers(old(ctx), diff_rule(&old(self).graph), r),
            final(self).kept(final(ctx)),
            final(self).same_marks(old(self)),
            same_graph(&old(self).graph, &final(self).graph),
            r is Ok ==> {
                &&& gates_driven(old(self), old(ctx), final(self), final(ctx))
                &&& final(self).graph.active_at(e as int, final(ctx).trail@)
                &&& final(self).graph.closed_at(e as int, final(ctx).trail@)
                &&& check_implied ==> none_missed(
                    &old(self).graph,
                    old(ctx).trail@,
                    &final(self).graph,
                    final(ctx).trail@,
                )
                &&& forall|k: int|
                    0 <= k < old(self).graph.edges.len() && k != e
                        ==> final(self).graph.active_at(k, final(ctx).trail@) == #[trigger] old(self).graph.active_at(
                        k,
                        old(ctx).trail@,
                    )
            },
    {
        let ghost st0 = *self;
        let ghost ctx0 = *ctx;
        let ghost rule = diff_rule(&self.graph);
        self.graph.close_imp_edge(&mut ctx.trail, e);
        let ghost g1 = self.graph;
        let ghost trail1 = ctx.trail;
        self.graph.activate_imp_edge(&mut ctx.trail, e);
        let ghost st2 = *self;
        let ghost ctx2 = *ctx;
        proof {
            assert forall|k: int|
                0 <= k < st0.graph.edges.len() && k != e implies st2.graph.active_at(
                k,
                ctx2.trail@,
            ) == #[trigger] st0.graph.active_at(k, ctx0.trail@) by {
                assert(g1.active_at(k, trail1@) == st0.graph.active_at(k, ctx0.trail@));
            }
            assert forall|k: int|
                0 <= k < st0.graph.edges.len() && (#[trigger] st0.graph.edges[k]).bool_var
                    is Some implies st2.graph.closed_at(k, ctx2.trail@) == (k == e
                || st0.graph.closed_at(k, ctx0.trail@)) by {
                assert(g1.edges[k].same_but_positions(st0.graph.edges[k]));
                assert(g1.edges[k].bool_var is Some);
            }
            assert(same_graph(&st0.graph, &st2.graph));
            lemma_same_rule(&st0.graph, &st2.graph);
            lemma_activated(&st0, &ctx0, &st2, &ctx2, e as int);
        }
        let r: Result<(), Conflict> = self.propagate_edge_addition(ctx, e, check_implied);
        proof {
            lemma_infers_join(&ctx0, &ctx2, ctx, rule, r);
            assert(same_graph(&st0.graph, &self.graph)) by {
                assert forall|k: int| 0 <= k < st0.graph.edges.len() implies (
                #[trigger] self.graph.edges[k]).same_but_positions(st0.graph.edges[k]) by {
                    assert(st2.graph.edges[k].same_but_positions(st0.graph.edges[k]));
                }
            }
            assert forall|k: usize, upper: bool| #[trigger]
                self.changes(upper).contains(k) implies k < self.graph.size() by {
                assert(st0.changes(upper).contains(k));
            }
            if r is Ok {
                assert(st2.graph.active_at(e as int, ctx2.trail@));
                assert(st2.graph.edges[e as int].same_but_positions(st0.graph.edges[e as int]));
                assert(st2.graph.edges[e as int].bool_var is Some);
                assert forall|k: int|
                    0 <= k < st0.graph.edges.len() && k != e implies self.graph.active_at(
                    k,
                    ctx.trail@,
                ) == #[trigger] st0.graph.active_at(k, ctx0.trail@) by {
                    assert(st2.graph.active_at(k, ctx2.trail@) == st0.graph.active_at(
                        k,
                        ctx0.trail@,
                    ));
                }
                lemma_edge_added(&st0, &ctx0, &st2, &ctx2, self, ctx, e as int);
                if check_implied {
                    lemma_none_missed_new(
                        &st0.graph,
                        ctx0.trail@,
                        &st2.graph,
                        ctx2.trail@,
                        e as int,
                        &self.graph,
                        ctx.trail@,
                    );
                }
            }
        }
        r
    }
}

/// What making an edge active keeps.
proof fn lemma_activated(
    st1: &DiffLogicState,
    ctx1: &SolvingContext,
    st2: &DiffLogicState,
    ctx2: &SolvingContext,
    e: int,
)
    requires
        st1.in_order(ctx1),
        st1.pi_initialized,
        0 <= e < st1.graph.edges.len(),
        st1.graph.edges[e].bool_var matches Some(b) && ctx1.decides(
            st1.graph.bool_vars[b as int],
            true,
        ),
        !st1.graph.active_at(e, ctx1.trail@),
        st2.same_but_graph(st1),
        ctx2.same_but_trail(ctx1),
        st2.graph.wf(&ctx2.trail),
        st2.graph.nodes == st1.graph.nodes,
        st2.graph.bool_vars == st1.graph.bool_vars,
        same_graph(&st1.graph, &st2.graph),
        st2.graph.active_at(e, ctx2.trail@),
        forall|k: int|
            0 <= k < st1.graph.edges.len() && k != e ==> st2.graph.active_at(k, ctx2.trail@)
                == #[trigger] st1.graph.active_at(k, ctx1.trail@),
        forall|k: int|
            0 <= k < st1.graph.edges.len() && (#[trigger] st1.graph.edges[k]).bool_var is Some
                ==> st2.graph.closed_at(k, ctx2.trail@) == (k == e || st1.graph.closed_at(
                k,
                ctx1.trail@,
            )),
        ctx2.trail.depth() == ctx1.trail.depth(),
    ensures
        st2.grounded(ctx2),
        st2.sized(),
        st2.values_fit(),
        st2.visits_listed(),
        st2.bounds_sound(ctx2),
        st2.pi_valid_but(ctx2.trail@, e),
        active_closed(&st2.graph, ctx2.trail@),
        advances(st1, ctx1, st2, ctx2),
        ctx2.infers(ctx1, diff_rule(&st1.graph), Ok(())),
{
    st1.graph.lemma_gates();
    lemma_infers_nothing(ctx1, diff_rule(&st1.graph));
    assert(ctx2.propagation_queue@.take(ctx1.propagation_queue.len() as int)
        == ctx1.propagation_queue@);
    assert(ctx2.infers(ctx1, diff_rule(&st1.graph), Ok(()))) by {
        assert forall|ints: IntAssignment, bools: BoolAssignment|
            #[trigger] ctx2.admits(ints, bools) == ctx1.admits(ints, bools) by {}
    }
    assert forall|n: int| 0 <= n < st2.graph.size() implies ctx2.has_view(
        #[trigger] st2.graph.nodes.int_vars[n],
    ) by {
        assert(ctx1.has_view(st1.graph.nodes.int_vars[n]));
    }
    assert forall|b: int| 0 <= b < st2.graph.bool_vars.len() implies ctx2.knows(
        #[trigger] st2.graph.bool_vars[b],
    ) && gate_bounded(st2.graph.bool_vars[b]) by {
        assert(ctx1.knows(st1.graph.bool_vars[b]));
    }
    assert forall|k: int|
        0 <= k < st2.graph.edges.len() && #[trigger] st2.graph.active_at(k, ctx2.trail@) implies (
    st2.graph.edges[k].bool_var matches Some(b) ==> ctx2.decides(
        st2.graph.bool_vars[b as int],
        true,
    )) by {
        assert(st2.graph.edges[k].same_but_positions(st1.graph.edges[k]));
        if k != e {
            assert(st1.graph.active_at(k, ctx1.trail@));
        }
    }
    lemma_sound_narrowed(st1, ctx1, st2, ctx2);
    assert forall|k: int|
        0 <= k < st2.graph.edges.len() && k != e && #[trigger] st2.graph.active_at(
            k,
            ctx2.trail@,
        ) implies st2.pi_keeps(st2.graph.edges[k]) by {
        assert(st2.graph.edges[k].same_but_positions(st1.graph.edges[k]));
        assert(st1.graph.active_at(k, ctx1.trail@));
        assert(st1.pi_keeps(st1.graph.edges[k]));
    }
    assert forall|k: int|
        0 <= k < st2.graph.edges.len() && #[trigger] st2.graph.active_at(k, ctx2.trail@)
            && st2.graph.edges[k].bool_var is Some implies st2.graph.closed_at(k, ctx2.trail@) by {
        assert(st2.graph.edges[k].same_but_positions(st1.graph.edges[k]));
        assert(st1.graph.edges[k].bool_var is Some);
        if k != e {
            assert(st1.graph.active_at(k, ctx1.trail@));
        }
    }
    assert forall|k: int| 0 <= k < st1.graph.edges.len() && #[trigger] st1.graph.active_at(
        k,
        ctx1.trail@,
    ) implies st2.graph.active_at(k, ctx2.trail@) by {
        assert(k != e);
    }
}

/// What adding an active edge achieves.
proof fn lemma_edge_added(
    st1: &DiffLogicState,
    ctx1: &SolvingContext,
    st2: &DiffLogicState,
    ctx2: &SolvingContext,
    st: &DiffLogicState,
    ctx: &SolvingContext,
    e: int,
)
    requires
        st1.in_order(ctx1),
        st1.pi_initialized,
        0 <= e < st1.graph.edges.len(),
        advances(st1, ctx1, st2, ctx2),
        ctx2.infers(ctx1, diff_rule(&st1.graph), Ok(())),
        active_closed(&st2.graph, ctx2.trail@),
        st2.grounded(ctx2),
        forall|k: int|
            0 <= k < st1.graph.edges.len() && k != e ==> st2.graph.active_at(k, ctx2.trail@)
                == #[trigger] st1.graph.active_at(k, ctx1.trail@),
        advances(st2, ctx2, st, ctx),
        ctx.infers(ctx2, diff_rule(&st2.graph), Ok(())),
        same_active(&st2.graph, ctx2.trail@, &st.graph, ctx.trail@),
        st.same_marks(st1),
        st.kept(ctx),
        st.bounds_sound(ctx),
        st.pi_valid(ctx.trail@),
        st.passes(ctx, false, e),
        st.passes(ctx, true, e),
        st2.lower_bound == st1.lower_bound,
        st2.upper_bound == st1.upper_bound,
        ctx2.ints == ctx1.ints,
        ctx2.bools == ctx1.bools,
        hands_on(st2, ctx2, st, ctx, false, e),
        hands_on(st2, ctx2, st, ctx, true, e),
    ensures
        gates_driven(st1, ctx1, st, ctx),
{
    assert forall|k: int, upper: bool|
        0 <= k < st.graph.edges.len() && st.graph.active_at(k, ctx.trail@) && !st1.graph.active_at(
            k,
            ctx1.trail@,
        ) implies #[trigger] hands_on(st1, ctx1, st, ctx, upper, k) by {
        if k != e {
            assert(st2.graph.active_at(k, ctx2.trail@) == st1.graph.active_at(k, ctx1.trail@));
        }
        let n = tail(st.graph.edges[e], upper);
        assert(st2.propagated(upper, n) == st1.propagated(upper, n));
        assert(hands_on(st2, ctx2, st, ctx, upper, e));
    }
    lemma_same_rule(&st1.graph, &st2.graph);
    lemma_infers_join(ctx1, ctx2, ctx, diff_rule(&st1.graph), Ok(()));
    lemma_advances_join(st1, ctx1, st2, ctx2, st, ctx);
    assert forall|k: int|
        0 <= k < st.graph.edges.len() && #[trigger] st.graph.active_at(k, ctx.trail@)
            && st.graph.edges[k].bool_var is Some implies st.graph.closed_at(k, ctx.trail@) by {
        assert(st2.graph.active_at(k, ctx2.trail@));
        assert(st.graph.edges[k].same_but_positions(st2.graph.edges[k]));
        assert(st2.graph.edges[k].bool_var is Some);
    }
    assert forall|k: int, u: bool| #[trigger] st.propagated(u, k) == st1.propagated(u, k) by {}
    lemma_passes_later(st1, ctx1, st, ctx, false);
    lemma_passes_later(st1, ctx1, st, ctx, true);
    assert forall|k: int, upper: bool|
        #![trigger st.passes(ctx, upper, k)]
        0 <= k < st.graph.edges.len() && st.graph.active_at(k, ctx.trail@) && (
        st1.graph.active_at(k, ctx1.trail@) ==> st1.passes(ctx1, upper, k)) implies st.passes(
        ctx,
        upper,
        k,
    ) by {
        if k != e {
            assert(st2.graph.active_at(k, ctx2.trail@));
            assert(st1.graph.active_at(k, ctx1.trail@));
            assert(st1.passes(ctx1, upper, k));
        }
    }
}

/// Whether the edges of a gate that is fixed were dealt with: none is open, and those that
/// were open are active if the gating view holds.
pub open spec fn gate_done(
    st0: &DiffLogicState,
    ctx0: &SolvingContext,
    st: &DiffLogicState,
    ctx: &SolvingContext,
    b: int,
) -> bool {
    forall|e: int|
        0 <= e < st0.graph.edges.len() && (#[trigger] st0.graph.edges[e]).bool_var == Some(
            b as usize,
        ) ==> st.graph.closed_at(e, ctx.trail@) && (ctx0.decides(st0.graph.bool_vars[b], true)
            && !st0.graph.closed_at(e, ctx0.trail@) ==> st.graph.active_at(e, ctx.trail@))
}

impl DiffLogicState {
    /// Deal with the open edges of a gate that is fixed: they become active if it holds, and
    /// are closed in any case.
    #[verifier::spinoff_prover]
    fn propagate_gate(&mut self, ctx: &mut SolvingContext, b: usize, check_implied: bool) -> (r:
        Result<(), Conflict>)
        requires
            old(self).in_order(old(ctx)),
            old(self).pi_initialized,
            b < old(self).graph.bool_vars.len(),
            old(ctx).decides(old(self).graph.bool_vars[b as int], true) || old(ctx).decides(
                old(self).graph.bool_vars[b as int],
                false,
            ),
        ensures
            final(ctx).infers(old(ctx), diff_rule(&old(self).graph), r),
            final(self).kept(final(ctx)),
            final(self).same_marks(old(self)),
            same_graph(&old(self).graph, &final(self).graph),
            r is Ok ==> gates_driven(old(self), old(ctx), final(self), final(ctx)) && gate_done(
                old(self),
                old(ctx),
                final(self),
                final(ctx),
                b as int,
            ),
            r is Ok && check_implied ==> none_missed(
                &old(self).graph,
                old(ctx).trail@,
                &final(self).graph,
                final(ctx).trail@,
            ),
    {
        let ghost st0 = *self;
        let ghost ctx0 = *ctx;
        let ghost rule = diff_rule(&self.graph);
        let bv: BoolView = self.graph.bool_vars[b];
        proof {
            lemma_gates_nothing(self, ctx);
            lemma_none_missed_same(&st0.graph, ctx0.trail@, &self.graph, ctx.trail@);
            assert(ctx.knows(self.graph.bool_vars[b as int]));
            self.graph.lemma_gate_lists();
        }
        let val: Option<bool> = ctx.val(bv);
        let list: Vec<usize> = self.graph.open_edges(&ctx.trail, ListKind::Gate, b);
        let mut i: usize = 0;
        proof {
            assert forall|k: int| 0 <= k < list.len() implies {
                let e = #[trigger] list[k] as int;
                &&& e < st0.graph.edges.len()
                &&& st0.graph.edges[e].bool_var == Some(b)
                &&& !st0.graph.closed_at(e, ctx0.trail@)
                &&& !st0.graph.active_at(e, ctx0.trail@)
            } by {
                let e = list[k] as int;
                if st0.graph.active_at(e, ctx0.trail@) {
                    assert(st0.graph.closed_at(e, ctx0.trail@));
                }
            }
        }
        if val == Some(true) {
            while i < list.len()
                invariant
                    i <= list.len(),
                    st0 == *old(self),
                    ctx0 == *old(ctx),
                    rule == diff_rule(&st0.graph),
                    st0.grounded(&ctx0),
                    b < st0.graph.bool_vars.len(),
                    bv == st0.graph.bool_vars[b as int],
                    ctx0.decides(bv, true),
                    ctx0.knows(bv),
                    gates_driven(&st0, &ctx0, self, ctx),
                    check_implied ==> none_missed(
                        &st0.graph,
                        ctx0.trail@,
                        &self.graph,
                        ctx.trail@,
                    ),
                    list@.no_duplicates(),
                    forall|k: int|
                        0 <= k < list.len() ==> {
                            let e = #[trigger] list[k] as int;
                            &&& e < st0.graph.edges.len()
                            &&& st0.graph.edges[e].bool_var == Some(b)
                            &&& if k < i {
                                self.graph.active_at(e, ctx.trail@)
                                    && self.graph.closed_at(e, ctx.trail@)
                            } else {
                                !self.graph.active_at(e, ctx.trail@)
                            }
                        },
                decreases list.len() - i,
            {
                let ghost st1 = *self;
                let ghost ctx1 = *ctx;
                let e: usize = list[i];
                proof {
                    assert(self.graph.edges[e as int].same_but_positions(
                        st0.graph.edges[e as int],
                    ));
                    lemma_decides_narrowed(&ctx0, ctx, bv, true);
                    lemma_same_rule(&st0.graph, &st1.graph);
                }
                let r: Result<(), Conflict> = self.activate_edge(ctx, e, check_implied);
                proof {
                    lemma_infers_join(&ctx0, &ctx1, ctx, rule, r);
                    assert forall|k: int| 0 <= k < st0.graph.edges.len() implies (
                    #[trigger] self.graph.edges[k]).same_but_positions(st0.graph.edges[k]) by {
                        assert(st1.graph.edges[k].same_but_positions(st0.graph.edges[k]));
                    }
                }
                if r.is_err() {
                    return r;
                }
                proof {
                    lemma_gates_join(&st0, &ctx0, &st1, &ctx1, self, ctx);
                    if check_implied {
                        lemma_none_missed_join(
                            &st0.graph,
                            ctx0.trail@,
                            &st1.graph,
                            ctx1.trail@,
                            &self.graph,
                            ctx.trail@,
                        );
                    }
                    assert forall|k: int| 0 <= k < list.len() implies {
                        let f = #[trigger] list[k] as int;
                        if k < i + 1 {
                            self.graph.active_at(f, ctx.trail@) && self.graph.closed_at(
                                f,
                                ctx.trail@,
                            )
                        } else {
                            !self.graph.active_at(f, ctx.trail@)
                        }
                    } by {
                        let f = list[k] as int;
                        if k != i {
                            assert(f != e);
                            assert(st1.graph.active_at(f, ctx1.trail@) == self.graph.active_at(
                                f,
                                ctx.trail@,
                            ));
                            assert(st1.graph.edges[f].same_but_positions(st0.graph.edges[f]));
                            assert(st1.graph.edges[f].bool_var is Some);
                        }
                    }
                }
                i = i + 1;
            }
        } else {
            while i < list.len()
                invariant
                    i <= list.len(),
                    st0 == *old(self),
                    ctx0 == *old(ctx),
                    rule == diff_rule(&st0.graph),
                    st0.grounded(&ctx0),
                    b < st0.graph.bool_vars.len(),
                    bv == st0.graph.bool_vars[b as int],
                    ctx0.decides(bv, false),
                    ctx0.knows(bv),
                    gates_driven(&st0, &ctx0, self, ctx),
                    check_implied ==> none_missed(
                        &st0.graph,
                        ctx0.trail@,
                        &self.graph,
                        ctx.trail@,
                    ),
                    forall|k: int|
                        0 <= k < list.len() ==> {
                            let e = #[trigger] list[k] as int;
                            &&& e < st0.graph.edges.len()
                            &&& st0.graph.edges[e].bool_var == Some(b)
                            &&& k < i ==> self.graph.closed_at(e, ctx.trail@)
                        },
                decreases list.len() - i,
            {
                let ghost st1 = *self;
                let ghost ctx1 = *ctx;
                let e: usize = list[i];
                proof {
                    assert(self.graph.edges[e as int].same_but_positions(
                        st0.graph.edges[e as int],
                    ));
                    lemma_decides_narrowed(&ctx0, ctx, bv, false);
                    assert(settled_edge(self, ctx, e as int));
                }
                self.close_fixed(ctx, e);
                proof {
                    lemma_none_missed_same(
                        &st1.graph,
                        ctx1.trail@,
                        &self.graph,
                        ctx.trail@,
                    );
                    lemma_gates_join(&st0, &ctx0, &st1, &ctx1, self, ctx);
                    if check_implied {
                        lemma_none_missed_join(
                            &st0.graph,
                            ctx0.trail@,
                            &st1.graph,
                            ctx1.trail@,
                            &self.graph,
                            ctx.trail@,
                        );
                    }
                    assert forall|k: int| 0 <= k < i + 1 implies self.graph.closed_at(
                        (#[trigger] list[k]) as int,
                        ctx.trail@,
                    ) by {
                        let f = list[k] as int;
                        if k != i {
                            assert(st1.graph.edges[f].same_but_positions(st0.graph.edges[f]));
                            assert(st1.graph.edges[f].bool_var is Some);
                        }
                    }
                }
                i = i + 1;
            }
        }
        proof {
            assert forall|e: int|
                0 <= e < st0.graph.edges.len() && (#[trigger] st0.graph.edges[e]).bool_var == Some(
                    b,
                ) implies self.graph.closed_at(e, ctx.trail@) && (ctx0.decides(bv, true)
                && !st0.graph.closed_at(e, ctx0.trail@) ==> self.graph.active_at(
                e,
                ctx.trail@,
            )) by {
                if !st0.graph.closed_at(e, ctx0.trail@) {
                    assert(list@.contains(e as usize));
                    let k = list@.index_of(e as usize);
                    assert(list[k] == e);
                    if ctx0.decides(bv, true) && val != Some(true) {
                        lemma_decides_once(&ctx0, bv);
                    }
                }
            }
        }
        Ok(())
    }

    /// Deal with the gates that were reported to be fixed.
    #[verifier::spinoff_prover]
    pub fn propagate_booleans(&mut self, ctx: &mut SolvingContext) -> (r: Result<(), Conflict>)
        requires
            old(self).in_order(old(ctx)),
            old(self).pi_initialized,
            forall|b: usize| #[trigger]
                old(self).fixed_bools@.contains(b) ==> old(ctx).decides(
                    old(self).graph.bool_vars[b as int],
                    true,
                ) || old(ctx).decides(old(self).graph.bool_vars[b as int], false),
        ensures
            final(ctx).infers(old(ctx), diff_rule(&old(self).graph), r),
            final(self).kept(final(ctx)),
            same_graph(&old(self).graph, &final(self).graph),
            forall|b: usize| !#[trigger] final(self).fixed_bools@.contains(b),
            final(self).lower_bound == old(self).lower_bound,
            final(self).upper_bound == old(self).upper_bound,
            final(self).lower_bound_changes == old(self).lower_bound_changes,
            final(self).upper_bound_changes == old(self).upper_bound_changes,
            final(self).pi_initialized,
            final(self).same_settings(old(self)),
            (forall|b: usize| !#[trigger] old(self).fixed_bools@.contains(b)) ==> r is Ok
                && *final(ctx) == *old(ctx) && final(self).graph == old(self).graph,
            r is Ok ==> {
                &&& final(self).in_order(final(ctx))
                &&& advances(old(self), old(ctx), final(self), final(ctx))
                &&& forall|b: usize| #[trigger]
                    old(self).fixed_bools@.contains(b) ==> gates_closed(
                        final(self),
                        final(ctx),
                        b as int,
                    )
                &&& old(self).use_inc_imp ==> none_missed(
                    &old(self).graph,
                    old(ctx).trail@,
                    &final(self).graph,
                    final(ctx).trail@,
                )
                &&& forall|e: int, upper: bool|
                    #![trigger final(self).passes(final(ctx), upper, e)]
                    0 <= e < final(self).graph.edges.len() && final(self).graph.active_at(
                        e,
                        final(ctx).trail@,
                    ) && (old(self).graph.active_at(e, old(ctx).trail@) ==> old(self).passes(
                        old(ctx),
                        upper,
                        e,
                    )) ==> final(self).passes(final(ctx), upper, e)
                &&& new_edges_hand_on(old(self), old(ctx), final(self), final(ctx))
            },
    {
        let ghost before_st = *self;
        let fixed: Vec<usize> = set_elements(&self.fixed_bools);
        self.fixed_bools = set_new();
        let check_implied: bool = self.use_inc_imp;
        let ghost st0 = *self;
        let ghost ctx0 = *ctx;
        let ghost rule = diff_rule(&self.graph);
        proof {
            assert forall|k: int, u: bool| #[trigger]
                st0.propagated(u, k) == before_st.propagated(u, k) by {}
            assert forall|k: usize, u: bool| #[trigger]
                self.changes(u).contains(k) implies k < self.graph.size() by {
                assert(before_st.changes(u).contains(k));
            }
            assert(self.pi_valid_but(ctx.trail@, -1));
            lemma_gates_nothing(self, ctx);
            lemma_none_missed_same(&st0.graph, ctx0.trail@, &self.graph, ctx.trail@);
            assert forall|k: int| 0 <= k < fixed.len() implies (#[trigger] fixed[k])
                < st0.graph.bool_vars.len() && (ctx0.decides(
                st0.graph.bool_vars[fixed[k] as int],
                true,
            ) || ctx0.decides(st0.graph.bool_vars[fixed[k] as int], false)) by {
                assert(fixed@.contains(fixed[k]));
                assert(before_st.fixed_bools@.contains(fixed[k]));
            }
        }
        proof {
            if fixed.len() > 0 {
                assert(fixed@.contains(fixed[0]));
            }
        }
        let mut i: usize = 0;
        while i < fixed.len()
            invariant
                i <= fixed.len(),
                ctx0 == *old(ctx),
                rule == diff_rule(&st0.graph),
                st0.grounded(&ctx0),
                gates_driven(&st0, &ctx0, self, ctx),
                check_implied == old(self).use_inc_imp,
                i == 0 ==> *ctx == ctx0 && self.graph == st0.graph,
                fixed.len() > 0 ==> old(self).fixed_bools@.contains(fixed[0]),
                check_implied ==> none_missed(
                    &st0.graph,
                    ctx0.trail@,
                    &self.graph,
                    ctx.trail@,
                ),
                st0.graph == old(self).graph,
                st0.lower_bound == old(self).lower_bound,
                st0.upper_bound == old(self).upper_bound,
                st0.lower_bound_changes == old(self).lower_bound_changes,
                st0.upper_bound_changes == old(self).upper_bound_changes,
                st0.pi_initialized,
                st0.same_settings(old(self)),
                forall|b: usize| !#[trigger] st0.fixed_bools@.contains(b),
                forall|k: int|
                    0 <= k < fixed.len() ==> (#[trigger] fixed[k]) < st0.graph.bool_vars.len() && (
                    ctx0.decides(st0.graph.bool_vars[fixed[k] as int], true) || ctx0.decides(
                        st0.graph.bool_vars[fixed[k] as int],
                        false,
                    )),
                forall|k: int|
                    0 <= k < i ==> gates_closed(self, ctx, (#[trigger] fixed[k]) as int),
            decreases fixed.len() - i,
        {
            let ghost st1 = *self;
            let ghost ctx1 = *ctx;
            let b: usize = fixed[i];
            proof {
                lemma_same_rule(&st0.graph, &st1.graph);
                let bv = st0.graph.bool_vars[b as int];
                assert(ctx0.knows(st0.graph.bool_vars[b as int]));
                if ctx0.decides(bv, true) {
                    lemma_decides_narrowed(&ctx0, ctx, bv, true);
                } else {
                    lemma_decides_narrowed(&ctx0, ctx, bv, false);
                }
            }
            let r: Result<(), Conflict> = self.propagate_gate(ctx, b, check_implied);
            proof {
                lemma_infers_join(&ctx0, &ctx1, ctx, rule, r);
                assert forall|k: int| 0 <= k < st0.graph.edges.len() implies (
                #[trigger] self.graph.edges[k]).same_but_positions(st0.graph.edges[k]) by {
                    assert(st1.graph.edges[k].same_but_positions(st0.graph.edges[k]));
                }
            }
            if r.is_err() {
                return r;
            }
            proof {
                lemma_gates_join(&st0, &ctx0, &st1, &ctx1, self, ctx);
                if check_implied {
                    lemma_none_missed_join(
                        &st0.graph,
                        ctx0.trail@,
                        &st1.graph,
                        ctx1.trail@,
                        &self.graph,
                        ctx.trail@,
                    );
                }
                assert forall|k: int| 0 <= k < i + 1 implies gates_closed(
                    self,
                    ctx,
                    (#[trigger] fixed[k]) as int,
                ) by {
                    assert forall|e: int|
                        0 <= e < self.graph.edges.len() && (
                        #[trigger] self.graph.edges[e]).bool_var == Some(
                            fixed[k],
                        ) implies self.graph.closed_at(e, ctx.trail@) by {
                        assert(self.graph.edges[e].same_but_positions(st1.graph.edges[e]));
                        if k == i {
                            assert(st1.graph.edges[e].bool_var == Some(b));
                        } else {
                            assert(gates_closed(&st1, &ctx1, fixed[k] as int));
                            assert(st1.graph.edges[e].bool_var == Some(fixed[k]));
                        }
                    }
                }
            }
            i = i + 1;
        }
        proof {
            assert forall|b: usize| #[trigger]
                before_st.fixed_bools@.contains(b) implies gates_closed(self, ctx, b as int) by {
                assert(fixed@.contains(b));
                let k = fixed@.index_of(b);
                assert(fixed[k] == b);
            }
            assert forall|k: int, u: bool| #[trigger]
                st0.propagated(u, k) == before_st.propagated(u, k) by {}
            assert forall|e: int, upper: bool| #[trigger]
                before_st.passes(&ctx0, upper, e) == st0.passes(&ctx0, upper, e) by {}
            assert forall|e: int, upper: bool| #[trigger]
                hands_on(&before_st, &ctx0, self, ctx, upper, e) == hands_on(
                    &st0,
                    &ctx0,
                    self,
                    ctx,
                    upper,
                    e,
                ) by {
                let n = tail(self.graph.edges[e], upper);
                assert(before_st.propagated(upper, n) == st0.propagated(upper, n));
            }
        }
        Ok(())
    }
}

/// Whether no edge of the gating view is open.
pub open spec fn gates_closed(st: &DiffLogicState, ctx: &SolvingContext, b: int) -> bool {
    forall|e: int|
        0 <= e < st.graph.edges.len() && (#[trigger] st.graph.edges[e]).bool_var == Some(
            b as usize,
        ) ==> st.graph.closed_at(e, ctx.trail@)
}

/// A view is not decided both ways.
pub proof fn lemma_decides_once(ctx: &SolvingContext, b: BoolView)
    requires
        ctx.wf(),
        ctx.knows(b),
    ensures
        !(ctx.decides(b, true) && ctx.decides(b, false)),
{
    if let BoolView::Int(v, m) = b {
        let d = ctx.ints[v as int];
        assert(d.wf());
        assert(d.has(d.lb as int));
    }
}

} // verus!
