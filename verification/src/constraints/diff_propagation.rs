//! Propagation of difference constraints: bounds first, and gates that were fixed after that.

use vstd::prelude::*;

use crate::constraints::diff_bounds::{
    bounds_driven, head, keeps_propagated, lemma_bounds_exact, lemma_grounded_before,
    lemma_near_narrowed, lemma_room_limit, lemma_told_join, lemma_told_later, lemma_two_atoms,
    literal_gates, near, reaches, regular, tail,
};
use crate::constraints::diff_graph::{DiffEdge, DiffGraph, ListKind};
use crate::constraints::difference_logic::{
    active_kept, active_potentials, active_ungated, advances, diff_rule, edge_kept, gate_holds,
    lemma_advances_join, lemma_advances_nothing, lemma_conflict_later, lemma_grounded_narrowed,
    lemma_grows_join, lemma_same_rule, node_value, same_active, same_graph, settled_edge,
    DiffLogicState,
};
use crate::helpers::fx::{set_elements, set_insert, set_new};
use crate::helpers::shortest::weight_room;
use crate::helpers::trail::Trail;
use crate::model::tightening::plain;
use crate::solver::inference::{
    lemma_infers_join, lemma_infers_later_join, lemma_infers_later_step, lemma_infers_nothing,
    lemma_infers_weaken, lemma_narrows_later, none_later, tells,
};
use crate::solver::int_view::{in_limits, lemma_view_bounds, lemma_view_narrowed};
use crate::solver::reason::{BuiltReason, Conflict, DeferredReason, Reason, ReasonBuilder};
use crate::solver::solving_context::{
    accounted, subject_holds, Deferral, LitPropagation, Rule, SolvingContext,
};
use crate::solver::view::{
    all_hold, BoolAssignment, BoolView, IntAssignment, IntLitMeaning, IntVal,
};

verus! {

/// The data by which a reason is built later: the edge, and which bound is kept as it is.
pub open spec fn reason_data(edge: int, lb_fixed: bool) -> int {
    edge * 2 + if lb_fixed {
        1int
    } else {
        0int
    }
}

/// Pack an edge and a flag.
fn pack_reason(edge: usize, lb_fixed: bool) -> (r: u64)
    ensures
        2 * edge + 1 <= u64::MAX ==> r == reason_data(edge as int, lb_fixed),
{
    let flag: u64 = if lb_fixed {
        1
    } else {
        0
    };
    let e: u64 = edge as u64;
    proof {
        assert(e <= 0x7fff_ffff_ffff_ffff && flag <= 1 ==> ((e << 1) | flag) == e * 2 + flag)
            by (bit_vector);
    }
    (e << 1) | flag
}

/// The edge of which a reason is to be built.
pub fn edge_of_data(data: u64) -> (r: usize)
    ensures
        data / 2 <= usize::MAX ==> r == data / 2,
{
    proof {
        assert(data >> 1 == data / 2) by (bit_vector);
    }
    (data >> 1) as usize
}

/// An edge can be told from its packed form.
pub proof fn lemma_reason_data(edge: int, lb_fixed: bool)
    requires
        0 <= edge,
    ensures
        reason_data(edge, lb_fixed) / 2 == edge,
        reason_data(edge, lb_fixed) % 2 == if lb_fixed {
            1int
        } else {
            0int
        },
{
}

/// Whether the domains of the ends of the edge are too far apart for its bound.
pub open spec fn far_apart(graph: &DiffGraph, ctx: &SolvingContext, e: int) -> bool {
    let edge = graph.edges[e];
    ctx.view_min(graph.nodes.int_vars[edge.from as int]) - ctx.view_max(
        graph.nodes.int_vars[edge.to as int],
    ) > edge.val
}

/// Whether the reason that is built later is that of an edge whose ends are too far apart, and
/// its subject that its gating view does not hold.
pub open spec fn refusal(
    graph: &DiffGraph,
    ctx: &SolvingContext,
    subject: Option<BoolView>,
    d: DeferredReason,
    e: int,
) -> bool {
    &&& 0 <= e < graph.edges.len()
    &&& d.propagator == ctx.current_prop
    &&& 2 * graph.edges.len() <= u64::MAX ==> d.data as int / 2 == e
    &&& far_apart(graph, ctx, e)
    &&& forall|ints: IntAssignment, bools: BoolAssignment| #[trigger]
        subject_holds(subject, ints, bools) == !gate_holds(graph, graph.edges[e], ints, bools)
}

/// What is known of reasons that are built later: there are some only if `bool_reasons` is 0, and
/// each is that of an edge whose ends are too far apart.
pub open spec fn put_off(st: &DiffLogicState, ctx: &SolvingContext) -> Deferral {
    |subject: Option<BoolView>, d: DeferredReason|
        st.bool_reasons == 0 && exists|e: int| #[trigger]
            refusal(&st.graph, ctx, subject, d, e)
}

/// Whether the reason is built later.
pub open spec fn built_later(reason: BuiltReason) -> bool {
    reason matches Ok(Reason::Lazy(_))
}

/// Whether, of the consequences after the first `from`, the reasons of those between the two
/// numbers are built later if `bool_reasons` is 0, and of no others.
pub open spec fn put_off_between(
    bool_reasons: u8,
    ctx: &SolvingContext,
    from: int,
    first: int,
    last: int,
) -> bool {
    &&& from <= first <= last <= ctx.propagation_queue.len()
    &&& forall|k: int|
        from <= k < ctx.propagation_queue.len() ==> built_later(
            (#[trigger] ctx.propagation_queue[k]).reason,
        ) == (first <= k < last && bool_reasons == 0)
}

/// Whether the literals say that the start of the edge is at least the first value and its end at
/// most the second one.
pub open spec fn ends_within(
    graph: &DiffGraph,
    e: int,
    ends: (int, int),
    atoms: Seq<BoolView>,
) -> bool {
    let edge = graph.edges[e];
    forall|ints: IntAssignment, bools: BoolAssignment| #[trigger]
        all_hold(atoms, ints, bools) <==> (node_value(graph, edge.from as int, ints, bools)
            >= ends.0 && node_value(graph, edge.to as int, ints, bools) <= ends.1)
}

/// Whether the consequences between the two numbers are gates that do not hold, with reasons of
/// the kind that `bool_reasons` asks for, and no others have reasons that are built later.
pub open spec fn gates_refused(
    st: &DiffLogicState,
    ctx0: &SolvingContext,
    ctx: &SolvingContext,
    first: int,
    last: int,
) -> bool {
    &&& put_off_between(
        st.bool_reasons,
        ctx,
        ctx0.propagation_queue.len() as int,
        first,
        last,
    )
    &&& forall|k: int|
        first <= k < last && st.bool_reasons != 0 ==> st.refused_between(
            ctx0,
            ctx,
            #[trigger] ctx.propagation_queue[k],
        )
}

/// A gate that was refused on the way was refused on a longer way, in the same graph with the
/// same bounds.
proof fn lemma_refused_longer(
    g: &DiffLogicState,
    ctx1: &SolvingContext,
    ctx2: &SolvingContext,
    h: &DiffLogicState,
    ctx0: &SolvingContext,
    ctx3: &SolvingContext,
    c: LitPropagation,
)
    requires
        g.refused_between(ctx1, ctx2, c),
        same_graph(&g.graph, &h.graph) || same_graph(&h.graph, &g.graph),
        h.bool_reasons == g.bool_reasons,
        h.lower_bound == g.lower_bound,
        h.upper_bound == g.upper_bound,
        ctx1.grows(ctx0),
        ctx1.narrows(ctx0),
        ctx3.grows(ctx2),
        ctx3.narrows(ctx2),
    ensures
        h.refused_between(ctx0, ctx3, c),
{
    let (mid, e, lb_fixed) = choose|mid: SolvingContext, e: int, lb_fixed: bool| #[trigger]
        g.refused_at_once(mid, e, lb_fixed, c) && mid.between(ctx1, ctx2);
    lemma_narrows_later(ctx0, ctx1, &mid);
    lemma_narrows_later(&mid, ctx2, ctx3);
    let edge = g.graph.edges[e];
    assert(h.graph.edges[e].bool_var == edge.bool_var && h.graph.edges[e].from == edge.from
        && h.graph.edges[e].to == edge.to && h.graph.edges[e].val == edge.val) by {
        if same_graph(&g.graph, &h.graph) {
            assert(h.graph.edges[e].same_but_positions(g.graph.edges[e]));
        } else {
            assert(g.graph.edges[e].same_but_positions(h.graph.edges[e]));
        }
    }
    assert forall|ints: IntAssignment, bools: BoolAssignment| #[trigger]
        c.lit.holds(ints, bools) == !gate_holds(&h.graph, h.graph.edges[e], ints, bools) by {
        assert(c.lit.holds(ints, bools) == !gate_holds(
            &g.graph,
            g.graph.edges[e],
            ints,
            bools,
        ));
    }
    let atoms = choose|atoms: Vec<BoolView>| #[trigger]
        ReasonBuilder::Atoms(atoms).builds(c.reason) && ends_within(
            &g.graph,
            e,
            g.reason_ends(&mid, e, lb_fixed),
            atoms@,
        );
    assert(h.reason_ends(&mid, e, lb_fixed) == g.reason_ends(&mid, e, lb_fixed));
    assert(ends_within(&h.graph, e, h.reason_ends(&mid, e, lb_fixed), atoms@)) by {
        assert forall|ints: IntAssignment, bools: BoolAssignment, n: int| #[trigger]
            node_value(&h.graph, n, ints, bools) == node_value(&g.graph, n, ints, bools) by {}
    }
    assert(h.refused_at_once(mid, e, lb_fixed, c));
}

/// Gates are refused one after another.
pub proof fn lemma_refused_join(
    f: &DiffLogicState,
    ctx0: &SolvingContext,
    ctx1: &SolvingContext,
    h: &DiffLogicState,
    ctx2: &SolvingContext,
    first: int,
)
    requires
        gates_refused(f, ctx0, ctx1, first, ctx1.propagation_queue.len() as int),
        gates_refused(
            h,
            ctx1,
            ctx2,
            ctx1.propagation_queue.len() as int,
            ctx2.propagation_queue.len() as int,
        ),
        same_graph(&f.graph, &h.graph) || same_graph(&h.graph, &f.graph),
        h.bool_reasons == f.bool_reasons,
        h.lower_bound == f.lower_bound,
        h.upper_bound == f.upper_bound,
        ctx1.grows(ctx0),
        ctx1.narrows(ctx0),
        ctx2.grows(ctx1),
        ctx2.narrows(ctx1),
    ensures
        gates_refused(f, ctx0, ctx2, first, ctx2.propagation_queue.len() as int),
        gates_refused(h, ctx0, ctx2, first, ctx2.propagation_queue.len() as int),
{
    let n = ctx1.propagation_queue.len() as int;
    lemma_put_off_appended(
        f.bool_reasons,
        ctx0.propagation_queue.len() as int,
        first,
        ctx1,
        ctx2,
    );
    lemma_grows_itself(ctx0);
    lemma_grows_itself(ctx2);
    assert forall|k: int|
        first <= k < ctx2.propagation_queue.len() && f.bool_reasons != 0 implies f.refused_between(
        ctx0,
        ctx2,
        #[trigger] ctx2.propagation_queue[k],
    ) && h.refused_between(ctx0, ctx2, ctx2.propagation_queue[k]) by {
        let c = ctx2.propagation_queue[k];
        if k < n {
            assert(ctx2.propagation_queue@.take(n)[k] == ctx1.propagation_queue[k]);
            lemma_refused_longer(f, ctx0, ctx1, f, ctx0, ctx2, c);
            lemma_refused_longer(f, ctx0, ctx1, h, ctx0, ctx2, c);
        } else {
            lemma_refused_longer(h, ctx1, ctx2, f, ctx0, ctx2, c);
            lemma_refused_longer(h, ctx1, ctx2, h, ctx0, ctx2, c);
        }
    }
}

/// The same gates were refused in the same graph with the same bounds, whatever else was found
/// later.
pub proof fn lemma_refused_before(
    f: &DiffLogicState,
    ctx0: &SolvingContext,
    ctx1: &SolvingContext,
    h: &DiffLogicState,
    ctx2: &SolvingContext,
    first: int,
    rule: Rule,
    r: Result<(), Conflict>,
)
    requires
        gates_refused(f, ctx0, ctx1, first, ctx1.propagation_queue.len() as int),
        ctx2.infers(ctx1, rule, r),
        same_graph(&f.graph, &h.graph) || same_graph(&h.graph, &f.graph),
        h.bool_reasons == f.bool_reasons,
        h.lower_bound == f.lower_bound,
        h.upper_bound == f.upper_bound,
    ensures
        gates_refused(h, ctx0, ctx2, first, ctx1.propagation_queue.len() as int),
{
    let n = ctx1.propagation_queue.len() as int;
    lemma_put_off_before(
        f.bool_reasons,
        ctx0.propagation_queue.len() as int,
        first,
        ctx1,
        ctx2,
        rule,
        r,
    );
    lemma_grows_itself(ctx0);
    assert forall|k: int| first <= k < n && h.bool_reasons != 0 implies h.refused_between(
        ctx0,
        ctx2,
        #[trigger] ctx2.propagation_queue[k],
    ) by {
        let c = ctx2.propagation_queue[k];
        assert(ctx2.propagation_queue@.take(n)[k] == ctx1.propagation_queue[k]);
        lemma_refused_longer(f, ctx0, ctx1, h, ctx0, ctx2, c);
    }
}

proof fn lemma_grows_itself(ctx: &SolvingContext)
    ensures
        ctx.grows(ctx),
        ctx.narrows(ctx),
{
    assert(ctx.propagation_queue@.take(ctx.propagation_queue.len() as int)
        =~= ctx.propagation_queue@);
}

/// What is known of reasons stays so when domains get narrower.
pub proof fn lemma_put_off_later(
    g: &DiffLogicState,
    ctx0: &SolvingContext,
    h: &DiffLogicState,
    ctx1: &SolvingContext,
)
    requires
        g.graph.wf(&ctx0.trail),
        ctx0.wf(),
        forall|n: int|
            0 <= n < g.graph.size() ==> ctx0.has_view(#[trigger] g.graph.nodes.int_vars[n]),
        same_graph(&g.graph, &h.graph) || same_graph(&h.graph, &g.graph),
        h.bool_reasons == g.bool_reasons,
        ctx1.wf(),
        ctx1.grows(ctx0),
        ctx1.narrows(ctx0),
    ensures
        forall|subject: Option<BoolView>, d: DeferredReason| #[trigger]
            put_off(g, ctx0)(subject, d) ==> put_off(h, ctx1)(subject, d),
{
    assert forall|subject: Option<BoolView>, d: DeferredReason| #[trigger]
        put_off(g, ctx0)(subject, d) implies put_off(h, ctx1)(subject, d) by {
        let e = choose|e: int| #[trigger] refusal(&g.graph, ctx0, subject, d, e);
        g.graph.lemma_edge(e);
        let edge = g.graph.edges[e];
        assert(h.graph.edges[e].bool_var == edge.bool_var && h.graph.edges[e].from == edge.from
            && h.graph.edges[e].to == edge.to && h.graph.edges[e].val == edge.val) by {
            if same_graph(&g.graph, &h.graph) {
                assert(h.graph.edges[e].same_but_positions(g.graph.edges[e]));
            } else {
                assert(g.graph.edges[e].same_but_positions(h.graph.edges[e]));
            }
        }
        lemma_view_narrowed(ctx0, ctx1, g.graph.nodes.int_vars[edge.from as int]);
        lemma_view_narrowed(ctx0, ctx1, g.graph.nodes.int_vars[edge.to as int]);
        assert forall|ints: IntAssignment, bools: BoolAssignment| #[trigger]
            subject_holds(subject, ints, bools) == !gate_holds(
                &h.graph,
                h.graph.edges[e],
                ints,
                bools,
            ) by {
            assert(subject_holds(subject, ints, bools) == !gate_holds(
                &g.graph,
                g.graph.edges[e],
                ints,
                bools,
            ));
        }
        assert(refusal(&h.graph, ctx1, subject, d, e));
    }
}

/// Inferences of difference constraints, with reasons that are built later, can be joined.
pub proof fn lemma_put_off_join(
    f: &DiffLogicState,
    ctx0: &SolvingContext,
    g: &DiffLogicState,
    ctx1: &SolvingContext,
    ctx2: &SolvingContext,
    r: Result<(), Conflict>,
)
    requires
        f.graph.wf(&ctx0.trail),
        ctx0.wf(),
        g.grounded(ctx1),
        same_graph(&f.graph, &g.graph),
        g.bool_reasons == f.bool_reasons,
        ctx1.infers_later(ctx0, diff_rule(&f.graph), put_off(f, ctx1), Ok(())),
        ctx2.infers_later(ctx1, diff_rule(&g.graph), put_off(g, ctx2), r),
    ensures
        ctx2.infers_later(ctx0, diff_rule(&f.graph), put_off(f, ctx2), r),
{
    lemma_same_rule(&f.graph, &g.graph);
    lemma_refusals_same(f, g, ctx1);
    lemma_refusals_same(g, f, ctx2);
    lemma_put_off_later(g, ctx1, f, ctx2);
    lemma_infers_weaken(ctx0, ctx1, diff_rule(&f.graph), put_off(f, ctx1), put_off(f, ctx2), Ok(()));
    lemma_infers_weaken(ctx1, ctx2, diff_rule(&f.graph), put_off(g, ctx2), put_off(f, ctx2), r);
    lemma_infers_later_join(ctx0, ctx1, ctx2, diff_rule(&f.graph), put_off(f, ctx2), r);
}

/// The same reasons are put off in the same graph.
proof fn lemma_refusals_same(g: &DiffLogicState, h: &DiffLogicState, ctx: &SolvingContext)
    requires
        same_graph(&g.graph, &h.graph) || same_graph(&h.graph, &g.graph),
        h.bool_reasons == g.bool_reasons,
    ensures
        forall|subject: Option<BoolView>, d: DeferredReason| #[trigger]
            put_off(g, ctx)(subject, d) ==> put_off(h, ctx)(subject, d),
{
    assert forall|subject: Option<BoolView>, d: DeferredReason| #[trigger]
        put_off(g, ctx)(subject, d) implies put_off(h, ctx)(subject, d) by {
        let e = choose|e: int| #[trigger] refusal(&g.graph, ctx, subject, d, e);
        if same_graph(&g.graph, &h.graph) {
            assert(h.graph.edges[e].same_but_positions(g.graph.edges[e]));
        } else {
            assert(g.graph.edges[e].same_but_positions(h.graph.edges[e]));
        }
        assert forall|ints: IntAssignment, bools: BoolAssignment| #[trigger]
            subject_holds(subject, ints, bools) == !gate_holds(
                &h.graph,
                h.graph.edges[e],
                ints,
                bools,
            ) by {
            assert(subject_holds(subject, ints, bools) == !gate_holds(
                &g.graph,
                g.graph.edges[e],
                ints,
                bools,
            ));
        }
        assert(refusal(&h.graph, ctx, subject, d, e));
    }
}

impl DiffLogicState {
    /// Whether the bounds rule the edge out.
    pub open spec fn ruled_out(&self, ctx: &SolvingContext, e: int) -> bool {
        let edge = self.graph.edges[e];
        self.current(ctx, false, edge.from as int) + self.current(ctx, true, edge.to as int)
            > edge.val
    }

    /// The least value of the start and the largest value of the end of the edge that a reason
    /// that is built at once speaks of: the current bounds, or, if `bool_reasons` is 1, one of
    /// them, and the weakest bound that rules the edge out with it.
    pub open spec fn reason_ends(&self, ctx: &SolvingContext, e: int, lb_fixed: bool) -> (int, int) {
        let edge = self.graph.edges[e];
        let lb = self.current(ctx, false, edge.from as int);
        let ub = -self.current(ctx, true, edge.to as int);
        if self.bool_reasons != 1 {
            (lb, ub)
        } else if lb_fixed {
            (lb, lb - edge.val - 1)
        } else {
            (ub + edge.val + 1, ub)
        }
    }

    /// Whether the consequence is that the gating view of the edge does not hold, and the reason
    /// was built at once, by the bounds in the context.
    pub open spec fn refused_at_once(
        &self,
        ctx: SolvingContext,
        e: int,
        lb_fixed: bool,
        c: LitPropagation,
    ) -> bool {
        &&& 0 <= e < self.graph.edges.len()
        &&& forall|ints: IntAssignment, bools: BoolAssignment| #[trigger]
            c.lit.holds(ints, bools) == !gate_holds(
                &self.graph,
                self.graph.edges[e],
                ints,
                bools,
            )
        &&& exists|atoms: Vec<BoolView>| #[trigger]
            ReasonBuilder::Atoms(atoms).builds(c.reason) && ends_within(
                &self.graph,
                e,
                self.reason_ends(&ctx, e, lb_fixed),
                atoms@,
            )
    }

    /// Whether that is so by the bounds at some point on the way.
    pub open spec fn refused_between(
        &self,
        first: &SolvingContext,
        last: &SolvingContext,
        c: LitPropagation,
    ) -> bool {
        exists|mid: SolvingContext, e: int, lb_fixed: bool| #[trigger]
            self.refused_at_once(mid, e, lb_fixed, c) && mid.between(first, last)
    }

    /// The bounds of the ends of the edge that rule it out, as literals.
    fn get_bool_reason(&self, ctx: &SolvingContext, e: usize, lb_fixed: bool) -> (r: Vec<BoolView>)
        requires
            self.ready(ctx),
            self.bounds_sound(ctx),
            e < self.graph.edges.len(),
            self.ruled_out(ctx, e as int),
        ensures
            r.len() == 2,
            ends_within(
                &self.graph,
                e as int,
                self.reason_ends(ctx, e as int, lb_fixed),
                r@,
            ),
    {
        let edge: DiffEdge = self.graph.edges[e];
        proof {
            self.graph.lemma_edge(e as int);
            lemma_room_limit(self.graph.size(), self.graph.edges.len() as int);
            assert(-weight_room(self.graph.size(), self.graph.edges.len() as int)
                <= self.graph.edges[e as int].val);
            assert(ctx.has_view(self.graph.nodes.int_vars[edge.from as int]));
            assert(ctx.has_view(self.graph.nodes.int_vars[edge.to as int]));
        }
        let mut lb: IntVal = self.get_cur_lower_bound(ctx, edge.from);
        let mut ub: IntVal = self.get_cur_upper_bound(ctx, edge.to);
        if self.bool_reasons == 1 {
            if lb_fixed {
                ub = lb - edge.val - 1;
            } else {
                lb = ub + edge.val + 1;
            }
        }
        let mut atoms: Vec<BoolView> = Vec::new();
        let low: BoolView = self.graph.nodes.int_vars[edge.from].lit(IntLitMeaning::GreaterEq(lb));
        let high: BoolView = self.graph.nodes.int_vars[edge.to].lit(IntLitMeaning::Less(ub + 1));
        atoms.push(low);
        atoms.push(high);
        proof {
            assert forall|ints: IntAssignment, bools: BoolAssignment| #[trigger]
                all_hold(atoms@, ints, bools) <==> (node_value(
                    &self.graph,
                    edge.from as int,
                    ints,
                    bools,
                ) >= lb && node_value(&self.graph, edge.to as int, ints, bools) <= ub) by {
                lemma_two_atoms(atoms@, ints, bools);
                assert(low.holds(ints, bools) == (node_value(
                    &self.graph,
                    edge.from as int,
                    ints,
                    bools,
                ) >= lb));
                assert(high.holds(ints, bools) == (node_value(
                    &self.graph,
                    edge.to as int,
                    ints,
                    bools,
                ) < ub + 1));
            }
        }
        atoms
    }

    /// Fix the gating view of an edge that the bounds rule out not to hold. Without a gate there is a
    /// conflict.
    ///
    /// The reason is built when it is asked for if `bool_reasons` is 0, and otherwise at once.
    fn set_bool_false(
        &self,
        ctx: &mut SolvingContext,
        bool_var: Option<usize>,
        e: usize,
        lb_fixed: bool,
    ) -> (r: Result<(), Conflict>)
        requires
            self.ready(old(ctx)),
            self.bounds_sound(old(ctx)),
            e < self.graph.edges.len(),
            bool_var == self.graph.edges[e as int].bool_var,
            self.ruled_out(old(ctx), e as int),
        ensures
            final(ctx).infers_later(
                old(ctx),
                diff_rule(&self.graph),
                put_off(self, final(ctx)),
                r,
            ),
            final(ctx).trail == old(ctx).trail,
            self.ready(final(ctx)),
            r is Ok ==> (bool_var matches Some(b) && final(ctx).decides(
                self.graph.bool_vars[b as int],
                false,
            )),
            r is Err <==> (bool_var matches Some(b) ==> old(ctx).decides(
                self.graph.bool_vars[b as int],
                true,
            )),
            literal_gates(&self.graph) ==> final(ctx).ints@ == old(ctx).ints@,
            gates_refused(
                self,
                old(ctx),
                final(ctx),
                old(ctx).propagation_queue.len() as int,
                final(ctx).propagation_queue.len() as int,
            ),
    {
        let ghost ctx0 = *ctx;
        let ghost rule = diff_rule(&self.graph);
        let ghost edge = self.graph.edges[e as int];
        let reason: ReasonBuilder = if self.bool_reasons == 0 {
            let data: u64 = pack_reason(e, lb_fixed);
            ReasonBuilder::Deferred(ctx.deferred_reason(data))
        } else {
            ReasonBuilder::Atoms(self.get_bool_reason(ctx, e, lb_fixed))
        };
        proof {
            self.graph.lemma_edge(e as int);
            lemma_infers_nothing(&ctx0, rule);
            assert(ctx0.has_view(self.graph.nodes.int_vars[edge.from as int]));
            assert(ctx0.has_view(self.graph.nodes.int_vars[edge.to as int]));
            assert(self.propagated(false, edge.from as int) matches Some(v) ==> v
                <= self.near_node(&ctx0, false, edge.from as int));
            assert(self.propagated(true, edge.to as int) matches Some(v) ==> v <= self.near_node(
                &ctx0,
                true,
                edge.to as int,
            ));
            assert forall|ints: IntAssignment, bools: BoolAssignment|
                #[trigger] ctx0.admits(ints, bools) implies !edge_kept(
                &self.graph,
                edge,
                ints,
                bools,
            ) && reason.holds(ints, bools) by {
                lemma_view_bounds(
                    &ctx0,
                    self.graph.nodes.int_vars[edge.from as int],
                    ints,
                    bools,
                );
                lemma_view_bounds(&ctx0, self.graph.nodes.int_vars[edge.to as int], ints, bools);
                if reason is Atoms {
                    assert(all_hold(reason->Atoms_0@, ints, bools));
                }
            }
            assert forall|ints: IntAssignment, bools: BoolAssignment|
                #[trigger] rule(ints, bools) && (reason is Atoms && reason.holds(ints, bools)
                    || ctx0.admits(ints, bools)) implies !gate_holds(
                &self.graph,
                edge,
                ints,
                bools,
            ) by {
                if gate_holds(&self.graph, self.graph.edges[e as int], ints, bools) {
                    assert(edge_kept(&self.graph, self.graph.edges[e as int], ints, bools));
                    if reason is Atoms && reason.holds(ints, bools) {
                        assert(all_hold(reason->Atoms_0@, ints, bools));
                    }
                }
            }
        }
        let ghost later = put_off(self, &ctx0);
        proof {
            assert forall|subject: Option<BoolView>|
                reason is Deferred && (forall|ints: IntAssignment, bools: BoolAssignment| #[trigger]
                    subject_holds(subject, ints, bools) == !gate_holds(
                        &self.graph,
                        edge,
                        ints,
                        bools,
                    )) implies #[trigger] later(subject, reason->Deferred_0) by {
                lemma_reason_data(e as int, lb_fixed);
                assert(refusal(&self.graph, &ctx0, subject, reason->Deferred_0, e as int));
            }
        }
        match bool_var {
            Some(b) => {
                let bv: BoolView = self.graph.bool_vars[b];
                let ghost builder = reason;
                proof {
                    assert(ctx0.knows(self.graph.bool_vars[b as int]));
                }
                let r: Result<(), Conflict> = ctx.fix(bv, false, reason);
                proof {
                    let step: Rule = |ints: IntAssignment, bools: BoolAssignment|
                        bv.holds(ints, bools) == false;
                    assert forall|subject: Option<BoolView>|
                        builder is Deferred && #[trigger] tells(subject, step) implies later(
                        subject,
                        builder->Deferred_0,
                    ) by {
                        assert forall|ints: IntAssignment, bools: BoolAssignment| #[trigger]
                            subject_holds(subject, ints, bools) == !gate_holds(
                                &self.graph,
                                edge,
                                ints,
                                bools,
                            ) by {
                            assert(subject_holds(subject, ints, bools) == step(ints, bools));
                        }
                    }
                    lemma_infers_later_step(&ctx0, &ctx0, ctx, rule, later, step, builder, r);
                    lemma_put_off_later(self, &ctx0, self, ctx);
                    lemma_infers_weaken(&ctx0, ctx, rule, later, put_off(self, ctx), r);
                    lemma_grounded_narrowed(self, &ctx0, ctx);
                    lemma_grows_itself(&ctx0);
                    assert forall|k: int|
                        ctx0.propagation_queue.len() <= k < ctx.propagation_queue.len()
                            && self.bool_reasons != 0 implies self.refused_between(
                        &ctx0,
                        ctx,
                        #[trigger] ctx.propagation_queue[k],
                    ) by {
                        let c = ctx.propagation_queue[k];
                        assert(c == ctx.propagation_queue@.last());
                        assert forall|ints: IntAssignment, bools: BoolAssignment| #[trigger]
                            c.lit.holds(ints, bools) == !gate_holds(
                                &self.graph,
                                self.graph.edges[e as int],
                                ints,
                                bools,
                            ) by {
                            assert(c.lit.holds(ints, bools) == step(ints, bools));
                        }
                        assert(builder.builds(c.reason));
                        assert(self.refused_at_once(ctx0, e as int, lb_fixed, c));
                    }
                }
                r
            },
            None => {
                let ghost builder = reason;
                let conflict: Conflict = ctx.declare_conflict(reason);
                proof {
                    lemma_conflict_later(&ctx0, rule, later, builder, conflict);
                }
                Err(conflict)
            },
        }
    }
}

impl DiffLogicState {
    /// Whether the edge is closed, or the propagated bounds do not rule it out.
    pub open spec fn not_missed(&self, ctx: &SolvingContext, e: int) -> bool {
        let edge = self.graph.edges[e];
        self.graph.closed_at(e, ctx.trail@) || (self.propagated(false, edge.from as int) matches Some(
            l,
        ) ==> (self.propagated(true, edge.to as int) matches Some(u) ==> l + u <= edge.val))
    }

    /// Whether the edge is closed, or the propagated bounds do not keep its bound anyway.
    pub open spec fn not_idle(&self, ctx: &SolvingContext, e: int) -> bool {
        let edge = self.graph.edges[e];
        self.graph.closed_at(e, ctx.trail@) || (self.propagated(true, edge.from as int) matches Some(
            u,
        ) ==> (self.propagated(false, edge.to as int) matches Some(l) ==> -u - l > edge.val))
    }

    /// Whether the edge was looked at, for what rules it out or for what keeps its bound.
    pub open spec fn looked_at(&self, ctx: &SolvingContext, refuting: bool, e: int) -> bool {
        if refuting {
            self.not_missed(ctx, e)
        } else {
            self.not_idle(ctx, e)
        }
    }

    /// What looking at open edges does.
    pub open spec fn reviews(
        &self,
        before_st: &DiffLogicState,
        before_ctx: &SolvingContext,
        ctx: &SolvingContext,
        r: Result<(), Conflict>,
    ) -> bool {
        &&& self.ready(ctx)
        &&& self.bounds_sound(ctx)
        &&& self.same_but_graph(before_st)
        &&& ctx.infers_later(before_ctx, diff_rule(&before_st.graph), put_off(before_st, ctx), r)
        &&& gates_refused(
            before_st,
            before_ctx,
            ctx,
            before_ctx.propagation_queue.len() as int,
            ctx.propagation_queue.len() as int,
        )
        &&& same_graph(&before_st.graph, &self.graph)
        &&& same_active(&before_st.graph, before_ctx.trail@, &self.graph, ctx.trail@)
        &&& r is Ok ==> advances(before_st, before_ctx, self, ctx)
        &&& literal_gates(&before_st.graph) ==> ctx.ints@ == before_ctx.ints@
    }
}

/// Narrower domains keep the propagated bounds.
pub proof fn lemma_sound_narrowed(
    g: &DiffLogicState,
    ctx0: &SolvingContext,
    h: &DiffLogicState,
    ctx: &SolvingContext,
)
    requires
        g.grounded(ctx0),
        g.bounds_sound(ctx0),
        h.graph.nodes == g.graph.nodes,
        h.lower_bound == g.lower_bound,
        h.upper_bound == g.upper_bound,
        h.lb_updates == g.lb_updates,
        h.ub_updates == g.ub_updates,
        ctx.wf(),
        ctx.grows(ctx0),
        ctx.narrows(ctx0),
    ensures
        h.bounds_sound(ctx),
{
    lemma_near_narrowed(g, ctx0, ctx);
    assert forall|n: int, upper: bool|
        0 <= n < h.graph.size() implies (#[trigger] h.propagated(upper, n) matches Some(v)
        ==> in_limits(v) && v <= near(ctx, h.graph.nodes.int_vars[n], upper)) by {
        assert(h.propagated(upper, n) == g.propagated(upper, n));
        assert(g.near_node(ctx, upper, n) >= g.near_node(ctx0, upper, n));
    }
}

/// Inferences without reasons that are built later put off none.
pub proof fn lemma_none_put_off(
    st: &DiffLogicState,
    ctx0: &SolvingContext,
    ctx: &SolvingContext,
    rule: Rule,
    r: Result<(), Conflict>,
)
    requires
        ctx.infers(ctx0, rule, r),
    ensures
        ctx.infers_later(ctx0, rule, put_off(st, ctx), r),
        forall|n: int|
            ctx0.propagation_queue.len() <= n <= ctx.propagation_queue.len()
                ==> #[trigger] put_off_between(
                st.bool_reasons,
                ctx,
                ctx0.propagation_queue.len() as int,
                n,
                n,
            ),
{
    lemma_infers_weaken(ctx0, ctx, rule, none_later(), put_off(st, ctx), r);
    assert forall|k: int|
        ctx0.propagation_queue.len() <= k < ctx.propagation_queue.len() implies !built_later(
        (#[trigger] ctx.propagation_queue[k]).reason,
    ) by {
        assert(accounted(
            Some(ctx.propagation_queue[k].lit),
            ctx.propagation_queue[k].reason,
            rule,
            none_later(),
        ));
    }
}

/// Reasons of consequences that are added later are not put off.
pub proof fn lemma_put_off_before(
    bool_reasons: u8,
    from: int,
    first: int,
    ctx1: &SolvingContext,
    ctx2: &SolvingContext,
    rule: Rule,
    r: Result<(), Conflict>,
)
    requires
        0 <= from,
        ctx2.infers(ctx1, rule, r),
        put_off_between(bool_reasons, ctx1, from, first, ctx1.propagation_queue.len() as int),
    ensures
        put_off_between(bool_reasons, ctx2, from, first, ctx1.propagation_queue.len() as int),
{
    let n = ctx1.propagation_queue.len() as int;
    assert forall|k: int| from <= k < ctx2.propagation_queue.len() implies built_later(
        (#[trigger] ctx2.propagation_queue[k]).reason,
    ) == (first <= k < n && bool_reasons == 0) by {
        if k < n {
            assert(ctx2.propagation_queue@.take(n)[k] == ctx1.propagation_queue[k]);
            assert(built_later(ctx1.propagation_queue[k].reason) == (first <= k && bool_reasons
                == 0));
        } else {
            assert(accounted(
                Some(ctx2.propagation_queue[k].lit),
                ctx2.propagation_queue[k].reason,
                rule,
                none_later(),
            ));
        }
    }
}

/// Reasons of consequences that are added are put off, too.
proof fn lemma_put_off_appended(
    bool_reasons: u8,
    from: int,
    first: int,
    ctx1: &SolvingContext,
    ctx2: &SolvingContext,
)
    requires
        0 <= from,
        ctx2.grows(ctx1),
        put_off_between(bool_reasons, ctx1, from, first, ctx1.propagation_queue.len() as int),
        put_off_between(
            bool_reasons,
            ctx2,
            ctx1.propagation_queue.len() as int,
            ctx1.propagation_queue.len() as int,
            ctx2.propagation_queue.len() as int,
        ),
    ensures
        put_off_between(bool_reasons, ctx2, from, first, ctx2.propagation_queue.len() as int),
{
    let n = ctx1.propagation_queue.len() as int;
    assert forall|k: int| from <= k < ctx2.propagation_queue.len() implies built_later(
        (#[trigger] ctx2.propagation_queue[k]).reason,
    ) == (first <= k && bool_reasons == 0) by {
        if k < n {
            assert(ctx2.propagation_queue@.take(n)[k] == ctx1.propagation_queue[k]);
            assert(built_later(ctx1.propagation_queue[k].reason) == (first <= k && bool_reasons
                == 0));
        }
    }
}

/// Looking at edges one after another.
pub proof fn lemma_reviews_join(
    f: &DiffLogicState,
    ctx0: &SolvingContext,
    g: &DiffLogicState,
    ctx1: &SolvingContext,
    h: &DiffLogicState,
    ctx2: &SolvingContext,
    r: Result<(), Conflict>,
)
    requires
        f.grounded(ctx0),
        g.reviews(f, ctx0, ctx1, Ok(())),
        h.reviews(g, ctx1, ctx2, r),
    ensures
        h.reviews(f, ctx0, ctx2, r),
{
    lemma_put_off_join(f, ctx0, g, ctx1, ctx2, r);
    lemma_refused_join(f, ctx0, ctx1, g, ctx2, ctx0.propagation_queue.len() as int);
    if r is Ok {
        lemma_advances_join(f, ctx0, g, ctx1, h, ctx2);
    }
    assert forall|k: int| 0 <= k < f.graph.edges.len() implies h.graph.active_at(k, ctx2.trail@)
        == #[trigger] f.graph.active_at(k, ctx0.trail@) by {
        assert(g.graph.active_at(k, ctx1.trail@) == f.graph.active_at(k, ctx0.trail@));
    }
    assert forall|e: int| 0 <= e < f.graph.edges.len() implies (
    #[trigger] h.graph.edges[e]).same_but_positions(f.graph.edges[e]) by {
        assert(g.graph.edges[e].same_but_positions(f.graph.edges[e]));
    }
}

/// What was looked at stays so.
pub proof fn lemma_looked_at_later(
    g: &DiffLogicState,
    ctx0: &SolvingContext,
    h: &DiffLogicState,
    ctx1: &SolvingContext,
)
    requires
        advances(g, ctx0, h, ctx1),
        h.lower_bound == g.lower_bound,
        h.upper_bound == g.upper_bound,
    ensures
        forall|e: int, refuting: bool|
            0 <= e < g.graph.edges.len() && g.graph.edges[e].bool_var is Some
                && #[trigger] g.looked_at(ctx0, refuting, e) ==> h.looked_at(ctx1, refuting, e),
{
    assert forall|e: int, refuting: bool|
        0 <= e < g.graph.edges.len() && g.graph.edges[e].bool_var is Some && #[trigger] g.looked_at(
            ctx0,
            refuting,
            e,
        ) implies h.looked_at(ctx1, refuting, e) by {
        assert(h.graph.edges[e].same_but_positions(g.graph.edges[e]));
    }
}

impl DiffLogicState {
    /// Look at an open edge: if the bounds rule it out, its gate is fixed not to hold, or, if
    /// `refuting` is not set, if the bounds keep its bound anyway, it is closed.
    fn review_edge(&mut self, ctx: &mut SolvingContext, e: usize, refuting: bool, lb_fixed: bool)
        -> (r: Result<(), Conflict>)
        requires
            old(self).ready(old(ctx)),
            old(self).bounds_sound(old(ctx)),
            e < old(self).graph.edges.len(),
            old(self).graph.edges[e as int].bool_var is Some,
        ensures
            final(self).reviews(old(self), old(ctx), final(ctx), r),
            r is Ok ==> final(self).looked_at(final(ctx), refuting, e as int),
    {
        let ghost st0 = *self;
        let ghost ctx0 = *ctx;
        let edge: DiffEdge = self.graph.edges[e];
        proof {
            self.graph.lemma_edge(e as int);
            lemma_infers_nothing(&ctx0, diff_rule(&self.graph));
            lemma_advances_nothing(self, ctx);
            lemma_room_limit(self.graph.size(), self.graph.edges.len() as int);
            assert(-weight_room(self.graph.size(), self.graph.edges.len() as int)
                <= self.graph.edges[e as int].val);
        }
        if refuting {
            let lb: IntVal = self.get_cur_lower_bound(ctx, edge.from);
            let ub: IntVal = self.get_cur_upper_bound(ctx, edge.to);
            if lb - ub > edge.val {
                let r: Result<(), Conflict> = self.set_bool_false(ctx, edge.bool_var, e, lb_fixed);
                let ghost ctx1 = *ctx;
                proof {
                    lemma_sound_narrowed(&st0, &ctx0, &st0, &ctx1);
                }
                if r.is_err() {
                    return r;
                }
                proof {
                    assert(settled_edge(self, &ctx1, e as int));
                    assert(st0.reviews(&st0, &ctx0, &ctx1, Ok(())));
                }
                self.close_edge(ctx, e);
                proof {
                    lemma_sound_narrowed(&st0, &ctx1, self, ctx);
                    lemma_reviews_join(&st0, &ctx0, &st0, &ctx1, self, ctx, Ok(()));
                }
            }
        } else {
            let ub: IntVal = self.get_cur_upper_bound(ctx, edge.from);
            let lb: IntVal = self.get_cur_lower_bound(ctx, edge.to);
            if ub - lb <= edge.val {
                proof {
                    assert(settled_edge(self, ctx, e as int)) by {
                        assert forall|ints: IntAssignment, bools: BoolAssignment|
                            #[trigger] ctx.admits(ints, bools) && active_kept(
                                &self.graph,
                                ctx.trail@,
                                ints,
                                bools,
                            ) implies edge_kept(&self.graph, edge, ints, bools) by {
                            assert(ctx.has_view(self.graph.nodes.int_vars[edge.from as int]));
                            assert(ctx.has_view(self.graph.nodes.int_vars[edge.to as int]));
                            lemma_view_bounds(
                                ctx,
                                self.graph.nodes.int_vars[edge.from as int],
                                ints,
                                bools,
                            );
                            lemma_view_bounds(
                                ctx,
                                self.graph.nodes.int_vars[edge.to as int],
                                ints,
                                bools,
                            );
                        }
                    }
                }
                self.close_edge(ctx, e);
                proof {
                    lemma_sound_narrowed(&st0, &ctx0, self, ctx);
                }
            }
        }
        Ok(())
    }

    /// Look at some edges.
    fn review_list(
        &mut self,
        ctx: &mut SolvingContext,
        list: &Vec<usize>,
        refuting: bool,
        lb_fixed: bool,
    ) -> (r: Result<(), Conflict>)
        requires
            old(self).ready(old(ctx)),
            old(self).bounds_sound(old(ctx)),
            forall|i: int|
                0 <= i < list.len() ==> #[trigger] list[i] < old(self).graph.edges.len() && old(
                    self,
                ).graph.edges[list[i] as int].bool_var is Some,
        ensures
            final(self).reviews(old(self), old(ctx), final(ctx), r),
            r is Ok ==> forall|i: int|
                0 <= i < list.len() ==> final(self).looked_at(
                    final(ctx),
                    refuting,
                    (#[trigger] list[i]) as int,
                ),
    {
        let ghost st0 = *self;
        let ghost ctx0 = *ctx;
        proof {
            lemma_infers_nothing(&ctx0, diff_rule(&self.graph));
            lemma_advances_nothing(self, ctx);
        }
        let mut i: usize = 0;
        while i < list.len()
            invariant
                i <= list.len(),
                st0 == *old(self),
                ctx0 == *old(ctx),
                st0.grounded(&ctx0),
                self.reviews(&st0, &ctx0, ctx, Ok(())),
                forall|k: int|
                    0 <= k < list.len() ==> #[trigger] list[k] < st0.graph.edges.len()
                        && st0.graph.edges[list[k] as int].bool_var is Some,
                forall|k: int|
                    0 <= k < i ==> self.looked_at(ctx, refuting, (#[trigger] list[k]) as int),
            decreases list.len() - i,
        {
            let ghost st1 = *self;
            let ghost ctx1 = *ctx;
            proof {
                assert(self.graph.edges[list[i as int] as int].same_but_positions(
                    st0.graph.edges[list[i as int] as int],
                ));
            }
            let r: Result<(), Conflict> = self.review_edge(ctx, list[i], refuting, lb_fixed);
            proof {
                lemma_reviews_join(&st0, &ctx0, &st1, &ctx1, self, ctx, r);
            }
            if r.is_err() {
                return r;
            }
            proof {
                lemma_looked_at_later(&st1, &ctx1, self, ctx);
                assert forall|k: int| 0 <= k < i + 1 implies self.looked_at(
                    ctx,
                    refuting,
                    (#[trigger] list[k]) as int,
                ) by {
                    if k < i {
                        assert(st1.graph.edges[list[k] as int].same_but_positions(
                            st0.graph.edges[list[k] as int],
                        ));
                        assert(st1.looked_at(&ctx1, refuting, list[k] as int));
                    }
                }
            }
            i = i + 1;
        }
        Ok(())
    }
}

impl DiffLogicState {
    /// Look at the open edges of a node whose lower bound, or, if `upper` is set, upper bound
    /// has changed.
    fn review_node(&mut self, ctx: &mut SolvingContext, n: usize, upper: bool) -> (r: Result<
        (),
        Conflict,
    >)
        requires
            old(self).ready(old(ctx)),
            old(self).bounds_sound(old(ctx)),
            n < old(self).graph.size(),
        ensures
            final(self).reviews(old(self), old(ctx), final(ctx), r),
            r is Ok ==> forall|e: int|
                #![trigger final(self).graph.edges[e]]
                0 <= e < final(self).graph.edges.len() && final(self).graph.edges[e].bool_var
                    is Some ==> {
                    &&& tail(final(self).graph.edges[e], upper) == n ==> final(self).looked_at(
                        final(ctx),
                        true,
                        e,
                    )
                    &&& head(final(self).graph.edges[e], upper) == n ==> final(self).looked_at(
                        final(ctx),
                        false,
                        e,
                    )
                },
    {
        let ghost st0 = *self;
        let ghost ctx0 = *ctx;
        proof {
            lemma_infers_nothing(&ctx0, diff_rule(&self.graph));
            lemma_advances_nothing(self, ctx);
            self.graph.lemma_lists(ctx.trail@, n as int);
        }
        let known: bool = if upper {
            self.upper_bound[n].is_some()
        } else {
            self.lower_bound[n].is_some()
        };
        if !known {
            assert(self.propagated(upper, n as int) is None);
            return Ok(());
        }
        let outs: Vec<usize> = self.graph.open_edges(&ctx.trail, ListKind::Out, n);
        let r: Result<(), Conflict> = self.review_list(ctx, &outs, !upper, false);
        if r.is_err() {
            return r;
        }
        let ghost st1 = *self;
        let ghost ctx1 = *ctx;
        proof {
            self.graph.lemma_lists(ctx.trail@, n as int);
        }
        let ins: Vec<usize> = self.graph.open_edges(&ctx.trail, ListKind::In, n);
        let r: Result<(), Conflict> = self.review_list(ctx, &ins, upper, true);
        proof {
            lemma_reviews_join(&st0, &ctx0, &st1, &ctx1, self, ctx, r);
            if r is Ok {
                lemma_looked_at_later(&st1, &ctx1, self, ctx);
                lemma_looked_at_later(&st0, &ctx0, &st1, &ctx1);
                assert forall|e: int|
                    #![trigger self.graph.edges[e]]
                    0 <= e < self.graph.edges.len() && self.graph.edges[e].bool_var
                        is Some implies {
                    &&& tail(self.graph.edges[e], upper) == n ==> self.looked_at(ctx, true, e)
                    &&& head(self.graph.edges[e], upper) == n ==> self.looked_at(ctx, false, e)
                } by {
                    assert(self.graph.edges[e].same_but_positions(st1.graph.edges[e]));
                    assert(st1.graph.edges[e].same_but_positions(st0.graph.edges[e]));
                    if self.graph.edges[e].from == n {
                        if !st0.graph.closed_at(e, ctx0.trail@) {
                            assert(outs@.contains(e as usize));
                            let i = outs@.index_of(e as usize);
                            assert(outs[i] == e);
                        }
                        assert(st1.looked_at(&ctx1, !upper, e));
                    }
                    if self.graph.edges[e].to == n {
                        if !st1.graph.closed_at(e, ctx1.trail@) {
                            assert(ins@.contains(e as usize));
                            let i = ins@.index_of(e as usize);
                            assert(ins[i] == e);
                        } else {
                            assert(st1.looked_at(&ctx1, upper, e));
                        }
                        assert(self.looked_at(ctx, upper, e));
                    }
                }
            }
        }
        r
    }

    /// Look at the open edges of some nodes.
    fn review_nodes(&mut self, ctx: &mut SolvingContext, nodes: &Vec<usize>, upper: bool) -> (r:
        Result<(), Conflict>)
        requires
            old(self).ready(old(ctx)),
            old(self).bounds_sound(old(ctx)),
            forall|i: int| 0 <= i < nodes.len() ==> #[trigger] nodes[i] < old(self).graph.size(),
        ensures
            final(self).reviews(old(self), old(ctx), final(ctx), r),
            r is Ok ==> forall|e: int|
                #![trigger final(self).graph.edges[e]]
                0 <= e < final(self).graph.edges.len() && final(self).graph.edges[e].bool_var
                    is Some ==> {
                    &&& nodes@.contains(tail(final(self).graph.edges[e], upper) as usize)
                        ==> final(self).looked_at(final(ctx), true, e)
                    &&& nodes@.contains(head(final(self).graph.edges[e], upper) as usize)
                        ==> final(self).looked_at(final(ctx), false, e)
                },
    {
        let ghost st0 = *self;
        let ghost ctx0 = *ctx;
        proof {
            lemma_infers_nothing(&ctx0, diff_rule(&self.graph));
            lemma_advances_nothing(self, ctx);
        }
        let mut i: usize = 0;
        while i < nodes.len()
            invariant
                i <= nodes.len(),
                st0 == *old(self),
                ctx0 == *old(ctx),
                st0.grounded(&ctx0),
                self.reviews(&st0, &ctx0, ctx, Ok(())),
                forall|k: int|
                    0 <= k < nodes.len() ==> #[trigger] nodes[k] < st0.graph.size(),
                forall|e: int, k: int|
                    #![trigger self.graph.edges[e], nodes[k]]
                    0 <= e < self.graph.edges.len() && self.graph.edges[e].bool_var is Some && 0
                        <= k < i ==> {
                        &&& tail(self.graph.edges[e], upper) == nodes[k] ==> self.looked_at(
                            ctx,
                            true,
                            e,
                        )
                        &&& head(self.graph.edges[e], upper) == nodes[k] ==> self.looked_at(
                            ctx,
                            false,
                            e,
                        )
                    },
            decreases nodes.len() - i,
        {
            let ghost st1 = *self;
            let ghost ctx1 = *ctx;
            let r: Result<(), Conflict> = self.review_node(ctx, nodes[i], upper);
            proof {
                lemma_reviews_join(&st0, &ctx0, &st1, &ctx1, self, ctx, r);
            }
            if r.is_err() {
                return r;
            }
            proof {
                lemma_looked_at_later(&st1, &ctx1, self, ctx);
                assert forall|e: int, k: int|
                    #![trigger self.graph.edges[e], nodes[k]]
                    0 <= e < self.graph.edges.len() && self.graph.edges[e].bool_var is Some && 0
                        <= k < i + 1 implies {
                    &&& tail(self.graph.edges[e], upper) == nodes[k] ==> self.looked_at(
                        ctx,
                        true,
                        e,
                    )
                    &&& head(self.graph.edges[e], upper) == nodes[k] ==> self.looked_at(
                        ctx,
                        false,
                        e,
                    )
                } by {
                    assert(self.graph.edges[e].same_but_positions(st1.graph.edges[e]));
                }
            }
            i = i + 1;
        }
        proof {
            assert forall|e: int|
                #![trigger self.graph.edges[e]]
                0 <= e < self.graph.edges.len() && self.graph.edges[e].bool_var is Some implies {
                &&& nodes@.contains(tail(self.graph.edges[e], upper) as usize) ==> self.looked_at(
                    ctx,
                    true,
                    e,
                )
                &&& nodes@.contains(head(self.graph.edges[e], upper) as usize) ==> self.looked_at(
                    ctx,
                    false,
                    e,
                )
            } by {
                let (a, b) = (
                    tail(self.graph.edges[e], upper) as usize,
                    head(self.graph.edges[e], upper) as usize,
                );
                if nodes@.contains(a) {
                    let k = nodes@.index_of(a);
                    assert(nodes[k] == a);
                }
                if nodes@.contains(b) {
                    let k = nodes@.index_of(b);
                    assert(nodes[k] == b);
                }
            }
        }
        Ok(())
    }
}

/// Passing bounds on stays done when domains get narrower.
pub proof fn lemma_passes_later(
    g: &DiffLogicState,
    ctx0: &SolvingContext,
    h: &DiffLogicState,
    ctx1: &SolvingContext,
    upper: bool,
)
    requires
        g.grounded(ctx0),
        same_graph(&g.graph, &h.graph),
        forall|k: int|
            0 <= k < g.graph.size() ==> #[trigger] h.propagated(upper, k) == g.propagated(upper, k),
        ctx1.wf(),
        ctx1.grows(ctx0),
        ctx1.narrows(ctx0),
    ensures
        forall|e: int|
            0 <= e < g.graph.edges.len() && #[trigger] g.passes(ctx0, upper, e) ==> h.passes(
                ctx1,
                upper,
                e,
            ),
{
    lemma_near_narrowed(g, ctx0, ctx1);
    assert forall|e: int|
        0 <= e < g.graph.edges.len() && #[trigger] g.passes(ctx0, upper, e) implies h.passes(
        ctx1,
        upper,
        e,
    ) by {
        g.graph.lemma_edge(e);
        assert(h.graph.edges[e].same_but_positions(g.graph.edges[e]));
        let t = head(g.graph.edges[e], upper);
        assert(g.near_node(ctx1, upper, t) >= g.near_node(ctx0, upper, t));
        assert(h.propagated(upper, tail(g.graph.edges[e], upper)) == g.propagated(
            upper,
            tail(g.graph.edges[e], upper),
        ));
    }
}

impl DiffLogicState {
    /// The nodes whose bounds have changed are nodes.
    pub open spec fn changes_within(&self) -> bool {
        forall|k: usize, upper: bool| #[trigger]
            self.changes(upper).contains(k) ==> k < self.graph.size()
    }

    /// Pass on all bounds that have changed.
    fn drive(&mut self, ctx: &mut SolvingContext) -> (r: Result<(), Conflict>)
        requires
            old(self).ready(old(ctx)),
            old(self).bounds_sound(old(ctx)),
            old(self).changes_within(),
        ensures
            final(ctx).infers(old(ctx), diff_rule(&old(self).graph), r),
            final(ctx).trail == old(ctx).trail,
            old(self).all_told(old(ctx), final(ctx), final(ctx).propagation_queue.len() as int),
            final(self).graph == old(self).graph,
            final(self).pi == old(self).pi,
            final(self).fixed_bools == old(self).fixed_bools,
            final(self).pi_initialized == old(self).pi_initialized,
            final(self).same_settings(old(self)),
            final(self).ready(final(ctx)),
            final(self).bounds_listed(),
            final(self).changes_within(),
            r is Ok ==> {
                &&& final(self).bounds_sound(final(ctx))
                &&& bounds_driven(old(self), old(ctx), final(self), final(ctx), false)
                &&& bounds_driven(old(self), old(ctx), final(self), final(ctx), true)
                // The domains were narrowed by the propagated bounds and by nothing else.
                &&& forall|ints: IntAssignment, bools: BoolAssignment|
                    #[trigger] final(ctx).admits(ints, bools) <==> (old(ctx).admits(ints, bools)
                        && final(self).reached(false, ints, bools) && final(self).reached(
                        true,
                        ints,
                        bools,
                    ))
                &&& regular(&old(self).graph, old(ctx)) ==> final(self).bounds_exact(
                    old(ctx),
                    final(ctx),
                    false,
                ) && final(self).bounds_exact(old(ctx), final(ctx), true)
            },
    {
        let ghost st0 = *self;
        let ghost ctx0 = *ctx;
        let ghost rule = diff_rule(&self.graph);
        proof {
            lemma_infers_nothing(&ctx0, rule);
        }
        let low: Vec<usize> = set_elements(&self.lower_bound_changes);
        if low.len() > 0 {
            proof {
                assert(low@.contains(low[0]));
                assert(self.changes(false).contains(low[0]));
            }
            let r: Result<(), Conflict> = self.inc_lb(ctx);
            proof {
                assert forall|k: usize, upper: bool| #[trigger]
                    self.changes(upper).contains(k) implies k < self.graph.size() by {
                    if upper {
                        assert(self.changes(!false) == st0.changes(!false));
                        assert(st0.changes(true).contains(k));
                    }
                }
            }
            if r.is_err() {
                return r;
            }
        } else {
            proof {
                assert forall|k: usize| !#[trigger] self.changes(false).contains(k) by {
                    if self.changes(false).contains(k) {
                        assert(low@.contains(k));
                    }
                }
            }
        }
        let ghost st1 = *self;
        let ghost ctx1 = *ctx;
        proof {
            assert(ctx1.infers(&ctx0, rule, Ok(())));
            assert(bounds_driven(&st0, &ctx0, &st1, &ctx1, false));
            assert(st1.changes(!false) == st0.changes(!false));
            assert forall|k: int|
                0 <= k < st1.graph.size() implies #[trigger] st1.propagated(true, k)
                == st0.propagated(true, k) by {
                assert(st1.propagated(!false, k) == st0.opposite(false, k));
            }
            lemma_passes_later(&st0, &ctx0, &st1, &ctx1, true);
            lemma_near_narrowed(&st0, &ctx0, &ctx1);
        }
        let high: Vec<usize> = set_elements(&self.upper_bound_changes);
        if high.len() > 0 {
            proof {
                assert(high@.contains(high[0]));
                assert(self.changes(true).contains(high[0]));
            }
            let r: Result<(), Conflict> = self.inc_ub(ctx);
            proof {
                lemma_told_join(&st0, &st1, &ctx0, &ctx1, ctx);
                lemma_infers_join(&ctx0, &ctx1, ctx, rule, r);
                assert forall|k: usize, upper: bool| #[trigger]
                    self.changes(upper).contains(k) implies k < self.graph.size() by {
                    if !upper {
                        assert(self.changes(!true) == st1.changes(!true));
                        assert(st1.changes(false).contains(k));
                    }
                }
            }
            if r.is_err() {
                return r;
            }
        } else {
            proof {
                assert forall|k: usize| !#[trigger] self.changes(true).contains(k) by {
                    if self.changes(true).contains(k) {
                        assert(high@.contains(k));
                    }
                }
            }
        }
        proof {
            assert(ctx.infers(&ctx1, rule, Ok(()))) by {
                lemma_infers_nothing(&ctx1, rule);
            }
            lemma_infers_join(&ctx0, &ctx1, ctx, rule, Ok(()));
            assert(self.changes(!true) == st1.changes(!true));
            assert forall|k: int|
                0 <= k < st1.graph.size() implies #[trigger] self.propagated(false, k)
                == st1.propagated(false, k) by {
                assert(self.propagated(!true, k) == st1.opposite(true, k));
            }
            lemma_passes_later(&st1, &ctx1, self, ctx, false);
            lemma_near_narrowed(&st1, &ctx1, ctx);
            lemma_driven_low(&st0, &ctx0, &st1, &ctx1, self, ctx);
            lemma_driven_high(&st0, &ctx0, &st1, &ctx1, self, ctx);
            assert forall|ints: IntAssignment, bools: BoolAssignment| #[trigger]
                self.reached(false, ints, bools) == st1.reached(false, ints, bools) by {
                lemma_reached_same(&st1, self, false, ints, bools);
            }
            assert forall|ints: IntAssignment, bools: BoolAssignment|
                #[trigger] ctx.admits(ints, bools) <==> (ctx0.admits(ints, bools) && self.reached(
                    false,
                    ints,
                    bools,
                ) && self.reached(true, ints, bools)) by {
                assert(ctx1.admits(ints, bools) <==> (ctx0.admits(ints, bools) && st1.reached(
                    false,
                    ints,
                    bools,
                )));
                assert(self.reached(false, ints, bools) == st1.reached(false, ints, bools));
            }
            if regular(&st0.graph, &ctx0) {
                lemma_grounded_before(&st0, self, &ctx0);
                assert(self.changes_known(&ctx0, true, true));
                lemma_bounds_exact(self, &ctx0, ctx, true, true, false);
                lemma_bounds_exact(self, &ctx0, ctx, true, true, true);
            }
        }
        Ok(())
    }
}

proof fn lemma_reached_same(
    g: &DiffLogicState,
    h: &DiffLogicState,
    upper: bool,
    ints: IntAssignment,
    bools: BoolAssignment,
)
    requires
        h.graph == g.graph,
        h.changes(upper) == g.changes(upper),
        g.changes_within(),
        forall|k: int|
            0 <= k < g.graph.size() ==> #[trigger] h.propagated(upper, k) == g.propagated(upper, k),
    ensures
        h.reached(upper, ints, bools) == g.reached(upper, ints, bools),
{
    assert forall|k: usize| #[trigger] g.changes(upper).contains(k) implies h.changes(
        upper,
    ).contains(k) && h.propagated(upper, k as int) == g.propagated(upper, k as int) by {}
    if h.reached(upper, ints, bools) {
        assert forall|k: usize| #[trigger] g.changes(upper).contains(k) implies reaches(
            g.graph.nodes.int_vars[k as int],
            upper,
            g.propagated(upper, k as int)->0,
        )(ints, bools) by {
            assert(h.changes(upper).contains(k));
        }
    }
    if g.reached(upper, ints, bools) {
        assert forall|k: usize| #[trigger] h.changes(upper).contains(k) implies reaches(
            h.graph.nodes.int_vars[k as int],
            upper,
            h.propagated(upper, k as int)->0,
        )(ints, bools) by {
            assert(g.changes(upper).contains(k));
        }
    }
}

proof fn lemma_driven_low(
    st0: &DiffLogicState,
    ctx0: &SolvingContext,
    st1: &DiffLogicState,
    ctx1: &SolvingContext,
    st: &DiffLogicState,
    ctx: &SolvingContext,
)
    requires
        st0.ready(ctx0),
        st0.changes_within(),
        st1.graph == st0.graph,
        st.graph == st0.graph,
        ctx1.trail == ctx0.trail,
        ctx.trail == ctx0.trail,
        bounds_driven(st0, ctx0, st1, ctx1, false),
        st1.changes_within(),
        st.changes(false) == st1.changes(false),
        forall|k: int|
            0 <= k < st1.graph.size() ==> #[trigger] st.propagated(false, k) == st1.propagated(
                false,
                k,
            ),
        forall|e: int|
            0 <= e < st1.graph.edges.len() && #[trigger] st1.passes(ctx1, false, e) ==> st.passes(
                ctx,
                false,
                e,
            ),
        forall|n: int, u: bool|
            0 <= n < st1.graph.size() ==> #[trigger] st1.near_node(ctx, u, n) >= st1.near_node(
                ctx1,
                u,
                n,
            ),
    ensures
        bounds_driven(st0, ctx0, st, ctx, false),
{
    assert forall|k: int| 0 <= k < st0.graph.size() implies match #[trigger] st.propagated(
        false,
        k,
    ) {
        Some(w) => w >= st0.current(ctx0, false, k),
        None => st0.propagated(false, k) is None,
    } by {
        assert(st.propagated(false, k) == st1.propagated(false, k));
    }
    assert forall|k: usize| #[trigger] st0.changes(false).contains(k) implies (st.propagated(
        false,
        k as int,
    ) matches Some(v) && v >= st0.near_node(ctx0, false, k as int)) by {
        assert(k < st0.graph.size());
        assert(st.propagated(false, k as int) == st1.propagated(false, k as int));
    }
    assert forall|k: usize| #[trigger] st.changes(false).contains(k) implies (st.propagated(
        false,
        k as int,
    ) matches Some(v) && v >= st0.near_node(ctx0, false, k as int)) by {
        assert(st1.changes(false).contains(k));
        assert(st.propagated(false, k as int) == st1.propagated(false, k as int));
    }
    assert forall|k: usize| #[trigger] st.changes(false).contains(k) implies k < st.graph.size()
        && st.propagated(false, k as int) is Some && (st0.changes(false).contains(k)
        || st.near_node(ctx, false, k as int) > st.near_node(ctx0, false, k as int)) by {
        assert(st1.changes(false).contains(k));
        assert(st.propagated(false, k as int) == st1.propagated(false, k as int));
        assert(st1.near_node(ctx, false, k as int) >= st1.near_node(ctx1, false, k as int));
    }
    assert forall|e: int|
        0 <= e < st.graph.edges.len() && #[trigger] st.graph.active_at(e, ctx.trail@) && (
        st0.passes(ctx0, false, e) || st.changes(false).contains(
            tail(st.graph.edges[e], false) as usize,
        ) || st.propagated(false, tail(st.graph.edges[e], false)) != st0.propagated(
            false,
            tail(st.graph.edges[e], false),
        )) implies st.passes(ctx, false, e) by {
        st.graph.lemma_edge(e);
        assert(st.propagated(false, tail(st.graph.edges[e], false)) == st1.propagated(
            false,
            tail(st.graph.edges[e], false),
        ));
        assert(st1.graph.active_at(e, ctx1.trail@));
        assert(st1.passes(ctx1, false, e));
    }
}

proof fn lemma_driven_high(
    st0: &DiffLogicState,
    ctx0: &SolvingContext,
    st1: &DiffLogicState,
    ctx1: &SolvingContext,
    st: &DiffLogicState,
    ctx: &SolvingContext,
)
    requires
        st0.ready(ctx0),
        st0.changes_within(),
        st1.graph == st0.graph,
        st.graph == st0.graph,
        ctx1.trail == ctx0.trail,
        ctx.trail == ctx0.trail,
        bounds_driven(st1, ctx1, st, ctx, true),
        st1.changes(true) == st0.changes(true),
        forall|k: int|
            0 <= k < st0.graph.size() ==> #[trigger] st1.propagated(true, k) == st0.propagated(
                true,
                k,
            ),
        forall|e: int|
            0 <= e < st0.graph.edges.len() && #[trigger] st0.passes(ctx0, true, e) ==> st1.passes(
                ctx1,
                true,
                e,
            ),
        forall|n: int, u: bool|
            0 <= n < st0.graph.size() ==> #[trigger] st0.near_node(ctx1, u, n) >= st0.near_node(
                ctx0,
                u,
                n,
            ),
    ensures
        bounds_driven(st0, ctx0, st, ctx, true),
{
    assert forall|k: int| 0 <= k < st0.graph.size() implies match #[trigger] st.propagated(
        true,
        k,
    ) {
        Some(w) => w >= st0.current(ctx0, true, k),
        None => st0.propagated(true, k) is None,
    } by {
        assert(st1.propagated(true, k) == st0.propagated(true, k));
        assert(st0.near_node(ctx1, true, k) >= st0.near_node(ctx0, true, k));
    }
    assert forall|k: usize| #[trigger] st0.changes(true).contains(k) implies (st.propagated(
        true,
        k as int,
    ) matches Some(v) && v >= st0.near_node(ctx0, true, k as int)) by {
        assert(st1.changes(true).contains(k));
        assert(st0.near_node(ctx1, true, k as int) >= st0.near_node(ctx0, true, k as int));
    }
    assert forall|k: usize| #[trigger] st.changes(true).contains(k) implies (st.propagated(
        true,
        k as int,
    ) matches Some(v) && v >= st0.near_node(ctx0, true, k as int)) by {
        assert(st0.near_node(ctx1, true, k as int) >= st0.near_node(ctx0, true, k as int));
    }
    assert forall|k: usize| #[trigger] st0.changes(true).contains(k) implies st.changes(
        true,
    ).contains(k) by {
        assert(st1.changes(true).contains(k));
    }
    assert forall|k: usize| #[trigger] st.changes(true).contains(k) implies k < st.graph.size()
        && st.propagated(true, k as int) is Some && (st0.changes(true).contains(k) || st.near_node(
        ctx,
        true,
        k as int,
    ) > st.near_node(ctx0, true, k as int)) by {
        assert(st0.near_node(ctx1, true, k as int) >= st0.near_node(ctx0, true, k as int));
    }
    assert forall|e: int|
        0 <= e < st.graph.edges.len() && #[trigger] st.graph.active_at(e, ctx.trail@) && (
        st0.passes(ctx0, true, e) || st.changes(true).contains(
            tail(st.graph.edges[e], true) as usize,
        ) || st.propagated(true, tail(st.graph.edges[e], true)) != st0.propagated(
            true,
            tail(st.graph.edges[e], true),
        )) implies st.passes(ctx, true, e) by {
        st.graph.lemma_edge(e);
        assert(st1.propagated(true, tail(st.graph.edges[e], true)) == st0.propagated(
            true,
            tail(st.graph.edges[e], true),
        ));
        if st0.passes(ctx0, true, e) {
            assert(st1.passes(ctx1, true, e));
        }
    }
}

impl DiffLogicState {
    /// What holds of the state at all times, even after a conflict.
    pub open spec fn kept(&self, ctx: &SolvingContext) -> bool {
        &&& self.grounded(ctx)
        &&& self.sized()
        &&& self.values_fit()
        &&& self.visits_listed()
        &&& self.bounds_listed()
        &&& self.changes_within()
        &&& forall|b: usize| #[trigger]
            self.fixed_bools@.contains(b) ==> b < self.graph.bool_vars.len()
        &&& if self.pi_initialized {
            self.pi_recovers(&ctx.trail)
        } else {
            active_ungated(&self.graph, ctx.trail@)
        }
    }

    /// Whether the potentials keep all active edges but at most one, which is not active at
    /// earlier levels.
    pub open spec fn pi_recovers(&self, trail: &Trail) -> bool {
        exists|x: int| #[trigger]
            self.pi_valid_but(trail@, x) && (0 <= x < self.graph.edges.len() ==> forall|l: int|
                0 <= l < trail.depth() ==> !self.graph.active_at(x, #[trigger] trail.saved(l)))
    }

    /// What holds of the state whenever propagation starts.
    pub open spec fn in_order(&self, ctx: &SolvingContext) -> bool {
        &&& self.kept(ctx)
        &&& self.bounds_sound(ctx)
        &&& self.pi_initialized ==> self.pi_valid(ctx.trail@)
        &&& active_closed(&self.graph, ctx.trail@)
    }

    /// Whether a bound that decides about the edge has changed.
    pub open spec fn touched(&self, refuting: bool, e: int) -> bool {
        let edge = self.graph.edges[e];
        if refuting {
            self.changes(false).contains(edge.from) || self.changes(true).contains(edge.to)
        } else {
            self.changes(false).contains(edge.to) || self.changes(true).contains(edge.from)
        }
    }

    /// Whether the propagated bounds that decide about the edge are the same.
    pub open spec fn same_ends(&self, other: &DiffLogicState, refuting: bool, e: int) -> bool {
        let edge = self.graph.edges[e];
        &&& self.propagated(!refuting, edge.from as int) == other.propagated(
            !refuting,
            edge.from as int,
        )
        &&& self.propagated(refuting, edge.to as int) == other.propagated(refuting, edge.to as int)
    }
}

/// Whether no active edge with a gate is open.
pub open spec fn active_closed(graph: &DiffGraph, values: Seq<usize>) -> bool {
    forall|e: int|
        0 <= e < graph.edges.len() && #[trigger] graph.active_at(e, values)
            && graph.edges[e].bool_var is Some ==> graph.closed_at(e, values)
}

/// Whether a bound of the node had changed, or has changed since. The first time all bounds
/// count as changed.
pub open spec fn raised(
    st0: &DiffLogicState,
    ctx0: &SolvingContext,
    ctx: &SolvingContext,
    upper: bool,
    k: int,
) -> bool {
    ||| !st0.pi_initialized
    ||| st0.changes(upper).contains(k as usize)
    ||| st0.near_node(ctx, upper, k) > st0.near_node(ctx0, upper, k)
}

/// Whether every propagated bound that is new was passed on along the active edges, and, where
/// the nodes are regular, every bound that has changed is the propagated one.
pub open spec fn bounds_followed(
    st0: &DiffLogicState,
    ctx0: &SolvingContext,
    st: &DiffLogicState,
    ctx: &SolvingContext,
    upper: bool,
) -> bool {
    &&& forall|e: int|
        0 <= e < st.graph.edges.len() && #[trigger] st.graph.active_at(e, ctx.trail@)
            && st.propagated(upper, tail(st.graph.edges[e], upper)) != st0.propagated(
            upper,
            tail(st.graph.edges[e], upper),
        ) ==> st.passes(ctx, upper, e)
    &&& regular(&st0.graph, ctx0) ==> forall|k: int|
        0 <= k < st0.graph.size() && #[trigger] raised(st0, ctx0, ctx, upper, k) ==> st.propagated(
            upper,
            k,
        ) == Some(st.near_node(ctx, upper, k))
    &&& regular(&st0.graph, ctx0) ==> forall|e: int|
        0 <= e < st.graph.edges.len() && #[trigger] st.graph.active_at(e, ctx.trail@) && raised(
            st0,
            ctx0,
            ctx,
            upper,
            tail(st.graph.edges[e], upper),
        ) ==> st.passes(ctx, upper, e)
}

/// Whether open edges were looked at wherever a bound that decides about them has changed, if
/// the nodes are regular.
pub open spec fn raised_reviewed(
    st0: &DiffLogicState,
    ctx0: &SolvingContext,
    st: &DiffLogicState,
    ctx: &SolvingContext,
) -> bool {
    regular(&st0.graph, ctx0) ==> forall|e: int, refuting: bool|
        #![trigger st.looked_at(ctx, refuting, e)]
        0 <= e < st.graph.edges.len() && st.graph.edges[e].bool_var is Some && (raised(
            st0,
            ctx0,
            ctx,
            !refuting,
            st.graph.edges[e].from as int,
        ) || raised(st0, ctx0, ctx, refuting, st.graph.edges[e].to as int)) ==> st.looked_at(
            ctx,
            refuting,
            e,
        )
}

/// What propagating the bounds achieves. The first time all bounds count as changed.
pub open spec fn bounds_done(
    st0: &DiffLogicState,
    ctx0: &SolvingContext,
    st: &DiffLogicState,
    ctx: &SolvingContext,
) -> bool {
    let first = !st0.pi_initialized;
    // Bounds that were raised were followed as far as they lead.
    &&& bounds_followed(st0, ctx0, st, ctx, false)
    &&& bounds_followed(st0, ctx0, st, ctx, true)
    // No propagated bound was loosened.
    &&& keeps_propagated(st0, ctx0, st, false)
    &&& keeps_propagated(st0, ctx0, st, true)
    // No change is left.
    &&& st.pi_initialized
    &&& forall|k: usize, upper: bool| !#[trigger] st.changes(upper).contains(k)
    // Bounds that had changed were propagated.
    &&& forall|k: int, upper: bool|
        0 <= k < st0.graph.size() && (first || st0.changes(upper).contains(k as usize)) ==> (
        #[trigger] st.propagated(upper, k) matches Some(v) && v >= st0.near_node(ctx0, upper, k))
    // They were passed on along active edges.
    &&& forall|e: int, upper: bool|
        #![trigger st.passes(ctx, upper, e)]
        0 <= e < st.graph.edges.len() && st.graph.active_at(e, ctx.trail@) && (first || st0.passes(
            ctx0,
            upper,
            e,
        ) || st0.changes(upper).contains(tail(st.graph.edges[e], upper) as usize)) ==> st.passes(
            ctx,
            upper,
            e,
        )
    // Open edges at their ends were looked at.
    &&& forall|e: int, refuting: bool|
        #![trigger st.looked_at(ctx, refuting, e)]
        0 <= e < st.graph.edges.len() && st.graph.edges[e].bool_var is Some && (first
            || st0.touched(refuting, e) || (st0.looked_at(ctx0, refuting, e) && st0.same_ends(
            st,
            refuting,
            e,
        ))) ==> st.looked_at(ctx, refuting, e)
    &&& raised_reviewed(st0, ctx0, st, ctx)
}

impl DiffLogicState {
    /// Find the potentials, if that was not done yet, and have all bounds count as changed.
    fn prepare(&mut self, ctx: &mut SolvingContext) -> (r: Result<(), Conflict>)
        requires
            old(self).in_order(old(ctx)),
        ensures
            *final(ctx) == *old(ctx),
            final(ctx).infers(old(ctx), diff_rule(&old(self).graph), r),
            final(self).in_order(final(ctx)),
            final(self).graph == old(self).graph,
            final(self).lower_bound == old(self).lower_bound,
            final(self).upper_bound == old(self).upper_bound,
            final(self).fixed_bools == old(self).fixed_bools,
            final(self).same_settings(old(self)),
            r is Err <==> !old(self).pi_initialized && !active_potentials(
                &old(self).graph,
                old(ctx).trail@,
            ),
            r is Ok ==> {
                &&& final(self).pi_initialized
                &&& old(self).pi_initialized ==> *final(self) == *old(self)
                &&& !old(self).pi_initialized ==> forall|k: usize, upper: bool|
                    #[trigger] final(self).changes(upper).contains(k) <==> k
                        < old(self).graph.size()
            },
    {
        let ghost st0 = *self;
        let ghost rule = diff_rule(&self.graph);
        proof {
            lemma_infers_nothing(ctx, rule);
        }
        if !self.pi_initialized {
            let r: Result<(), Conflict> = self.bellman_ford_init_pi(ctx);
            proof {
                assert forall|k: int, u: bool| #[trigger]
                    self.propagated(u, k) == st0.propagated(u, k) by {}
                assert forall|k: usize, u: bool| #[trigger]
                    self.changes(u).contains(k) implies k < self.graph.size() by {
                    assert(st0.changes(u).contains(k));
                }
            }
            if r.is_err() {
                return r;
            }
            self.pi_initialized = true;
            let ghost st1 = *self;
            proof {
                assert forall|k: int, u: bool| #[trigger]
                    st1.propagated(u, k) == st0.propagated(u, k) by {}
                assert(st1.bounds_sound(ctx));
                assert forall|k: usize, u: bool| #[trigger]
                    self.changes(u).contains(k) implies k < self.graph.size() by {
                    assert(st0.changes(u).contains(k));
                }
            }
            let mut n: usize = 0;
            while n < self.graph.nodes.int_vars.len()
                invariant
                    n <= self.graph.size(),
                    self.same_but_changes(&st1),
                    st1.graph == st0.graph,
                    forall|k: usize, upper: bool| #[trigger]
                        self.changes(upper).contains(k) ==> k < self.graph.size(),
                    forall|k: usize, upper: bool|
                        k < n ==> #[trigger] self.changes(upper).contains(k),
                decreases self.graph.size() - n,
            {
                let ghost st2 = *self;
                set_insert(&mut self.lower_bound_changes, n);
                set_insert(&mut self.upper_bound_changes, n);
                proof {
                    assert forall|k: usize, upper: bool| #[trigger]
                        self.changes(upper).contains(k) implies k < self.graph.size() by {
                        assert(k == n || st2.changes(upper).contains(k));
                    }
                    assert forall|k: usize, upper: bool|
                        k < n + 1 implies #[trigger] self.changes(upper).contains(k) by {
                        assert(k < n ==> st2.changes(upper).contains(k));
                    }
                }
                n = n + 1;
            }
            proof {
                assert forall|k: int, u: bool| #[trigger]
                    self.propagated(u, k) == st1.propagated(u, k) by {}
                assert(self.pi_valid_but(ctx.trail@, -1));
            }
        }
        Ok(())
    }

    /// Propagate the bounds that have changed: they are passed on along active edges, and the
    /// open edges of the nodes are closed where the bounds decide about them.
    #[verifier::spinoff_prover]
    pub fn propagate_bounds(&mut self, ctx: &mut SolvingContext) -> (r: Result<(), Conflict>)
        requires
            old(self).in_order(old(ctx)),
        ensures
            final(ctx).infers_later(
                old(ctx),
                diff_rule(&old(self).graph),
                put_off(old(self), final(ctx)),
                r,
            ),
            // Bounds come first, and gates with their kind of reasons after that.
            exists|first: int| #[trigger]
                gates_refused(
                    final(self),
                    old(ctx),
                    final(ctx),
                    first,
                    final(ctx).propagation_queue.len() as int,
                ) && old(self).all_told(old(ctx), final(ctx), first),
            final(self).kept(final(ctx)),
            same_graph(&old(self).graph, &final(self).graph),
            same_active(&old(self).graph, old(ctx).trail@, &final(self).graph, final(ctx).trail@),
            final(self).fixed_bools == old(self).fixed_bools,
            final(self).same_settings(old(self)),
            r is Ok ==> {
                &&& final(self).in_order(final(ctx))
                &&& advances(old(self), old(ctx), final(self), final(ctx))
                &&& bounds_done(old(self), old(ctx), final(self), final(ctx))
            },
            !old(self).pi_initialized && !active_potentials(&old(self).graph, old(ctx).trail@)
                ==> r is Err,
    {
        let ghost st0 = *self;
        let ghost ctx0 = *ctx;
        let ghost rule = diff_rule(&self.graph);
        let r: Result<(), Conflict> = self.prepare(ctx);
        proof {
            lemma_none_put_off(&st0, &ctx0, ctx, rule, r);
            assert(put_off_between(
                st0.bool_reasons,
                ctx,
                ctx0.propagation_queue.len() as int,
                ctx.propagation_queue.len() as int,
                ctx.propagation_queue.len() as int,
            ));
            assert(gates_refused(
                self,
                &ctx0,
                ctx,
                ctx.propagation_queue.len() as int,
                ctx.propagation_queue.len() as int,
            ));
        }
        if r.is_err() {
            return r;
        }
        let ghost st1 = *self;
        let r: Result<(), Conflict> = self.drive(ctx);
        proof {
            lemma_told_later(&st1, &st0, &ctx0, ctx, ctx, ctx.propagation_queue.len() as int);
        }
        let ghost st2 = *self;
        let ghost ctx2 = *ctx;
        let ghost first = ctx2.propagation_queue.len() as int;
        proof {
            lemma_none_put_off(&st0, &ctx0, ctx, rule, r);
            assert(put_off_between(
                st0.bool_reasons,
                ctx,
                ctx0.propagation_queue.len() as int,
                ctx.propagation_queue.len() as int,
                ctx.propagation_queue.len() as int,
            ));
            assert(gates_refused(
                self,
                &ctx0,
                ctx,
                ctx.propagation_queue.len() as int,
                ctx.propagation_queue.len() as int,
            ));
        }
        if r.is_err() {
            return r;
        }
        let low: Vec<usize> = set_elements(&self.lower_bound_changes);
        self.lower_bound_changes = set_new();
        let ghost st3 = *self;
        proof {
            lemma_advances_same(&st0, &ctx0, &st3, &ctx2);
            lemma_changes_taken(&st2, &st3, &ctx2);
            assert forall|i: int| 0 <= i < low.len() implies #[trigger] low[i] < self.graph.size() by {
                assert(low@.contains(low[i]));
                assert(st2.changes(false).contains(low[i]));
            }
        }
        let r: Result<(), Conflict> = self.review_nodes(ctx, &low, false);
        let ghost st4 = *self;
        let ghost ctx4 = *ctx;
        proof {
            lemma_put_off_join(&st0, &ctx0, &st3, &ctx2, &ctx4, r);
            lemma_refused_join(&st3, &ctx0, &ctx2, &st3, &ctx4, first);
            lemma_told_later(&st0, &st0, &ctx0, &ctx2, &ctx4, first);
            lemma_infers_nothing(&ctx4, rule);
            lemma_refused_before(&st3, &ctx0, &ctx4, &st4, &ctx4, first, rule, Ok(()));
            lemma_changes_taken(&st3, &st4, &ctx4);
            if r is Ok {
                lemma_advances_join(&st0, &ctx0, &st3, &ctx2, &st4, &ctx4);
            }
        }
        if r.is_err() {
            return r;
        }
        let high: Vec<usize> = set_elements(&self.upper_bound_changes);
        self.upper_bound_changes = set_new();
        let ghost st5 = *self;
        proof {
            lemma_infers_nothing(&ctx4, rule);
            lemma_refused_before(&st4, &ctx0, &ctx4, &st5, &ctx4, first, rule, Ok(()));
            lemma_advances_same(&st4, &ctx4, &st5, &ctx4);
            lemma_advances_join(&st0, &ctx0, &st4, &ctx4, &st5, &ctx4);
            lemma_changes_taken(&st4, &st5, &ctx4);
            assert forall|i: int|
                0 <= i < high.len() implies #[trigger] high[i] < self.graph.size() by {
                assert(high@.contains(high[i]));
                assert(st4.changes(true).contains(high[i]));
            }
        }
        let r: Result<(), Conflict> = self.review_nodes(ctx, &high, true);
        proof {
            lemma_put_off_join(&st0, &ctx0, &st5, &ctx4, ctx, r);
            lemma_refused_join(&st5, &ctx0, &ctx4, &st5, ctx, first);
            lemma_told_later(&st0, &st0, &ctx0, &ctx4, ctx, first);
            lemma_infers_nothing(ctx, rule);
            lemma_refused_before(&st5, &ctx0, ctx, self, ctx, first, rule, Ok(()));
            lemma_changes_taken(&st5, self, ctx);
            if r is Ok {
                lemma_advances_join(&st0, &ctx0, &st5, &ctx4, self, ctx);
                lemma_active_closed_later(&st0, &ctx0, self, ctx);
                lemma_grows_join(&ctx2, &ctx4, ctx);
                lemma_bounds_done(
                    &st0,
                    &ctx0,
                    &st1,
                    &st2,
                    &ctx2,
                    &st4,
                    &st5,
                    &ctx4,
                    self,
                    ctx,
                    low@,
                    high@,
                );
            }
        }
        r
    }
}

/// Active edges stay closed.
proof fn lemma_active_closed_later(
    g: &DiffLogicState,
    ctx0: &SolvingContext,
    h: &DiffLogicState,
    ctx1: &SolvingContext,
)
    requires
        advances(g, ctx0, h, ctx1),
        same_active(&g.graph, ctx0.trail@, &h.graph, ctx1.trail@),
        active_closed(&g.graph, ctx0.trail@),
    ensures
        active_closed(&h.graph, ctx1.trail@),
{
    assert forall|e: int|
        0 <= e < h.graph.edges.len() && #[trigger] h.graph.active_at(e, ctx1.trail@)
            && h.graph.edges[e].bool_var is Some implies h.graph.closed_at(e, ctx1.trail@) by {
        assert(g.graph.active_at(e, ctx0.trail@));
        assert(h.graph.edges[e].same_but_positions(g.graph.edges[e]));
    }
}

/// A state that differs in no edge has not moved.
proof fn lemma_advances_same(
    g: &DiffLogicState,
    ctx0: &SolvingContext,
    h: &DiffLogicState,
    ctx1: &SolvingContext,
)
    requires
        h.graph == g.graph,
        h.same_settings(g),
        ctx1.grows(ctx0),
        ctx1.narrows(ctx0),
        ctx1.trail == ctx0.trail,
    ensures
        advances(g, ctx0, h, ctx1),
{
}

/// Taking the changes away keeps the bounds.
proof fn lemma_changes_taken(g: &DiffLogicState, h: &DiffLogicState, ctx: &SolvingContext)
    requires
        h.lower_bound == g.lower_bound,
        h.upper_bound == g.upper_bound,
        h.lb_updates == g.lb_updates,
        h.ub_updates == g.ub_updates,
        h.graph.nodes == g.graph.nodes,
        forall|k: usize, upper: bool| #[trigger]
            h.changes(upper).contains(k) ==> g.changes(upper).contains(k),
    ensures
        forall|n: int, upper: bool| #[trigger]
            h.propagated(upper, n) == g.propagated(upper, n),
        g.bounds_sound(ctx) ==> h.bounds_sound(ctx),
        g.bounds_listed() ==> h.bounds_listed(),
        g.changes_within() ==> h.changes_within(),
{
    assert forall|n: int, upper: bool| #[trigger] h.propagated(upper, n) == g.propagated(
        upper,
        n,
    ) by {}
}

proof fn lemma_bounds_followed(
    st0: &DiffLogicState,
    ctx0: &SolvingContext,
    st1: &DiffLogicState,
    st2: &DiffLogicState,
    ctx2: &SolvingContext,
    st: &DiffLogicState,
    ctx: &SolvingContext,
    upper: bool,
)
    requires
        st0.in_order(ctx0),
        st1.graph == st0.graph,
        forall|n: int, u: bool| #[trigger] st1.propagated(u, n) == st0.propagated(u, n),
        st0.pi_initialized ==> *st1 == *st0,
        !st0.pi_initialized ==> forall|k: usize, u: bool|
            k < st0.graph.size() ==> #[trigger] st1.changes(u).contains(k),
        st2.graph == st0.graph,
        ctx2.trail == ctx0.trail,
        bounds_driven(st1, ctx0, st2, ctx2, upper),
        regular(&st0.graph, ctx0) ==> st2.bounds_exact(ctx0, ctx2, upper) && ctx.ints@
            == ctx2.ints@,
        forall|n: int, u: bool| #[trigger] st.propagated(u, n) == st2.propagated(u, n),
        same_graph(&st0.graph, &st.graph),
        same_active(&st0.graph, ctx0.trail@, &st.graph, ctx.trail@),
        forall|e: int|
            0 <= e < st2.graph.edges.len() && #[trigger] st2.passes(ctx2, upper, e) ==> st.passes(
                ctx,
                upper,
                e,
            ),
    ensures
        bounds_followed(st0, ctx0, st, ctx, upper),
        regular(&st0.graph, ctx0) ==> forall|k: int|
            0 <= k < st0.graph.size() && #[trigger] raised(st0, ctx0, ctx, upper, k)
                ==> st2.changes(upper).contains(k as usize),
{
    let nice = regular(&st0.graph, ctx0);
    assert forall|k: int| nice && 0 <= k < st0.graph.size() && #[trigger] raised(
        st0,
        ctx0,
        ctx,
        upper,
        k,
    ) implies st2.changes(upper).contains(k as usize) && st.propagated(upper, k) == Some(
        st.near_node(ctx, upper, k),
    ) by {
        assert(plain(ctx0, st0.graph.nodes.int_vars[k]));
        assert(st2.near_node(ctx, upper, k) == st2.near_node(ctx2, upper, k));
        assert(st.near_node(ctx, upper, k) == st2.near_node(ctx, upper, k));
        assert(st2.propagated(upper, k) == st.propagated(upper, k));
        if !st0.pi_initialized || st0.changes(upper).contains(k as usize) {
            assert(st1.changes(upper).contains(k as usize));
            assert(st2.changes(upper).contains(k as usize));
        }
    }
    assert forall|e: int|
        0 <= e < st.graph.edges.len() && #[trigger] st.graph.active_at(e, ctx.trail@) && (
        st.propagated(upper, tail(st.graph.edges[e], upper)) != st0.propagated(
            upper,
            tail(st.graph.edges[e], upper),
        ) || (nice && raised(st0, ctx0, ctx, upper, tail(st.graph.edges[e], upper)))) implies st.passes(
        ctx,
        upper,
        e,
    ) by {
        st0.graph.lemma_edge(e);
        assert(st.graph.edges[e].same_but_positions(st0.graph.edges[e]));
        assert(st0.graph.active_at(e, ctx0.trail@));
        assert(st2.graph.active_at(e, ctx2.trail@));
        let f = tail(st0.graph.edges[e], upper);
        assert(st1.propagated(upper, f) == st0.propagated(upper, f));
        assert(st.propagated(upper, f) == st2.propagated(upper, f));
        assert(st2.passes(ctx2, upper, e));
    }
}

/// What the parts of propagating bounds achieve together.
#[verifier::spinoff_prover]
proof fn lemma_bounds_done(
    st0: &DiffLogicState,
    ctx0: &SolvingContext,
    st1: &DiffLogicState,
    st2: &DiffLogicState,
    ctx2: &SolvingContext,
    st4: &DiffLogicState,
    st5: &DiffLogicState,
    ctx4: &SolvingContext,
    st: &DiffLogicState,
    ctx: &SolvingContext,
    low: Seq<usize>,
    high: Seq<usize>,
)
    requires
        st0.in_order(ctx0),
        st1.graph == st0.graph,
        st1.lower_bound == st0.lower_bound,
        st1.upper_bound == st0.upper_bound,
        st1.changes_within(),
        st0.pi_initialized ==> *st1 == *st0,
        !st0.pi_initialized ==> forall|k: usize, upper: bool|
            k < st0.graph.size() ==> #[trigger] st1.changes(upper).contains(k),
        st2.graph == st0.graph,
        st2.grounded(ctx2),
        ctx2.trail == ctx0.trail,
        bounds_driven(st1, ctx0, st2, ctx2, false),
        bounds_driven(st1, ctx0, st2, ctx2, true),
        regular(&st0.graph, ctx0) ==> st2.bounds_exact(ctx0, ctx2, false) && st2.bounds_exact(
            ctx0,
            ctx2,
            true,
        ) && ctx.ints@ == ctx2.ints@,
        forall|k: usize| #[trigger] low.contains(k) <==> st2.changes(false).contains(k),
        forall|k: usize| #[trigger] high.contains(k) <==> st2.changes(true).contains(k),
        st4.lower_bound == st2.lower_bound,
        st4.upper_bound == st2.upper_bound,
        st5.graph == st4.graph,
        st5.lower_bound == st2.lower_bound,
        st5.upper_bound == st2.upper_bound,
        st.lower_bound == st2.lower_bound,
        st.upper_bound == st2.upper_bound,
        same_graph(&st2.graph, &st4.graph),
        same_graph(&st4.graph, &st.graph),
        same_graph(&st0.graph, &st.graph),
        same_active(&st0.graph, ctx0.trail@, &st.graph, ctx.trail@),
        advances(st0, ctx0, st, ctx),
        advances(st5, ctx4, st, ctx),
        ctx.wf(),
        ctx.grows(ctx2),
        ctx.narrows(ctx2),
        st.pi_initialized,
        forall|k: usize, upper: bool| !#[trigger] st.changes(upper).contains(k),
        forall|e: int|
            #![trigger st4.graph.edges[e]]
            0 <= e < st4.graph.edges.len() && st4.graph.edges[e].bool_var is Some ==> {
                &&& low.contains(tail(st4.graph.edges[e], false) as usize) ==> st4.looked_at(
                    ctx4,
                    true,
                    e,
                )
                &&& low.contains(head(st4.graph.edges[e], false) as usize) ==> st4.looked_at(
                    ctx4,
                    false,
                    e,
                )
            },
        forall|e: int|
            #![trigger st.graph.edges[e]]
            0 <= e < st.graph.edges.len() && st.graph.edges[e].bool_var is Some ==> {
                &&& high.contains(tail(st.graph.edges[e], true) as usize) ==> st.looked_at(
                    ctx,
                    true,
                    e,
                )
                &&& high.contains(head(st.graph.edges[e], true) as usize) ==> st.looked_at(
                    ctx,
                    false,
                    e,
                )
            },
    ensures
        bounds_done(st0, ctx0, st, ctx),
{
    let first = !st0.pi_initialized;
    assert forall|n: int, u: bool| #[trigger] st.propagated(u, n) == st2.propagated(u, n) by {}
    assert forall|n: int, u: bool| #[trigger] st1.propagated(u, n) == st0.propagated(u, n) by {}
    assert forall|k: int, upper: bool|
        0 <= k < st0.graph.size() && (first || st0.changes(upper).contains(k as usize)) implies (
    #[trigger] st.propagated(upper, k) matches Some(v) && v >= st0.near_node(ctx0, upper, k)) by {
        assert(st1.changes(upper).contains(k as usize));
        assert(st.propagated(upper, k) == st2.propagated(upper, k));
    }
    assert forall|k: int, upper: bool| 0 <= k < st0.graph.size() implies match
    #[trigger] st.propagated(upper, k) {
        Some(w) => w >= st0.current(ctx0, upper, k),
        None => st0.propagated(upper, k) is None,
    } by {
        assert(st1.propagated(upper, k) == st0.propagated(upper, k));
        assert(st.propagated(upper, k) == st2.propagated(upper, k));
        assert(keeps_propagated(st1, ctx0, st2, upper));
    }
    lemma_passes_later(st2, ctx2, st, ctx, false);
    lemma_passes_later(st2, ctx2, st, ctx, true);
    let nice = regular(&st0.graph, ctx0);
    assert(bounds_followed(st0, ctx0, st, ctx, false) && (nice ==> forall|k: int|
        0 <= k < st0.graph.size() && #[trigger] raised(st0, ctx0, ctx, false, k) ==> st2.changes(
            false,
        ).contains(k as usize))) by {
        lemma_bounds_followed(st0, ctx0, st1, st2, ctx2, st, ctx, false);
    }
    assert(bounds_followed(st0, ctx0, st, ctx, true) && (nice ==> forall|k: int|
        0 <= k < st0.graph.size() && #[trigger] raised(st0, ctx0, ctx, true, k) ==> st2.changes(
            true,
        ).contains(k as usize))) by {
        lemma_bounds_followed(st0, ctx0, st1, st2, ctx2, st, ctx, true);
    }
    assert forall|e: int, upper: bool|
        #![trigger st.passes(ctx, upper, e)]
        0 <= e < st.graph.edges.len() && st.graph.active_at(e, ctx.trail@) && (first || st0.passes(
            ctx0,
            upper,
            e,
        ) || st0.changes(upper).contains(tail(st.graph.edges[e], upper) as usize)) implies st.passes(
        ctx,
        upper,
        e,
    ) by {
        st0.graph.lemma_edge(e);
        assert(st.graph.edges[e].same_but_positions(st0.graph.edges[e]));
        assert(st0.graph.active_at(e, ctx0.trail@));
        assert(st2.graph.active_at(e, ctx2.trail@));
        let f = tail(st0.graph.edges[e], upper);
        assert(st1.propagated(upper, f) == st0.propagated(upper, f));
        if first || st0.changes(upper).contains(f as usize) {
            assert(st1.changes(upper).contains(f as usize));
        } else {
            assert(st1.passes(ctx0, upper, e));
        }
        assert(st2.passes(ctx2, upper, e));
    }
    lemma_looked_at_later(st5, ctx4, st, ctx);
    assert forall|e: int, refuting: bool|
        #![trigger st.looked_at(ctx, refuting, e)]
        0 <= e < st.graph.edges.len() && st.graph.edges[e].bool_var is Some && (first
            || st0.touched(refuting, e) || (st0.looked_at(ctx0, refuting, e) && st0.same_ends(
            st,
            refuting,
            e,
        ))) implies st.looked_at(ctx, refuting, e) by {
        st0.graph.lemma_edge(e);
        assert(st.graph.edges[e].same_but_positions(st0.graph.edges[e]));
        assert(st.graph.edges[e].same_but_positions(st4.graph.edges[e]));
        let edge = st0.graph.edges[e];
        if first || st0.touched(refuting, e) {
            let (l, h) = if refuting {
                (edge.from, edge.to)
            } else {
                (edge.to, edge.from)
            };
            if st1.changes(true).contains(h) {
                assert(st2.changes(true).contains(h));
                assert(high.contains(h));
            } else {
                assert(st1.changes(false).contains(l));
                assert(st2.changes(false).contains(l));
                assert(low.contains(l));
                assert(st4.looked_at(ctx4, refuting, e));
                assert(st5.looked_at(ctx4, refuting, e));
            }
        } else {
            assert(st0.graph.edges[e].bool_var is Some);
        }
    }
    assert forall|e: int, refuting: bool|
        #![trigger st.looked_at(ctx, refuting, e)]
        nice && 0 <= e < st.graph.edges.len() && st.graph.edges[e].bool_var is Some && (raised(
            st0,
            ctx0,
            ctx,
            !refuting,
            st.graph.edges[e].from as int,
        ) || raised(st0, ctx0, ctx, refuting, st.graph.edges[e].to as int)) implies st.looked_at(
        ctx,
        refuting,
        e,
    ) by {
        st0.graph.lemma_edge(e);
        assert(st.graph.edges[e].same_but_positions(st0.graph.edges[e]));
        assert(st.graph.edges[e].same_but_positions(st4.graph.edges[e]));
        let edge = st0.graph.edges[e];
        let (l, h) = if refuting {
            (edge.from, edge.to)
        } else {
            (edge.to, edge.from)
        };
        if st2.changes(true).contains(h) {
            assert(high.contains(h));
        } else {
            assert(st2.changes(false).contains(l));
            assert(low.contains(l));
            assert(st4.looked_at(ctx4, refuting, e));
            assert(st5.looked_at(ctx4, refuting, e));
        }
    }
}

} // verus!
