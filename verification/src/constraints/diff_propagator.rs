//! The propagator of difference constraints.

use vstd::prelude::*;

use crate::constraints::diff_bounds::{
    head, keeps_propagated, lemma_near_narrowed, lemma_told_later, lemma_two_atoms, near, regular,
    tail,
};
use crate::constraints::diff_gates::{
    gates_closed, hands_on, lemma_hand_on_join, new_edges_hand_on,
};
use crate::constraints::diff_graph::{
    lemma_backtrack_keeps_graph, lemma_same_edges_join, lemma_tracked_wf, lemma_untouched_wf,
    owner_grown, same_edges, untouched, DiffEdge, DiffGraph,
};
use crate::constraints::diff_paths::{
    bounded_by_path, lemma_none_missed_join, lemma_none_missed_same, none_missed, told_by_path,
};
use crate::constraints::diff_propagation::{
    active_closed, bounds_done, bounds_followed, edge_of_data, gates_refused,
    lemma_looked_at_later, lemma_none_put_off, lemma_put_off_join, lemma_refused_before, put_off,
    raised, raised_reviewed, refusal,
};
use crate::constraints::difference_logic::{
    active_kept, active_potentials, advances, diff_rule, edge_kept, gate_bounded, gate_holds,
    gates_fixed, is_path, lemma_advances_join, lemma_decided_holds, lemma_decides_narrowed,
    lemma_path_kept, lemma_same_rule, lemma_settled_later, listed, node_value, path_end,
    path_value, same_active, same_graph, settled_edge, DiffLogicState,
};
use crate::helpers::fx::{set_insert, set_new};
use crate::helpers::trail::Trail;
use crate::model::tightening::plain;
use crate::solver::initialization::{
    BoolAdvice, InitializationContext, IntAdvice, PriorityLevel,
};
use crate::solver::int_view::{in_limits, lemma_view_bounds, lemma_view_bounds_ordered};
use crate::solver::reason::{Conflict, DeferredReason};
use crate::solver::solving_context::{subject_holds, IntEvent, IntPropCond, SolvingContext};
use crate::solver::view::{
    all_hold, BoolAssignment, BoolView, IntAssignment, IntLitMeaning, IntVal, IntView,
};

verus! {

impl DiffLogicState {
    /// A state without nodes and edges.
    pub fn new() -> (r: DiffLogicState)
        ensures
            forall|ctx: SolvingContext|
                ctx.wf() && ctx.trail.depth() == 0 ==> #[trigger] r.in_order(&ctx),
            r.graph.size() == 0,
            r.graph.edges@.len() == 0,
            r.graph.bool_vars@.len() == 0,
            !r.pi_initialized,
            r.priority_bounds is None,
            r.priority_booleans is None,
            r.bool_reasons == 0,
            !r.use_inc_imp,
            !r.propagator_registered,
            r.propagator_ref is None,
            // Nothing was reported.
            forall|k: usize, upper: bool| !#[trigger] r.changes(upper).contains(k),
            forall|b: usize| !#[trigger] r.fixed_bools@.contains(b),
    {
        let r: DiffLogicState = DiffLogicState {
            graph: DiffGraph::new(),
            pi: Vec::new(),
            lower_bound: Vec::new(),
            upper_bound: Vec::new(),
            backtrace: Vec::new(),
            visited: Vec::new(),
            visited_updates: Vec::new(),
            lower_bound_changes: set_new(),
            upper_bound_changes: set_new(),
            lb_updates: Vec::new(),
            ub_updates: Vec::new(),
            fixed_bools: set_new(),
            pi_initialized: false,
            priority_bounds: None,
            priority_booleans: None,
            bool_reasons: 0,
            use_inc_imp: false,
            propagator_registered: false,
            propagator_ref: None,
        };
        proof {
            assert forall|ctx: SolvingContext|
                ctx.wf() && ctx.trail.depth() == 0 implies #[trigger] r.in_order(&ctx) by {
                assert(r.graph.wf(&ctx.trail));
                assert forall|k: usize, u: bool| !#[trigger] r.changes(u).contains(k) by {}
            }
        }
        r
    }

    /// Whether a bound of the node is the propagated one, or is noted as changed.
    pub open spec fn noted(&self, ctx: &SolvingContext, upper: bool, n: int) -> bool {
        self.changes(upper).contains(n as usize) || self.propagated(upper, n) == Some(
            self.near_node(ctx, upper, n),
        )
    }

    /// Whether every bound is the propagated one, or is noted as changed.
    pub open spec fn all_noted(&self, ctx: &SolvingContext) -> bool {
        forall|n: int, upper: bool|
            0 <= n < self.graph.size() ==> #[trigger] self.noted(ctx, upper, n)
    }

    /// Whether no change of the node goes unnoticed when it is reported by the event: where its
    /// bounds were propagated or noted before the change, they are after the report.
    pub open spec fn follows_report(
        &self,
        before: &DiffLogicState,
        ctx: &SolvingContext,
        data: usize,
        event: IntEvent,
    ) -> bool {
        let view = before.graph.nodes.int_vars[data as int];
        &&& event == IntEvent::Fixed ==> self.noted(ctx, false, data as int) && self.noted(
            ctx,
            true,
            data as int,
        )
        &&& forall|earlier: SolvingContext, upper: bool|
            before.noted(&earlier, upper, data as int) && #[trigger] bound_reported(
                event,
                &earlier,
                ctx,
                view,
                upper,
            ) ==> self.noted(ctx, upper, data as int)
    }

    /// Note that an integer view of the graph has changed. Returns whether that is news.
    pub fn advise_int_change(&mut self, ctx: &SolvingContext, data: usize, event: IntEvent) -> (r:
        bool)
        requires
            old(self).in_order(ctx),
            data < old(self).graph.size(),
        ensures
            final(self).in_order(ctx),
            final(self).same_but_changes(old(self)),
            final(self).notes(old(self), ctx, data, event, r),
            final(self).follows_report(old(self), ctx, data, event),
    {
        let ghost st0 = *self;
        proof {
            assert(ctx.has_view(self.graph.nodes.int_vars[data as int]));
            assert(self.propagated(false, data as int) matches Some(v) ==> v <= self.near_node(
                ctx,
                false,
                data as int,
            ));
            assert(self.propagated(true, data as int) matches Some(v) ==> v <= self.near_node(
                ctx,
                true,
                data as int,
            ));
        }
        let mut enqueue: bool = false;
        if event == IntEvent::LowerBound || event == IntEvent::Fixed {
            enqueue = self.notify_lb_change(ctx, data);
        }
        if event == IntEvent::UpperBound || event == IntEvent::Fixed {
            let news: bool = self.notify_ub_change(ctx, data);
            enqueue = enqueue || news;
        }
        proof {
            assert forall|k: int, u: bool| #[trigger]
                self.propagated(u, k) == st0.propagated(u, k) by {}
            assert forall|k: usize, u: bool| #[trigger]
                self.changes(u).contains(k) implies k < self.graph.size() by {
                assert(k == data || st0.changes(u).contains(k));
            }
            if self.pi_initialized {
                assert(self.pi_valid_but(ctx.trail@, -1));
            }
            lemma_report_noted(&st0, self, ctx, data, event, enqueue);
        }
        enqueue
    }

    /// Note that a gate was fixed. Returns whether that is news.
    pub fn advise_bool_fixed(&mut self, data: usize) -> (r: bool)
        requires
            data < old(self).graph.bool_vars.len(),
        ensures
            forall|ctx: SolvingContext|
                old(self).in_order(&ctx) ==> #[trigger] final(self).in_order(&ctx),
            final(self).fixed_bools@ == old(self).fixed_bools@.insert(data),
            r == !old(self).fixed_bools@.contains(data),
            final(self).same_but_fixed(old(self)),
    {
        let ghost st0 = *self;
        let r: bool = set_insert(&mut self.fixed_bools, data);
        proof {
            assert forall|ctx: SolvingContext|
                st0.in_order(&ctx) implies #[trigger] self.in_order(&ctx) by {
                lemma_same_but_fixed(&st0, self, &ctx);
            }
        }
        r
    }

    /// Whether the states differ in the gates that were reported to be fixed only.
    pub open spec fn same_but_fixed(&self, other: &DiffLogicState) -> bool {
        &&& self.graph == other.graph
        &&& self.pi == other.pi
        &&& self.lower_bound == other.lower_bound
        &&& self.upper_bound == other.upper_bound
        &&& self.backtrace == other.backtrace
        &&& self.visited == other.visited
        &&& self.visited_updates == other.visited_updates
        &&& self.lower_bound_changes == other.lower_bound_changes
        &&& self.upper_bound_changes == other.upper_bound_changes
        &&& self.lb_updates == other.lb_updates
        &&& self.ub_updates == other.ub_updates
        &&& self.pi_initialized == other.pi_initialized
        &&& self.same_settings(other)
    }
}

/// Reporting gates keeps everything in order.
proof fn lemma_same_but_fixed(g: &DiffLogicState, h: &DiffLogicState, ctx: &SolvingContext)
    requires
        g.in_order(ctx),
        h.same_but_fixed(g),
        forall|b: usize| #[trigger]
            h.fixed_bools@.contains(b) ==> b < h.graph.bool_vars.len(),
    ensures
        h.in_order(ctx),
{
    assert forall|k: int, u: bool| #[trigger] h.propagated(u, k) == g.propagated(u, k) by {}
    assert forall|k: usize, u: bool| #[trigger] h.changes(u).contains(k) implies k
        < h.graph.size() by {
        assert(g.changes(u).contains(k));
    }
    if h.pi_initialized {
        assert(h.pi_valid_but(ctx.trail@, -1));
    }
}

impl DiffLogicState {
    /// Whether the state has the nodes, gates and edges of the other one, and maybe more. New
    /// nodes have no bounds and the potential zero.
    pub open spec fn grown_from(&self, other: &DiffLogicState) -> bool {
        let n = other.graph.size();
        &&& n <= self.graph.size()
        &&& forall|k: int|
            0 <= k < n ==> #[trigger] self.graph.nodes.int_vars[k] == other.graph.nodes.int_vars[k]
        &&& other.graph.bool_vars.len() <= self.graph.bool_vars.len()
        &&& forall|b: int|
            0 <= b < other.graph.bool_vars.len() ==> #[trigger] self.graph.bool_vars[b]
                == other.graph.bool_vars[b]
        &&& other.graph.edges.len() <= self.graph.edges.len()
        &&& self.sized()
        &&& forall|k: int|
            #![trigger self.pi[k]]
            0 <= k < self.graph.size() ==> self.pi[k] == if k < n {
                other.pi[k]
            } else {
                0
            }
        &&& forall|k: int|
            #![trigger self.lower_bound[k]]
            0 <= k < self.graph.size() ==> self.lower_bound[k] == if k < n {
                other.lower_bound[k]
            } else {
                None
            }
        &&& forall|k: int|
            #![trigger self.upper_bound[k]]
            0 <= k < self.graph.size() ==> self.upper_bound[k] == if k < n {
                other.upper_bound[k]
            } else {
                None
            }
        &&& forall|k: int|
            #![trigger self.visited[k]]
            0 <= k < self.graph.size() ==> self.visited[k] == if k < n {
                other.visited[k]
            } else {
                false
            }
        &&& self.visited_updates == other.visited_updates
        &&& self.lower_bound_changes == other.lower_bound_changes
        &&& self.upper_bound_changes == other.upper_bound_changes
        &&& self.lb_updates == other.lb_updates
        &&& self.ub_updates == other.ub_updates
        &&& self.fixed_bools == other.fixed_bools
        &&& self.pi_initialized == other.pi_initialized
        &&& self.same_settings(other)
    }

    /// The node of an integer view, which is added unless the graph has it.
    pub fn intern_int(&mut self, trail: &mut Trail, x: IntView) -> (r: usize)
        requires
            old(self).graph.wf(old(trail)),
            old(self).sized(),
        ensures
            final(self).graph.wf(final(trail)),
            final(self).grown_from(old(self)),
            r < final(self).graph.size(),
            final(self).graph.nodes.int_vars[r as int] == x,
            final(self).graph.nodes.has(x),
            final(self).graph.nodes.number(x) == r,
            forall|v: IntView| #[trigger]
                old(self).graph.nodes.has(v) ==> final(self).graph.nodes.has(v)
                    && final(self).graph.nodes.number(v) == old(self).graph.nodes.number(v),
            !old(self).graph.nodes.has(x) ==> r == old(self).graph.size(),
            final(self).graph.bool_var_to_node == old(self).graph.bool_var_to_node,
            final(self).graph.edges@ == old(self).graph.edges@,
            final(self).graph.bool_vars == old(self).graph.bool_vars,
            final(self).graph.num_gated_created == old(self).graph.num_gated_created,
            owner_grown(&old(self).graph, old(trail), &final(self).graph),
            old(trail)@.len() <= final(trail)@.len(),
            same_edges(&old(self).graph, old(trail)@, &final(self).graph, final(trail)@),
            final(self).graph.size() == old(self).graph.size() + if old(self).graph.nodes.has(x) {
                0int
            } else {
                1int
            },
            old(self).graph.nodes.has(x) ==> *final(self) == *old(self) && *final(trail) == *old(
                trail,
            ),
            final(trail).depth() == old(trail).depth(),
    {
        let n: usize = self.graph.nodes.int_vars.len();
        let r: usize = self.graph.intern_int(trail, x);
        if r == n {
            self.pi.push(0);
            self.lower_bound.push(None);
            self.upper_bound.push(None);
            self.backtrace.push(None);
            self.visited.push(false);
        }
        r
    }

    /// The number of a gate, which is added unless the graph has it.
    pub fn intern_bool(&mut self, trail: &mut Trail, b: BoolView) -> (r: usize)
        requires
            old(self).graph.wf(old(trail)),
            old(self).sized(),
        ensures
            final(self).graph.wf(final(trail)),
            final(self).grown_from(old(self)),
            r < final(self).graph.bool_vars.len(),
            final(self).graph.bool_vars[r as int] == b,
            final(self).graph.has_gate(b),
            forall|c: BoolView| #[trigger]
                old(self).graph.has_gate(c) ==> final(self).graph.has_gate(c),
            final(self).graph.edges@ == old(self).graph.edges@,
            final(self).graph.nodes == old(self).graph.nodes,
            final(self).graph.num_gated_created == old(self).graph.num_gated_created,
            owner_grown(&old(self).graph, old(trail), &final(self).graph),
            old(trail)@.len() <= final(trail)@.len(),
            same_edges(&old(self).graph, old(trail)@, &final(self).graph, final(trail)@),
            old(self).graph.has_gate(b) ==> *final(self) == *old(self) && *final(trail) == *old(
                trail,
            ) && r == old(self).graph.gate_number(b),
            !old(self).graph.has_gate(b) ==> final(self).graph.bool_vars@
                == old(self).graph.bool_vars@.push(b) && r == old(self).graph.bool_vars.len(),
            final(trail).depth() == old(trail).depth(),
    {
        self.graph.intern_bool(trail, b)
    }

    /// Add the constraint that the difference of two views is at most `d`, if the gating view holds.
    /// Without a gate the edge is active at once, and otherwise open.
    pub fn register_edge(
        &mut self,
        trail: &mut Trail,
        x: IntView,
        y: IntView,
        d: IntVal,
        gate: Option<BoolView>,
    ) -> (r: usize)
        requires
            old(self).graph.wf(old(trail)),
            old(self).sized(),
            old(self).graph.edges.len() < usize::MAX,
        ensures
            final(self).graph.wf(final(trail)),
            final(self).grown_from(old(self)),
            r == old(self).graph.edges.len(),
            final(self).graph.edges.len() == r + 1,
            ({
                let edge = final(self).graph.edges[r as int];
                &&& edge.from < final(self).graph.size()
                &&& edge.to < final(self).graph.size()
                &&& final(self).graph.nodes.int_vars[edge.from as int] == x
                &&& final(self).graph.nodes.int_vars[edge.to as int] == y
                &&& edge.val == d
                &&& match gate {
                    None => edge.bool_var is None && final(self).graph.active_at(
                        r as int,
                        final(trail)@,
                    ),
                    Some(b) => {
                        &&& edge.bool_var matches Some(n)
                        &&& edge.bool_var->0 < final(self).graph.bool_vars.len()
                        &&& final(self).graph.bool_vars[edge.bool_var->0 as int] == b
                        &&& !final(self).graph.active_at(r as int, final(trail)@)
                        &&& !final(self).graph.closed_at(r as int, final(trail)@)
                    },
                }
            }),
            owner_grown(&old(self).graph, old(trail), &final(self).graph),
            old(trail)@.len() <= final(trail)@.len(),
            same_edges(&old(self).graph, old(trail)@, &final(self).graph, final(trail)@),
            final(self).graph.num_gated_created == old(self).graph.num_gated_created
                + if gate is Some {
                1int
            } else {
                0int
            },
            gate matches Some(b) ==> (old(self).graph.has_gate(b) ==> final(self).graph.bool_vars
                == old(self).graph.bool_vars),
            forall|c: BoolView| #[trigger]
                old(self).graph.has_gate(c) ==> final(self).graph.has_gate(c),
            final(self).graph.size() <= old(self).graph.size() + 2,
            old(self).graph.nodes.has(x) && old(self).graph.nodes.has(y)
                ==> final(self).graph.nodes == old(self).graph.nodes,
            final(trail).depth() == old(trail).depth(),
            // The rule is that of the earlier edges and of this one.
            forall|ints: IntAssignment, bools: BoolAssignment| #[trigger]
                diff_rule(&final(self).graph)(ints, bools) <==> (diff_rule(&old(self).graph)(
                    ints,
                    bools,
                ) && ((gate matches Some(b) ==> b.holds(ints, bools)) ==> x.eval(ints, bools)
                    - y.eval(ints, bools) <= d)),
    {
        let ghost st0 = *self;
        let ghost t0 = trail@;
        let _from: usize = self.intern_int(trail, x);
        let ghost st1 = *self;
        let ghost t1 = trail@;
        let _to: usize = self.intern_int(trail, y);
        let ghost st2 = *self;
        let ghost t2 = trail@;
        proof {
            lemma_same_edges_join(&st0.graph, t0, &st1.graph, t1, &st2.graph, t2);
        }
        let r: usize = self.graph.register_edge(trail, x, y, d, gate);
        proof {
            lemma_same_edges_join(&st0.graph, t0, &st2.graph, t2, &self.graph, trail@);
            assert forall|c: BoolView| #[trigger] st0.graph.has_gate(c) implies self.graph.has_gate(
                c,
            ) by {
                assert(st2.graph.has_gate(c));
            }
            assert forall|ints: IntAssignment, bools: BoolAssignment| #[trigger]
                diff_rule(&self.graph)(ints, bools) <==> (diff_rule(&st0.graph)(ints, bools) && ((
            gate matches Some(b) ==> b.holds(ints, bools)) ==> x.eval(ints, bools) - y.eval(
                ints,
                bools,
            ) <= d)) by {
                lemma_rule_grown(&st0, self, x, y, d as int, gate, ints, bools);
            }
        }
        r
    }
}

/// The rule of a graph with one more edge.
proof fn lemma_rule_grown(
    st0: &DiffLogicState,
    st: &DiffLogicState,
    x: IntView,
    y: IntView,
    d: int,
    gate: Option<BoolView>,
    ints: IntAssignment,
    bools: BoolAssignment,
)
    requires
        st0.graph.structure(),
        st.grown_from(st0),
        st.graph.edges.len() == st0.graph.edges.len() + 1,
        forall|e: int|
            0 <= e < st0.graph.edges.len() ==> (#[trigger] st0.graph.edges[e]).same_but_positions(
                st.graph.edges[e],
            ),
        ({
            let edge = st.graph.edges[st0.graph.edges.len() as int];
            &&& st.graph.nodes.int_vars[edge.from as int] == x
            &&& st.graph.nodes.int_vars[edge.to as int] == y
            &&& edge.val == d
            &&& match gate {
                None => edge.bool_var is None,
                Some(b) => edge.bool_var is Some && st.graph.bool_vars[edge.bool_var->0 as int] == b,
            }
        }),
    ensures
        diff_rule(&st.graph)(ints, bools) <==> (diff_rule(&st0.graph)(ints, bools) && ((
        gate matches Some(b) ==> b.holds(ints, bools)) ==> x.eval(ints, bools) - y.eval(ints, bools)
            <= d)),
{
    let n = st0.graph.edges.len() as int;
    let last = st.graph.edges[n];
    assert(gate_holds(&st.graph, last, ints, bools) == (gate matches Some(b) ==> b.holds(
        ints,
        bools,
    )));
    assert(edge_kept(&st.graph, last, ints, bools) == (x.eval(ints, bools) - y.eval(ints, bools)
        <= d));
    assert forall|e: int| 0 <= e < n implies gate_holds(
        &st.graph,
        #[trigger] st.graph.edges[e],
        ints,
        bools,
    ) == gate_holds(&st0.graph, st0.graph.edges[e], ints, bools) && edge_kept(
        &st.graph,
        st.graph.edges[e],
        ints,
        bools,
    ) == edge_kept(&st0.graph, st0.graph.edges[e], ints, bools) by {
        st0.graph.lemma_edge(e);
        let edge = st0.graph.edges[e];
        assert(edge.same_but_positions(st.graph.edges[e]));
        assert(st.graph.nodes.int_vars[edge.from as int] == st0.graph.nodes.int_vars[edge.from as int]);
        assert(st.graph.nodes.int_vars[edge.to as int] == st0.graph.nodes.int_vars[edge.to as int]);
        if let Some(b) = edge.bool_var {
            assert(st.graph.bool_vars[b as int] == st0.graph.bool_vars[b as int]);
        }
    }
    if diff_rule(&st.graph)(ints, bools) {
        assert forall|e: int|
            0 <= e < n && gate_holds(&st0.graph, #[trigger] st0.graph.edges[e], ints, bools) implies
            edge_kept(&st0.graph, st0.graph.edges[e], ints, bools) by {
            assert(gate_holds(&st.graph, st.graph.edges[e], ints, bools));
        }
    }
}

/// Growing twice is growing.
pub proof fn lemma_grown_join(f: &DiffLogicState, g: &DiffLogicState, h: &DiffLogicState)
    requires
        g.grown_from(f),
        h.grown_from(g),
    ensures
        h.grown_from(f),
{
    assert forall|k: int| 0 <= k < f.graph.size() implies #[trigger] h.graph.nodes.int_vars[k]
        == f.graph.nodes.int_vars[k] by {
        assert(g.graph.nodes.int_vars[k] == f.graph.nodes.int_vars[k]);
    }
    assert forall|b: int| 0 <= b < f.graph.bool_vars.len() implies #[trigger] h.graph.bool_vars[b]
        == f.graph.bool_vars[b] by {
        assert(g.graph.bool_vars[b] == f.graph.bool_vars[b]);
    }
    assert forall|k: int|
        #![trigger h.pi[k]]
        0 <= k < h.graph.size() implies h.pi[k] == if k < f.graph.size() {
        f.pi[k]
    } else {
        0
    } by {
        if k < g.graph.size() {
            assert(h.pi[k] == g.pi[k]);
        }
    }
    assert forall|k: int|
        #![trigger h.lower_bound[k]]
        0 <= k < h.graph.size() implies h.lower_bound[k] == if k < f.graph.size() {
        f.lower_bound[k]
    } else {
        None
    } by {
        if k < g.graph.size() {
            assert(h.lower_bound[k] == g.lower_bound[k]);
        }
    }
    assert forall|k: int|
        #![trigger h.upper_bound[k]]
        0 <= k < h.graph.size() implies h.upper_bound[k] == if k < f.graph.size() {
        f.upper_bound[k]
    } else {
        None
    } by {
        if k < g.graph.size() {
            assert(h.upper_bound[k] == g.upper_bound[k]);
        }
    }
    assert forall|k: int|
        #![trigger h.visited[k]]
        0 <= k < h.graph.size() implies h.visited[k] == if k < f.graph.size() {
        f.visited[k]
    } else {
        false
    } by {
        if k < g.graph.size() {
            assert(h.visited[k] == g.visited[k]);
        }
    }
}

/// What was in order stays so when edges are added, if the new edges have gates, or the
/// potentials are yet to be found.
pub proof fn lemma_grown_in_order(
    g: &DiffLogicState,
    ctx0: &SolvingContext,
    h: &DiffLogicState,
    ctx1: &SolvingContext,
)
    requires
        g.in_order(ctx0),
        h.grown_from(g),
        h.graph.wf(&ctx1.trail),
        ctx1.wf(),
        ctx1.ints == ctx0.ints,
        ctx1.bools.len() >= ctx0.bools.len(),
        forall|b: int| 0 <= b < ctx0.bools.len() ==> #[trigger] ctx1.bools[b] == ctx0.bools[b],
        same_edges(&g.graph, ctx0.trail@, &h.graph, ctx1.trail@),
        h.values_fit(),
        forall|n: int|
            g.graph.size() <= n < h.graph.size() ==> ctx1.has_view(
                #[trigger] h.graph.nodes.int_vars[n],
            ),
        forall|b: int|
            g.graph.bool_vars.len() <= b < h.graph.bool_vars.len() ==> ctx1.knows(
                #[trigger] h.graph.bool_vars[b],
            ) && gate_bounded(h.graph.bool_vars[b]),
        forall|e: int|
            g.graph.edges.len() <= e < h.graph.edges.len() ==> if (
            #[trigger] h.graph.edges[e]).bool_var is Some {
                !h.graph.active_at(e, ctx1.trail@)
            } else {
                !h.pi_initialized
            },
    ensures
        h.in_order(ctx1),
{
    g.graph.lemma_gates();
    assert forall|n: int| 0 <= n < h.graph.size() implies ctx1.has_view(
        #[trigger] h.graph.nodes.int_vars[n],
    ) by {
        if n < g.graph.size() {
            assert(ctx0.has_view(g.graph.nodes.int_vars[n]));
        }
    }
    assert forall|b: int| 0 <= b < h.graph.bool_vars.len() implies ctx1.knows(
        #[trigger] h.graph.bool_vars[b],
    ) && gate_bounded(h.graph.bool_vars[b]) by {
        if b < g.graph.bool_vars.len() {
            assert(ctx0.knows(g.graph.bool_vars[b]));
        }
    }
    assert forall|e: int|
        0 <= e < h.graph.edges.len() && #[trigger] h.graph.active_at(e, ctx1.trail@) implies (
    h.graph.edges[e].bool_var matches Some(b) ==> ctx1.decides(
        h.graph.bool_vars[b as int],
        true,
    )) by {
        if e < g.graph.edges.len() {
            assert(g.graph.edges[e].same_but_positions(h.graph.edges[e]));
            assert(g.graph.active_at(e, ctx0.trail@));
            if let Some(b) = g.graph.edges[e].bool_var {
                assert(ctx0.knows(g.graph.bool_vars[b as int]));
                assert(ctx0.decides(g.graph.bool_vars[b as int], true));
                assert(h.graph.bool_vars[b as int] == g.graph.bool_vars[b as int]);
            }
        } else {
            assert(h.graph.edges[e].bool_var is None);
        }
    }
    assert(h.grounded(ctx1));
    assert forall|n: int, u: bool|
        0 <= n < h.graph.size() implies (#[trigger] h.propagated(u, n) matches Some(v)
        ==> in_limits(v) && v <= near(
        ctx1,
        h.graph.nodes.int_vars[n],
        u,
    )) by {
        if n < g.graph.size() {
            assert(h.lower_bound[n] == g.lower_bound[n]);
            assert(h.upper_bound[n] == g.upper_bound[n]);
            assert(h.propagated(u, n) == g.propagated(u, n));
            assert(ctx0.has_view(g.graph.nodes.int_vars[n]));
            lemma_same_view(ctx0, ctx1, g.graph.nodes.int_vars[n]);
        } else {
            assert(h.lower_bound[n] is None);
            assert(h.upper_bound[n] is None);
        }
    }
    assert(h.bounds_listed()) by {
        assert forall|n: int|
            0 <= n < h.lower_bound.len() && (#[trigger] h.lower_bound[n]) is Some implies
            h.lb_updates@.contains(n as usize) by {
            assert(g.lower_bound[n] is Some);
        }
        assert forall|n: int|
            0 <= n < h.upper_bound.len() && (#[trigger] h.upper_bound[n]) is Some implies
            h.ub_updates@.contains(n as usize) by {
            assert(g.upper_bound[n] is Some);
        }
    }
    assert(h.visits_listed()) by {
        assert forall|n: int|
            0 <= n < h.visited.len() && #[trigger] h.visited[n] implies
            listed(h.visited_updates@, n) by {
            assert(g.visited[n]);
        }
    }
    assert forall|k: usize, u: bool| #[trigger] h.changes(u).contains(k) implies k
        < h.graph.size() by {
        assert(g.changes(u).contains(k));
    }
    assert forall|e: int|
        0 <= e < h.graph.edges.len() && #[trigger] h.graph.active_at(e, ctx1.trail@)
            && h.graph.edges[e].bool_var is Some implies h.graph.closed_at(e, ctx1.trail@) by {
        if e < g.graph.edges.len() {
            assert(g.graph.edges[e].same_but_positions(h.graph.edges[e]));
            assert(g.graph.active_at(e, ctx0.trail@));
        }
    }
    if h.pi_initialized {
        assert(h.pi_valid_but(ctx1.trail@, -1)) by {
            assert forall|e: int|
                0 <= e < h.graph.edges.len() && e != -1 && #[trigger] h.graph.active_at(
                    e,
                    ctx1.trail@,
                ) implies h.pi_keeps(h.graph.edges[e]) by {
                if e < g.graph.edges.len() {
                    g.graph.lemma_edge(e);
                    assert(g.graph.edges[e].same_but_positions(h.graph.edges[e]));
                    assert(g.graph.active_at(e, ctx0.trail@));
                    assert(g.pi_keeps(g.graph.edges[e]));
                    assert(h.pi[g.graph.edges[e].from as int] == g.pi[g.graph.edges[e].from as int]);
                    assert(h.pi[g.graph.edges[e].to as int] == g.pi[g.graph.edges[e].to as int]);
                }
            }
        }
    } else {
        assert forall|e: int|
            0 <= e < h.graph.edges.len() && #[trigger] h.graph.active_at(
                e,
                ctx1.trail@,
            ) implies h.graph.edges[e].bool_var is None by {
            if e < g.graph.edges.len() {
                assert(g.graph.edges[e].same_but_positions(h.graph.edges[e]));
                assert(g.graph.active_at(e, ctx0.trail@));
            }
        }
    }
}

/// The bounds of a view depend on the domains alone.
proof fn lemma_same_view(ctx0: &SolvingContext, ctx1: &SolvingContext, view: IntView)
    requires
        ctx0.has_view(view),
        ctx1.ints == ctx0.ints,
        ctx1.bools.len() >= ctx0.bools.len(),
        forall|b: int| 0 <= b < ctx0.bools.len() ==> #[trigger] ctx1.bools[b] == ctx0.bools[b],
    ensures
        ctx1.has_view(view),
        ctx1.view_min(view) == ctx0.view_min(view),
        ctx1.view_max(view) == ctx0.view_max(view),
{
    if let IntView::Bool { lit, scale, offset } = view {
        assert(ctx1.bools[lit.var as int] == ctx0.bools[lit.var as int]);
    }
}

/// Whether every edge that is closed needs no more attention.
pub open spec fn closed_settled(st: &DiffLogicState, ctx: &SolvingContext) -> bool {
    forall|e: int|
        0 <= e < st.graph.edges.len() && (#[trigger] st.graph.edges[e]).bool_var is Some
            && st.graph.closed_at(e, ctx.trail@) ==> settled_edge(st, ctx, e)
}

/// What a run of the propagator achieves, unless there is a conflict. The first time all
/// bounds count as changed.
pub open spec fn propagation_done(
    st0: &DiffLogicState,
    ctx0: &SolvingContext,
    st: &DiffLogicState,
    ctx: &SolvingContext,
) -> bool {
    let first = !st0.pi_initialized;
    &&& st.in_order(ctx)
    &&& st.pi_initialized
    &&& advances(st0, ctx0, st, ctx)
    // No propagated bound was loosened.
    &&& keeps_propagated(st0, ctx0, st, false)
    &&& keeps_propagated(st0, ctx0, st, true)
    // Edges that have become active pass on the bounds of their ends.
    &&& new_edges_hand_on(st0, ctx0, st, ctx)
    // Nothing is left to do.
    &&& forall|k: usize, upper: bool| !#[trigger] st.changes(upper).contains(k)
    &&& forall|b: usize| !#[trigger] st.fixed_bools@.contains(b)
    // Bounds that had changed were propagated.
    &&& forall|k: int, upper: bool|
        0 <= k < st0.graph.size() && (first || st0.changes(upper).contains(k as usize)) ==> (
        #[trigger] st.propagated(upper, k) matches Some(v) && v >= st0.near_node(ctx0, upper, k))
    // They were passed on along active edges.
    &&& forall|e: int, upper: bool|
        #![trigger st.passes(ctx, upper, e)]
        0 <= e < st.graph.edges.len() && st.graph.active_at(e, ctx.trail@) && (first
            || st0.changes(upper).contains(tail(st.graph.edges[e], upper) as usize) || (
        st0.graph.active_at(e, ctx0.trail@) ==> st0.passes(ctx0, upper, e)) || st.propagated(
            upper,
            tail(st.graph.edges[e], upper),
        ) != st0.propagated(upper, tail(st.graph.edges[e], upper))) ==> st.passes(ctx, upper, e)
    // Unless edges become active, bounds that were raised were followed as far as they lead.
    &&& (forall|b: usize| !#[trigger] st0.fixed_bools@.contains(b)) ==> bounds_followed(
        st0,
        ctx0,
        st,
        ctx,
        false,
    ) && bounds_followed(st0, ctx0, st, ctx, true) && raised_reviewed(st0, ctx0, st, ctx)
    // Open edges at their ends were looked at.
    &&& forall|e: int, refuting: bool|
        #![trigger st.looked_at(ctx, refuting, e)]
        0 <= e < st.graph.edges.len() && st.graph.edges[e].bool_var is Some && (first
            || st0.touched(refuting, e) || (st0.looked_at(ctx0, refuting, e) && st0.same_ends(
            st,
            refuting,
            e,
        ))) ==> st.looked_at(ctx, refuting, e)
    // No edge of a gate that was reported is open.
    &&& forall|b: usize| #[trigger]
        st0.fixed_bools@.contains(b) ==> gates_closed(st, ctx, b as int)
    // No edge is left open that the edges of those gates settle.
    &&& st0.use_inc_imp ==> none_missed(&st0.graph, ctx0.trail@, &st.graph, ctx.trail@)
}

/// Whether the edges without gates are active.
pub open spec fn ungated_active(graph: &DiffGraph, values: Seq<usize>) -> bool {
    forall|e: int|
        0 <= e < graph.edges.len() && (#[trigger] graph.edges[e]).bool_var is None
            ==> graph.active_at(e, values)
}

/// Whether the propagator has nothing left to infer from the bounds.
pub open spec fn at_rest(st: &DiffLogicState, ctx: &SolvingContext) -> bool {
    &&& st.in_order(ctx)
    &&& ungated_active(&st.graph, ctx.trail@)
    &&& closed_settled(st, ctx)
    &&& st.bounds_passed(ctx, false)
    &&& st.bounds_passed(ctx, true)
    &&& forall|e: int, refuting: bool|
        0 <= e < st.graph.edges.len() && st.graph.edges[e].bool_var is Some
            ==> #[trigger] st.looked_at(ctx, refuting, e)
}

/// The propagator of difference constraints.
pub struct DifferenceLogicPropagator {
    /// What the propagator keeps.
    pub graph: DiffLogicState,
}

/// The requests of the propagator of difference constraints.
pub open spec fn advised(
    graph: &DiffGraph,
    before: &InitializationContext,
    after: &InitializationContext,
    ints: bool,
    bools: bool,
) -> bool {
    let n = before.int_advice.len();
    let m = before.bool_advice.len();
    &&& after.triggers == before.triggers
    &&& after.int_advice@.take(n as int) == before.int_advice@
    &&& after.int_advice.len() == n + if ints {
        graph.size()
    } else {
        0
    }
    &&& ints ==> forall|i: int|
        n <= i < after.int_advice.len() ==> (#[trigger] after.int_advice[i]) == (IntAdvice {
            view: graph.nodes.int_vars[i - n],
            cond: IntPropCond::Bounds,
            data: (i - n) as u64,
        })
    &&& after.bool_advice@.take(m as int) == before.bool_advice@
    &&& after.bool_advice.len() == m + if bools {
        graph.bool_vars.len()
    } else {
        0
    }
    &&& bools ==> forall|i: int|
        m <= i < after.bool_advice.len() ==> (#[trigger] after.bool_advice[i]) == (BoolAdvice {
            view: graph.bool_vars[i - m],
            data: (i - m) as u64,
        })
}

/// The propagator is told of every bound of a node that moves, with the number of the node, and of
/// every gating view that gets fixed, with its number.
pub proof fn lemma_changes_told(
    graph: &DiffGraph,
    asked: &InitializationContext,
    request: &InitializationContext,
    before: &SolvingContext,
    after: &SolvingContext,
)
    requires
        advised(graph, asked, request, true, true),
        graph.size() <= u64::MAX,
        graph.bool_vars.len() <= u64::MAX,
    ensures
        forall|n: int|
            0 <= n < graph.size() && (after.view_min(#[trigger] graph.nodes.int_vars[n])
                > before.view_min(graph.nodes.int_vars[n]) || after.view_max(
                graph.nodes.int_vars[n],
            ) < before.view_max(graph.nodes.int_vars[n])) ==> exists|t: int|
                0 <= t < request.int_advice.len() && (#[trigger] request.int_advice[t]).view
                    == graph.nodes.int_vars[n] && request.int_advice[t].data == n
                    && request.int_advice[t].cond.met(before, after, graph.nodes.int_vars[n]),
        forall|b: int|
            0 <= b < graph.bool_vars.len() ==> exists|t: int|
                0 <= t < request.bool_advice.len() && (#[trigger] request.bool_advice[t]).view
                    == #[trigger] graph.bool_vars[b] && request.bool_advice[t].data == b,
{
    assert forall|n: int|
        0 <= n < graph.size() && (after.view_min(#[trigger] graph.nodes.int_vars[n])
            > before.view_min(graph.nodes.int_vars[n]) || after.view_max(graph.nodes.int_vars[n])
            < before.view_max(graph.nodes.int_vars[n])) implies exists|t: int|
            0 <= t < request.int_advice.len() && (#[trigger] request.int_advice[t]).view
                == graph.nodes.int_vars[n] && request.int_advice[t].data == n
                && request.int_advice[t].cond.met(before, after, graph.nodes.int_vars[n]) by {
        let t = asked.int_advice.len() + n;
        assert(request.int_advice[t].data == n);
    }
    assert forall|b: int| 0 <= b < graph.bool_vars.len() implies exists|t: int|
        0 <= t < request.bool_advice.len() && (#[trigger] request.bool_advice[t]).view
            == #[trigger] graph.bool_vars[b] && request.bool_advice[t].data == b by {
        let t = asked.bool_advice.len() + b;
        assert(request.bool_advice[t].data == b);
    }
}

/// Ask for the bounds of the nodes.
pub(crate) fn advise_ints(graph: &DiffGraph, ctx: &mut InitializationContext)
    ensures
        advised(graph, old(ctx), final(ctx), true, false),
        final(ctx).priority == old(ctx).priority,
        final(ctx).enqueue == old(ctx).enqueue,
        final(ctx).backtrack == old(ctx).backtrack,
{
    let ghost before = *ctx;
    let ghost n = before.int_advice.len();
    let mut i: usize = 0;
    proof {
        assert(ctx.int_advice@.take(n as int) =~= before.int_advice@);
        assert(ctx.bool_advice@.take(before.bool_advice.len() as int) =~= before.bool_advice@);
    }
    while i < graph.nodes.int_vars.len()
        invariant
            i <= graph.size(),
            n == before.int_advice.len(),
            before == *old(ctx),
            ctx.triggers == before.triggers,
            ctx.bool_advice == before.bool_advice,
            ctx.priority == before.priority,
            ctx.enqueue == before.enqueue,
            ctx.backtrack == before.backtrack,
            ctx.int_advice@.take(n as int) == before.int_advice@,
            ctx.int_advice.len() == n + i,
            forall|k: int|
                n <= k < n + i ==> (#[trigger] ctx.int_advice[k]) == (IntAdvice {
                    view: graph.nodes.int_vars[k - n],
                    cond: IntPropCond::Bounds,
                    data: (k - n) as u64,
                }),
        decreases graph.size() - i,
    {
        let ghost list = ctx.int_advice@;
        ctx.int_advice.push(
            IntAdvice { view: graph.nodes.int_vars[i], cond: IntPropCond::Bounds, data: i as u64 },
        );
        proof {
            assert(ctx.int_advice@.take(n as int) =~= list.take(n as int));
        }
        i = i + 1;
    }
}

/// Ask for the gates.
pub(crate) fn advise_bools(graph: &DiffGraph, ctx: &mut InitializationContext)
    ensures
        advised(graph, old(ctx), final(ctx), false, true),
        final(ctx).priority == old(ctx).priority,
        final(ctx).enqueue == old(ctx).enqueue,
        final(ctx).backtrack == old(ctx).backtrack,
{
    let ghost before = *ctx;
    let ghost n = before.bool_advice.len();
    let mut i: usize = 0;
    proof {
        assert(ctx.bool_advice@.take(n as int) =~= before.bool_advice@);
        assert(ctx.int_advice@.take(before.int_advice.len() as int) =~= before.int_advice@);
    }
    while i < graph.bool_vars.len()
        invariant
            i <= graph.bool_vars.len(),
            n == before.bool_advice.len(),
            before == *old(ctx),
            ctx.triggers == before.triggers,
            ctx.int_advice == before.int_advice,
            ctx.priority == before.priority,
            ctx.enqueue == before.enqueue,
            ctx.backtrack == before.backtrack,
            ctx.bool_advice@.take(n as int) == before.bool_advice@,
            ctx.bool_advice.len() == n + i,
            forall|k: int|
                n <= k < n + i ==> (#[trigger] ctx.bool_advice[k]) == (BoolAdvice {
                    view: graph.bool_vars[k - n],
                    data: (k - n) as u64,
                }),
        decreases graph.bool_vars.len() - i,
    {
        let ghost list = ctx.bool_advice@;
        ctx.bool_advice.push(BoolAdvice { view: graph.bool_vars[i], data: i as u64 });
        proof {
            assert(ctx.bool_advice@.take(n as int) =~= list.take(n as int));
        }
        i = i + 1;
    }
}

impl DiffLogicState {
    /// Whether nothing differs but which propagator there is for the state.
    pub open spec fn relinked(&self, other: &DiffLogicState) -> bool {
        &&& self.graph == other.graph
        &&& self.pi == other.pi
        &&& self.lower_bound == other.lower_bound
        &&& self.upper_bound == other.upper_bound
        &&& self.backtrace == other.backtrace
        &&& self.visited == other.visited
        &&& self.visited_updates == other.visited_updates
        &&& self.lower_bound_changes == other.lower_bound_changes
        &&& self.upper_bound_changes == other.upper_bound_changes
        &&& self.lb_updates == other.lb_updates
        &&& self.ub_updates == other.ub_updates
        &&& self.fixed_bools == other.fixed_bools
        &&& self.pi_initialized == other.pi_initialized
        &&& self.priority_bounds == other.priority_bounds
        &&& self.priority_booleans == other.priority_booleans
        &&& self.bool_reasons == other.bool_reasons
        &&& self.use_inc_imp == other.use_inc_imp
    }
}

impl DifferenceLogicPropagator {
    /// Ask for the bounds of all nodes, for all gates, for backtracking, and to be run at once.
    /// Remember the index of the propagator.
    pub fn initialize(&mut self, prop: usize, ctx: &mut InitializationContext)
        ensures
            final(self).graph.propagator_ref == Some(prop),
            final(self).graph.relinked(&old(self).graph),
            final(self).graph.propagator_registered == old(self).graph.propagator_registered,
            forall|c: SolvingContext|
                old(self).graph.in_order(&c) ==> #[trigger] final(self).graph.in_order(&c),
            final(ctx).priority == match old(self).graph.priority_bounds {
                Some(p) => p,
                None => PriorityLevel::Low,
            },
            final(ctx).enqueue,
            final(ctx).backtrack,
            advised(&old(self).graph.graph, old(ctx), final(ctx), true, true),
    {
        let ghost st0 = self.graph;
        self.graph.propagator_ref = Some(prop);
        ctx.priority =
        match self.graph.priority_bounds {
            Some(p) => p,
            None => PriorityLevel::Low,
        };
        let ghost c0 = *ctx;
        advise_ints(&self.graph.graph, ctx);
        let ghost c1 = *ctx;
        advise_bools(&self.graph.graph, ctx);
        ctx.backtrack = true;
        ctx.enqueue = true;
        proof {
            assert(ctx.int_advice@ =~= c1.int_advice@);
            assert(c1.bool_advice@ =~= c0.bool_advice@);
            assert forall|c: SolvingContext|
                st0.in_order(&c) implies #[trigger] self.graph.in_order(&c) by {
                assert forall|k: int, u: bool| #[trigger]
                    self.graph.propagated(u, k) == st0.propagated(u, k) by {}
                assert forall|k: usize, u: bool| #[trigger]
                    self.graph.changes(u).contains(k) implies k < st0.graph.size() by {
                    assert(st0.changes(u).contains(k));
                }
                if st0.pi_initialized {
                    assert(self.graph.pi_valid_but(c.trail@, -1));
                }
            }
        }
    }

    /// Forget what was reported and propagated since the last decision.
    pub fn advise_of_backtrack(&mut self)
        requires
            old(self).graph.bounds_listed(),
        ensures
            final(self).graph.forgets(&old(self).graph),
    {
        self.graph.reset_bounds();
        self.graph.fixed_bools = set_new();
    }

    /// Note that an integer view of the graph has changed. Returns whether the propagator is to
    /// be run.
    pub fn advise_of_int_change(&mut self, ctx: &SolvingContext, data: u64, event: IntEvent) -> (r:
        bool)
        requires
            old(self).graph.in_order(ctx),
            data < old(self).graph.graph.size(),
        ensures
            final(self).graph.in_order(ctx),
            final(self).graph.same_but_changes(&old(self).graph),
            final(self).graph.notes(&old(self).graph, ctx, data as usize, event, r),
            final(self).graph.follows_report(&old(self).graph, ctx, data as usize, event),
    {
        self.graph.advise_int_change(ctx, data as usize, event)
    }

    /// Note that a gate was fixed. Returns whether the propagator is to be run.
    pub fn advise_of_bool_change(&mut self, data: u64) -> (r: bool)
        requires
            data < old(self).graph.graph.bool_vars.len(),
        ensures
            forall|ctx: SolvingContext|
                old(self).graph.in_order(&ctx) ==> #[trigger] final(self).graph.in_order(&ctx),
            final(self).graph.same_but_fixed(&old(self).graph),
            final(self).graph.fixed_bools@ == old(self).graph.fixed_bools@.insert(data as usize),
            r == !old(self).graph.fixed_bools@.contains(data as usize),
    {
        self.graph.advise_bool_fixed(data as usize)
    }

    /// Propagate the bounds that have changed, and the gates that were fixed.
    pub fn propagate(&mut self, ctx: &mut SolvingContext) -> (r: Result<(), Conflict>)
        requires
            old(self).graph.in_order(old(ctx)),
            forall|b: usize| #[trigger]
                old(self).graph.fixed_bools@.contains(b) ==> old(ctx).decides(
                    old(self).graph.graph.bool_vars[b as int],
                    true,
                ) || old(ctx).decides(old(self).graph.graph.bool_vars[b as int], false),
        ensures
            final(ctx).infers_later(
                old(ctx),
                diff_rule(&old(self).graph.graph),
                put_off(&old(self).graph, final(ctx)),
                r,
            ),
            // Bounds come first, and then gates that they rule out, with their kind of reasons.
            exists|first: int, last: int| #[trigger]
                gates_refused(&final(self).graph, old(ctx), final(ctx), first, last) && old(
                    self,
                ).graph.all_told(old(ctx), final(ctx), first),
            final(self).graph.kept(final(ctx)),
            same_graph(&old(self).graph.graph, &final(self).graph.graph),
            final(self).graph.same_settings(&old(self).graph),
            r is Ok ==> propagation_done(
                &old(self).graph,
                old(ctx),
                &final(self).graph,
                final(ctx),
            ),
            !old(self).graph.pi_initialized && !active_potentials(
                &old(self).graph.graph,
                old(ctx).trail@,
            ) ==> r is Err,
    {
        let ghost st0 = self.graph;
        let ghost ctx0 = *ctx;
        let ghost rule = diff_rule(&self.graph.graph);
        let r: Result<(), Conflict> = self.graph.propagate_bounds(ctx);
        if r.is_err() {
            return r;
        }
        let ghost st1 = self.graph;
        let ghost ctx1 = *ctx;
        proof {
            lemma_same_rule(&st0.graph, &st1.graph);
            assert forall|b: usize| #[trigger] st1.fixed_bools@.contains(b) implies ctx1.decides(
                st1.graph.bool_vars[b as int],
                true,
            ) || ctx1.decides(st1.graph.bool_vars[b as int], false) by {
                assert(st0.fixed_bools@.contains(b));
                let bv = st0.graph.bool_vars[b as int];
                assert(ctx0.knows(st0.graph.bool_vars[b as int]));
                if ctx0.decides(bv, true) {
                    lemma_decides_narrowed(&ctx0, &ctx1, bv, true);
                } else {
                    lemma_decides_narrowed(&ctx0, &ctx1, bv, false);
                }
            }
        }
        let ghost first = choose|first: int| #[trigger]
            gates_refused(
                &st1,
                &ctx0,
                &ctx1,
                first,
                ctx1.propagation_queue.len() as int,
            ) && st0.all_told(&ctx0, &ctx1, first);
        let r: Result<(), Conflict> = self.graph.propagate_booleans(ctx);
        proof {
            lemma_none_put_off(&st1, &ctx1, ctx, rule, r);
            lemma_put_off_join(&st0, &ctx0, &st1, &ctx1, ctx, r);
            lemma_refused_before(&st1, &ctx0, &ctx1, &self.graph, ctx, first, rule, r);
            lemma_told_later(&st0, &st0, &ctx0, &ctx1, ctx, first);
            assert(same_graph(&st0.graph, &self.graph.graph)) by {
                assert forall|e: int| 0 <= e < st0.graph.edges.len() implies (
                #[trigger] self.graph.graph.edges[e]).same_but_positions(st0.graph.edges[e]) by {
                    assert(st1.graph.edges[e].same_but_positions(st0.graph.edges[e]));
                }
            }
            if r is Ok {
                lemma_propagation_done(&st0, &ctx0, &st1, &ctx1, &self.graph, ctx);
            }
        }
        r
    }

    /// The literals that a gate was fixed for not to hold: the bounds of the ends of the edge.
    pub fn explain(&self, ctx: &SolvingContext, data: u64) -> (r: Vec<BoolView>)
        requires
            self.graph.grounded(ctx),
            data / 2 < self.graph.graph.edges.len(),
        ensures
            r.len() == 2,
            explains(&self.graph, ctx, data as int / 2, r@),
    {
        explain_diff_logic_lazy(&self.graph, ctx, data)
    }
}

/// Whether the literals say that the ends of the edge lie within their current bounds.
pub open spec fn explains(
    st: &DiffLogicState,
    ctx: &SolvingContext,
    e: int,
    atoms: Seq<BoolView>,
) -> bool {
    let edge = st.graph.edges[e];
    forall|ints: IntAssignment, bools: BoolAssignment| #[trigger]
        all_hold(atoms, ints, bools) <==> (node_value(&st.graph, edge.from as int, ints, bools)
            >= ctx.view_min(st.graph.nodes.int_vars[edge.from as int]) && node_value(
            &st.graph,
            edge.to as int,
            ints,
            bools,
        ) <= ctx.view_max(st.graph.nodes.int_vars[edge.to as int]))
}

/// Build a reason that was put off: the current lower bound of the start of the edge, and the
/// current upper bound of its end.
fn explain_diff_logic_lazy(diff: &DiffLogicState, ctx: &SolvingContext, data: u64) -> (r: Vec<
    BoolView,
>)
    requires
        diff.grounded(ctx),
        data / 2 < diff.graph.edges.len(),
    ensures
        r.len() == 2,
        explains(diff, ctx, data as int / 2, r@),
{
    let e: usize = edge_of_data(data);
    let edge: DiffEdge = diff.graph.edges[e];
    proof {
        diff.graph.lemma_edge(e as int);
        assert(ctx.has_view(diff.graph.nodes.int_vars[edge.from as int]));
        assert(ctx.has_view(diff.graph.nodes.int_vars[edge.to as int]));
    }
    let source_lb: IntVal = ctx.min(diff.graph.nodes.int_vars[edge.from]);
    let target_ub: IntVal = ctx.max(diff.graph.nodes.int_vars[edge.to]);
    let lit_from: BoolView = diff.graph.nodes.int_vars[edge.from].lit(
        IntLitMeaning::GreaterEq(source_lb),
    );
    let lit_to: BoolView = diff.graph.nodes.int_vars[edge.to].lit(
        IntLitMeaning::Less(target_ub + 1),
    );
    let mut r: Vec<BoolView> = Vec::new();
    r.push(lit_from);
    r.push(lit_to);
    proof {
        assert forall|ints: IntAssignment, bools: BoolAssignment| #[trigger]
            all_hold(r@, ints, bools) <==> (node_value(&diff.graph, edge.from as int, ints, bools)
                >= source_lb && node_value(&diff.graph, edge.to as int, ints, bools)
                <= target_ub) by {
            lemma_two_atoms(r@, ints, bools);
            assert(lit_from.holds(ints, bools) == (node_value(
                &diff.graph,
                edge.from as int,
                ints,
                bools,
            ) >= source_lb));
            assert(lit_to.holds(ints, bools) == (node_value(
                &diff.graph,
                edge.to as int,
                ints,
                bools,
            ) < target_ub + 1));
        }
    }
    r
}

/// A reason that was put off holds where it is built, and what it was put off for follows from
/// it.
pub proof fn lemma_put_off_reason(
    st: &DiffLogicState,
    ctx: &SolvingContext,
    subject: Option<BoolView>,
    d: DeferredReason,
    atoms: Seq<BoolView>,
    ints: IntAssignment,
    bools: BoolAssignment,
)
    requires
        st.grounded(ctx),
        2 * st.graph.edges.len() <= u64::MAX,
        put_off(st, ctx)(subject, d),
        explains(st, ctx, d.data as int / 2, atoms),
    ensures
        0 <= d.data as int / 2 < st.graph.edges.len(),
        ctx.admits(ints, bools) ==> all_hold(atoms, ints, bools),
        diff_rule(&st.graph)(ints, bools) && all_hold(atoms, ints, bools) ==> subject_holds(
            subject,
            ints,
            bools,
        ),
{
    let e = choose|e: int| #[trigger] refusal(&st.graph, ctx, subject, d, e);
    let edge = st.graph.edges[e];
    st.graph.lemma_edge(e);
    assert(ctx.has_view(st.graph.nodes.int_vars[edge.from as int]));
    assert(ctx.has_view(st.graph.nodes.int_vars[edge.to as int]));
    if ctx.admits(ints, bools) {
        lemma_view_bounds(ctx, st.graph.nodes.int_vars[edge.from as int], ints, bools);
        lemma_view_bounds(ctx, st.graph.nodes.int_vars[edge.to as int], ints, bools);
    }
    assert(subject_holds(subject, ints, bools) == !gate_holds(
        &st.graph,
        st.graph.edges[e],
        ints,
        bools,
    ));
    if gate_holds(&st.graph, st.graph.edges[e], ints, bools) && diff_rule(&st.graph)(
        ints,
        bools,
    ) {
        assert(edge_kept(&st.graph, st.graph.edges[e], ints, bools));
    }
}

proof fn lemma_propagation_done(
    st0: &DiffLogicState,
    ctx0: &SolvingContext,
    st1: &DiffLogicState,
    ctx1: &SolvingContext,
    st: &DiffLogicState,
    ctx: &SolvingContext,
)
    requires
        st0.in_order(ctx0),
        advances(st0, ctx0, st1, ctx1),
        bounds_done(st0, ctx0, st1, ctx1),
        same_active(
            &st0.graph,
            ctx0.trail@,
            &st1.graph,
            ctx1.trail@,
        ),
        st1.fixed_bools == st0.fixed_bools,
        advances(st1, ctx1, st, ctx),
        st.in_order(ctx),
        st.pi_initialized,
        forall|b: usize| !#[trigger] st.fixed_bools@.contains(b),
        st.lower_bound == st1.lower_bound,
        st.upper_bound == st1.upper_bound,
        st.lower_bound_changes == st1.lower_bound_changes,
        st.upper_bound_changes == st1.upper_bound_changes,
        forall|b: usize| #[trigger]
            st1.fixed_bools@.contains(b) ==> gates_closed(st, ctx, b as int),
        forall|e: int, upper: bool|
            #![trigger st.passes(ctx, upper, e)]
            0 <= e < st.graph.edges.len() && st.graph.active_at(e, ctx.trail@) && (
            st1.graph.active_at(e, ctx1.trail@) ==> st1.passes(ctx1, upper, e)) ==> st.passes(
                ctx,
                upper,
                e,
            ),
        new_edges_hand_on(st1, ctx1, st, ctx),
        st1.in_order(ctx1),
        st1.use_inc_imp ==> none_missed(&st1.graph, ctx1.trail@, &st.graph, ctx.trail@),
        (forall|b: usize| !#[trigger] st1.fixed_bools@.contains(b)) ==> *ctx == *ctx1 && st.graph
            == st1.graph,
    ensures
        propagation_done(st0, ctx0, st, ctx),
{
    let first = !st0.pi_initialized;
    if forall|b: usize| !#[trigger] st0.fixed_bools@.contains(b) {
        assert forall|k: int, u: bool| #[trigger] st.propagated(u, k) == st1.propagated(u, k) by {}
        lemma_followed_same(st0, ctx0, st1, st, ctx, false);
        lemma_followed_same(st0, ctx0, st1, st, ctx, true);
        assert(raised_reviewed(st0, ctx0, st, ctx)) by {
            assert forall|e: int, refuting: bool| #[trigger]
                st.looked_at(ctx, refuting, e) == st1.looked_at(ctx1, refuting, e) by {}
        }
    }
    lemma_none_missed_same(&st0.graph, ctx0.trail@, &st1.graph, ctx1.trail@);
    if st0.use_inc_imp {
        lemma_none_missed_join(
            &st0.graph,
            ctx0.trail@,
            &st1.graph,
            ctx1.trail@,
            &st.graph,
            ctx.trail@,
        );
    }
    lemma_advances_join(st0, ctx0, st1, ctx1, st, ctx);
    lemma_looked_at_later(st1, ctx1, st, ctx);
    assert forall|k: int, u: bool| #[trigger] st.propagated(u, k) == st1.propagated(u, k) by {}
    assert forall|k: int, u: bool| 0 <= k < st0.graph.size() implies match #[trigger] st.propagated(
        u,
        k,
    ) {
        Some(w) => w >= st0.current(ctx0, u, k),
        None => st0.propagated(u, k) is None,
    } by {
        assert(st.propagated(u, k) == st1.propagated(u, k));
        assert(keeps_propagated(st0, ctx0, st1, u));
    }
    lemma_near_narrowed(st0, ctx0, ctx1);
    assert forall|n: int, u: bool| 0 <= n < st0.graph.size() implies #[trigger] st1.current(
        ctx1,
        u,
        n,
    ) >= st0.current(ctx0, u, n) by {
        assert(keeps_propagated(st0, ctx0, st1, u));
        assert(st0.near_node(ctx1, u, n) >= st0.near_node(ctx0, u, n));
        assert(st1.propagated(u, n) is Some || st0.propagated(u, n) is None);
    }
    assert(new_edges_hand_on(st0, ctx0, st1, ctx1)) by {
        assert forall|e: int| 0 <= e < st1.graph.edges.len() implies st1.graph.active_at(
            e,
            ctx1.trail@,
        ) == #[trigger] st0.graph.active_at(e, ctx0.trail@) by {}
    }
    lemma_hand_on_join(st0, ctx0, st1, ctx1, st, ctx);
    assert forall|k: usize, u: bool| !#[trigger] st.changes(u).contains(k) by {
        assert(!st1.changes(u).contains(k));
    }
    assert forall|e: int, upper: bool|
        #![trigger st.passes(ctx, upper, e)]
        0 <= e < st.graph.edges.len() && st.graph.active_at(e, ctx.trail@) && (first
            || st0.changes(upper).contains(tail(st.graph.edges[e], upper) as usize) || (
        st0.graph.active_at(e, ctx0.trail@) ==> st0.passes(ctx0, upper, e)) || st.propagated(
            upper,
            tail(st.graph.edges[e], upper),
        ) != st0.propagated(upper, tail(st.graph.edges[e], upper))) implies st.passes(
        ctx,
        upper,
        e,
    ) by {
        assert(st.graph.edges[e].same_but_positions(st1.graph.edges[e]));
        assert(bounds_followed(st0, ctx0, st1, ctx1, upper));
        let f = tail(st.graph.edges[e], upper);
        assert(st.propagated(upper, f) == st1.propagated(upper, f));
        if st1.graph.active_at(e, ctx1.trail@) {
            assert(st0.graph.active_at(e, ctx0.trail@));
            assert(st1.passes(ctx1, upper, e));
        }
    }
    assert forall|e: int, refuting: bool|
        #![trigger st.looked_at(ctx, refuting, e)]
        0 <= e < st.graph.edges.len() && st.graph.edges[e].bool_var is Some && (first
            || st0.touched(refuting, e) || (st0.looked_at(ctx0, refuting, e) && st0.same_ends(
            st,
            refuting,
            e,
        ))) implies st.looked_at(ctx, refuting, e) by {
        assert(st.graph.edges[e].same_but_positions(st1.graph.edges[e]));
        assert(st1.looked_at(ctx1, refuting, e));
    }
    assert forall|b: usize| #[trigger] st0.fixed_bools@.contains(b) implies gates_closed(
        st,
        ctx,
        b as int,
    ) by {
        assert(st1.fixed_bools@.contains(b));
    }
}

/// Whether the bound of the view is as it was, or its change is what the event tells: that the
/// view is fixed, or that the one bound has moved.
pub open spec fn bound_reported(
    event: IntEvent,
    before: &SolvingContext,
    after: &SolvingContext,
    view: IntView,
    upper: bool,
) -> bool {
    ||| event == IntEvent::Fixed
    ||| if upper {
        event == IntEvent::UpperBound || after.view_max(view) == before.view_max(view)
    } else {
        event == IntEvent::LowerBound || after.view_min(view) == before.view_min(view)
    }
}

/// No change of a bound that is reported by its event goes unnoticed, and a report of one node
/// leaves the others as they are.
pub proof fn lemma_report_noted(
    before: &DiffLogicState,
    st: &DiffLogicState,
    ctx: &SolvingContext,
    data: usize,
    event: IntEvent,
    news: bool,
)
    requires
        st.same_but_changes(before),
        st.notes(before, ctx, data, event, news),
    ensures
        st.follows_report(before, ctx, data, event),
        forall|other: SolvingContext, upper: bool, n: usize|
            n != data ==> #[trigger] st.noted(&other, upper, n as int) == before.noted(
                &other,
                upper,
                n as int,
            ),
{
    assert forall|k: int, u: bool| #[trigger] st.propagated(u, k) == before.propagated(u, k) by {}
    assert forall|other: SolvingContext, upper: bool, n: usize| n != data implies
        #[trigger] st.noted(&other, upper, n as int) == before.noted(&other, upper, n as int) by {
        assert(st.changes(upper).contains(n) == before.changes(upper).contains(n));
    }
    let view = before.graph.nodes.int_vars[data as int];
    assert forall|earlier: SolvingContext, upper: bool|
        before.noted(&earlier, upper, data as int) && #[trigger] bound_reported(
            event,
            &earlier,
            ctx,
            view,
            upper,
        ) implies st.noted(ctx, upper, data as int) by {
        assert(st.propagated(upper, data as int) == before.propagated(upper, data as int));
    }
    assert(st.propagated(false, data as int) == before.propagated(false, data as int));
    assert(st.propagated(true, data as int) == before.propagated(true, data as int));
}

/// A run that starts with all changes noted passes the bounds that it finds on along every edge
/// that is active at its end.
pub proof fn lemma_run_passes_bounds(
    st0: &DiffLogicState,
    ctx0: &SolvingContext,
    st: &DiffLogicState,
    ctx: &SolvingContext,
    e: int,
)
    requires
        st0.in_order(ctx0),
        st0.pi_initialized ==> st0.all_noted(ctx0) && st0.bounds_passed(ctx0, false)
            && st0.bounds_passed(ctx0, true),
        propagation_done(st0, ctx0, st, ctx),
        0 <= e < st.graph.edges.len(),
        st.graph.active_at(e, ctx.trail@),
    ensures
        ({
            let (x, y) = (
                st.graph.nodes.int_vars[st.graph.edges[e].from as int],
                st.graph.nodes.int_vars[st.graph.edges[e].to as int],
            );
            let d = st.graph.edges[e].val;
            &&& ctx.view_min(y) >= ctx0.view_min(x) - d
            &&& ctx.view_max(x) <= ctx0.view_max(y) + d
        }),
        st.passes(ctx, false, e),
        st.passes(ctx, true, e),
{
    st.graph.lemma_edge(e);
    assert(st.graph.edges[e].same_but_positions(st0.graph.edges[e]));
    assert forall|upper: bool| #[trigger] st.passes(ctx, upper, e) && st.near_node(
        ctx,
        upper,
        head(st.graph.edges[e], upper),
    ) >= st.near_node(ctx0, upper, tail(st.graph.edges[e], upper)) - st.graph.edges[e].val by {
        let f = tail(st.graph.edges[e], upper);
        if st0.pi_initialized {
            assert(st0.noted(ctx0, upper, f));
            if st0.graph.active_at(e, ctx0.trail@) {
                assert(st0.bounds_passed(ctx0, upper));
                assert(st0.passes(ctx0, upper, e));
            }
        }
        assert(st.passes(ctx, upper, e));
        assert(keeps_propagated(st0, ctx0, st, upper));
        assert(st.propagated(upper, f) matches Some(v) && v >= st0.near_node(ctx0, upper, f));
    }
    assert(st.passes(ctx, false, e) && st.passes(ctx, true, e));
}

/// A run that starts with all changes noted ends with bounds that are consistent along every
/// active edge, and with nothing left to note, if the nodes are decisions of their own and no
/// gate was reported.
pub proof fn lemma_run_consistent(
    st0: &DiffLogicState,
    ctx0: &SolvingContext,
    st: &DiffLogicState,
    ctx: &SolvingContext,
)
    requires
        st0.in_order(ctx0),
        st0.pi_initialized ==> st0.all_noted(ctx0) && st0.bounds_passed(ctx0, false)
            && st0.bounds_passed(ctx0, true),
        forall|b: usize| !#[trigger] st0.fixed_bools@.contains(b),
        regular(&st0.graph, ctx0),
        propagation_done(st0, ctx0, st, ctx),
    ensures
        forall|e: int|
            0 <= e < st.graph.edges.len() && #[trigger] st.graph.active_at(e, ctx.trail@) ==> {
                let (x, y) = (
                    st.graph.nodes.int_vars[st.graph.edges[e].from as int],
                    st.graph.nodes.int_vars[st.graph.edges[e].to as int],
                );
                let d = st.graph.edges[e].val;
                &&& ctx.view_min(y) >= ctx.view_min(x) - d
                &&& ctx.view_max(x) <= ctx.view_max(y) + d
            },
        st.all_noted(ctx),
        st.bounds_passed(ctx, false),
        st.bounds_passed(ctx, true),
{
    lemma_near_narrowed(st0, ctx0, ctx);
    assert forall|n: int, upper: bool| 0 <= n < st.graph.size() implies #[trigger] st.propagated(
        upper,
        n,
    ) == Some(st.near_node(ctx, upper, n)) by {
        assert(bounds_followed(st0, ctx0, st, ctx, upper));
        assert(st.near_node(ctx, upper, n) == st0.near_node(ctx, upper, n));
        if !raised(st0, ctx0, ctx, upper, n) {
            assert(st0.near_node(ctx, upper, n) >= st0.near_node(ctx0, upper, n));
            assert(st0.noted(ctx0, upper, n));
            assert(keeps_propagated(st0, ctx0, st, upper));
            assert(st.propagated(upper, n) is Some);
        }
    }
    assert forall|n: int, upper: bool| 0 <= n < st.graph.size() implies #[trigger] st.noted(
        ctx,
        upper,
        n,
    ) by {
        assert(st.propagated(upper, n) == Some(st.near_node(ctx, upper, n)));
    }
    assert forall|e: int|
        0 <= e < st.graph.edges.len() && #[trigger] st.graph.active_at(e, ctx.trail@) implies {
        let (x, y) = (
            st.graph.nodes.int_vars[st.graph.edges[e].from as int],
            st.graph.nodes.int_vars[st.graph.edges[e].to as int],
        );
        let d = st.graph.edges[e].val;
        &&& st.passes(ctx, false, e)
        &&& st.passes(ctx, true, e)
        &&& ctx.view_min(y) >= ctx.view_min(x) - d
        &&& ctx.view_max(x) <= ctx.view_max(y) + d
    } by {
        st.graph.lemma_edge(e);
        lemma_run_passes_bounds(st0, ctx0, st, ctx, e);
        let edge = st.graph.edges[e];
        assert(st.propagated(false, edge.from as int) == Some(
            st.near_node(ctx, false, edge.from as int),
        ));
        assert(st.propagated(true, edge.to as int) == Some(st.near_node(ctx, true, edge.to as int)));
    }
}

/// A run that starts with all changes noted fixes every gating view not to hold whose edge the
/// bounds of the ends rule out, under the same conditions.
pub proof fn lemma_run_refutes(
    st0: &DiffLogicState,
    ctx0: &SolvingContext,
    st: &DiffLogicState,
    ctx: &SolvingContext,
    e: int,
)
    requires
        st0.in_order(ctx0),
        closed_settled(st0, ctx0),
        st0.pi_initialized ==> at_rest_before(st0, ctx0),
        forall|b: usize| !#[trigger] st0.fixed_bools@.contains(b),
        regular(&st0.graph, ctx0),
        propagation_done(st0, ctx0, st, ctx),
        0 <= e < st.graph.edges.len(),
        st.graph.edges[e].bool_var is Some,
        ({
            let (x, y) = (
                st.graph.nodes.int_vars[st.graph.edges[e].from as int],
                st.graph.nodes.int_vars[st.graph.edges[e].to as int],
            );
            ctx.view_min(x) - ctx.view_max(y) > st.graph.edges[e].val
        }),
    ensures
        ctx.decides(st.graph.bool_vars[st.graph.edges[e].bool_var->0 as int], false),
{
    st.graph.lemma_edge(e);
    let edge = st.graph.edges[e];
    let (from, to) = (edge.from as int, edge.to as int);
    assert(edge.same_but_positions(st0.graph.edges[e]));
    assert(st0.graph.edges[e].bool_var is Some);
    lemma_run_consistent(st0, ctx0, st, ctx);
    lemma_closed_stay_settled(st0, ctx0, st, ctx);
    lemma_near_narrowed(st0, ctx0, ctx);
    assert(st.noted(ctx, false, from) && st.noted(ctx, true, to));
    assert(st.looked_at(ctx, true, e)) by {
        if !raised(st0, ctx0, ctx, false, from) && !raised(st0, ctx0, ctx, true, to) {
            assert(st0.noted(ctx0, false, from) && st0.noted(ctx0, true, to));
            assert(st0.near_node(ctx, false, from) >= st0.near_node(ctx0, false, from));
            assert(st0.near_node(ctx, true, to) >= st0.near_node(ctx0, true, to));
            assert(st0.same_ends(st, true, e));
            assert(st0.looked_at(ctx0, true, e));
        }
    }
    assert(st.graph.closed_at(e, ctx.trail@));
    assert(settled_edge(st, ctx, e));
    assert(ctx.has_view(st.graph.nodes.int_vars[from]) && ctx.has_view(
        st.graph.nodes.int_vars[to],
    ));
    lemma_view_bounds_ordered(ctx, st.graph.nodes.int_vars[to]);
    let ints: IntAssignment = |v: int| ctx.ints[v].lb as int;
    let bools: BoolAssignment = |b: int|
        match ctx.bools[b] {
            Some(v) => v,
            None => false,
        };
    assert(ctx.admits(ints, bools)) by {
        assert forall|v: int| 0 <= v < ctx.ints.len() implies (#[trigger] ctx.ints[v]).has(
            ints(v),
        ) by {
            assert(ctx.ints[v].wf());
        }
    }
    assert forall|n: int| 0 <= n < st.graph.size() implies #[trigger] node_value(
        &st.graph,
        n,
        ints,
        bools,
    ) == ctx.view_min(st.graph.nodes.int_vars[n]) by {
        assert(plain(ctx0, st0.graph.nodes.int_vars[n]));
    }
    assert(active_kept(&st.graph, ctx.trail@, ints, bools)) by {
        assert forall|k: int|
            0 <= k < st.graph.edges.len() && #[trigger] st.graph.active_at(
                k,
                ctx.trail@,
            ) implies edge_kept(&st.graph, st.graph.edges[k], ints, bools) by {
            st.graph.lemma_edge(k);
        }
    }
    assert(!edge_kept(&st.graph, edge, ints, bools));
}

/// A run that starts with all changes noted leaves nothing undone, under the same conditions: the
/// next one can start from there.
pub proof fn lemma_run_rests(
    st0: &DiffLogicState,
    ctx0: &SolvingContext,
    st: &DiffLogicState,
    ctx: &SolvingContext,
)
    requires
        st0.in_order(ctx0),
        st0.pi_initialized ==> at_rest_before(st0, ctx0),
        forall|b: usize| !#[trigger] st0.fixed_bools@.contains(b),
        regular(&st0.graph, ctx0),
        propagation_done(st0, ctx0, st, ctx),
    ensures
        at_rest_before(st, ctx),
{
    lemma_run_consistent(st0, ctx0, st, ctx);
    lemma_near_narrowed(st0, ctx0, ctx);
    assert forall|e: int, refuting: bool|
        0 <= e < st.graph.edges.len() && st.graph.edges[e].bool_var is Some implies
        #[trigger] st.looked_at(ctx, refuting, e) by {
        st.graph.lemma_edge(e);
        let edge = st.graph.edges[e];
        let (from, to) = (edge.from as int, edge.to as int);
        assert(edge.same_but_positions(st0.graph.edges[e]));
        if !raised(st0, ctx0, ctx, !refuting, from) && !raised(st0, ctx0, ctx, refuting, to) {
            assert(st.noted(ctx, !refuting, from) && st.noted(ctx, refuting, to));
            assert(st0.noted(ctx0, !refuting, from) && st0.noted(ctx0, refuting, to));
            assert(st0.near_node(ctx, !refuting, from) >= st0.near_node(ctx0, !refuting, from));
            assert(st0.near_node(ctx, refuting, to) >= st0.near_node(ctx0, refuting, to));
            assert(st0.same_ends(st, refuting, e));
            assert(st0.looked_at(ctx0, refuting, e));
        }
    }
}

/// Where a run left nothing undone and the domains were narrowed since, the next one can start
/// once every bound that has moved is noted.
pub proof fn lemma_reports_suffice(
    st0: &DiffLogicState,
    ctx0: &SolvingContext,
    st: &DiffLogicState,
    ctx: &SolvingContext,
)
    requires
        st0.in_order(ctx0),
        at_rest_before(st0, ctx0),
        st.same_but_changes(st0),
        ctx.wf(),
        ctx.grows(ctx0),
        ctx.narrows(ctx0),
        ctx.trail@ == ctx0.trail@,
        st.all_noted(ctx),
    ensures
        at_rest_before(st, ctx),
{
    lemma_near_narrowed(st0, ctx0, ctx);
    assert forall|k: int, u: bool| #[trigger] st.propagated(u, k) == st0.propagated(u, k) by {}
    assert forall|e: int, upper: bool|
        0 <= e < st.graph.edges.len() && st.graph.active_at(e, ctx.trail@) implies
        #[trigger] st.passes(ctx, upper, e) by {
        st0.graph.lemma_edge(e);
        assert(st0.bounds_passed(ctx0, upper));
        assert(st0.graph.active_at(e, ctx0.trail@));
        assert(st0.passes(ctx0, upper, e));
        let (f, t) = (tail(st.graph.edges[e], upper), head(st.graph.edges[e], upper));
        assert(st.propagated(upper, f) == st0.propagated(upper, f));
        assert(st0.near_node(ctx, upper, t) >= st0.near_node(ctx0, upper, t));
    }
    assert forall|e: int, refuting: bool|
        0 <= e < st.graph.edges.len() && st.graph.edges[e].bool_var is Some implies
        #[trigger] st.looked_at(ctx, refuting, e) by {
        assert(st0.looked_at(ctx0, refuting, e));
    }
}

/// Whether the bounds of the ends of the edge are consistent.
pub open spec fn edge_consistent(
    graph: &DiffGraph,
    ctx: &SolvingContext,
    upper: bool,
    e: int,
) -> bool {
    let (x, y) = (
        graph.nodes.int_vars[graph.edges[e].from as int],
        graph.nodes.int_vars[graph.edges[e].to as int],
    );
    if upper {
        ctx.view_max(x) <= ctx.view_max(y) + graph.edges[e].val
    } else {
        ctx.view_min(y) >= ctx.view_min(x) - graph.edges[e].val
    }
}

/// Whether nothing was missed so far: along every active edge the bounds are consistent, or a
/// change is noted where it starts, and a bound that is not noted was not propagated, or is the
/// propagated one. So it is after backtracking to where the bounds were consistent, when nothing
/// is noted and nothing was propagated.
pub open spec fn nothing_missed(st: &DiffLogicState, ctx: &SolvingContext) -> bool {
    &&& forall|e: int, upper: bool|
        0 <= e < st.graph.edges.len() && st.graph.active_at(e, ctx.trail@)
            ==> #[trigger] edge_consistent(&st.graph, ctx, upper, e) || st.changes(upper).contains(
            tail(st.graph.edges[e], upper) as usize,
        )
    &&& forall|n: int, upper: bool|
        0 <= n < st.graph.size() ==> #[trigger] st.noted(ctx, upper, n) || st.propagated(upper, n)
            is None
}

/// A run that starts where nothing was missed passes the bounds that it finds on along every edge
/// that is active at its end, those of gates that were reported included.
pub proof fn lemma_run_hands_on(
    st0: &DiffLogicState,
    ctx0: &SolvingContext,
    st: &DiffLogicState,
    ctx: &SolvingContext,
    e: int,
)
    requires
        st0.in_order(ctx0),
        st0.pi_initialized ==> nothing_missed(st0, ctx0),
        propagation_done(st0, ctx0, st, ctx),
        0 <= e < st.graph.edges.len(),
        st.graph.active_at(e, ctx.trail@),
    ensures
        ({
            let (x, y) = (
                st.graph.nodes.int_vars[st.graph.edges[e].from as int],
                st.graph.nodes.int_vars[st.graph.edges[e].to as int],
            );
            let d = st.graph.edges[e].val;
            &&& ctx.view_min(y) >= ctx0.view_min(x) - d
            &&& ctx.view_max(x) <= ctx0.view_max(y) + d
        }),
{
    st.graph.lemma_edge(e);
    lemma_near_narrowed(st0, ctx0, ctx);
    assert(st.graph.edges[e].same_but_positions(st0.graph.edges[e]));
    assert forall|upper: bool| #[trigger] st.near_node(
        ctx,
        upper,
        head(st.graph.edges[e], upper),
    ) >= st.near_node(ctx0, upper, tail(st.graph.edges[e], upper)) - st.graph.edges[e].val by {
        let (f, t) = (tail(st.graph.edges[e], upper), head(st.graph.edges[e], upper));
        assert(st0.near_node(ctx, upper, t) >= st0.near_node(ctx0, upper, t));
        if !st0.pi_initialized || st0.changes(upper).contains(f as usize) {
            assert(st.passes(ctx, upper, e));
            assert(st.propagated(upper, f) matches Some(v) && v >= st0.near_node(ctx0, upper, f));
        } else if st0.graph.active_at(e, ctx0.trail@) {
            assert(edge_consistent(&st0.graph, ctx0, upper, e));
        } else {
            assert(st0.noted(ctx0, upper, f) || st0.propagated(upper, f) is None);
            assert(hands_on(st0, ctx0, st, ctx, upper, e));
        }
    }
    let edge = st.graph.edges[e];
    assert(st.near_node(ctx, false, head(edge, false)) >= st.near_node(ctx0, false, tail(edge, false))
        - edge.val);
    assert(st.near_node(ctx, true, head(edge, true)) >= st.near_node(ctx0, true, tail(edge, true))
        - edge.val);
}

/// A run that starts where nothing was missed, in a search or after backtracking, ends with bounds
/// that are consistent along every active edge, so that nothing was missed then either, if the
/// nodes are decisions of their own and no gate was reported.
pub proof fn lemma_run_misses_nothing(
    st0: &DiffLogicState,
    ctx0: &SolvingContext,
    st: &DiffLogicState,
    ctx: &SolvingContext,
)
    requires
        st0.in_order(ctx0),
        st0.pi_initialized ==> nothing_missed(st0, ctx0),
        forall|b: usize| !#[trigger] st0.fixed_bools@.contains(b),
        regular(&st0.graph, ctx0),
        propagation_done(st0, ctx0, st, ctx),
    ensures
        forall|e: int, upper: bool|
            0 <= e < st.graph.edges.len() && st.graph.active_at(e, ctx.trail@)
                ==> #[trigger] edge_consistent(&st.graph, ctx, upper, e),
        nothing_missed(st, ctx),
{
    lemma_near_narrowed(st0, ctx0, ctx);
    assert forall|n: int, upper: bool| 0 <= n < st.graph.size() implies #[trigger] st.noted(
        ctx,
        upper,
        n,
    ) || st.propagated(upper, n) is None by {
        assert(bounds_followed(st0, ctx0, st, ctx, upper));
        assert(keeps_propagated(st0, ctx0, st, upper));
        assert(st0.near_node(ctx, upper, n) >= st0.near_node(ctx0, upper, n));
        if !raised(st0, ctx0, ctx, upper, n) && st.propagated(upper, n) is Some {
            assert(st0.noted(ctx0, upper, n) || st0.propagated(upper, n) is None);
            assert(st.propagated(upper, n)->0 <= st.near_node(ctx, upper, n));
        }
    }
    assert forall|e: int, upper: bool|
        0 <= e < st.graph.edges.len() && st.graph.active_at(e, ctx.trail@) implies
        #[trigger] edge_consistent(&st.graph, ctx, upper, e) by {
        st.graph.lemma_edge(e);
        assert(st.graph.edges[e].same_but_positions(st0.graph.edges[e]));
        let (f, t) = (tail(st.graph.edges[e], upper), head(st.graph.edges[e], upper));
        assert(bounds_followed(st0, ctx0, st, ctx, upper));
        assert(st0.near_node(ctx, upper, t) >= st0.near_node(ctx0, upper, t));
        assert(st0.near_node(ctx, upper, f) >= st0.near_node(ctx0, upper, f));
        if raised(st0, ctx0, ctx, upper, f) {
            assert(st.passes(ctx, upper, e));
            assert(st.propagated(upper, f) == Some(st.near_node(ctx, upper, f)));
        } else if st0.graph.active_at(e, ctx0.trail@) {
            assert(edge_consistent(&st0.graph, ctx0, upper, e));
        } else {
            assert(st0.noted(ctx0, upper, f) || st0.propagated(upper, f) is None);
            assert(hands_on(st0, ctx0, st, ctx, upper, e));
        }
    }
}

/// Where nothing was missed and domains were narrowed since, nothing is missed once every bound
/// that has moved is noted.
pub proof fn lemma_reports_miss_nothing(
    st0: &DiffLogicState,
    ctx0: &SolvingContext,
    st: &DiffLogicState,
    ctx: &SolvingContext,
)
    requires
        st0.in_order(ctx0),
        nothing_missed(st0, ctx0),
        st.same_but_changes(st0),
        forall|k: usize, upper: bool| #[trigger]
            st0.changes(upper).contains(k) ==> st.changes(upper).contains(k),
        ctx.wf(),
        ctx.grows(ctx0),
        ctx.narrows(ctx0),
        ctx.trail@ == ctx0.trail@,
        forall|n: int, upper: bool|
            0 <= n < st.graph.size() ==> st.near_node(ctx, upper, n) == st.near_node(ctx0, upper, n)
                || #[trigger] st.noted(ctx, upper, n),
    ensures
        nothing_missed(st, ctx),
{
    lemma_near_narrowed(st0, ctx0, ctx);
    assert forall|k: int, u: bool| #[trigger] st.propagated(u, k) == st0.propagated(u, k) by {}
    assert forall|n: int, upper: bool| 0 <= n < st.graph.size() implies #[trigger] st.noted(
        ctx,
        upper,
        n,
    ) || st.propagated(upper, n) is None by {
        assert(st0.noted(ctx0, upper, n) || st0.propagated(upper, n) is None);
        assert(st.propagated(upper, n) == st0.propagated(upper, n));
    }
    assert forall|e: int, upper: bool|
        0 <= e < st.graph.edges.len() && st.graph.active_at(e, ctx.trail@) implies
        #[trigger] edge_consistent(&st.graph, ctx, upper, e) || st.changes(upper).contains(
        tail(st.graph.edges[e], upper) as usize,
    ) by {
        st0.graph.lemma_edge(e);
        let (f, t) = (tail(st.graph.edges[e], upper), head(st.graph.edges[e], upper));
        assert(edge_consistent(&st0.graph, ctx0, upper, e) || st0.changes(upper).contains(
            f as usize,
        ));
        assert(st0.near_node(ctx, upper, t) >= st0.near_node(ctx0, upper, t));
        assert(st0.near_node(ctx, upper, f) >= st0.near_node(ctx0, upper, f));
        assert(st.near_node(ctx, upper, f) == st.near_node(ctx0, upper, f) || st.noted(
            ctx,
            upper,
            f,
        ));
        assert(st0.propagated(upper, f) matches Some(v) ==> v <= st0.near_node(ctx0, upper, f));
        assert(st.propagated(upper, f) == st0.propagated(upper, f));
    }
}

/// After backtracking to where the bounds are consistent along the active edges nothing was
/// missed, and no gate is left to deal with.
pub proof fn lemma_backtrack_misses_nothing(
    st0: &DiffLogicState,
    st: &DiffLogicState,
    ctx: &SolvingContext,
)
    requires
        st0.sized(),
        st.forgets(st0),
        forall|e: int, upper: bool|
            0 <= e < st.graph.edges.len() && st.graph.active_at(e, ctx.trail@)
                ==> #[trigger] edge_consistent(&st.graph, ctx, upper, e),
    ensures
        nothing_missed(st, ctx),
        forall|b: usize| !#[trigger] st.fixed_bools@.contains(b),
{
    assert forall|n: int, upper: bool| 0 <= n < st.graph.size() implies (#[trigger] st.propagated(
        upper,
        n,
    )) is None by {
        assert(st.lower_bound[n] is None && st.upper_bound[n] is None);
    }
}

/// Whether every change since the last run is noted, and that run left nothing undone.
pub open spec fn at_rest_before(st: &DiffLogicState, ctx: &SolvingContext) -> bool {
    &&& st.all_noted(ctx)
    &&& st.bounds_passed(ctx, false)
    &&& st.bounds_passed(ctx, true)
    &&& forall|e: int, refuting: bool|
        0 <= e < st.graph.edges.len() && st.graph.edges[e].bool_var is Some
            ==> #[trigger] st.looked_at(ctx, refuting, e)
}

impl DiffLogicState {
    /// Whether the state is the other one without propagated bounds and reports.
    pub open spec fn forgets(&self, other: &DiffLogicState) -> bool {
        &&& self.graph == other.graph
        &&& self.pi == other.pi
        &&& self.backtrace == other.backtrace
        &&& self.visited == other.visited
        &&& self.visited_updates == other.visited_updates
        &&& self.pi_initialized == other.pi_initialized
        &&& self.same_settings(other)
        &&& self.bounds_listed()
        &&& self.lower_bound.len() == other.lower_bound.len()
        &&& self.upper_bound.len() == other.upper_bound.len()
        &&& forall|n: int|
            0 <= n < self.lower_bound.len() ==> (#[trigger] self.lower_bound[n]) is None
        &&& forall|n: int|
            0 <= n < self.upper_bound.len() ==> (#[trigger] self.upper_bound[n]) is None
        &&& forall|k: usize, upper: bool| !#[trigger] self.changes(upper).contains(k)
        &&& forall|b: usize| !#[trigger] self.fixed_bools@.contains(b)
    }

    /// Whether a change of a view was noted: a bound that differs from the propagated one.
    pub open spec fn notes(
        &self,
        before: &DiffLogicState,
        ctx: &SolvingContext,
        data: usize,
        event: IntEvent,
        news: bool,
    ) -> bool {
        let low = (event == IntEvent::LowerBound || event == IntEvent::Fixed) && before.propagated(
            false,
            data as int,
        ) != Some(before.near_node(ctx, false, data as int));
        let high = (event == IntEvent::UpperBound || event == IntEvent::Fixed) && before.propagated(
            true,
            data as int,
        ) != Some(before.near_node(ctx, true, data as int));
        &&& self.changes(false) == if low {
            before.changes(false).insert(data)
        } else {
            before.changes(false)
        }
        &&& self.changes(true) == if high {
            before.changes(true).insert(data)
        } else {
            before.changes(true)
        }
        &&& news == ((low && !before.changes(false).contains(data)) || (high && !before.changes(
            true,
        ).contains(data)))
    }
}

/// Edges that were closed for a reason stay closed for a reason.
pub proof fn lemma_closed_stay_settled(
    st0: &DiffLogicState,
    ctx0: &SolvingContext,
    st: &DiffLogicState,
    ctx: &SolvingContext,
)
    requires
        st0.grounded(ctx0),
        closed_settled(st0, ctx0),
        advances(st0, ctx0, st, ctx),
    ensures
        closed_settled(st, ctx),
{
    st0.graph.lemma_gates();
    assert forall|e: int|
        0 <= e < st.graph.edges.len() && (#[trigger] st.graph.edges[e]).bool_var is Some
            && st.graph.closed_at(e, ctx.trail@) implies settled_edge(st, ctx, e) by {
        assert(st.graph.edges[e].same_but_positions(st0.graph.edges[e]));
        assert(st0.graph.edges[e].bool_var is Some);
        if st0.graph.closed_at(e, ctx0.trail@) {
            assert(ctx0.knows(st0.graph.bool_vars[st0.graph.edges[e].bool_var->0 as int]));
            lemma_settled_later(st0, ctx0, st, ctx, e);
        }
    }
}

/// Whether active edges tell nothing of an open edge.
pub open spec fn untold(st: &DiffLogicState, ctx: &SolvingContext) -> bool {
    forall|e: int|
        0 <= e < st.graph.edges.len() && (#[trigger] st.graph.edges[e]).bool_var is Some
            && !st.graph.closed_at(e, ctx.trail@) ==> !told_by_path(
            &st.graph,
            ctx.trail@,
            st.graph.edges[e],
        )
}

/// An edge of which a path of active edges tells is kept wherever the active edges are, or
/// nowhere.
pub proof fn lemma_told_meaning(graph: &DiffGraph, values: Seq<usize>, edge: DiffEdge)
    requires
        told_by_path(graph, values, edge),
    ensures
        (forall|ints: IntAssignment, bools: BoolAssignment|
            #[trigger] active_kept(graph, values, ints, bools) ==> edge_kept(
                graph,
                edge,
                ints,
                bools,
            )) || (forall|ints: IntAssignment, bools: BoolAssignment|
            #[trigger] active_kept(graph, values, ints, bools) ==> !edge_kept(
                graph,
                edge,
                ints,
                bools,
            )),
{
    let (from, to) = (edge.from as int, edge.to as int);
    if bounded_by_path(graph, values, from, to, edge.val as int) {
        let s = choose|s: Seq<int>| #[trigger]
            is_path(graph, values, from, s) && path_end(graph, from, s) == to && path_value(
                graph,
                s,
            ) <= edge.val;
        assert forall|ints: IntAssignment, bools: BoolAssignment|
            #[trigger] active_kept(graph, values, ints, bools) implies edge_kept(
            graph,
            edge,
            ints,
            bools,
        ) by {
            lemma_path_kept(graph, values, from, s, ints, bools);
        }
    } else {
        let s = choose|s: Seq<int>| #[trigger]
            is_path(graph, values, to, s) && path_end(graph, to, s) == from && path_value(graph, s)
                <= -edge.val - 1;
        assert forall|ints: IntAssignment, bools: BoolAssignment|
            #[trigger] active_kept(graph, values, ints, bools) implies !edge_kept(
            graph,
            edge,
            ints,
            bools,
        ) by {
            lemma_path_kept(graph, values, to, s, ints, bools);
        }
    }
}

/// Where active edges told nothing of an open edge, they tell nothing after a run either, if
/// the run looks for what new active edges imply.
pub proof fn lemma_untold_after_run(
    st0: &DiffLogicState,
    ctx0: &SolvingContext,
    st: &DiffLogicState,
    ctx: &SolvingContext,
)
    requires
        propagation_done(st0, ctx0, st, ctx),
        st0.use_inc_imp,
        untold(st0, ctx0),
    ensures
        untold(st, ctx),
{
    assert forall|e: int|
        0 <= e < st.graph.edges.len() && (#[trigger] st.graph.edges[e]).bool_var is Some
            && !st.graph.closed_at(e, ctx.trail@) implies !told_by_path(
        &st.graph,
        ctx.trail@,
        st.graph.edges[e],
    ) by {
        assert(st.graph.edges[e].same_but_positions(st0.graph.edges[e]));
        assert(st0.graph.edges[e].bool_var is Some);
        assert(!st0.graph.closed_at(e, ctx0.trail@));
        assert(!told_by_path(&st0.graph, ctx0.trail@, st0.graph.edges[e]));
    }
}

/// After the first run the bounds of the nodes are consistent along every active edge, if the
/// nodes are decisions of their own and no gate had been reported.
pub proof fn lemma_first_run_consistent(
    st0: &DiffLogicState,
    ctx0: &SolvingContext,
    st: &DiffLogicState,
    ctx: &SolvingContext,
    e: int,
)
    requires
        !st0.pi_initialized,
        forall|b: usize| !#[trigger] st0.fixed_bools@.contains(b),
        regular(&st0.graph, ctx0),
        propagation_done(st0, ctx0, st, ctx),
        0 <= e < st.graph.edges.len(),
        st.graph.active_at(e, ctx.trail@),
    ensures
        ({
            let (x, y) = (
                st.graph.nodes.int_vars[st.graph.edges[e].from as int],
                st.graph.nodes.int_vars[st.graph.edges[e].to as int],
            );
            let d = st.graph.edges[e].val;
            &&& ctx.view_min(y) >= ctx.view_min(x) - d
            &&& ctx.view_max(x) <= ctx.view_max(y) + d
        }),
{
    st.graph.lemma_edge(e);
    assert forall|upper: bool| #[trigger] st.passes(ctx, upper, e) && st.propagated(
        upper,
        tail(st.graph.edges[e], upper),
    ) == Some(st.near_node(ctx, upper, tail(st.graph.edges[e], upper))) by {
        assert(bounds_followed(st0, ctx0, st, ctx, upper));
        assert(raised(st0, ctx0, ctx, upper, tail(st.graph.edges[e], upper)));
    }
    assert(st.passes(ctx, false, e) && st.passes(ctx, true, e));
}

/// After the first run the gating view of an edge is fixed not to hold if the bounds of the ends
/// rule the edge out, under the same conditions.
pub proof fn lemma_first_run_refutes(
    st0: &DiffLogicState,
    ctx0: &SolvingContext,
    st: &DiffLogicState,
    ctx: &SolvingContext,
    e: int,
)
    requires
        !st0.pi_initialized,
        forall|b: usize| !#[trigger] st0.fixed_bools@.contains(b),
        regular(&st0.graph, ctx0),
        propagation_done(st0, ctx0, st, ctx),
        0 <= e < st.graph.edges.len(),
        st.graph.edges[e].bool_var is Some,
        !st0.graph.closed_at(e, ctx0.trail@),
        ({
            let (x, y) = (
                st.graph.nodes.int_vars[st.graph.edges[e].from as int],
                st.graph.nodes.int_vars[st.graph.edges[e].to as int],
            );
            ctx.view_min(x) - ctx.view_max(y) > st.graph.edges[e].val
        }),
    ensures
        ctx.decides(st.graph.bool_vars[st.graph.edges[e].bool_var->0 as int], false),
{
    st.graph.lemma_edge(e);
    let edge = st.graph.edges[e];
    let (from, to) = (edge.from as int, edge.to as int);
    assert(edge.same_but_positions(st0.graph.edges[e]));
    assert(st0.graph.edges[e].bool_var is Some);
    assert(bounds_followed(st0, ctx0, st, ctx, false) && bounds_followed(
        st0,
        ctx0,
        st,
        ctx,
        true,
    ));
    assert(raised(st0, ctx0, ctx, false, from) && raised(st0, ctx0, ctx, true, to));
    assert(st.looked_at(ctx, true, e));
    assert(st.graph.closed_at(e, ctx.trail@));
    assert(settled_edge(st, ctx, e));
    assert(ctx.has_view(st.graph.nodes.int_vars[from]) && ctx.has_view(
        st.graph.nodes.int_vars[to],
    ));
    lemma_view_bounds_ordered(ctx, st.graph.nodes.int_vars[to]);
    if st.graph.active_at(e, ctx.trail@) {
        lemma_first_run_consistent(st0, ctx0, st, ctx, e);
    }
    let ints: IntAssignment = |v: int| ctx.ints[v].lb as int;
    let bools: BoolAssignment = |b: int|
        match ctx.bools[b] {
            Some(v) => v,
            None => false,
        };
    assert(ctx.admits(ints, bools)) by {
        assert forall|v: int| 0 <= v < ctx.ints.len() implies (#[trigger] ctx.ints[v]).has(
            ints(v),
        ) by {
            assert(ctx.ints[v].wf());
        }
    }
    assert forall|n: int| 0 <= n < st.graph.size() implies #[trigger] node_value(
        &st.graph,
        n,
        ints,
        bools,
    ) == ctx.view_min(st.graph.nodes.int_vars[n]) by {
        assert(plain(ctx0, st0.graph.nodes.int_vars[n]));
    }
    assert(active_kept(&st.graph, ctx.trail@, ints, bools)) by {
        assert forall|k: int|
            0 <= k < st.graph.edges.len() && #[trigger] st.graph.active_at(
                k,
                ctx.trail@,
            ) implies edge_kept(&st.graph, st.graph.edges[k], ints, bools) by {
            lemma_first_run_consistent(st0, ctx0, st, ctx, k);
            st.graph.lemma_edge(k);
        }
    }
    assert(!edge_kept(&st.graph, edge, ints, bools));
}

proof fn lemma_followed_same(
    st0: &DiffLogicState,
    ctx0: &SolvingContext,
    st1: &DiffLogicState,
    st: &DiffLogicState,
    ctx: &SolvingContext,
    upper: bool,
)
    requires
        bounds_followed(st0, ctx0, st1, ctx, upper),
        st.graph == st1.graph,
        forall|k: int, u: bool| #[trigger] st.propagated(u, k) == st1.propagated(u, k),
    ensures
        bounds_followed(st0, ctx0, st, ctx, upper),
{
    assert forall|e: int| #[trigger] st.passes(ctx, upper, e) == st1.passes(ctx, upper, e) by {
        assert(st.propagated(upper, tail(st.graph.edges[e], upper)) == st1.propagated(
            upper,
            tail(st.graph.edges[e], upper),
        ));
    }
    assert forall|k: int|
        regular(&st0.graph, ctx0) && 0 <= k < st0.graph.size() && #[trigger] raised(
            st0,
            ctx0,
            ctx,
            upper,
            k,
        ) implies st.propagated(upper, k) == Some(st.near_node(ctx, upper, k)) by {
        assert(st1.propagated(upper, k) == Some(st1.near_node(ctx, upper, k)));
    }
}

/// After its first run the propagator has nothing left to infer from the bounds.
pub proof fn lemma_first_run_rests(
    st0: &DiffLogicState,
    ctx0: &SolvingContext,
    st: &DiffLogicState,
    ctx: &SolvingContext,
)
    requires
        st0.in_order(ctx0),
        !st0.pi_initialized,
        closed_settled(st0, ctx0),
        ungated_active(&st0.graph, ctx0.trail@),
        propagation_done(st0, ctx0, st, ctx),
    ensures
        at_rest(st, ctx),
        forall|n: int, upper: bool|
            0 <= n < st.graph.size() ==> (#[trigger] st.propagated(upper, n)) is Some,
{
    lemma_closed_stay_settled(st0, ctx0, st, ctx);
    assert forall|e: int|
        0 <= e < st.graph.edges.len() && (#[trigger] st.graph.edges[e]).bool_var
            is None implies st.graph.active_at(e, ctx.trail@) by {
        assert(st.graph.edges[e].same_but_positions(st0.graph.edges[e]));
        assert(st0.graph.active_at(e, ctx0.trail@));
    }
    assert forall|e: int|
        0 <= e < st.graph.edges.len() && #[trigger] st.graph.active_at(e, ctx.trail@) implies
        st.passes(ctx, false, e) && st.passes(ctx, true, e) by {}
    assert forall|e: int, refuting: bool|
        0 <= e < st.graph.edges.len() && st.graph.edges[e].bool_var is Some implies
        #[trigger] st.looked_at(ctx, refuting, e) by {}
}

/// When the propagator has nothing left to infer and has propagated the values of all nodes,
/// the difference constraints are kept.
pub proof fn lemma_fixed_at_rest_is_kept(
    st: &DiffLogicState,
    ctx: &SolvingContext,
    ints: IntAssignment,
    bools: BoolAssignment,
)
    requires
        at_rest(st, ctx),
        forall|n: int, upper: bool|
            0 <= n < st.graph.size() ==> #[trigger] st.propagated(upper, n) == Some(
                if upper {
                    -node_value(&st.graph, n, ints, bools)
                } else {
                    node_value(&st.graph, n, ints, bools)
                },
            ),
        ctx.admits(ints, bools),
    ensures
        diff_rule(&st.graph)(ints, bools),
{
    assert forall|e: int|
        0 <= e < st.graph.edges.len() && #[trigger] st.graph.active_at(
            e,
            ctx.trail@,
        ) implies edge_kept(&st.graph, st.graph.edges[e], ints, bools) by {
        st.graph.lemma_edge(e);
        let edge = st.graph.edges[e];
        assert(st.passes(ctx, false, e));
        assert(st.propagated(false, edge.from as int) is Some);
        assert(ctx.has_view(st.graph.nodes.int_vars[edge.to as int]));
        lemma_view_bounds(ctx, st.graph.nodes.int_vars[edge.to as int], ints, bools);
    }
    assert(active_kept(&st.graph, ctx.trail@, ints, bools));
    assert forall|e: int|
        0 <= e < st.graph.edges.len() && gate_holds(
            &st.graph,
            #[trigger] st.graph.edges[e],
            ints,
            bools,
        ) implies edge_kept(&st.graph, st.graph.edges[e], ints, bools) by {
        st.graph.lemma_edge(e);
        let edge = st.graph.edges[e];
        match edge.bool_var {
            None => {
                assert(st.graph.active_at(e, ctx.trail@));
            },
            Some(b) => {
                assert(st.looked_at(ctx, true, e));
                assert(st.propagated(false, edge.from as int) is Some);
                assert(st.propagated(true, edge.to as int) is Some);
                if st.graph.closed_at(e, ctx.trail@) {
                    assert(settled_edge(st, ctx, e));
                    assert(ctx.knows(st.graph.bool_vars[b as int]));
                    if ctx.decides(st.graph.bool_vars[b as int], false) {
                        lemma_decided_holds(ctx, st.graph.bool_vars[b as int], ints, bools);
                    }
                }
            },
        }
    }
}

/// After backtracking the state is in order, even if there was a conflict: the potentials keep
/// the edges that are active then. What the propagator must know of the earlier level is that
/// the gates of the edges that were active were fixed, and that these edges were closed.
pub proof fn lemma_backtrack_restores(
    st0: &DiffLogicState,
    ctx0: &SolvingContext,
    st: &DiffLogicState,
    ctx: &SolvingContext,
    level: int,
)
    requires
        st0.kept(ctx0),
        st.forgets(st0),
        ctx.wf(),
        0 <= level < ctx0.trail.depth(),
        ctx.trail@ == ctx0.trail.saved(level),
        ctx.trail@.len() == ctx0.trail@.len(),
        ctx.trail.depth() == level,
        forall|l: int|
            0 <= l < level ==> #[trigger] ctx.trail.saved(l) == ctx0.trail.saved(l),
        forall|n: int|
            0 <= n < st.graph.size() ==> ctx.has_view(#[trigger] st.graph.nodes.int_vars[n]),
        forall|b: int|
            0 <= b < st.graph.bool_vars.len() ==> ctx.knows(#[trigger] st.graph.bool_vars[b]),
        gates_fixed(&st.graph, ctx),
        active_closed(&st.graph, ctx.trail@),
    ensures
        st.in_order(ctx),
{
    lemma_backtrack_keeps_graph(&st.graph, &ctx0.trail, &ctx.trail, level);
    assert forall|b: int| 0 <= b < st.graph.bool_vars.len() implies gate_bounded(
        #[trigger] st.graph.bool_vars[b],
    ) by {
        assert(ctx0.knows(st0.graph.bool_vars[b]) && gate_bounded(st0.graph.bool_vars[b]));
    }
    assert forall|n: int, u: bool| 0 <= n < st.graph.size() implies (#[trigger] st.propagated(
        u,
        n,
    )) is None by {
        assert(st.lower_bound[n] is None && st.upper_bound[n] is None);
    }
    let saved = ctx0.trail.saved(level);
    assert forall|e: int|
        0 <= e < st.graph.edges.len() && #[trigger] st.graph.active_at(e, saved) implies
        st.graph.active_at(e, ctx0.trail@) by {
        assert(st.graph.below(saved, ctx0.trail@));
        st.graph.lemma_active_below(saved, ctx0.trail@, e);
    }
    if st.pi_initialized {
        let x = choose|x: int| #[trigger]
            st0.pi_valid_but(ctx0.trail@, x) && (0 <= x < st0.graph.edges.len() ==> forall|l: int|
                0 <= l < ctx0.trail.depth() ==> !st0.graph.active_at(
                    x,
                    #[trigger] ctx0.trail.saved(l),
                ));
        assert forall|e: int|
            0 <= e < st.graph.edges.len() && e != -1 && #[trigger] st.graph.active_at(
                e,
                ctx.trail@,
            ) implies st.pi_keeps(st.graph.edges[e]) by {
            assert(!st0.graph.active_at(x, ctx0.trail.saved(level)) || !(0 <= x
                < st0.graph.edges.len()));
            assert(st0.graph.active_at(e, ctx0.trail@));
            assert(st0.pi_keeps(st0.graph.edges[e]));
        }
        assert(st.pi_valid_but(ctx.trail@, -1));
    } else {
        assert forall|e: int|
            0 <= e < st.graph.edges.len() && #[trigger] st.graph.active_at(
                e,
                ctx.trail@,
            ) implies st.graph.edges[e].bool_var is None by {
            assert(st0.graph.active_at(e, ctx0.trail@));
        }
    }
}

/// Changing a value of the trail that the graph does not use keeps everything in order.
pub proof fn lemma_foreign_value_in_order(
    st: &DiffLogicState,
    ctx0: &SolvingContext,
    ctx: &SolvingContext,
    slot: usize,
)
    requires
        st.in_order(ctx0),
        ctx.wf(),
        ctx.same_but_trail(ctx0),
        slot < ctx0.trail@.len(),
        !st.graph.owner@.dom().contains(slot),
        ctx.trail@ == ctx0.trail@.update(slot as int, ctx.trail@[slot as int]),
        ctx.trail.same_history(&ctx0.trail),
    ensures
        st.in_order(ctx),
{
    assert(untouched(&st.graph, ctx0.trail@, ctx.trail@)) by {
        reveal(DiffGraph::good_at);
    }
    lemma_untouched_wf(&st.graph, &ctx0.trail, &ctx.trail);
    lemma_same_in_order(st, ctx0, ctx);
}

/// A trail under which the same edges are active and closed keeps everything in order.
proof fn lemma_same_in_order(st: &DiffLogicState, ctx0: &SolvingContext, ctx: &SolvingContext)
    requires
        st.in_order(ctx0),
        ctx.wf(),
        ctx.same_but_trail(ctx0),
        st.graph.wf(&ctx.trail),
        same_edges(&st.graph, ctx0.trail@, &st.graph, ctx.trail@),
    ensures
        st.in_order(ctx),
{
    assert(st.grown_from(st)) by {
        assert(st.sized());
    }
    lemma_grown_in_order(st, ctx0, st, ctx);
}

/// Tracking another value keeps everything in order.
pub proof fn lemma_tracked_in_order(
    st: &DiffLogicState,
    ctx0: &SolvingContext,
    ctx: &SolvingContext,
    x: usize,
)
    requires
        st.in_order(ctx0),
        ctx.wf(),
        ctx.same_but_trail(ctx0),
        ctx.trail@ == ctx0.trail@.push(x),
        ctx.trail.depth() == ctx0.trail.depth(),
        forall|l: int|
            0 <= l < ctx0.trail.depth() ==> #[trigger] ctx.trail.saved(l) == ctx0.trail.saved(
                l,
            ).push(x),
    ensures
        st.in_order(ctx),
        !st.graph.owner@.dom().contains(ctx0.trail@.len() as usize) || ctx0.trail@.len()
            > usize::MAX,
{
    lemma_tracked_wf(&st.graph, &ctx0.trail, &ctx.trail, x);
    lemma_same_in_order(st, ctx0, ctx);
}

/// Whether the state is in order depends on the domains and the trail alone.
pub proof fn lemma_in_order_same(st: &DiffLogicState, ctx0: &SolvingContext, ctx: &SolvingContext)
    requires
        st.in_order(ctx0),
        ctx.ints == ctx0.ints,
        ctx.bools == ctx0.bools,
        ctx.trail == ctx0.trail,
    ensures
        st.in_order(ctx),
{
    assert(ctx.wf());
    assert(st.grown_from(st)) by {
        assert(st.sized());
    }
    lemma_grown_in_order(st, ctx0, st, ctx);
}

} // verus!
