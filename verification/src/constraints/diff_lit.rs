//! Literals that hold if and only if the difference of two decisions is within a bound. They
//! are created when they are first asked for.

use vstd::prelude::*;

use crate::constraints::diff_graph::{lemma_same_edges_join, owner_grown, same_edges, DiffGraph};
use crate::constraints::diff_propagator::{lemma_grown_in_order, lemma_grown_join};
use crate::constraints::diff_propagation::lemma_sound_narrowed;
use crate::constraints::difference_logic::{
    diff_rule, edge_kept, gate_holds, lemma_grounded_narrowed, DiffLogicState,
};
use crate::helpers::shortest::weight_room;
use crate::solver::diff_lits::{bound_in, increasing, is_above, is_below, lit_in, DiffLits};
use crate::solver::reason::{Conflict, ReasonBuilder};
use crate::solver::solving_context::{
    AdvisorDef, BoolActivation, IntActivation, IntPropCond, Rule, SolvingContext, State,
    Statistics,
};
use crate::solver::view::{
    BoolAssignment, BoolView, IntAssignment, IntVal, IntView, Lit, INT_LIMIT,
};

verus! {

/// The bound of the negated difference literal: a difference is greater than `d` if and only
/// if the opposite difference is at most that.
pub open spec fn opposite_bound(d: int) -> int {
    -d - 1
}

/// Whether the graph has the edge from the decision `x` to the decision `y` with the gating view.
pub open spec fn has_edge(graph: &DiffGraph, x: usize, y: usize, d: int, gate: BoolView) -> bool {
    exists|e: int| 0 <= e < graph.edges.len() && #[trigger] is_edge(graph, e, x, y, d, gate)
}

/// Whether the edge leads from the decision `x` to the decision `y` and has the gating view.
pub open spec fn is_edge(
    graph: &DiffGraph,
    e: int,
    x: usize,
    y: usize,
    d: int,
    gate: BoolView,
) -> bool {
    let edge = graph.edges[e];
    &&& edge.from < graph.size()
    &&& edge.to < graph.size()
    &&& graph.nodes.int_vars[edge.from as int] == IntView::decision(x)
    &&& graph.nodes.int_vars[edge.to as int] == IntView::decision(y)
    &&& edge.val == d
    &&& edge.bool_var is Some
    &&& edge.bool_var->0 < graph.bool_vars.len()
    &&& graph.bool_vars[edge.bool_var->0 as int] == gate
}

/// Whether the graph ties the literal to the bound of the difference, both ways.
pub open spec fn reified(graph: &DiffGraph, x: usize, y: usize, d: int, lit: Lit) -> bool {
    &&& has_edge(graph, x, y, d, BoolView::Lit(lit))
    &&& has_edge(graph, y, x, opposite_bound(d), BoolView::Lit(lit.negate()))
}

/// Whether the negation of the literal, if it is one of the bound, is the one of the opposite
/// bound.
pub open spec fn mirrored_at(lits: &DiffLits, x: usize, y: usize, d: int, lit: Lit) -> bool {
    lit_in(lits.chain(x, y), d, lit) <==> lit_in(
        lits.chain(y, x),
        opposite_bound(d),
        lit.negate(),
    )
}

/// Whether the literals of each pair are the negations of those of the reversed pair.
pub open spec fn mirrored(lits: &DiffLits) -> bool {
    forall|x: usize, y: usize, d: int, lit: Lit| #[trigger] mirrored_at(lits, x, y, d, lit)
}

/// Whether the graph ties every literal to its bound, and the literals of reversed pairs mirror
/// each other.
pub open spec fn lits_stand(lits: &DiffLits, graph: &DiffGraph) -> bool {
    &&& lits.wf()
    &&& mirrored(lits)
    &&& forall|x: usize, y: usize, d: int, lit: Lit| #[trigger]
        lit_in(lits.chain(x, y), d, lit) ==> reified(graph, x, y, d, lit)
}

/// A literal that the graph ties to a bound holds if and only if the difference is within the
/// bound.
pub proof fn lemma_diff_lit_meaning(
    graph: &DiffGraph,
    x: usize,
    y: usize,
    d: int,
    lit: Lit,
    ints: IntAssignment,
    bools: BoolAssignment,
)
    requires
        reified(graph, x, y, d, lit),
        diff_rule(graph)(ints, bools),
    ensures
        lit.holds(bools) <==> ints(x as int) - ints(y as int) <= d,
{
    let e = choose|e: int|
        0 <= e < graph.edges.len() && #[trigger] is_edge(graph, e, x, y, d, BoolView::Lit(lit));
    let f = choose|f: int|
        0 <= f < graph.edges.len() && #[trigger] is_edge(
            graph,
            f,
            y,
            x,
            opposite_bound(d),
            BoolView::Lit(lit.negate()),
        );
    if lit.holds(bools) {
        assert(gate_holds(graph, graph.edges[e], ints, bools));
        assert(edge_kept(graph, graph.edges[e], ints, bools));
    } else {
        assert(lit.negate().holds(bools));
        assert(gate_holds(graph, graph.edges[f], ints, bools));
        assert(edge_kept(graph, graph.edges[f], ints, bools));
    }
}

/// Of two literals of the same difference, the one with the smaller bound implies the other
/// one.
pub proof fn lemma_diff_lits_ordered(
    graph: &DiffGraph,
    x: usize,
    y: usize,
    d: int,
    lit: Lit,
    e: int,
    other: Lit,
    ints: IntAssignment,
    bools: BoolAssignment,
)
    requires
        reified(graph, x, y, d, lit),
        reified(graph, x, y, e, other),
        d <= e,
        diff_rule(graph)(ints, bools),
    ensures
        lit.holds(bools) ==> other.holds(bools),
{
    lemma_diff_lit_meaning(graph, x, y, d, lit, ints, bools);
    lemma_diff_lit_meaning(graph, x, y, e, other, ints, bools);
}

/// Edges stay when the graph grows.
proof fn lemma_edge_stays(
    g: &DiffLogicState,
    values: Seq<usize>,
    h: &DiffLogicState,
    later: Seq<usize>,
    x: usize,
    y: usize,
    d: int,
    gate: BoolView,
)
    requires
        h.grown_from(g),
        same_edges(&g.graph, values, &h.graph, later),
        has_edge(&g.graph, x, y, d, gate),
    ensures
        has_edge(&h.graph, x, y, d, gate),
{
    let e = choose|e: int|
        0 <= e < g.graph.edges.len() && #[trigger] is_edge(&g.graph, e, x, y, d, gate);
    assert(g.graph.edges[e].same_but_positions(h.graph.edges[e]));
    let edge = g.graph.edges[e];
    assert(h.graph.nodes.int_vars[edge.from as int] == g.graph.nodes.int_vars[edge.from as int]);
    assert(h.graph.nodes.int_vars[edge.to as int] == g.graph.nodes.int_vars[edge.to as int]);
    assert(h.graph.bool_vars[edge.bool_var->0 as int] == g.graph.bool_vars[edge.bool_var->0 as int]);
    assert(is_edge(&h.graph, e, x, y, d, gate));
}

/// The contents of the clauses.
pub open spec fn clause_views(clauses: Seq<Vec<Lit>>) -> Seq<Seq<Lit>> {
    clauses.map_values(|c: Vec<Lit>| c@)
}

/// The clauses that tie a new literal to those of the next smaller and the next larger bound:
/// a smaller difference is within a larger bound.
pub open spec fn chain_clauses(prev: Option<Lit>, lit: Lit, next: Option<Lit>) -> Seq<Seq<Lit>> {
    let first = match prev {
        Some(p) => seq![seq![p.negate(), lit]],
        None => Seq::empty(),
    };
    let second = match next {
        Some(n) => seq![seq![lit.negate(), n]],
        None => Seq::empty(),
    };
    first + second
}

/// Whether the advisors and what they wait for are those of the other state, and maybe more.
pub open spec fn advisors_grow(before: &State, after: &State) -> bool {
    &&& before.advisors.len() <= after.advisors.len()
    &&& forall|i: int|
        0 <= i < before.advisors.len() ==> #[trigger] after.advisors[i] == before.advisors[i]
    &&& before.int_activation.len() <= after.int_activation.len()
    &&& forall|i: int|
        0 <= i < before.int_activation.len() ==> #[trigger] after.int_activation[i]
            == before.int_activation[i]
    &&& before.bool_activation.len() <= after.bool_activation.len()
    &&& forall|i: int|
        0 <= i < before.bool_activation.len() ==> #[trigger] after.bool_activation[i]
            == before.bool_activation[i]
}

/// Whether an advisor waits for the integer decision.
pub open spec fn int_advised(
    state: &State,
    var: usize,
    cond: IntPropCond,
    advisor: AdvisorDef,
) -> bool {
    exists|i: int|
        0 <= i < state.int_activation.len() && (#[trigger] state.int_activation[i]).var == var
            && state.int_activation[i].cond == cond && state.int_activation[i].advisor
            < state.advisors.len() && state.advisors[state.int_activation[i].advisor as int]
            == advisor
}

/// Whether an advisor waits for the Boolean view.
pub open spec fn bool_advised(state: &State, view: BoolView, advisor: AdvisorDef) -> bool {
    exists|i: int|
        0 <= i < state.bool_activation.len() && (#[trigger] state.bool_activation[i]).view == view
            && state.bool_activation[i].advisor < state.advisors.len()
            && state.advisors[state.bool_activation[i].advisor as int] == advisor
}

proof fn lemma_advised_stay(before: &State, after: &State)
    requires
        advisors_grow(before, after),
    ensures
        forall|var: usize, cond: IntPropCond, a: AdvisorDef| #[trigger]
            int_advised(before, var, cond, a) ==> int_advised(after, var, cond, a),
        forall|view: BoolView, a: AdvisorDef| #[trigger]
            bool_advised(before, view, a) ==> bool_advised(after, view, a),
{
    assert forall|var: usize, cond: IntPropCond, a: AdvisorDef| #[trigger]
        int_advised(before, var, cond, a) implies int_advised(after, var, cond, a) by {
        let i = choose|i: int|
            0 <= i < before.int_activation.len() && (#[trigger] before.int_activation[i]).var == var
                && before.int_activation[i].cond == cond && before.int_activation[i].advisor
                < before.advisors.len() && before.advisors[before.int_activation[i].advisor as int]
                == a;
        assert(after.int_activation[i] == before.int_activation[i]);
        assert(after.advisors[before.int_activation[i].advisor as int] == a);
    }
    assert forall|view: BoolView, a: AdvisorDef| #[trigger]
        bool_advised(before, view, a) implies bool_advised(after, view, a) by {
        let i = choose|i: int|
            0 <= i < before.bool_activation.len() && (#[trigger] before.bool_activation[i]).view
                == view && before.bool_activation[i].advisor < before.advisors.len()
                && before.advisors[before.bool_activation[i].advisor as int] == a;
        assert(after.bool_activation[i] == before.bool_activation[i]);
        assert(after.advisors[before.bool_activation[i].advisor as int] == a);
    }
}

/// The view by which a literal is waited for.
pub open spec fn waited(view: BoolView) -> BoolView {
    match view {
        BoolView::Lit(l) => BoolView::Lit(Lit { var: l.var, negated: false }),
        _ => view,
    }
}

impl SolvingContext {
    /// Whether nothing differs but the advisors.
    pub open spec fn same_but_advisors(&self, other: &SolvingContext) -> bool {
        &&& self.ints == other.ints
        &&& self.bools == other.bools
        &&& self.propagation_queue == other.propagation_queue
        &&& self.trail == other.trail
        &&& self.current_prop == other.current_prop
        &&& self.state.clauses == other.state.clauses
        &&& self.state.diff_lits == other.state.diff_lits
        &&& self.state.propagator_queue == other.state.propagator_queue
        &&& self.state.failed == other.state.failed
        &&& self.state.conflict == other.state.conflict
        &&& self.state.statistics == other.state.statistics
        &&& self.state.assigned == other.state.assigned
        &&& advisors_grow(&other.state, &self.state)
    }

    /// Have the propagator told when the view is fixed. Nothing is done for a view that is
    /// fixed already, or for a constant.
    pub fn subscribe_diff_logic_bool_fixed_advisor(
        &mut self,
        prop_ref: usize,
        view: BoolView,
        data: u64,
    )
        requires
            old(self).wf(),
            old(self).knows(view),
        ensures
            final(self).wf(),
            final(self).same_but_advisors(old(self)),
            final(self).state.int_activation == old(self).state.int_activation,
            if view is Const || old(self).decides(view, true) || old(self).decides(view, false) {
                *final(self) == *old(self)
            } else {
                &&& final(self).state.advisors@ == old(self).state.advisors@.push(
                    AdvisorDef { bool2int: false, data, negated: false, propagator: prop_ref },
                )
                &&& final(self).state.bool_activation@ == old(self).state.bool_activation@.push(
                    BoolActivation {
                        view: waited(view),
                        advisor: old(self).state.advisors.len(),
                    },
                )
                &&& bool_advised(
                    &final(self).state,
                    waited(view),
                    AdvisorDef { bool2int: false, data, negated: false, propagator: prop_ref },
                )
            },
    {
        let target: BoolView = match view {
            BoolView::Const(_) => {
                return ;
            },
            BoolView::Lit(l) => BoolView::Lit(Lit { var: l.var, negated: false }),
            BoolView::Int(v, m) => BoolView::Int(v, m),
        };
        if self.val(view).is_some() {
            return ;
        }
        let advisor: usize = self.state.advisors.len();
        self.state.advisors.push(
            AdvisorDef { bool2int: false, data, negated: false, propagator: prop_ref },
        );
        self.state.bool_activation.push(BoolActivation { view: target, advisor });
        proof {
            let i = self.state.bool_activation.len() - 1;
            assert(self.state.bool_activation[i].view == waited(view));
        }
    }

    /// Have the propagator told when a bound of the view changes. Nothing is done for a
    /// constant, or for a literal that is fixed already.
    pub fn subscribe_diff_logic_int_bounds_advisor(
        &mut self,
        prop_ref: usize,
        view: IntView,
        data: u64,
    )
        requires
            old(self).wf(),
            old(self).has_view(view),
        ensures
            final(self).wf(),
            final(self).same_but_advisors(old(self)),
            match view {
                IntView::Const(_) => *final(self) == *old(self),
                IntView::Linear { var, scale, .. } => {
                    let def = AdvisorDef {
                        bool2int: false,
                        data,
                        negated: scale < 0,
                        propagator: prop_ref,
                    };
                    &&& final(self).state.advisors@ == old(self).state.advisors@.push(def)
                    &&& final(self).state.int_activation@ == old(self).state.int_activation@.push(
                        IntActivation {
                            var,
                            advisor: old(self).state.advisors.len(),
                            cond: IntPropCond::Bounds,
                        },
                    )
                    &&& final(self).state.bool_activation == old(self).state.bool_activation
                    &&& int_advised(&final(self).state, var, IntPropCond::Bounds, def)
                },
                IntView::Bool { lit, .. } => if old(self).bools[lit.var as int] is Some {
                    *final(self) == *old(self)
                } else {
                    let def = AdvisorDef {
                        bool2int: true,
                        data,
                        negated: false,
                        propagator: prop_ref,
                    };
                    &&& final(self).state.advisors@ == old(self).state.advisors@.push(def)
                    &&& final(self).state.bool_activation@ == old(self).state.bool_activation@.push(
                        BoolActivation {
                            view: waited(BoolView::Lit(lit)),
                            advisor: old(self).state.advisors.len(),
                        },
                    )
                    &&& final(self).state.int_activation == old(self).state.int_activation
                    &&& bool_advised(&final(self).state, waited(BoolView::Lit(lit)), def)
                },
            },
    {
        match view {
            IntView::Const(_) => {},
            IntView::Linear { var, scale, .. } => {
                let advisor: usize = self.state.advisors.len();
                self.state.advisors.push(
                    AdvisorDef { bool2int: false, data, negated: scale < 0, propagator: prop_ref },
                );
                self.state.int_activation.push(
                    IntActivation { var, advisor, cond: IntPropCond::Bounds },
                );
                proof {
                    let i = self.state.int_activation.len() - 1;
                    assert(self.state.int_activation[i].var == var);
                }
            },
            IntView::Bool { lit, .. } => {
                if self.bools[lit.var].is_some() {
                    return ;
                }
                let advisor: usize = self.state.advisors.len();
                self.state.advisors.push(
                    AdvisorDef { bool2int: true, data, negated: false, propagator: prop_ref },
                );
                self.state.bool_activation.push(
                    BoolActivation {
                        view: BoolView::Lit(Lit { var: lit.var, negated: false }),
                        advisor,
                    },
                );
                proof {
                    let i = self.state.bool_activation.len() - 1;
                    assert(self.state.bool_activation[i].view == waited(BoolView::Lit(lit)));
                }
            },
        }
    }
}

/// A literal that the graph ties to a bound is one of the context.
proof fn lemma_reified_known(
    st: &DiffLogicState,
    ctx: &SolvingContext,
    x: usize,
    y: usize,
    d: int,
    lit: Lit,
)
    requires
        st.grounded(ctx),
        reified(&st.graph, x, y, d, lit),
    ensures
        ctx.knows(BoolView::Lit(lit)),
{
    let e = choose|e: int|
        0 <= e < st.graph.edges.len() && #[trigger] is_edge(
            &st.graph,
            e,
            x,
            y,
            d,
            BoolView::Lit(lit),
        );
    assert(ctx.knows(st.graph.bool_vars[st.graph.edges[e].bool_var->0 as int]));
}

/// What adding a literal to the chain of a pair does.
spec fn lit_added(
    before: &DiffLits,
    after: &DiffLits,
    x: usize,
    y: usize,
    d: int,
    lit: Lit,
) -> bool {
    &&& forall|a: usize, b: usize|
        (a, b) != (x, y) ==> #[trigger] after.chain(a, b) == before.chain(a, b)
    &&& forall|e: int, l: Lit|
        #![trigger lit_in(after.chain(x, y), e, l)]
        lit_in(after.chain(x, y), e, l) <==> (e == d && l == lit) || lit_in(
            before.chain(x, y),
            e,
            l,
        )
}

/// Adding a literal leaves the opposite bound without one.
proof fn lemma_still_unbound(
    before: &DiffLits,
    after: &DiffLits,
    x: usize,
    y: usize,
    d: int,
    lit: Lit,
)
    requires
        lit_added(before, after, x, y, d, lit),
        !bound_in(before.chain(y, x), opposite_bound(d)),
    ensures
        !bound_in(after.chain(y, x), opposite_bound(d)),
{
    let e = opposite_bound(d);
    if bound_in(after.chain(y, x), e) && x == y {
        let chain = after.chain(x, y);
        let i = choose|i: int| 0 <= i < chain.len() && #[trigger] chain[i].d == e;
        assert(lit_in(chain, e, chain[i].lit));
        assert(lit_in(before.chain(x, y), e, chain[i].lit));
        let old_chain = before.chain(x, y);
        let j = choose|j: int|
            0 <= j < old_chain.len() && #[trigger] old_chain[j].d == e && old_chain[j].lit
                == chain[i].lit;
        assert(bound_in(old_chain, e));
    }
}

/// Adding a literal for both directions.
proof fn lemma_two_added(
    lits0: &DiffLits,
    lits1: &DiffLits,
    lits2: &DiffLits,
    x: usize,
    y: usize,
    d: int,
    lit: Lit,
)
    requires
        lit_added(lits0, lits1, x, y, d, lit),
        lit_added(lits1, lits2, y, x, opposite_bound(d), lit.negate()),
    ensures
        forall|a: usize, b: usize, e: int, l: Lit|
            #![trigger lit_in(lits2.chain(a, b), e, l)]
            lit_in(lits2.chain(a, b), e, l) <==> lit_in(lits0.chain(a, b), e, l) || ((a, b) == (
            x,
            y,
        ) && e == d && l == lit) || ((a, b) == (y, x) && e == opposite_bound(d) && l
                == lit.negate()),
{
    assert forall|a: usize, b: usize, e: int, l: Lit|
        #![trigger lit_in(lits2.chain(a, b), e, l)]
        lit_in(lits2.chain(a, b), e, l) <==> lit_in(lits0.chain(a, b), e, l) || ((a, b) == (x, y)
            && e == d && l == lit) || ((a, b) == (y, x) && e == opposite_bound(d) && l
            == lit.negate()) by {
        assert(lit_in(lits1.chain(a, b), e, l) <==> lit_in(lits0.chain(a, b), e, l) || ((a, b) == (
            x,
            y,
        ) && e == d && l == lit)) by {
            if (a, b) != (x, y) {
                assert(lits1.chain(a, b) == lits0.chain(a, b));
            }
        }
        if (a, b) != (y, x) {
            assert(lits2.chain(a, b) == lits1.chain(a, b));
        }
    }
}

/// The graph ties every literal to its bound after one was added.
proof fn lemma_lits_stand(
    st0: &DiffLogicState,
    values: Seq<usize>,
    st: &DiffLogicState,
    later: Seq<usize>,
    lits0: &DiffLits,
    lits: &DiffLits,
    x: usize,
    y: usize,
    d: int,
    lit: Lit,
)
    requires
        lits_stand(lits0, &st0.graph),
        lits.wf(),
        st.grown_from(st0),
        same_edges(&st0.graph, values, &st.graph, later),
        has_edge(&st.graph, x, y, d, BoolView::Lit(lit)),
        has_edge(&st.graph, y, x, opposite_bound(d), BoolView::Lit(lit.negate())),
        forall|a: usize, b: usize, e: int, l: Lit|
            #![trigger lit_in(lits.chain(a, b), e, l)]
            lit_in(lits.chain(a, b), e, l) <==> lit_in(lits0.chain(a, b), e, l) || ((a, b) == (x, y)
                && e == d && l == lit) || ((a, b) == (y, x) && e == opposite_bound(d) && l
                == lit.negate()),
    ensures
        lits_stand(lits, &st.graph),
        reified(&st.graph, x, y, d, lit),
{
    assert forall|a: usize, b: usize, e: int, l: Lit| #[trigger]
        lit_in(lits.chain(a, b), e, l) implies reified(&st.graph, a, b, e, l) by {
        if lit_in(lits0.chain(a, b), e, l) {
            assert(reified(&st0.graph, a, b, e, l));
            lemma_edge_stays(st0, values, st, later, a, b, e, BoolView::Lit(l));
            lemma_edge_stays(
                st0,
                values,
                st,
                later,
                b,
                a,
                opposite_bound(e),
                BoolView::Lit(l.negate()),
            );
        } else if (a, b) == (x, y) && e == d && l == lit {
        } else {
            assert(opposite_bound(e) == d);
            assert(l.negate() == lit);
        }
    }
    assert forall|a: usize, b: usize, e: int, l: Lit| #[trigger] mirrored_at(lits, a, b, e, l) by {
        assert(mirrored_at(lits0, a, b, e, l));
        assert(l.negate().negate() == l);
        assert(lit.negate().negate() == lit);
        let here = lit_in(lits.chain(a, b), e, l);
        let there = lit_in(lits.chain(b, a), opposite_bound(e), l.negate());
        assert(here <==> lit_in(lits0.chain(a, b), e, l) || ((a, b) == (x, y) && e == d && l == lit)
            || ((a, b) == (y, x) && e == opposite_bound(d) && l == lit.negate()));
    }
}

/// A node that was added is the only new one.
proof fn lemma_only_new(st0: &DiffLogicState, st1: &DiffLogicState, x: IntView, v: IntView)
    requires
        st0.graph.structure(),
        st1.graph.structure(),
        st1.grown_from(st0),
        st1.graph.size() <= st0.graph.size() + 1,
        st1.graph.size() > st0.graph.size() ==> st1.graph.nodes.int_vars[st0.graph.size()] == x,
        st1.graph.nodes.has(v),
        v != x,
    ensures
        st0.graph.nodes.has(v),
{
    reveal(DiffGraph::structure);
    st1.graph.nodes.lemma_number(v);
    let k = st1.graph.nodes.number(v);
    if k < st0.graph.size() {
        assert(st1.graph.nodes.int_vars[k] == st0.graph.nodes.int_vars[k]);
        st0.graph.nodes.lemma_numbered(k);
    }
}

/// Everything is in order after a literal was created.
proof fn lemma_created_in_order(
    st0: &DiffLogicState,
    ctx0: &SolvingContext,
    st: &DiffLogicState,
    ctx: &SolvingContext,
    xv: IntView,
    yv: IntView,
    d: int,
    lit: Lit,
)
    requires
        st0.in_order(ctx0),
        st0.room_for(d),
        st.grown_from(st0),
        st.graph.wf(&ctx.trail),
        ctx.wf(),
        ctx.ints == ctx0.ints,
        ctx.bools@ == ctx0.bools@.push(None),
        ctx0.has_view(xv),
        ctx0.has_view(yv),
        xv is Linear,
        yv is Linear,
        lit.var == ctx0.bools.len(),
        same_edges(&st0.graph, ctx0.trail@, &st.graph, ctx.trail@),
        st.graph.size() <= st0.graph.size() + 2,
        forall|n: int|
            st0.graph.size() <= n < st.graph.size() ==> (#[trigger] st.graph.nodes.int_vars[n])
                == xv || st.graph.nodes.int_vars[n] == yv,
        forall|k: int|
            st0.graph.bool_vars.len() <= k < st.graph.bool_vars.len() ==> (
            #[trigger] st.graph.bool_vars[k]) == BoolView::Lit(lit) || st.graph.bool_vars[k]
                == BoolView::Lit(lit.negate()),
        st.graph.edges.len() == st0.graph.edges.len() + 2,
        forall|e: int|
            st0.graph.edges.len() <= e < st.graph.edges.len() ==> (
            #[trigger] st.graph.edges[e]).bool_var is Some && !st.graph.active_at(e, ctx.trail@)
                && (st.graph.edges[e].val == d || st.graph.edges[e].val == opposite_bound(d)),
    ensures
        st.in_order(ctx),
{
    let n = st.graph.size();
    let m = st.graph.edges.len() as int;
    lemma_room_shrinks(n, m, st0.graph.size() + 2, st0.graph.edges.len() + 2);
    assert forall|e: int| 0 <= e < m implies -weight_room(n, m) <= (
    #[trigger] st.graph.edges[e]).val <= weight_room(n, m) by {
        if e < st0.graph.edges.len() {
            assert(st0.graph.edges[e].same_but_positions(st.graph.edges[e]));
        }
    }
    assert forall|b: int| 0 <= b < ctx0.bools.len() implies #[trigger] ctx.bools[b]
        == ctx0.bools[b] by {
        assert(ctx.bools@[b] == ctx0.bools@[b]);
    }
    assert forall|k: int| st0.graph.size() <= k < st.graph.size() implies ctx.has_view(
        #[trigger] st.graph.nodes.int_vars[k],
    ) by {}
    lemma_grown_in_order(st0, ctx0, st, ctx);
}

/// There is less room for weights in a larger graph.
pub proof fn lemma_room_shrinks(n: int, m: int, n2: int, m2: int)
    requires
        0 <= n <= n2,
        0 <= m <= m2,
    ensures
        weight_room(n2, m2) <= weight_room(n, m),
{
    let a = 8 * (n + 1) * (m + 1);
    let b = 8 * (n2 + 1) * (m2 + 1);
    assert(0 < a <= b) by (nonlinear_arith)
        requires
            0 <= n <= n2,
            0 <= m <= m2,
            a == 8 * (n + 1) * (m + 1),
            b == 8 * (n2 + 1) * (m2 + 1),
    ;
    vstd::arithmetic::div_mod::lemma_div_is_ordered_by_denominator(IntVal::MAX as int, a, b);
}

impl DiffLogicState {
    /// Whether the values of the edges fit a graph with up to two more nodes and two more edges,
    /// and so does a difference literal with the bound `d`.
    pub open spec fn room_for(&self, d: int) -> bool {
        let room = weight_room(self.graph.size() + 2, self.graph.edges.len() + 2);
        &&& -room <= d <= room
        &&& -room <= opposite_bound(d) <= room
        &&& forall|e: int|
            0 <= e < self.graph.edges.len() ==> -room <= (#[trigger] self.graph.edges[e]).val
                <= room
    }
}

/// What creating a difference literal does.
pub open spec fn lit_created(
    ctx0: &SolvingContext,
    st0: &DiffLogicState,
    ctx: &SolvingContext,
    st: &DiffLogicState,
    x: usize,
    y: usize,
    d: int,
) -> bool {
    let lit = Lit { var: ctx0.bools.len(), negated: false };
    let prop = st0.propagator_ref->0;
    // A new Boolean decision.
    &&& ctx.bools@ == ctx0.bools@.push(None)
    &&& ctx.ints == ctx0.ints
    &&& ctx.propagation_queue == ctx0.propagation_queue
    &&& ctx.current_prop == ctx0.current_prop
    &&& ctx.trail.depth() == ctx0.trail.depth()
    &&& ctx.state.propagator_queue == ctx0.state.propagator_queue
    &&& ctx.state.failed == ctx0.state.failed
    &&& ctx.state.conflict == ctx0.state.conflict
    &&& ctx.state.assigned == ctx0.state.assigned
    &&& ctx.state.statistics == (Statistics {
        lazy_literals: (ctx0.state.statistics.lazy_literals + 1) as u64,
        ..ctx0.state.statistics
    })
    // Two more edges.
    &&& st.grown_from(st0)
    &&& st.graph.edges.len() == st0.graph.edges.len() + 2
    &&& same_edges(&st0.graph, ctx0.trail@, &st.graph, ctx.trail@)
    &&& owner_grown(&st0.graph, &ctx0.trail, &st.graph)
    &&& ctx0.trail@.len() <= ctx.trail@.len()
    &&& is_edge(&st.graph, st0.graph.edges.len() as int, x, y, d, BoolView::Lit(lit))
    &&& is_edge(
        &st.graph,
        st0.graph.edges.len() + 1,
        y,
        x,
        opposite_bound(d),
        BoolView::Lit(lit.negate()),
    )
    // The literal is remembered for both directions.
    &&& forall|a: usize, b: usize, e: int, l: Lit|
        #![trigger lit_in(ctx.state.diff_lits.chain(a, b), e, l)]
        lit_in(ctx.state.diff_lits.chain(a, b), e, l) <==> lit_in(
            ctx0.state.diff_lits.chain(a, b),
            e,
            l,
        ) || ((a, b) == (x, y) && e == d && l == lit) || ((a, b) == (y, x) && e == opposite_bound(
            d,
        ) && l == lit.negate())
    // It is tied to its neighbours.
    &&& exists|prev: Option<Lit>, next: Option<Lit>|
        is_below(ctx0.state.diff_lits.chain(x, y), d, prev) && is_above(
            ctx0.state.diff_lits.chain(x, y),
            d,
            next,
        ) && clause_views(ctx.state.clauses@) == clause_views(ctx0.state.clauses@)
            + #[trigger] chain_clauses(prev, lit, next)
    // The propagator is told when the literal is fixed, and of the bounds of new nodes.
    &&& advisors_grow(&ctx0.state, &ctx.state)
    &&& bool_advised(
        &ctx.state,
        BoolView::Lit(lit),
        AdvisorDef {
            bool2int: false,
            data: st.graph.gate_number(BoolView::Lit(lit)) as u64,
            negated: false,
            propagator: prop,
        },
    )
    &&& bool_advised(
        &ctx.state,
        BoolView::Lit(lit),
        AdvisorDef {
            bool2int: false,
            data: st.graph.gate_number(BoolView::Lit(lit.negate())) as u64,
            negated: false,
            propagator: prop,
        },
    )
    &&& forall|v: usize|
        (v == x || v == y) && !#[trigger] st0.graph.nodes.has(IntView::decision(v)) ==> int_advised(
            &ctx.state,
            v,
            IntPropCond::Bounds,
            AdvisorDef {
                bool2int: false,
                data: st.graph.nodes.number(IntView::decision(v)) as u64,
                negated: false,
                propagator: prop,
            },
        )
}

/// Whether the literal is known to stand for the bound of the difference.
pub open spec fn bound_obtained(
    ctx: &SolvingContext,
    x: usize,
    y: usize,
    d: int,
    lit: Lit,
) -> bool {
    let lits = ctx.state.diff_lits;
    lit_in(lits.chain(x, y), d, lit) || lit_in(lits.chain(y, x), opposite_bound(d), lit.negate())
}

/// Whether there is a difference literal for the bound, or for the opposite one.
pub open spec fn lit_known(ctx: &SolvingContext, x: usize, y: usize, d: int) -> bool {
    bound_in(ctx.state.diff_lits.chain(x, y), d) || bound_in(
        ctx.state.diff_lits.chain(y, x),
        opposite_bound(d),
    )
}

/// Whether a difference literal can be had: it is known, or there is room for another one.
pub open spec fn can_obtain(
    ctx: &SolvingContext,
    st: &DiffLogicState,
    x: usize,
    y: usize,
    d: int,
) -> bool {
    ||| lit_known(ctx, x, y, d)
    ||| {
        &&& st.room_for(d)
        &&& st.graph.edges.len() + 2 <= usize::MAX
        &&& ctx.state.statistics.lazy_literals < u64::MAX
    }
}

/// A literal of a bound is the only one of it.
proof fn lemma_lit_unique(lits: &DiffLits, x: usize, y: usize, d: int, a: Lit, b: Lit)
    requires
        lits.wf(),
        lit_in(lits.chain(x, y), d, a),
        lit_in(lits.chain(x, y), d, b),
    ensures
        a == b,
{
    let chain = lits.chain(x, y);
    let i = choose|i: int|
        0 <= i < chain.len() && #[trigger] chain[i].d == d && chain[i].lit == a;
    let j = choose|j: int|
        0 <= j < chain.len() && #[trigger] chain[j].d == d && chain[j].lit == b;
    assert(increasing(chain));
    if i < j {
        assert(chain[i].d < chain[j].d);
    } else if j < i {
        assert(chain[j].d < chain[i].d);
    }
}

/// Asking again for a difference literal gives the same one, and changes nothing.
pub proof fn lemma_asking_again(
    ctx0: &SolvingContext,
    st0: &DiffLogicState,
    ctx1: &SolvingContext,
    st1: &DiffLogicState,
    ctx2: &SolvingContext,
    st2: &DiffLogicState,
    x: usize,
    y: usize,
    d: int,
    first: Lit,
    second: Lit,
)
    requires
        ctx0.state.diff_lits.wf(),
        ctx1.state.diff_lits.wf(),
        lit_obtained(ctx0, st0, ctx1, st1, x, y, d, first),
        lit_obtained(ctx1, st1, ctx2, st2, x, y, d, second),
    ensures
        can_obtain(ctx1, st1, x, y, d),
        second == first,
        *ctx2 == *ctx1,
        *st2 == *st1,
{
    let lits = ctx0.state.diff_lits;
    if bound_in(lits.chain(x, y), d) {
        lemma_lit_unique(&lits, x, y, d, first, second);
    } else if bound_in(lits.chain(y, x), opposite_bound(d)) {
        lemma_lit_unique(&lits, y, x, opposite_bound(d), first.negate(), second.negate());
        assert(first.negate().negate() == first && second.negate().negate() == second);
    } else {
        let chain = ctx1.state.diff_lits.chain(x, y);
        assert(lit_in(chain, d, first));
        let i = choose|i: int|
            0 <= i < chain.len() && #[trigger] chain[i].d == d && chain[i].lit == first;
        assert(bound_in(chain, d));
        lemma_lit_unique(&ctx1.state.diff_lits, x, y, d, first, second);
    }
}

/// Asking for the opposite difference gives the negation of the literal, and changes nothing.
pub proof fn lemma_asking_reversed(
    ctx0: &SolvingContext,
    st0: &DiffLogicState,
    ctx1: &SolvingContext,
    st1: &DiffLogicState,
    ctx2: &SolvingContext,
    st2: &DiffLogicState,
    x: usize,
    y: usize,
    d: int,
    first: Lit,
    second: Lit,
)
    requires
        lits_stand(&ctx1.state.diff_lits, &st1.graph),
        lit_obtained(ctx0, st0, ctx1, st1, x, y, d, first),
        lit_obtained(ctx1, st1, ctx2, st2, y, x, opposite_bound(d), second),
    ensures
        can_obtain(ctx1, st1, y, x, opposite_bound(d)),
        second == first.negate(),
        *ctx2 == *ctx1,
        *st2 == *st1,
{
    let lits = ctx1.state.diff_lits;
    let e = opposite_bound(d);
    assert(mirrored_at(&lits, x, y, d, first));
    let chain = lits.chain(y, x);
    assert(lit_in(lits.chain(x, y), d, first) || lit_in(chain, e, first.negate()));
    assert(lit_in(chain, e, first.negate()));
    let i = choose|i: int|
        0 <= i < chain.len() && #[trigger] chain[i].d == e && chain[i].lit == first.negate();
    assert(bound_in(chain, e));
    lemma_lit_unique(&lits, y, x, e, first.negate(), second);
}

/// What asking for a difference literal does: it is created only if there is none for the
/// difference, and none for the opposite one.
pub open spec fn lit_obtained(
    ctx0: &SolvingContext,
    st0: &DiffLogicState,
    ctx: &SolvingContext,
    st: &DiffLogicState,
    x: usize,
    y: usize,
    d: int,
    lit: Lit,
) -> bool {
    let lits = ctx0.state.diff_lits;
    if bound_in(lits.chain(x, y), d) {
        &&& *ctx == *ctx0
        &&& *st == *st0
        &&& lit_in(lits.chain(x, y), d, lit)
    } else if bound_in(lits.chain(y, x), opposite_bound(d)) {
        &&& *ctx == *ctx0
        &&& *st == *st0
        &&& lit_in(lits.chain(y, x), opposite_bound(d), lit.negate())
    } else {
        &&& lit == (Lit { var: ctx0.bools.len(), negated: false })
        &&& lit_created(ctx0, st0, ctx, st, x, y, d)
    }
}

/// Whether the assignment satisfies every clause.
pub open spec fn satisfied(clauses: Seq<Seq<Lit>>, bools: BoolAssignment) -> bool {
    forall|k: int| 0 <= k < clauses.len() ==> #[trigger] some_holds(clauses[k], bools)
}

/// Whether some literal of the clause holds.
pub open spec fn some_holds(clause: Seq<Lit>, bools: BoolAssignment) -> bool {
    exists|i: int| 0 <= i < clause.len() && (#[trigger] clause[i]).holds(bools)
}

/// Whether, of two literals of the difference of two different decisions, the one with the
/// smaller bound implies the other one.
pub open spec fn keeps_order(lits: &DiffLits, bools: BoolAssignment) -> bool {
    forall|x: usize, y: usize, d: int, lit: Lit, e: int, other: Lit|
        x != y && d <= e && #[trigger] lit_in(lits.chain(x, y), d, lit) && #[trigger] lit_in(
            lits.chain(x, y),
            e,
            other,
        ) && lit.holds(bools) ==> other.holds(bools)
}

/// The clauses that were added to the earlier ones.
pub open spec fn added_clauses(ctx0: &SolvingContext, ctx: &SolvingContext) -> Seq<Seq<Lit>> {
    clause_views(ctx.state.clauses@).skip(ctx0.state.clauses.len() as int)
}

/// Whether the clauses that were added hold wherever the difference constraints do, and make
/// the literals with smaller bounds imply those with larger ones.
pub open spec fn well_tied(ctx0: &SolvingContext, ctx: &SolvingContext, graph: &DiffGraph) -> bool {
    // The earlier clauses stay.
    &&& ctx0.state.clauses.len() <= ctx.state.clauses.len()
    &&& clause_views(ctx.state.clauses@).take(ctx0.state.clauses.len() as int) == clause_views(
        ctx0.state.clauses@,
    )
    // No assignment that keeps the difference constraints is lost.
    &&& forall|ints: IntAssignment, bools: BoolAssignment| #[trigger]
        diff_rule(graph)(ints, bools) ==> satisfied(added_clauses(ctx0, ctx), bools)
    // Neighbours are in order, and thereby all literals of a difference.
    &&& forall|bools: BoolAssignment|
        keeps_order(&ctx0.state.diff_lits, bools) && satisfied(added_clauses(ctx0, ctx), bools)
            ==> #[trigger] keeps_order(&ctx.state.diff_lits, bools)
}

/// The clauses that asking for a difference literal adds hold in every assignment that keeps
/// the difference constraints.
pub proof fn lemma_clauses_sound(
    ctx0: &SolvingContext,
    st0: &DiffLogicState,
    ctx: &SolvingContext,
    st: &DiffLogicState,
    x: usize,
    y: usize,
    d: int,
    lit: Lit,
    ints: IntAssignment,
    bools: BoolAssignment,
)
    requires
        lits_stand(&ctx.state.diff_lits, &st.graph),
        lit_obtained(ctx0, st0, ctx, st, x, y, d, lit),
        diff_rule(&st.graph)(ints, bools),
    ensures
        satisfied(added_clauses(ctx0, ctx), bools),
{
    let lits0 = ctx0.state.diff_lits;
    let lits = ctx.state.diff_lits;
    if !bound_in(lits0.chain(x, y), d) && !bound_in(lits0.chain(y, x), opposite_bound(d)) {
        let chain = lits0.chain(x, y);
        let (prev, next) = lemma_neighbours(ctx0, st0, ctx, st, x, y, d);
        let added = chain_clauses(prev, lit, next);
        assert(lit_in(lits.chain(x, y), d, lit));
        if let Some(p) = prev {
            let i = choose|i: int|
                0 <= i < chain.len() && #[trigger] chain[i].d < d && chain[i].lit == p;
            assert(lit_in(chain, chain[i].d as int, p));
            assert(lit_in(lits.chain(x, y), chain[i].d as int, p));
            lemma_diff_lits_ordered(
                &st.graph,
                x,
                y,
                chain[i].d as int,
                p,
                d,
                lit,
                ints,
                bools,
            );
            assert(p.negate().holds(bools) || lit.holds(bools));
        }
        if let Some(n) = next {
            let i = choose|i: int|
                0 <= i < chain.len() && #[trigger] chain[i].d > d && chain[i].lit == n;
            assert(lit_in(chain, chain[i].d as int, n));
            assert(lit_in(lits.chain(x, y), chain[i].d as int, n));
            lemma_diff_lits_ordered(
                &st.graph,
                x,
                y,
                d,
                lit,
                chain[i].d as int,
                n,
                ints,
                bools,
            );
            assert(lit.negate().holds(bools) || n.holds(bools));
        }
        assert forall|k: int| 0 <= k < added.len() implies #[trigger] some_holds(
            added[k],
            bools,
        ) by {
            let clause = added[k];
            assert(clause.len() == 2);
            assert(clause[0].holds(bools) || clause[1].holds(bools));
        }
    }
}

/// Where the literals of each difference were in order, they are so in every assignment that
/// satisfies the clauses that asking for a difference literal adds.
pub proof fn lemma_clauses_order(
    ctx0: &SolvingContext,
    st0: &DiffLogicState,
    ctx: &SolvingContext,
    st: &DiffLogicState,
    x: usize,
    y: usize,
    d: int,
    lit: Lit,
    bools: BoolAssignment,
)
    requires
        lits_stand(&ctx0.state.diff_lits, &st0.graph),
        lit_obtained(ctx0, st0, ctx, st, x, y, d, lit),
        keeps_order(&ctx0.state.diff_lits, bools),
        satisfied(added_clauses(ctx0, ctx), bools),
    ensures
        keeps_order(&ctx.state.diff_lits, bools),
{
    let lits0 = ctx0.state.diff_lits;
    let lits = ctx.state.diff_lits;
    if !bound_in(lits0.chain(x, y), d) && !bound_in(lits0.chain(y, x), opposite_bound(d)) {
        let (prev, next) = lemma_neighbours(ctx0, st0, ctx, st, x, y, d);
        let added = chain_clauses(prev, lit, next);
        if let Some(p) = prev {
            assert(some_holds(added[0], bools));
        }
        if let Some(n) = next {
            assert(some_holds(added[added.len() - 1], bools));
        }
        assert forall|a: usize, b: usize, e: int, l: Lit, f: int, m: Lit|
            a != b && e <= f && #[trigger] lit_in(lits.chain(a, b), e, l) && #[trigger] lit_in(
                lits.chain(a, b),
                f,
                m,
            ) && l.holds(bools) implies m.holds(bools) by {
            if lit_in(lits0.chain(a, b), e, l) && lit_in(lits0.chain(a, b), f, m) {
            } else if (a, b) == (x, y) {
                if lit_in(lits0.chain(x, y), e, l) {
                    lemma_implied_by_smaller(&lits0, x, y, d, prev, bools, e, l);
                } else if lit_in(lits0.chain(x, y), f, m) {
                    lemma_implies_larger(&lits0, x, y, d, next, bools, f, m);
                }
            } else {
                let (oe, of) = (opposite_bound(e), opposite_bound(f));
                if lit_in(lits0.chain(y, x), e, l) {
                    assert(mirrored_at(&lits0, y, x, e, l));
                    lemma_implies_larger(&lits0, x, y, d, next, bools, oe, l.negate());
                } else if lit_in(lits0.chain(y, x), f, m) {
                    assert(mirrored_at(&lits0, y, x, f, m));
                    if !m.holds(bools) {
                        lemma_implied_by_smaller(&lits0, x, y, d, prev, bools, of, m.negate());
                    }
                }
            }
        }
    }
}

/// The neighbours of a literal that was created.
proof fn lemma_neighbours(
    ctx0: &SolvingContext,
    st0: &DiffLogicState,
    ctx: &SolvingContext,
    st: &DiffLogicState,
    x: usize,
    y: usize,
    d: int,
) -> (r: (Option<Lit>, Option<Lit>))
    requires
        lit_created(ctx0, st0, ctx, st, x, y, d),
    ensures
        is_below(ctx0.state.diff_lits.chain(x, y), d, r.0),
        is_above(ctx0.state.diff_lits.chain(x, y), d, r.1),
        added_clauses(ctx0, ctx) == chain_clauses(
            r.0,
            Lit { var: ctx0.bools.len(), negated: false },
            r.1,
        ),
        ctx0.state.clauses.len() <= ctx.state.clauses.len(),
        clause_views(ctx.state.clauses@).take(ctx0.state.clauses.len() as int) == clause_views(
            ctx0.state.clauses@,
        ),
{
    let lit = Lit { var: ctx0.bools.len(), negated: false };
    let (prev, next) = choose|prev: Option<Lit>, next: Option<Lit>|
        is_below(ctx0.state.diff_lits.chain(x, y), d, prev) && is_above(
            ctx0.state.diff_lits.chain(x, y),
            d,
            next,
        ) && clause_views(ctx.state.clauses@) == clause_views(ctx0.state.clauses@)
            + #[trigger] chain_clauses(prev, lit, next);
    let before = clause_views(ctx0.state.clauses@);
    let added = chain_clauses(prev, lit, next);
    assert(clause_views(ctx.state.clauses@) == before + added);
    assert(clause_views(ctx.state.clauses@).len() == ctx.state.clauses.len());
    assert(before.len() == ctx0.state.clauses.len());
    assert((before + added).skip(before.len() as int) =~= added);
    assert((before + added).take(before.len() as int) =~= before);
    (prev, next)
}

/// A literal with a smaller bound implies the one with the next smaller bound.
proof fn lemma_implied_by_smaller(
    lits: &DiffLits,
    x: usize,
    y: usize,
    d: int,
    prev: Option<Lit>,
    bools: BoolAssignment,
    e: int,
    l: Lit,
)
    requires
        x != y,
        keeps_order(lits, bools),
        is_below(lits.chain(x, y), d, prev),
        lit_in(lits.chain(x, y), e, l),
        e < d,
        l.holds(bools),
    ensures
        prev is Some,
        prev->0.holds(bools),
{
    let chain = lits.chain(x, y);
    let j = choose|j: int| 0 <= j < chain.len() && #[trigger] chain[j].d == e && chain[j].lit == l;
    assert(chain[j].d < d);
    let p = prev->0;
    let i = choose|i: int|
        0 <= i < chain.len() && #[trigger] chain[i].d < d && chain[i].lit == p && forall|j: int|
            0 <= j < chain.len() && (#[trigger] chain[j]).d < d ==> chain[j].d <= chain[i].d;
    assert(lit_in(chain, chain[i].d as int, p));
}

/// The literal with the next larger bound implies one with a larger bound.
proof fn lemma_implies_larger(
    lits: &DiffLits,
    x: usize,
    y: usize,
    d: int,
    next: Option<Lit>,
    bools: BoolAssignment,
    e: int,
    l: Lit,
)
    requires
        x != y,
        keeps_order(lits, bools),
        is_above(lits.chain(x, y), d, next),
        lit_in(lits.chain(x, y), e, l),
        e > d,
    ensures
        next is Some,
        next->0.holds(bools) ==> l.holds(bools),
{
    let chain = lits.chain(x, y);
    let j = choose|j: int| 0 <= j < chain.len() && #[trigger] chain[j].d == e && chain[j].lit == l;
    assert(chain[j].d > d);
    let n = next->0;
    let i = choose|i: int|
        0 <= i < chain.len() && #[trigger] chain[i].d > d && chain[i].lit == n && forall|j: int|
            0 <= j < chain.len() && (#[trigger] chain[j]).d > d ==> chain[j].d >= chain[i].d;
    assert(lit_in(chain, chain[i].d as int, n));
}

/// What asking for a difference literal adds ties it to its neighbours.
proof fn lemma_well_tied(
    ctx0: &SolvingContext,
    st0: &DiffLogicState,
    ctx: &SolvingContext,
    st: &DiffLogicState,
    x: usize,
    y: usize,
    d: int,
    lit: Lit,
)
    requires
        lits_stand(&ctx0.state.diff_lits, &st0.graph),
        lits_stand(&ctx.state.diff_lits, &st.graph),
        lit_obtained(ctx0, st0, ctx, st, x, y, d, lit),
    ensures
        well_tied(ctx0, ctx, &st.graph),
{
    let lits0 = ctx0.state.diff_lits;
    if !bound_in(lits0.chain(x, y), d) && !bound_in(lits0.chain(y, x), opposite_bound(d)) {
        let (prev, next) = lemma_neighbours(ctx0, st0, ctx, st, x, y, d);
    } else {
        let same = clause_views(ctx.state.clauses@);
        assert(same.take(same.len() as int) =~= same);
    }
    assert forall|ints: IntAssignment, bools: BoolAssignment| #[trigger]
        diff_rule(&st.graph)(ints, bools) implies satisfied(added_clauses(ctx0, ctx), bools) by {
        lemma_clauses_sound(ctx0, st0, ctx, st, x, y, d, lit, ints, bools);
    }
    assert forall|bools: BoolAssignment|
        keeps_order(&ctx0.state.diff_lits, bools) && satisfied(
            added_clauses(ctx0, ctx),
            bools,
        ) implies #[trigger] keeps_order(&ctx.state.diff_lits, bools) by {
        lemma_clauses_order(ctx0, st0, ctx, st, x, y, d, lit, bools);
    }
}

/// What is had by asking stands for the bound, and is tied to its neighbours.
proof fn lemma_lit_answer(
    ctx0: &SolvingContext,
    st0: &DiffLogicState,
    ctx: &SolvingContext,
    st: &DiffLogicState,
    x: usize,
    y: usize,
    d: int,
    lit: Lit,
)
    requires
        lits_stand(&ctx0.state.diff_lits, &st0.graph),
        lits_stand(&ctx.state.diff_lits, &st.graph),
        lit_obtained(ctx0, st0, ctx, st, x, y, d, lit),
        reified(&st.graph, x, y, d, lit),
    ensures
        well_tied(ctx0, ctx, &st.graph),
        forall|ints: IntAssignment, bools: BoolAssignment| #[trigger]
            diff_rule(&st.graph)(ints, bools) ==> (lit.holds(bools) <==> ints(x as int) - ints(
                y as int,
            ) <= d),
{
    lemma_well_tied(ctx0, st0, ctx, st, x, y, d, lit);
    assert forall|ints: IntAssignment, bools: BoolAssignment| #[trigger]
        diff_rule(&st.graph)(ints, bools) implies (lit.holds(bools) <==> ints(x as int) - ints(
        y as int,
    ) <= d) by {
        lemma_diff_lit_meaning(&st.graph, x, y, d, lit, ints, bools);
    }
}

impl SolvingContext {
    /// A literal that holds if and only if the difference of the decisions `x` and `y` is at
    /// most `d`. It is created unless there is one already, for this difference or for the
    /// opposite one.
    pub fn diff_lit(&mut self, graph: &mut DiffLogicState, x: usize, y: usize, d: IntVal) -> (r:
        BoolView)
        requires
            old(graph).in_order(old(self)),
            old(graph).propagator_ref is Some,
            lits_stand(&old(self).state.diff_lits, &old(graph).graph),
            x < old(self).ints.len(),
            y < old(self).ints.len(),
            IntVal::MIN < d < IntVal::MAX,
            can_obtain(old(self), old(graph), x, y, d as int),
        ensures
            final(graph).in_order(final(self)),
            lits_stand(&final(self).state.diff_lits, &final(graph).graph),
            r matches BoolView::Lit(lit) && reified(&final(graph).graph, x, y, d as int, lit),
            final(self).knows(r),
            lit_obtained(
                old(self),
                old(graph),
                final(self),
                final(graph),
                x,
                y,
                d as int,
                r->Lit_0,
            ),
            // The literal can be asked for again.
            final(graph).propagator_ref == old(graph).propagator_ref,
            can_obtain(final(self), final(graph), x, y, d as int),
            // The clauses that are added lose nothing, and keep the literals in order.
            well_tied(old(self), final(self), &final(graph).graph),
            forall|ints: IntAssignment, bools: BoolAssignment| #[trigger]
                diff_rule(&final(graph).graph)(ints, bools) ==> (r.holds(ints, bools) <==> ints(
                    x as int,
                ) - ints(y as int) <= d),
    {
        let ghost ctx0 = *self;
        let ghost st0 = *graph;
        match self.state.diff_lits.get(x, y, d) {
            Some(lit) => {
                proof {
                    lemma_reified_known(graph, self, x, y, d as int, lit);
                    let chain = self.state.diff_lits.chain(x, y);
                    let i = choose|i: int|
                        0 <= i < chain.len() && #[trigger] chain[i].d == d && chain[i].lit == lit;
                    assert(bound_in(chain, d as int));
                    lemma_lit_answer(&ctx0, &st0, self, graph, x, y, d as int, lit);
                }
                return BoolView::Lit(lit);
            },
            None => {},
        }
        match self.state.diff_lits.get(y, x, -d - 1) {
            Some(lit) => {
                proof {
                    let e = opposite_bound(d as int);
                    assert(lit_in(self.state.diff_lits.chain(y, x), e, lit));
                    assert(reified(&graph.graph, y, x, e, lit));
                    assert(opposite_bound(e) == d);
                    assert(lit.negate().negate() == lit);
                    assert(reified(&graph.graph, x, y, d as int, lit.negate()));
                    lemma_reified_known(graph, self, y, x, e, lit);
                    let chain = self.state.diff_lits.chain(y, x);
                    let i = choose|i: int|
                        0 <= i < chain.len() && #[trigger] chain[i].d == e && chain[i].lit == lit;
                    assert(bound_in(chain, e));
                    lemma_lit_answer(&ctx0, &st0, self, graph, x, y, d as int, lit.negate());
                }
                return BoolView::Lit(lit.negate());
            },
            None => {},
        }
        let r: BoolView = self.create_diff_lit(graph, x, y, d);
        proof {
            let chain = self.state.diff_lits.chain(x, y);
            assert(lit_in(chain, d as int, r->Lit_0));
            let i = choose|i: int|
                0 <= i < chain.len() && #[trigger] chain[i].d == d && chain[i].lit == r->Lit_0;
            assert(bound_in(chain, d as int));
            lemma_lit_answer(&ctx0, &st0, self, graph, x, y, d as int, r->Lit_0);
        }
        r
    }

    /// Create a literal that holds if and only if the difference of the decisions `x` and `y`
    /// is at most `d`.
    #[verifier::spinoff_prover]
    fn create_diff_lit(&mut self, graph: &mut DiffLogicState, x: usize, y: usize, d: IntVal) -> (r:
        BoolView)
        requires
            old(graph).in_order(old(self)),
            old(graph).propagator_ref is Some,
            lits_stand(&old(self).state.diff_lits, &old(graph).graph),
            x < old(self).ints.len(),
            y < old(self).ints.len(),
            IntVal::MIN < d < IntVal::MAX,
            old(graph).room_for(d as int),
            old(graph).graph.edges.len() + 2 <= usize::MAX,
            old(self).state.statistics.lazy_literals < u64::MAX,
            !bound_in(old(self).state.diff_lits.chain(x, y), d as int),
            !bound_in(old(self).state.diff_lits.chain(y, x), opposite_bound(d as int)),
        ensures
            final(graph).in_order(final(self)),
            lits_stand(&final(self).state.diff_lits, &final(graph).graph),
            r == BoolView::Lit(Lit { var: old(self).bools.len(), negated: false }),
            reified(&final(graph).graph, x, y, d as int, r->Lit_0),
            final(self).knows(r),
            lit_created(old(self), old(graph), final(self), final(graph), x, y, d as int),
    {
        let ghost ctx0 = *self;
        let ghost st0 = *graph;
        let ghost lits0 = self.state.diff_lits;
        let prop_ref: usize = match graph.propagator_ref {
            Some(p) => p,
            None => usize::MAX,
        };
        let prev: Option<Lit> = self.state.diff_lits.below(x, y, d);
        let next: Option<Lit> = self.state.diff_lits.above(x, y, d);
        // The ends.
        let xv: IntView = IntView::decision(x);
        let yv: IntView = IntView::decision(y);
        proof {
            assert(ctx0.ints[x as int].wf() && ctx0.ints[y as int].wf());
            assert(ctx0.has_view(xv) && ctx0.has_view(yv));
        }
        let n0: usize = graph.graph.nodes.int_vars.len();
        let x_node: usize = graph.intern_int(&mut self.trail, xv);
        let ghost st1 = *graph;
        let ghost t1 = self.trail@;
        let n1: usize = graph.graph.nodes.int_vars.len();
        let y_node: usize = graph.intern_int(&mut self.trail, yv);
        let ghost st2 = *graph;
        let ghost t2 = self.trail@;
        let ghost ctx2 = *self;
        proof {
            assert(n1 > n0 <==> !st0.graph.nodes.has(xv));
            assert(graph.graph.size() > n1 <==> !st1.graph.nodes.has(yv));
        }
        if n1 > n0 {
            self.subscribe_diff_logic_int_bounds_advisor(prop_ref, xv, x_node as u64);
        }
        let ghost ctx3 = *self;
        if graph.graph.nodes.int_vars.len() > n1 {
            self.subscribe_diff_logic_int_bounds_advisor(prop_ref, yv, y_node as u64);
        }
        let ghost ctx4 = *self;
        // The gating view.
        let lit: Lit = self.new_bool();
        self.state.statistics.lazy_literals = self.state.statistics.lazy_literals + 1;
        let b: BoolView = BoolView::Lit(lit);
        let nb: BoolView = BoolView::Lit(lit.negate());
        // The edges.
        let gate_node: usize = graph.intern_bool(&mut self.trail, b);
        let ghost st3 = *graph;
        let ghost t3 = self.trail@;
        let neg_node: usize = graph.intern_bool(&mut self.trail, nb);
        let ghost st4 = *graph;
        let ghost t4 = self.trail@;
        let e1: usize = graph.register_edge(&mut self.trail, xv, yv, d, Some(b));
        let ghost st5 = *graph;
        let ghost t5 = self.trail@;
        let e2: usize = graph.register_edge(&mut self.trail, yv, xv, -d - 1, Some(nb));
        let ghost st6 = *graph;
        let ghost t6 = self.trail@;
        let ghost ctx5 = *self;
        self.subscribe_diff_logic_bool_fixed_advisor(prop_ref, b, gate_node as u64);
        let ghost ctx6 = *self;
        self.subscribe_diff_logic_bool_fixed_advisor(prop_ref, nb, neg_node as u64);
        let ghost ctx7 = *self;
        // The literals.
        self.state.diff_lits.insert(x, y, d, lit);
        let ghost lits1 = self.state.diff_lits;
        proof {
            lemma_still_unbound(&lits0, &lits1, x, y, d as int, lit);
        }
        self.state.diff_lits.insert(y, x, -d - 1, lit.negate());
        proof {
            lemma_two_added(&lits0, &lits1, &self.state.diff_lits, x, y, d as int, lit);
        }
        // The clauses.
        let ghost clauses0 = self.state.clauses@;
        if let Some(p) = prev {
            let mut clause: Vec<Lit> = Vec::new();
            clause.push(p.negate());
            clause.push(lit);
            self.state.clauses.push(clause);
            proof {
                assert(clause@ =~= seq![p.negate(), lit]);
            }
        }
        let ghost clauses1 = self.state.clauses@;
        if let Some(n) = next {
            let mut clause: Vec<Lit> = Vec::new();
            clause.push(lit.negate());
            clause.push(n);
            self.state.clauses.push(clause);
            proof {
                assert(clause@ =~= seq![lit.negate(), n]);
            }
        }
        proof {
            assert(clause_views(self.state.clauses@) =~= clause_views(clauses0) + chain_clauses(
                prev,
                lit,
                next,
            )) by {
                let extra = chain_clauses(prev, lit, next);
                assert(clause_views(clauses1) =~= clause_views(clauses0) + match prev {
                    Some(p) => seq![seq![p.negate(), lit]],
                    None => Seq::empty(),
                });
                assert(clause_views(self.state.clauses@) =~= clause_views(clauses1) + match next {
                    Some(n) => seq![seq![lit.negate(), n]],
                    None => Seq::empty(),
                });
            }
            lemma_grown_join(&st0, &st1, &st2);
            lemma_grown_join(&st0, &st2, &st3);
            lemma_grown_join(&st0, &st3, &st4);
            lemma_grown_join(&st0, &st4, &st5);
            lemma_grown_join(&st0, &st5, &st6);
            let t0 = ctx0.trail@;
            lemma_same_edges_join(&st0.graph, t0, &st1.graph, t1, &st2.graph, t2);
            lemma_same_edges_join(&st0.graph, t0, &st2.graph, t2, &st3.graph, t3);
            lemma_same_edges_join(&st0.graph, t0, &st3.graph, t3, &st4.graph, t4);
            lemma_same_edges_join(&st0.graph, t0, &st4.graph, t4, &st5.graph, t5);
            lemma_same_edges_join(&st0.graph, t0, &st5.graph, t5, &st6.graph, t6);
            assert(st6.graph.nodes == st2.graph.nodes);
            assert(st4.graph.has_gate(b));
            assert(st5.graph.has_gate(nb));
            assert(st6.graph.bool_vars == st4.graph.bool_vars);
            // The first edge after the second one.
            assert(st5.graph.edges[e1 as int].same_but_positions(st6.graph.edges[e1 as int]));
            assert(is_edge(&st6.graph, e1 as int, x, y, d as int, b));
            assert(is_edge(&st6.graph, e2 as int, y, x, opposite_bound(d as int), nb));
            assert(has_edge(&st6.graph, x, y, d as int, b));
            assert(has_edge(&st6.graph, y, x, opposite_bound(d as int), nb));
            assert forall|n: int| st0.graph.size() <= n < st6.graph.size() implies (
            #[trigger] st6.graph.nodes.int_vars[n]) == xv || st6.graph.nodes.int_vars[n] == yv by {
                if n < st1.graph.size() {
                    assert(st2.graph.nodes.int_vars[n] == st1.graph.nodes.int_vars[n]);
                    assert(n == x_node);
                } else {
                    assert(n == y_node);
                }
            }
            assert forall|k: int|
                st0.graph.bool_vars.len() <= k < st6.graph.bool_vars.len() implies (
            #[trigger] st6.graph.bool_vars[k]) == b || st6.graph.bool_vars[k] == nb by {
                if k < st3.graph.bool_vars.len() {
                    assert(st4.graph.bool_vars[k] == st3.graph.bool_vars[k]);
                    assert(k == gate_node);
                } else {
                    assert(k == neg_node);
                }
            }
            lemma_created_in_order(&st0, &ctx0, graph, self, xv, yv, d as int, lit);
            lemma_lits_stand(&st0, t0, graph, t6, &lits0, &self.state.diff_lits, x, y, d as int, lit);
            lemma_advised_stay(&ctx3.state, &ctx4.state);
            lemma_advised_stay(&ctx4.state, &self.state);
            lemma_advised_stay(&ctx6.state, &self.state);
            graph.graph.lemma_gate_number(b, gate_node as int);
            graph.graph.lemma_gate_number(nb, neg_node as int);
            assert(advisors_grow(&ctx0.state, &self.state));
            let prop = st0.propagator_ref->0;
            assert(bool_advised(
                &self.state,
                b,
                AdvisorDef {
                    bool2int: false,
                    data: graph.graph.gate_number(b) as u64,
                    negated: false,
                    propagator: prop,
                },
            ));
            assert(bool_advised(
                &self.state,
                b,
                AdvisorDef {
                    bool2int: false,
                    data: graph.graph.gate_number(nb) as u64,
                    negated: false,
                    propagator: prop,
                },
            ));
            assert forall|v: usize|
                (v == x || v == y) && !#[trigger] st0.graph.nodes.has(
                    IntView::decision(v),
                ) implies int_advised(
                &self.state,
                v,
                IntPropCond::Bounds,
                AdvisorDef {
                    bool2int: false,
                    data: graph.graph.nodes.number(IntView::decision(v)) as u64,
                    negated: false,
                    propagator: prop,
                },
            ) by {
                if v == x {
                    assert(st1.graph.nodes.has(xv));
                    assert(int_advised(
                        &ctx3.state,
                        x,
                        IntPropCond::Bounds,
                        AdvisorDef {
                            bool2int: false,
                            data: x_node as u64,
                            negated: false,
                            propagator: prop,
                        },
                    ));
                } else {
                    if st1.graph.nodes.has(yv) {
                        lemma_only_new(&st0, &st1, xv, yv);
                    }
                    assert(int_advised(
                        &ctx4.state,
                        y,
                        IntPropCond::Bounds,
                        AdvisorDef {
                            bool2int: false,
                            data: y_node as u64,
                            negated: false,
                            propagator: prop,
                        },
                    ));
                }
            }
        }
        b
    }
}

/// Narrower domains keep the state of difference constraints in order.
pub proof fn lemma_in_order_narrowed(
    st: &DiffLogicState,
    before_ctx: &SolvingContext,
    ctx: &SolvingContext,
)
    requires
        st.in_order(before_ctx),
        ctx.wf(),
        ctx.grows(before_ctx),
        ctx.narrows(before_ctx),
        ctx.trail == before_ctx.trail,
    ensures
        st.in_order(ctx),
{
    lemma_grounded_narrowed(st, before_ctx, ctx);
    lemma_sound_narrowed(st, before_ctx, st, ctx);
}

impl SolvingContext {
    /// Require the difference of the decisions `x` and `y` to be at most `d`.
    pub fn tighten_difference(
        &mut self,
        graph: &mut DiffLogicState,
        x: usize,
        y: usize,
        d: IntVal,
        reason: ReasonBuilder,
    ) -> (r: Result<(), Conflict>)
        requires
            old(graph).in_order(old(self)),
            old(graph).propagator_ref is Some,
            lits_stand(&old(self).state.diff_lits, &old(graph).graph),
            x < old(self).ints.len(),
            y < old(self).ints.len(),
            IntVal::MIN < d < IntVal::MAX,
            can_obtain(old(self), old(graph), x, y, d as int),
        ensures
            final(graph).in_order(final(self)),
            lits_stand(&final(self).state.diff_lits, &final(graph).graph),
            exists|mid: SolvingContext, lit: Lit| #[trigger]
                tightened(
                    old(self),
                    old(graph),
                    &mid,
                    final(self),
                    final(graph),
                    x,
                    y,
                    d as int,
                    lit,
                    reason,
                    r,
                ),
            // What remains keeps the bound, and nothing that does is lost.
            forall|ints: IntAssignment, bools: BoolAssignment|
                #[trigger] final(self).admits(ints, bools) && diff_rule(&final(graph).graph)(
                    ints,
                    bools,
                ) && r is Ok ==> ints(x as int) - ints(y as int) <= d,
            forall|ints: IntAssignment, bools: BoolAssignment|
                #[trigger] old(self).admits(ints, bools) && diff_rule(&final(graph).graph)(
                    ints,
                    bools,
                ) && ints(x as int) - ints(y as int) <= d ==> r is Ok && final(self).admits(
                    ints,
                    bools,
                ),
    {
        let ghost ctx0 = *self;
        let ghost st0 = *graph;
        let b: BoolView = self.diff_lit(graph, x, y, d);
        let ghost mid = *self;
        let ghost lit = b->Lit_0;
        let r: Result<(), Conflict> = self.fix(b, true, reason);
        proof {
            if r is Ok {
                lemma_in_order_narrowed(graph, &mid, self);
            }
            let rule: Rule = |ints: IntAssignment, bools: BoolAssignment|
                BoolView::Lit(lit).holds(ints, bools) == true;
            let rule2 = lit_rule(lit);
            assert(rule =~= rule2);
            assert forall|ints: IntAssignment, bools: BoolAssignment| #[trigger]
                ctx0.admits(ints, bools) implies mid.admits(ints, bools) by {
                assert(mid.ints == ctx0.ints);
                assert forall|k: int| 0 <= k < mid.bools.len() implies (
                #[trigger] mid.bools[k] matches Some(val) ==> val == bools(k)) by {
                    if k < ctx0.bools.len() {
                        assert(mid.bools[k] == ctx0.bools[k]);
                    }
                }
            }
            assert forall|ints: IntAssignment, bools: BoolAssignment|
                #[trigger] self.admits(ints, bools) && r is Ok implies rule(ints, bools) by {}
            assert(tightened(
                &ctx0,
                &st0,
                &mid,
                self,
                graph,
                x,
                y,
                d as int,
                lit,
                reason,
                r,
            ));
        }
        r
    }
}

/// The rule that the literal holds.
pub open spec fn lit_rule(lit: Lit) -> Rule {
    |ints: IntAssignment, bools: BoolAssignment| BoolView::Lit(lit).holds(ints, bools) == true
}

/// What requiring a difference does: the literal of the difference is asked for, and required
/// to hold. There is a conflict if and only if it is fixed not to hold.
pub open spec fn tightened(
    ctx0: &SolvingContext,
    st0: &DiffLogicState,
    mid: &SolvingContext,
    ctx: &SolvingContext,
    st: &DiffLogicState,
    x: usize,
    y: usize,
    d: int,
    lit: Lit,
    reason: ReasonBuilder,
    r: Result<(), Conflict>,
) -> bool {
    &&& lit_obtained(ctx0, st0, mid, st, x, y, d, lit)
    &&& reified(&st.graph, x, y, d, lit)
    &&& ctx.restricts(mid, lit_rule(lit), reason, r)
    &&& r is Err <==> mid.decides(BoolView::Lit(lit), false)
    &&& r is Ok ==> ctx.decides(BoolView::Lit(lit), true)
}

/// The summand of an end of a difference literal.
pub open spec fn end_offset(view: IntView) -> int {
    view->Linear_offset as int
}

/// The bound for the decisions under two views with factor one.
pub open spec fn decision_bound(x: IntView, y: IntView, d: int) -> int {
    d - end_offset(x) + end_offset(y)
}

impl SolvingContext {
    /// A literal that holds if and only if the difference of two views with factor one is at
    /// most `d`.
    pub fn view_diff_lit(&mut self, graph: &mut DiffLogicState, x: IntView, y: IntView, d: IntVal)
        -> (r: BoolView)
        requires
            old(graph).in_order(old(self)),
            old(graph).propagator_ref is Some,
            lits_stand(&old(self).state.diff_lits, &old(graph).graph),
            x.is_diff_lit_endpoint(),
            y.is_diff_lit_endpoint(),
            old(self).has_view(x),
            old(self).has_view(y),
            -INT_LIMIT <= d <= INT_LIMIT,
            can_obtain(
                old(self),
                old(graph),
                x->Linear_var,
                y->Linear_var,
                decision_bound(x, y, d as int),
            ),
        ensures
            final(graph).in_order(final(self)),
            lits_stand(&final(self).state.diff_lits, &final(graph).graph),
            r matches BoolView::Lit(lit) && reified(
                &final(graph).graph,
                x->Linear_var,
                y->Linear_var,
                decision_bound(x, y, d as int),
                lit,
            ),
            final(self).knows(r),
            lit_obtained(
                old(self),
                old(graph),
                final(self),
                final(graph),
                x->Linear_var,
                y->Linear_var,
                decision_bound(x, y, d as int),
                r->Lit_0,
            ),
            forall|ints: IntAssignment, bools: BoolAssignment| #[trigger]
                diff_rule(&final(graph).graph)(ints, bools) ==> (r.holds(ints, bools) <==> x.eval(
                    ints,
                    bools,
                ) - y.eval(ints, bools) <= d),
            well_tied(old(self), final(self), &final(graph).graph),
    {
        match (x, y) {
            (
                IntView::Linear { var: xv, offset: xo, .. },
                IntView::Linear { var: yv, offset: yo, .. },
            ) => {
                let e: IntVal = d - xo + yo;
                let r: BoolView = self.diff_lit(graph, xv, yv, e);
                proof {
                    assert forall|ints: IntAssignment, bools: BoolAssignment| #[trigger]
                        diff_rule(&graph.graph)(ints, bools) implies (r.holds(ints, bools)
                        <==> x.eval(ints, bools) - y.eval(ints, bools) <= d) by {
                        lemma_diff_lit_meaning(
                            &graph.graph,
                            xv,
                            yv,
                            e as int,
                            r->Lit_0,
                            ints,
                            bools,
                        );
                    }
                }
                r
            },
            _ => BoolView::Const(false),
        }
    }
}

} // verus!
