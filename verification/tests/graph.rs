//! The graph of difference constraints, its propagator, and difference literals.

use huub::constraints::diff_propagator::DifferenceLogicPropagator;
use huub::constraints::diff_shells::{DifferenceLogicBooleansShell, DifferenceLogicBoundsShell};
use huub::constraints::difference_logic::DiffLogicState;
use huub::helpers::trail::Trail;
use huub::solver::engine::Engine;
use huub::solver::initialization::{InitializationContext, PriorityLevel};
use huub::solver::reason::{Reason, ReasonBuilder};
use huub::solver::solving_context::{IntEvent, IntPropCond, SolvingContext};
use huub::solver::view::{BoolView, IntLitMeaning, IntVal, IntView, Lit};

fn lit(var: usize) -> Lit {
    Lit { var, negated: false }
}

#[test]
fn gated_edge_counter_survives_backtrack_past_creation() {
    let mut trail = Trail::new();
    let mut g = DiffLogicState::new();
    let x = IntView::Const(1);
    let y = IntView::Const(2);
    let gate = BoolView::Lit(lit(1));

    // Create a gated edge at decision level 1.
    trail.notify_new_decision_level();
    let e = g.register_edge(&mut trail, x, y, 0, Some(gate));
    assert_eq!(g.graph.num_gated_created, 1);

    // Backtrack past the creation of the edge.
    trail.notify_backtrack(0);
    assert_eq!(
        g.graph.num_gated_created, 1,
        "created count must survive backtracking past register_edge"
    );

    // Closing the edge that is still open is well defined.
    assert!(g.graph.close_imp_edge(&mut trail, e));
    let closed = g.graph.num_closed(&trail);
    assert_eq!(closed, 1);
    assert_eq!(g.graph.num_gated_created - closed, 0);
    // It is closed once only.
    assert!(!g.graph.close_imp_edge(&mut trail, e));
    assert_eq!(g.graph.num_closed(&trail), 1);
}

#[test]
fn subsuming_global_edge_only_matches_stronger_gateless_edge() {
    let mut trail = Trail::new();
    let mut g = DiffLogicState::new();
    let x = IntView::Const(1);
    let y = IntView::Const(2);
    let z = IntView::Const(3);

    let _ = g.register_edge(&mut trail, x, y, 5, None);

    assert!(g.graph.subsuming_global_edge(&trail, x, y, 7));
    assert!(g.graph.subsuming_global_edge(&trail, x, y, 5));
    assert!(!g.graph.subsuming_global_edge(&trail, x, y, 4));

    assert!(!g.graph.subsuming_global_edge(&trail, y, x, 100));
    assert!(!g.graph.subsuming_global_edge(&trail, x, z, 100));

    let w = IntView::Const(9);
    assert!(!g.graph.subsuming_global_edge(&trail, w, y, 100));

    let gate = BoolView::Lit(lit(1));
    let _ = g.register_edge(&mut trail, x, z, 0, Some(gate));
    assert!(!g.graph.subsuming_global_edge(&trail, x, z, 100));
}

#[test]
fn closed_edges_open_again_on_backtracking() {
    let mut trail = Trail::new();
    let mut g = DiffLogicState::new();
    let gate = BoolView::Lit(lit(0));
    let edges: Vec<usize> = (0..3)
        .map(|i| {
            g.register_edge(&mut trail, IntView::Const(i), IntView::Const(i + 1), 0, Some(gate))
        })
        .collect();
    trail.notify_new_decision_level();
    assert!(g.graph.close_imp_edge(&mut trail, edges[1]));
    assert_eq!(g.graph.num_closed(&trail), 1);
    trail.notify_new_decision_level();
    assert!(g.graph.close_imp_edge(&mut trail, edges[0]));
    assert_eq!(g.graph.num_closed(&trail), 2);
    trail.notify_backtrack(1);
    assert_eq!(g.graph.num_closed(&trail), 1);
    assert!(!g.graph.close_imp_edge(&mut trail, edges[1]));
    assert!(g.graph.close_imp_edge(&mut trail, edges[0]));
    trail.notify_backtrack(0);
    assert_eq!(g.graph.num_closed(&trail), 0);
}

/// A context with the given integer decisions, and a propagator.
fn setting(domains: &[(IntVal, IntVal)]) -> (SolvingContext, DifferenceLogicPropagator) {
    let mut ctx = SolvingContext::new();
    for &(lb, ub) in domains {
        ctx.new_int(lb, ub);
    }
    (ctx, DifferenceLogicPropagator { graph: DiffLogicState::new() })
}

fn edge(
    ctx: &mut SolvingContext,
    prop: &mut DifferenceLogicPropagator,
    x: usize,
    y: usize,
    d: IntVal,
    gate: Option<BoolView>,
) -> usize {
    prop.graph.register_edge(
        &mut ctx.trail,
        IntView::decision(x),
        IntView::decision(y),
        d,
        gate,
    )
}

fn bounds(ctx: &SolvingContext, n: usize) -> Vec<(IntVal, IntVal)> {
    (0..n).map(|v| ctx.bounds(IntView::decision(v))).collect()
}

#[test]
fn the_first_run_passes_all_bounds_on() {
    let (mut ctx, mut prop) = setting(&[(3, 10), (0, 10), (0, 7)]);
    edge(&mut ctx, &mut prop, 0, 1, -1, None);
    edge(&mut ctx, &mut prop, 1, 2, -1, None);
    assert!(prop.propagate(&mut ctx).is_ok());
    assert_eq!(bounds(&ctx, 3), vec![(3, 5), (4, 6), (5, 7)]);
    // The reasons are the bounds before.
    assert!(ctx.propagation_queue.iter().all(|p| matches!(p.reason, Ok(Reason::Simple(_)))));
    // A second run has nothing to do.
    let known = ctx.propagation_queue.len();
    assert!(prop.propagate(&mut ctx).is_ok());
    assert_eq!(ctx.propagation_queue.len(), known);
}

#[test]
fn a_negative_cycle_is_a_conflict_without_a_reason() {
    let (mut ctx, mut prop) = setting(&[(0, 10), (0, 10)]);
    edge(&mut ctx, &mut prop, 0, 1, -1, None);
    edge(&mut ctx, &mut prop, 1, 0, 0, None);
    let conflict = prop.propagate(&mut ctx).unwrap_err();
    assert!(conflict.subject.is_none());
    assert_eq!(conflict.reason, Err(true));
}

#[test]
fn bounds_rule_out_gates_with_each_kind_of_reason() {
    for mode in 0..3 {
        let (mut ctx, mut prop) = setting(&[(6, 9), (0, 4)]);
        let b = BoolView::Lit(ctx.new_bool());
        prop.graph.bool_reasons = mode;
        let e = edge(&mut ctx, &mut prop, 0, 1, 1, Some(b));
        assert!(prop.propagate(&mut ctx).is_ok());
        assert_eq!(ctx.val(b), Some(false));
        let last = ctx.propagation_queue.last().unwrap();
        assert_eq!(last.lit, b.negate());
        match &last.reason {
            Ok(Reason::Lazy(later)) => {
                assert_eq!(mode, 0);
                assert_eq!(later.data >> 1, e as u64);
                let atoms = prop.explain(&ctx, later.data);
                assert_eq!(atoms.len(), 2);
                assert!(atoms.iter().all(|&a| ctx.val(a) == Some(true)));
            }
            Ok(Reason::Eager(atoms)) => {
                assert_eq!(atoms.len(), 2);
                assert!(mode > 0);
                // The lower bound is relaxed where one bound is kept as it is.
                let relaxed = IntView::decision(0).lit(
                    huub::solver::view::IntLitMeaning::GreaterEq(6),
                );
                assert_eq!(atoms[0], relaxed);
            }
            other => panic!("unexpected reason {other:?}"),
        }
    }
}

#[test]
fn relaxed_reasons_keep_one_bound() {
    let (mut ctx, mut prop) = setting(&[(8, 9), (0, 4)]);
    let b = BoolView::Lit(ctx.new_bool());
    let e = edge(&mut ctx, &mut prop, 0, 1, 1, Some(b));
    let shell = DifferenceLogicBoundsShell;
    // With the upper bound 4 of the end, a start of at least 6 is enough.
    let atoms = shell.explain(&prop.graph, &ctx, (e as u64) << 1);
    let ge = huub::solver::view::IntLitMeaning::GreaterEq;
    let less = huub::solver::view::IntLitMeaning::Less;
    assert_eq!(
        atoms,
        vec![IntView::decision(0).lit(ge(6)), IntView::decision(1).lit(less(5))]
    );
    // With the lower bound 8 of the start, an end of at most 6 is enough.
    let atoms = shell.explain(&prop.graph, &ctx, ((e as u64) << 1) | 1);
    assert_eq!(
        atoms,
        vec![IntView::decision(0).lit(ge(8)), IntView::decision(1).lit(less(7))]
    );
}

#[test]
fn gates_that_hold_activate_their_edges() {
    let (mut ctx, mut prop) = setting(&[(0, 10), (0, 10)]);
    let b = BoolView::Lit(ctx.new_bool());
    edge(&mut ctx, &mut prop, 0, 1, -3, Some(b));
    let mut request = InitializationContext::new();
    prop.initialize(5, &mut request);
    assert_eq!(prop.graph.propagator_ref, Some(5));
    assert_eq!(request.priority, PriorityLevel::Low);
    assert!(request.enqueue && request.backtrack);
    assert_eq!(request.int_advice.len(), 2);
    assert!(request.int_advice.iter().all(|a| a.cond == IntPropCond::Bounds));
    assert_eq!(request.bool_advice.len(), 1);
    assert!(prop.propagate(&mut ctx).is_ok());
    assert_eq!(bounds(&ctx, 2), vec![(0, 10), (0, 10)]);
    assert!(ctx.fix(b, true, ReasonBuilder::Atoms(Vec::new())).is_ok());
    assert!(prop.advise_of_bool_change(0));
    assert!(!prop.advise_of_bool_change(0));
    assert!(prop.propagate(&mut ctx).is_ok());
    assert_eq!(bounds(&ctx, 2), vec![(0, 7), (3, 10)]);
    // The bounds change, and the change is passed on.
    assert!(ctx
        .tighten_min(IntView::decision(0), 2, ReasonBuilder::Atoms(Vec::new()))
        .is_ok());
    assert!(prop.advise_of_int_change(&ctx, 0, IntEvent::LowerBound));
    assert!(prop.propagate(&mut ctx).is_ok());
    assert_eq!(bounds(&ctx, 2), vec![(2, 7), (5, 10)]);
}

#[test]
fn edges_that_others_imply_are_closed() {
    let (mut ctx, mut prop) = setting(&[(0, 20), (0, 20), (0, 20)]);
    let b = BoolView::Lit(ctx.new_bool());
    let c = BoolView::Lit(ctx.new_bool());
    prop.graph.use_inc_imp = true;
    edge(&mut ctx, &mut prop, 0, 1, -2, None);
    edge(&mut ctx, &mut prop, 1, 2, -2, Some(b));
    // The first one is implied once the edge above is active, the second one is ruled out.
    edge(&mut ctx, &mut prop, 0, 2, -1, Some(c));
    edge(&mut ctx, &mut prop, 2, 0, 3, Some(c.negate()));
    assert!(prop.propagate(&mut ctx).is_ok());
    assert_eq!(ctx.val(c), None);
    assert!(ctx.fix(b, true, ReasonBuilder::Atoms(Vec::new())).is_ok());
    prop.advise_of_bool_change(0);
    assert!(prop.propagate(&mut ctx).is_ok());
    assert_eq!(ctx.val(c), Some(true));
}

#[test]
fn the_shells_propagate_in_turn() {
    let (mut ctx, mut prop) = setting(&[(4, 10), (0, 10)]);
    let b = BoolView::Lit(ctx.new_bool());
    edge(&mut ctx, &mut prop, 0, 1, 0, Some(b));
    let bounds_shell = DifferenceLogicBoundsShell;
    let gates_shell = DifferenceLogicBooleansShell;
    let mut request = InitializationContext::new();
    bounds_shell.initialize(&prop.graph, &mut request);
    assert_eq!(request.priority, PriorityLevel::Medium);
    assert_eq!((request.int_advice.len(), request.bool_advice.len()), (2, 0));
    let mut request = InitializationContext::new();
    gates_shell.initialize(&prop.graph, &mut request);
    assert_eq!(request.priority, PriorityLevel::Low);
    assert_eq!((request.int_advice.len(), request.bool_advice.len()), (0, 1));

    assert!(bounds_shell.propagate(&mut prop.graph, &mut ctx).is_ok());
    assert!(ctx.fix(b, true, ReasonBuilder::Atoms(Vec::new())).is_ok());
    assert!(gates_shell.advise_of_bool_change(&mut prop.graph, 0));
    assert!(gates_shell.propagate(&mut prop.graph, &mut ctx).is_ok());
    assert_eq!(bounds(&ctx, 2), vec![(4, 10), (4, 10)]);
    bounds_shell.advise_of_backtrack(&mut prop.graph);
    gates_shell.advise_of_backtrack(&mut prop.graph);
    assert!(prop.graph.lower_bound.iter().all(|b| b.is_none()));
}

#[test]
fn backtracking_forgets_bounds_and_reports() {
    let (mut ctx, mut prop) = setting(&[(4, 10), (0, 10)]);
    edge(&mut ctx, &mut prop, 0, 1, 0, None);
    assert!(prop.propagate(&mut ctx).is_ok());
    assert_eq!(prop.graph.lower_bound, vec![Some(4), Some(4)]);
    prop.advise_of_backtrack();
    assert_eq!(prop.graph.lower_bound, vec![None, None]);
    assert_eq!(prop.graph.upper_bound, vec![None, None]);
    // A bound counts as news again.
    assert!(prop.advise_of_int_change(&ctx, 0, IntEvent::Fixed));
}

fn engine_with(domains: &[(IntVal, IntVal)]) -> Engine {
    let mut engine = Engine::new();
    for &(lb, ub) in domains {
        engine.context.new_int(lb, ub);
    }
    engine.ensure_diff_logic_propagator();
    engine
}

#[test]
fn diff_lit_subsumption_collapses_two_calls() {
    let mut engine = engine_with(&[(0, 10), (0, 10)]);
    let b1 = engine.context.diff_lit(&mut engine.diff_logic.graph, 0, 1, -1);
    let b2 = engine.context.diff_lit(&mut engine.diff_logic.graph, 0, 1, -1);
    assert_eq!(b1, b2, "second diff_lit call must reuse canonical Boolean");
    assert_eq!(engine.context.bools.len(), 1);
}

#[test]
fn diff_lit_reverse_direction_hit_returns_negation() {
    let mut engine = engine_with(&[(0, 10), (0, 10)]);
    let b = engine.context.diff_lit(&mut engine.diff_logic.graph, 0, 1, 3);
    let b_rev = engine.context.diff_lit(&mut engine.diff_logic.graph, 1, 0, -4);
    assert_eq!(
        b_rev,
        b.negate(),
        "reverse-direction diff_lit must return the negation of the forward Boolean"
    );
}

#[test]
fn mid_search_diff_lit_lazy_creation_on_solver() {
    let mut engine = engine_with(&[(0, 10), (0, 10)]);
    engine.context.diff_lit(&mut engine.diff_logic.graph, 0, 1, -1);
    let lazy = engine.context.diff_lit(&mut engine.diff_logic.graph, 0, 1, 5);
    let BoolView::Lit(l) = lazy else {
        panic!("expected a literal");
    };
    assert_eq!(
        engine.context.state.diff_lits.get(0, 1, 5),
        Some(l),
        "forward cache must hold the new gate"
    );
    assert_eq!(
        engine.context.state.diff_lits.get(1, 0, -6),
        Some(l.negate()),
        "reverse cache must hold !gate"
    );
    let graph = &engine.diff_logic.graph.graph;
    let from = graph.nodes.node(IntView::decision(0));
    let to = graph.nodes.node(IntView::decision(1));
    assert!(graph
        .edges
        .iter()
        .any(|e| e.from == from && e.to == to && e.val == 5 && e.bool_var.is_some()));
    assert!(graph
        .edges
        .iter()
        .any(|e| e.from == to && e.to == from && e.val == -6 && e.bool_var.is_some()));
    // The smaller bound implies the larger one.
    assert_eq!(engine.context.state.clauses, vec![vec![lit(0).negate(), lit(1)]]);
    assert_eq!(engine.context.state.statistics.lazy_literals, 2);
}

#[test]
fn mid_search_diff_lit_introduces_new_endpoint() {
    let mut engine = engine_with(&[(0, 10), (0, 10), (0, 10)]);
    engine.context.diff_lit(&mut engine.diff_logic.graph, 0, 1, -1);
    let advisors_before = engine.context.state.advisors.len();
    let _b = engine.context.diff_lit(&mut engine.diff_logic.graph, 0, 2, 0);
    let z = IntView::decision(2);
    assert!(
        engine.diff_logic.graph.graph.nodes.int_vars.contains(&z),
        "z should be interned into the diff-logic graph after mid-search diff_lit"
    );
    assert!(engine.context.state.diff_lits.get(0, 2, 0).is_some());
    assert!(
        engine.context.state.advisors.len() > advisors_before,
        "expected new advisors after mid-search introduction of z"
    );
    assert_eq!(engine.context.state.advisors.len(), advisors_before + 3);
    assert!(engine
        .context
        .state
        .int_activation
        .iter()
        .any(|a| a.var == 2 && a.cond == IntPropCond::Bounds));
}

#[test]
fn neighbours_of_a_difference_literal_are_tied_to_it() {
    let mut engine = engine_with(&[(0, 10), (0, 10)]);
    for d in [2, 6, 4] {
        engine.context.diff_lit(&mut engine.diff_logic.graph, 0, 1, d);
    }
    // 2 -> 6, then 2 -> 4 and 4 -> 6.
    assert_eq!(
        engine.context.state.clauses,
        vec![
            vec![lit(0).negate(), lit(1)],
            vec![lit(0).negate(), lit(2)],
            vec![lit(2).negate(), lit(1)],
        ]
    );
}

#[test]
fn requiring_a_difference_fixes_its_literal() {
    let mut engine = engine_with(&[(0, 10), (0, 10)]);
    let reason = || ReasonBuilder::Atoms(Vec::new());
    let r = engine.context.tighten_difference(&mut engine.diff_logic.graph, 0, 1, -2, reason());
    assert!(r.is_ok());
    assert_eq!(engine.context.bools, vec![Some(true)]);
    engine.diff_logic.advise_of_bool_change(0);
    engine.context.propagation_queue.clear();
    engine.context.run_propagators(&mut engine.propagators, &mut engine.diff_logic);
    assert_eq!(bounds(&engine.context, 2), vec![(0, 8), (2, 10)]);
    // The opposite is a conflict now.
    let r = engine.context.tighten_difference(&mut engine.diff_logic.graph, 1, 0, 1, reason());
    assert!(r.is_err());
}

#[test]
fn bounds_are_followed_along_paths() {
    let (mut ctx, mut prop) = setting(&[(0, 10), (0, 10), (0, 10)]);
    edge(&mut ctx, &mut prop, 0, 1, 0, None);
    edge(&mut ctx, &mut prop, 1, 2, 0, None);
    assert!(prop.propagate(&mut ctx).is_ok());
    assert!(ctx
        .tighten_min(IntView::decision(0), 5, ReasonBuilder::Atoms(Vec::new()))
        .is_ok());
    assert!(prop.advise_of_int_change(&ctx, 0, IntEvent::LowerBound));
    assert!(prop.propagate(&mut ctx).is_ok());
    assert_eq!(bounds(&ctx, 3), vec![(5, 10), (5, 10), (5, 10)]);
    assert_eq!(prop.graph.lower_bound, vec![Some(5), Some(5), Some(5)]);
}

#[test]
fn reasons_name_bounds_that_are_assigned() {
    let (mut ctx, mut prop) = setting(&[(0, 10), (0, 10)]);
    edge(&mut ctx, &mut prop, 0, 1, 0, None);
    assert!(prop.propagate(&mut ctx).is_ok());
    let x = IntView::decision(0);
    let ge = |v| x.lit(IntLitMeaning::GreaterEq(v));
    assert!(ctx.tighten_min(x, 6, ReasonBuilder::Atoms(Vec::new())).is_ok());
    // The literal of the new bound is assigned, those of the bounds before it are not.
    assert!(ctx.is_assigned(ge(6)) && !ctx.is_assigned(ge(4)));
    assert_eq!(DiffLogicState::relaxed_ge_lit(&ctx, x, 4), ge(6));
    // The strongest assigned literal is named.
    ctx.note_assigned(ge(5));
    assert_eq!(DiffLogicState::relaxed_ge_lit(&ctx, x, 4), ge(6));
    // No literal from the bound on is assigned.
    assert_eq!(DiffLogicState::relaxed_ge_lit(&ctx, x, 7), ge(7));
    let lt = |v| x.lit(IntLitMeaning::Less(v));
    assert_eq!(DiffLogicState::relaxed_lt_lit(&ctx, x, 12), lt(12));
    ctx.note_assigned(lt(12));
    ctx.note_assigned(lt(11));
    assert_eq!(DiffLogicState::relaxed_lt_lit(&ctx, x, 13), lt(11));
    assert_eq!(DiffLogicState::relaxed_lt_lit(&ctx, x, 10), lt(10));
    let (mut ctx, _) = setting(&[(5, 10)]);
    ctx.note_assigned(ge(3));
    ctx.note_assigned(ge(5));
    assert_eq!(DiffLogicState::relaxed_ge_lit(&ctx, x, 3), ge(5));
}

#[test]
fn asking_again_gives_the_same_literal() {
    let mut engine = engine_with(&[(0, 10), (0, 10)]);
    let first = engine.context.diff_lit(&mut engine.diff_logic.graph, 0, 1, 3);
    // No more literals can be counted, and none is needed.
    engine.context.state.statistics.lazy_literals = u64::MAX;
    let edges = engine.diff_logic.graph.graph.edges.len();
    assert_eq!(engine.context.diff_lit(&mut engine.diff_logic.graph, 0, 1, 3), first);
    assert_eq!(engine.context.diff_lit(&mut engine.diff_logic.graph, 1, 0, -4), first.negate());
    assert_eq!(engine.diff_logic.graph.graph.edges.len(), edges);
}

#[test]
fn reasons_that_are_put_off_name_their_edges() {
    let (mut ctx, mut prop) = setting(&[(6, 9), (0, 4), (7, 9)]);
    let gates: Vec<BoolView> = (0..3).map(|_| BoolView::Lit(ctx.new_bool())).collect();
    // The first edge can be kept, the others cannot.
    edge(&mut ctx, &mut prop, 0, 2, 1, Some(gates[0]));
    let first = edge(&mut ctx, &mut prop, 0, 1, 1, Some(gates[1]));
    let second = edge(&mut ctx, &mut prop, 2, 1, 0, Some(gates[2]));
    assert!(prop.propagate(&mut ctx).is_ok());
    assert_eq!(ctx.val(gates[0]), None);
    let mut refused: Vec<(BoolView, u64)> = ctx
        .propagation_queue
        .iter()
        .map(|p| match &p.reason {
            Ok(Reason::Lazy(later)) => (p.lit, later.data >> 1),
            other => panic!("unexpected reason {other:?}"),
        })
        .collect();
    refused.sort_by_key(|&(_, e)| e);
    assert_eq!(
        refused,
        vec![(gates[1].negate(), first as u64), (gates[2].negate(), second as u64)]
    );
    let ge = IntLitMeaning::GreaterEq;
    let less = IntLitMeaning::Less;
    assert_eq!(
        prop.explain(&ctx, (second as u64) << 1),
        vec![IntView::decision(2).lit(ge(7)), IntView::decision(1).lit(less(5))]
    );
}
