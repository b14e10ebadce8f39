//! Searches that use the propagators.

use huub::constraints::cumulative_slack::IntUniqueBoundsCumulativeSlack;
use huub::constraints::int_unique::{IntUnique, IntUniqueBounds, IntUniqueValue};
use huub::model::diff_logic::{
    expand_collection, DiffEdge, DifferenceLogicConstraint,
};
use huub::model::simplify::{
    simplify_cycle_detection, simplify_johnson_pruning, simplify_unify,
};
use huub::model::tightening::simplify_bound_tightening;
use huub::model::Model;
use huub::solver::brancher::{Directive, DiffLogicBrancher};
use huub::solver::engine::{Engine, PropagatorKind};
use huub::solver::initialization::{InitializationContext, PriorityLevel};
use huub::solver::reason::ReasonBuilder;
use huub::solver::solving_context::{IntEvent, SolvingContext};
use huub::solver::view::{BoolView, IntLitMeaning, IntVal, IntView};
use itertools::Itertools;

/// Whether the view is one of the integer decision, and with a negative factor.
fn touches(view: IntView, var: usize) -> Option<bool> {
    match view {
        IntView::Linear { var: v, scale, .. } if v == var => Some(scale < 0),
        _ => None,
    }
}

fn swapped(event: IntEvent, negated: bool) -> IntEvent {
    match (event, negated) {
        (IntEvent::LowerBound, true) => IntEvent::UpperBound,
        (IntEvent::UpperBound, true) => IntEvent::LowerBound,
        _ => event,
    }
}

/// Tell the propagators of a change.
fn notify(engine: &mut Engine, lit: BoolView, event: Option<(usize, IntEvent)>) {
    let Engine { propagators, diff_logic, context, .. } = engine;
    let mut woken = Vec::new();
    for (k, p) in propagators.iter_mut().enumerate() {
        let mut wake = false;
        match p {
            PropagatorKind::UniqueBounds(u) => {
                if let Some((var, _)) = event {
                    wake = u.var.iter().any(|&v| touches(v, var).is_some());
                }
            }
            PropagatorKind::UniqueValue(u) => {
                if let Some((var, IntEvent::Fixed)) = event {
                    for i in 0..u.vars.len() {
                        if touches(u.vars[i], var).is_some() {
                            wake |= u.advise_of_int_change(i as u64, IntEvent::Fixed);
                        }
                    }
                }
            }
            PropagatorKind::UniqueCumulativeSlack(u) => {
                if let Some((var, e)) = event {
                    for i in 0..u.bounds.var.len() {
                        if touches(u.bounds.var[i], var).is_some() {
                            assert!(!u.advise_of_int_change(i as u64, e));
                            wake = true;
                        }
                    }
                }
            }
            PropagatorKind::DifferenceLogic => {
                if let Some((var, e)) = event {
                    for n in 0..diff_logic.graph.graph.nodes.int_vars.len() {
                        if let Some(neg) = touches(diff_logic.graph.graph.nodes.int_vars[n], var) {
                            wake |= diff_logic.advise_of_int_change(
                                context,
                                n as u64,
                                swapped(e, neg),
                            );
                        }
                    }
                }
                for b in 0..diff_logic.graph.graph.bool_vars.len() {
                    let view = diff_logic.graph.graph.bool_vars[b];
                    let same = match (view, lit, event) {
                        (BoolView::Lit(x), BoolView::Lit(y), _) => x.var == y.var,
                        (BoolView::Int(v, _), _, Some((var, _))) => v == var,
                        _ => false,
                    };
                    if same && context.val(view).is_some() {
                        wake |= diff_logic.advise_of_bool_change(b as u64);
                    }
                }
            }
        }
        if wake {
            woken.push(k);
        }
    }
    for k in woken {
        engine.enqueue_propagator(k);
    }
}

/// What a change is told as: bounds that a removed value changes are told of as well, and that
/// only one value is left.
fn told(ctx: &SolvingContext, event: Option<(usize, IntEvent)>) -> Vec<Option<(usize, IntEvent)>> {
    match event {
        None => vec![None],
        Some((var, e)) => {
            if ctx.ints[var].val().is_some() {
                vec![Some((var, IntEvent::Fixed))]
            } else if e == IntEvent::Domain {
                vec![Some((var, e)), Some((var, IntEvent::LowerBound)), Some((var, IntEvent::UpperBound))]
            } else {
                vec![Some((var, e))]
            }
        }
    }
}

/// Run the propagators until nothing changes. Returns whether there is no conflict.
fn fixpoint(engine: &mut Engine) -> bool {
    loop {
        let queue = std::mem::take(&mut engine.context.propagation_queue);
        if queue.is_empty() && engine.context.state.propagator_queue.is_empty() {
            return true;
        }
        for change in queue {
            for event in told(&engine.context, change.event) {
                notify(engine, change.lit, event);
            }
        }
        engine.context.run_propagators(&mut engine.propagators, &mut engine.diff_logic);
        if engine.context.state.conflict.is_some() {
            return false;
        }
    }
}

/// What is decided on the way to a node of the search.
#[derive(Clone, Copy)]
struct Choice {
    lit: BoolView,
}

/// Follow a path of the search.
fn descend(build: &dyn Fn() -> Option<Engine>, path: &[Choice]) -> Option<Engine> {
    let mut engine = build()?;
    if !fixpoint(&mut engine) {
        return None;
    }
    for choice in path {
        engine.context.trail.notify_new_decision_level();
        if engine.context.require(choice.lit, ReasonBuilder::Atoms(Vec::new())).is_err() {
            return None;
        }
        if !fixpoint(&mut engine) {
            return None;
        }
    }
    Some(engine)
}

/// Search for values of all decisions. Returns whether the visitor stopped the search.
fn search(
    build: &dyn Fn() -> Option<Engine>,
    path: &mut Vec<Choice>,
    visit: &mut dyn FnMut(&SolvingContext) -> bool,
) -> bool {
    let Some(engine) = descend(build, path) else {
        return false;
    };
    let ctx = &engine.context;
    let mut best: Option<(IntVal, usize)> = None;
    for v in 0..ctx.ints.len() {
        let view = IntView::decision(v);
        let (lb, ub) = ctx.bounds(view);
        let size = (lb..=ub).filter(|&x| ctx.ints[v].in_domain(x)).count() as IntVal;
        if size > 1 && best.map_or(true, |(s, _)| size < s) {
            best = Some((size, v));
        }
    }
    let choices: Vec<BoolView> = match best {
        Some((_, v)) => {
            let (lb, ub) = ctx.bounds(IntView::decision(v));
            (lb..=ub)
                .filter(|&x| ctx.ints[v].in_domain(x))
                .map(|x| IntView::decision(v).lit(IntLitMeaning::Eq(x)))
                .collect()
        }
        None => {
            match (0..ctx.bools.len()).find(|&b| ctx.bools[b].is_none()) {
                Some(b) => {
                    let lit = huub::solver::view::Lit { var: b, negated: false };
                    vec![BoolView::Lit(lit), BoolView::Lit(lit.negate())]
                }
                None => return visit(ctx),
            }
        }
    };
    for lit in choices {
        path.push(Choice { lit });
        let stop = search(build, path, visit);
        path.pop();
        if stop {
            return true;
        }
    }
    false
}

/// The values of the views in all solutions.
fn all_solutions(build: &dyn Fn() -> Option<Engine>, views: &[IntView]) -> Vec<Vec<IntVal>> {
    let mut found = Vec::new();
    search(build, &mut Vec::new(), &mut |ctx| {
        found.push(views.iter().map(|&v| ctx.min(v)).collect_vec());
        false
    });
    found.sort();
    found
}

/// Compare the solutions with those that are found by trying all values.
fn assert_all_solutions(
    build: &dyn Fn() -> Option<Engine>,
    domains: &[(IntVal, IntVal)],
    views: &[IntView],
    keeps: &dyn Fn(&[IntVal]) -> bool,
) {
    let expected = domains
        .iter()
        .map(|&(lb, ub)| lb..=ub)
        .multi_cartesian_product()
        .filter(|sol| keeps(sol))
        .collect_vec();
    assert_eq!(all_solutions(build, views), expected);
}

fn with_ints(domains: &[(IntVal, IntVal)]) -> (Engine, Vec<IntView>) {
    let mut engine = Engine::new();
    let views = domains
        .iter()
        .map(|&(lb, ub)| IntView::decision(engine.context.new_int(lb, ub)))
        .collect();
    (engine, views)
}

#[derive(Clone, Copy)]
enum Unique {
    Bounds,
    Value,
    Slack,
}

fn unique_engine(domains: &[(IntVal, IntVal)], kind: Unique) -> Option<Engine> {
    let (mut engine, views) = with_ints(domains);
    match kind {
        Unique::Bounds => IntUniqueBounds::post(&mut engine, views),
        Unique::Value => IntUniqueValue::post(&mut engine, views),
        Unique::Slack => IntUniqueBoundsCumulativeSlack::post(&mut engine, views),
    }
    Some(engine)
}

fn assert_unique_solutions(domains: &[(IntVal, IntVal)], kind: Unique) {
    let views: Vec<IntView> = (0..domains.len()).map(IntView::decision).collect();
    assert_all_solutions(
        &|| unique_engine(domains, kind),
        domains,
        &views,
        &|sol| sol.iter().all_unique(),
    );
}

#[test]
fn test_all_different_bounds_sat_1() {
    assert_unique_solutions(&[(1, 3), (1, 3), (1, 3)], Unique::Bounds);
}

#[test]
fn test_all_different_bounds_sat_2() {
    assert_unique_solutions(
        &[(3, 4), (2, 4), (3, 4), (2, 5), (3, 6), (1, 6)],
        Unique::Bounds,
    );
}

#[test]
fn test_all_different_bounds_sat_3() {
    assert_unique_solutions(
        &[(3, 6), (3, 4), (2, 5), (2, 4), (3, 4), (1, 6)],
        Unique::Bounds,
    );
}

#[test]
fn test_all_different_bounds_unsat() {
    let domains = [(1, 3), (1, 3), (1, 3)];
    let views: Vec<IntView> = (0..3).map(IntView::decision).collect();
    let found = all_solutions(&|| unique_engine(&domains, Unique::Bounds), &views);
    assert_eq!(found.len(), 6);
    // The sum must be at least 8 as well.
    assert!(!found.iter().any(|sol| -sol[0] - sol[1] - sol[2] <= -8));
}

#[test]
fn test_all_different_value_sat() {
    assert_unique_solutions(&[(1, 4), (1, 4), (1, 4)], Unique::Value);
}

#[test]
fn test_all_different_value_unsat() {
    let domains = [(1, 2), (1, 2), (1, 2)];
    let views: Vec<IntView> = (0..3).map(IntView::decision).collect();
    assert!(all_solutions(&|| unique_engine(&domains, Unique::Value), &views).is_empty());
}

#[test]
fn test_gapped_domain_regression() {
    let mut ctx = SolvingContext::new();
    let a = IntView::decision(ctx.new_int(15, 20));
    let b = IntView::decision(ctx.new_int(20, 20));
    let c = IntView::decision(ctx.new_int(15, 20));
    for view in [a, c] {
        for v in 16..20 {
            assert!(ctx.remove_val(view, v, ReasonBuilder::Atoms(Vec::new())).is_ok());
        }
    }
    let mut unique = IntUnique::new(vec![a, b, c]);
    let mut request = InitializationContext::new();
    unique.initialize(&ctx, &mut request);
    assert!(request.enqueue);
    assert!(unique.simplify(&mut ctx).is_err());
}

fn sudoku_engine(grid: &[&str]) -> (Engine, Vec<Vec<IntView>>) {
    let mut engine = Engine::new();
    let mut all_vars: Vec<Vec<IntView>> = Vec::new();
    for row in grid {
        let vars: Vec<IntView> = row
            .chars()
            .map(|c| match c.to_digit(10) {
                Some(num) => IntView::Const(IntVal::from(num)),
                None => IntView::decision(engine.context.new_int(1, 9)),
            })
            .collect();
        IntUniqueValue::post(&mut engine, vars.clone());
        all_vars.push(vars);
    }
    for i in 0..9 {
        let col = (0..9).map(|j| all_vars[j][i]).collect();
        IntUniqueValue::post(&mut engine, col);
    }
    for i in 0..3 {
        for j in 0..3 {
            let block = (0..3)
                .cartesian_product(0..3)
                .map(|(x, y)| all_vars[3 * i + x][3 * j + y])
                .collect();
            IntUniqueValue::post(&mut engine, block);
        }
    }
    (engine, all_vars)
}

fn test_sudoku(grid: &[&str]) {
    assert_eq!(grid.len(), 9);
    assert!(grid.iter().all(|row| row.len() == 9));
    let (_, all_vars) = sudoku_engine(grid);
    let satisfied = search(&|| Some(sudoku_engine(grid).0), &mut Vec::new(), &mut |sol| {
        for r in 0..9 {
            let row = all_vars[r].iter().map(|&v| sol.min(v)).collect_vec();
            assert!(row.iter().all_unique(), "Values in row {r} are not all different: {row:?}");
        }
        for c in 0..9 {
            let col = all_vars.iter().map(|row| sol.min(row[c])).collect_vec();
            assert!(col.iter().all_unique(), "Values in column {c} are not all different: {col:?}");
        }
        for i in 0..3 {
            for j in 0..3 {
                let block = (0..3)
                    .cartesian_product(0..3)
                    .map(|(x, y)| sol.min(all_vars[3 * i + x][3 * j + y]))
                    .collect_vec();
                assert!(
                    block.iter().all_unique(),
                    "Values in block ({i}, {j}) are not all different: {block:?}"
                );
            }
        }
        true
    });
    assert!(satisfied);
}

#[test]
fn test_sudoku_1() {
    test_sudoku(&[
        "2581.4.37",
        "936827514",
        "47153.28.",
        "7152.3.4.",
        "849675321",
        "36241..75",
        "1249..753",
        "593742168",
        "687351492",
    ]);
}

#[test]
fn test_sudoku_2() {
    test_sudoku(&[
        "...2.5...",
        ".9....73.",
        "..2..9.6.",
        "2.....4.9",
        "....7....",
        "6.9.....1",
        ".8.4..1..",
        ".63....8.",
        "...6.8...",
    ]);
}

#[test]
fn test_sudoku_3() {
    test_sudoku(&[
        "3..9.4..1",
        "..2...4..",
        ".61...79.",
        "6..247..5",
        ".........",
        "2..836..4",
        ".46...23.",
        "..9...6..",
        "5..3.9..8",
    ]);
}

#[test]
fn test_sudoku_4() {
    test_sudoku(&[
        "....1....",
        "3.14..86.",
        "9..5..2..",
        "7..16....",
        ".2.8.5.1.",
        "....97..4",
        "..3..4..6",
        ".48..69.7",
        "....8....",
    ]);
}

#[test]
fn test_sudoku_5() {
    test_sudoku(&[
        "..4..3.7.",
        ".8..7....",
        ".7...82.5",
        "4.....31.",
        "9.......8",
        ".15.....4",
        "1.69...3.",
        "....2..6.",
        ".2.4..5..",
    ]);
}

#[test]
fn test_sudoku_6() {
    test_sudoku(&[
        ".43.8.25.",
        "6........",
        ".....1.94",
        "9....4.7.",
        "...6.8...",
        ".1.2....3",
        "82.5.....",
        "........5",
        ".34.9.71.",
    ]);
}

#[test]
fn test_cumulative_slack_sat_1() {
    assert_unique_solutions(&[(1, 3), (1, 3), (1, 3)], Unique::Slack);
}

#[test]
fn test_cumulative_slack_sat_2() {
    assert_unique_solutions(
        &[(3, 4), (2, 4), (3, 4), (2, 5), (3, 6), (1, 6)],
        Unique::Slack,
    );
}

#[test]
fn test_cumulative_slack_unsat() {
    let domains = [(1, 2), (1, 2), (1, 2)];
    let views: Vec<IntView> = (0..3).map(IntView::decision).collect();
    assert!(all_solutions(&|| unique_engine(&domains, Unique::Slack), &views).is_empty());
}

// Difference constraints.

/// Take the difference constraints of a model into an engine.
fn lower(mut model: Model) -> Option<(Engine, Vec<Vec<BoolView>>)> {
    let raw = model.diff_logic.take_constraints();
    let edges = expand_collection(&mut model, raw).ok()?;
    let edges = simplify_cycle_detection(&model, edges).ok()?;
    let edges = simplify_bound_tightening(&mut model, edges).ok()?;
    let edges = simplify_johnson_pruning(&model, edges);
    let edges: Vec<DiffEdge> = simplify_unify(&mut model, edges).ok()?;
    let mut engine = Engine::new();
    let clauses = std::mem::take(&mut model.clauses);
    engine.context = model.ctx;
    for e in &edges {
        engine.diff_logic.graph.register_edge(&mut engine.context.trail, e.x, e.y, e.d, e.gate);
    }
    engine.diff_logic.graph.use_inc_imp = true;
    engine.ensure_diff_logic_propagator();
    for b in 0..engine.diff_logic.graph.graph.bool_vars.len() {
        if engine.context.val(engine.diff_logic.graph.graph.bool_vars[b]).is_some() {
            engine.diff_logic.advise_of_bool_change(b as u64);
        }
    }
    Some((engine, clauses))
}

/// The values of the views in all solutions of the model in which the literals hold.
fn model_solutions(
    make: &dyn Fn() -> Model,
    views: &[IntView],
    units: &[BoolView],
    keeps: &dyn Fn(&SolvingContext) -> bool,
) -> Vec<Vec<IntVal>> {
    let mut found = Vec::new();
    let build = || {
        let (mut engine, _) = lower(make())?;
        for &u in units {
            engine.context.require(u, ReasonBuilder::Atoms(Vec::new())).ok()?;
        }
        Some(engine)
    };
    let clauses = lower(make()).map(|(_, c)| c).unwrap_or_default();
    search(&build, &mut Vec::new(), &mut |ctx| {
        let clauses_hold =
            clauses.iter().all(|c| c.iter().any(|&b| ctx.val(b) == Some(true)));
        if clauses_hold && keeps(ctx) {
            found.push(views.iter().map(|&v| ctx.min(v)).collect_vec());
        }
        false
    });
    found.sort();
    found.dedup();
    found
}

/// All values of the views that keep the predicate.
fn brute(domains: &[(IntVal, IntVal)], keeps: &dyn Fn(&[IntVal]) -> bool) -> Vec<Vec<IntVal>> {
    domains
        .iter()
        .map(|&(lb, ub)| lb..=ub)
        .multi_cartesian_product()
        .filter(|sol| keeps(sol))
        .collect_vec()
}

fn triangle() -> (Model, [IntView; 3]) {
    let mut model = Model::default();
    let x = model.new_int_decision(0, 10);
    let y = model.new_int_decision(0, 10);
    let z = model.new_int_decision(0, 10);
    assert!(model.add_diff_logic_constraint(DifferenceLogicConstraint::Global(y, x, 0)));
    assert!(model.add_diff_logic_constraint(DifferenceLogicConstraint::Global(z, y, 0)));
    (model, [x, y, z])
}

#[test]
fn diff_logic_triangle_propagates_lower_bound() {
    let (_, views) = triangle();
    let found = model_solutions(&|| triangle().0, &views, &[], &|_| true);
    let expected = brute(&[(0, 10), (0, 10), (0, 10)], &|s| s[1] <= s[0] && s[2] <= s[1]);
    assert_eq!(found, expected);
}

#[test]
fn difference_logic_triangle_propagates_lower_bound() {
    let (_, [x, y, z]) = triangle();
    let (mut engine, _) = lower(triangle().0).unwrap();
    assert!(fixpoint(&mut engine));
    // Every first solution keeps the order.
    assert!(search(&|| lower(triangle().0).map(|(e, _)| e), &mut Vec::new(), &mut |sol| {
        let (vx, vy, vz) = (sol.min(x), sol.min(y), sol.min(z));
        assert!(vy <= vx, "y={vy} > x={vx} violates y - x <= 0");
        assert!(vz <= vy, "z={vz} > y={vy} violates z - y <= 0");
        true
    }));
}

fn gated(
    domain: (IntVal, IntVal),
    make: &dyn Fn(BoolView, IntView, IntView) -> DifferenceLogicConstraint,
) -> (Model, IntView, IntView, BoolView) {
    let mut model = Model::default();
    let x = model.new_int_decision(domain.0, domain.1);
    let y = model.new_int_decision(domain.0, domain.1);
    let b = model.new_bool_decision();
    assert!(model.add_diff_logic_constraint(make(b, x, y)));
    (model, x, y, b)
}

/// The solutions with the gating view fixed.
fn gated_solutions(
    domain: (IntVal, IntVal),
    make: &dyn Fn(BoolView, IntView, IntView) -> DifferenceLogicConstraint,
    value: bool,
) -> Vec<Vec<IntVal>> {
    let (_, x, y, b) = gated(domain, make);
    let unit = if value { b } else { b.negate() };
    model_solutions(&|| gated(domain, make).0, &[x, y], &[unit], &|_| true)
}

#[test]
fn diff_logic_implied_edge_propagates_when_gate_true() {
    let found = gated_solutions(
        (0, 5),
        &|b, x, y| DifferenceLogicConstraint::Implied(b, y, x, 0),
        true,
    );
    assert_eq!(found, brute(&[(0, 5), (0, 5)], &|s| s[1] <= s[0]));
}

#[test]
fn difference_logic_implied_edge_propagates_when_gate_true() {
    // With the gating view fixed not to hold, nothing is implied.
    let make = |b, x, y| DifferenceLogicConstraint::Implied(b, y, x, 0);
    assert_eq!(gated_solutions((0, 5), &make, false), brute(&[(0, 5), (0, 5)], &|_| true));
    assert!(gated_solutions((0, 5), &make, true).iter().all(|s| s[1] <= s[0]));
}

#[test]
fn diff_logic_reified_edge_negation_propagates_when_gate_false() {
    let found = gated_solutions(
        (0, 5),
        &|b, x, y| DifferenceLogicConstraint::Reified(b, x, y, 0),
        false,
    );
    assert_eq!(found, brute(&[(0, 5), (0, 5)], &|s| s[0] > s[1]));
}

#[test]
fn difference_logic_reified_edge_negation_propagates_when_gate_false() {
    let make = |b, x, y| DifferenceLogicConstraint::Reified(b, x, y, 0);
    assert_eq!(gated_solutions((0, 5), &make, true), brute(&[(0, 5), (0, 5)], &|s| s[0] <= s[1]));
    assert!(gated_solutions((0, 5), &make, false).iter().all(|s| s[0] > s[1]));
}

fn not_equals() -> (Model, IntView, IntView) {
    let mut model = Model::default();
    let x = model.new_int_decision(0, 4);
    let y = model.new_int_decision(0, 4);
    assert!(model.add_diff_logic_constraint(DifferenceLogicConstraint::NotEquals(x, y, 2)));
    (model, x, y)
}

#[test]
fn diff_logic_not_equals_forbids_exact_difference() {
    let (_, x, y) = not_equals();
    let pin = y.lit(IntLitMeaning::Eq(1));
    let found = model_solutions(&|| not_equals().0, &[x, y], &[pin], &|_| true);
    assert_eq!(found, vec![vec![0, 1], vec![1, 1], vec![2, 1], vec![4, 1]]);
}

#[test]
fn difference_logic_not_equals_forbids_exact_difference() {
    let (_, x, y) = not_equals();
    let found = model_solutions(&|| not_equals().0, &[x, y], &[], &|_| true);
    assert!(!found.is_empty());
    assert!(found.iter().all(|s| s[0] - s[1] != 2));
    assert_eq!(found, brute(&[(0, 4), (0, 4)], &|s| s[0] - s[1] != 2));
}

#[test]
fn diff_logic_implied_equals_propagates_when_gate_true() {
    let found = gated_solutions(
        (0, 10),
        &|b, x, y| DifferenceLogicConstraint::ImpliedEquals(b, x, y, 2),
        true,
    );
    assert_eq!(found, brute(&[(0, 10), (0, 10)], &|s| s[0] - s[1] == 2));
}

#[test]
fn difference_logic_implied_equals_propagates_when_gate_true() {
    let make = |b, x, y| DifferenceLogicConstraint::ImpliedEquals(b, x, y, 2);
    assert!(gated_solutions((0, 10), &make, true).iter().all(|s| s[0] - s[1] == 2));
    assert_eq!(gated_solutions((0, 10), &make, false).len(), 121);
}

#[test]
fn diff_logic_reified_equals_negative_side_propagates() {
    let found = gated_solutions(
        (0, 3),
        &|b, x, y| DifferenceLogicConstraint::ReifiedEquals(b, x, y, 0),
        false,
    );
    assert_eq!(found, brute(&[(0, 3), (0, 3)], &|s| s[0] != s[1]));
}

#[test]
fn difference_logic_reified_equals_negative_side_propagates() {
    let make = |b, x, y| DifferenceLogicConstraint::ReifiedEquals(b, x, y, 0);
    assert_eq!(gated_solutions((0, 3), &make, true), brute(&[(0, 3), (0, 3)], &|s| s[0] == s[1]));
    assert!(gated_solutions((0, 3), &make, false).iter().all(|s| s[0] != s[1]));
}

#[test]
fn diff_logic_negative_cycle_is_detected_at_lowering() {
    let mut model = Model::default();
    let x = model.new_int_decision(0, 10);
    let y = model.new_int_decision(0, 10);
    assert!(model.add_diff_logic_constraint(DifferenceLogicConstraint::Global(x, y, -1)));
    assert!(model.add_diff_logic_constraint(DifferenceLogicConstraint::Global(y, x, -1)));
    assert!(lower(model).is_none(), "negative cycle should surface as a lowering error");
}

#[test]
fn difference_logic_negative_cycle_is_detected_at_lowering() {
    let mut model = Model::default();
    let x = model.new_int_decision(0, 10);
    let y = model.new_int_decision(0, 10);
    assert!(model.add_diff_logic_constraint(DifferenceLogicConstraint::Global(x, y, -1)));
    assert!(model.add_diff_logic_constraint(DifferenceLogicConstraint::Global(y, x, -1)));
    let raw = model.diff_logic.take_constraints();
    let edges = expand_collection(&mut model, raw).unwrap();
    assert!(simplify_cycle_detection(&model, edges).is_err());
}

#[test]
fn slice2_returns_conflict_when_domain_empties() {
    let mut model = Model::default();
    let x = model.new_int_decision(0, 3);
    let y = model.new_int_decision(10, 20);
    assert!(model.add_diff_logic_constraint(DifferenceLogicConstraint::Global(y, x, 0)));
    assert!(lower(model).is_none());
}

/// Branch on the order of the views until nothing is left to branch on.
fn branch(engine: &mut Engine) -> bool {
    loop {
        if !fixpoint(engine) {
            return false;
        }
        let brancher = engine.branchers.pop().unwrap();
        let next = brancher.decide(&mut engine.context, &mut engine.diff_logic.graph);
        engine.branchers.push(brancher);
        match next {
            Directive::Exhausted => return true,
            Directive::Select(b) => {
                engine.context.trail.notify_new_decision_level();
                assert!(engine.context.require(b, ReasonBuilder::Atoms(Vec::new())).is_ok());
            }
        }
    }
}

#[test]
fn brancher_solves_pair_chain() {
    let (mut engine, views) = with_ints(&[(0, 10), (0, 10), (0, 10)]);
    engine.ensure_diff_logic_propagator();
    DiffLogicBrancher::new_in(&mut engine, views.clone());
    assert!(branch(&mut engine));
    // Every pair is ordered, the first choice being that the first one is less.
    assert_eq!(engine.context.bounds(views[0]), (0, 8));
    assert_eq!(engine.context.bounds(views[1]), (1, 9));
    assert_eq!(engine.context.bounds(views[2]), (2, 10));
    assert_eq!(engine.context.bools.len(), 3);
}

#[test]
fn new_in_filters_incompatible_views() {
    let (mut engine, views) = with_ints(&[(0, 3), (0, 3)]);
    let (a, b) = (views[0], views[1]);
    let scaled = IntView::Linear { var: 0, scale: 2, offset: 0 };
    let konst = IntView::Const(1);
    engine.ensure_diff_logic_propagator();
    DiffLogicBrancher::new_in(&mut engine, vec![scaled, konst, a, b]);
    assert_eq!(engine.branchers.len(), 1);
    assert_eq!(engine.branchers[0].vars, vec![a, b]);
    assert_eq!(engine.decidable, vec![a, b]);
    assert!(branch(&mut engine));
    // There is a solution below.
    assert!(engine.context.max(a) < engine.context.max(b));
}

#[test]
fn new_in_needs_two_views() {
    let (mut engine, views) = with_ints(&[(0, 3)]);
    DiffLogicBrancher::new_in(&mut engine, vec![views[0], IntView::Const(1)]);
    assert!(engine.branchers.is_empty());
}

#[test]
fn diff_logic_branching_internal_subsumption() {
    let (mut engine, views) = with_ints(&[(0, 10), (0, 10), (0, 10)]);
    engine.ensure_diff_logic_propagator();
    DiffLogicBrancher::new_in(&mut engine, views);
    assert!(branch(&mut engine));
    // The literal of the first pair is the one that the brancher has created.
    let cached = engine.context.state.diff_lits.get(0, 1, -1).unwrap();
    let bools = engine.context.bools.len();
    let again = engine.context.diff_lit(&mut engine.diff_logic.graph, 0, 1, -1);
    assert_eq!(again, BoolView::Lit(cached));
    assert_eq!(engine.context.bools.len(), bools);
}

#[test]
fn posting_adds_propagators_with_their_requests() {
    let (mut engine, views) = with_ints(&[(0, 3), (2, 2), (0, 3)]);
    IntUniqueBounds::post(&mut engine, views.clone());
    IntUniqueValue::post(&mut engine, views.clone());
    IntUniqueBoundsCumulativeSlack::post(&mut engine, views);
    engine.ensure_diff_logic_propagator();
    assert_eq!(engine.propagators.len(), 4);
    // The one of larger priority comes first.
    assert_eq!(engine.context.state.propagator_queue, vec![1, 0, 2, 3]);
    let asked = engine
        .requests
        .iter()
        .map(|r| (r.priority, r.enqueue, r.backtrack, r.triggers.len(), r.int_advice.len()))
        .collect_vec();
    assert_eq!(
        asked,
        vec![
            (PriorityLevel::Low, false, false, 3, 0),
            (PriorityLevel::Medium, true, true, 0, 2),
            (PriorityLevel::Low, false, true, 3, 3),
            (PriorityLevel::Low, true, true, 0, 0),
        ]
    );
    // Only the views that are not fixed are waited for.
    let data = engine.requests[1].int_advice.iter().map(|a| a.data).collect_vec();
    assert_eq!(data, vec![0, 2]);
}

#[test]
fn a_run_takes_the_propagators_in_turn() {
    let (mut engine, views) = with_ints(&[(2, 2), (1, 2), (1, 9), (2, 9)]);
    IntUniqueValue::post(&mut engine, views[..2].to_vec());
    IntUniqueBounds::post(&mut engine, views[2..].to_vec());
    engine.context.run_propagators(&mut engine.propagators, &mut engine.diff_logic);
    // The first one has found a consequence, and the second one waits.
    assert_eq!(engine.context.max(views[1]), 1);
    assert_eq!(engine.context.state.propagator_queue, vec![1]);
    assert_eq!(engine.context.state.statistics.propagations, 1);
    engine.context.propagation_queue.clear();
    engine.context.run_propagators(&mut engine.propagators, &mut engine.diff_logic);
    assert!(engine.context.state.propagator_queue.is_empty());
    assert_eq!(engine.context.bounds(views[2]), (1, 9));
    assert_eq!(engine.context.state.statistics.propagations, 2);
    assert!(!engine.context.state.failed);
}

#[test]
fn propagators_agree_on_random_domains() {
    let mut seed: u64 = 7;
    let mut next = |n: u64| {
        seed = seed.wrapping_mul(6364136223846793005).wrapping_add(1442695040888963407);
        (seed >> 33) % n
    };
    for _ in 0..40 {
        let n = 3 + next(3) as usize;
        let domains: Vec<(IntVal, IntVal)> = (0..n)
            .map(|_| {
                let lb = next(4) as IntVal;
                (lb, lb + next(4) as IntVal)
            })
            .collect();
        assert_unique_solutions(&domains, Unique::Bounds);
        assert_unique_solutions(&domains, Unique::Value);
        assert_unique_solutions(&domains, Unique::Slack);
    }
}

#[test]
fn difference_search_agrees_with_trying_all_values() {
    let mut seed: u64 = 11;
    let mut next = |n: u64| {
        seed = seed.wrapping_mul(6364136223846793005).wrapping_add(1442695040888963407);
        (seed >> 33) % n
    };
    for round in 0..30 {
        let ends: Vec<(usize, usize, IntVal, bool)> = (0..5)
            .map(|_| {
                let x = next(3) as usize;
                let y = (x + 1 + next(2) as usize) % 3;
                (x, y, next(7) as IntVal - 3, next(2) == 0)
            })
            .collect();
        let build = || {
            let (mut engine, views) = with_ints(&[(0, 3), (0, 3), (0, 3)]);
            for &(x, y, d, gate) in &ends {
                let gate = if gate {
                    Some(BoolView::Lit(engine.context.new_bool()))
                } else {
                    None
                };
                engine.diff_logic.graph.register_edge(
                    &mut engine.context.trail,
                    views[x],
                    views[y],
                    d,
                    gate,
                );
            }
            engine.diff_logic.graph.use_inc_imp = round % 2 == 0;
            engine.diff_logic.graph.bool_reasons = (round % 3) as u8;
            engine.ensure_diff_logic_propagator();
            Some(engine)
        };
        let mut found = Vec::new();
        search(&build, &mut Vec::new(), &mut |ctx| {
            let mut sol: Vec<IntVal> = (0..3).map(|v| ctx.min(IntView::decision(v))).collect();
            sol.extend(ctx.bools.iter().map(|b| IntVal::from(b.unwrap())));
            found.push(sol);
            false
        });
        found.sort();
        let gates = ends.iter().filter(|e| e.3).count();
        let mut domains = vec![(0, 3), (0, 3), (0, 3)];
        domains.extend(vec![(0, 1); gates]);
        let expected = brute(&domains, &|s| {
            let mut g = 3;
            ends.iter().all(|&(x, y, d, gate)| {
                let holds = if gate {
                    g += 1;
                    s[g - 1] == 1
                } else {
                    true
                };
                !holds || s[x] - s[y] <= d
            })
        });
        assert_eq!(found, expected, "edges {ends:?}");
    }
}
