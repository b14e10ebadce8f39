//! Models and their difference constraints.

use huub::model::diff_logic::{
    expand_collection, DiffEdge, DifferenceLogicCollection, DifferenceLogicConstraint,
    DifferenceLogicParameters,
};
use huub::model::simplify::{
    simplify_cycle_detection, simplify_johnson_pruning, simplify_unify,
};
use huub::model::tightening::simplify_bound_tightening;
use huub::model::{Model, Term};
use huub::solver::domain::IntDomain;
use huub::solver::view::{BoolView, IntView};

fn model_with_level(level: u8) -> Model {
    let mut model = Model::default();
    model.diff_logic.set_parameters(DifferenceLogicParameters { level, simplify: true });
    model
}

fn two(level: u8) -> (Model, IntView, IntView) {
    let mut model = model_with_level(level);
    let x = model.new_int_decision(0, 10);
    let y = model.new_int_decision(0, 10);
    (model, x, y)
}

#[test]
fn empty_collection_is_empty() {
    let col = DifferenceLogicCollection::default();
    assert!(col.is_empty());
    assert_eq!(col.len(), 0);
}

#[test]
fn diff_logic_level_1_accepts_global() {
    let mut model = Model::default();
    let x = model.new_int_decision(0, 10);
    let y = model.new_int_decision(0, 10);
    let mut col = DifferenceLogicCollection::default();
    assert!(col.add(DifferenceLogicConstraint::Global(x, y, 3)));
    assert_eq!(col.len(), 1);
}

#[test]
fn diff_logic_add_then_take_drains() {
    let mut model = Model::default();
    let x = model.new_int_decision(0, 10);
    let y = model.new_int_decision(0, 10);
    let mut col = DifferenceLogicCollection::default();
    let _ = col.add(DifferenceLogicConstraint::Global(x, y, 3));
    let drained = col.take_constraints();
    assert_eq!(drained.len(), 1);
    assert!(col.is_empty());
}

#[test]
fn default_model_starts_empty() {
    let m = Model::default();
    assert!(m.diff_logic.is_empty());
}

#[test]
fn level_0_rejects_everything() {
    let (mut model, x, y) = two(0);
    assert!(!model.add_diff_logic_constraint(DifferenceLogicConstraint::Global(x, y, 3)));
    assert!(model.diff_logic.is_empty());
}

#[test]
fn difference_logic_level_1_accepts_global() {
    let (mut model, x, y) = two(1);
    assert!(model.add_diff_logic_constraint(DifferenceLogicConstraint::Global(x, y, 3)));
    assert_eq!(model.diff_logic.len(), 1);
}

#[test]
fn difference_logic_add_then_take_drains() {
    let (mut model, x, y) = two(1);
    let _ = model.add_diff_logic_constraint(DifferenceLogicConstraint::Global(x, y, 3));
    let drained = model.diff_logic.take_constraints();
    assert_eq!(drained.len(), 1);
    assert!(model.diff_logic.is_empty());
}

#[test]
fn levels_accept_what_they_allow() {
    let (mut model, x, y) = two(1);
    let b = model.new_bool_decision();
    assert!(model.add_diff_logic_constraint(DifferenceLogicConstraint::Implied(b, x, y, 0)));
    assert!(model.add_diff_logic_constraint(DifferenceLogicConstraint::Reified(b, x, y, 0)));
    assert!(!model.add_diff_logic_constraint(DifferenceLogicConstraint::ReifiedEquals(b, x, y, 0)));
    assert_eq!(model.diff_logic.len(), 2);
    assert_eq!(model.diff_logic.parameters().level, 1);
}

#[test]
fn linear_route_picks_up_two_term_diff_constraint() {
    let (mut model, x, y) = two(3);
    assert!(model.diff_logic.is_empty());
    model.linear_le(
        vec![Term { coefficient: 1, view: x }, Term { coefficient: -1, view: y }],
        3,
    );
    assert_eq!(
        model.diff_logic.len(),
        1,
        "linear() should have routed the 2-term diff into diff_logic"
    );
    assert_eq!(
        model.diff_logic.take_constraints(),
        vec![DifferenceLogicConstraint::Global(x, y, 3)]
    );
}

#[test]
fn linear_route_skips_three_term_linear() {
    let (mut model, x, y) = two(3);
    let z = model.new_int_decision(0, 10);
    let terms = vec![x, y, z].into_iter().map(|view| Term { coefficient: 1, view }).collect();
    model.linear_le(terms, 5);
    assert!(model.diff_logic.is_empty(), "three-term linear must not route to diff_logic");
    assert_eq!(model.linears.len(), 1);
}

#[test]
fn linear_route_skips_non_unit_coefficients() {
    let (mut model, x, y) = two(3);
    model.linear_le(
        vec![Term { coefficient: 2, view: x }, Term { coefficient: -1, view: y }],
        5,
    );
    assert!(model.diff_logic.is_empty(), "non-unit coefficient must not route to diff_logic");
    assert_eq!(model.linears.len(), 1);
}

#[test]
fn diff_logic_equality_cycle_unifies_views() {
    let mut model = Model::default();
    let x = model.new_int_decision(0, 5);
    let y = model.new_int_decision(0, 5);
    assert!(model.diff_logic.add(DifferenceLogicConstraint::Global(x, y, 0)));
    assert!(model.diff_logic.add(DifferenceLogicConstraint::Global(y, x, 0)));
    let raw = model.diff_logic.take_constraints();
    let edges = expand_collection(&mut model, raw).unwrap();
    let edges = simplify_cycle_detection(&model, edges).unwrap();
    let edges = simplify_bound_tightening(&mut model, edges).unwrap();
    let edges = simplify_johnson_pruning(&model, edges);
    assert!(simplify_unify(&mut model, edges).is_ok());
    assert_eq!(
        model.resolve_alias(x),
        model.resolve_alias(y),
        "equality cycle should unify x and y"
    );
}

#[test]
fn difference_logic_equality_cycle_unifies_views() {
    let mut model = Model::default();
    let x = model.new_int_decision(0, 5);
    let y = model.new_int_decision(0, 5);
    assert!(model.add_diff_logic_constraint(DifferenceLogicConstraint::Global(x, y, 0)));
    assert!(model.add_diff_logic_constraint(DifferenceLogicConstraint::Global(y, x, 0)));
    let raw = model.diff_logic.take_constraints();
    let edges = expand_collection(&mut model, raw).unwrap();
    let edges = simplify_cycle_detection(&model, edges).unwrap();
    let edges = simplify_bound_tightening(&mut model, edges).unwrap();
    let edges = simplify_johnson_pruning(&model, edges);
    assert!(simplify_unify(&mut model, edges).is_ok());
    let rx = model.resolve_alias(x);
    let ry = model.resolve_alias(y);
    assert_eq!(rx, ry, "equality cycle should unify x and y");
}

#[test]
fn unifying_without_equalities_changes_nothing() {
    let mut model = Model::default();
    let x = model.new_int_decision(0, 5);
    let y = model.new_int_decision(0, 5);
    let edges = vec![
        DiffEdge { x, y, d: 0, gate: None },
        DiffEdge { x: y, y: x, d: 1, gate: None },
    ];
    assert!(simplify_unify(&mut model, edges).is_ok());
    assert_eq!((model.resolve_alias(x), model.resolve_alias(y)), (x, y));
    assert!(model.aliases.iter().all(|a| a.is_none()) && model.equalities.is_empty());
}

#[test]
fn longer_equality_cycles_unify_views_with_offsets() {
    let mut model = Model::default();
    let x = model.new_int_decision(0, 9);
    let y = model.new_int_decision(0, 9);
    let z = model.new_int_decision(0, 9);
    let edges = vec![
        DiffEdge { x, y, d: 1, gate: None },
        DiffEdge { x: y, y: z, d: 2, gate: None },
        DiffEdge { x: z, y: x, d: -3, gate: None },
    ];
    assert!(simplify_unify(&mut model, edges).is_ok());
    let rx = model.resolve_alias(x);
    let ry = model.resolve_alias(y);
    let rz = model.resolve_alias(z);
    let (vx, ox) = match rx {
        IntView::Linear { var, scale: 1, offset } => (var, offset),
        _ => panic!("expected a decision with an offset"),
    };
    let (vy, oy) = match ry {
        IntView::Linear { var, scale: 1, offset } => (var, offset),
        _ => panic!("expected a decision with an offset"),
    };
    let (vz, oz) = match rz {
        IntView::Linear { var, scale: 1, offset } => (var, offset),
        _ => panic!("expected a decision with an offset"),
    };
    assert_eq!((vx, vy), (vy, vz));
    assert_eq!(ox - oy, 1);
    assert_eq!(oy - oz, 2);
}

fn chain(x: (i64, i64), z: (i64, i64)) -> (Model, [IntView; 3], Vec<DiffEdge>) {
    let mut model = Model::default();
    let x = model.new_int_decision(x.0, x.1);
    let y = model.new_int_decision(0, 10);
    let z = model.new_int_decision(z.0, z.1);
    assert!(model.add_diff_logic_constraint(DifferenceLogicConstraint::Global(x, y, 0)));
    assert!(model.add_diff_logic_constraint(DifferenceLogicConstraint::Global(y, z, 0)));
    let raw = model.diff_logic.take_constraints();
    let edges = expand_collection(&mut model, raw).unwrap();
    let edges = simplify_cycle_detection(&model, edges).unwrap();
    (model, [x, y, z], edges)
}

#[test]
fn slice2_lifts_min_through_chain() {
    let (mut model, [_, y, z], edges) = chain((5, 10), (0, 10));
    let _ = simplify_bound_tightening(&mut model, edges).unwrap();
    assert_eq!(model.ctx.min(y), 5, "y.min should be lifted to x.min");
    assert_eq!(model.ctx.min(z), 5, "z.min should be lifted via chain");
}

#[test]
fn slice2_tightens_max_through_chain() {
    let (mut model, [x, y, _], edges) = chain((0, 10), (0, 4));
    let _ = simplify_bound_tightening(&mut model, edges).unwrap();
    assert_eq!(model.ctx.max(y), 4, "y.max should drop to z.max");
    assert_eq!(model.ctx.max(x), 4, "x.max should drop via chain");
}

#[test]
fn pruning_drops_what_others_imply() {
    let mut model = Model::default();
    let x = model.new_int_decision(0, 10);
    let y = model.new_int_decision(0, 10);
    let z = model.new_int_decision(0, 10);
    let b = model.new_bool_decision();
    let edges = vec![
        DiffEdge { x, y, d: 1, gate: None },
        DiffEdge { x: y, y: z, d: 1, gate: None },
        DiffEdge { x, y: z, d: 5, gate: None },
        DiffEdge { x, y: z, d: 5, gate: Some(b) },
        DiffEdge { x, y: z, d: 1, gate: Some(b) },
    ];
    let left = simplify_johnson_pruning(&model, edges.clone());
    assert_eq!(left, vec![edges[0], edges[1], edges[4]]);
    // Nothing more is dropped the second time.
    assert_eq!(simplify_johnson_pruning(&model, left.clone()), left);
}

#[test]
fn equalities_expand_to_both_directions() {
    let mut model = Model::default();
    let x = model.new_int_decision(0, 10);
    let y = model.new_int_decision(0, 10);
    let b = model.new_bool_decision();
    let edges = expand_collection(
        &mut model,
        vec![DifferenceLogicConstraint::ImpliedEquals(b, x, y, 2)],
    )
    .unwrap();
    assert_eq!(edges.len(), 2);
    assert!(edges.contains(&DiffEdge { x, y, d: 2, gate: Some(b) }));
    assert!(edges.contains(&DiffEdge { x: y, y: x, d: -2, gate: Some(b) }));
    let edges = expand_collection(
        &mut model,
        vec![DifferenceLogicConstraint::Reified(b, x, y, 3)],
    )
    .unwrap();
    assert!(edges.contains(&DiffEdge { x, y, d: 3, gate: Some(b) }));
    assert!(edges.contains(&DiffEdge { x: y, y: x, d: -4, gate: Some(b.negate()) }));
    assert!(!matches!(b, BoolView::Const(_)));
}

#[test]
fn decisions_may_have_gaps() {
    let mut model = Model::default();
    let mut domain = IntDomain::new(15, 20);
    for v in 16..20 {
        domain.remove(v);
    }
    let x = model.new_int_decision_in(domain);
    assert_eq!(model.ctx.bounds(x), (15, 20));
    assert!(model.ctx.ints[0].in_domain(15) && model.ctx.ints[0].in_domain(20));
    assert!((16..20).all(|v| !model.ctx.ints[0].in_domain(v)));
}
