//! Small parts of the library.

use huub::constraints::cumulative_slack::{
    CumulativeOutcome, IntUniqueBoundsCumulativeSlack, Phase1Outcome, Phase2Outcome,
};
use huub::constraints::int_unique::{
    IntUnique, IntUniqueBounds, IntUniqueValue, SimplificationStatus,
};
use huub::helpers::division::{div_ceil, div_floor};
use huub::helpers::priority_queue::LazyPriorityQueue;
use huub::helpers::saturating::{saturating_add, saturating_sub};
use huub::helpers::trail::Trail;
use huub::solver::brancher::DiffLogicBrancher;
use huub::solver::engine::{Engine, PropagatorKind};
use huub::solver::initialization::{InitializationActions, InitializationContext, PriorityLevel};
use huub::solver::reason::{Reason, ReasonBuilder};
use huub::solver::solving_context::{IntEvent, IntPropCond, SolvingContext};
use huub::solver::view::{BoolView, IntLitMeaning, IntVal, IntView, Lit};

fn no_reason() -> ReasonBuilder {
    ReasonBuilder::Atoms(Vec::new())
}

fn context(domains: &[(IntVal, IntVal)]) -> (SolvingContext, Vec<IntView>) {
    let mut ctx = SolvingContext::new();
    let views =
        domains.iter().map(|&(lb, ub)| IntView::decision(ctx.new_int(lb, ub))).collect();
    (ctx, views)
}

#[test]
fn division_rounds_both_ways() {
    assert_eq!((div_floor(7, 2), div_ceil(7, 2)), (3, 4));
    assert_eq!((div_floor(-7, 2), div_ceil(-7, 2)), (-4, -3));
    assert_eq!((div_floor(6, 3), div_ceil(6, 3)), (2, 2));
}

#[test]
fn sums_stop_at_the_limits() {
    assert_eq!(saturating_add(i64::MAX, 1), i64::MAX);
    assert_eq!(saturating_add(i64::MIN, -1), i64::MIN);
    assert_eq!(saturating_add(3, 4), 7);
    assert_eq!(saturating_sub(i64::MIN, 1), i64::MIN);
    assert_eq!(saturating_sub(3, 4), -1);
}

#[test]
fn the_trail_restores_values() {
    let mut trail = Trail::new();
    let a = trail.track(1);
    trail.notify_new_decision_level();
    assert_eq!(trail.set_trailed(a, 5), 1);
    trail.notify_new_decision_level();
    assert_eq!(trail.set_trailed(a, 9), 5);
    assert_eq!(trail.trailed(a), 9);
    trail.notify_backtrack(1);
    assert_eq!(trail.trailed(a), 5);
    trail.notify_backtrack(0);
    assert_eq!(trail.trailed(a), 1);
}

#[test]
fn the_queue_gives_out_the_smallest_priority() {
    let mut queue = LazyPriorityQueue::new();
    assert_eq!(queue.push_increase(3, (7, false)), None);
    assert_eq!(queue.push_increase(4, (5, true)), None);
    assert_eq!(queue.push_increase(3, (4, false)), Some((7, false)));
    // A larger priority does not replace a smaller one.
    assert_eq!(queue.push_increase(3, (6, false)), Some((6, false)));
    assert_eq!(queue.get_priority(3), Some((4, false)));
    assert_eq!(queue.pop(), Some((3, (4, false))));
    assert_eq!(queue.pop(), Some((4, (5, true))));
    assert_eq!(queue.pop(), None);
    assert!(queue.is_empty());
}

#[test]
fn reasons_leave_constants_out() {
    let a = BoolView::Lit(Lit { var: 0, negated: false });
    let b = BoolView::Lit(Lit { var: 1, negated: true });
    let build = |views: Vec<BoolView>| ReasonBuilder::Atoms(views).build_reason();
    assert_eq!(build(vec![]), Err(true));
    assert_eq!(build(vec![BoolView::Const(true)]), Err(true));
    assert_eq!(build(vec![a, BoolView::Const(false)]), Err(false));
    assert_eq!(build(vec![BoolView::Const(true), a]), Ok(Reason::Simple(a)));
    assert_eq!(build(vec![a, BoolView::Const(true), b]), Ok(Reason::Eager(vec![a, b])));
}

#[test]
fn domains_are_narrowed_and_conflicts_reported() {
    let (mut ctx, views) = context(&[(0, 10)]);
    let x = views[0];
    assert!(ctx.tighten_min(x, 3, no_reason()).is_ok());
    assert_eq!(ctx.propagation_queue.last().unwrap().event, Some((0, IntEvent::LowerBound)));
    assert!(ctx.tighten_max(x, 8, no_reason()).is_ok());
    assert_eq!(ctx.propagation_queue.last().unwrap().event, Some((0, IntEvent::UpperBound)));
    assert!(ctx.remove_val(x, 5, no_reason()).is_ok());
    assert_eq!(ctx.propagation_queue.last().unwrap().event, Some((0, IntEvent::Domain)));
    // What is known is not propagated again.
    assert!(ctx.tighten_min(x, 2, no_reason()).is_ok());
    assert_eq!(ctx.propagation_queue.len(), 3);
    assert_eq!(ctx.bounds(x), (3, 8));
    assert!(ctx.tighten_min(x, 9, no_reason()).is_err());
    assert!(ctx.tighten_max(x, 3, no_reason()).is_ok());
    assert_eq!(ctx.propagation_queue.last().unwrap().event, Some((0, IntEvent::Fixed)));
    assert_eq!(ctx.int_val(x), Some(3));
    assert!(ctx.remove_val(x, 3, no_reason()).is_err());
}

#[test]
fn views_scale_and_shift() {
    let (mut ctx, _) = context(&[(1, 4)]);
    let v = IntView::Linear { var: 0, scale: -2, offset: 3 };
    assert_eq!(ctx.bounds(v), (-5, 1));
    assert!(ctx.tighten_min(v, -2, no_reason()).is_ok());
    assert_eq!(ctx.bounds(IntView::decision(0)), (1, 2));
    let b = ctx.new_bool();
    let w = IntView::Bool { lit: b, scale: 3, offset: 1 };
    assert_eq!(ctx.bounds(w), (1, 4));
    assert!(ctx.tighten_min(w, 2, no_reason()).is_ok());
    assert_eq!(ctx.val(BoolView::Lit(b)), Some(true));
    assert_eq!(ctx.val(ctx.min_lit(v)), Some(true));
    assert_eq!(ctx.val(ctx.max_lit(v)), Some(true));
}

#[test]
fn bounds_propagation_pushes_past_hall_intervals() {
    let (mut ctx, views) = context(&[(1, 2), (1, 2), (1, 4)]);
    let mut prop = IntUniqueBounds::new(views.clone());
    assert!(prop.propagate(&mut ctx).is_ok());
    assert_eq!(ctx.bounds(views[2]), (3, 4));
    let (mut ctx, views) = context(&[(1, 2), (1, 2), (1, 2)]);
    assert!(IntUniqueBounds::new(views).propagate(&mut ctx).is_err());
}

#[test]
fn value_propagation_removes_values() {
    let (mut ctx, views) = context(&[(2, 2), (1, 3)]);
    let mut prop = IntUniqueValue::new(views.clone());
    let mut request = InitializationContext::new();
    prop.initialize(&ctx, &mut request);
    assert_eq!(prop.action_list, vec![0]);
    assert_eq!(request.int_advice.len(), 1);
    assert_eq!(request.int_advice[0].data, 1);
    assert!(prop.propagate(&mut ctx).is_ok());
    assert!(!ctx.ints[1].in_domain(2));
    prop.advise_of_int_change(1, IntEvent::Fixed);
    prop.advise_of_backtrack();
    assert!(prop.action_list.is_empty());
}

#[test]
fn unique_posts_what_is_asked_for() {
    let kinds = |value, bounds, slack| {
        let mut engine = Engine::default();
        let views: Vec<IntView> = [(1, 1), (2, 5), (2, 5)]
            .iter()
            .map(|&(lb, ub)| IntView::decision(engine.context.new_int(lb, ub)))
            .collect();
        let mut unique = IntUnique::new(views);
        unique.value_propagation = value;
        unique.bounds_propagation = bounds;
        unique.cumulative_slack_propagation = slack;
        assert!(unique.to_solver(&mut engine).is_ok());
        // None of the views is fixed: value propagation waits until one is.
        let started = engine
            .propagators
            .iter()
            .filter(|p| !matches!(p, PropagatorKind::UniqueValue(_)))
            .count();
        assert_eq!(engine.context.state.propagator_queue.len(), started);
        engine
            .propagators
            .iter()
            .map(|p| match p {
                PropagatorKind::UniqueBounds(p) => ("bounds", p.var.len()),
                PropagatorKind::UniqueValue(p) => ("value", p.vars.len()),
                PropagatorKind::UniqueCumulativeSlack(p) => ("slack", p.bounds.var.len()),
                PropagatorKind::DifferenceLogic => ("difference", 0),
            })
            .collect::<Vec<_>>()
    };
    assert_eq!(kinds(None, None, None), vec![("bounds", 2)]);
    assert_eq!(kinds(Some(true), None, None), vec![("value", 2), ("bounds", 2)]);
    assert_eq!(kinds(Some(true), Some(false), None), vec![("value", 2)]);
    assert_eq!(kinds(None, Some(false), None), vec![("bounds", 2)]);
    assert_eq!(kinds(None, None, Some(true)), vec![("slack", 2)]);
    assert_eq!(kinds(Some(true), Some(false), Some(true)), vec![("value", 2), ("slack", 2)]);
}

#[test]
fn unique_has_defaults() {
    let unique = IntUnique::new(vec![IntView::Const(1)]);
    assert!(unique.bounds_propagation());
    assert!(!unique.value_propagation());
    assert!(!unique.cumulative_slack_propagation());
}

#[test]
fn simplifying_is_never_final() {
    let (mut ctx, views) = context(&[(1, 2), (1, 2), (1, 4)]);
    let mut unique = IntUnique::new(views.clone());
    assert_eq!(unique.simplify(&mut ctx), Ok(SimplificationStatus::NoFixpoint));
    assert_eq!(ctx.min(views[2]), 3);
}

#[test]
fn slack_skips_until_an_interval_is_used_up() {
    let (mut ctx, views) = context(&[(1, 6), (1, 6), (1, 3)]);
    let mut prop = IntUniqueBoundsCumulativeSlack::new(views.clone());
    assert!(prop.propagate(&mut ctx).is_ok());
    assert!(prop.cache_valid);
    assert_eq!(prop.s_bounds, vec![1, 4, 7]);
    // One view in the first interval, three in the whole.
    assert_eq!(prop.slack, vec![0, 2, 3, 0, 0, 3, 0, 0, 0]);
    // Nothing has changed.
    assert_eq!(prop.cumulative_check(&mut ctx), Ok(CumulativeOutcome::Skip));
    // A bound that is not remembered needs a full run.
    assert!(ctx.tighten_min(views[0], 2, no_reason()).is_ok());
    assert!(!prop.advise_of_int_change(0, IntEvent::LowerBound));
    assert_eq!(prop.cumulative_check(&mut ctx), Ok(CumulativeOutcome::CannotSkip));
    assert!(prop.propagate(&mut ctx).is_ok());
    assert!(prop.var_updated.is_empty());
    // After backtracking there is nothing to compare with.
    prop.advise_of_backtrack();
    assert!(prop.pending_backtrack);
    assert!(prop.propagate(&mut ctx).is_ok());
    assert!(!prop.pending_backtrack);
}

#[test]
fn slack_pushes_bounds_past_used_up_intervals() {
    let (mut ctx, views) = context(&[(3, 4), (3, 4), (0, 9), (8, 9)]);
    let mut prop = IntUniqueBoundsCumulativeSlack::new(views.clone());
    assert!(prop.propagate(&mut ctx).is_ok());
    assert!(ctx.tighten_min(views[2], 3, no_reason()).is_ok());
    prop.advise_of_int_change(2, IntEvent::LowerBound);
    assert_eq!(prop.s_bounds, vec![0, 3, 5, 8, 10]);
    assert_eq!(prop.cumulative_check(&mut ctx), Ok(CumulativeOutcome::Skip));
    assert_eq!(ctx.bounds(views[2]), (5, 9));
    // The reason names the bound before the push, and the views of the interval.
    let last = ctx.propagation_queue.last().unwrap();
    let Ok(Reason::Eager(atoms)) = &last.reason else {
        panic!("expected a conjunction");
    };
    assert_eq!(atoms.len(), 5);
    assert_eq!(atoms[0], views[2].lit(IntLitMeaning::GreaterEq(3)));
}

#[test]
fn slack_phases_find_what_the_table_shows() {
    let (mut ctx, views) = context(&[(3, 4), (3, 4), (0, 9), (8, 9)]);
    let mut prop = IntUniqueBoundsCumulativeSlack::new(views);
    assert!(prop.propagate(&mut ctx).is_ok());
    prop.working = prop.slack.clone();
    assert_eq!(prop.phase1_push_lb(3, 9, 4), Phase1Outcome::Done(5, vec![(1, 2)]));
    assert_eq!(prop.phase1_push_lb(0, 9, 4), Phase1Outcome::Done(0, vec![]));
    assert_eq!(prop.phase1_push_lb(3, 4, 2), Phase1Outcome::WipeOut(1, 2));
    assert_eq!(prop.phase1_push_lb(6, 9, 4), Phase1Outcome::BoundsMiss);
    assert_eq!(prop.phase1_push_ub(0, 4, 0), Phase1Outcome::Done(2, vec![(1, 2)]));
    assert_eq!(prop.phase2_scan(1, 2, 2, 3), Phase2Outcome::Overcrowded(1, 2));
    assert_eq!(prop.phase2_scan(3, 4, 4, 5), Phase2Outcome::NewHallWouldForm);
    assert_eq!(prop.phase2_scan(0, 1, 4, 5), Phase2Outcome::Clean);
    let before = prop.working[4];
    prop.phase3_decrement(0, 1, 4, 5);
    assert_eq!(prop.working[4], before - 1);
}

#[test]
fn slack_declares_conflicts() {
    let (mut ctx, views) = context(&[(3, 4), (3, 4), (0, 4)]);
    let mut prop = IntUniqueBoundsCumulativeSlack::new(views.clone());
    assert!(prop.propagate(&mut ctx).is_ok());
    assert_eq!(ctx.bounds(views[2]), (0, 2));
    // A view outside of its bounds at the fixed point is not compared.
    let (mut wide, _) = context(&[(3, 4), (3, 4), (0, 9)]);
    prop.advise_of_int_change(2, IntEvent::UpperBound);
    assert_eq!(prop.cumulative_check(&mut wide), Ok(CumulativeOutcome::CannotSkip));
    let (mut ctx, views) = context(&[(1, 2), (1, 2), (1, 2)]);
    let mut prop = IntUniqueBoundsCumulativeSlack::new(views);
    assert!(prop.propagate(&mut ctx).is_err());
    assert!(!prop.cache_valid);
}

#[test]
fn slack_asks_for_bounds() {
    let prop = IntUniqueBoundsCumulativeSlack::new(vec![IntView::Const(1), IntView::Const(2)]);
    let mut request = InitializationContext::new();
    prop.initialize(&mut request);
    assert_eq!(request.priority, PriorityLevel::Low);
    assert!(request.backtrack);
    assert_eq!(request.triggers.len(), 2);
    assert_eq!(request.int_advice.iter().map(|a| a.data).collect::<Vec<_>>(), vec![0, 1]);
    assert!(request.triggers.iter().all(|t| t.cond == IntPropCond::Bounds));
}

#[test]
fn pairs_come_in_lexicographic_order() {
    let pairs: Vec<(usize, usize)> = (0..6).map(|k| DiffLogicBrancher::pair_at(k, 4)).collect();
    assert_eq!(pairs, vec![(0, 1), (0, 2), (0, 3), (1, 2), (1, 3), (2, 3)]);
}

#[test]
fn subscriptions_are_recorded() {
    let mut actions = InitializationActions {
        prop_ref: 3,
        observed: Vec::new(),
        bool_subscribers: Vec::new(),
        int_subscribers: Vec::new(),
    };
    actions.subscribe_bool(BoolView::Lit(Lit { var: 7, negated: true }), 1);
    actions.subscribe_bool(BoolView::Const(true), 2);
    actions.subscribe_int(IntView::decision(4), IntEvent::Bounds, 5);
    actions.subscribe_int(IntView::Const(4), IntEvent::Bounds, 6);
    assert_eq!(actions.observed, vec![7]);
    assert_eq!(actions.bool_subscribers.len(), 1);
    assert_eq!((actions.int_subscribers[0].var, actions.int_subscribers[0].data), (4, 5));
    assert_eq!(actions.int_subscribers.len(), 1);
}

#[test]
fn propagators_run_until_there_is_news() {
    let mut engine = Engine::new();
    let views: Vec<IntView> = [(1, 2), (1, 2), (1, 4)]
        .iter()
        .map(|&(lb, ub)| IntView::decision(engine.context.new_int(lb, ub)))
        .collect();
    IntUniqueBounds::post(&mut engine, views[..2].to_vec());
    IntUniqueBounds::post(&mut engine, views.clone());
    IntUniqueBounds::post(&mut engine, views.clone());
    engine.context.run_propagators(&mut engine.propagators, &mut engine.diff_logic);
    // The first one finds nothing, the second one does, and the third one has to wait.
    assert_eq!(engine.context.state.propagator_queue, vec![2]);
    assert_eq!(engine.context.state.statistics.propagations, 2);
    assert_eq!(engine.context.num_conflicts(), 0);
    assert!(!engine.context.propagation_queue.is_empty());
    assert_eq!(engine.context.min(views[2]), 3);
    assert!(!engine.context.state.failed);
}

#[test]
fn slack_counts_changes_of_earlier_runs() {
    let (mut ctx, views) = context(&[(0, 2), (0, 2), (1, 10)]);
    let mut prop = IntUniqueBoundsCumulativeSlack::new(views.clone());
    assert!(prop.propagate(&mut ctx).is_ok());
    assert!(ctx.tighten_min(views[0], 1, no_reason()).is_ok());
    prop.advise_of_int_change(0, IntEvent::LowerBound);
    assert!(prop.propagate(&mut ctx).is_ok());
    assert_eq!(prop.cached_lb, vec![1, 0, 1]);
    assert!(ctx.tighten_min(views[1], 1, no_reason()).is_ok());
    prop.advise_of_int_change(1, IntEvent::LowerBound);
    assert!(prop.propagate(&mut ctx).is_ok());
    // The first two views fill the values 1 and 2.
    assert_eq!(ctx.min(views[2]), 3);
}

#[test]
fn filters_tighten_one_side() {
    let domains = [(3, 4), (2, 4), (3, 4), (2, 5), (3, 6), (1, 6)];
    let (mut ctx, views) = context(&domains);
    let mut prop = IntUniqueBounds::new(views.clone());
    prop.sort(&ctx);
    assert_eq!(prop.ranking.bounds, vec![-1, 1, 2, 3, 5, 6, 7, 9]);
    assert!(prop.filter_lower(&mut ctx).is_ok());
    let mins: Vec<i64> = views.iter().map(|&v| ctx.min(v)).collect();
    let maxs: Vec<i64> = views.iter().map(|&v| ctx.max(v)).collect();
    assert_eq!(mins, vec![3, 2, 3, 5, 6, 1]);
    assert_eq!(maxs, vec![4, 4, 4, 5, 6, 6]);

    let (mut ctx, views) = context(&domains);
    let mut prop = IntUniqueBounds::new(views.clone());
    prop.sort(&ctx);
    assert!(prop.filter_upper(&mut ctx).is_ok());
    let mins: Vec<i64> = views.iter().map(|&v| ctx.min(v)).collect();
    let maxs: Vec<i64> = views.iter().map(|&v| ctx.max(v)).collect();
    assert_eq!(mins, vec![3, 2, 3, 2, 3, 1]);
    assert_eq!(maxs, vec![4, 2, 4, 5, 6, 1]);
}

#[test]
fn events_tell_what_was_requested() {
    let (mut ctx, views) = context(&[(0, 10)]);
    assert!(ctx.remove_val(views[0], 0, no_reason()).is_ok());
    assert_eq!(ctx.min(views[0]), 1);
    assert_eq!(ctx.propagation_queue.last().unwrap().event, Some((0, IntEvent::Domain)));
    assert!(ctx.tighten_min(views[0], 10, no_reason()).is_ok());
    assert_eq!(ctx.propagation_queue.last().unwrap().event, Some((0, IntEvent::Fixed)));
}

#[test]
fn slack_does_not_skip_inside_used_up_intervals() {
    // The first two views fill the values 3 and 4; 4 is the lower bound of another one.
    let (mut ctx, views) = context(&[(3, 4), (3, 4), (0, 9), (4, 20)]);
    let mut prop = IntUniqueBoundsCumulativeSlack::new(views.clone());
    assert!(prop.propagate(&mut ctx).is_ok());
    assert_eq!(ctx.min(views[3]), 5);
    assert!(ctx.tighten_min(views[2], 4, no_reason()).is_ok());
    prop.advise_of_int_change(2, IntEvent::LowerBound);
    assert!(prop.propagate(&mut ctx).is_ok());
    assert_eq!(ctx.min(views[2]), 5);
}

#[test]
fn slack_counts_its_runs() {
    let (mut ctx, views) = context(&[(3, 4), (3, 4), (0, 9), (8, 9)]);
    let mut prop = IntUniqueBoundsCumulativeSlack::new(views.clone());
    let counters = |p: &IntUniqueBoundsCumulativeSlack| {
        (p.prop_calls, p.prop_full, p.prop_skips, p.prop_pushes, p.prop_failures)
    };
    assert_eq!(counters(&prop), (0, 0, 0, 0, 0));
    assert!(prop.propagate(&mut ctx).is_ok());
    assert_eq!(counters(&prop), (1, 1, 0, 0, 0));
    // One bound is pushed, and there is no need to look at the others.
    assert!(ctx.tighten_min(views[2], 3, no_reason()).is_ok());
    prop.advise_of_int_change(2, IntEvent::LowerBound);
    assert!(prop.propagate(&mut ctx).is_ok());
    assert_eq!(counters(&prop), (2, 1, 1, 1, 0));
    prop.advise_of_backtrack();
    assert!(prop.propagate(&mut ctx).is_ok());
    assert_eq!((prop.prop_calls, prop.prop_full, prop.prop_backtracks), (3, 2, 1));
    let (mut ctx, views) = context(&[(1, 2), (1, 2), (1, 2)]);
    let mut prop = IntUniqueBoundsCumulativeSlack::new(views);
    assert!(prop.propagate(&mut ctx).is_err());
    assert_eq!(counters(&prop), (1, 1, 0, 0, 1));
    assert_eq!(prop.prop_check_failures, 0);
}

#[test]
fn slack_does_not_compare_domains_that_have_grown() {
    let (mut ctx, views) = context(&[(3, 4), (3, 4), (0, 9)]);
    let mut prop = IntUniqueBoundsCumulativeSlack::new(views.clone());
    assert!(prop.propagate(&mut ctx).is_ok());
    // The first domain has grown, of which nothing was reported.
    let (mut wide, _) = context(&[(0, 4), (3, 4), (3, 9)]);
    prop.advise_of_int_change(2, IntEvent::LowerBound);
    assert_eq!(prop.cumulative_check(&mut wide), Ok(CumulativeOutcome::CannotSkip));
    assert!(prop.propagate(&mut wide).is_ok());
    assert_eq!(wide.bounds(views[2]), (3, 9));
    assert_eq!(prop.prop_full, 2);
    assert_eq!(prop.cached_lb, vec![0, 3, 3]);
}

#[test]
fn views_are_checked() {
    let (ctx, views) = context(&[(0, 10)]);
    assert!(ctx.check_view(views[0]));
    assert!(!ctx.check_view(IntView::decision(1)));
    assert!(ctx.check_view(IntView::Linear { var: 0, scale: 3, offset: 5 }));
    assert!(!ctx.check_view(IntView::Linear { var: 0, scale: 0, offset: 5 }));
    assert!(!ctx.check_view(IntView::Linear { var: 0, scale: 1 << 60, offset: 0 }));
    assert!(ctx.check_view(IntView::Const(7)));
    assert!(!ctx.check_view(IntView::Const(i64::MAX)));
}

#[test]
fn propagators_are_queued_by_priority() {
    let mut engine = Engine::new();
    let views: Vec<IntView> =
        (0..4).map(|_| IntView::decision(engine.context.new_int(0, 9))).collect();
    IntUniqueBounds::post(&mut engine, views.clone());
    IntUniqueValue::post(&mut engine, views.clone());
    IntUniqueBounds::post(&mut engine, views);
    assert_eq!(engine.context.state.propagator_queue, vec![0, 2]);
    // Value propagation is of a larger priority, and nothing is queued twice.
    engine.enqueue_propagator(1);
    assert_eq!(engine.context.state.propagator_queue, vec![1, 0, 2]);
    engine.enqueue_propagator(0);
    assert_eq!(engine.context.state.propagator_queue, vec![1, 0, 2]);
    assert!(PriorityLevel::High.rank() > PriorityLevel::Medium.rank());
    assert!(PriorityLevel::Medium.rank() > PriorityLevel::Low.rank());
}
