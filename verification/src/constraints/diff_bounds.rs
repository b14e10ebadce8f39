//! Propagation of bounds along the active edges of difference constraints.

use vstd::prelude::*;
use vstd::set_lib::{lemma_int_range, lemma_len_subset, set_int_range};

use crate::constraints::diff_graph::{DiffEdge, DiffGraph};
use crate::constraints::diff_reasons::{strongest_ge, strongest_lt, tells_bound};
use crate::constraints::difference_logic::{
    diff_rule, gate_holds, lemma_decided_holds, lemma_grounded_narrowed, DiffLogicState, Step,
    PI_LIMIT,
};
use crate::helpers::fx::{set_contains, set_elements, set_insert, set_new};
use crate::helpers::priority_queue::{LazyPriorityQueue, Priority};
use crate::helpers::shortest::{lemma_weight_room, weight_room};
use crate::model::tightening::{decision_of, plain};
use crate::solver::inference::{
    lemma_infers_join, lemma_infers_nothing, lemma_infers_step, lemma_narrows_admits,
    lemma_narrows_later,
};
use crate::solver::int_view::{
    at_least, at_most, in_limits, lemma_bounds_taken, lemma_view_bounds, lemma_view_bounds_ordered,
    lemma_view_narrowed,
};
use crate::solver::reason::{Conflict, ReasonBuilder};
use crate::solver::solving_context::{LitPropagation, Rule, SolvingContext};
use crate::solver::view::{
    all_hold, BoolAssignment, BoolView, IntAssignment, IntVal, IntView, INT_LIMIT,
};

verus! {

/// The smallest value of the view, or, if `upper` is set, the negated largest one.
pub open spec fn near(ctx: &SolvingContext, view: IntView, upper: bool) -> int {
    if upper {
        -ctx.view_max(view)
    } else {
        ctx.view_min(view)
    }
}

/// The potential of a node, or, if `upper` is set, the negated one.
pub open spec fn pull(pi: Seq<IntVal>, upper: bool, n: int) -> int {
    if upper {
        -pi[n]
    } else {
        pi[n] as int
    }
}

/// The node that an edge leads to when lower bounds are passed on, or, if `upper` is set,
/// upper bounds.
pub open spec fn head(edge: DiffEdge, upper: bool) -> int {
    if upper {
        edge.from as int
    } else {
        edge.to as int
    }
}

/// The node that an edge leads from when lower bounds are passed on, or, if `upper` is set,
/// upper bounds.
pub open spec fn tail(edge: DiffEdge, upper: bool) -> int {
    if upper {
        edge.to as int
    } else {
        edge.from as int
    }
}

impl DiffLogicState {
    /// The bound that was propagated for a node, negated if `upper` is set.
    pub open spec fn propagated(&self, upper: bool, n: int) -> Option<int> {
        if upper {
            match self.upper_bound[n] {
                Some(v) => Some(-(v as int)),
                None => None,
            }
        } else {
            match self.lower_bound[n] {
                Some(v) => Some(v as int),
                None => None,
            }
        }
    }

    /// The bound of a node that the next search starts from: the one that was propagated, or
    /// else that of the domain; negated if `upper` is set.
    pub open spec fn current(&self, ctx: &SolvingContext, upper: bool, n: int) -> int {
        match self.propagated(upper, n) {
            Some(v) => v,
            None => near(ctx, self.graph.nodes.int_vars[n], upper),
        }
    }

    /// Whether the propagated bounds hold in the domains, and are listed.
    pub open spec fn bounds_sound(&self, ctx: &SolvingContext) -> bool {
        &&& forall|n: int, upper: bool|
            0 <= n < self.graph.size() ==> (#[trigger] self.propagated(upper, n) matches Some(v)
                ==> in_limits(v) && v <= near(ctx, self.graph.nodes.int_vars[n], upper))
        &&& self.bounds_listed()
    }

    /// Whether the nodes with propagated bounds are listed.
    pub open spec fn bounds_listed(&self) -> bool {
        &&& forall|i: int|
            0 <= i < self.lb_updates.len() ==> #[trigger] self.lb_updates[i]
                < self.lower_bound.len()
        &&& forall|i: int|
            0 <= i < self.ub_updates.len() ==> #[trigger] self.ub_updates[i]
                < self.upper_bound.len()
        &&& forall|n: int|
            0 <= n < self.lower_bound.len() && (#[trigger] self.lower_bound[n]) is Some
                ==> self.lb_updates@.contains(n as usize)
        &&& forall|n: int|
            0 <= n < self.upper_bound.len() && (#[trigger] self.upper_bound[n]) is Some
                ==> self.ub_updates@.contains(n as usize)
    }

    /// Whether every propagated bound was passed on along the active edges.
    pub open spec fn bounds_passed(&self, ctx: &SolvingContext, upper: bool) -> bool {
        forall|e: int|
            0 <= e < self.graph.edges.len() && #[trigger] self.graph.active_at(e, ctx.trail@)
                ==> self.passes(ctx, upper, e)
    }

    /// The lower bound of a node that the next search starts from.
    pub fn get_cur_lower_bound(&self, ctx: &SolvingContext, n: usize) -> (r: IntVal)
        requires
            self.grounded(ctx),
            self.sized(),
            self.bounds_sound(ctx),
            n < self.graph.size(),
        ensures
            r == self.current(ctx, false, n as int),
            in_limits(r as int),
            r <= ctx.view_min(self.graph.nodes.int_vars[n as int]),
    {
        proof {
            assert(self.propagated(false, n as int) matches Some(v) ==> in_limits(v));
            assert(ctx.has_view(self.graph.nodes.int_vars[n as int]));
        }
        match self.lower_bound[n] {
            Some(lb) => lb,
            None => ctx.min(self.graph.nodes.int_vars[n]),
        }
    }

    /// The upper bound of a node that the next search starts from.
    pub fn get_cur_upper_bound(&self, ctx: &SolvingContext, n: usize) -> (r: IntVal)
        requires
            self.grounded(ctx),
            self.sized(),
            self.bounds_sound(ctx),
            n < self.graph.size(),
        ensures
            -r == self.current(ctx, true, n as int),
            in_limits(r as int),
            r >= ctx.view_max(self.graph.nodes.int_vars[n as int]),
    {
        proof {
            assert(self.propagated(true, n as int) matches Some(v) ==> in_limits(v));
            assert(ctx.has_view(self.graph.nodes.int_vars[n as int]));
        }
        match self.upper_bound[n] {
            Some(ub) => ub,
            None => ctx.max(self.graph.nodes.int_vars[n]),
        }
    }

    /// Whether the states differ in the propagated bounds only.
    pub open spec fn same_but_bounds(&self, other: &DiffLogicState) -> bool {
        &&& self.graph == other.graph
        &&& self.pi == other.pi
        &&& self.backtrace == other.backtrace
        &&& self.visited == other.visited
        &&& self.visited_updates == other.visited_updates
        &&& self.lower_bound_changes == other.lower_bound_changes
        &&& self.upper_bound_changes == other.upper_bound_changes
        &&& self.fixed_bools == other.fixed_bools
        &&& self.pi_initialized == other.pi_initialized
        &&& self.same_settings(other)
    }

    /// Remember a lower bound that was propagated.
    pub fn update_lb(&mut self, n: usize, val: IntVal)
        requires
            n < old(self).lower_bound.len(),
            old(self).bounds_listed(),
        ensures
            final(self).same_but_bounds(old(self)),
            final(self).bounds_listed(),
            final(self).upper_bound == old(self).upper_bound,
            final(self).lower_bound@ == old(self).lower_bound@.update(n as int, Some(val)),
    {
        let ghost list = self.lb_updates@;
        if self.lower_bound[n].is_none() {
            self.lb_updates.push(n);
        }
        self.lower_bound.set(n, Some(val));
        proof {
            assert forall|k: int|
                0 <= k < self.lower_bound.len() && (#[trigger] self.lower_bound[k]) is Some implies
                self.lb_updates@.contains(k as usize) by {
                if old(self).lower_bound[k] is Some {
                    let i = list.index_of(k as usize);
                    assert(list.contains(k as usize));
                    assert(self.lb_updates@[i] == k as usize);
                } else {
                    assert(self.lb_updates@[list.len() as int] == k as usize);
                }
            }
        }
    }

    /// Remember an upper bound that was propagated.
    pub fn update_ub(&mut self, n: usize, val: IntVal)
        requires
            n < old(self).upper_bound.len(),
            old(self).bounds_listed(),
        ensures
            final(self).same_but_bounds(old(self)),
            final(self).bounds_listed(),
            final(self).lower_bound == old(self).lower_bound,
            final(self).upper_bound@ == old(self).upper_bound@.update(n as int, Some(val)),
    {
        let ghost list = self.ub_updates@;
        if self.upper_bound[n].is_none() {
            self.ub_updates.push(n);
        }
        self.upper_bound.set(n, Some(val));
        proof {
            assert forall|k: int|
                0 <= k < self.upper_bound.len() && (#[trigger] self.upper_bound[k]) is Some implies
                self.ub_updates@.contains(k as usize) by {
                if old(self).upper_bound[k] is Some {
                    let i = list.index_of(k as usize);
                    assert(list.contains(k as usize));
                    assert(self.ub_updates@[i] == k as usize);
                } else {
                    assert(self.ub_updates@[list.len() as int] == k as usize);
                }
            }
        }
    }

    /// Note that the lower bound of a node has changed, unless it was propagated. Returns
    /// whether that is news.
    pub fn notify_lb_change(&mut self, ctx: &SolvingContext, n: usize) -> (r: bool)
        requires
            ctx.wf(),
            n < old(self).graph.size(),
            old(self).lower_bound.len() == old(self).graph.size(),
            ctx.has_view(old(self).graph.nodes.int_vars[n as int]),
        ensures
            ({
                let min = ctx.view_min(old(self).graph.nodes.int_vars[n as int]);
                let noted = match old(self).lower_bound[n as int] {
                    Some(v) => v < min,
                    None => true,
                };
                &&& r == (noted && !old(self).lower_bound_changes@.contains(n))
                &&& final(self).lower_bound_changes@ == if noted {
                    old(self).lower_bound_changes@.insert(n)
                } else {
                    old(self).lower_bound_changes@
                }
            }),
            final(self).upper_bound_changes == old(self).upper_bound_changes,
            final(self).same_but_changes(old(self)),
    {
        let noted: bool = match self.lower_bound[n] {
            Some(v) => v < ctx.min(self.graph.nodes.int_vars[n]),
            None => true,
        };
        if noted {
            return set_insert(&mut self.lower_bound_changes, n);
        }
        false
    }

    /// Note that the upper bound of a node has changed, unless it was propagated. Returns
    /// whether that is news.
    pub fn notify_ub_change(&mut self, ctx: &SolvingContext, n: usize) -> (r: bool)
        requires
            ctx.wf(),
            n < old(self).graph.size(),
            old(self).upper_bound.len() == old(self).graph.size(),
            ctx.has_view(old(self).graph.nodes.int_vars[n as int]),
        ensures
            ({
                let max = ctx.view_max(old(self).graph.nodes.int_vars[n as int]);
                let noted = match old(self).upper_bound[n as int] {
                    Some(v) => v > max,
                    None => true,
                };
                &&& r == (noted && !old(self).upper_bound_changes@.contains(n))
                &&& final(self).upper_bound_changes@ == if noted {
                    old(self).upper_bound_changes@.insert(n)
                } else {
                    old(self).upper_bound_changes@
                }
            }),
            final(self).lower_bound_changes == old(self).lower_bound_changes,
            final(self).same_but_changes(old(self)),
    {
        let noted: bool = match self.upper_bound[n] {
            Some(v) => v > ctx.max(self.graph.nodes.int_vars[n]),
            None => true,
        };
        if noted {
            return set_insert(&mut self.upper_bound_changes, n);
        }
        false
    }

    /// Whether the states differ in the changes that were noted only.
    pub open spec fn same_but_changes(&self, other: &DiffLogicState) -> bool {
        &&& self.graph == other.graph
        &&& self.pi == other.pi
        &&& self.lower_bound == other.lower_bound
        &&& self.upper_bound == other.upper_bound
        &&& self.backtrace == other.backtrace
        &&& self.visited == other.visited
        &&& self.visited_updates == other.visited_updates
        &&& self.lb_updates == other.lb_updates
        &&& self.ub_updates == other.ub_updates
        &&& self.fixed_bools == other.fixed_bools
        &&& self.pi_initialized == other.pi_initialized
        &&& self.same_settings(other)
    }

    /// Forget the changes and the propagated bounds.
    pub fn reset_bounds(&mut self)
        requires
            old(self).bounds_listed(),
        ensures
            forall|n: usize| !#[trigger] final(self).lower_bound_changes@.contains(n),
            forall|n: usize| !#[trigger] final(self).upper_bound_changes@.contains(n),
            final(self).lower_bound.len() == old(self).lower_bound.len(),
            final(self).upper_bound.len() == old(self).upper_bound.len(),
            forall|n: int|
                0 <= n < final(self).lower_bound.len() ==> (#[trigger] final(self).lower_bound[n])
                    is None,
            forall|n: int|
                0 <= n < final(self).upper_bound.len() ==> (#[trigger] final(self).upper_bound[n])
                    is None,
            final(self).bounds_listed(),
            final(self).graph == old(self).graph,
            final(self).pi == old(self).pi,
            final(self).backtrace == old(self).backtrace,
            final(self).visited == old(self).visited,
            final(self).visited_updates == old(self).visited_updates,
            final(self).fixed_bools == old(self).fixed_bools,
            final(self).pi_initialized == old(self).pi_initialized,
            final(self).same_settings(old(self)),
    {
        self.lower_bound_changes = set_new();
        self.upper_bound_changes = set_new();
        let ghost mid = *self;
        proof {
            assert(self.lb_updates@.skip(0) =~= self.lb_updates@);
            assert(self.ub_updates@.skip(0) =~= self.ub_updates@);
        }
        let mut i: usize = 0;
        while i < self.lb_updates.len()
            invariant
                i <= self.lb_updates.len(),
                self.lb_updates == mid.lb_updates,
                self.ub_updates == mid.ub_updates,
                self.lower_bound_changes == mid.lower_bound_changes,
                self.upper_bound_changes == mid.upper_bound_changes,
                self.upper_bound == mid.upper_bound,
                self.same_but_bounds(&mid),
                self.lower_bound.len() == mid.lower_bound.len(),
                forall|k: int|
                    0 <= k < self.lb_updates.len() ==> #[trigger] self.lb_updates[k]
                        < self.lower_bound.len(),
                forall|n: int|
                    0 <= n < self.lower_bound.len() && (#[trigger] self.lower_bound[n]) is Some
                        ==> self.lb_updates@.skip(i as int).contains(n as usize),
            decreases self.lb_updates.len() - i,
        {
            let n: usize = self.lb_updates[i];
            let ghost before_bounds = self.lower_bound@;
            self.lower_bound.set(n, None);
            proof {
                assert forall|k: int|
                    0 <= k < self.lower_bound.len() && (#[trigger] self.lower_bound[k])
                        is Some implies self.lb_updates@.skip(i + 1).contains(k as usize) by {
                    let rest = self.lb_updates@.skip(i as int);
                    assert(before_bounds[k] is Some);
                    let j = rest.index_of(k as usize);
                    assert(rest.contains(k as usize));
                    assert(rest[0] == n);
                    assert(self.lb_updates@.skip(i + 1)[j - 1] == k as usize);
                }
            }
            i = i + 1;
        }
        let mut j: usize = 0;
        while j < self.ub_updates.len()
            invariant
                j <= self.ub_updates.len(),
                self.lb_updates == mid.lb_updates,
                self.ub_updates == mid.ub_updates,
                self.lower_bound_changes == mid.lower_bound_changes,
                self.upper_bound_changes == mid.upper_bound_changes,
                self.same_but_bounds(&mid),
                self.lower_bound.len() == mid.lower_bound.len(),
                self.upper_bound.len() == mid.upper_bound.len(),
                forall|n: int|
                    0 <= n < self.lower_bound.len() ==> (#[trigger] self.lower_bound[n]) is None,
                forall|k: int|
                    0 <= k < self.ub_updates.len() ==> #[trigger] self.ub_updates[k]
                        < self.upper_bound.len(),
                forall|n: int|
                    0 <= n < self.upper_bound.len() && (#[trigger] self.upper_bound[n]) is Some
                        ==> self.ub_updates@.skip(j as int).contains(n as usize),
            decreases self.ub_updates.len() - j,
        {
            let n: usize = self.ub_updates[j];
            let ghost before_bounds = self.upper_bound@;
            self.upper_bound.set(n, None);
            proof {
                assert forall|k: int|
                    0 <= k < self.upper_bound.len() && (#[trigger] self.upper_bound[k])
                        is Some implies self.ub_updates@.skip(j + 1).contains(k as usize) by {
                    let rest = self.ub_updates@.skip(j as int);
                    assert(before_bounds[k] is Some);
                    let l = rest.index_of(k as usize);
                    assert(rest.contains(k as usize));
                    assert(rest[0] == n);
                    assert(self.ub_updates@.skip(j + 1)[l - 1] == k as usize);
                }
            }
            j = j + 1;
        }
        self.lb_updates.clear();
        self.ub_updates.clear();
    }
}


/// The literals of a reason hold where its first literal and its gate do.
pub proof fn lemma_two_atoms(atoms: Seq<BoolView>, ints: IntAssignment, bools: BoolAssignment)
    ensures
        atoms.len() == 1 ==> all_hold(atoms, ints, bools) == atoms[0].holds(ints, bools),
        atoms.len() == 2 ==> all_hold(atoms, ints, bools) == (atoms[0].holds(ints, bools)
            && atoms[1].holds(ints, bools)),
{
    if atoms.len() == 1 && atoms[0].holds(ints, bools) {
        assert forall|i: int| 0 <= i < atoms.len() implies (#[trigger] atoms[i]).holds(
            ints,
            bools,
        ) by {
            assert(i == 0);
        }
    }
    if atoms.len() == 2 && atoms[0].holds(ints, bools) && atoms[1].holds(ints, bools) {
        assert forall|i: int| 0 <= i < atoms.len() implies (#[trigger] atoms[i]).holds(
            ints,
            bools,
        ) by {
            assert(i == 0 || i == 1);
        }
    }
}

/// The rule that the node, negated if `upper` is set, is at least `v`.
pub open spec fn reaches(view: IntView, upper: bool, v: int) -> Rule {
    if upper {
        at_most(view, -v)
    } else {
        at_least(view, v)
    }
}

impl DiffLogicState {
    /// What propagating a bound along an active edge does.
    pub open spec fn bound_set(
        &self,
        before_ctx: &SolvingContext,
        after_ctx: &SolvingContext,
        n: int,
        upper: bool,
        value: int,
        r: Result<(), Conflict>,
    ) -> bool {
        &&& after_ctx.infers(before_ctx, diff_rule(&self.graph), r)
        &&& after_ctx.trail == before_ctx.trail
        &&& self.grounded(after_ctx)
        &&& r is Ok ==> near(after_ctx, self.graph.nodes.int_vars[n], upper) >= value
        &&& r is Err <==> near(before_ctx, self.graph.nodes.int_vars[n], !upper) + value > 0
        &&& r is Ok ==> forall|ints: IntAssignment, bools: BoolAssignment|
            #[trigger] after_ctx.admits(ints, bools) <==> (before_ctx.admits(ints, bools)
                && reaches(self.graph.nodes.int_vars[n], upper, value)(ints, bools))
        &&& r is Ok && after_ctx.propagation_queue.len() > before_ctx.propagation_queue.len() ==> {
            &&& after_ctx.propagation_queue.len() == before_ctx.propagation_queue.len() + 1
            &&& forall|ints: IntAssignment, bools: BoolAssignment| #[trigger]
                after_ctx.propagation_queue@.last().lit.holds(ints, bools) == reaches(
                    self.graph.nodes.int_vars[n],
                    upper,
                    value,
                )(ints, bools)
        }
        &&& r is Err ==> *after_ctx == *before_ctx
    }

    /// Whether the consequence is the bound that the active edge gives to its other end where one
    /// end has the bound `from`, and its reason names that bound by the strongest literal that is
    /// assigned in the context. Upper bounds are negated.
    pub open spec fn told_along(
        &self,
        ctx: SolvingContext,
        e: int,
        upper: bool,
        from: int,
        c: LitPropagation,
    ) -> bool {
        let edge = self.graph.edges[e];
        let source = self.graph.nodes.int_vars[tail(edge, upper)];
        let target = self.graph.nodes.int_vars[head(edge, upper)];
        &&& 0 <= e < self.graph.edges.len()
        &&& self.graph.active_at(e, ctx.trail@)
        &&& forall|ints: IntAssignment, bools: BoolAssignment| #[trigger]
            c.lit.holds(ints, bools) == reaches(target, upper, from - edge.val)(ints, bools)
        &&& if upper {
            exists|level: int| #[trigger]
                strongest_lt(&ctx, source, -from + 1, level) && self.reason_is(c, e, true, level)
        } else {
            exists|level: int| #[trigger]
                strongest_ge(&ctx, source, from, level) && self.reason_is(c, e, false, level)
        }
    }

    /// Whether that is so at some point on the way.
    pub open spec fn told_between(
        &self,
        first: &SolvingContext,
        last: &SolvingContext,
        c: LitPropagation,
    ) -> bool {
        exists|mid: SolvingContext, e: int, upper: bool, from: int| #[trigger]
            self.told_along(mid, e, upper, from, c) && mid.between(first, last)
    }

    /// Whether all consequences up to the given number are bounds that active edges give.
    pub open spec fn all_told(
        &self,
        first: &SolvingContext,
        last: &SolvingContext,
        upto: int,
    ) -> bool {
        forall|k: int|
            first.propagation_queue.len() <= k < upto ==> self.told_between(
                first,
                last,
                #[trigger] last.propagation_queue[k],
            )
    }

    /// Whether the reason of the consequence is that the gating view of the edge holds and its
    /// start is at least `level`, or, if `upper` is set, its end is less than `level`.
    pub open spec fn reason_is(&self, c: LitPropagation, e: int, upper: bool, level: int) -> bool {
        let edge = self.graph.edges[e];
        exists|atoms: Vec<BoolView>| #[trigger]
            ReasonBuilder::Atoms(atoms).builds(c.reason) && forall|
                ints: IntAssignment,
                bools: BoolAssignment,
            | #[trigger]
                all_hold(atoms@, ints, bools) <==> gate_holds(&self.graph, edge, ints, bools) && (
                if upper {
                    self.graph.nodes.int_vars[edge.to as int].eval(ints, bools) < level
                } else {
                    self.graph.nodes.int_vars[edge.from as int].eval(ints, bools) >= level
                })
    }

    /// Propagate a lower bound along an active edge from the node `lb_var`. The reason names the
    /// bound of that node by a literal that is assigned, if there is one.
    pub(crate) fn set_int_lower_bound(
        &self,
        ctx: &mut SolvingContext,
        n: usize,
        value: IntVal,
        bool_var: Option<usize>,
        lb_var: usize,
        lb_val: IntVal,
        Ghost(e): Ghost<int>,
    ) -> (r: Result<(), Conflict>)
        requires
            self.grounded(old(ctx)),
            n < self.graph.size(),
            lb_var < self.graph.size(),
            0 <= e < self.graph.edges.len(),
            self.graph.active_at(e, old(ctx).trail@),
            self.graph.edges[e].from == lb_var,
            self.graph.edges[e].to == n,
            self.graph.edges[e].bool_var == bool_var,
            value == lb_val - self.graph.edges[e].val,
            -2 * INT_LIMIT <= value <= 2 * INT_LIMIT,
            in_limits(lb_val as int),
            lb_val <= old(ctx).view_min(self.graph.nodes.int_vars[lb_var as int]),
        ensures
            self.bound_set(old(ctx), final(ctx), n as int, false, value as int, r),
            r is Ok && final(ctx).propagation_queue.len() > old(ctx).propagation_queue.len()
                ==> exists|level: int| #[trigger]
                strongest_ge(
                    old(ctx),
                    self.graph.nodes.int_vars[lb_var as int],
                    lb_val as int,
                    level,
                ) && self.reason_is(final(ctx).propagation_queue@.last(), e, false, level),
    {
        let ghost ctx0 = *ctx;
        let ghost rule = diff_rule(&self.graph);
        let target: IntView = self.graph.nodes.int_vars[n];
        let source: IntView = self.graph.nodes.int_vars[lb_var];
        proof {
            self.graph.lemma_gates();
            assert(ctx0.has_view(self.graph.nodes.int_vars[n as int]));
            assert(ctx0.has_view(self.graph.nodes.int_vars[lb_var as int]));
            lemma_infers_nothing(&ctx0, rule);
        }
        let mut atoms: Vec<BoolView> = Vec::new();
        let first: BoolView = DiffLogicState::relaxed_ge_lit(ctx, source, lb_val);
        let ghost level = choose|level: int| #[trigger]
            strongest_ge(&ctx0, source, lb_val as int, level) && tells_bound(
                first,
                source,
                false,
                level,
            );
        atoms.push(first);
        if let Some(b) = bool_var {
            atoms.push(self.graph.bool_vars[b]);
        }
        let ghost builder = ReasonBuilder::Atoms(atoms);
        let ghost step = reaches(target, false, value as int);
        proof {
            assert forall|ints: IntAssignment, bools: BoolAssignment|
                #[trigger] rule(ints, bools) && builder.holds(ints, bools) implies step(
                ints,
                bools,
            ) by {
                lemma_two_atoms(atoms@, ints, bools);
                assert(first.holds(ints, bools));
                assert(gate_holds(&self.graph, self.graph.edges[e], ints, bools));
            }
            assert forall|ints: IntAssignment, bools: BoolAssignment|
                #[trigger] ctx0.admits(ints, bools) implies builder.holds(ints, bools) by {
                lemma_two_atoms(atoms@, ints, bools);
                lemma_view_bounds(&ctx0, source, ints, bools);
                assert(first.holds(ints, bools));
                if let Some(b) = bool_var {
                    assert(ctx0.knows(self.graph.bool_vars[b as int]));
                    lemma_decided_holds(&ctx0, self.graph.bool_vars[b as int], ints, bools);
                }
            }
        }
        let r: Result<(), Conflict> = ctx.tighten_min(target, value, ReasonBuilder::Atoms(atoms));
        proof {
            lemma_infers_step(&ctx0, &ctx0, ctx, rule, step, builder, r);
            lemma_grounded_narrowed(self, &ctx0, ctx);
            if r is Ok && ctx.propagation_queue.len() > ctx0.propagation_queue.len() {
                let c = ctx.propagation_queue@.last();
                assert(builder.builds(c.reason));
                assert forall|ints: IntAssignment, bools: BoolAssignment| #[trigger]
                    all_hold(builder->Atoms_0@, ints, bools) <==> gate_holds(
                    &self.graph,
                    self.graph.edges[e],
                    ints,
                    bools,
                ) && first.holds(ints, bools) by {
                    lemma_two_atoms(builder->Atoms_0@, ints, bools);
                }
                assert(self.reason_is(c, e, false, level));
            }
        }
        r
    }

    /// Propagate an upper bound along an active edge to the node `ub_var`. The reason names the
    /// bound of that node by a literal that is assigned, if there is one.
    pub(crate) fn set_int_upper_bound(
        &self,
        ctx: &mut SolvingContext,
        n: usize,
        value: IntVal,
        bool_var: Option<usize>,
        ub_var: usize,
        ub_val: IntVal,
        Ghost(e): Ghost<int>,
    ) -> (r: Result<(), Conflict>)
        requires
            self.grounded(old(ctx)),
            n < self.graph.size(),
            ub_var < self.graph.size(),
            0 <= e < self.graph.edges.len(),
            self.graph.active_at(e, old(ctx).trail@),
            self.graph.edges[e].from == n,
            self.graph.edges[e].to == ub_var,
            self.graph.edges[e].bool_var == bool_var,
            value == ub_val + self.graph.edges[e].val,
            -2 * INT_LIMIT <= value < 2 * INT_LIMIT,
            in_limits(ub_val as int),
            ub_val >= old(ctx).view_max(self.graph.nodes.int_vars[ub_var as int]),
        ensures
            self.bound_set(old(ctx), final(ctx), n as int, true, -value, r),
            r is Ok && final(ctx).propagation_queue.len() > old(ctx).propagation_queue.len()
                ==> exists|level: int| #[trigger]
                strongest_lt(
                    old(ctx),
                    self.graph.nodes.int_vars[ub_var as int],
                    ub_val + 1,
                    level,
                ) && self.reason_is(final(ctx).propagation_queue@.last(), e, true, level),
    {
        let ghost ctx0 = *ctx;
        let ghost rule = diff_rule(&self.graph);
        let target: IntView = self.graph.nodes.int_vars[n];
        let source: IntView = self.graph.nodes.int_vars[ub_var];
        proof {
            self.graph.lemma_gates();
            assert(ctx0.has_view(self.graph.nodes.int_vars[n as int]));
            assert(ctx0.has_view(self.graph.nodes.int_vars[ub_var as int]));
            lemma_infers_nothing(&ctx0, rule);
        }
        let mut atoms: Vec<BoolView> = Vec::new();
        let first: BoolView = DiffLogicState::relaxed_lt_lit(ctx, source, ub_val + 1);
        let ghost level = choose|level: int| #[trigger]
            strongest_lt(&ctx0, source, ub_val + 1, level) && tells_bound(first, source, true, level);
        atoms.push(first);
        if let Some(b) = bool_var {
            atoms.push(self.graph.bool_vars[b]);
        }
        let ghost builder = ReasonBuilder::Atoms(atoms);
        let ghost step = reaches(target, true, -(value as int));
        proof {
            assert forall|ints: IntAssignment, bools: BoolAssignment|
                #[trigger] rule(ints, bools) && builder.holds(ints, bools) implies step(
                ints,
                bools,
            ) by {
                lemma_two_atoms(atoms@, ints, bools);
                assert(first.holds(ints, bools));
                assert(gate_holds(&self.graph, self.graph.edges[e], ints, bools));
            }
            assert forall|ints: IntAssignment, bools: BoolAssignment|
                #[trigger] ctx0.admits(ints, bools) implies builder.holds(ints, bools) by {
                lemma_two_atoms(atoms@, ints, bools);
                lemma_view_bounds(&ctx0, source, ints, bools);
                assert(first.holds(ints, bools));
                if let Some(b) = bool_var {
                    assert(ctx0.knows(self.graph.bool_vars[b as int]));
                    lemma_decided_holds(&ctx0, self.graph.bool_vars[b as int], ints, bools);
                }
            }
        }
        let r: Result<(), Conflict> = ctx.tighten_max(target, value, ReasonBuilder::Atoms(atoms));
        proof {
            assert(step =~= at_most(target, value as int));
            lemma_infers_step(&ctx0, &ctx0, ctx, rule, step, builder, r);
            lemma_grounded_narrowed(self, &ctx0, ctx);
            if r is Ok && ctx.propagation_queue.len() > ctx0.propagation_queue.len() {
                let c = ctx.propagation_queue@.last();
                assert(builder.builds(c.reason));
                assert forall|ints: IntAssignment, bools: BoolAssignment| #[trigger]
                    all_hold(builder->Atoms_0@, ints, bools) <==> gate_holds(
                    &self.graph,
                    self.graph.edges[e],
                    ints,
                    bools,
                ) && first.holds(ints, bools) by {
                    lemma_two_atoms(builder->Atoms_0@, ints, bools);
                }
                assert(self.reason_is(c, e, true, level));
            }
        }
        r
    }
}

/// The bound that a label of the queue stands for.
spec fn label(pi0: int, pi: Seq<IntVal>, upper: bool, n: int, gamma: int) -> int {
    pi0 - gamma - pull(pi, upper, n)
}

/// The active edges that bounds of the node are passed on along.
pub open spec fn onward(graph: &DiffGraph, values: Seq<usize>, upper: bool, n: int) -> Seq<usize> {
    if upper {
        graph.active_in[n].at(values)
    } else {
        graph.active_out[n].at(values)
    }
}

/// Whether the edge is at the given position of the list of the node, or after it.
spec fn later(
    graph: &DiffGraph,
    values: Seq<usize>,
    upper: bool,
    n: int,
    i: int,
    e: int,
) -> bool {
    exists|j: int|
        i <= j < onward(graph, values, upper, n).len() && #[trigger] onward(
            graph,
            values,
            upper,
            n,
        )[j] == e
}

impl DiffLogicState {
    /// The nodes whose lower bounds have changed, or, if `upper` is set, upper bounds.
    pub open spec fn changes(&self, upper: bool) -> Set<usize> {
        if upper {
            self.upper_bound_changes@
        } else {
            self.lower_bound_changes@
        }
    }

    /// The bound of a node in its domain, negated if `upper` is set.
    pub open spec fn near_node(&self, ctx: &SolvingContext, upper: bool, n: int) -> int {
        near(ctx, self.graph.nodes.int_vars[n], upper)
    }

    /// Whether the propagated bound of the start of the edge was passed on to its end.
    pub open spec fn passes(&self, ctx: &SolvingContext, upper: bool, e: int) -> bool {
        self.propagated(upper, tail(self.graph.edges[e], upper)) matches Some(v)
            ==> self.near_node(ctx, upper, head(self.graph.edges[e], upper)) >= v
            - self.graph.edges[e].val
    }

    /// Whether the label is the propagated bound of the node before, passed on along an edge.
    spec fn from_step(&self, values: Seq<usize>, upper: bool, t: int, lab: int) -> bool {
        exists|e: int|
            0 <= e < self.graph.edges.len() && #[trigger] self.graph.active_at(e, values)
                && self.step_along(upper, t, lab, e)
    }

    /// Whether the label is the propagated bound of the start of the edge, passed on.
    spec fn step_along(&self, upper: bool, t: int, lab: int, e: int) -> bool {
        let edge = self.graph.edges[e];
        &&& head(edge, upper) == t
        &&& self.backtrace[t] == Some(
            Step { node: tail(edge, upper) as usize, gate: edge.bool_var },
        )
        &&& self.visited[tail(edge, upper)]
        &&& self.propagated(upper, tail(edge, upper)) == Some(lab + edge.val)
    }

    /// Whether the propagated bound of the start of the edge was passed on to its end, or is
    /// going to be.
    spec fn promised(
        &self,
        ctx: &SolvingContext,
        upper: bool,
        queue: Map<usize, Priority>,
        pi0: int,
        e: int,
    ) -> bool {
        let t = head(self.graph.edges[e], upper);
        self.passes(ctx, upper, e) || (queue.dom().contains(t as usize) && label(
            pi0,
            self.pi@,
            upper,
            t,
            queue[t as usize].0 as int,
        ) >= self.propagated(upper, tail(self.graph.edges[e], upper))->0
            - self.graph.edges[e].val)
    }
}

/// What holds while bounds are passed on. The nodes in `fresh` got new bounds; those of the
/// node `s` have yet to be passed on along the edges from position `i` on.
#[verifier::opaque]
spec fn searching(
    st: &DiffLogicState,
    ctx: &SolvingContext,
    upper: bool,
    queue: Map<usize, Priority>,
    pi0: int,
    g: int,
    st0: &DiffLogicState,
    ctx0: &SolvingContext,
    fresh: Set<int>,
    s: int,
    i: int,
) -> bool {
    let n = st.graph.size();
    &&& forall|t: usize| #[trigger]
        queue.dom().contains(t) ==> {
            let lab = label(pi0, st.pi@, upper, t as int, queue[t].0 as int);
            &&& t < n
            &&& !st.visited[t as int]
            &&& queue[t].0 >= g
            &&& !queue[t].1
            &&& -2 * INT_LIMIT <= lab < 2 * INT_LIMIT
            &&& lab > st.near_node(ctx, upper, t as int) ==> st.from_step(
                ctx.trail@,
                upper,
                t as int,
                lab,
            )
        }
    &&& forall|t: int|
        0 <= t < n && #[trigger] st.visited[t] ==> st.near_node(ctx, upper, t) >= label(
            pi0,
            st.pi@,
            upper,
            t,
            g,
        )
    &&& forall|e: int|
        0 <= e < st.graph.edges.len() && #[trigger] st.graph.active_at(e, ctx.trail@) && (
        st0.passes(ctx0, upper, e) || fresh.contains(tail(st.graph.edges[e], upper))) && !(tail(
            st.graph.edges[e],
            upper,
        ) == s && later(&st.graph, ctx.trail@, upper, s, i, e)) ==> st.promised(
            ctx,
            upper,
            queue,
            pi0,
            e,
        )
    &&& forall|k: usize| #[trigger]
        st.changes(upper).contains(k) ==> {
            &&& k < n
            &&& st.visited[k as int] ==> fresh.contains(k as int)
            &&& !st.visited[k as int] ==> queue.dom().contains(k) && label(
                pi0,
                st.pi@,
                upper,
                k as int,
                queue[k].0 as int,
            ) >= st.near_node(ctx0, upper, k as int)
        }
    &&& forall|k: int| #[trigger]
        fresh.contains(k) ==> 0 <= k < n && st.visited[k] && st.propagated(upper, k) is Some && (
        st0.changes(upper).contains(k as usize) ==> st.propagated(upper, k)->0 >= st.near_node(
            ctx0,
            upper,
            k,
        ))
    &&& forall|k: usize| #[trigger]
        st0.changes(upper).contains(k) ==> st.changes(upper).contains(k)
    &&& forall|k: usize| #[trigger]
        st.changes(upper).contains(k) && !st0.changes(upper).contains(k) ==> st.near_node(
            ctx,
            upper,
            k as int,
        ) > st.near_node(ctx0, upper, k as int)
    &&& forall|k: int|
        0 <= k < n && !fresh.contains(k) ==> #[trigger] st.propagated(upper, k) == st0.propagated(
            upper,
            k,
        )
}

/// The bounds of the nodes only get tighter.
pub proof fn lemma_near_narrowed(st: &DiffLogicState, before_ctx: &SolvingContext, ctx: &SolvingContext)
    requires
        st.grounded(before_ctx),
        ctx.wf(),
        ctx.grows(before_ctx),
        ctx.narrows(before_ctx),
    ensures
        forall|n: int, upper: bool|
            0 <= n < st.graph.size() ==> #[trigger] st.near_node(ctx, upper, n) >= st.near_node(
                before_ctx,
                upper,
                n,
            ),
{
    assert forall|n: int, upper: bool| 0 <= n < st.graph.size() implies #[trigger] st.near_node(
        ctx,
        upper,
        n,
    ) >= st.near_node(before_ctx, upper, n) by {
        assert(before_ctx.has_view(st.graph.nodes.int_vars[n]));
        lemma_view_narrowed(before_ctx, ctx, st.graph.nodes.int_vars[n]);
    }
}

/// The start of passing bounds on.
proof fn lemma_search_start(
    st: &DiffLogicState,
    ctx: &SolvingContext,
    upper: bool,
    queue: Map<usize, Priority>,
    pi0: int,
    st0: &DiffLogicState,
)
    requires
        st.grounded(ctx),
        forall|k: usize| #[trigger]
            st.changes(upper).contains(k) <==> st0.changes(upper).contains(k),
        forall|k: int, u: bool| #[trigger] st.propagated(u, k) == st0.propagated(u, k),
        st.graph == st0.graph,
        forall|n: int| 0 <= n < st.graph.size() ==> !#[trigger] st.visited[n],
        forall|k: usize| #[trigger] st.changes(upper).contains(k) ==> k < st.graph.size(),
        forall|k: usize| #[trigger]
            queue.dom().contains(k) <==> st.changes(upper).contains(k),
        forall|k: usize| #[trigger]
            queue.dom().contains(k) ==> queue[k].0 >= 0 && !queue[k].1 && label(
                pi0,
                st.pi@,
                upper,
                k as int,
                queue[k].0 as int,
            ) == st.near_node(ctx, upper, k as int),
    ensures
        searching(st, ctx, upper, queue, pi0, 0, st0, ctx, Set::empty(), -1, 0),
{
    reveal(searching);
    assert forall|t: usize| #[trigger] queue.dom().contains(t) implies -2 * INT_LIMIT <= label(
        pi0,
        st.pi@,
        upper,
        t as int,
        queue[t].0 as int,
    ) < 2 * INT_LIMIT && t < st.graph.size() by {
        assert(st.changes(upper).contains(t));
        assert(ctx.has_view(st.graph.nodes.int_vars[t as int]));
    }
    assert forall|e: int|
        0 <= e < st.graph.edges.len() && #[trigger] st.graph.active_at(e, ctx.trail@)
            && st0.passes(ctx, upper, e) implies st.promised(ctx, upper, queue, pi0, e) by {
        st.graph.lemma_edge(e);
        assert(st.propagated(upper, tail(st.graph.edges[e], upper)) == st0.propagated(
            upper,
            tail(st.graph.edges[e], upper),
        ));
    }
    assert forall|k: usize| #[trigger] st.changes(upper).contains(k) implies k < st.graph.size()
        && !st.visited[k as int] && queue.dom().contains(k) && label(
        pi0,
        st.pi@,
        upper,
        k as int,
        queue[k].0 as int,
    ) >= st.near_node(ctx, upper, k as int) by {
        assert(queue.dom().contains(k));
    }
}

/// A node is taken from the queue: it gets the bound, or has a better one.
proof fn lemma_search_pop(
    st: &DiffLogicState,
    ctx: &SolvingContext,
    upper: bool,
    queue: Map<usize, Priority>,
    pi0: int,
    g: int,
    st0: &DiffLogicState,
    ctx0: &SolvingContext,
    fresh: Set<int>,
    s: usize,
    after: &DiffLogicState,
    after_ctx: &SolvingContext,
    updated: bool,
)
    requires
        searching(st, ctx, upper, queue, pi0, g, st0, ctx0, fresh, -1, 0),
        st.grounded(ctx),
        st.sized(),
        st0.graph == st.graph,
        ctx.narrows(ctx0),
        queue.dom().contains(s),
        forall|t: usize| #[trigger] queue.dom().contains(t) ==> queue[t].0 >= queue[s].0,
        after.graph == st.graph,
        after.pi == st.pi,
        after.backtrace == st.backtrace,
        after.visited@ == st.visited@.update(s as int, true),
        after_ctx.trail == ctx.trail,
        forall|n: int, u: bool|
            0 <= n < st.graph.size() ==> #[trigger] st.near_node(after_ctx, u, n) >= st.near_node(
                ctx,
                u,
                n,
            ),
        st.near_node(after_ctx, upper, s as int) >= label(
            pi0,
            st.pi@,
            upper,
            s as int,
            queue[s].0 as int,
        ),
        forall|n: int|
            0 <= n < st.graph.size() && n != s ==> #[trigger] after.propagated(upper, n)
                == st.propagated(upper, n),
        updated ==> after.propagated(upper, s as int) == Some(
            label(pi0, st.pi@, upper, s as int, queue[s].0 as int),
        ),
        !updated ==> after.propagated(upper, s as int) == st.propagated(upper, s as int)
            && !st.changes(upper).contains(s) && after.changes(upper) == st.changes(upper),
        after.changes(upper) == st.changes(upper) || (after.changes(upper) == st.changes(
            upper,
        ).insert(s) && (st.changes(upper).contains(s) || st.near_node(after_ctx, upper, s as int)
            > st.near_node(ctx0, upper, s as int))),
    ensures
        searching(
            after,
            after_ctx,
            upper,
            queue.remove(s),
            pi0,
            queue[s].0 as int,
            st0,
            ctx0,
            if updated {
                fresh.insert(s as int)
            } else {
                fresh
            },
            if updated {
                s as int
            } else {
                -1
            },
            0,
        ),
{
    reveal(searching);
    let gs = queue[s].0 as int;
    let q = queue.remove(s);
    let values = ctx.trail@;
    let fresh2 = if updated {
        fresh.insert(s as int)
    } else {
        fresh
    };
    let s2 = if updated {
        s as int
    } else {
        -1
    };
    assert(s < st.graph.size() && !st.visited[s as int]);
    assert forall|t: usize| #[trigger] q.dom().contains(t) && label(
        pi0,
        st.pi@,
        upper,
        t as int,
        q[t].0 as int,
    ) > after.near_node(after_ctx, upper, t as int) implies after.from_step(
        after_ctx.trail@,
        upper,
        t as int,
        label(pi0, st.pi@, upper, t as int, q[t].0 as int),
    ) by {
        assert(queue.dom().contains(t));
        let lab = label(pi0, st.pi@, upper, t as int, q[t].0 as int);
        assert(st.near_node(after_ctx, upper, t as int) >= st.near_node(ctx, upper, t as int));
        assert(st.from_step(values, upper, t as int, lab));
        let e = choose|e: int|
            0 <= e < st.graph.edges.len() && #[trigger] st.graph.active_at(e, values)
                && st.step_along(upper, t as int, lab, e);
        st.graph.lemma_edge(e);
        assert(after.step_along(upper, t as int, lab, e));
        assert(after.graph.active_at(e, after_ctx.trail@));
    }
    assert forall|t: int| 0 <= t < st.graph.size() && #[trigger] after.visited[t] implies
        after.near_node(after_ctx, upper, t) >= label(pi0, st.pi@, upper, t, gs) by {
        if t != s {
            assert(st.visited[t]);
            assert(st.near_node(after_ctx, upper, t) >= st.near_node(ctx, upper, t));
        }
    }
    assert forall|e: int|
        0 <= e < st.graph.edges.len() && #[trigger] after.graph.active_at(e, after_ctx.trail@) && (
        st0.passes(ctx0, upper, e) || fresh2.contains(tail(st.graph.edges[e], upper))) && !(tail(
            st.graph.edges[e],
            upper,
        ) == s2 && later(&st.graph, values, upper, s2, 0, e)) implies after.promised(
        after_ctx,
        upper,
        q,
        pi0,
        e,
    ) by {
        assert(st.graph.active_at(e, values));
        st.graph.lemma_edge(e);
        let f = tail(st.graph.edges[e], upper);
        let t = head(st.graph.edges[e], upper);
        if f == s && updated {
            let r = st.graph.lemma_active_listed(values, e);
            let j = if upper {
                r.1
            } else {
                r.0
            };
            assert(onward(&st.graph, values, upper, s as int)[j] == e);
            assert(later(&st.graph, values, upper, s2, 0, e));
        } else {
            assert(!later(&st.graph, values, upper, -1, 0, e) || f != -1);
            assert(st.promised(ctx, upper, queue, pi0, e));
            assert(after.propagated(upper, f) == st.propagated(upper, f));
            assert(st.near_node(after_ctx, upper, t) >= st.near_node(ctx, upper, t));
        }
    }
    assert forall|k: usize| #[trigger] after.changes(upper).contains(k) implies {
        &&& k < st.graph.size()
        &&& after.visited[k as int] ==> fresh2.contains(k as int)
        &&& !after.visited[k as int] ==> q.dom().contains(k) && label(
            pi0,
            st.pi@,
            upper,
            k as int,
            q[k].0 as int,
        ) >= st.near_node(ctx0, upper, k as int)
    } by {
        if k != s {
            assert(st.changes(upper).contains(k));
        }
    }
    assert forall|k: int| #[trigger] fresh2.contains(k) implies 0 <= k < st.graph.size()
        && after.visited[k] && after.propagated(upper, k) is Some && (st0.changes(upper).contains(
        k as usize,
    ) ==> after.propagated(upper, k)->0 >= st.near_node(ctx0, upper, k)) by {
        if k != s {
            assert(fresh.contains(k));
        } else if st0.changes(upper).contains(s) {
            assert(st.changes(upper).contains(s));
        }
    }
    assert forall|k: usize| #[trigger]
        st0.changes(upper).contains(k) implies after.changes(upper).contains(k) by {
        assert(st.changes(upper).contains(k));
    }
    assert forall|k: usize| #[trigger]
        after.changes(upper).contains(k) && !st0.changes(upper).contains(k) implies st.near_node(
        after_ctx,
        upper,
        k as int,
    ) > st.near_node(ctx0, upper, k as int) by {
        if st.changes(upper).contains(k) {
            assert(st.near_node(after_ctx, upper, k as int) >= st.near_node(ctx, upper, k as int));
        }
    }
    assert forall|k: int|
        0 <= k < st.graph.size() && !fresh2.contains(k) implies #[trigger] after.propagated(upper, k)
        == st0.propagated(upper, k) by {
        assert(!fresh.contains(k));
        assert(st.propagated(upper, k) == st0.propagated(upper, k));
    }
}

/// A bound is passed on along an edge.
proof fn lemma_search_edge(
    st: &DiffLogicState,
    ctx: &SolvingContext,
    upper: bool,
    queue: Map<usize, Priority>,
    pi0: int,
    g: int,
    st0: &DiffLogicState,
    ctx0: &SolvingContext,
    fresh: Set<int>,
    s: int,
    i: int,
    after: &DiffLogicState,
    after_queue: Map<usize, Priority>,
)
    requires
        searching(st, ctx, upper, queue, pi0, g, st0, ctx0, fresh, s, i),
        st.graph.structure(),
        st.graph.good_at(ctx.trail@),
        st.sized(),
        st.pi_valid(ctx.trail@),
        st.bounds_sound(ctx),
        0 <= s < st.graph.size(),
        st.visited[s],
        st.propagated(upper, s) == Some(label(pi0, st.pi@, upper, s, g)),
        0 <= i < onward(&st.graph, ctx.trail@, upper, s).len(),
        after.graph == st.graph,
        after.pi == st.pi,
        after.visited == st.visited,
        after.same_but_steps(st),
        ({
            let e = onward(&st.graph, ctx.trail@, upper, s)[i] as int;
            let edge = st.graph.edges[e];
            let t = head(edge, upper);
            let path = g + pull(st.pi@, upper, s) + edge.val - pull(st.pi@, upper, t);
            &&& 0 <= e < st.graph.edges.len()
            &&& -INT_LIMIT <= 2 * edge.val <= INT_LIMIT
            &&& tail(edge, upper) == s
            &&& 0 <= t < st.graph.size()
            &&& st.graph.active_at(e, ctx.trail@)
            &&& if !st.visited[t] && (!queue.dom().contains(t as usize) || path
                < queue[t as usize].0) {
                &&& IntVal::MIN <= path <= IntVal::MAX
                &&& after_queue == queue.insert(t as usize, (path as IntVal, false))
                &&& after.backtrace@ == st.backtrace@.update(
                    t,
                    Some(Step { node: s as usize, gate: edge.bool_var }),
                )
            } else {
                after_queue == queue && after.backtrace == st.backtrace
            }
        }),
    ensures
        searching(after, ctx, upper, after_queue, pi0, g, st0, ctx0, fresh, s, i + 1),
{
    reveal(searching);
    let values = ctx.trail@;
    let e0 = onward(&st.graph, values, upper, s)[i] as int;
    let edge = st.graph.edges[e0];
    let t0 = head(edge, upper);
    let path = g + pull(st.pi@, upper, s) + edge.val - pull(st.pi@, upper, t0);
    assert(st.pi_keeps(edge));
    assert(path >= g);
    assert(label(pi0, st.pi@, upper, t0, path) == label(pi0, st.pi@, upper, s, g) - edge.val);
    assert(in_limits(st.propagated(upper, s)->0));
    let pushed = !st.visited[t0] && (!queue.dom().contains(t0 as usize) || path
        < queue[t0 as usize].0);
    assert forall|k: int, u: bool| #[trigger] after.propagated(u, k) == st.propagated(u, k) by {}
    assert(after.changes(upper) == st.changes(upper));
    assert forall|t: usize| #[trigger] after_queue.dom().contains(t) implies {
        let lab = label(pi0, st.pi@, upper, t as int, after_queue[t].0 as int);
        &&& t < st.graph.size()
        &&& !after.visited[t as int]
        &&& after_queue[t].0 >= g
        &&& !after_queue[t].1
        &&& -2 * INT_LIMIT <= lab < 2 * INT_LIMIT
        &&& lab > after.near_node(ctx, upper, t as int) ==> after.from_step(
            values,
            upper,
            t as int,
            lab,
        )
    } by {
        let lab = label(pi0, st.pi@, upper, t as int, after_queue[t].0 as int);
        if pushed && t == t0 {
            assert(after.step_along(upper, t as int, lab, e0));
            assert(after.graph.active_at(e0, values));
            assert(after.from_step(values, upper, t as int, lab));
        } else {
            assert(queue.dom().contains(t));
            if lab > after.near_node(ctx, upper, t as int) {
                assert(st.near_node(ctx, upper, t as int) == after.near_node(ctx, upper, t as int));
                assert(st.from_step(values, upper, t as int, lab));
                let e = choose|e: int|
                    0 <= e < st.graph.edges.len() && #[trigger] st.graph.active_at(e, values)
                        && st.step_along(upper, t as int, lab, e);
                assert(after.step_along(upper, t as int, lab, e));
                assert(after.graph.active_at(e, values));
            }
        }
    }
    assert forall|e: int|
        0 <= e < st.graph.edges.len() && #[trigger] after.graph.active_at(e, values) && (
        st0.passes(ctx0, upper, e) || fresh.contains(tail(st.graph.edges[e], upper))) && !(tail(
            st.graph.edges[e],
            upper,
        ) == s && later(&st.graph, values, upper, s, i + 1, e)) implies after.promised(
        ctx,
        upper,
        after_queue,
        pi0,
        e,
    ) by {
        assert(st.graph.active_at(e, values));
        let t = head(st.graph.edges[e], upper);
        st.graph.lemma_edge(e);
        if e == e0 {
            if st.visited[t0] {
                assert(st.near_node(ctx, upper, t0) >= label(pi0, st.pi@, upper, t0, g));
                assert(after.passes(ctx, upper, e));
            } else {
                assert(after_queue.dom().contains(t0 as usize));
            }
        } else {
            if tail(st.graph.edges[e], upper) == s && later(&st.graph, values, upper, s, i, e) {
                let j = choose|j: int|
                    i <= j < onward(&st.graph, values, upper, s).len() && #[trigger] onward(
                        &st.graph,
                        values,
                        upper,
                        s,
                    )[j] == e;
                assert(j != i);
                assert(later(&st.graph, values, upper, s, i + 1, e));
            }
            assert(st.promised(ctx, upper, queue, pi0, e));
        }
    }
    assert forall|k: usize| #[trigger] after.changes(upper).contains(k) implies {
        &&& k < st.graph.size()
        &&& after.visited[k as int] ==> fresh.contains(k as int)
        &&& !after.visited[k as int] ==> after_queue.dom().contains(k) && label(
            pi0,
            st.pi@,
            upper,
            k as int,
            after_queue[k].0 as int,
        ) >= st.near_node(ctx0, upper, k as int)
    } by {
        assert(st.changes(upper).contains(k));
    }
}

impl DiffLogicState {
    /// Whether the states differ in the steps of a search only.
    pub open spec fn same_but_steps(&self, other: &DiffLogicState) -> bool {
        &&& self.graph == other.graph
        &&& self.pi == other.pi
        &&& self.lower_bound == other.lower_bound
        &&& self.upper_bound == other.upper_bound
        &&& self.backtrace.len() == other.backtrace.len()
        &&& self.visited == other.visited
        &&& self.visited_updates == other.visited_updates
        &&& self.lower_bound_changes == other.lower_bound_changes
        &&& self.upper_bound_changes == other.upper_bound_changes
        &&& self.lb_updates == other.lb_updates
        &&& self.ub_updates == other.ub_updates
        &&& self.fixed_bools == other.fixed_bools
        &&& self.pi_initialized == other.pi_initialized
        &&& self.same_settings(other)
    }
}

impl DiffLogicState {
    /// The bound of a node in its domain, negated if `upper` is set.
    fn bound_of(&self, ctx: &SolvingContext, upper: bool, n: usize) -> (r: IntVal)
        requires
            self.grounded(ctx),
            n < self.graph.size(),
        ensures
            r == self.near_node(ctx, upper, n as int),
            in_limits(r as int),
    {
        proof {
            assert(ctx.has_view(self.graph.nodes.int_vars[n as int]));
        }
        if upper {
            -ctx.max(self.graph.nodes.int_vars[n])
        } else {
            ctx.min(self.graph.nodes.int_vars[n])
        }
    }

    /// The potential of a node, negated if `upper` is set.
    fn pull_of(&self, upper: bool, n: usize) -> (r: IntVal)
        requires
            self.sized(),
            n < self.graph.size(),
        ensures
            r == pull(self.pi@, upper, n as int),
            -PI_LIMIT <= r <= PI_LIMIT,
    {
        if upper {
            -self.pi[n]
        } else {
            self.pi[n]
        }
    }

    /// The bound of a node that the next search starts from, negated if `upper` is set.
    fn current_of(&self, ctx: &SolvingContext, upper: bool, n: usize) -> (r: IntVal)
        requires
            self.grounded(ctx),
            self.sized(),
            self.bounds_sound(ctx),
            n < self.graph.size(),
        ensures
            r == self.current(ctx, upper, n as int),
            in_limits(r as int),
            r <= self.near_node(ctx, upper, n as int),
    {
        if upper {
            -self.get_cur_upper_bound(ctx, n)
        } else {
            self.get_cur_lower_bound(ctx, n)
        }
    }

    /// Give a node the bound that was found for it. If that is news, it is passed on along the
    /// edge by which the node was reached.
    fn settle(
        &mut self,
        ctx: &mut SolvingContext,
        upper: bool,
        s: usize,
        bound: IntVal,
        Ghost(e): Ghost<int>,
    ) -> (r: Result<(), Conflict>)
        requires
            old(self).grounded(old(ctx)),
            old(self).sized(),
            old(self).bounds_sound(old(ctx)),
            s < old(self).graph.size(),
            -INT_LIMIT <= bound < 2 * INT_LIMIT,
            bound > old(self).near_node(old(ctx), upper, s as int) ==> {
                &&& 0 <= e < old(self).graph.edges.len()
                &&& old(self).graph.active_at(e, old(ctx).trail@)
                &&& old(self).step_along(upper, s as int, bound as int, e)
                &&& tail(old(self).graph.edges[e], upper) != s
            },
        ensures
            final(ctx).infers(old(ctx), diff_rule(&old(self).graph), r),
            final(ctx).trail == old(ctx).trail,
            final(self).graph == old(self).graph,
            final(self).pi == old(self).pi,
            final(self).backtrace == old(self).backtrace,
            final(self).visited == old(self).visited,
            final(self).visited_updates == old(self).visited_updates,
            final(self).fixed_bools == old(self).fixed_bools,
            final(self).pi_initialized == old(self).pi_initialized,
            final(self).same_settings(old(self)),
            final(self).changes(!upper) == old(self).changes(!upper),
            final(self).sized(),
            final(self).bounds_listed(),
            final(self).grounded(final(ctx)),
            final(self).propagated(upper, s as int) == Some(bound as int),
            forall|k: int, u: bool|
                0 <= k < old(self).graph.size() && !(k == s && u == upper)
                    ==> #[trigger] final(self).propagated(u, k) == old(self).propagated(u, k),
            r is Err ==> final(self).changes(upper) == old(self).changes(upper),
            old(self).all_told(old(ctx), final(ctx), final(ctx).propagation_queue.len() as int),
            r is Ok ==> {
                &&& final(self).bounds_sound(final(ctx))
                &&& final(self).near_node(final(ctx), upper, s as int) >= bound
                &&& final(self).changes(upper) == if bound > old(self).near_node(
                    old(ctx),
                    upper,
                    s as int,
                ) {
                    old(self).changes(upper).insert(s)
                } else {
                    old(self).changes(upper)
                }
                &&& bound <= old(self).near_node(old(ctx), upper, s as int) ==> *final(ctx) == *old(
                    ctx,
                )
                &&& forall|ints: IntAssignment, bools: BoolAssignment|
                    #[trigger] final(ctx).admits(ints, bools) <==> (old(ctx).admits(ints, bools)
                        && reaches(
                        old(self).graph.nodes.int_vars[s as int],
                        upper,
                        bound as int,
                    )(ints, bools))
            },
    {
        let ghost ctx0 = *ctx;
        let ghost st0 = *self;
        proof {
            lemma_infers_nothing(&ctx0, diff_rule(&self.graph));
        }
        let news: bool = bound > self.bound_of(ctx, upper, s);
        let mut before_node: usize = 0;
        let mut gate: Option<usize> = None;
        let mut source: IntVal = 0;
        if news {
            proof {
                self.graph.lemma_edge(e);
                assert(self.backtrace[s as int] is Some);
            }
            match self.backtrace[s] {
                Some(step) => {
                    before_node = step.node;
                    gate = step.gate;
                    source = self.current_of(ctx, upper, before_node);
                },
                None => {},
            }
        }
        if upper {
            self.update_ub(s, -bound);
        } else {
            self.update_lb(s, bound);
        }
        let ghost st1 = *self;
        if news {
            let r: Result<(), Conflict> = if upper {
                self.set_int_upper_bound(ctx, s, -bound, gate, before_node, -source, Ghost(e))
            } else {
                self.set_int_lower_bound(ctx, s, bound, gate, before_node, source, Ghost(e))
            };
            proof {
                lemma_told_once(&st0, &st1, &ctx0, ctx, e, upper, source as int, r);
            }
            if r.is_err() {
                return r;
            }
            if upper {
                set_insert(&mut self.upper_bound_changes, s);
            } else {
                set_insert(&mut self.lower_bound_changes, s);
            }
        }
        proof {
            assert(ctx0.has_view(st0.graph.nodes.int_vars[s as int]));
            assert forall|ints: IntAssignment, bools: BoolAssignment|
                #[trigger] ctx.admits(ints, bools) <==> (ctx0.admits(ints, bools) && reaches(
                    st0.graph.nodes.int_vars[s as int],
                    upper,
                    bound as int,
                )(ints, bools)) by {
                if !news && ctx0.admits(ints, bools) {
                    lemma_view_bounds(&ctx0, st0.graph.nodes.int_vars[s as int], ints, bools);
                }
            }
            lemma_near_narrowed(&st0, &ctx0, ctx);
            assert forall|n: int, u: bool|
                0 <= n < self.graph.size() implies (#[trigger] self.propagated(u, n) matches Some(v)
                ==> in_limits(v) && v <= near(ctx, self.graph.nodes.int_vars[n], u)) by {
                assert(st0.near_node(ctx, u, n) >= st0.near_node(&ctx0, u, n));
                assert(ctx.has_view(self.graph.nodes.int_vars[n]));
                if !(n == s && u == upper) {
                    assert(self.propagated(u, n) == st0.propagated(u, n));
                }
            }
        }
        Ok(())
    }
}

/// A bound is told along an edge.
proof fn lemma_told_once(
    st0: &DiffLogicState,
    st1: &DiffLogicState,
    ctx0: &SolvingContext,
    ctx: &SolvingContext,
    e: int,
    upper: bool,
    source: int,
    r: Result<(), Conflict>,
)
    requires
        st1.graph == st0.graph,
        0 <= e < st0.graph.edges.len(),
        st0.graph.active_at(e, ctx0.trail@),
        st1.bound_set(
            ctx0,
            ctx,
            head(st0.graph.edges[e], upper),
            upper,
            source - st0.graph.edges[e].val,
            r,
        ),
        r is Ok && ctx.propagation_queue.len() > ctx0.propagation_queue.len() ==> if upper {
            exists|level: int| #[trigger]
                strongest_lt(
                    ctx0,
                    st0.graph.nodes.int_vars[tail(st0.graph.edges[e], upper)],
                    -source + 1,
                    level,
                ) && st1.reason_is(ctx.propagation_queue@.last(), e, true, level)
        } else {
            exists|level: int| #[trigger]
                strongest_ge(
                    ctx0,
                    st0.graph.nodes.int_vars[tail(st0.graph.edges[e], upper)],
                    source,
                    level,
                ) && st1.reason_is(ctx.propagation_queue@.last(), e, false, level)
        },
    ensures
        st0.all_told(ctx0, ctx, ctx.propagation_queue.len() as int),
{
    assert(ctx0.propagation_queue@.take(ctx0.propagation_queue.len() as int)
        =~= ctx0.propagation_queue@);
    assert forall|k: int|
        ctx0.propagation_queue.len() <= k < ctx.propagation_queue.len() implies st0.told_between(
        ctx0,
        ctx,
        #[trigger] ctx.propagation_queue[k],
    ) by {
        let c = ctx.propagation_queue[k];
        assert(r is Ok);
        assert(c == ctx.propagation_queue@.last());
        let tailed = st0.graph.nodes.int_vars[tail(st0.graph.edges[e], upper)];
        if upper {
            let level = choose|level: int| #[trigger]
                strongest_lt(ctx0, tailed, -source + 1, level) && st1.reason_is(
                    c,
                    e,
                    true,
                    level,
                );
            assert(st0.reason_is(c, e, true, level));
        } else {
            let level = choose|level: int| #[trigger]
                strongest_ge(ctx0, tailed, source, level) && st1.reason_is(c, e, false, level);
            assert(st0.reason_is(c, e, false, level));
        }
        assert(st0.told_along(*ctx0, e, upper, source, c));
    }
}

/// Bounds are told one after another.
pub proof fn lemma_told_join(
    f: &DiffLogicState,
    g: &DiffLogicState,
    ctx0: &SolvingContext,
    ctx1: &SolvingContext,
    ctx2: &SolvingContext,
)
    requires
        g.graph == f.graph,
        f.all_told(ctx0, ctx1, ctx1.propagation_queue.len() as int),
        g.all_told(ctx1, ctx2, ctx2.propagation_queue.len() as int),
        ctx1.grows(ctx0),
        ctx1.narrows(ctx0),
        ctx2.grows(ctx1),
        ctx2.narrows(ctx1),
    ensures
        f.all_told(ctx0, ctx2, ctx2.propagation_queue.len() as int),
{
    let n = ctx1.propagation_queue.len() as int;
    assert forall|k: int|
        ctx0.propagation_queue.len() <= k < ctx2.propagation_queue.len() implies f.told_between(
        ctx0,
        ctx2,
        #[trigger] ctx2.propagation_queue[k],
    ) by {
        let c = ctx2.propagation_queue[k];
        if k < n {
            assert(ctx2.propagation_queue@.take(n)[k] == ctx1.propagation_queue[k]);
            lemma_told_longer(f, f, ctx0, ctx1, ctx0, ctx2, c);
        } else {
            lemma_told_longer(g, f, ctx1, ctx2, ctx0, ctx2, c);
        }
    }
}

/// Bounds that were told stay so.
pub proof fn lemma_told_later(
    g: &DiffLogicState,
    f: &DiffLogicState,
    ctx0: &SolvingContext,
    ctx1: &SolvingContext,
    ctx2: &SolvingContext,
    upto: int,
)
    requires
        f.graph == g.graph,
        g.all_told(ctx0, ctx1, upto),
        upto <= ctx1.propagation_queue.len(),
        ctx2 == ctx1 || (ctx2.grows(ctx1) && ctx2.narrows(ctx1)),
    ensures
        f.all_told(ctx0, ctx2, upto),
{
    let n = ctx1.propagation_queue.len() as int;
    assert forall|k: int| ctx0.propagation_queue.len() <= k < upto implies f.told_between(
        ctx0,
        ctx2,
        #[trigger] ctx2.propagation_queue[k],
    ) by {
        if ctx2 != ctx1 {
            assert(ctx2.propagation_queue@.take(n)[k] == ctx1.propagation_queue[k]);
        }
        assert(g.told_between(ctx0, ctx1, ctx1.propagation_queue[k]));
        lemma_told_longer(g, f, ctx0, ctx1, ctx0, ctx2, ctx2.propagation_queue[k]);
    }
}

/// What was told on the way was told on a longer way.
proof fn lemma_told_longer(
    g: &DiffLogicState,
    f: &DiffLogicState,
    ctx1: &SolvingContext,
    ctx2: &SolvingContext,
    ctx0: &SolvingContext,
    ctx3: &SolvingContext,
    c: LitPropagation,
)
    requires
        f.graph == g.graph,
        g.told_between(ctx1, ctx2, c),
        ctx0 == ctx1 || (ctx1.grows(ctx0) && ctx1.narrows(ctx0)),
        ctx3 == ctx2 || (ctx3.grows(ctx2) && ctx3.narrows(ctx2)),
    ensures
        f.told_between(ctx0, ctx3, c),
{
    let (mid, e, upper, from) = choose|mid: SolvingContext, e: int, upper: bool, from: int|
        #[trigger] g.told_along(mid, e, upper, from, c) && mid.between(ctx1, ctx2);
    if ctx0 != ctx1 {
        lemma_narrows_later(ctx0, ctx1, &mid);
    }
    if ctx3 != ctx2 {
        lemma_narrows_later(&mid, ctx2, ctx3);
    }
    assert forall|u: bool, level: int| #[trigger] g.reason_is(c, e, u, level) implies f.reason_is(
        c,
        e,
        u,
        level,
    ) by {}
    let source = g.graph.nodes.int_vars[tail(g.graph.edges[e], upper)];
    if upper {
        let level = choose|level: int| #[trigger]
            strongest_lt(&mid, source, -from + 1, level) && g.reason_is(c, e, true, level);
        assert(f.reason_is(c, e, true, level));
    } else {
        let level = choose|level: int| #[trigger]
            strongest_ge(&mid, source, from, level) && g.reason_is(c, e, false, level);
        assert(f.reason_is(c, e, false, level));
    }
    assert(f.told_along(mid, e, upper, from, c));
}

impl DiffLogicState {
    /// Offer the bound of a node to the nodes that its active edges lead to.
    fn pass_on(
        &mut self,
        ctx: &SolvingContext,
        upper: bool,
        s: usize,
        gamma_s: IntVal,
        queue: &mut LazyPriorityQueue,
        Ghost(pi0): Ghost<int>,
        Ghost(st0): Ghost<DiffLogicState>,
        Ghost(ctx0): Ghost<SolvingContext>,
        Ghost(fresh): Ghost<Set<int>>,
    )
        requires
            old(self).ready(ctx),
            old(self).bounds_sound(ctx),
            old(queue).wf(),
            s < old(self).graph.size(),
            old(self).visited[s as int],
            -3 * INT_LIMIT <= pi0 <= 3 * INT_LIMIT,
            old(self).propagated(upper, s as int) == Some(
                label(pi0, old(self).pi@, upper, s as int, gamma_s as int),
            ),
            searching(
                old(self),
                ctx,
                upper,
                old(queue)@,
                pi0,
                gamma_s as int,
                &st0,
                &ctx0,
                fresh,
                s as int,
                0,
            ),
        ensures
            final(queue).wf(),
            final(self).same_but_steps(old(self)),
            searching(
                final(self),
                ctx,
                upper,
                final(queue)@,
                pi0,
                gamma_s as int,
                &st0,
                &ctx0,
                fresh,
                -1,
                0,
            ),
    {
        let ghost graph = self.graph;
        let ghost values = ctx.trail@;
        proof {
            self.graph.lemma_lists(values, s as int);
        }
        let len: usize = if upper {
            self.graph.active_in[s].length(&ctx.trail)
        } else {
            self.graph.active_out[s].length(&ctx.trail)
        };
        let mut i: usize = 0;
        while i < len
            invariant
                i <= len,
                values == ctx.trail@,
                graph == self.graph,
                graph == old(self).graph,
                len == onward(&graph, values, upper, s as int).len(),
                self.same_but_steps(old(self)),
                old(self).ready(ctx),
                self.ready(ctx),
                self.bounds_sound(ctx),
                queue.wf(),
                s < graph.size(),
                self.visited[s as int],
                -3 * INT_LIMIT <= pi0 <= 3 * INT_LIMIT,
                self.propagated(upper, s as int) == Some(
                    label(pi0, self.pi@, upper, s as int, gamma_s as int),
                ),
                searching(
                    self,
                    ctx,
                    upper,
                    queue@,
                    pi0,
                    gamma_s as int,
                    &st0,
                    &ctx0,
                    fresh,
                    s as int,
                    i as int,
                ),
            decreases len - i,
        {
            let ghost st1 = *self;
            let ghost q1 = queue@;
            proof {
                self.graph.lemma_lists(values, s as int);
                if upper {
                    self.graph.lemma_active_in(values, s as int, i as int);
                } else {
                    self.graph.lemma_active_out(values, s as int, i as int);
                }
            }
            let e: usize = if upper {
                self.graph.active_in[s].get(&ctx.trail, i)
            } else {
                self.graph.active_out[s].get(&ctx.trail, i)
            };
            let edge: DiffEdge = self.graph.edges[e];
            let t: usize = if upper {
                edge.from
            } else {
                edge.to
            };
            proof {
                let room = weight_room(graph.size(), graph.edges.len() as int);
                lemma_room_limit(graph.size(), graph.edges.len() as int);
                assert(-room <= self.graph.edges[e as int].val <= room);
                assert(in_limits(self.propagated(upper, s as int)->0));
            }
            if !self.visited[t] {
                let pull_s: IntVal = self.pull_of(upper, s);
                let pull_t: IntVal = self.pull_of(upper, t);
                let path: IntVal = gamma_s + pull_s + edge.val - pull_t;
                let old_path: Option<Priority> = queue.push_increase(t, (path, false));
                let improved: bool = match old_path {
                    None => true,
                    Some(q) => path < q.0,
                };
                if improved {
                    self.backtrace.set(t, Some(Step { node: s, gate: edge.bool_var }));
                }
                proof {
                    assert(q1.dom().contains(t) ==> !q1[t].1) by {
                        reveal(searching);
                    }
                }
            }
            proof {
                assert forall|n: int, u: bool| #[trigger]
                    self.propagated(u, n) == st1.propagated(u, n) by {}
                lemma_search_edge(
                    &st1,
                    ctx,
                    upper,
                    q1,
                    pi0,
                    gamma_s as int,
                    &st0,
                    &ctx0,
                    fresh,
                    s as int,
                    i as int,
                    self,
                    queue@,
                );
            }
            i = i + 1;
        }
        proof {
            reveal(searching);
            assert forall|e: int| !later(&graph, values, upper, s as int, len as int, e) by {}
        }
    }
}

/// The values of edges are far smaller than the limit of the bounds.
pub proof fn lemma_room_limit(n: int, m: int)
    requires
        n >= 1,
        m >= 1,
    ensures
        0 <= 2 * weight_room(n, m) <= INT_LIMIT,
{
    lemma_weight_room(n, m);
    let d = 8 * (n + 1) * (m + 1);
    assert(d >= 16) by (nonlinear_arith)
        requires
            n >= 1,
            m >= 1,
            d == 8 * (n + 1) * (m + 1),
    ;
    let q = IntVal::MAX as int / d;
    assert(q <= IntVal::MAX as int / 16) by (nonlinear_arith)
        requires
            d >= 16,
            q == IntVal::MAX as int / d,
    ;
}

impl DiffLogicState {
    /// Whether the values of the nodes whose bounds have changed are within the bounds that were
    /// propagated for them.
    pub open spec fn reached(
        &self,
        upper: bool,
        ints: IntAssignment,
        bools: BoolAssignment,
    ) -> bool {
        forall|k: usize| #[trigger]
            self.changes(upper).contains(k) ==> reaches(
                self.graph.nodes.int_vars[k as int],
                upper,
                self.propagated(upper, k as int)->0,
            )(ints, bools)
    }

    /// Whether the same holds of the nodes that were visited.
    spec fn reached_so_far(
        &self,
        upper: bool,
        ints: IntAssignment,
        bools: BoolAssignment,
    ) -> bool {
        forall|k: usize| #[trigger]
            self.changes(upper).contains(k) && self.visited[k as int] ==> reaches(
                self.graph.nodes.int_vars[k as int],
                upper,
                self.propagated(upper, k as int)->0,
            )(ints, bools)
    }

    /// Whether the domains were narrowed by the bounds of the visited nodes and by nothing else.
    spec fn narrowed_so_far(
        &self,
        ctx0: &SolvingContext,
        ctx: &SolvingContext,
        upper: bool,
    ) -> bool {
        &&& forall|ints: IntAssignment, bools: BoolAssignment|
            #[trigger] ctx.admits(ints, bools) <==> (ctx0.admits(ints, bools)
                && self.reached_so_far(upper, ints, bools))
        &&& forall|k: usize| #[trigger]
            self.changes(upper).contains(k) && self.visited[k as int] ==> (self.propagated(
                upper,
                k as int,
            ) matches Some(v) && v >= self.near_node(ctx0, upper, k as int))
    }
}

/// Another node is visited.
proof fn lemma_narrowed_step(
    st1: &DiffLogicState,
    ctx1: &SolvingContext,
    st2: &DiffLogicState,
    ctx2: &SolvingContext,
    ctx0: &SolvingContext,
    upper: bool,
    s: usize,
    bound: int,
    updated: bool,
)
    requires
        st1.narrowed_so_far(ctx0, ctx1, upper),
        s < st1.graph.size(),
        st1.visited.len() == st1.graph.size(),
        forall|k: usize| #[trigger] st1.changes(upper).contains(k) ==> k < st1.graph.size(),
        !st1.visited[s as int],
        st2.graph == st1.graph,
        st2.visited@ == st1.visited@.update(s as int, true),
        forall|k: int|
            0 <= k < st1.graph.size() && k != s ==> #[trigger] st2.propagated(upper, k)
                == st1.propagated(upper, k),
        st2.changes(upper) == st1.changes(upper) || st2.changes(upper) == st1.changes(
            upper,
        ).insert(s),
        if updated {
            &&& st2.propagated(upper, s as int) == Some(bound)
            &&& st2.changes(upper).contains(s) ==> bound >= st1.near_node(ctx0, upper, s as int)
            &&& forall|ints: IntAssignment, bools: BoolAssignment|
                #[trigger] ctx2.admits(ints, bools) <==> (ctx1.admits(ints, bools) && reaches(
                    st1.graph.nodes.int_vars[s as int],
                    upper,
                    bound,
                )(ints, bools))
            &&& !st2.changes(upper).contains(s) ==> forall|ints: IntAssignment, bools: BoolAssignment|
                #[trigger] ctx2.admits(ints, bools) <==> ctx1.admits(ints, bools)
        } else {
            !st2.changes(upper).contains(s) && *ctx2 == *ctx1
        },
    ensures
        st2.narrowed_so_far(ctx0, ctx2, upper),
{
    assert forall|k: usize| #[trigger]
        st2.changes(upper).contains(k) && st2.visited[k as int] implies (st2.propagated(
        upper,
        k as int,
    ) matches Some(v) && v >= st2.near_node(ctx0, upper, k as int)) by {
        if k != s {
            assert(st1.changes(upper).contains(k) && st1.visited[k as int]);
        }
    }
    assert forall|ints: IntAssignment, bools: BoolAssignment|
        #[trigger] ctx2.admits(ints, bools) <==> (ctx0.admits(ints, bools) && st2.reached_so_far(
            upper,
            ints,
            bools,
        )) by {
        assert(ctx1.admits(ints, bools) <==> (ctx0.admits(ints, bools) && st1.reached_so_far(
            upper,
            ints,
            bools,
        )));
        if st1.reached_so_far(upper, ints, bools) && (st2.changes(upper).contains(s) ==> reaches(
            st1.graph.nodes.int_vars[s as int],
            upper,
            bound,
        )(ints, bools)) {
            assert forall|k: usize| #[trigger]
                st2.changes(upper).contains(k) && st2.visited[k as int] implies reaches(
                st2.graph.nodes.int_vars[k as int],
                upper,
                st2.propagated(upper, k as int)->0,
            )(ints, bools) by {
                if k != s {
                    assert(st1.changes(upper).contains(k) && st1.visited[k as int]);
                }
            }
            assert(st2.reached_so_far(upper, ints, bools));
        }
        if st2.reached_so_far(upper, ints, bools) {
            assert forall|k: usize| #[trigger]
                st1.changes(upper).contains(k) && st1.visited[k as int] implies reaches(
                st1.graph.nodes.int_vars[k as int],
                upper,
                st1.propagated(upper, k as int)->0,
            )(ints, bools) by {
                assert(k != s);
                assert(st2.changes(upper).contains(k) && st2.visited[k as int]);
            }
            if st2.changes(upper).contains(s) {
                assert(st2.visited[s as int]);
            }
        }
    }
}

/// Whether the bounds that were propagated before still are, or tighter ones, and none is looser
/// than the bound that the search started from.
pub open spec fn keeps_propagated(
    before_st: &DiffLogicState,
    before_ctx: &SolvingContext,
    st: &DiffLogicState,
    upper: bool,
) -> bool {
    forall|k: int|
        0 <= k < before_st.graph.size() ==> match #[trigger] st.propagated(upper, k) {
            Some(w) => w >= before_st.current(before_ctx, upper, k),
            None => before_st.propagated(upper, k) is None,
        }
}

/// What passing bounds on achieves.
pub open spec fn bounds_driven(
    before_st: &DiffLogicState,
    before_ctx: &SolvingContext,
    st: &DiffLogicState,
    ctx: &SolvingContext,
    upper: bool,
) -> bool {
    // Every bound that had changed was propagated.
    &&& forall|k: usize| #[trigger]
        before_st.changes(upper).contains(k) ==> (st.propagated(upper, k as int) matches Some(v)
            && v >= before_st.near_node(before_ctx, upper, k as int))
    // The bounds that changed now are noted, with their propagated values.
    &&& forall|k: usize| #[trigger]
        st.changes(upper).contains(k) ==> (st.propagated(upper, k as int) matches Some(v) && v
            >= before_st.near_node(before_ctx, upper, k as int))
    &&& forall|k: usize| #[trigger]
        before_st.changes(upper).contains(k) ==> st.changes(upper).contains(k)
    &&& forall|k: usize| #[trigger]
        st.changes(upper).contains(k) ==> k < st.graph.size() && st.propagated(upper, k as int)
            is Some && (before_st.changes(upper).contains(k) || st.near_node(ctx, upper, k as int)
            > st.near_node(before_ctx, upper, k as int))
    // Bounds that were propagated before were not loosened.
    &&& keeps_propagated(before_st, before_ctx, st, upper)
    // Every bound that was propagated was passed on.
    &&& forall|e: int|
        0 <= e < st.graph.edges.len() && #[trigger] st.graph.active_at(e, ctx.trail@) && (
        before_st.passes(before_ctx, upper, e) || st.changes(upper).contains(
            tail(st.graph.edges[e], upper) as usize,
        ) || st.propagated(upper, tail(st.graph.edges[e], upper)) != before_st.propagated(
            upper,
            tail(st.graph.edges[e], upper),
        )) ==> st.passes(ctx, upper, e)
}

impl DiffLogicState {
    /// Whether the states differ in what passing on bounds in one direction uses only.
    pub open spec fn same_but_drive(&self, other: &DiffLogicState, upper: bool) -> bool {
        &&& self.graph == other.graph
        &&& self.pi == other.pi
        &&& self.fixed_bools == other.fixed_bools
        &&& self.pi_initialized == other.pi_initialized
        &&& self.same_settings(other)
        &&& self.changes(!upper) == other.changes(!upper)
        &&& forall|k: int|
            0 <= k < self.graph.size() ==> self.propagated(!upper, k) == #[trigger] other.opposite(
                upper,
                k,
            )
    }

    /// The bound of the other direction that was propagated for a node.
    pub open spec fn opposite(&self, upper: bool, n: int) -> Option<int> {
        self.propagated(!upper, n)
    }

    /// Pass the bounds that have changed on along the active edges, as far as they tighten
    /// others. The nodes are visited in the order of how far their new bounds lie above
    /// their potentials, so that none is visited twice.
    #[verifier::spinoff_prover]
    #[verifier::rlimit(40)]
    fn inc_bound(&mut self, ctx: &mut SolvingContext, upper: bool) -> (r: Result<(), Conflict>)
        requires
            old(self).ready(old(ctx)),
            old(self).bounds_sound(old(ctx)),
            exists|k: usize| #[trigger] old(self).changes(upper).contains(k),
            forall|k: usize| #[trigger]
                old(self).changes(upper).contains(k) ==> k < old(self).graph.size(),
        ensures
            final(ctx).infers(old(ctx), diff_rule(&old(self).graph), r),
            final(ctx).trail == old(ctx).trail,
            old(self).all_told(old(ctx), final(ctx), final(ctx).propagation_queue.len() as int),
            final(self).same_but_drive(old(self), upper),
            final(self).ready(final(ctx)),
            final(self).bounds_listed(),
            forall|k: usize| #[trigger]
                final(self).changes(upper).contains(k) ==> k < final(self).graph.size(),
            r is Ok ==> final(self).bounds_sound(final(ctx)) && bounds_driven(
                old(self),
                old(ctx),
                final(self),
                final(ctx),
                upper,
            ),
            // The domains were narrowed by the propagated bounds and by nothing else.
            r is Ok ==> forall|ints: IntAssignment, bools: BoolAssignment|
                #[trigger] final(ctx).admits(ints, bools) <==> (old(ctx).admits(ints, bools)
                    && final(self).reached(upper, ints, bools)),
    {
        let ghost st0 = *self;
        let ghost ctx0 = *ctx;
        let ghost rule = diff_rule(&self.graph);
        let ghost n = self.graph.size();
        self.reset_visit();
        let changed: Vec<usize> = if upper {
            set_elements(&self.upper_bound_changes)
        } else {
            set_elements(&self.lower_bound_changes)
        };
        proof {
            lemma_infers_nothing(&ctx0, rule);
            assert forall|k: int, u: bool| #[trigger]
                self.propagated(u, k) == st0.propagated(u, k) by {}
            let k = choose|k: usize| #[trigger] st0.changes(upper).contains(k);
            assert(changed@.contains(k));
            assert forall|i: int| 0 <= i < changed.len() implies #[trigger] changed[i] < n by {
                assert(changed@.contains(changed[i]));
            }
        }
        let first: IntVal = self.bound_of(ctx, upper, changed[0]);
        let mut pi0: IntVal = first + self.pull_of(upper, changed[0]);
        let mut i: usize = 0;
        while i < changed.len()
            invariant
                i <= changed.len(),
                self.ready(ctx),
                -3 * INT_LIMIT <= pi0 <= 3 * INT_LIMIT,
                n == self.graph.size(),
                forall|j: int| 0 <= j < changed.len() ==> #[trigger] changed[j] < n,
                forall|j: int|
                    0 <= j < i ==> self.near_node(ctx, upper, (#[trigger] changed[j]) as int) + pull(
                        self.pi@,
                        upper,
                        changed[j] as int,
                    ) <= pi0,
            decreases changed.len() - i,
        {
            let b: IntVal = self.bound_of(ctx, upper, changed[i]);
            let v: IntVal = b + self.pull_of(upper, changed[i]);
            if v > pi0 {
                pi0 = v;
            }
            i = i + 1;
        }
        let mut queue: LazyPriorityQueue = LazyPriorityQueue::new();
        let mut j: usize = 0;
        while j < changed.len()
            invariant
                j <= changed.len(),
                self.ready(ctx),
                queue.wf(),
                -3 * INT_LIMIT <= pi0 <= 3 * INT_LIMIT,
                n == self.graph.size(),
                forall|k: int| 0 <= k < changed.len() ==> #[trigger] changed[k] < n,
                forall|k: int|
                    0 <= k < changed.len() ==> self.near_node(
                        ctx,
                        upper,
                        (#[trigger] changed[k]) as int,
                    ) + pull(self.pi@, upper, changed[k] as int) <= pi0,
                forall|k: usize| #[trigger]
                    queue@.dom().contains(k) ==> changed@.contains(k) && queue@[k].0 >= 0
                        && !queue@[k].1 && label(
                        pi0 as int,
                        self.pi@,
                        upper,
                        k as int,
                        queue@[k].0 as int,
                    ) == self.near_node(ctx, upper, k as int),
                forall|k: int| 0 <= k < j ==> queue@.dom().contains(#[trigger] changed[k]),
            decreases changed.len() - j,
        {
            let node: usize = changed[j];
            let b: IntVal = self.bound_of(ctx, upper, node);
            let gamma: IntVal = pi0 - b - self.pull_of(upper, node);
            queue.push(node, (gamma, false));
            j = j + 1;
        }
        let ghost mut done: Set<int> = Set::empty();
        let ghost mut fresh: Set<int> = Set::empty();
        let ghost mut g: int = 0;
        proof {
            assert forall|k: usize| #[trigger]
                queue@.dom().contains(k) <==> self.changes(upper).contains(k) by {
                if self.changes(upper).contains(k) {
                    assert(changed@.contains(k));
                    let i = changed@.index_of(k);
                    assert(queue@.dom().contains(changed[i]));
                }
                if queue@.dom().contains(k) {
                    assert(changed@.contains(k));
                }
            }
            lemma_search_start(self, ctx, upper, queue@, pi0 as int, &st0);
            assert(self.changes(upper) == st0.changes(upper));
            assert(self.narrowed_so_far(&ctx0, ctx, upper));
        }
        while !queue.is_empty()
            invariant
                n == self.graph.size(),
                n == st0.graph.size(),
                st0.graph == self.graph,
                st0.ready(&ctx0),
                rule == diff_rule(&self.graph),
                ctx0 == *old(ctx),
                st0 == *old(self),
                st0.bounds_sound(&ctx0),
                keeps_propagated(&st0, &ctx0, self, upper),
                self.ready(ctx),
                self.bounds_sound(ctx),
                ctx.infers(&ctx0, rule, Ok(())),
                ctx.trail == ctx0.trail,
                st0.all_told(&ctx0, ctx, ctx.propagation_queue.len() as int),
                self.same_but_drive(&st0, upper),
                queue.wf(),
                -3 * INT_LIMIT <= pi0 <= 3 * INT_LIMIT,
                searching(
                    self,
                    ctx,
                    upper,
                    queue@,
                    pi0 as int,
                    g,
                    &st0,
                    &ctx0,
                    fresh,
                    -1,
                    0,
                ),
                self.narrowed_so_far(&ctx0, ctx, upper),
                forall|k: usize| #[trigger] self.changes(upper).contains(k) ==> k < n,
                done.finite(),
                forall|k: int| #[trigger] done.contains(k) ==> 0 <= k < n,
                forall|k: int| 0 <= k < n ==> (#[trigger] self.visited[k] <==> done.contains(k)),
            decreases n - done.len(),
        {
            let ghost st1 = *self;
            let ghost ctx1 = *ctx;
            let ghost q1 = queue@;
            let popped: Option<(usize, Priority)> = queue.pop();
            match popped {
                None => {},
                Some((s, p)) => {
                    let gamma_s: IntVal = p.0;
                    let ghost lab = label(pi0 as int, self.pi@, upper, s as int, gamma_s as int);
                    proof {
                        reveal(searching);
                        assert(q1.dom().contains(s));
                        assert(!self.visited[s as int]);
                    }
                    self.visit(s);
                    proof {
                        assert(!done.contains(s as int));
                        let done0 = done;
                        done = done.insert(s as int);
                        lemma_int_range(0, n);
                        assert(done.subset_of(set_int_range(0, n)));
                        lemma_len_subset(done, set_int_range(0, n));
                        assert forall|k: int, u: bool| #[trigger]
                            self.propagated(u, k) == st1.propagated(u, k) by {}
                        assert(self.changes(upper) == st1.changes(upper));
                        assert(self.changes(!upper) == st1.changes(!upper));
                    }
                    let pull_s: IntVal = self.pull_of(upper, s);
                    let bound: IntVal = pi0 - gamma_s - pull_s;
                    let noted: bool = if upper {
                        set_contains(&self.upper_bound_changes, s)
                    } else {
                        set_contains(&self.lower_bound_changes, s)
                    };
                    let current: IntVal = self.current_of(ctx, upper, s);
                    proof {
                        assert(bound == lab);
                        assert(noted ==> bound >= st1.near_node(&ctx0, upper, s as int)) by {
                            reveal(searching);
                        }
                        assert(ctx0.has_view(self.graph.nodes.int_vars[s as int]));
                    }
                    if bound > current || noted {
                        let ghost mut e: int = 0;
                        proof {
                            if bound > self.near_node(ctx, upper, s as int) {
                                reveal(searching);
                                assert(st1.from_step(ctx.trail@, upper, s as int, lab));
                                e = choose|e: int|
                                    0 <= e < st1.graph.edges.len() && #[trigger] st1.graph.active_at(
                                        e,
                                        ctx.trail@,
                                    ) && st1.step_along(upper, s as int, lab, e);
                                self.graph.lemma_edge(e);
                                assert(self.step_along(upper, s as int, bound as int, e));
                            }
                        }
                        let ghost st2 = *self;
                        let r: Result<(), Conflict> = self.settle(
                            ctx,
                            upper,
                            s,
                            bound,
                            Ghost(e),
                        );
                        proof {
                            lemma_told_join(&st0, &st2, &ctx0, &ctx1, ctx);
                            lemma_infers_join(&ctx0, &ctx1, ctx, rule, r);
                            assert(self.same_but_drive(&st0, upper)) by {
                                assert forall|k: int|
                                    0 <= k < n implies self.propagated(!upper, k)
                                    == #[trigger] st0.opposite(upper, k) by {
                                    assert(self.propagated(!upper, k) == st2.propagated(!upper, k));
                                }
                            }
                        }
                        if r.is_err() {
                            proof {
                                assert forall|k: usize| #[trigger]
                                    self.changes(upper).contains(k) implies k < n by {
                                    reveal(searching);
                                    assert(st1.changes(upper).contains(k));
                                }
                            }
                            return r;
                        }
                        proof {
                            assert(keeps_propagated(&st0, &ctx0, self, upper)) by {
                                assert(st1.propagated(upper, s as int) == st0.propagated(
                                    upper,
                                    s as int,
                                )) by {
                                    reveal(searching);
                                    assert(!fresh.contains(s as int));
                                }
                                lemma_near_narrowed(&st0, &ctx0, &ctx1);
                                assert(st0.near_node(&ctx1, upper, s as int) >= st0.near_node(
                                    &ctx0,
                                    upper,
                                    s as int,
                                ));
                                assert(st0.propagated(upper, s as int) matches Some(v) ==> v
                                    <= st0.near_node(&ctx0, upper, s as int));
                                assert forall|k: int| 0 <= k < n implies match
                                #[trigger] self.propagated(upper, k) {
                                    Some(w) => w >= st0.current(&ctx0, upper, k),
                                    None => st0.propagated(upper, k) is None,
                                } by {
                                    assert(st2.propagated(upper, k) == st1.propagated(upper, k));
                                    if k != s {
                                        assert(self.propagated(upper, k) == st2.propagated(
                                            upper,
                                            k,
                                        ));
                                    }
                                }
                            }
                            lemma_near_narrowed(&st1, &ctx1, ctx);
                            lemma_near_narrowed(&st0, &ctx0, &ctx1);
                            assert(st0.near_node(&ctx1, upper, s as int) >= st0.near_node(
                                &ctx0,
                                upper,
                                s as int,
                            ));
                            lemma_search_pop(
                                &st1,
                                &ctx1,
                                upper,
                                q1,
                                pi0 as int,
                                g,
                                &st0,
                                &ctx0,
                                fresh,
                                s,
                                self,
                                ctx,
                                true,
                            );
                            assert(st2.near_node(&ctx1, upper, s as int) == st1.near_node(
                                &ctx1,
                                upper,
                                s as int,
                            ));
                            if !self.changes(upper).contains(s) {
                                assert(*ctx == ctx1);
                            }
                            assert(self.changes(upper).contains(s) ==> bound >= st1.near_node(
                                &ctx0,
                                upper,
                                s as int,
                            ));
                            lemma_narrowed_step(
                                &st1,
                                &ctx1,
                                self,
                                ctx,
                                &ctx0,
                                upper,
                                s,
                                bound as int,
                                true,
                            );
                            fresh = fresh.insert(s as int);
                            g = gamma_s as int;
                        }
                        let ghost st3 = *self;
                        self.pass_on(
                            ctx,
                            upper,
                            s,
                            gamma_s,
                            &mut queue,
                            Ghost(pi0 as int),
                            Ghost(st0),
                            Ghost(ctx0),
                            Ghost(fresh),
                        );
                        proof {
                            assert forall|k: int, u: bool| #[trigger]
                                self.propagated(u, k) == st3.propagated(u, k) by {}
                            assert(self.changes(!upper) == st3.changes(!upper));
                            assert(self.changes(upper) == st3.changes(upper));
                            lemma_narrowed_same(&st3, self, &ctx0, ctx, upper);
                        }
                    } else {
                        proof {
                            lemma_search_pop(
                                &st1,
                                &ctx1,
                                upper,
                                q1,
                                pi0 as int,
                                g,
                                &st0,
                                &ctx0,
                                fresh,
                                s,
                                self,
                                ctx,
                                false,
                            );
                            g = gamma_s as int;
                            lemma_narrowed_step(
                                &st1,
                                &ctx1,
                                self,
                                ctx,
                                &ctx0,
                                upper,
                                s,
                                bound as int,
                                false,
                            );
                        }
                    }
                },
            }
        }
        proof {
            lemma_search_done(self, ctx, upper, queue@, pi0 as int, g, &st0, &ctx0, fresh);
            assert forall|k: usize| #[trigger] self.changes(upper).contains(k) implies
                self.visited[k as int] by {
                reveal(searching);
                if !self.visited[k as int] {
                    assert(queue@.dom().contains(k));
                }
            }
            assert forall|ints: IntAssignment, bools: BoolAssignment| #[trigger]
                self.reached(upper, ints, bools) == self.reached_so_far(upper, ints, bools) by {
                if self.reached_so_far(upper, ints, bools) {
                    assert forall|k: usize| #[trigger]
                        self.changes(upper).contains(k) implies reaches(
                        self.graph.nodes.int_vars[k as int],
                        upper,
                        self.propagated(upper, k as int)->0,
                    )(ints, bools) by {
                        assert(self.visited[k as int]);
                    }
                }
            }
        }
        Ok(())
    }
}

/// The steps of a search do not matter to what was narrowed.
proof fn lemma_narrowed_same(
    st1: &DiffLogicState,
    st2: &DiffLogicState,
    ctx0: &SolvingContext,
    ctx: &SolvingContext,
    upper: bool,
)
    requires
        st1.narrowed_so_far(ctx0, ctx, upper),
        st2.graph == st1.graph,
        st2.visited == st1.visited,
        st2.changes(upper) == st1.changes(upper),
        forall|k: int, u: bool| #[trigger] st2.propagated(u, k) == st1.propagated(u, k),
    ensures
        st2.narrowed_so_far(ctx0, ctx, upper),
{
    assert forall|ints: IntAssignment, bools: BoolAssignment| #[trigger]
        st2.reached_so_far(upper, ints, bools) == st1.reached_so_far(upper, ints, bools) by {
        assert forall|k: usize|
            st1.changes(upper).contains(k) && st1.visited[k as int] implies #[trigger] st2.changes(
            upper,
        ).contains(k) && st2.propagated(upper, k as int) == st1.propagated(upper, k as int) by {}
        if st2.reached_so_far(upper, ints, bools) {
            assert forall|k: usize| #[trigger]
                st1.changes(upper).contains(k) && st1.visited[k as int] implies reaches(
                st1.graph.nodes.int_vars[k as int],
                upper,
                st1.propagated(upper, k as int)->0,
            )(ints, bools) by {
                assert(st2.changes(upper).contains(k));
                assert(st2.propagated(upper, k as int) == st1.propagated(upper, k as int));
            }
        }
        if st1.reached_so_far(upper, ints, bools) {
            assert forall|k: usize| #[trigger]
                st2.changes(upper).contains(k) && st2.visited[k as int] implies reaches(
                st2.graph.nodes.int_vars[k as int],
                upper,
                st2.propagated(upper, k as int)->0,
            )(ints, bools) by {
                assert(st1.changes(upper).contains(k));
                assert(st2.propagated(upper, k as int) == st1.propagated(upper, k as int));
            }
        }
    }
    assert forall|k: usize| #[trigger]
        st2.changes(upper).contains(k) && st2.visited[k as int] implies (st2.propagated(
        upper,
        k as int,
    ) matches Some(v) && v >= st2.near_node(ctx0, upper, k as int)) by {
        assert(st1.changes(upper).contains(k));
        assert(st2.propagated(upper, k as int) == st1.propagated(upper, k as int));
    }
}

/// The end of passing bounds on.
proof fn lemma_search_done(
    st: &DiffLogicState,
    ctx: &SolvingContext,
    upper: bool,
    queue: Map<usize, Priority>,
    pi0: int,
    g: int,
    st0: &DiffLogicState,
    ctx0: &SolvingContext,
    fresh: Set<int>,
)
    requires
        searching(st, ctx, upper, queue, pi0, g, st0, ctx0, fresh, -1, 0),
        forall|t: usize| !#[trigger] queue.dom().contains(t),
        st.graph == st0.graph,
        st.graph.structure(),
        st.graph.size() <= usize::MAX,
        st.narrowed_so_far(ctx0, ctx, upper),
        keeps_propagated(st0, ctx0, st, upper),
    ensures
        bounds_driven(st0, ctx0, st, ctx, upper),
{
    reveal(searching);
    assert forall|k: usize| #[trigger] st.changes(upper).contains(k) implies (st.propagated(
        upper,
        k as int,
    ) matches Some(v) && v >= st0.near_node(ctx0, upper, k as int)) by {
        assert(fresh.contains(k as int));
        assert(st.visited[k as int]);
    }
    assert forall|k: usize| #[trigger] st0.changes(upper).contains(k) implies (st.propagated(
        upper,
        k as int,
    ) matches Some(v) && v >= st0.near_node(ctx0, upper, k as int)) by {
        assert(st.changes(upper).contains(k));
        assert(fresh.contains(k as int));
    }
    assert forall|k: usize| #[trigger] st.changes(upper).contains(k) implies k < st.graph.size()
        && st.propagated(upper, k as int) is Some && (st0.changes(upper).contains(k)
        || st.near_node(ctx, upper, k as int) > st.near_node(ctx0, upper, k as int)) by {
        assert(fresh.contains(k as int));
    }
    assert forall|e: int|
        0 <= e < st.graph.edges.len() && #[trigger] st.graph.active_at(e, ctx.trail@) && (
        st0.passes(ctx0, upper, e) || st.changes(upper).contains(
            tail(st.graph.edges[e], upper) as usize,
        ) || st.propagated(upper, tail(st.graph.edges[e], upper)) != st0.propagated(
            upper,
            tail(st.graph.edges[e], upper),
        )) implies st.passes(ctx, upper, e) by {
        let f = tail(st.graph.edges[e], upper);
        st.graph.lemma_edge(e);
        if st.changes(upper).contains(f as usize) {
            assert(fresh.contains(f));
        }
        assert(f != -1);
        assert(st.promised(ctx, upper, queue, pi0, e));
    }
}

/// Whether the nodes are decisions plus offsets, of different decisions, whose domains have no
/// gaps, and no gate is a condition on an integer decision.
pub open spec fn regular(graph: &DiffGraph, ctx: &SolvingContext) -> bool {
    &&& forall|i: int| 0 <= i < graph.size() ==> plain(ctx, #[trigger] graph.nodes.int_vars[i])
    &&& forall|i: int, j: int|
        0 <= i < graph.size() && 0 <= j < graph.size() && i != j ==> decision_of(
            #[trigger] graph.nodes.int_vars[i],
        ) != decision_of(#[trigger] graph.nodes.int_vars[j])
    &&& literal_gates(graph)
}

/// Whether no gate is a condition on an integer decision.
pub open spec fn literal_gates(graph: &DiffGraph) -> bool {
    forall|b: int| 0 <= b < graph.bool_vars.len() ==> !((#[trigger] graph.bool_vars[b]) is Int)
}

impl DiffLogicState {
    /// Whether the bounds that have changed are those that were propagated, and the others are
    /// as they were.
    pub open spec fn bounds_exact(
        &self,
        ctx0: &SolvingContext,
        ctx: &SolvingContext,
        upper: bool,
    ) -> bool {
        forall|k: int|
            0 <= k < self.graph.size() ==> if self.changes(upper).contains(k as usize) {
                #[trigger] self.propagated(upper, k) == Some(self.near_node(ctx, upper, k))
            } else {
                self.near_node(ctx, upper, k) == self.near_node(ctx0, upper, k)
            }
    }
}

/// Bounds of decisions of their own are no tighter than what was propagated.
pub proof fn lemma_bounds_exact(
    st: &DiffLogicState,
    ctx0: &SolvingContext,
    ctx: &SolvingContext,
    low: bool,
    high: bool,
    upper: bool,
)
    requires
        st.grounded(ctx0),
        st.graph.size() <= usize::MAX,
        regular(&st.graph, ctx0),
        ctx.wf(),
        ctx.grows(ctx0),
        ctx.narrows(ctx0),
        st.bounds_sound(ctx),
        st.changes_known(ctx0, low, high),
        forall|ints: IntAssignment, bools: BoolAssignment|
            #[trigger] ctx.admits(ints, bools) <==> (ctx0.admits(ints, bools) && (low
                ==> st.reached(false, ints, bools)) && (high ==> st.reached(true, ints, bools))),
        if upper {
            high
        } else {
            low
        },
    ensures
        st.bounds_exact(ctx0, ctx, upper),
{
    lemma_near_narrowed(st, ctx0, ctx);
    assert forall|k: int| 0 <= k < st.graph.size() implies if st.changes(upper).contains(
        k as usize,
    ) {
        #[trigger] st.propagated(upper, k) == Some(st.near_node(ctx, upper, k))
    } else {
        st.near_node(ctx, upper, k) == st.near_node(ctx0, upper, k)
    } by {
        let view = st.graph.nodes.int_vars[k];
        assert(ctx0.has_view(st.graph.nodes.int_vars[k]));
        assert(plain(ctx0, st.graph.nodes.int_vars[k]));
        lemma_view_narrowed(ctx0, ctx, view);
        lemma_view_bounds_ordered(ctx, view);
        let noted = st.changes(upper).contains(k as usize);
        let target = if noted {
            st.propagated(upper, k)->0
        } else {
            st.near_node(ctx0, upper, k)
        };
        assert(st.near_node(ctx, upper, k) >= st.near_node(ctx0, upper, k));
        assert(st.near_node(ctx0, upper, k) <= target <= st.near_node(ctx, upper, k));
        let value = if upper {
            -target
        } else {
            target
        };
        let var = view->Linear_var as int;
        let (low_end, high_end) = lemma_bounds_taken(ctx, view);
        let rest = if upper {
            high_end
        } else {
            low_end
        };
        let ints: IntAssignment = |v: int|
            if v == var {
                value - view->Linear_offset
            } else {
                rest.0(v)
            };
        lemma_narrows_admits(ctx, ctx0, rest.0, rest.1);
        assert(view.eval(ints, rest.1) == value);
        assert(ctx0.ints[var].has(ints(var)));
        assert(ctx0.admits(ints, rest.1)) by {
            assert forall|v: int| 0 <= v < ctx0.ints.len() implies (
            #[trigger] ctx0.ints[v]).has(ints(v)) by {
                assert(ctx0.ints[v].has(rest.0(v)));
            }
        }
        assert forall|u: bool| (if u {
            high
        } else {
            low
        }) implies #[trigger] st.reached(u, ints, rest.1) by {
            assert(st.reached(u, rest.0, rest.1));
            assert forall|j: usize| #[trigger] st.changes(u).contains(j) implies reaches(
                st.graph.nodes.int_vars[j as int],
                u,
                st.propagated(u, j as int)->0,
            )(ints, rest.1) by {
                let other = st.graph.nodes.int_vars[j as int];
                assert(j < st.graph.size());
                assert(reaches(other, u, st.propagated(u, j as int)->0)(rest.0, rest.1));
                assert(plain(ctx0, st.graph.nodes.int_vars[j as int]));
                if j != k {
                    assert(decision_of(st.graph.nodes.int_vars[j as int]) != decision_of(
                        st.graph.nodes.int_vars[k],
                    ));
                    assert(other.eval(ints, rest.1) == other.eval(rest.0, rest.1));
                }
            }
        }
        assert(low ==> st.reached(false, ints, rest.1));
        assert(high ==> st.reached(true, ints, rest.1));
        assert(ctx.admits(ints, rest.1));
        lemma_view_bounds(ctx, view, ints, rest.1);
    }
}

impl DiffLogicState {
    /// Whether the bounds that have changed were propagated, at least as they were before.
    pub open spec fn changes_known(&self, ctx0: &SolvingContext, low: bool, high: bool) -> bool {
        forall|k: usize, upper: bool| #[trigger]
            self.changes(upper).contains(k) && (if upper {
                high
            } else {
                low
            }) ==> k < self.graph.size() && (self.propagated(upper, k as int) matches Some(v) && v
                >= self.near_node(ctx0, upper, k as int))
    }
}

/// The graph alone decides whether the views are those of the context.
pub proof fn lemma_grounded_before(g: &DiffLogicState, h: &DiffLogicState, ctx: &SolvingContext)
    requires
        g.grounded(ctx),
        h.graph == g.graph,
    ensures
        h.grounded(ctx),
{
}

impl DiffLogicState {
    /// Pass the lower bounds that have changed on along the active edges.
    pub fn inc_lb(&mut self, ctx: &mut SolvingContext) -> (r: Result<(), Conflict>)
        requires
            old(self).ready(old(ctx)),
            old(self).bounds_sound(old(ctx)),
            exists|k: usize| #[trigger] old(self).changes(false).contains(k),
            forall|k: usize| #[trigger]
                old(self).changes(false).contains(k) ==> k < old(self).graph.size(),
        ensures
            final(ctx).infers(old(ctx), diff_rule(&old(self).graph), r),
            final(ctx).trail == old(ctx).trail,
            // Bounds are told along active edges, with the strongest reasons that are assigned.
            old(self).all_told(old(ctx), final(ctx), final(ctx).propagation_queue.len() as int),
            final(self).same_but_drive(old(self), false),
            final(self).ready(final(ctx)),
            final(self).bounds_listed(),
            forall|k: usize| #[trigger]
                final(self).changes(false).contains(k) ==> k < final(self).graph.size(),
            r is Ok ==> final(self).bounds_sound(final(ctx)) && bounds_driven(
                old(self),
                old(ctx),
                final(self),
                final(ctx),
                false,
            ),
            // The domains were narrowed by the propagated bounds and by nothing else.
            r is Ok ==> forall|ints: IntAssignment, bools: BoolAssignment|
                #[trigger] final(ctx).admits(ints, bools) <==> (old(ctx).admits(ints, bools)
                    && final(self).reached(false, ints, bools)),
            r is Ok && regular(&old(self).graph, old(ctx)) ==> final(self).bounds_exact(
                old(ctx),
                final(ctx),
                false,
            ),
    {
        let ghost ctx0 = *ctx;
        let r: Result<(), Conflict> = self.inc_bound(ctx, false);
        proof {
            if r is Ok && regular(&old(self).graph, &ctx0) {
                lemma_grounded_before(old(self), self, &ctx0);
                lemma_bounds_exact(self, &ctx0, ctx, true, false, false);
            }
        }
        r
    }

    /// Pass the upper bounds that have changed on along the active edges.
    pub fn inc_ub(&mut self, ctx: &mut SolvingContext) -> (r: Result<(), Conflict>)
        requires
            old(self).ready(old(ctx)),
            old(self).bounds_sound(old(ctx)),
            exists|k: usize| #[trigger] old(self).changes(true).contains(k),
            forall|k: usize| #[trigger]
                old(self).changes(true).contains(k) ==> k < old(self).graph.size(),
        ensures
            final(ctx).infers(old(ctx), diff_rule(&old(self).graph), r),
            final(ctx).trail == old(ctx).trail,
            // Bounds are told along active edges, with the strongest reasons that are assigned.
            old(self).all_told(old(ctx), final(ctx), final(ctx).propagation_queue.len() as int),
            final(self).same_but_drive(old(self), true),
            final(self).ready(final(ctx)),
            final(self).bounds_listed(),
            forall|k: usize| #[trigger]
                final(self).changes(true).contains(k) ==> k < final(self).graph.size(),
            r is Ok ==> final(self).bounds_sound(final(ctx)) && bounds_driven(
                old(self),
                old(ctx),
                final(self),
                final(ctx),
                true,
            ),
            // The domains were narrowed by the propagated bounds and by nothing else.
            r is Ok ==> forall|ints: IntAssignment, bools: BoolAssignment|
                #[trigger] final(ctx).admits(ints, bools) <==> (old(ctx).admits(ints, bools)
                    && final(self).reached(true, ints, bools)),
            r is Ok && regular(&old(self).graph, old(ctx)) ==> final(self).bounds_exact(
                old(ctx),
                final(ctx),
                true,
            ),
    {
        let ghost ctx0 = *ctx;
        let r: Result<(), Conflict> = self.inc_bound(ctx, true);
        proof {
            if r is Ok && regular(&old(self).graph, &ctx0) {
                lemma_grounded_before(old(self), self, &ctx0);
                lemma_bounds_exact(self, &ctx0, ctx, false, true, true);
            }
        }
        r
    }
}

} // verus!
