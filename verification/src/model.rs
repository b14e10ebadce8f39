//! Models: decisions with their domains, and the difference constraints that are collected on
//! them.

use vstd::prelude::*;

use crate::model::diff_logic::{
    clause_holds, DifferenceLogicCollection, DifferenceLogicConstraint,
    DifferenceLogicParameters,
};
use crate::helpers::saturating::{saturating_add, saturating_sub};
use crate::solver::domain::IntDomain;
use crate::solver::inference::lemma_narrows_admits;
use crate::solver::int_view::{lemma_bounds_taken, lemma_view_bounds, lemma_view_narrowed};
use crate::solver::reason::{Conflict, ReasonBuilder};
use crate::solver::solving_context::SolvingContext;
use crate::solver::view::{
    BoolAssignment, BoolView, IntAssignment, IntVal, IntView, INT_LIMIT,
};

pub mod diff_logic;
pub mod pruning;
pub mod simplify;
pub mod tightening;

verus! {

/// A term of a linear constraint.
#[derive(Clone, Copy, Debug, PartialEq, Eq, Hash, Structural)]
pub struct Term {
    /// The factor of the view.
    pub coefficient: IntVal,
    /// The view.
    pub view: IntView,
}

/// The constraint that the sum of some terms is at most a value.
#[derive(Debug, PartialEq, Eq)]
pub struct LinearLe {
    /// The terms.
    pub terms: Vec<Term>,
    /// The value.
    pub rhs: IntVal,
}

/// The sum of the terms: each factor times the value of its view.
pub open spec fn linear_sum(
    terms: Seq<Term>,
    ints: IntAssignment,
    bools: BoolAssignment,
) -> int
    decreases terms.len(),
{
    if terms.len() == 0 {
        0
    } else {
        linear_sum(terms.drop_last(), ints, bools) + terms.last().coefficient
            * terms.last().view.eval(ints, bools)
    }
}

impl LinearLe {
    /// Whether the assignment keeps the constraint.
    pub open spec fn holds(&self, ints: IntAssignment, bools: BoolAssignment) -> bool {
        linear_sum(self.terms@, ints, bools) <= self.rhs
    }
}

/// That a decision equals another one plus an offset.
#[derive(Clone, Copy, Debug, PartialEq, Eq, Hash, Structural)]
pub struct Alias {
    /// The other decision.
    pub root: usize,
    /// The offset.
    pub offset: IntVal,
}

/// That a view equals another one plus an offset.
#[derive(Clone, Copy, Debug, PartialEq, Eq, Hash, Structural)]
pub struct Equality {
    /// The view.
    pub left: IntView,
    /// The other view.
    pub right: IntView,
    /// The offset.
    pub offset: IntVal,
}

/// Decisions and constraints on them.
#[derive(Debug)]
pub struct Model {
    /// The decisions and their domains.
    pub ctx: SolvingContext,
    /// The difference constraints.
    pub diff_logic: DifferenceLogicCollection,
    /// The linear constraints that are not difference constraints.
    pub linears: Vec<LinearLe>,
    /// Clauses of Boolean views.
    pub clauses: Vec<Vec<BoolView>>,
    /// For each integer decision, the one that stands for it.
    pub aliases: Vec<Option<Alias>>,
    /// Equalities of other views.
    pub equalities: Vec<Equality>,
}

impl Default for Model {
    fn default() -> (r: Self)
        ensures
            r.wf(),
            r.ctx.ints@.len() == 0,
            r.ctx.bools@.len() == 0,
            r.diff_logic@.len() == 0,
            r.diff_logic.parameters() == (DifferenceLogicParameters { level: 3, simplify: true }),
            r.linears@.len() == 0,
            r.clauses@.len() == 0,
            r.equalities@.len() == 0,
    {
        Model {
            ctx: SolvingContext::new(),
            diff_logic: DifferenceLogicCollection::default(),
            linears: Vec::new(),
            clauses: Vec::new(),
            aliases: Vec::new(),
            equalities: Vec::new(),
        }
    }
}

/// The clauses of a model.
pub open spec fn clause_views(clauses: Seq<Vec<BoolView>>) -> Seq<Seq<BoolView>> {
    clauses.map_values(|c: Vec<BoolView>| c@)
}

impl Model {
    /// Every decision has an entry among the aliases, and what stands for a decision has
    /// nothing else that stands for it.
    pub open spec fn wf(&self) -> bool {
        &&& self.ctx.wf()
        &&& self.aliases.len() == self.ctx.ints.len()
        &&& forall|v: int|
            0 <= v < self.aliases.len() ==> (#[trigger] self.aliases[v] matches Some(a) ==> {
                &&& a.root < self.aliases.len()
                &&& self.aliases[a.root as int] is None
                &&& -2 * INT_LIMIT <= a.offset <= 2 * INT_LIMIT
            })
    }

    /// Whether the assignment gives every decision its value by what stands for it.
    pub open spec fn aliased(&self, ints: IntAssignment) -> bool {
        forall|v: int|
            0 <= v < self.aliases.len() ==> (#[trigger] self.aliases[v] matches Some(a) ==> ints(v)
                == ints(a.root as int) + a.offset)
    }

    /// Whether the assignment keeps the equalities of other views.
    pub open spec fn equal(&self, ints: IntAssignment, bools: BoolAssignment) -> bool {
        forall|k: int|
            0 <= k < self.equalities.len() ==> (#[trigger] self.equalities[k]).left.eval(
                ints,
                bools,
            ) == self.equalities[k].right.eval(ints, bools) + self.equalities[k].offset
    }

    /// Whether the assignment lies in the domains, and keeps the equalities.
    pub open spec fn admits(&self, ints: IntAssignment, bools: BoolAssignment) -> bool {
        &&& self.ctx.admits(ints, bools)
        &&& self.aliased(ints)
        &&& self.equal(ints, bools)
    }

    /// Whether the assignment keeps the clauses.
    pub open spec fn clauses_hold(&self, ints: IntAssignment, bools: BoolAssignment) -> bool {
        forall|k: int|
            0 <= k < self.clauses.len() ==> clause_holds(
                (#[trigger] self.clauses[k])@,
                ints,
                bools,
            )
    }

    /// Whether the assignment keeps the difference constraints and the linear ones.
    pub open spec fn constraints_hold(&self, ints: IntAssignment, bools: BoolAssignment) -> bool {
        &&& forall|k: int|
            0 <= k < self.diff_logic@.len() ==> (#[trigger] self.diff_logic@[k]).holds(ints, bools)
        &&& forall|k: int|
            0 <= k < self.linears.len() ==> (#[trigger] self.linears[k]).holds(ints, bools)
    }

    /// Add an integer decision with the values from `lb` up to `ub`.
    pub fn new_int_decision(&mut self, lb: IntVal, ub: IntVal) -> (r: IntView)
        requires
            old(self).wf(),
            -INT_LIMIT <= lb <= ub <= INT_LIMIT,
        ensures
            final(self).wf(),
            r == IntView::decision(old(self).ctx.ints.len()),
            final(self).ctx.ints@ == old(self).ctx.ints@.push(final(self).ctx.ints@.last()),
            final(self).ctx.ints@.last().lb == lb,
            final(self).ctx.ints@.last().ub == ub,
            forall|x: int| #[trigger] final(self).ctx.ints@.last().has(x) == (lb <= x <= ub),
            final(self).ctx.has_view(r),
            final(self).ctx.bools == old(self).ctx.bools,
            final(self).aliases@ == old(self).aliases@.push(None),
            final(self).diff_logic == old(self).diff_logic,
            final(self).linears == old(self).linears,
            final(self).clauses == old(self).clauses,
            final(self).equalities == old(self).equalities,
    {
        self.new_int_decision_in(IntDomain::new(lb, ub))
    }

    /// Add an integer decision with the given domain, which may have gaps.
    pub fn new_int_decision_in(&mut self, domain: IntDomain) -> (r: IntView)
        requires
            old(self).wf(),
            domain.wf(),
        ensures
            final(self).wf(),
            r == IntView::decision(old(self).ctx.ints.len()),
            final(self).ctx.ints@ == old(self).ctx.ints@.push(domain),
            final(self).ctx.has_view(r),
            final(self).ctx.bools == old(self).ctx.bools,
            final(self).aliases@ == old(self).aliases@.push(None),
            final(self).diff_logic == old(self).diff_logic,
            final(self).linears == old(self).linears,
            final(self).clauses == old(self).clauses,
            final(self).equalities == old(self).equalities,
    {
        let var: usize = self.ctx.new_int_in(domain);
        self.aliases.push(None);
        proof {
            assert forall|v: int| 0 <= v < self.aliases.len() implies (
            #[trigger] self.aliases[v] matches Some(a) ==> {
                &&& a.root < self.aliases.len()
                &&& self.aliases[a.root as int] is None
                &&& -2 * INT_LIMIT <= a.offset <= 2 * INT_LIMIT
            }) by {
                if v < old(self).aliases.len() {
                    assert(self.aliases@[v] == old(self).aliases@[v]);
                    if let Some(a) = self.aliases[v] {
                        assert(self.aliases@[a.root as int] == old(self).aliases@[a.root as int]);
                    }
                }
            }
        }
        IntView::decision(var)
    }

    /// Add a Boolean decision.
    pub fn new_bool_decision(&mut self) -> (r: BoolView)
        requires
            old(self).wf(),
        ensures
            final(self).wf(),
            r == diff_logic::fresh(old(self).ctx.bools.len() as int),
            final(self).ctx.bools@ == old(self).ctx.bools@.push(None),
            final(self).ctx.ints == old(self).ctx.ints,
            final(self).diff_logic == old(self).diff_logic,
            final(self).linears == old(self).linears,
            final(self).clauses == old(self).clauses,
            final(self).aliases == old(self).aliases,
            final(self).equalities == old(self).equalities,
    {
        BoolView::Lit(self.ctx.new_bool())
    }

    /// Add a difference constraint if the level of the collection accepts it, and return
    /// whether it does.
    pub fn add_diff_logic_constraint(&mut self, constraint: DifferenceLogicConstraint) -> (r: bool)
        ensures
            r == (old(self).diff_logic.parameters().level >= constraint.level()),
            final(self).diff_logic@ == if r {
                old(self).diff_logic@.push(constraint)
            } else {
                old(self).diff_logic@
            },
            final(self).diff_logic.parameters() == old(self).diff_logic.parameters(),
            final(self).ctx == old(self).ctx,
            final(self).linears == old(self).linears,
            final(self).clauses == old(self).clauses,
            final(self).aliases == old(self).aliases,
            final(self).equalities == old(self).equalities,
            forall|ints: IntAssignment, bools: BoolAssignment|
                #[trigger] final(self).constraints_hold(ints, bools) <==> (
                old(self).constraints_hold(ints, bools) && (r ==> constraint.holds(ints, bools))),
    {
        let ghost before = *self;
        let r: bool = self.diff_logic.add(constraint);
        proof {
            if r {
                assert forall|ints: IntAssignment, bools: BoolAssignment|
                    #[trigger] self.constraints_hold(ints, bools) <==> (before.constraints_hold(
                        ints,
                        bools,
                    ) && constraint.holds(ints, bools)) by {
                    lemma_difference_added(&before, self, constraint, ints, bools);
                }
            }
        }
        r
    }

    /// The difference constraint that a linear one is, if it has two terms with the factors
    /// one and minus one.
    pub open spec fn spec_as_difference(terms: Seq<Term>, rhs: IntVal) -> Option<
        DifferenceLogicConstraint,
    > {
        if terms.len() == 2 && terms[0].coefficient == 1 && terms[1].coefficient == -1 {
            Some(DifferenceLogicConstraint::Global(terms[0].view, terms[1].view, rhs))
        } else if terms.len() == 2 && terms[0].coefficient == -1 && terms[1].coefficient == 1 {
            Some(DifferenceLogicConstraint::Global(terms[1].view, terms[0].view, rhs))
        } else {
            None
        }
    }

    /// Add the constraint that the sum of the terms is at most `rhs`: to the difference
    /// constraints if it is one that they accept, otherwise to the linear constraints.
    pub fn linear_le(&mut self, terms: Vec<Term>, rhs: IntVal)
        ensures
            ({
                let routed = match Self::spec_as_difference(terms@, rhs) {
                    Some(c) => old(self).diff_logic.parameters().level >= c.level(),
                    None => false,
                };
                if routed {
                    &&& final(self).diff_logic@ == old(self).diff_logic@.push(
                        Self::spec_as_difference(terms@, rhs)->0,
                    )
                    &&& final(self).linears@ == old(self).linears@
                } else {
                    &&& final(self).diff_logic@ == old(self).diff_logic@
                    &&& final(self).linears@ == old(self).linears@.push(LinearLe { terms, rhs })
                }
            }),
            final(self).diff_logic.parameters() == old(self).diff_logic.parameters(),
            final(self).ctx == old(self).ctx,
            final(self).clauses == old(self).clauses,
            final(self).aliases == old(self).aliases,
            final(self).equalities == old(self).equalities,
            forall|ints: IntAssignment, bools: BoolAssignment|
                #[trigger] final(self).constraints_hold(ints, bools) <==> (
                old(self).constraints_hold(ints, bools) && linear_sum(terms@, ints, bools) <= rhs),
    {
        let ghost before = *self;
        if terms.len() == 2 {
            let a: Term = terms[0];
            let b: Term = terms[1];
            if a.coefficient == 1 && b.coefficient == -1 {
                if self.diff_logic.add(DifferenceLogicConstraint::Global(a.view, b.view, rhs)) {
                    proof {
                        lemma_posted(&before, self, terms@, rhs);
                    }
                    return ;
                }
            } else if a.coefficient == -1 && b.coefficient == 1 {
                if self.diff_logic.add(DifferenceLogicConstraint::Global(b.view, a.view, rhs)) {
                    proof {
                        lemma_posted(&before, self, terms@, rhs);
                    }
                    return ;
                }
            }
        }
        let ghost added = LinearLe { terms, rhs };
        self.linears.push(LinearLe { terms, rhs });
        proof {
            assert forall|ints: IntAssignment, bools: BoolAssignment|
                #[trigger] self.constraints_hold(ints, bools) <==> (before.constraints_hold(
                    ints,
                    bools,
                ) && linear_sum(terms@, ints, bools) <= rhs) by {
                lemma_linear_added(&before, self, added, ints, bools);
            }
        }
    }
}

/// A constraint that is added is kept besides the others.
proof fn lemma_difference_added(
    before: &Model,
    after: &Model,
    c: DifferenceLogicConstraint,
    ints: IntAssignment,
    bools: BoolAssignment,
)
    requires
        after.diff_logic@ == before.diff_logic@.push(c),
        after.linears == before.linears,
    ensures
        after.constraints_hold(ints, bools) <==> (before.constraints_hold(ints, bools) && c.holds(
            ints,
            bools,
        )),
{
    let n = before.diff_logic@.len() as int;
    if after.constraints_hold(ints, bools) {
        assert(after.diff_logic@[n].holds(ints, bools));
        assert forall|k: int| 0 <= k < n implies (#[trigger] before.diff_logic@[k]).holds(
            ints,
            bools,
        ) by {
            assert(after.diff_logic@[k].holds(ints, bools));
        }
    }
}

/// A linear constraint that is added is kept besides the others.
proof fn lemma_linear_added(
    before: &Model,
    after: &Model,
    c: LinearLe,
    ints: IntAssignment,
    bools: BoolAssignment,
)
    requires
        after.linears@ == before.linears@.push(c),
        after.diff_logic@ == before.diff_logic@,
    ensures
        after.constraints_hold(ints, bools) <==> (before.constraints_hold(ints, bools) && c.holds(
            ints,
            bools,
        )),
{
    let n = before.linears.len() as int;
    if after.constraints_hold(ints, bools) {
        assert(after.linears[n].holds(ints, bools));
        assert forall|k: int| 0 <= k < n implies (#[trigger] before.linears[k]).holds(
            ints,
            bools,
        ) by {
            assert(after.linears[k] == before.linears[k]);
            assert(after.linears[k].holds(ints, bools));
        }
    } else if before.constraints_hold(ints, bools) && c.holds(ints, bools) {
        assert forall|k: int| 0 <= k < after.linears.len() implies (
        #[trigger] after.linears[k]).holds(ints, bools) by {
            if k < n {
                assert(before.linears[k].holds(ints, bools));
            }
        }
    }
}

/// A linear constraint is a difference constraint if and only if it has two terms, one with the
/// factor one and one with the factor minus one, and then an assignment keeps the difference
/// constraint if and only if the sum of the terms is at most the value.
pub proof fn lemma_difference_is_linear(
    terms: Seq<Term>,
    rhs: IntVal,
    ints: IntAssignment,
    bools: BoolAssignment,
)
    ensures
        Model::spec_as_difference(terms, rhs) is Some <==> (terms.len() == 2 && ((
        terms[0].coefficient == 1 && terms[1].coefficient == -1) || (terms[0].coefficient == -1
            && terms[1].coefficient == 1))),
        Model::spec_as_difference(terms, rhs) matches Some(c) ==> (c.holds(ints, bools)
            <==> linear_sum(terms, ints, bools) <= rhs),
{
    if terms.len() == 2 {
        let rest = terms.drop_last();
        let (a, b) = (terms[0].view.eval(ints, bools), terms[1].view.eval(ints, bools));
        assert(rest.last() == terms[0]);
        assert(rest.drop_last().len() == 0);
        assert(linear_sum(rest.drop_last(), ints, bools) == 0);
        assert(linear_sum(rest, ints, bools) == terms[0].coefficient * a);
        assert(linear_sum(terms, ints, bools) == terms[0].coefficient * a + terms[1].coefficient
            * b);
        assert(1 * a == a && -1 * a == -a && 1 * b == b && -1 * b == -b);
    }
}

/// A linear constraint that is posted as a difference constraint is kept besides the others.
proof fn lemma_posted(before: &Model, after: &Model, terms: Seq<Term>, rhs: IntVal)
    requires
        Model::spec_as_difference(terms, rhs) is Some,
        after.diff_logic@ == before.diff_logic@.push(Model::spec_as_difference(terms, rhs)->0),
        after.linears == before.linears,
    ensures
        forall|ints: IntAssignment, bools: BoolAssignment|
            #[trigger] after.constraints_hold(ints, bools) <==> (before.constraints_hold(
                ints,
                bools,
            ) && linear_sum(terms, ints, bools) <= rhs),
{
    assert forall|ints: IntAssignment, bools: BoolAssignment|
        #[trigger] after.constraints_hold(ints, bools) <==> (before.constraints_hold(ints, bools)
            && linear_sum(terms, ints, bools) <= rhs) by {
        let c = Model::spec_as_difference(terms, rhs)->0;
        lemma_difference_added(before, after, c, ints, bools);
        lemma_difference_is_linear(terms, rhs, ints, bools);
    }
}


/// Require that the view is at least `v`, whatever the size of `v`.
pub fn require_at_least(ctx: &mut SolvingContext, view: IntView, v: IntVal) -> (r: Result<
    (),
    Conflict,
>)
    requires
        old(ctx).wf(),
        old(ctx).has_view(view),
    ensures
        final(ctx).wf(),
        final(ctx).extends(old(ctx)),
        final(ctx).narrows(old(ctx)),
        final(ctx).has_view(view),
        r is Err <==> old(ctx).view_max(view) < v,
        match r {
            Ok(()) => final(ctx).view_min(view) >= v && forall|
                ints: IntAssignment,
                bools: BoolAssignment,
            |
                #[trigger] final(ctx).admits(ints, bools) <==> (old(ctx).admits(ints, bools)
                    && view.eval(ints, bools) >= v),
            Err(_) => forall|ints: IntAssignment, bools: BoolAssignment|
                #[trigger] old(ctx).admits(ints, bools) ==> view.eval(ints, bools) < v,
        },
{
    let ghost before = *ctx;
    let w: IntVal = if v > 2 * INT_LIMIT {
        2 * INT_LIMIT
    } else if v < -2 * INT_LIMIT {
        -2 * INT_LIMIT
    } else {
        v
    };
    proof {
        lemma_view_limits(ctx, view);
        assert(ctx.propagation_queue@.take(ctx.propagation_queue.len() as int)
            == ctx.propagation_queue@);
    }
    let r: Result<(), Conflict> = ctx.tighten_min(view, w, ReasonBuilder::Atoms(Vec::new()));
    proof {
        assert forall|ints: IntAssignment, bools: BoolAssignment|
            #[trigger] before.admits(ints, bools) implies (view.eval(ints, bools) >= v) == (
        view.eval(ints, bools) >= w) by {
            lemma_view_bounds(&before, view, ints, bools);
        }
    }
    r
}

/// Require that the view is at most `v`, whatever the size of `v`.
pub fn require_at_most(ctx: &mut SolvingContext, view: IntView, v: IntVal) -> (r: Result<
    (),
    Conflict,
>)
    requires
        old(ctx).wf(),
        old(ctx).has_view(view),
    ensures
        final(ctx).wf(),
        final(ctx).extends(old(ctx)),
        final(ctx).narrows(old(ctx)),
        final(ctx).has_view(view),
        r is Err <==> old(ctx).view_min(view) > v,
        match r {
            Ok(()) => final(ctx).view_max(view) <= v && forall|
                ints: IntAssignment,
                bools: BoolAssignment,
            |
                #[trigger] final(ctx).admits(ints, bools) <==> (old(ctx).admits(ints, bools)
                    && view.eval(ints, bools) <= v),
            Err(_) => forall|ints: IntAssignment, bools: BoolAssignment|
                #[trigger] old(ctx).admits(ints, bools) ==> view.eval(ints, bools) > v,
        },
{
    let ghost before = *ctx;
    let w: IntVal = if v > 2 * INT_LIMIT - 1 {
        2 * INT_LIMIT - 1
    } else if v < -2 * INT_LIMIT {
        -2 * INT_LIMIT
    } else {
        v
    };
    proof {
        lemma_view_limits(ctx, view);
        assert(ctx.propagation_queue@.take(ctx.propagation_queue.len() as int)
            == ctx.propagation_queue@);
    }
    let r: Result<(), Conflict> = ctx.tighten_max(view, w, ReasonBuilder::Atoms(Vec::new()));
    proof {
        assert forall|ints: IntAssignment, bools: BoolAssignment|
            #[trigger] before.admits(ints, bools) implies (view.eval(ints, bools) <= v) == (
        view.eval(ints, bools) <= w) by {
            lemma_view_bounds(&before, view, ints, bools);
        }
    }
    r
}

/// The bounds of a view lie within the limits.
pub proof fn lemma_view_limits(ctx: &SolvingContext, view: IntView)
    requires
        ctx.wf(),
        ctx.has_view(view),
    ensures
        -INT_LIMIT <= ctx.view_min(view) <= ctx.view_max(view) <= INT_LIMIT,
{
    let ((ints, bools), _) = lemma_bounds_taken(ctx, view);
    lemma_view_bounds(ctx, view, ints, bools);
}

impl Model {
    /// What stands for a decision, and the offset to it.
    pub open spec fn root_of(&self, var: int) -> Alias {
        match self.aliases[var] {
            Some(a) => a,
            None => Alias { root: var as usize, offset: 0 },
        }
    }

    /// Whether the aliases say that `left` equals `right` plus the offset, if both are
    /// decisions plus constants.
    pub open spec fn tied(&self, left: IntView, right: IntView, offset: int) -> bool {
        match (left, right) {
            (
                IntView::Linear { var: x, scale: s, offset: a },
                IntView::Linear { var: y, scale: t, offset: b },
            ) => s == 1 && t == 1 ==> {
                let (p, q) = (self.root_of(x as int), self.root_of(y as int));
                p.root == q.root && p.offset + a == q.offset + b + offset
            },
            _ => true,
        }
    }

    /// Whether the model is the other one, in which one decision plus an offset may stand for
    /// another one and for what that stood for.
    pub open spec fn redirects(&self, before: &Model) -> bool {
        &&& self.aliases.len() == before.aliases.len()
        &&& exists|from: usize, to: usize, shift: int| #[trigger]
            self.redirected(before, from, to, shift)
    }

    /// Whether `to` plus `shift` stands for what `from` stood for.
    pub open spec fn redirected(&self, before: &Model, from: usize, to: usize, shift: int) -> bool {
        forall|w: int|
            0 <= w < self.aliases.len() ==> {
                let (now, then) = (#[trigger] self.root_of(w), before.root_of(w));
                if then.root == from {
                    now.root == to && now.offset == then.offset + shift
                } else {
                    now == then
                }
            }
    }

    fn root(&self, var: usize) -> (r: Alias)
        requires
            self.wf(),
            var < self.ctx.ints.len(),
        ensures
            r == self.root_of(var as int),
            r.root < self.ctx.ints.len(),
            self.aliases[r.root as int] is None,
            -2 * INT_LIMIT <= r.offset <= 2 * INT_LIMIT,
    {
        match self.aliases[var] {
            Some(a) => a,
            None => Alias { root: var, offset: 0 },
        }
    }

    /// The view in terms of the decision that stands for its decision. A view that cannot be
    /// written so is returned as it is.
    pub fn resolve_alias(&self, view: IntView) -> (r: IntView)
        requires
            self.wf(),
            self.ctx.has_view(view),
        ensures
            forall|ints: IntAssignment, bools: BoolAssignment|
                self.aliased(ints) ==> #[trigger] r.eval(ints, bools) == view.eval(ints, bools),
            view matches IntView::Linear { var, scale, offset } ==> scale == 1 ==> r == (
            IntView::Linear {
                var: self.root_of(var as int).root,
                scale: 1,
                offset: (offset + self.root_of(var as int).offset) as IntVal,
            }),
            !view.is_diff_lit_endpoint() ==> r == view,
    {
        match view {
            IntView::Linear { var, scale, offset } => {
                if scale == 1 {
                    let a: Alias = self.root(var);
                    let r: IntView = IntView::Linear {
                        var: a.root,
                        scale: 1,
                        offset: offset + a.offset,
                    };
                    assert forall|ints: IntAssignment, bools: BoolAssignment|
                        self.aliased(ints) implies #[trigger] r.eval(ints, bools) == view.eval(
                        ints,
                        bools,
                    ) by {
                        lemma_root_value(self, var as int, ints);
                        assert(scale * ints(var as int) == ints(var as int)) by (nonlinear_arith)
                            requires
                                scale == 1,
                        ;
                        assert(view.eval(ints, bools) == ints(var as int) + offset);
                        assert(r.eval(ints, bools) == 1 * ints(a.root as int) + (offset
                            + a.offset));
                    }
                    r
                } else {
                    view
                }
            },
            _ => view,
        }
    }

    /// Record that `left` equals `right` plus the offset. The domains are narrowed to what
    /// either side allows the other.
    pub fn unify(&mut self, left: IntView, right: IntView, offset: IntVal) -> (r: Result<
        (),
        Conflict,
    >)
        requires
            old(self).wf(),
            old(self).ctx.has_view(left),
            old(self).ctx.has_view(right),
        ensures
            final(self).wf(),
            final(self).ctx.extends(&old(self).ctx),
            final(self).ctx.narrows(&old(self).ctx),
            final(self).diff_logic == old(self).diff_logic,
            final(self).linears == old(self).linears,
            final(self).clauses == old(self).clauses,
            match r {
                Ok(()) => forall|ints: IntAssignment, bools: BoolAssignment|
                    #[trigger] final(self).admits(ints, bools) <==> (old(self).admits(ints, bools)
                        && left.eval(ints, bools) == right.eval(ints, bools) + offset),
                Err(_) => forall|ints: IntAssignment, bools: BoolAssignment|
                    #[trigger] old(self).admits(ints, bools) ==> left.eval(ints, bools)
                        != right.eval(ints, bools) + offset,
            },
            // Decisions plus constants get one root; of other views the equality is recorded.
            r is Ok ==> final(self).tied(left, right, offset as int),
            left.is_diff_lit_endpoint() && right.is_diff_lit_endpoint() ==> final(self).equalities
                == old(self).equalities && (r is Ok ==> final(self).redirects(old(self))),
            !(left.is_diff_lit_endpoint() && right.is_diff_lit_endpoint()) ==> final(self).aliases
                == old(self).aliases && (r is Ok ==> final(self).equalities@
                == old(self).equalities@.push(Equality { left, right, offset })),
            // What was tied stays so.
            r is Ok ==> forall|x: IntView, y: IntView, c: int|
                old(self).ctx.has_view(x) && old(self).ctx.has_view(y) && #[trigger] old(self).tied(
                    x,
                    y,
                    c,
                ) ==> final(self).tied(x, y, c),
    {
        let ghost start = *self;
        let r: Result<(), Conflict> = self.align(left, right, offset);
        if r.is_err() {
            return r;
        }
        let ghost mid = *self;
        let r: Result<(), Conflict> = match (left, right) {
            (
                IntView::Linear { var: x, scale: 1, offset: a },
                IntView::Linear { var: y, scale: 1, offset: b },
            ) => {
                let p: Alias = self.root(x);
                let q: Alias = self.root(y);
                let shift: i128 = q.offset as i128 + b as i128 + offset as i128 - p.offset as i128
                    - a as i128;
                assert forall|ints: IntAssignment, bools: BoolAssignment|
                    self.aliased(ints) implies ((#[trigger] left.eval(ints, bools) == right.eval(
                    ints,
                    bools,
                ) + offset) <==> ints(p.root as int) == ints(q.root as int) + shift) by {
                    lemma_root_value(self, x as int, ints);
                    lemma_root_value(self, y as int, ints);
                    assert(1 * ints(x as int) == ints(x as int));
                    assert(1 * ints(y as int) == ints(y as int));
                }
                if p.root == q.root {
                    if shift == 0 {
                        assert(self.redirected(&start, q.root, q.root, 0));
                        Ok(())
                    } else {
                        Err(Conflict::new(None, ReasonBuilder::Atoms(Vec::new())))
                    }
                } else {
                    self.alias(p.root, q.root, shift)
                }
            },
            _ => {
                let ghost before = *self;
                self.equalities.push(Equality { left, right, offset });
                assert forall|ints: IntAssignment, bools: BoolAssignment|
                    #[trigger] self.admits(ints, bools) <==> (before.admits(ints, bools)
                        && left.eval(ints, bools) == right.eval(ints, bools) + offset) by {
                    let n = before.equalities.len() as int;
                    if self.equal(ints, bools) {
                        assert(self.equalities[n].left.eval(ints, bools)
                            == self.equalities[n].right.eval(ints, bools)
                            + self.equalities[n].offset);
                        assert forall|k: int| 0 <= k < n implies (
                        #[trigger] before.equalities[k]).left.eval(ints, bools)
                            == before.equalities[k].right.eval(ints, bools)
                            + before.equalities[k].offset by {
                            assert(self.equalities[k] == before.equalities[k]);
                        }
                    }
                    if before.equal(ints, bools) && left.eval(ints, bools) == right.eval(
                        ints,
                        bools,
                    ) + offset {
                        assert forall|k: int| 0 <= k < n + 1 implies (
                        #[trigger] self.equalities[k]).left.eval(ints, bools)
                            == self.equalities[k].right.eval(ints, bools)
                            + self.equalities[k].offset by {
                            if k < n {
                                assert(self.equalities[k] == before.equalities[k]);
                            }
                        }
                    }
                }
                Ok(())
            },
        };
        proof {
            assert forall|w: int| mid.root_of(w) == #[trigger] start.root_of(w) by {}
            if r is Ok {
                if left.is_diff_lit_endpoint() && right.is_diff_lit_endpoint() {
                    let (x, y) = (left->Linear_var as int, right->Linear_var as int);
                    let (p, q) = (mid.root_of(x), mid.root_of(y));
                    if p.root != q.root {
                        let shift = q.offset + right->Linear_offset + offset - p.offset
                            - left->Linear_offset;
                        assert(self.redirected(&mid, p.root, q.root, shift));
                        assert(self.redirected(&start, p.root, q.root, shift));
                        assert(mid.root_of(p.root as int).root == p.root);
                        let (p2, q2) = (self.root_of(x), self.root_of(y));
                    }
                    assert(self.redirects(&start));
                    let (from, to, shift) = choose|from: usize, to: usize, shift: int| #[trigger]
                        self.redirected(&start, from, to, shift);
                    assert forall|x: IntView, y: IntView, c: int|
                        start.ctx.has_view(x) && start.ctx.has_view(y) && #[trigger] start.tied(
                            x,
                            y,
                            c,
                        ) implies self.tied(x, y, c) by {
                        if x is Linear && y is Linear {
                            let (px, py) = (
                                self.root_of(x->Linear_var as int),
                                self.root_of(y->Linear_var as int),
                            );
                        }
                    }
                } else {
                    assert forall|w: int| self.root_of(w) == #[trigger] start.root_of(w) by {}
                    assert forall|x: IntView, y: IntView, c: int|
                        #[trigger] start.tied(x, y, c) implies self.tied(x, y, c) by {
                        if x is Linear && y is Linear {
                            assert(self.root_of(x->Linear_var as int) == start.root_of(
                                x->Linear_var as int,
                            ));
                            assert(self.root_of(y->Linear_var as int) == start.root_of(
                                y->Linear_var as int,
                            ));
                        }
                    }
                }
            }
            assert forall|ints: IntAssignment, bools: BoolAssignment|
                #[trigger] start.admits(ints, bools) && left.eval(ints, bools) == right.eval(
                    ints,
                    bools,
                ) + offset implies r is Ok && self.admits(ints, bools) by {
                assert(mid.ctx.admits(ints, bools));
                assert(mid.admits(ints, bools));
            }
            if r is Ok {
                assert forall|ints: IntAssignment, bools: BoolAssignment|
                    #[trigger] self.admits(ints, bools) implies start.admits(ints, bools)
                    && left.eval(ints, bools) == right.eval(ints, bools) + offset by {
                    assert(mid.admits(ints, bools) && left.eval(ints, bools) == right.eval(
                        ints,
                        bools,
                    ) + offset);
                    lemma_narrows_admits(&mid.ctx, &start.ctx, ints, bools);
                }
            }
        }
        r
    }

    /// Narrow the domains of two views to what `left == right + offset` allows.
    fn align(&mut self, left: IntView, right: IntView, offset: IntVal) -> (r: Result<(), Conflict>)
        requires
            old(self).wf(),
            old(self).ctx.has_view(left),
            old(self).ctx.has_view(right),
        ensures
            final(self).wf(),
            final(self).ctx.extends(&old(self).ctx),
            final(self).ctx.narrows(&old(self).ctx),
            final(self).diff_logic == old(self).diff_logic,
            final(self).linears == old(self).linears,
            final(self).clauses == old(self).clauses,
            final(self).aliases == old(self).aliases,
            final(self).equalities == old(self).equalities,
            forall|ints: IntAssignment, bools: BoolAssignment|
                #[trigger] old(self).ctx.admits(ints, bools) && left.eval(ints, bools)
                    == right.eval(ints, bools) + offset ==> r is Ok && final(self).ctx.admits(
                    ints,
                    bools,
                ),
    {
        let ghost c0 = self.ctx;
        proof {
            lemma_view_limits(&self.ctx, left);
            lemma_view_limits(&self.ctx, right);
        }
        let low: IntVal = saturating_sub(self.ctx.min(left), offset);
        let high: IntVal = saturating_sub(self.ctx.max(left), offset);
        let r: Result<(), Conflict> = require_at_least(&mut self.ctx, right, low);
        let ghost c1 = self.ctx;
        proof {
            lemma_view_narrowed(&c0, &c1, left);
            assert forall|ints: IntAssignment, bools: BoolAssignment|
                #[trigger] c0.admits(ints, bools) && left.eval(ints, bools) == right.eval(
                    ints,
                    bools,
                ) + offset implies r is Ok && c1.admits(ints, bools) by {
                lemma_view_bounds(&c0, left, ints, bools);
                lemma_view_bounds(&c0, right, ints, bools);
            }
        }
        if r.is_err() {
            return r;
        }
        let r: Result<(), Conflict> = require_at_most(&mut self.ctx, right, high);
        let ghost c2 = self.ctx;
        proof {
            lemma_view_narrowed(&c1, &c2, left);
            lemma_narrows_join(&c0, &c1, &c2);
            assert forall|ints: IntAssignment, bools: BoolAssignment|
                #[trigger] c0.admits(ints, bools) && left.eval(ints, bools) == right.eval(
                    ints,
                    bools,
                ) + offset implies r is Ok && c2.admits(ints, bools) by {
                assert(c1.admits(ints, bools));
                lemma_view_bounds(&c0, left, ints, bools);
                lemma_view_bounds(&c0, right, ints, bools);
            }
        }
        if r.is_err() {
            return r;
        }
        proof {
            lemma_view_limits(&self.ctx, right);
            lemma_view_limits(&self.ctx, left);
        }
        let low: IntVal = saturating_add(self.ctx.min(right), offset);
        let high: IntVal = saturating_add(self.ctx.max(right), offset);
        let r: Result<(), Conflict> = require_at_least(&mut self.ctx, left, low);
        let ghost c3 = self.ctx;
        proof {
            lemma_view_narrowed(&c2, &c3, right);
            lemma_narrows_join(&c0, &c2, &c3);
            assert forall|ints: IntAssignment, bools: BoolAssignment|
                #[trigger] c0.admits(ints, bools) && left.eval(ints, bools) == right.eval(
                    ints,
                    bools,
                ) + offset implies r is Ok && c3.admits(ints, bools) by {
                assert(c2.admits(ints, bools));
                lemma_view_bounds(&c2, left, ints, bools);
                lemma_view_bounds(&c2, right, ints, bools);
            }
        }
        if r.is_err() {
            return r;
        }
        let r: Result<(), Conflict> = require_at_most(&mut self.ctx, left, high);
        let ghost c4 = self.ctx;
        proof {
            lemma_narrows_join(&c0, &c3, &c4);
            assert forall|ints: IntAssignment, bools: BoolAssignment|
                #[trigger] c0.admits(ints, bools) && left.eval(ints, bools) == right.eval(
                    ints,
                    bools,
                ) + offset implies r is Ok && c4.admits(ints, bools) by {
                assert(c3.admits(ints, bools));
                assert(c2.admits(ints, bools));
                lemma_view_bounds(&c2, left, ints, bools);
                lemma_view_bounds(&c2, right, ints, bools);
            }
        }
        r
    }

    /// Let the decision `to` plus `shift` stand for the decision `from`, and for what it stood
    /// for.
    fn alias(&mut self, from: usize, to: usize, shift: i128) -> (r: Result<(), Conflict>)
        requires
            old(self).wf(),
            from < old(self).ctx.ints.len(),
            to < old(self).ctx.ints.len(),
            from != to,
            old(self).aliases[from as int] is None,
            old(self).aliases[to as int] is None,
            -0x1_0000_0000_0000_0000_0000 <= shift <= 0x1_0000_0000_0000_0000_0000,
        ensures
            final(self).wf(),
            final(self).ctx == old(self).ctx,
            final(self).diff_logic == old(self).diff_logic,
            final(self).linears == old(self).linears,
            final(self).clauses == old(self).clauses,
            final(self).equalities == old(self).equalities,
            match r {
                Ok(()) => final(self).redirected(old(self), from, to, shift as int) && forall|
                    ints: IntAssignment,
                | #[trigger]
                    final(self).aliased(ints) <==> (old(self).aliased(ints) && ints(from as int)
                        == ints(to as int) + shift),
                Err(_) => forall|ints: IntAssignment, bools: BoolAssignment|
                    #[trigger] old(self).admits(ints, bools) ==> ints(from as int) != ints(
                        to as int,
                    ) + shift,
            },
    {
        let ghost before = *self;
        let n: usize = self.aliases.len();
        let limit: i128 = 2 * (INT_LIMIT as i128);
        // No offset between two decisions is larger than their domains allow.
        let mut v: usize = 0;
        while v < n
            invariant
                v <= n == self.aliases.len() == self.ctx.ints.len(),
                *self == before,
                before.wf(),
                from < n,
                to < n,
                limit == 2 * INT_LIMIT,
                before.aliases[from as int] is None,
                before.aliases[to as int] is None,
                -0x1_0000_0000_0000_0000_0000 <= shift <= 0x1_0000_0000_0000_0000_0000,
                forall|w: int|
                    0 <= w < v ==> ((#[trigger] before.root_of(w)).root == from ==> -limit
                        <= before.root_of(w).offset + shift <= limit),
            decreases n - v,
        {
            let a: Alias = self.root(v);
            if a.root == from {
                let o: i128 = a.offset as i128 + shift;
                if o > limit || o < -limit {
                    assert forall|ints: IntAssignment, bools: BoolAssignment|
                        #[trigger] before.admits(ints, bools) implies ints(from as int) != ints(
                        to as int,
                    ) + shift by {
                        lemma_root_value(&before, v as int, ints);
                        assert(before.ctx.ints[v as int].has(ints(v as int)));
                        assert(before.ctx.ints[to as int].has(ints(to as int)));
                        assert(before.ctx.ints[v as int].wf());
                        assert(before.ctx.ints[to as int].wf());
                    }
                    return Err(Conflict::new(None, ReasonBuilder::Atoms(Vec::new())));
                }
            }
            v = v + 1;
        }
        let mut v: usize = 0;
        while v < n
            invariant
                v <= n == self.aliases.len() == before.aliases.len(),
                from < n,
                to < n,
                from != to,
                limit == 2 * INT_LIMIT,
                before.wf(),
                before.aliases[from as int] is None,
                before.aliases[to as int] is None,
                -0x1_0000_0000_0000_0000_0000 <= shift <= 0x1_0000_0000_0000_0000_0000,
                self.ctx == before.ctx,
                self.diff_logic == before.diff_logic,
                self.linears == before.linears,
                self.clauses == before.clauses,
                self.equalities == before.equalities,
                forall|w: int|
                    0 <= w < n ==> ((#[trigger] before.root_of(w)).root == from ==> -limit
                        <= before.root_of(w).offset + shift <= limit),
                forall|w: int|
                    0 <= w < n ==> #[trigger] self.aliases[w] == if w < v && before.root_of(w).root
                        == from {
                        Some(
                            Alias {
                                root: to,
                                offset: (before.root_of(w).offset + shift) as IntVal,
                            },
                        )
                    } else {
                        before.aliases[w]
                    },
            decreases n - v,
        {
            assert(self.aliases[v as int] == before.aliases[v as int]);
            let a: Alias = match self.aliases[v] {
                Some(a) => a,
                None => Alias { root: v, offset: 0 },
            };
            assert(a == before.root_of(v as int));
            if a.root == from {
                let o: i128 = a.offset as i128 + shift;
                self.aliases.set(v, Some(Alias { root: to, offset: o as IntVal }));
            }
            v = v + 1;
        }
        proof {
            assert(before.root_of(from as int).root == from);
            assert(before.root_of(to as int).root == to);
            assert(self.aliases[to as int] is None);
            assert forall|w: int| 0 <= w < self.aliases.len() implies {
                let (now, then) = (#[trigger] self.root_of(w), before.root_of(w));
                if then.root == from {
                    now.root == to && now.offset == then.offset + shift
                } else {
                    now == then
                }
            } by {
                assert(self.aliases[w] == self.aliases[w]);
                let then = before.root_of(w);
            }
            assert forall|w: int| 0 <= w < n implies (#[trigger] self.aliases[w] matches Some(
                a,
            ) ==> {
                &&& a.root < n
                &&& self.aliases[a.root as int] is None
                &&& -2 * INT_LIMIT <= a.offset <= 2 * INT_LIMIT
            }) by {
                let b = before.root_of(w);
                if b.root != from {
                    assert(self.aliases[w] == before.aliases[w]);
                    if let Some(a) = before.aliases[w] {
                        assert(before.aliases[a.root as int] is None);
                        assert(before.root_of(a.root as int).root == a.root);
                        assert(self.aliases[a.root as int] == before.aliases[a.root as int]);
                    }
                }
            }
            assert forall|ints: IntAssignment| #[trigger]
                self.aliased(ints) <==> (before.aliased(ints) && ints(from as int) == ints(
                    to as int,
                ) + shift) by {
                if self.aliased(ints) {
                    assert(self.aliases[from as int] is Some);
                    assert(ints(from as int) == ints(to as int) + shift);
                    assert forall|w: int| 0 <= w < n implies (
                    #[trigger] before.aliases[w] matches Some(a) ==> ints(w) == ints(
                        a.root as int,
                    ) + a.offset) by {
                        if before.aliases[w] is Some {
                            assert(before.root_of(w) == before.aliases[w]->0);
                            assert(self.aliases[w] is Some);
                        }
                    }
                }
                if before.aliased(ints) && ints(from as int) == ints(to as int) + shift {
                    assert forall|w: int| 0 <= w < n implies (
                    #[trigger] self.aliases[w] matches Some(a) ==> ints(w) == ints(a.root as int)
                        + a.offset) by {
                        lemma_root_value(&before, w, ints);
                    }
                }
            }
        }
        Ok(())
    }
}

/// A decision has the value of what stands for it plus the offset.
proof fn lemma_root_value(model: &Model, var: int, ints: IntAssignment)
    requires
        0 <= var < model.aliases.len() <= usize::MAX,
        model.aliased(ints),
    ensures
        ints(var) == ints(model.root_of(var).root as int) + model.root_of(var).offset,
{
    assert(model.aliases[var] matches Some(a) ==> ints(var) == ints(a.root as int) + a.offset);
}

/// Narrowing twice is narrowing.
pub proof fn lemma_narrows_join(a: &SolvingContext, b: &SolvingContext, c: &SolvingContext)
    requires
        b.extends(a),
        b.narrows(a),
        c.extends(b),
        c.narrows(b),
    ensures
        c.extends(a),
        c.narrows(a),
{
    let n0 = a.propagation_queue.len() as int;
    let n1 = b.propagation_queue.len() as int;
    assert(c.propagation_queue@.take(n1).take(n0) == c.propagation_queue@.take(n0));
    assert forall|v: int, x: int|
        0 <= v < c.ints.len() && #[trigger] c.ints[v].has(x) implies a.ints[v].has(x) by {
        assert(b.ints[v].has(x));
    }
    assert forall|i: int| 0 <= i < c.bools.len() && (#[trigger] a.bools[i]) is Some implies
        c.bools[i] == a.bools[i] by {
        assert(b.bools[i] == a.bools[i]);
    }
}

} // verus!
