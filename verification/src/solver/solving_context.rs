//! The context in which propagators act: the domains of the decisions, and the consequences
//! that were propagated.

use vstd::prelude::*;

use crate::helpers::trail::{Trail, Trailed};
use crate::solver::diff_lits::DiffLits;
use crate::solver::domain::IntDomain;
use crate::solver::reason::{
    antecedent, BuiltReason, Conflict, DeferredReason, Reason, ReasonBuilder,
};
use crate::solver::view::{
    BoolAssignment, BoolView, IntAssignment, IntLitMeaning, IntVal, Lit, INT_LIMIT,
};

verus! {

/// What changed about an integer decision.
#[derive(Clone, Copy, Debug, PartialEq, Eq, Hash, Structural)]
pub enum IntEvent {
    /// The decision has one value left.
    Fixed,
    /// Both bounds may have changed.
    Bounds,
    /// The lower bound has increased.
    LowerBound,
    /// The upper bound has decreased.
    UpperBound,
    /// A value between the bounds was removed.
    Domain,
}

/// The changes of an integer decision that a propagator waits for.
#[derive(Clone, Copy, Debug, PartialEq, Eq, Hash, Structural)]
pub enum IntPropCond {
    /// The decision has one value left.
    Fixed,
    /// The lower bound has increased.
    LowerBound,
    /// The upper bound has decreased.
    UpperBound,
    /// Either bound has changed.
    Bounds,
    /// Any value was removed.
    Domain,
}

/// The change that is requested of an integer decision.
#[derive(Clone, Copy, Debug, PartialEq, Eq, Hash, Structural)]
pub enum ChangeRequest {
    /// Remove the values less than the given value.
    SetLowerBound(IntVal),
    /// Remove the values greater than the given value.
    SetUpperBound(IntVal),
    /// Remove the values other than the given value.
    SetValue(IntVal),
    /// Remove the given value.
    RemoveValue(IntVal),
}

impl ChangeRequest {
    /// Whether the change keeps the value `x`.
    pub open spec fn allows(self, x: int) -> bool {
        match self {
            ChangeRequest::SetLowerBound(i) => x >= i,
            ChangeRequest::SetUpperBound(i) => x <= i,
            ChangeRequest::SetValue(i) => x == i,
            ChangeRequest::RemoveValue(i) => x != i,
        }
    }

    /// The literal that holds of the values that the change keeps, among the values of a
    /// decision.
    pub open spec fn meaning(self) -> IntLitMeaning {
        match self {
            ChangeRequest::SetLowerBound(i) => IntLitMeaning::GreaterEq(i),
            ChangeRequest::SetUpperBound(i) => if i < INT_LIMIT {
                IntLitMeaning::Less((i + 1) as IntVal)
            } else {
                IntLitMeaning::Less((INT_LIMIT + 1) as IntVal)
            },
            ChangeRequest::SetValue(i) => IntLitMeaning::Eq(i),
            ChangeRequest::RemoveValue(i) => IntLitMeaning::NotEq(i),
        }
    }

    /// The request that makes a literal hold.
    pub open spec fn requests(self, m: IntLitMeaning) -> bool {
        forall|x: int| #[trigger] self.allows(x) == m.holds(x)
    }
}

/// Whether a change is redundant, conflicting, or new.
#[derive(Clone, Copy, Debug, PartialEq, Eq, Hash, Structural)]
pub enum ChangeType {
    /// Every value is kept.
    Redundant,
    /// Some values are kept, others are not.
    New,
    /// No value is kept.
    Conflicting,
}

/// A consequence that was propagated.
#[derive(Debug, PartialEq, Eq)]
pub struct LitPropagation {
    /// The literal that holds.
    pub lit: BoolView,
    /// Why it holds.
    pub reason: BuiltReason,
    /// The integer decision that changed, and how.
    pub event: Option<(usize, IntEvent)>,
}

/// A rule on assignments.
pub type Rule = spec_fn(IntAssignment, BoolAssignment) -> bool;

/// What is known of reasons that are built later: of what a reason is one, if not of a conflict
/// alone, and where it is found.
pub type Deferral = spec_fn(Option<BoolView>, DeferredReason) -> bool;

/// Whether the subject holds. No subject never does.
pub open spec fn subject_holds(
    subject: Option<BoolView>,
    ints: IntAssignment,
    bools: BoolAssignment,
) -> bool {
    subject matches Some(lit) && lit.holds(ints, bools)
}

/// Whether the subject follows from the reason by the rule, or the reason is built later and what
/// is to be known of it holds.
pub open spec fn accounted(
    subject: Option<BoolView>,
    reason: BuiltReason,
    rule: Rule,
    later: Deferral,
) -> bool {
    match reason {
        Ok(Reason::Lazy(d)) => later(subject, d),
        _ => forall|ints: IntAssignment, bools: BoolAssignment|
            #[trigger] rule(ints, bools) && antecedent(reason, ints, bools) ==> subject_holds(
                subject,
                ints,
                bools,
            ),
    }
}

/// A request of a propagator to be told of a change.
#[derive(Clone, Copy, Debug, PartialEq, Eq, Hash, Structural)]
pub struct AdvisorDef {
    /// Whether a Boolean change is reported as that of an integer view.
    pub bool2int: bool,
    /// Data that the propagator is given with the change.
    pub data: u64,
    /// Whether the view is a negated one, so that the bounds change sides.
    pub negated: bool,
    /// Index of the propagator.
    pub propagator: usize,
}

/// What is to be done when an integer decision changes.
#[derive(Clone, Copy, Debug, PartialEq, Eq, Hash, Structural)]
pub struct IntActivation {
    /// The integer decision.
    pub var: usize,
    /// Index of the advisor.
    pub advisor: usize,
    /// The changes that the advisor waits for.
    pub cond: IntPropCond,
}

/// What is to be done when a Boolean decision is fixed.
#[derive(Clone, Copy, Debug, PartialEq, Eq, Hash, Structural)]
pub struct BoolActivation {
    /// The view that is to be fixed. A literal stands for its variable, and is not negated.
    pub view: BoolView,
    /// Index of the advisor.
    pub advisor: usize,
}

/// Counters of the search.
#[derive(Clone, Copy, Debug, PartialEq, Eq, Hash, Structural)]
pub struct Statistics {
    /// Conflicts that were found.
    pub conflicts: u64,
    /// Literals that were created during search.
    pub lazy_literals: u64,
    /// Runs of propagators.
    pub propagations: u64,
}

/// What the engine keeps besides the domains of the decisions.
#[derive(Debug)]
pub struct State {
    /// Clauses that are to be added.
    pub clauses: Vec<Vec<Lit>>,
    /// The literals that stand for bounds of differences.
    pub diff_lits: DiffLits,
    /// The advisors of the propagators.
    pub advisors: Vec<AdvisorDef>,
    /// The advisors that wait for changes of integer decisions.
    pub int_activation: Vec<IntActivation>,
    /// The advisors that wait until Boolean decisions are fixed.
    pub bool_activation: Vec<BoolActivation>,
    /// The propagators that are to be run, first one first.
    pub propagator_queue: Vec<usize>,
    /// Whether a conflict was found.
    pub failed: bool,
    /// The conflict that was found.
    pub conflict: Option<Conflict>,
    /// Counters of the search.
    pub statistics: Statistics,
    /// The views that were noted to be assigned. Views that were propagated are assigned as well.
    pub assigned: Vec<BoolView>,
}

/// The context that is handed to propagators.
#[derive(Debug)]
pub struct SolvingContext {
    /// The domains of the integer decisions.
    pub ints: Vec<IntDomain>,
    /// The values of the Boolean decisions that are fixed.
    pub bools: Vec<Option<bool>>,
    /// The consequences that were propagated, first one first.
    pub propagation_queue: Vec<LitPropagation>,
    /// Values that are restored when the search backtracks.
    pub trail: Trail,
    /// What else the engine keeps.
    pub state: State,
    /// The propagator that is being run.
    pub current_prop: usize,
}

/// How a change of a decision with the given bounds is reported: by what was requested. That a
/// value was removed at an end of the domain, or that only one is left, is not told apart.
pub open spec fn event_of(change: ChangeRequest, lb: IntVal, ub: IntVal) -> IntEvent {
    match change {
        ChangeRequest::SetValue(_) => IntEvent::Fixed,
        ChangeRequest::RemoveValue(_) => IntEvent::Domain,
        ChangeRequest::SetLowerBound(i) => if i == ub {
            IntEvent::Fixed
        } else {
            IntEvent::LowerBound
        },
        ChangeRequest::SetUpperBound(i) => if i == lb {
            IntEvent::Fixed
        } else {
            IntEvent::UpperBound
        },
    }
}

/// A change of a domain is reported by what it does to the bounds: a decision that is reported to
/// be fixed has one value left, a bound that is not reported has not moved, and a change that
/// leaves one value between the bounds is reported as such. Removing a value is reported as that
/// even at an end of the domain, where it moves a bound.
pub proof fn lemma_event_tells(change: ChangeRequest, before: IntDomain, after: IntDomain)
    requires
        before.wf(),
        after.wf(),
        forall|x: int| #[trigger] after.has(x) == (before.has(x) && change.allows(x)),
        change matches ChangeRequest::RemoveValue(i) ==> i != before.lb && i != before.ub,
    ensures
        ({
            let event = event_of(change, before.lb, before.ub);
            &&& event != IntEvent::Bounds
            &&& event == IntEvent::Fixed ==> after.lb == after.ub
            &&& event != IntEvent::Fixed && event != IntEvent::LowerBound ==> after.lb == before.lb
            &&& event != IntEvent::Fixed && event != IntEvent::UpperBound ==> after.ub == before.ub
            &&& before.lb < before.ub && !(change is RemoveValue) && (forall|x: int, y: int|
                before.lb <= x <= before.ub && before.lb <= y <= before.ub && #[trigger]
                    change.allows(x) && #[trigger] change.allows(y) ==> x == y) ==> event
                == IntEvent::Fixed
        }),
{
    assert(before.has(before.lb as int) && before.has(before.ub as int));
    assert(after.has(after.lb as int) && after.has(after.ub as int));
    assert(after.has(before.lb as int) == change.allows(before.lb as int));
    assert(after.has(before.ub as int) == change.allows(before.ub as int));
    let event = event_of(change, before.lb, before.ub);
    if event == IntEvent::LowerBound {
        assert(change.allows(before.ub as int) && change.allows(before.ub - 1));
    }
    if event == IntEvent::UpperBound {
        assert(change.allows(before.lb as int) && change.allows(before.lb + 1));
    }
}

impl SolvingContext {
    /// Create a context without decisions.
    pub fn new() -> (r: SolvingContext)
        ensures
            r.wf(),
            r.ints@ == Seq::<IntDomain>::empty(),
            r.bools@ == Seq::<Option<bool>>::empty(),
            r.propagation_queue@ == Seq::<LitPropagation>::empty(),
            r.trail@ == Seq::<usize>::empty(),
            r.trail.depth() == 0,
            r.state.clauses@ == Seq::<Vec<Lit>>::empty(),
            r.state.diff_lits.wf(),
            forall|x: usize, y: usize| #[trigger] r.state.diff_lits.chain(x, y).len() == 0,
            r.state.advisors@ == Seq::<AdvisorDef>::empty(),
            r.state.int_activation@ == Seq::<IntActivation>::empty(),
            r.state.bool_activation@ == Seq::<BoolActivation>::empty(),
            r.state.propagator_queue@ == Seq::<usize>::empty(),
            !r.state.failed,
            r.state.conflict is None,
            r.state.statistics == (Statistics {
                conflicts: 0,
                lazy_literals: 0,
                propagations: 0,
            }),
            r.state.assigned@ == Seq::<BoolView>::empty(),
            // No propagator is being run.
            r.current_prop == usize::MAX,
    {
        SolvingContext {
            ints: Vec::new(),
            bools: Vec::new(),
            propagation_queue: Vec::new(),
            trail: Trail::new(),
            state: State {
                clauses: Vec::new(),
                diff_lits: DiffLits::new(),
                advisors: Vec::new(),
                int_activation: Vec::new(),
                bool_activation: Vec::new(),
                propagator_queue: Vec::new(),
                failed: false,
                conflict: None,
                statistics: Statistics { conflicts: 0, lazy_literals: 0, propagations: 0 },
                assigned: Vec::new(),
            },
            current_prop: usize::MAX,
        }
    }

    /// Add an integer decision with the values from `lb` up to `ub`.
    pub fn new_int(&mut self, lb: IntVal, ub: IntVal) -> (r: usize)
        requires
            old(self).wf(),
            -INT_LIMIT <= lb <= ub <= INT_LIMIT,
        ensures
            final(self).wf(),
            r == old(self).ints.len(),
            final(self).ints@ == old(self).ints@.push(final(self).ints[r as int]),
            final(self).ints[r as int].lb == lb,
            final(self).ints[r as int].ub == ub,
            forall|x: int| #[trigger] final(self).ints[r as int].has(x) == (lb <= x <= ub),
            final(self).bools == old(self).bools,
            final(self).propagation_queue == old(self).propagation_queue,
            final(self).trail == old(self).trail,
            final(self).state == old(self).state,
            final(self).current_prop == old(self).current_prop,
    {
        self.new_int_in(IntDomain::new(lb, ub))
    }

    /// Add an integer decision with the given domain.
    pub fn new_int_in(&mut self, domain: IntDomain) -> (r: usize)
        requires
            old(self).wf(),
            domain.wf(),
        ensures
            final(self).wf(),
            r == old(self).ints.len(),
            final(self).ints@ == old(self).ints@.push(domain),
            final(self).bools == old(self).bools,
            final(self).propagation_queue == old(self).propagation_queue,
            final(self).trail == old(self).trail,
            final(self).state == old(self).state,
            final(self).current_prop == old(self).current_prop,
    {
        let r: usize = self.ints.len();
        let ghost before = self.ints@;
        self.ints.push(domain);
        proof {
            assert forall|v: int| 0 <= v < self.ints.len() implies (
            #[trigger] self.ints[v]).wf() by {
                if v < before.len() {
                    assert(self.ints@[v] == before[v]);
                    assert(old(self).ints[v].wf());
                }
            }
        }
        r
    }

    /// Add a Boolean decision.
    pub fn new_bool(&mut self) -> (r: Lit)
        requires
            old(self).wf(),
        ensures
            final(self).wf(),
            r == (Lit { var: old(self).bools.len(), negated: false }),
            final(self).bools@ == old(self).bools@.push(None),
            final(self).ints == old(self).ints,
            final(self).propagation_queue == old(self).propagation_queue,
            final(self).trail == old(self).trail,
            final(self).state == old(self).state,
            final(self).current_prop == old(self).current_prop,
    {
        let var: usize = self.bools.len();
        self.bools.push(None);
        Lit { var, negated: false }
    }

    /// Every domain is well formed.
    pub open spec fn wf(&self) -> bool {
        &&& forall|v: int| 0 <= v < self.ints.len() ==> (#[trigger] self.ints[v]).wf()
        &&& self.trail.wf()
    }

    /// Whether the domains hold every value of the assignment.
    pub open spec fn admits(&self, ints: IntAssignment, bools: BoolAssignment) -> bool {
        &&& forall|v: int| 0 <= v < self.ints.len() ==> (#[trigger] self.ints[v]).has(ints(v))
        &&& forall|b: int|
            0 <= b < self.bools.len() ==> (#[trigger] self.bools[b] matches Some(val) ==> val
                == bools(b))
    }

    /// Whether nothing differs but the domains and the queue, to which some consequences may
    /// have been added.
    pub open spec fn extends(&self, other: &SolvingContext) -> bool {
        self.grows(other) && self.trail == other.trail
    }

    /// Whether nothing differs but the domains, the trail and the queue, to which some
    /// consequences may have been added.
    pub open spec fn grows(&self, other: &SolvingContext) -> bool {
        &&& self.ints.len() == other.ints.len()
        &&& self.bools.len() == other.bools.len()
        &&& self.state == other.state
        &&& self.current_prop == other.current_prop
        &&& self.propagation_queue.len() >= other.propagation_queue.len()
        &&& self.propagation_queue@.take(other.propagation_queue.len() as int)
            == other.propagation_queue@
    }

    /// Whether every domain lies in that of the other context.
    pub open spec fn narrows(&self, other: &SolvingContext) -> bool {
        &&& forall|v: int, x: int|
            0 <= v < self.ints.len() && #[trigger] self.ints[v].has(x) ==> other.ints[v].has(x)
        &&& forall|b: int|
            0 <= b < self.bools.len() && (#[trigger] other.bools[b]) is Some ==> self.bools[b]
                == other.bools[b]
    }

    /// Whether the consequences after the first `from` follow from their reasons by the rule, or
    /// their reasons are built later and what is to be known of them holds.
    pub open spec fn accounted_since(&self, from: int, rule: Rule, later: Deferral) -> bool {
        forall|k: int|
            from <= k < self.propagation_queue.len() ==> accounted(
                Some((#[trigger] self.propagation_queue[k]).lit),
                self.propagation_queue[k].reason,
                rule,
                later,
            )
    }

    /// Whether the domains decide the view to have the given value.
    pub open spec fn decides(&self, b: BoolView, val: bool) -> bool {
        match b {
            BoolView::Const(c) => c == val,
            BoolView::Lit(l) => self.bools[l.var as int] == Some(val != l.negated),
            BoolView::Int(v, m) => self.ints[v as int].decides(m, val),
        }
    }

    /// Whether the decision of the view is one of this context.
    pub open spec fn knows(&self, b: BoolView) -> bool {
        match b {
            BoolView::Const(_) => true,
            BoolView::Lit(l) => l.var < self.bools.len(),
            BoolView::Int(v, _) => v < self.ints.len(),
        }
    }

    /// The value of the view that the domains decide.
    pub fn val(&self, b: BoolView) -> (r: Option<bool>)
        requires
            self.wf(),
            self.knows(b),
        ensures
            match r {
                Some(val) => self.decides(b, val),
                None => !self.decides(b, true) && !self.decides(b, false),
            },
    {
        match b {
            BoolView::Const(c) => Some(c),
            BoolView::Lit(l) => match self.bools[l.var] {
                Some(v) => Some(v != l.negated),
                None => None,
            },
            BoolView::Int(v, m) => self.ints[v].lit_val(m),
        }
    }

    /// Change the domain of an integer decision for the given reason.
    ///
    /// Values that the request does not allow are removed, which is reported with a literal
    /// and the reason, unless nothing changes. If no value is left, nothing is changed, and
    /// the literal is returned as a conflict.
    pub fn propagate_int(
        &mut self,
        iv: usize,
        change_req: ChangeRequest,
        reason: ReasonBuilder,
    ) -> (r: Result<(), Conflict>)
        requires
            old(self).wf(),
            iv < old(self).ints.len(),
        ensures
            final(self).wf(),
            r is Ok <==> exists|x: int|
                #[trigger] old(self).ints[iv as int].has(x) && change_req.allows(x),
            match r {
                Ok(()) => {
                    &&& final(self).extends(old(self))
                    &&& final(self).bools@ == old(self).bools@
                    &&& forall|v: int|
                        0 <= v < old(self).ints.len() && v != iv ==> #[trigger] final(self).ints[v]
                            == old(self).ints[v]
                    &&& forall|x: int|
                        #[trigger] final(self).ints[iv as int].has(x) == (old(
                            self,
                        ).ints[iv as int].has(x) && change_req.allows(x))
                    &&& if (forall|x: int|
                        #[trigger] old(self).ints[iv as int].has(x) ==> change_req.allows(x)) {
                        *final(self) == *old(self)
                    } else {
                        let last = final(self).propagation_queue@.last();
                        &&& final(self).propagation_queue@ == old(
                            self,
                        ).propagation_queue@.push(last)
                        &&& last.lit == BoolView::Int(iv, change_req.meaning())
                        &&& reason.builds(last.reason)
                        &&& last.event == Some(
                            (
                                iv,
                                event_of(
                                    change_req,
                                    old(self).ints[iv as int].lb,
                                    old(self).ints[iv as int].ub,
                                ),
                            ),
                        )
                    }
                },
                Err(conflict) => {
                    &&& *final(self) == *old(self)
                    &&& conflict.is_of(
                        Some(BoolView::Int(iv, change_req.meaning())),
                        reason,
                    )
                },
            },
    {
        let lb: IntVal = self.ints[iv].lb;
        let ub: IntVal = self.ints[iv].ub;
        let ghost dom = self.ints[iv as int];
        proof {
            assert(dom.wf());
            assert(dom.has(lb as int));
            assert(dom.has(ub as int));
        }
        // Whether the change is redundant, conflicting, or new.
        let check: ChangeType = match change_req {
            ChangeRequest::SetValue(i) => if lb == i && ub == i {
                ChangeType::Redundant
            } else if !self.ints[iv].in_domain(i) {
                ChangeType::Conflicting
            } else {
                ChangeType::New
            },
            ChangeRequest::RemoveValue(i) => if !self.ints[iv].in_domain(i) {
                ChangeType::Redundant
            } else if lb == ub {
                ChangeType::Conflicting
            } else {
                ChangeType::New
            },
            ChangeRequest::SetLowerBound(i) => if i <= lb {
                ChangeType::Redundant
            } else if i > ub {
                ChangeType::Conflicting
            } else {
                ChangeType::New
            },
            ChangeRequest::SetUpperBound(i) => if i >= ub {
                ChangeType::Redundant
            } else if i < lb {
                ChangeType::Conflicting
            } else {
                ChangeType::New
            },
        };
        proof {
            assert(check == ChangeType::Redundant <==> forall|x: int|
                #[trigger] dom.has(x) ==> change_req.allows(x)) by {
                if forall|x: int| #[trigger] dom.has(x) ==> change_req.allows(x) {
                    assert(change_req.allows(lb as int));
                    assert(change_req.allows(ub as int));
                    match change_req {
                        ChangeRequest::RemoveValue(i) => {
                            if dom.has(i as int) {
                                assert(change_req.allows(i as int));
                            }
                        },
                        _ => {},
                    }
                }
            }
        }
        if check == ChangeType::Redundant {
            assert(self.propagation_queue@.take(self.propagation_queue.len() as int)
                == self.propagation_queue@);
            assert(dom.has(lb as int) && change_req.allows(lb as int));
            return Ok(());
        }
        // The literal is needed whether there is something to propagate or a conflict.
        let meaning: IntLitMeaning = match change_req {
            ChangeRequest::SetLowerBound(i) => IntLitMeaning::GreaterEq(i),
            ChangeRequest::SetUpperBound(i) => IntLitMeaning::Less(i + 1),
            ChangeRequest::SetValue(i) => IntLitMeaning::Eq(i),
            ChangeRequest::RemoveValue(i) => IntLitMeaning::NotEq(i),
        };
        let lit: BoolView = BoolView::Int(iv, meaning);
        if check == ChangeType::Conflicting {
            return Err(Conflict::new(Some(lit), reason));
        }
        // Make the domains match.
        match change_req {
            ChangeRequest::SetLowerBound(i) => {
                assert(dom.has(ub as int) && change_req.allows(ub as int));
                self.ints[iv].set_lower(i);
            },
            ChangeRequest::SetUpperBound(i) => {
                assert(dom.has(lb as int) && change_req.allows(lb as int));
                self.ints[iv].set_upper(i);
            },
            ChangeRequest::SetValue(i) => {
                assert(dom.has(i as int) && change_req.allows(i as int));
                self.ints[iv].set_lower(i);
                assert(self.ints[iv as int].has(i as int));
                self.ints[iv].set_upper(i);
            },
            ChangeRequest::RemoveValue(i) => {
                assert(if i == lb {
                    dom.has(ub as int) && change_req.allows(ub as int)
                } else {
                    dom.has(lb as int) && change_req.allows(lb as int)
                });
                self.ints[iv].remove(i);
            },
        }
        let event: IntEvent = match change_req {
            ChangeRequest::SetValue(_) => IntEvent::Fixed,
            ChangeRequest::RemoveValue(_) => IntEvent::Domain,
            ChangeRequest::SetLowerBound(i) => if i == ub {
                IntEvent::Fixed
            } else {
                IntEvent::LowerBound
            },
            ChangeRequest::SetUpperBound(i) => if i == lb {
                IntEvent::Fixed
            } else {
                IntEvent::UpperBound
            },
        };
        self.propagation_queue.push(
            LitPropagation { lit, reason: reason.build_reason(), event: Some((iv, event)) },
        );
        assert(self.propagation_queue@.take(old(self).propagation_queue.len() as int) == old(
            self,
        ).propagation_queue@);
        Ok(())
    }
}


impl SolvingContext {
    /// Fix a Boolean decision that is not fixed, so that the literal holds.
    fn propagate_lit(&mut self, lit: Lit, reason: ReasonBuilder)
        requires
            old(self).wf(),
            lit.var < old(self).bools.len(),
            old(self).bools[lit.var as int] is None,
        ensures
            final(self).wf(),
            final(self).extends(old(self)),
            final(self).ints@ == old(self).ints@,
            final(self).bools@ == old(self).bools@.update(lit.var as int, Some(!lit.negated)),
            final(self).propagation_queue@ == old(self).propagation_queue@.push(
                final(self).propagation_queue@.last(),
            ),
            ({
                let last = final(self).propagation_queue@.last();
                &&& last.lit == BoolView::Lit(lit)
                &&& reason.builds(last.reason)
                &&& last.event is None
            }),
    {
        self.propagation_queue.push(
            LitPropagation { lit: BoolView::Lit(lit), reason: reason.build_reason(), event: None },
        );
        self.bools.set(lit.var, Some(!lit.negated));
        assert(self.propagation_queue@.take(old(self).propagation_queue.len() as int) == old(
            self,
        ).propagation_queue@);
    }

    /// Whether this context is the other one restricted to what keeps the rule, or the other
    /// one itself where nothing does; the rule is reported with the reason.
    pub open spec fn restricts(
        &self,
        before: &SolvingContext,
        rule: Rule,
        reason: ReasonBuilder,
        r: Result<(), Conflict>,
    ) -> bool {
        match r {
            Ok(()) => {
                &&& self.wf()
                &&& self.extends(before)
                &&& self.narrows(before)
                &&& forall|ints: IntAssignment, bools: BoolAssignment|
                    #[trigger] self.admits(ints, bools) <==> (before.admits(ints, bools) && rule(
                        ints,
                        bools,
                    ))
                &&& self.propagation_queue.len() <= before.propagation_queue.len() + 1
                &&& self.propagation_queue.len() == before.propagation_queue.len() ==> *self
                    == *before
                &&& self.propagation_queue.len() > before.propagation_queue.len() ==> {
                    let last = self.propagation_queue@.last();
                    &&& reason.builds(last.reason)
                    &&& forall|ints: IntAssignment, bools: BoolAssignment|
                        #[trigger] last.lit.holds(ints, bools) == rule(ints, bools)
                }
            },
            Err(conflict) => {
                &&& *self == *before
                &&& reason.builds(conflict.reason)
                &&& forall|ints: IntAssignment, bools: BoolAssignment|
                    #[trigger] before.admits(ints, bools) ==> !rule(ints, bools)
                &&& match conflict.subject {
                    Some(lit) => forall|ints: IntAssignment, bools: BoolAssignment|
                        #[trigger] lit.holds(ints, bools) == rule(ints, bools),
                    None => forall|ints: IntAssignment, bools: BoolAssignment|
                        !#[trigger] rule(ints, bools),
                }
            },
        }
    }

    /// Require that the view holds, for the given reason.
    pub fn require(&mut self, b: BoolView, reason: ReasonBuilder) -> (r: Result<(), Conflict>)
        requires
            old(self).wf(),
            old(self).knows(b),
            b matches BoolView::Int(_, IntLitMeaning::Less(v)) ==> v > IntVal::MIN,
        ensures
            r is Err <==> old(self).decides(b, false),
            final(self).restricts(
                old(self),
                |ints: IntAssignment, bools: BoolAssignment| b.holds(ints, bools),
                reason,
                r,
            ),
            r is Ok ==> final(self).decides(b, true),
            !(b is Int) ==> final(self).ints@ == old(self).ints@,
    {
        let ghost before = *self;
        let ghost rule: Rule = |ints: IntAssignment, bools: BoolAssignment| b.holds(ints, bools);
        assert(self.propagation_queue@.take(self.propagation_queue.len() as int)
            == self.propagation_queue@);
        match b {
            BoolView::Const(true) => Ok(()),
            BoolView::Const(false) => Err(Conflict::new(None, reason)),
            BoolView::Lit(l) => match self.bools[l.var] {
                Some(v) => if v != l.negated {
                    assert forall|ints: IntAssignment, bools: BoolAssignment|
                        #[trigger] before.admits(ints, bools) implies rule(ints, bools) by {
                        assert(before.bools[l.var as int] is Some);
                    }
                    Ok(())
                } else {
                    assert forall|ints: IntAssignment, bools: BoolAssignment|
                        #[trigger] before.admits(ints, bools) implies !rule(ints, bools) by {
                        assert(before.bools[l.var as int] is Some);
                    }
                    Err(Conflict::new(Some(b), reason))
                },
                None => {
                    self.propagate_lit(l, reason);
                    assert forall|ints: IntAssignment, bools: BoolAssignment|
                        #[trigger] self.admits(ints, bools) <==> (before.admits(ints, bools)
                            && rule(ints, bools)) by {
                        assert(self.bools[l.var as int] is Some);
                        if before.admits(ints, bools) && rule(ints, bools) {
                            assert forall|k: int| 0 <= k < self.bools.len() implies (
                            #[trigger] self.bools[k] matches Some(val) ==> val == bools(k)) by {
                                assert(before.bools[k] matches Some(val) ==> val == bools(k));
                            }
                        }
                        if self.admits(ints, bools) {
                            assert forall|k: int| 0 <= k < before.bools.len() implies (
                            #[trigger] before.bools[k] matches Some(val) ==> val == bools(k)) by {
                                assert(self.bools[k] matches Some(val) ==> val == bools(k));
                            }
                        }
                    }
                    Ok(())
                },
            },
            BoolView::Int(iv, m) => {
                let change: ChangeRequest = match m {
                    IntLitMeaning::Eq(v) => ChangeRequest::SetValue(v),
                    IntLitMeaning::NotEq(v) => ChangeRequest::RemoveValue(v),
                    IntLitMeaning::GreaterEq(v) => ChangeRequest::SetLowerBound(v),
                    IntLitMeaning::Less(v) => ChangeRequest::SetUpperBound(v - 1),
                };
                assert(change.requests(m));
                let r: Result<(), Conflict> = self.propagate_int(iv, change, reason);
                proof {
                    lemma_int_restricted(&before, self, iv, change, rule, reason, r);
                    let dom = before.ints[iv as int];
                    assert(dom.wf());
                    assert(dom.has(dom.lb as int));
                    if dom.decides(m, false) {
                        assert(r is Err) by {
                            if r is Ok {
                                let x = choose|x: int| #[trigger] dom.has(x) && change.allows(x);
                                assert(dom.has(x) ==> m.holds(x) == false);
                            }
                        }
                    }
                }
                r
            },
        }
    }

    /// Require that the view has the given value, for the given reason.
    pub fn fix(&mut self, b: BoolView, val: bool, reason: ReasonBuilder) -> (r: Result<
        (),
        Conflict,
    >)
        requires
            old(self).wf(),
            old(self).knows(b),
            b matches BoolView::Int(_, IntLitMeaning::Less(v)) ==> v > IntVal::MIN,
            b matches BoolView::Int(_, IntLitMeaning::GreaterEq(v)) ==> v > IntVal::MIN,
        ensures
            r is Err <==> old(self).decides(b, !val),
            final(self).restricts(
                old(self),
                |ints: IntAssignment, bools: BoolAssignment| b.holds(ints, bools) == val,
                reason,
                r,
            ),
            r is Ok ==> final(self).decides(b, val),
            !(b is Int) ==> final(self).ints@ == old(self).ints@,
    {
        let c: BoolView = if val {
            b
        } else {
            b.negate()
        };
        let ghost rule: Rule = |ints: IntAssignment, bools: BoolAssignment| c.holds(ints, bools);
        let ghost rule2: Rule = |ints: IntAssignment, bools: BoolAssignment|
            b.holds(ints, bools) == val;
        let r: Result<(), Conflict> = self.require(c, reason);
        proof {
            assert forall|ints: IntAssignment, bools: BoolAssignment|
                #[trigger] rule(ints, bools) == rule2(ints, bools) by {
                assert(b.negate().holds(ints, bools) == !b.holds(ints, bools));
            }
            assert(rule =~= rule2);
            if !val {
                lemma_decides_negated(old(self), b);
                lemma_decides_negated(self, b);
            }
        }
        r
    }

    /// Report that no assignment is possible, for the given reason.
    pub fn declare_conflict(&self, reason: ReasonBuilder) -> (r: Conflict)
        ensures
            r.is_of(None, reason),
    {
        Conflict::new(None, reason)
    }

    /// A reason that the propagator that is being run builds when it is asked for.
    pub fn deferred_reason(&self, data: u64) -> (r: DeferredReason)
        ensures
            r == (DeferredReason { propagator: self.current_prop, data }),
    {
        DeferredReason { propagator: self.current_prop, data }
    }

    /// The number of conflicts that were found.
    pub fn num_conflicts(&self) -> (r: u64)
        ensures
            r == self.state.statistics.conflicts,
    {
        self.state.statistics.conflicts
    }

    /// The current value of a trailed value.
    pub fn trailed(&self, i: Trailed) -> (r: usize)
        requires
            i.index < self.trail@.len(),
        ensures
            r == self.trail@[i.index as int],
    {
        self.trail.trailed(i)
    }

    /// Whether nothing differs but the trail.
    pub open spec fn same_but_trail(&self, other: &SolvingContext) -> bool {
        &&& self.ints == other.ints
        &&& self.bools == other.bools
        &&& self.propagation_queue == other.propagation_queue
        &&& self.state == other.state
        &&& self.current_prop == other.current_prop
    }

    /// Change a trailed value, and return the value before.
    pub fn set_trailed(&mut self, i: Trailed, v: usize) -> (r: usize)
        requires
            old(self).wf(),
            i.index < old(self).trail@.len(),
        ensures
            final(self).wf(),
            final(self).same_but_trail(old(self)),
            r == old(self).trail@[i.index as int],
            final(self).trail@ == old(self).trail@.update(i.index as int, v),
            final(self).trail.same_history(&old(self).trail),
    {
        self.trail.set_trailed(i, v)
    }
}

proof fn lemma_decides_negated(ctx: &SolvingContext, b: BoolView)
    requires
        ctx.wf(),
        ctx.knows(b),
    ensures
        ctx.decides(b.negate(), false) == ctx.decides(b, true),
        ctx.decides(b.negate(), true) == ctx.decides(b, false),
{
    match b {
        BoolView::Int(v, m) => {
            let dom = ctx.ints[v as int];
            let n = m.negate();
            assert forall|x: int| n.holds(x) == !m.holds(x) by {}
            assert(dom.decides(n, false) == dom.decides(m, true));
            assert(dom.decides(n, true) == dom.decides(m, false));
        },
        _ => {},
    }
}

/// What [`SolvingContext::propagate_int`] does, in terms of assignments.
pub proof fn lemma_int_restricted(
    before: &SolvingContext,
    after: &SolvingContext,
    iv: usize,
    change: ChangeRequest,
    rule: Rule,
    reason: ReasonBuilder,
    r: Result<(), Conflict>,
)
    requires
        before.wf(),
        after.wf(),
        iv < before.ints.len(),
        forall|ints: IntAssignment, bools: BoolAssignment|
            #[trigger] rule(ints, bools) == change.allows(ints(iv as int)),
        r is Ok <==> exists|x: int| #[trigger] before.ints[iv as int].has(x) && change.allows(x),
        match r {
            Ok(()) => {
                &&& after.extends(before)
                &&& after.bools@ == before.bools@
                &&& forall|v: int|
                    0 <= v < before.ints.len() && v != iv ==> #[trigger] after.ints[v]
                        == before.ints[v]
                &&& forall|x: int|
                    #[trigger] after.ints[iv as int].has(x) == (before.ints[iv as int].has(x)
                        && change.allows(x))
                &&& if (forall|x: int|
                    #[trigger] before.ints[iv as int].has(x) ==> change.allows(x)) {
                    *after == *before
                } else {
                    let last = after.propagation_queue@.last();
                    &&& after.propagation_queue@ == before.propagation_queue@.push(last)
                    &&& last.lit == BoolView::Int(iv, change.meaning())
                    &&& reason.builds(last.reason)
                }
            },
            Err(conflict) => {
                &&& *after == *before
                &&& conflict.is_of(Some(BoolView::Int(iv, change.meaning())), reason)
            },
        },
    ensures
        after.restricts(before, rule, reason, r),
{
    let dom = before.ints[iv as int];
    assert(dom.wf());
    assert(dom.has(dom.lb as int));
    assert(dom.has(dom.ub as int));
    let m = change.meaning();
    if r is Ok {
        assert forall|ints: IntAssignment, bools: BoolAssignment|
            #[trigger] after.admits(ints, bools) <==> (before.admits(ints, bools) && rule(
                ints,
                bools,
            )) by {
            if after.admits(ints, bools) {
                assert(after.ints[iv as int].has(ints(iv as int)));
                assert forall|v: int| 0 <= v < before.ints.len() implies (
                #[trigger] before.ints[v]).has(ints(v)) by {
                    assert(after.ints[v].has(ints(v)));
                }
                assert forall|b: int| 0 <= b < before.bools.len() implies (
                #[trigger] before.bools[b] matches Some(val) ==> val == bools(b)) by {
                    assert(after.bools[b] == before.bools[b]);
                }
            }
            if before.admits(ints, bools) && rule(ints, bools) {
                assert forall|v: int| 0 <= v < after.ints.len() implies (
                #[trigger] after.ints[v]).has(ints(v)) by {
                    assert(before.ints[v].has(ints(v)));
                }
                assert forall|b: int| 0 <= b < after.bools.len() implies (
                #[trigger] after.bools[b] matches Some(val) ==> val == bools(b)) by {
                    assert(after.bools[b] == before.bools[b]);
                }
            }
        }
        if !(forall|x: int| #[trigger] before.ints[iv as int].has(x) ==> change.allows(x)) {
            assert forall|x: int| m.holds(x) == change.allows(x) by {
                match change {
                    ChangeRequest::SetUpperBound(i) => {
                        let x = choose|x: int| #[trigger] dom.has(x) && !change.allows(x);
                        assert(i < x <= dom.ub);
                    },
                    _ => {},
                }
            }
        }
        assert(after.narrows(before)) by {
            assert forall|v: int, x: int|
                0 <= v < after.ints.len() && #[trigger] after.ints[v].has(
                    x,
                ) implies before.ints[v].has(x) by {
                if v != iv {
                    assert(after.ints[v] == before.ints[v]);
                }
            }
            assert forall|b: int|
                0 <= b < after.bools.len() && (#[trigger] before.bools[b]) is Some implies
                after.bools[b] == before.bools[b] by {
                assert(after.bools@[b] == before.bools@[b]);
            }
        }
    } else {
        assert forall|ints: IntAssignment, bools: BoolAssignment|
            #[trigger] before.admits(ints, bools) implies !rule(ints, bools) by {
            assert(before.ints[iv as int].has(ints(iv as int)));
        }
        assert forall|x: int| m.holds(x) == change.allows(x) by {
            match change {
                ChangeRequest::SetUpperBound(i) => {
                    assert(!change.allows(dom.lb as int));
                },
                _ => {},
            }
        }
    }
}

} // verus!
