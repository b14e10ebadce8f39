//! What a propagator asks for when it is added to the engine.

use vstd::prelude::*;

use crate::solver::solving_context::{IntEvent, IntPropCond};
use crate::solver::view::{BoolView, IntView};

verus! {

/// The order in which scheduled propagators are run.
#[derive(Clone, Copy, Debug, PartialEq, Eq, Hash, Structural)]
pub enum PriorityLevel {
    /// Run after the others.
    Low,
    /// Run in between.
    Medium,
    /// Run before the others.
    High,
}

impl PriorityLevel {
    /// The place of the level among the others: propagators of a larger one are run first.
    pub open spec fn spec_rank(self) -> int {
        match self {
            PriorityLevel::Low => 0,
            PriorityLevel::Medium => 1,
            PriorityLevel::High => 2,
        }
    }

    /// The place of the level among the others.
    pub fn rank(self) -> (r: u8)
        ensures
            r == self.spec_rank(),
    {
        match self {
            PriorityLevel::Low => 0,
            PriorityLevel::Medium => 1,
            PriorityLevel::High => 2,
        }
    }
}

/// The levels are in order: what has a high priority comes before what has a medium one, and that
/// before what has a low one.
pub proof fn lemma_levels_ordered()
    ensures
        PriorityLevel::Low.spec_rank() < PriorityLevel::Medium.spec_rank(),
        PriorityLevel::Medium.spec_rank() < PriorityLevel::High.spec_rank(),
{
}

/// A view whose changes schedule the propagator.
#[derive(Clone, Copy, Debug, PartialEq, Eq, Hash, Structural)]
pub struct IntTrigger {
    /// The view.
    pub view: IntView,
    /// The changes that count.
    pub cond: IntPropCond,
}

/// A view whose changes are reported to the propagator.
#[derive(Clone, Copy, Debug, PartialEq, Eq, Hash, Structural)]
pub struct IntAdvice {
    /// The view.
    pub view: IntView,
    /// The changes that count.
    pub cond: IntPropCond,
    /// Data that is reported with the change.
    pub data: u64,
}

/// A Boolean view that is reported to the propagator once it is fixed.
#[derive(Clone, Copy, Debug, PartialEq, Eq, Hash, Structural)]
pub struct BoolAdvice {
    /// The view.
    pub view: BoolView,
    /// Data that is reported with the change.
    pub data: u64,
}

/// The requests of a propagator.
#[derive(Debug, PartialEq, Eq)]
pub struct InitializationContext {
    /// The priority of the propagator.
    pub priority: PriorityLevel,
    /// Whether the propagator is to be run at once.
    pub enqueue: bool,
    /// Whether the propagator is told when the search backtracks.
    pub backtrack: bool,
    /// The views that schedule the propagator.
    pub triggers: Vec<IntTrigger>,
    /// The integer views that are reported.
    pub int_advice: Vec<IntAdvice>,
    /// The Boolean views that are reported.
    pub bool_advice: Vec<BoolAdvice>,
}

impl InitializationContext {
    /// No requests.
    pub fn new() -> (r: InitializationContext)
        ensures
            r.priority == PriorityLevel::Medium,
            !r.enqueue,
            !r.backtrack,
            r.triggers@ == Seq::<IntTrigger>::empty(),
            r.int_advice@ == Seq::<IntAdvice>::empty(),
            r.bool_advice@ == Seq::<BoolAdvice>::empty(),
    {
        InitializationContext {
            priority: PriorityLevel::Medium,
            enqueue: false,
            backtrack: false,
            triggers: Vec::new(),
            int_advice: Vec::new(),
            bool_advice: Vec::new(),
        }
    }
}

/// A propagator that is told when a Boolean decision is fixed.
#[derive(Clone, Copy, Debug, PartialEq, Eq, Hash, Structural)]
pub struct BoolSubscriber {
    /// The Boolean decision.
    pub var: usize,
    /// Index of the propagator.
    pub prop_ref: usize,
    /// Data that is reported with the change.
    pub data: u32,
}

/// A propagator that is told when an integer decision changes.
#[derive(Clone, Copy, Debug, PartialEq, Eq, Hash, Structural)]
pub struct IntSubscriber {
    /// The integer decision.
    pub var: usize,
    /// Index of the propagator.
    pub prop_ref: usize,
    /// The changes that count.
    pub event: IntEvent,
    /// Data that is reported with the change.
    pub data: u32,
}

/// The subscriptions of a propagator that is being added.
#[derive(Debug, PartialEq, Eq)]
pub struct InitializationActions {
    /// Index of the propagator.
    pub prop_ref: usize,
    /// The Boolean decisions that are to be watched.
    pub observed: Vec<usize>,
    /// Who is told when Boolean decisions are fixed, earliest subscription first.
    pub bool_subscribers: Vec<BoolSubscriber>,
    /// Who is told when integer decisions change, earliest subscription first.
    pub int_subscribers: Vec<IntSubscriber>,
}

impl InitializationActions {
    /// Have the propagator told when the decision of a literal is fixed. Nothing is done for
    /// other views.
    pub fn subscribe_bool(&mut self, var: BoolView, data: u32)
        ensures
            final(self).prop_ref == old(self).prop_ref,
            final(self).int_subscribers == old(self).int_subscribers,
            match var {
                BoolView::Lit(lit) => {
                    &&& final(self).observed@ == old(self).observed@.push(lit.var)
                    &&& final(self).bool_subscribers@ == old(self).bool_subscribers@.push(
                        BoolSubscriber { var: lit.var, prop_ref: old(self).prop_ref, data },
                    )
                },
                _ => *final(self) == *old(self),
            },
    {
        match var {
            BoolView::Lit(lit) => {
                self.observed.push(lit.var);
                self.bool_subscribers.push(
                    BoolSubscriber { var: lit.var, prop_ref: self.prop_ref, data },
                );
            },
            _ => {},
        }
    }

    /// Have the propagator told when the decision of an integer view changes. Nothing is done
    /// for other views.
    pub fn subscribe_int(&mut self, var: IntView, event: IntEvent, data: u32)
        ensures
            final(self).prop_ref == old(self).prop_ref,
            final(self).observed == old(self).observed,
            final(self).bool_subscribers == old(self).bool_subscribers,
            match var {
                IntView::Linear { var: v, .. } => final(self).int_subscribers@
                    == old(self).int_subscribers@.push(
                    IntSubscriber { var: v, prop_ref: old(self).prop_ref, event, data },
                ),
                _ => *final(self) == *old(self),
            },
    {
        match var {
            IntView::Linear { var: v, .. } => {
                self.int_subscribers.push(
                    IntSubscriber { var: v, prop_ref: self.prop_ref, event, data },
                );
            },
            _ => {},
        }
    }
}

} // verus!
