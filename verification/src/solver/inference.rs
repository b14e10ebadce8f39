//! What it means that a propagator infers consequences of a rule.

use vstd::prelude::*;

use crate::solver::reason::{
    antecedent, lemma_built_reason_equivalent, Conflict, DeferredReason, ReasonBuilder,
};
use crate::solver::solving_context::{
    accounted, subject_holds, Deferral, Rule, SolvingContext,
};
use crate::solver::view::{BoolAssignment, BoolView, IntAssignment};

verus! {

/// No reason is built later.
pub open spec fn none_later() -> Deferral {
    |subject: Option<BoolView>, d: DeferredReason| false
}

impl Conflict {
    /// Whether the subject follows from the reason by the rule, or, without a subject, the
    /// reason is impossible.
    pub open spec fn explained(self, rule: Rule) -> bool {
        accounted(self.subject, self.reason, rule, none_later())
    }

    /// Whether the reason holds in the context, and the subject does not.
    pub open spec fn grounded(self, ctx: &SolvingContext) -> bool {
        forall|ints: IntAssignment, bools: BoolAssignment|
            #[trigger] ctx.admits(ints, bools) ==> antecedent(self.reason, ints, bools) && (
            self.subject matches Some(lit) ==> !lit.holds(ints, bools))
    }
}

impl SolvingContext {
    /// Whether the reasons of the consequences after the first `from` hold in the context.
    pub open spec fn grounded_since(&self, from: int) -> bool {
        forall|k: int, ints: IntAssignment, bools: BoolAssignment|
            from <= k < self.propagation_queue.len() && #[trigger] self.admits(ints, bools)
                ==> antecedent((#[trigger] self.propagation_queue[k]).reason, ints, bools)
    }

    /// Whether this context was derived from the other one by inferences of the rule.
    ///
    /// No assignment that keeps the rule is lost, every consequence follows from its reason by
    /// the rule, and the reasons hold. A conflict is returned only if no assignment keeps the
    /// rule.
    pub open spec fn infers(
        &self,
        before: &SolvingContext,
        rule: Rule,
        r: Result<(), Conflict>,
    ) -> bool {
        self.infers_later(before, rule, none_later(), r)
    }

    /// Whether this context was derived from the other one by inferences of the rule, where some
    /// of the reasons are built later, and then what is to be known of them holds.
    pub open spec fn infers_later(
        &self,
        before: &SolvingContext,
        rule: Rule,
        later: Deferral,
        r: Result<(), Conflict>,
    ) -> bool {
        &&& self.wf()
        &&& self.grows(before)
        &&& self.narrows(before)
        &&& forall|ints: IntAssignment, bools: BoolAssignment|
            #[trigger] before.admits(ints, bools) && rule(ints, bools) ==> self.admits(ints, bools)
                && r is Ok
        &&& self.accounted_since(before.propagation_queue.len() as int, rule, later)
        &&& self.grounded_since(before.propagation_queue.len() as int)
        &&& r matches Err(conflict) ==> accounted(conflict.subject, conflict.reason, rule, later)
            && conflict.grounded(self)
    }
}

/// Doing nothing infers nothing.
pub proof fn lemma_infers_nothing(ctx: &SolvingContext, rule: Rule)
    requires
        ctx.wf(),
    ensures
        ctx.infers(ctx, rule, Ok(())),
{
    assert(ctx.propagation_queue@.take(ctx.propagation_queue.len() as int)
        == ctx.propagation_queue@);
}

/// More may be known of the reasons that are built later.
pub proof fn lemma_infers_weaken(
    before: &SolvingContext,
    after: &SolvingContext,
    rule: Rule,
    known: Deferral,
    later: Deferral,
    r: Result<(), Conflict>,
)
    requires
        after.infers_later(before, rule, known, r),
        forall|subject: Option<BoolView>, d: DeferredReason| #[trigger]
            known(subject, d) ==> later(subject, d),
    ensures
        after.infers_later(before, rule, later, r),
{
    assert forall|k: int|
        before.propagation_queue.len() <= k < after.propagation_queue.len() implies accounted(
        Some((#[trigger] after.propagation_queue[k]).lit),
        after.propagation_queue[k].reason,
        rule,
        later,
    ) by {
        assert(accounted(
            Some(after.propagation_queue[k].lit),
            after.propagation_queue[k].reason,
            rule,
            known,
        ));
    }
}

/// An assignment of a narrower context is one of the wider context.
pub proof fn lemma_narrows_admits(
    after: &SolvingContext,
    before: &SolvingContext,
    ints: IntAssignment,
    bools: BoolAssignment,
)
    requires
        after.grows(before),
        after.narrows(before),
        after.admits(ints, bools),
    ensures
        before.admits(ints, bools),
{
    assert forall|v: int| 0 <= v < before.ints.len() implies (#[trigger] before.ints[v]).has(
        ints(v),
    ) by {
        assert(after.ints[v].has(ints(v)));
    }
    assert forall|b: int| 0 <= b < before.bools.len() implies (
    #[trigger] before.bools[b] matches Some(val) ==> val == bools(b)) by {
        if before.bools[b] is Some {
            assert(after.bools[b] == before.bools[b]);
        }
    }
}

/// Whether the subject holds exactly where the rule is kept.
pub open spec fn tells(subject: Option<BoolView>, rule: Rule) -> bool {
    forall|ints: IntAssignment, bools: BoolAssignment| #[trigger]
        subject_holds(subject, ints, bools) == rule(ints, bools)
}

/// Inferences can follow one another.
pub proof fn lemma_infers_step(
    before: &SolvingContext,
    mid: &SolvingContext,
    after: &SolvingContext,
    rule: Rule,
    step: Rule,
    reason: ReasonBuilder,
    r: Result<(), Conflict>,
)
    requires
        before.wf(),
        mid.infers(before, rule, Ok(())),
        after.restricts(mid, step, reason, r),
        reason is Atoms,
        forall|ints: IntAssignment, bools: BoolAssignment|
            #[trigger] rule(ints, bools) && reason.holds(ints, bools) ==> step(ints, bools),
        forall|ints: IntAssignment, bools: BoolAssignment|
            #[trigger] mid.admits(ints, bools) ==> reason.holds(ints, bools),
    ensures
        after.infers(before, rule, r),
        after.trail == mid.trail,
{
    lemma_infers_later_step(before, mid, after, rule, none_later(), step, reason, r);
}

/// Inferences with reasons that are built later can follow one another.
pub proof fn lemma_infers_later_step(
    before: &SolvingContext,
    mid: &SolvingContext,
    after: &SolvingContext,
    rule: Rule,
    later: Deferral,
    step: Rule,
    reason: ReasonBuilder,
    r: Result<(), Conflict>,
)
    requires
        before.wf(),
        mid.infers_later(before, rule, later, Ok(())),
        after.restricts(mid, step, reason, r),
        match reason {
            ReasonBuilder::Atoms(_) => forall|ints: IntAssignment, bools: BoolAssignment|
                #[trigger] rule(ints, bools) && reason.holds(ints, bools) ==> step(ints, bools),
            ReasonBuilder::Deferred(d) => {
                &&& forall|ints: IntAssignment, bools: BoolAssignment|
                    #[trigger] mid.admits(ints, bools) && rule(ints, bools) ==> step(ints, bools)
                &&& forall|subject: Option<BoolView>| #[trigger]
                    tells(subject, step) ==> later(subject, d)
            },
        },
        forall|ints: IntAssignment, bools: BoolAssignment|
            #[trigger] mid.admits(ints, bools) ==> reason.holds(ints, bools),
    ensures
        after.infers_later(before, rule, later, r),
        after.trail == mid.trail,
{
    let n0 = before.propagation_queue.len() as int;
    let n1 = mid.propagation_queue.len() as int;
    assert(after.wf());
    assert(mid.propagation_queue@.take(n1) == mid.propagation_queue@);
    assert(after.grows(mid));
    assert(after.propagation_queue@.take(n0) == before.propagation_queue@) by {
        assert(after.propagation_queue@.take(n1).take(n0) == after.propagation_queue@.take(n0));
    }
    assert(after.narrows(mid));
    assert(after.narrows(before)) by {
        assert forall|v: int, x: int|
            0 <= v < after.ints.len() && #[trigger] after.ints[v].has(
                x,
            ) implies before.ints[v].has(x) by {
            assert(mid.ints[v].has(x));
        }
        assert forall|b: int|
            0 <= b < after.bools.len() && (#[trigger] before.bools[b]) is Some implies
            after.bools[b] == before.bools[b] by {
            assert(mid.bools[b] == before.bools[b]);
        }
    }
    assert forall|ints: IntAssignment, bools: BoolAssignment|
        #[trigger] before.admits(ints, bools) && rule(ints, bools) implies after.admits(
        ints,
        bools,
    ) && r is Ok by {
        assert(mid.admits(ints, bools));
        assert(step(ints, bools));
    }
    assert forall|k: int| n0 <= k < after.propagation_queue.len() implies accounted(
        Some((#[trigger] after.propagation_queue[k]).lit),
        after.propagation_queue[k].reason,
        rule,
        later,
    ) by {
        if k < n1 {
            assert(after.propagation_queue@.take(n1)[k] == mid.propagation_queue[k]);
            assert(accounted(
                Some(mid.propagation_queue[k].lit),
                mid.propagation_queue[k].reason,
                rule,
                later,
            ));
        } else {
            let last = after.propagation_queue@.last();
            assert(after.propagation_queue[k] == last);
            let subject = Some(last.lit);
            assert forall|ints: IntAssignment, bools: BoolAssignment| #[trigger]
                subject_holds(subject, ints, bools) == step(ints, bools) by {
                assert(last.lit.holds(ints, bools) == step(ints, bools));
            }
            if reason is Atoms {
                assert forall|ints: IntAssignment, bools: BoolAssignment|
                    #[trigger] rule(ints, bools) && antecedent(
                        last.reason,
                        ints,
                        bools,
                    ) implies subject_holds(subject, ints, bools) by {
                    lemma_built_reason_equivalent(reason, last.reason, ints, bools);
                }
            } else {
                assert(tells(subject, step));
            }
        }
    }
    assert forall|k: int, ints: IntAssignment, bools: BoolAssignment|
        n0 <= k < after.propagation_queue.len() && #[trigger] after.admits(ints, bools) implies
        antecedent((#[trigger] after.propagation_queue[k]).reason, ints, bools) by {
        lemma_narrows_admits(after, mid, ints, bools);
        if k < n1 {
            assert(after.propagation_queue@.take(n1)[k] == mid.propagation_queue[k]);
        } else {
            let last = after.propagation_queue@.last();
            assert(after.propagation_queue[k] == last);
            lemma_built_reason_equivalent(reason, last.reason, ints, bools);
        }
    }
    if let Err(conflict) = r {
        assert forall|ints: IntAssignment, bools: BoolAssignment| #[trigger]
            subject_holds(conflict.subject, ints, bools) == step(ints, bools) by {
            if let Some(lit) = conflict.subject {
                assert(lit.holds(ints, bools) == step(ints, bools));
            }
        }
        if reason is Atoms {
            assert forall|ints: IntAssignment, bools: BoolAssignment|
                #[trigger] rule(ints, bools) && antecedent(
                    conflict.reason,
                    ints,
                    bools,
                ) implies subject_holds(conflict.subject, ints, bools) by {
                lemma_built_reason_equivalent(reason, conflict.reason, ints, bools);
                assert(step(ints, bools));
            }
        } else {
            assert(tells(conflict.subject, step));
        }
        assert forall|ints: IntAssignment, bools: BoolAssignment|
            #[trigger] after.admits(ints, bools) implies antecedent(
            conflict.reason,
            ints,
            bools,
        ) && (conflict.subject matches Some(lit) ==> !lit.holds(ints, bools)) by {
            lemma_built_reason_equivalent(reason, conflict.reason, ints, bools);
        }
    }
}


/// Inferences of the same rule can be joined.
pub proof fn lemma_infers_join(
    before: &SolvingContext,
    mid: &SolvingContext,
    after: &SolvingContext,
    rule: Rule,
    r: Result<(), Conflict>,
)
    requires
        before.wf(),
        mid.infers(before, rule, Ok(())),
        after.infers(mid, rule, r),
    ensures
        after.infers(before, rule, r),
{
    lemma_infers_later_join(before, mid, after, rule, none_later(), r);
}

/// Inferences of the same rule with reasons that are built later can be joined.
pub proof fn lemma_infers_later_join(
    before: &SolvingContext,
    mid: &SolvingContext,
    after: &SolvingContext,
    rule: Rule,
    later: Deferral,
    r: Result<(), Conflict>,
)
    requires
        before.wf(),
        mid.infers_later(before, rule, later, Ok(())),
        after.infers_later(mid, rule, later, r),
    ensures
        after.infers_later(before, rule, later, r),
{
    let n0 = before.propagation_queue.len() as int;
    let n1 = mid.propagation_queue.len() as int;
    assert(after.propagation_queue@.take(n0) == before.propagation_queue@) by {
        assert(after.propagation_queue@.take(n1).take(n0) == after.propagation_queue@.take(n0));
    }
    assert(after.narrows(before)) by {
        assert forall|v: int, x: int|
            0 <= v < after.ints.len() && #[trigger] after.ints[v].has(
                x,
            ) implies before.ints[v].has(x) by {
            assert(mid.ints[v].has(x));
        }
        assert forall|b: int|
            0 <= b < after.bools.len() && (#[trigger] before.bools[b]) is Some implies
            after.bools[b] == before.bools[b] by {
            assert(mid.bools[b] == before.bools[b]);
        }
    }
    assert forall|ints: IntAssignment, bools: BoolAssignment|
        #[trigger] before.admits(ints, bools) && rule(ints, bools) implies after.admits(
        ints,
        bools,
    ) && r is Ok by {
        assert(mid.admits(ints, bools));
    }
    assert forall|k: int| n0 <= k < after.propagation_queue.len() implies accounted(
        Some((#[trigger] after.propagation_queue[k]).lit),
        after.propagation_queue[k].reason,
        rule,
        later,
    ) by {
        if k < n1 {
            assert(after.propagation_queue@.take(n1)[k] == mid.propagation_queue[k]);
            assert(accounted(
                Some(mid.propagation_queue[k].lit),
                mid.propagation_queue[k].reason,
                rule,
                later,
            ));
        }
    }
    assert forall|k: int, ints: IntAssignment, bools: BoolAssignment|
        n0 <= k < after.propagation_queue.len() && #[trigger] after.admits(ints, bools) implies
        antecedent((#[trigger] after.propagation_queue[k]).reason, ints, bools) by {
        lemma_narrows_admits(after, mid, ints, bools);
        if k < n1 {
            assert(after.propagation_queue@.take(n1)[k] == mid.propagation_queue[k]);
        }
    }
}

impl SolvingContext {
    /// Whether the domains are met on the way from the first ones to the last ones.
    pub open spec fn between(&self, first: &SolvingContext, last: &SolvingContext) -> bool {
        self.grows(first) && self.narrows(first) && last.grows(self) && last.narrows(self)
    }
}

/// Domains that get narrower twice are narrower.
pub proof fn lemma_narrows_later(a: &SolvingContext, b: &SolvingContext, c: &SolvingContext)
    requires
        b.grows(a),
        b.narrows(a),
        c.grows(b),
        c.narrows(b),
    ensures
        c.grows(a),
        c.narrows(a),
{
    let n0 = a.propagation_queue.len() as int;
    let n1 = b.propagation_queue.len() as int;
    assert(c.propagation_queue@.take(n1).take(n0) =~= c.propagation_queue@.take(n0));
    assert forall|v: int, x: int|
        0 <= v < c.ints.len() && #[trigger] c.ints[v].has(x) implies a.ints[v].has(x) by {
        assert(b.ints[v].has(x));
    }
    assert forall|k: int|
        0 <= k < c.bools.len() && (#[trigger] a.bools[k]) is Some implies c.bools[k]
        == a.bools[k] by {
        assert(b.bools[k] == a.bools[k]);
    }
}

} // verus!
