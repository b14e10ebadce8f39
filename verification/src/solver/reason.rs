//! Reasons for propagation, and the conflicts that propagation runs into.

use vstd::prelude::*;

use crate::solver::view::{all_hold, BoolAssignment, BoolView, IntAssignment};

verus! {

/// A reason that a propagator builds when it is asked for.
#[derive(Clone, Copy, Debug, PartialEq, Eq, Hash, Structural)]
pub struct DeferredReason {
    /// Index of the propagator.
    pub propagator: usize,
    /// Data by which the propagator rebuilds the reason.
    pub data: u64,
}

/// Why a literal was propagated.
#[derive(Debug, PartialEq, Eq)]
pub enum Reason {
    /// The conjunction of some literals.
    Eager(Vec<BoolView>),
    /// A conjunction that is not yet known.
    Lazy(DeferredReason),
    /// A single literal.
    Simple(BoolView),
}

/// What a propagator gives as the reason of a propagation.
#[derive(Debug, PartialEq, Eq)]
pub enum ReasonBuilder {
    /// A conjunction of literals.
    Atoms(Vec<BoolView>),
    /// A reason that is built later.
    Deferred(DeferredReason),
}

/// A reason, or the constant that it amounts to.
pub type BuiltReason = Result<Reason, bool>;

/// The views that are not the constant `true`.
pub open spec fn informative(views: Seq<BoolView>) -> Seq<BoolView> {
    views.filter(|b: BoolView| b != BoolView::Const(true))
}

proof fn lemma_informative_from(views: Seq<BoolView>, k: int)
    requires
        0 <= k < informative(views).len(),
    ensures
        views.contains(informative(views)[k]),
    decreases views.len(),
{
    reveal(Seq::filter);
    if views.len() > 0 {
        let rest = views.drop_last();
        if k < informative(rest).len() {
            lemma_informative_from(rest, k);
            let i = choose|i: int| 0 <= i < rest.len() && rest[i] == informative(rest)[k];
            assert(views[i] == informative(views)[k]);
        } else {
            assert(views[views.len() - 1] == informative(views)[k]);
        }
    }
}

impl ReasonBuilder {
    /// The reason that is built: constants that hold are left out, and a conjunction that is
    /// left empty or holds a false constant is a constant itself.
    pub open spec fn builds(self, r: BuiltReason) -> bool {
        match self {
            ReasonBuilder::Deferred(d) => r == Ok::<Reason, bool>(Reason::Lazy(d)),
            ReasonBuilder::Atoms(views) => {
                let left = informative(views@);
                if views@.contains(BoolView::Const(false)) {
                    r == Err::<Reason, bool>(false)
                } else if left.len() == 0 {
                    r == Err::<Reason, bool>(true)
                } else if left.len() == 1 {
                    r == Ok::<Reason, bool>(Reason::Simple(left[0]))
                } else {
                    r matches Ok(Reason::Eager(v)) && v@ == left
                }
            },
        }
    }

    /// Whether what the reason builds on holds; of a deferred reason nothing is known.
    pub open spec fn holds(self, ints: IntAssignment, bools: BoolAssignment) -> bool {
        match self {
            ReasonBuilder::Deferred(_) => true,
            ReasonBuilder::Atoms(views) => all_hold(views@, ints, bools),
        }
    }

    /// Build the reason.
    pub fn build_reason(self) -> (r: BuiltReason)
        ensures
            self.builds(r),
    {
        match self {
            ReasonBuilder::Deferred(d) => Ok(Reason::Lazy(d)),
            ReasonBuilder::Atoms(views) => Reason::from_view(&views),
        }
    }
}

impl Reason {
    /// Build the reason that is the conjunction of the views.
    pub fn from_view(views: &Vec<BoolView>) -> (r: BuiltReason)
        ensures
            ReasonBuilder::Atoms(*views).builds(r),
    {
        let mut left: Vec<BoolView> = Vec::new();
        let mut i: usize = 0;
        while i < views.len()
            invariant
                i <= views.len(),
                left@ == informative(views@.take(i as int)),
                forall|k: int| 0 <= k < i ==> #[trigger] views[k] != BoolView::Const(false),
            decreases views.len() - i,
        {
            let b: BoolView = views[i];
            proof {
                assert(views@.take(i + 1) == views@.take(i as int).push(b));
                reveal(Seq::filter);
                assert(views@.take(i + 1).drop_last() == views@.take(i as int));
            }
            match b {
                BoolView::Const(true) => {},
                BoolView::Const(false) => {
                    assert(views@[i as int] == BoolView::Const(false));
                    return Err(false);
                },
                _ => {
                    left.push(b);
                },
            }
            i = i + 1;
        }
        assert(views@.take(i as int) == views@);
        if left.len() == 0 {
            Err(true)
        } else if left.len() == 1 {
            Ok(Reason::Simple(left[0]))
        } else {
            Ok(Reason::Eager(left))
        }
    }
}

/// Whether the antecedent of a built reason holds; of a lazy reason nothing is known.
pub open spec fn antecedent(r: BuiltReason, ints: IntAssignment, bools: BoolAssignment) -> bool {
    match r {
        Err(b) => b,
        Ok(Reason::Simple(l)) => l.holds(ints, bools),
        Ok(Reason::Eager(v)) => all_hold(v@, ints, bools),
        Ok(Reason::Lazy(_)) => true,
    }
}

/// A built reason holds exactly where the views it was built from hold.
pub proof fn lemma_built_reason_equivalent(
    builder: ReasonBuilder,
    r: BuiltReason,
    ints: IntAssignment,
    bools: BoolAssignment,
)
    requires
        builder.builds(r),
    ensures
        antecedent(r, ints, bools) == builder.holds(ints, bools),
{
    match builder {
        ReasonBuilder::Deferred(_) => {},
        ReasonBuilder::Atoms(views) => {
            let keep = |b: BoolView| b != BoolView::Const(true);
            let left = informative(views@);
            broadcast use vstd::seq_lib::group_filter_ensures;

            assert(all_hold(views@, ints, bools) == all_hold(left, ints, bools)) by {
                if all_hold(left, ints, bools) {
                    assert forall|i: int| 0 <= i < views@.len() implies (#[trigger] views@[i]).holds(
                        ints,
                        bools,
                    ) by {
                        if keep(views@[i]) {
                            assert(left.contains(views@[i]));
                            let k = choose|k: int| 0 <= k < left.len() && left[k] == views@[i];
                            assert(left[k].holds(ints, bools));
                        }
                    }
                }
                if all_hold(views@, ints, bools) {
                    assert forall|k: int| 0 <= k < left.len() implies (#[trigger] left[k]).holds(
                        ints,
                        bools,
                    ) by {
                        lemma_informative_from(views@, k);
                        let i = choose|i: int| 0 <= i < views@.len() && views@[i] == left[k];
                        assert(views@[i].holds(ints, bools));
                    }
                }
            }
            if views@.contains(BoolView::Const(false)) {
                let i = choose|i: int|
                    0 <= i < views@.len() && views@[i] == BoolView::Const(false);
                assert(!views@[i].holds(ints, bools));
            } else if left.len() == 1 {
                assert(all_hold(left, ints, bools) == left[0].holds(ints, bools)) by {
                    if left[0].holds(ints, bools) {
                        assert forall|k: int| 0 <= k < left.len() implies (
                        #[trigger] left[k]).holds(ints, bools) by {
                            assert(k == 0);
                        }
                    }
                }
            }
        },
    }
}

/// What a propagator found to be impossible.
#[derive(Debug, PartialEq, Eq)]
pub struct Conflict {
    /// The literal that could not be made to hold, if it was one.
    pub subject: Option<BoolView>,
    /// Why the literal had to hold, or what is impossible by itself.
    pub reason: BuiltReason,
}

impl Conflict {
    /// Whether the conflict is that of a literal, or of nothing, with the reason.
    pub open spec fn is_of(self, subject: Option<BoolView>, reason: ReasonBuilder) -> bool {
        self.subject == subject && reason.builds(self.reason)
    }

    /// Create the conflict of a literal, or of nothing, with the reason.
    pub fn new(subject: Option<BoolView>, reason: ReasonBuilder) -> (r: Conflict)
        ensures
            r.is_of(subject, reason),
    {
        Conflict { subject, reason: reason.build_reason() }
    }
}

} // verus!
