//! Literals and views of integer and Boolean decisions.

use vstd::prelude::*;

verus! {

/// The type of the values of integer decisions.
pub type IntVal = i64;

/// The largest absolute value that an integer decision can take.
pub const INT_LIMIT: IntVal = 0x1000_0000_0000_0000;

/// The meaning of a literal of an integer decision.
#[derive(Clone, Copy, Debug, PartialEq, Eq, Hash, Structural)]
pub enum IntLitMeaning {
    /// The decision equals the value.
    Eq(IntVal),
    /// The decision differs from the value.
    NotEq(IntVal),
    /// The decision is at least the value.
    GreaterEq(IntVal),
    /// The decision is less than the value.
    Less(IntVal),
}

impl IntLitMeaning {
    /// Whether the literal holds when the decision takes the value `x`.
    pub open spec fn holds(self, x: int) -> bool {
        match self {
            IntLitMeaning::Eq(v) => x == v,
            IntLitMeaning::NotEq(v) => x != v,
            IntLitMeaning::GreaterEq(v) => x >= v,
            IntLitMeaning::Less(v) => x < v,
        }
    }

    /// The meaning of the negated literal.
    pub open spec fn spec_negate(self) -> IntLitMeaning {
        match self {
            IntLitMeaning::Eq(v) => IntLitMeaning::NotEq(v),
            IntLitMeaning::NotEq(v) => IntLitMeaning::Eq(v),
            IntLitMeaning::GreaterEq(v) => IntLitMeaning::Less(v),
            IntLitMeaning::Less(v) => IntLitMeaning::GreaterEq(v),
        }
    }

    /// The meaning of the negated literal.
    #[verifier::when_used_as_spec(spec_negate)]
    pub fn negate(self) -> (r: IntLitMeaning)
        ensures
            r == self.negate(),
            forall|x: int| #[trigger] r.holds(x) == !self.holds(x),
    {
        match self {
            IntLitMeaning::Eq(v) => IntLitMeaning::NotEq(v),
            IntLitMeaning::NotEq(v) => IntLitMeaning::Eq(v),
            IntLitMeaning::GreaterEq(v) => IntLitMeaning::Less(v),
            IntLitMeaning::Less(v) => IntLitMeaning::GreaterEq(v),
        }
    }
}

/// A literal: a Boolean decision or its negation.
#[derive(Clone, Copy, Debug, PartialEq, Eq, Hash, Structural)]
pub struct Lit {
    /// The Boolean decision.
    pub var: usize,
    /// Whether the literal is the negation of the decision.
    pub negated: bool,
}

/// A Boolean view: a constant, a literal, or a condition on an integer decision.
#[derive(Clone, Copy, Debug, PartialEq, Eq, Hash, Structural)]
pub enum BoolView {
    /// A constant.
    Const(bool),
    /// A literal of a Boolean decision.
    Lit(Lit),
    /// A literal of an integer decision.
    Int(usize, IntLitMeaning),
}

/// An assignment of the integer decisions.
pub type IntAssignment = spec_fn(int) -> int;

/// An assignment of the Boolean decisions.
pub type BoolAssignment = spec_fn(int) -> bool;

impl Lit {
    /// The value of the literal under an assignment.
    pub open spec fn holds(self, bools: BoolAssignment) -> bool {
        bools(self.var as int) != self.negated
    }

    /// The negation of the literal.
    pub open spec fn spec_negate(self) -> Lit {
        Lit { var: self.var, negated: !self.negated }
    }

    /// The negation of the literal.
    #[verifier::when_used_as_spec(spec_negate)]
    pub fn negate(self) -> (r: Lit)
        ensures
            r == self.negate(),
    {
        Lit { var: self.var, negated: !self.negated }
    }
}

impl BoolView {
    /// The value of the view under an assignment.
    pub open spec fn holds(self, ints: IntAssignment, bools: BoolAssignment) -> bool {
        match self {
            BoolView::Const(b) => b,
            BoolView::Lit(l) => l.holds(bools),
            BoolView::Int(v, m) => m.holds(ints(v as int)),
        }
    }

    /// The negation of the view.
    pub open spec fn spec_negate(self) -> BoolView {
        match self {
            BoolView::Const(b) => BoolView::Const(!b),
            BoolView::Lit(l) => BoolView::Lit(l.negate()),
            BoolView::Int(v, m) => BoolView::Int(v, m.negate()),
        }
    }

    /// The negation of the view.
    #[verifier::when_used_as_spec(spec_negate)]
    pub fn negate(self) -> (r: BoolView)
        ensures
            r == self.negate(),
            forall|ints: IntAssignment, bools: BoolAssignment| #[trigger]
                r.holds(ints, bools) == !self.holds(ints, bools),
    {
        match self {
            BoolView::Const(b) => BoolView::Const(!b),
            BoolView::Lit(l) => BoolView::Lit(l.negate()),
            BoolView::Int(v, m) => BoolView::Int(v, m.negate()),
        }
    }
}

/// Whether every view of the sequence holds under the assignment.
pub open spec fn all_hold(
    views: Seq<BoolView>,
    ints: IntAssignment,
    bools: BoolAssignment,
) -> bool {
    forall|i: int| 0 <= i < views.len() ==> (#[trigger] views[i]).holds(ints, bools)
}


/// An integer view: a constant, or a linear expression of one decision.
#[derive(Clone, Copy, Debug, PartialEq, Eq, Hash, Structural)]
pub enum IntView {
    /// A constant.
    Const(IntVal),
    /// `scale * var + offset` for an integer decision.
    Linear {
        /// The integer decision.
        var: usize,
        /// The factor, which is not zero.
        scale: IntVal,
        /// The summand.
        offset: IntVal,
    },
    /// `scale * lit + offset`, where a literal that holds counts as one.
    Bool {
        /// The literal.
        lit: Lit,
        /// The factor, which is not zero.
        scale: IntVal,
        /// The summand.
        offset: IntVal,
    },
}

impl IntView {
    /// The value of the view under an assignment.
    pub open spec fn eval(self, ints: IntAssignment, bools: BoolAssignment) -> int {
        match self {
            IntView::Const(v) => v as int,
            IntView::Linear { var, scale, offset } => scale * ints(var as int) + offset,
            IntView::Bool { lit, scale, offset } => if lit.holds(bools) {
                scale + offset
            } else {
                offset as int
            },
        }
    }

    /// The view of an integer decision itself.
    pub open spec fn spec_decision(var: usize) -> IntView {
        IntView::Linear { var, scale: 1, offset: 0 }
    }

    /// The view of an integer decision itself.
    #[verifier::when_used_as_spec(spec_decision)]
    pub fn decision(var: usize) -> (r: IntView)
        ensures
            r == IntView::decision(var),
    {
        IntView::Linear { var, scale: 1, offset: 0 }
    }

    /// Whether the view can be an end of a difference literal: a linear view with factor one.
    pub open spec fn spec_is_diff_lit_endpoint(&self) -> bool {
        match *self {
            IntView::Linear { scale, .. } => scale == 1,
            _ => false,
        }
    }

    /// Whether the view can be an end of a difference literal: a linear view with factor one.
    #[verifier::when_used_as_spec(spec_is_diff_lit_endpoint)]
    pub fn is_diff_lit_endpoint(&self) -> (r: bool)
        ensures
            r == self.is_diff_lit_endpoint(),
    {
        match self {
            IntView::Linear { scale, .. } => *scale == 1,
            _ => false,
        }
    }
}

/// The views that can be ends of difference literals are those that differ from a decision by a
/// constant, whatever the constant is.
pub proof fn lemma_endpoint_meaning(view: IntView)
    ensures
        view.is_diff_lit_endpoint() <==> exists|var: int, c: int| #[trigger]
            shifts(view, var, c),
{
    if view.is_diff_lit_endpoint() {
        let (var, c) = (view->Linear_var as int, view->Linear_offset as int);
        assert(shifts(view, var, c)) by {
            assert forall|ints: IntAssignment, bools: BoolAssignment| #[trigger]
                view.eval(ints, bools) == ints(var) + c by {
                assert(1 * ints(var) == ints(var));
            }
        }
    }
    if exists|var: int, c: int| #[trigger] shifts(view, var, c) {
        let (var, c) = choose|var: int, c: int| #[trigger] shifts(view, var, c);
        let zero: IntAssignment = |v: int| 0;
        let one: IntAssignment = |v: int| 1;
        let bools: BoolAssignment = |b: int| false;
        assert(view.eval(zero, bools) == zero(var) + c);
        assert(view.eval(one, bools) == one(var) + c);
        if let IntView::Linear { var: w, scale, offset } = view {
            assert(scale * zero(w as int) == 0 && scale * one(w as int) == scale);
        }
    }
}

/// Whether the view is the decision plus the constant.
pub open spec fn shifts(view: IntView, var: int, c: int) -> bool {
    forall|ints: IntAssignment, bools: BoolAssignment| #[trigger]
        view.eval(ints, bools) == ints(var) + c
}

} // verus!
