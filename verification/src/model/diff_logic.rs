//! Collection of difference constraints `x - y <= d`, and their expansion into edges.

use vstd::prelude::*;

use crate::model::{clause_views, Model};
use crate::solver::reason::Conflict;
use crate::solver::view::{BoolAssignment, BoolView, IntAssignment, IntVal, IntView, Lit};

verus! {

/// The forms of a difference constraint.
#[derive(Clone, Copy, Debug, PartialEq, Eq, Hash, Structural)]
pub enum DifferenceLogicConstraint {
    /// A difference constraint `x - y <= d` that always holds.
    Global(IntView, IntView, IntVal),
    /// An implied difference constraint `b -> (x - y <= d)`.
    Implied(BoolView, IntView, IntView, IntVal),
    /// A reified difference constraint `b <-> (x - y <= d)`.
    Reified(BoolView, IntView, IntView, IntVal),
    /// An implied equality `b -> (x - y == d)`.
    ImpliedEquals(BoolView, IntView, IntView, IntVal),
    /// A disequality `x - y != d`.
    NotEquals(IntView, IntView, IntVal),
    /// An implied disequality `b -> (x - y != d)`.
    ImpliedNotEquals(BoolView, IntView, IntView, IntVal),
    /// A reified equality `b <-> (x - y == d)`.
    ReifiedEquals(BoolView, IntView, IntView, IntVal),
}

impl DifferenceLogicConstraint {
    /// Whether the assignment keeps the constraint.
    pub open spec fn holds(self, ints: IntAssignment, bools: BoolAssignment) -> bool {
        match self {
            DifferenceLogicConstraint::Global(x, y, d) => x.eval(ints, bools) - y.eval(ints, bools)
                <= d,
            DifferenceLogicConstraint::Implied(b, x, y, d) => b.holds(ints, bools) ==> x.eval(
                ints,
                bools,
            ) - y.eval(ints, bools) <= d,
            DifferenceLogicConstraint::Reified(b, x, y, d) => b.holds(ints, bools) == (x.eval(
                ints,
                bools,
            ) - y.eval(ints, bools) <= d),
            DifferenceLogicConstraint::ImpliedEquals(b, x, y, d) => b.holds(ints, bools)
                ==> x.eval(ints, bools) - y.eval(ints, bools) == d,
            DifferenceLogicConstraint::NotEquals(x, y, d) => x.eval(ints, bools) - y.eval(
                ints,
                bools,
            ) != d,
            DifferenceLogicConstraint::ImpliedNotEquals(b, x, y, d) => b.holds(ints, bools)
                ==> x.eval(ints, bools) - y.eval(ints, bools) != d,
            DifferenceLogicConstraint::ReifiedEquals(b, x, y, d) => b.holds(ints, bools) == (
            x.eval(ints, bools) - y.eval(ints, bools) == d),
        }
    }

    /// The least level at which a collection accepts the constraint: edges of existing
    /// Booleans at the first, pairs of them at the second, and those that need new Booleans at
    /// the third.
    pub open spec fn level(self) -> u8 {
        match self {
            DifferenceLogicConstraint::Global(_, _, _) => 1,
            DifferenceLogicConstraint::Implied(_, _, _, _) => 1,
            DifferenceLogicConstraint::Reified(_, _, _, _) => 1,
            DifferenceLogicConstraint::ImpliedEquals(_, _, _, _) => 2,
            DifferenceLogicConstraint::NotEquals(_, _, _) => 3,
            DifferenceLogicConstraint::ImpliedNotEquals(_, _, _, _) => 3,
            DifferenceLogicConstraint::ReifiedEquals(_, _, _, _) => 3,
        }
    }

    /// Whether the bounds of the edges of the constraint are in the range of values.
    pub open spec fn expandable(self) -> bool {
        match self {
            DifferenceLogicConstraint::Global(_, _, _) => true,
            DifferenceLogicConstraint::Implied(_, _, _, _) => true,
            DifferenceLogicConstraint::Reified(_, _, _, d) => d > IntVal::MIN,
            DifferenceLogicConstraint::ImpliedEquals(_, _, _, d) => d > IntVal::MIN,
            DifferenceLogicConstraint::NotEquals(_, _, d) => d > IntVal::MIN,
            DifferenceLogicConstraint::ImpliedNotEquals(_, _, _, d) => d > IntVal::MIN,
            DifferenceLogicConstraint::ReifiedEquals(_, _, _, d) => d > IntVal::MIN,
        }
    }
}

/// How difference constraints are processed.
#[derive(Clone, Copy, Debug, PartialEq, Eq, Hash, Structural)]
pub struct DifferenceLogicParameters {
    /// The forms of constraint that are accepted: higher levels accept more.
    pub level: u8,
    /// Whether the collected constraints are simplified.
    pub simplify: bool,
}

impl Default for DifferenceLogicParameters {
    fn default() -> (r: Self)
        ensures
            r == (DifferenceLogicParameters { level: 3, simplify: true }),
    {
        DifferenceLogicParameters { level: 3, simplify: true }
    }
}

/// A collection of difference constraints.
#[derive(Debug, PartialEq, Eq)]
pub struct DifferenceLogicCollection {
    parameters: DifferenceLogicParameters,
    raw_constraints: Vec<DifferenceLogicConstraint>,
}

impl View for DifferenceLogicCollection {
    type V = Seq<DifferenceLogicConstraint>;

    /// The constraints in the order in which they were added.
    closed spec fn view(&self) -> Seq<DifferenceLogicConstraint> {
        self.raw_constraints@
    }
}

impl Default for DifferenceLogicCollection {
    fn default() -> (r: Self)
        ensures
            r@ == Seq::<DifferenceLogicConstraint>::empty(),
            r.spec_parameters() == (DifferenceLogicParameters { level: 3, simplify: true }),
    {
        DifferenceLogicCollection {
            parameters: DifferenceLogicParameters::default(),
            raw_constraints: Vec::new(),
        }
    }
}

impl DifferenceLogicCollection {
    /// The parameters of this collection.
    pub closed spec fn spec_parameters(&self) -> DifferenceLogicParameters {
        self.parameters
    }

    /// The parameters of this collection.
    #[verifier::when_used_as_spec(spec_parameters)]
    pub fn parameters(&self) -> (r: DifferenceLogicParameters)
        ensures
            r == self.parameters(),
    {
        self.parameters
    }

    /// Change the parameters of this collection.
    pub fn set_parameters(&mut self, parameters: DifferenceLogicParameters)
        ensures
            final(self).parameters() == parameters,
            final(self)@ == old(self)@,
    {
        self.parameters = parameters;
    }

    /// Whether the collection holds no constraint.
    pub fn is_empty(&self) -> (r: bool)
        ensures
            r == (self@.len() == 0),
    {
        self.raw_constraints.len() == 0
    }

    /// The number of constraints in the collection.
    pub fn len(&self) -> (r: usize)
        ensures
            r == self@.len(),
    {
        self.raw_constraints.len()
    }

    /// Add a constraint if the level of the collection accepts it, and return whether it does.
    pub fn add(&mut self, constraint: DifferenceLogicConstraint) -> (r: bool)
        ensures
            r == (old(self).parameters().level >= constraint.level()),
            final(self).parameters() == old(self).parameters(),
            final(self)@ == if r {
                old(self)@.push(constraint)
            } else {
                old(self)@
            },
    {
        let accept: bool = match constraint {
            // Edges of existing Booleans.
            DifferenceLogicConstraint::Global(_, _, _)
            | DifferenceLogicConstraint::Implied(_, _, _, _)
            | DifferenceLogicConstraint::Reified(_, _, _, _) => self.parameters.level >= 1,
            // Pairs of edges of an existing Boolean.
            DifferenceLogicConstraint::ImpliedEquals(_, _, _, _) => self.parameters.level >= 2,
            // Disequalities, which need new Booleans and clauses.
            DifferenceLogicConstraint::NotEquals(_, _, _)
            | DifferenceLogicConstraint::ImpliedNotEquals(_, _, _, _)
            | DifferenceLogicConstraint::ReifiedEquals(_, _, _, _) => self.parameters.level >= 3,
        };
        if accept {
            self.raw_constraints.push(constraint);
        }
        accept
    }

    /// Take the constraints out of the collection.
    pub fn take_constraints(&mut self) -> (r: Vec<DifferenceLogicConstraint>)
        ensures
            r@ == old(self)@,
            final(self)@ == Seq::<DifferenceLogicConstraint>::empty(),
            final(self).parameters() == old(self).parameters(),
    {
        let mut r: Vec<DifferenceLogicConstraint> = Vec::new();
        r.append(&mut self.raw_constraints);
        assert(r@ =~= old(self)@);
        r
    }
}

/// An edge `x - y <= d`, which holds where its gate does.
#[derive(Clone, Copy, Debug, PartialEq, Eq, Hash, Structural)]
pub struct DiffEdge {
    /// The `x` of `x - y <= d`.
    pub x: IntView,
    /// The `y` of `x - y <= d`.
    pub y: IntView,
    /// The `d` of `x - y <= d`.
    pub d: IntVal,
    /// The gating view, if the edge has one.
    pub gate: Option<BoolView>,
}

impl DiffEdge {
    /// Whether the assignment keeps the edge.
    pub open spec fn holds(self, ints: IntAssignment, bools: BoolAssignment) -> bool {
        (self.gate matches Some(b) ==> b.holds(ints, bools)) ==> self.x.eval(ints, bools)
            - self.y.eval(ints, bools) <= self.d
    }
}

/// Whether the assignment makes a view of the clause hold.
pub open spec fn clause_holds(
    clause: Seq<BoolView>,
    ints: IntAssignment,
    bools: BoolAssignment,
) -> bool {
    exists|i: int| 0 <= i < clause.len() && (#[trigger] clause[i]).holds(ints, bools)
}

/// What constraints expand into.
pub struct Expansion {
    /// The edges.
    pub edges: Seq<DiffEdge>,
    /// The clauses.
    pub clauses: Seq<Seq<BoolView>>,
    /// The number of Boolean decisions, new ones included.
    pub bools: int,
}

/// The view of a Boolean decision.
pub open spec fn fresh(var: int) -> BoolView {
    BoolView::Lit(Lit { var: var as usize, negated: false })
}

/// The edges and clauses that state that `b` implies `x - y != d`: one of two new Booleans
/// holds where `b` does, at most one of them holds, and each is the gating view of one side.
pub open spec fn implied_not_equals(
    e: Expansion,
    b: BoolView,
    x: IntView,
    y: IntView,
    d: IntVal,
) -> Expansion {
    let c1 = fresh(e.bools);
    let c2 = fresh(e.bools + 1);
    Expansion {
        edges: e.edges.push(DiffEdge { x, y, d: (d - 1) as IntVal, gate: Some(c1) }).push(
            DiffEdge { x: y, y: x, d: (-d - 1) as IntVal, gate: Some(c2) },
        ),
        clauses: e.clauses.push(seq![b.negate(), c1, c2]).push(seq![c1.negate(), c2.negate()]),
        bools: e.bools + 2,
    }
}

/// What is added for one constraint.
pub open spec fn expand_one(e: Expansion, c: DifferenceLogicConstraint) -> Expansion {
    match c {
        DifferenceLogicConstraint::Global(x, y, d) => Expansion {
            edges: e.edges.push(DiffEdge { x, y, d, gate: None }),
            ..e
        },
        DifferenceLogicConstraint::Implied(b, x, y, d) => Expansion {
            edges: e.edges.push(DiffEdge { x, y, d, gate: Some(b) }),
            ..e
        },
        DifferenceLogicConstraint::Reified(b, x, y, d) => Expansion {
            edges: e.edges.push(DiffEdge { x, y, d, gate: Some(b) }).push(
                DiffEdge { x: y, y: x, d: (-d - 1) as IntVal, gate: Some(b.negate()) },
            ),
            ..e
        },
        DifferenceLogicConstraint::ImpliedEquals(b, x, y, d) => Expansion {
            edges: e.edges.push(DiffEdge { x, y, d, gate: Some(b) }).push(
                DiffEdge { x: y, y: x, d: (-d) as IntVal, gate: Some(b) },
            ),
            ..e
        },
        DifferenceLogicConstraint::NotEquals(x, y, d) => {
            let c = fresh(e.bools);
            Expansion {
                edges: e.edges.push(DiffEdge { x, y, d: (d - 1) as IntVal, gate: Some(c) }).push(
                    DiffEdge { x: y, y: x, d: (-d - 1) as IntVal, gate: Some(c.negate()) },
                ),
                clauses: e.clauses,
                bools: e.bools + 1,
            }
        },
        DifferenceLogicConstraint::ImpliedNotEquals(b, x, y, d) => implied_not_equals(
            e,
            b,
            x,
            y,
            d,
        ),
        DifferenceLogicConstraint::ReifiedEquals(b, x, y, d) => {
            let f = Expansion {
                edges: e.edges.push(DiffEdge { x, y, d, gate: Some(b) }).push(
                    DiffEdge { x: y, y: x, d: (-d) as IntVal, gate: Some(b) },
                ),
                ..e
            };
            implied_not_equals(f, b.negate(), x, y, d)
        },
    }
}

/// What the first `k` constraints expand into, in a model with the given clauses and number of
/// Boolean decisions.
pub open spec fn expansion(
    raw: Seq<DifferenceLogicConstraint>,
    k: int,
    clauses: Seq<Seq<BoolView>>,
    bools: int,
) -> Expansion
    decreases k,
{
    if k <= 0 {
        Expansion { edges: Seq::empty(), clauses, bools }
    } else {
        expand_one(expansion(raw, k - 1, clauses, bools), raw[k - 1])
    }
}


/// Expand the constraints into edges, and add the Boolean decisions and clauses that they need
/// to the model.
pub fn expand_collection(model: &mut Model, raw: Vec<DifferenceLogicConstraint>) -> (r: Result<
    Vec<DiffEdge>,
    Conflict,
>)
    requires
        old(model).wf(),
        forall|k: int| 0 <= k < raw.len() ==> (#[trigger] raw[k]).expandable(),
    ensures
        final(model).wf(),
        ({
            let e = expansion(
                raw@,
                raw.len() as int,
                clause_views(old(model).clauses@),
                old(model).ctx.bools.len() as int,
            );
            &&& r matches Ok(edges) && edges@ == e.edges
            &&& clause_views(final(model).clauses@) == e.clauses
            &&& final(model).ctx.bools.len() == e.bools
        }),
        forall|b: int|
            0 <= b < final(model).ctx.bools.len() ==> #[trigger] final(model).ctx.bools[b] == if b
                < old(model).ctx.bools.len() {
                old(model).ctx.bools[b]
            } else {
                None
            },
        final(model).ctx.ints == old(model).ctx.ints,
        final(model).diff_logic == old(model).diff_logic,
        final(model).linears == old(model).linears,
        final(model).aliases == old(model).aliases,
        final(model).equalities == old(model).equalities,
{
    let mut out: Vec<DiffEdge> = Vec::new();
    let ghost clauses0 = clause_views(model.clauses@);
    let ghost bools0 = model.ctx.bools.len() as int;
    let mut k: usize = 0;
    while k < raw.len()
        invariant
            k <= raw.len(),
            model.wf(),
            clauses0 == clause_views(old(model).clauses@),
            bools0 == old(model).ctx.bools.len(),
            forall|k: int| 0 <= k < raw.len() ==> (#[trigger] raw[k]).expandable(),
            out@ == expansion(raw@, k as int, clauses0, bools0).edges,
            clause_views(model.clauses@) == expansion(raw@, k as int, clauses0, bools0).clauses,
            model.ctx.bools.len() == expansion(raw@, k as int, clauses0, bools0).bools,
            bools0 <= model.ctx.bools.len(),
            forall|b: int|
                0 <= b < model.ctx.bools.len() ==> #[trigger] model.ctx.bools[b] == if b < bools0 {
                    old(model).ctx.bools[b]
                } else {
                    None
                },
            model.ctx.ints == old(model).ctx.ints,
            model.diff_logic == old(model).diff_logic,
            model.linears == old(model).linears,
            model.aliases == old(model).aliases,
            model.equalities == old(model).equalities,
        decreases raw.len() - k,
    {
        let ghost e = expansion(raw@, k as int, clauses0, bools0);
        assert(raw[k as int].expandable());
        match raw[k] {
            DifferenceLogicConstraint::Global(x, y, d) => {
                out.push(DiffEdge { x, y, d, gate: None });
            },
            DifferenceLogicConstraint::Implied(b, x, y, d) => {
                out.push(DiffEdge { x, y, d, gate: Some(b) });
            },
            DifferenceLogicConstraint::Reified(b, x, y, d) => {
                out.push(DiffEdge { x, y, d, gate: Some(b) });
                out.push(DiffEdge { x: y, y: x, d: 0 - d - 1, gate: Some(b.negate()) });
            },
            DifferenceLogicConstraint::ImpliedEquals(b, x, y, d) => {
                out.push(DiffEdge { x, y, d, gate: Some(b) });
                out.push(DiffEdge { x: y, y: x, d: 0 - d, gate: Some(b) });
            },
            DifferenceLogicConstraint::NotEquals(x, y, d) => {
                let c: BoolView = model.new_bool_decision();
                out.push(DiffEdge { x, y, d: d - 1, gate: Some(c) });
                out.push(DiffEdge { x: y, y: x, d: 0 - d - 1, gate: Some(c.negate()) });
            },
            DifferenceLogicConstraint::ImpliedNotEquals(b, x, y, d) => {
                expand_implied_not_equals(model, &mut out, b, x, y, d);
            },
            DifferenceLogicConstraint::ReifiedEquals(b, x, y, d) => {
                // b -> (x - y == d)
                out.push(DiffEdge { x, y, d, gate: Some(b) });
                out.push(DiffEdge { x: y, y: x, d: 0 - d, gate: Some(b) });
                // not b -> (x - y != d)
                expand_implied_not_equals(model, &mut out, b.negate(), x, y, d);
            },
        }
        k = k + 1;
    }
    Ok(out)
}

/// Add the edges, Boolean decisions and clauses of `b -> (x - y != d)`.
fn expand_implied_not_equals(
    model: &mut Model,
    edges: &mut Vec<DiffEdge>,
    b: BoolView,
    x: IntView,
    y: IntView,
    d: IntVal,
)
    requires
        old(model).wf(),
        d > IntVal::MIN,
    ensures
        final(model).wf(),
        ({
            let e = implied_not_equals(
                Expansion {
                    edges: old(edges)@,
                    clauses: clause_views(old(model).clauses@),
                    bools: old(model).ctx.bools.len() as int,
                },
                b,
                x,
                y,
                d,
            );
            &&& final(edges)@ == e.edges
            &&& clause_views(final(model).clauses@) == e.clauses
            &&& final(model).ctx.bools.len() == e.bools
        }),
        final(model).ctx.bools@ == old(model).ctx.bools@.push(None).push(None),
        final(model).ctx.ints == old(model).ctx.ints,
        final(model).diff_logic == old(model).diff_logic,
        final(model).linears == old(model).linears,
        final(model).aliases == old(model).aliases,
        final(model).equalities == old(model).equalities,
{
    let c1: BoolView = model.new_bool_decision();
    let c2: BoolView = model.new_bool_decision();
    // b -> (c1 or c2)
    let some: Vec<BoolView> = vec![b.negate(), c1, c2];
    // not both
    let most: Vec<BoolView> = vec![c1.negate(), c2.negate()];
    assert(some@ =~= seq![b.negate(), c1, c2]);
    assert(most@ =~= seq![c1.negate(), c2.negate()]);
    let ghost before = model.clauses@;
    model.clauses.push(some);
    model.clauses.push(most);
    assert(clause_views(model.clauses@) =~= clause_views(before).push(some@).push(most@));
    edges.push(DiffEdge { x, y, d: d - 1, gate: Some(c1) });
    edges.push(DiffEdge { x: y, y: x, d: 0 - d - 1, gate: Some(c2) });
}


/// The earlier clauses and Boolean decisions stay when constraints are expanded.
pub proof fn lemma_expansion_adds(
    raw: Seq<DifferenceLogicConstraint>,
    k: int,
    clauses: Seq<Seq<BoolView>>,
    bools: int,
)
    requires
        0 <= k <= raw.len(),
    ensures
        clauses.len() <= expansion(raw, k, clauses, bools).clauses.len(),
        expansion(raw, k, clauses, bools).clauses.take(clauses.len() as int) == clauses,
        bools <= expansion(raw, k, clauses, bools).bools,
    decreases k,
{
    if k > 0 {
        lemma_expansion_adds(raw, k - 1, clauses, bools);
        let before = expansion(raw, k - 1, clauses, bools);
        let after = expansion(raw, k, clauses, bools);
        assert(after.clauses.take(clauses.len() as int) =~= before.clauses.take(
            clauses.len() as int,
        ));
    } else {
        assert(clauses.take(clauses.len() as int) =~= clauses);
    }
}

/// The levels are those of what the constraints need: new Boolean decisions at the third one only,
/// two edges of the same gate at the second one, and no more than an edge of each gate at the
/// first one. Clauses are only added along with Boolean decisions.
pub proof fn lemma_levels_by_need(e: Expansion, c: DifferenceLogicConstraint)
    ensures
        ({
            let f = expand_one(e, c);
            let n = e.edges.len() as int;
            let twice = f.edges.len() == n + 2 && f.edges[n].gate == f.edges[n + 1].gate;
            &&& c.level() == 3 <==> f.bools > e.bools
            &&& c.level() == 2 <==> f.bools == e.bools && twice
            &&& c.level() == 1 <==> f.bools == e.bools && !twice
            &&& f.bools == e.bools ==> f.clauses == e.clauses
        }),
{
    if let DifferenceLogicConstraint::Reified(b, x, y, d) = c {
        assert(b != b.negate());
    }
}

/// Whether the assignment keeps all edges, and all clauses from the position `from` on.
pub open spec fn keeps(
    e: Expansion,
    from: int,
    ints: IntAssignment,
    bools: BoolAssignment,
) -> bool {
    &&& forall|k: int| 0 <= k < e.edges.len() ==> (#[trigger] e.edges[k]).holds(ints, bools)
    &&& forall|k: int|
        from <= k < e.clauses.len() ==> clause_holds(#[trigger] e.clauses[k], ints, bools)
}

proof fn lemma_keeps_part(
    e: Expansion,
    f: Expansion,
    from: int,
    ints: IntAssignment,
    bools: BoolAssignment,
)
    requires
        0 <= from,
        keeps(f, from, ints, bools),
        e.edges.len() <= f.edges.len(),
        forall|k: int| 0 <= k < e.edges.len() ==> #[trigger] e.edges[k] == f.edges[k],
        e.clauses.len() <= f.clauses.len(),
        forall|k: int| 0 <= k < e.clauses.len() ==> #[trigger] e.clauses[k] == f.clauses[k],
    ensures
        keeps(e, from, ints, bools),
{
    assert forall|k: int| 0 <= k < e.edges.len() implies (#[trigger] e.edges[k]).holds(
        ints,
        bools,
    ) by {
        assert(f.edges[k].holds(ints, bools));
    }
    assert forall|k: int| from <= k < e.clauses.len() implies clause_holds(
        #[trigger] e.clauses[k],
        ints,
        bools,
    ) by {
        assert(clause_holds(f.clauses[k], ints, bools));
    }
}

/// The implied disequality holds where its edges and clauses do.
proof fn lemma_implied_not_equals_sound(
    e: Expansion,
    b: BoolView,
    x: IntView,
    y: IntView,
    d: IntVal,
    from: int,
    ints: IntAssignment,
    bools: BoolAssignment,
)
    requires
        0 <= from <= e.clauses.len(),
        d > IntVal::MIN,
        keeps(implied_not_equals(e, b, x, y, d), from, ints, bools),
    ensures
        b.holds(ints, bools) ==> x.eval(ints, bools) - y.eval(ints, bools) != d,
{
    let f = implied_not_equals(e, b, x, y, d);
    let c1 = fresh(e.bools);
    let c2 = fresh(e.bools + 1);
    let n = e.edges.len() as int;
    let clause = f.clauses[e.clauses.len() as int];
    assert(clause =~= seq![b.negate(), c1, c2]);
    assert(clause_holds(clause, ints, bools));
    assert(f.edges[n].holds(ints, bools));
    assert(f.edges[n + 1].holds(ints, bools));
    assert(b.negate().holds(ints, bools) == !b.holds(ints, bools)) by {
        lemma_negate(b, ints, bools);
    }
    let i = choose|i: int| 0 <= i < clause.len() && (#[trigger] clause[i]).holds(ints, bools);
    assert(i == 0 || i == 1 || i == 2);
}

proof fn lemma_negate(b: BoolView, ints: IntAssignment, bools: BoolAssignment)
    ensures
        b.negate().holds(ints, bools) == !b.holds(ints, bools),
{
}

/// Every assignment that keeps the edges and clauses keeps the constraints.
pub proof fn lemma_expansion_sound(
    raw: Seq<DifferenceLogicConstraint>,
    k: int,
    clauses: Seq<Seq<BoolView>>,
    first: int,
    ints: IntAssignment,
    bools: BoolAssignment,
)
    requires
        0 <= k <= raw.len(),
        forall|i: int| 0 <= i < raw.len() ==> (#[trigger] raw[i]).expandable(),
        keeps(expansion(raw, k, clauses, first), clauses.len() as int, ints, bools),
    ensures
        forall|i: int| 0 <= i < k ==> (#[trigger] raw[i]).holds(ints, bools),
        expansion(raw, k, clauses, first).clauses.len() >= clauses.len(),
    decreases k,
{
    if k > 0 {
        let e = expansion(raw, k - 1, clauses, first);
        let f = expansion(raw, k, clauses, first);
        let c = raw[k - 1];
        let n = e.edges.len() as int;
        let from = clauses.len() as int;
        lemma_keeps_part(e, f, from, ints, bools);
        lemma_expansion_sound(raw, k - 1, clauses, first, ints, bools);
        assert(c.expandable());
        assert(f.edges[n].holds(ints, bools));
        if f.edges.len() > n + 1 {
            assert(f.edges[n + 1].holds(ints, bools));
        }
        match c {
            DifferenceLogicConstraint::Reified(b, x, y, d) => {
                lemma_negate(b, ints, bools);
            },
            DifferenceLogicConstraint::NotEquals(x, y, d) => {
                lemma_negate(fresh(e.bools), ints, bools);
            },
            DifferenceLogicConstraint::ImpliedNotEquals(b, x, y, d) => {
                lemma_implied_not_equals_sound(e, b, x, y, d, from, ints, bools);
            },
            DifferenceLogicConstraint::ReifiedEquals(b, x, y, d) => {
                let g = Expansion {
                    edges: e.edges.push(DiffEdge { x, y, d, gate: Some(b) }).push(
                        DiffEdge { x: y, y: x, d: (-d) as IntVal, gate: Some(b) },
                    ),
                    ..e
                };
                lemma_implied_not_equals_sound(g, b.negate(), x, y, d, from, ints, bools);
                lemma_negate(b, ints, bools);
            },
            _ => {},
        }
        assert(c.holds(ints, bools));
    }
}

/// Whether the view depends on Boolean decisions below `n` only.
pub open spec fn bool_below(b: BoolView, n: int) -> bool {
    b matches BoolView::Lit(l) ==> l.var < n
}

/// Whether the view depends on Boolean decisions below `n` only.
pub open spec fn int_below(v: IntView, n: int) -> bool {
    v matches IntView::Bool { lit, .. } ==> lit.var < n
}

/// Whether the edge depends on Boolean decisions below `n` only.
pub open spec fn edge_below(e: DiffEdge, n: int) -> bool {
    &&& int_below(e.x, n)
    &&& int_below(e.y, n)
    &&& e.gate matches Some(b) ==> bool_below(b, n)
}

/// Whether the clause depends on Boolean decisions below `n` only.
pub open spec fn clause_below(c: Seq<BoolView>, n: int) -> bool {
    forall|i: int| 0 <= i < c.len() ==> bool_below(#[trigger] c[i], n)
}

impl DifferenceLogicConstraint {
    /// Whether the constraint depends on Boolean decisions below `n` only.
    pub open spec fn below(self, n: int) -> bool {
        match self {
            DifferenceLogicConstraint::Global(x, y, _) => int_below(x, n) && int_below(y, n),
            DifferenceLogicConstraint::NotEquals(x, y, _) => int_below(x, n) && int_below(y, n),
            DifferenceLogicConstraint::Implied(b, x, y, _) => bool_below(b, n) && int_below(x, n)
                && int_below(y, n),
            DifferenceLogicConstraint::Reified(b, x, y, _) => bool_below(b, n) && int_below(x, n)
                && int_below(y, n),
            DifferenceLogicConstraint::ImpliedEquals(b, x, y, _) => bool_below(b, n) && int_below(
                x,
                n,
            ) && int_below(y, n),
            DifferenceLogicConstraint::ImpliedNotEquals(b, x, y, _) => bool_below(b, n)
                && int_below(x, n) && int_below(y, n),
            DifferenceLogicConstraint::ReifiedEquals(b, x, y, _) => bool_below(b, n) && int_below(
                x,
                n,
            ) && int_below(y, n),
        }
    }
}

/// Whether the assignments give the Boolean decisions below `n` the same values.
pub open spec fn agree(a: BoolAssignment, b: BoolAssignment, n: int) -> bool {
    forall|i: int| 0 <= i < n ==> #[trigger] a(i) == b(i)
}

proof fn lemma_bool_agrees(
    v: BoolView,
    n: int,
    ints: IntAssignment,
    a: BoolAssignment,
    b: BoolAssignment,
)
    requires
        bool_below(v, n),
        agree(a, b, n),
    ensures
        v.holds(ints, a) == v.holds(ints, b),
{
    if let BoolView::Lit(l) = v {
        assert(a(l.var as int) == b(l.var as int));
    }
}

proof fn lemma_int_agrees(
    v: IntView,
    n: int,
    ints: IntAssignment,
    a: BoolAssignment,
    b: BoolAssignment,
)
    requires
        int_below(v, n),
        agree(a, b, n),
    ensures
        v.eval(ints, a) == v.eval(ints, b),
{
    if let IntView::Bool { lit, .. } = v {
        assert(a(lit.var as int) == b(lit.var as int));
    }
}

proof fn lemma_edge_agrees(
    e: DiffEdge,
    n: int,
    ints: IntAssignment,
    a: BoolAssignment,
    b: BoolAssignment,
)
    requires
        edge_below(e, n),
        agree(a, b, n),
    ensures
        e.holds(ints, a) == e.holds(ints, b),
{
    lemma_int_agrees(e.x, n, ints, a, b);
    lemma_int_agrees(e.y, n, ints, a, b);
    if let Some(g) = e.gate {
        lemma_bool_agrees(g, n, ints, a, b);
    }
}

proof fn lemma_clause_agrees(
    c: Seq<BoolView>,
    n: int,
    ints: IntAssignment,
    a: BoolAssignment,
    b: BoolAssignment,
)
    requires
        clause_below(c, n),
        agree(a, b, n),
        clause_holds(c, ints, a),
    ensures
        clause_holds(c, ints, b),
{
    let i = choose|i: int| 0 <= i < c.len() && (#[trigger] c[i]).holds(ints, a);
    lemma_bool_agrees(c[i], n, ints, a, b);
    assert(c[i].holds(ints, b));
}

/// Whether everything of the expansion, from the clause at `from` on, depends on its Boolean
/// decisions only.
spec fn closed_below(e: Expansion, from: int) -> bool {
    &&& forall|k: int| 0 <= k < e.edges.len() ==> edge_below(#[trigger] e.edges[k], e.bools)
    &&& forall|k: int|
        from <= k < e.clauses.len() ==> clause_below(#[trigger] e.clauses[k], e.bools)
}

/// The assignment with other values for two Boolean decisions.
pub open spec fn with_values(
    bools: BoolAssignment,
    n: int,
    v1: bool,
    v2: bool,
) -> BoolAssignment {
    |i: int|
        if i == n {
            v1
        } else if i == n + 1 {
            v2
        } else {
            bools(i)
        }
}

/// Every assignment that keeps the constraints can be extended to the new Boolean decisions so
/// that it keeps the edges and clauses.
pub proof fn lemma_expansion_complete(
    raw: Seq<DifferenceLogicConstraint>,
    k: int,
    clauses: Seq<Seq<BoolView>>,
    first: int,
    ints: IntAssignment,
    bools: BoolAssignment,
) -> (r: BoolAssignment)
    requires
        0 <= k <= raw.len(),
        forall|i: int| 0 <= i < raw.len() ==> (#[trigger] raw[i]).expandable(),
        forall|i: int| 0 <= i < raw.len() ==> (#[trigger] raw[i]).below(first),
        forall|i: int| 0 <= i < raw.len() ==> (#[trigger] raw[i]).holds(ints, bools),
        0 <= first,
        expansion(raw, k, clauses, first).bools <= usize::MAX,
    ensures
        agree(r, bools, first),
        keeps(expansion(raw, k, clauses, first), clauses.len() as int, ints, r),
{
    lemma_expansion_complete_part(raw, k, clauses, first, ints, bools)
}

proof fn lemma_expansion_complete_part(
    raw: Seq<DifferenceLogicConstraint>,
    k: int,
    clauses: Seq<Seq<BoolView>>,
    first: int,
    ints: IntAssignment,
    bools: BoolAssignment,
) -> (r: BoolAssignment)
    requires
        0 <= k <= raw.len(),
        forall|i: int| 0 <= i < raw.len() ==> (#[trigger] raw[i]).expandable(),
        forall|i: int| 0 <= i < raw.len() ==> (#[trigger] raw[i]).below(first),
        forall|i: int| 0 <= i < raw.len() ==> (#[trigger] raw[i]).holds(ints, bools),
        0 <= first,
        expansion(raw, k, clauses, first).bools <= usize::MAX,
    ensures
        agree(r, bools, first),
        keeps(expansion(raw, k, clauses, first), clauses.len() as int, ints, r),
        closed_below(expansion(raw, k, clauses, first), clauses.len() as int),
        first <= expansion(raw, k, clauses, first).bools,
        clauses.len() <= expansion(raw, k, clauses, first).clauses.len(),
    decreases k,
{
    if k == 0 {
        bools
    } else {
        let e = expansion(raw, k - 1, clauses, first);
        let f = expansion(raw, k, clauses, first);
        let c = raw[k - 1];
        let from = clauses.len() as int;
        let old_bools = lemma_expansion_complete_part(raw, k - 1, clauses, first, ints, bools);
        assert(c.expandable() && c.below(first) && c.holds(ints, bools));
        let (x, y, d) = match c {
            DifferenceLogicConstraint::Global(x, y, d) => (x, y, d),
            DifferenceLogicConstraint::NotEquals(x, y, d) => (x, y, d),
            DifferenceLogicConstraint::Implied(_, x, y, d) => (x, y, d),
            DifferenceLogicConstraint::Reified(_, x, y, d) => (x, y, d),
            DifferenceLogicConstraint::ImpliedEquals(_, x, y, d) => (x, y, d),
            DifferenceLogicConstraint::ImpliedNotEquals(_, x, y, d) => (x, y, d),
            DifferenceLogicConstraint::ReifiedEquals(_, x, y, d) => (x, y, d),
        };
        let diff = x.eval(ints, bools) - y.eval(ints, bools);
        let r = with_values(old_bools, e.bools, diff < d, diff > d);
        assert(agree(old_bools, r, e.bools));
        assert(agree(r, bools, first)) by {
            assert forall|i: int| 0 <= i < first implies #[trigger] r(i) == bools(i) by {
                assert(old_bools(i) == bools(i));
            }
        }
        assert(agree(bools, r, first)) by {
            assert forall|i: int| 0 <= i < first implies #[trigger] bools(i) == r(i) by {
                assert(r(i) == bools(i));
            }
        }
        lemma_int_agrees(x, first, ints, bools, r);
        lemma_int_agrees(y, first, ints, bools, r);
        let c1 = fresh(e.bools);
        let c2 = fresh(e.bools + 1);
        if f.bools > e.bools {
            assert(c1.holds(ints, r) == (diff < d));
            lemma_negate(c1, ints, r);
            if f.bools > e.bools + 1 {
                assert(c2.holds(ints, r) == (diff > d));
                lemma_negate(c2, ints, r);
            }
        }
        match c {
            DifferenceLogicConstraint::Implied(b, _, _, _) => {
                lemma_bool_agrees(b, first, ints, bools, r);
            },
            DifferenceLogicConstraint::Reified(b, _, _, _) => {
                lemma_bool_agrees(b, first, ints, bools, r);
                lemma_negate(b, ints, r);
            },
            DifferenceLogicConstraint::ImpliedEquals(b, _, _, _) => {
                lemma_bool_agrees(b, first, ints, bools, r);
            },
            DifferenceLogicConstraint::ImpliedNotEquals(b, _, _, _) => {
                lemma_bool_agrees(b, first, ints, bools, r);
                lemma_negate(b, ints, r);
            },
            DifferenceLogicConstraint::ReifiedEquals(b, _, _, _) => {
                lemma_bool_agrees(b, first, ints, bools, r);
                lemma_negate(b, ints, r);
                lemma_negate(b.negate(), ints, r);
            },
            _ => {},
        }
        assert forall|i: int| 0 <= i < f.edges.len() implies edge_below(
            #[trigger] f.edges[i],
            f.bools,
        ) && f.edges[i].holds(ints, r) by {
            if i < e.edges.len() {
                assert(f.edges[i] == e.edges[i]);
                assert(edge_below(e.edges[i], e.bools));
                lemma_edge_agrees(e.edges[i], e.bools, ints, old_bools, r);
            }
        }
        assert forall|i: int| from <= i < f.clauses.len() implies clause_below(
            #[trigger] f.clauses[i],
            f.bools,
        ) && clause_holds(f.clauses[i], ints, r) by {
            if i < e.clauses.len() {
                assert(f.clauses[i] == e.clauses[i]);
                assert(clause_below(e.clauses[i], e.bools));
                lemma_clause_agrees(e.clauses[i], e.bools, ints, old_bools, r);
                assert forall|j: int| 0 <= j < e.clauses[i].len() implies bool_below(
                    #[trigger] e.clauses[i][j],
                    f.bools,
                ) by {
                    assert(bool_below(e.clauses[i][j], e.bools));
                }
            } else if i == e.clauses.len() {
                let b = match c {
                    DifferenceLogicConstraint::ImpliedNotEquals(b, _, _, _) => b,
                    DifferenceLogicConstraint::ReifiedEquals(b, _, _, _) => b.negate(),
                    _ => c1,
                };
                let clause = f.clauses[i];
                assert(clause =~= seq![b.negate(), c1, c2]);
                if diff < d {
                    assert(clause[1].holds(ints, r));
                } else if diff > d {
                    assert(clause[2].holds(ints, r));
                } else {
                    assert(clause[0].holds(ints, r));
                }
            } else {
                let clause = f.clauses[i];
                assert(clause =~= seq![c1.negate(), c2.negate()]);
                if diff < d {
                    assert(clause[1].holds(ints, r));
                } else {
                    assert(clause[0].holds(ints, r));
                }
            }
        }
        r
    }
}

} // verus!
