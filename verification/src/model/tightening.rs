//! Tightening of the bounds of views by the edges between them.

use vstd::prelude::*;

use crate::helpers::saturating::{saturating_add, saturating_sub};
use crate::helpers::shortest::{
    arcs_within, best, has_potentials, lemma_best, lemma_walks_decrease, lemma_walks_stable,
    admissible, walks, WeightedArc,
};
use crate::model::diff_logic::DiffEdge;
use crate::model::simplify::{NodeTable, ViewValues};
use crate::model::{
    lemma_narrows_join, lemma_view_limits, require_at_least, require_at_most, Model,
};
use crate::solver::int_view::{lemma_view_bounds, lemma_view_narrowed};
use crate::solver::reason::Conflict;
use crate::solver::solving_context::SolvingContext;
use crate::solver::view::{BoolAssignment, BoolView, IntAssignment, IntVal, IntView};

verus! {

/// Whether the edge holds in every assignment of the domains that keeps the constraints: it
/// has no gate, or its gate is fixed to hold.
pub open spec fn participates(ctx: &SolvingContext, edge: DiffEdge) -> bool {
    match edge.gate {
        None => true,
        Some(g) => ctx.decides(g, true),
    }
}

/// Whether the bounds of the views are as tight as the edge makes them.
pub open spec fn tight(ctx: &SolvingContext, edge: DiffEdge) -> bool {
    &&& ctx.view_max(edge.x) <= ctx.view_max(edge.y) + edge.d
    &&& ctx.view_min(edge.y) >= ctx.view_min(edge.x) - edge.d
}

/// Whether the bounds of the views are at least as tight as the edge and the earlier bounds make
/// them.
pub open spec fn tightened(before: &SolvingContext, after: &SolvingContext, edge: DiffEdge) -> bool {
    &&& after.view_max(edge.x) <= before.view_max(edge.y) + edge.d
    &&& after.view_min(edge.y) >= before.view_min(edge.x) - edge.d
}

/// Whether the values keep every edge that participates.
pub open spec fn participants_kept(
    ctx: &SolvingContext,
    edges: Seq<DiffEdge>,
    s: ViewValues,
) -> bool {
    forall|k: int|
        0 <= k < edges.len() && participates(ctx, #[trigger] edges[k]) ==> s(edges[k].x) - s(
            edges[k].y,
        ) <= edges[k].d
}

/// Whether some values keep every edge that participates.
pub open spec fn feasible(ctx: &SolvingContext, edges: Seq<DiffEdge>) -> bool {
    exists|s: ViewValues| #[trigger] participants_kept(ctx, edges, s)
}

/// Whether the assignment keeps every edge that participates.
pub open spec fn participants_hold(
    ctx: &SolvingContext,
    edges: Seq<DiffEdge>,
    ints: IntAssignment,
    bools: BoolAssignment,
) -> bool {
    forall|k: int|
        0 <= k < edges.len() && participates(ctx, #[trigger] edges[k]) ==> edges[k].x.eval(
            ints,
            bools,
        ) - edges[k].y.eval(ints, bools) <= edges[k].d
}

/// Whether the view is a decision plus an offset, and no value between its bounds is missing.
pub open spec fn plain(ctx: &SolvingContext, view: IntView) -> bool {
    match view {
        IntView::Linear { var, scale, .. } => scale == 1 && forall|x: int|
            ctx.ints[var as int].lb <= x <= ctx.ints[var as int].ub
                ==> #[trigger] ctx.ints[var as int].has(x),
        _ => false,
    }
}

/// The decision of a plain view.
pub open spec fn decision_of(view: IntView) -> int {
    match view {
        IntView::Linear { var, .. } => var as int,
        _ => -1,
    }
}

/// Whether the ends of the edges that participate are plain views, different ones of different
/// decisions.
pub open spec fn independent(ctx: &SolvingContext, edges: Seq<DiffEdge>) -> bool {
    forall|j: int, k: int|
        0 <= j < edges.len() && 0 <= k < edges.len() && participates(ctx, edges[j])
            && participates(ctx, edges[k]) ==> separate(
            ctx,
            (#[trigger] edges[j]).x,
            (#[trigger] edges[k]).x,
        ) && separate(ctx, edges[j].x, edges[k].y) && separate(ctx, edges[j].y, edges[k].y)
}

/// Whether some assignment, of the domains or not, keeps every edge that participates.
pub open spec fn keepable(ctx: &SolvingContext, edges: Seq<DiffEdge>) -> bool {
    exists|ints: IntAssignment, bools: BoolAssignment| #[trigger]
        participants_hold(ctx, edges, ints, bools)
}

/// Whether the ends of the edges that participate are plain views.
pub open spec fn plain_ends(ctx: &SolvingContext, edges: Seq<DiffEdge>) -> bool {
    forall|k: int|
        0 <= k < edges.len() && participates(ctx, #[trigger] edges[k]) ==> plain(ctx, edges[k].x)
            && plain(ctx, edges[k].y)
}

/// Whether the bounds are as tight as the edges that participate make them.
pub open spec fn all_tight(
    start: &SolvingContext,
    edges: Seq<DiffEdge>,
    ctx: &SolvingContext,
) -> bool {
    forall|k: int|
        0 <= k < edges.len() && participates(start, #[trigger] edges[k]) ==> tight(ctx, edges[k])
}

/// Whether a round was made: the bounds were tightened along each edge that participates.
pub open spec fn round_made(
    start: &SolvingContext,
    edges: Seq<DiffEdge>,
    before: &SolvingContext,
    after: &SolvingContext,
) -> bool {
    &&& after.narrows(before)
    &&& forall|k: int|
        0 <= k < edges.len() && participates(start, #[trigger] edges[k]) ==> tightened(
            before,
            after,
            edges[k],
        )
}

/// Whether the contexts are those before and after each of the rounds that lead from the first
/// one to the last one.
pub open spec fn rounds_made(
    start: &SolvingContext,
    edges: Seq<DiffEdge>,
    rounds: Seq<SolvingContext>,
    ctx: &SolvingContext,
) -> bool {
    &&& rounds.len() > 0
    &&& rounds[0] == *start
    &&& rounds.last() == *ctx
    &&& forall|i: int, j: int|
        0 <= i && j == i + 1 && j < rounds.len() ==> round_made(
            start,
            edges,
            &(#[trigger] rounds[i]),
            &(#[trigger] rounds[j]),
        )
}

/// The ends of the edges that participate.
pub open spec fn end_views(ctx: &SolvingContext, edges: Seq<DiffEdge>) -> Set<IntView> {
    Set::new(|v: IntView| end_of(ctx, edges, v))
}

/// Whether the ends of the edges that participated at the start are plain views, different ones
/// of different decisions.
pub open spec fn stay_independent(
    start: &SolvingContext,
    edges: Seq<DiffEdge>,
    ctx: &SolvingContext,
) -> bool {
    forall|j: int, k: int|
        0 <= j < edges.len() && 0 <= k < edges.len() && participates(start, edges[j])
            && participates(start, edges[k]) ==> separate(
            ctx,
            (#[trigger] edges[j]).x,
            (#[trigger] edges[k]).x,
        ) && separate(ctx, edges[j].x, edges[k].y) && separate(ctx, edges[j].y, edges[k].y)
}

/// Whether both views are plain, and of different decisions unless they are the same.
pub open spec fn separate(ctx: &SolvingContext, a: IntView, b: IntView) -> bool {
    plain(ctx, a) && plain(ctx, b) && (a != b ==> decision_of(a) != decision_of(b))
}

/// The largest values of the views, or the negated smallest ones.
spec fn ends(ctx: &SolvingContext, vars: Seq<IntView>, low: bool) -> Seq<int> {
    Seq::new(
        vars.len(),
        |i: int|
            if low {
                -ctx.view_min(vars[i])
            } else {
                ctx.view_max(vars[i])
            },
    )
}

/// Whether the views are plain ones of different decisions.
pub open spec fn all_separate(ctx: &SolvingContext, vars: Seq<IntView>) -> bool {
    forall|i: int, j: int|
        0 <= i < vars.len() && 0 <= j < vars.len() ==> separate(
            ctx,
            #[trigger] vars[i],
            #[trigger] vars[j],
        ) && (i != j ==> vars[i] != vars[j])
}

/// Whether the views are plain ones.
pub open spec fn all_plain(ctx: &SolvingContext, vars: Seq<IntView>) -> bool {
    forall|i: int| 0 <= i < vars.len() ==> plain(ctx, #[trigger] vars[i])
}

/// The offset of a plain view.
pub open spec fn offset_of(view: IntView) -> int {
    match view {
        IntView::Linear { offset, .. } => offset as int,
        _ => 0,
    }
}

/// Restricting one plain view moves the one bound of the views of its decision, and leaves the
/// others as they are.
pub proof fn lemma_shifted_restricted(
    before: &SolvingContext,
    after: &SolvingContext,
    vars: Seq<IntView>,
    a: int,
    c: int,
    upper: bool,
)
    requires
        before.wf(),
        after.wf(),
        after.extends(before),
        after.narrows(before),
        all_plain(before, vars),
        forall|i: int| 0 <= i < vars.len() ==> before.has_view(#[trigger] vars[i]),
        0 <= a < vars.len(),
        before.view_min(vars[a]) <= c <= before.view_max(vars[a]),
        forall|ints: IntAssignment, bools: BoolAssignment|
            #[trigger] after.admits(ints, bools) <==> (before.admits(ints, bools) && if upper {
                vars[a].eval(ints, bools) <= c
            } else {
                vars[a].eval(ints, bools) >= c
            }),
    ensures
        all_plain(after, vars),
        forall|i: int|
            0 <= i < vars.len() ==> {
                let akin = decision_of(#[trigger] vars[i]) == decision_of(vars[a]);
                let m = c + offset_of(vars[i]) - offset_of(vars[a]);
                &&& after.view_min(vars[i]) == if akin && !upper {
                    m
                } else {
                    before.view_min(vars[i])
                }
                &&& after.view_max(vars[i]) == if akin && upper {
                    m
                } else {
                    before.view_max(vars[i])
                }
            },
{
    let va = decision_of(vars[a]);
    assert(plain(before, vars[a]));
    let oa = vars[a]->Linear_offset as int;
    let kept = |x: int|
        if upper {
            x + oa <= c
        } else {
            x + oa >= c
        };
    let bools: BoolAssignment = |b: int|
        match before.bools[b] {
            Some(v) => v,
            None => false,
        };
    assert forall|v: int, x: int|
        0 <= v < before.ints.len() implies #[trigger] after.ints[v].has(x) == (
    before.ints[v].has(x) && (v == va ==> kept(x))) by {
        if before.ints[v].has(x) && (v == va ==> kept(x)) {
            let good = c - oa;
            let ints: IntAssignment = |w: int|
                if w == v {
                    x
                } else if w == va {
                    good
                } else {
                    before.ints[w].lb as int
                };
            assert forall|w: int| 0 <= w < before.ints.len() implies (
            #[trigger] before.ints[w]).has(ints(w)) by {
                assert(before.ints[w].wf());
            }
            assert(before.admits(ints, bools));
            assert(1 * ints(va) == ints(va));
            assert(after.admits(ints, bools));
            assert(after.ints[v].has(ints(v)));
        }
        if after.ints[v].has(x) {
            assert(before.ints[v].has(x));
            if v == va {
                let ints: IntAssignment = |w: int|
                    if w == v {
                        x
                    } else {
                        after.ints[w].lb as int
                    };
                assert forall|w: int| 0 <= w < after.ints.len() implies (
                #[trigger] after.ints[w]).has(ints(w)) by {
                    assert(after.ints[w].wf());
                }
                let bools2: BoolAssignment = |b: int|
                    match after.bools[b] {
                        Some(v) => v,
                        None => false,
                    };
                assert(after.admits(ints, bools2));
                assert(1 * ints(va) == ints(va));
            }
        }
    }
    assert forall|v: int| 0 <= v < before.ints.len() && v != va implies (
    #[trigger] after.ints[v]).lb == before.ints[v].lb && after.ints[v].ub
        == before.ints[v].ub by {
        let d = before.ints[v];
        let e = after.ints[v];
        assert(d.wf() && e.wf());
        assert(e.has(d.lb as int) == d.has(d.lb as int));
        assert(e.has(d.ub as int) == d.has(d.ub as int));
        assert(e.has(e.lb as int) == d.has(e.lb as int));
        assert(e.has(e.ub as int) == d.has(e.ub as int));
    }
    let d = before.ints[va];
    let e = after.ints[va];
    assert(d.wf() && e.wf());
    let good = c - oa;
    assert(d.has(good));
    assert(e.has(good) == (d.has(good) && kept(good)));
    assert(e.has(d.lb as int) == (d.has(d.lb as int) && kept(d.lb as int)));
    assert(e.has(d.ub as int) == (d.has(d.ub as int) && kept(d.ub as int)));
    assert(e.has(e.lb as int) == (d.has(e.lb as int) && kept(e.lb as int)));
    assert(e.has(e.ub as int) == (d.has(e.ub as int) && kept(e.ub as int)));
    assert forall|i: int| 0 <= i < vars.len() implies plain(after, #[trigger] vars[i]) by {
        assert(plain(before, vars[i]));
        lemma_plain_kept(before, after, vars[i], va, kept);
    }
    assert forall|i: int| 0 <= i < vars.len() implies {
        let akin = decision_of(#[trigger] vars[i]) == decision_of(vars[a]);
        let m = c + offset_of(vars[i]) - offset_of(vars[a]);
        &&& after.view_min(vars[i]) == if akin && !upper {
            m
        } else {
            before.view_min(vars[i])
        }
        &&& after.view_max(vars[i]) == if akin && upper {
            m
        } else {
            before.view_max(vars[i])
        }
    } by {
        assert(plain(before, vars[i]));
        assert(before.has_view(vars[i]));
        let vi = decision_of(vars[i]);
        if vi != va {
            assert(after.ints[vi].lb == before.ints[vi].lb);
        }
    }
}

/// Restricting one plain view leaves the others as they are.
pub proof fn lemma_plain_restricted(
    before: &SolvingContext,
    after: &SolvingContext,
    vars: Seq<IntView>,
    a: int,
    c: int,
    upper: bool,
)
    requires
        before.wf(),
        after.wf(),
        after.extends(before),
        after.narrows(before),
        all_separate(before, vars),
        forall|i: int| 0 <= i < vars.len() ==> before.has_view(#[trigger] vars[i]),
        0 <= a < vars.len(),
        before.view_min(vars[a]) <= c <= before.view_max(vars[a]),
        forall|ints: IntAssignment, bools: BoolAssignment|
            #[trigger] after.admits(ints, bools) <==> (before.admits(ints, bools) && if upper {
                vars[a].eval(ints, bools) <= c
            } else {
                vars[a].eval(ints, bools) >= c
            }),
    ensures
        all_separate(after, vars),
        forall|i: int|
            0 <= i < vars.len() && i != a ==> after.view_min(#[trigger] vars[i])
                == before.view_min(vars[i]) && after.view_max(vars[i]) == before.view_max(vars[i]),
        if upper {
            after.view_max(vars[a]) == c && after.view_min(vars[a]) == before.view_min(vars[a])
        } else {
            after.view_min(vars[a]) == c && after.view_max(vars[a]) == before.view_max(vars[a])
        },
{
    assert forall|i: int| 0 <= i < vars.len() implies plain(before, #[trigger] vars[i]) by {
        assert(separate(before, vars[i], vars[i]));
    }
    lemma_shifted_restricted(before, after, vars, a, c, upper);
    assert forall|i: int, j: int| 0 <= i < vars.len() && 0 <= j < vars.len() implies separate(
        after,
        #[trigger] vars[i],
        #[trigger] vars[j],
    ) && (i != j ==> vars[i] != vars[j]) by {
        assert(separate(before, vars[i], vars[j]));
        assert(plain(after, vars[i]) && plain(after, vars[j]));
    }
    assert forall|i: int| 0 <= i < vars.len() && i != a implies decision_of(#[trigger] vars[i])
        != decision_of(vars[a]) by {
        assert(separate(before, vars[i], vars[a]));
    }
    assert(decision_of(vars[a]) == decision_of(vars[a]));
}

proof fn lemma_plain_kept(
    before: &SolvingContext,
    after: &SolvingContext,
    view: IntView,
    va: int,
    kept: spec_fn(int) -> bool,
)
    requires
        before.wf(),
        after.wf(),
        after.extends(before),
        plain(before, view),
        before.has_view(view),
        forall|v: int, x: int|
            0 <= v < before.ints.len() ==> #[trigger] after.ints[v].has(x) == (
            before.ints[v].has(x) && (v == va ==> kept(x))),
        forall|x: int, y: int, z: int| x <= y <= z && kept(x) && kept(z) ==> #[trigger] between(x, y, z) && kept(y),
    ensures
        plain(after, view),
{
    let v = decision_of(view);
    let d = before.ints[v];
    let e = after.ints[v];
    assert(d.wf() && e.wf());
    assert forall|x: int| e.lb <= x <= e.ub implies #[trigger] e.has(x) by {
        assert(e.has(e.lb as int) && e.has(e.ub as int));
        assert(d.has(e.lb as int) && d.has(e.ub as int));
        assert(d.has(x));
        if v == va {
            assert(between(e.lb as int, x, e.ub as int));
        }
    }
}

spec fn between(x: int, y: int, z: int) -> bool {
    x <= y <= z
}


/// The edges that participate, over the numbers of their ends.
struct Participants {
    /// Indices of the edges.
    edges: Vec<usize>,
    /// The numbers of the ends.
    table: NodeTable,
}

impl Participants {
    /// Every edge that participates is listed, and its ends have numbers.
    #[verifier::opaque]
    spec fn of(&self, ctx: &SolvingContext, edges: Seq<DiffEdge>) -> bool {
        &&& self.table.wf()
        &&& forall|i: int|
            0 <= i < self.edges.len() ==> (#[trigger] self.edges[i]) < edges.len() && participates(
                ctx,
                edges[self.edges[i] as int],
            ) && self.table.has(edges[self.edges[i] as int].x) && self.table.has(
                edges[self.edges[i] as int].y,
            )
        &&& forall|k: int|
            0 <= k < edges.len() && participates(ctx, #[trigger] edges[k])
                ==> self.edges@.contains(k as usize)
        &&& forall|v: int|
            0 <= v < self.table.int_vars.len() ==> end_of(
                ctx,
                edges,
                #[trigger] self.table.int_vars[v],
            )
        &&& self.edges.len() > 0 ==> self.table.int_vars.len() > 0
    }

    /// The arcs along which upper bounds, or, if `low` is set, negated lower bounds are
    /// passed on.
    spec fn arcs(&self, edges: Seq<DiffEdge>, low: bool) -> Seq<WeightedArc> {
        Seq::new(
            self.edges@.len(),
            |i: int|
                {
                    let e = edges[self.edges@[i] as int];
                    let x = self.table.number(e.x) as usize;
                    let y = self.table.number(e.y) as usize;
                    if low {
                        WeightedArc { from: x, to: y, weight: e.d }
                    } else {
                        WeightedArc { from: y, to: x, weight: e.d }
                    }
                },
        )
    }
}

/// Whether the view is an end of an edge that participates.
pub open spec fn end_of(ctx: &SolvingContext, edges: Seq<DiffEdge>, view: IntView) -> bool {
    exists|k: int|
        0 <= k < edges.len() && participates(ctx, #[trigger] edges[k]) && (edges[k].x == view
            || edges[k].y == view)
}

/// The edges that participate.
fn find_participants(ctx: &SolvingContext, edges: &Vec<DiffEdge>) -> (r: Participants)
    requires
        ctx.wf(),
        forall|k: int|
            0 <= k < edges.len() ==> ((#[trigger] edges[k]).gate matches Some(g) ==> ctx.knows(g)),
    ensures
        r.of(ctx, edges@),
{
    let mut list: Vec<usize> = Vec::new();
    let mut table: NodeTable = NodeTable::new();
    let mut i: usize = 0;
    while i < edges.len()
        invariant
            i <= edges.len(),
            ctx.wf(),
            forall|k: int|
                0 <= k < edges.len() ==> ((#[trigger] edges[k]).gate matches Some(g) ==> ctx.knows(
                    g,
                )),
            table.wf(),
            forall|l: int|
                0 <= l < list.len() ==> (#[trigger] list[l]) < edges.len() && participates(
                    ctx,
                    edges[list[l] as int],
                ) && table.has(edges[list[l] as int].x) && table.has(edges[list[l] as int].y),
            forall|k: int|
                0 <= k < i && participates(ctx, #[trigger] edges[k]) ==> list@.contains(k as usize),
            forall|v: int|
                0 <= v < table.int_vars.len() ==> end_of(
                    ctx,
                    edges@,
                    #[trigger] table.int_vars[v],
                ),
            list.len() > 0 ==> table.int_vars.len() > 0,
        decreases edges.len() - i,
    {
        let e: DiffEdge = edges[i];
        assert(edges[i as int] == e);
        let takes_part: bool = match e.gate {
            None => true,
            Some(g) => match ctx.val(g) {
                Some(b) => {
                    proof {
                        lemma_decides_once(ctx, g, b);
                    }
                    b
                },
                None => false,
            },
        };
        if takes_part {
            let ghost t0 = table;
            let ghost list0 = list@;
            table.intern(e.x);
            let ghost t1 = table;
            table.intern(e.y);
            list.push(i);
            proof {
                assert(participates(ctx, edges@[i as int]));
                assert forall|v: int| 0 <= v < table.int_vars.len() implies end_of(
                    ctx,
                    edges@,
                    #[trigger] table.int_vars[v],
                ) by {
                    if v < t0.int_vars.len() {
                        assert(table.int_vars[v] == t0.int_vars[v]);
                        assert(end_of(ctx, edges@, t0.int_vars[v]));
                    } else {
                        assert(edges@[i as int].x == table.int_vars[v] || edges@[i as int].y
                            == table.int_vars[v]);
                    }
                }
                assert forall|k: int|
                    0 <= k < i + 1 && participates(ctx, #[trigger] edges[k]) implies list@.contains(
                    k as usize,
                ) by {
                    if k < i {
                        assert(list0.contains(k as usize));
                        let l = list0.index_of(k as usize);
                        assert(list@[l] == k as usize);
                    } else {
                        assert(list@[list0.len() as int] == k as usize);
                    }
                }
                assert forall|l: int| 0 <= l < list.len() implies (#[trigger] list[l])
                    < edges.len() && participates(ctx, edges[list[l] as int]) && table.has(
                    edges[list[l] as int].x,
                ) && table.has(edges[list[l] as int].y) by {
                    if l < list0.len() {
                        assert(list@[l] == list0[l]);
                        assert(t0.has(edges[list0[l] as int].x));
                        assert(t1.has(edges[list0[l] as int].x));
                        assert(t0.has(edges[list0[l] as int].y));
                        assert(t1.has(edges[list0[l] as int].y));
                    } else {
                        assert(t1.has(e.x));
                    }
                }
            }
        }
        i = i + 1;
    }
    let r: Participants = Participants { edges: list, table };
    assert(r.of(ctx, edges@)) by {
        reveal(Participants::of);
    }
    r
}

/// An edge of the list participates.
proof fn lemma_member(part: Participants, ctx: &SolvingContext, edges: Seq<DiffEdge>, i: int)
    requires
        part.of(ctx, edges),
        0 <= i < part.edges.len(),
    ensures
        part.edges[i] < edges.len(),
        participates(ctx, edges[part.edges[i] as int]),
        part.table.wf(),
        part.table.has(edges[part.edges[i] as int].x),
        part.table.has(edges[part.edges[i] as int].y),
        part.table.int_vars.len() > 0,
{
    reveal(Participants::of);
}

/// An edge that participates is in the list.
proof fn lemma_listed(
    part: Participants,
    ctx: &SolvingContext,
    edges: Seq<DiffEdge>,
    k: int,
) -> (i: int)
    requires
        part.of(ctx, edges),
        0 <= k < edges.len() <= usize::MAX,
        participates(ctx, edges[k]),
    ensures
        0 <= i < part.edges.len(),
        part.edges[i] == k,
{
    reveal(Participants::of);
    assert(part.edges@.contains(k as usize));
    part.edges@.index_of(k as usize)
}

/// A numbered view is an end of an edge that participates.
proof fn lemma_numbered_end(part: Participants, ctx: &SolvingContext, edges: Seq<DiffEdge>, v: int)
    requires
        part.of(ctx, edges),
        0 <= v < part.table.int_vars.len(),
    ensures
        part.table.wf(),
        end_of(ctx, edges, part.table.int_vars[v]),
{
    reveal(Participants::of);
}

proof fn lemma_decides_once(ctx: &SolvingContext, g: BoolView, b: bool)
    requires
        ctx.wf(),
        ctx.knows(g),
        ctx.decides(g, b),
    ensures
        !ctx.decides(g, !b),
{
    if let BoolView::Int(v, m) = g {
        let d = ctx.ints[v as int];
        assert(d.wf());
        assert(d.has(d.lb as int));
    }
}


spec fn least(a: int, b: int) -> int {
    if b < a {
        b
    } else {
        a
    }
}

/// How far the end of one plain view lies from that of another one of the same decision.
spec fn gap(from: IntView, to: IntView, low: bool) -> int {
    if low {
        offset_of(from) - offset_of(to)
    } else {
        offset_of(to) - offset_of(from)
    }
}

/// Whether the end of a view was lowered to a value, if it was larger, and those of the views of
/// the same decision with it.
spec fn lowered(
    cur: Seq<int>,
    next: Seq<int>,
    vars: Seq<IntView>,
    to: int,
    value: int,
    low: bool,
) -> bool {
    &&& next.len() == cur.len()
    &&& forall|i: int|
        0 <= i < cur.len() ==> #[trigger] next[i] == if decision_of(vars[i]) == decision_of(
            vars[to],
        ) {
            least(cur[i], value + gap(vars[to], vars[i], low))
        } else {
            cur[i]
        }
}

/// The ends of plain views of one decision move together.
proof fn lemma_akin(ctx: &SolvingContext, vars: Seq<IntView>, low: bool)
    requires
        all_plain(ctx, vars),
    ensures
        forall|i: int, j: int|
            #![trigger ends(ctx, vars, low)[i], ends(ctx, vars, low)[j]]
            0 <= i < vars.len() && 0 <= j < vars.len() && decision_of(vars[i]) == decision_of(
                vars[j],
            ) ==> ends(ctx, vars, low)[j] == ends(ctx, vars, low)[i] + gap(vars[i], vars[j], low),
{
    assert forall|i: int, j: int|
        #![trigger ends(ctx, vars, low)[i], ends(ctx, vars, low)[j]]
        0 <= i < vars.len() && 0 <= j < vars.len() && decision_of(vars[i]) == decision_of(
            vars[j],
        ) implies ends(ctx, vars, low)[j] == ends(ctx, vars, low)[i] + gap(vars[i], vars[j], low) by {
        assert(plain(ctx, vars[i]) && plain(ctx, vars[j]));
    }
}

/// Restricting a plain view lowers its end.
proof fn lemma_lowered(
    before: &SolvingContext,
    after: &SolvingContext,
    vars: Seq<IntView>,
    to: int,
    value: int,
    low: bool,
)
    requires
        all_plain(before, vars),
        0 <= to < vars.len(),
        value <= ends(before, vars, low)[to],
        forall|i: int|
            0 <= i < vars.len() ==> {
                let akin = decision_of(#[trigger] vars[i]) == decision_of(vars[to]);
                let m = (if low {
                    -value
                } else {
                    value
                }) + offset_of(vars[i]) - offset_of(vars[to]);
                if low {
                    after.view_min(vars[i]) == if akin {
                        m
                    } else {
                        before.view_min(vars[i])
                    }
                } else {
                    after.view_max(vars[i]) == if akin {
                        m
                    } else {
                        before.view_max(vars[i])
                    }
                }
            },
    ensures
        lowered(ends(before, vars, low), ends(after, vars, low), vars, to, value, low),
{
    lemma_akin(before, vars, low);
    let cur = ends(before, vars, low);
    let next = ends(after, vars, low);
    assert forall|i: int| 0 <= i < cur.len() implies #[trigger] next[i] == if decision_of(vars[i])
        == decision_of(vars[to]) {
        least(cur[i], value + gap(vars[to], vars[i], low))
    } else {
        cur[i]
    } by {
        if decision_of(vars[i]) == decision_of(vars[to]) {
            assert(cur[i] == cur[to] + gap(vars[to], vars[i], low));
        }
    }
}

/// The end of a view of a decision of its own is lowered alone.
proof fn lemma_lowered_alone(
    ctx: &SolvingContext,
    vars: Seq<IntView>,
    cur: Seq<int>,
    next: Seq<int>,
    to: int,
    value: int,
    low: bool,
)
    requires
        all_separate(ctx, vars),
        cur.len() == vars.len(),
        0 <= to < vars.len(),
        lowered(cur, next, vars, to, value, low),
    ensures
        next == cur.update(to, least(cur[to], value)),
{
    assert forall|i: int| 0 <= i < vars.len() implies #[trigger] next[i] == cur.update(
        to,
        least(cur[to], value),
    )[i] by {
        assert(separate(ctx, vars[i], vars[to]));
        if i == to {
            assert(gap(vars[to], vars[to], low) == 0);
        }
    }
    assert(next =~= cur.update(to, least(cur[to], value)));
}

/// Tighten the bounds of the ends of an edge, and return whether one changed.
#[verifier::spinoff_prover]
fn tighten_edge(
    ctx: &mut SolvingContext,
    edge: DiffEdge,
    Ghost(vars): Ghost<Seq<IntView>>,
    Ghost(a): Ghost<int>,
    Ghost(b): Ghost<int>,
) -> (r: Result<bool, Conflict>)
    requires
        old(ctx).wf(),
        old(ctx).has_view(edge.x),
        old(ctx).has_view(edge.y),
        0 <= a < vars.len(),
        0 <= b < vars.len(),
        vars[a] == edge.x,
        vars[b] == edge.y,
        forall|i: int| 0 <= i < vars.len() ==> old(ctx).has_view(#[trigger] vars[i]),
    ensures
        final(ctx).wf(),
        final(ctx).extends(old(ctx)),
        final(ctx).narrows(old(ctx)),
        forall|ints: IntAssignment, bools: BoolAssignment|
            #[trigger] old(ctx).admits(ints, bools) && edge.x.eval(ints, bools) - edge.y.eval(
                ints,
                bools,
            ) <= edge.d ==> r is Ok && final(ctx).admits(ints, bools),
        r == Ok::<bool, Conflict>(false) ==> *final(ctx) == *old(ctx) && tight(old(ctx), edge),
        r is Ok ==> tightened(old(ctx), final(ctx), edge),
        r is Ok && all_plain(old(ctx), vars) ==> {
            &&& all_plain(final(ctx), vars)
            &&& lowered(
                ends(old(ctx), vars, false),
                ends(final(ctx), vars, false),
                vars,
                a,
                ends(old(ctx), vars, false)[b] + edge.d,
                false,
            )
            &&& lowered(
                ends(old(ctx), vars, true),
                ends(final(ctx), vars, true),
                vars,
                b,
                ends(old(ctx), vars, true)[a] + edge.d,
                true,
            )
            &&& r == Ok::<bool, Conflict>(
                ends(final(ctx), vars, false) != ends(old(ctx), vars, false) || ends(
                    final(ctx),
                    vars,
                    true,
                ) != ends(old(ctx), vars, true),
            )
        },
        r is Ok && all_separate(old(ctx), vars) ==> {
            &&& all_separate(final(ctx), vars)
            &&& ends(final(ctx), vars, false) == ends(old(ctx), vars, false).update(
                a,
                least(
                    ends(old(ctx), vars, false)[a],
                    ends(old(ctx), vars, false)[b] + edge.d,
                ),
            )
            &&& ends(final(ctx), vars, true) == ends(old(ctx), vars, true).update(
                b,
                least(ends(old(ctx), vars, true)[b], ends(old(ctx), vars, true)[a] + edge.d),
            )
            &&& r == Ok::<bool, Conflict>(
                ends(final(ctx), vars, false) != ends(old(ctx), vars, false) || ends(
                    final(ctx),
                    vars,
                    true,
                ) != ends(old(ctx), vars, true),
            )
        },
{
    let ghost c0 = *ctx;
    let ghost hi0 = ends(&c0, vars, false);
    let ghost lo0 = ends(&c0, vars, true);
    let mut changed: bool = false;
    proof {
        lemma_view_limits(ctx, edge.x);
        lemma_view_limits(ctx, edge.y);
        assert(ctx.propagation_queue@.take(ctx.propagation_queue.len() as int)
            == ctx.propagation_queue@);
    }
    // x <= y + d
    let y_max: IntVal = ctx.max(edge.y);
    let new_x_max: IntVal = saturating_add(y_max, edge.d);
    if new_x_max < ctx.max(edge.x) {
        let r: Result<(), Conflict> = require_at_most(ctx, edge.x, new_x_max);
        proof {
            assert forall|ints: IntAssignment, bools: BoolAssignment|
                #[trigger] c0.admits(ints, bools) && edge.x.eval(ints, bools) - edge.y.eval(
                    ints,
                    bools,
                ) <= edge.d implies r is Ok && ctx.admits(ints, bools) by {
                lemma_view_bounds(&c0, edge.x, ints, bools);
                lemma_view_bounds(&c0, edge.y, ints, bools);
            }
        }
        match r {
            Ok(()) => {},
            Err(conflict) => {
                return Err(conflict);
            },
        }
        changed = true;
        proof {
            if all_plain(&c0, vars) {
                lemma_shifted_restricted(&c0, ctx, vars, a, new_x_max as int, true);
                assert(hi0[a] == c0.view_max(vars[a]));
                assert(plain(&c0, vars[a]) && plain(&c0, vars[b]));
                assert(ends(ctx, vars, false)[a] == new_x_max);
                assert(ends(ctx, vars, false)[a] != hi0[a]);
                lemma_lowered(&c0, ctx, vars, a, new_x_max as int, false);
                assert(ends(ctx, vars, true) =~= lo0);
            }
        }
    }
    let ghost c1 = *ctx;
    proof {
        lemma_views_kept(&c0, &c1, vars);
        lemma_view_limits(ctx, edge.x);
        lemma_view_limits(ctx, edge.y);
        if all_plain(&c0, vars) {
            lemma_akin(&c0, vars, false);
            assert(hi0[b] == c0.view_max(vars[b]));
            assert(lowered(hi0, ends(&c1, vars, false), vars, a, hi0[b] + edge.d, false));
            assert(ends(&c1, vars, true) =~= lo0);
            assert(c1.view_min(edge.x) == -lo0[a]) by {
                assert(ends(&c1, vars, true)[a] == lo0[a]);
            }
            assert(c1.view_min(edge.y) == -lo0[b]) by {
                assert(ends(&c1, vars, true)[b] == lo0[b]);
            }
        }
    }
    // y >= x - d
    let x_min: IntVal = ctx.min(edge.x);
    let new_y_min: IntVal = saturating_sub(x_min, edge.d);
    if new_y_min > ctx.min(edge.y) {
        let r: Result<(), Conflict> = require_at_least(ctx, edge.y, new_y_min);
        proof {
            lemma_narrows_join(&c0, &c1, ctx);
            assert forall|ints: IntAssignment, bools: BoolAssignment|
                #[trigger] c0.admits(ints, bools) && edge.x.eval(ints, bools) - edge.y.eval(
                    ints,
                    bools,
                ) <= edge.d implies r is Ok && ctx.admits(ints, bools) by {
                assert(c1.admits(ints, bools));
                lemma_view_bounds(&c1, edge.x, ints, bools);
                lemma_view_bounds(&c1, edge.y, ints, bools);
            }
        }
        match r {
            Ok(()) => {},
            Err(conflict) => {
                return Err(conflict);
            },
        }
        changed = true;
        proof {
            if all_plain(&c0, vars) {
                lemma_shifted_restricted(&c1, ctx, vars, b, new_y_min as int, false);
                assert(ends(ctx, vars, true)[b] == -(new_y_min as int));
                assert(ends(ctx, vars, true)[b] != lo0[b]);
                lemma_lowered(&c1, ctx, vars, b, -(new_y_min as int), true);
                assert(ends(ctx, vars, false) =~= ends(&c1, vars, false));
            }
        }
    }
    proof {
        lemma_view_narrowed(&c0, &c1, edge.x);
        lemma_view_narrowed(&c0, &c1, edge.y);
        assert(c1.propagation_queue@.take(c1.propagation_queue.len() as int)
            == c1.propagation_queue@);
        lemma_view_narrowed(&c1, ctx, edge.x);
        lemma_view_narrowed(&c1, ctx, edge.y);
        if all_plain(&c0, vars) {
            lemma_akin(&c0, vars, true);
            assert(lowered(lo0, ends(ctx, vars, true), vars, b, lo0[a] + edge.d, true));
        }
        if all_separate(&c0, vars) {
            assert forall|i: int| 0 <= i < vars.len() implies plain(&c0, #[trigger] vars[i]) by {
                assert(separate(&c0, vars[i], vars[i]));
            }
            assert(all_plain(&c0, vars));
            lemma_lowered_alone(&c0, vars, hi0, ends(ctx, vars, false), a, hi0[b] + edge.d, false);
            lemma_lowered_alone(&c0, vars, lo0, ends(ctx, vars, true), b, lo0[a] + edge.d, true);
            assert forall|i: int, j: int| 0 <= i < vars.len() && 0 <= j < vars.len() implies
                separate(ctx, #[trigger] vars[i], #[trigger] vars[j]) && (i != j ==> vars[i]
                != vars[j]) by {
                assert(separate(&c0, vars[i], vars[j]));
                assert(plain(ctx, vars[i]) && plain(ctx, vars[j]));
            }
        }
    }
    Ok(changed)
}

proof fn lemma_views_kept(before: &SolvingContext, after: &SolvingContext, vars: Seq<IntView>)
    requires
        before.wf(),
        after.wf(),
        after.extends(before),
        after.narrows(before),
        forall|i: int| 0 <= i < vars.len() ==> before.has_view(#[trigger] vars[i]),
    ensures
        forall|i: int| 0 <= i < vars.len() ==> after.has_view(#[trigger] vars[i]),
{
    assert forall|i: int| 0 <= i < vars.len() implies after.has_view(#[trigger] vars[i]) by {
        assert(before.has_view(vars[i]));
        lemma_view_narrowed(before, after, vars[i]);
    }
}


/// Where the tightened ends can settle: what no arc lowers, and what is not above the start.
spec fn settles(arcs: Seq<WeightedArc>, limit: Seq<int>) -> bool {
    forall|k: int|
        0 <= k < arcs.len() ==> limit[(#[trigger] arcs[k]).to as int] <= limit[arcs[k].from as int]
            + arcs[k].weight
}

/// Whether the ends lie between where they settle and what the walks of the rounds so far
/// allow.
spec fn approaching(
    arcs: Seq<WeightedArc>,
    cur: Seq<int>,
    prev: Seq<int>,
    limit: Seq<int>,
    i: int,
) -> bool {
    &&& cur.len() == prev.len()
    &&& limit.len() == prev.len()
    &&& forall|v: int| 0 <= v < cur.len() ==> #[trigger] cur[v] <= best(arcs, prev, i, v)
    &&& forall|v: int| 0 <= v < cur.len() ==> #[trigger] cur[v] <= prev[v]
    &&& forall|v: int| 0 <= v < cur.len() ==> limit[v] <= #[trigger] cur[v]
}

proof fn lemma_approach(
    arcs: Seq<WeightedArc>,
    cur: Seq<int>,
    next: Seq<int>,
    prev: Seq<int>,
    limit: Seq<int>,
    i: int,
    vars: Seq<IntView>,
    low: bool,
)
    requires
        0 <= i < arcs.len(),
        vars.len() == prev.len(),
        arcs_within(arcs, prev.len() as int),
        settles(arcs, limit),
        settles(arcs, limit) ==> limit_moves(vars, limit, low),
        approaching(arcs, cur, prev, limit, i),
        lowered(
            cur,
            next,
            vars,
            arcs[i].to as int,
            cur[arcs[i].from as int] + arcs[i].weight,
            low,
        ),
    ensures
        approaching(arcs, next, prev, limit, i + 1),
        prev == limit ==> next == cur,
{
    let arc = arcs[i];
    let (f, t) = (arc.from as int, arc.to as int);
    assert(arcs[i].from < prev.len() && arcs[i].to < prev.len());
    assert(limit[t] <= limit[f] + arc.weight);
    assert(limit[f] <= cur[f] && cur[f] <= prev[f]);
    assert(limit[t] <= cur[t] && cur[t] <= prev[t]);
    assert(gap(vars[t], vars[t], low) == 0);
    assert(next[t] == least(cur[t], cur[f] + arc.weight));
    assert forall|v: int| 0 <= v < next.len() implies #[trigger] next[v] <= best(
        arcs,
        prev,
        i + 1,
        v,
    ) && next[v] <= prev[v] && limit[v] <= next[v] by {
        assert(cur[v] <= best(arcs, prev, i, v));
        assert(limit[v] <= cur[v]);
        assert(cur[v] <= prev[v]);
        if decision_of(vars[v]) == decision_of(vars[t]) {
            assert(limit[v] <= limit[t] + gap(vars[t], vars[v], low));
        }
    }
    if prev == limit {
        assert forall|v: int| 0 <= v < next.len() implies next[v] == cur[v] by {
            assert(limit[v] <= next[v] && cur[v] <= prev[v]);
        }
        assert(next =~= cur);
    }
}

/// Whether, where no arc lowers the ends, the ends of the views of one decision move together.
spec fn limit_moves(vars: Seq<IntView>, limit: Seq<int>, low: bool) -> bool {
    forall|i: int, j: int|
        #![trigger limit[i], limit[j]]
        0 <= i < vars.len() && 0 <= j < vars.len() && decision_of(vars[i]) == decision_of(vars[j])
            ==> limit[j] <= limit[i] + gap(vars[i], vars[j], low)
}

/// One of the views of a decision.
spec fn chief(vars: Seq<IntView>, decision: int) -> int {
    choose|j: int| 0 <= j < vars.len() && decision_of(#[trigger] vars[j]) == decision
}

/// The arcs between each view and the chief one of its decision, which tell that their ends move
/// together.
spec fn ties(vars: Seq<IntView>, low: bool) -> Seq<WeightedArc> {
    Seq::new(
        vars.len(),
        |i: int|
            {
                let c = chief(vars, decision_of(vars[i]));
                WeightedArc {
                    from: c as usize,
                    to: i as usize,
                    weight: gap(vars[c], vars[i], low) as IntVal,
                }
            },
    ) + Seq::new(
        vars.len(),
        |i: int|
            {
                let c = chief(vars, decision_of(vars[i]));
                WeightedArc {
                    from: i as usize,
                    to: c as usize,
                    weight: gap(vars[i], vars[c], low) as IntVal,
                }
            },
    )
}

/// What the ties are.
proof fn lemma_ties(ctx: &SolvingContext, vars: Seq<IntView>, low: bool)
    requires
        vars.len() <= usize::MAX,
        forall|i: int| 0 <= i < vars.len() ==> ctx.has_view(#[trigger] vars[i]),
    ensures
        ties(vars, low).len() == 2 * vars.len(),
        forall|k: int|
            0 <= k < 2 * vars.len() ==> {
                let arc = #[trigger] ties(vars, low)[k];
                &&& arc.from < vars.len()
                &&& arc.to < vars.len()
                &&& decision_of(vars[arc.from as int]) == decision_of(vars[arc.to as int])
                &&& arc.weight == gap(vars[arc.from as int], vars[arc.to as int], low)
            },
        forall|i: int|
            0 <= i < vars.len() ==> {
                let down = #[trigger] ties(vars, low)[i];
                let up = ties(vars, low)[vars.len() + i];
                &&& down.from == chief(vars, decision_of(vars[i]))
                &&& down.to == i
                &&& up.from == i
                &&& up.to == chief(vars, decision_of(vars[i]))
            },
{
    let n = vars.len() as int;
    let arcs = ties(vars, low);
    assert forall|i: int| 0 <= i < n implies {
        let c = chief(vars, decision_of(#[trigger] vars[i]));
        &&& 0 <= c < n
        &&& decision_of(vars[c]) == decision_of(vars[i])
        &&& gap(vars[c], vars[i], low) as IntVal == gap(vars[c], vars[i], low)
        &&& gap(vars[i], vars[c], low) as IntVal == gap(vars[i], vars[c], low)
    } by {
        let c = chief(vars, decision_of(vars[i]));
        assert(0 <= c < n && decision_of(vars[c]) == decision_of(vars[i]));
        assert(ctx.has_view(vars[i]) && ctx.has_view(vars[c]));
    }
    assert forall|k: int| 0 <= k < 2 * n implies {
        let arc = #[trigger] arcs[k];
        &&& arc.from < vars.len()
        &&& arc.to < vars.len()
        &&& decision_of(vars[arc.from as int]) == decision_of(vars[arc.to as int])
        &&& arc.weight == gap(vars[arc.from as int], vars[arc.to as int], low)
    } by {
        let i = if k < n {
            k
        } else {
            k - n
        };
        let c = chief(vars, decision_of(vars[i]));
        assert(0 <= c < n);
    }
    assert forall|i: int| 0 <= i < n implies {
        let down = #[trigger] arcs[i];
        let up = arcs[n + i];
        &&& down.from == chief(vars, decision_of(vars[i]))
        &&& down.to == i
        &&& up.from == i
        &&& up.to == chief(vars, decision_of(vars[i]))
    } by {
        let c = chief(vars, decision_of(vars[i]));
        assert(0 <= c < n);
    }
}

/// Where the ties lower no end, the ends of the views of one decision move together.
proof fn lemma_limit_moves(
    ctx: &SolvingContext,
    vars: Seq<IntView>,
    arcs: Seq<WeightedArc>,
    limit: Seq<int>,
    low: bool,
)
    requires
        vars.len() <= usize::MAX,
        forall|i: int| 0 <= i < vars.len() ==> ctx.has_view(#[trigger] vars[i]),
        limit.len() == vars.len(),
        settles(ties(vars, low) + arcs, limit),
    ensures
        limit_moves(vars, limit, low),
{
    lemma_ties(ctx, vars, low);
    let t = ties(vars, low);
    let all = t + arcs;
    let n = vars.len() as int;
    assert forall|i: int, j: int|
        #![trigger limit[i], limit[j]]
        0 <= i < n && 0 <= j < n && decision_of(vars[i]) == decision_of(vars[j]) implies limit[j]
        <= limit[i] + gap(vars[i], vars[j], low) by {
        let c = chief(vars, decision_of(vars[i]));
        assert(t[j].from == c && t[j].to == j);
        assert(t[i].from == c && t[n + i].from == i && t[n + i].to == c);
        assert(all[j] == t[j] && all[n + i] == t[n + i]);
        assert(limit[all[j].to as int] <= limit[all[j].from as int] + all[j].weight);
        assert(limit[all[n + i].to as int] <= limit[all[n + i].from as int] + all[n + i].weight);
    }
}

/// At the start of a round the ties allow what the ends are.
proof fn lemma_ties_passed(
    ctx: &SolvingContext,
    vars: Seq<IntView>,
    arcs: Seq<WeightedArc>,
    prev: Seq<int>,
    limit: Seq<int>,
    low: bool,
)
    requires
        vars.len() <= usize::MAX,
        all_plain(ctx, vars),
        forall|i: int| 0 <= i < vars.len() ==> ctx.has_view(#[trigger] vars[i]),
        approaching(ties(vars, low) + arcs, ends(ctx, vars, low), prev, limit, 0),
    ensures
        approaching(
            ties(vars, low) + arcs,
            ends(ctx, vars, low),
            prev,
            limit,
            2 * vars.len() as int,
        ),
{
    lemma_ties(ctx, vars, low);
    lemma_akin(ctx, vars, low);
    let t = ties(vars, low);
    let all = t + arcs;
    let cur = ends(ctx, vars, low);
    let m = 2 * vars.len() as int;
    assert forall|v: int| 0 <= v < cur.len() implies #[trigger] cur[v] <= best(
        all,
        prev,
        m,
        v,
    ) by {
        lemma_best(all, prev, m, v);
        assert(cur[v] <= prev[v]);
        if best(all, prev, m, v) != prev[v] {
            let j = choose|j: int|
                0 <= j < m && (#[trigger] all[j]).to == v && best(all, prev, m, v)
                    == prev[all[j].from as int] + all[j].weight;
            assert(all[j] == t[j]);
            let f = t[j].from as int;
            assert(cur[f] <= prev[f]);
            assert(cur[v] == cur[f] + gap(vars[f], vars[v], low));
        }
    }
}

/// The graph of the participants and the ties has potentials where an assignment keeps the
/// edges.
proof fn lemma_participants_feasible(
    part: Participants,
    ctx: &SolvingContext,
    edges: Seq<DiffEdge>,
    low: bool,
)
    requires
        part.of(ctx, edges),
        part.table.int_vars.len() <= usize::MAX,
        all_plain(ctx, part.table.int_vars@),
        forall|i: int|
            0 <= i < part.table.int_vars.len() ==> ctx.has_view(#[trigger] part.table.int_vars[i]),
        keepable(ctx, edges),
    ensures
        arcs_within(
            ties(part.table.int_vars@, low) + part.arcs(edges, low),
            part.table.int_vars.len() as int,
        ),
        has_potentials(
            ties(part.table.int_vars@, low) + part.arcs(edges, low),
            part.table.int_vars.len() as int,
        ),
{
    let (ints, bools) = choose|ints: IntAssignment, bools: BoolAssignment| #[trigger]
        participants_hold(ctx, edges, ints, bools);
    let vars = part.table.int_vars@;
    let t = ties(vars, low);
    let arcs = part.arcs(edges, low);
    let all = t + arcs;
    lemma_ties(ctx, vars, low);
    let p = Seq::new(
        vars.len(),
        |v: int|
            if low {
                -vars[v].eval(ints, bools)
            } else {
                vars[v].eval(ints, bools)
            },
    );
    assert forall|v: int| 0 <= v < vars.len() implies #[trigger] vars[v].eval(ints, bools) == ints(
        decision_of(vars[v]),
    ) + offset_of(vars[v]) by {
        assert(plain(ctx, vars[v]));
    }
    assert forall|k: int| 0 <= k < all.len() implies (#[trigger] all[k]).from < vars.len()
        && all[k].to < vars.len() && p[all[k].to as int] <= p[all[k].from as int]
        + all[k].weight by {
        if k < t.len() {
            assert(all[k] == t[k]);
        } else {
            let i = k - t.len();
            assert(all[k] == arcs[i]);
            lemma_arc_ends(part, ctx, edges, low, i);
            let e = edges[part.edges@[i] as int];
            lemma_member(part, ctx, edges, i);
            assert(e.x.eval(ints, bools) - e.y.eval(ints, bools) <= e.d);
        }
    }
    assert(admissible(all, p));
    assert(p.len() == vars.len());
}

/// Where values of separate views keep the edges that participate, so does an assignment.
proof fn lemma_feasible_keepable(ctx: &SolvingContext, edges: Seq<DiffEdge>)
    requires
        feasible(ctx, edges),
        independent(ctx, edges),
    ensures
        keepable(ctx, edges),
        plain_ends(ctx, edges),
{
    let s = choose|s: ViewValues| #[trigger] participants_kept(ctx, edges, s);
    let view_of = |v: int|
        choose|w: IntView| #[trigger] end_of(ctx, edges, w) && decision_of(w) == v;
    let ints: IntAssignment = |v: int| s(view_of(v)) - offset_of(view_of(v));
    let bools: BoolAssignment = |b: int| false;
    assert forall|w: IntView| #[trigger] end_of(ctx, edges, w) implies plain(ctx, w) && w.eval(
        ints,
        bools,
    ) == s(w) by {
        let u = view_of(decision_of(w));
        assert(end_of(ctx, edges, u) && decision_of(u) == decision_of(w));
        let k = choose|k: int|
            0 <= k < edges.len() && participates(ctx, #[trigger] edges[k]) && (edges[k].x == w
                || edges[k].y == w);
        let l = choose|l: int|
            0 <= l < edges.len() && participates(ctx, #[trigger] edges[l]) && (edges[l].x == u
                || edges[l].y == u);
        assert(separate(ctx, edges[k].x, edges[l].x) && separate(ctx, edges[k].x, edges[l].y)
            && separate(ctx, edges[k].y, edges[l].y));
        assert(separate(ctx, edges[l].x, edges[k].x) && separate(ctx, edges[l].x, edges[k].y)
            && separate(ctx, edges[l].y, edges[k].y));
        assert(u == w);
        assert(1 * ints(decision_of(w)) == ints(decision_of(w)));
    }
    assert forall|k: int|
        0 <= k < edges.len() && participates(ctx, #[trigger] edges[k]) implies edges[k].x.eval(
        ints,
        bools,
    ) - edges[k].y.eval(ints, bools) <= edges[k].d && plain(ctx, edges[k].x) && plain(
        ctx,
        edges[k].y,
    ) by {
        assert(end_of(ctx, edges, edges[k].x) && end_of(ctx, edges, edges[k].y));
        assert(s(edges[k].x) - s(edges[k].y) <= edges[k].d);
    }
    assert(participants_hold(ctx, edges, ints, bools));
}

proof fn lemma_arc_ends(
    part: Participants,
    ctx: &SolvingContext,
    edges: Seq<DiffEdge>,
    low: bool,
    k: int,
)
    requires
        part.of(ctx, edges),
        0 <= k < part.edges.len(),
        part.table.int_vars.len() <= usize::MAX,
    ensures
        ({
            let e = edges[part.edges@[k] as int];
            let arc = part.arcs(edges, low)[k];
            let vars = part.table.int_vars@;
            &&& arc.from < vars.len()
            &&& arc.to < vars.len()
            &&& arc.weight == e.d
            &&& vars[arc.from as int] == if low {
                e.x
            } else {
                e.y
            }
            &&& vars[arc.to as int] == if low {
                e.y
            } else {
                e.x
            }
            &&& part.table.number(e.x) == if low {
                arc.from as int
            } else {
                arc.to as int
            }
            &&& part.table.number(e.y) == if low {
                arc.to as int
            } else {
                arc.from as int
            }
        }),
{
    let e = edges[part.edges@[k] as int];
    lemma_member(part, ctx, edges, k);
    part.table.lemma_number(e.x);
    part.table.lemma_number(e.y);
}

/// Walks of all nodes end where no arc lowers them.
proof fn lemma_walks_settle(arcs: Seq<WeightedArc>, init: Seq<int>)
    requires
        arcs_within(arcs, init.len() as int),
        has_potentials(arcs, init.len() as int),
        init.len() > 0,
    ensures
        settles(arcs, walks(arcs, init, (init.len() - 1) as nat)),
        forall|v: int|
            0 <= v < init.len() ==> #[trigger] walks(arcs, init, (init.len() - 1) as nat)[v]
                <= init[v],
        walks(arcs, init, (init.len() - 1) as nat).len() == init.len(),
{
    let limit = walks(arcs, init, (init.len() - 1) as nat);
    assert forall|k: int| 0 <= k < arcs.len() implies limit[(#[trigger] arcs[k]).to as int]
        <= limit[arcs[k].from as int] + arcs[k].weight by {
        let v = arcs[k].to as int;
        lemma_walks_stable(arcs, init, v);
        lemma_best(arcs, limit, arcs.len() as int, v);
    }
    assert forall|v: int| 0 <= v < init.len() implies #[trigger] limit[v] <= init[v] by {
        lemma_walks_decrease(arcs, init, 0, (init.len() - 1) as nat, v);
    }
}

/// Tighten the bounds of the ends of the edges that hold, until nothing changes, or as many
/// rounds were made as there are ends. The edges are returned unchanged.
///
/// The rounds suffice where the edges can be kept, and their ends are decisions plus offsets
/// whose domains are intervals.
#[verifier::spinoff_prover]
pub fn simplify_bound_tightening(model: &mut Model, edges: Vec<DiffEdge>) -> (r: Result<
    Vec<DiffEdge>,
    Conflict,
>)
    requires
        old(model).wf(),
        forall|k: int|
            0 <= k < edges.len() ==> old(model).ctx.has_view((#[trigger] edges[k]).x) && old(
                model,
            ).ctx.has_view(edges[k].y) && (edges[k].gate matches Some(g) ==> old(
                model,
            ).ctx.knows(g)),
    ensures
        final(model).wf(),
        final(model).ctx.extends(&old(model).ctx),
        final(model).ctx.narrows(&old(model).ctx),
        final(model).diff_logic == old(model).diff_logic,
        final(model).linears == old(model).linears,
        final(model).clauses == old(model).clauses,
        final(model).aliases == old(model).aliases,
        final(model).equalities == old(model).equalities,
        r matches Ok(out) ==> out@ == edges@,
        forall|ints: IntAssignment, bools: BoolAssignment|
            #[trigger] old(model).ctx.admits(ints, bools) && participants_hold(
                &old(model).ctx,
                edges@,
                ints,
                bools,
            ) ==> r is Ok && final(model).ctx.admits(ints, bools),
        r is Ok ==> forall|k: int|
            0 <= k < edges.len() && participates(&old(model).ctx, #[trigger] edges[k])
                ==> tightened(&old(model).ctx, &final(model).ctx, edges[k]),
        r is Ok && feasible(&old(model).ctx, edges@) && independent(&old(model).ctx, edges@)
            ==> forall|k: int|
            0 <= k < edges.len() && participates(&old(model).ctx, #[trigger] edges[k]) ==> tight(
                &final(model).ctx,
                edges[k],
            ),
        // No gaps arise between the bounds.
        r is Ok && independent(&old(model).ctx, edges@) ==> stay_independent(
            &old(model).ctx,
            edges@,
            &final(model).ctx,
        ),
        // The ends may be views of the same decisions.
        r is Ok && keepable(&old(model).ctx, edges@) && plain_ends(&old(model).ctx, edges@)
            ==> all_tight(&old(model).ctx, edges@, &final(model).ctx),
        // Whatever the ends are, only the number of rounds can end the tightening early.
        r is Ok ==> exists|rounds: Seq<SolvingContext>| #[trigger]
            rounds_made(&old(model).ctx, edges@, rounds, &final(model).ctx) && (all_tight(
                &old(model).ctx,
                edges@,
                &final(model).ctx,
            ) || rounds.len() == end_views(&old(model).ctx, edges@).len() + 1),
{
    let ghost start = model.ctx;
    let part: Participants = find_participants(&model.ctx, &edges);
    let n: usize = part.table.int_vars.len();
    let ghost vars = part.table.int_vars@;
    let ghost nice = keepable(&start, edges@) && plain_ends(&start, edges@);
    let ghost up = ties(vars, false) + part.arcs(edges@, false);
    let ghost down = ties(vars, true) + part.arcs(edges@, true);
    let ghost apart = independent(&start, edges@);
    let ghost mut rounds: Seq<SolvingContext> = seq![start];
    let ghost hi0 = ends(&start, vars, false);
    let ghost lo0 = ends(&start, vars, true);
    let ghost hi_end = walks(up, hi0, (n - 1) as nat);
    let ghost lo_end = walks(down, lo0, (n - 1) as nat);
    proof {
        assert(model.ctx.propagation_queue@.take(model.ctx.propagation_queue.len() as int)
            == model.ctx.propagation_queue@);
        assert forall|i: int| 0 <= i < vars.len() implies start.has_view(#[trigger] vars[i]) by {
            lemma_numbered_end(part, &start, edges@, i);
        }
        assert(edges@.len() == edges.len());
        lemma_ends_counted(part, &start, edges@);
        if apart {
            lemma_ends_separate(part, &start, edges@);
        }
        if feasible(&start, edges@) && independent(&start, edges@) {
            lemma_feasible_keepable(&start, edges@);
        }
        if nice {
            lemma_ends_plain(part, &start, edges@);
            lemma_ties(&start, vars, false);
            lemma_ties(&start, vars, true);
            lemma_participants_feasible(part, &start, edges@, false);
            lemma_participants_feasible(part, &start, edges@, true);
            if n > 0 {
                lemma_walks_settle(up, hi0);
                lemma_walks_settle(down, lo0);
                lemma_limit_moves(&start, vars, part.arcs(edges@, false), hi_end, false);
                lemma_limit_moves(&start, vars, part.arcs(edges@, true), lo_end, true);
            }
        }
    }
    if part.edges.len() == 0 {
        proof {
            assert forall|k: int|
                0 <= k < edges.len() && participates(&start, #[trigger] edges[k]) implies tight(
                &start,
                edges[k],
            ) by {
                let i = lemma_listed(part, &start, edges@, k);
            }
            assert forall|k: int|
                0 <= k < edges.len() && participates(&start, #[trigger] edges[k]) implies tightened(
                &start,
                &model.ctx,
                edges[k],
            ) by {
                let i = lemma_listed(part, &start, edges@, k);
            }
            assert forall|ints: IntAssignment, bools: BoolAssignment|
                #[trigger] start.admits(ints, bools) implies model.ctx.admits(ints, bools) by {}
            assert(rounds_made(&start, edges@, rounds, &model.ctx));
        }
        return Ok(edges);
    }
    proof {
        lemma_member(part, &start, edges@, 0);
    }
    let mut round: usize = 0;
    while round < n
        invariant_except_break
            round <= n,
            nice ==> round < n,
            nice ==> approaching(up, ends(&model.ctx, vars, false), walks(up, hi0, round as nat), hi_end, 0),
            nice ==> approaching(down, ends(&model.ctx, vars, true), walks(down, lo0, round as nat), lo_end, 0),
        invariant
            start == old(model).ctx,
            start.wf(),
            n == vars.len(),
            vars == part.table.int_vars@,
            part.of(&start, edges@),
            up == ties(vars, false) + part.arcs(edges@, false),
            down == ties(vars, true) + part.arcs(edges@, true),
            nice == (keepable(&start, edges@) && plain_ends(&start, edges@)),
            nice ==> arcs_within(up, n as int) && arcs_within(down, n as int),
            nice ==> settles(up, hi_end) && settles(down, lo_end),
            nice ==> limit_moves(vars, hi_end, false) && limit_moves(vars, lo_end, true),
            ties(vars, false).len() == 2 * n,
            ties(vars, true).len() == 2 * n,
            rounds_made(&start, edges@, rounds, &model.ctx),
            rounds.len() == round + 1,
            hi0.len() == n,
            lo0.len() == n,
            hi_end == walks(up, hi0, (n - 1) as nat),
            lo_end == walks(down, lo0, (n - 1) as nat),
            forall|i: int| 0 <= i < vars.len() ==> start.has_view(#[trigger] vars[i]),
            model.wf(),
            model.ctx.extends(&start),
            model.ctx.narrows(&start),
            model.diff_logic == old(model).diff_logic,
            model.linears == old(model).linears,
            model.clauses == old(model).clauses,
            model.aliases == old(model).aliases,
            model.equalities == old(model).equalities,
            forall|ints: IntAssignment, bools: BoolAssignment|
                #[trigger] start.admits(ints, bools) && participants_hold(
                    &start,
                    edges@,
                    ints,
                    bools,
                ) ==> model.ctx.admits(ints, bools),
            nice ==> all_plain(&model.ctx, vars),
            apart ==> all_separate(&model.ctx, vars),
            n > 0,
            round > 0 ==> all_tightened(part, edges@, &start, &model.ctx, part.edges.len() as int),
        ensures
            all_tightened(part, edges@, &start, &model.ctx, part.edges.len() as int),
            (nice || rounds.len() != n + 1) ==> forall|i: int|
                0 <= i < part.edges.len() ==> tight(
                    &model.ctx,
                    edges@[#[trigger] part.edges[i] as int],
                ),
        decreases n - round,
    {
        let mut changed: bool = false;
        let ghost begin = model.ctx;
        let ghost prev_hi = walks(up, hi0, round as nat);
        let ghost prev_lo = walks(down, lo0, round as nat);
        proof {
            assert(model.ctx.propagation_queue@.take(model.ctx.propagation_queue.len() as int)
                == model.ctx.propagation_queue@);
            lemma_views_kept(&start, &begin, vars);
            if nice {
                lemma_ties_passed(&begin, vars, part.arcs(edges@, false), prev_hi, hi_end, false);
                lemma_ties_passed(&begin, vars, part.arcs(edges@, true), prev_lo, lo_end, true);
            }
            if nice && round == n - 1 {
                assert(prev_hi == hi_end && prev_lo == lo_end);
            }
        }
        let mut i: usize = 0;
        while i < part.edges.len()
            invariant
                i <= part.edges.len(),
                round < n,
                start == old(model).ctx,
                start.wf(),
                begin.wf(),
                n == vars.len(),
                vars == part.table.int_vars@,
                part.of(&start, edges@),
                up == ties(vars, false) + part.arcs(edges@, false),
                down == ties(vars, true) + part.arcs(edges@, true),
                nice ==> arcs_within(up, n as int) && arcs_within(down, n as int),
                nice ==> settles(up, hi_end) && settles(down, lo_end),
                nice ==> limit_moves(vars, hi_end, false) && limit_moves(vars, lo_end, true),
                ties(vars, false).len() == 2 * n,
                ties(vars, true).len() == 2 * n,
                forall|j: int| 0 <= j < vars.len() ==> begin.has_view(#[trigger] vars[j]),
                model.ctx.extends(&begin),
                model.ctx.narrows(&begin),
                all_tightened(part, edges@, &begin, &model.ctx, i as int),
                prev_hi.len() == n,
                prev_lo.len() == n,
                forall|j: int| 0 <= j < vars.len() ==> start.has_view(#[trigger] vars[j]),
                model.wf(),
                model.ctx.extends(&start),
                model.ctx.narrows(&start),
                model.diff_logic == old(model).diff_logic,
                model.linears == old(model).linears,
                model.clauses == old(model).clauses,
                model.aliases == old(model).aliases,
                model.equalities == old(model).equalities,
                forall|ints: IntAssignment, bools: BoolAssignment|
                    #[trigger] start.admits(ints, bools) && participants_hold(
                        &start,
                        edges@,
                        ints,
                        bools,
                    ) ==> model.ctx.admits(ints, bools),
                nice ==> all_plain(&model.ctx, vars),
                apart ==> all_separate(&model.ctx, vars),
                round > 0 ==> all_tightened(
                    part,
                    edges@,
                    &start,
                    &model.ctx,
                    part.edges.len() as int,
                ),
                all_tightened(part, edges@, &start, &model.ctx, i as int),
                nice ==> approaching(
                    up,
                    ends(&model.ctx, vars, false),
                    prev_hi,
                    hi_end,
                    2 * n + i,
                ),
                nice ==> approaching(
                    down,
                    ends(&model.ctx, vars, true),
                    prev_lo,
                    lo_end,
                    2 * n + i,
                ),
                nice && round == n - 1 ==> prev_hi == hi_end && prev_lo == lo_end,
                nice && round == n - 1 ==> !changed,
                !changed ==> model.ctx == begin,
                !changed ==> forall|j: int|
                    0 <= j < i ==> tight(&begin, edges@[#[trigger] part.edges[j] as int]),
            decreases part.edges.len() - i,
        {
            let idx: usize = part.edges[i];
            proof {
                lemma_member(part, &start, edges@, i as int);
            }
            let edge: DiffEdge = edges[idx];
            let ghost a = part.table.number(edge.x);
            let ghost b = part.table.number(edge.y);
            let ghost mid = model.ctx;
            proof {
                lemma_member(part, &start, edges@, i as int);
                lemma_arc_ends(part, &start, edges@, false, i as int);
                lemma_arc_ends(part, &start, edges@, true, i as int);
                lemma_views_kept(&start, &mid, vars);
                assert(mid.has_view(vars[a]) && mid.has_view(vars[b]));
            }
            let r: Result<bool, Conflict> = tighten_edge(
                &mut model.ctx,
                edge,
                Ghost(vars),
                Ghost(a),
                Ghost(b),
            );
            proof {
                lemma_narrows_join(&start, &mid, &model.ctx);
                lemma_narrows_join(&begin, &mid, &model.ctx);
                assert forall|ints: IntAssignment, bools: BoolAssignment|
                    #[trigger] start.admits(ints, bools) && participants_hold(
                        &start,
                        edges@,
                        ints,
                        bools,
                    ) implies r is Ok && model.ctx.admits(ints, bools) by {
                    assert(mid.admits(ints, bools));
                    assert(edges@[idx as int].x.eval(ints, bools) - edges@[idx as int].y.eval(
                        ints,
                        bools,
                    ) <= edges@[idx as int].d);
                }
            }
            match r {
                Ok(c) => {
                    proof {
                        lemma_all_tightened(
                            part,
                            edges@,
                            &start,
                            &start,
                            &mid,
                            &model.ctx,
                            i as int,
                        );
                        lemma_all_tightened(
                            part,
                            edges@,
                            &start,
                            &begin,
                            &mid,
                            &model.ctx,
                            i as int,
                        );
                        if nice {
                            assert(up[2 * n + i] == part.arcs(edges@, false)[i as int]);
                            assert(down[2 * n + i] == part.arcs(edges@, true)[i as int]);
                            lemma_approach(
                                up,
                                ends(&mid, vars, false),
                                ends(&model.ctx, vars, false),
                                prev_hi,
                                hi_end,
                                2 * n + i,
                                vars,
                                false,
                            );
                            lemma_approach(
                                down,
                                ends(&mid, vars, true),
                                ends(&model.ctx, vars, true),
                                prev_lo,
                                lo_end,
                                2 * n + i,
                                vars,
                                true,
                            );
                        }
                    }
                    if c {
                        changed = true;
                    }
                },
                Err(conflict) => {
                    return Err(conflict);
                },
            }
            i = i + 1;
        }
        proof {
            if nice {
                lemma_round_done(
                    up,
                    hi0,
                    round as nat,
                    ends(&model.ctx, vars, false),
                    hi_end,
                );
                lemma_round_done(
                    down,
                    lo0,
                    round as nat,
                    ends(&model.ctx, vars, true),
                    lo_end,
                );
            }
        }
        if !changed {
            break ;
        }
        proof {
            let before = rounds;
            rounds = rounds.push(model.ctx);
            assert(edges@.len() == edges.len());
            lemma_round_added(part, &start, edges@, before, &begin, &model.ctx);
        }
        round = round + 1;
    }
    proof {
        assert forall|k: int|
            0 <= k < edges.len() && participates(&start, #[trigger] edges[k]) implies tightened(
            &start,
            &model.ctx,
            edges[k],
        ) by {
            let i = lemma_listed(part, &start, edges@, k);
            assert(tightened(&start, &model.ctx, edges@[part.edges[i] as int]));
        }
        if apart {
            lemma_separate_ends(part, &start, edges@, &model.ctx);
        }
        if nice || rounds.len() != n + 1 {
            assert forall|k: int|
                0 <= k < edges.len() && participates(&start, #[trigger] edges[k]) implies tight(
                &model.ctx,
                edges[k],
            ) by {
                let i = lemma_listed(part, &start, edges@, k);
                assert(tight(&model.ctx, edges@[part.edges[i] as int]));
            }
        }
    }
    Ok(edges)
}

/// Whether the ends of the first `upto` edges were tightened.
spec fn all_tightened(
    part: Participants,
    edges: Seq<DiffEdge>,
    start: &SolvingContext,
    ctx: &SolvingContext,
    upto: int,
) -> bool {
    forall|j: int|
        0 <= j < upto ==> tightened(start, ctx, edges[(#[trigger] part.edges[j]) as int])
}

/// Ends that were tightened stay so, and those of another edge were tightened.
proof fn lemma_all_tightened(
    part: Participants,
    edges: Seq<DiffEdge>,
    first: &SolvingContext,
    start: &SolvingContext,
    mid: &SolvingContext,
    ctx: &SolvingContext,
    i: int,
)
    requires
        start.wf(),
        mid.wf(),
        ctx.wf(),
        mid.extends(start),
        mid.narrows(start),
        ctx.extends(mid),
        ctx.narrows(mid),
        0 <= i < part.edges.len(),
        part.of(first, edges),
        forall|j: int|
            0 <= j < part.table.int_vars.len() ==> start.has_view(
                #[trigger] part.table.int_vars[j],
            ),
        tightened(mid, ctx, edges[part.edges[i] as int]),
    ensures
        all_tightened(part, edges, start, mid, i) ==> all_tightened(part, edges, start, ctx, i + 1),
        all_tightened(part, edges, start, mid, part.edges.len() as int) ==> all_tightened(
            part,
            edges,
            start,
            ctx,
            part.edges.len() as int,
        ),
{
    assert forall|j: int| 0 <= j < part.edges.len() && (j == i || tightened(
        start,
        mid,
        edges[part.edges[j] as int],
    )) implies tightened(start, ctx, edges[(#[trigger] part.edges[j]) as int]) by {
        let edge = edges[part.edges[j] as int];
        lemma_member(part, first, edges, j);
        lemma_arc_ends(part, first, edges, false, j);
        let (a, b) = (part.table.number(edge.x), part.table.number(edge.y));
        assert(start.has_view(part.table.int_vars[a]) && start.has_view(part.table.int_vars[b]));
        lemma_view_narrowed(start, mid, edge.x);
        lemma_view_narrowed(start, mid, edge.y);
        lemma_view_narrowed(mid, ctx, edge.x);
        lemma_view_narrowed(mid, ctx, edge.y);
    }
}

/// A round is added to those that were made.
proof fn lemma_round_added(
    part: Participants,
    start: &SolvingContext,
    edges: Seq<DiffEdge>,
    rounds: Seq<SolvingContext>,
    before: &SolvingContext,
    after: &SolvingContext,
)
    requires
        part.of(start, edges),
        edges.len() <= usize::MAX,
        rounds_made(start, edges, rounds, before),
        after.narrows(before),
        all_tightened(part, edges, before, after, part.edges.len() as int),
    ensures
        rounds_made(start, edges, rounds.push(*after), after),
{
    let more = rounds.push(*after);
    assert forall|k: int| 0 <= k < edges.len() && participates(start, #[trigger] edges[k]) implies
        tightened(before, after, edges[k]) by {
        let i = lemma_listed(part, start, edges, k);
        assert(tightened(before, after, edges[part.edges[i] as int]));
    }
    assert forall|i: int, j: int| 0 <= i && j == i + 1 && j < more.len() implies round_made(
        start,
        edges,
        &(#[trigger] more[i]),
        &(#[trigger] more[j]),
    ) by {
        if j < rounds.len() {
            assert(more[i] == rounds[i] && more[j] == rounds[j]);
        } else {
            assert(more[i] == rounds.last());
        }
    }
}

/// What a whole round allows is what walks of one more arc allow.
proof fn lemma_round_done(
    arcs: Seq<WeightedArc>,
    init: Seq<int>,
    round: nat,
    cur: Seq<int>,
    limit: Seq<int>,
)
    requires
        approaching(arcs, cur, walks(arcs, init, round), limit, arcs.len() as int),
        walks(arcs, init, round).len() == init.len(),
    ensures
        approaching(arcs, cur, walks(arcs, init, round + 1), limit, 0),
{
    let next = walks(arcs, init, round + 1);
    assert forall|v: int| 0 <= v < cur.len() implies #[trigger] cur[v] <= next[v] by {
        assert(cur[v] <= best(arcs, walks(arcs, init, round), arcs.len() as int, v));
    }
}

/// The numbered ends are plain views.
proof fn lemma_ends_plain(part: Participants, ctx: &SolvingContext, edges: Seq<DiffEdge>)
    requires
        part.of(ctx, edges),
        plain_ends(ctx, edges),
    ensures
        all_plain(ctx, part.table.int_vars@),
{
    let vars = part.table.int_vars@;
    assert forall|i: int| 0 <= i < vars.len() implies plain(ctx, #[trigger] vars[i]) by {
        lemma_numbered_end(part, ctx, edges, i);
        let k = choose|k: int|
            0 <= k < edges.len() && participates(ctx, #[trigger] edges[k]) && (edges[k].x == vars[i]
                || edges[k].y == vars[i]);
        assert(participates(ctx, edges[k]));
    }
}

/// There are as many numbers as ends.
proof fn lemma_ends_counted(part: Participants, ctx: &SolvingContext, edges: Seq<DiffEdge>)
    requires
        part.of(ctx, edges),
        edges.len() <= usize::MAX,
    ensures
        end_views(ctx, edges).finite(),
        end_views(ctx, edges).len() == part.table.int_vars.len(),
{
    let vars = part.table.int_vars@;
    assert(part.table.wf()) by {
        reveal(Participants::of);
    }
    assert(vars.no_duplicates()) by {
        assert forall|i: int, j: int| 0 <= i < vars.len() && 0 <= j < vars.len() && i != j implies
            vars[i] != vars[j] by {
            part.table.lemma_numbered(i);
            part.table.lemma_numbered(j);
        }
    }
    assert forall|v: IntView| #[trigger] vars.to_set().contains(v) == end_views(
        ctx,
        edges,
    ).contains(v) by {
        if vars.contains(v) {
            let i = vars.index_of(v);
            lemma_numbered_end(part, ctx, edges, i);
        }
        if end_of(ctx, edges, v) {
            let k = choose|k: int|
                0 <= k < edges.len() && participates(ctx, #[trigger] edges[k]) && (edges[k].x == v
                    || edges[k].y == v);
            let i = lemma_listed(part, ctx, edges, k);
            lemma_member(part, ctx, edges, i);
            part.table.lemma_number(v);
            assert(vars[part.table.number(v)] == v);
        }
    }
    assert(vars.to_set() =~= end_views(ctx, edges));
    vars.unique_seq_to_set();
}

/// The numbered ends are plain views of different decisions.
proof fn lemma_ends_separate(part: Participants, ctx: &SolvingContext, edges: Seq<DiffEdge>)
    requires
        part.of(ctx, edges),
        independent(ctx, edges),
        part.table.int_vars.len() <= usize::MAX,
    ensures
        all_separate(ctx, part.table.int_vars@),
{
    let vars = part.table.int_vars@;
    assert forall|i: int, j: int| 0 <= i < vars.len() && 0 <= j < vars.len() implies separate(
        ctx,
        #[trigger] vars[i],
        #[trigger] vars[j],
    ) && (i != j ==> vars[i] != vars[j]) by {
        lemma_numbered_end(part, ctx, edges, i);
        lemma_numbered_end(part, ctx, edges, j);
        let k = choose|k: int|
            0 <= k < edges.len() && participates(ctx, #[trigger] edges[k]) && (edges[k].x == vars[i]
                || edges[k].y == vars[i]);
        let l = choose|l: int|
            0 <= l < edges.len() && participates(ctx, #[trigger] edges[l]) && (edges[l].x == vars[j]
                || edges[l].y == vars[j]);
        assert(separate(ctx, edges[k].x, edges[l].x) && separate(ctx, edges[k].x, edges[l].y)
            && separate(ctx, edges[k].y, edges[l].y));
        assert(separate(ctx, edges[l].x, edges[k].x) && separate(ctx, edges[l].x, edges[k].y)
            && separate(ctx, edges[l].y, edges[k].y));
        part.table.lemma_numbered(i);
        part.table.lemma_numbered(j);
    }
}

/// Numbered ends that are separate are so as ends of edges.
proof fn lemma_separate_ends(
    part: Participants,
    start: &SolvingContext,
    edges: Seq<DiffEdge>,
    ctx: &SolvingContext,
)
    requires
        part.of(start, edges),
        edges.len() <= usize::MAX,
        part.table.int_vars.len() <= usize::MAX,
        all_separate(ctx, part.table.int_vars@),
    ensures
        stay_independent(start, edges, ctx),
{
    let vars = part.table.int_vars@;
    assert forall|j: int, k: int|
        0 <= j < edges.len() && 0 <= k < edges.len() && participates(start, edges[j])
            && participates(start, edges[k]) implies separate(
        ctx,
        (#[trigger] edges[j]).x,
        (#[trigger] edges[k]).x,
    ) && separate(ctx, edges[j].x, edges[k].y) && separate(ctx, edges[j].y, edges[k].y) by {
        let a = lemma_listed(part, start, edges, j);
        let b = lemma_listed(part, start, edges, k);
        lemma_arc_ends(part, start, edges, false, a);
        lemma_arc_ends(part, start, edges, false, b);
        let (jx, jy) = (part.table.number(edges[j].x), part.table.number(edges[j].y));
        let (kx, ky) = (part.table.number(edges[k].x), part.table.number(edges[k].y));
        assert(separate(ctx, vars[jx], vars[kx]) && separate(ctx, vars[jx], vars[ky]) && separate(
            ctx,
            vars[jy],
            vars[ky],
        ));
    }
}

} // verus!
