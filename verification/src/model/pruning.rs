//! Pruning loses nothing: the edges that are left mean what all edges mean.

use vstd::prelude::*;

use crate::model::diff_logic::DiffEdge;
use crate::model::simplify::{
    bounds_fit, bounds_span, globally, implied, pruned, satisfiable, survives, ViewValues,
};
use crate::solver::view::{BoolAssignment, IntAssignment, IntView};

verus! {

/// Whether the edges without a gate bound how far `x` can be above the view.
pub open spec fn bounded_by(edges: Seq<DiffEdge>, x: IntView, view: IntView) -> bool {
    exists|c: int| #[trigger] implied(edges, x, view, c)
}

/// Whether `c` is the least bound on how far `x` can be above the view.
pub open spec fn least_bound(edges: Seq<DiffEdge>, x: IntView, view: IntView, c: int) -> bool {
    implied(edges, x, view, c) && !implied(edges, x, view, c - 1)
}

/// The least bound on how far `x` can be above the view.
pub open spec fn bound(edges: Seq<DiffEdge>, x: IntView, view: IntView) -> int {
    choose|c: int| #[trigger] least_bound(edges, x, view, c)
}

proof fn lemma_implied_above(edges: Seq<DiffEdge>, x: IntView, view: IntView, c: int, d: int)
    requires
        implied(edges, x, view, c),
        c <= d,
    ensures
        implied(edges, x, view, d),
{
    assert forall|s: ViewValues| #[trigger] globally(edges, s) implies s(x) - s(view) <= d by {}
}

proof fn lemma_least_bound(
    edges: Seq<DiffEdge>,
    x: IntView,
    view: IntView,
    s: ViewValues,
    c: int,
) -> (r: int)
    requires
        globally(edges, s),
        implied(edges, x, view, c),
    ensures
        least_bound(edges, x, view, r),
    decreases c - (s(x) - s(view)),
{
    assert(s(x) - s(view) <= c);
    if implied(edges, x, view, c - 1) {
        assert(s(x) - s(view) <= c - 1);
        lemma_least_bound(edges, x, view, s, c - 1)
    } else {
        c
    }
}

/// The bound of a view is implied, and every implied bound is at least as large.
proof fn lemma_bound(edges: Seq<DiffEdge>, x: IntView, view: IntView, c: int)
    requires
        satisfiable(edges),
        implied(edges, x, view, c),
    ensures
        implied(edges, x, view, bound(edges, x, view)),
        bound(edges, x, view) <= c,
{
    let s = choose|s: ViewValues| #[trigger] globally(edges, s);
    let r = lemma_least_bound(edges, x, view, s, c);
    assert(least_bound(edges, x, view, bound(edges, x, view)));
    if c < bound(edges, x, view) {
        lemma_implied_above(edges, x, view, c, bound(edges, x, view) - 1);
    }
}

/// A value above what every edge asks for.
proof fn lemma_far(
    edges: Seq<DiffEdge>,
    x: IntView,
    s: ViewValues,
    k: int,
) -> (far: int)
    requires
        0 <= k <= edges.len(),
    ensures
        far >= 0,
        forall|j: int|
            0 <= j < k ==> s((#[trigger] edges[j]).x) + bound(edges, x, edges[j].y) - edges[j].d
                <= far,
    decreases k,
{
    if k == 0 {
        0
    } else {
        let rest = lemma_far(edges, x, s, k - 1);
        let need = s(edges[k - 1].x) + bound(edges, x, edges[k - 1].y) - edges[k - 1].d;
        if need > rest {
            need
        } else {
            rest
        }
    }
}

/// Values that keep the edges that survive pruning keep all edges without a gate.
pub proof fn lemma_pruning_keeps_globals(edges: Seq<DiffEdge>, s: ViewValues)
    requires
        satisfiable(edges),
        globally(edges.filter(|e: DiffEdge| survives(edges, e)), s),
    ensures
        globally(edges, s),
{
    let keep = |e: DiffEdge| survives(edges, e);
    let pruned = edges.filter(keep);
    let s0 = choose|s0: ViewValues| #[trigger] globally(edges, s0);
    assert forall|k: int| 0 <= k < edges.len() && (#[trigger] edges[k]).gate is None implies s(
        edges[k].x,
    ) - s(edges[k].y) <= edges[k].d by {
        let edge = edges[k];
        if keep(edge) {
            lemma_kept(edges, pruned, keep, s, k);
        } else {
            lemma_pruned_edge(edges, s, s0, k);
        }
    }
}

proof fn lemma_kept(
    edges: Seq<DiffEdge>,
    pruned: Seq<DiffEdge>,
    keep: spec_fn(DiffEdge) -> bool,
    s: ViewValues,
    k: int,
)
    requires
        pruned == edges.filter(keep),
        globally(pruned, s),
        0 <= k < edges.len(),
        edges[k].gate is None,
        keep(edges[k]),
    ensures
        s(edges[k].x) - s(edges[k].y) <= edges[k].d,
{
    broadcast use vstd::seq_lib::group_filter_ensures;

    assert(pruned.contains(edges[k]));
    let i = choose|i: int| 0 <= i < pruned.len() && pruned[i] == edges[k];
    assert(pruned[i].gate is None);
}

/// Values that keep the edges that survive keep an edge that was dropped.
proof fn lemma_pruned_edge(edges: Seq<DiffEdge>, s: ViewValues, s0: ViewValues, k: int)
    requires
        globally(edges, s0),
        globally(edges.filter(|e: DiffEdge| survives(edges, e)), s),
        0 <= k < edges.len(),
        edges[k].gate is None,
        !survives(edges, edges[k]),
    ensures
        s(edges[k].x) - s(edges[k].y) <= edges[k].d,
{
    let keep = |e: DiffEdge| survives(edges, e);
    let pruned = edges.filter(keep);
    let x = edges[k].x;
    let y = edges[k].y;
    assert(implied(edges, x, y, edges[k].d - 1));
    assert(satisfiable(edges));
    assert(bounded_by(edges, x, y));
    lemma_bound(edges, x, y, edges[k].d - 1);
    assert(implied(edges, x, x, 0));
    lemma_bound(edges, x, x, 0);
    assert(bound(edges, x, x) == 0) by {
        assert(s0(x) - s0(x) <= bound(edges, x, x));
    }
    assert(bounded_by(edges, x, x));
    if s(x) - s(y) > edges[k].d {
        // How far the values exceed the bounds.
        let excess = |v: IntView| s(x) - s(v) - bound(edges, x, v);
        let raised = |v: IntView| bounded_by(edges, x, v) && excess(v) >= excess(y);
        let far = lemma_far(edges, x, s0, edges.len() as int);
        let t: ViewValues = |v: IntView|
            if raised(v) {
                -bound(edges, x, v) - 1
            } else if bounded_by(edges, x, v) {
                -bound(edges, x, v)
            } else {
                s0(v) - far - 1
            };
        assert forall|j: int| 0 <= j < edges.len() && (#[trigger] edges[j]).gate is None implies t(
            edges[j].x,
        ) - t(edges[j].y) <= edges[j].d by {
            let (a, b, w) = (edges[j].x, edges[j].y, edges[j].d as int);
            if bounded_by(edges, x, a) {
                let ca = choose|c: int| #[trigger] implied(edges, x, a, c);
                lemma_bound(edges, x, a, ca);
                let la = bound(edges, x, a);
                assert forall|v: ViewValues| #[trigger] globally(edges, v) implies v(x) - v(b) <= la
                    + w by {
                    assert(v(x) - v(a) <= la);
                    assert(v(edges[j].x) - v(edges[j].y) <= edges[j].d);
                }
                assert(implied(edges, x, b, la + w));
                lemma_bound(edges, x, b, la + w);
                let lb = bound(edges, x, b);
                if raised(b) && !raised(a) && lb == la + w {
                    if keep(edges[j]) {
                        lemma_kept(edges, pruned, keep, s, j);
                        assert(false);
                    } else {
                        assert(implied(edges, a, b, w - 1));
                        assert forall|v: ViewValues| #[trigger] globally(edges, v) implies v(x) - v(b)
                            <= la + w - 1 by {
                            assert(v(x) - v(a) <= la);
                            assert(v(a) - v(b) <= w - 1);
                        }
                        assert(implied(edges, x, b, la + w - 1));
                        lemma_bound(edges, x, b, la + w - 1);
                        assert(false);
                    }
                }
            } else {
                assert(s0(edges[j].x) - s0(edges[j].y) <= edges[j].d);
                assert(s0(edges[j].x) + bound(edges, x, edges[j].y) - edges[j].d <= far);
            }
        }
        assert(globally(edges, t));
        assert(implied(edges, x, y, bound(edges, x, y)));
        assert(!raised(x));
        assert(raised(y));
        assert(t(x) - t(y) <= bound(edges, x, y));
    }
}

/// The values that an assignment gives to the views.
pub open spec fn values_of(ints: IntAssignment, bools: BoolAssignment) -> ViewValues {
    |v: IntView| v.eval(ints, bools)
}

/// Whether the edges without a gate forbid the edge.
pub open spec fn forbidden(edges: Seq<DiffEdge>, edge: DiffEdge) -> bool {
    edge.gate is Some && implied(edges, edge.y, edge.x, -edge.d - 1)
}

/// Whether every edge is kept.
pub open spec fn all_kept(
    edges: Seq<DiffEdge>,
    ints: IntAssignment,
    bools: BoolAssignment,
) -> bool {
    forall|k: int| 0 <= k < edges.len() ==> (#[trigger] edges[k]).holds(ints, bools)
}

/// An assignment keeps all edges where it keeps the edges that survive pruning, provided that
/// the gates of forbidden edges do not hold.
pub proof fn lemma_pruning_keeps_meaning(
    edges: Seq<DiffEdge>,
    ints: IntAssignment,
    bools: BoolAssignment,
)
    requires
        satisfiable(edges),
        all_kept(edges.filter(|e: DiffEdge| survives(edges, e)), ints, bools),
        forall|k: int|
            0 <= k < edges.len() && forbidden(edges, #[trigger] edges[k]) ==> !(
            edges[k].gate->0).holds(ints, bools),
    ensures
        all_kept(edges, ints, bools),
{
    let keep = |e: DiffEdge| survives(edges, e);
    let pruned = edges.filter(keep);
    let s = values_of(ints, bools);
    assert(globally(pruned, s)) by {
        assert forall|k: int| 0 <= k < pruned.len() && (#[trigger] pruned[k]).gate is None implies s(
            pruned[k].x,
        ) - s(pruned[k].y) <= pruned[k].d by {
            assert(pruned[k].holds(ints, bools));
        }
    }
    lemma_pruning_keeps_globals(edges, s);
    assert forall|k: int| 0 <= k < edges.len() implies (#[trigger] edges[k]).holds(
        ints,
        bools,
    ) by {
        let edge = edges[k];
        if edge.gate is None {
            assert(s(edges[k].x) - s(edges[k].y) <= edges[k].d);
        } else if keep(edge) {
            broadcast use vstd::seq_lib::group_filter_ensures;

            assert(pruned.contains(edges[k]));
            let i = choose|i: int| 0 <= i < pruned.len() && pruned[i] == edges[k];
            assert(pruned[i].holds(ints, bools));
        } else if !forbidden(edges, edge) {
            assert(implied(edges, edge.x, edge.y, edge.d as int));
            assert(s(edge.x) - s(edge.y) <= edge.d);
        }
    }
}

/// An assignment that keeps all edges keeps those that survive pruning.
pub proof fn lemma_pruning_loses_nothing(
    edges: Seq<DiffEdge>,
    ints: IntAssignment,
    bools: BoolAssignment,
)
    requires
        all_kept(edges, ints, bools),
    ensures
        all_kept(edges.filter(|e: DiffEdge| survives(edges, e)), ints, bools),
{
    let keep = |e: DiffEdge| survives(edges, e);
    let pruned = edges.filter(keep);
    assert forall|k: int| 0 <= k < pruned.len() implies (#[trigger] pruned[k]).holds(
        ints,
        bools,
    ) by {
        lemma_filter_from(edges, keep, k);
        let i = choose|i: int| 0 <= i < edges.len() && edges[i] == pruned[k];
        assert(edges[i].holds(ints, bools));
    }
}

proof fn lemma_filter_from(edges: Seq<DiffEdge>, keep: spec_fn(DiffEdge) -> bool, k: int)
    requires
        0 <= k < edges.filter(keep).len(),
    ensures
        edges.contains(edges.filter(keep)[k]),
    decreases edges.len(),
{
    reveal(Seq::filter);
    if edges.len() > 0 {
        let rest = edges.drop_last();
        if k < rest.filter(keep).len() {
            lemma_filter_from(rest, keep, k);
            let i = choose|i: int| 0 <= i < rest.len() && rest[i] == rest.filter(keep)[k];
            assert(edges[i] == edges.filter(keep)[k]);
        } else {
            assert(edges[edges.len() - 1] == edges.filter(keep)[k]);
        }
    }
}

/// What passes a test is not dropped by it.
proof fn lemma_filter_all(edges: Seq<DiffEdge>, keep: spec_fn(DiffEdge) -> bool)
    requires
        forall|k: int| 0 <= k < edges.len() ==> keep(#[trigger] edges[k]),
    ensures
        edges.filter(keep) == edges,
    decreases edges.len(),
{
    reveal(Seq::filter);
    if edges.len() > 0 {
        assert forall|k: int| 0 <= k < edges.drop_last().len() implies keep(
            #[trigger] edges.drop_last()[k],
        ) by {
            assert(edges.drop_last()[k] == edges[k]);
        }
        lemma_filter_all(edges.drop_last(), keep);
        assert(keep(edges[edges.len() - 1]));
        assert(edges.filter(keep) =~= edges);
    } else {
        assert(edges.filter(keep) =~= edges);
    }
}

/// Pruning twice is pruning once: what survives can be kept, and all of it survives again.
pub proof fn lemma_pruning_once(edges: Seq<DiffEdge>)
    requires
        satisfiable(edges),
    ensures
        ({
            let pruned = edges.filter(|e: DiffEdge| survives(edges, e));
            &&& satisfiable(pruned)
            &&& pruned.filter(|e: DiffEdge| survives(pruned, e)) == pruned
        }),
{
    let keep = |e: DiffEdge| survives(edges, e);
    let pruned = edges.filter(keep);
    assert forall|s: ViewValues| #[trigger] globally(pruned, s) == globally(edges, s) by {
        if globally(edges, s) {
            assert forall|k: int|
                0 <= k < pruned.len() && (#[trigger] pruned[k]).gate is None implies s(pruned[k].x)
                - s(pruned[k].y) <= pruned[k].d by {
                lemma_filter_from(edges, keep, k);
                let i = choose|i: int| 0 <= i < edges.len() && edges[i] == pruned[k];
                assert(edges[i].gate is None);
            }
        }
        if globally(pruned, s) {
            lemma_pruning_keeps_globals(edges, s);
        }
    }
    let s = choose|s: ViewValues| #[trigger] globally(edges, s);
    assert(globally(pruned, s));
    assert forall|x: IntView, y: IntView, c: int| #[trigger]
        implied(pruned, x, y, c) == implied(edges, x, y, c) by {
        if implied(pruned, x, y, c) {
            assert forall|s: ViewValues| #[trigger] globally(edges, s) implies s(x) - s(y) <= c by {
                assert(globally(pruned, s));
            }
        }
        if implied(edges, x, y, c) {
            assert forall|s: ViewValues| #[trigger] globally(pruned, s) implies s(x) - s(y)
                <= c by {
                assert(globally(edges, s));
            }
        }
    }
    let again = |e: DiffEdge| survives(pruned, e);
    assert forall|k: int| 0 <= k < pruned.len() implies again(#[trigger] pruned[k]) by {
        broadcast use vstd::seq_lib::group_filter_ensures;

        assert(keep(pruned[k]));
    }
    lemma_filter_all(pruned, again);
}

/// The bounds of fewer edges are no larger in sum.
proof fn lemma_filter_span(edges: Seq<DiffEdge>, keep: spec_fn(DiffEdge) -> bool)
    ensures
        edges.filter(keep).len() <= edges.len(),
        0 <= bounds_span(edges.filter(keep), edges.filter(keep).len() as int) <= bounds_span(
            edges,
            edges.len() as int,
        ),
    decreases edges.len(),
{
    reveal(Seq::filter);
    if edges.len() > 0 {
        let rest = edges.drop_last();
        let some = rest.filter(keep);
        lemma_filter_span(rest, keep);
        lemma_span_prefix(rest, edges, rest.len() as int);
        if keep(edges.last()) {
            lemma_span_prefix(some, some.push(edges.last()), some.len() as int);
            assert(edges.filter(keep) =~= some.push(edges.last()));
        } else {
            assert(edges.filter(keep) =~= some);
        }
    } else {
        assert(edges.filter(keep) =~= Seq::<DiffEdge>::empty());
    }
}

proof fn lemma_span_prefix(some: Seq<DiffEdge>, more: Seq<DiffEdge>, k: int)
    requires
        k <= some.len() <= more.len(),
        forall|i: int| 0 <= i < some.len() ==> #[trigger] some[i] == more[i],
    ensures
        bounds_span(some, k) == bounds_span(more, k),
    decreases k,
{
    if k > 0 {
        lemma_span_prefix(some, more, k - 1);
        assert(some[k - 1] == more[k - 1]);
    }
}

/// The bounds of the edges that survive fit where those of all edges do.
pub proof fn lemma_pruned_fit(edges: Seq<DiffEdge>)
    requires
        bounds_fit(edges),
    ensures
        bounds_fit(pruned(edges)),
{
    if satisfiable(edges) {
        lemma_filter_span(edges, |e: DiffEdge| survives(edges, e));
        let (m, k) = (edges.len() as int, pruned(edges).len() as int);
        let a = bounds_span(edges, m);
        let b = bounds_span(pruned(edges), k);
        assert(8 * (2 * k + 1) * b <= 8 * (2 * m + 1) * a) by (nonlinear_arith)
            requires
                0 <= k <= m,
                0 <= b <= a,
        ;
    }
}

/// What survives pruning says something: an edge without a gate stays if and only if values that
/// keep the edges without a gate reach its bound, and an edge with a gate if and only if such
/// values can keep it and can break it.
pub proof fn lemma_pruned_exactly(edges: Seq<DiffEdge>, edge: DiffEdge)
    requires
        satisfiable(edges),
        edges.contains(edge),
    ensures
        pruned(edges).contains(edge) <==> match edge.gate {
            None => exists|s: ViewValues| #[trigger]
                globally(edges, s) && s(edge.x) - s(edge.y) == edge.d,
            Some(_) => (exists|s: ViewValues| #[trigger]
                globally(edges, s) && s(edge.x) - s(edge.y) <= edge.d) && (exists|s: ViewValues|
                #[trigger] globally(edges, s) && s(edge.x) - s(edge.y) > edge.d),
        },
{
    let keep = |e: DiffEdge| survives(edges, e);
    broadcast use vstd::seq_lib::group_filter_ensures;

    assert(pruned(edges).contains(edge) <==> survives(edges, edge)) by {
        if pruned(edges).contains(edge) {
            let i = choose|i: int| 0 <= i < pruned(edges).len() && pruned(edges)[i] == edge;
            assert(keep(pruned(edges)[i]));
        }
        if survives(edges, edge) {
            let i = edges.index_of(edge);
            assert(keep(edges[i]));
            assert(edges.filter(keep).contains(edges[i]));
        }
    }
    let i = edges.index_of(edge);
    if edge.gate is None {
        if survives(edges, edge) {
            let s = choose|s: ViewValues| #[trigger]
                globally(edges, s) && !(s(edge.x) - s(edge.y) <= edge.d - 1);
            assert(s(edges[i].x) - s(edges[i].y) <= edges[i].d);
            assert(globally(edges, s) && s(edge.x) - s(edge.y) == edge.d);
        }
    } else {
        if survives(edges, edge) {
            let s = choose|s: ViewValues| #[trigger]
                globally(edges, s) && !(s(edge.y) - s(edge.x) <= -edge.d - 1);
            let t = choose|t: ViewValues| #[trigger]
                globally(edges, t) && !(t(edge.x) - t(edge.y) <= edge.d);
            assert(globally(edges, s) && s(edge.x) - s(edge.y) <= edge.d);
            assert(globally(edges, t) && t(edge.x) - t(edge.y) > edge.d);
        }
    }
}

/// Pruning what was pruned changes nothing, and no more does pruning edges that cannot be kept
/// together.
pub proof fn lemma_pruned_twice(edges: Seq<DiffEdge>)
    ensures
        pruned(pruned(edges)) == pruned(edges),
        !satisfiable(edges) || edges.len() == 0 ==> pruned(edges) == edges,
{
    if satisfiable(edges) {
        lemma_pruning_once(edges);
        if edges.len() == 0 {
            lemma_filter_all(edges, |e: DiffEdge| survives(edges, e));
        }
    }
}

} // verus!
