//! Simplification of the edges that difference constraints expand into.
//!
//! The edges without a gate always hold. As a graph over the views they tell which constraints
//! cannot be met, which edges say nothing new, and which views differ by a constant.

use rustc_hash::FxHashMap;
use vstd::prelude::*;

use crate::helpers::fx::{map_get, map_insert, map_new, ViewKey};
use crate::helpers::shortest::{
    admissible, all_distances, arcs_within, bellman_ford, bounds_potential, distances,
    has_potentials, lemma_span_grows, lemma_stable_admissible, magnitude, span, stable,
    weights_fit, WeightedArc,
};
use crate::helpers::saturating::{clamped, saturating_add};
use crate::model::diff_logic::DiffEdge;
use crate::model::{lemma_narrows_join, Model};
use crate::solver::int_view::lemma_view_narrowed;
use crate::solver::reason::{Conflict, Reason};
use crate::solver::view::{BoolAssignment, IntAssignment, IntVal, IntView};

verus! {

/// The parts of the view as a key.
pub open spec fn spec_view_key(view: IntView) -> ViewKey {
    match view {
        IntView::Const(v) => (0u8, 0usize, false, 0i64, v),
        IntView::Linear { var, scale, offset } => (1u8, var, false, scale, offset),
        IntView::Bool { lit, scale, offset } => (2u8, lit.var, lit.negated, scale, offset),
    }
}

/// The parts of the view as a key.
#[verifier::when_used_as_spec(spec_view_key)]
pub fn view_key(view: IntView) -> (r: ViewKey)
    ensures
        r == view_key(view),
{
    match view {
        IntView::Const(v) => (0u8, 0usize, false, 0i64, v),
        IntView::Linear { var, scale, offset } => (1u8, var, false, scale, offset),
        IntView::Bool { lit, scale, offset } => (2u8, lit.var, lit.negated, scale, offset),
    }
}

/// Different views have different keys.
pub proof fn lemma_view_key_injective(a: IntView, b: IntView)
    requires
        view_key(a) == view_key(b),
    ensures
        a == b,
{
}

/// The views of a graph, numbered in the order in which they were met.
pub struct NodeTable {
    /// The number of each view.
    pub node_of: FxHashMap<ViewKey, usize>,
    /// The views.
    pub int_vars: Vec<IntView>,
}

impl NodeTable {
    /// The views are different, and each has its position as its number.
    pub open spec fn wf(&self) -> bool {
        &&& forall|i: int|
            0 <= i < self.int_vars.len() ==> self.node_of@.dom().contains(
                view_key(#[trigger] self.int_vars[i]),
            ) && self.node_of@[view_key(self.int_vars[i])] == i
        &&& forall|k: ViewKey| #[trigger]
            self.node_of@.dom().contains(k) ==> self.node_of@[k] < self.int_vars.len() && view_key(
                self.int_vars[self.node_of@[k] as int],
            ) == k
    }

    /// Whether the view has a number.
    pub open spec fn has(&self, view: IntView) -> bool {
        self.node_of@.dom().contains(view_key(view))
    }

    /// The number of a view.
    pub open spec fn number(&self, view: IntView) -> int {
        self.node_of@[view_key(view)] as int
    }

    /// A table without views.
    pub fn new() -> (r: NodeTable)
        ensures
            r.wf(),
            r.int_vars@.len() == 0,
    {
        NodeTable { node_of: map_new(), int_vars: Vec::new() }
    }

    /// Give the view a number, unless it has one.
    pub fn intern(&mut self, view: IntView) -> (r: usize)
        requires
            old(self).wf(),
        ensures
            final(self).wf(),
            r < final(self).int_vars.len(),
            final(self).int_vars[r as int] == view,
            final(self).has(view),
            final(self).number(view) == r,
            if old(self).has(view) {
                *final(self) == *old(self)
            } else {
                final(self).int_vars@ == old(self).int_vars@.push(view)
            },
            forall|v: IntView| #[trigger]
                old(self).has(v) ==> final(self).has(v) && final(self).number(v) == old(
                    self,
                ).number(v),
    {
        let key: ViewKey = view_key(view);
        match map_get(&self.node_of, key) {
            Some(n) => {
                proof {
                    lemma_view_key_injective(self.int_vars[n as int], view);
                }
                n
            },
            None => {
                let n: usize = self.int_vars.len();
                let ghost before = *self;
                self.int_vars.push(view);
                map_insert(&mut self.node_of, key, n);
                proof {
                    assert forall|i: int| 0 <= i < self.int_vars.len() implies
                        self.node_of@.dom().contains(view_key(#[trigger] self.int_vars[i]))
                        && self.node_of@[view_key(self.int_vars[i])] == i by {
                        if i < n {
                            assert(self.int_vars[i] == before.int_vars[i]);
                        }
                    }
                    assert forall|k: ViewKey| #[trigger]
                        self.node_of@.dom().contains(k) implies self.node_of@[k]
                        < self.int_vars.len() && view_key(
                        self.int_vars[self.node_of@[k] as int],
                    ) == k by {
                        if k != key {
                            assert(before.node_of@.dom().contains(k));
                        }
                    }
                }
                n
            },
        }
    }

    /// A number leads back to its view.
    pub proof fn lemma_number(&self, view: IntView)
        requires
            self.wf(),
            self.has(view),
        ensures
            0 <= self.number(view) < self.int_vars.len(),
            self.int_vars[self.number(view)] == view,
    {
        lemma_view_key_injective(self.int_vars[self.number(view)], view);
    }

    /// A view has its position as its number.
    pub proof fn lemma_numbered(&self, i: int)
        requires
            self.wf(),
            0 <= i < self.int_vars.len(),
        ensures
            self.has(self.int_vars[i]),
            self.number(self.int_vars[i]) == i,
    {
    }

    /// The number of a view that has one.
    pub fn node(&self, view: IntView) -> (r: usize)
        requires
            self.wf(),
            self.has(view),
        ensures
            r < self.int_vars.len(),
            r == self.number(view),
            self.int_vars[r as int] == view,
    {
        match map_get(&self.node_of, view_key(view)) {
            Some(n) => {
                proof {
                    lemma_view_key_injective(self.int_vars[n as int], view);
                }
                n
            },
            None => 0,
        }
    }
}

/// Values for the views.
pub type ViewValues = spec_fn(IntView) -> int;

/// Whether the values keep every edge without a gate.
pub open spec fn globally(edges: Seq<DiffEdge>, s: ViewValues) -> bool {
    forall|k: int|
        0 <= k < edges.len() && (#[trigger] edges[k]).gate is None ==> s(edges[k].x) - s(
            edges[k].y,
        ) <= edges[k].d
}

/// Whether some values keep every edge without a gate.
pub open spec fn satisfiable(edges: Seq<DiffEdge>) -> bool {
    exists|s: ViewValues| #[trigger] globally(edges, s)
}

/// Whether the edges without a gate imply that `x - y <= c`.
pub open spec fn implied(edges: Seq<DiffEdge>, x: IntView, y: IntView, c: int) -> bool {
    forall|s: ViewValues| #[trigger] globally(edges, s) ==> s(x) - s(y) <= c
}

/// Whether the edges without a gate imply that `x - y == c`.
pub open spec fn forced_equal(edges: Seq<DiffEdge>, x: IntView, y: IntView, c: int) -> bool {
    implied(edges, x, y, c) && implied(edges, y, x, -c)
}

/// Whether the view is an end of an edge.
pub open spec fn is_endpoint(edges: Seq<DiffEdge>, view: IntView) -> bool {
    exists|k: int|
        0 <= k < edges.len() && ((#[trigger] edges[k]).x == view || edges[k].y == view)
}

/// The sum of the magnitudes of the bounds of the first `k` edges, as far as they have no gate.
pub open spec fn bounds_span(edges: Seq<DiffEdge>, k: int) -> int
    decreases k,
{
    if k <= 0 {
        0
    } else {
        bounds_span(edges, k - 1) + if edges[k - 1].gate is None {
            magnitude(edges[k - 1].d as int)
        } else {
            0
        }
    }
}

/// Whether no sum of bounds that the searches form leaves the range of values. A search goes over
/// the edges once for each of their ends, of which there are at most twice as many.
pub open spec fn bounds_fit(edges: Seq<DiffEdge>) -> bool {
    8 * (2 * edges.len() + 1) * bounds_span(edges, edges.len() as int) <= IntVal::MAX
}

/// Whether the arcs are the edges without a gate, over the numbers of the views.
#[verifier::opaque]
pub open spec fn represents(
    arcs: Seq<WeightedArc>,
    edges: Seq<DiffEdge>,
    vars: Seq<IntView>,
) -> bool {
    &&& arcs_within(arcs, vars.len() as int)
    &&& vars.no_duplicates()
    &&& arcs.len() <= edges.len()
    &&& span(arcs, arcs.len() as int) == bounds_span(edges, edges.len() as int)
    &&& vars.len() <= 2 * edges.len()
    &&& forall|k: int|
        0 <= k < arcs.len() ==> has_edge(#[trigger] arcs[k], edges, vars)
    &&& forall|j: int|
        0 <= j < edges.len() && (#[trigger] edges[j]).gate is None ==> has_arc(
            arcs,
            edges[j],
            vars,
        )
}

/// Whether the arc is one of the edges, over the numbers of the views.
pub open spec fn has_edge(arc: WeightedArc, edges: Seq<DiffEdge>, vars: Seq<IntView>) -> bool {
    exists|j: int| 0 <= j < edges.len() && stands_for(arc, #[trigger] edges[j], vars)
}

/// Whether one of the arcs is the edge, over the numbers of the views.
pub open spec fn has_arc(arcs: Seq<WeightedArc>, edge: DiffEdge, vars: Seq<IntView>) -> bool {
    exists|k: int| 0 <= k < arcs.len() && stands_for(#[trigger] arcs[k], edge, vars)
}

/// Whether the arc is the edge, over the numbers of the views.
pub open spec fn stands_for(arc: WeightedArc, edge: DiffEdge, vars: Seq<IntView>) -> bool {
    &&& edge.gate is None
    &&& vars[arc.from as int] == edge.x
    &&& vars[arc.to as int] == edge.y
    &&& arc.weight == edge.d
}

/// The potentials that values amount to.
pub open spec fn as_potentials(vars: Seq<IntView>, s: ViewValues) -> Seq<int> {
    Seq::new(vars.len(), |i: int| -s(vars[i]))
}

/// The values that potentials amount to.
pub open spec fn as_values(vars: Seq<IntView>, p: Seq<int>) -> ViewValues {
    |v: IntView|
        if vars.contains(v) {
            -p[vars.index_of(v)]
        } else {
            0
        }
}

/// Values keep the edges where the potentials keep the arcs.
proof fn lemma_values_potentials(
    arcs: Seq<WeightedArc>,
    edges: Seq<DiffEdge>,
    vars: Seq<IntView>,
    s: ViewValues,
)
    requires
        represents(arcs, edges, vars),
    ensures
        globally(edges, s) == admissible(arcs, as_potentials(vars, s)),
{
    reveal(represents);
    let p = as_potentials(vars, s);
    if globally(edges, s) {
        assert forall|k: int| 0 <= k < arcs.len() implies p[(#[trigger] arcs[k]).to as int]
            <= p[arcs[k].from as int] + arcs[k].weight by {
            assert(has_edge(arcs[k], edges, vars));
            let j = choose|j: int|
                0 <= j < edges.len() && stands_for(arcs[k], #[trigger] edges[j], vars);
            assert(s(edges[j].x) - s(edges[j].y) <= edges[j].d);
        }
    }
    if admissible(arcs, p) {
        assert forall|j: int| 0 <= j < edges.len() && (#[trigger] edges[j]).gate is None implies s(
            edges[j].x,
        ) - s(edges[j].y) <= edges[j].d by {
            let k = choose|k: int|
                0 <= k < arcs.len() && stands_for(#[trigger] arcs[k], edges[j], vars);
            assert(p[arcs[k].to as int] <= p[arcs[k].from as int] + arcs[k].weight);
        }
    }
}

proof fn lemma_potentials_values(vars: Seq<IntView>, p: Seq<int>)
    requires
        vars.no_duplicates(),
        p.len() == vars.len(),
    ensures
        as_potentials(vars, as_values(vars, p)) == p,
{
    assert forall|i: int| 0 <= i < vars.len() implies as_potentials(vars, as_values(vars, p))[i]
        == p[i] by {
        assert(vars.contains(vars[i]));
        let j = vars.index_of(vars[i]);
        assert(vars[j] == vars[i]);
    }
    assert(as_potentials(vars, as_values(vars, p)) =~= p);
}

/// Values exist where potentials do, and imply the same bounds.
proof fn lemma_graph_meaning(arcs: Seq<WeightedArc>, edges: Seq<DiffEdge>, vars: Seq<IntView>)
    requires
        represents(arcs, edges, vars),
    ensures
        arcs_within(arcs, vars.len() as int),
        satisfiable(edges) == has_potentials(arcs, vars.len() as int),
        forall|i: int, j: int, c: int|
            0 <= i < vars.len() && 0 <= j < vars.len() ==> implied(edges, vars[i], vars[j], c)
                == #[trigger] bounds_potential(arcs, vars.len() as int, i, j, c),
{
    assert(vars.no_duplicates() && arcs_within(arcs, vars.len() as int)) by {
        reveal(represents);
    }
    let n = vars.len() as int;
    if satisfiable(edges) {
        let s = choose|s: ViewValues| #[trigger] globally(edges, s);
        lemma_values_potentials(arcs, edges, vars, s);
        let p = as_potentials(vars, s);
        assert(p.len() == n && admissible(arcs, p));
    }
    if has_potentials(arcs, n) {
        let p = choose|p: Seq<int>| p.len() == n && #[trigger] admissible(arcs, p);
        lemma_potentials_values(vars, p);
        lemma_values_potentials(arcs, edges, vars, as_values(vars, p));
        assert(globally(edges, as_values(vars, p)));
    }
    assert forall|i: int, j: int, c: int| 0 <= i < n && 0 <= j < n implies implied(
        edges,
        vars[i],
        vars[j],
        c,
    ) == #[trigger] bounds_potential(arcs, n, i, j, c) by {
        if implied(edges, vars[i], vars[j], c) {
            assert forall|p: Seq<int>| p.len() == n && #[trigger] admissible(arcs, p) implies p[j]
                <= p[i] + c by {
                let s = as_values(vars, p);
                lemma_potentials_values(vars, p);
                lemma_values_potentials(arcs, edges, vars, s);
                assert(globally(edges, s));
                assert(as_potentials(vars, s)[i] == p[i]);
                assert(as_potentials(vars, s)[j] == p[j]);
            }
        }
        if bounds_potential(arcs, n, i, j, c) {
            assert forall|s: ViewValues| #[trigger] globally(edges, s) implies s(vars[i]) - s(
                vars[j],
            ) <= c by {
                lemma_values_potentials(arcs, edges, vars, s);
                let p = as_potentials(vars, s);
                assert(p.len() == n && admissible(arcs, p));
            }
        }
    }
}

/// Bounds that fit the edges fit the arcs.
proof fn lemma_bounds_fit(arcs: Seq<WeightedArc>, edges: Seq<DiffEdge>, vars: Seq<IntView>)
    requires
        represents(arcs, edges, vars),
        bounds_fit(edges),
    ensures
        weights_fit(arcs, vars.len() as int),
{
    reveal(represents);
    lemma_span_grows(arcs, 0, arcs.len() as int);
    let (n, e, w) = (vars.len() as int, edges.len() as int, span(arcs, arcs.len() as int));
    assert(8 * (n + 1) * w <= 8 * (2 * e + 1) * w) by (nonlinear_arith)
        requires
            0 <= n <= 2 * e,
            w >= 0,
    ;
}

/// Later arcs do not matter to the sum of earlier ones.
proof fn lemma_span_push(arcs: Seq<WeightedArc>, more: Seq<WeightedArc>, k: int)
    requires
        0 <= k <= arcs.len() <= more.len(),
        forall|i: int| 0 <= i < arcs.len() ==> #[trigger] more[i] == arcs[i],
    ensures
        span(more, k) == span(arcs, k),
    decreases k,
{
    if k > 0 {
        lemma_span_push(arcs, more, k - 1);
        assert(more[k - 1] == arcs[k - 1]);
    }
}

/// Number the ends of the edges, and build the arcs of those without a gate.
fn build_graph(edges: &Vec<DiffEdge>) -> (r: (NodeTable, Vec<WeightedArc>))
    ensures
        r.0.wf(),
        represents(r.1@, edges@, r.0.int_vars@),
        forall|k: int|
            0 <= k < edges.len() ==> r.0.has((#[trigger] edges[k]).x) && r.0.has(edges[k].y),
        forall|i: int|
            0 <= i < r.0.int_vars.len() ==> is_endpoint(edges@, #[trigger] r.0.int_vars[i]),
{
    let mut table: NodeTable = NodeTable::new();
    let mut arcs: Vec<WeightedArc> = Vec::new();
    let ghost mut of_arc: Seq<int> = Seq::empty();
    let ghost mut of_edge: Seq<int> = Seq::empty();
    let mut i: usize = 0;
    while i < edges.len()
        invariant
            i <= edges.len(),
            table.wf(),
            table.int_vars.len() <= 2 * i,
            arcs.len() <= i,
            span(arcs@, arcs.len() as int) == bounds_span(edges@, i as int),
            of_arc.len() == arcs.len(),
            of_edge.len() == i,
            arcs_within(arcs@, table.int_vars.len() as int),
            forall|k: int|
                0 <= k < i ==> table.has((#[trigger] edges[k]).x) && table.has(edges[k].y),
            forall|v: int|
                0 <= v < table.int_vars.len() ==> is_endpoint(
                    edges@,
                    #[trigger] table.int_vars[v],
                ),
            forall|k: int|
                0 <= k < arcs.len() ==> 0 <= #[trigger] of_arc[k] < i && stands_for(
                    arcs[k],
                    edges[of_arc[k]],
                    table.int_vars@,
                ),
            forall|j: int|
                0 <= j < i && (#[trigger] edges[j]).gate is None ==> 0 <= of_edge[j] < arcs.len()
                    && stands_for(arcs[of_edge[j]], edges[j], table.int_vars@),
        decreases edges.len() - i,
    {
        let e: DiffEdge = edges[i];
        let ghost t0 = table.int_vars@;
        let ghost arcs0 = arcs@;
        let from: usize = table.intern(e.x);
        let ghost t1 = table.int_vars@;
        let to: usize = table.intern(e.y);
        proof {
            assert(edges[i as int].x == e.x && edges[i as int].y == e.y);
            assert(is_endpoint(edges@, e.x));
            assert(is_endpoint(edges@, e.y));
            assert(forall|v: int| 0 <= v < t0.len() ==> #[trigger] table.int_vars@[v] == t0[v]);
            assert(forall|v: int| 0 <= v < t1.len() ==> #[trigger] table.int_vars@[v] == t1[v]);
            assert forall|v: int| 0 <= v < table.int_vars.len() implies is_endpoint(
                edges@,
                #[trigger] table.int_vars[v],
            ) by {
                if v < t0.len() {
                    assert(table.int_vars@[v] == t0[v]);
                } else if v < t1.len() {
                    assert(table.int_vars@[v] == t1[v]);
                }
            }
        }
        if e.gate.is_none() {
            arcs.push(WeightedArc { from, to, weight: e.d });
            proof {
                lemma_span_push(arcs0, arcs@, arcs0.len() as int);
                of_arc = of_arc.push(i as int);
                of_edge = of_edge.push(arcs0.len() as int);
            }
        } else {
            proof {
                of_edge = of_edge.push(0);
            }
        }
        proof {
            assert forall|k: int| 0 <= k < arcs.len() implies 0 <= #[trigger] of_arc[k] < i + 1
                && stands_for(arcs[k], edges[of_arc[k]], table.int_vars@) by {
                if k < arcs0.len() {
                    assert(arcs@[k] == arcs0[k]);
                    assert(arcs0[k].from < t0.len() && arcs0[k].to < t0.len());
                }
            }
            assert forall|j: int|
                0 <= j < i + 1 && (#[trigger] edges[j]).gate is None implies 0 <= of_edge[j]
                < arcs.len() && stands_for(arcs[of_edge[j]], edges[j], table.int_vars@) by {
                if j < i {
                    let k = of_edge[j];
                    assert(arcs@[k] == arcs0[k]);
                    assert(arcs0[k].from < t0.len() && arcs0[k].to < t0.len());
                }
            }
        }
        i = i + 1;
    }
    proof {
        let vars = table.int_vars@;
        assert forall|a: int, b: int| 0 <= a < b < vars.len() implies vars[a] != vars[b] by {
            assert(table.node_of@[view_key(table.int_vars[a])] == a);
            assert(table.node_of@[view_key(table.int_vars[b])] == b);
        }
        reveal(represents);
        assert forall|k: int| 0 <= k < arcs.len() implies has_edge(
            #[trigger] arcs@[k],
            edges@,
            vars,
        ) by {
            let j = of_arc[k];
            assert(stands_for(arcs@[k], edges@[j], vars));
        }
        assert forall|j: int| 0 <= j < edges.len() && (#[trigger] edges@[j]).gate is None implies
            has_arc(arcs@, edges@[j], vars) by {
            let k = of_edge[j];
            assert(edges[j].gate is None);
            assert(stands_for(arcs@[k], edges@[j], vars));
        }
    }
    (table, arcs)
}

/// Detect that the edges without a gate cannot be kept. The edges are returned unchanged.
pub fn simplify_cycle_detection(model: &Model, edges: Vec<DiffEdge>) -> (r: Result<
    Vec<DiffEdge>,
    Conflict,
>)
    ensures
        !model.diff_logic.parameters().simplify ==> r is Ok,
        model.diff_logic.parameters().simplify && bounds_fit(edges@) ==> (r is Ok <==> satisfiable(
            edges@,
        )),
        match r {
            Ok(out) => out@ == edges@,
            Err(conflict) => conflict.subject is None && (conflict.reason matches Ok(
                Reason::Eager(atoms),
            ) && atoms@.len() == 0),
        },
{
    if !model.diff_logic.parameters().simplify {
        return Ok(edges);
    }
    let (table, arcs): (NodeTable, Vec<WeightedArc>) = build_graph(&edges);
    let n: usize = table.int_vars.len();
    let ghost fits = weights_fit(arcs@, n as int);
    proof {
        lemma_graph_meaning(arcs@, edges@, table.int_vars@);
        if bounds_fit(edges@) {
            lemma_bounds_fit(arcs@, edges@, table.int_vars@);
        }
    }
    let (pi, changed): (Vec<IntVal>, bool) = bellman_ford(n, &arcs);
    if changed {
        // A change in the last round means that there is a cycle of negative weight.
        let mut k: usize = 0;
        while k < arcs.len()
            invariant
                k <= arcs.len(),
                model.diff_logic.parameters().simplify,
                n == table.int_vars.len(),
                arcs_within(arcs@, n as int),
                pi.len() == n,
                fits == weights_fit(arcs@, n as int),
                fits && n > 0 ==> !has_potentials(arcs@, n as int),
                satisfiable(edges@) == has_potentials(arcs@, n as int),
                bounds_fit(edges@) ==> fits,
                forall|j: int|
                    0 <= j < k ==> pi[(#[trigger] arcs@[j]).to as int] <= clamped(
                        pi[arcs@[j].from as int] + arcs@[j].weight,
                    ),
            decreases arcs.len() - k,
        {
            let arc: WeightedArc = arcs[k];
            assert(arcs@[k as int].from < n && arcs@[k as int].to < n);
            if saturating_add(pi[arc.from], arc.weight) < pi[arc.to] {
                return Err(Conflict { subject: None, reason: Ok(Reason::Eager(Vec::new())) });
            }
            k = k + 1;
        }
        assert(stable(arcs@, pi@));
    }
    proof {
        if fits {
            lemma_stable_admissible(arcs@, n as int, pi@);
        }
    }
    Ok(edges)
}

/// Whether the edge says something that the edges without a gate do not: an edge without a
/// gate unless they imply a smaller bound, an edge with a gate unless they forbid or imply it.
pub open spec fn survives(edges: Seq<DiffEdge>, edge: DiffEdge) -> bool {
    match edge.gate {
        None => !implied(edges, edge.x, edge.y, edge.d - 1),
        Some(_) => !implied(edges, edge.y, edge.x, -edge.d - 1) && !implied(
            edges,
            edge.x,
            edge.y,
            edge.d as int,
        ),
    }
}

/// The edges that say something new, or all of them if they cannot be kept together.
pub open spec fn pruned(edges: Seq<DiffEdge>) -> Seq<DiffEdge> {
    if satisfiable(edges) {
        edges.filter(|e: DiffEdge| survives(edges, e))
    } else {
        edges
    }
}

/// Drop the edges that say nothing new.
pub fn simplify_johnson_pruning(model: &Model, edges: Vec<DiffEdge>) -> (out: Vec<DiffEdge>)
    requires
        forall|k: int|
            0 <= k < edges.len() && (#[trigger] edges[k]).gate is Some ==> edges[k].d
                > IntVal::MIN,
    ensures
        !model.diff_logic.parameters().simplify ==> out@ == edges@,
        model.diff_logic.parameters().simplify && bounds_fit(edges@) ==> out@ == pruned(edges@),
        forall|k: int| 0 <= k < out.len() ==> edges@.contains(#[trigger] out[k]),
{
    proof {
        assert forall|k: int| 0 <= k < edges.len() implies edges@.contains(
            #[trigger] edges[k],
        ) by {}
    }
    if !model.diff_logic.parameters().simplify {
        return edges;
    }
    let (table, arcs): (NodeTable, Vec<WeightedArc>) = build_graph(&edges);
    let n: usize = table.int_vars.len();
    let ghost keep = |e: DiffEdge| survives(edges@, e);
    if n == 0 {
        proof {
            if edges.len() > 0 {
                assert(table.has(edges[0].x));
            }
            reveal(Seq::filter);
            assert(edges@.filter(keep) =~= edges@);
        }
        return edges;
    }
    let ghost vars = table.int_vars@;
    proof {
        lemma_graph_meaning(arcs@, edges@, vars);
        if bounds_fit(edges@) {
            lemma_bounds_fit(arcs@, edges@, vars);
        }
    }
    let dist: Vec<Vec<IntVal>> = match all_distances(n, &arcs) {
        Some(dist) => dist,
        None => {
            return edges;
        },
    };
    let mut out: Vec<DiffEdge> = Vec::new();
    let mut i: usize = 0;
    proof {
        reveal(Seq::filter);
        assert(edges@.take(0).filter(keep) =~= Seq::<DiffEdge>::empty());
    }
    while i < edges.len()
        invariant
            i <= edges.len(),
            n == table.int_vars.len(),
            vars == table.int_vars@,
            table.wf(),
            keep == (|e: DiffEdge| survives(edges@, e)),
            forall|k: int|
                0 <= k < edges.len() && (#[trigger] edges[k]).gate is Some ==> edges[k].d
                    > IntVal::MIN,
            forall|k: int|
                0 <= k < edges.len() ==> table.has((#[trigger] edges[k]).x) && table.has(
                    edges[k].y,
                ),
            dist.len() == n,
            forall|u: int| 0 <= u < n ==> (#[trigger] dist[u]).len() == n,
            bounds_fit(edges@) ==> forall|u: int, v: int, c: int|
                0 <= u < n && 0 <= v < n ==> ((dist[u][v] < IntVal::MAX && dist[u][v] <= c)
                    <==> #[trigger] bounds_potential(arcs@, n as int, u, v, c)),
            forall|u: int, v: int, c: int|
                0 <= u < n && 0 <= v < n ==> implied(edges@, vars[u], vars[v], c)
                    == #[trigger] bounds_potential(arcs@, n as int, u, v, c),
            forall|k: int| 0 <= k < out.len() ==> edges@.contains(#[trigger] out[k]),
            bounds_fit(edges@) ==> out@ == edges@.take(i as int).filter(keep),
        decreases edges.len() - i,
    {
        let edge: DiffEdge = edges[i];
        assert(edges[i as int] == edge);
        assert(edges@.contains(edge));
        let from: usize = table.node(edge.x);
        let to: usize = table.node(edge.y);
        let there: IntVal = dist[from][to];
        let back: IntVal = dist[to][from];
        let stays: bool = match edge.gate {
            // Drop the edge if a strictly shorter path exists.
            None => there >= edge.d,
            // Drop the edge if the path back forbids it, or if it is implied already.
            Some(_) => if back != IntVal::MAX && back < 0 - edge.d {
                false
            } else {
                !(there != IntVal::MAX && there <= edge.d)
            },
        };
        proof {
            if bounds_fit(edges@) {
                let f = from as int;
                let t = to as int;
                assert(implied(edges@, vars[f], vars[t], edge.d - 1) == bounds_potential(
                    arcs@,
                    n as int,
                    f,
                    t,
                    edge.d - 1,
                ));
                assert(implied(edges@, vars[f], vars[t], edge.d as int) == bounds_potential(
                    arcs@,
                    n as int,
                    f,
                    t,
                    edge.d as int,
                ));
                assert(implied(edges@, vars[t], vars[f], -edge.d - 1) == bounds_potential(
                    arcs@,
                    n as int,
                    t,
                    f,
                    -edge.d - 1,
                ));
                assert(stays == survives(edges@, edge));
                assert(edges@.take(i + 1).drop_last() == edges@.take(i as int));
                reveal(Seq::filter);
            }
        }
        if stays {
            out.push(edge);
        }
        i = i + 1;
    }
    assert(edges@.take(i as int) == edges@);
    out
}


/// Whether the views that the edges without a gate force to differ by a constant do.
pub open spec fn unified(
    edges: Seq<DiffEdge>,
    ints: IntAssignment,
    bools: BoolAssignment,
) -> bool {
    forall|x: IntView, y: IntView, c: int|
        is_endpoint(edges, x) && is_endpoint(edges, y) && #[trigger] forced_equal(edges, x, y, c)
            ==> x.eval(ints, bools) - y.eval(ints, bools) == c
}

/// Whether the distances between two nodes are opposite, so that their views differ by a
/// constant.
spec fn opposite(dist: Seq<Vec<IntVal>>, a: int, b: int) -> bool {
    &&& dist[a][b] < IntVal::MAX
    &&& dist[b][a] < IntVal::MAX
    &&& clamped(dist[a][b] + dist[b][a]) == 0
}

/// Whether the views of two nodes differ by their distance, if the distances are opposite.
spec fn pair_kept(
    dist: Seq<Vec<IntVal>>,
    vars: Seq<IntView>,
    a: int,
    b: int,
    ints: IntAssignment,
    bools: BoolAssignment,
) -> bool {
    opposite(dist, a, b) ==> vars[a].eval(ints, bools) == vars[b].eval(ints, bools) + dist[a][b]
}

/// Whether the pairs of nodes before the pair `(u, v)` are kept.
spec fn pairs_kept(
    dist: Seq<Vec<IntVal>>,
    vars: Seq<IntView>,
    u: int,
    v: int,
    ints: IntAssignment,
    bools: BoolAssignment,
) -> bool {
    forall|a: int, b: int|
        0 <= a < b < vars.len() && (a < u || (a == u && b < v)) ==> #[trigger] pair_kept(
            dist,
            vars,
            a,
            b,
            ints,
            bools,
        )
}

/// Whether the opposite distances are the forced differences.
spec fn forced_opposite(
    edges: Seq<DiffEdge>,
    vars: Seq<IntView>,
    dist: Seq<Vec<IntVal>>,
) -> bool {
    &&& forall|a: int, b: int, c: int|
        0 <= a < vars.len() && 0 <= b < vars.len() && #[trigger] forced_equal(
            edges,
            vars[a],
            vars[b],
            c,
        ) ==> opposite(dist, a, b) && dist[a][b] == c
    &&& forall|a: int, b: int|
        0 <= a < vars.len() && 0 <= b < vars.len() && #[trigger] opposite(dist, a, b)
            ==> forced_equal(edges, vars[a], vars[b], dist[a][b] as int)
}

/// The opposite distances are the forced differences.
proof fn lemma_opposite_forced(
    arcs: Seq<WeightedArc>,
    edges: Seq<DiffEdge>,
    vars: Seq<IntView>,
    dist: Seq<Vec<IntVal>>,
)
    requires
        represents(arcs, edges, vars),
        satisfiable(edges),
        dist.len() == vars.len(),
        forall|u: int| 0 <= u < vars.len() ==> (#[trigger] dist[u]).len() == vars.len(),
        forall|u: int| 0 <= u < vars.len() ==> distances(arcs, vars.len() as int, u, (#[trigger] dist[u])@),
        forall|u: int, v: int, c: int|
            0 <= u < vars.len() && 0 <= v < vars.len() ==> ((dist[u][v] < IntVal::MAX
                && dist[u][v] <= c) <==> #[trigger] bounds_potential(
                arcs,
                vars.len() as int,
                u,
                v,
                c,
            )),
        forall|i: int| 0 <= i < vars.len() ==> is_endpoint(edges, #[trigger] vars[i]),
        forall|v: IntView| #[trigger] is_endpoint(edges, v) ==> vars.contains(v),
    ensures
        forced_opposite(edges, vars, dist),
{
    let n = vars.len() as int;
    lemma_graph_meaning(arcs, edges, vars);
    assert forall|u: int, v: int| 0 <= u < n && 0 <= v < n && dist[u][v] < IntVal::MAX
        implies -IntVal::MAX <= 2 * #[trigger] dist[u][v] <= IntVal::MAX by {
        assert(distances(arcs, n, u, dist[u]@));
        assert(dist[u]@[v] == dist[u][v]);
    }
    let s = choose|s: ViewValues| #[trigger] globally(edges, s);
    // A forced difference is the distance, and the distances are opposite.
    assert forall|a: int, b: int, c: int|
        0 <= a < n && 0 <= b < n && #[trigger] forced_equal(edges, vars[a], vars[b], c) implies
        opposite(dist, a, b) && dist[a][b] == c by {
        assert(bounds_potential(arcs, n, a, b, c));
        assert(bounds_potential(arcs, n, b, a, -c));
        assert(dist[a][b] <= c && dist[b][a] <= -c);
        assert(bounds_potential(arcs, n, a, b, dist[a][b] as int));
        assert(bounds_potential(arcs, n, b, a, dist[b][a] as int));
        assert(implied(edges, vars[a], vars[b], dist[a][b] as int));
        assert(implied(edges, vars[b], vars[a], dist[b][a] as int));
        assert(s(vars[a]) - s(vars[b]) <= dist[a][b]);
        assert(s(vars[b]) - s(vars[a]) <= dist[b][a]);
    }
    assert forall|a: int, b: int|
        0 <= a < n && 0 <= b < n && #[trigger] opposite(dist, a, b) implies forced_equal(
        edges,
        vars[a],
        vars[b],
        dist[a][b] as int,
    ) by {
        assert(-IntVal::MAX <= 2 * dist[a][b] <= IntVal::MAX);
        assert(-IntVal::MAX <= 2 * dist[b][a] <= IntVal::MAX);
        assert(dist[b][a] == -dist[a][b]);
        assert(bounds_potential(arcs, n, a, b, dist[a][b] as int));
        assert(bounds_potential(arcs, n, b, a, dist[b][a] as int));
    }
}

/// The pairs of nodes that are kept are the views that are unified.
proof fn lemma_pairs_unified(
    arcs: Seq<WeightedArc>,
    edges: Seq<DiffEdge>,
    vars: Seq<IntView>,
    dist: Seq<Vec<IntVal>>,
    ints: IntAssignment,
    bools: BoolAssignment,
)
    requires
        represents(arcs, edges, vars),
        satisfiable(edges),
        dist.len() == vars.len(),
        forall|u: int| 0 <= u < vars.len() ==> (#[trigger] dist[u]).len() == vars.len(),
        forall|u: int| 0 <= u < vars.len() ==> distances(arcs, vars.len() as int, u, (#[trigger] dist[u])@),
        forall|u: int, v: int, c: int|
            0 <= u < vars.len() && 0 <= v < vars.len() ==> ((dist[u][v] < IntVal::MAX
                && dist[u][v] <= c) <==> #[trigger] bounds_potential(
                arcs,
                vars.len() as int,
                u,
                v,
                c,
            )),
        forall|i: int| 0 <= i < vars.len() ==> is_endpoint(edges, #[trigger] vars[i]),
        forall|v: IntView| #[trigger] is_endpoint(edges, v) ==> vars.contains(v),
    ensures
        pairs_kept(dist, vars, vars.len() as int, 0, ints, bools) == unified(edges, ints, bools),
{
    let n = vars.len() as int;
    lemma_opposite_forced(arcs, edges, vars, dist);
    let s = choose|s: ViewValues| #[trigger] globally(edges, s);
    if unified(edges, ints, bools) {
        assert forall|a: int, b: int| 0 <= a < b < n implies #[trigger] pair_kept(
            dist,
            vars,
            a,
            b,
            ints,
            bools,
        ) by {
            if opposite(dist, a, b) {
                assert(forced_equal(edges, vars[a], vars[b], dist[a][b] as int));
                assert(is_endpoint(edges, vars[a]) && is_endpoint(edges, vars[b]));
            }
        }
    }
    if pairs_kept(dist, vars, n, 0, ints, bools) {
        assert forall|x: IntView, y: IntView, c: int|
            is_endpoint(edges, x) && is_endpoint(edges, y) && #[trigger] forced_equal(
                edges,
                x,
                y,
                c,
            ) implies x.eval(ints, bools) - y.eval(ints, bools) == c by {
            let a = vars.index_of(x);
            let b = vars.index_of(y);
            assert(vars.contains(x) && vars.contains(y));
            assert(vars[a] == x && vars[b] == y);
            assert(forced_equal(edges, vars[a], vars[b], c));
            if a < b {
                assert(pair_kept(dist, vars, a, b, ints, bools));
            } else if b < a {
                assert(forced_equal(edges, vars[b], vars[a], -c));
                assert(opposite(dist, b, a) && dist[b][a] == -c);
                assert(pair_kept(dist, vars, b, a, ints, bools));
            } else {
                assert(s(x) - s(x) <= c);
                assert(s(x) - s(x) <= -c);
            }
        }
    }
}

/// Whether the aliases tell of the ends that are decisions plus constants which of them are
/// forced to differ by a constant.
pub open spec fn all_tied(model: &Model, edges: Seq<DiffEdge>) -> bool {
    forall|x: IntView, y: IntView, c: int|
        is_endpoint(edges, x) && is_endpoint(edges, y) && x != y && #[trigger] forced_equal(
            edges,
            x,
            y,
            c,
        ) ==> model.tied(x, y, c)
}

/// Whether no two different ends are forced to differ by a constant.
pub open spec fn none_forced(edges: Seq<DiffEdge>) -> bool {
    forall|x: IntView, y: IntView, c: int|
        is_endpoint(edges, x) && is_endpoint(edges, y) && x != y ==> !#[trigger] forced_equal(
            edges,
            x,
            y,
            c,
        )
}

/// Whether the pairs of nodes before the pair `(u, v)` with opposite distances are tied.
spec fn pairs_tied(
    model: &Model,
    dist: Seq<Vec<IntVal>>,
    vars: Seq<IntView>,
    u: int,
    v: int,
) -> bool {
    forall|a: int, b: int|
        0 <= a < b < vars.len() && (a < u || (a == u && b < v)) && #[trigger] opposite(dist, a, b)
            ==> model.tied(vars[a], vars[b], dist[a][b] as int)
}

/// Whether there is a pair of nodes before the pair `(u, v)` with opposite distances.
spec fn pair_before(dist: Seq<Vec<IntVal>>, n: int, u: int, v: int) -> bool {
    exists|a: int, b: int|
        0 <= a < b < n && (a < u || (a == u && b < v)) && #[trigger] opposite(dist, a, b)
}

/// Being tied goes both ways.
proof fn lemma_tied_reversed(model: &Model, x: IntView, y: IntView, c: int)
    requires
        model.tied(x, y, c),
    ensures
        model.tied(y, x, -c),
{
}

/// Unify the views that the edges without a gate force to differ by a constant. The edges are
/// returned unchanged.
#[verifier::spinoff_prover]
#[verifier::rlimit(60)]
pub fn simplify_unify(model: &mut Model, edges: Vec<DiffEdge>) -> (r: Result<
    Vec<DiffEdge>,
    Conflict,
>)
    requires
        old(model).wf(),
        forall|k: int|
            0 <= k < edges.len() ==> old(model).ctx.has_view((#[trigger] edges[k]).x) && old(
                model,
            ).ctx.has_view(edges[k].y),
    ensures
        final(model).wf(),
        final(model).ctx.extends(&old(model).ctx),
        final(model).ctx.narrows(&old(model).ctx),
        final(model).diff_logic == old(model).diff_logic,
        final(model).linears == old(model).linears,
        final(model).clauses == old(model).clauses,
        r matches Ok(out) ==> out@ == edges@,
        !old(model).diff_logic.parameters().simplify ==> r is Ok && *final(model) == *old(model),
        bounds_fit(edges@) && !satisfiable(edges@) ==> r is Ok && *final(model) == *old(model),
        old(model).diff_logic.parameters().simplify && bounds_fit(edges@) && satisfiable(edges@)
            ==> match r {
            Ok(_) => forall|ints: IntAssignment, bools: BoolAssignment|
                #[trigger] final(model).admits(ints, bools) <==> (old(model).admits(ints, bools)
                    && unified(edges@, ints, bools)),
            Err(_) => forall|ints: IntAssignment, bools: BoolAssignment|
                #[trigger] old(model).admits(ints, bools) ==> !unified(edges@, ints, bools),
        },
        old(model).diff_logic.parameters().simplify && bounds_fit(edges@) && satisfiable(edges@)
            && r is Ok ==> all_tied(final(model), edges@),
        bounds_fit(edges@) && satisfiable(edges@) && none_forced(edges@) ==> r is Ok
            && *final(model) == *old(model),
{
    let ghost start = *model;
    proof {
        assert(model.ctx.propagation_queue@.take(model.ctx.propagation_queue.len() as int)
            == model.ctx.propagation_queue@);
    }
    if !model.diff_logic.parameters().simplify {
        return Ok(edges);
    }
    let (table, arcs): (NodeTable, Vec<WeightedArc>) = build_graph(&edges);
    let n: usize = table.int_vars.len();
    let ghost vars = table.int_vars@;
    proof {
        lemma_graph_meaning(arcs@, edges@, vars);
        if bounds_fit(edges@) {
            lemma_bounds_fit(arcs@, edges@, vars);
        }
        assert forall|v: IntView| #[trigger] is_endpoint(edges@, v) implies vars.contains(v) by {
            let k = choose|k: int|
                0 <= k < edges@.len() && ((#[trigger] edges@[k]).x == v || edges@[k].y == v);
            assert(table.has(edges[k].x) && table.has(edges[k].y));
            let i = table.number(v);
            assert(table.node_of@.dom().contains(view_key(v)));
            lemma_view_key_injective(table.int_vars[i], v);
            assert(vars[i] == v);
        }
        assert forall|i: int| 0 <= i < n implies start.ctx.has_view(#[trigger] vars[i]) by {
            assert(is_endpoint(edges@, table.int_vars[i]));
        }
    }
    if n < 2 {
        proof {
            assert forall|ints: IntAssignment, bools: BoolAssignment| satisfiable(
                edges@,
            ) implies #[trigger] unified(edges@, ints, bools) by {
                let s = choose|s: ViewValues| #[trigger] globally(edges@, s);
                assert forall|x: IntView, y: IntView, c: int|
                    is_endpoint(edges@, x) && is_endpoint(edges@, y) && #[trigger] forced_equal(
                        edges@,
                        x,
                        y,
                        c,
                    ) implies x.eval(ints, bools) - y.eval(ints, bools) == c by {
                    assert(vars.contains(x) && vars.contains(y));
                    assert(x == y);
                    assert(s(x) - s(x) <= c);
                    assert(s(x) - s(x) <= -c);
                }
            }
        }
        return Ok(edges);
    }
    let dist: Vec<Vec<IntVal>> = match all_distances(n, &arcs) {
        Some(dist) => dist,
        None => {
            return Ok(edges);
        },
    };
    proof {
        if bounds_fit(edges@) {
            assert forall|ints: IntAssignment, bools: BoolAssignment| #[trigger]
                pairs_kept(dist@, vars, n as int, 0, ints, bools) == unified(
                    edges@,
                    ints,
                    bools,
                ) by {
                lemma_pairs_unified(arcs@, edges@, vars, dist@, ints, bools);
            }
            lemma_opposite_forced(arcs@, edges@, vars, dist@);
        }
    }
    let mut u: usize = 0;
    while u < n
        invariant
            u <= n,
            start == *old(model),
            start.diff_logic.parameters().simplify,
            n == table.int_vars.len(),
            vars == table.int_vars@,
            dist.len() == n,
            forall|u: int| 0 <= u < n ==> (#[trigger] dist[u]).len() == n,
            model.wf(),
            model.ctx.extends(&start.ctx),
            model.ctx.narrows(&start.ctx),
            model.diff_logic == start.diff_logic,
            model.linears == start.linears,
            model.clauses == start.clauses,
            start.wf(),
            forall|i: int| 0 <= i < n ==> start.ctx.has_view(#[trigger] vars[i]),
            forall|ints: IntAssignment, bools: BoolAssignment|
                #[trigger] model.admits(ints, bools) <==> (start.admits(ints, bools) && pairs_kept(
                    dist@,
                    vars,
                    u as int,
                    0,
                    ints,
                    bools,
                )),
            pairs_tied(model, dist@, vars, u as int, 0),
            bounds_fit(edges@) ==> forced_opposite(edges@, vars, dist@),
            table.wf(),
            forall|i: int| 0 <= i < n ==> is_endpoint(edges@, #[trigger] table.int_vars[i]),
            forall|v: IntView| #[trigger] is_endpoint(edges@, v) ==> vars.contains(v),
            !pair_before(dist@, n as int, u as int, 0) ==> *model == start,
            bounds_fit(edges@) ==> satisfiable(edges@),
            bounds_fit(edges@) ==> forall|ints: IntAssignment, bools: BoolAssignment|
                #[trigger] pairs_kept(dist@, vars, n as int, 0, ints, bools) == unified(
                    edges@,
                    ints,
                    bools,
                ),
        decreases n - u,
    {
        let mut v: usize = u + 1;
        proof {
            assert forall|ints: IntAssignment, bools: BoolAssignment|
                #[trigger] model.admits(ints, bools) <==> (start.admits(ints, bools) && pairs_kept(
                    dist@,
                    vars,
                    u as int,
                    u + 1,
                    ints,
                    bools,
                )) by {
                assert(pairs_kept(dist@, vars, u as int, 0, ints, bools) == pairs_kept(
                    dist@,
                    vars,
                    u as int,
                    u + 1,
                    ints,
                    bools,
                )) by {
                    lemma_pairs_same(dist@, vars, u as int, 0, u as int, u + 1, ints, bools);
                }
            }
        }
        while v < n
            invariant
                u < v <= n,
                start == *old(model),
                start.diff_logic.parameters().simplify,
                n == table.int_vars.len(),
                vars == table.int_vars@,
                dist.len() == n,
                forall|u: int| 0 <= u < n ==> (#[trigger] dist[u]).len() == n,
                model.wf(),
                model.ctx.extends(&start.ctx),
                model.ctx.narrows(&start.ctx),
                model.diff_logic == start.diff_logic,
                model.linears == start.linears,
                model.clauses == start.clauses,
                start.wf(),
                forall|i: int| 0 <= i < n ==> start.ctx.has_view(#[trigger] vars[i]),
                forall|ints: IntAssignment, bools: BoolAssignment|
                    #[trigger] model.admits(ints, bools) <==> (start.admits(ints, bools)
                        && pairs_kept(dist@, vars, u as int, v as int, ints, bools)),
                pairs_tied(model, dist@, vars, u as int, v as int),
                bounds_fit(edges@) ==> forced_opposite(edges@, vars, dist@),
                table.wf(),
                forall|i: int| 0 <= i < n ==> is_endpoint(edges@, #[trigger] table.int_vars[i]),
                forall|v: IntView| #[trigger] is_endpoint(edges@, v) ==> vars.contains(v),
                !pair_before(dist@, n as int, u as int, v as int) ==> *model == start,
                bounds_fit(edges@) ==> satisfiable(edges@),
                bounds_fit(edges@) ==> forall|ints: IntAssignment, bools: BoolAssignment|
                    #[trigger] pairs_kept(dist@, vars, n as int, 0, ints, bools) == unified(
                        edges@,
                        ints,
                        bools,
                    ),
            decreases n - v,
        {
            let there: IntVal = dist[u][v];
            let back: IntVal = dist[v][u];
            let ghost mid = *model;
            proof {
                assert forall|ints: IntAssignment, bools: BoolAssignment| #[trigger]
                    pairs_kept(dist@, vars, u as int, v + 1, ints, bools) == (pairs_kept(
                        dist@,
                        vars,
                        u as int,
                        v as int,
                        ints,
                        bools,
                    ) && pair_kept(dist@, vars, u as int, v as int, ints, bools)) by {
                    lemma_pairs_next(dist@, vars, u as int, v as int, ints, bools);
                }
            }
            if there != IntVal::MAX && back != IntVal::MAX && saturating_add(there, back) == 0 {
                // The views differ by exactly the distance.
                assert(opposite(dist@, u as int, v as int));
                proof {
                    assert(start.ctx.has_view(vars[u as int]));
                    assert(start.ctx.has_view(vars[v as int]));
                    lemma_view_narrowed(&start.ctx, &model.ctx, vars[u as int]);
                    lemma_view_narrowed(&start.ctx, &model.ctx, vars[v as int]);
                }
                let step: Result<(), Conflict> = model.unify(
                    table.int_vars[u],
                    table.int_vars[v],
                    there,
                );
                proof {
                    lemma_narrows_join(&start.ctx, &mid.ctx, &model.ctx);
                }
                match step {
                    Ok(()) => {},
                    Err(conflict) => {
                        proof {
                            if bounds_fit(edges@) {
                                assert forall|ints: IntAssignment, bools: BoolAssignment|
                                    #[trigger] start.admits(ints, bools) implies !unified(
                                    edges@,
                                    ints,
                                    bools,
                                ) by {
                                    if pairs_kept(dist@, vars, n as int, 0, ints, bools) {
                                        lemma_pairs_part(
                                            dist@,
                                            vars,
                                            u as int,
                                            v as int,
                                            ints,
                                            bools,
                                        );
                                        assert(mid.admits(ints, bools));
                                        assert(pair_kept(
                                            dist@,
                                            vars,
                                            u as int,
                                            v as int,
                                            ints,
                                            bools,
                                        ));
                                    }
                                }
                            }
                        }
                        return Err(conflict);
                    },
                }
                proof {
                    assert forall|ints: IntAssignment, bools: BoolAssignment|
                        #[trigger] model.admits(ints, bools) <==> (start.admits(ints, bools)
                            && pairs_kept(dist@, vars, u as int, v + 1, ints, bools)) by {
                        assert(mid.admits(ints, bools) <==> (start.admits(ints, bools)
                            && pairs_kept(dist@, vars, u as int, v as int, ints, bools)));
                    }
                    assert forall|a: int, b: int|
                        0 <= a < b < vars.len() && (a < u || (a == u && b < v + 1))
                            && #[trigger] opposite(dist@, a, b) implies model.tied(
                        vars[a],
                        vars[b],
                        dist[a][b] as int,
                    ) by {
                        assert(start.ctx.has_view(vars[a]) && start.ctx.has_view(vars[b]));
                        lemma_view_narrowed(&start.ctx, &mid.ctx, vars[a]);
                        lemma_view_narrowed(&start.ctx, &mid.ctx, vars[b]);
                        if !(a == u && b == v) {
                            assert(mid.tied(vars[a], vars[b], dist[a][b] as int));
                        }
                    }
                    assert(pair_before(dist@, n as int, u as int, v + 1));
                }
            } else {
                assert(!opposite(dist@, u as int, v as int));
                assert forall|ints: IntAssignment, bools: BoolAssignment|
                    #[trigger] model.admits(ints, bools) <==> (start.admits(ints, bools)
                        && pairs_kept(dist@, vars, u as int, v + 1, ints, bools)) by {
                    assert(pair_kept(dist@, vars, u as int, v as int, ints, bools));
                }
                proof {
                    if pair_before(dist@, n as int, u as int, v as int) {
                        let (a, b) = choose|a: int, b: int|
                            0 <= a < b < n && (a < u || (a == u && b < v)) && #[trigger] opposite(
                                dist@,
                                a,
                                b,
                            );
                        assert(pair_before(dist@, n as int, u as int, v + 1));
                    }
                }
            }
            v = v + 1;
        }
        proof {
            assert forall|ints: IntAssignment, bools: BoolAssignment|
                #[trigger] model.admits(ints, bools) <==> (start.admits(ints, bools) && pairs_kept(
                    dist@,
                    vars,
                    u + 1,
                    0,
                    ints,
                    bools,
                )) by {
                lemma_pairs_same(dist@, vars, u as int, n as int, u + 1, 0, ints, bools);
            }
            if pair_before(dist@, n as int, u as int, n as int) {
                let (a, b) = choose|a: int, b: int|
                    0 <= a < b < n && (a < u || (a == u && b < n)) && #[trigger] opposite(
                        dist@,
                        a,
                        b,
                    );
                assert(pair_before(dist@, n as int, u + 1, 0));
            }
        }
        u = u + 1;
    }
    proof {
        if bounds_fit(edges@) {
            assert forall|x: IntView, y: IntView, c: int|
                is_endpoint(edges@, x) && is_endpoint(edges@, y) && x != y
                    && #[trigger] forced_equal(edges@, x, y, c) implies model.tied(x, y, c) by {
                assert(vars.contains(x) && vars.contains(y));
                let (a, b) = (vars.index_of(x), vars.index_of(y));
                assert(forced_equal(edges@, vars[a], vars[b], c));
                if a < b {
                    assert(opposite(dist@, a, b));
                } else {
                    assert(forced_equal(edges@, vars[b], vars[a], -c));
                    assert(opposite(dist@, b, a));
                    lemma_tied_reversed(model, y, x, -c);
                }
            }
            if none_forced(edges@) && pair_before(dist@, n as int, n as int, 0) {
                let (a, b) = choose|a: int, b: int|
                    0 <= a < b < n && (a < n || (a == n && b < 0)) && #[trigger] opposite(
                        dist@,
                        a,
                        b,
                    );
                table.lemma_numbered(a);
                table.lemma_numbered(b);
                assert(vars[a] != vars[b]);
                assert(is_endpoint(edges@, table.int_vars[a]) && is_endpoint(
                    edges@,
                    table.int_vars[b],
                ));
                assert(forced_equal(edges@, vars[a], vars[b], dist[a][b] as int));
            }
        }
    }
    Ok(edges)
}

proof fn lemma_pairs_same(
    dist: Seq<Vec<IntVal>>,
    vars: Seq<IntView>,
    u: int,
    v: int,
    u2: int,
    v2: int,
    ints: IntAssignment,
    bools: BoolAssignment,
)
    requires
        (u2 == u && v <= u + 1 && v2 <= u + 1) || (u2 == u + 1 && v == vars.len() && v2 <= u2 + 1),
    ensures
        pairs_kept(dist, vars, u, v, ints, bools) == pairs_kept(dist, vars, u2, v2, ints, bools),
{
    if pairs_kept(dist, vars, u, v, ints, bools) {
        assert forall|a: int, b: int|
            0 <= a < b < vars.len() && (a < u2 || (a == u2 && b < v2)) implies #[trigger] pair_kept(
            dist,
            vars,
            a,
            b,
            ints,
            bools,
        ) by {}
    }
    if pairs_kept(dist, vars, u2, v2, ints, bools) {
        assert forall|a: int, b: int|
            0 <= a < b < vars.len() && (a < u || (a == u && b < v)) implies #[trigger] pair_kept(
            dist,
            vars,
            a,
            b,
            ints,
            bools,
        ) by {}
    }
}

proof fn lemma_pairs_next(
    dist: Seq<Vec<IntVal>>,
    vars: Seq<IntView>,
    u: int,
    v: int,
    ints: IntAssignment,
    bools: BoolAssignment,
)
    requires
        0 <= u < v < vars.len(),
    ensures
        pairs_kept(dist, vars, u, v + 1, ints, bools) == (pairs_kept(dist, vars, u, v, ints, bools)
            && pair_kept(dist, vars, u, v, ints, bools)),
{
    if pairs_kept(dist, vars, u, v + 1, ints, bools) {
        assert(pair_kept(dist, vars, u, v, ints, bools));
        assert forall|a: int, b: int|
            0 <= a < b < vars.len() && (a < u || (a == u && b < v)) implies #[trigger] pair_kept(
            dist,
            vars,
            a,
            b,
            ints,
            bools,
        ) by {}
    }
    if pairs_kept(dist, vars, u, v, ints, bools) && pair_kept(dist, vars, u, v, ints, bools) {
        assert forall|a: int, b: int|
            0 <= a < b < vars.len() && (a < u || (a == u && b < v + 1)) implies
            #[trigger] pair_kept(dist, vars, a, b, ints, bools) by {
            if a == u && b == v {
            } else {
                assert(a < u || (a == u && b < v));
            }
        }
    }
}

proof fn lemma_pairs_part(
    dist: Seq<Vec<IntVal>>,
    vars: Seq<IntView>,
    u: int,
    v: int,
    ints: IntAssignment,
    bools: BoolAssignment,
)
    requires
        0 <= u < v < vars.len(),
        pairs_kept(dist, vars, vars.len() as int, 0, ints, bools),
    ensures
        pairs_kept(dist, vars, u, v, ints, bools),
        pair_kept(dist, vars, u, v, ints, bools),
{
    assert forall|a: int, b: int|
        0 <= a < b < vars.len() && (a < u || (a == u && b < v)) implies #[trigger] pair_kept(
        dist,
        vars,
        a,
        b,
        ints,
        bools,
    ) by {}
}

} // verus!
