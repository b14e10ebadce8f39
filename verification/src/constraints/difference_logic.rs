//! Propagation of difference constraints.
//!
//! Potentials that every active edge keeps tell that the active edges can be kept. When an
//! edge becomes active the potentials are repaired, or a cycle of negative value is found. The
//! bounds of the nodes are propagated along the active edges in the order of the distances
//! that the potentials make non-negative.

use rustc_hash::{FxHashMap, FxHashSet};
use vstd::prelude::*;
use vstd::set_lib::{lemma_int_range, lemma_len_subset, set_int_range};

use crate::constraints::diff_bounds::literal_gates;
use crate::constraints::diff_graph::{are_open_edges, bool_key, DiffEdge, DiffGraph, ListKind};
use crate::constraints::diff_paths::{
    ahead, all_noticed, behind, bounded_by_path, bypassed, distances_match, in_sequence, joined_by,
    joined_value, label_of, labelled, lemma_joined_shows, lemma_node_taken, lemma_parallel_bypass,
    lemma_relevant_found, lemma_step_taken, lemma_way_is_path, no_later, noticed, relevant_found,
    steps_from, steps_taken, told_by_path, walked, ways_stand, Search,
};
use crate::helpers::fx::{map_get, map_insert, map_keys, map_new, map_remove};
use crate::helpers::priority_queue::{before, LazyPriorityQueue, Priority};
use crate::helpers::shortest::{
    admissible, arcs_within, bellman_ford, has_potentials, lemma_stable_admissible,
    lemma_small_weights_fit, lemma_span_room, lemma_weight_room, potentials, weight_room,
    weights_fit,
    WeightedArc,
};
use crate::helpers::trail::Trail;
use crate::solver::inference::{
    lemma_infers_join, lemma_infers_nothing, lemma_infers_step, lemma_narrows_admits, none_later,
};
use crate::solver::initialization::PriorityLevel;
use crate::solver::int_view::lemma_view_narrowed;
use crate::solver::reason::{antecedent, lemma_built_reason_equivalent, Conflict, ReasonBuilder};
use crate::solver::solving_context::{subject_holds, Deferral, Rule, SolvingContext};
use crate::solver::view::{
    all_hold, BoolAssignment, BoolView, IntAssignment, IntLitMeaning, IntVal,
};

verus! {

/// The value of a node under an assignment.
pub open spec fn node_value(
    graph: &DiffGraph,
    n: int,
    ints: IntAssignment,
    bools: BoolAssignment,
) -> int {
    graph.nodes.int_vars[n].eval(ints, bools)
}

/// Whether the assignment keeps the bound of the edge, whatever its gate.
pub open spec fn edge_kept(
    graph: &DiffGraph,
    edge: DiffEdge,
    ints: IntAssignment,
    bools: BoolAssignment,
) -> bool {
    node_value(graph, edge.from as int, ints, bools) - node_value(
        graph,
        edge.to as int,
        ints,
        bools,
    ) <= edge.val
}

/// Whether the gating view of the edge holds, if it has one.
pub open spec fn gate_holds(
    graph: &DiffGraph,
    edge: DiffEdge,
    ints: IntAssignment,
    bools: BoolAssignment,
) -> bool {
    edge.bool_var matches Some(b) ==> graph.bool_vars[b as int].holds(ints, bools)
}

/// The rule that the bound of every edge is kept where its gate holds.
pub open spec fn diff_rule(graph: &DiffGraph) -> Rule {
    |ints: IntAssignment, bools: BoolAssignment|
        forall|e: int|
            0 <= e < graph.edges.len() && gate_holds(graph, #[trigger] graph.edges[e], ints, bools)
                ==> edge_kept(graph, graph.edges[e], ints, bools)
}

/// Whether the assignment keeps the bound of every active edge.
pub open spec fn active_kept(
    graph: &DiffGraph,
    values: Seq<usize>,
    ints: IntAssignment,
    bools: BoolAssignment,
) -> bool {
    forall|e: int|
        0 <= e < graph.edges.len() && #[trigger] graph.active_at(e, values) ==> edge_kept(
            graph,
            graph.edges[e],
            ints,
            bools,
        )
}

/// Whether the gates of the active edges are fixed to hold.
pub open spec fn gates_fixed(graph: &DiffGraph, ctx: &SolvingContext) -> bool {
    forall|e: int|
        0 <= e < graph.edges.len() && #[trigger] graph.active_at(e, ctx.trail@) ==> (
        graph.edges[e].bool_var matches Some(b) ==> ctx.decides(graph.bool_vars[b as int], true))
}

/// The node at the end of a path.
pub open spec fn path_end(graph: &DiffGraph, start: int, path: Seq<int>) -> int {
    if path.len() == 0 {
        start
    } else {
        graph.edges[path.last()].to as int
    }
}

/// Whether the edges are active and follow one another.
pub open spec fn is_path(
    graph: &DiffGraph,
    values: Seq<usize>,
    start: int,
    path: Seq<int>,
) -> bool
    decreases path.len(),
{
    path.len() > 0 ==> {
        let e = path.last();
        &&& 0 <= e < graph.edges.len()
        &&& graph.active_at(e, values)
        &&& graph.edges[e].from == path_end(graph, start, path.drop_last())
        &&& is_path(graph, values, start, path.drop_last())
    }
}

/// The sum of the values of the edges.
pub open spec fn path_value(graph: &DiffGraph, path: Seq<int>) -> int
    decreases path.len(),
{
    if path.len() == 0 {
        0
    } else {
        path_value(graph, path.drop_last()) + graph.edges[path.last()].val
    }
}

/// The gates of the edges, last one first.
pub open spec fn path_gates(graph: &DiffGraph, path: Seq<int>) -> Seq<BoolView>
    decreases path.len(),
{
    if path.len() == 0 {
        Seq::empty()
    } else {
        let rest = path_gates(graph, path.drop_last());
        match graph.edges[path.last()].bool_var {
            Some(b) => seq![graph.bool_vars[b as int]] + rest,
            None => rest,
        }
    }
}

/// Where the gates of a path hold, its value bounds the difference of its ends.
proof fn lemma_path_bound(
    graph: &DiffGraph,
    values: Seq<usize>,
    start: int,
    path: Seq<int>,
    ints: IntAssignment,
    bools: BoolAssignment,
)
    requires
        is_path(graph, values, start, path),
        diff_rule(graph)(ints, bools),
        all_hold(path_gates(graph, path), ints, bools),
    ensures
        node_value(graph, start, ints, bools) - node_value(
            graph,
            path_end(graph, start, path),
            ints,
            bools,
        ) <= path_value(graph, path),
    decreases path.len(),
{
    if path.len() > 0 {
        let e = path.last();
        let edge = graph.edges[e];
        let rest = path_gates(graph, path.drop_last());
        let all = path_gates(graph, path);
        assert(all_hold(rest, ints, bools)) by {
            assert forall|i: int| 0 <= i < rest.len() implies (#[trigger] rest[i]).holds(
                ints,
                bools,
            ) by {
                match edge.bool_var {
                    Some(b) => {
                        assert(all[i + 1] == rest[i]);
                        assert(all[i + 1].holds(ints, bools));
                    },
                    None => {
                        assert(all[i].holds(ints, bools));
                    },
                }
            }
        }
        if let Some(b) = edge.bool_var {
            assert(all[0] == graph.bool_vars[b as int]);
            assert(all[0].holds(ints, bools));
        }
        assert(gate_holds(graph, graph.edges[e], ints, bools));
        lemma_path_bound(graph, values, start, path.drop_last(), ints, bools);
    }
}

/// The value of a path of active edges bounds the difference of its ends where they are kept.
pub proof fn lemma_path_kept(
    graph: &DiffGraph,
    values: Seq<usize>,
    start: int,
    path: Seq<int>,
    ints: IntAssignment,
    bools: BoolAssignment,
)
    requires
        is_path(graph, values, start, path),
        active_kept(graph, values, ints, bools),
    ensures
        node_value(graph, start, ints, bools) - node_value(
            graph,
            path_end(graph, start, path),
            ints,
            bools,
        ) <= path_value(graph, path),
    decreases path.len(),
{
    if path.len() > 0 {
        lemma_path_kept(graph, values, start, path.drop_last(), ints, bools);
        assert(graph.active_at(path.last(), values));
    }
}

/// The gates of a path of active edges hold in the context.
proof fn lemma_path_gates_hold(
    graph: &DiffGraph,
    ctx: &SolvingContext,
    start: int,
    path: Seq<int>,
    ints: IntAssignment,
    bools: BoolAssignment,
)
    requires
        is_path(graph, ctx.trail@, start, path),
        gates_fixed(graph, ctx),
        ctx.admits(ints, bools),
        forall|b: int|
            0 <= b < graph.bool_vars.len() ==> ctx.knows(#[trigger] graph.bool_vars[b]),
        forall|e: int|
            0 <= e < graph.edges.len() ==> ((#[trigger] graph.edges[e]).bool_var matches Some(b)
                ==> b < graph.bool_vars.len()),
    ensures
        all_hold(path_gates(graph, path), ints, bools),
    decreases path.len(),
{
    if path.len() > 0 {
        let e = path.last();
        lemma_path_gates_hold(graph, ctx, start, path.drop_last(), ints, bools);
        assert(graph.active_at(e, ctx.trail@));
        let rest = path_gates(graph, path.drop_last());
        if let Some(b) = graph.edges[e].bool_var {
            assert(ctx.knows(graph.bool_vars[b as int]));
            lemma_decided_holds(ctx, graph.bool_vars[b as int], ints, bools);
            let all = path_gates(graph, path);
            assert forall|i: int| 0 <= i < all.len() implies (#[trigger] all[i]).holds(
                ints,
                bools,
            ) by {
                if i > 0 {
                    assert(all[i] == rest[i - 1]);
                    assert(rest[i - 1].holds(ints, bools));
                }
            }
        }
    }
}

/// What the domains decide holds of every assignment in them.
pub proof fn lemma_decided_holds(
    ctx: &SolvingContext,
    b: BoolView,
    ints: IntAssignment,
    bools: BoolAssignment,
)
    requires
        ctx.knows(b),
        ctx.decides(b, true),
        ctx.admits(ints, bools),
    ensures
        b.holds(ints, bools),
{
    match b {
        BoolView::Int(v, m) => {
            assert(ctx.ints[v as int].has(ints(v as int)));
        },
        BoolView::Lit(l) => {
            assert(ctx.bools[l.var as int] is Some);
        },
        _ => {},
    }
}

/// A node on a path, and the gating view of the edge that leads from there.
#[derive(Clone, Copy, Debug, PartialEq, Eq, Structural)]
pub struct Step {
    /// The node before.
    pub node: usize,
    /// The gating view of the edge, if it has one.
    pub gate: Option<usize>,
}

/// What the propagator keeps.
pub struct DiffLogicState {
    /// The graph.
    pub graph: DiffGraph,
    /// The potentials of the nodes.
    pub pi: Vec<IntVal>,
    /// Lower bounds that were propagated.
    pub lower_bound: Vec<Option<IntVal>>,
    /// Upper bounds that were propagated.
    pub upper_bound: Vec<Option<IntVal>>,
    /// For each node, the step by which the current search reached it.
    pub backtrace: Vec<Option<Step>>,
    /// Whether the current search has visited a node.
    pub visited: Vec<bool>,
    /// The nodes that the current search has visited.
    pub visited_updates: Vec<usize>,
    /// The nodes whose lower bounds have changed.
    pub lower_bound_changes: FxHashSet<usize>,
    /// The nodes whose upper bounds have changed.
    pub upper_bound_changes: FxHashSet<usize>,
    /// The nodes whose lower bounds were propagated.
    pub lb_updates: Vec<usize>,
    /// The nodes whose upper bounds were propagated.
    pub ub_updates: Vec<usize>,
    /// The gates that were reported to be fixed.
    pub fixed_bools: FxHashSet<usize>,
    /// Whether the potentials have been found.
    pub pi_initialized: bool,
    /// The priority of the propagator, if it is not the usual one.
    pub priority_bounds: Option<PriorityLevel>,
    /// The priority of propagating gates on their own, if it is not the usual one.
    pub priority_booleans: Option<PriorityLevel>,
    /// How reasons for gates that cannot hold are built: later, or at once with one bound
    /// relaxed, or at once with both bounds.
    pub bool_reasons: u8,
    /// Whether the open edges are checked when an edge becomes active.
    pub use_inc_imp: bool,
    /// Whether the propagator was added to the engine.
    pub propagator_registered: bool,
    /// The index of the propagator.
    pub propagator_ref: Option<usize>,
}

/// The largest size of a potential.
pub const PI_LIMIT: IntVal = 0x2000_0000_0000_0000;

impl DiffLogicState {
    /// There is an entry for each node, and the potentials lie within their limit.
    pub open spec fn sized(&self) -> bool {
        let n = self.graph.size();
        &&& self.pi.len() == n
        &&& self.lower_bound.len() == n
        &&& self.upper_bound.len() == n
        &&& self.backtrace.len() == n
        &&& self.visited.len() == n
        &&& forall|v: int| 0 <= v < n ==> -PI_LIMIT <= #[trigger] self.pi[v] <= PI_LIMIT
    }

    /// Whether the values of the edges are small enough for no sum to leave the range.
    pub open spec fn values_fit(&self) -> bool {
        forall|e: int|
            0 <= e < self.graph.edges.len() ==> -weight_room(
                self.graph.size(),
                self.graph.edges.len() as int,
            ) <= (#[trigger] self.graph.edges[e]).val <= weight_room(
                self.graph.size(),
                self.graph.edges.len() as int,
            )
    }

    /// Whether the potentials keep the bound of the edge.
    pub open spec fn pi_keeps(&self, edge: DiffEdge) -> bool {
        self.pi[edge.to as int] <= self.pi[edge.from as int] + edge.val
    }

    /// Whether the potentials keep the bounds of the active edges, but for one.
    pub open spec fn pi_valid_but(&self, values: Seq<usize>, but: int) -> bool {
        forall|e: int|
            0 <= e < self.graph.edges.len() && e != but && #[trigger] self.graph.active_at(
                e,
                values,
            ) ==> self.pi_keeps(self.graph.edges[e])
    }

    /// Whether the potentials keep the bounds of all active edges.
    pub open spec fn pi_valid(&self, values: Seq<usize>) -> bool {
        self.pi_valid_but(values, -1)
    }

    /// The views of the graph are those of the context, and the gates of active edges are
    /// fixed to hold.
    pub open spec fn grounded(&self, ctx: &SolvingContext) -> bool {
        &&& ctx.wf()
        &&& self.graph.wf(&ctx.trail)
        &&& forall|n: int|
            0 <= n < self.graph.size() ==> ctx.has_view(#[trigger] self.graph.nodes.int_vars[n])
        &&& forall|b: int|
            0 <= b < self.graph.bool_vars.len() ==> ctx.knows(#[trigger] self.graph.bool_vars[b])
                && gate_bounded(self.graph.bool_vars[b])
        &&& gates_fixed(&self.graph, ctx)
    }
}

/// Whether a gate can be required to hold and not to hold.
pub open spec fn gate_bounded(b: BoolView) -> bool {
    &&& b matches BoolView::Int(_, IntLitMeaning::Less(v)) ==> v > IntVal::MIN
    &&& b matches BoolView::Int(_, IntLitMeaning::GreaterEq(v)) ==> v > IntVal::MIN
}

/// The paths by which nodes were reached, as far as the steps tell.
pub open spec fn traced(
    graph: &DiffGraph,
    values: Seq<usize>,
    start: int,
    backtrace: Seq<Option<Step>>,
    paths: Map<int, Seq<int>>,
) -> bool {
    forall|t: int| #[trigger]
        paths.dom().contains(t) ==> {
            &&& 0 <= t < backtrace.len()
            &&& is_path(graph, values, start, paths[t])
            &&& path_end(graph, start, paths[t]) == t
            &&& match backtrace[t] {
                None => paths[t].len() == 0,
                Some(step) => {
                    &&& paths[t].len() > 0
                    &&& paths.dom().contains(step.node as int)
                    &&& paths[step.node as int] == paths[t].drop_last()
                    &&& graph.edges[paths[t].last()].bool_var == step.gate
                },
            }
        }
}

impl DiffLogicState {
    /// The gates of the edges by which a node was reached, last one first.
    fn get_cycle_reason(
        &self,
        node: usize,
        Ghost(values): Ghost<Seq<usize>>,
        Ghost(start): Ghost<int>,
        Ghost(paths): Ghost<Map<int, Seq<int>>>,
    ) -> (reason: Vec<BoolView>)
        requires
            traced(&self.graph, values, start, self.backtrace@, paths),
            paths.dom().contains(node as int),
            forall|e: int|
                0 <= e < self.graph.edges.len() ==> ((
                #[trigger] self.graph.edges[e]).bool_var matches Some(b) ==> b
                    < self.graph.bool_vars.len()),
        ensures
            reason@ == path_gates(&self.graph, paths[node as int]),
    {
        let mut reason: Vec<BoolView> = Vec::new();
        let mut var: usize = node;
        proof {
            assert(reason@ + path_gates(&self.graph, paths[var as int]) =~= path_gates(
                &self.graph,
                paths[node as int],
            ));
        }
        while self.backtrace[var].is_some()
            invariant
                traced(&self.graph, values, start, self.backtrace@, paths),
                paths.dom().contains(var as int),
                var < self.backtrace.len(),
                forall|e: int|
                    0 <= e < self.graph.edges.len() ==> ((
                    #[trigger] self.graph.edges[e]).bool_var matches Some(b) ==> b
                        < self.graph.bool_vars.len()),
                reason@ + path_gates(&self.graph, paths[var as int]) == path_gates(
                    &self.graph,
                    paths[node as int],
                ),
            decreases paths[var as int].len(),
        {
            let step: Step = match self.backtrace[var] {
                Some(step) => step,
                None => Step { node: var, gate: None },
            };
            let ghost path = paths[var as int];
            proof {
                assert(is_path(&self.graph, values, start, path));
                assert(0 <= path.last() < self.graph.edges.len());
                assert(self.graph.edges[path.last()].bool_var == step.gate);
            }
            let ghost before_reason = reason@;
            if let Some(b) = step.gate {
                reason.push(self.graph.bool_vars[b]);
            }
            proof {
                let rest = path_gates(&self.graph, path.drop_last());
                assert(reason@ + rest =~= before_reason + path_gates(&self.graph, path));
            }
            var = step.node;
        }
        proof {
            assert(path_gates(&self.graph, paths[var as int]) =~= Seq::<BoolView>::empty());
            assert(reason@ =~= path_gates(&self.graph, paths[node as int]));
        }
        reason
    }
}


/// The change of a potential.
spec fn change(pi: Seq<IntVal>, new: Map<usize, IntVal>, s: usize) -> int {
    new[s] - pi[s as int]
}

/// What holds of the potentials while they are repaired for a new edge from `u` to `v` of
/// value `d`: those of the nodes in `new` are final, the queue holds the changes of nodes that
/// are still to be visited, and no edge from a final node asks for more.
#[verifier::opaque]
spec fn repairing(
    graph: &DiffGraph,
    values: Seq<usize>,
    pi: Seq<IntVal>,
    new: Map<usize, IntVal>,
    queue: Map<usize, Priority>,
    u: usize,
    v: usize,
    d: int,
) -> bool {
    let first = pi[u as int] + d - pi[v as int];
    &&& forall|s: usize| #[trigger]
        new.dom().contains(s) ==> s < graph.size() && !queue.dom().contains(s) && first <= change(
            pi,
            new,
            s,
        ) < 0
    &&& forall|t: usize| #[trigger]
        queue.dom().contains(t) ==> t < graph.size() && first <= queue[t].0 < 0 && !queue[t].1
    &&& forall|s: usize, t: usize| #[trigger]
        new.dom().contains(s) && #[trigger] queue.dom().contains(t) ==> change(pi, new, s)
            <= queue[t].0
    &&& !new.dom().contains(u)
    &&& new.dom().contains(v) ==> new[v] == pi[u as int] + d
    &&& queue.dom().contains(v) ==> queue[v].0 == first && (forall|s: usize|
        !#[trigger] new.dom().contains(s)) && forall|t: usize| #[trigger]
        queue.dom().contains(t) ==> t == v
    &&& new.dom().contains(v) || queue.dom().contains(v)
}

/// Whether the edge asks for no more than what is final or in the queue.
spec fn eased(
    graph: &DiffGraph,
    pi: Seq<IntVal>,
    new: Map<usize, IntVal>,
    queue: Map<usize, Priority>,
    edge: DiffEdge,
) -> bool {
    if new.dom().contains(edge.to) {
        new[edge.to] <= new[edge.from] + edge.val
    } else {
        pi[edge.to as int] <= new[edge.from] + edge.val || (queue.dom().contains(edge.to)
            && pi[edge.to as int] + queue[edge.to].0 <= new[edge.from] + edge.val)
    }
}

/// Whether the active edges from final nodes are eased, those of the node `s` only up to the
/// position `upto` of its list.
#[verifier::opaque]
spec fn all_eased(
    graph: &DiffGraph,
    values: Seq<usize>,
    pi: Seq<IntVal>,
    new: Map<usize, IntVal>,
    queue: Map<usize, Priority>,
    s: int,
    upto: int,
) -> bool {
    forall|n: int, i: int|
        0 <= n < graph.size() && new.dom().contains(n as usize) && 0 <= i
            < graph.active_out[n].at(values).len() && (n == s ==> i < upto) ==> eased(
            graph,
            pi,
            new,
            queue,
            graph.edges[#[trigger] graph.active_out[n].at(values)[i] as int],
        )
}

/// The paths stand for the changes.
#[verifier::opaque]
spec fn paths_stand(
    graph: &DiffGraph,
    pi: Seq<IntVal>,
    new: Map<usize, IntVal>,
    queue: Map<usize, Priority>,
    u: usize,
    d: int,
    paths: Map<int, Seq<int>>,
) -> bool {
    &&& forall|t: usize| #[trigger]
        new.dom().contains(t) ==> paths.dom().contains(t as int) && new[t] == pi[u as int] + d
            + path_value(graph, paths[t as int])
    &&& forall|t: usize| #[trigger]
        queue.dom().contains(t) ==> paths.dom().contains(t as int) && pi[t as int] + queue[t].0
            == pi[u as int] + d + path_value(graph, paths[t as int])
    &&& forall|t: int| #[trigger]
        paths.dom().contains(t) ==> new.dom().contains(t as usize) || queue.dom().contains(
            t as usize,
        )
}

impl DiffGraph {
    /// The active edges of a node are edges from it.
    pub proof fn lemma_active_out(&self, values: Seq<usize>, n: int, i: int)
        requires
            self.structure(),
            self.good_at(values),
            0 <= n < self.size(),
            0 <= i < self.active_out[n].at(values).len(),
        ensures
            self.active_out.len() == self.size(),
            self.active_out[n].wf_at(values),
            self.active_out[n].at(values)[i] < self.edges.len(),
            self.edges[self.active_out[n].at(values)[i] as int].from == n,
            self.edges[self.active_out[n].at(values)[i] as int].to < self.size(),
            self.active_at(self.active_out[n].at(values)[i] as int, values),
    {
        reveal(DiffGraph::structure);
        reveal(DiffGraph::good_at);
        let e = self.active_out[n].at(values)[i] as int;
        assert(self.edges[e].from == n);
        assert(self.active_out[self.edges[e].from as int].at(values)[i] == e);
    }

    /// The active edges to a node are edges to it.
    pub proof fn lemma_active_in(&self, values: Seq<usize>, n: int, i: int)
        requires
            self.structure(),
            self.good_at(values),
            0 <= n < self.size(),
            0 <= i < self.active_in[n].at(values).len(),
        ensures
            self.active_in.len() == self.size(),
            self.active_in[n].wf_at(values),
            self.active_in[n].at(values)[i] < self.edges.len(),
            self.edges[self.active_in[n].at(values)[i] as int].to == n,
            self.edges[self.active_in[n].at(values)[i] as int].from < self.size(),
            self.active_at(self.active_in[n].at(values)[i] as int, values),
    {
        reveal(DiffGraph::structure);
        reveal(DiffGraph::good_at);
        let e = self.active_in[n].at(values)[i] as int;
        assert(self.edges[e].to == n);
        let f = self.edges[e].from as int;
        let j = self.active_out[f].at(values).index_of(e as usize);
        assert(self.active_out[f].at(values).contains(e as usize));
        assert(self.active_out[self.edges[e].from as int].at(values)[j] == e);
    }

    /// The lists of the nodes fit the trail.
    pub proof fn lemma_lists(&self, values: Seq<usize>, n: int)
        requires
            self.structure(),
            self.good_at(values),
            0 <= n < self.size(),
        ensures
            self.active_out.len() == self.size(),
            self.active_in.len() == self.size(),
            self.open_out.len() == self.size(),
            self.open_in.len() == self.size(),
            self.active_out[n].wf_at(values),
            self.active_in[n].wf_at(values),
            self.open_out[n].wf_at(values),
            self.open_in[n].wf_at(values),
    {
        reveal(DiffGraph::structure);
        reveal(DiffGraph::good_at);
    }

    /// The ends and the gating view of an edge are those of the graph.
    pub proof fn lemma_edge(&self, e: int)
        requires
            self.structure(),
            0 <= e < self.edges.len(),
        ensures
            self.edges[e].from < self.size(),
            self.edges[e].to < self.size(),
            self.edges[e].bool_var matches Some(b) ==> b < self.bool_vars.len(),
    {
        reveal(DiffGraph::structure);
        assert(self.edges[e].from < self.size());
    }

    /// The number of a gate is its position.
    pub proof fn lemma_gate_number(&self, b: BoolView, n: int)
        requires
            self.structure(),
            0 <= n < self.bool_vars.len(),
            self.bool_vars[n] == b,
        ensures
            self.gate_number(b) == n,
    {
        reveal(DiffGraph::structure);
        assert(self.bool_var_to_node@[bool_key(self.bool_vars[n])] == n);
    }

    /// There is a list for each gate.
    pub proof fn lemma_gate_lists(&self)
        requires
            self.structure(),
        ensures
            self.bool_implications.len() == self.bool_vars.len(),
    {
        reveal(DiffGraph::structure);
    }

    /// The gates of the edges are those of the graph.
    pub proof fn lemma_gates(&self)
        requires
            self.structure(),
        ensures
            forall|e: int|
                0 <= e < self.edges.len() ==> ((#[trigger] self.edges[e]).bool_var matches Some(b)
                    ==> b < self.bool_vars.len()),
    {
        reveal(DiffGraph::structure);
    }

    /// An active edge is in the list of its start, and in that of its end.
    pub proof fn lemma_active_listed(&self, values: Seq<usize>, e: int) -> (r: (int, int))
        requires
            self.structure(),
            self.good_at(values),
            0 <= e < self.edges.len() <= usize::MAX,
            self.active_at(e, values),
        ensures
            0 <= r.0 < self.active_out[self.edges[e].from as int].at(values).len(),
            self.active_out[self.edges[e].from as int].at(values)[r.0] == e,
            0 <= r.1 < self.active_in[self.edges[e].to as int].at(values).len(),
            self.active_in[self.edges[e].to as int].at(values)[r.1] == e,
    {
        reveal(DiffGraph::structure);
        reveal(DiffGraph::good_at);
        let i = choose|i: int|
            0 <= i < self.active_out[self.edges[e].from as int].at(values).len()
                && #[trigger] self.active_out[self.edges[e].from as int].at(values)[i] == e;
        let n = self.edges[e].from as int;
        assert(n < self.size());
        assert(self.active_out[n].at(values)[i] == e);
        let t = self.edges[e].to as int;
        assert(self.active_in[t].at(values).contains(e as usize));
        (i, self.active_in[t].at(values).index_of(e as usize))
    }
}

/// The start of a repair.
proof fn lemma_repair_start(
    graph: &DiffGraph,
    values: Seq<usize>,
    pi: Seq<IntVal>,
    new: Map<usize, IntVal>,
    queue: Map<usize, Priority>,
    u: usize,
    v: usize,
    d: int,
    gamma: IntVal,
    backtrace: Seq<Option<Step>>,
    paths: Map<int, Seq<int>>,
)
    requires
        u < graph.size(),
        v < graph.size(),
        gamma == pi[u as int] + d - pi[v as int],
        gamma < 0,
        forall|s: usize| !#[trigger] new.dom().contains(s),
        queue == Map::<usize, Priority>::empty().insert(v, (gamma, false)),
        v < backtrace.len(),
        backtrace[v as int] is None,
        paths == Map::<int, Seq<int>>::empty().insert(v as int, Seq::empty()),
    ensures
        repairing(graph, values, pi, new, queue, u, v, d),
        all_eased(graph, values, pi, new, queue, -1, 0),
        paths_stand(graph, pi, new, queue, u, d, paths),
        traced(graph, values, v as int, backtrace, paths),
{
    reveal(repairing);
    reveal(all_eased);
    reveal(paths_stand);
}

/// A node with the smallest change becomes final.
proof fn lemma_repair_pop(
    graph: &DiffGraph,
    values: Seq<usize>,
    pi: Seq<IntVal>,
    new: Map<usize, IntVal>,
    queue: Map<usize, Priority>,
    u: usize,
    v: usize,
    d: int,
    s: usize,
    gamma: IntVal,
    next: IntVal,
    paths: Map<int, Seq<int>>,
)
    requires
        repairing(graph, values, pi, new, queue, u, v, d),
        all_eased(graph, values, pi, new, queue, -1, 0),
        paths_stand(graph, pi, new, queue, u, d, paths),
        queue.dom().contains(s),
        queue[s] == (gamma, false),
        forall|m: usize| #[trigger] queue.dom().contains(m) ==> !before(queue[m], queue[s]),
        next == pi[s as int] + gamma,
        s != u,
        graph.size() <= usize::MAX,
        graph.structure(),
        graph.good_at(values),
    ensures
        repairing(graph, values, pi, new.insert(s, next), queue.remove(s), u, v, d),
        all_eased(graph, values, pi, new.insert(s, next), queue.remove(s), s as int, 0),
        paths_stand(graph, pi, new.insert(s, next), queue.remove(s), u, d, paths),
        forall|t: usize| #[trigger]
            new.insert(s, next).dom().contains(t) ==> change(pi, new.insert(s, next), t) <= gamma,
        forall|t: usize| #[trigger]
            queue.remove(s).dom().contains(t) ==> gamma <= queue.remove(s)[t].0,
{
    reveal(repairing);
    reveal(all_eased);
    reveal(paths_stand);
    let new2 = new.insert(s, next);
    let queue2 = queue.remove(s);
    assert forall|n: int, i: int|
        0 <= n < graph.size() && new2.dom().contains(n as usize) && 0 <= i
            < graph.active_out[n].at(values).len() && (n == s ==> i < 0) implies eased(
        graph,
        pi,
        new2,
        queue2,
        graph.edges[#[trigger] graph.active_out[n].at(values)[i] as int],
    ) by {
        let edge = graph.edges[graph.active_out[n].at(values)[i] as int];
        graph.lemma_active_out(values, n, i);
        assert(eased(graph, pi, new, queue, edge));
        assert(edge.from == n);
    }
}

/// An edge from the node that became final is eased.
proof fn lemma_repair_edge(
    graph: &DiffGraph,
    values: Seq<usize>,
    pi: Seq<IntVal>,
    new: Map<usize, IntVal>,
    queue: Map<usize, Priority>,
    later: Map<usize, Priority>,
    u: usize,
    v: usize,
    d: int,
    s: usize,
    gamma: IntVal,
    i: int,
)
    requires
        repairing(graph, values, pi, new, queue, u, v, d),
        all_eased(graph, values, pi, new, queue, s as int, i),
        new.dom().contains(s),
        change(pi, new, s) == gamma,
        forall|t: usize| #[trigger] new.dom().contains(t) ==> change(pi, new, t) <= gamma,
        forall|t: usize| #[trigger] queue.dom().contains(t) ==> gamma <= queue[t].0,
        0 <= i < graph.active_out[s as int].at(values).len(),
        graph.structure(),
        graph.good_at(values),
        graph.size() <= usize::MAX,
        ({
            let edge = graph.edges[graph.active_out[s as int].at(values)[i] as int];
            let ask = new[s] + edge.val - pi[edge.to as int];
            &&& pi[edge.to as int] <= pi[s as int] + edge.val
            &&& if new.dom().contains(edge.to) || ask >= 0 {
                later == queue
            } else if queue.dom().contains(edge.to) && queue[edge.to].0 <= ask {
                later == queue
            } else {
                exists|p: IntVal| p == ask && later == queue.insert(edge.to, (p, false))
            }
        }),
        new.dom().contains(v),
    ensures
        repairing(graph, values, pi, new, later, u, v, d),
        all_eased(graph, values, pi, new, later, s as int, i + 1),
        forall|t: usize| #[trigger] later.dom().contains(t) ==> gamma <= later[t].0,
{
    reveal(repairing);
    reveal(all_eased);
    graph.lemma_active_out(values, s as int, i);
    let edge = graph.edges[graph.active_out[s as int].at(values)[i] as int];
    let ask = new[s] + edge.val - pi[edge.to as int];
    assert(edge.from == s);
    assert(ask >= gamma);
    assert forall|t: usize| #[trigger] later.dom().contains(t) implies gamma <= later[t].0 by {}
    assert forall|n: int, j: int|
        0 <= n < graph.size() && new.dom().contains(n as usize) && 0 <= j
            < graph.active_out[n].at(values).len() && (n == s ==> j < i + 1) implies eased(
        graph,
        pi,
        new,
        later,
        graph.edges[#[trigger] graph.active_out[n].at(values)[j] as int],
    ) by {
        let other = graph.edges[graph.active_out[n].at(values)[j] as int];
        if n != s || j < i {
            assert(eased(graph, pi, new, queue, other));
        } else {
            if new.dom().contains(edge.to) {
                assert(change(pi, new, edge.to) <= gamma);
            }
        }
    }
}


/// Whether the steps lead from final nodes.
spec fn steps_final(
    new: Map<usize, IntVal>,
    backtrace: Seq<Option<Step>>,
    paths: Map<int, Seq<int>>,
) -> bool {
    forall|t: int| #[trigger]
        paths.dom().contains(t) ==> (backtrace[t] matches Some(step) ==> new.dom().contains(
            step.node,
        ))
}

/// A node is reached by a lighter path.
proof fn lemma_path_extend(
    graph: &DiffGraph,
    values: Seq<usize>,
    pi: Seq<IntVal>,
    new: Map<usize, IntVal>,
    queue: Map<usize, Priority>,
    u: usize,
    v: usize,
    d: int,
    s: usize,
    e: int,
    ask: IntVal,
    backtrace: Seq<Option<Step>>,
    paths: Map<int, Seq<int>>,
)
    requires
        paths_stand(graph, pi, new, queue, u, d, paths),
        traced(graph, values, v as int, backtrace, paths),
        steps_final(new, backtrace, paths),
        new.dom().contains(s),
        0 <= e < graph.edges.len(),
        graph.active_at(e, values),
        graph.edges[e].from == s,
        graph.edges[e].to < backtrace.len(),
        !new.dom().contains(graph.edges[e].to),
        ask == new[s] + graph.edges[e].val - pi[graph.edges[e].to as int],
    ensures
        ({
            let t = graph.edges[e].to;
            let later = queue.insert(t, (ask, false));
            let paths2 = paths.insert(t as int, paths[s as int].push(e));
            let backtrace2 = backtrace.update(
                t as int,
                Some(Step { node: s, gate: graph.edges[e].bool_var }),
            );
            &&& paths_stand(graph, pi, new, later, u, d, paths2)
            &&& traced(graph, values, v as int, backtrace2, paths2)
            &&& steps_final(new, backtrace2, paths2)
        }),
{
    reveal(paths_stand);
    let t = graph.edges[e].to;
    let later = queue.insert(t, (ask, false));
    let path = paths[s as int].push(e);
    let paths2 = paths.insert(t as int, path);
    let backtrace2 = backtrace.update(
        t as int,
        Some(Step { node: s, gate: graph.edges[e].bool_var }),
    );
    assert(paths.dom().contains(s as int));
    assert(path.drop_last() =~= paths[s as int]);
    assert(path_value(graph, path) == path_value(graph, paths[s as int]) + graph.edges[e].val);
    assert(is_path(graph, values, v as int, path));
    assert forall|x: int| #[trigger] paths2.dom().contains(x) implies {
        &&& 0 <= x < backtrace2.len()
        &&& is_path(graph, values, v as int, paths2[x])
        &&& path_end(graph, v as int, paths2[x]) == x
        &&& match backtrace2[x] {
            None => paths2[x].len() == 0,
            Some(step) => {
                &&& paths2[x].len() > 0
                &&& paths2.dom().contains(step.node as int)
                &&& paths2[step.node as int] == paths2[x].drop_last()
                &&& graph.edges[paths2[x].last()].bool_var == step.gate
            },
        }
    } by {
        if x != t {
            assert(paths.dom().contains(x));
            if let Some(step) = backtrace[x] {
                assert(new.dom().contains(step.node));
                assert(step.node != t);
            }
        }
    }
    assert forall|x: usize| #[trigger] later.dom().contains(x) implies paths2.dom().contains(
        x as int,
    ) && pi[x as int] + later[x].0 == pi[u as int] + d + path_value(graph, paths2[x as int]) by {
        if x != t {
            assert(queue.dom().contains(x));
        }
    }
    assert forall|x: int| #[trigger] paths2.dom().contains(x) implies new.dom().contains(x as usize)
        || later.dom().contains(x as usize) by {
        if x != t {
            assert(paths.dom().contains(x));
        }
    }
    assert forall|x: int| #[trigger] paths2.dom().contains(x) implies (
    backtrace2[x] matches Some(step) ==> new.dom().contains(step.node)) by {
        if x != t {
            assert(paths.dom().contains(x));
        }
    }
}

/// Once nothing is left to visit, the new potentials keep every active edge and the new one.
proof fn lemma_repair_done(
    graph: &DiffGraph,
    values: Seq<usize>,
    pi: Seq<IntVal>,
    new: Map<usize, IntVal>,
    queue: Map<usize, Priority>,
    u: usize,
    v: usize,
    d: int,
    after: Seq<IntVal>,
    but: int,
)
    requires
        repairing(graph, values, pi, new, queue, u, v, d),
        all_eased(graph, values, pi, new, queue, -1, 0),
        forall|t: usize| !#[trigger] queue.dom().contains(t),
        graph.structure(),
        graph.good_at(values),
        graph.size() <= usize::MAX,
        graph.edges.len() <= usize::MAX,
        u < graph.size(),
        v < graph.size(),
        u != v,
        pi.len() == graph.size(),
        after.len() == graph.size(),
        forall|n: int|
            0 <= n < graph.size() ==> #[trigger] after[n] == if new.dom().contains(n as usize) {
                new[n as usize]
            } else {
                pi[n]
            },
        forall|e: int|
            0 <= e < graph.edges.len() && e != but && #[trigger] graph.active_at(e, values)
                ==> pi[graph.edges[e].to as int] <= pi[graph.edges[e].from as int]
                + graph.edges[e].val,
        0 <= but < graph.edges.len(),
        graph.edges[but].from == u,
        graph.edges[but].to == v,
        graph.edges[but].val == d,
    ensures
        forall|e: int|
            0 <= e < graph.edges.len() && e != but && #[trigger] graph.active_at(e, values)
                ==> after[graph.edges[e].to as int] <= after[graph.edges[e].from as int]
                + graph.edges[e].val,
        after[v as int] <= after[u as int] + d,
        forall|n: int|
            0 <= n < graph.size() ==> pi[n] + pi[u as int] + d - pi[v as int] <= #[trigger] after[n]
                || after[n] == pi[n],
        forall|n: int| 0 <= n < graph.size() ==> #[trigger] after[n] <= pi[n],
{
    reveal(repairing);
    reveal(all_eased);
    assert(after[v as int] == new[v]);
    assert forall|e: int|
        0 <= e < graph.edges.len() && e != but && #[trigger] graph.active_at(e, values) implies
        after[graph.edges[e].to as int] <= after[graph.edges[e].from as int] + graph.edges[e].val by {
        graph.lemma_edge(e);
        let edge = graph.edges[e];
        let (f, t) = (edge.from, edge.to);
        let (i, _) = graph.lemma_active_listed(values, e);
        if new.dom().contains(f) {
            assert(graph.active_out[f as int].at(values)[i] == e);
            assert(eased(graph, pi, new, queue, edge));
        } else if new.dom().contains(t) {
            assert(change(pi, new, t) < 0);
        }
    }
    assert forall|n: int| 0 <= n < graph.size() implies (pi[n] + pi[u as int] + d - pi[v as int]
        <= #[trigger] after[n] || after[n] == pi[n]) && after[n] <= pi[n] by {
        if new.dom().contains(n as usize) {
            assert(change(pi, new, n as usize) < 0);
        }
    }
}

impl DiffLogicState {
    /// Repair the potentials for an edge, or return the gates of the active edges that form a
    /// cycle of negative value with it.
    #[verifier::spinoff_prover]
    fn repair(&mut self, trail: &Trail, new_index: usize) -> (r: Option<Vec<BoolView>>)
        requires
            old(self).graph.wf(trail),
            old(self).sized(),
            old(self).values_fit(),
            new_index < old(self).graph.edges.len(),
            old(self).pi_valid_but(trail@, new_index as int),
        ensures
            final(self).graph == old(self).graph,
            final(self).same_but_search(old(self)),
            final(self).backtrace.len() == old(self).backtrace.len(),
            final(self).pi.len() == old(self).pi.len(),
            match r {
                None => {
                    &&& final(self).pi_valid_but(trail@, new_index as int)
                    &&& final(self).pi_keeps(old(self).graph.edges[new_index as int])
                    &&& forall|n: int|
                        0 <= n < old(self).pi.len() ==> -3 * PI_LIMIT - weight_room(
                            old(self).graph.size(),
                            old(self).graph.edges.len() as int,
                        ) <= #[trigger] final(self).pi[n] <= PI_LIMIT
                },
                Some(reason) => {
                    &&& final(self).pi == old(self).pi
                    &&& exists|path: Seq<int>|
                        #[trigger] is_path(
                            &old(self).graph,
                            trail@,
                            old(self).graph.edges[new_index as int].to as int,
                            path,
                        ) && path_end(
                            &old(self).graph,
                            old(self).graph.edges[new_index as int].to as int,
                            path,
                        ) == old(self).graph.edges[new_index as int].from && path_value(
                            &old(self).graph,
                            path,
                        ) + old(self).graph.edges[new_index as int].val < 0 && reason@
                            == path_gates(&old(self).graph, path)
                },
            },
    {
        let ghost graph = self.graph;
        let ghost values = trail@;
        let ghost pi0 = self.pi@;
        let edge: DiffEdge = self.graph.edges[new_index];
        let u: usize = edge.from;
        let v: usize = edge.to;
        let ghost d = edge.val as int;
        let ghost room = weight_room(graph.size(), graph.edges.len() as int);
        let mut queue: LazyPriorityQueue = LazyPriorityQueue::new();
        let mut pi_new: FxHashMap<usize, IntVal> = map_new();
        let ghost mut paths: Map<int, Seq<int>> = Map::empty();
        let ghost mut done: Set<int> = Set::empty();
        proof {
            self.graph.lemma_edge(new_index as int);
            self.graph.lemma_gates();
            lemma_weight_room(graph.size(), graph.edges.len() as int);
            assert(-room <= self.graph.edges[new_index as int].val <= room);
            assert(-PI_LIMIT <= self.pi[u as int] <= PI_LIMIT);
            assert(-PI_LIMIT <= self.pi[v as int] <= PI_LIMIT);
        }
        self.backtrace.set(v, None);
        let gamma_v: IntVal = self.pi[u] + edge.val - self.pi[v];
        if gamma_v >= 0 {
            return None;
        }
        queue.push(v, (gamma_v, false));
        proof {
            paths = paths.insert(v as int, Seq::empty());
            lemma_repair_start(
                &graph,
                values,
                pi0,
                pi_new@,
                queue@,
                u,
                v,
                d,
                gamma_v,
                self.backtrace@,
                paths,
            );
        }
        while !queue.is_empty() && queue.get_priority(u).is_none()
            invariant
                graph == self.graph,
                graph == old(self).graph,
                values == trail@,
                graph.wf(trail),
                self.same_but_search(old(self)),
                self.pi@ == pi0,
                self.pi == old(self).pi,
                pi0.len() == graph.size(),
                self.backtrace.len() == graph.size(),
                old(self).values_fit(),
                room == weight_room(graph.size(), graph.edges.len() as int),
                0 <= room,
                room * 4 <= IntVal::MAX,
                forall|n: int| 0 <= n < graph.size() ==> -PI_LIMIT <= #[trigger] pi0[n] <= PI_LIMIT,
                old(self).pi_valid_but(values, new_index as int),
                new_index < graph.edges.len(),
                edge == graph.edges[new_index as int],
                u == edge.from,
                v == edge.to,
                d == edge.val,
                u < graph.size(),
                v < graph.size(),
                gamma_v == pi0[u as int] + d - pi0[v as int],
                gamma_v < 0,
                -room <= d <= room,
                queue.wf(),
                repairing(&graph, values, pi0, pi_new@, queue@, u, v, d),
                all_eased(&graph, values, pi0, pi_new@, queue@, -1, 0),
                paths_stand(&graph, pi0, pi_new@, queue@, u, d, paths),
                traced(&graph, values, v as int, self.backtrace@, paths),
                steps_final(pi_new@, self.backtrace@, paths),
                done.finite(),
                done.subset_of(set_int_range(0, graph.size())),
                forall|s: usize| #[trigger] pi_new@.dom().contains(s) <==> done.contains(s as int),
            decreases graph.size() - done.len(),
        {
            let ghost new0 = pi_new@;
            let ghost q0 = queue@;
            let ghost done0 = done;
            let popped: Option<(usize, Priority)> = queue.pop();
            match popped {
                None => {},
                Some((s, p)) => {
                    let gamma_s: IntVal = p.0;
                    proof {
                        reveal(repairing);
                        assert(q0.dom().contains(s));
                        assert(s < graph.size());
                        assert(-PI_LIMIT <= pi0[s as int] <= PI_LIMIT);
                        assert(s != u);
                        assert(!new0.dom().contains(s));
                    }
                    let next: IntVal = self.pi[s] + gamma_s;
                    map_insert(&mut pi_new, s, next);
                    proof {
                        lemma_repair_pop(
                            &graph,
                            values,
                            pi0,
                            new0,
                            q0,
                            u,
                            v,
                            d,
                            s,
                            gamma_s,
                            next,
                            paths,
                        );
                        done = done0.insert(s as int);
                        lemma_int_range(0, graph.size());
                        lemma_len_subset(done, set_int_range(0, graph.size()));
                        self.graph.lemma_lists(values, s as int);
                        assert(steps_final(pi_new@, self.backtrace@, paths)) by {
                            assert forall|t: int| #[trigger] paths.dom().contains(t) implies (
                            self.backtrace@[t] matches Some(step) ==> pi_new@.dom().contains(
                                step.node,
                            )) by {}
                        }
                        assert(pi_new@.dom().contains(v)) by {
                            reveal(repairing);
                            if queue@.dom().contains(v) {
                                assert(!pi_new@.dom().contains(s));
                            }
                        }
                    }
                    let len: usize = self.graph.active_out[s].length(trail);
                    let mut i: usize = 0;
                    while i < len
                        invariant
                            i <= len,
                            graph == self.graph,
                            graph == old(self).graph,
                            values == trail@,
                            graph.wf(trail),
                            self.same_but_search(old(self)),
                            self.pi@ == pi0,
                            self.pi == old(self).pi,
                            pi0.len() == graph.size(),
                            self.backtrace.len() == graph.size(),
                            old(self).values_fit(),
                            room == weight_room(graph.size(), graph.edges.len() as int),
                            0 <= room,
                            room * 4 <= IntVal::MAX,
                            forall|n: int|
                                0 <= n < graph.size() ==> -PI_LIMIT <= #[trigger] pi0[n]
                                    <= PI_LIMIT,
                            old(self).pi_valid_but(values, new_index as int),
                            new_index < graph.edges.len(),
                            edge == graph.edges[new_index as int],
                            u == edge.from,
                            v == edge.to,
                            d == edge.val,
                            u < graph.size(),
                            v < graph.size(),
                            gamma_v == pi0[u as int] + d - pi0[v as int],
                            -room <= d <= room,
                            s < graph.size(),
                            s != u,
                            queue.wf(),
                            pi_new@ == new0.insert(s, next),
                            next == pi0[s as int] + gamma_s,
                            gamma_v <= gamma_s < 0,
                            len == graph.active_out[s as int].at(values).len(),
                            graph.active_out.len() == graph.size(),
                            repairing(&graph, values, pi0, pi_new@, queue@, u, v, d),
                            all_eased(
                                &graph,
                                values,
                                pi0,
                                pi_new@,
                                queue@,
                                s as int,
                                i as int,
                            ),
                            paths_stand(&graph, pi0, pi_new@, queue@, u, d, paths),
                            traced(&graph, values, v as int, self.backtrace@, paths),
                            steps_final(pi_new@, self.backtrace@, paths),
                            pi_new@.dom().contains(v),
                            forall|t: usize| #[trigger]
                                pi_new@.dom().contains(t) ==> change(pi0, pi_new@, t) <= gamma_s,
                            forall|t: usize| #[trigger]
                                queue@.dom().contains(t) ==> gamma_s <= queue@[t].0,
                        decreases len - i,
                    {
                        let ghost q1 = queue@;
                        proof {
                            self.graph.lemma_active_out(values, s as int, i as int);
                        }
                        let e: usize = self.graph.active_out[s].get(trail, i);
                        let out: DiffEdge = self.graph.edges[e];
                        let t: usize = out.to;
                        proof {
                            assert(-room <= graph.edges[e as int].val <= room);
                            assert(-PI_LIMIT <= pi0[t as int] <= PI_LIMIT);
                            assert(-PI_LIMIT <= pi0[s as int] <= PI_LIMIT);
                            assert(-PI_LIMIT <= pi0[u as int] <= PI_LIMIT);
                            assert(-PI_LIMIT <= pi0[v as int] <= PI_LIMIT);
                            assert(e != new_index);
                            assert(old(self).pi_keeps(graph.edges[e as int]));
                        }
                        if map_get(&pi_new, t).is_none() {
                            let gamma_t: IntVal = next + out.val - self.pi[t];
                            if gamma_t < 0 {
                                let old_prio: Option<Priority> = queue.push_increase(
                                    t,
                                    (gamma_t, false),
                                );
                                let improved: bool = match old_prio {
                                    None => true,
                                    Some(q) => gamma_t < q.0,
                                };
                                if improved {
                                    proof {
                                        assert(queue@ == q1.insert(t, (gamma_t, false))) by {
                                            reveal(repairing);
                                        }
                                        lemma_path_extend(
                                            &graph,
                                            values,
                                            pi0,
                                            pi_new@,
                                            q1,
                                            u,
                                            v,
                                            d,
                                            s,
                                            e as int,
                                            gamma_t,
                                            self.backtrace@,
                                            paths,
                                        );
                                        paths = paths.insert(
                                            t as int,
                                            paths[s as int].push(e as int),
                                        );
                                    }
                                    self.backtrace.set(
                                        t,
                                        Some(Step { node: s, gate: out.bool_var }),
                                    );
                                } else {
                                    proof {
                                        assert(queue@ == q1) by {
                                            reveal(repairing);
                                        }
                                        assert(q1.dom().contains(t) && q1[t].0 <= gamma_t) by {
                                            reveal(repairing);
                                        }
                                    }
                                }
                            }
                        }
                        proof {
                            lemma_repair_edge(
                                &graph,
                                values,
                                pi0,
                                pi_new@,
                                q1,
                                queue@,
                                u,
                                v,
                                d,
                                s,
                                gamma_s,
                                i as int,
                            );
                        }
                        i = i + 1;
                    }
                    proof {
                        assert(all_eased(&graph, values, pi0, pi_new@, queue@, -1, 0)) by {
                            reveal(all_eased);
                        }
                    }
                },
            }
        }
        if queue.get_priority(u).is_some() {
            proof {
                reveal(paths_stand);
                reveal(repairing);
                assert(queue@.dom().contains(u));
                assert(paths.dom().contains(u as int));
            }
            let reason: Vec<BoolView> = self.get_cycle_reason(
                u,
                Ghost(values),
                Ghost(v as int),
                Ghost(paths),
            );
            proof {
                let path = paths[u as int];
                assert(is_path(&graph, values, v as int, path));
            }
            return Some(reason);
        }
        proof {
            assert(u != v) by {
                reveal(repairing);
            }
        }
        let keys: Vec<usize> = map_keys(&pi_new);
        let mut k: usize = 0;
        while k < keys.len()
            invariant
                k <= keys.len(),
                graph == self.graph,
                self.same_but_search(old(self)),
                self.pi.len() == graph.size(),
                pi0.len() == graph.size(),
                self.backtrace.len() == graph.size(),
                keys@.no_duplicates(),
                forall|t: usize| #[trigger] keys@.contains(t) <==> pi_new@.dom().contains(t),
                forall|t: usize| #[trigger] pi_new@.dom().contains(t) ==> t < graph.size(),
                forall|n: int|
                    0 <= n < graph.size() ==> #[trigger] self.pi[n] == if keys@.take(
                        k as int,
                    ).contains(n as usize) {
                        pi_new@[n as usize]
                    } else {
                        pi0[n]
                    },
            decreases keys.len() - k,
        {
            let t: usize = keys[k];
            assert(keys@.contains(t));
            match map_get(&pi_new, t) {
                Some(p) => {
                    self.pi.set(t, p);
                },
                None => {},
            }
            proof {
                assert(keys@.take(k + 1) == keys@.take(k as int).push(t));
                assert forall|n: int| 0 <= n < graph.size() implies #[trigger] self.pi@[n]
                    == if keys@.take(k + 1).contains(n as usize) {
                    pi_new@[n as usize]
                } else {
                    pi0[n]
                } by {
                    if n == t {
                        assert(keys@.take(k + 1)[k as int] == t);
                    } else {
                        if keys@.take(k as int).contains(n as usize) {
                            let j = keys@.take(k as int).index_of(n as usize);
                            assert(keys@.take(k + 1)[j] == n as usize);
                        }
                        if keys@.take(k + 1).contains(n as usize) {
                            let j = keys@.take(k + 1).index_of(n as usize);
                            assert(keys@.take(k as int)[j] == n as usize);
                        }
                    }
                }
            }
            k = k + 1;
        }
        proof {
            assert(keys@.take(k as int) == keys@);
            lemma_repair_done(
                &graph,
                values,
                pi0,
                pi_new@,
                queue@,
                u,
                v,
                d,
                self.pi@,
                new_index as int,
            );
            assert(self.pi_keeps(graph.edges[new_index as int]));
            assert forall|e: int|
                0 <= e < graph.edges.len() && e != new_index && #[trigger] graph.active_at(
                    e,
                    values,
                ) implies self.pi_keeps(graph.edges[e]) by {}
            assert(self.pi_valid_but(values, new_index as int));
            assert forall|n: int| 0 <= n < graph.size() implies -3 * PI_LIMIT - room
                <= #[trigger] self.pi[n] <= PI_LIMIT by {
                assert(-PI_LIMIT <= pi0[n] <= PI_LIMIT);
                assert(-PI_LIMIT <= pi0[u as int] <= PI_LIMIT);
                assert(-PI_LIMIT <= pi0[v as int] <= PI_LIMIT);
                assert(self.pi@[n] <= pi0[n]);
            }
        }
        None
    }

    /// Whether the states differ in what a search uses only: the potentials and the steps.
    pub open spec fn same_but_search(&self, other: &DiffLogicState) -> bool {
        &&& self.graph == other.graph
        &&& self.lower_bound == other.lower_bound
        &&& self.upper_bound == other.upper_bound
        &&& self.visited == other.visited
        &&& self.visited_updates == other.visited_updates
        &&& self.lower_bound_changes == other.lower_bound_changes
        &&& self.upper_bound_changes == other.upper_bound_changes
        &&& self.lb_updates == other.lb_updates
        &&& self.ub_updates == other.ub_updates
        &&& self.fixed_bools == other.fixed_bools
        &&& self.pi_initialized == other.pi_initialized
        &&& self.same_settings(other)
    }

    /// Whether the states have the same settings.
    pub open spec fn same_settings(&self, other: &DiffLogicState) -> bool {
        &&& self.priority_bounds == other.priority_bounds
        &&& self.priority_booleans == other.priority_booleans
        &&& self.bool_reasons == other.bool_reasons
        &&& self.use_inc_imp == other.use_inc_imp
        &&& self.propagator_registered == other.propagator_registered
        &&& self.propagator_ref == other.propagator_ref
    }
}


/// The edge as an arc of weights.
pub open spec fn arc_of(edge: DiffEdge) -> WeightedArc {
    WeightedArc { from: edge.from, to: edge.to, weight: edge.val }
}

/// Whether the arcs are the active edges, and one more.
spec fn arcs_of(
    graph: &DiffGraph,
    values: Seq<usize>,
    extra: int,
    arcs: Seq<WeightedArc>,
) -> bool {
    &&& arcs_within(arcs, graph.size())
    &&& arcs.len() <= graph.edges.len()
    &&& forall|k: int|
        0 <= k < arcs.len() ==> from_edge(graph, values, extra, #[trigger] arcs[k])
    &&& forall|e: int|
        0 <= e < graph.edges.len() && (e == extra || graph.active_at(e, values))
            ==> arcs.contains(arc_of(#[trigger] graph.edges[e]))
}

/// Whether the arc is an active edge, or the one more.
spec fn from_edge(
    graph: &DiffGraph,
    values: Seq<usize>,
    extra: int,
    arc: WeightedArc,
) -> bool {
    exists|e: int|
        0 <= e < graph.edges.len() && (e == extra || graph.active_at(e, values)) && arc_of(
            #[trigger] graph.edges[e],
        ) == arc
}

impl DiffLogicState {
    /// The active edges, and one more, as arcs.
    fn active_arcs(&self, trail: &Trail, extra: Option<usize>) -> (arcs: Vec<WeightedArc>)
        requires
            self.graph.wf(trail),
            extra matches Some(e) ==> e < self.graph.edges.len(),
        ensures
            arcs_of(
                &self.graph,
                trail@,
                match extra {
                    Some(e) => e as int,
                    None => -1,
                },
                arcs@,
            ),
    {
        let n: usize = self.graph.nodes.int_vars.len();
        let m: usize = self.graph.edges.len();
        let ghost graph = self.graph;
        let ghost values = trail@;
        let ghost more = match extra {
            Some(e) => e as int,
            None => -1,
        };
        let mut taken: Vec<bool> = vec![false; m];
        if let Some(e) = extra {
            taken.set(e, true);
        }
        let mut v: usize = 0;
        while v < n
            invariant
                v <= n == graph.size(),
                m == graph.edges.len(),
                graph == self.graph,
                values == trail@,
                graph.wf(trail),
                taken.len() == m,
                0 <= more < m ==> taken[more],
                forall|e: int|
                    0 <= e < m && #[trigger] taken[e] ==> e == more || graph.active_at(e, values),
                forall|k: int, j: int|
                    0 <= k < v && 0 <= j < graph.active_out[k].at(values).len()
                        ==> taken[#[trigger] graph.active_out[k].at(values)[j] as int],
            decreases n - v,
        {
            proof {
                self.graph.lemma_lists(values, v as int);
            }
            let len: usize = self.graph.active_out[v].length(trail);
            let mut i: usize = 0;
            while i < len
                invariant
                    i <= len,
                    v < n == graph.size(),
                    m == graph.edges.len(),
                    graph == self.graph,
                    values == trail@,
                    graph.wf(trail),
                    graph.active_out.len() == n,
                    len == graph.active_out[v as int].at(values).len(),
                    taken.len() == m,
                    0 <= more < m ==> taken[more],
                    forall|e: int|
                        0 <= e < m && #[trigger] taken[e] ==> e == more || graph.active_at(
                            e,
                            values,
                        ),
                    forall|k: int, j: int|
                        0 <= k < v && 0 <= j < graph.active_out[k].at(values).len()
                            ==> taken[#[trigger] graph.active_out[k].at(values)[j] as int],
                    forall|j: int|
                        0 <= j < i ==> taken[#[trigger] graph.active_out[v as int].at(
                            values,
                        )[j] as int],
                decreases len - i,
            {
                proof {
                    self.graph.lemma_active_out(values, v as int, i as int);
                }
                let e: usize = self.graph.active_out[v].get(trail, i);
                let ghost before_taken = taken@;
                taken.set(e, true);
                proof {
                    assert forall|k: int, j: int|
                        0 <= k < v && 0 <= j < graph.active_out[k].at(values).len() implies
                        taken[#[trigger] graph.active_out[k].at(values)[j] as int] by {
                        graph.lemma_active_out(values, k, j);
                        assert(before_taken[graph.active_out[k].at(values)[j] as int]);
                    }
                    assert forall|j: int| 0 <= j < i + 1 implies taken[
                    #[trigger] graph.active_out[v as int].at(values)[j] as int] by {
                        graph.lemma_active_out(values, v as int, j);
                        if j < i {
                            assert(before_taken[graph.active_out[v as int].at(values)[j] as int]);
                        }
                    }
                }
                i = i + 1;
            }
            v = v + 1;
        }
        let mut arcs: Vec<WeightedArc> = Vec::new();
        let mut e: usize = 0;
        while e < m
            invariant
                e <= m == graph.edges.len(),
                graph == self.graph,
                values == trail@,
                graph.wf(trail),
                taken.len() == m,
                forall|k: int|
                    0 <= k < m && #[trigger] taken[k] ==> k == more || graph.active_at(k, values),
                arcs.len() <= e,
                arcs_within(arcs@, graph.size()),
                forall|k: int|
                    0 <= k < arcs.len() ==> from_edge(&graph, values, more, #[trigger] arcs@[k]),
                forall|k: int|
                    0 <= k < e && taken[k] ==> arcs@.contains(arc_of(#[trigger] graph.edges[k])),
            decreases m - e,
        {
            let ghost arcs0 = arcs@;
            if taken[e] {
                let edge: DiffEdge = self.graph.edges[e];
                proof {
                    self.graph.lemma_edge(e as int);
                    assert(arc_of(graph.edges[e as int]) == (WeightedArc {
                        from: edge.from,
                        to: edge.to,
                        weight: edge.val,
                    }));
                }
                arcs.push(WeightedArc { from: edge.from, to: edge.to, weight: edge.val });
                proof {
                    assert(arcs@[arcs0.len() as int] == arc_of(graph.edges[e as int]));
                }
            }
            proof {
                assert forall|k: int| 0 <= k < arcs.len() implies from_edge(
                    &graph,
                    values,
                    more,
                    #[trigger] arcs@[k],
                ) by {
                    if k < arcs0.len() {
                        assert(arcs@[k] == arcs0[k]);
                    } else {
                        assert(taken[e as int]);
                        assert(arc_of(graph.edges[e as int]) == arcs@[k]);
                    }
                }
                assert forall|k: int| 0 <= k < e + 1 && taken[k] implies arcs@.contains(
                    arc_of(#[trigger] graph.edges[k]),
                ) by {
                    if k < e {
                        let j = arcs0.index_of(arc_of(graph.edges[k]));
                        assert(arcs0.contains(arc_of(graph.edges[k])));
                        assert(arcs@[j] == arc_of(graph.edges[k]));
                    }
                }
            }
            e = e + 1;
        }
        proof {
            assert forall|k: int|
                0 <= k < graph.edges.len() && (k == more || graph.active_at(k, values)) implies
                arcs@.contains(arc_of(#[trigger] graph.edges[k])) by {
                if k != more {
                    let (i, _) = graph.lemma_active_listed(values, k);
                    graph.lemma_edge(k);
                    let f = graph.edges[k].from as int;
                    assert(taken[graph.active_out[f].at(values)[i] as int]);
                }
            }
        }
        arcs
    }
}

/// The arcs have potentials where the potentials of the nodes keep the edges.
proof fn lemma_arcs_potentials(
    state: &DiffLogicState,
    values: Seq<usize>,
    extra: int,
    arcs: Seq<WeightedArc>,
)
    requires
        arcs_of(&state.graph, values, extra, arcs),
        state.pi.len() == state.graph.size(),
        forall|e: int|
            0 <= e < state.graph.edges.len() && (e == extra || state.graph.active_at(e, values))
                ==> state.pi_keeps(#[trigger] state.graph.edges[e]),
    ensures
        has_potentials(arcs, state.graph.size()),
{
    let p = potentials(state.pi@);
    assert forall|k: int| 0 <= k < arcs.len() implies p[(#[trigger] arcs[k]).to as int]
        <= p[arcs[k].from as int] + arcs[k].weight by {
        assert(from_edge(&state.graph, values, extra, arcs[k]));
        let e = choose|e: int|
            0 <= e < state.graph.edges.len() && (e == extra || state.graph.active_at(e, values))
                && arc_of(#[trigger] state.graph.edges[e]) == arcs[k];
        assert(state.pi_keeps(state.graph.edges[e]));
    }
    assert(p.len() == state.graph.size() && admissible(arcs, p));
}

/// Values that fit the edges fit the arcs.
proof fn lemma_arcs_fit(
    state: &DiffLogicState,
    values: Seq<usize>,
    extra: int,
    arcs: Seq<WeightedArc>,
)
    requires
        arcs_of(&state.graph, values, extra, arcs),
        state.values_fit(),
    ensures
        weights_fit(arcs, state.graph.size()),
{
    let n = state.graph.size();
    let m = state.graph.edges.len() as int;
    assert forall|k: int| 0 <= k < arcs.len() implies -weight_room(n, m) <= (
    #[trigger] arcs[k]).weight <= weight_room(n, m) by {
        assert(from_edge(&state.graph, values, extra, arcs[k]));
        let e = choose|e: int|
            0 <= e < state.graph.edges.len() && (e == extra || state.graph.active_at(e, values))
                && arc_of(#[trigger] state.graph.edges[e]) == arcs[k];
        assert(arc_of(state.graph.edges[e]) == arcs[k]);
    }
    lemma_small_weights_fit(arcs, n, m);
}

/// Potentials that the arcs do not lower keep the edges.
proof fn lemma_stable_keeps(
    state: &DiffLogicState,
    values: Seq<usize>,
    extra: int,
    arcs: Seq<WeightedArc>,
)
    requires
        arcs_of(&state.graph, values, extra, arcs),
        state.pi.len() == state.graph.size(),
        admissible(arcs, potentials(state.pi@)),
        state.graph.structure(),
    ensures
        forall|e: int|
            0 <= e < state.graph.edges.len() && (e == extra || state.graph.active_at(e, values))
                ==> state.pi_keeps(#[trigger] state.graph.edges[e]),
{
    let p = potentials(state.pi@);
    assert forall|e: int|
        0 <= e < state.graph.edges.len() && (e == extra || state.graph.active_at(e, values)) implies
        state.pi_keeps(#[trigger] state.graph.edges[e]) by {
        state.graph.lemma_edge(e);
        let arc = arc_of(state.graph.edges[e]);
        assert(arcs.contains(arc));
        let k = arcs.index_of(arc);
        assert(p[arcs[k].to as int] <= p[arcs[k].from as int] + arcs[k].weight);
    }
}

impl DiffLogicState {
    /// Find potentials anew, where there are some, that lie within their limit.
    fn rebase(&mut self, trail: &Trail, extra: usize)
        requires
            old(self).graph.wf(trail),
            old(self).values_fit(),
            old(self).pi.len() == old(self).graph.size(),
            extra < old(self).graph.edges.len(),
            old(self).pi_valid_but(trail@, extra as int),
            old(self).pi_keeps(old(self).graph.edges[extra as int]),
        ensures
            final(self).same_but_search(old(self)),
            final(self).backtrace == old(self).backtrace,
            final(self).pi.len() == old(self).pi.len(),
            final(self).pi_valid_but(trail@, extra as int),
            final(self).pi_keeps(old(self).graph.edges[extra as int]),
            forall|n: int|
                0 <= n < final(self).pi.len() ==> -PI_LIMIT <= #[trigger] final(self).pi[n]
                    <= PI_LIMIT,
    {
        let n: usize = self.graph.nodes.int_vars.len();
        let arcs: Vec<WeightedArc> = self.active_arcs(trail, Some(extra));
        let ghost start = *self;
        proof {
            self.graph.lemma_edge(extra as int);
            assert forall|e: int|
                0 <= e < self.graph.edges.len() && (e == extra || self.graph.active_at(
                    e,
                    trail@,
                )) implies self.pi_keeps(#[trigger] self.graph.edges[e]) by {}
            lemma_arcs_potentials(self, trail@, extra as int, arcs@);
            lemma_arcs_fit(self, trail@, extra as int, arcs@);
        }
        let (pi, changed): (Vec<IntVal>, bool) = bellman_ford(n, &arcs);
        self.pi = pi;
        proof {
            assert(!changed);
            lemma_stable_admissible(arcs@, n as int, self.pi@);
            lemma_span_room(arcs@, n as int);
            lemma_stable_keeps(self, trail@, extra as int, arcs@);
            assert(self.pi_keeps(self.graph.edges[extra as int]));
            assert forall|e: int|
                0 <= e < self.graph.edges.len() && e != extra && #[trigger] self.graph.active_at(
                    e,
                    trail@,
                ) implies self.pi_keeps(self.graph.edges[e]) by {
                assert(self.graph.edges[e] == self.graph.edges[e]);
            }
            assert forall|v: int| 0 <= v < self.pi.len() implies -PI_LIMIT <= #[trigger] self.pi[v]
                <= PI_LIMIT by {
                assert(self.pi@[v] <= 0);
            }
        }
    }
}


/// Whether active edges form a cycle of negative value with the edge.
pub open spec fn negative_cycle(graph: &DiffGraph, values: Seq<usize>, e: int) -> bool {
    exists|path: Seq<int>| #[trigger] closes_cycle(graph, values, e, path)
}

/// Whether the path leads from the end of the edge to its start, and is outweighed by it.
pub open spec fn closes_cycle(
    graph: &DiffGraph,
    values: Seq<usize>,
    e: int,
    path: Seq<int>,
) -> bool {
    let edge = graph.edges[e];
    &&& is_path(graph, values, edge.to as int, path)
    &&& path_end(graph, edge.to as int, path) == edge.from
    &&& path_value(graph, path) + edge.val < 0
}

/// The outcome without what it says beyond success.
pub open spec fn outcome<T>(r: Result<T, Conflict>) -> Result<(), Conflict> {
    match r {
        Ok(_) => Ok(()),
        Err(conflict) => Err(conflict),
    }
}

/// A path is at least as long as the potentials of its ends tell.
proof fn lemma_path_potentials(
    state: &DiffLogicState,
    values: Seq<usize>,
    e: int,
    start: int,
    path: Seq<int>,
)
    requires
        is_path(&state.graph, values, start, path),
        state.pi_valid_but(values, e),
        0 <= e < state.graph.edges.len(),
        state.pi_keeps(state.graph.edges[e]),
    ensures
        path_value(&state.graph, path) >= state.pi[path_end(&state.graph, start, path)]
            - state.pi[start],
    decreases path.len(),
{
    if path.len() > 0 {
        lemma_path_potentials(state, values, e, start, path.drop_last());
        let k = path.last();
        assert(state.graph.active_at(k, values));
        assert(state.pi_keeps(state.graph.edges[k]));
    }
}

/// Where potentials keep an edge too, it is on no cycle of negative value.
proof fn lemma_no_cycle(state: &DiffLogicState, values: Seq<usize>, e: int)
    requires
        state.pi_valid_but(values, e),
        0 <= e < state.graph.edges.len(),
        state.pi_keeps(state.graph.edges[e]),
    ensures
        !negative_cycle(&state.graph, values, e),
{
    if negative_cycle(&state.graph, values, e) {
        let path = choose|path: Seq<int>| #[trigger] closes_cycle(&state.graph, values, e, path);
        lemma_path_potentials(state, values, e, state.graph.edges[e].to as int, path);
    }
}

/// The views of the graph stay those of the context when its domains are narrowed.
pub proof fn lemma_grounded_narrowed(
    state: &DiffLogicState,
    before_ctx: &SolvingContext,
    after_ctx: &SolvingContext,
)
    requires
        state.grounded(before_ctx),
        after_ctx.wf(),
        after_ctx.grows(before_ctx),
        after_ctx.narrows(before_ctx),
        after_ctx.trail == before_ctx.trail,
    ensures
        state.grounded(after_ctx),
{
    assert forall|n: int| 0 <= n < state.graph.size() implies after_ctx.has_view(
        #[trigger] state.graph.nodes.int_vars[n],
    ) by {
        assert(before_ctx.has_view(state.graph.nodes.int_vars[n]));
        lemma_view_narrowed(before_ctx, after_ctx, state.graph.nodes.int_vars[n]);
    }
    assert forall|b: int| 0 <= b < state.graph.bool_vars.len() implies after_ctx.knows(
        #[trigger] state.graph.bool_vars[b],
    ) && gate_bounded(state.graph.bool_vars[b]) by {
        assert(before_ctx.knows(state.graph.bool_vars[b]));
    }
    state.graph.lemma_gates();
    assert forall|e: int|
        0 <= e < state.graph.edges.len() && #[trigger] state.graph.active_at(
            e,
            after_ctx.trail@,
        ) implies (state.graph.edges[e].bool_var matches Some(b) ==> after_ctx.decides(
        state.graph.bool_vars[b as int],
        true,
    )) by {
        if let Some(b) = state.graph.edges[e].bool_var {
            assert(before_ctx.decides(state.graph.bool_vars[b as int], true));
            assert(before_ctx.knows(state.graph.bool_vars[b as int]));
            lemma_decides_narrowed(before_ctx, after_ctx, state.graph.bool_vars[b as int], true);
        }
    }
}

/// What was decided stays decided.
pub proof fn lemma_decides_narrowed(
    before_ctx: &SolvingContext,
    after_ctx: &SolvingContext,
    b: BoolView,
    val: bool,
)
    requires
        before_ctx.knows(b),
        before_ctx.decides(b, val),
        after_ctx.grows(before_ctx),
        after_ctx.narrows(before_ctx),
    ensures
        after_ctx.decides(b, val),
{
    match b {
        BoolView::Int(v, m) => {
            assert forall|x: int| #[trigger] after_ctx.ints[v as int].has(x) implies m.holds(x)
                == val by {
                assert(before_ctx.ints[v as int].has(x));
            }
        },
        BoolView::Lit(l) => {
            assert(before_ctx.bools[l.var as int] is Some);
        },
        _ => {},
    }
}

impl DiffLogicState {
    /// Check whether an edge can be kept with the active edges. If so the potentials keep it
    /// afterwards. Otherwise its gate is fixed not to hold; without a gate, or if the gating view
    /// holds already, there is a conflict.
    pub fn inc_sat(&mut self, ctx: &mut SolvingContext, new_index: usize) -> (r: Result<
        bool,
        Conflict,
    >)
        requires
            old(self).grounded(old(ctx)),
            old(self).sized(),
            old(self).values_fit(),
            new_index < old(self).graph.edges.len(),
            old(self).pi_valid_but(old(ctx).trail@, new_index as int),
        ensures
            final(self).same_but_search(old(self)),
            final(self).sized(),
            final(self).grounded(final(ctx)),
            final(ctx).trail == old(ctx).trail,
            final(ctx).infers(old(ctx), diff_rule(&old(self).graph), outcome(r)),
            r == Ok::<bool, Conflict>(true) <==> !negative_cycle(
                &old(self).graph,
                old(ctx).trail@,
                new_index as int,
            ),
            final(self).pi_valid_but(old(ctx).trail@, new_index as int),
            match r {
                Ok(true) => *final(ctx) == *old(ctx) && final(self).pi_keeps(
                    old(self).graph.edges[new_index as int],
                ),
                Ok(false) => {
                    &&& final(self).pi == old(self).pi
                    &&& old(self).graph.edges[new_index as int].bool_var matches Some(b)
                    &&& final(ctx).decides(
                        old(self).graph.bool_vars[old(self).graph.edges[new_index as int].bool_var->0 as int],
                        false,
                    )
                    &&& !old(ctx).decides(
                        old(self).graph.bool_vars[old(self).graph.edges[new_index as int].bool_var->0 as int],
                        true,
                    )
                    // The gating view is fixed, and nothing else.
                    &&& forall|ints: IntAssignment, bools: BoolAssignment|
                        #[trigger] final(ctx).admits(ints, bools) <==> (old(ctx).admits(ints, bools)
                            && !gate_holds(
                            &old(self).graph,
                            old(self).graph.edges[new_index as int],
                            ints,
                            bools,
                        ))
                    &&& literal_gates(&old(self).graph) ==> final(ctx).ints@ == old(ctx).ints@
                },
                Err(_) => final(self).pi == old(self).pi && *final(ctx) == *old(ctx),
            },
            r is Err <==> negative_cycle(&old(self).graph, old(ctx).trail@, new_index as int) && (
            old(self).graph.edges[new_index as int].bool_var matches Some(b) ==> old(ctx).decides(
                old(self).graph.bool_vars[b as int],
                true,
            )),
    {
        let ghost start = *self;
        let ghost ctx0 = *ctx;
        let ghost rule = diff_rule(&self.graph);
        let edge: DiffEdge = self.graph.edges[new_index];
        proof {
            self.graph.lemma_edge(new_index as int);
            self.graph.lemma_gates();
            lemma_infers_nothing(&ctx0, rule);
        }
        let found: Option<Vec<BoolView>> = self.repair(&ctx.trail, new_index);
        match found {
            None => {
                proof {
                    lemma_no_cycle(self, ctx0.trail@, new_index as int);
                }
                if !self.pi_in_range() {
                    self.rebase(&ctx.trail, new_index);
                }
                Ok(true)
            },
            Some(reason) => {
                let ghost path = choose|path: Seq<int>|
                    #[trigger] is_path(
                        &start.graph,
                        ctx0.trail@,
                        edge.to as int,
                        path,
                    ) && path_end(&start.graph, edge.to as int, path) == edge.from && path_value(
                        &start.graph,
                        path,
                    ) + edge.val < 0 && reason@ == path_gates(&start.graph, path);
                proof {
                    assert(closes_cycle(&start.graph, ctx0.trail@, new_index as int, path));
                    assert forall|ints: IntAssignment, bools: BoolAssignment|
                        #[trigger] rule(ints, bools) && all_hold(
                            reason@,
                            ints,
                            bools,
                        ) implies !gate_holds(&start.graph, edge, ints, bools) by {
                        lemma_path_bound(
                            &start.graph,
                            ctx0.trail@,
                            edge.to as int,
                            path,
                            ints,
                            bools,
                        );
                        if gate_holds(&start.graph, edge, ints, bools) {
                            assert(edge_kept(
                                &start.graph,
                                start.graph.edges[new_index as int],
                                ints,
                                bools,
                            ));
                        }
                    }
                    assert forall|ints: IntAssignment, bools: BoolAssignment|
                        #[trigger] ctx0.admits(ints, bools) implies all_hold(
                        reason@,
                        ints,
                        bools,
                    ) by {
                        lemma_path_gates_hold(
                            &start.graph,
                            &ctx0,
                            edge.to as int,
                            path,
                            ints,
                            bools,
                        );
                    }
                }
                let ghost builder = ReasonBuilder::Atoms(reason);
                match edge.bool_var {
                    Some(b) => {
                        let bv: BoolView = self.graph.bool_vars[b];
                        assert(ctx0.knows(self.graph.bool_vars[b as int]) && gate_bounded(
                            self.graph.bool_vars[b as int],
                        ));
                        let fixed: Result<(), Conflict> = ctx.fix(
                            bv,
                            false,
                            ReasonBuilder::Atoms(reason),
                        );
                        proof {
                            let step: Rule = |ints: IntAssignment, bools: BoolAssignment|
                                bv.holds(ints, bools) == false;
                            lemma_infers_step(&ctx0, &ctx0, ctx, rule, step, builder, fixed);
                            lemma_grounded_narrowed(self, &ctx0, ctx);
                        }
                        match fixed {
                            Ok(()) => Ok(false),
                            Err(conflict) => Err(conflict),
                        }
                    },
                    None => {
                        let conflict: Conflict = ctx.declare_conflict(
                            ReasonBuilder::Atoms(reason),
                        );
                        proof {
                            lemma_conflict_declared(&ctx0, rule, builder, conflict);
                        }
                        Err(conflict)
                    },
                }
            },
        }
    }

    /// Whether the potentials lie within their limit.
    fn pi_in_range(&self) -> (r: bool)
        ensures
            r == (forall|v: int| 0 <= v < self.pi.len() ==> -PI_LIMIT <= #[trigger] self.pi[v]
                <= PI_LIMIT),
    {
        let mut v: usize = 0;
        while v < self.pi.len()
            invariant
                v <= self.pi.len(),
                forall|k: int| 0 <= k < v ==> -PI_LIMIT <= #[trigger] self.pi[k] <= PI_LIMIT,
            decreases self.pi.len() - v,
        {
            if self.pi[v] < -PI_LIMIT || self.pi[v] > PI_LIMIT {
                return false;
            }
            v = v + 1;
        }
        true
    }
}

/// A conflict without a subject is an inference where the reason is impossible.
pub proof fn lemma_conflict_declared(
    ctx: &SolvingContext,
    rule: Rule,
    reason: ReasonBuilder,
    conflict: Conflict,
)
    requires
        ctx.wf(),
        conflict.is_of(None, reason),
        reason is Atoms,
        forall|ints: IntAssignment, bools: BoolAssignment|
            !(#[trigger] rule(ints, bools) && reason.holds(ints, bools)),
        forall|ints: IntAssignment, bools: BoolAssignment|
            #[trigger] ctx.admits(ints, bools) ==> reason.holds(ints, bools),
    ensures
        ctx.infers(ctx, rule, Err(conflict)),
{
    lemma_conflict_later(ctx, rule, none_later(), reason, conflict);
}

/// A conflict without a subject is an inference where the reason is impossible, even if it is
/// built later.
pub proof fn lemma_conflict_later(
    ctx: &SolvingContext,
    rule: Rule,
    later: Deferral,
    reason: ReasonBuilder,
    conflict: Conflict,
)
    requires
        ctx.wf(),
        conflict.is_of(None, reason),
        match reason {
            ReasonBuilder::Atoms(_) => forall|ints: IntAssignment, bools: BoolAssignment|
                !(#[trigger] rule(ints, bools) && reason.holds(ints, bools)),
            ReasonBuilder::Deferred(d) => later(None, d) && forall|
                ints: IntAssignment,
                bools: BoolAssignment,
            |
                !(#[trigger] ctx.admits(ints, bools) && rule(ints, bools)),
        },
        forall|ints: IntAssignment, bools: BoolAssignment|
            #[trigger] ctx.admits(ints, bools) ==> reason.holds(ints, bools),
    ensures
        ctx.infers_later(ctx, rule, later, Err(conflict)),
{
    lemma_infers_nothing(ctx, rule);
    assert forall|ints: IntAssignment, bools: BoolAssignment|
        #[trigger] ctx.admits(ints, bools) implies !rule(ints, bools) by {
        assert(reason.holds(ints, bools));
    }
    assert forall|ints: IntAssignment, bools: BoolAssignment|
        #[trigger] ctx.admits(ints, bools) implies antecedent(conflict.reason, ints, bools) by {
        lemma_built_reason_equivalent(reason, conflict.reason, ints, bools);
    }
    if reason is Atoms {
        assert forall|ints: IntAssignment, bools: BoolAssignment|
            #[trigger] rule(ints, bools) && antecedent(
                conflict.reason,
                ints,
                bools,
            ) implies subject_holds(conflict.subject, ints, bools) by {
            lemma_built_reason_equivalent(reason, conflict.reason, ints, bools);
        }
    }
}


/// Whether there are potentials that keep the bounds of all active edges.
pub open spec fn active_potentials(graph: &DiffGraph, values: Seq<usize>) -> bool {
    exists|p: Seq<int>| p.len() == graph.size() && #[trigger] keeps_active(graph, values, p)
}

/// Whether the potentials keep the bounds of all active edges.
pub open spec fn keeps_active(graph: &DiffGraph, values: Seq<usize>, p: Seq<int>) -> bool {
    forall|e: int|
        0 <= e < graph.edges.len() && #[trigger] graph.active_at(e, values)
            ==> p[graph.edges[e].to as int] <= p[graph.edges[e].from as int] + graph.edges[e].val
}

/// Whether no active edge has a gate.
pub open spec fn active_ungated(graph: &DiffGraph, values: Seq<usize>) -> bool {
    forall|e: int|
        0 <= e < graph.edges.len() && #[trigger] graph.active_at(e, values)
            ==> graph.edges[e].bool_var is None
}

impl DiffLogicState {
    /// Find the potentials from which the incremental search starts. There is a conflict if
    /// there are none.
    pub fn bellman_ford_init_pi(&mut self, ctx: &mut SolvingContext) -> (r: Result<(), Conflict>)
        requires
            old(self).grounded(old(ctx)),
            old(self).sized(),
            old(self).values_fit(),
            active_ungated(&old(self).graph, old(ctx).trail@),
        ensures
            *final(ctx) == *old(ctx),
            final(ctx).infers(old(ctx), diff_rule(&old(self).graph), r),
            final(self).same_but_search(old(self)),
            final(self).backtrace == old(self).backtrace,
            final(self).sized(),
            r is Ok <==> active_potentials(&old(self).graph, old(ctx).trail@),
            r is Ok ==> final(self).pi_valid(old(ctx).trail@),
            r is Err ==> final(self).pi == old(self).pi,
    {
        let ghost rule = diff_rule(&self.graph);
        let ghost values = ctx.trail@;
        let n: usize = self.graph.nodes.int_vars.len();
        proof {
            lemma_infers_nothing(ctx, rule);
        }
        if n == 0 {
            proof {
                if self.graph.edges.len() > 0 {
                    self.graph.lemma_edge(0);
                }
                assert(keeps_active(&self.graph, values, Seq::<int>::empty()));
            }
            return Ok(());
        }
        let arcs: Vec<WeightedArc> = self.active_arcs(&ctx.trail, None);
        proof {
            lemma_arcs_fit(self, values, -1, arcs@);
            if active_potentials(&self.graph, values) {
                let p = choose|p: Seq<int>|
                    p.len() == self.graph.size() && #[trigger] keeps_active(&self.graph, values, p);
                assert forall|k: int| 0 <= k < arcs.len() implies p[(#[trigger] arcs@[k]).to as int]
                    <= p[arcs@[k].from as int] + arcs@[k].weight by {
                    assert(from_edge(&self.graph, values, -1, arcs@[k]));
                }
                assert(admissible(arcs@, p));
            }
        }
        let (pi, changed): (Vec<IntVal>, bool) = bellman_ford(n, &arcs);
        if changed {
            let reason: Vec<BoolView> = Vec::new();
            let ghost builder = ReasonBuilder::Atoms(reason);
            proof {
                assert forall|ints: IntAssignment, bools: BoolAssignment|
                    !#[trigger] rule(ints, bools) by {
                    if rule(ints, bools) {
                        let p = Seq::new(
                            n as nat,
                            |v: int| -node_value(&self.graph, v, ints, bools),
                        );
                        assert forall|e: int|
                            0 <= e < self.graph.edges.len() && #[trigger] self.graph.active_at(
                                e,
                                values,
                            ) implies p[self.graph.edges[e].to as int]
                            <= p[self.graph.edges[e].from as int] + self.graph.edges[e].val by {
                            self.graph.lemma_edge(e);
                            assert(gate_holds(&self.graph, self.graph.edges[e], ints, bools));
                            assert(edge_kept(&self.graph, self.graph.edges[e], ints, bools));
                        }
                        assert(keeps_active(&self.graph, values, p));
                    }
                }
            }
            let conflict: Conflict = ctx.declare_conflict(ReasonBuilder::Atoms(reason));
            proof {
                lemma_conflict_declared(ctx, rule, builder, conflict);
            }
            return Err(conflict);
        }
        self.pi = pi;
        proof {
            lemma_stable_admissible(arcs@, n as int, self.pi@);
            lemma_span_room(arcs@, n as int);
            lemma_stable_keeps(self, values, -1, arcs@);
            assert forall|v: int| 0 <= v < self.pi.len() implies -PI_LIMIT <= #[trigger] self.pi[v]
                <= PI_LIMIT by {
                assert(self.pi@[v] <= 0);
            }
            assert(keeps_active(&self.graph, values, potentials(self.pi@))) by {
                assert forall|e: int|
                    0 <= e < self.graph.edges.len() && #[trigger] self.graph.active_at(
                        e,
                        values,
                    ) implies potentials(self.pi@)[self.graph.edges[e].to as int]
                    <= potentials(self.pi@)[self.graph.edges[e].from as int]
                    + self.graph.edges[e].val by {
                    self.graph.lemma_edge(e);
                    assert(self.pi_keeps(self.graph.edges[e]));
                }
            }
            assert(potentials(self.pi@).len() == self.graph.size());
            assert forall|e: int|
                0 <= e < self.graph.edges.len() && e != -1 && #[trigger] self.graph.active_at(
                    e,
                    values,
                ) implies self.pi_keeps(self.graph.edges[e]) by {
                assert(self.graph.edges[e] == self.graph.edges[e]);
            }
        }
        Ok(())
    }
}

impl DiffLogicState {
    /// The visited nodes are listed.
    pub open spec fn visits_listed(&self) -> bool {
        &&& forall|i: int|
            0 <= i < self.visited_updates.len() ==> #[trigger] self.visited_updates[i]
                < self.visited.len()
        &&& forall|n: int|
            0 <= n < self.visited.len() && #[trigger] self.visited[n] ==> listed(
                self.visited_updates@,
                n,
            )
    }

    /// Mark a node as visited.
    pub fn visit(&mut self, n: usize)
        requires
            n < old(self).visited.len(),
            old(self).visits_listed(),
        ensures
            final(self).visits_listed(),
            final(self).visited@ == old(self).visited@.update(n as int, true),
            final(self).same_but_visits(old(self)),
    {
        let ghost before_list = self.visited_updates@;
        if !self.visited[n] {
            self.visited_updates.push(n);
        }
        let ghost mid_list = self.visited_updates@;
        self.visited.set(n, true);
        proof {
            assert forall|k: int| 0 <= k < self.visited.len() && #[trigger] self.visited[k] implies
                listed(self.visited_updates@, k) by {
                if old(self).visited[k] {
                    let i = choose|i: int|
                        0 <= i < before_list.len() && #[trigger] before_list[i] == k;
                    assert(self.visited_updates@[i] == k);
                } else {
                    assert(self.visited_updates@[before_list.len() as int] == k);
                }
            }
        }
    }

    /// Forget which nodes were visited.
    pub fn reset_visit(&mut self)
        requires
            old(self).visits_listed(),
        ensures
            final(self).visits_listed(),
            final(self).visited.len() == old(self).visited.len(),
            forall|n: int| 0 <= n < final(self).visited.len() ==> !#[trigger] final(self).visited[n],
            final(self).same_but_visits(old(self)),
    {
        let mut i: usize = 0;
        while i < self.visited_updates.len()
            invariant
                i <= self.visited_updates.len(),
                self.same_but_visits(old(self)),
                self.visited.len() == old(self).visited.len(),
                self.visited_updates == old(self).visited_updates,
                forall|k: int|
                    0 <= k < self.visited_updates.len() ==> #[trigger] self.visited_updates[k]
                        < self.visited.len(),
                forall|n: int|
                    0 <= n < self.visited.len() && #[trigger] self.visited[n] ==> listed_from(
                        self.visited_updates@,
                        i as int,
                        n,
                    ),
            decreases self.visited_updates.len() - i,
        {
            let n: usize = self.visited_updates[i];
            let ghost before_visited = self.visited@;
            self.visited.set(n, false);
            proof {
                assert forall|k: int|
                    0 <= k < self.visited.len() && #[trigger] self.visited[k] implies listed_from(
                    self.visited_updates@,
                    i + 1,
                    k,
                ) by {
                    assert(before_visited[k]);
                    let j = choose|j: int|
                        i <= j < self.visited_updates@.len() && #[trigger] self.visited_updates@[j]
                            == k;
                    assert(j != i);
                }
            }
            i = i + 1;
        }
        self.visited_updates.clear();
    }

    /// Whether the states differ in the visited nodes only.
    pub open spec fn same_but_visits(&self, other: &DiffLogicState) -> bool {
        &&& self.graph == other.graph
        &&& self.pi == other.pi
        &&& self.lower_bound == other.lower_bound
        &&& self.upper_bound == other.upper_bound
        &&& self.backtrace == other.backtrace
        &&& self.lower_bound_changes == other.lower_bound_changes
        &&& self.upper_bound_changes == other.upper_bound_changes
        &&& self.lb_updates == other.lb_updates
        &&& self.ub_updates == other.ub_updates
        &&& self.fixed_bools == other.fixed_bools
        &&& self.pi_initialized == other.pi_initialized
        &&& self.same_settings(other)
    }
}

/// Whether the node is in the list.
pub open spec fn listed(list: Seq<usize>, n: int) -> bool {
    listed_from(list, 0, n)
}

/// Whether the node is in the list from the given position on.
pub open spec fn listed_from(list: Seq<usize>, from: int, n: int) -> bool {
    exists|i: int| from <= i < list.len() && #[trigger] list[i] == n
}

/// The potential of a node for a search along the edges, or, if `reverse` is set, against
/// them.
pub open spec fn toward(pi: Seq<IntVal>, reverse: bool, n: int) -> int {
    if reverse {
        -pi[n]
    } else {
        pi[n] as int
    }
}

/// Whether the values of the nodes keep the bound of every active edge.
pub open spec fn nodes_kept(graph: &DiffGraph, values: Seq<usize>, w: Seq<int>) -> bool {
    forall|e: int|
        0 <= e < graph.edges.len() && #[trigger] graph.active_at(e, values)
            ==> w[graph.edges[e].from as int] - w[graph.edges[e].to as int] <= graph.edges[e].val
}

/// The values of the nodes under an assignment.
pub open spec fn node_values(
    graph: &DiffGraph,
    ints: IntAssignment,
    bools: BoolAssignment,
) -> Seq<int> {
    Seq::new(graph.size() as nat, |n: int| node_value(graph, n, ints, bools))
}

/// Whether the active edges bound how far the first node is above the second by `d`, or, if
/// `reverse` is set, the second above the first.
pub open spec fn apart(
    graph: &DiffGraph,
    values: Seq<usize>,
    reverse: bool,
    a: int,
    b: int,
    d: int,
) -> bool {
    forall|w: Seq<int>| #[trigger]
        nodes_kept(graph, values, w) ==> if reverse {
            w[b] - w[a] <= d
        } else {
            w[a] - w[b] <= d
        }
}

/// Whether the distances are bounds by way of an edge of value `val` to or from `target`.
pub open spec fn distances_sound(
    graph: &DiffGraph,
    values: Seq<usize>,
    reverse: bool,
    target: int,
    val: int,
    distances: Map<usize, IntVal>,
) -> bool {
    forall|t: usize| #[trigger]
        distances.dom().contains(t) ==> t < graph.size() && apart(
            graph,
            values,
            reverse,
            target,
            t as int,
            distances[t] - val,
        ) && -PI_LIMIT <= distances[t] <= PI_LIMIT
}

/// What the labels of the queue stand for: nodes that were not visited, each with the weight
/// of a walk from the origin of at most `hops` edges, and whether the walk takes the new edge.
#[verifier::opaque]
spec fn walk_labels(
    graph: &DiffGraph,
    pi: Seq<IntVal>,
    reverse: bool,
    origin: int,
    queue: Map<usize, Priority>,
    visited: Seq<bool>,
    distances: Map<usize, IntVal>,
    bound: int,
) -> bool {
    &&& forall|t: usize| #[trigger]
        queue.dom().contains(t) ==> {
            let raw = queue[t].0 + toward(pi, reverse, t as int) - toward(pi, reverse, origin);
            &&& t < graph.size()
            &&& !visited[t as int]
            &&& queue[t].0 >= 0
            &&& -bound <= raw <= bound
            &&& queue[t].1 == distances.dom().contains(t)
            &&& queue[t].1 ==> distances[t] == raw
        }
    &&& forall|t: usize| #[trigger]
        distances.dom().contains(t) ==> t < graph.size() && (visited[t as int]
            || queue.dom().contains(t))
}

impl DiffGraph {
    /// Whether no active edge between the ends of an edge has a smaller value.
    pub open spec fn no_smaller_parallel(&self, values: Seq<usize>, e: int) -> bool {
        forall|k: int|
            0 <= k < self.edges.len() && #[trigger] self.active_at(k, values) && self.edges[k].from
                == self.edges[e].from && self.edges[k].to == self.edges[e].to ==> self.edges[k].val
                >= self.edges[e].val
    }
}

/// A bound is passed on along an active edge.
proof fn lemma_apart_extend(
    graph: &DiffGraph,
    values: Seq<usize>,
    reverse: bool,
    a: int,
    e: int,
    d: int,
)
    requires
        0 <= e < graph.edges.len(),
        graph.active_at(e, values),
        apart(
            graph,
            values,
            reverse,
            a,
            if reverse {
                graph.edges[e].to as int
            } else {
                graph.edges[e].from as int
            },
            d,
        ),
    ensures
        apart(
            graph,
            values,
            reverse,
            a,
            if reverse {
                graph.edges[e].from as int
            } else {
                graph.edges[e].to as int
            },
            d + graph.edges[e].val,
        ),
{
    assert forall|w: Seq<int>| #[trigger] nodes_kept(graph, values, w) implies if reverse {
        w[graph.edges[e].from as int] - w[a] <= d + graph.edges[e].val
    } else {
        w[a] - w[graph.edges[e].to as int] <= d + graph.edges[e].val
    } by {
        assert(graph.active_at(e, values));
    }
}

/// The nodes that are reached by way of the new edge and were not visited.
spec fn pending(distances: Map<usize, IntVal>, visited: Seq<bool>, set: Set<int>) -> bool {
    &&& set.finite()
    &&& forall|t: int| #[trigger]
        set.contains(t) <==> 0 <= t < visited.len() && distances.dom().contains(t as usize)
            && !visited[t]
}

/// The search by way of an edge.
pub open spec fn search_through(graph: &DiffGraph, e: int, reverse: bool) -> Search {
    let edge = graph.edges[e];
    Search { reverse, origin: behind(edge, reverse), target: ahead(edge, reverse), edge: e }
}

impl DiffLogicState {
    /// Bounds by way of an edge that keeps the potentials: for each node that the search
    /// reaches by way of the edge, the weight of the walk.
    #[verifier::spinoff_prover]
    #[verifier::rlimit(40)]
    fn dijkstra_relevant(
        &mut self,
        trail: &Trail,
        new_edge: usize,
        reverse: bool,
    ) -> (r: FxHashMap<usize, IntVal>)
        requires
            old(self).graph.wf(trail),
            old(self).sized(),
            old(self).values_fit(),
            old(self).visits_listed(),
            new_edge < old(self).graph.edges.len(),
            old(self).pi_valid(trail@),
            old(self).pi_keeps(old(self).graph.edges[new_edge as int]),
            old(self).graph.no_smaller_parallel(trail@, new_edge as int),
        ensures
            final(self).same_but_visits(old(self)),
            final(self).visits_listed(),
            final(self).visited.len() == old(self).visited.len(),
            distances_sound(
                &old(self).graph,
                trail@,
                reverse,
                if reverse {
                    old(self).graph.edges[new_edge as int].from as int
                } else {
                    old(self).graph.edges[new_edge as int].to as int
                },
                old(self).graph.edges[new_edge as int].val as int,
                r@,
            ),
            relevant_found(
                &old(self).graph,
                trail@,
                search_through(&old(self).graph, new_edge as int, reverse),
                r@,
            ),
    {
        self.reset_visit();
        let ghost graph = self.graph;
        let ghost values = trail@;
        let ghost pi = self.pi@;
        let ghost n = graph.size();
        let ghost room = weight_room(n, graph.edges.len() as int);
        let edge: DiffEdge = self.graph.edges[new_edge];
        let origin: usize = if reverse {
            edge.to
        } else {
            edge.from
        };
        let target: usize = if reverse {
            edge.from
        } else {
            edge.to
        };
        proof {
            self.graph.lemma_edge(new_edge as int);
            lemma_weight_room(n, graph.edges.len() as int);
            assert(-room <= graph.edges[new_edge as int].val <= room);
            assert(-PI_LIMIT <= self.pi[origin as int] <= PI_LIMIT);
            assert(-PI_LIMIT <= self.pi[target as int] <= PI_LIMIT);
        }
        let mut distances: FxHashMap<usize, IntVal> = map_new();
        map_insert(&mut distances, target, edge.val);
        let mut queue: LazyPriorityQueue = LazyPriorityQueue::new();
        queue.push(origin, (0, false));
        let first: IntVal = edge.val + if reverse {
            self.pi[target] - self.pi[origin]
        } else {
            self.pi[origin] - self.pi[target]
        };
        queue.push(target, (first, true));
        let mut relevant_count: usize = 1;
        let ghost mut rel: Set<int> = Set::empty().insert(target as int);
        let ghost mut done: Set<int> = Set::empty();
        let ghost mut bound: int = room;
        let ghost search = search_through(&graph, new_edge as int, reverse);
        let ghost mut seen: Map<usize, Priority> = Map::empty();
        let ghost mut ways: Map<int, Seq<int>> = Map::empty().insert(
            origin as int,
            Seq::<int>::empty(),
        ).insert(target as int, Seq::<int>::empty());
        let ghost mut last: Priority = (0, false);
        proof {
            assert(ways_stand(&graph, values, pi, search, queue@, seen, ways)) by {
                reveal(ways_stand);
            }
            assert(steps_taken(&graph, values, pi, search, queue@, seen, -1, 0)) by {
                reveal(steps_taken);
            }
            assert(walk_labels(
                &graph,
                pi,
                reverse,
                origin as int,
                queue@,
                self.visited@,
                distances@,
                bound,
            )) by {
                reveal(walk_labels);
            }
            assert(distances_sound(
                &graph,
                values,
                reverse,
                target as int,
                edge.val as int,
                distances@,
            ));
            assert(done.len() == 0);
            assert((0int + 1) * room == room) by (nonlinear_arith);
            assert(bound == (done.len() + 1) * room);
        }
        while !queue.is_empty() && relevant_count > 0
            invariant
                graph == self.graph,
                self.same_but_visits(old(self)),
                self.visits_listed(),
                self.visited.len() == old(self).visited.len(),
                values == trail@,
                graph.wf(trail),
                pi == self.pi@,
                pi.len() == n,
                n == graph.size(),
                self.visited.len() == n,
                old(self).values_fit(),
                old(self).graph == graph,
                old(self).pi@ == pi,
                room == weight_room(n, graph.edges.len() as int),
                0 <= room,
                4 * (n * room) <= IntVal::MAX,
                4 * room <= IntVal::MAX,
                4 * (n * room + room) <= IntVal::MAX,
                forall|v: int| 0 <= v < n ==> -PI_LIMIT <= #[trigger] pi[v] <= PI_LIMIT,
                old(self).pi_valid(values),
                graph.no_smaller_parallel(values, new_edge as int),
                new_edge < graph.edges.len(),
                edge == graph.edges[new_edge as int],
                old(self).pi_keeps(edge),
                origin < n,
                target < n,
                origin == if reverse {
                    edge.to
                } else {
                    edge.from
                },
                target == if reverse {
                    edge.from
                } else {
                    edge.to
                },
                first == edge.val + toward(pi, reverse, origin as int) - toward(
                    pi,
                    reverse,
                    target as int,
                ),
                queue.wf(),
                walk_labels(
                    &graph,
                    pi,
                    reverse,
                    origin as int,
                    queue@,
                    self.visited@,
                    distances@,
                    bound,
                ),
                distances_sound(
                    &graph,
                    values,
                    reverse,
                    target as int,
                    edge.val as int,
                    distances@,
                ),
                origin != target ==> self.visited[origin as int] || (queue@.dom().contains(origin)
                    && queue@[origin] == (0 as IntVal, false)),
                origin == target ==> forall|t: usize| #[trigger]
                    queue@.dom().contains(t) ==> queue@[t].1,
                self.visited[target as int] || (queue@.dom().contains(target)
                    && queue@[target].0 <= first && !before((first, true), queue@[target])),
                pending(distances@, self.visited@, rel),
                relevant_count == rel.len(),
                done.finite(),
                done.subset_of(set_int_range(0, n)),
                done.len() <= n,
                forall|t: int| 0 <= t < n ==> #[trigger] self.visited[t] == done.contains(t),
                ways_stand(&graph, values, pi, search, queue@, seen, ways),
                steps_taken(&graph, values, pi, search, queue@, seen, -1, 0),
                in_sequence(queue@, seen, last),
                distances_match(pi, search, seen, distances@),
                forall|t: usize| #[trigger]
                    seen.dom().contains(t) <==> t < n && self.visited[t as int],
                labelled(queue@, seen, target),
                label_of(queue@, seen, target).0 <= first,
                search == search_through(&graph, new_edge as int, reverse),
                origin != target && seen.dom().contains(origin) ==> seen[origin] == (
                    0 as IntVal,
                    false,
                ),
                bound == (done.len() + 1) * room,
            decreases n - done.len(),
        {
            let ghost q0 = queue@;
            let ghost visited0 = self.visited@;
            let ghost done0 = done;
            let popped: Option<(usize, Priority)> = queue.pop();
            match popped {
                None => {},
                Some((s, p)) => {
                    let dist: IntVal = p.0;
                    let relevant: bool = p.1;
                    proof {
                        reveal(walk_labels);
                        assert(q0.dom().contains(s));
                        assert(!visited0[s as int]);
                    }
                    self.visit(s);
                    proof {
                        assert forall|t: usize| #[trigger] q0.dom().contains(t) implies no_later(
                            q0[s],
                            q0[t].0 as int,
                            q0[t].1,
                        ) by {
                            assert(!before(q0[t], p));
                        }
                        lemma_node_taken(
                            &graph,
                            values,
                            pi,
                            search,
                            q0,
                            seen,
                            ways,
                            last,
                            s,
                        );
                        assert(distances_match(pi, search, seen.insert(s, p), distances@)) by {
                            reveal(walk_labels);
                        }
                        seen = seen.insert(s, p);
                        last = p;
                    }
                    let ghost raw_s = dist + toward(pi, reverse, s as int) - toward(
                        pi,
                        reverse,
                        origin as int,
                    );
                    let ghost bound0 = bound;
                    proof {
                        done = done0.insert(s as int);
                        lemma_int_range(0, n);
                        lemma_len_subset(done, set_int_range(0, n));
                        assert(done.len() == done0.len() + 1);
                        assert((done.len() + 1) * room == (done0.len() + 1) * room + room)
                            by (nonlinear_arith)
                            requires
                                done.len() == done0.len() + 1,
                        ;
                        assert((done.len() + 1) * room <= n * room + room) by (nonlinear_arith)
                            requires
                                done.len() <= n,
                                room >= 0,
                        ;
                        bound = bound0 + room;
                        assert(walk_labels(
                            &graph,
                            pi,
                            reverse,
                            origin as int,
                            queue@,
                            self.visited@,
                            distances@,
                            bound,
                        )) by {
                            reveal(walk_labels);
                            assert forall|t: usize| #[trigger] distances@.dom().contains(t) implies
                                t < graph.size() && (self.visited@[t as int]
                                || queue@.dom().contains(t)) by {
                                if t != s {
                                    assert(visited0[t as int] || q0.dom().contains(t));
                                }
                            }
                        }
                        self.graph.lemma_lists(values, s as int);
                    }
                    let len: usize = if reverse {
                        self.graph.active_in[s].length(trail)
                    } else {
                        self.graph.active_out[s].length(trail)
                    };
                    let ghost rel0 = rel;
                    proof {
                        // The node that is being visited counts until its edges are done.
                        assert(relevant ==> rel0.contains(s as int));
                        assert(!relevant ==> !rel0.contains(s as int)) by {
                            reveal(walk_labels);
                        }
                        rel = rel0.remove(s as int);
                        assert(pending(distances@, self.visited@, rel)) by {
                            assert forall|t: int| #[trigger] rel.contains(t) <==> 0 <= t
                                < self.visited@.len() && distances@.dom().contains(t as usize)
                                && !self.visited@[t] by {}
                        }
                    }
                    let mut i: usize = 0;
                    while i < len
                        invariant
                            i <= len,
                            graph == self.graph,
                            self.same_but_visits(old(self)),
                            self.visits_listed(),
                            self.visited.len() == old(self).visited.len(),
                            values == trail@,
                            graph.wf(trail),
                            pi == self.pi@,
                            pi.len() == n,
                            n == graph.size(),
                            self.visited.len() == n,
                            graph.active_in.len() == n,
                            graph.active_out.len() == n,
                            old(self).values_fit(),
                            old(self).graph == graph,
                            old(self).pi@ == pi,
                            room == weight_room(n, graph.edges.len() as int),
                            0 <= room,
                            4 * (n * room) <= IntVal::MAX,
                            4 * room <= IntVal::MAX,
                            4 * (n * room + room) <= IntVal::MAX,
                            forall|v: int|
                                0 <= v < n ==> -PI_LIMIT <= #[trigger] pi[v] <= PI_LIMIT,
                            old(self).pi_valid(values),
                            graph.no_smaller_parallel(values, new_edge as int),
                            new_edge < graph.edges.len(),
                            edge == graph.edges[new_edge as int],
                            origin < n,
                            target < n,
                            s < n,
                            self.visited[s as int],
                            origin == if reverse {
                                edge.to
                            } else {
                                edge.from
                            },
                            target == if reverse {
                                edge.from
                            } else {
                                edge.to
                            },
                            first == edge.val + toward(pi, reverse, origin as int) - toward(
                                pi,
                                reverse,
                                target as int,
                            ),
                            queue.wf(),
                            dist >= 0,
                            raw_s == dist + toward(pi, reverse, s as int) - toward(
                                pi,
                                reverse,
                                origin as int,
                            ),
                            -bound0 <= raw_s <= bound0,
                            bound == bound0 + room,
                            bound0 >= 0,
                            bound <= n * room + room,
                            relevant ==> distances@.dom().contains(s) && distances@[s] == raw_s,
                            s == origin && !relevant ==> dist == 0,
                            walk_labels(
                                &graph,
                                pi,
                                reverse,
                                origin as int,
                                queue@,
                                self.visited@,
                                distances@,
                                bound,
                            ),
                            distances_sound(
                                &graph,
                                values,
                                reverse,
                                target as int,
                                edge.val as int,
                                distances@,
                            ),
                            origin != target ==> self.visited[origin as int] || (
                            queue@.dom().contains(origin) && queue@[origin] == (
                                0 as IntVal,
                                false,
                            )),
                            origin == target ==> relevant && forall|t: usize| #[trigger]
                                queue@.dom().contains(t) ==> queue@[t].1,
                            self.visited[target as int] || (queue@.dom().contains(target)
                                && queue@[target].0 <= first && !before(
                                (first, true),
                                queue@[target],
                            )),
                            pending(distances@, self.visited@, rel),
                            relevant_count == rel.len() + if relevant {
                                1int
                            } else {
                                0int
                            },
                            ways_stand(&graph, values, pi, search, queue@, seen, ways),
                            steps_taken(
                                &graph,
                                values,
                                pi,
                                search,
                                queue@,
                                seen,
                                s as int,
                                i as int,
                            ),
                            in_sequence(queue@, seen, last),
                            distances_match(pi, search, seen, distances@),
                            forall|t: usize| #[trigger]
                                seen.dom().contains(t) <==> t < n && self.visited[t as int],
                            labelled(queue@, seen, target),
                            label_of(queue@, seen, target).0 <= first,
                            search == search_through(&graph, new_edge as int, reverse),
                            origin != target && seen.dom().contains(origin) ==> seen[origin] == (
                                0 as IntVal,
                                false,
                            ),
                            seen.dom().contains(s),
                            seen[s] == (dist, relevant),
                            last == seen[s],
                            len == if reverse {
                                graph.active_in[s as int].at(values).len()
                            } else {
                                graph.active_out[s as int].at(values).len()
                            },
                        decreases len - i,
                    {
                        proof {
                            if reverse {
                                self.graph.lemma_active_in(values, s as int, i as int);
                            } else {
                                self.graph.lemma_active_out(values, s as int, i as int);
                            }
                        }
                        let e: usize = if reverse {
                            self.graph.active_in[s].get(trail, i)
                        } else {
                            self.graph.active_out[s].get(trail, i)
                        };
                        let next: DiffEdge = self.graph.edges[e];
                        let t: usize = if reverse {
                            next.from
                        } else {
                            next.to
                        };
                        proof {
                            assert(-room <= graph.edges[e as int].val <= room);
                            assert(-PI_LIMIT <= pi[t as int] <= PI_LIMIT);
                            assert(-PI_LIMIT <= pi[s as int] <= PI_LIMIT);
                            assert(-PI_LIMIT <= pi[origin as int] <= PI_LIMIT);
                            assert(old(self).pi_keeps(graph.edges[e as int]));
                        }
                        let new_dist: IntVal = dist + next.val + if reverse {
                            self.pi[t] - self.pi[s]
                        } else {
                            self.pi[s] - self.pi[t]
                        };
                        let ghost q_before = queue@;
                        let ghost d_before = distances@;
                        i = i + 1;
                        if !self.visited[t] {
                            let new_relevant: bool = relevant || (s == origin && t == target);
                            let new_prio: Priority = (new_dist, new_relevant);
                            let ghost q1 = queue@;
                            let ghost d1 = distances@;
                            let ghost raw_t = raw_s + next.val;
                            let prev: Option<Priority> = queue.push_increase(t, new_prio);
                            let changed: bool = match prev {
                                None => true,
                                Some(q) => q.0 != new_prio.0 || q.1 != new_prio.1,
                            };
                            assert(raw_t == new_dist + toward(pi, reverse, t as int) - toward(
                                pi,
                                reverse,
                                origin as int,
                            ));
                            if changed {
                                assert(queue@ == q1.insert(t, new_prio));
                                if new_relevant {
                                    let d: IntVal = new_dist + if reverse {
                                        self.pi[origin] - self.pi[t]
                                    } else {
                                        self.pi[t] - self.pi[origin]
                                    };
                                    proof {
                                        if !relevant {
                                            // A parallel edge is not smaller than the new one.
                                            assert(graph.active_at(e as int, values));
                                            assert(graph.edges[e as int].val >= edge.val);
                                            assert(new_dist >= first);
                                            assert(q1.dom().contains(target));
                                            assert(false);
                                        }
                                        lemma_apart_extend(
                                            &graph,
                                            values,
                                            reverse,
                                            target as int,
                                            e as int,
                                            raw_s - edge.val,
                                        );
                                    }
                                    let had: Option<IntVal> = map_insert(&mut distances, t, d);
                                    if had.is_none() {
                                        proof {
                                            assert(!rel.contains(t as int));
                                            lemma_pending_small(
                                                rel.insert(t as int),
                                                n,
                                                distances@,
                                                self.visited@,
                                                s as int,
                                            );
                                        }
                                        relevant_count = relevant_count + 1;
                                        proof {
                                            rel = rel.insert(t as int);
                                        }
                                    } else {
                                        assert(rel.contains(t as int));
                                    }
                                } else {
                                    let had: Option<IntVal> = map_remove(&mut distances, t);
                                    if had.is_some() {
                                        assert(rel.contains(t as int));
                                        relevant_count = relevant_count - 1;
                                        proof {
                                            rel = rel.remove(t as int);
                                        }
                                    } else {
                                        assert(!rel.contains(t as int));
                                    }
                                }
                                proof {
                                    reveal(walk_labels);
                                    assert(t != s);
                                    assert(pending(distances@, self.visited@, rel)) by {
                                        assert forall|x: int| #[trigger] rel.contains(x) <==> 0 <= x
                                            < self.visited@.len() && distances@.dom().contains(
                                            x as usize,
                                        ) && !self.visited@[x] by {}
                                    }
                                }
                            } else {
                                assert(queue@ == q1);
                            }
                        }
                        proof {
                            let new_prio: Priority = (
                                new_dist,
                                relevant || (s == origin && t == target),
                            );
                            assert forall|x: usize| #[trigger]
                                q_before.dom().contains(x) implies !seen.dom().contains(x) by {
                                reveal(walk_labels);
                                if !queue@.dom().contains(x) {
                                    assert(queue@ == q_before);
                                }
                            }
                            assert(steps_from(&graph, values, reverse, s as int)[i - 1] == e);
                            ways = lemma_step_taken(
                                &graph,
                                values,
                                pi,
                                search,
                                q_before,
                                queue@,
                                seen,
                                ways,
                                s,
                                i - 1,
                                new_prio,
                            );
                            assert(distances_match(pi, search, seen, distances@)) by {
                                assert forall|x: usize| #[trigger]
                                    seen.dom().contains(x) implies seen[x].1
                                    == distances@.dom().contains(x) && (seen[x].1
                                    ==> distances@[x] == walked(
                                    pi,
                                    search.reverse,
                                    search.origin,
                                    x as int,
                                    seen[x].0 as int,
                                )) by {
                                    assert(x == t ==> queue@ == q_before);
                                    assert(d_before.dom().contains(x) == seen[x].1);
                                }
                            }
                        }
                    }
                    proof {
                        assert(steps_taken(&graph, values, pi, search, queue@, seen, -1, 0)) by {
                            reveal(steps_taken);
                        }
                    }
                    if relevant {
                        relevant_count = relevant_count - 1;
                    }
                },
            }
        }
        proof {
            assert forall|t: usize| #[trigger] queue@.dom().contains(t) implies !queue@[t].1
                && !distances@.dom().contains(t) by {
                reveal(walk_labels);
                if distances@.dom().contains(t) {
                    assert(rel.contains(t as int));
                    assert(relevant_count == 0);
                    assert(rel.len() == 0);
                }
            }
            assert forall|t: usize| #[trigger] distances@.dom().contains(t) implies labelled(
                queue@,
                seen,
                t,
            ) by {
                reveal(walk_labels);
            }
            lemma_relevant_found(&graph, values, pi, search, queue@, seen, ways, distances@);
        }
        distances
    }
}

/// Fewer nodes than there are can be pending while one is being visited.
proof fn lemma_pending_small(
    set: Set<int>,
    n: int,
    distances: Map<usize, IntVal>,
    visited: Seq<bool>,
    s: int,
)
    requires
        set.finite(),
        visited.len() == n,
        0 <= s < n <= usize::MAX,
        !set.contains(s),
        forall|t: int| #[trigger] set.contains(t) ==> 0 <= t < n,
    ensures
        set.len() < n,
{
    let all = set.insert(s);
    lemma_int_range(0, n);
    assert(all.subset_of(set_int_range(0, n)));
    lemma_len_subset(all, set_int_range(0, n));
}


/// Whether the edge needs no more attention: it is active, its gate is fixed not to hold, or
/// what the domains and the active edges allow keeps its bound anyway.
pub open spec fn settled_edge(state: &DiffLogicState, ctx: &SolvingContext, e: int) -> bool {
    let edge = state.graph.edges[e];
    ||| state.graph.active_at(e, ctx.trail@)
    ||| edge.bool_var matches Some(b) && ctx.decides(state.graph.bool_vars[b as int], false)
    ||| forall|ints: IntAssignment, bools: BoolAssignment|
        #[trigger] ctx.admits(ints, bools) && active_kept(
            &state.graph,
            ctx.trail@,
            ints,
            bools,
        ) ==> edge_kept(&state.graph, edge, ints, bools)
}

/// Whether the graphs have the same nodes, gates and edges.
pub open spec fn same_graph(g: &DiffGraph, h: &DiffGraph) -> bool {
    &&& h.nodes == g.nodes
    &&& h.bool_vars == g.bool_vars
    &&& h.owner == g.owner
    &&& h.edges.len() == g.edges.len()
    &&& forall|e: int|
        0 <= e < g.edges.len() ==> (#[trigger] h.edges[e]).same_but_positions(g.edges[e])
}

/// Whether the state has moved on: active edges stay active, closed edges stay closed, and an
/// edge was closed only if it needs no more attention.
pub open spec fn advances(
    g: &DiffLogicState,
    before_ctx: &SolvingContext,
    h: &DiffLogicState,
    after_ctx: &SolvingContext,
) -> bool {
    &&& same_graph(&g.graph, &h.graph)
    &&& h.same_settings(g)
    &&& after_ctx.grows(before_ctx)
    &&& after_ctx.narrows(before_ctx)
    &&& after_ctx.trail.depth() == before_ctx.trail.depth()
    &&& forall|e: int|
        0 <= e < g.graph.edges.len() && #[trigger] g.graph.active_at(e, before_ctx.trail@)
            ==> h.graph.active_at(e, after_ctx.trail@)
    &&& forall|e: int|
        0 <= e < g.graph.edges.len() && (#[trigger] g.graph.edges[e]).bool_var is Some ==> {
            &&& g.graph.closed_at(e, before_ctx.trail@) ==> h.graph.closed_at(e, after_ctx.trail@)
            &&& h.graph.closed_at(e, after_ctx.trail@) && !g.graph.closed_at(e, before_ctx.trail@)
                ==> settled_edge(h, after_ctx, e)
        }
}

proof fn lemma_edge_kept_same(
    g: &DiffGraph,
    h: &DiffGraph,
    e: int,
    ints: IntAssignment,
    bools: BoolAssignment,
)
    requires
        same_graph(g, h),
        0 <= e < g.edges.len(),
    ensures
        edge_kept(h, h.edges[e], ints, bools) == edge_kept(g, g.edges[e], ints, bools),
        gate_holds(h, h.edges[e], ints, bools) == gate_holds(g, g.edges[e], ints, bools),
{
    assert(h.edges[e].same_but_positions(g.edges[e]));
}

/// The rule does not depend on the positions of the edges.
pub proof fn lemma_same_rule(g: &DiffGraph, h: &DiffGraph)
    requires
        same_graph(g, h),
    ensures
        diff_rule(g) == diff_rule(h),
{
    let (a, b) = (diff_rule(g), diff_rule(h));
    assert forall|ints: IntAssignment, bools: BoolAssignment|
        #[trigger] a(ints, bools) == b(ints, bools) by {
        if a(ints, bools) {
            assert forall|e: int|
                0 <= e < h.edges.len() && gate_holds(
                    h,
                    #[trigger] h.edges[e],
                    ints,
                    bools,
                ) implies edge_kept(h, h.edges[e], ints, bools) by {
                lemma_edge_kept_same(g, h, e, ints, bools);
                assert(gate_holds(g, g.edges[e], ints, bools));
            }
        }
        if b(ints, bools) {
            assert forall|e: int|
                0 <= e < g.edges.len() && gate_holds(
                    g,
                    #[trigger] g.edges[e],
                    ints,
                    bools,
                ) implies edge_kept(g, g.edges[e], ints, bools) by {
                lemma_edge_kept_same(g, h, e, ints, bools);
                assert(gate_holds(h, h.edges[e], ints, bools));
            }
        }
    }
    assert(a =~= b);
}

/// An edge that needs no more attention needs none later.
pub proof fn lemma_settled_later(
    g: &DiffLogicState,
    before_ctx: &SolvingContext,
    h: &DiffLogicState,
    after_ctx: &SolvingContext,
    e: int,
)
    requires
        same_graph(&g.graph, &h.graph),
        after_ctx.grows(before_ctx),
        after_ctx.narrows(before_ctx),
        forall|k: int|
            0 <= k < g.graph.edges.len() && #[trigger] g.graph.active_at(k, before_ctx.trail@)
                ==> h.graph.active_at(k, after_ctx.trail@),
        0 <= e < g.graph.edges.len(),
        settled_edge(g, before_ctx, e),
        g.graph.edges[e].bool_var matches Some(b) ==> before_ctx.knows(g.graph.bool_vars[b as int]),
    ensures
        settled_edge(h, after_ctx, e),
{
    assert(h.graph.edges[e].same_but_positions(g.graph.edges[e]));
    let edge = g.graph.edges[e];
    if g.graph.active_at(e, before_ctx.trail@) {
        assert(h.graph.active_at(e, after_ctx.trail@));
    } else if edge.bool_var is Some && before_ctx.decides(
        g.graph.bool_vars[edge.bool_var->0 as int],
        false,
    ) {
        lemma_decides_narrowed(
            before_ctx,
            after_ctx,
            g.graph.bool_vars[edge.bool_var->0 as int],
            false,
        );
    } else {
        assert forall|ints: IntAssignment, bools: BoolAssignment|
            #[trigger] after_ctx.admits(ints, bools) && active_kept(
                &h.graph,
                after_ctx.trail@,
                ints,
                bools,
            ) implies edge_kept(&h.graph, h.graph.edges[e], ints, bools) by {
            lemma_narrows_admits(after_ctx, before_ctx, ints, bools);
            assert(active_kept(&g.graph, before_ctx.trail@, ints, bools)) by {
                assert forall|k: int|
                    0 <= k < g.graph.edges.len() && #[trigger] g.graph.active_at(
                        k,
                        before_ctx.trail@,
                    ) implies edge_kept(&g.graph, g.graph.edges[k], ints, bools) by {
                    assert(h.graph.active_at(k, after_ctx.trail@));
                    lemma_edge_kept_same(&g.graph, &h.graph, k, ints, bools);
                }
            }
            lemma_edge_kept_same(&g.graph, &h.graph, e, ints, bools);
        }
    }
}

/// Moves can follow one another.
pub proof fn lemma_advances_join(
    f: &DiffLogicState,
    ctx0: &SolvingContext,
    g: &DiffLogicState,
    ctx1: &SolvingContext,
    h: &DiffLogicState,
    ctx2: &SolvingContext,
)
    requires
        f.grounded(ctx0),
        advances(f, ctx0, g, ctx1),
        advances(g, ctx1, h, ctx2),
    ensures
        advances(f, ctx0, h, ctx2),
{
    assert(ctx2.grows(ctx0) && ctx2.narrows(ctx0)) by {
        let n0 = ctx0.propagation_queue.len() as int;
        let n1 = ctx1.propagation_queue.len() as int;
        assert(ctx2.propagation_queue@.take(n1).take(n0) == ctx2.propagation_queue@.take(n0));
        assert forall|v: int, x: int|
            0 <= v < ctx2.ints.len() && #[trigger] ctx2.ints[v].has(x) implies ctx0.ints[v].has(
            x,
        ) by {
            assert(ctx1.ints[v].has(x));
        }
        assert forall|b: int| 0 <= b < ctx2.bools.len() && (#[trigger] ctx0.bools[b]) is Some implies
            ctx2.bools[b] == ctx0.bools[b] by {
            assert(ctx1.bools[b] == ctx0.bools[b]);
        }
    }
    assert forall|e: int| 0 <= e < f.graph.edges.len() implies (
    #[trigger] h.graph.edges[e]).same_but_positions(f.graph.edges[e]) by {
        assert(g.graph.edges[e].same_but_positions(f.graph.edges[e]));
    }
    assert forall|e: int|
        0 <= e < f.graph.edges.len() && (#[trigger] f.graph.edges[e]).bool_var is Some implies {
        &&& f.graph.closed_at(e, ctx0.trail@) ==> h.graph.closed_at(e, ctx2.trail@)
        &&& h.graph.closed_at(e, ctx2.trail@) && !f.graph.closed_at(e, ctx0.trail@)
            ==> settled_edge(h, ctx2, e)
    } by {
        assert(g.graph.edges[e].same_but_positions(f.graph.edges[e]));
        assert(g.graph.edges[e].bool_var is Some);
        if h.graph.closed_at(e, ctx2.trail@) && !f.graph.closed_at(e, ctx0.trail@)
            && g.graph.closed_at(e, ctx1.trail@) {
            f.graph.lemma_gates();
            let b = f.graph.edges[e].bool_var->0 as int;
            assert(ctx0.knows(f.graph.bool_vars[b]));
            assert(ctx1.knows(g.graph.bool_vars[b]));
            lemma_settled_later(g, ctx1, h, ctx2, e);
        }
    }
}

impl DiffLogicState {
    /// Everything is in order for propagation: the potentials keep the active edges.
    pub open spec fn ready(&self, ctx: &SolvingContext) -> bool {
        &&& self.grounded(ctx)
        &&& self.sized()
        &&& self.values_fit()
        &&& self.visits_listed()
        &&& self.pi_valid(ctx.trail@)
    }

    /// Whether the states differ in the graph only.
    pub open spec fn same_but_graph(&self, other: &DiffLogicState) -> bool {
        &&& self.pi == other.pi
        &&& self.lower_bound == other.lower_bound
        &&& self.upper_bound == other.upper_bound
        &&& self.backtrace == other.backtrace
        &&& self.visited == other.visited
        &&& self.visited_updates == other.visited_updates
        &&& self.lower_bound_changes == other.lower_bound_changes
        &&& self.upper_bound_changes == other.upper_bound_changes
        &&& self.lb_updates == other.lb_updates
        &&& self.ub_updates == other.ub_updates
        &&& self.fixed_bools == other.fixed_bools
        &&& self.pi_initialized == other.pi_initialized
        &&& self.same_settings(other)
    }

    /// Close an edge that needs no more attention.
    pub fn close_edge(&mut self, ctx: &mut SolvingContext, e: usize)
        requires
            old(self).ready(old(ctx)),
            e < old(self).graph.edges.len(),
            old(self).graph.edges[e as int].bool_var is Some,
            settled_edge(old(self), old(ctx), e as int),
        ensures
            final(self).ready(final(ctx)),
            final(self).same_but_graph(old(self)),
            final(ctx).same_but_trail(old(ctx)),
            final(ctx).infers(old(ctx), diff_rule(&old(self).graph), Ok(())),
            advances(old(self), old(ctx), final(self), final(ctx)),
            final(self).graph.closed_at(e as int, final(ctx).trail@),
            forall|k: int|
                0 <= k < old(self).graph.edges.len() ==> final(self).graph.active_at(
                    k,
                    final(ctx).trail@,
                ) == #[trigger] old(self).graph.active_at(k, old(ctx).trail@),
            forall|k: int|
                0 <= k < old(self).graph.edges.len() && (#[trigger] old(self).graph.edges[k]).bool_var
                    is Some && k != e ==> final(self).graph.closed_at(k, final(ctx).trail@) == old(
                    self,
                ).graph.closed_at(k, old(ctx).trail@),
    {
        let ghost g = *self;
        let ghost ctx0 = *ctx;
        self.graph.close_imp_edge(&mut ctx.trail, e);
        proof {
            lemma_moved(&g, &ctx0, self, ctx);
            lemma_infers_nothing(&ctx0, diff_rule(&g.graph));
            assert(ctx.infers(&ctx0, diff_rule(&g.graph), Ok(()))) by {
                assert forall|ints: IntAssignment, bools: BoolAssignment|
                    #[trigger] ctx.admits(ints, bools) == ctx0.admits(ints, bools) by {}
            }
            lemma_settled_later(&g, &ctx0, self, ctx, e as int);
        }
    }
}

/// Closing edges keeps everything in order.
proof fn lemma_moved(
    g: &DiffLogicState,
    ctx0: &SolvingContext,
    h: &DiffLogicState,
    ctx1: &SolvingContext,
)
    requires
        g.ready(ctx0),
        same_graph(&g.graph, &h.graph),
        h.same_but_graph(g),
        ctx1.same_but_trail(ctx0),
        h.graph.wf(&ctx1.trail),
        forall|k: int|
            0 <= k < g.graph.edges.len() ==> h.graph.active_at(k, ctx1.trail@)
                == #[trigger] g.graph.active_at(k, ctx0.trail@),
    ensures
        h.ready(ctx1),
        g.graph.structure(),
        forall|e: int|
            0 <= e < g.graph.edges.len() ==> ((#[trigger] g.graph.edges[e]).bool_var matches Some(b)
                ==> ctx0.knows(g.graph.bool_vars[b as int])),
        ctx1.grows(ctx0),
        ctx1.narrows(ctx0),
{
    g.graph.lemma_gates();
    assert(ctx1.propagation_queue@.take(ctx0.propagation_queue.len() as int)
        == ctx0.propagation_queue@);
    assert forall|e: int|
        0 <= e < h.graph.edges.len() && #[trigger] h.graph.active_at(e, ctx1.trail@) implies (
    h.graph.edges[e].bool_var matches Some(b) ==> ctx1.decides(
        h.graph.bool_vars[b as int],
        true,
    )) by {
        assert(g.graph.active_at(e, ctx0.trail@));
        assert(h.graph.edges[e].same_but_positions(g.graph.edges[e]));
    }
    assert forall|e: int|
        0 <= e < h.graph.edges.len() && e != -1 && #[trigger] h.graph.active_at(
            e,
            ctx1.trail@,
        ) implies h.pi_keeps(h.graph.edges[e]) by {
        assert(g.graph.active_at(e, ctx0.trail@));
        assert(h.graph.edges[e].same_but_positions(g.graph.edges[e]));
        assert(g.pi_keeps(g.graph.edges[e]));
    }
    assert forall|e: int| 0 <= e < h.graph.edges.len() implies -weight_room(
        h.graph.size(),
        h.graph.edges.len() as int,
    ) <= (#[trigger] h.graph.edges[e]).val <= weight_room(
        h.graph.size(),
        h.graph.edges.len() as int,
    ) by {
        assert(h.graph.edges[e].same_but_positions(g.graph.edges[e]));
        assert(-weight_room(g.graph.size(), g.graph.edges.len() as int) <= g.graph.edges[e].val);
    }
}


/// Whether the graphs have the same active edges.
pub open spec fn same_active(
    g: &DiffGraph,
    values: Seq<usize>,
    h: &DiffGraph,
    later: Seq<usize>,
) -> bool {
    forall|k: int|
        0 <= k < g.edges.len() ==> h.active_at(k, later) == #[trigger] g.active_at(k, values)
}

proof fn lemma_distances_same(
    g: &DiffGraph,
    values: Seq<usize>,
    h: &DiffGraph,
    later: Seq<usize>,
    reverse: bool,
    target: int,
    val: int,
    distances: Map<usize, IntVal>,
)
    requires
        same_graph(g, h),
        same_active(g, values, h, later),
        distances_sound(g, values, reverse, target, val, distances),
    ensures
        distances_sound(h, later, reverse, target, val, distances),
{
    assert forall|w: Seq<int>| #[trigger] nodes_kept(h, later, w) implies nodes_kept(
        g,
        values,
        w,
    ) by {
        assert forall|e: int| 0 <= e < g.edges.len() && #[trigger] g.active_at(e, values) implies
            w[g.edges[e].from as int] - w[g.edges[e].to as int] <= g.edges[e].val by {
            assert(h.active_at(e, later));
            assert(h.edges[e].same_but_positions(g.edges[e]));
        }
    }
    assert forall|t: usize| #[trigger] distances.dom().contains(t) implies t < h.size() && apart(
        h,
        later,
        reverse,
        target,
        t as int,
        distances[t] - val,
    ) && -PI_LIMIT <= distances[t] <= PI_LIMIT by {
        assert(apart(g, values, reverse, target, t as int, distances[t] - val));
    }
}

/// What bounds by way of an active edge say of two nodes.
proof fn lemma_by_way(
    graph: &DiffGraph,
    values: Seq<usize>,
    e: int,
    incoming: Map<usize, IntVal>,
    outgoing: Map<usize, IntVal>,
    a: usize,
    b: usize,
    w: Seq<int>,
)
    requires
        0 <= e < graph.edges.len(),
        graph.active_at(e, values),
        distances_sound(
            graph,
            values,
            false,
            graph.edges[e].to as int,
            graph.edges[e].val as int,
            incoming,
        ),
        distances_sound(
            graph,
            values,
            true,
            graph.edges[e].from as int,
            graph.edges[e].val as int,
            outgoing,
        ),
        outgoing.dom().contains(a),
        incoming.dom().contains(b),
        nodes_kept(graph, values, w),
    ensures
        w[a as int] - w[b as int] <= outgoing[a] + incoming[b] - graph.edges[e].val,
{
    let edge = graph.edges[e];
    assert(apart(graph, values, true, edge.from as int, a as int, outgoing[a] - edge.val));
    assert(apart(graph, values, false, edge.to as int, b as int, incoming[b] - edge.val));
    assert(graph.active_at(e, values));
}

/// Whether no gating view holds of an edge that the distances rule out.
pub open spec fn gates_spared(
    graph: &DiffGraph,
    new_index: int,
    incoming: Map<usize, IntVal>,
    outgoing: Map<usize, IntVal>,
    ints: IntAssignment,
    bools: BoolAssignment,
) -> bool {
    forall|e: int|
        0 <= e < graph.edges.len() && (#[trigger] graph.edges[e]).bool_var is Some && by_way(
            incoming,
            outgoing,
            graph.edges[new_index].val as int,
            graph.edges[e].to,
            graph.edges[e].from,
            -graph.edges[e].val - 1,
        ) ==> !gate_holds(graph, graph.edges[e], ints, bools)
}

/// Whether the edges that were closed are ones that the distances imply or rule out, and the
/// domains were narrowed by no more than the gating views of the latter.
spec fn moved_by_ways(
    st0: &DiffLogicState,
    ctx0: &SolvingContext,
    st: &DiffLogicState,
    ctx: &SolvingContext,
    new_index: int,
    incoming: Map<usize, IntVal>,
    outgoing: Map<usize, IntVal>,
) -> bool {
    let val = st0.graph.edges[new_index].val as int;
    &&& forall|e: int|
        0 <= e < st0.graph.edges.len() && (#[trigger] st0.graph.edges[e]).bool_var is Some
            && !st0.graph.closed_at(e, ctx0.trail@) && st.graph.closed_at(e, ctx.trail@) ==> {
            let edge = st0.graph.edges[e];
            ||| by_way(incoming, outgoing, val, edge.from, edge.to, edge.val as int)
            ||| by_way(incoming, outgoing, val, edge.to, edge.from, -edge.val - 1)
        }
    &&& forall|ints: IntAssignment, bools: BoolAssignment|
        #[trigger] ctx0.admits(ints, bools) && gates_spared(
            &st0.graph,
            new_index,
            incoming,
            outgoing,
            ints,
            bools,
        ) ==> ctx.admits(ints, bools)
    &&& literal_gates(&st0.graph) ==> ctx.ints@ == ctx0.ints@
}

proof fn lemma_moved_join(
    f: &DiffLogicState,
    ctx0: &SolvingContext,
    g: &DiffLogicState,
    ctx1: &SolvingContext,
    h: &DiffLogicState,
    ctx2: &SolvingContext,
    new_index: int,
    incoming: Map<usize, IntVal>,
    outgoing: Map<usize, IntVal>,
)
    requires
        0 <= new_index < f.graph.edges.len(),
        same_graph(&f.graph, &g.graph),
        moved_by_ways(f, ctx0, g, ctx1, new_index, incoming, outgoing),
        moved_by_ways(g, ctx1, h, ctx2, new_index, incoming, outgoing),
    ensures
        moved_by_ways(f, ctx0, h, ctx2, new_index, incoming, outgoing),
{
    assert(g.graph.edges[new_index].same_but_positions(f.graph.edges[new_index]));
    assert forall|e: int|
        0 <= e < f.graph.edges.len() && (#[trigger] f.graph.edges[e]).bool_var is Some
            && !f.graph.closed_at(e, ctx0.trail@) && h.graph.closed_at(e, ctx2.trail@) implies {
        let edge = f.graph.edges[e];
        let val = f.graph.edges[new_index].val as int;
        ||| by_way(incoming, outgoing, val, edge.from, edge.to, edge.val as int)
        ||| by_way(incoming, outgoing, val, edge.to, edge.from, -edge.val - 1)
    } by {
        assert(g.graph.edges[e].same_but_positions(f.graph.edges[e]));
        assert(g.graph.edges[e].bool_var is Some);
    }
    assert forall|ints: IntAssignment, bools: BoolAssignment|
        #[trigger] ctx0.admits(ints, bools) && gates_spared(
            &f.graph,
            new_index,
            incoming,
            outgoing,
            ints,
            bools,
        ) implies ctx2.admits(ints, bools) by {
        assert(ctx1.admits(ints, bools));
        assert(gates_spared(&g.graph, new_index, incoming, outgoing, ints, bools)) by {
            assert forall|e: int|
                0 <= e < g.graph.edges.len() && (#[trigger] g.graph.edges[e]).bool_var is Some
                    && by_way(
                    incoming,
                    outgoing,
                    g.graph.edges[new_index].val as int,
                    g.graph.edges[e].to,
                    g.graph.edges[e].from,
                    -g.graph.edges[e].val - 1,
                ) implies !gate_holds(&g.graph, g.graph.edges[e], ints, bools) by {
                assert(g.graph.edges[e].same_but_positions(f.graph.edges[e]));
                assert(f.graph.edges[e].bool_var is Some);
                assert(!gate_holds(&f.graph, f.graph.edges[e], ints, bools));
            }
        }
    }
}

/// Whether the distances show that the difference of `a` and `b` is at most `limit`, by way of
/// an edge of value `val`.
pub open spec fn by_way(
    incoming: Map<usize, IntVal>,
    outgoing: Map<usize, IntVal>,
    val: int,
    a: usize,
    b: usize,
    limit: int,
) -> bool {
    outgoing.dom().contains(a) && incoming.dom().contains(b) && outgoing[a] + incoming[b] - val
        <= limit
}

impl DiffLogicState {
    /// Close the edges of a list that are implied by way of an active edge.
    fn close_implied(
        &mut self,
        ctx: &mut SolvingContext,
        new_index: usize,
        incoming: &FxHashMap<usize, IntVal>,
        outgoing: &FxHashMap<usize, IntVal>,
        list: &Vec<usize>,
    )
        requires
            old(self).ready(old(ctx)),
            new_index < old(self).graph.edges.len(),
            old(self).graph.active_at(new_index as int, old(ctx).trail@),
            distances_sound(
                &old(self).graph,
                old(ctx).trail@,
                false,
                old(self).graph.edges[new_index as int].to as int,
                old(self).graph.edges[new_index as int].val as int,
                incoming@,
            ),
            distances_sound(
                &old(self).graph,
                old(ctx).trail@,
                true,
                old(self).graph.edges[new_index as int].from as int,
                old(self).graph.edges[new_index as int].val as int,
                outgoing@,
            ),
            forall|i: int|
                0 <= i < list.len() ==> #[trigger] list[i] < old(self).graph.edges.len() && old(
                    self,
                ).graph.edges[list[i] as int].bool_var is Some,
        ensures
            final(self).ready(final(ctx)),
            final(self).same_but_graph(old(self)),
            final(ctx).same_but_trail(old(ctx)),
            final(ctx).infers(old(ctx), diff_rule(&old(self).graph), Ok(())),
            advances(old(self), old(ctx), final(self), final(ctx)),
            same_active(
                &old(self).graph,
                old(ctx).trail@,
                &final(self).graph,
                final(ctx).trail@,
            ),
            forall|k: int|
                0 <= k < list.len() && by_way(
                    incoming@,
                    outgoing@,
                    old(self).graph.edges[new_index as int].val as int,
                    old(self).graph.edges[(#[trigger] list[k]) as int].from,
                    old(self).graph.edges[list[k] as int].to,
                    old(self).graph.edges[list[k] as int].val as int,
                ) ==> final(self).graph.closed_at(list[k] as int, final(ctx).trail@),
            moved_by_ways(
                old(self),
                old(ctx),
                final(self),
                final(ctx),
                new_index as int,
                incoming@,
                outgoing@,
            ),
    {
        let ghost start = *self;
        let ghost ctx0 = *ctx;
        let ghost rule = diff_rule(&self.graph);
        let val: IntVal = self.graph.edges[new_index].val;
        proof {
            lemma_infers_nothing(&ctx0, rule);
            lemma_advances_nothing(self, ctx);
        }
        let mut i: usize = 0;
        while i < list.len()
            invariant
                i <= list.len(),
                start == *old(self),
                ctx0 == *old(ctx),
                start.ready(&ctx0),
                rule == diff_rule(&start.graph),
                new_index < start.graph.edges.len(),
                val == start.graph.edges[new_index as int].val,
                start.graph.active_at(new_index as int, ctx0.trail@),
                distances_sound(
                    &start.graph,
                    ctx0.trail@,
                    false,
                    start.graph.edges[new_index as int].to as int,
                    val as int,
                    incoming@,
                ),
                distances_sound(
                    &start.graph,
                    ctx0.trail@,
                    true,
                    start.graph.edges[new_index as int].from as int,
                    val as int,
                    outgoing@,
                ),
                forall|i: int|
                    0 <= i < list.len() ==> #[trigger] list[i] < start.graph.edges.len()
                        && start.graph.edges[list[i] as int].bool_var is Some,
                self.ready(ctx),
                self.same_but_graph(&start),
                ctx.same_but_trail(&ctx0),
                ctx.infers(&ctx0, rule, Ok(())),
                advances(&start, &ctx0, self, ctx),
                same_active(&start.graph, ctx0.trail@, &self.graph, ctx.trail@),
                moved_by_ways(
                    &start,
                    &ctx0,
                    self,
                    ctx,
                    new_index as int,
                    incoming@,
                    outgoing@,
                ),
                forall|k: int|
                    0 <= k < i && by_way(
                        incoming@,
                        outgoing@,
                        val as int,
                        start.graph.edges[(#[trigger] list[k]) as int].from,
                        start.graph.edges[list[k] as int].to,
                        start.graph.edges[list[k] as int].val as int,
                    ) ==> self.graph.closed_at(list[k] as int, ctx.trail@),
            decreases list.len() - i,
        {
            let e: usize = list[i];
            let edge: DiffEdge = self.graph.edges[e];
            let ghost mid = *self;
            let ghost ctx1 = *ctx;
            proof {
                assert(self.graph.edges[e as int].same_but_positions(start.graph.edges[e as int]));
                assert(self.graph.edges[new_index as int].same_but_positions(
                    start.graph.edges[new_index as int],
                ));
                lemma_distances_same(
                    &start.graph,
                    ctx0.trail@,
                    &self.graph,
                    ctx.trail@,
                    false,
                    start.graph.edges[new_index as int].to as int,
                    val as int,
                    incoming@,
                );
                lemma_distances_same(
                    &start.graph,
                    ctx0.trail@,
                    &self.graph,
                    ctx.trail@,
                    true,
                    start.graph.edges[new_index as int].from as int,
                    val as int,
                    outgoing@,
                );
                lemma_weight_room(self.graph.size(), self.graph.edges.len() as int);
            }
            match (map_get(outgoing, edge.from), map_get(incoming, edge.to)) {
                (Some(a), Some(b)) => {
                    assert(-weight_room(self.graph.size(), self.graph.edges.len() as int)
                        <= self.graph.edges[new_index as int].val);
                    if a + b - val <= edge.val {
                        proof {
                            assert(settled_edge(self, ctx, e as int)) by {
                                assert forall|ints: IntAssignment, bools: BoolAssignment|
                                    #[trigger] ctx.admits(ints, bools) && active_kept(
                                        &self.graph,
                                        ctx.trail@,
                                        ints,
                                        bools,
                                    ) implies edge_kept(
                                    &self.graph,
                                    self.graph.edges[e as int],
                                    ints,
                                    bools,
                                ) by {
                                    let w = node_values(&self.graph, ints, bools);
                                    lemma_nodes_kept(&self.graph, ctx.trail@, ints, bools);
                                    self.graph.lemma_edge(e as int);
                                    lemma_by_way(
                                        &self.graph,
                                        ctx.trail@,
                                        new_index as int,
                                        incoming@,
                                        outgoing@,
                                        edge.from,
                                        edge.to,
                                        w,
                                    );
                                }
                            }
                        }
                        self.close_edge(ctx, e);
                        proof {
                            lemma_same_rule(&start.graph, &mid.graph);
                            lemma_infers_join(&ctx0, &ctx1, ctx, rule, Ok(()));
                            lemma_advances_join(&start, &ctx0, &mid, &ctx1, self, ctx);
                            assert(moved_by_ways(
                                &mid,
                                &ctx1,
                                self,
                                ctx,
                                new_index as int,
                                incoming@,
                                outgoing@,
                            )) by {
                                assert forall|ints: IntAssignment, bools: BoolAssignment|
                                    #[trigger] ctx1.admits(ints, bools) implies ctx.admits(
                                    ints,
                                    bools,
                                ) by {}
                            }
                            lemma_moved_join(
                                &start,
                                &ctx0,
                                &mid,
                                &ctx1,
                                self,
                                ctx,
                                new_index as int,
                                incoming@,
                                outgoing@,
                            );
                            assert forall|k: int| 0 <= k < start.graph.edges.len() implies
                                self.graph.active_at(k, ctx.trail@)
                                == #[trigger] start.graph.active_at(k, ctx0.trail@) by {
                                assert(mid.graph.active_at(k, ctx1.trail@)
                                    == start.graph.active_at(k, ctx0.trail@));
                            }
                        }
                    }
                },
                _ => {},
            }
            proof {
                assert forall|k: int|
                    0 <= k < i + 1 && by_way(
                        incoming@,
                        outgoing@,
                        val as int,
                        start.graph.edges[(#[trigger] list[k]) as int].from,
                        start.graph.edges[list[k] as int].to,
                        start.graph.edges[list[k] as int].val as int,
                    ) implies self.graph.closed_at(list[k] as int, ctx.trail@) by {
                    if k < i && list[k] != e {
                        let f = list[k] as int;
                        assert(mid.graph.edges[f].same_but_positions(start.graph.edges[f]));
                        assert(mid.graph.edges[f].bool_var is Some);
                        assert(mid.graph.closed_at(f, ctx1.trail@));
                    }
                }
            }
            i = i + 1;
        }
    }

    /// Fix the gates of the edges of a list that are impossible by way of an active edge.
    #[verifier::spinoff_prover]
    fn refute_open(
        &mut self,
        ctx: &mut SolvingContext,
        new_index: usize,
        incoming: &FxHashMap<usize, IntVal>,
        outgoing: &FxHashMap<usize, IntVal>,
        list: &Vec<usize>,
    ) -> (r: Result<(), Conflict>)
        requires
            old(self).ready(old(ctx)),
            new_index < old(self).graph.edges.len(),
            old(self).graph.active_at(new_index as int, old(ctx).trail@),
            distances_sound(
                &old(self).graph,
                old(ctx).trail@,
                false,
                old(self).graph.edges[new_index as int].to as int,
                old(self).graph.edges[new_index as int].val as int,
                incoming@,
            ),
            distances_sound(
                &old(self).graph,
                old(ctx).trail@,
                true,
                old(self).graph.edges[new_index as int].from as int,
                old(self).graph.edges[new_index as int].val as int,
                outgoing@,
            ),
            forall|i: int|
                0 <= i < list.len() ==> #[trigger] list[i] < old(self).graph.edges.len() && old(
                    self,
                ).graph.edges[list[i] as int].bool_var is Some,
        ensures
            final(self).ready(final(ctx)),
            final(self).same_but_paths(old(self)),
            final(ctx).infers(old(ctx), diff_rule(&old(self).graph), r),
            r is Ok ==> advances(old(self), old(ctx), final(self), final(ctx)),
            same_graph(&old(self).graph, &final(self).graph),
            same_active(
                &old(self).graph,
                old(ctx).trail@,
                &final(self).graph,
                final(ctx).trail@,
            ),
            r is Ok ==> forall|k: int|
                0 <= k < list.len() && by_way(
                    incoming@,
                    outgoing@,
                    old(self).graph.edges[new_index as int].val as int,
                    old(self).graph.edges[(#[trigger] list[k]) as int].to,
                    old(self).graph.edges[list[k] as int].from,
                    -old(self).graph.edges[list[k] as int].val - 1,
                ) ==> final(self).graph.closed_at(list[k] as int, final(ctx).trail@),
            moved_by_ways(
                old(self),
                old(ctx),
                final(self),
                final(ctx),
                new_index as int,
                incoming@,
                outgoing@,
            ),
    {
        let ghost start = *self;
        let ghost ctx0 = *ctx;
        let ghost rule = diff_rule(&self.graph);
        let val: IntVal = self.graph.edges[new_index].val;
        proof {
            lemma_infers_nothing(&ctx0, rule);
            lemma_advances_nothing(self, ctx);
        }
        let mut i: usize = 0;
        while i < list.len()
            invariant
                i <= list.len(),
                start == *old(self),
                ctx0 == *old(ctx),
                start.ready(&ctx0),
                rule == diff_rule(&start.graph),
                new_index < start.graph.edges.len(),
                val == start.graph.edges[new_index as int].val,
                start.graph.active_at(new_index as int, ctx0.trail@),
                distances_sound(
                    &start.graph,
                    ctx0.trail@,
                    false,
                    start.graph.edges[new_index as int].to as int,
                    val as int,
                    incoming@,
                ),
                distances_sound(
                    &start.graph,
                    ctx0.trail@,
                    true,
                    start.graph.edges[new_index as int].from as int,
                    val as int,
                    outgoing@,
                ),
                forall|i: int|
                    0 <= i < list.len() ==> #[trigger] list[i] < start.graph.edges.len()
                        && start.graph.edges[list[i] as int].bool_var is Some,
                self.ready(ctx),
                self.same_but_paths(&start),
                ctx.infers(&ctx0, rule, Ok(())),
                advances(&start, &ctx0, self, ctx),
                same_active(&start.graph, ctx0.trail@, &self.graph, ctx.trail@),
                moved_by_ways(
                    &start,
                    &ctx0,
                    self,
                    ctx,
                    new_index as int,
                    incoming@,
                    outgoing@,
                ),
                forall|k: int|
                    0 <= k < i && by_way(
                        incoming@,
                        outgoing@,
                        val as int,
                        start.graph.edges[(#[trigger] list[k]) as int].to,
                        start.graph.edges[list[k] as int].from,
                        -start.graph.edges[list[k] as int].val - 1,
                    ) ==> self.graph.closed_at(list[k] as int, ctx.trail@),
            decreases list.len() - i,
        {
            let e: usize = list[i];
            let edge: DiffEdge = self.graph.edges[e];
            let ghost mid = *self;
            let ghost ctx1 = *ctx;
            proof {
                assert(self.graph.edges[e as int].same_but_positions(start.graph.edges[e as int]));
                assert(self.graph.edges[new_index as int].same_but_positions(
                    start.graph.edges[new_index as int],
                ));
                lemma_distances_same(
                    &start.graph,
                    ctx0.trail@,
                    &self.graph,
                    ctx.trail@,
                    false,
                    start.graph.edges[new_index as int].to as int,
                    val as int,
                    incoming@,
                );
                lemma_distances_same(
                    &start.graph,
                    ctx0.trail@,
                    &self.graph,
                    ctx.trail@,
                    true,
                    start.graph.edges[new_index as int].from as int,
                    val as int,
                    outgoing@,
                );
                lemma_weight_room(self.graph.size(), self.graph.edges.len() as int);
            }
            match (map_get(outgoing, edge.to), map_get(incoming, edge.from)) {
                (Some(a), Some(b)) => {
                    proof {
                        assert(-weight_room(self.graph.size(), self.graph.edges.len() as int)
                            <= self.graph.edges[new_index as int].val);
                        assert(-weight_room(self.graph.size(), self.graph.edges.len() as int)
                            <= self.graph.edges[e as int].val);
                    }
                    if a + b - val < 0 - edge.val {
                        self.graph.close_imp_edge(&mut ctx.trail, e);
                        let ghost closed = *self;
                        let ghost ctx2 = *ctx;
                        proof {
                            lemma_moved(&mid, &ctx1, &closed, &ctx2);
                            lemma_same_rule(&start.graph, &mid.graph);
                            lemma_same_rule(&mid.graph, &closed.graph);
                            assert(ctx2.infers(&ctx1, rule, Ok(()))) by {
                                lemma_infers_nothing(&ctx1, rule);
                                assert forall|ints: IntAssignment, bools: BoolAssignment|
                                    #[trigger] ctx2.admits(ints, bools) == ctx1.admits(
                                        ints,
                                        bools,
                                    ) by {}
                            }
                            lemma_infers_join(&ctx0, &ctx1, &ctx2, rule, Ok(()));
                            assert(closed.graph.edges[e as int].same_but_positions(edge));
                        }
                        let tried: Result<bool, Conflict> = self.inc_sat(ctx, e);
                        proof {
                            if tried == Ok::<bool, Conflict>(true) {
                                lemma_refuted(
                                    &mid,
                                    &ctx1,
                                    self,
                                    &ctx2,
                                    new_index as int,
                                    e as int,
                                    incoming@,
                                    outgoing@,
                                );
                            }
                            lemma_infers_join(&ctx0, &ctx2, ctx, rule, outcome(tried));
                            assert(self.pi_valid(ctx.trail@));
                            assert(self.ready(ctx));
                            assert forall|k: int| 0 <= k < start.graph.edges.len() implies
                                self.graph.active_at(k, ctx.trail@)
                                == #[trigger] start.graph.active_at(k, ctx0.trail@) by {
                                assert(mid.graph.active_at(k, ctx1.trail@)
                                    == start.graph.active_at(k, ctx0.trail@));
                            }
                            assert(same_graph(&start.graph, &self.graph)) by {
                                assert forall|k: int| 0 <= k < start.graph.edges.len() implies (
                                #[trigger] self.graph.edges[k]).same_but_positions(
                                    start.graph.edges[k],
                                ) by {
                                    assert(mid.graph.edges[k].same_but_positions(
                                        start.graph.edges[k],
                                    ));
                                }
                            }
                        }
                        proof {
                            assert(moved_by_ways(
                                &mid,
                                &ctx1,
                                self,
                                ctx,
                                new_index as int,
                                incoming@,
                                outgoing@,
                            )) by {
                                assert(closed.graph.bool_vars == mid.graph.bool_vars);
                                assert(literal_gates(&mid.graph) ==> literal_gates(&closed.graph));
                                assert forall|ints: IntAssignment, bools: BoolAssignment|
                                    #[trigger] ctx1.admits(ints, bools) && gates_spared(
                                        &mid.graph,
                                        new_index as int,
                                        incoming@,
                                        outgoing@,
                                        ints,
                                        bools,
                                    ) implies ctx.admits(ints, bools) by {
                                    assert(ctx2.admits(ints, bools));
                                    assert(mid.graph.edges[e as int].bool_var is Some);
                                    assert(!gate_holds(
                                        &mid.graph,
                                        mid.graph.edges[e as int],
                                        ints,
                                        bools,
                                    ));
                                    assert(!gate_holds(
                                        &closed.graph,
                                        closed.graph.edges[e as int],
                                        ints,
                                        bools,
                                    ));
                                }
                            }
                            lemma_moved_join(
                                &start,
                                &ctx0,
                                &mid,
                                &ctx1,
                                self,
                                ctx,
                                new_index as int,
                                incoming@,
                                outgoing@,
                            );
                        }
                        match tried {
                            Ok(_) => {
                                proof {
                                    assert(advances(&mid, &ctx1, self, ctx)) by {
                                        assert(settled_edge(self, ctx, e as int));
                                        lemma_grows_join(&ctx1, &ctx2, ctx);
                                    }
                                    lemma_advances_join(&start, &ctx0, &mid, &ctx1, self, ctx);
                                }
                            },
                            Err(conflict) => {
                                return Err(conflict);
                            },
                        }
                    }
                },
                _ => {},
            }
            proof {
                assert forall|k: int|
                    0 <= k < i + 1 && by_way(
                        incoming@,
                        outgoing@,
                        val as int,
                        start.graph.edges[(#[trigger] list[k]) as int].to,
                        start.graph.edges[list[k] as int].from,
                        -start.graph.edges[list[k] as int].val - 1,
                    ) implies self.graph.closed_at(list[k] as int, ctx.trail@) by {
                    if k < i && list[k] != e {
                        let f = list[k] as int;
                        assert(mid.graph.edges[f].same_but_positions(start.graph.edges[f]));
                        assert(mid.graph.edges[f].bool_var is Some);
                        assert(mid.graph.closed_at(f, ctx1.trail@));
                    }
                }
            }
            i = i + 1;
        }
        Ok(())
    }

    /// Whether the states differ in the graph and the steps of a search only.
    pub open spec fn same_but_paths(&self, other: &DiffLogicState) -> bool {
        &&& self.pi == other.pi
        &&& self.lower_bound == other.lower_bound
        &&& self.upper_bound == other.upper_bound
        &&& self.backtrace.len() == other.backtrace.len()
        &&& self.visited == other.visited
        &&& self.visited_updates == other.visited_updates
        &&& self.lower_bound_changes == other.lower_bound_changes
        &&& self.upper_bound_changes == other.upper_bound_changes
        &&& self.lb_updates == other.lb_updates
        &&& self.ub_updates == other.ub_updates
        &&& self.fixed_bools == other.fixed_bools
        &&& self.pi_initialized == other.pi_initialized
        &&& self.same_settings(other)
    }
}

/// Growing twice is growing.
pub proof fn lemma_grows_join(a: &SolvingContext, b: &SolvingContext, c: &SolvingContext)
    requires
        b.grows(a),
        b.narrows(a),
        c.grows(b),
        c.narrows(b),
    ensures
        c.grows(a),
        c.narrows(a),
{
    let n0 = a.propagation_queue.len() as int;
    let n1 = b.propagation_queue.len() as int;
    assert(c.propagation_queue@.take(n1).take(n0) == c.propagation_queue@.take(n0));
    assert forall|v: int, x: int|
        0 <= v < c.ints.len() && #[trigger] c.ints[v].has(x) implies a.ints[v].has(x) by {
        assert(b.ints[v].has(x));
    }
    assert forall|i: int| 0 <= i < c.bools.len() && (#[trigger] a.bools[i]) is Some implies
        c.bools[i] == a.bools[i] by {
        assert(b.bools[i] == a.bools[i]);
    }
}

/// Doing nothing is a move.
pub proof fn lemma_advances_nothing(state: &DiffLogicState, ctx: &SolvingContext)
    ensures
        advances(state, ctx, state, ctx),
{
    assert(ctx.propagation_queue@.take(ctx.propagation_queue.len() as int)
        == ctx.propagation_queue@);
}

/// The values of the nodes keep the active edges where the assignment does.
proof fn lemma_nodes_kept(
    graph: &DiffGraph,
    values: Seq<usize>,
    ints: IntAssignment,
    bools: BoolAssignment,
)
    requires
        graph.structure(),
        active_kept(graph, values, ints, bools),
    ensures
        nodes_kept(graph, values, node_values(graph, ints, bools)),
{
    let w = node_values(graph, ints, bools);
    assert forall|e: int| 0 <= e < graph.edges.len() && #[trigger] graph.active_at(
        e,
        values,
    ) implies w[graph.edges[e].from as int] - w[graph.edges[e].to as int] <= graph.edges[e].val by {
        graph.lemma_edge(e);
        assert(edge_kept(graph, graph.edges[e], ints, bools));
    }
}

/// An edge that is impossible by way of an active edge keeps no potentials.
proof fn lemma_refuted(
    g: &DiffLogicState,
    ctx0: &SolvingContext,
    h: &DiffLogicState,
    ctx1: &SolvingContext,
    new_index: int,
    e: int,
    incoming: Map<usize, IntVal>,
    outgoing: Map<usize, IntVal>,
)
    requires
        g.ready(ctx0),
        same_graph(&g.graph, &h.graph),
        same_active(&g.graph, ctx0.trail@, &h.graph, ctx1.trail@),
        h.pi.len() == g.graph.size(),
        h.pi_valid_but(ctx1.trail@, e),
        0 <= e < g.graph.edges.len(),
        0 <= new_index < g.graph.edges.len(),
        g.graph.active_at(new_index, ctx0.trail@),
        distances_sound(
            &g.graph,
            ctx0.trail@,
            false,
            g.graph.edges[new_index].to as int,
            g.graph.edges[new_index].val as int,
            incoming,
        ),
        distances_sound(
            &g.graph,
            ctx0.trail@,
            true,
            g.graph.edges[new_index].from as int,
            g.graph.edges[new_index].val as int,
            outgoing,
        ),
        outgoing.dom().contains(g.graph.edges[e].to),
        incoming.dom().contains(g.graph.edges[e].from),
        outgoing[g.graph.edges[e].to] + incoming[g.graph.edges[e].from]
            - g.graph.edges[new_index].val < -g.graph.edges[e].val,
    ensures
        !h.pi_keeps(h.graph.edges[e]),
{
    if h.pi_keeps(h.graph.edges[e]) {
        let w = Seq::new(g.graph.size() as nat, |n: int| -(h.pi[n] as int));
        assert(nodes_kept(&g.graph, ctx0.trail@, w)) by {
            assert forall|k: int|
                0 <= k < g.graph.edges.len() && #[trigger] g.graph.active_at(
                    k,
                    ctx0.trail@,
                ) implies w[g.graph.edges[k].from as int] - w[g.graph.edges[k].to as int]
                <= g.graph.edges[k].val by {
                g.graph.lemma_edge(k);
                assert(h.graph.active_at(k, ctx1.trail@));
                assert(h.graph.edges[k].same_but_positions(g.graph.edges[k]));
                assert(h.pi_keeps(h.graph.edges[k]));
            }
        }
        g.graph.lemma_edge(e);
        assert(h.graph.edges[e].same_but_positions(g.graph.edges[e]));
        lemma_by_way(
            &g.graph,
            ctx0.trail@,
            new_index,
            incoming,
            outgoing,
            g.graph.edges[e].to,
            g.graph.edges[e].from,
            w,
        );
    }
}


/// The number of open edges of the lists of some nodes.
pub open spec fn total_open(
    graph: &DiffGraph,
    values: Seq<usize>,
    kind: ListKind,
    nodes: Seq<usize>,
    k: int,
) -> int
    decreases k,
{
    if k <= 0 {
        0
    } else {
        let list = graph.lists(kind)[nodes[k - 1] as int];
        total_open(graph, values, kind, nodes, k - 1) + list.items.len() - list.num_closed(values)
    }
}

impl DiffLogicState {
    /// The number of open edges of the lists of some nodes.
    fn count_open(&self, trail: &Trail, kind: ListKind, nodes: &Vec<usize>) -> (r: u128)
        requires
            self.graph.wf(trail),
            kind != ListKind::Gate,
            forall|i: int| 0 <= i < nodes.len() ==> #[trigger] nodes[i] < self.graph.size(),
        ensures
            r == total_open(&self.graph, trail@, kind, nodes@, nodes.len() as int),
    {
        let mut sum: u128 = 0;
        let mut i: usize = 0;
        while i < nodes.len()
            invariant
                i <= nodes.len(),
                self.graph.wf(trail),
                kind != ListKind::Gate,
                forall|i: int| 0 <= i < nodes.len() ==> #[trigger] nodes[i] < self.graph.size(),
                sum == total_open(&self.graph, trail@, kind, nodes@, i as int),
                0 <= sum <= i * 0xffff_ffff_ffff_ffff,
            decreases nodes.len() - i,
        {
            let n: usize = nodes[i];
            proof {
                self.graph.lemma_lists(trail@, n as int);
                assert((i + 1) * 0xffff_ffff_ffff_ffff == i * 0xffff_ffff_ffff_ffff
                    + 0xffff_ffff_ffff_ffff) by (nonlinear_arith);
                assert((i + 1) * 0xffff_ffff_ffff_ffff <= 0xffff_ffff_ffff_ffff
                    * 0xffff_ffff_ffff_ffff) by (nonlinear_arith)
                    requires
                        i + 1 <= 0xffff_ffff_ffff_ffff,
                ;
            }
            let open: usize = self.graph.num_open(trail, kind, n);
            sum = sum + open as u128;
            i = i + 1;
        }
        sum
    }

    /// Whether an active edge between the ends of an edge has a smaller value.
    fn has_smaller_parallel(&self, trail: &Trail, e: usize) -> (r: bool)
        requires
            self.graph.wf(trail),
            e < self.graph.edges.len(),
        ensures
            r == !self.graph.no_smaller_parallel(trail@, e as int),
    {
        let edge: DiffEdge = self.graph.edges[e];
        proof {
            self.graph.lemma_edge(e as int);
            self.graph.lemma_lists(trail@, edge.from as int);
        }
        let len: usize = self.graph.active_out[edge.from].length(trail);
        let mut i: usize = 0;
        while i < len
            invariant
                i <= len,
                self.graph.wf(trail),
                e < self.graph.edges.len(),
                edge == self.graph.edges[e as int],
                edge.from < self.graph.size(),
                self.graph.active_out.len() == self.graph.size(),
                len == self.graph.active_out[edge.from as int].at(trail@).len(),
                forall|j: int|
                    0 <= j < i ==> {
                        let k = #[trigger] self.graph.active_out[edge.from as int].at(
                            trail@,
                        )[j] as int;
                        self.graph.edges[k].to == edge.to ==> self.graph.edges[k].val >= edge.val
                    },
            decreases len - i,
        {
            proof {
                self.graph.lemma_active_out(trail@, edge.from as int, i as int);
            }
            let k: usize = self.graph.active_out[edge.from].get(trail, i);
            if self.graph.edges[k].to == edge.to && self.graph.edges[k].val < edge.val {
                return true;
            }
            i = i + 1;
        }
        proof {
            assert forall|k: int|
                0 <= k < self.graph.edges.len() && #[trigger] self.graph.active_at(k, trail@)
                    && self.graph.edges[k].from == edge.from && self.graph.edges[k].to
                    == edge.to implies self.graph.edges[k].val >= edge.val by {
                let (j, _) = self.graph.lemma_active_listed(trail@, k);
                assert(self.graph.active_out[edge.from as int].at(trail@)[j] == k);
            }
        }
        false
    }

    /// Find the open edges that an active edge implies or makes impossible: the former are
    /// closed, the gates of the latter are fixed not to hold.
    ///
    /// An edge changes nothing if another active edge between its ends has a strictly smaller bound.
    #[verifier::spinoff_prover]
    pub fn inc_imp(&mut self, ctx: &mut SolvingContext, new_index: usize) -> (r: Result<
        (),
        Conflict,
    >)
        requires
            old(self).ready(old(ctx)),
            new_index < old(self).graph.edges.len(),
            old(self).graph.active_at(new_index as int, old(ctx).trail@),
        ensures
            final(self).ready(final(ctx)),
            final(self).same_but_walks(old(self)),
            final(ctx).infers(old(ctx), diff_rule(&old(self).graph), r),
            r is Ok ==> advances(old(self), old(ctx), final(self), final(ctx)),
            same_graph(&old(self).graph, &final(self).graph),
            same_active(
                &old(self).graph,
                old(ctx).trail@,
                &final(self).graph,
                final(ctx).trail@,
            ),
            r is Ok ==> all_noticed(
                &old(self).graph,
                old(ctx).trail@,
                new_index as int,
                &final(self).graph,
                final(ctx).trail@,
            ),
            // Nothing else is closed or fixed.
            moved_by_paths(old(self), old(ctx), final(self), final(ctx)),
            all_closed(&old(self).graph, old(ctx).trail@) ==> r is Ok && *final(ctx) == *old(ctx)
                && *final(self) == *old(self),
    {
        let ghost start = *self;
        let ghost ctx0 = *ctx;
        let ghost rule = diff_rule(&self.graph);
        proof {
            lemma_infers_nothing(&ctx0, rule);
            lemma_advances_nothing(self, ctx);
        }
        // Nothing to find when every edge with a gate is closed.
        let num_closed: usize = self.graph.num_closed(&ctx.trail);
        if self.graph.num_gated_created == num_closed {
            return Ok(());
        }
        if self.has_smaller_parallel(&ctx.trail, new_index) {
            proof {
                let k = choose|k: int|
                    0 <= k < start.graph.edges.len() && #[trigger] start.graph.active_at(
                        k,
                        ctx0.trail@,
                    ) && start.graph.edges[k].from == start.graph.edges[new_index as int].from
                        && start.graph.edges[k].to == start.graph.edges[new_index as int].to
                        && start.graph.edges[k].val < start.graph.edges[new_index as int].val;
                lemma_parallel_noticed(&start.graph, ctx0.trail@, new_index as int, k);
                assert(*self == start && *ctx == ctx0);
                assert forall|e: int|
                    0 <= e < start.graph.edges.len() && (#[trigger] start.graph.edges[e]).bool_var
                        is Some implies noticed(
                    &start.graph,
                    ctx0.trail@,
                    new_index as int,
                    start.graph.edges[e],
                    self.graph.closed_at(e, ctx.trail@),
                ) by {
                    lemma_noticed_closed(
                        &start.graph,
                        ctx0.trail@,
                        new_index as int,
                        start.graph.edges[e],
                        self.graph.closed_at(e, ctx.trail@),
                    );
                }
            }
            return Ok(());
        }
        proof {
            assert(self.pi_keeps(self.graph.edges[new_index as int]));
        }
        let incoming: FxHashMap<usize, IntVal> = self.dijkstra_relevant(
            &ctx.trail,
            new_index,
            false,
        );
        let outgoing: FxHashMap<usize, IntVal> = self.dijkstra_relevant(
            &ctx.trail,
            new_index,
            true,
        );
        let in_keys: Vec<usize> = map_keys(&incoming);
        let out_keys: Vec<usize> = map_keys(&outgoing);
        proof {
            assert forall|i: int| 0 <= i < in_keys.len() implies #[trigger] in_keys[i]
                < self.graph.size() by {
                assert(in_keys@.contains(in_keys[i]));
            }
            assert forall|i: int| 0 <= i < out_keys.len() implies #[trigger] out_keys[i]
                < self.graph.size() by {
                assert(out_keys@.contains(out_keys[i]));
            }
        }
        let indegree: u128 = self.count_open(&ctx.trail, ListKind::In, &in_keys);
        let outdegree: u128 = self.count_open(&ctx.trail, ListKind::Out, &out_keys);
        let from_start: bool = indegree < outdegree;
        let keys: Vec<usize> = if from_start {
            in_keys
        } else {
            out_keys
        };
        let implied_kind: ListKind = if from_start {
            ListKind::In
        } else {
            ListKind::Out
        };
        let refuted_kind: ListKind = if from_start {
            ListKind::Out
        } else {
            ListKind::In
        };
        let ghost begin = *self;
        proof {
            lemma_advances_nothing(self, ctx);
        }
        let mut i: usize = 0;
        while i < keys.len()
            invariant
                i <= keys.len(),
                start == *old(self),
                ctx0 == *old(ctx),
                start.ready(&ctx0),
                begin.ready(&ctx0),
                begin.graph == start.graph,
                begin.same_but_visits(&start),
                rule == diff_rule(&start.graph),
                new_index < start.graph.edges.len(),
                start.graph.active_at(new_index as int, ctx0.trail@),
                distances_sound(
                    &start.graph,
                    ctx0.trail@,
                    false,
                    start.graph.edges[new_index as int].to as int,
                    start.graph.edges[new_index as int].val as int,
                    incoming@,
                ),
                distances_sound(
                    &start.graph,
                    ctx0.trail@,
                    true,
                    start.graph.edges[new_index as int].from as int,
                    start.graph.edges[new_index as int].val as int,
                    outgoing@,
                ),
                forall|i: int| 0 <= i < keys.len() ==> #[trigger] keys[i] < start.graph.size(),
                implied_kind != ListKind::Gate,
                refuted_kind != ListKind::Gate,
                self.ready(ctx),
                self.same_but_paths(&begin),
                ctx.infers(&ctx0, rule, Ok(())),
                advances(&begin, &ctx0, self, ctx),
                same_active(&start.graph, ctx0.trail@, &self.graph, ctx.trail@),
                !all_closed(&start.graph, ctx0.trail@),
                relevant_found(
                    &start.graph,
                    ctx0.trail@,
                    search_through(&start.graph, new_index as int, false),
                    incoming@,
                ),
                relevant_found(
                    &start.graph,
                    ctx0.trail@,
                    search_through(&start.graph, new_index as int, true),
                    outgoing@,
                ),
                moved_by_ways(
                    &begin,
                    &ctx0,
                    self,
                    ctx,
                    new_index as int,
                    incoming@,
                    outgoing@,
                ),
                ways_closed(
                    &start.graph,
                    new_index as int,
                    incoming@,
                    outgoing@,
                    implied_kind,
                    refuted_kind,
                    keys@,
                    i as int,
                    &self.graph,
                    ctx.trail@,
                ),
            decreases keys.len() - i,
        {
            let n: usize = keys[i];
            let ghost s1 = *self;
            let ghost c1 = *ctx;
            proof {
                self.graph.lemma_lists(ctx.trail@, n as int);
                lemma_reach_same(
                    &start,
                    &ctx0,
                    self,
                    ctx,
                    new_index as int,
                    incoming@,
                    outgoing@,
                );
            }
            let implied: Vec<usize> = self.graph.open_edges(&ctx.trail, implied_kind, n);
            self.close_implied(ctx, new_index, &incoming, &outgoing, &implied);
            let ghost s2 = *self;
            let ghost c2 = *ctx;
            proof {
                lemma_same_rule(&start.graph, &s1.graph);
                lemma_infers_join(&ctx0, &c1, &c2, rule, Ok(()));
                lemma_advances_join(&begin, &ctx0, &s1, &c1, &s2, &c2);
                lemma_same_active_join(&start, &ctx0, &s1, &c1, &s2, &c2);
                self.graph.lemma_lists(ctx.trail@, n as int);
                lemma_reach_same(
                    &start,
                    &ctx0,
                    self,
                    ctx,
                    new_index as int,
                    incoming@,
                    outgoing@,
                );
            }
            let refuted: Vec<usize> = self.graph.open_edges(&ctx.trail, refuted_kind, n);
            let done: Result<(), Conflict> = self.refute_open(
                ctx,
                new_index,
                &incoming,
                &outgoing,
                &refuted,
            );
            proof {
                lemma_moved_join(
                    &begin,
                    &ctx0,
                    &s1,
                    &c1,
                    &s2,
                    &c2,
                    new_index as int,
                    incoming@,
                    outgoing@,
                );
                lemma_moved_join(
                    &begin,
                    &ctx0,
                    &s2,
                    &c2,
                    self,
                    ctx,
                    new_index as int,
                    incoming@,
                    outgoing@,
                );
                lemma_same_rule(&start.graph, &s2.graph);
                lemma_infers_join(&ctx0, &c2, ctx, rule, done);
                lemma_same_active_join(&start, &ctx0, &s2, &c2, self, ctx);
                lemma_same_graph_join(&start.graph, &s2.graph, &self.graph);
            }
            match done {
                Ok(()) => {
                    proof {
                        lemma_advances_join(&begin, &ctx0, &s2, &c2, self, ctx);
                        lemma_ways_closed_step(
                            &start,
                            new_index as int,
                            incoming@,
                            outgoing@,
                            implied_kind,
                            refuted_kind,
                            keys@,
                            i as int,
                            &s1,
                            &c1,
                            &s2,
                            &c2,
                            self,
                            ctx,
                            implied@,
                            refuted@,
                        );
                    }
                },
                Err(conflict) => {
                    proof {
                        lemma_moved_by_paths(
                            &start,
                            &begin,
                            &ctx0,
                            self,
                            ctx,
                            new_index as int,
                            incoming@,
                            outgoing@,
                        );
                    }
                    return Err(conflict);
                },
            }
            i = i + 1;
        }
        proof {
            lemma_moved_by_paths(
                &start,
                &begin,
                &ctx0,
                self,
                ctx,
                new_index as int,
                incoming@,
                outgoing@,
            );
            assert(advances(&start, &ctx0, self, ctx));
            assert forall|e: int|
                0 <= e < start.graph.edges.len() && (#[trigger] start.graph.edges[e]).bool_var
                    is Some implies noticed(
                &start.graph,
                ctx0.trail@,
                new_index as int,
                start.graph.edges[e],
                self.graph.closed_at(e, ctx.trail@),
            ) by {
                lemma_way_noticed(
                    &start,
                    &ctx0,
                    new_index as int,
                    incoming@,
                    outgoing@,
                    implied_kind,
                    refuted_kind,
                    keys@,
                    &self.graph,
                    ctx.trail@,
                    e,
                );
            }
        }
        Ok(())
    }

    /// Whether the states differ in the graph, the steps of a search and the visited nodes
    /// only.
    pub open spec fn same_but_walks(&self, other: &DiffLogicState) -> bool {
        &&& self.pi == other.pi
        &&& self.lower_bound == other.lower_bound
        &&& self.upper_bound == other.upper_bound
        &&& self.backtrace.len() == other.backtrace.len()
        &&& self.lower_bound_changes == other.lower_bound_changes
        &&& self.upper_bound_changes == other.upper_bound_changes
        &&& self.lb_updates == other.lb_updates
        &&& self.ub_updates == other.ub_updates
        &&& self.fixed_bools == other.fixed_bools
        &&& self.pi_initialized == other.pi_initialized
        &&& self.same_settings(other)
    }
}

/// Whether the edges that were closed are ones that a path of active edges implies or rules out,
/// and the domains were narrowed by no more than the gating views of the latter.
pub open spec fn moved_by_paths(
    st0: &DiffLogicState,
    ctx0: &SolvingContext,
    st: &DiffLogicState,
    ctx: &SolvingContext,
) -> bool {
    &&& forall|e: int|
        0 <= e < st0.graph.edges.len() && (#[trigger] st0.graph.edges[e]).bool_var is Some
            && !st0.graph.closed_at(e, ctx0.trail@) && st.graph.closed_at(e, ctx.trail@)
            ==> told_by_path(&st0.graph, ctx0.trail@, st0.graph.edges[e])
    &&& forall|ints: IntAssignment, bools: BoolAssignment|
        #[trigger] ctx0.admits(ints, bools) && refuted_gates_fail(
            &st0.graph,
            ctx0.trail@,
            ints,
            bools,
        ) ==> ctx.admits(ints, bools)
    &&& literal_gates(&st0.graph) ==> ctx.ints@ == ctx0.ints@
}

/// Whether every edge with a gate is closed.
pub open spec fn all_closed(graph: &DiffGraph, values: Seq<usize>) -> bool {
    forall|e: int|
        0 <= e < graph.edges.len() && (#[trigger] graph.edges[e]).bool_var is Some
            ==> graph.closed_at(e, values)
}

/// Whether no gating view holds of an edge that a path of active edges rules out.
pub open spec fn refuted_gates_fail(
    graph: &DiffGraph,
    values: Seq<usize>,
    ints: IntAssignment,
    bools: BoolAssignment,
) -> bool {
    forall|e: int|
        0 <= e < graph.edges.len() && (#[trigger] graph.edges[e]).bool_var is Some
            && bounded_by_path(
            graph,
            values,
            graph.edges[e].to as int,
            graph.edges[e].from as int,
            -graph.edges[e].val - 1,
        ) ==> !gate_holds(graph, graph.edges[e], ints, bools)
}

proof fn lemma_moved_by_paths(
    start: &DiffLogicState,
    begin: &DiffLogicState,
    ctx0: &SolvingContext,
    st: &DiffLogicState,
    ctx: &SolvingContext,
    new_index: int,
    incoming: Map<usize, IntVal>,
    outgoing: Map<usize, IntVal>,
)
    requires
        begin.graph == start.graph,
        0 <= new_index < start.graph.edges.len(),
        start.graph.active_at(new_index, ctx0.trail@),
        relevant_found(
            &start.graph,
            ctx0.trail@,
            search_through(&start.graph, new_index, false),
            incoming,
        ),
        relevant_found(
            &start.graph,
            ctx0.trail@,
            search_through(&start.graph, new_index, true),
            outgoing,
        ),
        moved_by_ways(begin, ctx0, st, ctx, new_index, incoming, outgoing),
    ensures
        moved_by_paths(start, ctx0, st, ctx),
{
    let graph = &start.graph;
    let val = start.graph.edges[new_index].val as int;
    assert forall|a: usize, b: usize, limit: int| #[trigger]
        by_way(incoming, outgoing, val, a, b, limit) implies bounded_by_path(
        graph,
        ctx0.trail@,
        a as int,
        b as int,
        limit,
    ) by {
        lemma_way_is_path(graph, ctx0.trail@, new_index, incoming, outgoing, a, b, limit);
    }
    assert forall|e: int|
        0 <= e < start.graph.edges.len() && (#[trigger] start.graph.edges[e]).bool_var is Some
            && !start.graph.closed_at(e, ctx0.trail@) && st.graph.closed_at(
            e,
            ctx.trail@,
        ) implies told_by_path(&start.graph, ctx0.trail@, start.graph.edges[e]) by {
        assert(begin.graph.edges[e].bool_var is Some);
    }
    assert forall|ints: IntAssignment, bools: BoolAssignment|
        #[trigger] ctx0.admits(ints, bools) && refuted_gates_fail(
            graph,
            ctx0.trail@,
            ints,
            bools,
        ) implies ctx.admits(ints, bools) by {
        assert(gates_spared(&begin.graph, new_index, incoming, outgoing, ints, bools)) by {
            assert forall|e: int|
                0 <= e < begin.graph.edges.len() && (#[trigger] begin.graph.edges[e]).bool_var
                    is Some && by_way(
                    incoming,
                    outgoing,
                    begin.graph.edges[new_index].val as int,
                    begin.graph.edges[e].to,
                    begin.graph.edges[e].from,
                    -begin.graph.edges[e].val - 1,
                ) implies !gate_holds(&begin.graph, begin.graph.edges[e], ints, bools) by {
                assert(start.graph.edges[e].bool_var is Some);
            }
        }
    }
}

/// Whether the edges of the lists of the first `n` nodes that the distances imply or rule out
/// are closed.
spec fn ways_closed(
    graph: &DiffGraph,
    new_index: int,
    incoming: Map<usize, IntVal>,
    outgoing: Map<usize, IntVal>,
    implied_kind: ListKind,
    refuted_kind: ListKind,
    keys: Seq<usize>,
    n: int,
    after: &DiffGraph,
    values: Seq<usize>,
) -> bool {
    let val = graph.edges[new_index].val as int;
    forall|e: int, k: int|
        #![trigger graph.edges[e], keys[k]]
        0 <= e < graph.edges.len() && graph.edges[e].bool_var is Some && 0 <= k < n ==> {
            let edge = graph.edges[e];
            &&& edge.list_of(implied_kind) == keys[k] && by_way(
                incoming,
                outgoing,
                val,
                edge.from,
                edge.to,
                edge.val as int,
            ) ==> after.closed_at(e, values)
            &&& edge.list_of(refuted_kind) == keys[k] && by_way(
                incoming,
                outgoing,
                val,
                edge.to,
                edge.from,
                -edge.val - 1,
            ) ==> after.closed_at(e, values)
        }
}

proof fn lemma_ways_closed_step(
    start: &DiffLogicState,
    new_index: int,
    incoming: Map<usize, IntVal>,
    outgoing: Map<usize, IntVal>,
    implied_kind: ListKind,
    refuted_kind: ListKind,
    keys: Seq<usize>,
    i: int,
    s1: &DiffLogicState,
    c1: &SolvingContext,
    s2: &DiffLogicState,
    c2: &SolvingContext,
    s3: &DiffLogicState,
    c3: &SolvingContext,
    implied: Seq<usize>,
    refuted: Seq<usize>,
)
    requires
        0 <= i < keys.len(),
        0 <= new_index < start.graph.edges.len(),
        implied_kind != ListKind::Gate,
        refuted_kind != ListKind::Gate,
        same_graph(&start.graph, &s1.graph),
        advances(s1, c1, s2, c2),
        advances(s2, c2, s3, c3),
        ways_closed(
            &start.graph,
            new_index,
            incoming,
            outgoing,
            implied_kind,
            refuted_kind,
            keys,
            i,
            &s1.graph,
            c1.trail@,
        ),
        are_open_edges(&s1.graph, c1.trail@, implied_kind, keys[i] as int, implied),
        are_open_edges(&s2.graph, c2.trail@, refuted_kind, keys[i] as int, refuted),
        forall|k: int|
            0 <= k < implied.len() && by_way(
                incoming,
                outgoing,
                s1.graph.edges[new_index].val as int,
                s1.graph.edges[(#[trigger] implied[k]) as int].from,
                s1.graph.edges[implied[k] as int].to,
                s1.graph.edges[implied[k] as int].val as int,
            ) ==> s2.graph.closed_at(implied[k] as int, c2.trail@),
        forall|k: int|
            0 <= k < refuted.len() && by_way(
                incoming,
                outgoing,
                s2.graph.edges[new_index].val as int,
                s2.graph.edges[(#[trigger] refuted[k]) as int].to,
                s2.graph.edges[refuted[k] as int].from,
                -s2.graph.edges[refuted[k] as int].val - 1,
            ) ==> s3.graph.closed_at(refuted[k] as int, c3.trail@),
        start.graph.edges.len() <= usize::MAX,
    ensures
        ways_closed(
            &start.graph,
            new_index,
            incoming,
            outgoing,
            implied_kind,
            refuted_kind,
            keys,
            i + 1,
            &s3.graph,
            c3.trail@,
        ),
{
    let val = start.graph.edges[new_index].val as int;
    assert(s1.graph.edges[new_index].same_but_positions(start.graph.edges[new_index]));
    assert(s2.graph.edges[new_index].same_but_positions(s1.graph.edges[new_index]));
    assert forall|e: int, k: int|
        #![trigger start.graph.edges[e], keys[k]]
        0 <= e < start.graph.edges.len() && start.graph.edges[e].bool_var is Some && 0 <= k < i
            + 1 implies {
        let edge = start.graph.edges[e];
        &&& edge.list_of(implied_kind) == keys[k] && by_way(
            incoming,
            outgoing,
            val,
            edge.from,
            edge.to,
            edge.val as int,
        ) ==> s3.graph.closed_at(e, c3.trail@)
        &&& edge.list_of(refuted_kind) == keys[k] && by_way(
            incoming,
            outgoing,
            val,
            edge.to,
            edge.from,
            -edge.val - 1,
        ) ==> s3.graph.closed_at(e, c3.trail@)
    } by {
        let edge = start.graph.edges[e];
        assert(s1.graph.edges[e].same_but_positions(start.graph.edges[e]));
        assert(s2.graph.edges[e].same_but_positions(s1.graph.edges[e]));
        assert(s1.graph.edges[e].bool_var is Some && s2.graph.edges[e].bool_var is Some);
        if k == i {
            if edge.list_of(implied_kind) == keys[k] && by_way(
                incoming,
                outgoing,
                val,
                edge.from,
                edge.to,
                edge.val as int,
            ) && !s1.graph.closed_at(e, c1.trail@) {
                assert(s1.graph.edges[e].list_of(implied_kind) == keys[i]);
                assert(implied.contains(e as usize));
                let j = implied.index_of(e as usize);
                assert(implied[j] == e);
                assert(s2.graph.closed_at(e, c2.trail@));
            }
            if edge.list_of(refuted_kind) == keys[k] && by_way(
                incoming,
                outgoing,
                val,
                edge.to,
                edge.from,
                -edge.val - 1,
            ) && !s2.graph.closed_at(e, c2.trail@) {
                assert(s2.graph.edges[e].list_of(refuted_kind) == keys[i]);
                assert(refuted.contains(e as usize));
                let j = refuted.index_of(e as usize);
                assert(refuted[j] == e);
            }
        }
    }
}

/// What the distances show was noticed.
proof fn lemma_way_noticed(
    start: &DiffLogicState,
    ctx0: &SolvingContext,
    new_index: int,
    incoming: Map<usize, IntVal>,
    outgoing: Map<usize, IntVal>,
    implied_kind: ListKind,
    refuted_kind: ListKind,
    keys: Seq<usize>,
    after: &DiffGraph,
    values: Seq<usize>,
    e: int,
)
    requires
        start.graph.structure(),
        0 <= new_index < start.graph.edges.len(),
        0 <= e < start.graph.edges.len(),
        start.graph.edges[e].bool_var is Some,
        relevant_found(
            &start.graph,
            ctx0.trail@,
            search_through(&start.graph, new_index, false),
            incoming,
        ),
        relevant_found(
            &start.graph,
            ctx0.trail@,
            search_through(&start.graph, new_index, true),
            outgoing,
        ),
        (implied_kind == ListKind::In && refuted_kind == ListKind::Out && forall|k: usize|
            #[trigger] incoming.dom().contains(k) ==> keys.contains(k)) || (implied_kind
            == ListKind::Out && refuted_kind == ListKind::In && forall|k: usize|
            #[trigger] outgoing.dom().contains(k) ==> keys.contains(k)),
        ways_closed(
            &start.graph,
            new_index,
            incoming,
            outgoing,
            implied_kind,
            refuted_kind,
            keys,
            keys.len() as int,
            after,
            values,
        ),
    ensures
        noticed(
            &start.graph,
            ctx0.trail@,
            new_index,
            start.graph.edges[e],
            after.closed_at(e, values),
        ),
{
    let graph = &start.graph;
    let edge = start.graph.edges[e];
    let closed = after.closed_at(e, values);
    start.graph.lemma_edge(e);
    assert forall|r: Seq<int>, p: Seq<int>| #[trigger]
        joined_by(graph, ctx0.trail@, new_index, edge.from as int, r, p, edge.to as int)
            && joined_value(graph, new_index, r, p) <= edge.val implies closed || bypassed(
        graph,
        ctx0.trail@,
        new_index,
        edge.from as int,
        edge.to as int,
        joined_value(graph, new_index, r, p),
    ) by {
        lemma_joined_shows(
            graph,
            ctx0.trail@,
            new_index,
            incoming,
            outgoing,
            edge.from as int,
            r,
            p,
            edge.to as int,
        );
        if by_way(
            incoming,
            outgoing,
            graph.edges[new_index].val as int,
            edge.from,
            edge.to,
            joined_value(graph, new_index, r, p),
        ) {
            let key = if implied_kind == ListKind::In {
                edge.to
            } else {
                edge.from
            };
            assert(incoming.dom().contains(edge.to) && outgoing.dom().contains(edge.from));
            assert(keys.contains(key));
            let k = keys.index_of(key);
            assert(keys[k] == key);
            assert(start.graph.edges[e].list_of(implied_kind) == keys[k]);
        }
    }
    assert forall|r: Seq<int>, p: Seq<int>| #[trigger]
        joined_by(graph, ctx0.trail@, new_index, edge.to as int, r, p, edge.from as int)
            && joined_value(graph, new_index, r, p) + edge.val < 0 implies closed || bypassed(
        graph,
        ctx0.trail@,
        new_index,
        edge.to as int,
        edge.from as int,
        joined_value(graph, new_index, r, p),
    ) by {
        lemma_joined_shows(
            graph,
            ctx0.trail@,
            new_index,
            incoming,
            outgoing,
            edge.to as int,
            r,
            p,
            edge.from as int,
        );
        if by_way(
            incoming,
            outgoing,
            graph.edges[new_index].val as int,
            edge.to,
            edge.from,
            joined_value(graph, new_index, r, p),
        ) {
            let key = if refuted_kind == ListKind::Out {
                edge.from
            } else {
                edge.to
            };
            assert(incoming.dom().contains(edge.from) && outgoing.dom().contains(edge.to));
            assert(keys.contains(key));
            let k = keys.index_of(key);
            assert(keys[k] == key);
            assert(start.graph.edges[e].list_of(refuted_kind) == keys[k]);
        }
    }
}

/// Nothing is missed where a parallel edge is not larger.
proof fn lemma_parallel_noticed(graph: &DiffGraph, values: Seq<usize>, new_index: int, k: int)
    requires
        0 <= new_index < graph.edges.len(),
        0 <= k < graph.edges.len(),
        k != new_index,
        graph.active_at(k, values),
        graph.edges[k].from == graph.edges[new_index].from,
        graph.edges[k].to == graph.edges[new_index].to,
        graph.edges[k].val <= graph.edges[new_index].val,
    ensures
        forall|edge: DiffEdge| #[trigger] noticed(graph, values, new_index, edge, false),
{
    assert forall|edge: DiffEdge| #[trigger] noticed(graph, values, new_index, edge, false) by {
        assert forall|r: Seq<int>, p: Seq<int>| #[trigger]
            joined_by(
                graph,
                values,
                new_index,
                edge.from as int,
                r,
                p,
                edge.to as int,
            ) implies bypassed(
            graph,
            values,
            new_index,
            edge.from as int,
            edge.to as int,
            joined_value(graph, new_index, r, p),
        ) by {
            lemma_parallel_bypass(
                graph,
                values,
                new_index,
                k,
                edge.from as int,
                r,
                p,
                edge.to as int,
            );
        }
        assert forall|r: Seq<int>, p: Seq<int>| #[trigger]
            joined_by(
                graph,
                values,
                new_index,
                edge.to as int,
                r,
                p,
                edge.from as int,
            ) implies bypassed(
            graph,
            values,
            new_index,
            edge.to as int,
            edge.from as int,
            joined_value(graph, new_index, r, p),
        ) by {
            lemma_parallel_bypass(
                graph,
                values,
                new_index,
                k,
                edge.to as int,
                r,
                p,
                edge.from as int,
            );
        }
    }
}

proof fn lemma_noticed_closed(
    graph: &DiffGraph,
    values: Seq<usize>,
    new_index: int,
    edge: DiffEdge,
    closed: bool,
)
    requires
        noticed(graph, values, new_index, edge, false),
    ensures
        noticed(graph, values, new_index, edge, closed),
{
}

proof fn lemma_same_graph_join(f: &DiffGraph, g: &DiffGraph, h: &DiffGraph)
    requires
        same_graph(f, g),
        same_graph(g, h),
    ensures
        same_graph(f, h),
{
    assert forall|e: int| 0 <= e < f.edges.len() implies (
    #[trigger] h.edges[e]).same_but_positions(f.edges[e]) by {
        assert(g.edges[e].same_but_positions(f.edges[e]));
    }
}

proof fn lemma_same_active_join(
    f: &DiffLogicState,
    c0: &SolvingContext,
    g: &DiffLogicState,
    c1: &SolvingContext,
    h: &DiffLogicState,
    c2: &SolvingContext,
)
    requires
        f.graph.edges.len() == g.graph.edges.len(),
        same_active(&f.graph, c0.trail@, &g.graph, c1.trail@),
        same_active(&g.graph, c1.trail@, &h.graph, c2.trail@),
    ensures
        same_active(&f.graph, c0.trail@, &h.graph, c2.trail@),
{
    assert forall|k: int| 0 <= k < f.graph.edges.len() implies h.graph.active_at(k, c2.trail@)
        == #[trigger] f.graph.active_at(k, c0.trail@) by {
        assert(g.graph.active_at(k, c1.trail@) == f.graph.active_at(k, c0.trail@));
    }
}

/// Bounds by way of an active edge stay bounds while edges are closed.
proof fn lemma_reach_same(
    g: &DiffLogicState,
    ctx0: &SolvingContext,
    h: &DiffLogicState,
    ctx1: &SolvingContext,
    e: int,
    incoming: Map<usize, IntVal>,
    outgoing: Map<usize, IntVal>,
)
    requires
        same_graph(&g.graph, &h.graph),
        same_active(&g.graph, ctx0.trail@, &h.graph, ctx1.trail@),
        0 <= e < g.graph.edges.len(),
        g.graph.active_at(e, ctx0.trail@),
        distances_sound(
            &g.graph,
            ctx0.trail@,
            false,
            g.graph.edges[e].to as int,
            g.graph.edges[e].val as int,
            incoming,
        ),
        distances_sound(
            &g.graph,
            ctx0.trail@,
            true,
            g.graph.edges[e].from as int,
            g.graph.edges[e].val as int,
            outgoing,
        ),
    ensures
        h.graph.active_at(e, ctx1.trail@),
        distances_sound(
            &h.graph,
            ctx1.trail@,
            false,
            h.graph.edges[e].to as int,
            h.graph.edges[e].val as int,
            incoming,
        ),
        distances_sound(
            &h.graph,
            ctx1.trail@,
            true,
            h.graph.edges[e].from as int,
            h.graph.edges[e].val as int,
            outgoing,
        ),
{
    assert(h.graph.edges[e].same_but_positions(g.graph.edges[e]));
    lemma_distances_same(
        &g.graph,
        ctx0.trail@,
        &h.graph,
        ctx1.trail@,
        false,
        g.graph.edges[e].to as int,
        g.graph.edges[e].val as int,
        incoming,
    );
    lemma_distances_same(
        &g.graph,
        ctx0.trail@,
        &h.graph,
        ctx1.trail@,
        true,
        g.graph.edges[e].from as int,
        g.graph.edges[e].val as int,
        outgoing,
    );
}

} // verus!
