//! The graph of difference constraints that the propagator works on.
//!
//! An edge from `x` to `y` of value `d` stands for `x - y <= d`. An edge without a gate is
//! active from the start. An edge with a gate is open until it is closed; where its gate is
//! fixed to hold it becomes active. What is active and what is closed is restored when the
//! search backtracks, while edges that were added stay.

use rustc_hash::FxHashMap;
use vstd::prelude::*;

use crate::helpers::fx::{map_get, map_insert, map_new, ViewKey};
use crate::helpers::shortest::lemma_repeats;
use crate::helpers::trail::{Trail, Trailed};
use crate::helpers::trailed_list::TrailedList;
use crate::helpers::trailed_open_list::{Moved, TrailedOpenList};
use crate::model::simplify::{view_key, NodeTable};
use crate::solver::view::{BoolView, IntLitMeaning, IntVal, IntView};

verus! {

/// An edge of the graph: `int_vars[from] - int_vars[to] <= val`, which holds where its gate
/// does.
#[derive(Clone, Copy, Debug, PartialEq, Eq, Hash, Structural)]
pub struct DiffEdge {
    /// The node of `x` in `x - y <= d`.
    pub from: usize,
    /// The node of `y` in `x - y <= d`.
    pub to: usize,
    /// The `d` in `x - y <= d`.
    pub val: IntVal,
    /// The gating view, if the edge has one.
    pub bool_var: Option<usize>,
    /// The position of the edge in the list of its gate, if it has one.
    pub bool_index: usize,
    /// The position of the edge in the list of open edges from its start, if it has a gate.
    pub out_index: usize,
    /// The position of the edge in the list of open edges to its end, if it has a gate.
    pub in_index: usize,
}

/// The lists that an edge with a gate is in.
#[derive(Clone, Copy, Debug, PartialEq, Eq, Structural)]
pub enum ListKind {
    /// The list of its gate.
    Gate,
    /// The list of its start.
    Out,
    /// The list of its end.
    In,
}

impl DiffEdge {
    /// Which list of a kind the edge is in.
    pub open spec fn list_of(self, kind: ListKind) -> int {
        match kind {
            ListKind::Gate => self.bool_var->0 as int,
            ListKind::Out => self.from as int,
            ListKind::In => self.to as int,
        }
    }

    /// The position of the edge in its list of a kind.
    pub open spec fn spec_position(self, kind: ListKind) -> usize {
        match kind {
            ListKind::Gate => self.bool_index,
            ListKind::Out => self.out_index,
            ListKind::In => self.in_index,
        }
    }

    /// The position of the edge in its list of a kind.
    #[verifier::when_used_as_spec(spec_position)]
    pub fn position(self, kind: ListKind) -> (r: usize)
        ensures
            r == self.position(kind),
    {
        match kind {
            ListKind::Gate => self.bool_index,
            ListKind::Out => self.out_index,
            ListKind::In => self.in_index,
        }
    }

    /// The edge with another position in its list of a kind.
    pub open spec fn moved(self, kind: ListKind, i: usize) -> DiffEdge {
        match kind {
            ListKind::Gate => DiffEdge { bool_index: i, ..self },
            ListKind::Out => DiffEdge { out_index: i, ..self },
            ListKind::In => DiffEdge { in_index: i, ..self },
        }
    }

    /// Whether the edges differ in their positions only.
    pub open spec fn same_but_positions(self, other: DiffEdge) -> bool {
        &&& self.from == other.from
        &&& self.to == other.to
        &&& self.val == other.val
        &&& self.bool_var == other.bool_var
    }
}

/// Whether the lists of a kind hold every edge with a gate once, at its position.
pub open spec fn placed(
    lists: Seq<TrailedOpenList>,
    edges: Seq<DiffEdge>,
    kind: ListKind,
) -> bool {
    &&& forall|e: int|
        0 <= e < edges.len() && (#[trigger] edges[e]).bool_var is Some ==> {
            &&& 0 <= edges[e].list_of(kind) < lists.len()
            &&& edges[e].position(kind) < lists[edges[e].list_of(kind)].items.len()
            &&& lists[edges[e].list_of(kind)].items@[edges[e].position(kind) as int] == e
        }
    &&& forall|l: int, i: int|
        0 <= l < lists.len() && 0 <= i < lists[l].items.len() ==> {
            let e = #[trigger] lists[l].items@[i] as int;
            &&& e < edges.len()
            &&& edges[e].bool_var is Some
            &&& edges[e].list_of(kind) == l
            &&& edges[e].position(kind) == i
        }
}

/// Whether the edge is closed in its list of a kind, under the given values of the trail.
pub open spec fn closed_in(
    lists: Seq<TrailedOpenList>,
    edge: DiffEdge,
    kind: ListKind,
    values: Seq<usize>,
) -> bool {
    edge.position(kind) < lists[edge.list_of(kind)].num_closed(values)
}

/// The elements with those at two positions exchanged.
pub open spec fn swapped(items: Seq<usize>, i: int, j: int) -> Seq<usize> {
    items.update(i, items[j]).update(j, items[i])
}

/// Close an edge in its list of a kind, and keep the positions of the edges up to date.
fn close_in(
    lists: &mut Vec<TrailedOpenList>,
    edges: &mut Vec<DiffEdge>,
    trail: &mut Trail,
    list: usize,
    e: usize,
    kind: ListKind,
) -> (r: bool)
    requires
        old(trail).wf(),
        placed(old(lists)@, old(edges)@, kind),
        e < old(edges).len(),
        old(edges)[e as int].bool_var is Some,
        list == old(edges)[e as int].list_of(kind),
        old(lists)[list as int].wf_at(old(trail)@),
    ensures
        final(trail).wf(),
        final(trail).same_history(old(trail)),
        placed(final(lists)@, final(edges)@, kind),
        final(lists).len() == old(lists).len(),
        final(edges).len() == old(edges).len(),
        forall|l: int|
            0 <= l < old(lists).len() ==> (#[trigger] final(lists)[l]).closed == old(
                lists,
            )[l].closed && final(lists)[l].items.len() == old(lists)[l].items.len(),
        forall|k: int|
            0 <= k < old(edges).len() ==> #[trigger] final(edges)[k] == old(edges)[k].moved(
                kind,
                final(edges)[k].position(kind),
            ),
        r == !closed_in(old(lists)@, old(edges)[e as int], kind, old(trail)@),
        !r ==> final(lists)@ == old(lists)@ && final(edges)@ == old(edges)@ && *final(trail)
            == *old(trail),
        r ==> final(trail)@ == old(trail)@.update(
            old(lists)[list as int].closed.index as int,
            (old(trail)@[old(lists)[list as int].closed.index as int] + 1) as usize,
        ),
        r ==> final(edges)[e as int].position(kind) == old(lists)[list as int].num_closed(
            old(trail)@,
        ),
        forall|l: int|
            0 <= l < old(lists).len() && l != list ==> #[trigger] final(lists)[l] == old(lists)[l],
        r ==> final(lists)[list as int].items@ == swapped(
            old(lists)[list as int].items@,
            old(edges)[e as int].position(kind) as int,
            old(lists)[list as int].num_closed(old(trail)@),
        ),
        forall|k: int|
            0 <= k < old(edges).len() && k != e && (#[trigger] old(edges)[k]).bool_var is Some && old(
                edges,
            )[k].list_of(kind) == list ==> (old(edges)[k].position(kind) < old(
                lists,
            )[list as int].num_closed(old(trail)@) <==> final(edges)[k].position(kind) < old(
                lists,
            )[list as int].num_closed(old(trail)@)) && (old(edges)[k].position(kind) < old(
                lists,
            )[list as int].num_closed(old(trail)@) ==> final(edges)[k] == old(edges)[k]) && (
            r && old(edges)[k].position(kind) >= old(lists)[list as int].num_closed(old(trail)@)
                ==> final(edges)[k].position(kind) > old(lists)[list as int].num_closed(
                old(trail)@,
            )),
        forall|k: int|
            0 <= k < old(edges).len() && (#[trigger] old(edges)[k]).bool_var is Some && old(
                edges,
            )[k].list_of(kind) != list ==> final(edges)[k] == old(edges)[k],
{
    let i: usize = edges[e].position(kind);
    let ghost lists0 = lists@;
    let ghost edges0 = edges@;
    assert(edges@[e as int].bool_var is Some);
    let r: Option<Moved> = lists[list].close(trail, i);
    match r {
        None => {
            assert(lists@ =~= lists0);
            false
        },
        Some(m) => {
            proof {
                let n = lists0[list as int].num_closed(old(trail)@);
                assert(lists0[list as int].items@[n] == m.other);
                assert(m.other < edges.len());
                assert(m.closed == e);
            }
            set_position(edges, m.other, kind, m.other_at);
            set_position(edges, m.closed, kind, m.closed_at);
            proof {
                let n = lists0[list as int].num_closed(old(trail)@);
                let other = m.other as int;
                assert forall|l: int| 0 <= l < lists.len() && l != list implies lists@[l]
                    == lists0[l] by {}
                assert forall|k: int|
                    0 <= k < edges.len() && (#[trigger] edges@[k]).bool_var is Some implies {
                    &&& 0 <= edges@[k].list_of(kind) < lists@.len()
                    &&& edges@[k].position(kind) < lists@[edges@[k].list_of(kind)].items.len()
                    &&& lists@[edges@[k].list_of(kind)].items@[edges@[k].position(kind) as int] == k
                } by {
                    assert(edges0[k].bool_var is Some);
                    assert(lists0[edges0[k].list_of(kind)].items@[edges0[k].position(kind) as int]
                        == k);
                }
                assert forall|l: int, p: int|
                    0 <= l < lists@.len() && 0 <= p < lists@[l].items.len() implies {
                    let k = #[trigger] lists@[l].items@[p] as int;
                    &&& k < edges@.len()
                    &&& edges@[k].bool_var is Some
                    &&& edges@[k].list_of(kind) == l
                    &&& edges@[k].position(kind) == p
                } by {
                    let q = if l == list && p == i {
                        n
                    } else if l == list && p == n {
                        i as int
                    } else {
                        p
                    };
                    assert(lists@[l].items@[p] == lists0[l].items@[q]);
                    let k = lists0[l].items@[q] as int;
                    assert(edges0[k].position(kind) == q);
                    assert(edges0[k].list_of(kind) == l);
                }
                assert forall|k: int|
                    0 <= k < edges0.len() && k != e && (#[trigger] edges0[k]).bool_var is Some
                        && edges0[k].list_of(kind) == list implies (edges0[k].position(kind) < n
                    <==> edges@[k].position(kind) < n) && (edges0[k].position(kind) < n
                    ==> edges@[k] == edges0[k]) && (edges0[k].position(kind) >= n
                    ==> edges@[k].position(kind) > n) by {
                    assert(lists0[list as int].items@[edges0[k].position(kind) as int] == k);
                }
                assert forall|k: int|
                    0 <= k < edges0.len() && (#[trigger] edges0[k]).bool_var is Some
                        && edges0[k].list_of(kind) != list implies edges@[k] == edges0[k] by {
                    if k == other {
                        assert(edges0[other].list_of(kind) == list);
                    }
                }
            }
            true
        },
    }
}

/// Change the position of an edge in its list of a kind.
fn set_position(edges: &mut Vec<DiffEdge>, e: usize, kind: ListKind, i: usize)
    requires
        e < old(edges).len(),
    ensures
        final(edges)@ == old(edges)@.update(e as int, old(edges)[e as int].moved(kind, i)),
{
    let mut edge: DiffEdge = edges[e];
    match kind {
        ListKind::Gate => {
            edge.bool_index = i;
        },
        ListKind::Out => {
            edge.out_index = i;
        },
        ListKind::In => {
            edge.in_index = i;
        },
    }
    edges.set(e, edge);
}


/// What a value of the trail is used for.
pub enum Slot {
    /// The length of the active edges from a node.
    ActiveOut(int),
    /// The length of the active edges to a node.
    ActiveIn(int),
    /// The closed edges from a node.
    OpenOut(int),
    /// The closed edges to a node.
    OpenIn(int),
    /// The closed edges of a gate.
    Gate(int),
    /// The number of closed edges.
    Counter,
}

/// The graph of difference constraints.
pub struct DiffGraph {
    /// The nodes.
    pub nodes: NodeTable,
    /// The number of each gate.
    pub bool_var_to_node: FxHashMap<ViewKey, usize>,
    /// The gates.
    pub bool_vars: Vec<BoolView>,
    /// The edges.
    pub edges: Vec<DiffEdge>,
    /// For each node, the active edges from it.
    pub active_out: Vec<TrailedList>,
    /// For each node, the active edges to it.
    pub active_in: Vec<TrailedList>,
    /// For each node, the edges from it that have a gate.
    pub open_out: Vec<TrailedOpenList>,
    /// For each node, the edges to it that have a gate.
    pub open_in: Vec<TrailedOpenList>,
    /// For each gate, its edges.
    pub bool_implications: Vec<TrailedOpenList>,
    /// The number of edges with a gate.
    pub num_gated_created: usize,
    /// The number of closed edges, once there is an edge with a gate.
    pub num_closed_edges: Option<Trailed>,
    /// What the values of the trail are used for.
    pub owner: Ghost<Map<usize, Slot>>,
}

/// The parts of the view as a key.
pub open spec fn spec_bool_key(view: BoolView) -> ViewKey {
    match view {
        BoolView::Const(b) => (0u8, 0usize, b, 0i64, 0i64),
        BoolView::Lit(l) => (1u8, l.var, l.negated, 0i64, 0i64),
        BoolView::Int(v, IntLitMeaning::Eq(x)) => (2u8, v, false, x, 0i64),
        BoolView::Int(v, IntLitMeaning::NotEq(x)) => (3u8, v, false, x, 0i64),
        BoolView::Int(v, IntLitMeaning::GreaterEq(x)) => (4u8, v, false, x, 0i64),
        BoolView::Int(v, IntLitMeaning::Less(x)) => (5u8, v, false, x, 0i64),
    }
}

/// The parts of the view as a key.
#[verifier::when_used_as_spec(spec_bool_key)]
pub fn bool_key(view: BoolView) -> (r: ViewKey)
    ensures
        r == bool_key(view),
{
    match view {
        BoolView::Const(b) => (0u8, 0usize, b, 0i64, 0i64),
        BoolView::Lit(l) => (1u8, l.var, l.negated, 0i64, 0i64),
        BoolView::Int(v, IntLitMeaning::Eq(x)) => (2u8, v, false, x, 0i64),
        BoolView::Int(v, IntLitMeaning::NotEq(x)) => (3u8, v, false, x, 0i64),
        BoolView::Int(v, IntLitMeaning::GreaterEq(x)) => (4u8, v, false, x, 0i64),
        BoolView::Int(v, IntLitMeaning::Less(x)) => (5u8, v, false, x, 0i64),
    }
}

/// Different views have different keys.
pub proof fn lemma_bool_key_injective(a: BoolView, b: BoolView)
    requires
        bool_key(a) == bool_key(b),
    ensures
        a == b,
{
}

/// The number of the first `k` edges that have a gate.
pub open spec fn count_gated(edges: Seq<DiffEdge>, k: int) -> int
    decreases k,
{
    if k <= 0 {
        0
    } else {
        count_gated(edges, k - 1) + if edges[k - 1].bool_var is Some {
            1int
        } else {
            0int
        }
    }
}

impl DiffGraph {
    /// The number of nodes.
    pub open spec fn size(&self) -> int {
        self.nodes.int_vars.len() as int
    }

    /// Whether the edge is closed, under the given values of the trail.
    pub open spec fn closed_at(&self, e: int, values: Seq<usize>) -> bool {
        closed_in(self.open_out@, self.edges[e], ListKind::Out, values)
    }

    /// The number of the first `k` edges that are closed.
    pub open spec fn count_closed(&self, values: Seq<usize>, k: int) -> int
        decreases k,
    {
        if k <= 0 {
            0
        } else {
            self.count_closed(values, k - 1) + if self.edges[k - 1].bool_var is Some
                && self.closed_at(k - 1, values) {
                1int
            } else {
                0int
            }
        }
    }

    /// Whether the edge is active, under the given values of the trail.
    pub open spec fn active_at(&self, e: int, values: Seq<usize>) -> bool {
        exists|i: int|
            0 <= i < self.active_out[self.edges[e].from as int].at(values).len()
                && #[trigger] self.active_out[self.edges[e].from as int].at(values)[i] == e
    }

    /// There is a list for each node and each gate, and the edges are found in their lists.
    #[verifier::opaque]
    pub open spec fn structure(&self) -> bool {
        &&& self.nodes.wf()
        &&& self.active_out.len() == self.size()
        &&& self.active_in.len() == self.size()
        &&& self.open_out.len() == self.size()
        &&& self.open_in.len() == self.size()
        &&& self.bool_implications.len() == self.bool_vars.len()
        &&& forall|i: int|
            0 <= i < self.bool_vars.len() ==> self.bool_var_to_node@.dom().contains(
                bool_key(#[trigger] self.bool_vars[i]),
            ) && self.bool_var_to_node@[bool_key(self.bool_vars[i])] == i
        &&& forall|k: ViewKey| #[trigger]
            self.bool_var_to_node@.dom().contains(k) ==> self.bool_var_to_node@[k]
                < self.bool_vars.len() && bool_key(
                self.bool_vars[self.bool_var_to_node@[k] as int],
            ) == k
        &&& forall|e: int|
            0 <= e < self.edges.len() ==> (#[trigger] self.edges[e]).from < self.size()
                && self.edges[e].to < self.size() && (self.edges[e].bool_var matches Some(b) ==> b
                < self.bool_vars.len())
        &&& placed(self.bool_implications@, self.edges@, ListKind::Gate)
        &&& placed(self.open_out@, self.edges@, ListKind::Out)
        &&& placed(self.open_in@, self.edges@, ListKind::In)
        &&& self.num_gated_created == count_gated(self.edges@, self.edges.len() as int)
        &&& self.num_gated_created > 0 ==> self.num_closed_edges is Some
    }

    /// Every list has a value of the trail of its own.
    #[verifier::opaque]
    pub open spec fn owned(&self) -> bool {
        let owner = self.owner@;
        &&& forall|n: int|
            0 <= n < self.active_out.len() ==> owned_as(
                owner,
                (#[trigger] self.active_out[n]).len,
                Slot::ActiveOut(n),
            )
        &&& forall|n: int|
            0 <= n < self.active_in.len() ==> owned_as(
                owner,
                (#[trigger] self.active_in[n]).len,
                Slot::ActiveIn(n),
            )
        &&& forall|n: int|
            0 <= n < self.open_out.len() ==> owned_as(
                owner,
                (#[trigger] self.open_out[n]).closed,
                Slot::OpenOut(n),
            )
        &&& forall|n: int|
            0 <= n < self.open_in.len() ==> owned_as(
                owner,
                (#[trigger] self.open_in[n]).closed,
                Slot::OpenIn(n),
            )
        &&& forall|b: int|
            0 <= b < self.bool_implications.len() ==> owned_as(
                owner,
                (#[trigger] self.bool_implications[b]).closed,
                Slot::Gate(b),
            )
        &&& self.num_closed_edges matches Some(t) ==> owned_as(owner, t, Slot::Counter)
    }

    /// Whether the lists fit the values of the trail, and agree with each other on what is
    /// active and what is closed.
    #[verifier::opaque]
    pub open spec fn good_at(&self, values: Seq<usize>) -> bool {
        &&& forall|s: usize| #[trigger] self.owner@.dom().contains(s) ==> s < values.len()
        &&& forall|n: int|
            0 <= n < self.active_out.len() ==> (#[trigger] self.active_out[n]).wf_at(values)
                && self.active_out[n].at(values).no_duplicates()
        &&& forall|n: int|
            0 <= n < self.active_in.len() ==> (#[trigger] self.active_in[n]).wf_at(values)
                && self.active_in[n].at(values).no_duplicates()
        &&& forall|n: int|
            0 <= n < self.open_out.len() ==> (#[trigger] self.open_out[n]).wf_at(values)
        &&& forall|n: int|
            0 <= n < self.open_in.len() ==> (#[trigger] self.open_in[n]).wf_at(values)
        &&& forall|b: int|
            0 <= b < self.bool_implications.len() ==> (#[trigger] self.bool_implications[b]).wf_at(
                values,
            )
        &&& forall|n: int, i: int|
            0 <= n < self.active_out.len() && 0 <= i < self.active_out[n].at(values).len() ==> {
                let e = #[trigger] self.active_out[n].at(values)[i] as int;
                &&& e < self.edges.len()
                &&& self.edges[e].from == n
                &&& self.active_in[self.edges[e].to as int].at(values).contains(e as usize)
            }
        &&& forall|n: int, i: int|
            0 <= n < self.active_in.len() && 0 <= i < self.active_in[n].at(values).len() ==> {
                let e = #[trigger] self.active_in[n].at(values)[i] as int;
                &&& e < self.edges.len()
                &&& self.edges[e].to == n
                &&& self.active_out[self.edges[e].from as int].at(values).contains(e as usize)
            }
        &&& forall|e: int|
            0 <= e < self.edges.len() && (#[trigger] self.edges[e]).bool_var is Some ==> {
                &&& closed_in(self.bool_implications@, self.edges[e], ListKind::Gate, values)
                    == closed_in(self.open_out@, self.edges[e], ListKind::Out, values)
                &&& closed_in(self.open_in@, self.edges[e], ListKind::In, values) == closed_in(
                    self.open_out@,
                    self.edges[e],
                    ListKind::Out,
                    values,
                )
            }
        &&& self.num_closed_edges matches Some(t) ==> values[t.index as int] == self.count_closed(
            values,
            self.edges.len() as int,
        )
    }

    /// Whether every value of the graph is at most that of the other values.
    pub open spec fn below(&self, values: Seq<usize>, later: Seq<usize>) -> bool {
        forall|s: usize| #[trigger]
            self.owner@.dom().contains(s) ==> values[s as int] <= later[s as int]
    }

    /// The graph is well formed now, and would be after backtracking to any level.
    pub open spec fn wf(&self, trail: &Trail) -> bool {
        &&& trail.wf()
        &&& self.structure()
        &&& self.owned()
        &&& self.good_at(trail@)
        &&& forall|l: int|
            0 <= l < trail.depth() ==> self.good_at(#[trigger] trail.saved(l)) && self.below(
                trail.saved(l),
                trail@,
            ) && trail.saved(l).len() == trail@.len()
        &&& forall|l: int, k: int|
            0 <= l <= k < trail.depth() ==> self.below(
                #[trigger] trail.saved(l),
                #[trigger] trail.saved(k),
            )
    }
}

/// Whether a value of the trail is used for the given purpose.
pub open spec fn owned_as(owner: Map<usize, Slot>, t: Trailed, slot: Slot) -> bool {
    owner.dom().contains(t.index) && owner[t.index] == slot
}

/// A graph that was well formed is so after backtracking: what is active, what is closed, and
/// the number of closed edges return together, whatever edges were added since.
pub proof fn lemma_backtrack_keeps_graph(
    graph: &DiffGraph,
    before: &Trail,
    after: &Trail,
    level: int,
)
    requires
        graph.wf(before),
        after.wf(),
        0 <= level < before.depth(),
        after@ == before.saved(level),
        after@.len() == before@.len(),
        after.depth() == level,
        forall|l: int| 0 <= l < level ==> #[trigger] after.saved(l) == before.saved(l),
    ensures
        graph.wf(after),
{
    assert(graph.good_at(before.saved(level)));
    assert forall|l: int| 0 <= l < after.depth() implies graph.good_at(#[trigger] after.saved(l))
        && graph.below(after.saved(l), after@) && after.saved(l).len() == after@.len() by {
        assert(after.saved(l) == before.saved(l));
        assert(graph.below(before.saved(l), before.saved(level)));
    }
    assert forall|l: int, k: int| 0 <= l <= k < after.depth() implies graph.below(
        #[trigger] after.saved(l),
        #[trigger] after.saved(k),
    ) by {
        assert(after.saved(l) == before.saved(l));
        assert(after.saved(k) == before.saved(k));
    }
}

/// A new decision level keeps the graph.
pub proof fn lemma_level_keeps_graph(graph: &DiffGraph, before: &Trail, after: &Trail)
    requires
        graph.wf(before),
        after.wf(),
        after@ == before@,
        after.depth() == before.depth() + 1,
        after.saved(before.depth() as int) == before@,
        forall|l: int| 0 <= l < before.depth() ==> #[trigger] after.saved(l) == before.saved(l),
    ensures
        graph.wf(after),
{
    let d = before.depth() as int;
    assert forall|l: int| 0 <= l < after.depth() implies graph.good_at(#[trigger] after.saved(l))
        && graph.below(after.saved(l), after@) && after.saved(l).len() == after@.len() by {
        if l < d {
            assert(after.saved(l) == before.saved(l));
        }
    }
    assert forall|l: int, k: int| 0 <= l <= k < after.depth() implies graph.below(
        #[trigger] after.saved(l),
        #[trigger] after.saved(k),
    ) by {
        if l < d {
            assert(after.saved(l) == before.saved(l));
        }
        if k < d {
            assert(after.saved(k) == before.saved(k));
        }
    }
}


proof fn lemma_count_closed_same(
    g: &DiffGraph,
    h: &DiffGraph,
    values: Seq<usize>,
    later: Seq<usize>,
    k: int,
)
    requires
        0 <= k <= g.edges.len(),
        g.edges.len() <= h.edges.len(),
        forall|e: int|
            0 <= e < k ==> (#[trigger] g.edges[e]).bool_var == h.edges[e].bool_var && (
            g.edges[e].bool_var is Some ==> g.closed_at(e, values) == h.closed_at(e, later)),
    ensures
        g.count_closed(values, k) == h.count_closed(later, k),
    decreases k,
{
    if k > 0 {
        lemma_count_closed_same(g, h, values, later, k - 1);
        assert(g.edges[k - 1].bool_var == h.edges[k - 1].bool_var);
    }
}

/// Values with zeros added for new lists.
pub open spec fn grown(values: Seq<usize>, k: nat) -> Seq<usize>
    decreases k,
{
    if k == 0 {
        values
    } else {
        grown(values, (k - 1) as nat).push(0)
    }
}

proof fn lemma_grown(values: Seq<usize>, k: nat)
    ensures
        grown(values, k).len() == values.len() + k,
        forall|i: int| 0 <= i < values.len() ==> #[trigger] grown(values, k)[i] == values[i],
        forall|i: int| values.len() <= i < values.len() + k ==> #[trigger] grown(values, k)[i] == 0,
    decreases k,
{
    if k > 0 {
        lemma_grown(values, (k - 1) as nat);
    }
}

/// Whether `h` is `g` with lists added for new nodes and gates, whose values are the last `k`
/// of the trail.
spec fn extended(g: &DiffGraph, h: &DiffGraph, len: int, k: int) -> bool {
    &&& h.edges@ == g.edges@
    &&& h.num_closed_edges == g.num_closed_edges || (g.num_closed_edges is None
        && g.num_gated_created == 0 && h.num_closed_edges is Some
        && h.num_closed_edges->0.index >= len)
    &&& h.num_gated_created == g.num_gated_created
    &&& g.active_out.len() <= h.active_out.len()
    &&& g.active_in.len() <= h.active_in.len()
    &&& g.open_out.len() <= h.open_out.len()
    &&& g.open_in.len() <= h.open_in.len()
    &&& g.bool_implications.len() <= h.bool_implications.len()
    &&& forall|n: int|
        0 <= n < h.active_out.len() ==> if n < g.active_out.len() {
            #[trigger] h.active_out[n] == g.active_out[n]
        } else {
            h.active_out[n].items@.len() == 0 && len <= h.active_out[n].len.index < len + k
        }
    &&& forall|n: int|
        0 <= n < h.active_in.len() ==> if n < g.active_in.len() {
            #[trigger] h.active_in[n] == g.active_in[n]
        } else {
            h.active_in[n].items@.len() == 0 && len <= h.active_in[n].len.index < len + k
        }
    &&& forall|n: int|
        0 <= n < h.open_out.len() ==> if n < g.open_out.len() {
            #[trigger] h.open_out[n] == g.open_out[n]
        } else {
            h.open_out[n].items@.len() == 0 && len <= h.open_out[n].closed.index < len + k
        }
    &&& forall|n: int|
        0 <= n < h.open_in.len() ==> if n < g.open_in.len() {
            #[trigger] h.open_in[n] == g.open_in[n]
        } else {
            h.open_in[n].items@.len() == 0 && len <= h.open_in[n].closed.index < len + k
        }
    &&& forall|n: int|
        0 <= n < h.bool_implications.len() ==> if n < g.bool_implications.len() {
            #[trigger] h.bool_implications[n] == g.bool_implications[n]
        } else {
            h.bool_implications[n].items@.len() == 0 && len <= h.bool_implications[n].closed.index
                < len + k
        }
    &&& forall|s: usize| #[trigger]
        h.owner@.dom().contains(s) ==> (g.owner@.dom().contains(s) || len <= s < len + k)
    &&& h.num_closed_edges matches Some(t) ==> t.index < len + k
}

proof fn lemma_extended_good(
    g: &DiffGraph,
    h: &DiffGraph,
    values: Seq<usize>,
    k: nat,
)
    requires
        g.structure(),
        g.owned(),
        g.good_at(values),
        extended(g, h, values.len() as int, k as int),
    ensures
        h.good_at(grown(values, k)),
{
    reveal(DiffGraph::good_at);
    let later = grown(values, k);
    lemma_grown(values, k);
    lemma_owned_slots(g, values);
    lemma_edges_in_range(g);
    assert forall|n: int| 0 <= n < h.active_out.len() implies (#[trigger] h.active_out[n]).wf_at(
        later,
    ) && (n < g.active_out.len() ==> h.active_out[n].at(later) == g.active_out[n].at(values)) && (n
        >= g.active_out.len() ==> h.active_out[n].at(later).len() == 0) by {
        if n < g.active_out.len() {
            assert(h.active_out[n] == g.active_out[n]);
            assert(g.active_out[n].wf_at(values));
        }
    }
    assert forall|n: int| 0 <= n < h.active_in.len() implies (#[trigger] h.active_in[n]).wf_at(
        later,
    ) && (n < g.active_in.len() ==> h.active_in[n].at(later) == g.active_in[n].at(values)) && (n
        >= g.active_in.len() ==> h.active_in[n].at(later).len() == 0) by {
        if n < g.active_in.len() {
            assert(h.active_in[n] == g.active_in[n]);
            assert(g.active_in[n].wf_at(values));
        }
    }
    assert forall|n: int| 0 <= n < h.open_out.len() implies (#[trigger] h.open_out[n]).wf_at(
        later,
    ) && (n < g.open_out.len() ==> h.open_out[n].num_closed(later) == g.open_out[n].num_closed(
        values,
    )) by {
        if n < g.open_out.len() {
            assert(h.open_out[n] == g.open_out[n]);
            assert(g.open_out[n].wf_at(values));
        }
    }
    assert forall|n: int| 0 <= n < h.open_in.len() implies (#[trigger] h.open_in[n]).wf_at(later)
        && (n < g.open_in.len() ==> h.open_in[n].num_closed(later) == g.open_in[n].num_closed(
        values,
    )) by {
        if n < g.open_in.len() {
            assert(h.open_in[n] == g.open_in[n]);
            assert(g.open_in[n].wf_at(values));
        }
    }
    assert forall|n: int| 0 <= n < h.bool_implications.len() implies (
    #[trigger] h.bool_implications[n]).wf_at(later) && (n < g.bool_implications.len()
        ==> h.bool_implications[n].num_closed(later) == g.bool_implications[n].num_closed(
        values,
    )) by {
        if n < g.bool_implications.len() {
            assert(h.bool_implications[n] == g.bool_implications[n]);
            assert(g.bool_implications[n].wf_at(values));
        }
    }
    assert forall|e: int| 0 <= e < h.edges.len() && (#[trigger] h.edges[e]).bool_var is Some implies
        closed_in(h.open_out@, h.edges[e], ListKind::Out, later) == closed_in(
        g.open_out@,
        g.edges[e],
        ListKind::Out,
        values,
    ) && closed_in(h.open_in@, h.edges[e], ListKind::In, later) == closed_in(
        g.open_in@,
        g.edges[e],
        ListKind::In,
        values,
    ) && closed_in(h.bool_implications@, h.edges[e], ListKind::Gate, later) == closed_in(
        g.bool_implications@,
        g.edges[e],
        ListKind::Gate,
        values,
    ) by {
        assert(h.edges@[e] == g.edges@[e]);
        assert(g.edges[e].from < g.size() && g.edges[e].to < g.size());
        let (a, b, c) = (
            g.edges[e].from as int,
            g.edges[e].to as int,
            g.edges[e].bool_var->0 as int,
        );
        assert(h.open_out[a].num_closed(later) == g.open_out[a].num_closed(values));
        assert(h.open_in[b].num_closed(later) == g.open_in[b].num_closed(values));
        assert(h.bool_implications[c].num_closed(later) == g.bool_implications[c].num_closed(
            values,
        ));
    }
    assert forall|e: int| 0 <= e < h.edges.len() && (#[trigger] h.edges[e]).bool_var is Some implies {
        &&& closed_in(h.bool_implications@, h.edges[e], ListKind::Gate, later) == closed_in(
            h.open_out@,
            h.edges[e],
            ListKind::Out,
            later,
        )
        &&& closed_in(h.open_in@, h.edges[e], ListKind::In, later) == closed_in(
            h.open_out@,
            h.edges[e],
            ListKind::Out,
            later,
        )
    } by {
        assert(g.edges[e].bool_var is Some);
    }
    assert forall|n: int, i: int|
        0 <= n < h.active_out.len() && 0 <= i < h.active_out[n].at(later).len() implies {
        let e = #[trigger] h.active_out[n].at(later)[i] as int;
        &&& e < h.edges.len()
        &&& h.edges[e].from == n
        &&& h.active_in[h.edges[e].to as int].at(later).contains(e as usize)
    } by {
        assert(n < g.active_out.len());
        assert(h.active_out[n].at(later) == g.active_out[n].at(values));
        let e = g.active_out[n].at(values)[i] as int;
        assert(e < g.edges.len());
        assert(h.edges@[e] == g.edges@[e]);
        assert(g.edges[e].to < g.size());
        assert(h.active_in[g.edges[e].to as int].at(later) == g.active_in[g.edges[e].to as int].at(
            values,
        ));
    }
    assert forall|n: int, i: int|
        0 <= n < h.active_in.len() && 0 <= i < h.active_in[n].at(later).len() implies {
        let e = #[trigger] h.active_in[n].at(later)[i] as int;
        &&& e < h.edges.len()
        &&& h.edges[e].to == n
        &&& h.active_out[h.edges[e].from as int].at(later).contains(e as usize)
    } by {
        assert(n < g.active_in.len());
        assert(h.active_in[n].at(later) == g.active_in[n].at(values));
        let e = g.active_in[n].at(values)[i] as int;
        assert(e < g.edges.len());
        assert(h.edges@[e] == g.edges@[e]);
        assert(g.edges[e].from < g.size());
        assert(h.active_out[g.edges[e].from as int].at(later)
            == g.active_out[g.edges[e].from as int].at(values));
    }
    assert forall|e: int| 0 <= e < g.edges.len() implies (#[trigger] g.edges[e]).bool_var
        == h.edges[e].bool_var && (g.edges[e].bool_var is Some ==> g.closed_at(e, values)
        == h.closed_at(e, later)) by {
        assert(h.edges@[e] == g.edges@[e]);
        assert(h.edges[e].bool_var is Some ==> closed_in(
            h.open_out@,
            h.edges[e],
            ListKind::Out,
            later,
        ) == closed_in(g.open_out@, g.edges[e], ListKind::Out, values));
    }
    lemma_count_closed_same(g, h, values, later, g.edges.len() as int);
    if g.num_closed_edges is None && h.num_closed_edges is Some {
        lemma_none_closed(g, values, g.edges.len() as int);
    }
}

/// Without an edge that has a gate none is closed.
proof fn lemma_none_closed(g: &DiffGraph, values: Seq<usize>, k: int)
    requires
        0 <= k <= g.edges.len(),
        g.structure(),
        g.num_gated_created == 0,
    ensures
        g.count_closed(values, k) == 0,
    decreases k,
{
    if k > 0 {
        lemma_none_closed(g, values, k - 1);
        assert(g.edges[k - 1].bool_var is None) by {
            reveal(DiffGraph::structure);
            lemma_count_gated(g.edges@, k, g.edges.len() as int);
            lemma_count_gated(g.edges@, 0, k - 1);
        }
    }
}

proof fn lemma_count_gated(edges: Seq<DiffEdge>, k: int, l: int)
    requires
        0 <= k <= l <= edges.len(),
    ensures
        0 <= count_gated(edges, k) <= count_gated(edges, l) <= l,
    decreases l,
{
    if k < l {
        lemma_count_gated(edges, k, l - 1);
    } else if k > 0 {
        lemma_count_gated(edges, k - 1, l - 1);
    }
}

proof fn lemma_owned_slots(g: &DiffGraph, values: Seq<usize>)
    requires
        g.owned(),
        g.good_at(values),
    ensures
        forall|n: int|
            0 <= n < g.active_out.len() ==> (#[trigger] g.active_out[n]).len.index < values.len(),
        forall|n: int|
            0 <= n < g.active_in.len() ==> (#[trigger] g.active_in[n]).len.index < values.len(),
        forall|n: int|
            0 <= n < g.open_out.len() ==> (#[trigger] g.open_out[n]).closed.index < values.len(),
        forall|n: int|
            0 <= n < g.open_in.len() ==> (#[trigger] g.open_in[n]).closed.index < values.len(),
        forall|n: int|
            0 <= n < g.bool_implications.len() ==> (#[trigger] g.bool_implications[n]).closed.index
                < values.len(),
        g.num_closed_edges matches Some(t) ==> t.index < values.len(),
{
    reveal(DiffGraph::owned);
    reveal(DiffGraph::good_at);
}

proof fn lemma_edges_in_range(g: &DiffGraph)
    requires
        g.structure(),
    ensures
        g.active_out.len() == g.size(),
        g.active_in.len() == g.size(),
        g.open_out.len() == g.size(),
        g.open_in.len() == g.size(),
        g.bool_implications.len() == g.bool_vars.len(),
        forall|e: int|
            0 <= e < g.edges.len() ==> (#[trigger] g.edges[e]).from < g.size() && g.edges[e].to
                < g.size() && (g.edges[e].bool_var matches Some(b) ==> b < g.bool_vars.len()),
{
    reveal(DiffGraph::structure);
}


/// Whether the edges of `g` are active and closed in `h` as they were.
pub open spec fn same_edges(
    g: &DiffGraph,
    values: Seq<usize>,
    h: &DiffGraph,
    later: Seq<usize>,
) -> bool {
    forall|e: int|
        0 <= e < g.edges.len() ==> h.active_at(e, later) == g.active_at(e, values) && (
        #[trigger] g.edges[e]).same_but_positions(h.edges[e]) && (g.edges[e].bool_var is Some
            ==> h.closed_at(e, later) == g.closed_at(e, values))
}

proof fn lemma_extended_edges(g: &DiffGraph, h: &DiffGraph, values: Seq<usize>, k: nat)
    requires
        g.structure(),
        g.owned(),
        g.good_at(values),
        extended(g, h, values.len() as int, k as int),
    ensures
        same_edges(g, values, h, grown(values, k)),
{
    let later = grown(values, k);
    lemma_grown(values, k);
    lemma_owned_slots(g, values);
    lemma_edges_in_range(g);
    assert forall|e: int| 0 <= e < g.edges.len() implies h.active_at(e, later) == g.active_at(
        e,
        values,
    ) && (#[trigger] g.edges[e]).same_but_positions(h.edges[e]) && (g.edges[e].bool_var is Some
        ==> h.closed_at(e, later) == g.closed_at(e, values)) by {
        assert(h.edges@[e] == g.edges@[e]);
        let n = g.edges[e].from as int;
        assert(h.active_out[n] == g.active_out[n]);
        assert(h.active_out[n].at(later) == g.active_out[n].at(values));
        assert(h.open_out[n] == g.open_out[n]);
    }
}

/// Whether the graph uses no values of the trail but those that it used, and new ones.
pub open spec fn owner_grown(g: &DiffGraph, before: &Trail, h: &DiffGraph) -> bool {
    forall|s: usize| #[trigger]
        h.owner@.dom().contains(s) ==> g.owner@.dom().contains(s) || s >= before@.len()
}

/// The trail with zeros added for new lists.
pub open spec fn trail_grown(before: &Trail, after: &Trail, k: nat) -> bool {
    &&& after.wf()
    &&& after@ == grown(before@, k)
    &&& after.depth() == before.depth()
    &&& forall|l: int|
        0 <= l < before.depth() ==> #[trigger] after.saved(l) == grown(before.saved(l), k)
}

proof fn lemma_extended_wf(
    g: &DiffGraph,
    h: &DiffGraph,
    before: &Trail,
    after: &Trail,
    k: nat,
)
    requires
        g.wf(before),
        trail_grown(before, after, k),
        extended(g, h, before@.len() as int, k as int),
        h.structure(),
        h.owned(),
    ensures
        h.wf(after),
        same_edges(g, before@, h, after@),
{
    lemma_extended_good(g, h, before@, k);
    lemma_extended_edges(g, h, before@, k);
    lemma_grown(before@, k);
    assert forall|l: int| 0 <= l < after.depth() implies h.good_at(#[trigger] after.saved(l))
        && h.below(after.saved(l), after@) && after.saved(l).len() == after@.len() by {
        assert(after.saved(l) == grown(before.saved(l), k));
        lemma_extended_good(g, h, before.saved(l), k);
        lemma_grown(before.saved(l), k);
        lemma_extended_below(g, h, before.saved(l), before@, k);
    }
    assert forall|l: int, j: int| 0 <= l <= j < after.depth() implies h.below(
        #[trigger] after.saved(l),
        #[trigger] after.saved(j),
    ) by {
        assert(after.saved(l) == grown(before.saved(l), k));
        assert(after.saved(j) == grown(before.saved(j), k));
        assert(g.below(before.saved(l), before.saved(j)));
        lemma_extended_below(g, h, before.saved(l), before.saved(j), k);
    }
}

proof fn lemma_extended_below(
    g: &DiffGraph,
    h: &DiffGraph,
    values: Seq<usize>,
    later: Seq<usize>,
    k: nat,
)
    requires
        g.good_at(values),
        g.below(values, later),
        values.len() == later.len(),
        extended(g, h, values.len() as int, k as int),
    ensures
        h.below(grown(values, k), grown(later, k)),
{
    lemma_grown(values, k);
    lemma_grown(later, k);
    assert forall|s: usize| #[trigger] h.owner@.dom().contains(s) implies grown(
        values,
        k,
    )[s as int] <= grown(later, k)[s as int] by {
        if g.owner@.dom().contains(s) {
            reveal(DiffGraph::good_at);
        }
    }
}

impl DiffGraph {
    /// Create a graph without nodes.
    pub fn new() -> (r: DiffGraph)
        ensures
            r.structure(),
            r.owned(),
            forall|trail: Trail|
                trail.wf() && trail.depth() == 0 ==> #[trigger] r.wf(&trail),
            r.edges@.len() == 0,
            r.bool_vars@.len() == 0,
            r.size() == 0,
    {
        let r: DiffGraph = DiffGraph {
            nodes: NodeTable::new(),
            bool_var_to_node: map_new(),
            bool_vars: Vec::new(),
            edges: Vec::new(),
            active_out: Vec::new(),
            active_in: Vec::new(),
            open_out: Vec::new(),
            open_in: Vec::new(),
            bool_implications: Vec::new(),
            num_gated_created: 0,
            num_closed_edges: None,
            owner: Ghost(Map::empty()),
        };
        proof {
            reveal(DiffGraph::structure);
            reveal(DiffGraph::owned);
            reveal(DiffGraph::good_at);
        }
        r
    }

    /// The node of an integer view, which is added unless the graph has it.
    pub fn intern_int(&mut self, trail: &mut Trail, x: IntView) -> (r: usize)
        requires
            old(self).wf(old(trail)),
        ensures
            final(self).wf(final(trail)),
            r < final(self).size(),
            final(self).nodes.int_vars[r as int] == x,
            final(self).nodes.has(x),
            final(self).nodes.number(x) == r,
            final(self).bool_var_to_node == old(self).bool_var_to_node,
            final(self).edges@ == old(self).edges@,
            final(self).bool_vars == old(self).bool_vars,
            final(self).num_gated_created == old(self).num_gated_created,
            owner_grown(old(self), old(trail), final(self)),
            old(trail)@.len() <= final(trail)@.len(),
            same_edges(old(self), old(trail)@, final(self), final(trail)@),
            if old(self).nodes.has(x) {
                *final(self) == *old(self) && *final(trail) == *old(trail)
            } else {
                &&& final(self).nodes.int_vars@ == old(self).nodes.int_vars@.push(x)
                &&& r == old(self).size()
                &&& trail_grown(old(trail), final(trail), 4)
            },
            forall|v: IntView| #[trigger]
                old(self).nodes.has(v) ==> final(self).nodes.has(v) && final(self).nodes.number(v)
                    == old(self).nodes.number(v),
    {
        let ghost g = *self;
        let ghost before = *trail;
        proof {
            lemma_edges_in_range(self);
            assert(self.nodes.wf()) by {
                reveal(DiffGraph::structure);
            }
        }
        let n: usize = self.nodes.int_vars.len();
        let known: bool = match map_get(&self.nodes.node_of, view_key(x)) {
            Some(_) => true,
            None => false,
        };
        let r: usize = self.nodes.intern(x);
        if known {
            assert(*self == g);
            return r;
        }
        let a: TrailedList = TrailedList::new(trail);
        let b: TrailedList = TrailedList::new(trail);
        let c: TrailedOpenList = TrailedOpenList::new(trail);
        let d: TrailedOpenList = TrailedOpenList::new(trail);
        let ghost base = before@.len() as int;
        proof {
            let m = self.owner@.insert(a.len.index, Slot::ActiveOut(n as int)).insert(
                b.len.index,
                Slot::ActiveIn(n as int),
            ).insert(c.closed.index, Slot::OpenOut(n as int)).insert(
                d.closed.index,
                Slot::OpenIn(n as int),
            );
            self.owner@ = m;
            assert(trail@ == grown(before@, 4)) by {
                reveal_with_fuel(grown, 5);
            }
            assert forall|l: int| 0 <= l < before.depth() implies #[trigger] trail.saved(l)
                == grown(before.saved(l), 4) by {
                reveal_with_fuel(grown, 5);
            }
        }
        self.active_out.push(a);
        self.active_in.push(b);
        self.open_out.push(c);
        self.open_in.push(d);
        proof {
            lemma_new_node(&g, self, &before, trail, a, b, c, d);
            lemma_extended_wf(&g, self, &before, trail, 4);
        }
        r
    }
}

/// The graph with a new node is structured as it was.
proof fn lemma_new_node(
    g: &DiffGraph,
    h: &DiffGraph,
    before: &Trail,
    after: &Trail,
    a: TrailedList,
    b: TrailedList,
    c: TrailedOpenList,
    d: TrailedOpenList,
)
    requires
        g.wf(before),
        a.items@.len() == 0,
        b.items@.len() == 0,
        c.items@.len() == 0,
        d.items@.len() == 0,
        a.len.index == before@.len(),
        b.len.index == before@.len() + 1,
        c.closed.index == before@.len() + 2,
        d.closed.index == before@.len() + 3,
        h.active_out@ == g.active_out@.push(a),
        h.active_in@ == g.active_in@.push(b),
        h.open_out@ == g.open_out@.push(c),
        h.open_in@ == g.open_in@.push(d),
        h.bool_implications == g.bool_implications,
        h.bool_vars == g.bool_vars,
        h.bool_var_to_node == g.bool_var_to_node,
        h.edges == g.edges,
        h.num_gated_created == g.num_gated_created,
        h.num_closed_edges == g.num_closed_edges,
        h.nodes.wf(),
        h.nodes.int_vars.len() == g.nodes.int_vars.len() + 1,
        h.owner@ == g.owner@.insert(a.len.index, Slot::ActiveOut(g.size())).insert(
            b.len.index,
            Slot::ActiveIn(g.size()),
        ).insert(c.closed.index, Slot::OpenOut(g.size())).insert(
            d.closed.index,
            Slot::OpenIn(g.size()),
        ),
    ensures
        h.structure(),
        h.owned(),
        extended(g, h, before@.len() as int, 4),
{
    lemma_owned_slots(g, before@);
    lemma_edges_in_range(g);
    let base = before@.len() as int;
    assert forall|s: usize| #[trigger] g.owner@.dom().contains(s) implies s < base by {
        reveal(DiffGraph::good_at);
    }
    assert(h.structure()) by {
        reveal(DiffGraph::structure);
        assert(placed(h.open_out@, h.edges@, ListKind::Out)) by {
            assert forall|l: int, i: int|
                0 <= l < h.open_out@.len() && 0 <= i < h.open_out@[l].items.len() implies {
                let e = #[trigger] h.open_out@[l].items@[i] as int;
                &&& e < h.edges@.len()
                &&& h.edges@[e].bool_var is Some
                &&& h.edges@[e].list_of(ListKind::Out) == l
                &&& h.edges@[e].position(ListKind::Out) == i
            } by {
                assert(h.open_out@[l] == g.open_out@[l]);
                assert(g.open_out@[l].items@[i] < g.edges@.len());
            }
        }
        assert(placed(h.open_in@, h.edges@, ListKind::In)) by {
            assert forall|l: int, i: int|
                0 <= l < h.open_in@.len() && 0 <= i < h.open_in@[l].items.len() implies {
                let e = #[trigger] h.open_in@[l].items@[i] as int;
                &&& e < h.edges@.len()
                &&& h.edges@[e].bool_var is Some
                &&& h.edges@[e].list_of(ListKind::In) == l
                &&& h.edges@[e].position(ListKind::In) == i
            } by {
                assert(h.open_in@[l] == g.open_in@[l]);
                assert(g.open_in@[l].items@[i] < g.edges@.len());
            }
        }
    }
    assert(h.owned()) by {
        reveal(DiffGraph::owned);
        assert forall|n: int| 0 <= n < h.active_out.len() implies owned_as(
            h.owner@,
            (#[trigger] h.active_out[n]).len,
            Slot::ActiveOut(n),
        ) by {
            if n < g.active_out.len() {
                assert(h.active_out@[n] == g.active_out@[n]);
                assert(owned_as(g.owner@, g.active_out[n].len, Slot::ActiveOut(n)));
            }
        }
        assert forall|n: int| 0 <= n < h.active_in.len() implies owned_as(
            h.owner@,
            (#[trigger] h.active_in[n]).len,
            Slot::ActiveIn(n),
        ) by {
            if n < g.active_in.len() {
                assert(h.active_in@[n] == g.active_in@[n]);
                assert(owned_as(g.owner@, g.active_in[n].len, Slot::ActiveIn(n)));
            }
        }
        assert forall|n: int| 0 <= n < h.open_out.len() implies owned_as(
            h.owner@,
            (#[trigger] h.open_out[n]).closed,
            Slot::OpenOut(n),
        ) by {
            if n < g.open_out.len() {
                assert(h.open_out@[n] == g.open_out@[n]);
                assert(owned_as(g.owner@, g.open_out[n].closed, Slot::OpenOut(n)));
            }
        }
        assert forall|n: int| 0 <= n < h.open_in.len() implies owned_as(
            h.owner@,
            (#[trigger] h.open_in[n]).closed,
            Slot::OpenIn(n),
        ) by {
            if n < g.open_in.len() {
                assert(h.open_in@[n] == g.open_in@[n]);
                assert(owned_as(g.owner@, g.open_in[n].closed, Slot::OpenIn(n)));
            }
        }
        assert forall|n: int| 0 <= n < h.bool_implications.len() implies owned_as(
            h.owner@,
            (#[trigger] h.bool_implications[n]).closed,
            Slot::Gate(n),
        ) by {
            assert(owned_as(g.owner@, g.bool_implications[n].closed, Slot::Gate(n)));
        }
    }
    assert(extended(g, h, base, 4));
}


impl DiffGraph {
    /// Whether the graph has the gating view.
    pub open spec fn has_gate(&self, b: BoolView) -> bool {
        self.bool_var_to_node@.dom().contains(bool_key(b))
    }

    /// The number of a gate.
    pub open spec fn gate_number(&self, b: BoolView) -> int {
        self.bool_var_to_node@[bool_key(b)] as int
    }

    /// The number of a gate, which is added unless the graph has it.
    pub fn intern_bool(&mut self, trail: &mut Trail, b: BoolView) -> (r: usize)
        requires
            old(self).wf(old(trail)),
        ensures
            final(self).wf(final(trail)),
            r < final(self).bool_vars.len(),
            final(self).bool_vars[r as int] == b,
            final(self).edges@ == old(self).edges@,
            final(self).nodes == old(self).nodes,
            final(self).num_gated_created == old(self).num_gated_created,
            owner_grown(old(self), old(trail), final(self)),
            old(trail)@.len() <= final(trail)@.len(),
            same_edges(old(self), old(trail)@, final(self), final(trail)@),
            final(self).has_gate(b),
            forall|c: BoolView| #[trigger]
                old(self).has_gate(c) ==> final(self).has_gate(c),
            if old(self).has_gate(b) {
                *final(self) == *old(self) && *final(trail) == *old(trail) && r == old(
                    self,
                ).gate_number(b)
            } else {
                &&& final(self).bool_vars@ == old(self).bool_vars@.push(b)
                &&& r == old(self).bool_vars.len()
                &&& trail_grown(old(trail), final(trail), 1)
            },
    {
        let ghost g = *self;
        let ghost before = *trail;
        let key: ViewKey = bool_key(b);
        proof {
            lemma_edges_in_range(self);
        }
        match map_get(&self.bool_var_to_node, key) {
            Some(n) => {
                proof {
                    reveal(DiffGraph::structure);
                    lemma_bool_key_injective(self.bool_vars[n as int], b);
                }
                n
            },
            None => {
                let n: usize = self.bool_vars.len();
                self.bool_vars.push(b);
                map_insert(&mut self.bool_var_to_node, key, n);
                let list: TrailedOpenList = TrailedOpenList::new(trail);
                proof {
                    self.owner@ = self.owner@.insert(list.closed.index, Slot::Gate(n as int));
                    reveal_with_fuel(grown, 2);
                }
                self.bool_implications.push(list);
                proof {
                    lemma_new_gate(&g, self, &before, list, b, key);
                    lemma_extended_wf(&g, self, &before, trail, 1);
                }
                n
            },
        }
    }

    /// Make sure that the closed edges are counted.
    fn ensure_counter(&mut self, trail: &mut Trail)
        requires
            old(self).wf(old(trail)),
        ensures
            final(self).wf(final(trail)),
            final(self).edges@ == old(self).edges@,
            final(self).nodes == old(self).nodes,
            final(self).bool_vars == old(self).bool_vars,
            final(self).num_gated_created == old(self).num_gated_created,
            final(self).bool_var_to_node == old(self).bool_var_to_node,
            final(self).num_closed_edges is Some,
            owner_grown(old(self), old(trail), final(self)),
            old(trail)@.len() <= final(trail)@.len(),
            same_edges(old(self), old(trail)@, final(self), final(trail)@),
            old(self).num_closed_edges is Some ==> *final(self) == *old(self) && *final(trail)
                == *old(trail),
            old(self).num_closed_edges is None ==> trail_grown(old(trail), final(trail), 1),
    {
        if self.num_closed_edges.is_none() {
            let ghost g = *self;
            let ghost before = *trail;
            let t: Trailed = trail.track(0);
            self.num_closed_edges = Some(t);
            proof {
                self.owner@ = self.owner@.insert(t.index, Slot::Counter);
                reveal_with_fuel(grown, 2);
                lemma_new_counter(&g, self, &before, t);
                lemma_extended_wf(&g, self, &before, trail, 1);
            }
        }
    }
}

proof fn lemma_new_gate(
    g: &DiffGraph,
    h: &DiffGraph,
    before: &Trail,
    list: TrailedOpenList,
    b: BoolView,
    key: ViewKey,
)
    requires
        g.wf(before),
        list.items@.len() == 0,
        list.closed.index == before@.len(),
        key == bool_key(b),
        !g.has_gate(b),
        h.nodes == g.nodes,
        h.active_out == g.active_out,
        h.active_in == g.active_in,
        h.open_out == g.open_out,
        h.open_in == g.open_in,
        h.bool_implications@ == g.bool_implications@.push(list),
        h.bool_vars@ == g.bool_vars@.push(b),
        h.bool_var_to_node@ == g.bool_var_to_node@.insert(key, g.bool_vars.len()),
        h.edges == g.edges,
        h.num_gated_created == g.num_gated_created,
        h.num_closed_edges == g.num_closed_edges,
        h.owner@ == g.owner@.insert(list.closed.index, Slot::Gate(g.bool_vars.len() as int)),
    ensures
        h.structure(),
        h.owned(),
        extended(g, h, before@.len() as int, 1),
{
    lemma_owned_slots(g, before@);
    lemma_edges_in_range(g);
    let base = before@.len() as int;
    let n = g.bool_vars.len() as int;
    assert forall|s: usize| #[trigger] g.owner@.dom().contains(s) implies s < base by {
        reveal(DiffGraph::good_at);
    }
    assert(h.structure()) by {
        reveal(DiffGraph::structure);
        assert(placed(h.bool_implications@, h.edges@, ListKind::Gate)) by {
            assert forall|l: int, i: int|
                0 <= l < h.bool_implications@.len() && 0 <= i < h.bool_implications@[l].items.len()
                    implies {
                let e = #[trigger] h.bool_implications@[l].items@[i] as int;
                &&& e < h.edges@.len()
                &&& h.edges@[e].bool_var is Some
                &&& h.edges@[e].list_of(ListKind::Gate) == l
                &&& h.edges@[e].position(ListKind::Gate) == i
            } by {
                assert(h.bool_implications@[l] == g.bool_implications@[l]);
                assert(g.bool_implications@[l].items@[i] < g.edges@.len());
            }
        }
        assert forall|i: int| 0 <= i < h.bool_vars.len() implies h.bool_var_to_node@.dom().contains(
            bool_key(#[trigger] h.bool_vars[i]),
        ) && h.bool_var_to_node@[bool_key(h.bool_vars[i])] == i by {
            if i < n {
                assert(h.bool_vars@[i] == g.bool_vars@[i]);
                assert(g.bool_var_to_node@.dom().contains(bool_key(g.bool_vars[i])));
            }
        }
        assert forall|k: ViewKey| #[trigger] h.bool_var_to_node@.dom().contains(k) implies
            h.bool_var_to_node@[k] < h.bool_vars.len() && bool_key(
            h.bool_vars[h.bool_var_to_node@[k] as int],
        ) == k by {
            if k != key {
                assert(g.bool_var_to_node@.dom().contains(k));
            }
        }
    }
    assert(h.owned()) by {
        reveal(DiffGraph::owned);
        assert forall|i: int| 0 <= i < h.bool_implications.len() implies owned_as(
            h.owner@,
            (#[trigger] h.bool_implications[i]).closed,
            Slot::Gate(i),
        ) by {
            if i < n {
                assert(h.bool_implications@[i] == g.bool_implications@[i]);
                assert(owned_as(g.owner@, g.bool_implications[i].closed, Slot::Gate(i)));
            }
        }
    }
}

proof fn lemma_new_counter(g: &DiffGraph, h: &DiffGraph, before: &Trail, t: Trailed)
    requires
        g.wf(before),
        t.index == before@.len(),
        g.num_closed_edges is None,
        h.nodes == g.nodes,
        h.active_out == g.active_out,
        h.active_in == g.active_in,
        h.open_out == g.open_out,
        h.open_in == g.open_in,
        h.bool_implications == g.bool_implications,
        h.bool_vars == g.bool_vars,
        h.bool_var_to_node == g.bool_var_to_node,
        h.edges == g.edges,
        h.num_gated_created == g.num_gated_created,
        h.num_closed_edges == Some(t),
        h.owner@ == g.owner@.insert(t.index, Slot::Counter),
    ensures
        h.structure(),
        h.owned(),
        extended(g, h, before@.len() as int, 1),
{
    lemma_owned_slots(g, before@);
    lemma_edges_in_range(g);
    let base = before@.len() as int;
    assert forall|s: usize| #[trigger] g.owner@.dom().contains(s) implies s < base by {
        reveal(DiffGraph::good_at);
    }
    assert(g.num_gated_created == 0 && h.structure()) by {
        reveal(DiffGraph::structure);
    }
    assert(h.owned()) by {
        reveal(DiffGraph::owned);
    }
}


/// A list with an edge added is placed if the edge knows its position.
proof fn lemma_placed_push(
    lists: Seq<TrailedOpenList>,
    later: Seq<TrailedOpenList>,
    edges: Seq<DiffEdge>,
    edge: DiffEdge,
    kind: ListKind,
)
    requires
        placed(lists, edges, kind),
        edge.bool_var is Some,
        0 <= edge.list_of(kind) < lists.len(),
        edge.position(kind) == lists[edge.list_of(kind)].items.len(),
        edges.len() <= usize::MAX,
        later.len() == lists.len(),
        later[edge.list_of(kind)].items@ == lists[edge.list_of(kind)].items@.push(
            edges.len() as usize,
        ),
        forall|l: int|
            0 <= l < lists.len() && l != edge.list_of(kind) ==> #[trigger] later[l] == lists[l],
    ensures
        placed(later, edges.push(edge), kind),
{
    let after = edges.push(edge);
    let t = edge.list_of(kind);
    assert forall|e: int| 0 <= e < after.len() && (#[trigger] after[e]).bool_var is Some implies {
        &&& 0 <= after[e].list_of(kind) < later.len()
        &&& after[e].position(kind) < later[after[e].list_of(kind)].items.len()
        &&& later[after[e].list_of(kind)].items@[after[e].position(kind) as int] == e
    } by {
        if e < edges.len() {
            assert(after[e] == edges[e]);
        }
    }
    assert forall|l: int, i: int| 0 <= l < later.len() && 0 <= i < later[l].items.len() implies {
        let e = #[trigger] later[l].items@[i] as int;
        &&& e < after.len()
        &&& after[e].bool_var is Some
        &&& after[e].list_of(kind) == l
        &&& after[e].position(kind) == i
    } by {
        if l != t || i < lists[t].items.len() {
            assert(later[l].items@[i] == lists[l].items@[i]);
            let e = lists[l].items@[i] as int;
            assert(e < edges.len());
            assert(after[e] == edges[e]);
        }
    }
}

/// Whether `h` is `g` with an edge added to its lists.
spec fn with_open_edge(g: &DiffGraph, h: &DiffGraph, edge: DiffEdge) -> bool {
    let e = g.edges.len();
    &&& edge.bool_var is Some
    &&& edge.from < g.size()
    &&& edge.to < g.size()
    &&& (edge.bool_var->0) < g.bool_vars.len()
    &&& edge.bool_index == g.bool_implications[edge.bool_var->0 as int].items.len()
    &&& edge.out_index == g.open_out[edge.from as int].items.len()
    &&& edge.in_index == g.open_in[edge.to as int].items.len()
    &&& h.edges@ == g.edges@.push(edge)
    &&& h.nodes == g.nodes
    &&& h.bool_vars == g.bool_vars
    &&& h.bool_var_to_node == g.bool_var_to_node
    &&& h.active_out == g.active_out
    &&& h.active_in == g.active_in
    &&& h.owner == g.owner
    &&& h.num_closed_edges == g.num_closed_edges
    &&& h.num_closed_edges is Some
    &&& h.num_gated_created == g.num_gated_created + 1
    &&& pushed_to(g.bool_implications@, h.bool_implications@, edge.bool_var->0 as int, e)
    &&& pushed_to(g.open_out@, h.open_out@, edge.from as int, e)
    &&& pushed_to(g.open_in@, h.open_in@, edge.to as int, e)
}

/// Whether the lists are the others with an element added to one.
spec fn pushed_to(
    lists: Seq<TrailedOpenList>,
    later: Seq<TrailedOpenList>,
    l: int,
    e: usize,
) -> bool {
    &&& later.len() == lists.len()
    &&& later[l].items@ == lists[l].items@.push(e)
    &&& later[l].closed == lists[l].closed
    &&& forall|k: int| 0 <= k < lists.len() && k != l ==> #[trigger] later[k] == lists[k]
}

proof fn lemma_open_edge_good(g: &DiffGraph, h: &DiffGraph, edge: DiffEdge, values: Seq<usize>)
    requires
        g.structure(),
        g.owned(),
        g.good_at(values),
        with_open_edge(g, h, edge),
    ensures
        h.good_at(values),
        same_edges(g, values, h, values),
        !h.active_at(g.edges.len() as int, values),
        !h.closed_at(g.edges.len() as int, values),
{
    lemma_edges_in_range(g);
    reveal(DiffGraph::good_at);
    let m = g.edges.len() as int;
    assert forall|n: int| 0 <= n < h.open_out.len() implies (#[trigger] h.open_out[n]).wf_at(
        values,
    ) && h.open_out[n].num_closed(values) == g.open_out[n].num_closed(values) by {
        assert(g.open_out[n].wf_at(values));
        assert(h.open_out@[n].closed == g.open_out@[n].closed);
    }
    assert forall|n: int| 0 <= n < h.open_in.len() implies (#[trigger] h.open_in[n]).wf_at(values)
        && h.open_in[n].num_closed(values) == g.open_in[n].num_closed(values) by {
        assert(g.open_in[n].wf_at(values));
        assert(h.open_in@[n].closed == g.open_in@[n].closed);
    }
    assert forall|n: int| 0 <= n < h.bool_implications.len() implies (
    #[trigger] h.bool_implications[n]).wf_at(values) && h.bool_implications[n].num_closed(values)
        == g.bool_implications[n].num_closed(values) by {
        assert(g.bool_implications[n].wf_at(values));
        assert(h.bool_implications@[n].closed == g.bool_implications@[n].closed);
    }
    assert forall|e: int| 0 <= e < m implies #[trigger] h.edges[e] == g.edges[e] by {
        assert(h.edges@[e] == g.edges@[e]);
    }
    assert(h.edges[m] == edge);
    assert forall|e: int| 0 <= e < h.edges.len() && (#[trigger] h.edges[e]).bool_var is Some implies {
        &&& closed_in(h.bool_implications@, h.edges[e], ListKind::Gate, values) == closed_in(
            h.open_out@,
            h.edges[e],
            ListKind::Out,
            values,
        )
        &&& closed_in(h.open_in@, h.edges[e], ListKind::In, values) == closed_in(
            h.open_out@,
            h.edges[e],
            ListKind::Out,
            values,
        )
    } by {
        if e < m {
            assert(g.edges[e].bool_var is Some);
            let (a, b, c) = (
                g.edges[e].from as int,
                g.edges[e].to as int,
                g.edges[e].bool_var->0 as int,
            );
            assert(h.open_out[a].num_closed(values) == g.open_out[a].num_closed(values));
            assert(h.open_in[b].num_closed(values) == g.open_in[b].num_closed(values));
            assert(h.bool_implications[c].num_closed(values)
                == g.bool_implications[c].num_closed(values));
        } else {
            assert(g.open_out[edge.from as int].wf_at(values));
            assert(g.open_in[edge.to as int].wf_at(values));
            assert(g.bool_implications[edge.bool_var->0 as int].wf_at(values));
            assert(h.open_out[edge.from as int].num_closed(values) == g.open_out[edge.from as int]
                .num_closed(values));
            assert(h.open_in[edge.to as int].num_closed(values) == g.open_in[edge.to as int].num_closed(values));
            assert(h.bool_implications[edge.bool_var->0 as int].num_closed(values)
                == g.bool_implications[edge.bool_var->0 as int].num_closed(values));
        }
    }
    assert forall|n: int, i: int|
        0 <= n < h.active_out.len() && 0 <= i < h.active_out[n].at(values).len() implies {
        let e = #[trigger] h.active_out[n].at(values)[i] as int;
        &&& e < h.edges.len()
        &&& h.edges[e].from == n
        &&& h.active_in[h.edges[e].to as int].at(values).contains(e as usize)
    } by {
        let e = g.active_out[n].at(values)[i] as int;
        assert(e < g.edges.len());
        assert(h.edges[e] == g.edges[e]);
    }
    assert forall|n: int, i: int|
        0 <= n < h.active_in.len() && 0 <= i < h.active_in[n].at(values).len() implies {
        let e = #[trigger] h.active_in[n].at(values)[i] as int;
        &&& e < h.edges.len()
        &&& h.edges[e].to == n
        &&& h.active_out[h.edges[e].from as int].at(values).contains(e as usize)
    } by {
        let e = g.active_in[n].at(values)[i] as int;
        assert(e < g.edges.len());
        assert(h.edges[e] == g.edges[e]);
    }
    assert forall|e: int| 0 <= e < m implies (#[trigger] g.edges[e]).bool_var
        == h.edges[e].bool_var && (g.edges[e].bool_var is Some ==> g.closed_at(e, values)
        == h.closed_at(e, values)) by {
        assert(h.edges[e] == g.edges[e]);
        let a = g.edges[e].from as int;
        assert(h.open_out[a].num_closed(values) == g.open_out[a].num_closed(values));
    }
    lemma_count_closed_same(g, h, values, values, m);
    assert(h.open_out[edge.from as int].num_closed(values)
        == g.open_out[edge.from as int].num_closed(values));
    assert(!h.closed_at(m, values)) by {
        assert(g.open_out[edge.from as int].wf_at(values));
    }
    assert(!h.active_at(m, values)) by {
        if h.active_at(m, values) {
            let n = edge.from as int;
            let i = choose|i: int|
                0 <= i < h.active_out[h.edges[m].from as int].at(values).len()
                    && #[trigger] h.active_out[h.edges[m].from as int].at(values)[i] == m;
            assert(g.active_out[n].at(values)[i] == m);
        }
    }
    assert forall|e: int| 0 <= e < g.edges.len() implies h.active_at(e, values) == g.active_at(
        e,
        values,
    ) && (#[trigger] g.edges[e]).same_but_positions(h.edges[e]) && (g.edges[e].bool_var is Some
        ==> h.closed_at(e, values) == g.closed_at(e, values)) by {
        assert(h.edges[e] == g.edges[e]);
    }
}

proof fn lemma_open_edge_wf(g: &DiffGraph, h: &DiffGraph, edge: DiffEdge, trail: &Trail)
    requires
        g.wf(trail),
        with_open_edge(g, h, edge),
    ensures
        h.wf(trail),
        same_edges(g, trail@, h, trail@),
        !h.active_at(g.edges.len() as int, trail@),
        !h.closed_at(g.edges.len() as int, trail@),
{
    lemma_open_edge_good(g, h, edge, trail@);
    lemma_edges_in_range(g);
    assert(h.structure()) by {
        reveal(DiffGraph::structure);
        lemma_placed_push(
            g.bool_implications@,
            h.bool_implications@,
            g.edges@,
            edge,
            ListKind::Gate,
        );
        lemma_placed_push(g.open_out@, h.open_out@, g.edges@, edge, ListKind::Out);
        lemma_placed_push(g.open_in@, h.open_in@, g.edges@, edge, ListKind::In);
        lemma_count_gated_push(g.edges@, edge, g.edges.len() as int);
        assert forall|e: int| 0 <= e < h.edges.len() implies (#[trigger] h.edges[e]).from < h.size()
            && h.edges[e].to < h.size() && (h.edges[e].bool_var matches Some(b) ==> b
            < h.bool_vars.len()) by {
            if e < g.edges.len() {
                assert(h.edges@[e] == g.edges@[e]);
                assert(g.edges[e].from < g.size());
            }
        }
    }
    assert(h.owned()) by {
        reveal(DiffGraph::owned);
    }
    assert forall|l: int| 0 <= l < trail.depth() implies h.good_at(#[trigger] trail.saved(l))
        && h.below(trail.saved(l), trail@) && trail.saved(l).len() == trail@.len() by {
        lemma_open_edge_good(g, h, edge, trail.saved(l));
    }
    assert forall|l: int, k: int| 0 <= l <= k < trail.depth() implies h.below(
        #[trigger] trail.saved(l),
        #[trigger] trail.saved(k),
    ) by {
        assert(g.below(trail.saved(l), trail.saved(k)));
    }
}

proof fn lemma_count_gated_push(edges: Seq<DiffEdge>, edge: DiffEdge, k: int)
    requires
        0 <= k <= edges.len(),
    ensures
        count_gated(edges.push(edge), k) == count_gated(edges, k),
    decreases k,
{
    if k > 0 {
        lemma_count_gated_push(edges, edge, k - 1);
    }
}


/// Whether `h` is `g` with an edge added to the active lists of its ends, and the values of
/// the trail follow.
spec fn with_active_edge(
    g: &DiffGraph,
    h: &DiffGraph,
    e: int,
    values: Seq<usize>,
    later: Seq<usize>,
) -> bool {
    let (a, b) = (g.edges[e].from as int, g.edges[e].to as int);
    &&& 0 <= e < g.edges.len() <= usize::MAX
    &&& h.nodes == g.nodes
    &&& h.bool_vars == g.bool_vars
    &&& h.bool_var_to_node == g.bool_var_to_node
    &&& h.edges == g.edges
    &&& h.open_out == g.open_out
    &&& h.open_in == g.open_in
    &&& h.bool_implications == g.bool_implications
    &&& h.num_gated_created == g.num_gated_created
    &&& h.num_closed_edges == g.num_closed_edges
    &&& h.owner == g.owner
    &&& later == values.update(
        g.active_out[a].len.index as int,
        (values[g.active_out[a].len.index as int] + 1) as usize,
    ).update(
        g.active_in[b].len.index as int,
        (values[g.active_in[b].len.index as int] + 1) as usize,
    )
    &&& active_push(g.active_out@, h.active_out@, a, e as usize, values, later)
    &&& active_push(g.active_in@, h.active_in@, b, e as usize, values, later)
}

/// Whether the lists are the others with an element added to one, which lists that are not
/// longer do not see.
spec fn active_push(
    lists: Seq<TrailedList>,
    after: Seq<TrailedList>,
    l: int,
    e: usize,
    values: Seq<usize>,
    later: Seq<usize>,
) -> bool {
    &&& after.len() == lists.len()
    &&& after[l].len == lists[l].len
    &&& after[l].wf_at(later)
    &&& after[l].at(later) == lists[l].at(values).push(e)
    &&& forall|u: Seq<usize>|
        lists[l].wf_at(u) && u[lists[l].len.index as int] <= values[lists[l].len.index as int]
            ==> #[trigger] after[l].wf_at(u) && after[l].at(u) == lists[l].at(u)
    &&& forall|k: int| 0 <= k < lists.len() && k != l ==> #[trigger] after[k] == lists[k]
}

/// An earlier level does not see the new active edge.
proof fn lemma_active_edge_saved(
    g: &DiffGraph,
    h: &DiffGraph,
    e: int,
    values: Seq<usize>,
    later: Seq<usize>,
    u: Seq<usize>,
)
    requires
        g.structure(),
        g.owned(),
        g.good_at(values),
        g.good_at(u),
        g.below(u, values),
        with_active_edge(g, h, e, values, later),
    ensures
        h.good_at(u),
{
    lemma_edges_in_range(g);
    reveal(DiffGraph::good_at);
    reveal(DiffGraph::owned);
    assert forall|n: int| 0 <= n < h.active_out.len() implies (#[trigger] h.active_out[n]).wf_at(u)
        && h.active_out[n].at(u) == g.active_out[n].at(u) by {
        assert(g.active_out[n].wf_at(u));
        assert(owned_as(g.owner@, g.active_out[n].len, Slot::ActiveOut(n)));
        if n == g.edges[e].from {
            assert(h.active_out@[n].wf_at(u));
        } else {
            assert(h.active_out@[n] == g.active_out@[n]);
        }
    }
    assert forall|n: int| 0 <= n < h.active_in.len() implies (#[trigger] h.active_in[n]).wf_at(u)
        && h.active_in[n].at(u) == g.active_in[n].at(u) by {
        assert(g.active_in[n].wf_at(u));
        assert(owned_as(g.owner@, g.active_in[n].len, Slot::ActiveIn(n)));
        if n == g.edges[e].to {
            assert(h.active_in@[n].wf_at(u));
        } else {
            assert(h.active_in@[n] == g.active_in@[n]);
        }
    }
    assert forall|n: int, i: int|
        0 <= n < h.active_out.len() && 0 <= i < h.active_out[n].at(u).len() implies {
        let k = #[trigger] h.active_out[n].at(u)[i] as int;
        &&& k < h.edges.len()
        &&& h.edges[k].from == n
        &&& h.active_in[h.edges[k].to as int].at(u).contains(k as usize)
    } by {
        let k = g.active_out[n].at(u)[i] as int;
        assert(k < g.edges.len());
        assert(g.edges[k].to < g.size());
        assert(h.active_in[g.edges[k].to as int].at(u) == g.active_in[g.edges[k].to as int].at(u));
    }
    assert forall|n: int, i: int|
        0 <= n < h.active_in.len() && 0 <= i < h.active_in[n].at(u).len() implies {
        let k = #[trigger] h.active_in[n].at(u)[i] as int;
        &&& k < h.edges.len()
        &&& h.edges[k].to == n
        &&& h.active_out[h.edges[k].from as int].at(u).contains(k as usize)
    } by {
        let k = g.active_in[n].at(u)[i] as int;
        assert(k < g.edges.len());
        assert(g.edges[k].from < g.size());
        assert(h.active_out[g.edges[k].from as int].at(u) == g.active_out[g.edges[k].from as int].at(
            u,
        ));
    }
    lemma_count_closed_same(g, h, u, u, g.edges.len() as int);
}

/// The current level sees the new active edge.
proof fn lemma_active_edge_now(
    g: &DiffGraph,
    h: &DiffGraph,
    e: int,
    values: Seq<usize>,
    later: Seq<usize>,
)
    requires
        g.structure(),
        g.owned(),
        g.good_at(values),
        !g.active_at(e, values),
        with_active_edge(g, h, e, values, later),
    ensures
        h.good_at(later),
        h.active_at(e, later),
        forall|k: int|
            0 <= k < g.edges.len() && k != e ==> h.active_at(k, later) == #[trigger] g.active_at(
                k,
                values,
            ),
        forall|k: int|
            0 <= k < g.edges.len() && (#[trigger] g.edges[k]).bool_var is Some ==> h.closed_at(
                k,
                later,
            ) == g.closed_at(k, values),
        g.below(values, later),
{
    lemma_edges_in_range(g);
    lemma_owned_slots(g, values);
    reveal(DiffGraph::good_at);
    reveal(DiffGraph::owned);
    let (a, b) = (g.edges[e].from as int, g.edges[e].to as int);
    assert(a < g.size() && b < g.size());
    let (sa, sb) = (g.active_out[a].len.index, g.active_in[b].len.index);
    assert(owned_as(g.owner@, g.active_out[a].len, Slot::ActiveOut(a)));
    assert(owned_as(g.owner@, g.active_in[b].len, Slot::ActiveIn(b)));
    assert forall|n: int| 0 <= n < h.active_out.len() implies (#[trigger] h.active_out[n]).wf_at(
        later,
    ) && h.active_out[n].at(later) == if n == a {
        g.active_out[n].at(values).push(e as usize)
    } else {
        g.active_out[n].at(values)
    } by {
        assert(g.active_out[n].wf_at(values));
        assert(owned_as(g.owner@, g.active_out[n].len, Slot::ActiveOut(n)));
        if n != a {
            assert(h.active_out@[n] == g.active_out@[n]);
        }
    }
    assert forall|n: int| 0 <= n < h.active_in.len() implies (#[trigger] h.active_in[n]).wf_at(
        later,
    ) && h.active_in[n].at(later) == if n == b {
        g.active_in[n].at(values).push(e as usize)
    } else {
        g.active_in[n].at(values)
    } by {
        assert(g.active_in[n].wf_at(values));
        assert(owned_as(g.owner@, g.active_in[n].len, Slot::ActiveIn(n)));
        if n != b {
            assert(h.active_in@[n] == g.active_in@[n]);
        }
    }
    assert forall|n: int| 0 <= n < h.open_out.len() implies (#[trigger] h.open_out[n]).wf_at(later)
        && h.open_out[n].num_closed(later) == g.open_out[n].num_closed(values) by {
        assert(g.open_out[n].wf_at(values));
        assert(owned_as(g.owner@, g.open_out[n].closed, Slot::OpenOut(n)));
    }
    assert forall|n: int| 0 <= n < h.open_in.len() implies (#[trigger] h.open_in[n]).wf_at(later)
        && h.open_in[n].num_closed(later) == g.open_in[n].num_closed(values) by {
        assert(g.open_in[n].wf_at(values));
        assert(owned_as(g.owner@, g.open_in[n].closed, Slot::OpenIn(n)));
    }
    assert forall|n: int| 0 <= n < h.bool_implications.len() implies (
    #[trigger] h.bool_implications[n]).wf_at(later) && h.bool_implications[n].num_closed(later)
        == g.bool_implications[n].num_closed(values) by {
        assert(g.bool_implications[n].wf_at(values));
        assert(owned_as(g.owner@, g.bool_implications[n].closed, Slot::Gate(n)));
    }
    assert forall|k: int| 0 <= k < g.edges.len() && (#[trigger] g.edges[k]).bool_var is Some implies
        closed_in(h.open_out@, g.edges[k], ListKind::Out, later) == closed_in(
        g.open_out@,
        g.edges[k],
        ListKind::Out,
        values,
    ) && closed_in(h.open_in@, g.edges[k], ListKind::In, later) == closed_in(
        g.open_in@,
        g.edges[k],
        ListKind::In,
        values,
    ) && closed_in(h.bool_implications@, g.edges[k], ListKind::Gate, later) == closed_in(
        g.bool_implications@,
        g.edges[k],
        ListKind::Gate,
        values,
    ) by {
        let (x, y, z) = (
            g.edges[k].from as int,
            g.edges[k].to as int,
            g.edges[k].bool_var->0 as int,
        );
        assert(h.open_out[x].num_closed(later) == g.open_out[x].num_closed(values));
        assert(h.open_in[y].num_closed(later) == g.open_in[y].num_closed(values));
        assert(h.bool_implications[z].num_closed(later) == g.bool_implications[z].num_closed(
            values,
        ));
    }
    lemma_count_closed_same(g, h, values, later, g.edges.len() as int);
    assert forall|n: int, i: int|
        0 <= n < h.active_out.len() && 0 <= i < h.active_out[n].at(later).len() implies {
        let k = #[trigger] h.active_out[n].at(later)[i] as int;
        &&& k < h.edges.len()
        &&& h.edges[k].from == n
        &&& h.active_in[h.edges[k].to as int].at(later).contains(k as usize)
    } by {
        let k = h.active_out[n].at(later)[i] as int;
        if n == a && i == g.active_out[n].at(values).len() {
            assert(k == e);
            let old_list = g.active_in[b].at(values);
            assert(h.active_in[b].at(later)[old_list.len() as int] == e as usize);
        } else {
            assert(k == g.active_out[n].at(values)[i]);
            assert(k < g.edges.len());
            let t = g.edges[k].to as int;
            assert(t < g.size());
            let old_list = g.active_in[t].at(values);
            assert(old_list.contains(k as usize));
            let j = old_list.index_of(k as usize);
            assert(h.active_in[t].at(later)[j] == k as usize);
        }
    }
    assert forall|n: int, i: int|
        0 <= n < h.active_in.len() && 0 <= i < h.active_in[n].at(later).len() implies {
        let k = #[trigger] h.active_in[n].at(later)[i] as int;
        &&& k < h.edges.len()
        &&& h.edges[k].to == n
        &&& h.active_out[h.edges[k].from as int].at(later).contains(k as usize)
    } by {
        let k = h.active_in[n].at(later)[i] as int;
        if n == b && i == g.active_in[n].at(values).len() {
            assert(k == e);
            let old_list = g.active_out[a].at(values);
            assert(h.active_out[a].at(later)[old_list.len() as int] == e as usize);
        } else {
            assert(k == g.active_in[n].at(values)[i]);
            assert(k < g.edges.len());
            let t = g.edges[k].from as int;
            assert(t < g.size());
            let old_list = g.active_out[t].at(values);
            assert(old_list.contains(k as usize));
            let j = old_list.index_of(k as usize);
            assert(h.active_out[t].at(later)[j] == k as usize);
        }
    }
    if let Some(t) = g.num_closed_edges {
        assert(owned_as(g.owner@, t, Slot::Counter));
    }
    lemma_inactive_room(g, e, values);
    assert forall|n: int| 0 <= n < h.active_out.len() implies (#[trigger] h.active_out[n]).wf_at(
        later,
    ) && h.active_out[n].at(later).no_duplicates() by {
        assert(g.active_out[n].at(values).no_duplicates());
        assert(h.active_out[n].at(later) == if n == a {
            g.active_out[n].at(values).push(e as usize)
        } else {
            g.active_out[n].at(values)
        });
    }
    assert forall|n: int| 0 <= n < h.active_in.len() implies (#[trigger] h.active_in[n]).wf_at(
        later,
    ) && h.active_in[n].at(later).no_duplicates() by {
        assert(g.active_in[n].at(values).no_duplicates());
        assert(h.active_in[n].at(later) == if n == b {
            g.active_in[n].at(values).push(e as usize)
        } else {
            g.active_in[n].at(values)
        });
    }
    assert(h.active_at(e, later)) by {
        assert(h.active_out[a].at(later)[g.active_out[a].at(values).len() as int] == e);
    }
    assert forall|k: int| 0 <= k < g.edges.len() && k != e implies h.active_at(k, later)
        == #[trigger] g.active_at(k, values) by {
        let n = g.edges[k].from as int;
        assert(n < g.size());
        if g.active_at(k, values) {
            let i = choose|i: int|
                0 <= i < g.active_out[g.edges[k].from as int].at(values).len()
                    && #[trigger] g.active_out[g.edges[k].from as int].at(values)[i] == k;
            assert(h.active_out[n].at(later)[i] == k);
        }
        if h.active_at(k, later) {
            let i = choose|i: int|
                0 <= i < h.active_out[h.edges[k].from as int].at(later).len()
                    && #[trigger] h.active_out[h.edges[k].from as int].at(later)[i] == k;
            if n == a && i == g.active_out[n].at(values).len() {
            } else {
                assert(g.active_out[n].at(values)[i] == k);
            }
        }
    }
    assert forall|s: usize| #[trigger] g.owner@.dom().contains(s) implies values[s as int]
        <= later[s as int] by {}
}

/// An edge that is not active is in neither active list, which therefore have room for it.
proof fn lemma_inactive_room(g: &DiffGraph, e: int, values: Seq<usize>)
    requires
        g.structure(),
        g.good_at(values),
        0 <= e < g.edges.len() <= usize::MAX,
        !g.active_at(e, values),
    ensures
        !g.active_out[g.edges[e].from as int].at(values).contains(e as usize),
        !g.active_in[g.edges[e].to as int].at(values).contains(e as usize),
        g.active_out[g.edges[e].from as int].at(values).len() < g.edges.len(),
        g.active_in[g.edges[e].to as int].at(values).len() < g.edges.len(),
{
    lemma_edges_in_range(g);
    reveal(DiffGraph::good_at);
    let (a, b) = (g.edges[e].from as int, g.edges[e].to as int);
    let outs = g.active_out[a].at(values);
    let ins = g.active_in[b].at(values);
    assert(a < g.size() && b < g.size());
    assert(!outs.contains(e as usize)) by {
        if outs.contains(e as usize) {
            let i = outs.index_of(e as usize);
            assert(g.active_out[g.edges[e].from as int].at(values)[i] == e);
        }
    }
    assert(!ins.contains(e as usize)) by {
        if ins.contains(e as usize) {
            let i = ins.index_of(e as usize);
            assert(g.active_in[b].at(values)[i] == e);
        }
    }
    let m = g.edges.len() as int;
    assert(g.active_out[a].wf_at(values) && g.active_in[b].wf_at(values));
    assert forall|i: int| 0 <= i < outs.len() implies 0 <= #[trigger] outs[i] < m by {
        assert(g.active_out[a].at(values)[i] < g.edges.len());
    }
    assert forall|i: int| 0 <= i < ins.len() implies 0 <= #[trigger] ins[i] < m by {
        assert(g.active_in[b].at(values)[i] < g.edges.len());
    }
    lemma_distinct_indices(outs, e as usize, m);
    lemma_distinct_indices(ins, e as usize, m);
}

proof fn lemma_distinct_indices(list: Seq<usize>, e: usize, m: int)
    requires
        list.no_duplicates(),
        !list.contains(e),
        0 <= e < m,
        forall|i: int| 0 <= i < list.len() ==> 0 <= #[trigger] list[i] < m,
    ensures
        list.len() < m,
{
    let all = list.push(e).map_values(|v: usize| v as int);
    if list.len() >= m {
        let (i, j) = lemma_repeats(all, m);
        if j < list.len() {
            assert(list[i] == list[j]);
        } else {
            assert(list[i] == e);
        }
    }
}

impl DiffGraph {
    /// An edge that is active under smaller values is so under larger ones.
    pub proof fn lemma_active_below(&self, values: Seq<usize>, later: Seq<usize>, e: int)
        requires
            self.structure(),
            self.owned(),
            self.good_at(values),
            self.good_at(later),
            self.below(values, later),
            0 <= e < self.edges.len(),
            self.active_at(e, values),
        ensures
            self.active_at(e, later),
    {
        lemma_edges_in_range(self);
        let n = self.edges[e].from as int;
        self.lemma_active_wf(values, n);
        self.lemma_active_wf(later, n);
        assert(owned_as(self.owner@, self.active_out[n].len, Slot::ActiveOut(n))) by {
            reveal(DiffGraph::owned);
            reveal(DiffGraph::structure);
        }
        let i = choose|i: int|
            0 <= i < self.active_out[self.edges[e].from as int].at(values).len()
                && #[trigger] self.active_out[self.edges[e].from as int].at(values)[i] == e;
        assert(self.active_out[n].at(later)[i] == e);
    }

    /// The list of active edges of a node fits the trail.
    proof fn lemma_active_wf(&self, values: Seq<usize>, n: int)
        requires
            self.structure(),
            self.good_at(values),
            0 <= n < self.size(),
        ensures
            self.active_out[n].wf_at(values),
    {
        reveal(DiffGraph::structure);
        reveal(DiffGraph::good_at);
    }
}

impl DiffGraph {
    /// Make an edge active.
    pub fn activate_imp_edge(&mut self, trail: &mut Trail, index: usize)
        requires
            old(self).wf(old(trail)),
            index < old(self).edges.len(),
            !old(self).active_at(index as int, old(trail)@),
        ensures
            final(self).wf(final(trail)),
            final(self).nodes == old(self).nodes,
            final(self).bool_vars == old(self).bool_vars,
            final(self).bool_var_to_node == old(self).bool_var_to_node,
            final(self).edges == old(self).edges,
            final(self).owner == old(self).owner,
            final(self).num_gated_created == old(self).num_gated_created,
            final(self).num_closed_edges == old(self).num_closed_edges,
            final(self).active_at(index as int, final(trail)@),
            forall|k: int|
                0 <= k < old(self).edges.len() && k != index ==> final(self).active_at(
                    k,
                    final(trail)@,
                ) == #[trigger] old(self).active_at(k, old(trail)@),
            forall|k: int|
                0 <= k < old(self).edges.len() && (#[trigger] old(self).edges[k]).bool_var is Some
                    ==> final(self).closed_at(k, final(trail)@) == old(self).closed_at(
                    k,
                    old(trail)@,
                ),
            final(trail).depth() == old(trail).depth(),
            final(trail)@.len() == old(trail)@.len(),
            forall|l: int|
                0 <= l < final(trail).depth() ==> !final(self).active_at(
                    index as int,
                    #[trigger] final(trail).saved(l),
                ),
    {
        let edge: DiffEdge = self.edges[index];
        let ghost g = *self;
        let ghost before = *trail;
        proof {
            lemma_edges_in_range(self);
            assert(self.edges[index as int].from < self.size());
            assert(self.active_out[edge.from as int].wf_at(trail@)
                && self.active_in[edge.to as int].wf_at(trail@)) by {
                reveal(DiffGraph::good_at);
            }
            lemma_inactive_room(self, index as int, trail@);
            assert(owned_as(
                g.owner@,
                g.active_out[edge.from as int].len,
                Slot::ActiveOut(edge.from as int),
            ) && owned_as(
                g.owner@,
                g.active_in[edge.to as int].len,
                Slot::ActiveIn(edge.to as int),
            )) by {
                reveal(DiffGraph::owned);
            }
        }
        self.active_out[edge.from].push(trail, index);
        let ghost mid = trail@;
        let ghost outs = self.active_out@;
        proof {
            assert(self.active_in[edge.to as int].wf_at(trail@));
        }
        self.active_in[edge.to].push(trail, index);
        proof {
            let (a, b) = (edge.from as int, edge.to as int);
            let (sa, sb) = (g.active_out[a].len.index as int, g.active_in[b].len.index as int);
            assert(sa != sb);
            assert(active_push(
                g.active_out@,
                self.active_out@,
                a,
                index,
                before@,
                trail@,
            )) by {
                assert(self.active_out@ == outs);
                assert(trail@[sa] == mid[sa]);
                assert(outs[a].len == g.active_out[a].len);
                assert(outs[a].at(mid) == g.active_out[a].at(before@).push(index));
                assert(outs[a].at(trail@) =~= outs[a].at(mid));
                assert forall|u: Seq<usize>|
                    g.active_out@[a].wf_at(u) && u[sa] <= before@[sa] implies
                    #[trigger] outs[a].wf_at(u) && outs[a].at(u) == g.active_out@[a].at(u) by {}
                assert forall|k: int| 0 <= k < outs.len() && k != a implies #[trigger] outs[k]
                    == g.active_out@[k] by {}
            }
            assert(active_push(g.active_in@, self.active_in@, b, index, before@, trail@)) by {
                assert(g.active_in[b].at(mid) =~= g.active_in[b].at(before@));
            }
            assert(with_active_edge(&g, self, index as int, before@, trail@));
            lemma_active_edge_now(&g, self, index as int, before@, trail@);
            assert(self.structure()) by {
                reveal(DiffGraph::structure);
            }
            assert(self.owned()) by {
                reveal(DiffGraph::owned);
                assert forall|n: int| 0 <= n < self.active_out.len() implies owned_as(
                    self.owner@,
                    (#[trigger] self.active_out[n]).len,
                    Slot::ActiveOut(n),
                ) by {
                    assert(owned_as(g.owner@, g.active_out[n].len, Slot::ActiveOut(n)));
                }
                assert forall|n: int| 0 <= n < self.active_in.len() implies owned_as(
                    self.owner@,
                    (#[trigger] self.active_in[n]).len,
                    Slot::ActiveIn(n),
                ) by {
                    assert(owned_as(g.owner@, g.active_in[n].len, Slot::ActiveIn(n)));
                }
            }
            assert forall|l: int| 0 <= l < trail.depth() implies !self.active_at(
                index as int,
                #[trigger] trail.saved(l),
            ) by {
                let u = trail.saved(l);
                assert(u == before.saved(l));
                assert(g.good_at(u) && g.below(u, before@));
                if self.active_at(index as int, u) {
                    g.lemma_active_wf(u, a);
                    g.lemma_active_wf(before@, a);
                    assert(g.owner@.dom().contains(g.active_out[a].len.index));
                    assert(self.active_out[a].at(u) == g.active_out[a].at(u));
                    let i = choose|i: int|
                        0 <= i < self.active_out[self.edges[index as int].from as int].at(u).len()
                            && #[trigger] self.active_out[self.edges[index as int].from as int].at(
                            u,
                        )[i] == index;
                    assert(g.active_out[a].at(before@)[i] == index);
                    assert(g.active_at(index as int, before@));
                }
            }
            assert forall|l: int| 0 <= l < trail.depth() implies self.good_at(
                #[trigger] trail.saved(l),
            ) && self.below(trail.saved(l), trail@) && trail.saved(l).len() == trail@.len() by {
                assert(trail.saved(l) == before.saved(l));
                lemma_active_edge_saved(
                    &g,
                    self,
                    index as int,
                    before@,
                    trail@,
                    before.saved(l),
                );
                assert(g.below(before.saved(l), before@));
                assert forall|s: usize| #[trigger] self.owner@.dom().contains(s) implies
                    trail.saved(l)[s as int] <= trail@[s as int] by {
                    assert(g.owner@.dom().contains(s));
                }
            }
            assert forall|l: int, k: int| 0 <= l <= k < trail.depth() implies self.below(
                #[trigger] trail.saved(l),
                #[trigger] trail.saved(k),
            ) by {
                assert(trail.saved(l) == before.saved(l));
                assert(trail.saved(k) == before.saved(k));
                assert(g.below(before.saved(l), before.saved(k)));
            }
        }
    }
}


/// Whether `h` is `g` with an edge that is in no list.
spec fn with_plain_edge(g: &DiffGraph, h: &DiffGraph, edge: DiffEdge) -> bool {
    &&& edge.bool_var is None
    &&& edge.from < g.size()
    &&& edge.to < g.size()
    &&& h.edges@ == g.edges@.push(edge)
    &&& h.nodes == g.nodes
    &&& h.bool_vars == g.bool_vars
    &&& h.bool_var_to_node == g.bool_var_to_node
    &&& h.active_out == g.active_out
    &&& h.active_in == g.active_in
    &&& h.open_out == g.open_out
    &&& h.open_in == g.open_in
    &&& h.bool_implications == g.bool_implications
    &&& h.owner == g.owner
    &&& h.num_closed_edges == g.num_closed_edges
    &&& h.num_gated_created == g.num_gated_created
}

proof fn lemma_plain_edge_good(g: &DiffGraph, h: &DiffGraph, edge: DiffEdge, values: Seq<usize>)
    requires
        g.structure(),
        g.good_at(values),
        with_plain_edge(g, h, edge),
    ensures
        h.good_at(values),
        same_edges(g, values, h, values),
        !h.active_at(g.edges.len() as int, values),
{
    lemma_edges_in_range(g);
    reveal(DiffGraph::good_at);
    let m = g.edges.len() as int;
    assert forall|e: int| 0 <= e < m implies #[trigger] h.edges[e] == g.edges[e] by {
        assert(h.edges@[e] == g.edges@[e]);
    }
    assert(h.edges[m] == edge);
    assert forall|e: int| 0 <= e < h.edges.len() && (#[trigger] h.edges[e]).bool_var is Some implies {
        &&& closed_in(h.bool_implications@, h.edges[e], ListKind::Gate, values) == closed_in(
            h.open_out@,
            h.edges[e],
            ListKind::Out,
            values,
        )
        &&& closed_in(h.open_in@, h.edges[e], ListKind::In, values) == closed_in(
            h.open_out@,
            h.edges[e],
            ListKind::Out,
            values,
        )
    } by {
        assert(e < m);
        assert(g.edges[e].bool_var is Some);
    }
    assert forall|n: int, i: int|
        0 <= n < h.active_out.len() && 0 <= i < h.active_out[n].at(values).len() implies {
        let e = #[trigger] h.active_out[n].at(values)[i] as int;
        &&& e < h.edges.len()
        &&& h.edges[e].from == n
        &&& h.active_in[h.edges[e].to as int].at(values).contains(e as usize)
    } by {
        let e = g.active_out[n].at(values)[i] as int;
        assert(e < g.edges.len());
        assert(h.edges[e] == g.edges[e]);
    }
    assert forall|n: int, i: int|
        0 <= n < h.active_in.len() && 0 <= i < h.active_in[n].at(values).len() implies {
        let e = #[trigger] h.active_in[n].at(values)[i] as int;
        &&& e < h.edges.len()
        &&& h.edges[e].to == n
        &&& h.active_out[h.edges[e].from as int].at(values).contains(e as usize)
    } by {
        let e = g.active_in[n].at(values)[i] as int;
        assert(e < g.edges.len());
        assert(h.edges[e] == g.edges[e]);
    }
    lemma_count_closed_same(g, h, values, values, m);
    assert(!h.active_at(m, values)) by {
        if h.active_at(m, values) {
            let n = edge.from as int;
            let i = choose|i: int|
                0 <= i < h.active_out[h.edges[m].from as int].at(values).len()
                    && #[trigger] h.active_out[h.edges[m].from as int].at(values)[i] == m;
            assert(g.active_out[n].at(values)[i] == m);
        }
    }
    assert forall|e: int| 0 <= e < g.edges.len() implies h.active_at(e, values) == g.active_at(
        e,
        values,
    ) && (#[trigger] g.edges[e]).same_but_positions(h.edges[e]) && (g.edges[e].bool_var is Some
        ==> h.closed_at(e, values) == g.closed_at(e, values)) by {
        assert(h.edges[e] == g.edges[e]);
    }
}

/// An edge without a gate does not change what the lists hold.
proof fn lemma_placed_plain(
    lists: Seq<TrailedOpenList>,
    edges: Seq<DiffEdge>,
    edge: DiffEdge,
    kind: ListKind,
)
    requires
        placed(lists, edges, kind),
        edge.bool_var is None,
    ensures
        placed(lists, edges.push(edge), kind),
{
    let after = edges.push(edge);
    assert forall|e: int| 0 <= e < after.len() && (#[trigger] after[e]).bool_var is Some implies {
        &&& 0 <= after[e].list_of(kind) < lists.len()
        &&& after[e].position(kind) < lists[after[e].list_of(kind)].items.len()
        &&& lists[after[e].list_of(kind)].items@[after[e].position(kind) as int] == e
    } by {
        assert(after[e] == edges[e]);
    }
    assert forall|l: int, i: int| 0 <= l < lists.len() && 0 <= i < lists[l].items.len() implies {
        let e = #[trigger] lists[l].items@[i] as int;
        &&& e < after.len()
        &&& after[e].bool_var is Some
        &&& after[e].list_of(kind) == l
        &&& after[e].position(kind) == i
    } by {
        let e = lists[l].items@[i] as int;
        assert(e < edges.len());
        assert(after[e] == edges[e]);
    }
}

proof fn lemma_plain_edge_wf(g: &DiffGraph, h: &DiffGraph, edge: DiffEdge, trail: &Trail)
    requires
        g.wf(trail),
        with_plain_edge(g, h, edge),
    ensures
        h.wf(trail),
        same_edges(g, trail@, h, trail@),
        !h.active_at(g.edges.len() as int, trail@),
{
    lemma_plain_edge_good(g, h, edge, trail@);
    lemma_edges_in_range(g);
    assert(h.structure()) by {
        reveal(DiffGraph::structure);
        lemma_placed_plain(g.bool_implications@, g.edges@, edge, ListKind::Gate);
        lemma_placed_plain(g.open_out@, g.edges@, edge, ListKind::Out);
        lemma_placed_plain(g.open_in@, g.edges@, edge, ListKind::In);
        lemma_count_gated_push(g.edges@, edge, g.edges.len() as int);
        assert forall|e: int| 0 <= e < h.edges.len() implies (#[trigger] h.edges[e]).from < h.size()
            && h.edges[e].to < h.size() && (h.edges[e].bool_var matches Some(b) ==> b
            < h.bool_vars.len()) by {
            if e < g.edges.len() {
                assert(h.edges@[e] == g.edges@[e]);
                assert(g.edges[e].from < g.size());
            }
        }
    }
    assert(h.owned()) by {
        reveal(DiffGraph::owned);
    }
    assert forall|l: int| 0 <= l < trail.depth() implies h.good_at(#[trigger] trail.saved(l))
        && h.below(trail.saved(l), trail@) && trail.saved(l).len() == trail@.len() by {
        lemma_plain_edge_good(g, h, edge, trail.saved(l));
    }
    assert forall|l: int, k: int| 0 <= l <= k < trail.depth() implies h.below(
        #[trigger] trail.saved(l),
        #[trigger] trail.saved(k),
    ) by {
        assert(g.below(trail.saved(l), trail.saved(k)));
    }
}

pub proof fn lemma_same_edges_join(
    f: &DiffGraph,
    u: Seq<usize>,
    g: &DiffGraph,
    v: Seq<usize>,
    h: &DiffGraph,
    w: Seq<usize>,
)
    requires
        same_edges(f, u, g, v),
        same_edges(g, v, h, w),
        f.edges.len() <= g.edges.len(),
    ensures
        same_edges(f, u, h, w),
{
    assert forall|e: int| 0 <= e < f.edges.len() implies h.active_at(e, w) == f.active_at(e, u) && (
    #[trigger] f.edges[e]).same_but_positions(h.edges[e]) && (f.edges[e].bool_var is Some
        ==> h.closed_at(e, w) == f.closed_at(e, u)) by {
        assert(g.active_at(e, v) == f.active_at(e, u) && f.edges[e].same_but_positions(g.edges[e]));
        assert(g.edges[e].same_but_positions(h.edges[e]));
    }
}

impl DiffGraph {
    /// Add the edge `x - y <= d`. Without a gate it is active at once, otherwise it is open.
    pub fn register_edge(
        &mut self,
        trail: &mut Trail,
        x: IntView,
        y: IntView,
        d: IntVal,
        gate: Option<BoolView>,
    ) -> (r: usize)
        requires
            old(self).wf(old(trail)),
            old(self).edges.len() < usize::MAX,
        ensures
            final(self).wf(final(trail)),
            r == old(self).edges.len(),
            final(self).edges.len() == r + 1,
            ({
                let edge = final(self).edges[r as int];
                &&& edge.from < final(self).size()
                &&& edge.to < final(self).size()
                &&& final(self).nodes.int_vars[edge.from as int] == x
                &&& final(self).nodes.int_vars[edge.to as int] == y
                &&& edge.val == d
                &&& match gate {
                    None => edge.bool_var is None && final(self).active_at(
                        r as int,
                        final(trail)@,
                    ),
                    Some(b) => {
                        &&& edge.bool_var matches Some(n)
                        &&& edge.bool_var->0 < final(self).bool_vars.len()
                        &&& final(self).bool_vars[edge.bool_var->0 as int] == b
                        &&& !final(self).active_at(r as int, final(trail)@)
                        &&& !final(self).closed_at(r as int, final(trail)@)
                    },
                }
            }),
            owner_grown(old(self), old(trail), final(self)),
            old(trail)@.len() <= final(trail)@.len(),
            same_edges(old(self), old(trail)@, final(self), final(trail)@),
            final(self).num_gated_created == old(self).num_gated_created + if gate is Some {
                1int
            } else {
                0int
            },
            old(self).size() <= final(self).size(),
            forall|n: int|
                0 <= n < old(self).size() ==> #[trigger] final(self).nodes.int_vars[n] == old(
                    self,
                ).nodes.int_vars[n],
            old(self).bool_vars.len() <= final(self).bool_vars.len(),
            forall|n: int|
                0 <= n < old(self).bool_vars.len() ==> #[trigger] final(self).bool_vars[n] == old(
                    self,
                ).bool_vars[n],
            gate matches Some(b) ==> (old(self).has_gate(b) ==> final(self).bool_vars
                == old(self).bool_vars),
            forall|c: BoolView| #[trigger]
                old(self).has_gate(c) ==> final(self).has_gate(c),
            old(self).nodes.has(x) && old(self).nodes.has(y) ==> final(self).nodes
                == old(self).nodes,
            final(trail).depth() == old(trail).depth(),
    {
        let ghost g0 = *self;
        let ghost t0 = *trail;
        let from: usize = self.intern_int(trail, x);
        let ghost g1 = *self;
        let ghost t1 = *trail;
        let to: usize = self.intern_int(trail, y);
        let ghost g2 = *self;
        let ghost t2 = *trail;
        proof {
            lemma_same_edges_join(&g0, t0@, &g1, t1@, &g2, t2@);
        }
        let index: usize = self.edges.len();
        match gate {
            Some(b) => {
                let bool_var: usize = self.intern_bool(trail, b);
                let ghost g3 = *self;
                let ghost t3 = *trail;
                self.ensure_counter(trail);
                let ghost g4 = *self;
                let ghost t4 = *trail;
                proof {
                    lemma_same_edges_join(&g0, t0@, &g2, t2@, &g3, t3@);
                    lemma_same_edges_join(&g0, t0@, &g3, t3@, &g4, t4@);
                    lemma_edges_in_range(self);
                    assert(self.num_gated_created <= self.edges.len()) by {
                        reveal(DiffGraph::structure);
                        lemma_count_gated(self.edges@, 0, self.edges.len() as int);
                    }
                }
                let edge: DiffEdge = DiffEdge {
                    from,
                    to,
                    val: d,
                    bool_var: Some(bool_var),
                    bool_index: self.bool_implications[bool_var].len(),
                    out_index: self.open_out[from].len(),
                    in_index: self.open_in[to].len(),
                };
                self.bool_implications[bool_var].push(index);
                self.open_out[from].push(index);
                self.open_in[to].push(index);
                self.num_gated_created = self.num_gated_created + 1;
                self.edges.push(edge);
                proof {
                    assert(with_open_edge(&g4, self, edge));
                    lemma_open_edge_wf(&g4, self, edge, trail);
                    lemma_same_edges_join(&g0, t0@, &g4, t4@, self, trail@);
                    assert forall|c: BoolView| #[trigger] g0.has_gate(c) implies self.has_gate(
                        c,
                    ) by {
                        assert(g2.has_gate(c));
                        assert(g3.has_gate(c));
                    }
                }
            },
            None => {
                let edge: DiffEdge = DiffEdge {
                    from,
                    to,
                    val: d,
                    bool_var: None,
                    bool_index: 0,
                    out_index: 0,
                    in_index: 0,
                };
                self.edges.push(edge);
                let ghost g3 = *self;
                proof {
                    lemma_plain_edge_wf(&g2, self, edge, trail);
                    lemma_same_edges_join(&g0, t0@, &g2, t2@, self, trail@);
                }
                self.activate_imp_edge(trail, index);
                proof {
                    assert(same_edges(&g0, t0@, self, trail@)) by {
                        assert forall|e: int| 0 <= e < g0.edges.len() implies self.active_at(
                            e,
                            trail@,
                        ) == g0.active_at(e, t0@) && (#[trigger] g0.edges[e]).same_but_positions(
                            self.edges[e],
                        ) && (g0.edges[e].bool_var is Some ==> self.closed_at(e, trail@)
                            == g0.closed_at(e, t0@)) by {
                            assert(g3.active_at(e, t2@) == g0.active_at(e, t0@));
                            assert(g3.edges[e].bool_var is Some ==> self.closed_at(e, trail@)
                                == g3.closed_at(e, t2@));
                        }
                    }
                }
            },
        }
        index
    }
}


/// What closing an edge in its list of a kind does to the lists and the positions.
spec fn closes(
    lists: Seq<TrailedOpenList>,
    after: Seq<TrailedOpenList>,
    edges: Seq<DiffEdge>,
    later: Seq<DiffEdge>,
    e: int,
    kind: ListKind,
    n: int,
) -> bool {
    let t = edges[e].list_of(kind);
    &&& after.len() == lists.len()
    &&& later.len() == edges.len()
    &&& forall|l: int|
        0 <= l < lists.len() ==> (#[trigger] after[l]).closed == lists[l].closed
            && after[l].items.len() == lists[l].items.len()
    &&& forall|k: int|
        0 <= k < edges.len() ==> (#[trigger] later[k]).same_but_positions(edges[k])
    &&& edges[e].position(kind) >= n
    &&& later[e].position(kind) == n
    &&& forall|k: int|
        0 <= k < edges.len() && k != e && (#[trigger] edges[k]).bool_var is Some
            && edges[k].list_of(kind) == t ==> if edges[k].position(kind) < n {
            later[k].position(kind) == edges[k].position(kind)
        } else {
            later[k].position(kind) > n
        }
    &&& forall|k: int|
        0 <= k < edges.len() && (#[trigger] edges[k]).bool_var is Some && edges[k].list_of(kind)
            != t ==> later[k].position(kind) == edges[k].position(kind)
}

/// A level at which fewer elements are closed does not see that an edge was closed.
proof fn lemma_closes_saved(
    lists: Seq<TrailedOpenList>,
    after: Seq<TrailedOpenList>,
    edges: Seq<DiffEdge>,
    later: Seq<DiffEdge>,
    e: int,
    kind: ListKind,
    n: int,
    u: Seq<usize>,
    k: int,
)
    requires
        placed(lists, edges, kind),
        closes(lists, after, edges, later, e, kind, n),
        0 <= e < edges.len(),
        edges[e].bool_var is Some,
        0 <= k < edges.len(),
        edges[k].bool_var is Some,
        lists[edges[e].list_of(kind)].num_closed(u) <= n,
    ensures
        closed_in(after, later[k], kind, u) == closed_in(lists, edges[k], kind, u),
{
    let t = edges[k].list_of(kind);
    assert(0 <= t < lists.len());
    assert(later[k].same_but_positions(edges[k]));
    assert(after[t].closed == lists[t].closed);
    assert(edges[e].bool_var is Some);
}

/// The current level sees that the edge was closed, and nothing else.
proof fn lemma_closes_now(
    lists: Seq<TrailedOpenList>,
    after: Seq<TrailedOpenList>,
    edges: Seq<DiffEdge>,
    later: Seq<DiffEdge>,
    e: int,
    kind: ListKind,
    n: int,
    values: Seq<usize>,
    now: Seq<usize>,
    k: int,
)
    requires
        placed(lists, edges, kind),
        closes(lists, after, edges, later, e, kind, n),
        0 <= e < edges.len(),
        edges[e].bool_var is Some,
        0 <= k < edges.len(),
        edges[k].bool_var is Some,
        lists[edges[e].list_of(kind)].num_closed(values) == n,
        lists[edges[e].list_of(kind)].num_closed(now) == n + 1,
        edges[k].list_of(kind) != edges[e].list_of(kind) ==> lists[edges[k].list_of(
            kind,
        )].num_closed(now) == lists[edges[k].list_of(kind)].num_closed(values),
    ensures
        closed_in(after, later[k], kind, now) == (k == e || closed_in(
            lists,
            edges[k],
            kind,
            values,
        )),
{
    let t = edges[k].list_of(kind);
    assert(0 <= t < lists.len());
    assert(later[k].same_but_positions(edges[k]));
    assert(after[t].closed == lists[t].closed);
    assert(edges[e].bool_var is Some);
    assert(later[e].same_but_positions(edges[e]));
}

/// Whether `h` is `g` with an edge closed in its lists, and the values of the trail follow.
spec fn with_closed_edge(
    g: &DiffGraph,
    h: &DiffGraph,
    e: int,
    values: Seq<usize>,
    now: Seq<usize>,
) -> bool {
    let (a, b, c) = (
        g.edges[e].from as int,
        g.edges[e].to as int,
        g.edges[e].bool_var->0 as int,
    );
    let (sa, sb, sc, sn) = (
        g.open_out[a].closed.index as int,
        g.open_in[b].closed.index as int,
        g.bool_implications[c].closed.index as int,
        g.num_closed_edges->0.index as int,
    );
    &&& 0 <= e < g.edges.len()
    &&& g.edges[e].bool_var is Some
    &&& g.num_closed_edges is Some
    &&& h.nodes == g.nodes
    &&& h.bool_vars == g.bool_vars
    &&& h.bool_var_to_node == g.bool_var_to_node
    &&& h.active_out == g.active_out
    &&& h.active_in == g.active_in
    &&& h.num_gated_created == g.num_gated_created
    &&& h.num_closed_edges == g.num_closed_edges
    &&& h.owner == g.owner
    &&& now == values.update(sc, (values[sc] + 1) as usize).update(
        sa,
        (values[sa] + 1) as usize,
    ).update(sb, (values[sb] + 1) as usize).update(sn, (values[sn] + 1) as usize)
    &&& closes(
        g.bool_implications@,
        h.bool_implications@,
        g.edges@,
        h.edges@,
        e,
        ListKind::Gate,
        values[sc] as int,
    )
    &&& closes(
        g.open_out@,
        h.open_out@,
        g.edges@,
        h.edges@,
        e,
        ListKind::Out,
        values[sa] as int,
    )
    &&& closes(g.open_in@, h.open_in@, g.edges@, h.edges@, e, ListKind::In, values[sb] as int)
    &&& placed(h.bool_implications@, h.edges@, ListKind::Gate)
    &&& placed(h.open_out@, h.edges@, ListKind::Out)
    &&& placed(h.open_in@, h.edges@, ListKind::In)
}

/// Lists keep their lengths and their values of the trail when an edge is closed.
proof fn lemma_closed_lists(
    g: &DiffGraph,
    h: &DiffGraph,
    e: int,
    values: Seq<usize>,
    now: Seq<usize>,
    u: Seq<usize>,
)
    requires
        g.structure(),
        g.owned(),
        g.good_at(u),
        with_closed_edge(g, h, e, values, now),
    ensures
        h.edges.len() == g.edges.len(),
        forall|s: usize| #[trigger] h.owner@.dom().contains(s) ==> s < u.len(),
        forall|n: int|
            0 <= n < h.active_out.len() ==> (#[trigger] h.active_out[n]).wf_at(u)
                && h.active_out[n].at(u).no_duplicates(),
        forall|n: int|
            0 <= n < h.active_in.len() ==> (#[trigger] h.active_in[n]).wf_at(u)
                && h.active_in[n].at(u).no_duplicates(),
        forall|n: int|
            0 <= n < h.active_out.len() && 0 <= n ==> (#[trigger] h.active_out[n]).at(u)
                == g.active_out[n].at(u),
        forall|n: int, i: int|
            0 <= n < h.active_out.len() && 0 <= i < h.active_out[n].at(u).len() ==> {
                let k = #[trigger] h.active_out[n].at(u)[i] as int;
                &&& k < h.edges.len()
                &&& h.edges[k].from == n
                &&& h.active_in[h.edges[k].to as int].at(u).contains(k as usize)
            },
        forall|n: int, i: int|
            0 <= n < h.active_in.len() && 0 <= i < h.active_in[n].at(u).len() ==> {
                let k = #[trigger] h.active_in[n].at(u)[i] as int;
                &&& k < h.edges.len()
                &&& h.edges[k].to == n
                &&& h.active_out[h.edges[k].from as int].at(u).contains(k as usize)
            },
        forall|n: int|
            0 <= n < h.open_out.len() ==> (#[trigger] h.open_out[n]).wf_at(u) && h.open_out[n].closed
                == g.open_out[n].closed,
        forall|n: int|
            0 <= n < h.open_in.len() ==> (#[trigger] h.open_in[n]).wf_at(u) && h.open_in[n].closed
                == g.open_in[n].closed,
        forall|n: int|
            0 <= n < h.bool_implications.len() ==> (#[trigger] h.bool_implications[n]).wf_at(u)
                && h.bool_implications[n].closed == g.bool_implications[n].closed,
{
    lemma_edges_in_range(g);
    reveal(DiffGraph::good_at);
    assert forall|k: int| 0 <= k < g.edges.len() implies (
    #[trigger] h.edges[k]).same_but_positions(g.edges[k]) by {
        assert(h.edges@[k].same_but_positions(g.edges@[k]));
    }
    assert forall|n: int| 0 <= n < h.open_out.len() implies (#[trigger] h.open_out[n]).wf_at(u)
        && h.open_out[n].closed == g.open_out[n].closed by {
        assert(h.open_out@[n].closed == g.open_out@[n].closed);
        assert(g.open_out[n].wf_at(u));
    }
    assert forall|n: int| 0 <= n < h.open_in.len() implies (#[trigger] h.open_in[n]).wf_at(u)
        && h.open_in[n].closed == g.open_in[n].closed by {
        assert(h.open_in@[n].closed == g.open_in@[n].closed);
        assert(g.open_in[n].wf_at(u));
    }
    assert forall|n: int| 0 <= n < h.bool_implications.len() implies (
    #[trigger] h.bool_implications[n]).wf_at(u) && h.bool_implications[n].closed
        == g.bool_implications[n].closed by {
        assert(h.bool_implications@[n].closed == g.bool_implications@[n].closed);
        assert(g.bool_implications[n].wf_at(u));
    }
    assert forall|n: int, i: int|
        0 <= n < h.active_out.len() && 0 <= i < h.active_out[n].at(u).len() implies {
        let k = #[trigger] h.active_out[n].at(u)[i] as int;
        &&& k < h.edges.len()
        &&& h.edges[k].from == n
        &&& h.active_in[h.edges[k].to as int].at(u).contains(k as usize)
    } by {
        let k = g.active_out[n].at(u)[i] as int;
        assert(k < g.edges.len());
        assert(h.edges[k].same_but_positions(g.edges[k]));
    }
    assert forall|n: int, i: int|
        0 <= n < h.active_in.len() && 0 <= i < h.active_in[n].at(u).len() implies {
        let k = #[trigger] h.active_in[n].at(u)[i] as int;
        &&& k < h.edges.len()
        &&& h.edges[k].to == n
        &&& h.active_out[h.edges[k].from as int].at(u).contains(k as usize)
    } by {
        let k = g.active_in[n].at(u)[i] as int;
        assert(k < g.edges.len());
        assert(h.edges[k].same_but_positions(g.edges[k]));
    }
}

proof fn lemma_closed_edge_saved(
    g: &DiffGraph,
    h: &DiffGraph,
    e: int,
    values: Seq<usize>,
    now: Seq<usize>,
    u: Seq<usize>,
)
    requires
        g.structure(),
        g.owned(),
        g.good_at(values),
        g.good_at(u),
        g.below(u, values),
        with_closed_edge(g, h, e, values, now),
    ensures
        h.good_at(u),
{
    lemma_closed_lists(g, h, e, values, now, u);
    lemma_edges_in_range(g);
    let (a, b, c) = (
        g.edges[e].from as int,
        g.edges[e].to as int,
        g.edges[e].bool_var->0 as int,
    );
    assert(g.open_out[a].num_closed(u) <= values[g.open_out[a].closed.index as int]
        && g.open_in[b].num_closed(u) <= values[g.open_in[b].closed.index as int]
        && g.bool_implications[c].num_closed(u)
        <= values[g.bool_implications[c].closed.index as int]) by {
        reveal(DiffGraph::owned);
        assert(g.edges[e].from < g.size());
        assert(owned_as(g.owner@, g.open_out[a].closed, Slot::OpenOut(a)));
        assert(owned_as(g.owner@, g.open_in[b].closed, Slot::OpenIn(b)));
        assert(owned_as(g.owner@, g.bool_implications[c].closed, Slot::Gate(c)));
    }
    assert(placed(g.bool_implications@, g.edges@, ListKind::Gate) && placed(
        g.open_out@,
        g.edges@,
        ListKind::Out,
    ) && placed(g.open_in@, g.edges@, ListKind::In)) by {
        reveal(DiffGraph::structure);
    }
    assert forall|k: int| 0 <= k < g.edges.len() && (#[trigger] g.edges[k]).bool_var is Some implies
        closed_in(h.open_out@, h.edges[k], ListKind::Out, u) == closed_in(
        g.open_out@,
        g.edges[k],
        ListKind::Out,
        u,
    ) && closed_in(h.open_in@, h.edges[k], ListKind::In, u) == closed_in(
        g.open_in@,
        g.edges[k],
        ListKind::In,
        u,
    ) && closed_in(h.bool_implications@, h.edges[k], ListKind::Gate, u) == closed_in(
        g.bool_implications@,
        g.edges[k],
        ListKind::Gate,
        u,
    ) by {
        lemma_closes_saved(
            g.open_out@,
            h.open_out@,
            g.edges@,
            h.edges@,
            e,
            ListKind::Out,
            values[g.open_out[a].closed.index as int] as int,
            u,
            k,
        );
        lemma_closes_saved(
            g.open_in@,
            h.open_in@,
            g.edges@,
            h.edges@,
            e,
            ListKind::In,
            values[g.open_in[b].closed.index as int] as int,
            u,
            k,
        );
        lemma_closes_saved(
            g.bool_implications@,
            h.bool_implications@,
            g.edges@,
            h.edges@,
            e,
            ListKind::Gate,
            values[g.bool_implications[c].closed.index as int] as int,
            u,
            k,
        );
    }
    assert forall|k: int| 0 <= k < g.edges.len() implies (#[trigger] g.edges[k]).bool_var
        == h.edges[k].bool_var && (g.edges[k].bool_var is Some ==> g.closed_at(k, u)
        == h.closed_at(k, u)) by {
        assert(h.edges@[k].same_but_positions(g.edges@[k]));
    }
    lemma_count_closed_same(g, h, u, u, g.edges.len() as int);
    assert(h.good_at(u)) by {
        reveal(DiffGraph::good_at);
        assert forall|k: int|
            0 <= k < h.edges.len() && (#[trigger] h.edges[k]).bool_var is Some implies {
            &&& closed_in(h.bool_implications@, h.edges[k], ListKind::Gate, u) == closed_in(
                h.open_out@,
                h.edges[k],
                ListKind::Out,
                u,
            )
            &&& closed_in(h.open_in@, h.edges[k], ListKind::In, u) == closed_in(
                h.open_out@,
                h.edges[k],
                ListKind::Out,
                u,
            )
        } by {
            assert(g.edges[k].bool_var == h.edges[k].bool_var);
        }
    }
}

/// One more edge is closed.
proof fn lemma_count_closed_more(
    g: &DiffGraph,
    h: &DiffGraph,
    values: Seq<usize>,
    now: Seq<usize>,
    e: int,
    k: int,
)
    requires
        0 <= k <= g.edges.len(),
        g.edges.len() == h.edges.len(),
        0 <= e < g.edges.len(),
        g.edges[e].bool_var is Some,
        !g.closed_at(e, values),
        forall|i: int|
            0 <= i < g.edges.len() ==> (#[trigger] g.edges[i]).bool_var == h.edges[i].bool_var && (
            g.edges[i].bool_var is Some ==> h.closed_at(i, now) == (i == e || g.closed_at(
                i,
                values,
            ))),
    ensures
        h.count_closed(now, k) == g.count_closed(values, k) + if k > e {
            1int
        } else {
            0int
        },
    decreases k,
{
    if k > 0 {
        lemma_count_closed_more(g, h, values, now, e, k - 1);
        assert(g.edges[k - 1].bool_var == h.edges[k - 1].bool_var);
    }
}

proof fn lemma_closed_edge_now(
    g: &DiffGraph,
    h: &DiffGraph,
    e: int,
    values: Seq<usize>,
    now: Seq<usize>,
)
    requires
        g.structure(),
        g.owned(),
        g.good_at(values),
        !g.closed_at(e, values),
        with_closed_edge(g, h, e, values, now),
        g.edges.len() <= usize::MAX,
    ensures
        h.good_at(now),
        g.below(values, now),
        forall|k: int|
            0 <= k < g.edges.len() && (#[trigger] g.edges[k]).bool_var is Some ==> h.closed_at(
                k,
                now,
            ) == (k == e || g.closed_at(k, values)),
        forall|k: int|
            0 <= k < g.edges.len() ==> h.active_at(k, now) == #[trigger] g.active_at(k, values),
{
    lemma_closed_lists(g, h, e, values, now, values);
    lemma_edges_in_range(g);
    lemma_owned_slots(g, values);
    let (a, b, c) = (
        g.edges[e].from as int,
        g.edges[e].to as int,
        g.edges[e].bool_var->0 as int,
    );
    let t = g.num_closed_edges->0;
    assert(g.edges[e].from < g.size());
    let (sa, sb, sc, sn) = (
        g.open_out[a].closed.index as int,
        g.open_in[b].closed.index as int,
        g.bool_implications[c].closed.index as int,
        t.index as int,
    );
    assert(owned_as(g.owner@, g.open_out[a].closed, Slot::OpenOut(a)) && owned_as(
        g.owner@,
        g.open_in[b].closed,
        Slot::OpenIn(b),
    ) && owned_as(g.owner@, g.bool_implications[c].closed, Slot::Gate(c)) && owned_as(
        g.owner@,
        t,
        Slot::Counter,
    )) by {
        reveal(DiffGraph::owned);
    }
    assert(placed(g.bool_implications@, g.edges@, ListKind::Gate) && placed(
        g.open_out@,
        g.edges@,
        ListKind::Out,
    ) && placed(g.open_in@, g.edges@, ListKind::In)) by {
        reveal(DiffGraph::structure);
    }
    // Nothing overflows: an open edge is among the elements that are not closed.
    assert(values[sa] < g.open_out[a].items.len() && values[sb] < g.open_in[b].items.len()
        && values[sc] < g.bool_implications[c].items.len()) by {
        assert(g.edges[e].bool_var is Some);
    }
    assert(values[sn] == g.count_closed(values, g.edges.len() as int)) by {
        reveal(DiffGraph::good_at);
    }
    assert forall|n: int| 0 <= n < g.open_out.len() implies (#[trigger] g.open_out[n]).num_closed(
        now,
    ) == g.open_out[n].num_closed(values) + if n == a {
        1int
    } else {
        0int
    } by {
        reveal(DiffGraph::owned);
        assert(owned_as(g.owner@, g.open_out[n].closed, Slot::OpenOut(n)));
    }
    assert forall|n: int| 0 <= n < g.open_in.len() implies (#[trigger] g.open_in[n]).num_closed(now)
        == g.open_in[n].num_closed(values) + if n == b {
        1int
    } else {
        0int
    } by {
        reveal(DiffGraph::owned);
        assert(owned_as(g.owner@, g.open_in[n].closed, Slot::OpenIn(n)));
    }
    assert forall|n: int| 0 <= n < g.bool_implications.len() implies (
    #[trigger] g.bool_implications[n]).num_closed(now) == g.bool_implications[n].num_closed(values)
        + if n == c {
        1int
    } else {
        0int
    } by {
        reveal(DiffGraph::owned);
        assert(owned_as(g.owner@, g.bool_implications[n].closed, Slot::Gate(n)));
    }
    assert forall|k: int| 0 <= k < g.edges.len() && (#[trigger] g.edges[k]).bool_var is Some implies
        closed_in(h.open_out@, h.edges[k], ListKind::Out, now) == (k == e || closed_in(
        g.open_out@,
        g.edges[k],
        ListKind::Out,
        values,
    )) && closed_in(h.open_in@, h.edges[k], ListKind::In, now) == (k == e || closed_in(
        g.open_in@,
        g.edges[k],
        ListKind::In,
        values,
    )) && closed_in(h.bool_implications@, h.edges[k], ListKind::Gate, now) == (k == e || closed_in(
        g.bool_implications@,
        g.edges[k],
        ListKind::Gate,
        values,
    )) by {
        lemma_closes_now(
            g.open_out@,
            h.open_out@,
            g.edges@,
            h.edges@,
            e,
            ListKind::Out,
            values[sa] as int,
            values,
            now,
            k,
        );
        lemma_closes_now(
            g.open_in@,
            h.open_in@,
            g.edges@,
            h.edges@,
            e,
            ListKind::In,
            values[sb] as int,
            values,
            now,
            k,
        );
        lemma_closes_now(
            g.bool_implications@,
            h.bool_implications@,
            g.edges@,
            h.edges@,
            e,
            ListKind::Gate,
            values[sc] as int,
            values,
            now,
            k,
        );
    }
    assert forall|k: int| 0 <= k < g.edges.len() implies (#[trigger] g.edges[k]).bool_var
        == h.edges[k].bool_var && (g.edges[k].bool_var is Some ==> h.closed_at(k, now) == (k == e
        || g.closed_at(k, values))) by {
        assert(h.edges@[k].same_but_positions(g.edges@[k]));
    }
    lemma_count_closed_more(g, h, values, now, e, g.edges.len() as int);
    lemma_count_closed_bound(g, values, e);
    assert(now.len() == values.len());
    assert forall|n: int| 0 <= n < h.active_out.len() implies (#[trigger] h.active_out[n]).wf_at(
        now,
    ) && h.active_out[n].at(now) == g.active_out[n].at(values) by {
        reveal(DiffGraph::owned);
        assert(owned_as(g.owner@, g.active_out[n].len, Slot::ActiveOut(n)));
        assert(h.active_out[n].wf_at(values));
    }
    assert forall|n: int| 0 <= n < h.active_in.len() implies (#[trigger] h.active_in[n]).wf_at(now)
        && h.active_in[n].at(now) == g.active_in[n].at(values) by {
        reveal(DiffGraph::owned);
        assert(owned_as(g.owner@, g.active_in[n].len, Slot::ActiveIn(n)));
        assert(h.active_in[n].wf_at(values));
    }
    assert(h.good_at(now)) by {
        reveal(DiffGraph::good_at);
        assert forall|n: int| 0 <= n < h.open_out.len() implies (#[trigger] h.open_out[n]).wf_at(
            now,
        ) by {
            assert(h.open_out[n].wf_at(values));
            assert(g.open_out[n].num_closed(now) == g.open_out[n].num_closed(values) + if n == a {
                1int
            } else {
                0int
            });
            assert(h.open_out@[n].items.len() == g.open_out@[n].items.len());
        }
        assert forall|n: int| 0 <= n < h.open_in.len() implies (#[trigger] h.open_in[n]).wf_at(
            now,
        ) by {
            assert(h.open_in[n].wf_at(values));
            assert(g.open_in[n].num_closed(now) == g.open_in[n].num_closed(values) + if n == b {
                1int
            } else {
                0int
            });
            assert(h.open_in@[n].items.len() == g.open_in@[n].items.len());
        }
        assert forall|n: int| 0 <= n < h.bool_implications.len() implies (
        #[trigger] h.bool_implications[n]).wf_at(now) by {
            assert(h.bool_implications[n].wf_at(values));
            assert(g.bool_implications[n].num_closed(now) == g.bool_implications[n].num_closed(
                values,
            ) + if n == c {
                1int
            } else {
                0int
            });
            assert(h.bool_implications@[n].items.len() == g.bool_implications@[n].items.len());
        }
        assert forall|k: int|
            0 <= k < h.edges.len() && (#[trigger] h.edges[k]).bool_var is Some implies {
            &&& closed_in(h.bool_implications@, h.edges[k], ListKind::Gate, now) == closed_in(
                h.open_out@,
                h.edges[k],
                ListKind::Out,
                now,
            )
            &&& closed_in(h.open_in@, h.edges[k], ListKind::In, now) == closed_in(
                h.open_out@,
                h.edges[k],
                ListKind::Out,
                now,
            )
        } by {
            assert(g.edges[k].bool_var == h.edges[k].bool_var);
        }
        assert forall|n: int, i: int|
            0 <= n < h.active_out.len() && 0 <= i < h.active_out[n].at(now).len() implies {
            let k = #[trigger] h.active_out[n].at(now)[i] as int;
            &&& k < h.edges.len()
            &&& h.edges[k].from == n
            &&& h.active_in[h.edges[k].to as int].at(now).contains(k as usize)
        } by {
            assert(h.active_out[n].at(now) == g.active_out[n].at(values));
            assert(h.active_out[n].at(values) == g.active_out[n].at(values));
            let k = h.active_out[n].at(values)[i] as int;
            assert(k < h.edges.len());
            let to = h.edges[k].to as int;
            assert(h.edges@[k].same_but_positions(g.edges@[k]));
            assert(g.edges[k].to < g.size());
            assert(h.active_in[to].at(now) == g.active_in[to].at(values));
        }
        assert forall|n: int, i: int|
            0 <= n < h.active_in.len() && 0 <= i < h.active_in[n].at(now).len() implies {
            let k = #[trigger] h.active_in[n].at(now)[i] as int;
            &&& k < h.edges.len()
            &&& h.edges[k].to == n
            &&& h.active_out[h.edges[k].from as int].at(now).contains(k as usize)
        } by {
            assert(h.active_in[n].at(now) == g.active_in[n].at(values));
            let k = h.active_in[n].at(values)[i] as int;
            assert(k < h.edges.len());
            let from = h.edges[k].from as int;
            assert(h.edges@[k].same_but_positions(g.edges@[k]));
            assert(g.edges[k].from < g.size());
            assert(h.active_out[from].at(now) == g.active_out[from].at(values));
        }
    }
    assert forall|k: int| 0 <= k < g.edges.len() implies h.active_at(k, now)
        == #[trigger] g.active_at(k, values) by {
        assert(h.edges@[k].same_but_positions(g.edges@[k]));
        let n = g.edges[k].from as int;
        assert(n < g.size());
        assert(h.active_out[n].at(now) == g.active_out[n].at(values));
    }
    assert forall|s: usize| #[trigger] g.owner@.dom().contains(s) implies values[s as int]
        <= now[s as int] by {}
}

/// While an edge is open, fewer edges are closed than there are.
proof fn lemma_count_closed_bound(g: &DiffGraph, values: Seq<usize>, e: int)
    requires
        0 <= e < g.edges.len(),
        !g.closed_at(e, values),
    ensures
        0 <= g.count_closed(values, g.edges.len() as int) < g.edges.len(),
{
    lemma_count_closed_upto(g, values, e, g.edges.len() as int);
}

proof fn lemma_count_closed_upto(g: &DiffGraph, values: Seq<usize>, e: int, k: int)
    requires
        0 <= e < g.edges.len(),
        0 <= k <= g.edges.len(),
        !g.closed_at(e, values),
    ensures
        0 <= g.count_closed(values, k) <= k,
        k > e ==> g.count_closed(values, k) < k,
    decreases k,
{
    if k > 0 {
        lemma_count_closed_upto(g, values, e, k - 1);
    }
}


/// Positions in lists of other kinds do not matter.
proof fn lemma_placed_same(
    lists: Seq<TrailedOpenList>,
    edges: Seq<DiffEdge>,
    later: Seq<DiffEdge>,
    kind: ListKind,
)
    requires
        placed(lists, edges, kind),
        later.len() == edges.len(),
        forall|k: int|
            0 <= k < edges.len() ==> (#[trigger] later[k]).same_but_positions(edges[k])
                && later[k].position(kind) == edges[k].position(kind),
    ensures
        placed(lists, later, kind),
{
    assert forall|e: int| 0 <= e < later.len() && (#[trigger] later[e]).bool_var is Some implies {
        &&& 0 <= later[e].list_of(kind) < lists.len()
        &&& later[e].position(kind) < lists[later[e].list_of(kind)].items.len()
        &&& lists[later[e].list_of(kind)].items@[later[e].position(kind) as int] == e
    } by {
        assert(edges[e].bool_var is Some);
    }
    assert forall|l: int, i: int| 0 <= l < lists.len() && 0 <= i < lists[l].items.len() implies {
        let e = #[trigger] lists[l].items@[i] as int;
        &&& e < later.len()
        &&& later[e].bool_var is Some
        &&& later[e].list_of(kind) == l
        &&& later[e].position(kind) == i
    } by {
        let e = lists[l].items@[i] as int;
        assert(e < edges.len());
        assert(later[e].same_but_positions(edges[e]));
    }
}

impl DiffGraph {
    /// Close an edge that has a gate, unless it is closed, and return whether it was open.
    #[verifier::spinoff_prover]
    pub fn close_imp_edge(&mut self, trail: &mut Trail, e: usize) -> (r: bool)
        requires
            old(self).wf(old(trail)),
            e < old(self).edges.len(),
            old(self).edges[e as int].bool_var is Some,
        ensures
            final(self).wf(final(trail)),
            r == !old(self).closed_at(e as int, old(trail)@),
            final(self).nodes == old(self).nodes,
            final(self).bool_vars == old(self).bool_vars,
            final(self).owner == old(self).owner,
            final(self).num_gated_created == old(self).num_gated_created,
            final(self).num_closed_edges == old(self).num_closed_edges,
            final(self).edges.len() == old(self).edges.len(),
            forall|k: int|
                0 <= k < old(self).edges.len() ==> (
                #[trigger] final(self).edges[k]).same_but_positions(old(self).edges[k]),
            forall|k: int|
                0 <= k < old(self).edges.len() && (#[trigger] old(self).edges[k]).bool_var is Some
                    ==> final(self).closed_at(k, final(trail)@) == (k == e || old(self).closed_at(
                    k,
                    old(trail)@,
                )),
            forall|k: int|
                0 <= k < old(self).edges.len() ==> final(self).active_at(k, final(trail)@)
                    == #[trigger] old(self).active_at(k, old(trail)@),
            final(trail).depth() == old(trail).depth(),
            final(trail)@.len() == old(trail)@.len(),
            !r ==> final(self).edges@ == old(self).edges@ && *final(trail) == *old(trail),
            final(self).open_out.len() == old(self).open_out.len(),
            final(self).open_in.len() == old(self).open_in.len(),
            forall|n: int|
                0 <= n < old(self).open_out.len() && n != old(self).edges[e as int].from
                    ==> #[trigger] final(self).open_out[n] == old(self).open_out[n],
            forall|n: int|
                0 <= n < old(self).open_in.len() && n != old(self).edges[e as int].to
                    ==> #[trigger] final(self).open_in[n] == old(self).open_in[n],
            r ==> final(self).open_out[old(self).edges[e as int].from as int].items@ == swapped(
                old(self).open_out[old(self).edges[e as int].from as int].items@,
                old(self).edges[e as int].out_index as int,
                old(self).open_out[old(self).edges[e as int].from as int].num_closed(old(trail)@),
            ),
            r ==> final(self).open_in[old(self).edges[e as int].to as int].items@ == swapped(
                old(self).open_in[old(self).edges[e as int].to as int].items@,
                old(self).edges[e as int].in_index as int,
                old(self).open_in[old(self).edges[e as int].to as int].num_closed(old(trail)@),
            ),
            !r ==> *final(self) == *old(self),
            final(self).active_out == old(self).active_out,
            final(self).active_in == old(self).active_in,
    {
        let ghost g = *self;
        let ghost before = *trail;
        let edge: DiffEdge = self.edges[e];
        let b: usize = match edge.bool_var {
            Some(b) => b,
            None => 0,
        };
        proof {
            lemma_edges_in_range(self);
            lemma_owned_slots(self, trail@);
            assert(edge.from < self.size());
            assert(placed(self.bool_implications@, self.edges@, ListKind::Gate) && placed(
                self.open_out@,
                self.edges@,
                ListKind::Out,
            ) && placed(self.open_in@, self.edges@, ListKind::In) && self.num_closed_edges
                is Some) by {
                reveal(DiffGraph::structure);
                lemma_gated_counted(self.edges@, e as int, self.edges.len() as int);
            }
            assert(self.bool_implications[b as int].wf_at(trail@)
                && self.open_out[edge.from as int].wf_at(trail@)
                && self.open_in[edge.to as int].wf_at(trail@)
                && closed_in(self.bool_implications@, self.edges[e as int], ListKind::Gate, trail@)
                == self.closed_at(e as int, trail@) && closed_in(
                self.open_in@,
                self.edges[e as int],
                ListKind::In,
                trail@,
            ) == self.closed_at(e as int, trail@)) by {
                reveal(DiffGraph::good_at);
            }
            assert(owned_as(
                g.owner@,
                g.open_out[edge.from as int].closed,
                Slot::OpenOut(edge.from as int),
            ) && owned_as(
                g.owner@,
                g.open_in[edge.to as int].closed,
                Slot::OpenIn(edge.to as int),
            ) && owned_as(g.owner@, g.bool_implications[b as int].closed, Slot::Gate(b as int))
                && owned_as(g.owner@, g.num_closed_edges->0, Slot::Counter)) by {
                reveal(DiffGraph::owned);
            }
        }
        let ghost sa = g.open_out[edge.from as int].closed.index as int;
        let ghost sb = g.open_in[edge.to as int].closed.index as int;
        let ghost sc = g.bool_implications[b as int].closed.index as int;
        let ghost sn = g.num_closed_edges->0.index as int;
        if self.edges[e].out_index < trail.trailed(self.open_out[edge.from].closed) {
            assert(self.closed_at(e as int, trail@));
            return false;
        }
        close_in(
            &mut self.bool_implications,
            &mut self.edges,
            trail,
            b,
            e,
            ListKind::Gate,
        );
        let ghost e1 = self.edges@;
        let ghost v1 = trail@;
        proof {
            lemma_placed_same(g.open_out@, g.edges@, e1, ListKind::Out);
            lemma_placed_same(g.open_in@, g.edges@, e1, ListKind::In);
            assert(self.edges@[e as int].out_index == edge.out_index);
        }
        close_in(
            &mut self.open_out,
            &mut self.edges,
            trail,
            edge.from,
            e,
            ListKind::Out,
        );
        let ghost e2 = self.edges@;
        let ghost v2 = trail@;
        proof {
            lemma_placed_same(g.open_in@, e1, e2, ListKind::In);
            assert(self.edges@[e as int].in_index == edge.in_index);
        }
        close_in(&mut self.open_in, &mut self.edges, trail, edge.to, e, ListKind::In);
        let ghost e3 = self.edges@;
        let ghost v3 = trail@;
        let count: Trailed = match self.num_closed_edges {
            Some(t) => t,
            None => Trailed { index: 0 },
        };
        let cur: usize = trail.trailed(count);
        proof {
            assert(cur < usize::MAX) by {
                reveal(DiffGraph::good_at);
                lemma_count_closed_bound(&g, before@, e as int);
                assert(v3[sn] == before@[sn]);
            }
        }
        trail.set_trailed(count, cur + 1);
        proof {
            lemma_placed_same(self.bool_implications@, e1, e3, ListKind::Gate);
            lemma_placed_same(self.open_out@, e2, e3, ListKind::Out);
            assert(v1 == before@.update(sc, (before@[sc] + 1) as usize));
            assert(v2 == v1.update(sa, (v1[sa] + 1) as usize));
            assert(v3 == v2.update(sb, (v2[sb] + 1) as usize));
            assert(closes(
                g.bool_implications@,
                self.bool_implications@,
                g.edges@,
                e3,
                e as int,
                ListKind::Gate,
                before@[sc] as int,
            ));
            assert(closes(
                g.open_out@,
                self.open_out@,
                g.edges@,
                e3,
                e as int,
                ListKind::Out,
                before@[sa] as int,
            )) by {
                assert(g.open_out[edge.from as int].num_closed(v1) == before@[sa]);
                assert forall|k: int|
                    0 <= k < e1.len() implies (#[trigger] g.edges@[k]).same_but_positions(e1[k])
                    && g.edges@[k].out_index == e1[k].out_index by {}
            }
            assert(closes(
                g.open_in@,
                self.open_in@,
                g.edges@,
                e3,
                e as int,
                ListKind::In,
                before@[sb] as int,
            )) by {
                assert(g.open_in[edge.to as int].num_closed(v2) == before@[sb]);
                assert forall|k: int|
                    0 <= k < e2.len() implies (#[trigger] g.edges@[k]).same_but_positions(e2[k])
                    && g.edges@[k].in_index == e2[k].in_index by {
                    assert(e1[k].in_index == g.edges@[k].in_index);
                }
            }
            assert(with_closed_edge(&g, self, e as int, before@, trail@));
            lemma_closed_edge_now(&g, self, e as int, before@, trail@);
            assert(trail@.len() == before@.len());
            lemma_closed_wf(&g, self, e as int, &before, trail);
            assert(g.open_out[edge.from as int].num_closed(v1) == before@[sa]);
            assert(g.open_in[edge.to as int].num_closed(v2) == before@[sb]);
            assert forall|k: int| 0 <= k < g.edges.len() implies (
            #[trigger] self.edges[k]).same_but_positions(g.edges[k]) by {
                assert(self.edges@[k].same_but_positions(g.edges@[k]));
            }
        }
        true
    }
}

/// The graph with an edge closed is well formed at every level.
proof fn lemma_closed_wf(g: &DiffGraph, h: &DiffGraph, e: int, before: &Trail, after: &Trail)
    requires
        g.wf(before),
        after.wf(),
        after.same_history(before),
        with_closed_edge(g, h, e, before@, after@),
        after@.len() == before@.len(),
        h.good_at(after@),
        g.below(before@, after@),
    ensures
        h.wf(after),
{
    lemma_edges_in_range(g);
    assert(h.structure()) by {
        reveal(DiffGraph::structure);
        lemma_count_gated_same(g.edges@, h.edges@, g.edges.len() as int);
        assert forall|k: int| 0 <= k < h.edges.len() implies (#[trigger] h.edges[k]).from < h.size()
            && h.edges[k].to < h.size() && (h.edges[k].bool_var matches Some(b) ==> b
            < h.bool_vars.len()) by {
            assert(h.edges@[k].same_but_positions(g.edges@[k]));
            assert(g.edges[k].from < g.size());
        }
    }
    assert(h.owned()) by {
        reveal(DiffGraph::owned);
        assert forall|n: int| 0 <= n < h.open_out.len() implies owned_as(
            h.owner@,
            (#[trigger] h.open_out[n]).closed,
            Slot::OpenOut(n),
        ) by {
            assert(h.open_out@[n].closed == g.open_out@[n].closed);
            assert(owned_as(g.owner@, g.open_out[n].closed, Slot::OpenOut(n)));
        }
        assert forall|n: int| 0 <= n < h.open_in.len() implies owned_as(
            h.owner@,
            (#[trigger] h.open_in[n]).closed,
            Slot::OpenIn(n),
        ) by {
            assert(h.open_in@[n].closed == g.open_in@[n].closed);
            assert(owned_as(g.owner@, g.open_in[n].closed, Slot::OpenIn(n)));
        }
        assert forall|n: int| 0 <= n < h.bool_implications.len() implies owned_as(
            h.owner@,
            (#[trigger] h.bool_implications[n]).closed,
            Slot::Gate(n),
        ) by {
            assert(h.bool_implications@[n].closed == g.bool_implications@[n].closed);
            assert(owned_as(g.owner@, g.bool_implications[n].closed, Slot::Gate(n)));
        }
    }
    assert forall|l: int| 0 <= l < after.depth() implies h.good_at(#[trigger] after.saved(l))
        && h.below(after.saved(l), after@) && after.saved(l).len() == after@.len() by {
        assert(after.saved(l) == before.saved(l));
        lemma_closed_edge_saved(g, h, e, before@, after@, before.saved(l));
        assert(g.below(before.saved(l), before@));
        assert forall|s: usize| #[trigger] h.owner@.dom().contains(s) implies after.saved(
            l,
        )[s as int] <= after@[s as int] by {
            assert(g.owner@.dom().contains(s));
        }
    }
    assert forall|l: int, k: int| 0 <= l <= k < after.depth() implies h.below(
        #[trigger] after.saved(l),
        #[trigger] after.saved(k),
    ) by {
        assert(after.saved(l) == before.saved(l));
        assert(after.saved(k) == before.saved(k));
        assert(g.below(before.saved(l), before.saved(k)));
    }
}

proof fn lemma_count_gated_same(edges: Seq<DiffEdge>, later: Seq<DiffEdge>, k: int)
    requires
        0 <= k <= edges.len(),
        later.len() == edges.len(),
        forall|i: int|
            0 <= i < edges.len() ==> (#[trigger] later[i]).same_but_positions(edges[i]),
    ensures
        count_gated(edges, k) == count_gated(later, k),
    decreases k,
{
    if k > 0 {
        lemma_count_gated_same(edges, later, k - 1);
        assert(later[k - 1].same_but_positions(edges[k - 1]));
    }
}

proof fn lemma_gated_counted(edges: Seq<DiffEdge>, e: int, k: int)
    requires
        0 <= e < k <= edges.len(),
        edges[e].bool_var is Some,
    ensures
        count_gated(edges, k) > 0,
    decreases k,
{
    lemma_count_gated(edges, 0, k - 1);
    if e < k - 1 {
        lemma_gated_counted(edges, e, k - 1);
    }
}


/// The open edges of a list.
pub open spec fn are_open_edges(
    graph: &DiffGraph,
    values: Seq<usize>,
    kind: ListKind,
    l: int,
    list: Seq<usize>,
) -> bool {
    &&& list.no_duplicates()
    &&& forall|i: int|
        0 <= i < list.len() ==> {
            let e = #[trigger] list[i] as int;
            &&& e < graph.edges.len()
            &&& graph.edges[e].bool_var is Some
            &&& graph.edges[e].list_of(kind) == l
            &&& !graph.closed_at(e, values)
        }
    &&& forall|e: int|
        0 <= e < graph.edges.len() && (#[trigger] graph.edges[e]).bool_var is Some
            && graph.edges[e].list_of(kind) == l && !graph.closed_at(e, values)
            ==> list.contains(e as usize)
}

impl DiffGraph {
    /// The lists of a kind.
    pub open spec fn lists(&self, kind: ListKind) -> Seq<TrailedOpenList> {
        match kind {
            ListKind::Gate => self.bool_implications@,
            ListKind::Out => self.open_out@,
            ListKind::In => self.open_in@,
        }
    }

    /// The open edges of a list: those of a gate, from a node, or to a node.
    pub fn open_edges(&self, trail: &Trail, kind: ListKind, l: usize) -> (r: Vec<usize>)
        requires
            self.wf(trail),
            l < self.lists(kind).len(),
        ensures
            are_open_edges(self, trail@, kind, l as int, r@),
            r.len() == self.lists(kind)[l as int].items.len() - self.lists(
                kind,
            )[l as int].num_closed(trail@),
    {
        proof {
            reveal(DiffGraph::structure);
            reveal(DiffGraph::good_at);
        }
        let list: &TrailedOpenList = match kind {
            ListKind::Gate => &self.bool_implications[l],
            ListKind::Out => &self.open_out[l],
            ListKind::In => &self.open_in[l],
        };
        let first: usize = list.first_open(trail);
        let mut r: Vec<usize> = Vec::new();
        let mut i: usize = first;
        while i < list.items.len()
            invariant
                first <= i <= list.items.len(),
                r.len() == i - first,
                forall|k: int| 0 <= k < r.len() ==> #[trigger] r[k] == list.items[k + first],
            decreases list.items.len() - i,
        {
            r.push(list.items[i]);
            i = i + 1;
        }
        proof {
            reveal(DiffGraph::structure);
            reveal(DiffGraph::good_at);
            let lists = self.lists(kind);
            assert(*list == lists[l as int]);
            assert(placed(lists, self.edges@, kind));
            assert forall|k: int| 0 <= k < r.len() implies {
                let e = #[trigger] r@[k] as int;
                &&& e < self.edges.len()
                &&& self.edges[e].bool_var is Some
                &&& self.edges[e].list_of(kind) == l
                &&& !self.closed_at(e, trail@)
                &&& self.edges[e].position(kind) == k + first
            } by {
                let e = lists[l as int].items@[k + first] as int;
                assert(e < self.edges.len());
                assert(self.edges[e].bool_var is Some);
            }
            assert forall|a: int, b: int| 0 <= a < b < r.len() implies r@[a] != r@[b] by {
                assert(self.edges[r@[a] as int].position(kind) == a + first);
                assert(self.edges[r@[b] as int].position(kind) == b + first);
            }
            assert forall|e: int|
                0 <= e < self.edges.len() && (#[trigger] self.edges[e]).bool_var is Some
                    && self.edges[e].list_of(kind) == l && !self.closed_at(
                    e,
                    trail@,
                ) implies r@.contains(e as usize) by {
                let pos = self.edges[e].position(kind) as int;
                assert(lists[l as int].items@[pos] == e);
                assert(r@[pos - first] == e as usize);
            }
        }
        r
    }

    /// The number of open edges of a list.
    pub fn num_open(&self, trail: &Trail, kind: ListKind, l: usize) -> (r: usize)
        requires
            self.wf(trail),
            l < self.lists(kind).len(),
        ensures
            r == self.lists(kind)[l as int].items.len() - self.lists(kind)[l as int].num_closed(
                trail@,
            ),
    {
        proof {
            reveal(DiffGraph::structure);
            reveal(DiffGraph::good_at);
        }
        match kind {
            ListKind::Gate => self.bool_implications[l].num_open(trail),
            ListKind::Out => self.open_out[l].num_open(trail),
            ListKind::In => self.open_in[l].num_open(trail),
        }
    }

    /// The number of closed edges.
    pub fn num_closed(&self, trail: &Trail) -> (r: usize)
        requires
            self.wf(trail),
        ensures
            r == self.count_closed(trail@, self.edges.len() as int),
            r == self.num_gated_created <==> (forall|e: int|
                0 <= e < self.edges.len() && (#[trigger] self.edges[e]).bool_var is Some
                    ==> self.closed_at(e, trail@)),
    {
        proof {
            reveal(DiffGraph::structure);
            reveal(DiffGraph::good_at);
            lemma_count_all(self, trail@, self.edges.len() as int);
            lemma_owned_slots(self, trail@);
            if self.num_closed_edges is None {
                lemma_none_closed(self, trail@, self.edges.len() as int);
            }
        }
        match self.num_closed_edges {
            Some(t) => trail.trailed(t),
            None => 0,
        }
    }

    /// Whether an active edge without a gate implies `x - y <= d`.
    pub fn subsuming_global_edge(&self, trail: &Trail, x: IntView, y: IntView, d: IntVal) -> (r:
        bool)
        requires
            self.wf(trail),
        ensures
            r == exists|e: int|
                0 <= e < self.edges.len() && #[trigger] self.active_at(e, trail@)
                    && self.edges[e].bool_var is None && self.nodes.int_vars[self.edges[e].from as int]
                    == x && self.nodes.int_vars[self.edges[e].to as int] == y && self.edges[e].val
                    <= d,
    {
        proof {
            assert(self.nodes.wf() && self.active_out.len() == self.size()) by {
                reveal(DiffGraph::structure);
            }
        }
        let from: Option<usize> = map_get(&self.nodes.node_of, view_key(x));
        let to: Option<usize> = map_get(&self.nodes.node_of, view_key(y));
        match (from, to) {
            (Some(a), Some(b)) => {
                proof {
                    self.nodes.lemma_number(x);
                    self.nodes.lemma_number(y);
                    reveal(DiffGraph::good_at);
                }
                let len: usize = self.active_out[a].length(trail);
                let mut i: usize = 0;
                while i < len
                    invariant
                        i <= len,
                        self.wf(trail),
                        self.nodes.wf(),
                        self.active_out.len() == self.size(),
                        a < self.size(),
                        b < self.size(),
                        self.active_out[a as int].wf_at(trail@),
                        len == self.active_out[a as int].at(trail@).len(),
                        self.nodes.int_vars[a as int] == x,
                        self.nodes.int_vars[b as int] == y,
                        forall|j: int|
                            0 <= j < i ==> !{
                                let e = #[trigger] self.active_out[a as int].at(trail@)[j] as int;
                                &&& self.edges[e].to == b
                                &&& self.edges[e].bool_var is None
                                &&& self.edges[e].val <= d
                            },
                    decreases len - i,
                {
                    proof {
                        reveal(DiffGraph::good_at);
                        reveal(DiffGraph::structure);
                    }
                    let e: usize = self.active_out[a].get(trail, i);
                    let edge: DiffEdge = self.edges[e];
                    if edge.to == b && edge.bool_var.is_none() && edge.val <= d {
                        proof {
                            assert(self.active_out[self.edges[e as int].from as int].at(
                                trail@,
                            )[i as int] == e);
                            assert(self.active_at(e as int, trail@));
                        }
                        return true;
                    }
                    i = i + 1;
                }
                proof {
                    assert forall|e: int|
                        0 <= e < self.edges.len() && #[trigger] self.active_at(e, trail@)
                            && self.edges[e].bool_var is None
                            && self.nodes.int_vars[self.edges[e].from as int] == x
                            && self.nodes.int_vars[self.edges[e].to as int] == y implies
                        self.edges[e].val > d by {
                        lemma_edges_in_range(self);
                        assert(self.edges[e].from < self.size());
                        self.nodes.lemma_numbered(self.edges[e].from as int);
                        self.nodes.lemma_numbered(self.edges[e].to as int);
                        self.nodes.lemma_numbered(a as int);
                        self.nodes.lemma_numbered(b as int);
                        let j = choose|j: int|
                            0 <= j < self.active_out[self.edges[e].from as int].at(trail@).len()
                                && #[trigger] self.active_out[self.edges[e].from as int].at(
                                trail@,
                            )[j] == e;
                        assert(self.active_out[a as int].at(trail@)[j] == e);
                    }
                }
                false
            },
            _ => {
                proof {
                    assert forall|e: int|
                        0 <= e < self.edges.len() && #[trigger] self.active_at(e, trail@) implies !(
                    self.nodes.int_vars[self.edges[e].from as int] == x
                        && self.nodes.int_vars[self.edges[e].to as int] == y) by {
                        lemma_edges_in_range(self);
                        assert(self.edges[e].from < self.size());
                        self.nodes.lemma_numbered(self.edges[e].from as int);
                        self.nodes.lemma_numbered(self.edges[e].to as int);
                    }
                }
                false
            },
        }
    }
}

/// All edges with a gate are closed where as many are closed as there are.
proof fn lemma_count_all(g: &DiffGraph, values: Seq<usize>, k: int)
    requires
        0 <= k <= g.edges.len(),
    ensures
        0 <= g.count_closed(values, k) <= count_gated(g.edges@, k),
        g.count_closed(values, k) == count_gated(g.edges@, k) <==> (forall|e: int|
            0 <= e < k && (#[trigger] g.edges[e]).bool_var is Some ==> g.closed_at(e, values)),
    decreases k,
{
    if k > 0 {
        lemma_count_all(g, values, k - 1);
        if g.count_closed(values, k) == count_gated(g.edges@, k) {
            assert forall|e: int| 0 <= e < k && (#[trigger] g.edges[e]).bool_var is Some implies
                g.closed_at(e, values) by {
                if e < k - 1 {
                    assert(g.count_closed(values, k - 1) == count_gated(g.edges@, k - 1));
                }
            }
        }
        if forall|e: int|
            0 <= e < k && (#[trigger] g.edges[e]).bool_var is Some ==> g.closed_at(e, values) {
            assert(g.edges[k - 1].bool_var is Some ==> g.closed_at(k - 1, values));
        }
    }
}

/// Whether the values that the graph uses are the same.
pub open spec fn untouched(graph: &DiffGraph, u: Seq<usize>, v: Seq<usize>) -> bool {
    forall|s: usize| #[trigger]
        graph.owner@.dom().contains(s) ==> s < v.len() && v[s as int] == u[s as int]
}

proof fn lemma_count_untouched(g: &DiffGraph, u: Seq<usize>, v: Seq<usize>, k: int)
    requires
        0 <= k <= g.edges.len(),
        forall|e: int|
            0 <= e < g.edges.len() && (#[trigger] g.edges[e]).bool_var is Some ==> g.closed_at(e, v)
                == g.closed_at(e, u),
    ensures
        g.count_closed(v, k) == g.count_closed(u, k),
    decreases k,
{
    if k > 0 {
        lemma_count_untouched(g, u, v, k - 1);
        assert(g.edges[k - 1].bool_var is Some ==> g.closed_at(k - 1, v) == g.closed_at(k - 1, u));
    }
}

/// Values that the graph does not use do not matter to it.
pub proof fn lemma_untouched(g: &DiffGraph, u: Seq<usize>, v: Seq<usize>)
    requires
        g.structure(),
        g.owned(),
        g.good_at(u),
        untouched(g, u, v),
    ensures
        g.good_at(v),
        same_edges(g, u, g, v),
{
    lemma_edges_in_range(g);
    lemma_owned_slots(g, u);
    reveal(DiffGraph::owned);
    assert forall|n: int| 0 <= n < g.active_out.len() implies (#[trigger] g.active_out[n]).at(v)
        == g.active_out[n].at(u) && g.active_out[n].len.index < v.len() && v[g.active_out[n].len.index as int]
        == u[g.active_out[n].len.index as int] by {
        assert(owned_as(g.owner@, g.active_out[n].len, Slot::ActiveOut(n)));
    }
    assert forall|n: int| 0 <= n < g.active_in.len() implies (#[trigger] g.active_in[n]).at(v)
        == g.active_in[n].at(u) && g.active_in[n].len.index < v.len() && v[g.active_in[n].len.index as int]
        == u[g.active_in[n].len.index as int] by {
        assert(owned_as(g.owner@, g.active_in[n].len, Slot::ActiveIn(n)));
    }
    assert forall|n: int| 0 <= n < g.open_out.len() implies (#[trigger] g.open_out[n]).num_closed(v)
        == g.open_out[n].num_closed(u) && g.open_out[n].closed.index < v.len() by {
        assert(owned_as(g.owner@, g.open_out[n].closed, Slot::OpenOut(n)));
    }
    assert forall|n: int| 0 <= n < g.open_in.len() implies (#[trigger] g.open_in[n]).num_closed(v)
        == g.open_in[n].num_closed(u) && g.open_in[n].closed.index < v.len() by {
        assert(owned_as(g.owner@, g.open_in[n].closed, Slot::OpenIn(n)));
    }
    assert forall|n: int|
        0 <= n < g.bool_implications.len() implies (#[trigger] g.bool_implications[n]).num_closed(v)
        == g.bool_implications[n].num_closed(u) && g.bool_implications[n].closed.index
        < v.len() by {
        assert(owned_as(g.owner@, g.bool_implications[n].closed, Slot::Gate(n)));
    }
    assert forall|e: int| 0 <= e < g.edges.len() && (#[trigger] g.edges[e]).bool_var is Some implies {
        &&& closed_in(g.open_out@, g.edges[e], ListKind::Out, v) == closed_in(
            g.open_out@,
            g.edges[e],
            ListKind::Out,
            u,
        )
        &&& closed_in(g.open_in@, g.edges[e], ListKind::In, v) == closed_in(
            g.open_in@,
            g.edges[e],
            ListKind::In,
            u,
        )
        &&& closed_in(g.bool_implications@, g.edges[e], ListKind::Gate, v) == closed_in(
            g.bool_implications@,
            g.edges[e],
            ListKind::Gate,
            u,
        )
    } by {
        let edge = g.edges[e];
        assert(edge.from < g.size() && edge.to < g.size() && edge.bool_var->0
            < g.bool_vars.len());
        assert(g.open_out[edge.from as int].num_closed(v) == g.open_out[edge.from as int].num_closed(
            u,
        ));
        assert(g.open_in[edge.to as int].num_closed(v) == g.open_in[edge.to as int].num_closed(u));
        assert(g.bool_implications[edge.bool_var->0 as int].num_closed(v)
            == g.bool_implications[edge.bool_var->0 as int].num_closed(u));
    }
    assert forall|e: int| 0 <= e < g.edges.len() implies g.active_at(e, v) == g.active_at(e, u) && (
    #[trigger] g.edges[e]).same_but_positions(g.edges[e]) && (g.edges[e].bool_var is Some
        ==> g.closed_at(e, v) == g.closed_at(e, u)) by {
        assert(g.active_out[g.edges[e].from as int].at(v)
            == g.active_out[g.edges[e].from as int].at(u));
    }
    lemma_count_untouched(g, u, v, g.edges.len() as int);
    if let Some(t) = g.num_closed_edges {
        assert(owned_as(g.owner@, t, Slot::Counter));
    }
    reveal(DiffGraph::good_at);
    assert forall|n: int, i: int|
        0 <= n < g.active_out.len() && 0 <= i < g.active_out[n].at(v).len() implies {
        let e = #[trigger] g.active_out[n].at(v)[i] as int;
        &&& e < g.edges.len()
        &&& g.edges[e].from == n
        &&& g.active_in[g.edges[e].to as int].at(v).contains(e as usize)
    } by {
        assert(g.active_out[n].at(v) == g.active_out[n].at(u));
        let e = g.active_out[n].at(u)[i] as int;
        assert(g.edges[e].to < g.size());
        assert(g.active_in[g.edges[e].to as int].at(v) == g.active_in[g.edges[e].to as int].at(u));
    }
    assert forall|n: int, i: int|
        0 <= n < g.active_in.len() && 0 <= i < g.active_in[n].at(v).len() implies {
        let e = #[trigger] g.active_in[n].at(v)[i] as int;
        &&& e < g.edges.len()
        &&& g.edges[e].to == n
        &&& g.active_out[g.edges[e].from as int].at(v).contains(e as usize)
    } by {
        assert(g.active_in[n].at(v) == g.active_in[n].at(u));
        let e = g.active_in[n].at(u)[i] as int;
        assert(g.edges[e].from < g.size());
        assert(g.active_out[g.edges[e].from as int].at(v)
            == g.active_out[g.edges[e].from as int].at(u));
    }
}

/// Changing a value that the graph does not use keeps the graph.
pub proof fn lemma_untouched_wf(g: &DiffGraph, before: &Trail, after: &Trail)
    requires
        g.wf(before),
        after.wf(),
        untouched(g, before@, after@),
        after@.len() == before@.len(),
        after.same_history(before),
    ensures
        g.wf(after),
        same_edges(g, before@, g, after@),
{
    lemma_untouched(g, before@, after@);
    assert forall|l: int| 0 <= l < after.depth() implies g.good_at(#[trigger] after.saved(l))
        && g.below(after.saved(l), after@) && after.saved(l).len() == after@.len() by {
        assert(after.saved(l) == before.saved(l));
        assert(g.below(before.saved(l), before@));
    }
    assert forall|l: int, k: int| 0 <= l <= k < after.depth() implies g.below(
        #[trigger] after.saved(l),
        #[trigger] after.saved(k),
    ) by {
        assert(after.saved(l) == before.saved(l));
        assert(after.saved(k) == before.saved(k));
    }
}

/// Tracking another value keeps the graph, which does not use it.
pub proof fn lemma_tracked_wf(g: &DiffGraph, before: &Trail, after: &Trail, x: usize)
    requires
        g.wf(before),
        after.wf(),
        after@ == before@.push(x),
        after.depth() == before.depth(),
        forall|l: int|
            0 <= l < before.depth() ==> #[trigger] after.saved(l) == before.saved(l).push(x),
    ensures
        g.wf(after),
        same_edges(g, before@, g, after@),
        !g.owner@.dom().contains(before@.len() as usize) || before@.len() > usize::MAX,
{
    assert forall|s: usize| #[trigger] g.owner@.dom().contains(s) implies s < before@.len() by {
        reveal(DiffGraph::good_at);
    }
    lemma_untouched(g, before@, after@);
    assert forall|l: int| 0 <= l < after.depth() implies g.good_at(#[trigger] after.saved(l))
        && g.below(after.saved(l), after@) && after.saved(l).len() == after@.len() by {
        assert(after.saved(l) == before.saved(l).push(x));
        assert(g.below(before.saved(l), before@));
        lemma_untouched(g, before.saved(l), after.saved(l));
    }
    assert forall|l: int, k: int| 0 <= l <= k < after.depth() implies g.below(
        #[trigger] after.saved(l),
        #[trigger] after.saved(k),
    ) by {
        assert(after.saved(l) == before.saved(l).push(x));
        assert(after.saved(k) == before.saved(k).push(x));
        assert(g.below(before.saved(l), before.saved(k)));
    }
}

} // verus!
