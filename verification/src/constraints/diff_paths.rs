//! Paths of active edges, followed forwards or backwards.

use vstd::prelude::*;

use crate::constraints::diff_graph::{DiffEdge, DiffGraph};
use crate::constraints::difference_logic::{
    by_way, closes_cycle, is_path, negative_cycle, path_end, path_value, same_active, same_graph,
    search_through, toward,
};
use crate::helpers::priority_queue::Priority;
use crate::solver::view::IntVal;

verus! {

/// The node that an edge leads to, or from where it comes if it is followed backwards.
pub open spec fn ahead(edge: DiffEdge, reverse: bool) -> int {
    if reverse {
        edge.from as int
    } else {
        edge.to as int
    }
}

/// The node from where an edge comes, or that it leads to if it is followed backwards.
pub open spec fn behind(edge: DiffEdge, reverse: bool) -> int {
    if reverse {
        edge.to as int
    } else {
        edge.from as int
    }
}

/// The node at which the edges arrive.
pub open spec fn arrival(graph: &DiffGraph, reverse: bool, start: int, path: Seq<int>) -> int {
    if path.len() == 0 {
        start
    } else {
        ahead(graph.edges[path.last()], reverse)
    }
}

/// Whether the edges are active and can be followed one after another, forwards or backwards.
pub open spec fn follows(
    graph: &DiffGraph,
    values: Seq<usize>,
    reverse: bool,
    start: int,
    path: Seq<int>,
) -> bool
    decreases path.len(),
{
    path.len() > 0 ==> {
        let e = path.last();
        &&& 0 <= e < graph.edges.len()
        &&& graph.active_at(e, values)
        &&& behind(graph.edges[e], reverse) == arrival(graph, reverse, start, path.drop_last())
        &&& follows(graph, values, reverse, start, path.drop_last())
    }
}

/// Paths that are followed forwards are paths.
pub proof fn lemma_follows_forwards(
    graph: &DiffGraph,
    values: Seq<usize>,
    start: int,
    path: Seq<int>,
)
    ensures
        follows(graph, values, false, start, path) == is_path(graph, values, start, path),
        arrival(graph, false, start, path) == path_end(graph, start, path),
    decreases path.len(),
{
    if path.len() > 0 {
        lemma_follows_forwards(graph, values, start, path.drop_last());
    }
}

/// Paths can be put together.
pub proof fn lemma_follows_join(
    graph: &DiffGraph,
    values: Seq<usize>,
    reverse: bool,
    start: int,
    p: Seq<int>,
    q: Seq<int>,
)
    requires
        follows(graph, values, reverse, start, p),
        follows(graph, values, reverse, arrival(graph, reverse, start, p), q),
    ensures
        follows(graph, values, reverse, start, p + q),
        arrival(graph, reverse, start, p + q) == arrival(
            graph,
            reverse,
            arrival(graph, reverse, start, p),
            q,
        ),
        path_value(graph, p + q) == path_value(graph, p) + path_value(graph, q),
    decreases q.len(),
{
    if q.len() == 0 {
        assert(p + q =~= p);
    } else {
        lemma_follows_join(graph, values, reverse, start, p, q.drop_last());
        assert((p + q).drop_last() =~= p + q.drop_last());
        assert((p + q).last() == q.last());
    }
}

/// A path that is turned round is followed in the other direction.
pub proof fn lemma_follows_reversed(
    graph: &DiffGraph,
    values: Seq<usize>,
    reverse: bool,
    start: int,
    path: Seq<int>,
)
    requires
        follows(graph, values, reverse, start, path),
    ensures
        follows(
            graph,
            values,
            !reverse,
            arrival(graph, reverse, start, path),
            path.reverse(),
        ),
        arrival(graph, !reverse, arrival(graph, reverse, start, path), path.reverse()) == start,
        path_value(graph, path.reverse()) == path_value(graph, path),
    decreases path.len(),
{
    if path.len() == 0 {
        assert(path.reverse() =~= path);
    } else {
        let rest = path.drop_last();
        let e = path.last();
        let end = arrival(graph, reverse, start, path);
        lemma_follows_reversed(graph, values, reverse, start, rest);
        let one = seq![e];
        assert(one.drop_last() =~= Seq::<int>::empty());
        assert(follows(graph, values, !reverse, end, Seq::<int>::empty()));
        assert(follows(graph, values, !reverse, end, one));
        assert(path_value(graph, one) == graph.edges[e].val) by {
            assert(path_value(graph, one.drop_last()) == 0);
        }
        lemma_follows_join(graph, values, !reverse, end, one, rest.reverse());
        assert(path.reverse() =~= one + rest.reverse());
    }
}

/// A part of a path is one.
proof fn lemma_avoids_part(path: Seq<int>, e: int)
    requires
        path.len() > 0,
        !path.contains(e),
    ensures
        !path.drop_last().contains(e),
        path.last() != e,
{
    if path.drop_last().contains(e) {
        let i = path.drop_last().index_of(e);
        assert(path[i] == e);
    }
    assert(path[path.len() - 1] == path.last());
}

/// The label of a node: the one it has in the queue, or the one with which it was visited.
pub open spec fn label_of(
    queue: Map<usize, Priority>,
    seen: Map<usize, Priority>,
    t: usize,
) -> Priority {
    if queue.dom().contains(t) {
        queue[t]
    } else {
        seen[t]
    }
}

/// Whether the node has a label.
pub open spec fn labelled(
    queue: Map<usize, Priority>,
    seen: Map<usize, Priority>,
    t: usize,
) -> bool {
    queue.dom().contains(t) || seen.dom().contains(t)
}

/// Whether a label comes before a distance that is reached by way of the new edge or not.
pub open spec fn no_later(p: Priority, dist: int, relevant: bool) -> bool {
    p.0 < dist || (p.0 == dist && (!p.1 || relevant))
}

/// The value of the walk that a label stands for.
pub open spec fn walked(pi: Seq<IntVal>, reverse: bool, origin: int, t: int, dist: int) -> int {
    dist + toward(pi, reverse, t) - toward(pi, reverse, origin)
}

/// The edges that are followed from a node.
pub open spec fn steps_from(
    graph: &DiffGraph,
    values: Seq<usize>,
    reverse: bool,
    s: int,
) -> Seq<usize> {
    if reverse {
        graph.active_in[s].at(values)
    } else {
        graph.active_out[s].at(values)
    }
}

/// What a search from `origin` by way of an edge to `target` works with.
pub struct Search {
    /// Whether edges are followed backwards.
    pub reverse: bool,
    /// Where the search starts.
    pub origin: int,
    /// Where the edge leads to.
    pub target: int,
    /// The edge.
    pub edge: int,
}

/// Whether the path is one that the label stands for: by way of the edge, in which case it
/// starts behind it, or not. It does not take the edge again.
pub open spec fn way_stands(
    graph: &DiffGraph,
    values: Seq<usize>,
    pi: Seq<IntVal>,
    search: Search,
    t: int,
    p: Priority,
    path: Seq<int>,
) -> bool {
    let start = if p.1 {
        search.target
    } else {
        search.origin
    };
    &&& follows(graph, values, search.reverse, start, path)
    &&& arrival(graph, search.reverse, start, path) == t
    &&& !path.contains(search.edge)
    &&& walked(pi, search.reverse, search.origin, t, p.0 as int) == path_value(graph, path) + if p.1 {
        graph.edges[search.edge].val as int
    } else {
        0
    }
}

/// Whether every label stands for a path.
#[verifier::opaque]
pub open spec fn ways_stand(
    graph: &DiffGraph,
    values: Seq<usize>,
    pi: Seq<IntVal>,
    search: Search,
    queue: Map<usize, Priority>,
    seen: Map<usize, Priority>,
    ways: Map<int, Seq<int>>,
) -> bool {
    forall|t: usize| #[trigger]
        labelled(queue, seen, t) ==> way_stands(
            graph,
            values,
            pi,
            search,
            t as int,
            label_of(queue, seen, t),
            ways[t as int],
        )
}

/// Whether every edge from a visited node leads to a node with a label that is no worse. Of
/// the node `s` only the first `i` edges count.
#[verifier::opaque]
pub open spec fn steps_taken(
    graph: &DiffGraph,
    values: Seq<usize>,
    pi: Seq<IntVal>,
    search: Search,
    queue: Map<usize, Priority>,
    seen: Map<usize, Priority>,
    s: int,
    i: int,
) -> bool {
    forall|a: usize, j: int|
        #![trigger seen.dom().contains(a), steps_from(graph, values, search.reverse, a as int)[j]]
        seen.dom().contains(a) && 0 <= j < steps_from(
            graph,
            values,
            search.reverse,
            a as int,
        ).len() && (a != s || j < i) ==> {
            let e = graph.edges[steps_from(graph, values, search.reverse, a as int)[j] as int];
            let t = ahead(e, search.reverse);
            &&& labelled(queue, seen, t as usize)
            &&& no_later(
                label_of(queue, seen, t as usize),
                seen[a].0 + e.val + toward(pi, search.reverse, a as int) - toward(
                    pi,
                    search.reverse,
                    t,
                ),
                seen[a].1 || (a == search.origin && t == search.target),
            )
        }
}

/// Whether nodes are visited in the order of their labels.
pub open spec fn in_sequence(
    queue: Map<usize, Priority>,
    seen: Map<usize, Priority>,
    last: Priority,
) -> bool {
    &&& forall|t: usize| #[trigger]
        queue.dom().contains(t) ==> no_later(last, queue[t].0 as int, queue[t].1)
    &&& forall|t: usize| #[trigger]
        seen.dom().contains(t) ==> no_later(seen[t], last.0 as int, last.1)
}

/// Whether the distances are those of the visited nodes whose labels stand for paths by way of
/// the edge.
pub open spec fn distances_match(
    pi: Seq<IntVal>,
    search: Search,
    seen: Map<usize, Priority>,
    distances: Map<usize, IntVal>,
) -> bool {
    forall|t: usize| #[trigger]
        seen.dom().contains(t) ==> seen[t].1 == distances.dom().contains(t) && (seen[t].1
            ==> distances[t] == walked(
            pi,
            search.reverse,
            search.origin,
            t as int,
            seen[t].0 as int,
        ))
}

/// Whether a path without the edge leads from the start of the search to the node, and is not
/// longer.
pub open spec fn way_round(
    graph: &DiffGraph,
    values: Seq<usize>,
    search: Search,
    t: int,
    limit: int,
) -> bool {
    exists|q: Seq<int>| #[trigger]
        follows(graph, values, search.reverse, search.origin, q) && arrival(
            graph,
            search.reverse,
            search.origin,
            q,
        ) == t && !q.contains(search.edge) && path_value(graph, q) <= limit
}

/// Whether the distances are the values of paths by way of the edge, and no shorter path by way
/// of the edge is missed, unless a path without it is as short.
pub open spec fn relevant_found(
    graph: &DiffGraph,
    values: Seq<usize>,
    search: Search,
    distances: Map<usize, IntVal>,
) -> bool {
    let val = graph.edges[search.edge].val;
    &&& forall|t: usize| #[trigger]
        distances.dom().contains(t) ==> exists|p: Seq<int>| #[trigger]
            follows(graph, values, search.reverse, search.target, p) && arrival(
                graph,
                search.reverse,
                search.target,
                p,
            ) == t && distances[t] == val + path_value(graph, p)
    &&& forall|p: Seq<int>| #[trigger]
        follows(graph, values, search.reverse, search.target, p) && !p.contains(search.edge) ==> {
            let t = arrival(graph, search.reverse, search.target, p);
            let limit = val + path_value(graph, p);
            ||| distances.dom().contains(t as usize) && distances[t as usize] <= limit
            ||| way_round(graph, values, search, t, limit)
        }
}

/// The end of the search.
pub proof fn lemma_relevant_found(
    graph: &DiffGraph,
    values: Seq<usize>,
    pi: Seq<IntVal>,
    search: Search,
    queue: Map<usize, Priority>,
    seen: Map<usize, Priority>,
    ways: Map<int, Seq<int>>,
    distances: Map<usize, IntVal>,
)
    requires
        graph.structure(),
        graph.good_at(values),
        graph.edges.len() <= usize::MAX,
        0 <= search.edge < graph.edges.len(),
        0 <= search.origin < graph.size(),
        0 <= search.target < graph.size(),
        graph.size() <= usize::MAX,
        ways_stand(graph, values, pi, search, queue, seen, ways),
        steps_taken(graph, values, pi, search, queue, seen, -1, 0),
        distances_match(pi, search, seen, distances),
        labelled(queue, seen, search.target as usize),
        walked(
            pi,
            search.reverse,
            search.origin,
            search.target,
            label_of(queue, seen, search.target as usize).0 as int,
        ) <= graph.edges[search.edge].val,
        // What is left in the queue is not reached by way of the edge.
        forall|t: usize| #[trigger]
            queue.dom().contains(t) ==> !queue[t].1 && !distances.dom().contains(t),
        forall|t: usize| #[trigger] distances.dom().contains(t) ==> labelled(queue, seen, t),
    ensures
        relevant_found(graph, values, search, distances),
{
    let val = graph.edges[search.edge].val;
    assert forall|t: usize| #[trigger] distances.dom().contains(t) implies exists|p: Seq<int>|
        #[trigger] follows(graph, values, search.reverse, search.target, p) && arrival(
            graph,
            search.reverse,
            search.target,
            p,
        ) == t && distances[t] == val + path_value(graph, p) by {
        reveal(ways_stand);
        assert(labelled(queue, seen, t));
        assert(seen.dom().contains(t));
        assert(follows(graph, values, search.reverse, search.target, ways[t as int]));
    }
    assert forall|p: Seq<int>| #[trigger]
        follows(graph, values, search.reverse, search.target, p) && !p.contains(
            search.edge,
        ) implies {
        let t = arrival(graph, search.reverse, search.target, p);
        let limit = val + path_value(graph, p);
        ||| distances.dom().contains(t as usize) && distances[t as usize] <= limit
        ||| way_round(graph, values, search, t, limit)
    } by {
        lemma_path_found(graph, values, pi, search, queue, seen, ways, distances, p);
    }
}

/// A path by way of the edge is found, or one without it is as short.
proof fn lemma_path_found(
    graph: &DiffGraph,
    values: Seq<usize>,
    pi: Seq<IntVal>,
    search: Search,
    queue: Map<usize, Priority>,
    seen: Map<usize, Priority>,
    ways: Map<int, Seq<int>>,
    distances: Map<usize, IntVal>,
    p: Seq<int>,
)
    requires
        graph.structure(),
        graph.good_at(values),
        graph.edges.len() <= usize::MAX,
        0 <= search.edge < graph.edges.len(),
        0 <= search.origin < graph.size(),
        0 <= search.target < graph.size(),
        graph.size() <= usize::MAX,
        ways_stand(graph, values, pi, search, queue, seen, ways),
        steps_taken(graph, values, pi, search, queue, seen, -1, 0),
        distances_match(pi, search, seen, distances),
        labelled(queue, seen, search.target as usize),
        walked(
            pi,
            search.reverse,
            search.origin,
            search.target,
            label_of(queue, seen, search.target as usize).0 as int,
        ) <= graph.edges[search.edge].val,
        forall|t: usize| #[trigger]
            queue.dom().contains(t) ==> !queue[t].1 && !distances.dom().contains(t),
        forall|t: usize| #[trigger] distances.dom().contains(t) ==> labelled(queue, seen, t),
        follows(graph, values, search.reverse, search.target, p),
        !p.contains(search.edge),
    ensures
        ({
            let t = arrival(graph, search.reverse, search.target, p);
            let limit = graph.edges[search.edge].val + path_value(graph, p);
            ||| distances.dom().contains(t as usize) && distances[t as usize] <= limit
            ||| way_round(graph, values, search, t, limit)
        }),
        0 <= arrival(graph, search.reverse, search.target, p) < graph.size(),
    decreases p.len(),
{
    let val = graph.edges[search.edge].val as int;
    let t = arrival(graph, search.reverse, search.target, p);
    let limit = val + path_value(graph, p);
    if p.len() == 0 {
        lemma_label_found(
            graph,
            values,
            pi,
            search,
            queue,
            seen,
            ways,
            distances,
            search.target as usize,
            limit,
        );
    } else {
        let rest = p.drop_last();
        let e = p.last();
        lemma_avoids_part(p, search.edge);
        lemma_path_found(graph, values, pi, search, queue, seen, ways, distances, rest);
        graph.lemma_edge(e);
        let a = arrival(graph, search.reverse, search.target, rest);
        let before = val + path_value(graph, rest);
        assert(limit == before + graph.edges[e].val);
        if way_round(graph, values, search, a, before) {
            let q = choose|q: Seq<int>| #[trigger]
                follows(graph, values, search.reverse, search.origin, q) && arrival(
                    graph,
                    search.reverse,
                    search.origin,
                    q,
                ) == a && !q.contains(search.edge) && path_value(graph, q) <= before;
            let more = q.push(e);
            assert(more.drop_last() =~= q);
            assert(!more.contains(search.edge)) by {
                if more.contains(search.edge) {
                    let i = more.index_of(search.edge);
                    if i < q.len() {
                        assert(q[i] == search.edge);
                    }
                }
            }
            assert(follows(graph, values, search.reverse, search.origin, more));
        } else {
            let au = a as usize;
            assert(seen.dom().contains(au)) by {
                assert(labelled(queue, seen, au));
            }
            let r = graph.lemma_active_listed(values, e);
            let j = if search.reverse {
                r.1
            } else {
                r.0
            };
            assert(steps_from(graph, values, search.reverse, au as int)[j] == e);
            assert(labelled(queue, seen, t as usize) && no_later(
                label_of(queue, seen, t as usize),
                seen[au].0 + graph.edges[e].val + toward(pi, search.reverse, au as int) - toward(
                    pi,
                    search.reverse,
                    t,
                ),
                seen[au].1 || (au == search.origin && t == search.target),
            )) by {
                reveal(steps_taken);
            }
            lemma_label_found(
                graph,
                values,
                pi,
                search,
                queue,
                seen,
                ways,
                distances,
                t as usize,
                limit,
            );
        }
    }
}

/// What a label stands for was found.
proof fn lemma_label_found(
    graph: &DiffGraph,
    values: Seq<usize>,
    pi: Seq<IntVal>,
    search: Search,
    queue: Map<usize, Priority>,
    seen: Map<usize, Priority>,
    ways: Map<int, Seq<int>>,
    distances: Map<usize, IntVal>,
    t: usize,
    limit: int,
)
    requires
        ways_stand(graph, values, pi, search, queue, seen, ways),
        distances_match(pi, search, seen, distances),
        labelled(queue, seen, t),
        walked(
            pi,
            search.reverse,
            search.origin,
            t as int,
            label_of(queue, seen, t).0 as int,
        ) <= limit,
        forall|t: usize| #[trigger]
            queue.dom().contains(t) ==> !queue[t].1 && !distances.dom().contains(t),
    ensures
        distances.dom().contains(t) && distances[t] <= limit || way_round(
            graph,
            values,
            search,
            t as int,
            limit,
        ),
{
    reveal(ways_stand);
    let p = label_of(queue, seen, t);
    if !p.1 {
        assert(follows(graph, values, search.reverse, search.origin, ways[t as int]));
    } else {
        assert(seen.dom().contains(t));
    }
}

/// A node is taken from the queue.
pub proof fn lemma_node_taken(
    graph: &DiffGraph,
    values: Seq<usize>,
    pi: Seq<IntVal>,
    search: Search,
    queue: Map<usize, Priority>,
    seen: Map<usize, Priority>,
    ways: Map<int, Seq<int>>,
    last: Priority,
    s: usize,
)
    requires
        ways_stand(graph, values, pi, search, queue, seen, ways),
        steps_taken(graph, values, pi, search, queue, seen, -1, 0),
        in_sequence(queue, seen, last),
        queue.dom().contains(s),
        !seen.dom().contains(s),
        forall|t: usize| #[trigger]
            queue.dom().contains(t) ==> no_later(queue[s], queue[t].0 as int, queue[t].1),
    ensures
        ways_stand(graph, values, pi, search, queue.remove(s), seen.insert(s, queue[s]), ways),
        steps_taken(
            graph,
            values,
            pi,
            search,
            queue.remove(s),
            seen.insert(s, queue[s]),
            s as int,
            0,
        ),
        in_sequence(queue.remove(s), seen.insert(s, queue[s]), queue[s]),
{
    let (q, m) = (queue.remove(s), seen.insert(s, queue[s]));
    assert forall|t: usize| #[trigger] labelled(q, m, t) implies labelled(queue, seen, t)
        && label_of(q, m, t) == label_of(queue, seen, t) by {}
    assert(ways_stand(graph, values, pi, search, q, m, ways)) by {
        reveal(ways_stand);
    }
    assert(steps_taken(graph, values, pi, search, q, m, s as int, 0)) by {
        reveal(steps_taken);
        assert forall|a: usize, j: int|
            #![trigger m.dom().contains(a), steps_from(graph, values, search.reverse, a as int)[j]]
            m.dom().contains(a) && 0 <= j < steps_from(
                graph,
                values,
                search.reverse,
                a as int,
            ).len() && (a != s || j < 0) implies {
            let e = graph.edges[steps_from(graph, values, search.reverse, a as int)[j] as int];
            let t = ahead(e, search.reverse);
            &&& labelled(q, m, t as usize)
            &&& no_later(
                label_of(q, m, t as usize),
                m[a].0 + e.val + toward(pi, search.reverse, a as int) - toward(
                    pi,
                    search.reverse,
                    t,
                ),
                m[a].1 || (a == search.origin && t == search.target),
            )
        } by {
            assert(seen.dom().contains(a));
            let e = graph.edges[steps_from(graph, values, search.reverse, a as int)[j] as int];
            let t = ahead(e, search.reverse) as usize;
            assert(labelled(queue, seen, t));
            assert(labelled(q, m, t));
        }
    }
}

/// An edge from the node that is visited is followed.
pub proof fn lemma_step_taken(
    graph: &DiffGraph,
    values: Seq<usize>,
    pi: Seq<IntVal>,
    search: Search,
    queue: Map<usize, Priority>,
    after: Map<usize, Priority>,
    seen: Map<usize, Priority>,
    ways: Map<int, Seq<int>>,
    s: usize,
    i: int,
    p: Priority,
) -> (more: Map<int, Seq<int>>)
    requires
        ways_stand(graph, values, pi, search, queue, seen, ways),
        steps_taken(graph, values, pi, search, queue, seen, s as int, i),
        in_sequence(queue, seen, seen[s]),
        forall|x: usize| #[trigger] queue.dom().contains(x) ==> !seen.dom().contains(x),
        seen.dom().contains(s),
        0 <= i < steps_from(graph, values, search.reverse, s as int).len(),
        ({
            let k = steps_from(graph, values, search.reverse, s as int)[i] as int;
            let e = graph.edges[k];
            let t = ahead(e, search.reverse);
            let through = s == search.origin && t == search.target;
            &&& 0 <= k < graph.edges.len()
            &&& graph.active_at(k, values)
            &&& behind(e, search.reverse) == s
            &&& 0 <= t <= usize::MAX
            &&& p.0 == seen[s].0 + e.val + toward(pi, search.reverse, s as int) - toward(
                pi,
                search.reverse,
                t,
            )
            &&& p.0 >= seen[s].0
            &&& p.1 == (seen[s].1 || through)
            &&& if !seen.dom().contains(t as usize) && (!queue.dom().contains(t as usize)
                || !no_later(queue[t as usize], p.0 as int, p.1)) {
                &&& after == queue.insert(t as usize, p)
                &&& k != search.edge
                &&& p.1 == seen[s].1
            } else {
                after == queue
            }
        }),
    ensures
        ways_stand(graph, values, pi, search, after, seen, more),
        steps_taken(graph, values, pi, search, after, seen, s as int, i + 1),
        in_sequence(after, seen, seen[s]),
{
    let k = steps_from(graph, values, search.reverse, s as int)[i] as int;
    let e = graph.edges[k];
    let t = ahead(e, search.reverse) as usize;
    let more = if after == queue {
        ways
    } else {
        ways.insert(t as int, ways[s as int].push(k))
    };
    assert(ways_stand(graph, values, pi, search, after, seen, more)) by {
        reveal(ways_stand);
        if after != queue {
            assert forall|x: usize| #[trigger] labelled(after, seen, x) implies way_stands(
                graph,
                values,
                pi,
                search,
                x as int,
                label_of(after, seen, x),
                more[x as int],
            ) by {
                if x == t {
                    assert(labelled(queue, seen, s));
                    let path = ways[s as int];
                    let long = path.push(k);
                    assert(label_of(queue, seen, s) == seen[s]);
                    assert(long.drop_last() =~= path);
                    assert(!long.contains(search.edge)) by {
                        if long.contains(search.edge) {
                            let j = long.index_of(search.edge);
                            if j < path.len() {
                                assert(path[j] == search.edge);
                            }
                        }
                    }
                } else {
                    assert(labelled(queue, seen, x));
                    assert(label_of(after, seen, x) == label_of(queue, seen, x));
                }
            }
        }
    }
    assert(steps_taken(graph, values, pi, search, after, seen, s as int, i + 1)) by {
        reveal(steps_taken);
        assert forall|a: usize, j: int|
            #![trigger seen.dom().contains(a), steps_from(graph, values, search.reverse, a as int)[j]]
            seen.dom().contains(a) && 0 <= j < steps_from(
                graph,
                values,
                search.reverse,
                a as int,
            ).len() && (a != s || j < i + 1) implies {
            let f = graph.edges[steps_from(graph, values, search.reverse, a as int)[j] as int];
            let x = ahead(f, search.reverse);
            &&& labelled(after, seen, x as usize)
            &&& no_later(
                label_of(after, seen, x as usize),
                seen[a].0 + f.val + toward(pi, search.reverse, a as int) - toward(
                    pi,
                    search.reverse,
                    x,
                ),
                seen[a].1 || (a == search.origin && x == search.target),
            )
        } by {
            if a == s && j == i {
                if seen.dom().contains(t) {
                    assert(no_later(seen[t], seen[s].0 as int, seen[s].1));
                }
            } else {
                let f = graph.edges[steps_from(graph, values, search.reverse, a as int)[j] as int];
                let x = ahead(f, search.reverse) as usize;
                assert(labelled(queue, seen, x));
            }
        }
    }
    more
}

/// Whether the paths lead from `a` to the start of the edge, and from its end to `b`, without
/// taking the edge themselves.
pub open spec fn joined_by(
    graph: &DiffGraph,
    values: Seq<usize>,
    edge: int,
    a: int,
    r: Seq<int>,
    p: Seq<int>,
    b: int,
) -> bool {
    &&& is_path(graph, values, a, r)
    &&& path_end(graph, a, r) == graph.edges[edge].from
    &&& !r.contains(edge)
    &&& is_path(graph, values, graph.edges[edge].to as int, p)
    &&& path_end(graph, graph.edges[edge].to as int, p) == b
    &&& !p.contains(edge)
}

/// The value of the path that two paths form with the edge between them.
pub open spec fn joined_value(graph: &DiffGraph, edge: int, r: Seq<int>, p: Seq<int>) -> int {
    path_value(graph, r) + graph.edges[edge].val + path_value(graph, p)
}

/// Whether a path without the edge leads from `a` to `b`, and its value is at most `limit`.
pub open spec fn bypassed(
    graph: &DiffGraph,
    values: Seq<usize>,
    edge: int,
    a: int,
    b: int,
    limit: int,
) -> bool {
    exists|s: Seq<int>| #[trigger]
        is_path(graph, values, a, s) && path_end(graph, a, s) == b && !s.contains(edge)
            && path_value(graph, s) <= limit
}

/// Whether what active edges say of the given edge by way of a new one was noticed: if a path
/// by way of the new edge implies or rules out the given one, it is closed, unless a path
/// without the new edge is as short.
pub open spec fn noticed(
    graph: &DiffGraph,
    values: Seq<usize>,
    new_index: int,
    edge: DiffEdge,
    closed: bool,
) -> bool {
    &&& forall|r: Seq<int>, p: Seq<int>| #[trigger]
        joined_by(graph, values, new_index, edge.from as int, r, p, edge.to as int)
            && joined_value(graph, new_index, r, p) <= edge.val ==> closed || bypassed(
            graph,
            values,
            new_index,
            edge.from as int,
            edge.to as int,
            joined_value(graph, new_index, r, p),
        )
    &&& forall|r: Seq<int>, p: Seq<int>| #[trigger]
        joined_by(graph, values, new_index, edge.to as int, r, p, edge.from as int)
            && joined_value(graph, new_index, r, p) + edge.val < 0 ==> closed || bypassed(
            graph,
            values,
            new_index,
            edge.to as int,
            edge.from as int,
            joined_value(graph, new_index, r, p),
        )
}

proof fn lemma_avoids_join(p: Seq<int>, q: Seq<int>, e: int)
    requires
        !p.contains(e),
        !q.contains(e),
    ensures
        !(p + q).contains(e),
{
    if (p + q).contains(e) {
        let i = (p + q).index_of(e);
        if i < p.len() {
            assert(p[i] == e);
        } else {
            assert(q[i - p.len()] == e);
        }
    }
}

proof fn lemma_avoids_reversed(p: Seq<int>, e: int)
    requires
        !p.contains(e),
    ensures
        !p.reverse().contains(e),
{
    if p.reverse().contains(e) {
        let i = p.reverse().index_of(e);
        assert(p[p.len() - 1 - i] == e);
    }
}

/// Paths can be put together.
proof fn lemma_bypass_join(
    graph: &DiffGraph,
    values: Seq<usize>,
    edge: int,
    a: int,
    p: Seq<int>,
    q: Seq<int>,
    limit: int,
)
    requires
        is_path(graph, values, a, p),
        is_path(graph, values, path_end(graph, a, p), q),
        !p.contains(edge),
        !q.contains(edge),
        path_value(graph, p) + path_value(graph, q) <= limit,
    ensures
        bypassed(
            graph,
            values,
            edge,
            a,
            path_end(graph, path_end(graph, a, p), q),
            limit,
        ),
{
    let m = path_end(graph, a, p);
    lemma_follows_forwards(graph, values, a, p);
    lemma_follows_forwards(graph, values, m, q);
    lemma_follows_join(graph, values, false, a, p, q);
    lemma_follows_forwards(graph, values, a, p + q);
    lemma_avoids_join(p, q, edge);
    assert(is_path(graph, values, a, p + q));
}

/// A path by way of the edge shows in the distances, or a path without it is as short.
pub proof fn lemma_joined_shows(
    graph: &DiffGraph,
    values: Seq<usize>,
    edge: int,
    incoming: Map<usize, IntVal>,
    outgoing: Map<usize, IntVal>,
    a: int,
    r: Seq<int>,
    p: Seq<int>,
    b: int,
)
    requires
        0 <= edge < graph.edges.len(),
        0 <= a <= usize::MAX,
        0 <= b <= usize::MAX,
        relevant_found(graph, values, search_through(graph, edge, false), incoming),
        relevant_found(graph, values, search_through(graph, edge, true), outgoing),
        joined_by(graph, values, edge, a, r, p, b),
    ensures
        bypassed(graph, values, edge, a, b, joined_value(graph, edge, r, p)) || by_way(
            incoming,
            outgoing,
            graph.edges[edge].val as int,
            a as usize,
            b as usize,
            joined_value(graph, edge, r, p),
        ),
{
    let (u, v) = (graph.edges[edge].from as int, graph.edges[edge].to as int);
    let val = graph.edges[edge].val as int;
    let limit = joined_value(graph, edge, r, p);
    let forward = search_through(graph, edge, false);
    let backward = search_through(graph, edge, true);
    lemma_follows_forwards(graph, values, v, p);
    lemma_follows_forwards(graph, values, a, r);
    lemma_follows_reversed(graph, values, false, a, r);
    lemma_avoids_reversed(r, edge);
    assert(follows(graph, values, false, forward.target, p));
    assert(follows(graph, values, true, backward.target, r.reverse()));
    if way_round(graph, values, forward, b, val + path_value(graph, p)) {
        let q = choose|q: Seq<int>| #[trigger]
            follows(graph, values, forward.reverse, forward.origin, q) && arrival(
                graph,
                forward.reverse,
                forward.origin,
                q,
            ) == b && !q.contains(edge) && path_value(graph, q) <= val + path_value(graph, p);
        lemma_follows_forwards(graph, values, u, q);
        lemma_bypass_join(graph, values, edge, a, r, q, limit);
    } else if way_round(graph, values, backward, a, val + path_value(graph, r.reverse())) {
        let q = choose|q: Seq<int>| #[trigger]
            follows(graph, values, backward.reverse, backward.origin, q) && arrival(
                graph,
                backward.reverse,
                backward.origin,
                q,
            ) == a && !q.contains(edge) && path_value(graph, q) <= val + path_value(
                graph,
                r.reverse(),
            );
        lemma_follows_reversed(graph, values, true, v, q);
        lemma_avoids_reversed(q, edge);
        lemma_follows_forwards(graph, values, a, q.reverse());
        lemma_bypass_join(graph, values, edge, a, q.reverse(), p, limit);
    } else {
        assert(follows(graph, values, forward.reverse, forward.target, p));
        assert(follows(graph, values, backward.reverse, backward.target, r.reverse()));
        assert(!p.contains(forward.edge) && !r.reverse().contains(backward.edge));
        assert(arrival(graph, forward.reverse, forward.target, p) == b);
        assert(arrival(graph, backward.reverse, backward.target, r.reverse()) == a);
    }
}

/// An edge is bypassed by a parallel one that is not larger.
pub proof fn lemma_parallel_bypass(
    graph: &DiffGraph,
    values: Seq<usize>,
    edge: int,
    k: int,
    a: int,
    r: Seq<int>,
    p: Seq<int>,
    b: int,
)
    requires
        0 <= k < graph.edges.len(),
        k != edge,
        graph.active_at(k, values),
        graph.edges[k].from == graph.edges[edge].from,
        graph.edges[k].to == graph.edges[edge].to,
        graph.edges[k].val <= graph.edges[edge].val,
        joined_by(graph, values, edge, a, r, p, b),
    ensures
        bypassed(graph, values, edge, a, b, joined_value(graph, edge, r, p)),
{
    let first = r.push(k);
    assert(first.drop_last() =~= r);
    assert(is_path(graph, values, a, first));
    assert(path_value(graph, first) == path_value(graph, r) + graph.edges[k].val);
    assert(!first.contains(edge)) by {
        if first.contains(edge) {
            let i = first.index_of(edge);
            if i < r.len() {
                assert(r[i] == edge);
            }
        }
    }
    lemma_bypass_join(
        graph,
        values,
        edge,
        a,
        first,
        p,
        joined_value(graph, edge, r, p),
    );
}

/// Whether what active edges say of the edges with a gate by way of a new edge was noticed: the
/// edges that it settles are closed later on.
pub open spec fn all_noticed(
    graph: &DiffGraph,
    values: Seq<usize>,
    new_index: int,
    after: &DiffGraph,
    later: Seq<usize>,
) -> bool {
    forall|e: int|
        0 <= e < graph.edges.len() && (#[trigger] graph.edges[e]).bool_var is Some ==> noticed(
            graph,
            values,
            new_index,
            graph.edges[e],
            after.closed_at(e, later),
        )
}

/// Whether a path of active edges bounds the difference of the nodes by `limit`.
pub open spec fn bounded_by_path(
    graph: &DiffGraph,
    values: Seq<usize>,
    a: int,
    b: int,
    limit: int,
) -> bool {
    exists|s: Seq<int>| #[trigger]
        is_path(graph, values, a, s) && path_end(graph, a, s) == b && path_value(graph, s) <= limit
}

/// Whether a path of active edges implies the edge, or rules it out.
pub open spec fn told_by_path(graph: &DiffGraph, values: Seq<usize>, edge: DiffEdge) -> bool {
    ||| bounded_by_path(graph, values, edge.from as int, edge.to as int, edge.val as int)
    ||| bounded_by_path(graph, values, edge.to as int, edge.from as int, -edge.val - 1)
}

/// What the distances show is what a path shows.
pub proof fn lemma_way_is_path(
    graph: &DiffGraph,
    values: Seq<usize>,
    edge: int,
    incoming: Map<usize, IntVal>,
    outgoing: Map<usize, IntVal>,
    a: usize,
    b: usize,
    limit: int,
)
    requires
        0 <= edge < graph.edges.len(),
        graph.active_at(edge, values),
        relevant_found(graph, values, search_through(graph, edge, false), incoming),
        relevant_found(graph, values, search_through(graph, edge, true), outgoing),
        by_way(incoming, outgoing, graph.edges[edge].val as int, a, b, limit),
    ensures
        bounded_by_path(graph, values, a as int, b as int, limit),
{
    let (u, v) = (graph.edges[edge].from as int, graph.edges[edge].to as int);
    let forward = search_through(graph, edge, false);
    let backward = search_through(graph, edge, true);
    let p = choose|p: Seq<int>| #[trigger]
        follows(graph, values, forward.reverse, forward.target, p) && arrival(
            graph,
            forward.reverse,
            forward.target,
            p,
        ) == b && incoming[b] == graph.edges[edge].val + path_value(graph, p);
    let back = choose|p: Seq<int>| #[trigger]
        follows(graph, values, backward.reverse, backward.target, p) && arrival(
            graph,
            backward.reverse,
            backward.target,
            p,
        ) == a && outgoing[a] == graph.edges[edge].val + path_value(graph, p);
    lemma_follows_reversed(graph, values, true, u, back);
    let r = back.reverse();
    lemma_follows_forwards(graph, values, a as int, r);
    lemma_follows_forwards(graph, values, v, p);
    let first = r.push(edge);
    assert(first.drop_last() =~= r);
    assert(is_path(graph, values, a as int, first));
    lemma_follows_forwards(graph, values, a as int, first);
    lemma_follows_join(graph, values, false, a as int, first, p);
    lemma_follows_forwards(graph, values, a as int, first + p);
    assert(is_path(graph, values, a as int, first + p));
}

/// Whether no edge is left open that has come to be implied or ruled out: what active edges
/// tell of an open edge they told before.
pub open spec fn none_missed(
    before: &DiffGraph,
    values: Seq<usize>,
    after: &DiffGraph,
    later: Seq<usize>,
) -> bool {
    forall|e: int|
        0 <= e < after.edges.len() && (#[trigger] after.edges[e]).bool_var is Some
            && !after.closed_at(e, later) && told_by_path(after, later, after.edges[e])
            ==> told_by_path(before, values, after.edges[e])
}

/// A path stays one as long as its edges are active.
proof fn lemma_path_elsewhere(
    g: &DiffGraph,
    values: Seq<usize>,
    h: &DiffGraph,
    later: Seq<usize>,
    a: int,
    path: Seq<int>,
)
    requires
        same_graph(g, h),
        is_path(g, values, a, path),
        forall|k: int|
            0 <= k < g.edges.len() && path.contains(k) && #[trigger] g.active_at(k, values)
                ==> h.active_at(k, later),
    ensures
        is_path(h, later, a, path),
        path_end(h, a, path) == path_end(g, a, path),
        path_value(h, path) == path_value(g, path),
    decreases path.len(),
{
    if path.len() > 0 {
        let e = path.last();
        let rest = path.drop_last();
        assert forall|k: int|
            0 <= k < g.edges.len() && rest.contains(k) && #[trigger] g.active_at(
                k,
                values,
            ) implies h.active_at(k, later) by {
            let i = rest.index_of(k);
            assert(path[i] == k);
        }
        assert(path[path.len() - 1] == e);
        assert(path.contains(e));
        assert(h.edges[e].same_but_positions(g.edges[e]));
        lemma_path_elsewhere(g, values, h, later, a, rest);
    }
}

/// A path that takes an edge can be cut down to one that takes it once.
proof fn lemma_taken_once(
    graph: &DiffGraph,
    values: Seq<usize>,
    edge: int,
    a: int,
    path: Seq<int>,
) -> (r: (Seq<int>, Seq<int>))
    requires
        0 <= edge < graph.edges.len(),
        is_path(graph, values, a, path),
        path.contains(edge),
        !negative_cycle(graph, values, edge),
    ensures
        joined_by(graph, values, edge, a, r.0, r.1, path_end(graph, a, path)),
        joined_value(graph, edge, r.0, r.1) <= path_value(graph, path),
    decreases path.len(),
{
    let e = path.last();
    let rest = path.drop_last();
    if e == edge {
        let none = Seq::<int>::empty();
        if rest.contains(edge) {
            let (r, p) = lemma_taken_once(graph, values, edge, a, rest);
            assert(path_value(graph, p) + graph.edges[edge].val >= 0) by {
                if path_value(graph, p) + graph.edges[edge].val < 0 {
                    assert(closes_cycle(graph, values, edge, p));
                }
            }
            (r, none)
        } else {
            (rest, none)
        }
    } else {
        let i = path.index_of(edge);
        assert(rest[i] == edge);
        let (r, p) = lemma_taken_once(graph, values, edge, a, rest);
        let longer = p.push(e);
        assert(longer.drop_last() =~= p);
        assert(!longer.contains(edge)) by {
            if longer.contains(edge) {
                let j = longer.index_of(edge);
                if j < p.len() {
                    assert(p[j] == edge);
                }
            }
        }
        assert(path_end(graph, graph.edges[edge].to as int, p) == path_end(graph, a, rest));
        (r, longer)
    }
}

/// What was noticed of a new edge leaves nothing to tell of an open edge that was not told
/// without it.
pub proof fn lemma_none_missed_new(
    before: &DiffGraph,
    values: Seq<usize>,
    graph: &DiffGraph,
    between: Seq<usize>,
    new_index: int,
    after: &DiffGraph,
    later: Seq<usize>,
)
    requires
        same_graph(before, graph),
        same_graph(graph, after),
        0 <= new_index < graph.edges.len(),
        forall|k: int|
            0 <= k < before.edges.len() && k != new_index ==> graph.active_at(k, between)
                == #[trigger] before.active_at(k, values),
        same_active(graph, between, after, later),
        !negative_cycle(graph, between, new_index),
        all_noticed(graph, between, new_index, after, later),
    ensures
        none_missed(before, values, after, later),
{
    assert forall|e: int|
        0 <= e < after.edges.len() && (#[trigger] after.edges[e]).bool_var is Some
            && !after.closed_at(e, later) && told_by_path(
            after,
            later,
            after.edges[e],
        ) implies told_by_path(before, values, after.edges[e]) by {
        let edge = after.edges[e];
        assert(edge.same_but_positions(graph.edges[e]));
        assert(graph.edges[e].bool_var is Some);
        assert(noticed(graph, between, new_index, graph.edges[e], false));
        let (from, to) = (edge.from as int, edge.to as int);
        if bounded_by_path(after, later, from, to, edge.val as int) {
            lemma_bounded_before(
                before,
                values,
                graph,
                between,
                new_index,
                after,
                later,
                e,
                from,
                to,
                edge.val as int,
            );
        } else {
            lemma_bounded_before(
                before,
                values,
                graph,
                between,
                new_index,
                after,
                later,
                e,
                to,
                from,
                -edge.val - 1,
            );
        }
    }
}

proof fn lemma_bounded_before(
    before: &DiffGraph,
    values: Seq<usize>,
    graph: &DiffGraph,
    between: Seq<usize>,
    new_index: int,
    after: &DiffGraph,
    later: Seq<usize>,
    e: int,
    a: int,
    b: int,
    limit: int,
)
    requires
        same_graph(before, graph),
        same_graph(graph, after),
        0 <= new_index < graph.edges.len(),
        forall|k: int|
            0 <= k < before.edges.len() && k != new_index ==> graph.active_at(k, between)
                == #[trigger] before.active_at(k, values),
        same_active(graph, between, after, later),
        !negative_cycle(graph, between, new_index),
        0 <= e < graph.edges.len(),
        noticed(graph, between, new_index, graph.edges[e], false),
        ({
            let edge = graph.edges[e];
            ||| a == edge.from && b == edge.to && limit == edge.val
            ||| a == edge.to && b == edge.from && limit == -edge.val - 1
        }),
        bounded_by_path(after, later, a, b, limit),
    ensures
        bounded_by_path(before, values, a, b, limit),
{
    let s = choose|s: Seq<int>| #[trigger]
        is_path(after, later, a, s) && path_end(after, a, s) == b && path_value(after, s) <= limit;
    assert forall|k: int| 0 <= k < graph.edges.len() implies (
    #[trigger] graph.edges[k]).same_but_positions(after.edges[k]) by {
        assert(after.edges[k].same_but_positions(graph.edges[k]));
    }
    assert(same_graph(after, graph));
    assert forall|k: int| 0 <= k < graph.edges.len() && s.contains(k) && #[trigger] after.active_at(
        k,
        later,
    ) implies graph.active_at(k, between) by {
        assert(graph.active_at(k, between) == after.active_at(k, later));
    }
    lemma_path_elsewhere(after, later, graph, between, a, s);
    let t = if s.contains(new_index) {
        let (r, p) = lemma_taken_once(graph, between, new_index, a, s);
        assert(joined_by(graph, between, new_index, a, r, p, b));
        let total = joined_value(graph, new_index, r, p);
        assert(bypassed(graph, between, new_index, a, b, total));
        choose|t: Seq<int>| #[trigger]
            is_path(graph, between, a, t) && path_end(graph, a, t) == b && !t.contains(new_index)
                && path_value(graph, t) <= total
    } else {
        s
    };
    assert forall|k: int| 0 <= k < before.edges.len() implies (
    #[trigger] before.edges[k]).same_but_positions(graph.edges[k]) by {
        assert(graph.edges[k].same_but_positions(before.edges[k]));
    }
    assert forall|k: int| 0 <= k < graph.edges.len() && t.contains(k) && #[trigger] graph.active_at(
        k,
        between,
    ) implies before.active_at(k, values) by {
        assert(graph.active_at(k, between) == before.active_at(k, values));
    }
    lemma_path_elsewhere(graph, between, before, values, a, t);
}

/// Nothing is missed where no edge becomes active.
pub proof fn lemma_none_missed_same(
    g: &DiffGraph,
    values: Seq<usize>,
    h: &DiffGraph,
    later: Seq<usize>,
)
    requires
        same_graph(g, h),
        same_active(g, values, h, later),
    ensures
        none_missed(g, values, h, later),
{
    assert forall|k: int| 0 <= k < g.edges.len() implies (
    #[trigger] g.edges[k]).same_but_positions(h.edges[k]) by {
        assert(h.edges[k].same_but_positions(g.edges[k]));
    }
    assert(same_graph(h, g));
    assert forall|a: int, b: int, limit: int| #[trigger]
        bounded_by_path(h, later, a, b, limit) implies bounded_by_path(
        g,
        values,
        a,
        b,
        limit,
    ) by {
        let s = choose|s: Seq<int>| #[trigger]
            is_path(h, later, a, s) && path_end(h, a, s) == b && path_value(h, s) <= limit;
        assert forall|k: int| 0 <= k < h.edges.len() && s.contains(k) && #[trigger] h.active_at(
            k,
            later,
        ) implies g.active_at(k, values) by {
            assert(g.active_at(k, values) == h.active_at(k, later));
        }
        lemma_path_elsewhere(h, later, g, values, a, s);
    }
}

/// What is not missed in two parts of a run is not missed in both.
pub proof fn lemma_none_missed_join(
    f: &DiffGraph,
    first: Seq<usize>,
    g: &DiffGraph,
    second: Seq<usize>,
    h: &DiffGraph,
    third: Seq<usize>,
)
    requires
        none_missed(f, first, g, second),
        none_missed(g, second, h, third),
        same_graph(g, h),
        forall|e: int|
            0 <= e < g.edges.len() && (#[trigger] g.edges[e]).bool_var is Some && g.closed_at(
                e,
                second,
            ) ==> h.closed_at(e, third),
    ensures
        none_missed(f, first, h, third),
{
    assert forall|e: int|
        0 <= e < h.edges.len() && (#[trigger] h.edges[e]).bool_var is Some && !h.closed_at(e, third)
            && told_by_path(h, third, h.edges[e]) implies told_by_path(f, first, h.edges[e]) by {
        assert(h.edges[e].same_but_positions(g.edges[e]));
        assert(g.edges[e].bool_var is Some);
        assert(told_by_path(g, second, g.edges[e]));
    }
}

} // verus!
