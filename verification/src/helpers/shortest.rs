//! Shortest paths in graphs whose arcs may have negative weights.
//!
//! An arc of weight `w` from `u` to `v` bounds the potential of `v` by that of `u` plus `w`.
//! Potentials that keep all bounds exist unless the graph has a cycle of negative weight.

use vstd::prelude::*;
use vstd::set_lib::{lemma_int_range, lemma_len_subset, set_int_range};

use crate::helpers::priority_queue::{before, LazyPriorityQueue, Priority};
use crate::helpers::saturating::{clamped, saturating_add, saturating_sub};
use crate::solver::view::IntVal;

verus! {

/// An arc of a graph.
#[derive(Clone, Copy, Debug, PartialEq, Eq, Hash, Structural)]
pub struct WeightedArc {
    /// The node that the arc starts from.
    pub from: usize,
    /// The node that the arc leads to.
    pub to: usize,
    /// The weight of the arc.
    pub weight: IntVal,
}

/// Whether the arcs connect nodes below `n`.
pub open spec fn arcs_within(arcs: Seq<WeightedArc>, n: int) -> bool {
    forall|k: int|
        0 <= k < arcs.len() ==> (#[trigger] arcs[k]).from < n && arcs[k].to < n
}

/// Whether the potentials keep the bound of every arc.
pub open spec fn admissible(arcs: Seq<WeightedArc>, p: Seq<int>) -> bool {
    forall|k: int|
        0 <= k < arcs.len() ==> p[(#[trigger] arcs[k]).to as int] <= p[arcs[k].from as int]
            + arcs[k].weight
}

/// Whether there are potentials that keep the bound of every arc.
pub open spec fn has_potentials(arcs: Seq<WeightedArc>, n: int) -> bool {
    exists|p: Seq<int>| p.len() == n && #[trigger] admissible(arcs, p)
}

/// The least of `prev[v]` and what the first `m` arcs into `v` allow.
pub open spec fn best(arcs: Seq<WeightedArc>, prev: Seq<int>, m: int, v: int) -> int
    decreases m,
{
    if m <= 0 {
        prev[v]
    } else {
        let b = best(arcs, prev, m - 1, v);
        let arc = arcs[m - 1];
        if arc.to == v && prev[arc.from as int] + arc.weight < b {
            prev[arc.from as int] + arc.weight
        } else {
            b
        }
    }
}

/// For each node, the least weight of a walk of at most `k` arcs that ends there, when a walk
/// starts with the weight that `init` gives its first node.
pub open spec fn walks(arcs: Seq<WeightedArc>, init: Seq<int>, k: nat) -> Seq<int>
    decreases k,
{
    if k == 0 {
        init
    } else {
        Seq::new(
            init.len(),
            |v: int| best(arcs, walks(arcs, init, (k - 1) as nat), arcs.len() as int, v),
        )
    }
}

/// The same start for every walk.
pub open spec fn zeros(n: nat) -> Seq<int> {
    Seq::new(n, |v: int| 0)
}

pub proof fn lemma_best(arcs: Seq<WeightedArc>, prev: Seq<int>, m: int, v: int)
    requires
        0 <= m <= arcs.len(),
    ensures
        best(arcs, prev, m, v) <= prev[v],
        forall|j: int|
            0 <= j < m && (#[trigger] arcs[j]).to == v ==> best(arcs, prev, m, v)
                <= prev[arcs[j].from as int] + arcs[j].weight,
        best(arcs, prev, m, v) == prev[v] || exists|j: int|
            0 <= j < m && (#[trigger] arcs[j]).to == v && best(arcs, prev, m, v)
                == prev[arcs[j].from as int] + arcs[j].weight,
    decreases m,
{
    if m > 0 {
        lemma_best(arcs, prev, m - 1, v);
        let b = best(arcs, prev, m - 1, v);
        let arc = arcs[m - 1];
        if arc.to == v && prev[arc.from as int] + arc.weight < b {
            assert(arcs[m - 1].to == v && best(arcs, prev, m, v) == prev[arcs[m - 1].from as int]
                + arcs[m - 1].weight);
        } else if b != prev[v] {
            let j = choose|j: int|
                0 <= j < m - 1 && (#[trigger] arcs[j]).to == v && b == prev[arcs[j].from as int]
                    + arcs[j].weight;
            assert(0 <= j < m && arcs[j].to == v);
        }
    }
}

/// Longer walks weigh no more.
pub proof fn lemma_walks_decrease(arcs: Seq<WeightedArc>, init: Seq<int>, k: nat, l: nat, v: int)
    requires
        k <= l,
        0 <= v < init.len(),
    ensures
        walks(arcs, init, l)[v] <= walks(arcs, init, k)[v],
    decreases l,
{
    if k < l {
        lemma_walks_decrease(arcs, init, k, (l - 1) as nat, v);
        lemma_best(arcs, walks(arcs, init, (l - 1) as nat), arcs.len() as int, v);
    }
}

/// Where a walk of exactly `k` arcs is lighter than all shorter ones, so are its parts.
proof fn lemma_walk_chain(arcs: Seq<WeightedArc>, init: Seq<int>, p: Seq<int>, k: nat, v: int) -> (c: Seq<
    int,
>)
    requires
        arcs_within(arcs, init.len() as int),
        p.len() == init.len(),
        admissible(arcs, p),
        k >= 1,
        0 <= v < init.len(),
        walks(arcs, init, k)[v] < walks(arcs, init, (k - 1) as nat)[v],
    ensures
        c.len() == k + 1,
        c[k as int] == v,
        forall|i: int| 0 <= i <= k ==> 0 <= #[trigger] c[i] < init.len(),
        forall|i: int|
            1 <= i <= k ==> walks(arcs, init, i as nat)[#[trigger] c[i]] < walks(arcs, init, (i - 1) as nat,
            )[c[i]],
        forall|i: int|
            1 <= i <= k ==> walks(arcs, init, i as nat)[#[trigger] c[i]] - p[c[i]] >= walks(arcs, init, (i - 1) as nat,
            )[c[i - 1]] - p[c[i - 1]],
    decreases k,
{
    let prev = walks(arcs, init, (k - 1) as nat);
    lemma_best(arcs, prev, arcs.len() as int, v);
    let j = choose|j: int|
        0 <= j < arcs.len() && (#[trigger] arcs[j]).to == v && best(
            arcs,
            prev,
            arcs.len() as int,
            v,
        ) == prev[arcs[j].from as int] + arcs[j].weight;
    let u = arcs[j].from as int;
    if k == 1 {
        let c = seq![u, v];
        assert forall|i: int| 1 <= i <= k implies walks(arcs, init, i as nat)[#[trigger] c[i]] < walks(arcs, init, (i - 1) as nat,
        )[c[i]] && walks(arcs, init, i as nat)[c[i]] - p[c[i]] >= walks(arcs, init, (i - 1) as nat,
        )[c[i - 1]] - p[c[i - 1]] by {
            assert(i == 1);
        }
        c
    } else {
        let before = walks(arcs, init, (k - 2) as nat);
        lemma_best(arcs, before, arcs.len() as int, v);
        lemma_best(arcs, before, arcs.len() as int, u);
        assert(prev[u] < before[u]);
        let rest = lemma_walk_chain(arcs, init, p, (k - 1) as nat, u);
        let c = rest.push(v);
        assert forall|i: int| 1 <= i <= k implies walks(arcs, init, i as nat)[#[trigger] c[i]] < walks(arcs, init, (i - 1) as nat,
        )[c[i]] && walks(arcs, init, i as nat)[c[i]] - p[c[i]] >= walks(arcs, init, (i - 1) as nat,
        )[c[i - 1]] - p[c[i - 1]] by {
            if i < k {
                assert(c[i] == rest[i]);
                assert(c[i - 1] == rest[i - 1]);
            } else {
                assert(c[i] == v && c[i - 1] == rest[k - 1]);
            }
        }
        assert forall|i: int| 0 <= i <= k implies 0 <= #[trigger] c[i] < init.len() by {
            if i < k {
                assert(c[i] == rest[i]);
            }
        }
        c
    }
}

/// What is known of the potentials accumulates along a chain.
proof fn lemma_chain_grows(
    arcs: Seq<WeightedArc>,
    init: Seq<int>,
    p: Seq<int>,
    c: Seq<int>,
    i: int,
    j: int,
)
    requires
        0 <= i <= j < c.len(),
        forall|i: int|
            1 <= i < c.len() ==> walks(arcs, init, i as nat)[#[trigger] c[i]] - p[c[i]] >= walks(arcs, init, (i - 1) as nat,
            )[c[i - 1]] - p[c[i - 1]],
    ensures
        walks(arcs, init, j as nat)[c[j]] - p[c[j]] >= walks(arcs, init, i as nat)[c[i]] - p[c[i]],
    decreases j,
{
    if i < j {
        lemma_chain_grows(arcs, init, p, c, i, j - 1);
        assert(walks(arcs, init, j as nat)[c[j]] - p[c[j]] >= walks(arcs, init, (j - 1) as nat)[c[j - 1]]
            - p[c[j - 1]]);
    }
}

/// A sequence of more values than there are to choose from has one twice.
pub proof fn lemma_repeats(c: Seq<int>, n: int) -> (r: (int, int))
    requires
        0 <= n < c.len(),
        forall|i: int| 0 <= i < c.len() ==> 0 <= #[trigger] c[i] < n,
    ensures
        0 <= r.0 < r.1 < c.len(),
        c[r.0] == c[r.1],
{
    if c.no_duplicates() {
        c.unique_seq_to_set();
        lemma_int_range(0, n);
        assert(c.to_set().subset_of(set_int_range(0, n)));
        lemma_len_subset(c.to_set(), set_int_range(0, n));
        assert(false);
        (0, 1)
    } else {
        let (i, j) = choose|i: int, j: int|
            0 <= i < c.len() && 0 <= j < c.len() && i != j && c[i] == c[j];
        if i < j {
            (i, j)
        } else {
            (j, i)
        }
    }
}

/// Where potentials exist, walks of more arcs than there are other nodes weigh no less.
pub proof fn lemma_walks_stable(arcs: Seq<WeightedArc>, init: Seq<int>, v: int)
    requires
        arcs_within(arcs, init.len() as int),
        has_potentials(arcs, init.len() as int),
        0 <= v < init.len(),
    ensures
        walks(arcs, init, init.len())[v] == walks(arcs, init, (init.len() - 1) as nat)[v],
{
    let p = choose|p: Seq<int>| p.len() == init.len() && #[trigger] admissible(arcs, p);
    lemma_walks_decrease(arcs, init, (init.len() - 1) as nat, init.len(), v);
    if walks(arcs, init, init.len())[v] < walks(arcs, init, (init.len() - 1) as nat)[v] {
        let c = lemma_walk_chain(arcs, init, p, init.len(), v);
        let (i, j) = lemma_repeats(c, init.len() as int);
        lemma_chain_grows(arcs, init, p, c, i, j);
        lemma_walks_decrease(arcs, init, i as nat, (j - 1) as nat, c[j]);
        assert(walks(arcs, init, j as nat)[c[j]] < walks(arcs, init, (j - 1) as nat)[c[j]]);
    }
}

/// A weight with which no sum of a search over `n` nodes and `m` arcs can leave the range of
/// values.
pub open spec fn weight_room(n: int, m: int) -> int {
    IntVal::MAX as int / (8 * (n + 1) * (m + 1))
}

/// How far a value is from zero.
pub open spec fn magnitude(x: int) -> int {
    if x < 0 {
        -x
    } else {
        x
    }
}

/// The sum of the magnitudes of the first `k` weights.
pub open spec fn span(arcs: Seq<WeightedArc>, k: int) -> int
    decreases k,
{
    if k <= 0 {
        0
    } else {
        span(arcs, k - 1) + magnitude(arcs[k - 1].weight as int)
    }
}

/// Whether no sum of the search can leave the range: each of up to `n` rounds moves a potential
/// by no more than all arcs together, and a distance adds a path and two potentials.
pub open spec fn weights_fit(arcs: Seq<WeightedArc>, n: int) -> bool {
    8 * (n + 1) * span(arcs, arcs.len() as int) <= IntVal::MAX
}

/// The sum grows with the arcs.
pub proof fn lemma_span_grows(arcs: Seq<WeightedArc>, k: int, l: int)
    requires
        0 <= k <= l <= arcs.len(),
    ensures
        0 <= span(arcs, k) <= span(arcs, l),
    decreases l,
{
    if k < l {
        lemma_span_grows(arcs, k, l - 1);
    } else if k > 0 {
        lemma_span_grows(arcs, k - 1, k - 1);
    }
}

/// No weight exceeds the sum.
proof fn lemma_span_weights(arcs: Seq<WeightedArc>)
    ensures
        span(arcs, arcs.len() as int) >= 0,
        forall|k: int|
            0 <= k < arcs.len() ==> -span(arcs, arcs.len() as int) <= (#[trigger] arcs[k]).weight
                <= span(arcs, arcs.len() as int),
{
    lemma_span_grows(arcs, 0, arcs.len() as int);
    assert forall|k: int| 0 <= k < arcs.len() implies -span(arcs, arcs.len() as int) <= (
    #[trigger] arcs[k]).weight <= span(arcs, arcs.len() as int) by {
        lemma_span_grows(arcs, k + 1, arcs.len() as int);
        lemma_span_grows(arcs, 0, k);
        assert(span(arcs, k + 1) == span(arcs, k) + magnitude(arcs[k].weight as int));
    }
}

/// What fitting weights leave room for.
pub proof fn lemma_span_room(arcs: Seq<WeightedArc>, n: int)
    requires
        n >= 0,
        weights_fit(arcs, n),
    ensures
        ({
            let w = span(arcs, arcs.len() as int);
            &&& w >= 0
            &&& n * w * 4 <= IntVal::MAX
            &&& w * 4 <= IntVal::MAX
            &&& n * w * 8 <= IntVal::MAX
            &&& 2 * (2 * (n * w) + n * w + w) <= IntVal::MAX
            &&& 4 * (n * w + w) <= IntVal::MAX
        }),
{
    lemma_span_weights(arcs);
    let w = span(arcs, arcs.len() as int);
    assert(n * w * 8 + w * 8 == 8 * (n + 1) * w && n * w >= 0) by (nonlinear_arith)
        requires
            n >= 0,
            w >= 0,
    ;
}

/// Small weights fit.
pub proof fn lemma_small_weights_fit(arcs: Seq<WeightedArc>, n: int, m: int)
    requires
        n >= 0,
        arcs.len() <= m,
        forall|k: int|
            0 <= k < arcs.len() ==> -weight_room(n, m) <= (#[trigger] arcs[k]).weight
                <= weight_room(n, m),
    ensures
        weights_fit(arcs, n),
{
    let room = weight_room(n, m);
    lemma_weight_room(n, m);
    lemma_span_small(arcs, arcs.len() as int, room);
    let (w, k) = (span(arcs, arcs.len() as int), arcs.len() as int);
    assert(8 * (n + 1) * w <= 8 * (n + 1) * (m + 1) * room) by (nonlinear_arith)
        requires
            n >= 0,
            0 <= k <= m,
            room >= 0,
            w <= k * room,
    ;
}

proof fn lemma_span_small(arcs: Seq<WeightedArc>, k: int, room: int)
    requires
        0 <= k <= arcs.len(),
        forall|i: int| 0 <= i < arcs.len() ==> -room <= (#[trigger] arcs[i]).weight <= room,
    ensures
        span(arcs, k) <= k * room,
    decreases k,
{
    if k > 0 {
        lemma_span_small(arcs, k - 1, room);
        assert(-room <= arcs[k - 1].weight <= room);
        assert(k * room == (k - 1) * room + room) by (nonlinear_arith);
    } else {
        assert(k * room == 0) by (nonlinear_arith)
            requires
                k == 0,
        ;
    }
}

/// Whether no arc lowers a potential.
pub open spec fn stable(arcs: Seq<WeightedArc>, pi: Seq<IntVal>) -> bool {
    forall|k: int|
        0 <= k < arcs.len() ==> pi[(#[trigger] arcs[k]).to as int] <= clamped(
            pi[arcs[k].from as int] + arcs[k].weight,
        )
}

pub proof fn lemma_weight_room(n: int, m: int)
    requires
        n >= 0,
        m >= 0,
    ensures
        weight_room(n, m) >= 0,
        8 * (n + 1) * (m + 1) * weight_room(n, m) <= IntVal::MAX,
        n * m * weight_room(n, m) * 4 <= IntVal::MAX,
        n * weight_room(n, m) * 4 <= IntVal::MAX,
        weight_room(n, m) * 4 <= IntVal::MAX,
        2 * (2 * (n * m * weight_room(n, m)) + n * weight_room(n, m) + weight_room(n, m))
            <= IntVal::MAX,
        4 * (n * weight_room(n, m) + weight_room(n, m)) <= IntVal::MAX,
{
    let w = weight_room(n, m);
    let q = 8 * (n + 1) * (m + 1);
    let x = IntVal::MAX as int;
    assert(q >= 4) by (nonlinear_arith)
        requires
            n >= 0,
            m >= 0,
            q == 8 * (n + 1) * (m + 1),
    ;
    assert(0 <= w && q * w <= x) by (nonlinear_arith)
        requires
            q >= 4,
            x >= 0,
            w == x / q,
    ;
    assert(n * m * w * 4 <= q * w && n * w * 4 <= q * w && w * 4 <= q * w) by (nonlinear_arith)
        requires
            n >= 0,
            m >= 0,
            w >= 0,
            q == 8 * (n + 1) * (m + 1),
    ;
    assert(2 * (2 * (n * m * w) + n * w + w) <= q * w && 4 * (n * w + w) <= q * w)
        by (nonlinear_arith)
        requires
            n >= 0,
            m >= 0,
            w >= 0,
            q == 8 * (n + 1) * (m + 1),
    ;
}

/// Potentials of the nodes by repeated relaxation, starting from zero, and whether the last of
/// at most `n` rounds changed any.
pub fn bellman_ford(n: usize, arcs: &Vec<WeightedArc>) -> (r: (Vec<IntVal>, bool))
    requires
        arcs_within(arcs@, n as int),
    ensures
        r.0.len() == n,
        forall|v: int| 0 <= v < n ==> #[trigger] r.0[v] <= 0,
        !r.1 ==> stable(arcs@, r.0@),
        weights_fit(arcs@, n as int) ==> {
            &&& forall|v: int|
                0 <= v < n ==> #[trigger] r.0[v] >= -(n * span(arcs@, arcs.len() as int))
            &&& n > 0 && has_potentials(arcs@, n as int) ==> !r.1
        },
{
    let m: usize = arcs.len();
    let ghost fits = weights_fit(arcs@, n as int);
    let ghost room = span(arcs@, m as int);
    let ghost sat = has_potentials(arcs@, n as int);
    let ghost limit: Seq<int> = walks(arcs@, zeros(n as nat), (n - 1) as nat);
    proof {
        lemma_span_weights(arcs@);
        if fits {
            lemma_span_room(arcs@, n as int);
        }
        if n > 0 && sat {
            assert forall|v: int| 0 <= v < n implies #[trigger] limit[v] <= 0 by {
                lemma_walks_decrease(arcs@, zeros(n as nat), 0, (n - 1) as nat, v);
            }
            assert forall|k: int| 0 <= k < m implies limit[(#[trigger] arcs@[k]).to as int]
                <= limit[arcs@[k].from as int] + arcs@[k].weight by {
                let v = arcs@[k].to as int;
                lemma_walks_stable(arcs@, zeros(n as nat), v);
                lemma_best(arcs@, limit, m as int, v);
            }
        }
    }
    let mut pi: Vec<IntVal> = vec![0; n];
    let mut changed: bool = true;
    let ghost mut low: int = 0;
    let mut round: usize = 0;
    while round < n
        invariant_except_break
            round <= n,
            fits && sat && n > 0 ==> round < n,
            m == arcs.len(),
            arcs_within(arcs@, n as int),
            pi.len() == n,
            fits == weights_fit(arcs@, n as int),
            room == span(arcs@, m as int),
            room >= 0,
            fits ==> n * room * 4 <= IntVal::MAX,
            fits ==> room * 4 <= IntVal::MAX,
            low == round * room,
            sat == has_potentials(arcs@, n as int),
            limit == walks(arcs@, zeros(n as nat), (n - 1) as nat),
            sat && n > 0 ==> forall|v: int| 0 <= v < n ==> #[trigger] limit[v] <= 0,
            sat && n > 0 ==> forall|k: int|
                0 <= k < m ==> limit[(#[trigger] arcs@[k]).to as int]
                    <= limit[arcs@[k].from as int] + arcs@[k].weight,
            forall|v: int| 0 <= v < n ==> #[trigger] pi[v] <= 0,
            fits ==> forall|v: int| 0 <= v < n ==> #[trigger] pi[v] >= -low,
            fits ==> forall|v: int|
                0 <= v < n ==> #[trigger] pi[v] <= walks(arcs@, zeros(n as nat), round as nat)[v],
            fits && sat && n > 0 ==> forall|v: int| 0 <= v < n ==> #[trigger] pi[v] >= limit[v],
            changed,
        ensures
            pi.len() == n,
            forall|v: int| 0 <= v < n ==> #[trigger] pi[v] <= 0,
            fits ==> forall|v: int| 0 <= v < n ==> #[trigger] pi[v] >= -(n * room),
            !changed ==> stable(arcs@, pi@),
            fits && sat && n > 0 ==> !changed,
        decreases n - round,
    {
        changed = false;
        let ghost prev = walks(arcs@, zeros(n as nat), round as nat);
        let ghost low0 = low;
        let ghost start = pi@;
        proof {
            assert((round + 1) * room == round * room + room) by (nonlinear_arith);
            assert((round + 1) * room <= n * room && round * room >= 0) by (nonlinear_arith)
                requires
                    0 <= round,
                    round + 1 <= n,
                    room >= 0,
            ;
        }
        let mut i: usize = 0;
        while i < m
            invariant
                i <= m == arcs.len(),
                round < n,
                arcs_within(arcs@, n as int),
                pi.len() == n,
                start.len() == n,
                fits == weights_fit(arcs@, n as int),
                room == span(arcs@, m as int),
                room >= 0,
                fits ==> n * room * 4 <= IntVal::MAX,
                fits ==> room * 4 <= IntVal::MAX,
                low == low0 + span(arcs@, i as int),
                low0 + room <= n * room,
                low0 >= 0,
                sat && n > 0 ==> forall|k: int|
                    0 <= k < m ==> limit[(#[trigger] arcs@[k]).to as int]
                        <= limit[arcs@[k].from as int] + arcs@[k].weight,
                prev == walks(arcs@, zeros(n as nat), round as nat),
                limit == walks(arcs@, zeros(n as nat), (n - 1) as nat),
                forall|v: int| 0 <= v < n ==> #[trigger] pi[v] <= 0,
                fits ==> forall|v: int| 0 <= v < n ==> #[trigger] pi[v] >= -low,
                fits ==> forall|v: int|
                    0 <= v < n ==> #[trigger] pi[v] <= best(arcs@, prev, i as int, v),
                fits ==> forall|v: int| 0 <= v < n ==> #[trigger] pi[v] <= prev[v],
                fits && sat && n > 0 ==> forall|v: int|
                    0 <= v < n ==> #[trigger] pi[v] >= limit[v],
                !changed ==> pi@ == start,
                !changed ==> forall|k: int|
                    0 <= k < i ==> start[(#[trigger] arcs@[k]).to as int] <= clamped(
                        start[arcs@[k].from as int] + arcs@[k].weight,
                    ),
                fits && sat && round == n - 1 ==> !changed,
            decreases m - i,
        {
            let arc: WeightedArc = arcs[i];
            let ghost before = pi@;
            proof {
                assert(arcs@[i as int].from < n && arcs@[i as int].to < n);
                lemma_span_grows(arcs@, i as int, m as int);
                lemma_span_grows(arcs@, i + 1, m as int);
                assert(span(arcs@, i + 1) == span(arcs@, i as int) + magnitude(
                    arcs@[i as int].weight as int,
                ));
            }
            let cand: IntVal = saturating_add(pi[arc.from], arc.weight);
            proof {
                if fits {
                    lemma_span_weights(arcs@);
                    assert(-room <= arcs@[i as int].weight <= room);
                    assert(pi[arc.from as int] >= -low);
                    assert(pi[arc.from as int] <= 0);
                    assert(cand == pi[arc.from as int] + arc.weight);
                    assert(pi[arc.from as int] <= prev[arc.from as int]);
                }
            }
            if cand < pi[arc.to] {
                proof {
                    if fits && sat && round == n - 1 {
                        assert(limit[arcs@[i as int].to as int]
                            <= limit[arcs@[i as int].from as int] + arcs@[i as int].weight);
                        assert(pi[arc.from as int] >= limit[arc.from as int]);
                        assert(pi[arc.to as int] <= prev[arc.to as int]);
                        assert(false);
                    }
                }
                pi.set(arc.to, cand);
                changed = true;
                proof {
                    if fits && sat && n > 0 {
                        assert(limit[arcs@[i as int].to as int]
                            <= limit[arcs@[i as int].from as int] + arcs@[i as int].weight);
                        assert(before[arc.from as int] >= limit[arc.from as int]);
                    }
                }
            }
            proof {
                if fits {
                    assert forall|v: int| 0 <= v < n implies #[trigger] pi@[v] <= best(
                        arcs@,
                        prev,
                        i + 1,
                        v,
                    ) by {
                        assert(before[v] <= best(arcs@, prev, i as int, v));
                        if v == arc.to {
                            assert(pi@[v] <= cand);
                        }
                    }
                }
                low = low + magnitude(arcs@[i as int].weight as int);
            }
            i = i + 1;
        }
        proof {
            if fits {
                assert forall|v: int| 0 <= v < n implies #[trigger] pi@[v] <= walks(arcs@, zeros(n as nat), (round + 1) as nat,
                )[v] by {
                    assert(pi@[v] <= best(arcs@, prev, m as int, v));
                }
            }
        }
        proof {
            assert(low == (round + 1) * room);
        }
        if !changed {
            proof {
                assert(stable(arcs@, pi@));
            }
            break ;
        }
        round = round + 1;
    }
    (pi, changed)
}


/// Whether `out` lists, for each node, the indices of the arcs that start from it.
pub open spec fn lists_out(arcs: Seq<WeightedArc>, out: Seq<Vec<usize>>, n: int) -> bool {
    &&& out.len() == n
    &&& forall|u: int, i: int|
        0 <= u < n && 0 <= i < out[u].len() ==> (#[trigger] out[u]@[i]) < arcs.len()
            && arcs[out[u]@[i] as int].from == u
    &&& forall|k: int|
        0 <= k < arcs.len() ==> (out[(#[trigger] arcs[k]).from as int]@).contains(k as usize)
}

/// The weight of an arc relative to the potentials of its ends.
pub open spec fn reduced(arc: WeightedArc, pi: Seq<IntVal>) -> int {
    clamped(clamped(pi[arc.from as int] + arc.weight) - pi[arc.to as int])
}

/// Whether the bound of a potential by a walk from `src` holds for all admissible potentials.
pub open spec fn bounds_potential(arcs: Seq<WeightedArc>, n: int, src: int, v: int, d: int) -> bool {
    forall|p: Seq<int>|
        p.len() == n && #[trigger] admissible(arcs, p) ==> p[v] <= p[src] + d
}

/// What holds of the labels while the nodes of `settled` have been visited: the queue holds
/// the labelled nodes that are left, none of which comes before a settled one, and the arcs
/// from settled nodes lower no label.
spec fn labelled(
    arcs: Seq<WeightedArc>,
    n: int,
    pi: Seq<IntVal>,
    labels: Seq<IntVal>,
    queue: Map<usize, Priority>,
    settled: Set<int>,
) -> bool {
    &&& labels.len() == n
    &&& settled.finite()
    &&& settled.subset_of(set_int_range(0, n))
    &&& forall|v: int| 0 <= v < n ==> #[trigger] labels[v] >= 0
    &&& forall|v: usize| #[trigger]
        queue.dom().contains(v) ==> v < n && !settled.contains(v as int) && queue[v] == (
            labels[v as int],
            false,
        ) && labels[v as int] < IntVal::MAX
    &&& forall|v: int|
        0 <= v < n && #[trigger] labels[v] < IntVal::MAX && !settled.contains(v)
            ==> queue.dom().contains(v as usize)
    &&& forall|v: int| #[trigger] settled.contains(v) ==> labels[v] < IntVal::MAX
    &&& forall|s: int, v: int|
        #[trigger] settled.contains(s) && 0 <= v < n && !settled.contains(v) ==> labels[s]
            <= #[trigger] labels[v]
}

/// Whether the arc lowers no label.
spec fn relaxed(arc: WeightedArc, pi: Seq<IntVal>, labels: Seq<IntVal>) -> bool {
    labels[arc.to as int] <= clamped(labels[arc.from as int] + reduced(arc, pi))
}

/// Where no sum leaves the range, the labels stand for walks from `src`, of at most `hops`
/// arcs.
spec fn walked(
    arcs: Seq<WeightedArc>,
    n: int,
    pi: Seq<IntVal>,
    labels: Seq<IntVal>,
    src: int,
    hops: int,
    room: int,
) -> bool {
    forall|v: int|
        0 <= v < n && #[trigger] labels[v] < IntVal::MAX ==> {
            let d = labels[v] + pi[v] - pi[src];
            &&& d <= hops * room
            &&& bounds_potential(arcs, n, src, v, d)
        }
}

/// What distances from `src` are: the unreachable nodes have the largest value, the others
/// the weight of a walk, and no arc leads to a smaller one.
pub open spec fn distances(
    arcs: Seq<WeightedArc>,
    n: int,
    src: int,
    dist: Seq<IntVal>,
) -> bool {
    &&& dist.len() == n
    &&& dist[src] == 0
    &&& forall|k: int|
        0 <= k < arcs.len() && dist[(#[trigger] arcs[k]).from as int] < IntVal::MAX ==> dist[arcs[k].to as int]
            < IntVal::MAX && dist[arcs[k].to as int] <= dist[arcs[k].from as int]
            + arcs[k].weight
    &&& forall|v: int|
        0 <= v < n && #[trigger] dist[v] < IntVal::MAX ==> bounds_potential(
            arcs,
            n,
            src,
            v,
            dist[v] as int,
        )
    &&& forall|v: int|
        0 <= v < n && #[trigger] dist[v] < IntVal::MAX ==> -IntVal::MAX <= 2 * dist[v]
            <= IntVal::MAX
}

/// The distances of all nodes from `src`.
#[verifier::spinoff_prover]
pub fn dijkstra(
    n: usize,
    arcs: &Vec<WeightedArc>,
    out: &Vec<Vec<usize>>,
    pi: &Vec<IntVal>,
    src: usize,
) -> (dist: Vec<IntVal>)
    requires
        src < n,
        arcs_within(arcs@, n as int),
        lists_out(arcs@, out@, n as int),
        pi.len() == n,
        forall|v: int| 0 <= v < n ==> #[trigger] pi[v] <= 0,
        stable(arcs@, pi@),
    ensures
        dist.len() == n,
        weights_fit(arcs@, n as int) && (forall|v: int|
            0 <= v < n ==> #[trigger] pi[v] >= -(n * span(arcs@, arcs.len() as int)))
            ==> distances(arcs@, n as int, src as int, dist@),
{
    let ghost m = arcs.len() as int;
    let ghost room = span(arcs@, m);
    let ghost low = n * room;
    let ghost fits = weights_fit(arcs@, n as int) && (forall|v: int|
        0 <= v < n ==> #[trigger] pi[v] >= -low);
    let ghost mut settled: Set<int> = Set::empty();
    let mut labels: Vec<IntVal> = vec![IntVal::MAX; n];
    labels.set(src, 0);
    let mut queue: LazyPriorityQueue = LazyPriorityQueue::new();
    queue.push(src, (0, false));
    proof {
        lemma_span_weights(arcs@);
        if fits {
            lemma_span_room(arcs@, n as int);
        }
        assert(low >= 0) by (nonlinear_arith)
            requires
                n >= 0,
                m >= 0,
                room >= 0,
                low == n * room,
        ;
        assert(labelled(arcs@, n as int, pi@, labels@, queue@, settled));
        if fits {
            assert(walked(arcs@, n as int, pi@, labels@, src as int, 0, room));
        }
    }
    while !queue.is_empty()
        invariant
            src < n,
            m == arcs.len(),
            room == span(arcs@, m),
            room >= 0,
            low == n * room,
            low >= 0,
            fits ==> 2 * (2 * low + n * room + room) <= IntVal::MAX,
            fits == (weights_fit(arcs@, n as int) && (forall|v: int|
                0 <= v < n ==> #[trigger] pi[v] >= -low)),
            arcs_within(arcs@, n as int),
            lists_out(arcs@, out@, n as int),
            pi.len() == n,
            forall|v: int| 0 <= v < n ==> #[trigger] pi[v] <= 0,
            stable(arcs@, pi@),
            queue.wf(),
            labelled(arcs@, n as int, pi@, labels@, queue@, settled),
            labels[src as int] == 0,
            forall|k: int|
                0 <= k < arcs.len() && settled.contains((#[trigger] arcs@[k]).from as int)
                    ==> relaxed(arcs@[k], pi@, labels@),
            fits ==> walked(
                arcs@,
                n as int,
                pi@,
                labels@,
                src as int,
                settled.len() as int,
                room,
            ),
        decreases n - settled.len(),
    {
        let ghost q0 = queue@;
        let ghost settled0 = settled;
        let popped: Option<(usize, Priority)> = queue.pop();
        match popped {
            None => {},
            Some((u, p)) => {
                let d_u: IntVal = p.0;
                proof {
                    assert(q0.dom().contains(u));
                    settled = settled.insert(u as int);
                    lemma_int_range(0, n as int);
                    lemma_len_subset(settled, set_int_range(0, n as int));
                    assert forall|s: int, v: int|
                        #[trigger] settled.contains(s) && 0 <= v < n && !settled.contains(
                            v,
                        ) implies labels[s] <= #[trigger] labels[v] by {
                        if s == u && labels[v] < IntVal::MAX {
                            assert(q0.dom().contains(v as usize));
                            assert(!before(q0[v as usize], p));
                        }
                    }
                    assert(labelled(arcs@, n as int, pi@, labels@, queue@, settled));
                    assert(settled.len() == settled0.len() + 1);
                    if fits {
                        let hops = settled.len() as int;
                        assert((hops - 1) * room <= hops * room) by (nonlinear_arith)
                            requires
                                room >= 0,
                        ;
                        assert(walked(arcs@, n as int, pi@, labels@, src as int, hops, room));
                        assert(labels[u as int] + pi[u as int] - pi[src as int] <= (hops - 1)
                            * room);
                    }
                }
                let mut i: usize = 0;
                while i < out[u].len()
                    invariant
                        i <= out[u as int].len(),
                        src < n,
                        u < n,
                        m == arcs.len(),
                        room == span(arcs@, m),
                        room >= 0,
                        low == n * room,
                        low >= 0,
                        fits ==> 2 * (2 * low + n * room + room) <= IntVal::MAX,
                        fits == (weights_fit(arcs@, n as int) && (forall|v: int|
                            0 <= v < n ==> #[trigger] pi[v] >= -low)),
                        arcs_within(arcs@, n as int),
                        lists_out(arcs@, out@, n as int),
                        pi.len() == n,
                        forall|v: int| 0 <= v < n ==> #[trigger] pi[v] <= 0,
                        stable(arcs@, pi@),
                        queue.wf(),
                        labelled(arcs@, n as int, pi@, labels@, queue@, settled),
                        labels[src as int] == 0,
                        settled == settled0.insert(u as int),
                        settled.contains(u as int),
                        settled.len() == settled0.len() + 1,
                        settled.len() <= n,
                        labels[u as int] == d_u,
                        d_u < IntVal::MAX,
                        forall|s: int| #[trigger] settled.contains(s) ==> labels[s] <= d_u,
                        forall|k: int|
                            0 <= k < arcs.len() && settled0.contains(
                                (#[trigger] arcs@[k]).from as int,
                            ) ==> relaxed(arcs@[k], pi@, labels@),
                        forall|l: int|
                            0 <= l < i ==> relaxed(
                                arcs@[#[trigger] out[u as int]@[l] as int],
                                pi@,
                                labels@,
                            ),
                        fits ==> labels[u as int] + pi[u as int] - pi[src as int] <= (settled.len()
                            - 1) * room,
                        fits ==> walked(
                            arcs@,
                            n as int,
                            pi@,
                            labels@,
                            src as int,
                            settled.len() as int,
                            room,
                        ),
                    decreases out[u as int].len() - i,
                {
                    let k: usize = out[u][i];
                    let arc: WeightedArc = arcs[k];
                    let v: usize = arc.to;
                    let ghost before_labels = labels@;
                    let ghost before_queue = queue@;
                    proof {
                        assert(arcs@[k as int].from == u);
                        assert(pi@[arcs@[k as int].to as int] <= clamped(
                            pi@[arcs@[k as int].from as int] + arcs@[k as int].weight,
                        ));
                    }
                    let w: IntVal = saturating_sub(saturating_add(pi[u], arc.weight), pi[v]);
                    let alt: IntVal = saturating_add(d_u, w);
                    assert(w >= 0);
                    assert(labels[u as int] >= 0);
                    if alt < labels[v] {
                        labels.set(v, alt);
                        queue.push_increase(v, (alt, false));
                        proof {
                            assert(!settled.contains(v as int));
                            assert(queue@ == before_queue.insert(v, (alt, false)));
                            lemma_label_lowered(
                                arcs@,
                                n as int,
                                pi@,
                                before_labels,
                                before_queue,
                                settled,
                                v,
                                alt,
                                d_u,
                            );
                            if fits {
                                lemma_label_walked(
                                    arcs@,
                                    n as int,
                                    pi@,
                                    before_labels,
                                    src as int,
                                    settled.len() as int,
                                    room,
                                    low,
                                    k as int,
                                    alt,
                                );
                            }
                            assert forall|k2: int|
                                0 <= k2 < arcs.len() && settled0.contains(
                                    (#[trigger] arcs@[k2]).from as int,
                                ) implies relaxed(arcs@[k2], pi@, labels@) by {
                                assert(relaxed(arcs@[k2], pi@, before_labels));
                                assert(settled.contains(arcs@[k2].from as int));
                            }
                            assert forall|l: int| 0 <= l < i implies relaxed(
                                arcs@[#[trigger] out[u as int]@[l] as int],
                                pi@,
                                labels@,
                            ) by {
                                let k2 = out[u as int]@[l] as int;
                                assert(relaxed(arcs@[k2], pi@, before_labels));
                                assert(arcs@[k2].from == u);
                            }
                        }
                    }
                    proof {
                        assert(reduced(arcs@[k as int], pi@) == w);
                        assert(relaxed(arcs@[k as int], pi@, labels@));
                    }
                    i = i + 1;
                }
                proof {
                    assert forall|k: int|
                        0 <= k < arcs.len() && settled.contains(
                            (#[trigger] arcs@[k]).from as int,
                        ) implies relaxed(arcs@[k], pi@, labels@) by {
                        if arcs@[k].from == u {
                            assert(out@[u as int]@.contains(k as usize));
                            let l = out@[u as int]@.index_of(k as usize);
                            assert(relaxed(
                                arcs@[out[u as int]@[l] as int],
                                pi@,
                                labels@,
                            ));
                        }
                    }
                }
            },
        }
    }
    let mut dist: Vec<IntVal> = vec![IntVal::MAX; n];
    let mut v: usize = 0;
    while v < n
        invariant
            v <= n == labels.len() == pi.len() == dist.len(),
            src < n,
            forall|k: int|
                0 <= k < v ==> #[trigger] dist[k] == if labels[k] == IntVal::MAX {
                    IntVal::MAX as int
                } else {
                    clamped(clamped(labels[k] + pi[k]) - pi[src as int])
                },
            forall|k: int| v <= k < n ==> #[trigger] dist[k] == IntVal::MAX,
        decreases n - v,
    {
        if labels[v] != IntVal::MAX {
            dist.set(v, saturating_sub(saturating_add(labels[v], pi[v]), pi[src]));
        }
        v = v + 1;
    }
    proof {
        if fits {
            lemma_int_range(0, n as int);
            lemma_len_subset(settled, set_int_range(0, n as int));
            lemma_distances(
                arcs@,
                n as int,
                pi@,
                labels@,
                queue@,
                settled,
                src as int,
                room,
                low,
                dist@,
            );
        }
    }
    dist
}

proof fn lemma_label_lowered(
    arcs: Seq<WeightedArc>,
    n: int,
    pi: Seq<IntVal>,
    labels: Seq<IntVal>,
    queue: Map<usize, Priority>,
    settled: Set<int>,
    v: usize,
    alt: IntVal,
    d_u: IntVal,
)
    requires
        labelled(arcs, n, pi, labels, queue, settled),
        v < n,
        !settled.contains(v as int),
        0 <= d_u <= alt < labels[v as int],
        forall|s: int| #[trigger] settled.contains(s) ==> labels[s] <= d_u,
    ensures
        labelled(
            arcs,
            n,
            pi,
            labels.update(v as int, alt),
            queue.insert(v, (alt, false)),
            settled,
        ),
{
}

/// A walk extended by an arc from the node that was visited last.
proof fn lemma_label_walked(
    arcs: Seq<WeightedArc>,
    n: int,
    pi: Seq<IntVal>,
    labels: Seq<IntVal>,
    src: int,
    hops: int,
    room: int,
    low: int,
    k: int,
    alt: IntVal,
)
    requires
        0 <= k < arcs.len(),
        arcs_within(arcs, n),
        weights_fit(arcs, n),
        room == span(arcs, arcs.len() as int),
        pi.len() == n,
        labels.len() == n,
        0 <= src < n,
        1 <= hops <= n,
        room >= 0,
        low >= 0,
        2 * (2 * low + n * room + room) <= IntVal::MAX,
        forall|v: int| 0 <= v < n ==> -low <= #[trigger] pi[v] <= 0,
        walked(arcs, n, pi, labels, src, hops, room),
        0 <= labels[arcs[k].from as int] < IntVal::MAX,
        labels[arcs[k].from as int] + pi[arcs[k].from as int] - pi[src] <= (hops - 1) * room,
        alt == clamped(labels[arcs[k].from as int] + reduced(arcs[k], pi)),
    ensures
        walked(arcs, n, pi, labels.update(arcs[k].to as int, alt), src, hops, room),
{
    let arc = arcs[k];
    let u = arc.from as int;
    let v = arc.to as int;
    lemma_span_weights(arcs);
    assert(-room <= arcs[k].weight <= room);
    assert(-low <= pi[u] <= 0 && -low <= pi[v] <= 0 && -low <= pi[src] <= 0);
    assert((hops - 1) * room <= n * room) by (nonlinear_arith)
        requires
            hops <= n,
            room >= 0,
    ;
    assert(hops * room == (hops - 1) * room + room) by (nonlinear_arith);
    assert(alt == labels[u] + pi[u] + arc.weight - pi[v]);
    let d_u = labels[u] + pi[u] - pi[src];
    let d = alt + pi[v] - pi[src];
    assert(bounds_potential(arcs, n, src, u, d_u));
    assert forall|p: Seq<int>| p.len() == n && #[trigger] admissible(arcs, p) implies p[v]
        <= p[src] + d by {
        assert(p[arcs[k].to as int] <= p[arcs[k].from as int] + arcs[k].weight);
    }
}

proof fn lemma_distances(
    arcs: Seq<WeightedArc>,
    n: int,
    pi: Seq<IntVal>,
    labels: Seq<IntVal>,
    queue: Map<usize, Priority>,
    settled: Set<int>,
    src: int,
    room: int,
    low: int,
    dist: Seq<IntVal>,
)
    requires
        arcs_within(arcs, n),
        weights_fit(arcs, n),
        room == span(arcs, arcs.len() as int),
        pi.len() == n,
        0 <= src < n <= usize::MAX,
        room >= 0,
        low >= 0,
        2 * (2 * low + n * room + room) <= IntVal::MAX,
        forall|v: int| 0 <= v < n ==> -low <= #[trigger] pi[v] <= 0,
        labelled(arcs, n, pi, labels, queue, settled),
        labels[src] == 0,
        forall|v: usize| !#[trigger] queue.dom().contains(v),
        settled.len() <= n,
        walked(arcs, n, pi, labels, src, settled.len() as int, room),
        forall|k: int|
            0 <= k < arcs.len() && settled.contains((#[trigger] arcs[k]).from as int) ==> relaxed(
                arcs[k],
                pi,
                labels,
            ),
        dist.len() == n,
        forall|k: int|
            0 <= k < n ==> #[trigger] dist[k] == if labels[k] == IntVal::MAX {
                IntVal::MAX as int
            } else {
                clamped(clamped(labels[k] + pi[k]) - pi[src])
            },
    ensures
        distances(arcs, n, src, dist),
{
    let hops = settled.len() as int;
    assert(hops * room <= n * room) by (nonlinear_arith)
        requires
            hops <= n,
            room >= 0,
    ;
    assert forall|v: int| 0 <= v < n && labels[v] < IntVal::MAX implies #[trigger] dist[v]
        == labels[v] + pi[v] - pi[src] && -low <= dist[v] <= n * room && settled.contains(v) by {
        assert(-low <= pi[v] <= 0 && -low <= pi[src] <= 0);
        assert(labels[v] >= 0);
        if !settled.contains(v) {
            assert(queue.dom().contains(v as usize));
        }
    }
    assert forall|v: int| 0 <= v < n implies (#[trigger] dist[v] < IntVal::MAX) == (labels[v]
        < IntVal::MAX) by {}
    assert forall|k: int|
        0 <= k < arcs.len() && dist[(#[trigger] arcs[k]).from as int] < IntVal::MAX implies dist[arcs[k].to as int]
        < IntVal::MAX && dist[arcs[k].to as int] <= dist[arcs[k].from as int]
        + arcs[k].weight by {
        let u = arcs[k].from as int;
        let v = arcs[k].to as int;
        assert(dist[u] == labels[u] + pi[u] - pi[src]);
        assert(settled.contains(u));
        assert(relaxed(arcs[k], pi, labels));
        lemma_span_weights(arcs);
        assert(-room <= arcs[k].weight <= room);
        assert(-low <= pi[u] <= 0 && -low <= pi[v] <= 0 && -low <= pi[src] <= 0);
        assert(labels[v] <= labels[u] + pi[u] + arcs[k].weight - pi[v]);
        assert(labels[v] < IntVal::MAX);
        assert(dist[v] == labels[v] + pi[v] - pi[src]);
    }
}


/// The potentials as mathematical integers.
pub open spec fn potentials(pi: Seq<IntVal>) -> Seq<int> {
    Seq::new(pi.len(), |v: int| pi[v] as int)
}

/// Where no sum leaves the range, potentials that no arc lowers are admissible.
pub proof fn lemma_stable_admissible(arcs: Seq<WeightedArc>, n: int, pi: Seq<IntVal>)
    requires
        arcs_within(arcs, n),
        n >= 0,
        pi.len() == n,
        stable(arcs, pi),
        weights_fit(arcs, n),
        forall|v: int|
            0 <= v < n ==> -(n * span(arcs, arcs.len() as int))
                <= #[trigger] pi[v] <= 0,
    ensures
        admissible(arcs, potentials(pi)),
        has_potentials(arcs, n),
{
    lemma_span_room(arcs, n);
    lemma_span_weights(arcs);
    let p = potentials(pi);
    assert forall|k: int| 0 <= k < arcs.len() implies p[(#[trigger] arcs[k]).to as int]
        <= p[arcs[k].from as int] + arcs[k].weight by {
        assert(pi[arcs[k].to as int] <= clamped(pi[arcs[k].from as int] + arcs[k].weight));
        let u = arcs[k].from as int;
        assert(-(n * span(arcs, arcs.len() as int)) <= pi[u] <= 0);
    }
    assert(p.len() == n && admissible(arcs, p));
}

/// The distance between two nodes is the least bound on the difference of their potentials.
pub proof fn lemma_distance_least(
    arcs: Seq<WeightedArc>,
    n: int,
    pi: Seq<int>,
    src: int,
    dist: Seq<IntVal>,
    v: int,
    c: int,
)
    requires
        arcs_within(arcs, n),
        pi.len() == n,
        admissible(arcs, pi),
        forall|v: int| 0 <= v < n ==> IntVal::MIN <= #[trigger] pi[v] <= IntVal::MAX,
        0 <= src < n,
        0 <= v < n,
        distances(arcs, n, src, dist),
    ensures
        (dist[v] < IntVal::MAX && dist[v] <= c) <==> bounds_potential(arcs, n, src, v, c),
{
    if dist[v] < IntVal::MAX && dist[v] <= c {
        assert(bounds_potential(arcs, n, src, v, dist[v] as int));
        assert forall|p: Seq<int>| p.len() == n && #[trigger] admissible(arcs, p) implies p[v]
            <= p[src] + c by {}
    } else {
        let far = 4 * 0x1_0000_0000_0000_0000 + if c > 0 {
            c
        } else {
            0
        };
        let p = Seq::new(
            n as nat,
            |u: int|
                if dist[u] < IntVal::MAX {
                    dist[u] as int
                } else {
                    pi[u] + far
                },
        );
        assert forall|k: int| 0 <= k < arcs.len() implies p[(#[trigger] arcs[k]).to as int]
            <= p[arcs[k].from as int] + arcs[k].weight by {
            let a = arcs[k].from as int;
            let b = arcs[k].to as int;
            assert(pi[b] <= pi[a] + arcs[k].weight);
            assert(IntVal::MIN <= pi[a] <= IntVal::MAX);
        }
        assert(admissible(arcs, p));
        assert(p[src] == 0);
        assert(IntVal::MIN <= pi[v] <= IntVal::MAX);
        assert(p[v] > c);
        assert(!bounds_potential(arcs, n, src, v, c));
    }
}

/// For each node, the indices of the arcs that start from it.
pub fn outgoing(n: usize, arcs: &Vec<WeightedArc>) -> (out: Vec<Vec<usize>>)
    requires
        arcs_within(arcs@, n as int),
    ensures
        lists_out(arcs@, out@, n as int),
{
    let mut out: Vec<Vec<usize>> = Vec::new();
    let mut u: usize = 0;
    while u < n
        invariant
            u <= n,
            out.len() == u,
            forall|k: int| 0 <= k < u ==> (#[trigger] out[k])@ == Seq::<usize>::empty(),
        decreases n - u,
    {
        out.push(Vec::new());
        u = u + 1;
    }
    let mut k: usize = 0;
    while k < arcs.len()
        invariant
            k <= arcs.len(),
            arcs_within(arcs@, n as int),
            out.len() == n,
            forall|u: int, i: int|
                0 <= u < n && 0 <= i < out[u].len() ==> (#[trigger] out[u]@[i]) < arcs.len()
                    && arcs[out[u]@[i] as int].from == u,
            forall|l: int|
                0 <= l < k ==> (out[(#[trigger] arcs@[l]).from as int]@).contains(l as usize),
        decreases arcs.len() - k,
    {
        let u: usize = arcs[k].from;
        let ghost before = out@;
        assert(arcs@[k as int].from < n);
        out[u].push(k);
        proof {
            assert(out@[u as int]@ == before[u as int]@.push(k));
            assert forall|w: int| 0 <= w < n && w != u implies out@[w] == before[w] by {}
            assert forall|l: int| 0 <= l < k + 1 implies (out@[(
            #[trigger] arcs@[l]).from as int]@).contains(l as usize) by {
                let w = arcs@[l].from as int;
                if l < k {
                    let i = before[w]@.index_of(l as usize);
                    assert(before[w]@.contains(l as usize));
                    assert(out@[w]@[i] == l as usize);
                } else {
                    assert(out@[w]@[out@[w].len() - 1] == l as usize);
                }
            }
        }
        k = k + 1;
    }
    out
}

/// The distances between all nodes, unless relaxation found a cycle of negative weight.
pub fn all_distances(n: usize, arcs: &Vec<WeightedArc>) -> (r: Option<Vec<Vec<IntVal>>>)
    requires
        arcs_within(arcs@, n as int),
        n > 0,
    ensures
        r matches Some(dist) ==> dist.len() == n && forall|u: int|
            0 <= u < n ==> (#[trigger] dist[u]).len() == n,
        weights_fit(arcs@, n as int) ==> (r is Some <==> has_potentials(arcs@, n as int)),
        weights_fit(arcs@, n as int) ==> (r matches Some(dist) ==> forall|u: int|
            0 <= u < n ==> distances(arcs@, n as int, u, (#[trigger] dist[u])@)),
        weights_fit(arcs@, n as int) ==> (r matches Some(dist) ==> forall|u: int, v: int, c: int|
            0 <= u < n && 0 <= v < n ==> ((dist[u][v] < IntVal::MAX && dist[u][v] <= c)
                <==> #[trigger] bounds_potential(arcs@, n as int, u, v, c))),
{
    let (pi, changed): (Vec<IntVal>, bool) = bellman_ford(n, arcs);
    if changed {
        return None;
    }
    let out: Vec<Vec<usize>> = outgoing(n, arcs);
    let mut dist: Vec<Vec<IntVal>> = Vec::new();
    let ghost fits = weights_fit(arcs@, n as int);
    proof {
        if fits {
            lemma_stable_admissible(arcs@, n as int, pi@);
        }
    }
    let mut src: usize = 0;
    while src < n
        invariant
            src <= n,
            dist.len() == src,
            arcs_within(arcs@, n as int),
            lists_out(arcs@, out@, n as int),
            pi.len() == n,
            forall|v: int| 0 <= v < n ==> #[trigger] pi[v] <= 0,
            stable(arcs@, pi@),
            fits == weights_fit(arcs@, n as int),
            fits ==> forall|v: int|
                0 <= v < n ==> #[trigger] pi[v] >= -(n * span(arcs@, arcs.len() as int)),
            forall|u: int| 0 <= u < src ==> (#[trigger] dist[u]).len() == n,
            fits ==> forall|u: int|
                0 <= u < src ==> distances(arcs@, n as int, u, (#[trigger] dist[u])@),
        decreases n - src,
    {
        let row: Vec<IntVal> = dijkstra(n, arcs, &out, &pi, src);
        dist.push(row);
        src = src + 1;
    }
    proof {
        if fits {
            assert forall|u: int, v: int, c: int| 0 <= u < n && 0 <= v < n implies ((
            dist[u][v] < IntVal::MAX && dist[u][v] <= c) <==> #[trigger] bounds_potential(
                arcs@,
                n as int,
                u,
                v,
                c,
            )) by {
                assert(distances(arcs@, n as int, u, dist[u]@));
                let p = potentials(pi@);
                assert forall|v: int| 0 <= v < n implies IntVal::MIN <= #[trigger] p[v]
                    <= IntVal::MAX by {}
                lemma_distance_least(arcs@, n as int, p, u, dist[u]@, v, c);
            }
        }
    }
    Some(dist)
}

} // verus!
