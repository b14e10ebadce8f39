//! Tables of how many values the intervals between bounds have to spare.

use vstd::prelude::*;

use crate::constraints::int_unique::all_different;
use crate::helpers::sorted::{ascending, insert_value};
use crate::solver::int_view::in_limits;
use crate::solver::view::{BoolAssignment, IntAssignment, IntVal, IntView, INT_LIMIT};

verus! {

/// Whether the interval from `a` up to, but not including, `b` holds the bounds with index `k`.
pub open spec fn encloses(lbs: Seq<IntVal>, ubs: Seq<IntVal>, a: int, b: int, k: int) -> bool {
    lbs[k] >= a && ubs[k] < b
}

/// The number of the first `n` pairs of bounds that the interval holds.
pub open spec fn enclosed(lbs: Seq<IntVal>, ubs: Seq<IntVal>, a: int, b: int, n: int) -> int
    decreases n,
{
    if n <= 0 {
        0
    } else {
        enclosed(lbs, ubs, a, b, n - 1) + if encloses(lbs, ubs, a, b, n - 1) {
            1int
        } else {
            0int
        }
    }
}

/// The indices of the bounds that the interval holds.
pub proof fn lemma_members(lbs: Seq<IntVal>, ubs: Seq<IntVal>, a: int, b: int, n: int) -> (members:
    Seq<int>)
    requires
        0 <= n,
    ensures
        members.len() == enclosed(lbs, ubs, a, b, n),
        members.no_duplicates(),
        forall|p: int|
            0 <= p < members.len() ==> 0 <= #[trigger] members[p] < n && encloses(
                lbs,
                ubs,
                a,
                b,
                members[p],
            ),
        0 <= enclosed(lbs, ubs, a, b, n) <= n,
    decreases n,
{
    if n <= 0 {
        Seq::empty()
    } else {
        let rest = lemma_members(lbs, ubs, a, b, n - 1);
        if encloses(lbs, ubs, a, b, n - 1) {
            let members = rest.push(n - 1);
            assert forall|p: int, q: int| 0 <= p < q < members.len() implies members[p]
                != members[q] by {
                if q == rest.len() {
                    assert(rest[p] < n - 1);
                }
            }
            members
        } else {
            rest
        }
    }
}

/// Views that fill an interval leave none of its values to another view.
pub proof fn lemma_filled(
    vars: Seq<IntView>,
    members: Seq<int>,
    i: int,
    a: int,
    b: int,
    ints: IntAssignment,
    bools: BoolAssignment,
)
    requires
        all_different(vars)(ints, bools),
        members.no_duplicates(),
        members.len() >= b - a,
        0 <= i < vars.len(),
        forall|p: int|
            0 <= p < members.len() ==> 0 <= #[trigger] members[p] < vars.len() && members[p] != i
                && a <= vars[members[p]].eval(ints, bools) < b,
    ensures
        !(a <= vars[i].eval(ints, bools) < b),
{
    let e = vars[i].eval(ints, bools);
    if a <= e < b {
        let values = Seq::new(members.len(), |p: int| vars[members[p]].eval(ints, bools));
        let all = values.push(e);
        assert forall|p: int, q: int| 0 <= p < q < all.len() implies all[p] != all[q] by {
            let x = members[p];
            let y = if q < values.len() {
                members[q]
            } else {
                i
            };
            assert(x != y);
            if x < y {
                assert(vars[x].eval(ints, bools) != vars[y].eval(ints, bools));
            } else {
                assert(vars[y].eval(ints, bools) != vars[x].eval(ints, bools));
            }
        }
        all.unique_seq_to_set();
        let range = vstd::set_lib::set_int_range(a, b);
        vstd::set_lib::lemma_int_range(a, b);
        assert(all.to_set().subset_of(range)) by {
            assert forall|x: int| all.to_set().contains(x) implies range.contains(x) by {
                let p = choose|p: int| 0 <= p < all.len() && all[p] == x;
                if p < values.len() {
                    let _ = members[p];
                }
            }
        }
        vstd::set_lib::lemma_len_subset(all.to_set(), range);
    }
}

/// Whether the bounds with index `k` start or end at the value.
pub open spec fn is_end(lbs: Seq<IntVal>, ubs: Seq<IntVal>, k: int, v: IntVal) -> bool {
    lbs[k] == v || ubs[k] + 1 == v
}

/// Whether the values are the bounds from which intervals start, and those at which they end.
pub open spec fn critical(s: Seq<IntVal>, lbs: Seq<IntVal>, ubs: Seq<IntVal>) -> bool {
    forall|v: IntVal| #[trigger]
        s.contains(v) <==> exists|k: int|
            0 <= k < lbs.len() && #[trigger] is_end(lbs, ubs, k, v)
}

/// The entry of a square table with `m` columns.
pub open spec fn cell(table: Seq<IntVal>, m: int, l: int, u: int) -> int {
    table[l * m + u] as int
}

/// How many values an interval has to spare.
pub open spec fn spare(
    s: Seq<IntVal>,
    lbs: Seq<IntVal>,
    ubs: Seq<IntVal>,
    l: int,
    u: int,
) -> int {
    s[u] - s[l] - enclosed(lbs, ubs, s[l] as int, s[u] as int, lbs.len() as int)
}

/// Whether the table holds how many values each interval has to spare.
pub open spec fn is_slack(
    table: Seq<IntVal>,
    s: Seq<IntVal>,
    lbs: Seq<IntVal>,
    ubs: Seq<IntVal>,
) -> bool {
    &&& table.len() == s.len() * s.len()
    &&& forall|l: int, u: int|
        #![trigger cell(table, s.len() as int, l, u)]
        0 <= l < s.len() && 0 <= u < s.len() ==> cell(table, s.len() as int, l, u) == if l < u {
            spare(s, lbs, ubs, l, u)
        } else {
            0
        }
}

/// Entries lie within the table.
pub proof fn lemma_cell(m: int, l: int, u: int)
    requires
        0 <= l < m,
        0 <= u < m,
    ensures
        0 <= l * m + u < m * m,
{
    assert(0 <= l * m + u < m * m) by (nonlinear_arith)
        requires
            0 <= l < m,
            0 <= u < m,
    ;
}

/// Entries at different positions are different ones.
pub proof fn lemma_cells_apart(m: int, l: int, u: int, a: int, b: int)
    requires
        0 <= u < m,
        0 <= b < m,
        l * m + u == a * m + b,
    ensures
        l == a,
        u == b,
{
    vstd::arithmetic::div_mod::lemma_fundamental_div_mod_converse(l * m + u, m, l, u);
    vstd::arithmetic::div_mod::lemma_fundamental_div_mod_converse(a * m + b, m, a, b);
}

/// Whether the bounds lie within the limits.
pub open spec fn bounds_limited(lbs: Seq<IntVal>, ubs: Seq<IntVal>) -> bool {
    &&& lbs.len() == ubs.len()
    &&& forall|k: int|
        0 <= k < lbs.len() ==> in_limits((#[trigger] lbs[k]) as int) && in_limits(ubs[k] as int)
}

/// The bounds from which intervals start and those at which they end, in increasing order.
pub fn critical_values(lbs: &Vec<IntVal>, ubs: &Vec<IntVal>) -> (s: Vec<IntVal>)
    requires
        bounds_limited(lbs@, ubs@),
    ensures
        ascending(s@),
        critical(s@, lbs@, ubs@),
        s.len() <= 2 * lbs.len(),
{
    let mut s: Vec<IntVal> = Vec::new();
    let mut i: usize = 0;
    while i < lbs.len()
        invariant
            i <= lbs.len(),
            bounds_limited(lbs@, ubs@),
            ascending(s@),
            s.len() <= 2 * i,
            forall|v: IntVal| #[trigger]
                s@.contains(v) <==> exists|k: int|
                    0 <= k < i && #[trigger] is_end(lbs@, ubs@, k, v),
        decreases lbs.len() - i,
    {
        let ghost before = s@;
        let lb: IntVal = lbs[i];
        let ub: IntVal = ubs[i];
        insert_value(&mut s, lb);
        let ghost mid = s@;
        insert_value(&mut s, ub + 1);
        proof {
            assert forall|v: IntVal| #[trigger]
                s@.contains(v) <==> exists|k: int|
                    0 <= k < i + 1 && #[trigger] is_end(lbs@, ubs@, k, v) by {
                assert(s@.contains(v) <==> mid.contains(v) || v == ub + 1);
                assert(mid.contains(v) <==> before.contains(v) || v == lb);
                if before.contains(v) {
                    let k = choose|k: int|
                        0 <= k < i && #[trigger] is_end(lbs@, ubs@, k, v);
                    assert(is_end(lbs@, ubs@, k, v));
                }
                if v == lb || v == ub + 1 {
                    assert(is_end(lbs@, ubs@, i as int, v));
                }
                if exists|k: int|
                    0 <= k < i + 1 && #[trigger] is_end(lbs@, ubs@, k, v) {
                    let k = choose|k: int|
                        0 <= k < i + 1 && #[trigger] is_end(lbs@, ubs@, k, v);
                    if k < i {
                        assert(before.contains(v));
                    }
                }
            }
        }
        i = i + 1;
    }
    s
}

/// The number of pairs of bounds that the interval holds.
fn count_enclosed(lbs: &Vec<IntVal>, ubs: &Vec<IntVal>, a: IntVal, b: IntVal) -> (r: usize)
    requires
        lbs.len() == ubs.len(),
    ensures
        r == enclosed(lbs@, ubs@, a as int, b as int, lbs.len() as int),
        r <= lbs.len(),
{
    let mut r: usize = 0;
    let mut i: usize = 0;
    while i < lbs.len()
        invariant
            i <= lbs.len(),
            lbs.len() == ubs.len(),
            r <= i,
            r == enclosed(lbs@, ubs@, a as int, b as int, i as int),
        decreases lbs.len() - i,
    {
        if lbs[i] >= a && ubs[i] < b {
            r = r + 1;
        }
        i = i + 1;
    }
    r
}

/// The table of how many values each interval between critical values has to spare.
pub fn slack_table(s: &Vec<IntVal>, lbs: &Vec<IntVal>, ubs: &Vec<IntVal>) -> (table: Vec<IntVal>)
    requires
        bounds_limited(lbs@, ubs@),
        critical(s@, lbs@, ubs@),
        s.len() * s.len() <= usize::MAX,
        lbs.len() <= INT_LIMIT,
    ensures
        is_slack(table@, s@, lbs@, ubs@),
{
    let m: usize = s.len();
    let mut table: Vec<IntVal> = Vec::new();
    let mut l: usize = 0;
    while l < m
        invariant
            l <= m,
            m == s.len(),
            m * m <= usize::MAX,
            table.len() == l * m,
            bounds_limited(lbs@, ubs@),
            critical(s@, lbs@, ubs@),
            lbs.len() <= INT_LIMIT,
            forall|a: int, b: int|
                #![trigger cell(table@, m as int, a, b)]
                0 <= a < l && 0 <= b < m ==> cell(table@, m as int, a, b) == if a < b {
                    spare(s@, lbs@, ubs@, a, b)
                } else {
                    0
                },
        decreases m - l,
    {
        let mut u: usize = 0;
        while u < m
            invariant
                l < m,
                u <= m,
                m == s.len(),
                m * m <= usize::MAX,
                table.len() == l * m + u,
                bounds_limited(lbs@, ubs@),
                critical(s@, lbs@, ubs@),
                lbs.len() <= INT_LIMIT,
                forall|a: int, b: int|
                    #![trigger cell(table@, m as int, a, b)]
                    0 <= b < m && (0 <= a < l || (a == l && b < u)) ==> cell(
                        table@,
                        m as int,
                        a,
                        b,
                    ) == if a < b {
                        spare(s@, lbs@, ubs@, a, b)
                    } else {
                        0
                    },
            decreases m - u,
        {
            let ghost before = table@;
            if l < u {
                let bl: IntVal = s[l];
                let bu: IntVal = s[u];
                proof {
                    lemma_critical_limited(s@, lbs@, ubs@, l as int);
                    lemma_critical_limited(s@, lbs@, ubs@, u as int);
                }
                let count: usize = count_enclosed(lbs, ubs, bl, bu);
                table.push((bu - bl) - count as IntVal);
            } else {
                table.push(0);
            }
            proof {
                assert forall|a: int, b: int|
                    #![trigger cell(table@, m as int, a, b)]
                    0 <= b < m && (0 <= a < l || (a == l && b < u + 1)) implies cell(
                    table@,
                    m as int,
                    a,
                    b,
                ) == if a < b {
                    spare(s@, lbs@, ubs@, a, b)
                } else {
                    0
                } by {
                    if !(a == l && b == u) {
                        assert(0 <= a * m + b < l * m + u) by (nonlinear_arith)
                            requires
                                0 <= b < m,
                                0 <= a < l || (a == l && b < u),
                                0 <= u,
                        ;
                        assert(cell(table@, m as int, a, b) == cell(before, m as int, a, b));
                    }
                }
            }
            u = u + 1;
        }
        proof {
            assert(l * m + m == (l + 1) * m) by (nonlinear_arith);
        }
        l = l + 1;
    }
    table
}

proof fn lemma_critical_limited(s: Seq<IntVal>, lbs: Seq<IntVal>, ubs: Seq<IntVal>, l: int)
    requires
        bounds_limited(lbs, ubs),
        critical(s, lbs, ubs),
        0 <= l < s.len(),
    ensures
        -INT_LIMIT <= s[l] <= INT_LIMIT + 1,
{
    assert(s.contains(s[l]));
    let v = s[l];
    let k = choose|k: int| 0 <= k < lbs.len() && #[trigger] is_end(lbs, ubs, k, v);
    assert(in_limits(lbs[k] as int) && in_limits(ubs[k] as int));
}

} // verus!
